//! The input rule of fully connected layers.
use vstd::prelude::*;
use crate::nn::error::Error;
use crate::text::{decimal, decimal_text, dims_text, dims_text_spec};

verus! {

/// Checks that a fully connected layer with `in_f` inputs can take a batch
/// of `shape`: it must be `[batch, in_f]`.
pub fn check_linear_input(shape: &[usize], in_f: usize) -> (r: Result<(), Error>)
    ensures
        r is Ok <==> (shape@.len() == 2 && shape@[1] == in_f),
        r matches Err(e) ==> (e matches Error::Shape(m) && m@ == "Linear: expected [batch, "@
            + decimal(in_f as nat) + "], got "@ + dims_text_spec(shape@)),
{
    if shape.len() != 2 || shape[1] != in_f {
        let mut msg = String::from_str("Linear: expected [batch, ");
        msg.append(decimal_text(in_f).as_str());
        msg.append("], got ");
        msg.append(dims_text(shape).as_str());
        return Err(Error::Shape(msg));
    }
    Ok(())
}

} // verus!
