//! Naming rules of parameter stores.
use vstd::prelude::*;
use crate::nn::error::Error;
use crate::text::{dims_text, dims_text_spec};

verus! {

/// Whether a stored tensor is trained or only carried along.
#[derive(Clone, Copy, Debug, PartialEq, Eq, Structural)]
pub enum Kind {
    Param,
    Buffer,
}

/// A name segment is non-empty and holds no `.`, the separator of key paths.
pub open spec fn segment_valid(seg: Seq<char>) -> bool {
    seg.len() > 0 && !seg.contains('.')
}

/// The key of `name` under the prefix `prefix`: `prefix.name`, or `name`
/// when the prefix is empty.
pub open spec fn join_key_spec(prefix: Seq<char>, name: Seq<char>) -> Seq<char> {
    if prefix.len() == 0 {
        name
    } else {
        prefix + seq!['.'] + name
    }
}

fn contains_dot(s: &str) -> (b: bool)
    ensures
        b == s@.contains('.'),
{
    let n = s.unicode_len();
    let mut i: usize = 0;
    while i < n
        invariant
            n == s@.len(),
            i <= n,
            forall|k: int| 0 <= k < i ==> s@[k] != '.',
        decreases n - i,
    {
        if s.get_char(i) == '.' {
            return true;
        }
        i += 1;
    }
    false
}

/// Checks that `seg` can be one segment of a key: non-empty, without `.`.
pub fn validate_segment(seg: &str) -> (r: Result<(), Error>)
    ensures
        r is Ok <==> segment_valid(seg@),
        seg@.len() == 0 ==> (r matches Err(Error::State(m)) && m@ == "empty name segment"@),
        seg@.len() > 0 && seg@.contains('.') ==> (r matches Err(Error::State(m)) && m@
            == "'.' is reserved in name segment: "@ + seg@),
{
    if seg.unicode_len() == 0 {
        return Err(Error::State(String::from_str("empty name segment")));
    }
    if contains_dot(seg) {
        let mut msg = String::from_str("'.' is reserved in name segment: ");
        msg.append(seg);
        return Err(Error::State(msg));
    }
    Ok(())
}

/// Checks the name of a new parameter or buffer; names follow the segment rules.
pub fn validate_leaf_name(name: &str) -> (r: Result<(), Error>)
    ensures
        r is Ok <==> segment_valid(name@),
        name@.len() == 0 ==> (r matches Err(Error::State(m)) && m@ == "empty name segment"@),
        name@.len() > 0 && name@.contains('.') ==> (r matches Err(Error::State(m)) && m@
            == "'.' is reserved in name segment: "@ + name@),
{
    validate_segment(name)
}

/// The key of `name` under `prefix`.
pub fn join_key(prefix: &str, name: &str) -> (r: String)
    ensures
        r@ == join_key_spec(prefix@, name@),
{
    let mut key = String::from_str(prefix);
    if prefix.unicode_len() != 0 {
        key.append(".");
        proof {
            reveal_strlit(".");
        }
    }
    key.append(name);
    key
}

/// Checks whether a store may create an entry of `shape`: not after the store
/// was sealed, and never with a zero dimension.
pub fn check_new_entry(sealed: bool, shape: &[usize]) -> (r: Result<(), Error>)
    ensures
        sealed ==> (r matches Err(Error::State(m)) && m@
            == "store is sealed; cannot create new parameters"@),
        !sealed && shape@.contains(0usize) ==> (r matches Err(Error::Shape(m)) && m@
            == "zero dimension in shape "@ + dims_text_spec(shape@)),
        !sealed && !shape@.contains(0usize) ==> r is Ok,
{
    if sealed {
        return Err(Error::State(String::from_str("store is sealed; cannot create new parameters")));
    }
    let mut i: usize = 0;
    while i < shape.len()
        invariant
            !sealed,
            i <= shape@.len(),
            forall|k: int| 0 <= k < i ==> shape@[k] != 0,
        decreases shape@.len() - i,
    {
        if shape[i] == 0 {
            let mut msg = String::from_str("zero dimension in shape ");
            msg.append(dims_text(shape).as_str());
            return Err(Error::Shape(msg));
        }
        i += 1;
    }
    Ok(())
}

/// The message of the error for a key that an entry of `kind` already has.
pub open spec fn duplicate_entry_message(kind: Kind, key: Seq<char>) -> Seq<char> {
    match kind {
        Kind::Param => "duplicate param key: "@ + key,
        Kind::Buffer => "duplicate buffer key: "@ + key,
    }
}

/// Checks that a new entry of `kind` may take `key`, given the keys that the
/// entries of that kind already have: a key is taken once per kind.
pub fn check_new_key(kind: Kind, key: &String, existing: &[String]) -> (r: Result<(), Error>)
    ensures
        (exists|i: int| 0 <= i < existing@.len() && existing@[i]@ == key@) ==> (r matches Err(
            Error::State(m),
        ) && m@ == duplicate_entry_message(kind, key@)),
        !(exists|i: int| 0 <= i < existing@.len() && existing@[i]@ == key@) ==> r is Ok,
{
    let mut i: usize = 0;
    while i < existing.len()
        invariant
            i <= existing@.len(),
            forall|j: int| 0 <= j < i ==> existing@[j]@ != key@,
        decreases existing@.len() - i,
    {
        if existing[i] == *key {
            let mut msg = match kind {
                Kind::Param => String::from_str("duplicate param key: "),
                Kind::Buffer => String::from_str("duplicate buffer key: "),
            };
            msg.append(key.as_str());
            return Err(Error::State(msg));
        }
        i += 1;
    }
    Ok(())
}

} // verus!
