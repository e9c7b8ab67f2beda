//! The IDX file format of the MNIST dataset, and batching of samples.
use vstd::prelude::*;
use crate::text::{decimal, decimal_text, decimal_text_u64};

verus! {

/// The number of pixels of one MNIST image.
pub const IMAGE_PIXELS: usize = 784;

#[verifier::external_type_specification]
#[verifier::external_body]
pub struct ExIoError(std::io::Error);

/// Errors of reading the dataset.
#[derive(Debug)]
pub enum Error {
    /// Reading a file failed.
    Io(std::io::Error),
    /// A file does not follow the format.
    Format(String),
}

/// The big-endian 32-bit number stored at `off` in `b`.
pub open spec fn be_u32(b: Seq<u8>, off: int) -> int {
    b[off] * 0x1000000 + b[off + 1] * 0x10000 + b[off + 2] * 0x100 + b[off + 3]
}

/// The message of the error for a file that ends inside a number.
pub open spec fn eof_message(path: Seq<char>) -> Seq<char> {
    "unexpected eof reading u32 in "@ + path
}

/// The message of the error for an image file `b` read from `path` that is
/// not well formed: the first check that fails, in reading order.
pub open spec fn images_error(path: Seq<char>, b: Seq<u8>) -> Seq<char> {
    if b.len() < 4 {
        eof_message(path)
    } else if be_u32(b, 0) != 2051 {
        "bad images magic "@ + decimal(be_u32(b, 0) as nat) + " in "@ + path
    } else if b.len() < 16 {
        eof_message(path)
    } else if be_u32(b, 8) != 28 || be_u32(b, 12) != 28 {
        "expected 28x28 images, got "@ + decimal(be_u32(b, 8) as nat) + "x"@ + decimal(
            be_u32(b, 12) as nat,
        )
    } else {
        "unexpected images file size: expected "@ + decimal((16 + be_u32(b, 4) * 784) as nat)
            + ", got "@ + decimal(b.len())
    }
}

/// The message of the error for a label file `b` read from `path` that is
/// not well formed: the first check that fails, in reading order.
pub open spec fn labels_error(path: Seq<char>, b: Seq<u8>) -> Seq<char> {
    if b.len() < 4 {
        eof_message(path)
    } else if be_u32(b, 0) != 2049 {
        "bad labels magic "@ + decimal(be_u32(b, 0) as nat) + " in "@ + path
    } else if b.len() < 8 {
        eof_message(path)
    } else {
        "unexpected labels file size: expected "@ + decimal((8 + be_u32(b, 4)) as nat) + ", got "@
            + decimal(b.len())
    }
}

/// A read position in the bytes of a file.
pub struct Cursor {
    path: String,
    buf: Vec<u8>,
    off: usize,
}

impl Cursor {
    #[verifier::type_invariant]
    closed spec fn cursor_invariant(self) -> bool {
        self.off <= self.buf@.len()
    }

    /// The bytes read.
    pub closed spec fn bytes(&self) -> Seq<u8> {
        self.buf@
    }

    /// The position of the next read.
    pub closed spec fn pos(&self) -> int {
        self.off as int
    }

    /// The path of the file, for error messages.
    pub closed spec fn path(&self) -> Seq<char> {
        self.path@
    }

    /// A cursor at the start of `buf`, the contents of the file at `path`.
    pub fn new(path: String, buf: Vec<u8>) -> (c: Self)
        ensures
            c.bytes() == buf@,
            c.pos() == 0,
            c.path() == path@,
    {
        Cursor { path, buf, off: 0 }
    }

    /// Reads a big-endian `u32` and moves past it; fails at the end of the bytes.
    pub fn read_u32_be(&mut self) -> (r: Result<u32, Error>)
        ensures
            final(self).bytes() == old(self).bytes(),
            final(self).path() == old(self).path(),
            old(self).pos() + 4 > old(self).bytes().len() ==> (r matches Err(Error::Format(m))
                && m@ == eof_message(old(self).path()) && final(self).pos() == old(self).pos()),
            old(self).pos() + 4 <= old(self).bytes().len() ==> (r matches Ok(v) && v == be_u32(
                old(self).bytes(),
                old(self).pos(),
            ) && final(self).pos() == old(self).pos() + 4),
    {
        proof {
            use_type_invariant(&*self);
        }
        if self.buf.len() - self.off < 4 {
            let mut msg = String::from_str("unexpected eof reading u32 in ");
            msg.append(self.path.as_str());
            return Err(Error::Format(msg));
        }
        let o = self.off;
        let b0 = self.buf[o] as u32;
        let b1 = self.buf[o + 1] as u32;
        let b2 = self.buf[o + 2] as u32;
        let b3 = self.buf[o + 3] as u32;
        self.off = o + 4;
        Ok(b0 * 0x1000000 + b1 * 0x10000 + b2 * 0x100 + b3)
    }

    /// The bytes from the read position on.
    pub fn rest(&self) -> (r: Vec<u8>)
        ensures
            r@ == self.bytes().subrange(self.pos(), self.bytes().len() as int),
    {
        proof {
            use_type_invariant(self);
        }
        let mut out: Vec<u8> = Vec::new();
        let mut i: usize = self.off;
        while i < self.buf.len()
            invariant
                self.off <= i <= self.buf@.len(),
                out@ =~= self.buf@.subrange(self.off as int, i as int),
            decreases self.buf@.len() - i,
        {
            out.push(self.buf[i]);
            i += 1;
        }
        out
    }

    /// The number of bytes.
    pub fn len(&self) -> (n: usize)
        ensures
            n == self.bytes().len(),
    {
        self.buf.len()
    }
}

/// A well-formed image file: magic 2051, a count `n`, 28 rows and 28 columns,
/// then exactly `n * 784` pixel bytes.
pub open spec fn images_file_ok(b: Seq<u8>) -> bool {
    &&& b.len() >= 16
    &&& be_u32(b, 0) == 2051
    &&& be_u32(b, 8) == 28
    &&& be_u32(b, 12) == 28
    &&& b.len() == 16 + be_u32(b, 4) * 784
}

/// A well-formed label file: magic 2049, a count `n`, then exactly `n` label bytes.
pub open spec fn labels_file_ok(b: Seq<u8>) -> bool {
    &&& b.len() >= 8
    &&& be_u32(b, 0) == 2049
    &&& b.len() == 8 + be_u32(b, 4)
}

/// Decodes an IDX image file read from `path`: the pixel bytes of all images,
/// image after image.
pub fn decode_images(path: String, buf: Vec<u8>) -> (r: Result<Vec<u8>, Error>)
    ensures
        images_file_ok(buf@) ==> (r matches Ok(px) && px@ == buf@.subrange(16, buf@.len() as int)),
        !images_file_ok(buf@) ==> (r matches Err(Error::Format(m)) && m@ == images_error(
            path@,
            buf@,
        )),
{
    let ghost b = buf@;
    let ghost p = path@;
    let mut cur = Cursor::new(path, buf);
    let magic = match cur.read_u32_be() {
        Ok(v) => v,
        Err(e) => return Err(e),
    };
    if magic != 2051 {
        let mut msg = String::from_str("bad images magic ");
        msg.append(decimal_text_u64(magic as u64).as_str());
        msg.append(" in ");
        msg.append(cur.path.as_str());
        return Err(Error::Format(msg));
    }
    let n = match cur.read_u32_be() {
        Ok(v) => v,
        Err(e) => return Err(e),
    };
    let rows = match cur.read_u32_be() {
        Ok(v) => v,
        Err(e) => return Err(e),
    };
    let cols = match cur.read_u32_be() {
        Ok(v) => v,
        Err(e) => return Err(e),
    };
    if rows != 28 || cols != 28 {
        let mut msg = String::from_str("expected 28x28 images, got ");
        msg.append(decimal_text_u64(rows as u64).as_str());
        msg.append("x");
        msg.append(decimal_text_u64(cols as u64).as_str());
        return Err(Error::Format(msg));
    }
    assert(rows == 28 && cols == 28);
    assert((n as u64) * (rows as u64) * (cols as u64) == n * 784) by (nonlinear_arith)
        requires
            rows == 28,
            cols == 28,
    ;
    let expected: u64 = 16 + (n as u64) * (rows as u64) * (cols as u64);
    if cur.len() as u64 != expected {
        let mut msg = String::from_str("unexpected images file size: expected ");
        msg.append(decimal_text_u64(expected).as_str());
        msg.append(", got ");
        msg.append(decimal_text(cur.len()).as_str());
        return Err(Error::Format(msg));
    }
    Ok(cur.rest())
}

/// Decodes an IDX label file read from `path`: one byte per label.
pub fn decode_labels(path: String, buf: Vec<u8>) -> (r: Result<Vec<u8>, Error>)
    ensures
        labels_file_ok(buf@) ==> (r matches Ok(ls) && ls@ == buf@.subrange(8, buf@.len() as int)),
        !labels_file_ok(buf@) ==> (r matches Err(Error::Format(m)) && m@ == labels_error(
            path@,
            buf@,
        )),
{
    let mut cur = Cursor::new(path, buf);
    let magic = match cur.read_u32_be() {
        Ok(v) => v,
        Err(e) => return Err(e),
    };
    if magic != 2049 {
        let mut msg = String::from_str("bad labels magic ");
        msg.append(decimal_text_u64(magic as u64).as_str());
        msg.append(" in ");
        msg.append(cur.path.as_str());
        return Err(Error::Format(msg));
    }
    let n = match cur.read_u32_be() {
        Ok(v) => v,
        Err(e) => return Err(e),
    };
    let expected: u64 = 8 + n as u64;
    if cur.len() as u64 != expected {
        let mut msg = String::from_str("unexpected labels file size: expected ");
        msg.append(decimal_text_u64(expected).as_str());
        msg.append(", got ");
        msg.append(decimal_text(cur.len()).as_str());
        return Err(Error::Format(msg));
    }
    Ok(cur.rest())
}

/// Checks that `n_pixels` image bytes hold exactly one image per label.
pub fn check_images_match_labels(n_pixels: usize, n_labels: usize, what: &str) -> (r: Result<
    (),
    Error,
>)
    ensures
        r is Ok <==> n_pixels == n_labels * 784,
        r matches Err(e) ==> (e matches Error::Format(m) && m@ == what@
            + " images/labels length mismatch"@),
{
    if n_labels > n_pixels / IMAGE_PIXELS || n_pixels != n_labels * IMAGE_PIXELS {
        let mut msg = String::from_str(what);
        msg.append(" images/labels length mismatch");
        return Err(Error::Format(msg));
    }
    Ok(())
}

/// The pixels of the samples `idxs`, image after image.
pub open spec fn batch_images<T>(images: Seq<T>, idxs: Seq<usize>) -> Seq<T> {
    Seq::new(idxs.len() * 784, |k: int| images[idxs[k / 784] * 784 + k % 784])
}

/// The labels of the samples `idxs`.
pub open spec fn batch_labels(labels: Seq<u8>, idxs: Seq<usize>) -> Seq<usize> {
    Seq::new(idxs.len(), |b: int| labels[idxs[b] as int] as usize)
}

/// The images and labels of the samples `idxs`, in that order: the pixels of
/// sample `idxs[b]` become row `b` of the batch.
pub fn gather_batch<T: Copy>(images: &[T], labels: &[u8], idxs: &[usize]) -> (r: (Vec<T>, Vec<usize>))
    requires
        forall|b: int| 0 <= b < idxs.len() ==> (#[trigger] idxs[b]) < labels@.len() && (idxs[b] + 1)
            * 784 <= images@.len(),
    ensures
        r.0@ == batch_images(images@, idxs@),
        r.1@ == batch_labels(labels@, idxs@),
{
    let ilen = images.len();
    let mut x: Vec<T> = Vec::new();
    let mut y: Vec<usize> = Vec::new();
    let mut bi: usize = 0;
    while bi < idxs.len()
        invariant
            bi <= idxs@.len(),
            ilen == images@.len(),
            forall|b: int| 0 <= b < idxs.len() ==> (#[trigger] idxs[b]) < labels@.len() && (idxs[b]
                + 1) * 784 <= images@.len(),
            x@ =~= batch_images(images@, idxs@).take(bi * 784),
            y@ =~= batch_labels(labels@, idxs@).take(bi as int),
        decreases idxs@.len() - bi,
    {
        let idx = idxs[bi];
        assert(idxs[bi as int] == idx);
        proof {
            let l = images@.len() as int;
            assert(idx * 784 + 784 <= l) by (nonlinear_arith)
                requires
                    (idx + 1) * 784 <= l,
            ;
        }
        let off = idx * IMAGE_PIXELS;
        let mut p: usize = 0;
        while p < IMAGE_PIXELS
            invariant
                bi < idxs@.len(),
                idx == idxs@[bi as int],
                p <= 784,
                off == idx * 784,
                off + 784 <= images@.len(),
                ilen == images@.len(),
                x@ =~= batch_images(images@, idxs@).take(bi * 784 + p),
            decreases 784 - p,
        {
            proof {
                let k = bi * 784 + p;
                assert(k / 784 == bi as int && k % 784 == p as int) by (nonlinear_arith)
                    requires
                        k == bi * 784 + p,
                        0 <= p < 784,
                        bi >= 0,
                ;
                assert(k < idxs@.len() * 784) by (nonlinear_arith)
                    requires
                        k == bi * 784 + p,
                        p < 784,
                        bi < idxs@.len(),
                ;
            }
            x.push(images[off + p]);
            p += 1;
        }
        y.push(labels[idx] as usize);
        bi += 1;
    }
    (x, y)
}

} // verus!
