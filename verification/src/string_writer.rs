//! A growable byte sink that finishes as text.
use vstd::prelude::*;

verus! {

/// Collects written bytes and hands them back as a string.
pub struct StringWriter {
    pub buf: Vec<u8>,
}

impl StringWriter {
    /// An empty writer.
    pub fn new() -> (w: StringWriter)
        ensures
            w.buf@.len() == 0,
    {
        StringWriter { buf: Vec::new() }
    }

    /// Append every byte of `data`.
    pub fn write(&mut self, data: &[u8]) -> (n: usize)
        ensures
            final(self).buf@ == old(self).buf@ + data@,
            n == data@.len(),
    {
        let mut i: usize = 0;
        while i < data.len()
            invariant
                i <= data@.len(),
                self.buf@ == old(self).buf@ + data@.take(i as int),
            decreases data@.len() - i,
        {
            self.buf.push(data[i]);
            proof {
                assert(self.buf@ =~= old(self).buf@ + data@.take(i as int + 1));
            }
            i = i + 1;
        }
        proof {
            assert(data@.take(data@.len() as int) =~= data@);
        }
        data.len()
    }

    /// The written bytes as text, or the empty string when they are
    /// not valid text.
    ///
    /// Relies on String::from_utf8: it succeeds exactly on valid
    /// encodings and returns the string holding those very bytes.
    #[verifier::external_body]
    pub fn to_string(self) -> (r: String)
        ensures
            vstd::utf8::valid_utf8(self.buf@) ==> vstd::utf8::encode_utf8(r@) == self.buf@,
            !vstd::utf8::valid_utf8(self.buf@) ==> r@ == Seq::<char>::empty(),
    {
        if let Ok(s) = String::from_utf8(self.buf) {
            s
        } else {
            String::new()
        }
    }
}

} // verus!
