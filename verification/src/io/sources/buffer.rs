use vstd::prelude::*;
use vstd::utf8::{decode_utf8, valid_utf8};

verus! {

/// The characters that a byte buffer denotes: its UTF-8 decoding when the
/// bytes are valid UTF-8, and nothing otherwise.
pub open spec fn chars_of_bytes(bytes: Seq<u8>) -> Seq<char> {
    if valid_utf8(bytes) {
        decode_utf8(bytes)
    } else {
        Seq::empty()
    }
}

/// Relies on str::from_utf8: returns the string whose UTF-8 encoding the
/// bytes are, exactly when they are valid UTF-8.  Invalid bytes give an
/// empty character vector here.
#[verifier::external_body]
fn decode_bytes(bytes: &[u8]) -> (r: Vec<char>)
    ensures
        r@ == chars_of_bytes(bytes@),
{
    match core::str::from_utf8(bytes) {
        Ok(s) => s.chars().collect(),
        Err(_) => Vec::new(),
    }
}

/// An in-memory character source: a cursor over decoded text that can report
/// the current character, advance past it, and say whether input remains.
/// Advancing past the end is a no-op.
pub struct Buffer {
    chars: Vec<char>,
    pos: usize,
}

impl Buffer {
    /// The invariant of a source: the cursor never passes the end.
    #[verifier::type_invariant]
    pub closed spec fn inv(&self) -> bool {
        self.pos <= self.chars@.len()
    }

    /// The characters not yet read, in order.
    pub closed spec fn remaining(&self) -> Seq<char> {
        self.chars@.skip(self.pos as int)
    }

    /// Makes a source over the text that `bytes` UTF-8-encode; a buffer of
    /// invalid UTF-8 reads as empty.
    pub fn new(bytes: &[u8]) -> (r: Buffer)
        ensures
            r.remaining() == chars_of_bytes(bytes@),
    {
        let chars = decode_bytes(bytes);
        let r = Buffer { chars, pos: 0 };
        assert(r.remaining() =~= r.chars@);
        r
    }

    /// Makes a source over the characters of `s`.
    pub fn from_text(s: &str) -> (r: Buffer)
        ensures
            r.remaining() == s@,
    {
        let chars = crate::text::chars_vec(s);
        let r = Buffer { chars, pos: 0 };
        assert(r.remaining() =~= r.chars@);
        r
    }

    /// The character under the cursor, or `None` at the end of the input.
    pub fn current(&self) -> (r: Option<char>)
        ensures
            r == (if self.remaining().len() > 0 {
                Some(self.remaining()[0])
            } else {
                Option::<char>::None
            }),
    {
        proof {
            use_type_invariant(self);
        }
        if self.pos < self.chars.len() {
            Some(self.chars[self.pos])
        } else {
            None
        }
    }

    /// Advances the cursor one character; a no-op at the end of the input.
    pub fn next(&mut self)
        ensures
            final(self).remaining() == (if old(self).remaining().len() > 0 {
                old(self).remaining().drop_first()
            } else {
                old(self).remaining()
            }),
    {
        proof {
            use_type_invariant(&*self);
        }
        if self.pos < self.chars.len() {
            self.pos = self.pos + 1;
            assert(self.remaining() =~= old(self).remaining().drop_first());
        }
    }

    /// Whether unread input remains.
    pub fn more(&self) -> (r: bool)
        ensures
            r == (self.remaining().len() > 0),
    {
        proof {
            use_type_invariant(self);
        }
        self.pos < self.chars.len()
    }
}

} // verus!
