use vstd::prelude::*;
use vstd::string::StringExecFns;
use crate::text::push_char;

verus! {

/// An in-memory append-only text sink.  Serializers write their whole output
/// through one of these; its view is the sequence of characters written so
/// far.
pub struct Buffer {
    data: String,
}

impl View for Buffer {
    type V = Seq<char>;

    closed spec fn view(&self) -> Seq<char> {
        self.data@
    }
}

impl Buffer {
    /// Makes an empty sink.
    pub fn new() -> (r: Buffer)
        ensures
            r@ == Seq::<char>::empty(),
    {
        Buffer { data: String::new() }
    }

    /// Appends one byte, read as the character with that scalar value.
    pub fn add_byte(&mut self, b: u8)
        ensures
            final(self)@ == old(self)@.push(b as char),
    {
        let c = crate::text::char_from_u32(b as u32);
        assert(c == b as char) by {
            vstd::utf8::char_u32_cast(c, c as u32);
        }
        push_char(&mut self.data, c);
    }

    /// Appends the characters of `s`.
    pub fn add_bytes(&mut self, s: &str)
        ensures
            final(self)@ == old(self)@ + s@,
    {
        self.data.append(s);
    }

    /// The text written so far.
    pub fn to_string(&self) -> (r: String)
        ensures
            r@ == self@,
    {
        self.data.clone()
    }

    /// Empties the sink.
    pub fn clear(&mut self)
        ensures
            final(self)@ == Seq::<char>::empty(),
    {
        self.data = String::new();
    }
}

} // verus!
