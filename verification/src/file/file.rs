use vstd::prelude::*;

verus! {

/// A Unicode text-file format, distinguished by the byte order mark (BOM)
/// that a file in that format begins with.  Plain UTF-8 has no mark.
#[derive(Clone, Copy, Debug, PartialEq, Eq, Structural)]
pub enum Format {
    /// UTF-8 without a byte order mark.
    Utf8,
    /// UTF-8 with the mark EF BB BF.
    Utf8bom,
    /// UTF-16 little endian, mark FF FE.
    Utf16le,
    /// UTF-16 big endian, mark FE FF.
    Utf16be,
    /// UTF-32 little endian, mark FF FE 00 00.
    Utf32le,
    /// UTF-32 big endian, mark 00 00 FE FF.
    Utf32be,
}

/// The byte order mark that announces `f`, as a byte sequence.
pub open spec fn spec_bom(f: Format) -> Seq<u8> {
    match f {
        Format::Utf8 => seq![],
        Format::Utf8bom => seq![0xEFu8, 0xBBu8, 0xBFu8],
        Format::Utf16le => seq![0xFFu8, 0xFEu8],
        Format::Utf16be => seq![0xFEu8, 0xFFu8],
        Format::Utf32le => seq![0xFFu8, 0xFEu8, 0x00u8, 0x00u8],
        Format::Utf32be => seq![0x00u8, 0x00u8, 0xFEu8, 0xFFu8],
    }
}

/// The format that a file beginning with the bytes `prefix` is in.
///
/// The longer marks are recognised before their prefixes: FF FE 00 00 is
/// UTF-32LE even though it begins with the UTF-16LE mark FF FE.  Bytes that
/// begin with no known mark are plain UTF-8.
pub open spec fn spec_detect(prefix: Seq<u8>) -> Format {
    if prefix.len() >= 3 && prefix[0] == 0xEF && prefix[1] == 0xBB && prefix[2] == 0xBF {
        Format::Utf8bom
    } else if prefix.len() >= 2 && prefix[0] == 0xFE && prefix[1] == 0xFF {
        Format::Utf16be
    } else if prefix.len() == 4 && prefix[0] == 0xFF && prefix[1] == 0xFE && prefix[2] == 0x00
        && prefix[3] == 0x00 {
        Format::Utf32le
    } else if prefix.len() == 4 && prefix[0] == 0x00 && prefix[1] == 0x00 && prefix[2] == 0xFE
        && prefix[3] == 0xFF {
        Format::Utf32be
    } else if prefix.len() >= 2 && prefix[0] == 0xFF && prefix[1] == 0xFE {
        Format::Utf16le
    } else {
        Format::Utf8
    }
}

impl Format {
    /// The byte order mark that announces this format.
    pub fn get_bom(&self) -> (r: Vec<u8>)
        ensures
            r@ == spec_bom(*self),
    {
        match self {
            Format::Utf8 => {
                let r: Vec<u8> = Vec::new();
                assert(r@ =~= spec_bom(*self));
                r
            },
            Format::Utf8bom => {
                let r: Vec<u8> = vec![0xEF, 0xBB, 0xBF];
                assert(r@ =~= spec_bom(*self));
                r
            },
            Format::Utf16le => {
                let r: Vec<u8> = vec![0xFF, 0xFE];
                assert(r@ =~= spec_bom(*self));
                r
            },
            Format::Utf16be => {
                let r: Vec<u8> = vec![0xFE, 0xFF];
                assert(r@ =~= spec_bom(*self));
                r
            },
            Format::Utf32le => {
                let r: Vec<u8> = vec![0xFF, 0xFE, 0x00, 0x00];
                assert(r@ =~= spec_bom(*self));
                r
            },
            Format::Utf32be => {
                let r: Vec<u8> = vec![0x00, 0x00, 0xFE, 0xFF];
                assert(r@ =~= spec_bom(*self));
                r
            },
        }
    }

    /// Recognises the format of a file from the first bytes read out of it:
    /// up to four bytes, fewer when the file is shorter.
    pub fn detect(prefix: &[u8]) -> (r: Format)
        requires
            prefix@.len() <= 4,
        ensures
            r == spec_detect(prefix@),
    {
        let n = prefix.len();
        if n >= 3 && prefix[0] == 0xEF && prefix[1] == 0xBB && prefix[2] == 0xBF {
            Format::Utf8bom
        } else if n >= 2 && prefix[0] == 0xFE && prefix[1] == 0xFF {
            Format::Utf16be
        } else if n == 4 && prefix[0] == 0xFF && prefix[1] == 0xFE && prefix[2] == 0x00
            && prefix[3] == 0x00 {
            Format::Utf32le
        } else if n == 4 && prefix[0] == 0x00 && prefix[1] == 0x00 && prefix[2] == 0xFE
            && prefix[3] == 0xFF {
            Format::Utf32be
        } else if n >= 2 && prefix[0] == 0xFF && prefix[1] == 0xFE {
            Format::Utf16le
        } else {
            Format::Utf8
        }
    }
}

} // verus!
