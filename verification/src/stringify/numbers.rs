use vstd::prelude::*;
use vstd::string::StringExecFns;
use crate::nodes::node::{Numeric, NumericV};
use crate::text::{i64_to_string, spec_int_chars, spec_udigits, u64_to_string};

verus! {

/// The text that most serializers emit for a numeric value: decimal digits
/// for the widths they render, the stored literal for a float, and the
/// variant's debug form — its name around its value — for the remaining
/// widths, which the original renderers fall back to.
pub open spec fn spec_numeric_chars(m: NumericV) -> Seq<char> {
    match m {
        NumericV::Integer(i) => spec_int_chars(i),
        NumericV::UInteger(u) => spec_int_chars(u),
        NumericV::Float(t) => t,
        NumericV::Byte(b) => spec_int_chars(b),
        NumericV::Int32(i) => spec_int_chars(i),
        NumericV::UInt32(u) => spec_int_chars(u),
        NumericV::Int16(i) => "Int16("@ + spec_int_chars(i) + ")"@,
        NumericV::UInt16(u) => "UInt16("@ + spec_int_chars(u) + ")"@,
        NumericV::Int8(i) => "Int8("@ + spec_int_chars(i) + ")"@,
    }
}

/// The text that the pretty-printer emits for a numeric value: decimal
/// digits for every integral width, the stored literal for a float.
pub open spec fn spec_numeric_plain(m: NumericV) -> Seq<char> {
    match m {
        NumericV::Integer(i) => spec_int_chars(i),
        NumericV::UInteger(u) => spec_int_chars(u),
        NumericV::Float(t) => t,
        NumericV::Byte(b) => spec_int_chars(b),
        NumericV::Int32(i) => spec_int_chars(i),
        NumericV::UInt32(u) => spec_int_chars(u),
        NumericV::Int16(i) => spec_int_chars(i),
        NumericV::UInt16(u) => spec_int_chars(u),
        NumericV::Int8(i) => spec_int_chars(i),
    }
}

/// Renders a numeric value as the serializers emit it.
pub fn numeric_to_string(m: &Numeric) -> (s: String)
    ensures
        s@ == spec_numeric_chars(m@),
{
    match m {
        Numeric::Integer(n) => i64_to_string(*n),
        Numeric::UInteger(n) => u64_to_string(*n),
        Numeric::Float(t) => t.clone(),
        Numeric::Byte(b) => u64_to_string(*b as u64),
        Numeric::Int32(i) => i64_to_string(*i as i64),
        Numeric::UInt32(u) => u64_to_string(*u as u64),
        Numeric::Int16(i) => {
            let mut s = String::from_str("Int16(");
            let d = i64_to_string(*i as i64);
            s.append(d.as_str());
            s.append(")");
            assert(s@ =~= spec_numeric_chars(m@));
            s
        },
        Numeric::UInt16(u) => {
            let mut s = String::from_str("UInt16(");
            let d = u64_to_string(*u as u64);
            s.append(d.as_str());
            s.append(")");
            assert(s@ =~= spec_numeric_chars(m@));
            s
        },
        Numeric::Int8(i) => {
            let mut s = String::from_str("Int8(");
            let d = i64_to_string(*i as i64);
            s.append(d.as_str());
            s.append(")");
            assert(s@ =~= spec_numeric_chars(m@));
            s
        },
    }
}

/// Renders a numeric value as the pretty-printer emits it.
pub fn numeric_to_plain_string(m: &Numeric) -> (s: String)
    ensures
        s@ == spec_numeric_plain(m@),
{
    match m {
        Numeric::Integer(n) => i64_to_string(*n),
        Numeric::UInteger(n) => u64_to_string(*n),
        Numeric::Float(t) => t.clone(),
        Numeric::Byte(b) => u64_to_string(*b as u64),
        Numeric::Int32(i) => i64_to_string(*i as i64),
        Numeric::UInt32(u) => u64_to_string(*u as u64),
        Numeric::Int16(i) => i64_to_string(*i as i64),
        Numeric::UInt16(u) => u64_to_string(*u as u64),
        Numeric::Int8(i) => i64_to_string(*i as i64),
    }
}

} // verus!
