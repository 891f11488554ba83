use vstd::prelude::*;
use vstd::string::StringExecFns;
use crate::error::messages::{
    ERR_EMPTY_INPUT, ERR_EXPECT_ARRAY_END, ERR_EXPECT_COLON, ERR_EXPECT_FALSE,
    ERR_EXPECT_NULL, ERR_EXPECT_OBJECT_END, ERR_OBJECT_KEY, ERR_EXPECT_TRUE, ERR_INVALID_ESCAPE,
    ERR_INVALID_FLOAT, ERR_INVALID_INTEGER, ERR_MULTIPLE_DECIMAL, ERR_UNEXPECTED_CHAR,
    ERR_UNTERMINATED_STRING,
};
use crate::io::sources::buffer::Buffer;
use crate::nodes::node::{
    dict_keys_unique, entries_view, is_float_lit, items_view, node_wf, Node, NodeV, Numeric,
};
use crate::text::{digit_val, digits_val, lemma_digits_val_nonneg, lemma_digits_val_snoc, is_digit, is_hex_digit, is_scalar_value, is_ws};

verus! {

broadcast use vstd::std_specs::vec::group_vec_axioms;

// ---------------------------------------------------------------------------
// What a parse step yields
// ---------------------------------------------------------------------------

/// The outcome of parsing one value from a character sequence: the value's
/// model and the unread suffix, or the error message.
pub enum PRes {
    /// A parsed value and the characters after it.
    Val(NodeV, Seq<char>),
    /// The message of a parse error.
    Fail(Seq<char>),
}

/// The outcome of scanning the body of a number token.
pub enum NumScan {
    /// The characters of the token, the unread suffix, and whether a point
    /// or an exponent was seen.
    Tok(Seq<char>, Seq<char>, bool),
    /// A second decimal point was seen.
    TwoDots,
}

// ---------------------------------------------------------------------------
// Whitespace
// ---------------------------------------------------------------------------

/// `s` with its leading whitespace removed.
pub open spec fn sp_skip_ws(s: Seq<char>) -> Seq<char>
    decreases s.len(),
{
    if s.len() > 0 && is_ws(s[0]) {
        sp_skip_ws(s.drop_first())
    } else {
        s
    }
}

/// Skipping whitespace leaves a suffix of the input.
pub broadcast proof fn lemma_skip_ws_len(s: Seq<char>)
    ensures
        (#[trigger] sp_skip_ws(s)).len() <= s.len(),
    decreases s.len(),
{
    if s.len() > 0 && is_ws(s[0]) {
        lemma_skip_ws_len(s.drop_first());
    }
}

// ---------------------------------------------------------------------------
// Strings
// ---------------------------------------------------------------------------

/// Parsing a string, the cursor just past the opening quote and `acc` the
/// characters read so far: plain characters are taken over; a backslash
/// starts one of the named escapes or a `\u` escape of exactly four
/// hexadecimal digits for a Unicode scalar value; the closing quote ends
/// the string; input that ends first is an unterminated string.
pub open spec fn sp_string_body(s: Seq<char>, acc: Seq<char>) -> PRes
    decreases s.len(),
{
    if s.len() == 0 {
        PRes::Fail(ERR_UNTERMINATED_STRING@)
    } else if s[0] == '"' {
        PRes::Val(NodeV::Text(acc), s.drop_first())
    } else if s[0] == '\\' {
        if s.len() < 2 {
            PRes::Fail(ERR_INVALID_ESCAPE@)
        } else {
            let e = s[1];
            if e == '"' {
                sp_string_body(s.skip(2), acc.push('"'))
            } else if e == '\\' {
                sp_string_body(s.skip(2), acc.push('\\'))
            } else if e == '/' {
                sp_string_body(s.skip(2), acc.push('/'))
            } else if e == 'b' {
                sp_string_body(s.skip(2), acc.push('\u{8}'))
            } else if e == 'f' {
                sp_string_body(s.skip(2), acc.push('\u{c}'))
            } else if e == 'n' {
                sp_string_body(s.skip(2), acc.push('\n'))
            } else if e == 'r' {
                sp_string_body(s.skip(2), acc.push('\r'))
            } else if e == 't' {
                sp_string_body(s.skip(2), acc.push('\t'))
            } else if e == 'u' {
                if s.len() >= 6 && is_hex_digit(s[2]) && is_hex_digit(s[3]) && is_hex_digit(s[4])
                    && is_hex_digit(s[5]) {
                    let code = ((digit_val(s[2]) * 4096 + digit_val(s[3]) * 256 + digit_val(s[4])
                        * 16 + digit_val(s[5])) as u32);
                    if is_scalar_value(code) {
                        sp_string_body(s.skip(6), acc.push(code as char))
                    } else {
                        PRes::Fail(ERR_INVALID_ESCAPE@)
                    }
                } else {
                    PRes::Fail(ERR_INVALID_ESCAPE@)
                }
            } else {
                PRes::Fail(ERR_INVALID_ESCAPE@)
            }
        }
    } else {
        sp_string_body(s.drop_first(), acc.push(s[0]))
    }
}

/// Parsing a string from its opening quote.  The first character is skipped
/// unexamined, as the caller dispatched on it.
pub open spec fn sp_string(s: Seq<char>) -> PRes {
    if s.len() == 0 {
        PRes::Fail(ERR_UNTERMINATED_STRING@)
    } else {
        sp_string_body(s.drop_first(), Seq::empty())
    }
}

/// A parsed string leaves a strict suffix of the input after it.
pub broadcast proof fn lemma_string_body_len(s: Seq<char>, acc: Seq<char>)
    ensures
        (#[trigger] sp_string_body(s, acc)) matches PRes::Val(v, r) ==> r.len() < s.len(),
    decreases s.len(),
{
    if s.len() == 0 {
    } else if s[0] == '"' {
    } else if s[0] == '\\' {
        if s.len() >= 2 {
            let e = s[1];
            if e == '"' {
                lemma_string_body_len(s.skip(2), acc.push('"'));
            } else if e == '\\' {
                lemma_string_body_len(s.skip(2), acc.push('\\'));
            } else if e == '/' {
                lemma_string_body_len(s.skip(2), acc.push('/'));
            } else if e == 'b' {
                lemma_string_body_len(s.skip(2), acc.push('\u{8}'));
            } else if e == 'f' {
                lemma_string_body_len(s.skip(2), acc.push('\u{c}'));
            } else if e == 'n' {
                lemma_string_body_len(s.skip(2), acc.push('\n'));
            } else if e == 'r' {
                lemma_string_body_len(s.skip(2), acc.push('\r'));
            } else if e == 't' {
                lemma_string_body_len(s.skip(2), acc.push('\t'));
            } else if e == 'u' {
                if s.len() >= 6 && is_hex_digit(s[2]) && is_hex_digit(s[3]) && is_hex_digit(s[4])
                    && is_hex_digit(s[5]) {
                    let code = ((digit_val(s[2]) * 4096 + digit_val(s[3]) * 256 + digit_val(s[4])
                        * 16 + digit_val(s[5])) as u32);
                    if is_scalar_value(code) {
                        lemma_string_body_len(s.skip(6), acc.push(code as char));
                    }
                }
            }
        }
    } else {
        lemma_string_body_len(s.drop_first(), acc.push(s[0]));
    }
}

// ---------------------------------------------------------------------------
// Numbers
// ---------------------------------------------------------------------------

/// Scanning the body of a number token, `fl` saying whether a point or an
/// exponent was already seen: digits continue the token; a point continues
/// it once and is an error the second time; `e` or `E` continues it and
/// takes an optional sign along; any other character ends it.
pub open spec fn sp_num_body(s: Seq<char>, fl: bool) -> NumScan
    decreases s.len(),
{
    if s.len() == 0 {
        NumScan::Tok(Seq::empty(), s, fl)
    } else if is_digit(s[0]) {
        match sp_num_body(s.drop_first(), fl) {
            NumScan::Tok(t, r, f) => NumScan::Tok(seq![s[0]] + t, r, f),
            NumScan::TwoDots => NumScan::TwoDots,
        }
    } else if s[0] == '.' {
        if fl {
            NumScan::TwoDots
        } else {
            match sp_num_body(s.drop_first(), true) {
                NumScan::Tok(t, r, f) => NumScan::Tok(seq![s[0]] + t, r, f),
                NumScan::TwoDots => NumScan::TwoDots,
            }
        }
    } else if s[0] == 'e' || s[0] == 'E' {
        if s.len() >= 2 && (s[1] == '+' || s[1] == '-') {
            match sp_num_body(s.skip(2), true) {
                NumScan::Tok(t, r, f) => NumScan::Tok(seq![s[0], s[1]] + t, r, f),
                NumScan::TwoDots => NumScan::TwoDots,
            }
        } else {
            match sp_num_body(s.drop_first(), true) {
                NumScan::Tok(t, r, f) => NumScan::Tok(seq![s[0]] + t, r, f),
                NumScan::TwoDots => NumScan::TwoDots,
            }
        }
    } else {
        NumScan::Tok(Seq::empty(), s, fl)
    }
}

/// The number scan leaves a suffix of the input, a strict one when it
/// starts on a character of the token.
pub broadcast proof fn lemma_num_body_len(s: Seq<char>, fl: bool)
    ensures
        (#[trigger] sp_num_body(s, fl)) matches NumScan::Tok(t, r, f) ==> r.len() <= s.len(),
        (sp_num_body(s, fl) matches NumScan::Tok(t, r, f) && s.len() > 0 && (is_digit(s[0])
            || s[0] == '.' || s[0] == 'e' || s[0] == 'E')) ==> sp_num_body(
            s,
            fl,
        )->Tok_1.len() < s.len(),
    decreases s.len(),
{
    if s.len() > 0 {
        lemma_num_body_len(s.drop_first(), fl);
        lemma_num_body_len(s.drop_first(), true);
        if s.len() >= 2 {
            lemma_num_body_len(s.skip(2), true);
        }
    }
}

/// The value of an integer token: an optional minus sign, then at least one
/// digit, the value within the range of 64-bit signed integers.
pub open spec fn sp_parse_int(t: Seq<char>) -> Option<int> {
    let neg = t.len() > 0 && t[0] == '-';
    let d = if neg {
        t.drop_first()
    } else {
        t
    };
    if d.len() == 0 || !(forall|i: int| 0 <= i < d.len() ==> is_digit(#[trigger] d[i])) {
        Option::None
    } else {
        let v = if neg {
            -digits_val(d)
        } else {
            digits_val(d)
        };
        if i64::MIN <= v <= i64::MAX {
            Option::Some(v)
        } else {
            Option::None
        }
    }
}

/// Parsing a number token from `s`: the token is scanned as [`sp_num_body`]
/// says; with a point or an exponent it must be a well-formed decimal
/// literal and becomes a float, otherwise it must be an in-range integer.
pub open spec fn sp_number(s: Seq<char>) -> PRes {
    let neg = s.len() > 0 && s[0] == '-';
    let body_in = if neg {
        s.drop_first()
    } else {
        s
    };
    match sp_num_body(body_in, false) {
        NumScan::TwoDots => PRes::Fail(ERR_MULTIPLE_DECIMAL@),
        NumScan::Tok(t0, rest, fl) => {
            let t = if neg {
                seq!['-'] + t0
            } else {
                t0
            };
            if fl {
                if is_float_lit(t) {
                    PRes::Val(NodeV::Number(crate::nodes::node::NumericV::Float(t)), rest)
                } else {
                    PRes::Fail(ERR_INVALID_FLOAT@)
                }
            } else {
                match sp_parse_int(t) {
                    Option::Some(v) => PRes::Val(
                        NodeV::Number(crate::nodes::node::NumericV::Integer(v)),
                        rest,
                    ),
                    Option::None => PRes::Fail(ERR_INVALID_INTEGER@),
                }
            }
        },
    }
}

// ---------------------------------------------------------------------------
// Literals
// ---------------------------------------------------------------------------

/// Parsing `true` from `s`, whose first character was dispatched on.
pub open spec fn sp_true(s: Seq<char>) -> PRes {
    if s.len() >= 4 && s[1] == 'r' && s[2] == 'u' && s[3] == 'e' {
        PRes::Val(NodeV::Boolean(true), s.skip(4))
    } else {
        PRes::Fail(ERR_EXPECT_TRUE@)
    }
}

/// Parsing `false` from `s`, whose first character was dispatched on.
pub open spec fn sp_false(s: Seq<char>) -> PRes {
    if s.len() >= 5 && s[1] == 'a' && s[2] == 'l' && s[3] == 's' && s[4] == 'e' {
        PRes::Val(NodeV::Boolean(false), s.skip(5))
    } else {
        PRes::Fail(ERR_EXPECT_FALSE@)
    }
}

/// Parsing `null` from `s`, whose first character was dispatched on.
pub open spec fn sp_null(s: Seq<char>) -> PRes {
    if s.len() >= 4 && s[1] == 'u' && s[2] == 'l' && s[3] == 'l' {
        PRes::Val(NodeV::Null, s.skip(4))
    } else {
        PRes::Fail(ERR_EXPECT_NULL@)
    }
}

// ---------------------------------------------------------------------------
// Dictionaries
// ---------------------------------------------------------------------------

/// The index of the entry of `d` with the key `k`, or a negative number
/// when there is none.
pub open spec fn key_index(d: Seq<(Seq<char>, NodeV)>, k: Seq<char>) -> int
    decreases d.len(),
{
    if d.len() == 0 {
        -1
    } else if d[0].0 == k {
        0
    } else {
        let r = key_index(d.drop_first(), k);
        if r < 0 {
            -1
        } else {
            1 + r
        }
    }
}

/// Binding `k` to `v` in `d`: a new entry at the end, or the existing entry
/// for `k` overwritten in place.
pub open spec fn dict_insert(d: Seq<(Seq<char>, NodeV)>, k: Seq<char>, v: NodeV) -> Seq<
    (Seq<char>, NodeV),
> {
    let i = key_index(d, k);
    if i >= 0 {
        d.update(i, (k, v))
    } else {
        d.push((k, v))
    }
}

/// What [`key_index`] finds: the entry with the key, and none before it.
pub proof fn lemma_key_index(d: Seq<(Seq<char>, NodeV)>, k: Seq<char>)
    ensures
        key_index(d, k) >= 0 ==> key_index(d, k) < d.len() && d[key_index(d, k)].0 == k,
        key_index(d, k) < 0 ==> forall|i: int| 0 <= i < d.len() ==> (#[trigger] d[i]).0 != k,
    decreases d.len(),
{
    if d.len() > 0 && d[0].0 != k {
        lemma_key_index(d.drop_first(), k);
        if key_index(d, k) < 0 {
            assert forall|i: int| 0 <= i < d.len() implies (#[trigger] d[i]).0 != k by {
                if i > 0 {
                    assert(d.drop_first()[i - 1] == d[i]);
                }
            }
        } else {
            assert(d.drop_first()[key_index(d, k) - 1] == d[key_index(d, k)]);
        }
    }
}

/// Inserting keeps the keys unique.
pub proof fn lemma_dict_insert_unique(d: Seq<(Seq<char>, NodeV)>, k: Seq<char>, v: NodeV)
    requires
        dict_keys_unique(d),
    ensures
        dict_keys_unique(dict_insert(d, k, v)),
{
    lemma_key_index(d, k);
    let r = dict_insert(d, k, v);
    assert forall|i: int, j: int| 0 <= i < j < r.len() implies (#[trigger] r[i]).0 != (
    #[trigger] r[j]).0 by {
        let ki = key_index(d, k);
        if ki >= 0 {
            assert(forall|m: int| 0 <= m < d.len() && m != ki ==> (#[trigger] d[m]).0 != k) by {
                assert(forall|m: int|
                    0 <= m < ki ==> (#[trigger] d[m]).0 != d[ki].0 && d[ki].0 == k);
                assert(forall|m: int|
                    ki < m < d.len() ==> d[ki].0 != (#[trigger] d[m]).0 && d[ki].0 == k);
            }
        }
    }
}

// ---------------------------------------------------------------------------
// Values
// ---------------------------------------------------------------------------

/// Parsing one value from `s`: whitespace is skipped, then the first
/// character chooses the production — `{` an object, `[` an array, `"` a
/// string, `t`, `f` and `n` the literals, a digit or minus sign a number.
/// Any other character, or exhausted input, is an error.
pub open spec fn sp_value(s: Seq<char>) -> PRes
    decreases s.len(), 2int,
{
    let t = sp_skip_ws(s);
    if t.len() == 0 {
        PRes::Fail(ERR_EMPTY_INPUT@)
    } else if t.len() > s.len() {
        // cannot occur: skipping whitespace never lengthens the input; the
        // branch keeps the recursion visibly well founded
        PRes::Fail(ERR_EMPTY_INPUT@)
    } else if t[0] == '{' {
        sp_object(t)
    } else if t[0] == '[' {
        sp_array(t)
    } else if t[0] == '"' {
        sp_string(t)
    } else if t[0] == 't' {
        sp_true(t)
    } else if t[0] == 'f' {
        sp_false(t)
    } else if t[0] == 'n' {
        sp_null(t)
    } else if is_digit(t[0]) || t[0] == '-' {
        sp_number(t)
    } else {
        PRes::Fail(ERR_UNEXPECTED_CHAR@.push(t[0]))
    }
}

/// Parsing an object from its opening brace: either an immediate closing
/// brace, or members as [`sp_members`] says.
pub open spec fn sp_object(s: Seq<char>) -> PRes
    decreases s.len(), 1int,
{
    if s.len() == 0 {
        PRes::Fail(ERR_EXPECT_OBJECT_END@)
    } else {
        let t = sp_skip_ws(s.drop_first());
        if t.len() > 0 && t[0] == '}' {
            PRes::Val(NodeV::Dict(Seq::empty()), t.drop_first())
        } else if t.len() < s.len() {
            sp_members(t, Seq::empty())
        } else {
            // cannot occur: the brace was consumed
            PRes::Fail(ERR_EXPECT_OBJECT_END@)
        }
    }
}

/// Parsing an array from its opening bracket: either an immediate closing
/// bracket, or elements as [`sp_elems`] says.
pub open spec fn sp_array(s: Seq<char>) -> PRes
    decreases s.len(), 1int,
{
    if s.len() == 0 {
        PRes::Fail(ERR_EXPECT_ARRAY_END@)
    } else {
        let t = sp_skip_ws(s.drop_first());
        if t.len() > 0 && t[0] == ']' {
            PRes::Val(NodeV::List(Seq::empty()), t.drop_first())
        } else if t.len() < s.len() {
            sp_elems(t, Seq::empty())
        } else {
            // cannot occur: the bracket was consumed
            PRes::Fail(ERR_EXPECT_ARRAY_END@)
        }
    }
}

/// Parsing the members of an object, `acc` those read so far: a string key,
/// a colon, a value — a later binding of a key overwriting the earlier one —
/// then a comma continues and a closing brace ends the object.
pub open spec fn sp_members(s: Seq<char>, acc: Seq<(Seq<char>, NodeV)>) -> PRes
    decreases s.len(), 3int,
{
    let t = sp_skip_ws(s);
    if t.len() > s.len() {
        // cannot occur; keeps the recursion visibly well founded
        PRes::Fail(ERR_EXPECT_OBJECT_END@)
    } else {
        match sp_string(t) {
            PRes::Fail(m) => PRes::Fail(m),
            PRes::Val(kv, r1) => {
                let k = kv->Text_0;
                let t1 = sp_skip_ws(r1);
                if t1.len() == 0 || t1[0] != ':' {
                    PRes::Fail(ERR_EXPECT_COLON@)
                } else {
                    let t2 = sp_skip_ws(t1.drop_first());
                    if t2.len() < s.len() {
                        match sp_value(t2) {
                            PRes::Fail(m) => PRes::Fail(m),
                            PRes::Val(v, r2) => {
                                let acc2 = dict_insert(acc, k, v);
                                let t3 = sp_skip_ws(r2);
                                if t3.len() > 0 && t3[0] == ',' {
                                    if t3.len() <= s.len() {
                                        sp_members(t3.drop_first(), acc2)
                                    } else {
                                        // cannot occur
                                        PRes::Fail(ERR_EXPECT_OBJECT_END@)
                                    }
                                } else if t3.len() > 0 && t3[0] == '}' {
                                    PRes::Val(NodeV::Dict(acc2), t3.drop_first())
                                } else {
                                    PRes::Fail(ERR_EXPECT_OBJECT_END@)
                                }
                            },
                        }
                    } else {
                        // cannot occur: the key and the colon were consumed
                        PRes::Fail(ERR_EXPECT_COLON@)
                    }
                }
            },
        }
    }
}

/// Parsing the elements of an array, `acc` those read so far: a value, then
/// a comma continues and a closing bracket ends the array.
pub open spec fn sp_elems(s: Seq<char>, acc: Seq<NodeV>) -> PRes
    decreases s.len(), 3int,
{
    match sp_value(s) {
        PRes::Fail(m) => PRes::Fail(m),
        PRes::Val(v, r) => {
            let acc2 = acc.push(v);
            let t = sp_skip_ws(r);
            if t.len() > 0 && t[0] == ',' {
                if t.len() < s.len() {
                    sp_elems(t.drop_first(), acc2)
                } else {
                    // cannot occur: the value consumed input
                    PRes::Fail(ERR_EXPECT_ARRAY_END@)
                }
            } else if t.len() > 0 && t[0] == ']' {
                PRes::Val(NodeV::List(acc2), t.drop_first())
            } else {
                PRes::Fail(ERR_EXPECT_ARRAY_END@)
            }
        },
    }
}

// ---------------------------------------------------------------------------
// Consumption: a parsed value takes at least one character
// ---------------------------------------------------------------------------

/// A parsed value leaves a strict suffix of the input after it.
pub proof fn lemma_value_consumes(s: Seq<char>)
    ensures
        sp_value(s) matches PRes::Val(v, r) ==> r.len() < s.len(),
    decreases s.len(), 2int,
{
    broadcast use lemma_skip_ws_len, lemma_string_body_len, lemma_num_body_len;

    let t = sp_skip_ws(s);
    if t.len() == 0 || t.len() > s.len() {
    } else if t[0] == '{' {
        lemma_object_consumes(t);
    } else if t[0] == '[' {
        lemma_array_consumes(t);
    }
}

/// A parsed object leaves a strict suffix of the input after it.
pub proof fn lemma_object_consumes(s: Seq<char>)
    ensures
        sp_object(s) matches PRes::Val(v, r) ==> r.len() < s.len(),
    decreases s.len(), 1int,
{
    broadcast use lemma_skip_ws_len;

    if s.len() > 0 {
        let t = sp_skip_ws(s.drop_first());
        if t.len() > 0 && t[0] == '}' {
        } else if t.len() < s.len() {
            lemma_members_consume(t, Seq::empty());
        }
    }
}

/// A parsed array leaves a strict suffix of the input after it.
pub proof fn lemma_array_consumes(s: Seq<char>)
    ensures
        sp_array(s) matches PRes::Val(v, r) ==> r.len() < s.len(),
    decreases s.len(), 1int,
{
    broadcast use lemma_skip_ws_len;

    if s.len() > 0 {
        let t = sp_skip_ws(s.drop_first());
        if t.len() > 0 && t[0] == ']' {
        } else if t.len() < s.len() {
            lemma_elems_consume(t, Seq::empty());
        }
    }
}

/// Parsed members leave a strict suffix of the input after them.
pub proof fn lemma_members_consume(s: Seq<char>, acc: Seq<(Seq<char>, NodeV)>)
    ensures
        sp_members(s, acc) matches PRes::Val(v, r) ==> r.len() < s.len(),
    decreases s.len(), 3int,
{
    broadcast use lemma_skip_ws_len, lemma_string_body_len;

    let t = sp_skip_ws(s);
    if t.len() <= s.len() {
        match sp_string(t) {
            PRes::Fail(m) => {},
            PRes::Val(kv, r1) => {
                let k = kv->Text_0;
                let t1 = sp_skip_ws(r1);
                if t1.len() > 0 && t1[0] == ':' {
                    let t2 = sp_skip_ws(t1.drop_first());
                    if t2.len() < s.len() {
                        lemma_value_consumes(t2);
                        match sp_value(t2) {
                            PRes::Fail(m) => {},
                            PRes::Val(v, r2) => {
                                let acc2 = dict_insert(acc, k, v);
                                let t3 = sp_skip_ws(r2);
                                if t3.len() > 0 && t3[0] == ',' && t3.len() <= s.len() {
                                    lemma_members_consume(t3.drop_first(), acc2);
                                }
                            },
                        }
                    }
                }
            },
        }
    }
}

/// What [`crate::nodes::node::first_nondigit`] returns: the least index
/// holding no digit, or the length when all are digits.
pub proof fn lemma_first_nondigit(t: Seq<char>)
    ensures
        0 <= crate::nodes::node::first_nondigit(t) <= t.len(),
        crate::nodes::node::first_nondigit(t) < t.len() ==> !is_digit(
            t[crate::nodes::node::first_nondigit(t)],
        ),
        forall|j: int|
            0 <= j < crate::nodes::node::first_nondigit(t) ==> is_digit(#[trigger] t[j]),
    decreases t.len(),
{
    if t.len() > 0 && is_digit(t[0]) {
        lemma_first_nondigit(t.drop_first());
        assert forall|j: int|
            0 <= j < crate::nodes::node::first_nondigit(t) implies is_digit(
            #[trigger] t[j],
        ) by {
            if j > 0 {
                assert(t.drop_first()[j - 1] == t[j]);
            }
        }
    }
}

/// What [`crate::nodes::node::first_e`] returns: the least index holding an
/// `e` or `E`, or the length when none does.
pub proof fn lemma_first_e(t: Seq<char>)
    ensures
        0 <= crate::nodes::node::first_e(t) <= t.len(),
        crate::nodes::node::first_e(t) < t.len() ==> (t[crate::nodes::node::first_e(t)] == 'e'
            || t[crate::nodes::node::first_e(t)] == 'E'),
        forall|j: int|
            0 <= j < crate::nodes::node::first_e(t) ==> (#[trigger] t[j]) != 'e' && t[j] != 'E',
    decreases t.len(),
{
    if t.len() > 0 && t[0] != 'e' && t[0] != 'E' {
        lemma_first_e(t.drop_first());
        assert forall|j: int|
            0 <= j < crate::nodes::node::first_e(t) implies (#[trigger] t[j]) != 'e' && t[j]
            != 'E' by {
            if j > 0 {
                assert(t.drop_first()[j - 1] == t[j]);
            }
        }
    }
}

/// Parsed elements leave a strict suffix of the input after them.
pub proof fn lemma_elems_consume(s: Seq<char>, acc: Seq<NodeV>)
    ensures
        sp_elems(s, acc) matches PRes::Val(v, r) ==> r.len() < s.len(),
    decreases s.len(), 3int,
{
    broadcast use lemma_skip_ws_len;

    lemma_value_consumes(s);
    match sp_value(s) {
        PRes::Fail(m) => {},
        PRes::Val(v, r) => {
            let t = sp_skip_ws(r);
            if t.len() > 0 && t[0] == ',' && t.len() < s.len() {
                lemma_elems_consume(t.drop_first(), acc.push(v));
            }
        },
    }
}

// ---------------------------------------------------------------------------
// The parser
// ---------------------------------------------------------------------------

/// Builds the owned form of an error message.
fn msg_string(m: &str) -> (r: String)
    ensures
        r@ == m@,
{
    String::from_str(m)
}

/// Builds the owned form of an error message, for the serializers too.
pub(crate) fn msg_string_for(m: &str) -> (r: String)
    ensures
        r@ == m@,
{
    String::from_str(m)
}

/// Advances the source past any leading whitespace.
fn skip_whitespace(source: &mut Buffer)
    ensures
        final(source).remaining() == sp_skip_ws(old(source).remaining()),
{
    loop
        invariant_except_break
            sp_skip_ws(old(source).remaining()) == sp_skip_ws(source.remaining()),
        ensures
            source.remaining() == sp_skip_ws(old(source).remaining()),
        decreases source.remaining().len(),
    {
        match source.current() {
            Option::Some(c) => {
                if !crate::text::is_whitespace_char(c) {
                    break ;
                }
            },
            Option::None => {
                break ;
            },
        }
        source.next();
    }
}

/// Decides whether the characters of `cs` form a well-formed decimal
/// literal.
#[verifier::loop_isolation(false)]
#[verifier::rlimit(60)]
pub(crate) fn check_float_lit(cs: &Vec<char>) -> (r: bool)
    ensures
        r == is_float_lit(cs@),
{
    let n = cs.len();
    let start: usize = if n > 0 && cs[0] == '-' {
        1
    } else {
        0
    };
    let ghost t = cs@.skip(start as int);
    proof {
        if start == 0 {
            assert(t =~= cs@);
        } else {
            assert(t =~= cs@.drop_first());
        }
        lemma_first_e(t);
    }
    // the first exponent marker
    let mut k: usize = start;
    while k < n && cs[k] != 'e' && cs[k] != 'E'
        invariant
            start <= k <= n,
            forall|j: int| start <= j < k ==> (#[trigger] cs@[j]) != 'e' && cs@[j] != 'E',
        decreases n - k,
    {
        k = k + 1;
    }
    proof {
        assert(crate::nodes::node::first_e(t) == k - start) by {
            if crate::nodes::node::first_e(t) < k - start {
                assert(t[crate::nodes::node::first_e(t)] == cs@[start
                    + crate::nodes::node::first_e(t)]);
            }
            if crate::nodes::node::first_e(t) > k - start {
                assert(k < n);
                assert(t[k - start as int] == cs@[k as int]);
            }
        }
    }
    // the mantissa: digits, at most one point
    let ghost m = t.take(k - start as int);
    proof {
        if k == n {
            assert(t =~= m);
        }
        lemma_first_nondigit(m);
        assert(m.len() == k - start);
        assert(forall|i: int| 0 <= i < m.len() ==> #[trigger] m[i] == cs@[start + i]);
    }
    let mut j: usize = start;
    while j < k && crate::text::is_digit_char(cs[j])
        invariant
            start <= j <= k,
            forall|i: int| start <= i < j ==> is_digit(#[trigger] cs@[i]),
        decreases k - j,
    {
        j = j + 1;
    }
    proof {
        assert(crate::nodes::node::first_nondigit(m) == j - start) by {
            if crate::nodes::node::first_nondigit(m) < j - start {
                assert(!is_digit(m[crate::nodes::node::first_nondigit(m)]));
                assert(m[crate::nodes::node::first_nondigit(m)] == cs@[start
                    + crate::nodes::node::first_nondigit(m)]);
            }
            if crate::nodes::node::first_nondigit(m) > j - start {
                assert(j < k);
                assert(is_digit(m[j - start as int]));
                assert(m[j - start as int] == cs@[j as int]);
            }
        }
    }
    let mantissa_good: bool = if j == k {
        k - start >= 1
    } else if cs[j] == '.' {
        let mut p: usize = j + 1;
        let mut frac_digits: bool = true;
        while p < k
            invariant
                j + 1 <= p <= k,
                frac_digits == (forall|i: int| j + 1 <= i < p ==> is_digit(#[trigger] cs@[i])),
            decreases k - p,
        {
            if !crate::text::is_digit_char(cs[p]) {
                frac_digits = false;
            }
            p = p + 1;
        }
        proof {
            let fr = m.skip(j - start + 1);
            assert(fr.len() == k - j - 1);
            assert(forall|i: int| 0 <= i < fr.len() ==> #[trigger] fr[i] == m[j - start + 1 + i]);
            assert(crate::nodes::node::all_digits(fr) == frac_digits) by {
                if frac_digits {
                    assert forall|i: int| 0 <= i < fr.len() implies is_digit(
                        #[trigger] fr[i],
                    ) by {
                        assert(fr[i] == cs@[j + 1 + i]);
                    }
                } else {
                    let w = choose|i: int| j + 1 <= i < k && !is_digit(#[trigger] cs@[i]);
                    assert(fr[w - j - 1] == cs@[w]);
                }
            }
        }
        frac_digits && (k - start >= 2)
    } else {
        false
    };
    proof {
        assert(mantissa_good == crate::nodes::node::mantissa_ok(m));
    }
    if !mantissa_good {
        proof {
            assert(!is_float_lit(cs@));
        }
        return false;
    }
    if k == n {
        proof {
            assert(is_float_lit(cs@));
        }
        return true;
    }
    // the exponent: an optional sign, then at least one digit
    let es: usize = if k + 1 < n && (cs[k + 1] == '+' || cs[k + 1] == '-') {
        k + 2
    } else {
        k + 1
    };
    let ghost ex = t.skip(k - start + 1);
    let ghost d = if ex.len() > 0 && (ex[0] == '+' || ex[0] == '-') {
        ex.drop_first()
    } else {
        ex
    };
    proof {
        assert(ex.len() == n - k - 1);
        assert(forall|i: int| 0 <= i < ex.len() ==> #[trigger] ex[i] == cs@[k + 1 + i]);
        assert(d.len() == n - es);
        assert(forall|i: int| 0 <= i < d.len() ==> #[trigger] d[i] == ex[(es - k - 1) + i]);
        assert(forall|i: int| 0 <= i < d.len() ==> #[trigger] d[i] == cs@[es + i]);
    }
    if es >= n {
        proof {
            assert(!crate::nodes::node::exponent_ok(ex));
            assert(!is_float_lit(cs@));
        }
        return false;
    }
    let mut q: usize = es;
    let mut exp_digits: bool = true;
    while q < n
        invariant
            es <= q <= n,
            exp_digits == (forall|i: int| es <= i < q ==> is_digit(#[trigger] cs@[i])),
        decreases n - q,
    {
        if !crate::text::is_digit_char(cs[q]) {
            exp_digits = false;
        }
        q = q + 1;
    }
    proof {
        assert(exp_digits == crate::nodes::node::exponent_ok(ex)) by {
            if exp_digits {
                assert forall|i: int| 0 <= i < d.len() implies is_digit(#[trigger] d[i]) by {
                    assert(d[i] == cs@[es + i]);
                }
            } else {
                let w = choose|i: int| es <= i < n && !is_digit(#[trigger] cs@[i]);
                assert(d[w - es] == cs@[w]);
            }
        }
        assert(exp_digits == is_float_lit(cs@));
    }
    exp_digits
}

/// Reads the value of the digits `cs[from..]` as a magnitude of at most
/// `limit`; `None` when the value exceeds the limit.
#[verifier::loop_isolation(false)]
pub(crate) fn digits_to_u64(cs: &Vec<char>, from: usize, limit: u64) -> (r: Option<u64>)
    requires
        from <= cs@.len(),
        limit >= 9,
        forall|i: int| from <= i < cs@.len() ==> is_digit(#[trigger] cs@[i]),
    ensures
        r matches Option::Some(v) ==> v as int == digits_val(cs@.skip(from as int)) && v <= limit,
        r is None ==> digits_val(cs@.skip(from as int)) > limit,
{
    let ghost d = cs@.skip(from as int);
    let n = cs.len();
    let mut acc: u64 = 0;
    let mut over: bool = false;
    let mut i: usize = from;
    proof {
        assert(d.take(0) =~= Seq::<char>::empty());
    }
    while i < n
        invariant
            from <= i <= n,
            !over ==> acc as int == digits_val(d.take(i - from)) && acc <= limit,
            over ==> digits_val(d.take(i - from)) > limit,
        decreases n - i,
    {
        let dv = crate::text::digit_val_char(cs[i]) as u64;
        proof {
            assert(d[i - from] == cs@[i as int]);
            assert(is_digit(cs@[i as int]));
            assert(dv <= 9);
            lemma_digits_val_snoc(d, i - from);
            lemma_digits_val_nonneg(d.take(i - from));
        }
        if over {
            proof {
                assert(digits_val(d.take(i - from + 1)) > limit);
            }
        } else if acc > limit / 10 {
            over = true;
            proof {
                assert(acc as int * 10 + dv as int > limit) by (nonlinear_arith)
                    requires
                        acc as int > (limit as int) / 10,
                        0 <= dv,
                        limit >= 0,
                ;
                assert(digits_val(d.take(i - from + 1)) > limit);
            }
        } else {
            proof {
                assert(acc as int * 10 <= limit - (limit % 10)) by (nonlinear_arith)
                    requires
                        acc as int <= (limit as int) / 10,
                        limit >= 0,
                        0 <= acc,
                ;
            }
            let acc2 = acc * 10;
            if dv > limit - acc2 {
                over = true;
                proof {
                    assert(digits_val(d.take(i - from + 1)) > limit);
                }
            } else {
                acc = acc2 + dv;
                proof {
                    assert(acc as int == digits_val(d.take(i - from + 1)));
                }
            }
        }
        i = i + 1;
    }
    proof {
        assert(d.take(n - from) =~= d);
    }
    if over {
        Option::None
    } else {
        Option::Some(acc)
    }
}

/// Parses a string literal, the cursor on its opening quote: the named
/// escapes, `\u` escapes of four hexadecimal digits, and a closing quote,
/// as [`sp_string`] describes.
#[verifier::loop_isolation(false)]
#[verifier::rlimit(100)]
fn parse_string(source: &mut Buffer) -> (r: Result<Node, String>)
    ensures
        r matches Ok(n) ==> (sp_string(old(source).remaining()) matches PRes::Val(v, rest) && v
            == n@ && rest == final(source).remaining() && n is Str),
        r matches Err(m) ==> (sp_string(old(source).remaining()) matches PRes::Fail(msg) && msg
            == m@),
{
    let ghost s0 = source.remaining();
    let mut acc = String::new();
    source.next();
    loop
        invariant
            sp_string(s0) == sp_string_body(source.remaining(), acc@),
        decreases source.remaining().len(),
    {
        let ghost u = source.remaining();
        match source.current() {
            Option::None => {
                return Err(msg_string(ERR_UNTERMINATED_STRING));
            },
            Option::Some(c) => {
                if c == '"' {
                    source.next();
                    return Ok(Node::Str(acc));
                } else if c == '\\' {
                    source.next();
                    match source.current() {
                        Option::None => {
                            return Err(msg_string(ERR_INVALID_ESCAPE));
                        },
                        Option::Some(e) => {
                            if e == '"' || e == '\\' || e == '/' || e == 'b' || e == 'f' || e
                                == 'n' || e == 'r' || e == 't' {
                                let mapped: char = if e == '"' {
                                    '"'
                                } else if e == '\\' {
                                    '\\'
                                } else if e == '/' {
                                    '/'
                                } else if e == 'b' {
                                    '\u{8}'
                                } else if e == 'f' {
                                    '\u{c}'
                                } else if e == 'n' {
                                    '\n'
                                } else if e == 'r' {
                                    '\r'
                                } else {
                                    '\t'
                                };
                                crate::text::push_char(&mut acc, mapped);
                                source.next();
                                proof {
                                    assert(source.remaining() =~= u.skip(2));
                                }
                            } else if e == 'u' {
                                source.next();
                                proof {
                                    assert(source.remaining() =~= u.skip(2));
                                }
                                let mut code: u32 = 0;
                                let mut hx: usize = 0;
                                let mut bad: bool = false;
                                while hx < 4
                                    invariant
                                        hx <= 4,
                                        !bad ==> u.len() >= 2 + hx && source.remaining() == u.skip(
                                            2 + hx,
                                        ) && (forall|i: int|
                                            2 <= i < 2 + hx ==> is_hex_digit(#[trigger] u[i]))
                                            && code == u32_of_hex_prefix(u, hx as int),
                                        bad ==> !(u.len() >= 6 && is_hex_digit(u[2])
                                            && is_hex_digit(u[3]) && is_hex_digit(u[4])
                                            && is_hex_digit(u[5])),
                                        hx == 0 ==> code == 0,
                                        hx == 1 ==> code < 16,
                                        hx == 2 ==> code < 256,
                                        hx == 3 ==> code < 4096,
                                        code < 0x10000,
                                    decreases 4 - hx,
                                {
                                    if !bad {
                                        match source.current() {
                                            Option::Some(h) => {
                                                if crate::text::is_hex_digit_char(h) {
                                                    code = code * 16 + crate::text::digit_val_char(
                                                        h,
                                                    );
                                                    source.next();
                                                    proof {
                                                        assert(source.remaining() =~= u.skip(
                                                            2 + hx + 1,
                                                        ));
                                                    }
                                                } else {
                                                    bad = true;
                                                }
                                            },
                                            Option::None => {
                                                bad = true;
                                            },
                                        }
                                    }
                                    hx = hx + 1;
                                }
                                if bad {
                                    return Err(msg_string(ERR_INVALID_ESCAPE));
                                }
                                proof {
                                    assert(u32_of_hex_prefix(u, 0) == 0);
                                    assert(u32_of_hex_prefix(u, 1) == digit_val(u[2]));
                                    assert(u32_of_hex_prefix(u, 2) == digit_val(u[2]) * 16
                                        + digit_val(u[3]));
                                    assert(u32_of_hex_prefix(u, 3) == digit_val(u[2]) * 256
                                        + digit_val(u[3]) * 16 + digit_val(u[4]));
                                    assert(code == digit_val(u[2]) * 4096 + digit_val(u[3]) * 256
                                        + digit_val(u[4]) * 16 + digit_val(u[5]));
                                }
                                if 0xD800 <= code && code <= 0xDFFF {
                                    return Err(msg_string(ERR_INVALID_ESCAPE));
                                }
                                let c2 = crate::text::char_from_u32(code);
                                crate::text::push_char(&mut acc, c2);
                                proof {
                                    vstd::utf8::char_u32_cast(c2, code);
                                    assert(source.remaining() =~= u.skip(6));
                                }
                            } else {
                                return Err(msg_string(ERR_INVALID_ESCAPE));
                            }
                        },
                    }
                } else {
                    crate::text::push_char(&mut acc, c);
                    source.next();
                }
            },
        }
    }
}

/// The value of the hexadecimal digits `u[2..2+k]`.
pub open spec fn u32_of_hex_prefix(u: Seq<char>, k: int) -> u32
    decreases k,
{
    if k <= 0 {
        0
    } else {
        (u32_of_hex_prefix(u, k - 1) * 16 + digit_val(u[2 + k - 1])) as u32
    }
}

/// Parses a number token, the cursor on its first character: an optional
/// minus sign, digits, at most one point, an optional exponent.  The token
/// becomes a float when a point or exponent was seen and the token is a
/// well-formed decimal literal, and an integer when the digits fit the
/// 64-bit signed range, as [`sp_number`] describes.
#[verifier::loop_isolation(false)]
#[verifier::rlimit(100)]
fn parse_number(source: &mut Buffer) -> (r: Result<Node, String>)
    ensures
        r matches Ok(n) ==> (sp_number(old(source).remaining()) matches PRes::Val(v, rest) && v
            == n@ && rest == final(source).remaining() && node_wf(n@)),
        r matches Err(m) ==> (sp_number(old(source).remaining()) matches PRes::Fail(msg) && msg
            == m@),
{
    let ghost s0 = source.remaining();
    let mut toks: Vec<char> = Vec::new();
    let mut is_float: bool = false;
    let neg: bool = match source.current() {
        Option::Some(c) => c == '-',
        Option::None => false,
    };
    let bs: usize = if neg {
        1
    } else {
        0
    };
    if neg {
        toks.push('-');
        source.next();
    }
    let ghost b0 = source.remaining();
    proof {
        if neg {
            assert(b0 == s0.drop_first());
        }
        assert(toks@.skip(bs as int) =~= Seq::<char>::empty());
    }
    let mut go: bool = true;
    while go
        invariant
            toks@.len() >= bs,
            neg ==> toks@.len() >= 1 && toks@[0] == '-',
            (match sp_num_body(source.remaining(), is_float) {
                NumScan::Tok(tx, rx, fx) => sp_num_body(b0, false) == NumScan::Tok(
                    toks@.skip(bs as int) + tx,
                    rx,
                    fx,
                ),
                NumScan::TwoDots => sp_num_body(b0, false) == NumScan::TwoDots,
            }),
            !is_float ==> forall|i: int| bs <= i < toks@.len() ==> is_digit(#[trigger] toks@[i]),
            !go ==> sp_num_body(source.remaining(), is_float) == NumScan::Tok(
                Seq::<char>::empty(),
                source.remaining(),
                is_float,
            ),
        decreases source.remaining().len() + 1 + (if go {
            1int
        } else {
            0int
        }),
    {
        let ghost u = source.remaining();
        let ghost toks0 = toks@;
        match source.current() {
            Option::None => {
                go = false;
            },
            Option::Some(c) => {
                if crate::text::is_digit_char(c) {
                    toks.push(c);
                    source.next();
                    proof {
                        assert(toks@.skip(bs as int) =~= toks0.skip(bs as int) + seq![c]);
                        match sp_num_body(u.drop_first(), is_float) {
                            NumScan::Tok(tx, rx, fx) => {
                                assert(toks0.skip(bs as int) + (seq![c] + tx) =~= toks@.skip(
                                    bs as int,
                                ) + tx);
                            },
                            NumScan::TwoDots => {},
                        }
                    }
                } else if c == '.' {
                    if is_float {
                        return Err(msg_string(ERR_MULTIPLE_DECIMAL));
                    }
                    is_float = true;
                    toks.push(c);
                    source.next();
                    proof {
                        assert(toks@.skip(bs as int) =~= toks0.skip(bs as int) + seq![c]);
                        match sp_num_body(u.drop_first(), true) {
                            NumScan::Tok(tx, rx, fx) => {
                                assert(toks0.skip(bs as int) + (seq![c] + tx) =~= toks@.skip(
                                    bs as int,
                                ) + tx);
                            },
                            NumScan::TwoDots => {},
                        }
                    }
                } else if c == 'e' || c == 'E' {
                    is_float = true;
                    toks.push(c);
                    source.next();
                    let sign: Option<char> = source.current();
                    match sign {
                        Option::Some(sc) => {
                            if sc == '+' || sc == '-' {
                                toks.push(sc);
                                source.next();
                                proof {
                                    assert(u.len() >= 2 && u[1] == sc);
                                    assert(source.remaining() =~= u.skip(2));
                                    assert(toks@.skip(bs as int) =~= toks0.skip(bs as int)
                                        + seq![c, sc]);
                                    match sp_num_body(u.skip(2), true) {
                                        NumScan::Tok(tx, rx, fx) => {
                                            assert(toks0.skip(bs as int) + (seq![c, sc] + tx)
                                                =~= toks@.skip(bs as int) + tx);
                                        },
                                        NumScan::TwoDots => {},
                                    }
                                }
                            } else {
                                proof {
                                    assert(toks@.skip(bs as int) =~= toks0.skip(bs as int)
                                        + seq![c]);
                                    match sp_num_body(u.drop_first(), true) {
                                        NumScan::Tok(tx, rx, fx) => {
                                            assert(toks0.skip(bs as int) + (seq![c] + tx)
                                                =~= toks@.skip(bs as int) + tx);
                                        },
                                        NumScan::TwoDots => {},
                                    }
                                }
                            }
                        },
                        Option::None => {
                            proof {
                                assert(toks@.skip(bs as int) =~= toks0.skip(bs as int) + seq![c]);
                                match sp_num_body(u.drop_first(), true) {
                                    NumScan::Tok(tx, rx, fx) => {
                                        assert(toks0.skip(bs as int) + (seq![c] + tx) =~= toks@.skip(
                                            bs as int,
                                        ) + tx);
                                    },
                                    NumScan::TwoDots => {},
                                }
                            }
                        },
                    }
                } else {
                    go = false;
                }
            },
        }
    }
    let ghost tokbody = toks@.skip(bs as int);
    let ghost rest = source.remaining();
    proof {
        assert(sp_num_body(b0, false) == NumScan::Tok(tokbody + Seq::<char>::empty(), rest,
            is_float));
        assert(tokbody + Seq::<char>::empty() =~= tokbody);
        assert(sp_num_body(b0, false) == NumScan::Tok(tokbody, rest, is_float));
        if neg {
            assert(toks@ =~= seq!['-'] + tokbody);
        } else {
            assert(toks@ =~= tokbody);
        }
    }
    if is_float {
        if check_float_lit(&toks) {
            let token = crate::text::string_of_chars(&toks);
            return Ok(Node::Number(Numeric::Float(token)));
        } else {
            return Err(msg_string(ERR_INVALID_FLOAT));
        }
    }
    if toks.len() == bs {
        proof {
            assert(tokbody.len() == 0);
        }
        return Err(msg_string(ERR_INVALID_INTEGER));
    }
    let limit: u64 = if neg {
        9223372036854775808
    } else {
        9223372036854775807
    };
    match digits_to_u64(&toks, bs, limit) {
        Option::None => {
            proof {
                assert(digits_val(tokbody) > limit);
            }
            Err(msg_string(ERR_INVALID_INTEGER))
        },
        Option::Some(mag) => {
            let val: i64 = if neg {
                if mag == 9223372036854775808 {
                    i64::MIN
                } else {
                    -(mag as i64)
                }
            } else {
                mag as i64
            };
            proof {
                assert(val as int == (if neg {
                    -digits_val(tokbody)
                } else {
                    digits_val(tokbody)
                }));
            }
            Ok(Node::Number(Numeric::Integer(val)))
        },
    }
}

/// Consumes the character `c` when it is the next one; reports whether it
/// did.
fn eat(source: &mut Buffer, c: char) -> (r: bool)
    ensures
        r == (old(source).remaining().len() > 0 && old(source).remaining()[0] == c),
        r ==> final(source).remaining() == old(source).remaining().drop_first(),
        !r ==> final(source).remaining() == old(source).remaining(),
{
    match source.current() {
        Option::Some(d) => {
            if d == c {
                source.next();
                true
            } else {
                false
            }
        },
        Option::None => false,
    }
}

/// Parses the literal `true`, the cursor on its first character, which the
/// caller dispatched on.
fn parse_true(source: &mut Buffer) -> (r: Result<Node, String>)
    ensures
        r matches Ok(n) ==> (sp_true(old(source).remaining()) matches PRes::Val(v, rest) && v
            == n@ && rest == final(source).remaining() && node_wf(n@)),
        r matches Err(m) ==> (sp_true(old(source).remaining()) matches PRes::Fail(msg) && msg
            == m@),
{
    let ghost s0 = source.remaining();
    source.next();
    if !eat(source, 'r') {
        return Err(msg_string(ERR_EXPECT_TRUE));
    }
    if !eat(source, 'u') {
        return Err(msg_string(ERR_EXPECT_TRUE));
    }
    if !eat(source, 'e') {
        return Err(msg_string(ERR_EXPECT_TRUE));
    }
    proof {
        assert(source.remaining() =~= s0.skip(4));
    }
    Ok(Node::Boolean(true))
}

/// Parses the literal `false`, the cursor on its first character, which the
/// caller dispatched on.
fn parse_false(source: &mut Buffer) -> (r: Result<Node, String>)
    ensures
        r matches Ok(n) ==> (sp_false(old(source).remaining()) matches PRes::Val(v, rest) && v
            == n@ && rest == final(source).remaining() && node_wf(n@)),
        r matches Err(m) ==> (sp_false(old(source).remaining()) matches PRes::Fail(msg) && msg
            == m@),
{
    let ghost s0 = source.remaining();
    source.next();
    if !eat(source, 'a') {
        return Err(msg_string(ERR_EXPECT_FALSE));
    }
    if !eat(source, 'l') {
        return Err(msg_string(ERR_EXPECT_FALSE));
    }
    if !eat(source, 's') {
        return Err(msg_string(ERR_EXPECT_FALSE));
    }
    if !eat(source, 'e') {
        return Err(msg_string(ERR_EXPECT_FALSE));
    }
    proof {
        assert(source.remaining() =~= s0.skip(5));
    }
    Ok(Node::Boolean(false))
}

/// Parses the literal `null`, the cursor on its first character, which the
/// caller dispatched on.
fn parse_null(source: &mut Buffer) -> (r: Result<Node, String>)
    ensures
        r matches Ok(n) ==> (sp_null(old(source).remaining()) matches PRes::Val(v, rest) && v
            == n@ && rest == final(source).remaining() && node_wf(n@)),
        r matches Err(m) ==> (sp_null(old(source).remaining()) matches PRes::Fail(msg) && msg
            == m@),
{
    let ghost s0 = source.remaining();
    source.next();
    if !eat(source, 'u') {
        return Err(msg_string(ERR_EXPECT_NULL));
    }
    if !eat(source, 'l') {
        return Err(msg_string(ERR_EXPECT_NULL));
    }
    if !eat(source, 'l') {
        return Err(msg_string(ERR_EXPECT_NULL));
    }
    proof {
        assert(source.remaining() =~= s0.skip(4));
    }
    Ok(Node::Null)
}


/// [`key_index`] finds the first entry with the key.
proof fn lemma_key_index_first(d: Seq<(Seq<char>, NodeV)>, k: Seq<char>, i: int)
    requires
        0 <= i < d.len(),
        d[i].0 == k,
        forall|j: int| 0 <= j < i ==> (#[trigger] d[j]).0 != k,
    ensures
        key_index(d, k) == i,
    decreases i,
{
    if i > 0 {
        assert(d[0].0 != k);
        lemma_key_index_first(d.drop_first(), k, i - 1);
        assert(forall|j: int| 0 <= j < i - 1 ==> (#[trigger] d.drop_first()[j]).0 == d[j + 1].0);
    }
}

/// Binds `k` to `v` in the entry list, overwriting an entry with the same
/// key in place and appending otherwise, as [`dict_insert`] says.
#[verifier::loop_isolation(false)]
fn insert_entry(entries: &mut Vec<(String, Node)>, k: String, v: Node)
    ensures
        entries_view(final(entries)@) == dict_insert(entries_view(old(entries)@), k@, v@),
{
    let ghost d = entries_view(old(entries)@);
    let n = entries.len();
    let mut i: usize = 0;
    while i < n
        invariant
            i <= n,
            n == entries@.len(),
            entries@ == old(entries)@,
            forall|j: int| 0 <= j < i ==> (#[trigger] d[j]).0 != k@,
        decreases n - i,
    {
        if entries[i].0 == k {
            proof {
                assert(d[i as int].0 == entries@[i as int].0@);
                lemma_key_index_first(d, k@, i as int);
            }
            entries.set(i, (k, v));
            proof {
                assert(entries_view(entries@) =~= d.update(i as int, (k@, v@)));
            }
            return ;
        }
        proof {
            assert(d[i as int].0 == entries@[i as int].0@);
        }
        i = i + 1;
    }
    proof {
        lemma_key_index(d, k@);
        if key_index(d, k@) >= 0 {
            assert(d[key_index(d, k@)].0 == k@);
            assert(false);
        }
    }
    entries.push((k, v));
    proof {
        assert(entries_view(entries@) =~= d.push((k@, v@)));
    }
}

/// Parses one value from the source and leaves the cursor just past it:
/// whitespace, then an object, array, string, literal or number by the
/// first character, exactly as [`sp_value`] describes.  On success the
/// returned tree is well formed: float literals are well formed and object
/// keys are unique at every level.
pub fn parse(source: &mut Buffer) -> (r: Result<Node, String>)
    ensures
        r matches Ok(n) ==> (sp_value(old(source).remaining()) matches PRes::Val(v, rest) && v
            == n@ && rest == final(source).remaining() && node_wf(n@)),
        r matches Err(m) ==> (sp_value(old(source).remaining()) matches PRes::Fail(msg) && msg
            == m@),
    decreases source.remaining().len(), 2int,
{
    broadcast use lemma_skip_ws_len;

    let ghost s0 = source.remaining();
    skip_whitespace(source);
    let ghost t = source.remaining();
    match source.current() {
        Option::None => Err(msg_string(ERR_EMPTY_INPUT)),
        Option::Some(c) => {
            if c == '{' {
                parse_object(source)
            } else if c == '[' {
                parse_array(source)
            } else if c == '"' {
                parse_string(source)
            } else if c == 't' {
                parse_true(source)
            } else if c == 'f' {
                parse_false(source)
            } else if c == 'n' {
                parse_null(source)
            } else if crate::text::is_digit_char(c) || c == '-' {
                parse_number(source)
            } else {
                let mut m = msg_string(ERR_UNEXPECTED_CHAR);
                crate::text::push_char(&mut m, c);
                Err(m)
            }
        },
    }
}

/// Parses an object, the cursor on its opening brace, as [`sp_object`]
/// describes: `"key": value` pairs separated by commas, a later binding of
/// a key overwriting the earlier one, closed by a brace.
#[verifier::loop_isolation(false)]
#[verifier::rlimit(100)]
fn parse_object(source: &mut Buffer) -> (r: Result<Node, String>)
    requires
        source.remaining().len() > 0,
        source.remaining()[0] == '{',
    ensures
        r matches Ok(n) ==> (sp_object(old(source).remaining()) matches PRes::Val(v, rest) && v
            == n@ && rest == final(source).remaining() && node_wf(n@)),
        r matches Err(m) ==> (sp_object(old(source).remaining()) matches PRes::Fail(msg) && msg
            == m@),
    decreases source.remaining().len(), 1int,
{
    broadcast use lemma_skip_ws_len, lemma_string_body_len;

    let ghost s0 = source.remaining();
    source.next();
    skip_whitespace(source);
    let ghost m_in = source.remaining();
    let starts_closed: bool = match source.current() {
        Option::Some(c) => c == '}',
        Option::None => false,
    };
    if starts_closed {
        source.next();
        let empty_entries: Vec<(String, Node)> = Vec::new();
        proof {
            assert(entries_view(empty_entries@) =~= Seq::<(Seq<char>, NodeV)>::empty());
        }
        return Ok(Node::Object(empty_entries));
    }
    let mut entries: Vec<(String, Node)> = Vec::new();
    proof {
        assert(m_in.len() < s0.len());
        assert(sp_object(s0) == sp_members(m_in, Seq::empty()));
        assert(entries_view(entries@) =~= Seq::<(Seq<char>, NodeV)>::empty());
        assert(node_wf(NodeV::Dict(entries_view(entries@))));
    }
    loop
        invariant
            node_wf(NodeV::Dict(entries_view(entries@))),
            source.remaining().len() <= m_in.len(),
            sp_members(m_in, Seq::empty()) == sp_members(
                source.remaining(),
                entries_view(entries@),
            ),
        decreases source.remaining().len(),
    {
        let ghost cur0 = source.remaining();
        let ghost ev0 = entries_view(entries@);
        skip_whitespace(source);
        let ghost tk = source.remaining();
        let key_res = parse_string(source);
        match key_res {
            Err(m) => {
                return Err(m);
            },
            Ok(kn) => {
                let key: String = match kn {
                    Node::Str(ks) => ks,
                    _ => {
                        // unreachable: a parsed string is always a string node
                        proof {
                            assert(false);
                        }
                        return Err(msg_string(ERR_OBJECT_KEY));
                    },
                };
                let ghost r1 = source.remaining();
                skip_whitespace(source);
                let ghost t1 = source.remaining();
                let has_colon: bool = match source.current() {
                    Option::Some(c2) => c2 == ':',
                    Option::None => false,
                };
                if !has_colon {
                    return Err(msg_string(ERR_EXPECT_COLON));
                }
                source.next();
                skip_whitespace(source);
                let ghost t2 = source.remaining();
                proof {
                    assert(r1.len() < tk.len());
                    assert(t2.len() < cur0.len());
                }
                let vres = parse(source);
                match vres {
                    Err(m) => {
                        return Err(m);
                    },
                    Ok(vn) => {
                        let ghost r2 = source.remaining();
                        proof {
                            lemma_value_consumes(t2);
                        }
                        insert_entry(&mut entries, key, vn);
                        proof {
                            let ev1 = entries_view(entries@);
                            lemma_dict_insert_unique(ev0, kn@->Text_0, vn@);
                            lemma_key_index(ev0, kn@->Text_0);
                            assert forall|i: int|
                                0 <= i < ev1.len() implies node_wf((#[trigger] ev1[i]).1) by {
                                if key_index(ev0, kn@->Text_0) >= 0 {
                                    assert(ev1 == ev0.update(
                                        key_index(ev0, kn@->Text_0),
                                        (kn@->Text_0, vn@),
                                    ));
                                } else {
                                    assert(ev1 == ev0.push((kn@->Text_0, vn@)));
                                }
                            }
                            assert(node_wf(NodeV::Dict(ev1)));
                        }
                        skip_whitespace(source);
                        let ghost t3 = source.remaining();
                        let next_kind: u8 = match source.current() {
                            Option::Some(c3) => {
                                if c3 == ',' {
                                    1
                                } else if c3 == '}' {
                                    2
                                } else {
                                    0
                                }
                            },
                            Option::None => 0,
                        };
                        if next_kind == 1 {
                            source.next();
                            proof {
                                assert(t3.len() <= cur0.len());
                                assert(sp_members(cur0, ev0) == sp_members(
                                    t3.drop_first(),
                                    entries_view(entries@),
                                ));
                            }
                        } else if next_kind == 2 {
                            source.next();
                            proof {
                                assert(sp_members(cur0, ev0) == PRes::Val(
                                    NodeV::Dict(entries_view(entries@)),
                                    t3.drop_first(),
                                ));
                            }
                            return Ok(Node::Object(entries));
                        } else {
                            return Err(msg_string(ERR_EXPECT_OBJECT_END));
                        }
                    },
                }
            },
        }
    }
}

/// Parses an array, the cursor on its opening bracket, as [`sp_array`]
/// describes: values separated by commas, closed by a bracket.
#[verifier::loop_isolation(false)]
#[verifier::rlimit(100)]
fn parse_array(source: &mut Buffer) -> (r: Result<Node, String>)
    requires
        source.remaining().len() > 0,
        source.remaining()[0] == '[',
    ensures
        r matches Ok(n) ==> (sp_array(old(source).remaining()) matches PRes::Val(v, rest) && v
            == n@ && rest == final(source).remaining() && node_wf(n@)),
        r matches Err(m) ==> (sp_array(old(source).remaining()) matches PRes::Fail(msg) && msg
            == m@),
    decreases source.remaining().len(), 1int,
{
    broadcast use lemma_skip_ws_len;

    let ghost s0 = source.remaining();
    source.next();
    skip_whitespace(source);
    let ghost a_in = source.remaining();
    let starts_closed: bool = match source.current() {
        Option::Some(c) => c == ']',
        Option::None => false,
    };
    if starts_closed {
        source.next();
        let empty_items: Vec<Node> = Vec::new();
        proof {
            assert(items_view(empty_items@) =~= Seq::<NodeV>::empty());
        }
        return Ok(Node::Array(empty_items));
    }
    let mut items: Vec<Node> = Vec::new();
    proof {
        assert(a_in.len() < s0.len());
        assert(sp_array(s0) == sp_elems(a_in, Seq::empty()));
        assert(items_view(items@) =~= Seq::<NodeV>::empty());
    }
    loop
        invariant
            forall|i: int|
                0 <= i < items_view(items@).len() ==> node_wf(#[trigger] items_view(items@)[i]),
            source.remaining().len() <= a_in.len(),
            sp_elems(a_in, Seq::empty()) == sp_elems(source.remaining(), items_view(items@)),
        decreases source.remaining().len(),
    {
        let ghost cur0 = source.remaining();
        let ghost iv0 = items_view(items@);
        let vres = parse(source);
        match vres {
            Err(m) => {
                return Err(m);
            },
            Ok(vn) => {
                proof {
                    lemma_value_consumes(cur0);
                }
                items.push(vn);
                proof {
                    assert(items_view(items@) =~= iv0.push(vn@));
                }
                skip_whitespace(source);
                let ghost t3 = source.remaining();
                let next_kind: u8 = match source.current() {
                    Option::Some(c3) => {
                        if c3 == ',' {
                            1
                        } else if c3 == ']' {
                            2
                        } else {
                            0
                        }
                    },
                    Option::None => 0,
                };
                if next_kind == 1 {
                    source.next();
                    proof {
                        assert(t3.len() < cur0.len());
                        assert(sp_elems(cur0, iv0) == sp_elems(
                            t3.drop_first(),
                            items_view(items@),
                        ));
                    }
                } else if next_kind == 2 {
                    source.next();
                    proof {
                        assert(sp_elems(cur0, iv0) == PRes::Val(
                            NodeV::List(items_view(items@)),
                            t3.drop_first(),
                        ));
                    }
                    return Ok(Node::Array(items));
                } else {
                    return Err(msg_string(ERR_EXPECT_ARRAY_END));
                }
            },
        }
    }
}

} // verus!
