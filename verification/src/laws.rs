use vstd::prelude::*;
use crate::nodes::node::{
    dict_keys_unique, is_float_lit, node_wf, NodeV, NumericV,
};
use crate::parser::default::{
    dict_insert, key_index, lemma_key_index, sp_num_body, sp_skip_ws, sp_string, sp_string_body,
    sp_value, NumScan, PRes,
};
use crate::stringify::bencode::{spec_bencode, spec_bencode_dict, spec_bencode_str};
use crate::stringify::default::{spec_escape, spec_escape_char, spec_json, spec_quoted};
use crate::stringify::order::{ekey, idx_min, iota, lemma_idx_min, lemma_sort_idx_len, sort_idx, sort_order};
use crate::text::{
    digit_val, digits_val, is_digit, is_ws, lemma_lex_asym, lemma_lex_connex, lemma_lex_trans,
    lex_lt, spec_int_chars, spec_udigits,
};

verus! {

broadcast use vstd::std_specs::vec::group_vec_axioms;

// ---------------------------------------------------------------------------
// The trees that parsing can reproduce
// ---------------------------------------------------------------------------

/// Whether `c` would extend a number token: the text after a serialized
/// number must not begin with one of these.
pub open spec fn num_cont(c: char) -> bool {
    is_digit(c) || c == '.' || c == 'e' || c == 'E'
}

/// The trees that the parser itself can produce: numerics are 64-bit
/// signed integers in range, or floats whose literal is well formed,
/// begins with a minus sign or a digit, and carries a point or an exponent
/// marker.  The other numeric widths are reachable only by construction
/// and serialize to texts that parse as something else.
pub open spec fn parseable(v: NodeV) -> bool
    decreases v,
{
    match v {
        NodeV::Number(m) => match m {
            NumericV::Integer(i) => i64::MIN <= i <= i64::MAX,
            NumericV::Float(t) => t.len() > 0 && (t[0] == '-' || is_digit(t[0])) && (exists|i: int|
                0 <= i < t.len() && (t[i] == '.' || t[i] == 'e' || t[i] == 'E')),
            _ => false,
        },
        NodeV::List(items) => forall|i: int|
            0 <= i < items.len() ==> parseable(#[trigger] items[i]),
        NodeV::Dict(entries) => forall|i: int|
            0 <= i < entries.len() ==> parseable((#[trigger] entries[i]).1),
        _ => true,
    }
}

// ---------------------------------------------------------------------------
// Reparsing the pieces a serialized tree is made of
// ---------------------------------------------------------------------------

/// Skipping whitespace is the identity on text that starts with none.
proof fn lemma_skip_ws_id(s: Seq<char>)
    requires
        s.len() == 0 || !is_ws(s[0]),
    ensures
        sp_skip_ws(s) == s,
{
}


/// Reparsing a serialized string literal yields the string back.
proof fn lemma_rt_string_body(s: Seq<char>, acc: Seq<char>, rest: Seq<char>)
    ensures
        sp_string_body(spec_escape(s) + seq!['"'] + rest, acc) == PRes::Val(
            NodeV::Text(acc + s),
            rest,
        ),
    decreases s.len(),
{
    let w = spec_escape(s) + seq!['"'] + rest;
    if s.len() == 0 {
        assert(spec_escape(s) =~= Seq::<char>::empty());
        assert(w =~= seq!['"'] + rest);
        assert(w[0] == '"');
        assert(w.drop_first() =~= rest);
        assert(acc + s =~= acc);
    } else {
        let c = s[0];
        let ec = spec_escape_char(c);
        let w2 = spec_escape(s.drop_first()) + seq!['"'] + rest;
        assert(w =~= ec + w2);
        lemma_rt_string_body(s.drop_first(), acc.push(c), rest);
        assert(acc.push(c) + s.drop_first() =~= acc + s);
        if c == '"' || c == '\\' || c == '\n' || c == '\r' || c == '\t' {
            assert(w[0] == '\\');
            assert(w.len() >= 2 && w[1] == ec[1]);
            assert(w.skip(2) =~= w2);
        } else if crate::text::is_control(c) {
            let u = c as u32;
            vstd::utf8::char_is_scalar(c);
            assert(u <= 0x9F);
            let h = crate::text::spec_hex4(u as int);
            assert(ec =~= seq!['\\', 'u'] + h);
            assert(w[0] == '\\' && w[1] == 'u');
            assert(w.len() >= 6);
            assert(w[2] == h[0] && w[3] == h[1] && w[4] == h[2] && w[5] == h[3]);
            lemma_hex_digit_val(u as int / 4096 % 16);
            lemma_hex_digit_val(u as int / 256 % 16);
            lemma_hex_digit_val(u as int / 16 % 16);
            lemma_hex_digit_val(u as int % 16);
            assert(is_digit(h[0]) || crate::text::is_hex_digit(h[0]));
            vstd::arithmetic::div_mod::lemma_basic_div(u as int, 4096);
            vstd::arithmetic::div_mod::lemma_basic_div(u as int, 256);
            vstd::arithmetic::div_mod::lemma_fundamental_div_mod(u as int, 16);
            assert(u as int / 4096 == 0 && u as int / 256 == 0);
            assert(0int % 16 == 0) by (nonlinear_arith);
            assert(u as int / 16 < 16);
            assert(u as int / 16 % 16 == u as int / 16) by {
                vstd::arithmetic::div_mod::lemma_small_mod((u as int / 16) as nat, 16);
            }
            assert(u as int % 16 < 16 && u as int % 16 >= 0);
            let code = ((digit_val(w[2]) * 4096 + digit_val(w[3]) * 256 + digit_val(w[4]) * 16
                + digit_val(w[5])) as u32);
            assert(code == u);
            assert(crate::text::is_scalar_value(code));
            vstd::utf8::char_u32_cast(c, u);
            assert(code as char == c);
            assert(w.skip(6) =~= w2);
            assert(c != '"' && c != '\\');
        } else {
            assert(ec =~= seq![c]);
            assert(w[0] == c);
            assert(c != '"' && c != '\\');
            assert(w.drop_first() =~= w2);
        }
    }
}

/// A decimal digit reads back from its character.
proof fn lemma_digit_char_val(d: int)
    requires
        0 <= d < 10,
    ensures
        is_digit(crate::text::digit_char(d)),
        digit_val(crate::text::digit_char(d)) == d,
{
}

/// A four-bit value reads back from its hexadecimal character.
proof fn lemma_hex_digit_val(d: int)
    requires
        0 <= d < 16,
    ensures
        crate::text::is_hex_digit(crate::text::hex_char(d)),
        digit_val(crate::text::hex_char(d)) == d,
{
}

/// Reparsing a quoted, escaped string yields the text back.
proof fn lemma_rt_string(s: Seq<char>, rest: Seq<char>)
    ensures
        sp_string(spec_quoted(s) + rest) == PRes::Val(NodeV::Text(s), rest),
{
    let w = spec_quoted(s) + rest;
    assert(w.len() > 0);
    assert(w.drop_first() =~= spec_escape(s) + seq!['"'] + rest);
    lemma_rt_string_body(s, Seq::empty(), rest);
    assert(Seq::<char>::empty() + s =~= s);
}

/// Reparsing the serialized literals yields them back.
proof fn lemma_rt_literals(rest: Seq<char>)
    ensures
        crate::parser::default::sp_true("true"@ + rest) == PRes::Val(NodeV::Boolean(true), rest),
        crate::parser::default::sp_false("false"@ + rest) == PRes::Val(
            NodeV::Boolean(false),
            rest,
        ),
        crate::parser::default::sp_null("null"@ + rest) == PRes::Val(NodeV::Null, rest),
{
    reveal_strlit("true");
    reveal_strlit("false");
    reveal_strlit("null");
    assert(("true"@ + rest).skip(4) =~= rest);
    assert(("false"@ + rest).skip(5) =~= rest);
    assert(("null"@ + rest).skip(4) =~= rest);
}

// ---------------------------------------------------------------------------
// Reparsing numbers
// ---------------------------------------------------------------------------

/// The decimal rendering of a non-negative integer is all digits and reads
/// back to the same value.
proof fn lemma_udigits_value(n: nat)
    ensures
        spec_udigits(n).len() >= 1,
        forall|i: int| 0 <= i < spec_udigits(n).len() ==> is_digit(#[trigger] spec_udigits(n)[i]),
        digits_val(spec_udigits(n)) == n,
    decreases n,
{
    if n < 10 {
        let d = spec_udigits(n);
        assert(d =~= seq![crate::text::digit_char(n as int)]);
        assert(d.drop_last() =~= Seq::<char>::empty());
        lemma_digit_char_val(n as int);
        assert(d.last() == crate::text::digit_char(n as int));
        assert(digits_val(d) == digits_val(d.drop_last()) * 10 + digit_val(d.last()));
        assert(digits_val(Seq::<char>::empty()) == 0);
    } else {
        lemma_udigits_value(n / 10);
        let d = spec_udigits(n);
        assert(d =~= spec_udigits(n / 10) + seq![crate::text::digit_char((n % 10) as int)]);
        assert(d.drop_last() =~= spec_udigits(n / 10));
        assert(d.last() == crate::text::digit_char((n % 10) as int));
        lemma_digit_char_val((n % 10) as int);
        assert(digits_val(d) == (n / 10) * 10 + n % 10);
        vstd::arithmetic::div_mod::lemma_fundamental_div_mod(n as int, 10);
        assert forall|i: int| 0 <= i < d.len() implies is_digit(#[trigger] d[i]) by {
            if i < d.len() - 1 {
                assert(d[i] == spec_udigits(n / 10)[i]);
            }
        }
    }
}

/// Scanning a run of digits takes exactly the digits; the text after them
/// must not extend the token.
proof fn lemma_scan_digits(d: Seq<char>, rest: Seq<char>, fl: bool)
    requires
        forall|i: int| 0 <= i < d.len() ==> is_digit(#[trigger] d[i]),
        rest.len() > 0 ==> !num_cont(rest[0]),
    ensures
        sp_num_body(d + rest, fl) == NumScan::Tok(d, rest, fl),
    decreases d.len(),
{
    if d.len() == 0 {
        assert(d + rest =~= rest);
        assert(d =~= Seq::<char>::empty());
        if rest.len() > 0 {
            assert(!is_digit(rest[0]) && rest[0] != '.' && rest[0] != 'e' && rest[0] != 'E');
        }
    } else {
        let w = d + rest;
        assert(w[0] == d[0]);
        assert(is_digit(d[0]));
        assert(w.drop_first() =~= d.drop_first() + rest);
        lemma_scan_digits(d.drop_first(), rest, fl);
        assert(seq![d[0]] + d.drop_first() =~= d);
    }
}

/// Scanning a run of digits before more of the token passes the digits
/// through.
proof fn lemma_scan_digits_prefix(d: Seq<char>, u: Seq<char>, fl: bool)
    requires
        forall|i: int| 0 <= i < d.len() ==> is_digit(#[trigger] d[i]),
    ensures
        sp_num_body(d + u, fl) == (match sp_num_body(u, fl) {
            NumScan::Tok(tx, rx, fx) => NumScan::Tok(d + tx, rx, fx),
            NumScan::TwoDots => NumScan::TwoDots,
        }),
    decreases d.len(),
{
    if d.len() == 0 {
        assert(d + u =~= u);
        match sp_num_body(u, fl) {
            NumScan::Tok(tx, rx, fx) => {
                assert(d + tx =~= tx);
            },
            NumScan::TwoDots => {},
        }
    } else {
        let w = d + u;
        assert(w[0] == d[0]);
        assert(is_digit(d[0]));
        assert(w.drop_first() =~= d.drop_first() + u);
        lemma_scan_digits_prefix(d.drop_first(), u, fl);
        match sp_num_body(u, fl) {
            NumScan::Tok(tx, rx, fx) => {
                assert(seq![d[0]] + (d.drop_first() + tx) =~= d + tx);
            },
            NumScan::TwoDots => {},
        }
    }
}

/// Reparsing the decimal rendering of an integer in range yields it back.
proof fn lemma_rt_int(i: int, rest: Seq<char>)
    requires
        i64::MIN <= i <= i64::MAX,
        rest.len() > 0 ==> !num_cont(rest[0]),
    ensures
        crate::parser::default::sp_number(spec_int_chars(i) + rest) == PRes::Val(
            NodeV::Number(NumericV::Integer(i)),
            rest,
        ),
{
    let w = spec_int_chars(i) + rest;
    if i < 0 {
        lemma_udigits_value((-i) as nat);
        let d = spec_udigits((-i) as nat);
        assert(w[0] == '-');
        assert(w.drop_first() =~= d + rest);
        lemma_scan_digits(d, rest, false);
        let tok = seq!['-'] + d;
        assert(tok[0] == '-');
        assert(tok.drop_first() =~= d);
        assert(crate::parser::default::sp_parse_int(tok) == Option::Some(i));
        assert(w =~= tok + rest);
        assert(w.len() > 0 && w[0] == '-');
    } else {
        lemma_udigits_value(i as nat);
        let d = spec_udigits(i as nat);
        assert(w =~= d + rest);
        assert(is_digit(d[0]));
        assert(w[0] == d[0]);
        assert(w[0] != '-');
        lemma_scan_digits(d, rest, false);
        assert(crate::parser::default::sp_parse_int(d) == Option::Some(i)) by {
            assert(d.len() > 0 && d[0] != '-');
        }
    }
}


/// Scanning a well-formed mantissa passes it through, the float flag set
/// exactly when it holds a point.
proof fn lemma_scan_mantissa(m: Seq<char>, u: Seq<char>)
    requires
        crate::nodes::node::mantissa_ok(m),
    ensures
        sp_num_body(m + u, false) == (match sp_num_body(
            u,
            crate::nodes::node::first_nondigit(m) < m.len(),
        ) {
            NumScan::Tok(tx, rx, fx) => NumScan::Tok(m + tx, rx, fx),
            NumScan::TwoDots => NumScan::TwoDots,
        }),
{
    let j0 = crate::nodes::node::first_nondigit(m);
    crate::parser::default::lemma_first_nondigit(m);
    if j0 >= m.len() {
        lemma_scan_digits_prefix(m, u, false);
    } else {
        assert(m[j0] == '.');
        let d1 = m.take(j0);
        let d2 = m.skip(j0 + 1);
        assert(m =~= d1 + (seq!['.'] + d2));
        assert(forall|i: int| 0 <= i < d1.len() ==> is_digit(#[trigger] d1[i])) by {
            assert(forall|i: int| 0 <= i < d1.len() ==> d1[i] == m[i]);
        }
        assert(crate::nodes::node::all_digits(d2));
        let mid = seq!['.'] + d2 + u;
        assert(m + u =~= d1 + mid);
        lemma_scan_digits_prefix(d1, mid, false);
        assert(mid[0] == '.');
        assert(mid.drop_first() =~= d2 + u);
        lemma_scan_digits_prefix(d2, u, true);
        match sp_num_body(u, true) {
            NumScan::Tok(tx, rx, fx) => {
                assert(seq!['.'] + (d2 + tx) =~= seq!['.'] + d2 + tx);
                assert(d1 + (seq!['.'] + d2 + tx) =~= m + tx);
            },
            NumScan::TwoDots => {},
        }
    }
}

/// Scanning a well-formed exponent after its marker takes the rest of the
/// token.
proof fn lemma_scan_exp(ec: char, ex: Seq<char>, rest: Seq<char>, fl: bool)
    requires
        ec == 'e' || ec == 'E',
        crate::nodes::node::exponent_ok(ex),
        rest.len() > 0 ==> !num_cont(rest[0]),
    ensures
        sp_num_body(seq![ec] + ex + rest, fl) == NumScan::Tok(seq![ec] + ex, rest, true),
{
    let w = seq![ec] + ex + rest;
    assert(w[0] == ec);
    if ex.len() > 0 && (ex[0] == '+' || ex[0] == '-') {
        let d = ex.drop_first();
        assert(d.len() >= 1 && crate::nodes::node::all_digits(d));
        assert(w.len() >= 2 && w[1] == ex[0]);
        assert(w.skip(2) =~= d + rest);
        lemma_scan_digits(d, rest, true);
        assert(seq![ec, ex[0]] + d =~= seq![ec] + ex);
    } else {
        assert(ex.len() >= 1 && crate::nodes::node::all_digits(ex));
        assert(w.len() >= 2 ==> w[1] == ex[0]);
        assert(!(w.len() >= 2 && (w[1] == '+' || w[1] == '-')));
        assert(w.drop_first() =~= ex + rest);
        lemma_scan_digits(ex, rest, true);
        assert(seq![ec] + ex =~= seq![ec] + ex);
    }
}

/// Reparsing a well-formed float literal yields it back, as long as it
/// starts the way the tokenizer dispatches and carries a point or an
/// exponent marker.
proof fn lemma_rt_float(t: Seq<char>, rest: Seq<char>)
    requires
        is_float_lit(t),
        t.len() > 0 && (t[0] == '-' || is_digit(t[0])),
        exists|i: int| 0 <= i < t.len() && (t[i] == '.' || t[i] == 'e' || t[i] == 'E'),
        rest.len() > 0 ==> !num_cont(rest[0]),
    ensures
        crate::parser::default::sp_number(t + rest) == PRes::Val(
            NodeV::Number(NumericV::Float(t)),
            rest,
        ),
{
    let w = t + rest;
    let neg = t[0] == '-';
    let b = if neg {
        t.drop_first()
    } else {
        t
    };
    assert(w[0] == t[0]);
    assert(neg ==> w.drop_first() =~= b + rest);
    assert(!neg ==> w =~= b + rest);
    let k = crate::nodes::node::first_e(b);
    crate::parser::default::lemma_first_e(b);
    let j0 = crate::nodes::node::first_nondigit(b);
    if k >= b.len() {
        // no exponent marker: the literal carries a point
        assert(crate::nodes::node::mantissa_ok(b)) by {
            assert(b =~= b.take(k));
        }
        crate::parser::default::lemma_first_nondigit(b);
        assert(j0 < b.len()) by {
            if j0 >= b.len() {
                let i = choose|i: int|
                    0 <= i < t.len() && (t[i] == '.' || t[i] == 'e' || t[i] == 'E');
                let ib = if neg {
                    i - 1
                } else {
                    i
                };
                assert(0 <= ib < b.len() && (b[ib] == '.' || b[ib] == 'e' || b[ib] == 'E'));
                assert(is_digit(b[ib]));
                assert(b[ib] != 'e' && b[ib] != 'E');
            }
        }
        lemma_scan_mantissa(b, rest);
        assert(sp_num_body(rest, true) == NumScan::Tok(Seq::<char>::empty(), rest, true)) by {
            if rest.len() > 0 {
                assert(!is_digit(rest[0]) && rest[0] != '.' && rest[0] != 'e' && rest[0] != 'E');
            }
        }
        assert(b + Seq::<char>::empty() =~= b);
        assert(sp_num_body(b + rest, false) == NumScan::Tok(b, rest, true));
    } else {
        let m = b.take(k);
        let ex = b.skip(k + 1);
        assert(crate::nodes::node::mantissa_ok(m));
        assert(crate::nodes::node::exponent_ok(ex));
        let u = seq![b[k]] + ex + rest;
        assert(b + rest =~= m + u);
        lemma_scan_mantissa(m, u);
        lemma_scan_exp(b[k], ex, rest, crate::nodes::node::first_nondigit(m) < m.len());
        assert(m + (seq![b[k]] + ex) =~= b);
        assert(sp_num_body(b + rest, false) == NumScan::Tok(b, rest, true));
    }
    let tok = if neg {
        seq!['-'] + b
    } else {
        b
    };
    assert(tok =~= t);
}


// ---------------------------------------------------------------------------
// Reparsing whole trees
// ---------------------------------------------------------------------------

/// The characters a serialized value can begin with: exactly those the
/// parser dispatches on.
pub open spec fn json_head_char(c: char) -> bool {
    c == '{' || c == '[' || c == '"' || c == 't' || c == 'f' || c == 'n' || c == '-' || is_digit(
        c,
    )
}

/// A serialized value is never empty and begins with a dispatch character,
/// which is no whitespace.
proof fn lemma_json_head(v: NodeV)
    requires
        node_wf(v),
        parseable(v),
    ensures
        spec_json(v).len() >= 1,
        json_head_char(spec_json(v)[0]),
        !is_ws(spec_json(v)[0]),
    decreases v,
{
    reveal_strlit("null");
    reveal_strlit("true");
    reveal_strlit("false");
    match v {
        NodeV::Number(m) => match m {
            NumericV::Integer(i) => {
                if i < 0 {
                } else {
                    lemma_udigits_value(i as nat);
                    assert(spec_json(v)[0] == spec_udigits(i as nat)[0]);
                    assert(is_digit(spec_udigits(i as nat)[0]));
                }
            },
            NumericV::Float(tx) => {
                assert(spec_json(v) == tx);
            },
            _ => {
                assert(false);
            },
        },
        _ => {},
    }
}

/// Reparsing serialized array elements from position `k` on, `acc` already
/// collected, rebuilds the array and stops at the closing bracket.
proof fn lemma_rt_elems(items: Seq<NodeV>, k: int, acc: Seq<NodeV>, rest: Seq<char>)
    requires
        0 <= k < items.len(),
        forall|i: int| 0 <= i < items.len() ==> node_wf(#[trigger] items[i]),
        forall|i: int| 0 <= i < items.len() ==> parseable(#[trigger] items[i]),
    ensures
        crate::parser::default::sp_elems(
            crate::stringify::default::spec_json_items(items.skip(k)) + seq![']'] + rest,
            acc,
        ) == PRes::Val(NodeV::List(acc + items.skip(k)), rest),
    decreases items, items.len() - k,
{
    let tail = items.skip(k);
    assert(tail[0] == items[k]);
    lemma_json_head(items[k]);
    if tail.len() == 1 {
        let s = crate::stringify::default::spec_json_items(tail) + seq![']'] + rest;
        assert(crate::stringify::default::spec_json_items(tail) == spec_json(tail[0]));
        let r1 = seq![']'] + rest;
        assert(s =~= spec_json(items[k]) + r1);
        lemma_rt_value(items[k], r1);
        lemma_skip_ws_id(r1);
        assert(r1[0] == ']');
        assert(r1.drop_first() =~= rest);
        assert(acc.push(items[k]) =~= acc + tail);
    } else {
        let s = crate::stringify::default::spec_json_items(tail) + seq![']'] + rest;
        let more = crate::stringify::default::spec_json_items(tail.drop_first());
        assert(crate::stringify::default::spec_json_items(tail) == spec_json(tail[0]) + seq![',']
            + more);
        let r1 = seq![','] + more + seq![']'] + rest;
        assert(s =~= spec_json(items[k]) + r1);
        lemma_rt_value(items[k], r1);
        lemma_skip_ws_id(r1);
        assert(r1[0] == ',');
        assert(r1.len() < s.len()) by {
            assert(spec_json(items[k]).len() >= 1);
        }
        assert(tail.drop_first() =~= items.skip(k + 1));
        lemma_rt_elems(items, k + 1, acc.push(items[k]), rest);
        assert(r1.drop_first() =~= crate::stringify::default::spec_json_items(items.skip(k + 1))
            + seq![']'] + rest);
        assert(acc.push(items[k]) + items.skip(k + 1) =~= acc + tail);
    }
}

/// Reparsing serialized object entries from position `k` on, `acc` already
/// collected, rebuilds the object and stops at the closing brace.  Unique
/// keys keep every binding an appending one.
proof fn lemma_rt_members(
    entries: Seq<(Seq<char>, NodeV)>,
    k: int,
    acc: Seq<(Seq<char>, NodeV)>,
    rest: Seq<char>,
)
    requires
        0 <= k < entries.len(),
        forall|i: int| 0 <= i < entries.len() ==> node_wf((#[trigger] entries[i]).1),
        forall|i: int| 0 <= i < entries.len() ==> parseable((#[trigger] entries[i]).1),
        dict_keys_unique(acc + entries.skip(k)),
    ensures
        crate::parser::default::sp_members(
            crate::stringify::default::spec_json_entries(entries.skip(k)) + seq!['}'] + rest,
            acc,
        ) == PRes::Val(NodeV::Dict(acc + entries.skip(k)), rest),
    decreases entries, entries.len() - k,
{
    let tail = entries.skip(k);
    assert(tail[0] == entries[k]);
    let key = entries[k].0;
    let v = entries[k].1;
    lemma_json_head(v);
    let closing: Seq<char> = if tail.len() == 1 {
        seq!['}'] + rest
    } else {
        seq![','] + crate::stringify::default::spec_json_entries(tail.drop_first()) + seq!['}']
            + rest
    };
    let s = crate::stringify::default::spec_json_entries(tail) + seq!['}'] + rest;
    let r1 = seq![':'] + spec_json(v) + closing;
    assert(s =~= spec_quoted(key) + r1);
    assert(s[0] == '"') by {
        assert(spec_quoted(key)[0] == '"');
    }
    lemma_skip_ws_id(s);
    lemma_rt_string(key, r1);
    lemma_skip_ws_id(r1);
    assert(r1[0] == ':');
    let t2 = spec_json(v) + closing;
    assert(r1.drop_first() =~= t2);
    lemma_skip_ws_id(t2);
    assert(t2.len() < s.len()) by {
        assert(spec_quoted(key).len() >= 2);
    }
    assert(closing.len() > 0 ==> !num_cont(closing[0]));
    lemma_rt_value(v, closing);
    lemma_skip_ws_id(closing);
    // the key is fresh, so the binding appends
    crate::parser::default::lemma_key_index(acc, key);
    assert(key_index(acc, key) < 0) by {
        if key_index(acc, key) >= 0 {
            let ki = key_index(acc, key);
            let whole = acc + tail;
            assert(whole[ki] == acc[ki]);
            assert(whole[acc.len() as int] == tail[0]);
            assert(whole[ki].0 == whole[acc.len() as int].0);
        }
    }
    let acc2 = dict_insert(acc, key, v);
    assert(acc2 == acc.push((key, v)));
    assert(acc2 =~= acc.push(entries[k]));
    if tail.len() == 1 {
        assert(closing[0] == '}');
        assert(closing.drop_first() =~= rest);
        assert(acc2 =~= acc + tail);
    } else {
        assert(closing[0] == ',');
        assert(closing.len() <= s.len());
        assert(tail.drop_first() =~= entries.skip(k + 1));
        assert(acc2 + entries.skip(k + 1) =~= acc + tail);
        lemma_rt_members(entries, k + 1, acc2, rest);
        assert(closing.drop_first() =~= crate::stringify::default::spec_json_entries(
            entries.skip(k + 1),
        ) + seq!['}'] + rest);
    }
}

/// Reparsing one serialized value before any text that cannot extend it
/// yields the value back and leaves that text.
#[verifier::rlimit(100)]
proof fn lemma_rt_value(v: NodeV, rest: Seq<char>)
    requires
        node_wf(v),
        parseable(v),
        rest.len() > 0 ==> !num_cont(rest[0]),
    ensures
        sp_value(spec_json(v) + rest) == PRes::Val(v, rest),
    decreases v, 0int,
{
    let s = spec_json(v) + rest;
    lemma_json_head(v);
    assert(s[0] == spec_json(v)[0]);
    lemma_skip_ws_id(s);
    reveal_strlit("null");
    reveal_strlit("true");
    reveal_strlit("false");
    match v {
        NodeV::Null => {
            assert(s =~= "null"@ + rest);
            lemma_rt_literals(rest);
        },
        NodeV::Boolean(b) => {
            if b {
                assert(s =~= "true"@ + rest);
            } else {
                assert(s =~= "false"@ + rest);
            }
            lemma_rt_literals(rest);
        },
        NodeV::Number(m) => {
            match m {
                NumericV::Integer(i) => {
                    assert(s =~= spec_int_chars(i) + rest);
                    lemma_rt_int(i, rest);
                },
                NumericV::Float(tx) => {
                    assert(s =~= tx + rest);
                    lemma_rt_float(tx, rest);
                },
                _ => {
                    assert(false);
                },
            }
        },
        NodeV::Text(tx) => {
            assert(s =~= spec_quoted(tx) + rest);
            lemma_rt_string(tx, rest);
        },
        NodeV::List(items) => {
            assert(s[0] == '[');
            let inner = crate::stringify::default::spec_json_items(items) + seq![']'] + rest;
            assert(s.drop_first() =~= inner);
            if items.len() == 0 {
                assert(inner =~= seq![']'] + rest);
                lemma_skip_ws_id(inner);
                assert(inner[0] == ']');
                assert(inner.drop_first() =~= rest);
                assert(Seq::<NodeV>::empty() =~= items);
            } else {
                lemma_json_head(items[0]);
                assert(inner[0] == spec_json(items[0])[0]) by {
                    assert(crate::stringify::default::spec_json_items(items)[0] == spec_json(
                        items[0],
                    )[0]);
                }
                lemma_skip_ws_id(inner);
                assert(inner[0] != ']');
                assert(inner.len() < s.len());
                lemma_rt_elems(items, 0, Seq::empty(), rest);
                assert(items.skip(0) =~= items);
                assert(Seq::<NodeV>::empty() + items =~= items);
            }
        },
        NodeV::Dict(entries) => {
            assert(s[0] == '{');
            let inner = crate::stringify::default::spec_json_entries(entries) + seq!['}'] + rest;
            assert(s.drop_first() =~= inner);
            if entries.len() == 0 {
                assert(inner =~= seq!['}'] + rest);
                lemma_skip_ws_id(inner);
                assert(inner[0] == '}');
                assert(inner.drop_first() =~= rest);
                assert(Seq::<(Seq<char>, NodeV)>::empty() =~= entries);
            } else {
                assert(inner[0] == '"') by {
                    assert(crate::stringify::default::spec_json_entries(entries)[0]
                        == spec_quoted(entries[0].0)[0]);
                }
                lemma_skip_ws_id(inner);
                assert(inner[0] != '}');
                assert(inner.len() < s.len());
                assert(entries.skip(0) =~= entries);
                assert(Seq::<(Seq<char>, NodeV)>::empty() + entries =~= entries);
                assert(dict_keys_unique(Seq::<(Seq<char>, NodeV)>::empty() + entries));
                lemma_rt_members(entries, 0, Seq::empty(), rest);
            }
        },
    }
}

/// Round trip: parsing the compact JSON text of a well-formed, parseable
/// tree yields exactly that tree, with no input left over.  Object entries
/// come back in the order they were serialized in, so the result is equal
/// outright, not merely as a mapping.
pub proof fn lemma_parse_round_trip(v: NodeV)
    requires
        node_wf(v),
        parseable(v),
    ensures
        sp_value(spec_json(v)) == PRes::Val(v, Seq::<char>::empty()),
{
    lemma_rt_value(v, Seq::empty());
    assert(spec_json(v) + Seq::<char>::empty() =~= spec_json(v));
}


// ---------------------------------------------------------------------------
// Bencode is a function of the mapping, not of the entry order
// ---------------------------------------------------------------------------

/// The value of the entry at `i`, or null out of range.
pub open spec fn eval_at(d: Seq<(Seq<char>, NodeV)>, i: int) -> NodeV {
    if 0 <= i < d.len() {
        d[i].1
    } else {
        NodeV::Null
    }
}

/// The mapping that the entries selected by `o` describe, a later position
/// in `o` bound first.
pub open spec fn sel_map(d: Seq<(Seq<char>, NodeV)>, o: Seq<int>) -> Map<Seq<char>, NodeV>
    decreases o.len(),
{
    if o.len() == 0 {
        Map::empty()
    } else {
        sel_map(d, o.drop_first()).insert(ekey(d, o[0]), eval_at(d, o[0]))
    }
}

/// The mapping that a dictionary describes.
pub open spec fn dict_as_map(d: Seq<(Seq<char>, NodeV)>) -> Map<Seq<char>, NodeV> {
    sel_map(d, iota(d.len() as int))
}

/// Whether the keys at the positions of `o` are pairwise distinct.
pub open spec fn keys_distinct(d: Seq<(Seq<char>, NodeV)>, o: Seq<int>) -> bool {
    forall|p: int, q: int|
        0 <= p < q < o.len() ==> ekey(d, #[trigger] o[p]) != ekey(d, #[trigger] o[q])
}

/// What the selected mapping holds: exactly the selected keys, each bound
/// to its entry's value, when the keys are distinct.
proof fn lemma_sel_map_props(d: Seq<(Seq<char>, NodeV)>, o: Seq<int>)
    requires
        keys_distinct(d, o),
    ensures
        forall|p: int|
            0 <= p < o.len() ==> sel_map(d, o).contains_key(ekey(d, #[trigger] o[p]))
                && sel_map(d, o)[ekey(d, o[p])] == eval_at(d, o[p]),
        forall|k: Seq<char>|
            sel_map(d, o).contains_key(k) ==> exists|p: int|
                0 <= p < o.len() && ekey(d, #[trigger] o[p]) == k,
    decreases o.len(),
{
    if o.len() > 0 {
        assert(forall|p: int, q: int|
            0 <= p < q < o.drop_first().len() ==> ekey(d, #[trigger] o.drop_first()[p]) != ekey(
                d,
                #[trigger] o.drop_first()[q],
            )) by {
            assert(forall|p: int|
                0 <= p < o.drop_first().len() ==> #[trigger] o.drop_first()[p] == o[p + 1]);
        }
        lemma_sel_map_props(d, o.drop_first());
        assert forall|p: int|
            0 <= p < o.len() implies sel_map(d, o).contains_key(ekey(d, #[trigger] o[p]))
            && sel_map(d, o)[ekey(d, o[p])] == eval_at(d, o[p]) by {
            if p > 0 {
                assert(o.drop_first()[p - 1] == o[p]);
                assert(ekey(d, o[p]) != ekey(d, o[0]));
            }
        }
        assert forall|k: Seq<char>| sel_map(d, o).contains_key(k) implies exists|p: int|
            0 <= p < o.len() && ekey(d, #[trigger] o[p]) == k by {
            if k != ekey(d, o[0]) {
                let p0 = choose|p: int|
                    0 <= p < o.drop_first().len() && ekey(d, #[trigger] o.drop_first()[p]) == k;
                assert(o.drop_first()[p0] == o[p0 + 1]);
                assert(ekey(d, o[p0 + 1]) == k);
            }
        }
    }
}

/// Removing the bound head key of a selection removes exactly its binding.
proof fn lemma_sel_map_tail(d: Seq<(Seq<char>, NodeV)>, o: Seq<int>)
    requires
        keys_distinct(d, o),
        o.len() > 0,
    ensures
        sel_map(d, o.drop_first()) == sel_map(d, o).remove(ekey(d, o[0])),
{
    assert(forall|p: int, q: int|
        0 <= p < q < o.drop_first().len() ==> ekey(d, #[trigger] o.drop_first()[p]) != ekey(
            d,
            #[trigger] o.drop_first()[q],
        )) by {
        assert(forall|p: int|
            0 <= p < o.drop_first().len() ==> #[trigger] o.drop_first()[p] == o[p + 1]);
    }
    lemma_sel_map_props(d, o.drop_first());
    let k0 = ekey(d, o[0]);
    assert(!sel_map(d, o.drop_first()).contains_key(k0)) by {
        if sel_map(d, o.drop_first()).contains_key(k0) {
            let p0 = choose|p: int|
                0 <= p < o.drop_first().len() && ekey(d, #[trigger] o.drop_first()[p]) == k0;
            assert(o.drop_first()[p0] == o[p0 + 1]);
            assert(ekey(d, o[p0 + 1]) == ekey(d, o[0]));
        }
    }
    assert(sel_map(d, o.drop_first()) =~= sel_map(d, o).remove(k0));
}

/// Sorting distinct-keyed positions keeps them valid and distinct, orders
/// their keys strictly, and keeps the selected mapping.
proof fn lemma_sort_sel(d: Seq<(Seq<char>, NodeV)>, idxs: Seq<int>)
    requires
        keys_distinct(d, idxs),
    ensures
        sort_idx(d, idxs).len() == idxs.len(),
        keys_distinct(d, sort_idx(d, idxs)),
        forall|p: int, q: int|
            0 <= p < q < idxs.len() ==> lex_lt(
                ekey(d, #[trigger] sort_idx(d, idxs)[p]),
                ekey(d, #[trigger] sort_idx(d, idxs)[q]),
            ),
        sel_map(d, sort_idx(d, idxs)) == sel_map(d, idxs),
        forall|p: int|
            0 <= p < idxs.len() ==> exists|q: int|
                0 <= q < idxs.len() && #[trigger] sort_idx(d, idxs)[p] == idxs[q],
    decreases idxs.len(),
{
    lemma_sort_idx_len(d, idxs);
    if idxs.len() > 0 {
        lemma_idx_min(d, idxs);
        let pm = idx_min(d, idxs);
        let o = sort_idx(d, idxs);
        let rem = idxs.remove(pm);
        assert(o == seq![idxs[pm]] + sort_idx(d, rem));
        assert(forall|p: int|
            0 <= p < rem.len() ==> #[trigger] rem[p] == (if p < pm {
                idxs[p]
            } else {
                idxs[p + 1]
            }));
        assert(keys_distinct(d, rem));
        lemma_sort_sel(d, rem);
        let os = sort_idx(d, rem);
        // every sorted position carries a key of the original positions
        assert forall|p: int| 0 <= p < idxs.len() implies exists|q: int|
            0 <= q < idxs.len() && #[trigger] o[p] == idxs[q] by {
            if p == 0 {
                assert(o[0] == idxs[pm]);
            } else {
                assert(o[p] == os[p - 1]);
                let q0 = choose|q: int| 0 <= q < rem.len() && os[p - 1] == #[trigger] rem[q];
                if q0 < pm {
                    assert(o[p] == idxs[q0]);
                } else {
                    assert(o[p] == idxs[q0 + 1]);
                }
            }
        }
        // the head key undercuts every later key strictly
        assert forall|p: int, q: int| 0 <= p < q < idxs.len() implies lex_lt(
            ekey(d, #[trigger] o[p]),
            ekey(d, #[trigger] o[q]),
        ) by {
            if p == 0 {
                let qq = choose|z: int| 0 <= z < rem.len() && os[q - 1] == #[trigger] rem[z];
                let iq = choose|z: int| 0 <= z < idxs.len() && os[q - 1] == #[trigger] idxs[z];
                assert(o[q] == os[q - 1]);
                assert(!lex_lt(ekey(d, idxs[iq]), ekey(d, idxs[pm])));
                assert(ekey(d, idxs[iq]) != ekey(d, idxs[pm])) by {
                    if iq < pm {
                        assert(ekey(d, idxs[iq]) != ekey(d, idxs[pm]));
                    } else if iq > pm {
                        assert(ekey(d, idxs[pm]) != ekey(d, idxs[iq]));
                    } else {
                        // the head position cannot reappear among the rest
                        lemma_sel_map_props(d, rem);
                        assert(sel_map(d, rem).contains_key(ekey(d, rem[qq])));
                        assert(os[q - 1] == idxs[pm]);
                        assert(ekey(d, rem[qq]) == ekey(d, idxs[pm]));
                        if qq < pm {
                            assert(rem[qq] == idxs[qq]);
                            assert(ekey(d, idxs[qq]) != ekey(d, idxs[pm]));
                        } else {
                            assert(rem[qq] == idxs[qq + 1]);
                            assert(ekey(d, idxs[pm]) != ekey(d, idxs[qq + 1]));
                        }
                    }
                }
                lemma_lex_connex(ekey(d, idxs[iq]), ekey(d, idxs[pm]));
            } else {
                assert(o[p] == os[p - 1] && o[q] == os[q - 1]);
            }
        }
        assert(keys_distinct(d, o)) by {
            assert forall|p: int, q: int|
                0 <= p < q < o.len() implies ekey(d, #[trigger] o[p]) != ekey(
                d,
                #[trigger] o[q],
            ) by {
                assert(lex_lt(ekey(d, o[p]), ekey(d, o[q])));
                lemma_lex_asym(ekey(d, o[p]), ekey(d, o[q]));
            }
        }
        // the selected mapping is unchanged
        assert(sel_map(d, o) == sel_map(d, idxs)) by {
            assert(o.drop_first() =~= os);
            assert(sel_map(d, o) == sel_map(d, os).insert(ekey(d, idxs[pm]), eval_at(
                d,
                idxs[pm],
            )));
            assert(sel_map(d, os) == sel_map(d, rem));
            lemma_sel_insert_remove(d, idxs, pm);
        }
    }
}

/// Binding the removed position back restores the selected mapping.
proof fn lemma_sel_insert_remove(d: Seq<(Seq<char>, NodeV)>, idxs: Seq<int>, pm: int)
    requires
        keys_distinct(d, idxs),
        0 <= pm < idxs.len(),
    ensures
        sel_map(d, idxs.remove(pm)).insert(ekey(d, idxs[pm]), eval_at(d, idxs[pm])) == sel_map(
            d,
            idxs,
        ),
    decreases pm,
{
    let rem = idxs.remove(pm);
    assert(forall|p: int|
        0 <= p < rem.len() ==> #[trigger] rem[p] == (if p < pm {
            idxs[p]
        } else {
            idxs[p + 1]
        }));
    if pm == 0 {
        assert(rem =~= idxs.drop_first());
    } else {
        let tail = idxs.drop_first();
        assert(rem[0] == idxs[0]);
        assert(rem.drop_first() =~= tail.remove(pm - 1));
        assert(forall|p: int, q: int|
            0 <= p < q < tail.len() ==> ekey(d, #[trigger] tail[p]) != ekey(
                d,
                #[trigger] tail[q],
            )) by {
            assert(forall|p: int| 0 <= p < tail.len() ==> #[trigger] tail[p] == idxs[p + 1]);
        }
        assert(tail[pm - 1] == idxs[pm]);
        lemma_sel_insert_remove(d, tail, pm - 1);
        // the two outstanding bindings have different keys, so they commute
        assert(ekey(d, idxs[0]) != ekey(d, idxs[pm]));
        assert(sel_map(d, rem).insert(ekey(d, idxs[pm]), eval_at(d, idxs[pm])) =~= sel_map(
            d,
            idxs,
        ));
    }
}

/// Strictly key-sorted selections with one mapping emit one text.
proof fn lemma_emit_eq(
    d1: Seq<(Seq<char>, NodeV)>,
    o1: Seq<int>,
    d2: Seq<(Seq<char>, NodeV)>,
    o2: Seq<int>,
)
    requires
        forall|p: int, q: int|
            0 <= p < q < o1.len() ==> lex_lt(ekey(d1, #[trigger] o1[p]), ekey(d1, #[trigger] o1[q])),
        forall|p: int, q: int|
            0 <= p < q < o2.len() ==> lex_lt(ekey(d2, #[trigger] o2[p]), ekey(d2, #[trigger] o2[q])),
        forall|p: int| 0 <= p < o1.len() ==> 0 <= #[trigger] o1[p] < d1.len(),
        forall|p: int| 0 <= p < o2.len() ==> 0 <= #[trigger] o2[p] < d2.len(),
        sel_map(d1, o1) == sel_map(d2, o2),
    ensures
        spec_bencode_dict(d1, o1) == spec_bencode_dict(d2, o2),
    decreases o1.len(),
{
    let m1 = sel_map(d1, o1);
    assert(keys_distinct(d1, o1)) by {
        assert forall|p: int, q: int|
            0 <= p < q < o1.len() implies ekey(d1, #[trigger] o1[p]) != ekey(
            d1,
            #[trigger] o1[q],
        ) by {
            lemma_lex_asym(ekey(d1, o1[p]), ekey(d1, o1[q]));
        }
    }
    assert(keys_distinct(d2, o2)) by {
        assert forall|p: int, q: int|
            0 <= p < q < o2.len() implies ekey(d2, #[trigger] o2[p]) != ekey(
            d2,
            #[trigger] o2[q],
        ) by {
            lemma_lex_asym(ekey(d2, o2[p]), ekey(d2, o2[q]));
        }
    }
    lemma_sel_map_props(d1, o1);
    lemma_sel_map_props(d2, o2);
    if o1.len() == 0 {
        if o2.len() > 0 {
            assert(sel_map(d2, o2).contains_key(ekey(d2, o2[0])));
            assert(m1.contains_key(ekey(d2, o2[0])));
            assert(false);
        }
    } else {
        assert(o2.len() > 0) by {
            if o2.len() == 0 {
                assert(m1.contains_key(ekey(d1, o1[0])));
            }
        }
        let k1 = ekey(d1, o1[0]);
        let k2 = ekey(d2, o2[0]);
        // the heads carry the one least key of the shared mapping
        assert(k1 == k2) by {
            assert(m1.contains_key(k2));
            let p1 = choose|p: int| 0 <= p < o1.len() && ekey(d1, #[trigger] o1[p]) == k2;
            assert(sel_map(d2, o2).contains_key(k1));
            let p2 = choose|p: int| 0 <= p < o2.len() && ekey(d2, #[trigger] o2[p]) == k1;
            if p1 > 0 {
                assert(lex_lt(k1, k2));
            }
            if p2 > 0 {
                assert(lex_lt(k2, k1));
            }
            if p1 > 0 && p2 > 0 {
                lemma_lex_asym(k1, k2);
            }
        }
        assert(eval_at(d1, o1[0]) == m1[k1]);
        assert(eval_at(d2, o2[0]) == m1[k1]);
        assert(d1[o1[0]].0 == k1 && d2[o2[0]].0 == k1);
        assert(d1[o1[0]].1 == d2[o2[0]].1);
        lemma_sel_map_tail(d1, o1);
        lemma_sel_map_tail(d2, o2);
        assert(forall|p: int, q: int|
            0 <= p < q < o1.drop_first().len() ==> lex_lt(
                ekey(d1, #[trigger] o1.drop_first()[p]),
                ekey(d1, #[trigger] o1.drop_first()[q]),
            )) by {
            assert(forall|p: int|
                0 <= p < o1.drop_first().len() ==> #[trigger] o1.drop_first()[p] == o1[p + 1]);
        }
        assert(forall|p: int, q: int|
            0 <= p < q < o2.drop_first().len() ==> lex_lt(
                ekey(d2, #[trigger] o2.drop_first()[p]),
                ekey(d2, #[trigger] o2.drop_first()[q]),
            )) by {
            assert(forall|p: int|
                0 <= p < o2.drop_first().len() ==> #[trigger] o2.drop_first()[p] == o2[p + 1]);
        }
        assert(forall|p: int|
            0 <= p < o1.drop_first().len() ==> 0 <= #[trigger] o1.drop_first()[p] < d1.len()) by {
            assert(forall|p: int|
                0 <= p < o1.drop_first().len() ==> #[trigger] o1.drop_first()[p] == o1[p + 1]);
        }
        assert(forall|p: int|
            0 <= p < o2.drop_first().len() ==> 0 <= #[trigger] o2.drop_first()[p] < d2.len()) by {
            assert(forall|p: int|
                0 <= p < o2.drop_first().len() ==> #[trigger] o2.drop_first()[p] == o2[p + 1]);
        }
        lemma_emit_eq(d1, o1.drop_first(), d2, o2.drop_first());
    }
}

/// Bencode determinism: the encoding of an object is a function of the
/// mapping it holds — two objects with unique keys and one key-to-value
/// mapping encode to one text, whatever order their entries were inserted
/// in.
pub proof fn lemma_bencode_insertion_order_invariant(
    d1: Seq<(Seq<char>, NodeV)>,
    d2: Seq<(Seq<char>, NodeV)>,
)
    requires
        dict_keys_unique(d1),
        dict_keys_unique(d2),
        dict_as_map(d1) == dict_as_map(d2),
    ensures
        spec_bencode(NodeV::Dict(d1)) == spec_bencode(NodeV::Dict(d2)),
{
    assert(keys_distinct(d1, iota(d1.len() as int))) by {
        assert(forall|p: int|
            0 <= p < d1.len() ==> ekey(d1, #[trigger] iota(d1.len() as int)[p]) == d1[p].0);
    }
    assert(keys_distinct(d2, iota(d2.len() as int))) by {
        assert(forall|p: int|
            0 <= p < d2.len() ==> ekey(d2, #[trigger] iota(d2.len() as int)[p]) == d2[p].0);
    }
    lemma_sort_sel(d1, iota(d1.len() as int));
    lemma_sort_sel(d2, iota(d2.len() as int));
    assert forall|p: int|
        0 <= p < sort_order(d1).len() implies 0 <= #[trigger] sort_order(d1)[p] < d1.len() by {
        let q = choose|q: int|
            0 <= q < d1.len() && #[trigger] sort_order(d1)[p] == iota(d1.len() as int)[q];
    }
    assert forall|p: int|
        0 <= p < sort_order(d2).len() implies 0 <= #[trigger] sort_order(d2)[p] < d2.len() by {
        let q = choose|q: int|
            0 <= q < d2.len() && #[trigger] sort_order(d2)[p] == iota(d2.len() as int)[q];
    }
    lemma_emit_eq(d1, sort_order(d1), d2, sort_order(d2));
}

} // verus!
