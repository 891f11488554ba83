use vstd::prelude::*;
use crate::io::destinations::buffer::Buffer;
use crate::nodes::node::{Node, NodeV};
use crate::stringify::numbers::{numeric_to_string, spec_numeric_chars};
use crate::text::{hex4_string, is_control, is_control_char, spec_hex4};

verus! {

broadcast use vstd::std_specs::vec::group_vec_axioms;

// ---------------------------------------------------------------------------
// What the compact JSON printer emits
// ---------------------------------------------------------------------------

/// The characters that stand for `c` inside a JSON string literal: the named
/// short escapes, a `\u` escape for the other control characters, and the
/// character itself otherwise.
pub open spec fn spec_escape_char(c: char) -> Seq<char> {
    if c == '"' {
        seq!['\\', '"']
    } else if c == '\\' {
        seq!['\\', '\\']
    } else if c == '\n' {
        seq!['\\', 'n']
    } else if c == '\r' {
        seq!['\\', 'r']
    } else if c == '\t' {
        seq!['\\', 't']
    } else if is_control(c) {
        seq!['\\', 'u'] + spec_hex4(c as u32 as int)
    } else {
        seq![c]
    }
}

/// The body of a JSON string literal for the text `s`.
pub open spec fn spec_escape(s: Seq<char>) -> Seq<char>
    decreases s.len(),
{
    if s.len() == 0 {
        Seq::empty()
    } else {
        spec_escape_char(s[0]) + spec_escape(s.drop_first())
    }
}

/// The quoted JSON string literal for the text `s`.
pub open spec fn spec_quoted(s: Seq<char>) -> Seq<char> {
    seq!['"'] + spec_escape(s) + seq!['"']
}

/// The compact JSON text for the tree `v`.
pub open spec fn spec_json(v: NodeV) -> Seq<char>
    decreases v, 1int,
{
    match v {
        NodeV::Null => "null"@,
        NodeV::Boolean(b) => if b {
            "true"@
        } else {
            "false"@
        },
        NodeV::Number(m) => spec_numeric_chars(m),
        NodeV::Text(s) => spec_quoted(s),
        NodeV::List(items) => seq!['['] + spec_json_items(items) + seq![']'],
        NodeV::Dict(entries) => seq!['{'] + spec_json_entries(entries) + seq!['}'],
    }
}

/// The comma-separated JSON texts of the elements of a list.
pub open spec fn spec_json_items(items: Seq<NodeV>) -> Seq<char>
    decreases items, 0int,
{
    if items.len() == 0 {
        Seq::empty()
    } else if items.len() == 1 {
        spec_json(items[0])
    } else {
        spec_json(items[0]) + seq![','] + spec_json_items(items.drop_first())
    }
}

/// The comma-separated `"key":value` texts of the entries of a dictionary.
pub open spec fn spec_json_entries(entries: Seq<(Seq<char>, NodeV)>) -> Seq<char>
    decreases entries, 0int,
{
    if entries.len() == 0 {
        Seq::empty()
    } else if entries.len() == 1 {
        spec_quoted(entries[0].0) + seq![':'] + spec_json(entries[0].1)
    } else {
        spec_quoted(entries[0].0) + seq![':'] + spec_json(entries[0].1) + seq![',']
            + spec_json_entries(entries.drop_first())
    }
}

// ---------------------------------------------------------------------------
// Prefix lemmas for the loop proofs
// ---------------------------------------------------------------------------

/// Escaping one more character extends the escaped prefix.
proof fn lemma_escape_snoc(s: Seq<char>, i: int)
    requires
        0 <= i < s.len(),
    ensures
        spec_escape(s.take(i + 1)) == spec_escape(s.take(i)) + spec_escape_char(s[i]),
    decreases i,
{
    if i == 0 {
        assert(s.take(1) =~= seq![s[0]]);
        assert(s.take(1).drop_first() =~= Seq::<char>::empty());
        assert(s.take(0) =~= Seq::<char>::empty());
        assert(spec_escape(s.take(i + 1)) =~= spec_escape(s.take(i)) + spec_escape_char(s[i]));
    } else {
        lemma_escape_snoc(s.drop_first(), i - 1);
        assert(s.drop_first().take(i) =~= s.take(i + 1).drop_first());
        assert(s.drop_first().take(i - 1) =~= s.take(i).drop_first());
        assert(s.drop_first()[i - 1] == s[i]);
        assert(spec_escape(s.take(i + 1)) =~= spec_escape(s.take(i)) + spec_escape_char(s[i]));
    }
}

/// Serializing one more element extends the comma-separated prefix.
proof fn lemma_json_items_snoc(items: Seq<NodeV>, i: int)
    requires
        0 <= i < items.len(),
    ensures
        spec_json_items(items.take(i + 1)) == if i == 0 {
            spec_json(items[0])
        } else {
            spec_json_items(items.take(i)) + seq![','] + spec_json(items[i])
        },
    decreases i,
{
    if i == 0 {
        assert(items.take(1) =~= seq![items[0]]);
    } else {
        lemma_json_items_snoc(items.drop_first(), i - 1);
        assert(items.drop_first().take(i) =~= items.take(i + 1).drop_first());
        assert(items.drop_first().take(i - 1) =~= items.take(i).drop_first());
        assert(items.drop_first()[i - 1] == items[i]);
        assert(items.take(i + 1)[0] == items[0]);
        assert(items.take(i)[0] == items[0]);
        assert(items.take(i + 1).len() == i + 1);
        if i == 1 {
            assert(spec_json_items(items.take(2)) == spec_json(items[0]) + seq![','] + spec_json(
                items[1],
            ));
        }
    }
}

/// Serializing one more entry extends the comma-separated prefix.
proof fn lemma_json_entries_snoc(entries: Seq<(Seq<char>, NodeV)>, i: int)
    requires
        0 <= i < entries.len(),
    ensures
        spec_json_entries(entries.take(i + 1)) == if i == 0 {
            spec_quoted(entries[0].0) + seq![':'] + spec_json(entries[0].1)
        } else {
            spec_json_entries(entries.take(i)) + seq![','] + spec_quoted(entries[i].0) + seq![':']
                + spec_json(entries[i].1)
        },
    decreases i,
{
    if i == 0 {
        assert(entries.take(1) =~= seq![entries[0]]);
    } else {
        lemma_json_entries_snoc(entries.drop_first(), i - 1);
        assert(entries.drop_first().take(i) =~= entries.take(i + 1).drop_first());
        assert(entries.drop_first().take(i - 1) =~= entries.take(i).drop_first());
        assert(entries.drop_first()[i - 1] == entries[i]);
        assert(entries.take(i + 1)[0] == entries[0]);
        assert(entries.take(i)[0] == entries[0]);
    }
}

// ---------------------------------------------------------------------------
// The printer
// ---------------------------------------------------------------------------

/// Writes the quoted, escaped JSON string literal for `s`.
#[verifier::loop_isolation(false)]
pub fn write_quoted(s: &str, destination: &mut Buffer)
    ensures
        final(destination)@ == old(destination)@ + spec_quoted(s@),
{
    let cs = crate::text::chars_vec(s);
    destination.add_bytes("\"");
    proof {
        reveal_strlit("\"");
    }
    let ghost entry = destination@;
    let mut i: usize = 0;
    while i < cs.len()
        invariant
            i <= cs.len(),
            cs@ == s@,
            destination@ == entry + spec_escape(s@.take(i as int)),
        decreases cs.len() - i,
    {
        let c = cs[i];
        if c == '"' {
            destination.add_bytes("\\\"");
            proof {
                reveal_strlit("\\\"");
            }
        } else if c == '\\' {
            destination.add_bytes("\\\\");
            proof {
                reveal_strlit("\\\\");
            }
        } else if c == '\n' {
            destination.add_bytes("\\n");
            proof {
                reveal_strlit("\\n");
            }
        } else if c == '\r' {
            destination.add_bytes("\\r");
            proof {
                reveal_strlit("\\r");
            }
        } else if c == '\t' {
            destination.add_bytes("\\t");
            proof {
                reveal_strlit("\\t");
            }
        } else if is_control_char(c) {
            destination.add_bytes("\\u");
            proof {
                reveal_strlit("\\u");
                vstd::utf8::char_is_scalar(c);
            }
            let h = hex4_string(c as u32);
            destination.add_bytes(h.as_str());
        } else {
            let mut one = String::new();
            crate::text::push_char(&mut one, c);
            destination.add_bytes(one.as_str());
        }
        proof {
            lemma_escape_snoc(s@, i as int);
            assert(destination@ =~= entry + spec_escape(s@.take(i + 1)));
        }
        i = i + 1;
    }
    proof {
        assert(s@.take(s@.len() as int) =~= s@);
    }
    destination.add_bytes("\"");
    proof {
        reveal_strlit("\"");
        assert(final(destination)@ =~= old(destination)@ + spec_quoted(s@));
    }
}

/// Writes the compact JSON text for the tree under `node`: objects and
/// arrays without any spacing, strings escaped as [`spec_escape_char`] says,
/// entries and elements in the order the tree holds them.
#[verifier::loop_isolation(false)]
#[verifier::rlimit(100)]
pub fn stringify(node: &Node, destination: &mut Buffer)
    ensures
        final(destination)@ == old(destination)@ + spec_json(node@),
    decreases *node,
{
    match node {
        Node::Null => destination.add_bytes("null"),
        Node::Boolean(value) => destination.add_bytes(if *value {
            "true"
        } else {
            "false"
        }),
        Node::Number(value) => {
            let s = numeric_to_string(value);
            destination.add_bytes(s.as_str());
        },
        Node::Str(value) => write_quoted(value.as_str(), destination),
        Node::Array(items) => {
            destination.add_bytes("[");
            let ghost entry = destination@;
            let ghost vs = node@->List_0;
            let mut i: usize = 0;
            while i < items.len()
                invariant
                    i <= items.len(),
                    vs.len() == items.len(),
                    forall|j: int| 0 <= j < items.len() ==> vs[j] == #[trigger] items[j]@,
                    destination@ == entry + spec_json_items(vs.take(i as int)),
                decreases items.len() - i,
            {
                if i > 0 {
                    destination.add_bytes(",");
                }
                proof {
                    assert(*node == Node::Array(*items));
                    assert(decreases_to!(Node::Array(*items) => *items));
                    assert(decreases_to!(*items => items@));
                    assert(decreases_to!(items@ => items@[i as int]));
                }
                stringify(&items[i], destination);
                proof {
                    reveal_strlit(",");
                    lemma_json_items_snoc(vs, i as int);
                    assert(destination@ =~= entry + spec_json_items(vs.take(i + 1)));
                }
                i = i + 1;
            }
            proof {
                assert(vs.take(vs.len() as int) =~= vs);
            }
            destination.add_bytes("]");
            proof {
                reveal_strlit("[");
                reveal_strlit("]");
                assert(final(destination)@ =~= old(destination)@ + spec_json(node@));
            }
        },
        Node::Object(entries) => {
            destination.add_bytes("{");
            let ghost entry = destination@;
            let ghost es = node@->Dict_0;
            let mut i: usize = 0;
            while i < entries.len()
                invariant
                    i <= entries.len(),
                    es.len() == entries.len(),
                    forall|j: int|
                        0 <= j < entries.len() ==> #[trigger] es[j] == (
                        entries[j].0@,
                        entries[j].1@,
                        ),
                    destination@ == entry + spec_json_entries(es.take(i as int)),
                decreases entries.len() - i,
            {
                if i > 0 {
                    destination.add_bytes(",");
                }
                write_quoted(entries[i].0.as_str(), destination);
                destination.add_bytes(":");
                proof {
                    assert(*node == Node::Object(*entries));
                    assert(decreases_to!(Node::Object(*entries) => *entries));
                    assert(decreases_to!(*entries => entries@));
                    assert(decreases_to!(entries@ => entries@[i as int]));
                    assert(decreases_to!(entries@[i as int] => entries@[i as int].1));
                }
                stringify(&entries[i].1, destination);
                proof {
                    reveal_strlit(",");
                    reveal_strlit(":");
                    lemma_json_entries_snoc(es, i as int);
                    assert(destination@ =~= entry + spec_json_entries(es.take(i + 1)));
                }
                i = i + 1;
            }
            proof {
                assert(es.take(es.len() as int) =~= es);
            }
            destination.add_bytes("}");
            proof {
                reveal_strlit("{");
                reveal_strlit("}");
                assert(final(destination)@ =~= old(destination)@ + spec_json(node@));
            }
        },
    }
}

} // verus!
