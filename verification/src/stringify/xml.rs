use vstd::prelude::*;
use crate::io::destinations::buffer::Buffer;
use crate::nodes::node::{Node, NodeV};
use crate::stringify::numbers::{numeric_to_string, spec_numeric_chars};

verus! {

broadcast use vstd::std_specs::vec::group_vec_axioms;

// ---------------------------------------------------------------------------
// What the XML encoder emits
// ---------------------------------------------------------------------------

/// The entity that stands for `c` in XML character data: the five special
/// characters become entities, every other character stands for itself.
pub open spec fn spec_xml_escape_char(c: char) -> Seq<char> {
    if c == '<' {
        "&lt;"@
    } else if c == '>' {
        "&gt;"@
    } else if c == '&' {
        "&amp;"@
    } else if c == '"' {
        "&quot;"@
    } else if c == '\'' {
        "&apos;"@
    } else {
        seq![c]
    }
}

/// The XML-escaped form of the text `s`.
pub open spec fn spec_xml_escape(s: Seq<char>) -> Seq<char>
    decreases s.len(),
{
    if s.len() == 0 {
        Seq::empty()
    } else {
        spec_xml_escape_char(s[0]) + spec_xml_escape(s.drop_first())
    }
}

/// The XML text for the tree `v`: each value wrapped in an element named
/// after its kind, array elements in `<item>`, object entries in `<entry>`
/// with `<key>` and `<value>` children.
pub open spec fn spec_xml(v: NodeV) -> Seq<char>
    decreases v, 1int,
{
    match v {
        NodeV::Null => "<null/>"@,
        NodeV::Boolean(b) => if b {
            "<boolean>true</boolean>"@
        } else {
            "<boolean>false</boolean>"@
        },
        NodeV::Number(m) => "<number>"@ + spec_numeric_chars(m) + "</number>"@,
        NodeV::Text(s) => "<string>"@ + spec_xml_escape(s) + "</string>"@,
        NodeV::List(items) => "<array>"@ + spec_xml_items(items) + "</array>"@,
        NodeV::Dict(entries) => "<object>"@ + spec_xml_entries(entries) + "</object>"@,
    }
}

/// The `<item>`-wrapped XML texts of the elements of a list.
pub open spec fn spec_xml_items(items: Seq<NodeV>) -> Seq<char>
    decreases items, 0int,
{
    if items.len() == 0 {
        Seq::empty()
    } else {
        "<item>"@ + spec_xml(items[0]) + "</item>"@ + spec_xml_items(items.drop_first())
    }
}

/// The `<entry>`-wrapped XML texts of the entries of a dictionary.
pub open spec fn spec_xml_entries(entries: Seq<(Seq<char>, NodeV)>) -> Seq<char>
    decreases entries, 0int,
{
    if entries.len() == 0 {
        Seq::empty()
    } else {
        "<entry><key>"@ + spec_xml_escape(entries[0].0) + "</key><value>"@ + spec_xml(
            entries[0].1,
        ) + "</value></entry>"@ + spec_xml_entries(entries.drop_first())
    }
}

// ---------------------------------------------------------------------------
// Prefix lemmas for the loop proofs
// ---------------------------------------------------------------------------

/// Escaping one more character extends the escaped prefix.
proof fn lemma_xml_escape_snoc(s: Seq<char>, i: int)
    requires
        0 <= i < s.len(),
    ensures
        spec_xml_escape(s.take(i + 1)) == spec_xml_escape(s.take(i)) + spec_xml_escape_char(s[i]),
    decreases i,
{
    if i == 0 {
        assert(s.take(1) =~= seq![s[0]]);
        assert(s.take(1).drop_first() =~= Seq::<char>::empty());
        assert(s.take(0) =~= Seq::<char>::empty());
        assert(spec_xml_escape(s.take(i + 1)) =~= spec_xml_escape(s.take(i))
            + spec_xml_escape_char(s[i]));
    } else {
        lemma_xml_escape_snoc(s.drop_first(), i - 1);
        assert(s.drop_first().take(i) =~= s.take(i + 1).drop_first());
        assert(s.drop_first().take(i - 1) =~= s.take(i).drop_first());
        assert(s.drop_first()[i - 1] == s[i]);
        assert(spec_xml_escape(s.take(i + 1)) =~= spec_xml_escape(s.take(i))
            + spec_xml_escape_char(s[i]));
    }
}

/// Serializing one more element extends the item-list prefix.
proof fn lemma_xml_items_snoc(items: Seq<NodeV>, i: int)
    requires
        0 <= i < items.len(),
    ensures
        spec_xml_items(items.take(i + 1)) == spec_xml_items(items.take(i)) + "<item>"@ + spec_xml(
            items[i],
        ) + "</item>"@,
    decreases i,
{
    if i == 0 {
        assert(items.take(1) =~= seq![items[0]]);
        assert(items.take(1).drop_first() =~= Seq::<NodeV>::empty());
        assert(items.take(0) =~= Seq::<NodeV>::empty());
        assert(spec_xml_items(items.take(i + 1)) =~= spec_xml_items(items.take(i)) + "<item>"@
            + spec_xml(items[i]) + "</item>"@);
    } else {
        lemma_xml_items_snoc(items.drop_first(), i - 1);
        assert(items.drop_first().take(i) =~= items.take(i + 1).drop_first());
        assert(items.drop_first().take(i - 1) =~= items.take(i).drop_first());
        assert(items.drop_first()[i - 1] == items[i]);
        assert(items.take(i + 1)[0] == items[0]);
        assert(items.take(i)[0] == items[0]);
        assert(spec_xml_items(items.take(i + 1)) =~= spec_xml_items(items.take(i)) + "<item>"@
            + spec_xml(items[i]) + "</item>"@);
    }
}

/// Serializing one more entry extends the entry-list prefix.
proof fn lemma_xml_entries_snoc(entries: Seq<(Seq<char>, NodeV)>, i: int)
    requires
        0 <= i < entries.len(),
    ensures
        spec_xml_entries(entries.take(i + 1)) == spec_xml_entries(entries.take(i))
            + "<entry><key>"@ + spec_xml_escape(entries[i].0) + "</key><value>"@ + spec_xml(
            entries[i].1,
        ) + "</value></entry>"@,
    decreases i,
{
    if i == 0 {
        assert(entries.take(1) =~= seq![entries[0]]);
        assert(entries.take(1).drop_first() =~= Seq::<(Seq<char>, NodeV)>::empty());
        assert(entries.take(0) =~= Seq::<(Seq<char>, NodeV)>::empty());
        assert(spec_xml_entries(entries.take(i + 1)) =~= spec_xml_entries(entries.take(i))
            + "<entry><key>"@ + spec_xml_escape(entries[i].0) + "</key><value>"@ + spec_xml(
            entries[i].1,
        ) + "</value></entry>"@);
    } else {
        lemma_xml_entries_snoc(entries.drop_first(), i - 1);
        assert(entries.drop_first().take(i) =~= entries.take(i + 1).drop_first());
        assert(entries.drop_first().take(i - 1) =~= entries.take(i).drop_first());
        assert(entries.drop_first()[i - 1] == entries[i]);
        assert(entries.take(i + 1)[0] == entries[0]);
        assert(entries.take(i)[0] == entries[0]);
        assert(spec_xml_entries(entries.take(i + 1)) =~= spec_xml_entries(entries.take(i))
            + "<entry><key>"@ + spec_xml_escape(entries[i].0) + "</key><value>"@ + spec_xml(
            entries[i].1,
        ) + "</value></entry>"@);
    }
}

// ---------------------------------------------------------------------------
// The encoder
// ---------------------------------------------------------------------------

/// Writes the XML-escaped form of `s`.
#[verifier::loop_isolation(false)]
pub fn escape_xml_string(s: &str, destination: &mut Buffer)
    ensures
        final(destination)@ == old(destination)@ + spec_xml_escape(s@),
{
    let cs = crate::text::chars_vec(s);
    let ghost entry = destination@;
    let mut i: usize = 0;
    while i < cs.len()
        invariant
            i <= cs.len(),
            cs@ == s@,
            destination@ == entry + spec_xml_escape(s@.take(i as int)),
        decreases cs.len() - i,
    {
        let c = cs[i];
        if c == '<' {
            destination.add_bytes("&lt;");
        } else if c == '>' {
            destination.add_bytes("&gt;");
        } else if c == '&' {
            destination.add_bytes("&amp;");
        } else if c == '"' {
            destination.add_bytes("&quot;");
        } else if c == '\'' {
            destination.add_bytes("&apos;");
        } else {
            let mut one = String::new();
            crate::text::push_char(&mut one, c);
            destination.add_bytes(one.as_str());
        }
        proof {
            lemma_xml_escape_snoc(s@, i as int);
            assert(destination@ =~= entry + spec_xml_escape(s@.take(i + 1)));
        }
        i = i + 1;
    }
    proof {
        assert(s@.take(s@.len() as int) =~= s@);
    }
}

/// Writes the XML text for the tree under `node`.  The encoding is total:
/// the result is always `Ok`, and exactly [`spec_xml`] of the tree is
/// appended to the destination.
#[verifier::loop_isolation(false)]
#[verifier::rlimit(100)]
pub fn stringify(node: &Node, destination: &mut Buffer) -> (r: Result<(), String>)
    ensures
        r is Ok,
        final(destination)@ == old(destination)@ + spec_xml(node@),
    decreases *node,
{
    match node {
        Node::Null => destination.add_bytes("<null/>"),
        Node::Boolean(value) => {
            if *value {
                destination.add_bytes("<boolean>true</boolean>");
            } else {
                destination.add_bytes("<boolean>false</boolean>");
            }
        },
        Node::Number(value) => {
            destination.add_bytes("<number>");
            let s = numeric_to_string(value);
            destination.add_bytes(s.as_str());
            destination.add_bytes("</number>");
            proof {
                assert(final(destination)@ =~= old(destination)@ + spec_xml(node@));
            }
        },
        Node::Str(value) => {
            destination.add_bytes("<string>");
            escape_xml_string(value.as_str(), destination);
            destination.add_bytes("</string>");
            proof {
                assert(final(destination)@ =~= old(destination)@ + spec_xml(node@));
            }
        },
        Node::Array(items) => {
            destination.add_bytes("<array>");
            let ghost entry = destination@;
            let ghost vs = node@->List_0;
            let mut i: usize = 0;
            while i < items.len()
                invariant
                    i <= items.len(),
                    vs.len() == items.len(),
                    forall|j: int| 0 <= j < items.len() ==> vs[j] == #[trigger] items[j]@,
                    destination@ == entry + spec_xml_items(vs.take(i as int)),
                decreases items.len() - i,
            {
                destination.add_bytes("<item>");
                proof {
                    assert(decreases_to!(Node::Array(*items) => *items));
                    assert(decreases_to!(*items => items@));
                    assert(decreases_to!(items@ => items@[i as int]));
                }
                let _ = stringify(&items[i], destination);
                destination.add_bytes("</item>");
                proof {
                    lemma_xml_items_snoc(vs, i as int);
                    assert(destination@ =~= entry + spec_xml_items(vs.take(i + 1)));
                }
                i = i + 1;
            }
            proof {
                assert(vs.take(vs.len() as int) =~= vs);
            }
            destination.add_bytes("</array>");
            proof {
                assert(final(destination)@ =~= old(destination)@ + spec_xml(node@));
            }
        },
        Node::Object(entries) => {
            destination.add_bytes("<object>");
            let ghost entry = destination@;
            let ghost es = node@->Dict_0;
            let mut i: usize = 0;
            while i < entries.len()
                invariant
                    i <= entries.len(),
                    es.len() == entries.len(),
                    forall|j: int|
                        0 <= j < entries.len() ==> #[trigger] es[j] == (
                        entries[j].0@,
                        entries[j].1@,
                        ),
                    destination@ == entry + spec_xml_entries(es.take(i as int)),
                decreases entries.len() - i,
            {
                destination.add_bytes("<entry>");
                destination.add_bytes("<key>");
                escape_xml_string(entries[i].0.as_str(), destination);
                destination.add_bytes("</key>");
                destination.add_bytes("<value>");
                proof {
                    assert(decreases_to!(Node::Object(*entries) => *entries));
                    assert(decreases_to!(*entries => entries@));
                    assert(decreases_to!(entries@ => entries@[i as int]));
                    assert(decreases_to!(entries@[i as int] => entries@[i as int].1));
                }
                let _ = stringify(&entries[i].1, destination);
                destination.add_bytes("</value>");
                destination.add_bytes("</entry>");
                proof {
                    reveal_strlit("<entry>");
                    reveal_strlit("<key>");
                    reveal_strlit("</key>");
                    reveal_strlit("<value>");
                    reveal_strlit("</value>");
                    reveal_strlit("</entry>");
                    reveal_strlit("<entry><key>");
                    reveal_strlit("</key><value>");
                    reveal_strlit("</value></entry>");
                    lemma_xml_entries_snoc(es, i as int);
                    assert(destination@ =~= entry + spec_xml_entries(es.take(i + 1)));
                }
                i = i + 1;
            }
            proof {
                assert(es.take(es.len() as int) =~= es);
            }
            destination.add_bytes("</object>");
            proof {
                assert(final(destination)@ =~= old(destination)@ + spec_xml(node@));
            }
        },
    }
    Ok(())
}

} // verus!
