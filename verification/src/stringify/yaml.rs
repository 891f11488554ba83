use vstd::prelude::*;
use crate::io::destinations::buffer::Buffer;
use crate::nodes::node::{Node, NodeV};
use crate::stringify::numbers::{numeric_to_string, spec_numeric_chars};
use crate::text::{push_char, spaces, spec_spaces};

verus! {

broadcast use vstd::std_specs::vec::group_vec_axioms;

// ---------------------------------------------------------------------------
// Lines of a string, as the literal-block form writes them
// ---------------------------------------------------------------------------

/// The index of the first line feed in `s`, or its length when there is none.
pub open spec fn first_nl(s: Seq<char>) -> int
    decreases s.len(),
{
    if s.len() == 0 {
        0
    } else if s[0] == '\n' {
        0
    } else {
        1 + first_nl(s.drop_first())
    }
}

/// `line` without one trailing carriage return.
pub open spec fn strip_cr(line: Seq<char>) -> Seq<char> {
    if line.len() > 0 && line[line.len() - 1] == '\r' {
        line.drop_last()
    } else {
        line
    }
}

/// The lines of `s`: split at each line feed, a carriage return just before
/// a line feed stripped, and no final empty line after a trailing line feed.
pub open spec fn spec_lines(s: Seq<char>) -> Seq<Seq<char>>
    decreases s.len(),
{
    if s.len() == 0 {
        Seq::empty()
    } else {
        let k = first_nl(s);
        if 0 <= k && k < s.len() {
            seq![strip_cr(s.take(k))] + spec_lines(s.skip(k + 1))
        } else {
            seq![s]
        }
    }
}

/// Whether `s` holds a line feed or a double quote, which sends it to the
/// literal-block form.
pub open spec fn needs_block(s: Seq<char>) -> bool {
    exists|i: int| 0 <= i < s.len() && (s[i] == '\n' || s[i] == '"')
}

/// One line of a literal block: the indentation, the line, a line feed.
pub open spec fn spec_block_line(line: Seq<char>, indent: int) -> Seq<char> {
    spec_spaces(indent as nat) + line + seq!['\n']
}

/// The lines of a literal block, in order.
pub open spec fn spec_block_lines(lines: Seq<Seq<char>>, indent: int) -> Seq<char>
    decreases lines.len(),
{
    if lines.len() == 0 {
        Seq::empty()
    } else {
        spec_block_line(lines[0], indent) + spec_block_lines(lines.drop_first(), indent)
    }
}

/// The next indentation level: two more spaces, saturating at the machine
/// limit so that absurdly deep trees still serialize rather than overflow.
pub open spec fn spec_bump(indent: int) -> int {
    if indent + 2 <= usize::MAX {
        indent + 2
    } else {
        usize::MAX as int
    }
}

// ---------------------------------------------------------------------------
// What the YAML encoder emits
// ---------------------------------------------------------------------------

/// The YAML text for the tree `v` at the indentation level `indent`:
/// scalars inline; a string with a line feed or a quote as a literal block;
/// a non-empty list as block-sequence lines and a non-empty dictionary as
/// mapping lines, each child two spaces deeper; empty collections as `[]`
/// and `{}`.
pub open spec fn spec_yaml(v: NodeV, indent: int) -> Seq<char>
    decreases v, 1int,
{
    match v {
        NodeV::Null => "null"@,
        NodeV::Boolean(b) => if b {
            "true"@
        } else {
            "false"@
        },
        NodeV::Number(m) => spec_numeric_chars(m),
        NodeV::Text(s) => if needs_block(s) {
            "|\n"@ + spec_block_lines(spec_lines(s), spec_bump(indent))
        } else {
            s
        },
        NodeV::List(items) => if items.len() == 0 {
            "[]"@
        } else {
            seq!['\n'] + spec_yaml_items(items, indent)
        },
        NodeV::Dict(entries) => if entries.len() == 0 {
            "{}"@
        } else {
            seq!['\n'] + spec_yaml_entries(entries, indent)
        },
    }
}

/// The block-sequence lines for the elements of a list.
pub open spec fn spec_yaml_items(items: Seq<NodeV>, indent: int) -> Seq<char>
    decreases items, 0int,
{
    if items.len() == 0 {
        Seq::empty()
    } else {
        spec_spaces(indent as nat) + "- "@ + spec_yaml(items[0], spec_bump(indent)) + seq!['\n']
            + spec_yaml_items(items.drop_first(), indent)
    }
}

/// The mapping lines for the entries of a dictionary.
pub open spec fn spec_yaml_entries(entries: Seq<(Seq<char>, NodeV)>, indent: int) -> Seq<char>
    decreases entries, 0int,
{
    if entries.len() == 0 {
        Seq::empty()
    } else {
        spec_spaces(indent as nat) + entries[0].0 + ": "@ + spec_yaml(
            entries[0].1,
            spec_bump(indent),
        ) + seq!['\n'] + spec_yaml_entries(entries.drop_first(), indent)
    }
}

// ---------------------------------------------------------------------------
// Lemmas for the loop proofs
// ---------------------------------------------------------------------------

/// What [`first_nl`] returns: the least index holding a line feed, or the
/// length when none does.
proof fn lemma_first_nl(t: Seq<char>)
    ensures
        0 <= first_nl(t) <= t.len(),
        first_nl(t) < t.len() ==> t[first_nl(t)] == '\n',
        forall|j: int| 0 <= j < first_nl(t) ==> t[j] != '\n',
    decreases t.len(),
{
    if t.len() > 0 && t[0] != '\n' {
        lemma_first_nl(t.drop_first());
        assert forall|j: int| 0 <= j < first_nl(t) implies t[j] != '\n' by {
            if j > 0 {
                assert(t.drop_first()[j - 1] == t[j]);
            }
        }
    }
}

/// Writing one more block line extends the block prefix.
proof fn lemma_block_lines_snoc(lines: Seq<Seq<char>>, indent: int, i: int)
    requires
        0 <= i < lines.len(),
    ensures
        spec_block_lines(lines.take(i + 1), indent) == spec_block_lines(lines.take(i), indent)
            + spec_block_line(lines[i], indent),
    decreases i,
{
    if i == 0 {
        assert(lines.take(1) =~= seq![lines[0]]);
        assert(lines.take(1).drop_first() =~= Seq::<Seq<char>>::empty());
        assert(lines.take(0) =~= Seq::<Seq<char>>::empty());
        assert(spec_block_lines(lines.take(i + 1), indent) =~= spec_block_lines(
            lines.take(i),
            indent,
        ) + spec_block_line(lines[i], indent));
    } else {
        lemma_block_lines_snoc(lines.drop_first(), indent, i - 1);
        assert(lines.drop_first().take(i) =~= lines.take(i + 1).drop_first());
        assert(lines.drop_first().take(i - 1) =~= lines.take(i).drop_first());
        assert(lines.drop_first()[i - 1] == lines[i]);
        assert(lines.take(i + 1)[0] == lines[0]);
        assert(lines.take(i)[0] == lines[0]);
        assert(spec_block_lines(lines.take(i + 1), indent) =~= spec_block_lines(
            lines.take(i),
            indent,
        ) + spec_block_line(lines[i], indent));
    }
}

/// Writing one more element extends the block-sequence prefix.
proof fn lemma_yaml_items_snoc(items: Seq<NodeV>, indent: int, i: int)
    requires
        0 <= i < items.len(),
    ensures
        spec_yaml_items(items.take(i + 1), indent) == spec_yaml_items(items.take(i), indent)
            + spec_spaces(indent as nat) + "- "@ + spec_yaml(items[i], spec_bump(indent))
            + seq!['\n'],
    decreases i,
{
    if i == 0 {
        assert(items.take(1) =~= seq![items[0]]);
        assert(items.take(1).drop_first() =~= Seq::<NodeV>::empty());
        assert(items.take(0) =~= Seq::<NodeV>::empty());
        assert(spec_yaml_items(items.take(i + 1), indent) =~= spec_yaml_items(
            items.take(i),
            indent,
        ) + spec_spaces(indent as nat) + "- "@ + spec_yaml(items[i], spec_bump(indent))
            + seq!['\n']);
    } else {
        lemma_yaml_items_snoc(items.drop_first(), indent, i - 1);
        assert(items.drop_first().take(i) =~= items.take(i + 1).drop_first());
        assert(items.drop_first().take(i - 1) =~= items.take(i).drop_first());
        assert(items.drop_first()[i - 1] == items[i]);
        assert(items.take(i + 1)[0] == items[0]);
        assert(items.take(i)[0] == items[0]);
        assert(spec_yaml_items(items.take(i + 1), indent) =~= spec_yaml_items(
            items.take(i),
            indent,
        ) + spec_spaces(indent as nat) + "- "@ + spec_yaml(items[i], spec_bump(indent))
            + seq!['\n']);
    }
}

/// Writing one more entry extends the mapping prefix.
proof fn lemma_yaml_entries_snoc(entries: Seq<(Seq<char>, NodeV)>, indent: int, i: int)
    requires
        0 <= i < entries.len(),
    ensures
        spec_yaml_entries(entries.take(i + 1), indent) == spec_yaml_entries(
            entries.take(i),
            indent,
        ) + spec_spaces(indent as nat) + entries[i].0 + ": "@ + spec_yaml(
            entries[i].1,
            spec_bump(indent),
        ) + seq!['\n'],
    decreases i,
{
    if i == 0 {
        assert(entries.take(1) =~= seq![entries[0]]);
        assert(entries.take(1).drop_first() =~= Seq::<(Seq<char>, NodeV)>::empty());
        assert(entries.take(0) =~= Seq::<(Seq<char>, NodeV)>::empty());
        assert(spec_yaml_entries(entries.take(i + 1), indent) =~= spec_yaml_entries(
            entries.take(i),
            indent,
        ) + spec_spaces(indent as nat) + entries[i].0 + ": "@ + spec_yaml(
            entries[i].1,
            spec_bump(indent),
        ) + seq!['\n']);
    } else {
        lemma_yaml_entries_snoc(entries.drop_first(), indent, i - 1);
        assert(entries.drop_first().take(i) =~= entries.take(i + 1).drop_first());
        assert(entries.drop_first().take(i - 1) =~= entries.take(i).drop_first());
        assert(entries.drop_first()[i - 1] == entries[i]);
        assert(entries.take(i + 1)[0] == entries[0]);
        assert(entries.take(i)[0] == entries[0]);
        assert(spec_yaml_entries(entries.take(i + 1), indent) =~= spec_yaml_entries(
            entries.take(i),
            indent,
        ) + spec_spaces(indent as nat) + entries[i].0 + ": "@ + spec_yaml(
            entries[i].1,
            spec_bump(indent),
        ) + seq!['\n']);
    }
}

// ---------------------------------------------------------------------------
// The encoder
// ---------------------------------------------------------------------------

/// Builds the string of the characters `cs[a..b]`.
#[verifier::loop_isolation(false)]
fn string_from_range(cs: &Vec<char>, a: usize, b: usize) -> (s: String)
    requires
        a <= b <= cs@.len(),
    ensures
        s@ == cs@.subrange(a as int, b as int),
{
    let mut s = String::new();
    let mut i: usize = a;
    while i < b
        invariant
            a <= i <= b,
            s@ == cs@.subrange(a as int, i as int),
        decreases b - i,
    {
        push_char(&mut s, cs[i]);
        i = i + 1;
        assert(s@ =~= cs@.subrange(a as int, i as int));
    }
    s
}

/// Splits `s` into its lines as [`spec_lines`] describes them.
#[verifier::loop_isolation(false)]
fn split_lines(s: &str) -> (r: Vec<String>)
    ensures
        r.deep_view() == spec_lines(s@),
{
    let cs = crate::text::chars_vec(s);
    let mut r: Vec<String> = Vec::new();
    let mut start: usize = 0;
    let mut i: usize = 0;
    proof {
        assert(r.deep_view() =~= Seq::<Seq<char>>::empty());
        assert(s@.skip(0) =~= s@);
    }
    while i < cs.len()
        invariant
            start <= i <= cs@.len(),
            cs@ == s@,
            forall|j: int| start <= j < i ==> cs@[j] != '\n',
            spec_lines(s@) == r.deep_view() + spec_lines(s@.skip(start as int)),
        decreases cs.len() - i,
    {
        if cs[i] == '\n' {
            let e: usize = if i > start && cs[i - 1] == '\r' {
                i - 1
            } else {
                i
            };
            let line = string_from_range(&cs, start, e);
            let ghost old_r = r.deep_view();
            r.push(line);
            proof {
                let t = s@.skip(start as int);
                lemma_first_nl(t);
                assert(t[i - start as int] == '\n');
                assert(first_nl(t) <= i - start) by {
                    if first_nl(t) > i - start {
                        assert(t[i - start as int] != '\n');
                    }
                }
                assert(first_nl(t) >= i - start) by {
                    if first_nl(t) < i - start {
                        assert(cs@[start + first_nl(t)] != '\n');
                        assert(t[first_nl(t)] == cs@[start + first_nl(t)]);
                    }
                }
                assert(first_nl(t) == i - start);
                assert(t.take(i - start as int) =~= s@.subrange(start as int, i as int));
                assert(strip_cr(t.take(i - start as int)) =~= s@.subrange(
                    start as int,
                    e as int,
                ));
                assert(t.skip(i - start as int + 1) =~= s@.skip(i + 1));
                assert(spec_lines(t) == seq![line@] + spec_lines(s@.skip(i + 1)));
                assert(r.deep_view() =~= old_r + seq![line@]);
                assert(spec_lines(s@) =~= r.deep_view() + spec_lines(s@.skip(i + 1)));
            }
            start = i + 1;
        }
        i = i + 1;
    }
    if start < cs.len() {
        let line = string_from_range(&cs, start, cs.len());
        let ghost old_r = r.deep_view();
        r.push(line);
        proof {
            let t = s@.skip(start as int);
            lemma_first_nl(t);
            assert(first_nl(t) >= t.len()) by {
                if first_nl(t) < t.len() {
                    assert(t[first_nl(t)] == cs@[start + first_nl(t)]);
                }
            }
            assert(t =~= s@.subrange(start as int, s@.len() as int));
            assert(spec_lines(t) == seq![line@]);
            assert(r.deep_view() =~= old_r + seq![line@]);
            assert(spec_lines(s@) =~= r.deep_view());
        }
    } else {
        proof {
            assert(s@.skip(start as int) =~= Seq::<char>::empty());
            assert(spec_lines(s@) =~= r.deep_view());
        }
    }
    r
}

/// Whether the text of `s` needs the literal-block form.
#[verifier::loop_isolation(false)]
fn has_nl_or_quote(s: &str) -> (r: bool)
    ensures
        r == needs_block(s@),
{
    let cs = crate::text::chars_vec(s);
    let mut i: usize = 0;
    while i < cs.len()
        invariant
            i <= cs@.len(),
            cs@ == s@,
            forall|j: int| 0 <= j < i ==> s@[j] != '\n' && s@[j] != '"',
        decreases cs.len() - i,
    {
        let c = cs[i];
        if c == '\n' || c == '"' {
            return true;
        }
        i = i + 1;
    }
    false
}

/// The next indentation level, two more spaces, saturating.
fn bump(indent: usize) -> (r: usize)
    ensures
        r as int == spec_bump(indent as int),
{
    if indent <= usize::MAX - 2 {
        indent + 2
    } else {
        usize::MAX
    }
}

/// Writes the YAML text for the tree under `node` at level `indent`.
#[verifier::loop_isolation(false)]
#[verifier::rlimit(100)]
fn stringify_with_indent(node: &Node, destination: &mut Buffer, indent: usize)
    ensures
        final(destination)@ == old(destination)@ + spec_yaml(node@, indent as int),
    decreases *node,
{
    match node {
        Node::Null => destination.add_bytes("null"),
        Node::Boolean(value) => destination.add_bytes(if *value {
            "true"
        } else {
            "false"
        }),
        Node::Number(value) => {
            let s = numeric_to_string(value);
            destination.add_bytes(s.as_str());
        },
        Node::Str(value) => {
            if has_nl_or_quote(value.as_str()) {
                destination.add_bytes("|\n");
                let lines = split_lines(value.as_str());
                let deeper = bump(indent);
                let ghost ls = spec_lines(value@);
                let ghost entry = destination@;
                proof {
                    assert(ls.take(0) =~= Seq::<Seq<char>>::empty());
                }
                let mut i: usize = 0;
                while i < lines.len()
                    invariant
                        i <= lines@.len(),
                        lines.deep_view() == ls,
                        deeper as int == spec_bump(indent as int),
                        destination@ == entry + spec_block_lines(
                            ls.take(i as int),
                            deeper as int,
                        ),
                    decreases lines.len() - i,
                {
                    let pad = spaces(deeper);
                    destination.add_bytes(pad.as_str());
                    destination.add_bytes(lines[i].as_str());
                    destination.add_bytes("\n");
                    proof {
                        reveal_strlit("\n");
                        assert(lines[i as int]@ == ls[i as int]);
                        lemma_block_lines_snoc(ls, deeper as int, i as int);
                        assert(destination@ =~= entry + spec_block_lines(
                            ls.take(i + 1),
                            deeper as int,
                        ));
                    }
                    i = i + 1;
                }
                proof {
                    assert(ls.take(ls.len() as int) =~= ls);
                    assert(final(destination)@ =~= old(destination)@ + spec_yaml(
                        node@,
                        indent as int,
                    ));
                }
            } else {
                destination.add_bytes(value.as_str());
            }
        },
        Node::Array(items) => {
            if items.len() == 0 {
                destination.add_bytes("[]");
                return ;
            }
            destination.add_bytes("\n");
            proof {
                reveal_strlit("\n");
            }
            let ghost entry = destination@;
            let ghost vs = node@->List_0;
            let mut i: usize = 0;
            while i < items.len()
                invariant
                    i <= items.len(),
                    vs.len() == items.len(),
                    forall|j: int| 0 <= j < items.len() ==> vs[j] == #[trigger] items[j]@,
                    destination@ == entry + spec_yaml_items(vs.take(i as int), indent as int),
                decreases items.len() - i,
            {
                let pad = spaces(indent);
                destination.add_bytes(pad.as_str());
                destination.add_bytes("- ");
                proof {
                    assert(decreases_to!(Node::Array(*items) => *items));
                    assert(decreases_to!(*items => items@));
                    assert(decreases_to!(items@ => items@[i as int]));
                }
                stringify_with_indent(&items[i], destination, bump(indent));
                destination.add_bytes("\n");
                proof {
                    reveal_strlit("\n");
                    lemma_yaml_items_snoc(vs, indent as int, i as int);
                    assert(destination@ =~= entry + spec_yaml_items(
                        vs.take(i + 1),
                        indent as int,
                    ));
                }
                i = i + 1;
            }
            proof {
                assert(vs.take(vs.len() as int) =~= vs);
                assert(final(destination)@ =~= old(destination)@ + spec_yaml(
                    node@,
                    indent as int,
                ));
            }
        },
        Node::Object(entries) => {
            if entries.len() == 0 {
                destination.add_bytes("{}");
                return ;
            }
            destination.add_bytes("\n");
            proof {
                reveal_strlit("\n");
            }
            let ghost entry = destination@;
            let ghost es = node@->Dict_0;
            let mut i: usize = 0;
            while i < entries.len()
                invariant
                    i <= entries.len(),
                    es.len() == entries.len(),
                    forall|j: int|
                        0 <= j < entries.len() ==> #[trigger] es[j] == (
                        entries[j].0@,
                        entries[j].1@,
                        ),
                    destination@ == entry + spec_yaml_entries(es.take(i as int), indent as int),
                decreases entries.len() - i,
            {
                let pad = spaces(indent);
                destination.add_bytes(pad.as_str());
                destination.add_bytes(entries[i].0.as_str());
                destination.add_bytes(": ");
                proof {
                    assert(decreases_to!(Node::Object(*entries) => *entries));
                    assert(decreases_to!(*entries => entries@));
                    assert(decreases_to!(entries@ => entries@[i as int]));
                    assert(decreases_to!(entries@[i as int] => entries@[i as int].1));
                }
                stringify_with_indent(&entries[i].1, destination, bump(indent));
                destination.add_bytes("\n");
                proof {
                    reveal_strlit("\n");
                    lemma_yaml_entries_snoc(es, indent as int, i as int);
                    assert(destination@ =~= entry + spec_yaml_entries(
                        es.take(i + 1),
                        indent as int,
                    ));
                }
                i = i + 1;
            }
            proof {
                assert(es.take(es.len() as int) =~= es);
                assert(final(destination)@ =~= old(destination)@ + spec_yaml(
                    node@,
                    indent as int,
                ));
            }
        },
    }
}

/// Writes the YAML text for the tree under `node`.  The encoding is total:
/// the result is always `Ok`, and exactly [`spec_yaml`] of the tree at
/// level zero is appended to the destination.
pub fn stringify(node: &Node, destination: &mut Buffer) -> (r: Result<(), String>)
    ensures
        r is Ok,
        final(destination)@ == old(destination)@ + spec_yaml(node@, 0),
{
    stringify_with_indent(node, destination, 0);
    Ok(())
}

} // verus!
