use vstd::prelude::*;
use crate::io::destinations::buffer::Buffer;
use crate::io::sources::buffer::Buffer as Source;
use crate::nodes::node::{Node, NodeV};
use crate::stringify::numbers::{numeric_to_plain_string, spec_numeric_plain};
use crate::text::{spaces, spec_spaces};

verus! {

broadcast use vstd::std_specs::vec::group_vec_axioms;

/// The version of this library.
pub fn get_version() -> (r: &'static str)
    ensures
        r@ == "0.1.0"@,
{
    "0.1.0"
}

// ---------------------------------------------------------------------------
// Pretty-printer
// ---------------------------------------------------------------------------

/// One indentation level deeper: `cur + indent`, saturating at the machine
/// limit so that absurdly deep trees still print rather than overflow.
pub open spec fn spec_deepen(cur: int, indent: int) -> int {
    if cur + indent <= usize::MAX {
        cur + indent
    } else {
        usize::MAX as int
    }
}

/// The pretty-printed text for the tree `v`, with `indent` further spaces
/// per level and the current level at `cur` spaces: scalars inline, strings
/// quoted without escaping, arrays and objects always expanded to one child
/// per line, empty ones to their brackets around an empty line.
pub open spec fn spec_pretty(v: NodeV, indent: int, cur: int) -> Seq<char>
    decreases v, 1int,
{
    match v {
        NodeV::Boolean(b) => if b {
            "true"@
        } else {
            "false"@
        },
        NodeV::Number(m) => spec_numeric_plain(m),
        NodeV::Text(s) => seq!['"'] + s + seq!['"'],
        NodeV::Null => "null"@,
        NodeV::List(items) => "[\n"@ + spec_pretty_items(items, indent, spec_deepen(cur, indent))
            + spec_spaces(cur as nat) + seq![']'],
        NodeV::Dict(entries) => "{\n"@ + spec_pretty_entries(
            entries,
            indent,
            spec_deepen(cur, indent),
        ) + spec_spaces(cur as nat) + seq!['}'],
    }
}

/// The lines of the elements of a pretty-printed array, each at `cur`
/// spaces, a comma after each but the last.
pub open spec fn spec_pretty_items(items: Seq<NodeV>, indent: int, cur: int) -> Seq<char>
    decreases items, 0int,
{
    if items.len() == 0 {
        Seq::empty()
    } else {
        spec_spaces(cur as nat) + spec_pretty(items[0], indent, cur) + (if items.len() > 1 {
            seq![',']
        } else {
            Seq::empty()
        }) + seq!['\n'] + spec_pretty_items(items.drop_first(), indent, cur)
    }
}

/// The lines of the entries of a pretty-printed object, each at `cur`
/// spaces, a comma after each but the last.
pub open spec fn spec_pretty_entries(entries: Seq<(Seq<char>, NodeV)>, indent: int, cur: int) -> Seq<
    char,
>
    decreases entries, 0int,
{
    if entries.len() == 0 {
        Seq::empty()
    } else {
        spec_spaces(cur as nat) + seq!['"'] + entries[0].0 + "\": "@ + spec_pretty(
            entries[0].1,
            indent,
            cur,
        ) + (if entries.len() > 1 {
            seq![',']
        } else {
            Seq::empty()
        }) + seq!['\n'] + spec_pretty_entries(entries.drop_first(), indent, cur)
    }
}

/// One indentation level deeper, saturating.
fn deepen(cur: usize, indent: usize) -> (r: usize)
    ensures
        r as int == spec_deepen(cur as int, indent as int),
{
    if cur <= usize::MAX - indent {
        cur + indent
    } else {
        usize::MAX
    }
}

/// Writes the pretty-printed text for the tree under `node` to the
/// destination, `indent` further spaces per nesting level, starting at a
/// current level of `current_indent` spaces.
#[verifier::loop_isolation(false)]
#[verifier::rlimit(100)]
pub fn print(node: &Node, destination: &mut Buffer, indent: usize, current_indent: usize)
    ensures
        final(destination)@ == old(destination)@ + spec_pretty(
            node@,
            indent as int,
            current_indent as int,
        ),
    decreases *node,
{
    match node {
        Node::Boolean(value) => destination.add_bytes(if *value {
            "true"
        } else {
            "false"
        }),
        Node::Number(value) => {
            let s = numeric_to_plain_string(value);
            destination.add_bytes(s.as_str());
        },
        Node::Str(value) => {
            destination.add_bytes("\"");
            destination.add_bytes(value.as_str());
            destination.add_bytes("\"");
            proof {
                reveal_strlit("\"");
                assert(final(destination)@ =~= old(destination)@ + spec_pretty(
                    node@,
                    indent as int,
                    current_indent as int,
                ));
            }
        },
        Node::Null => destination.add_bytes("null"),
        Node::Array(items) => {
            destination.add_bytes("[\n");
            let deeper = deepen(current_indent, indent);
            let ghost vs = node@->List_0;
            let ghost entry = destination@;
            let mut i: usize = 0;
            proof {
                assert(vs.skip(0) =~= vs);
            }
            while i < items.len()
                invariant
                    i <= items.len(),
                    vs.len() == items.len(),
                    deeper as int == spec_deepen(current_indent as int, indent as int),
                    forall|j: int| 0 <= j < items.len() ==> vs[j] == #[trigger] items[j]@,
                    entry + spec_pretty_items(vs, indent as int, deeper as int) == destination@
                        + spec_pretty_items(vs.skip(i as int), indent as int, deeper as int),
                decreases items.len() - i,
            {
                let pad = spaces(deeper);
                destination.add_bytes(pad.as_str());
                proof {
                    assert(decreases_to!(Node::Array(*items) => *items));
                    assert(decreases_to!(*items => items@));
                    assert(decreases_to!(items@ => items@[i as int]));
                }
                print(&items[i], destination, indent, deeper);
                if i < items.len() - 1 {
                    destination.add_bytes(",");
                }
                destination.add_bytes("\n");
                proof {
                    reveal_strlit(",");
                    reveal_strlit("\n");
                    assert(vs.skip(i as int).drop_first() =~= vs.skip(i + 1));
                    assert(vs.skip(i as int)[0] == vs[i as int]);
                    assert(entry + spec_pretty_items(vs, indent as int, deeper as int)
                        =~= destination@ + spec_pretty_items(
                        vs.skip(i + 1),
                        indent as int,
                        deeper as int,
                    ));
                }
                i = i + 1;
            }
            proof {
                assert(vs.skip(vs.len() as int) =~= Seq::<NodeV>::empty());
            }
            let pad = spaces(current_indent);
            destination.add_bytes(pad.as_str());
            destination.add_bytes("]");
            proof {
                reveal_strlit("]");
                assert(final(destination)@ =~= old(destination)@ + spec_pretty(
                    node@,
                    indent as int,
                    current_indent as int,
                ));
            }
        },
        Node::Object(entries) => {
            destination.add_bytes("{\n");
            let deeper = deepen(current_indent, indent);
            let ghost es = node@->Dict_0;
            let ghost entry = destination@;
            let mut i: usize = 0;
            proof {
                assert(es.skip(0) =~= es);
            }
            while i < entries.len()
                invariant
                    i <= entries.len(),
                    es.len() == entries.len(),
                    deeper as int == spec_deepen(current_indent as int, indent as int),
                    forall|j: int|
                        0 <= j < entries.len() ==> #[trigger] es[j] == (
                        entries[j].0@,
                        entries[j].1@,
                        ),
                    entry + spec_pretty_entries(es, indent as int, deeper as int) == destination@
                        + spec_pretty_entries(es.skip(i as int), indent as int, deeper as int),
                decreases entries.len() - i,
            {
                let pad = spaces(deeper);
                destination.add_bytes(pad.as_str());
                destination.add_bytes("\"");
                destination.add_bytes(entries[i].0.as_str());
                destination.add_bytes("\": ");
                proof {
                    assert(decreases_to!(Node::Object(*entries) => *entries));
                    assert(decreases_to!(*entries => entries@));
                    assert(decreases_to!(entries@ => entries@[i as int]));
                    assert(decreases_to!(entries@[i as int] => entries@[i as int].1));
                }
                print(&entries[i].1, destination, indent, deeper);
                if i < entries.len() - 1 {
                    destination.add_bytes(",");
                }
                destination.add_bytes("\n");
                proof {
                    reveal_strlit("\"");
                    reveal_strlit(",");
                    reveal_strlit("\n");
                    assert(es.skip(i as int).drop_first() =~= es.skip(i + 1));
                    assert(es.skip(i as int)[0] == es[i as int]);
                    assert(entry + spec_pretty_entries(es, indent as int, deeper as int)
                        =~= destination@ + spec_pretty_entries(
                        es.skip(i + 1),
                        indent as int,
                        deeper as int,
                    ));
                }
                i = i + 1;
            }
            proof {
                assert(es.skip(es.len() as int) =~= Seq::<(Seq<char>, NodeV)>::empty());
            }
            let pad = spaces(current_indent);
            destination.add_bytes(pad.as_str());
            destination.add_bytes("}");
            proof {
                reveal_strlit("}");
                assert(final(destination)@ =~= old(destination)@ + spec_pretty(
                    node@,
                    indent as int,
                    current_indent as int,
                ));
            }
        },
    }
}

// ---------------------------------------------------------------------------
// Whitespace stripper
// ---------------------------------------------------------------------------

/// The whitespace that the stripper removes outside string literals: space,
/// tab, line feed and carriage return.
pub open spec fn strip_ws(c: char) -> bool {
    c == ' ' || c == '\t' || c == '\n' || c == '\r'
}

/// What the string-copy mode of the stripper emits when the cursor stands
/// just past an opening quote: every character copied verbatim, a backslash
/// together with the character after it, up to and including the first
/// unescaped closing quote.  The first component is the copied text, the
/// second what remains after it.  Input that ends before the closing quote
/// is copied to its end.
pub open spec fn spec_copy_str(s: Seq<char>) -> (Seq<char>, Seq<char>)
    decreases s.len(),
{
    if s.len() == 0 {
        (Seq::empty(), Seq::empty())
    } else if s[0] == '"' {
        (seq!['"'], s.drop_first())
    } else if s[0] == '\\' {
        if s.len() >= 2 {
            let (o, r) = spec_copy_str(s.skip(2));
            (seq!['\\', s[1]] + o, r)
        } else {
            (seq!['\\'], Seq::empty())
        }
    } else {
        let (o, r) = spec_copy_str(s.drop_first());
        (seq![s[0]] + o, r)
    }
}

/// Whether the string-copy mode finds an unescaped closing quote in `s`.
pub open spec fn copy_closes(s: Seq<char>) -> bool
    decreases s.len(),
{
    if s.len() == 0 {
        false
    } else if s[0] == '"' {
        true
    } else if s[0] == '\\' {
        if s.len() >= 2 {
            copy_closes(s.skip(2))
        } else {
            false
        }
    } else {
        copy_closes(s.drop_first())
    }
}

/// What the stripper emits for the text `s`: every character copied
/// verbatim except the whitespace of [`strip_ws`] outside string literals;
/// a double quote switches to the string-copy mode of [`spec_copy_str`].
pub open spec fn spec_strip(s: Seq<char>) -> Seq<char>
    decreases s.len(),
{
    if s.len() == 0 {
        Seq::empty()
    } else if strip_ws(s[0]) {
        spec_strip(s.drop_first())
    } else if s[0] == '"' {
        let (o, r) = spec_copy_str(s.drop_first());
        if r.len() < s.len() {
            seq!['"'] + o + spec_strip(r)
        } else {
            // cannot occur: the copy consumes at least the opening quote;
            // the branch keeps the recursion visibly well founded
            seq!['"'] + o
        }
    } else {
        seq![s[0]] + spec_strip(s.drop_first())
    }
}

/// The string-copy mode consumes at least as much as it leaves.
proof fn lemma_copy_shrinks(s: Seq<char>)
    ensures
        spec_copy_str(s).1.len() <= s.len(),
    decreases s.len(),
{
    if s.len() == 0 {
    } else if s[0] == '"' {
    } else if s[0] == '\\' {
        if s.len() >= 2 {
            lemma_copy_shrinks(s.skip(2));
        }
    } else {
        lemma_copy_shrinks(s.drop_first());
    }
}

/// In string-copy mode that finds its closing quote, the copied text is
/// consumed literally by a second copy, whatever follows it.
proof fn lemma_copy_restrip_closed(u: Seq<char>, x: Seq<char>)
    requires
        copy_closes(u),
    ensures
        spec_copy_str(spec_copy_str(u).0 + x) == (spec_copy_str(u).0, x),
    decreases u.len(),
{
    let o = spec_copy_str(u).0;
    if u[0] == '"' {
        assert(o + x =~= seq!['"'] + x);
        assert((o + x).drop_first() =~= x);
        assert(spec_copy_str(o + x) =~= (o, x)) by {
            assert(spec_copy_str(o + x).0 =~= o);
        }
    } else if u[0] == '\\' {
        assert(u.len() >= 2);
        let o2 = spec_copy_str(u.skip(2)).0;
        lemma_copy_restrip_closed(u.skip(2), x);
        assert(o =~= seq!['\\', u[1]] + o2);
        assert(o + x =~= seq!['\\', u[1]] + (o2 + x));
        assert((o + x)[0] == '\\');
        assert((o + x).skip(2) =~= o2 + x);
        assert((o + x)[1] == u[1]);
        assert(spec_copy_str(o + x).0 =~= o);
        assert(spec_copy_str(o + x).1 =~= x);
        assert(spec_copy_str(o + x) =~= (o, x));
    } else {
        let o2 = spec_copy_str(u.drop_first()).0;
        lemma_copy_restrip_closed(u.drop_first(), x);
        assert(o =~= seq![u[0]] + o2);
        assert(o + x =~= seq![u[0]] + (o2 + x));
        assert((o + x)[0] == u[0]);
        assert((o + x).drop_first() =~= o2 + x);
        assert(spec_copy_str(o + x).0 =~= o);
        assert(spec_copy_str(o + x).1 =~= x);
        assert(spec_copy_str(o + x) =~= (o, x));
    }
}

/// In string-copy mode that never finds a closing quote, nothing remains.
proof fn lemma_copy_no_close_rest(u: Seq<char>)
    requires
        !copy_closes(u),
    ensures
        spec_copy_str(u).1 == Seq::<char>::empty(),
    decreases u.len(),
{
    if u.len() == 0 {
        assert(spec_copy_str(u).1 =~= Seq::<char>::empty());
    } else if u[0] == '\\' {
        if u.len() >= 2 {
            lemma_copy_no_close_rest(u.skip(2));
        }
    } else {
        lemma_copy_no_close_rest(u.drop_first());
    }
}

/// In string-copy mode that never finds a closing quote, the copied text is
/// consumed whole by a second copy, which then finds no closing quote
/// either.
proof fn lemma_copy_restrip_open(u: Seq<char>)
    requires
        !copy_closes(u),
    ensures
        spec_copy_str(spec_copy_str(u).0) == (spec_copy_str(u).0, Seq::<char>::empty()),
        !copy_closes(spec_copy_str(u).0),
    decreases u.len(),
{
    let o = spec_copy_str(u).0;
    if u.len() == 0 {
        assert(o =~= Seq::<char>::empty());
        assert(spec_copy_str(o) =~= (o, Seq::<char>::empty()));
    } else if u[0] == '\\' {
        if u.len() >= 2 {
            let o2 = spec_copy_str(u.skip(2)).0;
            lemma_copy_restrip_open(u.skip(2));
            assert(o =~= seq!['\\', u[1]] + o2);
            assert(o[0] == '\\');
            assert(o.skip(2) =~= o2);
            assert(o[1] == u[1]);
            assert(spec_copy_str(o).0 =~= o);
            assert(spec_copy_str(o).1 =~= Seq::<char>::empty());
            assert(spec_copy_str(o) =~= (o, Seq::<char>::empty()));
        } else {
            assert(o =~= seq!['\\']);
            assert(spec_copy_str(o) =~= (o, Seq::<char>::empty()));
        }
    } else {
        let o2 = spec_copy_str(u.drop_first()).0;
        lemma_copy_restrip_open(u.drop_first());
        assert(o =~= seq![u[0]] + o2);
        assert(o[0] == u[0]);
        assert(o.drop_first() =~= o2);
        assert(spec_copy_str(o).0 =~= o);
        assert(spec_copy_str(o).1 =~= Seq::<char>::empty());
        assert(spec_copy_str(o) =~= (o, Seq::<char>::empty()));
    }
}

/// Stripping whitespace is idempotent: stripping a second time changes
/// nothing, for every input text.
pub proof fn lemma_strip_idempotent(s: Seq<char>)
    ensures
        spec_strip(spec_strip(s)) == spec_strip(s),
    decreases s.len(),
{
    if s.len() == 0 {
    } else if strip_ws(s[0]) {
        lemma_strip_idempotent(s.drop_first());
    } else if s[0] == '"' {
        let u = s.drop_first();
        let o = spec_copy_str(u).0;
        let r = spec_copy_str(u).1;
        lemma_copy_shrinks(u);
        assert(spec_strip(s) == seq!['"'] + o + spec_strip(r));
        let t = seq!['"'] + o + spec_strip(r);
        assert(t[0] == '"');
        assert(!strip_ws('"'));
        assert(t.drop_first() =~= o + spec_strip(r));
        if copy_closes(u) {
            lemma_copy_restrip_closed(u, spec_strip(r));
            lemma_strip_idempotent(r);
            assert(spec_copy_str(t.drop_first()) == (o, spec_strip(r)));
            assert(spec_strip(r).len() <= r.len()) by {
                lemma_strip_shrinks(r);
            }
            assert(spec_strip(t) == seq!['"'] + o + spec_strip(spec_strip(r)));
            assert(spec_strip(t) =~= spec_strip(s));
        } else {
            lemma_copy_no_close_rest(u);
            assert(r =~= Seq::<char>::empty());
            assert(spec_strip(r) =~= Seq::<char>::empty());
            assert(t.drop_first() =~= o);
            lemma_copy_restrip_open(u);
            assert(spec_copy_str(t.drop_first()) == (o, Seq::<char>::empty()));
            assert(spec_strip(t) == seq!['"'] + o + spec_strip(Seq::<char>::empty()));
            assert(spec_strip(t) =~= spec_strip(s));
        }
    } else {
        lemma_strip_idempotent(s.drop_first());
        let t = seq![s[0]] + spec_strip(s.drop_first());
        assert(spec_strip(s) == t);
        assert(t[0] == s[0]);
        assert(t.drop_first() =~= spec_strip(s.drop_first()));
        assert(spec_strip(t) =~= seq![s[0]] + spec_strip(spec_strip(s.drop_first())));
        assert(spec_strip(t) =~= spec_strip(s));
    }
}

/// Stripping never lengthens the text.
proof fn lemma_strip_shrinks(s: Seq<char>)
    ensures
        spec_strip(s).len() <= s.len(),
    decreases s.len(),
{
    if s.len() == 0 {
    } else if strip_ws(s[0]) {
        lemma_strip_shrinks(s.drop_first());
    } else if s[0] == '"' {
        let u = s.drop_first();
        lemma_copy_shrinks(u);
        lemma_copy_bounded(u);
        lemma_strip_shrinks(spec_copy_str(u).1);
    } else {
        lemma_strip_shrinks(s.drop_first());
    }
}

/// The string-copy mode emits no more than it consumes, counting the
/// remainder.
proof fn lemma_copy_bounded(u: Seq<char>)
    ensures
        spec_copy_str(u).0.len() + spec_copy_str(u).1.len() <= u.len(),
    decreases u.len(),
{
    if u.len() == 0 {
    } else if u[0] == '"' {
    } else if u[0] == '\\' {
        if u.len() >= 2 {
            lemma_copy_bounded(u.skip(2));
        }
    } else {
        lemma_copy_bounded(u.drop_first());
    }
}

/// The output still owed once the cursor stands inside a string literal:
/// the copied text, then the stripped remainder.
pub open spec fn copy_then_strip(u: Seq<char>) -> Seq<char> {
    spec_copy_str(u).0 + spec_strip(spec_copy_str(u).1)
}

/// Appends one character to the destination.
fn put_char(destination: &mut Buffer, c: char)
    ensures
        final(destination)@ == old(destination)@.push(c),
{
    let mut one = String::new();
    crate::text::push_char(&mut one, c);
    destination.add_bytes(one.as_str());
    proof {
        assert(final(destination)@ =~= old(destination)@.push(c));
    }
}

/// Copies the text from `source` to `destination` with the whitespace
/// outside string literals removed, reading the source to its end.
pub fn strip(source: &mut Source, destination: &mut Buffer)
    ensures
        final(destination)@ == old(destination)@ + spec_strip(old(source).remaining()),
        final(source).remaining().len() == 0,
{
    let ghost dest0 = destination@;
    let ghost rem0 = source.remaining();
    loop
        invariant_except_break
            dest0 + spec_strip(rem0) == destination@ + spec_strip(
                source.remaining(),
            ),
        ensures
            destination@ == dest0 + spec_strip(rem0),
            source.remaining().len() == 0,
        decreases source.remaining().len(),
    {
        if !source.more() {
            proof {
                assert(destination@ + spec_strip(source.remaining()) =~= destination@);
            }
            break ;
        }
        let ghost iter_rem = source.remaining();
        let c = source.current().unwrap();
        if c == ' ' || c == '\t' || c == '\n' || c == '\r' {
            source.next();
            proof {
                assert(spec_strip(iter_rem) == spec_strip(source.remaining()));
            }
        } else if c == '"' {
            put_char(destination, c);
            source.next();
            let ghost rin = source.remaining();
            proof {
                lemma_copy_shrinks(rin);
                assert(rin == iter_rem.drop_first());
                assert(spec_strip(iter_rem) == seq!['"'] + copy_then_strip(rin));
                assert(destination@ + copy_then_strip(source.remaining()) =~= dest0
                    + spec_strip(rem0));
            }
            loop
                invariant_except_break
                    source.remaining().len() <= rin.len(),
                    dest0 + spec_strip(rem0) == destination@
                        + copy_then_strip(source.remaining()),
                ensures
                    source.remaining().len() <= rin.len(),
                    dest0 + spec_strip(rem0) == destination@
                        + copy_then_strip(source.remaining()),
                    source.remaining().len() == 0 || source.remaining()[0] == '"',
                decreases source.remaining().len(),
            {
                if !source.more() {
                    break ;
                }
                let d = source.current().unwrap();
                if d == '"' {
                    break ;
                }
                let ghost u = source.remaining();
                if d == '\\' {
                    put_char(destination, d);
                    source.next();
                    if source.more() {
                        let e = source.current().unwrap();
                        put_char(destination, e);
                        source.next();
                        proof {
                            assert(source.remaining() =~= u.skip(2));
                            assert(spec_copy_str(u).0 =~= seq!['\\', u[1]] + spec_copy_str(
                                u.skip(2),
                            ).0);
                            assert(destination@ + copy_then_strip(source.remaining())
                                =~= dest0 + spec_strip(rem0));
                        }
                    } else {
                        proof {
                            assert(u =~= seq!['\\']);
                            assert(destination@ + copy_then_strip(source.remaining())
                                =~= dest0 + spec_strip(rem0));
                        }
                    }
                } else {
                    put_char(destination, d);
                    source.next();
                    proof {
                        assert(source.remaining() == u.drop_first());
                        assert(spec_copy_str(u).0 =~= seq![u[0]] + spec_copy_str(
                            u.drop_first(),
                        ).0);
                        assert(destination@ + copy_then_strip(source.remaining())
                            =~= dest0 + spec_strip(rem0));
                    }
                }
            }
            if source.more() {
                // the closing quote
                let q = source.current().unwrap();
                put_char(destination, q);
                proof {
                    let u = source.remaining();
                    assert(spec_copy_str(u).0 == seq!['"']);
                    assert(spec_copy_str(u).1 == u.drop_first());
                    assert(destination@ + spec_strip(source.remaining().drop_first())
                        =~= dest0 + spec_strip(rem0));
                }
            } else {
                proof {
                    assert(copy_then_strip(source.remaining()) =~= Seq::<char>::empty());
                }
            }
            source.next();
            proof {
                assert(source.remaining().len() < iter_rem.len());
            }
        } else {
            put_char(destination, c);
            source.next();
            proof {
                assert(spec_strip(iter_rem) =~= seq![c] + spec_strip(source.remaining()));
                assert(destination@ + spec_strip(source.remaining()) =~= dest0
                    + spec_strip(rem0));
            }
        }
    }
}

} // verus!
