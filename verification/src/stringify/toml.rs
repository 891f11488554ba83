use vstd::prelude::*;
use vstd::string::StringExecFns;
use crate::io::destinations::buffer::Buffer;
use crate::nodes::node::{entries_view, items_view, Node, NodeV, Numeric};
use crate::stringify::numbers::{numeric_to_string, spec_numeric_chars};
use crate::stringify::order::{sort_order, sorted_positions};

verus! {

broadcast use vstd::std_specs::vec::group_vec_axioms;

/// The message when the root of the tree is not an object.
pub const ERR_TOML_ROOT: &'static str = "TOML format requires a Object at the root level";

/// The message when an array mixes value kinds.
pub const ERR_TOML_MIXED: &'static str = "TOML arrays must contain elements of the same type";

// ---------------------------------------------------------------------------
// Which trees TOML can hold
// ---------------------------------------------------------------------------

/// The kind of a value, for the homogeneity rule on arrays.
pub open spec fn spec_tag(v: NodeV) -> int {
    match v {
        NodeV::Text(s) => 0,
        NodeV::Boolean(b) => 1,
        NodeV::Number(m) => 2,
        NodeV::List(items) => 3,
        NodeV::Dict(es) => 4,
        NodeV::Null => 5,
    }
}

/// Whether every element of a list is an object.
pub open spec fn all_objects(items: Seq<NodeV>) -> bool {
    forall|i: int| 0 <= i < items.len() ==> (#[trigger] items[i]) is Dict
}

/// Whether a list is homogeneous: every element of the same kind.
pub open spec fn homogeneous(items: Seq<NodeV>) -> bool {
    forall|i: int| 0 <= i < items.len() ==> spec_tag(#[trigger] items[i]) == spec_tag(items[0])
}

/// Whether a value can stand inline: every array in it is homogeneous.
pub open spec fn toml_ok_value(v: NodeV) -> bool
    decreases v,
{
    match v {
        NodeV::List(items) => homogeneous(items) && forall|i: int|
            0 <= i < items.len() ==> toml_ok_value(#[trigger] items[i]),
        _ => true,
    }
}

/// Whether the value of an entry can be emitted: a nested object or an
/// array of objects by its own entries, anything else inline.
pub open spec fn toml_ok_entry(v: NodeV) -> bool
    decreases v, 1int,
{
    match v {
        NodeV::Dict(es) => toml_ok_dict(es),
        NodeV::List(items) => if all_objects(items) {
            forall|i: int| 0 <= i < items.len() ==> toml_ok_entry(#[trigger] items[i])
        } else {
            toml_ok_value(v)
        },
        _ => toml_ok_value(v),
    }
}

/// Whether every entry of a dictionary can be emitted.
pub open spec fn toml_ok_dict(es: Seq<(Seq<char>, NodeV)>) -> bool
    decreases es, 0int,
{
    forall|i: int| 0 <= i < es.len() ==> toml_ok_entry((#[trigger] es[i]).1)
}

/// Whether the whole tree can be serialized: an object at the root, every
/// array in it homogeneous.
pub open spec fn spec_toml_valid(v: NodeV) -> bool {
    v is Dict && toml_ok_dict(v->Dict_0)
}

// ---------------------------------------------------------------------------
// What the TOML encoder emits
// ---------------------------------------------------------------------------

/// The dotted prefix extended by a key.
pub open spec fn spec_prefix(prefix: Seq<char>, k: Seq<char>) -> Seq<char> {
    if prefix.len() == 0 {
        k
    } else {
        prefix + seq!['.'] + k
    }
}

/// The inline text of a value: strings quoted without escaping, numbers
/// and booleans plain, arrays bracketed and comma-joined, null its
/// placeholder literal, and an object nothing — objects are emitted as
/// tables, never inline.
pub open spec fn spec_toml_value(v: NodeV) -> Seq<char>
    decreases v, 1int,
{
    match v {
        NodeV::Text(s) => seq!['"'] + s + seq!['"'],
        NodeV::Boolean(b) => if b {
            "true"@
        } else {
            "false"@
        },
        NodeV::Number(m) => spec_numeric_chars(m),
        NodeV::List(items) => seq!['['] + spec_toml_vitems(items) + seq![']'],
        NodeV::Dict(es) => Seq::empty(),
        NodeV::Null => "null"@,
    }
}

/// The comma-joined inline texts of the elements of an array.
pub open spec fn spec_toml_vitems(items: Seq<NodeV>) -> Seq<char>
    decreases items, 0int,
{
    if items.len() == 0 {
        Seq::empty()
    } else if items.len() == 1 {
        spec_toml_value(items[0])
    } else {
        spec_toml_value(items[0]) + ", "@ + spec_toml_vitems(items.drop_first())
    }
}

/// One `key = value` line.
pub open spec fn spec_toml_pair_line(k: Seq<char>, v: NodeV) -> Seq<char> {
    k + " = "@ + spec_toml_value(v) + seq!['\n']
}

/// The `key = value` lines of a dictionary, walked in the order `order`
/// gives, nested objects and arrays of objects left for the passes after:
/// before the first line, and only then, the `[prefix]` header of a
/// non-root table.
pub open spec fn spec_toml_pairs(
    es: Seq<(Seq<char>, NodeV)>,
    order: Seq<int>,
    prefix: Seq<char>,
    first: bool,
) -> Seq<char>
    decreases es, 2int, order.len(),
{
    if order.len() == 0 {
        Seq::empty()
    } else {
        let i = order[0];
        if 0 <= i < es.len() {
            let v = es[i].1;
            if v is Dict || (v is List && all_objects(v->List_0)) {
                spec_toml_pairs(es, order.drop_first(), prefix, first)
            } else {
                (if prefix.len() > 0 && first {
                    seq!['['] + prefix + "]\n"@
                } else {
                    Seq::empty()
                }) + spec_toml_pair_line(es[i].0, v) + spec_toml_pairs(
                    es,
                    order.drop_first(),
                    prefix,
                    first && prefix.len() == 0,
                )
            }
        } else {
            // cannot occur: the order holds positions of the entry list
            spec_toml_pairs(es, order.drop_first(), prefix, first)
        }
    }
}

/// The child tables of a dictionary, in order: each nested object, emitted
/// under the prefix extended by its key.
pub open spec fn spec_toml_tables(
    es: Seq<(Seq<char>, NodeV)>,
    order: Seq<int>,
    prefix: Seq<char>,
) -> Seq<char>
    decreases es, 2int, order.len(),
{
    if order.len() == 0 {
        Seq::empty()
    } else {
        let i = order[0];
        if 0 <= i < es.len() && es[i].1 is Dict {
            spec_toml_dict(es[i].1->Dict_0, spec_prefix(prefix, es[i].0)) + spec_toml_tables(
                es,
                order.drop_first(),
                prefix,
            )
        } else {
            spec_toml_tables(es, order.drop_first(), prefix)
        }
    }
}

/// The array-of-tables blocks of a dictionary, in order: for each array of
/// objects, one `[[prefix.key]]` block per element.
pub open spec fn spec_toml_atables(
    es: Seq<(Seq<char>, NodeV)>,
    order: Seq<int>,
    prefix: Seq<char>,
) -> Seq<char>
    decreases es, 2int, order.len(),
{
    if order.len() == 0 {
        Seq::empty()
    } else {
        let i = order[0];
        if 0 <= i < es.len() && es[i].1 is List && all_objects(es[i].1->List_0) {
            spec_toml_atable_items(es[i].1->List_0, spec_prefix(prefix, es[i].0))
                + spec_toml_atables(es, order.drop_first(), prefix)
        } else {
            spec_toml_atables(es, order.drop_first(), prefix)
        }
    }
}

/// The `[[name]]` blocks of an array of tables, one per element.
pub open spec fn spec_toml_atable_items(items: Seq<NodeV>, pfx: Seq<char>) -> Seq<char>
    decreases items, 2int, 0int,
{
    if items.len() == 0 {
        Seq::empty()
    } else {
        (if items[0] is Dict {
            "[["@ + pfx + "]]\n"@ + spec_toml_element(items[0]->Dict_0, pfx)
        } else {
            Seq::empty()
        }) + spec_toml_atable_items(items.drop_first(), pfx)
    }
}

/// One element of an array of tables: its plain `key = value` lines first,
/// then its nested objects and arrays of objects, flattened under the same
/// dotted prefix.
pub open spec fn spec_toml_element(es: Seq<(Seq<char>, NodeV)>, pfx: Seq<char>) -> Seq<char>
    decreases es, 3int, 0int,
{
    spec_toml_epairs(es, sort_order(es), pfx) + spec_toml_esubs(es, sort_order(es), pfx)
}

/// The plain lines of an array-of-tables element, never under a header.
pub open spec fn spec_toml_epairs(
    es: Seq<(Seq<char>, NodeV)>,
    order: Seq<int>,
    pfx: Seq<char>,
) -> Seq<char>
    decreases es, 2int, order.len(),
{
    if order.len() == 0 {
        Seq::empty()
    } else {
        let i = order[0];
        if 0 <= i < es.len() {
            let v = es[i].1;
            if v is Dict || (v is List && all_objects(v->List_0)) {
                spec_toml_epairs(es, order.drop_first(), pfx)
            } else {
                spec_toml_pair_line(es[i].0, v) + spec_toml_epairs(es, order.drop_first(), pfx)
            }
        } else {
            spec_toml_epairs(es, order.drop_first(), pfx)
        }
    }
}

/// The nested parts of an array-of-tables element: objects as tables under
/// the extended prefix, arrays of objects likewise, one table per element.
pub open spec fn spec_toml_esubs(
    es: Seq<(Seq<char>, NodeV)>,
    order: Seq<int>,
    pfx: Seq<char>,
) -> Seq<char>
    decreases es, 2int, order.len(),
{
    if order.len() == 0 {
        Seq::empty()
    } else {
        let i = order[0];
        if 0 <= i < es.len() {
            let v = es[i].1;
            let sub = if v is Dict {
                spec_toml_dict(v->Dict_0, spec_prefix(pfx, es[i].0))
            } else if v is List && all_objects(v->List_0) {
                spec_toml_esub_items(v->List_0, spec_prefix(pfx, es[i].0))
            } else {
                Seq::empty()
            };
            sub + spec_toml_esubs(es, order.drop_first(), pfx)
        } else {
            spec_toml_esubs(es, order.drop_first(), pfx)
        }
    }
}

/// Each object of a nested array of tables, emitted as a table under the
/// same extended prefix.
pub open spec fn spec_toml_esub_items(items: Seq<NodeV>, pfx: Seq<char>) -> Seq<char>
    decreases items, 2int, 0int,
{
    if items.len() == 0 {
        Seq::empty()
    } else {
        (if items[0] is Dict {
            spec_toml_dict(items[0]->Dict_0, pfx)
        } else {
            Seq::empty()
        }) + spec_toml_esub_items(items.drop_first(), pfx)
    }
}

/// A whole dictionary at a prefix: nothing when empty; otherwise its plain
/// lines — headed by `[prefix]` away from the root — then its child
/// tables, then its array-of-tables blocks, the keys of each pass
/// ascending.
pub open spec fn spec_toml_dict(es: Seq<(Seq<char>, NodeV)>, prefix: Seq<char>) -> Seq<char>
    decreases es, 3int, 0int,
{
    if es.len() == 0 {
        Seq::empty()
    } else {
        spec_toml_pairs(es, sort_order(es), prefix, true) + spec_toml_tables(
            es,
            sort_order(es),
            prefix,
        ) + spec_toml_atables(es, sort_order(es), prefix)
    }
}

/// The TOML text of a tree whose root is an object.
pub open spec fn spec_toml(v: NodeV) -> Seq<char> {
    spec_toml_dict(v->Dict_0, Seq::empty())
}


// ---------------------------------------------------------------------------
// The validity scan
// ---------------------------------------------------------------------------

/// The kind of a value, as a small number.
fn node_tag(node: &Node) -> (r: u8)
    ensures
        r as int == spec_tag(node@),
{
    match node {
        Node::Str(s) => 0,
        Node::Boolean(b) => 1,
        Node::Number(m) => 2,
        Node::Array(items) => 3,
        Node::Object(es) => 4,
        Node::Null => 5,
    }
}

/// The kind of a value, by name.
pub fn get_node_type(node: &Node) -> (r: &'static str)
    ensures
        spec_tag(node@) == 0 ==> r@ == "string"@,
        spec_tag(node@) == 1 ==> r@ == "boolean"@,
        spec_tag(node@) == 2 ==> r@ == "number"@,
        spec_tag(node@) == 3 ==> r@ == "array"@,
        spec_tag(node@) == 4 ==> r@ == "object"@,
        spec_tag(node@) == 5 ==> r@ == "null"@,
{
    match node {
        Node::Str(s) => "string",
        Node::Boolean(b) => "boolean",
        Node::Number(m) => "number",
        Node::Array(items) => "array",
        Node::Object(es) => "object",
        Node::Null => "null",
    }
}

/// Whether every element of the array is an object.
#[verifier::loop_isolation(false)]
fn vec_all_objects(items: &Vec<Node>) -> (r: bool)
    ensures
        r == all_objects(items_view(items@)),
{
    let mut i: usize = 0;
    while i < items.len()
        invariant
            i <= items@.len(),
            forall|j: int| 0 <= j < i ==> (#[trigger] items_view(items@)[j]) is Dict,
        decreases items@.len() - i,
    {
        let is_obj = match &items[i] {
            Node::Object(es) => true,
            _ => false,
        };
        proof {
            assert(items_view(items@)[i as int] == items@[i as int]@);
        }
        if !is_obj {
            return false;
        }
        i = i + 1;
    }
    true
}

/// Whether the array is homogeneous.
#[verifier::loop_isolation(false)]
fn vec_homogeneous(items: &Vec<Node>) -> (r: bool)
    ensures
        r == homogeneous(items_view(items@)),
{
    if items.len() == 0 {
        return true;
    }
    let t0 = node_tag(&items[0]);
    let mut i: usize = 0;
    while i < items.len()
        invariant
            i <= items@.len(),
            t0 as int == spec_tag(items_view(items@)[0]),
            forall|j: int|
                0 <= j < i ==> spec_tag(#[trigger] items_view(items@)[j]) == spec_tag(
                    items_view(items@)[0],
                ),
        decreases items@.len() - i,
    {
        let tj = node_tag(&items[i]);
        proof {
            assert(items_view(items@)[i as int] == items@[i as int]@);
        }
        if tj != t0 {
            return false;
        }
        i = i + 1;
    }
    true
}

/// Whether the value can stand inline: every array in it homogeneous.
#[verifier::loop_isolation(false)]
#[verifier::rlimit(100)]
fn value_ok(node: &Node) -> (r: bool)
    ensures
        r == toml_ok_value(node@),
    decreases *node, 1int,
{
    match node {
        Node::Array(items) => {
            if !vec_homogeneous(items) {
                return false;
            }
            let ghost vs = node@->List_0;
            let mut i: usize = 0;
            while i < items.len()
                invariant
                    i <= items@.len(),
                    vs == items_view(items@),
                    homogeneous(vs),
                    forall|j: int| 0 <= j < i ==> toml_ok_value(#[trigger] vs[j]),
                decreases items@.len() - i, 0int,
            {
                proof {
                    assert(decreases_to!(Node::Array(*items) => *items));
                    assert(decreases_to!(*items => items@));
                    assert(decreases_to!(items@ => items@[i as int]));
                }
                let ok = value_ok(&items[i]);
                proof {
                    assert(vs[i as int] == items@[i as int]@);
                }
                if !ok {
                    return false;
                }
                i = i + 1;
            }
            true
        },
        _ => true,
    }
}

/// Whether the value of an entry can be emitted.
#[verifier::loop_isolation(false)]
#[verifier::rlimit(100)]
fn entry_ok(node: &Node) -> (r: bool)
    ensures
        r == toml_ok_entry(node@),
    decreases *node, 2int,
{
    match node {
        Node::Object(es) => {
            proof {
                assert(decreases_to!(Node::Object(*es) => *es));
            }
            dict_ok(es)
        },
        Node::Array(items) => {
            if vec_all_objects(items) {
                let ghost vs = node@->List_0;
                let mut i: usize = 0;
                while i < items.len()
                    invariant
                        i <= items@.len(),
                        vs == items_view(items@),
                        all_objects(vs),
                        forall|j: int| 0 <= j < i ==> toml_ok_entry(#[trigger] vs[j]),
                    decreases items@.len() - i, 0int,
                {
                    proof {
                        assert(decreases_to!(Node::Array(*items) => *items));
                        assert(decreases_to!(*items => items@));
                        assert(decreases_to!(items@ => items@[i as int]));
                    }
                    let ok = entry_ok(&items[i]);
                    proof {
                        assert(vs[i as int] == items@[i as int]@);
                    }
                    if !ok {
                        return false;
                    }
                    i = i + 1;
                }
                true
            } else {
                value_ok(node)
            }
        },
        _ => value_ok(node),
    }
}

/// Whether every entry of the dictionary can be emitted.
#[verifier::loop_isolation(false)]
#[verifier::rlimit(100)]
fn dict_ok(entries: &Vec<(String, Node)>) -> (r: bool)
    ensures
        r == toml_ok_dict(entries_view(entries@)),
    decreases *entries, 3int,
{
    let ghost es = entries_view(entries@);
    let mut i: usize = 0;
    while i < entries.len()
        invariant
            i <= entries@.len(),
            es == entries_view(entries@),
            forall|j: int| 0 <= j < i ==> toml_ok_entry((#[trigger] es[j]).1),
        decreases entries@.len() - i, 0int,
    {
        proof {
            assert(decreases_to!(*entries => entries@));
            assert(decreases_to!(entries@ => entries@[i as int]));
            assert(decreases_to!(entries@[i as int] => entries@[i as int].1));
        }
        let ok = entry_ok(&entries[i].1);
        proof {
            assert(es[i as int] == (entries@[i as int].0@, entries@[i as int].1@));
        }
        if !ok {
            return false;
        }
        i = i + 1;
    }
    true
}

// ---------------------------------------------------------------------------
// The encoder
// ---------------------------------------------------------------------------

/// Writes a string value, quoted and without escaping.
pub fn stringify_str(s: &str, destination: &mut Buffer)
    ensures
        final(destination)@ == old(destination)@ + seq!['"'] + s@ + seq!['"'],
{
    destination.add_bytes("\"");
    destination.add_bytes(s);
    destination.add_bytes("\"");
    proof {
        reveal_strlit("\"");
        assert(final(destination)@ =~= old(destination)@ + seq!['"'] + s@ + seq!['"']);
    }
}

/// Writes a boolean value.
pub fn stringify_bool(b: &bool, destination: &mut Buffer)
    ensures
        final(destination)@ == old(destination)@ + (if *b {
            "true"@
        } else {
            "false"@
        }),
{
    destination.add_bytes(if *b {
        "true"
    } else {
        "false"
    });
}

/// Writes a numeric value.
pub fn stringify_number(value: &Numeric, destination: &mut Buffer)
    ensures
        final(destination)@ == old(destination)@ + spec_numeric_chars(value@),
{
    let s = numeric_to_string(value);
    destination.add_bytes(s.as_str());
}

/// Writing one more element extends the comma-joined prefix.
proof fn lemma_toml_vitems_snoc(items: Seq<NodeV>, i: int)
    requires
        0 <= i < items.len(),
    ensures
        spec_toml_vitems(items.take(i + 1)) == if i == 0 {
            spec_toml_value(items[0])
        } else {
            spec_toml_vitems(items.take(i)) + ", "@ + spec_toml_value(items[i])
        },
    decreases i,
{
    if i == 0 {
        assert(items.take(1) =~= seq![items[0]]);
    } else {
        lemma_toml_vitems_snoc(items.drop_first(), i - 1);
        assert(items.drop_first().take(i) =~= items.take(i + 1).drop_first());
        assert(items.drop_first().take(i - 1) =~= items.take(i).drop_first());
        assert(items.drop_first()[i - 1] == items[i]);
        assert(items.take(i + 1)[0] == items[0]);
        assert(items.take(i)[0] == items[0]);
        if i == 1 {
            assert(spec_toml_vitems(items.take(2)) == spec_toml_value(items[0]) + ", "@
                + spec_toml_value(items[1]));
        }
    }
}

/// Writes a value inline, as [`spec_toml_value`] says, and a line feed
/// after it when `add_cr` asks for one.
#[verifier::loop_isolation(false)]
#[verifier::rlimit(100)]
pub fn stringify_value(value: &Node, add_cr: bool, destination: &mut Buffer)
    ensures
        final(destination)@ == old(destination)@ + spec_toml_value(value@) + (if add_cr {
            seq!['\n']
        } else {
            Seq::<char>::empty()
        }),
    decreases *value, 1int,
{
    match value {
        Node::Str(s) => stringify_str(s.as_str(), destination),
        Node::Boolean(b) => stringify_bool(b, destination),
        Node::Number(m) => stringify_number(m, destination),
        Node::Array(items) => {
            destination.add_bytes("[");
            let ghost entry = destination@;
            let ghost vs = value@->List_0;
            let mut i: usize = 0;
            proof {
                assert(vs.take(0) =~= Seq::<NodeV>::empty());
            }
            while i < items.len()
                invariant
                    i <= items@.len(),
                    vs.len() == items@.len(),
                    forall|j: int| 0 <= j < items@.len() ==> vs[j] == #[trigger] items@[j]@,
                    destination@ == entry + spec_toml_vitems(vs.take(i as int)),
                decreases items@.len() - i, 0int,
            {
                if i > 0 {
                    destination.add_bytes(", ");
                }
                proof {
                    assert(decreases_to!(Node::Array(*items) => *items));
                    assert(decreases_to!(*items => items@));
                    assert(decreases_to!(items@ => items@[i as int]));
                }
                stringify_value(&items[i], false, destination);
                proof {
                    lemma_toml_vitems_snoc(vs, i as int);
                    assert(destination@ =~= entry + spec_toml_vitems(vs.take(i + 1)));
                }
                i = i + 1;
            }
            proof {
                assert(vs.take(vs.len() as int) =~= vs);
            }
            destination.add_bytes("]");
            proof {
                reveal_strlit("[");
                reveal_strlit("]");
                assert(destination@ =~= old(destination)@ + spec_toml_value(value@));
            }
        },
        Node::Object(es) => {
            proof {
                assert(destination@ =~= old(destination)@ + spec_toml_value(value@));
            }
        },
        Node::Null => destination.add_bytes("null"),
    }
    if add_cr {
        destination.add_bytes("\n");
        proof {
            reveal_strlit("\n");
        }
    }
    proof {
        if add_cr {
            assert(final(destination)@ =~= old(destination)@ + spec_toml_value(value@)
                + seq!['\n']);
        } else {
            assert(final(destination)@ =~= old(destination)@ + spec_toml_value(value@));
        }
    }
}

/// The dotted prefix extended by a key.
pub fn calculate_prefix(prefix: &str, key: &String) -> (r: String)
    ensures
        r@ == spec_prefix(prefix@, key@),
{
    if prefix.unicode_len() == 0 {
        let r = key.clone();
        r
    } else {
        let mut r = String::from_str(prefix);
        r.append(".");
        r.append(key.as_str());
        proof {
            reveal_strlit(".");
            assert(r@ =~= spec_prefix(prefix@, key@));
        }
        r
    }
}

/// Writes one `key = value` line, with the `[prefix]` header first when
/// this is the first line of a non-root table.
pub fn stringify_key_value_pair(
    prefix: &str,
    destination: &mut Buffer,
    is_first: &mut bool,
    key: &String,
    value: &Node,
)
    ensures
        final(destination)@ == old(destination)@ + (if prefix@.len() > 0 && *old(is_first) {
            seq!['['] + prefix@ + "]\n"@
        } else {
            Seq::<char>::empty()
        }) + spec_toml_pair_line(key@, value@),
        *final(is_first) == (*old(is_first) && !(prefix@.len() > 0)),
{
    if prefix.unicode_len() > 0 && *is_first {
        destination.add_bytes("[");
        destination.add_bytes(prefix);
        destination.add_bytes("]\n");
        *is_first = false;
    }
    destination.add_bytes(key.as_str());
    destination.add_bytes(" = ");
    stringify_value(value, true, destination);
    proof {
        reveal_strlit("[");
        reveal_strlit(" = ");
        assert(final(destination)@ =~= old(destination)@ + (if prefix@.len() > 0 && *old(
            is_first,
        ) {
            seq!['['] + prefix@ + "]\n"@
        } else {
            Seq::<char>::empty()
        }) + spec_toml_pair_line(key@, value@));
    }
}

/// Whether the value of an entry is emitted as tables rather than inline:
/// an object, or an array of objects.
fn entry_is_table_like(node: &Node) -> (r: bool)
    ensures
        r == (node@ is Dict || (node@ is List && all_objects(node@->List_0))),
{
    match node {
        Node::Object(sub) => true,
        Node::Array(items) => {
            let b = vec_all_objects(items);
            proof {
                assert(node@->List_0 == items_view(items@));
            }
            b
        },
        _ => false,
    }
}

/// Writes a dictionary at a prefix: plain lines — headed away from the
/// root — then child tables, then array-of-tables blocks, the keys of each
/// pass ascending, as [`spec_toml_dict`] says.
#[verifier::loop_isolation(false)]
#[verifier::rlimit(100)]
fn emit_dict(entries: &Vec<(String, Node)>, prefix: &str, destination: &mut Buffer)
    ensures
        final(destination)@ == old(destination)@ + spec_toml_dict(
            entries_view(entries@),
            prefix@,
        ),
    decreases entries@, 3int, 0int,
{
    let ghost es = entries_view(entries@);
    if entries.len() == 0 {
        proof {
            assert(final(destination)@ =~= old(destination)@ + spec_toml_dict(es, prefix@));
        }
        return ;
    }
    let order = sorted_positions(entries);
    let ghost ord = sort_order(es);
    // plain lines
    let ghost entry1 = destination@;
    let mut first: bool = true;
    let mut i: usize = 0;
    proof {
        assert(ord.skip(0) =~= ord);
    }
    while i < order.len()
        invariant
            i <= order@.len(),
            es == entries_view(entries@),
            order@.len() == ord.len(),
            forall|p: int|
                0 <= p < order@.len() ==> (#[trigger] order@[p]) < entries@.len()
                    && order@[p] as int == ord[p],
            entry1 + spec_toml_pairs(es, ord, prefix@, true) == destination@ + spec_toml_pairs(
                es,
                ord.skip(i as int),
                prefix@,
                first,
            ),
        decreases order@.len() - i,
    {
        let oi = order[i];
        let ghost v = es[oi as int].1;
        proof {
            assert(es[oi as int] == (entries@[oi as int].0@, entries@[oi as int].1@));
            assert(ord.skip(i as int).drop_first() =~= ord.skip(i + 1));
            assert(ord.skip(i as int)[0] == ord[i as int]);
        }
        let skip_it: bool = entry_is_table_like(&entries[oi].1);
        if !skip_it {
            stringify_key_value_pair(prefix, destination, &mut first, &entries[oi].0, &entries[oi].1);
        }
        proof {
            assert(entry1 + spec_toml_pairs(es, ord, prefix@, true) =~= destination@
                + spec_toml_pairs(es, ord.skip(i + 1), prefix@, first));
        }
        i = i + 1;
    }
    proof {
        assert(ord.skip(ord.len() as int) =~= Seq::<int>::empty());
    }
    // child tables
    let ghost entry2 = destination@;
    let mut i2: usize = 0;
    proof {
        assert(ord.skip(0) =~= ord);
    }
    while i2 < order.len()
        invariant
            i2 <= order@.len(),
            es == entries_view(entries@),
            order@.len() == ord.len(),
            forall|p: int|
                0 <= p < order@.len() ==> (#[trigger] order@[p]) < entries@.len()
                    && order@[p] as int == ord[p],
            entry2 + spec_toml_tables(es, ord, prefix@) == destination@ + spec_toml_tables(
                es,
                ord.skip(i2 as int),
                prefix@,
            ),
        decreases order@.len() - i2,
    {
        let oi = order[i2];
        proof {
            assert(es[oi as int] == (entries@[oi as int].0@, entries@[oi as int].1@));
            assert(ord.skip(i2 as int).drop_first() =~= ord.skip(i2 + 1));
            assert(ord.skip(i2 as int)[0] == ord[i2 as int]);
        }
        match &entries[oi].1 {
            Node::Object(sub) => {
                let np = calculate_prefix(prefix, &entries[oi].0);
                proof {
                    assert(decreases_to!(entries@ => entries@[oi as int]));
                    assert(decreases_to!(entries@[oi as int] => entries@[oi as int].1));
                    assert(decreases_to!(entries@[oi as int].1 => *sub));
                    assert(decreases_to!(*sub => sub@));
                }
                emit_dict(sub, np.as_str(), destination);
            },
            _ => {
            },
        }
        proof {
            assert(entry2 + spec_toml_tables(es, ord, prefix@) =~= destination@
                + spec_toml_tables(es, ord.skip(i2 + 1), prefix@));
        }
        i2 = i2 + 1;
    }
    proof {
        assert(ord.skip(ord.len() as int) =~= Seq::<int>::empty());
    }
    // array-of-tables blocks
    let ghost entry3 = destination@;
    let mut i3: usize = 0;
    proof {
        assert(ord.skip(0) =~= ord);
    }
    while i3 < order.len()
        invariant
            i3 <= order@.len(),
            es == entries_view(entries@),
            order@.len() == ord.len(),
            forall|p: int|
                0 <= p < order@.len() ==> (#[trigger] order@[p]) < entries@.len()
                    && order@[p] as int == ord[p],
            entry3 + spec_toml_atables(es, ord, prefix@) == destination@ + spec_toml_atables(
                es,
                ord.skip(i3 as int),
                prefix@,
            ),
        decreases order@.len() - i3,
    {
        let oi = order[i3];
        proof {
            assert(es[oi as int] == (entries@[oi as int].0@, entries@[oi as int].1@));
            assert(ord.skip(i3 as int).drop_first() =~= ord.skip(i3 + 1));
            assert(ord.skip(i3 as int)[0] == ord[i3 as int]);
        }
        let is_at: bool = match &entries[oi].1 {
            Node::Array(items) => {
                let b = vec_all_objects(items);
                proof {
                    assert(es[oi as int].1->List_0 == items_view(items@));
                }
                b
            },
            _ => false,
        };
        if is_at {
            match &entries[oi].1 {
                Node::Array(items) => {
                    let np = calculate_prefix(prefix, &entries[oi].0);
                    let ghost vs = es[oi as int].1->List_0;
                    let ghost entry4 = destination@;
                    let mut j: usize = 0;
                    proof {
                        assert(vs.skip(0) =~= vs);
                    }
                    while j < items.len()
                        invariant
                            j <= items@.len(),
                            vs.len() == items@.len(),
                            np@ == spec_prefix(prefix@, es[oi as int].0),
                            forall|q: int| 0 <= q < items@.len() ==> vs[q] == #[trigger] items@[q]@,
                            entry4 + spec_toml_atable_items(vs, np@) == destination@
                                + spec_toml_atable_items(vs.skip(j as int), np@),
                        decreases items@.len() - j,
                    {
                        proof {
                            assert(vs.skip(j as int).drop_first() =~= vs.skip(j + 1));
                            assert(vs.skip(j as int)[0] == vs[j as int]);
                        }
                        match &items[j] {
                            Node::Object(sub) => {
                                destination.add_bytes("[[");
                                destination.add_bytes(np.as_str());
                                destination.add_bytes("]]\n");
                                proof {
                                    assert(decreases_to!(entries@ => entries@[oi as int]));
                                    assert(decreases_to!(entries@[oi as int] => entries@[oi as int].1));
                                    assert(decreases_to!(entries@[oi as int].1 => *items));
                                    assert(decreases_to!(*items => items@));
                                    assert(decreases_to!(items@ => items@[j as int]));
                                    assert(decreases_to!(items@[j as int] => *sub));
                                    assert(decreases_to!(*sub => sub@));
                                }
                                emit_element(sub, np.as_str(), destination);
                                proof {
                                    reveal_strlit("[[");
                                    reveal_strlit("]]\n");
                                    assert(entry4 + spec_toml_atable_items(vs, np@)
                                        =~= destination@ + spec_toml_atable_items(
                                        vs.skip(j + 1),
                                        np@,
                                    ));
                                }
                            },
                            _ => {
                                proof {
                                    assert(entry4 + spec_toml_atable_items(vs, np@)
                                        =~= destination@ + spec_toml_atable_items(
                                        vs.skip(j + 1),
                                        np@,
                                    ));
                                }
                            },
                        }
                        j = j + 1;
                    }
                    proof {
                        assert(vs.skip(vs.len() as int) =~= Seq::<NodeV>::empty());
                    }
                },
                _ => {
                },
            }
        }
        proof {
            assert(entry3 + spec_toml_atables(es, ord, prefix@) =~= destination@
                + spec_toml_atables(es, ord.skip(i3 + 1), prefix@));
        }
        i3 = i3 + 1;
    }
    proof {
        assert(ord.skip(ord.len() as int) =~= Seq::<int>::empty());
        assert(final(destination)@ =~= old(destination)@ + spec_toml_dict(es, prefix@));
    }
}

/// Writes one element of an array of tables: its plain lines, then its
/// nested objects and arrays of objects under the same dotted prefix, as
/// [`spec_toml_element`] says.
#[verifier::loop_isolation(false)]
#[verifier::rlimit(100)]
fn emit_element(entries: &Vec<(String, Node)>, pfx: &str, destination: &mut Buffer)
    ensures
        final(destination)@ == old(destination)@ + spec_toml_element(
            entries_view(entries@),
            pfx@,
        ),
    decreases entries@, 2int, 0int,
{
    let ghost es = entries_view(entries@);
    let order = sorted_positions(entries);
    let ghost ord = sort_order(es);
    // plain lines, never under a header
    let ghost entry1 = destination@;
    let mut i: usize = 0;
    proof {
        assert(ord.skip(0) =~= ord);
    }
    while i < order.len()
        invariant
            i <= order@.len(),
            es == entries_view(entries@),
            order@.len() == ord.len(),
            forall|p: int|
                0 <= p < order@.len() ==> (#[trigger] order@[p]) < entries@.len()
                    && order@[p] as int == ord[p],
            entry1 + spec_toml_epairs(es, ord, pfx@) == destination@ + spec_toml_epairs(
                es,
                ord.skip(i as int),
                pfx@,
            ),
        decreases order@.len() - i,
    {
        let oi = order[i];
        proof {
            assert(es[oi as int] == (entries@[oi as int].0@, entries@[oi as int].1@));
            assert(ord.skip(i as int).drop_first() =~= ord.skip(i + 1));
            assert(ord.skip(i as int)[0] == ord[i as int]);
        }
        let skip_it: bool = entry_is_table_like(&entries[oi].1);
        if !skip_it {
            let mut first: bool = true;
            stringify_key_value_pair("", destination, &mut first, &entries[oi].0, &entries[oi].1);
            proof {
                reveal_strlit("");
            }
        }
        proof {
            assert(entry1 + spec_toml_epairs(es, ord, pfx@) =~= destination@ + spec_toml_epairs(
                es,
                ord.skip(i + 1),
                pfx@,
            ));
        }
        i = i + 1;
    }
    proof {
        assert(ord.skip(ord.len() as int) =~= Seq::<int>::empty());
    }
    // nested objects and arrays of objects
    let ghost entry2 = destination@;
    let mut i2: usize = 0;
    proof {
        assert(ord.skip(0) =~= ord);
    }
    while i2 < order.len()
        invariant
            i2 <= order@.len(),
            es == entries_view(entries@),
            order@.len() == ord.len(),
            forall|p: int|
                0 <= p < order@.len() ==> (#[trigger] order@[p]) < entries@.len()
                    && order@[p] as int == ord[p],
            entry2 + spec_toml_esubs(es, ord, pfx@) == destination@ + spec_toml_esubs(
                es,
                ord.skip(i2 as int),
                pfx@,
            ),
        decreases order@.len() - i2,
    {
        let oi = order[i2];
        proof {
            assert(es[oi as int] == (entries@[oi as int].0@, entries@[oi as int].1@));
            assert(ord.skip(i2 as int).drop_first() =~= ord.skip(i2 + 1));
            assert(ord.skip(i2 as int)[0] == ord[i2 as int]);
        }
        match &entries[oi].1 {
            Node::Object(sub) => {
                let np = calculate_prefix(pfx, &entries[oi].0);
                proof {
                    assert(decreases_to!(entries@ => entries@[oi as int]));
                    assert(decreases_to!(entries@[oi as int] => entries@[oi as int].1));
                    assert(decreases_to!(entries@[oi as int].1 => *sub));
                    assert(decreases_to!(*sub => sub@));
                }
                emit_dict(sub, np.as_str(), destination);
            },
            Node::Array(items) => {
                if vec_all_objects(items) {
                    let np = calculate_prefix(pfx, &entries[oi].0);
                    let ghost vs = es[oi as int].1->List_0;
                    let ghost entry4 = destination@;
                    let mut j: usize = 0;
                    proof {
                        assert(vs.skip(0) =~= vs);
                    }
                    while j < items.len()
                        invariant
                            j <= items@.len(),
                            vs.len() == items@.len(),
                            np@ == spec_prefix(pfx@, es[oi as int].0),
                            forall|q: int| 0 <= q < items@.len() ==> vs[q] == #[trigger] items@[q]@,
                            entry4 + spec_toml_esub_items(vs, np@) == destination@
                                + spec_toml_esub_items(vs.skip(j as int), np@),
                        decreases items@.len() - j,
                    {
                        proof {
                            assert(vs.skip(j as int).drop_first() =~= vs.skip(j + 1));
                            assert(vs.skip(j as int)[0] == vs[j as int]);
                        }
                        match &items[j] {
                            Node::Object(sub) => {
                                proof {
                                    assert(decreases_to!(entries@ => entries@[oi as int]));
                                    assert(decreases_to!(entries@[oi as int] => entries@[oi as int].1));
                                    assert(decreases_to!(entries@[oi as int].1 => *items));
                                    assert(decreases_to!(*items => items@));
                                    assert(decreases_to!(items@ => items@[j as int]));
                                    assert(decreases_to!(items@[j as int] => *sub));
                                    assert(decreases_to!(*sub => sub@));
                                }
                                emit_dict(sub, np.as_str(), destination);
                                proof {
                                    assert(entry4 + spec_toml_esub_items(vs, np@)
                                        =~= destination@ + spec_toml_esub_items(
                                        vs.skip(j + 1),
                                        np@,
                                    ));
                                }
                            },
                            _ => {
                                proof {
                                    assert(entry4 + spec_toml_esub_items(vs, np@)
                                        =~= destination@ + spec_toml_esub_items(
                                        vs.skip(j + 1),
                                        np@,
                                    ));
                                }
                            },
                        }
                        j = j + 1;
                    }
                    proof {
                        assert(vs.skip(vs.len() as int) =~= Seq::<NodeV>::empty());
                    }
                }
            },
            _ => {
            },
        }
        proof {
            assert(entry2 + spec_toml_esubs(es, ord, pfx@) =~= destination@ + spec_toml_esubs(
                es,
                ord.skip(i2 + 1),
                pfx@,
            ));
        }
        i2 = i2 + 1;
    }
    proof {
        assert(ord.skip(ord.len() as int) =~= Seq::<int>::empty());
        assert(final(destination)@ =~= old(destination)@ + spec_toml_element(es, pfx@));
    }
}

/// Writes the TOML text for the tree under `node`: for an object whose
/// arrays are all homogeneous, exactly [`spec_toml`] of it is appended and
/// the result is `Ok`.  A root that is no object, or a mixed array
/// anywhere the encoding would read, is refused with its message and the
/// destination is left untouched.
pub fn stringify(node: &Node, destination: &mut Buffer) -> (r: Result<(), String>)
    ensures
        spec_toml_valid(node@) ==> r is Ok && final(destination)@ == old(destination)@
            + spec_toml(node@),
        !spec_toml_valid(node@) ==> r is Err && final(destination)@ == old(destination)@,
        !(node@ is Dict) ==> (r matches Err(m) && m@ == ERR_TOML_ROOT@),
        node@ is Dict && !toml_ok_dict(node@->Dict_0) ==> (r matches Err(m) && m@
            == ERR_TOML_MIXED@),
{
    match node {
        Node::Object(entries) => {
            if dict_ok(entries) {
                emit_dict(entries, "", destination);
                proof {
                    reveal_strlit("");
                    assert(""@ =~= Seq::<char>::empty());
                    assert(final(destination)@ =~= old(destination)@ + spec_toml(node@));
                }
                Ok(())
            } else {
                Err(crate::parser::default::msg_string_for(ERR_TOML_MIXED))
            }
        },
        _ => Err(crate::parser::default::msg_string_for(ERR_TOML_ROOT)),
    }
}


/// A mixed array anywhere the encoding would read makes the whole tree
/// invalid: the encoder refuses it rather than emit partial output.
pub proof fn lemma_toml_mixed_array_refused(es: Seq<(Seq<char>, NodeV)>, i: int)
    requires
        0 <= i < es.len(),
        es[i].1 is List,
        !homogeneous(es[i].1->List_0),
    ensures
        !spec_toml_valid(NodeV::Dict(es)),
{
    let items = es[i].1->List_0;
    if all_objects(items) {
        assert forall|p: int| 0 <= p < items.len() implies spec_tag(#[trigger] items[p])
            == spec_tag(items[0]) by {
            assert(items[p] is Dict);
            assert(items[0] is Dict);
        }
        assert(homogeneous(items));
        assert(false);
    }
    assert(!toml_ok_value(es[i].1));
    assert(!toml_ok_entry(es[i].1));
}

} // verus!
