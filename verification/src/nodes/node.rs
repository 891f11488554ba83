use vstd::prelude::*;
use crate::text::is_digit;

verus! {

broadcast use vstd::std_specs::vec::group_vec_axioms;

/// A numeric value stored in a [`Node`].
///
/// Parsing yields only the `Integer` and `Float` variants; the remaining
/// widths are reachable through programmatic construction.  A `Float` holds
/// the decimal literal that denotes the number — such as `42.5` or
/// `1.23e+2` — rather than a binary approximation of it; serializers emit
/// that literal unchanged, and the bencode encoder rounds it to the nearest
/// integer by its decimal digits.
#[derive(Clone, Debug, PartialEq)]
pub enum Numeric {
    /// A 64-bit signed integer.
    Integer(i64),
    /// A number written as a decimal literal; see [`is_float_lit`] for the
    /// well-formed literals.
    Float(String),
    /// A 64-bit unsigned integer.
    UInteger(u64),
    /// An 8-bit unsigned integer.
    Byte(u8),
    /// A 32-bit signed integer.
    Int32(i32),
    /// A 32-bit unsigned integer.
    UInt32(u32),
    /// A 16-bit signed integer.
    Int16(i16),
    /// A 16-bit unsigned integer.
    UInt16(u16),
    /// An 8-bit signed integer.
    Int8(i8),
}

/// A node of a parsed or constructed document tree.
#[derive(Debug, PartialEq)]
pub enum Node {
    /// A boolean value.
    Boolean(bool),
    /// A numeric value of one of the widths of [`Numeric`].
    Number(Numeric),
    /// A string value.
    Str(String),
    /// An ordered sequence of nodes; order is significant and preserved.
    Array(Vec<Node>),
    /// A mapping from string keys to nodes, kept in insertion order.
    /// Parsing never produces two entries with the same key: a later binding
    /// of a key overwrites the earlier one in place.
    Object(Vec<(String, Node)>),
    /// An explicit null value.
    Null,
}

/// The mathematical model of a [`Numeric`].
pub enum NumericV {
    /// Model of [`Numeric::Integer`].
    Integer(int),
    /// Model of [`Numeric::Float`]: the characters of the literal.
    Float(Seq<char>),
    /// Model of [`Numeric::UInteger`].
    UInteger(int),
    /// Model of [`Numeric::Byte`].
    Byte(int),
    /// Model of [`Numeric::Int32`].
    Int32(int),
    /// Model of [`Numeric::UInt32`].
    UInt32(int),
    /// Model of [`Numeric::Int16`].
    Int16(int),
    /// Model of [`Numeric::UInt16`].
    UInt16(int),
    /// Model of [`Numeric::Int8`].
    Int8(int),
}

/// The mathematical model of a [`Node`] tree.
pub enum NodeV {
    /// Model of [`Node::Boolean`].
    Boolean(bool),
    /// Model of [`Node::Number`].
    Number(NumericV),
    /// Model of [`Node::Str`]: the characters of the string.
    Text(Seq<char>),
    /// Model of [`Node::Array`]: the models of the elements, in order.
    List(Seq<NodeV>),
    /// Model of [`Node::Object`]: key/value pairs, in insertion order.
    Dict(Seq<(Seq<char>, NodeV)>),
    /// Model of [`Node::Null`].
    Null,
}

/// The model of a numeric value.
pub open spec fn numeric_view(n: Numeric) -> NumericV {
    match n {
        Numeric::Integer(i) => NumericV::Integer(i as int),
        Numeric::Float(s) => NumericV::Float(s@),
        Numeric::UInteger(u) => NumericV::UInteger(u as int),
        Numeric::Byte(b) => NumericV::Byte(b as int),
        Numeric::Int32(i) => NumericV::Int32(i as int),
        Numeric::UInt32(u) => NumericV::UInt32(u as int),
        Numeric::Int16(i) => NumericV::Int16(i as int),
        Numeric::UInt16(u) => NumericV::UInt16(u as int),
        Numeric::Int8(i) => NumericV::Int8(i as int),
    }
}

/// The model of a node tree.
pub open spec fn node_view(n: Node) -> NodeV
    decreases n,
{
    match n {
        Node::Boolean(b) => NodeV::Boolean(b),
        Node::Number(m) => NodeV::Number(numeric_view(m)),
        Node::Str(s) => NodeV::Text(s@),
        Node::Array(items) => NodeV::List(items_view(items@)),
        Node::Object(entries) => NodeV::Dict(entries_view(entries@)),
        Node::Null => NodeV::Null,
    }
}

/// The models of the elements of an array, in order.
pub open spec fn items_view(items: Seq<Node>) -> Seq<NodeV>
    decreases items,
{
    Seq::new(
        items.len(),
        |i: int|
            if 0 <= i < items.len() {
                node_view(items[i])
            } else {
                NodeV::Null
            },
    )
}

/// The models of the entries of an object, in order.
pub open spec fn entries_view(entries: Seq<(String, Node)>) -> Seq<(Seq<char>, NodeV)>
    decreases entries,
{
    Seq::new(
        entries.len(),
        |i: int|
            if 0 <= i < entries.len() {
                (entries[i].0@, node_view(entries[i].1))
            } else {
                (Seq::empty(), NodeV::Null)
            },
    )
}

impl View for Numeric {
    type V = NumericV;

    open spec fn view(&self) -> NumericV {
        numeric_view(*self)
    }
}

impl View for Node {
    type V = NodeV;

    open spec fn view(&self) -> NodeV {
        node_view(*self)
    }
}

// ---------------------------------------------------------------------------
// Well-formed decimal literals
// ---------------------------------------------------------------------------

/// Whether every character of `s` is a decimal digit.
pub open spec fn all_digits(s: Seq<char>) -> bool {
    forall|i: int| 0 <= i < s.len() ==> is_digit(#[trigger] s[i])
}

/// The index of the first character of `s` that is no decimal digit, or
/// the length of `s` when all are.
pub open spec fn first_nondigit(s: Seq<char>) -> int
    decreases s.len(),
{
    if s.len() == 0 {
        0
    } else if !is_digit(s[0]) {
        0
    } else {
        1 + first_nondigit(s.drop_first())
    }
}

/// The index of the first `e` or `E` in `s`, or the length of `s` when
/// there is none.
pub open spec fn first_e(s: Seq<char>) -> int
    decreases s.len(),
{
    if s.len() == 0 {
        0
    } else if s[0] == 'e' || s[0] == 'E' {
        0
    } else {
        1 + first_e(s.drop_first())
    }
}

/// A well-formed mantissa: decimal digits with at most one point among
/// them, and at least one digit.  The point, if any, stands where the
/// digits first stop.
pub open spec fn mantissa_ok(m: Seq<char>) -> bool {
    let j = first_nondigit(m);
    if j >= m.len() {
        m.len() >= 1
    } else {
        m[j] == '.' && all_digits(m.skip(j + 1)) && m.len() >= 2
    }
}

/// A well-formed exponent part, the text after the `e`: an optional sign,
/// then at least one digit.
pub open spec fn exponent_ok(e: Seq<char>) -> bool {
    let d = if e.len() > 0 && (e[0] == '+' || e[0] == '-') {
        e.drop_first()
    } else {
        e
    };
    d.len() >= 1 && all_digits(d)
}

/// The well-formed decimal literals that a [`Numeric::Float`] may hold:
/// an optional minus sign, a mantissa of digits with at most one point,
/// and an optional exponent introduced by the first `e` or `E`.
pub open spec fn is_float_lit(s: Seq<char>) -> bool {
    let t = if s.len() > 0 && s[0] == '-' {
        s.drop_first()
    } else {
        s
    };
    let k = first_e(t);
    if k >= t.len() {
        mantissa_ok(t)
    } else {
        mantissa_ok(t.take(k)) && exponent_ok(t.skip(k + 1))
    }
}

// ---------------------------------------------------------------------------
// Well-formed trees
// ---------------------------------------------------------------------------

/// Whether the keys of a dictionary are pairwise distinct.
pub open spec fn dict_keys_unique(d: Seq<(Seq<char>, NodeV)>) -> bool {
    forall|i: int, j: int| 0 <= i < j < d.len() ==> (#[trigger] d[i]).0 != (#[trigger] d[j]).0
}

/// Whether a numeric model is well formed: a float holds a well-formed
/// decimal literal.
pub open spec fn numeric_wf(m: NumericV) -> bool {
    match m {
        NumericV::Float(s) => is_float_lit(s),
        _ => true,
    }
}

/// Whether a tree model is well formed: float literals are well formed and
/// dictionary keys are unique, at every level.  The parser only produces
/// well-formed trees.
pub open spec fn node_wf(v: NodeV) -> bool
    decreases v,
{
    match v {
        NodeV::Number(m) => numeric_wf(m),
        NodeV::List(items) => forall|i: int|
            0 <= i < items.len() ==> node_wf(#[trigger] items[i]),
        NodeV::Dict(entries) => dict_keys_unique(entries) && forall|i: int|
            0 <= i < entries.len() ==> node_wf((#[trigger] entries[i]).1),
        _ => true,
    }
}

// ---------------------------------------------------------------------------
// Construction helpers
// ---------------------------------------------------------------------------

impl vstd::std_specs::convert::FromSpecImpl<i64> for Numeric {
    open spec fn obeys_from_spec() -> bool {
        true
    }

    open spec fn from_spec(v: i64) -> Numeric {
        Numeric::Integer(v)
    }
}

impl core::convert::From<i64> for Numeric {
    fn from(v: i64) -> Self {
        Numeric::Integer(v)
    }
}

impl vstd::std_specs::convert::FromSpecImpl<i64> for Node {
    open spec fn obeys_from_spec() -> bool {
        true
    }

    open spec fn from_spec(v: i64) -> Node {
        Node::Number(Numeric::Integer(v))
    }
}

impl core::convert::From<i64> for Node {
    fn from(v: i64) -> Self {
        Node::Number(Numeric::Integer(v))
    }
}

impl vstd::std_specs::convert::FromSpecImpl<u64> for Numeric {
    open spec fn obeys_from_spec() -> bool {
        true
    }

    open spec fn from_spec(v: u64) -> Numeric {
        Numeric::UInteger(v)
    }
}

impl core::convert::From<u64> for Numeric {
    fn from(v: u64) -> Self {
        Numeric::UInteger(v)
    }
}

impl vstd::std_specs::convert::FromSpecImpl<u64> for Node {
    open spec fn obeys_from_spec() -> bool {
        true
    }

    open spec fn from_spec(v: u64) -> Node {
        Node::Number(Numeric::UInteger(v))
    }
}

impl core::convert::From<u64> for Node {
    fn from(v: u64) -> Self {
        Node::Number(Numeric::UInteger(v))
    }
}

impl vstd::std_specs::convert::FromSpecImpl<u8> for Numeric {
    open spec fn obeys_from_spec() -> bool {
        true
    }

    open spec fn from_spec(v: u8) -> Numeric {
        Numeric::Byte(v)
    }
}

impl core::convert::From<u8> for Numeric {
    fn from(v: u8) -> Self {
        Numeric::Byte(v)
    }
}

impl vstd::std_specs::convert::FromSpecImpl<u8> for Node {
    open spec fn obeys_from_spec() -> bool {
        true
    }

    open spec fn from_spec(v: u8) -> Node {
        Node::Number(Numeric::Byte(v))
    }
}

impl core::convert::From<u8> for Node {
    fn from(v: u8) -> Self {
        Node::Number(Numeric::Byte(v))
    }
}

impl vstd::std_specs::convert::FromSpecImpl<i32> for Numeric {
    open spec fn obeys_from_spec() -> bool {
        true
    }

    open spec fn from_spec(v: i32) -> Numeric {
        Numeric::Int32(v)
    }
}

impl core::convert::From<i32> for Numeric {
    fn from(v: i32) -> Self {
        Numeric::Int32(v)
    }
}

impl vstd::std_specs::convert::FromSpecImpl<i32> for Node {
    open spec fn obeys_from_spec() -> bool {
        true
    }

    open spec fn from_spec(v: i32) -> Node {
        Node::Number(Numeric::Int32(v))
    }
}

impl core::convert::From<i32> for Node {
    fn from(v: i32) -> Self {
        Node::Number(Numeric::Int32(v))
    }
}

impl vstd::std_specs::convert::FromSpecImpl<u32> for Numeric {
    open spec fn obeys_from_spec() -> bool {
        true
    }

    open spec fn from_spec(v: u32) -> Numeric {
        Numeric::UInt32(v)
    }
}

impl core::convert::From<u32> for Numeric {
    fn from(v: u32) -> Self {
        Numeric::UInt32(v)
    }
}

impl vstd::std_specs::convert::FromSpecImpl<u32> for Node {
    open spec fn obeys_from_spec() -> bool {
        true
    }

    open spec fn from_spec(v: u32) -> Node {
        Node::Number(Numeric::UInt32(v))
    }
}

impl core::convert::From<u32> for Node {
    fn from(v: u32) -> Self {
        Node::Number(Numeric::UInt32(v))
    }
}

impl vstd::std_specs::convert::FromSpecImpl<i16> for Numeric {
    open spec fn obeys_from_spec() -> bool {
        true
    }

    open spec fn from_spec(v: i16) -> Numeric {
        Numeric::Int16(v)
    }
}

impl core::convert::From<i16> for Numeric {
    fn from(v: i16) -> Self {
        Numeric::Int16(v)
    }
}

impl vstd::std_specs::convert::FromSpecImpl<i16> for Node {
    open spec fn obeys_from_spec() -> bool {
        true
    }

    open spec fn from_spec(v: i16) -> Node {
        Node::Number(Numeric::Int16(v))
    }
}

impl core::convert::From<i16> for Node {
    fn from(v: i16) -> Self {
        Node::Number(Numeric::Int16(v))
    }
}

impl vstd::std_specs::convert::FromSpecImpl<u16> for Numeric {
    open spec fn obeys_from_spec() -> bool {
        true
    }

    open spec fn from_spec(v: u16) -> Numeric {
        Numeric::UInt16(v)
    }
}

impl core::convert::From<u16> for Numeric {
    fn from(v: u16) -> Self {
        Numeric::UInt16(v)
    }
}

impl vstd::std_specs::convert::FromSpecImpl<u16> for Node {
    open spec fn obeys_from_spec() -> bool {
        true
    }

    open spec fn from_spec(v: u16) -> Node {
        Node::Number(Numeric::UInt16(v))
    }
}

impl core::convert::From<u16> for Node {
    fn from(v: u16) -> Self {
        Node::Number(Numeric::UInt16(v))
    }
}

impl vstd::std_specs::convert::FromSpecImpl<i8> for Numeric {
    open spec fn obeys_from_spec() -> bool {
        true
    }

    open spec fn from_spec(v: i8) -> Numeric {
        Numeric::Int8(v)
    }
}

impl core::convert::From<i8> for Numeric {
    fn from(v: i8) -> Self {
        Numeric::Int8(v)
    }
}

impl vstd::std_specs::convert::FromSpecImpl<i8> for Node {
    open spec fn obeys_from_spec() -> bool {
        true
    }

    open spec fn from_spec(v: i8) -> Node {
        Node::Number(Numeric::Int8(v))
    }
}

impl core::convert::From<i8> for Node {
    fn from(v: i8) -> Self {
        Node::Number(Numeric::Int8(v))
    }
}

impl vstd::std_specs::convert::FromSpecImpl<bool> for Node {
    open spec fn obeys_from_spec() -> bool {
        true
    }

    open spec fn from_spec(v: bool) -> Node {
        Node::Boolean(v)
    }
}

impl core::convert::From<bool> for Node {
    fn from(v: bool) -> Self {
        Node::Boolean(v)
    }
}

impl vstd::std_specs::convert::FromSpecImpl<String> for Node {
    open spec fn obeys_from_spec() -> bool {
        true
    }

    open spec fn from_spec(v: String) -> Node {
        Node::Str(v)
    }
}

impl core::convert::From<String> for Node {
    fn from(v: String) -> Self {
        Node::Str(v)
    }
}

impl vstd::std_specs::convert::FromSpecImpl<Vec<Node>> for Node {
    open spec fn obeys_from_spec() -> bool {
        true
    }

    open spec fn from_spec(v: Vec<Node>) -> Node {
        Node::Array(v)
    }
}

impl core::convert::From<Vec<Node>> for Node {
    fn from(v: Vec<Node>) -> Self {
        Node::Array(v)
    }
}

impl vstd::std_specs::convert::FromSpecImpl<Vec<(String, Node)>> for Node {
    open spec fn obeys_from_spec() -> bool {
        true
    }

    open spec fn from_spec(v: Vec<(String, Node)>) -> Node {
        Node::Object(v)
    }
}

impl core::convert::From<Vec<(String, Node)>> for Node {
    fn from(v: Vec<(String, Node)>) -> Self {
        Node::Object(v)
    }
}

/// Makes a node from any value with a conversion into [`Node`].
pub fn make_node<T>(value: T) -> (r: Node) where Node: core::convert::From<T>
    ensures
        <Node as vstd::std_specs::convert::FromSpec<T>>::obeys_from_spec() ==> r == <Node as vstd::std_specs::convert::FromSpec<T>>::from_spec(value),
{
    core::convert::Into::into(value)
}

} // verus!
