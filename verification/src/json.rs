//! JSON documents, as the fight report is made of.

use vstd::prelude::*;
use vstd::string::*;

verus! {

/// The contents of a JSON document.
pub enum Tree {
    Null,
    Bool(bool),
    /// An integer of 64 bits.
    Int(int),
    /// Another number, by the bits of the finite double that it is.
    Double(u64),
    Str(Seq<char>),
    Array(Seq<Tree>),
    Object(Map<Seq<char>, Tree>),
}

/// An array of integers.
pub open spec fn row(numbers: Seq<int>) -> Tree {
    Tree::Array(numbers.map_values(|n: int| Tree::Int(n)))
}

/// An object without members.
pub open spec fn no_entries() -> Map<Seq<char>, Tree> {
    Map::empty()
}

/// The contents of the documents of a list.
pub open spec fn all_contents(items: Seq<serde_json::Value>) -> Seq<Tree> {
    items.map_values(|v: serde_json::Value| contents(v))
}

/// A document of the `serde_json` crate.
#[verifier::external_type_specification]
#[verifier::external_body]
pub struct ExValue(serde_json::Value);

/// The members of an object of the `serde_json` crate.
#[verifier::external_type_specification]
#[verifier::external_body]
#[verifier::reject_recursive_types(K)]
#[verifier::reject_recursive_types(V)]
pub struct ExMembers<K, V>(serde_json::Map<K, V>);

/// What a document holds.
pub uninterp spec fn contents(v: serde_json::Value) -> Tree;

/// What the members of an object hold, by their keys.
pub uninterp spec fn members(m: serde_json::Map<String, serde_json::Value>) -> Map<Seq<char>, Tree>;

/// Wraps `serde_json::Value::from` for an `i64`: a number that holds exactly
/// that integer.
#[verifier::external_body]
pub(crate) fn number(i: i64) -> (v: serde_json::Value)
    ensures
        contents(v) == Tree::Int(i as int),
{
    serde_json::Value::from(i)
}

/// Wraps `serde_json::Value::from` for a `usize`: a number that holds exactly
/// that integer.
#[verifier::external_body]
pub(crate) fn index(i: usize) -> (v: serde_json::Value)
    ensures
        contents(v) == Tree::Int(i as int),
{
    serde_json::Value::from(i)
}

/// Wraps `serde_json::Value::Bool`: the boolean itself.
#[verifier::external_body]
pub(crate) fn flag(b: bool) -> (v: serde_json::Value)
    ensures
        contents(v) == Tree::Bool(b),
{
    serde_json::Value::Bool(b)
}

/// Wraps `serde_json::Value::Null`: the null document.
#[verifier::external_body]
pub(crate) fn null() -> (v: serde_json::Value)
    ensures
        contents(v) == Tree::Null,
{
    serde_json::Value::Null
}

/// Wraps `serde_json::Value::String`: a string of the same characters.
#[verifier::external_body]
pub(crate) fn text(s: String) -> (v: serde_json::Value)
    ensures
        contents(v) == Tree::Str(s@),
{
    serde_json::Value::String(s)
}

/// Wraps `serde_json::Value::Array`: an array of the given documents, in
/// their order.
#[verifier::external_body]
pub(crate) fn array(items: Vec<serde_json::Value>) -> (v: serde_json::Value)
    ensures
        contents(v) == Tree::Array(all_contents(items@)),
{
    serde_json::Value::Array(items)
}

/// Wraps `serde_json::Value::Object`: an object with the given members.
#[verifier::external_body]
pub(crate) fn object(m: serde_json::Map<String, serde_json::Value>) -> (v: serde_json::Value)
    ensures
        contents(v) == Tree::Object(members(m)),
{
    serde_json::Value::Object(m)
}

/// Wraps `serde_json::Map::new`: no members.
#[verifier::external_body]
pub(crate) fn no_members() -> (m: serde_json::Map<String, serde_json::Value>)
    ensures
        members(m) == no_entries(),
{
    serde_json::Map::new()
}

/// Wraps `serde_json::Map::insert`: the key holds the document afterwards, and
/// the other keys what they held before.
#[verifier::external_body]
pub(crate) fn set_member(
    m: &mut serde_json::Map<String, serde_json::Value>,
    key: String,
    v: serde_json::Value,
)
    ensures
        members(*final(m)) == members(*old(m)).insert(key@, contents(v)),
{
    let _ = m.insert(key, v);
}

/// Wraps `serde_json::Value::clone`: a document with the same contents.
#[verifier::external_body]
pub(crate) fn copy(v: &serde_json::Value) -> (r: serde_json::Value)
    ensures
        contents(r) == contents(*v),
{
    v.clone()
}

/// Wraps `serde_json::Map::clone`: the same members.
#[verifier::external_body]
pub(crate) fn copy_members(m: &serde_json::Map<String, serde_json::Value>) -> (r: serde_json::Map<
    String,
    serde_json::Value,
>)
    ensures
        members(r) == members(*m),
{
    m.clone()
}

/// Adds a member under a key.
pub(crate) fn put(
    m: &mut serde_json::Map<String, serde_json::Value>,
    key: &str,
    v: serde_json::Value,
)
    ensures
        members(*final(m)) == members(*old(m)).insert(key@, contents(v)),
{
    set_member(m, String::from_str(key), v);
}

/// No items yet.
pub(crate) fn no_items() -> (items: Vec<serde_json::Value>)
    ensures
        all_contents(items@) == Seq::<Tree>::empty(),
{
    let items: Vec<serde_json::Value> = Vec::new();
    assert(all_contents(items@) =~= Seq::<Tree>::empty());
    items
}

/// Appends a number to the items of an array.
pub(crate) fn push_number(items: &mut Vec<serde_json::Value>, i: i64)
    ensures
        all_contents(final(items)@) == all_contents(old(items)@).push(Tree::Int(i as int)),
{
    items.push(number(i));
    assert(all_contents(items@) =~= all_contents(old(items)@).push(Tree::Int(i as int)));
}

/// Appends a document to the items of an array.
pub(crate) fn push_item(items: &mut Vec<serde_json::Value>, v: serde_json::Value)
    ensures
        all_contents(final(items)@) == all_contents(old(items)@).push(contents(v)),
{
    items.push(v);
    assert(all_contents(items@) =~= all_contents(old(items)@).push(contents(v)));
}

/// An array of integers.
pub(crate) fn numbers(list: &Vec<i64>) -> (v: serde_json::Value)
    ensures
        contents(v) =~~= row(list@.map_values(|n: i64| n as int)),
{
    let mut items: Vec<serde_json::Value> = no_items();
    let mut i: usize = 0;
    while i < list.len()
        invariant
            i <= list@.len(),
            all_contents(items@) == list@.take(i as int).map_values(
                |n: i64| Tree::Int(n as int),
            ),
        decreases list.len() - i,
    {
        push_number(&mut items, list[i]);
        assert(all_contents(items@) =~= list@.take(i + 1).map_values(|n: i64| Tree::Int(n as int)));
        i += 1;
    }
    assert(all_contents(items@) =~= list@.map_values(|n: i64| n as int).map_values(
        |n: int| Tree::Int(n),
    ));
    array(items)
}

/// An array of one integer.
pub(crate) fn row1(a: i64) -> (v: serde_json::Value)
    ensures
        contents(v) == row(seq![a as int]),
{
    let list: Vec<i64> = vec![a];
    assert(list@.map_values(|n: i64| n as int) =~= seq![a as int]);
    numbers(&list)
}

/// An array of two integers.
pub(crate) fn row2(a: i64, b: i64) -> (v: serde_json::Value)
    ensures
        contents(v) == row(seq![a as int, b as int]),
{
    let list: Vec<i64> = vec![a, b];
    assert(list@.map_values(|n: i64| n as int) =~= seq![a as int, b as int]);
    numbers(&list)
}

/// An array of three integers.
pub(crate) fn row3(a: i64, b: i64, c: i64) -> (v: serde_json::Value)
    ensures
        contents(v) == row(seq![a as int, b as int, c as int]),
{
    let list: Vec<i64> = vec![a, b, c];
    assert(list@.map_values(|n: i64| n as int) =~= seq![a as int, b as int, c as int]);
    numbers(&list)
}

/// An array of four integers.
pub(crate) fn row4(a: i64, b: i64, c: i64, d: i64) -> (v: serde_json::Value)
    ensures
        contents(v) == row(seq![a as int, b as int, c as int, d as int]),
{
    let list: Vec<i64> = vec![a, b, c, d];
    assert(list@.map_values(|n: i64| n as int) =~= seq![a as int, b as int, c as int, d as int]);
    numbers(&list)
}

/// An array of five integers.
pub(crate) fn row5(a: i64, b: i64, c: i64, d: i64, e: i64) -> (v: serde_json::Value)
    ensures
        contents(v) == row(seq![a as int, b as int, c as int, d as int, e as int]),
{
    let list: Vec<i64> = vec![a, b, c, d, e];
    assert(list@.map_values(|n: i64| n as int) =~= seq![a as int, b as int, c as int, d as int, e as int]);
    numbers(&list)
}

/// An array of six integers.
pub(crate) fn row6(a: i64, b: i64, c: i64, d: i64, e: i64, f: i64) -> (v: serde_json::Value)
    ensures
        contents(v) == row(seq![a as int, b as int, c as int, d as int, e as int, f as int]),
{
    let list: Vec<i64> = vec![a, b, c, d, e, f];
    assert(list@.map_values(|n: i64| n as int) =~= seq![a as int, b as int, c as int, d as int, e as int, f as int]);
    numbers(&list)
}

/// An array of two documents.
pub(crate) fn array2(
    a: serde_json::Value,
    b: serde_json::Value,
) -> (v: serde_json::Value)
    ensures
        contents(v) == Tree::Array(seq![contents(a), contents(b)]),
{
    let items: Vec<serde_json::Value> = vec![a, b];
    assert(all_contents(items@) =~= seq![contents(a), contents(b)]);
    array(items)
}

/// An array of three documents.
pub(crate) fn array3(
    a: serde_json::Value,
    b: serde_json::Value,
    c: serde_json::Value,
) -> (v: serde_json::Value)
    ensures
        contents(v) == Tree::Array(seq![contents(a), contents(b), contents(c)]),
{
    let items: Vec<serde_json::Value> = vec![a, b, c];
    assert(all_contents(items@) =~= seq![contents(a), contents(b), contents(c)]);
    array(items)
}

/// An array of four documents.
pub(crate) fn array4(
    a: serde_json::Value,
    b: serde_json::Value,
    c: serde_json::Value,
    d: serde_json::Value,
) -> (v: serde_json::Value)
    ensures
        contents(v) == Tree::Array(seq![contents(a), contents(b), contents(c), contents(d)]),
{
    let items: Vec<serde_json::Value> = vec![a, b, c, d];
    assert(all_contents(items@) =~= seq![contents(a), contents(b), contents(c), contents(d)]);
    array(items)
}

/// What a JSON text holds; none where it is not one.
pub uninterp spec fn parsed(text: Seq<char>) -> Option<Tree>;

/// What a document holds, where there is one.
pub open spec fn some_contents(v: Option<serde_json::Value>) -> Option<Tree> {
    match v {
        Some(d) => Some(contents(d)),
        None => None,
    }
}

/// What the member of an object under a key holds; none for another document
/// and for a key that is not there.
pub open spec fn member_of(t: Tree, key: Seq<char>) -> Option<Tree> {
    match t {
        Tree::Object(m) => if m.contains_key(key) {
            Some(m[key])
        } else {
            None
        },
        _ => None,
    }
}

/// The number of a document as an `i64`; none for another document and for
/// another number.
pub open spec fn int_of(t: Tree) -> Option<i64> {
    match t {
        Tree::Int(n) => if i64::MIN <= n <= i64::MAX {
            Some(n as i64)
        } else {
            None
        },
        _ => None,
    }
}

/// Whether some bits are those of the double of a document: of the double
/// itself, or of the one nearest to an integer.
pub open spec fn double_of(t: Tree, bits: Option<u64>) -> bool {
    match t {
        Tree::Int(n) => bits matches Some(b) && crate::number::double_at(b) == Some(
            crate::number::spec_int(n),
        ),
        Tree::Double(b) => bits == Some(b) && crate::number::double_at(b) is Some,
        _ => bits is None,
    }
}

/// The boolean of a document; none for another document.
pub open spec fn bool_of(t: Tree) -> Option<bool> {
    match t {
        Tree::Bool(b) => Some(b),
        _ => None,
    }
}

/// The text of a document; none for another document.
pub open spec fn text_of(t: Tree) -> Option<Seq<char>> {
    match t {
        Tree::Str(s) => Some(s),
        _ => None,
    }
}

/// The items of a document; none for another document.
pub open spec fn items_of(t: Tree) -> Option<Seq<Tree>> {
    match t {
        Tree::Array(items) => Some(items),
        _ => None,
    }
}

/// Whether a text comes before another: by the first character in which they
/// differ, or as its beginning.
pub open spec fn precedes(a: Seq<char>, b: Seq<char>) -> bool
    decreases a.len(),
{
    if b.len() == 0 {
        false
    } else if a.len() == 0 {
        true
    } else if a[0] != b[0] {
        (a[0] as int) < (b[0] as int)
    } else {
        precedes(a.skip(1), b.skip(1))
    }
}

/// Of two texts at most one comes before the other.
pub proof fn lemma_precedes_one_way(a: Seq<char>, b: Seq<char>)
    ensures
        !(precedes(a, b) && precedes(b, a)),
    decreases a.len(),
{
    if a.len() > 0 && b.len() > 0 {
        lemma_precedes_one_way(a.skip(1), b.skip(1));
    }
}

/// Whether a list is that of the members of an object, each once, by their
/// keys.
pub open spec fn lists(
    list: Seq<(String, serde_json::Value)>,
    m: Map<Seq<char>, Tree>,
) -> bool {
    &&& forall|i: int|
        0 <= i < list.len() ==> m.contains_key((#[trigger] list[i]).0@) && m[list[i].0@]
            == contents(list[i].1)
    &&& forall|i: int, j: int|
        0 <= i < j < list.len() ==> precedes((#[trigger] list[i]).0@, (#[trigger] list[j]).0@)
    &&& forall|k: Seq<char>| #[trigger]
        m.contains_key(k) ==> exists|i: int| 0 <= i < list.len() && (#[trigger] list[i]).0@ == k
}

/// Whether a list is that of the members of a document; none for a document
/// that is no object.
pub open spec fn listed(t: Tree, list: Option<Vec<(String, serde_json::Value)>>) -> bool {
    match t {
        Tree::Object(m) => list matches Some(l) && lists(l@, m),
        _ => list is None,
    }
}

/// What the document behind a reference holds, where there is one.
pub open spec fn held(v: Option<&serde_json::Value>) -> Option<Tree> {
    match v {
        Some(d) => Some(contents(*d)),
        None => None,
    }
}

/// The characters of a text, where there is one.
pub open spec fn chars_of(s: Option<&str>) -> Option<Seq<char>> {
    match s {
        Some(t) => Some(t@),
        None => None,
    }
}

/// What the documents of a list hold, where there is one.
pub open spec fn all_held(v: Option<&Vec<serde_json::Value>>) -> Option<Seq<Tree>> {
    match v {
        Some(list) => Some(all_contents(list@)),
        None => None,
    }
}

/// Wraps `serde_json::from_str` for a document: it is named what it makes of
/// a text, which depends on the text alone.
#[verifier::external_body]
pub(crate) fn parse(text: &str) -> (v: Option<serde_json::Value>)
    ensures
        some_contents(v) == parsed(text@),
{
    serde_json::from_str(text).ok()
}

/// Wraps the iteration over a `serde_json::Map`: every member of an object
/// comes once. The map is a `BTreeMap` over the keys, as it is unless the
/// crate is told to keep the order of the text, so that the keys come in the
/// order of `String`, which is that of their code points.
#[verifier::external_body]
pub(crate) fn into_members(v: serde_json::Value) -> (list: Option<Vec<(String, serde_json::Value)>>)
    ensures
        listed(contents(v), list),
{
    match v {
        serde_json::Value::Object(m) => Some(m.into_iter().collect()),
        _ => None,
    }
}

/// Wraps `serde_json::Value::get` with a text: the member of an object under
/// that key.
#[verifier::external_body]
pub(crate) fn member<'a>(v: &'a serde_json::Value, key: &str) -> (r: Option<&'a serde_json::Value>)
    ensures
        held(r) == member_of(contents(*v), key@),
{
    v.get(key)
}

/// Wraps `serde_json::Value::is_null`.
#[verifier::external_body]
pub(crate) fn is_null(v: &serde_json::Value) -> (b: bool)
    ensures
        b == (contents(*v) is Null),
{
    v.is_null()
}

/// Wraps `serde_json::Value::as_i64`: an integer that an `i64` holds.
#[verifier::external_body]
pub(crate) fn as_int(v: &serde_json::Value) -> (r: Option<i64>)
    ensures
        r == int_of(contents(*v)),
{
    v.as_i64()
}

/// Wraps `serde_json::Value::as_f64`: the bits of the double of a number. An
/// integer is converted, which rounds to the nearest double.
#[verifier::external_body]
pub(crate) fn as_bits(v: &serde_json::Value) -> (r: Option<u64>)
    ensures
        double_of(contents(*v), r),
{
    v.as_f64().map(|x| x.to_bits())
}

/// Wraps `serde_json::Value::as_bool`.
#[verifier::external_body]
pub(crate) fn as_flag(v: &serde_json::Value) -> (r: Option<bool>)
    ensures
        r == bool_of(contents(*v)),
{
    v.as_bool()
}

/// Wraps `serde_json::Value::as_str`.
#[verifier::external_body]
pub(crate) fn as_text(v: &serde_json::Value) -> (r: Option<&str>)
    ensures
        chars_of(r) == text_of(contents(*v)),
{
    v.as_str()
}

/// Wraps `serde_json::Value::as_array`: the items, in their order.
#[verifier::external_body]
pub(crate) fn as_items(v: &serde_json::Value) -> (r: Option<&Vec<serde_json::Value>>)
    ensures
        all_held(r) == items_of(contents(*v)),
{
    v.as_array()
}

} // verus!
