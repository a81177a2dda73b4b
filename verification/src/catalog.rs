//! Reading tables of items out of JSON documents.

use crate::json::{as_bits, as_flag, as_int, as_items, as_text, into_members, is_null, member, parse, Tree};
use crate::number::Real;
use serde_json::Value;
use vstd::prelude::*;
use vstd::string::*;

verus! {

/// Whether every character is a decimal digit.
pub open spec fn all_digits(s: Seq<char>) -> bool {
    forall|i: int| 0 <= i < s.len() ==> '0' <= #[trigger] s[i] <= '9'
}

/// The number that decimal digits make.
pub open spec fn digits_number(s: Seq<char>) -> int
    decreases s.len(),
{
    if s.len() == 0 {
        0
    } else {
        10 * digits_number(s.drop_last()) + (s.last() as int - '0' as int)
    }
}

/// A text without the sign in front.
pub open spec fn unsigned_part(s: Seq<char>) -> Seq<char> {
    if s.len() > 0 && (s[0] == '-' || s[0] == '+') {
        s.skip(1)
    } else {
        s
    }
}

/// The number in a text: decimal digits, with a sign in front or without;
/// none where it is not one that an `i64` holds.
pub open spec fn integer_in(s: Seq<char>) -> Option<i64> {
    let body = unsigned_part(s);
    let v = if s.len() > 0 && s[0] == '-' {
        -digits_number(body)
    } else {
        digits_number(body)
    };
    if body.len() > 0 && all_digits(body) && i64::MIN <= v <= i64::MAX {
        Some(v as i64)
    } else {
        None
    }
}

/// The number in a text.
fn read_integer(s: &str) -> (r: Option<i64>)
    ensures
        r == integer_in(s@),
{
    let n: usize = s.unicode_len();
    if n == 0 {
        return None;
    }
    let first: char = s.get_char(0);
    let neg: bool = first == '-';
    let start: usize = if neg || first == '+' {
        1
    } else {
        0
    };
    let ghost body = unsigned_part(s@);
    assert(body =~= s@.skip(start as int));
    if start == n {
        return None;
    }
    let mut v: u128 = 0;
    let mut i: usize = start;
    assert(body.take(0) =~= Seq::<char>::empty());
    while i < n
        invariant
            n == s@.len(),
            start <= i <= n,
            body == unsigned_part(s@),
            body == s@.skip(start as int),
            all_digits(body.take(i - start)),
            digits_number(body.take(i - start)) >= 0,
            v == if digits_number(body.take(i - start)) > 0x1_0000_0000_0000_0000 {
                0x1_0000_0000_0000_0000
            } else {
                digits_number(body.take(i - start))
            },
        decreases n - i,
    {
        let c: char = s.get_char(i);
        assert(body[i - start] == c);
        assert(body.take(i - start + 1).drop_last() =~= body.take(i - start));
        assert(body.take(i - start + 1).last() == c);
        if c < '0' || c > '9' {
            assert(!all_digits(body));
            return None;
        }
        proof {
            let longer = body.take(i - start + 1);
            assert forall|k: int| 0 <= k < longer.len() implies '0' <= #[trigger] longer[k]
                <= '9' by {
                if k < i - start {
                    assert(longer[k] == body.take(i - start)[k]);
                }
            }
        }
        v = v * 10 + (c as u128 - '0' as u128);
        if v > 0x1_0000_0000_0000_0000 {
            v = 0x1_0000_0000_0000_0000;
        }
        i += 1;
    }
    assert(body.take(i - start) =~= body);
    if neg {
        if v <= 0x8000_0000_0000_0000 {
            Some((-(v as i128)) as i64)
        } else {
            None
        }
    } else if v <= 0x7fff_ffff_ffff_ffff {
        Some(v as i64)
    } else {
        None
    }
}

/// Whether the row under a key comes before that under another: by the
/// integers that the keys hold, and by the keys themselves where those are the
/// same.
pub open spec fn key_before(a: Seq<char>, b: Seq<char>) -> bool {
    ||| integer_in(a)->0 < integer_in(b)->0
    ||| integer_in(a)->0 == integer_in(b)->0 && crate::json::precedes(a, b)
}

/// Whether rows are the members of an object by the integers that their keys
/// hold, the least first, and by the keys where those are the same.
pub open spec fn ordered_rows(m: Map<Seq<char>, Tree>, rows: Seq<Tree>) -> bool {
    exists|keys: Seq<Seq<char>>| #[trigger] orders(m, keys, rows)
}

/// Whether rows are the members of an object under keys in their order.
pub open spec fn orders(m: Map<Seq<char>, Tree>, keys: Seq<Seq<char>>, rows: Seq<Tree>) -> bool {
    &&& keys.len() == rows.len()
    &&& forall|k: Seq<char>| #[trigger] m.contains_key(k) <==> keys.contains(k)
    &&& forall|i: int| 0 <= i < keys.len() ==> #[trigger] rows[i] == m[keys[i]]
    &&& forall|i: int| 0 <= i < keys.len() ==> integer_in(#[trigger] keys[i]) is Some
    &&& forall|i: int, j: int|
        0 <= i < j < keys.len() ==> key_before(#[trigger] keys[i], #[trigger] keys[j])
}

/// Of two rows at most one comes before the other.
proof fn lemma_key_before_one_way(a: Seq<char>, b: Seq<char>)
    ensures
        !(key_before(a, b) && key_before(b, a)),
{
    crate::json::lemma_precedes_one_way(a, b);
}

/// The keys of an object have one order.
proof fn lemma_one_order_of_keys(a: Seq<Seq<char>>, b: Seq<Seq<char>>, n: int)
    requires
        forall|k: Seq<char>| #[trigger] a.contains(k) <==> b.contains(k),
        forall|i: int, j: int|
            0 <= i < j < a.len() ==> key_before(#[trigger] a[i], #[trigger] a[j]),
        forall|i: int, j: int|
            0 <= i < j < b.len() ==> key_before(#[trigger] b[i], #[trigger] b[j]),
        0 <= n <= a.len(),
    ensures
        n <= b.len(),
        a.take(n) == b.take(n),
    decreases n,
{
    if n > 0 {
        let p = n - 1;
        lemma_one_order_of_keys(a, b, p);
        assert forall|i: int| 0 <= i < p implies a[i] == b[i] by {
            assert(a.take(p)[i] == b.take(p)[i]);
        }
        let x = a[p];
        assert(a.contains(x));
        let j = choose|j: int| 0 <= j < b.len() && b[j] == x;
        if j < p {
            assert(key_before(a[j], a[p]));
            lemma_key_before_one_way(x, x);
        } else if j > p {
            let y = b[p];
            assert(key_before(b[p], b[j]));
            assert(b.contains(y));
            assert(a.contains(y));
            let i = choose|i: int| 0 <= i < a.len() && a[i] == y;
            if i < p {
                assert(b[i] == y);
                assert(key_before(b[i], b[p]));
                lemma_key_before_one_way(y, y);
            } else if i > p {
                assert(key_before(a[p], a[i]));
                lemma_key_before_one_way(x, y);
            } else {
                lemma_key_before_one_way(x, x);
            }
        }
        assert(a.take(n) =~= b.take(n));
    }
}

/// The rows of an object come in one order.
pub proof fn lemma_one_order_of_rows(m: Map<Seq<char>, Tree>, a: Seq<Tree>, b: Seq<Tree>)
    requires
        ordered_rows(m, a),
        ordered_rows(m, b),
    ensures
        a == b,
{
    let s = choose|keys: Seq<Seq<char>>| #[trigger] orders(m, keys, a);
    let t = choose|keys: Seq<Seq<char>>| #[trigger] orders(m, keys, b);
    assert forall|k: Seq<char>| #[trigger] s.contains(k) <==> t.contains(k) by {
        assert(m.contains_key(k) <==> s.contains(k));
        assert(m.contains_key(k) <==> t.contains(k));
    }
    lemma_one_order_of_keys(s, t, s.len() as int);
    lemma_one_order_of_keys(t, s, t.len() as int);
    assert(s.take(s.len() as int) =~= s);
    assert(t.take(t.len() as int) =~= t);
    assert(a =~= b);
}

/// Whether every key of an object holds an integer.
pub open spec fn keys_count(m: Map<Seq<char>, Tree>) -> bool {
    forall|k: Seq<char>| #[trigger] m.contains_key(k) ==> integer_in(k) is Some
}

/// Whether rows are those of a document; none where it is no object, or where
/// a key holds no integer.
pub open spec fn rows_in(t: Tree, rows: Option<Vec<Value>>) -> bool {
    match t {
        Tree::Object(m) if keys_count(m) => rows matches Some(r) && ordered_rows(
            m,
            crate::json::all_contents(r@),
        ),
        _ => rows is None,
    }
}

/// The rows of a document.
#[must_use]
pub fn rows_of(doc: Value) -> (rows: Option<Vec<Value>>)
    ensures
        rows_in(crate::json::contents(doc), rows),
{
    let ghost tree = crate::json::contents(doc);
    let list: Vec<(String, Value)> = match into_members(doc) {
        Some(list) => list,
        None => {
            return None;
        },
    };
    let ghost all = list@;
    let ghost m = tree->Object_0;
    let mut list = list;
    let mut rows: Vec<Value> = Vec::new();
    let mut numbers: Vec<i64> = Vec::new();
    let ghost mut keys: Seq<Seq<char>> = Seq::empty();
    let ghost mut left: int = all.len() as int;
    while list.len() > 0
        invariant
            tree == crate::json::contents(doc),
            tree == Tree::Object(m),
            crate::json::lists(all, m),
            left == list@.len(),
            list@ == all.take(left),
            0 <= left <= all.len(),
            keys.len() == rows@.len(),
            numbers@.len() == rows@.len(),
            forall|i: int|
                0 <= i < keys.len() ==> m.contains_key(#[trigger] keys[i])
                    && crate::json::contents(rows@[i]) == m[keys[i]] && integer_in(keys[i])
                    == Some(numbers@[i]),
            forall|i: int, j: int|
                0 <= i < j < keys.len() ==> #[trigger] numbers@[i] <= #[trigger] numbers@[j],
            forall|i: int, j: int|
                0 <= i < j < keys.len() ==> key_before(#[trigger] keys[i], #[trigger] keys[j]),
            forall|i: int|
                left <= i < all.len() ==> keys.contains((#[trigger] all[i]).0@),
            forall|i: int, j: int|
                0 <= i < keys.len() && 0 <= j < left ==> crate::json::precedes(
                    (#[trigger] all[j]).0@,
                    #[trigger] keys[i],
                ),
        decreases list@.len(),
    {
        let ghost was = keys;
        let (key, value) = match list.pop() {
            Some(entry) => entry,
            None => {
                return None;
            },
        };
        proof {
            left = left - 1;
            assert(all[left] == (key, value));
            assert(list@ =~= all.take(left));
            assert(m.contains_key(all[left].0@));
        }
        let number: i64 = match read_integer(key.as_str()) {
            Some(n) => n,
            None => {
                assert(!keys_count(m));
                return None;
            },
        };
        let mut at: usize = rows.len();
        let ghost old_numbers = numbers@;
        while at > 0 && numbers[at - 1] >= number
            invariant
                at <= rows@.len(),
                numbers@ == old_numbers,
                numbers@.len() == rows@.len(),
                forall|i: int| at <= i < rows@.len() ==> #[trigger] numbers@[i] >= number,
            decreases at,
        {
            at -= 1;
        }
        rows.insert(at, value);
        numbers.insert(at, number);
        proof {
            keys = was.insert(at as int, key@);
            assert forall|i: int| 0 <= i < keys.len() implies m.contains_key(#[trigger] keys[i])
                && crate::json::contents(rows@[i]) == m[keys[i]] && integer_in(keys[i])
                == Some(numbers@[i]) by {
                if i < at {
                    assert(keys[i] == was[i]);
                } else if i > at {
                    assert(keys[i] == was[i - 1]);
                }
            }
            assert forall|i: int|
                left <= i < all.len() implies keys.contains((#[trigger] all[i]).0@) by {
                if i == left {
                    assert(keys[at as int] == key@);
                } else {
                    let p = choose|p: int| 0 <= p < was.len() && was[p] == all[i].0@;
                    if p < at {
                        assert(keys[p] == was[p]);
                    } else {
                        assert(keys[p + 1] == was[p]);
                    }
                }
            }
            assert forall|i: int, j: int| 0 <= i < keys.len() && 0 <= j < left implies
                crate::json::precedes((#[trigger] all[j]).0@, #[trigger] keys[i]) by {
                if i < at {
                    assert(keys[i] == was[i]);
                } else if i > at {
                    assert(keys[i] == was[i - 1]);
                } else {
                    assert(crate::json::precedes(all[j].0@, all[left].0@));
                }
            }
            assert forall|i: int, j: int| 0 <= i < j < keys.len() implies key_before(
                #[trigger] keys[i],
                #[trigger] keys[j],
            ) by {
                if i == at {
                    assert(keys[j] == was[j - 1]);
                    assert(crate::json::precedes(all[left].0@, was[j - 1]));
                    assert(old_numbers[j - 1] >= number);
                    assert(integer_in(was[j - 1]) == Some(old_numbers[j - 1]));
                } else if j == at {
                    assert(keys[i] == was[i]);
                    assert(old_numbers[i] <= old_numbers[at - 1]);
                    assert(integer_in(was[i]) == Some(old_numbers[i]));
                } else {
                    let p = if i < at {
                        i
                    } else {
                        i - 1
                    };
                    let q = if j < at {
                        j
                    } else {
                        j - 1
                    };
                    assert(key_before(was[p], was[q]));
                }
            }
        }
    }
    proof {
        let found = crate::json::all_contents(rows@);
        assert forall|k: Seq<char>| #[trigger] m.contains_key(k) <==> keys.contains(k) by {
            if m.contains_key(k) {
                let i = choose|i: int| 0 <= i < all.len() && (#[trigger] all[i]).0@ == k;
                assert(keys.contains(all[i].0@));
            }
            if keys.contains(k) {
                let p = choose|p: int| 0 <= p < keys.len() && keys[p] == k;
                assert(m.contains_key(keys[p]));
            }
        }
        assert forall|k: Seq<char>| #[trigger] m.contains_key(k) implies integer_in(k) is Some by {
            let p = choose|p: int| 0 <= p < keys.len() && keys[p] == k;
            assert(m.contains_key(keys[p]));
        }
        assert(orders(m, keys, found));
    }
    Some(rows)
}

/// The rows of a table in JSON, by the integers that their keys hold; none
/// where the text is no JSON object with such keys.
#[must_use]
pub fn rows(json: &str) -> (rows: Option<Vec<Value>>)
    ensures
        match crate::json::parsed(json@) {
            Some(t) => rows_in(t, rows),
            None => rows is None,
        },
{
    match parse(json) {
        Some(doc) => rows_of(doc),
        None => None,
    }
}

/// The integer of a member; without its fraction where it has one, 0 where it
/// is no number, and a default where the member is not there or null.
pub open spec fn int_in(t: Option<Tree>, default: i64, r: i64) -> bool {
    match t {
        None => r == default,
        Some(Tree::Null) => r == default,
        Some(Tree::Int(n)) => r == if i64::MIN <= n <= i64::MAX {
            n
        } else {
            crate::number::saturate64(crate::number::spec_int(n).spec_trunc())
        },
        Some(Tree::Double(b)) => crate::number::double_at(b) matches Some(d) && r
            == crate::number::saturate64(d.spec_trunc()),
        Some(_) => r == 0,
    }
}

/// The integer of a member.
#[must_use]
pub fn int_field(entry: &Value, field: &str, default: i64) -> (r: i64)
    ensures
        int_in(crate::json::member_of(crate::json::contents(*entry), field@), default, r),
{
    match member(entry, field) {
        None => default,
        Some(v) => {
            if is_null(v) {
                return default;
            }
            match as_int(v) {
                Some(n) => n,
                None => match as_bits(v) {
                    Some(b) => match Real::from_bits(b) {
                        Some(d) => d.trunc_i64(),
                        None => 0,
                    },
                    None => 0,
                },
            }
        },
    }
}

/// The integer of a member as an `i32`; 0 where it is none.
#[must_use]
pub fn int32(entry: &Value, field: &str, default: i64) -> (r: i32)
    ensures
        exists|n: i64| #[trigger]
            int_in(crate::json::member_of(crate::json::contents(*entry), field@), default, n)
                && r == if i32::MIN <= n <= i32::MAX {
                n
            } else {
                0
            },
{
    let n: i64 = int_field(entry, field, default);
    if n >= -0x8000_0000 && n <= 0x7fff_ffff {
        n as i32
    } else {
        0
    }
}

/// The number of a member; 0 where it is none.
pub open spec fn num_in(t: Option<Tree>, r: Real) -> bool {
    match t {
        Some(Tree::Int(n)) => r == crate::number::spec_int(n),
        Some(Tree::Double(b)) => crate::number::double_at(b) == Some(r),
        _ => r.mant == 0,
    }
}

/// The number of a member.
#[must_use]
pub fn num(entry: &Value, field: &str) -> (r: Real)
    ensures
        num_in(crate::json::member_of(crate::json::contents(*entry), field@), r),
        r.within(1200),
{
    match member(entry, field) {
        None => Real::zero(),
        Some(v) => match as_bits(v) {
            Some(b) => match Real::from_bits(b) {
                Some(d) => d,
                None => Real::zero(),
            },
            None => Real::zero(),
        },
    }
}

/// The truth of a member: a boolean, or an integer other than 0; a default
/// where the member is not there.
pub open spec fn flag_in(t: Option<Tree>, default: bool) -> bool {
    match t {
        None => default,
        Some(v) => match crate::json::bool_of(v) {
            Some(b) => b,
            None => crate::json::int_of(v) matches Some(n) && n != 0,
        },
    }
}

/// The truth of a member.
#[must_use]
pub fn flag(entry: &Value, field: &str, default: bool) -> (r: bool)
    ensures
        r == flag_in(crate::json::member_of(crate::json::contents(*entry), field@), default),
{
    match member(entry, field) {
        None => default,
        Some(v) => match as_flag(v) {
            Some(b) => b,
            None => match as_int(v) {
                Some(n) => n != 0,
                None => false,
            },
        },
    }
}

/// The text of a member; an empty one where it has none.
pub open spec fn text_in(t: Option<Tree>) -> Seq<char> {
    match t {
        Some(Tree::Str(s)) => s,
        _ => Seq::empty(),
    }
}

/// The text of a member.
#[must_use]
pub fn text(entry: &Value, field: &str) -> (s: String)
    ensures
        s@ == text_in(crate::json::member_of(crate::json::contents(*entry), field@)),
{
    if let Some(v) = member(entry, field) {
        if let Some(s) = as_text(v) {
            return String::from_str(s);
        }
    }
    let s: String = String::new();
    assert(s@ =~= Seq::<char>::empty());
    s
}

/// The items of a member; none where it has none.
pub open spec fn entries_in(t: Option<Tree>) -> Seq<Tree> {
    match t {
        Some(Tree::Array(items)) => items,
        _ => Seq::empty(),
    }
}

/// The items of a member, copied.
#[must_use]
pub fn entries(entry: &Value, field: &str) -> (items: Vec<Value>)
    ensures
        crate::json::all_contents(items@) == entries_in(
            crate::json::member_of(crate::json::contents(*entry), field@),
        ),
{
    let mut items: Vec<Value> = crate::json::no_items();
    if let Some(v) = member(entry, field) {
        if let Some(list) = as_items(v) {
            let mut i: usize = 0;
            let ghost all = crate::json::all_contents(list@);
            assert(all.take(0) =~= Seq::<Tree>::empty());
            while i < list.len()
                invariant
                    i <= list@.len(),
                    all == crate::json::all_contents(list@),
                    crate::json::all_contents(items@) == all.take(i as int),
                decreases list.len() - i,
            {
                crate::json::push_item(&mut items, crate::json::copy(&list[i]));
                assert(all.take(i + 1) =~= all.take(i as int).push(all[i as int]));
                i += 1;
            }
            assert(all.take(i as int) =~= all);
        }
    }
    items
}

/// The integers among items that an `i32` holds.
pub open spec fn small_ints(items: Seq<Tree>) -> Seq<i32>
    decreases items.len(),
{
    if items.len() == 0 {
        Seq::empty()
    } else {
        let before = small_ints(items.drop_last());
        match items.last() {
            Tree::Int(n) => if i32::MIN <= n <= i32::MAX {
                before.push(n as i32)
            } else {
                before
            },
            _ => before,
        }
    }
}

/// An integer that an `i32` holds.
fn small_int(v: &Value) -> (r: Option<i32>)
    ensures
        match crate::json::contents(*v) {
            Tree::Int(n) if i32::MIN <= n <= i32::MAX => r == Some(n as i32),
            _ => r is None,
        },
{
    match as_int(v) {
        Some(n) => {
            if n >= -0x8000_0000 && n <= 0x7fff_ffff {
                Some(n as i32)
            } else {
                None
            }
        },
        None => None,
    }
}

/// The integers among the items of a member, in their order.
#[must_use]
pub fn int_list(entry: &Value, field: &str) -> (list: Vec<i32>)
    ensures
        list@ == small_ints(
            entries_in(crate::json::member_of(crate::json::contents(*entry), field@)),
        ),
{
    let mut list: Vec<i32> = Vec::new();
    if let Some(v) = member(entry, field) {
        if let Some(items) = as_items(v) {
            let mut i: usize = 0;
            let ghost all = crate::json::all_contents(items@);
            assert(all.take(0) =~= Seq::<Tree>::empty());
            while i < items.len()
                invariant
                    i <= items@.len(),
                    all == crate::json::all_contents(items@),
                    list@ == small_ints(all.take(i as int)),
                decreases items.len() - i,
            {
                assert(all.take(i + 1).drop_last() =~= all.take(i as int));
                if let Some(n) = small_int(&items[i]) {
                    list.push(n);
                }
                i += 1;
            }
            assert(all.take(i as int) =~= all);
        }
    }
    list
}

/// An item as an `i32`; 0 where it is none.
pub open spec fn end_at(items: Seq<Tree>, i: int) -> i32 {
    match items[i] {
        Tree::Int(n) => if i32::MIN <= n <= i32::MAX {
            n as i32
        } else {
            0
        },
        _ => 0,
    }
}

/// The range of a characteristic: the first two items of a list; 0 to 0 where
/// there is no such list.
pub open spec fn range_in(t: Option<Tree>) -> (i32, i32) {
    match t {
        Some(Tree::Array(items)) if items.len() >= 2 => (end_at(items, 0), end_at(items, 1)),
        _ => (0, 0),
    }
}

/// A characteristic of an entry.
pub open spec fn characteristic(t: Tree, stat: Seq<char>) -> Option<Tree> {
    match crate::json::member_of(t, "characteristics"@) {
        Some(c) => crate::json::member_of(c, stat),
        None => None,
    }
}

/// The range of a characteristic of a summoned fighter.
#[must_use]
pub fn range(entry: &Value, stat: &str) -> (r: (i32, i32))
    ensures
        r == range_in(characteristic(crate::json::contents(*entry), stat@)),
{
    if let Some(c) = member(entry, "characteristics") {
        if let Some(v) = member(c, stat) {
            if let Some(items) = as_items(v) {
                let ghost all = crate::json::all_contents(items@);
                if items.len() >= 2 {
                    assert(all[0] == crate::json::contents(items@[0]));
                    assert(all[1] == crate::json::contents(items@[1]));
                    let low: i32 = match small_int(&items[0]) {
                        Some(n) => n,
                        None => 0,
                    };
                    let high: i32 = match small_int(&items[1]) {
                        Some(n) => n,
                        None => 0,
                    };
                    return (low, high);
                }
            }
        }
    }
    (0, 0)
}

} // verus!
