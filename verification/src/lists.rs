//! Lists of indices.

use vstd::prelude::*;

verus! {

/// The list without any occurrence of `x`.
pub open spec fn without(s: Seq<usize>, x: usize) -> Seq<usize>
    decreases s.len(),
{
    if s.len() == 0 {
        s
    } else if s.last() == x {
        without(s.drop_last(), x)
    } else {
        without(s.drop_last(), x).push(s.last())
    }
}

/// Where `x` stands first in the list.
pub open spec fn place(s: Seq<usize>, x: usize) -> Option<int>
    decreases s.len(),
{
    if s.len() == 0 {
        None
    } else {
        match place(s.drop_last(), x) {
            Some(i) => Some(i),
            None => if s.last() == x {
                Some(s.len() - 1)
            } else {
                None
            },
        }
    }
}

/// What remains of a list is what was in it, but for `x`.
pub proof fn lemma_without(s: Seq<usize>, x: usize)
    ensures
        !without(s, x).contains(x),
        forall|y: usize| y != x ==> (#[trigger] without(s, x).contains(y) <==> s.contains(y)),
        without(s, x).len() <= s.len(),
        without(s, x).len() == s.len() ==> without(s, x) == s,
        s.contains(x) ==> without(s, x).len() < s.len(),
    decreases s.len(),
{
    if s.len() > 0 {
        let t = s.drop_last();
        let w = without(s, x);
        lemma_without(t, x);
        let u = without(t, x);
        assert forall|y: usize| y != x implies (#[trigger] w.contains(y) <==> s.contains(y)) by {
            if w.contains(y) {
                let i = choose|i: int| 0 <= i < w.len() && w[i] == y;
                if i < u.len() {
                    assert(u[i] == y);
                    assert(u.contains(y));
                    let j = choose|j: int| 0 <= j < t.len() && t[j] == y;
                    assert(s[j] == y);
                } else {
                    assert(s[s.len() - 1] == y);
                }
            }
            if s.contains(y) {
                let i = choose|i: int| 0 <= i < s.len() && s[i] == y;
                if i < t.len() {
                    assert(t[i] == y);
                    assert(t.contains(y));
                    assert(u.contains(y));
                    let j = choose|j: int| 0 <= j < u.len() && u[j] == y;
                    assert(w[j] == y);
                } else {
                    assert(w[w.len() - 1] == y);
                }
            }
        }
        assert(!w.contains(x)) by {
            if w.contains(x) {
                let i = choose|i: int| 0 <= i < w.len() && w[i] == x;
                if i < u.len() {
                    assert(u[i] == x);
                    assert(u.contains(x));
                }
            }
        }
        if w.len() == s.len() {
            assert(s.last() != x);
            assert(w =~= s);
        }
        if s.contains(x) && s.last() != x {
            let i = choose|i: int| 0 <= i < s.len() && s[i] == x;
            assert(t[i] == x);
            assert(t.contains(x));
        }
    }
}

/// The first place is the only one that holds `x` with no `x` before it.
pub proof fn lemma_place(s: Seq<usize>, x: usize)
    ensures
        match place(s, x) {
            Some(i) => {
                &&& 0 <= i < s.len()
                &&& s[i] == x
                &&& forall|j: int| 0 <= j < i ==> s[j] != x
            },
            None => !s.contains(x),
        },
    decreases s.len(),
{
    if s.len() > 0 {
        let t = s.drop_last();
        lemma_place(t, x);
        if place(s, x) is None {
            assert forall|j: int| 0 <= j < s.len() implies s[j] != x by {
                if j < t.len() {
                    assert(t[j] == s[j]);
                    assert(t.contains(t[j]));
                }
            }
        } else if place(t, x) is None {
            assert forall|j: int| 0 <= j < s.len() - 1 implies s[j] != x by {
                assert(t[j] == s[j]);
                assert(t.contains(t[j]));
            }
        } else {
            let i = place(t, x).unwrap();
            assert(s[i] == t[i]);
            assert forall|j: int| 0 <= j < i implies s[j] != x by {
                assert(t[j] == s[j]);
            }
        }
    }
}

/// Drops every occurrence of `x`.
pub(crate) fn drop_all(v: &mut Vec<usize>, x: usize)
    ensures
        final(v)@ == without(old(v)@, x),
{
    let ghost s = v@;
    let mut kept: Vec<usize> = Vec::new();
    let mut i: usize = 0;
    assert(s.take(0) =~= Seq::<usize>::empty());
    while i < v.len()
        invariant
            v@ == s,
            i <= s.len(),
            kept@ == without(s.take(i as int), x),
        decreases s.len() - i,
    {
        assert(s.take(i + 1).drop_last() =~= s.take(i as int));
        if v[i] != x {
            kept.push(v[i]);
        }
        i += 1;
    }
    assert(s.take(i as int) =~= s);
    *v = kept;
}

/// Where `x` stands first.
pub(crate) fn find(v: &Vec<usize>, x: usize) -> (i: Option<usize>)
    ensures
        match i {
            Some(i) => place(v@, x) == Some(i as int) && i < v@.len(),
            None => place(v@, x) is None,
        },
{
    let mut i: usize = 0;
    assert(v@.take(0) =~= Seq::<usize>::empty());
    while i < v.len()
        invariant
            i <= v@.len(),
            place(v@.take(i as int), x) is None,
        decreases v@.len() - i,
    {
        assert(v@.take(i + 1).drop_last() =~= v@.take(i as int));
        if v[i] == x {
            proof {
                lemma_place_extends(v@, i + 1, x);
            }
            return Some(i);
        }
        i += 1;
    }
    assert(v@.take(i as int) =~= v@);
    None
}

/// A place in the beginning of a list is the place in the list.
proof fn lemma_place_extends(s: Seq<usize>, n: int, x: usize)
    requires
        0 <= n <= s.len(),
        place(s.take(n), x) is Some,
    ensures
        place(s, x) == place(s.take(n), x),
    decreases s.len(),
{
    if n < s.len() {
        assert(s.drop_last().take(n) =~= s.take(n));
        lemma_place_extends(s.drop_last(), n, x);
    } else {
        assert(s.take(n) =~= s);
    }
}

/// A copy of a list.
pub(crate) fn copy_list(v: &Vec<usize>) -> (r: Vec<usize>)
    ensures
        r@ == v@,
{
    let mut r: Vec<usize> = Vec::new();
    let mut i: usize = 0;
    while i < v.len()
        invariant
            i <= v@.len(),
            r@ == v@.take(i as int),
        decreases v@.len() - i,
    {
        r.push(v[i]);
        i += 1;
        assert(r@ =~= v@.take(i as int));
    }
    assert(v@.take(i as int) =~= v@);
    r
}

} // verus!
