//! The order of names: lexicographic by the code points of their characters,
//! which is the order in which strings sort.

use crate::text::{lemma_insert_contains, same_chars, views};
use vstd::prelude::*;

verus! {

/// `a` comes before `b`, given that they agree before position `i`: at the
/// first position from `i` on where they differ `a` has the smaller
/// character, or `a` ends and `b` goes on.
pub open spec fn precedes_from(a: Seq<char>, b: Seq<char>, i: int) -> bool
    decreases a.len() - i,
{
    if i < 0 || i >= b.len() {
        false
    } else if i >= a.len() {
        true
    } else if a[i] != b[i] {
        (a[i] as int) < (b[i] as int)
    } else {
        precedes_from(a, b, i + 1)
    }
}

/// `a` comes strictly before `b`.
pub open spec fn precedes(a: Seq<char>, b: Seq<char>) -> bool {
    precedes_from(a, b, 0)
}

/// Every element comes strictly before every later one.
pub open spec fn ascending(s: Seq<Seq<char>>) -> bool {
    forall|i: int, j: int| 0 <= i < j < s.len() ==> precedes(#[trigger] s[i], #[trigger] s[j])
}

/// No name comes before itself.
pub proof fn lemma_irreflexive(a: Seq<char>, i: int)
    requires
        0 <= i,
    ensures
        !precedes_from(a, a, i),
    decreases a.len() - i,
{
    if i < a.len() {
        lemma_irreflexive(a, i + 1);
    }
}

/// The order is transitive.
pub proof fn lemma_transitive(a: Seq<char>, b: Seq<char>, c: Seq<char>, i: int)
    requires
        0 <= i,
        precedes_from(a, b, i),
        precedes_from(b, c, i),
    ensures
        precedes_from(a, c, i),
    decreases a.len() - i,
{
    if i < a.len() && a[i] == b[i] && b[i] == c[i] {
        lemma_transitive(a, b, c, i + 1);
    }
}

/// Of two different names one comes before the other.
pub proof fn lemma_total(a: Seq<char>, b: Seq<char>, i: int)
    requires
        0 <= i <= a.len(),
        i <= b.len(),
        forall|k: int| 0 <= k < i ==> a[k] == b[k],
        !precedes_from(a, b, i),
        !precedes_from(b, a, i),
    ensures
        a == b,
    decreases a.len() - i,
{
    if i < a.len() && i < b.len() {
        lemma_total(a, b, i + 1);
    } else {
        assert(a =~= b);
    }
}

/// An ascending sequence holds no name twice.
pub proof fn lemma_ascending_distinct(s: Seq<Seq<char>>)
    requires
        ascending(s),
    ensures
        s.no_duplicates(),
{
    assert forall|i: int, j: int| 0 <= i < s.len() && 0 <= j < s.len() && i != j implies s[i]
        != s[j] by {
        lemma_irreflexive(s[i], 0);
        if i < j {
            assert(precedes(s[i], s[j]));
        } else {
            assert(precedes(s[j], s[i]));
        }
    }
}

/// Two ascending sequences that hold the same names are the same sequence:
/// to say of a list that it is ascending and which names it holds is to say
/// what the list is.
pub proof fn lemma_ascending_unique(a: Seq<Seq<char>>, b: Seq<Seq<char>>)
    requires
        ascending(a),
        ascending(b),
        a.to_set() == b.to_set(),
    ensures
        a == b,
    decreases a.len(),
{
    lemma_ascending_distinct(a);
    lemma_ascending_distinct(b);
    a.unique_seq_to_set();
    b.unique_seq_to_set();
    if a.len() > 0 {
        let x = a.last();
        let y = b.last();
        assert(a.to_set().contains(x) && b.to_set().contains(y));
        assert(b.contains(x) && a.contains(y));
        let k = b.index_of(x);
        let m = a.index_of(y);
        if x != y {
            assert(precedes(b[k], b[b.len() - 1]));
            assert(precedes(a[m], a[a.len() - 1]));
            lemma_transitive(x, y, x, 0);
            lemma_irreflexive(x, 0);
        }
        assert(x == y);
        let a0 = a.drop_last();
        let b0 = b.drop_last();
        assert forall|n: Seq<char>| a0.to_set().contains(n) <==> b0.to_set().contains(n) by {
            assert(a.to_set().contains(n) <==> b.to_set().contains(n));
            if a0.contains(n) {
                let i = a0.index_of(n);
                assert(a[i] == n && n != x);
                assert(a.contains(n));
                assert(a.to_set().contains(n));
                assert(b.to_set().contains(n));
                assert(b.contains(n));
                let j = b.index_of(n);
                assert(b0[j] == n);
            }
            if b0.contains(n) {
                let i = b0.index_of(n);
                assert(b[i] == n && n != y);
                assert(b.contains(n));
                assert(b.to_set().contains(n));
                assert(a.to_set().contains(n));
                assert(a.contains(n));
                let j = a.index_of(n);
                assert(a0[j] == n);
            }
        }
        assert(a0.to_set() =~= b0.to_set());
        assert(ascending(a0)) by {
            assert forall|i: int, j: int| 0 <= i < j < a0.len() implies precedes(
                #[trigger] a0[i],
                #[trigger] a0[j],
            ) by {
                assert(precedes(a[i], a[j]));
            }
        }
        assert(ascending(b0)) by {
            assert forall|i: int, j: int| 0 <= i < j < b0.len() implies precedes(
                #[trigger] b0[i],
                #[trigger] b0[j],
            ) by {
                assert(precedes(b[i], b[j]));
            }
        }
        lemma_ascending_unique(a0, b0);
        assert(a =~= a0.push(x));
        assert(b =~= b0.push(y));
    } else {
        assert(a =~= b);
    }
}

/// Whether `x` has the smaller code point.
pub fn char_before(x: char, y: char) -> (r: bool)
    ensures
        r == ((x as int) < (y as int)),
{
    (x as u32) < (y as u32)
}

/// Whether `a` comes strictly before `b`.
pub fn comes_before(a: &[char], b: &[char]) -> (r: bool)
    ensures
        r == precedes(a@, b@),
{
    let mut i: usize = 0;
    while i < a.len() && i < b.len()
        invariant
            i <= a.len(),
            i <= b.len(),
            precedes(a@, b@) == precedes_from(a@, b@, i as int),
        decreases a.len() - i,
    {
        if a[i] != b[i] {
            return char_before(a[i], b[i]);
        }
        i += 1;
    }
    i < b.len()
}

/// The place of `x` in an ascending list: the number of elements that come
/// before `x`.
pub fn lower_bound(list: &Vec<Vec<char>>, x: &[char]) -> (p: usize)
    requires
        ascending(views(list@)),
    ensures
        p <= list.len(),
        forall|k: int| 0 <= k < p ==> precedes(#[trigger] views(list@)[k], x@),
        forall|k: int| p <= k < list.len() ==> !precedes(#[trigger] views(list@)[k], x@),
{
    let ghost all = views(list@);
    let mut lo: usize = 0;
    let mut hi: usize = list.len();
    while lo < hi
        invariant
            lo <= hi <= list.len(),
            all == views(list@),
            ascending(all),
            forall|k: int| 0 <= k < lo ==> precedes(#[trigger] all[k], x@),
            forall|k: int| hi <= k < list.len() ==> !precedes(#[trigger] all[k], x@),
        decreases hi - lo,
    {
        let mid = lo + (hi - lo) / 2;
        assert(all[mid as int] == list@[mid as int]@);
        if comes_before(list[mid].as_slice(), x) {
            assert forall|k: int| 0 <= k < mid + 1 implies precedes(#[trigger] all[k], x@) by {
                if k < mid {
                    assert(precedes(all[k], all[mid as int]));
                    lemma_transitive(all[k], all[mid as int], x@, 0);
                }
            }
            lo = mid + 1;
        } else {
            assert forall|k: int| mid <= k < list.len() implies !precedes(
                #[trigger] all[k],
                x@,
            ) by {
                if k > mid && precedes(all[k], x@) {
                    assert(precedes(all[mid as int], all[k]));
                    lemma_transitive(all[mid as int], all[k], x@, 0);
                }
            }
            hi = mid;
        }
    }
    lo
}

/// An ascending list stays ascending when `x` is put where everything
/// before comes before `x` and `x` comes before what follows.
pub proof fn lemma_insert_keeps_ascending(s: Seq<Seq<char>>, p: int, x: Seq<char>)
    requires
        ascending(s),
        0 <= p <= s.len(),
        forall|k: int| 0 <= k < p ==> precedes(#[trigger] s[k], x),
        p < s.len() ==> precedes(x, s[p]),
    ensures
        ascending(s.insert(p, x)),
{
    let t = s.insert(p, x);
    assert forall|i: int, j: int| 0 <= i < j < t.len() implies precedes(
        #[trigger] t[i],
        #[trigger] t[j],
    ) by {
        if i == p {
            if j > p + 1 {
                assert(precedes(s[p], s[j - 1]));
                lemma_transitive(x, s[p], s[j - 1], 0);
            }
        } else if j == p {
            assert(precedes(s[i], x));
        } else {
            let a = if i < p { i } else { i - 1 };
            let b = if j < p { j } else { j - 1 };
            assert(precedes(s[a], s[b]));
        }
    }
}

/// Puts `x` into an ascending list at its place, unless the list holds it.
pub fn insert_ascending(list: &mut Vec<Vec<char>>, x: Vec<char>)
    requires
        ascending(views(old(list)@)),
    ensures
        ascending(views(final(list)@)),
        views(final(list)@).to_set() == views(old(list)@).to_set().insert(x@),
{
    let ghost before = views(list@);
    let p = lower_bound(list, x.as_slice());
    if p < list.len() && same_chars(list[p].as_slice(), x.as_slice()) {
        assert(before[p as int] == x@);
        assert(before.to_set() =~= before.to_set().insert(x@));
        return ;
    }
    proof {
        if p < list.len() {
            assert(before[p as int] == list@[p as int]@);
            if !precedes(x@, before[p as int]) {
                lemma_total(before[p as int], x@, 0);
            }
        }
        lemma_insert_keeps_ascending(before, p as int, x@);
        lemma_insert_contains(before, p as int, x@);
    }
    list.insert(p, x);
    assert(views(list@) =~= before.insert(p as int, x@));
    assert(views(list@).to_set() =~= before.to_set().insert(x@));
}

} // verus!
