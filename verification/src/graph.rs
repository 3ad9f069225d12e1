//! The dependency graph of the index and its transitive closure.
//!
//! A module depends on everything that its entry lists and on everything
//! those depend on. A path that is listed as a dependency but has no entry
//! of its own is a leaf: it belongs to the closure and adds nothing to it.
//! The walk marks what it has seen, so a module reached along several ways
//! is expanded once and a cycle ends the walk instead of prolonging it.

use crate::descriptor::{DepIndex, ModuleIndex};
use crate::text::{
    copy_chars, lemma_drop_last_contains, lemma_push_contains, lemma_take_contains,
    list_contains, push_chars, views,
};
use vstd::prelude::*;

verus! {

/// `chain` leads from `from` along listed dependencies: its first element is
/// listed for `from`, each further one for the element before it.
pub open spec fn is_chain(index: DepIndex, from: Seq<char>, chain: Seq<Seq<char>>) -> bool {
    &&& chain.len() >= 1
    &&& index.deps_of(from).contains(chain[0])
    &&& forall|i: int|
        0 <= i < chain.len() - 1 ==> (#[trigger] index.deps_of(chain[i])).contains(chain[i + 1])
}

/// `from` depends on `to`, directly or through other modules.
pub open spec fn depends_on(index: DepIndex, from: Seq<char>, to: Seq<char>) -> bool {
    exists|chain: Seq<Seq<char>>| is_chain(index, from, chain) && chain.last() == to
}

/// Everything that `from` depends on.
pub open spec fn closure_of(index: DepIndex, from: Seq<char>) -> Set<Seq<char>> {
    Set::new(|m: Seq<char>| depends_on(index, from, m))
}

/// What is listed directly is depended on.
pub proof fn lemma_direct(index: DepIndex, from: Seq<char>, d: Seq<char>)
    requires
        index.deps_of(from).contains(d),
    ensures
        depends_on(index, from, d),
{
    let chain = seq![d];
    assert(is_chain(index, from, chain));
    assert(chain.last() == d);
}

/// Dependency is transitive over one more listed dependency.
pub proof fn lemma_step(index: DepIndex, from: Seq<char>, mid: Seq<char>, d: Seq<char>)
    requires
        depends_on(index, from, mid),
        index.deps_of(mid).contains(d),
    ensures
        depends_on(index, from, d),
{
    let chain = choose|chain: Seq<Seq<char>>| is_chain(index, from, chain) && chain.last() == mid;
    let longer = chain.push(d);
    assert forall|i: int| 0 <= i < longer.len() - 1 implies (#[trigger] index.deps_of(
        longer[i],
    )).contains(longer[i + 1]) by {
        if i < chain.len() - 1 {
            assert(index.deps_of(chain[i]).contains(chain[i + 1]));
        }
    }
    assert(is_chain(index, from, longer));
    assert(longer.last() == d);
}

/// Dependency is transitive: what a dependency of `from` depends on, `from`
/// depends on.
pub proof fn lemma_transitive(index: DepIndex, from: Seq<char>, mid: Seq<char>, to: Seq<char>)
    requires
        depends_on(index, from, mid),
        depends_on(index, mid, to),
    ensures
        depends_on(index, from, to),
{
    let rest = choose|chain: Seq<Seq<char>>| is_chain(index, mid, chain) && chain.last() == to;
    lemma_along(index, from, mid, rest, rest.len() - 1);
}

/// From a dependency `mid` of `from`, every element of a chain that leads
/// on from `mid` is a dependency of `from`.
pub proof fn lemma_along(
    index: DepIndex,
    from: Seq<char>,
    mid: Seq<char>,
    rest: Seq<Seq<char>>,
    upto: int,
)
    requires
        depends_on(index, from, mid),
        is_chain(index, mid, rest),
        0 <= upto < rest.len(),
    ensures
        depends_on(index, from, rest[upto]),
    decreases upto,
{
    if upto == 0 {
        lemma_step(index, from, mid, rest[0]);
    } else {
        lemma_along(index, from, mid, rest, upto - 1);
        assert(index.deps_of(rest[upto - 1]).contains(rest[upto]));
        lemma_step(index, from, rest[upto - 1], rest[upto]);
    }
}

/// The closure does not depend on the order in which dependencies are
/// listed: two indexes in which every module lists the same modules give
/// every module the same closure.
pub proof fn lemma_closure_ignores_order(a: DepIndex, b: DepIndex, from: Seq<char>)
    requires
        forall|x: Seq<char>, d: Seq<char>|
            #![trigger a.deps_of(x).contains(d)]
            #![trigger b.deps_of(x).contains(d)]
            a.deps_of(x).contains(d) <==> b.deps_of(x).contains(d),
    ensures
        closure_of(a, from) == closure_of(b, from),
{
    assert forall|m: Seq<char>| closure_of(a, from).contains(m) <==> closure_of(
        b,
        from,
    ).contains(m) by {
        if depends_on(a, from, m) {
            let chain = choose|chain: Seq<Seq<char>>| is_chain(a, from, chain) && chain.last() == m;
            assert(is_chain(b, from, chain)) by {
                assert(a.deps_of(from).contains(chain[0]));
                assert forall|i: int| 0 <= i < chain.len() - 1 implies (#[trigger] b.deps_of(
                    chain[i],
                )).contains(chain[i + 1]) by {
                    assert(a.deps_of(chain[i]).contains(chain[i + 1]));
                }
            }
        }
        if depends_on(b, from, m) {
            let chain = choose|chain: Seq<Seq<char>>| is_chain(b, from, chain) && chain.last() == m;
            assert(is_chain(a, from, chain)) by {
                assert(b.deps_of(from).contains(chain[0]));
                assert forall|i: int| 0 <= i < chain.len() - 1 implies (#[trigger] a.deps_of(
                    chain[i],
                )).contains(chain[i + 1]) by {
                    assert(b.deps_of(chain[i]).contains(chain[i + 1]));
                }
            }
        }
    }
    assert(closure_of(a, from) =~= closure_of(b, from));
}

/// A set that holds what `from` lists and, with each of its elements, what
/// that element lists, holds every element of every chain from `from`.
pub proof fn lemma_closed_holds_chain(
    index: DepIndex,
    from: Seq<char>,
    chain: Seq<Seq<char>>,
    closed: Set<Seq<char>>,
    upto: int,
)
    requires
        is_chain(index, from, chain),
        0 <= upto < chain.len(),
        forall|d: Seq<char>| index.deps_of(from).contains(d) ==> closed.contains(d),
        forall|x: Seq<char>, d: Seq<char>|
            closed.contains(x) && #[trigger] index.deps_of(x).contains(d) ==> closed.contains(d),
    ensures
        closed.contains(chain[upto]),
    decreases upto,
{
    if upto > 0 {
        lemma_closed_holds_chain(index, from, chain, closed, upto - 1);
        assert(index.deps_of(chain[upto - 1]).contains(chain[upto]));
    }
}

/// Everything that any entry lists, entry after entry.
pub open spec fn all_listed(deps: Seq<Seq<Seq<char>>>) -> Seq<Seq<char>>
    decreases deps.len(),
{
    if deps.len() == 0 {
        Seq::empty()
    } else {
        all_listed(deps.drop_last()) + deps.last()
    }
}

/// `all_listed` holds each listed dependency.
pub proof fn lemma_all_listed(deps: Seq<Seq<Seq<char>>>, i: int, j: int)
    requires
        0 <= i < deps.len(),
        0 <= j < deps[i].len(),
    ensures
        all_listed(deps).contains(deps[i][j]),
    decreases deps.len(),
{
    let before = all_listed(deps.drop_last());
    if i == deps.len() - 1 {
        assert(all_listed(deps)[before.len() + j] == deps[i][j]);
    } else {
        lemma_all_listed(deps.drop_last(), i, j);
        let k = before.index_of(deps[i][j]);
        assert(all_listed(deps)[k] == deps[i][j]);
    }
}

/// What a key lists is among `all_listed`.
pub proof fn lemma_listed(index: DepIndex, x: Seq<char>, d: Seq<char>)
    requires
        index.wf(),
        index.deps_of(x).contains(d),
    ensures
        all_listed(index.deps).to_set().contains(d),
{
    let i = index.keys.index_of(x);
    let j = index.deps[i].index_of(d);
    lemma_all_listed(index.deps, i, j);
}

/// A sequence without repetition whose elements all lie in a finite set is
/// no longer than the set is large.
pub proof fn lemma_bounded(s: Seq<Seq<char>>, u: Set<Seq<char>>)
    requires
        s.no_duplicates(),
        u.finite(),
        forall|x: Seq<char>| s.contains(x) ==> u.contains(x),
    ensures
        s.len() <= u.len(),
{
    s.unique_seq_to_set();
    assert(s.to_set().subset_of(u));
    vstd::set_lib::lemma_len_subset(s.to_set(), u);
}

/// Adds to `out` and to `pending` each of `deps` that `out` does not hold.
fn add_new(deps: &Vec<Vec<char>>, out: &mut Vec<Vec<char>>, pending: &mut Vec<Vec<char>>)
    requires
        views(old(out)@).no_duplicates(),
    ensures
        views(final(out)@).no_duplicates(),
        final(out).len() >= old(out).len(),
        final(out).len() - old(out).len() == final(pending).len() - old(pending).len(),
        forall|x: Seq<char>|
            #[trigger] views(final(out)@).contains(x) <==> views(old(out)@).contains(x) || views(
                deps@,
            ).contains(x),
        forall|x: Seq<char>|
            #[trigger] views(final(pending)@).contains(x) <==> views(old(pending)@).contains(x)
                || (views(deps@).contains(x) && !views(old(out)@).contains(x)),
{
    let mut j: usize = 0;
    while j < deps.len()
        invariant
            j <= deps.len(),
            views(out@).no_duplicates(),
            out.len() >= old(out).len(),
            out.len() - old(out).len() == pending.len() - old(pending).len(),
            forall|x: Seq<char>|
                #[trigger] views(out@).contains(x) <==> views(old(out)@).contains(x) || views(
                    deps@,
                ).take(j as int).contains(x),
            forall|x: Seq<char>|
                #[trigger] views(pending@).contains(x) <==> views(old(pending)@).contains(x) || (
                views(deps@).take(j as int).contains(x) && !views(old(out)@).contains(x)),
        decreases deps.len() - j,
    {
        let ghost out0 = views(out@);
        let ghost pending0 = views(pending@);
        let ghost d = views(deps@)[j as int];
        let ghost seen = views(deps@).take(j as int);
        proof {
            lemma_take_contains(views(deps@), j as int);
        }
        if !list_contains(out, deps[j].as_slice()) {
            push_chars(out, copy_chars(deps[j].as_slice()));
            push_chars(pending, copy_chars(deps[j].as_slice()));
            proof {
                lemma_push_contains(out0, d);
                lemma_push_contains(pending0, d);
            }
        }
        assert forall|x: Seq<char>| #[trigger]
            views(out@).contains(x) <==> views(old(out)@).contains(x) || views(deps@).take(
                j + 1,
            ).contains(x) by {
            assert(out0.contains(x) <==> views(old(out)@).contains(x) || seen.contains(x));
        }
        assert forall|x: Seq<char>| #[trigger]
            views(pending@).contains(x) <==> views(old(pending)@).contains(x) || (views(
                deps@,
            ).take(j + 1).contains(x) && !views(old(out)@).contains(x)) by {
            assert(pending0.contains(x) <==> views(old(pending)@).contains(x) || (seen.contains(x)
                && !views(old(out)@).contains(x)));
            assert(out0.contains(d) <==> views(old(out)@).contains(d) || seen.contains(d));
        }
        j += 1;
    }
    assert(views(deps@).take(deps.len() as int) =~= views(deps@));
}

/// Adds to `out` and to `pending` what `node` lists and `out` does not hold.
fn expand(
    index: &ModuleIndex,
    node: &[char],
    out: &mut Vec<Vec<char>>,
    pending: &mut Vec<Vec<char>>,
)
    requires
        views(old(out)@).no_duplicates(),
    ensures
        index@.wf(),
        views(final(out)@).no_duplicates(),
        final(out).len() >= old(out).len(),
        final(out).len() - old(out).len() == final(pending).len() - old(pending).len(),
        forall|x: Seq<char>|
            #[trigger] views(final(out)@).contains(x) <==> views(old(out)@).contains(x)
                || index@.deps_of(node@).contains(x),
        forall|x: Seq<char>|
            #[trigger] views(final(pending)@).contains(x) <==> views(old(pending)@).contains(x)
                || (index@.deps_of(node@).contains(x) && !views(old(out)@).contains(x)),
{
    match index.position(node) {
        Some(p) => add_new(index.deps(p), out, pending),
        None => {},
    }
}

/// Everything that `root` depends on, each module once.
pub fn transitive_deps(index: &ModuleIndex, root: &[char]) -> (out: Vec<Vec<char>>)
    ensures
        views(out@).no_duplicates(),
        views(out@).to_set() == closure_of(index@, root@),
{
    let mut out: Vec<Vec<char>> = Vec::new();
    let mut pending: Vec<Vec<char>> = Vec::new();
    let ghost universe = all_listed(index@.deps).to_set();
    assert(views(out@) =~= Seq::empty() && views(pending@) =~= Seq::empty());
    expand(index, root, &mut out, &mut pending);
    proof {
        vstd::seq_lib::seq_to_set_is_finite(all_listed(index@.deps));
        assert forall|x: Seq<char>| #[trigger] views(out@).contains(x) implies depends_on(
            index@,
            root@,
            x,
        ) && universe.contains(x) by {
            lemma_direct(index@, root@, x);
            lemma_listed(index@, root@, x);
        }
    }
    // What is in `out` is depended on. What is in `out` and no longer in
    // `pending` has been expanded: all that it lists is in `out`.
    while pending.len() > 0
        invariant
            index@.wf(),
            universe == all_listed(index@.deps).to_set(),
            universe.finite(),
            views(out@).no_duplicates(),
            forall|x: Seq<char>| #[trigger]
                views(out@).contains(x) ==> depends_on(index@, root@, x) && universe.contains(x),
            forall|x: Seq<char>| #[trigger]
                views(pending@).contains(x) ==> views(out@).contains(x),
            forall|x: Seq<char>, d: Seq<char>|
                views(out@).contains(x) && !views(pending@).contains(x)
                    && #[trigger] index@.deps_of(x).contains(d) ==> views(out@).contains(d),
            forall|d: Seq<char>| #[trigger]
                index@.deps_of(root@).contains(d) ==> views(out@).contains(d),
        decreases universe.len() - out.len(), pending.len(),
    {
        let ghost out0 = views(out@);
        let ghost pending0 = views(pending@);
        let node = pending.pop().unwrap();
        proof {
            lemma_bounded(out0, universe);
            lemma_drop_last_contains(pending0);
            assert(views(pending@) =~= pending0.drop_last());
            assert(pending0.contains(node@));
        }
        expand(index, node.as_slice(), &mut out, &mut pending);
        proof {
            assert forall|x: Seq<char>| #[trigger] views(out@).contains(x) implies depends_on(
                index@,
                root@,
                x,
            ) && universe.contains(x) by {
                if !out0.contains(x) {
                    lemma_step(index@, root@, node@, x);
                    lemma_listed(index@, node@, x);
                }
            }
            assert forall|x: Seq<char>, d: Seq<char>|
                views(out@).contains(x) && !views(pending@).contains(x)
                    && #[trigger] index@.deps_of(x).contains(d) implies views(out@).contains(
                d,
            ) by {
                if x != node@ {
                    assert(out0.contains(x) && !pending0.contains(x));
                }
            }
            lemma_bounded(views(out@), universe);
        }
    }
    proof {
        let found = views(out@).to_set();
        assert forall|m: Seq<char>| closure_of(index@, root@).contains(m) implies found.contains(
            m,
        ) by {
            let chain = choose|chain: Seq<Seq<char>>|
                is_chain(index@, root@, chain) && chain.last() == m;
            assert forall|x: Seq<char>, d: Seq<char>|
                found.contains(x) && #[trigger] index@.deps_of(x).contains(d) implies found.contains(
                d,
            ) by {
                assert(views(out@).contains(x) && !views(pending@).contains(x));
            }
            lemma_closed_holds_chain(index@, root@, chain, found, chain.len() - 1);
        }
        assert(found =~= closure_of(index@, root@));
    }
    out
}

} // verus!
