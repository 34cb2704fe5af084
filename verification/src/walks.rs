//! Walks, cycles and orders in a directed multigraph given by its links.
//!
//! A graph is a sequence of links, each a pair of a source and a target.
//! The definitions are the same whether the ends are positions or
//! identifiers; the lemmas carry a walk from one naming to the other.

use vstd::prelude::*;

verus! {

/// The pair of the `i`-th and the next node of `p`.
pub open spec fn pair_at<A>(p: Seq<A>, i: int) -> (A, A) {
    (p[i], p[i + 1])
}

/// `p` is a walk: it has a node, and each node is linked to the next.
pub open spec fn is_walk<A>(links: Seq<(A, A)>, p: Seq<A>) -> bool {
    &&& p.len() >= 1
    &&& forall|i: int| 0 <= i < p.len() - 1 ==> links.contains(#[trigger] pair_at(p, i))
}

/// Some walk leads from `a` to `b`; every node reaches itself.
pub open spec fn reachable<A>(links: Seq<(A, A)>, a: A, b: A) -> bool {
    exists|p: Seq<A>| is_walk(links, p) && p[0] == a && p.last() == b
}

/// Some walk of at least one link ends where it began. A link from a node to
/// itself is such a walk.
pub open spec fn has_cycle<A>(links: Seq<(A, A)>) -> bool {
    exists|p: Seq<A>| is_walk(links, p) && p.len() >= 2 && p[0] == p.last()
}

/// `p` leads from `a` to `b` over at least one link, passes no node twice
/// and meets `b` only at its end (and at its start, where `a` is `b`).
pub open spec fn is_simple_path<A>(links: Seq<(A, A)>, a: A, b: A, p: Seq<A>) -> bool {
    &&& is_walk(links, p)
    &&& p.len() >= 2
    &&& p[0] == a
    &&& p.last() == b
    &&& p.drop_last().no_duplicates()
    &&& forall|i: int| 1 <= i < p.len() - 1 ==> p[i] != b
}

/// `p` is a walk and no walk between its ends has fewer links.
pub open spec fn is_shortest_walk<A>(links: Seq<(A, A)>, p: Seq<A>) -> bool {
    &&& is_walk(links, p)
    &&& forall|q: Seq<A>|
        #![trigger is_walk(links, q)]
        is_walk(links, q) && q[0] == p[0] && q.last() == p.last() ==> q.len() >= p.len()
}

/// In `order` every link leads from an earlier node to a later one.
pub open spec fn respects_links<A>(links: Seq<(A, A)>, order: Seq<A>) -> bool {
    forall|i: int, j: int|
        0 <= i < order.len() && 0 <= j < order.len() && links.contains((order[i], order[j])) ==> i
            < j
}

/// `order` lists each of `nodes` once and nothing else.
pub open spec fn lists_each_once<A>(nodes: Seq<A>, order: Seq<A>) -> bool {
    &&& order.no_duplicates()
    &&& forall|x: A| order.contains(x) <==> nodes.contains(x)
}

/// `parts` split `nodes` into the classes of mutual reachability: each node
/// is in one part, once, and two nodes share a part exactly when each
/// reaches the other.
pub open spec fn is_partition_by_reach<A>(
    links: Seq<(A, A)>,
    nodes: Seq<A>,
    parts: Seq<Seq<A>>,
) -> bool {
    &&& forall|x: A| nodes.contains(x) ==> exists|k: int| 0 <= k < parts.len() && parts[k].contains(x)
    &&& forall|k: int| 0 <= k < parts.len() ==> #[trigger] parts[k].len() > 0 && parts[k].no_duplicates()
    &&& forall|k: int, x: A| 0 <= k < parts.len() && #[trigger] parts[k].contains(x) ==> nodes.contains(x)
    &&& forall|k: int, l: int, x: A, y: A|
        0 <= k < parts.len() && 0 <= l < parts.len() && #[trigger] parts[k].contains(x)
            && #[trigger] parts[l].contains(y) ==> (k == l <==> (reachable(links, x, y) && reachable(
            links,
            y,
            x,
        )))
}

/// Every end of every arc is a position below `n`.
pub open spec fn arcs_in_range(n: int, arcs: Seq<(int, int)>) -> bool {
    forall|k: int| 0 <= k < arcs.len() ==> 0 <= (#[trigger] arcs[k]).0 < n && 0 <= arcs[k].1 < n
}

/// Every node of `p` is a position below `n`.
pub open spec fn in_range(n: int, p: Seq<int>) -> bool {
    forall|i: int| 0 <= i < p.len() ==> 0 <= #[trigger] p[i] < n
}

/// The arcs with each position replaced by the identifier at it.
pub open spec fn relabel<A>(ids: Seq<A>, arcs: Seq<(int, int)>) -> Seq<(A, A)> {
    Seq::new(arcs.len(), |k: int| (ids[arcs[k].0], ids[arcs[k].1]))
}

/// The positions with each replaced by the identifier at it.
pub open spec fn rename<A>(ids: Seq<A>, p: Seq<int>) -> Seq<A> {
    Seq::new(p.len(), |i: int| ids[p[i]])
}

/// The identifiers with each replaced by its position.
pub open spec fn positions<A>(ids: Seq<A>, q: Seq<A>) -> Seq<int> {
    Seq::new(q.len(), |i: int| ids.index_of(q[i]))
}

/// A walk that starts in range stays in range.
pub proof fn lemma_walk_in_range(n: int, arcs: Seq<(int, int)>, p: Seq<int>)
    requires
        arcs_in_range(n, arcs),
        is_walk(arcs, p),
        0 <= p[0] < n,
    ensures
        in_range(n, p),
{
    assert forall|i: int| 0 <= i < p.len() implies 0 <= #[trigger] p[i] < n by {
        if i > 0 {
            assert(arcs.contains(pair_at(p, i - 1)));
            let k = choose|k: int| 0 <= k < arcs.len() && arcs[k] == pair_at(p, i - 1);
            assert(arcs[k].1 == p[i]);
        }
    }
}

/// A walk of at least one arc starts in range.
pub proof fn lemma_walk_starts_in_range(n: int, arcs: Seq<(int, int)>, p: Seq<int>)
    requires
        arcs_in_range(n, arcs),
        is_walk(arcs, p),
        p.len() >= 2,
    ensures
        in_range(n, p),
{
    assert(arcs.contains(pair_at(p, 0)));
    let k = choose|k: int| 0 <= k < arcs.len() && arcs[k] == pair_at(p, 0);
    assert(arcs[k].0 == p[0]);
    lemma_walk_in_range(n, arcs, p);
}

/// A walk over positions is a walk over identifiers.
pub proof fn lemma_walk_rename<A>(ids: Seq<A>, arcs: Seq<(int, int)>, p: Seq<int>)
    requires
        arcs_in_range(ids.len() as int, arcs),
        is_walk(arcs, p),
        in_range(ids.len() as int, p),
    ensures
        is_walk(relabel(ids, arcs), rename(ids, p)),
{
    let links = relabel(ids, arcs);
    let q = rename(ids, p);
    assert forall|i: int| 0 <= i < q.len() - 1 implies links.contains(#[trigger] pair_at(q, i)) by {
        assert(arcs.contains(pair_at(p, i)));
        let k = choose|k: int| 0 <= k < arcs.len() && arcs[k] == pair_at(p, i);
        assert(links[k] == pair_at(q, i));
    }
}

/// The ends of a link are identifiers of the graph.
pub proof fn lemma_link_ends<A>(ids: Seq<A>, arcs: Seq<(int, int)>, a: A, b: A)
    requires
        arcs_in_range(ids.len() as int, arcs),
        relabel(ids, arcs).contains((a, b)),
    ensures
        ids.contains(a),
        ids.contains(b),
{
    let links = relabel(ids, arcs);
    let k = choose|k: int| 0 <= k < links.len() && links[k] == (a, b);
    assert(0 <= arcs[k].0 < ids.len());
    assert(ids[arcs[k].0] == a);
    assert(ids[arcs[k].1] == b);
}

/// A walk over identifiers that starts at a node of the graph is a walk over
/// positions.
pub proof fn lemma_walk_positions<A>(ids: Seq<A>, arcs: Seq<(int, int)>, q: Seq<A>)
    requires
        ids.no_duplicates(),
        arcs_in_range(ids.len() as int, arcs),
        is_walk(relabel(ids, arcs), q),
        ids.contains(q[0]),
    ensures
        is_walk(arcs, positions(ids, q)),
        in_range(ids.len() as int, positions(ids, q)),
        rename(ids, positions(ids, q)) == q,
        forall|i: int| 0 <= i < q.len() ==> ids.contains(#[trigger] q[i]),
{
    let links = relabel(ids, arcs);
    let p = positions(ids, q);
    assert forall|i: int| 0 <= i < q.len() implies ids.contains(#[trigger] q[i]) by {
        if i > 0 {
            assert(links.contains(pair_at(q, i - 1)));
            lemma_link_ends(ids, arcs, q[i - 1], q[i]);
        }
    }
    assert forall|i: int| 0 <= i < p.len() implies 0 <= #[trigger] p[i] < ids.len() && ids[p[i]]
        == q[i] by {
        assert(ids.contains(q[i]));
    }
    assert forall|i: int| 0 <= i < p.len() - 1 implies arcs.contains(#[trigger] pair_at(p, i)) by {
        assert(links.contains(pair_at(q, i)));
        let k = choose|k: int| 0 <= k < links.len() && links[k] == pair_at(q, i);
        assert(ids[arcs[k].0] == q[i]);
        assert(ids[arcs[k].1] == q[i + 1]);
        assert(ids[p[i]] == q[i]);
        assert(ids[p[i + 1]] == q[i + 1]);
        assert(arcs[k].0 == p[i]);
        assert(arcs[k].1 == p[i + 1]);
        assert(arcs[k] == pair_at(p, i));
    }
    assert(rename(ids, p) =~= q);
}

/// A graph has a cycle over positions exactly when it has one over
/// identifiers.
pub proof fn lemma_cycle_relabel<A>(ids: Seq<A>, arcs: Seq<(int, int)>)
    requires
        ids.no_duplicates(),
        arcs_in_range(ids.len() as int, arcs),
    ensures
        has_cycle(arcs) <==> has_cycle(relabel(ids, arcs)),
{
    let links = relabel(ids, arcs);
    if has_cycle(arcs) {
        let p = choose|p: Seq<int>| is_walk(arcs, p) && p.len() >= 2 && p[0] == p.last();
        lemma_walk_starts_in_range(ids.len() as int, arcs, p);
        lemma_walk_rename(ids, arcs, p);
        let q = rename(ids, p);
        assert(q[0] == q.last());
        assert(is_walk(links, q) && q.len() >= 2 && q[0] == q.last());
    }
    if has_cycle(links) {
        let q = choose|q: Seq<A>| is_walk(links, q) && q.len() >= 2 && q[0] == q.last();
        assert(links.contains(pair_at(q, 0)));
        lemma_link_ends(ids, arcs, q[0], q[1]);
        lemma_walk_positions(ids, arcs, q);
        let p = positions(ids, q);
        assert(p[0] == p.last());
        assert(is_walk(arcs, p) && p.len() >= 2 && p[0] == p.last());
    }
}

/// One node reaches another over positions exactly when it does over
/// identifiers.
pub proof fn lemma_reach_relabel<A>(ids: Seq<A>, arcs: Seq<(int, int)>, a: int, b: int)
    requires
        ids.no_duplicates(),
        arcs_in_range(ids.len() as int, arcs),
        0 <= a < ids.len(),
        0 <= b < ids.len(),
    ensures
        reachable(arcs, a, b) <==> reachable(relabel(ids, arcs), ids[a], ids[b]),
{
    let links = relabel(ids, arcs);
    if reachable(arcs, a, b) {
        let p = choose|p: Seq<int>| is_walk(arcs, p) && p[0] == a && p.last() == b;
        lemma_walk_in_range(ids.len() as int, arcs, p);
        lemma_walk_rename(ids, arcs, p);
        let q = rename(ids, p);
        assert(is_walk(links, q) && q[0] == ids[a] && q.last() == ids[b]);
    }
    if reachable(links, ids[a], ids[b]) {
        let q = choose|q: Seq<A>| is_walk(links, q) && q[0] == ids[a] && q.last() == ids[b];
        lemma_walk_positions(ids, arcs, q);
        let p = positions(ids, q);
        assert(ids[p[0]] == ids[a]);
        assert(ids[p.last()] == ids[b]);
        assert(is_walk(arcs, p) && p[0] == a && p.last() == b);
    }
}

/// The positions of a graph of `n` nodes.
pub open spec fn all_positions(n: nat) -> Seq<int> {
    Seq::new(n, |i: int| i)
}

/// The sequences of positions with each position replaced by the identifier
/// at it.
pub open spec fn rename_all<A>(ids: Seq<A>, parts: Seq<Seq<int>>) -> Seq<Seq<A>> {
    Seq::new(parts.len(), |k: int| rename(ids, parts[k]))
}

/// A simple path over positions is one over identifiers.
pub proof fn lemma_simple_path_rename<A>(
    ids: Seq<A>,
    arcs: Seq<(int, int)>,
    a: int,
    b: int,
    p: Seq<int>,
)
    requires
        ids.no_duplicates(),
        arcs_in_range(ids.len() as int, arcs),
        is_simple_path(arcs, a, b, p),
    ensures
        in_range(ids.len() as int, p),
        is_simple_path(relabel(ids, arcs), ids[a], ids[b], rename(ids, p)),
{
    lemma_walk_starts_in_range(ids.len() as int, arcs, p);
    lemma_walk_rename(ids, arcs, p);
    let q = rename(ids, p);
    assert forall|i: int, j: int|
        0 <= i < q.drop_last().len() && 0 <= j < q.drop_last().len() && i != j implies q.drop_last()[i]
        != q.drop_last()[j] by {
        assert(p.drop_last()[i] != p.drop_last()[j]);
        assert(0 <= p[i] < ids.len() && 0 <= p[j] < ids.len());
    }
    assert forall|i: int| 1 <= i < q.len() - 1 implies q[i] != ids[b] by {
        assert(p[i] != b);
        assert(0 <= p[i] < ids.len());
        assert(0 <= p[p.len() - 1] < ids.len());
    }
}

/// A simple path over identifiers is one over positions, and its ends are
/// nodes of the graph.
pub proof fn lemma_simple_path_positions<A>(
    ids: Seq<A>,
    arcs: Seq<(int, int)>,
    x: A,
    y: A,
    q: Seq<A>,
)
    requires
        ids.no_duplicates(),
        arcs_in_range(ids.len() as int, arcs),
        is_simple_path(relabel(ids, arcs), x, y, q),
    ensures
        ids.contains(x),
        ids.contains(y),
        is_simple_path(arcs, ids.index_of(x), ids.index_of(y), positions(ids, q)),
        rename(ids, positions(ids, q)) == q,
{
    let links = relabel(ids, arcs);
    assert(links.contains(pair_at(q, 0)));
    lemma_link_ends(ids, arcs, q[0], q[1]);
    lemma_walk_positions(ids, arcs, q);
    let p = positions(ids, q);
    assert(ids.contains(q[q.len() - 1]));
    assert forall|i: int, j: int|
        0 <= i < p.drop_last().len() && 0 <= j < p.drop_last().len() && i != j implies p.drop_last()[i]
        != p.drop_last()[j] by {
        assert(q.drop_last()[i] != q.drop_last()[j]);
        assert(ids.contains(q[i]) && ids.contains(q[j]));
    }
    assert forall|i: int| 1 <= i < p.len() - 1 implies p[i] != ids.index_of(y) by {
        assert(q[i] != y);
        assert(ids.contains(q[i]));
    }
}

/// A walk of the fewest arcs over positions is one over identifiers.
pub proof fn lemma_shortest_rename<A>(ids: Seq<A>, arcs: Seq<(int, int)>, p: Seq<int>)
    requires
        ids.no_duplicates(),
        arcs_in_range(ids.len() as int, arcs),
        is_shortest_walk(arcs, p),
        in_range(ids.len() as int, p),
    ensures
        is_shortest_walk(relabel(ids, arcs), rename(ids, p)),
{
    let links = relabel(ids, arcs);
    let r = rename(ids, p);
    lemma_walk_rename(ids, arcs, p);
    assert forall|q: Seq<A>|
        #![trigger is_walk(links, q)]
        is_walk(links, q) && q[0] == r[0] && q.last() == r.last() implies q.len() >= r.len() by {
        assert(0 <= p[0] < ids.len());
        assert(0 <= p[p.len() - 1] < ids.len());
        assert(ids.contains(q[0]));
        lemma_walk_positions(ids, arcs, q);
        let pq = positions(ids, q);
        assert(ids[pq[0]] == ids[p[0]]);
        assert(ids[pq[pq.len() - 1]] == ids[p[p.len() - 1]]);
        assert(is_walk(arcs, pq));
    }
}

/// An order of the positions that respects the arcs is, renamed, an order
/// of the identifiers that respects the links.
pub proof fn lemma_order_rename<A>(ids: Seq<A>, arcs: Seq<(int, int)>, order: Seq<int>)
    requires
        ids.no_duplicates(),
        arcs_in_range(ids.len() as int, arcs),
        lists_each_once(all_positions(ids.len()), order),
        respects_links(arcs, order),
    ensures
        in_range(ids.len() as int, order),
        lists_each_once(ids, rename(ids, order)),
        respects_links(relabel(ids, arcs), rename(ids, order)),
{
    let links = relabel(ids, arcs);
    let named = rename(ids, order);
    let all = all_positions(ids.len());
    assert forall|i: int| 0 <= i < order.len() implies 0 <= #[trigger] order[i] < ids.len() by {
        assert(order.contains(order[i]));
        assert(all.contains(order[i]));
        let j = choose|j: int| 0 <= j < all.len() && all[j] == order[i];
    }
    assert forall|i: int, j: int|
        0 <= i < named.len() && 0 <= j < named.len() && i != j implies named[i] != named[j] by {
        assert(order[i] != order[j]);
    }
    assert forall|x: A| named.contains(x) <==> ids.contains(x) by {
        if named.contains(x) {
            let j = choose|j: int| 0 <= j < named.len() && named[j] == x;
            assert(ids[order[j]] == x);
        }
        if ids.contains(x) {
            let i = ids.index_of(x);
            assert(all[i] == i);
            assert(all.contains(i));
            assert(order.contains(i));
            let j = choose|j: int| 0 <= j < order.len() && order[j] == i;
            assert(named[j] == x);
        }
    }
    assert forall|i: int, j: int|
        0 <= i < named.len() && 0 <= j < named.len() && links.contains((named[i], named[j])) implies i
        < j by {
        let k = choose|k: int| 0 <= k < links.len() && links[k] == (named[i], named[j]);
        assert(ids[arcs[k].0] == ids[order[i]]);
        assert(ids[arcs[k].1] == ids[order[j]]);
        assert(arcs[k] == (order[i], order[j]));
        assert(arcs.contains((order[i], order[j])));
    }
}

/// The classes of mutual reachability over positions are, renamed, those
/// over identifiers.
pub proof fn lemma_partition_rename<A>(ids: Seq<A>, arcs: Seq<(int, int)>, parts: Seq<Seq<int>>)
    requires
        ids.no_duplicates(),
        arcs_in_range(ids.len() as int, arcs),
        is_partition_by_reach(arcs, all_positions(ids.len()), parts),
    ensures
        forall|k: int| 0 <= k < parts.len() ==> in_range(ids.len() as int, #[trigger] parts[k]),
        is_partition_by_reach(relabel(ids, arcs), ids, rename_all(ids, parts)),
{
    let links = relabel(ids, arcs);
    let named = rename_all(ids, parts);
    let all = all_positions(ids.len());
    assert forall|k: int| 0 <= k < parts.len() implies in_range(
        ids.len() as int,
        #[trigger] parts[k],
    ) by {
        assert forall|i: int| 0 <= i < parts[k].len() implies 0 <= #[trigger] parts[k][i] < ids.len() by {
            assert(parts[k].contains(parts[k][i]));
            assert(all.contains(parts[k][i]));
            let j = choose|j: int| 0 <= j < all.len() && all[j] == parts[k][i];
        }
    }
    assert forall|x: A| ids.contains(x) implies exists|k: int|
        0 <= k < named.len() && named[k].contains(x) by {
        let i = ids.index_of(x);
        assert(all[i] == i);
        assert(all.contains(i));
        let k = choose|k: int| 0 <= k < parts.len() && parts[k].contains(i);
        let j = choose|j: int| 0 <= j < parts[k].len() && parts[k][j] == i;
        assert(named[k][j] == x);
        assert(named[k].contains(x));
    }
    assert forall|k: int| 0 <= k < named.len() implies #[trigger] named[k].len() > 0
        && named[k].no_duplicates() by {
        assert(parts[k].len() > 0 && parts[k].no_duplicates());
        assert(in_range(ids.len() as int, parts[k]));
        assert forall|i: int, j: int|
            0 <= i < named[k].len() && 0 <= j < named[k].len() && i != j implies named[k][i]
            != named[k][j] by {
            assert(parts[k][i] != parts[k][j]);
        }
    }
    assert forall|k: int, x: A| 0 <= k < named.len() && #[trigger] named[k].contains(x) implies ids.contains(
        x,
    ) by {
        let j = choose|j: int| 0 <= j < named[k].len() && named[k][j] == x;
        assert(in_range(ids.len() as int, parts[k]));
        assert(ids[parts[k][j]] == x);
    }
    assert forall|k: int, l: int, x: A, y: A|
        0 <= k < named.len() && 0 <= l < named.len() && #[trigger] named[k].contains(x)
            && #[trigger] named[l].contains(y) implies (k == l <==> (reachable(links, x, y)
        && reachable(links, y, x))) by {
        let i = choose|i: int| 0 <= i < named[k].len() && named[k][i] == x;
        let j = choose|j: int| 0 <= j < named[l].len() && named[l][j] == y;
        assert(in_range(ids.len() as int, parts[k]));
        assert(in_range(ids.len() as int, parts[l]));
        let a = parts[k][i];
        let b = parts[l][j];
        assert(parts[k].contains(a));
        assert(parts[l].contains(b));
        lemma_reach_relabel(ids, arcs, a, b);
        lemma_reach_relabel(ids, arcs, b, a);
    }
}

/// The links that begin at `x`.
pub open spec fn begins_at<A>(x: A) -> spec_fn((A, A)) -> bool {
    |l: (A, A)| l.0 == x
}

/// The links that end at `x`.
pub open spec fn ends_at<A>(x: A) -> spec_fn((A, A)) -> bool {
    |l: (A, A)| l.1 == x
}

/// A test that no element passes lets none through.
pub proof fn lemma_count_none<A>(s: Seq<A>, p: spec_fn(A) -> bool)
    requires
        forall|i: int| 0 <= i < s.len() ==> !p(#[trigger] s[i]),
    ensures
        s.filter(p).len() == 0,
{
    let f = s.filter(p);
    if f.len() > 0 {
        assert(f.contains(f[0]));
        s.lemma_filter_contains_rev(p, f[0]);
        let j = choose|j: int| 0 <= j < s.len() && s[j] == f[0];
        s.lemma_filter_pred(p, 0);
    }
}

/// Two sequences of one length, with a test on each that agrees position by
/// position, pass as many elements.
pub proof fn lemma_count_aligned<A, B>(
    s: Seq<A>,
    t: Seq<B>,
    p: spec_fn(A) -> bool,
    q: spec_fn(B) -> bool,
)
    requires
        s.len() == t.len(),
        forall|i: int| 0 <= i < s.len() ==> p(#[trigger] s[i]) == q(t[i]),
    ensures
        s.filter(p).len() == t.filter(q).len(),
    decreases s.len(),
{
    reveal(Seq::filter);
    if s.len() > 0 {
        lemma_count_aligned(s.drop_last(), t.drop_last(), p, q);
        assert(p(s[s.len() - 1]) == q(t[t.len() - 1]));
    }
}

/// Some walk of at least one link leads from `a` to `b`.
pub open spec fn reaches_far<A>(links: Seq<(A, A)>, a: A, b: A) -> bool {
    exists|p: Seq<A>| is_walk(links, p) && p.len() >= 2 && p[0] == a && p.last() == b
}

/// The links, each turned around.
pub open spec fn flip<A>(links: Seq<(A, A)>) -> Seq<(A, A)> {
    Seq::new(links.len(), |k: int| (links[k].1, links[k].0))
}

/// A walk with one more link at its end is a walk.
pub proof fn lemma_walk_push<A>(links: Seq<(A, A)>, p: Seq<A>, u: A)
    requires
        is_walk(links, p),
        links.contains((p.last(), u)),
    ensures
        is_walk(links, p.push(u)),
{
    let q = p.push(u);
    assert forall|i: int| 0 <= i < q.len() - 1 implies links.contains(#[trigger] pair_at(q, i)) by {
        if i < p.len() - 1 {
            assert(pair_at(q, i) == pair_at(p, i));
        } else {
            assert(pair_at(q, i) == (p.last(), u));
        }
    }
}

/// What is reached reaches on over a link.
pub proof fn lemma_reach_step<A>(links: Seq<(A, A)>, s: A, v: A, u: A)
    requires
        reachable(links, s, v),
        links.contains((v, u)),
    ensures
        reachable(links, s, u),
{
    let p = choose|p: Seq<A>| is_walk(links, p) && p[0] == s && p.last() == v;
    lemma_walk_push(links, p, u);
    let q = p.push(u);
    assert(q[0] == s && q.last() == u);
}

/// The start of a walk, up to and with its node at `k`, is a walk.
pub proof fn lemma_walk_prefix<A>(links: Seq<(A, A)>, p: Seq<A>, k: int)
    requires
        is_walk(links, p),
        0 <= k < p.len(),
    ensures
        is_walk(links, p.take(k + 1)),
{
    let q = p.take(k + 1);
    assert forall|i: int| 0 <= i < q.len() - 1 implies links.contains(#[trigger] pair_at(q, i)) by {
        assert(pair_at(q, i) == pair_at(p, i));
    }
}

/// The end of a walk, from its node at `k` on, is a walk.
pub proof fn lemma_walk_suffix<A>(links: Seq<(A, A)>, p: Seq<A>, k: int)
    requires
        is_walk(links, p),
        0 <= k < p.len(),
    ensures
        is_walk(links, p.skip(k)),
{
    let q = p.skip(k);
    assert forall|i: int| 0 <= i < q.len() - 1 implies links.contains(#[trigger] pair_at(q, i)) by {
        assert(pair_at(q, i) == pair_at(p, i + k));
    }
}

/// Two walks, the second beginning where the first ends, make one.
pub proof fn lemma_walk_join<A>(links: Seq<(A, A)>, p: Seq<A>, q: Seq<A>)
    requires
        is_walk(links, p),
        is_walk(links, q),
        p.last() == q[0],
    ensures
        is_walk(links, p + q.skip(1)),
        (p + q.skip(1))[0] == p[0],
        (p + q.skip(1)).last() == q.last(),
        (p + q.skip(1)).len() == p.len() + q.len() - 1,
{
    let r = p + q.skip(1);
    assert forall|i: int| 0 <= i < r.len() - 1 implies links.contains(#[trigger] pair_at(r, i)) by {
        if i < p.len() - 1 {
            assert(pair_at(r, i) == pair_at(p, i));
        } else {
            assert(pair_at(r, i) == pair_at(q, i - (p.len() - 1)));
        }
    }
}

/// A set that holds `s` and with each node all that it links to holds all
/// that `s` reaches.
pub proof fn lemma_closed_holds_reach<A>(links: Seq<(A, A)>, s: A, held: spec_fn(A) -> bool, x: A)
    requires
        held(s),
        forall|v: A, u: A| held(v) && #[trigger] links.contains((v, u)) ==> held(u),
        reachable(links, s, x),
    ensures
        held(x),
{
    let p = choose|p: Seq<A>| is_walk(links, p) && p[0] == s && p.last() == x;
    lemma_walk_held(links, held, p, p.len() - 1);
}

proof fn lemma_walk_held<A>(links: Seq<(A, A)>, held: spec_fn(A) -> bool, p: Seq<A>, k: int)
    requires
        is_walk(links, p),
        held(p[0]),
        forall|v: A, u: A| held(v) && #[trigger] links.contains((v, u)) ==> held(u),
        0 <= k < p.len(),
    ensures
        held(p[k]),
    decreases k,
{
    if k > 0 {
        lemma_walk_held(links, held, p, k - 1);
        assert(links.contains(pair_at(p, k - 1)));
        assert(pair_at(p, k - 1) == (p[k - 1], p[k]));
    }
}

/// A walk read backwards is a walk over the links turned around.
pub proof fn lemma_walk_flip<A>(links: Seq<(A, A)>, p: Seq<A>)
    requires
        is_walk(links, p),
    ensures
        is_walk(flip(links), p.reverse()),
        p.reverse().len() == p.len(),
        p.reverse()[0] == p.last(),
        p.reverse().last() == p[0],
{
    let q = p.reverse();
    let back = flip(links);
    assert forall|i: int| 0 <= i < q.len() - 1 implies back.contains(#[trigger] pair_at(q, i)) by {
        let j = p.len() - 2 - i;
        assert(links.contains(pair_at(p, j)));
        let k = choose|k: int| 0 <= k < links.len() && links[k] == pair_at(p, j);
        assert(back[k] == pair_at(q, i));
    }
}

/// Turning the links around twice gives them back.
pub proof fn lemma_flip_twice<A>(links: Seq<(A, A)>)
    ensures
        flip(flip(links)) == links,
{
    assert(flip(flip(links)) =~= links);
}

/// One node reaches another over the links turned around exactly when the
/// other reaches it.
pub proof fn lemma_reach_flip<A>(links: Seq<(A, A)>, a: A, b: A)
    ensures
        reachable(flip(links), a, b) <==> reachable(links, b, a),
        reaches_far(flip(links), a, b) <==> reaches_far(links, b, a),
{
    lemma_flip_twice(links);
    if reachable(flip(links), a, b) {
        let p = choose|p: Seq<A>| is_walk(flip(links), p) && p[0] == a && p.last() == b;
        lemma_walk_flip(flip(links), p);
        assert(is_walk(links, p.reverse()));
    }
    if reachable(links, b, a) {
        let p = choose|p: Seq<A>| is_walk(links, p) && p[0] == b && p.last() == a;
        lemma_walk_flip(links, p);
    }
    if reaches_far(flip(links), a, b) {
        let p = choose|p: Seq<A>|
            is_walk(flip(links), p) && p.len() >= 2 && p[0] == a && p.last() == b;
        lemma_walk_flip(flip(links), p);
        assert(is_walk(links, p.reverse()));
    }
    if reaches_far(links, b, a) {
        let p = choose|p: Seq<A>| is_walk(links, p) && p.len() >= 2 && p[0] == b && p.last() == a;
        lemma_walk_flip(links, p);
    }
}

/// Between two different nodes every walk has a link.
pub proof fn lemma_reach_far<A>(links: Seq<(A, A)>, a: A, b: A)
    ensures
        reaches_far(links, a, b) ==> reachable(links, a, b),
        a != b && reachable(links, a, b) ==> reaches_far(links, a, b),
        reaches_far(links, a, a) ==> has_cycle(links),
{
    if a != b && reachable(links, a, b) {
        let p = choose|p: Seq<A>| is_walk(links, p) && p[0] == a && p.last() == b;
        assert(p.len() >= 2);
    }
}

/// A graph without cycle stays without cycle when it gets a link whose
/// target did not reach its source.
pub proof fn lemma_push_keeps_acyclic<A>(links: Seq<(A, A)>, a: A, b: A)
    requires
        !has_cycle(links),
        !reachable(links, b, a),
    ensures
        !has_cycle(links.push((a, b))),
{
    let more = links.push((a, b));
    if has_cycle(more) {
        let p = choose|p: Seq<A>| is_walk(more, p) && p.len() >= 2 && p[0] == p.last();
        if exists|i: int| 0 <= i < p.len() - 1 && pair_at(p, i) == (a, b) {
            let i = choose|i: int| 0 <= i < p.len() - 1 && pair_at(p, i) == (a, b);
            // the walk from b round to a
            lemma_walk_suffix(more, p, i + 1);
            lemma_walk_prefix(more, p, i);
            lemma_walk_join(more, p.skip(i + 1), p.take(i + 1));
            let q = p.skip(i + 1) + p.take(i + 1).skip(1);
            assert(q[0] == b);
            assert(q.last() == a);
            lemma_first_visit(links, a, b, q, q.len() - 1);
            assert(false);
        } else {
            assert forall|i: int| 0 <= i < p.len() - 1 implies links.contains(
                #[trigger] pair_at(p, i),
            ) by {
                assert(more.contains(pair_at(p, i)));
                let k = choose|k: int| 0 <= k < more.len() && more[k] == pair_at(p, i);
                assert(k < links.len());
                assert(links[k] == pair_at(p, i));
            }
            assert(is_walk(links, p));
            assert(false);
        }
    }
}

/// A walk from `b` over the links and the new link from `a` to `b` that
/// meets `a` at `k` shows that `b` reaches `a` over the links alone.
proof fn lemma_first_visit<A>(links: Seq<(A, A)>, a: A, b: A, q: Seq<A>, k: int)
    requires
        is_walk(links.push((a, b)), q),
        q[0] == b,
        0 <= k < q.len(),
        q[k] == a,
    ensures
        reachable(links, b, a),
    decreases k,
{
    let more = links.push((a, b));
    if exists|t: int| 0 <= t < k && q[t] == a {
        let t = choose|t: int| 0 <= t < k && q[t] == a;
        lemma_first_visit(links, a, b, q, t);
    } else {
        lemma_walk_prefix(more, q, k);
        let r = q.take(k + 1);
        assert forall|i: int| 0 <= i < r.len() - 1 implies links.contains(#[trigger] pair_at(r, i)) by {
            assert(more.contains(pair_at(r, i)));
            let j = choose|j: int| 0 <= j < more.len() && more[j] == pair_at(r, i);
            if j == links.len() {
                assert(r[i] == a);
                assert(q[i] == a);
                assert(false);
            }
            assert(links[j] == pair_at(r, i));
        }
        assert(is_walk(links, r) && r[0] == b && r.last() == a);
    }
}

/// One node reaches another over at least one arc exactly when it does so
/// over identifiers.
pub proof fn lemma_far_relabel<A>(ids: Seq<A>, arcs: Seq<(int, int)>, a: int, b: int)
    requires
        ids.no_duplicates(),
        arcs_in_range(ids.len() as int, arcs),
        0 <= a < ids.len(),
        0 <= b < ids.len(),
    ensures
        reaches_far(arcs, a, b) <==> reaches_far(relabel(ids, arcs), ids[a], ids[b]),
{
    let links = relabel(ids, arcs);
    if reaches_far(arcs, a, b) {
        let p = choose|p: Seq<int>| is_walk(arcs, p) && p.len() >= 2 && p[0] == a && p.last() == b;
        lemma_walk_in_range(ids.len() as int, arcs, p);
        lemma_walk_rename(ids, arcs, p);
        let q = rename(ids, p);
        assert(is_walk(links, q) && q.len() >= 2 && q[0] == ids[a] && q.last() == ids[b]);
    }
    if reaches_far(links, ids[a], ids[b]) {
        let q = choose|q: Seq<A>|
            is_walk(links, q) && q.len() >= 2 && q[0] == ids[a] && q.last() == ids[b];
        lemma_walk_positions(ids, arcs, q);
        let p = positions(ids, q);
        assert(ids[p[0]] == ids[a]);
        assert(ids[p.last()] == ids[b]);
        assert(is_walk(arcs, p) && p.len() >= 2 && p[0] == a && p.last() == b);
    }
}

/// The ends of a walk of at least one link over identifiers are nodes of the
/// graph.
pub proof fn lemma_far_ends<A>(ids: Seq<A>, arcs: Seq<(int, int)>, x: A, y: A)
    requires
        ids.no_duplicates(),
        arcs_in_range(ids.len() as int, arcs),
        reaches_far(relabel(ids, arcs), x, y),
    ensures
        ids.contains(x),
        ids.contains(y),
{
    let links = relabel(ids, arcs);
    let q = choose|q: Seq<A>| is_walk(links, q) && q.len() >= 2 && q[0] == x && q.last() == y;
    assert(links.contains(pair_at(q, 0)));
    lemma_link_ends(ids, arcs, q[0], q[1]);
    lemma_walk_positions(ids, arcs, q);
    assert(ids.contains(q[q.len() - 1]));
}

/// The links and, for each, the link the other way.
pub open spec fn both_ways<A>(links: Seq<(A, A)>) -> Seq<(A, A)> {
    links + flip(links)
}

/// Naming the positions and adding the way back can be done in either
/// order.
pub proof fn lemma_both_ways_relabel<A>(ids: Seq<A>, arcs: Seq<(int, int)>)
    requires
        arcs_in_range(ids.len() as int, arcs),
    ensures
        both_ways(relabel(ids, arcs)) == relabel(ids, both_ways(arcs)),
        arcs_in_range(ids.len() as int, both_ways(arcs)),
{
    assert(both_ways(relabel(ids, arcs)) =~= relabel(ids, both_ways(arcs)));
    assert forall|k: int| 0 <= k < both_ways(arcs).len() implies 0 <= (#[trigger] both_ways(
        arcs,
    )[k]).0 < ids.len() && 0 <= both_ways(arcs)[k].1 < ids.len() by {
        if k < arcs.len() {
            assert(both_ways(arcs)[k] == arcs[k]);
        } else {
            assert(both_ways(arcs)[k] == flip(arcs)[k - arcs.len()]);
            assert(0 <= arcs[k - arcs.len()].0 < ids.len());
        }
    }
}

/// The classes of mutual reachability among `nodes` are `count`.
pub open spec fn class_count<A>(links: Seq<(A, A)>, nodes: Seq<A>, count: nat) -> bool {
    exists|parts: Seq<Seq<A>>|
        #[trigger] parts.len() == count && is_partition_by_reach(links, nodes, parts)
}

/// Every node reaches every node when the direction of the links is left
/// aside.
pub open spec fn is_connected<A>(links: Seq<(A, A)>, nodes: Seq<A>) -> bool {
    forall|x: A, y: A|
        nodes.contains(x) && nodes.contains(y) ==> #[trigger] reachable(both_ways(links), x, y)
}

/// A graph is connected exactly when the classes of reachability, the
/// direction of its arcs left aside, are one at most.
pub proof fn lemma_connected_by_parts<A>(ids: Seq<A>, arcs: Seq<(int, int)>, parts: Seq<Seq<int>>)
    requires
        ids.no_duplicates(),
        arcs_in_range(ids.len() as int, arcs),
        is_partition_by_reach(both_ways(arcs), all_positions(ids.len()), parts),
    ensures
        parts.len() <= 1 <==> is_connected(relabel(ids, arcs), ids),
{
    let two = both_ways(arcs);
    let links = relabel(ids, arcs);
    let all = all_positions(ids.len());
    lemma_both_ways_relabel(ids, arcs);
    if parts.len() <= 1 {
        assert forall|x: A, y: A| ids.contains(x) && ids.contains(y) implies #[trigger] reachable(
            both_ways(links),
            x,
            y,
        ) by {
            let a = ids.index_of(x);
            let b = ids.index_of(y);
            assert(all[a] == a && all[b] == b);
            assert(all.contains(a) && all.contains(b));
            let k = choose|k: int| 0 <= k < parts.len() && parts[k].contains(a);
            let l = choose|l: int| 0 <= l < parts.len() && parts[l].contains(b);
            assert(k == l);
            lemma_reach_relabel(ids, two, a, b);
        }
    } else {
        assert(parts[0].len() > 0 && parts[1].len() > 0);
        let a = parts[0][0];
        let b = parts[1][0];
        assert(parts[0].contains(a));
        assert(parts[1].contains(b));
        assert(all.contains(a) && all.contains(b));
        let ia = choose|i: int| 0 <= i < all.len() && all[i] == a;
        let ib = choose|i: int| 0 <= i < all.len() && all[i] == b;
        assert(!(reachable(two, a, b) && reachable(two, b, a)));
        lemma_reach_relabel(ids, two, a, b);
        lemma_reach_relabel(ids, two, b, a);
        assert(ids.contains(ids[a]) && ids.contains(ids[b]));
        if is_connected(links, ids) {
            assert(reachable(both_ways(links), ids[a], ids[b]));
            assert(reachable(both_ways(links), ids[b], ids[a]));
        }
    }
}

/// In a graph without cycle no walk passes a node twice.
pub proof fn lemma_acyclic_walk_distinct<A>(links: Seq<(A, A)>, p: Seq<A>)
    requires
        !has_cycle(links),
        is_walk(links, p),
    ensures
        p.no_duplicates(),
{
    assert forall|i: int, j: int| 0 <= i < p.len() && 0 <= j < p.len() && i != j implies p[i]
        != p[j] by {
        if p[i] == p[j] {
            let a = if i < j { i } else { j };
            let b = if i < j { j } else { i };
            lemma_walk_prefix(links, p, b);
            lemma_walk_suffix(links, p.take(b + 1), a);
            let q = p.take(b + 1).skip(a);
            assert(q.len() >= 2);
            assert(q[0] == p[a]);
            assert(q.last() == p[b]);
            assert(is_walk(links, q) && q.len() >= 2 && q[0] == q.last());
        }
    }
}

/// Positions below `n` of which none comes twice are `n` at most.
pub proof fn lemma_distinct_in_range(n: int, p: Seq<int>)
    requires
        0 <= n,
        p.no_duplicates(),
        in_range(n, p),
    ensures
        p.len() <= n,
{
    p.unique_seq_to_set();
    vstd::seq_lib::seq_to_set_is_finite(p);
    vstd::set_lib::lemma_int_range(0, n);
    assert(p.to_set().subset_of(vstd::set_lib::set_int_range(0, n))) by {
        assert forall|x: int| p.to_set().contains(x) implies vstd::set_lib::set_int_range(
            0,
            n,
        ).contains(x) by {
            let i = choose|i: int| 0 <= i < p.len() && p[i] == x;
            assert(0 <= p[i] < n);
        }
    }
    vstd::set_lib::lemma_len_subset(p.to_set(), vstd::set_lib::set_int_range(0, n));
}

} // verus!
