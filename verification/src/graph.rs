//! The bridge graph: walks, reachability and distances over a list of
//! bridges, and the facts about them that the searches rest on.
//!
//! A bridge connects its two ends in both directions, whatever its strength.

use vstd::prelude::*;

use crate::bridge::Bridge;
use crate::identity::ConsciousnessId;
use crate::network::{bridge_index, has_bridge, joins};

verus! {

broadcast use vstd::seq_lib::group_seq_properties;

/// The texts of a list of identifiers.
pub open spec fn id_views(ids: Seq<ConsciousnessId>) -> Seq<Seq<char>> {
    ids.map_values(|c: ConsciousnessId| c@)
}

/// Step `i` of `p` crosses a bridge of `bs`.
pub open spec fn step(bs: Seq<Bridge>, p: Seq<Seq<char>>, i: int) -> bool {
    has_bridge(bs, p[i], p[i + 1])
}

/// `p` is a walk along the bridges of `bs`: at least one node, and each
/// consecutive pair joined by a bridge.
pub open spec fn is_walk(bs: Seq<Bridge>, p: Seq<Seq<char>>) -> bool {
    &&& p.len() >= 1
    &&& forall|i: int| 0 <= i < p.len() - 1 ==> #[trigger] step(bs, p, i)
}

/// `p` is a walk from `s` to `t`.
pub open spec fn walk_between(bs: Seq<Bridge>, p: Seq<Seq<char>>, s: Seq<char>, t: Seq<char>) -> bool {
    &&& is_walk(bs, p)
    &&& p[0] == s
    &&& p.last() == t
}

/// `t` can be reached from `s` along bridges (every node reaches itself).
pub open spec fn reachable(bs: Seq<Bridge>, s: Seq<char>, t: Seq<char>) -> bool {
    exists|p: Seq<Seq<char>>| #[trigger] walk_between(bs, p, s, t)
}

/// `t` can be reached from `s` crossing at most `k` bridges.
pub open spec fn within(bs: Seq<Bridge>, s: Seq<char>, t: Seq<char>, k: nat) -> bool {
    exists|p: Seq<Seq<char>>| #[trigger] walk_between(bs, p, s, t) && p.len() <= k + 1
}

/// `xs` is closed under crossing bridges.
pub open spec fn closed_under_bridges(bs: Seq<Bridge>, xs: Seq<Seq<char>>) -> bool {
    forall|x: Seq<char>, y: Seq<char>| #[trigger] xs.contains(x) && #[trigger] has_bridge(bs, x, y) ==> xs.contains(y)
}

/// Every node that can appear in a search from `s`: `s` and the ends of all
/// bridges.
pub open spec fn universe(bs: Seq<Bridge>, s: Seq<char>) -> Seq<Seq<char>> {
    seq![s] + bs.map_values(|b: Bridge| b.from@) + bs.map_values(|b: Bridge| b.to@)
}

/// Bridges connect in both directions.
pub proof fn lemma_has_bridge_symmetric(bs: Seq<Bridge>, x: Seq<char>, y: Seq<char>)
    ensures
        has_bridge(bs, x, y) == has_bridge(bs, y, x),
{
    if has_bridge(bs, x, y) {
        let i = bridge_index(bs, x, y);
        assert(joins(bs[i], y, x));
    }
    if has_bridge(bs, y, x) {
        let i = bridge_index(bs, y, x);
        assert(joins(bs[i], x, y));
    }
}

/// The ends of a bridge lie in the universe of any search.
pub proof fn lemma_ends_in_universe(bs: Seq<Bridge>, s: Seq<char>, x: Seq<char>, y: Seq<char>)
    requires
        has_bridge(bs, x, y),
    ensures
        universe(bs, s).contains(x),
        universe(bs, s).contains(y),
{
    let i = bridge_index(bs, x, y);
    let u = universe(bs, s);
    let n = bs.len() as int;
    assert(u[1 + i] == bs[i].from@);
    assert(u[1 + n + i] == bs[i].to@);
}

/// A list without repeats drawn from `u` is no longer than `u`.
pub proof fn lemma_distinct_within(a: Seq<Seq<char>>, u: Seq<Seq<char>>)
    requires
        a.no_duplicates(),
        forall|i: int| 0 <= i < a.len() ==> u.contains(#[trigger] a[i]),
    ensures
        a.len() <= u.len(),
{
    a.unique_seq_to_set();
    u.lemma_cardinality_of_set();
    vstd::seq_lib::seq_to_set_is_finite(u);
    assert(a.to_set().subset_of(u.to_set())) by {
        assert forall|x: Seq<char>| a.to_set().contains(x) implies u.to_set().contains(x) by {
            let i = a.index_of(x);
            assert(u.contains(a[i]));
        }
    }
    vstd::set_lib::lemma_len_subset(a.to_set(), u.to_set());
}

/// The one-node walk.
pub proof fn lemma_reachable_refl(bs: Seq<Bridge>, s: Seq<char>)
    ensures
        reachable(bs, s, s),
        within(bs, s, s, 0),
{
    let p = seq![s];
    assert(walk_between(bs, p, s, s));
}

/// Crossing one more bridge extends a walk.
pub proof fn lemma_walk_push(bs: Seq<Bridge>, p: Seq<Seq<char>>, y: Seq<char>)
    requires
        is_walk(bs, p),
        has_bridge(bs, p.last(), y),
    ensures
        is_walk(bs, p.push(y)),
        p.push(y)[0] == p[0],
        p.push(y).last() == y,
        p.push(y).len() == p.len() + 1,
{
    let q = p.push(y);
    assert forall|i: int| 0 <= i < q.len() - 1 implies #[trigger] step(bs, q, i) by {
        if i < p.len() - 1 {
            assert(step(bs, p, i));
        }
    }
}

/// A node next to a reachable node is reachable, one bridge further.
pub proof fn lemma_within_step(bs: Seq<Bridge>, s: Seq<char>, x: Seq<char>, y: Seq<char>, k: nat)
    requires
        within(bs, s, x, k),
        has_bridge(bs, x, y),
    ensures
        within(bs, s, y, k + 1),
        reachable(bs, s, y),
{
    let p = choose|p: Seq<Seq<char>>| #[trigger] walk_between(bs, p, s, x) && p.len() <= k + 1;
    lemma_walk_push(bs, p, y);
    assert(walk_between(bs, p.push(y), s, y));
}

/// Reachable means within some number of bridges, and the converse.
pub proof fn lemma_reachable_within(bs: Seq<Bridge>, s: Seq<char>, t: Seq<char>, k: nat)
    ensures
        within(bs, s, t, k) ==> reachable(bs, s, t),
        reachable(bs, s, t) ==> exists|n: nat| within(bs, s, t, n),
{
    if reachable(bs, s, t) {
        let p = choose|p: Seq<Seq<char>>| #[trigger] walk_between(bs, p, s, t);
        assert(within(bs, s, t, (p.len() - 1) as nat));
    }
}

/// A node next to a reachable node is reachable.
pub proof fn lemma_reachable_step(bs: Seq<Bridge>, s: Seq<char>, x: Seq<char>, y: Seq<char>)
    requires
        reachable(bs, s, x),
        has_bridge(bs, x, y),
    ensures
        reachable(bs, s, y),
{
    let p = choose|p: Seq<Seq<char>>| #[trigger] walk_between(bs, p, s, x);
    lemma_walk_push(bs, p, y);
    assert(walk_between(bs, p.push(y), s, y));
}

/// A walk read backwards is a walk.
pub proof fn lemma_walk_reverse(bs: Seq<Bridge>, p: Seq<Seq<char>>)
    requires
        is_walk(bs, p),
    ensures
        is_walk(bs, p.reverse()),
        p.reverse()[0] == p.last(),
        p.reverse().last() == p[0],
{
    let q = p.reverse();
    let n = p.len() as int;
    assert forall|i: int| 0 <= i < q.len() - 1 implies #[trigger] step(bs, q, i) by {
        assert(step(bs, p, n - 2 - i));
        assert(q[i] == p[n - 1 - i]);
        assert(q[i + 1] == p[n - 2 - i]);
        lemma_has_bridge_symmetric(bs, p[n - 2 - i], p[n - 1 - i]);
    }
}

/// Walks join end to start.
pub proof fn lemma_walk_concat(bs: Seq<Bridge>, p: Seq<Seq<char>>, q: Seq<Seq<char>>)
    requires
        is_walk(bs, p),
        is_walk(bs, q),
        p.last() == q[0],
    ensures
        is_walk(bs, p + q.drop_first()),
        (p + q.drop_first())[0] == p[0],
        (p + q.drop_first()).last() == q.last(),
{
    let r = p + q.drop_first();
    let n = p.len() as int;
    assert forall|i: int| 0 <= i < r.len() - 1 implies #[trigger] step(bs, r, i) by {
        if i < n - 1 {
            assert(step(bs, p, i));
        } else {
            assert(step(bs, q, i - n + 1));
        }
    }
}

/// Reachability goes both ways.
pub proof fn lemma_reachable_symmetric(bs: Seq<Bridge>, s: Seq<char>, t: Seq<char>)
    requires
        reachable(bs, s, t),
    ensures
        reachable(bs, t, s),
{
    let p = choose|p: Seq<Seq<char>>| #[trigger] walk_between(bs, p, s, t);
    lemma_walk_reverse(bs, p);
    assert(walk_between(bs, p.reverse(), t, s));
}

/// Reachability chains.
pub proof fn lemma_reachable_transitive(bs: Seq<Bridge>, s: Seq<char>, t: Seq<char>, u: Seq<char>)
    requires
        reachable(bs, s, t),
        reachable(bs, t, u),
    ensures
        reachable(bs, s, u),
{
    let p = choose|p: Seq<Seq<char>>| #[trigger] walk_between(bs, p, s, t);
    let q = choose|q: Seq<Seq<char>>| #[trigger] walk_between(bs, q, t, u);
    lemma_walk_concat(bs, p, q);
    if q.len() == 1 {
        assert(p + q.drop_first() =~= p);
    }
    assert(walk_between(bs, p + q.drop_first(), s, u));
}

/// A set of nodes that holds `s` and is closed under crossing bridges holds
/// every node reachable from `s`.
pub proof fn lemma_closed_holds_reachable(bs: Seq<Bridge>, xs: Seq<Seq<char>>, s: Seq<char>, t: Seq<char>)
    requires
        xs.contains(s),
        closed_under_bridges(bs, xs),
        reachable(bs, s, t),
    ensures
        xs.contains(t),
{
    let p = choose|p: Seq<Seq<char>>| #[trigger] walk_between(bs, p, s, t);
    lemma_closed_holds_walk(bs, xs, p, p.len() - 1);
}

/// Every node of a walk that starts in a closed set lies in it.
proof fn lemma_closed_holds_walk(bs: Seq<Bridge>, xs: Seq<Seq<char>>, p: Seq<Seq<char>>, i: int)
    requires
        is_walk(bs, p),
        xs.contains(p[0]),
        closed_under_bridges(bs, xs),
        0 <= i < p.len(),
    ensures
        xs.contains(p[i]),
    decreases i,
{
    if i > 0 {
        lemma_closed_holds_walk(bs, xs, p, i - 1);
        assert(step(bs, p, i - 1));
    }
}

/// `x` is exactly `k` bridges away from `s`: within `k`, not within fewer.
pub open spec fn first_within(bs: Seq<Bridge>, s: Seq<char>, x: Seq<char>, k: nat) -> bool {
    within(bs, s, x, k) && !(k > 0 && within(bs, s, x, (k - 1) as nat))
}

/// Within fewer bridges is within more.
pub proof fn lemma_within_monotone(bs: Seq<Bridge>, s: Seq<char>, x: Seq<char>, k: nat, n: nat)
    requires
        within(bs, s, x, k),
        k <= n,
    ensures
        within(bs, s, x, n),
{
    let p = choose|p: Seq<Seq<char>>| #[trigger] walk_between(bs, p, s, x) && p.len() <= k + 1;
    assert(walk_between(bs, p, s, x) && p.len() <= n + 1);
}

/// The start of a walk is a walk.
pub proof fn lemma_walk_prefix(bs: Seq<Bridge>, p: Seq<Seq<char>>, m: int)
    requires
        is_walk(bs, p),
        1 <= m <= p.len(),
    ensures
        is_walk(bs, p.take(m)),
        p.take(m)[0] == p[0],
        p.take(m).last() == p[m - 1],
{
    let q = p.take(m);
    assert forall|i: int| 0 <= i < q.len() - 1 implies #[trigger] step(bs, q, i) by {
        assert(step(bs, p, i));
    }
}

/// A node first reached after `n + 1` bridges is next to a node first
/// reached after `n` bridges.
pub proof fn lemma_within_pred(bs: Seq<Bridge>, s: Seq<char>, x: Seq<char>, n: nat) -> (y: Seq<char>)
    requires
        within(bs, s, x, n + 1),
        !within(bs, s, x, n),
    ensures
        first_within(bs, s, y, n),
        has_bridge(bs, y, x),
{
    let p = choose|p: Seq<Seq<char>>| #[trigger] walk_between(bs, p, s, x) && p.len() <= n + 2;
    if p.len() <= n + 1 {
        assert(walk_between(bs, p, s, x) && p.len() <= n + 1);
    }
    assert(p.len() == n + 2);
    let y = p[n as int];
    lemma_walk_prefix(bs, p, (n + 1) as int);
    assert(walk_between(bs, p.take((n + 1) as int), s, y));
    assert(within(bs, s, y, n));
    assert(step(bs, p, n as int));
    if n > 0 && within(bs, s, y, (n - 1) as nat) {
        lemma_within_step(bs, s, y, x, (n - 1) as nat);
    }
    y
}

/// When no node is first reached after `k + 1` bridges, every node reachable
/// at all is reachable within `k` bridges.
pub proof fn lemma_within_stable(bs: Seq<Bridge>, s: Seq<char>, k: nat, n: nat, x: Seq<char>)
    requires
        forall|y: Seq<char>| #[trigger] within(bs, s, y, k + 1) ==> within(bs, s, y, k),
        within(bs, s, x, n),
    ensures
        within(bs, s, x, k),
    decreases n,
{
    if n <= k {
        lemma_within_monotone(bs, s, x, n, k);
    } else if within(bs, s, x, (n - 1) as nat) {
        lemma_within_stable(bs, s, k, (n - 1) as nat, x);
    } else {
        let y = lemma_within_pred(bs, s, x, (n - 1) as nat);
        lemma_within_stable(bs, s, k, (n - 1) as nat, y);
        lemma_within_step(bs, s, y, x, k);
    }
}

/// Copies a list of identifiers.
pub fn copy_ids(v: &Vec<ConsciousnessId>) -> (r: Vec<ConsciousnessId>)
    ensures
        r@ == v@,
{
    let mut r: Vec<ConsciousnessId> = Vec::new();
    let mut i: usize = 0;
    while i < v.len()
        invariant
            i <= v@.len(),
            r@ == v@.take(i as int),
        decreases v.len() - i,
    {
        r.push(v[i].clone());
        assert(v@.take(i + 1) =~= v@.take(i as int).push(v@[i as int]));
        i = i + 1;
    }
    assert(v@.take(v@.len() as int) =~= v@);
    r
}

/// Whether `list` holds an identifier with the text of `x`.
pub fn contains_id(list: &Vec<ConsciousnessId>, x: &ConsciousnessId) -> (r: bool)
    ensures
        r == id_views(list@).contains(x@),
{
    let mut i: usize = 0;
    while i < list.len()
        invariant
            i <= list@.len(),
            forall|k: int| 0 <= k < i ==> (#[trigger] list@[k])@ != x@,
        decreases list.len() - i,
    {
        if list[i].same_as(x) {
            assert(id_views(list@)[i as int] == x@);
            return true;
        }
        i = i + 1;
    }
    proof {
        if id_views(list@).contains(x@) {
            let k = id_views(list@).index_of(x@);
            assert(list@[k]@ == x@);
        }
    }
    false
}

} // verus!
