//! Laws of the library: properties that hold across calls and across
//! functions, proved over the models the functions' contracts speak of.

use vstd::prelude::*;

use crate::bridge::{clamp_strength, Bridge, INITIAL_STRENGTH, STRENGTH_SCALE};
use crate::graph::{
    step, lemma_reachable_symmetric, lemma_reachable_transitive, lemma_walk_reverse, reachable,
    walk_between,
};
use crate::identity::{lemma_normalized_text, lemma_normalized_text_eq, normalized_text, text_le, BridgeKey, BridgeType, ConsciousnessId, ConsciousnessType};
use crate::network::{
    bridge_index, built, collected, density, has_bridge, interaction_result, is_fresh_bridge, joins,
    keys_distinct, lemma_collected_distinct, registered_all,
};
use crate::play::{
    discovered, div_toward_zero, events_with, joy_sum, play_progress, play_reinforcement, reinforced_times,
    takes_part, PlayEvent,
};
use crate::registry::{distinct_ids, has_id, id_index, kind_of, registered};
use crate::search::{clustering_upto, is_shortest_path};

verus! {

/// The key of a pair does not depend on the order the pair is given in:
/// `BridgeKey::new(a, b)` and `BridgeKey::new(b, a)` hold the same texts.
pub proof fn law_key_direction_independent(a: ConsciousnessId, b: ConsciousnessId)
    ensures
        BridgeKey::spec_new(a, b).a@ == BridgeKey::spec_new(b, a).a@,
        BridgeKey::spec_new(a, b).b@ == BridgeKey::spec_new(b, a).b@,
        crate::identity::text_le(BridgeKey::spec_new(a, b).a@, BridgeKey::spec_new(a, b).b@),
{
    lemma_normalized_text(a@, b@);
}

/// In a network without repeated pairs, looking a bridge up between `a` and
/// `b` finds the same bridge as looking it up between `b` and `a`.
pub proof fn law_lookup_direction_independent(bs: Seq<Bridge>, a: Seq<char>, b: Seq<char>)
    requires
        keys_distinct(bs),
    ensures
        has_bridge(bs, a, b) == has_bridge(bs, b, a),
        has_bridge(bs, a, b) ==> bridge_index(bs, a, b) == bridge_index(bs, b, a),
{
    crate::graph::lemma_has_bridge_symmetric(bs, a, b);
    if has_bridge(bs, a, b) {
        lemma_index_unique(bs, a, b, bridge_index(bs, a, b), bridge_index(bs, b, a));
    }
}

/// Two bridges that join the same pair are the same position.
proof fn lemma_index_unique(bs: Seq<Bridge>, a: Seq<char>, b: Seq<char>, i: int, j: int)
    requires
        keys_distinct(bs),
        0 <= i < bs.len(),
        0 <= j < bs.len(),
        joins(bs[i], a, b) || joins(bs[i], b, a),
        joins(bs[j], a, b) || joins(bs[j], b, a),
    ensures
        i == j,
{
    if i < j {
        assert(!joins(bs[j], bs[i].from@, bs[i].to@));
    } else if j < i {
        assert(!joins(bs[i], bs[j].from@, bs[j].to@));
    }
}

/// Interacting between `a` and `b` changes the network exactly as
/// interacting between `b` and `a` does.
pub proof fn law_interact_direction_independent(bs: Seq<Bridge>, a: Seq<char>, b: Seq<char>, quality: int, tick: u64)
    requires
        keys_distinct(bs),
    ensures
        interaction_result(bs, a, b, quality, tick) == interaction_result(bs, b, a, quality, tick),
{
    law_lookup_direction_independent(bs, a, b);
}

/// After a bridge is built between `from` and `to`, looking it up (in either
/// direction) finds the freshly built bridge, and the number of bridges grew
/// by one exactly when there was none between them.
pub proof fn law_build_then_get(
    old_bs: Seq<Bridge>,
    new_bs: Seq<Bridge>,
    from: Seq<char>,
    to: Seq<char>,
    t: BridgeType,
    tick: u64,
)
    requires
        keys_distinct(new_bs),
        built(old_bs, new_bs, from, to, t, tick),
    ensures
        has_bridge(new_bs, from, to),
        has_bridge(new_bs, to, from),
        is_fresh_bridge(new_bs[bridge_index(new_bs, from, to)], from, to, t, tick),
        is_fresh_bridge(new_bs[bridge_index(new_bs, to, from)], from, to, t, tick),
        new_bs.len() == old_bs.len() + if has_bridge(old_bs, from, to) {
            0int
        } else {
            1int
        },
{
    let i = if has_bridge(old_bs, from, to) {
        bridge_index(old_bs, from, to)
    } else {
        old_bs.len() as int
    };
    lemma_normalized_text(from, to);
    assert(joins(new_bs[i], from, to));
    let k = bridge_index(new_bs, from, to);
    lemma_index_unique(new_bs, from, to, i, k);
    law_lookup_direction_independent(new_bs, from, to);
}

/// Registering `id` with kind `t` makes `t` its kind and leaves every other
/// identifier's kind as it was.
pub proof fn law_register_then_get(
    entries: Seq<(Seq<char>, ConsciousnessType)>,
    id: Seq<char>,
    t: ConsciousnessType,
    other: Seq<char>,
)
    requires
        distinct_ids(entries),
    ensures
        kind_of(registered(entries, id, t), id) == Some(t),
        other != id ==> kind_of(registered(entries, id, t), other) == kind_of(entries, other),
        distinct_ids(registered(entries, id, t)),
{
    let r = registered(entries, id, t);
    if has_id(entries, id) {
        let i = id_index(entries, id);
        assert(r[i].0 == id);
        lemma_entry_unique(r, id, i, id_index(r, id));
    } else {
        assert(r[entries.len() as int].0 == id);
        lemma_entry_unique(r, id, entries.len() as int, id_index(r, id));
    }
    if other != id {
        if has_id(entries, other) {
            let j = id_index(entries, other);
            assert(r[j].0 == other);
            lemma_entry_unique(r, other, j, id_index(r, other));
        }
        if has_id(r, other) {
            let j = id_index(r, other);
            assert(entries[j].0 == other);
        }
    }
}

/// In entries without repeats, one identifier has one position.
proof fn lemma_entry_unique(entries: Seq<(Seq<char>, ConsciousnessType)>, id: Seq<char>, i: int, j: int)
    requires
        distinct_ids(entries),
        0 <= i < entries.len(),
        0 <= j < entries.len(),
        entries[i].0 == id,
        entries[j].0 == id,
    ensures
        i == j,
{
    if i < j {
        assert(entries[i].0 != entries[j].0);
    } else if j < i {
        assert(entries[j].0 != entries[i].0);
    }
}

/// Registering the entries of a registry one after another rebuilds it.
pub proof fn lemma_registered_all_distinct(entries: Seq<(Seq<char>, ConsciousnessType)>)
    requires
        distinct_ids(entries),
    ensures
        registered_all(entries) == entries,
    decreases entries.len(),
{
    if entries.len() > 0 {
        let init = entries.drop_last();
        lemma_registered_all_distinct(init);
        let last = entries.last();
        if has_id(init, last.0) {
            let i = id_index(init, last.0);
            assert(entries[i].0 != entries[entries.len() - 1].0);
        }
        assert(init.push(last) =~= entries);
    }
}

/// Taking a well-formed network apart (its bridges, its registry entries,
/// its tick) and rebuilding it with `from_parts` gives back the same
/// network.
pub proof fn law_parts_roundtrip(bs: Seq<Bridge>, entries: Seq<(Seq<char>, ConsciousnessType)>)
    requires
        keys_distinct(bs),
        distinct_ids(entries),
    ensures
        collected(bs) == bs,
        registered_all(entries) == entries,
{
    lemma_collected_distinct(bs);
    lemma_registered_all_distinct(entries);
}

/// Play with non-negative joy never weakens a bridge that is within
/// `[0, 1]`, and strictly strengthens one below full strength.
pub proof fn law_play_never_weakens(s: int, joy: int, c: nat)
    requires
        0 <= s <= STRENGTH_SCALE,
        joy >= 0,
        c >= 1,
    ensures
        s <= reinforced_times(s, play_reinforcement(joy), c) <= STRENGTH_SCALE,
        s < STRENGTH_SCALE ==> s < reinforced_times(s, play_reinforcement(joy), c),
    decreases c,
{
    reveal_with_fuel(reinforced_times, 2);
    let r = play_reinforcement(joy);
    assert(r >= STRENGTH_SCALE / 10);
    if c > 1 {
        law_play_never_weakens(s, joy, (c - 1) as nat);
    }
}

/// Clusters do not overlap: no node lies in two clusters.
pub proof fn law_clusters_disjoint(
    bs: Seq<Bridge>,
    types: Seq<(Seq<char>, ConsciousnessType)>,
    cs: Seq<Seq<Seq<char>>>,
    k: int,
    l: int,
    x: Seq<char>,
)
    requires
        clustering_upto(bs, types, cs, types.len() as int),
        0 <= k < l < cs.len(),
    ensures
        !(cs[k].contains(x) && cs[l].contains(x)),
{
    if cs[k].contains(x) && cs[l].contains(x) {
        let sk = cs[k][0];
        let sl = cs[l][0];
        assert(reachable(bs, sk, x));
        assert(reachable(bs, sl, x));
        lemma_reachable_symmetric(bs, sl, x);
        lemma_reachable_transitive(bs, sk, x, sl);
        lemma_reachable_symmetric(bs, sk, sl);
        assert(cs[l].contains(sk));
        assert(id_index(types, sk) < id_index(types, sl));
        assert(types[id_index(types, sk)].0 == sk);
    }
}

/// A shortest path from `a` to `b`, read backwards, is a shortest path from
/// `b` to `a`: distances along bridges are symmetric.
pub proof fn law_shortest_path_reversed(bs: Seq<Bridge>, p: Seq<Seq<char>>, a: Seq<char>, b: Seq<char>)
    requires
        is_shortest_path(bs, p, a, b),
    ensures
        is_shortest_path(bs, p.reverse(), b, a),
{
    lemma_walk_reverse(bs, p);
    assert(walk_between(bs, p.reverse(), b, a));
    assert forall|q: Seq<Seq<char>>| #[trigger] walk_between(bs, q, b, a) implies p.reverse().len() <= q.len() by {
        lemma_walk_reverse(bs, q);
        assert(walk_between(bs, q.reverse(), a, b));
    }
}

/// Every bridge of `bs` has a strength within `[0, 1]`.
pub open spec fn strengths_in_range(bs: Seq<Bridge>) -> bool {
    forall|m: int| 0 <= m < bs.len() ==> 0 <= (#[trigger] bs[m]).strength <= STRENGTH_SCALE
}

/// Every bridge of `bs` has its lesser end first.
pub open spec fn ends_ordered(bs: Seq<Bridge>) -> bool {
    forall|m: int| 0 <= m < bs.len() ==> text_le((#[trigger] bs[m]).from@, bs[m].to@)
}

/// Every end of every bridge of `bs` is registered in `types`.
pub open spec fn ends_registered(bs: Seq<Bridge>, types: Seq<(Seq<char>, ConsciousnessType)>) -> bool {
    forall|m: int|
        0 <= m < bs.len() ==> has_id(types, (#[trigger] bs[m]).from@) && has_id(types, bs[m].to@)
}

/// After at least one reinforcement a strength lies within `[0, 1]`.
proof fn lemma_reinforced_in_range(s: int, r: int, c: nat)
    requires
        c > 0,
    ensures
        0 <= reinforced_times(s, r, c) <= STRENGTH_SCALE,
{
}

/// Building a bridge keeps every strength within `[0, 1]` and every
/// bridge's lesser end first, where they were so before.
pub proof fn law_build_keeps_bridges_sound(
    old_bs: Seq<Bridge>,
    new_bs: Seq<Bridge>,
    from: Seq<char>,
    to: Seq<char>,
    t: BridgeType,
    tick: u64,
)
    requires
        built(old_bs, new_bs, from, to, t, tick),
    ensures
        strengths_in_range(old_bs) ==> strengths_in_range(new_bs),
        ends_ordered(old_bs) ==> ends_ordered(new_bs),
{
    lemma_normalized_text(from, to);
    let i = if has_bridge(old_bs, from, to) {
        bridge_index(old_bs, from, to)
    } else {
        old_bs.len() as int
    };
    assert forall|m: int| 0 <= m < new_bs.len() && m != i implies #[trigger] new_bs[m] == old_bs[m] by {}
    if strengths_in_range(old_bs) {
        assert forall|m: int| 0 <= m < new_bs.len() implies 0 <= (#[trigger] new_bs[m]).strength <= STRENGTH_SCALE by {
            if m != i {
                assert(old_bs[m] == new_bs[m]);
            }
        }
    }
    if ends_ordered(old_bs) {
        assert forall|m: int| 0 <= m < new_bs.len() implies text_le((#[trigger] new_bs[m]).from@, new_bs[m].to@) by {
            if m != i {
                assert(old_bs[m] == new_bs[m]);
            }
        }
    }
}

/// An interaction keeps every strength within `[0, 1]` and every bridge's
/// lesser end first, where they were so before.
pub proof fn law_interact_keeps_bridges_sound(bs: Seq<Bridge>, a: Seq<char>, b: Seq<char>, quality: int, tick: u64)
    ensures
        strengths_in_range(bs) ==> strengths_in_range(interaction_result(bs, a, b, quality, tick)),
        ends_ordered(bs) ==> ends_ordered(interaction_result(bs, a, b, quality, tick)),
{
    let r = interaction_result(bs, a, b, quality, tick);
    if has_bridge(bs, a, b) {
        let k = bridge_index(bs, a, b);
        assert(r[k].strength == clamp_strength(bs[k].strength + quality));
        assert forall|m: int| 0 <= m < r.len() && m != k implies #[trigger] r[m] == bs[m] by {}
        if strengths_in_range(bs) {
            assert forall|m: int| 0 <= m < r.len() implies 0 <= (#[trigger] r[m]).strength <= STRENGTH_SCALE by {
                if m != k {
                    assert(r[m] == bs[m]);
                }
            }
        }
        if ends_ordered(bs) {
            assert forall|m: int| 0 <= m < r.len() implies text_le((#[trigger] r[m]).from@, r[m].to@) by {
                if m != k {
                    assert(r[m] == bs[m]);
                } else {
                    assert(text_le(bs[m].from@, bs[m].to@));
                }
            }
        }
    }
}

/// A play event keeps every strength within `[0, 1]` and every bridge's
/// lesser end first, where they were so before.
pub proof fn law_play_keeps_bridges_sound(
    before: Seq<Bridge>,
    after: Seq<Bridge>,
    ps: Seq<Seq<char>>,
    r: int,
    tick: u64,
)
    requires
        play_progress(before, after, ps, ps.len() as int, ps.len() as int + 1, r, tick),
    ensures
        strengths_in_range(before) ==> strengths_in_range(after),
        ends_ordered(before) ==> ends_ordered(after),
{
    let n = ps.len() as int;
    if strengths_in_range(before) {
        assert forall|m: int| 0 <= m < after.len() implies 0 <= (#[trigger] after[m]).strength <= STRENGTH_SCALE by {
            if m < before.len() {
                let c = crate::play::count_before(ps, n, n + 1, before[m].from@, before[m].to@);
                assert(0 <= before[m].strength <= STRENGTH_SCALE);
                if c > 0 {
                    lemma_reinforced_in_range(before[m].strength as int, r, c);
                }
            } else {
                let c = crate::play::count_before(ps, n, n + 1, after[m].from@, after[m].to@);
                lemma_reinforced_in_range(INITIAL_STRENGTH as int, r, c);
            }
        }
    }
    if ends_ordered(before) {
        assert forall|m: int| 0 <= m < after.len() implies text_le((#[trigger] after[m]).from@, after[m].to@) by {
            if m < before.len() {
                assert(text_le(before[m].from@, before[m].to@));
            }
        }
    }
}

/// In a network whose bridges have their lesser end first, the bridge found
/// between `a` and `b` is stored as the ordered pair of `a` and `b`.
pub proof fn law_lookup_ordered(bs: Seq<Bridge>, a: Seq<char>, b: Seq<char>)
    requires
        ends_ordered(bs),
        has_bridge(bs, a, b),
    ensures
        text_le(bs[bridge_index(bs, a, b)].from@, bs[bridge_index(bs, a, b)].to@),
        (bs[bridge_index(bs, a, b)].from@, bs[bridge_index(bs, a, b)].to@) == normalized_text(a, b),
{
    let k = bridge_index(bs, a, b);
    let f = bs[k].from@;
    let t = bs[k].to@;
    assert(text_le(f, t));
    lemma_normalized_text_eq(f, t, a, b);
    lemma_normalized_text(f, t);
    if text_le(t, f) {
        crate::identity::lemma_text_le_antisymmetric(f, t);
    }
}

/// A node reached from `s` along at least one bridge is the end of a bridge.
proof fn lemma_reached_is_end(bs: Seq<Bridge>, s: Seq<char>, x: Seq<char>)
    requires
        reachable(bs, s, x),
        x != s,
    ensures
        exists|m: int| 0 <= m < bs.len() && ((#[trigger] bs[m]).from@ == x || bs[m].to@ == x),
{
    let p = choose|p: Seq<Seq<char>>| #[trigger] walk_between(bs, p, s, x);
    assert(p.len() >= 2);
    let i = p.len() - 2;
    assert(step(bs, p, i));
    let m = bridge_index(bs, p[i], p[i + 1]);
    assert(joins(bs[m], p[i], x));
}

/// A member of a cluster is registered, when every bridge end is.
proof fn lemma_cluster_member_registered(
    bs: Seq<Bridge>,
    types: Seq<(Seq<char>, ConsciousnessType)>,
    cs: Seq<Seq<Seq<char>>>,
    k: int,
    x: Seq<char>,
)
    requires
        clustering_upto(bs, types, cs, types.len() as int),
        ends_registered(bs, types),
        0 <= k < cs.len(),
        cs[k].contains(x),
    ensures
        has_id(types, x),
{
    let seed = cs[k][0];
    assert(has_id(types, seed));
    if x != seed {
        assert(reachable(bs, seed, x));
        lemma_reached_is_end(bs, seed, x);
        let m = choose|m: int| 0 <= m < bs.len() && ((#[trigger] bs[m]).from@ == x || bs[m].to@ == x);
        assert(has_id(types, bs[m].from@) && has_id(types, bs[m].to@));
    }
}

/// Two members share a cluster exactly when one reaches the other.
proof fn lemma_cluster_same_iff_reachable(
    bs: Seq<Bridge>,
    types: Seq<(Seq<char>, ConsciousnessType)>,
    cs: Seq<Seq<Seq<char>>>,
    k: int,
    l: int,
    x: Seq<char>,
    y: Seq<char>,
)
    requires
        clustering_upto(bs, types, cs, types.len() as int),
        0 <= k < cs.len(),
        0 <= l < cs.len(),
        cs[k].contains(x),
        cs[l].contains(y),
    ensures
        k == l <==> reachable(bs, x, y),
{
    let sk = cs[k][0];
    assert(reachable(bs, sk, x));
    if k == l {
        assert(reachable(bs, sk, y));
        lemma_reachable_symmetric(bs, sk, x);
        lemma_reachable_transitive(bs, x, sk, y);
    }
    if reachable(bs, x, y) && k != l {
        lemma_reachable_transitive(bs, sk, x, y);
        assert(cs[k].contains(y));
        if k < l {
            law_clusters_disjoint(bs, types, cs, k, l, y);
        } else {
            law_clusters_disjoint(bs, types, cs, l, k, y);
        }
    }
}

/// When every end of every bridge is registered, the clusters partition
/// the registered consciousnesses by reachability: every registered one lies
/// in exactly one cluster, every member of a cluster is registered, and two
/// members lie in the same cluster exactly when one can be reached from the
/// other.
pub proof fn law_clusters_partition(
    bs: Seq<Bridge>,
    types: Seq<(Seq<char>, ConsciousnessType)>,
    cs: Seq<Seq<Seq<char>>>,
)
    requires
        clustering_upto(bs, types, cs, types.len() as int),
        ends_registered(bs, types),
    ensures
        forall|j: int| 0 <= j < types.len() ==> crate::search::in_some_cluster(cs, #[trigger] types[j].0),
        forall|k: int, l: int, x: Seq<char>|
            0 <= k < cs.len() && 0 <= l < cs.len() && #[trigger] cs[k].contains(x) && #[trigger] cs[l].contains(x)
                ==> k == l,
        forall|k: int, x: Seq<char>| 0 <= k < cs.len() && #[trigger] cs[k].contains(x) ==> has_id(types, x),
        forall|k: int, l: int, x: Seq<char>, y: Seq<char>|
            0 <= k < cs.len() && 0 <= l < cs.len() && #[trigger] cs[k].contains(x) && #[trigger] cs[l].contains(y)
                ==> (k == l <==> reachable(bs, x, y)),
{
    assert forall|k: int, l: int, x: Seq<char>|
        0 <= k < cs.len() && 0 <= l < cs.len() && #[trigger] cs[k].contains(x) && #[trigger] cs[l].contains(x)
            implies k == l by {
        if k < l {
            law_clusters_disjoint(bs, types, cs, k, l, x);
        } else if l < k {
            law_clusters_disjoint(bs, types, cs, l, k, x);
        }
    }
    assert forall|k: int, x: Seq<char>| 0 <= k < cs.len() && #[trigger] cs[k].contains(x) implies has_id(types, x) by {
        lemma_cluster_member_registered(bs, types, cs, k, x);
    }
    assert forall|k: int, l: int, x: Seq<char>, y: Seq<char>|
        0 <= k < cs.len() && 0 <= l < cs.len() && #[trigger] cs[k].contains(x) && #[trigger] cs[l].contains(y)
            implies (k == l <==> reachable(bs, x, y)) by {
        lemma_cluster_same_iff_reachable(bs, types, cs, k, l, x, y);
    }
}

/// The density is the number of bridges over the number of possible pairs
/// `n (n - 1) / 2`, in billionths, rounded down; 1.0 for at most one node.
/// So a complete graph has density exactly 1.0, and a network with no more
/// bridges than pairs has density at most 1.0.
pub proof fn law_density_is_bridges_over_pairs(n: nat, m: nat)
    ensures
        n <= 1 ==> density(n, m) == STRENGTH_SCALE,
        n >= 2 ==> density(n, m) * (n * (n - 1) / 2) <= m * STRENGTH_SCALE < (density(n, m) + 1) * (n * (n
            - 1) / 2),
        n >= 2 && m == n * (n - 1) / 2 ==> density(n, m) == STRENGTH_SCALE,
        n >= 2 && m <= n * (n - 1) / 2 ==> density(n, m) <= STRENGTH_SCALE,
{
    if n >= 2 {
        let p: int = (n * (n - 1) / 2) as int;
        assert(n * (n - 1) >= 2) by (nonlinear_arith)
            requires
                n >= 2,
        ;
        assert(p >= 1);
        let x: int = m * STRENGTH_SCALE;
        let q: int = density(n, m) as int;
        assert(q == x / p);
        vstd::arithmetic::div_mod::lemma_fundamental_div_mod(x, p);
        vstd::arithmetic::div_mod::lemma_mod_pos_bound(x, p);
        assert(p * q <= x < p * q + p);
        assert(q * p <= x < (q + 1) * p) by (nonlinear_arith)
            requires
                p * q <= x < p * q + p,
        ;
        if m <= p {
            assert(q <= STRENGTH_SCALE) by (nonlinear_arith)
                requires
                    q * p <= x,
                    x == m * STRENGTH_SCALE,
                    m <= p,
                    p >= 1,
            ;
        }
        if m == p {
            assert(q >= STRENGTH_SCALE) by (nonlinear_arith)
                requires
                    x < (q + 1) * p,
                    x == p * STRENGTH_SCALE,
                    p >= 1,
            ;
        }
    }
}

/// The discoveries are those of the events that made one, in the order of
/// the events: as many as there are such events, the `k`-th being the
/// discovery of the `k`-th such event; repeats are kept.
pub proof fn law_discoveries_are_those_of_events(h: Seq<PlayEvent>)
    ensures
        discovered(h).len() == h.filter(|e: PlayEvent| e.discovery is Some).len(),
        forall|k: int|
            0 <= k < discovered(h).len() ==> #[trigger] discovered(h)[k] == h.filter(
                |e: PlayEvent| e.discovery is Some,
            )[k].discovery->0@,
    decreases h.len(),
{
    let pred = |e: PlayEvent| e.discovery is Some;
    if h.len() > 0 {
        let init = h.drop_last();
        let last = h.last();
        law_discoveries_are_those_of_events(init);
        assert(h =~= init.push(last));
        init.lemma_filter_push(last, pred);
        let fi = init.filter(pred);
        let f = h.filter(pred);
        match last.discovery {
            Some(d) => {
                assert(f == fi.push(last));
                assert(discovered(h) =~= discovered(init) + seq![d@]);
                assert forall|k: int| 0 <= k < discovered(h).len() implies #[trigger] discovered(h)[k]
                    == f[k].discovery->0@ by {
                    if k < discovered(init).len() {
                        assert(discovered(h)[k] == discovered(init)[k]);
                    }
                }
            },
            None => {
                assert(f == fi);
                assert(discovered(h) =~= discovered(init));
            },
        }
    } else {
        assert(h.filter(pred) =~= Seq::<PlayEvent>::empty()) by {
            reveal(Seq::filter);
        }
    }
}

/// The joy of a history is the sum of the joy scores of its events: a single
/// event contributes its score, whatever its participants, and the joy of
/// two histories one after the other adds up.
pub proof fn law_joy_sum_adds_up(h1: Seq<PlayEvent>, h2: Seq<PlayEvent>, e: PlayEvent)
    ensures
        joy_sum(Seq::<PlayEvent>::empty()) == 0,
        joy_sum(seq![e]) == e.joy_score,
        joy_sum(h1 + h2) == joy_sum(h1) + joy_sum(h2),
    decreases h2.len(),
{
    assert(seq![e].drop_last() =~= Seq::<PlayEvent>::empty());
    if h2.len() == 0 {
        assert(h1 + h2 =~= h1);
    } else {
        law_joy_sum_adds_up(h1, h2.drop_last(), e);
        assert((h1 + h2).drop_last() =~= h1 + h2.drop_last());
        assert((h1 + h2).last() == h2.last());
    }
}

/// A history whose events all have joy `j` sums to `j` per event.
proof fn lemma_joy_sum_constant(h: Seq<PlayEvent>, j: int)
    requires
        forall|i: int| 0 <= i < h.len() ==> (#[trigger] h[i]).joy_score == j,
    ensures
        joy_sum(h) == j * h.len(),
    decreases h.len(),
{
    if h.len() > 0 {
        lemma_joy_sum_constant(h.drop_last(), j);
        assert(h.last() == h[h.len() - 1]);
        assert(j * (h.len() - 1) + j == j * h.len()) by (nonlinear_arith);
    }
}

/// The average joy of a history whose events all have joy `j` is `j`, and
/// the average of any non-empty history lies within less than one billionth
/// per event of the exact average, rounded toward zero.
pub proof fn law_joy_average(h: Seq<PlayEvent>, j: int)
    requires
        h.len() > 0,
    ensures
        (forall|i: int| 0 <= i < h.len() ==> (#[trigger] h[i]).joy_score == j) ==> div_toward_zero(
            joy_sum(h),
            h.len() as int,
        ) == j,
        joy_sum(h) >= 0 ==> div_toward_zero(joy_sum(h), h.len() as int) * h.len() <= joy_sum(h) < (div_toward_zero(
            joy_sum(h),
            h.len() as int,
        ) + 1) * h.len(),
        joy_sum(h) < 0 ==> (div_toward_zero(joy_sum(h), h.len() as int) - 1) * h.len() < joy_sum(h)
            <= div_toward_zero(joy_sum(h), h.len() as int) * h.len(),
{
    let n: int = h.len() as int;
    let s = joy_sum(h);
    if forall|i: int| 0 <= i < h.len() ==> (#[trigger] h[i]).joy_score == j {
        lemma_joy_sum_constant(h, j);
        if j >= 0 {
            vstd::arithmetic::div_mod::lemma_div_by_multiple(j, n);
            assert(s == j * n);
        } else {
            vstd::arithmetic::div_mod::lemma_div_by_multiple(-j, n);
            assert(-s == (-j) * n) by (nonlinear_arith)
                requires
                    s == j * n,
            ;
        }
    }
    if s >= 0 {
        vstd::arithmetic::div_mod::lemma_fundamental_div_mod(s, n);
        vstd::arithmetic::div_mod::lemma_mod_pos_bound(s, n);
        let q = s / n;
        assert(q * n <= s < (q + 1) * n) by (nonlinear_arith)
            requires
                s == n * q + s % n,
                0 <= s % n < n,
        ;
    } else {
        let t = -s;
        vstd::arithmetic::div_mod::lemma_fundamental_div_mod(t, n);
        vstd::arithmetic::div_mod::lemma_mod_pos_bound(t, n);
        let q = t / n;
        assert((-q - 1) * n < s <= (-q) * n) by (nonlinear_arith)
            requires
                t == n * q + t % n,
                0 <= t % n < n,
                s == -t,
        ;
    }
}

/// The number of events a consciousness takes part in: none in an empty
/// history, one more with each event it takes part in (however often it is
/// listed there), never more than the number of events; it takes part in an
/// event exactly when one of the event's participants is it.
pub proof fn law_events_with_counts_events(h: Seq<PlayEvent>, e: PlayEvent, x: Seq<char>)
    ensures
        events_with(Seq::<PlayEvent>::empty(), x) == 0,
        events_with(h.push(e), x) == events_with(h, x) + if takes_part(e, x) {
            1int
        } else {
            0int
        },
        events_with(h, x) <= h.len(),
        takes_part(e, x) <==> exists|i: int| 0 <= i < e.participants@.len() && (#[trigger] e.participants@[i])@ == x,
{
    let pred = |ev: PlayEvent| takes_part(ev, x);
    assert(Seq::<PlayEvent>::empty().filter(pred) =~= Seq::<PlayEvent>::empty()) by {
        reveal(Seq::filter);
    }
    h.lemma_filter_push(e, pred);
    h.lemma_filter_len(pred);
    let v = crate::graph::id_views(e.participants@);
    if v.contains(x) {
        let i = v.index_of(x);
        assert(e.participants@[i]@ == x);
    }
    if exists|i: int| 0 <= i < e.participants@.len() && (#[trigger] e.participants@[i])@ == x {
        let i = choose|i: int| 0 <= i < e.participants@.len() && (#[trigger] e.participants@[i])@ == x;
        assert(v[i] == x);
    }
}

} // verus!
