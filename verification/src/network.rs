//! The network: registered consciousnesses and the bridges between them.
//!
//! Bridges are undirected: the bridge between `a` and `b` is found, built
//! and reinforced the same whichever of the two is named first. The network
//! holds at most one bridge per unordered pair.

use vstd::prelude::*;

use crate::bridge::{Bridge, ACTIVE_THRESHOLD, INITIAL_STRENGTH, STRENGTH_SCALE};
use crate::identity::{
    decimal, normalize_pair, normalized_text, push_decimal, same_pair, BridgeType,
    ConsciousnessId, ConsciousnessType,
};
use crate::registry::{registered, TypeRegistry};

verus! {

// ---------------------------------------------------------------------------
// The model of a list of bridges
// ---------------------------------------------------------------------------

/// Whether `b` connects `x` and `y`, in either direction.
pub open spec fn joins(b: Bridge, x: Seq<char>, y: Seq<char>) -> bool {
    same_pair(b.from@, b.to@, x, y)
}

/// Whether `b` has `x` at one of its ends.
pub open spec fn touches(b: Bridge, x: Seq<char>) -> bool {
    b.from@ == x || b.to@ == x
}

/// No two bridges of `bs` connect the same unordered pair.
pub open spec fn keys_distinct(bs: Seq<Bridge>) -> bool {
    forall|i: int, j: int|
        0 <= i < j < bs.len() ==> !joins(#[trigger] bs[j], (#[trigger] bs[i]).from@, bs[i].to@)
}

/// Whether some bridge of `bs` connects `x` and `y`.
pub open spec fn has_bridge(bs: Seq<Bridge>, x: Seq<char>, y: Seq<char>) -> bool {
    exists|i: int| 0 <= i < bs.len() && joins(#[trigger] bs[i], x, y)
}

/// The position of the bridge connecting `x` and `y` (where there is one).
pub open spec fn bridge_index(bs: Seq<Bridge>, x: Seq<char>, y: Seq<char>) -> int {
    choose|i: int| 0 <= i < bs.len() && joins(#[trigger] bs[i], x, y)
}

/// The identifier given to a bridge built between `a` and `b` (in this
/// order) at `tick`: `bridge-{a}-{b}-{tick}`.
pub open spec fn bridge_id_text(a: Seq<char>, b: Seq<char>, tick: u64) -> Seq<char> {
    "bridge-"@ + a + "-"@ + b + "-"@ + decimal(tick as nat)
}

/// Whether `b` is the bridge that `build_bridge(from, to, t)` makes at `tick`.
pub open spec fn is_fresh_bridge(
    b: Bridge,
    from: Seq<char>,
    to: Seq<char>,
    t: BridgeType,
    tick: u64,
) -> bool {
    let k = normalized_text(from, to);
    &&& b.id@ == bridge_id_text(k.0, k.1, tick)
    &&& b.from@ == k.0
    &&& b.to@ == k.1
    &&& b.bridge_type == t
    &&& b.strength == INITIAL_STRENGTH
    &&& b.established_tick == tick
    &&& b.interactions == 0
    &&& b.last_interaction == tick
}

/// `b` after an interaction of the given quality at `tick`.
pub open spec fn interacted(b: Bridge, quality: int, tick: u64) -> Bridge {
    Bridge { last_interaction: tick, ..Bridge::spec_reinforced(b, quality) }
}

/// `new_bs` is `old_bs` after building a bridge of type `t` between `from`
/// and `to` at `tick`: a bridge already between them is replaced in place by
/// the fresh one, otherwise the fresh one is added at the end.
pub open spec fn built(
    old_bs: Seq<Bridge>,
    new_bs: Seq<Bridge>,
    from: Seq<char>,
    to: Seq<char>,
    t: BridgeType,
    tick: u64,
) -> bool {
    let i = if has_bridge(old_bs, from, to) {
        bridge_index(old_bs, from, to)
    } else {
        old_bs.len() as int
    };
    &&& new_bs.len() == if has_bridge(old_bs, from, to) {
        old_bs.len()
    } else {
        old_bs.len() + 1
    }
    &&& is_fresh_bridge(new_bs[i], from, to, t, tick)
    &&& forall|j: int| 0 <= j < new_bs.len() && j != i ==> new_bs[j] == old_bs[j]
}

/// `bs` after an interaction of the given quality between `from` and `to`
/// at `tick`: the bridge between them is reinforced; without one, nothing
/// changes.
pub open spec fn interaction_result(bs: Seq<Bridge>, from: Seq<char>, to: Seq<char>, quality: int, tick: u64) -> Seq<
    Bridge,
> {
    if has_bridge(bs, from, to) {
        bs.update(bridge_index(bs, from, to), interacted(bs[bridge_index(bs, from, to)], quality, tick))
    } else {
        bs
    }
}

/// The density in billionths of `m` bridges among `n` consciousnesses:
/// `m` over the `n (n - 1) / 2` possible pairs, 1.0 for at most one node.
pub open spec fn density(n: nat, m: nat) -> nat {
    if n <= 1 {
        STRENGTH_SCALE as nat
    } else {
        (m * (STRENGTH_SCALE as nat)) / ((n * (n - 1) / 2) as nat)
    }
}

/// `bs` after adding `b` the way a map keyed by unordered pair does: a bridge
/// with the same pair is replaced in place, otherwise `b` goes at the end.
pub open spec fn inserted(bs: Seq<Bridge>, b: Bridge) -> Seq<Bridge> {
    if has_bridge(bs, b.from@, b.to@) {
        bs.update(bridge_index(bs, b.from@, b.to@), b)
    } else {
        bs.push(b)
    }
}

/// The bridges kept when `bs` are added one after another with `inserted`.
pub open spec fn collected(bs: Seq<Bridge>) -> Seq<Bridge>
    decreases bs.len(),
{
    if bs.len() == 0 {
        Seq::empty()
    } else {
        inserted(collected(bs.drop_last()), bs.last())
    }
}

/// The registry entries kept when `entries` are registered one after another.
pub open spec fn registered_all(entries: Seq<(Seq<char>, ConsciousnessType)>) -> Seq<
    (Seq<char>, ConsciousnessType),
>
    decreases entries.len(),
{
    if entries.len() == 0 {
        Seq::empty()
    } else {
        registered(registered_all(entries.drop_last()), entries.last().0, entries.last().1)
    }
}

/// In a list without repeated pairs, the bridge joining a pair is the one
/// found for it.
pub proof fn lemma_bridge_index_unique(bs: Seq<Bridge>, x: Seq<char>, y: Seq<char>, i: int)
    requires
        keys_distinct(bs),
        0 <= i < bs.len(),
        joins(bs[i], x, y),
    ensures
        has_bridge(bs, x, y),
        bridge_index(bs, x, y) == i,
{
    assert(has_bridge(bs, x, y));
    let j = bridge_index(bs, x, y);
    if j < i {
        assert(!joins(bs[i], bs[j].from@, bs[j].to@));
    } else if i < j {
        assert(!joins(bs[j], bs[i].from@, bs[i].to@));
    }
}

/// A list of distinct-keyed bridges is kept as it is by `collected`.
pub proof fn lemma_collected_distinct(bs: Seq<Bridge>)
    requires
        keys_distinct(bs),
    ensures
        collected(bs) == bs,
    decreases bs.len(),
{
    if bs.len() > 0 {
        let init = bs.drop_last();
        assert(keys_distinct(init));
        lemma_collected_distinct(init);
        let b = bs.last();
        if has_bridge(init, b.from@, b.to@) {
            let i = bridge_index(init, b.from@, b.to@);
            assert(joins(bs[i], b.from@, b.to@));
            assert(bs[bs.len() - 1] == b);
            assert(joins(bs[bs.len() - 1], bs[i].from@, bs[i].to@));
            assert(false);
        }
        assert(init.push(b) =~= bs);
    }
}

/// `inserted` keeps the keys of a list distinct.
pub proof fn lemma_inserted_distinct(bs: Seq<Bridge>, b: Bridge)
    requires
        keys_distinct(bs),
    ensures
        keys_distinct(inserted(bs, b)),
{
    let r = inserted(bs, b);
    if has_bridge(bs, b.from@, b.to@) {
        let k = bridge_index(bs, b.from@, b.to@);
        assert forall|i: int, j: int| 0 <= i < j < r.len() implies !joins(
            #[trigger] r[j],
            (#[trigger] r[i]).from@,
            r[i].to@,
        ) by {
            if i == k {
                assert(!joins(bs[j], bs[k].from@, bs[k].to@));
            } else if j == k {
                assert(!joins(bs[k], bs[i].from@, bs[i].to@));
            }
        }
    } else {
        assert forall|i: int, j: int| 0 <= i < j < r.len() implies !joins(
            #[trigger] r[j],
            (#[trigger] r[i]).from@,
            r[i].to@,
        ) by {
            if j == bs.len() {
                if joins(b, bs[i].from@, bs[i].to@) {
                    assert(joins(bs[i], b.from@, b.to@));
                }
            }
        }
    }
}

// ---------------------------------------------------------------------------
// BridgeNetwork
// ---------------------------------------------------------------------------

/// A network of bridges connecting consciousnesses.
#[derive(Clone, Debug)]
pub struct BridgeNetwork {
    /// The bridges, in the order they were first built; at most one per
    /// unordered pair where the network is well formed.
    pub bridges: Vec<Bridge>,
    pub consciousness_types: TypeRegistry,
    pub tick: u64,
}

impl BridgeNetwork {
    /// The bridges, in the order they were first built.
    pub open spec fn bridge_list(&self) -> Seq<Bridge> {
        self.bridges@
    }

    /// The registered consciousnesses and their kinds, in registration order.
    pub open spec fn types(&self) -> Seq<(Seq<char>, ConsciousnessType)> {
        self.consciousness_types@
    }

    /// The current tick.
    pub open spec fn clock(&self) -> u64 {
        self.tick
    }

    /// The registry holds each identifier once, and no two bridges connect
    /// the same unordered pair.
    pub open spec fn wf(&self) -> bool {
        &&& crate::registry::distinct_ids(self.types())
        &&& keys_distinct(self.bridge_list())
    }

    /// The current tick.
    pub fn current_tick(&self) -> (r: u64)
        ensures
            r == self.clock(),
    {
        self.tick
    }

    /// Create a new, empty network.
    pub fn new() -> (r: Self)
        ensures
            r.wf(),
            r.bridge_list() == Seq::<Bridge>::empty(),
            r.types() == Seq::<(Seq<char>, ConsciousnessType)>::empty(),
            r.clock() == 0,
    {
        let r = BridgeNetwork { bridges: Vec::new(), consciousness_types: TypeRegistry::new(), tick: 0 };
        assert(r.bridges@ =~= Seq::<Bridge>::empty());
        r
    }

    /// Rebuilds a network from its parts: bridges are added one after
    /// another keyed by unordered pair (a later bridge replaces an earlier
    /// one of the same pair), and kinds are registered one after another.
    pub fn from_parts(
        bridges: Vec<Bridge>,
        types: Vec<(ConsciousnessId, ConsciousnessType)>,
        tick: u64,
    ) -> (r: Self)
        ensures
            r.wf(),
            r.bridge_list() == collected(bridges@),
            r.types() == registered_all(
                types@.map_values(|e: (ConsciousnessId, ConsciousnessType)| (e.0@, e.1)),
            ),
            r.clock() == tick,
    {
        let mut net = BridgeNetwork::new();
        net.tick = tick;
        let ghost tv = types@.map_values(|e: (ConsciousnessId, ConsciousnessType)| (e.0@, e.1));
        let mut types = types;
        let ghost all_types = types@;
        let mut k: usize = 0;
        let n = types.len();
        while k < n
            invariant
                n == all_types.len(),
                types@ == all_types.skip(k as int),
                k <= n,
                net.wf(),
                net.tick == tick,
                net.bridges@ == Seq::<Bridge>::empty(),
                tv == all_types.map_values(|e: (ConsciousnessId, ConsciousnessType)| (e.0@, e.1)),
                net.consciousness_types@ == registered_all(tv.take(k as int)),
            decreases n - k,
        {
            let (id, t) = types.remove(0);
            proof {
                assert(tv.take(k + 1).drop_last() =~= tv.take(k as int));
                assert(tv.take(k + 1).last() == (id@, t));
                assert(types@ =~= all_types.skip(k + 1));
            }
            net.consciousness_types.insert(id, t);
            k = k + 1;
        }
        assert(tv.take(n as int) =~= tv);
        let mut bridges = bridges;
        let ghost all = bridges@;
        let m = bridges.len();
        let mut j: usize = 0;
        while j < m
            invariant
                m == all.len(),
                j <= m,
                bridges@ == all.skip(j as int),
                net.wf(),
                net.tick == tick,
                net.consciousness_types@ == registered_all(tv),
                net.bridges@ == collected(all.take(j as int)),
            decreases m - j,
        {
            let b = bridges.remove(0);
            proof {
                assert(all.take(j + 1).drop_last() =~= all.take(j as int));
                assert(all.take(j + 1).last() == b);
                assert(bridges@ =~= all.skip(j + 1));
                lemma_inserted_distinct(net.bridges@, b);
            }
            net.insert_bridge(b);
            j = j + 1;
        }
        assert(all.take(m as int) =~= all);
        net
    }

    /// Adds `b`, replacing a bridge with the same unordered pair.
    fn insert_bridge(&mut self, b: Bridge)
        requires
            old(self).wf(),
        ensures
            final(self).bridge_list() == inserted(old(self).bridge_list(), b),
            final(self).types() == old(self).types(),
            final(self).clock() == old(self).clock(),
            final(self).wf(),
    {
        proof {
            lemma_inserted_distinct(self.bridges@, b);
        }
        match self.position(&b.from, &b.to) {
            Some(i) => {
                self.bridges.set(i, b);
            },
            None => {
                self.bridges.push(b);
            },
        }
    }

    /// The position of the bridge between `a` and `b`, if there is one.
    pub fn position(&self, a: &ConsciousnessId, b: &ConsciousnessId) -> (r: Option<usize>)
        requires
            self.wf(),
        ensures
            r is Some == has_bridge(self.bridge_list(), a@, b@),
            r matches Some(i) ==> i == bridge_index(self.bridge_list(), a@, b@) && i
                < self.bridge_list().len(),
    {
        let mut i: usize = 0;
        while i < self.bridges.len()
            invariant
                i <= self.bridges@.len(),
                self.wf(),
                forall|k: int| 0 <= k < i ==> !joins(#[trigger] self.bridges@[k], a@, b@),
            decreases self.bridges.len() - i,
        {
            let br = &self.bridges[i];
            if (br.from.same_as(a) && br.to.same_as(b)) || (br.from.same_as(b) && br.to.same_as(a)) {
                assert(joins(self.bridges@[i as int], a@, b@));
                proof {
                    let j = bridge_index(self.bridges@, a@, b@);
                    assert(joins(self.bridges@[j], a@, b@));
                    if j != i {
                        if j < i {
                            assert(!joins(self.bridges@[i as int], self.bridges@[j].from@, self.bridges@[j].to@));
                        } else {
                            assert(!joins(self.bridges@[j], self.bridges@[i as int].from@, self.bridges@[i as int].to@));
                        }
                    }
                }
                return Some(i);
            }
            i = i + 1;
        }
        None
    }

    /// Register a consciousness of a given type.
    pub fn register(&mut self, id: ConsciousnessId, ctype: ConsciousnessType)
        requires
            old(self).wf(),
        ensures
            final(self).wf(),
            final(self).types() == registered(old(self).types(), id@, ctype),
            final(self).bridge_list() == old(self).bridge_list(),
            final(self).clock() == old(self).clock(),
    {
        self.consciousness_types.insert(id, ctype);
    }

    /// Build a bridge between two consciousnesses and return its id.
    ///
    /// The two ids are sorted lexicographically so that `from` is always the
    /// lesser one. A bridge already between the two is replaced in place by
    /// the new one; otherwise the new one is added at the end.
    pub fn build_bridge(&mut self, from: ConsciousnessId, to: ConsciousnessId, bridge_type: BridgeType) -> (r:
        String)
        requires
            old(self).wf(),
        ensures
            final(self).wf(),
            r@ == bridge_id_text(normalized_text(from@, to@).0, normalized_text(from@, to@).1, old(self).clock()),
            built(old(self).bridge_list(), final(self).bridge_list(), from@, to@, bridge_type, old(self).clock()),
            final(self).types() == old(self).types(),
            final(self).clock() == old(self).clock(),
    {
        let (a, b) = normalize_pair(&from, &to);
        proof {
            crate::identity::lemma_normalized_text(from@, to@);
        }
        let mut id = String::new();
        id.append("bridge-");
        id.append(a.0.as_str());
        id.append("-");
        id.append(b.0.as_str());
        id.append("-");
        push_decimal(&mut id, self.tick);
        let bridge = Bridge {
            id: id.clone(),
            from: a,
            to: b,
            bridge_type,
            strength: INITIAL_STRENGTH,
            established_tick: self.tick,
            interactions: 0,
            last_interaction: self.tick,
        };
        proof {
            assert(id@ =~= bridge_id_text(normalized_text(from@, to@).0, normalized_text(from@, to@).1, self.tick));
            assert(forall|k: int| 0 <= k < self.bridges@.len() ==>
                (joins(#[trigger] self.bridges@[k], bridge.from@, bridge.to@) == joins(self.bridges@[k], from@, to@)));
        }
        self.insert_bridge(bridge);
        id
    }

    /// Interact across a bridge — reinforces it by `quality` and records the
    /// tick. Direction-independent; nothing happens when there is no bridge.
    pub fn interact(&mut self, from: &ConsciousnessId, to: &ConsciousnessId, quality: i64)
        requires
            old(self).wf(),
            forall|i: int|
                0 <= i < old(self).bridge_list().len() && joins(#[trigger] old(self).bridge_list()[i], from@, to@)
                    ==> old(self).bridge_list()[i].interactions < u64::MAX,
        ensures
            final(self).wf(),
            final(self).bridge_list() == interaction_result(old(self).bridge_list(), from@, to@, quality as int, old(self).clock()),
            final(self).types() == old(self).types(),
            final(self).clock() == old(self).clock(),
    {
        match self.position(from, to) {
            Some(i) => {
                let mut b = self.bridges[i].clone();
                b.reinforce(quality);
                b.last_interaction = self.tick;
                proof {
                    assert forall|p: int, q: int| 0 <= p < q < self.bridges@.update(i as int, b).len() implies !joins(
                        #[trigger] self.bridges@.update(i as int, b)[q],
                        (#[trigger] self.bridges@.update(i as int, b)[p]).from@,
                        self.bridges@.update(i as int, b)[p].to@,
                    ) by {
                        assert(!joins(self.bridges@[q], self.bridges@[p].from@, self.bridges@[p].to@));
                    }
                }
                self.bridges.set(i, b);
            },
            None => {},
        }
    }

    /// Get the bridge between two consciousnesses, in either direction.
    pub fn get_bridge(&self, a: &ConsciousnessId, b: &ConsciousnessId) -> (r: Option<&Bridge>)
        requires
            self.wf(),
        ensures
            r is Some == has_bridge(self.bridge_list(), a@, b@),
            r matches Some(br) ==> *br == self.bridge_list()[bridge_index(self.bridge_list(), a@, b@)],
    {
        match self.position(a, b) {
            Some(i) => Some(&self.bridges[i]),
            None => None,
        }
    }

    /// All bridges involving a given consciousness, in network order.
    pub fn bridges_for(&self, id: &ConsciousnessId) -> (r: Vec<&Bridge>)
        ensures
            r@.map_values(|b: &Bridge| *b) == self.bridge_list().filter(|b: Bridge| touches(b, id@)),
    {
        let ghost pred = |b: Bridge| touches(b, id@);
        let mut r: Vec<&Bridge> = Vec::new();
        let mut i: usize = 0;
        while i < self.bridges.len()
            invariant
                i <= self.bridges@.len(),
                pred == (|b: Bridge| touches(b, id@)),
                r@.map_values(|b: &Bridge| *b) == self.bridges@.take(i as int).filter(pred),
            decreases self.bridges.len() - i,
        {
            let b = &self.bridges[i];
            proof {
                assert(self.bridges@.take(i + 1) =~= self.bridges@.take(i as int).push(*b));
                self.bridges@.take(i as int).lemma_filter_push(*b, pred);
            }
            if b.from.same_as(id) || b.to.same_as(id) {
                r.push(b);
                assert(r@.map_values(|b: &Bridge| *b) =~= self.bridges@.take(i + 1).filter(pred));
            }
            i = i + 1;
        }
        assert(self.bridges@.take(self.bridges@.len() as int) =~= self.bridges@);
        r
    }

    /// The strongest bridge involving a given consciousness.
    pub fn strongest_bridge(&self, id: &ConsciousnessId) -> (r: Option<&Bridge>)
        ensures
            r is None <==> forall|i: int|
                0 <= i < self.bridge_list().len() ==> !touches(#[trigger] self.bridge_list()[i], id@),
            r matches Some(best) ==> exists|i: int|
                0 <= i < self.bridge_list().len() && #[trigger] self.bridge_list()[i] == *best && touches(
                    *best,
                    id@,
                ),
            r matches Some(best) ==> forall|i: int|
                0 <= i < self.bridge_list().len() && touches(#[trigger] self.bridge_list()[i], id@)
                    ==> self.bridge_list()[i].strength <= best.strength,
    {
        let mut best: Option<usize> = None;
        let mut i: usize = 0;
        while i < self.bridges.len()
            invariant
                i <= self.bridges@.len(),
                best is None ==> forall|k: int| 0 <= k < i ==> !touches(#[trigger] self.bridges@[k], id@),
                best matches Some(j) ==> j < i && touches(self.bridges@[j as int], id@) && forall|k: int|
                    0 <= k < i && touches(#[trigger] self.bridges@[k], id@) ==> self.bridges@[k].strength
                        <= self.bridges@[j as int].strength,
            decreases self.bridges.len() - i,
        {
            let b = &self.bridges[i];
            if b.from.same_as(id) || b.to.same_as(id) {
                match best {
                    None => {
                        best = Some(i);
                    },
                    Some(j) => {
                        if b.strength >= self.bridges[j].strength {
                            best = Some(i);
                        }
                    },
                }
            }
            i = i + 1;
        }
        match best {
            Some(j) => Some(&self.bridges[j]),
            None => None,
        }
    }

    /// Network density in billionths — the ratio of actual to possible
    /// bridges, rounded down. 1.0 for 0 or 1 consciousnesses.
    pub fn network_density(&self) -> (r: u128)
        ensures
            r == density(self.types().len(), self.bridge_list().len()),
            self.types().len() <= 1 ==> r == STRENGTH_SCALE,
            self.types().len() >= 2 ==> ({
                let n = self.types().len();
                let pairs = n * (n - 1) / 2;
                r * pairs <= self.bridge_list().len() * STRENGTH_SCALE < (r + 1) * pairs
            }),
    {
        proof {
            crate::laws::law_density_is_bridges_over_pairs(self.types().len(), self.bridge_list().len());
        }
        let n = self.consciousness_types.len();
        if n <= 1 {
            return STRENGTH_SCALE as u128;
        }
        let nn: u128 = n as u128;
        let m: u128 = self.bridges.len() as u128;
        proof {
            assert(nn * (nn - 1) <= 0xffff_ffff_ffff_ffffu128 * 0xffff_ffff_ffff_ffffu128) by (nonlinear_arith)
                requires nn <= 0xffff_ffff_ffff_ffffu128, nn >= 2;
            assert(nn * (nn - 1) >= 2) by (nonlinear_arith)
                requires nn >= 2;
        }
        proof {
            assert(m * 1_000_000_000u128 <= 0xffff_ffff_ffff_ffffu128 * 1_000_000_000u128) by (nonlinear_arith)
                requires m <= 0xffff_ffff_ffff_ffffu128;
        }
        let possible: u128 = nn * (nn - 1) / 2;
        let scaled: u128 = m * (STRENGTH_SCALE as u128);
        scaled / possible
    }

    /// Total number of bridges in the network.
    pub fn total_bridges(&self) -> (r: usize)
        ensures
            r == self.bridge_list().len(),
    {
        self.bridges.len()
    }

    /// Number of active bridges (strength above 0.1).
    pub fn active_bridges(&self) -> (r: usize)
        ensures
            r == self.bridge_list().filter(|b: Bridge| b.strength > ACTIVE_THRESHOLD).len(),
    {
        let ghost pred = |b: Bridge| b.strength > ACTIVE_THRESHOLD;
        let mut count: usize = 0;
        let mut i: usize = 0;
        while i < self.bridges.len()
            invariant
                i <= self.bridges@.len(),
                pred == (|b: Bridge| b.strength > ACTIVE_THRESHOLD),
                count == self.bridges@.take(i as int).filter(pred).len(),
                count <= i,
            decreases self.bridges.len() - i,
        {
            proof {
                assert(self.bridges@.take(i + 1) =~= self.bridges@.take(i as int).push(self.bridges@[i as int]));
                self.bridges@.take(i as int).lemma_filter_push(self.bridges@[i as int], pred);
            }
            if self.bridges[i].is_active() {
                count = count + 1;
            }
            i = i + 1;
        }
        assert(self.bridges@.take(self.bridges@.len() as int) =~= self.bridges@);
        count
    }

    /// Advance the global tick.
    pub fn advance_tick(&mut self)
        requires
            old(self).clock() < u64::MAX,
        ensures
            final(self).clock() == old(self).clock() + 1,
            final(self).bridge_list() == old(self).bridge_list(),
            final(self).types() == old(self).types(),
    {
        self.tick = self.tick + 1;
    }

    /// The registry of consciousnesses.
    pub fn registry(&self) -> (r: &TypeRegistry)
        ensures
            r@ == self.types(),
    {
        &self.consciousness_types
    }

    /// The bridges, in network order.
    pub fn bridges(&self) -> (r: &Vec<Bridge>)
        ensures
            r@ == self.bridge_list(),
    {
        &self.bridges
    }
}

impl Default for BridgeNetwork {
    fn default() -> (r: Self)
        ensures
            r.wf(),
            r.bridge_list() == Seq::<Bridge>::empty(),
            r.types() == Seq::<(Seq<char>, ConsciousnessType)>::empty(),
            r.clock() == 0,
    {
        BridgeNetwork::new()
    }
}

} // verus!
