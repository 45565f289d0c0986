//! Play: purposeless interaction that builds and reinforces bridges.
//!
//! Every play event builds (where missing) and reinforces a `Play` bridge
//! between every pair of its participants, by `joy × 0.3 + 0.1`.

use vstd::prelude::*;

use crate::bridge::{clamp_strength, Bridge, INITIAL_STRENGTH, STRENGTH_SCALE};
use crate::graph::id_views;
use crate::identity::{
    lemma_normalized_text, normalized_text, same_pair, text_le, BridgeType, ConsciousnessId,
    ConsciousnessType, PlayType,
};
use crate::network::{bridge_id_text, bridge_index, has_bridge, joins, keys_distinct, BridgeNetwork};
use crate::registry::registered;

verus! {

// ---------------------------------------------------------------------------
// The arithmetic of play
// ---------------------------------------------------------------------------

/// `a / d` rounded toward zero.
pub open spec fn div_toward_zero(a: int, d: int) -> int {
    if a >= 0 {
        a / d
    } else {
        -((-a) / d)
    }
}

/// How much a play event of the given joy reinforces each bridge, in
/// billionths: `joy × 0.3 + 0.1`, the product rounded toward zero.
pub open spec fn play_reinforcement(joy: int) -> int {
    div_toward_zero(3 * joy, 10) + STRENGTH_SCALE / 10
}

/// The strength `s` after `n` reinforcements by `r`, each clamped to
/// `[0, STRENGTH_SCALE]`.
pub open spec fn reinforced_times(s: int, r: int, n: nat) -> int
    decreases n,
{
    if n == 0 {
        s
    } else {
        clamp_strength(reinforced_times(s, r, (n - 1) as nat) + r)
    }
}

/// The amount a play event of the given joy reinforces each bridge by.
pub fn reinforcement_for(joy: i64) -> (r: i64)
    ensures
        r == play_reinforcement(joy as int),
{
    let t: i128 = 3 * (joy as i128);
    let q: i128 = if t >= 0 {
        t / 10
    } else {
        -((-t) / 10)
    };
    (q + (STRENGTH_SCALE as i128) / 10) as i64
}

// ---------------------------------------------------------------------------
// Counting pairs of participants
// ---------------------------------------------------------------------------

/// The number of `j` with `i < j < end` where participants `i` and `j` are
/// the pair `{x, y}`.
pub open spec fn row_count(ps: Seq<Seq<char>>, i: int, end: int, x: Seq<char>, y: Seq<char>) -> nat
    decreases end - i,
{
    if end <= i + 1 {
        0
    } else {
        row_count(ps, i, end - 1, x, y) + if same_pair(ps[i], ps[end - 1], x, y) {
            1nat
        } else {
            0nat
        }
    }
}

/// The number of pairs `i < j` with `i < rows` where participants `i` and
/// `j` are the pair `{x, y}`.
pub open spec fn rows_count(ps: Seq<Seq<char>>, rows: int, x: Seq<char>, y: Seq<char>) -> nat
    decreases rows,
{
    if rows <= 0 {
        0
    } else {
        rows_count(ps, rows - 1, x, y) + row_count(ps, rows - 1, ps.len() as int, x, y)
    }
}

/// The number of pairs of participants that are `{x, y}` among those met
/// before `(i, j)` in the order `(0, 1), (0, 2), ..., (1, 2), ...`; with
/// `i = n, j = n + 1` for `n` participants, all pairs `i < j`.
pub open spec fn count_before(ps: Seq<Seq<char>>, i: int, j: int, x: Seq<char>, y: Seq<char>) -> nat {
    rows_count(ps, i, x, y) + row_count(ps, i, j, x, y)
}

/// The number of pairs `i < j` of the participants `ps` that are `{x, y}`:
/// how many times a play event reinforces the bridge between `x` and `y`.
pub open spec fn pair_count(ps: Seq<Seq<char>>, x: Seq<char>, y: Seq<char>) -> nat {
    count_before(ps, ps.len() as int, ps.len() as int + 1, x, y)
}

/// The interactions of the bridge between `x` and `y` in `bs`, 0 without one.
pub open spec fn interactions_between(bs: Seq<Bridge>, x: Seq<char>, y: Seq<char>) -> nat {
    if has_bridge(bs, x, y) {
        bs[bridge_index(bs, x, y)].interactions as nat
    } else {
        0
    }
}

/// A play of the participants `ps` on the bridges `bs` overflows no
/// interaction counter: for every pair of participants, the interactions of
/// the bridge between them (0 where there is none) plus the number of times
/// the play reinforces it fit in a `u64`.
#[verifier::opaque]
pub open spec fn play_fits(bs: Seq<Bridge>, ps: Seq<Seq<char>>) -> bool {
    forall|a: int, b: int|
        #![trigger ps[a], ps[b]]
        0 <= a < b < ps.len() ==> interactions_between(bs, ps[a], ps[b]) + pair_count(ps, ps[a], ps[b])
            <= u64::MAX
}

proof fn lemma_row_count_monotone(ps: Seq<Seq<char>>, i: int, j: int, end: int, x: Seq<char>, y: Seq<char>)
    requires
        j <= end,
    ensures
        row_count(ps, i, j, x, y) <= row_count(ps, i, end, x, y),
    decreases end - j,
{
    if j < end {
        lemma_row_count_monotone(ps, i, j, end - 1, x, y);
    }
}

proof fn lemma_rows_count_monotone(ps: Seq<Seq<char>>, rows: int, end: int, x: Seq<char>, y: Seq<char>)
    requires
        0 <= rows <= end,
    ensures
        rows_count(ps, rows, x, y) <= rows_count(ps, end, x, y),
    decreases end - rows,
{
    if rows < end {
        lemma_rows_count_monotone(ps, rows, end - 1, x, y);
    }
}

/// While the pair `(i, j)` is handled, the pairs met so far, with `(i, j)`
/// itself, are at most all of them.
proof fn lemma_count_before_within_total(ps: Seq<Seq<char>>, i: int, j: int, x: Seq<char>, y: Seq<char>)
    requires
        0 <= i < j < ps.len(),
    ensures
        count_before(ps, i, j + 1, x, y) <= pair_count(ps, x, y),
{
    let n = ps.len() as int;
    lemma_row_count_monotone(ps, i, j + 1, n, x, y);
    lemma_rows_count_monotone(ps, i + 1, n, x, y);
}

proof fn lemma_row_count_same_pair(
    ps: Seq<Seq<char>>,
    i: int,
    end: int,
    x: Seq<char>,
    y: Seq<char>,
    u: Seq<char>,
    v: Seq<char>,
)
    requires
        same_pair(x, y, u, v),
    ensures
        row_count(ps, i, end, x, y) == row_count(ps, i, end, u, v),
    decreases end - i,
{
    if end > i + 1 {
        lemma_row_count_same_pair(ps, i, end - 1, x, y, u, v);
    }
}

proof fn lemma_rows_count_same_pair(ps: Seq<Seq<char>>, rows: int, x: Seq<char>, y: Seq<char>, u: Seq<char>, v: Seq<char>)
    requires
        same_pair(x, y, u, v),
    ensures
        rows_count(ps, rows, x, y) == rows_count(ps, rows, u, v),
    decreases rows,
{
    if rows > 0 {
        lemma_rows_count_same_pair(ps, rows - 1, x, y, u, v);
        lemma_row_count_same_pair(ps, rows - 1, ps.len() as int, x, y, u, v);
    }
}

/// The counts depend on the unordered pair only.
proof fn lemma_pair_count_same_pair(ps: Seq<Seq<char>>, x: Seq<char>, y: Seq<char>, u: Seq<char>, v: Seq<char>)
    requires
        same_pair(x, y, u, v),
    ensures
        pair_count(ps, x, y) == pair_count(ps, u, v),
{
    lemma_rows_count_same_pair(ps, ps.len() as int, x, y, u, v);
    lemma_row_count_same_pair(ps, ps.len() as int, ps.len() as int + 1, x, y, u, v);
}

proof fn lemma_row_count_witness(ps: Seq<Seq<char>>, i: int, end: int, x: Seq<char>, y: Seq<char>) -> (b: int)
    requires
        row_count(ps, i, end, x, y) > 0,
    ensures
        i < b < end,
        same_pair(ps[i], ps[b], x, y),
    decreases end - i,
{
    if same_pair(ps[i], ps[end - 1], x, y) {
        end - 1
    } else {
        lemma_row_count_witness(ps, i, end - 1, x, y)
    }
}

proof fn lemma_rows_count_witness(ps: Seq<Seq<char>>, rows: int, x: Seq<char>, y: Seq<char>) -> (ab: (int, int))
    requires
        rows_count(ps, rows, x, y) > 0,
    ensures
        0 <= ab.0 < rows,
        ab.0 < ab.1 < ps.len(),
        same_pair(ps[ab.0], ps[ab.1], x, y),
    decreases rows,
{
    if row_count(ps, rows - 1, ps.len() as int, x, y) > 0 {
        let b = lemma_row_count_witness(ps, rows - 1, ps.len() as int, x, y);
        (rows - 1, b)
    } else {
        lemma_rows_count_witness(ps, rows - 1, x, y)
    }
}

/// A pair met before `(i, j)` that is `{x, y}`, where the count is positive.
proof fn lemma_count_witness(ps: Seq<Seq<char>>, i: int, j: int, x: Seq<char>, y: Seq<char>) -> (ab: (int, int))
    requires
        count_before(ps, i, j, x, y) > 0,
        0 <= i,
        j <= ps.len(),
    ensures
        0 <= ab.0 < ab.1 < ps.len(),
        ab.0 < i || (ab.0 == i && ab.1 < j),
        same_pair(ps[ab.0], ps[ab.1], x, y),
{
    if rows_count(ps, i, x, y) > 0 {
        lemma_rows_count_witness(ps, i, x, y)
    } else {
        let b = lemma_row_count_witness(ps, i, j, x, y);
        (i, b)
    }
}

// ---------------------------------------------------------------------------
// Play events
// ---------------------------------------------------------------------------

/// A record of a play event — purposeless interaction that builds bridges.
#[derive(Clone, Debug)]
pub struct PlayEvent {
    pub participants: Vec<ConsciousnessId>,
    pub play_type: PlayType,
    pub tick: u64,
    /// In billionths: `STRENGTH_SCALE` is 1.0.
    pub joy_score: i64,
    pub discovery: Option<String>,
}

/// What a play event does to a bridge that was there before it: reinforced
/// once for each of the `c` pairs of participants it joins.
pub open spec fn played_existing(before: Bridge, after: Bridge, c: nat, r: int, tick: u64) -> bool {
    &&& after.id == before.id
    &&& after.from == before.from
    &&& after.to == before.to
    &&& after.bridge_type == before.bridge_type
    &&& after.established_tick == before.established_tick
    &&& after.strength == reinforced_times(before.strength as int, r, c)
    &&& after.interactions == before.interactions + c
    &&& after.last_interaction == if c > 0 {
        tick
    } else {
        before.last_interaction
    }
}

/// A bridge that a play event built: a `Play` bridge at `tick`, ends in
/// order, started at 0.5 and reinforced once for each of the `c > 0` pairs
/// of participants it joins.
pub open spec fn played_new(after: Bridge, c: nat, r: int, tick: u64) -> bool {
    &&& c > 0
    &&& after.id@ == bridge_id_text(after.from@, after.to@, tick)
    &&& text_le(after.from@, after.to@)
    &&& after.bridge_type == BridgeType::Play
    &&& after.established_tick == tick
    &&& after.strength == reinforced_times(INITIAL_STRENGTH as int, r, c)
    &&& after.interactions == c
    &&& after.last_interaction == tick
}

/// The bridges after handling every pair before `(i, j)` of the
/// participants `ps`, starting from `before`.
pub open spec fn play_progress(
    before: Seq<Bridge>,
    after: Seq<Bridge>,
    ps: Seq<Seq<char>>,
    i: int,
    j: int,
    r: int,
    tick: u64,
) -> bool {
    &&& after.len() >= before.len()
    &&& forall|m: int|
        0 <= m < before.len() ==> played_existing(
            #[trigger] before[m],
            after[m],
            count_before(ps, i, j, before[m].from@, before[m].to@),
            r,
            tick,
        )
    &&& forall|m: int|
        before.len() <= m < after.len() ==> played_new(
            #[trigger] after[m],
            count_before(ps, i, j, after[m].from@, after[m].to@),
            r,
            tick,
        )
    &&& forall|a: int, b: int|
        0 <= a < b < ps.len() && (a < i || (a == i && b < j)) ==> has_bridge(after, #[trigger] ps[a], #[trigger] ps[b])
}

// ---------------------------------------------------------------------------
// Summaries of the history
// ---------------------------------------------------------------------------

/// Whether `x` takes part in event `e`.
pub open spec fn takes_part(e: PlayEvent, x: Seq<char>) -> bool {
    id_views(e.participants@).contains(x)
}

/// The number of events of `h` in which `x` takes part (however often it
/// is listed in one event).
pub open spec fn events_with(h: Seq<PlayEvent>, x: Seq<char>) -> nat {
    h.filter(|e: PlayEvent| takes_part(e, x)).len()
}

/// The sum of the joy scores of the events of `h`.
pub open spec fn joy_sum(h: Seq<PlayEvent>) -> int
    decreases h.len(),
{
    if h.len() == 0 {
        0
    } else {
        joy_sum(h.drop_last()) + h.last().joy_score
    }
}

/// The discoveries of the events of `h`, in order.
pub open spec fn discovered(h: Seq<PlayEvent>) -> Seq<Seq<char>>
    decreases h.len(),
{
    if h.len() == 0 {
        Seq::empty()
    } else {
        discovered(h.drop_last()) + match h.last().discovery {
            Some(d) => seq![d@],
            None => Seq::empty(),
        }
    }
}

/// `x` takes part in some event exactly when it has a positive event count.
proof fn lemma_events_with_positive(h: Seq<PlayEvent>, x: Seq<char>)
    ensures
        events_with(h, x) > 0 <==> exists|e: int| 0 <= e < h.len() && takes_part(#[trigger] h[e], x),
{
    let pred = |e: PlayEvent| takes_part(e, x);
    if exists|e: int| 0 <= e < h.len() && takes_part(#[trigger] h[e], x) {
        let e = choose|e: int| 0 <= e < h.len() && takes_part(#[trigger] h[e], x);
        h.lemma_filter_contains(pred, e);
        assert(h.filter(pred).len() > 0);
    }
    if h.filter(pred).len() > 0 {
        h.lemma_filter_pred(pred, 0);
        let first = h.filter(pred)[0];
        assert(h.filter(pred).contains(first));
        h.lemma_filter_contains_rev(pred, first);
        let e = h.index_of(first);
        assert(takes_part(h[e], x));
    }
}

/// While the pair `(i, j)` is handled, the bridge `k` joining it can take
/// one more interaction.
proof fn lemma_step_room(
    start: Seq<Bridge>,
    mid: Seq<Bridge>,
    ps: Seq<Seq<char>>,
    i: int,
    j: int,
    k: int,
    r: int,
    tick: u64,
)
    requires
        keys_distinct(start),
        keys_distinct(mid),
        play_fits(start, ps),
        0 <= i < j < ps.len(),
        mid.len() >= start.len(),
        0 <= k < mid.len(),
        joins(mid[k], ps[i], ps[j]),
        forall|m: int|
            0 <= m < start.len() ==> played_existing(
                #[trigger] start[m],
                mid[m],
                count_before(ps, i, j, start[m].from@, start[m].to@),
                r,
                tick,
            ),
        k >= start.len() ==> mid[k].interactions == count_before(ps, i, j, mid[k].from@, mid[k].to@),
    ensures
        mid[k].interactions < u64::MAX,
{
    reveal(play_fits);
    lemma_count_before_within_total(ps, i, j, mid[k].from@, mid[k].to@);
    lemma_pair_count_same_pair(ps, mid[k].from@, mid[k].to@, ps[i], ps[j]);
    assert(interactions_between(start, ps[i], ps[j]) + pair_count(ps, ps[i], ps[j]) <= u64::MAX);
    assert(count_before(ps, i, j + 1, mid[k].from@, mid[k].to@) == count_before(ps, i, j, mid[k].from@, mid[k].to@)
        + 1);
    if k < start.len() {
        assert(played_existing(start[k], mid[k], count_before(ps, i, j, start[k].from@, start[k].to@), r, tick));
        assert(joins(start[k], ps[i], ps[j]));
        crate::network::lemma_bridge_index_unique(start, ps[i], ps[j], k);
    } else {
        if has_bridge(start, ps[i], ps[j]) {
            let q = bridge_index(start, ps[i], ps[j]);
            assert(played_existing(start[q], mid[q], count_before(ps, i, j, start[q].from@, start[q].to@), r, tick));
            assert(joins(mid[q], ps[i], ps[j]));
            crate::network::lemma_bridge_index_unique(mid, ps[i], ps[j], q);
            crate::network::lemma_bridge_index_unique(mid, ps[i], ps[j], k);
        }
    }
}

/// Drives play-based bridge building and reinforcement.
#[derive(Clone, Debug)]
pub struct PlayEngine {
    pub network: BridgeNetwork,
    pub play_history: Vec<PlayEvent>,
}

impl PlayEngine {
    /// The network is well formed.
    pub open spec fn wf(&self) -> bool {
        self.network.wf()
    }

    /// Create a new play engine with an empty network.
    pub fn new() -> (r: Self)
        ensures
            r.wf(),
            r.network.bridge_list() == Seq::<Bridge>::empty(),
            r.network.types() == Seq::<(Seq<char>, ConsciousnessType)>::empty(),
            r.network.clock() == 0,
            r.play_history@ == Seq::<PlayEvent>::empty(),
    {
        PlayEngine { network: BridgeNetwork::new(), play_history: Vec::new() }
    }

    /// Register a consciousness.
    pub fn register_consciousness(&mut self, id: ConsciousnessId, ctype: ConsciousnessType)
        requires
            old(self).wf(),
        ensures
            final(self).wf(),
            final(self).network.types() == registered(old(self).network.types(), id@, ctype),
            final(self).network.bridge_list() == old(self).network.bridge_list(),
            final(self).network.clock() == old(self).network.clock(),
            final(self).play_history@ == old(self).play_history@,
    {
        self.network.register(id, ctype);
    }

    /// Create a play event involving multiple participants.
    ///
    /// For every pair `i < j` of participants, in order, a `Play` bridge is
    /// built between them where there is none, and the bridge between them
    /// is reinforced by `joy × 0.3 + 0.1`. The event is recorded with the
    /// current tick.
    pub fn play(
        &mut self,
        participants: Vec<ConsciousnessId>,
        play_type: PlayType,
        joy_score: i64,
        discovery: Option<String>,
    )
        requires
            old(self).wf(),
            play_fits(old(self).network.bridge_list(), id_views(participants@)),
        ensures
            final(self).wf(),
            play_progress(
                old(self).network.bridge_list(),
                final(self).network.bridge_list(),
                id_views(participants@),
                participants@.len() as int,
                participants@.len() as int + 1,
                play_reinforcement(joy_score as int),
                old(self).network.clock(),
            ),
            final(self).network.types() == old(self).network.types(),
            final(self).network.clock() == old(self).network.clock(),
            final(self).play_history@.len() == old(self).play_history@.len() + 1,
            forall|e: int|
                0 <= e < old(self).play_history@.len() ==> #[trigger] final(self).play_history@[e]
                    == old(self).play_history@[e],
            ({
                let ev = final(self).play_history@.last();
                &&& ev.participants@ == participants@
                &&& ev.play_type == play_type
                &&& ev.tick == old(self).network.clock()
                &&& ev.joy_score == joy_score
                &&& ev.discovery == discovery
            }),
    {
        let tick = self.network.current_tick();
        let amount = reinforcement_for(joy_score);
        let n = participants.len();
        let ghost ps = id_views(participants@);
        let ghost start = self.network.bridge_list();
        let ghost r = amount as int;
        let mut i: usize = 0;
        proof {
            assert forall|m: int| 0 <= m < start.len() implies played_existing(
                #[trigger] start[m],
                start[m],
                count_before(ps, 0, 1, start[m].from@, start[m].to@),
                r,
                tick,
            ) by {}
        }
        while i < n
            invariant
                n == participants@.len(),
                ps == id_views(participants@),
                i <= n,
                self.wf(),
                self.network.types() == old(self).network.types(),
                self.network.clock() == tick,
                tick == old(self).network.clock(),
                start == old(self).network.bridge_list(),
                r == play_reinforcement(joy_score as int),
                r == amount as int,
                play_fits(start, ps),
                keys_distinct(start),
                play_progress(start, self.network.bridge_list(), ps, i as int, i + 1, r, tick),
                self.play_history@ == old(self).play_history@,
            decreases n - i,
        {
            let mut j: usize = i + 1;
            while j < n
                invariant
                    n == participants@.len(),
                    ps == id_views(participants@),
                    i < n,
                    i < j <= n,
                    self.wf(),
                    self.network.types() == old(self).network.types(),
                    self.network.clock() == tick,
                    tick == old(self).network.clock(),
                    start == old(self).network.bridge_list(),
                    r == play_reinforcement(joy_score as int),
                    r == amount as int,
                    play_fits(start, ps),
                    keys_distinct(start),
                    play_progress(start, self.network.bridge_list(), ps, i as int, j as int, r, tick),
                    self.play_history@ == old(self).play_history@,
                decreases n - j,
            {
                let a = &participants[i];
                let b = &participants[j];
                self.step_pair(a, b, amount, Ghost(ps), Ghost(i as int), Ghost(j as int), Ghost(start));
                j = j + 1;
            }
            proof {
                assert forall|x: Seq<char>, y: Seq<char>| #[trigger] count_before(ps, i as int, n as int, x, y)
                    == count_before(ps, i + 1, i + 2, x, y) by {}
            }
            i = i + 1;
        }
        self.play_history.push(PlayEvent { participants, play_type, tick, joy_score, discovery });
    }

    /// Handles the pair `(i, j)` of a play event: builds the bridge where
    /// missing, then reinforces it.
    fn step_pair(
        &mut self,
        a: &ConsciousnessId,
        b: &ConsciousnessId,
        amount: i64,
        Ghost(ps): Ghost<Seq<Seq<char>>>,
        Ghost(i): Ghost<int>,
        Ghost(j): Ghost<int>,
        Ghost(start): Ghost<Seq<Bridge>>,
    )
        requires
            old(self).wf(),
            0 <= i < j < ps.len(),
            ps[i] == a@,
            ps[j] == b@,
            play_fits(start, ps),
            keys_distinct(start),
            play_progress(start, old(self).network.bridge_list(), ps, i, j, amount as int, old(self).network.clock()),
        ensures
            final(self).wf(),
            play_progress(start, final(self).network.bridge_list(), ps, i, j + 1, amount as int, old(self).network.clock()),
            final(self).network.types() == old(self).network.types(),
            final(self).network.clock() == old(self).network.clock(),
            final(self).play_history == old(self).play_history,
    {
        let ghost tick = self.network.clock();
        let ghost r = amount as int;
        let ghost before = self.network.bridge_list();
        proof {
            assert forall|x: Seq<char>, y: Seq<char>| #[trigger] count_before(ps, i, j + 1, x, y)
                == count_before(ps, i, j, x, y) + if same_pair(ps[i], ps[j], x, y) { 1nat } else { 0nat } by {}
            lemma_normalized_text(a@, b@);
        }
        let existing = self.network.position(a, b);
        if existing.is_none() {
            self.network.build_bridge(a.clone(), b.clone(), BridgeType::Play);
        }
        let ghost mid = self.network.bridge_list();
        proof {
            assert(existing.is_none() ==> count_before(
                ps,
                i,
                j,
                mid[before.len() as int].from@,
                mid[before.len() as int].to@,
            ) == 0) by {
                if existing.is_none() {
                    let nb = mid[before.len() as int];
                    assert(joins(nb, a@, b@));
                    if count_before(ps, i, j, nb.from@, nb.to@) > 0 {
                        let (a2, b2) = lemma_count_witness(ps, i, j, nb.from@, nb.to@);
                        assert(has_bridge(before, ps[a2], ps[b2]));
                        let q = bridge_index(before, ps[a2], ps[b2]);
                        assert(joins(before[q], a@, b@));
                    }
                }
            }
            assert(has_bridge(mid, a@, b@)) by {
                if existing.is_none() {
                    assert(joins(mid[before.len() as int], a@, b@));
                } else {
                    let q = bridge_index(before, a@, b@);
                    assert(joins(mid[q], a@, b@));
                }
            }
            let k = bridge_index(mid, a@, b@);
            assert(joins(mid[k], a@, b@));
            assert(k >= start.len() ==> mid[k].interactions == count_before(ps, i, j, mid[k].from@, mid[k].to@)) by {
                if k >= start.len() && k < before.len() {
                    assert(played_new(mid[k], count_before(ps, i, j, mid[k].from@, mid[k].to@), r, tick));
                }
            }
            lemma_step_room(start, mid, ps, i, j, k, r, tick);
        }
        self.network.interact(a, b, amount);
        proof {
            let fin = self.network.bridge_list();
            let k = bridge_index(mid, a@, b@);
            assert(joins(mid[k], a@, b@));
            assert(fin == mid.update(k, crate::network::interacted(mid[k], r, tick)));
            assert forall|m: int| 0 <= m < mid.len() && m != k implies !same_pair(
                ps[i],
                ps[j],
                (#[trigger] mid[m]).from@,
                mid[m].to@,
            ) by {
                if same_pair(ps[i], ps[j], mid[m].from@, mid[m].to@) {
                    if m < k {
                        assert(!joins(mid[k], mid[m].from@, mid[m].to@));
                    } else {
                        assert(!joins(mid[m], mid[k].from@, mid[k].to@));
                    }
                }
            }
            assert forall|m: int| 0 <= m < start.len() implies played_existing(
                #[trigger] start[m],
                fin[m],
                count_before(ps, i, j + 1, start[m].from@, start[m].to@),
                r,
                tick,
            ) by {
                assert(played_existing(start[m], mid[m], count_before(ps, i, j, start[m].from@, start[m].to@), r, tick));
            }
            assert forall|m: int| start.len() <= m < fin.len() implies played_new(
                #[trigger] fin[m],
                count_before(ps, i, j + 1, fin[m].from@, fin[m].to@),
                r,
                tick,
            ) by {
                if m < before.len() {
                    assert(mid[m] == before[m]);
                    assert(played_new(before[m], count_before(ps, i, j, before[m].from@, before[m].to@), r, tick));
                    if m != k {
                        assert(!same_pair(ps[i], ps[j], mid[m].from@, mid[m].to@));
                    }
                } else {
                    assert(existing.is_none());
                    assert(mid.len() == before.len() + 1);
                    if m != k {
                        assert(!same_pair(ps[i], ps[j], mid[m].from@, mid[m].to@));
                        assert(joins(mid[m], a@, b@));
                    }
                    assert(crate::network::is_fresh_bridge(mid[m], a@, b@, BridgeType::Play, tick));
                    reveal_with_fuel(reinforced_times, 2);
                    assert(reinforced_times(INITIAL_STRENGTH as int, r, 1) == clamp_strength(
                        INITIAL_STRENGTH as int + r,
                    ));
                }
            }
            assert forall|a2: int, b2: int|
                0 <= a2 < b2 < ps.len() && (a2 < i || (a2 == i && b2 < j + 1)) implies has_bridge(
                fin,
                #[trigger] ps[a2],
                #[trigger] ps[b2],
            ) by {
                if a2 == i && b2 == j {
                    assert(joins(fin[k], a@, b@));
                } else {
                    assert(has_bridge(before, ps[a2], ps[b2]));
                    let q = bridge_index(before, ps[a2], ps[b2]);
                    assert(joins(fin[q], ps[a2], ps[b2]));
                }
            }
        }
    }
    /// Play history for a specific consciousness, in order.
    pub fn play_history_for(&self, id: &ConsciousnessId) -> (r: Vec<&PlayEvent>)
        ensures
            r@.map_values(|e: &PlayEvent| *e) == self.play_history@.filter(|e: PlayEvent| takes_part(e, id@)),
    {
        let ghost pred = |e: PlayEvent| takes_part(e, id@);
        let mut r: Vec<&PlayEvent> = Vec::new();
        let mut i: usize = 0;
        while i < self.play_history.len()
            invariant
                i <= self.play_history@.len(),
                pred == (|e: PlayEvent| takes_part(e, id@)),
                r@.map_values(|e: &PlayEvent| *e) == self.play_history@.take(i as int).filter(pred),
            decreases self.play_history.len() - i,
        {
            let e = &self.play_history[i];
            proof {
                assert(self.play_history@.take(i + 1) =~= self.play_history@.take(i as int).push(*e));
                self.play_history@.take(i as int).lemma_filter_push(*e, pred);
            }
            if crate::graph::contains_id(&e.participants, id) {
                r.push(e);
                assert(r@.map_values(|e: &PlayEvent| *e) =~= self.play_history@.take(i + 1).filter(pred));
            }
            i = i + 1;
        }
        assert(self.play_history@.take(self.play_history@.len() as int) =~= self.play_history@);
        r
    }

    /// The number of events in which `id` takes part.
    fn count_events(&self, id: &ConsciousnessId) -> (r: usize)
        ensures
            r == events_with(self.play_history@, id@),
    {
        let h = &self.play_history;
        let ghost pred = |e: PlayEvent| takes_part(e, id@);
        let mut count: usize = 0;
        let mut e: usize = 0;
        while e < h.len()
            invariant
                e <= h@.len(),
                h@ == self.play_history@,
                pred == (|e: PlayEvent| takes_part(e, id@)),
                count == h@.take(e as int).filter(pred).len(),
                count <= e,
            decreases h.len() - e,
        {
            proof {
                assert(h@.take(e + 1) =~= h@.take(e as int).push(h@[e as int]));
                h@.take(e as int).lemma_filter_push(h@[e as int], pred);
            }
            if crate::graph::contains_id(&h[e].participants, id) {
                count = count + 1;
            }
            e = e + 1;
        }
        assert(h@.take(h@.len() as int) =~= h@);
        count
    }

    /// The consciousness with the most play events (each event counted once,
    /// however often it lists the consciousness). Among equals, any one of
    /// them.
    pub fn most_playful(&self) -> (r: Option<ConsciousnessId>)
        ensures
            r is None <==> forall|e: int|
                0 <= e < self.play_history@.len() ==> (#[trigger] self.play_history@[e]).participants@.len() == 0,
            r matches Some(best) ==> events_with(self.play_history@, best@) > 0,
            r matches Some(best) ==> forall|x: Seq<char>|
                #[trigger] events_with(self.play_history@, x) <= events_with(self.play_history@, best@),
    {
        let h = &self.play_history;
        let mut best: Option<(ConsciousnessId, usize)> = None;
        let mut e: usize = 0;
        while e < h.len()
            invariant
                e <= h@.len(),
                h@ == self.play_history@,
                best is None ==> forall|e2: int| 0 <= e2 < e ==> (#[trigger] h@[e2]).participants@.len() == 0,
                best matches Some(bc) ==> bc.1 == events_with(h@, bc.0@) && bc.1 > 0,
                best matches Some(bc) ==> forall|e2: int, q: int|
                    0 <= e2 < e && 0 <= q < h@[e2].participants@.len() ==> events_with(
                        h@,
                        (#[trigger] h@[e2].participants@[q])@,
                    ) <= bc.1,
            decreases h.len() - e,
        {
            let ps = &h[e].participants;
            let mut q: usize = 0;
            while q < ps.len()
                invariant
                    e < h@.len(),
                    q <= ps@.len(),
                    *ps == h@[e as int].participants,
                    h@ == self.play_history@,
                    best is None ==> forall|e2: int| 0 <= e2 < e ==> (#[trigger] h@[e2]).participants@.len() == 0,
                    best is None ==> q == 0,
                    best matches Some(bc) ==> bc.1 == events_with(h@, bc.0@) && bc.1 > 0,
                    best matches Some(bc) ==> forall|e2: int, q2: int|
                        0 <= e2 < e && 0 <= q2 < h@[e2].participants@.len() ==> events_with(
                            h@,
                            (#[trigger] h@[e2].participants@[q2])@,
                        ) <= bc.1,
                    best matches Some(bc) ==> forall|q2: int|
                        0 <= q2 < q ==> events_with(h@, (#[trigger] ps@[q2])@) <= bc.1,
                decreases ps.len() - q,
            {
                let cand = &ps[q];
                let c = self.count_events(cand);
                proof {
                    assert(takes_part(h@[e as int], cand@)) by {
                        assert(id_views(ps@)[q as int] == cand@);
                    }
                    lemma_events_with_positive(h@, cand@);
                }
                let replace = match &best {
                    None => true,
                    Some(bc) => c >= bc.1,
                };
                if replace {
                    best = Some((cand.clone(), c));
                }
                q = q + 1;
            }
            e = e + 1;
        }
        proof {
            if best is Some {
                let bc = best->0;
                lemma_events_with_positive(h@, bc.0@);
                let e2 = choose|e2: int| 0 <= e2 < h@.len() && takes_part(#[trigger] h@[e2], bc.0@);
                assert(h@[e2].participants@.len() > 0);
                assert forall|x: Seq<char>| #[trigger] events_with(h@, x) <= bc.1 by {
                    lemma_events_with_positive(h@, x);
                    if events_with(h@, x) > 0 {
                        let e2 = choose|e2: int| 0 <= e2 < h@.len() && takes_part(#[trigger] h@[e2], x);
                        let q2 = id_views(h@[e2].participants@).index_of(x);
                        assert(h@[e2].participants@[q2]@ == x);
                    }
                }
            }
        }
        match best {
            Some(bc) => Some(bc.0),
            None => None,
        }
    }

    /// The pair (lesser id first) with the strongest `Play` bridge. Among
    /// equals, any one of them.
    pub fn strongest_play_bond(&self) -> (r: Option<(ConsciousnessId, ConsciousnessId)>)
        ensures
            r is None <==> forall|m: int|
                0 <= m < self.network.bridge_list().len() ==> (#[trigger] self.network.bridge_list()[m]).bridge_type
                    != BridgeType::Play,
            r matches Some(pair) ==> exists|m: int|
                0 <= m < self.network.bridge_list().len() && (#[trigger] self.network.bridge_list()[m]).bridge_type
                    == BridgeType::Play && (pair.0@, pair.1@) == normalized_text(
                    self.network.bridge_list()[m].from@,
                    self.network.bridge_list()[m].to@,
                ) && forall|m2: int|
                    0 <= m2 < self.network.bridge_list().len() && (#[trigger] self.network.bridge_list()[m2]).bridge_type
                        == BridgeType::Play ==> self.network.bridge_list()[m2].strength
                        <= self.network.bridge_list()[m].strength,
    {
        let bs = self.network.bridges();
        let mut best: Option<usize> = None;
        let mut i: usize = 0;
        while i < bs.len()
            invariant
                i <= bs@.len(),
                bs@ == self.network.bridge_list(),
                best is None ==> forall|k: int| 0 <= k < i ==> (#[trigger] bs@[k]).bridge_type != BridgeType::Play,
                best matches Some(j) ==> j < i && bs@[j as int].bridge_type == BridgeType::Play && forall|k: int|
                    0 <= k < i && (#[trigger] bs@[k]).bridge_type == BridgeType::Play ==> bs@[k].strength
                        <= bs@[j as int].strength,
            decreases bs.len() - i,
        {
            if bs[i].bridge_type == BridgeType::Play {
                match best {
                    None => {
                        best = Some(i);
                    },
                    Some(j) => {
                        if bs[i].strength >= bs[j].strength {
                            best = Some(i);
                        }
                    },
                }
            }
            i = i + 1;
        }
        match best {
            Some(j) => {
                let pair = crate::identity::normalize_pair(&bs[j].from, &bs[j].to);
                Some(pair)
            },
            None => None,
        }
    }

    /// Average joy score across all play events, in billionths, rounded
    /// toward zero; 0 when there are none.
    pub fn joy_average(&self) -> (r: i64)
        ensures
            r == if self.play_history@.len() == 0 {
                0
            } else {
                div_toward_zero(joy_sum(self.play_history@), self.play_history@.len() as int)
            },
            (forall|i: int|
                0 <= i < self.play_history@.len() ==> (#[trigger] self.play_history@[i]).joy_score
                    == self.play_history@[0].joy_score) ==> r == if self.play_history@.len() == 0 {
                0
            } else {
                self.play_history@[0].joy_score as int
            },
    {
        proof {
            if self.play_history@.len() > 0 {
                crate::laws::law_joy_average(self.play_history@, self.play_history@[0].joy_score as int);
            }
        }
        let h = &self.play_history;
        let n = h.len();
        if n == 0 {
            return 0;
        }
        let mut sum: i128 = 0;
        let mut i: usize = 0;
        while i < n
            invariant
                n == h@.len(),
                i <= n,
                sum == joy_sum(h@.take(i as int)),
                -0x8000_0000_0000_0000 * (i as int) <= sum <= 0x7fff_ffff_ffff_ffff * (i as int),
            decreases n - i,
        {
            proof {
                assert(h@.take(i + 1).drop_last() =~= h@.take(i as int));
                assert(h@.take(i + 1).last() == h@[i as int]);
            }
            sum = sum + h[i].joy_score as i128;
            i = i + 1;
        }
        assert(h@.take(n as int) =~= h@);
        let len: i128 = n as i128;
        let avg: i128 = if sum >= 0 {
            sum / len
        } else {
            -((-sum) / len)
        };
        proof {
            if sum >= 0 {
                assert(sum / len <= 0x7fff_ffff_ffff_ffff) by (nonlinear_arith)
                    requires
                        0 <= sum <= 0x7fff_ffff_ffff_ffff * len,
                        len >= 1,
                ;
            } else {
                let ns: int = -(sum as int);
                assert(ns / (len as int) <= 0x8000_0000_0000_0000) by (nonlinear_arith)
                    requires
                        0 < ns <= 0x8000_0000_0000_0000 * len,
                        len >= 1,
                ;
            }
        }
        avg as i64
    }

    /// All discoveries made during play, in order.
    pub fn discoveries(&self) -> (r: Vec<&str>)
        ensures
            r@.map_values(|d: &str| d@) == discovered(self.play_history@),
            r@.len() == self.play_history@.filter(|e: PlayEvent| e.discovery is Some).len(),
            forall|k: int|
                0 <= k < r@.len() ==> (#[trigger] r@[k])@ == self.play_history@.filter(
                    |e: PlayEvent| e.discovery is Some,
                )[k].discovery->0@,
    {
        let h = &self.play_history;
        let mut r: Vec<&str> = Vec::new();
        let mut i: usize = 0;
        while i < h.len()
            invariant
                i <= h@.len(),
                r@.map_values(|d: &str| d@) == discovered(h@.take(i as int)),
            decreases h.len() - i,
        {
            proof {
                assert(h@.take(i + 1).drop_last() =~= h@.take(i as int));
                assert(h@.take(i + 1).last() == h@[i as int]);
            }
            match &h[i].discovery {
                Some(d) => {
                    r.push(d.as_str());
                },
                None => {},
            }
            assert(r@.map_values(|d: &str| d@) =~= discovered(h@.take(i + 1)));
            i = i + 1;
        }
        assert(h@.take(h@.len() as int) =~= h@);
        proof {
            crate::laws::law_discoveries_are_those_of_events(h@);
            assert forall|k: int| 0 <= k < r@.len() implies (#[trigger] r@[k])@ == h@.filter(
                |e: PlayEvent| e.discovery is Some,
            )[k].discovery->0@ by {
                assert(r@.map_values(|d: &str| d@)[k] == r@[k]@);
                assert(discovered(h@)[k] == h@.filter(|e: PlayEvent| e.discovery is Some)[k].discovery->0@);
            }
        }
        r
    }
}

impl Default for PlayEngine {
    fn default() -> (r: Self)
        ensures
            r.wf(),
            r.network.bridge_list() == Seq::<Bridge>::empty(),
            r.network.types() == Seq::<(Seq<char>, ConsciousnessType)>::empty(),
            r.network.clock() == 0,
            r.play_history@ == Seq::<PlayEvent>::empty(),
    {
        PlayEngine::new()
    }
}

} // verus!
