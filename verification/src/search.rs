//! Searches over the bridge graph: connected components (clusters) and
//! shortest bridge paths.

use vstd::prelude::*;

use crate::graph::{
    closed_under_bridges, contains_id, copy_ids, first_within, id_views, lemma_closed_holds_reachable,
    lemma_distinct_within, lemma_ends_in_universe, lemma_reachable_refl, lemma_reachable_step,
    lemma_reachable_symmetric, lemma_reachable_transitive, lemma_reachable_within,
    lemma_walk_push, lemma_within_monotone, lemma_within_pred, lemma_within_stable,
    reachable, universe, walk_between, within,
};
use crate::identity::{ConsciousnessId, ConsciousnessType};
use crate::network::{bridge_index, has_bridge, joins, BridgeNetwork};
use crate::registry::{distinct_ids, has_id, id_index};

verus! {

broadcast use vstd::seq_lib::group_seq_properties;

/// The texts of a list of clusters.
pub open spec fn cluster_views(cs: Seq<Vec<ConsciousnessId>>) -> Seq<Seq<Seq<char>>> {
    cs.map_values(|c: Vec<ConsciousnessId>| id_views(c@))
}

/// Whether some cluster of `cs` holds `x`.
pub open spec fn in_some_cluster(cs: Seq<Seq<Seq<char>>>, x: Seq<char>) -> bool {
    exists|k: int| 0 <= k < cs.len() && #[trigger] cs[k].contains(x)
}

/// `cs` are the clusters found from the first `i` registered consciousnesses:
/// each cluster is the whole set of nodes reachable from its first node
/// (its seed), without repeats; each seed is registered, before position
/// `i`, and is the first registered node of its cluster; seeds come in
/// registration order; every one of the first `i` registered nodes is in a
/// cluster.
pub open spec fn clustering_upto(
    bs: Seq<crate::bridge::Bridge>,
    types: Seq<(Seq<char>, ConsciousnessType)>,
    cs: Seq<Seq<Seq<char>>>,
    i: int,
) -> bool {
    &&& forall|k: int| 0 <= k < cs.len() ==> (#[trigger] cs[k]).len() > 0 && cs[k].no_duplicates()
    &&& forall|k: int, x: Seq<char>|
        0 <= k < cs.len() ==> (#[trigger] cs[k].contains(x) <==> reachable(bs, cs[k][0], x))
    &&& forall|k: int|
        0 <= k < cs.len() ==> has_id(types, (#[trigger] cs[k])[0]) && id_index(types, cs[k][0]) < i
    &&& forall|k: int, l: int|
        0 <= k < l < cs.len() ==> id_index(types, (#[trigger] cs[k])[0]) < id_index(
            types,
            (#[trigger] cs[l])[0],
        )
    &&& forall|k: int, j: int|
        0 <= k < cs.len() && 0 <= j < id_index(types, cs[k][0]) ==> !(#[trigger] cs[k]).contains(
            #[trigger] types[j].0,
        )
    &&& forall|j: int| 0 <= j < i ==> in_some_cluster(cs, #[trigger] types[j].0)
}

/// The texts of a list of paths.
pub open spec fn paths_view(ps: Seq<Vec<ConsciousnessId>>) -> Seq<Seq<Seq<char>>> {
    ps.map_values(|p: Vec<ConsciousnessId>| id_views(p@))
}

/// The last node of path `f` of `ps`.
pub open spec fn last_of(ps: Seq<Seq<Seq<char>>>, f: int) -> Seq<char> {
    ps[f].last()
}

/// `p` is a walk from `s` to `t` that no other walk between them is shorter than.
pub open spec fn is_shortest_path(
    bs: Seq<crate::bridge::Bridge>,
    p: Seq<Seq<char>>,
    s: Seq<char>,
    t: Seq<char>,
) -> bool {
    &&& walk_between(bs, p, s, t)
    &&& forall|q: Seq<Seq<char>>| #[trigger] walk_between(bs, q, s, t) ==> p.len() <= q.len()
}

/// In a registry without repeats, the entry at `i` is found at `i`.
proof fn lemma_id_index_at(types: Seq<(Seq<char>, ConsciousnessType)>, i: int)
    requires
        distinct_ids(types),
        0 <= i < types.len(),
    ensures
        has_id(types, types[i].0),
        id_index(types, types[i].0) == i,
{
    assert(has_id(types, types[i].0));
    let j = id_index(types, types[i].0);
    if j != i {
        if j < i {
            assert(types[j].0 != types[i].0);
        } else {
            assert(types[i].0 != types[j].0);
        }
    }
}

impl BridgeNetwork {
    /// The nodes reachable from `seed`, `seed` first, each once.
    fn component(&self, seed: &ConsciousnessId) -> (r: Vec<ConsciousnessId>)
        ensures
            r@.len() > 0,
            r@[0]@ == seed@,
            id_views(r@).no_duplicates(),
            forall|x: Seq<char>| #[trigger]
                id_views(r@).contains(x) <==> reachable(self.bridge_list(), seed@, x),
    {
        let bs = self.bridges();
        let ghost g = bs@;
        let ghost u = universe(g, seed@);
        let mut comp: Vec<ConsciousnessId> = Vec::new();
        comp.push(seed.clone());
        proof {
            lemma_reachable_refl(g, seed@);
            assert(id_views(comp@) =~= seq![seed@]);
            assert(u[0] == seed@);
        }
        let mut head: usize = 0;
        while head < comp.len()
            invariant
                g == self.bridge_list(),
                bs@ == g,
                u == universe(g, seed@),
                comp@.len() >= 1,
                comp@[0]@ == seed@,
                id_views(comp@).no_duplicates(),
                head <= comp@.len(),
                comp@.len() <= u.len(),
                forall|q: int| 0 <= q < comp@.len() ==> reachable(g, seed@, #[trigger] id_views(comp@)[q]),
                forall|q: int| 0 <= q < comp@.len() ==> u.contains(#[trigger] id_views(comp@)[q]),
                forall|q: int, y: Seq<char>|
                    0 <= q < head && #[trigger] has_bridge(g, id_views(comp@)[q], y) ==> id_views(
                        comp@,
                    ).contains(y),
            decreases u.len() - head,
        {
            let cur = comp[head].clone();
            let ghost cur_v = cur@;
            let mut j: usize = 0;
            while j < bs.len()
                invariant
                    g == self.bridge_list(),
                    bs@ == g,
                    u == universe(g, seed@),
                    comp@.len() >= 1,
                    comp@[0]@ == seed@,
                    id_views(comp@).no_duplicates(),
                    head < comp@.len(),
                    comp@.len() <= u.len(),
                    j <= g.len(),
                    cur_v == cur@,
                    cur@ == id_views(comp@)[head as int],
                    forall|q: int| 0 <= q < comp@.len() ==> reachable(g, seed@, #[trigger] id_views(comp@)[q]),
                    forall|q: int| 0 <= q < comp@.len() ==> u.contains(#[trigger] id_views(comp@)[q]),
                    forall|q: int, y: Seq<char>|
                        0 <= q < head && #[trigger] has_bridge(g, id_views(comp@)[q], y) ==> id_views(
                            comp@,
                        ).contains(y),
                    forall|k: int|
                        0 <= k < j ==> ((#[trigger] g[k]).from@ == cur@ ==> id_views(comp@).contains(g[k].to@))
                            && (g[k].to@ == cur@ ==> id_views(comp@).contains(g[k].from@)),
                decreases g.len() - j,
            {
                let b = &bs[j];
                let touches_from = b.from.same_as(&cur);
                let touches_to = b.to.same_as(&cur);
                if touches_from || touches_to {
                    let nb: &ConsciousnessId = if touches_from {
                        &b.to
                    } else {
                        &b.from
                    };
                    proof {
                        assert(joins(g[j as int], cur@, nb@));
                        assert(has_bridge(g, cur@, nb@));
                        assert(reachable(g, seed@, id_views(comp@)[head as int]));
                        lemma_reachable_step(g, seed@, cur@, nb@);
                        lemma_ends_in_universe(g, seed@, cur@, nb@);
                    }
                    if !contains_id(&comp, nb) {
                        let ghost before = comp@;
                        comp.push(nb.clone());
                        proof {
                            assert(id_views(comp@) =~= id_views(before).push(nb@));
                            assert forall|x: Seq<char>| id_views(before).contains(x) implies id_views(
                                comp@,
                            ).contains(x) by {
                                let q = id_views(before).index_of(x);
                                assert(id_views(comp@)[q] == x);
                            }
                            assert(id_views(comp@).no_duplicates());
                            lemma_distinct_within(id_views(comp@), u);
                        }
                    }
                    proof {
                        if touches_from && touches_to {
                            assert(id_views(comp@)[head as int] == cur@);
                        }
                    }
                }
                j = j + 1;
            }
            proof {
                assert forall|y: Seq<char>| #[trigger] has_bridge(g, id_views(comp@)[head as int], y) implies id_views(
                    comp@,
                ).contains(y) by {
                    let k = bridge_index(g, cur@, y);
                    assert(joins(g[k], cur@, y));
                }
            }
            head = head + 1;
        }
        proof {
            let views = id_views(comp@);
            assert(closed_under_bridges(g, views)) by {
                assert forall|x: Seq<char>, y: Seq<char>| #[trigger] views.contains(x) && #[trigger] has_bridge(
                    g,
                    x,
                    y,
                ) implies views.contains(y) by {
                    let q = views.index_of(x);
                    assert(has_bridge(g, views[q], y));
                }
            }
            assert(views[0] == seed@);
            assert forall|x: Seq<char>| #[trigger] views.contains(x) <==> reachable(g, seed@, x) by {
                if reachable(g, seed@, x) {
                    lemma_closed_holds_reachable(g, views, seed@, x);
                }
                if views.contains(x) {
                    let q = views.index_of(x);
                    assert(reachable(g, seed@, views[q]));
                }
            }
        }
        comp
    }

    /// Connected components (clusters) of the bridge graph, found from the
    /// registered consciousnesses in registration order.
    ///
    /// Every registered consciousness lies in exactly one cluster; each
    /// cluster is everything reachable from its first element, the first
    /// registered consciousness of that cluster. Within a cluster the order
    /// is the order of discovery.
    pub fn clusters(&self) -> (r: Vec<Vec<ConsciousnessId>>)
        requires
            self.wf(),
        ensures
            clustering_upto(self.bridge_list(), self.types(), cluster_views(r@), self.types().len() as int),
    {
        let ghost g = self.bridge_list();
        let ghost types = self.types();
        let mut result: Vec<Vec<ConsciousnessId>> = Vec::new();
        let mut seen: Vec<ConsciousnessId> = Vec::new();
        let registry = self.registry();
        let n = registry.len();
        let mut i: usize = 0;
        proof {
            assert(cluster_views(result@) =~= Seq::<Seq<Seq<char>>>::empty());
        }
        while i < n
            invariant
                self.wf(),
                g == self.bridge_list(),
                types == self.types(),
                registry@ == types,
                n == types.len(),
                i <= n,
                clustering_upto(g, types, cluster_views(result@), i as int),
                forall|x: Seq<char>| #[trigger]
                    id_views(seen@).contains(x) <==> in_some_cluster(cluster_views(result@), x),
            decreases n - i,
        {
            let (id, _t) = registry.entry(i);
            proof {
                lemma_id_index_at(types, i as int);
            }
            if !contains_id(&seen, id) {
                let comp = self.component(id);
                let ghost cs = cluster_views(result@);
                let ghost cv = id_views(comp@);
                proof {
                    assert(cv[0] == types[i as int].0);
                    assert forall|j: int| 0 <= j < i implies !cv.contains(#[trigger] types[j].0) by {
                        assert(in_some_cluster(cs, types[j].0));
                        let k = choose|k: int| 0 <= k < cs.len() && #[trigger] cs[k].contains(types[j].0);
                        if cv.contains(types[j].0) {
                            assert(reachable(g, cs[k][0], types[j].0));
                            assert(reachable(g, id@, types[j].0));
                            lemma_reachable_symmetric(g, id@, types[j].0);
                            lemma_reachable_transitive(g, cs[k][0], types[j].0, id@);
                            assert(cs[k].contains(id@));
                            assert(id_views(seen@).contains(id@));
                        }
                    }
                }
                let mut q: usize = 0;
                let ghost seen0 = seen@;
                while q < comp.len()
                    invariant
                        q <= comp@.len(),
                        cv == id_views(comp@),
                        forall|x: Seq<char>| #[trigger]
                            id_views(seen@).contains(x) <==> (id_views(seen0).contains(x) || cv.take(
                                q as int,
                            ).contains(x)),
                    decreases comp.len() - q,
                {
                    let ghost before = seen@;
                    seen.push(comp[q].clone());
                    proof {
                        assert(id_views(seen@) =~= id_views(before).push(cv[q as int]));
                        assert(cv.take(q + 1) =~= cv.take(q as int).push(cv[q as int]));
                    }
                    q = q + 1;
                }
                proof {
                    assert(cv.take(comp@.len() as int) =~= cv);
                }
                let ghost old_result = result@;
                result.push(comp);
                proof {
                    let cs2 = cluster_views(result@);
                    assert(cs2 =~= cs.push(cv));
                    assert forall|x: Seq<char>| #[trigger]
                        id_views(seen@).contains(x) <==> in_some_cluster(cs2, x) by {
                        if in_some_cluster(cs, x) {
                            let k = choose|k: int| 0 <= k < cs.len() && #[trigger] cs[k].contains(x);
                            assert(cs2[k] == cs[k]);
                        }
                        if cv.contains(x) {
                            assert(cs2[cs.len() as int] == cv);
                        }
                        if in_some_cluster(cs2, x) {
                            let k = choose|k: int| 0 <= k < cs2.len() && #[trigger] cs2[k].contains(x);
                            if k < cs.len() {
                                assert(cs[k] == cs2[k]);
                            }
                        }
                    }
                    assert forall|j: int| 0 <= j < i + 1 implies in_some_cluster(cs2, #[trigger] types[j].0) by {
                        if j < i {
                            let k = choose|k: int| 0 <= k < cs.len() && #[trigger] cs[k].contains(types[j].0);
                            assert(cs2[k] == cs[k]);
                        } else {
                            assert(cs2[cs.len() as int].contains(types[j].0));
                        }
                    }
                    assert(clustering_upto(g, types, cs2, i + 1));
                }
            } else {
                proof {
                    let cs = cluster_views(result@);
                    assert(in_some_cluster(cs, types[i as int].0));
                    assert forall|j: int| 0 <= j < i + 1 implies in_some_cluster(cs, #[trigger] types[j].0) by {
                    }
                }
            }
            i = i + 1;
        }
        result
    }
    /// Shortest path (breadth-first, each bridge counting 1) between two
    /// consciousnesses, both ends included.
    ///
    /// Returns `None` if `from == to` or no path exists.
    pub fn bridge_path(&self, from: &ConsciousnessId, to: &ConsciousnessId) -> (r: Option<
        Vec<ConsciousnessId>,
    >)
        ensures
            r is None <==> (from@ == to@ || !reachable(self.bridge_list(), from@, to@)),
            r matches Some(p) ==> is_shortest_path(self.bridge_list(), id_views(p@), from@, to@),
    {
        if from.same_as(to) {
            return None;
        }
        let bs = self.bridges();
        let ghost g = bs@;
        let ghost s = from@;
        let ghost t = to@;
        let ghost u = universe(g, s);
        let mut visited: Vec<ConsciousnessId> = Vec::new();
        visited.push(from.clone());
        let mut start: Vec<ConsciousnessId> = Vec::new();
        start.push(from.clone());
        let mut frontier: Vec<Vec<ConsciousnessId>> = Vec::new();
        frontier.push(start);
        let ghost mut k: nat = 0;
        proof {
            lemma_reachable_refl(g, s);
            assert(id_views(visited@) =~= seq![s]);
            assert(paths_view(frontier@) =~= seq![seq![s]]);
            assert(u[0] == s);
            assert forall|x: Seq<char>| #[trigger] id_views(visited@).contains(x) <==> within(g, s, x, k) by {
                if within(g, s, x, 0) {
                    let p = choose|p: Seq<Seq<char>>| #[trigger] walk_between(g, p, s, x) && p.len() <= 1;
                    assert(id_views(visited@)[0] == x);
                }
            }
            assert forall|x: Seq<char>| #[trigger] first_within(g, s, x, k) implies exists|f: int|
                0 <= f < paths_view(frontier@).len() && #[trigger] last_of(paths_view(frontier@), f) == x by {
                assert(id_views(visited@).contains(x));
                assert(last_of(paths_view(frontier@), 0) == x);
            }
            assert(walk_between(g, paths_view(frontier@)[0], s, s));
        }
        loop
            invariant
                bs@ == g,
                g == self.bridge_list(),
                s == from@,
                t == to@,
                s != t,
                u == universe(g, s),
                id_views(visited@).no_duplicates(),
                forall|q: int| 0 <= q < visited@.len() ==> u.contains(#[trigger] id_views(visited@)[q]),
                visited@.len() <= u.len(),
                forall|x: Seq<char>| #[trigger] id_views(visited@).contains(x) <==> within(g, s, x, k),
                !within(g, s, t, k),
                forall|f: int|
                    0 <= f < frontier@.len() ==> walk_between(
                        g,
                        #[trigger] paths_view(frontier@)[f],
                        s,
                        last_of(paths_view(frontier@), f),
                    ) && paths_view(frontier@)[f].len() == k + 1,
                forall|x: Seq<char>|
                    #[trigger] first_within(g, s, x, k) ==> exists|f: int|
                        0 <= f < paths_view(frontier@).len() && #[trigger] last_of(paths_view(frontier@), f)
                            == x,
            decreases u.len() - visited@.len(),
        {
            let ghost fs = paths_view(frontier@);
            let ghost vlen0 = visited@.len();
            let mut next: Vec<Vec<ConsciousnessId>> = Vec::new();
            let mut f: usize = 0;
            while f < frontier.len()
                invariant
                    bs@ == g,
                    g == self.bridge_list(),
                    s == from@,
                    t == to@,
                    s != t,
                    u == universe(g, s),
                    fs == paths_view(frontier@),
                    f <= fs.len(),
                    id_views(visited@).no_duplicates(),
                    forall|q: int| 0 <= q < visited@.len() ==> u.contains(#[trigger] id_views(visited@)[q]),
                    visited@.len() <= u.len(),
                    visited@.len() == vlen0 + next@.len(),
                    !within(g, s, t, k),
                    !id_views(visited@).contains(t),
                    forall|f2: int|
                        0 <= f2 < fs.len() ==> walk_between(g, #[trigger] fs[f2], s, last_of(fs, f2))
                            && fs[f2].len() == k + 1,
                    forall|x: Seq<char>|
                        #[trigger] id_views(visited@).contains(x) <==> (within(g, s, x, k) || exists|n: int|
                            0 <= n < next@.len() && #[trigger] last_of(paths_view(next@), n) == x),
                    forall|n: int|
                        0 <= n < next@.len() ==> walk_between(
                            g,
                            #[trigger] paths_view(next@)[n],
                            s,
                            last_of(paths_view(next@), n),
                        ) && paths_view(next@)[n].len() == k + 2 && !within(g, s, last_of(paths_view(next@), n), k),
                    forall|f2: int, y: Seq<char>|
                        0 <= f2 < f && #[trigger] has_bridge(g, last_of(fs, f2), y) ==> id_views(visited@).contains(y),
                decreases fs.len() - f,
            {
                let path = &frontier[f];
                proof {
                    assert(fs[f as int] == id_views(path@));
                    assert(path@.len() == fs[f as int].len());
                }
                let cur = &path[path.len() - 1];
                proof {
                    assert(cur@ == last_of(fs, f as int));
                }
                let mut j: usize = 0;
                while j < bs.len()
                    invariant
                        bs@ == g,
                        g == self.bridge_list(),
                        s == from@,
                        t == to@,
                        s != t,
                        u == universe(g, s),
                        fs == paths_view(frontier@),
                        f < fs.len(),
                        *path == frontier@[f as int],
                        cur@ == last_of(fs, f as int),
                        j <= g.len(),
                        id_views(visited@).no_duplicates(),
                        forall|q: int| 0 <= q < visited@.len() ==> u.contains(#[trigger] id_views(visited@)[q]),
                        visited@.len() <= u.len(),
                        visited@.len() == vlen0 + next@.len(),
                        !within(g, s, t, k),
                        !id_views(visited@).contains(t),
                        forall|f2: int|
                            0 <= f2 < fs.len() ==> walk_between(g, #[trigger] fs[f2], s, last_of(fs, f2))
                                && fs[f2].len() == k + 1,
                        forall|x: Seq<char>|
                            #[trigger] id_views(visited@).contains(x) <==> (within(g, s, x, k) || exists|n: int|
                                0 <= n < next@.len() && #[trigger] last_of(paths_view(next@), n) == x),
                        forall|n: int|
                            0 <= n < next@.len() ==> walk_between(
                                g,
                                #[trigger] paths_view(next@)[n],
                                s,
                                last_of(paths_view(next@), n),
                            ) && paths_view(next@)[n].len() == k + 2 && !within(
                                g,
                                s,
                                last_of(paths_view(next@), n),
                                k,
                            ),
                        forall|f2: int, y: Seq<char>|
                            0 <= f2 < f && #[trigger] has_bridge(g, last_of(fs, f2), y) ==> id_views(
                                visited@,
                            ).contains(y),
                        forall|k2: int|
                            0 <= k2 < j ==> ((#[trigger] g[k2]).from@ == cur@ ==> id_views(visited@).contains(
                                g[k2].to@,
                            )) && (g[k2].to@ == cur@ ==> id_views(visited@).contains(g[k2].from@)),
                    decreases g.len() - j,
                {
                    let b = &bs[j];
                    let touches_from = b.from.same_as(cur);
                    let touches_to = b.to.same_as(cur);
                    if touches_from || touches_to {
                        let nb: &ConsciousnessId = if touches_from {
                            &b.to
                        } else {
                            &b.from
                        };
                        proof {
                            assert(joins(g[j as int], cur@, nb@));
                            assert(has_bridge(g, cur@, nb@));
                            lemma_ends_in_universe(g, s, cur@, nb@);
                            lemma_walk_push(g, fs[f as int], nb@);
                        }
                        if nb.same_as(to) {
                            let mut full = copy_ids(path);
                            full.push(nb.clone());
                            proof {
                                let fv = id_views(full@);
                                assert(fv =~= fs[f as int].push(nb@));
                                assert(walk_between(g, fv, s, t));
                                assert forall|q: Seq<Seq<char>>| #[trigger] walk_between(g, q, s, t) implies fv.len()
                                    <= q.len() by {
                                    if q.len() < fv.len() {
                                        assert(walk_between(g, q, s, t) && q.len() <= k + 1);
                                    }
                                }
                                lemma_reachable_within(g, s, t, k + 1);
                                assert(within(g, s, t, k + 1));
                            }
                            return Some(full);
                        }
                        if !contains_id(&visited, nb) {
                            let ghost before = visited@;
                            let ghost next_before = next@;
                            visited.push(nb.clone());
                            let mut np = copy_ids(path);
                            np.push(nb.clone());
                            proof {
                                assert(id_views(np@) =~= fs[f as int].push(nb@));
                            }
                            next.push(np);
                            proof {
                                let pv = paths_view(next@);
                                assert(id_views(visited@) =~= id_views(before).push(nb@));
                                assert(pv =~= paths_view(next_before).push(fs[f as int].push(nb@)));
                                assert(last_of(pv, next_before.len() as int) == nb@);
                                assert(!within(g, s, nb@, k));
                                assert forall|x: Seq<char>| #[trigger] id_views(visited@).contains(x) <==> (within(
                                    g,
                                    s,
                                    x,
                                    k,
                                ) || exists|n: int| 0 <= n < next@.len() && #[trigger] last_of(pv, n) == x) by {
                                    if id_views(before).contains(x) {
                                        let q = id_views(before).index_of(x);
                                        assert(id_views(visited@)[q] == x);
                                        if !within(g, s, x, k) {
                                            let n = choose|n: int|
                                                0 <= n < next_before.len() && #[trigger] last_of(
                                                    paths_view(next_before),
                                                    n,
                                                ) == x;
                                            assert(last_of(pv, n) == x);
                                        }
                                    }
                                    if exists|n: int| 0 <= n < next@.len() && #[trigger] last_of(pv, n) == x {
                                        let n = choose|n: int| 0 <= n < next@.len() && #[trigger] last_of(pv, n) == x;
                                        if n < next_before.len() {
                                            assert(last_of(paths_view(next_before), n) == x);
                                        }
                                    }
                                    if x == nb@ {
                                        assert(id_views(visited@)[before.len() as int] == x);
                                    }
                                }
                                assert(id_views(visited@).no_duplicates());
                                lemma_distinct_within(id_views(visited@), u);
                                assert forall|x: Seq<char>| id_views(before).contains(x) implies id_views(
                                    visited@,
                                ).contains(x) by {
                                    let q = id_views(before).index_of(x);
                                    assert(id_views(visited@)[q] == x);
                                }
                            }
                        }
                        proof {
                            if touches_from && touches_to {
                                assert(within(g, s, cur@, k));
                            }
                        }
                    }
                    j = j + 1;
                }
                proof {
                    assert forall|f2: int, y: Seq<char>|
                        0 <= f2 < f + 1 && #[trigger] has_bridge(g, last_of(fs, f2), y) implies id_views(
                            visited@,
                        ).contains(y) by {
                        if f2 == f {
                            let k2 = bridge_index(g, cur@, y);
                            assert(joins(g[k2], cur@, y));
                        }
                    }
                }
                f = f + 1;
            }
            // Every node first reached after k + 1 bridges is now visited.
            proof {
                assert forall|x: Seq<char>| #[trigger] within(g, s, x, k + 1) && !within(g, s, x, k) implies id_views(
                    visited@,
                ).contains(x) by {
                    let y = lemma_within_pred(g, s, x, k);
                    let f2 = choose|f2: int| 0 <= f2 < fs.len() && #[trigger] last_of(fs, f2) == y;
                    assert(has_bridge(g, last_of(fs, f2), x));
                }
            }
            if next.len() == 0 {
                proof {
                    assert forall|y: Seq<char>| #[trigger] within(g, s, y, k + 1) implies within(g, s, y, k) by {
                        if !within(g, s, y, k) {
                            assert(id_views(visited@).contains(y));
                        }
                    }
                    if reachable(g, s, t) {
                        lemma_reachable_within(g, s, t, 0);
                        let n = choose|n: nat| within(g, s, t, n);
                        lemma_within_stable(g, s, k, n, t);
                    }
                }
                return None;
            }
            proof {
                let ns = paths_view(next@);
                assert forall|x: Seq<char>| #[trigger] id_views(visited@).contains(x) <==> within(g, s, x, k + 1) by {
                    if id_views(visited@).contains(x) {
                        if within(g, s, x, k) {
                            lemma_within_monotone(g, s, x, k, k + 1);
                        } else {
                            let n = choose|n: int| 0 <= n < next@.len() && #[trigger] last_of(ns, n) == x;
                            assert(walk_between(g, ns[n], s, x) && ns[n].len() <= k + 2);
                        }
                    }
                }
                assert forall|x: Seq<char>| #[trigger] first_within(g, s, x, k + 1) implies exists|n: int|
                    0 <= n < ns.len() && #[trigger] last_of(ns, n) == x by {
                    assert(id_views(visited@).contains(x));
                }
                assert(!within(g, s, t, k + 1));
                assert(visited@.len() > vlen0);
            }
            frontier = next;
            proof {
                k = k + 1;
            }
        }
    }
}

} // verus!
