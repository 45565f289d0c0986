//! The registry of consciousnesses and their kinds: a map from identifier to
//! kind, kept as a list of entries whose identifiers are distinct.

use vstd::prelude::*;

use crate::identity::{ConsciousnessId, ConsciousnessType};

verus! {

/// Whether the identifiers of `entries` are pairwise distinct.
pub open spec fn distinct_ids(entries: Seq<(Seq<char>, ConsciousnessType)>) -> bool {
    forall|i: int, j: int|
        0 <= i < j < entries.len() ==> #[trigger] entries[i].0 != #[trigger] entries[j].0
}

/// Whether `entries` has an entry for `id`.
pub open spec fn has_id(entries: Seq<(Seq<char>, ConsciousnessType)>, id: Seq<char>) -> bool {
    exists|i: int| 0 <= i < entries.len() && #[trigger] entries[i].0 == id
}

/// The position of the entry for `id` (meaningful where `has_id` holds).
pub open spec fn id_index(entries: Seq<(Seq<char>, ConsciousnessType)>, id: Seq<char>) -> int {
    choose|i: int| 0 <= i < entries.len() && #[trigger] entries[i].0 == id
}

/// The kind registered for `id`, if any.
pub open spec fn kind_of(entries: Seq<(Seq<char>, ConsciousnessType)>, id: Seq<char>) -> Option<
    ConsciousnessType,
> {
    if has_id(entries, id) {
        Some(entries[id_index(entries, id)].1)
    } else {
        None
    }
}

/// `entries` after registering `id` with kind `t`: the kind of an existing
/// entry is replaced in place, a new identifier is added at the end.
pub open spec fn registered(entries: Seq<(Seq<char>, ConsciousnessType)>, id: Seq<char>, t: ConsciousnessType) -> Seq<
    (Seq<char>, ConsciousnessType),
> {
    if has_id(entries, id) {
        entries.update(id_index(entries, id), (id, t))
    } else {
        entries.push((id, t))
    }
}

/// The kinds of the registered consciousnesses.
#[derive(Clone, Debug)]
pub struct TypeRegistry {
    entries: Vec<(ConsciousnessId, ConsciousnessType)>,
}

impl View for TypeRegistry {
    type V = Seq<(Seq<char>, ConsciousnessType)>;

    closed spec fn view(&self) -> Seq<(Seq<char>, ConsciousnessType)> {
        self.entries@.map_values(|e: (ConsciousnessId, ConsciousnessType)| (e.0@, e.1))
    }
}

impl TypeRegistry {
    /// The registry holds each identifier once.
    pub open spec fn wf(&self) -> bool {
        distinct_ids(self@)
    }

    /// An empty registry.
    pub fn new() -> (r: Self)
        ensures
            r@ == Seq::<(Seq<char>, ConsciousnessType)>::empty(),
            r.wf(),
    {
        let r = TypeRegistry { entries: Vec::new() };
        assert(r@ =~= Seq::<(Seq<char>, ConsciousnessType)>::empty());
        r
    }

    /// The number of registered consciousnesses.
    pub fn len(&self) -> (r: usize)
        ensures
            r == self@.len(),
    {
        self.entries.len()
    }

    /// The identifier and kind at position `i`.
    pub fn entry(&self, i: usize) -> (r: (&ConsciousnessId, ConsciousnessType))
        requires
            i < self@.len(),
        ensures
            (r.0@, r.1) == self@[i as int],
    {
        (&self.entries[i].0, self.entries[i].1)
    }

    /// The position of the entry for `id`, if there is one.
    pub fn position(&self, id: &ConsciousnessId) -> (r: Option<usize>)
        requires
            self.wf(),
        ensures
            r is Some == has_id(self@, id@),
            r matches Some(i) ==> i == id_index(self@, id@) && i < self@.len(),
    {
        let mut i: usize = 0;
        while i < self.entries.len()
            invariant
                i <= self.entries@.len(),
                self.entries@.len() == self@.len(),
                self.wf(),
                forall|k: int| 0 <= k < i ==> #[trigger] self@[k].0 != id@,
            decreases self.entries.len() - i,
        {
            if self.entries[i].0.same_as(id) {
                assert(self@[i as int].0 == id@);
                assert(has_id(self@, id@));
                let ghost j = id_index(self@, id@);
                assert(j == i as int);
                return Some(i);
            }
            i = i + 1;
        }
        None
    }

    /// The kind registered for `id`, if any.
    pub fn get(&self, id: &ConsciousnessId) -> (r: Option<&ConsciousnessType>)
        requires
            self.wf(),
        ensures
            r matches Some(t) ==> kind_of(self@, id@) == Some(*t),
            r is None ==> kind_of(self@, id@) is None,
    {
        match self.position(id) {
            Some(i) => Some(&self.entries[i].1),
            None => None,
        }
    }

    /// Registers `id` with kind `t`, replacing the kind it had.
    pub fn insert(&mut self, id: ConsciousnessId, t: ConsciousnessType)
        requires
            old(self).wf(),
        ensures
            final(self)@ == registered(old(self)@, id@, t),
            final(self).wf(),
    {
        let ghost idv = id@;
        match self.position(&id) {
            Some(i) => {
                let key = self.entries[i].0.clone();
                self.entries.set(i, (key, t));
                assert(self@ =~= registered(old(self)@, idv, t));
            },
            None => {
                self.entries.push((id, t));
                assert(self@ =~= registered(old(self)@, idv, t));
            },
        }
    }

    /// The entries, in registration order.
    pub fn entries(&self) -> (r: &Vec<(ConsciousnessId, ConsciousnessType)>)
        ensures
            r@.map_values(|e: (ConsciousnessId, ConsciousnessType)| (e.0@, e.1)) == self@,
    {
        &self.entries
    }
}

} // verus!
