//! The player's selection: an ordered set of entity handles.

use vstd::prelude::*;

use crate::digest::{le32, le64, sha256_fed, u32_le, u64_le, Sha256State};

use super::entity::{spec_contains, EntityId, EntityStore, StoreView, MAX_ENTITIES};

verus! {

/// Selection ceiling: the entity store's own.
pub const MAX_SELECTION: usize = MAX_ENTITIES;

/// Handles order by slot index, then generation.
pub open spec fn id_lt(a: EntityId, b: EntityId) -> bool {
    a.index < b.index || (a.index == b.index && a.generation < b.generation)
}

/// Strictly ascending, hence free of repeats.
pub open spec fn ascending(s: Seq<EntityId>) -> bool {
    forall|i: int, j: int| 0 <= i < j < s.len() ==> id_lt(#[trigger] s[i], #[trigger] s[j])
}

/// The handles of `s` that `v` still resolves, in order.
pub open spec fn live_members(s: Seq<EntityId>, v: StoreView) -> Seq<EntityId>
    decreases s.len(),
{
    if s.len() == 0 {
        Seq::empty()
    } else {
        live_members(s.drop_last(), v) + if spec_contains(v, s.last()) {
            seq![s.last()]
        } else {
            Seq::<EntityId>::empty()
        }
    }
}

/// Two ascending sequences with the same members are the same sequence: a
/// selection's order is a function of its members, never of how they were
/// added.
pub proof fn lemma_members_determine_order(a: Seq<EntityId>, b: Seq<EntityId>)
    requires
        ascending(a),
        ascending(b),
        forall|x: EntityId| a.contains(x) == b.contains(x),
    ensures
        a == b,
    decreases a.len(),
{
    if a.len() == 0 {
        if b.len() > 0 {
            assert(b.contains(b[0]));
        }
        assert(a =~= b);
    } else {
        assert(a.contains(a[0]));
        assert(b.len() > 0);
        assert(b.contains(b[0]));
        let ka = choose|k: int| 0 <= k < a.len() && a[k] == b[0];
        let kb = choose|k: int| 0 <= k < b.len() && b[k] == a[0];
        if ka > 0 {
            assert(id_lt(a[0], a[ka]));
        }
        if kb > 0 {
            assert(id_lt(b[0], b[kb]));
        }
        assert(a[0] == b[0]);
        let a1 = a.drop_first();
        let b1 = b.drop_first();
        assert forall|x: EntityId| a1.contains(x) == b1.contains(x) by {
            if a1.contains(x) {
                let k = choose|k: int| 0 <= k < a1.len() && a1[k] == x;
                assert(a[k + 1] == x);
                assert(id_lt(a[0], a[k + 1]));
                assert(b.contains(x));
                let j = choose|j: int| 0 <= j < b.len() && b[j] == x;
                assert(j != 0);
                assert(b1[j - 1] == x);
            }
            if b1.contains(x) {
                let k = choose|k: int| 0 <= k < b1.len() && b1[k] == x;
                assert(b[k + 1] == x);
                assert(id_lt(b[0], b[k + 1]));
                assert(a.contains(x));
                let j = choose|j: int| 0 <= j < a.len() && a[j] == x;
                assert(j != 0);
                assert(a1[j - 1] == x);
            }
        }
        lemma_members_determine_order(a1, b1);
        assert(a =~= b) by {
            assert forall|i: int| 0 <= i < a.len() implies a[i] == b[i] by {
                if i > 0 {
                    assert(a1[i - 1] == b1[i - 1]);
                }
            }
        }
    }
}

/// `s1` is `s0` with `id` toggled: removed when present, added when absent
/// and below the ceiling.
pub open spec fn toggled(s0: Seq<EntityId>, s1: Seq<EntityId>, id: EntityId) -> bool {
    &&& forall|x: EntityId| x != id ==> s1.contains(x) == s0.contains(x)
    &&& s1.contains(id) == (!s0.contains(id) && s0.len() < MAX_SELECTION)
    &&& s1.len() == if s0.contains(id) {
        s0.len() - 1
    } else if s0.len() < MAX_SELECTION {
        s0.len() as int + 1
    } else {
        s0.len() as int
    }
}

/// Toggling the same handle twice gives the selection back.
pub proof fn lemma_toggle_twice(s0: Seq<EntityId>, s1: Seq<EntityId>, s2: Seq<EntityId>, id: EntityId)
    requires
        ascending(s0),
        ascending(s2),
        s0.len() <= MAX_SELECTION,
        toggled(s0, s1, id),
        toggled(s1, s2, id),
    ensures
        s2 == s0,
{
    assert forall|x: EntityId| s0.contains(x) == s2.contains(x) by {}
    lemma_members_determine_order(s0, s2);
}

/// The members of `s` after inserting `ids` one by one, in order, each only
/// while fewer than [`MAX_SELECTION`] are held.
pub open spec fn insert_all(members: Set<EntityId>, count: nat, ids: Seq<EntityId>) -> (Set<EntityId>, nat)
    decreases ids.len(),
{
    if ids.len() == 0 {
        (members, count)
    } else {
        let (m, c) = insert_all(members, count, ids.drop_last());
        let id = ids.last();
        if !m.contains(id) && c < MAX_SELECTION {
            (m.insert(id), c + 1)
        } else {
            (m, c)
        }
    }
}

/// The state-hash bytes of a selection: its length, then each handle's
/// index and generation, in order.
pub open spec fn ids_hash_bytes(s: Seq<EntityId>) -> Seq<u8>
    decreases s.len(),
{
    if s.len() == 0 {
        Seq::empty()
    } else {
        ids_hash_bytes(s.drop_last()) + le32(s.last().index) + le32(s.last().generation)
    }
}

/// An ordered set of entity handles, iterated by ascending entity slot, not
/// by click order.
#[derive(Debug, Clone)]
pub struct Selection {
    ids: Vec<EntityId>,
}

impl View for Selection {
    type V = Seq<EntityId>;

    closed spec fn view(&self) -> Seq<EntityId> {
        self.ids@
    }
}

impl Selection {
    /// Ascending, within the ceiling.
    pub open spec fn wf(&self) -> bool {
        ascending(self@) && self@.len() <= MAX_SELECTION
    }

    /// The members, as a set.
    pub open spec fn members(&self) -> Set<EntityId> {
        self@.to_set()
    }

    pub fn new() -> (s: Self)
        ensures
            s.wf(),
            s@ == Seq::<EntityId>::empty(),
    {
        Selection { ids: Vec::new() }
    }

    pub fn len(&self) -> (r: usize)
        ensures
            r == self@.len(),
    {
        self.ids.len()
    }

    pub fn is_empty(&self) -> (r: bool)
        ensures
            r == (self@.len() == 0),
    {
        self.ids.len() == 0
    }

    pub fn clear(&mut self)
        ensures
            final(self).wf(),
            final(self)@ == Seq::<EntityId>::empty(),
    {
        self.ids.clear();
    }

    /// Where `id` is, or where it would go.
    fn position_of(&self, id: EntityId) -> (r: Result<usize, usize>)
        requires
            self.wf(),
        ensures
            match r {
                Ok(pos) => pos < self@.len() && self@[pos as int] == id,
                Err(pos) => {
                    &&& pos <= self@.len()
                    &&& forall|k: int| 0 <= k < pos ==> id_lt(#[trigger] self@[k], id)
                    &&& forall|k: int| pos <= k < self@.len() ==> id_lt(id, #[trigger] self@[k])
                    &&& !self@.contains(id)
                },
            },
    {
        let mut lo: usize = 0;
        let mut hi: usize = self.ids.len();
        while lo < hi
            invariant
                self.wf(),
                lo <= hi <= self@.len(),
                forall|k: int| 0 <= k < lo ==> id_lt(#[trigger] self@[k], id),
                forall|k: int| hi <= k < self@.len() ==> id_lt(id, #[trigger] self@[k]),
            decreases hi - lo,
        {
            let mid = lo + (hi - lo) / 2;
            let e = self.ids[mid];
            if e.index == id.index && e.generation == id.generation {
                return Ok(mid);
            } else if e.index < id.index || (e.index == id.index && e.generation < id.generation) {
                proof {
                    assert forall|k: int| 0 <= k < mid + 1 implies id_lt(#[trigger] self@[k], id) by {
                        if k < mid {
                            assert(id_lt(self@[k], self@[mid as int]));
                        }
                    }
                }
                lo = mid + 1;
            } else {
                proof {
                    assert forall|k: int| mid <= k < self@.len() implies id_lt(id, #[trigger] self@[k]) by {
                        if k > mid {
                            assert(id_lt(self@[mid as int], self@[k]));
                        }
                    }
                }
                hi = mid;
            }
        }
        proof {
            if self@.contains(id) {
                let k = choose|k: int| 0 <= k < self@.len() && self@[k] == id;
                assert(id_lt(self@[k], id) || id_lt(id, self@[k]));
            }
        }
        Err(lo)
    }

    pub fn contains(&self, id: EntityId) -> (r: bool)
        requires
            self.wf(),
        ensures
            r == self@.contains(id),
    {
        match self.position_of(id) {
            Ok(_) => true,
            Err(_) => false,
        }
    }

    /// Ascending by slot index.
    pub fn ids(&self) -> (r: &[EntityId])
        ensures
            r@ == self@,
    {
        self.ids.as_slice()
    }

    /// Insert, keeping the order; `false`, and nothing changes, when already
    /// present or at the ceiling.
    pub fn insert(&mut self, id: EntityId) -> (r: bool)
        requires
            old(self).wf(),
        ensures
            final(self).wf(),
            r == (!old(self)@.contains(id) && old(self)@.len() < MAX_SELECTION),
            r ==> final(self)@.len() == old(self)@.len() + 1,
            !r ==> final(self)@ == old(self)@,
            forall|x: EntityId| final(self)@.contains(x) == (old(self)@.contains(x) || (r && x == id)),
    {
        match self.position_of(id) {
            Ok(_) => false,
            Err(pos) => {
                if self.ids.len() >= MAX_SELECTION {
                    return false;
                }
                let ghost s0 = self@;
                self.ids.insert(pos, id);
                proof {
                    let s1 = self@;
                    assert(s1 == s0.insert(pos as int, id));
                    assert forall|i: int, j: int| 0 <= i < j < s1.len() implies id_lt(#[trigger] s1[i], #[trigger] s1[j]) by {
                        if j < pos {
                            assert(s1[i] == s0[i] && s1[j] == s0[j]);
                        } else if j == pos {
                            assert(s1[i] == s0[i]);
                        } else if i < pos {
                            assert(s1[i] == s0[i] && s1[j] == s0[j - 1]);
                        } else if i == pos {
                            assert(s1[j] == s0[j - 1]);
                        } else {
                            assert(s1[i] == s0[i - 1] && s1[j] == s0[j - 1]);
                        }
                    }
                    assert forall|x: EntityId| s1.contains(x) == (s0.contains(x) || x == id) by {
                        if s1.contains(x) {
                            let k = choose|k: int| 0 <= k < s1.len() && s1[k] == x;
                            if k < pos {
                                assert(s0[k] == x);
                            } else if k > pos {
                                assert(s0[k - 1] == x);
                            }
                        }
                        if s0.contains(x) {
                            let k = choose|k: int| 0 <= k < s0.len() && s0[k] == x;
                            if k < pos {
                                assert(s1[k] == x);
                            } else {
                                assert(s1[k + 1] == x);
                            }
                        }
                        if x == id {
                            assert(s1[pos as int] == id);
                        }
                    }
                }
                true
            },
        }
    }

    /// Drop every handle the store no longer resolves. Returns how many went.
    pub fn retain_live(&mut self, store: &EntityStore) -> (r: usize)
        requires
            old(self).wf(),
        ensures
            final(self).wf(),
            final(self)@ == live_members(old(self)@, store@),
            r == old(self)@.len() - final(self)@.len(),
    {
        let ghost s0 = self@;
        let n = self.ids.len();
        let mut kept: Vec<EntityId> = Vec::new();
        let mut i: usize = 0;
        while i < n
            invariant
                i <= n,
                n == s0.len(),
                self@ == s0,
                ascending(s0),
                s0.len() <= MAX_SELECTION,
                kept@ == live_members(s0.subrange(0, i as int), store@),
                kept@.len() <= i,
                ascending(kept@),
                forall|k: int| 0 <= k < kept@.len() ==> exists|j: int| 0 <= j < i && s0[j] == #[trigger] kept@[k],
            decreases n - i,
        {
            let id = self.ids[i];
            proof {
                let pre = s0.subrange(0, i as int + 1);
                assert(pre.drop_last() =~= s0.subrange(0, i as int));
                assert(pre.last() == id);
            }
            if store.contains(id) {
                let ghost k0 = kept@;
                kept.push(id);
                proof {
                    assert forall|a: int, b: int| 0 <= a < b < kept@.len() implies id_lt(
                        #[trigger] kept@[a],
                        #[trigger] kept@[b],
                    ) by {
                        if b == kept@.len() - 1 {
                            assert(kept@[a] == k0[a]);
                            let j = choose|j: int| 0 <= j < i && s0[j] == k0[a];
                            assert(id_lt(s0[j], s0[i as int]));
                        } else {
                            assert(kept@[a] == k0[a] && kept@[b] == k0[b]);
                        }
                    }
                    assert forall|k: int| 0 <= k < kept@.len() implies exists|j: int|
                        0 <= j < i + 1 && s0[j] == #[trigger] kept@[k] by {
                        if k == kept@.len() - 1 {
                            assert(s0[i as int] == kept@[k]);
                        } else {
                            assert(kept@[k] == k0[k]);
                            let j = choose|j: int| 0 <= j < i && s0[j] == k0[k];
                            assert(s0[j] == kept@[k]);
                        }
                    }
                }
            } else {
                proof {
                    assert(live_members(s0.subrange(0, i as int), store@) + Seq::<EntityId>::empty() =~= live_members(
                        s0.subrange(0, i as int),
                        store@,
                    ));
                }
            }
            i = i + 1;
        }
        proof {
            assert(s0.subrange(0, n as int) =~= s0);
        }
        let gone = n - kept.len();
        self.ids = kept;
        gone
    }

    /// Remove; `false`, and nothing changes, when absent.
    pub fn remove(&mut self, id: EntityId) -> (r: bool)
        requires
            old(self).wf(),
        ensures
            final(self).wf(),
            r == old(self)@.contains(id),
            r ==> final(self)@.len() + 1 == old(self)@.len(),
            !r ==> final(self)@ == old(self)@,
            forall|x: EntityId| final(self)@.contains(x) == (old(self)@.contains(x) && x != id),
    {
        match self.position_of(id) {
            Ok(pos) => {
                let ghost s0 = self@;
                self.ids.remove(pos);
                proof {
                    let s1 = self@;
                    assert(s1 == s0.remove(pos as int));
                    assert forall|i: int, j: int| 0 <= i < j < s1.len() implies id_lt(#[trigger] s1[i], #[trigger] s1[j]) by {
                        if j < pos {
                            assert(s1[i] == s0[i] && s1[j] == s0[j]);
                        } else if i < pos {
                            assert(s1[i] == s0[i] && s1[j] == s0[j + 1]);
                        } else {
                            assert(s1[i] == s0[i + 1] && s1[j] == s0[j + 1]);
                        }
                    }
                    assert forall|x: EntityId| s1.contains(x) == (s0.contains(x) && x != id) by {
                        if s1.contains(x) {
                            let k = choose|k: int| 0 <= k < s1.len() && s1[k] == x;
                            if k < pos {
                                assert(s0[k] == x);
                                assert(id_lt(s0[k], s0[pos as int]));
                            } else {
                                assert(s0[k + 1] == x);
                                assert(id_lt(s0[pos as int], s0[k + 1]));
                            }
                        }
                        if s0.contains(x) && x != id {
                            let k = choose|k: int| 0 <= k < s0.len() && s0[k] == x;
                            if k < pos {
                                assert(s1[k] == x);
                            } else {
                                assert(k != pos);
                                assert(s1[k - 1] == x);
                            }
                        }
                    }
                }
                true
            },
            Err(_) => false,
        }
    }

    /// Insert if absent, remove if present; the new membership.
    pub fn toggle(&mut self, id: EntityId) -> (r: bool)
        requires
            old(self).wf(),
        ensures
            final(self).wf(),
            r == (!old(self)@.contains(id) && old(self)@.len() < MAX_SELECTION),
            r == final(self)@.contains(id),
            toggled(old(self)@, final(self)@, id),
    {
        if self.contains(id) {
            self.remove(id);
            false
        } else {
            self.insert(id)
        }
    }

    /// Replace the whole set with `ids`, ordered and without repeats,
    /// keeping the first [`MAX_SELECTION`] distinct ones.
    pub fn replace(&mut self, ids: &[EntityId])
        requires
            old(self).wf(),
        ensures
            final(self).wf(),
            final(self)@.to_set() == insert_all(Set::empty(), 0, ids@).0,
            final(self)@.len() == insert_all(Set::empty(), 0, ids@).1,
    {
        self.ids.clear();
        let mut k: usize = 0;
        while k < ids.len()
            invariant
                k <= ids@.len(),
                self.wf(),
                self@.to_set() == insert_all(Set::empty(), 0, ids@.subrange(0, k as int)).0,
                self@.len() == insert_all(Set::empty(), 0, ids@.subrange(0, k as int)).1,
            decreases ids@.len() - k,
        {
            let ghost s0 = self@;
            let id = ids[k];
            self.insert(id);
            proof {
                let pre1 = ids@.subrange(0, k as int + 1);
                assert(pre1.drop_last() =~= ids@.subrange(0, k as int));
                assert(pre1.last() == id);
                assert(s0.to_set().contains(id) == s0.contains(id));
                if s0.contains(id) || s0.len() >= MAX_SELECTION {
                    assert(self@ == s0);
                } else {
                    assert(self@.to_set() =~= s0.to_set().insert(id)) by {
                        assert forall|x: EntityId| self@.to_set().contains(x) == s0.to_set().insert(id).contains(x) by {
                            assert(self@.to_set().contains(x) == self@.contains(x));
                            assert(s0.to_set().contains(x) == s0.contains(x));
                        }
                    }
                }
            }
            k = k + 1;
        }
        proof {
            assert(ids@.subrange(0, k as int) =~= ids@);
        }
    }

    /// The first id in slot order: the "primary" selection the HUD
    /// describes.
    pub fn primary(&self) -> (r: Option<EntityId>)
        ensures
            r == if self@.len() > 0 { Some(self@[0]) } else { None::<EntityId> },
    {
        if self.ids.len() > 0 {
            Some(self.ids[0])
        } else {
            None
        }
    }

    /// Feed the selection into the state hash: its length, then each
    /// handle's index and generation.
    pub fn hash_into(&self, h: &mut Sha256State)
        ensures
            sha256_fed(*final(h)) == sha256_fed(*old(h)) + le64(self@.len() as u64) + ids_hash_bytes(self@),
    {
        let len_bytes = u64_le(self.ids.len() as u64);
        h.update(len_bytes.as_slice());
        let ghost start = sha256_fed(*h);
        let mut k: usize = 0;
        while k < self.ids.len()
            invariant
                k <= self@.len(),
                sha256_fed(*h) == start + ids_hash_bytes(self@.subrange(0, k as int)),
            decreases self@.len() - k,
        {
            let id = self.ids[k];
            h.update(u32_le(id.index).as_slice());
            h.update(u32_le(id.generation).as_slice());
            proof {
                let pre1 = self@.subrange(0, k as int + 1);
                assert(pre1.drop_last() =~= self@.subrange(0, k as int));
                assert(pre1.last() == id);
                assert(start + ids_hash_bytes(pre1) =~= start + ids_hash_bytes(self@.subrange(0, k as int)) + le32(id.index)
                    + le32(id.generation));
            }
            k = k + 1;
        }
        proof {
            assert(self@.subrange(0, k as int) =~= self@);
        }
    }
}

/// What a click landed on.
#[derive(Clone, Copy, Debug, PartialEq, Eq, Structural)]
pub enum Pick {
    Unit(EntityId),
    Building(EntityId),
    Node(EntityId),
    Nothing,
}

} // verus!
