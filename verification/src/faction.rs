use vstd::prelude::*;

verus! {

/// Identifies which faction an entity belongs to.
#[derive(Clone, Copy, PartialEq, Eq, Hash, Debug, Structural)]
pub struct FactionId(pub u32);

/// Data stored for each faction.
pub struct FactionDef {
    pub name: String,
    pub color: [u8; 3],
}

/// Central registry of factions. A faction's id is the slot it was added in; removed
/// factions leave an empty slot, so ids are never reused. Removed ids are queued until
/// the queue is cleared.
pub struct FactionRegistry {
    factions: Vec<Option<FactionDef>>,
    deleted_ids: Vec<u32>,
}

/// The ids of the occupied slots of `s`, in increasing order.
pub open spec fn active_ids_of(s: Seq<Option<FactionDef>>) -> Seq<FactionId>
    decreases s.len(),
{
    if s.len() == 0 {
        Seq::empty()
    } else {
        active_ids_of(s.drop_last()) + (if s.last() is Some {
            seq![FactionId((s.len() - 1) as u32)]
        } else {
            Seq::empty()
        })
    }
}

impl View for FactionRegistry {
    type V = Seq<Option<FactionDef>>;

    /// One slot per id ever handed out; `None` once the faction is removed.
    closed spec fn view(&self) -> Seq<Option<FactionDef>> {
        self.factions@
    }
}

impl FactionRegistry {
    /// Ids removed since the queue was last cleared, in removal order.
    pub closed spec fn deleted(&self) -> Seq<u32> {
        self.deleted_ids@
    }

    /// Whether `id` names a faction that exists.
    pub open spec fn is_active(&self, id: FactionId) -> bool {
        id.0 < self@.len() && self@[id.0 as int] is Some
    }

    /// An empty registry.
    pub fn default() -> (r: Self)
        ensures
            r@ == Seq::<Option<FactionDef>>::empty(),
            r.deleted() == Seq::<u32>::empty(),
    {
        FactionRegistry { factions: Vec::new(), deleted_ids: Vec::new() }
    }

    /// Number of ids handed out so far (removed factions included).
    pub fn slot_count(&self) -> (r: usize)
        ensures
            r == self@.len(),
    {
        self.factions.len()
    }

    /// Creates a new faction and returns its id, the number of factions added before.
    pub fn add(&mut self, name: String, color: [u8; 3]) -> (id: FactionId)
        requires
            old(self)@.len() < u32::MAX,
        ensures
            id.0 == old(self)@.len(),
            final(self)@ == old(self)@.push(Some(FactionDef { name, color })),
            final(self).deleted() == old(self).deleted(),
    {
        let id = self.factions.len() as u32;
        self.factions.push(Some(FactionDef { name, color }));
        FactionId(id)
    }

    /// Deletes the faction with the given id and queues the id as deleted. Ids that
    /// name no existing faction are ignored.
    pub fn remove(&mut self, id: FactionId)
        ensures
            old(self).is_active(id) ==> final(self)@ == old(self)@.update(id.0 as int, None) && final(self).deleted()
                == old(self).deleted().push(id.0),
            !old(self).is_active(id) ==> final(self)@ == old(self)@ && final(self).deleted() == old(self).deleted(),
    {
        let i = id.0 as usize;
        if i < self.factions.len() {
            if self.factions[i].is_some() {
                self.factions.set(i, None);
                self.deleted_ids.push(id.0);
            }
        }
    }

    /// The faction with the given id, if it exists.
    pub fn get(&self, id: FactionId) -> (r: Option<&FactionDef>)
        ensures
            r is Some <==> self.is_active(id),
            r matches Some(d) ==> self@[id.0 as int] == Some(*d),
    {
        let i = id.0 as usize;
        if i < self.factions.len() {
            match &self.factions[i] {
                Some(d) => Some(d),
                None => None,
            }
        } else {
            None
        }
    }

    /// The color of the faction with the given id, if it exists.
    pub fn color(&self, id: FactionId) -> (r: Option<[u8; 3]>)
        ensures
            r is Some <==> self.is_active(id),
            r matches Some(c) ==> c == self@[id.0 as int]->Some_0.color,
    {
        match self.get(id) {
            Some(d) => Some(d.color),
            None => None,
        }
    }

    /// Mutable access to the faction with the given id, if it exists. Whatever is
    /// written through the returned reference becomes that faction's definition.
    pub fn get_mut(&mut self, id: FactionId) -> (r: Option<&mut FactionDef>)
        ensures
            r is Some <==> old(self).is_active(id),
            r matches Some(d) ==> *d == old(self)@[id.0 as int]->Some_0,
            r matches Some(d) ==> final(self)@ == old(self)@.update(id.0 as int, Some(*final(d))),
            r is None ==> final(self)@ == old(self)@,
            final(self).deleted() == old(self).deleted(),
    {
        let i = id.0 as usize;
        if i < self.factions.len() {
            match &mut self.factions[i] {
                Some(d) => Some(d),
                None => None,
            }
        } else {
            None
        }
    }

    /// Ids of all existing factions, in increasing order.
    pub fn active_ids(&self) -> (r: Vec<FactionId>)
        ensures
            r@ == active_ids_of(self@),
    {
        let mut r: Vec<FactionId> = Vec::new();
        let n = self.factions.len();
        let mut i: usize = 0;
        while i < n
            invariant
                i <= n,
                n == self@.len(),
                n <= usize::MAX,
                r@ == active_ids_of(self@.take(i as int)),
            decreases n - i,
        {
            proof {
                assert(self@.take(i as int + 1).drop_last() =~= self@.take(i as int));
            }
            if self.factions[i].is_some() {
                r.push(FactionId(i as u32));
            }
            i = i + 1;
        }
        proof {
            assert(self@.take(n as int) =~= self@);
        }
        r
    }

    /// Whether any removal is queued.
    pub fn has_deletions(&self) -> (r: bool)
        ensures
            r == (self.deleted().len() > 0),
    {
        self.deleted_ids.len() > 0
    }

    /// Whether `id` is queued as removed.
    pub fn was_deleted(&self, id: FactionId) -> (r: bool)
        ensures
            r == self.deleted().contains(id.0),
    {
        let n = self.deleted_ids.len();
        let mut i: usize = 0;
        while i < n
            invariant
                i <= n,
                n == self.deleted().len(),
                forall|k: int| 0 <= k < i ==> self.deleted()[k] != id.0,
            decreases n - i,
        {
            if self.deleted_ids[i] == id.0 {
                return true;
            }
            i = i + 1;
        }
        false
    }

    /// Empties the queue of removed ids.
    pub fn clear_deleted(&mut self)
        ensures
            final(self)@ == old(self)@,
            final(self).deleted() == Seq::<u32>::empty(),
    {
        self.deleted_ids.clear();
    }
}

/// The listed ids are exactly the occupied slots, each once, in increasing order.
pub proof fn law_active_ids_exact(s: Seq<Option<FactionDef>>)
    requires
        s.len() <= u32::MAX,
    ensures
        forall|id: FactionId| #[trigger] active_ids_of(s).contains(id) <==> (id.0 < s.len() && s[id.0 as int] is Some),
        forall|a: int, b: int|
            0 <= a < b < active_ids_of(s).len() ==> #[trigger] active_ids_of(s)[a].0 < #[trigger] active_ids_of(s)[b].0,
    decreases s.len(),
{
    if s.len() > 0 {
        let p = s.drop_last();
        law_active_ids_exact(p);
        let a = active_ids_of(p);
        let t = active_ids_of(s);
        assert forall|k: int| 0 <= k < a.len() implies #[trigger] a[k].0 < p.len() by {
            assert(a.contains(a[k]));
        }
        assert forall|id: FactionId| #[trigger] t.contains(id) <==> (id.0 < s.len() && s[id.0 as int] is Some) by {
            if t.contains(id) {
                let k = choose|k: int| 0 <= k < t.len() && t[k] == id;
                if k < a.len() {
                    assert(a.contains(id));
                }
            }
            if id.0 < s.len() && s[id.0 as int] is Some {
                if id.0 < p.len() {
                    assert(a.contains(id));
                    let k = choose|k: int| 0 <= k < a.len() && a[k] == id;
                    assert(t[k] == id);
                } else {
                    assert(t[a.len() as int] == id);
                }
            }
        }
    }
}

/// Adding a faction hands out a fresh id, the number of ids handed out before (removed
/// ones included), makes it active with the given definition, appends it to the
/// listed ids, and leaves every earlier slot as it was; ids are never reused.
pub proof fn law_add_then_get(old_s: Seq<Option<FactionDef>>, new_s: Seq<Option<FactionDef>>, id: FactionId, def: FactionDef)
    requires
        id.0 == old_s.len(),
        new_s == old_s.push(Some(def)),
    ensures
        id.0 < new_s.len() && new_s[id.0 as int] == Some(def),
        active_ids_of(new_s) == active_ids_of(old_s).push(id),
        forall|k: int| 0 <= k < old_s.len() ==> #[trigger] new_s[k] == old_s[k] && k != id.0,
{
    assert(new_s.drop_last() =~= old_s);
}

/// A removed id is no longer active nor listed, and a later add hands out a fresh id.
pub proof fn law_remove_then_gone(old_s: Seq<Option<FactionDef>>, new_s: Seq<Option<FactionDef>>, id: FactionId)
    requires
        new_s.len() <= u32::MAX,
        id.0 < old_s.len(),
        new_s == old_s.update(id.0 as int, None),
    ensures
        !(id.0 < new_s.len() && new_s[id.0 as int] is Some),
        !active_ids_of(new_s).contains(id),
        forall|k: int| 0 <= k < active_ids_of(new_s).len() ==> #[trigger] active_ids_of(new_s)[k].0 < new_s.len(),
{
    law_active_ids_exact(new_s);
    assert forall|k: int| 0 <= k < active_ids_of(new_s).len() implies #[trigger] active_ids_of(new_s)[k].0 < new_s.len() by {
        assert(active_ids_of(new_s).contains(active_ids_of(new_s)[k]));
    }
}

/// Current display colour of a building.
#[derive(Clone, Copy, Debug)]
pub struct BuildingColor {
    pub color: [u8; 3],
}

impl BuildingColor {
    /// Light grey: the colour of a building without a faction.
    pub fn default() -> (r: Self)
        ensures
            r.color == [200u8, 200u8, 200u8],
    {
        BuildingColor { color: [200, 200, 200] }
    }
}

} // verus!
