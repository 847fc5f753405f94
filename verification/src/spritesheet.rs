use vstd::prelude::*;

use crate::coords::UVec2;

verus! {

/// Known spritesheet identifiers.
#[derive(Debug, PartialEq, Eq, Hash, Clone, Copy, Structural)]
pub enum SpritesheetID {
    Terrain,
    HumanImperialWalking,
    HumanForestWalking,
    HumanNorthernWalking,
    HumanTribalWalking,
    HouseTier0,
    HouseTier1,
    HouseTier2,
    HouseTier3,
    HouseTier4,
    HouseTier5,
    HouseTier6,
}

/// Position of a spritesheet id in declaration order.
pub open spec fn sheet_index(id: SpritesheetID) -> int {
    match id {
        SpritesheetID::Terrain => 0,
        SpritesheetID::HumanImperialWalking => 1,
        SpritesheetID::HumanForestWalking => 2,
        SpritesheetID::HumanNorthernWalking => 3,
        SpritesheetID::HumanTribalWalking => 4,
        SpritesheetID::HouseTier0 => 5,
        SpritesheetID::HouseTier1 => 6,
        SpritesheetID::HouseTier2 => 7,
        SpritesheetID::HouseTier3 => 8,
        SpritesheetID::HouseTier4 => 9,
        SpritesheetID::HouseTier5 => 10,
        SpritesheetID::HouseTier6 => 11,
    }
}

impl SpritesheetID {
    /// Position of this id in declaration order (0..12).
    pub fn index(&self) -> (r: usize)
        ensures
            r == sheet_index(*self),
    {
        match self {
            SpritesheetID::Terrain => 0,
            SpritesheetID::HumanImperialWalking => 1,
            SpritesheetID::HumanForestWalking => 2,
            SpritesheetID::HumanNorthernWalking => 3,
            SpritesheetID::HumanTribalWalking => 4,
            SpritesheetID::HouseTier0 => 5,
            SpritesheetID::HouseTier1 => 6,
            SpritesheetID::HouseTier2 => 7,
            SpritesheetID::HouseTier3 => 8,
            SpritesheetID::HouseTier4 => 9,
            SpritesheetID::HouseTier5 => 10,
            SpritesheetID::HouseTier6 => 11,
        }
    }
}

/// Metadata for a single spritesheet image.
#[derive(Clone, Copy, Debug)]
pub struct SpritesheetDef {
    pub path: &'static str,
    pub macro_path: Option<&'static str>,
    /// Number of columns (variations) and rows (animation frames) in the sheet grid.
    pub grid: UVec2,
}

/// Central store of spritesheet definitions, with the order in which ids were first
/// registered.
pub struct SpritesheetRegistry {
    sheets: [Option<SpritesheetDef>; 12],
    order: Vec<SpritesheetID>,
}

impl View for SpritesheetRegistry {
    type V = Map<SpritesheetID, SpritesheetDef>;

    closed spec fn view(&self) -> Map<SpritesheetID, SpritesheetDef> {
        Map::new(
            |id: SpritesheetID| self.sheets@[sheet_index(id)] is Some,
            |id: SpritesheetID| self.sheets@[sheet_index(id)]->Some_0,
        )
    }
}

impl SpritesheetRegistry {
    /// Registered ids, in the order of their first registration.
    pub closed spec fn order(&self) -> Seq<SpritesheetID> {
        self.order@
    }

    /// The registration order lists each registered id exactly once.
    pub open spec fn wf(&self) -> bool {
        &&& self.order().no_duplicates()
        &&& forall|id: SpritesheetID| #[trigger] self.order().contains(id) <==> self@.contains_key(id)
    }

    /// An empty registry.
    pub fn default() -> (r: Self)
        ensures
            r.wf(),
            r@ == Map::<SpritesheetID, SpritesheetDef>::empty(),
            r.order() == Seq::<SpritesheetID>::empty(),
    {
        let r = SpritesheetRegistry { sheets: [None; 12], order: Vec::new() };
        assert(r@ =~= Map::<SpritesheetID, SpritesheetDef>::empty());
        r
    }

    /// Registers a spritesheet with its asset paths and grid dimensions, replacing an
    /// earlier definition of the same id; the id keeps its first place in the order.
    pub fn register(&mut self, id: SpritesheetID, path: &'static str, macro_path: Option<&'static str>, grid: UVec2)
        requires
            old(self).wf(),
        ensures
            final(self).wf(),
            final(self)@ == old(self)@.insert(id, SpritesheetDef { path, macro_path, grid }),
            final(self).order() == (if old(self)@.contains_key(id) {
                old(self).order()
            } else {
                old(self).order().push(id)
            }),
    {
        let i = id.index();
        let ghost o0 = self.order@;
        self.sheets[i] = Some(SpritesheetDef { path, macro_path, grid });
        proof {
            assert forall|u: SpritesheetID| sheet_index(u) == sheet_index(id) implies u == id by {}
            assert(self@ =~= old(self)@.insert(id, SpritesheetDef { path, macro_path, grid }));
        }
        let mut k: usize = 0;
        let mut present = false;
        while k < self.order.len()
            invariant
                k <= self.order@.len(),
                self.order@ == o0,
                present == (exists|j: int| 0 <= j < k && self.order@[j] == id),
            decreases self.order@.len() - k,
        {
            if self.order[k] == id {
                present = true;
            }
            k = k + 1;
        }
        if !present {
            self.order.push(id);
        }
        proof {
            assert(present == o0.contains(id));
            if !present {
                assert forall|a: int, b: int| 0 <= a < b < self.order@.len() implies self.order@[a] != self.order@[b] by {
                    if b == o0.len() {
                        assert(o0.contains(self.order@[a]));
                    }
                }
                assert forall|u: SpritesheetID| #[trigger] self.order@.contains(u) <==> self@.contains_key(u) by {
                    if self.order@.contains(u) && u != id {
                        let j = choose|j: int| 0 <= j < self.order@.len() && self.order@[j] == u;
                        assert(o0[j] == u);
                    }
                    if o0.contains(u) {
                        let j = choose|j: int| 0 <= j < o0.len() && o0[j] == u;
                        assert(self.order@[j] == u);
                    }
                    if u == id {
                        assert(self.order@[o0.len() as int] == id);
                    }
                }
            }
        }
    }

    /// Looks up a spritesheet definition by id.
    pub fn get(&self, id: SpritesheetID) -> (r: Option<&SpritesheetDef>)
        ensures
            r is Some <==> self@.contains_key(id),
            r matches Some(d) ==> *d == self@[id],
    {
        match &self.sheets[id.index()] {
            Some(d) => Some(d),
            None => None,
        }
    }

    /// All registered spritesheets in registration order.
    pub fn iter_ordered(&self) -> (r: Vec<(SpritesheetID, SpritesheetDef)>)
        requires
            self.wf(),
        ensures
            r@.len() == self.order().len(),
            forall|k: int|
                0 <= k < r@.len() ==> (#[trigger] r@[k]).0 == self.order()[k] && r@[k].1 == self@[self.order()[k]],
    {
        let mut r: Vec<(SpritesheetID, SpritesheetDef)> = Vec::new();
        let mut k: usize = 0;
        while k < self.order.len()
            invariant
                self.wf(),
                k <= self.order@.len(),
                r@.len() == k,
                forall|j: int| 0 <= j < k ==> (#[trigger] r@[j]).0 == self.order()[j] && r@[j].1 == self@[self.order()[j]],
            decreases self.order@.len() - k,
        {
            let id = self.order[k];
            proof {
                assert(self.order().contains(id));
            }
            match self.get(id) {
                Some(d) => {
                    r.push((id, *d));
                },
                None => {
                    assert(false);
                },
            }
            k = k + 1;
        }
        r
    }
}

/// `b` is the registry `a` after `register(id, ..)` with the definition `def`.
pub open spec fn register_post(a: SpritesheetRegistry, b: SpritesheetRegistry, id: SpritesheetID, def: SpritesheetDef) -> bool {
    &&& b.wf()
    &&& b@ == a@.insert(id, def)
    &&& b.order() == (if a@.contains_key(id) {
        a.order()
    } else {
        a.order().push(id)
    })
}

/// The definitions after the first `n` registrations of `regs`, each id mapped to its
/// latest definition.
pub open spec fn registered_map(regs: Seq<(SpritesheetID, SpritesheetDef)>, n: int) -> Map<SpritesheetID, SpritesheetDef>
    decreases n,
{
    if n <= 0 {
        Map::empty()
    } else {
        registered_map(regs, n - 1).insert(regs[n - 1].0, regs[n - 1].1)
    }
}

/// The ids of `regs`, in order.
pub open spec fn registered_ids(regs: Seq<(SpritesheetID, SpritesheetDef)>) -> Seq<SpritesheetID> {
    Seq::new(regs.len(), |i: int| regs[i].0)
}

/// Registering spritesheets one after the other into an empty registry lists each
/// distinct id once, in the order of its first registration, with the definition of
/// its latest registration; `iter_ordered` returns exactly these pairs.
pub proof fn law_registration_order(states: Seq<SpritesheetRegistry>, regs: Seq<(SpritesheetID, SpritesheetDef)>)
    requires
        states.len() == regs.len() + 1,
        states[0].wf(),
        states[0]@ == Map::<SpritesheetID, SpritesheetDef>::empty(),
        states[0].order() == Seq::<SpritesheetID>::empty(),
        forall|i: int| 0 <= i < regs.len() ==> #[trigger] register_post(states[i], states[i + 1], regs[i].0, regs[i].1),
    ensures
        states.last().order() == append_new(Seq::empty(), registered_ids(regs)),
        states.last()@ == registered_map(regs, regs.len() as int),
    decreases regs.len(),
{
    let ids = registered_ids(regs);
    if regs.len() > 0 {
        let n = regs.len() - 1;
        let st = states.drop_last();
        let rg = regs.drop_last();
        assert forall|i: int| 0 <= i < rg.len() implies #[trigger] register_post(st[i], st[i + 1], rg[i].0, rg[i].1) by {
            assert(register_post(states[i], states[i + 1], regs[i].0, regs[i].1));
        }
        law_registration_order(st, rg);
        assert(registered_ids(rg) =~= ids.drop_last());
        assert forall|k: int| 0 <= k < n implies registered_map(rg, k) == registered_map(regs, k) by {
            lemma_registered_map_prefix(rg, regs, k);
        }
        lemma_registered_map_prefix(rg, regs, n);
        let a = states[n];
        assert(register_post(states[n], states[n + 1], regs[n].0, regs[n].1));
        if n > 0 {
            let i = n - 1;
            assert(register_post(states[i], states[i + 1], regs[i].0, regs[i].1));
        }
        assert(a.wf());
        assert(a.order().contains(regs[n].0) <==> a@.contains_key(regs[n].0));
    }
}

/// `registered_map` only looks at the first `k` registrations.
proof fn lemma_registered_map_prefix(
    a: Seq<(SpritesheetID, SpritesheetDef)>,
    b: Seq<(SpritesheetID, SpritesheetDef)>,
    k: int,
)
    requires
        0 <= k <= a.len(),
        k <= b.len(),
        forall|i: int| 0 <= i < k ==> a[i] == b[i],
    ensures
        registered_map(a, k) == registered_map(b, k),
    decreases k,
{
    if k > 0 {
        lemma_registered_map_prefix(a, b, k - 1);
    }
}

/// The definition each spritesheet gets from `register_spritesheets`.
/// Grid convention: x = number of columns = number of variations,
/// y = number of rows = number of animation frames.
pub open spec fn builtin_sheet(id: SpritesheetID) -> SpritesheetDef {
    match id {
        SpritesheetID::Terrain => SpritesheetDef { path: "art/sprites/tileset.png", macro_path: None, grid: UVec2 { x: 1, y: 8 } },
        SpritesheetID::HumanImperialWalking => SpritesheetDef { path: "art/sprites/human_imperial_walking.png", macro_path: None, grid: UVec2 { x: 1, y: 4 } },
        SpritesheetID::HumanForestWalking => SpritesheetDef { path: "art/sprites/human_forest_walking.png", macro_path: None, grid: UVec2 { x: 1, y: 4 } },
        SpritesheetID::HumanNorthernWalking => SpritesheetDef { path: "art/sprites/human_northern_walking.png", macro_path: None, grid: UVec2 { x: 1, y: 4 } },
        SpritesheetID::HumanTribalWalking => SpritesheetDef { path: "art/sprites/human_tribal_walking.png", macro_path: None, grid: UVec2 { x: 1, y: 4 } },
        SpritesheetID::HouseTier0 => SpritesheetDef { path: "art/sprites/house_tier0.png", macro_path: Some("art/sprites/house_tier0_macro.png"), grid: UVec2 { x: 1, y: 1 } },
        SpritesheetID::HouseTier1 => SpritesheetDef { path: "art/sprites/house_tier1.png", macro_path: Some("art/sprites/house_tier1_macro.png"), grid: UVec2 { x: 4, y: 1 } },
        SpritesheetID::HouseTier2 => SpritesheetDef { path: "art/sprites/house_tier2.png", macro_path: Some("art/sprites/house_tier2_macro.png"), grid: UVec2 { x: 4, y: 1 } },
        SpritesheetID::HouseTier3 => SpritesheetDef { path: "art/sprites/house_tier3.png", macro_path: Some("art/sprites/house_tier3_macro.png"), grid: UVec2 { x: 4, y: 1 } },
        SpritesheetID::HouseTier4 => SpritesheetDef { path: "art/sprites/house_tier4.png", macro_path: Some("art/sprites/house_tier4_macro.png"), grid: UVec2 { x: 4, y: 1 } },
        SpritesheetID::HouseTier5 => SpritesheetDef { path: "art/sprites/house_tier5.png", macro_path: Some("art/sprites/house_tier5_macro.png"), grid: UVec2 { x: 4, y: 1 } },
        SpritesheetID::HouseTier6 => SpritesheetDef { path: "art/sprites/house_tier6.png", macro_path: Some("art/sprites/house_tier6_macro.png"), grid: UVec2 { x: 4, y: 1 } },
    }
}

/// The ids in the order `register_spritesheets` registers them.
pub open spec fn builtin_sheet_ids() -> Seq<SpritesheetID> {
    seq![SpritesheetID::Terrain, SpritesheetID::HumanImperialWalking, SpritesheetID::HumanForestWalking, SpritesheetID::HumanNorthernWalking, SpritesheetID::HumanTribalWalking, SpritesheetID::HouseTier0, SpritesheetID::HouseTier1, SpritesheetID::HouseTier2, SpritesheetID::HouseTier3, SpritesheetID::HouseTier4, SpritesheetID::HouseTier5, SpritesheetID::HouseTier6]
}

/// `o` followed by the entries of `ids` it does not hold yet, in order, each once.
pub open spec fn append_new(o: Seq<SpritesheetID>, ids: Seq<SpritesheetID>) -> Seq<SpritesheetID>
    decreases ids.len(),
{
    if ids.len() == 0 {
        o
    } else {
        let p = append_new(o, ids.drop_last());
        if p.contains(ids.last()) {
            p
        } else {
            p.push(ids.last())
        }
    }
}

proof fn lemma_append_new_step(o: Seq<SpritesheetID>, ids: Seq<SpritesheetID>, k: int)
    requires
        0 <= k < ids.len(),
    ensures
        append_new(o, ids.take(k + 1)) == (if append_new(o, ids.take(k)).contains(ids[k]) {
            append_new(o, ids.take(k))
        } else {
            append_new(o, ids.take(k)).push(ids[k])
        }),
{
    assert(ids.take(k + 1).drop_last() =~= ids.take(k));
}

/// The known spritesheets with their definitions, in registration order.
fn builtin_sheet_table() -> (t: Vec<(SpritesheetID, SpritesheetDef)>)
    ensures
        t@.len() == 12,
        forall|k: int| 0 <= k < 12 ==> (#[trigger] t@[k]).0 == builtin_sheet_ids()[k] && t@[k].1 == builtin_sheet(t@[k].0),
{
    let mut t: Vec<(SpritesheetID, SpritesheetDef)> = Vec::new();
    t.push((SpritesheetID::Terrain, SpritesheetDef { path: "art/sprites/tileset.png", macro_path: None, grid: UVec2 { x: 1, y: 8 } }));
    t.push((SpritesheetID::HumanImperialWalking, SpritesheetDef { path: "art/sprites/human_imperial_walking.png", macro_path: None, grid: UVec2 { x: 1, y: 4 } }));
    t.push((SpritesheetID::HumanForestWalking, SpritesheetDef { path: "art/sprites/human_forest_walking.png", macro_path: None, grid: UVec2 { x: 1, y: 4 } }));
    t.push((SpritesheetID::HumanNorthernWalking, SpritesheetDef { path: "art/sprites/human_northern_walking.png", macro_path: None, grid: UVec2 { x: 1, y: 4 } }));
    t.push((SpritesheetID::HumanTribalWalking, SpritesheetDef { path: "art/sprites/human_tribal_walking.png", macro_path: None, grid: UVec2 { x: 1, y: 4 } }));
    t.push((SpritesheetID::HouseTier0, SpritesheetDef { path: "art/sprites/house_tier0.png", macro_path: Some("art/sprites/house_tier0_macro.png"), grid: UVec2 { x: 1, y: 1 } }));
    t.push((SpritesheetID::HouseTier1, SpritesheetDef { path: "art/sprites/house_tier1.png", macro_path: Some("art/sprites/house_tier1_macro.png"), grid: UVec2 { x: 4, y: 1 } }));
    t.push((SpritesheetID::HouseTier2, SpritesheetDef { path: "art/sprites/house_tier2.png", macro_path: Some("art/sprites/house_tier2_macro.png"), grid: UVec2 { x: 4, y: 1 } }));
    t.push((SpritesheetID::HouseTier3, SpritesheetDef { path: "art/sprites/house_tier3.png", macro_path: Some("art/sprites/house_tier3_macro.png"), grid: UVec2 { x: 4, y: 1 } }));
    t.push((SpritesheetID::HouseTier4, SpritesheetDef { path: "art/sprites/house_tier4.png", macro_path: Some("art/sprites/house_tier4_macro.png"), grid: UVec2 { x: 4, y: 1 } }));
    t.push((SpritesheetID::HouseTier5, SpritesheetDef { path: "art/sprites/house_tier5.png", macro_path: Some("art/sprites/house_tier5_macro.png"), grid: UVec2 { x: 4, y: 1 } }));
    t.push((SpritesheetID::HouseTier6, SpritesheetDef { path: "art/sprites/house_tier6.png", macro_path: Some("art/sprites/house_tier6_macro.png"), grid: UVec2 { x: 4, y: 1 } }));
    t
}

/// Registers every known spritesheet: its image path, optional macro-map image path
/// and sprite grid.
pub fn register_spritesheets(sheets: &mut SpritesheetRegistry)
    requires
        old(sheets).wf(),
    ensures
        final(sheets).wf(),
        forall|id: SpritesheetID| #[trigger] final(sheets)@.contains_key(id) && final(sheets)@[id] == builtin_sheet(id),
        final(sheets).order() == append_new(old(sheets).order(), builtin_sheet_ids()),
{
    let ghost o0 = sheets.order();
    let ghost m0 = sheets@;
    let ghost ids = builtin_sheet_ids();
    let table = builtin_sheet_table();
    proof {
        assert(ids.take(0) =~= Seq::<SpritesheetID>::empty());
    }
    let mut k: usize = 0;
    while k < table.len()
        invariant
            k <= 12,
            table@.len() == 12,
            ids == builtin_sheet_ids(),
            forall|j: int| 0 <= j < 12 ==> (#[trigger] table@[j]).0 == ids[j] && table@[j].1 == builtin_sheet(table@[j].0),
            sheets.wf(),
            sheets.order() == append_new(o0, ids.take(k as int)),
            forall|id: SpritesheetID|
                #[trigger] sheets@.contains_key(id) == (m0.contains_key(id) || ids.take(k as int).contains(id)),
            forall|id: SpritesheetID|
                #[trigger] ids.take(k as int).contains(id) ==> sheets@[id] == builtin_sheet(id),
            forall|id: SpritesheetID|
                !#[trigger] ids.take(k as int).contains(id) && m0.contains_key(id) ==> sheets@[id] == m0[id],
        decreases 12 - k,
    {
        let (id, def) = table[k];
        let ghost before = sheets@;
        sheets.register(id, def.path, def.macro_path, def.grid);
        proof {
            lemma_append_new_step(o0, ids, k as int);
            let t1 = ids.take(k + 1);
            let t0 = ids.take(k as int);
            assert(t1 =~= t0.push(ids[k as int]));
            assert forall|u: SpritesheetID| #[trigger] t1.contains(u) <==> (t0.contains(u) || u == id) by {
                if t1.contains(u) {
                    let j = choose|j: int| 0 <= j < t1.len() && t1[j] == u;
                    if j < k {
                        assert(t0[j] == u);
                    }
                }
                if t0.contains(u) {
                    let j = choose|j: int| 0 <= j < t0.len() && t0[j] == u;
                    assert(t1[j] == u);
                }
                if u == id {
                    assert(t1[k as int] == u);
                }
            }
        }
        k = k + 1;
    }
    proof {
        assert(ids.take(12) =~= ids);
        assert forall|id: SpritesheetID| #[trigger] sheets@.contains_key(id) && sheets@[id] == builtin_sheet(id) by {
            let j = sheet_index(id);
            assert(ids[j] == id);
            assert(ids.contains(id));
        }
    }
}

/// Pixel size of one sprite cell of a `width` by `height` sheet image cut into the
/// sheet's `grid` (columns, rows).
pub fn atlas_cell_size(width: u32, height: u32, grid: UVec2) -> (r: UVec2)
    requires
        grid.x > 0,
        grid.y > 0,
    ensures
        r.x == width / grid.x,
        r.y == height / grid.y,
{
    UVec2 { x: width / grid.x, y: height / grid.y }
}

} // verus!
