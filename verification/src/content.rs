//! The content model: typed records of a mod's manifest, races, weapons, upgrades and
//! maps, and the cross-reference rules that a loaded mod must satisfy.
//!
//! Numbers that the mod format writes as decimals (hit points, speeds, positions...) are
//! kept as the bit patterns of their `f32` values; this library reads them nowhere.
use vstd::prelude::*;

use crate::graph::{has_edge, is_square, reaches, reaches_itself};

verus! {

/// The mod's identity and the permissions it asks for.
#[derive(Debug, Clone, PartialEq)]
pub struct Manifest {
    pub id: String,
    pub name: String,
    pub version: String,
    pub permissions: Vec<String>,
}

/// An enemy race.
#[derive(Debug, Clone, PartialEq)]
pub struct Race {
    pub id: String,
    pub name: String,
    pub description: String,
    /// Bit pattern of the `f32` hit points.
    pub hp_bits: u32,
    /// Bit pattern of the `f32` speed.
    pub speed_bits: u32,
    pub reward_diamonds: u32,
    /// Bit pattern of the `f32` base damage on a leak.
    pub damage_to_hp_bits: u32,
    /// Bit pattern of the `f32` chance to spawn silver.
    pub silver_chance_bits: u32,
    /// Bit pattern of the `f32` chance to explode on death.
    pub explosive_chance_bits: u32,
    pub script: Option<String>,
    pub scripting: Option<String>,
    pub tint: Option<String>,
}

/// What a weapon fires.
#[derive(Debug, Clone, PartialEq, Default)]
pub struct Projectile {
    pub kind: String,
    /// Bit pattern of the `f32` speed.
    pub speed_bits: Option<u32>,
    /// Bit pattern of the `f32` splash radius.
    pub splash_radius_bits: Option<u32>,
    pub pierce: Option<u32>,
    pub bounce: Option<u32>,
    pub chains: Option<u32>,
    /// Bit pattern of the `f32` chain falloff.
    pub chain_falloff_bits: Option<u32>,
    /// Bit pattern of the `f32` burn damage.
    pub burn_bits: Option<u32>,
    /// Bit pattern of the `f32` knockback.
    pub knockback_bits: Option<u32>,
}

/// A tower.
#[derive(Debug, Clone, PartialEq)]
pub struct Weapon {
    pub id: String,
    pub name: String,
    pub description: String,
    pub sprite: Option<String>,
    pub cost_orbs: u32,
    pub cap: u32,
    /// Bit pattern of the `f32` damage per hit.
    pub damage_bits: u32,
    /// Bit pattern of the `f32` shots per second.
    pub fire_rate_bits: u32,
    /// Bit pattern of the `f32` range.
    pub range_bits: u32,
    pub targeting: String,
    pub projectile: Option<Projectile>,
    /// Bit pattern of the `f32` damage over time.
    pub tick_damage_bits: Option<u32>,
    pub script: Option<String>,
    pub upgrades: Vec<String>,
}

/// The price of an upgrade-tree node.
#[derive(Debug, Clone, Copy, PartialEq, Eq, Default)]
pub struct Cost {
    pub orbs: u32,
    pub cubes: u32,
    pub diamonds: u32,
}

/// A node of the upgrade tree.
#[derive(Debug, Clone, PartialEq)]
pub struct Upgrade {
    pub id: String,
    pub kind: String,
    pub weapon: Option<String>,
    pub cost: Cost,
    pub rank_max: u32,
    /// The node's effect, as YAML text.
    pub effect: Option<String>,
    pub requires: Vec<String>,
    pub icon: Option<String>,
    pub color: Option<String>,
}

/// How fast a map spawns orcs.
#[derive(Debug, Clone, Copy, PartialEq, Eq, Default)]
pub struct SpawnRate {
    /// Bit pattern of the `f32` orcs per second at the start.
    pub base_bits: u32,
    /// Bit pattern of the `f32` growth of the rate per second.
    pub ramp_bits: u32,
}

/// `count` orcs of one race.
#[derive(Debug, Clone, PartialEq)]
pub struct WaveGroup {
    pub race: String,
    pub count: u32,
}

/// The orcs of one round, group after group.
#[derive(Debug, Clone, PartialEq)]
pub struct WaveRound {
    pub round: u32,
    pub orcs: Vec<WaveGroup>,
}

/// A tower placed on the map before the battle.
#[derive(Debug, Clone, PartialEq)]
pub struct StartingTower {
    pub weapon: String,
    /// Bit pattern of the `f32` x position.
    pub x_bits: u32,
    /// Bit pattern of the `f32` y position.
    pub y_bits: u32,
}

/// A sector: route, rounds, budget and the towers it starts with.
#[derive(Debug, Clone, PartialEq)]
pub struct MapDef {
    pub id: String,
    pub name: String,
    pub path_svg: Option<String>,
    /// The route polyline, each point the bit patterns of its `f32` x and y.
    pub path: Vec<[u32; 2]>,
    pub routes: u32,
    pub rounds: u32,
    pub orc_budget: u32,
    /// Bit pattern of the `f32` base hit points.
    pub hp_bits: u32,
    pub spawn_rate: SpawnRate,
    pub wave_schedule: Vec<WaveRound>,
    pub starting_diamonds: u32,
    pub starting_towers: Vec<StartingTower>,
}

/// The loaded content of a mod, each collection in file order.
#[derive(Debug)]
pub struct Content {
    pub manifest: Option<Manifest>,
    pub races: Vec<Race>,
    pub weapons: Vec<Weapon>,
    pub upgrades: Vec<Upgrade>,
    pub maps: Vec<MapDef>,
}

/// A record that is found by its id.
pub trait HasId {
    spec fn spec_id(&self) -> Seq<char>;

    fn id(&self) -> (r: String)
        ensures
            r@ == self.spec_id(),
    ;
}

impl HasId for Race {
    open spec fn spec_id(&self) -> Seq<char> {
        self.id@
    }

    fn id(&self) -> (r: String) {
        self.id.clone()
    }
}

impl HasId for Weapon {
    open spec fn spec_id(&self) -> Seq<char> {
        self.id@
    }

    fn id(&self) -> (r: String) {
        self.id.clone()
    }
}

impl HasId for Upgrade {
    open spec fn spec_id(&self) -> Seq<char> {
        self.id@
    }

    fn id(&self) -> (r: String) {
        self.id.clone()
    }
}

impl HasId for MapDef {
    open spec fn spec_id(&self) -> Seq<char> {
        self.id@
    }

    fn id(&self) -> (r: String) {
        self.id.clone()
    }
}

/// Some record of `items` has the id `id`.
pub open spec fn holds_id<T: HasId>(items: Seq<T>, id: Seq<char>) -> bool {
    exists|i: int| 0 <= i < items.len() && #[trigger] items[i].spec_id() == id
}

/// No two records of `items` share an id.
pub open spec fn ids_distinct<T: HasId>(items: Seq<T>) -> bool {
    forall|i: int, j: int| 0 <= i < j < items.len() ==> #[trigger] items[i].spec_id() != #[trigger] items[j].spec_id()
}

/// The position of the first record with id `id`.
pub fn position_of_id<T: HasId>(items: &Vec<T>, id: &String) -> (r: Option<usize>)
    ensures
        r is None <==> !holds_id(items@, id@),
        r matches Some(i) ==> i < items@.len() && items@[i as int].spec_id() == id@ && forall|j: int|
            0 <= j < i ==> #[trigger] items@[j].spec_id() != id@,
{
    for i in 0..items.len()
        invariant
            forall|j: int| 0 <= j < i ==> #[trigger] items@[j].spec_id() != id@,
    {
        let other = items[i].id();
        if other == *id {
            return Some(i);
        }
    }
    None
}

/// Add `item` to `items` unless a record with the same id is already there; the error
/// gives the position of that record.
pub fn insert_by_id<T: HasId>(items: &mut Vec<T>, item: T) -> (r: Result<(), usize>)
    ensures
        r is Ok <==> !holds_id(old(items)@, item.spec_id()),
        r is Ok ==> final(items)@ == old(items)@.push(item),
        r matches Err(i) ==> final(items)@ == old(items)@ && i < old(items)@.len() && old(items)@[i as int].spec_id()
            == item.spec_id() && forall|j: int| 0 <= j < i ==> #[trigger] old(items)@[j].spec_id() != item.spec_id(),
        ids_distinct(old(items)@) ==> ids_distinct(final(items)@),
{
    let id = item.id();
    match position_of_id(items, &id) {
        Some(i) => Err(i),
        None => {
            let ghost before = items@;
            items.push(item);
            proof {
                assert forall|i: int, j: int| 0 <= i < j < items@.len() && ids_distinct(before) implies
                    #[trigger] items@[i].spec_id() != #[trigger] items@[j].spec_id() by {
                    if j == before.len() {
                        assert(items@[i] == before[i]);
                        if before[i].spec_id() == id@ {
                            assert(holds_id(before, id@));
                        }
                    } else {
                        assert(items@[i] == before[i] && items@[j] == before[j]);
                    }
                }
            }
            Ok(())
        },
    }
}

impl Content {
    /// Ids are unique within each folder, as the keys of a map are.
    pub open spec fn wf(&self) -> bool {
        &&& ids_distinct(self.races@)
        &&& ids_distinct(self.weapons@)
        &&& ids_distinct(self.upgrades@)
        &&& ids_distinct(self.maps@)
    }

    /// A mod with the given manifest and no records yet.
    pub fn new(manifest: Option<Manifest>) -> (c: Content)
        ensures
            c.wf(),
            c.manifest == manifest,
            c.races@.len() == 0,
            c.weapons@.len() == 0,
            c.upgrades@.len() == 0,
            c.maps@.len() == 0,
    {
        Content { manifest, races: Vec::new(), weapons: Vec::new(), upgrades: Vec::new(), maps: Vec::new() }
    }

    /// Add a race unless one with its id is loaded; the error is that race's position.
    pub fn add_race(&mut self, race: Race) -> (r: Result<(), usize>)
        requires
            old(self).wf(),
        ensures
            final(self).wf(),
            r is Ok <==> !holds_id(old(self).races@, race.id@),
            r is Ok ==> final(self).races@ == old(self).races@.push(race),
            r is Err ==> final(self).races@ == old(self).races@,
            r matches Err(i) ==> i < old(self).races@.len() && old(self).races@[i as int].id@ == race.id@,
            final(self).manifest == old(self).manifest,
            final(self).weapons == old(self).weapons,
            final(self).upgrades == old(self).upgrades,
            final(self).maps == old(self).maps,
    {
        insert_by_id(&mut self.races, race)
    }

    /// Add a weapon unless one with its id is loaded; the error is that weapon's position.
    pub fn add_weapon(&mut self, weapon: Weapon) -> (r: Result<(), usize>)
        requires
            old(self).wf(),
        ensures
            final(self).wf(),
            r is Ok <==> !holds_id(old(self).weapons@, weapon.id@),
            r is Ok ==> final(self).weapons@ == old(self).weapons@.push(weapon),
            r is Err ==> final(self).weapons@ == old(self).weapons@,
            r matches Err(i) ==> i < old(self).weapons@.len() && old(self).weapons@[i as int].id@ == weapon.id@,
            final(self).manifest == old(self).manifest,
            final(self).races == old(self).races,
            final(self).upgrades == old(self).upgrades,
            final(self).maps == old(self).maps,
    {
        insert_by_id(&mut self.weapons, weapon)
    }

    /// Add an upgrade unless one with its id is loaded; the error is that upgrade's position.
    pub fn add_upgrade(&mut self, upgrade: Upgrade) -> (r: Result<(), usize>)
        requires
            old(self).wf(),
        ensures
            final(self).wf(),
            r is Ok <==> !holds_id(old(self).upgrades@, upgrade.id@),
            r is Ok ==> final(self).upgrades@ == old(self).upgrades@.push(upgrade),
            r is Err ==> final(self).upgrades@ == old(self).upgrades@,
            r matches Err(i) ==> i < old(self).upgrades@.len() && old(self).upgrades@[i as int].id@ == upgrade.id@,
            final(self).manifest == old(self).manifest,
            final(self).races == old(self).races,
            final(self).weapons == old(self).weapons,
            final(self).maps == old(self).maps,
    {
        insert_by_id(&mut self.upgrades, upgrade)
    }

    /// Add a map unless one with its id is loaded; the error is that map's position.
    pub fn add_map(&mut self, map: MapDef) -> (r: Result<(), usize>)
        requires
            old(self).wf(),
        ensures
            final(self).wf(),
            r is Ok <==> !holds_id(old(self).maps@, map.id@),
            r is Ok ==> final(self).maps@ == old(self).maps@.push(map),
            r is Err ==> final(self).maps@ == old(self).maps@,
            r matches Err(i) ==> i < old(self).maps@.len() && old(self).maps@[i as int].id@ == map.id@,
            final(self).manifest == old(self).manifest,
            final(self).races == old(self).races,
            final(self).weapons == old(self).weapons,
            final(self).upgrades == old(self).upgrades,
    {
        insert_by_id(&mut self.maps, map)
    }

    /// The map with id `id`: the only one in a well-formed mod, the first one otherwise.
    pub fn get_map(&self, id: &str) -> (r: Option<&MapDef>)
        ensures
            r is None <==> !holds_id(self.maps@, id@),
            r matches Some(m) ==> exists|i: int|
                0 <= i < self.maps@.len() && self.maps@[i] == *m && m.id@ == id@ && forall|j: int|
                    0 <= j < i ==> #[trigger] self.maps@[j].id@ != id@,
            self.wf() ==> (r matches Some(m) ==> forall|j: int|
                0 <= j < self.maps@.len() && #[trigger] self.maps@[j].id@ == id@ ==> self.maps@[j] == *m),
    {
        let key = id.to_owned();
        match position_of_id(&self.maps, &key) {
            Some(i) => {
                proof {
                    assert forall|j: int| 0 <= j < i implies #[trigger] self.maps@[j].id@ != id@ by {
                        assert(self.maps@[j].spec_id() != key@);
                    }
                    if self.wf() {
                        assert forall|j: int| 0 <= j < self.maps@.len() && #[trigger] self.maps@[j].id@ == id@ implies
                            self.maps@[j] == self.maps@[i as int] by {
                            if j != i {
                                assert(self.maps@[j].spec_id() == self.maps@[i as int].spec_id());
                                if j < i {
                                    assert(self.maps@[j].spec_id() != self.maps@[i as int].spec_id());
                                } else {
                                    assert(self.maps@[i as int].spec_id() != self.maps@[j].spec_id());
                                }
                            }
                        }
                    }
                }
                Some(&self.maps[i])
            },
            None => None,
        }
    }
}


/// A broken rule of a mod's content; positions count records in file order.
#[derive(Debug, Clone, Copy, PartialEq, Eq)]
pub enum ContentError {
    /// Entry `upgrade` of the upgrade list of weapon `weapon` names no upgrade.
    MissingUpgrade { weapon: usize, upgrade: usize },
    /// Entry `requirement` of the `requires` list of upgrade `upgrade` names no upgrade.
    MissingRequirement { upgrade: usize, requirement: usize },
    /// Upgrade `upgrade` belongs to a weapon that does not exist.
    MissingWeapon { upgrade: usize },
    /// Upgrade `upgrade` requires itself, through a chain of requirements.
    CyclicUpgrade { upgrade: usize },
    /// The route of map `map` has fewer than two points.
    ShortPath { map: usize },
    /// Group `group` of round `round` of map `map` names no race.
    MissingRace { map: usize, round: usize, group: usize },
    /// Starting tower `tower` of map `map` names no weapon.
    MissingTowerWeapon { map: usize, tower: usize },
}

/// Upgrade `u` names upgrade `v` among its requirements.
pub open spec fn requires_edge(ups: Seq<Upgrade>, u: int, v: int) -> bool {
    &&& 0 <= u < ups.len()
    &&& 0 <= v < ups.len()
    &&& exists|r: int| 0 <= r < ups[u].requires@.len() && #[trigger] ups[u].requires@[r]@ == ups[v].id@
}

/// `p` is a chain of upgrades, each requiring the next.
pub open spec fn is_requires_chain(ups: Seq<Upgrade>, p: Seq<int>) -> bool {
    &&& p.len() >= 1
    &&& forall|i: int| 0 <= i < p.len() ==> 0 <= #[trigger] p[i] < ups.len()
    &&& forall|i: int| 0 <= i < p.len() - 1 ==> #[trigger] requires_edge(ups, p[i], p[i + 1])
}

/// Upgrade `u` requires itself through a chain of one or more requirements.
pub open spec fn requires_itself(ups: Seq<Upgrade>, u: int) -> bool {
    exists|p: Seq<int>| #[trigger] is_requires_chain(ups, p) && p.len() >= 2 && p[0] == u && p[p.len() - 1] == u
}

/// `e` is a rule that content `c` breaks.
pub open spec fn violation(c: &Content, e: ContentError) -> bool {
    match e {
        ContentError::MissingUpgrade { weapon, upgrade } => {
            &&& weapon < c.weapons@.len()
            &&& upgrade < c.weapons@[weapon as int].upgrades@.len()
            &&& !holds_id(c.upgrades@, c.weapons@[weapon as int].upgrades@[upgrade as int]@)
        },
        ContentError::MissingRequirement { upgrade, requirement } => {
            &&& upgrade < c.upgrades@.len()
            &&& requirement < c.upgrades@[upgrade as int].requires@.len()
            &&& !holds_id(c.upgrades@, c.upgrades@[upgrade as int].requires@[requirement as int]@)
        },
        ContentError::MissingWeapon { upgrade } => {
            &&& upgrade < c.upgrades@.len()
            &&& c.upgrades@[upgrade as int].weapon is Some
            &&& !holds_id(c.weapons@, c.upgrades@[upgrade as int].weapon->0@)
        },
        ContentError::CyclicUpgrade { upgrade } => {
            &&& upgrade < c.upgrades@.len()
            &&& requires_itself(c.upgrades@, upgrade as int)
        },
        ContentError::ShortPath { map } => {
            &&& map < c.maps@.len()
            &&& c.maps@[map as int].path@.len() < 2
        },
        ContentError::MissingRace { map, round, group } => {
            &&& map < c.maps@.len()
            &&& round < c.maps@[map as int].wave_schedule@.len()
            &&& group < c.maps@[map as int].wave_schedule@[round as int].orcs@.len()
            &&& !holds_id(c.races@, c.maps@[map as int].wave_schedule@[round as int].orcs@[group as int].race@)
        },
        ContentError::MissingTowerWeapon { map, tower } => {
            &&& map < c.maps@.len()
            &&& tower < c.maps@[map as int].starting_towers@.len()
            &&& !holds_id(c.weapons@, c.maps@[map as int].starting_towers@[tower as int].weapon@)
        },
    }
}

/// The place of an error in the order in which the rules are checked: weapons' upgrade
/// lists first, then each upgrade's requirements and weapon, then requirement cycles,
/// then each map's route, wave races and starting towers.
pub open spec fn error_rank(e: ContentError) -> (int, int, int, int, int) {
    match e {
        ContentError::MissingUpgrade { weapon, upgrade } => (0, weapon as int, upgrade as int, 0, 0),
        ContentError::MissingRequirement { upgrade, requirement } => (1, upgrade as int, 0, requirement as int, 0),
        ContentError::MissingWeapon { upgrade } => (1, upgrade as int, 1, 0, 0),
        ContentError::CyclicUpgrade { upgrade } => (2, upgrade as int, 0, 0, 0),
        ContentError::ShortPath { map } => (3, map as int, 0, 0, 0),
        ContentError::MissingRace { map, round, group } => (3, map as int, 1, round as int, group as int),
        ContentError::MissingTowerWeapon { map, tower } => (3, map as int, 2, tower as int, 0),
    }
}

/// Lexicographic order of ranks.
pub open spec fn rank_lt(a: (int, int, int, int, int), b: (int, int, int, int, int)) -> bool {
    ||| a.0 < b.0
    ||| a.0 == b.0 && a.1 < b.1
    ||| a.0 == b.0 && a.1 == b.1 && a.2 < b.2
    ||| a.0 == b.0 && a.1 == b.1 && a.2 == b.2 && a.3 < b.3
    ||| a.0 == b.0 && a.1 == b.1 && a.2 == b.2 && a.3 == b.3 && a.4 < b.4
}

/// `e` is the first rule, in checking order, that content `c` breaks.
pub open spec fn first_violation(c: &Content, e: ContentError) -> bool {
    &&& violation(c, e)
    &&& forall|e2: ContentError| #[trigger] violation(c, e2) ==> !rank_lt(error_rank(e2), error_rank(e))
}

/// No rule of the given phase is broken.
pub open spec fn phase_clean(c: &Content, phase: int) -> bool {
    forall|e: ContentError| error_rank(e).0 == phase ==> !#[trigger] violation(c, e)
}

/// `e` is the first broken rule of its phase.
pub open spec fn first_in_phase(c: &Content, e: ContentError) -> bool {
    &&& violation(c, e)
    &&& forall|e2: ContentError|
        #[trigger] violation(c, e2) && error_rank(e2).0 == error_rank(e).0 ==> !rank_lt(error_rank(e2), error_rank(e))
}

fn check_weapon_upgrades(c: &Content) -> (r: Result<(), ContentError>)
    ensures
        r is Ok <==> phase_clean(c, 0),
        r matches Err(e) ==> error_rank(e).0 == 0 && first_in_phase(c, e),
{
    for w in 0..c.weapons.len()
        invariant
            forall|e: ContentError|
                #![trigger violation(c, e)]
                error_rank(e).0 == 0 && violation(c, e) ==> error_rank(e).1 >= w,
    {
        let ups = &c.weapons[w].upgrades;
        for u in 0..ups.len()
            invariant
                0 <= w < c.weapons@.len(),
                ups == c.weapons@[w as int].upgrades,
                forall|e: ContentError|
                    #![trigger violation(c, e)]
                    error_rank(e).0 == 0 && violation(c, e) ==> error_rank(e).1 > w || (error_rank(e).1 == w
                        && error_rank(e).2 >= u),
        {
            if position_of_id(&c.upgrades, &ups[u]).is_none() {
                let e = ContentError::MissingUpgrade { weapon: w, upgrade: u };
                assert(violation(c, e));
                return Err(e);
            }
        }
    }
    Ok(())
}

fn check_upgrade_links(c: &Content) -> (r: Result<(), ContentError>)
    ensures
        r is Ok <==> phase_clean(c, 1),
        r matches Err(e) ==> error_rank(e).0 == 1 && first_in_phase(c, e),
{
    for u in 0..c.upgrades.len()
        invariant
            forall|e: ContentError|
                #![trigger violation(c, e)]
                error_rank(e).0 == 1 && violation(c, e) ==> error_rank(e).1 >= u,
    {
        let reqs = &c.upgrades[u].requires;
        for q in 0..reqs.len()
            invariant
                0 <= u < c.upgrades@.len(),
                reqs == c.upgrades@[u as int].requires,
                forall|e: ContentError|
                    #![trigger violation(c, e)]
                    error_rank(e).0 == 1 && violation(c, e) ==> error_rank(e).1 > u || (error_rank(e).1 == u
                        && (error_rank(e).2 > 0 || error_rank(e).3 >= q)),
        {
            if position_of_id(&c.upgrades, &reqs[q]).is_none() {
                let e = ContentError::MissingRequirement { upgrade: u, requirement: q };
                assert(violation(c, e));
                return Err(e);
            }
        }
        match &c.upgrades[u].weapon {
            Some(wid) => {
                if position_of_id(&c.weapons, wid).is_none() {
                    let e = ContentError::MissingWeapon { upgrade: u };
                    assert(violation(c, e));
                    return Err(e);
                }
            },
            None => {},
        }
    }
    Ok(())
}

/// The requirement graph of the upgrades as an adjacency matrix.
fn requirement_matrix(ups: &Vec<Upgrade>) -> (adj: Vec<Vec<bool>>)
    ensures
        is_square(adj@, ups@.len() as int),
        forall|u: int, v: int|
            0 <= u < ups@.len() && 0 <= v < ups@.len() ==> (#[trigger] has_edge(adj@, u, v) <==> requires_edge(ups@, u, v)),
{
    let n = ups.len();
    let mut adj: Vec<Vec<bool>> = Vec::new();
    for u in 0..n
        invariant
            n == ups@.len(),
            adj@.len() == u,
            forall|x: int| 0 <= x < u ==> (#[trigger] adj@[x])@.len() == n,
            forall|x: int, v: int|
                0 <= x < u && 0 <= v < n ==> (#[trigger] has_edge(adj@, x, v) <==> requires_edge(ups@, x, v)),
    {
        let mut row: Vec<bool> = Vec::new();
        let reqs = &ups[u].requires;
        for v in 0..n
            invariant
                n == ups@.len(),
                u < n,
                reqs == ups@[u as int].requires,
                row@.len() == v,
                forall|y: int| 0 <= y < v ==> (#[trigger] row@[y] <==> requires_edge(ups@, u as int, y)),
        {
            let mut found = false;
            for q in 0..reqs.len()
                invariant
                    n == ups@.len(),
                    u < n,
                    v < n,
                    reqs == ups@[u as int].requires,
                    found <==> exists|r: int| 0 <= r < q && #[trigger] reqs@[r]@ == ups@[v as int].id@,
            {
                if reqs[q] == ups[v].id {
                    found = true;
                }
            }
            row.push(found);
        }
        let ghost adj0 = adj@;
        adj.push(row);
        proof {
            assert forall|x: int, v: int| 0 <= x <= u && 0 <= v < n implies (#[trigger] has_edge(adj@, x, v)
                <==> requires_edge(ups@, x, v)) by {
                if x < u {
                    assert(has_edge(adj0, x, v) <==> requires_edge(ups@, x, v));
                    assert(adj@[x] == adj0[x]);
                } else {
                    assert(adj@[x]@ == row@);
                    assert(row@[v] <==> requires_edge(ups@, u as int, v));
                }
            }
        }
    }
    adj
}

fn check_upgrade_cycles(c: &Content) -> (r: Result<(), ContentError>)
    ensures
        r is Ok <==> phase_clean(c, 2),
        r matches Err(e) ==> error_rank(e).0 == 2 && first_in_phase(c, e),
{
    let adj = requirement_matrix(&c.upgrades);
    let ghost ups = c.upgrades@;
    // walks in the matrix are exactly requirement chains
    assert forall|p: Seq<int>| #[trigger] is_requires_chain(ups, p) <==> crate::graph::is_walk(adj@, p) by {
        if is_requires_chain(ups, p) {
            assert forall|i: int| 0 <= i < p.len() - 1 implies #[trigger] has_edge(adj@, p[i], p[i + 1]) by {
                assert(requires_edge(ups, p[i], p[i + 1]));
            }
        }
        if crate::graph::is_walk(adj@, p) {
            assert forall|i: int| 0 <= i < p.len() - 1 implies #[trigger] requires_edge(ups, p[i], p[i + 1]) by {
                assert(has_edge(adj@, p[i], p[i + 1]));
            }
        }
    }
    for u in 0..c.upgrades.len()
        invariant
            ups == c.upgrades@,
            is_square(adj@, ups.len() as int),
            forall|p: Seq<int>| #[trigger] is_requires_chain(ups, p) <==> crate::graph::is_walk(adj@, p),
            forall|x: int| 0 <= x < u ==> !#[trigger] requires_itself(ups, x),
    {
        if reaches_itself(&adj, u) {
            let e = ContentError::CyclicUpgrade { upgrade: u };
            proof {
                let p = choose|p: Seq<int>| #[trigger] crate::graph::is_walk(adj@, p) && p.len() >= 2 && p[0] == u as int
                    && p[p.len() - 1] == u as int;
                assert(is_requires_chain(ups, p));
                assert(violation(c, e));
            }
            return Err(e);
        }
        proof {
            if requires_itself(ups, u as int) {
                let p = choose|p: Seq<int>| #[trigger] is_requires_chain(ups, p) && p.len() >= 2 && p[0] == u as int
                    && p[p.len() - 1] == u as int;
                assert(crate::graph::is_walk(adj@, p));
                assert(reaches(adj@, u as int, u as int));
            }
        }
    }
    Ok(())
}

fn check_maps(c: &Content) -> (r: Result<(), ContentError>)
    ensures
        r is Ok <==> phase_clean(c, 3),
        r matches Err(e) ==> error_rank(e).0 == 3 && first_in_phase(c, e),
{
    for m in 0..c.maps.len()
        invariant
            forall|e: ContentError|
                #![trigger violation(c, e)]
                error_rank(e).0 == 3 && violation(c, e) ==> error_rank(e).1 >= m,
    {
        let map = &c.maps[m];
        if map.path.len() < 2 {
            let e = ContentError::ShortPath { map: m };
            assert(violation(c, e));
            return Err(e);
        }
        let schedule = &map.wave_schedule;
        for r in 0..schedule.len()
            invariant
                0 <= m < c.maps@.len(),
                *map == c.maps@[m as int],
                schedule == map.wave_schedule,
                map.path@.len() >= 2,
                forall|e: ContentError|
                    #![trigger violation(c, e)]
                    error_rank(e).0 == 3 && violation(c, e) ==> error_rank(e).1 > m || (error_rank(e).1 == m && (
                    error_rank(e).2 > 1 || (error_rank(e).2 == 1 && error_rank(e).3 >= r))),
        {
            let groups = &schedule[r].orcs;
            for g in 0..groups.len()
                invariant
                    0 <= m < c.maps@.len(),
                    *map == c.maps@[m as int],
                    schedule == map.wave_schedule,
                    0 <= r < schedule@.len(),
                    groups == schedule@[r as int].orcs,
                    map.path@.len() >= 2,
                    forall|e: ContentError|
                        #![trigger violation(c, e)]
                        error_rank(e).0 == 3 && violation(c, e) ==> error_rank(e).1 > m || (error_rank(e).1 == m && (
                        error_rank(e).2 > 1 || (error_rank(e).2 == 1 && (error_rank(e).3 > r || (error_rank(e).3 == r
                            && error_rank(e).4 >= g))))),
            {
                if position_of_id(&c.races, &groups[g].race).is_none() {
                    let e = ContentError::MissingRace { map: m, round: r, group: g };
                    assert(violation(c, e));
                    return Err(e);
                }
            }
        }
        let towers = &map.starting_towers;
        for t in 0..towers.len()
            invariant
                0 <= m < c.maps@.len(),
                *map == c.maps@[m as int],
                towers == map.starting_towers,
                map.path@.len() >= 2,
                forall|e: ContentError|
                    #![trigger violation(c, e)]
                    error_rank(e).0 == 3 && violation(c, e) ==> error_rank(e).1 > m || (error_rank(e).1 == m && (
                    error_rank(e).2 > 2 || (error_rank(e).2 == 2 && error_rank(e).3 >= t))),
        {
            if position_of_id(&c.weapons, &towers[t].weapon).is_none() {
                let e = ContentError::MissingTowerWeapon { map: m, tower: t };
                assert(violation(c, e));
                return Err(e);
            }
        }
    }
    Ok(())
}

/// Check every cross reference of a loaded mod: each weapon's upgrades, each upgrade's
/// requirements and weapon, that no upgrade requires itself, and each map's route, wave
/// races and starting towers. The error is the first broken rule in that order.
pub fn validate_content(c: &Content) -> (r: Result<(), ContentError>)
    ensures
        r is Ok <==> forall|e: ContentError| !#[trigger] violation(c, e),
        r matches Err(e) ==> first_violation(c, e),
{
    check_weapon_upgrades(c)?;
    check_upgrade_links(c)?;
    check_upgrade_cycles(c)?;
    check_maps(c)?;
    Ok(())
}

/// A route needs two points: a map whose route has at least two is never refused for
/// it, and a map whose route has fewer always is.
pub proof fn law_route_needs_two_points(c: &Content, m: usize)
    requires
        m < c.maps@.len(),
    ensures
        c.maps@[m as int].path@.len() >= 2 ==> !violation(c, ContentError::ShortPath { map: m }),
        c.maps@[m as int].path@.len() < 2 ==> violation(c, ContentError::ShortPath { map: m }),
{
}

/// A mod whose checks pass has no map with a route of fewer than two points.
pub proof fn law_valid_routes_have_two_points(c: &Content, m: usize)
    requires
        m < c.maps@.len(),
        forall|e: ContentError| !#[trigger] violation(c, e),
    ensures
        c.maps@[m as int].path@.len() >= 2,
{
    assert(!violation(c, ContentError::ShortPath { map: m }));
}

} // verus!
