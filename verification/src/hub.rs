//! The hub between battles: the game's phases and the economy of weapon unlocks
//! (paid in orbs) and upgrade ranks (paid in cubes).
use vstd::prelude::*;

use crate::battle::BattleOutcome;
use crate::content::{Upgrade, Weapon};

verus! {

/// The screen the game is on.
#[derive(Debug, Clone, Copy, PartialEq, Eq, Structural)]
pub enum Phase {
    Splash,
    Hub,
    Build,
    Battle,
}

/// Which screen is up.
#[derive(Debug)]
pub struct GameState {
    pub phase: Phase,
}

impl Default for GameState {
    fn default() -> (s: GameState)
        ensures
            s.phase == Phase::Splash,
    {
        GameState { phase: Phase::Splash }
    }
}

impl GameState {
    /// Leave the splash screen, once: from the splash, straight into the battle when the
    /// game plays itself and to the hub otherwise; any other phase is left as it is.
    /// Returns whether the hand-off happened (and the splash is to be torn down).
    pub fn dismiss_splash(&mut self, autoplay: bool) -> (handed_off: bool)
        ensures
            handed_off == (old(self).phase == Phase::Splash),
            final(self).phase == if handed_off {
                if autoplay { Phase::Battle } else { Phase::Hub }
            } else {
                old(self).phase
            },
    {
        if self.phase == Phase::Splash {
            self.phase = if autoplay { Phase::Battle } else { Phase::Hub };
            true
        } else {
            false
        }
    }

    /// The play button starts the battle.
    pub fn press_play(&mut self)
        ensures
            final(self).phase == Phase::Battle,
    {
        self.phase = Phase::Battle;
    }

    /// Once the battle has an outcome, the game goes back to the hub; returns whether it did.
    pub fn finish_battle(&mut self, outcome: Option<BattleOutcome>) -> (back: bool)
        ensures
            back == (outcome is Some && old(self).phase == Phase::Battle),
            final(self).phase == if back { Phase::Hub } else { old(self).phase },
    {
        if outcome.is_some() && self.phase == Phase::Battle {
            self.phase = Phase::Hub;
            true
        } else {
            false
        }
    }
}

/// Whether the battle is running.
pub fn battle_started(state: &GameState) -> (r: bool)
    ensures
        r == (state.phase == Phase::Battle),
{
    state.phase == Phase::Battle
}

/// Entry `i` is the first entry of `entries` keyed `id`.
pub open spec fn first_entry(entries: Seq<(String, u32)>, id: Seq<char>, i: int) -> bool {
    &&& 0 <= i < entries.len()
    &&& entries[i].0@ == id
    &&& forall|j: int| 0 <= j < i ==> #[trigger] entries[j].0@ != id
}

/// Some entry of `entries` is keyed `id`.
pub open spec fn has_entry(entries: Seq<(String, u32)>, id: Seq<char>) -> bool {
    exists|i: int| 0 <= i < entries.len() && #[trigger] entries[i].0@ == id
}

/// The value of the first entry keyed `id`.
pub open spec fn entry_value(entries: Seq<(String, u32)>, id: Seq<char>) -> Option<u32> {
    if has_entry(entries, id) {
        Some(entries[choose|i: int| first_entry(entries, id, i)].1)
    } else {
        None
    }
}

proof fn lemma_first_entry(entries: Seq<(String, u32)>, id: Seq<char>, i: int)
    requires
        first_entry(entries, id, i),
    ensures
        entry_value(entries, id) == Some(entries[i].1),
{
    assert(has_entry(entries, id));
    let k = choose|k: int| first_entry(entries, id, k);
    if k < i {
        assert(entries[k].0@ != id);
    } else if i < k {
        assert(entries[i].0@ != id);
    }
}

fn find_entry(entries: &Vec<(String, u32)>, id: &String) -> (r: Option<usize>)
    ensures
        r is None <==> !has_entry(entries@, id@),
        r matches Some(i) ==> first_entry(entries@, id@, i as int) && entry_value(entries@, id@) == Some(
            entries@[i as int].1,
        ),
{
    for i in 0..entries.len()
        invariant
            forall|j: int| 0 <= j < i ==> #[trigger] entries@[j].0@ != id@,
    {
        if entries[i].0 == *id {
            proof {
                lemma_first_entry(entries@, id@, i as int);
            }
            return Some(i);
        }
    }
    None
}

/// How a weapon card shows in the hub.
#[derive(Debug, Clone, Copy, PartialEq, Eq, Structural)]
pub enum CardState {
    Owned,
    Affordable,
    Locked,
}

/// The player's currencies and what they bought.
#[derive(Debug)]
pub struct Economy {
    pub orbs: u32,
    pub cubes: u32,
    pub owned_weapons: Vec<String>,
    /// Unlock price in orbs of each weapon.
    pub weapon_prices: Vec<(String, u32)>,
    /// Rank reached by each upgrade bought at least once.
    pub upgrade_ranks: Vec<(String, u32)>,
}

/// `id` is among `names`.
pub open spec fn names_hold(names: Seq<String>, id: Seq<char>) -> bool {
    exists|i: int| 0 <= i < names.len() && #[trigger] names[i]@ == id
}

/// A weapon is bought once: after `buy_weapon` adds `id` to the owned weapons, `id` is
/// owned, so every later purchase of it is refused and its card shows as owned.
pub proof fn law_bought_weapon_owned(owned: Seq<String>, id: String)
    ensures
        names_hold(owned.push(id), id@),
{
    assert(owned.push(id)[owned.len() as int] == id);
}

fn names_contain(names: &Vec<String>, id: &String) -> (r: bool)
    ensures
        r == names_hold(names@, id@),
{
    for i in 0..names.len()
        invariant
            forall|j: int| 0 <= j < i ==> #[trigger] names@[j]@ != id@,
    {
        if names[i] == *id {
            return true;
        }
    }
    false
}

impl Economy {
    /// An empty purse, with every weapon priced at its unlock cost in orbs.
    pub fn new(weapons: &Vec<Weapon>) -> (e: Economy)
        ensures
            e.orbs == 0,
            e.cubes == 0,
            e.owned_weapons@.len() == 0,
            e.upgrade_ranks@.len() == 0,
            e.weapon_prices@.len() == weapons@.len(),
            forall|i: int| 0 <= i < weapons@.len() ==> (#[trigger] e.weapon_prices@[i]).0@ == weapons@[i].id@
                && e.weapon_prices@[i].1 == weapons@[i].cost_orbs,
    {
        let mut prices: Vec<(String, u32)> = Vec::new();
        for i in 0..weapons.len()
            invariant
                prices@.len() == i,
                forall|k: int| 0 <= k < i ==> (#[trigger] prices@[k]).0@ == weapons@[k].id@ && prices@[k].1
                    == weapons@[k].cost_orbs,
        {
            prices.push((weapons[i].id.clone(), weapons[i].cost_orbs));
        }
        Economy { orbs: 0, cubes: 0, owned_weapons: Vec::new(), weapon_prices: prices, upgrade_ranks: Vec::new() }
    }

    /// The starting grant: an empty purse gets one orb, so that a first weapon can be unlocked.
    pub fn seed(&mut self)
        ensures
            final(self).orbs == if old(self).orbs == 0 { 1 } else { old(self).orbs },
            final(self).cubes == old(self).cubes,
            final(self).owned_weapons == old(self).owned_weapons,
            final(self).weapon_prices == old(self).weapon_prices,
            final(self).upgrade_ranks == old(self).upgrade_ranks,
    {
        if self.orbs == 0 {
            self.orbs = 1;
        }
    }

    /// The orbs that weapon `id` costs; a weapon without a price cannot be paid for
    /// short of the largest possible purse.
    pub open spec fn price(&self, id: Seq<char>) -> u32 {
        match entry_value(self.weapon_prices@, id) {
            Some(p) => p,
            None => u32::MAX,
        }
    }

    /// Unlock weapon `id`: a weapon not owned yet is bought when the orbs cover its price.
    /// Returns whether it was bought.
    pub fn buy_weapon(&mut self, id: &String) -> (bought: bool)
        ensures
            bought == (!names_hold(old(self).owned_weapons@, id@) && old(self).orbs >= old(self).price(id@)),
            final(self).orbs == if bought { old(self).orbs - old(self).price(id@) } else { old(self).orbs as int },
            final(self).owned_weapons@ == if bought { old(self).owned_weapons@.push(*id) } else { old(self).owned_weapons@ },
            final(self).cubes == old(self).cubes,
            final(self).weapon_prices == old(self).weapon_prices,
            final(self).upgrade_ranks == old(self).upgrade_ranks,
    {
        if names_contain(&self.owned_weapons, id) {
            return false;
        }
        let cost = match find_entry(&self.weapon_prices, id) {
            Some(i) => self.weapon_prices[i].1,
            None => u32::MAX,
        };
        if self.orbs >= cost {
            self.orbs = self.orbs - cost;
            self.owned_weapons.push(id.clone());
            true
        } else {
            false
        }
    }

    /// The rank that upgrade `id` has reached: 0 for one never bought.
    pub open spec fn rank(&self, id: Seq<char>) -> u32 {
        match entry_value(self.upgrade_ranks@, id) {
            Some(r) => r,
            None => 0,
        }
    }

    /// Rank up upgrade-tree node `node` by one: while its rank is below its `rank_max`
    /// and the cubes cover its price per rank, that price is paid and the rank goes up.
    /// Returns whether the rank went up.
    pub fn rank_upgrade(&mut self, node: &Upgrade) -> (ranked: bool)
        ensures
            ranked == (old(self).rank(node.id@) < node.rank_max && old(self).cubes >= node.cost.cubes),
            final(self).cubes == if ranked { old(self).cubes - node.cost.cubes } else { old(self).cubes as int },
            !ranked ==> final(self).upgrade_ranks == old(self).upgrade_ranks,
            ranked ==> final(self).rank(node.id@) == old(self).rank(node.id@) + 1,
            ranked ==> match entry_value(old(self).upgrade_ranks@, node.id@) {
                Some(_) => exists|i: int|
                    #[trigger] first_entry(old(self).upgrade_ranks@, node.id@, i) && final(self).upgrade_ranks@
                        == old(self).upgrade_ranks@.update(i, (old(self).upgrade_ranks@[i].0, (old(self).upgrade_ranks@[i].1 + 1) as u32)),
                None => final(self).upgrade_ranks@ == old(self).upgrade_ranks@.push((node.id, 1u32)),
            },
            final(self).orbs == old(self).orbs,
            final(self).owned_weapons == old(self).owned_weapons,
            final(self).weapon_prices == old(self).weapon_prices,
    {
        let id = &node.id;
        let found = find_entry(&self.upgrade_ranks, id);
        let rank = match found {
            Some(i) => self.upgrade_ranks[i].1,
            None => 0,
        };
        if !(rank < node.rank_max && self.cubes >= node.cost.cubes) {
            return false;
        }
        self.cubes = self.cubes - node.cost.cubes;
        let ghost old_ranks = self.upgrade_ranks@;
        match found {
            Some(i) => {
                let name = self.upgrade_ranks[i].0.clone();
                self.upgrade_ranks.set(i, (name, rank + 1));
                proof {
                    assert(first_entry(self.upgrade_ranks@, id@, i as int)) by {
                        assert forall|j: int| 0 <= j < i implies #[trigger] self.upgrade_ranks@[j].0@ != id@ by {
                            assert(old_ranks[j].0@ != id@);
                        }
                    }
                    lemma_first_entry(self.upgrade_ranks@, id@, i as int);
                    assert(first_entry(old_ranks, id@, i as int));
                }
            },
            None => {
                self.upgrade_ranks.push((id.clone(), 1));
                proof {
                    let n = old_ranks.len() as int;
                    assert(first_entry(self.upgrade_ranks@, id@, n)) by {
                        assert forall|j: int| 0 <= j < n implies #[trigger] self.upgrade_ranks@[j].0@ != id@ by {
                            assert(old_ranks[j] == self.upgrade_ranks@[j]);
                            if old_ranks[j].0@ == id@ {
                                assert(has_entry(old_ranks, id@));
                            }
                        }
                    }
                    lemma_first_entry(self.upgrade_ranks@, id@, n);
                }
            },
        }
        true
    }

    /// How the card of weapon `id` shows: owned, affordable with the orbs at hand (a
    /// weapon with a price only), or locked.
    pub fn card_state(&self, id: &String) -> (s: CardState)
        ensures
            s == if names_hold(self.owned_weapons@, id@) {
                CardState::Owned
            } else if entry_value(self.weapon_prices@, id@) matches Some(p) && self.orbs >= p {
                CardState::Affordable
            } else {
                CardState::Locked
            },
    {
        if names_contain(&self.owned_weapons, id) {
            return CardState::Owned;
        }
        match find_entry(&self.weapon_prices, id) {
            Some(i) => {
                if self.orbs >= self.weapon_prices[i].1 {
                    CardState::Affordable
                } else {
                    CardState::Locked
                }
            },
            None => CardState::Locked,
        }
    }
}

/// `order` lists each of the positions `0..n` once, in the order that `before` sets.
pub open spec fn lists_in_order(n: int, order: Seq<usize>, before: spec_fn(int, int) -> bool) -> bool {
    &&& order.len() == n
    &&& forall|t: int| 0 <= t < order.len() ==> #[trigger] order[t] < n
    &&& forall|i: int| 0 <= i < n ==> #[trigger] order.contains(i as usize)
    &&& forall|t: int, u: int| 0 <= t < u < order.len() ==> before(#[trigger] order[t] as int, #[trigger] order[u] as int)
}

/// `before` orders the positions `0..n` strictly and totally.
pub open spec fn strict_total(n: int, before: spec_fn(int, int) -> bool) -> bool {
    &&& forall|a: int| 0 <= a < n ==> !#[trigger] before(a, a)
    &&& forall|a: int, b: int| 0 <= a < n && 0 <= b < n && a != b ==> #[trigger] before(a, b) || #[trigger] before(b, a)
    &&& forall|a: int, b: int, c: int|
        0 <= a < n && 0 <= b < n && 0 <= c < n && #[trigger] before(a, b) && #[trigger] before(b, c) ==> before(a, c)
}

/// Inserting `i` right after the entries that come before it keeps a listing in order.
proof fn lemma_insert_in_order(n: int, order: Seq<usize>, i: int, p: int, before: spec_fn(int, int) -> bool)
    requires
        strict_total(n, before),
        0 <= i < n,
        i <= usize::MAX,
        0 <= p <= order.len(),
        forall|t: int| 0 <= t < order.len() ==> #[trigger] order[t] < i,
        forall|t: int, u: int| 0 <= t < u < order.len() ==> before(#[trigger] order[t] as int, #[trigger] order[u] as int),
        forall|t: int| 0 <= t < p ==> before(#[trigger] order[t] as int, i),
        forall|t: int| p <= t < order.len() ==> !before(#[trigger] order[t] as int, i),
    ensures
        forall|t: int, u: int|
            0 <= t < u < order.len() + 1 ==> before(
                #[trigger] order.insert(p, i as usize)[t] as int,
                #[trigger] order.insert(p, i as usize)[u] as int,
            ),
{
    let o2 = order.insert(p, i as usize);
    order.insert_ensures(p, i as usize);
    assert forall|t: int, u: int| 0 <= t < u < order.len() + 1 implies before(#[trigger] o2[t] as int, #[trigger] o2[u] as int) by {
        if t < p {
            assert(o2[t] == order[t]);
        } else if t > p {
            assert(o2[(t - 1) + 1] == order[t - 1]);
        }
        if u < p {
            assert(o2[u] == order[u]);
        } else if u > p {
            assert(o2[(u - 1) + 1] == order[u - 1]);
        }
        if u < p {
            assert(before(order[t] as int, order[u] as int));
        } else if u == p {
            assert(before(order[t] as int, i));
        } else if t < p {
            assert(before(order[t] as int, i));
            assert(order[u - 1] != i);
            assert(!before(order[u - 1] as int, i));
            assert(before(i, order[u - 1] as int));
        } else if t == p {
            assert(order[u - 1] != i);
            assert(!before(order[u - 1] as int, i));
        } else {
            assert(before(order[t - 1] as int, order[u - 1] as int));
        }
    }
}

/// Weapon `a` is listed before weapon `b`: it is cheaper, or as cheap and earlier in file order.
pub open spec fn cheaper_first(weapons: Seq<Weapon>, a: int, b: int) -> bool {
    weapons[a].cost_orbs < weapons[b].cost_orbs || (weapons[a].cost_orbs == weapons[b].cost_orbs && a < b)
}

/// The weapons of the hub, cheapest first, weapons of equal cost in file order.
pub fn weapons_by_cost(weapons: &Vec<Weapon>) -> (order: Vec<usize>)
    ensures
        lists_in_order(weapons@.len() as int, order@, |a: int, b: int| cheaper_first(weapons@, a, b)),
{
    let ghost ws = weapons@;
    let ghost before = |a: int, b: int| cheaper_first(ws, a, b);
    let n = weapons.len();
    let mut order: Vec<usize> = Vec::new();
    assert(strict_total(n as int, before));
    for i in 0..n
        invariant
            n == ws.len(),
            ws == weapons@,
            before == (|a: int, b: int| cheaper_first(ws, a, b)),
            strict_total(n as int, before),
            order@.len() == i,
            forall|t: int| 0 <= t < order@.len() ==> #[trigger] order@[t] < i,
            forall|k: int| 0 <= k < i ==> #[trigger] order@.contains(k as usize),
            forall|t: int, u: int| 0 <= t < u < order@.len() ==> before(#[trigger] order@[t] as int, #[trigger] order@[u] as int),
    {
        let cost = weapons[i].cost_orbs;
        let mut p: usize = 0;
        while p < order.len() && (weapons[order[p]].cost_orbs < cost || (weapons[order[p]].cost_orbs == cost && order[p] < i))
            invariant
                n == ws.len(),
                ws == weapons@,
                i < n,
                cost == ws[i as int].cost_orbs,
                p <= order@.len(),
                forall|t: int| 0 <= t < order@.len() ==> #[trigger] order@[t] < i,
                forall|t: int| 0 <= t < p ==> before(#[trigger] order@[t] as int, i as int),
                before == (|a: int, b: int| cheaper_first(ws, a, b)),
            decreases order@.len() - p,
        {
            p = p + 1;
        }
        proof {
            assert forall|t: int| p <= t < order@.len() implies !before(#[trigger] order@[t] as int, i as int) by {
                if before(order@[t] as int, i as int) {
                    assert(!before(order@[p as int] as int, i as int));
                    if p < t {
                        assert(before(order@[p as int] as int, order@[t] as int));
                    }
                }
            }
            lemma_insert_in_order(n as int, order@, i as int, p as int, before);
        }
        let ghost o0 = order@;
        order.insert(p, i);
        proof {
            o0.insert_ensures(p as int, i);
            assert forall|k: int| 0 <= k <= i implies #[trigger] order@.contains(k as usize) by {
                if k == i {
                    assert(order@[p as int] == i);
                } else {
                    assert(o0.contains(k as usize));
                    let t = choose|t: int| 0 <= t < o0.len() && o0[t] == k as usize;
                    if t < p {
                        assert(order@[t] == k as usize);
                    } else {
                        assert(order@[t + 1] == k as usize);
                    }
                }
            }
        }
    }
    order
}

/// Text order: `a` sorts before `b`, comparing character by character, a proper prefix first.
/// (For `String`s this is the order of their UTF-8 bytes.)
pub open spec fn text_lt(a: Seq<char>, b: Seq<char>) -> bool
    decreases a.len(),
{
    if a.len() == 0 {
        b.len() > 0
    } else if b.len() == 0 {
        false
    } else if a[0] != b[0] {
        (a[0] as u32) < (b[0] as u32)
    } else {
        text_lt(a.drop_first(), b.drop_first())
    }
}

proof fn lemma_text_irreflexive(a: Seq<char>)
    ensures
        !text_lt(a, a),
    decreases a.len(),
{
    if a.len() > 0 {
        lemma_text_irreflexive(a.drop_first());
    }
}

proof fn lemma_text_total(a: Seq<char>, b: Seq<char>)
    ensures
        a != b ==> text_lt(a, b) || text_lt(b, a),
    decreases a.len(),
{
    if a.len() > 0 && b.len() > 0 {
        if a[0] == b[0] {
            lemma_text_total(a.drop_first(), b.drop_first());
            if a != b {
                assert(a.drop_first() != b.drop_first()) by {
                    if a.drop_first() == b.drop_first() {
                        assert(a =~= seq![a[0]] + a.drop_first());
                        assert(b =~= seq![b[0]] + b.drop_first());
                    }
                }
            }
        } else {
            vstd::utf8::char_u32_cast(a[0], a[0] as u32);
            vstd::utf8::char_u32_cast(b[0], b[0] as u32);
            assert((a[0] as u32) != (b[0] as u32));
        }
    } else if a.len() == 0 && b.len() == 0 {
        assert(a =~= b);
    }
}

proof fn lemma_text_transitive(a: Seq<char>, b: Seq<char>, c: Seq<char>)
    ensures
        text_lt(a, b) && text_lt(b, c) ==> text_lt(a, c),
    decreases a.len(),
{
    if a.len() > 0 && b.len() > 0 && c.len() > 0 {
        lemma_text_transitive(a.drop_first(), b.drop_first(), c.drop_first());
    }
}

proof fn lemma_text_order(a: Seq<char>, b: Seq<char>, c: Seq<char>)
    ensures
        !text_lt(a, a),
        a != b ==> text_lt(a, b) || text_lt(b, a),
        text_lt(a, b) && text_lt(b, c) ==> text_lt(a, c),
{
    lemma_text_irreflexive(a);
    lemma_text_total(a, b);
    lemma_text_transitive(a, b, c);
}

/// Whether text `a` sorts before text `b`.
pub fn text_less(a: &String, b: &String) -> (r: bool)
    ensures
        r == text_lt(a@, b@),
{
    let sa = a.as_str();
    let sb = b.as_str();
    let la = sa.unicode_len();
    let lb = sb.unicode_len();
    let m = if la < lb { la } else { lb };
    assert(a@.skip(0) =~= a@);
    assert(b@.skip(0) =~= b@);
    for i in 0..m
        invariant
            la == a@.len(),
            lb == b@.len(),
            sa@ == a@,
            sb@ == b@,
            m <= la && m <= lb,
            text_lt(a@, b@) == text_lt(a@.skip(i as int), b@.skip(i as int)),
    {
        let ca = sa.get_char(i);
        let cb = sb.get_char(i);
        assert(a@.skip(i as int)[0] == ca && b@.skip(i as int)[0] == cb);
        if ca != cb {
            return (ca as u32) < (cb as u32);
        }
        assert(a@.skip(i as int).drop_first() =~= a@.skip(i + 1));
        assert(b@.skip(i as int).drop_first() =~= b@.skip(i + 1));
    }
    la < lb
}

/// Upgrade `a` is listed before upgrade `b`: its id sorts first, or the ids are equal and
/// it comes first in file order.
pub open spec fn id_first(upgrades: Seq<Upgrade>, a: int, b: int) -> bool {
    text_lt(upgrades[a].id@, upgrades[b].id@) || (upgrades[a].id@ == upgrades[b].id@ && a < b)
}

/// The upgrades of the hub, in the order of their ids, upgrades with equal ids in file order.
pub fn upgrades_by_id(upgrades: &Vec<Upgrade>) -> (order: Vec<usize>)
    ensures
        lists_in_order(upgrades@.len() as int, order@, |a: int, b: int| id_first(upgrades@, a, b)),
{
    let ghost us = upgrades@;
    let ghost before = |a: int, b: int| id_first(us, a, b);
    let n = upgrades.len();
    let mut order: Vec<usize> = Vec::new();
    assert(strict_total(n as int, before)) by {
        assert forall|a: int| 0 <= a < n implies !#[trigger] before(a, a) by {
            lemma_text_order(us[a].id@, us[a].id@, us[a].id@);
        }
        assert forall|a: int, b: int| 0 <= a < n && 0 <= b < n && a != b implies #[trigger] before(a, b) || #[trigger] before(b, a) by {
            lemma_text_order(us[a].id@, us[b].id@, us[b].id@);
        }
        assert forall|a: int, b: int, c: int|
            0 <= a < n && 0 <= b < n && 0 <= c < n && #[trigger] before(a, b) && #[trigger] before(b, c) implies before(a, c) by {
            lemma_text_order(us[a].id@, us[b].id@, us[c].id@);
            lemma_text_order(us[b].id@, us[c].id@, us[a].id@);
            lemma_text_order(us[c].id@, us[a].id@, us[b].id@);
        }
    }
    for i in 0..n
        invariant
            n == us.len(),
            us == upgrades@,
            before == (|a: int, b: int| id_first(us, a, b)),
            strict_total(n as int, before),
            order@.len() == i,
            forall|t: int| 0 <= t < order@.len() ==> #[trigger] order@[t] < i,
            forall|k: int| 0 <= k < i ==> #[trigger] order@.contains(k as usize),
            forall|t: int, u: int| 0 <= t < u < order@.len() ==> before(#[trigger] order@[t] as int, #[trigger] order@[u] as int),
    {
        let mut p: usize = 0;
        while p < order.len() && (text_less(&upgrades[order[p]].id, &upgrades[i].id) || (upgrades[order[p]].id
            == upgrades[i].id && order[p] < i))
            invariant
                n == us.len(),
                us == upgrades@,
                i < n,
                p <= order@.len(),
                forall|t: int| 0 <= t < order@.len() ==> #[trigger] order@[t] < i,
                forall|t: int| 0 <= t < p ==> before(#[trigger] order@[t] as int, i as int),
                before == (|a: int, b: int| id_first(us, a, b)),
            decreases order@.len() - p,
        {
            p = p + 1;
        }
        proof {
            assert forall|t: int| p <= t < order@.len() implies !before(#[trigger] order@[t] as int, i as int) by {
                if before(order@[t] as int, i as int) {
                    assert(!before(order@[p as int] as int, i as int));
                    if p < t {
                        assert(before(order@[p as int] as int, order@[t] as int));
                    }
                }
            }
            lemma_insert_in_order(n as int, order@, i as int, p as int, before);
        }
        let ghost o0 = order@;
        order.insert(p, i);
        proof {
            o0.insert_ensures(p as int, i);
            assert forall|k: int| 0 <= k <= i implies #[trigger] order@.contains(k as usize) by {
                if k == i {
                    assert(order@[p as int] == i);
                } else {
                    assert(o0.contains(k as usize));
                    let t = choose|t: int| 0 <= t < o0.len() && o0[t] == k as usize;
                    if t < p {
                        assert(order@[t] == k as usize);
                    } else {
                        assert(order@[t + 1] == k as usize);
                    }
                }
            }
        }
    }
    order
}

/// Every name listed is held, wherever it stands in the list.
pub proof fn law_listed_name_held(names: Seq<String>, i: int)
    requires
        0 <= i < names.len(),
    ensures
        names_hold(names, names[i]@),
{
}

/// A held name stays held when more names are added: ownership is kept by later purchases.
pub proof fn law_name_held_after_push(names: Seq<String>, id: Seq<char>, x: String)
    requires
        names_hold(names, id),
    ensures
        names_hold(names.push(x), id),
{
    let i = choose|i: int| 0 <= i < names.len() && #[trigger] names[i]@ == id;
    assert(names.push(x)[i]@ == id);
}

/// A name absent from every entry is not held.
pub proof fn law_unlisted_name_not_held(names: Seq<String>, id: Seq<char>)
    requires
        forall|i: int| 0 <= i < names.len() ==> #[trigger] names[i]@ != id,
    ensures
        !names_hold(names, id),
{
}

/// Text order is lexicographic: after a common prefix of `k` characters, the first
/// differing characters decide by their code points.
pub proof fn law_text_order_first_difference(a: Seq<char>, b: Seq<char>, k: int)
    requires
        0 <= k < a.len(),
        k < b.len(),
        a.take(k) == b.take(k),
        a[k] != b[k],
    ensures
        text_lt(a, b) <==> (a[k] as u32) < (b[k] as u32),
    decreases k,
{
    if k > 0 {
        assert(a[0] == a.take(k)[0]);
        assert(b[0] == b.take(k)[0]);
        assert(a.drop_first().take(k - 1) =~= a.take(k).drop_first());
        assert(b.drop_first().take(k - 1) =~= b.take(k).drop_first());
        law_text_order_first_difference(a.drop_first(), b.drop_first(), k - 1);
    }
}

/// A proper prefix sorts before the text it begins.
pub proof fn law_text_order_prefix_first(a: Seq<char>, b: Seq<char>)
    requires
        a.len() < b.len(),
        a == b.take(a.len() as int),
    ensures
        text_lt(a, b),
    decreases a.len(),
{
    if a.len() > 0 {
        assert(a[0] == b[0]);
        assert(a.drop_first() =~= b.drop_first().take(a.len() - 1));
        law_text_order_prefix_first(a.drop_first(), b.drop_first());
    }
}

} // verus!
