//! Battle bookkeeping: the spawner that follows a map's wave schedule and budget, leaks
//! that drain the base, and the outcome of the battle.
use vstd::prelude::*;

use crate::content::{position_of_id, holds_id, HasId, MapDef, Race, WaveGroup, WaveRound};

verus! {

/// How a battle ended.
#[derive(Debug, Clone, Copy, PartialEq, Eq, Structural)]
pub enum BattleOutcome {
    Won,
    Lost,
}

/// The orc groups of all rounds of a schedule, round after round.
pub open spec fn all_groups(rounds: Seq<WaveRound>) -> Seq<WaveGroup>
    decreases rounds.len(),
{
    if rounds.len() == 0 {
        Seq::empty()
    } else {
        all_groups(rounds.drop_last()) + rounds.last().orcs@
    }
}

/// The number of orcs in the first `g` groups.
pub open spec fn orcs_before(groups: Seq<WaveGroup>, g: int) -> int
    decreases g,
{
    if g <= 0 {
        0
    } else {
        orcs_before(groups, g - 1) + groups[g - 1].count
    }
}

/// Group `g` is the group of the schedule that holds orc number `n` (counting from 1):
/// the first group up to whose end at least `n` orcs are scheduled.
pub open spec fn holds_orc(groups: Seq<WaveGroup>, n: int, g: int) -> bool {
    &&& 0 <= g < groups.len()
    &&& n <= orcs_before(groups, g + 1)
    &&& forall|h: int| 0 <= h < g ==> n > #[trigger] orcs_before(groups, h + 1)
}

proof fn lemma_all_groups_prefix(rounds: Seq<WaveRound>, k: int)
    requires
        0 <= k <= rounds.len(),
    ensures
        all_groups(rounds.take(k)).len() <= all_groups(rounds).len(),
        all_groups(rounds) == all_groups(rounds.take(k)) + all_groups(rounds).skip(all_groups(rounds.take(k)).len() as int),
    decreases rounds.len(),
{
    if k == rounds.len() {
        assert(rounds.take(k) =~= rounds);
        assert(all_groups(rounds).skip(all_groups(rounds).len() as int) =~= Seq::<WaveGroup>::empty());
        assert(all_groups(rounds) =~= all_groups(rounds) + Seq::<WaveGroup>::empty());
    } else {
        let s = rounds.drop_last();
        assert(rounds.take(k) =~= s.take(k));
        lemma_all_groups_prefix(s, k);
        let a = all_groups(s.take(k));
        assert(all_groups(rounds) =~= all_groups(s) + rounds.last().orcs@);
        assert(all_groups(rounds) =~= a + all_groups(rounds).skip(a.len() as int));
    }
}

proof fn lemma_orcs_before_prefix(a: Seq<WaveGroup>, b: Seq<WaveGroup>, g: int)
    requires
        0 <= g <= a.len(),
        a == b.take(a.len() as int),
        a.len() <= b.len(),
    ensures
        orcs_before(a, g) == orcs_before(b, g),
    decreases g,
{
    if g > 0 {
        lemma_orcs_before_prefix(a, b, g - 1);
        assert(a[g - 1] == b[g - 1]);
    }
}

/// The race of orc number `n` (counting from 1) of a wave schedule: the race of the group
/// that holds it, or `None` when the schedule holds fewer than `n` orcs.
pub fn scheduled_race(schedule: &Vec<WaveRound>, n: u32) -> (r: Option<String>)
    requires
        n >= 1,
    ensures
        r is None <==> forall|g: int| 0 <= g < all_groups(schedule@).len() ==> n > #[trigger] orcs_before(all_groups(schedule@), g + 1),
        r matches Some(s) ==> exists|g: int| #[trigger] holds_orc(all_groups(schedule@), n as int, g) && s@ == all_groups(schedule@)[g].race@,
{
    let ghost all = all_groups(schedule@);
    let mut rest: u32 = n;
    for r in 0..schedule.len()
        invariant
            all == all_groups(schedule@),
            n >= 1,
            all_groups(schedule@.take(r as int)).len() <= all.len(),
            all_groups(schedule@.take(r as int)) == all.take(all_groups(schedule@.take(r as int)).len() as int),
            rest as int == n - orcs_before(all, all_groups(schedule@.take(r as int)).len() as int),
            forall|h: int| 0 <= h < all_groups(schedule@.take(r as int)).len() ==> n > #[trigger] orcs_before(all, h + 1),
    {
        let ghost before = all_groups(schedule@.take(r as int));
        proof {
            lemma_all_groups_prefix(schedule@, r as int + 1);
            assert(schedule@.take(r as int + 1).drop_last() =~= schedule@.take(r as int));
            assert(all_groups(schedule@.take(r as int + 1)) == before + schedule@[r as int].orcs@);
        }
        let groups = &schedule[r].orcs;
        for g in 0..groups.len()
            invariant
                all == all_groups(schedule@),
                n >= 1,
                0 <= r < schedule@.len(),
                groups == schedule@[r as int].orcs,
                before == all_groups(schedule@.take(r as int)),
                before + groups@ == all.take((before.len() + groups@.len()) as int),
                before.len() + groups@.len() <= all.len(),
                rest as int == n - orcs_before(all, before.len() + g),
                forall|h: int| 0 <= h < before.len() + g ==> n > #[trigger] orcs_before(all, h + 1),
        {
            let ghost p: int = before.len() + g as int;
            assert(all[p] == groups@[g as int]) by {
                assert((before + groups@)[p] == groups@[g as int]);
            }
            if rest <= groups[g].count {
                let race = groups[g].race.clone();
                assert(holds_orc(all, n as int, p));
                return Some(race);
            }
            rest = rest - groups[g].count;
        }
        proof {
            lemma_all_groups_prefix(schedule@, r as int + 1);
            assert(all_groups(schedule@.take(r as int + 1)) == before + groups@);
        }
    }
    proof {
        assert(schedule@.take(schedule@.len() as int) =~= schedule@);
    }
    None
}

/// The outcome to announce, given the one announced last and the battle's outcome now:
/// an outcome is announced once, when it first differs from the last one announced.
pub fn outcome_to_report(last: Option<BattleOutcome>, now: Option<BattleOutcome>) -> (r: Option<BattleOutcome>)
    ensures
        r == if now is Some && last != now { now } else { None },
{
    match now {
        Some(o) => if last == Some(o) {
            None
        } else {
            Some(o)
        },
        None => None,
    }
}

/// Lateral offset, in world pixels, of the lane of orc number `seed`: nine lanes six
/// pixels apart, centered on the route.
pub fn spawn_lane(seed: u32) -> (r: i32)
    ensures
        r == ((seed % 9) as int - 4) * 6,
{
    ((seed % 9) as i32 - 4) * 6
}

/// The bookkeeping of a battle on one map.
#[derive(Debug)]
pub struct Battle {
    pub map_id: String,
    pub diamonds: u32,
    pub orcs_alive: u32,
    pub orcs_spawned: u32,
    pub orc_budget: u32,
    pub kills: u32,
    pub leaks: u32,
    pub rounds_complete: u32,
    pub outcome: Option<BattleOutcome>,
}

impl Battle {
    /// Every orc alive, leaked or killed was spawned, and no more than the budget spawned.
    pub open spec fn wf(&self) -> bool {
        &&& self.orcs_alive + self.leaks + self.kills <= self.orcs_spawned
        &&& self.orcs_spawned <= self.orc_budget
    }

    /// A fresh battle on `map`: its budget and starting diamonds, nothing spawned yet.
    pub fn new(map: &MapDef) -> (b: Battle)
        ensures
            b.wf(),
            b.map_id@ == map.id@,
            b.diamonds == map.starting_diamonds,
            b.orc_budget == map.orc_budget,
            b.orcs_alive == 0,
            b.orcs_spawned == 0,
            b.kills == 0,
            b.leaks == 0,
            b.rounds_complete == 0,
            b.outcome is None,
    {
        Battle {
            map_id: map.id.clone(),
            diamonds: map.starting_diamonds,
            orcs_alive: 0,
            orcs_spawned: 0,
            orc_budget: map.orc_budget,
            kills: 0,
            leaks: 0,
            rounds_complete: 0,
            outcome: None,
        }
    }

    /// Spawn the next orc of the budget while the battle is undecided: it is counted as
    /// spawned, takes the race that the schedule gives its number, and joins the living
    /// when that race exists. Returns the position of its race in `races`. A decided
    /// battle spawns nothing.
    pub fn spawn_next(&mut self, schedule: &Vec<WaveRound>, races: &Vec<Race>) -> (r: Option<usize>)
        requires
            old(self).wf(),
            old(self).outcome is None ==> old(self).orcs_spawned < old(self).orc_budget,
        ensures
            final(self).wf(),
            old(self).outcome is Some ==> r is None && *final(self) == *old(self),
            old(self).outcome is None ==> final(self).orcs_spawned == old(self).orcs_spawned + 1,
            old(self).outcome is None ==> (r is Some <==> exists|g: int|
                #[trigger] holds_orc(all_groups(schedule@), final(self).orcs_spawned as int, g) && holds_id(
                    races@,
                    all_groups(schedule@)[g].race@,
                )),
            r matches Some(i) ==> i < races@.len() && exists|g: int|
                #[trigger] holds_orc(all_groups(schedule@), final(self).orcs_spawned as int, g) && races@[i as int].id@
                    == all_groups(schedule@)[g].race@ && forall|j: int|
                    0 <= j < i ==> #[trigger] races@[j].id@ != all_groups(schedule@)[g].race@,
            final(self).orcs_alive == old(self).orcs_alive + if r is Some { 1int } else { 0int },
            final(self).map_id == old(self).map_id,
            final(self).diamonds == old(self).diamonds,
            final(self).orc_budget == old(self).orc_budget,
            final(self).kills == old(self).kills,
            final(self).leaks == old(self).leaks,
            final(self).rounds_complete == old(self).rounds_complete,
            final(self).outcome == old(self).outcome,
    {
        if self.outcome.is_some() {
            return None;
        }
        self.orcs_spawned = self.orcs_spawned + 1;
        let ghost all = all_groups(schedule@);
        let n = self.orcs_spawned;
        match scheduled_race(schedule, n) {
            None => {
                proof {
                    assert forall|g: int| #[trigger] holds_orc(all, n as int, g) implies false by {
                        assert(n > orcs_before(all, g + 1));
                    }
                }
                None
            },
            Some(race_id) => {
                let ghost g = choose|g: int| #[trigger] holds_orc(all, n as int, g) && race_id@ == all[g].race@;
                proof {
                    // the group that holds an orc is unique
                    assert forall|g2: int| #[trigger] holds_orc(all, n as int, g2) implies g2 == g by {
                        if g2 < g {
                            assert(n > orcs_before(all, g2 + 1));
                        } else if g < g2 {
                            assert(n > orcs_before(all, g + 1));
                        }
                    }
                }
                match position_of_id(races, &race_id) {
                    None => None,
                    Some(i) => {
                        self.orcs_alive = self.orcs_alive + 1;
                        proof {
                            assert forall|j: int| 0 <= j < i implies #[trigger] races@[j].id@ != all[g].race@ by {
                                assert(races@[j].spec_id() != race_id@);
                            }
                            assert(holds_orc(all, self.orcs_spawned as int, g) && races@[i as int].id@ == all[g].race@);
                        }
                        Some(i)
                    },
                }
            },
        }
    }

    /// An orc reached the base: it leaves the living and counts as a leak. When the base
    /// has no hit points left and the battle is still open, the battle is lost.
    pub fn record_leak(&mut self, base_depleted: bool)
        requires
            old(self).wf(),
            old(self).orcs_alive > 0,
        ensures
            final(self).wf(),
            final(self).orcs_alive == old(self).orcs_alive - 1,
            final(self).leaks == old(self).leaks + 1,
            final(self).outcome == if base_depleted && old(self).outcome is None {
                Some(BattleOutcome::Lost)
            } else {
                old(self).outcome
            },
            final(self).map_id == old(self).map_id,
            final(self).diamonds == old(self).diamonds,
            final(self).orcs_spawned == old(self).orcs_spawned,
            final(self).orc_budget == old(self).orc_budget,
            final(self).kills == old(self).kills,
            final(self).rounds_complete == old(self).rounds_complete,
    {
        self.leaks = self.leaks + 1;
        self.orcs_alive = self.orcs_alive - 1;
        if base_depleted && self.outcome.is_none() {
            self.outcome = Some(BattleOutcome::Lost);
        }
    }

    /// The win check: an open battle is won once the whole budget has spawned and no orc
    /// is left alive.
    pub fn check_outcome(&mut self)
        ensures
            final(self).outcome == if old(self).outcome is None && old(self).orcs_spawned >= old(self).orc_budget
                && old(self).orcs_alive == 0 {
                Some(BattleOutcome::Won)
            } else {
                old(self).outcome
            },
            final(self).map_id == old(self).map_id,
            final(self).diamonds == old(self).diamonds,
            final(self).orcs_alive == old(self).orcs_alive,
            final(self).orcs_spawned == old(self).orcs_spawned,
            final(self).orc_budget == old(self).orc_budget,
            final(self).kills == old(self).kills,
            final(self).leaks == old(self).leaks,
            final(self).rounds_complete == old(self).rounds_complete,
    {
        if self.outcome.is_some() {
            return;
        }
        if self.orcs_spawned >= self.orc_budget && self.orcs_alive == 0 {
            self.outcome = Some(BattleOutcome::Won);
        }
    }
}

/// The number of orcs that the first `g` groups of a schedule hold, added up group by
/// group from the front.
pub open spec fn scheduled_total(groups: Seq<WaveGroup>, g: int) -> int {
    groups.take(g).map_values(|x: WaveGroup| x.count as int).fold_left(0int, |acc: int, c: int| acc + c)
}

/// `orcs_before` counts the orcs of the first `g` groups: the plain sum of their counts.
pub proof fn law_orcs_before_sums(groups: Seq<WaveGroup>, g: int)
    requires
        0 <= g <= groups.len(),
    ensures
        orcs_before(groups, g) == scheduled_total(groups, g),
    decreases g,
{
    if g > 0 {
        law_orcs_before_sums(groups, g - 1);
        let s = groups.take(g).map_values(|x: WaveGroup| x.count as int);
        assert(s.drop_last() =~= groups.take(g - 1).map_values(|x: WaveGroup| x.count as int));
        assert(s.last() == groups[g - 1].count as int);
    }
}

proof fn lemma_orcs_before_grows(groups: Seq<WaveGroup>, h: int, g: int)
    requires
        0 <= h <= g,
    ensures
        orcs_before(groups, h) <= orcs_before(groups, g),
    decreases g - h,
{
    if h < g {
        lemma_orcs_before_grows(groups, h, g - 1);
    }
}

/// Orc number `n` (counting from 1) belongs to group `g` exactly when more orcs than the
/// groups before `g` hold come before it, and no more than those groups and `g` hold.
pub proof fn law_group_of_orc(groups: Seq<WaveGroup>, n: int, g: int)
    requires
        n >= 1,
        0 <= g < groups.len(),
    ensures
        holds_orc(groups, n, g) <==> scheduled_total(groups, g) < n <= scheduled_total(groups, g + 1),
{
    law_orcs_before_sums(groups, g);
    law_orcs_before_sums(groups, g + 1);
    if scheduled_total(groups, g) < n && n <= scheduled_total(groups, g + 1) {
        assert forall|h: int| 0 <= h < g implies n > #[trigger] orcs_before(groups, h + 1) by {
            lemma_orcs_before_grows(groups, h + 1, g);
        }
    }
    if holds_orc(groups, n, g) && g > 0 {
        assert(n > orcs_before(groups, (g - 1) + 1));
    }
}

/// Every orc of a one-group schedule, from the first to the group's count, belongs to
/// that group.
pub proof fn law_single_group_holds_its_orcs(group: WaveGroup, n: int)
    requires
        1 <= n <= group.count,
    ensures
        holds_orc(seq![group], n, 0),
{
    let gs = seq![group];
    law_group_of_orc(gs, n, 0);
    law_orcs_before_sums(gs, 0);
    law_orcs_before_sums(gs, 1);
    assert(orcs_before(gs, 1) == orcs_before(gs, 0) + gs[0].count);
}

} // verus!
