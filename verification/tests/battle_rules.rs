use moonshell::battle::{outcome_to_report, scheduled_race, spawn_lane, Battle, BattleOutcome};
use moonshell::content::{MapDef, Race, SpawnRate, WaveGroup, WaveRound};

fn race(id: &str) -> Race {
    Race {
        id: id.to_string(),
        name: id.to_string(),
        description: String::new(),
        hp_bits: 0,
        speed_bits: 0,
        reward_diamonds: 1,
        damage_to_hp_bits: 0,
        silver_chance_bits: 0,
        explosive_chance_bits: 0,
        script: None,
        scripting: None,
        tint: None,
    }
}

fn schedule() -> Vec<WaveRound> {
    vec![
        WaveRound { round: 1, orcs: vec![WaveGroup { race: "critter".to_string(), count: 2 }] },
        WaveRound { round: 2, orcs: vec![] },
        WaveRound {
            round: 3,
            orcs: vec![
                WaveGroup { race: "empty".to_string(), count: 0 },
                WaveGroup { race: "brute".to_string(), count: 1 },
                WaveGroup { race: "goblin".to_string(), count: 2 },
            ],
        },
    ]
}

fn map(budget: u32) -> MapDef {
    MapDef {
        id: "sector_1_1".to_string(),
        name: "Sector 1".to_string(),
        path_svg: None,
        path: vec![[0, 0], [1, 1]],
        routes: 1,
        rounds: 3,
        orc_budget: budget,
        hp_bits: 80.0f32.to_bits(),
        spawn_rate: SpawnRate::default(),
        wave_schedule: schedule(),
        starting_diamonds: 50,
        starting_towers: vec![],
    }
}

#[test]
fn schedule_assigns_races_in_order() {
    let s = schedule();
    assert_eq!(scheduled_race(&s, 1).as_deref(), Some("critter"));
    assert_eq!(scheduled_race(&s, 2).as_deref(), Some("critter"));
    assert_eq!(scheduled_race(&s, 3).as_deref(), Some("brute"));
    assert_eq!(scheduled_race(&s, 4).as_deref(), Some("goblin"));
    assert_eq!(scheduled_race(&s, 5).as_deref(), Some("goblin"));
    assert_eq!(scheduled_race(&s, 6), None);
}

#[test]
fn lanes_spread_around_the_route() {
    assert_eq!(spawn_lane(0), -24);
    assert_eq!(spawn_lane(4), 0);
    assert_eq!(spawn_lane(8), 24);
    assert_eq!(spawn_lane(9), -24);
    assert_eq!(spawn_lane(13), 0);
}

#[test]
fn new_battle_starts_empty() {
    let b = Battle::new(&map(400));
    assert_eq!(b.map_id, "sector_1_1");
    assert_eq!(b.diamonds, 50);
    assert_eq!(b.orc_budget, 400);
    assert_eq!((b.orcs_alive, b.orcs_spawned, b.kills, b.leaks), (0, 0, 0, 0));
    assert_eq!(b.outcome, None);
}

#[test]
fn spawner_follows_schedule_and_skips_unknown_races() {
    let m = map(6);
    let races = vec![race("critter"), race("goblin")];
    let mut b = Battle::new(&m);
    assert_eq!(b.spawn_next(&m.wave_schedule, &races), Some(0));
    assert_eq!(b.spawn_next(&m.wave_schedule, &races), Some(0));
    // brute is not a known race: counted as spawned, never alive
    assert_eq!(b.spawn_next(&m.wave_schedule, &races), None);
    assert_eq!(b.spawn_next(&m.wave_schedule, &races), Some(1));
    assert_eq!(b.spawn_next(&m.wave_schedule, &races), Some(1));
    // past the schedule: nothing to spawn
    assert_eq!(b.spawn_next(&m.wave_schedule, &races), None);
    assert_eq!(b.orcs_spawned, 6);
    assert_eq!(b.orcs_alive, 4);
}

#[test]
fn leaks_drain_and_lose() {
    let m = map(3);
    let races = vec![race("critter"), race("brute"), race("goblin")];
    let mut b = Battle::new(&m);
    for _ in 0..3 {
        b.spawn_next(&m.wave_schedule, &races);
    }
    b.record_leak(false);
    assert_eq!((b.orcs_alive, b.leaks), (2, 1));
    assert_eq!(b.outcome, None);
    b.record_leak(true);
    assert_eq!(b.outcome, Some(BattleOutcome::Lost));
    b.record_leak(true);
    assert_eq!(b.outcome, Some(BattleOutcome::Lost));
    b.check_outcome();
    // a decided battle stays decided
    assert_eq!(b.outcome, Some(BattleOutcome::Lost));
}

#[test]
fn battle_is_won_when_budget_spent_and_field_clear() {
    let m = map(2);
    let races = vec![race("critter")];
    let mut b = Battle::new(&m);
    b.spawn_next(&m.wave_schedule, &races);
    b.check_outcome();
    assert_eq!(b.outcome, None);
    b.spawn_next(&m.wave_schedule, &races);
    b.check_outcome();
    assert_eq!(b.outcome, None);
    b.record_leak(false);
    b.record_leak(false);
    b.check_outcome();
    assert_eq!(b.outcome, Some(BattleOutcome::Won));
}

#[test]
fn empty_budget_is_won_at_once() {
    let mut b = Battle::new(&map(0));
    b.check_outcome();
    assert_eq!(b.outcome, Some(BattleOutcome::Won));
}

#[test]
fn decided_battle_spawns_nothing() {
    let m = map(10);
    let races = vec![race("critter"), race("goblin")];
    let mut b = Battle::new(&m);
    assert_eq!(b.spawn_next(&m.wave_schedule, &races), Some(0));
    b.record_leak(true);
    assert_eq!(b.outcome, Some(BattleOutcome::Lost));
    assert_eq!(b.spawn_next(&m.wave_schedule, &races), None);
    assert_eq!((b.orcs_spawned, b.orcs_alive, b.leaks), (1, 0, 1));
}

#[test]
fn outcomes_are_announced_once() {
    let won = Some(BattleOutcome::Won);
    let lost = Some(BattleOutcome::Lost);
    assert_eq!(outcome_to_report(None, None), None);
    assert_eq!(outcome_to_report(None, won), won);
    assert_eq!(outcome_to_report(won, won), None);
    assert_eq!(outcome_to_report(won, lost), lost);
    assert_eq!(outcome_to_report(lost, None), None);
}
