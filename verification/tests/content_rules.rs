use moonshell::content::{
    insert_by_id, position_of_id, validate_content, Content, ContentError, Cost, HasId, Manifest, MapDef,
    Race, SpawnRate, StartingTower, Upgrade, WaveGroup, WaveRound, Weapon,
};

fn race(id: &str) -> Race {
    Race {
        id: id.to_string(),
        name: id.to_string(),
        description: String::new(),
        hp_bits: 2.0f32.to_bits(),
        speed_bits: 2.2f32.to_bits(),
        reward_diamonds: 1,
        damage_to_hp_bits: 1.0f32.to_bits(),
        silver_chance_bits: 0.01f32.to_bits(),
        explosive_chance_bits: 0.0f32.to_bits(),
        script: None,
        scripting: Some("lua".to_string()),
        tint: None,
    }
}

fn weapon(id: &str, cost: u32, upgrades: &[&str]) -> Weapon {
    Weapon {
        id: id.to_string(),
        name: id.to_string(),
        description: String::new(),
        sprite: None,
        cost_orbs: cost,
        cap: 4,
        damage_bits: 12.0f32.to_bits(),
        fire_rate_bits: 2.0f32.to_bits(),
        range_bits: 220.0f32.to_bits(),
        targeting: "strong".to_string(),
        projectile: None,
        tick_damage_bits: None,
        script: None,
        upgrades: upgrades.iter().map(|s| s.to_string()).collect(),
    }
}

fn upgrade(id: &str, weapon: Option<&str>, requires: &[&str]) -> Upgrade {
    Upgrade {
        id: id.to_string(),
        kind: "weapon_upgrade".to_string(),
        weapon: weapon.map(|s| s.to_string()),
        cost: Cost { orbs: 0, cubes: 2, diamonds: 0 },
        rank_max: 10,
        effect: Some("damage_pct: 10".to_string()),
        requires: requires.iter().map(|s| s.to_string()).collect(),
        icon: None,
        color: None,
    }
}

fn map(id: &str, points: usize, waves: &[(u32, &[(&str, u32)])], towers: &[&str]) -> MapDef {
    MapDef {
        id: id.to_string(),
        name: id.to_string(),
        path_svg: None,
        path: (0..points).map(|i| [(i as f32 * 100.0).to_bits(), 450.0f32.to_bits()]).collect(),
        routes: 1,
        rounds: waves.len() as u32,
        orc_budget: 400,
        hp_bits: 80.0f32.to_bits(),
        spawn_rate: SpawnRate { base_bits: 12.0f32.to_bits(), ramp_bits: 0.05f32.to_bits() },
        wave_schedule: waves
            .iter()
            .map(|(r, groups)| WaveRound {
                round: *r,
                orcs: groups.iter().map(|(race, count)| WaveGroup { race: race.to_string(), count: *count }).collect(),
            })
            .collect(),
        starting_diamonds: 50,
        starting_towers: towers
            .iter()
            .map(|w| StartingTower { weapon: w.to_string(), x_bits: 430.0f32.to_bits(), y_bits: 380.0f32.to_bits() })
            .collect(),
    }
}

fn sample() -> Content {
    Content {
        manifest: Some(Manifest {
            id: "sample".to_string(),
            name: "Sample".to_string(),
            version: "0.1.0".to_string(),
            permissions: vec![],
        }),
        races: vec![race("critter")],
        weapons: vec![
            weapon("arc_weaver", 1, &["arc_weaver_i", "arc_weaver_ii"]),
            weapon("lance", 2, &["lance_i"]),
        ],
        upgrades: vec![
            upgrade("arc_weaver_i", Some("arc_weaver"), &[]),
            upgrade("arc_weaver_ii", Some("arc_weaver"), &["arc_weaver_i"]),
            upgrade("lance_i", Some("lance"), &[]),
        ],
        maps: vec![map(
            "sector_1_1",
            4,
            &[(1, &[("critter", 150)]), (2, &[("critter", 150)]), (3, &[("critter", 100)])],
            &["arc_weaver", "lance"],
        )],
    }
}

#[test]
fn sample_content_is_valid() {
    assert_eq!(validate_content(&sample()), Ok(()));
}

#[test]
fn diamond_shaped_requirements_are_acyclic() {
    let mut c = sample();
    c.upgrades = vec![
        upgrade("a", None, &["b", "c"]),
        upgrade("b", None, &["d"]),
        upgrade("c", None, &["d"]),
        upgrade("d", None, &[]),
    ];
    c.weapons[0].upgrades = vec!["a".to_string()];
    c.weapons[1].upgrades = vec![];
    assert_eq!(validate_content(&c), Ok(()));
}

#[test]
fn missing_weapon_upgrade_is_reported() {
    let mut c = sample();
    c.weapons[1].upgrades.push("lance_ii".to_string());
    assert_eq!(validate_content(&c), Err(ContentError::MissingUpgrade { weapon: 1, upgrade: 1 }));
}

#[test]
fn missing_requirement_is_reported() {
    let mut c = sample();
    c.upgrades[2].requires.push("nothing".to_string());
    assert_eq!(validate_content(&c), Err(ContentError::MissingRequirement { upgrade: 2, requirement: 0 }));
}

#[test]
fn missing_upgrade_weapon_is_reported() {
    let mut c = sample();
    c.upgrades[1].weapon = Some("vulture".to_string());
    assert_eq!(validate_content(&c), Err(ContentError::MissingWeapon { upgrade: 1 }));
}

#[test]
fn requirement_cycle_is_reported_at_its_first_member() {
    let mut c = sample();
    c.upgrades[0].requires.push("arc_weaver_ii".to_string());
    c.upgrades.insert(0, upgrade("zeta", None, &["arc_weaver_i"]));
    // zeta only leads into the cycle; the first upgrade on the cycle is arc_weaver_i
    assert_eq!(validate_content(&c), Err(ContentError::CyclicUpgrade { upgrade: 1 }));
}

#[test]
fn self_requirement_is_a_cycle() {
    let mut c = sample();
    c.upgrades[2].requires.push("lance_i".to_string());
    assert_eq!(validate_content(&c), Err(ContentError::CyclicUpgrade { upgrade: 2 }));
}

#[test]
fn short_path_is_reported() {
    let mut c = sample();
    c.maps[0].path.truncate(1);
    assert_eq!(validate_content(&c), Err(ContentError::ShortPath { map: 0 }));
}

#[test]
fn missing_wave_race_is_reported() {
    let mut c = sample();
    c.maps[0].wave_schedule[2].orcs.push(WaveGroup { race: "goblin".to_string(), count: 3 });
    assert_eq!(validate_content(&c), Err(ContentError::MissingRace { map: 0, round: 2, group: 1 }));
}

#[test]
fn missing_tower_weapon_is_reported() {
    let mut c = sample();
    c.maps[0].starting_towers[0].weapon = "cannon".to_string();
    assert_eq!(validate_content(&c), Err(ContentError::MissingTowerWeapon { map: 0, tower: 0 }));
}

#[test]
fn earliest_rule_wins() {
    let mut c = sample();
    c.maps[0].path.truncate(0);
    c.upgrades[1].weapon = Some("vulture".to_string());
    c.upgrades[0].requires.push("ghost".to_string());
    assert_eq!(validate_content(&c), Err(ContentError::MissingRequirement { upgrade: 0, requirement: 0 }));
    c.weapons[0].upgrades.push("ghost".to_string());
    assert_eq!(validate_content(&c), Err(ContentError::MissingUpgrade { weapon: 0, upgrade: 2 }));
}

#[test]
fn ids_and_lookup() {
    let c = sample();
    assert_eq!(c.weapons[1].id(), "lance");
    assert_eq!(position_of_id(&c.upgrades, &"lance_i".to_string()), Some(2));
    assert_eq!(position_of_id(&c.upgrades, &"cannon".to_string()), None);
    assert_eq!(c.get_map("sector_1_1").map(|m| m.orc_budget), Some(400));
    assert!(c.get_map("sector_9").is_none());
}

#[test]
fn duplicate_ids_are_refused() {
    let mut races = Vec::new();
    assert_eq!(insert_by_id(&mut races, race("critter")), Ok(()));
    assert_eq!(insert_by_id(&mut races, race("goblin")), Ok(()));
    assert_eq!(insert_by_id(&mut races, race("critter")), Err(0));
    assert_eq!(races.len(), 2);
}
