use moonshell::battle::BattleOutcome;
use moonshell::content::{Cost, Upgrade, Weapon};
use moonshell::hub::{battle_started, text_less, upgrades_by_id, weapons_by_cost, CardState, Economy, GameState, Phase};

fn weapon(id: &str, cost: u32) -> Weapon {
    Weapon {
        id: id.to_string(),
        name: id.to_string(),
        description: String::new(),
        sprite: None,
        cost_orbs: cost,
        cap: 1,
        damage_bits: 0,
        fire_rate_bits: 0,
        range_bits: 0,
        targeting: "first".to_string(),
        projectile: None,
        tick_damage_bits: None,
        script: None,
        upgrades: vec![],
    }
}

fn upgrade(id: &str) -> Upgrade {
    Upgrade {
        id: id.to_string(),
        kind: "stat".to_string(),
        weapon: None,
        cost: Cost::default(),
        rank_max: 3,
        effect: None,
        requires: vec![],
        icon: None,
        color: None,
    }
}

#[test]
fn phases_follow_the_loop() {
    let mut s = GameState::default();
    assert_eq!(s.phase, Phase::Splash);
    assert!(s.dismiss_splash(false));
    assert_eq!(s.phase, Phase::Hub);
    assert!(!battle_started(&s));
    assert!(!s.finish_battle(Some(BattleOutcome::Won)));
    assert_eq!(s.phase, Phase::Hub);
    s.press_play();
    assert!(battle_started(&s));
    assert!(!s.finish_battle(None));
    assert_eq!(s.phase, Phase::Battle);
    // the splash hands off once: later calls change nothing
    assert!(!s.dismiss_splash(false));
    assert_eq!(s.phase, Phase::Battle);
    assert!(s.finish_battle(Some(BattleOutcome::Lost)));
    assert_eq!(s.phase, Phase::Hub);
    let mut auto = GameState::default();
    assert!(auto.dismiss_splash(true));
    assert_eq!(auto.phase, Phase::Battle);
    assert!(!auto.dismiss_splash(false));
    assert_eq!(auto.phase, Phase::Battle);
}

#[test]
fn buying_weapons_with_orbs() {
    let weapons = vec![weapon("arc_weaver", 1), weapon("lance", 2)];
    let mut e = Economy::new(&weapons);
    assert_eq!(e.weapon_prices, vec![("arc_weaver".to_string(), 1), ("lance".to_string(), 2)]);
    e.seed();
    assert_eq!(e.orbs, 1);
    e.seed();
    assert_eq!(e.orbs, 1);
    assert_eq!(e.card_state(&"arc_weaver".to_string()), CardState::Affordable);
    assert_eq!(e.card_state(&"lance".to_string()), CardState::Locked);
    assert!(!e.buy_weapon(&"lance".to_string()));
    assert!(e.buy_weapon(&"arc_weaver".to_string()));
    assert_eq!(e.orbs, 0);
    assert_eq!(e.owned_weapons, vec!["arc_weaver".to_string()]);
    assert_eq!(e.card_state(&"arc_weaver".to_string()), CardState::Owned);
    e.orbs = 5;
    // owned already: no second purchase
    assert!(!e.buy_weapon(&"arc_weaver".to_string()));
    assert_eq!(e.orbs, 5);
    // unknown weapons have no price: locked, and not buyable short of u32::MAX orbs
    assert_eq!(e.card_state(&"vulture".to_string()), CardState::Locked);
    assert!(!e.buy_weapon(&"vulture".to_string()));
    e.orbs = u32::MAX;
    assert!(e.buy_weapon(&"vulture".to_string()));
    assert_eq!(e.orbs, 0);
}

#[test]
fn ranking_upgrades_with_cubes() {
    let mut cannon_ii = upgrade("cannon_ii");
    cannon_ii.cost = Cost { orbs: 0, cubes: 2, diamonds: 0 };
    cannon_ii.rank_max = 2;
    let mut cannon_i = upgrade("cannon_i");
    cannon_i.cost = Cost { orbs: 0, cubes: 1, diamonds: 0 };
    cannon_i.rank_max = 1;
    let mut e = Economy::new(&vec![]);
    assert!(!e.rank_upgrade(&cannon_ii));
    assert!(e.upgrade_ranks.is_empty());
    e.cubes = 6;
    assert!(e.rank_upgrade(&cannon_ii));
    assert_eq!(e.cubes, 4);
    assert!(e.rank_upgrade(&cannon_i));
    assert_eq!(e.cubes, 3);
    // cannon_i is at its max rank
    assert!(!e.rank_upgrade(&cannon_i));
    assert_eq!(e.cubes, 3);
    assert!(e.rank_upgrade(&cannon_ii));
    assert_eq!(e.cubes, 1);
    assert_eq!(e.upgrade_ranks, vec![("cannon_ii".to_string(), 2), ("cannon_i".to_string(), 1)]);
    // cannon_ii is capped; a fresh node costing more cubes than held is refused
    e.cubes = 10;
    assert!(!e.rank_upgrade(&cannon_ii));
    let mut dear = upgrade("dear");
    dear.cost = Cost { orbs: 0, cubes: 11, diamonds: 0 };
    assert!(!e.rank_upgrade(&dear));
    assert_eq!(e.cubes, 10);
    // a node with no ranks at all never ranks up
    let mut closed = upgrade("closed");
    closed.rank_max = 0;
    assert!(!e.rank_upgrade(&closed));
    assert_eq!(e.upgrade_ranks.len(), 2);
}

#[test]
fn hub_listings() {
    let weapons = vec![weapon("vulture", 3), weapon("arc_weaver", 1), weapon("lance", 3), weapon("mortar", 0)];
    assert_eq!(weapons_by_cost(&weapons), vec![3, 1, 0, 2]);
    let upgrades = vec![upgrade("lance_i"), upgrade("arc_weaver_ii"), upgrade("arc_weaver_i"), upgrade("Zed"), upgrade("lance_i")];
    assert_eq!(upgrades_by_id(&upgrades), vec![3, 2, 1, 0, 4]);
    assert!(text_less(&"ab".to_string(), &"abc".to_string()));
    assert!(!text_less(&"abc".to_string(), &"abc".to_string()));
    assert!(text_less(&"Z".to_string(), &"a".to_string()));
    assert!(text_less(&"é".to_string(), &"😀".to_string()));
    assert!(!text_less(&"b".to_string(), &"a".to_string()));
}
