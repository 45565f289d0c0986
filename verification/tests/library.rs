use lau_consciousness_bridge::identity::{push_decimal, str_le};
use lau_consciousness_bridge::play::reinforcement_for;
use lau_consciousness_bridge::{
    Bridge, BridgeKey, BridgeNetwork, BridgeType, ConsciousnessId, ConsciousnessType, PlayEngine,
    PlayType, STRENGTH_SCALE,
};

fn id(s: &str) -> ConsciousnessId {
    ConsciousnessId(s.to_string())
}

fn sample_bridge(strength: i64, interactions: u64) -> Bridge {
    Bridge {
        id: "b".to_string(),
        from: id("a"),
        to: id("b"),
        bridge_type: BridgeType::Trust,
        strength,
        established_tick: 3,
        interactions,
        last_interaction: 4,
    }
}

#[test]
fn key_is_direction_independent() {
    let a = id("zeta");
    let b = id("alpha");
    let k1 = BridgeKey::new(&a, &b);
    let k2 = BridgeKey::new(&b, &a);
    assert_eq!(k1, k2);
    assert_eq!(k1.a, id("alpha"));
    assert_eq!(k1.b, id("zeta"));
    let k3: BridgeKey = (&a, &b).into();
    assert_eq!(k3, k1);
}

#[test]
fn text_order_is_by_bytes() {
    assert!(str_le("abc", "abd"));
    assert!(str_le("ab", "abc"));
    assert!(!str_le("abc", "ab"));
    assert!(str_le("", ""));
    assert!(str_le("Zebra", "apple"));
    assert!(str_le("z", "\u{e9}"));
    assert!(!str_le("\u{e9}", "z"));
}

#[test]
fn decimal_text() {
    let mut s = String::from("t=");
    push_decimal(&mut s, 0);
    assert_eq!(s, "t=0");
    let mut s = String::new();
    push_decimal(&mut s, 1234567890123);
    assert_eq!(s, "1234567890123");
    let mut s = String::new();
    push_decimal(&mut s, u64::MAX);
    assert_eq!(s, u64::MAX.to_string());
}

#[test]
fn bridge_id_holds_ordered_ends_and_tick() {
    let mut net = BridgeNetwork::new();
    for _ in 0..12 {
        net.advance_tick();
    }
    let r = net.build_bridge(id("bob"), id("alice"), BridgeType::Trust);
    assert_eq!(r, "bridge-alice-bob-12");
    let b = net.get_bridge(&id("alice"), &id("bob")).unwrap();
    assert_eq!(b.id, "bridge-alice-bob-12");
    assert_eq!(b.established_tick, 12);
    assert_eq!(b.last_interaction, 12);
    assert_eq!(b.strength, 500_000_000);
    assert_eq!(b.interactions, 0);
}

#[test]
fn reinforce_clamps_at_zero_and_keeps_identity() {
    let mut b = sample_bridge(300_000_000, 7);
    b.reinforce(-500_000_000);
    assert_eq!(b.strength, 0);
    assert_eq!(b.interactions, 8);
    assert_eq!(b.established_tick, 3);
    assert_eq!(b.last_interaction, 4);
    assert_eq!(b.bridge_type, BridgeType::Trust);
}

#[test]
fn decay_with_negative_rate_raises_strength() {
    let mut b = sample_bridge(900_000_000, 0);
    b.decay(-300_000_000);
    assert_eq!(b.strength, 1_200_000_000);
    assert_eq!(b.interactions, 0);
}

#[test]
fn active_threshold_is_exclusive() {
    let b = sample_bridge(100_000_000, 0);
    assert!(!b.is_active());
    let b = sample_bridge(100_000_001, 0);
    assert!(b.is_active());
}

#[test]
fn register_twice_replaces_kind() {
    let mut net = BridgeNetwork::new();
    net.register(id("x"), ConsciousnessType::Pet);
    net.register(id("y"), ConsciousnessType::Agent);
    net.register(id("x"), ConsciousnessType::Collective);
    assert_eq!(net.consciousness_types.len(), 2);
    assert_eq!(net.consciousness_types.get(&id("x")), Some(&ConsciousnessType::Collective));
    assert_eq!(net.consciousness_types.get(&id("y")), Some(&ConsciousnessType::Agent));
    assert_eq!(net.consciousness_types.get(&id("z")), None);
}

#[test]
fn building_twice_replaces_the_bridge() {
    let mut net = BridgeNetwork::new();
    net.build_bridge(id("a"), id("b"), BridgeType::Play);
    net.interact(&id("a"), &id("b"), 100_000_000);
    net.advance_tick();
    net.build_bridge(id("b"), id("a"), BridgeType::Teaching);
    assert_eq!(net.total_bridges(), 1);
    let b = net.get_bridge(&id("a"), &id("b")).unwrap();
    assert_eq!(b.bridge_type, BridgeType::Teaching);
    assert_eq!(b.strength, 500_000_000);
    assert_eq!(b.interactions, 0);
    assert_eq!(b.id, "bridge-a-b-1");
}

#[test]
fn interact_without_bridge_changes_nothing() {
    let mut net = BridgeNetwork::new();
    net.build_bridge(id("a"), id("b"), BridgeType::Play);
    net.interact(&id("a"), &id("c"), 300_000_000);
    assert_eq!(net.total_bridges(), 1);
    assert_eq!(net.get_bridge(&id("a"), &id("b")).unwrap().strength, 500_000_000);
}

#[test]
fn interact_records_tick() {
    let mut net = BridgeNetwork::new();
    net.build_bridge(id("a"), id("b"), BridgeType::Play);
    net.advance_tick();
    net.advance_tick();
    net.interact(&id("b"), &id("a"), 700_000_000);
    let b = net.get_bridge(&id("a"), &id("b")).unwrap();
    assert_eq!(b.strength, STRENGTH_SCALE);
    assert_eq!(b.last_interaction, 2);
    assert_eq!(b.interactions, 1);
}

#[test]
fn density_rounds_down_and_counts_all_bridges() {
    let mut net = BridgeNetwork::new();
    for name in ["a", "b", "c"] {
        net.register(id(name), ConsciousnessType::Human);
    }
    net.build_bridge(id("a"), id("b"), BridgeType::Play);
    net.build_bridge(id("b"), id("c"), BridgeType::Play);
    assert_eq!(net.network_density(), 666_666_666);
    net.build_bridge(id("a"), id("c"), BridgeType::Play);
    net.build_bridge(id("a"), id("outsider"), BridgeType::Play);
    assert_eq!(net.network_density(), 1_333_333_333);
}

#[test]
fn clusters_follow_registration_and_include_unregistered_ends() {
    let mut net = BridgeNetwork::new();
    net.register(id("d"), ConsciousnessType::Human);
    net.register(id("a"), ConsciousnessType::Human);
    net.register(id("c"), ConsciousnessType::Human);
    net.build_bridge(id("a"), id("ghost"), BridgeType::Play);
    net.build_bridge(id("ghost"), id("d"), BridgeType::Play);
    let clusters = net.clusters();
    assert_eq!(clusters.len(), 2);
    assert_eq!(clusters[0][0], id("d"));
    assert_eq!(clusters[0].len(), 3);
    assert!(clusters[0].contains(&id("ghost")));
    assert!(clusters[0].contains(&id("a")));
    assert_eq!(clusters[1], vec![id("c")]);
}

#[test]
fn bridge_path_is_shortest() {
    let mut net = BridgeNetwork::new();
    // a - b - c - d - e and a shortcut a - x - e
    net.build_bridge(id("a"), id("b"), BridgeType::Play);
    net.build_bridge(id("b"), id("c"), BridgeType::Play);
    net.build_bridge(id("c"), id("d"), BridgeType::Play);
    net.build_bridge(id("d"), id("e"), BridgeType::Play);
    net.build_bridge(id("x"), id("a"), BridgeType::Play);
    net.build_bridge(id("e"), id("x"), BridgeType::Play);
    let p = net.bridge_path(&id("a"), &id("e")).unwrap();
    assert_eq!(p, vec![id("a"), id("x"), id("e")]);
    let back = net.bridge_path(&id("e"), &id("a")).unwrap();
    assert_eq!(back.len(), 3);
    let p = net.bridge_path(&id("b"), &id("d")).unwrap();
    assert_eq!(p, vec![id("b"), id("c"), id("d")]);
    assert!(net.bridge_path(&id("a"), &id("nobody")).is_none());
}

#[test]
fn strongest_bridge_picks_maximum() {
    let mut net = BridgeNetwork::new();
    net.build_bridge(id("a"), id("b"), BridgeType::Play);
    net.build_bridge(id("a"), id("c"), BridgeType::Trust);
    net.build_bridge(id("d"), id("c"), BridgeType::Play);
    net.interact(&id("c"), &id("a"), 50_000_000);
    net.interact(&id("c"), &id("d"), 400_000_000);
    let s = net.strongest_bridge(&id("a")).unwrap();
    assert_eq!(s.bridge_type, BridgeType::Trust);
    assert!(net.strongest_bridge(&id("z")).is_none());
    assert_eq!(net.bridges_for(&id("c")).len(), 2);
    assert_eq!(net.active_bridges(), 3);
}

#[test]
fn reinforcement_formula() {
    assert_eq!(reinforcement_for(1_000_000_000), 400_000_000);
    assert_eq!(reinforcement_for(500_000_000), 250_000_000);
    assert_eq!(reinforcement_for(0), 100_000_000);
    assert_eq!(reinforcement_for(-1_000_000_000), -200_000_000);
    assert_eq!(reinforcement_for(7), 100_000_002);
    assert_eq!(reinforcement_for(-7), 99_999_998);
}

#[test]
fn play_with_repeated_participant_reinforces_twice() {
    let mut engine = PlayEngine::new();
    engine.play(vec![id("a"), id("b"), id("a")], PlayType::Dancing, 0, None);
    // pairs (a,b), (a,a), (b,a): a-b twice, a-a once
    assert_eq!(engine.network.total_bridges(), 2);
    let ab = engine.network.get_bridge(&id("b"), &id("a")).unwrap();
    assert_eq!(ab.interactions, 2);
    assert_eq!(ab.strength, 700_000_000);
    let aa = engine.network.get_bridge(&id("a"), &id("a")).unwrap();
    assert_eq!(aa.interactions, 1);
    assert_eq!(aa.strength, 600_000_000);
}

#[test]
fn most_playful_counts_events_not_listings() {
    let mut engine = PlayEngine::new();
    engine.play(vec![id("x"), id("x"), id("x")], PlayType::Dancing, 0, None);
    engine.play(vec![id("y")], PlayType::Dancing, 0, None);
    engine.play(vec![id("y")], PlayType::Dancing, 0, None);
    assert_eq!(engine.most_playful(), Some(id("y")));
    assert_eq!(engine.play_history_for(&id("x")).len(), 1);
    assert_eq!(engine.play_history_for(&id("y")).len(), 2);
}

#[test]
fn play_keeps_type_of_existing_bridge() {
    let mut engine = PlayEngine::new();
    engine.network.build_bridge(id("a"), id("b"), BridgeType::Teaching);
    engine.play(vec![id("b"), id("a")], PlayType::Building, 1_000_000_000, Some("x".to_string()));
    let b = engine.network.get_bridge(&id("a"), &id("b")).unwrap();
    assert_eq!(b.bridge_type, BridgeType::Teaching);
    assert_eq!(b.strength, 900_000_000);
    assert!(engine.strongest_play_bond().is_none());
    assert_eq!(engine.play_history[0].tick, 0);
    assert_eq!(engine.play_history[0].discovery, Some("x".to_string()));
}

#[test]
fn play_with_negative_joy_weakens() {
    let mut engine = PlayEngine::new();
    engine.play(vec![id("a"), id("b")], PlayType::Exploration, -3_000_000_000, None);
    let b = engine.network.get_bridge(&id("a"), &id("b")).unwrap();
    assert_eq!(b.strength, 0);
    assert_eq!(b.bridge_type, BridgeType::Play);
}

#[test]
fn strongest_play_bond_is_ordered_pair() {
    let mut engine = PlayEngine::new();
    engine.play(vec![id("zed"), id("amy")], PlayType::Dancing, 500_000_000, None);
    engine.play(vec![id("bo"), id("cy")], PlayType::Dancing, 0, None);
    assert_eq!(engine.strongest_play_bond(), Some((id("amy"), id("zed"))));
}

#[test]
fn history_queries() {
    let mut engine = PlayEngine::new();
    assert!(engine.most_playful().is_none());
    engine.play(vec![], PlayType::Dancing, 200_000_000, Some("alone".to_string()));
    assert!(engine.most_playful().is_none());
    engine.play(vec![id("a"), id("b")], PlayType::Dancing, -900_000_000, None);
    engine.play(vec![id("b")], PlayType::Dancing, 0, Some("solo".to_string()));
    assert_eq!(engine.discoveries(), vec!["alone", "solo"]);
    assert_eq!(engine.play_history_for(&id("b")).len(), 2);
    assert_eq!(engine.play_history_for(&id("q")).len(), 0);
    assert_eq!(engine.most_playful(), Some(id("b")));
    // (0.2 - 0.9 + 0) / 3 = -0.2333..., toward zero
    assert_eq!(engine.joy_average(), -233_333_333);
}

#[test]
fn parts_roundtrip() {
    let mut engine = PlayEngine::new();
    engine.register_consciousness(id("a"), ConsciousnessType::Human);
    engine.register_consciousness(id("b"), ConsciousnessType::Agent);
    engine.play(vec![id("a"), id("b"), id("c")], PlayType::Building, 700_000_000, None);
    engine.network.advance_tick();
    let net = &engine.network;
    let rebuilt = BridgeNetwork::from_parts(
        net.bridges().clone(),
        net.registry().entries().clone(),
        net.tick,
    );
    assert_eq!(rebuilt.total_bridges(), 3);
    assert_eq!(rebuilt.tick, 1);
    assert_eq!(rebuilt.consciousness_types.len(), 2);
    for b in net.bridges() {
        let r = rebuilt.get_bridge(&b.from, &b.to).unwrap();
        assert_eq!(r.id, b.id);
        assert_eq!(r.strength, b.strength);
    }
}

#[test]
fn from_parts_keeps_last_of_same_pair() {
    let mut first = sample_bridge(100, 1);
    first.id = "first".to_string();
    let mut second = sample_bridge(200, 2);
    second.id = "second".to_string();
    second.from = id("b");
    second.to = id("a");
    let net = BridgeNetwork::from_parts(
        vec![first, second],
        vec![(id("a"), ConsciousnessType::Pet), (id("a"), ConsciousnessType::Tutor)],
        5,
    );
    assert_eq!(net.total_bridges(), 1);
    assert_eq!(net.get_bridge(&id("a"), &id("b")).unwrap().id, "second");
    assert_eq!(net.consciousness_types.len(), 1);
    assert_eq!(net.consciousness_types.get(&id("a")), Some(&ConsciousnessType::Tutor));
}

#[test]
fn engine_clones() {
    let mut engine = PlayEngine::new();
    engine.play(vec![id("a"), id("b")], PlayType::Storytelling, 500_000_000, Some("tale".to_string()));
    let copy = engine.clone();
    assert_eq!(copy.play_history.len(), 1);
    assert_eq!(copy.network.total_bridges(), 1);
    assert_eq!(copy.discoveries(), vec!["tale"]);
    let ev = engine.play_history[0].clone();
    assert_eq!(ev.participants, vec![id("a"), id("b")]);
}

#[test]
fn play_near_full_counter() {
    let mut engine = PlayEngine::new();
    engine.network.build_bridge(id("a"), id("b"), BridgeType::Trust);
    engine.network.bridges[0].interactions = u64::MAX - 1;
    engine.play(vec![id("a"), id("b")], PlayType::Dancing, 0, None);
    let b = engine.network.get_bridge(&id("a"), &id("b")).unwrap();
    assert_eq!(b.interactions, u64::MAX);
    assert_eq!(b.strength, 600_000_000);
}
