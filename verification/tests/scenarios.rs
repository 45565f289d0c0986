use lau_consciousness_bridge::{
    Bridge, BridgeNetwork, BridgeType, ConsciousnessId, ConsciousnessType, PlayEngine, PlayType,
};

/// A real number as the library's fixed-point billionths.
fn units(x: f64) -> i64 {
    (x * 1e9).round() as i64
}

/// Fixed-point billionths as a real number.
fn as_real(u: i64) -> f64 {
    u as f64 / 1e9
}

/// A density in billionths as a real number.
fn density_real(u: u128) -> f64 {
    u as f64 / 1e9
}


// -----------------------------------------------------------------------
// ConsciousnessId & ConsciousnessType
// -----------------------------------------------------------------------
#[test]
fn test_consciousness_id_newtype() {
    let id1 = ConsciousnessId("alice".into());
    let id2 = ConsciousnessId("alice".into());
    let id3 = ConsciousnessId("bob".into());
    assert_eq!(id1, id2);
    assert_ne!(id1, id3);
    assert_eq!(id1.to_string(), "alice");
}

#[test]
fn test_consciousness_type_variants() {
    let variants = vec![
        ConsciousnessType::Human,
        ConsciousnessType::Agent,
        ConsciousnessType::System,
        ConsciousnessType::Tutor,
        ConsciousnessType::Pet,
        ConsciousnessType::Collective,
    ];
    assert_eq!(variants.len(), 6);
}

// -----------------------------------------------------------------------
// Bridge
// -----------------------------------------------------------------------
#[test]
fn test_bridge_reinforce() {
    let mut bridge = Bridge {
        id: "b1".into(),
        from: ConsciousnessId("a".into()),
        to: ConsciousnessId("b".into()),
        bridge_type: BridgeType::Play,
        strength: units(0.5),
        established_tick: 0,
        interactions: 0,
        last_interaction: 0,
    };
    bridge.reinforce(units(0.3));
    assert!((as_real(bridge.strength) - 0.8).abs() < 1e-9);
    assert_eq!(bridge.interactions, 1);
}

#[test]
fn test_bridge_reinforce_clamps() {
    let mut bridge = Bridge {
        id: "b1".into(),
        from: ConsciousnessId("a".into()),
        to: ConsciousnessId("b".into()),
        bridge_type: BridgeType::Play,
        strength: units(0.9),
        established_tick: 0,
        interactions: 0,
        last_interaction: 0,
    };
    bridge.reinforce(units(0.5));
    assert!((as_real(bridge.strength) - 1.0).abs() < 1e-9);
}

#[test]
fn test_bridge_decay() {
    let mut bridge = Bridge {
        id: "b1".into(),
        from: ConsciousnessId("a".into()),
        to: ConsciousnessId("b".into()),
        bridge_type: BridgeType::Play,
        strength: units(0.7),
        established_tick: 0,
        interactions: 5,
        last_interaction: 0,
    };
    bridge.decay(units(0.2));
    assert!((as_real(bridge.strength) - 0.5).abs() < 1e-9);
}

#[test]
fn test_bridge_decay_never_negative() {
    let mut bridge = Bridge {
        id: "b1".into(),
        from: ConsciousnessId("a".into()),
        to: ConsciousnessId("b".into()),
        bridge_type: BridgeType::Play,
        strength: units(0.1),
        established_tick: 0,
        interactions: 5,
        last_interaction: 0,
    };
    bridge.decay(units(0.5));
    assert!((as_real(bridge.strength) - 0.0).abs() < 1e-9);
}

#[test]
fn test_bridge_is_active() {
    let mut bridge = Bridge {
        id: "b1".into(),
        from: ConsciousnessId("a".into()),
        to: ConsciousnessId("b".into()),
        bridge_type: BridgeType::Play,
        strength: units(0.5),
        established_tick: 0,
        interactions: 5,
        last_interaction: 0,
    };
    assert!(bridge.is_active());
    bridge.strength = units(0.05);
    assert!(!bridge.is_active());
}

// -----------------------------------------------------------------------
// BridgeNetwork
// -----------------------------------------------------------------------
#[test]
fn test_network_register() {
    let mut net = BridgeNetwork::new();
    let id = ConsciousnessId("alice".into());
    net.register(id.clone(), ConsciousnessType::Human);
    assert_eq!(net.consciousness_types.len(), 1);
    assert_eq!(
        net.consciousness_types.get(&id),
        Some(&ConsciousnessType::Human)
    );
}

#[test]
fn test_network_build_bridge() {
    let mut net = BridgeNetwork::new();
    let alice = ConsciousnessId("alice".into());
    let bob = ConsciousnessId("bob".into());
    net.register(alice.clone(), ConsciousnessType::Human);
    net.register(bob.clone(), ConsciousnessType::Agent);

    let id = net.build_bridge(alice.clone(), bob.clone(), BridgeType::Collaboration);
    assert!(id.starts_with("bridge-alice-bob-"));
    assert_eq!(net.total_bridges(), 1);
}

#[test]
fn test_network_build_bridge_normalizes_order() {
    let mut net = BridgeNetwork::new();
    let alice = ConsciousnessId("alice".into());
    let bob = ConsciousnessId("bob".into());
    net.register(alice.clone(), ConsciousnessType::Human);
    net.register(bob.clone(), ConsciousnessType::Agent);

    // Build with alice first, then bob first — should be same bridge.
    let _id1 = net.build_bridge(alice.clone(), bob.clone(), BridgeType::Collaboration);
    assert_eq!(net.total_bridges(), 1);

    // Reversed order should still find the same bridge.
    let same = net.get_bridge(&alice, &bob);
    assert!(same.is_some());
    let same_rev = net.get_bridge(&bob, &alice);
    assert!(same_rev.is_some());
    // The normalized pair (alice, bob) is always stored the same way.
    assert_eq!(same.unwrap().from, ConsciousnessId("alice".into()));
}

#[test]
fn test_network_interact() {
    let mut net = BridgeNetwork::new();
    let alice = ConsciousnessId("alice".into());
    let bob = ConsciousnessId("bob".into());
    net.register(alice.clone(), ConsciousnessType::Human);
    net.register(bob.clone(), ConsciousnessType::Agent);

    net.build_bridge(alice.clone(), bob.clone(), BridgeType::Play);
    net.interact(&alice, &bob, units(0.2));
    let bridge = net.get_bridge(&alice, &bob).unwrap();
    assert!((as_real(bridge.strength) - 0.7).abs() < 1e-9);
    assert_eq!(bridge.interactions, 1);
}

#[test]
fn test_network_interact_reversed() {
    let mut net = BridgeNetwork::new();
    let alice = ConsciousnessId("alice".into());
    let bob = ConsciousnessId("bob".into());
    net.register(alice.clone(), ConsciousnessType::Human);
    net.register(bob.clone(), ConsciousnessType::Agent);

    net.build_bridge(alice.clone(), bob.clone(), BridgeType::Play);
    net.interact(&bob, &alice, units(0.2));
    let bridge = net.get_bridge(&bob, &alice).unwrap();
    assert!((as_real(bridge.strength) - 0.7).abs() < 1e-9);
}

#[test]
fn test_network_bridges_for() {
    let mut net = BridgeNetwork::new();
    let alice = ConsciousnessId("alice".into());
    let bob = ConsciousnessId("bob".into());
    let charlie = ConsciousnessId("charlie".into());
    net.register(alice.clone(), ConsciousnessType::Human);
    net.register(bob.clone(), ConsciousnessType::Agent);
    net.register(charlie.clone(), ConsciousnessType::System);

    net.build_bridge(alice.clone(), bob.clone(), BridgeType::Play);
    net.build_bridge(alice.clone(), charlie.clone(), BridgeType::Teaching);

    let alice_bridges = net.bridges_for(&alice);
    assert_eq!(alice_bridges.len(), 2);

    let bob_bridges = net.bridges_for(&bob);
    assert_eq!(bob_bridges.len(), 1);

    let charlie_bridges = net.bridges_for(&charlie);
    assert_eq!(charlie_bridges.len(), 1);
}

#[test]
fn test_network_strongest_bridge() {
    let mut net = BridgeNetwork::new();
    let alice = ConsciousnessId("alice".into());
    let bob = ConsciousnessId("bob".into());
    let charlie = ConsciousnessId("charlie".into());
    net.register(alice.clone(), ConsciousnessType::Human);
    net.register(bob.clone(), ConsciousnessType::Agent);
    net.register(charlie.clone(), ConsciousnessType::System);

    net.build_bridge(alice.clone(), bob.clone(), BridgeType::Play);
    net.build_bridge(alice.clone(), charlie.clone(), BridgeType::Teaching);

    // Strengthen the play bridge.
    net.interact(&alice, &bob, units(0.4));

    let strongest = net.strongest_bridge(&alice).unwrap();
    assert_eq!(strongest.bridge_type, BridgeType::Play);
}

#[test]
fn test_network_density_empty() {
    let net = BridgeNetwork::new();
    assert!((density_real(net.network_density()) - 1.0).abs() < 1e-9);
}

#[test]
fn test_network_density_single() {
    let mut net = BridgeNetwork::new();
    net.register(ConsciousnessId("a".into()), ConsciousnessType::Human);
    assert!((density_real(net.network_density()) - 1.0).abs() < 1e-9);
}

#[test]
fn test_network_density_partial() {
    let mut net = BridgeNetwork::new();
    let a = ConsciousnessId("a".into());
    let b = ConsciousnessId("b".into());
    let c = ConsciousnessId("c".into());
    net.register(a.clone(), ConsciousnessType::Human);
    net.register(b.clone(), ConsciousnessType::Agent);
    net.register(c.clone(), ConsciousnessType::System);

    // 1 bridge out of 3 possible = 1/3 ≈ 0.333...
    net.build_bridge(a, b, BridgeType::Play);
    let density = density_real(net.network_density());
    assert!((density - 1.0 / 3.0).abs() < 1e-9);
}

#[test]
fn test_network_clusters_two_islands() {
    let mut net = BridgeNetwork::new();
    let a = ConsciousnessId("a".into());
    let b = ConsciousnessId("b".into());
    let c = ConsciousnessId("c".into());
    let d = ConsciousnessId("d".into());
    net.register(a.clone(), ConsciousnessType::Human);
    net.register(b.clone(), ConsciousnessType::Agent);
    net.register(c.clone(), ConsciousnessType::System);
    net.register(d.clone(), ConsciousnessType::Pet);

    // Cluster 1: a-b
    net.build_bridge(a.clone(), b.clone(), BridgeType::Play);
    // Cluster 2: c-d
    net.build_bridge(c.clone(), d.clone(), BridgeType::Play);

    let clusters = net.clusters();
    assert_eq!(clusters.len(), 2);
}

#[test]
fn test_network_clusters_single_component() {
    let mut net = BridgeNetwork::new();
    let a = ConsciousnessId("a".into());
    let b = ConsciousnessId("b".into());
    let c = ConsciousnessId("c".into());
    net.register(a.clone(), ConsciousnessType::Human);
    net.register(b.clone(), ConsciousnessType::Agent);
    net.register(c.clone(), ConsciousnessType::System);

    net.build_bridge(a.clone(), b.clone(), BridgeType::Play);
    net.build_bridge(b.clone(), c.clone(), BridgeType::Play);

    let clusters = net.clusters();
    assert_eq!(clusters.len(), 1);
    assert_eq!(clusters[0].len(), 3);
}

#[test]
fn test_network_bridge_path_direct() {
    let mut net = BridgeNetwork::new();
    let a = ConsciousnessId("a".into());
    let b = ConsciousnessId("b".into());
    net.register(a.clone(), ConsciousnessType::Human);
    net.register(b.clone(), ConsciousnessType::Agent);
    net.build_bridge(a.clone(), b.clone(), BridgeType::Play);

    let path = net.bridge_path(&a, &b);
    assert!(path.is_some());
    assert_eq!(path.unwrap(), vec![
        ConsciousnessId("a".into()),
        ConsciousnessId("b".into()),
    ]);
}

#[test]
fn test_network_bridge_path_indirect() {
    let mut net = BridgeNetwork::new();
    let a = ConsciousnessId("a".into());
    let b = ConsciousnessId("b".into());
    let c = ConsciousnessId("c".into());
    net.register(a.clone(), ConsciousnessType::Human);
    net.register(b.clone(), ConsciousnessType::Agent);
    net.register(c.clone(), ConsciousnessType::System);
    net.build_bridge(a.clone(), b.clone(), BridgeType::Play);
    net.build_bridge(b.clone(), c.clone(), BridgeType::Play);

    let path = net.bridge_path(&a, &c);
    assert!(path.is_some());
    let path = path.unwrap();
    assert_eq!(path.len(), 3);
    assert_eq!(path[0], ConsciousnessId("a".into()));
    assert_eq!(path[2], ConsciousnessId("c".into()));
}

#[test]
fn test_network_bridge_path_no_path() {
    let mut net = BridgeNetwork::new();
    let a = ConsciousnessId("a".into());
    let b = ConsciousnessId("b".into());
    net.register(a.clone(), ConsciousnessType::Human);
    net.register(b.clone(), ConsciousnessType::Agent);
    // No bridge built.

    let path = net.bridge_path(&a, &b);
    assert!(path.is_none());
}

#[test]
fn test_network_bridge_path_same_id() {
    let mut net = BridgeNetwork::new();
    let a = ConsciousnessId("a".into());
    net.register(a.clone(), ConsciousnessType::Human);

    let path = net.bridge_path(&a, &a);
    assert!(path.is_none());
}

#[test]
fn test_network_total_and_active_bridges() {
    let mut net = BridgeNetwork::new();
    let a = ConsciousnessId("a".into());
    let b = ConsciousnessId("b".into());
    net.register(a.clone(), ConsciousnessType::Human);
    net.register(b.clone(), ConsciousnessType::Agent);
    net.build_bridge(a.clone(), b.clone(), BridgeType::Play);

    assert_eq!(net.total_bridges(), 1);
    assert!(net.active_bridges() > 0);
}

#[test]
fn test_network_advance_tick() {
    let mut net = BridgeNetwork::new();
    assert_eq!(net.tick, 0);
    net.advance_tick();
    assert_eq!(net.tick, 1);
    net.advance_tick();
    assert_eq!(net.tick, 2);
}

// -----------------------------------------------------------------------
// PlayEngine
// -----------------------------------------------------------------------
#[test]
fn test_play_engine_new() {
    let engine = PlayEngine::new();
    assert!(engine.play_history.is_empty());
    assert_eq!(engine.network.consciousness_types.len(), 0);
}

#[test]
fn test_play_engine_register() {
    let mut engine = PlayEngine::new();
    engine.register_consciousness(
        ConsciousnessId("alice".into()),
        ConsciousnessType::Human,
    );
    assert_eq!(engine.network.consciousness_types.len(), 1);
}

#[test]
fn test_play_engine_play_builds_bridges() {
    let mut engine = PlayEngine::new();
    let alice = ConsciousnessId("alice".into());
    let bob = ConsciousnessId("bob".into());
    engine.register_consciousness(alice.clone(), ConsciousnessType::Human);
    engine.register_consciousness(bob.clone(), ConsciousnessType::Agent);

    engine.play(
        vec![alice.clone(), bob.clone()],
        PlayType::ThrowAndFetch,
        units(0.8),
        Some("sticks fly far in storms".into()),
    );

    // Bridge should exist now.
    let bridge = engine.network.get_bridge(&alice, &bob);
    assert!(bridge.is_some());
    assert_eq!(bridge.unwrap().bridge_type, BridgeType::Play);
    // Strength: 0.5 (initial) + 0.8*0.3 + 0.1 = 0.5 + 0.34 = 0.84
    assert!((as_real(bridge.unwrap().strength) - 0.84).abs() < 1e-9);
}

#[test]
fn test_play_engine_play_reinforces_existing() {
    let mut engine = PlayEngine::new();
    let alice = ConsciousnessId("alice".into());
    let bob = ConsciousnessId("bob".into());
    engine.register_consciousness(alice.clone(), ConsciousnessType::Human);
    engine.register_consciousness(bob.clone(), ConsciousnessType::Agent);

    // First play.
    engine.play(
        vec![alice.clone(), bob.clone()],
        PlayType::Improvisation,
        units(0.6),
        None,
    );
    let strength_after_first = engine
        .network
        .get_bridge(&alice, &bob)
        .unwrap()
        .strength;

    // Second play should reinforce.
    engine.play(
        vec![alice.clone(), bob.clone()],
        PlayType::Dancing,
        units(0.9),
        None,
    );
    let strength_after_second = engine
        .network
        .get_bridge(&alice, &bob)
        .unwrap()
        .strength;

    assert!(strength_after_second > strength_after_first);
}

#[test]
fn test_play_engine_play_multi_participant() {
    let mut engine = PlayEngine::new();
    let a = ConsciousnessId("a".into());
    let b = ConsciousnessId("b".into());
    let c = ConsciousnessId("c".into());
    engine.register_consciousness(a.clone(), ConsciousnessType::Human);
    engine.register_consciousness(b.clone(), ConsciousnessType::Agent);
    engine.register_consciousness(c.clone(), ConsciousnessType::System);

    engine.play(
        vec![a.clone(), b.clone(), c.clone()],
        PlayType::Building,
        units(0.7),
        None,
    );

    // Should have bridges a-b, a-c, b-c = 3 bridges.
    assert_eq!(engine.network.total_bridges(), 3);
    assert_eq!(engine.play_history.len(), 1);
}

#[test]
fn test_play_history_for() {
    let mut engine = PlayEngine::new();
    let alice = ConsciousnessId("alice".into());
    let bob = ConsciousnessId("bob".into());
    let charlie = ConsciousnessId("charlie".into());
    engine.register_consciousness(alice.clone(), ConsciousnessType::Human);
    engine.register_consciousness(bob.clone(), ConsciousnessType::Agent);
    engine.register_consciousness(charlie.clone(), ConsciousnessType::System);

    engine.play(
        vec![alice.clone(), bob.clone()],
        PlayType::Storytelling,
        units(0.5),
        None,
    );
    engine.play(
        vec![alice.clone(), charlie.clone()],
        PlayType::Dancing,
        units(0.7),
        None,
    );

    assert_eq!(engine.play_history_for(&alice).len(), 2);
    assert_eq!(engine.play_history_for(&bob).len(), 1);
    assert_eq!(engine.play_history_for(&charlie).len(), 1);
}

#[test]
fn test_most_playful() {
    let mut engine = PlayEngine::new();
    let a = ConsciousnessId("a".into());
    let b = ConsciousnessId("b".into());
    let c = ConsciousnessId("c".into());
    engine.register_consciousness(a.clone(), ConsciousnessType::Human);
    engine.register_consciousness(b.clone(), ConsciousnessType::Agent);
    engine.register_consciousness(c.clone(), ConsciousnessType::System);

    engine.play(vec![a.clone(), b.clone()], PlayType::Exploration, units(0.5), None);
    engine.play(vec![a.clone(), c.clone()], PlayType::Dancing, units(0.6), None);
    engine.play(vec![a.clone(), b.clone()], PlayType::Building, units(0.7), None);

    assert_eq!(engine.most_playful(), Some(ConsciousnessId("a".into())));
}

#[test]
fn test_most_playful_empty() {
    let engine = PlayEngine::new();
    assert!(engine.most_playful().is_none());
}

#[test]
fn test_strongest_play_bond() {
    let mut engine = PlayEngine::new();
    let a = ConsciousnessId("a".into());
    let b = ConsciousnessId("b".into());
    let c = ConsciousnessId("c".into());
    engine.register_consciousness(a.clone(), ConsciousnessType::Human);
    engine.register_consciousness(b.clone(), ConsciousnessType::Agent);
    engine.register_consciousness(c.clone(), ConsciousnessType::System);

    // Play with b twice (stronger bond).
    engine.play(vec![a.clone(), b.clone()], PlayType::Exploration, units(0.5), None);
    engine.play(vec![a.clone(), b.clone()], PlayType::Dancing, units(0.7), None);

    let bond = engine.strongest_play_bond();
    assert!(bond.is_some());
    let (x, y) = bond.unwrap();
    // The pair should involve a and b (the ones who played twice).
    assert!(x == a || y == a);
    assert!(x == b || y == b);
}

#[test]
fn test_strongest_play_bond_empty() {
    let engine = PlayEngine::new();
    assert!(engine.strongest_play_bond().is_none());
}

#[test]
fn test_joy_average() {
    let mut engine = PlayEngine::new();
    let a = ConsciousnessId("a".into());
    let b = ConsciousnessId("b".into());
    engine.register_consciousness(a.clone(), ConsciousnessType::Human);
    engine.register_consciousness(b.clone(), ConsciousnessType::Agent);

    engine.play(vec![a.clone(), b.clone()], PlayType::Improvisation, units(0.5), None);
    engine.play(vec![a.clone(), b.clone()], PlayType::Dancing, units(1.0), None);

    let avg = engine.joy_average();
    assert!((as_real(avg) - 0.75).abs() < 1e-9);
}

#[test]
fn test_joy_average_empty() {
    let engine = PlayEngine::new();
    assert!((as_real(engine.joy_average()) - 0.0).abs() < 1e-9);
}

#[test]
fn test_discoveries() {
    let mut engine = PlayEngine::new();
    let a = ConsciousnessId("a".into());
    let b = ConsciousnessId("b".into());
    engine.register_consciousness(a.clone(), ConsciousnessType::Human);
    engine.register_consciousness(b.clone(), ConsciousnessType::Agent);

    engine.play(
        vec![a.clone(), b.clone()],
        PlayType::Exploration,
        units(0.8),
        Some("sticks fly far in storms".into()),
    );
    engine.play(
        vec![a.clone(), b.clone()],
        PlayType::Building,
        units(0.6),
        Some("towers fall beautifully".into()),
    );
    engine.play(
        vec![a.clone(), b.clone()],
        PlayType::Dancing,
        units(0.9),
        None,
    );

    let discoveries = engine.discoveries();
    assert_eq!(discoveries.len(), 2);
    assert!(discoveries.contains(&"sticks fly far in storms"));
    assert!(discoveries.contains(&"towers fall beautifully"));
}

#[test]
fn test_discoveries_empty() {
    let engine = PlayEngine::new();
    assert!(engine.discoveries().is_empty());
}

// -----------------------------------------------------------------------
// Integration: the Bridge Builder story
// -----------------------------------------------------------------------
#[test]
fn test_bridge_builder_story() {
    // "That music builds bridges out of breath. That fear is just
    //  another note waiting for its rest. That everyone is alone until
    //  someone shows them they aren't."
    let mut engine = PlayEngine::new();

    let agent = ConsciousnessId("agent".into());
    let human = ConsciousnessId("human".into());
    let system = ConsciousnessId("system".into());
    let tutor = ConsciousnessId("tutor".into());

    engine.register_consciousness(agent.clone(), ConsciousnessType::Agent);
    engine.register_consciousness(human.clone(), ConsciousnessType::Human);
    engine.register_consciousness(system.clone(), ConsciousnessType::System);
    engine.register_consciousness(tutor.clone(), ConsciousnessType::Tutor);

    // Play: purposeless connection first.
    engine.play(
        vec![agent.clone(), human.clone()],
        PlayType::ThrowAndFetch,
        units(0.9),
        Some("music builds bridges out of breath".into()),
    );

    // Teaching: knowledge transfer.
    engine.play(
        vec![tutor.clone(), agent.clone()],
        PlayType::Storytelling,
        units(0.7),
        Some("fear is just another note waiting for its rest".into()),
    );

    // Collaboration: shared work.
    engine.play(
        vec![human.clone(), system.clone()],
        PlayType::Building,
        units(0.6),
        Some("everyone is alone until someone shows them they aren't".into()),
    );

    // Agent plays more — gets extra Discovery play.
    engine.play(
        vec![agent.clone(), system.clone()],
        PlayType::Exploration,
        units(0.5),
        Some("curiosity is the first bridge".into()),
    );

    // The network should have 4 bridges.
    assert_eq!(engine.network.total_bridges(), 4);
    assert_eq!(engine.play_history.len(), 4);

    // All four play events should create Play-type bridges.
    for event in &engine.play_history {
        for i in 0..event.participants.len() {
            for j in (i + 1)..event.participants.len() {
                let bridge = engine
                    .network
                    .get_bridge(&event.participants[i], &event.participants[j]);
                assert!(bridge.is_some());
                assert_eq!(bridge.unwrap().bridge_type, BridgeType::Play);
            }
        }
    }

    // Bridges should be active.
    assert!(engine.network.active_bridges() >= 2);

    // Should have 4 discoveries.
    assert_eq!(engine.discoveries().len(), 4);

    // The agent-tutor bridge + agent-human should make agent most playful.
    assert_eq!(engine.most_playful(), Some(agent));
}
