use abiogenesis::particles::colour::ParticleColour;
use abiogenesis::particles::particle::{ParticleIndex, MAX_PARTICLES};
use abiogenesis::particles::spawner::{
    respawn_colours, should_recolour, OldestParticle, ParticleAssets, SpawnAction, SpawnerConfig,
};

#[test]
fn particle_index_records_until_full() {
    let mut index = ParticleIndex::new();
    for e in 0..MAX_PARTICLES as u64 {
        assert!(index.on_add(e));
    }
    assert_eq!(index.0.len(), MAX_PARTICLES);
    assert!(!index.on_add(99_999));
    assert_eq!(index.0.len(), MAX_PARTICLES);
    assert!(!index.0.contains(&99_999));
}

#[test]
fn particle_index_removes_first_occurrence() {
    let mut index = ParticleIndex(vec![7, 8, 9, 8]);
    assert_eq!(index.on_remove(8), Some(1));
    assert_eq!(index.0, vec![7, 9, 8]);
    assert_eq!(index.on_remove(5), None);
    assert_eq!(index.0, vec![7, 9, 8]);
}

#[test]
fn particle_index_add_then_remove_restores() {
    let mut index = ParticleIndex(vec![3, 1, 4]);
    assert!(index.on_add(5));
    assert_eq!(index.on_remove(5), Some(3));
    assert_eq!(index.0, vec![3, 1, 4]);
}

#[test]
fn colours_are_dealt_in_turn() {
    assert_eq!(ParticleColour::from_cycle(0, 6), ParticleColour::Red);
    assert_eq!(ParticleColour::from_cycle(1, 6), ParticleColour::Green);
    assert_eq!(ParticleColour::from_cycle(2, 6), ParticleColour::Blue);
    assert_eq!(ParticleColour::from_cycle(3, 6), ParticleColour::Orange);
    assert_eq!(ParticleColour::from_cycle(4, 6), ParticleColour::Pink);
    assert_eq!(ParticleColour::from_cycle(5, 6), ParticleColour::Aqua);
    assert_eq!(ParticleColour::from_cycle(7, 3), ParticleColour::Green);
    assert_eq!(ParticleColour::from_cycle(9, 1), ParticleColour::Red);
}

#[test]
fn respawn_colours_cycle_through_the_colours() {
    let colours = respawn_colours(3);
    assert_eq!(colours.len(), MAX_PARTICLES);
    assert_eq!(
        &colours[..5],
        &[
            ParticleColour::Red,
            ParticleColour::Green,
            ParticleColour::Blue,
            ParticleColour::Red,
            ParticleColour::Green
        ]
    );
    assert!(respawn_colours(1).iter().all(|c| *c == ParticleColour::Red));
    assert_eq!(respawn_colours(6)[2999], ParticleColour::Aqua);
    assert_eq!(respawn_colours(6)[2998], ParticleColour::Pink);
}

#[test]
fn spawner_config_picks_the_first_shape_of_a_colour() {
    let config = SpawnerConfig::Custom(vec![
        (ParticleColour::Blue, "ring"),
        (ParticleColour::Red, "square"),
        (ParticleColour::Blue, "disc"),
    ]);
    assert_eq!(config.shape_for(ParticleColour::Blue), Some(&"ring"));
    assert_eq!(config.shape_for(ParticleColour::Red), Some(&"square"));
    assert_eq!(config.shape_for(ParticleColour::Aqua), None);
    let uniform: SpawnerConfig<&str> = SpawnerConfig::default();
    assert!(matches!(uniform, SpawnerConfig::Uniform));
    assert_eq!(uniform.shape_for(ParticleColour::Red), None);
    let unset: SpawnerConfig<&str> = SpawnerConfig::Unset;
    assert_eq!(unset.shape_for(ParticleColour::Red), None);
}

#[test]
fn materials_follow_the_colour() {
    let assets = ParticleAssets {
        mesh: "circle",
        red: String::from("red"),
        green: String::from("green"),
        blue: String::from("blue"),
        orange: String::from("orange"),
        pink: String::from("pink"),
        aqua: String::from("aqua"),
    };
    assert_eq!(assets.material(ParticleColour::Red), "red");
    assert_eq!(assets.material(ParticleColour::Orange), "orange");
    assert_eq!(assets.material(ParticleColour::Aqua), "aqua");
}

#[test]
fn spawns_until_full_then_recycles_round_robin() {
    let mut oldest = OldestParticle::default();
    assert_eq!(oldest.next_spawn(0, 0), SpawnAction::Spawn);
    assert_eq!(oldest.next_spawn(MAX_PARTICLES - 1, 0), SpawnAction::Spawn);
    assert_eq!(oldest.0, 0);
    let mut seen = vec![false; MAX_PARTICLES];
    for _ in 0..MAX_PARTICLES {
        match oldest.next_spawn(MAX_PARTICLES, 0) {
            SpawnAction::Recycle(slot) => {
                assert!(!seen[slot]);
                seen[slot] = true;
            }
            other => panic!("a full index recycles, not {:?}", other),
        }
    }
    assert!(seen.iter().all(|s| *s));
    assert_eq!(oldest.0, 0);
    let mut late = OldestParticle(MAX_PARTICLES - 1);
    assert_eq!(late.next_spawn(MAX_PARTICLES, 0), SpawnAction::Recycle(MAX_PARTICLES - 1));
    assert_eq!(late.0, 0);
}

#[test]
fn recolour_only_on_a_changed_colour_count() {
    let mut prev = 0usize;
    assert!(!should_recolour(&mut prev, false, 4));
    assert_eq!(prev, 0);
    assert!(should_recolour(&mut prev, true, 4));
    assert_eq!(prev, 4);
    assert!(!should_recolour(&mut prev, true, 4));
    assert_eq!(prev, 4);
    assert!(should_recolour(&mut prev, true, 2));
    assert_eq!(prev, 2);
}

#[test]
fn a_frame_spawns_only_up_to_the_capacity() {
    let mut oldest = OldestParticle(5);
    let len = MAX_PARTICLES - 1;
    let mut spawned = 0;
    let mut actions = Vec::new();
    for _ in 0..3 {
        let action = oldest.next_spawn(len, spawned);
        if action == SpawnAction::Spawn {
            spawned += 1;
        }
        actions.push(action);
    }
    assert_eq!(
        actions,
        vec![SpawnAction::Spawn, SpawnAction::Recycle(5), SpawnAction::Recycle(6)]
    );
    assert_eq!(len + spawned, MAX_PARTICLES);
    assert_eq!(oldest.0, 7);
}

#[test]
fn a_request_with_nothing_to_reuse_is_dropped() {
    let mut oldest = OldestParticle(0);
    assert_eq!(oldest.next_spawn(0, MAX_PARTICLES), SpawnAction::Skip);
    assert_eq!(oldest.0, 0);
}

#[test]
fn a_shrunken_index_recycles_modulo_its_length() {
    let mut stale = OldestParticle(10);
    assert_eq!(stale.next_spawn(4, MAX_PARTICLES - 4), SpawnAction::Recycle(2));
    assert_eq!(stale.0, 3);
    assert_eq!(stale.next_spawn(4, MAX_PARTICLES - 4), SpawnAction::Recycle(3));
    assert_eq!(stale.0, 0);
}

#[test]
fn clear_forgets_every_particle() {
    let mut index = ParticleIndex(vec![4, 5, 6]);
    index.clear();
    assert!(index.0.is_empty());
    assert!(index.on_add(7));
    assert_eq!(index.0, vec![7]);
}

#[test]
fn a_respawn_indexes_exactly_the_new_particles() {
    let mut index = ParticleIndex(vec![1, 2, 3]);
    let despawned = index.0.clone();
    index.clear();
    for e in despawned {
        assert_eq!(index.on_remove(e), None);
    }
    let spawned: Vec<u64> = (100..100 + MAX_PARTICLES as u64).collect();
    for e in spawned.iter() {
        assert!(index.on_add(*e));
    }
    assert_eq!(index.0, spawned);
}
