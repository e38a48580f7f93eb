use lau_adinkra::{
    gye_nyame, mate_masie, sankofa, AdinkraRegistry, AgentSignature, SymbolGeometry, Trait,
    TraitReading,
};

fn signature(id: &str, traits: [f64; 5]) -> AgentSignature {
    AgentSignature {
        agent_id: id.to_string(),
        patience_bits: traits[0].to_bits(),
        precision_bits: traits[1].to_bits(),
        playfulness_bits: traits[2].to_bits(),
        conservation_affinity_bits: traits[3].to_bits(),
        social_tendency_bits: traits[4].to_bits(),
    }
}

// The reading of a profile with 0.5 on every trait.
fn even_reading() -> TraitReading {
    TraitReading {
        patient: false,
        precise: false,
        playful: false,
        sociable: false,
        conserving: false,
        somewhat_playful: true,
        withdrawn: false,
        very_patient: false,
        very_precise: false,
        very_playful: false,
        very_conserving: false,
        very_sociable: false,
        dominant: Trait::Patience,
        radial_arms: 4,
        rings: 2,
        interlocks: 3,
        complexity_bits: 0.0f64.to_bits(),
        elements: 0,
        teaching: "even".to_string(),
    }
}

#[test]
fn test_registry_register_symbol() {
    let mut reg = AdinkraRegistry::new();
    reg.register_symbol(sankofa());
    assert_eq!(reg.symbol_count(), 1);
}

#[test]
fn registering_a_symbol_twice_replaces_it() {
    let mut reg = AdinkraRegistry::new();
    reg.register_symbol(sankofa());
    reg.register_symbol(gye_nyame());
    let mut changed = sankofa();
    changed.symmetry_fold = 9;
    reg.register_symbol(changed);
    assert_eq!(reg.symbol_count(), 2);
    assert_eq!(reg.agent_symbol("sankofa").unwrap().symmetry_fold, 9);
    assert_eq!(reg.symbols()[0].id.as_str(), "sankofa");
    assert_eq!(reg.symbols()[1].id.as_str(), "gye-nyame");
}

#[test]
fn test_registry_register_agent() {
    let mut reg = AdinkraRegistry::new();
    let sig = signature("agent-1", [0.5; 5]);
    reg.register_agent("agent-1", sig, &even_reading());
    assert_eq!(reg.agent_count(), 1);
    assert!(reg.agent_symbol("agent-1").is_some());
}

#[test]
fn register_agent_keys_symbol_by_signature_id() {
    let mut reg = AdinkraRegistry::new();
    let sig = signature("inner", [0.5; 5]);
    reg.register_agent("outer", sig, &even_reading());
    assert!(reg.agent_symbol("inner").is_some());
    assert!(reg.agent_symbol("outer").is_none());
    assert!(reg.signature_of("outer").is_some());
    assert!(reg.signature_of("inner").is_none());
    let symbol = reg.agent_symbol("inner").unwrap();
    assert_eq!(symbol.name, "inner-adinkra");
    assert!(matches!(symbol.geometry, SymbolGeometry::Asymmetric));
    assert_eq!(
        reg.signature_of("outer").unwrap().patience_bits,
        0.5f64.to_bits()
    );
}

#[test]
fn reregistering_an_agent_replaces_its_signature() {
    let mut reg = AdinkraRegistry::new();
    reg.register_agent("a", signature("a", [0.5; 5]), &even_reading());
    reg.register_agent("b", signature("b", [0.5; 5]), &even_reading());
    reg.register_agent("a", signature("a", [0.9; 5]), &even_reading());
    assert_eq!(reg.agent_count(), 2);
    assert_eq!(reg.symbol_count(), 2);
    assert_eq!(reg.agents()[0].agent_id, "a");
    assert_eq!(reg.agents()[0].signature.precision_bits, 0.9f64.to_bits());
    assert_eq!(reg.agents()[1].agent_id, "b");
}

#[test]
fn test_registry_agent_symbol_missing() {
    let reg = AdinkraRegistry::new();
    assert!(reg.agent_symbol("nobody").is_none());
}

#[test]
fn test_registry_find_similar() {
    let mut reg = AdinkraRegistry::new();
    reg.register_agent("a", signature("a", [0.5, 0.5, 0.5, 0.5, 0.5]), &even_reading());
    reg.register_agent("b", signature("b", [0.55, 0.5, 0.5, 0.5, 0.5]), &even_reading());
    reg.register_agent("c", signature("c", [0.1, 0.1, 0.1, 0.1, 0.1]), &even_reading());
    // Within 0.2 of a: a itself (distance 0) and b (distance 0.05); c is 0.89 away.
    let similar = reg.similar_agents("a", &vec![true, true, false]);
    assert!(similar.contains(&"b"));
    assert!(!similar.contains(&"c"));
    assert_eq!(similar, vec!["b"]);
}

#[test]
fn similar_agents_never_lists_the_agent_itself() {
    let mut reg = AdinkraRegistry::new();
    reg.register_agent("a", signature("a", [0.5; 5]), &even_reading());
    reg.register_agent("b", signature("b", [0.5; 5]), &even_reading());
    reg.register_agent("c", signature("c", [0.5; 5]), &even_reading());
    assert_eq!(reg.similar_agents("b", &vec![true, true, true]), vec!["a", "c"]);
    assert_eq!(reg.similar_agents("c", &vec![false, true, true]), vec!["b"]);
}

#[test]
fn test_registry_find_similar_empty() {
    let reg = AdinkraRegistry::new();
    assert!(reg.similar_agents("ghost", &vec![]).is_empty());
}

#[test]
fn similar_agents_of_unknown_agent_is_empty() {
    let mut reg = AdinkraRegistry::new();
    reg.register_agent("a", signature("a", [0.5; 5]), &even_reading());
    assert!(reg.similar_agents("ghost", &vec![true]).is_empty());
}

#[test]
fn test_registry_clustering() {
    let mut reg = AdinkraRegistry::new();
    reg.register_agent("a1", signature("a1", [0.1, 0.1, 0.1, 0.1, 0.1]), &even_reading());
    reg.register_agent("a2", signature("a2", [0.15, 0.1, 0.1, 0.1, 0.1]), &even_reading());
    reg.register_agent("b1", signature("b1", [0.9, 0.9, 0.9, 0.9, 0.9]), &even_reading());
    // Within 0.5: a1 and a2 (0.05 apart); b1 is about 1.79 from both.
    let links = vec![
        vec![false, true, false],
        vec![true, false, false],
        vec![false, false, false],
    ];
    let clusters = reg.cluster_agents(&links);
    assert_eq!(clusters.len(), 2);
    assert_eq!(clusters, vec![vec!["a1".to_string(), "a2".to_string()], vec!["b1".to_string()]]);
}

#[test]
fn test_registry_clustering_empty() {
    let reg = AdinkraRegistry::new();
    assert!(reg.cluster_agents(&vec![]).is_empty());
}

#[test]
fn test_registry_stats() {
    let mut reg = AdinkraRegistry::new();
    reg.register_symbol(sankofa());
    reg.register_symbol(gye_nyame());
    reg.register_agent("a", signature("a", [0.5; 5]), &even_reading());
    assert_eq!(reg.symbol_count(), 3);
    assert_eq!(reg.agent_count(), 1);
    assert!(reg.balanced_count() > 0);
}

#[test]
fn balanced_count_counts_balanced_symbols() {
    let mut reg = AdinkraRegistry::new();
    assert_eq!(reg.balanced_count(), 0);
    reg.register_symbol(sankofa());
    reg.register_symbol(mate_masie());
    reg.register_symbol(gye_nyame());
    assert_eq!(reg.balanced_count(), 2);
}

#[test]
fn default_registry_is_empty() {
    let reg = AdinkraRegistry::default();
    assert_eq!(reg.symbol_count(), 0);
    assert_eq!(reg.agent_count(), 0);
}

#[test]
fn cloned_registry_is_independent() {
    let mut reg = AdinkraRegistry::new();
    reg.register_symbol(sankofa());
    reg.register_agent("a", signature("a", [0.5; 5]), &even_reading());
    let copy = reg.clone();
    reg.register_symbol(gye_nyame());
    assert_eq!(copy.symbol_count(), 2);
    assert_eq!(reg.symbol_count(), 3);
    assert_eq!(copy.agents()[0].agent_id, "a");
    assert_eq!(copy.symbols()[0].name, "Sankofa");
}
