use lau_adinkra::{AgentSignature, SymbolGeometry, Trait, TraitReading};

fn signature(id: &str, traits: [f64; 5]) -> AgentSignature {
    AgentSignature {
        agent_id: id.to_string(),
        patience_bits: traits[0].to_bits(),
        precision_bits: traits[1].to_bits(),
        playfulness_bits: traits[2].to_bits(),
        conservation_affinity_bits: traits[3].to_bits(),
        social_tendency_bits: traits[4].to_bits(),
    }
}

fn quiet_reading() -> TraitReading {
    TraitReading {
        patient: false,
        precise: false,
        playful: false,
        sociable: false,
        conserving: false,
        somewhat_playful: false,
        withdrawn: false,
        very_patient: false,
        very_precise: false,
        very_playful: false,
        very_conserving: false,
        very_sociable: false,
        dominant: Trait::Patience,
        radial_arms: 0,
        rings: 0,
        interlocks: 0,
        complexity_bits: 0.0f64.to_bits(),
        elements: 0,
        teaching: "quiet".to_string(),
    }
}

// wise-owl: patience 0.8, precision 0.9, playfulness 0.3, conservation 0.2, social 0.4
fn wise_owl_reading() -> TraitReading {
    TraitReading {
        patient: true,
        precise: true,
        very_patient: true,
        very_precise: true,
        dominant: Trait::Precision,
        radial_arms: 8,
        rings: 1,
        interlocks: 2,
        ..quiet_reading()
    }
}

#[test]
fn test_to_adinkra_patient_precise() {
    let sig = signature("wise-owl", [0.8, 0.9, 0.3, 0.2, 0.4]);
    let adinkra = sig.to_adinkra(&wise_owl_reading());
    assert!(matches!(adinkra.geometry, SymbolGeometry::Radial { .. }));
    assert!(adinkra.is_balanced());
}

#[test]
fn radial_symbol_names_and_proverb() {
    let sig = signature("wise-owl", [0.8, 0.9, 0.3, 0.2, 0.4]);
    let reading = wise_owl_reading();
    let adinkra = sig.to_adinkra(&reading);
    assert_eq!(adinkra.id.as_str(), "wise-owl");
    assert_eq!(adinkra.name, "wise-owl-adinkra");
    assert_eq!(adinkra.meaning.name, "wise-owl-adinkra");
    assert_eq!(adinkra.meaning.proverb, "The sharpened arrow finds its mark");
    assert_eq!(adinkra.meaning.teaching, "quiet");
    assert!(matches!(adinkra.geometry, SymbolGeometry::Radial { arms: 8 }));
    assert_eq!(adinkra.symmetry_fold, 8);
    assert!(adinkra.has_reflection);
}

#[test]
fn test_to_adinkra_playful_social() {
    // trickster: 0.2, 0.3, 0.8, 0.2, 0.9
    let sig = signature("trickster", [0.2, 0.3, 0.8, 0.2, 0.9]);
    let reading = TraitReading {
        playful: true,
        sociable: true,
        somewhat_playful: true,
        very_playful: true,
        very_sociable: true,
        dominant: Trait::SocialTendency,
        radial_arms: 3,
        rings: 1,
        interlocks: 5,
        ..quiet_reading()
    };
    let adinkra = sig.to_adinkra(&reading);
    assert!(matches!(adinkra.geometry, SymbolGeometry::Spiral));
    assert_eq!(adinkra.symmetry_fold, 1);
    assert!(!adinkra.has_reflection);
    assert_eq!(adinkra.meaning.proverb, "One tree does not make a forest");
}

#[test]
fn test_to_adinkra_conservator() {
    // keeper: 0.3, 0.5, 0.2, 0.9, 0.3
    let sig = signature("keeper", [0.3, 0.5, 0.2, 0.9, 0.3]);
    let reading = TraitReading {
        conserving: true,
        very_conserving: true,
        dominant: Trait::ConservationAffinity,
        radial_arms: 4,
        rings: 4,
        interlocks: 2,
        ..quiet_reading()
    };
    let adinkra = sig.to_adinkra(&reading);
    assert!(matches!(adinkra.geometry, SymbolGeometry::Concentric { rings: 4 }));
    assert_eq!(adinkra.symmetry_fold, 4);
    assert!(adinkra.has_reflection);
    assert_eq!(adinkra.meaning.proverb, "The baobab holds what the wind forgets");
}

#[test]
fn test_to_adinkra_default_asymmetric() {
    // lone: 0.3 on every trait
    let sig = signature("lone", [0.3; 5]);
    let reading = TraitReading { radial_arms: 3, rings: 2, interlocks: 2, ..quiet_reading() };
    assert_eq!(reading.dominant, Trait::Patience);
    let adinkra = sig.to_adinkra(&reading);
    assert!(matches!(adinkra.geometry, SymbolGeometry::Asymmetric));
    assert!(!adinkra.is_balanced());
    assert_eq!(adinkra.meaning.proverb, "The pattern speaks for itself");
}

#[test]
fn test_to_adinkra_interlocking() {
    // tinkerer: 0.3, 0.4, 0.7, 0.3, 0.2
    let sig = signature("tinkerer", [0.3, 0.4, 0.7, 0.3, 0.2]);
    let reading = TraitReading {
        playful: true,
        somewhat_playful: true,
        withdrawn: true,
        dominant: Trait::Playfulness,
        radial_arms: 4,
        rings: 2,
        interlocks: 5,
        ..quiet_reading()
    };
    let adinkra = sig.to_adinkra(&reading);
    assert!(matches!(adinkra.geometry, SymbolGeometry::Interlocking { count: 5 }));
    assert_eq!(adinkra.symmetry_fold, 5);
    assert!(!adinkra.has_reflection);
}

#[test]
fn geometry_takes_first_matching_branch() {
    let all = TraitReading {
        patient: true,
        precise: true,
        playful: true,
        sociable: true,
        conserving: true,
        somewhat_playful: true,
        withdrawn: true,
        radial_arms: 7,
        rings: 3,
        interlocks: 6,
        ..quiet_reading()
    };
    assert_eq!(all.derive_geometry(), (SymbolGeometry::Radial { arms: 7 }, 7, true));
    let no_patience = TraitReading { patient: false, ..all };
    assert_eq!(no_patience.derive_geometry(), (SymbolGeometry::Spiral, 1, false));
    let lone = TraitReading { sociable: false, ..no_patience };
    assert_eq!(lone.derive_geometry(), (SymbolGeometry::Concentric { rings: 3 }, 3, true));
    let loose = TraitReading { conserving: false, ..lone };
    assert_eq!(loose.derive_geometry(), (SymbolGeometry::Interlocking { count: 6 }, 6, false));
    let plain = TraitReading { withdrawn: false, ..loose };
    assert_eq!(plain.derive_geometry(), (SymbolGeometry::Asymmetric, 1, false));
}

#[test]
fn proverb_follows_dominant_trait() {
    let expected = [
        (Trait::Patience, "The river does not drink its own water"),
        (Trait::Precision, "The sharpened arrow finds its mark"),
        (Trait::Playfulness, "The spider's web is never complete"),
        (Trait::ConservationAffinity, "The baobab holds what the wind forgets"),
        (Trait::SocialTendency, "One tree does not make a forest"),
    ];
    for (dominant, proverb) in expected {
        let r = TraitReading {
            very_patient: true,
            very_precise: true,
            very_playful: true,
            very_conserving: true,
            very_sociable: true,
            dominant,
            ..quiet_reading()
        };
        assert_eq!(r.derive_proverb(), proverb);
    }
}

#[test]
fn weak_dominant_trait_gives_default_proverb() {
    let r = TraitReading { dominant: Trait::Precision, ..quiet_reading() };
    assert_eq!(r.derive_proverb(), "The pattern speaks for itself");
}

#[test]
fn stronger_later_trait_wins_the_proverb() {
    // patience 0.75, precision 0.95: both above 0.7, precision dominates.
    let sig = signature("p", [0.75, 0.95, 0.0, 0.0, 0.0]);
    let reading = TraitReading {
        patient: true,
        precise: true,
        very_patient: true,
        very_precise: true,
        dominant: Trait::Precision,
        radial_arms: 8,
        withdrawn: true,
        ..quiet_reading()
    };
    assert_eq!(reading.derive_proverb(), "The sharpened arrow finds its mark");
    let adinkra = sig.to_adinkra(&reading);
    assert_eq!(adinkra.meaning.proverb, "The sharpened arrow finds its mark");
}

#[test]
fn test_to_adinkra_complexity_range() {
    // An even profile (0.5 on every trait) has no spread: complexity 0.
    let sig = signature("x", [0.5; 5]);
    let reading = TraitReading {
        somewhat_playful: true,
        radial_arms: 4,
        rings: 2,
        interlocks: 3,
        complexity_bits: 0.0f64.to_bits(),
        elements: 0,
        ..quiet_reading()
    };
    let a = sig.to_adinkra(&reading);
    assert!((0.0..=1.0).contains(&f64::from_bits(a.complexity_bits)));
}

#[test]
fn projection_carries_reading_values() {
    let sig = signature("x", [0.5; 5]);
    let reading = TraitReading {
        complexity_bits: 0.25f64.to_bits(),
        elements: 5,
        teaching: "Agent x".to_string(),
        ..quiet_reading()
    };
    let adinkra = sig.to_adinkra(&reading);
    assert_eq!(f64::from_bits(adinkra.complexity_bits), 0.25);
    assert_eq!(adinkra.meaning.elements, 5);
    assert_eq!(adinkra.meaning.teaching, "Agent x");
}
