use lau_adinkra::{
    adinkrahene, builtin_symbols, fawohodie, gye_nyame, mate_masie, sankofa, AdinkraId,
    AdinkraSymbol, SymbolGeometry, SymbolMeaning,
};

fn symbol(fold: u32, reflection: bool, geometry: SymbolGeometry) -> AdinkraSymbol {
    AdinkraSymbol {
        id: AdinkraId::new("t"),
        name: "T".into(),
        meaning: SymbolMeaning {
            name: "T".into(),
            proverb: "p".into(),
            teaching: "t".into(),
            elements: 2,
        },
        symmetry_fold: fold,
        has_reflection: reflection,
        complexity_bits: 0.5f64.to_bits(),
        geometry,
    }
}

#[test]
fn test_is_balanced_with_symmetry() {
    let sym = sankofa();
    assert!(sym.is_balanced()); // symmetry_fold=3
}

#[test]
fn test_is_balanced_with_reflection() {
    let sym = mate_masie();
    assert!(!sym.is_balanced()); // fold=1, no reflection
}

#[test]
fn test_is_balanced_fold_2() {
    let sym = symbol(2, false, SymbolGeometry::Radial { arms: 2 });
    assert!(sym.is_balanced());
}

#[test]
fn balance_needs_fold_two_or_reflection() {
    assert!(!symbol(0, false, SymbolGeometry::Asymmetric).is_balanced());
    assert!(!symbol(1, false, SymbolGeometry::Spiral).is_balanced());
    assert!(symbol(1, true, SymbolGeometry::Asymmetric).is_balanced());
    assert!(symbol(0, true, SymbolGeometry::Spiral).is_balanced());
    assert!(symbol(8, true, SymbolGeometry::Radial { arms: 8 }).is_balanced());
}

#[test]
fn test_builtin_symbols_count() {
    assert_eq!(builtin_symbols().len(), 5);
}

#[test]
fn builtin_symbols_come_in_order() {
    let names: Vec<String> = builtin_symbols().into_iter().map(|s| s.name).collect();
    assert_eq!(
        names,
        vec!["Sankofa", "Gye Nyame", "Adinkrahene", "Fawohodie", "Mate Masie"]
    );
}

#[test]
fn test_sankofa() {
    let s = sankofa();
    assert_eq!(s.name, "Sankofa");
    assert!(matches!(s.geometry, SymbolGeometry::Spiral));
    assert_eq!(s.symmetry_fold, 3);
}

#[test]
fn sankofa_fields() {
    let s = sankofa();
    assert_eq!(s.id.as_str(), "sankofa");
    assert_eq!(s.meaning.name, "Sankofa");
    assert_eq!(s.meaning.proverb, "Go back and fetch it");
    assert_eq!(s.meaning.teaching, "Learn from the past to build the future");
    assert_eq!(s.meaning.elements, 7);
    assert!(!s.has_reflection);
    assert_eq!(f64::from_bits(s.complexity_bits), 0.65);
}

#[test]
fn test_gye_nyame() {
    let s = gye_nyame();
    assert_eq!(s.name, "Gye Nyame");
    assert!(matches!(s.geometry, SymbolGeometry::Radial { arms: 8 }));
    assert!(s.has_reflection);
}

#[test]
fn gye_nyame_fields() {
    let s = gye_nyame();
    assert_eq!(s.id.as_str(), "gye-nyame");
    assert_eq!(s.meaning.proverb, "Except God");
    assert_eq!(s.meaning.elements, 12);
    assert_eq!(s.symmetry_fold, 8);
    assert_eq!(f64::from_bits(s.complexity_bits), 0.80);
}

#[test]
fn test_adinkrahene() {
    let s = adinkrahene();
    assert!(matches!(s.geometry, SymbolGeometry::Concentric { rings: 3 }));
}

#[test]
fn adinkrahene_fields() {
    let s = adinkrahene();
    assert_eq!(s.id.as_str(), "adinkrahene");
    assert_eq!(s.name, "Adinkrahene");
    assert_eq!(s.meaning.proverb, "Chief of the Adinkra symbols");
    assert_eq!(s.meaning.teaching, "Greatness and leadership through character");
    assert_eq!(s.meaning.elements, 9);
    assert_eq!(s.symmetry_fold, 3);
    assert!(s.has_reflection);
    assert_eq!(f64::from_bits(s.complexity_bits), 0.55);
}

#[test]
fn test_fawohodie() {
    let s = fawohodie();
    assert!(matches!(s.geometry, SymbolGeometry::Interlocking { count: 4 }));
}

#[test]
fn fawohodie_fields() {
    let s = fawohodie();
    assert_eq!(s.id.as_str(), "fawohodie");
    assert_eq!(s.name, "Fawohodie");
    assert_eq!(s.meaning.proverb, "Independence comes with responsibility");
    assert_eq!(s.meaning.elements, 8);
    assert_eq!(s.symmetry_fold, 4);
    assert!(s.has_reflection);
    assert!(s.is_balanced());
    assert_eq!(f64::from_bits(s.complexity_bits), 0.70);
}

#[test]
fn test_mate_masie() {
    let s = mate_masie();
    assert!(matches!(s.geometry, SymbolGeometry::Asymmetric));
    assert!(!s.is_balanced());
}

#[test]
fn mate_masie_fields() {
    let s = mate_masie();
    assert_eq!(s.id.as_str(), "mate-masie");
    assert_eq!(s.name, "Mate Masie");
    assert_eq!(s.meaning.proverb, "I have heard and kept it");
    assert_eq!(s.meaning.elements, 5);
    assert_eq!(s.symmetry_fold, 1);
    assert_eq!(f64::from_bits(s.complexity_bits), 0.45);
}

#[test]
fn only_mate_masie_is_unbalanced_among_builtins() {
    let balanced: Vec<bool> = builtin_symbols().iter().map(|s| s.is_balanced()).collect();
    assert_eq!(balanced, vec![true, true, true, true, false]);
}
