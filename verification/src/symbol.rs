use vstd::prelude::*;

use crate::id::AdinkraId;

verus! {

/// The philosophical meaning behind a symbol.
#[derive(Debug, Clone)]
pub struct SymbolMeaning {
    pub name: String,
    pub proverb: String,
    pub teaching: String,
    pub elements: u32,
}

/// Geometric structure of an Adinkra symbol.
#[derive(Debug, Clone, Copy, PartialEq, Eq, Structural)]
pub enum SymbolGeometry {
    Spiral,
    Radial { arms: u32 },
    Interlocking { count: u32 },
    Concentric { rings: u32 },
    Asymmetric,
}

/// A single Adinkra symbol encoding a philosophical concept.
///
/// The complexity score is a real number in `[0, 1]`; it is held here as the
/// bit pattern of its IEEE-754 double (`f64::to_bits`). Nothing in this crate
/// computes with it: it is stored, carried through the registry and handed
/// back unchanged.
#[derive(Debug, Clone)]
pub struct AdinkraSymbol {
    pub id: AdinkraId,
    pub name: String,
    pub meaning: SymbolMeaning,
    pub symmetry_fold: u32,
    pub has_reflection: bool,
    pub complexity_bits: u64,
    pub geometry: SymbolGeometry,
}

impl AdinkraSymbol {
    /// At least two-fold rotational symmetry, or reflection symmetry.
    pub open spec fn balanced(&self) -> bool {
        self.symmetry_fold >= 2 || self.has_reflection
    }

    /// A symbol is balanced if it has at least 2-fold rotational symmetry
    /// or reflection symmetry.
    pub fn is_balanced(&self) -> (b: bool)
        ensures
            b == self.balanced(),
            b <==> self.symmetry_fold >= 2 || self.has_reflection,
    {
        self.symmetry_fold >= 2 || self.has_reflection
    }
}

/// The fields of a symbol, compared by their text where they are strings.
pub open spec fn symbol_is(
    s: AdinkraSymbol,
    id: Seq<char>,
    name: Seq<char>,
    proverb: Seq<char>,
    teaching: Seq<char>,
    elements: u32,
    symmetry_fold: u32,
    has_reflection: bool,
    complexity_bits: u64,
    geometry: SymbolGeometry,
) -> bool {
    &&& s.id@ == id
    &&& s.name@ == name
    &&& s.meaning.name@ == name
    &&& s.meaning.proverb@ == proverb
    &&& s.meaning.teaching@ == teaching
    &&& s.meaning.elements == elements
    &&& s.symmetry_fold == symmetry_fold
    &&& s.has_reflection == has_reflection
    &&& s.complexity_bits == complexity_bits
    &&& s.geometry == geometry
}

/// Builds a symbol from its parts; its meaning carries the symbol's name.
fn make_symbol(
    id: &str,
    name: &str,
    proverb: &str,
    teaching: &str,
    elements: u32,
    symmetry_fold: u32,
    has_reflection: bool,
    complexity_bits: u64,
    geometry: SymbolGeometry,
) -> (s: AdinkraSymbol)
    ensures
        symbol_is(
            s,
            id@,
            name@,
            proverb@,
            teaching@,
            elements,
            symmetry_fold,
            has_reflection,
            complexity_bits,
            geometry,
        ),
{
    AdinkraSymbol {
        id: AdinkraId::new(id),
        name: name.to_owned(),
        meaning: SymbolMeaning {
            name: name.to_owned(),
            proverb: proverb.to_owned(),
            teaching: teaching.to_owned(),
            elements,
        },
        symmetry_fold,
        has_reflection,
        complexity_bits,
        geometry,
    }
}

/// Sankofa, with complexity 0.65.
pub open spec fn is_sankofa(s: AdinkraSymbol) -> bool {
    symbol_is(
        s,
        "sankofa"@,
        "Sankofa"@,
        "Go back and fetch it"@,
        "Learn from the past to build the future"@,
        7,
        3,
        false,
        0x3fe4cccccccccccd,
        SymbolGeometry::Spiral,
    )
}

/// Gye Nyame, with complexity 0.80.
pub open spec fn is_gye_nyame(s: AdinkraSymbol) -> bool {
    symbol_is(
        s,
        "gye-nyame"@,
        "Gye Nyame"@,
        "Except God"@,
        "Acknowledges the supremacy of the divine in all things"@,
        12,
        8,
        true,
        0x3fe999999999999a,
        SymbolGeometry::Radial { arms: 8 },
    )
}

/// Adinkrahene, with complexity 0.55.
pub open spec fn is_adinkrahene(s: AdinkraSymbol) -> bool {
    symbol_is(
        s,
        "adinkrahene"@,
        "Adinkrahene"@,
        "Chief of the Adinkra symbols"@,
        "Greatness and leadership through character"@,
        9,
        3,
        true,
        0x3fe199999999999a,
        SymbolGeometry::Concentric { rings: 3 },
    )
}

/// Fawohodie, with complexity 0.70.
pub open spec fn is_fawohodie(s: AdinkraSymbol) -> bool {
    symbol_is(
        s,
        "fawohodie"@,
        "Fawohodie"@,
        "Independence comes with responsibility"@,
        "Freedom is earned through accountability"@,
        8,
        4,
        true,
        0x3fe6666666666666,
        SymbolGeometry::Interlocking { count: 4 },
    )
}

/// Mate Masie, with complexity 0.45.
pub open spec fn is_mate_masie(s: AdinkraSymbol) -> bool {
    symbol_is(
        s,
        "mate-masie"@,
        "Mate Masie"@,
        "I have heard and kept it"@,
        "True understanding requires deep listening and retention"@,
        5,
        1,
        false,
        0x3fdccccccccccccd,
        SymbolGeometry::Asymmetric,
    )
}

/// The Sankofa symbol: go back and fetch it.
pub fn sankofa() -> (s: AdinkraSymbol)
    ensures
        is_sankofa(s),
{
    make_symbol(
        "sankofa",
        "Sankofa",
        "Go back and fetch it",
        "Learn from the past to build the future",
        7,
        3,
        false,
        0x3fe4cccccccccccd,
        SymbolGeometry::Spiral,
    )
}

/// The Gye Nyame symbol: except God.
pub fn gye_nyame() -> (s: AdinkraSymbol)
    ensures
        is_gye_nyame(s),
{
    make_symbol(
        "gye-nyame",
        "Gye Nyame",
        "Except God",
        "Acknowledges the supremacy of the divine in all things",
        12,
        8,
        true,
        0x3fe999999999999a,
        SymbolGeometry::Radial { arms: 8 },
    )
}

/// The Adinkrahene symbol: chief of the Adinkra symbols.
pub fn adinkrahene() -> (s: AdinkraSymbol)
    ensures
        is_adinkrahene(s),
{
    make_symbol(
        "adinkrahene",
        "Adinkrahene",
        "Chief of the Adinkra symbols",
        "Greatness and leadership through character",
        9,
        3,
        true,
        0x3fe199999999999a,
        SymbolGeometry::Concentric { rings: 3 },
    )
}

/// The Fawohodie symbol: independence comes with responsibility.
pub fn fawohodie() -> (s: AdinkraSymbol)
    ensures
        is_fawohodie(s),
{
    make_symbol(
        "fawohodie",
        "Fawohodie",
        "Independence comes with responsibility",
        "Freedom is earned through accountability",
        8,
        4,
        true,
        0x3fe6666666666666,
        SymbolGeometry::Interlocking { count: 4 },
    )
}

/// The Mate Masie symbol: I have heard and kept it.
pub fn mate_masie() -> (s: AdinkraSymbol)
    ensures
        is_mate_masie(s),
{
    make_symbol(
        "mate-masie",
        "Mate Masie",
        "I have heard and kept it",
        "True understanding requires deep listening and retention",
        5,
        1,
        false,
        0x3fdccccccccccccd,
        SymbolGeometry::Asymmetric,
    )
}

/// All pre-built symbols, in the order Sankofa, Gye Nyame, Adinkrahene,
/// Fawohodie, Mate Masie.
pub fn builtin_symbols() -> (v: Vec<AdinkraSymbol>)
    ensures
        v.len() == 5,
        is_sankofa(v[0]),
        is_gye_nyame(v[1]),
        is_adinkrahene(v[2]),
        is_fawohodie(v[3]),
        is_mate_masie(v[4]),
        forall|i: int| 0 <= i < 5 ==> #[trigger] v[i].meaning.teaching@ != v[i].meaning.proverb@,
{
    let v = vec![sankofa(), gye_nyame(), adinkrahene(), fawohodie(), mate_masie()];
    proof {
        lemma_builtin_contents(v[0]);
        lemma_builtin_contents(v[1]);
        lemma_builtin_contents(v[2]);
        lemma_builtin_contents(v[3]);
        lemma_builtin_contents(v[4]);
    }
    v
}

/// Of the pre-built symbols, all are balanced but Mate Masie, which has
/// one-fold symmetry and no reflection.
pub proof fn lemma_builtin_balance(s: AdinkraSymbol)
    ensures
        is_sankofa(s) ==> s.balanced(),
        is_gye_nyame(s) ==> s.balanced(),
        is_adinkrahene(s) ==> s.balanced(),
        is_fawohodie(s) ==> s.balanced(),
        is_mate_masie(s) ==> !s.balanced(),
{
}

/// The texts and shapes of the pre-built symbols. Each teaching differs from
/// its symbol's proverb.
pub proof fn lemma_builtin_contents(s: AdinkraSymbol)
    ensures
        is_sankofa(s) ==> s.id@ == "sankofa"@ && s.name@ == "Sankofa"@ && s.meaning.proverb@
            == "Go back and fetch it"@ && s.meaning.teaching@
            == "Learn from the past to build the future"@ && s.meaning.elements == 7
            && s.symmetry_fold == 3 && !s.has_reflection && s.geometry == SymbolGeometry::Spiral,
        is_gye_nyame(s) ==> s.id@ == "gye-nyame"@ && s.name@ == "Gye Nyame"@ && s.meaning.proverb@
            == "Except God"@ && s.meaning.teaching@
            == "Acknowledges the supremacy of the divine in all things"@ && s.meaning.elements == 12
            && s.symmetry_fold == 8 && s.has_reflection && s.geometry == (SymbolGeometry::Radial {
            arms: 8,
        }),
        is_adinkrahene(s) ==> s.id@ == "adinkrahene"@ && s.name@ == "Adinkrahene"@
            && s.meaning.proverb@ == "Chief of the Adinkra symbols"@ && s.meaning.teaching@
            == "Greatness and leadership through character"@ && s.meaning.elements == 9
            && s.symmetry_fold == 3 && s.has_reflection && s.geometry == (
        SymbolGeometry::Concentric { rings: 3 }),
        is_fawohodie(s) ==> s.id@ == "fawohodie"@ && s.name@ == "Fawohodie"@ && s.meaning.proverb@
            == "Independence comes with responsibility"@ && s.meaning.teaching@
            == "Freedom is earned through accountability"@ && s.meaning.elements == 8
            && s.symmetry_fold == 4 && s.has_reflection && s.geometry == (
        SymbolGeometry::Interlocking { count: 4 }),
        is_mate_masie(s) ==> s.id@ == "mate-masie"@ && s.name@ == "Mate Masie"@
            && s.meaning.proverb@ == "I have heard and kept it"@ && s.meaning.teaching@
            == "True understanding requires deep listening and retention"@ && s.meaning.elements
            == 5 && s.symmetry_fold == 1 && !s.has_reflection && s.geometry
            == SymbolGeometry::Asymmetric,
        (is_sankofa(s) || is_gye_nyame(s) || is_adinkrahene(s) || is_fawohodie(s)
            || is_mate_masie(s)) ==> s.meaning.teaching@ != s.meaning.proverb@,
{
    reveal_strlit("Go back and fetch it");
    reveal_strlit("Learn from the past to build the future");
    reveal_strlit("Except God");
    reveal_strlit("Acknowledges the supremacy of the divine in all things");
    reveal_strlit("Chief of the Adinkra symbols");
    reveal_strlit("Greatness and leadership through character");
    reveal_strlit("Independence comes with responsibility");
    reveal_strlit("Freedom is earned through accountability");
    reveal_strlit("I have heard and kept it");
    reveal_strlit("True understanding requires deep listening and retention");
    assert("Go back and fetch it"@.len() != "Learn from the past to build the future"@.len());
    assert("Except God"@.len() != "Acknowledges the supremacy of the divine in all things"@.len());
    assert("Chief of the Adinkra symbols"@.len() != "Greatness and leadership through character"@.len());
    assert("Independence comes with responsibility"@.len() != "Freedom is earned through accountability"@.len());
    assert("I have heard and kept it"@.len() != "True understanding requires deep listening and retention"@.len());
}

} // verus!
