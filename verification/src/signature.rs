use vstd::prelude::*;

use crate::id::AdinkraId;
use crate::symbol::{symbol_is, AdinkraSymbol, SymbolGeometry, SymbolMeaning};

verus! {

/// Behavioural profile of an agent.
///
/// Each of the five traits is a real number in `[0, 1]`, held as the bit
/// pattern of its IEEE-754 double (`f64::to_bits`). This crate stores and
/// hands back these values; it never computes with them.
#[derive(Debug, Clone)]
pub struct AgentSignature {
    pub agent_id: String,
    pub patience_bits: u64,
    pub precision_bits: u64,
    pub playfulness_bits: u64,
    pub conservation_affinity_bits: u64,
    pub social_tendency_bits: u64,
}

/// One of the five behavioural traits.
#[derive(Debug, Clone, Copy, PartialEq, Eq, Structural)]
pub enum Trait {
    Patience,
    Precision,
    Playfulness,
    ConservationAffinity,
    SocialTendency,
}

/// What a reading of a signature's five traits finds, as plain values: each
/// flag is one threshold test on one trait, each count a trait scaled and
/// rounded up.
pub struct TraitReading {
    /// patience > 0.6
    pub patient: bool,
    /// precision > 0.6
    pub precise: bool,
    /// playfulness > 0.5
    pub playful: bool,
    /// social tendency > 0.5
    pub sociable: bool,
    /// conservation affinity > 0.6
    pub conserving: bool,
    /// playfulness > 0.4
    pub somewhat_playful: bool,
    /// social tendency < 0.3
    pub withdrawn: bool,
    /// patience > 0.7
    pub very_patient: bool,
    /// precision > 0.7
    pub very_precise: bool,
    /// playfulness > 0.7
    pub very_playful: bool,
    /// conservation affinity > 0.7
    pub very_conserving: bool,
    /// social tendency > 0.7
    pub very_sociable: bool,
    /// The trait with the largest value; of equal largest values, the first
    /// in the order patience, precision, playfulness, conservation affinity,
    /// social tendency.
    pub dominant: Trait,
    /// precision * 8, rounded up
    pub radial_arms: u32,
    /// conservation affinity * 4, rounded up
    pub rings: u32,
    /// playfulness * 6, rounded up
    pub interlocks: u32,
    /// The spread of the profile, as the bit pattern of an IEEE-754 double.
    pub complexity_bits: u64,
    /// complexity * 20, rounded up
    pub elements: u32,
    /// A line that describes the agent's traits.
    pub teaching: String,
}

/// The geometry a reading projects onto, with its rotational symmetry fold
/// and whether it has reflection symmetry: patient and precise agents get
/// radial symmetry, playful and social ones a spiral, conservation-heavy ones
/// concentric rings, playful loners interlocking shapes, and all others an
/// asymmetric one.
pub open spec fn geometry_of(r: TraitReading) -> (SymbolGeometry, u32, bool) {
    if r.patient && r.precise {
        (SymbolGeometry::Radial { arms: r.radial_arms }, r.radial_arms, true)
    } else if r.playful && r.sociable {
        (SymbolGeometry::Spiral, 1, false)
    } else if r.conserving {
        (SymbolGeometry::Concentric { rings: r.rings }, r.rings, true)
    } else if r.somewhat_playful && r.withdrawn {
        (SymbolGeometry::Interlocking { count: r.interlocks }, r.interlocks, false)
    } else {
        (SymbolGeometry::Asymmetric, 1, false)
    }
}

/// The reading found trait `t` above 0.7.
pub open spec fn very(r: TraitReading, t: Trait) -> bool {
    match t {
        Trait::Patience => r.very_patient,
        Trait::Precision => r.very_precise,
        Trait::Playfulness => r.very_playful,
        Trait::ConservationAffinity => r.very_conserving,
        Trait::SocialTendency => r.very_sociable,
    }
}

/// The proverb that belongs to a trait.
pub open spec fn trait_proverb(t: Trait) -> Seq<char> {
    match t {
        Trait::Patience => "The river does not drink its own water"@,
        Trait::Precision => "The sharpened arrow finds its mark"@,
        Trait::Playfulness => "The spider's web is never complete"@,
        Trait::ConservationAffinity => "The baobab holds what the wind forgets"@,
        Trait::SocialTendency => "One tree does not make a forest"@,
    }
}

/// The proverb follows the dominant trait: its own proverb when that trait
/// is above 0.7, and the default proverb when no trait is that strong.
pub open spec fn proverb_of(r: TraitReading) -> Seq<char> {
    if very(r, r.dominant) {
        trait_proverb(r.dominant)
    } else {
        "The pattern speaks for itself"@
    }
}

/// What every reading of a profile whose traits lie in `[0, 1]` satisfies:
/// a stronger threshold implies the weaker one on the same trait, a trait
/// above its threshold scales to at least the threshold's rounded-up count,
/// no count exceeds its full scale, and where some trait is above 0.7 the
/// dominant one is.
pub open spec fn consistent(r: TraitReading) -> bool {
    &&& r.very_patient ==> r.patient
    &&& r.very_precise ==> r.precise
    &&& r.very_playful ==> r.playful
    &&& r.playful ==> r.somewhat_playful
    &&& r.very_conserving ==> r.conserving
    &&& r.very_sociable ==> r.sociable
    &&& r.sociable ==> !r.withdrawn
    &&& r.radial_arms <= 8
    &&& r.rings <= 4
    &&& r.interlocks <= 6
    &&& r.elements <= 20
    &&& r.precise ==> r.radial_arms >= 5
    &&& r.conserving ==> r.rings >= 3
    &&& r.somewhat_playful ==> r.interlocks >= 3
    &&& (r.very_patient || r.very_precise || r.very_playful || r.very_conserving
        || r.very_sociable) ==> very(r, r.dominant)
}

/// `s` is the symbol that the signature `sig` projects onto, given the
/// reading `r` of its traits.
pub open spec fn is_adinkra_of(s: AdinkraSymbol, sig: AgentSignature, r: TraitReading) -> bool {
    symbol_is(
        s,
        sig.agent_id@,
        sig.agent_id@ + "-adinkra"@,
        proverb_of(r),
        r.teaching@,
        r.elements,
        geometry_of(r).1,
        geometry_of(r).2,
        r.complexity_bits,
        geometry_of(r).0,
    )
}

impl TraitReading {
    /// Chooses the geometry, symmetry fold and reflection of the symbol.
    pub fn derive_geometry(&self) -> (g: (SymbolGeometry, u32, bool))
        ensures
            g == geometry_of(*self),
            self.patient && self.precise ==> g == (
            SymbolGeometry::Radial { arms: self.radial_arms },
            self.radial_arms,
            true,
            ),
            !(self.patient && self.precise) && self.playful && self.sociable ==> g == (
            SymbolGeometry::Spiral,
            1u32,
            false,
            ),
            !(self.patient && self.precise) && !(self.playful && self.sociable) && self.conserving
                ==> g == (SymbolGeometry::Concentric { rings: self.rings }, self.rings, true),
            !(self.patient && self.precise) && !(self.playful && self.sociable) && !self.conserving
                && self.somewhat_playful && self.withdrawn ==> g == (
            SymbolGeometry::Interlocking { count: self.interlocks },
            self.interlocks,
            false,
            ),
            !(self.patient && self.precise) && !(self.playful && self.sociable) && !self.conserving
                && !(self.somewhat_playful && self.withdrawn) ==> g == (
            SymbolGeometry::Asymmetric,
            1u32,
            false,
            ),
    {
        if self.patient && self.precise {
            let arms = self.radial_arms;
            return (SymbolGeometry::Radial { arms }, arms, true);
        }
        if self.playful && self.sociable {
            return (SymbolGeometry::Spiral, 1, false);
        }
        if self.conserving {
            let rings = self.rings;
            return (SymbolGeometry::Concentric { rings }, rings, true);
        }
        if self.somewhat_playful && self.withdrawn {
            let count = self.interlocks;
            return (SymbolGeometry::Interlocking { count }, count, false);
        }
        (SymbolGeometry::Asymmetric, 1, false)
    }

    /// Chooses the proverb by the dominant trait: its own proverb when it is
    /// above 0.7, the default proverb otherwise.
    pub fn derive_proverb(&self) -> (p: String)
        ensures
            p@ == proverb_of(*self),
            self.dominant == Trait::Patience && self.very_patient ==> p@
                == "The river does not drink its own water"@,
            self.dominant == Trait::Precision && self.very_precise ==> p@
                == "The sharpened arrow finds its mark"@,
            self.dominant == Trait::Playfulness && self.very_playful ==> p@
                == "The spider's web is never complete"@,
            self.dominant == Trait::ConservationAffinity && self.very_conserving ==> p@
                == "The baobab holds what the wind forgets"@,
            self.dominant == Trait::SocialTendency && self.very_sociable ==> p@
                == "One tree does not make a forest"@,
            !(self.dominant == Trait::Patience && self.very_patient) && !(self.dominant
                == Trait::Precision && self.very_precise) && !(self.dominant == Trait::Playfulness
                && self.very_playful) && !(self.dominant == Trait::ConservationAffinity
                && self.very_conserving) && !(self.dominant == Trait::SocialTendency
                && self.very_sociable) ==> p@ == "The pattern speaks for itself"@,
    {
        match self.dominant {
            Trait::Patience => if self.very_patient {
                return "The river does not drink its own water".to_owned();
            },
            Trait::Precision => if self.very_precise {
                return "The sharpened arrow finds its mark".to_owned();
            },
            Trait::Playfulness => if self.very_playful {
                return "The spider's web is never complete".to_owned();
            },
            Trait::ConservationAffinity => if self.very_conserving {
                return "The baobab holds what the wind forgets".to_owned();
            },
            Trait::SocialTendency => if self.very_sociable {
                return "One tree does not make a forest".to_owned();
            },
        }
        "The pattern speaks for itself".to_owned()
    }
}

impl AgentSignature {
    /// Projects the behavioural profile onto a geometric Adinkra symbol: the
    /// symbol is named after the agent, its geometry and proverb follow the
    /// reading of the agent's traits.
    pub fn to_adinkra(&self, reading: &TraitReading) -> (s: AdinkraSymbol)
        ensures
            is_adinkra_of(s, *self, *reading),
            s.id@ == self.agent_id@,
            s.name@ == self.agent_id@ + "-adinkra"@,
            s.meaning.name@ == s.name@,
            s.meaning.proverb@ == proverb_of(*reading),
            s.meaning.teaching@ == reading.teaching@,
            s.meaning.elements == reading.elements,
            s.complexity_bits == reading.complexity_bits,
            (s.geometry, s.symmetry_fold, s.has_reflection) == geometry_of(*reading),
    {
        let (geometry, symmetry_fold, has_reflection) = reading.derive_geometry();
        let mut name = self.agent_id.clone();
        name.append("-adinkra");
        let proverb = reading.derive_proverb();
        AdinkraSymbol {
            id: AdinkraId::new(self.agent_id.as_str()),
            name: name.clone(),
            meaning: SymbolMeaning {
                name,
                proverb,
                teaching: reading.teaching.clone(),
                elements: reading.elements,
            },
            symmetry_fold,
            has_reflection,
            complexity_bits: reading.complexity_bits,
            geometry,
        }
    }
}

/// Radial and concentric symbols reflect, so they are balanced; spirals and
/// asymmetric symbols have one-fold symmetry and no reflection, so they are
/// not; an interlocking symbol is balanced exactly when it interlocks at
/// least two shapes. In each case the symmetry fold is the geometry's count.
/// For a consistent reading, a projected symbol is balanced exactly when it
/// is neither a spiral nor asymmetric.
pub proof fn lemma_projection_balance(s: AdinkraSymbol, sig: AgentSignature, r: TraitReading)
    requires
        is_adinkra_of(s, sig, r),
    ensures
        s.geometry matches SymbolGeometry::Radial { arms } ==> s.balanced() && s.symmetry_fold
            == arms,
        s.geometry matches SymbolGeometry::Concentric { rings } ==> s.balanced()
            && s.symmetry_fold == rings,
        s.geometry matches SymbolGeometry::Interlocking { count } ==> (s.balanced() <==> count
            >= 2) && s.symmetry_fold == count,
        s.geometry is Spiral ==> !s.balanced() && s.symmetry_fold == 1,
        s.geometry is Asymmetric ==> !s.balanced() && s.symmetry_fold == 1,
        s.has_reflection <==> (s.geometry is Radial || s.geometry is Concentric),
        consistent(r) ==> (s.balanced() <==> !(s.geometry is Spiral || s.geometry is Asymmetric)),
{
}

/// A patient and precise agent projects onto a radial, balanced symbol; for
/// a consistent reading it has between five and eight arms.
pub proof fn lemma_patient_precise_is_radial(s: AdinkraSymbol, sig: AgentSignature, r: TraitReading)
    requires
        is_adinkra_of(s, sig, r),
        r.patient,
        r.precise,
    ensures
        s.geometry == (SymbolGeometry::Radial { arms: r.radial_arms }),
        s.balanced(),
        consistent(r) ==> 5 <= s.symmetry_fold <= 8,
{
}

/// Where some trait is above 0.7, a consistent reading's symbol carries the
/// proverb of the dominant trait; where none is, the default proverb.
pub proof fn lemma_dominant_proverb(s: AdinkraSymbol, sig: AgentSignature, r: TraitReading)
    requires
        is_adinkra_of(s, sig, r),
        consistent(r),
    ensures
        (r.very_patient || r.very_precise || r.very_playful || r.very_conserving
            || r.very_sociable) ==> s.meaning.proverb@ == trait_proverb(r.dominant),
        !(r.very_patient || r.very_precise || r.very_playful || r.very_conserving
            || r.very_sociable) ==> s.meaning.proverb@ == "The pattern speaks for itself"@,
{
}

/// The geometry decision tree, branch by branch: radial symmetry with the
/// reading's arm count exactly for patient and precise agents; otherwise a
/// one-fold spiral without reflection for playful and social agents;
/// otherwise reflecting concentric rings for conservation-heavy agents;
/// otherwise non-reflecting interlocking shapes for somewhat playful,
/// withdrawn agents; and an asymmetric one-fold symbol for all others.
pub proof fn lemma_projection_geometry(s: AdinkraSymbol, sig: AgentSignature, r: TraitReading)
    requires
        is_adinkra_of(s, sig, r),
    ensures
        s.geometry is Radial <==> r.patient && r.precise,
        r.patient && r.precise ==> s.geometry == (SymbolGeometry::Radial { arms: r.radial_arms })
            && s.symmetry_fold == r.radial_arms && s.has_reflection,
        !(r.patient && r.precise) && r.playful && r.sociable ==> s.geometry
            == SymbolGeometry::Spiral && s.symmetry_fold == 1 && !s.has_reflection,
        !(r.patient && r.precise) && !(r.playful && r.sociable) && r.conserving ==> s.geometry
            == (SymbolGeometry::Concentric { rings: r.rings }) && s.symmetry_fold == r.rings
            && s.has_reflection,
        !(r.patient && r.precise) && !(r.playful && r.sociable) && !r.conserving
            && r.somewhat_playful && r.withdrawn ==> s.geometry == (SymbolGeometry::Interlocking {
            count: r.interlocks,
        }) && s.symmetry_fold == r.interlocks && !s.has_reflection,
        !(r.patient && r.precise) && !(r.playful && r.sociable) && !r.conserving && !(
        r.somewhat_playful && r.withdrawn) ==> s.geometry == SymbolGeometry::Asymmetric
            && s.symmetry_fold == 1 && !s.has_reflection,
{
}

} // verus!
