use vstd::prelude::*;

verus! {

/// Unique identifier for an Adinkra symbol.
#[derive(Debug, Clone, Hash, PartialEq, Eq)]
pub struct AdinkraId(pub String);

impl View for AdinkraId {
    type V = Seq<char>;

    open spec fn view(&self) -> Seq<char> {
        self.0@
    }
}

impl AdinkraId {
    /// Builds an identifier holding exactly the characters of `s`.
    pub fn new(s: &str) -> (id: Self)
        ensures
            id@ == s@,
    {
        AdinkraId(s.to_owned())
    }

    /// The identifier's text.
    pub fn as_str(&self) -> (s: &str)
        ensures
            s@ == self@,
    {
        self.0.as_str()
    }
}

} // verus!
