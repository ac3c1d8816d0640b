use vstd::prelude::*;

verus! {

/// How strictly an agent holds to the end-to-end key.
#[derive(Debug, Clone, Copy, PartialEq, Eq, Structural)]
pub enum KeyPolicy {
    Lax,
    Strict,
}

impl Default for KeyPolicy {
    fn default() -> (r: Self)
        ensures
            r == KeyPolicy::Lax,
    {
        KeyPolicy::Lax
    }
}

/// A pass phrase for end-to-end encryption, with its key policy.
#[derive(Debug, Clone)]
pub struct PassPhrase {
    pub phrase: String,
    pub policy: KeyPolicy,
}

impl PassPhrase {
    /// A pass phrase under the default policy.
    pub fn new(phrase: String) -> (r: Self)
        ensures
            r.phrase == phrase,
            r.policy == KeyPolicy::Lax,
    {
        PassPhrase { phrase, policy: KeyPolicy::default() }
    }
}

/// End-to-end encryption settings.
#[derive(Debug, Clone)]
pub enum E2EE {
    PassPhrase(PassPhrase),
}

} // verus!
