use vstd::prelude::*;

verus! {

/// The ACME challenge types that a manager can be configured with.
#[derive(Debug, Clone, Copy, PartialEq, Eq, Structural)]
pub enum ACMEChallengeType {
    Http01,
    TlsAlpn01,
}

/// An active challenge: the HTTP-01 token and key authorization, or the
/// TLS-ALPN-01 server configuration.
pub enum ACMEChallenge<C> {
    Http01(String, String),
    TlsAlpn01(C),
}

/// The challenges that are live during an issuance, by domain.
pub struct ChallengeRegistry<C> {
    entries: Vec<(String, ACMEChallenge<C>)>,
}

impl<C> ChallengeRegistry<C> {
    pub closed spec fn entries(&self) -> Seq<(String, ACMEChallenge<C>)> {
        self.entries@
    }

    pub open spec fn domain_at(&self, i: int) -> Seq<char> {
        self.entries()[i].0@
    }

    /// At most one challenge per domain.
    pub open spec fn wf(&self) -> bool {
        forall|i: int, j: int|
            0 <= i < self.entries().len() && 0 <= j < self.entries().len() && i != j
                ==> #[trigger] self.domain_at(i) != #[trigger] self.domain_at(j)
    }

    pub open spec fn active(&self, d: Seq<char>) -> bool {
        exists|i: int| 0 <= i < self.entries().len() && #[trigger] self.domain_at(i) == d
    }

    /// The challenge registered for `d` (meaningful when `active(d)`).
    pub open spec fn challenge_of(&self, d: Seq<char>) -> ACMEChallenge<C> {
        let i = choose|i: int| 0 <= i < self.entries().len() && #[trigger] self.domain_at(i) == d;
        self.entries()[i].1
    }

    pub fn new() -> (r: Self)
        ensures
            r.wf(),
            forall|d: Seq<char>| !r.active(d),
    {
        ChallengeRegistry { entries: Vec::new() }
    }

    pub fn len(&self) -> (r: usize)
        ensures
            r == self.entries().len(),
    {
        self.entries.len()
    }

    fn find(&self, domain: &String) -> (r: Option<usize>)
        ensures
            match r {
                Some(i) => i < self.entries().len() && self.domain_at(i as int) == domain@,
                None => !self.active(domain@),
            },
    {
        let mut i: usize = 0;
        while i < self.entries.len()
            invariant
                i <= self.entries@.len(),
                forall|j: int| 0 <= j < i ==> #[trigger] self.domain_at(j) != domain@,
            decreases self.entries@.len() - i,
        {
            if self.entries[i].0 == *domain {
                return Some(i);
            }
            i = i + 1;
        }
        None
    }

    /// Registers `challenge` for `domain`, replacing an earlier one.
    pub fn insert(&mut self, domain: String, challenge: ACMEChallenge<C>)
        requires
            old(self).wf(),
        ensures
            final(self).wf(),
            final(self).active(domain@),
            final(self).challenge_of(domain@) == challenge,
            forall|d: Seq<char>| d != domain@ ==> (#[trigger] final(self).active(d) == old(self).active(d)),
            forall|d: Seq<char>| d != domain@ && old(self).active(d) ==> #[trigger] final(self).challenge_of(d)
                == old(self).challenge_of(d),
    {
        let ghost d0 = domain@;
        match self.find(&domain) {
            Some(i) => {
                self.entries.set(i, (domain, challenge));
                assert(self.domain_at(i as int) == d0);
                assert forall|a: int, b: int|
                    0 <= a < self.entries@.len() && 0 <= b < self.entries@.len() && a != b
                        implies #[trigger] self.domain_at(a) != #[trigger] self.domain_at(b) by {
                    assert(old(self).domain_at(a) != old(self).domain_at(b));
                }
                assert forall|d: Seq<char>| d != d0 implies #[trigger] self.active(d) == old(self).active(d) by {
                    if old(self).active(d) {
                        let j = choose|j: int| 0 <= j < old(self).entries().len() && #[trigger] old(self).domain_at(j) == d;
                        assert(self.domain_at(j) == d);
                    }
                    if self.active(d) {
                        let j = choose|j: int| 0 <= j < self.entries().len() && #[trigger] self.domain_at(j) == d;
                        assert(old(self).domain_at(j) == d);
                    }
                }
                assert forall|d: Seq<char>| d != d0 && old(self).active(d) implies #[trigger] self.challenge_of(d)
                    == old(self).challenge_of(d) by {
                    let j = choose|j: int| 0 <= j < old(self).entries().len() && #[trigger] old(self).domain_at(j) == d;
                    let j2 = choose|j: int| 0 <= j < self.entries().len() && #[trigger] self.domain_at(j) == d;
                    assert(self.domain_at(j) == d);
                    assert(old(self).domain_at(j2) == d);
                    assert(j == j2);
                }
                assert(self.challenge_of(d0) == challenge);
            },
            None => {
                self.entries.push((domain, challenge));
                let ghost n = self.entries@.len() - 1;
                assert(self.domain_at(n) == d0);
                assert forall|a: int, b: int|
                    0 <= a < self.entries@.len() && 0 <= b < self.entries@.len() && a != b
                        implies #[trigger] self.domain_at(a) != #[trigger] self.domain_at(b) by {
                    if a < n && b < n {
                        assert(old(self).domain_at(a) != old(self).domain_at(b));
                    } else if a < n {
                        assert(old(self).domain_at(a) != d0);
                    } else if b < n {
                        assert(old(self).domain_at(b) != d0);
                    }
                }
                assert forall|d: Seq<char>| d != d0 implies #[trigger] self.active(d) == old(self).active(d) by {
                    if old(self).active(d) {
                        let j = choose|j: int| 0 <= j < old(self).entries().len() && #[trigger] old(self).domain_at(j) == d;
                        assert(self.domain_at(j) == d);
                    }
                    if self.active(d) {
                        let j = choose|j: int| 0 <= j < self.entries().len() && #[trigger] self.domain_at(j) == d;
                        assert(old(self).domain_at(j) == d);
                    }
                }
                assert forall|d: Seq<char>| d != d0 && old(self).active(d) implies #[trigger] self.challenge_of(d)
                    == old(self).challenge_of(d) by {
                    let j = choose|j: int| 0 <= j < old(self).entries().len() && #[trigger] old(self).domain_at(j) == d;
                    let j2 = choose|j: int| 0 <= j < self.entries().len() && #[trigger] self.domain_at(j) == d;
                    assert(self.domain_at(j) == d);
                    assert(j2 < n);
                    assert(old(self).domain_at(j2) == d);
                }
                assert(self.challenge_of(d0) == challenge);
            },
        }
    }
    /// Drops the challenge of `domain`, if any.
    pub fn remove(&mut self, domain: &String)
        requires
            old(self).wf(),
        ensures
            final(self).wf(),
            !final(self).active(domain@),
            forall|d: Seq<char>| d != domain@ ==> (#[trigger] final(self).active(d) == old(self).active(d)),
            forall|d: Seq<char>| d != domain@ && old(self).active(d) ==> #[trigger] final(self).challenge_of(d)
                == old(self).challenge_of(d),
    {
        let ghost d0 = domain@;
        match self.find(domain) {
            Some(i) => {
                let ghost before = self.entries@;
                self.entries.remove(i);
                assert forall|a: int| 0 <= a < self.entries@.len() implies #[trigger] self.domain_at(a)
                    == old(self).domain_at(if a < i { a } else { a + 1 }) by {
                    assert(self.entries@[a] == before[if a < i { a } else { a + 1 }]);
                }
                assert forall|a: int, b: int|
                    0 <= a < self.entries@.len() && 0 <= b < self.entries@.len() && a != b
                        implies #[trigger] self.domain_at(a) != #[trigger] self.domain_at(b) by {
                    let a0 = if a < i { a } else { a + 1 };
                    let b0 = if b < i { b } else { b + 1 };
                    assert(old(self).domain_at(a0) != old(self).domain_at(b0));
                }
                assert forall|a: int| 0 <= a < self.entries@.len() implies #[trigger] self.domain_at(a) != d0 by {
                    let a0 = if a < i { a } else { a + 1 };
                    assert(old(self).domain_at(a0) != old(self).domain_at(i as int));
                }
                assert forall|d: Seq<char>| d != d0 implies #[trigger] self.active(d) == old(self).active(d) by {
                    if old(self).active(d) {
                        let j = choose|j: int| 0 <= j < old(self).entries().len() && #[trigger] old(self).domain_at(j) == d;
                        let a = if j < i { j } else { j - 1 };
                        assert(self.domain_at(a) == d);
                    }
                    if self.active(d) {
                        let j = choose|j: int| 0 <= j < self.entries().len() && #[trigger] self.domain_at(j) == d;
                        assert(old(self).domain_at(if j < i { j } else { j + 1 }) == d);
                    }
                }
                assert forall|d: Seq<char>| d != d0 && old(self).active(d) implies #[trigger] self.challenge_of(d)
                    == old(self).challenge_of(d) by {
                    let j = choose|j: int| 0 <= j < old(self).entries().len() && #[trigger] old(self).domain_at(j) == d;
                    let a = if j < i { j } else { j - 1 };
                    assert(self.domain_at(a) == d);
                    let j2 = choose|j: int| 0 <= j < self.entries().len() && #[trigger] self.domain_at(j) == d;
                    let j3 = if j2 < i { j2 } else { j2 + 1 };
                    assert(old(self).domain_at(j3) == d);
                    assert(j3 == j);
                    assert(self.entries@[j2] == before[j3]);
                }
            },
            None => {},
        }
    }

    /// The challenge registered for `domain`, if any.
    pub fn get(&self, domain: &str) -> (r: Option<&ACMEChallenge<C>>)
        requires
            self.wf(),
        ensures
            r.is_none() <==> !self.active(domain@),
            r matches Some(c) ==> *c == self.challenge_of(domain@),
    {
        let d = domain.to_owned();
        match self.find(&d) {
            Some(i) => {
                assert(self.domain_at(i as int) == domain@);
                let ghost j = choose|j: int| 0 <= j < self.entries().len() && #[trigger] self.domain_at(j) == domain@;
                assert(i == j);
                Some(&self.entries[i].1)
            },
            None => None,
        }
    }
}

} // verus!
