use vstd::prelude::*;

verus! {

/// Seconds before expiry during which a certificate is due for renewal (30 days).
pub const RENEWAL_WINDOW_SECS: u64 = 2592000;

/// A tenancy as a value: (uid, agent name).
pub type KeyView = (Seq<char>, Seq<char>);

/// The views of a list of domain names.
pub open spec fn names_view(v: Seq<String>) -> Seq<Seq<char>> {
    v.map_values(|s: String| s@)
}

/// A copy of a list of names.
pub fn clone_names(v: &Vec<String>) -> (r: Vec<String>)
    ensures
        names_view(r@) == names_view(v@),
{
    let mut names: Vec<String> = Vec::new();
    let mut j: usize = 0;
    while j < v.len()
        invariant
            j <= v@.len(),
            names@.len() == j,
            forall|t: int| 0 <= t < j ==> #[trigger] names@[t]@ == v@[t]@,
        decreases v@.len() - j,
    {
        names.push(v[j].clone());
        j = j + 1;
    }
    assert(names_view(names@) =~= names_view(v@));
    names
}

/// True iff `d` is one of `names`.
pub fn contains_name(names: &Vec<String>, d: &String) -> (r: bool)
    ensures
        r == names_view(names@).contains(d@),
{
    let mut j: usize = 0;
    while j < names.len()
        invariant
            j <= names@.len(),
            forall|t: int| 0 <= t < j ==> #[trigger] names@[t]@ != d@,
        decreases names@.len() - j,
    {
        if names[j] == *d {
            assert(names_view(names@)[j as int] == d@);
            return true;
        }
        j = j + 1;
    }
    assert forall|t: int| 0 <= t < names_view(names@).len() implies names_view(names@)[t] != d@ by {
        assert(names@[t]@ != d@);
    }
    false
}

/// A loaded certificate: its expiry (seconds since the epoch), the domains of
/// its SAN list when the chain parsed, and the server configuration it serves.
pub struct Certificate<C> {
    pub not_after: u64,
    pub domains: Option<Vec<String>>,
    pub config: C,
}

impl<C> Certificate<C> {
    /// True iff `now` lies within the renewal window before `not_after`.
    pub open spec fn renew_due(&self, now: u64) -> bool {
        now as int + RENEWAL_WINDOW_SECS as int >= self.not_after as int
    }

    pub fn renew_needed(&self, now: u64) -> (r: bool)
        ensures
            r == self.renew_due(now),
    {
        if self.not_after <= RENEWAL_WINDOW_SECS {
            true
        } else {
            now >= self.not_after - RENEWAL_WINDOW_SECS
        }
    }
}

/// One loaded certificate with the tenancy that owns it and the domains it is
/// indexed under.
pub struct Entry<C> {
    pub uid: String,
    pub agent_name: String,
    pub domains: Vec<String>,
    pub certificate: Certificate<C>,
}

impl<C> Entry<C> {
    pub open spec fn key(&self) -> KeyView {
        (self.uid@, self.agent_name@)
    }

    pub open spec fn domain_names(&self) -> Seq<Seq<char>> {
        names_view(self.domains@)
    }
}

/// In-memory certificates keyed by tenancy, in order of insertion (a
/// re-inserted tenancy moves to the end). The domain index is the view
/// `domain_index`, derived from the entries.
pub struct CertificateStore<C> {
    entries: Vec<Entry<C>>,
}

impl<C> CertificateStore<C> {
    pub closed spec fn entries(&self) -> Seq<Entry<C>> {
        self.entries@
    }

    pub open spec fn key_at(&self, i: int) -> KeyView {
        self.entries()[i].key()
    }

    /// Each tenancy occurs at most once.
    pub open spec fn wf(&self) -> bool {
        forall|i: int, j: int|
            0 <= i < self.entries().len() && 0 <= j < self.entries().len() && i != j
                ==> #[trigger] self.key_at(i) != #[trigger] self.key_at(j)
    }

    pub open spec fn has_key(&self, k: KeyView) -> bool {
        exists|i: int| 0 <= i < self.entries().len() && #[trigger] self.key_at(i) == k
    }

    /// `k` is indexed under domain `d`.
    pub open spec fn indexed(&self, d: Seq<char>, k: KeyView) -> bool {
        exists|i: int|
            0 <= i < self.entries().len() && #[trigger] self.key_at(i) == k
                && self.entries()[i].domain_names().contains(d)
    }

    /// The domains that some loaded certificate is indexed under.
    pub open spec fn served(&self, d: Seq<char>) -> bool {
        exists|i: int|
            0 <= i < self.entries().len() && #[trigger] self.entries()[i].domain_names().contains(d)
    }

    /// The reverse index: each served domain to the tenancies indexed under it.
    pub open spec fn domain_index(&self) -> Map<Seq<char>, Set<KeyView>> {
        Map::new(|d: Seq<char>| self.served(d), |d: Seq<char>| Set::new(|k: KeyView| self.indexed(d, k)))
    }

    /// `post` is `pre` after inserting `cert` for `k` under the domains `names`:
    /// the entry of `k`, if any, is dropped and the new one stands last.
    pub open spec fn inserted(pre: Self, post: Self, k: KeyView, names: Seq<Seq<char>>, cert: Certificate<C>) -> bool {
        let n = post.entries().len() - 1;
        &&& n >= 0
        &&& post.key_at(n) == k
        &&& post.entries()[n].domain_names() == names
        &&& post.entries()[n].certificate == cert
        &&& !pre.has_key(k) ==> post.entries().take(n) == pre.entries()
        &&& pre.has_key(k) ==> exists|i: int|
            0 <= i < pre.entries().len() && #[trigger] pre.key_at(i) == k
                && post.entries().take(n) == pre.entries().remove(i)
    }

    /// `post` is `pre` without the entry of `k`.
    pub open spec fn removed(pre: Self, post: Self, k: KeyView) -> bool {
        &&& !post.has_key(k)
        &&& !pre.has_key(k) ==> post.entries() == pre.entries()
        &&& pre.has_key(k) ==> exists|i: int|
            0 <= i < pre.entries().len() && #[trigger] pre.key_at(i) == k
                && post.entries() == pre.entries().remove(i)
    }

    /// The domains that the entry of `k` is indexed under.
    pub open spec fn domains_of(&self, k: KeyView) -> Seq<Seq<char>> {
        let i = choose|i: int| 0 <= i < self.entries().len() && #[trigger] self.key_at(i) == k;
        self.entries()[i].domain_names()
    }

    pub fn new() -> (r: Self)
        ensures
            r.wf(),
            r.entries().len() == 0,
    {
        CertificateStore { entries: Vec::new() }
    }

    pub fn len(&self) -> (r: usize)
        ensures
            r == self.entries().len(),
    {
        self.entries.len()
    }

    fn find(&self, uid: &String, agent_name: &String) -> (r: Option<usize>)
        requires
            self.wf(),
        ensures
            match r {
                Some(i) => i < self.entries().len() && self.key_at(i as int) == (uid@, agent_name@),
                None => !self.has_key((uid@, agent_name@)),
            },
    {
        let mut i: usize = 0;
        while i < self.entries.len()
            invariant
                i <= self.entries@.len(),
                forall|j: int| 0 <= j < i ==> #[trigger] self.key_at(j) != (uid@, agent_name@),
            decreases self.entries@.len() - i,
        {
            if self.entries[i].uid == *uid && self.entries[i].agent_name == *agent_name {
                return Some(i);
            }
            i = i + 1;
        }
        None
    }

    /// Stores `certificate` for the tenancy, replacing an earlier one, and
    /// indexes it under exactly `domains`.
    pub fn insert(&mut self, uid: String, agent_name: String, domains: &Vec<String>, certificate: Certificate<C>)
        requires
            old(self).wf(),
        ensures
            final(self).wf(),
            Self::inserted(*old(self), *final(self), (uid@, agent_name@), names_view(domains@), certificate),
    {
        let names = clone_names(domains);
        let ghost before = self.entries@;
        match self.find(&uid, &agent_name) {
            Some(i) => {
                self.entries.remove(i);
                assert forall|a: int, b: int|
                    0 <= a < self.entries@.len() && 0 <= b < self.entries@.len() && a != b
                        implies #[trigger] self.key_at(a) != #[trigger] self.key_at(b) by {
                    let a0 = if a < i { a } else { a + 1 };
                    let b0 = if b < i { b } else { b + 1 };
                    assert(self.key_at(a) == before[a0].key());
                    assert(self.key_at(b) == before[b0].key());
                    assert(old(self).key_at(a0) != old(self).key_at(b0));
                }
                assert forall|a: int| 0 <= a < self.entries@.len() implies #[trigger] self.key_at(a) != (uid@, agent_name@) by {
                    let a0 = if a < i { a } else { a + 1 };
                    assert(self.key_at(a) == before[a0].key());
                    assert(old(self).key_at(a0) != old(self).key_at(i as int));
                }
            },
            None => {
                assert forall|a: int| 0 <= a < self.entries@.len() implies #[trigger] self.key_at(a) != (uid@, agent_name@) by {
                    assert(old(self).key_at(a) == self.key_at(a));
                }
            },
        }
        let ghost mid = self.entries@;
        assert forall|a: int| 0 <= a < mid.len() implies #[trigger] mid[a].key() != (uid@, agent_name@) by {
            assert(self.key_at(a) == mid[a].key());
        }
        assert forall|a: int, b: int| 0 <= a < mid.len() && 0 <= b < mid.len() && a != b
            implies #[trigger] mid[a].key() != #[trigger] mid[b].key() by {
            assert(self.key_at(a) == mid[a].key());
            assert(self.key_at(b) == mid[b].key());
        }
        self.entries.push(Entry { uid, agent_name, domains: names, certificate });
        assert(self.entries@.take(mid.len() as int) =~= mid);
        assert forall|a: int, b: int|
            0 <= a < self.entries@.len() && 0 <= b < self.entries@.len() && a != b
                implies #[trigger] self.key_at(a) != #[trigger] self.key_at(b) by {
            if a < mid.len() {
                assert(self.key_at(a) == mid[a].key());
            }
            if b < mid.len() {
                assert(self.key_at(b) == mid[b].key());
            }
        }
    }

    /// Deletes the tenancy's certificate, and with it every index entry of it.
    pub fn remove(&mut self, uid: String, agent_name: String)
        requires
            old(self).wf(),
        ensures
            final(self).wf(),
            Self::removed(*old(self), *final(self), (uid@, agent_name@)),
    {
        let ghost before = self.entries@;
        match self.find(&uid, &agent_name) {
            Some(i) => {
                self.entries.remove(i);
                assert forall|a: int, b: int|
                    0 <= a < self.entries@.len() && 0 <= b < self.entries@.len() && a != b
                        implies #[trigger] self.key_at(a) != #[trigger] self.key_at(b) by {
                    let a0 = if a < i { a } else { a + 1 };
                    let b0 = if b < i { b } else { b + 1 };
                    assert(self.key_at(a) == before[a0].key());
                    assert(self.key_at(b) == before[b0].key());
                    assert(old(self).key_at(a0) != old(self).key_at(b0));
                }
                assert forall|a: int| 0 <= a < self.entries@.len() implies #[trigger] self.key_at(a) != (uid@, agent_name@) by {
                    let a0 = if a < i { a } else { a + 1 };
                    assert(self.key_at(a) == before[a0].key());
                    assert(old(self).key_at(a0) != old(self).key_at(i as int));
                }
            },
            None => {},
        }
    }
    /// `c` is the configuration of the last entry indexed under `d`.
    pub open spec fn serves_with(&self, d: Seq<char>, c: C) -> bool {
        exists|i: int|
            0 <= i < self.entries().len() && #[trigger] self.entries()[i].domain_names().contains(d)
                && c == self.entries()[i].certificate.config
                && forall|j: int| i < j < self.entries().len() ==> !(#[trigger] self.entries()[j].domain_names().contains(d))
    }

    /// The configuration of the most recently inserted tenancy indexed under
    /// `domain`, or `None` when no tenancy is.
    pub fn get_config(&self, domain: &str) -> (r: Option<&C>)
        ensures
            r.is_none() <==> !self.served(domain@),
            r matches Some(c) ==> self.serves_with(domain@, *c),
    {
        let d = domain.to_owned();
        let mut i: usize = self.entries.len();
        while i > 0
            invariant
                i <= self.entries@.len(),
                d@ == domain@,
                forall|j: int| i <= j < self.entries@.len() ==> !(#[trigger] self.entries()[j].domain_names().contains(domain@)),
            decreases i,
        {
            i = i - 1;
            if contains_name(&self.entries[i].domains, &d) {
                assert(self.entries()[i as int].domain_names().contains(domain@));
                return Some(&self.entries[i].certificate.config);
            }
        }
        None
    }

    /// Entry `i` is due for renewal at `now` and its SAN domains are known.
    pub open spec fn due_at(&self, i: int, now: u64) -> bool {
        self.entries()[i].certificate.renew_due(now) && self.entries()[i].certificate.domains.is_some()
    }

    /// Tenancy `k` holds a certificate that is due at `now` with known domains.
    pub open spec fn due_key(&self, k: KeyView, now: u64) -> bool {
        exists|i: int| 0 <= i < self.entries().len() && #[trigger] self.key_at(i) == k && self.due_at(i, now)
    }

    /// `item` reports entry `i`: its tenancy and its SAN domains.
    pub open spec fn reports(&self, i: int, item: (String, String, Vec<String>)) -> bool {
        &&& self.key_at(i) == (item.0@, item.1@)
        &&& names_view(self.entries()[i].certificate.domains.unwrap()@) == names_view(item.2@)
    }

    /// `item` reports some entry that is due for renewal at `now`.
    pub open spec fn reports_due(&self, item: (String, String, Vec<String>), now: u64) -> bool {
        exists|i: int| 0 <= i < self.entries().len() && self.due_at(i, now) && #[trigger] self.reports(i, item)
    }

    /// The tenancy and SAN domains of every entry whose certificate is due for
    /// renewal at `now` and whose domains are known, in store order.
    pub fn renew_needed(&self, now: u64) -> (r: Vec<(String, String, Vec<String>)>)
        ensures
            forall|t: int| 0 <= t < r@.len() ==> self.reports_due(#[trigger] r@[t], now),
            forall|i: int| 0 <= i < self.entries().len() && #[trigger] self.due_at(i, now) ==> exists|t: int|
                0 <= t < r@.len() && #[trigger] self.reports(i, r@[t]),
    {
        let mut out: Vec<(String, String, Vec<String>)> = Vec::new();
        let ghost mut src: Seq<int> = Seq::empty();
        let mut i: usize = 0;
        while i < self.entries.len()
            invariant
                i <= self.entries@.len(),
                src.len() == out@.len(),
                forall|t: int| 0 <= t < out@.len() ==> 0 <= #[trigger] src[t] < i && self.due_at(src[t], now)
                    && self.reports(src[t], out@[t]),
                forall|j: int| 0 <= j < i && #[trigger] self.due_at(j, now) ==> exists|t: int|
                    0 <= t < out@.len() && src[t] == j,
            decreases self.entries@.len() - i,
        {
            let e = &self.entries[i];
            let ghost old_src = src;
            let ghost old_out = out@;
            if e.certificate.renew_needed(now) {
                match &e.certificate.domains {
                    Some(ds) => {
                        let item = (e.uid.clone(), e.agent_name.clone(), clone_names(ds));
                        out.push(item);
                        proof {
                            src = src.push(i as int);
                        }
                        assert(self.reports(i as int, out@[out@.len() - 1]));
                    },
                    None => {},
                }
            }
            assert forall|j: int| 0 <= j < i + 1 && #[trigger] self.due_at(j, now) implies exists|t: int|
                0 <= t < out@.len() && src[t] == j by {
                if j == i as int {
                    assert(src[src.len() - 1] == j);
                } else {
                    let t = choose|t: int| 0 <= t < old_out.len() && old_src[t] == j;
                    assert(src[t] == j);
                }
            }
            i = i + 1;
        }
        assert forall|t: int| 0 <= t < out@.len() implies self.reports_due(#[trigger] out@[t], now) by {
            let i = src[t];
            assert(0 <= i < self.entries().len() && self.due_at(i, now) && self.reports(i, out@[t]));
        }
        assert forall|j: int| 0 <= j < self.entries().len() && #[trigger] self.due_at(j, now) implies exists|t: int|
            0 <= t < out@.len() && #[trigger] self.reports(j, out@[t]) by {
            let t = choose|t: int| 0 <= t < out@.len() && src[t] == j;
            assert(self.reports(src[t], out@[t]));
        }
        out
    }
}


/// Index consistency: in a well-formed store, `k` is in the domain index under
/// `d` exactly when `k` holds a certificate indexed under `d`.
pub proof fn lemma_index_consistent<C>(s: CertificateStore<C>, d: Seq<char>, k: KeyView)
    requires
        s.wf(),
    ensures
        (s.domain_index().dom().contains(d) && s.domain_index()[d].contains(k)) <==> (s.has_key(k)
            && s.domains_of(k).contains(d)),
{
    if s.has_key(k) {
        let i = choose|i: int| 0 <= i < s.entries().len() && #[trigger] s.key_at(i) == k;
        if s.indexed(d, k) {
            let j = choose|j: int|
                0 <= j < s.entries().len() && #[trigger] s.key_at(j) == k
                    && s.entries()[j].domain_names().contains(d);
            assert(i == j);
        }
        if s.domains_of(k).contains(d) {
            assert(s.served(d));
            assert(s.indexed(d, k));
        }
    }
    if s.domain_index().dom().contains(d) && s.domain_index()[d].contains(k) {
        assert(s.indexed(d, k));
    }
}

/// The domain index holds no empty set of tenancies.
pub proof fn lemma_no_empty_sets<C>(s: CertificateStore<C>, d: Seq<char>)
    requires
        s.domain_index().dom().contains(d),
    ensures
        s.domain_index()[d] != Set::<KeyView>::empty(),
{
    let i = choose|i: int| 0 <= i < s.entries().len() && #[trigger] s.entries()[i].domain_names().contains(d);
    assert(s.indexed(d, s.key_at(i)));
    assert(s.domain_index()[d].contains(s.key_at(i)));
}

/// Inserting a certificate for a tenancy that the store does not hold and then
/// removing that tenancy gives back the store's entries unchanged.
pub proof fn lemma_insert_remove_restores<C>(
    s0: CertificateStore<C>,
    s1: CertificateStore<C>,
    s2: CertificateStore<C>,
    k: KeyView,
    names: Seq<Seq<char>>,
    cert: Certificate<C>,
)
    requires
        s0.wf(),
        s1.wf(),
        !s0.has_key(k),
        CertificateStore::inserted(s0, s1, k, names, cert),
        CertificateStore::removed(s1, s2, k),
    ensures
        s2.entries() == s0.entries(),
{
    let n = s1.entries().len() - 1;
    assert(s1.key_at(n) == k);
    assert(s1.has_key(k));
    let i = choose|i: int|
        0 <= i < s1.entries().len() && #[trigger] s1.key_at(i) == k && s2.entries() == s1.entries().remove(i);
    assert(i == n);
    assert(s1.entries().remove(n) =~= s1.entries().take(n));
}


/// A certificate that is due for renewal stays due, and so keeps being
/// reported by `renew_needed`, while other tenancies are inserted or removed.
pub proof fn lemma_due_entry_persists<C>(
    s0: CertificateStore<C>,
    s1: CertificateStore<C>,
    k: KeyView,
    other: KeyView,
    names: Seq<Seq<char>>,
    cert: Certificate<C>,
    now: u64,
)
    requires
        s0.due_key(k, now),
        other != k,
        CertificateStore::inserted(s0, s1, other, names, cert) || CertificateStore::removed(s0, s1, other),
    ensures
        s1.due_key(k, now),
{
    let i = choose|i: int| 0 <= i < s0.entries().len() && #[trigger] s0.key_at(i) == k && s0.due_at(i, now);
    if CertificateStore::inserted(s0, s1, other, names, cert) {
        let n = s1.entries().len() - 1;
        if s0.has_key(other) {
            let r = choose|r: int|
                0 <= r < s0.entries().len() && #[trigger] s0.key_at(r) == other
                    && s1.entries().take(n) == s0.entries().remove(r);
            assert(i != r);
            let j = if i < r { i } else { i - 1 };
            assert(s0.entries().remove(r).len() == s0.entries().len() - 1);
            assert(0 <= j < n);
            assert(s1.entries().take(n)[j] == s0.entries()[i]);
            assert(s1.entries()[j] == s1.entries().take(n)[j]);
            assert(s1.key_at(j) == k && s1.due_at(j, now));
        } else {
            assert(0 <= i < n);
            assert(s1.entries().take(n)[i] == s0.entries()[i]);
            assert(s1.entries()[i] == s1.entries().take(n)[i]);
            assert(s1.key_at(i) == k && s1.due_at(i, now));
        }
    } else {
        if s0.has_key(other) {
            let r = choose|r: int|
                0 <= r < s0.entries().len() && #[trigger] s0.key_at(r) == other
                    && s1.entries() == s0.entries().remove(r);
            assert(i != r);
            let j = if i < r { i } else { i - 1 };
            assert(s1.entries()[j] == s0.entries()[i]);
            assert(s1.key_at(j) == k && s1.due_at(j, now));
        } else {
            assert(s1.key_at(i) == k && s1.due_at(i, now));
        }
    }
}

} // verus!
