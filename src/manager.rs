use vstd::prelude::*;

use crate::challenge::{ACMEChallenge, ACMEChallengeType, ChallengeRegistry};
use crate::error::GatewayError;
use crate::store::{names_view, Certificate, CertificateStore, KeyView};

verus! {

/// Number of times an issuance polls the order status.
pub const CHALLENGE_RETRIES: u32 = 5;

/// Milliseconds between two polls of the order status.
pub const CHALLENGE_INTERVAL_MS: u64 = 10000;

/// Seconds between two renewal sweeps (six hours).
pub const RENEWAL_SWEEP_SECS: u64 = 21600;

/// Whether `validator::validate_email` accepts the address.
pub uninterp spec fn email_valid(s: Seq<char>) -> bool;

/// Relies on validator::validate_email: the verdict depends on the text alone,
/// and an empty address or one without `@` is refused.
#[verifier::external_body]
fn validate_email(s: &str) -> (r: bool)
    ensures
        r == email_valid(s@),
        r ==> s@.len() > 0 && s@.contains('@'),
{
    validator::validate_email(s)
}

/// A command for the control loop.
pub enum CertificateServiceMessage {
    Load(String, String, Vec<String>),
    Unload(String, String),
}

/// The account an issuance uses: the explicit one, else the tenancy's own,
/// else the manager's default.
pub fn select_account<A>(explicit: Option<A>, tenancy: Option<A>, default: Option<A>) -> (r: Option<A>)
    ensures
        r == (if explicit.is_some() {
            explicit
        } else if tenancy.is_some() {
            tenancy
        } else {
            default
        }),
{
    match explicit {
        Some(a) => Some(a),
        None => match tenancy {
            Some(a) => Some(a),
            None => default,
        },
    }
}

/// The certificate core: loaded certificates, live ACME challenges, and the
/// challenge type when ACME is enabled.
pub struct CertificateManager<C> {
    certificate_store: CertificateStore<C>,
    acme_configurations: ChallengeRegistry<C>,
    acme_type: Option<ACMEChallengeType>,
}

impl<C> CertificateManager<C> {
    pub closed spec fn store(&self) -> CertificateStore<C> {
        self.certificate_store
    }

    pub closed spec fn challenges(&self) -> ChallengeRegistry<C> {
        self.acme_configurations
    }

    pub closed spec fn challenge_type(&self) -> Option<ACMEChallengeType> {
        self.acme_type
    }

    pub open spec fn wf(&self) -> bool {
        self.store().wf() && self.challenges().wf()
    }

    /// Builds a manager. With `acme_info = (email, challenge type, directory)`
    /// ACME is enabled with that challenge type, once the email is valid.
    pub fn new(acme_info: Option<(String, ACMEChallengeType, String)>) -> (r: Result<Self, GatewayError>)
        ensures
            match acme_info {
                Some(info) => if email_valid(info.0@) {
                    r matches Ok(m) && m.challenge_type() == Some(info.1)
                } else {
                    r == Err::<Self, GatewayError>(GatewayError::InvalidEmail)
                },
                None => r matches Ok(m) && m.challenge_type().is_none(),
            },
            r matches Ok(m) ==> m.wf() && m.store().entries().len() == 0 && forall|d: Seq<char>|
                !m.challenges().active(d),
    {
        let acme_type = match acme_info {
            Some(info) => {
                if !validate_email(info.0.as_str()) {
                    return Err(GatewayError::InvalidEmail);
                }
                Some(info.1)
            },
            None => None,
        };
        Ok(CertificateManager {
            certificate_store: CertificateStore::new(),
            acme_configurations: ChallengeRegistry::new(),
            acme_type,
        })
    }

    pub fn is_acme_enabled(&self) -> (r: bool)
        ensures
            r == self.challenge_type().is_some(),
    {
        self.acme_type.is_some()
    }

    pub fn acme_type(&self) -> (r: Option<ACMEChallengeType>)
        ensures
            r == self.challenge_type(),
    {
        self.acme_type
    }

    /// Puts a certificate fetched from storage into memory. `fetched` is what
    /// storage returned for the tenancy; `now` is the time in seconds since
    /// the epoch. On an error nothing changes.
    pub fn load_to_memory(
        &mut self,
        uid: &str,
        agent_name: &str,
        domains: &Vec<String>,
        fetched: Result<Certificate<C>, GatewayError>,
        now: u64,
    ) -> (r: Result<(), GatewayError>)
        requires
            old(self).wf(),
        ensures
            final(self).wf(),
            final(self).challenges() == old(self).challenges(),
            final(self).challenge_type() == old(self).challenge_type(),
            match fetched {
                Err(e) => r == Err::<(), GatewayError>(e),
                Ok(c) => if c.renew_due(now) {
                    r == Err::<(), GatewayError>(GatewayError::CertificateRenewalRequired)
                } else {
                    r is Ok && CertificateStore::inserted(
                        old(self).store(),
                        final(self).store(),
                        (uid@, agent_name@),
                        names_view(domains@),
                        c,
                    )
                },
            },
            r is Err ==> final(self).store() == old(self).store(),
    {
        match fetched {
            Err(e) => Err(e),
            Ok(cert) => {
                if cert.renew_needed(now) {
                    return Err(GatewayError::CertificateRenewalRequired);
                }
                self.certificate_store.insert(uid.to_owned(), agent_name.to_owned(), domains, cert);
                Ok(())
            },
        }
    }

    /// Drops the tenancy's certificate from memory.
    pub fn unload_from_memory(&mut self, uid: &str, agent_name: &str)
        requires
            old(self).wf(),
        ensures
            final(self).wf(),
            final(self).challenges() == old(self).challenges(),
            final(self).challenge_type() == old(self).challenge_type(),
            CertificateStore::removed(old(self).store(), final(self).store(), (uid@, agent_name@)),
    {
        self.certificate_store.remove(uid.to_owned(), agent_name.to_owned());
    }

    /// The server configuration to serve for `domain`.
    pub fn get(&self, domain: &str) -> (r: Result<&C, GatewayError>)
        ensures
            r is Err <==> !self.store().served(domain@),
            r matches Err(e) ==> e == GatewayError::CertificateNotFound,
            r matches Ok(c) ==> self.store().serves_with(domain@, *c),
    {
        match self.certificate_store.get_config(domain) {
            Some(c) => Ok(c),
            None => Err(GatewayError::CertificateNotFound),
        }
    }

    /// The TLS-ALPN-01 configuration live for `domain`.
    pub fn get_acme_tls_challenge(&self, domain: &str) -> (r: Result<&C, GatewayError>)
        requires
            self.wf(),
        ensures
            match r {
                Ok(c) => self.challenges().active(domain@)
                    && self.challenges().challenge_of(domain@) == ACMEChallenge::<C>::TlsAlpn01(*c),
                Err(e) => e == GatewayError::ACMEChallengeNotFound && !(self.challenges().active(domain@)
                    && self.challenges().challenge_of(domain@) is TlsAlpn01),
            },
    {
        match self.acme_configurations.get(domain) {
            Some(ACMEChallenge::TlsAlpn01(conf)) => Ok(conf),
            _ => Err(GatewayError::ACMEChallengeNotFound),
        }
    }

    /// The HTTP-01 token and key authorization live for `domain`.
    pub fn get_acme_http_challenge(&self, domain: &str) -> (r: Result<(String, String), GatewayError>)
        requires
            self.wf(),
        ensures
            match r {
                Ok(p) => self.challenges().active(domain@) && (self.challenges().challenge_of(domain@) matches ACMEChallenge::Http01(t, k)
                    && t@ == p.0@ && k@ == p.1@),
                Err(e) => e == GatewayError::ACMEChallengeNotFound && !(self.challenges().active(domain@)
                    && self.challenges().challenge_of(domain@) is Http01),
            },
    {
        match self.acme_configurations.get(domain) {
            Some(ACMEChallenge::Http01(token, key_authorization)) => Ok((token.clone(), key_authorization.clone())),
            _ => Err(GatewayError::ACMEChallengeNotFound),
        }
    }
    /// How many tenancies have a certificate in memory.
    pub fn loaded_count(&self) -> (r: usize)
        ensures
            r == self.store().entries().len(),
    {
        self.certificate_store.len()
    }

    /// How many challenges are live.
    pub fn challenge_count(&self) -> (r: usize)
        ensures
            r == self.challenges().entries().len(),
    {
        self.acme_configurations.len()
    }

    /// Opens an issuance: the challenge type to solve, when ACME is enabled and
    /// an account is available.
    pub fn issue_start(&self, account_available: bool) -> (r: Result<ACMEChallengeType, GatewayError>)
        ensures
            account_available && self.challenge_type().is_some() ==> r == Ok::<ACMEChallengeType, GatewayError>(
                self.challenge_type().unwrap(),
            ),
            !(account_available && self.challenge_type().is_some()) ==> r == Err::<ACMEChallengeType, GatewayError>(
                GatewayError::ACMEIsDisabled,
            ),
    {
        match self.acme_type {
            Some(t) => if account_available {
                Ok(t)
            } else {
                Err(GatewayError::ACMEIsDisabled)
            },
            None => Err(GatewayError::ACMEIsDisabled),
        }
    }

    /// `post` is `pre` with each challenge of `list` registered for its domain,
    /// and `names` the domains so registered, in order.
    pub open spec fn registered(
        pre: Self,
        post: Self,
        list: Seq<(String, ACMEChallenge<C>)>,
        names: Seq<String>,
    ) -> bool {
        &&& post.store() == pre.store()
        &&& post.challenge_type() == pre.challenge_type()
        &&& names.len() == list.len()
        &&& forall|t: int| 0 <= t < names.len() ==> (#[trigger] names[t])@ == list[t].0@
        &&& forall|t: int| 0 <= t < names.len() ==> post.challenges().active(#[trigger] names[t]@)
        &&& forall|d: Seq<char>| !names_view(names).contains(d) ==> (#[trigger] post.challenges().active(d)
            == pre.challenges().active(d))
    }

    /// `post` is `pre` with no challenge left for any of `names`.
    pub open spec fn cleaned(pre: Self, post: Self, names: Seq<String>) -> bool {
        &&& post.store() == pre.store()
        &&& post.challenge_type() == pre.challenge_type()
        &&& forall|t: int| 0 <= t < names.len() ==> !post.challenges().active(#[trigger] names[t]@)
        &&& forall|d: Seq<char>| !names_view(names).contains(d) ==> (#[trigger] post.challenges().active(d)
            == pre.challenges().active(d))
    }

    /// Registers the challenges of an order, so that the side channels serve
    /// them, and returns their domains.
    pub fn register_challenges(&mut self, challenges: Vec<(String, ACMEChallenge<C>)>) -> (r: Vec<String>)
        requires
            old(self).wf(),
        ensures
            final(self).wf(),
            Self::registered(*old(self), *final(self), challenges@, r@),
    {
        let ghost orig = challenges@;
        let mut rest = challenges;
        let mut names: Vec<String> = Vec::new();
        while rest.len() > 0
            invariant
                self.wf(),
                self.store() == old(self).store(),
                self.challenge_type() == old(self).challenge_type(),
                names@.len() + rest@.len() == orig.len(),
                rest@ == orig.skip(names@.len() as int),
                forall|t: int| 0 <= t < names@.len() ==> (#[trigger] names@[t])@ == orig[t].0@,
                forall|t: int| 0 <= t < names@.len() ==> self.challenges().active(#[trigger] names@[t]@),
                forall|d: Seq<char>| !names_view(names@).contains(d) ==> (#[trigger] self.challenges().active(d)
                    == old(self).challenges().active(d)),
            decreases rest@.len(),
        {
            let ghost k = names@.len() as int;
            assert(rest@[0] == orig[k]);
            let (domain, challenge) = rest.remove(0);
            let ghost prev = self.challenges();
            let ghost prev_names = names@;
            self.acme_configurations.insert(domain.clone(), challenge);
            names.push(domain);
            assert(rest@ =~= orig.skip(names@.len() as int));
            assert forall|t: int| 0 <= t < names@.len() implies self.challenges().active(#[trigger] names@[t]@) by {
                if t < k && names@[t]@ != names@[k]@ {
                    assert(prev.active(prev_names[t]@));
                }
            }
            assert forall|d: Seq<char>| !names_view(names@).contains(d) implies (#[trigger] self.challenges().active(d)
                == old(self).challenges().active(d)) by {
                assert(d != names_view(names@)[k]);
                if names_view(prev_names).contains(d) {
                    let t = choose|t: int| 0 <= t < names_view(prev_names).len() && names_view(prev_names)[t] == d;
                    assert(names_view(names@)[t] == d);
                }
            }
        }
        names
    }

    /// Closes an issuance: removes every challenge it registered, whatever the
    /// outcome, then reports the outcome.
    pub fn finish_issue(&mut self, registered: &Vec<String>, succeeded: bool) -> (r: Result<(), GatewayError>)
        requires
            old(self).wf(),
        ensures
            final(self).wf(),
            Self::cleaned(*old(self), *final(self), registered@),
            r == (if succeeded {
                Ok::<(), GatewayError>(())
            } else {
                Err(GatewayError::ACMEFailed)
            }),
    {
        let mut i: usize = 0;
        while i < registered.len()
            invariant
                self.wf(),
                i <= registered@.len(),
                self.store() == old(self).store(),
                self.challenge_type() == old(self).challenge_type(),
                forall|t: int| 0 <= t < i ==> !self.challenges().active(#[trigger] registered@[t]@),
                forall|d: Seq<char>| !names_view(registered@.take(i as int)).contains(d) ==> (
                #[trigger] self.challenges().active(d) == old(self).challenges().active(d)),
            decreases registered@.len() - i,
        {
            let ghost prev_taken = registered@.take(i as int);
            self.acme_configurations.remove(&registered[i]);
            assert forall|d: Seq<char>| !names_view(registered@.take(i + 1)).contains(d) implies (
            #[trigger] self.challenges().active(d) == old(self).challenges().active(d)) by {
                assert(names_view(registered@.take(i + 1))[i as int] == registered@[i as int]@);
                if names_view(prev_taken).contains(d) {
                    let t = choose|t: int| 0 <= t < names_view(prev_taken).len() && names_view(prev_taken)[t] == d;
                    assert(names_view(registered@.take(i + 1))[t] == d);
                }
            }
            i = i + 1;
        }
        assert(registered@.take(registered@.len() as int) =~= registered@);
        if succeeded {
            Ok(())
        } else {
            Err(GatewayError::ACMEFailed)
        }
    }
    /// After the first load attempt of a `Load` command the control loop issues
    /// (and loads once more) exactly when that attempt failed and ACME is on.
    pub open spec fn issue_after_load(&self, first_load: Result<(), GatewayError>) -> bool {
        first_load is Err && self.challenge_type().is_some()
    }

    pub fn needs_issue(&self, first_load: &Result<(), GatewayError>) -> (r: bool)
        ensures
            r == self.issue_after_load(*first_load),
    {
        first_load.is_err() && self.acme_type.is_some()
    }

    /// The message reports an entry of the store that is due at `now`.
    pub open spec fn renewal_reported(&self, m: CertificateServiceMessage, now: u64) -> bool {
        match m {
            CertificateServiceMessage::Load(u, a, ds) => self.store().reports_due((u, a, ds), now),
            CertificateServiceMessage::Unload(_, _) => false,
        }
    }

    /// The messages that a renewal sweep at `now` sends: a `Load` for each
    /// entry whose certificate is due and whose SAN domains are known.
    pub fn renewal_messages(&self, now: u64) -> (r: Vec<CertificateServiceMessage>)
        ensures
            forall|t: int| 0 <= t < r@.len() ==> self.renewal_reported(#[trigger] r@[t], now),
            forall|i: int| 0 <= i < self.store().entries().len() && #[trigger] self.store().due_at(i, now)
                ==> exists|t: int| 0 <= t < r@.len() && (#[trigger] r@[t] matches CertificateServiceMessage::Load(u, a, ds)
                    && self.store().reports(i, (u, a, ds))),
    {
        let due = self.certificate_store.renew_needed(now);
        let mut out: Vec<CertificateServiceMessage> = Vec::new();
        let mut i: usize = 0;
        while i < due.len()
            invariant
                i <= due@.len(),
                out@.len() == i,
                forall|t: int| 0 <= t < due@.len() ==> self.store().reports_due(#[trigger] due@[t], now),
                forall|t: int| 0 <= t < i ==> (#[trigger] out@[t] matches CertificateServiceMessage::Load(u, a, ds)
                    && u@ == due@[t].0@ && a@ == due@[t].1@ && names_view(ds@) == names_view(due@[t].2@)),
            decreases due@.len() - i,
        {
            let item = &due[i];
            out.push(CertificateServiceMessage::Load(item.0.clone(), item.1.clone(), crate::store::clone_names(&item.2)));
            i = i + 1;
        }
        assert forall|t: int| 0 <= t < out@.len() implies self.renewal_reported(#[trigger] out@[t], now) by {
            assert(self.store().reports_due(due@[t], now));
            let j = choose|j: int| 0 <= j < self.store().entries().len() && self.store().due_at(j, now)
                && #[trigger] self.store().reports(j, due@[t]);
            if let CertificateServiceMessage::Load(u, a, ds) = out@[t] {
                assert(self.store().reports(j, (u, a, ds)));
            }
        }
        assert forall|i: int| 0 <= i < self.store().entries().len() && #[trigger] self.store().due_at(i, now)
            implies exists|t: int| 0 <= t < out@.len() && (#[trigger] out@[t] matches CertificateServiceMessage::Load(u, a, ds)
                && self.store().reports(i, (u, a, ds))) by {
            let t = choose|t: int| 0 <= t < due@.len() && #[trigger] self.store().reports(i, due@[t]);
            assert(out@[t] matches CertificateServiceMessage::Load(u, a, ds) && self.store().reports(i, (u, a, ds)));
        }
        out
    }
}


/// Challenge cleanup: once an issuance has registered its challenges and
/// closed, none of the domains it registered has a challenge left.
pub proof fn lemma_issue_leaves_no_challenge<C>(
    m0: CertificateManager<C>,
    m1: CertificateManager<C>,
    m2: CertificateManager<C>,
    challenges: Seq<(String, ACMEChallenge<C>)>,
    names: Seq<String>,
)
    requires
        CertificateManager::registered(m0, m1, challenges, names),
        CertificateManager::cleaned(m1, m2, names),
    ensures
        forall|t: int| 0 <= t < challenges.len() ==> !m2.challenges().active(#[trigger] challenges[t].0@),
        forall|d: Seq<char>| !names_view(names).contains(d) ==> (#[trigger] m2.challenges().active(d)
            == m0.challenges().active(d)),
        m2.store() == m0.store(),
{
    assert forall|t: int| 0 <= t < challenges.len() implies !m2.challenges().active(#[trigger] challenges[t].0@) by {
        assert(names[t]@ == challenges[t].0@);
    }
}

/// With ACME disabled, no result of a first load leads the control loop to
/// issue, and an issuance stops at its first step.
pub proof fn lemma_acme_disabled_never_issues<C>(m: CertificateManager<C>)
    requires
        m.challenge_type().is_none(),
    ensures
        forall|first_load: Result<(), GatewayError>| !#[trigger] m.issue_after_load(first_load),
{
}

/// Loading a certificate for a tenancy that is not in memory and then
/// unloading that tenancy leaves the store's entries as they were.
pub proof fn lemma_load_unload_restores<C>(
    m0: CertificateManager<C>,
    m1: CertificateManager<C>,
    m2: CertificateManager<C>,
    k: KeyView,
    names: Seq<Seq<char>>,
    cert: Certificate<C>,
)
    requires
        m0.wf(),
        m1.wf(),
        !m0.store().has_key(k),
        CertificateStore::inserted(m0.store(), m1.store(), k, names, cert),
        m1.challenges() == m0.challenges(),
        CertificateStore::removed(m1.store(), m2.store(), k),
        m2.challenges() == m1.challenges(),
    ensures
        m2.store().entries() == m0.store().entries(),
        m2.challenges() == m0.challenges(),
{
    crate::store::lemma_insert_remove_restores(m0.store(), m1.store(), m2.store(), k, names, cert);
}

} // verus!
