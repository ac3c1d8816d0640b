use cert_manager::challenge::{ACMEChallenge, ACMEChallengeType};
use cert_manager::error::GatewayError;
use cert_manager::manager::{select_account, CertificateManager, CertificateServiceMessage};
use cert_manager::store::{Certificate, RENEWAL_WINDOW_SECS};

const NOW: u64 = 1_700_000_000;

fn cert(cfg: &str, domains: &[&str], not_after: u64) -> Certificate<String> {
    Certificate {
        not_after,
        domains: Some(domains.iter().map(|d| d.to_string()).collect()),
        config: cfg.to_string(),
    }
}

fn fresh(cfg: &str, domains: &[&str]) -> Certificate<String> {
    cert(cfg, domains, NOW + 90 * 24 * 3600)
}

fn names(domains: &[&str]) -> Vec<String> {
    domains.iter().map(|d| d.to_string()).collect()
}

fn acme_manager(kind: ACMEChallengeType) -> CertificateManager<String> {
    CertificateManager::new(Some((
        "admin@example.com".to_string(),
        kind,
        "https://acme.example.org/directory".to_string(),
    )))
    .ok()
    .unwrap()
}

#[test]
fn cold_serve() {
    let mut m: CertificateManager<String> = CertificateManager::new(None).ok().unwrap();
    let r = m.load_to_memory("t1", "a1", &names(&["example.com"]), Ok(fresh("cfg-1", &["example.com"])), NOW);
    assert_eq!(r, Ok(()));
    assert_eq!(m.get("example.com"), Ok(&"cfg-1".to_string()));
    assert_eq!(m.get("other.com"), Err(GatewayError::CertificateNotFound));
}

#[test]
fn cache_miss_then_acme_success() {
    let mut m = acme_manager(ACMEChallengeType::Http01);
    let domains = names(&["example.com"]);
    let first = m.load_to_memory("t1", "a1", &domains, Err(GatewayError::StorageError), NOW);
    assert_eq!(first, Err(GatewayError::StorageError));
    assert!(m.needs_issue(&first));
    assert_eq!(m.issue_start(true), Ok(ACMEChallengeType::Http01));
    let registered = m.register_challenges(vec![(
        "example.com".to_string(),
        ACMEChallenge::Http01("tok".to_string(), "tok.key".to_string()),
    )]);
    assert_eq!(registered, names(&["example.com"]));
    assert_eq!(m.get_acme_http_challenge("example.com"), Ok(("tok".to_string(), "tok.key".to_string())));
    assert_eq!(m.finish_issue(&registered, true), Ok(()));
    assert_eq!(m.challenge_count(), 0);
    let second = m.load_to_memory("t1", "a1", &domains, Ok(fresh("issued", &["example.com"])), NOW);
    assert_eq!(second, Ok(()));
    assert_eq!(m.get("example.com"), Ok(&"issued".to_string()));
}

#[test]
fn acme_disabled_cache_miss() {
    let mut m: CertificateManager<String> = CertificateManager::new(None).ok().unwrap();
    assert!(!m.is_acme_enabled());
    assert_eq!(m.acme_type(), None);
    let first = m.load_to_memory("t1", "a1", &names(&["example.com"]), Err(GatewayError::StorageError), NOW);
    assert!(first.is_err());
    assert!(!m.needs_issue(&first));
    assert_eq!(m.issue_start(true), Err(GatewayError::ACMEIsDisabled));
    assert_eq!(m.loaded_count(), 0);
    assert_eq!(m.get("example.com"), Err(GatewayError::CertificateNotFound));
}

#[test]
fn renewal_sweep() {
    let mut m = acme_manager(ACMEChallengeType::Http01);
    let expiring = cert("old", &["example.com"], NOW + 3600);
    assert_eq!(m.load_to_memory("t1", "a1", &names(&["example.com"]), Ok(cert("old", &["example.com"], NOW + 3600)), NOW - RENEWAL_WINDOW_SECS), Ok(()));
    let msgs = m.renewal_messages(NOW);
    assert_eq!(msgs.len(), 1);
    match &msgs[0] {
        CertificateServiceMessage::Load(u, a, ds) => {
            assert_eq!(u, "t1");
            assert_eq!(a, "a1");
            assert_eq!(ds, &names(&["example.com"]));
        }
        CertificateServiceMessage::Unload(_, _) => panic!("expected a load"),
    }
    let again = m.load_to_memory("t1", "a1", &names(&["example.com"]), Ok(expiring), NOW);
    assert_eq!(again, Err(GatewayError::CertificateRenewalRequired));
    assert!(m.needs_issue(&again));
    assert_eq!(m.issue_start(true), Ok(ACMEChallengeType::Http01));
}

#[test]
fn unload_clears_domains() {
    let mut m: CertificateManager<String> = CertificateManager::new(None).ok().unwrap();
    let r = m.load_to_memory("t1", "a1", &names(&["a.com", "b.com"]), Ok(fresh("cfg", &["a.com", "b.com"])), NOW);
    assert_eq!(r, Ok(()));
    assert_eq!(m.get("a.com"), Ok(&"cfg".to_string()));
    m.unload_from_memory("t1", "a1");
    assert_eq!(m.get("a.com"), Err(GatewayError::CertificateNotFound));
    assert_eq!(m.get("b.com"), Err(GatewayError::CertificateNotFound));
    assert_eq!(m.loaded_count(), 0);
}

#[test]
fn tls_alpn_path() {
    let mut m = acme_manager(ACMEChallengeType::TlsAlpn01);
    assert_eq!(m.acme_type(), Some(ACMEChallengeType::TlsAlpn01));
    let registered = m.register_challenges(vec![("example.com".to_string(), ACMEChallenge::TlsAlpn01("alpn".to_string()))]);
    assert_eq!(m.get_acme_tls_challenge("example.com"), Ok(&"alpn".to_string()));
    assert_eq!(m.get_acme_http_challenge("example.com"), Err(GatewayError::ACMEChallengeNotFound));
    assert_eq!(m.finish_issue(&registered, false), Err(GatewayError::ACMEFailed));
    assert_eq!(m.get_acme_tls_challenge("example.com"), Err(GatewayError::ACMEChallengeNotFound));
}

#[test]
fn issue_cleanup_keeps_other_challenges() {
    let mut m = acme_manager(ACMEChallengeType::Http01);
    let other = m.register_challenges(vec![("other.com".to_string(), ACMEChallenge::Http01("o".to_string(), "o.k".to_string()))]);
    assert_eq!(other.len(), 1);
    let mine = m.register_challenges(vec![
        ("a.com".to_string(), ACMEChallenge::Http01("a".to_string(), "a.k".to_string())),
        ("b.com".to_string(), ACMEChallenge::Http01("b".to_string(), "b.k".to_string())),
    ]);
    assert_eq!(m.challenge_count(), 3);
    assert_eq!(m.finish_issue(&mine, true), Ok(()));
    assert_eq!(m.challenge_count(), 1);
    assert_eq!(m.get_acme_http_challenge("a.com"), Err(GatewayError::ACMEChallengeNotFound));
    assert_eq!(m.get_acme_http_challenge("other.com"), Ok(("o".to_string(), "o.k".to_string())));
}

#[test]
fn failed_load_changes_nothing() {
    let mut m: CertificateManager<String> = CertificateManager::new(None).ok().unwrap();
    assert_eq!(m.load_to_memory("t1", "a1", &names(&["a.com"]), Ok(fresh("first", &["a.com"])), NOW), Ok(()));
    let r = m.load_to_memory("t1", "a1", &names(&["b.com"]), Ok(cert("late", &["b.com"], NOW + 10)), NOW);
    assert_eq!(r, Err(GatewayError::CertificateRenewalRequired));
    assert_eq!(m.get("a.com"), Ok(&"first".to_string()));
    assert_eq!(m.get("b.com"), Err(GatewayError::CertificateNotFound));
    assert_eq!(m.loaded_count(), 1);
}

#[test]
fn load_then_unload_is_noop() {
    let mut m: CertificateManager<String> = CertificateManager::new(None).ok().unwrap();
    assert_eq!(m.load_to_memory("t0", "a0", &names(&["z.com"]), Ok(fresh("z", &["z.com"])), NOW), Ok(()));
    assert_eq!(m.load_to_memory("t1", "a1", &names(&["z.com", "y.com"]), Ok(fresh("y", &["z.com", "y.com"])), NOW), Ok(()));
    assert_eq!(m.get("z.com"), Ok(&"y".to_string()));
    m.unload_from_memory("t1", "a1");
    assert_eq!(m.loaded_count(), 1);
    assert_eq!(m.get("z.com"), Ok(&"z".to_string()));
    assert_eq!(m.get("y.com"), Err(GatewayError::CertificateNotFound));
}

#[test]
fn invalid_email_is_refused() {
    let r: Result<CertificateManager<String>, GatewayError> =
        CertificateManager::new(Some(("not-an-email".to_string(), ACMEChallengeType::Http01, "https://acme".to_string())));
    assert_eq!(r.err(), Some(GatewayError::InvalidEmail));
    let empty: Result<CertificateManager<String>, GatewayError> =
        CertificateManager::new(Some((String::new(), ACMEChallengeType::Http01, "https://acme".to_string())));
    assert_eq!(empty.err(), Some(GatewayError::InvalidEmail));
    let m = acme_manager(ACMEChallengeType::Http01);
    assert!(m.is_acme_enabled());
}

#[test]
fn account_selection_order() {
    assert_eq!(select_account(Some(1), Some(2), Some(3)), Some(1));
    assert_eq!(select_account(None, Some(2), Some(3)), Some(2));
    assert_eq!(select_account(None, None, Some(3)), Some(3));
    assert_eq!(select_account::<u8>(None, None, None), None);
}

#[test]
fn issue_needs_an_account() {
    let m = acme_manager(ACMEChallengeType::Http01);
    assert_eq!(m.issue_start(false), Err(GatewayError::ACMEIsDisabled));
}
