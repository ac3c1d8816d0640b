use cert_manager::config::{KeyPolicy, PassPhrase, E2EE};
use cert_manager::store::{Certificate, CertificateStore, RENEWAL_WINDOW_SECS};

fn cert(cfg: &str, not_after: u64, domains: Option<Vec<String>>) -> Certificate<String> {
    Certificate { not_after, domains, config: cfg.to_string() }
}

fn names(domains: &[&str]) -> Vec<String> {
    domains.iter().map(|d| d.to_string()).collect()
}

#[test]
fn renewal_window_boundaries() {
    let c = cert("c", 10 * RENEWAL_WINDOW_SECS, None);
    assert!(!c.renew_needed(9 * RENEWAL_WINDOW_SECS - 1));
    assert!(c.renew_needed(9 * RENEWAL_WINDOW_SECS));
    assert!(c.renew_needed(10 * RENEWAL_WINDOW_SECS + 5));
    let early = cert("e", 5, None);
    assert!(early.renew_needed(0));
}

#[test]
fn reinsert_replaces_domains() {
    let mut s: CertificateStore<String> = CertificateStore::new();
    s.insert("u".to_string(), "a".to_string(), &names(&["old.com", "keep.com"]), cert("one", u64::MAX, None));
    s.insert("u".to_string(), "a".to_string(), &names(&["keep.com"]), cert("two", u64::MAX, None));
    assert_eq!(s.len(), 1);
    assert_eq!(s.get_config("old.com"), None);
    assert_eq!(s.get_config("keep.com"), Some(&"two".to_string()));
}

#[test]
fn empty_domain_list_is_never_served() {
    let mut s: CertificateStore<String> = CertificateStore::new();
    s.insert("u".to_string(), "a".to_string(), &Vec::new(), cert("c", u64::MAX, None));
    assert_eq!(s.len(), 1);
    assert_eq!(s.get_config(""), None);
    assert_eq!(s.get_config("a.com"), None);
}

#[test]
fn insert_then_remove_restores() {
    let mut s: CertificateStore<String> = CertificateStore::new();
    s.insert("u0".to_string(), "a0".to_string(), &names(&["x.com"]), cert("x", u64::MAX, None));
    s.insert("u1".to_string(), "a1".to_string(), &names(&["x.com"]), cert("y", u64::MAX, None));
    assert_eq!(s.get_config("x.com"), Some(&"y".to_string()));
    s.remove("u1".to_string(), "a1".to_string());
    assert_eq!(s.len(), 1);
    assert_eq!(s.get_config("x.com"), Some(&"x".to_string()));
    s.remove("nobody".to_string(), "a0".to_string());
    assert_eq!(s.len(), 1);
}

#[test]
fn renew_needed_lists_due_entries_with_domains() {
    let mut s: CertificateStore<String> = CertificateStore::new();
    s.insert("due".to_string(), "a".to_string(), &names(&["d.com"]), cert("d", 100, Some(names(&["d.com", "e.com"]))));
    s.insert("unknown".to_string(), "a".to_string(), &names(&["u.com"]), cert("u", 100, None));
    s.insert("fine".to_string(), "a".to_string(), &names(&["f.com"]), cert("f", u64::MAX, Some(names(&["f.com"]))));
    let due = s.renew_needed(50);
    assert_eq!(due, vec![("due".to_string(), "a".to_string(), names(&["d.com", "e.com"]))]);
    assert!(s.renew_needed(0).len() == 1);
}

#[test]
fn key_policy_defaults_to_lax() {
    assert_eq!(KeyPolicy::default(), KeyPolicy::Lax);
    let p = PassPhrase::new("secret words".to_string());
    assert_eq!(p.policy, KeyPolicy::Lax);
    let E2EE::PassPhrase(inner) = E2EE::PassPhrase(p.clone());
    assert_eq!(inner.phrase, "secret words");
    assert_ne!(KeyPolicy::Strict, KeyPolicy::Lax);
}
