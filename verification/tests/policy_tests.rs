use tiering::policies::dummy::DummyPolicy;
use tiering::policies::lru_2q::Lru2qPolicy;
use tiering::policies::{make_policy, SelectedPolicy};
use tiering::policy_engine::{ConfigError, PolicyEngine, ReorganizeError};

#[test]
fn valid_configuration_is_accepted() {
    let hot = b"/h".to_vec();
    let cold = vec![b"/warm".to_vec(), b"/cold".to_vec()];
    assert!(Lru2qPolicy::validate_config(&hot, &cold).is_ok());
}

#[test]
fn missing_cold_tier_is_rejected() {
    let hot = b"/h".to_vec();
    let cold: Vec<Vec<u8>> = vec![];
    assert!(matches!(
        Lru2qPolicy::validate_config(&hot, &cold),
        Err(ConfigError::NoColdTier)
    ));
}

#[test]
fn sibling_roots_sharing_a_name_prefix_are_valid() {
    let hot = b"/h".to_vec();
    let cold = vec![b"/warm".to_vec(), b"/warmer".to_vec()];
    assert!(Lru2qPolicy::validate_config(&hot, &cold).is_ok());
}

#[test]
fn nested_tier_roots_are_rejected() {
    let hot = b"/h".to_vec();
    let cold = vec![b"/h/cold".to_vec()];
    assert!(matches!(
        Lru2qPolicy::validate_config(&hot, &cold),
        Err(ConfigError::OverlappingTiers)
    ));
}

#[test]
fn equal_cold_roots_are_rejected() {
    let hot = b"/h".to_vec();
    let cold = vec![b"/warm".to_vec(), b"/warm".to_vec()];
    assert!(matches!(
        Lru2qPolicy::validate_config(&hot, &cold),
        Err(ConfigError::OverlappingTiers)
    ));
}

#[test]
fn empty_tier_path_is_rejected() {
    let hot = b"/h".to_vec();
    let cold = vec![b"".to_vec()];
    assert!(matches!(
        Lru2qPolicy::validate_config(&hot, &cold),
        Err(ConfigError::EmptyTierPath)
    ));
}

#[test]
fn dummy_accepts_any_config_with_a_cold_tier() {
    let hot = b"/h".to_vec();
    let cold = vec![b"/h/nested".to_vec()];
    assert!(DummyPolicy::validate_config(&hot, &cold).is_ok());
}

#[test]
fn dummy_requires_a_cold_tier() {
    let hot = b"/h".to_vec();
    let cold: Vec<Vec<u8>> = vec![];
    assert!(matches!(
        DummyPolicy::validate_config(&hot, &cold),
        Err(ConfigError::NoColdTier)
    ));
}

#[test]
fn make_policy_builds_the_dummy_policy() {
    let r = make_policy("dummy", b"/h".to_vec(), vec![b"/c".to_vec()]);
    match r {
        Ok(SelectedPolicy::Dummy(p)) => {
            assert_eq!(p.hot_storage, b"/h".to_vec());
            assert_eq!(p.cold_storage, vec![b"/c".to_vec()]);
        }
        _ => panic!("expected the dummy policy"),
    }
}

#[test]
fn make_policy_builds_the_lru_2q_policy() {
    let r = make_policy("lru_2q", b"/h".to_vec(), vec![b"/c".to_vec()]);
    match r {
        Ok(SelectedPolicy::Lru2q(p)) => {
            assert_eq!(p.hot_storage, b"/h".to_vec());
            assert_eq!(p.capacities.len(), 1);
            assert!(p.files.is_empty());
        }
        _ => panic!("expected the lru_2q policy"),
    }
}

#[test]
fn make_policy_rejects_overlapping_roots_for_lru_2q() {
    let r = make_policy("lru_2q", b"/h".to_vec(), vec![b"/h/cold".to_vec()]);
    assert!(matches!(r, Err(ConfigError::OverlappingTiers)));
}

#[test]
fn make_policy_rejects_unknown_names() {
    let r = make_policy("lfu", b"/h".to_vec(), vec![b"/c".to_vec()]);
    assert!(matches!(r, Err(ConfigError::UnknownPolicy)));
}

#[test]
fn make_policy_rejects_a_configuration_the_policy_refuses() {
    let r = make_policy("dummy", b"/h".to_vec(), vec![]);
    assert!(matches!(r, Err(ConfigError::NoColdTier)));
}

#[test]
fn dummy_policy_tracks_nothing_and_never_fails() {
    let mut d = DummyPolicy::new(b"/h".to_vec(), vec![b"/c".to_vec()]);
    PolicyEngine::ingest(&mut d, &[]);
    assert!(PolicyEngine::reorganize(&mut d).is_ok());
}

#[test]
fn only_a_lost_tier_root_is_fatal() {
    assert!(!ReorganizeError::IoError(b"a".to_vec()).is_fatal());
    assert!(!ReorganizeError::InconsistentState(b"a".to_vec()).is_fatal());
    assert!(ReorganizeError::FatalIoError(b"a".to_vec()).is_fatal());
}

#[test]
fn errors_describe_themselves() {
    assert!(!ConfigError::NoColdTier.describe().is_empty());
    assert!(!ConfigError::OverlappingTiers.describe().is_empty());
    assert!(!ConfigError::EmptyTierPath.describe().is_empty());
    assert!(!ConfigError::UnknownPolicy.describe().is_empty());
    let e = ReorganizeError::IoError(b"p".to_vec());
    assert!(!e.describe().is_empty());
    assert_eq!(e.path(), &b"p".to_vec());
}
