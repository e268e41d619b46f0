use holochain_validation::store::{Element, ElementStore, MetaStore};
use holochain_validation::trigger::{QueueConsumer, Trigger, Wakeup, WorkComplete};
use holochain_validation::validate::{
    aggregate, next_status, RequiredValidationType, ValidateCallbackResult, ValidationPackage,
    ValidationPackageCallbackResult, ValidationStatus,
};

fn op(hash: u64) -> Element {
    Element {
        hash,
        author: 1,
        header_seq: 0,
        prev_header: None,
        timestamp: 0,
        signature_valid: true,
        content: 0,
        deps: vec![],
    }
}

#[test]
fn signals_coalesce_into_one_pass() {
    let mut t = Trigger::new();
    assert_eq!(t.listen(), Wakeup::Idle);
    for _ in 0..5 {
        t.signal();
    }
    assert_eq!(t.listen(), Wakeup::Run);
    assert_eq!(t.listen(), Wakeup::Idle);
    t.signal();
    t.close();
    assert_eq!(t.listen(), Wakeup::Closed);
    assert_eq!(t.listen(), Wakeup::Closed);
}

#[test]
fn consumer_follow_up() {
    let mut c = QueueConsumer::new();
    let first = c.pass_finished(WorkComplete::Incomplete, true);
    assert!(first.trigger_self);
    assert!(!first.trigger_downstream);
    assert!(first.notify_first);
    let second = c.pass_finished(WorkComplete::Complete, true);
    assert!(!second.trigger_self);
    assert!(second.trigger_downstream);
    assert!(!second.notify_first);
    let third = c.pass_finished(WorkComplete::Complete, false);
    assert!(!third.trigger_downstream);
    assert!(c.woken(Wakeup::Run));
    assert!(!c.woken(Wakeup::Idle));
    assert!(!c.woken(Wakeup::Closed));
    assert!(c.stopped);
    assert!(!c.woken(Wakeup::Run));
}

#[test]
fn aggregate_prefers_invalid() {
    let r = aggregate(vec![
        ValidateCallbackResult::UnresolvedDependencies(vec![1]),
        ValidateCallbackResult::Invalid("first".to_string()),
        ValidateCallbackResult::Invalid("second".to_string()),
    ]);
    match r {
        ValidateCallbackResult::Invalid(s) => assert_eq!(s, "first"),
        _ => panic!("expected invalid"),
    }
}

#[test]
fn aggregate_collects_missing() {
    let r = aggregate(vec![
        ValidateCallbackResult::UnresolvedDependencies(vec![1, 2]),
        ValidateCallbackResult::Valid,
        ValidateCallbackResult::UnresolvedDependencies(vec![3]),
    ]);
    match r {
        ValidateCallbackResult::UnresolvedDependencies(v) => assert_eq!(v, vec![1, 2, 3]),
        _ => panic!("expected unresolved"),
    }
    assert!(matches!(aggregate(vec![ValidateCallbackResult::Valid]), ValidateCallbackResult::Valid));
    assert!(matches!(aggregate(vec![]), ValidateCallbackResult::Valid));
}

#[test]
fn status_transitions() {
    let invalid = ValidateCallbackResult::Invalid("x".to_string());
    let missing = ValidateCallbackResult::UnresolvedDependencies(vec![4]);
    let valid = ValidateCallbackResult::Valid;
    assert_eq!(next_status(None, &valid), Some(ValidationStatus::Valid));
    assert_eq!(next_status(None, &missing), None);
    assert_eq!(next_status(None, &invalid), Some(ValidationStatus::Rejected));
    assert_eq!(next_status(Some(ValidationStatus::Valid), &invalid), Some(ValidationStatus::Rejected));
    assert_eq!(next_status(Some(ValidationStatus::Rejected), &valid), Some(ValidationStatus::Rejected));
    assert_eq!(next_status(Some(ValidationStatus::Abandoned), &valid), Some(ValidationStatus::Abandoned));
    assert_eq!(next_status(Some(ValidationStatus::Abandoned), &missing), Some(ValidationStatus::Abandoned));
}

#[test]
fn callback_results() {
    assert!(ValidateCallbackResult::Invalid("x".to_string()).is_definitive());
    assert!(!ValidateCallbackResult::Valid.is_definitive());
    assert!(!ValidateCallbackResult::UnresolvedDependencies(vec![]).is_definitive());
    match ValidateCallbackResult::from_decoded(Err("cannot decode".to_string())) {
        ValidateCallbackResult::Invalid(s) => assert_eq!(s, "cannot decode"),
        _ => panic!("expected invalid"),
    }
    assert!(matches!(
        ValidateCallbackResult::from_decoded(Ok(ValidateCallbackResult::Valid)),
        ValidateCallbackResult::Valid
    ));
    assert!(ValidationPackageCallbackResult::Fail("no".to_string()).is_definitive());
    let pkg = ValidationPackage::new(vec![op(1), op(2)]);
    assert_eq!(pkg.0.len(), 2);
    assert!(!ValidationPackageCallbackResult::Success(pkg).is_definitive());
    match ValidationPackageCallbackResult::from_decoded(Err("bad".to_string())) {
        ValidationPackageCallbackResult::Fail(s) => assert_eq!(s, "bad"),
        _ => panic!("expected fail"),
    }
    assert_eq!(RequiredValidationType::default(), RequiredValidationType::Element);
}

#[test]
fn element_store_is_idempotent() {
    let mut s = ElementStore::new();
    assert_eq!(s.put(op(3)), 3);
    let mut again = op(3);
    again.content = 99;
    assert_eq!(s.put(again), 3);
    s.put(op(4));
    assert_eq!(s.len(), 2);
    assert_eq!(s.get(3).unwrap().content, 0);
    assert!(s.get(5).is_none());
    assert!(s.contains(4));
    assert_eq!(s.index_of(4), Some(1));
    assert_eq!(s.hashes(), vec![3, 4]);
    let removed = s.remove_at(0);
    assert_eq!(removed.hash, 3);
    assert_eq!(s.hashes(), vec![4]);
}

#[test]
fn meta_store_has_no_duplicate_rows() {
    let mut m = MetaStore::new();
    m.add(1, 10);
    m.add(2, 20);
    m.add(1, 11);
    m.add(1, 10);
    assert_eq!(m.get(1), vec![10, 11]);
    assert_eq!(m.get(2), vec![20]);
    assert!(m.get(3).is_empty());
    assert!(m.contains(1, 11));
    assert!(!m.contains(2, 10));
}
