use holochain_validation::cascade::{CascadeLocal, DbPair, Scope};
use holochain_validation::store::{Element, ScopeStore};
use holochain_validation::trigger::WorkComplete;
use holochain_validation::validate::{ValidateCallbackResult, ValidationStatus};
use holochain_validation::workflow::{OpStatus, Phase, Workspace};

fn op(hash: u64, deps: Vec<u64>) -> Element {
    Element {
        hash,
        author: 7,
        header_seq: 0,
        prev_header: None,
        timestamp: 100,
        signature_valid: true,
        content: hash * 10,
        deps,
    }
}

fn run_to_app(ws: &mut Workspace) {
    assert_eq!(ws.sys_validation_workflow(), WorkComplete::Complete);
}

#[test]
fn valid_operation_is_integrated() {
    let mut ws = Workspace::new(3);
    assert!(ws.submit(op(1, vec![])));
    run_to_app(&mut ws);
    assert!(matches!(ws.progress[0].phase, Phase::AwaitingApp));
    let verdicts = vec![(1u64, ValidateCallbackResult::Valid)];
    assert_eq!(ws.app_validation_workflow(&verdicts), WorkComplete::Complete);
    assert!(matches!(ws.progress[0].phase, Phase::AwaitingIntegration));
    assert_eq!(ws.integration_workflow(), WorkComplete::Complete);
    assert_eq!(ws.pending.element.len(), 0);
    assert_eq!(ws.integrated.element.hashes(), vec![1]);
    let cascade = ws.cascade();
    let (scope, found) = cascade.get(1).unwrap();
    assert_eq!(scope, Scope::Integrated);
    assert_eq!(found.hash, 1);
    assert_eq!(found.content, 10);
}

#[test]
fn unresolved_operation_is_abandoned() {
    let mut ws = Workspace::new(2);
    assert!(ws.submit(op(2, vec![])));
    run_to_app(&mut ws);
    for _ in 0..3 {
        let verdicts = vec![(2u64, ValidateCallbackResult::UnresolvedDependencies(vec![41]))];
        assert_eq!(ws.app_validation_workflow(&verdicts), WorkComplete::Incomplete);
    }
    assert_eq!(ws.progress[0].retries, 3);
    assert_eq!(ws.progress[0].missing, vec![41]);
    ws.integration_workflow();
    assert_eq!(ws.abandoned, vec![2]);
    assert_eq!(ws.pending.element.len(), 0);
    assert_eq!(ws.sys_validation_workflow(), WorkComplete::Complete);
    let verdicts = vec![(2u64, ValidateCallbackResult::Valid)];
    assert_eq!(ws.app_validation_workflow(&verdicts), WorkComplete::Complete);
    assert_eq!(ws.integration_workflow(), WorkComplete::Complete);
    assert_eq!(ws.integrated.element.len(), 0);
    assert!(!ws.submit(op(2, vec![])));
}

#[test]
fn retries_below_the_limit_keep_the_operation() {
    let mut ws = Workspace::new(2);
    ws.submit(op(2, vec![]));
    run_to_app(&mut ws);
    let verdicts = vec![(2u64, ValidateCallbackResult::UnresolvedDependencies(vec![41]))];
    ws.app_validation_workflow(&verdicts);
    ws.app_validation_workflow(&verdicts);
    ws.integration_workflow();
    assert_eq!(ws.abandoned.len(), 0);
    assert_eq!(ws.pending.element.len(), 1);
    let other = vec![(2u64, ValidateCallbackResult::UnresolvedDependencies(vec![42]))];
    ws.app_validation_workflow(&other);
    assert_eq!(ws.progress[0].retries, 1);
}

#[test]
fn invalid_operation_is_rejected_once() {
    let mut ws = Workspace::new(3);
    assert!(ws.submit(op(3, vec![])));
    run_to_app(&mut ws);
    let verdicts = vec![(3u64, ValidateCallbackResult::Invalid("bad content".to_string()))];
    assert_eq!(ws.app_validation_workflow(&verdicts), WorkComplete::Complete);
    assert_eq!(ws.integration_workflow(), WorkComplete::Complete);
    assert_eq!(ws.rejected.element.hashes(), vec![3]);
    assert_eq!(ws.rejections.len(), 1);
    assert_eq!(ws.rejections[0].hash, 3);
    assert_eq!(ws.rejections[0].reason, "bad content");
    assert!(!ws.submit(op(3, vec![])));
    assert_eq!(ws.pending.element.len(), 0);
    assert_eq!(ws.rejected.element.len(), 1);
    assert_eq!(ws.rejections.len(), 1);
}

#[test]
fn rerunning_integration_changes_nothing() {
    let mut ws = Workspace::new(3);
    ws.submit(op(1, vec![]));
    ws.submit(op(5, vec![1]));
    run_to_app(&mut ws);
    let verdicts = vec![(1u64, ValidateCallbackResult::Valid), (5u64, ValidateCallbackResult::Valid)];
    ws.app_validation_workflow(&verdicts);
    assert_eq!(ws.integration_workflow(), WorkComplete::Incomplete);
    assert_eq!(ws.integration_workflow(), WorkComplete::Complete);
    let hashes = ws.integrated.element.hashes();
    let rows = ws.integrated.meta.get(1);
    assert_eq!(hashes, vec![1, 5]);
    assert_eq!(rows, vec![5]);
    assert_eq!(ws.integration_workflow(), WorkComplete::Complete);
    assert_eq!(ws.sys_validation_workflow(), WorkComplete::Complete);
    assert_eq!(ws.integrated.element.hashes(), hashes);
    assert_eq!(ws.integrated.meta.get(1), rows);
    assert!(!ws.submit(op(5, vec![1])));
}

#[test]
fn prerequisites_are_integrated_first() {
    let mut ws = Workspace::new(5);
    ws.submit(op(9, vec![8]));
    run_to_app(&mut ws);
    ws.app_validation_workflow(&vec![(9u64, ValidateCallbackResult::Valid)]);
    assert_eq!(ws.integration_workflow(), WorkComplete::Incomplete);
    assert_eq!(ws.integrated.element.len(), 0);
    assert_eq!(ws.progress[0].missing, vec![8]);
    assert_eq!(ws.progress[0].retries, 1);
    ws.submit(op(8, vec![]));
    run_to_app(&mut ws);
    ws.app_validation_workflow(&vec![(8u64, ValidateCallbackResult::Valid)]);
    ws.integration_workflow();
    ws.integration_workflow();
    assert_eq!(ws.integrated.element.hashes(), vec![8, 9]);
    assert_eq!(ws.integrated.meta.get(8), vec![9]);
}

#[test]
fn sys_validation_rejects_bad_structure() {
    let mut ws = Workspace::new(3);
    let mut unsigned = op(20, vec![]);
    unsigned.signature_valid = false;
    let own = op(21, vec![21]);
    let mut gap = op(22, vec![]);
    gap.header_seq = 4;
    ws.submit(unsigned);
    ws.submit(own);
    ws.submit(gap);
    assert_eq!(ws.sys_validation_workflow(), WorkComplete::Complete);
    for p in ws.progress.iter() {
        assert!(matches!(p.phase, Phase::Invalid(_)));
    }
    assert_eq!(ws.integration_workflow(), WorkComplete::Complete);
    assert_eq!(ws.rejected.element.hashes(), vec![22, 21, 20]);
}

#[test]
fn sys_validation_waits_for_the_previous_header() {
    let mut ws = Workspace::new(3);
    let mut second = op(31, vec![]);
    second.header_seq = 1;
    second.prev_header = Some(30);
    second.timestamp = 200;
    ws.submit(second);
    assert_eq!(ws.sys_validation_workflow(), WorkComplete::Incomplete);
    assert_eq!(ws.progress[0].missing, vec![30]);
    ws.submit(op(30, vec![]));
    assert_eq!(ws.sys_validation_workflow(), WorkComplete::Complete);
    assert!(matches!(ws.progress[0].phase, Phase::AwaitingApp));
    assert!(matches!(ws.progress[1].phase, Phase::AwaitingApp));
}

#[test]
fn sys_validation_checks_the_chain_link() {
    let mut ws = Workspace::new(3);
    ws.submit(op(30, vec![]));
    let mut late = op(31, vec![]);
    late.header_seq = 1;
    late.prev_header = Some(30);
    late.timestamp = 50;
    ws.submit(late);
    ws.sys_validation_workflow();
    assert!(matches!(ws.progress[0].phase, Phase::AwaitingApp));
    assert!(matches!(ws.progress[1].phase, Phase::Invalid(_)));
}

#[test]
fn app_validation_without_verdict_keeps_operation() {
    let mut ws = Workspace::new(3);
    ws.submit(op(1, vec![]));
    run_to_app(&mut ws);
    assert_eq!(ws.app_validation_workflow(&vec![(77u64, ValidateCallbackResult::Valid)]), WorkComplete::Incomplete);
    assert!(matches!(ws.progress[0].phase, Phase::AwaitingApp));
    assert_eq!(ws.progress[0].retries, 0);
}

#[test]
fn cascade_answers_by_precedence() {
    let mut integrated = ScopeStore::new();
    let mut cache = ScopeStore::new();
    let mut a = op(50, vec![]);
    a.content = 1;
    let mut b = op(50, vec![]);
    b.content = 2;
    integrated.element.put(a);
    cache.element.put(b);
    integrated.meta.add(60, 50);
    let first = CascadeLocal::empty()
        .with_layer(Scope::Integrated, DbPair::new(&integrated.element, &integrated.meta))
        .with_layer(Scope::Cache, DbPair::new(&cache.element, &cache.meta));
    let (scope, e) = first.get(50).unwrap();
    assert_eq!(scope, Scope::Integrated);
    assert_eq!(e.content, 1);
    let second = CascadeLocal::empty()
        .with_layer(Scope::Cache, DbPair::new(&cache.element, &cache.meta))
        .with_layer(Scope::Integrated, DbPair::new(&integrated.element, &integrated.meta));
    let (scope, e) = second.get(50).unwrap();
    assert_eq!(scope, Scope::Cache);
    assert_eq!(e.content, 2);
    assert!(second.get(51).is_none());
    assert!(!second.contains(51));
    assert_eq!(second.get_meta(60), vec![50]);
    assert!(second.get_meta(61).is_empty());
}

#[test]
fn statuses_follow_the_pipeline() {
    let mut ws = Workspace::new(0);
    assert_eq!(ws.status(1), OpStatus::Unknown);
    ws.submit(op(1, vec![]));
    ws.submit(op(2, vec![]));
    ws.submit(op(3, vec![]));
    assert_eq!(ws.status(1), OpStatus::Pending);
    run_to_app(&mut ws);
    let verdicts = vec![
        (1u64, ValidateCallbackResult::Valid),
        (2u64, ValidateCallbackResult::Invalid("no".to_string())),
        (3u64, ValidateCallbackResult::UnresolvedDependencies(vec![9])),
    ];
    ws.app_validation_workflow(&verdicts);
    assert_eq!(ws.integration_workflow(), WorkComplete::Complete);
    assert_eq!(ws.status(1), OpStatus::Decided(ValidationStatus::Valid));
    assert_eq!(ws.status(2), OpStatus::Decided(ValidationStatus::Rejected));
    assert_eq!(ws.status(3), OpStatus::Decided(ValidationStatus::Abandoned));
    assert_eq!(ws.status(4), OpStatus::Unknown);
}

#[test]
fn previous_header_can_come_from_the_cache() {
    let mut ws = Workspace::new(3);
    let mut second = op(31, vec![]);
    second.header_seq = 1;
    second.prev_header = Some(30);
    second.timestamp = 200;
    ws.submit(second);
    assert_eq!(ws.sys_validation_workflow(), WorkComplete::Incomplete);
    ws.cache_fetched(op(30, vec![]));
    ws.cache_fetched(op(30, vec![]));
    assert_eq!(ws.cache.element.len(), 1);
    assert_eq!(ws.sys_validation_workflow(), WorkComplete::Complete);
    assert!(matches!(ws.progress[0].phase, Phase::AwaitingApp));
    let cascade = ws.cascade();
    assert_eq!(cascade.get(30).unwrap().0, Scope::Cache);
    assert_eq!(cascade.get(31).unwrap().0, Scope::Pending);
}
