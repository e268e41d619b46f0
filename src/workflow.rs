//! The workspace that the workflow stages read and write, and the stages
//! themselves: sys-validation, app-validation and integration.
use vstd::prelude::*;

use crate::cascade::{cascade_find, CascadeLocal, DbPair, Scope};
use crate::store::{has_hash, unique_hashes, Element, ScopeStore};
use crate::trigger::WorkComplete;
use crate::validate::{ValidateCallbackResult, ValidationStatus};
use crate::AnyDhtHash;

verus! {

/// How far a pending operation has come.
#[derive(Debug)]
pub enum Phase {
    AwaitingSys,
    AwaitingApp,
    AwaitingIntegration,
    /// A check failed definitively; integration moves it to the Rejected scope.
    Invalid(String),
}

/// The bookkeeping of one pending operation.
#[derive(Debug)]
pub struct OpProgress {
    pub phase: Phase,
    /// Consecutive passes that ended with the same missing dependencies.
    pub retries: u64,
    /// The dependencies found missing by the last pass, if it found any.
    pub missing: Vec<AnyDhtHash>,
}

/// Why a rejected operation was rejected.
#[derive(Debug)]
pub struct Rejection {
    pub hash: AnyDhtHash,
    pub reason: String,
}

/// Every record in `s` lists only prerequisites that come before it.
pub open spec fn causally_ordered(s: Seq<Element>) -> bool {
    forall|i: int, k: int|
        0 <= i < s.len() && 0 <= k < s[i].deps@.len() ==> has_hash(s.take(i), #[trigger] s[i].deps@[k])
}

/// A workflow stage.
#[derive(Clone, Copy, Debug, PartialEq, Eq, Structural)]
pub enum Stage {
    SysValidation,
    AppValidation,
    Integration,
}

/// Whether a pending operation in `phase` is work for `stage`.
pub open spec fn awaits(phase: Phase, stage: Stage) -> bool {
    match stage {
        Stage::SysValidation => phase is AwaitingSys,
        Stage::AppValidation => phase is AwaitingApp,
        Stage::Integration => phase is AwaitingIntegration || phase is Invalid,
    }
}

fn phase_awaits(phase: &Phase, stage: Stage) -> (r: bool)
    ensures
        r == awaits(*phase, stage),
{
    match stage {
        Stage::SysValidation => matches!(phase, Phase::AwaitingSys),
        Stage::AppValidation => matches!(phase, Phase::AwaitingApp),
        Stage::Integration => matches!(phase, Phase::AwaitingIntegration) || matches!(phase, Phase::Invalid(_)),
    }
}

/// What the structural checks make of `e`, given what `layers` can see.
#[derive(Clone, Copy, Debug, PartialEq, Eq, Structural)]
pub enum SysOutcome {
    Valid,
    Invalid,
    /// The previous header cannot be found yet.
    Missing(AnyDhtHash),
}

/// Structural and provenance checks: a valid signature, no dependency on
/// itself, a previous header exactly when the sequence number is not 0, and
/// a previous header by the same author, one step earlier in sequence and
/// not later in time.
pub open spec fn sys_outcome(layers: Seq<(Scope, Seq<Element>)>, e: Element) -> SysOutcome {
    if !e.signature_valid || e.deps@.contains(e.hash) || (e.header_seq == 0) != (e.prev_header is None) {
        SysOutcome::Invalid
    } else {
        match e.prev_header {
            None => SysOutcome::Valid,
            Some(p) => match cascade_find(layers, p) {
                None => SysOutcome::Missing(p),
                Some((_, pe)) => if pe.author == e.author && pe.header_seq + 1 == e.header_seq
                    && pe.timestamp <= e.timestamp {
                    SysOutcome::Valid
                } else {
                    SysOutcome::Invalid
                },
            },
        }
    }
}

fn lists_hash(hs: &Vec<AnyDhtHash>, h: AnyDhtHash) -> (r: bool)
    ensures
        r == hs@.contains(h),
{
    let mut i: usize = 0;
    while i < hs.len()
        invariant
            0 <= i <= hs@.len(),
            forall|k: int| 0 <= k < i ==> hs@[k] != h,
        decreases hs@.len() - i,
    {
        if hs[i] == h {
            return true;
        }
        i = i + 1;
    }
    false
}

/// Runs the structural checks on `e` through `cascade`.
pub fn sys_validate(cascade: &CascadeLocal, e: &Element) -> (r: ValidateCallbackResult)
    requires
        cascade.wf(),
    ensures
        sys_outcome(cascade.elements(), *e) == SysOutcome::Valid ==> r is Valid,
        sys_outcome(cascade.elements(), *e) == SysOutcome::Invalid ==> r is Invalid,
        sys_outcome(cascade.elements(), *e) matches SysOutcome::Missing(p) ==> (r matches
            ValidateCallbackResult::UnresolvedDependencies(v) && v@ == seq![p]),
{
    if !e.signature_valid {
        return ValidateCallbackResult::Invalid("invalid signature".to_owned());
    }
    if lists_hash(&e.deps, e.hash) {
        return ValidateCallbackResult::Invalid("depends on itself".to_owned());
    }
    if (e.header_seq == 0) != e.prev_header.is_none() {
        return ValidateCallbackResult::Invalid("broken header sequence".to_owned());
    }
    match e.prev_header {
        None => ValidateCallbackResult::Valid,
        Some(p) => match cascade.get(p) {
            None => ValidateCallbackResult::UnresolvedDependencies(vec![p]),
            Some((_, pe)) => {
                if pe.author == e.author && pe.header_seq < e.header_seq && pe.header_seq + 1
                    == e.header_seq && pe.timestamp <= e.timestamp {
                    ValidateCallbackResult::Valid
                } else {
                    ValidateCallbackResult::Invalid("previous header does not match".to_owned())
                }
            },
        },
    }
}

/// The retry count after a pass that found `missing` absent: one more than
/// before when the same dependencies were missing last time, else 1.
pub open spec fn retries_after(p: OpProgress, missing: Seq<AnyDhtHash>) -> u64 {
    if p.missing@ == missing {
        if p.retries < u64::MAX {
            (p.retries + 1) as u64
        } else {
            p.retries
        }
    } else {
        1
    }
}

fn same_hashes(a: &Vec<AnyDhtHash>, b: &Vec<AnyDhtHash>) -> (r: bool)
    ensures
        r == (a@ == b@),
{
    if a.len() != b.len() {
        return false;
    }
    let mut i: usize = 0;
    while i < a.len()
        invariant
            a@.len() == b@.len(),
            0 <= i <= a@.len(),
            forall|k: int| 0 <= k < i ==> a@[k] == b@[k],
        decreases a@.len() - i,
    {
        if a[i] != b[i] {
            return false;
        }
        i = i + 1;
    }
    assert(a@ == b@);
    true
}

/// The bookkeeping of an operation that stays in `phase` with `missing`
/// dependencies.
fn still_pending(phase: Phase, p: &OpProgress, missing: Vec<AnyDhtHash>) -> (q: OpProgress)
    ensures
        q.phase == phase,
        q.missing@ == missing@,
        q.retries == retries_after(*p, missing@),
{
    let retries = if same_hashes(&p.missing, &missing) {
        if p.retries < u64::MAX {
            p.retries + 1
        } else {
            p.retries
        }
    } else {
        1
    };
    OpProgress { phase, retries, missing }
}

/// How a verdict moves the bookkeeping `p` of an operation on to `q`: success
/// moves it to `next`, a failure marks it invalid with the verdict's reason,
/// and missing dependencies keep it where it is and count the retry.
pub open spec fn verdict_applied(p: OpProgress, v: ValidateCallbackResult, next: Phase, q: OpProgress) -> bool {
    match v {
        ValidateCallbackResult::Valid => q.phase == next && q.retries == 0 && q.missing@.len() == 0,
        ValidateCallbackResult::Invalid(reason) => (q.phase matches Phase::Invalid(s) && s@ == reason@)
            && q.retries == p.retries && q.missing@ == p.missing@,
        ValidateCallbackResult::UnresolvedDependencies(ms) => q.phase == p.phase && q.missing@ == ms@
            && q.retries == retries_after(p, ms@),
    }
}

fn copy_hashes(hs: &Vec<AnyDhtHash>) -> (r: Vec<AnyDhtHash>)
    ensures
        r@ == hs@,
{
    let mut r: Vec<AnyDhtHash> = Vec::new();
    let mut i: usize = 0;
    while i < hs.len()
        invariant
            0 <= i <= hs@.len(),
            r@ == hs@.take(i as int),
        decreases hs@.len() - i,
    {
        r.push(hs[i]);
        assert(hs@.take(i + 1) == hs@.take(i as int).push(hs@[i as int]));
        i = i + 1;
    }
    assert(hs@.take(i as int) == hs@);
    r
}

/// Applies verdict `v` to the bookkeeping `p` of an operation whose phase is
/// `current` (a copy of `p.phase` that carries no reason).
fn apply_verdict(current: Phase, p: &OpProgress, v: &ValidateCallbackResult, next: Phase) -> (q: OpProgress)
    requires
        current == p.phase,
        !(current is Invalid),
    ensures
        verdict_applied(*p, *v, next, q),
{
    match v {
        ValidateCallbackResult::Valid => OpProgress { phase: next, retries: 0, missing: Vec::new() },
        ValidateCallbackResult::Invalid(reason) => OpProgress {
            phase: Phase::Invalid(reason.clone()),
            retries: p.retries,
            missing: copy_hashes(&p.missing),
        },
        ValidateCallbackResult::UnresolvedDependencies(ms) => still_pending(current, p, copy_hashes(ms)),
    }
}

/// `k` is the first verdict given for the operation `h`.
pub open spec fn first_verdict_at(vs: Seq<(AnyDhtHash, ValidateCallbackResult)>, h: AnyDhtHash, k: int) -> bool {
    &&& 0 <= k < vs.len()
    &&& vs[k].0 == h
    &&& forall|j: int| 0 <= j < k ==> (#[trigger] vs[j]).0 != h
}

fn find_verdict(vs: &Vec<(AnyDhtHash, ValidateCallbackResult)>, h: AnyDhtHash) -> (r: Option<usize>)
    ensures
        r matches Some(k) ==> first_verdict_at(vs@, h, k as int),
        r is None ==> forall|j: int| 0 <= j < vs@.len() ==> (#[trigger] vs@[j]).0 != h,
{
    let mut i: usize = 0;
    while i < vs.len()
        invariant
            0 <= i <= vs@.len(),
            forall|j: int| 0 <= j < i ==> (#[trigger] vs@[j]).0 != h,
        decreases vs@.len() - i,
    {
        if vs[i].0 == h {
            return Some(i);
        }
        i = i + 1;
    }
    None
}

proof fn lemma_has_hash_after_remove(s: Seq<Element>, k: int, h: AnyDhtHash)
    requires
        0 <= k < s.len(),
        has_hash(s, h),
        s[k].hash != h,
    ensures
        has_hash(s.remove(k), h),
{
    let i = choose|i: int| 0 <= i < s.len() && (#[trigger] s[i]).hash == h;
    if i < k {
        assert(s.remove(k)[i] == s[i]);
    } else {
        assert(s.remove(k)[i - 1] == s[i]);
    }
}

proof fn lemma_has_hash_of_remove(s: Seq<Element>, k: int, h: AnyDhtHash)
    requires
        0 <= k < s.len(),
        has_hash(s.remove(k), h),
    ensures
        has_hash(s, h),
{
    let r = s.remove(k);
    let i = choose|i: int| 0 <= i < r.len() && (#[trigger] r[i]).hash == h;
    if i < k {
        assert(r[i] == s[i]);
    } else {
        assert(r[i] == s[i + 1]);
    }
}

proof fn lemma_unique_remove(s: Seq<Element>, k: int)
    requires
        0 <= k < s.len(),
        unique_hashes(s),
    ensures
        !has_hash(s.remove(k), s[k].hash),
{
    let r = s.remove(k);
    if has_hash(r, s[k].hash) {
        let i = choose|i: int| 0 <= i < r.len() && (#[trigger] r[i]).hash == s[k].hash;
        if i < k {
            assert(r[i] == s[i]);
        } else {
            assert(r[i] == s[i + 1]);
        }
    }
}

proof fn lemma_has_hash_push(s: Seq<Element>, e: Element, h: AnyDhtHash)
    ensures
        has_hash(s.push(e), h) == (has_hash(s, h) || e.hash == h),
{
    let t = s.push(e);
    if has_hash(s, h) {
        let i = choose|i: int| 0 <= i < s.len() && (#[trigger] s[i]).hash == h;
        assert(t[i] == s[i]);
    }
    if e.hash == h {
        assert(t[s.len() as int] == e);
    }
    if has_hash(t, h) {
        let i = choose|i: int| 0 <= i < t.len() && (#[trigger] t[i]).hash == h;
        if i < s.len() {
            assert(t[i] == s[i]);
        }
    }
}

/// `e` is still pending in `ws`, with bookkeeping `p`.
pub open spec fn kept(ws: Workspace, e: Element, p: OpProgress) -> bool {
    exists|k: int|
        0 <= k < ws.pending.element@.len() && #[trigger] ws.pending.element@[k] == e && ws.progress@[k] == p
}

/// `e`, which had bookkeeping `p`, is still pending in `ws` and awaits
/// integration, with the prerequisites found missing recorded and the retry
/// counted.
pub open spec fn kept_retrying(ws: Workspace, e: Element, p: OpProgress) -> bool {
    exists|k: int|
        0 <= k < ws.pending.element@.len() && #[trigger] ws.pending.element@[k] == e && {
            let q = ws.progress@[k];
            &&& q.phase is AwaitingIntegration
            &&& q.missing@.len() > 0
            &&& forall|d: AnyDhtHash| q.missing@.contains(d) ==> e.deps@.contains(d)
            &&& q.retries == retries_after(p, q.missing@)
        }
}

/// What an integration pass from `before` to `after` has done with the
/// operation pending at `j` in `before`: one past its retry limit is
/// abandoned; one marked invalid is rejected with its reason; one ready for
/// integration is integrated, at the latest when its prerequisites already
/// were, or else stays with the missing ones recorded; any other stays as it
/// was.
pub open spec fn integration_fate(before: Workspace, after: Workspace, j: int) -> bool {
    let p = before.progress@[j];
    let e = before.pending.element@[j];
    let h = e.hash;
    &&& p.retries > before.max_retries ==> after.abandoned@.contains(h) && !has_hash(after.pending.element@, h)
    &&& p.retries <= before.max_retries ==> match p.phase {
        Phase::Invalid(s) => {
            &&& has_hash(after.rejected.element@, h)
            &&& !has_hash(after.pending.element@, h)
            &&& exists|r: int|
                0 <= r < after.rejections@.len() && (#[trigger] after.rejections@[r]).hash == h
                    && after.rejections@[r].reason@ == s@
        },
        Phase::AwaitingIntegration => {
            &&& has_hash(after.integrated.element@, h) || kept_retrying(after, e, p)
            &&& (forall|d: AnyDhtHash| e.deps@.contains(d) ==> has_hash(before.integrated.element@, d))
                ==> has_hash(after.integrated.element@, h)
        },
        _ => kept(after, e, p),
    }
}

/// `after` only adds to what `before` has settled, and only takes from what
/// is pending.
pub open spec fn grows_from(before: Workspace, after: Workspace) -> bool {
    &&& before.integrated.element@.is_prefix_of(after.integrated.element@)
    &&& before.integrated.meta@.is_prefix_of(after.integrated.meta@)
    &&& before.rejected.element@.is_prefix_of(after.rejected.element@)
    &&& before.rejections@.is_prefix_of(after.rejections@)
    &&& before.abandoned@.is_prefix_of(after.abandoned@)
    &&& forall|x: AnyDhtHash| #[trigger] has_hash(after.pending.element@, x) ==> has_hash(before.pending.element@, x)
    &&& forall|x: AnyDhtHash| #[trigger] has_hash(after.integrated.element@, x) ==> has_hash(before.integrated.element@, x)
        || has_hash(before.pending.element@, x)
    &&& forall|x: AnyDhtHash| #[trigger] has_hash(after.rejected.element@, x) ==> has_hash(before.rejected.element@, x)
        || has_hash(before.pending.element@, x)
    &&& forall|x: AnyDhtHash| #[trigger] after.abandoned@.contains(x) ==> before.abandoned@.contains(x)
        || has_hash(before.pending.element@, x)
    &&& after.authored == before.authored
    &&& after.cache == before.cache
    &&& after.max_retries == before.max_retries
}

proof fn lemma_prefix_trans<A>(a: Seq<A>, b: Seq<A>, c: Seq<A>)
    requires
        a.is_prefix_of(b),
        b.is_prefix_of(c),
    ensures
        a.is_prefix_of(c),
{
    assert forall|i: int| 0 <= i < a.len() implies a[i] == c.subrange(0, a.len() as int)[i] by {
        assert(a[i] == b.subrange(0, a.len() as int)[i]);
        assert(b[i] == c.subrange(0, b.len() as int)[i]);
    }
    assert(a =~= c.subrange(0, a.len() as int));
}

proof fn lemma_has_hash_prefix(a: Seq<Element>, b: Seq<Element>, h: AnyDhtHash)
    requires
        a.is_prefix_of(b),
        has_hash(a, h),
    ensures
        has_hash(b, h),
{
    let i = choose|i: int| 0 <= i < a.len() && (#[trigger] a[i]).hash == h;
    assert(b.subrange(0, a.len() as int)[i] == b[i]);
}

proof fn lemma_grows_trans(a: Workspace, b: Workspace, c: Workspace)
    requires
        grows_from(a, b),
        grows_from(b, c),
    ensures
        grows_from(a, c),
{
    lemma_prefix_trans(a.integrated.element@, b.integrated.element@, c.integrated.element@);
    lemma_prefix_trans(a.integrated.meta@, b.integrated.meta@, c.integrated.meta@);
    lemma_prefix_trans(a.rejected.element@, b.rejected.element@, c.rejected.element@);
    lemma_prefix_trans(a.rejections@, b.rejections@, c.rejections@);
    lemma_prefix_trans(a.abandoned@, b.abandoned@, c.abandoned@);
}

proof fn lemma_fate_step(before: Workspace, mid: Workspace, after: Workspace, j: int, m: int, q: OpProgress)
    requires
        0 <= j < before.pending.element@.len(),
        integration_fate(before, mid, j),
        grows_from(mid, after),
        0 <= m < mid.pending.element@.len(),
        mid.pending.element@[m].hash != before.pending.element@[j].hash,
        mid.progress@.len() == mid.pending.element@.len(),
        (after.pending.element@ == mid.pending.element@.remove(m) && after.progress@ == mid.progress@.remove(m))
            || (after.pending.element@ == mid.pending.element@ && after.progress@ == mid.progress@.update(m, q)),
    ensures
        integration_fate(before, after, j),
{
    let h = before.pending.element@[j].hash;
    let p = before.progress@[j];
    let e = before.pending.element@[j];
    let removed = after.pending.element@ == mid.pending.element@.remove(m) && after.progress@ == mid.progress@.remove(m);
    if has_hash(mid.pending.element@, h) {
        if removed {
            lemma_has_hash_after_remove(mid.pending.element@, m, h);
        }
    }
    if kept(mid, e, p) {
        let k = choose|k: int|
            0 <= k < mid.pending.element@.len() && #[trigger] mid.pending.element@[k] == e && mid.progress@[k] == p;
        assert(k != m);
        let k2 = if removed && k > m { k - 1 } else { k };
        assert(after.pending.element@[k2] == e);
        assert(after.progress@[k2] == p);
    }
    if kept_retrying(mid, e, p) {
        let k = choose|k: int|
            0 <= k < mid.pending.element@.len() && #[trigger] mid.pending.element@[k] == e && {
                let q = mid.progress@[k];
                &&& q.phase is AwaitingIntegration
                &&& q.missing@.len() > 0
                &&& forall|d: AnyDhtHash| q.missing@.contains(d) ==> e.deps@.contains(d)
                &&& q.retries == retries_after(p, q.missing@)
            };
        assert(k != m);
        let k2 = if removed && k > m { k - 1 } else { k };
        assert(after.pending.element@[k2] == e);
        assert(after.progress@[k2] == mid.progress@[k]);
    }
    if !has_hash(mid.pending.element@, h) {
        assert(!has_hash(after.pending.element@, h));
    }
    if has_hash(mid.integrated.element@, h) {
        lemma_has_hash_prefix(mid.integrated.element@, after.integrated.element@, h);
    }
    if has_hash(mid.rejected.element@, h) {
        lemma_has_hash_prefix(mid.rejected.element@, after.rejected.element@, h);
    }
    if mid.abandoned@.contains(h) {
        let w = choose|w: int| 0 <= w < mid.abandoned@.len() && mid.abandoned@[w] == h;
        assert(after.abandoned@.subrange(0, mid.abandoned@.len() as int)[w] == after.abandoned@[w]);
    }
    if p.retries <= before.max_retries {
        match p.phase {
            Phase::Invalid(s) => {
                let r = choose|r: int|
                    0 <= r < mid.rejections@.len() && (#[trigger] mid.rejections@[r]).hash == h
                        && mid.rejections@[r].reason@ == s@;
                assert(after.rejections@.subrange(0, mid.rejections@.len() as int)[r] == after.rejections@[r]);
                assert(after.rejections@[r] == mid.rejections@[r]);
            },
            _ => {},
        }
    }
}

proof fn lemma_grows_refl(a: Workspace)
    ensures
        grows_from(a, a),
{
    assert(a.integrated.element@.is_prefix_of(a.integrated.element@)) by {
        assert(a.integrated.element@ =~= a.integrated.element@.subrange(0, a.integrated.element@.len() as int));
    }
    assert(a.integrated.meta@.is_prefix_of(a.integrated.meta@)) by {
        assert(a.integrated.meta@ =~= a.integrated.meta@.subrange(0, a.integrated.meta@.len() as int));
    }
    assert(a.rejected.element@.is_prefix_of(a.rejected.element@)) by {
        assert(a.rejected.element@ =~= a.rejected.element@.subrange(0, a.rejected.element@.len() as int));
    }
    assert(a.rejections@.is_prefix_of(a.rejections@)) by {
        assert(a.rejections@ =~= a.rejections@.subrange(0, a.rejections@.len() as int));
    }
    assert(a.abandoned@.is_prefix_of(a.abandoned@)) by {
        assert(a.abandoned@ =~= a.abandoned@.subrange(0, a.abandoned@.len() as int));
    }
}

proof fn lemma_push_prefix<A>(a: Seq<A>, x: A)
    ensures
        a.is_prefix_of(a.push(x)),
{
    assert(a =~= a.push(x).subrange(0, a.len() as int));
}

proof fn lemma_same_prefix<A>(a: Seq<A>)
    ensures
        a.is_prefix_of(a),
{
    assert(a =~= a.subrange(0, a.len() as int));
}

proof fn lemma_meta_prefix<A>(a: Seq<A>, b: Seq<A>)
    requires
        b.take(a.len() as int) == a,
        b.len() >= a.len(),
    ensures
        a.is_prefix_of(b),
{
    assert(a =~= b.subrange(0, a.len() as int));
}

/// Where an operation stands, as a query sees it.
#[derive(Clone, Copy, Debug, PartialEq, Eq, Structural)]
pub enum OpStatus {
    /// Never taken in.
    Unknown,
    /// Taken in, not yet decided: not available yet.
    Pending,
    Decided(ValidationStatus),
}

pub open spec fn status_spec(ws: Workspace, h: AnyDhtHash) -> OpStatus {
    if has_hash(ws.integrated.element@, h) {
        OpStatus::Decided(ValidationStatus::Valid)
    } else if has_hash(ws.rejected.element@, h) {
        OpStatus::Decided(ValidationStatus::Rejected)
    } else if ws.abandoned@.contains(h) {
        OpStatus::Decided(ValidationStatus::Abandoned)
    } else if has_hash(ws.pending.element@, h) {
        OpStatus::Pending
    } else {
        OpStatus::Unknown
    }
}

/// A decided status is final: across an integration pass an integrated
/// operation stays valid, a rejected one stays rejected and an abandoned one
/// stays abandoned; an operation the pass was never given stays unknown.
pub proof fn lemma_status_never_regresses(before: Workspace, after: Workspace, h: AnyDhtHash)
    requires
        before.wf(),
        after.wf(),
        grows_from(before, after),
    ensures
        status_spec(before, h) is Decided ==> status_spec(after, h) == status_spec(before, h),
        status_spec(before, h) == OpStatus::Unknown ==> status_spec(after, h) == OpStatus::Unknown,
{
    if has_hash(before.integrated.element@, h) {
        lemma_has_hash_prefix(before.integrated.element@, after.integrated.element@, h);
    }
    if has_hash(before.rejected.element@, h) {
        lemma_has_hash_prefix(before.rejected.element@, after.rejected.element@, h);
    }
    if before.abandoned@.contains(h) {
        let w = choose|w: int| 0 <= w < before.abandoned@.len() && before.abandoned@[w] == h;
        assert(after.abandoned@.subrange(0, before.abandoned@.len() as int)[w] == after.abandoned@[w]);
        assert(after.abandoned@.contains(h));
    }
}

/// All scopes of one node, with the bookkeeping of the pipeline.
pub struct Workspace {
    pub authored: ScopeStore,
    pub integrated: ScopeStore,
    pub pending: ScopeStore,
    pub rejected: ScopeStore,
    pub cache: ScopeStore,
    /// One entry per pending record, at the same index.
    pub progress: Vec<OpProgress>,
    /// One entry per rejected record, at the same index.
    pub rejections: Vec<Rejection>,
    /// Operations given up on; they are no longer pending.
    pub abandoned: Vec<AnyDhtHash>,
    /// Passes with the same missing dependencies tolerated before an
    /// operation is abandoned.
    pub max_retries: u64,
}

impl Workspace {
    pub open spec fn scopes_disjoint(&self) -> bool {
        forall|h: AnyDhtHash|
            #![trigger has_hash(self.integrated.element@, h)]
            #![trigger has_hash(self.pending.element@, h)]
            #![trigger has_hash(self.rejected.element@, h)]
            {
                &&& !(has_hash(self.integrated.element@, h) && has_hash(self.pending.element@, h))
                &&& !(has_hash(self.integrated.element@, h) && has_hash(self.rejected.element@, h))
                &&& !(has_hash(self.pending.element@, h) && has_hash(self.rejected.element@, h))
                &&& !(has_hash(self.pending.element@, h) && self.abandoned@.contains(h))
            }
    }

    pub open spec fn wf(&self) -> bool {
        &&& self.authored.wf()
        &&& self.integrated.wf()
        &&& self.pending.wf()
        &&& self.rejected.wf()
        &&& self.cache.wf()
        &&& self.progress@.len() == self.pending.element@.len()
        &&& self.rejections@.len() == self.rejected.element@.len()
        &&& forall|i: int|
            0 <= i < self.rejections@.len() ==> (#[trigger] self.rejections@[i]).hash
                == self.rejected.element@[i].hash
        &&& self.scopes_disjoint()
        &&& causally_ordered(self.integrated.element@)
    }

    pub fn new(max_retries: u64) -> (r: Workspace)
        ensures
            r.wf(),
            r.max_retries == max_retries,
            r.integrated.element@.len() == 0,
            r.pending.element@.len() == 0,
            r.rejected.element@.len() == 0,
            r.abandoned@.len() == 0,
    {
        Workspace {
            authored: ScopeStore::new(),
            integrated: ScopeStore::new(),
            pending: ScopeStore::new(),
            rejected: ScopeStore::new(),
            cache: ScopeStore::new(),
            progress: Vec::new(),
            rejections: Vec::new(),
            abandoned: Vec::new(),
            max_retries,
        }
    }

    /// Whether `h` has ever been settled or taken in: integrated, pending,
    /// rejected or abandoned.
    pub open spec fn known(&self, h: AnyDhtHash) -> bool {
        has_hash(self.integrated.element@, h) || has_hash(self.pending.element@, h) || has_hash(
            self.rejected.element@,
            h,
        ) || self.abandoned@.contains(h)
    }

    fn is_abandoned(&self, h: AnyDhtHash) -> (r: bool)
        ensures
            r == self.abandoned@.contains(h),
    {
        let mut i: usize = 0;
        while i < self.abandoned.len()
            invariant
                0 <= i <= self.abandoned@.len(),
                forall|k: int| 0 <= k < i ==> self.abandoned@[k] != h,
            decreases self.abandoned@.len() - i,
        {
            if self.abandoned[i] == h {
                return true;
            }
            i = i + 1;
        }
        false
    }

    /// The layers a stage reads through, in precedence order.
    pub open spec fn view_layers(&self) -> Seq<(Scope, Seq<Element>)> {
        seq![
            (Scope::Integrated, self.integrated.element@),
            (Scope::Authored, self.authored.element@),
            (Scope::Pending, self.pending.element@),
            (Scope::Cache, self.cache.element@),
        ]
    }

    /// A read view over the workspace: Integrated shadows Authored, which
    /// shadows Pending, which shadows Cache.
    pub fn cascade<'a>(&'a self) -> (r: CascadeLocal<'a>)
        requires
            self.wf(),
        ensures
            r.wf(),
            r.elements() == self.view_layers(),
    {
        let r = CascadeLocal::empty().with_layer(
            Scope::Integrated,
            DbPair::new(&self.integrated.element, &self.integrated.meta),
        ).with_layer(Scope::Authored, DbPair::new(&self.authored.element, &self.authored.meta)).with_layer(
            Scope::Pending,
            DbPair::new(&self.pending.element, &self.pending.meta),
        ).with_layer(Scope::Cache, DbPair::new(&self.cache.element, &self.cache.meta));
        assert(r.elements() =~= self.view_layers());
        r
    }

    /// Whether some pending operation is still work for `stage`.
    pub fn remaining(&self, stage: Stage) -> (r: WorkComplete)
        ensures
            (r == WorkComplete::Incomplete) == exists|i: int|
                0 <= i < self.progress@.len() && awaits(#[trigger] self.progress@[i].phase, stage),
    {
        let mut i: usize = 0;
        while i < self.progress.len()
            invariant
                0 <= i <= self.progress@.len(),
                forall|k: int| 0 <= k < i ==> !awaits(#[trigger] self.progress@[k].phase, stage),
            decreases self.progress@.len() - i,
        {
            if phase_awaits(&self.progress[i].phase, stage) {
                return WorkComplete::Incomplete;
            }
            i = i + 1;
        }
        WorkComplete::Complete
    }

    /// One sys-validation pass over every pending operation that awaits it:
    /// structurally valid ones move on to app-validation, invalid ones are
    /// marked for rejection, and ones whose previous header cannot be seen
    /// stay, with the retry counted. Nothing but the bookkeeping changes.
    pub fn sys_validation_workflow(&mut self) -> (r: WorkComplete)
        requires
            old(self).wf(),
        ensures
            final(self).wf(),
            final(self).authored == old(self).authored,
            final(self).integrated == old(self).integrated,
            final(self).pending == old(self).pending,
            final(self).rejected == old(self).rejected,
            final(self).cache == old(self).cache,
            final(self).rejections == old(self).rejections,
            final(self).abandoned == old(self).abandoned,
            final(self).max_retries == old(self).max_retries,
            final(self).progress@.len() == old(self).progress@.len(),
            forall|i: int|
                0 <= i < old(self).progress@.len() ==> {
                    let p = old(self).progress@[i];
                    let q = #[trigger] final(self).progress@[i];
                    let e = old(self).pending.element@[i];
                    &&& !(p.phase is AwaitingSys) ==> q == p
                    &&& p.phase is AwaitingSys ==> match sys_outcome(old(self).view_layers(), e) {
                        SysOutcome::Valid => q.phase is AwaitingApp && q.retries == 0 && q.missing@.len() == 0,
                        SysOutcome::Invalid => q.phase is Invalid && q.retries == p.retries && q.missing@ == p.missing@,
                        SysOutcome::Missing(h) => q.phase is AwaitingSys && q.missing@ == seq![h]
                            && q.retries == retries_after(p, seq![h]),
                    }
                },
            (r == WorkComplete::Incomplete) == exists|i: int|
                0 <= i < final(self).progress@.len() && (#[trigger] final(self).progress@[i]).phase is AwaitingSys,
    {
        let n = self.progress.len();
        let mut i: usize = 0;
        while i < n
            invariant
                self.wf(),
                n == self.progress@.len(),
                0 <= i <= n,
                self.authored == old(self).authored,
                self.integrated == old(self).integrated,
                self.pending == old(self).pending,
                self.rejected == old(self).rejected,
                self.cache == old(self).cache,
                self.rejections == old(self).rejections,
                self.abandoned == old(self).abandoned,
                self.max_retries == old(self).max_retries,
                forall|j: int| i <= j < n ==> #[trigger] self.progress@[j] == old(self).progress@[j],
                forall|j: int|
                    0 <= j < i ==> {
                        let p = old(self).progress@[j];
                        let q = #[trigger] self.progress@[j];
                        let e = old(self).pending.element@[j];
                        &&& !(p.phase is AwaitingSys) ==> q == p
                        &&& p.phase is AwaitingSys ==> match sys_outcome(old(self).view_layers(), e) {
                            SysOutcome::Valid => q.phase is AwaitingApp && q.retries == 0 && q.missing@.len() == 0,
                            SysOutcome::Invalid => q.phase is Invalid && q.retries == p.retries && q.missing@ == p.missing@,
                            SysOutcome::Missing(h) => q.phase is AwaitingSys && q.missing@ == seq![h]
                                && q.retries == retries_after(p, seq![h]),
                        }
                    },
            decreases n - i,
        {
            if matches!(self.progress[i].phase, Phase::AwaitingSys) {
                let v = {
                    let c = self.cascade();
                    sys_validate(&c, self.pending.element.at(i))
                };
                let q = apply_verdict(Phase::AwaitingSys, &self.progress[i], &v, Phase::AwaitingApp);
                self.progress.set(i, q);
            }
            i = i + 1;
        }
        self.remaining(Stage::SysValidation)
    }

    /// One app-validation pass over every pending operation that awaits it.
    /// `verdicts` holds the evaluator's verdict for each such operation, by
    /// hash; the first verdict for an operation is applied (success moves it
    /// on to integration, a failure marks it for rejection with its reason,
    /// missing dependencies keep it and count the retry), and an operation
    /// without a verdict is left as it was. Nothing but the bookkeeping
    /// changes.
    pub fn app_validation_workflow(&mut self, verdicts: &Vec<(AnyDhtHash, ValidateCallbackResult)>) -> (r:
        WorkComplete)
        requires
            old(self).wf(),
        ensures
            final(self).wf(),
            final(self).authored == old(self).authored,
            final(self).integrated == old(self).integrated,
            final(self).pending == old(self).pending,
            final(self).rejected == old(self).rejected,
            final(self).cache == old(self).cache,
            final(self).rejections == old(self).rejections,
            final(self).abandoned == old(self).abandoned,
            final(self).max_retries == old(self).max_retries,
            final(self).progress@.len() == old(self).progress@.len(),
            forall|i: int|
                0 <= i < old(self).progress@.len() ==> {
                    let p = old(self).progress@[i];
                    let q = #[trigger] final(self).progress@[i];
                    let h = old(self).pending.element@[i].hash;
                    &&& (!(p.phase is AwaitingApp) || forall|j: int|
                        0 <= j < verdicts@.len() ==> (#[trigger] verdicts@[j]).0 != h) ==> q == p
                    &&& forall|k: int|
                        p.phase is AwaitingApp && first_verdict_at(verdicts@, h, k) ==> verdict_applied(
                            p,
                            #[trigger] verdicts@[k].1,
                            Phase::AwaitingIntegration,
                            q,
                        )
                },
            (r == WorkComplete::Incomplete) == exists|i: int|
                0 <= i < final(self).progress@.len() && (#[trigger] final(self).progress@[i]).phase is AwaitingApp,
    {
        let n = self.progress.len();
        let mut i: usize = 0;
        while i < n
            invariant
                self.wf(),
                n == self.progress@.len(),
                0 <= i <= n,
                self.authored == old(self).authored,
                self.integrated == old(self).integrated,
                self.pending == old(self).pending,
                self.rejected == old(self).rejected,
                self.cache == old(self).cache,
                self.rejections == old(self).rejections,
                self.abandoned == old(self).abandoned,
                self.max_retries == old(self).max_retries,
                forall|j: int| i <= j < n ==> #[trigger] self.progress@[j] == old(self).progress@[j],
                forall|j: int|
                    0 <= j < i ==> {
                        let p = old(self).progress@[j];
                        let q = #[trigger] self.progress@[j];
                        let h = old(self).pending.element@[j].hash;
                        &&& (!(p.phase is AwaitingApp) || forall|j2: int|
                            0 <= j2 < verdicts@.len() ==> (#[trigger] verdicts@[j2]).0 != h) ==> q == p
                        &&& forall|k: int|
                            p.phase is AwaitingApp && first_verdict_at(verdicts@, h, k) ==> verdict_applied(
                                p,
                                #[trigger] verdicts@[k].1,
                                Phase::AwaitingIntegration,
                                q,
                            )
                    },
            decreases n - i,
        {
            if matches!(self.progress[i].phase, Phase::AwaitingApp) {
                let h = self.pending.element.at(i).hash;
                match find_verdict(verdicts, h) {
                    Some(k) => {
                        let q = apply_verdict(Phase::AwaitingApp, &self.progress[i], &verdicts[k].1, Phase::AwaitingIntegration);
                        self.progress.set(i, q);
                        proof {
                            assert forall|k2: int| first_verdict_at(verdicts@, h, k2) implies k2 == k by {
                                if k2 < k {
                                    assert(verdicts@[k2].0 != h);
                                } else if k2 > k {
                                    assert(verdicts@[k as int].0 != h);
                                }
                            }
                        }
                    },
                    None => {},
                }
            }
            i = i + 1;
        }
        self.remaining(Stage::AppValidation)
    }

    /// The prerequisites of `e` that are not integrated yet, in the order
    /// `e` lists them.
    pub fn missing_deps(&self, e: &Element) -> (r: Vec<AnyDhtHash>)
        ensures
            forall|d: AnyDhtHash| r@.contains(d) <==> (e.deps@.contains(d) && !has_hash(self.integrated.element@, d)),
    {
        let mut r: Vec<AnyDhtHash> = Vec::new();
        let mut i: usize = 0;
        while i < e.deps.len()
            invariant
                0 <= i <= e.deps@.len(),
                forall|d: AnyDhtHash| r@.contains(d) <==> (e.deps@.take(i as int).contains(d) && !has_hash(self.integrated.element@, d)),
            decreases e.deps@.len() - i,
        {
            let d = e.deps[i];
            let ghost before = r@;
            if !self.integrated.element.contains(d) {
                r.push(d);
            }
            proof {
                let t = e.deps@.take(i + 1);
                assert(t == e.deps@.take(i as int).push(d));
                assert forall|x: AnyDhtHash| r@.contains(x) implies (t.contains(x) && !has_hash(self.integrated.element@, x)) by {
                    let j = choose|j: int| 0 <= j < r@.len() && r@[j] == x;
                    if j < before.len() {
                        assert(before[j] == x);
                        assert(before.contains(x));
                        let j2 = choose|j2: int| 0 <= j2 < i && e.deps@.take(i as int)[j2] == x;
                        assert(t[j2] == x);
                    } else {
                        assert(x == d);
                        assert(t[i as int] == d);
                    }
                }
                assert forall|x: AnyDhtHash| t.contains(x) && !has_hash(self.integrated.element@, x) implies r@.contains(x) by {
                    let j = choose|j: int| 0 <= j < t.len() && t[j] == x;
                    if j < i {
                        assert(e.deps@.take(i as int)[j] == x);
                        assert(before.contains(x));
                        let w = choose|w: int| 0 <= w < before.len() && before[w] == x;
                        assert(r@[w] == x);
                    } else {
                        assert(x == d);
                        assert(r@[r@.len() - 1] == d);
                    }
                }
            }
            i = i + 1;
        }
        assert(e.deps@.take(i as int) == e.deps@);
        r
    }

    /// Gives up on the pending operation at `k`.
    fn abandon_at(&mut self, k: usize)
        requires
            old(self).wf(),
            k < old(self).pending.element@.len(),
        ensures
            final(self).wf(),
            final(self).pending.element@ == old(self).pending.element@.remove(k as int),
            final(self).pending.meta == old(self).pending.meta,
            final(self).progress@ == old(self).progress@.remove(k as int),
            final(self).abandoned@ == old(self).abandoned@.push(old(self).pending.element@[k as int].hash),
            final(self).authored == old(self).authored,
            final(self).integrated == old(self).integrated,
            final(self).rejected == old(self).rejected,
            final(self).cache == old(self).cache,
            final(self).rejections == old(self).rejections,
            final(self).max_retries == old(self).max_retries,
    {
        let ghost ps = self.pending.element@;
        let e = self.pending.element.remove_at(k);
        let _ = self.progress.remove(k);
        self.abandoned.push(e.hash);
        proof {
            lemma_unique_remove(ps, k as int);
            assert forall|x: AnyDhtHash| has_hash(self.pending.element@, x) implies has_hash(ps, x)
                && !self.abandoned@.contains(x) by {
                lemma_has_hash_of_remove(ps, k as int, x);
                assert(has_hash(ps, x));
                if self.abandoned@.contains(x) {
                    let j = choose|j: int| 0 <= j < self.abandoned@.len() && self.abandoned@[j] == x;
                    if j < old(self).abandoned@.len() {
                        assert(old(self).abandoned@[j] == x);
                    } else {
                        assert(x == e.hash);
                    }
                }
            }
        }
    }

    /// Moves the pending operation at `k`, marked invalid, to the Rejected
    /// scope with its reason.
    fn reject_at(&mut self, k: usize)
        requires
            old(self).wf(),
            k < old(self).pending.element@.len(),
            old(self).progress@[k as int].phase is Invalid,
        ensures
            final(self).wf(),
            final(self).pending.element@ == old(self).pending.element@.remove(k as int),
            final(self).pending.meta == old(self).pending.meta,
            final(self).progress@ == old(self).progress@.remove(k as int),
            final(self).rejected.element@ == old(self).rejected.element@.push(old(self).pending.element@[k as int]),
            final(self).rejected.meta == old(self).rejected.meta,
            final(self).rejections@.drop_last() == old(self).rejections@,
            final(self).rejections@.last().hash == old(self).pending.element@[k as int].hash,
            old(self).progress@[k as int].phase matches Phase::Invalid(s) && final(self).rejections@.last().reason@ == s@,
            final(self).abandoned == old(self).abandoned,
            final(self).authored == old(self).authored,
            final(self).integrated == old(self).integrated,
            final(self).cache == old(self).cache,
            final(self).max_retries == old(self).max_retries,
    {
        let ghost ps = self.pending.element@;
        let ghost rs = self.rejected.element@;
        let e = self.pending.element.remove_at(k);
        let p = self.progress.remove(k);
        let h = e.hash;
        let reason = match p.phase {
            Phase::Invalid(s) => s,
            _ => String::new(),
        };
        proof {
            assert(!has_hash(rs, h));
        }
        self.rejected.element.put(e);
        self.rejections.push(Rejection { hash: h, reason });
        proof {
            lemma_unique_remove(ps, k as int);
            assert forall|x: AnyDhtHash| has_hash(self.pending.element@, x) implies has_hash(ps, x) by {
                lemma_has_hash_of_remove(ps, k as int, x);
            }
            assert forall|x: AnyDhtHash| #[trigger] has_hash(self.rejected.element@, x) implies (has_hash(rs, x) || x == h) by {
                lemma_has_hash_push(rs, ps[k as int], x);
            }
            assert forall|i: int| 0 <= i < self.rejections@.len() implies (#[trigger] self.rejections@[i]).hash
                == self.rejected.element@[i].hash by {
                if i < rs.len() {
                    assert(self.rejections@[i] == old(self).rejections@[i]);
                }
            }
        }
    }

    /// Moves the pending operation at `k`, whose prerequisites are all
    /// integrated, to the Integrated scope, indexing it under each of them.
    fn integrate_at(&mut self, k: usize)
        requires
            old(self).wf(),
            k < old(self).pending.element@.len(),
            forall|d: AnyDhtHash| old(self).pending.element@[k as int].deps@.contains(d) ==> has_hash(old(self).integrated.element@, d),
        ensures
            final(self).wf(),
            final(self).pending.element@ == old(self).pending.element@.remove(k as int),
            final(self).pending.meta == old(self).pending.meta,
            final(self).progress@ == old(self).progress@.remove(k as int),
            final(self).integrated.element@ == old(self).integrated.element@.push(old(self).pending.element@[k as int]),
            final(self).integrated.meta@.take(old(self).integrated.meta@.len() as int) == old(self).integrated.meta@,
            final(self).integrated.meta@.len() >= old(self).integrated.meta@.len(),
            forall|d: AnyDhtHash| old(self).pending.element@[k as int].deps@.contains(d) ==> final(self).integrated.meta@.contains((d, old(self).pending.element@[k as int].hash)),
            final(self).abandoned == old(self).abandoned,
            final(self).authored == old(self).authored,
            final(self).rejected == old(self).rejected,
            final(self).rejections == old(self).rejections,
            final(self).cache == old(self).cache,
            final(self).max_retries == old(self).max_retries,
    {
        let ghost ps = self.pending.element@;
        let ghost is = self.integrated.element@;
        let ghost ms = self.integrated.meta@;
        let e = self.pending.element.remove_at(k);
        let _ = self.progress.remove(k);
        let h = e.hash;
        let mut t: usize = 0;
        while t < e.deps.len()
            invariant
                self.integrated.meta.wf(),
                self.integrated.element == old(self).integrated.element,
                self.pending.element@ == ps.remove(k as int),
                self.pending.element.wf(),
                self.pending.meta == old(self).pending.meta,
                self.progress@ == old(self).progress@.remove(k as int),
                self.abandoned == old(self).abandoned,
                self.authored == old(self).authored,
                self.rejected == old(self).rejected,
                self.rejections == old(self).rejections,
                self.cache == old(self).cache,
                self.max_retries == old(self).max_retries,
                e == ps[k as int],
                0 <= t <= e.deps@.len(),
                self.integrated.meta@.take(ms.len() as int) == ms,
                self.integrated.meta@.len() >= ms.len(),
                forall|j: int| 0 <= j < t ==> self.integrated.meta@.contains((#[trigger] e.deps@[j], h)),
            decreases e.deps@.len() - t,
        {
            let ghost before = self.integrated.meta@;
            self.integrated.meta.add(e.deps[t], h);
            proof {
                assert forall|j: int| 0 <= j <= t implies self.integrated.meta@.contains((#[trigger] e.deps@[j], h)) by {
                    if j < t {
                        let w = choose|w: int| 0 <= w < before.len() && before[w] == (e.deps@[j], h);
                        assert(self.integrated.meta@[w] == before[w]);
                    } else if !before.contains((e.deps@[j], h)) {
                        assert(self.integrated.meta@[before.len() as int] == (e.deps@[j], h));
                    }
                }
                assert(self.integrated.meta@.take(ms.len() as int) =~= ms) by {
                    assert forall|w: int| 0 <= w < ms.len() implies self.integrated.meta@[w] == ms[w] by {
                        assert(before.take(ms.len() as int)[w] == ms[w]);
                    }
                }
            }
            t = t + 1;
        }
        proof {
            assert(!has_hash(is, h));
            assert forall|d: AnyDhtHash| e.deps@.contains(d) implies self.integrated.meta@.contains((d, h)) by {
                let j = choose|j: int| 0 <= j < e.deps@.len() && e.deps@[j] == d;
                assert(self.integrated.meta@.contains((e.deps@[j], h)));
            }
        }
        self.integrated.element.put(e);
        proof {
            lemma_unique_remove(ps, k as int);
            let s = self.integrated.element@;
            assert forall|x: AnyDhtHash| has_hash(self.pending.element@, x) implies has_hash(ps, x) by {
                lemma_has_hash_of_remove(ps, k as int, x);
            }
            assert forall|x: AnyDhtHash| #[trigger] has_hash(s, x) implies (has_hash(is, x) || x == h) by {
                lemma_has_hash_push(is, ps[k as int], x);
            }
            assert forall|i: int, j: int| 0 <= i < s.len() && 0 <= j < s[i].deps@.len() implies has_hash(
                s.take(i),
                #[trigger] s[i].deps@[j],
            ) by {
                if i < is.len() {
                    assert(s.take(i) == is.take(i));
                    assert(s[i] == is[i]);
                } else {
                    assert(s.take(i) == is);
                    assert(s[i].deps@.contains(s[i].deps@[j]));
                }
            }
        }
    }

    /// One integration pass over every pending operation, from the last to
    /// the first: an operation past its retry limit is abandoned, one marked
    /// invalid is moved to the Rejected scope with its reason, and one ready
    /// for integration whose prerequisites are all integrated is moved to the
    /// Integrated scope and indexed under each of them; if some prerequisite
    /// is missing it stays, with the missing ones recorded and the retry
    /// counted. When nothing is ready and nothing is past its limit, the pass
    /// changes nothing.
    pub fn integration_workflow(&mut self) -> (r: WorkComplete)
        requires
            old(self).wf(),
        ensures
            final(self).wf(),
            grows_from(*old(self), *final(self)),
            forall|j: int| 0 <= j < old(self).pending.element@.len() ==> #[trigger] integration_fate(*old(self), *final(self), j),
            (forall|j: int| 0 <= j < old(self).progress@.len() ==> !awaits(#[trigger] old(self).progress@[j].phase, Stage::Integration)
                && old(self).progress@[j].retries <= old(self).max_retries) ==> *final(self) == *old(self),
            (r == WorkComplete::Incomplete) == exists|i: int|
                0 <= i < final(self).progress@.len() && awaits(#[trigger] final(self).progress@[i].phase, Stage::Integration),
    {
        let ghost start = *self;
        let n = self.pending.element.len();
        let mut i: usize = n;
        proof {
            lemma_grows_refl(start);
        }
        while i > 0
            invariant
                self.wf(),
                start == *old(self),
                start.wf(),
                grows_from(start, *self),
                n == start.pending.element@.len(),
                0 <= i <= n,
                i <= self.pending.element@.len(),
                forall|j: int| 0 <= j < i ==> #[trigger] self.pending.element@[j] == start.pending.element@[j]
                    && self.progress@[j] == start.progress@[j],
                forall|j: int| i <= j < n ==> #[trigger] integration_fate(start, *self, j),
                (forall|j: int| 0 <= j < start.progress@.len() ==> !awaits(#[trigger] start.progress@[j].phase, Stage::Integration)
                    && start.progress@[j].retries <= start.max_retries) ==> *self == start,
            decreases i,
        {
            let k = i - 1;
            let ghost mid = *self;
            let ghost idle = forall|j: int| 0 <= j < start.progress@.len() ==> !awaits(#[trigger] start.progress@[j].phase, Stage::Integration)
                && start.progress@[j].retries <= start.max_retries;
            proof {
                if idle {
                    assert(!awaits(start.progress@[k as int].phase, Stage::Integration));
                    assert(start.progress@[k as int].retries <= start.max_retries);
                }
            }
            let ghost h = mid.pending.element@[k as int].hash;
            proof {
                assert(mid.pending.element@[k as int] == start.pending.element@[k as int]);
                assert(mid.progress@[k as int] == start.progress@[k as int]);
            }
            let mut removed = true;
            let ghost mut gq: OpProgress = mid.progress@[k as int];
            if self.progress[k].retries > self.max_retries {
                self.abandon_at(k);
                proof {
                    lemma_unique_remove(mid.pending.element@, k as int);
                    assert(self.abandoned@[self.abandoned@.len() - 1] == h);
                    lemma_push_prefix(mid.abandoned@, h);
                    assert(has_hash(mid.pending.element@, h)) by {
                        assert(mid.pending.element@[k as int].hash == h);
                    }
                    assert forall|x: AnyDhtHash| #[trigger] self.abandoned@.contains(x) implies mid.abandoned@.contains(x) || has_hash(mid.pending.element@, x) by {
                        let w = choose|w: int| 0 <= w < self.abandoned@.len() && self.abandoned@[w] == x;
                        if w < mid.abandoned@.len() {
                            assert(mid.abandoned@[w] == x);
                        }
                    }
                    lemma_same_prefix(mid.integrated.element@);
                    lemma_same_prefix(mid.integrated.meta@);
                    lemma_same_prefix(mid.rejected.element@);
                    lemma_same_prefix(mid.rejections@);
                }
            } else if matches!(self.progress[k].phase, Phase::Invalid(_)) {
                self.reject_at(k);
                proof {
                    lemma_unique_remove(mid.pending.element@, k as int);
                    lemma_has_hash_push(mid.rejected.element@, mid.pending.element@[k as int], h);
                    assert(has_hash(mid.pending.element@, h)) by {
                        assert(mid.pending.element@[k as int].hash == h);
                    }
                    assert forall|x: AnyDhtHash| #[trigger] has_hash(self.rejected.element@, x) implies has_hash(mid.rejected.element@, x) || has_hash(mid.pending.element@, x) by {
                        lemma_has_hash_push(mid.rejected.element@, mid.pending.element@[k as int], x);
                    }
                    let r = (self.rejections@.len() - 1) as int;
                    assert(self.rejections@[r] == self.rejections@.last());
                    lemma_push_prefix(mid.rejected.element@, mid.pending.element@[k as int]);
                    assert(mid.rejections@.is_prefix_of(self.rejections@)) by {
                        assert(mid.rejections@ =~= self.rejections@.subrange(0, mid.rejections@.len() as int));
                    }
                    lemma_same_prefix(mid.integrated.element@);
                    lemma_same_prefix(mid.integrated.meta@);
                    lemma_same_prefix(mid.abandoned@);
                }
            } else if matches!(self.progress[k].phase, Phase::AwaitingIntegration) {
                let missing = self.missing_deps(self.pending.element.at(k));
                if missing.len() == 0 {
                    proof {
                        assert forall|d: AnyDhtHash| mid.pending.element@[k as int].deps@.contains(d) implies has_hash(mid.integrated.element@, d) by {
                            if !has_hash(mid.integrated.element@, d) {
                                assert(missing@.contains(d));
                            }
                        }
                    }
                    self.integrate_at(k);
                    proof {
                        lemma_unique_remove(mid.pending.element@, k as int);
                        lemma_has_hash_push(mid.integrated.element@, mid.pending.element@[k as int], h);
                        assert(has_hash(mid.pending.element@, h)) by {
                            assert(mid.pending.element@[k as int].hash == h);
                        }
                        assert forall|x: AnyDhtHash| #[trigger] has_hash(self.integrated.element@, x) implies has_hash(mid.integrated.element@, x) || has_hash(mid.pending.element@, x) by {
                            lemma_has_hash_push(mid.integrated.element@, mid.pending.element@[k as int], x);
                        }
                        lemma_push_prefix(mid.integrated.element@, mid.pending.element@[k as int]);
                        lemma_meta_prefix(mid.integrated.meta@, self.integrated.meta@);
                        lemma_same_prefix(mid.rejected.element@);
                        lemma_same_prefix(mid.rejections@);
                        lemma_same_prefix(mid.abandoned@);
                    }
                } else {
                    proof {
                        let d = missing@[0];
                        assert(missing@.contains(d));
                        if forall|d2: AnyDhtHash| start.pending.element@[k as int].deps@.contains(d2) ==> has_hash(start.integrated.element@, d2) {
                            lemma_has_hash_prefix(start.integrated.element@, mid.integrated.element@, d);
                        }
                    }
                    let ghost gm = missing@;
                    let q = still_pending(Phase::AwaitingIntegration, &self.progress[k], missing);
                    proof {
                        gq = q;
                    }
                    self.progress.set(k, q);
                    removed = false;
                    proof {
                        lemma_grows_refl(mid);
                        assert(self.pending.element@[k as int].hash == h);
                        let e = start.pending.element@[k as int];
                        assert(self.pending.element@[k as int] == e);
                        assert(self.progress@[k as int] == gq);
                        assert(gq.missing@ == gm);
                        assert(forall|d: AnyDhtHash| gq.missing@.contains(d) ==> e.deps@.contains(d));
                        assert(kept_retrying(*self, e, start.progress@[k as int]));
                    }
                }
            } else {
                removed = false;
                proof {
                    lemma_grows_refl(mid);
                    assert(self.pending.element@[k as int].hash == h);
                    let e = start.pending.element@[k as int];
                    assert(self.pending.element@[k as int] == e);
                    assert(kept(*self, e, start.progress@[k as int]));
                    assert(self.progress@ == mid.progress@.update(k as int, gq));
                }
            }
            proof {
                if removed {
                    assert forall|x: AnyDhtHash| #[trigger] has_hash(self.pending.element@, x) implies has_hash(mid.pending.element@, x) by {
                        lemma_has_hash_of_remove(mid.pending.element@, k as int, x);
                    }
                }
                assert(grows_from(mid, *self));
                lemma_grows_trans(start, mid, *self);
                assert forall|j: int| i <= j < n implies #[trigger] integration_fate(start, *self, j) by {
                    let hj = start.pending.element@[j].hash;
                    assert(integration_fate(start, mid, j));
                    assert(start.pending.element@[k as int].hash != hj);
                    lemma_fate_step(start, mid, *self, j, k as int, gq);
                }
                assert forall|j: int| 0 <= j < k implies #[trigger] self.pending.element@[j] == start.pending.element@[j]
                    && self.progress@[j] == start.progress@[j] by {
                    assert(mid.pending.element@[j] == start.pending.element@[j]);
                    assert(mid.progress@[j] == start.progress@[j]);
                }

            }
            i = k;
        }
        self.remaining(Stage::Integration)
    }

    /// Where `h` stands: decided, pending (not available yet) or unknown.
    pub fn status(&self, h: AnyDhtHash) -> (r: OpStatus)
        ensures
            r == status_spec(*self, h),
    {
        if self.integrated.element.contains(h) {
            OpStatus::Decided(ValidationStatus::Valid)
        } else if self.rejected.element.contains(h) {
            OpStatus::Decided(ValidationStatus::Rejected)
        } else if self.is_abandoned(h) {
            OpStatus::Decided(ValidationStatus::Abandoned)
        } else if self.pending.element.contains(h) {
            OpStatus::Pending
        } else {
            OpStatus::Unknown
        }
    }

    /// Mirrors a record fetched from the network into the Cache scope,
    /// where stages can read it; a record already cached is left as it is.
    pub fn cache_fetched(&mut self, e: Element)
        requires
            old(self).wf(),
        ensures
            final(self).wf(),
            has_hash(old(self).cache.element@, e.hash) ==> final(self).cache.element@ == old(self).cache.element@,
            !has_hash(old(self).cache.element@, e.hash) ==> final(self).cache.element@ == old(self).cache.element@.push(e),
            final(self).cache.meta == old(self).cache.meta,
            final(self).authored == old(self).authored,
            final(self).integrated == old(self).integrated,
            final(self).pending == old(self).pending,
            final(self).rejected == old(self).rejected,
            final(self).progress == old(self).progress,
            final(self).rejections == old(self).rejections,
            final(self).abandoned == old(self).abandoned,
            final(self).max_retries == old(self).max_retries,
    {
        self.cache.element.put(e);
    }

    /// Takes a new operation into the Pending scope, awaiting sys-validation.
    /// An operation whose hash is already known is left alone: submitting it
    /// again is a no-op.
    pub fn submit(&mut self, e: Element) -> (accepted: bool)
        requires
            old(self).wf(),
        ensures
            final(self).wf(),
            accepted == !old(self).known(e.hash),
            !accepted ==> *final(self) == *old(self),
            accepted ==> final(self).pending.element@ == old(self).pending.element@.push(e),
            accepted ==> final(self).progress@.last().phase == Phase::AwaitingSys,
            accepted ==> final(self).progress@.last().retries == 0,
            accepted ==> final(self).progress@.drop_last() == old(self).progress@,
            final(self).integrated == old(self).integrated,
            final(self).rejected == old(self).rejected,
            final(self).rejections == old(self).rejections,
            final(self).abandoned == old(self).abandoned,
            final(self).authored == old(self).authored,
            final(self).cache == old(self).cache,
            final(self).max_retries == old(self).max_retries,
    {
        let h = e.hash;
        if self.integrated.element.contains(h) || self.pending.element.contains(h)
            || self.rejected.element.contains(h) || self.is_abandoned(h) {
            return false;
        }
        self.pending.element.put(e);
        self.progress.push(OpProgress { phase: Phase::AwaitingSys, retries: 0, missing: Vec::new() });
        proof {
            assert forall|x: AnyDhtHash| has_hash(self.pending.element@, x) implies x == h || has_hash(
                old(self).pending.element@,
                x,
            ) by {
                let i = choose|i: int|
                    0 <= i < self.pending.element@.len() && (#[trigger] self.pending.element@[i]).hash
                        == x;
                if i < old(self).pending.element@.len() {
                    assert(self.pending.element@[i] == old(self).pending.element@[i]);
                }
            }
        }
        true
    }
}

/// Causal ordering: a prerequisite of an integrated operation is itself
/// integrated, and at an earlier position of the integrated log.
pub proof fn lemma_causal_order(ws: &Workspace, i: int, d: AnyDhtHash)
    requires
        ws.wf(),
        0 <= i < ws.integrated.element@.len(),
        ws.integrated.element@[i].deps@.contains(d),
    ensures
        exists|j: int|
            0 <= j < i && (#[trigger] ws.integrated.element@[j]).hash == d,
{
    let s = ws.integrated.element@;
    let k = choose|k: int| 0 <= k < s[i].deps@.len() && s[i].deps@[k] == d;
    assert(has_hash(s.take(i), s[i].deps@[k]));
    let j = choose|j: int| 0 <= j < s.take(i).len() && (#[trigger] s.take(i)[j]).hash == d;
    assert(s.take(i)[j] == s[j]);
}

} // verus!
