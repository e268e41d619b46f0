//! Verdicts of validation callbacks and the status model they drive.
use vstd::prelude::*;

use crate::store::Element;
use crate::AnyDhtHash;

verus! {

/// The validation status for an operation or element.
///
/// An operation that is missing validation dependencies may cycle through
/// pending many times before reaching a final status or being abandoned.
#[derive(Clone, Copy, Debug, Hash, PartialEq, Eq, Structural, PartialOrd, Ord)]
pub enum ValidationStatus {
    /// All implemented validation callbacks found all dependencies and passed.
    Valid,
    /// Some implemented validation callback definitively failed.
    Rejected,
    /// Dependencies stayed missing for too long; no further attempt is made.
    Abandoned,
}

/// The verdict of one validation callback.
#[derive(Debug)]
pub enum ValidateCallbackResult {
    Valid,
    Invalid(String),
    /// The caller maps this to pending or abandoned, from context the
    /// callback cannot have.
    UnresolvedDependencies(Vec<AnyDhtHash>),
}

impl ValidateCallbackResult {
    /// Only a failure is definitive.
    pub fn is_definitive(&self) -> (r: bool)
        ensures
            r == (self is Invalid),
    {
        match self {
            ValidateCallbackResult::Invalid(_) => true,
            _ => false,
        }
    }

    /// The verdict carried by a callback's output: the decoded verdict, or
    /// `Invalid` with the decoding error as its reason.
    pub fn from_decoded(decoded: Result<ValidateCallbackResult, String>) -> (r: ValidateCallbackResult)
        ensures
            decoded is Ok ==> r == decoded->Ok_0,
            decoded is Err ==> r == ValidateCallbackResult::Invalid(decoded->Err_0),
    {
        match decoded {
            Ok(v) => v,
            Err(e) => ValidateCallbackResult::Invalid(e),
        }
    }
}

/// The level of validation package required by an entry.
#[derive(Clone, Copy, Debug, PartialEq, Eq, Structural)]
pub enum RequiredValidationType {
    /// Just the element (default).
    Element,
    /// All chain items of the same entry type.
    SubChain,
    /// The entire chain.
    Full,
    /// A custom package set by the zome.
    Custom,
}

impl Default for RequiredValidationType {
    fn default() -> (r: Self)
        ensures
            r == RequiredValidationType::Element,
    {
        RequiredValidationType::Element
    }
}

/// An ordered set of related elements, handed to a validation callback that
/// needs more context than one element.
#[derive(Debug)]
pub struct ValidationPackage(pub Vec<Element>);

impl ValidationPackage {
    pub fn new(elements: Vec<Element>) -> (r: ValidationPackage)
        ensures
            r.0@ == elements@,
    {
        ValidationPackage(elements)
    }
}

/// What a validation callback is given: the element and, where its entry
/// type asks for one, a validation package.
#[derive(Debug)]
pub struct ValidateData {
    pub element: Element,
    pub validation_package: Option<ValidationPackage>,
}

/// The outcome of a callback that builds a validation package.
#[derive(Debug)]
pub enum ValidationPackageCallbackResult {
    Success(ValidationPackage),
    Fail(String),
    UnresolvedDependencies(Vec<AnyDhtHash>),
}

impl ValidationPackageCallbackResult {
    /// Only a failure is definitive.
    pub fn is_definitive(&self) -> (r: bool)
        ensures
            r == (self is Fail),
    {
        match self {
            ValidationPackageCallbackResult::Fail(_) => true,
            _ => false,
        }
    }

    /// The outcome carried by a callback's output: the decoded outcome, or
    /// `Fail` with the decoding error as its reason.
    pub fn from_decoded(decoded: Result<ValidationPackageCallbackResult, String>) -> (r:
        ValidationPackageCallbackResult)
        ensures
            decoded is Ok ==> r == decoded->Ok_0,
            decoded is Err ==> r == ValidationPackageCallbackResult::Fail(decoded->Err_0),
    {
        match decoded {
            Ok(v) => v,
            Err(e) => ValidationPackageCallbackResult::Fail(e),
        }
    }
}

/// Index of the first `Invalid` verdict, if there is one.
pub open spec fn first_invalid(vs: Seq<ValidateCallbackResult>) -> Option<int>
    decreases vs.len(),
{
    if vs.len() == 0 {
        None
    } else if vs[0] is Invalid {
        Some(0)
    } else {
        match first_invalid(vs.drop_first()) {
            Some(i) => Some(i + 1),
            None => None,
        }
    }
}

/// All hashes reported missing, in the order the verdicts give them.
pub open spec fn missing_of(vs: Seq<ValidateCallbackResult>) -> Seq<AnyDhtHash>
    decreases vs.len(),
{
    if vs.len() == 0 {
        Seq::empty()
    } else {
        let rest = missing_of(vs.drop_last());
        match vs.last() {
            ValidateCallbackResult::UnresolvedDependencies(h) => rest + h@,
            _ => rest,
        }
    }
}

/// Whether some verdict reports missing dependencies.
pub open spec fn any_unresolved(vs: Seq<ValidateCallbackResult>) -> bool {
    exists|i: int| 0 <= i < vs.len() && (#[trigger] vs[i]) is UnresolvedDependencies
}

proof fn lemma_first_invalid_at(vs: Seq<ValidateCallbackResult>, i: int)
    requires
        0 <= i < vs.len(),
        vs[i] is Invalid,
        forall|k: int| 0 <= k < i ==> !(#[trigger] vs[k] is Invalid),
    ensures
        first_invalid(vs) == Some(i),
    decreases i,
{
    if i > 0 {
        let rest = vs.drop_first();
        assert forall|k: int| 0 <= k < i - 1 implies !(#[trigger] rest[k] is Invalid) by {
            assert(rest[k] == vs[k + 1]);
        }
        lemma_first_invalid_at(rest, i - 1);
    }
}

proof fn lemma_first_invalid_none(vs: Seq<ValidateCallbackResult>)
    requires
        forall|k: int| 0 <= k < vs.len() ==> !(#[trigger] vs[k] is Invalid),
    ensures
        first_invalid(vs) is None,
    decreases vs.len(),
{
    if vs.len() > 0 {
        let rest = vs.drop_first();
        assert forall|k: int| 0 <= k < rest.len() implies !(#[trigger] rest[k] is Invalid) by {
            assert(rest[k] == vs[k + 1]);
        }
        lemma_first_invalid_none(rest);
    }
}

/// Combines the verdicts of every callback that applies to one operation:
/// any `Invalid` wins (the first one), else any missing dependency wins (all
/// of them, in order), else the operation is `Valid`.
pub fn aggregate(verdicts: Vec<ValidateCallbackResult>) -> (r: ValidateCallbackResult)
    ensures
        first_invalid(verdicts@) matches Some(i) ==> 0 <= i < verdicts@.len() && r == verdicts@[i],
        first_invalid(verdicts@) is None && any_unresolved(verdicts@) ==> (r matches
            ValidateCallbackResult::UnresolvedDependencies(h) && h@ == missing_of(verdicts@)),
        first_invalid(verdicts@) is None && !any_unresolved(verdicts@) ==> r is Valid,
{
    let ghost vs = verdicts@;
    let mut pool = verdicts;
    let n = pool.len();
    let mut i: usize = 0;
    while i < n
        invariant
            n == vs.len(),
            vs == verdicts@,
            pool@ == vs,
            0 <= i <= n,
            forall|k: int| 0 <= k < i ==> !(#[trigger] vs[k] is Invalid),
        decreases n - i,
    {
        if pool[i].is_definitive() {
            proof {
                lemma_first_invalid_at(vs, i as int);
            }
            return pool.remove(i);
        }
        i = i + 1;
    }
    proof {
        lemma_first_invalid_none(vs);
    }
    let mut missing: Vec<AnyDhtHash> = Vec::new();
    let mut unresolved = false;
    let mut j: usize = 0;
    while j < n
        invariant
            n == vs.len(),
            vs == verdicts@,
            pool@ == vs,
            0 <= j <= n,
            missing@ == missing_of(vs.take(j as int)),
            unresolved == exists|k: int| 0 <= k < j && (#[trigger] vs[k]) is UnresolvedDependencies,
        decreases n - j,
    {
        assert(vs.take(j + 1).drop_last() == vs.take(j as int));
        match &pool[j] {
            ValidateCallbackResult::UnresolvedDependencies(hs) => {
                let mut t: usize = 0;
                let ghost before = missing@;
                while t < hs.len()
                    invariant
                        0 <= t <= hs.len(),
                        missing@ == before + hs@.take(t as int),
                    decreases hs.len() - t,
                {
                    missing.push(hs[t]);
                    assert(hs@.take(t + 1) == hs@.take(t as int).push(hs@[t as int]));
                    t = t + 1;
                }
                assert(hs@.take(t as int) == hs@);
                unresolved = true;
            },
            _ => {},
        }
        j = j + 1;
    }
    assert(vs.take(n as int) == vs);
    if unresolved {
        ValidateCallbackResult::UnresolvedDependencies(missing)
    } else {
        ValidateCallbackResult::Valid
    }
}

/// The status that follows `prior` (`None` is pending) once a callback has
/// given `verdict`: a failure always rejects, success marks a pending
/// operation valid, and missing dependencies leave the status as it was.
pub open spec fn next_status_spec(prior: Option<ValidationStatus>, verdict: ValidateCallbackResult) -> Option<
    ValidationStatus,
> {
    match verdict {
        ValidateCallbackResult::Invalid(_) => Some(ValidationStatus::Rejected),
        ValidateCallbackResult::Valid => match prior {
            None => Some(ValidationStatus::Valid),
            Some(s) => Some(s),
        },
        ValidateCallbackResult::UnresolvedDependencies(_) => prior,
    }
}

/// Applies one callback verdict to the status of an operation.
pub fn next_status(prior: Option<ValidationStatus>, verdict: &ValidateCallbackResult) -> (r: Option<
    ValidationStatus,
>)
    ensures
        r == next_status_spec(prior, *verdict),
{
    match verdict {
        ValidateCallbackResult::Invalid(_) => Some(ValidationStatus::Rejected),
        ValidateCallbackResult::Valid => match prior {
            None => Some(ValidationStatus::Valid),
            Some(s) => Some(s),
        },
        ValidateCallbackResult::UnresolvedDependencies(_) => prior,
    }
}

/// Statuses only move forward: a decided status never returns to pending,
/// a rejection is never undone, and an abandoned operation never becomes
/// valid, whatever verdict comes later.
pub proof fn lemma_status_monotone(prior: Option<ValidationStatus>, verdict: ValidateCallbackResult)
    ensures
        prior is Some ==> next_status_spec(prior, verdict) is Some,
        prior == Some(ValidationStatus::Rejected) ==> next_status_spec(prior, verdict) == Some(
            ValidationStatus::Rejected,
        ),
        prior == Some(ValidationStatus::Abandoned) ==> next_status_spec(prior, verdict) != Some(
            ValidationStatus::Valid,
        ),
        next_status_spec(prior, verdict) == Some(ValidationStatus::Valid) ==> (prior is None
            || prior == Some(ValidationStatus::Valid)),
{
}

} // verus!
