//! Lists of checks, of which the first that fails counts.

use crate::error::ErrorModel;
use crate::error::MpcithError;
use vstd::prelude::*;

verus! {

/// A result is an error exactly if there is a failure, and then it is that failure.
pub open spec fn reports<T>(r: Result<T, MpcithError>, failure: Option<ErrorModel>) -> bool {
    match r {
        Ok(_) => failure is None,
        Err(e) => failure == Some(e@),
    }
}

/// The failure of the first of the checks `i`, `i + 1`, ..., `n - 1` that fails.
pub open spec fn first_some<E>(check: spec_fn(int) -> Option<E>, i: nat, n: nat) -> Option<E>
    decreases n - i,
{
    if i >= n {
        None
    } else {
        match check(i as int) {
            Some(e) => Some(e),
            None => first_some(check, i + 1, n),
        }
    }
}

/// If no check fails, there is no first one that does.
pub proof fn lemma_all_pass<E>(check: spec_fn(int) -> Option<E>, i: nat, n: nat)
    requires
        forall|j: int| i <= j < n ==> #[trigger] check(j) is None,
    ensures
        first_some(check, i, n) is None,
    decreases n - i,
{
    if i < n {
        assert(check(i as int) is None);
        lemma_all_pass(check, i + 1, n);
    }
}

/// If there is no first check that fails, none fails.
pub proof fn lemma_none_fails<E>(check: spec_fn(int) -> Option<E>, i: nat, n: nat, j: int)
    requires
        first_some(check, i, n) is None,
        i <= j < n,
    ensures
        check(j) is None,
    decreases n - i,
{
    if i < j {
        lemma_none_fails(check, i + 1, n, j);
    }
}

/// Checks that fail alike have the same first failure.
pub proof fn lemma_first_some_ext<E>(
    f: spec_fn(int) -> Option<E>,
    g: spec_fn(int) -> Option<E>,
    i: nat,
    n: nat,
)
    requires
        forall|j: int| i <= j < n ==> #[trigger] f(j) == g(j),
    ensures
        first_some(f, i, n) == first_some(g, i, n),
    decreases n - i,
{
    if i < n {
        assert(f(i as int) == g(i as int));
        lemma_first_some_ext(f, g, i + 1, n);
    }
}

/// A result is `Ok` exactly if there is no failure, and its error is the failure.
pub proof fn lemma_reports<T>(r: Result<T, MpcithError>, failure: Option<ErrorModel>)
    ensures
        reports(r, failure) <==> {
            &&& r is Ok <==> failure is None
            &&& r matches Err(e) ==> failure == Some(e@)
        },
{
}

/// The first failure is that of a check, and no check before it fails.
pub proof fn lemma_first_failure<E>(check: spec_fn(int) -> Option<E>, i: nat, n: nat) -> (k: int)
    requires
        first_some(check, i, n) is Some,
    ensures
        i <= k < n,
        check(k) == first_some(check, i, n),
        forall|j: int| i <= j < k ==> #[trigger] check(j) is None,
    decreases n - i,
{
    if check(i as int) is Some {
        i as int
    } else {
        lemma_first_failure(check, i + 1, n)
    }
}

} // verus!
