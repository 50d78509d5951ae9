//! Partial-failure accounting for one aggregation run.
//!
//! Every registered adapter is invoked once per run, in a fixed order;
//! the runner hands the outcomes to `get_all`, which separates the
//! persisted records from the failures and decides whether the run as a
//! whole succeeded. Individual agency sites go down independently and
//! often, so a run fails only when every single adapter failed.
use vstd::prelude::*;

use crate::records::{records_view, AuthorityRecord, AuthorityRecordView};

verus! {

/// What one adapter invocation came to: a per-authority record, or a
/// failure with the adapter's identity for the log.
pub enum AdapterOutcome {
    Fetched(AuthorityRecord),
    Failed(String),
}

/// The records of the successful adapter invocations, in order.
pub open spec fn successes_of(s: Seq<AdapterOutcome>) -> Seq<AuthorityRecordView>
    decreases s.len(),
{
    if s.len() == 0 {
        Seq::empty()
    } else {
        successes_of(s.drop_last()) + (match s.last() {
            AdapterOutcome::Fetched(r) => seq![r@],
            AdapterOutcome::Failed(_) => Seq::empty(),
        })
    }
}

/// What one run persisted: the successful records and the two counts
/// reported to the caller.
#[derive(Debug)]
pub struct RunReport {
    pub records: Vec<AuthorityRecord>,
    pub persisted_count: usize,
    pub failure_count: usize,
}

/// The one hard failure of an aggregation run: every adapter failed.
#[derive(Debug)]
pub struct AllSourcesFailed {
    pub failure_count: usize,
}

/// Separates a run's adapter outcomes into persisted records and
/// failure counts. Failures are tolerated one by one; the run itself
/// fails exactly when there was at least one adapter and every one of
/// them failed.
pub fn get_all(outcomes: Vec<AdapterOutcome>) -> (r: Result<RunReport, AllSourcesFailed>)
    ensures
        r is Ok <==> (outcomes@.len() == 0 || successes_of(outcomes@).len() > 0),
        r matches Ok(rep) ==> {
            &&& records_view(rep.records@) == successes_of(outcomes@)
            &&& rep.persisted_count == successes_of(outcomes@).len()
            &&& rep.failure_count == outcomes@.len() - successes_of(outcomes@).len()
        },
        r matches Err(e) ==> e.failure_count == outcomes@.len(),
{
    let total = outcomes.len();
    let mut records: Vec<AuthorityRecord> = Vec::new();
    let mut failure_count: usize = 0;
    let mut i: usize = 0;
    proof {
        assert(outcomes@.subrange(0, 0) =~= Seq::<AdapterOutcome>::empty());
    }
    while i < outcomes.len()
        invariant
            i <= outcomes@.len() == total,
            records_view(records@) == successes_of(outcomes@.subrange(0, i as int)),
            records@.len() == successes_of(outcomes@.subrange(0, i as int)).len(),
            failure_count == i - records@.len(),
        decreases outcomes@.len() - i,
    {
        proof {
            assert(outcomes@.subrange(0, i + 1).drop_last() =~= outcomes@.subrange(0, i as int));
            assert(outcomes@.subrange(0, i + 1).last() == outcomes@[i as int]);
        }
        match &outcomes[i] {
            AdapterOutcome::Fetched(rec) => {
                let copy = rec.clone();
                records.push(copy);
                proof {
                    assert(records_view(records@) =~= records_view(records@.drop_last()).push(
                        outcomes@[i as int]->Fetched_0@,
                    ));
                    assert(records_view(records@) =~= successes_of(outcomes@.subrange(0, i + 1)));
                }
            },
            AdapterOutcome::Failed(_) => {
                failure_count = failure_count + 1;
                proof {
                    assert(records_view(records@) =~= successes_of(outcomes@.subrange(0, i + 1)));
                }
            },
        }
        i = i + 1;
    }
    proof {
        assert(outcomes@.subrange(0, outcomes@.len() as int) =~= outcomes@);
    }
    if total > 0 && failure_count == total {
        Err(AllSourcesFailed { failure_count })
    } else {
        let persisted_count = records.len();
        Ok(RunReport { records, persisted_count, failure_count })
    }
}

} // verus!
