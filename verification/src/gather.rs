//! Fail-fast collection: the outcomes of the segments of a list, taken in order,
//! give either everything they produced or the first fault among them.

use vstd::prelude::*;
use crate::error::Fault;

verus! {

/// One outcome followed by another: the first fault of the two, or else the
/// items of the first followed by those of the second.
pub open spec fn chain<T>(first: Result<Seq<T>, Fault>, second: Result<Seq<T>, Fault>) -> Result<
    Seq<T>,
    Fault,
> {
    match first {
        Err(fault) => Err(fault),
        Ok(head) => match second {
            Err(fault) => Err(fault),
            Ok(items) => Ok(head + items),
        },
    }
}

/// The outcome of a list whose segments gave `results`, in order: the first
/// fault among them, or else all their items, one segment after the other.
pub open spec fn gather<T>(results: Seq<Result<Seq<T>, Fault>>) -> Result<Seq<T>, Fault>
    decreases results.len(),
{
    if results.len() == 0 {
        Ok(Seq::empty())
    } else {
        chain(gather(results.drop_last()), results.last())
    }
}

/// The items of the segments that stand before the first fault; all items where
/// there is no fault.
pub open spec fn gathered_before_fault<T>(results: Seq<Result<Seq<T>, Fault>>) -> Seq<T>
    decreases results.len(),
{
    if results.len() == 0 {
        Seq::empty()
    } else {
        match gather(results.drop_last()) {
            Err(_) => gathered_before_fault(results.drop_last()),
            Ok(head) => match results.last() {
                Err(_) => head,
                Ok(items) => head + items,
            },
        }
    }
}

/// Taking one more segment into account: how `gather` of the first `k + 1`
/// results follows from that of the first `k`.
pub proof fn lemma_gather_step<T>(results: Seq<Result<Seq<T>, Fault>>, k: int)
    requires
        0 <= k < results.len(),
    ensures
        gather(results.take(k + 1)) == chain(gather(results.take(k)), results[k]),
        gathered_before_fault(results.take(k + 1)) == match gather(results.take(k)) {
            Err(_) => gathered_before_fault(results.take(k)),
            Ok(head) => match results[k] {
                Err(_) => head,
                Ok(items) => head + items,
            },
        },
{
    assert(results.take(k + 1).drop_last() == results.take(k));
}

/// Once a fault has come up, later segments change nothing.
pub proof fn lemma_fault_stays<T>(results: Seq<Result<Seq<T>, Fault>>, k: int)
    requires
        0 <= k <= results.len(),
        gather(results.take(k)) is Err,
    ensures
        gather(results) == gather(results.take(k)),
        gathered_before_fault(results) == gathered_before_fault(results.take(k)),
    decreases results.len() - k,
{
    if k == results.len() {
        assert(results.take(k) == results);
    } else {
        lemma_gather_step(results, k);
        lemma_fault_stays(results, k + 1);
    }
}

/// Without a fault, what stands before the first fault is everything.
pub proof fn lemma_gathered_all<T>(results: Seq<Result<Seq<T>, Fault>>)
    ensures
        gather(results) matches Ok(items) ==> gathered_before_fault(results) == items,
    decreases results.len(),
{
    if results.len() > 0 {
        lemma_gathered_all(results.drop_last());
    }
}

/// `gather` succeeds exactly where every segment does.
pub proof fn lemma_gather_ok<T>(results: Seq<Result<Seq<T>, Fault>>)
    ensures
        gather(results) is Ok <==> forall|i: int| 0 <= i < results.len() ==> results[i] is Ok,
    decreases results.len(),
{
    if results.len() > 0 {
        let front = results.drop_last();
        lemma_gather_ok(front);
        if gather(results) is Ok {
            assert forall|i: int| 0 <= i < results.len() implies results[i] is Ok by {
                if i < front.len() {
                    assert(results[i] == front[i]);
                }
            }
        }
    }
}

/// The first segment that fails decides the outcome: its fault is the list's.
pub proof fn lemma_first_fault<T>(results: Seq<Result<Seq<T>, Fault>>, k: int)
    requires
        0 <= k < results.len(),
        results[k] is Err,
        forall|i: int| 0 <= i < k ==> results[i] is Ok,
    ensures
        gather(results) == Err::<Seq<T>, Fault>(results[k]->Err_0),
{
    lemma_gather_ok(results.take(k));
    lemma_gather_step(results, k);
    lemma_fault_stays(results, k + 1);
}

/// Where every segment gives exactly one item, the list gives one item per
/// segment, in the order of the segments.
pub proof fn lemma_gather_singletons<T>(results: Seq<Result<Seq<T>, Fault>>)
    requires
        forall|i: int| 0 <= i < results.len() ==> results[i] is Ok && results[i]->Ok_0.len() == 1,
    ensures
        gather(results) is Ok,
        gather(results)->Ok_0.len() == results.len(),
        forall|i: int| 0 <= i < results.len() ==> gather(results)->Ok_0[i] == results[i]->Ok_0[0],
    decreases results.len(),
{
    if results.len() > 0 {
        let front = results.drop_last();
        lemma_gather_singletons(front);
    }
}

/// The outcome of two lists put one behind the other is the outcome of the
/// first followed by that of the second.
pub proof fn lemma_gather_concat<T>(
    first: Seq<Result<Seq<T>, Fault>>,
    second: Seq<Result<Seq<T>, Fault>>,
)
    ensures
        gather(first + second) == chain(gather(first), gather(second)),
    decreases second.len(),
{
    if second.len() > 0 {
        let front = second.drop_last();
        lemma_gather_concat(first, front);
        assert((first + second).drop_last() == first + front);
        if let Ok(head) = gather(first) {
            if let Ok(middle) = gather(front) {
                if let Ok(items) = second.last() {
                    assert((head + middle) + items == head + (middle + items));
                }
            }
        }
    }
}

/// A list of one segment has the outcome of that segment.
pub proof fn lemma_gather_one<T>(result: Result<Seq<T>, Fault>)
    ensures
        gather(seq![result]) == result,
{
    let results = seq![result];
    let none = Seq::<Result<Seq<T>, Fault>>::empty();
    assert(results.drop_last() == none);
    assert(gather(none) == Ok::<Seq<T>, Fault>(Seq::empty()));
}

} // verus!
