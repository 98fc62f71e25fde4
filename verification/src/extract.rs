//! The argument-extraction combinator: a fixed number of independent,
//! fallible operations driven to one ordered list of results.
//!
//! Each operation owns one slot.  On every wake the driver polls the
//! still-pending operations and hands their outcomes in; values land in
//! their slots, so the finished list reads in declaration order however
//! completion order ran.  The first still-pending operation to report
//! an error fails the whole combinator at once; operations not yet done
//! are simply abandoned.

use vstd::prelude::*;

verus! {

/// What polling one operation yielded: nothing yet, or its result.
pub enum PollOutcome<T, E> {
    /// The operation would block; nothing arrived.
    Pending,
    /// The operation finished with this result.
    Ready(Result<T, E>),
}

/// What one wake of the combinator yields.
pub enum ExtractPoll<T, E> {
    /// Some operations are still pending.
    Pending,
    /// Every operation succeeded; the values in declaration order.
    Finished(Vec<T>),
    /// An operation failed; its error, taken in poll order.
    Failed(E),
}

/// The value an outcome delivered, if it succeeded.
pub open spec fn outcome_ok<T, E>(o: PollOutcome<T, E>) -> Option<T> {
    match o {
        PollOutcome::Ready(res) => match res {
            Ok(v) => Some(v),
            Err(_) => None,
        },
        PollOutcome::Pending => None,
    }
}

/// The error an outcome delivered, if it failed.
pub open spec fn outcome_err<T, E>(o: PollOutcome<T, E>) -> Option<E> {
    match o {
        PollOutcome::Ready(res) => match res {
            Ok(_) => None,
            Err(e) => Some(e),
        },
        PollOutcome::Pending => None,
    }
}

/// The first index at or after `k` whose slot is still pending and
/// whose outcome is an error.
pub open spec fn first_err_from<T, E>(
    slots: Seq<Option<T>>,
    outs: Seq<PollOutcome<T, E>>,
    k: int,
) -> Option<int>
    decreases outs.len() - k,
{
    if k < 0 || k >= outs.len() {
        None
    } else if slots[k] is None && outcome_err(outs[k]) is Some {
        Some(k)
    } else {
        first_err_from(slots, outs, k + 1)
    }
}

/// The slots after the outcomes before `upto` have landed: a pending
/// slot takes the value its outcome delivered, everything else stays.
pub open spec fn merge_upto<T, E>(
    slots: Seq<Option<T>>,
    outs: Seq<PollOutcome<T, E>>,
    upto: int,
) -> Seq<Option<T>> {
    Seq::new(
        slots.len(),
        |i: int|
            if i < upto && slots[i] is None {
                match outcome_ok(outs[i]) {
                    Some(v) => Some(v),
                    None => slots[i],
                }
            } else {
                slots[i]
            },
    )
}

/// Every slot holds its value.
pub open spec fn all_done<T>(slots: Seq<Option<T>>) -> bool {
    forall|i: int| 0 <= i < slots.len() ==> (#[trigger] slots[i]) is Some
}

/// The values of filled slots, in slot order.
pub open spec fn values_of<T>(slots: Seq<Option<T>>) -> Seq<T> {
    Seq::new(slots.len(), |i: int| slots[i]->Some_0)
}

/// The combinator's state: one slot per operation, in declaration
/// order, each empty until its operation succeeds.
pub struct ExtractAll<T> {
    /// The slots, in declaration order.
    pub slots: Vec<Option<T>>,
}

impl<T> View for ExtractAll<T> {
    type V = Seq<Option<T>>;

    open spec fn view(&self) -> Seq<Option<T>> {
        self.slots@
    }
}

impl<T> ExtractAll<T> {
    /// A combinator for `n` operations, none finished yet.
    pub fn new(n: usize) -> (r: ExtractAll<T>)
        ensures
            r@.len() == n,
            forall|i: int| 0 <= i < n ==> (#[trigger] r@[i]) is None,
    {
        let mut slots: Vec<Option<T>> = Vec::new();
        let mut i: usize = 0;
        while i < n
            invariant
                i <= n,
                slots@.len() == i,
                forall|j: int| 0 <= j < i ==> (#[trigger] slots@[j]) is None,
            decreases n - i,
        {
            slots.push(None);
            i = i + 1;
        }
        ExtractAll { slots }
    }

    /// One wake: the outcomes of polling every operation, in
    /// declaration order, land in their slots.  The first error among
    /// the still-pending operations fails the combinator; with no error
    /// it finishes once every slot is filled, draining the slots into
    /// the ordered value list, and otherwise stays pending.
    pub fn poll<E>(&mut self, outcomes: Vec<PollOutcome<T, E>>) -> (r: ExtractPoll<T, E>)
        requires
            outcomes@.len() == old(self)@.len(),
        ensures
            match first_err_from(old(self)@, outcomes@, 0) {
                Some(k) => {
                    &&& r matches ExtractPoll::Failed(e) && Some(e) == outcome_err(outcomes@[k])
                    &&& final(self)@ == merge_upto(old(self)@, outcomes@, k)
                },
                None => {
                    &&& (if all_done(merge_upto(old(self)@, outcomes@, old(self)@.len() as int)) {
                        r matches ExtractPoll::Finished(vs) && vs@ == values_of(
                            merge_upto(old(self)@, outcomes@, old(self)@.len() as int),
                        ) && final(self)@.len() == 0
                    } else {
                        r is Pending && final(self)@ == merge_upto(
                            old(self)@,
                            outcomes@,
                            old(self)@.len() as int,
                        )
                    })
                },
            },
    {
        let ghost slots0 = self.slots@;
        let ghost outs = outcomes@;
        let n = self.slots.len();
        let mut rem = outcomes;
        let mut k: usize = 0;
        proof {
            assert(self.slots@ =~= merge_upto(slots0, outs, 0));
        }
        while rem.len() > 0
            invariant
                slots0 == old(self)@,
                outs == outcomes@,
                k + rem@.len() == outs.len(),
                outs.len() == slots0.len(),
                n == slots0.len(),
                self.slots@.len() == slots0.len(),
                rem@ == outs.subrange(k as int, outs.len() as int),
                self.slots@ == merge_upto(slots0, outs, k as int),
                first_err_from(slots0, outs, 0) == first_err_from(slots0, outs, k as int),
            decreases rem@.len(),
        {
            let ghost rem0 = rem@;
            let o = rem.remove(0);
            proof {
                assert(rem0[0] == outs[k as int]);
                assert(rem@ =~= outs.subrange(k + 1, outs.len() as int));
            }
            let pending = self.slots[k].is_none();
            if pending {
                match o {
                    PollOutcome::Ready(res) => {
                        match res {
                            Ok(v) => {
                                let ghost before = self.slots@;
                                let _ = self.slots.remove(k);
                                self.slots.insert(k, Some(v));
                                proof {
                                    assert(self.slots@ =~= merge_upto(slots0, outs, k + 1));
                                    assert(slots0[k as int] is None);
                                }
                            },
                            Err(e) => {
                                proof {
                                    assert(slots0[k as int] is None);
                                    assert(outcome_err(outs[k as int]) is Some);
                                    assert(first_err_from(slots0, outs, k as int) == Some(
                                        k as int,
                                    ));
                                }
                                return ExtractPoll::Failed(e);
                            },
                        }
                    },
                    PollOutcome::Pending => {
                        proof {
                            assert(slots0[k as int] is None);
                            assert(self.slots@ =~= merge_upto(slots0, outs, k + 1));
                        }
                    },
                }
            } else {
                proof {
                    assert(slots0[k as int] is Some);
                    assert(self.slots@ =~= merge_upto(slots0, outs, k + 1));
                }
            }
            k = k + 1;
        }
        let ghost m = merge_upto(slots0, outs, slots0.len() as int);
        proof {
            assert(self.slots@ == m);
        }
        // No error arrived; finished only when every slot is filled.
        let mut i: usize = 0;
        while i < n
            invariant
                slots0 == old(self)@,
                outs == outcomes@,
                m == merge_upto(slots0, outs, slots0.len() as int),
                first_err_from(slots0, outs, 0) is None,
                i <= n,
                n == slots0.len(),
                self.slots@ == m,
                m.len() == slots0.len(),
                forall|j: int| 0 <= j < i ==> (#[trigger] m[j]) is Some,
            decreases n - i,
        {
            if self.slots[i].is_none() {
                proof {
                    assert(!all_done(m));
                }
                return ExtractPoll::Pending;
            }
            i = i + 1;
        }
        proof {
            assert(all_done(m));
        }
        // Drain the slots into the ordered value list.
        let mut vs: Vec<T> = Vec::new();
        let ghost mut j: int = 0;
        while self.slots.len() > 0
            invariant
                0 <= j <= m.len(),
                self.slots@ == m.skip(j),
                all_done(m),
                vs@ == values_of(m).subrange(0, j),
            decreases self.slots@.len(),
        {
            proof {
                assert(m.skip(j)[0] == m[j]);
                assert(m[j] is Some);
            }
            let s = self.slots.remove(0);
            match s {
                Some(v) => {
                    vs.push(v);
                },
                None => {
                    proof {
                        assert(false);
                    }
                },
            }
            proof {
                assert(self.slots@ =~= m.skip(j + 1));
                assert(vs@ =~= values_of(m).subrange(0, j + 1));
                j = j + 1;
            }
        }
        proof {
            assert(vs@ =~= values_of(m));
        }
        ExtractPoll::Finished(vs)
    }
}

/// The fail-fast law: when any still-pending operation reports an
/// error, the poll fails with the error of the first such operation in
/// poll order; it never reports completion.
pub proof fn lemma_fail_fast<T, E>(slots: Seq<Option<T>>, outs: Seq<PollOutcome<T, E>>, k: int)
    requires
        slots.len() == outs.len(),
        0 <= k < outs.len(),
        slots[k] is None,
        outcome_err(outs[k]) is Some,
    ensures
        first_err_from(slots, outs, 0) matches Some(k0) && 0 <= k0 <= k && slots[k0] is None
            && outcome_err(outs[k0]) is Some,
{
    lemma_first_err_below(slots, outs, 0, k);
}

/// Below a known erring index, the first erring index exists and is no
/// later.
proof fn lemma_first_err_below<T, E>(
    slots: Seq<Option<T>>,
    outs: Seq<PollOutcome<T, E>>,
    j: int,
    k: int,
)
    requires
        slots.len() == outs.len(),
        0 <= j <= k < outs.len(),
        slots[k] is None,
        outcome_err(outs[k]) is Some,
    ensures
        first_err_from(slots, outs, j) matches Some(k0) && j <= k0 <= k && slots[k0] is None
            && outcome_err(outs[k0]) is Some,
    decreases k - j,
{
    if slots[j] is None && outcome_err(outs[j]) is Some {
    } else {
        lemma_first_err_below(slots, outs, j + 1, k);
    }
}

/// No still-pending operation errs, so no first erring index exists.
pub proof fn lemma_no_err<T, E>(slots: Seq<Option<T>>, outs: Seq<PollOutcome<T, E>>, j: int)
    requires
        slots.len() == outs.len(),
        forall|i: int|
            0 <= i < outs.len() && (#[trigger] slots[i]) is None ==> outcome_err(outs[i]) is None,
    ensures
        first_err_from(slots, outs, j) is None,
    decreases outs.len() - j,
{
    if 0 <= j && j < outs.len() {
        lemma_no_err(slots, outs, j + 1);
    } else if j < 0 {
        lemma_no_err(slots, outs, j + 1);
    }
}

/// The order law: values land by slot, so the finished list reads in
/// declaration order however completion order ran.  Deliver some slots
/// on a first wake and the rest on a second — in any order — and the
/// value at each position is the one its own operation produced.
pub proof fn lemma_order_preserved<T, E>(
    slots0: Seq<Option<T>>,
    outs1: Seq<PollOutcome<T, E>>,
    outs2: Seq<PollOutcome<T, E>>,
)
    requires
        outs1.len() == slots0.len(),
        outs2.len() == slots0.len(),
        forall|i: int| 0 <= i < slots0.len() ==> (#[trigger] slots0[i]) is None,
        forall|i: int|
            0 <= i < slots0.len() ==> ((outcome_ok(#[trigger] outs1[i]) is Some && outs2[i]
                is Pending) || (outs1[i] is Pending && outcome_ok(outs2[i]) is Some)),
    ensures
        first_err_from(slots0, outs1, 0) is None,
        first_err_from(merge_upto(slots0, outs1, slots0.len() as int), outs2, 0) is None,
        all_done(
            merge_upto(
                merge_upto(slots0, outs1, slots0.len() as int),
                outs2,
                slots0.len() as int,
            ),
        ),
        forall|i: int|
            0 <= i < slots0.len() ==> #[trigger] values_of(
                merge_upto(
                    merge_upto(slots0, outs1, slots0.len() as int),
                    outs2,
                    slots0.len() as int,
                ),
            )[i] == (if outcome_ok(outs1[i]) is Some {
                outcome_ok(outs1[i])->Some_0
            } else {
                outcome_ok(outs2[i])->Some_0
            }),
{
    let n = slots0.len() as int;
    let m1 = merge_upto(slots0, outs1, n);
    let m2 = merge_upto(m1, outs2, n);
    lemma_no_err(slots0, outs1, 0);
    assert forall|i: int| 0 <= i < n && (#[trigger] m1[i]) is None implies outcome_err(
        outs2[i],
    ) is None by {}
    lemma_no_err(m1, outs2, 0);
    assert forall|i: int| 0 <= i < n implies (#[trigger] m2[i]) is Some by {}
}

} // verus!
