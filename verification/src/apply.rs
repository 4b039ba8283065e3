//! One function applied to many mutable bindings, strictly left to right,
//! either for its effect on the bindings alone or collecting what each call
//! returned.
//!
//! The function takes a binding by mutable reference. A contract speaks of
//! such a call through the reference that was handed over: its value going
//! in, `*m`, and its value coming out, `*final(m)`.

use vstd::prelude::*;

verus! {

/// `i` is a place in `results`.
spec fn answered<R>(results: Seq<R>, i: int) -> bool {
    0 <= i < results.len()
}

/// Calls `f` on each of `targets` in turn, first to last, and returns what
/// each call returned, in the same order.
pub fn apply_collect<T, R, F: Fn(&mut T) -> R>(f: F, targets: &mut Vec<T>) -> (results: Vec<R>)
    requires
        forall|m: &mut T| old(targets)@.contains(*m) ==> #[trigger] f.requires((m,)),
    ensures
        final(targets)@.len() == old(targets)@.len(),
        results@.len() == old(targets)@.len(),
        exists|calls: Seq<&mut T>|
            #![trigger calls.len()]
            {
                &&& calls.len() == old(targets)@.len()
                &&& forall|i: int|
                    #![trigger calls[i]]
                    0 <= i < calls.len() ==> {
                        &&& *calls[i] == old(targets)@[i]
                        &&& *final(calls[i]) == final(targets)@[i]
                        &&& f.ensures((calls[i],), results@[i])
                    }
            },
{
    let mut results: Vec<R> = Vec::new();
    let mut i: usize = 0;
    while i < targets.len()
        invariant
            forall|m: &mut T| old(targets)@.contains(*m) ==> #[trigger] f.requires((m,)),
            i <= targets@.len(),
            targets@.len() == old(targets)@.len(),
            results@.len() == i,
            forall|j: int| i <= j < targets@.len() ==> #[trigger] targets@[j] == old(targets)@[j],
            forall|j: int|
                #[trigger] answered(results@, j) ==> exists|m: &mut T|
                    {
                        &&& *m == old(targets)@[j]
                        &&& *final(m) == targets@[j]
                        &&& #[trigger] f.ensures((m,), results@[j])
                    },
        decreases targets@.len() - i,
    {
        let ghost earlier_results = results@;
        let returned = f(&mut targets[i]);
        results.push(returned);
        proof {
            assert forall|j: int| #[trigger] answered(results@, j) implies exists|m: &mut T|
                {
                    &&& *m == old(targets)@[j]
                    &&& *final(m) == targets@[j]
                    &&& #[trigger] f.ensures((m,), results@[j])
                } by {
                if j < i {
                    assert(answered(earlier_results, j));
                    assert(results@[j] == earlier_results[j]);
                } else {
                    assert(results@[j] == returned);
                }
            }
        }
        i += 1;
    }
    proof {
        let calls = Seq::new(
            results@.len(),
            |j: int|
                choose|m: &mut T|
                    {
                        &&& *m == old(targets)@[j]
                        &&& *final(m) == targets@[j]
                        &&& #[trigger] f.ensures((m,), results@[j])
                    },
        );
        assert forall|j: int| 0 <= j < calls.len() implies {
            &&& *(#[trigger] calls[j]) == old(targets)@[j]
            &&& *final(calls[j]) == targets@[j]
            &&& f.ensures((calls[j],), results@[j])
        } by {
            assert(answered(results@, j));
        }
    }
    results
}

/// Calls `f` on each of `targets` in turn, first to last, for its effect on
/// them alone: what the calls return is dropped.
pub fn apply<T, R, F: Fn(&mut T) -> R>(f: F, targets: &mut Vec<T>)
    requires
        forall|m: &mut T| old(targets)@.contains(*m) ==> #[trigger] f.requires((m,)),
    ensures
        final(targets)@.len() == old(targets)@.len(),
        exists|calls: Seq<&mut T>, dropped: Seq<R>|
            #![trigger calls.len(), dropped.len()]
            {
                &&& calls.len() == old(targets)@.len()
                &&& dropped.len() == old(targets)@.len()
                &&& forall|i: int|
                    #![trigger calls[i]]
                    0 <= i < calls.len() ==> {
                        &&& *calls[i] == old(targets)@[i]
                        &&& *final(calls[i]) == final(targets)@[i]
                        &&& f.ensures((calls[i],), dropped[i])
                    }
            },
{
    let results = apply_collect(f, targets);
    proof {
        let calls = choose|calls: Seq<&mut T>|
            #![trigger calls.len()]
            {
                &&& calls.len() == old(targets)@.len()
                &&& forall|i: int|
                    #![trigger calls[i]]
                    0 <= i < calls.len() ==> {
                        &&& *calls[i] == old(targets)@[i]
                        &&& *final(calls[i]) == targets@[i]
                        &&& f.ensures((calls[i],), results@[i])
                    }
            };
    }
}

/// Calls `f` on `first`, then on `second`, and returns what the two calls
/// returned as a pair, in that order.
pub fn apply_collect_pair<T, R, F: Fn(&mut T) -> R>(f: F, first: &mut T, second: &mut T) -> (results: (
    R,
    R,
))
    requires
        forall|m: &mut T| *m == *old(first) ==> #[trigger] f.requires((m,)),
        forall|m: &mut T| *m == *old(second) ==> #[trigger] f.requires((m,)),
    ensures
        exists|m: &mut T|
            *m == *old(first) && *final(m) == *final(first) && #[trigger] f.ensures((m,), results.0),
        exists|m: &mut T|
            *m == *old(second) && *final(m) == *final(second) && #[trigger] f.ensures(
                (m,),
                results.1,
            ),
{
    let one = f(first);
    let ghost call_one = choose|m: &mut T|
        *m == *old(first) && *final(m) == *first && #[trigger] f.ensures((m,), one);
    let two = f(second);
    let ghost call_two = choose|m: &mut T|
        *m == *old(second) && *final(m) == *second && #[trigger] f.ensures((m,), two);
    let results = (one, two);
    assert(f.ensures((call_one,), results.0));
    assert(f.ensures((call_two,), results.1));
    results
}

/// Calls `f` on `first`, then on `second`, then on `third`, and returns what
/// the three calls returned as a triple, in that order.
pub fn apply_collect_triple<T, R, F: Fn(&mut T) -> R>(
    f: F,
    first: &mut T,
    second: &mut T,
    third: &mut T,
) -> (results: (R, R, R))
    requires
        forall|m: &mut T| *m == *old(first) ==> #[trigger] f.requires((m,)),
        forall|m: &mut T| *m == *old(second) ==> #[trigger] f.requires((m,)),
        forall|m: &mut T| *m == *old(third) ==> #[trigger] f.requires((m,)),
    ensures
        exists|m: &mut T|
            *m == *old(first) && *final(m) == *final(first) && #[trigger] f.ensures((m,), results.0),
        exists|m: &mut T|
            *m == *old(second) && *final(m) == *final(second) && #[trigger] f.ensures(
                (m,),
                results.1,
            ),
        exists|m: &mut T|
            *m == *old(third) && *final(m) == *final(third) && #[trigger] f.ensures((m,), results.2),
{
    let one = f(first);
    let ghost call_one = choose|m: &mut T|
        *m == *old(first) && *final(m) == *first && #[trigger] f.ensures((m,), one);
    let two = f(second);
    let ghost call_two = choose|m: &mut T|
        *m == *old(second) && *final(m) == *second && #[trigger] f.ensures((m,), two);
    let three = f(third);
    let ghost call_three = choose|m: &mut T|
        *m == *old(third) && *final(m) == *third && #[trigger] f.ensures((m,), three);
    let results = (one, two, three);
    assert(f.ensures((call_one,), results.0));
    assert(f.ensures((call_two,), results.1));
    assert(f.ensures((call_three,), results.2));
    results
}

/// Calls `f` on `first`, then on `second`, for its effect on them alone.
pub fn apply_pair<T, R, F: Fn(&mut T) -> R>(f: F, first: &mut T, second: &mut T)
    requires
        forall|m: &mut T| *m == *old(first) ==> #[trigger] f.requires((m,)),
        forall|m: &mut T| *m == *old(second) ==> #[trigger] f.requires((m,)),
    ensures
        exists|m: &mut T, dropped: R|
            *m == *old(first) && *final(m) == *final(first) && #[trigger] f.ensures((m,), dropped),
        exists|m: &mut T, dropped: R|
            *m == *old(second) && *final(m) == *final(second) && #[trigger] f.ensures((m,), dropped),
{
    let _ = f(first);
    let _ = f(second);
}

/// Calls `f` on `first`, then on `second`, then on `third`, for its effect on
/// them alone.
pub fn apply_triple<T, R, F: Fn(&mut T) -> R>(f: F, first: &mut T, second: &mut T, third: &mut T)
    requires
        forall|m: &mut T| *m == *old(first) ==> #[trigger] f.requires((m,)),
        forall|m: &mut T| *m == *old(second) ==> #[trigger] f.requires((m,)),
        forall|m: &mut T| *m == *old(third) ==> #[trigger] f.requires((m,)),
    ensures
        exists|m: &mut T, dropped: R|
            *m == *old(first) && *final(m) == *final(first) && #[trigger] f.ensures((m,), dropped),
        exists|m: &mut T, dropped: R|
            *m == *old(second) && *final(m) == *final(second) && #[trigger] f.ensures((m,), dropped),
        exists|m: &mut T, dropped: R|
            *m == *old(third) && *final(m) == *final(third) && #[trigger] f.ensures((m,), dropped),
{
    let _ = f(first);
    let _ = f(second);
    let _ = f(third);
}

/// Collect law. Where every call of `f` leaves `step(x)` in a binding that
/// held `x` and returns `value(x)`, applying `f` to the bindings `before`
/// leaves `step` of each in its place and returns `value` of each, place by
/// place: the `i`-th result is that of calling `f` on the `i`-th binding.
pub proof fn lemma_apply_collect_maps<T, R, F: Fn(&mut T) -> R>(
    f: F,
    before: Seq<T>,
    after: Seq<T>,
    results: Seq<R>,
    step: spec_fn(T) -> T,
    value: spec_fn(T) -> R,
)
    requires
        after.len() == before.len(),
        results.len() == before.len(),
        exists|calls: Seq<&mut T>|
            #![trigger calls.len()]
            {
                &&& calls.len() == before.len()
                &&& forall|i: int|
                    #![trigger calls[i]]
                    0 <= i < calls.len() ==> {
                        &&& *calls[i] == before[i]
                        &&& *final(calls[i]) == after[i]
                        &&& f.ensures((calls[i],), results[i])
                    }
            },
        forall|m: &mut T, returned: R|
            before.contains(*m) && #[trigger] f.ensures((m,), returned) ==> *final(m) == step(*m)
                && returned == value(*m),
    ensures
        after == before.map_values(step),
        results == before.map_values(value),
{
    let calls = choose|calls: Seq<&mut T>|
        #![trigger calls.len()]
        {
            &&& calls.len() == before.len()
            &&& forall|i: int|
                #![trigger calls[i]]
                0 <= i < calls.len() ==> {
                    &&& *calls[i] == before[i]
                    &&& *final(calls[i]) == after[i]
                    &&& f.ensures((calls[i],), results[i])
                }
        };
    assert forall|i: int| 0 <= i < before.len() implies after[i] == step(before[i]) && results[i]
        == value(before[i]) by {
        assert(before.contains(*calls[i]));
        assert(f.ensures((calls[i],), results[i]));
    }
    assert(after =~= before.map_values(step));
    assert(results =~= before.map_values(value));
}

/// Discard law. Where every call of `f` leaves `step(x)` in a binding that
/// held `x`, applying `f` to the bindings `before` for its effect alone
/// leaves `step` of each in its place: the bindings end up as after that
/// many single calls, and as after collecting.
pub proof fn lemma_apply_maps<T, R, F: Fn(&mut T) -> R>(
    f: F,
    before: Seq<T>,
    after: Seq<T>,
    step: spec_fn(T) -> T,
)
    requires
        after.len() == before.len(),
        exists|calls: Seq<&mut T>, dropped: Seq<R>|
            #![trigger calls.len(), dropped.len()]
            {
                &&& calls.len() == before.len()
                &&& dropped.len() == before.len()
                &&& forall|i: int|
                    #![trigger calls[i]]
                    0 <= i < calls.len() ==> {
                        &&& *calls[i] == before[i]
                        &&& *final(calls[i]) == after[i]
                        &&& f.ensures((calls[i],), dropped[i])
                    }
            },
        forall|m: &mut T, returned: R|
            before.contains(*m) && #[trigger] f.ensures((m,), returned) ==> *final(m) == step(*m),
    ensures
        after == before.map_values(step),
{
    let (calls, dropped) = choose|calls: Seq<&mut T>, dropped: Seq<R>|
        #![trigger calls.len(), dropped.len()]
        {
            &&& calls.len() == before.len()
            &&& dropped.len() == before.len()
            &&& forall|i: int|
                #![trigger calls[i]]
                0 <= i < calls.len() ==> {
                    &&& *calls[i] == before[i]
                    &&& *final(calls[i]) == after[i]
                    &&& f.ensures((calls[i],), dropped[i])
                }
        };
    assert forall|i: int| 0 <= i < before.len() implies after[i] == step(before[i]) by {
        assert(before.contains(*calls[i]));
        assert(f.ensures((calls[i],), dropped[i]));
    }
    assert(after =~= before.map_values(step));
}

/// What a fallible application that made the calls answered by `answers`
/// hands back: every call but the last succeeded; with all `wanted` calls
/// made and the last one successful too it is the successes, in order, and
/// otherwise it is the failure of the last call, at which it stopped.
pub open spec fn stops_at_failure<R, E>(
    answers: Seq<Result<R, E>>,
    wanted: nat,
    outcome: Result<Seq<R>, E>,
) -> bool {
    &&& forall|i: int| 0 <= i < answers.len() - 1 ==> #[trigger] answers[i] is Ok
    &&& match outcome {
        Ok(results) => {
            &&& answers.len() == wanted
            &&& results.len() == wanted
            &&& forall|i: int| 0 <= i < wanted ==> #[trigger] answers[i] == Ok::<R, E>(results[i])
        },
        Err(error) => answers.len() > 0 && answers.last() == Err::<R, E>(error),
    }
}

/// The results of an outcome as a plain sequence.
pub open spec fn outcome_view<R, E>(outcome: Result<Vec<R>, E>) -> Result<Seq<R>, E> {
    match outcome {
        Ok(results) => Ok(results@),
        Err(error) => Err(error),
    }
}

/// Calls a fallible `f` on each of `targets` in turn, first to last, and
/// stops at the first call that fails. The failure is handed back as it is;
/// what earlier calls returned is dropped, the targets they changed stay
/// changed, and the targets after the failing one are not touched. Where no
/// call fails the result is what each call returned, in order.
pub fn try_apply_collect<T, R, E, F: Fn(&mut T) -> Result<R, E>>(f: F, targets: &mut Vec<T>) -> (outcome:
    Result<Vec<R>, E>)
    requires
        forall|m: &mut T| old(targets)@.contains(*m) ==> #[trigger] f.requires((m,)),
    ensures
        final(targets)@.len() == old(targets)@.len(),
        exists|calls: Seq<&mut T>, answers: Seq<Result<R, E>>|
            #![trigger calls.len(), answers.len()]
            {
                &&& calls.len() == answers.len()
                &&& calls.len() <= old(targets)@.len()
                &&& forall|i: int|
                    #![trigger calls[i]]
                    0 <= i < calls.len() ==> {
                        &&& *calls[i] == old(targets)@[i]
                        &&& *final(calls[i]) == final(targets)@[i]
                        &&& f.ensures((calls[i],), answers[i])
                    }
                &&& forall|i: int|
                    calls.len() <= i < old(targets)@.len() ==> #[trigger] final(targets)@[i] == old(
                        targets,
                    )@[i]
                &&& stops_at_failure(answers, old(targets)@.len(), outcome_view(outcome))
            },
{
    let mut results: Vec<R> = Vec::new();
    let mut i: usize = 0;
    while i < targets.len()
        invariant
            forall|m: &mut T| old(targets)@.contains(*m) ==> #[trigger] f.requires((m,)),
            i <= targets@.len(),
            targets@.len() == old(targets)@.len(),
            results@.len() == i,
            forall|j: int| i <= j < targets@.len() ==> #[trigger] targets@[j] == old(targets)@[j],
            forall|j: int|
                #[trigger] answered(results@, j) ==> exists|m: &mut T|
                    {
                        &&& *m == old(targets)@[j]
                        &&& *final(m) == targets@[j]
                        &&& #[trigger] f.ensures((m,), Ok::<R, E>(results@[j]))
                    },
        decreases targets@.len() - i,
    {
        let ghost earlier_results = results@;
        let answer = f(&mut targets[i]);
        match answer {
            Ok(returned) => {
                results.push(returned);
                proof {
                    assert forall|j: int| #[trigger] answered(results@, j) implies exists|m: &mut T|
                        {
                            &&& *m == old(targets)@[j]
                            &&& *final(m) == targets@[j]
                            &&& #[trigger] f.ensures((m,), Ok::<R, E>(results@[j]))
                        } by {
                        if j < i {
                            assert(answered(earlier_results, j));
                            assert(results@[j] == earlier_results[j]);
                        } else {
                            assert(results@[j] == returned);
                        }
                    }
                }
            },
            Err(error) => {
                proof {
                    let answers = results@.map_values(|returned: R| Ok::<R, E>(returned)).push(
                        Err::<R, E>(error),
                    );
                    let calls = Seq::new(
                        (i + 1) as nat,
                        |j: int|
                            choose|m: &mut T|
                                {
                                    &&& *m == old(targets)@[j]
                                    &&& *final(m) == targets@[j]
                                    &&& #[trigger] f.ensures((m,), answers[j])
                                },
                    );
                    assert forall|j: int| 0 <= j < calls.len() implies {
                        &&& *(#[trigger] calls[j]) == old(targets)@[j]
                        &&& *final(calls[j]) == targets@[j]
                        &&& f.ensures((calls[j],), answers[j])
                    } by {
                        if j < i {
                            assert(answered(earlier_results, j));
                        }
                    }
                    assert(stops_at_failure(
                        answers,
                        old(targets)@.len(),
                        outcome_view(Err::<Vec<R>, E>(error)),
                    ));
                }
                return Err(error);
            },
        }
        i += 1;
    }
    proof {
        let answers = results@.map_values(|returned: R| Ok::<R, E>(returned));
        let calls = Seq::new(
            results@.len(),
            |j: int|
                choose|m: &mut T|
                    {
                        &&& *m == old(targets)@[j]
                        &&& *final(m) == targets@[j]
                        &&& #[trigger] f.ensures((m,), answers[j])
                    },
        );
        assert forall|j: int| 0 <= j < calls.len() implies {
            &&& *(#[trigger] calls[j]) == old(targets)@[j]
            &&& *final(calls[j]) == targets@[j]
            &&& f.ensures((calls[j],), answers[j])
        } by {
            assert(answered(results@, j));
        }
        assert(stops_at_failure(answers, old(targets)@.len(), Ok::<Seq<R>, E>(results@)));
    }
    Ok(results)
}

} // verus!
