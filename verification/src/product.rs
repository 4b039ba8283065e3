//! Comprehensions over several ranges at once: every combination of one
//! element from each range is visited as nested loops would visit them, the
//! first range outermost, and the combinations that pass the predicate are
//! transformed, in that order.
//!
//! The combinations are never all held at once. A cursor of one index per
//! range is stepped like an odometer, and the closures are handed the current
//! combination as a vector that holds one element of each range, in the order
//! of the ranges.

use crate::comprehension::{
    comprehension_of, lemma_picked_all, lemma_picked_is_filter, lemma_picked_push, mapped, picked,
    verdicts_of,
};
use crate::shape::ShapeError;
use vstd::prelude::*;

verus! {

/// The contents of each range, as plain sequences.
pub open spec fn views<T>(ranges: Seq<Vec<T>>) -> Seq<Seq<T>> {
    ranges.map_values(|range: Vec<T>| range@)
}

/// Every way of taking one element from each range, as nested loops visit
/// them: the first range is the outermost loop and varies slowest, the last
/// range is the innermost and varies fastest.
pub open spec fn combinations<T>(ranges: Seq<Seq<T>>) -> Seq<Seq<T>>
    decreases ranges.len(),
{
    if ranges.len() == 0 {
        seq![Seq::empty()]
    } else {
        let outer = combinations(ranges.drop_last());
        let inner = ranges.last();
        Seq::new(
            outer.len() * inner.len(),
            |n: int| outer[n / (inner.len() as int)].push(inner[n % (inner.len() as int)]),
        )
    }
}

/// Each binding vector holds the combination at the same place.
pub open spec fn bound_to<T>(bindings: Seq<Vec<T>>, combos: Seq<Seq<T>>) -> bool {
    &&& bindings.len() == combos.len()
    &&& forall|n: int| 0 <= n < combos.len() ==> (#[trigger] bindings[n])@ == combos[n]
}

/// `out` is what a comprehension over all combinations of `ranges` may
/// produce, the closures being handed each combination as a vector.
pub open spec fn product_of<T, R, P: Fn(&Vec<T>) -> bool, M: Fn(&Vec<T>) -> R>(
    ranges: Seq<Seq<T>>,
    pred: P,
    result: M,
    out: Seq<R>,
) -> bool {
    exists|bindings: Seq<Vec<T>>| #[trigger]
        bound_to(bindings, combinations(ranges)) && comprehension_of(bindings, pred, result, out)
}

/// `out` is what transforming every combination of `ranges` may produce, the
/// closure being handed each combination as a vector.
pub open spec fn product_mapped<T, R, M: Fn(&Vec<T>) -> R>(
    ranges: Seq<Seq<T>>,
    result: M,
    out: Seq<R>,
) -> bool {
    exists|bindings: Seq<Vec<T>>| #[trigger]
        bound_to(bindings, combinations(ranges)) && mapped(result, bindings, out)
}

/// Builds the sequence of `result(b)` for every combination `b` of one
/// element from each range, the ranges walked as nested loops with the first
/// range outermost.
///
/// A comprehension needs at least one range: with none this is
/// `ShapeError::MissingRange`.
pub fn collect_product<T: Copy, R, M: Fn(&Vec<T>) -> R>(ranges: &Vec<Vec<T>>, result: M) -> (out: Result<
    Vec<R>,
    ShapeError,
>)
    requires
        forall|binding: Vec<T>|
            combinations(views(ranges@)).contains(binding@) ==> #[trigger] result.requires((&binding,)),
    ensures
        ranges@.len() == 0 ==> out == Err::<Vec<R>, _>(ShapeError::MissingRange),
        ranges@.len() > 0 ==> out is Ok && product_mapped(views(ranges@), result, out->Ok_0@),
{
    let always = |binding: &Vec<T>| -> (keep: bool)
        ensures
            keep,
        { true };
    let out = collect_product_if(ranges, always, result);
    proof {
        if ranges@.len() > 0 {
            let items = out->Ok_0@;
            let combos = combinations(views(ranges@));
            let bindings = choose|bindings: Seq<Vec<T>>| #[trigger]
                bound_to(bindings, combos) && comprehension_of(bindings, always, result, items);
            let verdicts = choose|verdicts: Seq<bool>| #[trigger]
                verdicts_of(always, bindings, verdicts) && mapped(
                    result,
                    picked(bindings, verdicts),
                    items,
                );
            lemma_picked_all(bindings, verdicts);
        }
    }
    out
}

/// Builds the sequence of `result(b)` for every combination `b` of one
/// element from each range for which `pred(b)` holds. The ranges are walked as
/// nested loops, the first range outermost. `b` holds the chosen elements in
/// the order of the ranges.
///
/// A comprehension needs at least one range: with none this is
/// `ShapeError::MissingRange`.
pub fn collect_product_if<T: Copy, R, P: Fn(&Vec<T>) -> bool, M: Fn(&Vec<T>) -> R>(
    ranges: &Vec<Vec<T>>,
    pred: P,
    result: M,
) -> (out: Result<Vec<R>, ShapeError>)
    requires
        forall|binding: Vec<T>|
            combinations(views(ranges@)).contains(binding@) ==> #[trigger] pred.requires((&binding,)),
        forall|binding: Vec<T>|
            combinations(views(ranges@)).contains(binding@) && pred.ensures((&binding,), true)
                ==> #[trigger] result.requires((&binding,)),
    ensures
        ranges@.len() == 0 ==> out == Err::<Vec<R>, _>(ShapeError::MissingRange),
        ranges@.len() > 0 ==> out is Ok && product_of(views(ranges@), pred, result, out->Ok_0@),
{
    if ranges.len() == 0 {
        return Err(ShapeError::MissingRange);
    }
    let ghost spans = views(ranges@);
    let ghost combos = combinations(spans);
    let mut out: Vec<R> = Vec::new();
    let mut cursor: Vec<usize> = Vec::new();
    let mut binding: Vec<T> = Vec::new();
    let mut j: usize = 0;
    while j < ranges.len()
        invariant
            spans == views(ranges@),
            combos == combinations(spans),
            out@.len() == 0,
            j <= ranges@.len(),
            cursor@.len() == j,
            binding@.len() == j,
            forall|p: int| 0 <= p < j ==> #[trigger] cursor@[p] == 0 && spans[p].len() > 0,
            forall|p: int| 0 <= p < j ==> #[trigger] binding@[p] == spans[p][0],
        decreases ranges@.len() - j,
    {
        if ranges[j].len() == 0 {
            proof {
                lemma_empty_range_no_combination(spans, j as int);
                let none = Seq::<Vec<T>>::empty();
                let verdicts = Seq::<bool>::empty();
                assert(verdicts_of(pred, none, verdicts));
                assert(bound_to(none, combos));
            }
            return Ok(out);
        }
        cursor.push(0);
        binding.push(ranges[j][0]);
        j += 1;
    }
    let ghost mut bindings: Seq<Vec<T>> = Seq::empty();
    let ghost mut verdicts: Seq<bool> = Seq::empty();
    proof {
        lemma_position_start(spans, cursor@);
        lemma_combination_at(spans, cursor@);
    }
    loop
        invariant_except_break
            spans == views(ranges@),
            combos == combinations(spans),
            forall|binding: Vec<T>| combos.contains(binding@) ==> #[trigger] pred.requires((&binding,)),
            forall|binding: Vec<T>|
                combos.contains(binding@) && pred.ensures((&binding,), true)
                    ==> #[trigger] result.requires((&binding,)),
            in_bounds(spans, cursor@),
            binding@ == bound(spans, cursor@),
            bindings.len() == position(spans, cursor@),
            bindings.len() < combos.len(),
            forall|n: int| 0 <= n < bindings.len() ==> (#[trigger] bindings[n])@ == combos[n],
            verdicts_of(pred, bindings, verdicts),
            mapped(result, picked(bindings, verdicts), out@),
        ensures
            product_of(spans, pred, result, out@),
        decreases combos.len() - bindings.len(),
    {
        proof {
            lemma_combination_at(spans, cursor@);
        }
        let keep = pred(&binding);
        proof {
            lemma_picked_push(bindings, verdicts, binding, keep);
        }
        if keep {
            let value = result(&binding);
            out.push(value);
        }
        proof {
            bindings = bindings.push(binding);
            verdicts = verdicts.push(keep);
            assert(verdicts_of(pred, bindings, verdicts));
        }
        let more = advance(ranges, &mut cursor, &mut binding);
        if !more {
            proof {
                assert(bound_to(bindings, combos));
            }
            break;
        }
    }
    Ok(out)
}

/// `cursor` holds one valid index into each range.
pub open spec fn in_bounds<T>(ranges: Seq<Seq<T>>, cursor: Seq<usize>) -> bool {
    &&& cursor.len() == ranges.len()
    &&& forall|j: int| 0 <= j < ranges.len() ==> (#[trigger] cursor[j]) < ranges[j].len()
}

/// The combination that `cursor` points at.
pub open spec fn bound<T>(ranges: Seq<Seq<T>>, cursor: Seq<usize>) -> Seq<T> {
    Seq::new(ranges.len(), |j: int| ranges[j][cursor[j] as int])
}

/// How many combinations come before the one that `cursor` points at.
pub open spec fn position<T>(ranges: Seq<Seq<T>>, cursor: Seq<usize>) -> int
    decreases ranges.len(),
{
    if ranges.len() == 0 {
        0
    } else {
        position(ranges.drop_last(), cursor.drop_last()) * ranges.last().len() + cursor.last()
    }
}

/// Moves `cursor`, and `binding` with it, to the next combination. Returns
/// `false`, leaving nothing to rely on in either, when `cursor` stood at the
/// last one.
fn advance<T: Copy>(ranges: &Vec<Vec<T>>, cursor: &mut Vec<usize>, binding: &mut Vec<T>) -> (more: bool)
    requires
        in_bounds(views(ranges@), old(cursor)@),
        old(binding)@ == bound(views(ranges@), old(cursor)@),
    ensures
        more == (position(views(ranges@), old(cursor)@) + 1 < combinations(views(ranges@)).len()),
        more ==> in_bounds(views(ranges@), final(cursor)@),
        more ==> position(views(ranges@), final(cursor)@) == position(views(ranges@), old(cursor)@) + 1,
        more ==> final(binding)@ == bound(views(ranges@), final(cursor)@),
{
    let ghost spans = views(ranges@);
    let mut at: usize = cursor.len();
    while at > 0
        invariant
            spans == views(ranges@),
            in_bounds(spans, old(cursor)@),
            at <= ranges@.len(),
            cursor@.len() == ranges@.len(),
            binding@.len() == ranges@.len(),
            forall|j: int|
                #![trigger cursor@[j]]
                #![trigger old(cursor)@[j]]
                0 <= j < at ==> cursor@[j] == old(cursor)@[j],
            forall|j: int|
                #![trigger cursor@[j]]
                #![trigger old(cursor)@[j]]
                at <= j < ranges@.len() ==> old(cursor)@[j] + 1 == spans[j].len() && cursor@[j] == 0,
            forall|j: int|
                0 <= j < ranges@.len() ==> #[trigger] binding@[j] == spans[j][cursor@[j] as int],
        decreases at,
    {
        at = at - 1;
        let here = cursor[at];
        let width = ranges[at].len();
        if here + 1 < width {
            cursor.set(at, here + 1);
            binding.set(at, ranges[at][here + 1]);
            proof {
                lemma_position_step(spans, old(cursor)@, cursor@, at as int);
                lemma_combination_at(spans, cursor@);
            }
            return true;
        }
        cursor.set(at, 0);
        binding.set(at, ranges[at][0]);
    }
    proof {
        lemma_position_end(spans, old(cursor)@);
    }
    false
}

/// Map law for several ranges: with a transform that answers as `value`
/// does, transforming every combination is `map_values(value)` over the
/// combinations in nested-loop order, one result for each.
pub proof fn lemma_product_is_map<T, R, M: Fn(&Vec<T>) -> R>(
    ranges: Seq<Seq<T>>,
    result: M,
    out: Seq<R>,
    value: spec_fn(Seq<T>) -> R,
)
    requires
        product_mapped(ranges, result, out),
        forall|binding: Vec<T>, produced: R|
            combinations(ranges).contains(binding@) && #[trigger] result.ensures(
                (&binding,),
                produced,
            ) ==> produced == value(binding@),
    ensures
        out == combinations(ranges).map_values(value),
{
    let combos = combinations(ranges);
    let bindings = choose|bindings: Seq<Vec<T>>| #[trigger]
        bound_to(bindings, combos) && mapped(result, bindings, out);
    assert forall|n: int| 0 <= n < combos.len() implies out[n] == value(combos[n]) by {
        assert(combos.contains(combos[n]));
        assert(bindings[n]@ == combos[n]);
    }
    assert(out =~= combos.map_values(value));
}

/// Filter-then-map law for several ranges. With a predicate that answers as
/// `keep` does on what a binding holds, and a transform that answers as
/// `value` does, a comprehension over the ranges is the combinations, in
/// nested-loop order, filtered by `keep` and then mapped by `value`. So its
/// length is the number of combinations that satisfy the predicate.
pub proof fn lemma_product_is_filter_map<T, R, P: Fn(&Vec<T>) -> bool, M: Fn(&Vec<T>) -> R>(
    ranges: Seq<Seq<T>>,
    pred: P,
    result: M,
    out: Seq<R>,
    keep: spec_fn(Seq<T>) -> bool,
    value: spec_fn(Seq<T>) -> R,
)
    requires
        product_of(ranges, pred, result, out),
        forall|binding: Vec<T>, verdict: bool|
            combinations(ranges).contains(binding@) && #[trigger] pred.ensures((&binding,), verdict)
                ==> verdict == keep(binding@),
        forall|binding: Vec<T>, produced: R|
            combinations(ranges).contains(binding@) && #[trigger] result.ensures(
                (&binding,),
                produced,
            ) ==> produced == value(binding@),
    ensures
        out == combinations(ranges).filter(keep).map_values(value),
        out.len() == combinations(ranges).filter(keep).len(),
{
    let combos = combinations(ranges);
    let bindings = choose|bindings: Seq<Vec<T>>| #[trigger]
        bound_to(bindings, combos) && comprehension_of(bindings, pred, result, out);
    let verdicts = choose|verdicts: Seq<bool>| #[trigger]
        verdicts_of(pred, bindings, verdicts) && mapped(result, picked(bindings, verdicts), out);
    assert forall|n: int| 0 <= n < combos.len() implies verdicts[n] == keep(combos[n]) by {
        assert(combos.contains(combos[n]));
        assert(bindings[n]@ == combos[n]);
    }
    lemma_picked_is_filter(combos, verdicts, keep);
    lemma_picked_bound(bindings, combos, verdicts);
    let kept = combos.filter(keep);
    let chosen = picked(bindings, verdicts);
    assert forall|j: int| 0 <= j < kept.len() implies out[j] == value(kept[j]) by {
        assert(kept.contains(kept[j]));
        combos.lemma_filter_contains_rev(keep, kept[j]);
        assert(chosen[j]@ == kept[j]);
    }
    assert(out =~= kept.map_values(value));
}

/// Nested-loop order: the first range varies slowest. Of two cursors that
/// agree on every range before `at` and differ at `at`, the one with the
/// smaller index there points at the earlier combination, whatever the
/// indices into the later ranges are.
pub proof fn lemma_outer_varies_slowest<T>(
    ranges: Seq<Seq<T>>,
    earlier: Seq<usize>,
    later: Seq<usize>,
    at: int,
)
    requires
        in_bounds(ranges, earlier),
        in_bounds(ranges, later),
        0 <= at < ranges.len(),
        forall|j: int| 0 <= j < at ==> #[trigger] earlier[j] == later[j],
        earlier[at] < later[at],
    ensures
        position(ranges, earlier) < position(ranges, later),
    decreases ranges.len(),
{
    let last = ranges.len() - 1;
    let width = ranges.last().len() as int;
    let high_earlier = position(ranges.drop_last(), earlier.drop_last());
    let high_later = position(ranges.drop_last(), later.drop_last());
    if at == last {
        assert(earlier.drop_last() =~= later.drop_last());
    } else {
        lemma_outer_varies_slowest(ranges.drop_last(), earlier.drop_last(), later.drop_last(), at);
        assert(high_earlier * width + width <= high_later * width) by (nonlinear_arith)
            requires
                high_earlier + 1 <= high_later,
                0 <= width,
        ;
    }
}

/// A cursor within bounds points at a combination, and at the place that
/// `position` gives.
pub proof fn lemma_combination_at<T>(ranges: Seq<Seq<T>>, cursor: Seq<usize>)
    requires
        in_bounds(ranges, cursor),
    ensures
        0 <= position(ranges, cursor) < combinations(ranges).len(),
        combinations(ranges)[position(ranges, cursor)] == bound(ranges, cursor),
    decreases ranges.len(),
{
    if ranges.len() > 0 {
        let outer_ranges = ranges.drop_last();
        let outer_cursor = cursor.drop_last();
        lemma_combination_at(outer_ranges, outer_cursor);
        let outer = combinations(outer_ranges);
        let inner = ranges.last();
        let width = inner.len() as int;
        let high = position(outer_ranges, outer_cursor);
        let low = cursor.last() as int;
        let n = high * width + low;
        vstd::arithmetic::div_mod::lemma_fundamental_div_mod_converse(n, width, high, low);
        assert(n < outer.len() * width) by (nonlinear_arith)
            requires
                n == high * width + low,
                0 <= low < width,
                0 <= high < outer.len(),
        ;
        assert(outer[high].push(inner[low]) =~= bound(ranges, cursor));
    } else {
        assert(bound(ranges, cursor) =~= Seq::<T>::empty());
    }
}

/// Where some range is empty there is no combination.
pub proof fn lemma_empty_range_no_combination<T>(ranges: Seq<Seq<T>>, j: int)
    requires
        0 <= j < ranges.len(),
        ranges[j].len() == 0,
    ensures
        combinations(ranges).len() == 0,
    decreases ranges.len(),
{
    let outer = combinations(ranges.drop_last());
    let inner = ranges.last();
    if j < ranges.len() - 1 {
        lemma_empty_range_no_combination(ranges.drop_last(), j);
    }
    assert(outer.len() * inner.len() == 0) by (nonlinear_arith)
        requires
            outer.len() == 0 || inner.len() == 0,
    ;
}

/// The cursor of all zeros points at the first combination.
proof fn lemma_position_start<T>(ranges: Seq<Seq<T>>, cursor: Seq<usize>)
    requires
        cursor.len() == ranges.len(),
        forall|j: int| 0 <= j < cursor.len() ==> #[trigger] cursor[j] == 0,
    ensures
        position(ranges, cursor) == 0,
    decreases ranges.len(),
{
    if ranges.len() > 0 {
        lemma_position_start(ranges.drop_last(), cursor.drop_last());
    }
}

/// Stepping the cursor like an odometer moves one place forward: the index at
/// `at` goes up by one and every index after it, which stood at its maximum,
/// goes back to zero.
proof fn lemma_position_step<T>(ranges: Seq<Seq<T>>, before: Seq<usize>, after: Seq<usize>, at: int)
    requires
        in_bounds(ranges, before),
        after.len() == before.len(),
        0 <= at < ranges.len(),
        after[at] == before[at] + 1,
        forall|j: int| 0 <= j < at ==> #[trigger] after[j] == before[j],
        forall|j: int|
            #![trigger before[j]]
            #![trigger after[j]]
            at < j < ranges.len() ==> before[j] + 1 == ranges[j].len() && after[j] == 0,
    ensures
        position(ranges, after) == position(ranges, before) + 1,
    decreases ranges.len(),
{
    let last = ranges.len() - 1;
    if at == last {
        assert(after.drop_last() =~= before.drop_last());
    } else {
        lemma_position_step(ranges.drop_last(), before.drop_last(), after.drop_last(), at);
        let high = position(ranges.drop_last(), before.drop_last());
        let width = ranges.last().len() as int;
        assert((high + 1) * width + 0 == high * width + (width - 1) + 1) by (nonlinear_arith);
    }
}

/// The cursor whose every index stands at its maximum points at the last
/// combination.
proof fn lemma_position_end<T>(ranges: Seq<Seq<T>>, cursor: Seq<usize>)
    requires
        cursor.len() == ranges.len(),
        forall|j: int| 0 <= j < ranges.len() ==> #[trigger] cursor[j] + 1 == ranges[j].len(),
    ensures
        position(ranges, cursor) == combinations(ranges).len() - 1,
    decreases ranges.len(),
{
    if ranges.len() > 0 {
        lemma_position_end(ranges.drop_last(), cursor.drop_last());
        let high = position(ranges.drop_last(), cursor.drop_last());
        let width = ranges.last().len() as int;
        assert(high * width + (width - 1) == (high + 1) * width - 1) by (nonlinear_arith);
    }
}

/// Picking by the same verdicts keeps bindings and combinations in step.
proof fn lemma_picked_bound<T>(bindings: Seq<Vec<T>>, combos: Seq<Seq<T>>, verdicts: Seq<bool>)
    requires
        bound_to(bindings, combos),
    ensures
        bound_to(picked(bindings, verdicts), picked(combos, verdicts)),
    decreases bindings.len(),
{
    if bindings.len() > 0 {
        lemma_picked_bound(bindings.drop_last(), combos.drop_last(), verdicts);
    }
}

} // verus!
