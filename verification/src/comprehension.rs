//! Comprehensions: a sequence built by walking a range, keeping the elements
//! that pass a predicate, and transforming each one that is kept.
//!
//! The predicate and the transform are ordinary closures, so a contract cannot
//! name "the" value they return: it says that each answer used is one the
//! closure may give. Where the closures are deterministic, the laws at the end
//! of this module turn that into plain `filter` and `map_values`.

use vstd::prelude::*;

verus! {

/// The items of `items` whose verdict is `true`, in the order they had.
/// Only the first `items.len()` verdicts are read.
pub open spec fn picked<X>(items: Seq<X>, verdicts: Seq<bool>) -> Seq<X>
    decreases items.len(),
{
    if items.len() == 0 {
        Seq::empty()
    } else {
        let earlier = picked(items.drop_last(), verdicts);
        if verdicts[items.len() - 1] {
            earlier.push(items.last())
        } else {
            earlier
        }
    }
}

/// `verdicts` holds one answer per item, each an answer that `pred` may give
/// for that item.
pub open spec fn verdicts_of<X, P: Fn(&X) -> bool>(pred: P, items: Seq<X>, verdicts: Seq<bool>) -> bool {
    &&& verdicts.len() == items.len()
    &&& forall|i: int| 0 <= i < items.len() ==> pred.ensures((&items[i],), #[trigger] verdicts[i])
}

/// `out` holds one value per item, each a value that `result` may give for
/// that item, in the same order.
pub open spec fn mapped<X, R, M: Fn(&X) -> R>(result: M, items: Seq<X>, out: Seq<R>) -> bool {
    &&& out.len() == items.len()
    &&& forall|i: int| 0 <= i < items.len() ==> result.ensures((&items[i],), #[trigger] out[i])
}

/// `out` is what filtering `items` by `pred` may produce.
pub open spec fn selection_of<X, P: Fn(&X) -> bool>(items: Seq<X>, pred: P, out: Seq<X>) -> bool {
    exists|verdicts: Seq<bool>| #[trigger]
        verdicts_of(pred, items, verdicts) && out == picked(items, verdicts)
}

/// `out` is what a comprehension over `items` may produce: the items are
/// judged by `pred` one by one, and `result` is applied, in order, to exactly
/// those that were kept.
pub open spec fn comprehension_of<X, R, P: Fn(&X) -> bool, M: Fn(&X) -> R>(
    items: Seq<X>,
    pred: P,
    result: M,
    out: Seq<R>,
) -> bool {
    exists|verdicts: Seq<bool>| #[trigger]
        verdicts_of(pred, items, verdicts) && mapped(result, picked(items, verdicts), out)
}

/// The elements of `range`, in order.
pub fn collect<T: Copy>(range: &Vec<T>) -> (out: Vec<T>)
    ensures
        out@ == range@,
{
    let same = |item: &T| -> (copy: T)
        ensures
            copy == *item,
        { *item };
    collect_map(range, same)
}

/// Builds the sequence of the elements of `range`, in order, for which
/// `pred` holds.
pub fn collect_if<T: Copy, P: Fn(&T) -> bool>(range: &Vec<T>, pred: P) -> (out: Vec<T>)
    requires
        forall|i: int| 0 <= i < range@.len() ==> pred.requires((&#[trigger] range@[i],)),
    ensures
        selection_of(range@, pred, out@),
{
    let same = |item: &T| -> (copy: T)
        ensures
            copy == *item,
        { *item };
    let out = collect_map_if(range, pred, same);
    proof {
        let verdicts = choose|verdicts: Seq<bool>| #[trigger]
            verdicts_of(pred, range@, verdicts) && mapped(same, picked(range@, verdicts), out@);
        assert(out@ =~= picked(range@, verdicts));
    }
    out
}

/// Builds the sequence of `result(x)` for every `x` of `range`, in order.
pub fn collect_map<T, R, M: Fn(&T) -> R>(range: &Vec<T>, result: M) -> (out: Vec<R>)
    requires
        forall|i: int| 0 <= i < range@.len() ==> result.requires((&#[trigger] range@[i],)),
    ensures
        mapped(result, range@, out@),
{
    let always = |item: &T| -> (keep: bool)
        ensures
            keep,
        { true };
    let out = collect_map_if(range, always, result);
    proof {
        let verdicts = choose|verdicts: Seq<bool>| #[trigger]
            verdicts_of(always, range@, verdicts) && mapped(result, picked(range@, verdicts), out@);
        lemma_picked_all(range@, verdicts);
    }
    out
}

/// Builds the sequence of `result(x)` for every `x` of `range`, in order, for
/// which `pred(x)` holds.
pub fn collect_map_if<T, R, P: Fn(&T) -> bool, M: Fn(&T) -> R>(range: &Vec<T>, pred: P, result: M) -> (out:
    Vec<R>)
    requires
        forall|i: int| 0 <= i < range@.len() ==> pred.requires((&#[trigger] range@[i],)),
        forall|i: int|
            0 <= i < range@.len() && pred.ensures((&range@[i],), true) ==> result.requires(
                (&#[trigger] range@[i],),
            ),
    ensures
        comprehension_of(range@, pred, result, out@),
{
    let mut out: Vec<R> = Vec::new();
    let ghost mut verdicts: Seq<bool> = Seq::empty();
    let mut i: usize = 0;
    while i < range.len()
        invariant
            i <= range@.len(),
            forall|i: int| 0 <= i < range@.len() ==> pred.requires((&#[trigger] range@[i],)),
            forall|i: int|
                0 <= i < range@.len() && pred.ensures((&range@[i],), true) ==> result.requires(
                    (&#[trigger] range@[i],),
                ),
            verdicts_of(pred, range@.take(i as int), verdicts),
            mapped(result, picked(range@.take(i as int), verdicts), out@),
        decreases range@.len() - i,
    {
        let item = &range[i];
        let keep = pred(item);
        let ghost seen = range@.take(i as int);
        proof {
            lemma_picked_push(seen, verdicts, *item, keep);
            assert(range@.take(i + 1) == seen.push(*item));
        }
        if keep {
            let value = result(item);
            out.push(value);
        }
        proof {
            verdicts = verdicts.push(keep);
        }
        i += 1;
    }
    proof {
        assert(range@.take(i as int) == range@);
    }
    out
}

/// The integers from `lo` up to, but not including, `hi`, ascending.
/// Empty when `hi <= lo`.
pub open spec fn span(lo: int, hi: int) -> Seq<i64> {
    Seq::new(
        if lo <= hi {
            (hi - lo) as nat
        } else {
            0nat
        },
        |i: int| (lo + i) as i64,
    )
}

/// The half-open range `lo..hi` as a vector.
pub fn range(lo: i64, hi: i64) -> (out: Vec<i64>)
    ensures
        out@ == span(lo as int, hi as int),
{
    let mut out: Vec<i64> = Vec::new();
    let mut next: i64 = lo;
    while next < hi
        invariant
            lo <= hi ==> lo <= next <= hi,
            hi < lo ==> next == lo,
            out@ == span(lo as int, next as int),
        decreases hi - next,
    {
        out.push(next);
        next = next + 1;
    }
    out
}

/// The closed range `lo..=hi` as a vector.
pub fn range_inclusive(lo: i64, hi: i64) -> (out: Vec<i64>)
    ensures
        out@ == span(lo as int, hi + 1),
{
    let mut out = range(lo, hi);
    if lo <= hi {
        out.push(hi);
    }
    out
}

/// Filter law: with a predicate that answers as the spec function `keep`
/// does, any selection is `filter(keep)`.
pub proof fn lemma_selection_is_filter<X, P: Fn(&X) -> bool>(
    items: Seq<X>,
    pred: P,
    out: Seq<X>,
    keep: spec_fn(X) -> bool,
)
    requires
        selection_of(items, pred, out),
        forall|item: X, verdict: bool|
            items.contains(item) && pred.ensures((&item,), verdict) ==> verdict == keep(item),
    ensures
        out == items.filter(keep),
{
    let verdicts = choose|verdicts: Seq<bool>| #[trigger]
        verdicts_of(pred, items, verdicts) && out == picked(items, verdicts);
    lemma_picked_is_filter(items, verdicts, keep);
}

/// Map law: with a transform that answers as `value` does, mapping is
/// `map_values(value)`.
pub proof fn lemma_mapped_is_map<X, R, M: Fn(&X) -> R>(
    items: Seq<X>,
    result: M,
    out: Seq<R>,
    value: spec_fn(X) -> R,
)
    requires
        mapped(result, items, out),
        forall|item: X, produced: R|
            items.contains(item) && result.ensures((&item,), produced) ==> produced == value(item),
    ensures
        out == items.map_values(value),
{
}

/// Filter-then-map law: with a predicate that answers as `keep` does and a
/// transform that answers as `value` does, any comprehension is
/// `filter(keep)` followed by `map_values(value)`, in range order.
pub proof fn lemma_comprehension_is_filter_map<X, R, P: Fn(&X) -> bool, M: Fn(&X) -> R>(
    items: Seq<X>,
    pred: P,
    result: M,
    out: Seq<R>,
    keep: spec_fn(X) -> bool,
    value: spec_fn(X) -> R,
)
    requires
        comprehension_of(items, pred, result, out),
        forall|item: X, verdict: bool|
            items.contains(item) && pred.ensures((&item,), verdict) ==> verdict == keep(item),
        forall|item: X, produced: R|
            items.contains(item) && result.ensures((&item,), produced) ==> produced == value(item),
    ensures
        out == items.filter(keep).map_values(value),
{
    let verdicts = choose|verdicts: Seq<bool>| #[trigger]
        verdicts_of(pred, items, verdicts) && mapped(result, picked(items, verdicts), out);
    lemma_picked_is_filter(items, verdicts, keep);
    let kept = items.filter(keep);
    assert forall|j: int| 0 <= j < kept.len() implies out[j] == value(kept[j]) by {
        items.lemma_filter_contains_rev(keep, kept[j]);
    }
}

/// Judging one more item appends it to the picked ones exactly when its
/// verdict is `true`.
pub proof fn lemma_picked_push<X>(items: Seq<X>, verdicts: Seq<bool>, item: X, verdict: bool)
    requires
        verdicts.len() == items.len(),
    ensures
        picked(items.push(item), verdicts.push(verdict)) == if verdict {
            picked(items, verdicts).push(item)
        } else {
            picked(items, verdicts)
        },
{
    lemma_picked_reads_prefix(items, verdicts, verdicts.push(verdict));
    assert(items.push(item).drop_last() == items);
}

/// `picked` depends only on the verdicts that belong to an item.
pub proof fn lemma_picked_reads_prefix<X>(items: Seq<X>, first: Seq<bool>, second: Seq<bool>)
    requires
        items.len() <= first.len(),
        items.len() <= second.len(),
        forall|i: int| 0 <= i < items.len() ==> first[i] == second[i],
    ensures
        picked(items, first) == picked(items, second),
    decreases items.len(),
{
    if items.len() > 0 {
        lemma_picked_reads_prefix(items.drop_last(), first, second);
    }
}

/// Where every verdict is `true`, every item is picked.
pub proof fn lemma_picked_all<X>(items: Seq<X>, verdicts: Seq<bool>)
    requires
        items.len() <= verdicts.len(),
        forall|i: int| 0 <= i < items.len() ==> verdicts[i],
    ensures
        picked(items, verdicts) == items,
    decreases items.len(),
{
    if items.len() > 0 {
        lemma_picked_all(items.drop_last(), verdicts);
    }
}

/// Verdicts that agree with `keep` on every item pick what `filter(keep)`
/// keeps.
pub proof fn lemma_picked_is_filter<X>(items: Seq<X>, verdicts: Seq<bool>, keep: spec_fn(X) -> bool)
    requires
        items.len() <= verdicts.len(),
        forall|i: int| 0 <= i < items.len() ==> verdicts[i] == keep(items[i]),
    ensures
        picked(items, verdicts) == items.filter(keep),
    decreases items.len(),
{
    reveal(Seq::filter);
    if items.len() > 0 {
        lemma_picked_is_filter(items.drop_last(), verdicts, keep);
    }
}

} // verus!
