//! A switch over a scrutinee: the cases are tried in the order in which they
//! were declared, the first one whose pattern equals the scrutinee is taken,
//! and a default case, which must be there and must come last, is taken when
//! none of the others matches.

use crate::shape::ShapeError;
use vstd::prelude::*;

verus! {

/// What a case compares the scrutinee with.
#[derive(Debug)]
pub enum Pattern<V> {
    /// Matches the scrutinee that equals this value.
    Concrete(V),
    /// The default: matches every scrutinee.
    Wildcard,
}

/// One branch of a switch: a pattern and the body to take when it matches.
#[derive(Debug)]
pub struct Case<V, B> {
    /// What the scrutinee is compared with.
    pub pattern: Pattern<V>,
    /// What is taken when the pattern matches.
    pub body: B,
}

impl<V, B> Case<V, B> {
    /// The case that is taken for the scrutinee equal to `value`.
    pub fn on(value: V, body: B) -> (case: Self)
        ensures
            case.pattern == Pattern::Concrete(value),
            case.body == body,
    {
        Case { pattern: Pattern::Concrete(value), body }
    }

    /// The default case, taken when no other case matches.
    pub fn otherwise(body: B) -> (case: Self)
        ensures
            case.pattern == Pattern::<V>::Wildcard,
            case.body == body,
    {
        Case { pattern: Pattern::Wildcard, body }
    }
}

/// Whether `pattern` matches `scrutinee`.
pub open spec fn admits<V>(pattern: Pattern<V>, scrutinee: V) -> bool {
    match pattern {
        Pattern::Concrete(value) => value == scrutinee,
        Pattern::Wildcard => true,
    }
}

/// The patterns of `cases`, in declaration order.
pub open spec fn patterns_of<V, B>(cases: Seq<Case<V, B>>) -> Seq<Pattern<V>> {
    cases.map_values(|case: Case<V, B>| case.pattern)
}

/// How many of `patterns` are the default.
pub open spec fn defaults<V>(patterns: Seq<Pattern<V>>) -> nat {
    patterns.filter(|pattern: Pattern<V>| pattern is Wildcard).len()
}

/// What is wrong with the shape of a branch table that has these patterns,
/// if anything: it needs exactly one default, in the last place.
pub open spec fn shape_fault<V>(patterns: Seq<Pattern<V>>) -> Option<ShapeError> {
    if defaults(patterns) == 0 {
        Some(ShapeError::MissingDefault)
    } else if defaults(patterns) > 1 {
        Some(ShapeError::DuplicateDefault)
    } else if !(patterns.last() is Wildcard) {
        Some(ShapeError::DefaultNotLast)
    } else {
        None
    }
}

/// The patterns have exactly one default, and it is the last of them.
pub open spec fn well_formed<V>(patterns: Seq<Pattern<V>>) -> bool {
    shape_fault(patterns) is None
}

/// The place of the first pattern that matches `scrutinee`, or
/// `patterns.len()` if none does.
pub open spec fn first_match<V>(patterns: Seq<Pattern<V>>, scrutinee: V) -> int
    decreases patterns.len(),
{
    if patterns.len() == 0 {
        0
    } else if admits(patterns.first(), scrutinee) {
        0
    } else {
        1 + first_match(patterns.drop_first(), scrutinee)
    }
}

/// A pattern that matches, with none matching before it, is the first match.
pub proof fn lemma_first_match_is<V>(patterns: Seq<Pattern<V>>, scrutinee: V, at: int)
    requires
        0 <= at < patterns.len(),
        admits(patterns[at], scrutinee),
        forall|j: int| 0 <= j < at ==> !admits(#[trigger] patterns[j], scrutinee),
    ensures
        first_match(patterns, scrutinee) == at,
    decreases at,
{
    if at > 0 {
        let rest = patterns.drop_first();
        assert forall|j: int| 0 <= j < at - 1 implies !admits(#[trigger] rest[j], scrutinee) by {
            assert(rest[j] == patterns[j + 1]);
        }
        lemma_first_match_is(rest, scrutinee, at - 1);
    }
}

/// What the first match is: a place within the patterns or their length,
/// with no match before it and, if within, a match at it.
pub proof fn lemma_first_match_bounds<V>(patterns: Seq<Pattern<V>>, scrutinee: V)
    ensures
        0 <= first_match(patterns, scrutinee) <= patterns.len(),
        first_match(patterns, scrutinee) < patterns.len() ==> admits(
            patterns[first_match(patterns, scrutinee)],
            scrutinee,
        ),
        forall|j: int|
            0 <= j < first_match(patterns, scrutinee) ==> !admits(#[trigger] patterns[j], scrutinee),
    decreases patterns.len(),
{
    if patterns.len() > 0 && !admits(patterns.first(), scrutinee) {
        let rest = patterns.drop_first();
        lemma_first_match_bounds(rest, scrutinee);
        assert forall|j: int| 0 <= j < first_match(patterns, scrutinee) implies !admits(
            #[trigger] patterns[j],
            scrutinee,
        ) by {
            if j > 0 {
                assert(patterns[j] == rest[j - 1]);
            }
        }
    }
}

/// In well-formed patterns the default is the last one and the only one.
pub proof fn lemma_default_is_last<V>(patterns: Seq<Pattern<V>>)
    requires
        well_formed(patterns),
    ensures
        patterns.len() > 0,
        patterns.last() is Wildcard,
        forall|j: int| 0 <= j < patterns.len() - 1 ==> #[trigger] patterns[j] is Concrete,
{
    let is_default = |pattern: Pattern<V>| pattern is Wildcard;
    reveal(Seq::filter);
    // The last pattern is the one default, so none of the earlier ones is.
    let earlier = patterns.drop_last();
    assert(earlier.filter(is_default).len() == 0);
    assert forall|j: int| 0 <= j < patterns.len() - 1 implies #[trigger] patterns[j] is Concrete by {
        if patterns[j] is Wildcard {
            assert(earlier[j] == patterns[j]);
            earlier.lemma_filter_contains(is_default, j);
        }
    }
}

/// Dispatch law. In a well-formed table exactly one case is selected for
/// every scrutinee. It is the first case, in declaration order, whose
/// concrete pattern equals the scrutinee; when no concrete pattern equals
/// it, it is the default case.
pub proof fn lemma_dispatch<V>(patterns: Seq<Pattern<V>>, scrutinee: V)
    requires
        well_formed(patterns),
    ensures
        0 <= first_match(patterns, scrutinee) < patterns.len(),
        admits(patterns[first_match(patterns, scrutinee)], scrutinee),
        forall|j: int|
            0 <= j < first_match(patterns, scrutinee) ==> !admits(#[trigger] patterns[j], scrutinee),
        (forall|j: int| 0 <= j < patterns.len() ==> #[trigger] patterns[j] != Pattern::Concrete(scrutinee))
            <==> first_match(patterns, scrutinee) == patterns.len() - 1,
{
    lemma_default_is_last(patterns);
    lemma_first_match_bounds(patterns, scrutinee);
    let chosen = first_match(patterns, scrutinee);
    if chosen >= patterns.len() - 1 {
        // Nothing before the default matched, and the default itself does.
        assert(admits(patterns.last(), scrutinee));
        assert forall|j: int| 0 <= j < patterns.len() implies #[trigger] patterns[j]
            != Pattern::Concrete(scrutinee) by {
            if j < chosen {
                assert(!admits(patterns[j], scrutinee));
            }
        }
    } else {
        // A case before the default was taken: its pattern is the scrutinee.
        assert(patterns[chosen] == Pattern::Concrete(scrutinee));
    }
}

/// A branch table without a default is malformed, whatever else it holds.
pub proof fn lemma_missing_default_rejected<V>(patterns: Seq<Pattern<V>>)
    requires
        forall|j: int| 0 <= j < patterns.len() ==> #[trigger] patterns[j] is Concrete,
    ensures
        shape_fault(patterns) == Some(ShapeError::MissingDefault),
    decreases patterns.len(),
{
    reveal(Seq::filter);
    if patterns.len() > 0 {
        lemma_missing_default_rejected(patterns.drop_last());
    }
}

/// An ordered list of cases with exactly one default case, the last one.
/// Only `BranchTable::new` makes one, and it rejects every other shape.
#[derive(Debug)]
pub struct BranchTable<V, B> {
    cases: Vec<Case<V, B>>,
}

impl<V, B> View for BranchTable<V, B> {
    type V = Seq<Case<V, B>>;

    /// The cases, in declaration order.
    closed spec fn view(&self) -> Seq<Case<V, B>> {
        self.cases@
    }
}

impl<V, B> BranchTable<V, B> {
    #[verifier::type_invariant]
    spec fn shape_checked(self) -> bool {
        well_formed(patterns_of(self.cases@))
    }

    /// Makes a branch table of `cases`, or says what is wrong with their
    /// shape: no default, more than one, or a default that is not last.
    pub fn new(cases: Vec<Case<V, B>>) -> (made: Result<Self, ShapeError>)
        ensures
            match shape_fault(patterns_of(cases@)) {
                Some(fault) => made == Err::<Self, _>(fault),
                None => made is Ok && made->Ok_0@ == cases@,
            },
    {
        let ghost patterns = patterns_of(cases@);
        let ghost is_default = |pattern: Pattern<V>| pattern is Wildcard;
        let mut count: usize = 0;
        let mut i: usize = 0;
        while i < cases.len()
            invariant
                patterns == patterns_of(cases@),
                is_default == (|pattern: Pattern<V>| pattern is Wildcard),
                i <= cases@.len(),
                count <= i,
                count == patterns.take(i as int).filter(is_default).len(),
            decreases cases@.len() - i,
        {
            proof {
                patterns.take(i as int).lemma_filter_push(patterns[i as int], is_default);
                assert(patterns.take(i + 1) == patterns.take(i as int).push(patterns[i as int]));
            }
            match cases[i].pattern {
                Pattern::Wildcard => {
                    count = count + 1;
                },
                Pattern::Concrete(_) => {},
            }
            i += 1;
        }
        proof {
            assert(patterns.take(i as int) == patterns);
        }
        if count == 0 {
            return Err(ShapeError::MissingDefault);
        }
        if count > 1 {
            return Err(ShapeError::DuplicateDefault);
        }
        match cases[cases.len() - 1].pattern {
            Pattern::Wildcard => Ok(BranchTable { cases }),
            Pattern::Concrete(_) => Err(ShapeError::DefaultNotLast),
        }
    }

    /// How many cases the table has, the default included.
    pub fn len(&self) -> (count: usize)
        ensures
            count == self@.len(),
            count > 0,
    {
        proof {
            use_type_invariant(self);
            lemma_default_is_last(patterns_of(self@));
        }
        self.cases.len()
    }
}

impl<V: PartialEq, B> BranchTable<V, B> {
    /// The place of the case that a switch on `scrutinee` takes: the first
    /// case whose pattern equals `scrutinee`, or the default case when no
    /// other matches.
    pub fn select_index(&self, scrutinee: &V) -> (index: usize)
        requires
            vstd::laws_eq::obeys_concrete_eq::<V>(),
        ensures
            index == first_match(patterns_of(self@), *scrutinee),
            index < self@.len(),
            well_formed(patterns_of(self@)),
    {
        let ghost patterns = patterns_of(self@);
        proof {
            use_type_invariant(self);
            lemma_dispatch(patterns, *scrutinee);
            reveal(vstd::laws_eq::obeys_concrete_eq);
        }
        let mut i: usize = 0;
        while i < self.cases.len()
            invariant
                patterns == patterns_of(self@),
                well_formed(patterns),
                vstd::laws_eq::obeys_concrete_eq::<V>(),
                i <= first_match(patterns, *scrutinee) < self@.len(),
                forall|j: int| 0 <= j < i ==> !admits(#[trigger] patterns[j], *scrutinee),
            decreases self@.len() - i,
        {
            let hit = match &self.cases[i].pattern {
                Pattern::Wildcard => true,
                Pattern::Concrete(value) => {
                    proof {
                        reveal(vstd::laws_eq::obeys_concrete_eq);
                    }
                    *value == *scrutinee
                },
            };
            if hit {
                proof {
                    lemma_first_match_is(patterns, *scrutinee, i as int);
                }
                return i;
            }
            proof {
                lemma_first_match_bounds(patterns, *scrutinee);
            }
            i += 1;
        }
        proof {
            lemma_first_match_bounds(patterns, *scrutinee);
        }
        i
    }

    /// The body of the case that a switch on `scrutinee` takes.
    pub fn select(&self, scrutinee: &V) -> (body: &B)
        requires
            vstd::laws_eq::obeys_concrete_eq::<V>(),
        ensures
            0 <= first_match(patterns_of(self@), *scrutinee) < self@.len(),
            *body == self@[first_match(patterns_of(self@), *scrutinee)].body,
    {
        let index = self.select_index(scrutinee);
        &self.cases[index].body
    }
}

impl<V: PartialEq, R, B: FnOnce() -> R> BranchTable<V, B> {
    /// Switches on `scrutinee`: runs the body of the one case that is
    /// selected and yields what it produced. No other body is run, so only
    /// the selected one has to be callable.
    pub fn dispatch(self, scrutinee: &V) -> (produced: R)
        requires
            vstd::laws_eq::obeys_concrete_eq::<V>(),
            0 <= first_match(patterns_of(self@), *scrutinee) < self@.len() ==> self@[first_match(
                patterns_of(self@),
                *scrutinee,
            )].body.requires(()),
        ensures
            0 <= first_match(patterns_of(self@), *scrutinee) < self@.len(),
            self@[first_match(patterns_of(self@), *scrutinee)].body.ensures((), produced),
    {
        let index = self.select_index(scrutinee);
        let mut cases = self.cases;
        let case = cases.swap_remove(index);
        let body = case.body;
        body()
    }
}

/// A whole switch in one call. The shape of `cases` is checked first, and a
/// malformed table is rejected before anything is evaluated. Otherwise the
/// scrutinee is evaluated, once, the one case it selects is found, and the
/// body of that case is run and its product handed back.
pub fn switch<V: PartialEq, R, S: FnOnce() -> V, B: FnOnce() -> R>(scrutinee: S, cases: Vec<Case<V, B>>) -> (
    produced: Result<R, ShapeError>)
    requires
        vstd::laws_eq::obeys_concrete_eq::<V>(),
        well_formed(patterns_of(cases@)) ==> scrutinee.requires(()),
        forall|value: V|
            well_formed(patterns_of(cases@)) && #[trigger] scrutinee.ensures((), value) ==> cases@[first_match(
                patterns_of(cases@),
                value,
            )].body.requires(()),
    ensures
        match shape_fault(patterns_of(cases@)) {
            Some(fault) => produced == Err::<R, _>(fault),
            None => produced is Ok && exists|value: V|
                {
                    &&& #[trigger] scrutinee.ensures((), value)
                    &&& 0 <= first_match(patterns_of(cases@), value) < cases@.len()
                    &&& cases@[first_match(patterns_of(cases@), value)].body.ensures(
                        (),
                        produced->Ok_0,
                    )
                },
        },
{
    match BranchTable::new(cases) {
        Err(fault) => Err(fault),
        Ok(table) => {
            let value = scrutinee();
            let product = table.dispatch(&value);
            Ok(product)
        },
    }
}

} // verus!
