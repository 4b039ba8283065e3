//! Deferred cleanup: actions registered while a scope runs are carried out
//! when the scope ends, the most recently registered first, each exactly once,
//! whichever way the scope was left.

use vstd::prelude::*;

verus! {

/// The pending actions of one scope, in the order in which they were
/// registered.
///
/// A registry belongs to one scope. It is drained by value, so what has been
/// drained cannot be drained again.
#[derive(Debug)]
pub struct Registry<A> {
    pending: Vec<A>,
}

impl<A> View for Registry<A> {
    type V = Seq<A>;

    /// The pending actions, oldest registration first.
    closed spec fn view(&self) -> Seq<A> {
        self.pending@
    }
}

/// The order in which pending actions are carried out: last registered,
/// first run.
pub open spec fn drain_order<A>(registered: Seq<A>) -> Seq<A> {
    registered.reverse()
}

/// What is pending after each of `actions` has been registered in turn on top
/// of `registered`.
pub open spec fn after_registering<A>(registered: Seq<A>, actions: Seq<A>) -> Seq<A>
    decreases actions.len(),
{
    if actions.len() == 0 {
        registered
    } else {
        after_registering(registered, actions.drop_last()).push(actions.last())
    }
}

/// Every one of `actions` may be called.
pub open spec fn all_callable<O, A: FnOnce() -> O>(actions: Seq<A>) -> bool {
    forall|i: int| 0 <= i < actions.len() ==> (#[trigger] actions[i]).requires(())
}

/// `outcomes` holds what the actions produced when they were run in drain
/// order: the first outcome is that of the last action registered.
pub open spec fn ran_in_drain_order<O, A: FnOnce() -> O>(registered: Seq<A>, outcomes: Seq<O>) -> bool {
    &&& outcomes.len() == registered.len()
    &&& forall|i: int|
        0 <= i < registered.len() ==> drain_order(registered)[i].ensures((), #[trigger] outcomes[i])
}

impl<A> Registry<A> {
    /// A registry with nothing pending.
    pub fn new() -> (registry: Self)
        ensures
            registry@ == Seq::<A>::empty(),
    {
        Registry { pending: Vec::new() }
    }

    /// Registers `action` to be carried out when the scope ends. It will run
    /// before everything registered earlier.
    pub fn register(&mut self, action: A)
        ensures
            final(self)@ == old(self)@.push(action),
    {
        self.pending.push(action);
    }

    /// How many actions are pending.
    pub fn len(&self) -> (count: usize)
        ensures
            count == self@.len(),
    {
        self.pending.len()
    }

    /// Whether nothing is pending.
    pub fn is_empty(&self) -> (empty: bool)
        ensures
            empty == (self@.len() == 0),
    {
        self.pending.len() == 0
    }

    /// Takes out the action that is next to run, the most recently registered
    /// one, or `None` when nothing is pending.
    pub fn take_next(&mut self) -> (next: Option<A>)
        ensures
            old(self)@.len() == 0 ==> next is None && final(self)@ == old(self)@,
            old(self)@.len() > 0 ==> next == Some(old(self)@.last()) && final(self)@ == old(
                self,
            )@.drop_last(),
    {
        self.pending.pop()
    }

    /// Ends the scope: hands out every pending action in the order in which
    /// it has to run.
    pub fn drain(self) -> (order: Vec<A>)
        ensures
            order@ == drain_order(self@),
    {
        let mut pending = self.pending;
        let ghost registered = pending@;
        let mut order: Vec<A> = Vec::new();
        while pending.len() > 0
            invariant
                pending@.len() + order@.len() == registered.len(),
                pending@ == registered.take(pending@.len() as int),
                forall|i: int|
                    0 <= i < order@.len() ==> #[trigger] order@[i] == registered[registered.len() - 1
                        - i],
            decreases pending@.len(),
        {
            let next = pending.pop();
            match next {
                Some(action) => {
                    order.push(action);
                },
                None => {},
            }
        }
        order
    }
}

impl<O, A: FnOnce() -> O> Registry<A> {
    /// Ends the scope: runs every pending action, last registered first, and
    /// returns what each produced, in the order in which they ran.
    ///
    /// Every action is run, whatever the ones before it produced.
    pub fn run(self) -> (outcomes: Vec<O>)
        requires
            all_callable(self@),
        ensures
            ran_in_drain_order(self@, outcomes@),
    {
        let mut pending = self.pending;
        let ghost registered = pending@;
        let mut outcomes: Vec<O> = Vec::new();
        while pending.len() > 0
            invariant
                forall|i: int| 0 <= i < registered.len() ==> (#[trigger] registered[i]).requires(()),
                pending@.len() + outcomes@.len() == registered.len(),
                pending@ == registered.take(pending@.len() as int),
                forall|i: int|
                    0 <= i < outcomes@.len() ==> registered[registered.len() - 1 - i].ensures(
                        (),
                        #[trigger] outcomes@[i],
                    ),
            decreases pending@.len(),
        {
            let next = pending.pop();
            match next {
                Some(action) => {
                    let outcome = action();
                    outcomes.push(outcome);
                },
                None => {},
            }
        }
        outcomes
    }
}

/// Runs `body` as a scope of its own. `body` is handed the scope's registry,
/// empty, and may register actions on it. When `body` returns, however early,
/// every action it registered is run, last registered first, before `scoped`
/// itself returns. The result is what `body` returned together with what the
/// actions produced, in the order in which they ran.
pub fn scoped<O, R, A: FnOnce() -> O, B: FnOnce(&mut Registry<A>) -> R>(body: B) -> (done: (R, Vec<O>))
    requires
        forall|scope: &mut Registry<A>| scope@.len() == 0 ==> #[trigger] body.requires((scope,)),
        forall|scope: &mut Registry<A>, value: R|
            scope@.len() == 0 && #[trigger] body.ensures((scope,), value) ==> all_callable(
                final(scope)@,
            ),
    ensures
        exists|scope: &mut Registry<A>|
            {
                &&& scope@.len() == 0
                &&& #[trigger] body.ensures((scope,), done.0)
                &&& ran_in_drain_order(final(scope)@, done.1@)
            },
{
    let mut registry: Registry<A> = Registry::new();
    let value = body(&mut registry);
    let outcomes = registry.run();
    let ghost scope = choose|scope: &mut Registry<A>|
        {
            &&& scope@.len() == 0
            &&& #[trigger] body.ensures((scope,), value)
            &&& ran_in_drain_order(final(scope)@, outcomes@)
        };
    let done = (value, outcomes);
    assert(body.ensures((scope,), done.0));
    done
}

/// Last in, first out: after any sequence of registrations into a fresh
/// scope, the drain order is the registration order reversed, so the action
/// that runs at place `i` is the one registered at place `len - 1 - i`, and
/// every registered action occurs in the drain order exactly as often as it
/// was registered.
pub proof fn lemma_drain_reverses_registration<A>(actions: Seq<A>)
    ensures
        after_registering(Seq::empty(), actions) == actions,
        drain_order(after_registering(Seq::empty(), actions)) == actions.reverse(),
        drain_order(actions).len() == actions.len(),
        forall|i: int|
            0 <= i < actions.len() ==> #[trigger] drain_order(actions)[i] == actions[actions.len() - 1
                - i],
        drain_order(actions).to_multiset() == actions.to_multiset(),
{
    lemma_registering_appends(Seq::empty(), actions);
    actions.lemma_reverse_to_multiset();
}

/// Early exit: a scope that is left when only the first `done` of `actions`
/// have been registered drains exactly those, the last of them first. The
/// actions it never reached are not run.
pub proof fn lemma_early_exit_drains_what_was_registered<A>(actions: Seq<A>, done: int)
    requires
        0 <= done <= actions.len(),
    ensures
        drain_order(after_registering(Seq::empty(), actions.take(done))).len() == done,
        forall|i: int|
            0 <= i < done ==> #[trigger] drain_order(
                after_registering(Seq::empty(), actions.take(done)),
            )[i] == actions[done - 1 - i],
{
    lemma_drain_reverses_registration(actions.take(done));
}

/// Registering appends: what was pending stays in place, and the new
/// actions follow in the order in which they were registered.
pub proof fn lemma_registering_appends<A>(registered: Seq<A>, actions: Seq<A>)
    ensures
        after_registering(registered, actions) == registered + actions,
    decreases actions.len(),
{
    if actions.len() > 0 {
        lemma_registering_appends(registered, actions.drop_last());
    }
}

} // verus!
