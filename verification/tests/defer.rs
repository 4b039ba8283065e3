use candied::defer::{scoped, Registry};
use std::cell::RefCell;
use std::rc::Rc;

type Action = Box<dyn FnOnce() -> u32>;

fn logging(log: &Rc<RefCell<Vec<u32>>>, id: u32) -> Action {
    let log = Rc::clone(log);
    Box::new(move || {
        log.borrow_mut().push(id);
        id
    })
}

#[test]
fn drain_order_is_reverse_of_registration() {
    let mut registry = Registry::new();
    for id in 1..=5u32 {
        registry.register(id);
    }
    assert_eq!(registry.drain(), vec![5, 4, 3, 2, 1]);
}

#[test]
fn drain_of_nothing_is_empty() {
    let registry: Registry<u32> = Registry::new();
    assert!(registry.is_empty());
    assert_eq!(registry.len(), 0);
    assert_eq!(registry.drain(), Vec::<u32>::new());
}

#[test]
fn drain_of_one_action_is_that_action() {
    let mut registry = Registry::new();
    registry.register("only");
    assert_eq!(registry.len(), 1);
    assert!(!registry.is_empty());
    assert_eq!(registry.drain(), vec!["only"]);
}

#[test]
fn an_action_registered_twice_runs_twice() {
    let mut registry = Registry::new();
    registry.register(7);
    registry.register(8);
    registry.register(7);
    assert_eq!(registry.drain(), vec![7, 8, 7]);
}

#[test]
fn take_next_hands_out_most_recent_first() {
    let mut registry = Registry::new();
    registry.register('a');
    registry.register('b');
    registry.register('c');
    assert_eq!(registry.take_next(), Some('c'));
    assert_eq!(registry.len(), 2);
    assert_eq!(registry.take_next(), Some('b'));
    registry.register('d');
    assert_eq!(registry.take_next(), Some('d'));
    assert_eq!(registry.take_next(), Some('a'));
    assert_eq!(registry.take_next(), None);
    assert_eq!(registry.take_next(), None);
    assert!(registry.is_empty());
}

#[test]
fn run_calls_every_action_once_in_reverse() {
    let log = Rc::new(RefCell::new(Vec::new()));
    let mut registry: Registry<Action> = Registry::new();
    registry.register(logging(&log, 1));
    registry.register(logging(&log, 2));
    registry.register(logging(&log, 3));
    assert!(log.borrow().is_empty());
    let outcomes = registry.run();
    assert_eq!(outcomes, vec![3, 2, 1]);
    assert_eq!(*log.borrow(), vec![3, 2, 1]);
}

#[test]
fn run_of_nothing_calls_nothing() {
    let registry: Registry<Action> = Registry::new();
    assert_eq!(registry.run(), Vec::<u32>::new());
}

#[test]
fn run_goes_on_after_an_action_that_failed() {
    let mut registry: Registry<Box<dyn FnOnce() -> Result<u32, String>>> = Registry::new();
    registry.register(Box::new(|| Ok(1)));
    registry.register(Box::new(|| Err(String::from("second failed"))));
    registry.register(Box::new(|| Ok(3)));
    let outcomes = registry.run();
    assert_eq!(outcomes, vec![Ok(3), Err(String::from("second failed")), Ok(1)]);
}

#[test]
fn scope_that_runs_to_its_end_drains_in_reverse() {
    let log = Rc::new(RefCell::new(Vec::new()));
    let (value, outcomes) = scoped(|scope: &mut Registry<Action>| {
        scope.register(logging(&log, 1));
        scope.register(logging(&log, 2));
        scope.register(logging(&log, 3));
        log.borrow_mut().push(100);
        "end"
    });
    assert_eq!(value, "end");
    assert_eq!(outcomes, vec![3, 2, 1]);
    assert_eq!(*log.borrow(), vec![100, 3, 2, 1]);
}

#[test]
fn scope_left_early_still_drains_in_reverse() {
    let log = Rc::new(RefCell::new(Vec::new()));
    let leave_early = true;
    let (value, outcomes) = scoped(|scope: &mut Registry<Action>| {
        scope.register(logging(&log, 1));
        scope.register(logging(&log, 2));
        if leave_early {
            log.borrow_mut().push(100);
            return "early";
        }
        scope.register(logging(&log, 3));
        log.borrow_mut().push(200);
        "end"
    });
    log.borrow_mut().push(300);
    assert_eq!(value, "early");
    assert_eq!(outcomes, vec![2, 1]);
    assert_eq!(*log.borrow(), vec![100, 2, 1, 300]);
}

#[test]
fn scope_left_before_any_registration_runs_nothing() {
    let (value, outcomes) = scoped(|_scope: &mut Registry<Action>| 9);
    assert_eq!(value, 9);
    assert_eq!(outcomes, Vec::<u32>::new());
}

#[test]
fn nested_scopes_drain_innermost_first() {
    let log = Rc::new(RefCell::new(Vec::new()));
    let (inner_outcomes, outer_outcomes) = scoped(|outer: &mut Registry<Action>| {
        outer.register(logging(&log, 1));
        let (_, inner_outcomes) = scoped(|inner: &mut Registry<Action>| {
            inner.register(logging(&log, 10));
            inner.register(logging(&log, 20));
        });
        outer.register(logging(&log, 2));
        inner_outcomes
    });
    assert_eq!(inner_outcomes, vec![20, 10]);
    assert_eq!(outer_outcomes, vec![2, 1]);
    assert_eq!(*log.borrow(), vec![20, 10, 2, 1]);
}

#[test]
fn scope_actions_see_what_the_body_left_behind() {
    let total = Rc::new(RefCell::new(0i32));
    let seen = Rc::clone(&total);
    let ((), outcomes) = scoped(|scope: &mut Registry<Box<dyn FnOnce() -> i32>>| {
        scope.register(Box::new(move || *seen.borrow()));
        *total.borrow_mut() = -172312;
        let magnitude = total.borrow().abs();
        *total.borrow_mut() = magnitude;
    });
    assert_eq!(outcomes, vec![172312]);
}

#[test]
fn scope_left_by_a_propagated_error_still_drains() {
    fn parse(text: &str) -> Result<i32, std::num::ParseIntError> {
        text.parse::<i32>()
    }
    let log = Rc::new(RefCell::new(Vec::new()));
    let (value, outcomes) = scoped(|scope: &mut Registry<Action>| {
        scope.register(logging(&log, 1));
        let first = parse("12")?;
        scope.register(logging(&log, 2));
        let second = parse("twelve")?;
        scope.register(logging(&log, 3));
        Ok::<i32, std::num::ParseIntError>(first + second)
    });
    assert!(value.is_err());
    assert_eq!(outcomes, vec![2, 1]);
    assert_eq!(*log.borrow(), vec![2, 1]);
}

#[test]
fn registrations_after_a_partial_drain_run_first() {
    let mut registry = Registry::new();
    registry.register(1);
    registry.register(2);
    assert_eq!(registry.take_next(), Some(2));
    registry.register(3);
    registry.register(4);
    assert_eq!(registry.drain(), vec![4, 3, 1]);
}
