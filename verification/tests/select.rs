use candied::select::{or_default, select_if};

#[test]
fn false_condition_runs_only_the_second_branch() {
    let mut ran_first = 0;
    let mut ran_second = 0;
    let chosen = select_if(
        false,
        || {
            ran_first += 1;
            1
        },
        || {
            ran_second += 1;
            2
        },
    );
    assert_eq!(chosen, 2);
    assert_eq!(ran_first, 0);
    assert_eq!(ran_second, 1);
}

#[test]
fn true_condition_runs_only_the_first_branch() {
    let mut ran_first = 0;
    let mut ran_second = 0;
    let chosen = select_if(
        true,
        || {
            ran_first += 1;
            1
        },
        || {
            ran_second += 1;
            2
        },
    );
    assert_eq!(chosen, 1);
    assert_eq!(ran_first, 1);
    assert_eq!(ran_second, 0);
}

#[test]
fn select_if_on_a_comparison() {
    let d = 0;
    let said = select_if(d == 0, || "D = ZERO", || "D != ZERO");
    assert_eq!(said, "D = ZERO");
    let d = 3;
    let said = select_if(d == 0, || "D = ZERO", || "D != ZERO");
    assert_eq!(said, "D != ZERO");
}

#[test]
fn select_if_never_touches_the_branch_not_taken() {
    let chosen: u32 = select_if(true, || 5, || unreachable!());
    assert_eq!(chosen, 5);
}

#[test]
fn or_default_of_none_is_the_default() {
    let n: Option<i32> = None;
    assert_eq!(or_default(n, 12), 12);
}

#[test]
fn or_default_of_some_is_the_value() {
    assert_eq!(or_default(Some(5), 12), 5);
    assert_eq!(or_default(Some(12), 12), 12);
    assert_eq!(or_default(Some(String::from("set")), String::from("unset")), "set");
}
