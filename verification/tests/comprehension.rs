use candied::comprehension::{collect, collect_if, collect_map, collect_map_if, range, range_inclusive};
use candied::product::{collect_product, collect_product_if};
use candied::shape::ShapeError;

#[test]
fn multiples_of_six_up_to_ten() {
    let picked = collect_if(&range_inclusive(0, 10), |x: &i64| x % 2 == 0 && x % 3 == 0);
    assert_eq!(picked, vec![0, 6]);
}

#[test]
fn multiples_of_six_below_eleven() {
    let picked = collect_if(&range(0, 11), |x: &i64| x % 2 == 0 && x % 3 == 0);
    assert_eq!(picked, vec![0, 6]);
}

#[test]
fn whole_range_in_order() {
    let all = collect(&range_inclusive(0, 100));
    assert_eq!(all.len(), 101);
    for (place, value) in all.iter().enumerate() {
        assert_eq!(*value, place as i64);
    }
    let below = collect(&range(0, 100));
    assert_eq!(below.len(), 100);
    assert_eq!(below.first(), Some(&0));
    assert_eq!(below.last(), Some(&99));
}

#[test]
fn doubled_multiples_of_three() {
    let doubled = collect_map_if(&range(0, 10), |x: &i64| x % 3 == 0, |x: &i64| x * 2);
    assert_eq!(doubled, vec![0, 6, 12, 18]);
}

#[test]
fn transform_without_predicate_keeps_every_element() {
    let squares = collect_map(&range_inclusive(1, 5), |x: &i64| x * x);
    assert_eq!(squares, vec![1, 4, 9, 16, 25]);
}

#[test]
fn transform_may_change_the_element_type() {
    let words = collect_map_if(&vec![1u8, 2, 3, 4], |x: &u8| *x != 3, |x: &u8| format!("#{}", x));
    assert_eq!(words, vec!["#1", "#2", "#4"]);
}

#[test]
fn output_equals_filter_then_map() {
    let source = range(-20, 40);
    let ours = collect_map_if(&source, |x: &i64| x.rem_euclid(7) == 3, |x: &i64| 100 - x);
    let theirs: Vec<i64> = source.iter().filter(|x| x.rem_euclid(7) == 3).map(|x| 100 - x).collect();
    assert_eq!(ours, theirs);
}

#[test]
fn empty_range_gives_empty_output() {
    assert_eq!(collect(&range(5, 5)), Vec::<i64>::new());
    assert_eq!(collect_if(&range(5, 5), |_x: &i64| true), Vec::<i64>::new());
    assert_eq!(collect_map(&range(5, 5), |x: &i64| x + 1), Vec::<i64>::new());
    assert_eq!(collect_map_if(&Vec::<i64>::new(), |_x: &i64| true, |x: &i64| x + 1), Vec::<i64>::new());
}

#[test]
fn predicate_that_rejects_everything_gives_empty_output() {
    assert_eq!(collect_if(&range(0, 10), |_x: &i64| false), Vec::<i64>::new());
}

#[test]
fn descending_range_keeps_its_direction() {
    let down: Vec<i64> = vec![5, 4, 3, 2, 1, 0];
    assert_eq!(collect_if(&down, |x: &i64| x % 2 == 1), vec![5, 3, 1]);
    assert_eq!(collect_map(&down, |x: &i64| x * 10), vec![50, 40, 30, 20, 10, 0]);
}

#[test]
fn range_bounds() {
    assert_eq!(range(3, 7), vec![3, 4, 5, 6]);
    assert_eq!(range_inclusive(3, 7), vec![3, 4, 5, 6, 7]);
    assert_eq!(range(-2, 2), vec![-2, -1, 0, 1]);
    assert_eq!(range_inclusive(-5, -1), vec![-5, -4, -3, -2, -1]);
    assert_eq!(range(4, 4), Vec::<i64>::new());
    assert_eq!(range_inclusive(4, 4), vec![4]);
    assert_eq!(range(7, 3), Vec::<i64>::new());
    assert_eq!(range_inclusive(7, 3), Vec::<i64>::new());
    assert_eq!(range_inclusive(5, 4), Vec::<i64>::new());
}

#[test]
fn range_at_the_edges_of_the_integer_type() {
    assert_eq!(range_inclusive(i64::MAX - 2, i64::MAX), vec![i64::MAX - 2, i64::MAX - 1, i64::MAX]);
    assert_eq!(range(i64::MAX - 1, i64::MAX), vec![i64::MAX - 1]);
    assert_eq!(range_inclusive(i64::MIN, i64::MIN + 1), vec![i64::MIN, i64::MIN + 1]);
    assert_eq!(range(i64::MAX, i64::MIN), Vec::<i64>::new());
}

#[test]
fn two_ranges_first_varies_slowest() {
    let ranges = vec![vec![1, 2, 3], vec![10, 20]];
    let pairs = collect_product(&ranges, |b: &Vec<i32>| (b[0], b[1])).unwrap();
    assert_eq!(pairs, vec![(1, 10), (1, 20), (2, 10), (2, 20), (3, 10), (3, 20)]);
}

#[test]
fn three_ranges_walk_like_nested_loops() {
    let ranges = vec![vec![0, 1], vec![0, 1, 2], vec![0, 1]];
    let ours = collect_product(&ranges, |b: &Vec<u32>| b[0] * 100 + b[1] * 10 + b[2]).unwrap();
    let mut theirs = Vec::new();
    for x in 0..2u32 {
        for y in 0..3u32 {
            for z in 0..2u32 {
                theirs.push(x * 100 + y * 10 + z);
            }
        }
    }
    assert_eq!(ours, theirs);
    assert_eq!(ours.len(), 12);
}

#[test]
fn two_ranges_with_predicate_and_transform() {
    let ranges = vec![range_inclusive(0, 10), range_inclusive(0, 15)];
    let ours = collect_product_if(
        &ranges,
        |b: &Vec<i64>| b[0] % 2 == 0 && b[1] % 3 == 0,
        |b: &Vec<i64>| (b[0] * 2, b[1]),
    )
    .unwrap();
    let mut theirs = Vec::new();
    for x in 0..=10i64 {
        for y in 0..=15i64 {
            if x % 2 == 0 && y % 3 == 0 {
                theirs.push((x * 2, y));
            }
        }
    }
    assert_eq!(ours.len(), 36);
    assert_eq!(ours[0], (0, 0));
    assert_eq!(ours[1], (0, 3));
    assert_eq!(ours[6], (4, 0));
    assert_eq!(ours[35], (20, 15));
    assert_eq!(ours, theirs);
}

#[test]
fn three_ranges_count_of_satisfying_combinations() {
    let ranges = vec![range_inclusive(0, 10), range_inclusive(10, 100), range_inclusive(-5, -1)];
    let ours = collect_product_if(
        &ranges,
        |b: &Vec<i64>| b[0] % 2 == 0 && b[1] % 7 == 0 || b[2].abs() > 3,
        |b: &Vec<i64>| (b[0] * 3, b[1] / 2, b[2] + 1),
    )
    .unwrap();
    let mut theirs = Vec::new();
    for x in 0..=10i64 {
        for y in 10..=100i64 {
            for z in -5..=-1i64 {
                if x % 2 == 0 && y % 7 == 0 || z.abs() > 3 {
                    theirs.push((x * 3, y / 2, z + 1));
                }
            }
        }
    }
    assert_eq!(ours.len(), theirs.len());
    assert_eq!(ours, theirs);
}

#[test]
fn single_range_product_is_the_plain_comprehension() {
    let ranges = vec![range(0, 10)];
    let ours = collect_product_if(&ranges, |b: &Vec<i64>| b[0] % 3 == 0, |b: &Vec<i64>| b[0] * 2).unwrap();
    assert_eq!(ours, vec![0, 6, 12, 18]);
}

#[test]
fn any_empty_range_gives_no_combination() {
    let first_empty = vec![vec![], vec![1, 2]];
    let last_empty = vec![vec![1, 2], vec![]];
    let middle_empty = vec![vec![1, 2], vec![], vec![3]];
    assert_eq!(collect_product(&first_empty, |b: &Vec<i32>| b.len()), Ok(vec![]));
    assert_eq!(collect_product(&last_empty, |b: &Vec<i32>| b.len()), Ok(vec![]));
    assert_eq!(collect_product(&middle_empty, |b: &Vec<i32>| b.len()), Ok(vec![]));
    assert_eq!(
        collect_product_if(&last_empty, |_b: &Vec<i32>| true, |b: &Vec<i32>| b.len()),
        Ok(vec![])
    );
}

#[test]
fn comprehension_without_a_range_is_rejected() {
    let none: Vec<Vec<i32>> = Vec::new();
    assert_eq!(collect_product(&none, |b: &Vec<i32>| b.len()), Err(ShapeError::MissingRange));
    assert_eq!(
        collect_product_if(&none, |_b: &Vec<i32>| true, |b: &Vec<i32>| b.len()),
        Err(ShapeError::MissingRange)
    );
}

#[test]
fn predicate_and_transform_are_not_called_without_a_range() {
    let none: Vec<Vec<i32>> = Vec::new();
    let outcome = collect_product_if(&none, |_b: &Vec<i32>| unreachable!(), |_b: &Vec<i32>| 0);
    assert_eq!(outcome, Err(ShapeError::MissingRange));
}

#[test]
fn transform_runs_only_for_kept_elements() {
    let halves = collect_map_if(&vec![4, 0, 10, 0, 2], |x: &i32| *x != 0, |x: &i32| 20 / x);
    assert_eq!(halves, vec![5, 2, 10]);
}
