use rust_radix_sort::{generate_vector, radix_sort};

#[test]
fn empty_input() {
    let v: Vec<i32> = vec![];
    assert_eq!(radix_sort(&v), Vec::<i32>::new());
}

#[test]
fn single_element() {
    let v = vec![2];
    assert_eq!(radix_sort(&v), vec![2]);
}

#[test]
fn small_positive() {
    let v = vec![2, 3, 1, 5, 4];
    assert_eq!(radix_sort(&v), vec![1, 2, 3, 4, 5]);
}

#[test]
fn mixed_signs() {
    let v = vec![-10, 8, 0, -11];
    assert_eq!(radix_sort(&v), vec![-11, -10, 0, 8]);
}

#[test]
fn extreme_values_order() {
    // i32::MIN must come first and i32::MAX last.
    let v = vec![5, i32::MAX, -3, i32::MIN, 0];
    let r = radix_sort(&v);
    assert_eq!(r, vec![i32::MIN, -3, 0, 5, i32::MAX]);
    assert_eq!(r[0], i32::MIN);
    assert_eq!(r[r.len() - 1], i32::MAX);
}

#[test]
fn repeated_extremes() {
    let v = vec![i32::MIN, 7, i32::MIN, i32::MAX, i32::MAX, i32::MIN];
    let r = radix_sort(&v);
    assert_eq!(r, vec![i32::MIN, i32::MIN, i32::MIN, 7, i32::MAX, i32::MAX]);
}

#[test]
fn all_equal() {
    let v = vec![42; 17];
    assert_eq!(radix_sort(&v), vec![42; 17]);
}

#[test]
fn reverse_order() {
    let v = vec![9, 7, 5, 3, 1, -1, -3, -5];
    assert_eq!(radix_sort(&v), vec![-5, -3, -1, 1, 3, 5, 7, 9]);
}

#[test]
fn idempotent() {
    let v = vec![13, -7, 13, 0, -200, 55, -7];
    let once = radix_sort(&v);
    let twice = radix_sort(&once);
    assert_eq!(twice, once);
}

#[test]
fn input_is_not_changed() {
    let v = vec![3, 1, 2];
    let _ = radix_sort(&v);
    assert_eq!(v, vec![3, 1, 2]);
}

#[test]
fn agreement_with_comparison_sort() {
    let v = generate_vector(2);
    assert_eq!(v.len(), 100);
    let mut expected = v.clone();
    expected.sort();
    assert_eq!(radix_sort(&v), expected);
}

#[test]
fn generated_lengths() {
    assert_eq!(generate_vector(0).len(), 0);
    assert_eq!(generate_vector(1).len(), 10);
    assert_eq!(generate_vector(3).len(), 1000);
}
