use rand::Rng;
use rust_radix_sort::{generate_vector, radix_sort};

#[test]
fn static_test() {
    // Hard coded test vectors for simple cases.
    let htv = vec![
        vec![],
        vec![2],
        vec![2, 3, 1, 5, 4],
        vec![-10, 8, 0, -11],
    ];
    // Test radix sort for each vector one by one.
    for v in htv {
        let mut current = v;
        let radix_res = radix_sort(&current);
        current.sort();
        assert_eq!(radix_res, current);
    }
}

#[test]
fn dynamic_test() {
    // Randomly generated larger vectors.
    // Test vectors consisting of 100, 10 000 and 1000 000 random integers.
    let rv = vec![generate_vector(2), generate_vector(4), generate_vector(6)];
    // Test radix sort for each vector one by one.
    for v in rv {
        let mut current = v;
        let radix_res = radix_sort(&current);
        current.sort();
        assert_eq!(radix_res, current);
    }
}

#[test]
fn main_static_test() {
    // Hard coded test vectors for simple cases.
    let htv = [
        vec![],
        vec![2],
        vec![2, 3, 1, 5, 4],
        vec![-10, 8, 0, -11],
    ];
    // Test radix sort for each vector one by one.
    for i in 0..4 {
        let mut current = htv[i].clone();
        let radix_res = radix_sort(&current);
        current.sort();
        assert_eq!(radix_res, current);
    }
}

#[test]
fn main_dynamic_test() {
    // Randomly generated larger vectors.
    let mut rng = rand::thread_rng();
    // Test vectors consisting of 100, 10 000 and 1000 000 random integers.
    let v100: Vec<i32> = (0..100).map(|_| rng.gen::<i32>()).collect();
    let v10k: Vec<i32> = (0..10000).map(|_| rng.gen::<i32>()).collect();
    let v1m: Vec<i32> = (0..1000000).map(|_| rng.gen::<i32>()).collect();
    let rv = [v100, v10k, v1m];
    // Test radix sort for each vector one by one.
    for i in 0..3 {
        let mut current = rv[i].clone();
        let radix_res = radix_sort(&current);
        current.sort();
        assert_eq!(radix_res, current);
    }
}

#[test]
fn tests_static_test() {
    // Hard coded test vectors for simple cases.
    let htv = vec![
        vec![],
        vec![2],
        vec![2, 3, 1, 5, 4],
        vec![-10, 8, 0, -11],
    ];
    // Test radix sort for each vector one by one.
    for v in htv {
        let mut current = v;
        let radix_res = radix_sort(&current);
        current.sort();
        assert_eq!(radix_res, current);
    }
}

#[test]
fn tests_dynamic_test() {
    // Randomly generated larger vectors.
    // Test vectors consisting of 100, 10 000 and 1000 000 random integers.
    let rv = vec![generate_vector(2), generate_vector(4), generate_vector(6)];
    // Test radix sort for each vector one by one.
    for v in rv {
        let mut current = v;
        let radix_res = radix_sort(&current);
        current.sort();
        assert_eq!(radix_res, current);
    }
}
