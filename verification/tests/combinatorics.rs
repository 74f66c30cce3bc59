use type_manager::utils::{gcd, lcm, permutations};

#[test]
fn test_gcd() {
    // just test that gcd works ok
    assert_eq!(gcd(4, 1), 1);
    assert_eq!(gcd(4, 4), 4);
    assert_eq!(gcd(7, 9), 1);
    assert_eq!(gcd(3, 9), 3);
}

#[test]
fn test_lcm() {
    // test that lcm works ok
    assert_eq!(lcm(4, 4), 4);
    assert_eq!(lcm(7, 9), 7 * 9);
    assert_eq!(lcm(3, lcm(5, 7)), lcm(lcm(3, 5), 7));
    assert_eq!(lcm(1, 3), 3);
}

#[test]
fn test_gcd_zero_inputs() {
    // zero inputs are answered without dividing by zero
    assert_eq!(gcd(0, 5), 5);
    assert_eq!(gcd(5, 0), 5);
    assert_eq!(gcd(0, 0), 0);
}

#[test]
fn test_lcm_zero_inputs() {
    assert_eq!(lcm(0, 5), 0);
    assert_eq!(lcm(5, 0), 0);
}

#[test]
fn test_lcm_associative_more() {
    assert_eq!(lcm(4, lcm(6, 10)), lcm(lcm(4, 6), 10));
    assert_eq!(lcm(2, lcm(2, 2)), 2);
}

#[test]
fn test_permutations_singleton() {
    // singleton should return just one
    let mut v = vec![1];
    assert_eq!(permutations(&mut v), vec![v]);
}

#[test]
fn test_permutations_empty() {
    // empty should return empty list
    let mut v: Vec<usize> = vec![];
    let void: Vec<Vec<usize>> = vec![];
    assert_eq!(permutations(&mut v), void);
}

#[test]
fn test_permutations() {
    // permutations for simple list
    let mut v = vec![1, 2, 3];
    let ans = vec![
        vec![1, 2, 3],
        vec![1, 3, 2],
        vec![2, 1, 3],
        vec![2, 3, 1],
        vec![3, 2, 1],
        vec![3, 1, 2],
    ];

    let output = permutations(&mut v);

    // check set equality
    for v in &output {
        assert!(ans.contains(&v));
    }
    for v in &ans {
        assert!(output.contains(&v));
    }
}

#[test]
fn test_permutations_count() {
    // four elements give 4! = 24 distinct orderings
    let mut v = vec![1, 2, 3, 4];
    let output = permutations(&mut v);
    assert_eq!(output.len(), 24);
    for i in 0..output.len() {
        for j in 0..i {
            assert_ne!(output[i], output[j]);
        }
    }
}

#[test]
fn check_permutations() {
    let mut v = vec!['a', 'b', 'c'];
    for v in permutations(&mut v) {
        println!("{:?}", v);
    }
    println!("Original: {:?}", v);
}
