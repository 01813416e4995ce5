use md_lexer::utils::counter::Counter;
use std::collections::HashSet;

#[test]
fn it_works() {
    let result: i32 = 2 + 2;
    assert_eq!(result, 4);
}

#[test]
fn test_set() {
    let a = HashSet::<usize>::from_iter(vec![1, 2, 3, 4, 5].into_iter());
    let b = HashSet::<usize>::from_iter(vec![1, 2].into_iter());

    let c = a.intersection(&b);

    println!("{:?}", c);
}

#[test]
fn a_fresh_counter_starts_at_zero() {
    assert_eq!(Counter::new(), Counter::init(0));
}
