use stack_machine::labeled::FizzBuzzer;
use std::borrow::Cow;

fn first(fizzbuzzer: &FizzBuzzer, n: usize) -> Vec<Cow<'_, str>> {
    let mut iter = fizzbuzzer.iter();
    let mut items = Vec::new();
    for _ in 0..n {
        items.push(iter.next().unwrap());
    }
    items
}

#[test]
fn labeled_test_basic() {
    let fizzbuzzer = FizzBuzzer::new([
        String::from("Fizz"),
        String::from("Buzz"),
        String::from("Fizzbuzz"),
    ]);
    let items = first(&fizzbuzzer, 15);

    assert_eq!(items, [
        "1", "2", "Fizz", "4", "Buzz",
        "Fizz", "7", "8", "Fizz", "Buzz",
        "11", "Fizz", "13", "14", "Fizzbuzz"
    ]);
}

#[test]
fn test_cow() {
    let fizzbuzzer = FizzBuzzer::new([
        String::from("Fizz"),
        String::from("Buzz"),
        String::from("Fizzbuzz"),
    ]);
    let mut iter = fizzbuzzer.iter();

    assert!(matches!(iter.next(), Some(Cow::Owned(_))));
    assert!(matches!(iter.next(), Some(Cow::Owned(_))));
    assert!(matches!(iter.next(), Some(Cow::Borrowed(_))));
}

#[test]
fn test_labels() {
    let fizzbuzzer = FizzBuzzer::new([
        String::from("Four"),
        String::from("Seasons"),
        String::from("Total Landscaping"),
    ]);
    let items = first(&fizzbuzzer, 15);

    assert_eq!(items, [
        "1", "2", "Four", "4", "Seasons",
        "Four", "7", "8", "Four", "Seasons",
        "11", "Four", "13", "14", "Total Landscaping"
    ]);
}
