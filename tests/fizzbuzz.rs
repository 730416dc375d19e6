use stack_machine::fib::fib;
use stack_machine::fizzbuzz::{custom_buzz, fizzbuzz, FizzBuzzer};

#[test]
fn test_basic() {
    let expected = vec![1.to_string(), 2.to_string(), String::from("Fizz")];

    assert_eq!(fizzbuzz(3), expected);
    assert_eq!(custom_buzz(3, 3, 5), expected);

    let mut fizzbuzzer = FizzBuzzer {
        k1: 3,
        k2: 5,
        labels: [
            String::from("Fizz"),
            String::from("Buzz"),
            String::from("Fizzbuzz"),
        ],
    };
    assert_eq!(fizzbuzzer.take(3), expected);
    fizzbuzzer.change_label(0, &String::from("Fiz"));
}

#[test]
fn m_tests() {
    let expected = Vec::<String>::new();
    assert_eq!(fizzbuzz(0), expected);
    assert_eq!(custom_buzz(0, 3, 5), expected);
}

#[test]
fn fizzbuzz_fifteen() {
    let items = fizzbuzz(15);
    assert_eq!(
        items,
        ["1", "2", "Fizz", "4", "Buzz", "Fizz", "7", "8", "Fizz", "Buzz", "11", "Fizz", "13", "14", "Fizzbuzz"]
    );
    assert_eq!(custom_buzz(6, 2, 3), ["1", "Fizz", "Buzz", "Fizz", "5", "Fizzbuzz"]);
}

#[test]
fn custom_buzz_counts_in_eight_bits() {
    let items = custom_buzz(257, 3, 5);
    assert_eq!(items[255], "Fizzbuzz");
    assert_eq!(items[256], "257");
}

#[test]
fn labels_can_change() {
    let mut f = FizzBuzzer {
        k1: 2,
        k2: 3,
        labels: [String::from("a"), String::from("b"), String::from("ab")],
    };
    assert_eq!(f.take(6), ["1", "a", "b", "a", "5", "ab"]);
    f.change_label(2, &String::from("both"));
    assert_eq!(f.take(6), ["1", "a", "b", "a", "5", "both"]);
}

#[test]
fn fib_values() {
    assert_eq!(fib(0), 1);
    assert_eq!(fib(1), 1);
    assert_eq!(fib(2), 2);
    assert_eq!(fib(10), 89);
    assert_eq!(fib(46), 2971215073);
}
