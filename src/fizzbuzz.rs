//! FizzBuzz sequences: fixed, with custom divisors, and with custom labels.
use vstd::prelude::*;
use crate::text::{decimal_digits, decimal_string, string_views};

verus! {

/// The word for position `i`: `labels[2]` when both tests hold, `labels[0]`
/// or `labels[1]` when one does, the decimal numeral of `i` otherwise.
pub open spec fn word(i: nat, fizz: bool, buzz: bool, labels: Seq<Seq<char>>) -> Seq<char> {
    if fizz && buzz {
        labels[2]
    } else if fizz {
        labels[0]
    } else if buzz {
        labels[1]
    } else {
        decimal_digits(i)
    }
}

pub open spec fn classic_labels() -> Seq<Seq<char>> {
    seq!["Fizz"@, "Buzz"@, "Fizzbuzz"@]
}

pub open spec fn fizzbuzz_word(i: nat) -> Seq<char> {
    word(i, i % 3 == 0, i % 5 == 0, classic_labels())
}

/// Position `i` is tested by its low eight bits, as a `u8` counter would.
pub open spec fn custom_word(i: nat, k1: u8, k2: u8, labels: Seq<Seq<char>>) -> Seq<char> {
    word(i, (i % 256) % (k1 as nat) == 0, (i % 256) % (k2 as nat) == 0, labels)
}

/// The words for positions `1..=n` with divisors 3 and 5.
pub fn fizzbuzz(n: usize) -> (r: Vec<String>)
    requires
        n < usize::MAX,
    ensures
        r@.len() == n,
        forall|i: int| 0 <= i < n ==> (#[trigger] r@[i])@ == fizzbuzz_word((i + 1) as nat),
{
    let mut v: Vec<String> = Vec::new();
    let mut i: usize = 1;
    while i < n + 1
        invariant
            1 <= i <= n + 1,
            n < usize::MAX,
            v@.len() == i - 1,
            forall|j: int| 0 <= j < i - 1 ==> (#[trigger] v@[j])@ == fizzbuzz_word((j + 1) as nat),
        decreases n + 1 - i,
    {
        let fizz = i % 3 == 0;
        let buzz = i % 5 == 0;
        let w = if fizz && buzz {
            String::from_str("Fizzbuzz")
        } else if fizz {
            String::from_str("Fizz")
        } else if buzz {
            String::from_str("Buzz")
        } else {
            decimal_string(i)
        };
        v.push(w);
        i += 1;
    }
    v
}

/// The words for positions `1..=n` with divisors `k1` and `k2`.
pub fn custom_buzz(n: usize, k1: u8, k2: u8) -> (r: Vec<String>)
    requires
        k1 > 1,
        k2 > 1,
        n < usize::MAX,
    ensures
        r@.len() == n,
        forall|i: int|
            0 <= i < n ==> (#[trigger] r@[i])@ == custom_word(
                (i + 1) as nat,
                k1,
                k2,
                classic_labels(),
            ),
{
    let mut v: Vec<String> = Vec::new();
    let mut i: usize = 1;
    while i < n + 1
        invariant
            1 <= i <= n + 1,
            n < usize::MAX,
            k1 > 1,
            k2 > 1,
            v@.len() == i - 1,
            forall|j: int|
                0 <= j < i - 1 ==> (#[trigger] v@[j])@ == custom_word(
                    (j + 1) as nat,
                    k1,
                    k2,
                    classic_labels(),
                ),
        decreases n + 1 - i,
    {
        let low = (i % 256) as u8;
        let fizz = low % k1 == 0;
        let buzz = low % k2 == 0;
        let w = if fizz && buzz {
            String::from_str("Fizzbuzz")
        } else if fizz {
            String::from_str("Fizz")
        } else if buzz {
            String::from_str("Buzz")
        } else {
            decimal_string(i)
        };
        v.push(w);
        i += 1;
    }
    v
}

/// FizzBuzz with its own divisors and labels (for the first, the second,
/// and both tests).
pub struct FizzBuzzer {
    pub k1: u8,
    pub k2: u8,
    pub labels: [String; 3],
}

impl FizzBuzzer {
    /// The words for positions `1..=n`.
    pub fn take(&self, n: usize) -> (r: Vec<String>)
        requires
            self.k1 > 1,
            self.k2 > 1,
            n < usize::MAX,
        ensures
            r@.len() == n,
            forall|i: int|
                0 <= i < n ==> (#[trigger] r@[i])@ == custom_word(
                    (i + 1) as nat,
                    self.k1,
                    self.k2,
                    string_views(self.labels@),
                ),
    {
        let n1 = self.k1;
        let n2 = self.k2;
        let mut v: Vec<String> = Vec::new();
        let mut i: usize = 1;
        while i < n + 1
            invariant
                1 <= i <= n + 1,
                n < usize::MAX,
                n1 == self.k1 > 1,
                n2 == self.k2 > 1,
                v@.len() == i - 1,
                forall|j: int|
                    0 <= j < i - 1 ==> (#[trigger] v@[j])@ == custom_word(
                        (j + 1) as nat,
                        self.k1,
                        self.k2,
                        string_views(self.labels@),
                    ),
            decreases n + 1 - i,
        {
            let low = (i % 256) as u8;
            let fizz = low % n1 == 0;
            let buzz = low % n2 == 0;
            let w = if fizz && buzz {
                self.labels[2].clone()
            } else if fizz {
                self.labels[0].clone()
            } else if buzz {
                self.labels[1].clone()
            } else {
                decimal_string(i)
            };
            v.push(w);
            i += 1;
        }
        v
    }

    /// Replaces label `index` by a copy of `value`.
    pub fn change_label(&mut self, index: usize, value: &String)
        requires
            index <= 2,
        ensures
            final(self).labels@ == old(self).labels@.update(index as int, *value),
            final(self).k1 == old(self).k1,
            final(self).k2 == old(self).k2,
    {
        self.labels[index] = value.clone();
    }
}

} // verus!
