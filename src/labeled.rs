//! An endless FizzBuzz sequence over three custom labels, borrowing each
//! label instead of copying it.
use vstd::prelude::*;
use std::borrow::Cow;
use crate::fizzbuzz::word;
use crate::text::{decimal_string, string_views};

verus! {

/// Labels for multiples of 3, of 5, and of both.
pub struct FizzBuzzer {
    pub labels: [String; 3],
}

/// Walks positions `1, 2, 3, ...` of a `FizzBuzzer`.
pub struct FizzBuzzerIter<'a> {
    pub fizzbuzzer: &'a FizzBuzzer,
    pub index: u32,
}

impl FizzBuzzer {
    pub fn new(labels: [String; 3]) -> (r: Self)
        ensures
            r.labels == labels,
    {
        FizzBuzzer { labels }
    }

    /// The sequence from position 1.
    pub fn iter(&self) -> (r: FizzBuzzerIter<'_>)
        ensures
            r.fizzbuzzer == self,
            r.index == 0,
    {
        FizzBuzzerIter { fizzbuzzer: self, index: 0 }
    }
}

impl<'a> FizzBuzzerIter<'a> {
    /// The word for the next position: a borrowed label, or the numeral,
    /// owned.
    pub fn next(&mut self) -> (r: Option<Cow<'a, str>>)
        requires
            old(self).index < u32::MAX,
        ensures
            final(self).index == old(self).index + 1,
            final(self).fizzbuzzer == old(self).fizzbuzzer,
            r is Some,
            r->Some_0@ == word(
                final(self).index as nat,
                final(self).index % 3 == 0,
                final(self).index % 5 == 0,
                string_views(old(self).fizzbuzzer.labels@),
            ),
            (r->Some_0 is Owned) == (final(self).index % 3 != 0 && final(self).index % 5 != 0),
    {
        self.index += 1;
        let fizz = self.index % 3 == 0;
        let buzz = self.index % 5 == 0;
        if fizz && buzz {
            Some(Cow::Borrowed(self.fizzbuzzer.labels[2].as_str()))
        } else if fizz {
            Some(Cow::Borrowed(self.fizzbuzzer.labels[0].as_str()))
        } else if buzz {
            Some(Cow::Borrowed(self.fizzbuzzer.labels[1].as_str()))
        } else {
            Some(Cow::Owned(decimal_string(self.index as usize)))
        }
    }
}

} // verus!
