//! Unsigned decimal numbers kept as digits, rendered plainly or with commas
//! between groups of three.
use vstd::prelude::*;
use crate::text::{decimal_digits, decimal_string};

verus! {

/// Digits, most significant first.
#[derive(Debug, Clone, PartialEq, Eq)]
pub struct Bigint {
    pub digits: Vec<u8>,
}

/// Each digit value written out in decimal, one after another.
pub open spec fn render(d: Seq<u8>) -> Seq<char>
    decreases d.len(),
{
    if d.len() == 0 {
        seq![]
    } else {
        render(d.drop_last()) + decimal_digits(d.last() as nat)
    }
}

/// The first `k` digits of `d` written out, with a comma after each one
/// that has a positive multiple of three digits after it.
pub open spec fn grouped(d: Seq<u8>, k: nat) -> Seq<char>
    decreases k,
{
    if k == 0 || k > d.len() {
        seq![]
    } else {
        grouped(d, (k - 1) as nat) + decimal_digits(d[k - 1] as nat) + if (d.len() - k) % 3 == 0
            && k != d.len() {
            seq![',']
        } else {
            seq![]
        }
    }
}

/// A view of a `Bigint` that renders with thousands separators.
pub struct Delimited<'a> {
    pub bigint: &'a Bigint,
}

impl Bigint {
    /// Reads decimal digits; any other character is refused.
    pub fn parse(s: &str) -> (r: Result<Bigint, &'static str>)
        ensures
            r is Ok <==> forall|i: int| 0 <= i < s@.len() ==> 48 <= #[trigger] (s@[i] as u32) <= 57,
            r matches Ok(b) ==> b.digits@.len() == s@.len() && forall|i: int|
                0 <= i < s@.len() ==> #[trigger] b.digits@[i] == s@[i] as u32 - 48,
    {
        let n = s.unicode_len();
        let mut digits: Vec<u8> = Vec::new();
        let mut i: usize = 0;
        while i < n
            invariant
                n == s@.len(),
                i <= n,
                digits@.len() == i,
                forall|j: int| 0 <= j < i ==> 48 <= #[trigger] (s@[j] as u32) <= 57,
                forall|j: int| 0 <= j < i ==> #[trigger] digits@[j] == s@[j] as u32 - 48,
            decreases n - i,
        {
            let code = s.get_char(i) as u32;
            if !(48 <= code && code <= 57) {
                return Err("Invalid input!");
            }
            digits.push((code - 48) as u8);
            i += 1;
        }
        Ok(Bigint { digits })
    }

    /// The digits written out, or `0` when there are none.
    pub fn to_string(&self) -> (r: String)
        ensures
            r@ == if self.digits@.len() == 0 {
                seq!['0']
            } else {
                render(self.digits@)
            },
    {
        if self.digits.len() == 0 {
            let r = String::from_str("0");
            proof {
                reveal_strlit("0");
            }
            return r;
        }
        let mut out = String::new();
        let mut i: usize = 0;
        while i < self.digits.len()
            invariant
                i <= self.digits@.len(),
                out@ == render(self.digits@.subrange(0, i as int)),
            decreases self.digits@.len() - i,
        {
            let part = decimal_string(self.digits[i] as usize);
            out.append(part.as_str());
            assert(self.digits@.subrange(0, i + 1).drop_last() =~= self.digits@.subrange(
                0,
                i as int,
            ));
            i += 1;
        }
        assert(self.digits@.subrange(0, self.digits@.len() as int) =~= self.digits@);
        out
    }

    pub fn delimited(&self) -> (r: Delimited<'_>)
        ensures
            r.bigint == self,
    {
        Delimited { bigint: self }
    }
}

impl<'a> Delimited<'a> {
    /// The digits written out with commas between groups of three, counted
    /// from the right; `0` when there are none.
    pub fn to_string(&self) -> (r: String)
        ensures
            r@ == if self.bigint.digits@.len() == 0 {
                seq!['0']
            } else {
                grouped(self.bigint.digits@, self.bigint.digits@.len())
            },
    {
        let d = &self.bigint.digits;
        let len = d.len();
        if len == 0 {
            let r = String::from_str("0");
            proof {
                reveal_strlit("0");
            }
            return r;
        }
        let mut out = String::new();
        let mut n: usize = 0;
        while n < len
            invariant
                len == d@.len(),
                n <= len,
                out@ == grouped(d@, n as nat),
            decreases len - n,
        {
            let part = decimal_string(d[n] as usize);
            out.append(part.as_str());
            if (len - 1 - n) % 3 == 0 && n != len - 1 {
                out.append(",");
                proof {
                    reveal_strlit(",");
                }
            }
            n += 1;
        }
        out
    }
}

impl core::str::FromStr for Bigint {
    type Err = &'static str;

    fn from_str(s: &str) -> Result<Bigint, &'static str> {
        Bigint::parse(s)
    }
}

} // verus!
