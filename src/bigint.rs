//! Signed arbitrary-precision integers in decimal, with parsing, ordering,
//! addition and subtraction.
use vstd::prelude::*;
use crate::text::{all_digits, decimal_value};

verus! {

pub open spec fn pow10(k: nat) -> nat
    decreases k,
{
    if k == 0 {
        1
    } else {
        10 * pow10((k - 1) as nat)
    }
}

/// The number that the decimal digits `d` (most significant first) spell.
pub open spec fn digits_val(d: Seq<u8>) -> nat
    decreases d.len(),
{
    if d.len() == 0 {
        0
    } else {
        digits_val(d.drop_last()) * 10 + d.last() as nat
    }
}

pub open spec fn is_digits(d: Seq<u8>) -> bool {
    forall|i: int| 0 <= i < d.len() ==> #[trigger] d[i] < 10
}

/// At least one digit, and no leading zero unless the number is zero.
pub open spec fn canonical(d: Seq<u8>) -> bool {
    d.len() > 0 && is_digits(d) && (d[0] != 0 || d.len() == 1)
}

pub open spec fn compare(a: int, b: int) -> core::cmp::Ordering {
    if a < b {
        core::cmp::Ordering::Less
    } else if a > b {
        core::cmp::Ordering::Greater
    } else {
        core::cmp::Ordering::Equal
    }
}

proof fn lemma_pow10_pos(k: nat)
    ensures
        pow10(k) >= 1,
    decreases k,
{
    if k > 0 {
        lemma_pow10_pos((k - 1) as nat);
    }
}

proof fn lemma_pow10_monotone(i: nat, j: nat)
    requires
        i <= j,
    ensures
        pow10(i) <= pow10(j),
    decreases j,
{
    if i < j {
        lemma_pow10_monotone(i, (j - 1) as nat);
    }
}

proof fn lemma_val_concat(a: Seq<u8>, b: Seq<u8>)
    ensures
        digits_val(a + b) == digits_val(a) * pow10(b.len()) + digits_val(b),
    decreases b.len(),
{
    if b.len() == 0 {
        assert(a + b =~= a);
        assert(pow10(0) == 1);
        assert(digits_val(b) == 0);
    } else {
        let b1 = b.drop_last();
        assert((a + b).drop_last() =~= a + b1);
        assert((a + b).last() == b.last());
        assert(pow10(b.len()) == 10 * pow10(b1.len()));
        lemma_val_concat(a, b1);
        let x = digits_val(a);
        let p = pow10(b1.len());
        let y = digits_val(b1);
        assert((x * p + y) * 10 + b.last() == x * (10 * p) + (y * 10 + b.last())) by (nonlinear_arith);
        assert(digits_val(a + b) == digits_val(a + b1) * 10 + b.last());
        assert(digits_val(b) == y * 10 + b.last());
    }
}

proof fn lemma_val_bound(d: Seq<u8>)
    requires
        is_digits(d),
    ensures
        digits_val(d) < pow10(d.len()),
    decreases d.len(),
{
    if d.len() > 0 {
        let d1 = d.drop_last();
        assert(is_digits(d1)) by {
            assert forall|i: int| 0 <= i < d1.len() implies #[trigger] d1[i] < 10 by {
                assert(d1[i] == d[i]);
            }
        }
        lemma_val_bound(d1);
        assert(d.last() == d[d.len() - 1]);
    }
}

/// Splits off the leading digit: `d0 * 10^(n-1) + rest`.
proof fn lemma_val_single(x: u8)
    ensures
        digits_val(seq![x]) == x,
{
    assert(seq![x].drop_last() =~= Seq::<u8>::empty());
    assert(digits_val(Seq::<u8>::empty()) == 0);
}

proof fn lemma_val_front(d: Seq<u8>)
    requires
        d.len() > 0,
    ensures
        digits_val(d) == d[0] * pow10((d.len() - 1) as nat) + digits_val(d.drop_first()),
{
    assert(d =~= seq![d[0]] + d.drop_first());
    lemma_val_concat(seq![d[0]], d.drop_first());
    assert(seq![d[0]].drop_last() =~= Seq::<u8>::empty());
    lemma_val_single(d[0]);
}

proof fn lemma_digits_sub(d: Seq<u8>, i: int, j: int)
    requires
        is_digits(d),
        0 <= i <= j <= d.len(),
    ensures
        is_digits(d.subrange(i, j)),
{
    assert forall|k: int| 0 <= k < j - i implies #[trigger] d.subrange(i, j)[k] < 10 by {
        assert(d.subrange(i, j)[k] == d[i + k]);
    }
}

proof fn lemma_val_lead(d: Seq<u8>)
    requires
        canonical(d),
        d.len() > 1,
    ensures
        digits_val(d) >= pow10((d.len() - 1) as nat),
{
    lemma_val_front(d);
    let p = pow10((d.len() - 1) as nat);
    assert(d[0] * p >= p) by (nonlinear_arith)
        requires
            d[0] >= 1,
    ;
}

/// Equal-length digit strings that first differ where `x` has the smaller
/// digit.
proof fn lemma_lead_order(x: Seq<u8>, y: Seq<u8>)
    requires
        x.len() == y.len() > 0,
        is_digits(x),
        is_digits(y),
        x[0] < y[0],
    ensures
        digits_val(x) < digits_val(y),
{
    lemma_val_front(x);
    lemma_val_front(y);
    let p = pow10((x.len() - 1) as nat);
    lemma_digits_sub(x, 1, x.len() as int);
    assert(x.drop_first() =~= x.subrange(1, x.len() as int));
    lemma_val_bound(x.drop_first());
    let rx = digits_val(x.drop_first());
    let ry = digits_val(y.drop_first());
    let a = x[0] as int;
    let b = y[0] as int;
    assert(a * p + rx < b * p + ry) by (nonlinear_arith)
        requires
            a + 1 <= b,
            rx < p,
            ry >= 0,
    ;
}

proof fn lemma_zero_lead(d: Seq<u8>)
    requires
        canonical(d),
    ensures
        (digits_val(d) == 0) == (d[0] == 0),
{
    lemma_val_front(d);
    lemma_pow10_pos((d.len() - 1) as nat);
    let p = pow10((d.len() - 1) as nat);
    if d[0] != 0 {
        assert(d[0] * p >= 1) by (nonlinear_arith)
            requires
                d[0] >= 1,
                p >= 1,
        ;
    } else {
        assert(d.len() == 1);
        assert(d.drop_first() =~= Seq::<u8>::empty());
        assert(digits_val(Seq::<u8>::empty()) == 0);
        assert(d[0] * p == 0) by (nonlinear_arith)
            requires
                d[0] == 0,
        ;
    }
}

/// The last `k` digits of `x` (all of them when `k` exceeds its length).
pub open spec fn low_digits(x: Seq<u8>, k: nat) -> Seq<u8> {
    if k < x.len() {
        x.subrange(x.len() - k, x.len() as int)
    } else {
        x
    }
}

proof fn lemma_low_digits_step(x: Seq<u8>, k: nat)
    ensures
        k < x.len() ==> digits_val(low_digits(x, k + 1)) == x[x.len() - 1 - k] * pow10(k)
            + digits_val(low_digits(x, k)),
        k < x.len() ==> low_digits(x, k).len() == k,
        k >= x.len() ==> low_digits(x, k + 1) == low_digits(x, k),
{
    if k < x.len() {
        let lo = low_digits(x, k + 1);
        assert(lo.drop_first() =~= low_digits(x, k));
        assert(lo[0] == x[x.len() - 1 - k]);
        lemma_val_front(lo);
    }
}

proof fn lemma_prepend(d: u8, res: Seq<u8>)
    ensures
        digits_val(seq![d] + res) == d * pow10(res.len()) + digits_val(res),
        (seq![d] + res).drop_first() == res,
{
    assert((seq![d] + res).drop_first() =~= res);
    lemma_val_front(seq![d] + res);
}

proof fn lemma_digits_prepend(d: u8, res: Seq<u8>)
    requires
        d < 10,
        is_digits(res),
    ensures
        is_digits(seq![d] + res),
{
    assert forall|i: int| 0 <= i < res.len() + 1 implies #[trigger] (seq![d] + res)[i] < 10 by {
        if i > 0 {
            assert((seq![d] + res)[i] == res[i - 1]);
        }
    }
}

/// The sum of two magnitudes, digit by digit with a carry.
fn add_digits(x: &Vec<u8>, y: &Vec<u8>) -> (r: Vec<u8>)
    requires
        is_digits(x@),
        is_digits(y@),
        x@.len() > 0,
    ensures
        is_digits(r@),
        r@.len() > 0,
        digits_val(r@) == digits_val(x@) + digits_val(y@),
{
    let lx = x.len();
    let ly = y.len();
    let top = if lx > ly { lx } else { ly };
    let mut res: Vec<u8> = Vec::new();
    let mut carry: u8 = 0;
    let mut k: usize = 0;
    proof {
        assert(low_digits(x@, 0) =~= Seq::<u8>::empty());
        assert(low_digits(y@, 0) =~= Seq::<u8>::empty());
        assert(digits_val(Seq::<u8>::empty()) == 0);
    }
    while k < top
        invariant
            lx == x@.len(),
            ly == y@.len(),
            top >= lx,
            top >= ly,
            top > 0,
            k <= top,
            is_digits(x@),
            is_digits(y@),
            is_digits(res@),
            res@.len() == k,
            carry <= 1,
            digits_val(res@) + carry * pow10(k as nat) == digits_val(low_digits(x@, k as nat))
                + digits_val(low_digits(y@, k as nat)),
        decreases top - k,
    {
        let dx: u8 = if k < lx { x[lx - 1 - k] } else { 0 };
        let dy: u8 = if k < ly { y[ly - 1 - k] } else { 0 };
        let sum = dx + dy + carry;
        let d = sum % 10;
        let ghost old_res = res@;
        res.insert(0, d);
        proof {
            assert(res@ =~= seq![d] + old_res);
            lemma_prepend(d, old_res);
            lemma_digits_prepend(d, old_res);
            lemma_low_digits_step(x@, k as nat);
            lemma_low_digits_step(y@, k as nat);
            let p = pow10(k as nat);
            assert(pow10((k + 1) as nat) == 10 * p);
            let vx = digits_val(low_digits(x@, k as nat));
            let vy = digits_val(low_digits(y@, k as nat));
            let vx1 = digits_val(low_digits(x@, (k + 1) as nat));
            let vy1 = digits_val(low_digits(y@, (k + 1) as nat));
            assert(vx1 == dx * p + vx);
            assert(vy1 == dy * p + vy);
            let vr = digits_val(old_res);
            let c = carry as int;
            let sm = sum as int;
            assert(d * p + vr + (sm / 10) * (10 * p) == vx1 + vy1) by (nonlinear_arith)
                requires
                    sm == dx + dy + c,
                    d == sm % 10,
                    vr + c * p == vx + vy,
                    vx1 == dx * p + vx,
                    vy1 == dy * p + vy,
                    sm >= 0,
            ;
        }
        carry = sum / 10;
        k += 1;
    }
    proof {
        assert(low_digits(x@, top as nat) == x@);
        assert(low_digits(y@, top as nat) == y@);
    }
    if carry > 0 {
        let ghost old_res = res@;
        res.insert(0, 1);
        proof {
            assert(res@ =~= seq![1u8] + old_res);
            lemma_prepend(1, old_res);
            lemma_digits_prepend(1, old_res);
        }
    }
    res
}

/// The difference of two magnitudes, the first not below the second, digit
/// by digit with a borrow.
fn sub_digits(x: &Vec<u8>, y: &Vec<u8>) -> (r: Vec<u8>)
    requires
        is_digits(x@),
        is_digits(y@),
        x@.len() > 0,
        digits_val(x@) >= digits_val(y@),
    ensures
        is_digits(r@),
        r@.len() > 0,
        digits_val(r@) == digits_val(x@) - digits_val(y@),
{
    let lx = x.len();
    let ly = y.len();
    let top = if lx > ly { lx } else { ly };
    let mut res: Vec<u8> = Vec::new();
    let mut borrow: u8 = 0;
    let mut k: usize = 0;
    proof {
        assert(low_digits(x@, 0) =~= Seq::<u8>::empty());
        assert(low_digits(y@, 0) =~= Seq::<u8>::empty());
        assert(digits_val(Seq::<u8>::empty()) == 0);
    }
    while k < top
        invariant
            lx == x@.len(),
            ly == y@.len(),
            top >= lx,
            top >= ly,
            top > 0,
            k <= top,
            is_digits(x@),
            is_digits(y@),
            is_digits(res@),
            res@.len() == k,
            borrow <= 1,
            digits_val(res@) - borrow * pow10(k as nat) == digits_val(low_digits(x@, k as nat))
                - digits_val(low_digits(y@, k as nat)),
        decreases top - k,
    {
        let dx: u8 = if k < lx { x[lx - 1 - k] } else { 0 };
        let dy: u8 = if k < ly { y[ly - 1 - k] } else { 0 };
        let need = dy + borrow;
        let (d, next): (u8, u8) = if dx >= need {
            (dx - need, 0)
        } else {
            (dx + 10 - need, 1)
        };
        let ghost old_res = res@;
        res.insert(0, d);
        proof {
            assert(res@ =~= seq![d] + old_res);
            lemma_prepend(d, old_res);
            lemma_digits_prepend(d, old_res);
            lemma_low_digits_step(x@, k as nat);
            lemma_low_digits_step(y@, k as nat);
            let p = pow10(k as nat);
            assert(pow10((k + 1) as nat) == 10 * p);
            let vx = digits_val(low_digits(x@, k as nat));
            let vy = digits_val(low_digits(y@, k as nat));
            let vx1 = digits_val(low_digits(x@, (k + 1) as nat));
            let vy1 = digits_val(low_digits(y@, (k + 1) as nat));
            let vr = digits_val(old_res);
            let b = borrow as int;
            let nb = next as int;
            assert(d * p + vr - nb * (10 * p) == vx1 - vy1) by (nonlinear_arith)
                requires
                    d == dx - dy - b + 10 * nb,
                    vr - b * p == vx - vy,
                    vx1 == dx * p + vx,
                    vy1 == dy * p + vy,
            ;
        }
        borrow = next;
        k += 1;
    }
    proof {
        assert(low_digits(x@, top as nat) == x@);
        assert(low_digits(y@, top as nat) == y@);
        lemma_val_bound(res@);
        if borrow > 0 {
            lemma_pow10_pos(top as nat);
        }
    }
    res
}

/// Drops leading zeros, keeping at least one digit.
fn strip_zeros(v: &Vec<u8>) -> (r: Vec<u8>)
    requires
        is_digits(v@),
        v@.len() > 0,
    ensures
        canonical(r@),
        digits_val(r@) == digits_val(v@),
{
    let n = v.len();
    let mut z: usize = 0;
    proof {
        assert(v@.subrange(0, 0) =~= Seq::<u8>::empty());
        assert(digits_val(Seq::<u8>::empty()) == 0);
    }
    while z + 1 < n && v[z] == 0
        invariant
            n == v@.len(),
            z < n,
            is_digits(v@),
            digits_val(v@.subrange(0, z as int)) == 0,
        decreases n - z,
    {
        assert(v@.subrange(0, z + 1).drop_last() =~= v@.subrange(0, z as int));
        z += 1;
    }
    let mut r: Vec<u8> = Vec::new();
    let mut j: usize = z;
    while j < n
        invariant
            n == v@.len(),
            z <= j <= n,
            is_digits(v@),
            r@ == v@.subrange(z as int, j as int),
        decreases n - j,
    {
        r.push(v[j]);
        assert(r@ =~= v@.subrange(z as int, j + 1));
        j += 1;
    }
    proof {
        lemma_digits_sub(v@, z as int, n as int);
        assert(v@ =~= v@.subrange(0, z as int) + r@);
        lemma_val_concat(v@.subrange(0, z as int), r@);
    }
    r
}

proof fn lemma_same_len_unique(a: Seq<u8>, b: Seq<u8>)
    requires
        a.len() == b.len(),
        is_digits(a),
        is_digits(b),
        digits_val(a) == digits_val(b),
    ensures
        a == b,
    decreases a.len(),
{
    if a.len() == 0 {
        assert(a =~= b);
    } else if a[0] < b[0] {
        lemma_lead_order(a, b);
    } else if b[0] < a[0] {
        lemma_lead_order(b, a);
    } else {
        let n = a.len() as int;
        lemma_val_front(a);
        lemma_val_front(b);
        lemma_digits_sub(a, 1, n);
        lemma_digits_sub(b, 1, n);
        assert(a.drop_first() =~= a.subrange(1, n));
        assert(b.drop_first() =~= b.subrange(1, n));
        lemma_same_len_unique(a.drop_first(), b.drop_first());
        assert(a =~= seq![a[0]] + a.drop_first());
        assert(b =~= seq![b[0]] + b.drop_first());
    }
}

/// Canonical digit strings with the same value are the same.
pub proof fn lemma_canonical_unique(a: Seq<u8>, b: Seq<u8>)
    requires
        canonical(a),
        canonical(b),
        digits_val(a) == digits_val(b),
    ensures
        a == b,
{
    if a.len() < b.len() {
        lemma_val_bound(a);
        lemma_val_lead(b);
        lemma_pow10_monotone(a.len(), (b.len() - 1) as nat);
    } else if b.len() < a.len() {
        lemma_val_bound(b);
        lemma_val_lead(a);
        lemma_pow10_monotone(b.len(), (a.len() - 1) as nat);
    } else {
        lemma_same_len_unique(a, b);
    }
}

/// Orders two canonical magnitudes.
fn compare_digits(a: &Vec<u8>, b: &Vec<u8>) -> (r: core::cmp::Ordering)
    requires
        canonical(a@),
        canonical(b@),
    ensures
        r == compare(digits_val(a@) as int, digits_val(b@) as int),
{
    let la = a.len();
    let lb = b.len();
    if la != lb {
        proof {
            if la < lb {
                lemma_val_bound(a@);
                lemma_val_lead(b@);
                lemma_pow10_monotone(la as nat, (lb - 1) as nat);
            } else {
                lemma_val_bound(b@);
                lemma_val_lead(a@);
                lemma_pow10_monotone(lb as nat, (la - 1) as nat);
            }
        }
        return if la < lb {
            core::cmp::Ordering::Less
        } else {
            core::cmp::Ordering::Greater
        };
    }
    let mut i: usize = 0;
    while i < la
        invariant
            la == a@.len() == b@.len(),
            canonical(a@),
            canonical(b@),
            i <= la,
            a@.subrange(0, i as int) == b@.subrange(0, i as int),
        decreases la - i,
    {
        if a[i] != b[i] {
            proof {
                let n = la as int;
                let pre = a@.subrange(0, i as int);
                let sa = a@.subrange(i as int, n);
                let sb = b@.subrange(i as int, n);
                assert(a@ =~= pre + sa);
                assert(b@ =~= pre + sb);
                lemma_val_concat(pre, sa);
                lemma_val_concat(pre, sb);
                lemma_digits_sub(a@, i as int, n);
                lemma_digits_sub(b@, i as int, n);
                if a[i as int] < b[i as int] {
                    lemma_lead_order(sa, sb);
                } else {
                    lemma_lead_order(sb, sa);
                }
            }
            return if a[i] < b[i] {
                core::cmp::Ordering::Less
            } else {
                core::cmp::Ordering::Greater
            };
        }
        assert(a@.subrange(0, i + 1) =~= a@.subrange(0, i as int).push(a@[i as int]));
        assert(b@.subrange(0, i + 1) =~= b@.subrange(0, i as int).push(b@[i as int]));
        i += 1;
    }
    assert(a@ =~= a@.subrange(0, la as int));
    assert(b@ =~= b@.subrange(0, la as int));
    core::cmp::Ordering::Equal
}

#[derive(Debug, PartialEq, Eq)]
pub struct Bigint {
    pub sign: i8,
    pub digits: Vec<u8>,
}

/// The error of `Bigint::parse`.
#[derive(Debug)]
pub struct ParseError;

/// The input after an optional leading `+` or `-`.
pub open spec fn unsigned_part(s: Seq<char>) -> Seq<char> {
    if s.len() > 0 && (s[0] == '+' || s[0] == '-') {
        s.drop_first()
    } else {
        s
    }
}

/// Empty, or an optional sign followed by one or more decimal digits.
pub open spec fn parses(s: Seq<char>) -> bool {
    s.len() == 0 || (unsigned_part(s).len() > 0 && all_digits(unsigned_part(s)))
}

pub open spec fn parsed_value(s: Seq<char>) -> int {
    if s.len() > 0 && s[0] == '-' {
        -decimal_value(unsigned_part(s))
    } else {
        decimal_value(unsigned_part(s))
    }
}

/// A well-formed number is determined by its value: sign and digits alike.
pub proof fn lemma_value_determines(x: Bigint, y: Bigint)
    requires
        x.wf(),
        y.wf(),
        x.value() == y.value(),
    ensures
        x.sign == y.sign,
        x.digits@ == y.digits@,
{
    lemma_canonical_unique(x.digits@, y.digits@);
}

impl Bigint {
    /// Canonical digits and a sign of `1` or `-1`, which is `1` for zero.
    pub open spec fn wf(&self) -> bool {
        &&& canonical(self.digits@)
        &&& (self.sign == 1 || self.sign == -1)
        &&& (digits_val(self.digits@) == 0 ==> self.sign == 1)
    }

    pub open spec fn value(&self) -> int {
        if self.sign < 0 {
            -digits_val(self.digits@)
        } else {
            digits_val(self.digits@) as int
        }
    }

    /// Zero.
    pub fn new() -> (r: Bigint)
        ensures
            r.wf(),
            r.value() == 0,
            r.sign == 1,
            r.digits@ == seq![0u8],
    {
        let r = Bigint { sign: 1, digits: vec![0] };
        assert(r.digits@ == seq![0u8]);
        proof {
            lemma_val_single(0);
        }
        r
    }

    /// Whether the number is above zero: its leading digit is not zero and
    /// its sign is `1`.
    pub fn is_positive(&self) -> (r: bool)
        requires
            self.digits@.len() > 0,
        ensures
            r == (self.digits@[0] != 0 && self.sign == 1),
            self.wf() ==> r == (self.value() > 0),
    {
        proof {
            if self.wf() {
                self.lemma_zero_lead();
            }
        }
        match self.digits[0] {
            0 => false,
            _ => self.sign == 1,
        }
    }

    /// Whether the number is below zero: its leading digit is not zero and
    /// its sign is `-1`.
    pub fn is_negative(&self) -> (r: bool)
        requires
            self.digits@.len() > 0,
        ensures
            r == (self.digits@[0] != 0 && self.sign == -1),
            self.wf() ==> r == (self.value() < 0),
    {
        proof {
            if self.wf() {
                self.lemma_zero_lead();
            }
        }
        match self.digits[0] {
            0 => false,
            _ => self.sign == -1,
        }
    }

    proof fn lemma_zero_lead(&self)
        requires
            self.wf(),
        ensures
            (digits_val(self.digits@) == 0) == (self.digits@[0] == 0),
    {
        lemma_zero_lead(self.digits@);
    }

    /// Reads an optional sign and decimal digits; the empty string is zero.
    pub fn parse(s: &str) -> (r: Result<Bigint, ParseError>)
        ensures
            r is Ok <==> parses(s@),
            r matches Ok(b) ==> b.wf() && b.value() == parsed_value(s@),
    {
        let n = s.unicode_len();
        if n == 0 {
            return Ok(Bigint::new());
        }
        let first = s.get_char(0);
        let signed = first == '+' || first == '-';
        let sign: i8 = if first == '-' { -1 } else { 1 };
        let start: usize = if signed { 1 } else { 0 };
        let ghost body = unsigned_part(s@);
        assert(body =~= s@.subrange(start as int, n as int));
        let mut i: usize = start;
        while n - i > 1 && s.get_char(i) == '0'
            invariant
                n == s@.len(),
                n > 0,
                start <= i <= n,
                start < n ==> i < n,
                signed == (s@[0] == '+' || s@[0] == '-'),
                start == if signed { 1usize } else { 0usize },
                all_digits(s@.subrange(start as int, i as int)),
                decimal_value(s@.subrange(start as int, i as int)) == 0,
            decreases n - i,
        {
            assert(s@.subrange(start as int, i + 1).drop_last() =~= s@.subrange(
                start as int,
                i as int,
            ));
            i += 1;
        }
        if start == n {
            return Err(ParseError);
        }
        let mut digits: Vec<u8> = Vec::new();
        let mut j: usize = i;
        while j < n
            invariant
                n == s@.len(),
                signed == (s@[0] == '+' || s@[0] == '-'),
                start == if signed { 1usize } else { 0usize },
                body == s@.subrange(start as int, n as int),
                sign == if s@[0] == '-' { -1i8 } else { 1i8 },
                i < n,
                start <= i <= j <= n,
                start < n,
                i + 1 >= n || s@[i as int] != '0',
                digits@.len() == j - i,
                is_digits(digits@),
                j > i ==> digits@[0] == s@[i as int] as u32 - 48,
                all_digits(s@.subrange(start as int, j as int)),
                digits_val(digits@) == decimal_value(s@.subrange(start as int, j as int)),
            decreases n - j,
        {
            let c = s.get_char(j);
            let code = c as u32;
            if !(48 <= code && code <= 57) {
                assert(body[j - start] == c);
                assert(!all_digits(body));
                return Err(ParseError);
            }
            let ghost old_digits = digits@;
            digits.push((code - 48) as u8);
            assert(digits@.drop_last() =~= old_digits);
            assert(s@.subrange(start as int, j + 1).drop_last() =~= s@.subrange(
                start as int,
                j as int,
            ));
            j += 1;
        }
        assert(s@.subrange(start as int, n as int) =~= body);
        if digits.len() == 1 && digits[0] == 0 {
            proof {
                assert(digits@ =~= seq![0u8]);
                lemma_val_single(0);
            }
            return Ok(Bigint::new());
        }
        proof {
            lemma_zero_lead(digits@);
        }
        let r = Bigint { sign, digits };
        Ok(r)
    }

    /// The sum of two numbers.
    pub fn add(self, other: Bigint) -> (r: Bigint)
        requires
            self.wf(),
            other.wf(),
        ensures
            r.wf(),
            r.value() == self.value() + other.value(),
    {
        if self.sign == other.sign {
            let digits = strip_zeros(&add_digits(&self.digits, &other.digits));
            proof {
                lemma_zero_lead(digits@);
            }
            return Bigint { sign: self.sign, digits };
        }
        match compare_digits(&self.digits, &other.digits) {
            core::cmp::Ordering::Equal => Bigint::new(),
            core::cmp::Ordering::Greater => {
                let digits = strip_zeros(&sub_digits(&self.digits, &other.digits));
                Bigint { sign: self.sign, digits }
            },
            core::cmp::Ordering::Less => {
                let digits = strip_zeros(&sub_digits(&other.digits, &self.digits));
                Bigint { sign: other.sign, digits }
            },
        }
    }

    /// The difference of two numbers.
    pub fn sub(self, other: Bigint) -> (r: Bigint)
        requires
            self.wf(),
            other.wf(),
        ensures
            r.wf(),
            r.value() == self.value() - other.value(),
    {
        let zero = other.digits.len() == 1 && other.digits[0] == 0;
        let sign: i8 = if zero { 1 } else { -other.sign };
        proof {
            lemma_zero_lead(other.digits@);
        }
        let negated = Bigint { sign, digits: other.digits };
        self.add(negated)
    }

    /// Orders two numbers by value.
    pub fn cmp(&self, other: &Bigint) -> (r: core::cmp::Ordering)
        requires
            self.wf(),
            other.wf(),
        ensures
            r == compare(self.value(), other.value()),
    {
        if self.sign != other.sign {
            return if self.sign == -1 {
                core::cmp::Ordering::Less
            } else {
                core::cmp::Ordering::Greater
            };
        }
        let order = compare_digits(&self.digits, &other.digits);
        if self.sign == 1 {
            order
        } else {
            match order {
                core::cmp::Ordering::Less => core::cmp::Ordering::Greater,
                core::cmp::Ordering::Greater => core::cmp::Ordering::Less,
                core::cmp::Ordering::Equal => core::cmp::Ordering::Equal,
            }
        }
    }
}

impl core::str::FromStr for Bigint {
    type Err = ParseError;

    fn from_str(s: &str) -> Result<Bigint, ParseError> {
        Bigint::parse(s)
    }
}

} // verus!
