use vstd::prelude::*;
use num_bigint::BigUint;
use num_traits::CheckedSub;

verus! {

/// The value of a sequence of base-2^32 digits, least significant digit first.
pub open spec fn digits_nat(d: Seq<u32>) -> nat
    decreases d.len(),
{
    if d.len() == 0 {
        0
    } else {
        d[0] as nat + 0x1_0000_0000 * digits_nat(d.drop_first())
    }
}

/// A digit sequence is canonical when its most significant digit is not zero.
pub open spec fn canonical(d: Seq<u32>) -> bool {
    d.len() == 0 || d.last() != 0
}

/// Whether every character of `s` is an ASCII decimal digit.
pub open spec fn all_decimal(s: Seq<char>) -> bool {
    forall|i: int| 0 <= i < s.len() ==> '0' <= #[trigger] s[i] <= '9'
}

/// The value of a string of decimal digits (most significant first).
pub open spec fn decimal_value(s: Seq<char>) -> nat
    decreases s.len(),
{
    if s.len() == 0 {
        0
    } else {
        decimal_value(s.drop_last()) * 10 + ((s.last() as nat) - ('0' as nat)) as nat
    }
}

/// The character of a decimal digit.
pub open spec fn digit_char(d: nat) -> char {
    (('0' as nat) + d) as char
}

/// The decimal representation of `n`, without leading zeros ("0" for zero).
pub open spec fn decimal_string(n: nat) -> Seq<char>
    decreases n,
{
    if n < 10 {
        seq![digit_char(n)]
    } else {
        decimal_string(n / 10).push(digit_char(n % 10))
    }
}

/// Adds two numbers given as base-2^32 digits with `BigUint`'s `+`.
/// Claimed: the result is the canonical digit sequence of the sum.
#[verifier::external_body]
fn big_add(a: &Vec<u32>, b: &Vec<u32>) -> (r: Vec<u32>)
    ensures
        canonical(r@),
        digits_nat(r@) == digits_nat(a@) + digits_nat(b@),
{
    (BigUint::new(a.clone()) + BigUint::new(b.clone())).to_u32_digits()
}

/// Subtracts with `num_traits::CheckedSub::checked_sub` on `BigUint`.
/// Claimed: `None` exactly when `b > a`, otherwise the canonical digits of `a - b`.
#[verifier::external_body]
fn big_checked_sub(a: &Vec<u32>, b: &Vec<u32>) -> (r: Option<Vec<u32>>)
    ensures
        r is None <==> digits_nat(a@) < digits_nat(b@),
        r matches Some(d) ==> canonical(d@) && digits_nat(d@) == digits_nat(a@) - digits_nat(b@),
{
    match BigUint::new(a.clone()).checked_sub(&BigUint::new(b.clone())) {
        Some(d) => Some(d.to_u32_digits()),
        None => None,
    }
}

/// Compares with `BigUint`'s `==`.
/// Claimed: true exactly when both digit sequences denote the same number.
#[verifier::external_body]
fn big_eq(a: &Vec<u32>, b: &Vec<u32>) -> (r: bool)
    ensures
        r == (digits_nat(a@) == digits_nat(b@)),
{
    BigUint::new(a.clone()) == BigUint::new(b.clone())
}

/// Compares with `BigUint`'s `<`.
/// Claimed: true exactly when the first number is smaller than the second.
#[verifier::external_body]
fn big_lt(a: &Vec<u32>, b: &Vec<u32>) -> (r: bool)
    ensures
        r == (digits_nat(a@) < digits_nat(b@)),
{
    BigUint::new(a.clone()) < BigUint::new(b.clone())
}

/// Parses decimal text with `BigUint`'s `FromStr`.
/// Claimed, for a non-empty string of ASCII digits only: the parse succeeds and
/// gives the canonical digits of the decimal value.
#[verifier::external_body]
fn big_parse_decimal(s: &str) -> (r: Option<Vec<u32>>)
    requires
        s@.len() > 0,
        all_decimal(s@),
    ensures
        r is Some,
        r matches Some(d) ==> canonical(d@) && digits_nat(d@) == decimal_value(s@),
{
    match s.parse::<BigUint>() {
        Ok(b) => Some(b.to_u32_digits()),
        Err(_) => None,
    }
}

/// Formats with `BigUint`'s `Display` (through `ToString`).
/// Claimed: the result is the decimal representation of the number.
#[verifier::external_body]
fn big_to_string(a: &Vec<u32>) -> (r: String)
    ensures
        r@ == decimal_string(digits_nat(a@)),
{
    BigUint::new(a.clone()).to_string()
}

/// An arbitrary-precision natural number, held as its canonical base-2^32 digits.
#[derive(Debug)]
pub struct UInt {
    digits: Vec<u32>,
}

impl View for UInt {
    type V = nat;

    closed spec fn view(&self) -> nat {
        digits_nat(self.digits@)
    }
}

proof fn lemma_digits_nat_push(d: Seq<u32>, x: u32)
    ensures
        digits_nat(d.push(x)) == digits_nat(d) + x * pow32(d.len()),
    decreases d.len(),
{
    if d.len() == 0 {
        assert(d.push(x).drop_first() =~= Seq::<u32>::empty());
        assert(digits_nat(Seq::<u32>::empty()) == 0);
        assert(d.push(x)[0] == x);
        assert(digits_nat(d.push(x)) == x + 0x1_0000_0000 * digits_nat(d.push(x).drop_first()));
        assert(pow32(0) == 1);
        assert(x * pow32(d.len()) == x);
    } else {
        assert(d.push(x).drop_first() =~= d.drop_first().push(x));
        lemma_digits_nat_push(d.drop_first(), x);
        assert(d.push(x)[0] == d[0]);
        let a = digits_nat(d.drop_first());
        let p = pow32((d.len() - 1) as nat);
        assert(digits_nat(d.push(x)) == d[0] + 0x1_0000_0000 * (a + x * p));
        assert(digits_nat(d) == d[0] + 0x1_0000_0000 * a);
        assert(pow32(d.len()) == 0x1_0000_0000 * pow32((d.len() - 1) as nat));
        assert(0x1_0000_0000 * (digits_nat(d.drop_first()) + x * pow32((d.len() - 1) as nat))
            == 0x1_0000_0000 * digits_nat(d.drop_first()) + x * (0x1_0000_0000 * pow32((d.len() - 1) as nat)))
            by (nonlinear_arith);
    }
}

/// 2^(32 k)
pub open spec fn pow32(k: nat) -> nat
    decreases k,
{
    if k == 0 {
        1
    } else {
        0x1_0000_0000 * pow32((k - 1) as nat)
    }
}

impl UInt {
    #[verifier::type_invariant]
    spec fn inv(&self) -> bool {
        canonical(self.digits@)
    }

    /// The number zero.
    pub fn zero() -> (r: UInt)
        ensures
            r@ == 0,
    {
        UInt { digits: Vec::new() }
    }

    /// The number one.
    pub fn one() -> (r: UInt)
        ensures
            r@ == 1,
    {
        let mut digits = Vec::new();
        digits.push(1u32);
        assert(digits@.drop_first() =~= Seq::<u32>::empty());
        assert(digits_nat(digits@.drop_first()) == 0);
        UInt { digits }
    }

    /// The number `n`.
    pub fn from_u64(n: u64) -> (r: UInt)
        ensures
            r@ == n as nat,
    {
        let lo = (n % 0x1_0000_0000) as u32;
        let hi = (n / 0x1_0000_0000) as u32;
        let mut digits = Vec::new();
        if hi != 0 {
            digits.push(lo);
            digits.push(hi);
            assert(digits@.drop_first().drop_first() =~= Seq::<u32>::empty());
            assert(digits@.drop_first() =~= seq![hi]);
            assert(digits_nat(digits@.drop_first().drop_first()) == 0);
            assert(digits_nat(digits@.drop_first()) == hi);
            assert(n == lo + 0x1_0000_0000 * hi);
        } else if lo != 0 {
            digits.push(lo);
            assert(digits@.drop_first() =~= Seq::<u32>::empty());
            assert(digits_nat(digits@.drop_first()) == 0);
        }
        UInt { digits }
    }

    /// The number denoted by base-2^32 digits, least significant first
    /// (most significant zero digits are dropped).
    pub fn from_u32_digits(d: Vec<u32>) -> (r: UInt)
        ensures
            r@ == digits_nat(d@),
    {
        let mut d = d;
        let ghost orig = d@;
        while d.len() > 0 && d[d.len() - 1] == 0
            invariant
                digits_nat(d@) == digits_nat(orig),
            decreases d.len(),
        {
            let ghost before = d@;
            d.pop();
            proof {
                assert(before =~= d@.push(0u32));
                lemma_digits_nat_push(d@, 0u32);
            }
        }
        UInt { digits: d }
    }

    /// The canonical base-2^32 digits of the number, least significant first.
    pub fn to_u32_digits(&self) -> (r: Vec<u32>)
        ensures
            canonical(r@),
            digits_nat(r@) == self@,
    {
        proof { use_type_invariant(self); }
        let r = self.digits.clone();
        assert(r@ =~= self.digits@);
        r
    }

    /// The number denoted by a non-empty string of decimal digits.
    pub fn from_decimal(s: &str) -> (r: UInt)
        requires
            s@.len() > 0,
            all_decimal(s@),
        ensures
            r@ == decimal_value(s@),
    {
        match big_parse_decimal(s) {
            Some(d) => UInt { digits: d },
            None => UInt::zero(),
        }
    }

    /// The sum of two numbers.
    pub fn add(&self, other: &UInt) -> (r: UInt)
        ensures
            r@ == self@ + other@,
    {
        UInt { digits: big_add(&self.digits, &other.digits) }
    }

    /// The difference `self - other`, or `None` when `other` is larger.
    pub fn checked_sub(&self, other: &UInt) -> (r: Option<UInt>)
        ensures
            r is None <==> self@ < other@,
            r matches Some(d) ==> d@ == self@ - other@,
    {
        match big_checked_sub(&self.digits, &other.digits) {
            Some(d) => Some(UInt { digits: d }),
            None => None,
        }
    }

    /// Whether both numbers are equal.
    pub fn is_equal(&self, other: &UInt) -> (r: bool)
        ensures
            r == (self@ == other@),
    {
        big_eq(&self.digits, &other.digits)
    }

    /// Whether `self` is smaller than `other`.
    pub fn is_less(&self, other: &UInt) -> (r: bool)
        ensures
            r == (self@ < other@),
    {
        big_lt(&self.digits, &other.digits)
    }

    /// Whether the number is zero.
    pub fn is_zero(&self) -> (r: bool)
        ensures
            r == (self@ == 0),
    {
        big_eq(&self.digits, &Vec::new())
    }

    /// The decimal representation of the number.
    pub fn to_decimal(&self) -> (r: String)
        ensures
            r@ == decimal_string(self@),
    {
        big_to_string(&self.digits)
    }
}

impl Clone for UInt {
    fn clone(&self) -> (r: Self)
        ensures
            r@ == self@,
    {
        proof { use_type_invariant(self); }
        let d = self.digits.clone();
        assert(d@ =~= self.digits@);
        UInt { digits: d }
    }
}

} // verus!
