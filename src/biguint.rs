//! The big unsigned integer type and its arithmetic.

use vstd::prelude::*;

use crate::limbs::{
    base_pow, diff_limbs, is_canonical, lemma_base_pow_monotonic, lemma_canonical_unique,
    lemma_trim, lemma_value_bound, lemma_value_push, lemma_value_update, lemma_value_zeros,
    limb_base, sum_limbs, trim, value, zeros,
};

verus! {

/// An unsigned integer of any size, held as base-2^64 digits ("limbs"),
/// least significant first.
///
/// The limbs are open to inspection. Results of `+` and `-` are canonical (no
/// most-significant zero limb); `from_limbs` and `From<u64>` keep what they are
/// given, so `BigUint::from(0)` holds one zero limb.
pub struct BigUint {
    pub limbs: Vec<u64>,
}

impl View for BigUint {
    type V = Seq<u64>;

    open spec fn view(&self) -> Seq<u64> {
        self.limbs@
    }
}

impl BigUint {
    /// The canonical zero: no limbs at all.
    pub fn new() -> (r: Self)
        ensures
            r@ == Seq::<u64>::empty(),
    {
        BigUint { limbs: Vec::new() }
    }

    /// Takes the given limbs as they are, least significant first, without
    /// trimming most-significant zero limbs.
    pub fn from_limbs(limbs: &[u64]) -> (r: Self)
        ensures
            r@ == limbs@,
    {
        let mut v: Vec<u64> = Vec::new();
        let mut i: usize = 0;
        while i < limbs.len()
            invariant
                i <= limbs@.len(),
                v@ == limbs@.subrange(0, i as int),
            decreases limbs@.len() - i,
        {
            v.push(limbs[i]);
            i = i + 1;
        }
        proof {
            assert(limbs@.subrange(0, limbs@.len() as int) =~= limbs@);
        }
        BigUint { limbs: v }
    }
}

/// Adds two limbs: the low limb of the sum and whether it overflowed.
fn add_limb(x: u64, y: u64) -> (r: (u64, bool))
    ensures
        r.0 as nat + (if r.1 { limb_base() } else { 0 }) == x as nat + y as nat,
{
    if x <= u64::MAX - y {
        (x + y, false)
    } else {
        (x - (u64::MAX - y) - 1, true)
    }
}

/// Subtracts two limbs: the difference modulo 2^64 and whether it underflowed.
fn sub_limb(x: u64, y: u64) -> (r: (u64, bool))
    ensures
        r.0 as int - (if r.1 { limb_base() as int } else { 0 }) == x as int - y as int,
{
    if x >= y {
        (x - y, false)
    } else {
        (u64::MAX - (y - x) + 1, true)
    }
}

impl BigUint {
    /// Removes the most-significant zero limbs.
    fn min_limbs(&mut self)
        ensures
            final(self)@ == trim(old(self)@),
    {
        let ghost orig = self@;
        let mut i: usize = self.limbs.len();
        while i > 0
            invariant
                i == self@.len(),
                trim(self@) == trim(orig),
            ensures
                self@ == trim(orig),
            decreases i,
        {
            if self.limbs[i - 1] == 0 {
                self.limbs.pop();
                i = i - 1;
            } else {
                break;
            }
        }
    }

    /// A copy of these limbs, padded with zero limbs up to `capacity` limbs.
    fn clone_capacity(&self, capacity: usize) -> (r: Self)
        requires
            self@.len() <= capacity,
        ensures
            r@ == self@ + zeros((capacity - self@.len()) as nat),
    {
        let mut new_limbs: Vec<u64> = Vec::new();
        let mut i: usize = 0;
        while i < self.limbs.len()
            invariant
                i <= self@.len(),
                new_limbs@ == self@.subrange(0, i as int),
            decreases self@.len() - i,
        {
            new_limbs.push(self.limbs[i]);
            i = i + 1;
        }
        assert(self@.subrange(0, self@.len() as int) =~= self@);
        while i < capacity
            invariant
                self@.len() <= i <= capacity,
                new_limbs@ =~= self@ + zeros((i - self@.len()) as nat),
            decreases capacity - i,
        {
            new_limbs.push(0);
            i = i + 1;
        }
        BigUint { limbs: new_limbs }
    }
}

/// A one-limb number. Zero becomes a single zero limb, not the empty sequence.
impl From<u64> for BigUint {
    fn from(val: u64) -> (r: Self)
        ensures
            r@ == seq![val],
    {
        let mut limbs: Vec<u64> = Vec::new();
        limbs.push(val);
        BigUint { limbs }
    }
}

/// The result of `from` is stated by its own `ensures`, since a `BigUint`
/// cannot be written down in spec code.
impl vstd::std_specs::convert::FromSpecImpl<u64> for BigUint {
    open spec fn obeys_from_spec() -> bool {
        false
    }

    open spec fn from_spec(v: u64) -> BigUint {
        arbitrary()
    }
}

/// Operator contract for `&a + &b`: the lengths must leave room for the
/// extra carry limb. The result is stated by `add`'s own `ensures`, since a
/// `BigUint` cannot be written down in spec code.
impl<'a> vstd::std_specs::ops::AddSpecImpl for &'a BigUint {
    open spec fn obeys_add_spec() -> bool {
        false
    }

    open spec fn add_req(self, rhs: &'a BigUint) -> bool {
        self@.len() < usize::MAX && rhs@.len() < usize::MAX
    }

    open spec fn add_spec(self, rhs: &'a BigUint) -> BigUint {
        arbitrary()
    }
}

/// Schoolbook addition with carry propagation. The result is allocated one
/// limb longer than the longer operand, which absorbs the final carry.
impl<'a> core::ops::Add for &'a BigUint {
    type Output = BigUint;

    fn add(self, rhs: Self) -> (r: BigUint)
        ensures
            r@ == sum_limbs(self@, rhs@),
            value(r@) == value(self@) + value(rhs@),
            is_canonical(r@),
    {
        let longer: usize = if self.limbs.len() >= rhs.limbs.len() {
            self.limbs.len()
        } else {
            rhs.limbs.len()
        };
        let n: usize = longer + 1;
        let mut result = self.clone_capacity(n);
        let ghost padded = result@;
        let ghost b = rhs@;
        proof {
            lemma_value_zeros(self@, (n - self@.len()) as nat);
            assert(b.take(0) =~= Seq::<u64>::empty());
        }

        let mut carry: u64 = 0;
        let mut i: usize = 0;
        while i < rhs.limbs.len()
            invariant
                i <= b.len() < n,
                b == rhs@,
                result@.len() == n,
                carry <= 1,
                value(result@) + carry as nat * base_pow(i as nat) == value(padded) + value(
                    b.take(i as int),
                ),
            decreases b.len() - i,
        {
            let ghost before = result@;
            let x = result.limbs[i];
            let y = rhs.limbs[i];
            let (sum, overflow) = add_limb(x, carry);
            let ghost c = carry;
            carry = 0;
            if overflow {
                carry = 1;
            }
            let (sum, overflow) = add_limb(sum, y);
            if overflow {
                assert(carry == 0);
                carry = 1;
            }
            result.limbs.set(i, sum);
            proof {
                let p = base_pow(i as nat);
                lemma_value_update(before, i as int, sum);
                assert(b.take(i + 1) =~= b.take(i as int).push(y));
                lemma_value_push(b.take(i as int), y);
                assert(base_pow((i + 1) as nat) == limb_base() * p);
                let cn = carry as nat;
                assert(cn * (limb_base() * p) == (cn * limb_base()) * p) by (nonlinear_arith);
                assert(sum as nat * p + (cn * limb_base()) * p == (x as nat + c as nat + y as nat)
                    * p) by (nonlinear_arith)
                    requires
                        sum as nat + cn * limb_base() == x as nat + c as nat + y as nat,
                ;
                assert((x as nat + c as nat + y as nat) * p == x as nat * p + c as nat * p + y
                    as nat * p) by (nonlinear_arith);
            }
            i = i + 1;
        }
        proof {
            assert(b.take(b.len() as int) =~= b);
            lemma_value_bound(self@);
            lemma_value_bound(b);
            lemma_base_pow_monotonic(self@.len(), longer as nat);
            lemma_base_pow_monotonic(b.len(), longer as nat);
            assert(base_pow(n as nat) == limb_base() * base_pow(longer as nat));
        }

        loop
            invariant_except_break
                value(result@) + carry as nat * base_pow(i as nat) == value(padded) + value(b),
            invariant
                b.len() <= i < n,
                b == rhs@,
                result@.len() == n,
                carry <= 1,
                value(padded) + value(b) < 2 * base_pow(longer as nat),
                base_pow(n as nat) == limb_base() * base_pow(longer as nat),
                n == longer + 1,
            ensures
                result@.len() == n,
                value(result@) == value(padded) + value(b),
            decreases n - i,
        {
            let ghost before = result@;
            let x = result.limbs[i];
            let (sum, overflow) = add_limb(x, carry);
            result.limbs.set(i, sum);
            proof {
                let p = base_pow(i as nat);
                lemma_value_update(before, i as int, sum);
                assert(base_pow((i + 1) as nat) == limb_base() * p);
                let cn = carry as nat;
                assert(sum as nat * p + (if overflow { limb_base() * p } else { 0 }) == x as nat
                    * p + cn * p) by (nonlinear_arith)
                    requires
                        sum as nat + (if overflow { limb_base() } else { 0 }) == x as nat + cn,
                ;
            }
            if !overflow {
                break;
            }
            proof {
                lemma_value_bound(result@);
                if i + 1 >= n {
                    lemma_base_pow_monotonic(n as nat, (i + 1) as nat);
                    assert(limb_base() * base_pow(longer as nat) >= 2 * base_pow(longer as nat))
                        by (nonlinear_arith);
                }
            }
            i = i + 1;
        }

        let ghost untrimmed = result@;
        result.min_limbs();
        proof {
            lemma_trim(untrimmed);
            lemma_canonical_unique(result@);
        }
        result
    }
}

/// Operator contract for `a + b`, as for the borrowing form.
impl vstd::std_specs::ops::AddSpecImpl for BigUint {
    open spec fn obeys_add_spec() -> bool {
        false
    }

    open spec fn add_req(self, rhs: BigUint) -> bool {
        self@.len() < usize::MAX && rhs@.len() < usize::MAX
    }

    open spec fn add_spec(self, rhs: BigUint) -> BigUint {
        arbitrary()
    }
}

/// Consuming addition: forwards to `&a + &b`.
impl core::ops::Add for BigUint {
    type Output = BigUint;

    fn add(self, rhs: Self) -> (r: BigUint)
        ensures
            r@ == sum_limbs(self@, rhs@),
            value(r@) == value(self@) + value(rhs@),
            is_canonical(r@),
    {
        <&BigUint as core::ops::Add>::add(&self, &rhs)
    }
}

/// Operator contract for `a - b`, as for the borrowing form.
impl vstd::std_specs::ops::SubSpecImpl for BigUint {
    open spec fn obeys_sub_spec() -> bool {
        false
    }

    open spec fn sub_req(self, rhs: BigUint) -> bool {
        value(rhs@) <= value(self@)
    }

    open spec fn sub_spec(self, rhs: BigUint) -> BigUint {
        arbitrary()
    }
}

/// Consuming subtraction: forwards to `&a - &b`.
impl core::ops::Sub for BigUint {
    type Output = BigUint;

    fn sub(self, rhs: Self) -> (r: BigUint)
        ensures
            r@ == diff_limbs(self@, rhs@),
            value(r@) == value(self@) - value(rhs@),
            is_canonical(r@),
    {
        <&BigUint as core::ops::Sub>::sub(&self, &rhs)
    }
}

/// Operator contract for `&a - &b`: defined only where `b` does not exceed
/// `a`. The result is stated by `sub`'s own `ensures`, since a `BigUint`
/// cannot be written down in spec code.
impl<'a> vstd::std_specs::ops::SubSpecImpl for &'a BigUint {
    open spec fn obeys_sub_spec() -> bool {
        false
    }

    open spec fn sub_req(self, rhs: &'a BigUint) -> bool {
        value(rhs@) <= value(self@)
    }

    open spec fn sub_spec(self, rhs: &'a BigUint) -> BigUint {
        arbitrary()
    }
}

/// Schoolbook subtraction with borrow propagation. The result has as many
/// limbs as the longer operand; a borrow out of the top would be underflow,
/// which the precondition rules out.
impl<'a> core::ops::Sub for &'a BigUint {
    type Output = BigUint;

    fn sub(self, rhs: Self) -> (r: BigUint)
        ensures
            r@ == diff_limbs(self@, rhs@),
            value(r@) == value(self@) - value(rhs@),
            is_canonical(r@),
    {
        let n: usize = if self.limbs.len() >= rhs.limbs.len() {
            self.limbs.len()
        } else {
            rhs.limbs.len()
        };
        let mut result = self.clone_capacity(n);
        let ghost padded = result@;
        let ghost b = rhs@;
        proof {
            lemma_value_zeros(self@, (n - self@.len()) as nat);
            assert(b.take(0) =~= Seq::<u64>::empty());
        }

        let mut borrow: u64 = 0;
        let mut i: usize = 0;
        while i < rhs.limbs.len()
            invariant
                i <= b.len() <= n,
                b == rhs@,
                result@.len() == n,
                borrow <= 1,
                value(result@) + value(b.take(i as int)) == value(padded) + borrow as nat
                    * base_pow(i as nat),
            decreases b.len() - i,
        {
            let ghost before = result@;
            let x = result.limbs[i];
            let y = rhs.limbs[i];
            let (diff, overflow) = sub_limb(x, borrow);
            let ghost c = borrow;
            borrow = 0;
            if overflow {
                borrow = 1;
            }
            let (diff, overflow) = sub_limb(diff, y);
            if overflow {
                assert(borrow == 0);
                borrow = 1;
            }
            result.limbs.set(i, diff);
            proof {
                let p = base_pow(i as nat);
                lemma_value_update(before, i as int, diff);
                assert(b.take(i + 1) =~= b.take(i as int).push(y));
                lemma_value_push(b.take(i as int), y);
                assert(base_pow((i + 1) as nat) == limb_base() * p);
                let cn = borrow as nat;
                assert(cn * (limb_base() * p) == (cn * limb_base()) * p) by (nonlinear_arith);
                assert(diff as int * p + y as int * p + c as int * p == x as int * p + (cn
                    * limb_base()) * p) by (nonlinear_arith)
                    requires
                        diff as int - cn * limb_base() == x as int - c as int - y as int,
                ;
            }
            i = i + 1;
        }
        proof {
            assert(b.take(b.len() as int) =~= b);
        }

        while borrow != 0
            invariant_except_break
                value(result@) + value(b) == value(padded) + borrow as nat * base_pow(i as nat),
            invariant
                b.len() <= i <= n,
                b == rhs@,
                result@.len() == n,
                borrow <= 1,
                value(b) <= value(padded),
            ensures
                result@.len() == n,
                value(result@) + value(b) == value(padded),
            decreases n - i,
        {
            proof {
                lemma_value_bound(result@);
            }
            let ghost before = result@;
            let x = result.limbs[i];
            let (diff, overflow) = sub_limb(x, borrow);
            result.limbs.set(i, diff);
            proof {
                let p = base_pow(i as nat);
                lemma_value_update(before, i as int, diff);
                assert(base_pow((i + 1) as nat) == limb_base() * p);
                assert(diff as int * p + p == x as int * p + (if overflow {
                    limb_base() * p
                } else {
                    0
                })) by (nonlinear_arith)
                    requires
                        diff as int - (if overflow { limb_base() as int } else { 0 }) == x as int
                            - 1,
                ;
            }
            if !overflow {
                break;
            }
            i = i + 1;
        }

        let ghost untrimmed = result@;
        result.min_limbs();
        proof {
            lemma_trim(untrimmed);
            lemma_canonical_unique(result@);
        }
        result
    }
}

} // verus!
