//! The mathematical model of a limb sequence: the number it stands for,
//! canonical form, and the canonical limbs of a number.

use vstd::arithmetic::div_mod::{lemma_fundamental_div_mod, lemma_fundamental_div_mod_converse};
use vstd::prelude::*;

verus! {

/// The base of one limb: 2^64.
pub open spec fn limb_base() -> nat {
    0x1_0000_0000_0000_0000
}

/// The number that a little-endian limb sequence stands for:
/// `s[0] + 2^64 * s[1] + 2^128 * s[2] + ...`.
pub open spec fn value(s: Seq<u64>) -> nat
    decreases s.len(),
{
    if s.len() == 0 {
        0
    } else {
        s[0] as nat + limb_base() * value(s.skip(1))
    }
}

/// No most-significant limb is zero; the empty sequence is the canonical zero.
pub open spec fn is_canonical(s: Seq<u64>) -> bool {
    s.len() == 0 || s.last() != 0
}


/// `limb_base()` raised to the power `n`: the weight of the limb at index `n`.
pub open spec fn base_pow(n: nat) -> nat
    decreases n,
{
    if n == 0 {
        1
    } else {
        limb_base() * base_pow((n - 1) as nat)
    }
}

/// The canonical limbs of `n`, least significant first.
pub open spec fn limbs_of(n: nat) -> Seq<u64>
    decreases n,
{
    if n == 0 {
        Seq::empty()
    } else {
        seq![(n % limb_base()) as u64] + limbs_of(n / limb_base())
    }
}

/// `s` with every most-significant zero limb removed.
pub open spec fn trim(s: Seq<u64>) -> Seq<u64>
    decreases s.len(),
{
    if s.len() > 0 && s.last() == 0 {
        trim(s.drop_last())
    } else {
        s
    }
}

/// `n` zero limbs.
pub open spec fn zeros(n: nat) -> Seq<u64> {
    Seq::new(n, |_i: int| 0u64)
}

/// The canonical limbs of the sum of the numbers that `a` and `b` stand for.
pub open spec fn sum_limbs(a: Seq<u64>, b: Seq<u64>) -> Seq<u64> {
    limbs_of(value(a) + value(b))
}

/// The canonical limbs of the difference of the numbers that `a` and `b`
/// stand for; meaningful where `value(b) <= value(a)`.
pub open spec fn diff_limbs(a: Seq<u64>, b: Seq<u64>) -> Seq<u64> {
    limbs_of((value(a) - value(b)) as nat)
}

pub proof fn lemma_base_pow_monotonic(m: nat, n: nat)
    requires
        m <= n,
    ensures
        1 <= base_pow(m) <= base_pow(n),
    decreases n,
{
    if n > 0 {
        if m < n {
            lemma_base_pow_monotonic(m, (n - 1) as nat);
        } else {
            lemma_base_pow_monotonic(0, (n - 1) as nat);
        }
    }
}

/// Appending a most-significant limb `x` adds `x` times its weight.
pub proof fn lemma_value_push(s: Seq<u64>, x: u64)
    ensures
        value(s.push(x)) == value(s) + x as nat * base_pow(s.len()),
    decreases s.len(),
{
    if s.len() == 0 {
        assert(s.push(x).skip(1) =~= Seq::<u64>::empty());
        assert(value(s.push(x).skip(1)) == 0);
        assert(s.push(x)[0] == x);
        assert(limb_base() * 0 == 0);
        assert(base_pow(0) == 1);
        assert(x as nat * 1 == x as nat);
    } else {
        assert(s.push(x).skip(1) =~= s.skip(1).push(x));
        lemma_value_push(s.skip(1), x);
        let p = base_pow((s.len() - 1) as nat);
        let v = value(s.skip(1));
        let xn = x as nat;
        assert(base_pow(s.len()) == limb_base() * p);
        assert(s.push(x)[0] == s[0]);
        assert(value(s.push(x)) == s[0] as nat + limb_base() * (v + xn * p));
        assert(limb_base() * (v + xn * p) == limb_base() * v + xn * (limb_base() * p))
            by (nonlinear_arith);
    }
}

/// Replacing the limb at `i` by `x` changes the value by the difference
/// times the limb's weight.
pub proof fn lemma_value_update(s: Seq<u64>, i: int, x: u64)
    requires
        0 <= i < s.len(),
    ensures
        value(s.update(i, x)) + s[i] as nat * base_pow(i as nat) == value(s) + x as nat
            * base_pow(i as nat),
    decreases i,
{
    if i == 0 {
        assert(s.update(0, x).skip(1) =~= s.skip(1));
        assert(s.update(0, x)[0] == x);
        assert(value(s.update(0, x)) == x as nat + limb_base() * value(s.skip(1)));
        assert(value(s) == s[0] as nat + limb_base() * value(s.skip(1)));
        assert(base_pow(0) == 1);
        assert(x as nat * 1 == x as nat);
        assert(s[0] as nat * 1 == s[0] as nat);
    } else {
        assert(s.update(i, x).skip(1) =~= s.skip(1).update(i - 1, x));
        lemma_value_update(s.skip(1), i - 1, x);
        let p = base_pow((i - 1) as nat);
        let v = value(s.skip(1));
        let w = value(s.skip(1).update(i - 1, x));
        let y = s[i] as nat;
        let xn = x as nat;
        assert(base_pow(i as nat) == limb_base() * p);
        assert(s.update(i, x)[0] == s[0]);
        assert(s.skip(1)[i - 1] == s[i]);
        assert(value(s.update(i, x)) == s[0] as nat + limb_base() * w);
        assert(limb_base() * (w + y * p) == limb_base() * w + y * (limb_base() * p))
            by (nonlinear_arith);
        assert(limb_base() * (v + xn * p) == limb_base() * v + xn * (limb_base() * p))
            by (nonlinear_arith);
    }
}

/// A sequence of `n` limbs stands for less than `base_pow(n)`.
pub proof fn lemma_value_bound(s: Seq<u64>)
    ensures
        value(s) < base_pow(s.len()),
    decreases s.len(),
{
    if s.len() > 0 {
        lemma_value_bound(s.skip(1));
        let v = value(s.skip(1));
        let p = base_pow((s.len() - 1) as nat);
        assert(limb_base() * (v + 1) <= limb_base() * p) by (nonlinear_arith)
            requires
                v + 1 <= p,
        ;
        assert(limb_base() * (v + 1) == limb_base() * v + limb_base()) by (nonlinear_arith);
    }
}

/// Zero limbs on the most-significant side do not change the value.
pub proof fn lemma_value_zeros(s: Seq<u64>, n: nat)
    ensures
        value(s + zeros(n)) == value(s),
    decreases n,
{
    if n == 0 {
        assert(s + zeros(0) =~= s);
    } else {
        let m = (n - 1) as nat;
        assert(s + zeros(n) =~= (s + zeros(m)).push(0u64));
        lemma_value_zeros(s, m);
        lemma_value_push(s + zeros(m), 0u64);
    }
}

/// Trimming keeps the value and yields a canonical sequence.
pub proof fn lemma_trim(s: Seq<u64>)
    ensures
        value(trim(s)) == value(s),
        is_canonical(trim(s)),
    decreases s.len(),
{
    if s.len() > 0 && s.last() == 0 {
        assert(s =~= s.drop_last().push(0u64));
        lemma_value_push(s.drop_last(), 0u64);
        lemma_trim(s.drop_last());
    }
}

/// A canonical sequence is left as it is by trimming.
pub proof fn lemma_trim_canonical(s: Seq<u64>)
    requires
        is_canonical(s),
    ensures
        trim(s) == s,
{
}

/// Normalization is idempotent: trimming a trimmed sequence changes nothing.
pub proof fn lemma_trim_idempotent(s: Seq<u64>)
    ensures
        trim(trim(s)) == trim(s),
{
    lemma_trim(s);
    lemma_trim_canonical(trim(s));
}

/// `limbs_of(n)` is canonical and stands for `n`.
pub proof fn lemma_limbs_of(n: nat)
    ensures
        value(limbs_of(n)) == n,
        is_canonical(limbs_of(n)),
    decreases n,
{
    if n > 0 {
        let q = n / limb_base();
        let r = n % limb_base();
        lemma_fundamental_div_mod(n as int, limb_base() as int);
        lemma_limbs_of(q);
        let s = limbs_of(n);
        assert(s.skip(1) =~= limbs_of(q));
        if q > 0 {
            assert(limbs_of(q).len() > 0);
            assert(s.last() == limbs_of(q).last());
        } else {
            assert(s.len() == 1);
        }
    }
}

/// A canonical sequence with a limb stands for a positive number.
pub proof fn lemma_value_positive(s: Seq<u64>)
    requires
        s.len() > 0,
        s.last() != 0,
    ensures
        value(s) > 0,
    decreases s.len(),
{
    if s.len() > 1 {
        assert(s.skip(1).last() == s.last());
        lemma_value_positive(s.skip(1));
        let v = value(s.skip(1));
        assert(limb_base() * v > 0) by (nonlinear_arith)
            requires
                v > 0,
        ;
    }
}

/// A canonical sequence is the canonical limbs of its own value.
pub proof fn lemma_canonical_unique(s: Seq<u64>)
    requires
        is_canonical(s),
    ensures
        limbs_of(value(s)) == s,
    decreases s.len(),
{
    if s.len() > 0 {
        let t = s.skip(1);
        if t.len() > 0 {
            assert(t.last() == s.last());
        }
        lemma_canonical_unique(t);
        lemma_value_positive(s);
        let n = value(s);
        lemma_fundamental_div_mod_converse(
            n as int,
            limb_base() as int,
            value(t) as int,
            s[0] as int,
        );
        assert(limbs_of(n) =~= seq![s[0]] + t);
        assert(s =~= seq![s[0]] + t);
    }
}

/// Addition is commutative.
pub proof fn lemma_add_commutative(a: Seq<u64>, b: Seq<u64>)
    ensures
        sum_limbs(a, b) == sum_limbs(b, a),
{
}

/// On canonical operands, subtracting either operand from their sum gives
/// back the other one, limb for limb.
pub proof fn lemma_add_sub_round_trip(a: Seq<u64>, b: Seq<u64>)
    requires
        is_canonical(a),
        is_canonical(b),
    ensures
        diff_limbs(sum_limbs(a, b), b) == a,
        diff_limbs(sum_limbs(a, b), a) == b,
{
    lemma_limbs_of(value(a) + value(b));
    lemma_canonical_unique(a);
    lemma_canonical_unique(b);
}

} // verus!
