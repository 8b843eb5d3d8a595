use vstd::arithmetic::div_mod::lemma_div_denominator;
use vstd::arithmetic::div_mod::lemma_div_is_ordered;
use vstd::arithmetic::div_mod::lemma_div_multiples_vanish;
use vstd::arithmetic::div_mod::lemma_fundamental_div_mod;
use vstd::arithmetic::div_mod::lemma_fundamental_div_mod_converse;
use vstd::prelude::*;

verus! {

/// The fourth power tower: `4^k`.
pub open spec fn pow4(k: nat) -> int
    decreases k,
{
    if k == 0 {
        1
    } else {
        4 * pow4((k - 1) as nat)
    }
}

/// The fifth power tower: `5^k`.
pub open spec fn pow5(k: nat) -> int
    decreases k,
{
    if k == 0 {
        1
    } else {
        5 * pow5((k - 1) as nat)
    }
}

pub proof fn lemma_pow4_pos(k: nat)
    ensures
        pow4(k) >= 1,
    decreases k,
{
    if k > 0 {
        lemma_pow4_pos((k - 1) as nat);
    }
}

pub proof fn lemma_pow5_pos(k: nat)
    ensures
        pow5(k) >= 1,
    decreases k,
{
    if k > 0 {
        lemma_pow5_pos((k - 1) as nat);
    }
}

/// The doubling tower: `2^k`.
pub open spec fn pow2(k: nat) -> int
    decreases k,
{
    if k == 0 {
        1
    } else {
        2 * pow2((k - 1) as nat)
    }
}

proof fn lemma_pow2_add(a: nat, b: nat)
    ensures
        pow2(a + b) == pow2(a) * pow2(b),
    decreases b,
{
    if b == 0 {
        assert(pow2(0) == 1);
    } else {
        lemma_pow2_add(a, (b - 1) as nat);
        assert(pow2(a + b) == 2 * pow2((a + b - 1) as nat));
        assert(pow2(b) == 2 * pow2((b - 1) as nat));
        assert(2 * (pow2(a) * pow2((b - 1) as nat)) == pow2(a) * (2 * pow2((b - 1) as nat)))
            by (nonlinear_arith);
    }
}

proof fn lemma_pow2_65()
    ensures
        pow2(65) == 0x2_0000_0000_0000_0000,
{
    assert(pow2(0) == 1);
    assert(pow2(1) == 2);
    assert(pow2(2) == 4);
    assert(pow2(3) == 8);
    assert(pow2(4) == 16);
    assert(pow2(5) == 32);
    assert(pow2(6) == 64);
    assert(pow2(7) == 128);
    assert(pow2(8) == 256);
    lemma_pow2_add(8, 8);
    assert(pow2(16) == 0x1_0000);
    lemma_pow2_add(16, 16);
    assert(pow2(32) == 0x1_0000_0000);
    lemma_pow2_add(32, 32);
    assert(pow2(64) == 0x1_0000_0000_0000_0000);
    assert(pow2(65) == 2 * pow2(64));
}

/// Four more penalty steps scale the towers by 256 and 625.
proof fn lemma_four_steps(k: nat)
    ensures
        pow4(k + 4) == 256 * pow4(k),
        pow5(k + 4) == 625 * pow5(k),
{
    assert(pow4(k + 4) == 4 * pow4(k + 3));
    assert(pow4(k + 3) == 4 * pow4(k + 2));
    assert(pow4(k + 2) == 4 * pow4(k + 1));
    assert(pow4(k + 1) == 4 * pow4(k));
    assert(pow5(k + 4) == 5 * pow5(k + 3));
    assert(pow5(k + 3) == 5 * pow5(k + 2));
    assert(pow5(k + 2) == 5 * pow5(k + 1));
    assert(pow5(k + 1) == 5 * pow5(k));
}

/// Every four penalty steps, the five tower gains at least a factor of two
/// over the four tower: `(5/4)^4 > 2`.
proof fn lemma_ratio(j: nat)
    ensures
        pow5(4 * j) >= pow2(j) * pow4(4 * j),
        pow2(j) >= 1,
    decreases j,
{
    if j == 0 {
        assert(pow5(0) == 1 && pow4(0) == 1 && pow2(0) == 1);
    } else {
        lemma_ratio((j - 1) as nat);
        lemma_four_steps((4 * (j - 1)) as nat);
        lemma_pow4_pos((4 * (j - 1)) as nat);
        assert(4 * j == 4 * (j - 1) + 4);
        assert(pow2(j) == 2 * pow2((j - 1) as nat));
        assert(625 * pow5((4 * (j - 1)) as nat) >= (2 * pow2((j - 1) as nat)) * (256 * pow4(
            (4 * (j - 1)) as nat,
        ))) by (nonlinear_arith)
            requires
                pow5((4 * (j - 1)) as nat) >= pow2((j - 1) as nat) * pow4((4 * (j - 1)) as nat),
                pow2((j - 1) as nat) >= 1,
                pow4((4 * (j - 1)) as nat) >= 1,
        ;
    }
}

/// From two hundred and sixty penalties on, the four-fifths factors
/// outweigh any value the scorer can start from.
proof fn lemma_shrink(k: nat)
    requires
        k >= 260,
    ensures
        0x2_0000_0000_0000_0000 * pow4(k) <= pow5(k),
    decreases k,
{
    if k == 260 {
        lemma_ratio(65);
        lemma_pow2_65();
        assert(4 * 65 == 260);
    } else {
        lemma_shrink((k - 1) as nat);
        lemma_pow5_pos((k - 1) as nat);
        assert(0x2_0000_0000_0000_0000 * pow4(k) == 4 * (0x2_0000_0000_0000_0000 * pow4(
            (k - 1) as nat,
        ))) by (nonlinear_arith)
            requires
                pow4(k) == 4 * pow4((k - 1) as nat),
        ;
        assert(4 * (0x2_0000_0000_0000_0000 * pow4((k - 1) as nat)) <= 4 * pow5((k - 1) as nat));
        assert(4 * pow5((k - 1) as nat) <= 5 * pow5((k - 1) as nat));
    }
}

/// A value of the scorer's size scaled by `(4/5)^k` vanishes entirely once
/// `k` reaches two hundred and sixty.
proof fn lemma_big_k_zero(n: int, k: nat)
    requires
        0 <= n <= 0x2_8000_0000_0000_0000,
        k >= 260,
    ensures
        n * pow4(k) / (2 * pow5(k)) == 0,
{
    lemma_shrink(k);
    lemma_pow4_pos(k);
    lemma_pow5_pos(k);
    assert(0 <= n * pow4(k) < 2 * pow5(k)) by (nonlinear_arith)
        requires
            0 <= n <= 0x2_8000_0000_0000_0000,
            0x2_0000_0000_0000_0000 * pow4(k) <= pow5(k),
            pow4(k) >= 1,
    ;
    lemma_fundamental_div_mod_converse(n * pow4(k), 2 * pow5(k), 0, n * pow4(k));
}

/// The number a little-endian limb sequence stands for, base `2^64`.
pub open spec fn limbs_value(s: Seq<u64>) -> int
    decreases s.len(),
{
    if s.len() == 0 {
        0
    } else {
        s[0] + 0x1_0000_0000_0000_0000 * limbs_value(s.drop_first())
    }
}

/// The place value of limb position `n`: `(2^64)^n`.
pub open spec fn place(n: nat) -> int
    decreases n,
{
    if n == 0 {
        1
    } else {
        0x1_0000_0000_0000_0000 * place((n - 1) as nat)
    }
}

proof fn lemma_limbs_nonneg(s: Seq<u64>)
    ensures
        limbs_value(s) >= 0,
    decreases s.len(),
{
    if s.len() > 0 {
        lemma_limbs_nonneg(s.drop_first());
    }
}

/// Appending a limb adds it at the next place value.
proof fn lemma_limbs_push(s: Seq<u64>, x: u64)
    ensures
        limbs_value(s.push(x)) == limbs_value(s) + place(s.len()) * x,
    decreases s.len(),
{
    assert(s.push(x).len() > 0);
    assert(limbs_value(s.push(x)) == s.push(x)[0] + 0x1_0000_0000_0000_0000 * limbs_value(
        s.push(x).drop_first(),
    ));
    if s.len() == 0 {
        assert(s.push(x)[0] == x);
        assert(s.push(x).drop_first() =~= Seq::<u64>::empty());
        assert(limbs_value(Seq::<u64>::empty()) == 0);
        assert(limbs_value(s) == 0);
        assert(place(0nat) == 1);
    } else {
        assert(s.push(x)[0] == s[0]);
        assert(s.push(x).drop_first() =~= s.drop_first().push(x));
        lemma_limbs_push(s.drop_first(), x);
        assert(limbs_value(s.push(x).drop_first()) == limbs_value(s.drop_first()) + place(
            (s.len() - 1) as nat,
        ) * x);
        assert(place(s.len()) == 0x1_0000_0000_0000_0000 * place((s.len() - 1) as nat));
        assert(s[0] + 0x1_0000_0000_0000_0000 * (limbs_value(s.drop_first()) + place(
            (s.len() - 1) as nat,
        ) * x) == limbs_value(s) + place(s.len()) * x) by (nonlinear_arith)
            requires
                limbs_value(s) == s[0] + 0x1_0000_0000_0000_0000 * limbs_value(s.drop_first()),
                place(s.len()) == 0x1_0000_0000_0000_0000 * place((s.len() - 1) as nat),
        ;
    }
}

/// A limb sequence splits at any position into its low part plus its high
/// part at that position's place value.
proof fn lemma_limbs_split(s: Seq<u64>, i: int)
    requires
        0 <= i <= s.len(),
    ensures
        limbs_value(s) == limbs_value(s.take(i)) + place(i as nat) * limbs_value(s.skip(i)),
    decreases i,
{
    if i == 0 {
        assert(s.take(0) =~= Seq::<u64>::empty());
        assert(s.skip(0) =~= s);
    } else {
        lemma_limbs_split(s, i - 1);
        assert(s.take(i) =~= s.take(i - 1).push(s[i - 1]));
        lemma_limbs_push(s.take(i - 1), s[i - 1]);
        assert(s.skip(i - 1)[0] == s[i - 1]);
        assert(s.skip(i - 1).drop_first() =~= s.skip(i));
        assert(limbs_value(s.skip(i - 1)) == s[i - 1] + 0x1_0000_0000_0000_0000 * limbs_value(
            s.skip(i),
        ));
        assert(place(i as nat) == 0x1_0000_0000_0000_0000 * place((i - 1) as nat));
        assert(limbs_value(s.take(i - 1)) + place((i - 1) as nat) * (s[i - 1]
            + 0x1_0000_0000_0000_0000 * limbs_value(s.skip(i))) == (limbs_value(s.take(i - 1))
            + place((i - 1) as nat) * s[i - 1]) + place(i as nat) * limbs_value(s.skip(i)))
            by (nonlinear_arith)
            requires
                place(i as nat) == 0x1_0000_0000_0000_0000 * place((i - 1) as nat),
        ;
    }
}

/// The two starting limbs of a machine-word value.
fn from_u128(x: u128) -> (r: Vec<u64>)
    ensures
        limbs_value(r@) == x,
        r@.len() == 2,
{
    let lo: u64 = (x % 0x1_0000_0000_0000_0000) as u64;
    let hi: u64 = (x / 0x1_0000_0000_0000_0000) as u64;
    let mut r: Vec<u64> = Vec::new();
    r.push(lo);
    r.push(hi);
    proof {
        lemma_fundamental_div_mod(x as int, 0x1_0000_0000_0000_0000);
        assert(r@[0] == lo);
        assert(r@.drop_first() =~= seq![hi]);
        assert(r@.drop_first().drop_first() =~= Seq::<u64>::empty());
        assert(limbs_value(r@.drop_first().drop_first()) == 0);
        assert(limbs_value(r@.drop_first()) == r@.drop_first()[0] + 0x1_0000_0000_0000_0000
            * limbs_value(r@.drop_first().drop_first()));
        assert(limbs_value(r@) == r@[0] + 0x1_0000_0000_0000_0000 * limbs_value(r@.drop_first()));
        assert(limbs_value(r@) == lo + 0x1_0000_0000_0000_0000 * (hi as int));
    }
    r
}

/// The algebra of one multiply-with-carry step.
proof fn lemma_mul_step(
    vout: int,
    vin: int,
    vin2: int,
    a_i: int,
    m: int,
    carry: int,
    c2: int,
    limb: int,
    p: int,
)
    requires
        vout + p * carry == m * vin,
        vin2 == vin + p * a_i,
        a_i * m + carry == c2 * 0x1_0000_0000_0000_0000 + limb,
    ensures
        (vout + p * limb) + (0x1_0000_0000_0000_0000 * p) * c2 == m * vin2,
{
    assert((vout + p * limb) + (0x1_0000_0000_0000_0000 * p) * c2 == m * vin2)
        by (nonlinear_arith)
        requires
            vout + p * carry == m * vin,
            vin2 == vin + p * a_i,
            a_i * m + carry == c2 * 0x1_0000_0000_0000_0000 + limb,
    ;
}

/// Multiplies a limb number by a small factor, exactly.
fn mul_small(a: &Vec<u64>, m: u64) -> (r: Vec<u64>)
    ensures
        limbs_value(r@) == m * limbs_value(a@),
        r@.len() >= a@.len(),
{
    let mut out: Vec<u64> = Vec::new();
    let mut carry: u64 = 0;
    let mut i: usize = 0;
    proof {
        assert(a@.take(0) =~= Seq::<u64>::empty());
    }
    while i < a.len()
        invariant
            i <= a@.len(),
            out@.len() == i,
            carry <= m,
            limbs_value(out@) + place(i as nat) * (carry as int) == m * limbs_value(
                a@.take(i as int),
            ),
        decreases a@.len() - i,
    {
        proof {
            assert((a@[i as int] as int) * (m as int) <= 0xffff_ffff_ffff_ffff
                * 0xffff_ffff_ffff_ffff) by (nonlinear_arith)
                requires
                    a@[i as int] <= 0xffff_ffff_ffff_ffff,
                    m <= 0xffff_ffff_ffff_ffff,
            ;
        }
        let cur: u128 = (a[i] as u128) * (m as u128) + (carry as u128);
        let limb: u64 = (cur % 0x1_0000_0000_0000_0000) as u64;
        let c2: u64 = (cur / 0x1_0000_0000_0000_0000) as u64;
        proof {
            lemma_fundamental_div_mod(cur as int, 0x1_0000_0000_0000_0000);
            // the outgoing carry stays at most the factor
            assert(cur as int <= 0x1_0000_0000_0000_0000 * (m as int)) by (nonlinear_arith)
                requires
                    cur as int == (a@[i as int] as int) * (m as int) + carry,
                    a@[i as int] <= 0xffff_ffff_ffff_ffff,
                    carry <= m,
            ;
            lemma_div_is_ordered(
                cur as int,
                0x1_0000_0000_0000_0000 * (m as int),
                0x1_0000_0000_0000_0000,
            );
            lemma_div_multiples_vanish(m as int, 0x1_0000_0000_0000_0000);
        }
        let ghost out0: Seq<u64> = out@;
        out.push(limb);
        proof {
            lemma_limbs_push(out0, limb);
            assert(a@.take(i as int + 1) =~= a@.take(i as int).push(a@[i as int]));
            lemma_limbs_push(a@.take(i as int), a@[i as int]);
            lemma_mul_step(
                limbs_value(out0),
                limbs_value(a@.take(i as int)),
                limbs_value(a@.take(i as int + 1)),
                a@[i as int] as int,
                m as int,
                carry as int,
                c2 as int,
                limb as int,
                place(i as nat),
            );
            assert(place(i as nat + 1) == 0x1_0000_0000_0000_0000 * place(i as nat));
        }
        carry = c2;
        i = i + 1;
    }
    proof {
        assert(a@.take(a@.len() as int) =~= a@);
    }
    if carry > 0 {
        let ghost out0: Seq<u64> = out@;
        out.push(carry);
        proof {
            lemma_limbs_push(out0, carry);
        }
    }
    out
}

/// Divides a limb number by a small positive divisor, truncating.
fn div_small(a: &Vec<u64>, d: u64) -> (r: Vec<u64>)
    requires
        0 < d < 0x8000_0000_0000_0000,
    ensures
        limbs_value(r@) == limbs_value(a@) / (d as int),
        r@.len() == a@.len(),
{
    let mut q: Vec<u64> = Vec::new();
    let mut z: usize = 0;
    while z < a.len()
        invariant
            q@.len() == z <= a@.len(),
        decreases a@.len() - z,
    {
        q.push(0);
        z = z + 1;
    }
    let mut rem: u64 = 0;
    let mut i: usize = a.len();
    proof {
        assert(a@.skip(a@.len() as int) =~= Seq::<u64>::empty());
        assert(q@.skip(a@.len() as int) =~= Seq::<u64>::empty());
    }
    while i > 0
        invariant
            i <= a@.len(),
            q@.len() == a@.len(),
            rem < d,
            d < 0x8000_0000_0000_0000,
            (d as int) * limbs_value(q@.skip(i as int)) + rem == limbs_value(a@.skip(i as int)),
        decreases i,
    {
        i = i - 1;
        proof {
            assert((rem as int) * 0x1_0000_0000_0000_0000 < (d as int)
                * 0x1_0000_0000_0000_0000) by (nonlinear_arith)
                requires
                    rem < d,
            ;
        }
        let cur: u128 = (rem as u128) * 0x1_0000_0000_0000_0000 + (a[i] as u128);
        let qi_wide: u128 = cur / (d as u128);
        let rem2: u64 = (cur % (d as u128)) as u64;
        proof {
            lemma_fundamental_div_mod(cur as int, d as int);
            // the quotient digit fits one limb
            assert(cur as int <= (d as int) * 0x1_0000_0000_0000_0000 - 1) by (nonlinear_arith)
                requires
                    cur as int == (rem as int) * 0x1_0000_0000_0000_0000 + a@[i as int],
                    rem as int <= d - 1,
                    a@[i as int] < 0x1_0000_0000_0000_0000,
            ;
            assert(qi_wide as int <= 0xffff_ffff_ffff_ffff) by (nonlinear_arith)
                requires
                    cur as int == (d as int) * (qi_wide as int) + (cur as int) % (d as int),
                    (cur as int) % (d as int) >= 0,
                    cur as int <= (d as int) * 0x1_0000_0000_0000_0000 - 1,
                    d >= 1,
            ;
        }
        let qi: u64 = qi_wide as u64;
        let ghost q0: Seq<u64> = q@;
        q.set(i, qi);
        proof {
            assert(q@.skip(i as int)[0] == qi);
            assert(q@.skip(i as int).drop_first() =~= q0.skip(i as int + 1));
            assert(a@.skip(i as int)[0] == a@[i as int]);
            assert(a@.skip(i as int).drop_first() =~= a@.skip(i as int + 1));
            assert((d as int) * limbs_value(q@.skip(i as int)) + rem2 == limbs_value(
                a@.skip(i as int),
            )) by (nonlinear_arith)
                requires
                    limbs_value(q@.skip(i as int)) == qi + 0x1_0000_0000_0000_0000 * limbs_value(
                        q0.skip(i as int + 1),
                    ),
                    limbs_value(a@.skip(i as int)) == a@[i as int] + 0x1_0000_0000_0000_0000
                        * limbs_value(a@.skip(i as int + 1)),
                    (d as int) * limbs_value(q0.skip(i as int + 1)) + rem == limbs_value(
                        a@.skip(i as int + 1),
                    ),
                    (rem as int) * 0x1_0000_0000_0000_0000 + a@[i as int] == (d as int) * (
                    qi as int) + rem2,
            ;
        }
        rem = rem2;
    }
    proof {
        assert(a@.skip(0) =~= a@);
        assert(q@.skip(0) =~= q@);
        lemma_limbs_nonneg(q@);
        assert(limbs_value(a@) == limbs_value(q@) * (d as int) + rem) by (nonlinear_arith)
            requires
                (d as int) * limbs_value(q@) + rem == limbs_value(a@),
        ;
        lemma_fundamental_div_mod_converse(
            limbs_value(a@),
            d as int,
            limbs_value(q@),
            rem as int,
        );
    }
    q
}

/// Reads a limb number that fits a machine word back out.
fn to_u128(a: &Vec<u64>) -> (r: u128)
    requires
        a@.len() >= 2,
        limbs_value(a@) < 0x1_0000_0000_0000_0000_0000_0000_0000_0000,
    ensures
        r == limbs_value(a@),
{
    proof {
        lemma_limbs_split(a@, 2);
        lemma_limbs_nonneg(a@.skip(2));
        lemma_limbs_nonneg(a@.take(2));
        assert(place(0nat) == 1);
        assert(place(1nat) == 0x1_0000_0000_0000_0000 * place(0nat));
        assert(place(2nat) == 0x1_0000_0000_0000_0000 * place(1nat));
        assert(place(2) == 0x1_0000_0000_0000_0000_0000_0000_0000_0000);
        if limbs_value(a@.skip(2)) > 0 {
            assert(place(2) * limbs_value(a@.skip(2)) >= place(2)) by (nonlinear_arith)
                requires
                    limbs_value(a@.skip(2)) >= 1,
                    place(2) == 0x1_0000_0000_0000_0000_0000_0000_0000_0000,
            ;
            assert(false);
        }
        assert(a@.take(2)[0] == a@[0]);
        assert(a@.take(2).drop_first() =~= seq![a@[1]]);
        assert(a@.take(2).drop_first().drop_first() =~= Seq::<u64>::empty());
        assert(limbs_value(a@.take(2).drop_first().drop_first()) == 0);
        assert(limbs_value(a@.take(2).drop_first()) == a@.take(2).drop_first()[0]
            + 0x1_0000_0000_0000_0000 * limbs_value(a@.take(2).drop_first().drop_first()));
        assert(limbs_value(a@.take(2)) == a@.take(2)[0] + 0x1_0000_0000_0000_0000 * limbs_value(
            a@.take(2).drop_first(),
        ));
        assert(limbs_value(a@.take(2)) == a@[0] + 0x1_0000_0000_0000_0000 * (a@[1] as int));
        assert(limbs_value(a@.skip(2)) == 0);
        assert(place(2) * limbs_value(a@.skip(2)) == 0) by (nonlinear_arith)
            requires
                limbs_value(a@.skip(2)) == 0,
        ;
        assert(limbs_value(a@) == limbs_value(a@.take(2)));
    }
    (a[0] as u128) + 0x1_0000_0000_0000_0000 * (a[1] as u128)
}

/// The value `n * 4^k / (2 * 5^k)`, truncated toward zero, computed exactly
/// however many times the four-fifths penalty stacks.
pub fn pow45_div(n: u128, k: usize) -> (r: u128)
    requires
        n <= 0x2_8000_0000_0000_0000,
    ensures
        r as int == (n as int) * pow4(k as nat) / (2 * pow5(k as nat)),
        r <= n,
{
    if k >= 260 {
        proof {
            lemma_big_k_zero(n as int, k as nat);
        }
        return 0;
    }
    let mut big: Vec<u64> = from_u128(n);
    let mut i: usize = 0;
    while i < k
        invariant
            i <= k,
            big@.len() >= 2,
            limbs_value(big@) == n * pow4(i as nat),
        decreases k - i,
    {
        let next: Vec<u64> = mul_small(&big, 4);
        proof {
            assert(pow4(i as nat + 1) == 4 * pow4(i as nat));
            assert(4 * ((n as int) * pow4(i as nat)) == (n as int) * pow4(i as nat + 1))
                by (nonlinear_arith)
                requires
                    pow4(i as nat + 1) == 4 * pow4(i as nat),
            ;
        }
        big = next;
        i = i + 1;
    }
    let ghost scaled: int = (n as int) * pow4(k as nat);
    proof {
        lemma_pow4_pos(k as nat);
        assert(scaled >= 0) by (nonlinear_arith)
            requires
                scaled == (n as int) * pow4(k as nat),
                n >= 0,
                pow4(k as nat) >= 1,
        ;
    }
    let mut j: usize = 0;
    while j < k
        invariant
            j <= k,
            big@.len() >= 2,
            scaled == (n as int) * pow4(k as nat),
            scaled >= 0,
            limbs_value(big@) == scaled / pow5(j as nat),
        decreases k - j,
    {
        proof {
            lemma_pow5_pos(j as nat);
        }
        let next: Vec<u64> = div_small(&big, 5);
        proof {
            lemma_div_denominator(scaled, pow5(j as nat), 5);
            assert(pow5(j as nat + 1) == 5 * pow5(j as nat));
            assert(pow5(j as nat) * 5 == 5 * pow5(j as nat));
        }
        big = next;
        j = j + 1;
    }
    proof {
        lemma_pow5_pos(k as nat);
    }
    let last: Vec<u64> = div_small(&big, 2);
    proof {
        lemma_div_denominator(scaled, pow5(k as nat), 2);
        assert(pow5(k as nat) * 2 == 2 * pow5(k as nat));
        assert(limbs_value(last@) == scaled / (2 * pow5(k as nat)));
        // dividing by at least as many fives as fours never grows the value
        lemma_pow45_le(k as nat);
        assert(scaled <= (n as int) * (2 * pow5(k as nat))) by (nonlinear_arith)
            requires
                scaled == (n as int) * pow4(k as nat),
                pow4(k as nat) <= pow5(k as nat),
                pow5(k as nat) >= 1,
                n >= 0,
        ;
        lemma_div_is_ordered(scaled, (n as int) * (2 * pow5(k as nat)), 2 * pow5(k as nat));
        lemma_div_multiples_vanish(n as int, 2 * pow5(k as nat));
        assert((2 * pow5(k as nat)) * (n as int) == (n as int) * (2 * pow5(k as nat)))
            by (nonlinear_arith);
        assert(limbs_value(last@) <= n);
    }
    to_u128(&last)
}

proof fn lemma_pow45_le(k: nat)
    ensures
        1 <= pow4(k) <= pow5(k),
    decreases k,
{
    if k > 0 {
        lemma_pow45_le((k - 1) as nat);
        assert(4 * pow4((k - 1) as nat) <= 5 * pow5((k - 1) as nat));
    }
}

} // verus!
