use vstd::prelude::*;

verus! {

/// Mathematical greatest common divisor of two naturals, by the Euclidean
/// recursion.  This is the reference meaning of both the executable `gcd`
/// below and of the coprimality precondition of the ring parameters.
pub open spec fn gcd_nat(a: nat, b: nat) -> nat
    decreases b,
{
    if b == 0 {
        a
    } else {
        gcd_nat(b, a % b)
    }
}

/// `a` and `b` differ by an integer multiple of `m`.
pub open spec fn congruent(a: int, b: int, m: int) -> bool {
    exists|k: int| a - b == #[trigger] (k * m)
}

/// Greatest common divisor of `p0` and `q0` by Euclid's algorithm.
pub fn gcd(p0: u64, q0: u64) -> (r: u64)
    requires
        q0 >= 1,
    ensures
        r == gcd_nat(p0 as nat, q0 as nat),
        r >= 1,
{
    let mut p: u64 = p0;
    let mut q: u64 = q0;
    let mut m: u64 = p % q;
    while m != 0
        invariant
            q >= 1,
            m == p % q,
            gcd_nat(p as nat, q as nat) == gcd_nat(p0 as nat, q0 as nat),
        decreases m,
    {
        p = q;
        q = m;
        m = p % q;
    }
    assert(gcd_nat(p as nat, q as nat) == gcd_nat(q as nat, 0));
    q
}

/// The centered residue of `a` modulo `p`: a representative of the class of
/// `a` whose doubled magnitude is at most `p`.
pub fn mod_center(a: i64, p: u64) -> (r: i64)
    requires
        1 <= p <= 0x3fff_ffff_ffff_ffff,
    ensures
        congruent(r as int, a as int, p as int),
        2 * r <= p,
        -(p as int) <= 2 * r,
{
    let pi: i64 = p as i64;
    let result: i64 = a % pi;
    proof {
        lemma_trunc_rem_congruent(a as int, pi as int);
    }
    if result > (pi - 1) / 2 {
        proof {
            lemma_congruent_shift(result as int, a as int, pi as int, -1);
        }
        result - pi
    } else if result < -((pi - 1) / 2) {
        proof {
            lemma_congruent_shift(result as int, a as int, pi as int, 1);
        }
        result + pi
    } else {
        result
    }
}

/// The truncating remainder that `%` computes on signed machine integers is
/// congruent to the dividend.
proof fn lemma_trunc_rem_congruent(a: int, p: int)
    requires
        p >= 1,
    ensures
        congruent(trunc_rem(a, p), a, p),
{
    if a >= 0 {
        assert(a % p - a == -(a / p) * p) by (nonlinear_arith)
            requires p >= 1, a >= 0;
    } else {
        assert((a * -1) % p - (a * -1) == -((a * -1) / p) * p) by (nonlinear_arith)
            requires p >= 1, a < 0;
        assert(((a * -1) % p) * -1 - a == ((a * -1) / p) * p) by (nonlinear_arith)
            requires (a * -1) % p - (a * -1) == -((a * -1) / p) * p;
    }
}

/// The value of `%` on signed machine integers: the remainder truncates
/// toward zero, for a positive divisor.
pub open spec fn trunc_rem(a: int, p: int) -> int {
    if a >= 0 {
        a % p
    } else {
        ((a * -1) % p) * -1
    }
}

/// Shifting one side of a congruence by a multiple of the modulus keeps it.
proof fn lemma_congruent_shift(a: int, b: int, m: int, j: int)
    requires
        congruent(a, b, m),
    ensures
        congruent(a + j * m, b, m),
{
    let k = choose|k: int| a - b == #[trigger] (k * m);
    assert(a + j * m - b == (k + j) * m) by (nonlinear_arith)
        requires a - b == k * m;
}

} // verus!
