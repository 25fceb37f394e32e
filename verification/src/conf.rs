//! Confidence values with deterministic lattice operations.
//!
//! A [`Conf`] is a confidence in `[0, 1]`, held exactly as an integer number of
//! millionths, so that every operation is reproducible bit-for-bit on every
//! platform and the lattice laws hold exactly. AND-combination is the product,
//! OR-combination is the noisy-or `1 - (1-a)(1-b)`; both round the product
//! down to the nearest millionth.
use vstd::prelude::*;

verus! {

/// The number of millionths in a confidence of `1.0`.
pub const CONF_SCALE: u32 = 1_000_000;

/// The millionths of `a AND b`: the product, rounded down.
pub open spec fn conf_and(a: nat, b: nat) -> nat {
    (a * b) / (CONF_SCALE as nat)
}

/// The millionths of `a OR b`: the noisy-or `1 - (1-a)(1-b)`, where the
/// product of the complements is rounded down.
pub open spec fn conf_or(a: nat, b: nat) -> nat
    recommends
        a <= CONF_SCALE,
        b <= CONF_SCALE,
{
    (CONF_SCALE - ((CONF_SCALE - a) * (CONF_SCALE - b)) / (CONF_SCALE as int)) as nat
}

/// A confidence value in `[0, 1]`, totally ordered, stored as millionths.
#[derive(Debug, Clone, Copy, PartialEq, Eq, PartialOrd, Ord, Hash)]
pub struct Conf {
    millionths: u32,
}

impl Conf {
    /// Every confidence keeps its millionths within `[0, CONF_SCALE]`.
    #[verifier::type_invariant]
    spec fn in_range(self) -> bool {
        self.millionths <= CONF_SCALE
    }
}

impl View for Conf {
    type V = nat;

    /// The confidence in millionths.
    closed spec fn view(&self) -> nat {
        if self.millionths <= CONF_SCALE {
            self.millionths as nat
        } else {
            CONF_SCALE as nat
        }
    }
}

/// Every confidence lies in `[0, CONF_SCALE]` millionths.
pub broadcast proof fn lemma_conf_bounded(c: Conf)
    ensures
        #[trigger] c@ <= CONF_SCALE,
{
}

/// `conf_and` stays in range and is bounded by each operand.
pub proof fn lemma_conf_and_bounds(a: nat, b: nat)
    requires
        a <= CONF_SCALE,
        b <= CONF_SCALE,
    ensures
        conf_and(a, b) <= a,
        conf_and(a, b) <= b,
{
    assert(a * b <= a * (CONF_SCALE as nat)) by (nonlinear_arith)
        requires
            b <= CONF_SCALE,
    ;
    assert(a * b <= (CONF_SCALE as nat) * b) by (nonlinear_arith)
        requires
            a <= CONF_SCALE,
    ;
    assert((a * (CONF_SCALE as nat)) / (CONF_SCALE as nat) == a) by (nonlinear_arith);
    assert(((CONF_SCALE as nat) * b) / (CONF_SCALE as nat) == b) by (nonlinear_arith);
    assert((a * b) / (CONF_SCALE as nat) <= (a * (CONF_SCALE as nat)) / (CONF_SCALE as nat))
        by (nonlinear_arith)
        requires
            a * b <= a * (CONF_SCALE as nat),
    ;
    assert((a * b) / (CONF_SCALE as nat) <= ((CONF_SCALE as nat) * b) / (CONF_SCALE as nat))
        by (nonlinear_arith)
        requires
            a * b <= (CONF_SCALE as nat) * b,
    ;
}

/// `conf_or` stays in range and is bounded below by each operand.
pub proof fn lemma_conf_or_bounds(a: nat, b: nat)
    requires
        a <= CONF_SCALE,
        b <= CONF_SCALE,
    ensures
        a <= conf_or(a, b) <= CONF_SCALE,
        b <= conf_or(a, b),
{
    let s = CONF_SCALE as nat;
    let x = (s - a) as nat;
    let y = (s - b) as nat;
    lemma_conf_and_bounds(x, y);
    assert(conf_and(x, y) == (x * y) / s);
}

impl Conf {
    /// The minimum confidence, `0`.
    pub fn zero() -> (r: Conf)
        ensures
            r@ == 0,
    {
        Conf { millionths: 0 }
    }

    /// The maximum confidence, `1`.
    pub fn one() -> (r: Conf)
        ensures
            r@ == CONF_SCALE,
    {
        Conf { millionths: CONF_SCALE }
    }

    /// The confidence of `n` millionths, or `None` when `n` exceeds one.
    pub fn from_millionths(n: u32) -> (r: Option<Conf>)
        ensures
            r is Some <==> n <= CONF_SCALE,
            r matches Some(c) ==> c@ == n,
    {
        if n <= CONF_SCALE {
            Some(Conf { millionths: n })
        } else {
            None
        }
    }

    /// The confidence of `n` millionths, clamped to `[0, 1]`.
    pub fn clamp_millionths(n: u32) -> (r: Conf)
        ensures
            r@ == (if n <= CONF_SCALE { n as nat } else { CONF_SCALE as nat }),
    {
        if n <= CONF_SCALE {
            Conf { millionths: n }
        } else {
            Conf { millionths: CONF_SCALE }
        }
    }

    /// The confidence in millionths.
    pub fn millionths(self) -> (r: u32)
        ensures
            r == self@,
    {
        proof {
            use_type_invariant(&self);
        }
        self.millionths
    }

    /// AND-combination: the product of the two confidences. Used when evidence
    /// must agree (e.g. clitic split and stem pattern both apply).
    pub fn and(self, other: Conf) -> (r: Conf)
        ensures
            r@ == conf_and(self@, other@),
    {
        proof {
            use_type_invariant(&self);
            use_type_invariant(&other);
            lemma_conf_and_bounds(self@, other@);
        }
        let p: u64 = (self.millionths as u64) * (other.millionths as u64);
        assert(p <= 1_000_000_000_000) by (nonlinear_arith)
            requires
                p == (self.millionths as u64) * (other.millionths as u64),
                self.millionths <= 1_000_000,
                other.millionths <= 1_000_000,
        ;
        let q: u64 = p / (CONF_SCALE as u64);
        Conf { millionths: q as u32 }
    }

    /// OR-combination (deterministic noisy-or): `1 - (1-a)(1-b)`. Used when
    /// alternatives compete.
    pub fn or(self, other: Conf) -> (r: Conf)
        ensures
            r@ == conf_or(self@, other@),
    {
        proof {
            use_type_invariant(&self);
            use_type_invariant(&other);
            lemma_conf_or_bounds(self@, other@);
            lemma_conf_and_bounds((CONF_SCALE - self@) as nat, (CONF_SCALE - other@) as nat);
        }
        let x: u64 = (CONF_SCALE - self.millionths) as u64;
        let y: u64 = (CONF_SCALE - other.millionths) as u64;
        let p: u64 = x * y;
        assert(p <= 1_000_000_000_000) by (nonlinear_arith)
            requires
                p == x * y,
                x <= 1_000_000,
                y <= 1_000_000,
        ;
        let q: u64 = p / (CONF_SCALE as u64);
        Conf { millionths: CONF_SCALE - (q as u32) }
    }
}

/// AND is commutative.
pub proof fn law_and_commutative(a: Conf, b: Conf)
    ensures
        conf_and(a@, b@) == conf_and(b@, a@),
{
    assert(a@ * b@ == b@ * a@) by (nonlinear_arith);
}

/// OR is commutative.
pub proof fn law_or_commutative(a: Conf, b: Conf)
    ensures
        conf_or(a@, b@) == conf_or(b@, a@),
{
    let s = CONF_SCALE as int;
    assert((s - a@) * (s - b@) == (s - b@) * (s - a@)) by (nonlinear_arith);
}

/// One is the identity of AND: `and(x, one) == x` exactly.
pub proof fn law_and_one_identity(a: Conf)
    ensures
        conf_and(a@, CONF_SCALE as nat) == a@,
        conf_and(CONF_SCALE as nat, a@) == a@,
{
    let s = CONF_SCALE as nat;
    assert((a@ * s) / s == a@) by (nonlinear_arith)
        requires
            s == 1_000_000,
    ;
    assert((s * a@) / s == a@) by (nonlinear_arith)
        requires
            s == 1_000_000,
    ;
}

/// Zero is the identity of OR: `or(x, zero) == x` exactly.
pub proof fn law_or_zero_identity(a: Conf)
    ensures
        conf_or(a@, 0) == a@,
        conf_or(0, a@) == a@,
{
    let s = CONF_SCALE as int;
    lemma_conf_bounded(a);
    let x = s - a@;
    assert(x * s / s == x) by (nonlinear_arith)
        requires
            s == 1_000_000,
            x >= 0,
    ;
    assert(s * x / s == x) by (nonlinear_arith)
        requires
            s == 1_000_000,
            x >= 0,
    ;
}

/// Both combinations stay within `[0, 1]`; AND never exceeds either operand
/// and OR never falls below either operand.
pub proof fn law_combinations_bounded(a: Conf, b: Conf)
    ensures
        conf_and(a@, b@) <= a@,
        conf_and(a@, b@) <= b@,
        a@ <= conf_or(a@, b@) <= CONF_SCALE,
        b@ <= conf_or(a@, b@),
{
    lemma_conf_and_bounds(a@, b@);
    lemma_conf_or_bounds(a@, b@);
}

} // verus!
