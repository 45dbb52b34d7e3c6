//! Arithmetic on 32-byte big-endian unsigned amounts.
use vstd::prelude::*;
use vstd::arithmetic::power::pow;

verus! {

/// The number that the big-endian bytes `s` stand for.
pub open spec fn be_nat(s: Seq<u8>) -> nat
    decreases s.len(),
{
    if s.len() == 0 {
        0
    } else {
        s[0] as nat * pow(256, (s.len() - 1) as nat) as nat + be_nat(s.skip(1))
    }
}

/// One more than the largest amount that 32 bytes hold.
pub open spec fn value_bound() -> nat {
    pow(256, 32) as nat
}

proof fn lemma_pow_step(n: nat)
    ensures
        pow(256, n + 1) == 256 * pow(256, n),
        pow(256, n) > 0,
{
    vstd::arithmetic::power::lemma_pow_positive(256, n);
    assert(pow(256, n + 1) == 256 * pow(256, n)) by {
        vstd::arithmetic::power::lemma_pow_adds(256, 1, n);
        vstd::arithmetic::power::lemma_pow1(256);
    }
}

proof fn lemma_be_nat_step(s: Seq<u8>, k: int)
    requires
        0 < k <= s.len(),
    ensures
        be_nat(s.skip(k - 1)) == s[k - 1] as nat * pow(256, (s.len() - k) as nat) as nat
            + be_nat(s.skip(k)),
{
    assert(s.skip(k - 1).skip(1) =~= s.skip(k));
}

/// Adds two amounts; `None` where the sum does not fit in 32 bytes.
pub fn checked_add(a: &[u8; 32], b: &[u8; 32]) -> (r: Option<[u8; 32]>)
    ensures
        match r {
            Some(v) => be_nat(v@) == be_nat(a@) + be_nat(b@) && be_nat(a@) + be_nat(b@)
                < value_bound(),
            None => be_nat(a@) + be_nat(b@) >= value_bound(),
        },
{
    let mut out: [u8; 32] = [0u8; 32];
    let mut carry: u16 = 0;
    let mut k: usize = 32;
    proof {
        assert(a@.skip(32) =~= Seq::<u8>::empty());
        assert(b@.skip(32) =~= Seq::<u8>::empty());
        assert(out@.skip(32) =~= Seq::<u8>::empty());
        vstd::arithmetic::power::lemma_pow0(256);
    }
    while k > 0
        invariant
            k <= 32,
            carry <= 1,
            out@.len() == 32,
            be_nat(a@.skip(k as int)) + be_nat(b@.skip(k as int)) == be_nat(out@.skip(k as int))
                + carry as nat * pow(256, (32 - k) as nat) as nat,
        decreases k,
    {
        let ghost before = out@;
        let sum: u16 = a[k - 1] as u16 + b[k - 1] as u16 + carry;
        out[k - 1] = (sum % 256) as u8;
        proof {
            assert(out@.skip(k as int) =~= before.skip(k as int));
            lemma_be_nat_step(a@, k as int);
            lemma_be_nat_step(b@, k as int);
            lemma_be_nat_step(out@, k as int);
            let e = (32 - k) as nat;
            lemma_pow_step(e);
            let p = pow(256, e) as nat;
            let s = sum as nat;
            assert(s == (s % 256) + 256 * (s / 256));
            assert(s * p == (s % 256) * p + (s / 256) * (256 * p)) by (nonlinear_arith)
                requires
                    s == (s % 256) + 256 * (s / 256),
            ;
            assert((a@[k - 1] as nat + b@[k - 1] as nat) * p + carry as nat * p == s * p)
                by (nonlinear_arith)
                requires
                    s == a@[k - 1] as nat + b@[k - 1] as nat + carry as nat,
            ;
            assert(a@[k - 1] as nat * p + b@[k - 1] as nat * p == (a@[k - 1] as nat
                + b@[k - 1] as nat) * p) by (nonlinear_arith);
        }
        carry = sum / 256;
        k = k - 1;
    }
    proof {
        assert(a@.skip(0) =~= a@);
        assert(b@.skip(0) =~= b@);
        assert(out@.skip(0) =~= out@);
        lemma_be_nat_bound(out@);
    }
    if carry == 0 {
        Some(out)
    } else {
        None
    }
}

/// Subtracts `b` from `a`; `None` where `b` is the larger.
pub fn checked_sub(a: &[u8; 32], b: &[u8; 32]) -> (r: Option<[u8; 32]>)
    ensures
        match r {
            Some(v) => be_nat(v@) + be_nat(b@) == be_nat(a@),
            None => be_nat(a@) < be_nat(b@),
        },
{
    let mut out: [u8; 32] = [0u8; 32];
    let mut borrow: u16 = 0;
    let mut k: usize = 32;
    proof {
        assert(a@.skip(32) =~= Seq::<u8>::empty());
        assert(b@.skip(32) =~= Seq::<u8>::empty());
        assert(out@.skip(32) =~= Seq::<u8>::empty());
        vstd::arithmetic::power::lemma_pow0(256);
    }
    while k > 0
        invariant
            k <= 32,
            borrow <= 1,
            out@.len() == 32,
            be_nat(a@.skip(k as int)) + borrow as nat * pow(256, (32 - k) as nat) as nat
                == be_nat(out@.skip(k as int)) + be_nat(b@.skip(k as int)),
        decreases k,
    {
        let ghost before = out@;
        let x: u16 = a[k - 1] as u16 + 256;
        let y: u16 = b[k - 1] as u16 + borrow;
        let d: u16 = x - y;
        out[k - 1] = (d % 256) as u8;
        let nb: u16 = if d < 256 { 1 } else { 0 };
        proof {
            assert(out@.skip(k as int) =~= before.skip(k as int));
            lemma_be_nat_step(a@, k as int);
            lemma_be_nat_step(b@, k as int);
            lemma_be_nat_step(out@, k as int);
            let e = (32 - k) as nat;
            lemma_pow_step(e);
            let p = pow(256, e) as nat;
            let av = a@[k - 1] as nat;
            let bv = b@[k - 1] as nat;
            let ov = out@[k - 1] as nat;
            assert(av + 256 * nb as nat == ov + bv + borrow as nat);
            assert(av * p + nb as nat * (256 * p) == ov * p + bv * p + borrow as nat * p)
                by (nonlinear_arith)
                requires
                    av + 256 * nb as nat == ov + bv + borrow as nat,
            ;
        }
        borrow = nb;
        k = k - 1;
    }
    proof {
        assert(a@.skip(0) =~= a@);
        assert(b@.skip(0) =~= b@);
        assert(out@.skip(0) =~= out@);
        lemma_be_nat_bound(out@);
        lemma_be_nat_bound(a@);
    }
    if borrow == 0 {
        Some(out)
    } else {
        None
    }
}

/// Bytes stand for a number below 256 to the power of their count.
proof fn lemma_be_nat_bound(s: Seq<u8>)
    ensures
        be_nat(s) < pow(256, s.len()),
    decreases s.len(),
{
    if s.len() == 0 {
        vstd::arithmetic::power::lemma_pow0(256);
    } else {
        let n = (s.len() - 1) as nat;
        lemma_be_nat_bound(s.skip(1));
        lemma_pow_step(n);
        let p = pow(256, n) as nat;
        assert(s[0] as nat * p + be_nat(s.skip(1)) < 256 * p) by (nonlinear_arith)
            requires
                s[0] as nat <= 255,
                be_nat(s.skip(1)) < p,
        ;
    }
}

} // verus!
