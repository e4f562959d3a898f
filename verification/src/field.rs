//! Prime-field arithmetic for the commitment scheme.
//!
//! Every component of the library is generic over [`Field`]: an element is
//! modelled by its residue `val()` below the prime `modulus()`, and each
//! operation's contract states the exact modular arithmetic it performs.
//! Two concrete fields are provided: [`Ft32`] over the Mersenne prime
//! `2^31 - 1` and [`Ft127`] over a 127-bit prime.

use vstd::prelude::*;

verus! {

use vstd::arithmetic::div_mod::{
    lemma_add_mod_noop, lemma_breakdown, lemma_div_denominator, lemma_mul_mod_noop_right,
    lemma_small_mod,
};
use vstd::arithmetic::mul::lemma_mul_is_distributive_add;
use vstd::arithmetic::power2::{lemma_pow2_adds, lemma_pow2_pos, pow2};

/// The canonical little-endian byte string of `v`, `n` bytes long.
pub open spec fn le_bytes(v: nat, n: nat) -> Seq<u8>
    decreases n,
{
    if n == 0 {
        Seq::empty()
    } else {
        seq![(v % 256) as u8] + le_bytes(v / 256, (n - 1) as nat)
    }
}

/// A prime-field element.
///
/// `inv()` is the representation invariant (the stored residue is reduced);
/// every constructor establishes it and every operation preserves it, so the
/// contracts speak of the mathematical residue `val()` alone.
pub trait Field: Sized + Copy {
    /// The prime modulus of the field.
    spec fn modulus() -> nat;

    /// The residue this element stands for.
    spec fn val(self) -> nat;

    /// Representation invariant: the element is a reduced residue.
    spec fn inv(self) -> bool;

    /// Number of bytes of the canonical fixed-width representation.
    spec fn repr_len() -> nat;

    proof fn lemma_modulus()
        ensures
            Self::modulus() > 1,
    ;

    proof fn lemma_val(self)
        requires
            self.inv(),
        ensures
            self.val() < Self::modulus(),
    ;

    /// Two reduced residues with the same value are the same element.
    proof fn lemma_val_injective(self, other: Self)
        requires
            self.inv(),
            other.inv(),
            self.val() == other.val(),
        ensures
            self == other,
    ;

    fn zero() -> (r: Self)
        ensures
            r.inv(),
            r.val() == 0,
    ;

    fn one() -> (r: Self)
        ensures
            r.inv(),
            r.val() == 1,
    ;

    fn add(self, o: Self) -> (r: Self)
        requires
            self.inv(),
            o.inv(),
        ensures
            r.inv(),
            r.val() == (self.val() + o.val()) % Self::modulus(),
    ;

    fn sub(self, o: Self) -> (r: Self)
        requires
            self.inv(),
            o.inv(),
        ensures
            r.inv(),
            r.val() == ((self.val() + Self::modulus() - o.val()) as nat) % Self::modulus(),
    ;

    fn mul(self, o: Self) -> (r: Self)
        requires
            self.inv(),
            o.inv(),
        ensures
            r.inv(),
            r.val() == (self.val() * o.val()) % Self::modulus(),
    ;

    /// Reduce a machine word into the field.
    fn from_word(w: u64) -> (r: Self)
        ensures
            r.inv(),
            r.val() == (w as nat) % Self::modulus(),
    ;

    /// Map a machine word onto the nonzero residues `1 ..= modulus() - 1`.
    fn nonzero_from_word(w: u64) -> (r: Self)
        ensures
            r.inv(),
            r.val() == (w as nat) % ((Self::modulus() - 1) as nat) + 1,
    ;

    fn eq_elt(self, o: Self) -> (r: bool)
        requires
            self.inv(),
            o.inv(),
        ensures
            r == (self.val() == o.val()),
    ;

    /// Canonical fixed-width little-endian byte representation.
    fn repr_bytes(self) -> (r: Vec<u8>)
        requires
            self.inv(),
        ensures
            r@ == le_bytes(self.val(), Self::repr_len()),
            r@.len() == Self::repr_len(),
    ;
}

/// The Mersenne prime `2^31 - 1`.
pub const P32: u64 = 2147483647;

/// The field of integers modulo the Mersenne prime `2^31 - 1`.
#[derive(Clone, Copy, Debug, PartialEq, Eq, Structural)]
pub struct Ft32 {
    v: u64,
}

impl Field for Ft32 {
    open spec fn modulus() -> nat {
        P32 as nat
    }

    closed spec fn val(self) -> nat {
        self.v as nat
    }

    closed spec fn inv(self) -> bool {
        self.v < P32
    }

    open spec fn repr_len() -> nat {
        8
    }

    proof fn lemma_modulus() {
    }

    proof fn lemma_val(self) {
    }

    proof fn lemma_val_injective(self, other: Self) {
    }

    fn zero() -> (r: Self) {
        Ft32 { v: 0 }
    }

    fn one() -> (r: Self) {
        Ft32 { v: 1 }
    }

    fn add(self, o: Self) -> (r: Self) {
        let s = self.v + o.v;
        if s >= P32 {
            Ft32 { v: s - P32 }
        } else {
            Ft32 { v: s }
        }
    }

    fn sub(self, o: Self) -> (r: Self) {
        if self.v >= o.v {
            Ft32 { v: self.v - o.v }
        } else {
            Ft32 { v: self.v + P32 - o.v }
        }
    }

    fn mul(self, o: Self) -> (r: Self) {
        proof {
            assert(self.v * o.v < 0x4000000000000000) by (nonlinear_arith)
                requires
                    self.v < 0x80000000,
                    o.v < 0x80000000,
            ;
        }
        Ft32 { v: (self.v * o.v) % P32 }
    }

    fn from_word(w: u64) -> (r: Self) {
        Ft32 { v: w % P32 }
    }

    fn nonzero_from_word(w: u64) -> (r: Self) {
        Ft32 { v: w % (P32 - 1) + 1 }
    }

    fn eq_elt(self, o: Self) -> (r: bool) {
        self.v == o.v
    }

    fn repr_bytes(self) -> (r: Vec<u8>) {
        le_bytes_of_u64(self.v)
    }
}

/// A 127-bit prime.
pub const P127: u128 = 146823888364060453008360742206866194433;

/// The field of integers modulo a 127-bit prime.
#[derive(Clone, Copy, Debug, PartialEq, Eq, Structural)]
pub struct Ft127 {
    v: u128,
}

impl Field for Ft127 {
    open spec fn modulus() -> nat {
        P127 as nat
    }

    closed spec fn val(self) -> nat {
        self.v as nat
    }

    closed spec fn inv(self) -> bool {
        self.v < P127
    }

    open spec fn repr_len() -> nat {
        16
    }

    proof fn lemma_modulus() {
    }

    proof fn lemma_val(self) {
    }

    proof fn lemma_val_injective(self, other: Self) {
    }

    fn zero() -> (r: Self) {
        Ft127 { v: 0 }
    }

    fn one() -> (r: Self) {
        Ft127 { v: 1 }
    }

    fn add(self, o: Self) -> (r: Self) {
        let s = self.v + o.v;
        if s >= P127 {
            Ft127 { v: s - P127 }
        } else {
            Ft127 { v: s }
        }
    }

    fn sub(self, o: Self) -> (r: Self) {
        if self.v >= o.v {
            Ft127 { v: self.v - o.v }
        } else {
            Ft127 { v: self.v + P127 - o.v }
        }
    }

    fn mul(self, o: Self) -> (r: Self) {
        let a = self.v;
        let mut acc = self.v;
        let mut rem = o.v;
        let mut res: u128 = 0;
        let mut i: usize = 0;
        let ghost av = self.v as int;
        let ghost bv = o.v as int;
        let ghost p = P127 as int;
        proof {
            vstd::arithmetic::power2::lemma2_to64();
            assert(bv % pow2(0) as int == 0);
        }
        while i < 128
            invariant
                i <= 128,
                av == self.v as int && bv == o.v as int && p == P127 as int,
                self.v < P127 && o.v < P127,
                a == self.v,
                acc < P127 && res < P127,
                rem as int == bv / pow2(i as nat) as int,
                acc as int == (av * pow2(i as nat) as int) % p,
                res as int == (av * (bv % pow2(i as nat) as int)) % p,
            decreases 128 - i,
        {
            let ghost gi = i as nat;
            let ghost res0 = res as int;
            let ghost acc0 = acc as int;
            let ghost rem0 = rem as int;
            let ghost pg = pow2(gi) as int;
            let bit = rem % 2;
            if bit == 1 {
                let s = res + acc;
                res = if s >= P127 { s - P127 } else { s };
            }
            let s2 = acc + acc;
            acc = if s2 >= P127 { s2 - P127 } else { s2 };
            rem = rem / 2;
            i = i + 1;
            proof {
                lemma_pow2_adds(gi, 1);
                vstd::arithmetic::power2::lemma2_to64();
                lemma_pow2_pos(gi);
                assert(pow2(gi + 1) == pow2(gi) * 2);
                lemma_div_denominator(bv, pg, 2);
                assert(rem as int == bv / pow2((gi + 1) as nat) as int);
                lemma_breakdown(bv, pg, 2);
                assert(bv % (pg * 2) == pg * ((bv / pg) % 2) + bv % pg);
                // the doubled accumulator tracks av * 2^(i+1)
                lemma_mul_mod_noop_right(2, av * pg, p);
                assert(2 * (av * pg) == av * (pg * 2)) by (nonlinear_arith);
                assert(acc as int == (av * pow2((gi + 1) as nat) as int) % p);
                // the result tracks av times the processed low bits of bv
                if rem0 % 2 == 1 {
                    lemma_add_mod_noop(av * (bv % pg), av * pg, p);
                    lemma_mul_is_distributive_add(av, bv % pg, pg);
                    assert(bv % (pg * 2) == bv % pg + pg);
                    assert(res as int == (av * (bv % (pg * 2))) % p);
                } else {
                    assert(bv % (pg * 2) == bv % pg);
                }
                assert(res as int == (av * (bv % pow2((gi + 1) as nat) as int)) % p);
            }
        }
        proof {
            lemma_pow2_adds(64, 64);
            vstd::arithmetic::power2::lemma2_to64();
            assert(pow2(128) == 0x10000000000000000 * 0x10000000000000000) by (nonlinear_arith)
                requires
                    pow2(128) == pow2(64) * pow2(64),
                    pow2(64) == 0x10000000000000000,
            ;
            lemma_small_mod(o.v as nat, pow2(128));
        }
        Ft127 { v: res }
    }

    fn from_word(w: u64) -> (r: Self) {
        Ft127 { v: w as u128 }
    }

    fn nonzero_from_word(w: u64) -> (r: Self) {
        proof {
            lemma_small_mod(w as nat, (P127 - 1) as nat);
        }
        Ft127 { v: w as u128 + 1 }
    }

    fn eq_elt(self, o: Self) -> (r: bool) {
        self.v == o.v
    }

    fn repr_bytes(self) -> (r: Vec<u8>) {
        let mut out: Vec<u8> = Vec::new();
        let mut cur = self.v;
        let mut i: usize = 0;
        proof {
            assert(Seq::<u8>::empty() + le_bytes(self.v as nat, 16) =~= le_bytes(
                self.v as nat,
                16,
            ));
        }
        while i < 16
            invariant
                i <= 16,
                out@.len() == i,
                le_bytes(self.v as nat, 16) == out@ + le_bytes(cur as nat, (16 - i) as nat),
            decreases 16 - i,
        {
            let b = (cur % 256) as u8;
            proof {
                assert(le_bytes(cur as nat, (16 - i) as nat) == seq![(cur as nat % 256) as u8]
                    + le_bytes(cur as nat / 256, (16 - i - 1) as nat));
                assert(out@ + le_bytes(cur as nat, (16 - i) as nat) =~= (out@ + seq![b])
                    + le_bytes(cur as nat / 256, (16 - i - 1) as nat));
            }
            out.push(b);
            cur = cur / 256;
            i = i + 1;
        }
        proof {
            assert(out@ + le_bytes(cur as nat, 0) =~= out@);
        }
        out
    }
}

/// The eight canonical little-endian bytes of a word.
fn le_bytes_of_u64(w: u64) -> (r: Vec<u8>)
    ensures
        r@ == le_bytes(w as nat, 8),
        r@.len() == 8,
{
    let mut out: Vec<u8> = Vec::new();
    let mut cur = w;
    let mut i: usize = 0;
    proof {
        assert(Seq::<u8>::empty() + le_bytes(w as nat, 8) =~= le_bytes(w as nat, 8));
    }
    while i < 8
        invariant
            i <= 8,
            out@.len() == i,
            le_bytes(w as nat, 8) == out@ + le_bytes(cur as nat, (8 - i) as nat),
        decreases 8 - i,
    {
        let b = (cur % 256) as u8;
        proof {
            assert(le_bytes(cur as nat, (8 - i) as nat) == seq![(cur as nat % 256) as u8]
                + le_bytes(cur as nat / 256, (8 - i - 1) as nat));
            assert(out@ + le_bytes(cur as nat, (8 - i) as nat) =~= (out@ + seq![b])
                + le_bytes(cur as nat / 256, (8 - i - 1) as nat));
        }
        out.push(b);
        cur = cur / 256;
        i = i + 1;
    }
    proof {
        assert(out@ + le_bytes(cur as nat, 0) =~= out@);
    }
    out
}

} // verus!
