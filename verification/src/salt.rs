//! Salts: what identifies an argument of a generated function, and the seeds
//! that are derived from it.
use crate::apply::apply_two;
use crate::le::{
    le_bytes, le_value, lemma_le_bytes_len, lemma_le_round_trip, lemma_le_sizes, push_le,
};
use core::hash::{Hash, Hasher};
use vstd::arithmetic::div_mod::{
    lemma_mod_multiples_vanish, lemma_mul_mod_noop_left, lemma_small_mod,
};
use vstd::prelude::*;

verus! {

/// The state of a hash before anything was written.
pub const FNV_BASIS: u64 = 0xcbf2_9ce4_8422_2325;

/// What each step of the hash multiplies by.
pub const FNV_PRIME: u64 = 0x100_0000_01b3;

/// The hash after one more byte.
pub open spec fn fnv_step(h: u64, b: u8) -> u64 {
    (h ^ (b as u64)).wrapping_mul(FNV_PRIME)
}

/// The hash after more bytes.
pub open spec fn fnv_fold(h: u64, bytes: Seq<u8>) -> u64
    decreases bytes.len(),
{
    if bytes.len() == 0 {
        h
    } else {
        fnv_step(fnv_fold(h, bytes.drop_last()), bytes.last())
    }
}

/// FNV-1a with fixed keys: the salt is the argument's identity across
/// runs and across processes, so it must not depend on any per-process
/// hasher seeding.
#[derive(Debug)]
pub struct Fnv1a(pub u64);

impl Hasher for Fnv1a {
    fn finish(&self) -> (r: u64)
        ensures
            r == self.0,
    {
        self.0
    }

    fn write(&mut self, bytes: &[u8])
        ensures
            final(self).0 == fnv_fold(old(self).0, bytes@),
    {
        let ghost start = self.0;
        let mut i: usize = 0;
        while i < bytes.len()
            invariant
                i <= bytes@.len(),
                self.0 == fnv_fold(start, bytes@.take(i as int)),
            decreases bytes@.len() - i,
        {
            self.0 = (self.0 ^ (bytes[i] as u64)).wrapping_mul(FNV_PRIME);
            assert(bytes@.take(i + 1).drop_last() =~= bytes@.take(i as int));
            i += 1;
        }
        assert(bytes@.take(i as int) =~= bytes@);
    }
}

/// Writing bytes in pieces hashes as writing them at once.
pub proof fn lemma_fnv_in_pieces(h: u64, a: Seq<u8>, b: Seq<u8>)
    ensures
        fnv_fold(h, a + b) == fnv_fold(fnv_fold(h, a), b),
    decreases b.len(),
{
    if b.len() == 0 {
        assert(a + b =~= a);
    } else {
        assert((a + b).drop_last() =~= a + b.drop_last());
        lemma_fnv_in_pieces(h, a, b.drop_last());
    }
}

/// The hash after the argument was written to it, by `std::hash::Hash::hash`.
/// Claimed is that some bytes are written to the hash, one after the other, and
/// nothing else is done to it; which bytes they are is up to the argument
/// type's implementation of `Hash`.
#[verifier::external_body]
fn hashed<I: Hash>(arg: &I, hasher: Fnv1a) -> (r: Fnv1a)
    ensures
        exists|bytes: Seq<u8>| r.0 == #[trigger] fnv_fold(hasher.0, bytes),
{
    let mut hasher = hasher;
    arg.hash(&mut hasher);
    hasher
}

/// Hashing the argument may give this salt.
pub closed spec fn hashes_to<I: Hash>(arg: &I, salt: u64) -> bool {
    call_ensures(hashed::<I>, (arg, Fnv1a(FNV_BASIS)), Fnv1a(salt))
}

/// The two arguments are told apart by no hash.
pub open spec fn hash_alike<I: Hash>(a: &I, b: &I) -> bool {
    forall|s: u64, t: u64| #[trigger] hashes_to(a, s) && #[trigger] hashes_to(b, t) ==> s == t
}

/// A salt is the hash of some bytes.
pub proof fn lemma_salt_is_a_hash<I: Hash>(arg: &I, salt: u64)
    requires
        hashes_to(arg, salt),
    ensures
        exists|bytes: Seq<u8>| salt == #[trigger] fnv_fold(FNV_BASIS, bytes),
{
}

/// The salt of an argument whose `Hash` writes these bytes.
pub fn salt_of_bytes(bytes: &[u8]) -> (r: u64)
    ensures
        r == fnv_fold(FNV_BASIS, bytes@),
{
    let mut hasher = Fnv1a(FNV_BASIS);
    hasher.write(bytes);
    hasher.finish()
}

/// The salt of an argument: the hash of what its `Hash` writes.
pub fn salt_of<I: Hash>(arg: &I) -> (r: u64)
    ensures
        hashes_to(arg, r),
        exists|bytes: Seq<u8>| r == #[trigger] fnv_fold(FNV_BASIS, bytes),
{
    let hasher = apply_two(hashed::<I>, arg, Fnv1a(FNV_BASIS));
    assert(hasher == Fnv1a(hasher.0));
    let salt: u64 = hasher.finish();
    proof {
        lemma_salt_is_a_hash(arg, salt);
    }
    salt
}

/// The splitmix64 mixing function.
pub open spec fn mixed(z: u64) -> u64 {
    let a = z.wrapping_add(0x9e37_79b9_7f4a_7c15);
    let b = (a ^ (a >> 30)).wrapping_mul(0xbf58_476d_1ce4_e5b9);
    let c = (b ^ (b >> 27)).wrapping_mul(0x94d0_49bb_1331_11eb);
    c ^ (c >> 31)
}

/// splitmix64: derives the per-argument seed from the function's captured
/// seed and the argument salt.
pub fn splitmix64(z: u64) -> (r: u64)
    ensures
        r == mixed(z),
{
    let a: u64 = z.wrapping_add(0x9e37_79b9_7f4a_7c15);
    let b: u64 = (a ^ (a >> 30)).wrapping_mul(0xbf58_476d_1ce4_e5b9);
    let c: u64 = (b ^ (b >> 27)).wrapping_mul(0x94d0_49bb_1331_11eb);
    c ^ (c >> 31)
}

/// The seed of the stream that a call draws fresh from.
pub open spec fn call_seed(seed: u64, salt: u64) -> Seq<u8> {
    let derived = mixed(seed ^ salt);
    le_bytes(derived as nat, 8) + le_bytes(mixed(derived) as nat, 8)
}

/// The seed of the stream that a call draws fresh from: two rounds of
/// splitmix64 over the function's captured seed and the argument salt.
pub fn derive_seed(seed: u64, salt: u64) -> (r: [u8; 16])
    ensures
        r@ == call_seed(seed, salt),
{
    let derived: u64 = splitmix64(seed ^ salt);
    let mut bytes: Vec<u8> = Vec::new();
    push_le(derived as u128, 8, &mut bytes);
    push_le(splitmix64(derived) as u128, 8, &mut bytes);
    proof {
        lemma_le_bytes_len(derived as nat, 8);
        lemma_le_bytes_len(mixed(derived) as nat, 8);
        assert(bytes@ =~= call_seed(seed, salt));
    }
    let mut r: [u8; 16] = [0; 16];
    let mut i: usize = 0;
    while i < 16
        invariant
            i <= 16,
            bytes@.len() == 16,
            forall|j: int| 0 <= j < i ==> r@[j] == bytes@[j],
        decreases 16 - i,
    {
        r[i] = bytes[i];
        i += 1;
    }
    assert(r@ =~= bytes@);
    r
}

/// Multiplying by a number that has an inverse loses nothing.
proof fn lemma_odd_product(x: u64, y: u64, factor: u64, inverse: nat, excess: nat)
    requires
        factor * inverse == 0x1_0000_0000_0000_0000 * excess + 1,
        x.wrapping_mul(factor) == y.wrapping_mul(factor),
    ensures
        x == y,
{
    lemma_odd_product_undone(x, factor, inverse, excess);
    lemma_odd_product_undone(y, factor, inverse, excess);
}

proof fn lemma_odd_product_undone(x: u64, factor: u64, inverse: nat, excess: nat)
    requires
        factor * inverse == 0x1_0000_0000_0000_0000 * excess + 1,
    ensures
        (x.wrapping_mul(factor) * inverse) % 0x1_0000_0000_0000_0000 == x,
{
    let m: int = 0x1_0000_0000_0000_0000;
    let p = (x as nat * factor as nat) as int;
    lemma_mul_mod_noop_left(p, inverse as int, m);
    assert(p * inverse == m * (x * excess) + x) by (nonlinear_arith)
        requires
            p == x * factor,
            factor * inverse == m * excess + 1,
    ;
    lemma_mod_multiples_vanish(x * excess, x as int, m);
    lemma_small_mod(x as nat, m as nat);
}

/// The mixing function maps different numbers to different numbers.
pub proof fn lemma_mixed_injective(x: u64, y: u64)
    requires
        mixed(x) == mixed(y),
    ensures
        x == y,
{
    let a = x.wrapping_add(0x9e37_79b9_7f4a_7c15);
    let d = y.wrapping_add(0x9e37_79b9_7f4a_7c15);
    let b = (a ^ (a >> 30)).wrapping_mul(0xbf58_476d_1ce4_e5b9);
    let e = (d ^ (d >> 30)).wrapping_mul(0xbf58_476d_1ce4_e5b9);
    let c = (b ^ (b >> 27)).wrapping_mul(0x94d0_49bb_1331_11eb);
    let f = (e ^ (e >> 27)).wrapping_mul(0x94d0_49bb_1331_11eb);
    assert(c ^ (c >> 31) == f ^ (f >> 31) ==> c == f) by (bit_vector);
    lemma_odd_product(
        b ^ (b >> 27),
        e ^ (e >> 27),
        0x94d0_49bb_1331_11eb,
        0x3196_42b2_d24d_8ec3,
        0x1cd3_36ed_a85f_1453,
    );
    assert(b ^ (b >> 27) == e ^ (e >> 27) ==> b == e) by (bit_vector);
    lemma_odd_product(
        a ^ (a >> 30),
        d ^ (d >> 30),
        0xbf58_476d_1ce4_e5b9,
        0x96de_1b17_3f11_9089,
        0x70c3_bca7_8f27_f46c,
    );
    assert(a ^ (a >> 30) == d ^ (d >> 30) ==> a == d) by (bit_vector);
}

proof fn lemma_fnv_product(x: u64, y: u64)
    requires
        x.wrapping_mul(FNV_PRIME) == y.wrapping_mul(FNV_PRIME),
    ensures
        x == y,
{
    lemma_odd_product(x, y, FNV_PRIME, 0xce96_5057_aff6_957b, 0xce_9650_590f);
}

proof fn lemma_fnv_one(h: u64, a: u8)
    ensures
        fnv_fold(h, seq![a]) == (h ^ (a as u64)).wrapping_mul(FNV_PRIME),
{
    assert(seq![a].drop_last() =~= Seq::<u8>::empty());
    assert(fnv_fold(h, seq![a].drop_last()) == h);
}

/// A hash tells its last byte and what came before it apart: with the rest the
/// same, no two of either end in the same hash.
pub proof fn lemma_fnv_step_injective(g: u64, h: u64, a: u8, b: u8)
    ensures
        fnv_fold(h, Seq::<u8>::empty()) == h,
        fnv_fold(h, seq![a]) == fnv_fold(h, seq![b]) ==> a == b,
        fnv_fold(g, seq![a]) == fnv_fold(h, seq![a]) ==> g == h,
{
    let (x, y) = (a as u64, b as u64);
    lemma_fnv_one(h, a);
    lemma_fnv_one(h, b);
    lemma_fnv_one(g, a);
    if fnv_fold(h, seq![a]) == fnv_fold(h, seq![b]) {
        lemma_fnv_product(h ^ x, h ^ y);
        assert(h ^ x == h ^ y ==> x == y) by (bit_vector);
    }
    if fnv_fold(g, seq![a]) == fnv_fold(h, seq![a]) {
        lemma_fnv_product(g ^ x, h ^ x);
        assert(g ^ x == h ^ x ==> g == h) by (bit_vector);
    }
}

/// Different functions draw from different seeds: calls with the same argument
/// of two functions that captured different entropy draw fresh from different
/// streams.
pub proof fn lemma_entropy_separates_functions(a: u64, b: u64, salt: u64)
    requires
        call_seed(a, salt) == call_seed(b, salt),
    ensures
        a == b,
{
    let x = mixed(a ^ salt);
    let y = mixed(b ^ salt);
    lemma_le_bytes_len(x as nat, 8);
    lemma_le_bytes_len(y as nat, 8);
    assert(le_bytes(x as nat, 8) =~= call_seed(a, salt).take(8));
    assert(le_bytes(y as nat, 8) =~= call_seed(b, salt).take(8));
    lemma_le_sizes();
    lemma_le_round_trip(x as nat, 8);
    lemma_le_round_trip(y as nat, 8);
    lemma_mixed_injective(a ^ salt, b ^ salt);
    assert(a ^ salt == b ^ salt ==> a == b) by (bit_vector);
}

/// The halves of a call's seed are a mix of the captured entropy and the salt,
/// and the mix of that.
pub proof fn lemma_call_seed_halves(seed: u64, salt: u64)
    ensures
        call_seed(seed, salt).len() == 16,
        le_value(call_seed(seed, salt).take(8)) == mixed(seed ^ salt),
        le_value(call_seed(seed, salt).skip(8)) == mixed(mixed(seed ^ salt)),
{
    let x = mixed(seed ^ salt);
    lemma_le_bytes_len(x as nat, 8);
    lemma_le_bytes_len(mixed(x) as nat, 8);
    lemma_le_sizes();
    lemma_le_round_trip(x as nat, 8);
    lemma_le_round_trip(mixed(x) as nat, 8);
    assert(call_seed(seed, salt).take(8) =~= le_bytes(x as nat, 8));
    assert(call_seed(seed, salt).skip(8) =~= le_bytes(mixed(x) as nat, 8));
}

/// Different arguments get different seeds: calls of one function whose
/// arguments have different salts draw fresh from different streams.
pub proof fn lemma_salts_separate_calls(seed: u64, s: u64, t: u64)
    requires
        call_seed(seed, s) == call_seed(seed, t),
    ensures
        s == t,
{
    let x = mixed(seed ^ s);
    let y = mixed(seed ^ t);
    lemma_le_bytes_len(x as nat, 8);
    lemma_le_bytes_len(y as nat, 8);
    assert(le_bytes(x as nat, 8) =~= call_seed(seed, s).take(8));
    assert(le_bytes(y as nat, 8) =~= call_seed(seed, t).take(8));
    lemma_le_sizes();
    lemma_le_round_trip(x as nat, 8);
    lemma_le_round_trip(y as nat, 8);
    lemma_mixed_injective(seed ^ s, seed ^ t);
    assert(seed ^ s == seed ^ t ==> s == t) by (bit_vector);
}

} // verus!
