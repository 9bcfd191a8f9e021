//! Order-preserving embedding of the machine integers into `u128` offset
//! space: unsigned integers as themselves, signed ones shifted up by `2^127`.
use vstd::arithmetic::div_mod::{lemma_mod_multiples_vanish, lemma_small_mod};
use vstd::prelude::*;

verus! {

/// Where zero lies for signed integers, `2^127`.
pub const OFFSET: u128 = 0x8000_0000_0000_0000_0000_0000_0000_0000;

/// `x` wrapped around the range of `count` numbers from `lowest` on.
pub open spec fn wrapped(x: int, lowest: int, count: int) -> int {
    lowest + (x - lowest) % count
}

/// An integer that can be stored on the tape.
pub trait TapeInt: Copy {
    /// The number that `self` stands for.
    spec fn number(self) -> int;

    /// The least number of the type.
    spec fn lowest() -> int;

    /// How many numbers the type has.
    spec fn count() -> int;

    /// Where zero lies in offset space.
    spec fn zero() -> int;

    /// The numbers of the type are a range of `count()` from `lowest()` on,
    /// each held by one value.
    proof fn lemma_range(a: Self, b: Self)
        ensures
            Self::count() > 0,
            Self::lowest() <= a.number() < Self::lowest() + Self::count(),
            a.number() == b.number() ==> a == b,
    ;

    /// The embedding of `self`.
    fn encode(self) -> (r: u128)
        ensures
            r == self.number() + Self::zero(),
    ;

    /// The integer at `encoded`; one outside the type's range wraps around
    /// it.
    fn decode(encoded: u128) -> (r: Self)
        ensures
            r.number() == wrapped(encoded - Self::zero(), Self::lowest(), Self::count()),
    ;

    /// `encode(0)`, the natural shrink target before range clamping.
    fn encode_zero() -> (r: u128)
        ensures
            r == Self::zero(),
    ;
}

/// Decoding an encoded integer gives it back.
pub proof fn lemma_round_trip<T: TapeInt>(v: T, w: T)
    requires
        w.number() == wrapped((v.number() + T::zero()) - T::zero(), T::lowest(), T::count()),
    ensures
        w == v,
{
    T::lemma_range(v, w);
    lemma_small_mod((v.number() - T::lowest()) as nat, T::count() as nat);
}

/// Encoding keeps the order of the integers.
pub proof fn lemma_encode_keeps_order<T: TapeInt>(v: T, w: T)
    ensures
        v.number() < w.number() <==> v.number() + T::zero() < w.number() + T::zero(),
{
}

impl TapeInt for u8 {
    open spec fn number(self) -> int {
        self as int
    }

    open spec fn lowest() -> int {
        0
    }

    open spec fn count() -> int {
        0x100
    }

    open spec fn zero() -> int {
        0
    }

    proof fn lemma_range(a: Self, b: Self) {
    }

    fn encode(self) -> u128 {
        self as u128
    }

    fn decode(encoded: u128) -> Self {
        assert(encoded as u8 == encoded % 0x100) by (bit_vector);
        #[verifier::truncate]
        (encoded as u8)
    }

    fn encode_zero() -> u128 {
        0
    }
}

impl TapeInt for u16 {
    open spec fn number(self) -> int {
        self as int
    }

    open spec fn lowest() -> int {
        0
    }

    open spec fn count() -> int {
        0x1_0000
    }

    open spec fn zero() -> int {
        0
    }

    proof fn lemma_range(a: Self, b: Self) {
    }

    fn encode(self) -> u128 {
        self as u128
    }

    fn decode(encoded: u128) -> Self {
        assert(encoded as u16 == encoded % 0x1_0000) by (bit_vector);
        #[verifier::truncate]
        (encoded as u16)
    }

    fn encode_zero() -> u128 {
        0
    }
}

impl TapeInt for u32 {
    open spec fn number(self) -> int {
        self as int
    }

    open spec fn lowest() -> int {
        0
    }

    open spec fn count() -> int {
        0x1_0000_0000
    }

    open spec fn zero() -> int {
        0
    }

    proof fn lemma_range(a: Self, b: Self) {
    }

    fn encode(self) -> u128 {
        self as u128
    }

    fn decode(encoded: u128) -> Self {
        assert(encoded as u32 == encoded % 0x1_0000_0000) by (bit_vector);
        #[verifier::truncate]
        (encoded as u32)
    }

    fn encode_zero() -> u128 {
        0
    }
}

impl TapeInt for u64 {
    open spec fn number(self) -> int {
        self as int
    }

    open spec fn lowest() -> int {
        0
    }

    open spec fn count() -> int {
        0x1_0000_0000_0000_0000
    }

    open spec fn zero() -> int {
        0
    }

    proof fn lemma_range(a: Self, b: Self) {
    }

    fn encode(self) -> u128 {
        self as u128
    }

    fn decode(encoded: u128) -> Self {
        assert(encoded as u64 == encoded % 0x1_0000_0000_0000_0000) by (bit_vector);
        #[verifier::truncate]
        (encoded as u64)
    }

    fn encode_zero() -> u128 {
        0
    }
}

impl TapeInt for u128 {
    open spec fn number(self) -> int {
        self as int
    }

    open spec fn lowest() -> int {
        0
    }

    open spec fn count() -> int {
        u128::MAX + 1
    }

    open spec fn zero() -> int {
        0
    }

    proof fn lemma_range(a: Self, b: Self) {
    }

    fn encode(self) -> u128 {
        self as u128
    }

    fn decode(encoded: u128) -> Self {
        #[verifier::truncate]
        (encoded as u128)
    }

    fn encode_zero() -> u128 {
        0
    }
}

impl TapeInt for usize {
    open spec fn number(self) -> int {
        self as int
    }

    open spec fn lowest() -> int {
        0
    }

    open spec fn count() -> int {
        usize::MAX + 1
    }

    open spec fn zero() -> int {
        0
    }

    proof fn lemma_range(a: Self, b: Self) {
    }

    fn encode(self) -> u128 {
        self as u128
    }

    fn decode(encoded: u128) -> Self {
        assert(usize::BITS == 32 ==> encoded as usize == encoded % 0x1_0000_0000) by (bit_vector);
        assert(usize::BITS == 64 ==> encoded as usize == encoded % 0x1_0000_0000_0000_0000)
            by (bit_vector);
        #[verifier::truncate]
        (encoded as usize)
    }

    fn encode_zero() -> u128 {
        0
    }
}

impl TapeInt for i8 {
    open spec fn number(self) -> int {
        self as int
    }

    open spec fn lowest() -> int {
        i8::MIN as int
    }

    open spec fn count() -> int {
        0x100
    }

    open spec fn zero() -> int {
        OFFSET as int
    }

    proof fn lemma_range(a: Self, b: Self) {
    }

    fn encode(self) -> u128 {
        let x: i128 = self as i128;
        assert((x as u128) ^ OFFSET == x + OFFSET) by (bit_vector);
        #[verifier::truncate]
        (x as u128) ^ OFFSET
    }

    fn decode(encoded: u128) -> Self {
        assert((encoded ^ OFFSET) as i128 as i8 == (encoded + 0x80) % 0x100
            - 0x80) by (bit_vector);
        #[verifier::truncate]
        ((encoded ^ OFFSET) as i128 as i8)
    }

    fn encode_zero() -> u128 {
        OFFSET
    }
}

impl TapeInt for i16 {
    open spec fn number(self) -> int {
        self as int
    }

    open spec fn lowest() -> int {
        i16::MIN as int
    }

    open spec fn count() -> int {
        0x1_0000
    }

    open spec fn zero() -> int {
        OFFSET as int
    }

    proof fn lemma_range(a: Self, b: Self) {
    }

    fn encode(self) -> u128 {
        let x: i128 = self as i128;
        assert((x as u128) ^ OFFSET == x + OFFSET) by (bit_vector);
        #[verifier::truncate]
        (x as u128) ^ OFFSET
    }

    fn decode(encoded: u128) -> Self {
        assert((encoded ^ OFFSET) as i128 as i16 == (encoded + 0x8000) % 0x1_0000
            - 0x8000) by (bit_vector);
        #[verifier::truncate]
        ((encoded ^ OFFSET) as i128 as i16)
    }

    fn encode_zero() -> u128 {
        OFFSET
    }
}

impl TapeInt for i32 {
    open spec fn number(self) -> int {
        self as int
    }

    open spec fn lowest() -> int {
        i32::MIN as int
    }

    open spec fn count() -> int {
        0x1_0000_0000
    }

    open spec fn zero() -> int {
        OFFSET as int
    }

    proof fn lemma_range(a: Self, b: Self) {
    }

    fn encode(self) -> u128 {
        let x: i128 = self as i128;
        assert((x as u128) ^ OFFSET == x + OFFSET) by (bit_vector);
        #[verifier::truncate]
        (x as u128) ^ OFFSET
    }

    fn decode(encoded: u128) -> Self {
        assert((encoded ^ OFFSET) as i128 as i32 == (encoded + 0x8000_0000) % 0x1_0000_0000
            - 0x8000_0000) by (bit_vector);
        #[verifier::truncate]
        ((encoded ^ OFFSET) as i128 as i32)
    }

    fn encode_zero() -> u128 {
        OFFSET
    }
}

impl TapeInt for i64 {
    open spec fn number(self) -> int {
        self as int
    }

    open spec fn lowest() -> int {
        i64::MIN as int
    }

    open spec fn count() -> int {
        0x1_0000_0000_0000_0000
    }

    open spec fn zero() -> int {
        OFFSET as int
    }

    proof fn lemma_range(a: Self, b: Self) {
    }

    fn encode(self) -> u128 {
        let x: i128 = self as i128;
        assert((x as u128) ^ OFFSET == x + OFFSET) by (bit_vector);
        #[verifier::truncate]
        (x as u128) ^ OFFSET
    }

    fn decode(encoded: u128) -> Self {
        assert((encoded ^ OFFSET) as i128 as i64 == (encoded + 0x8000_0000_0000_0000) % 0x1_0000_0000_0000_0000
            - 0x8000_0000_0000_0000) by (bit_vector);
        #[verifier::truncate]
        ((encoded ^ OFFSET) as i128 as i64)
    }

    fn encode_zero() -> u128 {
        OFFSET
    }
}

impl TapeInt for i128 {
    open spec fn number(self) -> int {
        self as int
    }

    open spec fn lowest() -> int {
        i128::MIN as int
    }

    open spec fn count() -> int {
        u128::MAX + 1
    }

    open spec fn zero() -> int {
        OFFSET as int
    }

    proof fn lemma_range(a: Self, b: Self) {
    }

    fn encode(self) -> u128 {
        let x: i128 = self as i128;
        assert((x as u128) ^ OFFSET == x + OFFSET) by (bit_vector);
        #[verifier::truncate]
        (x as u128) ^ OFFSET
    }

    fn decode(encoded: u128) -> Self {
        assert((encoded ^ OFFSET) as i128 == encoded - OFFSET) by (bit_vector);
        #[verifier::truncate]
        ((encoded ^ OFFSET) as i128 as i128)
    }

    fn encode_zero() -> u128 {
        OFFSET
    }
}

proof fn lemma_decode_isize(encoded: u128)
    ensures
        (encoded ^ OFFSET) as i128 as isize == wrapped(
            encoded - OFFSET,
            isize::MIN as int,
            usize::MAX + 1,
        ),
{
    if usize::BITS == 32 {
        let half: int = 0x8000_0000;
        let m: int = 0x1_0000_0000;
        assert(usize::BITS == 32 ==> (encoded ^ OFFSET) as i128 as isize == (encoded + 0x8000_0000)
            % 0x1_0000_0000 - 0x8000_0000) by (bit_vector);
        lemma_mod_multiples_vanish(-0x8000_0000_0000_0000_0000_0000, encoded + half, m);
        assert(isize::MIN == -half);
        assert(usize::MAX + 1 == m);
    } else {
        let half: int = 0x8000_0000_0000_0000;
        let m: int = 0x1_0000_0000_0000_0000;
        assert(usize::BITS == 64 ==> (encoded ^ OFFSET) as i128 as isize == (encoded
            + 0x8000_0000_0000_0000) % 0x1_0000_0000_0000_0000 - 0x8000_0000_0000_0000)
            by (bit_vector);
        lemma_mod_multiples_vanish(-0x8000_0000_0000_0000, encoded + half, m);
        assert(isize::MIN == -half);
        assert(usize::MAX + 1 == m);
    }
}

impl TapeInt for isize {
    open spec fn number(self) -> int {
        self as int
    }

    open spec fn lowest() -> int {
        isize::MIN as int
    }

    open spec fn count() -> int {
        usize::MAX + 1
    }

    open spec fn zero() -> int {
        OFFSET as int
    }

    proof fn lemma_range(a: Self, b: Self) {
    }

    fn encode(self) -> u128 {
        let x: i128 = self as i128;
        assert((x as u128) ^ OFFSET == x + OFFSET) by (bit_vector);
        #[verifier::truncate]
        (x as u128) ^ OFFSET
    }

    fn decode(encoded: u128) -> Self {
        proof {
            lemma_decode_isize(encoded);
        }
        #[verifier::truncate]
        ((encoded ^ OFFSET) as i128 as isize)
    }

    fn encode_zero() -> u128 {
        OFFSET
    }
}

/// Unsigned integers are embedded as themselves, and signed ones shifted up by
/// `2^127`.
pub proof fn lemma_embeddings(
    a: u8,
    b: u16,
    c: u32,
    d: u64,
    e: u128,
    f: usize,
    g: i8,
    h: i16,
    i: i32,
    j: i64,
    k: i128,
    l: isize,
)
    ensures
        a.number() == a && <u8 as TapeInt>::zero() == 0,
        b.number() == b && <u16 as TapeInt>::zero() == 0,
        c.number() == c && <u32 as TapeInt>::zero() == 0,
        d.number() == d && <u64 as TapeInt>::zero() == 0,
        e.number() == e && <u128 as TapeInt>::zero() == 0,
        f.number() == f && <usize as TapeInt>::zero() == 0,
        g.number() == g && <i8 as TapeInt>::zero() == 0x8000_0000_0000_0000_0000_0000_0000_0000,
        h.number() == h && <i16 as TapeInt>::zero() == 0x8000_0000_0000_0000_0000_0000_0000_0000,
        i.number() == i && <i32 as TapeInt>::zero() == 0x8000_0000_0000_0000_0000_0000_0000_0000,
        j.number() == j && <i64 as TapeInt>::zero() == 0x8000_0000_0000_0000_0000_0000_0000_0000,
        k.number() == k && <i128 as TapeInt>::zero() == 0x8000_0000_0000_0000_0000_0000_0000_0000,
        l.number() == l && <isize as TapeInt>::zero() == 0x8000_0000_0000_0000_0000_0000_0000_0000,
{
}

/// The ranges of the types.
pub proof fn lemma_ranges()
    ensures
        <u8 as TapeInt>::lowest() == u8::MIN,
        <u8 as TapeInt>::count() == u8::MAX - u8::MIN + 1,
        <u16 as TapeInt>::lowest() == u16::MIN,
        <u16 as TapeInt>::count() == u16::MAX - u16::MIN + 1,
        <u32 as TapeInt>::lowest() == u32::MIN,
        <u32 as TapeInt>::count() == u32::MAX - u32::MIN + 1,
        <u64 as TapeInt>::lowest() == u64::MIN,
        <u64 as TapeInt>::count() == u64::MAX - u64::MIN + 1,
        <u128 as TapeInt>::lowest() == u128::MIN,
        <u128 as TapeInt>::count() == u128::MAX - u128::MIN + 1,
        <usize as TapeInt>::lowest() == usize::MIN,
        <usize as TapeInt>::count() == usize::MAX - usize::MIN + 1,
        <i8 as TapeInt>::lowest() == i8::MIN,
        <i8 as TapeInt>::count() == i8::MAX - i8::MIN + 1,
        <i16 as TapeInt>::lowest() == i16::MIN,
        <i16 as TapeInt>::count() == i16::MAX - i16::MIN + 1,
        <i32 as TapeInt>::lowest() == i32::MIN,
        <i32 as TapeInt>::count() == i32::MAX - i32::MIN + 1,
        <i64 as TapeInt>::lowest() == i64::MIN,
        <i64 as TapeInt>::count() == i64::MAX - i64::MIN + 1,
        <i128 as TapeInt>::lowest() == i128::MIN,
        <i128 as TapeInt>::count() == i128::MAX - i128::MIN + 1,
        <isize as TapeInt>::lowest() == isize::MIN,
        <isize as TapeInt>::count() == isize::MAX - isize::MIN + 1,
{
}

} // verus!
