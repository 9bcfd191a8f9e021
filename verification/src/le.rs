//! Little-endian numbers on byte sequences.
use vstd::arithmetic::power::pow;
use vstd::prelude::*;

verus! {

/// The `n` low bytes of `x`, least significant first.
pub open spec fn le_bytes(x: nat, n: nat) -> Seq<u8>
    decreases n,
{
    if n == 0 {
        Seq::empty()
    } else {
        seq![(x % 256) as u8] + le_bytes(x / 256, (n - 1) as nat)
    }
}

/// The number that a byte sequence spells, least significant byte first.
pub open spec fn le_value(s: Seq<u8>) -> nat
    decreases s.len(),
{
    if s.len() == 0 {
        0
    } else {
        s[0] as nat + 256 * le_value(s.drop_first())
    }
}

/// `n` bytes are written for an `n`-byte number.
pub proof fn lemma_le_bytes_len(x: nat, n: nat)
    ensures
        le_bytes(x, n).len() == n,
    decreases n,
{
    if n > 0 {
        lemma_le_bytes_len(x / 256, (n - 1) as nat);
    }
}

/// A sequence of `n` bytes spells a number below `256^n`.
pub proof fn lemma_le_value_bound(s: Seq<u8>)
    ensures
        le_value(s) < pow(256, s.len()),
    decreases s.len(),
{
    reveal(pow);
    if s.len() > 0 {
        lemma_le_value_bound(s.drop_first());
        assert(pow(256, s.len()) == 256 * pow(256, s.drop_first().len()));
    }
}

/// Which byte stands where: each one is worth 256 times the one before it.
pub proof fn lemma_le_byte_at(x: nat, n: nat, i: nat)
    requires
        i < n,
    ensures
        le_bytes(x, n).len() == n,
        le_bytes(x, n)[i as int] == (x / pow(256, i) as nat) % 256,
    decreases i,
{
    lemma_le_bytes_len(x, n);
    lemma_le_bytes_len(x / 256, (n - 1) as nat);
    reveal(pow);
    if i > 0 {
        let j = (i - 1) as nat;
        lemma_le_byte_at(x / 256, (n - 1) as nat, j);
        lemma_pow256_monotonic(j, j);
        vstd::arithmetic::div_mod::lemma_div_denominator(x as int, 256, pow(256, j));
        assert(pow(256, i) == 256 * pow(256, j));
        assert((x / 256) / pow(256, j) as nat == x / pow(256, i) as nat);
        assert(le_bytes(x, n)[i as int] == le_bytes(x / 256, (n - 1) as nat)[j as int]);
    } else {
        assert(pow(256, 0) == 1);
        assert(x / 1 == x);
    }
}

/// Reading back the bytes of a number that fits gives the number.
pub proof fn lemma_le_round_trip(x: nat, n: nat)
    requires
        x < pow(256, n),
    ensures
        le_value(le_bytes(x, n)) == x,
    decreases n,
{
    reveal(pow);
    if n > 0 {
        let rest = le_bytes(x / 256, (n - 1) as nat);
        assert(pow(256, n) == 256 * pow(256, (n - 1) as nat));
        lemma_le_round_trip(x / 256, (n - 1) as nat);
        assert(le_bytes(x, n).drop_first() =~= rest);
    }
}

/// Writing back the number that a byte sequence spells gives the sequence.
pub proof fn lemma_le_bytes_of_value(s: Seq<u8>)
    ensures
        le_bytes(le_value(s), s.len()) == s,
    decreases s.len(),
{
    if s.len() > 0 {
        lemma_le_bytes_of_value(s.drop_first());
        let x = le_value(s);
        assert(x % 256 == s[0] as nat);
        assert(x / 256 == le_value(s.drop_first()));
        assert(seq![s[0]] + s.drop_first() =~= s);
    }
}

/// The sizes of the integers that are read and written.
pub proof fn lemma_le_sizes()
    ensures
        pow(256, 1) == 0x100,
        pow(256, 4) == 0x1_0000_0000,
        pow(256, 8) == 0x1_0000_0000_0000_0000,
        pow(256, 16) == 0x1_0000_0000_0000_0000_0000_0000_0000_0000,
{
    reveal(pow);
    reveal_with_fuel(pow, 17);
    assert(pow(256, 4) == 0x1_0000_0000);
    assert(pow(256, 8) == 0x1_0000_0000_0000_0000);
}

/// Appends the `n` low bytes of `x` to `out`, least significant first.
pub fn push_le(x: u128, n: usize, out: &mut Vec<u8>)
    ensures
        final(out)@ == old(out)@ + le_bytes(x as nat, n as nat),
{
    let ghost start = out@;
    let mut rest: u128 = x;
    let mut i: usize = 0;
    while i < n
        invariant
            i <= n,
            out@ + le_bytes(rest as nat, (n - i) as nat) =~= start + le_bytes(x as nat, n as nat),
        decreases n - i,
    {
        let ghost before = out@;
        let byte: u8 = (rest % 256) as u8;
        out.push(byte);
        assert(le_bytes(rest as nat, (n - i) as nat) =~= seq![byte] + le_bytes(
            rest as nat / 256,
            (n - i - 1) as nat,
        ));
        assert(out@ =~= before + seq![byte]);
        rest = rest / 256;
        i += 1;
    }
    assert(le_bytes(rest as nat, 0) =~= Seq::<u8>::empty());
    assert(out@ =~= out@ + le_bytes(rest as nat, 0));
}

/// The number that the bytes spell, least significant first.
pub fn read_le(bytes: &[u8]) -> (r: u128)
    requires
        bytes@.len() <= 16,
    ensures
        r == le_value(bytes@),
{
    let mut value: u128 = 0;
    let mut i: usize = bytes.len();
    assert(bytes@.skip(i as int) =~= Seq::<u8>::empty());
    while i > 0
        invariant
            i <= bytes@.len() <= 16,
            value == le_value(bytes@.skip(i as int)),
        decreases i,
    {
        proof {
            let tail = bytes@.skip(i - 1);
            assert(tail.drop_first() =~= bytes@.skip(i as int));
            assert(tail[0] == bytes@[i - 1]);
            lemma_le_value_bound(tail);
            lemma_pow256_monotonic(tail.len(), 16);
            lemma_le_sizes();
        }
        i -= 1;
        value = bytes[i] as u128 + 256 * value;
    }
    assert(bytes@.skip(0) =~= bytes@);
    value
}

proof fn lemma_pow256_monotonic(m: nat, n: nat)
    requires
        m <= n,
    ensures
        pow(256, m) <= pow(256, n),
        0 < pow(256, m),
    decreases n,
{
    reveal(pow);
    if m < n {
        lemma_pow256_monotonic(m, (n - 1) as nat);
        assert(pow(256, n) == 256 * pow(256, (n - 1) as nat));
    } else if m > 0 {
        lemma_pow256_monotonic((m - 1) as nat, (m - 1) as nat);
        assert(pow(256, m) == 256 * pow(256, (m - 1) as nat));
    }
}

} // verus!
