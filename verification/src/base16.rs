//! Byte strings as text: two hexadecimal digits per byte, high digit first.
use vstd::prelude::*;
use vstd::string::StringExecFns;

verus! {

/// The digit for a number below 16.
pub open spec fn hex_char(n: nat) -> char {
    if n < 10 {
        (0x30 + n) as char
    } else {
        (0x61 + n - 10) as char
    }
}

/// The text of a byte string.
pub open spec fn hex_of(bytes: Seq<u8>) -> Seq<char> {
    Seq::new(
        2 * bytes.len(),
        |i: int|
            hex_char(
                if i % 2 == 0 {
                    bytes[i / 2] as nat / 16
                } else {
                    bytes[i / 2] as nat % 16
                },
            ),
    )
}

/// The number that a digit of either case stands for.
pub open spec fn digit_value(c: char) -> Option<nat> {
    if '0' <= c <= '9' {
        Some((c as nat - 0x30) as nat)
    } else if 'a' <= c <= 'f' {
        Some((c as nat - 0x61 + 10) as nat)
    } else if 'A' <= c <= 'F' {
        Some((c as nat - 0x41 + 10) as nat)
    } else {
        None
    }
}

/// An even number of digits.
pub open spec fn is_hex(s: Seq<char>) -> bool {
    s.len() % 2 == 0 && forall|i: int| 0 <= i < s.len() ==> digit_value(#[trigger] s[i]) is Some
}

/// The byte string that a text spells.
pub open spec fn unhex(s: Seq<char>) -> Option<Seq<u8>> {
    if is_hex(s) {
        Some(
            Seq::new(
                s.len() / 2,
                |i: int| (16 * digit_value(s[2 * i])->0 + digit_value(s[2 * i + 1])->0) as u8,
            ),
        )
    } else {
        None
    }
}

/// Reading the text of a byte string gives it back.
pub proof fn lemma_hex_round_trip(bytes: Seq<u8>)
    ensures
        unhex(hex_of(bytes)) == Some(bytes),
{
    let s = hex_of(bytes);
    assert forall|i: int| 0 <= i < s.len() implies digit_value(#[trigger] s[i]) == Some(
        if i % 2 == 0 {
            bytes[i / 2] as nat / 16
        } else {
            bytes[i / 2] as nat % 16
        },
    ) by {}
    assert(unhex(s)->0 =~= bytes) by {
        assert forall|i: int| 0 <= i < bytes.len() implies unhex(s)->0[i] == bytes[i] by {
            assert(digit_value(s[2 * i]) == Some(bytes[i] as nat / 16));
            assert(digit_value(s[2 * i + 1]) == Some(bytes[i] as nat % 16));
        }
    }
}

/// The text of a byte string is made of digits, in lower case.
pub proof fn lemma_hex_digits(bytes: Seq<u8>)
    ensures
        forall|i: int|
            0 <= i < hex_of(bytes).len() ==> ('0' <= #[trigger] hex_of(bytes)[i] <= '9' || 'a'
                <= hex_of(bytes)[i] <= 'f'),
{
}

/// Each byte is spelled by two digits, that of its high half first; halves below
/// ten by decimal digits, and others by lower-case letters.
pub proof fn lemma_hex_spelling(bytes: Seq<u8>, i: int)
    requires
        0 <= i < bytes.len(),
    ensures
        hex_of(bytes).len() == 2 * bytes.len(),
        ({
            let (high, low) = (bytes[i] as nat / 16, bytes[i] as nat % 16);
            let (c, d) = (hex_of(bytes)[2 * i] as nat, hex_of(bytes)[2 * i + 1] as nat);
            &&& c == (if high < 10 { 48 + high } else { 87 + high })
            &&& d == (if low < 10 { 48 + low } else { 87 + low })
        }),
{
}

/// Which texts are read, and what a pair of digits spells: digits of either case
/// count, in pairs only, the high half first.
pub proof fn lemma_hex_reading(s: Seq<char>, i: int)
    ensures
        unhex(s) is Some <==> s.len() % 2 == 0 && forall|j: int|
            0 <= j < s.len() ==> {
                ||| '0' <= #[trigger] s[j] <= '9'
                ||| 'a' <= s[j] <= 'f'
                ||| 'A' <= s[j] <= 'F'
            },
        unhex(s) is Some && 0 <= i < s.len() / 2 ==> {
            let r = unhex(s)->0;
            &&& r.len() == s.len() / 2
            &&& r[i] == 16 * digit_number(s[2 * i]) + digit_number(s[2 * i + 1])
        },
{
    if unhex(s) is Some {
        assert forall|j: int| 0 <= j < s.len() implies {
            ||| '0' <= #[trigger] s[j] <= '9'
            ||| 'a' <= s[j] <= 'f'
            ||| 'A' <= s[j] <= 'F'
        } by {
            assert(digit_value(s[j]) is Some);
        }
        if 0 <= i < s.len() / 2 {
            assert(digit_value(s[2 * i]) == Some(digit_number(s[2 * i]) as nat));
            assert(digit_value(s[2 * i + 1]) == Some(digit_number(s[2 * i + 1]) as nat));
        }
    }
}

/// How far a digit is from that for zero, or a letter from that for ten.
pub open spec fn digit_number(c: char) -> int {
    if c <= '9' {
        c as int - 48
    } else if c <= 'F' {
        c as int - 65 + 10
    } else {
        c as int - 97 + 10
    }
}

/// The digit for a number below 16.
fn digit_text(n: u8) -> (r: &'static str)
    requires
        n < 16,
    ensures
        r@ == seq![hex_char(n as nat)],
{
    proof {
        reveal_strlit("0");
        reveal_strlit("1");
        reveal_strlit("2");
        reveal_strlit("3");
        reveal_strlit("4");
        reveal_strlit("5");
        reveal_strlit("6");
        reveal_strlit("7");
        reveal_strlit("8");
        reveal_strlit("9");
        reveal_strlit("a");
        reveal_strlit("b");
        reveal_strlit("c");
        reveal_strlit("d");
        reveal_strlit("e");
        reveal_strlit("f");
    }
    let r = match n {
        0 => "0",
        1 => "1",
        2 => "2",
        3 => "3",
        4 => "4",
        5 => "5",
        6 => "6",
        7 => "7",
        8 => "8",
        9 => "9",
        10 => "a",
        11 => "b",
        12 => "c",
        13 => "d",
        14 => "e",
        _ => "f",
    };
    assert(r@ =~= seq![hex_char(n as nat)]);
    r
}

/// Appends the text of a byte string.
pub fn to_base16(dst: &mut String, src: &Vec<u8>)
    ensures
        final(dst)@ == old(dst)@ + hex_of(src@),
{
    let ghost start = dst@;
    let mut i: usize = 0;
    assert(start + hex_of(src@.take(0)) =~= start);
    while i < src.len()
        invariant
            i <= src@.len(),
            dst@ == start + hex_of(src@.take(i as int)),
        decreases src@.len() - i,
    {
        let ghost prior = dst@;
        dst.append(digit_text(src[i] / 16));
        dst.append(digit_text(src[i] % 16));
        proof {
            let b = src@[i as int] as nat;
            let pair = seq![hex_char(b / 16), hex_char(b % 16)];
            assert(hex_of(src@.take(i + 1)) =~= hex_of(src@.take(i as int)) + pair);
            assert(dst@ =~= prior + pair);
            assert(dst@ =~= start + hex_of(src@.take(i + 1)));
        }
        i += 1;
    }
    assert(src@.take(i as int) =~= src@);
}

/// The number that a digit of either case stands for.
fn digit(c: char) -> (r: Option<u8>)
    ensures
        match r {
            Some(v) => digit_value(c) == Some(v as nat) && v < 16,
            None => digit_value(c) is None,
        },
{
    if '0' <= c && c <= '9' {
        Some((c as u32 - 0x30) as u8)
    } else if 'a' <= c && c <= 'f' {
        Some((c as u32 - 0x61 + 10) as u8)
    } else if 'A' <= c && c <= 'F' {
        Some((c as u32 - 0x41 + 10) as u8)
    } else {
        None
    }
}

/// The byte string that a text spells; `None` unless it is an even number of
/// digits.
pub fn from_base16(src: &Vec<char>) -> (r: Option<Vec<u8>>)
    ensures
        match r {
            Some(bytes) => unhex(src@) == Some(bytes@),
            None => unhex(src@) is None,
        },
{
    if src.len() % 2 != 0 {
        return None;
    }
    let mut out: Vec<u8> = Vec::new();
    let mut i: usize = 0;
    while i < src.len()
        invariant
            src@.len() % 2 == 0,
            i % 2 == 0,
            i <= src@.len(),
            out@.len() == i / 2,
            forall|j: int| 0 <= j < i ==> digit_value(#[trigger] src@[j]) is Some,
            forall|j: int|
                0 <= j < i / 2 ==> #[trigger] out@[j] == (16 * digit_value(src@[2 * j])->0
                    + digit_value(src@[2 * j + 1])->0) as u8,
        decreases src@.len() - i,
    {
        let high: u8 = match digit(src[i]) {
            Some(v) => v,
            None => {
                assert(!is_hex(src@));
                return None;
            },
        };
        let low: u8 = match digit(src[i + 1]) {
            Some(v) => v,
            None => {
                assert(digit_value(src@[i + 1]) is None);
                assert(!is_hex(src@));
                return None;
            },
        };
        out.push(16 * high + low);
        i += 2;
    }
    assert(out@ =~= unhex(src@)->0);
    Some(out)
}

} // verus!
