use vstd::prelude::*;
use vstd::string::StringSliceAdditionalSpecFns;
use vstd::utf8::encode_utf8;

verus! {

/// The value of a hexadecimal digit in ASCII, of either case; none for any other byte.
pub open spec fn digit_value(b: u8) -> Option<int> {
    if 48 <= b <= 57 {
        Some(b - 48)
    } else if 65 <= b <= 70 {
        Some(b - 55)
    } else if 97 <= b <= 102 {
        Some(b - 87)
    } else {
        None
    }
}

/// Whether every byte is a hexadecimal digit.
pub open spec fn all_hex(bytes: Seq<u8>) -> bool {
    forall|i: int| 0 <= i < bytes.len() ==> digit_value(#[trigger] bytes[i]) is Some
}

/// The number that hexadecimal digits spell, most significant digit first.
pub open spec fn hex_value(bytes: Seq<u8>) -> int
    decreases bytes.len(),
{
    if bytes.len() == 0 {
        0
    } else {
        hex_value(bytes.drop_last()) * 16 + digit_value(bytes.last()).unwrap()
    }
}

/// The number that a segment file's name spells: sixteen hexadecimal digits;
/// none for any other name.
pub open spec fn parsed_hex16(bytes: Seq<u8>) -> Option<u64> {
    if bytes.len() == 16 && all_hex(bytes) {
        Some(hex_value(bytes) as u64)
    } else {
        None
    }
}

/// The upper-case hexadecimal digit for a value below sixteen, in ASCII.
pub open spec fn digit_byte(d: int) -> u8 {
    if d < 10 {
        (48 + d) as u8
    } else {
        (55 + d) as u8
    }
}

/// The last `n` hexadecimal digits of `v`, upper case, most significant first.
pub open spec fn hex_text(v: int, n: nat) -> Seq<u8>
    decreases n,
{
    if n == 0 {
        Seq::empty()
    } else {
        hex_text(v / 16, (n - 1) as nat).push(digit_byte(v % 16))
    }
}

/// The name of the segment file with number `id`: sixteen upper-case
/// hexadecimal digits, zeros in front.
pub open spec fn hex16(id: u64) -> Seq<u8> {
    hex_text(id as int, 16)
}

/// Sixteen to the power of `n`.
pub open spec fn pow16(n: nat) -> int
    decreases n,
{
    if n == 0 {
        1
    } else {
        16 * pow16((n - 1) as nat)
    }
}

/// Digits spell a number below sixteen to the power of their count.
pub proof fn lemma_hex_value_bound(bytes: Seq<u8>)
    requires
        all_hex(bytes),
    ensures
        0 <= hex_value(bytes) < pow16(bytes.len()),
    decreases bytes.len(),
{
    if bytes.len() > 0 {
        assert(digit_value(bytes[bytes.len() - 1]) is Some);
        assert forall|i: int| 0 <= i < bytes.drop_last().len() implies digit_value(
            #[trigger] bytes.drop_last()[i],
        ) is Some by {
            assert(bytes.drop_last()[i] == bytes[i]);
        }
        lemma_hex_value_bound(bytes.drop_last());
    }
}

/// The digits of a number are digits, as many as asked for, and spell the
/// number again as far as they reach.
pub proof fn lemma_hex_text(v: int, n: nat)
    requires
        0 <= v,
    ensures
        hex_text(v, n).len() == n,
        all_hex(hex_text(v, n)),
        hex_value(hex_text(v, n)) == v % pow16(n),
    decreases n,
{
    if n > 0 {
        let rest = hex_text(v / 16, (n - 1) as nat);
        let text = hex_text(v, n);
        lemma_hex_text(v / 16, (n - 1) as nat);
        assert(text.drop_last() =~= rest);
        assert(digit_value(digit_byte(v % 16)) == Some(v % 16));
        assert forall|i: int| 0 <= i < text.len() implies digit_value(#[trigger] text[i])
            is Some by {
            if i < n - 1 {
                assert(text[i] == rest[i]);
            }
        }
        let p = pow16((n - 1) as nat);
        lemma_pow16_positive((n - 1) as nat);
        assert(hex_value(text) == (v / 16 % p) * 16 + v % 16);
        vstd::arithmetic::div_mod::lemma_mod_breakdown(v, 16, p);
    }
}

/// Powers of sixteen are positive.
pub proof fn lemma_pow16_positive(n: nat)
    ensures
        pow16(n) > 0,
    decreases n,
{
    if n > 0 {
        lemma_pow16_positive((n - 1) as nat);
    }
}

/// Sixteen to the power of sixteen is one more than the largest `u64`.
pub proof fn lemma_pow16_of_16()
    ensures
        pow16(16) == 18446744073709551616,
{
    reveal_with_fuel(pow16, 17);
}

/// The name of a segment file spells the file's number.
pub proof fn lemma_hex16_round_trip(id: u64)
    ensures
        parsed_hex16(hex16(id)) == Some(id),
{
    lemma_hex_text(id as int, 16);
    lemma_pow16_of_16();
}

/// Reads a segment file's name: sixteen hexadecimal digits of either case.
pub fn parse_hex16(name: &str) -> (r: Option<u64>)
    ensures
        r == parsed_hex16(encode_utf8(name@)),
{
    let bytes = name.as_bytes();
    if bytes.len() != 16 {
        return None;
    }
    let mut value: u64 = 0;
    let mut i: usize = 0;
    while i < 16
        invariant
            i <= 16,
            bytes@.len() == 16,
            bytes@ == encode_utf8(name@),
            all_hex(bytes@.subrange(0, i as int)),
            value == hex_value(bytes@.subrange(0, i as int)),
        decreases 16 - i,
    {
        let b = bytes[i];
        let digit: u64 = if 48 <= b && b <= 57 {
            (b - 48) as u64
        } else if 65 <= b && b <= 70 {
            (b - 55) as u64
        } else if 97 <= b && b <= 102 {
            (b - 87) as u64
        } else {
            proof {
                let all = bytes@;
                assert(digit_value(all[i as int]) is None);
                assert(!all_hex(all));
                assert(all == encode_utf8(name@));
            }
            return None;
        };
        proof {
            let before = bytes@.subrange(0, i as int);
            let now = bytes@.subrange(0, i + 1);
            lemma_hex_value_bound(before);
            lemma_pow16_monotone(i as nat, 15);
            lemma_pow16_of_16();
            assert(pow16(16) == 16 * pow16(15));
            assert(now.drop_last() =~= before);
            assert(now.last() == b);
            assert forall|j: int| 0 <= j < now.len() implies digit_value(#[trigger] now[j])
                is Some by {
                if j < i {
                    assert(now[j] == before[j]);
                }
            }
        }
        value = value * 16 + digit;
        i += 1;
    }
    assert(bytes@.subrange(0, 16) =~= bytes@);
    Some(value)
}

/// Powers of sixteen grow with the exponent.
pub proof fn lemma_pow16_monotone(a: nat, b: nat)
    requires
        a <= b,
    ensures
        pow16(a) <= pow16(b),
    decreases b,
{
    if a < b {
        lemma_pow16_monotone(a, (b - 1) as nat);
        lemma_pow16_positive((b - 1) as nat);
    }
}

/// `format!` with `{:016X}`: the number in upper-case hexadecimal digits,
/// filled with zeros in front to sixteen digits. A `u64` never takes more.
#[verifier::external_body]
pub(crate) fn format_hex16(id: u64) -> (name: String)
    ensures
        encode_utf8(name@) == hex16(id),
{
    format!("{:016X}", id)
}

} // verus!
