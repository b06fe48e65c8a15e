//! The auxiliary multi-part-payment record: a fixed 56-byte layout
//! (type 8, length 40, the 32-byte payment secret, the total amount,
//! all integers big-endian) rendered as lowercase hexadecimal.

use vstd::prelude::*;
use vstd::arithmetic::div_mod::lemma_div_denominator;
use vstd::arithmetic::div_mod::lemma_fundamental_div_mod;
use vstd::slice::slice_to_vec;
use crate::types::CoreError;

verus! {

/// `256^k`.
pub open spec fn pow256(k: nat) -> int
    decreases k,
{
    if k == 0 {
        1
    } else {
        256 * pow256((k - 1) as nat)
    }
}

/// Byte `i` (0 = most significant) of the 8-byte big-endian rendering
/// of `x`.
pub open spec fn be_byte(x: u64, i: int) -> u8 {
    ((x as int / pow256((7 - i) as nat)) % 256) as u8
}

/// The 8-byte big-endian rendering of `x`.
pub open spec fn u64_be_bytes(x: u64) -> Seq<u8> {
    Seq::new(8, |i: int| be_byte(x, i))
}

/// The integer a big-endian byte sequence denotes.
pub open spec fn be_value(s: Seq<u8>) -> int
    decreases s.len(),
{
    if s.len() == 0 {
        0
    } else {
        be_value(s.drop_last()) * 256 + s.last()
    }
}

proof fn lemma_pow256_values()
    ensures
        pow256(0) == 1,
        pow256(1) == 0x100,
        pow256(2) == 0x1_0000,
        pow256(3) == 0x100_0000,
        pow256(4) == 0x1_0000_0000,
        pow256(5) == 0x100_0000_0000,
        pow256(6) == 0x1_0000_0000_0000,
        pow256(7) == 0x100_0000_0000_0000,
        pow256(8) == 0x1_0000_0000_0000_0000,
{
    reveal_with_fuel(pow256, 9);
}

proof fn lemma_be_prefix(x: u64, k: int)
    requires
        0 <= k <= 8,
    ensures
        be_value(u64_be_bytes(x).subrange(0, k)) == x as int / pow256((8 - k) as nat),
    decreases k,
{
    lemma_pow256_values();
    let s = u64_be_bytes(x);
    if k == 0 {
        assert(s.subrange(0, 0) =~= Seq::<u8>::empty());
        assert(x as int / pow256(8) == 0);
    } else {
        lemma_be_prefix(x, k - 1);
        let d = pow256((8 - k) as nat);
        assert(s.subrange(0, k).drop_last() =~= s.subrange(0, k - 1));
        assert(s.subrange(0, k).last() == be_byte(x, k - 1));
        assert(pow256((8 - (k - 1)) as nat) == 256 * d);
        lemma_div_denominator(x as int, d, 256);
        lemma_fundamental_div_mod(x as int / d, 256);
        assert(be_byte(x, k - 1) == ((x as int / d) % 256) as u8);
        assert(0 <= (x as int / d) % 256 < 256);
        assert(be_value(s.subrange(0, k)) == (x as int / (d * 256)) * 256 + (x as int / d) % 256);
        assert(x as int / (d * 256) == (x as int / d) / 256) by {
            lemma_div_denominator(x as int, d, 256);
        }
        assert((x as int / d) / 256 * 256 + (x as int / d) % 256 == x as int / d);
    }
}

/// Reading back the big-endian bytes of `x` yields `x`.
pub proof fn lemma_u64_be_bytes_roundtrip(x: u64)
    ensures
        u64_be_bytes(x).len() == 8,
        be_value(u64_be_bytes(x)) == x,
{
    lemma_pow256_values();
    lemma_be_prefix(x, 8);
    assert(u64_be_bytes(x).subrange(0, 8) =~= u64_be_bytes(x));
}

/// Appends the 8-byte big-endian rendering of `x` to `out`.
fn push_u64_be(out: &mut Vec<u8>, x: u64)
    ensures
        final(out)@ == old(out)@ + u64_be_bytes(x),
{
    proof {
        lemma_pow256_values();
    }
    out.push(((x / 0x100_0000_0000_0000u64) % 256) as u8);
    out.push(((x / 0x1_0000_0000_0000u64) % 256) as u8);
    out.push(((x / 0x100_0000_0000u64) % 256) as u8);
    out.push(((x / 0x1_0000_0000u64) % 256) as u8);
    out.push(((x / 0x100_0000u64) % 256) as u8);
    out.push(((x / 0x1_0000u64) % 256) as u8);
    out.push(((x / 0x100u64) % 256) as u8);
    out.push((x % 256) as u8);
    proof {
        assert(final(out)@ =~= old(out)@ + u64_be_bytes(x));
    }
}

/// The character for one hexadecimal digit, lowercase.
pub open spec fn hex_digit(n: int) -> char {
    if n == 0 {
        '0'
    } else if n == 1 {
        '1'
    } else if n == 2 {
        '2'
    } else if n == 3 {
        '3'
    } else if n == 4 {
        '4'
    } else if n == 5 {
        '5'
    } else if n == 6 {
        '6'
    } else if n == 7 {
        '7'
    } else if n == 8 {
        '8'
    } else if n == 9 {
        '9'
    } else if n == 10 {
        'a'
    } else if n == 11 {
        'b'
    } else if n == 12 {
        'c'
    } else if n == 13 {
        'd'
    } else if n == 14 {
        'e'
    } else {
        'f'
    }
}

/// The value of one hexadecimal digit character.
pub open spec fn hex_digit_value(c: char) -> int {
    if c == '1' {
        1
    } else if c == '2' {
        2
    } else if c == '3' {
        3
    } else if c == '4' {
        4
    } else if c == '5' {
        5
    } else if c == '6' {
        6
    } else if c == '7' {
        7
    } else if c == '8' {
        8
    } else if c == '9' {
        9
    } else if c == 'a' {
        10
    } else if c == 'b' {
        11
    } else if c == 'c' {
        12
    } else if c == 'd' {
        13
    } else if c == 'e' {
        14
    } else if c == 'f' {
        15
    } else {
        0
    }
}

/// The lowercase hexadecimal rendering of a byte sequence, two digits
/// per byte.
pub open spec fn hex_of(bytes: Seq<u8>) -> Seq<char>
    decreases bytes.len(),
{
    if bytes.len() == 0 {
        Seq::empty()
    } else {
        hex_of(bytes.drop_last()) + seq![
            hex_digit(bytes.last() as int / 16),
            hex_digit(bytes.last() as int % 16),
        ]
    }
}

/// The bytes a hexadecimal digit sequence denotes, two digits per byte.
pub open spec fn hex_to_bytes(s: Seq<char>) -> Seq<u8>
    decreases s.len(),
{
    if s.len() < 2 {
        Seq::empty()
    } else {
        hex_to_bytes(s.subrange(0, s.len() - 2)).push(
            (hex_digit_value(s[s.len() - 2]) * 16 + hex_digit_value(s[s.len() - 1])) as u8,
        )
    }
}

/// `c` is one of the sixteen lowercase hexadecimal digit characters:
/// exactly the characters that survive a decode-encode round trip.
pub open spec fn is_lower_hex_digit(c: char) -> bool {
    hex_digit(hex_digit_value(c)) == c
}

/// Every character of a hexadecimal rendering is a lowercase digit.
pub proof fn lemma_hex_of_lowercase(bytes: Seq<u8>)
    ensures
        forall|i: int| 0 <= i < hex_of(bytes).len() ==> is_lower_hex_digit(#[trigger] hex_of(bytes)[i]),
    decreases bytes.len(),
{
    if bytes.len() > 0 {
        lemma_hex_of_lowercase(bytes.drop_last());
        let b = bytes.last();
        let h = hex_of(bytes);
        let hp = hex_of(bytes.drop_last());
        lemma_hex_of_len(bytes.drop_last());
        assert forall|i: int| 0 <= i < h.len() implies is_lower_hex_digit(#[trigger] h[i]) by {
            if i < hp.len() {
                assert(h[i] == hp[i]);
            } else if i == h.len() - 2 {
                assert(h[i] == hex_digit(b as int / 16));
                assert(hex_digit_value(hex_digit(b as int / 16)) == b as int / 16);
            } else {
                assert(h[i] == hex_digit(b as int % 16));
                assert(hex_digit_value(hex_digit(b as int % 16)) == b as int % 16);
            }
        }
    }
}

/// The hexadecimal rendering is twice as long as the bytes it renders.
pub proof fn lemma_hex_of_len(bytes: Seq<u8>)
    ensures
        hex_of(bytes).len() == 2 * bytes.len(),
    decreases bytes.len(),
{
    if bytes.len() > 0 {
        lemma_hex_of_len(bytes.drop_last());
    }
}

/// Decoding the hexadecimal rendering of a byte sequence recovers it.
pub proof fn lemma_hex_roundtrip(bytes: Seq<u8>)
    ensures
        hex_to_bytes(hex_of(bytes)) == bytes,
    decreases bytes.len(),
{
    if bytes.len() == 0 {
        assert(hex_to_bytes(hex_of(bytes)) =~= bytes);
    } else {
        let rest = bytes.drop_last();
        let b = bytes.last();
        lemma_hex_roundtrip(rest);
        lemma_hex_of_len(rest);
        let h = hex_of(bytes);
        assert(h.subrange(0, h.len() - 2) =~= hex_of(rest));
        assert(h[h.len() - 2] == hex_digit(b as int / 16));
        assert(h[h.len() - 1] == hex_digit(b as int % 16));
        lemma_fundamental_div_mod(b as int, 16);
        assert(hex_digit_value(hex_digit(b as int / 16)) == b as int / 16);
        assert(hex_digit_value(hex_digit(b as int % 16)) == b as int % 16);
        assert((b as int / 16) * 16 + b as int % 16 == b);
        assert(hex_to_bytes(h) =~= bytes);
    }
}

fn hex_digit_str(n: u8) -> (s: &'static str)
    requires
        n < 16,
    ensures
        s@ =~= seq![hex_digit(n as int)],
{
    let s: &'static str = match n {
        0 => "0",
        1 => "1",
        2 => "2",
        3 => "3",
        4 => "4",
        5 => "5",
        6 => "6",
        7 => "7",
        8 => "8",
        9 => "9",
        10 => "a",
        11 => "b",
        12 => "c",
        13 => "d",
        14 => "e",
        _ => "f",
    };
    proof {
        reveal_strlit("0");
        reveal_strlit("1");
        reveal_strlit("2");
        reveal_strlit("3");
        reveal_strlit("4");
        reveal_strlit("5");
        reveal_strlit("6");
        reveal_strlit("7");
        reveal_strlit("8");
        reveal_strlit("9");
        reveal_strlit("a");
        reveal_strlit("b");
        reveal_strlit("c");
        reveal_strlit("d");
        reveal_strlit("e");
        reveal_strlit("f");
    }
    s
}

/// Renders a byte sequence as lowercase hexadecimal, two digits per
/// byte.
pub fn bytes_to_hex(bytes: &Vec<u8>) -> (s: String)
    ensures
        s@ == hex_of(bytes@),
{
    let mut s = String::new();
    let mut i: usize = 0;
    while i < bytes.len()
        invariant
            i <= bytes@.len(),
            s@ == hex_of(bytes@.subrange(0, i as int)),
        decreases bytes@.len() - i,
    {
        let b = bytes[i];
        s.append(hex_digit_str(b / 16));
        s.append(hex_digit_str(b % 16));
        i = i + 1;
        proof {
            let pre = bytes@.subrange(0, i as int);
            assert(pre.drop_last() =~= bytes@.subrange(0, i - 1));
            assert(s@ =~= hex_of(pre));
        }
    }
    proof {
        assert(bytes@.subrange(0, bytes@.len() as int) =~= bytes@);
    }
    s
}

/// The 56-byte auxiliary record: type 8 and length 40 as 8-byte
/// big-endian integers, the 32-byte payment secret verbatim, then the
/// grand total amount as an 8-byte big-endian integer.
pub open spec fn mpp_record_bytes(secret: Seq<u8>, total_msat: u64) -> Seq<u8> {
    u64_be_bytes(8) + u64_be_bytes(40) + secret + u64_be_bytes(total_msat)
}

/// The lowercase hexadecimal rendering of the auxiliary record.
pub open spec fn mpp_record_hex(secret: Seq<u8>, total_msat: u64) -> Seq<char> {
    hex_of(mpp_record_bytes(secret, total_msat))
}

/// Builds the hex-encoded auxiliary multi-part-payment record carrying
/// the payment secret and the grand total amount; the secret must be
/// exactly 32 bytes.
pub fn create_mpp_tlv(payment_secret: &[u8], total_msat: u64) -> (r: Result<String, CoreError>)
    ensures
        payment_secret@.len() == 32 ==> (r matches Ok(s) && s@ == mpp_record_hex(
            payment_secret@,
            total_msat,
        )),
        payment_secret@.len() != 32 ==> r == Err::<String, CoreError>(
            CoreError::SecretLengthMismatch,
        ),
{
    if payment_secret.len() != 32 {
        return Err(CoreError::SecretLengthMismatch);
    }
    let mut record: Vec<u8> = Vec::new();
    push_u64_be(&mut record, 8);
    push_u64_be(&mut record, 40);
    let mut secret = slice_to_vec(payment_secret);
    record.append(&mut secret);
    push_u64_be(&mut record, total_msat);
    proof {
        assert(record@ =~= mpp_record_bytes(payment_secret@, total_msat));
    }
    Ok(bytes_to_hex(&record))
}

/// Decoding the auxiliary hex string recovers the record, and the
/// record's fields recover the original secret and total amount.
pub proof fn lemma_payment_record_roundtrip(secret: Seq<u8>, total_msat: u64)
    requires
        secret.len() == 32,
    ensures
        mpp_record_bytes(secret, total_msat).len() == 56,
        mpp_record_hex(secret, total_msat).len() == 112,
        hex_to_bytes(mpp_record_hex(secret, total_msat)) == mpp_record_bytes(secret, total_msat),
        be_value(mpp_record_bytes(secret, total_msat).subrange(0, 8)) == 8,
        be_value(mpp_record_bytes(secret, total_msat).subrange(8, 16)) == 40,
        mpp_record_bytes(secret, total_msat).subrange(16, 48) == secret,
        be_value(mpp_record_bytes(secret, total_msat).subrange(48, 56)) == total_msat,
{
    let rec = mpp_record_bytes(secret, total_msat);
    lemma_hex_of_len(rec);
    lemma_hex_roundtrip(rec);
    lemma_u64_be_bytes_roundtrip(8);
    lemma_u64_be_bytes_roundtrip(40);
    lemma_u64_be_bytes_roundtrip(total_msat);
    assert(rec.subrange(0, 8) =~= u64_be_bytes(8));
    assert(rec.subrange(8, 16) =~= u64_be_bytes(40));
    assert(rec.subrange(16, 48) =~= secret);
    assert(rec.subrange(48, 56) =~= u64_be_bytes(total_msat));
}

} // verus!
