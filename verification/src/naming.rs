//! Names of segment files: the generation in decimal, then `.log`.

use crate::codec::string_from_utf8;
use vstd::prelude::*;
use vstd::string::*;
use vstd::utf8::*;

verus! {

/// The decimal digits of `n` in ASCII, most significant first, with no
/// leading zero.
pub open spec fn decimal_digits(n: nat) -> Seq<u8>
    decreases n,
{
    if n < 10 {
        seq![(48 + n) as u8]
    } else {
        decimal_digits(n / 10).push((48 + n % 10) as u8)
    }
}

/// The extension of a segment file, `.log`, in ASCII.
pub open spec fn extension_bytes() -> Seq<u8> {
    seq![46u8, 108u8, 111u8, 103u8]
}

/// The UTF-8 bytes of the file name of segment `generation`.
pub open spec fn segment_name_bytes(generation: u64) -> Seq<u8> {
    decimal_digits(generation as nat) + extension_bytes()
}

/// Bytes below 128 are valid UTF-8.
pub proof fn lemma_ascii_is_utf8(b: Seq<u8>)
    requires
        forall|i: int| 0 <= i < b.len() ==> b[i] < 128,
    ensures
        valid_utf8(b),
{
    let chars = Seq::new(b.len(), |i: int| b[i] as char);
    assert(is_ascii_chars(chars));
    is_ascii_chars_encode_utf8(chars);
    assert(encode_utf8(chars) =~= b);
    encode_utf8_valid_utf8(chars);
}

/// Decimal digits are ASCII digits, and there is at least one.
pub proof fn lemma_decimal_digits_ascii(n: nat)
    ensures
        decimal_digits(n).len() >= 1,
        forall|i: int| 0 <= i < decimal_digits(n).len() ==> 48 <= #[trigger] decimal_digits(n)[i] <= 57,
    decreases n,
{
    if n >= 10 {
        lemma_decimal_digits_ascii(n / 10);
    }
}

/// Appends the decimal digits of `n` to `out`.
fn push_decimal(out: &mut Vec<u8>, n: u64)
    ensures
        final(out)@ == old(out)@ + decimal_digits(n as nat),
    decreases n,
{
    if n >= 10 {
        push_decimal(out, n / 10);
    }
    let digit: u8 = 48 + (n % 10) as u8;
    out.push(digit);
    assert(out@ =~= old(out)@ + decimal_digits(n as nat));
}

/// The file name of segment `generation`.
pub fn segment_file_name(generation: u64) -> (name: String)
    ensures
        encode_utf8(name@) == segment_name_bytes(generation),
{
    let mut bytes: Vec<u8> = Vec::new();
    push_decimal(&mut bytes, generation);
    bytes.push(46);
    bytes.push(108);
    bytes.push(111);
    bytes.push(103);
    proof {
        lemma_decimal_digits_ascii(generation as nat);
        assert(bytes@ =~= segment_name_bytes(generation));
        lemma_ascii_is_utf8(bytes@);
    }
    match string_from_utf8(bytes) {
        Some(name) => name,
        None => String::new(),
    }
}

/// `d` is a decimal numeral as `decimal_digits` writes it: at least one
/// digit, digits only, and no leading zero but for the numeral `0`.
pub open spec fn canonical_digits(d: Seq<u8>) -> bool {
    &&& d.len() >= 1
    &&& forall|i: int| 0 <= i < d.len() ==> 48 <= #[trigger] d[i] <= 57
    &&& (d[0] == 48 ==> d.len() == 1)
}

/// The number that the decimal digits `d` stand for.
pub open spec fn digits_value(d: Seq<u8>) -> nat
    decreases d.len(),
{
    if d.len() == 0 {
        0
    } else {
        digits_value(d.drop_last()) * 10 + (d.last() - 48) as nat
    }
}

/// The digits of a number are canonical and stand for that number.
pub proof fn lemma_decimal_digits_value(n: nat)
    ensures
        canonical_digits(decimal_digits(n)),
        digits_value(decimal_digits(n)) == n,
    decreases n,
{
    let d = decimal_digits(n);
    if n < 10 {
        assert(d.drop_last() =~= Seq::<u8>::empty());
        assert(digits_value(d.drop_last()) == 0);
    } else {
        let shorter = decimal_digits(n / 10);
        lemma_decimal_digits_value(n / 10);
        assert(d.drop_last() =~= shorter);
        assert(d[0] == shorter[0]);
        if shorter[0] == 48 {
            assert(shorter.drop_last() =~= Seq::<u8>::empty());
            assert(digits_value(shorter.drop_last()) == 0);
        }
    }
}

/// Canonical digits are the digits of the number they stand for.
pub proof fn lemma_digits_of_value(d: Seq<u8>)
    requires
        canonical_digits(d),
    ensures
        decimal_digits(digits_value(d)) == d,
    decreases d.len(),
{
    if d.len() == 1 {
        assert(d.drop_last() =~= Seq::<u8>::empty());
        assert(digits_value(d.drop_last()) == 0);
        assert(decimal_digits(digits_value(d)) =~= d);
    } else {
        let shorter = d.drop_last();
        assert(shorter[0] == d[0]);
        assert forall|i: int| 0 <= i < shorter.len() implies 48 <= #[trigger] shorter[i]
            <= 57 by {
            assert(shorter[i] == d[i]);
        }
        lemma_digits_of_value(shorter);
        let v = digits_value(shorter);
        let x = (d.last() - 48) as nat;
        assert(48 <= d[d.len() - 1] <= 57);
        if v == 0 {
            assert(decimal_digits(0)[0] == 48);
        }
        assert(digits_value(d) == v * 10 + x);
        assert((v * 10 + x) / 10 == v);
        assert((v * 10 + x) % 10 == x);
        assert(decimal_digits(digits_value(d)) =~= d);
    }
}

/// A numeral stands for at least as much as any of its prefixes.
pub proof fn lemma_digits_value_prefix(d: Seq<u8>, i: int)
    requires
        0 <= i <= d.len(),
        forall|j: int| 0 <= j < d.len() ==> 48 <= #[trigger] d[j] <= 57,
    ensures
        digits_value(d.take(i)) <= digits_value(d),
    decreases d.len(),
{
    if i == d.len() {
        assert(d.take(i) =~= d);
    } else {
        let shorter = d.drop_last();
        assert forall|j: int| 0 <= j < shorter.len() implies 48 <= #[trigger] shorter[j]
            <= 57 by {
            assert(shorter[j] == d[j]);
        }
        lemma_digits_value_prefix(shorter, i);
        assert(shorter.take(i) =~= d.take(i));
        assert(48 <= d[d.len() - 1] <= 57);
    }
}

/// The generation that a file name stands for, if it is the name of a
/// segment file: `Some(g)` exactly for the name that `segment_file_name`
/// gives for `g`, and `None` for every other name.
pub fn parse_segment_name(name: &str) -> (res: Option<u64>)
    ensures
        match res {
            Some(g) => encode_utf8(name@) == segment_name_bytes(g),
            None => forall|g: u64| encode_utf8(name@) != segment_name_bytes(g),
        },
{
    let bytes = name.as_bytes();
    let n = bytes.len();
    if n < 5 {
        assert forall|g: u64| bytes@ != segment_name_bytes(g) by {
            lemma_decimal_digits_value(g as nat);
        }
        return None;
    }
    let m = n - 4;
    if bytes[m] != 46 || bytes[m + 1] != 108 || bytes[m + 2] != 111 || bytes[m + 3] != 103 {
        assert forall|g: u64| bytes@ != segment_name_bytes(g) by {
            let other = segment_name_bytes(g);
            if bytes@ == other {
                let k = decimal_digits(g as nat).len() as int;
                assert(other[k] == 46 && other[k + 1] == 108 && other[k + 2] == 111 && other[k
                    + 3] == 103);
            }
        }
        return None;
    }
    if bytes[0] == 48 && m > 1 {
        assert forall|g: u64| bytes@ != segment_name_bytes(g) by {
            lemma_decimal_digits_value(g as nat);
            let other = segment_name_bytes(g);
            if bytes@ == other {
                assert(other[0] == decimal_digits(g as nat)[0]);
            }
        }
        return None;
    }
    let ghost digits = bytes@.subrange(0, m as int);
    let mut value: u64 = 0;
    let mut i: usize = 0;
    assert(digits.take(0) =~= Seq::<u8>::empty());
    while i < m
        invariant
            i <= m,
            m + 4 == bytes@.len(),
            bytes@ == encode_utf8(name@),
            digits == bytes@.subrange(0, m as int),
            forall|j: int| 0 <= j < i ==> 48 <= #[trigger] digits[j] <= 57,
            value == digits_value(digits.take(i as int)),
        decreases m - i,
    {
        let b = bytes[i];
        if b < 48 || b > 57 {
            assert forall|g: u64| bytes@ != segment_name_bytes(g) by {
                lemma_decimal_digits_value(g as nat);
                let other = segment_name_bytes(g);
                if bytes@ == other {
                    assert(other[i as int] == decimal_digits(g as nat)[i as int]);
                }
            }
            return None;
        }
        let digit = (b - 48) as u64;
        assert(digits.take(i + 1).drop_last() =~= digits.take(i as int));
        assert(digits.take(i + 1).last() == b);
        if value > (u64::MAX - digit) / 10 {
            assert forall|g: u64| bytes@ != segment_name_bytes(g) by {
                lemma_decimal_digits_value(g as nat);
                let other = segment_name_bytes(g);
                if bytes@ == other {
                    let d = decimal_digits(g as nat);
                    assert(d =~= other.subrange(0, m as int));
                    lemma_digits_value_prefix(d, i + 1);
                }
            }
            return None;
        }
        value = value * 10 + digit;
        i += 1;
    }
    proof {
        assert(digits.take(m as int) =~= digits);
        lemma_digits_of_value(digits);
        assert(bytes@ =~= digits + extension_bytes());
    }
    Some(value)
}

} // verus!
