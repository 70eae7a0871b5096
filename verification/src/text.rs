use vstd::prelude::*;
use vstd::utf8::*;
use vstd::string::StringSliceAdditionalSpecFns;

verus! {

/// The characters that the bytes `b[start..end]` encode in UTF-8.
pub open spec fn text_of(b: Seq<u8>, start: int, end: int) -> Seq<char> {
    decode_utf8(b.subrange(start, end))
}

/// The byte at index `i`, or 0 past either end of `b`.
pub open spec fn byte_at(b: Seq<u8>, i: int) -> u8 {
    if 0 <= i < b.len() {
        b[i]
    } else {
        0
    }
}

/// In valid UTF-8, the position right after an ASCII byte starts a character.
pub proof fn lemma_boundary_after_ascii(b: Seq<u8>, i: int)
    requires
        valid_utf8(b),
        0 <= i < b.len(),
        b[i] < 0x80,
    ensures
        is_char_boundary(b, i + 1),
    decreases b.len(),
{
    assert(valid_first_scalar(b) && valid_utf8(pop_first_scalar(b)));
    let rest = pop_first_scalar(b);
    let n = length_of_first_scalar(b);
    assert(1 <= n <= b.len());
    assert(rest.len() == b.len() - n);
    if i == 0 {
        assert(n == 1);
        assert(is_char_boundary(rest, 0));
    } else {
        is_char_boundary_iff_not_is_continuation_byte(b, i);
        assert(is_char_boundary(b, i));
        assert(i >= n) by {
            if i < n {
                assert(!is_char_boundary(rest, i - n));
            }
        }
        assert(rest[i - n] == b[i]);
        lemma_boundary_after_ascii(rest, i - n);
    }
}

/// A position holding an ASCII byte, or the end of the bytes, starts a character.
pub proof fn lemma_boundary_at_ascii(b: Seq<u8>, i: int)
    requires
        valid_utf8(b),
        0 <= i <= b.len(),
        i < b.len() ==> b[i] < 0x80,
    ensures
        is_char_boundary(b, i),
{
    if i == b.len() {
        is_char_boundary_start_end_of_seq(b);
    } else {
        is_char_boundary_iff_not_is_continuation_byte(b, i);
    }
}

/// The bytes of a string slice between two character boundaries encode a
/// prefix-free piece of text, and the slice between them is valid UTF-8.
pub proof fn lemma_prefix_boundary(b: Seq<u8>, start: int, end: int)
    requires
        valid_utf8(b),
        0 <= start <= end <= b.len(),
        is_char_boundary(b, start),
        is_char_boundary(b, end),
    ensures
        valid_utf8(b.subrange(0, end)),
        is_char_boundary(b.subrange(0, end), start),
{
    valid_utf8_split(b, end);
    let left = b.subrange(0, end);
    if start == end {
        is_char_boundary_start_end_of_seq(left);
    } else {
        is_char_boundary_iff_not_is_continuation_byte(b, start);
        is_char_boundary_iff_not_is_continuation_byte(left, start);
    }
}

/// The text of `s[start..end]` as a new `String`, where both ends are character boundaries.
pub fn substring(s: &str, start: usize, end: usize) -> (r: String)
    requires
        start <= end <= s.spec_bytes().len(),
        is_char_boundary(s.spec_bytes(), start as int),
        is_char_boundary(s.spec_bytes(), end as int),
    ensures
        r@ == text_of(s.spec_bytes(), start as int, end as int),
{
    proof {
        encode_utf8_valid_utf8(s@);
        lemma_prefix_boundary(s.spec_bytes(), start as int, end as int);
    }
    let (left, _) = s.split_at(end);
    let (_, mid) = left.split_at(start);
    proof {
        encode_utf8_decode_utf8(mid@);
        assert(mid.spec_bytes() =~= s.spec_bytes().subrange(start as int, end as int));
    }
    mid.to_owned()
}

/// Bytes below 0x80 are valid UTF-8, and each one decodes to the character
/// with the same code.
pub proof fn lemma_decode_ascii(b: Seq<u8>)
    requires
        forall|i: int| 0 <= i < b.len() ==> b[i] < 0x80,
    ensures
        valid_utf8(b),
        decode_utf8(b) =~= Seq::new(b.len(), |i: int| b[i] as char),
    decreases b.len(),
{
    if b.len() > 0 {
        let c = b[0];
        assert(c & 0x7f == c) by (bit_vector)
            requires
                c < 0x80,
        ;
        assert(pop_first_scalar(b) =~= b.subrange(1, b.len() as int));
        lemma_decode_ascii(b.subrange(1, b.len() as int));
    }
}

/// Whether two texts are equal, compared byte by byte.
pub fn str_eq(a: &str, b: &str) -> (r: bool)
    ensures
        r == (a@ == b@),
{
    let x = a.as_bytes();
    let y = b.as_bytes();
    proof {
        encode_utf8_decode_utf8(a@);
        encode_utf8_decode_utf8(b@);
    }
    if x.len() != y.len() {
        return false;
    }
    let mut i: usize = 0;
    while i < x.len()
        invariant
            x@ == a.spec_bytes(),
            y@ == b.spec_bytes(),
            x@.len() == y@.len(),
            i <= x@.len(),
            forall|j: int| 0 <= j < i ==> x@[j] == y@[j],
        decreases x@.len() - i,
    {
        if x[i] != y[i] {
            return false;
        }
        i = i + 1;
    }
    assert(x@ =~= y@);
    true
}

/// Strings of decimal digits: not empty, and only the characters 0 to 9.
pub open spec fn is_decimal(s: Seq<char>) -> bool {
    &&& s.len() > 0
    &&& forall|i: int| 0 <= i < s.len() ==> '0' <= #[trigger] s[i] <= '9'
}

/// The number that a string of decimal digits denotes.
pub open spec fn decimal_value(s: Seq<char>) -> nat
    decreases s.len(),
{
    if s.len() == 0 {
        0
    } else {
        decimal_value(s.drop_last()) * 10 + ((s.last() as nat) - ('0' as nat)) as nat
    }
}

/// What `str::parse::<u64>` yields for a text: an optional `+` followed by
/// decimal digits denoting at most `u64::MAX`, or `None` for anything else.
pub open spec fn parsed_u64(s: Seq<char>) -> Option<u64> {
    let digits = if s.len() > 0 && s[0] == '+' { s.drop_first() } else { s };
    if is_decimal(digits) && decimal_value(digits) <= u64::MAX {
        Some(decimal_value(digits) as u64)
    } else {
        None
    }
}

/// Reads an unsigned 64-bit integer from a text, as `str::parse::<u64>` does.
pub fn parse_u64(s: &str) -> (r: Option<u64>)
    ensures
        r == parsed_u64(s@),
{
    if !s.is_ascii() {
        proof {
            let digits = if s@.len() > 0 && s@[0] == '+' { s@.drop_first() } else { s@ };
            if is_decimal(digits) {
                assert forall|i: int| 0 <= i < s@.len() implies '\0' <= #[trigger] s@[i] <= '\u{7f}' by {
                    if s@.len() > 0 && s@[0] == '+' && i > 0 {
                        assert(s@[i] == digits[i - 1]);
                    }
                }
            }
        }
        return None;
    }
    let bytes = s.as_bytes();
    proof {
        is_ascii_chars_encode_utf8(s@);
    }
    let n = bytes.len();
    let mut i: usize = 0;
    if n > 0 && bytes[0] == 43 {
        i = 1;
    }
    let start = i;
    let ghost digits = s@.subrange(start as int, s@.len() as int);
    proof {
        if s@.len() > 0 && s@[0] == '+' {
            assert(digits =~= s@.drop_first());
        } else {
            assert(digits =~= s@);
        }
    }
    if i == n {
        return None;
    }
    let mut value: u64 = 0;
    while i < n
        invariant
            bytes@ == encode_utf8(s@),
            n == bytes@.len(),
            bytes@.len() == s@.len(),
            forall|j: int| 0 <= j < s@.len() ==> s@[j] as u8 == bytes@[j],
            is_ascii_chars(s@),
            start <= i <= n,
            start < n,
            digits == s@.subrange(start as int, n as int),
            digits == (if s@.len() > 0 && s@[0] == '+' { s@.drop_first() } else { s@ }),
            forall|j: int| start <= j < i ==> '0' <= #[trigger] s@[j] <= '9',
            value == decimal_value(s@.subrange(start as int, i as int)),
        decreases n - i,
    {
        let d = bytes[i];
        if d < 48 || d > 57 {
            proof {
                assert('\0' <= s@[i as int] <= '\u{7f}');
                assert(digits[i - start] == s@[i as int]);
            }
            return None;
        }
        assert('\0' <= s@[i as int] <= '\u{7f}');
        assert('0' <= s@[i as int] <= '9');
        assert(s@.subrange(start as int, i + 1).drop_last() =~= s@.subrange(start as int, i as int));
        let digit: u64 = (d - 48) as u64;
        match value.checked_mul(10) {
            None => {
                proof {
                    lemma_all_digits(s@, start as int, i as int + 1, digits);
                }
                return None;
            },
            Some(v10) => {
                match v10.checked_add(digit) {
                    None => {
                        proof {
                            lemma_all_digits(s@, start as int, i as int + 1, digits);
                        }
                        return None;
                    },
                    Some(v) => {
                        value = v;
                    },
                }
            },
        }
        i = i + 1;
    }
    assert(s@.subrange(start as int, i as int) =~= digits);
    Some(value)
}

/// When a prefix of the digits already exceeds `u64::MAX`, the text does not
/// parse, whatever follows.
proof fn lemma_all_digits(s: Seq<char>, start: int, k: int, digits: Seq<char>)
    requires
        0 <= start < k <= s.len(),
        digits == s.subrange(start, s.len() as int),
        forall|j: int| start <= j < k ==> '0' <= #[trigger] s[j] <= '9',
        decimal_value(s.subrange(start, k)) > u64::MAX,
    ensures
        !(is_decimal(digits) && decimal_value(digits) <= u64::MAX),
{
    if is_decimal(digits) {
        assert(digits.subrange(0, k - start) =~= s.subrange(start, k));
        lemma_decimal_value_grows(digits, k - start);
    }
}

/// A longer prefix of a digit string denotes at least the value of a shorter one.
pub proof fn lemma_decimal_value_grows(s: Seq<char>, k: int)
    requires
        is_decimal(s),
        0 <= k <= s.len(),
    ensures
        decimal_value(s.subrange(0, k)) <= decimal_value(s),
    decreases s.len() - k,
{
    if k < s.len() {
        lemma_decimal_value_grows(s, k + 1);
        assert(s.subrange(0, k + 1).drop_last() =~= s.subrange(0, k));
        let v = decimal_value(s.subrange(0, k));
        assert(v <= v * 10) by (nonlinear_arith);
    } else {
        assert(s.subrange(0, k) =~= s);
    }
}

} // verus!
