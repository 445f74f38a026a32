//! Byte-level text machinery for the structured-text format: decimal numbers
//! and splitting a byte sequence at a separator.

use vstd::prelude::*;

verus! {

/// ASCII code of `,`, the field separator.
pub const COMMA: u8 = 44;

/// ASCII code of the line feed, the row separator.
pub const LINE_FEED: u8 = 10;

/// ASCII code of the carriage return, tolerated before a line feed.
pub const CARRIAGE_RETURN: u8 = 13;

/// ASCII code of `0`.
pub const DIGIT_ZERO: u8 = 48;

/// Whether `b` is the ASCII code of a decimal digit.
pub open spec fn is_digit(b: u8) -> bool {
    DIGIT_ZERO <= b <= 57
}

/// Whether every byte of `s` is a decimal digit.
pub open spec fn all_digits(s: Seq<u8>) -> bool {
    forall|i: int| 0 <= i < s.len() ==> is_digit(#[trigger] s[i])
}

/// Whether `s` is the text of an unsigned decimal number: at least one byte,
/// every byte a digit. Leading zeros are accepted.
pub open spec fn is_uint_text(s: Seq<u8>) -> bool {
    s.len() > 0 && all_digits(s)
}

/// The value of a string of decimal digits, most significant first.
pub open spec fn digits_value(s: Seq<u8>) -> nat
    recommends
        all_digits(s),
    decreases s.len(),
{
    if s.len() == 0 {
        0
    } else {
        digits_value(s.drop_last()) * 10 + (s.last() - DIGIT_ZERO) as nat
    }
}

/// The canonical decimal rendering of `n`: no leading zeros, a single `0` for
/// zero.
pub open spec fn decimal(n: nat) -> Seq<u8>
    decreases n,
{
    if n < 10 {
        seq![(DIGIT_ZERO + n) as u8]
    } else {
        decimal(n / 10).push((DIGIT_ZERO + n % 10) as u8)
    }
}

/// The canonical decimal rendering is made of digits and reads back as the
/// number it was made from.
pub proof fn lemma_decimal_value(n: nat)
    ensures
        decimal(n).len() > 0,
        all_digits(decimal(n)),
        digits_value(decimal(n)) == n,
    decreases n,
{
    if n < 10 {
        assert(decimal(n) =~= seq![(DIGIT_ZERO + n) as u8]);
        assert(decimal(n).drop_last() =~= Seq::<u8>::empty());
        assert(digits_value(Seq::<u8>::empty()) == 0);
    } else {
        lemma_decimal_value(n / 10);
        let d = decimal(n / 10);
        let r = decimal(n);
        assert(r =~= d.push((DIGIT_ZERO + n % 10) as u8));
        assert(r.drop_last() =~= d);
        assert(digits_value(r) == digits_value(d) * 10 + n % 10);
        assert(n / 10 * 10 + n % 10 == n) by (nonlinear_arith);
    }
}

/// Extending a digit string on the right can only increase its value.
pub proof fn lemma_digits_value_prefix(s: Seq<u8>, i: int)
    requires
        all_digits(s),
        0 <= i <= s.len(),
    ensures
        digits_value(s.take(i)) <= digits_value(s),
    decreases s.len() - i,
{
    if i == s.len() {
        assert(s.take(i) =~= s);
    } else {
        assert(s.take(i + 1).drop_last() =~= s.take(i));
        assert(s.take(i + 1).last() == s[i]);
        assert(digits_value(s.take(i + 1)) == digits_value(s.take(i)) * 10 + (s[i]
            - DIGIT_ZERO) as nat);
        assert(digits_value(s.take(i)) * 10 >= digits_value(s.take(i))) by (nonlinear_arith);
        lemma_digits_value_prefix(s, i + 1);
    }
}

/// Parses a whole byte string as an unsigned decimal number. Returns the value
/// exactly when the string is the text of a number that fits in `u128`.
pub fn parse_u128(s: &[u8]) -> (r: Option<u128>)
    ensures
        match r {
            Some(v) => is_uint_text(s@) && v == digits_value(s@),
            None => !is_uint_text(s@) || digits_value(s@) > u128::MAX,
        },
{
    if s.len() == 0 {
        return None;
    }
    let mut acc: u128 = 0;
    let mut i: usize = 0;
    while i < s.len()
        invariant
            0 <= i <= s@.len(),
            all_digits(s@.take(i as int)),
            acc == digits_value(s@.take(i as int)),
        decreases s@.len() - i,
    {
        let b = s[i];
        if b < DIGIT_ZERO || b > 57 {
            assert(!is_digit(s@[i as int]));
            return None;
        }
        let d = (b - DIGIT_ZERO) as u128;
        proof {
            assert(s@.take(i + 1).drop_last() =~= s@.take(i as int));
            assert(s@.take(i + 1).last() == s@[i as int]);
        }
        if acc > (u128::MAX - d) / 10 {
            proof {
                let t = s@.take(i + 1);
                assert(digits_value(t) == acc * 10 + d);
                assert(acc * 10 + d > u128::MAX) by (nonlinear_arith)
                    requires
                        acc > (u128::MAX - d) / 10,
                        d <= 9,
                ;
                if all_digits(s@) {
                    lemma_digits_value_prefix(s@, i + 1);
                } else {
                    assert(!is_uint_text(s@));
                }
            }
            return None;
        }
        proof {
            assert(acc * 10 + d <= u128::MAX) by (nonlinear_arith)
                requires
                    acc <= (u128::MAX - d) / 10,
                    d <= 9,
            ;
        }
        acc = acc * 10 + d;
        i = i + 1;
    }
    proof {
        assert(s@.take(i as int) =~= s@);
    }
    Some(acc)
}

/// Parses a whole byte string as an unsigned decimal number that fits in
/// `u32`.
pub fn parse_u32(s: &[u8]) -> (r: Option<u32>)
    ensures
        match r {
            Some(v) => is_uint_text(s@) && v == digits_value(s@),
            None => !is_uint_text(s@) || digits_value(s@) > u32::MAX,
        },
{
    match parse_u128(s) {
        Some(v) => if v <= u32::MAX as u128 {
            Some(v as u32)
        } else {
            None
        },
        None => None,
    }
}

/// Renders `n` in decimal.
pub fn u128_to_decimal(n: u128) -> (r: Vec<u8>)
    ensures
        r@ == decimal(n as nat),
    decreases n,
{
    if n < 10 {
        let mut v: Vec<u8> = Vec::new();
        v.push(DIGIT_ZERO + n as u8);
        proof {
            assert(v@ =~= decimal(n as nat));
        }
        v
    } else {
        let mut v = u128_to_decimal(n / 10);
        v.push(DIGIT_ZERO + (n % 10) as u8);
        proof {
            assert(v@ =~= decimal(n as nat));
        }
        v
    }
}

/// Renders `n` in decimal.
pub fn u32_to_decimal(n: u32) -> (r: Vec<u8>)
    ensures
        r@ == decimal(n as nat),
{
    u128_to_decimal(n as u128)
}

/// `s` split at every occurrence of `sep`; the pieces hold no `sep`, and there
/// is always one piece more than there are separators.
pub open spec fn split_on(s: Seq<u8>, sep: u8) -> Seq<Seq<u8>>
    decreases s.len(),
{
    if s.len() == 0 {
        seq![Seq::<u8>::empty()]
    } else {
        let rest = split_on(s.drop_last(), sep);
        if s.last() == sep {
            rest + seq![Seq::<u8>::empty()]
        } else {
            rest.update(rest.len() - 1, rest.last().push(s.last()))
        }
    }
}

/// A split is never empty.
pub proof fn lemma_split_on_len(s: Seq<u8>, sep: u8)
    ensures
        split_on(s, sep).len() >= 1,
    decreases s.len(),
{
    if s.len() > 0 {
        lemma_split_on_len(s.drop_last(), sep);
    }
}

/// A byte string without the separator splits into itself alone.
pub proof fn lemma_split_on_absent(s: Seq<u8>, sep: u8)
    requires
        !s.contains(sep),
    ensures
        split_on(s, sep) == seq![s],
    decreases s.len(),
{
    if s.len() == 0 {
        assert(split_on(s, sep) =~~= seq![s]);
    } else {
        assert(s.drop_last().contains(sep) ==> s.contains(sep));
        assert(s.contains(s.last()));
        lemma_split_on_absent(s.drop_last(), sep);
        assert(split_on(s, sep) =~~= seq![s]);
    }
}

/// Splitting at a separator placed between two byte strings, the left one free
/// of it, yields the left string and then the split of the right one.
pub proof fn lemma_split_on_concat(a: Seq<u8>, b: Seq<u8>, sep: u8)
    requires
        !a.contains(sep),
    ensures
        split_on(a + seq![sep] + b, sep) == seq![a] + split_on(b, sep),
    decreases b.len(),
{
    let s = a + seq![sep] + b;
    if b.len() == 0 {
        lemma_split_on_absent(a, sep);
        assert(s.drop_last() =~= a);
        assert(s.last() == sep);
        assert(split_on(s, sep) =~~= seq![a] + split_on(b, sep));
    } else {
        lemma_split_on_concat(a, b.drop_last(), sep);
        let t = a + seq![sep] + b.drop_last();
        assert(s.drop_last() =~= t);
        assert(s.last() == b.last());
        let rest = split_on(t, sep);
        lemma_split_on_len(b.drop_last(), sep);
        if b.last() == sep {
            assert(split_on(s, sep) =~~= seq![a] + split_on(b, sep));
        } else {
            assert(rest.len() >= 2);
            assert(rest.last() == split_on(b.drop_last(), sep).last());
            assert(split_on(s, sep) =~~= seq![a] + split_on(b, sep));
        }
    }
}

/// A digit string holds no byte that is not a digit.
pub proof fn lemma_digits_no_byte(s: Seq<u8>, b: u8)
    requires
        all_digits(s),
        !is_digit(b),
    ensures
        !s.contains(b),
{
    if s.contains(b) {
        let i = choose|i: int| 0 <= i < s.len() && s[i] == b;
        assert(is_digit(s[i]));
    }
}

/// A byte absent from two byte strings is absent from their concatenation.
pub proof fn lemma_concat_no_byte(a: Seq<u8>, b: Seq<u8>, c: u8)
    requires
        !a.contains(c),
        !b.contains(c),
    ensures
        !(a + b).contains(c),
{
    if (a + b).contains(c) {
        let i = choose|i: int| 0 <= i < (a + b).len() && (a + b)[i] == c;
        if i < a.len() {
            assert(a[i] == c);
        } else {
            assert(b[i - a.len()] == c);
        }
    }
}

/// `s` with one trailing carriage return removed, as a line read from a file
/// with CRLF endings presents itself after splitting at the line feed.
pub open spec fn strip_cr(s: Seq<u8>) -> Seq<u8> {
    if s.len() > 0 && s.last() == CARRIAGE_RETURN {
        s.drop_last()
    } else {
        s
    }
}

/// The views of a sequence of byte vectors.
pub open spec fn views_of(s: Seq<Vec<u8>>) -> Seq<Seq<u8>> {
    s.map_values(|v: Vec<u8>| v@)
}

/// Splits a byte string at every occurrence of `sep`.
pub fn split_bytes(data: &[u8], sep: u8) -> (r: Vec<Vec<u8>>)
    ensures
        views_of(r@) == split_on(data@, sep),
        r@.len() >= 1,
{
    let mut out: Vec<Vec<u8>> = Vec::new();
    let mut cur: Vec<u8> = Vec::new();
    let mut i: usize = 0;
    proof {
        assert(split_on(data@.take(0), sep) =~~= views_of(out@).push(cur@));
    }
    while i < data.len()
        invariant
            0 <= i <= data@.len(),
            split_on(data@.take(i as int), sep) == views_of(out@).push(cur@),
        decreases data@.len() - i,
    {
        let b = data[i];
        proof {
            assert(data@.take(i + 1).drop_last() =~= data@.take(i as int));
            assert(data@.take(i + 1).last() == data@[i as int]);
            lemma_split_on_len(data@.take(i as int), sep);
        }
        if b == sep {
            out.push(cur);
            cur = Vec::new();
            proof {
                assert(split_on(data@.take(i + 1), sep) =~~= views_of(out@).push(cur@));
            }
        } else {
            cur.push(b);
            proof {
                assert(split_on(data@.take(i + 1), sep) =~~= views_of(out@).push(cur@));
            }
        }
        i = i + 1;
    }
    proof {
        assert(data@.take(i as int) =~= data@);
    }
    out.push(cur);
    proof {
        assert(views_of(out@) =~~= split_on(data@, sep));
    }
    out
}

/// Whether two byte strings hold the same bytes.
pub fn bytes_eq(a: &[u8], b: &[u8]) -> (r: bool)
    ensures
        r == (a@ == b@),
{
    if a.len() != b.len() {
        return false;
    }
    let mut i: usize = 0;
    while i < a.len()
        invariant
            0 <= i <= a@.len(),
            a@.len() == b@.len(),
            forall|j: int| 0 <= j < i ==> a@[j] == b@[j],
        decreases a@.len() - i,
    {
        if a[i] != b[i] {
            return false;
        }
        i = i + 1;
    }
    proof {
        assert(a@ =~= b@);
    }
    true
}

} // verus!
