//! Decimal numbers: how they are written and how they are read.
use crate::text::to_chars;
use vstd::prelude::*;
use vstd::string::*;

verus! {

/// The character of a decimal digit.
pub open spec fn digit_char(d: nat) -> char {
    ('0' as u8 + d) as char
}

/// The shortest decimal form of `n`.
pub open spec fn decimal(n: nat) -> Seq<char>
    decreases n,
{
    if n < 10 {
        seq![digit_char(n)]
    } else {
        decimal(n / 10).push(digit_char(n % 10))
    }
}

/// The decimal digits.
pub open spec fn is_digit(c: char) -> bool {
    '0' <= c <= '9'
}

/// Every character is a decimal digit.
pub open spec fn all_digits(s: Seq<char>) -> bool {
    forall|i: int| 0 <= i < s.len() ==> is_digit(#[trigger] s[i])
}

/// The number that a run of decimal digits stands for.
pub open spec fn digits_value(s: Seq<char>) -> nat
    decreases s.len(),
{
    if s.len() == 0 {
        0
    } else {
        digits_value(s.drop_last()) * 10 + (s.last() as u8 - '0' as u8) as nat
    }
}

/// The number that `s` stands for: one or more digits, up to `max`.
pub open spec fn digits_number(s: Seq<char>, max: nat) -> Option<nat> {
    if s.len() > 0 && all_digits(s) && digits_value(s) <= max {
        Some(digits_value(s))
    } else {
        None
    }
}

/// The number that `s` stands for: an optional plus sign, then one or more
/// digits, up to `max`.
pub open spec fn unsigned_number(s: Seq<char>, max: nat) -> Option<nat> {
    if s.len() > 0 && s[0] == '+' {
        digits_number(s.drop_first(), max)
    } else {
        digits_number(s, max)
    }
}

/// Reading more digits never makes the number smaller.
proof fn lemma_digits_value_prefix(s: Seq<char>, i: int)
    requires
        0 <= i <= s.len(),
        all_digits(s),
    ensures
        digits_value(s.take(i)) <= digits_value(s),
    decreases s.len(),
{
    if i < s.len() {
        assert(s.drop_last().take(i) =~= s.take(i));
        assert(is_digit(s.last()));
        assert forall|j: int| 0 <= j < s.drop_last().len() implies is_digit(
            #[trigger] s.drop_last()[j],
        ) by {
            assert(is_digit(s[j]));
        }
        lemma_digits_value_prefix(s.drop_last(), i);
    } else {
        assert(s.take(i) =~= s);
    }
}

/// A number that was written in decimal is read back: its decimal form is one
/// or more digits, without a leading zero unless it is zero, and stands for it.
pub proof fn lemma_decimal_reads_back(n: nat)
    ensures
        decimal(n).len() > 0,
        all_digits(decimal(n)),
        digits_value(decimal(n)) == n,
        n > 0 ==> decimal(n)[0] != '0',
        n < 10 ==> decimal(n).len() == 1,
    decreases n,
{
    if n < 10 {
        assert(decimal(n).drop_last() =~= Seq::<char>::empty());
        assert(digits_value(decimal(n).drop_last()) == 0);
    } else {
        lemma_decimal_reads_back(n / 10);
        assert(decimal(n).drop_last() =~= decimal(n / 10));
        assert(decimal(n)[0] == decimal(n / 10)[0]);
        assert forall|i: int| 0 <= i < decimal(n).len() implies is_digit(#[trigger] decimal(n)[i]) by {
            if i < decimal(n / 10).len() {
                assert(is_digit(decimal(n / 10)[i]));
            }
        }
    }
}

/// Appends the decimal form of `n` to `s`.
pub fn push_decimal(s: &mut String, n: u64)
    ensures
        final(s)@ == old(s)@ + decimal(n as nat),
    decreases n,
{
    if n < 10 {
        let d: u8 = n as u8;
        s.push((('0' as u8) + d) as char);
    } else {
        push_decimal(s, n / 10);
        let d: u8 = (n % 10) as u8;
        s.push((('0' as u8) + d) as char);
    }
    assert(s@ =~= old(s)@ + decimal(n as nat));
}

/// Whether `c` is a decimal digit.
pub fn digit(c: char) -> (r: bool)
    ensures
        r == is_digit(c),
{
    '0' <= c && c <= '9'
}

/// Reads one or more digits, up to `max`.
pub fn read_digits(s: &str, max: u32) -> (r: Option<u32>)
    ensures
        match r {
            Some(n) => digits_number(s@, max as nat) == Some(n as nat),
            None => digits_number(s@, max as nat) is None,
        },
{
    let chars = to_chars(s);
    let mut value: u64 = 0;
    let mut i: usize = 0;
    while i < chars.len()
        invariant
            i <= chars.len(),
            chars@ == s@,
            all_digits(s@.take(i as int)),
            value == digits_value(s@.take(i as int)),
            value <= max,
        decreases chars.len() - i,
    {
        let c = chars[i];
        if !digit(c) {
            assert(!is_digit(s@[i as int]));
            return None;
        }
        let ghost before = s@.take(i as int);
        value = value * 10 + (c as u8 - ('0' as u8)) as u64;
        i += 1;
        assert(s@.take(i as int).drop_last() =~= before);
        assert forall|j: int| 0 <= j < i implies is_digit(#[trigger] s@.take(i as int)[j]) by {
            if j < i - 1 {
                assert(is_digit(before[j]));
            }
        }
        if value > max as u64 {
            proof {
                if all_digits(s@) {
                    lemma_digits_value_prefix(s@, i as int);
                }
            }
            return None;
        }
    }
    assert(s@.take(s@.len() as int) =~= s@);
    if chars.len() == 0 {
        None
    } else {
        Some(value as u32)
    }
}

/// Reads an unsigned number of 16 bits: an optional plus sign, then digits.
pub fn read_u16(s: &str) -> (r: Option<u16>)
    ensures
        match r {
            Some(n) => unsigned_number(s@, u16::MAX as nat) == Some(n as nat),
            None => unsigned_number(s@, u16::MAX as nat) is None,
        },
{
    let digits = if !s.is_empty() && s.get_char(0) == '+' {
        s.substring_char(1, s.unicode_len())
    } else {
        s
    };
    proof {
        if s@.len() > 0 && s@[0] == '+' {
            assert(digits@ =~= s@.drop_first());
        }
    }
    match read_digits(digits, u16::MAX as u32) {
        Some(n) => Some(n as u16),
        None => None,
    }
}

// ---------------------------------------------------------------------------
// Laws
// ---------------------------------------------------------------------------

/// One digit more, of value `d`, makes ten times the number and `d`.
pub proof fn law_digits_count_by_ten(s: Seq<char>, c: char, d: nat)
    requires
        d < 10,
        c as u32 == 48 + d,
    ensures
        digits_value(s.push(c)) == digits_value(s) * 10 + d,
        digits_value(Seq::empty()) == 0,
        is_digit(c),
{
    assert(s.push(c).drop_last() =~= s);
}

proof fn lemma_leading_zero(s: Seq<char>)
    ensures
        digits_value(seq!['0'] + s) == digits_value(s),
    decreases s.len(),
{
    let t = seq!['0'] + s;
    if s.len() == 0 {
        assert(t.drop_last() =~= Seq::<char>::empty());
        assert(digits_value(t.drop_last()) == 0);
    } else {
        lemma_leading_zero(s.drop_last());
        assert(t.drop_last() =~= seq!['0'] + s.drop_last());
    }
}

/// A number is read from its decimal form, with or without a plus sign in front, if
/// it is not too large. Leading zeros change nothing.
pub proof fn law_numbers_read_back(n: nat, max: nat, s: Seq<char>)
    ensures
        n <= max ==> unsigned_number(decimal(n), max) == Some(n),
        n <= max ==> unsigned_number(seq!['+'] + decimal(n), max) == Some(n),
        n > max ==> unsigned_number(decimal(n), max) is None,
        n > max ==> unsigned_number(seq!['+'] + decimal(n), max) is None,
        s.len() > 0 && all_digits(s) ==> unsigned_number(seq!['0'] + s, max) == unsigned_number(
            s,
            max,
        ),
{
    lemma_decimal_reads_back(n);
    assert(is_digit(decimal(n)[0]));
    assert((seq!['+'] + decimal(n)).drop_first() =~= decimal(n));
    if s.len() > 0 && all_digits(s) {
        let t = seq!['0'] + s;
        lemma_leading_zero(s);
        assert(is_digit(s[0]));
        assert(t[0] == '0');
        assert forall|i: int| 0 <= i < t.len() implies is_digit(#[trigger] t[i]) by {
            if i > 0 {
                assert(t[i] == s[i - 1]);
            }
        }
    }
}

/// What is read as a number is one or more digits, behind a plus sign or not, and the
/// number is not too large.
pub proof fn law_only_numbers_are_read(s: Seq<char>, max: nat, i: int)
    requires
        unsigned_number(s, max) is Some,
    ensures
        unsigned_number(s, max)->0 <= max,
        s.len() > 0,
        s[0] == '+' ==> s.len() > 1,
        0 <= i < s.len() ==> 48 <= s[i] as u32 <= 57 || (i == 0 && s[i] == '+'),
{
    let digits = if s[0] == '+' {
        s.drop_first()
    } else {
        s
    };
    assert(all_digits(digits));
    if 0 <= i < s.len() {
        if s[0] == '+' && i > 0 {
            assert(is_digit(digits[i - 1]));
        } else if s[0] != '+' {
            assert(is_digit(digits[i]));
        }
    }
}

proof fn lemma_digits_have_value(s: Seq<char>)
    requires
        s.len() > 0,
        all_digits(s),
        s[0] != '0',
    ensures
        digits_value(s) > 0,
    decreases s.len(),
{
    let front = s.drop_last();
    assert(is_digit(s[s.len() - 1]));
    if front.len() > 0 {
        assert(front[0] == s[0]);
        assert forall|i: int| 0 <= i < front.len() implies is_digit(#[trigger] front[i]) by {
            assert(is_digit(s[i]));
        }
        lemma_digits_have_value(front);
    } else {
        assert(is_digit(s[0]));
        assert(digits_value(front) == 0);
    }
}

/// Digits without a leading zero are the decimal form of their number.
pub proof fn law_decimal_forms_are_unique(s: Seq<char>)
    requires
        s.len() > 0,
        all_digits(s),
        s.len() > 1 ==> s[0] != '0',
    ensures
        decimal(digits_value(s)) == s,
    decreases s.len(),
{
    let front = s.drop_last();
    let c = s.last();
    assert(is_digit(s[s.len() - 1]));
    let d = (c as u8 - '0' as u8) as nat;
    lemma_digit_char(c);
    if front.len() == 0 {
        assert(digits_value(front) == 0);
        assert(decimal(d) =~= s);
    } else {
        assert(front[0] == s[0]);
        assert forall|i: int| 0 <= i < front.len() implies is_digit(#[trigger] front[i]) by {
            assert(is_digit(s[i]));
        }
        law_decimal_forms_are_unique(front);
        lemma_digits_have_value(front);
        let v = digits_value(front);
        let n = digits_value(s);
        assert(n == v * 10 + d);
        assert(n / 10 == v && n % 10 == d);
        assert(decimal(n) == decimal(v).push(digit_char(d)));
        assert(s =~= front.push(c));
    }
}

proof fn lemma_digit_char(c: char)
    requires
        is_digit(c),
    ensures
        0 <= (c as u8) - ('0' as u8) < 10,
        digit_char((c as u8 - '0' as u8) as nat) == c,
{
}

} // verus!
