//! Addresses: the textual forms of IP addresses and of socket addresses.
use crate::numbers::{
    decimal, digits_number, digits_value, is_digit, law_decimal_forms_are_unique,
    lemma_decimal_reads_back, read_digits,
};
use crate::text::{
    is_free_of, joined, law_joining_and_splitting, law_splitting, law_splitting_and_joining,
    lemma_split_on_nonempty, split, split_on, starts_with_char, texts, to_chars,
};
use vstd::prelude::*;
use vstd::string::*;

verus! {

// ---------------------------------------------------------------------------
// Model
// ---------------------------------------------------------------------------

/// One of the four numbers of an IPv4 address: up to three digits, up to 255,
/// without a leading zero.
pub open spec fn is_octet(s: Seq<char>) -> bool {
    &&& s.len() <= 3
    &&& digits_number(s, 255) is Some
    &&& s.len() > 1 ==> s[0] != '0'
}

/// An IPv4 address: four numbers with dots between them.
pub open spec fn is_ipv4(s: Seq<char>) -> bool {
    let parts = split_on(s, '.');
    &&& parts.len() == 4
    &&& forall|i: int| 0 <= i < parts.len() ==> is_octet(#[trigger] parts[i])
}

/// The hexadecimal digits.
pub open spec fn is_hex_digit(c: char) -> bool {
    ||| is_digit(c)
    ||| 'a' <= c <= 'f'
    ||| 'A' <= c <= 'F'
}

/// One group of an IPv6 address: one to four hexadecimal digits.
pub open spec fn is_group(s: Seq<char>) -> bool {
    &&& 1 <= s.len() <= 4
    &&& forall|i: int| 0 <= i < s.len() ==> is_hex_digit(#[trigger] s[i])
}

/// The number of groups in a list of groups with colons between them, where the
/// last may be an IPv4 address, which counts as two, if `v4` says so. The empty
/// text is the empty list. `None` where `s` is no such list.
pub open spec fn group_count(s: Seq<char>, v4: bool) -> Option<nat> {
    let parts = split_on(s, ':');
    if s.len() == 0 {
        Some(0)
    } else if !(forall|i: int| 0 <= i < parts.len() - 1 ==> is_group(#[trigger] parts[i])) {
        None
    } else if is_group(parts.last()) {
        Some(parts.len())
    } else if v4 && is_ipv4(parts.last()) {
        Some(parts.len() + 1)
    } else {
        None
    }
}

/// The place of the first pair of colons in `s`, at or behind `from`.
pub open spec fn double_colon(s: Seq<char>, from: int) -> Option<int>
    decreases s.len() - from,
{
    if from < 0 || from + 1 >= s.len() {
        None
    } else if s[from] == ':' && s[from + 1] == ':' {
        Some(from)
    } else {
        double_colon(s, from + 1)
    }
}

/// An IPv6 address: eight groups, or fewer with a pair of colons for those that
/// are left out. An IPv4 address may stand for the last two groups.
pub open spec fn is_ipv6(s: Seq<char>) -> bool {
    match double_colon(s, 0) {
        None => group_count(s, true) == Some(8nat),
        Some(i) => {
            let head = group_count(s.take(i), false);
            let tail = group_count(s.skip(i + 2), true);
            head is Some && tail is Some && head->0 + tail->0 <= 7
        },
    }
}

/// A port: digits, up to 65535.
pub open spec fn is_port(s: Seq<char>) -> bool {
    digits_number(s, 65535) is Some
}

/// An IPv6 address, optionally with a percent sign and a numeric scope behind.
pub open spec fn is_scoped_ipv6(s: Seq<char>) -> bool {
    let parts = split_on(s, '%');
    ||| parts.len() == 1 && is_ipv6(parts[0])
    ||| parts.len() == 2 && is_ipv6(parts[0]) && digits_number(parts[1], u32::MAX as nat) is Some
}

/// An IPv4 address and a port with a colon between them.
pub open spec fn is_socket_v4(s: Seq<char>) -> bool {
    let parts = split_on(s, ':');
    parts.len() == 2 && is_ipv4(parts[0]) && is_port(parts[1])
}

/// An IPv6 address in brackets, a colon and a port.
pub open spec fn is_socket_v6(s: Seq<char>) -> bool {
    let parts = split_on(s, ']');
    &&& parts.len() == 2
    &&& parts[0].len() > 0 && parts[0][0] == '[' && is_scoped_ipv6(parts[0].drop_first())
    &&& parts[1].len() > 0 && parts[1][0] == ':' && is_port(parts[1].drop_first())
}

/// A socket address.
pub open spec fn is_socket_address(s: Seq<char>) -> bool {
    is_socket_v4(s) || is_socket_v6(s)
}

// ---------------------------------------------------------------------------
// Recognisers
// ---------------------------------------------------------------------------

fn octet(s: &str) -> (r: bool)
    ensures
        r == is_octet(s@),
{
    s.unicode_len() <= 3 && read_digits(s, 255).is_some() && !(s.unicode_len() > 1
        && starts_with_char(s, '0'))
}

/// Whether `s` is an IPv4 address.
pub fn ipv4(s: &str) -> (r: bool)
    ensures
        r == is_ipv4(s@),
{
    let parts = split(s, '.');
    let ghost model = split_on(s@, '.');
    if parts.len() != 4 {
        assert(texts(parts@).len() == parts@.len());
        return false;
    }
    let mut i: usize = 0;
    while i < parts.len()
        invariant
            i <= parts.len(),
            model == split_on(s@, '.'),
            texts(parts@) == model,
            forall|j: int| 0 <= j < i ==> is_octet(#[trigger] model[j]),
        decreases parts.len() - i,
    {
        assert(model[i as int] == parts@[i as int]@);
        if !octet(parts[i].as_str()) {
            return false;
        }
        i += 1;
    }
    assert(texts(parts@).len() == parts@.len());
    true
}

fn hex_digit(c: char) -> (r: bool)
    ensures
        r == is_hex_digit(c),
{
    ('0' <= c && c <= '9') || ('a' <= c && c <= 'f') || ('A' <= c && c <= 'F')
}

fn group(s: &str) -> (r: bool)
    ensures
        r == is_group(s@),
{
    let chars = to_chars(s);
    if chars.len() < 1 || chars.len() > 4 {
        return false;
    }
    let mut i: usize = 0;
    while i < chars.len()
        invariant
            i <= chars.len(),
            chars@ == s@,
            forall|j: int| 0 <= j < i ==> is_hex_digit(#[trigger] s@[j]),
        decreases chars.len() - i,
    {
        if !hex_digit(chars[i]) {
            return false;
        }
        i += 1;
    }
    true
}

/// Counts the groups of a list with colons between them, up to eight.
fn count_groups(s: &str, v4: bool) -> (r: Option<usize>)
    ensures
        match r {
            Some(n) => group_count(s@, v4) == Some(n as nat),
            None => group_count(s@, v4) is None || group_count(s@, v4)->0 > 8,
        },
{
    if s.is_empty() {
        return Some(0);
    }
    let parts = split(s, ':');
    let ghost model = split_on(s@, ':');
    proof {
        lemma_split_on_nonempty(s@, ':');
        assert(texts(parts@).len() == parts@.len());
    }
    let last = parts.len() - 1;
    let mut i: usize = 0;
    while i < last
        invariant
            i <= last,
            last == parts.len() - 1,
            texts(parts@) == model,
            model == split_on(s@, ':'),
            s@.len() > 0,
            forall|j: int| 0 <= j < i ==> is_group(#[trigger] model[j]),
        decreases last - i,
    {
        assert(model[i as int] == parts@[i as int]@);
        if !group(parts[i].as_str()) {
            assert(group_count(s@, v4) is None);
            return None;
        }
        i += 1;
    }
    assert(model.last() == parts@[last as int]@);
    if group(parts[last].as_str()) {
        Some(parts.len())
    } else if v4 && ipv4(parts[last].as_str()) {
        if parts.len() > 8 {
            None
        } else {
            Some(parts.len() + 1)
        }
    } else {
        None
    }
}

/// Whether `s` is an IPv6 address.
pub fn ipv6(s: &str) -> (r: bool)
    ensures
        r == is_ipv6(s@),
{
    let chars = to_chars(s);
    let mut at: usize = 0;
    while at < chars.len() && !(chars.len() - at > 1 && chars[at] == ':' && chars[at + 1] == ':')
        invariant
            at <= chars.len(),
            chars@ == s@,
            double_colon(s@, 0) == double_colon(s@, at as int),
        decreases chars.len() - at,
    {
        at += 1;
    }
    if at >= chars.len() {
        match count_groups(s, true) {
            Some(n) => n == 8,
            None => false,
        }
    } else {
        let head = s.substring_char(0, at);
        let tail = s.substring_char(at + 2, chars.len());
        assert(head@ =~= s@.take(at as int));
        assert(tail@ =~= s@.skip(at + 2));
        match (count_groups(head, false), count_groups(tail, true)) {
            (Some(h), Some(t)) => h <= 7 && t <= 7 - h,
            _ => false,
        }
    }
}

fn port(s: &str) -> (r: bool)
    ensures
        r == is_port(s@),
{
    read_digits(s, 65535).is_some()
}

fn scoped_ipv6(s: &str) -> (r: bool)
    ensures
        r == is_scoped_ipv6(s@),
{
    let parts = split(s, '%');
    let ghost model = split_on(s@, '%');
    assert(texts(parts@).len() == parts@.len());
    if parts.len() == 1 {
        assert(model[0] == parts@[0]@);
        ipv6(parts[0].as_str())
    } else if parts.len() == 2 {
        assert(model[0] == parts@[0]@);
        assert(model[1] == parts@[1]@);
        ipv6(parts[0].as_str()) && read_digits(parts[1].as_str(), u32::MAX).is_some()
    } else {
        false
    }
}

/// Whether `s` is a socket address: an address and a port.
pub fn socket_address(s: &str) -> (r: bool)
    ensures
        r == is_socket_address(s@),
{
    let colon = split(s, ':');
    assert(texts(colon@).len() == colon@.len());
    if colon.len() == 2 {
        assert(texts(colon@)[0] == colon@[0]@);
        assert(texts(colon@)[1] == colon@[1]@);
        if ipv4(colon[0].as_str()) && port(colon[1].as_str()) {
            return true;
        }
    }
    let bracket = split(s, ']');
    assert(texts(bracket@).len() == bracket@.len());
    if bracket.len() != 2 {
        return false;
    }
    let host = bracket[0].as_str();
    let rest = bracket[1].as_str();
    assert(texts(bracket@)[0] == host@);
    assert(texts(bracket@)[1] == rest@);
    if !starts_with_char(host, '[') || !starts_with_char(rest, ':') {
        return false;
    }
    let address = host.substring_char(1, host.unicode_len());
    let number = rest.substring_char(1, rest.unicode_len());
    assert(address@ =~= host@.drop_first());
    assert(number@ =~= rest@.drop_first());
    scoped_ipv6(address) && port(number)
}

// ---------------------------------------------------------------------------
// Laws
// ---------------------------------------------------------------------------

/// Four numbers with dots between them.
pub open spec fn quad(a: u8, b: u8, c: u8, d: u8) -> Seq<char> {
    decimal(a as nat) + seq!['.'] + decimal(b as nat) + seq!['.'] + decimal(c as nat) + seq!['.']
        + decimal(d as nat)
}

proof fn lemma_octet(n: u8)
    ensures
        is_octet(decimal(n as nat)),
        is_free_of(decimal(n as nat), '.'),
        is_free_of(decimal(n as nat), ':'),
{
    lemma_decimal_reads_back(n as nat);
    reveal_with_fuel(decimal, 4);
    let s = decimal(n as nat);
    assert forall|i: int| 0 <= i < s.len() implies #[trigger] s[i] != '.' && s[i] != ':' by {
        assert(is_digit(s[i]));
    }
}

proof fn lemma_octet_is_decimal(s: Seq<char>)
    requires
        is_octet(s),
    ensures
        digits_value(s) <= 255,
        decimal(digits_value(s)) == s,
{
    law_decimal_forms_are_unique(s);
}

/// The IPv4 addresses are the texts of four numbers up to 255 with dots between them,
/// and no others.
pub proof fn law_ipv4(a: u8, b: u8, c: u8, d: u8, s: Seq<char>)
    ensures
        is_ipv4(quad(a, b, c, d)),
        is_ipv4(s) ==> exists|w: u8, x: u8, y: u8, z: u8| s == #[trigger] quad(w, x, y, z),
{
    lemma_octet(a);
    lemma_octet(b);
    lemma_octet(c);
    lemma_octet(d);
    let p = decimal(a as nat);
    let q = decimal(b as nat);
    let r = decimal(c as nat);
    let t = decimal(d as nat);
    law_splitting(p, q, '.');
    law_splitting(q, r, '.');
    law_splitting(r, t, '.');
    law_splitting(t, Seq::empty(), '.');
    law_splitting(p + seq!['.'] + q, r, '.');
    law_splitting(p + seq!['.'] + q + seq!['.'] + r, t, '.');
    assert(split_on(quad(a, b, c, d), '.') =~= seq![p, q, r, t]);
    if is_ipv4(s) {
        let parts = split_on(s, '.');
        law_splitting_and_joining(s, '.');
        assert(is_octet(parts[0]) && is_octet(parts[1]) && is_octet(parts[2]) && is_octet(parts[3]));
        lemma_octet_is_decimal(parts[0]);
        lemma_octet_is_decimal(parts[1]);
        lemma_octet_is_decimal(parts[2]);
        lemma_octet_is_decimal(parts[3]);
        let w = digits_value(parts[0]) as u8;
        let x = digits_value(parts[1]) as u8;
        let y = digits_value(parts[2]) as u8;
        let z = digits_value(parts[3]) as u8;
        let three = parts.drop_last();
        let two = three.drop_last();
        let one = two.drop_last();
        assert(one =~= seq![parts[0]]);
        assert(joined(one, '.') == parts[0]);
        assert(two.last() == parts[1] && three.last() == parts[2] && parts.last() == parts[3]);
        assert(joined(two, '.') == parts[0] + seq!['.'] + parts[1]);
        assert(joined(three, '.') == parts[0] + seq!['.'] + parts[1] + seq!['.'] + parts[2]);
        assert(s == quad(w, x, y, z));
    }
}

/// An IPv4 address, a colon and a port up to 65535 are a socket address. A text with
/// one colon is a socket address only if it is an IPv4 address, a colon and digits that
/// stand for a port.
pub proof fn law_sockets_v4(a: u8, b: u8, c: u8, d: u8, port: u16, host: Seq<char>, rest: Seq<char>)
    ensures
        is_socket_address(quad(a, b, c, d) + seq![':'] + decimal(port as nat)),
        is_free_of(host, ':') && is_free_of(rest, ':') && is_free_of(host, ']') && is_free_of(
            rest,
            ']',
        ) ==> (is_socket_address(host + seq![':'] + rest) <==> is_ipv4(host) && digits_number(
            rest,
            65535,
        ) is Some),
{
    law_ipv4(a, b, c, d, Seq::empty());
    lemma_octet(a);
    lemma_octet(b);
    lemma_octet(c);
    lemma_octet(d);
    let address = quad(a, b, c, d);
    let digits = decimal(port as nat);
    lemma_decimal_reads_back(port as nat);
    assert(is_free_of(digits, ':')) by {
        assert forall|i: int| 0 <= i < digits.len() implies #[trigger] digits[i] != ':' by {
            assert(is_digit(digits[i]));
        }
    }
    assert(is_free_of(address, ':')) by {
        let p = decimal(a as nat);
        let q = p + seq!['.'] + decimal(b as nat);
        let r = q + seq!['.'] + decimal(c as nat);
        lemma_free_of(p, decimal(b as nat));
        lemma_free_of(q, decimal(c as nat));
        lemma_free_of(r, decimal(d as nat));
    }
    law_splitting(address, digits, ':');
    law_splitting(digits, Seq::empty(), ':');
    assert(split_on(address + seq![':'] + digits, ':') =~= seq![address, digits]);
    if is_free_of(host, ':') && is_free_of(rest, ':') && is_free_of(host, ']') && is_free_of(
        rest,
        ']',
    ) {
        law_splitting(host, rest, ':');
        law_splitting(rest, Seq::empty(), ':');
        let whole = host + seq![':'] + rest;
        assert(split_on(whole, ':') =~= seq![host, rest]);
        assert(is_free_of(whole, ']')) by {
            assert forall|i: int| 0 <= i < whole.len() implies #[trigger] whole[i] != ']' by {
                if i < host.len() {
                    assert(whole[i] == host[i]);
                } else if i > host.len() {
                    assert(whole[i] == rest[i - host.len() - 1]);
                }
            }
        }
        law_splitting(whole, Seq::empty(), ']');
        assert(split_on(whole, ']').len() == 1);
    }
}

proof fn lemma_free_of(a: Seq<char>, b: Seq<char>)
    requires
        is_free_of(a, ':'),
        is_free_of(b, ':'),
    ensures
        is_free_of(a + seq!['.'] + b, ':'),
{
    let s = a + seq!['.'] + b;
    assert forall|i: int| 0 <= i < s.len() implies #[trigger] s[i] != ':' by {
        if i < a.len() {
            assert(s[i] == a[i]);
        } else if i > a.len() {
            assert(s[i] == b[i - a.len() - 1]);
        }
    }
}

/// An IPv6 address in brackets, with or without a percent sign and a numeric scope, a
/// colon and a port are a socket address.
pub proof fn law_sockets_v6(address: Seq<char>, scope: u32, port: u16)
    requires
        is_ipv6(address),
        is_free_of(address, ']'),
        is_free_of(address, '%'),
    ensures
        is_socket_address(
            seq!['['] + address + seq![']'] + (seq![':'] + decimal(port as nat)),
        ),
        is_socket_address(
            seq!['['] + (address + seq!['%'] + decimal(scope as nat)) + seq![']'] + (seq![':']
                + decimal(port as nat)),
        ),
{
    lemma_decimal_reads_back(port as nat);
    lemma_decimal_reads_back(scope as nat);
    let digits = decimal(port as nat);
    let number = decimal(scope as nat);
    let scoped = address + seq!['%'] + number;
    assert forall|i: int| 0 <= i < digits.len() implies #[trigger] digits[i] != ']' by {
        assert(is_digit(digits[i]));
    }
    assert forall|i: int| 0 <= i < number.len() implies #[trigger] number[i] != ']' && number[i]
        != '%' by {
        assert(is_digit(number[i]));
    }
    law_splitting(address, number, '%');
    law_splitting(number, Seq::empty(), '%');
    assert(split_on(scoped, '%') =~= seq![address, number]);
    assert(is_scoped_ipv6(address));
    assert(is_scoped_ipv6(scoped));
    assert(is_free_of(scoped, ']')) by {
        assert forall|i: int| 0 <= i < scoped.len() implies #[trigger] scoped[i] != ']' by {
            if i < address.len() {
                assert(scoped[i] == address[i]);
            } else if i > address.len() {
                assert(scoped[i] == number[i - address.len() - 1]);
            }
        }
    }
    lemma_bracketed(address, digits);
    lemma_bracketed(scoped, digits);
}

proof fn lemma_bracketed(inner: Seq<char>, digits: Seq<char>)
    requires
        is_scoped_ipv6(inner),
        is_free_of(inner, ']'),
        is_free_of(digits, ']'),
        is_port(digits),
    ensures
        is_socket_address(seq!['['] + inner + seq![']'] + (seq![':'] + digits)),
{
    let front = seq!['['] + inner;
    let back = seq![':'] + digits;
    let whole = front + seq![']'] + back;
    assert forall|i: int| 0 <= i < front.len() implies #[trigger] front[i] != ']' by {
        if i > 0 {
            assert(front[i] == inner[i - 1]);
        }
    }
    assert forall|i: int| 0 <= i < back.len() implies #[trigger] back[i] != ']' by {
        if i > 0 {
            assert(back[i] == digits[i - 1]);
        }
    }
    law_splitting(front, back, ']');
    law_splitting(back, Seq::empty(), ']');
    assert(split_on(whole, ']') =~= seq![front, back]);
    assert(front.drop_first() =~= inner);
    assert(back.drop_first() =~= digits);
}

/// A group of an IPv6 address: one to four hexadecimal digits.
pub proof fn law_groups(s: Seq<char>)
    ensures
        is_group(s) <==> 1 <= s.len() <= 4 && forall|i: int|
            0 <= i < s.len() ==> {
                ||| 48 <= (#[trigger] s[i]) as u32 <= 57
                ||| 65 <= s[i] as u32 <= 70
                ||| 97 <= s[i] as u32 <= 102
            },
{
    if is_group(s) {
        assert forall|i: int| 0 <= i < s.len() implies {
            ||| 48 <= (#[trigger] s[i]) as u32 <= 57
            ||| 65 <= s[i] as u32 <= 70
            ||| 97 <= s[i] as u32 <= 102
        } by {
            assert(is_hex_digit(s[i]));
            lemma_hex_digit(s[i]);
        }
    }
    if 1 <= s.len() <= 4 && forall|i: int|
        0 <= i < s.len() ==> {
            ||| 48 <= (#[trigger] s[i]) as u32 <= 57
            ||| 65 <= s[i] as u32 <= 70
            ||| 97 <= s[i] as u32 <= 102
        } {
        assert forall|i: int| 0 <= i < s.len() implies is_hex_digit(#[trigger] s[i]) by {
            assert(48 <= s[i] as u32 <= 57 || 65 <= s[i] as u32 <= 70 || 97 <= s[i] as u32 <= 102);
            lemma_hex_digit(s[i]);
        }
    }
}

proof fn lemma_hex_digit(c: char)
    ensures
        is_hex_digit(c) <==> {
            ||| 48 <= c as u32 <= 57
            ||| 65 <= c as u32 <= 70
            ||| 97 <= c as u32 <= 102
        },
{
}

/// A list of groups.
pub open spec fn are_groups(groups: Seq<Seq<char>>) -> bool {
    forall|i: int| 0 <= i < groups.len() ==> is_group(#[trigger] groups[i])
}

proof fn lemma_group_is_free(s: Seq<char>)
    requires
        is_group(s),
    ensures
        is_free_of(s, ':'),
        s.len() > 0,
{
    assert forall|i: int| 0 <= i < s.len() implies #[trigger] s[i] != ':' by {
        assert(is_hex_digit(s[i]));
    }
}

/// Groups with colons between them count as so many groups.
proof fn lemma_group_count(groups: Seq<Seq<char>>, v4: bool)
    requires
        are_groups(groups),
    ensures
        group_count(joined(groups, ':'), v4) == Some(groups.len()),
{
    let s = joined(groups, ':');
    if groups.len() > 0 {
        assert forall|i: int| 0 <= i < groups.len() implies is_free_of(
            #[trigger] groups[i],
            ':',
        ) by {
            lemma_group_is_free(groups[i]);
        }
        law_joining_and_splitting(groups, ':');
        lemma_joined_is_not_empty(groups);
        let parts = split_on(s, ':');
        assert(parts == groups);
        assert(is_group(groups[groups.len() - 1]));
    }
}

proof fn lemma_joined_is_not_empty(groups: Seq<Seq<char>>)
    requires
        groups.len() > 0,
        are_groups(groups),
    ensures
        joined(groups, ':').len() > 0,
        joined(groups, ':').last() != ':',
        joined(groups, ':')[0] != ':',
    decreases groups.len(),
{
    let last = groups[groups.len() - 1];
    lemma_group_is_free(last);
    lemma_group_is_free(groups[0]);
    if groups.len() > 1 {
        let front = groups.drop_last();
        assert forall|i: int| 0 <= i < front.len() implies is_group(#[trigger] front[i]) by {
            assert(front[i] == groups[i]);
        }
        lemma_joined_is_not_empty(front);
        assert(joined(groups, ':').last() == last.last());
        assert(joined(groups, ':')[0] == joined(front, ':')[0]);
    }
}

/// No two colons stand side by side.
spec fn has_no_pair(s: Seq<char>) -> bool {
    forall|i: int| 0 <= i < s.len() - 1 ==> !((#[trigger] s[i]) == ':' && s[i + 1] == ':')
}

proof fn lemma_no_pair(s: Seq<char>, from: int)
    requires
        has_no_pair(s),
        0 <= from,
    ensures
        double_colon(s, from) is None,
    decreases s.len() - from,
{
    if from + 1 < s.len() {
        assert(!(s[from] == ':' && s[from + 1] == ':'));
        lemma_no_pair(s, from + 1);
    }
}

proof fn lemma_joined_has_no_pair(groups: Seq<Seq<char>>)
    requires
        are_groups(groups),
    ensures
        has_no_pair(joined(groups, ':')),
    decreases groups.len(),
{
    let s = joined(groups, ':');
    if groups.len() > 0 {
        let last = groups[groups.len() - 1];
        lemma_group_is_free(last);
        if groups.len() > 1 {
            let front = groups.drop_last();
            assert forall|i: int| 0 <= i < front.len() implies is_group(#[trigger] front[i]) by {
                assert(front[i] == groups[i]);
            }
            lemma_joined_has_no_pair(front);
            lemma_joined_is_not_empty(front);
            let head = joined(front, ':');
            assert(s == head + seq![':'] + last);
            assert forall|i: int| 0 <= i < s.len() - 1 implies !((#[trigger] s[i]) == ':' && s[i
                + 1] == ':') by {
                if i + 1 < head.len() {
                    assert(s[i] == head[i] && s[i + 1] == head[i + 1]);
                } else if i + 1 == head.len() {
                    assert(s[i] == head.last());
                } else {
                    assert(s[i + 1] == last[i + 1 - head.len() - 1]);
                }
            }
        }
    }
}

/// The first pair of colons is found behind a text without one.
proof fn lemma_pair_is_found(head: Seq<char>, tail: Seq<char>, from: int)
    requires
        has_no_pair(head),
        head.len() > 0 ==> head[head.len() - 1] != ':',
        0 <= from <= head.len(),
    ensures
        double_colon(head + seq![':', ':'] + tail, from) == Some(head.len() as int),
    decreases head.len() - from,
{
    let s = head + seq![':', ':'] + tail;
    assert(s[head.len() as int] == ':');
    assert(s[head.len() as int + 1] == ':');
    if from < head.len() {
        assert(s[from] == head[from]);
        if from + 1 < head.len() {
            assert(s[from + 1] == head[from + 1]);
            assert(!(head[from] == ':' && head[from + 1] == ':'));
        }
        lemma_pair_is_found(head, tail, from + 1);
    }
}

/// Eight groups with colons between them are an IPv6 address, and so are two lists of
/// groups, at most seven in all, with a pair of colons between them. Any other number
/// of groups is none.
pub proof fn law_ipv6(head: Seq<Seq<char>>, tail: Seq<Seq<char>>)
    requires
        are_groups(head),
        are_groups(tail),
    ensures
        is_ipv6(joined(head, ':')) <==> head.len() == 8,
        is_ipv6(joined(head, ':') + seq![':', ':'] + joined(tail, ':')) <==> head.len()
            + tail.len() <= 7,
{
    let a = joined(head, ':');
    let b = joined(tail, ':');
    let s = a + seq![':', ':'] + b;
    lemma_group_count(head, true);
    lemma_group_count(head, false);
    lemma_group_count(tail, true);
    lemma_joined_has_no_pair(head);
    lemma_no_pair(a, 0);
    if head.len() > 0 {
        lemma_joined_is_not_empty(head);
    }
    lemma_pair_is_found(a, b, 0);
    assert(s.take(a.len() as int) =~= a);
    assert(s.skip(a.len() as int + 2) =~= b);
}

/// An IPv4 address may stand for the last two groups of an IPv6 address.
pub proof fn law_ipv6_with_ipv4(head: Seq<Seq<char>>, tail: Seq<Seq<char>>, v4: Seq<char>)
    requires
        are_groups(head),
        are_groups(tail),
        is_ipv4(v4),
    ensures
        head.len() == 6 ==> is_ipv6(joined(head.push(v4), ':')),
        head.len() + tail.len() <= 5 ==> is_ipv6(
            joined(head, ':') + seq![':', ':'] + joined(tail.push(v4), ':'),
        ),
{
    law_ipv4(0, 0, 0, 0, v4);
    let (w, x, y, z) = choose|w: u8, x: u8, y: u8, z: u8| v4 == #[trigger] quad(w, x, y, z);
    lemma_quad(w, x, y, z);
    lemma_group_count_v4(head, v4);
    lemma_group_count_v4(tail, v4);
    lemma_group_count(head, false);
    let a = joined(head, ':');
    let b = joined(tail.push(v4), ':');
    let s = a + seq![':', ':'] + b;
    lemma_joined_has_no_pair(head);
    if head.len() > 0 {
        lemma_joined_is_not_empty(head);
    }
    lemma_pair_is_found(a, b, 0);
    assert(s.take(a.len() as int) =~= a);
    assert(s.skip(a.len() as int + 2) =~= b);
    if head.len() == 6 {
        let whole = head.push(v4);
        let t = joined(whole, ':');
        assert(whole.drop_last() =~= head);
        assert(t == a + seq![':'] + v4);
        assert(has_no_pair(t)) by {
            assert forall|i: int| 0 <= i < t.len() - 1 implies !((#[trigger] t[i]) == ':' && t[i
                + 1] == ':') by {
                if i + 1 < a.len() {
                    assert(t[i] == a[i] && t[i + 1] == a[i + 1]);
                } else if i + 1 == a.len() {
                    assert(t[i] == a.last());
                } else {
                    assert(t[i + 1] == v4[i + 1 - a.len() - 1]);
                }
            }
        }
        lemma_no_pair(t, 0);
    }
}

proof fn lemma_quad(a: u8, b: u8, c: u8, d: u8)
    ensures
        is_free_of(quad(a, b, c, d), ':'),
        quad(a, b, c, d).len() > 4,
{
    lemma_octet(a);
    lemma_octet(b);
    lemma_octet(c);
    lemma_octet(d);
    lemma_decimal_reads_back(a as nat);
    lemma_decimal_reads_back(b as nat);
    lemma_decimal_reads_back(c as nat);
    lemma_decimal_reads_back(d as nat);
    let p = decimal(a as nat);
    let q = p + seq!['.'] + decimal(b as nat);
    let r = q + seq!['.'] + decimal(c as nat);
    lemma_free_of(p, decimal(b as nat));
    lemma_free_of(q, decimal(c as nat));
    lemma_free_of(r, decimal(d as nat));
}

proof fn lemma_group_count_v4(groups: Seq<Seq<char>>, v4: Seq<char>)
    requires
        are_groups(groups),
        is_ipv4(v4),
        is_free_of(v4, ':'),
        v4.len() > 4,
    ensures
        group_count(joined(groups.push(v4), ':'), true) == Some(groups.len() + 2),
{
    let whole = groups.push(v4);
    let s = joined(whole, ':');
    assert forall|i: int| 0 <= i < whole.len() implies is_free_of(#[trigger] whole[i], ':') by {
        if i < groups.len() {
            assert(whole[i] == groups[i]);
            lemma_group_is_free(groups[i]);
        }
    }
    law_joining_and_splitting(whole, ':');
    let parts = split_on(s, ':');
    assert(parts == whole);
    assert forall|i: int| 0 <= i < parts.len() - 1 implies is_group(#[trigger] parts[i]) by {
        assert(parts[i] == groups[i]);
    }
    assert(parts.last() == v4);
    assert(!is_group(v4));
    assert(s.len() > 0) by {
        if whole.len() > 1 {
            assert(s == joined(whole.drop_last(), ':') + seq![':'] + v4);
        }
    }
}

/// Groups with colons between them, and behind them an IPv4 address or nothing.
pub open spec fn groups_and(groups: Seq<Seq<char>>, end: Option<Seq<char>>) -> Seq<char> {
    match end {
        Some(v4) => joined(groups.push(v4), ':'),
        None => joined(groups, ':'),
    }
}

/// How many groups there are, an IPv4 address counted as two.
pub open spec fn count_with(groups: Seq<Seq<char>>, end: Option<Seq<char>>) -> nat {
    match end {
        Some(_) => groups.len() + 2,
        None => groups.len(),
    }
}

/// A text is made of groups, and of an IPv4 address behind them if `v4` allows it.
pub open spec fn is_made_of(
    s: Seq<char>,
    groups: Seq<Seq<char>>,
    end: Option<Seq<char>>,
    v4: bool,
) -> bool {
    &&& are_groups(groups)
    &&& s == groups_and(groups, end)
    &&& end matches Some(address) ==> v4 && is_ipv4(address)
}

proof fn lemma_counted_groups(s: Seq<char>, v4: bool) -> (r: (Seq<Seq<char>>, Option<Seq<char>>))
    requires
        group_count(s, v4) is Some,
    ensures
        is_made_of(s, r.0, r.1, v4),
        group_count(s, v4) == Some(count_with(r.0, r.1)),
{
    let parts = split_on(s, ':');
    law_splitting_and_joining(s, ':');
    if s.len() == 0 {
        let none = Seq::<Seq<char>>::empty();
        assert(s =~= joined(none, ':'));
        (none, None)
    } else if is_group(parts.last()) {
        assert forall|i: int| 0 <= i < parts.len() implies is_group(#[trigger] parts[i]) by {
            if i == parts.len() - 1 {
                assert(parts[i] == parts.last());
            }
        }
        (parts, None)
    } else {
        let front = parts.drop_last();
        assert forall|i: int| 0 <= i < front.len() implies is_group(#[trigger] front[i]) by {
            assert(front[i] == parts[i]);
        }
        assert(front.push(parts.last()) =~= parts);
        (front, Some(parts.last()))
    }
}

proof fn lemma_pair_is_there(s: Seq<char>, from: int)
    requires
        0 <= from,
    ensures
        double_colon(s, from) matches Some(i) ==> from <= i && i + 1 < s.len() && s[i] == ':'
            && s[i + 1] == ':',
    decreases s.len() - from,
{
    if from + 1 < s.len() {
        lemma_pair_is_there(s, from + 1);
    }
}

/// Any IPv6 address is made of groups: of eight, or of at most seven around a pair of
/// colons, and only its last two groups may be written as an IPv4 address.
pub proof fn law_ipv6_is_made_of_groups(s: Seq<char>)
    requires
        is_ipv6(s),
    ensures
        (exists|groups: Seq<Seq<char>>, end: Option<Seq<char>>|
            #[trigger] is_made_of(s, groups, end, true) && count_with(groups, end) == 8) || (exists|
            head: Seq<Seq<char>>,
            tail: Seq<Seq<char>>,
            end: Option<Seq<char>>,
        |
            #[trigger] is_shortened(s, head, tail, end)),
{
    match double_colon(s, 0) {
        None => {
            let r = lemma_counted_groups(s, true);
            assert(is_made_of(s, r.0, r.1, true));
        },
        Some(i) => {
            lemma_pair_is_there(s, 0);
            let a = lemma_counted_groups(s.take(i), false);
            let b = lemma_counted_groups(s.skip(i + 2), true);
            assert(s =~= s.take(i) + seq![':', ':'] + s.skip(i + 2));
            assert(is_shortened(s, a.0, b.0, b.1));
        },
    }
}

/// Two lists of groups around a pair of colons, at most seven in all.
pub open spec fn is_shortened(
    s: Seq<char>,
    head: Seq<Seq<char>>,
    tail: Seq<Seq<char>>,
    end: Option<Seq<char>>,
) -> bool {
    &&& are_groups(head)
    &&& are_groups(tail)
    &&& end matches Some(address) ==> is_ipv4(address)
    &&& s == joined(head, ':') + seq![':', ':'] + groups_and(tail, end)
    &&& head.len() + count_with(tail, end) <= 7
}

/// A socket address by its two parts.
pub open spec fn is_pair_v4(s: Seq<char>, host: Seq<char>, port: Seq<char>) -> bool {
    s == host + seq![':'] + port && is_ipv4(host) && digits_number(port, 65535) is Some
}

/// A socket address with brackets by its two parts.
pub open spec fn is_pair_v6(s: Seq<char>, host: Seq<char>, port: Seq<char>) -> bool {
    &&& s == seq!['['] + host + seq![']', ':'] + port
    &&& digits_number(port, 65535) is Some
    &&& is_ipv6(host) || exists|address: Seq<char>, scope: Seq<char>|
        host == #[trigger] (address + seq!['%'] + scope) && is_ipv6(address) && digits_number(
            scope,
            u32::MAX as nat,
        ) is Some
}

/// Any socket address is an IPv4 address, a colon and a port, or an IPv6 address in
/// brackets, with or without a numeric scope, a colon and a port.
pub proof fn law_sockets_have_two_parts(s: Seq<char>)
    requires
        is_socket_address(s),
    ensures
        (exists|host: Seq<char>, port: Seq<char>| #[trigger] is_pair_v4(s, host, port)) || (exists|
            host: Seq<char>,
            port: Seq<char>,
        | #[trigger]
            is_pair_v6(s, host, port)),
{
    if is_socket_v4(s) {
        let parts = split_on(s, ':');
        law_splitting_and_joining(s, ':');
        lemma_two_parts(parts, ':');
        assert(is_pair_v4(s, parts[0], parts[1]));
    } else {
        let parts = split_on(s, ']');
        law_splitting_and_joining(s, ']');
        lemma_two_parts(parts, ']');
        let host = parts[0].drop_first();
        let port = parts[1].drop_first();
        let pieces = split_on(host, '%');
        law_splitting_and_joining(host, '%');
        assert(s =~= seq!['['] + host + seq![']', ':'] + port);
        if pieces.len() == 2 {
            lemma_two_parts(pieces, '%');
            assert(host == pieces[0] + seq!['%'] + pieces[1]);
        } else {
            assert(host == pieces[0]);
        }
        assert(is_pair_v6(s, host, port));
    }
}

proof fn lemma_two_parts(parts: Seq<Seq<char>>, separator: char)
    requires
        parts.len() == 2,
    ensures
        joined(parts, separator) == parts[0] + seq![separator] + parts[1],
{
    assert(parts.drop_last() =~= seq![parts[0]]);
    assert(joined(parts.drop_last(), separator) == parts[0]);
}

} // verus!
