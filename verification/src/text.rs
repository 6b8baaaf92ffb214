//! Text: the string operations that DNS names, record targets and settings are
//! normalised with, each against a model on sequences of characters.
use vstd::prelude::*;
use vstd::string::*;
use vstd::utf8::*;

verus! {

// ---------------------------------------------------------------------------
// Model
// ---------------------------------------------------------------------------

/// The characters with the Unicode property `White_Space`.
pub open spec fn is_whitespace(c: char) -> bool {
    let n = c as u32;
    ||| 0x9 <= n <= 0xd
    ||| n == 0x20
    ||| n == 0x85
    ||| n == 0xa0
    ||| n == 0x1680
    ||| 0x2000 <= n <= 0x200a
    ||| n == 0x2028
    ||| n == 0x2029
    ||| n == 0x202f
    ||| n == 0x205f
    ||| n == 0x3000
}

/// How many bytes a character takes in UTF-8.
pub open spec fn utf8_width(c: char) -> nat {
    let n = c as u32;
    if n < 0x80 {
        1
    } else if n < 0x800 {
        2
    } else if n < 0x1_0000 {
        3
    } else {
        4
    }
}

/// How many bytes a text takes in UTF-8.
pub open spec fn byte_count(s: Seq<char>) -> nat
    decreases s.len(),
{
    if s.len() == 0 {
        0
    } else {
        byte_count(s.drop_last()) + utf8_width(s.last())
    }
}

/// `s` without the white space it starts with.
pub open spec fn trim_start(s: Seq<char>) -> Seq<char>
    decreases s.len(),
{
    if s.len() > 0 && is_whitespace(s[0]) {
        trim_start(s.drop_first())
    } else {
        s
    }
}

/// `s` without the white space it ends with.
pub open spec fn trim_end(s: Seq<char>) -> Seq<char>
    decreases s.len(),
{
    if s.len() > 0 && is_whitespace(s.last()) {
        trim_end(s.drop_last())
    } else {
        s
    }
}

/// `s` without the white space at both of its ends.
pub open spec fn trimmed(s: Seq<char>) -> Seq<char> {
    trim_end(trim_start(s))
}

/// `s` without the run of `c` it starts with.
pub open spec fn without_leading(s: Seq<char>, c: char) -> Seq<char>
    decreases s.len(),
{
    if s.len() > 0 && s[0] == c {
        without_leading(s.drop_first(), c)
    } else {
        s
    }
}

/// `s` without the run of `c` it ends with.
pub open spec fn without_trailing(s: Seq<char>, c: char) -> Seq<char>
    decreases s.len(),
{
    if s.len() > 0 && s.last() == c {
        without_trailing(s.drop_last(), c)
    } else {
        s
    }
}

/// The ASCII lower case of one character; every other character stays.
pub open spec fn lower_char(c: char) -> char {
    if 'A' <= c <= 'Z' {
        (c as u8 + 32) as char
    } else {
        c
    }
}

/// The ASCII upper case of one character; every other character stays.
pub open spec fn upper_char(c: char) -> char {
    if 'a' <= c <= 'z' {
        (c as u8 - 32) as char
    } else {
        c
    }
}

/// `s` in ASCII lower case.
pub open spec fn lower(s: Seq<char>) -> Seq<char> {
    Seq::new(s.len(), |i: int| lower_char(s[i]))
}

/// `s` in ASCII upper case.
pub open spec fn upper(s: Seq<char>) -> Seq<char> {
    Seq::new(s.len(), |i: int| upper_char(s[i]))
}

/// The pieces of `s` between the occurrences of `separator`: always one more
/// than there are occurrences, and some of them may be empty.
pub open spec fn split_on(s: Seq<char>, separator: char) -> Seq<Seq<char>>
    decreases s.len(),
{
    if s.len() == 0 {
        seq![Seq::<char>::empty()]
    } else {
        let before = split_on(s.drop_last(), separator);
        if s.last() == separator {
            before.push(Seq::<char>::empty())
        } else {
            before.drop_last().push(before.last().push(s.last()))
        }
    }
}

/// The maximal runs of characters of `s` that are not white space.
pub open spec fn words(s: Seq<char>) -> Seq<Seq<char>>
    decreases s.len(),
{
    if s.len() == 0 {
        Seq::<Seq<char>>::empty()
    } else {
        let before = words(s.drop_last());
        if is_whitespace(s.last()) {
            before
        } else if s.len() >= 2 && !is_whitespace(s[s.len() - 2]) {
            before.drop_last().push(before.last().push(s.last()))
        } else {
            before.push(seq![s.last()])
        }
    }
}

/// A list of texts as a sequence of their characters.
pub open spec fn texts(list: Seq<String>) -> Seq<Seq<char>> {
    list.map_values(|s: String| s@)
}

/// An optional text as its characters.
pub open spec fn opt_text(value: Option<String>) -> Option<Seq<char>> {
    match value {
        Some(s) => Some(s@),
        None => None,
    }
}

/// Lexicographic order by code point, the first difference deciding: the order
/// of std's strings.
pub open spec fn precedes(a: Seq<char>, b: Seq<char>) -> bool
    decreases a.len(),
{
    if b.len() == 0 {
        false
    } else if a.len() == 0 {
        true
    } else if a[0] == b[0] {
        precedes(a.drop_first(), b.drop_first())
    } else {
        a[0] < b[0]
    }
}

// ---------------------------------------------------------------------------
// Characters and strings
// ---------------------------------------------------------------------------

/// The characters of `s`, in order.
pub fn to_chars(s: &str) -> (chars: Vec<char>)
    ensures
        chars@ == s@,
{
    let mut chars: Vec<char> = Vec::new();
    for c in iter: s.chars()
        invariant
            iter.seq() == s@,
            chars@ == s@.take(iter.index() as int),
    {
        chars.push(c);
        assert(s@.take(iter.index() + 1) =~= s@.take(iter.index() as int).push(
            s@[iter.index() as int],
        ));
    }
    assert(s@.take(s@.len() as int) =~= s@);
    chars
}

/// How many bytes a text takes in UTF-8.
pub fn count_bytes(s: &str) -> (r: u128)
    ensures
        r == byte_count(s@),
        r <= 4 * usize::MAX,
{
    let len: usize = s.unicode_len();
    let mut n: u128 = 0;
    for c in iter: s.chars()
        invariant
            iter.seq() == s@,
            s@.len() == len,
            n == byte_count(s@.take(iter.index() as int)),
            n <= 4 * iter.index(),
    {
        assert(s@.take(iter.index() + 1).drop_last() =~= s@.take(iter.index() as int));
        n += width(c);
    }
    assert(s@.take(s@.len() as int) =~= s@);
    n
}

/// How many bytes `c` takes in UTF-8.
pub fn width(c: char) -> (r: u128)
    ensures
        r == utf8_width(c),
{
    let n: u32 = c as u32;
    if n < 0x80 {
        1
    } else if n < 0x800 {
        2
    } else if n < 0x1_0000 {
        3
    } else {
        4
    }
}

/// Whether two texts are the same.
pub fn same_text(a: &str, b: &str) -> (r: bool)
    ensures
        r == (a@ == b@),
{
    a.to_owned() == b.to_owned()
}

/// `a` followed by `b`.
pub fn join(a: &str, b: &str) -> (r: String)
    ensures
        r@ == a@ + b@,
{
    let mut r = a.to_owned();
    r.append(b);
    r
}

/// `a`, `b` and `c` one after the other.
pub fn join3(a: &str, b: &str, c: &str) -> (r: String)
    ensures
        r@ == a@ + b@ + c@,
{
    let mut r = a.to_owned();
    r.append(b);
    r.append(c);
    r
}

/// Whether `c` is white space.
pub fn whitespace(c: char) -> (r: bool)
    ensures
        r == is_whitespace(c),
{
    let n: u32 = c as u32;
    (0x9 <= n && n <= 0xd) || n == 0x20 || n == 0x85 || n == 0xa0 || n == 0x1680 || (0x2000 <= n
        && n <= 0x200a) || n == 0x2028 || n == 0x2029 || n == 0x202f || n == 0x205f || n == 0x3000
}

/// `c` in ASCII lower case.
pub fn to_lower(c: char) -> (r: char)
    ensures
        r == lower_char(c),
{
    if 'A' <= c && c <= 'Z' {
        (c as u8 + 32) as char
    } else {
        c
    }
}

/// `c` in ASCII upper case.
pub fn to_upper(c: char) -> (r: char)
    ensures
        r == upper_char(c),
{
    if 'a' <= c && c <= 'z' {
        (c as u8 - 32) as char
    } else {
        c
    }
}

// ---------------------------------------------------------------------------
// Trimming and case
// ---------------------------------------------------------------------------

/// `s` without the white space at both of its ends.
pub fn trim(s: &str) -> (r: &str)
    ensures
        r@ == trimmed(s@),
{
    let chars = to_chars(s);
    let mut from: usize = 0;
    assert(s@.skip(0) =~= s@);
    while from < chars.len() && whitespace(chars[from])
        invariant
            from <= chars.len(),
            chars@ == s@,
            trim_start(s@.skip(from as int)) == trim_start(s@),
        decreases chars.len() - from,
    {
        assert(s@.skip(from as int).drop_first() =~= s@.skip(from + 1));
        from += 1;
    }
    assert(trim_start(s@) == s@.skip(from as int));
    let mut to: usize = chars.len();
    assert(s@.subrange(from as int, to as int) =~= s@.skip(from as int));
    while from < to && whitespace(chars[to - 1])
        invariant
            from <= to <= chars.len(),
            chars@ == s@,
            trim_end(s@.subrange(from as int, to as int)) == trimmed(s@),
        decreases to,
    {
        assert(s@.subrange(from as int, to as int).drop_last() =~= s@.subrange(
            from as int,
            to - 1,
        ));
        to -= 1;
    }
    s.substring_char(from, to)
}

/// `s` without the run of `c` it starts with.
pub fn trim_leading(s: &str, c: char) -> (r: &str)
    ensures
        r@ == without_leading(s@, c),
{
    let chars = to_chars(s);
    let mut from: usize = 0;
    assert(s@.skip(0) =~= s@);
    while from < chars.len() && chars[from] == c
        invariant
            from <= chars.len(),
            chars@ == s@,
            without_leading(s@.skip(from as int), c) == without_leading(s@, c),
        decreases chars.len() - from,
    {
        assert(s@.skip(from as int).drop_first() =~= s@.skip(from + 1));
        from += 1;
    }
    assert(s@.subrange(from as int, s@.len() as int) =~= s@.skip(from as int));
    s.substring_char(from, chars.len())
}

/// `s` without the run of `c` it ends with.
pub fn trim_trailing(s: &str, c: char) -> (r: &str)
    ensures
        r@ == without_trailing(s@, c),
{
    let chars = to_chars(s);
    let mut to: usize = chars.len();
    assert(s@.subrange(0, to as int) =~= s@);
    while 0 < to && chars[to - 1] == c
        invariant
            to <= chars.len(),
            chars@ == s@,
            without_trailing(s@.subrange(0, to as int), c) == without_trailing(s@, c),
        decreases to,
    {
        assert(s@.subrange(0, to as int).drop_last() =~= s@.subrange(0, to - 1));
        to -= 1;
    }
    s.substring_char(0, to)
}

/// `s` in ASCII lower case.
pub fn lowercase(s: &str) -> (r: String)
    ensures
        r@ == lower(s@),
{
    let mut r = String::new();
    let chars = to_chars(s);
    let mut i: usize = 0;
    while i < chars.len()
        invariant
            i <= chars.len(),
            chars@ == s@,
            r@ == lower(s@).take(i as int),
        decreases chars.len() - i,
    {
        r.push(to_lower(chars[i]));
        i += 1;
        assert(lower(s@).take(i as int) =~= lower(s@).take(i - 1).push(lower(s@)[i - 1]));
    }
    assert(lower(s@).take(s@.len() as int) =~= lower(s@));
    r
}

/// `s` in ASCII upper case.
pub fn uppercase(s: &str) -> (r: String)
    ensures
        r@ == upper(s@),
{
    let mut r = String::new();
    let chars = to_chars(s);
    let mut i: usize = 0;
    while i < chars.len()
        invariant
            i <= chars.len(),
            chars@ == s@,
            r@ == upper(s@).take(i as int),
        decreases chars.len() - i,
    {
        r.push(to_upper(chars[i]));
        i += 1;
        assert(upper(s@).take(i as int) =~= upper(s@).take(i - 1).push(upper(s@)[i - 1]));
    }
    assert(upper(s@).take(s@.len() as int) =~= upper(s@));
    r
}

/// Whether two texts are the same but for ASCII case.
pub fn same_ignoring_case(a: &str, b: &str) -> (r: bool)
    ensures
        r == (lower(a@) == lower(b@)),
{
    lowercase(a) == lowercase(b)
}

/// Whether `s` ends with `suffix`.
pub fn ends_with(s: &str, suffix: &str) -> (r: bool)
    ensures
        r == suffix@.is_suffix_of(s@),
{
    let total = s.unicode_len();
    let part = suffix.unicode_len();
    if part > total {
        false
    } else {
        same_text(s.substring_char(total - part, total), suffix)
    }
}

/// Whether `s` starts with `prefix`.
pub fn starts_with(s: &str, prefix: &str) -> (r: bool)
    ensures
        r == prefix@.is_prefix_of(s@),
{
    let total = s.unicode_len();
    let part = prefix.unicode_len();
    if part > total {
        false
    } else {
        same_text(s.substring_char(0, part), prefix)
    }
}

/// Whether `s` starts with the character `c`.
pub fn starts_with_char(s: &str, c: char) -> (r: bool)
    ensures
        r == (s@.len() > 0 && s@[0] == c),
{
    !s.is_empty() && s.get_char(0) == c
}

/// Whether `list` holds `item`.
pub fn list_has(list: &Vec<String>, item: &str) -> (r: bool)
    ensures
        r == texts(list@).contains(item@),
{
    let mut i: usize = 0;
    while i < list.len()
        invariant
            i <= list.len(),
            forall|j: int| 0 <= j < i ==> texts(list@)[j] != item@,
        decreases list.len() - i,
    {
        if same_text(list[i].as_str(), item) {
            assert(texts(list@)[i as int] == item@);
            return true;
        }
        i += 1;
    }
    false
}

/// Pushing a string pushes its text.
pub proof fn lemma_texts_push(list: Seq<String>, item: String)
    ensures
        texts(list.push(item)) == texts(list).push(item@),
{
    assert(texts(list.push(item)) =~= texts(list).push(item@));
}

/// A copy of `list`, text for text.
pub fn copy_texts(list: &Vec<String>) -> (r: Vec<String>)
    ensures
        texts(r@) == texts(list@),
{
    let mut r: Vec<String> = Vec::new();
    let mut i: usize = 0;
    while i < list.len()
        invariant
            i <= list.len(),
            texts(r@) =~= texts(list@).take(i as int),
        decreases list.len() - i,
    {
        let item = list[i].clone();
        proof {
            lemma_texts_push(r@, item);
        }
        r.push(item);
        i += 1;
    }
    assert(texts(list@).take(list@.len() as int) =~= texts(list@));
    r
}

// ---------------------------------------------------------------------------
// Splitting
// ---------------------------------------------------------------------------

/// There is always a piece.
pub proof fn lemma_split_on_nonempty(s: Seq<char>, separator: char)
    ensures
        split_on(s, separator).len() >= 1,
    decreases s.len(),
{
    if s.len() > 0 {
        lemma_split_on_nonempty(s.drop_last(), separator);
    }
}

/// The pieces of `s` between the occurrences of `separator`.
pub fn split(s: &str, separator: char) -> (r: Vec<String>)
    ensures
        texts(r@) == split_on(s@, separator),
{
    let chars = to_chars(s);
    let mut r: Vec<String> = Vec::new();
    let mut piece = String::new();
    let mut i: usize = 0;
    assert(texts(r@).push(piece@) =~= split_on(s@.take(0), separator));
    while i < chars.len()
        invariant
            i <= chars.len(),
            chars@ == s@,
            texts(r@).push(piece@) == split_on(s@.take(i as int), separator),
        decreases chars.len() - i,
    {
        let ghost before = split_on(s@.take(i as int), separator);
        let ghost old_piece = piece@;
        let ghost old_r = texts(r@);
        let c = chars[i];
        i += 1;
        assert(s@.take(i as int).drop_last() =~= s@.take(i - 1));
        assert(before.drop_last() =~= old_r);
        if c == separator {
            r.push(piece);
            piece = String::new();
            assert(texts(r@) =~= old_r.push(old_piece));
            assert(texts(r@).push(piece@) =~= before.push(Seq::<char>::empty()));
        } else {
            piece.push(c);
        }
    }
    assert(s@.take(s@.len() as int) =~= s@);
    let ghost done = texts(r@).push(piece@);
    r.push(piece);
    assert(texts(r@) =~= done);
    r
}

/// The maximal runs of characters of `s` that are not white space.
pub fn split_whitespace(s: &str) -> (r: Vec<String>)
    ensures
        texts(r@) == words(s@),
{
    let chars = to_chars(s);
    let mut r: Vec<String> = Vec::new();
    let mut word = String::new();
    let mut i: usize = 0;
    assert(texts(r@) =~= words(s@.take(0)));
    while i < chars.len()
        invariant
            i <= chars.len(),
            chars@ == s@,
            (i > 0 && !is_whitespace(s@[i - 1])) == (word@.len() > 0),
            words(s@.take(i as int)) == if word@.len() > 0 {
                texts(r@).push(word@)
            } else {
                texts(r@)
            },
        decreases chars.len() - i,
    {
        let ghost before = words(s@.take(i as int));
        let ghost old_word = word@;
        let ghost old_r = texts(r@);
        let c = chars[i];
        i += 1;
        assert(s@.take(i as int).drop_last() =~= s@.take(i - 1));
        if whitespace(c) {
            if !word.as_str().is_empty() {
                r.push(word);
                word = String::new();
                assert(texts(r@) =~= old_r.push(old_word));
            }
        } else {
            word.push(c);
            proof {
                if old_word.len() > 0 {
                    assert(before.drop_last() =~= old_r);
                } else {
                    assert(word@ =~= seq![c]);
                }
            }
        }
    }
    assert(s@.take(s@.len() as int) =~= s@);
    if !word.as_str().is_empty() {
        let ghost done = texts(r@).push(word@);
        r.push(word);
        assert(texts(r@) =~= done);
    }
    r
}

// ---------------------------------------------------------------------------
// Laws
// ---------------------------------------------------------------------------

/// Every character of a text is white space.
pub open spec fn is_blank(s: Seq<char>) -> bool {
    forall|i: int| 0 <= i < s.len() ==> is_whitespace(#[trigger] s[i])
}

/// A text that neither starts nor ends with white space.
pub open spec fn is_bare(s: Seq<char>) -> bool {
    s.len() > 0 ==> !is_whitespace(s[0]) && !is_whitespace(s[s.len() - 1])
}

/// A text of one character, over and over.
pub open spec fn is_run(s: Seq<char>, c: char) -> bool {
    forall|i: int| 0 <= i < s.len() ==> #[trigger] s[i] == c
}

/// A character does not occur in a text.
pub open spec fn is_free_of(s: Seq<char>, c: char) -> bool {
    forall|i: int| 0 <= i < s.len() ==> #[trigger] s[i] != c
}

/// White space is the blank, the controls from tab to carriage return, and beyond
/// ASCII the spaces and separators of Unicode.
pub proof fn law_white_space(c: char)
    ensures
        (c as u32) < 0x80 ==> (is_whitespace(c) <==> c == ' ' || c == '\t' || c == '\n' || c == '\r'
            || c as u32 == 11 || c as u32 == 12),
        (c as u32) >= 0x80 ==> (is_whitespace(c) <==> c as u32 == 133 || c as u32 == 160 || c as u32
            == 5760 || 8192 <= c as u32 <= 8202 || c as u32 == 8232 || c as u32 == 8233 || c as u32
            == 8239 || c as u32 == 8287 || c as u32 == 12288),
{
}

proof fn lemma_trim_start_blank(front: Seq<char>, rest: Seq<char>)
    requires
        is_blank(front),
    ensures
        trim_start(front + rest) == trim_start(rest),
    decreases front.len(),
{
    let s = front + rest;
    if front.len() == 0 {
        assert(s =~= rest);
    } else {
        assert(is_whitespace(front[0]));
        assert(s[0] == front[0]);
        assert(s.drop_first() =~= front.drop_first() + rest);
        assert forall|i: int| 0 <= i < front.drop_first().len() implies is_whitespace(
            #[trigger] front.drop_first()[i],
        ) by {
            assert(is_whitespace(front[i + 1]));
        }
        lemma_trim_start_blank(front.drop_first(), rest);
    }
}

proof fn lemma_trim_end_blank(rest: Seq<char>, back: Seq<char>)
    requires
        is_blank(back),
    ensures
        trim_end(rest + back) == trim_end(rest),
    decreases back.len(),
{
    let s = rest + back;
    if back.len() == 0 {
        assert(s =~= rest);
    } else {
        assert(is_whitespace(back[back.len() - 1]));
        assert(s.last() == back[back.len() - 1]);
        assert(s.drop_last() =~= rest + back.drop_last());
        assert forall|i: int| 0 <= i < back.drop_last().len() implies is_whitespace(
            #[trigger] back.drop_last()[i],
        ) by {
            assert(is_whitespace(back[i]));
        }
        lemma_trim_end_blank(rest, back.drop_last());
    }
}

/// Trimming takes the white space around a text away, all of it and nothing else.
pub proof fn law_trimming(front: Seq<char>, core: Seq<char>, back: Seq<char>)
    requires
        is_blank(front),
        is_bare(core),
        is_blank(back),
    ensures
        trimmed(front + core + back) == core,
{
    assert(front + core + back =~= front + (core + back));
    lemma_trim_start_blank(front, core + back);
    if core.len() > 0 {
        assert((core + back)[0] == core[0]);
        assert(trim_start(core + back) == core + back);
        lemma_trim_end_blank(core, back);
    } else {
        assert(core + back =~= back + Seq::<char>::empty());
        lemma_trim_start_blank(back, Seq::empty());
        assert(trim_start(Seq::<char>::empty()) =~= core);
    }
}

/// Cutting a run of a character at an end takes that run away, and nothing else.
pub proof fn law_cutting_runs(core: Seq<char>, run: Seq<char>, c: char)
    requires
        is_run(run, c),
    ensures
        core.len() == 0 || core[core.len() - 1] != c ==> without_trailing(core + run, c) == core,
        core.len() == 0 || core[0] != c ==> without_leading(run + core, c) == core,
    decreases run.len(),
{
    if run.len() == 0 {
        assert(core + run =~= core);
        assert(run + core =~= core);
    } else {
        let rest = run.drop_last();
        assert forall|i: int| 0 <= i < rest.len() implies #[trigger] rest[i] == c by {
            assert(run[i] == c);
        }
        law_cutting_runs(core, rest, c);
        assert(run[run.len() - 1] == c);
        assert(run[0] == c);
        assert((core + run).last() == c);
        assert((core + run).drop_last() =~= core + rest);
        assert((run + core)[0] == c);
        assert((run + core).drop_first() =~= rest + core) by {
            assert forall|i: int| 0 <= i < rest.len() implies run[i + 1] == #[trigger] rest[i] by {
                assert(run[i + 1] == c);
            }
        }
    }
}

/// Lower case and upper case change the ASCII letters of the other case, by their
/// distance in the table, and nothing else.
pub proof fn law_case(s: Seq<char>, i: int)
    requires
        0 <= i < s.len(),
    ensures
        lower(s).len() == s.len(),
        upper(s).len() == s.len(),
        65 <= s[i] as u32 <= 90 ==> lower(s)[i] as u32 == s[i] as u32 + 32,
        !(65 <= s[i] as u32 <= 90) ==> lower(s)[i] == s[i],
        97 <= s[i] as u32 <= 122 ==> upper(s)[i] as u32 == s[i] as u32 - 32,
        !(97 <= s[i] as u32 <= 122) ==> upper(s)[i] == s[i],
{
    lemma_case(s[i]);
}

proof fn lemma_case(c: char)
    ensures
        65 <= c as u32 <= 90 ==> lower_char(c) as u32 == c as u32 + 32,
        !(65 <= c as u32 <= 90) ==> lower_char(c) == c,
        97 <= c as u32 <= 122 ==> upper_char(c) as u32 == c as u32 - 32,
        !(97 <= c as u32 <= 122) ==> upper_char(c) == c,
{
    if 65 <= c as u32 <= 90 {
        let u: u8 = (c as u8 + 32) as u8;
        assert((u as char) as u32 == c as u32 + 32);
    }
    if 97 <= c as u32 <= 122 {
        let u: u8 = (c as u8 - 32) as u8;
        assert((u as char) as u32 == c as u32 - 32);
    }
}

/// Splitting at a separator takes two texts with the separator between them apart
/// into their pieces, and a text without the separator is one piece.
pub proof fn law_splitting(a: Seq<char>, b: Seq<char>, separator: char)
    ensures
        split_on(a + seq![separator] + b, separator) == split_on(a, separator) + split_on(
            b,
            separator,
        ),
        is_free_of(a, separator) ==> split_on(a, separator) == seq![a],
    decreases a.len() + b.len(),
{
    let whole = a + seq![separator] + b;
    if b.len() == 0 {
        assert(whole.drop_last() =~= a);
        assert(whole.last() == separator);
        assert(split_on(b, separator) =~= seq![Seq::<char>::empty()]);
        assert(split_on(a, separator).push(Seq::<char>::empty()) =~= split_on(a, separator)
            + split_on(b, separator));
    } else {
        law_splitting(a, b.drop_last(), separator);
        assert(whole.drop_last() =~= a + seq![separator] + b.drop_last());
        assert(whole.last() == b.last());
        let x = split_on(a, separator);
        let y = split_on(b.drop_last(), separator);
        lemma_split_on_nonempty(b.drop_last(), separator);
        if b.last() == separator {
            assert((x + y).push(Seq::<char>::empty()) =~= x + y.push(Seq::<char>::empty()));
        } else {
            assert((x + y).last() == y.last());
            assert((x + y).drop_last() =~= x + y.drop_last());
            assert((x + y.drop_last()).push(y.last().push(b.last())) =~= x + y.drop_last().push(
                y.last().push(b.last()),
            ));
        }
    }
    if is_free_of(a, separator) {
        lemma_one_piece(a, separator);
    }
}

proof fn lemma_one_piece(a: Seq<char>, separator: char)
    requires
        is_free_of(a, separator),
    ensures
        split_on(a, separator) == seq![a],
    decreases a.len(),
{
    if a.len() == 0 {
        assert(a =~= Seq::empty());
    } else {
        let front = a.drop_last();
        assert forall|i: int| 0 <= i < front.len() implies #[trigger] front[i] != separator by {
            assert(a[i] != separator);
        }
        lemma_one_piece(front, separator);
        assert(a[a.len() - 1] != separator);
        assert(seq![front].drop_last().push(front.push(a.last())) =~= seq![a]) by {
            assert(front.push(a.last()) =~= a);
        }
    }
}

/// The words of two texts with white space between them are those of the one and
/// those of the other. A text without white space is one word, an empty one none.
pub proof fn law_words(a: Seq<char>, c: char, b: Seq<char>)
    requires
        is_whitespace(c),
    ensures
        words(a + seq![c] + b) == words(a) + words(b),
        a.len() > 0 && (forall|i: int| 0 <= i < a.len() ==> !is_whitespace(#[trigger] a[i]))
            ==> words(a) == seq![a],
        a.len() == 0 ==> words(a).len() == 0,
    decreases a.len() + b.len(),
{
    let whole = a + seq![c] + b;
    if b.len() == 0 {
        assert(whole.drop_last() =~= a);
        assert(whole.last() == c);
        assert(words(a) + words(b) =~= words(a));
    } else {
        law_words(a, c, b.drop_last());
        assert(whole.drop_last() =~= a + seq![c] + b.drop_last());
        assert(whole.last() == b.last());
        let x = words(a);
        let y = words(b.drop_last());
        if !is_whitespace(b.last()) {
            if b.len() >= 2 {
                assert(whole[whole.len() - 2] == b[b.len() - 2]);
                if !is_whitespace(b[b.len() - 2]) {
                    crate::roundtrip::lemma_words_are_words(b.drop_last());
                    assert(b.drop_last().last() == b[b.len() - 2]);
                    assert((x + y).last() == y.last());
                    assert((x + y).drop_last() =~= x + y.drop_last());
                    assert((x + y.drop_last()).push(y.last().push(b.last())) =~= x
                        + y.drop_last().push(y.last().push(b.last())));
                } else {
                    assert((x + y).push(seq![b.last()]) =~= x + y.push(seq![b.last()]));
                }
            } else {
                assert(whole[whole.len() - 2] == c);
                assert((x + y).push(seq![b.last()]) =~= x + y.push(seq![b.last()]));
            }
        }
    }
    if a.len() > 0 && (forall|i: int| 0 <= i < a.len() ==> !is_whitespace(#[trigger] a[i])) {
        crate::roundtrip::lemma_words_of_word(a);
    }
}

/// Texts are ordered by the first character in which they differ, and a beginning
/// comes before the whole.
pub proof fn law_order_of_texts(common: Seq<char>, a: Seq<char>, b: Seq<char>)
    requires
        a.len() > 0 && b.len() > 0 ==> a[0] != b[0],
    ensures
        precedes(common + a, common + b) <==> b.len() > 0 && (a.len() == 0 || a[0] < b[0]),
    decreases common.len(),
{
    if common.len() == 0 {
        assert(common + a =~= a);
        assert(common + b =~= b);
    } else {
        let rest = common.drop_first();
        law_order_of_texts(rest, a, b);
        assert((common + a)[0] == (common + b)[0]);
        assert((common + a).drop_first() =~= rest + a);
        assert((common + b).drop_first() =~= rest + b);
    }
}

/// Texts one after the other with a separator in between.
pub open spec fn joined(parts: Seq<Seq<char>>, separator: char) -> Seq<char>
    decreases parts.len(),
{
    if parts.len() == 0 {
        Seq::empty()
    } else if parts.len() == 1 {
        parts[0]
    } else {
        joined(parts.drop_last(), separator) + seq![separator] + parts.last()
    }
}

/// Joining the pieces of a text with the separator gives the text again, and no piece
/// holds the separator.
pub proof fn law_splitting_and_joining(s: Seq<char>, separator: char)
    ensures
        joined(split_on(s, separator), separator) == s,
        split_on(s, separator).len() > 0,
        forall|i: int|
            0 <= i < split_on(s, separator).len() ==> is_free_of(
                #[trigger] split_on(s, separator)[i],
                separator,
            ),
    decreases s.len(),
{
    let parts = split_on(s, separator);
    if s.len() == 0 {
        assert(parts[0] =~= s);
    } else {
        let front = s.drop_last();
        let before = split_on(front, separator);
        law_splitting_and_joining(front, separator);
        lemma_split_on_nonempty(front, separator);
        assert(s =~= front.push(s.last()));
        if s.last() == separator {
            assert(parts.drop_last() =~= before);
            assert(joined(parts, separator) =~= s);
            assert forall|i: int| 0 <= i < parts.len() implies is_free_of(
                #[trigger] parts[i],
                separator,
            ) by {
                if i < before.len() {
                    assert(parts[i] == before[i]);
                }
            }
        } else {
            let grown = before.last().push(s.last());
            assert(parts.drop_last() =~= before.drop_last());
            assert(parts.last() == grown);
            assert(before[before.len() - 1] == before.last());
            if before.len() == 1 {
                assert(joined(before, separator) == before[0]);
                assert(joined(parts, separator) =~= s);
            } else {
                let head = joined(before.drop_last(), separator);
                assert(front == head + seq![separator] + before.last());
                assert(joined(parts, separator) == head + seq![separator] + grown);
                assert(head + seq![separator] + grown =~= s);
            }
            assert forall|i: int| 0 <= i < parts.len() implies is_free_of(
                #[trigger] parts[i],
                separator,
            ) by {
                if i < before.len() - 1 {
                    assert(parts[i] == before[i]);
                } else {
                    assert forall|k: int| 0 <= k < grown.len() implies #[trigger] grown[k]
                        != separator by {
                        if k < before.last().len() {
                            assert(is_free_of(before[before.len() - 1], separator));
                            assert(before.last()[k] != separator);
                        }
                    }
                }
            }
        }
    }
}

/// Splitting joined pieces gives the pieces again.
pub proof fn law_joining_and_splitting(parts: Seq<Seq<char>>, separator: char)
    requires
        parts.len() > 0,
        forall|i: int| 0 <= i < parts.len() ==> is_free_of(#[trigger] parts[i], separator),
    ensures
        split_on(joined(parts, separator), separator) == parts,
    decreases parts.len(),
{
    assert(is_free_of(parts[parts.len() - 1], separator));
    if parts.len() == 1 {
        law_splitting(parts[0], Seq::empty(), separator);
        assert(parts =~= seq![parts[0]]);
    } else {
        let front = parts.drop_last();
        assert forall|i: int| 0 <= i < front.len() implies is_free_of(
            #[trigger] front[i],
            separator,
        ) by {
            assert(front[i] == parts[i]);
        }
        law_joining_and_splitting(front, separator);
        law_splitting(joined(front, separator), parts.last(), separator);
        law_splitting(parts.last(), Seq::empty(), separator);
        assert(front + seq![parts.last()] =~= parts);
    }
}

proof fn lemma_bytes_of_the_first(c: char, s: Seq<char>)
    ensures
        byte_count(seq![c] + s) == utf8_width(c) + byte_count(s),
    decreases s.len(),
{
    let whole = seq![c] + s;
    if s.len() == 0 {
        assert(whole.drop_last() =~= s);
        assert(whole.last() == c);
        assert(byte_count(s) == 0);
    } else {
        lemma_bytes_of_the_first(c, s.drop_last());
        assert(whole.drop_last() =~= seq![c] + s.drop_last());
        assert(whole.last() == s.last());
    }
}

/// The bytes of a text are those of its encoding in UTF-8.
pub proof fn law_bytes_are_counted(s: Seq<char>)
    ensures
        byte_count(s) == encode_utf8(s).len(),
    decreases s.len(),
{
    if s.len() > 0 {
        let rest = s.drop_first();
        law_bytes_are_counted(rest);
        lemma_bytes_of_the_first(s[0], rest);
        assert(seq![s[0]] + rest =~= s);
        lemma_encoded_width(s[0]);
    }
}

proof fn lemma_encoded_width(c: char)
    ensures
        encode_scalar(c as u32).len() == utf8_width(c),
{
}

} // verus!
