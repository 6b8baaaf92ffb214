//! DNS names: their normal form, and which name lies in which zone.
use crate::text::{
    ends_with, is_blank, is_run, is_whitespace, join, law_cutting_runs, law_trimming, lower, lower_char,
    lowercase, same_text, trim, trim_end, trim_start, trim_trailing, trimmed, without_trailing,
};
use vstd::prelude::*;

verus! {

/// The normal form of a DNS name: no white space around it, then no dots at its
/// end, in lower case.
pub open spec fn normalized(name: Seq<char>) -> Seq<char> {
    lower(without_trailing(trimmed(name), '.'))
}

/// A dot in front of a name.
pub open spec fn dotted(name: Seq<char>) -> Seq<char> {
    seq!['.'] + name
}

/// `name` is `zone` itself or lies below it.
pub open spec fn within(name: Seq<char>, zone: Seq<char>) -> bool {
    name == zone || dotted(zone).is_suffix_of(name)
}

/// The normal form of a DNS name.
pub fn normalize_name(value: &str) -> (r: String)
    ensures
        r@ == normalized(value@),
{
    lowercase(trim_trailing(trim(value), '.'))
}

/// `name` with a dot in front of it.
pub fn with_dot(name: &str) -> (r: String)
    ensures
        r@ == dotted(name@),
{
    let mut r = String::new();
    r.push('.');
    let r = join(r.as_str(), name);
    assert(r@ =~= dotted(name@));
    r
}

/// Whether `name` is `zone` itself or lies below it.
pub fn is_within(name: &str, zone: &str) -> (r: bool)
    ensures
        r == within(name@, zone@),
{
    same_text(name, zone) || ends_with(name, with_dot(zone).as_str())
}

/// A run of `c` at the end is gone after it was cut, and nothing else is.
pub proof fn lemma_without_trailing(s: Seq<char>, c: char)
    ensures
        without_trailing(s, c).is_prefix_of(s),
        without_trailing(s, c).len() > 0 ==> without_trailing(s, c).last() != c,
        forall|i: int| without_trailing(s, c).len() <= i < s.len() ==> s[i] == c,
    decreases s.len(),
{
    if s.len() > 0 && s.last() == c {
        lemma_without_trailing(s.drop_last(), c);
        assert forall|i: int| without_trailing(s, c).len() <= i < s.len() implies s[i] == c by {
            if i < s.len() - 1 {
                assert(s.drop_last()[i] == c);
            }
        }
    }
}

/// A text that does not end with `c` has no run of `c` to cut.
pub proof fn lemma_without_trailing_fixed(s: Seq<char>, c: char)
    requires
        s.len() == 0 || s.last() != c,
    ensures
        without_trailing(s, c) == s,
{
}

/// White space at the ends is gone after it was cut.
pub proof fn lemma_trim_end(s: Seq<char>)
    ensures
        trim_end(s).is_prefix_of(s),
        trim_end(s).len() > 0 ==> !is_whitespace(trim_end(s).last()),
    decreases s.len(),
{
    if s.len() > 0 && is_whitespace(s.last()) {
        lemma_trim_end(s.drop_last());
    }
}

/// White space at the start is gone after it was cut.
pub proof fn lemma_trim_start(s: Seq<char>)
    ensures
        trim_start(s).is_suffix_of(s),
        trim_start(s).len() > 0 ==> !is_whitespace(trim_start(s)[0]),
    decreases s.len(),
{
    if s.len() > 0 && is_whitespace(s[0]) {
        lemma_trim_start(s.drop_first());
    }
}

/// A trimmed text neither starts nor ends with white space.
pub proof fn lemma_trimmed(s: Seq<char>)
    ensures
        trimmed(s).len() > 0 ==> !is_whitespace(trimmed(s)[0]) && !is_whitespace(trimmed(s).last()),
        trimmed(s).len() <= s.len(),
{
    lemma_trim_start(s);
    lemma_trim_end(trim_start(s));
}

/// A text without white space at its ends is its own trimmed form.
pub proof fn lemma_trimmed_fixed(s: Seq<char>)
    requires
        s.len() > 0 ==> !is_whitespace(s[0]) && !is_whitespace(s.last()),
    ensures
        trimmed(s) == s,
{
}

/// Lower case changes neither the length of a text nor a character that is not
/// an ASCII capital, and makes no character a dot or white space.
pub proof fn lemma_lower_char(c: char)
    ensures
        lower_char(lower_char(c)) == lower_char(c),
        lower_char(c) == '.' <==> c == '.',
        is_whitespace(lower_char(c)) == is_whitespace(c),
{
    if 'A' <= c <= 'Z' {
        let u: u8 = (c as u8 + 32) as u8;
        assert('a' <= (u as char) <= 'z');
    }
}

/// Lower case is its own lower case.
pub proof fn lemma_lower_idempotent(s: Seq<char>)
    ensures
        lower(lower(s)) == lower(s),
{
    assert forall|i: int| 0 <= i < s.len() implies lower(lower(s))[i] == lower(s)[i] by {
        lemma_lower_char(s[i]);
    }
    assert(lower(lower(s)) =~= lower(s));
}

/// A normal form does not end with a dot, and it is in lower case.
pub proof fn lemma_normalized(name: Seq<char>)
    ensures
        normalized(name).len() > 0 ==> normalized(name).last() != '.',
        lower(normalized(name)) == normalized(name),
{
    let bare = without_trailing(trimmed(name), '.');
    lemma_without_trailing(trimmed(name), '.');
    lemma_lower_idempotent(bare);
    if bare.len() > 0 {
        lemma_lower_char(bare.last());
    }
}

/// Normalising a name a second time changes nothing, unless cutting the dots at
/// its end uncovers white space.
pub proof fn law_normalize_idempotent(name: Seq<char>)
    requires
        ({
            let bare = without_trailing(trimmed(name), '.');
            bare.len() > 0 ==> !is_whitespace(bare.last())
        }),
    ensures
        normalized(normalized(name)) == normalized(name),
{
    let bare = without_trailing(trimmed(name), '.');
    let once = normalized(name);
    lemma_trimmed(name);
    lemma_without_trailing(trimmed(name), '.');
    lemma_normalized(name);
    if bare.len() > 0 {
        assert(bare[0] == trimmed(name)[0]);
        lemma_lower_char(bare[0]);
        lemma_lower_char(bare.last());
        assert(once[0] == lower_char(bare[0]));
        assert(once.last() == lower_char(bare.last()));
    }
    lemma_trimmed_fixed(once);
    lemma_without_trailing_fixed(once, '.');
}

/// Zones nest: what lies in a zone that lies in another lies in that other one.
pub proof fn law_within_transitive(name: Seq<char>, inner: Seq<char>, outer: Seq<char>)
    requires
        within(name, inner),
        within(inner, outer),
    ensures
        within(name, outer),
{
    if name != inner && inner != outer {
        let k = name.len() - dotted(outer).len();
        assert(dotted(inner).len() <= name.len());
        assert forall|i: int| 0 <= i < dotted(outer).len() implies dotted(outer)[i] == name[k + i] by {
            let j = inner.len() - dotted(outer).len() + i;
            assert(inner.subrange(inner.len() - dotted(outer).len(), inner.len() as int)[i]
                == inner[j]);
            assert(dotted(inner)[j + 1] == inner[j]);
            assert(name.subrange(name.len() - dotted(inner).len(), name.len() as int)[j + 1]
                == name[name.len() - dotted(inner).len() + j + 1]);
        }
        assert(dotted(outer) =~= name.subrange(k, name.len() as int));
    }
}

proof fn lemma_trim_ignores_case(s: Seq<char>)
    ensures
        trim_start(lower(s)) == lower(trim_start(s)),
        trim_end(lower(s)) == lower(trim_end(s)),
    decreases s.len(),
{
    if s.len() > 0 {
        lemma_lower_char(s[0]);
        lemma_lower_char(s.last());
        assert(lower(s)[0] == lower_char(s[0]));
        assert(lower(s).last() == lower_char(s.last()));
        assert(lower(s).drop_first() =~= lower(s.drop_first()));
        assert(lower(s).drop_last() =~= lower(s.drop_last()));
        lemma_trim_ignores_case(s.drop_first());
        lemma_trim_ignores_case(s.drop_last());
    }
}

proof fn lemma_dots_ignore_case(s: Seq<char>)
    ensures
        without_trailing(lower(s), '.') == lower(without_trailing(s, '.')),
    decreases s.len(),
{
    if s.len() > 0 {
        lemma_lower_char(s.last());
        assert(lower(s).last() == lower_char(s.last()));
        assert(lower(s).drop_last() =~= lower(s.drop_last()));
        lemma_dots_ignore_case(s.drop_last());
    }
}

/// Names that are the same but for case have one normal form.
pub proof fn law_normal_form_ignores_case(a: Seq<char>, b: Seq<char>)
    requires
        lower(a) == lower(b),
    ensures
        normalized(a) == normalized(b),
{
    lemma_normalized_lower(a);
    lemma_normalized_lower(b);
}

proof fn lemma_normalized_lower(s: Seq<char>)
    ensures
        normalized(lower(s)) == normalized(s),
{
    lemma_trim_ignores_case(s);
    lemma_trim_ignores_case(trim_start(s));
    lemma_dots_ignore_case(trimmed(s));
    lemma_lower_idempotent(without_trailing(trimmed(s), '.'));
}

/// The normal form of a name is the name in lower case, without white space around
/// it and without dots at its end.
pub proof fn law_normal_form(
    front: Seq<char>,
    core: Seq<char>,
    dots: Seq<char>,
    back: Seq<char>,
)
    requires
        is_blank(front),
        is_blank(back),
        is_run(dots, '.'),
        core.len() > 0 ==> !is_whitespace(core[0]) && core[core.len() - 1] != '.',
        core.len() > 0 && dots.len() == 0 ==> !is_whitespace(core[core.len() - 1]),
    ensures
        normalized(front + core + dots + back) == lower(core),
{
    let whole = core + dots;
    assert(front + core + dots + back =~= front + whole + back);
    if whole.len() > 0 {
        if core.len() > 0 {
            assert(whole[0] == core[0]);
        } else {
            assert(whole[0] == dots[0]);
        }
        if dots.len() > 0 {
            assert(dots[dots.len() - 1] == '.');
            assert(whole[whole.len() - 1] == dots[dots.len() - 1]);
        } else {
            assert(whole[whole.len() - 1] == core[core.len() - 1]);
        }
    }
    law_trimming(front, whole, back);
    law_cutting_runs(core, dots, '.');
}

/// A name lies in a zone if it is the zone, or if it is something, a dot and the zone.
pub proof fn law_lying_in_a_zone(name: Seq<char>, zone: Seq<char>, front: Seq<char>)
    ensures
        within(zone, zone),
        within(front + seq!['.'] + zone, zone),
        within(name, zone) ==> name == zone || exists|f: Seq<char>|
            name == #[trigger] (f + seq!['.']) + zone,
{
    let below = front + seq!['.'] + zone;
    assert(dotted(zone) =~= below.subrange(below.len() - dotted(zone).len(), below.len() as int));
    if within(name, zone) && name != zone {
        let k = name.len() - dotted(zone).len();
        let f = name.take(k);
        let ending = name.subrange(k, name.len() as int);
        assert(dotted(zone) == ending);
        assert forall|i: int| 0 <= i < name.len() implies name[i] == ((f + seq!['.']) + zone)[i] by {
            if i >= k {
                assert(name[i] == ending[i - k]);
                assert(dotted(zone)[i - k] == ((f + seq!['.']) + zone)[i]);
            }
        }
        assert(name =~= (f + seq!['.']) + zone);
    }
}

} // verus!
