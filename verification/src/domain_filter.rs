//! Which domains the provider manages.
use crate::error::{ConfigError, ConfigErrorModel};
use crate::names::{
    dotted, is_within, law_lying_in_a_zone, normalize_name, normalized, with_dot, within,
};
use crate::order::{is_sorted, sort_texts};
use crate::outside::{check_regex, regex_error, regex_matches, search_regex};
use crate::text::{
    copy_texts, ends_with, is_bare, is_blank, is_free_of, is_run, law_cutting_runs, law_splitting,
    law_trimming, lemma_texts_push, opt_text, precedes, same_text, split, split_on, starts_with_char,
    texts, trim, trim_leading, trimmed, without_leading,
};
use vstd::prelude::*;
use vstd::string::*;

verus! {

/// A regular expression over domain names.
#[derive(Debug)]
pub struct DomainRegex {
    pattern: String,
}

impl View for DomainRegex {
    type V = Seq<char>;

    closed spec fn view(&self) -> Seq<char> {
        self.pattern@
    }
}

impl DomainRegex {
    /// Takes a pattern that compiles.
    pub fn new(pattern: &str) -> (r: Result<DomainRegex, regex::Error>)
        ensures
            match r {
                Ok(regex) => regex_error(pattern@) is None && regex@ == pattern@,
                Err(error) => regex_error(pattern@) == Some(error),
            },
    {
        match check_regex(pattern) {
            Ok(()) => Ok(DomainRegex { pattern: pattern.to_owned() }),
            Err(error) => Err(error),
        }
    }

    /// Whether the pattern matches somewhere in `text`.
    pub fn is_match(&self, text: &str) -> (r: bool)
        ensures
            r == regex_matches(self@, text@),
    {
        search_regex(self.pattern.as_str(), text)
    }

    /// The pattern.
    pub fn as_str(&self) -> (r: &str)
        ensures
            r@ == self@,
    {
        self.pattern.as_str()
    }
}

impl Clone for DomainRegex {
    fn clone(&self) -> (r: DomainRegex)
        ensures
            r@ == self@,
    {
        DomainRegex { pattern: self.pattern.clone() }
    }
}

/// Which domains are managed: those that a regular expression lets through if
/// one is set, else those that the two lists let through.
#[derive(Debug)]
pub struct DomainFilter {
    included: Vec<String>,
    excluded: Vec<String>,
    regex_include: Option<DomainRegex>,
    regex_exclude: Option<DomainRegex>,
}

impl Clone for DomainFilter {
    fn clone(&self) -> (r: DomainFilter)
        ensures
            r@ == self@,
    {
        DomainFilter {
            included: copy_texts(&self.included),
            excluded: copy_texts(&self.excluded),
            regex_include: copy_regex(&self.regex_include),
            regex_exclude: copy_regex(&self.regex_exclude),
        }
    }
}

fn copy_regex(regex: &Option<DomainRegex>) -> (r: Option<DomainRegex>)
    ensures
        opt_regex(r) == opt_regex(*regex),
{
    match regex {
        Some(regex) => Some(regex.clone()),
        None => None,
    }
}

/// A filter by the texts it holds.
pub struct FilterModel {
    pub included: Seq<Seq<char>>,
    pub excluded: Seq<Seq<char>>,
    pub regex_include: Option<Seq<char>>,
    pub regex_exclude: Option<Seq<char>>,
}

/// An optional regular expression by its pattern.
pub open spec fn opt_regex(regex: Option<DomainRegex>) -> Option<Seq<char>> {
    match regex {
        Some(r) => Some(r@),
        None => None,
    }
}

impl View for DomainFilter {
    type V = FilterModel;

    closed spec fn view(&self) -> FilterModel {
        FilterModel {
            included: texts(self.included@),
            excluded: texts(self.excluded@),
            regex_include: opt_regex(self.regex_include),
            regex_exclude: opt_regex(self.regex_exclude),
        }
    }
}

/// `domain` is covered by `pattern`: a pattern that starts with a dot covers
/// what lies below it, any other covers itself too.
pub open spec fn covers(pattern: Seq<char>, domain: Seq<char>) -> bool {
    if pattern.len() > 0 && pattern[0] == '.' {
        pattern.is_suffix_of(domain)
    } else {
        within(domain, pattern)
    }
}

/// Some pattern of the list covers `domain`.
pub open spec fn any_covers(patterns: Seq<Seq<char>>, domain: Seq<char>) -> bool {
    exists|i: int| 0 <= i < patterns.len() && covers(#[trigger] patterns[i], domain)
}

/// What is left of a pattern without its leading dots is `zone` or lies below it.
pub open spec fn reaches_into(pattern: Seq<char>, zone: Seq<char>) -> bool {
    within(without_leading(pattern, '.'), zone)
}

/// A name in `zone` may be covered by `pattern`.
pub open spec fn touches(pattern: Seq<char>, zone: Seq<char>) -> bool {
    covers(pattern, zone) || reaches_into(pattern, zone)
}

impl FilterModel {
    /// A regular expression is set.
    pub open spec fn has_regex(self) -> bool {
        self.regex_include is Some || self.regex_exclude is Some
    }

    /// The domain is managed.
    pub open spec fn accepts(self, name: Seq<char>) -> bool {
        let domain = normalized(name);
        if self.has_regex() {
            &&& self.regex_exclude matches Some(pattern) ==> !regex_matches(pattern, domain)
            &&& self.regex_include matches Some(pattern) ==> regex_matches(pattern, domain)
        } else {
            &&& !any_covers(self.excluded, domain)
            &&& self.included.len() == 0 || any_covers(self.included, domain)
        }
    }

    /// A managed domain may lie in the zone: where a regular expression is set it may
    /// lie anywhere, else where the list of inclusions reaches.
    pub open spec fn may_lie_in(self, zone: Seq<char>) -> bool {
        ||| self.has_regex()
        ||| self.included.len() == 0
        ||| exists|i: int|
            0 <= i < self.included.len() && touches(#[trigger] self.included[i], normalized(zone))
    }

    /// Nothing is set.
    pub open spec fn is_open(self) -> bool {
        self.included.len() == 0 && self.excluded.len() == 0 && !self.has_regex()
    }
}

/// The normal form of a pattern, its leading dot kept.
pub open spec fn pattern_form(pattern: Seq<char>) -> Seq<char> {
    let bare = trimmed(pattern);
    if bare.len() > 0 && bare[0] == '.' {
        dotted(normalized(bare.drop_first()))
    } else {
        normalized(bare)
    }
}

/// A pattern that names something.
pub open spec fn is_pattern(pattern: Seq<char>) -> bool {
    pattern.len() > 0 && pattern != seq!['.']
}

/// The normal forms of those patterns of a list that name something.
pub open spec fn pattern_forms(patterns: Seq<Seq<char>>) -> Seq<Seq<char>> {
    patterns.map_values(|p: Seq<char>| pattern_form(p)).filter(|p: Seq<char>| is_pattern(p))
}

/// The texts between the commas, trimmed, those that are not empty.
pub open spec fn listed(value: Seq<char>) -> Seq<Seq<char>> {
    split_on(value, ',').map_values(|p: Seq<char>| trimmed(p)).filter(|p: Seq<char>| p.len() > 0)
}

/// The regular expression in a setting: none where it is blank, else the
/// trimmed value.
pub open spec fn regex_setting(value: Seq<char>) -> Option<Seq<char>> {
    if trimmed(value).len() == 0 {
        None
    } else {
        Some(trimmed(value))
    }
}

/// What is wrong with the regular expression in a setting.
pub open spec fn regex_setting_error(value: Seq<char>) -> Option<regex::Error> {
    match regex_setting(value) {
        Some(pattern) => regex_error(pattern),
        None => None,
    }
}

/// The filter that four settings describe, or what is wrong with the first
/// regular expression among them that does not compile.
pub open spec fn filter_from_settings(
    included: Seq<char>,
    excluded: Seq<char>,
    regex_include: Seq<char>,
    regex_exclude: Seq<char>,
) -> Result<FilterModel, ConfigErrorModel> {
    if let Some(source) = regex_setting_error(regex_include) {
        Err(ConfigErrorModel::InvalidRegex { name: "REGEXP_DOMAIN_FILTER"@, source })
    } else if let Some(source) = regex_setting_error(regex_exclude) {
        Err(ConfigErrorModel::InvalidRegex { name: "REGEXP_DOMAIN_FILTER_EXCLUSION"@, source })
    } else {
        Ok(
            FilterModel {
                included: pattern_forms(listed(included)),
                excluded: pattern_forms(listed(excluded)),
                regex_include: regex_setting(regex_include),
                regex_exclude: regex_setting(regex_exclude),
            },
        )
    }
}

/// The normal form of a domain name.
pub fn normalize_domain(domain: &str) -> (r: String)
    ensures
        r@ == normalized(domain@),
{
    normalize_name(domain)
}

/// Whether `domain` is covered by `pattern`.
pub fn pattern_matches(pattern: &str, domain: &str) -> (r: bool)
    ensures
        r == covers(pattern@, domain@),
{
    if starts_with_char(pattern, '.') {
        ends_with(domain, pattern)
    } else {
        is_within(domain, pattern)
    }
}

/// The texts between the commas of `value`, trimmed, those that are not empty.
pub fn split_values(value: &str) -> (r: Vec<String>)
    ensures
        texts(r@) == listed(value@),
{
    let pieces = split(value, ',');
    let ghost all = split_on(value@, ',').map_values(|p: Seq<char>| trimmed(p));
    let ghost keep = |p: Seq<char>| p.len() > 0;
    let mut r: Vec<String> = Vec::new();
    let mut i: usize = 0;
    assert(texts(r@) =~= all.take(0).filter(keep)) by {
        reveal(Seq::filter);
    }
    while i < pieces.len()
        invariant
            i <= pieces.len(),
            texts(pieces@) == split_on(value@, ','),
            all == split_on(value@, ',').map_values(|p: Seq<char>| trimmed(p)),
            keep == |p: Seq<char>| p.len() > 0,
            texts(r@) == all.take(i as int).filter(keep),
        decreases pieces.len() - i,
    {
        let piece = trim(pieces[i].as_str());
        assert(texts(pieces@)[i as int] == pieces@[i as int]@);
        proof {
            assert(all.take(i + 1) =~= all.take(i as int).push(piece@));
            all.take(i as int).lemma_filter_push(piece@, keep);
        }
        if !piece.is_empty() {
            let item = piece.to_owned();
            proof {
                lemma_texts_push(r@, item);
            }
            r.push(item);
        }
        i += 1;
    }
    assert(texts(pieces@).len() == pieces@.len());
    assert(all.take(all.len() as int) =~= all);
    r
}

/// The normal forms of those patterns that name something.
pub fn normalize_patterns(patterns: Vec<String>) -> (r: Vec<String>)
    ensures
        texts(r@) == pattern_forms(texts(patterns@)),
{
    let ghost all = texts(patterns@).map_values(|p: Seq<char>| pattern_form(p));
    let ghost keep = |p: Seq<char>| is_pattern(p);
    let mut r: Vec<String> = Vec::new();
    let mut i: usize = 0;
    assert(texts(r@) =~= all.take(0).filter(keep)) by {
        reveal(Seq::filter);
    }
    while i < patterns.len()
        invariant
            i <= patterns.len(),
            all == texts(patterns@).map_values(|p: Seq<char>| pattern_form(p)),
            keep == |p: Seq<char>| is_pattern(p),
            texts(r@) == all.take(i as int).filter(keep),
        decreases patterns.len() - i,
    {
        let bare = trim(patterns[i].as_str());
        let form = if starts_with_char(bare, '.') {
            let below = bare.substring_char(1, bare.unicode_len());
            assert(below@ =~= bare@.drop_first());
            with_dot(normalize_domain(below).as_str())
        } else {
            normalize_domain(bare)
        };
        proof {
            assert(form@ == all[i as int]);
            assert(all.take(i + 1) =~= all.take(i as int).push(form@));
            all.take(i as int).lemma_filter_push(form@, keep);
            reveal_strlit(".");
            assert("."@ =~= seq!['.']);
        }
        if !form.as_str().is_empty() && !same_text(form.as_str(), ".") {
            proof {
                lemma_texts_push(r@, form);
            }
            r.push(form);
        }
        i += 1;
    }
    assert(all.take(all.len() as int) =~= all);
    r
}

/// Whether some pattern of the list covers `domain`.
fn any_pattern_matches(patterns: &Vec<String>, domain: &str) -> (r: bool)
    ensures
        r == any_covers(texts(patterns@), domain@),
{
    let ghost model = texts(patterns@);
    let mut i: usize = 0;
    while i < patterns.len()
        invariant
            i <= patterns.len(),
            model == texts(patterns@),
            forall|j: int| 0 <= j < i ==> !covers(#[trigger] model[j], domain@),
        decreases patterns.len() - i,
    {
        if pattern_matches(patterns[i].as_str(), domain) {
            assert(covers(model[i as int], domain@));
            return true;
        }
        i += 1;
    }
    false
}

/// Compiles the regular expression in the setting `name`, none where it is blank.
pub fn compile_regex(name: &'static str, value: &str) -> (r: Result<Option<DomainRegex>, ConfigError>)
    ensures
        match r {
            Ok(regex) => regex_setting_error(value@) is None && opt_regex(regex) == regex_setting(
                value@,
            ),
            Err(error) => regex_setting_error(value@) matches Some(source) && error@
                == (ConfigErrorModel::InvalidRegex { name: name@, source }),
        },
{
    let value = trim(value);
    if value.is_empty() {
        return Ok(None);
    }
    match DomainRegex::new(value) {
        Ok(regex) => Ok(Some(regex)),
        Err(source) => Err(ConfigError::InvalidRegex { name, source }),
    }
}

/// The filter as ExternalDNS is told of it: the two lists sorted, and empty
/// where a regular expression is set.
pub struct DomainFilterPayload {
    pub included: Vec<String>,
    pub excluded: Vec<String>,
    pub regex_include: Option<String>,
    pub regex_exclude: Option<String>,
}

/// `list` holds what `source` holds, in order, or nothing if `cleared`.
pub open spec fn is_payload_list(
    list: Seq<Seq<char>>,
    source: Seq<Seq<char>>,
    cleared: bool,
) -> bool {
    if cleared {
        list.len() == 0
    } else {
        is_sorted(list) && list.to_multiset() == source.to_multiset()
    }
}

impl DomainFilter {
    /// Reads a filter from its four settings: two lists with commas between the
    /// items and two regular expressions, each of which may be blank.
    pub fn from_environment(
        included: String,
        excluded: String,
        regex_include: String,
        regex_exclude: String,
    ) -> (r: Result<DomainFilter, ConfigError>)
        ensures
            match r {
                Ok(filter) => Ok::<FilterModel, ConfigErrorModel>(filter@) == filter_from_settings(
                    included@,
                    excluded@,
                    regex_include@,
                    regex_exclude@,
                ),
                Err(error) => Err::<FilterModel, ConfigErrorModel>(error@) == filter_from_settings(
                    included@,
                    excluded@,
                    regex_include@,
                    regex_exclude@,
                ),
            },
    {
        let regex_include = match compile_regex("REGEXP_DOMAIN_FILTER", regex_include.as_str()) {
            Ok(regex) => regex,
            Err(error) => return Err(error),
        };
        let regex_exclude = match compile_regex(
            "REGEXP_DOMAIN_FILTER_EXCLUSION",
            regex_exclude.as_str(),
        ) {
            Ok(regex) => regex,
            Err(error) => return Err(error),
        };
        Ok(
            DomainFilter::new(
                split_values(included.as_str()),
                split_values(excluded.as_str()),
                regex_include,
                regex_exclude,
            ),
        )
    }

    /// A filter with the given lists, in normal form, and regular expressions.
    pub fn new(
        included: Vec<String>,
        excluded: Vec<String>,
        regex_include: Option<DomainRegex>,
        regex_exclude: Option<DomainRegex>,
    ) -> (r: DomainFilter)
        ensures
            r@ == (FilterModel {
                included: pattern_forms(texts(included@)),
                excluded: pattern_forms(texts(excluded@)),
                regex_include: opt_regex(regex_include),
                regex_exclude: opt_regex(regex_exclude),
            }),
    {
        DomainFilter {
            included: normalize_patterns(included),
            excluded: normalize_patterns(excluded),
            regex_include,
            regex_exclude,
        }
    }

    /// Whether `domain` is managed.
    pub fn matches(&self, domain: &str) -> (r: bool)
        ensures
            r == self@.accepts(domain@),
    {
        let domain = normalize_domain(domain);
        if self.regex_include.is_some() || self.regex_exclude.is_some() {
            if let Some(regex) = &self.regex_exclude {
                if regex.is_match(domain.as_str()) {
                    return false;
                }
            }
            return match &self.regex_include {
                Some(regex) => regex.is_match(domain.as_str()),
                None => true,
            };
        }
        if any_pattern_matches(&self.excluded, domain.as_str()) {
            return false;
        }
        self.included.is_empty() || any_pattern_matches(&self.included, domain.as_str())
    }

    /// Whether a managed domain may lie in `zone`.
    pub fn zone_may_contain(&self, zone: &str) -> (r: bool)
        ensures
            r == self@.may_lie_in(zone@),
    {
        if self.regex_include.is_some() || self.regex_exclude.is_some() || self.included.is_empty() {
            return true;
        }
        let bare = normalize_domain(zone);
        let ghost model = texts(self.included@);
        let mut i: usize = 0;
        while i < self.included.len()
            invariant
                i <= self.included.len(),
                model == texts(self.included@),
                bare@ == normalized(zone@),
                forall|j: int| 0 <= j < i ==> !touches(#[trigger] model[j], bare@),
            decreases self.included.len() - i,
        {
            let pattern = self.included[i].as_str();
            let candidate = trim_leading(pattern, '.');
            if pattern_matches(pattern, bare.as_str()) || is_within(candidate, bare.as_str()) {
                assert(touches(model[i as int], bare@));
                return true;
            }
            i += 1;
        }
        false
    }

    /// Whether every domain is managed because nothing is set.
    pub fn is_unrestricted(&self) -> (r: bool)
        ensures
            r == self@.is_open(),
    {
        self.included.is_empty() && self.excluded.is_empty() && self.regex_include.is_none()
            && self.regex_exclude.is_none()
    }

    /// The filter as ExternalDNS is told of it.
    pub fn payload(&self) -> (r: DomainFilterPayload)
        ensures
            is_payload_list(texts(r.included@), self@.included, self@.has_regex()),
            is_payload_list(texts(r.excluded@), self@.excluded, self@.has_regex()),
            opt_text(r.regex_include) == self@.regex_include,
            opt_text(r.regex_exclude) == self@.regex_exclude,
    {
        let mut included = copy_texts(&self.included);
        let mut excluded = copy_texts(&self.excluded);
        sort_texts(&mut included);
        sort_texts(&mut excluded);
        if self.regex_include.is_some() || self.regex_exclude.is_some() {
            included.clear();
            excluded.clear();
        }
        let regex_include = match &self.regex_include {
            Some(regex) => Some(regex.as_str().to_owned()),
            None => None,
        };
        let regex_exclude = match &self.regex_exclude {
            Some(regex) => Some(regex.as_str().to_owned()),
            None => None,
        };
        DomainFilterPayload { included, excluded, regex_include, regex_exclude }
    }
}

// ---------------------------------------------------------------------------
// Laws
// ---------------------------------------------------------------------------

/// Of two endings of one text the shorter is an ending of the longer.
proof fn lemma_endings(a: Seq<char>, b: Seq<char>, s: Seq<char>)
    requires
        a.is_suffix_of(s),
        b.is_suffix_of(s),
        a.len() <= b.len(),
    ensures
        a.is_suffix_of(b),
{
    assert forall|i: int| 0 <= i < a.len() implies a[i] == b[b.len() - a.len() + i] by {
        assert(a[i] == s.subrange(s.len() - a.len(), s.len() as int)[i]);
        assert(b[b.len() - a.len() + i] == s.subrange(s.len() - b.len(), s.len() as int)[b.len()
            - a.len() + i]);
    }
    assert(a =~= b.subrange(b.len() - a.len(), b.len() as int));
}

/// What stands in front of a text without its leading run of `c` is that run.
proof fn lemma_without_leading(s: Seq<char>, c: char)
    ensures
        without_leading(s, c).is_suffix_of(s),
        forall|i: int| 0 <= i < s.len() - without_leading(s, c).len() ==> s[i] == c,
    decreases s.len(),
{
    let rest = without_leading(s, c);
    if s.len() > 0 && s[0] == c {
        lemma_without_leading(s.drop_first(), c);
        assert(rest =~= s.subrange(s.len() - rest.len(), s.len() as int)) by {
            assert forall|i: int| 0 <= i < rest.len() implies rest[i] == s[s.len() - rest.len() + i] by {
                assert(rest[i] == s.drop_first().subrange(
                    s.drop_first().len() - rest.len(),
                    s.drop_first().len() as int,
                )[i]);
            }
        }
        assert forall|i: int| 0 <= i < s.len() - rest.len() implies s[i] == c by {
            if i > 0 {
                assert(s.drop_first()[i - 1] == c);
            }
        }
    } else {
        assert(s =~= s.subrange(0, s.len() as int));
    }
}

/// If a pattern covers a name, it touches every zone that the name lies in.
proof fn lemma_touches(pattern: Seq<char>, name: Seq<char>, zone: Seq<char>)
    requires
        covers(pattern, name),
        within(name, zone),
        zone.len() == 0 || zone[0] != '.',
    ensures
        touches(pattern, zone),
{
    let ending = dotted(zone);
    if name != zone {
        if pattern.len() > 0 && pattern[0] == '.' {
            if pattern.len() <= zone.len() {
                lemma_endings(pattern, ending, name);
                assert(pattern =~= zone.subrange(zone.len() - pattern.len(), zone.len() as int)) by {
                    assert(pattern =~= ending.subrange(
                        ending.len() - pattern.len(),
                        ending.len() as int,
                    ));
                }
            } else {
                let rest = without_leading(pattern, '.');
                lemma_without_leading(pattern, '.');
                lemma_endings(ending, pattern, name);
                if ending.len() <= rest.len() {
                    lemma_endings(ending, rest, pattern);
                } else {
                    let k = pattern.len() - ending.len();
                    assert(ending =~= pattern.subrange(k, pattern.len() as int));
                    if zone.len() > rest.len() {
                        assert(zone[0] == ending[1]);
                        assert(pattern[k + 1] == '.');
                        assert(pattern.subrange(k, pattern.len() as int)[1] == pattern[k + 1]);
                    } else {
                        assert forall|i: int| 0 <= i < zone.len() implies rest[i] == zone[i] by {
                            assert(zone[i] == ending[i + 1]);
                            assert(ending[i + 1] == pattern.subrange(k, pattern.len() as int)[i + 1]);
                            assert(rest[i] == pattern.subrange(
                                pattern.len() - rest.len(),
                                pattern.len() as int,
                            )[i]);
                        }
                        assert(rest =~= zone);
                    }
                }
            }
        } else if name == pattern {
            assert(without_leading(pattern, '.') == pattern);
        } else if pattern.len() < zone.len() {
            lemma_endings(dotted(pattern), ending, name);
            let whole = dotted(pattern);
            assert(whole =~= zone.subrange(zone.len() - whole.len(), zone.len() as int)) by {
                assert(whole =~= ending.subrange(ending.len() - whole.len(), ending.len() as int));
            }
        } else {
            assert(without_leading(pattern, '.') == pattern);
            lemma_endings(ending, dotted(pattern), name);
            let whole = dotted(pattern);
            if pattern.len() == zone.len() {
                assert(ending =~= whole.subrange(0, whole.len() as int));
                assert(pattern =~= whole.drop_first());
                assert(zone =~= ending.drop_first());
                assert(pattern =~= zone);
            } else {
                assert(ending =~= pattern.subrange(
                    pattern.len() - ending.len(),
                    pattern.len() as int,
                )) by {
                    assert(ending =~= whole.subrange(
                        whole.len() - ending.len(),
                        whole.len() as int,
                    ));
                }
            }
        }
    }
}

/// No zone is skipped that a managed name lies in: if a name is let through, then
/// so is every zone that it lies in. Left out are zones that start with a dot, where
/// a list of inclusions decides.
pub proof fn law_zones_of_managed_names_are_kept(
    filter: FilterModel,
    name: Seq<char>,
    zone: Seq<char>,
)
    requires
        filter.accepts(name),
        within(normalized(name), normalized(zone)),
        filter.has_regex() || filter.included.len() == 0 || normalized(zone).len() == 0
            || normalized(zone)[0] != '.',
    ensures
        filter.may_lie_in(zone),
{
    if !filter.has_regex() && filter.included.len() > 0 {
        let i = choose|i: int|
            0 <= i < filter.included.len() && covers(
                #[trigger] filter.included[i],
                normalized(name),
            );
        lemma_touches(filter.included[i], normalized(name), normalized(zone));
    }
}

/// Regular expressions take precedence: where one is set, the lists decide nothing,
/// neither about names nor about zones.
pub proof fn law_regex_takes_precedence(a: FilterModel, b: FilterModel, name: Seq<char>)
    requires
        a.has_regex(),
        a.regex_include == b.regex_include,
        a.regex_exclude == b.regex_exclude,
    ensures
        a.accepts(name) == b.accepts(name),
        a.may_lie_in(name) == b.may_lie_in(name),
{
}

/// Exclusion wins over inclusion, by regular expression and by list.
pub proof fn law_exclusion_wins(filter: FilterModel, name: Seq<char>)
    ensures
        filter.regex_exclude matches Some(pattern) && regex_matches(pattern, normalized(name))
            ==> !filter.accepts(name),
        !filter.has_regex() && any_covers(filter.excluded, normalized(name)) ==> !filter.accepts(
            name,
        ),
{
}

/// Where nothing is set, every name is managed and every zone may hold one.
pub proof fn law_open_filter_accepts_all(filter: FilterModel, name: Seq<char>)
    requires
        filter.is_open(),
    ensures
        filter.accepts(name),
        filter.may_lie_in(name),
{
}

/// Names that are the same but for case, white space around them and dots at
/// their end are managed alike.
pub proof fn law_filter_sees_normal_forms(filter: FilterModel, a: Seq<char>, b: Seq<char>)
    requires
        normalized(a) == normalized(b),
    ensures
        filter.accepts(a) == filter.accepts(b),
        filter.may_lie_in(a) == filter.may_lie_in(b),
{
}

/// A domain falls under a pattern: it is the pattern, or something, a dot and the
/// pattern; for a pattern that starts with a dot, something and the pattern.
pub open spec fn falls_under(domain: Seq<char>, pattern: Seq<char>) -> bool {
    if pattern.len() > 0 && pattern[0] == '.' {
        exists|f: Seq<char>| #[trigger] (f + pattern) == domain
    } else {
        domain == pattern || exists|f: Seq<char>| #[trigger] (f + seq!['.']) + pattern == domain
    }
}

proof fn lemma_covers(pattern: Seq<char>, domain: Seq<char>)
    ensures
        covers(pattern, domain) <==> falls_under(domain, pattern),
{
    if pattern.len() > 0 && pattern[0] == '.' {
        if covers(pattern, domain) {
            let k = domain.len() - pattern.len();
            assert(domain.take(k) + pattern =~= domain) by {
                assert(pattern == domain.subrange(k, domain.len() as int));
            }
        }
        if falls_under(domain, pattern) {
            let f = choose|f: Seq<char>| #[trigger] (f + pattern) == domain;
            assert(pattern =~= domain.subrange(f.len() as int, domain.len() as int));
        }
    } else {
        law_lying_in_a_zone(domain, pattern, Seq::empty());
        if covers(pattern, domain) && domain != pattern {
            let f = choose|f: Seq<char>| domain == #[trigger] (f + seq!['.']) + pattern;
            assert((f + seq!['.']) + pattern == domain);
        }
        if falls_under(domain, pattern) && domain != pattern {
            let f = choose|f: Seq<char>| #[trigger] (f + seq!['.']) + pattern == domain;
            law_lying_in_a_zone(domain, pattern, f);
        }
    }
}

/// Without regular expressions the lists decide, each pattern of them: a name that
/// falls under any exclusion is not managed, one that falls under no exclusion and
/// under any inclusion is, and every name is where nothing is listed. No other name
/// is managed.
pub proof fn law_every_pattern_decides(filter: FilterModel, name: Seq<char>)
    requires
        !filter.has_regex(),
    ensures
        forall|i: int|
            0 <= i < filter.excluded.len() && falls_under(
                normalized(name),
                #[trigger] filter.excluded[i],
            ) ==> !filter.accepts(name),
        forall|i: int|
            0 <= i < filter.included.len() && falls_under(
                normalized(name),
                #[trigger] filter.included[i],
            ) && (forall|j: int|
                0 <= j < filter.excluded.len() ==> !falls_under(
                    normalized(name),
                    #[trigger] filter.excluded[j],
                )) ==> filter.accepts(name),
        filter.included.len() == 0 && (forall|j: int|
            0 <= j < filter.excluded.len() ==> !falls_under(
                normalized(name),
                #[trigger] filter.excluded[j],
            )) ==> filter.accepts(name),
        filter.accepts(name) && filter.included.len() > 0 ==> exists|i: int|
            0 <= i < filter.included.len() && falls_under(
                normalized(name),
                #[trigger] filter.included[i],
            ),
{
    let domain = normalized(name);
    assert forall|i: int|
        0 <= i < filter.excluded.len() && falls_under(
            domain,
            #[trigger] filter.excluded[i],
        ) implies !filter.accepts(name) by {
        lemma_covers(filter.excluded[i], domain);
    }
    if forall|j: int|
        0 <= j < filter.excluded.len() ==> !falls_under(domain, #[trigger] filter.excluded[j]) {
        assert forall|j: int| 0 <= j < filter.excluded.len() implies !covers(
            #[trigger] filter.excluded[j],
            domain,
        ) by {
            lemma_covers(filter.excluded[j], domain);
        }
        assert forall|i: int|
            0 <= i < filter.included.len() && falls_under(
                domain,
                #[trigger] filter.included[i],
            ) implies filter.accepts(name) by {
            lemma_covers(filter.included[i], domain);
        }
    }
    if filter.accepts(name) && filter.included.len() > 0 {
        let i = choose|i: int|
            0 <= i < filter.included.len() && covers(#[trigger] filter.included[i], domain);
        lemma_covers(filter.included[i], domain);
    }
}

/// With regular expressions they decide, on the normal form of the name: it must not
/// match the exclusion, and must match the inclusion, each if it is set.
pub proof fn law_each_regex_decides(filter: FilterModel, name: Seq<char>, pattern: Seq<char>)
    ensures
        filter.regex_exclude == Some(pattern) && regex_matches(pattern, normalized(name))
            ==> !filter.accepts(name),
        filter.regex_include == Some(pattern) && !regex_matches(pattern, normalized(name))
            ==> !filter.accepts(name),
        filter.regex_include == Some(pattern) && filter.regex_exclude is None && regex_matches(
            pattern,
            normalized(name),
        ) ==> filter.accepts(name),
        filter.regex_exclude == Some(pattern) && filter.regex_include is None && !regex_matches(
            pattern,
            normalized(name),
        ) ==> filter.accepts(name),
        filter.regex_include == Some(pattern) && regex_matches(pattern, normalized(name))
            && filter.regex_exclude is Some && !regex_matches(
            filter.regex_exclude->0,
            normalized(name),
        ) ==> filter.accepts(name),
{
}

/// Zones are kept by any inclusion that they fall under, and by any inclusion that,
/// without the dots in front of it, is the zone or lies below it. Where inclusions
/// decide, no other zone is kept.
pub proof fn law_every_inclusion_keeps_its_zones(
    filter: FilterModel,
    zone: Seq<char>,
    i: int,
    dots: Seq<char>,
    rest: Seq<char>,
    front: Seq<char>,
)
    ensures
        0 <= i < filter.included.len() && falls_under(normalized(zone), filter.included[i])
            ==> filter.may_lie_in(zone),
        0 <= i < filter.included.len() && filter.included[i] == dots + rest && is_run(dots, '.')
            && (rest.len() == 0 || rest[0] != '.') && (rest == normalized(zone) || rest == front
            + seq!['.'] + normalized(zone)) ==> filter.may_lie_in(zone),
        filter.may_lie_in(zone) && !filter.has_regex() && filter.included.len() > 0 ==> exists|
            k: int,
        |
            0 <= k < filter.included.len() && (falls_under(
                normalized(zone),
                #[trigger] filter.included[k],
            ) || within(without_leading(filter.included[k], '.'), normalized(zone))),
{
    let bare = normalized(zone);
    if 0 <= i < filter.included.len() {
        lemma_covers(filter.included[i], bare);
        if falls_under(bare, filter.included[i]) {
            assert(touches(filter.included[i], bare));
        }
        if filter.included[i] == dots + rest && is_run(dots, '.') && (rest.len() == 0 || rest[0]
            != '.') && (rest == bare || rest == front + seq!['.'] + bare) {
            law_cutting_runs(rest, dots, '.');
            law_lying_in_a_zone(rest, bare, front);
            assert(touches(filter.included[i], bare));
        }
    }
    if filter.may_lie_in(zone) && !filter.has_regex() && filter.included.len() > 0 {
        let k = choose|k: int|
            0 <= k < filter.included.len() && touches(#[trigger] filter.included[k], bare);
        lemma_covers(filter.included[k], bare);
        assert(falls_under(bare, filter.included[k]) || within(
            without_leading(filter.included[k], '.'),
            bare,
        ));
    }
}

/// A pattern is put in normal form as a name is, but for a dot in front of it, which
/// stays.
pub proof fn law_pattern_form(front: Seq<char>, core: Seq<char>, back: Seq<char>)
    requires
        is_blank(front),
        is_bare(core),
        is_blank(back),
    ensures
        core.len() > 0 && core[0] == '.' ==> pattern_form(front + core + back) == seq!['.']
            + normalized(core.drop_first()),
        core.len() == 0 || core[0] != '.' ==> pattern_form(front + core + back) == normalized(core),
{
    law_trimming(front, core, back);
}

/// The patterns of two lists are those of the one and those of the other, in order. A
/// pattern counts unless nothing or a single dot is left of it.
pub proof fn law_patterns_add_up(a: Seq<Seq<char>>, b: Seq<Seq<char>>, pattern: Seq<char>)
    ensures
        pattern_forms(a + b) == pattern_forms(a) + pattern_forms(b),
        pattern_forms(seq![pattern]) == if pattern_form(pattern).len() == 0 || pattern_form(
            pattern,
        ) == seq!['.'] {
            Seq::empty()
        } else {
            seq![pattern_form(pattern)]
        },
{
    reveal(Seq::filter);
    let form = |p: Seq<char>| pattern_form(p);
    let keep = |p: Seq<char>| is_pattern(p);
    assert((a + b).map_values(form) =~= a.map_values(form) + b.map_values(form));
    Seq::filter_distributes_over_add(a.map_values(form), b.map_values(form), keep);
    let one = seq![pattern].map_values(form);
    assert(one =~= seq![pattern_form(pattern)]);
    assert(one.drop_last() =~= Seq::empty());
    assert(one.drop_last().filter(keep) =~= Seq::empty());
    assert(Seq::<Seq<char>>::empty().push(pattern_form(pattern)) =~= one);
}

/// The items of a list with commas: those in front of a comma and those behind it. An
/// item is trimmed, and does not count if nothing is left of it.
pub proof fn law_commas_separate(a: Seq<char>, b: Seq<char>)
    ensures
        listed(a + seq![','] + b) == listed(a) + listed(b),
        is_free_of(a, ',') ==> listed(a) == if trimmed(a).len() == 0 {
            Seq::empty()
        } else {
            seq![trimmed(a)]
        },
{
    reveal(Seq::filter);
    let trim = |p: Seq<char>| trimmed(p);
    let keep = |p: Seq<char>| p.len() > 0;
    law_splitting(a, b, ',');
    let x = split_on(a, ',');
    let y = split_on(b, ',');
    assert((x + y).map_values(trim) =~= x.map_values(trim) + y.map_values(trim));
    Seq::filter_distributes_over_add(x.map_values(trim), y.map_values(trim), keep);
    if is_free_of(a, ',') {
        let one = seq![a].map_values(trim);
        assert(one =~= seq![trimmed(a)]);
        assert(one.drop_last() =~= Seq::empty());
        assert(one.drop_last().filter(keep) =~= Seq::empty());
        assert(Seq::<Seq<char>>::empty().push(trimmed(a)) =~= one);
    }
}

/// Where the inclusions of two settings are put together with a comma, a name is
/// managed if it is managed by the one or by the other, as long as both name
/// something; and where the exclusions are, if it is managed by both.
pub proof fn law_settings_add_up(
    a: Seq<char>,
    b: Seq<char>,
    excluded: Seq<char>,
    name: Seq<char>,
)
    ensures
        ({
            let blank = Seq::<char>::empty();
            let first = filter_from_settings(a, excluded, blank, blank);
            let second = filter_from_settings(b, excluded, blank, blank);
            let both = filter_from_settings(a + seq![','] + b, excluded, blank, blank);
            &&& first is Ok && second is Ok && both is Ok
            &&& first->Ok_0.included.len() > 0 && second->Ok_0.included.len() > 0 ==> (
            both->Ok_0.accepts(name) <==> first->Ok_0.accepts(name) || second->Ok_0.accepts(name))
        }),
        ({
            let blank = Seq::<char>::empty();
            let first = filter_from_settings(excluded, a, blank, blank);
            let second = filter_from_settings(excluded, b, blank, blank);
            let both = filter_from_settings(excluded, a + seq![','] + b, blank, blank);
            &&& first is Ok && second is Ok && both is Ok
            &&& both->Ok_0.accepts(name) <==> first->Ok_0.accepts(name) && second->Ok_0.accepts(
                name,
            )
        }),
{
    let blank = Seq::<char>::empty();
    assert(trimmed(blank).len() == 0);
    law_commas_separate(a, b);
    law_patterns_add_up(listed(a), listed(b), blank);
    let x = pattern_forms(listed(a));
    let y = pattern_forms(listed(b));
    let domain = normalized(name);
    assert(any_covers(x + y, domain) <==> any_covers(x, domain) || any_covers(y, domain)) by {
        if any_covers(x, domain) {
            let i = choose|i: int| 0 <= i < x.len() && covers(#[trigger] x[i], domain);
            assert((x + y)[i] == x[i]);
        }
        if any_covers(y, domain) {
            let i = choose|i: int| 0 <= i < y.len() && covers(#[trigger] y[i], domain);
            assert((x + y)[x.len() + i] == y[i]);
        }
        if any_covers(x + y, domain) {
            let i = choose|i: int|
                0 <= i < (x + y).len() && covers(#[trigger] (x + y)[i], domain);
            if i < x.len() {
                assert((x + y)[i] == x[i]);
            } else {
                assert((x + y)[i] == y[i - x.len()]);
            }
        }
    }
}

/// A regular expression is set by what is left of its setting without white space
/// around it, and by nothing if that is empty. It is compiled as it stands.
pub proof fn law_regex_settings(front: Seq<char>, core: Seq<char>, back: Seq<char>)
    requires
        is_blank(front),
        is_bare(core),
        is_blank(back),
    ensures
        ({
            let blank = Seq::<char>::empty();
            let setting = front + core + back;
            let by_inclusion = filter_from_settings(blank, blank, setting, blank);
            let by_exclusion = filter_from_settings(blank, blank, blank, setting);
            &&& core.len() == 0 ==> by_inclusion is Ok && by_inclusion->Ok_0.is_open()
            &&& core.len() == 0 ==> by_exclusion is Ok && by_exclusion->Ok_0.is_open()
            &&& core.len() > 0 && regex_error(core) is None ==> {
                &&& by_inclusion is Ok
                &&& by_inclusion->Ok_0.regex_include == Some(core)
                &&& by_inclusion->Ok_0.regex_exclude is None
                &&& by_exclusion is Ok
                &&& by_exclusion->Ok_0.regex_exclude == Some(core)
                &&& by_exclusion->Ok_0.regex_include is None
            }
            &&& core.len() > 0 && regex_error(core) is Some ==> by_inclusion is Err && by_exclusion
                is Err
        }),
{
    law_trimming(front, core, back);
    let blank = Seq::<char>::empty();
    assert(trimmed(blank).len() == 0);
    law_commas_separate(blank, blank);
    law_patterns_add_up(Seq::empty(), Seq::empty(), blank);
    assert(listed(blank) =~= Seq::empty());
    assert(pattern_forms(Seq::empty()).len() == 0) by {
        reveal(Seq::filter);
        assert(Seq::<Seq<char>>::empty().map_values(|p: Seq<char>| pattern_form(p))
            =~= Seq::empty());
    }
}

/// What ExternalDNS is told of a list is the whole list, in order; nothing where a
/// regular expression is set.
pub proof fn law_payload_lists(list: Seq<Seq<char>>, source: Seq<Seq<char>>, item: Seq<char>)
    ensures
        is_payload_list(list, source, false) ==> {
            &&& list.len() == source.len()
            &&& list.contains(item) <==> source.contains(item)
            &&& forall|i: int, j: int|
                0 <= i < j < list.len() ==> !precedes(#[trigger] list[j], #[trigger] list[i])
        },
        is_payload_list(list, source, true) <==> list.len() == 0,
{
    broadcast use vstd::seq_lib::group_to_multiset_ensures;

    if is_payload_list(list, source, false) {
        assert(list.to_multiset().len() == source.to_multiset().len());
        assert(list.contains(item) <==> list.to_multiset().count(item) > 0);
        assert(source.contains(item) <==> source.to_multiset().count(item) > 0);
    }
}

} // verus!
