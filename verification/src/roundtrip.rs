//! What is written is read back: a record that was written for a target of an
//! endpoint is listed with that target, under that endpoint's name.
use crate::model::EndpointModel;
use crate::names::{
    dotted, law_normalize_idempotent, lemma_lower_char, lemma_lower_idempotent, lemma_trimmed,
    lemma_trimmed_fixed, lemma_without_trailing, lemma_without_trailing_fixed, normalized,
};
use crate::numbers::{decimal, is_digit, lemma_decimal_reads_back, unsigned_number};
use crate::targets::{
    canonical, change_of, is_supported, lies_in, same_identity, srv_target, u16_of, word,
    written_subdomain,
};
use crate::text::{is_whitespace, lower, lower_char, trimmed, upper, without_trailing, words};
use crate::timeweb::{owner, record_of, target_of, ChangeModel, DataModel, ResponseModel};
use vstd::prelude::*;
use vstd::string::*;

verus! {

/// A text without white space, and not empty.
pub open spec fn is_word(s: Seq<char>) -> bool {
    s.len() > 0 && forall|i: int| 0 <= i < s.len() ==> !is_whitespace(#[trigger] s[i])
}

/// What the API lists for a record that was written.
pub open spec fn written_data(change: ChangeModel) -> DataModel {
    DataModel {
        priority: change.priority,
        subdomain: change.subdomain,
        value: Some(change.value),
    }
}

/// The words of a text are words.
pub proof fn lemma_words_are_words(s: Seq<char>)
    ensures
        forall|i: int| 0 <= i < words(s).len() ==> is_word(#[trigger] words(s)[i]),
        s.len() > 0 && !is_whitespace(s.last()) ==> words(s).len() > 0,
    decreases s.len(),
{
    if s.len() > 0 {
        let before = words(s.drop_last());
        lemma_words_are_words(s.drop_last());
        if !is_whitespace(s.last()) {
            if s.len() >= 2 && !is_whitespace(s[s.len() - 2]) {
                assert(s.drop_last().last() == s[s.len() - 2]);
                assert(is_word(before[before.len() - 1]));
                let grown = before.last().push(s.last());
                assert(is_word(grown));
                assert forall|i: int| 0 <= i < words(s).len() implies is_word(
                    #[trigger] words(s)[i],
                ) by {
                    if i < before.len() - 1 {
                        assert(words(s)[i] == before[i]);
                    }
                }
            } else {
                assert(is_word(seq![s.last()]));
                assert forall|i: int| 0 <= i < words(s).len() implies is_word(
                    #[trigger] words(s)[i],
                ) by {
                    if i < before.len() {
                        assert(words(s)[i] == before[i]);
                    }
                }
            }
        }
    }
}

/// A word has one word: itself.
pub proof fn lemma_words_of_word(w: Seq<char>)
    requires
        is_word(w),
    ensures
        words(w) == seq![w],
    decreases w.len(),
{
    assert(!is_whitespace(w[w.len() - 1]));
    if w.len() == 1 {
        assert(words(w.drop_last()) =~= Seq::empty());
        assert(w =~= seq![w.last()]);
        assert(words(w) =~= seq![w]);
    } else {
        assert(is_word(w.drop_last()));
        lemma_words_of_word(w.drop_last());
        assert(w =~= w.drop_last().push(w.last()));
        assert(words(w) =~= seq![w]);
    }
}

/// A space and a word behind a text add that word.
pub proof fn lemma_words_append(s: Seq<char>, w: Seq<char>)
    requires
        is_word(w),
    ensures
        words(s + seq![' '] + w) == words(s).push(w),
    decreases w.len(),
{
    let t = s + seq![' '] + w;
    assert(!is_whitespace(w[w.len() - 1]));
    assert(t.last() == w.last());
    if w.len() == 1 {
        assert(t.drop_last() =~= s + seq![' ']);
        lemma_words_space(s);
        assert(is_whitespace(t[t.len() - 2]));
        assert(w =~= seq![t.last()]);
    } else {
        assert(is_word(w.drop_last()));
        lemma_words_append(s, w.drop_last());
        assert(t.drop_last() =~= s + seq![' '] + w.drop_last());
        assert(!is_whitespace(w[w.len() - 2]));
        assert(t[t.len() - 2] == w[w.len() - 2]);
        let before = words(s).push(w.drop_last());
        assert(before.drop_last() =~= words(s));
        assert(w =~= w.drop_last().push(w.last()));
    }
}

/// A space behind a text adds no word.
pub proof fn lemma_words_space(s: Seq<char>)
    ensures
        words(s + seq![' ']) == words(s),
{
    assert((s + seq![' ']).drop_last() =~= s);
}

/// A decimal number is a word, and it is read as that number.
pub proof fn lemma_decimal_is_word(n: u16)
    ensures
        is_word(decimal(n as nat)),
        unsigned_number(decimal(n as nat), u16::MAX as nat) == Some(n as nat),
        u16_of(decimal(n as nat)) == Some(n),
{
    lemma_decimal_reads_back(n as nat);
    let d = decimal(n as nat);
    assert forall|i: int| 0 <= i < d.len() implies !is_whitespace(#[trigger] d[i]) by {
        assert(is_digit(d[i]));
    }
    assert(is_digit(d[0]));
}

/// What is left of a word without the dots at its end is a word, or empty.
proof fn lemma_word_without_dots(w: Seq<char>)
    requires
        is_word(w),
    ensures
        without_trailing(w, '.').len() > 0 ==> is_word(without_trailing(w, '.')),
        without_trailing(without_trailing(w, '.'), '.') == without_trailing(w, '.'),
{
    let bare = without_trailing(w, '.');
    lemma_without_trailing(w, '.');
    lemma_without_trailing_fixed(bare, '.');
    assert forall|i: int| 0 <= i < bare.len() implies !is_whitespace(#[trigger] bare[i]) by {
        assert(bare[i] == w.subrange(0, bare.len() as int)[i]);
        assert(!is_whitespace(w[i]));
    }
}

/// Upper case is its own upper case.
proof fn lemma_upper_idempotent(s: Seq<char>)
    ensures
        upper(upper(s)) == upper(s),
{
    assert forall|i: int| 0 <= i < s.len() implies upper(upper(s))[i] == upper(s)[i] by {
        let c = s[i];
        if 'a' <= c <= 'z' {
            let u: u8 = (c as u8 - 32) as u8;
            assert('A' <= (u as char) <= 'Z');
        }
    }
    assert(upper(upper(s)) =~= upper(s));
}

/// The names of the types are all different.
pub proof fn lemma_types_differ()
    ensures
        "TXT"@ != "MX"@,
        "TXT"@ != "SRV"@,
        "TXT"@ != "A"@,
        "TXT"@ != "AAAA"@,
        "TXT"@ != "CNAME"@,
        "MX"@ != "SRV"@,
        "MX"@ != "A"@,
        "MX"@ != "AAAA"@,
        "MX"@ != "CNAME"@,
        "SRV"@ != "A"@,
        "SRV"@ != "AAAA"@,
        "SRV"@ != "CNAME"@,
        " "@ == seq![' '],
{
    reveal_strlit("TXT");
    reveal_strlit("MX");
    reveal_strlit("SRV");
    reveal_strlit("A");
    reveal_strlit("AAAA");
    reveal_strlit("CNAME");
    reveal_strlit(" ");
    assert("TXT"@.len() == 3 && "MX"@.len() == 2 && "SRV"@.len() == 3);
    assert("A"@.len() == 1 && "AAAA"@.len() == 4 && "CNAME"@.len() == 5);
    assert("TXT"@[0] == 'T' && "SRV"@[0] == 'S');
    assert(" "@ =~= seq![' ']);
}

/// The numbers in a target are written in their shortest form, and a service has
/// a host.
pub open spec fn is_plainly_written(record_type: Seq<char>, target: Seq<char>) -> bool {
    let parts = words(target);
    &&& record_type == "MX"@ ==> parts[0] == decimal(u16_of(parts[0])->0 as nat)
    &&& record_type == "SRV"@ ==> {
        &&& forall|i: int| 0 <= i < 3 ==> #[trigger] parts[i] == decimal(u16_of(parts[i])->0 as nat)
        &&& without_trailing(parts[3], '.').len() > 0
    }
}

/// The target that a record was written for is read back, but for case and for
/// the dots at the end of its host. The numbers of mail exchangers and services
/// are read back in their shortest form, so that a target with another form does
/// not compare equal to what is read; a service whose host is only dots is not
/// read at all.
pub proof fn law_written_target_reads_back(
    endpoint: EndpointModel,
    target: Seq<char>,
    zone: Seq<char>,
)
    requires
        change_of(endpoint, target, zone) is Ok,
        is_plainly_written(upper(trimmed(endpoint.record_type)), target),
    ensures
        ({
            let change = change_of(endpoint, target, zone)->Ok_0;
            let read = target_of(change.record_type, written_data(change));
            &&& read is Ok
            &&& canonical(change.record_type, read->Ok_0) == canonical(change.record_type, target)
        }),
{
    let kind = upper(trimmed(endpoint.record_type));
    let change = change_of(endpoint, target, zone)->Ok_0;
    let parts = words(target);
    lemma_upper_idempotent(trimmed(endpoint.record_type));
    lemma_types_differ();
    lemma_words_are_words(target);
    if kind == "MX"@ {
        let host = without_trailing(parts[1], '.');
        let number = decimal(change.priority->0 as nat);
        let read = number + " "@ + host;
        lemma_word_without_dots(parts[1]);
        lemma_decimal_is_word(change.priority->0);
        lemma_words_of_word(number);
        if host.len() > 0 {
            lemma_words_append(number, host);
        } else {
            lemma_words_space(number);
            assert(host =~= Seq::empty());
            assert(read =~= number + seq![' ']);
        }
        assert(word(words(read), 0) == number);
        assert(word(words(read), 1) == host);
    } else if kind == "SRV"@ {
        let (priority, weight, port, host) = srv_target(target)->Ok_0;
        let p = decimal(priority as nat);
        let w = decimal(weight as nat);
        let q = decimal(port as nat);
        lemma_word_without_dots(parts[3]);
        lemma_decimal_is_word(priority);
        lemma_decimal_is_word(weight);
        lemma_decimal_is_word(port);
        assert(parts[0] == p && parts[1] == w && parts[2] == q);
        assert(change.value == w + " "@ + q + " "@ + host);
        lemma_words_of_word(w);
        lemma_words_append(w, q);
        lemma_words_append(w + " "@ + q, host);
        let listed = words(change.value);
        assert(listed.len() == 3 && listed[0] == w && listed[1] == q && listed[2] == host);
        let read = p + " "@ + w + " "@ + q + " "@ + host;
        lemma_words_of_word(p);
        lemma_words_append(p, w);
        lemma_words_append(p + " "@ + w, q);
        lemma_words_append(p + " "@ + w + " "@ + q, host);
        let again = words(read);
        assert(again.len() == 4 && again[0] == p && again[1] == w && again[2] == q && again[3]
            == host);
    } else if kind != "TXT"@ {
        lemma_without_trailing(target, '.');
        lemma_without_trailing_fixed(without_trailing(target, '.'), '.');
    }
}

/// The owner that a record was written for is read back, in normal form, if it
/// lies in the zone. Left out are names that still end with white space after
/// the dots at their end are cut.
pub proof fn law_written_owner_reads_back(dns_name: Seq<char>, zone: Seq<char>)
    requires
        lies_in(dns_name, zone),
        ({
            let bare = without_trailing(trimmed(dns_name), '.');
            bare.len() > 0 ==> !is_whitespace(bare.last())
        }),
    ensures
        owner(zone, written_subdomain(dns_name, zone)) == normalized(dns_name),
{
    let name = normalized(dns_name);
    if name != normalized(zone) {
        law_normalize_idempotent(dns_name);
        let bare = without_trailing(trimmed(dns_name), '.');
        lemma_trimmed(dns_name);
        lemma_without_trailing(trimmed(dns_name), '.');
        assert(dotted(normalized(zone)).len() <= name.len());
        assert(bare.len() > 0);
        assert(bare[0] == trimmed(dns_name)[0]);
        lemma_lower_char(bare[0]);
        lemma_lower_char(bare.last());
        assert(name[0] == lower_char(bare[0]));
        assert(name.last() == lower_char(bare.last()));
        lemma_trimmed_fixed(name);
        reveal_strlit("@");
        if name == "@"@ {
            assert(dotted(normalized(zone)) =~= name.subrange(
                name.len() - dotted(normalized(zone)).len(),
                name.len() as int,
            ));
            assert(dotted(normalized(zone))[0] == '.');
            assert(name[0] == '@');
        }
    }
}

/// Case does not matter where case is ignored.
proof fn lemma_lower_upper(s: Seq<char>)
    ensures
        lower(upper(s)) == lower(s),
{
    assert forall|i: int| 0 <= i < s.len() implies lower(upper(s))[i] == lower(s)[i] by {
        let c = s[i];
        if 'a' <= c <= 'z' {
            let u: u8 = (c as u8 - 32) as u8;
            assert('A' <= (u as char) <= 'Z');
            assert((u as char) as u8 == u);
        }
    }
    assert(lower(upper(s)) =~= lower(s));
}

/// The names of the types have no white space around them.
proof fn lemma_types_are_trimmed(kind: Seq<char>)
    requires
        is_supported(kind),
    ensures
        trimmed(kind) == kind,
{
    reveal_strlit("TXT");
    reveal_strlit("MX");
    reveal_strlit("SRV");
    reveal_strlit("A");
    reveal_strlit("AAAA");
    reveal_strlit("CNAME");
    lemma_trimmed_fixed(kind);
}

/// What the API lists for a record that was written, with its number.
pub open spec fn written_response(id: u64, change: ChangeModel) -> ResponseModel {
    ResponseModel {
        id: Some(id),
        record_type: change.record_type,
        fqdn: None,
        data: written_data(change),
        ttl: change.ttl,
    }
}

/// What a target of an endpoint is written as in a zone, under its name in the zone
/// `listed` that the record is in.
pub open spec fn change_in(
    endpoint: EndpointModel,
    target: Seq<char>,
    zone: Seq<char>,
    listed: Seq<char>,
) -> ChangeModel {
    ChangeModel {
        subdomain: written_subdomain(endpoint.dns_name, listed),
        ..change_of(endpoint, target, zone)->Ok_0
    }
}

/// An endpoint as ExternalDNS writes it: named in normal form but for case, its type
/// without white space around it, without a set identifier, and with a TTL that fits.
pub open spec fn is_well_written(endpoint: EndpointModel) -> bool {
    &&& lower(endpoint.dns_name) == normalized(endpoint.dns_name)
    &&& trimmed(endpoint.record_type) == endpoint.record_type
    &&& endpoint.set_identifier.len() == 0
    &&& endpoint.record_ttl <= i64::MAX
}

/// A record that was written for a target of an endpoint is listed as a record of
/// that endpoint with that target, so that it is found when the endpoint is
/// updated or deleted.
pub proof fn law_written_record_is_recognised(
    id: u64,
    endpoint: EndpointModel,
    target: Seq<char>,
    zone: Seq<char>,
    listed: Seq<char>,
)
    requires
        id > 0,
        change_of(endpoint, target, zone) is Ok,
        is_plainly_written(upper(trimmed(endpoint.record_type)), target),
        is_well_written(endpoint),
        lies_in(endpoint.dns_name, listed),
    ensures
        ({
            let answer = record_of(
                written_response(id, change_in(endpoint, target, zone, listed)),
                listed,
            );
            let record = answer->Ok_0;
            &&& answer is Ok
            &&& record.id == id
            &&& record.zone == listed
            &&& same_identity(record.endpoint, endpoint)
            &&& record.endpoint.targets.len() == 1
            &&& canonical(endpoint.record_type, record.endpoint.targets[0]) == canonical(
                endpoint.record_type,
                target,
            )
            &&& record.endpoint.record_ttl == if endpoint.record_ttl > 0 {
                endpoint.record_ttl
            } else {
                0
            }
        }),
        zone == listed ==> change_in(endpoint, target, zone, listed) == change_of(
            endpoint,
            target,
            zone,
        )->Ok_0,
{
    let kind = upper(trimmed(endpoint.record_type));
    let name = endpoint.dns_name;
    let change = change_of(endpoint, target, zone)->Ok_0;
    assert(is_supported(kind));
    lemma_types_are_trimmed(kind);
    lemma_upper_idempotent(endpoint.record_type);
    lemma_lower_upper(endpoint.record_type);
    law_written_target_reads_back(endpoint, target, zone);
    assert(target_of(kind, written_data(change)) == target_of(
        kind,
        written_data(change_in(endpoint, target, zone, listed)),
    ));
    let bare = without_trailing(trimmed(name), '.');
    lemma_trimmed(name);
    lemma_without_trailing(trimmed(name), '.');
    assert(bare.len() == name.len());
    assert(bare =~= trimmed(name));
    law_written_owner_reads_back(name, listed);
    lemma_lower_idempotent(name);
    assert(endpoint.set_identifier =~= Seq::empty());
}

} // verus!
