//! Records, field by field: what is read from an answer of the API, how targets are
//! compared, and what is written for a target of an endpoint.
use crate::address::{is_ipv4, is_ipv6};
use crate::model::EndpointModel;
use crate::names::{
    law_lying_in_a_zone, lemma_trimmed, lemma_trimmed_fixed, normalized, within,
};
use crate::numbers::decimal;
use crate::roundtrip::{
    is_word, lemma_decimal_is_word, lemma_types_differ, lemma_words_append, lemma_words_of_word,
};
use crate::targets::{
    best_zone, byte_len, canonical, change_of, lies_in, relative_part, same_identity,
    service_labels, srv_target, u16_of, wants_other_ttl,
};
use crate::text::{
    is_free_of, is_run, is_whitespace, law_case, law_cutting_runs, law_splitting, lower, lower_char,
    split_on, trimmed, upper, words,
};
use crate::timeweb::{
    record_of, srv_value, target_of, ChangeModel, DataModel, ResponseModel, TimewebErrorModel,
};
use vstd::prelude::*;
use vstd::string::*;

verus! {

// ---------------------------------------------------------------------------
// Reading a record
// ---------------------------------------------------------------------------

/// A record that is read has the number, the type and the TTL of the answer, in the
/// zone that was listed, and one target. It is read if the answer has a number that is
/// not zero, a target and a TTL that fits, and else it is not.
pub proof fn law_a_record_is_read_field_by_field(response: ResponseModel, zone: Seq<char>)
    ensures
        record_of(response, zone) matches Ok(record) ==> {
            let endpoint = record.endpoint;
            &&& response.id == Some(record.id)
            &&& record.id != 0
            &&& record.zone == zone
            &&& endpoint.record_type == upper(trimmed(response.record_type))
            &&& response.ttl is None ==> endpoint.record_ttl == 0
            &&& response.ttl matches Some(ttl) ==> endpoint.record_ttl == ttl as int
            &&& endpoint.record_ttl <= i64::MAX
            &&& endpoint.targets.len() == 1
            &&& target_of(endpoint.record_type, response.data) == Ok::<Seq<char>, Seq<char>>(
                endpoint.targets[0],
            )
            &&& endpoint.set_identifier.len() == 0
            &&& endpoint.labels.dom().len() == 0
            &&& endpoint.provider_specific.len() == 0
        },
        record_of(response, zone) is Ok <==> {
            &&& response.id is Some
            &&& response.id->0 != 0
            &&& target_of(upper(trimmed(response.record_type)), response.data) is Ok
            &&& response.ttl is None || response.ttl->0 <= 0x7fff_ffff_ffff_ffff
        },
{
}

/// The name in an answer names the record: a name that lies in the zone as it is, in
/// normal form; any other as one below the zone; a blank one and the sign `@` as the
/// zone itself.
pub open spec fn is_named(dns_name: Seq<char>, name: Seq<char>, zone: Seq<char>) -> bool {
    let own = normalized(zone);
    &&& within(normalized(name), own) ==> dns_name == normalized(name)
    &&& !within(normalized(name), own) && trimmed(name).len() > 0 && trimmed(name) != seq!['@']
        ==> dns_name == normalized(name) + seq!['.'] + own
    &&& trimmed(name).len() == 0 || trimmed(name) == seq!['@'] ==> dns_name == own
}

proof fn lemma_owner(zone: Seq<char>, name: Seq<char>)
    ensures
        is_named(crate::timeweb::owner(zone, Some(name)), name, zone),
        within(crate::timeweb::owner(zone, Some(name)), normalized(zone)),
{
    let own = normalized(zone);
    let bare = trimmed(name);
    reveal_strlit("@");
    assert("@"@ =~= seq!['@']);
    lemma_trimmed(name);
    lemma_trimmed_fixed(bare);
    assert(normalized(bare) == normalized(name));
    law_lying_in_a_zone(normalized(name), own, normalized(name));
    assert(normalized(name) + crate::names::dotted(own) =~= normalized(name) + seq!['.'] + own);
    if bare.len() == 0 {
        assert(crate::text::without_trailing(bare, '.') =~= Seq::empty());
        assert(normalized(name) =~= Seq::empty());
        if within(normalized(name), own) {
            assert(own =~= Seq::empty());
        }
    } else if bare == seq!['@'] {
        assert(crate::text::without_trailing(bare, '.') == bare);
        assert(lower(bare) =~= bare);
        if within(normalized(name), own) && normalized(name) != own {
            let f = choose|f: Seq<char>| normalized(name) == #[trigger] (f + seq!['.']) + own;
            assert(((f + seq!['.']) + own)[f.len() as int] == '.');
            assert(bare[f.len() as int] == '@');
        }
    }
}

/// A record is named by the full name in the answer, if there is one, else by the
/// subdomain, if there is one, and else by the zone. It always lies in the zone.
pub proof fn law_the_answer_names_the_record(response: ResponseModel, zone: Seq<char>)
    requires
        record_of(response, zone) is Ok,
    ensures
        ({
            let dns_name = record_of(response, zone)->Ok_0.endpoint.dns_name;
            &&& response.fqdn matches Some(name) ==> is_named(dns_name, name, zone)
            &&& response.fqdn is None ==> (response.data.subdomain matches Some(name) ==> is_named(
                dns_name,
                name,
                zone,
            ))
            &&& response.fqdn is None && response.data.subdomain is None ==> dns_name
                == normalized(zone)
            &&& within(dns_name, normalized(zone))
        }),
{
    if let Some(name) = response.fqdn {
        lemma_owner(zone, name);
    } else if let Some(name) = response.data.subdomain {
        lemma_owner(zone, name);
    }
}

/// A name in an answer that lies in the zone is the name of the record.
pub proof fn law_a_full_name_in_the_zone_is_kept(
    response: ResponseModel,
    zone: Seq<char>,
    fqdn: Seq<char>,
)
    requires
        record_of(response, zone) is Ok,
        response.fqdn == Some(fqdn),
        normalized(fqdn) == normalized(zone) || exists|f: Seq<char>|
            normalized(fqdn) == #[trigger] (f + seq!['.']) + normalized(zone),
    ensures
        record_of(response, zone)->Ok_0.endpoint.dns_name == normalized(fqdn),
{
    law_the_answer_names_the_record(response, zone);
    if normalized(fqdn) != normalized(zone) {
        let f = choose|f: Seq<char>|
            normalized(fqdn) == #[trigger] (f + seq!['.']) + normalized(zone);
        law_lying_in_a_zone(normalized(fqdn), normalized(zone), f);
    } else {
        law_lying_in_a_zone(normalized(fqdn), normalized(zone), Seq::empty());
    }
}

/// The target of an address, an alias or a text is the value: a text as it is, the
/// others without dots at the end. Without a value there is none.
pub proof fn law_plain_values_are_read(
    kind: Seq<char>,
    data: DataModel,
    core: Seq<char>,
    dots: Seq<char>,
)
    requires
        kind == "A"@ || kind == "AAAA"@ || kind == "CNAME"@ || kind == "TXT"@,
    ensures
        kind == "TXT"@ && data.value == Some(core) ==> target_of(kind, data) == Ok::<
            Seq<char>,
            Seq<char>,
        >(core),
        kind != "TXT"@ && data.value == Some(core + dots) && is_run(dots, '.') && (core.len() == 0
            || core[core.len() - 1] != '.') ==> target_of(kind, data) == Ok::<
            Seq<char>,
            Seq<char>,
        >(core),
        target_of(kind, data) is Ok <==> data.value is Some,
{
    if is_run(dots, '.') {
        law_cutting_runs(core, dots, '.');
    }
}

/// The target of a mail exchanger is its priority, a space and the host without dots
/// at its end. Without a priority or a value there is none.
pub proof fn law_mail_exchangers_are_read(
    data: DataModel,
    priority: u16,
    core: Seq<char>,
    dots: Seq<char>,
)
    requires
        is_run(dots, '.'),
        core.len() == 0 || core[core.len() - 1] != '.',
    ensures
        data.priority == Some(priority) && data.value == Some(core + dots) ==> target_of(
            "MX"@,
            data,
        ) == Ok::<Seq<char>, Seq<char>>(decimal(priority as nat) + seq![' '] + core),
        target_of("MX"@, data) is Ok <==> data.priority is Some && data.value is Some,
{
    lemma_types_differ();
    law_cutting_runs(core, dots, '.');
}

/// The target of a service is its priority, weight, port and host, the last three of
/// which are the words of its value. It is read only if the value has three words and
/// the first two are numbers.
pub proof fn law_services_are_read(
    data: DataModel,
    priority: u16,
    weight: u16,
    port: u16,
    core: Seq<char>,
    dots: Seq<char>,
)
    requires
        is_run(dots, '.'),
        is_word(core),
        core[core.len() - 1] != '.',
    ensures
        data.priority == Some(priority) && data.value == Some(
            decimal(weight as nat) + seq![' '] + decimal(port as nat) + seq![' '] + (core + dots),
        ) ==> target_of("SRV"@, data) == Ok::<Seq<char>, Seq<char>>(
            decimal(priority as nat) + seq![' '] + decimal(weight as nat) + seq![' '] + decimal(
                port as nat,
            ) + seq![' '] + core,
        ),
        target_of("SRV"@, data) is Ok ==> {
            &&& data.priority is Some
            &&& data.value is Some
            &&& words(data.value->0).len() == 3
            &&& u16_of(words(data.value->0)[0]) is Some
            &&& u16_of(words(data.value->0)[1]) is Some
        },
        data.priority is None || data.value is None ==> target_of("SRV"@, data) is Err,
{
    lemma_types_differ();
    let w = decimal(weight as nat);
    let q = decimal(port as nat);
    let host = core + dots;
    let value = w + seq![' '] + q + seq![' '] + host;
    lemma_decimal_is_word(weight);
    lemma_decimal_is_word(port);
    assert(is_word(host)) by {
        assert forall|i: int| 0 <= i < host.len() implies !is_whitespace(#[trigger] host[i]) by {
            if i < core.len() {
                assert(host[i] == core[i]);
            } else {
                assert(host[i] == dots[i - core.len()]);
            }
        }
    }
    lemma_words_of_word(w);
    lemma_words_append(w, q);
    lemma_words_append(w + seq![' '] + q, host);
    let listed = words(value);
    assert(listed.len() == 3 && listed[0] == w && listed[1] == q && listed[2] == host);
    law_cutting_runs(core, dots, '.');
    law_cutting_runs(core, Seq::empty(), '.');
    assert(core + Seq::<char>::empty() =~= core);
    assert(srv_value(value) == Ok::<(u16, u16, Seq<char>), Seq<char>>((weight, port, core)));
}

/// Nothing but the six types is read.
pub proof fn law_other_types_are_not_read(kind: Seq<char>, data: DataModel)
    requires
        kind != "A"@ && kind != "AAAA"@ && kind != "CNAME"@ && kind != "TXT"@ && kind != "MX"@
            && kind != "SRV"@,
    ensures
        target_of(kind, data) is Err,
{
}

/// A failure may pass if the API has too much to do or fails itself, if the request
/// got no answer, and if the answer makes no sense. The status of an answer is kept.
pub proof fn law_failures_that_may_pass(failure: TimewebErrorModel, status: u16)
    ensures
        failure is HttpStatus && failure.http_status() == Some(status) ==> (failure.transient()
            <==> status == 429 || status >= 500),
        failure is HttpStatus <==> failure.http_status() is Some,
        failure matches TimewebErrorModel::HttpStatus { status: own, .. } ==> failure.http_status()
            == Some(own),
        failure matches TimewebErrorModel::Request { timeout, connect, request, .. } ==> (
        failure.transient() <==> timeout || connect || request),
        failure is Decode || failure is BodyTooLarge || failure is Url || failure is InvalidResponse
            ==> failure.transient(),
{
}

// ---------------------------------------------------------------------------
// Comparing
// ---------------------------------------------------------------------------

/// Two characters are the same letter, but perhaps for its case.
pub open spec fn is_same_letter(c: char, d: char) -> bool {
    ||| c == d
    ||| 65 <= c as u32 <= 90 && d as u32 == c as u32 + 32
    ||| 65 <= d as u32 <= 90 && c as u32 == d as u32 + 32
}

/// Two texts are the same but for case.
pub open spec fn is_same_but_for_case(a: Seq<char>, b: Seq<char>) -> bool {
    a.len() == b.len() && forall|i: int|
        0 <= i < a.len() ==> is_same_letter(#[trigger] a[i], b[i])
}

proof fn lemma_same_letter(c: char, d: char)
    ensures
        lower_char(c) == lower_char(d) <==> is_same_letter(c, d),
{
    law_case(seq![c], 0);
    law_case(seq![d], 0);
    assert(lower(seq![c])[0] == lower_char(c));
    assert(lower(seq![d])[0] == lower_char(d));
}

proof fn lemma_same_but_for_case(a: Seq<char>, b: Seq<char>)
    ensures
        lower(a) == lower(b) <==> is_same_but_for_case(a, b),
{
    if lower(a) == lower(b) {
        assert(lower(a).len() == a.len() && lower(b).len() == b.len());
        assert forall|i: int| 0 <= i < a.len() implies is_same_letter(#[trigger] a[i], b[i]) by {
            assert(lower(a)[i] == lower(b)[i]);
            lemma_same_letter(a[i], b[i]);
        }
    }
    if is_same_but_for_case(a, b) {
        assert forall|i: int| 0 <= i < a.len() implies #[trigger] lower(a)[i] == lower(b)[i] by {
            assert(is_same_letter(a[i], b[i]));
            lemma_same_letter(a[i], b[i]);
        }
        assert(lower(a) =~= lower(b));
    }
}

/// Two endpoints name the same records if their names and their types are the same
/// but for case, and their set identifiers are the same, and only then.
pub proof fn law_identity(a: EndpointModel, b: EndpointModel)
    ensures
        same_identity(a, b) <==> is_same_but_for_case(a.dns_name, b.dns_name)
            && is_same_but_for_case(a.record_type, b.record_type) && a.set_identifier
            == b.set_identifier,
{
    lemma_same_but_for_case(a.dns_name, b.dns_name);
    lemma_same_but_for_case(a.record_type, b.record_type);
}

/// Two targets of a text record compare as the same only if they are the same, and
/// two of an address or an alias if they are the same but for case and for dots at
/// their end.
pub proof fn law_targets_compare(
    kind: Seq<char>,
    a: Seq<char>,
    b: Seq<char>,
    dots_a: Seq<char>,
    dots_b: Seq<char>,
)
    requires
        is_run(dots_a, '.'),
        is_run(dots_b, '.'),
        a.len() == 0 || a[a.len() - 1] != '.',
        b.len() == 0 || b[b.len() - 1] != '.',
    ensures
        upper(kind) == "TXT"@ ==> (canonical(kind, a + dots_a) == canonical(kind, b + dots_b)
            <==> a + dots_a == b + dots_b),
        upper(kind) != "TXT"@ && upper(kind) != "MX"@ && upper(kind) != "SRV"@ ==> (canonical(
            kind,
            a + dots_a,
        ) == canonical(kind, b + dots_b) <==> is_same_but_for_case(a, b)),
{
    law_cutting_runs(a, dots_a, '.');
    law_cutting_runs(b, dots_b, '.');
    lemma_same_but_for_case(a, b);
    lemma_types_differ();
}

/// A text without spaces in it.
spec fn has_no_space(s: Seq<char>) -> bool {
    forall|i: int| 0 <= i < s.len() ==> #[trigger] s[i] != ' '
}

proof fn lemma_word_has_no_space(w: Seq<char>)
    requires
        is_word(w),
    ensures
        has_no_space(lower(w)),
        lower(w).len() > 0,
{
    assert forall|i: int| 0 <= i < lower(w).len() implies #[trigger] lower(w)[i] != ' ' by {
        crate::names::lemma_lower_char(w[i]);
        assert(!is_whitespace(w[i]));
    }
}

/// Of two texts with a space the parts in front of it are the same if the texts are,
/// where they hold no space themselves.
proof fn lemma_space_separates(a: Seq<char>, x: Seq<char>, b: Seq<char>, y: Seq<char>)
    requires
        has_no_space(a),
        has_no_space(b),
        a + seq![' '] + x == b + seq![' '] + y,
    ensures
        a == b,
        x == y,
{
    let s = a + seq![' '] + x;
    let t = b + seq![' '] + y;
    if a.len() < b.len() {
        assert(s[a.len() as int] == ' ');
        assert(t[a.len() as int] == b[a.len() as int]);
    }
    if b.len() < a.len() {
        assert(t[b.len() as int] == ' ');
        assert(s[b.len() as int] == a[b.len() as int]);
    }
    assert forall|i: int| 0 <= i < a.len() implies a[i] == b[i] by {
        assert(s[i] == a[i] && t[i] == b[i]);
    }
    assert(a =~= b);
    assert(x.len() == y.len()) by {
        assert(s.len() == a.len() + 1 + x.len());
        assert(t.len() == b.len() + 1 + y.len());
    }
    assert forall|i: int| 0 <= i < x.len() implies x[i] == y[i] by {
        assert(s[a.len() + 1 + i] == x[i]);
        assert(t[b.len() + 1 + i] == y[i]);
    }
    assert(x =~= y);
}

proof fn lemma_lower_joined(a: Seq<char>, b: Seq<char>)
    ensures
        lower(a + seq![' '] + b) == lower(a) + seq![' '] + lower(b),
{
    assert(lower(a + seq![' '] + b) =~= lower(a) + seq![' '] + lower(b));
}

/// The targets of two mail exchangers compare as the same if the priorities are
/// written alike and the hosts are the same but for case and for dots at their end.
pub proof fn law_mail_exchangers_compare(
    kind: Seq<char>,
    p: Seq<char>,
    q: Seq<char>,
    a: Seq<char>,
    b: Seq<char>,
    dots_a: Seq<char>,
    dots_b: Seq<char>,
)
    requires
        upper(kind) == "MX"@,
        is_word(p),
        is_word(q),
        is_word(a),
        is_word(b),
        a[a.len() - 1] != '.',
        b[b.len() - 1] != '.',
        is_run(dots_a, '.'),
        is_run(dots_b, '.'),
    ensures
        canonical(kind, p + seq![' '] + (a + dots_a)) == canonical(
            kind,
            q + seq![' '] + (b + dots_b),
        ) <==> is_same_but_for_case(p, q) && is_same_but_for_case(a, b),
{
    lemma_types_differ();
    lemma_mx_form(kind, p, a, dots_a);
    lemma_mx_form(kind, q, b, dots_b);
    lemma_same_but_for_case(p, q);
    lemma_same_but_for_case(a, b);
    lemma_word_has_no_space(p);
    lemma_word_has_no_space(q);
    if lower(p) + seq![' '] + lower(a) == lower(q) + seq![' '] + lower(b) {
        lemma_space_separates(lower(p), lower(a), lower(q), lower(b));
    }
}

proof fn lemma_with_dots_is_word(a: Seq<char>, dots: Seq<char>)
    requires
        is_word(a),
        is_run(dots, '.'),
    ensures
        is_word(a + dots),
{
    let host = a + dots;
    assert forall|i: int| 0 <= i < host.len() implies !is_whitespace(#[trigger] host[i]) by {
        if i < a.len() {
            assert(host[i] == a[i]);
        } else {
            assert(host[i] == dots[i - a.len()]);
        }
    }
}

proof fn lemma_mx_form(kind: Seq<char>, p: Seq<char>, a: Seq<char>, dots: Seq<char>)
    requires
        upper(kind) == "MX"@,
        is_word(p),
        is_word(a),
        a[a.len() - 1] != '.',
        is_run(dots, '.'),
    ensures
        canonical(kind, p + seq![' '] + (a + dots)) == lower(p) + seq![' '] + lower(a),
{
    lemma_types_differ();
    lemma_with_dots_is_word(a, dots);
    lemma_words_of_word(p);
    lemma_words_append(p, a + dots);
    let parts = words(p + seq![' '] + (a + dots));
    assert(parts.len() == 2 && parts[0] == p && parts[1] == a + dots);
    law_cutting_runs(a, dots, '.');
    lemma_lower_joined(p, a);
}

proof fn lemma_srv_form(
    kind: Seq<char>,
    p: Seq<char>,
    w: Seq<char>,
    o: Seq<char>,
    a: Seq<char>,
    dots: Seq<char>,
)
    requires
        upper(kind) == "SRV"@,
        is_word(p),
        is_word(w),
        is_word(o),
        is_word(a),
        a[a.len() - 1] != '.',
        is_run(dots, '.'),
    ensures
        canonical(kind, p + seq![' '] + w + seq![' '] + o + seq![' '] + (a + dots)) == lower(p)
            + seq![' '] + (lower(w) + seq![' '] + (lower(o) + seq![' '] + lower(a))),
{
    lemma_types_differ();
    lemma_with_dots_is_word(a, dots);
    lemma_words_of_word(p);
    lemma_words_append(p, w);
    lemma_words_append(p + seq![' '] + w, o);
    lemma_words_append(p + seq![' '] + w + seq![' '] + o, a + dots);
    let target = p + seq![' '] + w + seq![' '] + o + seq![' '] + (a + dots);
    let parts = words(target);
    assert(parts.len() == 4 && parts[0] == p && parts[1] == w && parts[2] == o && parts[3] == a
        + dots);
    law_cutting_runs(a, dots, '.');
    lemma_lower_joined(p, w);
    lemma_lower_joined(p + seq![' '] + w, o);
    lemma_lower_joined(p + seq![' '] + w + seq![' '] + o, a);
    assert(lower(p) + seq![' '] + lower(w) + seq![' '] + lower(o) + seq![' '] + lower(a)
        =~= lower(p) + seq![' '] + (lower(w) + seq![' '] + (lower(o) + seq![' '] + lower(a))));
}

/// The targets of two services compare as the same if all four of their words are the
/// same but for case, and for dots at the end of the host.
pub proof fn law_services_compare(
    kind: Seq<char>,
    a: (Seq<char>, Seq<char>, Seq<char>, Seq<char>),
    b: (Seq<char>, Seq<char>, Seq<char>, Seq<char>),
    dots_a: Seq<char>,
    dots_b: Seq<char>,
)
    requires
        upper(kind) == "SRV"@,
        is_word(a.0) && is_word(a.1) && is_word(a.2) && is_word(a.3),
        is_word(b.0) && is_word(b.1) && is_word(b.2) && is_word(b.3),
        a.3[a.3.len() - 1] != '.',
        b.3[b.3.len() - 1] != '.',
        is_run(dots_a, '.'),
        is_run(dots_b, '.'),
    ensures
        canonical(
            kind,
            a.0 + seq![' '] + a.1 + seq![' '] + a.2 + seq![' '] + (a.3 + dots_a),
        ) == canonical(
            kind,
            b.0 + seq![' '] + b.1 + seq![' '] + b.2 + seq![' '] + (b.3 + dots_b),
        ) <==> {
            &&& is_same_but_for_case(a.0, b.0)
            &&& is_same_but_for_case(a.1, b.1)
            &&& is_same_but_for_case(a.2, b.2)
            &&& is_same_but_for_case(a.3, b.3)
        },
{
    lemma_srv_form(kind, a.0, a.1, a.2, a.3, dots_a);
    lemma_srv_form(kind, b.0, b.1, b.2, b.3, dots_b);
    lemma_same_but_for_case(a.0, b.0);
    lemma_same_but_for_case(a.1, b.1);
    lemma_same_but_for_case(a.2, b.2);
    lemma_same_but_for_case(a.3, b.3);
    lemma_word_has_no_space(a.0);
    lemma_word_has_no_space(a.1);
    lemma_word_has_no_space(a.2);
    lemma_word_has_no_space(b.0);
    lemma_word_has_no_space(b.1);
    lemma_word_has_no_space(b.2);
    let z = lower(a.2) + seq![' '] + lower(a.3);
    let v = lower(b.2) + seq![' '] + lower(b.3);
    let y = lower(a.1) + seq![' '] + z;
    let u = lower(b.1) + seq![' '] + v;
    if lower(a.0) + seq![' '] + y == lower(b.0) + seq![' '] + u {
        lemma_space_separates(lower(a.0), y, lower(b.0), u);
        lemma_space_separates(lower(a.1), z, lower(b.1), v);
        lemma_space_separates(lower(a.2), lower(a.3), lower(b.2), lower(b.3));
    }
}

/// The case of a type does not change how targets are compared.
pub proof fn law_comparing_ignores_the_case_of_types(a: Seq<char>, b: Seq<char>, target: Seq<char>)
    requires
        is_same_but_for_case(a, b),
    ensures
        canonical(a, target) == canonical(b, target),
{
    assert forall|i: int| 0 <= i < a.len() implies #[trigger] upper(a)[i] == upper(b)[i] by {
        assert(is_same_letter(a[i], b[i]));
        law_case(a, i);
        law_case(b, i);
    }
    assert(upper(a) =~= upper(b));
}

/// Another TTL is wanted if one is asked for and there is another, larger or smaller
/// or none at all, and only then.
pub proof fn law_another_ttl_is_wanted(current: EndpointModel, desired: EndpointModel)
    ensures
        desired.record_ttl <= 0 ==> !wants_other_ttl(current, desired),
        current.record_ttl == desired.record_ttl ==> !wants_other_ttl(current, desired),
        0 < desired.record_ttl < current.record_ttl ==> wants_other_ttl(current, desired),
        0 < desired.record_ttl && current.record_ttl < desired.record_ttl ==> wants_other_ttl(
            current,
            desired,
        ),
{
}

// ---------------------------------------------------------------------------
// Zones
// ---------------------------------------------------------------------------

/// A zone is found for a name wherever it stands in the list, if the name lies in it
/// and in no longer one, and in none of the same length behind it.
pub proof fn law_the_longest_zone_is_found(zones: Seq<Seq<char>>, name: Seq<char>, k: int)
    requires
        0 <= k < zones.len(),
        normalized(name) == normalized(zones[k]) || exists|f: Seq<char>|
            normalized(name) == #[trigger] (f + seq!['.']) + normalized(zones[k]),
        forall|i: int|
            0 <= i < zones.len() && lies_in(name, #[trigger] zones[i]) ==> byte_len(zones[i])
                < byte_len(zones[k]) || (byte_len(zones[i]) == byte_len(zones[k]) && i <= k),
    ensures
        best_zone(zones, name) == Some(zones[k]),
    decreases zones.len(),
{
    if normalized(name) != normalized(zones[k]) {
        let f = choose|f: Seq<char>|
            normalized(name) == #[trigger] (f + seq!['.']) + normalized(zones[k]);
        law_lying_in_a_zone(normalized(name), normalized(zones[k]), f);
    } else {
        law_lying_in_a_zone(normalized(name), normalized(zones[k]), Seq::empty());
    }
    assert(lies_in(name, zones[k]));
    let front = zones.drop_last();
    let n = zones.len() - 1;
    assert(forall|i: int| 0 <= i < front.len() ==> #[trigger] front[i] == zones[i]);
    if k < n {
        assert forall|i: int|
            0 <= i < front.len() && lies_in(name, #[trigger] front[i]) implies byte_len(front[i])
            < byte_len(front[k]) || (byte_len(front[i]) == byte_len(front[k]) && i <= k) by {
            assert(front[i] == zones[i]);
            assert(front[k] == zones[k]);
        }
        law_the_longest_zone_is_found(front, name, k);
        assert(zones[n] == zones.last());
    } else {
        crate::targets::law_best_zone(front, name);
        if let Some(zone) = best_zone(front, name) {
            let i = choose|i: int| 0 <= i < front.len() && front[i] == zone;
            assert(lies_in(name, zones[i]));
        }
    }
}

// ---------------------------------------------------------------------------
// Writing a record
// ---------------------------------------------------------------------------

/// What is written for a target has the type of the endpoint, in upper case, and its
/// TTL if it asks for one. It names the owner by its normal form, unless the owner is
/// the zone itself.
pub proof fn law_a_record_is_written_field_by_field(
    endpoint: EndpointModel,
    target: Seq<char>,
    zone: Seq<char>,
)
    requires
        change_of(endpoint, target, zone) is Ok,
        endpoint.record_ttl <= i64::MAX,
    ensures
        ({
            let change = change_of(endpoint, target, zone)->Ok_0;
            let kind = upper(trimmed(endpoint.record_type));
            &&& change.record_type == kind
            &&& endpoint.record_ttl > 0 ==> change.ttl is Some && change.ttl->0
                == endpoint.record_ttl
            &&& endpoint.record_ttl <= 0 ==> change.ttl is None
            &&& normalized(endpoint.dns_name) == normalized(zone) ==> change.subdomain is None
            &&& normalized(endpoint.dns_name) != normalized(zone) ==> change.subdomain == Some(
                normalized(endpoint.dns_name),
            )
            &&& change.priority is Some <==> kind == "MX"@ || kind == "SRV"@
        }),
{
    lemma_types_differ();
}

/// An address is written if it is one of the type that is asked for, and as it is. A
/// text is always written as it is, and an alias without dots at its end. No other
/// types are written than these and the two that have a priority.
pub proof fn law_plain_targets_are_written(
    endpoint: EndpointModel,
    core: Seq<char>,
    dots: Seq<char>,
    zone: Seq<char>,
)
    requires
        is_run(dots, '.'),
        core.len() == 0 || core[core.len() - 1] != '.',
    ensures
        ({
            let kind = upper(trimmed(endpoint.record_type));
            let target = core + dots;
            let change = change_of(endpoint, target, zone);
            &&& kind == "A"@ ==> (change is Ok <==> is_ipv4(target))
            &&& kind == "AAAA"@ ==> (change is Ok <==> is_ipv6(target) && !is_ipv4(target))
            &&& kind == "TXT"@ || kind == "CNAME"@ ==> change is Ok
            &&& (kind == "A"@ || kind == "AAAA"@ || kind == "TXT"@) && change is Ok
                ==> change->Ok_0.value == target
            &&& kind == "CNAME"@ ==> change->Ok_0.value == core
            &&& change is Ok ==> kind == "A"@ || kind == "AAAA"@ || kind == "TXT"@ || kind
                == "CNAME"@ || kind == "MX"@ || kind == "SRV"@
        }),
{
    law_cutting_runs(core, dots, '.');
    lemma_types_differ();
    reveal_strlit("A");
    reveal_strlit("AAAA");
    reveal_strlit("CNAME");
    assert("A"@.len() == 1 && "AAAA"@.len() == 4 && "CNAME"@.len() == 5);
}

/// A mail exchanger is written with its priority, and with its host without dots at
/// its end. Its target must be just a number of 16 bits and a host.
pub proof fn law_mail_exchangers_are_written(
    endpoint: EndpointModel,
    priority: u16,
    core: Seq<char>,
    dots: Seq<char>,
    zone: Seq<char>,
    target: Seq<char>,
)
    requires
        upper(trimmed(endpoint.record_type)) == "MX"@,
        is_word(core),
        core[core.len() - 1] != '.',
        is_run(dots, '.'),
    ensures
        ({
            let written = decimal(priority as nat) + seq![' '] + (core + dots);
            let change = change_of(endpoint, written, zone);
            &&& change is Ok
            &&& change->Ok_0.priority == Some(priority)
            &&& change->Ok_0.value == core
        }),
        change_of(endpoint, target, zone) is Ok <==> words(target).len() == 2 && u16_of(
            words(target)[0],
        ) is Some,
        change_of(endpoint, target, zone) matches Ok(change) ==> change.priority == u16_of(
            words(target)[0],
        ),
{
    lemma_types_differ();
    lemma_decimal_is_word(priority);
    lemma_with_dots_is_word(core, dots);
    let p = decimal(priority as nat);
    lemma_words_of_word(p);
    lemma_words_append(p, core + dots);
    let parts = words(p + seq![' '] + (core + dots));
    assert(parts.len() == 2 && parts[0] == p && parts[1] == core + dots);
    law_cutting_runs(core, dots, '.');
}

/// A service is written with its priority, and with its weight, its port and its host
/// without dots at the end as the value. Its target must be just three numbers of 16
/// bits and a host, its weight zero, and its name must start with the two labels of a
/// service.
pub proof fn law_services_are_written(
    endpoint: EndpointModel,
    priority: u16,
    port: u16,
    core: Seq<char>,
    dots: Seq<char>,
    zone: Seq<char>,
    target: Seq<char>,
)
    requires
        upper(trimmed(endpoint.record_type)) == "SRV"@,
        is_word(core),
        core[core.len() - 1] != '.',
        is_run(dots, '.'),
        service_labels(endpoint.dns_name, zone) is Ok,
    ensures
        ({
            let written = decimal(priority as nat) + seq![' '] + decimal(0) + seq![' '] + decimal(
                port as nat,
            ) + seq![' '] + (core + dots);
            let change = change_of(endpoint, written, zone);
            &&& change is Ok
            &&& change->Ok_0.priority == Some(priority)
            &&& change->Ok_0.value == decimal(0) + seq![' '] + decimal(port as nat) + seq![' ']
                + core
        }),
        change_of(endpoint, target, zone) is Ok <==> {
            &&& words(target).len() == 4
            &&& u16_of(words(target)[0]) is Some
            &&& u16_of(words(target)[1]) == Some(0u16)
            &&& u16_of(words(target)[2]) is Some
        },
{
    lemma_types_differ();
    lemma_decimal_is_word(priority);
    lemma_decimal_is_word(0);
    lemma_decimal_is_word(port);
    lemma_with_dots_is_word(core, dots);
    let p = decimal(priority as nat);
    let w = decimal(0);
    let o = decimal(port as nat);
    lemma_words_of_word(p);
    lemma_words_append(p, w);
    lemma_words_append(p + seq![' '] + w, o);
    lemma_words_append(p + seq![' '] + w + seq![' '] + o, core + dots);
    let written = p + seq![' '] + w + seq![' '] + o + seq![' '] + (core + dots);
    let parts = words(written);
    assert(parts.len() == 4 && parts[0] == p && parts[1] == w && parts[2] == o && parts[3] == core
        + dots);
    law_cutting_runs(core, dots, '.');
}

/// A service without its two labels is not written, whatever its target is.
pub proof fn law_services_need_their_labels(
    endpoint: EndpointModel,
    target: Seq<char>,
    zone: Seq<char>,
)
    requires
        upper(trimmed(endpoint.record_type)) == "SRV"@,
        service_labels(endpoint.dns_name, zone) is Err,
    ensures
        change_of(endpoint, target, zone) is Err,
{
    lemma_types_differ();
}

/// The labels of a service are the first two of its name in front of the zone, and
/// each must start with an underscore.
pub proof fn law_service_labels(
    dns_name: Seq<char>,
    zone: Seq<char>,
    service: Seq<char>,
    protocol: Seq<char>,
    rest: Seq<char>,
)
    requires
        is_free_of(service, '.'),
        is_free_of(protocol, '.'),
        normalized(dns_name) == service + seq!['.'] + protocol + seq!['.'] + rest,
        rest == normalized(zone) || exists|f: Seq<char>|
            rest == #[trigger] (f + seq!['.']) + normalized(zone),
    ensures
        service_labels(dns_name, zone) is Ok <==> service.len() > 0 && service[0] == '_'
            && protocol.len() > 0 && protocol[0] == '_',
        service_labels(dns_name, zone) matches Ok(labels) ==> labels == (service, protocol),
{
    let name = normalized(dns_name);
    let own = normalized(zone);
    let front = service + seq!['.'] + protocol;
    let relative = if rest == own {
        front
    } else {
        let f = choose|f: Seq<char>| rest == #[trigger] (f + seq!['.']) + own;
        front + seq!['.'] + f
    };
    assert(name =~= relative + seq!['.'] + own) by {
        if rest != own {
            let f = choose|f: Seq<char>| rest == #[trigger] (f + seq!['.']) + own;
            assert(name =~= front + seq!['.'] + rest);
            assert(front + seq!['.'] + ((f + seq!['.']) + own) =~= (front + seq!['.'] + f)
                + seq!['.'] + own);
        }
    }
    let ending = crate::names::dotted(own);
    assert(ending =~= name.subrange(name.len() - ending.len(), name.len() as int));
    assert(relative_part(name, own) =~= relative);
    law_splitting(service, protocol, '.');
    law_splitting(protocol, Seq::empty(), '.');
    assert(split_on(front, '.') =~= seq![service, protocol]);
    if rest != own {
        let f = choose|f: Seq<char>| rest == #[trigger] (f + seq!['.']) + own;
        law_splitting(front, f, '.');
        assert(split_on(relative, '.')[0] == service);
        assert(split_on(relative, '.')[1] == protocol);
        assert(split_on(relative, '.').len() >= 2);
    }
}

/// What is said of an address or a mail exchanger that cannot be written ends with the
/// target, and so it is for a service if its own target is at fault. What is said of an
/// answered record that lacks a field names its type first.
pub proof fn law_refused_targets_are_named(
    endpoint: EndpointModel,
    target: Seq<char>,
    zone: Seq<char>,
    data: DataModel,
)
    ensures
        ({
            let kind = upper(trimmed(endpoint.record_type));
            &&& kind == "A"@ || kind == "AAAA"@ || kind == "MX"@ ==> (change_of(
                endpoint,
                target,
                zone,
            ) matches Err(message) ==> target.is_suffix_of(message))
            &&& kind == "SRV"@ ==> (srv_target(target) matches Err(message)
                ==> target.is_suffix_of(message) && change_of(endpoint, target, zone) == Err::<
                ChangeModel,
                Seq<char>,
            >(message))
            &&& kind == "MX"@ || kind == "SRV"@ || kind == "A"@ || kind == "TXT"@ ==> (data.value
                is None ==> target_of(kind, data) is Err && kind.is_prefix_of(
                target_of(kind, data)->Err_0,
            ))
        }),
{
    lemma_types_differ();
    let kind = upper(trimmed(endpoint.record_type));
    let told = target_of(kind, data);
    if data.value is None && told is Err {
        let value = " DNS record has no "@ + "value"@ + " field"@;
        let priority = " DNS record has no "@ + "priority"@ + " field"@;
        assert(kind + " DNS record has no "@ + "value"@ + " field"@ =~= kind + value);
        assert(kind + " DNS record has no "@ + "priority"@ + " field"@ =~= kind + priority);
    }
}

} // verus!
