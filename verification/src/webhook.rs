//! The webhook that ExternalDNS calls: which requests are taken, how each is
//! counted, and what it is answered.
use crate::domain_filter::{is_payload_list, DomainFilterPayload};
use crate::metrics::{one_more, Counters, Metrics};
use crate::model::{Changes, Endpoint};
use crate::provider::{Provider, ProviderError, ProviderErrorModel};
use crate::text::{
    is_bare, is_blank, is_free_of, is_whitespace, join, law_splitting, law_trimming, opt_text,
    same_text, split, split_on, starts_with, texts, trim, trimmed,
};
use vstd::prelude::*;
use vstd::string::*;

verus! {

/// The media type of the webhook protocol.
pub const MEDIA_TYPE: &'static str = "application/external.dns.webhook+json;version=1";

// ---------------------------------------------------------------------------
// Errors
// ---------------------------------------------------------------------------

/// An answer that reports an error.
#[derive(Debug)]
pub struct WebhookError {
    pub status: u16,
    pub message: String,
}

/// An error answer by its status and text.
pub struct RefusalModel {
    pub status: u16,
    pub message: Seq<char>,
}

impl View for WebhookError {
    type V = RefusalModel;

    open spec fn view(&self) -> RefusalModel {
        RefusalModel { status: self.status, message: self.message@ }
    }
}

/// The answer to a failure of the provider.
pub open spec fn refusal_of(error: ProviderErrorModel) -> RefusalModel {
    RefusalModel { status: error.status(), message: error.text() }
}

impl WebhookError {
    /// The request makes no sense.
    pub fn bad_request(message: String) -> (r: WebhookError)
        ensures
            r@ == (RefusalModel { status: 400, message: message@ }),
    {
        WebhookError { status: 400, message }
    }

    /// The answer would be of a type that is not asked for.
    pub fn not_acceptable(message: String) -> (r: WebhookError)
        ensures
            r@ == (RefusalModel { status: 406, message: message@ }),
    {
        WebhookError { status: 406, message }
    }

    /// The request is of a type that is not known.
    pub fn unsupported_media_type(message: String) -> (r: WebhookError)
        ensures
            r@ == (RefusalModel { status: 415, message: message@ }),
    {
        WebhookError { status: 415, message }
    }

    /// The answer to a failure of the provider. Its status is an error status.
    pub fn from_provider(error: ProviderError) -> (r: WebhookError)
        ensures
            r@ == refusal_of(error@),
            400 <= r.status < 600,
    {
        WebhookError { status: error.http_status(), message: error.message() }
    }
}

// ---------------------------------------------------------------------------
// Headers
// ---------------------------------------------------------------------------

/// A byte that a header may hold as text: visible ASCII, the space and the tab.
pub open spec fn is_header_byte(b: u8) -> bool {
    32 <= b < 127 || b == 9
}

/// The text of a header, where all of its bytes are text.
pub open spec fn header_text(bytes: Seq<u8>) -> Option<Seq<char>> {
    if forall|i: int| 0 <= i < bytes.len() ==> is_header_byte(#[trigger] bytes[i]) {
        Some(Seq::new(bytes.len(), |i: int| bytes[i] as char))
    } else {
        None
    }
}

/// Reads a header as text.
pub fn read_header(bytes: &[u8]) -> (r: Option<String>)
    ensures
        opt_text(r) == header_text(bytes@),
{
    let mut text = String::new();
    let mut i: usize = 0;
    let ghost whole = Seq::new(bytes@.len(), |i: int| bytes@[i] as char);
    while i < bytes.len()
        invariant
            i <= bytes.len(),
            whole == Seq::new(bytes@.len(), |i: int| bytes@[i] as char),
            forall|j: int| 0 <= j < i ==> is_header_byte(#[trigger] bytes@[j]),
            text@ =~= whole.take(i as int),
        decreases bytes.len() - i,
    {
        let b: u8 = bytes[i];
        if !((32 <= b && b < 127) || b == 9) {
            assert(!is_header_byte(bytes@[i as int]));
            return None;
        }
        text.push(b as char);
        i += 1;
    }
    assert(text@ =~= whole);
    Some(text)
}

/// What is wrong with the `Accept` header of a request: it must ask for the media
/// type of the protocol, alone or in a list, if it is there.
pub open spec fn accept_error(header: Option<Seq<u8>>) -> Option<RefusalModel> {
    match header {
        None => None,
        Some(bytes) => match header_text(bytes) {
            None => Some(RefusalModel { status: 406, message: "invalid Accept header"@ }),
            Some(value) => if value == MEDIA_TYPE@ || exists|i: int|
                0 <= i < split_on(value, ',').len() && trimmed(#[trigger] split_on(value, ',')[i])
                    == MEDIA_TYPE@ {
                None
            } else {
                Some(
                    RefusalModel {
                        status: 406,
                        message: "unsupported Accept media type: "@ + value,
                    },
                )
            },
        },
    }
}

/// What is wrong with the `Content-Type` header of a request: it must be the media
/// type of the protocol, perhaps with more parameters, if it is there.
pub open spec fn content_type_error(header: Option<Seq<u8>>) -> Option<RefusalModel> {
    match header {
        None => None,
        Some(bytes) => match header_text(bytes) {
            None => Some(RefusalModel { status: 415, message: "invalid Content-Type header"@ }),
            Some(value) => if value == MEDIA_TYPE@ || (MEDIA_TYPE@ + ";"@).is_prefix_of(value) {
                None
            } else {
                Some(
                    RefusalModel {
                        status: 415,
                        message: "unsupported Content-Type media type: "@ + value,
                    },
                )
            },
        },
    }
}

/// An optional header as its bytes.
pub open spec fn opt_bytes(header: Option<&[u8]>) -> Option<Seq<u8>> {
    match header {
        Some(bytes) => Some(bytes@),
        None => None,
    }
}

/// Whether some item of a list with commas is the media type of the protocol.
fn lists_media_type(value: &str) -> (r: bool)
    ensures
        r == exists|i: int|
            0 <= i < split_on(value@, ',').len() && trimmed(#[trigger] split_on(value@, ',')[i])
                == MEDIA_TYPE@,
{
    let parts = split(value, ',');
    let ghost model = split_on(value@, ',');
    let mut i: usize = 0;
    assert(texts(parts@).len() == parts@.len());
    while i < parts.len()
        invariant
            i <= parts.len(),
            model == split_on(value@, ','),
            texts(parts@) == model,
            forall|j: int| 0 <= j < i ==> trimmed(#[trigger] model[j]) != MEDIA_TYPE@,
        decreases parts.len() - i,
    {
        assert(model[i as int] == parts@[i as int]@);
        if same_text(trim(parts[i].as_str()), MEDIA_TYPE) {
            return true;
        }
        i += 1;
    }
    false
}

/// Checks the `Accept` header of a request.
pub fn ensure_accept(header: Option<&[u8]>) -> (r: Result<(), WebhookError>)
    ensures
        match r {
            Ok(()) => accept_error(opt_bytes(header)) is None,
            Err(error) => accept_error(opt_bytes(header)) == Some(error@),
        },
{
    let bytes = match header {
        Some(bytes) => bytes,
        None => return Ok(()),
    };
    let text = match read_header(bytes) {
        Some(text) => text,
        None => return Err(WebhookError::not_acceptable("invalid Accept header".to_owned())),
    };
    let value = text.as_str();
    if same_text(value, MEDIA_TYPE) || lists_media_type(value) {
        Ok(())
    } else {
        Err(WebhookError::not_acceptable(join("unsupported Accept media type: ", value)))
    }
}

/// Checks the `Content-Type` header of a request.
pub fn ensure_content_type(header: Option<&[u8]>) -> (r: Result<(), WebhookError>)
    ensures
        match r {
            Ok(()) => content_type_error(opt_bytes(header)) is None,
            Err(error) => content_type_error(opt_bytes(header)) == Some(error@),
        },
{
    let bytes = match header {
        Some(bytes) => bytes,
        None => return Ok(()),
    };
    let text = match read_header(bytes) {
        Some(text) => text,
        None => return Err(
            WebhookError::unsupported_media_type("invalid Content-Type header".to_owned()),
        ),
    };
    let value = text.as_str();
    if same_text(value, MEDIA_TYPE) || starts_with(value, join(MEDIA_TYPE, ";").as_str()) {
        Ok(())
    } else {
        Err(
            WebhookError::unsupported_media_type(
                join("unsupported Content-Type media type: ", value),
            ),
        )
    }
}

// ---------------------------------------------------------------------------
// Requests
// ---------------------------------------------------------------------------

/// A result ends with the refusal, or without one where there is none.
pub open spec fn refused<T>(r: Result<T, WebhookError>, refusal: Option<RefusalModel>) -> bool {
    match r {
        Ok(_) => refusal is None,
        Err(error) => refusal == Some(error@),
    }
}

/// The counters after a request for the records began.
pub open spec fn records_begun(before: Counters, failed: bool) -> Counters {
    let counted = Counters { records_requests: one_more(before.records_requests), ..before };
    if failed {
        records_failed(counted)
    } else {
        counted
    }
}

/// The counters after a request for the records failed.
pub open spec fn records_failed(before: Counters) -> Counters {
    Counters { records_errors: one_more(before.records_errors), ..before }
}

/// The counters after a request to apply changes began.
pub open spec fn changes_begun(before: Counters, failed: bool) -> Counters {
    let counted = Counters { changes_requests: one_more(before.changes_requests), ..before };
    if failed {
        changes_failed(counted)
    } else {
        counted
    }
}

/// The counters after a request to apply changes failed.
pub open spec fn changes_failed(before: Counters) -> Counters {
    Counters { changes_errors: one_more(before.changes_errors), ..before }
}

/// The counters after a request to adjust endpoints began.
pub open spec fn adjust_begun(before: Counters, failed: bool) -> Counters {
    let counted = Counters { adjust_requests: one_more(before.adjust_requests), ..before };
    if failed {
        adjust_failed(counted)
    } else {
        counted
    }
}

/// The counters after a request to adjust endpoints failed.
pub open spec fn adjust_failed(before: Counters) -> Counters {
    Counters { adjust_errors: one_more(before.adjust_errors), ..before }
}

/// Tells ExternalDNS which domains are managed.
pub fn negotiate(provider: &Provider, accept: Option<&[u8]>) -> (r: Result<
    DomainFilterPayload,
    WebhookError,
>)
    ensures
        refused(r, accept_error(opt_bytes(accept))),
        r matches Ok(payload) ==> {
            let filter = provider@.domain_filter;
            &&& is_payload_list(texts(payload.included@), filter.included, filter.has_regex())
            &&& is_payload_list(texts(payload.excluded@), filter.excluded, filter.has_regex())
            &&& opt_text(payload.regex_include) == filter.regex_include
            &&& opt_text(payload.regex_exclude) == filter.regex_exclude
        },
{
    match ensure_accept(accept) {
        Ok(()) => Ok(provider.domain_filter().payload()),
        Err(error) => Err(error),
    }
}

/// Begins a request for the records.
pub fn begin_records(metrics: &mut Metrics, accept: Option<&[u8]>) -> (r: Result<(), WebhookError>)
    ensures
        refused(r, accept_error(opt_bytes(accept))),
        final(metrics)@ == records_begun(old(metrics)@, r is Err),
{
    metrics.inc_records_requests();
    match ensure_accept(accept) {
        Ok(()) => Ok(()),
        Err(error) => {
            metrics.inc_records_errors();
            Err(error)
        },
    }
}

/// Ends a request for the records with what the provider came to.
pub fn end_records(metrics: &mut Metrics, result: Result<Vec<Endpoint>, ProviderError>) -> (r:
    Result<Vec<Endpoint>, WebhookError>)
    ensures
        match result {
            Ok(list) => r matches Ok(answered) && answered == list && final(metrics)@ == old(
                metrics,
            )@,
            Err(failure) => {
                &&& r matches Err(error) && error@ == refusal_of(failure@)
                &&& final(metrics)@ == records_failed(old(metrics)@)
            },
        },
{
    match result {
        Ok(list) => Ok(list),
        Err(failure) => {
            metrics.inc_records_errors();
            Err(WebhookError::from_provider(failure))
        },
    }
}

/// Begins a request to apply changes.
pub fn begin_changes(metrics: &mut Metrics, content_type: Option<&[u8]>) -> (r: Result<
    (),
    WebhookError,
>)
    ensures
        refused(r, content_type_error(opt_bytes(content_type))),
        final(metrics)@ == changes_begun(old(metrics)@, r is Err),
{
    metrics.inc_changes_requests();
    match ensure_content_type(content_type) {
        Ok(()) => Ok(()),
        Err(error) => {
            metrics.inc_changes_errors();
            Err(error)
        },
    }
}

/// Takes the changes of a request, or what is wrong with its body.
pub fn changes_payload(metrics: &mut Metrics, decoded: Result<Changes, String>) -> (r: Result<
    Changes,
    WebhookError,
>)
    ensures
        match decoded {
            Ok(changes) => r matches Ok(taken) && taken == changes && final(metrics)@ == old(
                metrics,
            )@,
            Err(message) => {
                &&& r matches Err(error) && error@ == (RefusalModel {
                    status: 400,
                    message: "invalid changes payload: "@ + message@,
                })
                &&& final(metrics)@ == changes_failed(old(metrics)@)
            },
        },
{
    match decoded {
        Ok(changes) => Ok(changes),
        Err(message) => {
            metrics.inc_changes_errors();
            Err(WebhookError::bad_request(join("invalid changes payload: ", message.as_str())))
        },
    }
}

/// Ends a request to apply changes with what the provider came to: where it
/// succeeded there is nothing to say.
pub fn end_changes(metrics: &mut Metrics, result: Result<(), ProviderError>) -> (r: Result<
    u16,
    WebhookError,
>)
    ensures
        match result {
            Ok(()) => r matches Ok(status) && status == 204 && final(metrics)@ == old(metrics)@,
            Err(failure) => {
                &&& r matches Err(error) && error@ == refusal_of(failure@)
                &&& final(metrics)@ == changes_failed(old(metrics)@)
            },
        },
{
    match result {
        Ok(()) => Ok(204),
        Err(failure) => {
            metrics.inc_changes_errors();
            Err(WebhookError::from_provider(failure))
        },
    }
}

/// The first of two refusals that there is.
pub open spec fn first_refusal(a: Option<RefusalModel>, b: Option<RefusalModel>) -> Option<
    RefusalModel,
> {
    if a is Some {
        a
    } else {
        b
    }
}

/// Begins a request to adjust endpoints.
pub fn begin_adjust(
    metrics: &mut Metrics,
    accept: Option<&[u8]>,
    content_type: Option<&[u8]>,
) -> (r: Result<(), WebhookError>)
    ensures
        refused(
            r,
            first_refusal(
                accept_error(opt_bytes(accept)),
                content_type_error(opt_bytes(content_type)),
            ),
        ),
        final(metrics)@ == adjust_begun(old(metrics)@, r is Err),
{
    metrics.inc_adjust_requests();
    match ensure_accept(accept) {
        Ok(()) => {},
        Err(error) => {
            metrics.inc_adjust_errors();
            return Err(error);
        },
    }
    match ensure_content_type(content_type) {
        Ok(()) => Ok(()),
        Err(error) => {
            metrics.inc_adjust_errors();
            Err(error)
        },
    }
}

/// Ends a request to adjust endpoints: they are answered as the provider would
/// have them, or what is wrong with the body.
pub fn end_adjust(
    metrics: &mut Metrics,
    provider: &Provider,
    decoded: Result<Vec<Endpoint>, String>,
) -> (r: Result<Vec<Endpoint>, WebhookError>)
    ensures
        match decoded {
            Ok(list) => r matches Ok(answered) && answered == list && final(metrics)@ == old(
                metrics,
            )@,
            Err(message) => {
                &&& r matches Err(error) && error@ == (RefusalModel {
                    status: 400,
                    message: "invalid endpoints payload: "@ + message@,
                })
                &&& final(metrics)@ == adjust_failed(old(metrics)@)
            },
        },
{
    match decoded {
        Ok(list) => Ok(provider.adjust_endpoints(list)),
        Err(message) => {
            metrics.inc_adjust_errors();
            Err(WebhookError::bad_request(join("invalid endpoints payload: ", message.as_str())))
        },
    }
}

// ---------------------------------------------------------------------------
// Laws
// ---------------------------------------------------------------------------

/// However a request ends, no operation has failed more often than it was asked
/// for, as long as the counters have not reached the end of their range.
pub proof fn law_counters_stay_consistent(before: Counters, refused: bool)
    requires
        before.consistent(),
        before.records_requests < u64::MAX,
        before.changes_requests < u64::MAX,
        before.adjust_requests < u64::MAX,
    ensures
        records_begun(before, refused).consistent(),
        changes_begun(before, refused).consistent(),
        adjust_begun(before, refused).consistent(),
        records_failed(records_begun(before, false)).consistent(),
        changes_failed(changes_begun(before, false)).consistent(),
        adjust_failed(adjust_begun(before, false)).consistent(),
{
}

/// A request with a header that does not fit is refused with the status for that
/// header, and one without headers is not refused.
pub proof fn law_headers_decide(header: Option<Seq<u8>>)
    ensures
        accept_error(header) matches Some(refusal) ==> refusal.status == 406,
        content_type_error(header) matches Some(refusal) ==> refusal.status == 415,
        header is None ==> accept_error(header) is None && content_type_error(header) is None,
{
}

/// A header is read as text, byte by byte, if it is visible ASCII, blanks and tabs,
/// and else it is not.
pub proof fn law_headers_are_read(bytes: Seq<u8>)
    ensures
        header_text(bytes) is Some <==> forall|i: int|
            0 <= i < bytes.len() ==> 32 <= (#[trigger] bytes[i]) <= 126 || bytes[i] == 9,
        header_text(bytes) matches Some(text) ==> text.len() == bytes.len() && forall|i: int|
            0 <= i < bytes.len() ==> (#[trigger] text[i]) as u32 == bytes[i] as u32,
{
    if forall|i: int|
        0 <= i < bytes.len() ==> 32 <= (#[trigger] bytes[i]) <= 126 || bytes[i] == 9 {
        assert forall|i: int| 0 <= i < bytes.len() implies is_header_byte(#[trigger] bytes[i]) by {
            assert(32 <= bytes[i] <= 126 || bytes[i] == 9);
        }
    }
    if let Some(text) = header_text(bytes) {
        assert forall|i: int| 0 <= i < bytes.len() implies 32 <= (#[trigger] bytes[i]) <= 126
            || bytes[i] == 9 by {
            assert(is_header_byte(bytes[i]));
        }
        assert forall|i: int| 0 <= i < bytes.len() implies (#[trigger] text[i]) as u32
            == bytes[i] as u32 by {
            lemma_byte_as_char(bytes[i]);
        }
    }
}

proof fn lemma_byte_as_char(b: u8)
    ensures
        (b as char) as u32 == b as u32,
{
}

/// The media type of the protocol is found in a list with commas wherever it stands,
/// with or without white space around it.
pub proof fn law_the_media_type_is_accepted_in_any_place(
    bytes: Seq<u8>,
    a: Seq<char>,
    b: Seq<char>,
    front: Seq<char>,
    back: Seq<char>,
)
    requires
        is_blank(front),
        is_blank(back),
        ({
            let item = front + MEDIA_TYPE@ + back;
            ||| header_text(bytes) == Some(item)
            ||| header_text(bytes) == Some(item + seq![','] + b)
            ||| header_text(bytes) == Some(a + seq![','] + item)
            ||| header_text(bytes) == Some(a + seq![','] + item + seq![','] + b)
        }),
    ensures
        accept_error(Some(bytes)) is None,
{
    let item = front + MEDIA_TYPE@ + back;
    let value = header_text(bytes)->0;
    lemma_media_type();
    law_trimming(front, MEDIA_TYPE@, back);
    assert(is_free_of(item, ',')) by {
        assert forall|i: int| 0 <= i < item.len() implies #[trigger] item[i] != ',' by {
            if i < front.len() {
                assert(is_whitespace(front[i]));
            } else if i < front.len() + MEDIA_TYPE@.len() {
                assert(item[i] == MEDIA_TYPE@[i - front.len()]);
            } else {
                assert(is_whitespace(back[i - front.len() - MEDIA_TYPE@.len()]));
            }
        }
    }
    law_splitting(item, b, ',');
    law_splitting(a, item, ',');
    law_splitting(a + seq![','] + item, b, ',');
    let x = split_on(a, ',');
    let parts = split_on(value, ',');
    assert(split_on(item, ',') == seq![item]);
    let k: int = if value == item || value == item + seq![','] + b {
        0
    } else {
        x.len() as int
    };
    assert(parts[k] == item);
    assert(0 <= k < parts.len());
    assert(trimmed(parts[k]) == MEDIA_TYPE@);
}

/// The media type of the protocol has no comma in it and no white space around it.
proof fn lemma_media_type()
    ensures
        is_free_of(MEDIA_TYPE@, ','),
        is_bare(MEDIA_TYPE@),
{
    reveal_strlit("application/external.dns.webhook+json;version=1");
}

/// A list in which no item is the media type of the protocol is not accepted, nor is
/// a header that cannot be read.
pub proof fn law_other_media_types_are_not_accepted(bytes: Seq<u8>)
    requires
        header_text(bytes) matches Some(value) ==> value != MEDIA_TYPE@ && forall|i: int|
            0 <= i < split_on(value, ',').len() ==> trimmed(#[trigger] split_on(value, ',')[i])
                != MEDIA_TYPE@,
    ensures
        accept_error(Some(bytes)) matches Some(refusal) && refusal.status == 406,
{
}

/// The media type of the protocol is a content type that is taken, alone or with a
/// semicolon and anything behind it; no other is.
pub proof fn law_content_types_are_checked(bytes: Seq<u8>, rest: Seq<char>)
    ensures
        header_text(bytes) == Some(MEDIA_TYPE@) ==> content_type_error(Some(bytes)) is None,
        header_text(bytes) == Some(MEDIA_TYPE@ + seq![';'] + rest) ==> content_type_error(Some(bytes))
            is None,
        header_text(bytes) is None ==> content_type_error(Some(bytes)) is Some,
        content_type_error(Some(bytes)) is None && header_text(bytes) != Some(MEDIA_TYPE@)
            ==> exists|r: Seq<char>| header_text(bytes) == Some(#[trigger] (MEDIA_TYPE@ + seq![';'] + r)),
{
    reveal_strlit(";");
    assert(";"@ =~= seq![';']);
    let start = MEDIA_TYPE@ + ";"@;
    let whole = MEDIA_TYPE@ + seq![';'] + rest;
    assert(start =~= whole.subrange(0, start.len() as int));
    if content_type_error(Some(bytes)) is None && header_text(bytes) != Some(MEDIA_TYPE@) {
        let value = header_text(bytes)->0;
        assert(start.is_prefix_of(value));
        let r = value.skip(start.len() as int);
        assert(value =~= MEDIA_TYPE@ + seq![';'] + r) by {
            assert(start == value.subrange(0, start.len() as int));
            assert(value =~= start + r);
        }
    }
}

/// A request counts as one request of its kind, and as one error of its kind if it
/// fails; nothing else is counted.
pub proof fn law_requests_are_counted(before: Counters)
    requires
        before.records_requests < u64::MAX,
        before.changes_requests < u64::MAX,
        before.adjust_requests < u64::MAX,
        before.records_errors < u64::MAX,
        before.changes_errors < u64::MAX,
        before.adjust_errors < u64::MAX,
    ensures
        is_counted(before, records_begun(before, false), 1, 0, 0, 0, 0, 0),
        is_counted(before, records_begun(before, true), 1, 1, 0, 0, 0, 0),
        is_counted(before, records_failed(before), 0, 1, 0, 0, 0, 0),
        is_counted(before, changes_begun(before, false), 0, 0, 1, 0, 0, 0),
        is_counted(before, changes_begun(before, true), 0, 0, 1, 1, 0, 0),
        is_counted(before, changes_failed(before), 0, 0, 0, 1, 0, 0),
        is_counted(before, adjust_begun(before, false), 0, 0, 0, 0, 1, 0),
        is_counted(before, adjust_begun(before, true), 0, 0, 0, 0, 1, 1),
        is_counted(before, adjust_failed(before), 0, 0, 0, 0, 0, 1),
{
}

/// The counters went up by so much each: requests and errors for records, changes and
/// adjustments.
pub open spec fn is_counted(
    before: Counters,
    after: Counters,
    records: int,
    records_errors: int,
    changes: int,
    changes_errors: int,
    adjust: int,
    adjust_errors: int,
) -> bool {
    &&& after.records_requests == before.records_requests + records
    &&& after.records_errors == before.records_errors + records_errors
    &&& after.changes_requests == before.changes_requests + changes
    &&& after.changes_errors == before.changes_errors + changes_errors
    &&& after.adjust_requests == before.adjust_requests + adjust
    &&& after.adjust_errors == before.adjust_errors + adjust_errors
}

/// Of two headers that are refused the first is reported, and a request is refused if
/// either is.
pub proof fn law_the_first_refusal_is_reported(a: Option<RefusalModel>, b: Option<RefusalModel>)
    ensures
        a is Some ==> first_refusal(a, b) == a,
        a is None ==> first_refusal(a, b) == b,
{
}

/// A failure of the provider is answered with its status and its words.
pub proof fn law_failures_are_reported(error: ProviderErrorModel)
    ensures
        refusal_of(error).status == error.status(),
        refusal_of(error).message == error.text(),
{
}

} // verus!
