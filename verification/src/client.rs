//! The client of the Timeweb Cloud API: the requests that it makes, and what it
//! makes of the answers.
use crate::names::{normalize_name, normalized};
use crate::numbers::{decimal, push_decimal};
use crate::outside::{
    add_url_pair, clear_url_fragment, clear_url_query, last_position, pair_fits, path_bytes,
    path_fits, read_url, set_url_path, url_of, url_with_pair, url_with_path, url_without_fragment,
    url_without_query, UrlModel, UrlParts,
};
use crate::text::{
    count_bytes, is_run, join, law_cutting_runs, opt_text, trim_trailing, width, without_trailing,
};
use crate::timeweb::{ChangeModel, DnsRecordChange, TimewebError, TimewebErrorModel};
use vstd::prelude::*;
use vstd::string::*;

verus! {

// ---------------------------------------------------------------------------
// Client and requests
// ---------------------------------------------------------------------------

impl UrlParts {
    /// Reads a URL.
    pub fn parse(text: &str) -> (r: Result<UrlParts, url::ParseError>)
        ensures
            match r {
                Ok(parts) => url_of(text@) == Ok::<UrlModel, url::ParseError>(parts@),
                Err(error) => url_of(text@) == Err::<UrlModel, url::ParseError>(error),
            },
    {
        read_url(text)
    }
}

impl Clone for UrlParts {
    fn clone(&self) -> (r: UrlParts)
        ensures
            r@ == self@,
    {
        UrlParts {
            href: self.href.clone(),
            scheme: self.scheme.clone(),
            host: copy_opt(&self.host),
            path: self.path.clone(),
            query: copy_opt(&self.query),
            fragment: copy_opt(&self.fragment),
        }
    }
}

fn copy_opt(value: &Option<String>) -> (r: Option<String>)
    ensures
        crate::text::opt_text(r) == crate::text::opt_text(*value),
{
    match value {
        Some(text) => Some(text.clone()),
        None => None,
    }
}

/// How long a request may take.
#[derive(Clone, Copy, Debug, PartialEq, Eq, Structural)]
pub struct HttpTimeout {
    pub secs: u64,
    pub nanos: u32,
}

/// The client: where the API is, the token that requests are made with, and how
/// long they may take.
pub struct TimewebClient {
    base_url: UrlParts,
    token: String,
    timeout: HttpTimeout,
}

/// A client by the values it holds.
pub struct ClientModel {
    pub base_url: UrlModel,
    pub token: Seq<char>,
    pub timeout: HttpTimeout,
}

impl View for TimewebClient {
    type V = ClientModel;

    closed spec fn view(&self) -> ClientModel {
        ClientModel { base_url: self.base_url@, token: self.token@, timeout: self.timeout }
    }
}

impl Clone for TimewebClient {
    fn clone(&self) -> (r: TimewebClient)
        ensures
            r@ == self@,
    {
        TimewebClient {
            base_url: self.base_url.clone(),
            token: self.token.clone(),
            timeout: self.timeout,
        }
    }
}

/// What a request does.
#[derive(Clone, Copy, Debug, PartialEq, Eq, Structural)]
pub enum Method {
    Get,
    Post,
    Patch,
    Delete,
}

/// A request to the API. It carries the token as its bearer.
#[derive(Debug)]
pub struct ApiRequest {
    pub method: Method,
    pub url: String,
    pub token: String,
    pub body: Option<DnsRecordChange>,
}

/// A request by the texts it holds.
pub struct RequestModel {
    pub method: Method,
    pub url: Seq<char>,
    pub token: Seq<char>,
    pub body: Option<ChangeModel>,
}

/// An optional written record by its model.
pub open spec fn opt_change(change: Option<DnsRecordChange>) -> Option<ChangeModel> {
    match change {
        Some(change) => Some(change@),
        None => None,
    }
}

impl View for ApiRequest {
    type V = RequestModel;

    open spec fn view(&self) -> RequestModel {
        RequestModel {
            method: self.method,
            url: self.url@,
            token: self.token@,
            body: opt_change(self.body),
        }
    }
}

// ---------------------------------------------------------------------------
// URLs
// ---------------------------------------------------------------------------

/// A URL that was edited; an error where there was none.
pub open spec fn edited(url: Option<Seq<char>>) -> Result<Seq<char>, TimewebErrorModel> {
    match url {
        Some(url) => Ok(url),
        None => Err(TimewebErrorModel::Url("not a URL"@)),
    }
}

/// A URL with another path, unless it is too long.
pub open spec fn placed_at(url: Seq<char>, path: Seq<char>) -> Result<Seq<char>, TimewebErrorModel> {
    if url_of(url) matches Ok(parts) && !path_fits(parts, path) {
        Err(TimewebErrorModel::Url("URL is too long"@))
    } else {
        edited(url_with_path(url, path))
    }
}

/// A URL with one more pair in its query, unless it is too long.
pub open spec fn paired_with(url: Seq<char>, key: Seq<char>, value: Seq<char>) -> Result<
    Seq<char>,
    TimewebErrorModel,
> {
    if url_of(url) matches Ok(parts) && !pair_fits(parts, key, value) {
        Err(TimewebErrorModel::Url("URL is too long"@))
    } else {
        edited(url_with_pair(url, key, value))
    }
}

/// A URL without query and fragment.
pub open spec fn bare(url: Seq<char>) -> Result<Seq<char>, TimewebErrorModel> {
    match edited(url_without_query(url)) {
        Ok(url) => edited(url_without_fragment(url)),
        Err(error) => Err(error),
    }
}

/// The path of a request: what the base URL has, without the slashes at its end,
/// and then the path of the API.
pub open spec fn full_path(base: UrlModel, path: Seq<char>) -> Seq<char> {
    without_trailing(base.path, '/') + path
}

/// The URL of a path of the API, without a query or a fragment.
pub open spec fn api_url_of(base: UrlModel, path: Seq<char>) -> Result<
    Seq<char>,
    TimewebErrorModel,
> {
    match placed_at(base.href, full_path(base, path)) {
        Ok(url) => bare(url),
        Err(error) => Err(error),
    }
}

/// The URL of one page of a list.
pub open spec fn page_url_of(
    url: Result<Seq<char>, TimewebErrorModel>,
    offset: u64,
) -> Result<Seq<char>, TimewebErrorModel> {
    match url {
        Ok(url) => match paired_with(url, "limit"@, "100"@) {
            Ok(url) => paired_with(url, "offset"@, decimal(offset as nat)),
            Err(error) => Err(error),
        },
        Err(error) => Err(error),
    }
}

/// The path of the records of a zone, or of one of them.
pub open spec fn records_path(zone: Seq<char>, id: Option<u64>) -> Seq<char> {
    let all = "/api/v1/domains/"@ + zone + "/dns-records"@;
    match id {
        Some(id) => all + "/"@ + decimal(id as nat),
        None => all,
    }
}

/// The URL of the records of a zone, or of one of them. `method` is for the
/// words of the error.
pub open spec fn record_url_of(
    base: UrlModel,
    method: Seq<char>,
    zone: Seq<char>,
    id: Option<u64>,
) -> Result<Seq<char>, TimewebErrorModel> {
    if normalized(zone).len() == 0 {
        Err(TimewebErrorModel::InvalidResponse("cannot use an empty owner FQDN for "@ + method))
    } else {
        api_url_of(base, records_path(normalized(zone), id))
    }
}

impl ClientModel {
    /// A request with a method and a body to a URL, unless there is none.
    pub open spec fn request(
        self,
        method: Method,
        url: Result<Seq<char>, TimewebErrorModel>,
        body: Option<ChangeModel>,
    ) -> Result<RequestModel, TimewebErrorModel> {
        match url {
            Ok(url) => Ok(RequestModel { method, url, token: self.token, body }),
            Err(error) => Err(error),
        }
    }

    /// The request for the domains from `offset` on.
    pub open spec fn domains_request(self, offset: u64) -> Result<RequestModel, TimewebErrorModel> {
        self.request(
            Method::Get,
            page_url_of(api_url_of(self.base_url, "/api/v1/domains"@), offset),
            None,
        )
    }

    /// The request for the records of a zone, in normal form, from `offset` on.
    pub open spec fn records_request(self, zone: Seq<char>, offset: u64) -> Result<
        RequestModel,
        TimewebErrorModel,
    > {
        self.request(
            Method::Get,
            page_url_of(api_url_of(self.base_url, records_path(zone, None)), offset),
            None,
        )
    }

    /// The request that creates a record in a zone.
    pub open spec fn create_request(self, zone: Seq<char>, change: ChangeModel) -> Result<
        RequestModel,
        TimewebErrorModel,
    > {
        self.request(
            Method::Post,
            record_url_of(self.base_url, "POST"@, zone, None),
            Some(change),
        )
    }

    /// The request that changes a record of a zone.
    pub open spec fn update_request(self, zone: Seq<char>, id: u64, change: ChangeModel) -> Result<
        RequestModel,
        TimewebErrorModel,
    > {
        self.request(
            Method::Patch,
            record_url_of(self.base_url, "PATCH"@, zone, Some(id)),
            Some(change),
        )
    }

    /// The request that deletes a record of a zone.
    pub open spec fn delete_request(self, zone: Seq<char>, id: u64) -> Result<
        RequestModel,
        TimewebErrorModel,
    > {
        self.request(
            Method::Delete,
            record_url_of(self.base_url, "DELETE"@, zone, Some(id)),
            None,
        )
    }
}

/// A result holds the URL or the error that the model says.
pub open spec fn is_url(
    r: Result<String, TimewebError>,
    model: Result<Seq<char>, TimewebErrorModel>,
) -> bool {
    match r {
        Ok(url) => model == Ok::<Seq<char>, TimewebErrorModel>(url@),
        Err(error) => model == Err::<Seq<char>, TimewebErrorModel>(error@),
    }
}

/// A result holds the request or the error that the model says.
pub open spec fn is_request(
    r: Result<ApiRequest, TimewebError>,
    model: Result<RequestModel, TimewebErrorModel>,
) -> bool {
    match r {
        Ok(request) => model == Ok::<RequestModel, TimewebErrorModel>(request@),
        Err(error) => model == Err::<RequestModel, TimewebErrorModel>(error@),
    }
}

fn too_long() -> (r: TimewebError)
    ensures
        r@ == TimewebErrorModel::Url("URL is too long"@),
{
    TimewebError::Url("URL is too long".to_owned())
}

fn not_a_url() -> (r: TimewebError)
    ensures
        r@ == TimewebErrorModel::Url("not a URL"@),
{
    TimewebError::Url("not a URL".to_owned())
}

fn edited_url(url: Option<String>) -> (r: Result<String, TimewebError>)
    ensures
        is_url(r, edited(opt_text(url))),
{
    match url {
        Some(url) => Ok(url),
        None => Err(not_a_url()),
    }
}

/// How many bytes a path takes at most once it is written.
fn count_path_bytes(path: &str) -> (r: u128)
    ensures
        r == path_bytes(path@),
        r <= 12 * usize::MAX,
{
    let len: usize = path.unicode_len();
    let mut n: u128 = 0;
    for c in iter: path.chars()
        invariant
            iter.seq() == path@,
            path@.len() == len,
            n == path_bytes(path@.take(iter.index() as int)),
            n <= 12 * iter.index(),
    {
        assert(path@.take(iter.index() + 1).drop_last() =~= path@.take(iter.index() as int));
        n += if '!' <= c && c <= '~' && c != '"' && c != '#' && c != '<' && c != '>' && c != '?'
            && c != '`' && c != '{' && c != '}' {
            1
        } else {
            3 * width(c)
        };
    }
    assert(path@.take(path@.len() as int) =~= path@);
    n
}

/// The bytes of a URL, and those from where the last of its query and fragment
/// starts.
fn count_last(url: &UrlParts) -> (r: (u128, u128))
    ensures
        r.0 - r.1 == last_position(url@),
        r.0 <= 4 * usize::MAX,
        r.1 <= 4 * usize::MAX + 1,
{
    let last: u128 = match (&url.fragment, &url.query) {
        (Some(fragment), _) => count_bytes(fragment.as_str()) + 1,
        (None, Some(query)) => count_bytes(query.as_str()) + 1,
        (None, None) => 0,
    };
    (count_bytes(url.href.as_str()), last)
}

/// Whether the positions in a URL stay within 32 bits if it gets another path.
fn path_fits_url(url: &UrlParts, path: &str) -> (r: bool)
    ensures
        r == path_fits(url@, path@),
{
    let (all, last) = count_last(url);
    let limit: u128 = 0xffff_ffff;
    let old_path: u128 = count_bytes(url.path.as_str());
    let new_path: u128 = count_path_bytes(path);
    all <= limit + last && all + new_path + 2 <= limit + last + old_path
}

/// Whether the positions in a URL stay within 32 bits if its query gets another pair.
fn pair_fits_url(url: &UrlParts, key: &str, value: &str) -> (r: bool)
    ensures
        r == pair_fits(url@, key@, value@),
{
    let (all, last) = count_last(url);
    let more: u128 = match &url.fragment {
        Some(_) => 3 * (count_bytes(key) + count_bytes(value)) + 3,
        None => 0,
    };
    all + more <= 0xffff_ffff + last
}

fn place_at(url: &str, path: &str) -> (r: Result<String, TimewebError>)
    ensures
        is_url(r, placed_at(url@, path@)),
{
    if let Ok(parts) = read_url(url) {
        if !path_fits_url(&parts, path) {
            return Err(too_long());
        }
    }
    edited_url(set_url_path(url, path))
}

fn add_pair(url: &str, key: &str, value: &str) -> (r: Result<String, TimewebError>)
    ensures
        is_url(r, paired_with(url@, key@, value@)),
{
    if let Ok(parts) = read_url(url) {
        if !pair_fits_url(&parts, key, value) {
            return Err(too_long());
        }
    }
    edited_url(add_url_pair(url, key, value))
}

/// The URL of one page of a list.
pub fn with_pagination(url: String, offset: u64) -> (r: Result<String, TimewebError>)
    ensures
        is_url(r, page_url_of(Ok(url@), offset)),
{
    let limited = match add_pair(url.as_str(), "limit", "100") {
        Ok(url) => url,
        Err(error) => return Err(error),
    };
    let mut number = String::new();
    push_decimal(&mut number, offset);
    assert(number@ =~= decimal(offset as nat));
    add_pair(limited.as_str(), "offset", number.as_str())
}

/// The path of the records of a zone, or of one of them.
fn path_of_records(zone: &str, id: Option<u64>) -> (r: String)
    ensures
        r@ == records_path(zone@, id),
{
    let mut path = join("/api/v1/domains/", zone);
    path.append("/dns-records");
    if let Some(id) = id {
        path.append("/");
        push_decimal(&mut path, id);
    }
    path
}

impl TimewebClient {
    /// A client for the API at `base_url`.
    pub fn new(base_url: UrlParts, token: &str, timeout: HttpTimeout) -> (r: TimewebClient)
        ensures
            r@ == (ClientModel { base_url: base_url@, token: token@, timeout }),
    {
        TimewebClient { base_url, token: token.to_owned(), timeout }
    }

    /// How long a request may take.
    pub fn timeout(&self) -> (r: HttpTimeout)
        ensures
            r == self@.timeout,
    {
        self.timeout
    }

    /// The URL of a path of the API.
    pub fn api_url(&self, path: &str) -> (r: Result<String, TimewebError>)
        ensures
            is_url(r, api_url_of(self@.base_url, path@)),
    {
        let whole = join(trim_trailing(self.base_url.path.as_str(), '/'), path);
        let placed = match place_at(self.base_url.href.as_str(), whole.as_str()) {
            Ok(url) => url,
            Err(error) => return Err(error),
        };
        let cleared = match edited_url(clear_url_query(placed.as_str())) {
            Ok(url) => url,
            Err(error) => return Err(error),
        };
        edited_url(clear_url_fragment(cleared.as_str()))
    }

    /// The URL of the records of a zone, or of one of them.
    pub fn dns_record_url(&self, method: &str, owner_fqdn: &str, record_id: Option<u64>) -> (r:
        Result<String, TimewebError>)
        ensures
            is_url(r, record_url_of(self@.base_url, method@, owner_fqdn@, record_id)),
    {
        let owner = normalize_name(owner_fqdn);
        if owner.as_str().is_empty() {
            return Err(
                TimewebError::InvalidResponse(join("cannot use an empty owner FQDN for ", method)),
            );
        }
        self.api_url(path_of_records(owner.as_str(), record_id).as_str())
    }

    /// A request with a method and a body to a URL, unless there is none.
    fn request(
        &self,
        method: Method,
        url: Result<String, TimewebError>,
        body: Option<DnsRecordChange>,
    ) -> (r: Result<ApiRequest, TimewebError>)
        ensures
            forall|model: Result<Seq<char>, TimewebErrorModel>| #[trigger]
                is_url(url, model) ==> is_request(
                    r,
                    self@.request(method, model, opt_change(body)),
                ),
    {
        match url {
            Ok(url) => Ok(ApiRequest { method, url, token: self.token.clone(), body }),
            Err(error) => Err(error),
        }
    }

    fn page_request(&self, path: &str, offset: u64) -> (r: Result<ApiRequest, TimewebError>)
        ensures
            is_request(
                r,
                self@.request(
                    Method::Get,
                    page_url_of(api_url_of(self@.base_url, path@), offset),
                    None,
                ),
            ),
    {
        let url = match self.api_url(path) {
            Ok(url) => with_pagination(url, offset),
            Err(error) => Err(error),
        };
        self.request(Method::Get, url, None)
    }

    /// The request for the domains from `offset` on.
    pub fn domains_request(&self, offset: u64) -> (r: Result<ApiRequest, TimewebError>)
        ensures
            is_request(r, self@.domains_request(offset)),
    {
        self.page_request("/api/v1/domains", offset)
    }

    /// The request for the records of a zone, in normal form, from `offset` on.
    pub fn records_request(&self, zone: &str, offset: u64) -> (r: Result<ApiRequest, TimewebError>)
        ensures
            is_request(r, self@.records_request(zone@, offset)),
    {
        self.page_request(path_of_records(zone, None).as_str(), offset)
    }

    /// The request that creates a record in a zone.
    pub fn create_record(&self, owner_fqdn: &str, change: DnsRecordChange) -> (r: Result<
        ApiRequest,
        TimewebError,
    >)
        ensures
            is_request(r, self@.create_request(owner_fqdn@, change@)),
    {
        let url = self.dns_record_url("POST", owner_fqdn, None);
        self.request(Method::Post, url, Some(change))
    }

    /// The request that changes a record of a zone.
    pub fn update_record(&self, owner_fqdn: &str, id: u64, change: DnsRecordChange) -> (r: Result<
        ApiRequest,
        TimewebError,
    >)
        ensures
            is_request(r, self@.update_request(owner_fqdn@, id, change@)),
    {
        let url = self.dns_record_url("PATCH", owner_fqdn, Some(id));
        self.request(Method::Patch, url, Some(change))
    }

    /// The request that deletes a record of a zone.
    pub fn delete_record(&self, owner_fqdn: &str, id: u64) -> (r: Result<ApiRequest, TimewebError>)
        ensures
            is_request(r, self@.delete_request(owner_fqdn@, id)),
    {
        let url = self.dns_record_url("DELETE", owner_fqdn, Some(id));
        self.request(Method::Delete, url, None)
    }
}

// ---------------------------------------------------------------------------
// Laws
// ---------------------------------------------------------------------------

/// A path of the API follows the path of the base URL, without the slashes at the end
/// of that.
pub proof fn law_paths_follow_the_base(
    base: UrlModel,
    core: Seq<char>,
    slashes: Seq<char>,
    path: Seq<char>,
)
    requires
        base.path == core + slashes,
        is_run(slashes, '/'),
        core.len() == 0 || core[core.len() - 1] != '/',
    ensures
        full_path(base, path) == core + path,
{
    law_cutting_runs(core, slashes, '/');
}

/// A URL of the API is the base URL with the path of the request, and then without its
/// query and without its fragment. It is refused only if it gets too long or is no URL
/// any more.
pub proof fn law_urls_are_built_in_steps(base: UrlModel, path: Seq<char>)
    ensures
        api_url_of(base, path) matches Ok(url) ==> {
            let placed = url_with_path(base.href, full_path(base, path));
            &&& placed is Some
            &&& url_without_query(placed->0) is Some
            &&& url_without_fragment(url_without_query(placed->0)->0) == Some(url)
        },
        url_of(base.href) matches Ok(parts) && path_fits(parts, full_path(base, path))
            && url_with_path(base.href, full_path(base, path)) is Some && url_without_query(
            url_with_path(base.href, full_path(base, path))->0,
        ) is Some && url_without_fragment(
            url_without_query(url_with_path(base.href, full_path(base, path))->0)->0,
        ) is Some ==> api_url_of(base, path) is Ok,
        api_url_of(base, path) matches Err(error) ==> error is Url,
{
}

/// A page is asked for by two pairs in the query: a limit of one hundred, and then the
/// offset.
pub proof fn law_pages_are_asked_for(url: Seq<char>, offset: u64)
    ensures
        page_url_of(Ok(url), offset) matches Ok(paged) ==> {
            let limited = url_with_pair(url, "limit"@, decimal(100));
            &&& limited is Some
            &&& url_with_pair(limited->0, "offset"@, decimal(offset as nat)) == Some(paged)
        },
{
    reveal_strlit("100");
    reveal_with_fuel(decimal, 4);
    assert(decimal(100) =~= "100"@);
}

/// The records of a zone are found below the zone's name, and one record by its
/// number behind that.
pub proof fn law_records_are_found_below_their_zone(zone: Seq<char>, id: u64)
    ensures
        records_path(zone, None) == "/api/v1/domains/"@ + zone + "/dns-records"@,
        records_path(zone, Some(id)) == records_path(zone, None) + seq!['/'] + decimal(id as nat),
{
    reveal_strlit("/");
    assert("/"@ =~= seq!['/']);
}

/// Requests for records go to the normal form of the zone, and are refused where that
/// is empty.
pub proof fn law_requests_name_the_zone(
    client: ClientModel,
    zone: Seq<char>,
    id: u64,
    change: ChangeModel,
)
    ensures
        normalized(zone).len() == 0 ==> {
            &&& client.create_request(zone, change) is Err
            &&& client.update_request(zone, id, change) is Err
            &&& client.delete_request(zone, id) is Err
        },
        client.create_request(zone, change) matches Ok(request) ==> {
            &&& api_url_of(client.base_url, records_path(normalized(zone), None)) == Ok::<
                Seq<char>,
                TimewebErrorModel,
            >(request.url)
            &&& request.method == Method::Post
            &&& request.body == Some(change)
        },
        client.update_request(zone, id, change) matches Ok(request) ==> {
            &&& api_url_of(client.base_url, records_path(normalized(zone), Some(id))) == Ok::<
                Seq<char>,
                TimewebErrorModel,
            >(request.url)
            &&& request.method == Method::Patch
            &&& request.body == Some(change)
        },
        client.delete_request(zone, id) matches Ok(request) ==> {
            &&& api_url_of(client.base_url, records_path(normalized(zone), Some(id))) == Ok::<
                Seq<char>,
                TimewebErrorModel,
            >(request.url)
            &&& request.method == Method::Delete
            &&& request.body is None
        },
        normalized(zone).len() > 0 && api_url_of(
            client.base_url,
            records_path(normalized(zone), None),
        ) is Ok ==> client.create_request(zone, change) is Ok,
        normalized(zone).len() > 0 && api_url_of(
            client.base_url,
            records_path(normalized(zone), Some(id)),
        ) is Ok ==> client.update_request(zone, id, change) is Ok && client.delete_request(zone, id)
            is Ok,
{
}

/// Requests for a page go to the list of domains, or to the records of a zone.
pub proof fn law_requests_for_pages(client: ClientModel, zone: Seq<char>, offset: u64)
    ensures
        client.domains_request(offset) matches Ok(request) ==> {
            &&& page_url_of(api_url_of(client.base_url, "/api/v1/domains"@), offset) == Ok::<
                Seq<char>,
                TimewebErrorModel,
            >(request.url)
            &&& request.method == Method::Get
        },
        client.records_request(zone, offset) matches Ok(request) ==> {
            &&& page_url_of(api_url_of(client.base_url, records_path(zone, None)), offset) == Ok::<
                Seq<char>,
                TimewebErrorModel,
            >(request.url)
            &&& request.method == Method::Get
        },
{
}

} // verus!
