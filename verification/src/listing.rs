//! Listing domains and records: the API gives both out in pages, and each list is
//! asked for page by page until it has ended.
use crate::client::{ApiRequest, RequestModel, TimewebClient};
use crate::names::{is_within, lemma_normalized, normalize_name, normalized, within};
use crate::order::{insert_unique, is_strictly_sorted, lemma_precedes_irreflexive};
use crate::text::{join3, lower, precedes, texts};
use crate::timeweb::{
    invalid_response, record_models, record_of, DnsRecordResponse, RecordModel, RemoteRecord, ResponseModel,
    TimewebDomain, TimewebError, TimewebErrorModel, PAGE_SIZE,
};
use vstd::prelude::*;
use vstd::string::*;

verus! {

// ---------------------------------------------------------------------------
// Answers
// ---------------------------------------------------------------------------

/// What an answer says about the whole list.
#[derive(Debug)]
pub struct MetaResponse {
    pub total: Option<u64>,
}

/// One page of the domains.
#[derive(Debug)]
pub struct DomainsResponse {
    pub domains: Vec<DomainResponse>,
    pub meta: Option<MetaResponse>,
}

/// One domain in an answer, with those below it.
#[derive(Debug)]
pub struct DomainResponse {
    pub fqdn: String,
    pub subdomains: Option<Vec<SubdomainResponse>>,
}

/// A domain below another one.
#[derive(Debug)]
pub struct SubdomainResponse {
    pub fqdn: String,
}

/// One page of the records of a zone.
#[derive(Debug)]
pub struct DnsRecordsResponse {
    pub dns_records: Vec<DnsRecordResponse>,
    pub meta: Option<MetaResponse>,
}

/// A domain in an answer by its texts.
pub struct DomainModel {
    pub fqdn: Seq<char>,
    pub subdomains: Seq<Seq<char>>,
}

/// Domains below another one by their texts.
pub open spec fn subdomain_texts(list: Seq<SubdomainResponse>) -> Seq<Seq<char>> {
    list.map_values(|s: SubdomainResponse| s.fqdn@)
}

impl View for DomainResponse {
    type V = DomainModel;

    open spec fn view(&self) -> DomainModel {
        DomainModel {
            fqdn: self.fqdn@,
            subdomains: match self.subdomains {
                Some(list) => subdomain_texts(list@),
                None => Seq::empty(),
            },
        }
    }
}

/// The domains of a page by their models.
pub open spec fn domain_models(list: Seq<DomainResponse>) -> Seq<DomainModel> {
    list.map_values(|d: DomainResponse| d@)
}

/// The records of a page by their models.
pub open spec fn response_models(list: Seq<DnsRecordResponse>) -> Seq<ResponseModel> {
    list.map_values(|r: DnsRecordResponse| r@)
}

/// The length of the whole list, where the answer says it.
pub open spec fn total_of(meta: Option<MetaResponse>) -> Option<u64> {
    match meta {
        Some(meta) => meta.total,
        None => None,
    }
}

// ---------------------------------------------------------------------------
// Pages
// ---------------------------------------------------------------------------

/// A list ends with a page that is not full, or with the one that reaches the
/// length that the answer says.
pub open spec fn ends(page_len: nat, offset: u64, total: Option<u64>) -> bool {
    page_len < PAGE_SIZE || (total matches Some(total) && offset + page_len >= total)
}

/// Whether a list ends with a page.
pub fn should_stop_pagination(page_len: u64, offset: u64, total: Option<u64>) -> (r: bool)
    ensures
        r == ends(page_len as nat, offset, total),
{
    if page_len < PAGE_SIZE {
        return true;
    }
    match total {
        Some(total) => offset.saturating_add(page_len) >= total,
        None => false,
    }
}

fn total(meta: &Option<MetaResponse>) -> (r: Option<u64>)
    ensures
        r == total_of(*meta),
{
    match meta {
        Some(meta) => meta.total,
        None => None,
    }
}

// ---------------------------------------------------------------------------
// Domains
// ---------------------------------------------------------------------------

/// The names of the domains below `fqdn`, in normal form, without empty ones, or
/// what is wrong with the first that does not lie there.
pub open spec fn subdomain_names(fqdn: Seq<char>, list: Seq<Seq<char>>) -> Result<
    Seq<Seq<char>>,
    Seq<char>,
>
    decreases list.len(),
{
    if list.len() == 0 {
        Ok(Seq::empty())
    } else {
        match subdomain_names(fqdn, list.drop_last()) {
            Err(message) => Err(message),
            Ok(names) => {
                let name = normalized(list.last());
                if name.len() == 0 {
                    Ok(names)
                } else if !within(name, fqdn) {
                    Err("subdomain "@ + name + " does not belong to domain "@ + fqdn)
                } else {
                    Ok(names.push(name))
                }
            },
        }
    }
}

/// The names that a domain in an answer stands for: its own and those below it,
/// none where its own is empty.
pub open spec fn domain_names(domain: DomainModel) -> Result<Seq<Seq<char>>, Seq<char>> {
    let fqdn = normalized(domain.fqdn);
    if fqdn.len() == 0 {
        Ok(Seq::empty())
    } else {
        match subdomain_names(fqdn, domain.subdomains) {
            Err(message) => Err(message),
            Ok(names) => Ok(seq![fqdn] + names),
        }
    }
}

/// The names that a list of domains stands for, or what is wrong with the first
/// that something is wrong with.
pub open spec fn page_names(list: Seq<DomainModel>) -> Result<Seq<Seq<char>>, Seq<char>>
    decreases list.len(),
{
    if list.len() == 0 {
        Ok(Seq::empty())
    } else {
        match (page_names(list.drop_last()), domain_names(list.last())) {
            (Err(message), _) => Err(message),
            (Ok(_), Err(message)) => Err(message),
            (Ok(names), Ok(more)) => Ok(names + more),
        }
    }
}

/// The texts in order and without repetition.
pub open spec fn is_sorted_set(list: Seq<Seq<char>>, set: Set<Seq<char>>) -> bool {
    is_strictly_sorted(list) && list.to_set() == set
}

/// The names of a list of domains.
pub open spec fn domain_texts(list: Seq<TimewebDomain>) -> Seq<Seq<char>> {
    list.map_values(|d: TimewebDomain| d@)
}

/// The domains so far.
pub struct DomainListing {
    offset: u64,
    names: Vec<String>,
}

/// A listing of domains: how many were given out, and their names.
pub struct DomainListingModel {
    pub offset: u64,
    pub names: Set<Seq<char>>,
}

impl DomainListingModel {
    /// Nothing was given out yet.
    pub open spec fn start() -> DomainListingModel {
        DomainListingModel { offset: 0, names: Set::empty() }
    }

    /// The listing with one more page of `len` domains, and the names on it.
    pub open spec fn with_page(self, len: nat, names: Seq<Seq<char>>) -> DomainListingModel {
        DomainListingModel {
            offset: (self.offset + len) as u64,
            names: self.names.union(names.to_set()),
        }
    }
}

impl View for DomainListing {
    type V = DomainListingModel;

    closed spec fn view(&self) -> DomainListingModel {
        DomainListingModel { offset: self.offset, names: texts(self.names@).to_set() }
    }
}

/// The next thing to do for a list of domains: to fetch a page, or nothing more.
pub enum DomainStep {
    Fetch(ApiRequest, DomainListing),
    Done(Vec<TimewebDomain>),
}

proof fn lemma_to_set_push(list: Seq<Seq<char>>, item: Seq<char>)
    ensures
        list.push(item).to_set() == list.to_set().insert(item),
{
    assert forall|x: Seq<char>| list.push(item).to_set().contains(x) implies list.to_set().insert(
        item,
    ).contains(x) by {
        let k = choose|k: int| 0 <= k < list.push(item).len() && list.push(item)[k] == x;
        if k < list.len() {
            assert(list[k] == x);
        }
    }
    assert forall|x: Seq<char>| list.to_set().insert(item).contains(x) implies list.push(
        item,
    ).to_set().contains(x) by {
        if x == item {
            assert(list.push(item)[list.len() as int] == x);
        } else {
            let k = choose|k: int| 0 <= k < list.len() && list[k] == x;
            assert(list.push(item)[k] == x);
        }
    }
    assert(list.push(item).to_set() =~= list.to_set().insert(item));
}

proof fn lemma_to_set_add(a: Seq<Seq<char>>, b: Seq<Seq<char>>)
    ensures
        (a + b).to_set() == a.to_set().union(b.to_set()),
    decreases b.len(),
{
    if b.len() == 0 {
        assert(a + b =~= a);
        assert(a.to_set().union(b.to_set()) =~= a.to_set());
    } else {
        lemma_to_set_add(a, b.drop_last());
        assert(a + b =~= (a + b.drop_last()).push(b.last()));
        assert(b =~= b.drop_last().push(b.last()));
        lemma_to_set_push(a + b.drop_last(), b.last());
        lemma_to_set_push(b.drop_last(), b.last());
        assert((a + b).to_set() =~= a.to_set().union(b.to_set()));
    }
}

proof fn lemma_subdomain_names_stay(fqdn: Seq<char>, list: Seq<Seq<char>>, n: int)
    requires
        0 <= n <= list.len(),
        subdomain_names(fqdn, list.take(n)) is Err,
    ensures
        subdomain_names(fqdn, list) == subdomain_names(fqdn, list.take(n)),
    decreases list.len(),
{
    if n == list.len() {
        assert(list.take(n) =~= list);
    } else {
        assert(list.drop_last().take(n) =~= list.take(n));
        lemma_subdomain_names_stay(fqdn, list.drop_last(), n);
    }
}

proof fn lemma_page_names_stay(list: Seq<DomainModel>, n: int)
    requires
        0 <= n <= list.len(),
        page_names(list.take(n)) is Err,
    ensures
        page_names(list) == page_names(list.take(n)),
    decreases list.len(),
{
    if n == list.len() {
        assert(list.take(n) =~= list);
    } else {
        assert(list.drop_last().take(n) =~= list.take(n));
        lemma_page_names_stay(list.drop_last(), n);
    }
}

/// Adds the names of the domains below `fqdn`.
fn add_subdomains(names: &mut Vec<String>, fqdn: &str, list: &Vec<SubdomainResponse>) -> (r: Result<
    (),
    TimewebError,
>)
    requires
        is_strictly_sorted(texts(old(names)@)),
    ensures
        is_strictly_sorted(texts(final(names)@)),
        match r {
            Ok(()) => {
                &&& subdomain_names(fqdn@, subdomain_texts(list@)) is Ok
                &&& texts(final(names)@).to_set() == texts(old(names)@).to_set().union(
                    subdomain_names(fqdn@, subdomain_texts(list@))->Ok_0.to_set(),
                )
            },
            Err(error) => subdomain_names(fqdn@, subdomain_texts(list@)) matches Err(message)
                && error@ == TimewebErrorModel::InvalidResponse(message),
        },
{
    let ghost model = subdomain_texts(list@);
    let ghost start = texts(names@).to_set();
    let mut i: usize = 0;
    assert(model.take(0) =~= Seq::empty());
    assert(start.union(Seq::<Seq<char>>::empty().to_set()) =~= start);
    while i < list.len()
        invariant
            i <= list.len(),
            model == subdomain_texts(list@),
            start == texts(old(names)@).to_set(),
            is_strictly_sorted(texts(names@)),
            subdomain_names(fqdn@, model.take(i as int)) is Ok,
            texts(names@).to_set() == start.union(
                subdomain_names(fqdn@, model.take(i as int))->Ok_0.to_set(),
            ),
        decreases list.len() - i,
    {
        let ghost before = subdomain_names(fqdn@, model.take(i as int))->Ok_0;
        assert(model.take(i + 1).drop_last() =~= model.take(i as int));
        assert(model.take(i + 1).last() == list@[i as int].fqdn@);
        let name = normalize_name(list[i].fqdn.as_str());
        if !name.as_str().is_empty() {
            if !is_within(name.as_str(), fqdn) {
                let mut message = join3("subdomain ", name.as_str(), " does not belong to domain ");
                message.append(fqdn);
                proof {
                    lemma_subdomain_names_stay(fqdn@, model, i + 1);
                }
                return Err(TimewebError::InvalidResponse(message));
            }
            let ghost added = name@;
            insert_unique(names, name);
            proof {
                lemma_to_set_push(before, added);
                assert(texts(names@).to_set() =~= start.union(before.push(added).to_set()));
            }
        }
        i += 1;
    }
    assert(model.take(model.len() as int) =~= model);
    Ok(())
}

/// Adds the names of a page of domains.
fn add_domains(names: &mut Vec<String>, list: &Vec<DomainResponse>) -> (r: Result<(), TimewebError>)
    requires
        is_strictly_sorted(texts(old(names)@)),
    ensures
        is_strictly_sorted(texts(final(names)@)),
        match r {
            Ok(()) => {
                &&& page_names(domain_models(list@)) is Ok
                &&& texts(final(names)@).to_set() == texts(old(names)@).to_set().union(
                    page_names(domain_models(list@))->Ok_0.to_set(),
                )
            },
            Err(error) => page_names(domain_models(list@)) matches Err(message) && error@
                == TimewebErrorModel::InvalidResponse(message),
        },
{
    let ghost model = domain_models(list@);
    let ghost start = texts(names@).to_set();
    let mut i: usize = 0;
    assert(model.take(0) =~= Seq::empty());
    assert(start.union(Seq::<Seq<char>>::empty().to_set()) =~= start);
    while i < list.len()
        invariant
            i <= list.len(),
            model == domain_models(list@),
            start == texts(old(names)@).to_set(),
            is_strictly_sorted(texts(names@)),
            page_names(model.take(i as int)) is Ok,
            texts(names@).to_set() == start.union(page_names(model.take(i as int))->Ok_0.to_set()),
        decreases list.len() - i,
    {
        let ghost before = page_names(model.take(i as int))->Ok_0;
        let domain = &list[i];
        assert(model.take(i + 1).drop_last() =~= model.take(i as int));
        assert(model.take(i + 1).last() == domain@);
        let fqdn = normalize_name(domain.fqdn.as_str());
        if fqdn.as_str().is_empty() {
            assert(before + Seq::<Seq<char>>::empty() =~= before);
        } else {
            insert_unique(names, fqdn.clone());
            let ghost with_own = texts(names@).to_set();
            let ghost below = subdomain_names(fqdn@, domain@.subdomains);
            match &domain.subdomains {
                Some(subdomains) => match add_subdomains(names, fqdn.as_str(), subdomains) {
                    Ok(()) => {},
                    Err(error) => {
                        proof {
                            lemma_page_names_stay(model, i + 1);
                        }
                        return Err(error);
                    },
                },
                None => {
                    assert(with_own.union(Seq::<Seq<char>>::empty().to_set()) =~= with_own);
                },
            }
            proof {
                let more = below->Ok_0;
                lemma_to_set_add(seq![fqdn@], more);
                lemma_to_set_add(before, seq![fqdn@] + more);
                assert(seq![fqdn@] =~= Seq::empty().push(fqdn@));
                lemma_to_set_push(Seq::empty(), fqdn@);
                assert(texts(names@).to_set() =~= start.union(
                    (before + (seq![fqdn@] + more)).to_set(),
                ));
            }
        }
        i += 1;
    }
    assert(model.take(model.len() as int) =~= model);
    Ok(())
}

/// The names as domains.
fn to_domains(names: Vec<String>) -> (r: Vec<TimewebDomain>)
    ensures
        domain_texts(r@) == texts(names@),
{
    let mut r: Vec<TimewebDomain> = Vec::new();
    let mut i: usize = 0;
    while i < names.len()
        invariant
            i <= names.len(),
            domain_texts(r@) =~= texts(names@).take(i as int),
        decreases names.len() - i,
    {
        let ghost before = r@;
        let domain = TimewebDomain { fqdn: names[i].clone() };
        r.push(domain);
        assert(domain_texts(r@) =~= domain_texts(before).push(names@[i as int]@));
        i += 1;
    }
    assert(texts(names@).take(names@.len() as int) =~= texts(names@));
    r
}

impl DomainListing {
    #[verifier::type_invariant]
    spec fn in_order(self) -> bool {
        is_strictly_sorted(texts(self.names@))
    }

    /// Takes a page: the names on it join those so far, and the next page is
    /// asked for unless the list has ended.
    pub fn page(self, client: &TimewebClient, response: DomainsResponse) -> (r: Result<
        DomainStep,
        TimewebError,
    >)
        ensures
            ({
                let page = page_names(domain_models(response.domains@));
                let len = response.domains@.len();
                let next = self@.offset + len;
                let last = ends(len, self@.offset, total_of(response.meta));
                match r {
                    Ok(DomainStep::Done(domains)) => {
                        &&& page is Ok
                        &&& last
                        &&& is_sorted_set(
                            domain_texts(domains@),
                            self@.with_page(len, page->Ok_0).names,
                        )
                    },
                    Ok(DomainStep::Fetch(request, listing)) => {
                        &&& page is Ok
                        &&& !last
                        &&& listing@ == self@.with_page(len, page->Ok_0)
                        &&& next <= u64::MAX
                        &&& client@.domains_request(next as u64) == Ok::<_, TimewebErrorModel>(
                            request@,
                        )
                    },
                    Err(error) => if page is Err {
                        error@ == TimewebErrorModel::InvalidResponse(page->Err_0)
                    } else if next > u64::MAX {
                        !last && error@ == TimewebErrorModel::InvalidResponse(
                            "domain pagination overflow"@,
                        )
                    } else {
                        !last && client@.domains_request(next as u64) == Err::<RequestModel, _>(
                            error@,
                        )
                    },
                }
            }),
    {
        proof {
            use_type_invariant(&self);
        }
        let mut names = self.names;
        match add_domains(&mut names, &response.domains) {
            Ok(()) => {},
            Err(error) => return Err(error),
        }
        let page_len: u64 = response.domains.len() as u64;
        if should_stop_pagination(page_len, self.offset, total(&response.meta)) {
            return Ok(DomainStep::Done(to_domains(names)));
        }
        let offset: u64 = match self.offset.checked_add(page_len) {
            Some(offset) => offset,
            None => return Err(invalid_response("domain pagination overflow")),
        };
        match client.domains_request(offset) {
            Ok(request) => Ok(DomainStep::Fetch(request, DomainListing { offset, names })),
            Err(error) => Err(error),
        }
    }
}

// ---------------------------------------------------------------------------
// Records
// ---------------------------------------------------------------------------

/// The listed records that a list of answered ones stands for, or what is wrong
/// with the first that something is wrong with.
pub open spec fn page_records(list: Seq<ResponseModel>, zone: Seq<char>) -> Result<
    Seq<RecordModel>,
    Seq<char>,
>
    decreases list.len(),
{
    if list.len() == 0 {
        Ok(Seq::empty())
    } else {
        match (page_records(list.drop_last(), zone), record_of(list.last(), zone)) {
            (Err(message), _) => Err(message),
            (Ok(_), Err(message)) => Err(message),
            (Ok(records), Ok(record)) => Ok(records.push(record)),
        }
    }
}

/// The records of a zone so far.
pub struct RecordListing {
    zone: String,
    offset: u64,
    records: Vec<RemoteRecord>,
}

/// A listing of records: the zone, how many were given out, and what they are.
pub struct RecordListingModel {
    pub zone: Seq<char>,
    pub offset: u64,
    pub records: Seq<RecordModel>,
}

impl RecordListingModel {
    /// Nothing was given out yet.
    pub open spec fn start(zone: Seq<char>) -> RecordListingModel {
        RecordListingModel { zone, offset: 0, records: Seq::empty() }
    }

    /// The listing with one more page of `len` records, and what they are.
    pub open spec fn with_page(self, len: nat, records: Seq<RecordModel>) -> RecordListingModel {
        RecordListingModel {
            zone: self.zone,
            offset: (self.offset + len) as u64,
            records: self.records + records,
        }
    }
}

impl View for RecordListing {
    type V = RecordListingModel;

    closed spec fn view(&self) -> RecordListingModel {
        RecordListingModel {
            zone: self.zone@,
            offset: self.offset,
            records: record_models(self.records@),
        }
    }
}

/// The next thing to do for a list of records: to fetch a page, or nothing more.
pub enum RecordStep {
    Fetch(ApiRequest, RecordListing),
    Done(Vec<RemoteRecord>),
}

proof fn lemma_page_records_stay(list: Seq<ResponseModel>, zone: Seq<char>, n: int)
    requires
        0 <= n <= list.len(),
        page_records(list.take(n), zone) is Err,
    ensures
        page_records(list, zone) == page_records(list.take(n), zone),
    decreases list.len(),
{
    if n == list.len() {
        assert(list.take(n) =~= list);
    } else {
        assert(list.drop_last().take(n) =~= list.take(n));
        lemma_page_records_stay(list.drop_last(), zone, n);
    }
}

/// Adds the records of a page.
fn add_records(records: &mut Vec<RemoteRecord>, list: Vec<DnsRecordResponse>, zone: &str) -> (r:
    Result<(), TimewebError>)
    ensures
        match r {
            Ok(()) => {
                &&& page_records(response_models(list@), zone@) is Ok
                &&& record_models(final(records)@) == record_models(old(records)@) + page_records(
                    response_models(list@),
                    zone@,
                )->Ok_0
            },
            Err(error) => page_records(response_models(list@), zone@) matches Err(message) && error@
                == TimewebErrorModel::InvalidResponse(message),
        },
{
    let ghost model = response_models(list@);
    let ghost start = record_models(records@);
    assert(model.take(0) =~= Seq::empty());
    assert(start + Seq::<RecordModel>::empty() =~= start);
    for response in iter: list
        invariant
            iter.seq() == list@,
            model == response_models(list@),
            start == record_models(old(records)@),
            page_records(model.take(iter.index() as int), zone@) is Ok,
            record_models(records@) == start + page_records(
                model.take(iter.index() as int),
                zone@,
            )->Ok_0,
    {
        let ghost i = iter.index() as int;
        let ghost before = page_records(model.take(i), zone@)->Ok_0;
        let ghost held = records@;
        assert(model.take(i + 1).drop_last() =~= model.take(i));
        assert(model.take(i + 1).last() == response@);
        match response.into_remote_record(zone) {
            Ok(record) => {
                records.push(record);
                assert(record_models(records@) =~= record_models(held).push(record@));
                assert(record_models(records@) =~= start + before.push(record@));
            },
            Err(error) => {
                proof {
                    lemma_page_records_stay(model, zone@, i + 1);
                }
                return Err(error);
            },
        }
    }
    assert(model.take(model.len() as int) =~= model);
    Ok(())
}

impl RecordListing {
    /// Takes a page: the records on it follow those so far, and the next page is
    /// asked for unless the list has ended.
    pub fn page(self, client: &TimewebClient, response: DnsRecordsResponse) -> (r: Result<
        RecordStep,
        TimewebError,
    >)
        ensures
            ({
                let page = page_records(response_models(response.dns_records@), self@.zone);
                let len = response.dns_records@.len();
                let next = self@.offset + len;
                let last = ends(len, self@.offset, total_of(response.meta));
                match r {
                    Ok(RecordStep::Done(records)) => {
                        &&& page is Ok
                        &&& last
                        &&& record_models(records@) == self@.with_page(len, page->Ok_0).records
                    },
                    Ok(RecordStep::Fetch(request, listing)) => {
                        &&& page is Ok
                        &&& !last
                        &&& listing@ == self@.with_page(len, page->Ok_0)
                        &&& next <= u64::MAX
                        &&& client@.records_request(self@.zone, next as u64) == Ok::<
                            _,
                            TimewebErrorModel,
                        >(request@)
                    },
                    Err(error) => if page is Err {
                        error@ == TimewebErrorModel::InvalidResponse(page->Err_0)
                    } else if next > u64::MAX {
                        !last && error@ == TimewebErrorModel::InvalidResponse(
                            "DNS record pagination overflow"@,
                        )
                    } else {
                        !last && client@.records_request(self@.zone, next as u64) == Err::<
                            RequestModel,
                            _,
                        >(error@)
                    },
                }
            }),
    {
        let mut records = self.records;
        let page_len: u64 = response.dns_records.len() as u64;
        match add_records(&mut records, response.dns_records, self.zone.as_str()) {
            Ok(()) => {},
            Err(error) => return Err(error),
        }
        if should_stop_pagination(page_len, self.offset, total(&response.meta)) {
            return Ok(RecordStep::Done(records));
        }
        let offset: u64 = match self.offset.checked_add(page_len) {
            Some(offset) => offset,
            None => return Err(invalid_response("DNS record pagination overflow")),
        };
        match client.records_request(self.zone.as_str(), offset) {
            Ok(request) => Ok(
                RecordStep::Fetch(request, RecordListing { zone: self.zone, offset, records }),
            ),
            Err(error) => Err(error),
        }
    }
}

// ---------------------------------------------------------------------------
// Starting
// ---------------------------------------------------------------------------

impl TimewebClient {
    /// Starts to list the domains of the account.
    pub fn list_domains(&self) -> (r: Result<DomainStep, TimewebError>)
        ensures
            match r {
                Ok(DomainStep::Fetch(request, listing)) => {
                    &&& self@.domains_request(0) == Ok::<_, TimewebErrorModel>(request@)
                    &&& listing@ == DomainListingModel::start()
                },
                Ok(DomainStep::Done(_)) => false,
                Err(error) => self@.domains_request(0) == Err::<RequestModel, _>(error@),
            },
    {
        match self.domains_request(0) {
            Ok(request) => {
                let names: Vec<String> = Vec::new();
                assert(texts(names@).to_set() =~= Set::empty());
                Ok(DomainStep::Fetch(request, DomainListing { offset: 0, names }))
            },
            Err(error) => Err(error),
        }
    }

    /// Starts to list the records of a zone.
    pub fn list_zone_records(&self, zone: &str) -> (r: Result<RecordStep, TimewebError>)
        ensures
            match r {
                Ok(RecordStep::Fetch(request, listing)) => {
                    &&& normalized(zone@).len() > 0
                    &&& self@.records_request(normalized(zone@), 0) == Ok::<_, TimewebErrorModel>(
                        request@,
                    )
                    &&& listing@ == RecordListingModel::start(normalized(zone@))
                },
                Ok(RecordStep::Done(_)) => false,
                Err(error) => if normalized(zone@).len() == 0 {
                    error@ == TimewebErrorModel::InvalidResponse("an empty zone cannot be queried"@)
                } else {
                    self@.records_request(normalized(zone@), 0) == Err::<RequestModel, _>(error@)
                },
            },
    {
        let zone = normalize_name(zone);
        if zone.as_str().is_empty() {
            return Err(invalid_response("an empty zone cannot be queried"));
        }
        match self.records_request(zone.as_str(), 0) {
            Ok(request) => {
                let records: Vec<RemoteRecord> = Vec::new();
                assert(record_models(records@) =~= Seq::empty());
                Ok(RecordStep::Fetch(request, RecordListing { zone, offset: 0, records }))
            },
            Err(error) => Err(error),
        }
    }

    /// What listing the records of a zone came to, where the zone need not exist:
    /// nothing where the API does not know it.
    pub fn list_zone_records_if_exists(&self, listed: Result<Vec<RemoteRecord>, TimewebError>) -> (r:
        Result<Option<Vec<RemoteRecord>>, TimewebError>)
        ensures
            match listed {
                Ok(records) => r matches Ok(Some(found)) && found == records,
                Err(error) => if error@.http_status() == Some(404u16) {
                    r matches Ok(None)
                } else {
                    r matches Err(same) && same == error
                },
            },
    {
        match listed {
            Ok(records) => Ok(Some(records)),
            Err(error) => match error.status() {
                Some(404) => Ok(None),
                _ => Err(error),
            },
        }
    }
}

// ---------------------------------------------------------------------------
// Laws
// ---------------------------------------------------------------------------

/// Reading the records of two pages comes to what reading them as one page comes
/// to: paging loses and doubles nothing.
pub proof fn law_record_pages_add_up(a: Seq<ResponseModel>, b: Seq<ResponseModel>, zone: Seq<char>)
    ensures
        page_records(a + b, zone) == match (page_records(a, zone), page_records(b, zone)) {
            (Err(message), _) => Err(message),
            (Ok(_), Err(message)) => Err(message),
            (Ok(first), Ok(second)) => Ok(first + second),
        },
    decreases b.len(),
{
    if b.len() == 0 {
        assert(a + b =~= a);
        if let Ok(first) = page_records(a, zone) {
            assert(first + Seq::<RecordModel>::empty() =~= first);
        }
    } else {
        law_record_pages_add_up(a, b.drop_last(), zone);
        assert((a + b).drop_last() =~= a + b.drop_last());
        if let (Ok(first), Ok(second), Ok(record)) = (
            page_records(a, zone),
            page_records(b.drop_last(), zone),
            record_of(b.last(), zone),
        ) {
            assert((first + second).push(record) =~= first + second.push(record));
        }
    }
}

/// Reading the domains of two pages comes to what reading them as one page comes
/// to.
pub proof fn law_domain_pages_add_up(a: Seq<DomainModel>, b: Seq<DomainModel>)
    ensures
        page_names(a + b) == match (page_names(a), page_names(b)) {
            (Err(message), _) => Err(message),
            (Ok(_), Err(message)) => Err(message),
            (Ok(first), Ok(second)) => Ok(first + second),
        },
    decreases b.len(),
{
    if b.len() == 0 {
        assert(a + b =~= a);
        if let Ok(first) = page_names(a) {
            assert(first + Seq::<Seq<char>>::empty() =~= first);
        }
    } else {
        law_domain_pages_add_up(a, b.drop_last());
        assert((a + b).drop_last() =~= a + b.drop_last());
        if let (Ok(first), Ok(second), Ok(more)) = (
            page_names(a),
            page_names(b.drop_last()),
            domain_names(b.last()),
        ) {
            assert((first + second) + more =~= first + (second + more));
        }
    }
}

/// A listed domain has a name, and it is in lower case and does not end with a
/// dot.
pub open spec fn is_proper_name(name: Seq<char>) -> bool {
    name.len() > 0 && name.last() != '.' && lower(name) == name
}

/// Every name that a page gives is a proper one.
pub proof fn law_listed_names_are_proper(list: Seq<DomainModel>)
    ensures
        page_names(list) matches Ok(names) ==> forall|i: int|
            0 <= i < names.len() ==> is_proper_name(#[trigger] names[i]),
    decreases list.len(),
{
    if list.len() > 0 {
        law_listed_names_are_proper(list.drop_last());
        let domain = list.last();
        let fqdn = normalized(domain.fqdn);
        lemma_normalized(domain.fqdn);
        lemma_subdomain_names_proper(fqdn, domain.subdomains);
        if let (Ok(names), Ok(more)) = (page_names(list.drop_last()), domain_names(domain)) {
            assert forall|i: int| 0 <= i < (names + more).len() implies is_proper_name(
                #[trigger] (names + more)[i],
            ) by {
                if i < names.len() {
                    assert((names + more)[i] == names[i]);
                } else {
                    let j = i - names.len();
                    assert((names + more)[i] == more[j]);
                    if j > 0 {
                        assert(more[j] == subdomain_names(fqdn, domain.subdomains)->Ok_0[j - 1]);
                    }
                }
            }
        }
    }
}

proof fn lemma_subdomain_names_proper(fqdn: Seq<char>, list: Seq<Seq<char>>)
    ensures
        subdomain_names(fqdn, list) matches Ok(names) ==> forall|i: int|
            0 <= i < names.len() ==> is_proper_name(#[trigger] names[i]),
    decreases list.len(),
{
    if list.len() > 0 {
        lemma_subdomain_names_proper(fqdn, list.drop_last());
        lemma_normalized(list.last());
    }
}

/// A listing goes forward: a page that does not end the list moves it on by a
/// full page at least.
pub proof fn law_paging_goes_forward(page_len: nat, offset: u64, total: Option<u64>)
    requires
        !ends(page_len, offset, total),
    ensures
        offset + page_len >= offset + PAGE_SIZE,
        total matches Some(total) ==> offset + page_len < total,
{
}

/// A list does not end with a full page before as many items were given out as the
/// answer says there are, nor if the answer does not say how many there are. It ends
/// with a page that is not full, and with the one that reaches that many.
pub proof fn law_paging_ends_with_the_last_item(page_len: nat, offset: u64, total: u64)
    ensures
        page_len >= PAGE_SIZE && ends(page_len, offset, Some(total)) ==> offset + page_len >= total,
        page_len >= PAGE_SIZE ==> !ends(page_len, offset, None),
        page_len < PAGE_SIZE ==> ends(page_len, offset, Some(total)) && ends(page_len, offset, None),
        offset + page_len >= total ==> ends(page_len, offset, Some(total)),
{
}

/// Where a page holds what is left of a list, but no more than a full page, the list
/// ends once everything was given out and not before, whether or not the answers say
/// how long it is. Without that a list that ends with a full page takes one page more.
pub proof fn law_paging_gives_everything_out(len: u64, offset: u64)
    requires
        offset <= len,
    ensures
        ({
            let left = (len - offset) as nat;
            let page_len: nat = if left < PAGE_SIZE {
                left
            } else {
                PAGE_SIZE as nat
            };
            &&& ends(page_len, offset, Some(len)) <==> offset + page_len == len
            &&& ends(page_len, offset, None) ==> offset + page_len == len
            &&& offset + page_len == len && page_len < PAGE_SIZE ==> ends(page_len, offset, None)
        }),
{
}

/// Every record of a page is read, in order and in the zone that is listed. A page
/// fails if one of its records does, with what is wrong with the first of those.
pub proof fn law_every_record_of_a_page_is_read(list: Seq<ResponseModel>, zone: Seq<char>, i: int)
    requires
        0 <= i < list.len(),
    ensures
        page_records(list, zone) matches Ok(records) ==> records.len() == list.len()
            && record_of(list[i], zone) == Ok::<RecordModel, Seq<char>>(records[i]),
        record_of(list[i], zone) is Err && (forall|j: int|
            0 <= j < i ==> record_of(#[trigger] list[j], zone) is Ok) ==> page_records(list, zone)
            is Err && page_records(list, zone)->Err_0 == record_of(list[i], zone)->Err_0,
        (forall|j: int| 0 <= j < list.len() ==> record_of(#[trigger] list[j], zone) is Ok)
            ==> page_records(list, zone) is Ok,
    decreases list.len(),
{
    let front = list.drop_last();
    if i < front.len() {
        law_every_record_of_a_page_is_read(front, zone, i);
        assert(front[i] == list[i]);
        assert(forall|j: int| 0 <= j < front.len() ==> #[trigger] front[j] == list[j]);
    } else {
        if front.len() > 0 {
            law_every_record_of_a_page_is_read(front, zone, 0);
        }
        lemma_page_of_readable_records(front, zone);
        assert(forall|j: int| 0 <= j < front.len() ==> #[trigger] front[j] == list[j]);
    }
    if forall|j: int| 0 <= j < list.len() ==> record_of(#[trigger] list[j], zone) is Ok {
        lemma_page_of_readable_records(list, zone);
    }
}

proof fn lemma_page_of_readable_records(list: Seq<ResponseModel>, zone: Seq<char>)
    ensures
        (forall|j: int| 0 <= j < list.len() ==> record_of(#[trigger] list[j], zone) is Ok)
            ==> page_records(list, zone) is Ok,
        page_records(list, zone) matches Ok(records) ==> records.len() == list.len(),
    decreases list.len(),
{
    if list.len() > 0 {
        let front = list.drop_last();
        lemma_page_of_readable_records(front, zone);
        assert(forall|j: int| 0 <= j < front.len() ==> #[trigger] front[j] == list[j]);
        assert(list[list.len() - 1] == list.last());
    }
}

/// A name stands in an answer: as that of a domain, or of one below a domain.
pub open spec fn is_answered(name: Seq<char>, list: Seq<DomainModel>) -> bool {
    &&& name.len() > 0
    &&& exists|i: int| 0 <= i < list.len() && is_answered_by(name, #[trigger] list[i])
}

/// A name is that of a domain in an answer, or of one below it.
pub open spec fn is_answered_by(name: Seq<char>, domain: DomainModel) -> bool {
    &&& normalized(domain.fqdn).len() > 0
    &&& normalized(domain.fqdn) == name || exists|j: int|
        0 <= j < domain.subdomains.len() && normalized(#[trigger] domain.subdomains[j]) == name
}

proof fn lemma_subdomain_names(fqdn: Seq<char>, list: Seq<Seq<char>>)
    ensures
        subdomain_names(fqdn, list) matches Ok(names) ==> {
            &&& forall|j: int|
                0 <= j < list.len() && normalized(#[trigger] list[j]).len() > 0 ==> names.contains(
                    normalized(list[j]),
                ) && within(normalized(list[j]), fqdn)
            &&& forall|k: int|
                0 <= k < names.len() ==> (#[trigger] names[k]).len() > 0 && exists|j: int|
                    0 <= j < list.len() && normalized(#[trigger] list[j]) == names[k]
        },
        subdomain_names(fqdn, list) is Err ==> exists|j: int|
            0 <= j < list.len() && normalized(#[trigger] list[j]).len() > 0 && !within(
                normalized(list[j]),
                fqdn,
            ),
    decreases list.len(),
{
    if list.len() > 0 {
        let front = list.drop_last();
        lemma_subdomain_names(fqdn, front);
        let name = normalized(list.last());
        assert(list[list.len() - 1] == list.last());
        match subdomain_names(fqdn, front) {
            Err(_) => {
                let j = choose|j: int|
                    0 <= j < front.len() && normalized(#[trigger] front[j]).len() > 0 && !within(
                        normalized(front[j]),
                        fqdn,
                    );
                assert(list[j] == front[j]);
            },
            Ok(before) => {
                if let Ok(names) = subdomain_names(fqdn, list) {
                    assert forall|j: int|
                        0 <= j < list.len() && normalized(
                            #[trigger] list[j],
                        ).len() > 0 implies names.contains(normalized(list[j])) && within(
                        normalized(list[j]),
                        fqdn,
                    ) by {
                        if j < front.len() {
                            assert(front[j] == list[j]);
                            let m = choose|m: int|
                                0 <= m < before.len() && before[m] == normalized(front[j]);
                            assert(names[m] == normalized(list[j]));
                        } else {
                            assert(names[names.len() - 1] == name);
                        }
                    }
                    assert forall|k: int| 0 <= k < names.len() implies (#[trigger] names[k]).len()
                        > 0 && exists|j: int|
                        0 <= j < list.len() && normalized(#[trigger] list[j]) == names[k] by {
                        if k < before.len() {
                            assert(names[k] == before[k]);
                            let j = choose|j: int|
                                0 <= j < front.len() && normalized(#[trigger] front[j])
                                    == before[k];
                            assert(list[j] == front[j]);
                        } else {
                            assert(normalized(list[list.len() - 1]) == names[k]);
                        }
                    }
                }
            },
        }
    }
}

/// Every domain of a page is listed, and every domain below it, each that has a name;
/// and nothing else is. A page fails if a domain stands below one that it does not
/// lie in, and for no other reason.
pub proof fn law_every_domain_of_a_page_is_listed(list: Seq<DomainModel>)
    ensures
        page_names(list) matches Ok(names) ==> {
            &&& forall|i: int|
                0 <= i < list.len() && normalized((#[trigger] list[i]).fqdn).len() > 0
                    ==> names.contains(normalized(list[i].fqdn))
            &&& forall|i: int, j: int|
                0 <= i < list.len() && normalized((#[trigger] list[i]).fqdn).len() > 0 && 0 <= j
                    < list[i].subdomains.len() && normalized(
                    #[trigger] list[i].subdomains[j],
                ).len() > 0 ==> names.contains(normalized(list[i].subdomains[j])) && within(
                    normalized(list[i].subdomains[j]),
                    normalized(list[i].fqdn),
                )
            &&& forall|k: int|
                0 <= k < names.len() ==> is_answered(#[trigger] names[k], list)
        },
        page_names(list) is Err ==> exists|i: int, j: int|
            0 <= i < list.len() && normalized((#[trigger] list[i]).fqdn).len() > 0 && 0 <= j
                < list[i].subdomains.len() && normalized(
                #[trigger] list[i].subdomains[j],
            ).len() > 0 && !within(
                normalized(list[i].subdomains[j]),
                normalized(list[i].fqdn),
            ),
    decreases list.len(),
{
    if list.len() > 0 {
        let front = list.drop_last();
        let last = list.last();
        let n = list.len() - 1;
        let fqdn = normalized(last.fqdn);
        law_every_domain_of_a_page_is_listed(front);
        lemma_subdomain_names(fqdn, last.subdomains);
        assert(list[n] == last);
        match (page_names(front), domain_names(last)) {
            (Err(_), _) => {
                let (i, j) = choose|i: int, j: int|
                    0 <= i < front.len() && normalized((#[trigger] front[i]).fqdn).len() > 0 && 0
                        <= j < front[i].subdomains.len() && normalized(
                        #[trigger] front[i].subdomains[j],
                    ).len() > 0 && !within(
                        normalized(front[i].subdomains[j]),
                        normalized(front[i].fqdn),
                    );
                assert(list[i] == front[i]);
                assert(list[i].subdomains[j] == front[i].subdomains[j]);
            },
            (Ok(_), Err(_)) => {
                let j = choose|j: int|
                    0 <= j < last.subdomains.len() && normalized(
                        #[trigger] last.subdomains[j],
                    ).len() > 0 && !within(normalized(last.subdomains[j]), fqdn);
                assert(list[n].subdomains[j] == last.subdomains[j]);
            },
            (Ok(before), Ok(more)) => {
                let names = before + more;
                assert forall|x: Seq<char>| before.contains(x) implies #[trigger] names.contains(
                    x,
                ) by {
                    let m = choose|m: int| 0 <= m < before.len() && before[m] == x;
                    assert(names[m] == x);
                }
                assert forall|x: Seq<char>| more.contains(x) implies #[trigger] names.contains(
                    x,
                ) by {
                    let m = choose|m: int| 0 <= m < more.len() && more[m] == x;
                    assert(names[before.len() + m] == x);
                }
                if fqdn.len() > 0 {
                    let below = subdomain_names(fqdn, last.subdomains)->Ok_0;
                    assert(more == seq![fqdn] + below);
                    assert(more[0] == fqdn);
                    assert forall|x: Seq<char>| below.contains(x) implies #[trigger] more.contains(
                        x,
                    ) by {
                        let m = choose|m: int| 0 <= m < below.len() && below[m] == x;
                        assert(more[1 + m] == x);
                    }
                }
                assert forall|i: int|
                    0 <= i < list.len() && normalized(
                        (#[trigger] list[i]).fqdn,
                    ).len() > 0 implies names.contains(normalized(list[i].fqdn)) by {
                    if i < n {
                        assert(front[i] == list[i]);
                    } else {
                        assert(more.contains(fqdn));
                    }
                }
                assert forall|i: int, j: int|
                    0 <= i < list.len() && normalized((#[trigger] list[i]).fqdn).len() > 0 && 0
                        <= j < list[i].subdomains.len() && normalized(
                        #[trigger] list[i].subdomains[j],
                    ).len() > 0 implies names.contains(normalized(list[i].subdomains[j]))
                    && within(
                    normalized(list[i].subdomains[j]),
                    normalized(list[i].fqdn),
                ) by {
                    if i < n {
                        assert(front[i] == list[i]);
                        assert(front[i].subdomains[j] == list[i].subdomains[j]);
                    } else {
                        assert(more.contains(normalized(last.subdomains[j])));
                    }
                }
                assert forall|k: int| 0 <= k < names.len() implies is_answered(
                    #[trigger] names[k],
                    list,
                ) by {
                    if k < before.len() {
                        assert(names[k] == before[k]);
                        assert(is_answered(before[k], front));
                        let i = choose|i: int|
                            0 <= i < front.len() && is_answered_by(before[k], #[trigger] front[i]);
                        assert(list[i] == front[i]);
                    } else {
                        let m = k - before.len();
                        assert(names[k] == more[m]);
                        assert(fqdn.len() > 0);
                        if m > 0 {
                            let below = subdomain_names(fqdn, last.subdomains)->Ok_0;
                            assert(more[m] == below[m - 1]);
                            let j = choose|j: int|
                                0 <= j < last.subdomains.len() && normalized(
                                    #[trigger] last.subdomains[j],
                                ) == below[m - 1];
                            assert(normalized(last.subdomains[j]) == names[k]);
                        }
                        assert(is_answered_by(names[k], list[n]));
                    }
                }
            },
        }
    }
}

/// Nothing that an answer of the API holds is left out of its model.
pub proof fn law_answers_are_complete(
    domains: Seq<DomainResponse>,
    records: Seq<DnsRecordResponse>,
    meta: MetaResponse,
    i: int,
    k: int,
)
    ensures
        total_of(Some(meta)) == meta.total,
        total_of(None) is None,
        domain_models(domains).len() == domains.len(),
        response_models(records).len() == records.len(),
        0 <= i < records.len() ==> response_models(records)[i] == records[i]@,
        0 <= i < domains.len() ==> {
            &&& domain_models(domains)[i].fqdn == domains[i].fqdn@
            &&& domains[i].subdomains is None ==> domain_models(domains)[i].subdomains.len() == 0
            &&& domains[i].subdomains matches Some(list) ==> {
                &&& domain_models(domains)[i].subdomains.len() == list@.len()
                &&& 0 <= k < list@.len() ==> domain_models(domains)[i].subdomains[k]
                    == list@[k].fqdn@
            }
        },
{
}

/// What is listed of a set is in order, nothing twice, and nothing is missing.
pub proof fn law_sorted_sets(list: Seq<Seq<char>>, set: Set<Seq<char>>, name: Seq<char>)
    requires
        is_sorted_set(list, set),
    ensures
        list.contains(name) <==> set.contains(name),
        list.no_duplicates(),
        forall|i: int, j: int|
            0 <= i < j < list.len() ==> precedes(#[trigger] list[i], #[trigger] list[j]),
{
    assert forall|i: int, j: int|
        0 <= i < list.len() && 0 <= j < list.len() && i != j implies list[i] != list[j] by {
        if i < j {
            assert(precedes(list[i], list[j]));
            lemma_precedes_irreflexive(list[i]);
        } else {
            assert(precedes(list[j], list[i]));
            lemma_precedes_irreflexive(list[j]);
        }
    }
}

/// The listing of a zone after the first `n` pages.
pub open spec fn records_after(
    zone: Seq<char>,
    pages: Seq<Seq<ResponseModel>>,
    n: nat,
) -> RecordListingModel
    decreases n,
{
    if n == 0 {
        RecordListingModel::start(zone)
    } else {
        records_after(zone, pages, (n - 1) as nat).with_page(
            pages[n - 1].len(),
            page_records(pages[n - 1], zone)->Ok_0,
        )
    }
}

/// The listing of domains after the first `n` pages.
pub open spec fn domains_after(pages: Seq<Seq<DomainModel>>, n: nat) -> DomainListingModel
    decreases n,
{
    if n == 0 {
        DomainListingModel::start()
    } else {
        domains_after(pages, (n - 1) as nat).with_page(
            pages[n - 1].len(),
            page_names(pages[n - 1])->Ok_0,
        )
    }
}

/// The items of the first `n` pages, one after the other.
pub open spec fn items_of<T>(pages: Seq<Seq<T>>, n: nat) -> Seq<T>
    decreases n,
{
    if n == 0 {
        Seq::empty()
    } else {
        items_of(pages, (n - 1) as nat) + pages[n - 1]
    }
}

proof fn lemma_items_grow<T>(pages: Seq<Seq<T>>, n: nat, m: nat)
    requires
        n <= m,
    ensures
        items_of(pages, n).len() <= items_of(pages, m).len(),
    decreases m,
{
    if n < m {
        lemma_items_grow(pages, n, (m - 1) as nat);
    }
}

/// The records of a zone that were read page by page are those that the whole list
/// stands for, and as many were given out as the pages hold.
pub proof fn law_pages_of_records_make_up_the_list(
    zone: Seq<char>,
    pages: Seq<Seq<ResponseModel>>,
    n: nat,
)
    requires
        n <= pages.len(),
        forall|i: int| 0 <= i < n ==> page_records(#[trigger] pages[i], zone) is Ok,
        items_of(pages, n).len() <= u64::MAX,
    ensures
        records_after(zone, pages, n).zone == zone,
        records_after(zone, pages, n).offset == items_of(pages, n).len(),
        page_records(items_of(pages, n), zone) == Ok::<Seq<RecordModel>, Seq<char>>(
            records_after(zone, pages, n).records,
        ),
    decreases n,
{
    if n > 0 {
        let before = (n - 1) as nat;
        lemma_items_grow(pages, before, n);
        law_pages_of_records_make_up_the_list(zone, pages, before);
        law_record_pages_add_up(items_of(pages, before), pages[n - 1], zone);
        assert(page_records(pages[n - 1], zone) is Ok);
    }
}

/// The names that were read page by page are those that the whole list of domains
/// gives, and as many domains were given out as the pages hold.
pub proof fn law_pages_of_domains_make_up_the_list(pages: Seq<Seq<DomainModel>>, n: nat)
    requires
        n <= pages.len(),
        forall|i: int| 0 <= i < n ==> page_names(#[trigger] pages[i]) is Ok,
        items_of(pages, n).len() <= u64::MAX,
    ensures
        domains_after(pages, n).offset == items_of(pages, n).len(),
        page_names(items_of(pages, n)) is Ok,
        domains_after(pages, n).names == page_names(items_of(pages, n))->Ok_0.to_set(),
    decreases n,
{
    if n > 0 {
        let before = (n - 1) as nat;
        lemma_items_grow(pages, before, n);
        law_pages_of_domains_make_up_the_list(pages, before);
        law_domain_pages_add_up(items_of(pages, before), pages[n - 1]);
        assert(page_names(pages[n - 1]) is Ok);
        lemma_to_set_add(
            page_names(items_of(pages, before))->Ok_0,
            page_names(pages[n - 1])->Ok_0,
        );
    } else {
        assert(page_names(items_of(pages, n))->Ok_0.to_set() =~= Set::empty());
    }
}

} // verus!
