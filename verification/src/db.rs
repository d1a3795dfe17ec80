//! The store of endpoints and captured webhooks.
//!
//! An endpoint is identified by a UUID (held as its 128-bit value). Each
//! captured webhook gets the next id of a counter that never goes back, like
//! an SQLite `AUTOINCREMENT` key, and belongs to one endpoint. Deleting an
//! endpoint deletes its webhooks; inserting a webhook evicts the webhooks of
//! that endpoint beyond the retention limit, newest (by `received_at`, then
//! by id) first.

use vstd::prelude::*;

verus! {

/// An endpoint as stored.
#[derive(Debug, Clone)]
pub struct Endpoint {
    pub id: u128,
    pub label: String,
    pub description: String,
    /// Unix epoch seconds.
    pub created_at: i64,
}

/// The mathematical value of an [`Endpoint`].
#[verifier::ext_equal]
pub struct EndpointRecord {
    pub id: u128,
    pub label: Seq<char>,
    pub description: Seq<char>,
    pub created_at: i64,
}

impl View for Endpoint {
    type V = EndpointRecord;

    open spec fn view(&self) -> EndpointRecord {
        EndpointRecord {
            id: self.id,
            label: self.label@,
            description: self.description@,
            created_at: self.created_at,
        }
    }
}

/// An endpoint with the number of its webhooks and the newest `received_at`.
#[derive(Debug, Clone)]
pub struct EndpointSummary {
    pub id: u128,
    pub label: String,
    pub description: String,
    pub webhook_count: i64,
    pub last_received_at: Option<i64>,
}

/// The mathematical value of an [`EndpointSummary`].
#[verifier::ext_equal]
pub struct EndpointSummaryRecord {
    pub id: u128,
    pub label: Seq<char>,
    pub description: Seq<char>,
    pub webhook_count: i64,
    pub last_received_at: Option<i64>,
}

impl View for EndpointSummary {
    type V = EndpointSummaryRecord;

    open spec fn view(&self) -> EndpointSummaryRecord {
        EndpointSummaryRecord {
            id: self.id,
            label: self.label@,
            description: self.description@,
            webhook_count: self.webhook_count,
            last_received_at: self.last_received_at,
        }
    }
}

/// A request to store, as captured by the ingest path.
#[derive(Debug, Clone)]
pub struct NewWebhook<'a> {
    pub endpoint_id: u128,
    /// Unix epoch milliseconds.
    pub received_at: i64,
    pub method: &'a str,
    pub path: &'a str,
    pub query: &'a str,
    pub source_ip: &'a str,
    pub headers_json: &'a str,
    pub body: &'a [u8],
}

/// A stored webhook.
#[derive(Debug, Clone)]
pub struct Webhook {
    pub id: i64,
    pub endpoint_id: u128,
    pub received_at: i64,
    pub method: String,
    pub path: String,
    pub query: String,
    pub source_ip: String,
    pub headers_json: String,
    pub body: Vec<u8>,
    pub body_size: i64,
}

/// The mathematical value of a [`Webhook`].
#[verifier::ext_equal]
pub struct WebhookRecord {
    pub id: i64,
    pub endpoint_id: u128,
    pub received_at: i64,
    pub method: Seq<char>,
    pub path: Seq<char>,
    pub query: Seq<char>,
    pub source_ip: Seq<char>,
    pub headers_json: Seq<char>,
    pub body: Seq<u8>,
    pub body_size: i64,
}

impl View for Webhook {
    type V = WebhookRecord;

    open spec fn view(&self) -> WebhookRecord {
        WebhookRecord {
            id: self.id,
            endpoint_id: self.endpoint_id,
            received_at: self.received_at,
            method: self.method@,
            path: self.path@,
            query: self.query@,
            source_ip: self.source_ip@,
            headers_json: self.headers_json@,
            body: self.body@,
            body_size: self.body_size,
        }
    }
}

/// The columns of a webhook shown in lists.
#[derive(Debug, Clone)]
pub struct WebhookSummary {
    pub id: i64,
    pub received_at: i64,
    pub method: String,
    pub path: String,
    pub source_ip: String,
    pub body_size: i64,
}

/// The mathematical value of a [`WebhookSummary`].
#[verifier::ext_equal]
pub struct WebhookSummaryRecord {
    pub id: i64,
    pub received_at: i64,
    pub method: Seq<char>,
    pub path: Seq<char>,
    pub source_ip: Seq<char>,
    pub body_size: i64,
}

impl View for WebhookSummary {
    type V = WebhookSummaryRecord;

    open spec fn view(&self) -> WebhookSummaryRecord {
        WebhookSummaryRecord {
            id: self.id,
            received_at: self.received_at,
            method: self.method@,
            path: self.path@,
            source_ip: self.source_ip@,
            body_size: self.body_size,
        }
    }
}

/// Why the store refused a write.
#[derive(PartialEq, Eq, Structural, Clone, Copy, Debug)]
pub enum StoreError {
    /// An endpoint with this id exists already.
    DuplicateEndpoint,
    /// The webhook names an endpoint that does not exist.
    UnknownEndpoint,
    /// The largest webhook id has been used; no further webhook can be stored.
    WebhookIdsExhausted,
}

/// The mathematical value of a [`Store`]: its endpoints in creation order,
/// its webhooks in id order, and the largest webhook id ever handed out.
#[verifier::ext_equal]
pub struct StoreModel {
    pub endpoints: Seq<EndpointRecord>,
    pub webhooks: Seq<WebhookRecord>,
    pub last_webhook_id: int,
}

pub open spec fn endpoint_records(s: Seq<Endpoint>) -> Seq<EndpointRecord> {
    s.map_values(|e: Endpoint| e@)
}

pub open spec fn webhook_records(s: Seq<Webhook>) -> Seq<WebhookRecord> {
    s.map_values(|w: Webhook| w@)
}

pub open spec fn has_endpoint(eps: Seq<EndpointRecord>, id: u128) -> bool {
    exists|i: int| 0 <= i < eps.len() && #[trigger] eps[i].id == id
}

pub open spec fn has_webhook(ws: Seq<WebhookRecord>, id: i64) -> bool {
    exists|i: int| 0 <= i < ws.len() && #[trigger] ws[i].id == id
}

/// The endpoint with the given id, if there is one.
pub open spec fn find_endpoint(eps: Seq<EndpointRecord>, id: u128) -> Option<EndpointRecord> {
    if has_endpoint(eps, id) {
        Some(eps[choose|i: int| 0 <= i < eps.len() && #[trigger] eps[i].id == id])
    } else {
        None
    }
}

/// The webhook with the given id, if there is one.
pub open spec fn find_webhook(ws: Seq<WebhookRecord>, id: i64) -> Option<WebhookRecord> {
    if has_webhook(ws, id) {
        Some(ws[choose|i: int| 0 <= i < ws.len() && #[trigger] ws[i].id == id])
    } else {
        None
    }
}

/// `a` comes before `b` in newest-first order: a later `received_at`, or the
/// same `received_at` and a larger id (`ORDER BY received_at DESC, id DESC`).
pub open spec fn newer(a: WebhookRecord, b: WebhookRecord) -> bool {
    a.received_at > b.received_at || (a.received_at == b.received_at && a.id > b.id)
}

/// How many webhooks of `w`'s endpoint in `ws` are newer than `w`: its
/// position in the newest-first list of that endpoint.
pub open spec fn newer_count(ws: Seq<WebhookRecord>, w: WebhookRecord) -> nat {
    ws.filter(|v: WebhookRecord| v.endpoint_id == w.endpoint_id && newer(v, w)).len()
}

/// Whether `w` stays after an insert for endpoint `endpoint_id` with
/// retention `retain`: webhooks of other endpoints always stay; those of
/// `endpoint_id` stay when fewer than `retain` of them are newer. A negative
/// `retain` keeps all (a negative SQLite `LIMIT` is no limit).
pub open spec fn survives_eviction(ws: Seq<WebhookRecord>, endpoint_id: u128, retain: int, w: WebhookRecord) -> bool {
    w.endpoint_id != endpoint_id || retain < 0 || newer_count(ws, w) < retain
}

/// The stored form of `new` under webhook id `id`.
pub open spec fn new_webhook_record<'a>(id: i64, new: &NewWebhook<'a>) -> WebhookRecord {
    WebhookRecord {
        id,
        endpoint_id: new.endpoint_id,
        received_at: new.received_at,
        method: new.method@,
        path: new.path@,
        query: new.query@,
        source_ip: new.source_ip@,
        headers_json: new.headers_json@,
        body: new.body@,
        body_size: new.body@.len() as i64,
    }
}

/// The list columns of a stored webhook.
pub open spec fn summary_of(w: WebhookRecord) -> WebhookSummaryRecord {
    WebhookSummaryRecord {
        id: w.id,
        received_at: w.received_at,
        method: w.method,
        path: w.path,
        source_ip: w.source_ip,
        body_size: w.body_size,
    }
}

/// [`newer`] on list rows.
pub open spec fn summary_newer(a: WebhookSummaryRecord, b: WebhookSummaryRecord) -> bool {
    a.received_at > b.received_at || (a.received_at == b.received_at && a.id > b.id)
}

/// How many rows a listing with `limit` gives out of `n` (a negative SQLite
/// `LIMIT` is no limit).
pub open spec fn limited_len(n: int, limit: int) -> int {
    if limit < 0 || limit >= n { n } else { limit }
}

/// `r` lists a webhook of endpoint `endpoint_id`.
pub open spec fn is_row_of(m: StoreModel, endpoint_id: u128, r: WebhookSummaryRecord) -> bool {
    exists|j: int| 0 <= j < m.webhooks.len() && #[trigger] m.webhooks[j].endpoint_id == endpoint_id
        && r == summary_of(m.webhooks[j])
}

/// `s` is the newest-first list of the `limit` newest webhooks of endpoint
/// `endpoint_id`: it has the right length, each row is a webhook of that
/// endpoint, the rows go strictly from newest to oldest, and every webhook of
/// the endpoint that is left out is older than every row.
pub open spec fn is_newest_first(m: StoreModel, endpoint_id: u128, limit: int, s: Seq<WebhookSummaryRecord>) -> bool {
    &&& s.len() == limited_len(m.webhooks_of(endpoint_id).len() as int, limit)
    &&& forall|k: int| 0 <= k < s.len() ==> is_row_of(m, endpoint_id, #[trigger] s[k])
    &&& forall|a: int, b: int| 0 <= a < b < s.len() ==> summary_newer(#[trigger] s[a], #[trigger] s[b])
    &&& forall|j: int| 0 <= j < m.webhooks.len() && #[trigger] m.webhooks[j].endpoint_id == endpoint_id
        && (forall|k: int| 0 <= k < s.len() ==> s[k].id != m.webhooks[j].id)
        ==> (forall|k: int| 0 <= k < s.len() ==> summary_newer(s[k], summary_of(m.webhooks[j])))
}

/// The newest `received_at` among the webhooks of endpoint `endpoint_id`.
pub open spec fn latest_received(ws: Seq<WebhookRecord>, endpoint_id: u128) -> Option<i64>
    decreases ws.len(),
{
    if ws.len() == 0 {
        None
    } else {
        let rest = latest_received(ws.drop_last(), endpoint_id);
        let w = ws.last();
        if w.endpoint_id != endpoint_id {
            rest
        } else {
            match rest {
                None => Some(w.received_at),
                Some(r) => Some(if r >= w.received_at { r } else { w.received_at }),
            }
        }
    }
}

/// The dashboard summary of endpoint `e`: its webhook count and the newest
/// `received_at` among its webhooks.
pub open spec fn endpoint_summary_of(m: StoreModel, e: EndpointRecord) -> EndpointSummaryRecord {
    EndpointSummaryRecord {
        id: e.id,
        label: e.label,
        description: e.description,
        webhook_count: m.webhooks_of(e.id).len() as i64,
        last_received_at: latest_received(m.webhooks, e.id),
    }
}

/// `r` is the summary of one of the endpoints.
pub open spec fn is_summary_of_some_endpoint(m: StoreModel, r: EndpointSummaryRecord) -> bool {
    exists|i: int| 0 <= i < m.endpoints.len() && #[trigger] endpoint_summary_of(m, m.endpoints[i]) == r
}

/// Some row of `s` has id `id`.
pub open spec fn lists_id(s: Seq<EndpointSummaryRecord>, id: u128) -> bool {
    exists|k: int| 0 <= k < s.len() && #[trigger] s[k].id == id
}

/// The creation time of the endpoint with id `id`.
pub open spec fn created_at_of(m: StoreModel, id: u128) -> i64 {
    find_endpoint(m.endpoints, id)->0.created_at
}

/// `s` lists every endpoint once with its summary, newest creation first
/// (`ORDER BY created_at DESC`; the order of endpoints created in the same
/// second is left open).
pub open spec fn is_endpoint_listing(m: StoreModel, s: Seq<EndpointSummaryRecord>) -> bool {
    &&& s.len() == m.endpoints.len()
    &&& forall|k: int| 0 <= k < s.len() ==> is_summary_of_some_endpoint(m, #[trigger] s[k])
    &&& forall|i: int| 0 <= i < m.endpoints.len() ==> lists_id(s, #[trigger] m.endpoints[i].id)
    &&& forall|a: int, b: int| 0 <= a < b < s.len() ==>
        created_at_of(m, #[trigger] s[a].id) >= created_at_of(m, #[trigger] s[b].id)
}

pub open spec fn endpoint_summary_records(s: Seq<EndpointSummary>) -> Seq<EndpointSummaryRecord> {
    s.map_values(|e: EndpointSummary| e@)
}

pub open spec fn summary_records(s: Seq<WebhookSummary>) -> Seq<WebhookSummaryRecord> {
    s.map_values(|w: WebhookSummary| w@)
}

impl StoreModel {
    /// No two endpoints share an id; webhook ids strictly increase, lie in
    /// `1..=last_webhook_id`, and every webhook belongs to an endpoint.
    pub open spec fn well_formed(self) -> bool {
        &&& forall|i: int, j: int|
            0 <= i < j < self.endpoints.len() ==> #[trigger] self.endpoints[i].id != #[trigger] self.endpoints[j].id
        &&& forall|i: int, j: int|
            0 <= i < j < self.webhooks.len() ==> #[trigger] self.webhooks[i].id < #[trigger] self.webhooks[j].id
        &&& forall|i: int|
            0 <= i < self.webhooks.len() ==> 1 <= #[trigger] self.webhooks[i].id <= self.last_webhook_id
        &&& forall|i: int|
            0 <= i < self.webhooks.len() ==> has_endpoint(self.endpoints, #[trigger] self.webhooks[i].endpoint_id)
        &&& 0 <= self.last_webhook_id <= i64::MAX
    }

    /// The state after deleting endpoint `id`, with its webhooks.
    pub open spec fn without_endpoint(self, id: u128) -> StoreModel {
        StoreModel {
            endpoints: self.endpoints.filter(|e: EndpointRecord| e.id != id),
            webhooks: self.webhooks.filter(|w: WebhookRecord| w.endpoint_id != id),
            last_webhook_id: self.last_webhook_id,
        }
    }

    /// The state after deleting every webhook of endpoint `endpoint_id`.
    pub open spec fn without_webhooks_of(self, endpoint_id: u128) -> StoreModel {
        StoreModel {
            webhooks: self.webhooks.filter(|w: WebhookRecord| w.endpoint_id != endpoint_id),
            ..self
        }
    }

    /// The state after deleting webhook `id`.
    pub open spec fn without_webhook(self, id: i64) -> StoreModel {
        StoreModel {
            webhooks: self.webhooks.filter(|w: WebhookRecord| w.id != id),
            ..self
        }
    }

    /// The state after storing `rec` (whose id is the next one) and evicting
    /// the webhooks of its endpoint beyond the `retain` newest.
    pub open spec fn with_webhook(self, rec: WebhookRecord, retain: int) -> StoreModel {
        StoreModel {
            endpoints: self.endpoints,
            webhooks: self.webhooks.push(rec).filter(
                |w: WebhookRecord| survives_eviction(self.webhooks.push(rec), rec.endpoint_id, retain, w),
            ),
            last_webhook_id: rec.id as int,
        }
    }

    /// The webhooks of one endpoint, in id order.
    pub open spec fn webhooks_of(self, endpoint_id: u128) -> Seq<WebhookRecord> {
        self.webhooks.filter(|w: WebhookRecord| w.endpoint_id == endpoint_id)
    }

    pub open spec fn empty() -> StoreModel {
        StoreModel { endpoints: Seq::empty(), webhooks: Seq::empty(), last_webhook_id: 0 }
    }
}

/// The store. Its fields are private: every change goes through the
/// functions of this module, which keep it well formed.
pub struct Store {
    endpoints: Vec<Endpoint>,
    webhooks: Vec<Webhook>,
    last_webhook_id: i64,
}

impl View for Store {
    type V = StoreModel;

    closed spec fn view(&self) -> StoreModel {
        StoreModel {
            endpoints: endpoint_records(self.endpoints@),
            webhooks: webhook_records(self.webhooks@),
            last_webhook_id: self.last_webhook_id as int,
        }
    }
}

impl Store {
    #[verifier::type_invariant]
    spec fn inv(self) -> bool {
        self@.well_formed()
    }

    /// The model of every store is well formed. The invariant is private to
    /// this module; a call makes it known to the caller, for instance to apply
    /// the laws of the `laws` module to an actual store. It does nothing at
    /// run time.
    pub fn reveal_well_formed(&self)
        ensures
            self@.well_formed(),
    {
        proof { use_type_invariant(self); }
    }

    /// An empty store.
    pub fn new() -> (s: Store)
        ensures
            s@ == StoreModel::empty(),
            s@.well_formed(),
    {
        let s = Store { endpoints: Vec::new(), webhooks: Vec::new(), last_webhook_id: 0 };
        proof {
            assert(s@.endpoints =~= Seq::<EndpointRecord>::empty());
            assert(s@.webhooks =~= Seq::<WebhookRecord>::empty());
        }
        s
    }

    fn endpoint_index(&self, id: u128) -> (res: Option<usize>)
        ensures
            match res {
                Some(i) => i < self.endpoints.len() && self.endpoints@[i as int].id == id
                    && find_endpoint(self@.endpoints, id) == Some(self@.endpoints[i as int]),
                None => !has_endpoint(self@.endpoints, id) && find_endpoint(self@.endpoints, id) is None,
            },
    {
        proof { use_type_invariant(self); }
        let n = self.endpoints.len();
        let mut i: usize = 0;
        while i < n
            invariant
                n == self.endpoints.len(),
                i <= n,
                self@.well_formed(),
                forall|j: int| 0 <= j < i ==> self.endpoints@[j].id != id,
            decreases n - i,
        {
            if self.endpoints[i].id == id {
                proof {
                    assert(self@.endpoints[i as int].id == id);
                    let k = choose|k: int| 0 <= k < self@.endpoints.len() && #[trigger] self@.endpoints[k].id == id;
                    assert(self@.well_formed());
                    if k < i {
                        assert(self@.endpoints[k].id != self@.endpoints[i as int].id);
                    } else if k > i {
                        assert(self@.endpoints[i as int].id != self@.endpoints[k].id);
                    }
                }
                return Some(i);
            }
            i = i + 1;
        }
        proof {
            assert forall|j: int| 0 <= j < self@.endpoints.len() implies #[trigger] self@.endpoints[j].id != id by {
                assert(self@.endpoints[j] == self.endpoints@[j]@);
            }
        }
        None
    }

    fn webhook_index(&self, id: i64) -> (res: Option<usize>)
        ensures
            match res {
                Some(i) => i < self.webhooks.len() && self.webhooks@[i as int].id == id
                    && find_webhook(self@.webhooks, id) == Some(self@.webhooks[i as int]),
                None => !has_webhook(self@.webhooks, id) && find_webhook(self@.webhooks, id) is None,
            },
    {
        proof { use_type_invariant(self); }
        let n = self.webhooks.len();
        let mut i: usize = 0;
        while i < n
            invariant
                n == self.webhooks.len(),
                i <= n,
                self@.well_formed(),
                forall|j: int| 0 <= j < i ==> self.webhooks@[j].id != id,
            decreases n - i,
        {
            if self.webhooks[i].id == id {
                proof {
                    assert(self@.webhooks[i as int].id == id);
                    let k = choose|k: int| 0 <= k < self@.webhooks.len() && #[trigger] self@.webhooks[k].id == id;
                    assert(self@.well_formed());
                    if k < i {
                        assert(self@.webhooks[k].id < self@.webhooks[i as int].id);
                    } else if k > i {
                        assert(self@.webhooks[i as int].id < self@.webhooks[k].id);
                    }
                }
                return Some(i);
            }
            i = i + 1;
        }
        proof {
            assert forall|j: int| 0 <= j < self@.webhooks.len() implies #[trigger] self@.webhooks[j].id != id by {
                assert(self@.webhooks[j] == self.webhooks@[j]@);
            }
        }
        None
    }
}


/// `uuid::Uuid::new_v4`, taken as its 128-bit value (`Uuid::as_u128`).
/// The value is random; the contract states only what uuid's source fixes
/// in every outcome: the version nibble is 4 and the variant bits are `10`.
#[verifier::external_body]
fn new_v4_id() -> (id: u128)
    ensures
        (id >> 76u128) & 0xfu128 == 4,
        (id >> 62u128) & 0x3u128 == 2,
{
    uuid::Uuid::new_v4().as_u128()
}

/// `time::OffsetDateTime::now_utc`, taken as whole seconds since the Unix
/// epoch (`unix_timestamp`). It reads the clock, so nothing is stated of it.
#[verifier::external_body]
fn unix_now_seconds() -> i64 {
    time::OffsetDateTime::now_utc().unix_timestamp()
}

fn clone_endpoint(e: &Endpoint) -> (r: Endpoint)
    ensures
        r@ == e@,
{
    Endpoint {
        id: e.id,
        label: e.label.clone(),
        description: e.description.clone(),
        created_at: e.created_at,
    }
}

fn clone_webhook(w: &Webhook) -> (r: Webhook)
    ensures
        r@ == w@,
{
    Webhook {
        id: w.id,
        endpoint_id: w.endpoint_id,
        received_at: w.received_at,
        method: w.method.clone(),
        path: w.path.clone(),
        query: w.query.clone(),
        source_ip: w.source_ip.clone(),
        headers_json: w.headers_json.clone(),
        body: vstd::slice::slice_to_vec(w.body.as_slice()),
        body_size: w.body_size,
    }
}

/// The version nibble of a UUID held as its 128-bit value.
pub open spec fn uuid_version(id: u128) -> u128 {
    (id >> 76u128) & 0xfu128
}

/// `id` has the shape of a random UUID: version 4 and the RFC 4122 variant
/// (bits `10`).
pub open spec fn is_v4_uuid(id: u128) -> bool {
    uuid_version(id) == 4 && (id >> 62u128) & 0x3u128 == 2
}

/// Some endpoint's id has the shape of a random UUID, so a freshly drawn one
/// could collide with it.
pub open spec fn holds_v4_id(eps: Seq<EndpointRecord>) -> bool {
    exists|i: int| 0 <= i < eps.len() && #[trigger] is_v4_uuid(eps[i].id)
}

/// A filtered sequence is a subsequence: its elements sit at strictly
/// increasing positions of the original.
pub proof fn lemma_filter_positions<A>(s: Seq<A>, p: spec_fn(A) -> bool) -> (pos: Seq<int>)
    ensures
        pos.len() == s.filter(p).len(),
        forall|k: int| 0 <= k < pos.len() ==> 0 <= #[trigger] pos[k] < s.len() && s.filter(p)[k] == s[pos[k]],
        forall|a: int, b: int| 0 <= a < b < pos.len() ==> #[trigger] pos[a] < #[trigger] pos[b],
    decreases s.len(),
{
    reveal_with_fuel(Seq::filter, 1);
    if s.len() == 0 {
        Seq::empty()
    } else {
        let pos0 = lemma_filter_positions(s.drop_last(), p);
        if p(s.last()) {
            let pos = pos0.push(s.len() - 1);
            assert forall|k: int| 0 <= k < pos.len() implies 0 <= #[trigger] pos[k] < s.len() && s.filter(p)[k] == s[pos[k]] by {
                if k < pos0.len() {
                    assert(s.drop_last()[pos0[k]] == s[pos0[k]]);
                }
            }
            pos
        } else {
            assert forall|k: int| 0 <= k < pos0.len() implies 0 <= #[trigger] pos0[k] < s.len() && s.filter(p)[k] == s[pos0[k]] by {
                assert(s.drop_last()[pos0[k]] == s[pos0[k]]);
            }
            pos0
        }
    }
}

/// Keeping only some webhooks keeps a store well formed.
pub proof fn lemma_filter_webhooks_well_formed(m: StoreModel, p: spec_fn(WebhookRecord) -> bool)
    requires
        m.well_formed(),
    ensures
        (StoreModel { webhooks: m.webhooks.filter(p), ..m }).well_formed(),
{
    let pos = lemma_filter_positions(m.webhooks, p);
    let f = m.webhooks.filter(p);
    assert forall|i: int, j: int| 0 <= i < j < f.len() implies #[trigger] f[i].id < #[trigger] f[j].id by {
        assert(pos[i] < pos[j]);
    }
    assert forall|i: int| 0 <= i < f.len() implies 1 <= #[trigger] f[i].id <= m.last_webhook_id by {
        assert(f[i] == m.webhooks[pos[i]]);
    }
    assert forall|i: int| 0 <= i < f.len() implies has_endpoint(m.endpoints, #[trigger] f[i].endpoint_id) by {
        assert(f[i] == m.webhooks[pos[i]]);
    }
}

/// Deleting an endpoint together with its webhooks keeps a store well formed.
proof fn lemma_without_endpoint_well_formed(m: StoreModel, id: u128)
    requires
        m.well_formed(),
    ensures
        m.without_endpoint(id).well_formed(),
{
    let pe = |e: EndpointRecord| e.id != id;
    let pw = |w: WebhookRecord| w.endpoint_id != id;
    let r = m.without_endpoint(id);
    let epos = lemma_filter_positions(m.endpoints, pe);
    let wpos = lemma_filter_positions(m.webhooks, pw);
    assert forall|i: int, j: int| 0 <= i < j < r.endpoints.len() implies #[trigger] r.endpoints[i].id != #[trigger] r.endpoints[j].id by {
        assert(epos[i] < epos[j]);
    }
    assert forall|i: int, j: int| 0 <= i < j < r.webhooks.len() implies #[trigger] r.webhooks[i].id < #[trigger] r.webhooks[j].id by {
        assert(wpos[i] < wpos[j]);
    }
    assert forall|i: int| 0 <= i < r.webhooks.len() implies 1 <= #[trigger] r.webhooks[i].id <= r.last_webhook_id by {
        assert(r.webhooks[i] == m.webhooks[wpos[i]]);
    }
    assert forall|i: int| 0 <= i < r.webhooks.len() implies has_endpoint(r.endpoints, #[trigger] r.webhooks[i].endpoint_id) by {
        let w = r.webhooks[i];
        assert(w == m.webhooks[wpos[i]]);
        assert(pw(w)) by {
            m.webhooks.lemma_filter_pred(pw, i);
        }
        let k = choose|k: int| 0 <= k < m.endpoints.len() && #[trigger] m.endpoints[k].id == w.endpoint_id;
        m.endpoints.lemma_filter_contains(pe, k);
        let kk = choose|kk: int| 0 <= kk < r.endpoints.len() && r.endpoints[kk] == m.endpoints[k];
        assert(r.endpoints[kk].id == w.endpoint_id);
    }
}

/// Keeps the webhooks whose flag is set.
fn keep_flagged_webhooks(ws: Vec<Webhook>, flags: &Vec<bool>, Ghost(p): Ghost<spec_fn(WebhookRecord) -> bool>) -> (out: Vec<Webhook>)
    requires
        flags.len() == ws.len(),
        forall|i: int| 0 <= i < ws.len() ==> flags[i] == p(#[trigger] ws@[i]@),
    ensures
        webhook_records(out@) == webhook_records(ws@).filter(p),
{
    let ghost orig = ws@;
    let ghost recs = webhook_records(ws@);
    let mut rest = ws;
    let mut out: Vec<Webhook> = Vec::new();
    let n = rest.len();
    let mut i: usize = 0;
    proof {
        assert(recs.take(0) =~= Seq::<WebhookRecord>::empty());
        reveal_with_fuel(Seq::filter, 1);
        assert(webhook_records(out@) =~= recs.take(0).filter(p));
        assert(rest@ =~= orig.subrange(0, n as int));
    }
    while i < n
        invariant
            n == orig.len(),
            i <= n,
            flags.len() == n,
            recs == webhook_records(orig),
            forall|j: int| 0 <= j < n ==> flags[j] == p(#[trigger] orig[j]@),
            rest@ == orig.subrange(i as int, n as int),
            webhook_records(out@) == recs.take(i as int).filter(p),
        decreases n - i,
    {
        let w = rest.remove(0);
        proof {
            assert(w == orig[i as int]);
            assert(recs.take(i + 1) =~= recs.take(i as int).push(recs[i as int]));
            recs.take(i as int).lemma_filter_push(recs[i as int], p);
            assert(rest@ =~= orig.subrange(i + 1, n as int));
        }
        let ghost before = out@;
        if flags[i] {
            out.push(w);
            proof {
                assert(webhook_records(out@) =~= webhook_records(before).push(w@));
            }
        }
        i = i + 1;
    }
    proof {
        assert(recs.take(n as int) =~= recs);
    }
    out
}

/// Keeps the endpoints whose id differs from `id`.
fn drop_endpoint_from(eps: Vec<Endpoint>, id: u128) -> (out: Vec<Endpoint>)
    ensures
        endpoint_records(out@) == endpoint_records(eps@).filter(|e: EndpointRecord| e.id != id),
{
    let ghost p = |e: EndpointRecord| e.id != id;
    let ghost orig = eps@;
    let ghost recs = endpoint_records(eps@);
    let mut rest = eps;
    let mut out: Vec<Endpoint> = Vec::new();
    let n = rest.len();
    let mut i: usize = 0;
    proof {
        assert(recs.take(0) =~= Seq::<EndpointRecord>::empty());
        reveal_with_fuel(Seq::filter, 1);
        assert(endpoint_records(out@) =~= recs.take(0).filter(p));
        assert(rest@ =~= orig.subrange(0, n as int));
    }
    while i < n
        invariant
            n == orig.len(),
            i <= n,
            recs == endpoint_records(orig),
            p == (|e: EndpointRecord| e.id != id),
            rest@ == orig.subrange(i as int, n as int),
            endpoint_records(out@) == recs.take(i as int).filter(p),
        decreases n - i,
    {
        let e = rest.remove(0);
        proof {
            assert(e == orig[i as int]);
            assert(recs.take(i + 1) =~= recs.take(i as int).push(recs[i as int]));
            recs.take(i as int).lemma_filter_push(recs[i as int], p);
            assert(rest@ =~= orig.subrange(i + 1, n as int));
        }
        let ghost before = out@;
        if e.id != id {
            out.push(e);
            proof {
                assert(endpoint_records(out@) =~= endpoint_records(before).push(e@));
            }
        }
        i = i + 1;
    }
    proof {
        assert(recs.take(n as int) =~= recs);
    }
    out
}

/// Moves the contents out of `store`, leaving it empty.
fn take_parts(store: &mut Store) -> (res: (Vec<Endpoint>, Vec<Webhook>, i64))
    ensures
        old(store)@.well_formed(),
        endpoint_records(res.0@) == old(store)@.endpoints,
        webhook_records(res.1@) == old(store)@.webhooks,
        res.2 as int == old(store)@.last_webhook_id,
        final(store)@ == StoreModel::empty(),
{
    proof { use_type_invariant(&*store); }
    let mut tmp = Store::new();
    std::mem::swap(&mut tmp, store);
    proof { use_type_invariant(&tmp); }
    let Store { endpoints, webhooks, last_webhook_id } = tmp;
    (endpoints, webhooks, last_webhook_id)
}

/// Puts contents that make up the well-formed model `m` into `store`.
fn put_parts(store: &mut Store, endpoints: Vec<Endpoint>, webhooks: Vec<Webhook>, last_webhook_id: i64, Ghost(m): Ghost<StoreModel>)
    requires
        m.well_formed(),
        endpoint_records(endpoints@) == m.endpoints,
        webhook_records(webhooks@) == m.webhooks,
        last_webhook_id as int == m.last_webhook_id,
    ensures
        final(store)@ == m,
{
    *store = Store { endpoints, webhooks, last_webhook_id };
}

/// Stores a new endpoint with the given id and creation time, unless an
/// endpoint with that id exists already (a uniqueness violation).
pub fn create_endpoint_with_id(store: &mut Store, id: u128, label: &str, description: &str, created_at: i64) -> (res: Result<Endpoint, StoreError>)
    ensures
        match res {
            Ok(e) => {
                &&& !has_endpoint(old(store)@.endpoints, id)
                &&& e@ == (EndpointRecord { id, label: label@, description: description@, created_at })
                &&& final(store)@ == (StoreModel { endpoints: old(store)@.endpoints.push(e@), ..old(store)@ })
            },
            Err(err) => {
                &&& err == StoreError::DuplicateEndpoint
                &&& has_endpoint(old(store)@.endpoints, id)
                &&& final(store)@ == old(store)@
            },
        },
{
    proof { use_type_invariant(&*store); }
    if store.endpoint_index(id).is_some() {
        return Err(StoreError::DuplicateEndpoint);
    }
    let e = Endpoint {
        id,
        label: label.to_owned(),
        description: description.to_owned(),
        created_at,
    };
    let r = clone_endpoint(&e);
    let ghost old_model = store@;
    let (mut eps, ws, last) = take_parts(store);
    eps.push(e);
    let ghost new_model = StoreModel { endpoints: old_model.endpoints.push(r@), ..old_model };
    proof {
        assert(endpoint_records(eps@) =~= new_model.endpoints);
        assert forall|i: int| 0 <= i < new_model.webhooks.len() implies has_endpoint(new_model.endpoints, #[trigger] new_model.webhooks[i].endpoint_id) by {
            let k = choose|k: int| 0 <= k < old_model.endpoints.len() && #[trigger] old_model.endpoints[k].id == old_model.webhooks[i].endpoint_id;
            assert(new_model.endpoints[k].id == new_model.webhooks[i].endpoint_id);
        }
    }
    put_parts(store, eps, ws, last, Ghost(new_model));
    Ok(r)
}

/// Creates an endpoint with a fresh random (version 4) UUID and the current
/// time as its creation time. It fails only when the drawn id is taken,
/// which needs an endpoint whose id has the shape of a random UUID: on a
/// store without one (an empty store, say) it always succeeds.
pub fn create_endpoint(store: &mut Store, label: &str, description: &str) -> (res: Result<Endpoint, StoreError>)
    ensures
        match res {
            Ok(e) => {
                &&& !has_endpoint(old(store)@.endpoints, e.id)
                &&& is_v4_uuid(e.id)
                &&& e@.label == label@
                &&& e@.description == description@
                &&& final(store)@ == (StoreModel { endpoints: old(store)@.endpoints.push(e@), ..old(store)@ })
            },
            Err(err) => {
                &&& err == StoreError::DuplicateEndpoint
                &&& final(store)@ == old(store)@
                &&& holds_v4_id(old(store)@.endpoints)
            },
        },
        !holds_v4_id(old(store)@.endpoints) ==> res is Ok,
{
    let id = new_v4_id();
    let now = unix_now_seconds();
    let res = create_endpoint_with_id(store, id, label, description, now);
    proof {
        if res is Err {
            let k = choose|k: int| 0 <= k < old(store)@.endpoints.len() && #[trigger] old(store)@.endpoints[k].id == id;
            assert(is_v4_uuid(old(store)@.endpoints[k].id));
        }
    }
    res
}

/// The endpoint with the given id.
pub fn get_endpoint(store: &Store, id: u128) -> (res: Option<Endpoint>)
    ensures
        match res {
            Some(e) => find_endpoint(store@.endpoints, id) == Some(e@),
            None => find_endpoint(store@.endpoints, id) is None,
        },
{
    match store.endpoint_index(id) {
        Some(i) => Some(clone_endpoint(&store.endpoints[i])),
        None => None,
    }
}

/// The webhook with the given id.
pub fn get_webhook(store: &Store, id: i64) -> (res: Option<Webhook>)
    ensures
        match res {
            Some(w) => find_webhook(store@.webhooks, id) == Some(w@),
            None => find_webhook(store@.webhooks, id) is None,
        },
{
    match store.webhook_index(id) {
        Some(i) => Some(clone_webhook(&store.webhooks[i])),
        None => None,
    }
}


/// Deletes endpoint `id` and, as the foreign key's `ON DELETE CASCADE` does,
/// all of its webhooks. Returns whether the endpoint existed.
pub fn delete_endpoint(store: &mut Store, id: u128) -> (res: bool)
    ensures
        res == has_endpoint(old(store)@.endpoints, id),
        final(store)@ == old(store)@.without_endpoint(id),
{
    let found = store.endpoint_index(id).is_some();
    let ghost old_model = store@;
    let (eps, ws, last) = take_parts(store);
    let eps = drop_endpoint_from(eps, id);
    let n = ws.len();
    let mut flags: Vec<bool> = Vec::new();
    let mut i: usize = 0;
    while i < n
        invariant
            n == ws.len(),
            i <= n,
            flags.len() == i,
            forall|j: int| 0 <= j < i ==> flags[j] == (ws@[j].endpoint_id != id),
        decreases n - i,
    {
        flags.push(ws[i].endpoint_id != id);
        i = i + 1;
    }
    let ghost pw = |w: WebhookRecord| w.endpoint_id != id;
    let ws = keep_flagged_webhooks(ws, &flags, Ghost(pw));
    proof {
        lemma_without_endpoint_well_formed(old_model, id);
        assert(webhook_records(ws@) == old_model.without_endpoint(id).webhooks);
    }
    put_parts(store, eps, ws, last, Ghost(old_model.without_endpoint(id)));
    found
}

/// Deletes every webhook of endpoint `endpoint_id`; the endpoint stays.
/// Returns how many webhooks were deleted.
pub fn clear_endpoint(store: &mut Store, endpoint_id: u128) -> (res: u64)
    ensures
        res as int == old(store)@.webhooks_of(endpoint_id).len(),
        final(store)@ == old(store)@.without_webhooks_of(endpoint_id),
{
    let ghost old_model = store@;
    let (eps, ws, last) = take_parts(store);
    let ghost pw = |w: WebhookRecord| w.endpoint_id != endpoint_id;
    let ghost pc = |w: WebhookRecord| w.endpoint_id == endpoint_id;
    let ghost recs = webhook_records(ws@);
    let n = ws.len();
    let mut flags: Vec<bool> = Vec::new();
    let mut count: u64 = 0;
    let mut i: usize = 0;
    proof {
        reveal_with_fuel(Seq::filter, 1);
        assert(recs.take(0) =~= Seq::<WebhookRecord>::empty());
    }
    while i < n
        invariant
            n == ws.len(),
            i <= n,
            recs == webhook_records(ws@),
            pc == (|w: WebhookRecord| w.endpoint_id == endpoint_id),
            flags.len() == i,
            forall|j: int| 0 <= j < i ==> flags[j] == (ws@[j].endpoint_id != endpoint_id),
            count as int == recs.take(i as int).filter(pc).len(),
            count <= i,
        decreases n - i,
    {
        proof {
            assert(recs.take(i + 1) =~= recs.take(i as int).push(recs[i as int]));
            recs.take(i as int).lemma_filter_len_push(pc, recs[i as int]);
        }
        if ws[i].endpoint_id == endpoint_id {
            count = count + 1;
        }
        flags.push(ws[i].endpoint_id != endpoint_id);
        i = i + 1;
    }
    proof {
        assert(recs.take(n as int) =~= recs);
    }
    let ws = keep_flagged_webhooks(ws, &flags, Ghost(pw));
    proof {
        lemma_filter_webhooks_well_formed(old_model, pw);
    }
    put_parts(store, eps, ws, last, Ghost(old_model.without_webhooks_of(endpoint_id)));
    count
}

/// Deletes webhook `id`. Returns the endpoint it belonged to, or `None`
/// when there was no such webhook.
pub fn delete_webhook(store: &mut Store, id: i64) -> (res: Option<u128>)
    ensures
        match res {
            Some(eid) => find_webhook(old(store)@.webhooks, id) matches Some(w) && w.endpoint_id == eid,
            None => find_webhook(old(store)@.webhooks, id) is None,
        },
        final(store)@ == old(store)@.without_webhook(id),
{
    let found = match store.webhook_index(id) {
        Some(i) => Some(store.webhooks[i].endpoint_id),
        None => None,
    };
    let ghost old_model = store@;
    let (eps, ws, last) = take_parts(store);
    let n = ws.len();
    let mut flags: Vec<bool> = Vec::new();
    let mut i: usize = 0;
    while i < n
        invariant
            n == ws.len(),
            i <= n,
            flags.len() == i,
            forall|j: int| 0 <= j < i ==> flags[j] == (ws@[j].id != id),
        decreases n - i,
    {
        flags.push(ws[i].id != id);
        i = i + 1;
    }
    let ghost pw = |w: WebhookRecord| w.id != id;
    let ws = keep_flagged_webhooks(ws, &flags, Ghost(pw));
    proof {
        lemma_filter_webhooks_well_formed(old_model, pw);
    }
    put_parts(store, eps, ws, last, Ghost(old_model.without_webhook(id)));
    found
}


/// Storing a webhook whose id is the next one, for an existing endpoint,
/// keeps a store well formed.
pub proof fn lemma_push_webhook_well_formed(m: StoreModel, rec: WebhookRecord)
    requires
        m.well_formed(),
        rec.id as int == m.last_webhook_id + 1,
        has_endpoint(m.endpoints, rec.endpoint_id),
    ensures
        (StoreModel { webhooks: m.webhooks.push(rec), last_webhook_id: rec.id as int, ..m }).well_formed(),
{
    let r = StoreModel { webhooks: m.webhooks.push(rec), last_webhook_id: rec.id as int, ..m };
    assert forall|i: int, j: int| 0 <= i < j < r.webhooks.len() implies #[trigger] r.webhooks[i].id < #[trigger] r.webhooks[j].id by {
        if j == m.webhooks.len() {
            assert(r.webhooks[i] == m.webhooks[i]);
        } else {
            assert(r.webhooks[i] == m.webhooks[i] && r.webhooks[j] == m.webhooks[j]);
        }
    }
    assert forall|i: int| 0 <= i < r.webhooks.len() implies 1 <= #[trigger] r.webhooks[i].id <= r.last_webhook_id by {
        if i < m.webhooks.len() {
            assert(r.webhooks[i] == m.webhooks[i]);
        }
    }
    assert forall|i: int| 0 <= i < r.webhooks.len() implies has_endpoint(r.endpoints, #[trigger] r.webhooks[i].endpoint_id) by {
        if i < m.webhooks.len() {
            assert(r.webhooks[i] == m.webhooks[i]);
        }
    }
}

/// How many webhooks of `w`'s endpoint in `ws` are newer than `w`.
fn count_newer(ws: &Vec<Webhook>, w: &Webhook) -> (res: usize)
    ensures
        res as int == newer_count(webhook_records(ws@), w@),
{
    let ghost recs = webhook_records(ws@);
    let ghost q = |v: WebhookRecord| v.endpoint_id == w@.endpoint_id && newer(v, w@);
    let n = ws.len();
    let mut cnt: usize = 0;
    let mut j: usize = 0;
    proof {
        reveal_with_fuel(Seq::filter, 1);
        assert(recs.take(0) =~= Seq::<WebhookRecord>::empty());
    }
    while j < n
        invariant
            n == ws.len(),
            j <= n,
            recs == webhook_records(ws@),
            q == (|v: WebhookRecord| v.endpoint_id == w@.endpoint_id && newer(v, w@)),
            cnt as int == recs.take(j as int).filter(q).len(),
            cnt <= j,
        decreases n - j,
    {
        proof {
            assert(recs.take(j + 1) =~= recs.take(j as int).push(recs[j as int]));
            recs.take(j as int).lemma_filter_len_push(q, recs[j as int]);
        }
        let v = &ws[j];
        if v.endpoint_id == w.endpoint_id
            && (v.received_at > w.received_at || (v.received_at == w.received_at && v.id > w.id)) {
            cnt = cnt + 1;
        }
        j = j + 1;
    }
    proof {
        assert(recs.take(n as int) =~= recs);
    }
    cnt
}

/// Stores a webhook under the next id, then evicts the webhooks of its
/// endpoint beyond the `retain` newest (by `received_at`, then by id),
/// as one step. Returns the new webhook's id. A webhook for an unknown
/// endpoint is refused (a foreign-key violation), and so is any webhook once
/// the largest id has been used.
pub fn insert_webhook(store: &mut Store, new: &NewWebhook, retain: i64) -> (res: Result<i64, StoreError>)
    ensures
        match res {
            Ok(id) => {
                &&& has_endpoint(old(store)@.endpoints, new.endpoint_id)
                &&& id as int == old(store)@.last_webhook_id + 1
                &&& final(store)@ == old(store)@.with_webhook(new_webhook_record(id, new), retain as int)
            },
            Err(err) => {
                &&& final(store)@ == old(store)@
                &&& (err == StoreError::UnknownEndpoint <==> !has_endpoint(old(store)@.endpoints, new.endpoint_id))
                &&& (err == StoreError::WebhookIdsExhausted <==> (has_endpoint(old(store)@.endpoints, new.endpoint_id)
                    && old(store)@.last_webhook_id == i64::MAX))
                &&& err != StoreError::DuplicateEndpoint
            },
        },
{
    proof { use_type_invariant(&*store); }
    if store.endpoint_index(new.endpoint_id).is_none() {
        return Err(StoreError::UnknownEndpoint);
    }
    if store.last_webhook_id == i64::MAX {
        return Err(StoreError::WebhookIdsExhausted);
    }
    let id = store.last_webhook_id + 1;
    let w = Webhook {
        id,
        endpoint_id: new.endpoint_id,
        received_at: new.received_at,
        method: new.method.to_owned(),
        path: new.path.to_owned(),
        query: new.query.to_owned(),
        source_ip: new.source_ip.to_owned(),
        headers_json: new.headers_json.to_owned(),
        body: vstd::slice::slice_to_vec(new.body),
        body_size: new.body.len() as i64,
    };
    let ghost rec = w@;
    proof {
        assert(rec == new_webhook_record(id, new));
    }
    let ghost old_model = store@;
    let (eps, mut ws, _last) = take_parts(store);
    ws.push(w);
    let ghost all = webhook_records(ws@);
    proof {
        assert(all =~= old_model.webhooks.push(rec));
    }
    let eid = new.endpoint_id;
    let n = ws.len();
    let mut flags: Vec<bool> = Vec::new();
    let mut i: usize = 0;
    while i < n
        invariant
            n == ws.len(),
            i <= n,
            all == webhook_records(ws@),
            flags.len() == i,
            forall|j: int| 0 <= j < i ==> flags[j] == survives_eviction(all, eid, retain as int, #[trigger] ws@[j]@),
        decreases n - i,
    {
        let keep = if ws[i].endpoint_id != eid || retain < 0 {
            true
        } else {
            let c = count_newer(&ws, &ws[i]);
            (c as u128) < (retain as u128)
        };
        flags.push(keep);
        i = i + 1;
    }
    let ghost pw = |v: WebhookRecord| survives_eviction(all, eid, retain as int, v);
    let ws = keep_flagged_webhooks(ws, &flags, Ghost(pw));
    let ghost pushed = StoreModel { webhooks: old_model.webhooks.push(rec), last_webhook_id: id as int, ..old_model };
    proof {
        lemma_push_webhook_well_formed(old_model, rec);
        lemma_filter_webhooks_well_formed(pushed, pw);
        assert(old_model.with_webhook(rec, retain as int) =~= StoreModel { webhooks: pushed.webhooks.filter(pw), ..pushed });
    }
    put_parts(store, eps, ws, id, Ghost(old_model.with_webhook(rec, retain as int)));
    Ok(id)
}


fn summarize_webhook(w: &Webhook) -> (r: WebhookSummary)
    ensures
        r@ == summary_of(w@),
{
    WebhookSummary {
        id: w.id,
        received_at: w.received_at,
        method: w.method.clone(),
        path: w.path.clone(),
        source_ip: w.source_ip.clone(),
        body_size: w.body_size,
    }
}

/// Rows that go strictly from newest to oldest.
pub open spec fn strictly_newest_first(s: Seq<WebhookSummaryRecord>) -> bool {
    forall|a: int, b: int| 0 <= a < b < s.len() ==> summary_newer(#[trigger] s[a], #[trigger] s[b])
}

/// Inserts `sw` into the newest-first rows `sorted`, whose ids are all smaller
/// than its own, at the place that keeps them newest-first. Returns the place.
fn insert_newest_first(sorted: &mut Vec<WebhookSummary>, sw: WebhookSummary) -> (p: usize)
    requires
        strictly_newest_first(summary_records(old(sorted)@)),
        forall|k: int| 0 <= k < old(sorted)@.len() ==> #[trigger] old(sorted)@[k].id < sw.id,
    ensures
        p <= old(sorted)@.len(),
        summary_records(final(sorted)@) == summary_records(old(sorted)@).insert(p as int, sw@),
        strictly_newest_first(summary_records(final(sorted)@)),
{
    let ghost before = summary_records(sorted@);
    let mut p: usize = 0;
    while p < sorted.len()
        && !(sw.received_at > sorted[p].received_at
            || (sw.received_at == sorted[p].received_at && sw.id > sorted[p].id))
        invariant
            p <= sorted.len(),
            before == summary_records(sorted@),
            forall|k: int| 0 <= k < before.len() ==> #[trigger] before[k].id < sw.id,
            forall|q: int| 0 <= q < p ==> summary_newer(#[trigger] before[q], sw@),
        decreases sorted.len() - p,
    {
        p = p + 1;
    }
    let ghost swr = sw@;
    sorted.insert(p, sw);
    proof {
        let after = summary_records(sorted@);
        assert(after =~= before.insert(p as int, swr));
        assert forall|a: int, b: int| 0 <= a < b < after.len() implies
            summary_newer(#[trigger] after[a], #[trigger] after[b]) by {
            if b < p {
                assert(after[a] == before[a] && after[b] == before[b]);
            } else if b == p {
                assert(after[a] == before[a]);
            } else if a < p {
                assert(after[a] == before[a] && after[b] == before[b - 1]);
            } else if a == p {
                assert(after[b] == before[b - 1]);
                assert(summary_newer(swr, before[p as int]));
                if b - 1 > p {
                    assert(summary_newer(before[p as int], before[b - 1]));
                }
            } else {
                assert(after[a] == before[a - 1] && after[b] == before[b - 1]);
            }
        }
    }
    p
}

/// Some entry of `src` is `j`.
spec fn covers(src: Seq<int>, j: int) -> bool {
    exists|k: int| 0 <= k < src.len() && src[k] == j
}

/// After inserting row `i` at place `p`, the places of the rows keep
/// pointing at the right webhooks and every handled webhook stays covered.
proof fn lemma_insert_tracks_sources(
    recs: Seq<WebhookRecord>,
    endpoint_id: u128,
    i: int,
    p: int,
    before: Seq<WebhookSummaryRecord>,
    src: Seq<int>,
    after: Seq<WebhookSummaryRecord>,
)
    requires
        0 <= i < recs.len(),
        recs[i].endpoint_id == endpoint_id,
        0 <= p <= before.len(),
        src.len() == before.len(),
        after == before.insert(p, summary_of(recs[i])),
        forall|k: int| 0 <= k < src.len() ==> 0 <= #[trigger] src[k] < i && recs[src[k]].endpoint_id == endpoint_id
            && before[k] == summary_of(recs[src[k]]),
        forall|j: int| 0 <= j < i && #[trigger] recs[j].endpoint_id == endpoint_id ==>
            exists|k: int| 0 <= k < src.len() && src[k] == j,
    ensures
        ({
            let src2 = src.insert(p, i);
            &&& src2.len() == after.len()
            &&& forall|k: int| 0 <= k < src2.len() ==> 0 <= #[trigger] src2[k] < i + 1
                && recs[src2[k]].endpoint_id == endpoint_id && after[k] == summary_of(recs[src2[k]])
            &&& forall|j: int| 0 <= j < i + 1 && #[trigger] recs[j].endpoint_id == endpoint_id ==>
                exists|k: int| 0 <= k < src2.len() && src2[k] == j
        }),
{
    let src2 = src.insert(p, i);
    assert forall|k: int| 0 <= k < src2.len() implies 0 <= #[trigger] src2[k] < i + 1
        && recs[src2[k]].endpoint_id == endpoint_id && after[k] == summary_of(recs[src2[k]]) by {
        if k < p {
            assert(src2[k] == src[k] && after[k] == before[k]);
        } else if k > p {
            assert(src2[k] == src[k - 1] && after[k] == before[k - 1]);
        }
    }
    assert forall|j: int| 0 <= j < i + 1 && #[trigger] recs[j].endpoint_id == endpoint_id implies
        exists|k: int| 0 <= k < src2.len() && src2[k] == j by {
        if j == i {
            assert(src2[p] == j);
        } else {
            let k = choose|k: int| 0 <= k < src.len() && src[k] == j;
            if k < p {
                assert(src2[k] == j);
            } else {
                assert(src2[k + 1] == j);
            }
        }
    }
}

/// All webhooks of endpoint `endpoint_id`, newest first, with the place of
/// each row's webhook in the store.
fn sorted_webhooks_of(store: &Store, endpoint_id: u128) -> (res: (Vec<WebhookSummary>, Ghost<Seq<int>>))
    ensures
        summary_records(res.0@).len() == store@.webhooks_of(endpoint_id).len(),
        res.1@.len() == res.0@.len(),
        forall|k: int| 0 <= k < res.1@.len() ==> 0 <= #[trigger] res.1@[k] < store@.webhooks.len()
            && store@.webhooks[res.1@[k]].endpoint_id == endpoint_id
            && summary_records(res.0@)[k] == summary_of(store@.webhooks[res.1@[k]]),
        strictly_newest_first(summary_records(res.0@)),
        forall|j: int| 0 <= j < store@.webhooks.len() && #[trigger] store@.webhooks[j].endpoint_id == endpoint_id ==>
            covers(res.1@, j),
{
    proof { use_type_invariant(store); }
    let ghost m = store@;
    let ghost recs = m.webhooks;
    let ghost is_eid = |w: WebhookRecord| w.endpoint_id == endpoint_id;
    let ws = &store.webhooks;
    let n = ws.len();
    let mut sorted: Vec<WebhookSummary> = Vec::new();
    let ghost mut src: Seq<int> = Seq::empty();
    let mut i: usize = 0;
    proof {
        reveal_with_fuel(Seq::filter, 1);
        assert(recs.take(0) =~= Seq::<WebhookRecord>::empty());
    }
    while i < n
        invariant
            n == ws.len(),
            i <= n,
            recs == webhook_records(ws@),
            m.well_formed(),
            recs == m.webhooks,
            is_eid == (|w: WebhookRecord| w.endpoint_id == endpoint_id),
            sorted.len() == recs.take(i as int).filter(is_eid).len(),
            src.len() == sorted.len(),
            forall|k: int| 0 <= k < src.len() ==> 0 <= #[trigger] src[k] < i && recs[src[k]].endpoint_id == endpoint_id
                && summary_records(sorted@)[k] == summary_of(recs[src[k]]),
            strictly_newest_first(summary_records(sorted@)),
            forall|j: int| 0 <= j < i && #[trigger] recs[j].endpoint_id == endpoint_id ==>
                exists|k: int| 0 <= k < src.len() && src[k] == j,
        decreases n - i,
    {
        proof {
            assert(recs.take(i + 1) =~= recs.take(i as int).push(recs[i as int]));
            recs.take(i as int).lemma_filter_len_push(is_eid, recs[i as int]);
        }
        if ws[i].endpoint_id == endpoint_id {
            let ghost before = summary_records(sorted@);
            proof {
                assert forall|k: int| 0 <= k < sorted@.len() implies #[trigger] sorted@[k].id < ws@[i as int].id by {
                    assert(sorted@[k].id == before[k].id);
                    assert(recs[src[k]].id < recs[i as int].id);
                }
            }
            let sw = summarize_webhook(&ws[i]);
            let p = insert_newest_first(&mut sorted, sw);
            proof {
                lemma_insert_tracks_sources(recs, endpoint_id, i as int, p as int, before, src, summary_records(sorted@));
                src = src.insert(p as int, i as int);
            }
        }
        i = i + 1;
    }
    proof {
        assert(recs.take(n as int) =~= recs);
        let sr = summary_records(sorted@);
        assert(sr.len() == m.webhooks_of(endpoint_id).len());
        assert forall|k: int| 0 <= k < src.len() implies 0 <= #[trigger] src[k] < recs.len()
            && recs[src[k]].endpoint_id == endpoint_id && sr[k] == summary_of(recs[src[k]]) by {
        }
        assert forall|j: int| 0 <= j < store@.webhooks.len() && #[trigger] store@.webhooks[j].endpoint_id == endpoint_id implies
            covers(src, j) by {
            assert(recs[j].endpoint_id == endpoint_id);
        }
    }
    (sorted, Ghost(src))
}

/// The webhooks of an endpoint, newest first (by `received_at`, then by id),
/// at most `limit` of them; a negative `limit` means no limit.
pub fn list_webhooks_for_endpoint(store: &Store, endpoint_id: u128, limit: i64) -> (res: Vec<WebhookSummary>)
    ensures
        is_newest_first(store@, endpoint_id, limit as int, summary_records(res@)),
{
    proof { use_type_invariant(store); }
    let ghost m = store@;
    let (mut sorted, Ghost(src)) = sorted_webhooks_of(store, endpoint_id);
    let total = sorted.len();
    let keep: usize = if limit < 0 {
        total
    } else if (limit as u128) < (total as u128) {
        limit as usize
    } else {
        total
    };
    let ghost full = summary_records(sorted@);
    sorted.truncate(keep);
    proof {
        let res = summary_records(sorted@);
        assert(res =~= full.subrange(0, keep as int));
        assert forall|k: int| 0 <= k < res.len() implies is_row_of(m, endpoint_id, #[trigger] res[k]) by {
            assert(res[k] == full[k]);
            let j = src[k];
            assert(0 <= j < m.webhooks.len() && m.webhooks[j].endpoint_id == endpoint_id && res[k] == summary_of(m.webhooks[j]));
        }
        assert forall|a: int, b: int| 0 <= a < b < res.len() implies summary_newer(#[trigger] res[a], #[trigger] res[b]) by {
            assert(res[a] == full[a] && res[b] == full[b]);
        }
        assert forall|j: int| 0 <= j < m.webhooks.len() && #[trigger] m.webhooks[j].endpoint_id == endpoint_id
            && (forall|k: int| 0 <= k < res.len() ==> res[k].id != m.webhooks[j].id)
            implies (forall|k: int| 0 <= k < res.len() ==> summary_newer(res[k], summary_of(m.webhooks[j]))) by {
            assert(covers(src, j));
            let k0 = choose|k: int| 0 <= k < src.len() && src[k] == j;
            assert(full[k0] == summary_of(m.webhooks[j]));
            if k0 < res.len() {
                assert(res[k0] == full[k0]);
            }
            assert forall|k: int| 0 <= k < res.len() implies summary_newer(res[k], summary_of(m.webhooks[j])) by {
                assert(res[k] == full[k]);
                assert(summary_newer(full[k], full[k0]));
            }
        }
    }
    sorted
}


/// A well-formed store holds no more webhooks than the largest id handed out.
proof fn lemma_webhook_count_bound(m: StoreModel)
    requires
        m.well_formed(),
    ensures
        m.webhooks.len() <= m.last_webhook_id,
{
    if m.webhooks.len() > 0 {
        assert forall|k: int| 0 <= k < m.webhooks.len() implies #[trigger] m.webhooks[k].id >= k + 1 by {
            lemma_id_at_least_position(m, k);
        }
        assert(m.webhooks[m.webhooks.len() - 1].id >= m.webhooks.len());
    }
}

proof fn lemma_id_at_least_position(m: StoreModel, k: int)
    requires
        m.well_formed(),
        0 <= k < m.webhooks.len(),
    ensures
        m.webhooks[k].id >= k + 1,
    decreases k,
{
    if k > 0 {
        lemma_id_at_least_position(m, k - 1);
        assert(m.webhooks[k - 1].id < m.webhooks[k].id);
    }
}

/// The summary of endpoint `e` of the store.
fn endpoint_summary(store: &Store, e: &Endpoint) -> (r: EndpointSummary)
    ensures
        r@ == endpoint_summary_of(store@, e@),
{
    proof {
        use_type_invariant(store);
        lemma_webhook_count_bound(store@);
    }
    let ghost m = store@;
    let ghost recs = m.webhooks;
    let ghost is_eid = |w: WebhookRecord| w.endpoint_id == e.id;
    let ws = &store.webhooks;
    let n = ws.len();
    let mut count: usize = 0;
    let mut latest: Option<i64> = None;
    let mut i: usize = 0;
    proof {
        reveal_with_fuel(Seq::filter, 1);
        assert(recs.take(0) =~= Seq::<WebhookRecord>::empty());
    }
    while i < n
        invariant
            n == ws.len(),
            i <= n,
            recs == webhook_records(ws@),
            recs == m.webhooks,
            n <= m.last_webhook_id <= i64::MAX,
            is_eid == (|w: WebhookRecord| w.endpoint_id == e.id),
            count as int == recs.take(i as int).filter(is_eid).len(),
            count <= i,
            latest == latest_received(recs.take(i as int), e.id),
        decreases n - i,
    {
        proof {
            assert(recs.take(i + 1) =~= recs.take(i as int).push(recs[i as int]));
            assert(recs.take(i + 1).drop_last() =~= recs.take(i as int));
            recs.take(i as int).lemma_filter_len_push(is_eid, recs[i as int]);
        }
        if ws[i].endpoint_id == e.id {
            count = count + 1;
            let t = ws[i].received_at;
            latest = match latest {
                None => Some(t),
                Some(r) => Some(if r >= t { r } else { t }),
            };
        }
        i = i + 1;
    }
    proof {
        assert(recs.take(n as int) =~= recs);
    }
    EndpointSummary {
        id: e.id,
        label: e.label.clone(),
        description: e.description.clone(),
        webhook_count: count as i64,
        last_received_at: latest,
    }
}

/// Some entry of `order` is `i`.
spec fn includes_index(order: Seq<usize>, i: int) -> bool {
    exists|k: int| 0 <= k < order.len() && #[trigger] order[k] == i
}

/// The positions of `eps`, ordered by creation time, newest first; endpoints
/// created at the same time keep their relative order.
fn created_desc_order(eps: &Vec<Endpoint>) -> (order: Vec<usize>)
    ensures
        order.len() == eps.len(),
        forall|k: int| 0 <= k < order.len() ==> #[trigger] order@[k] < eps.len(),
        forall|i: int| 0 <= i < eps.len() ==> #[trigger] includes_index(order@, i),
        forall|a: int, b: int| 0 <= a < b < order.len() ==>
            eps@[#[trigger] order@[a] as int].created_at >= eps@[#[trigger] order@[b] as int].created_at,
{
    let n = eps.len();
    let mut order: Vec<usize> = Vec::new();
    let mut i: usize = 0;
    while i < n
        invariant
            n == eps.len(),
            i <= n,
            order.len() == i,
            forall|k: int| 0 <= k < order.len() ==> #[trigger] order@[k] < i,
            forall|j: int| 0 <= j < i ==> #[trigger] includes_index(order@, j),
            forall|a: int, b: int| 0 <= a < b < order.len() ==>
                eps@[#[trigger] order@[a] as int].created_at >= eps@[#[trigger] order@[b] as int].created_at,
        decreases n - i,
    {
        let c = eps[i].created_at;
        let mut p: usize = 0;
        while p < order.len() && eps[order[p]].created_at >= c
            invariant
                n == eps.len(),
                p <= order.len(),
                forall|k: int| 0 <= k < order.len() ==> #[trigger] order@[k] < i,
                i < n,
                c == eps@[i as int].created_at,
                forall|q: int| 0 <= q < p ==> eps@[#[trigger] order@[q] as int].created_at >= c,
            decreases order.len() - p,
        {
            p = p + 1;
        }
        let ghost before = order@;
        order.insert(p, i);
        proof {
            let after = order@;
            assert(after =~= before.insert(p as int, i));
            assert forall|k: int| 0 <= k < after.len() implies #[trigger] after[k] < i + 1 by {
                if k < p {
                    assert(after[k] == before[k]);
                } else if k > p {
                    assert(after[k] == before[k - 1]);
                }
            }
            assert forall|j: int| 0 <= j < i + 1 implies #[trigger] includes_index(after, j) by {
                if j == i {
                    assert(after[p as int] == j);
                } else {
                    assert(includes_index(before, j));
                    let k = choose|k: int| 0 <= k < before.len() && #[trigger] before[k] == j;
                    if k < p {
                        assert(after[k] == j);
                    } else {
                        assert(after[k + 1] == j);
                    }
                }
            }
            assert forall|a: int, b: int| 0 <= a < b < after.len() implies
                eps@[#[trigger] after[a] as int].created_at >= eps@[#[trigger] after[b] as int].created_at by {
                if b < p {
                    assert(after[a] == before[a] && after[b] == before[b]);
                } else if b == p {
                    assert(after[a] == before[a]);
                } else if a < p {
                    assert(after[a] == before[a] && after[b] == before[b - 1]);
                } else if a == p {
                    assert(after[b] == before[b - 1]);
                    if p < before.len() {
                        assert(!(eps@[before[p as int] as int].created_at >= c));
                        if b - 1 > p {
                            assert(eps@[before[p as int] as int].created_at >= eps@[before[b - 1] as int].created_at);
                        }
                    }
                } else {
                    assert(after[a] == before[a - 1] && after[b] == before[b - 1]);
                }
            }
        }
        i = i + 1;
    }
    order
}

/// Every endpoint with its webhook count and newest `received_at`, newest
/// creation first.
pub fn list_endpoints(store: &Store) -> (res: Vec<EndpointSummary>)
    ensures
        is_endpoint_listing(store@, endpoint_summary_records(res@)),
{
    proof { use_type_invariant(store); }
    let ghost m = store@;
    let eps = &store.endpoints;
    let order = created_desc_order(eps);
    let n = order.len();
    let mut out: Vec<EndpointSummary> = Vec::new();
    let mut k: usize = 0;
    while k < n
        invariant
            n == order.len(),
            n == eps.len(),
            k <= n,
            m == store@,
            m.endpoints == endpoint_records(eps@),
            forall|q: int| 0 <= q < order.len() ==> #[trigger] order@[q] < eps.len(),
            out.len() == k,
            forall|q: int| 0 <= q < k ==> #[trigger] endpoint_summary_records(out@)[q]
                == endpoint_summary_of(m, m.endpoints[order@[q] as int]),
        decreases n - k,
    {
        let r = endpoint_summary(store, &eps[order[k]]);
        let ghost before = out@;
        proof {
            assert(forall|q: int| 0 <= q < k ==> #[trigger] endpoint_summary_records(before)[q]
                == endpoint_summary_of(m, m.endpoints[order@[q] as int]));
        }
        out.push(r);
        proof {
            assert forall|q: int| 0 <= q < k + 1 implies #[trigger] endpoint_summary_records(out@)[q]
                == endpoint_summary_of(m, m.endpoints[order@[q] as int]) by {
                if q < k {
                    assert(out@[q] == before[q]);
                    assert(endpoint_summary_records(out@)[q] == out@[q]@);
                    assert(endpoint_summary_records(before)[q] == before[q]@);
                } else {
                    assert(m.endpoints[order@[q] as int] == eps@[order@[q] as int]@);
                    assert(endpoint_summary_records(out@)[q] == out@[q]@);
                }
            }
        }
        k = k + 1;
    }
    proof {
        let s = endpoint_summary_records(out@);
        assert forall|q: int| 0 <= q < s.len() implies is_summary_of_some_endpoint(m, #[trigger] s[q]) by {
            let i = order@[q] as int;
            assert(endpoint_summary_of(m, m.endpoints[i]) == s[q]);
        }
        assert forall|i: int| 0 <= i < m.endpoints.len() implies lists_id(s, #[trigger] m.endpoints[i].id) by {
            assert(includes_index(order@, i));
            let q = choose|q: int| 0 <= q < order.len() && #[trigger] order@[q] == i;
            assert(s[q].id == m.endpoints[i].id);
        }
        assert forall|a: int, b: int| 0 <= a < b < s.len() implies
            created_at_of(m, #[trigger] s[a].id) >= created_at_of(m, #[trigger] s[b].id) by {
            let ia = order@[a] as int;
            let ib = order@[b] as int;
            assert(s[a].id == m.endpoints[ia].id);
            assert(s[b].id == m.endpoints[ib].id);
            lemma_find_endpoint_at(m, ia);
            lemma_find_endpoint_at(m, ib);
            assert(eps@[ia].created_at >= eps@[ib].created_at);
        }
    }
    out
}

/// In a well-formed store, looking up the id of the endpoint at position `i`
/// finds that endpoint.
proof fn lemma_find_endpoint_at(m: StoreModel, i: int)
    requires
        m.well_formed(),
        0 <= i < m.endpoints.len(),
    ensures
        find_endpoint(m.endpoints, m.endpoints[i].id) == Some(m.endpoints[i]),
{
    let id = m.endpoints[i].id;
    assert(has_endpoint(m.endpoints, id));
    let k = choose|k: int| 0 <= k < m.endpoints.len() && #[trigger] m.endpoints[k].id == id;
    if k < i {
        assert(m.endpoints[k].id != m.endpoints[i].id);
    } else if k > i {
        assert(m.endpoints[i].id != m.endpoints[k].id);
    }
}


/// The store made of the given rows: endpoints in creation order, webhooks in
/// id order, and the largest webhook id handed out so far.
pub open spec fn model_of(endpoints: Seq<Endpoint>, webhooks: Seq<Webhook>, last_webhook_id: i64) -> StoreModel {
    StoreModel {
        endpoints: endpoint_records(endpoints),
        webhooks: webhook_records(webhooks),
        last_webhook_id: last_webhook_id as int,
    }
}

/// Whether the ids of `ws` strictly increase from each webhook to the next.
fn ids_increase(ws: &Vec<Webhook>) -> (res: bool)
    ensures
        res == forall|i: int, j: int| 0 <= i < j < ws@.len() ==> #[trigger] ws@[i].id < #[trigger] ws@[j].id,
{
    let n = ws.len();
    if n == 0 {
        return true;
    }
    let mut i: usize = 1;
    while i < n
        invariant
            1 <= i <= n,
            n == ws.len(),
            forall|a: int, b: int| 0 <= a < b < i ==> #[trigger] ws@[a].id < #[trigger] ws@[b].id,
        decreases n - i,
    {
        if ws[i - 1].id >= ws[i].id {
            return false;
        }
        proof {
            assert forall|a: int, b: int| 0 <= a < b < i + 1 implies #[trigger] ws@[a].id < #[trigger] ws@[b].id by {
                if b == i && a < i - 1 {
                    assert(ws@[a].id < ws@[i - 1].id);
                }
            }
        }
        i = i + 1;
    }
    true
}

/// Rebuilds a store from saved rows. Returns `None` when the rows do not make
/// up a well-formed store (a repeated endpoint id, webhook ids out of order or
/// above `last_webhook_id`, or a webhook of an unknown endpoint).
pub fn restore(endpoints: Vec<Endpoint>, webhooks: Vec<Webhook>, last_webhook_id: i64) -> (res: Option<Store>)
    ensures
        res is Some <==> model_of(endpoints@, webhooks@, last_webhook_id).well_formed(),
        res matches Some(s) ==> s@ == model_of(endpoints@, webhooks@, last_webhook_id),
{
    let ghost m = model_of(endpoints@, webhooks@, last_webhook_id);
    if last_webhook_id < 0 {
        return None;
    }
    let ne = endpoints.len();
    let mut i: usize = 0;
    while i < ne
        invariant
            ne == endpoints.len(),
            i <= ne,
            m == model_of(endpoints@, webhooks@, last_webhook_id),
            forall|a: int, b: int| 0 <= a < b < ne && a < i ==> #[trigger] m.endpoints[a].id != #[trigger] m.endpoints[b].id,
        decreases ne - i,
    {
        let mut j: usize = i + 1;
        while j < ne
            invariant
                ne == endpoints.len(),
                i < ne,
                i < j <= ne,
                m == model_of(endpoints@, webhooks@, last_webhook_id),
                forall|a: int, b: int| 0 <= a < b < ne && a < i ==> #[trigger] m.endpoints[a].id != #[trigger] m.endpoints[b].id,
                forall|b: int| i < b < j ==> m.endpoints[i as int].id != #[trigger] m.endpoints[b].id,
            decreases ne - j,
        {
            if endpoints[i].id == endpoints[j].id {
                proof {
                    assert(m.endpoints[i as int].id == m.endpoints[j as int].id);
                }
                return None;
            }
            j = j + 1;
        }
        i = i + 1;
    }
    if !ids_increase(&webhooks) {
        proof {
            let (a, b) = choose|a: int, b: int| 0 <= a < b < webhooks@.len() && !(#[trigger] webhooks@[a].id < #[trigger] webhooks@[b].id);
            assert(!(m.webhooks[a].id < m.webhooks[b].id));
        }
        return None;
    }
    let nw = webhooks.len();
    proof {
        assert forall|a: int, b: int| 0 <= a < b < nw implies #[trigger] m.webhooks[a].id < #[trigger] m.webhooks[b].id by {
            assert(webhooks@[a].id < webhooks@[b].id);
        }
    }
    let mut k: usize = 0;
    while k < nw
        invariant
            nw == webhooks.len(),
            ne == endpoints.len(),
            k <= nw,
            0 <= last_webhook_id,
            m == model_of(endpoints@, webhooks@, last_webhook_id),
            forall|a: int, b: int| 0 <= a < b < ne ==> #[trigger] m.endpoints[a].id != #[trigger] m.endpoints[b].id,
            forall|a: int, b: int| 0 <= a < b < nw ==> #[trigger] m.webhooks[a].id < #[trigger] m.webhooks[b].id,
            forall|a: int| 0 <= a < k ==> 1 <= #[trigger] m.webhooks[a].id <= last_webhook_id
                && has_endpoint(m.endpoints, m.webhooks[a].endpoint_id),
        decreases nw - k,
    {
        let w = &webhooks[k];
        if w.id < 1 || w.id > last_webhook_id {
            proof {
                assert(m.webhooks[k as int].id == w.id);
            }
            return None;
        }
        let mut found = false;
        let mut e: usize = 0;
        while e < ne && !found
            invariant
                ne == endpoints.len(),
                e <= ne,
                k < nw,
                nw == webhooks.len(),
                m == model_of(endpoints@, webhooks@, last_webhook_id),
                found ==> has_endpoint(m.endpoints, m.webhooks[k as int].endpoint_id),
                !found ==> forall|q: int| 0 <= q < e ==> #[trigger] m.endpoints[q].id != m.webhooks[k as int].endpoint_id,
            decreases ne - e, if found { 0int } else { 1int },
        {
            if endpoints[e].id == webhooks[k].endpoint_id {
                found = true;
                proof {
                    assert(m.endpoints[e as int].id == m.webhooks[k as int].endpoint_id);
                }
            } else {
                e = e + 1;
            }
        }
        if !found {
            proof {
                assert(!has_endpoint(m.endpoints, m.webhooks[k as int].endpoint_id));
            }
            return None;
        }
        k = k + 1;
    }
    proof {
        assert(k == nw);
        assert(m.webhooks.len() == nw);
        assert(m.endpoints.len() == ne);
        assert forall|a: int| 0 <= a < m.webhooks.len() implies 1 <= #[trigger] m.webhooks[a].id <= m.last_webhook_id by {
            assert(1 <= m.webhooks[a].id <= last_webhook_id);
        }
        assert forall|a: int| 0 <= a < m.webhooks.len() implies has_endpoint(m.endpoints, #[trigger] m.webhooks[a].endpoint_id) by {
            assert(1 <= m.webhooks[a].id <= last_webhook_id);
        }
        assert(m.well_formed());
    }
    let s = Store { endpoints, webhooks, last_webhook_id };
    Some(s)
}

impl Store {
    /// The largest webhook id handed out so far; the next webhook gets the
    /// one after it.
    pub fn last_webhook_id(&self) -> (res: i64)
        ensures
            res as int == self@.last_webhook_id,
    {
        self.last_webhook_id
    }
}

} // verus!
