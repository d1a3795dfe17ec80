//! Laws of the webhook store that span several operations: what a read gives
//! back after a write, the per-endpoint retention cap and which webhooks it
//! evicts, and what deletions leave behind. They are stated over store
//! models; to apply one to an actual store `s`, call `s.reveal_well_formed()`,
//! which makes `s@.well_formed()` known.

use vstd::prelude::*;
use crate::routes::ingest::nanos_to_millis;
use crate::db::{
    endpoint_summary_of, find_endpoint, find_webhook, has_endpoint, has_webhook, is_newest_first,
    is_row_of, latest_received, created_at_of, is_endpoint_listing, EndpointSummaryRecord,
    lemma_filter_positions, lemma_filter_webhooks_well_formed, lemma_push_webhook_well_formed, newer,
    newer_count, summary_newer, summary_of, survives_eviction, EndpointRecord, StoreModel,
    WebhookRecord, WebhookSummaryRecord,
};

verus! {

/// Filtering twice is filtering by both predicates.
pub proof fn lemma_filter_twice<A>(s: Seq<A>, p: spec_fn(A) -> bool, q: spec_fn(A) -> bool)
    ensures
        s.filter(p).filter(q) == s.filter(|x: A| p(x) && q(x)),
    decreases s.len(),
{
    reveal_with_fuel(Seq::filter, 1);
    let pq = |x: A| p(x) && q(x);
    if s.len() > 0 {
        lemma_filter_twice(s.drop_last(), p, q);
        let fp = s.drop_last().filter(p);
        if p(s.last()) {
            fp.lemma_filter_push(s.last(), q);
        }
        assert(s.filter(p).filter(q) =~= s.filter(pq));
    } else {
        assert(s.filter(p).filter(q) =~= s.filter(pq));
    }
}

/// A filter keeps at most as many elements as a weaker filter, and strictly
/// fewer when the weaker one keeps an element that it drops.
pub proof fn lemma_filter_len_weaker<A>(s: Seq<A>, p: spec_fn(A) -> bool, q: spec_fn(A) -> bool)
    requires
        forall|i: int| 0 <= i < s.len() && p(#[trigger] s[i]) ==> q(s[i]),
    ensures
        s.filter(p).len() <= s.filter(q).len(),
        (exists|i: int| 0 <= i < s.len() && q(#[trigger] s[i]) && !p(s[i])) ==> s.filter(p).len() < s.filter(q).len(),
    decreases s.len(),
{
    reveal_with_fuel(Seq::filter, 1);
    if s.len() > 0 {
        let t = s.drop_last();
        assert forall|i: int| 0 <= i < t.len() && p(#[trigger] t[i]) implies q(t[i]) by {
            assert(t[i] == s[i]);
        }
        lemma_filter_len_weaker(t, p, q);
        if exists|i: int| 0 <= i < s.len() && q(#[trigger] s[i]) && !p(s[i]) {
            let i = choose|i: int| 0 <= i < s.len() && q(#[trigger] s[i]) && !p(s[i]);
            if i < s.len() - 1 {
                assert(t[i] == s[i]);
            }
        }
    }
}

/// Filtering by a predicate that nothing meets leaves nothing.
pub proof fn lemma_filter_none<A>(s: Seq<A>, p: spec_fn(A) -> bool)
    requires
        forall|i: int| 0 <= i < s.len() ==> !p(#[trigger] s[i]),
    ensures
        s.filter(p).len() == 0,
{
    let pos = lemma_filter_positions(s, p);
    if s.filter(p).len() > 0 {
        s.lemma_filter_pred(p, 0);
        assert(s.filter(p)[0] == s[pos[0]]);
    }
}

/// Filtering by a predicate that everything meets changes nothing.
pub proof fn lemma_filter_all<A>(s: Seq<A>, p: spec_fn(A) -> bool)
    requires
        forall|i: int| 0 <= i < s.len() ==> p(#[trigger] s[i]),
    ensures
        s.filter(p) == s,
    decreases s.len(),
{
    reveal_with_fuel(Seq::filter, 1);
    if s.len() > 0 {
        let t = s.drop_last();
        assert forall|i: int| 0 <= i < t.len() implies p(#[trigger] t[i]) by {
            assert(t[i] == s[i]);
        }
        lemma_filter_all(t, p);
        assert(s.filter(p) =~= s);
    }
}


/// After an endpoint is created (appended to the endpoints, its id new),
/// looking its id up gives it back.
pub proof fn law_get_after_create(m: StoreModel, e: EndpointRecord)
    requires
        m.well_formed(),
        !has_endpoint(m.endpoints, e.id),
    ensures
        find_endpoint(m.endpoints.push(e), e.id) == Some(e),
{
    let eps = m.endpoints.push(e);
    assert(eps[eps.len() - 1].id == e.id);
    let k = choose|k: int| 0 <= k < eps.len() && #[trigger] eps[k].id == e.id;
    if k < eps.len() - 1 {
        assert(eps[k] == m.endpoints[k]);
    }
}

/// Webhook ids in a store with `rec` appended (its id the next one) are
/// strictly increasing.
proof fn lemma_pushed_ids_increase(m: StoreModel, rec: WebhookRecord)
    requires
        m.well_formed(),
        rec.id as int == m.last_webhook_id + 1,
    ensures
        forall|i: int, j: int| 0 <= i < j < m.webhooks.push(rec).len() ==>
            #[trigger] m.webhooks.push(rec)[i].id < #[trigger] m.webhooks.push(rec)[j].id,
{
    let all = m.webhooks.push(rec);
    assert forall|i: int, j: int| 0 <= i < j < all.len() implies #[trigger] all[i].id < #[trigger] all[j].id by {
        assert(all[i] == m.webhooks[i]);
        if j < m.webhooks.len() {
            assert(all[j] == m.webhooks[j]);
        }
    }
}

/// A webhook newer than another of the same endpoint has fewer newer ones.
proof fn lemma_newer_has_smaller_count(all: Seq<WebhookRecord>, a: WebhookRecord, b: WebhookRecord)
    requires
        a.endpoint_id == b.endpoint_id,
        newer(a, b),
        exists|i: int| 0 <= i < all.len() && all[i] == a,
    ensures
        newer_count(all, a) < newer_count(all, b),
{
    let pa = |v: WebhookRecord| v.endpoint_id == a.endpoint_id && newer(v, a);
    let pb = |v: WebhookRecord| v.endpoint_id == b.endpoint_id && newer(v, b);
    let i = choose|i: int| 0 <= i < all.len() && all[i] == a;
    assert(pb(all[i]) && !pa(all[i]));
    lemma_filter_len_weaker(all, pa, pb);
}

/// The webhooks of `rec`'s endpoint that survive the eviction after `rec` is stored.
spec fn kept_of_endpoint(all: Seq<WebhookRecord>, endpoint_id: u128, retain: int) -> spec_fn(WebhookRecord) -> bool {
    |w: WebhookRecord| survives_eviction(all, endpoint_id, retain, w) && w.endpoint_id == endpoint_id
}

/// The per-endpoint cap: after a webhook is stored with retention
/// `retain >= 0`, its endpoint holds at most `retain` webhooks.
pub proof fn law_retention_cap(m: StoreModel, rec: WebhookRecord, retain: int)
    requires
        m.well_formed(),
        rec.id as int == m.last_webhook_id + 1,
        retain >= 0,
    ensures
        m.with_webhook(rec, retain).webhooks_of(rec.endpoint_id).len() <= retain,
{
    let eid = rec.endpoint_id;
    let all = m.webhooks.push(rec);
    let surv = |w: WebhookRecord| survives_eviction(all, eid, retain, w);
    let is_eid = |w: WebhookRecord| w.endpoint_id == eid;
    let both = kept_of_endpoint(all, eid, retain);
    lemma_filter_twice(all, surv, is_eid);
    assert((|x: WebhookRecord| surv(x) && is_eid(x)) =~= both);
    assert(m.with_webhook(rec, retain).webhooks_of(eid) == all.filter(both));
    let t = all.filter(both);
    let pos = lemma_filter_positions(all, both);
    lemma_pushed_ids_increase(m, rec);
    let ranks = t.map_values(|w: WebhookRecord| newer_count(all, w) as int);
    assert forall|a: int, b: int| 0 <= a < ranks.len() && 0 <= b < ranks.len() && a != b implies ranks[a] != ranks[b] by {
        assert(t[a] == all[pos[a]] && t[b] == all[pos[b]]);
        assert(both(all.filter(both)[a]) && both(all.filter(both)[b])) by {
            all.lemma_filter_pred(both, a);
            all.lemma_filter_pred(both, b);
        }
        if a < b {
            assert(pos[a] < pos[b]);
            assert(all[pos[a]].id < all[pos[b]].id);
        } else {
            assert(pos[b] < pos[a]);
            assert(all[pos[b]].id < all[pos[a]].id);
        }
        if newer(t[a], t[b]) {
            lemma_newer_has_smaller_count(all, t[a], t[b]);
        } else {
            assert(newer(t[b], t[a]));
            lemma_newer_has_smaller_count(all, t[b], t[a]);
        }
    }
    assert(ranks.no_duplicates());
    ranks.unique_seq_to_set();
    vstd::set_lib::lemma_int_range(0, retain);
    assert forall|r: int| ranks.to_set().contains(r) implies vstd::set_lib::set_int_range(0, retain).contains(r) by {
        let k = choose|k: int| 0 <= k < ranks.len() && ranks[k] == r;
        all.lemma_filter_pred(both, k);
    }
    vstd::set_lib::lemma_len_subset(ranks.to_set(), vstd::set_lib::set_int_range(0, retain));
}


/// Below the cap nothing is evicted: when the endpoint holds fewer than
/// `retain` webhooks before the insert (or `retain` is negative, no limit),
/// the new webhook is simply added.
pub proof fn law_no_eviction_below_cap(m: StoreModel, rec: WebhookRecord, retain: int)
    requires
        m.well_formed(),
        rec.id as int == m.last_webhook_id + 1,
        retain < 0 || m.webhooks_of(rec.endpoint_id).len() < retain,
    ensures
        m.with_webhook(rec, retain).webhooks == m.webhooks.push(rec),
{
    let eid = rec.endpoint_id;
    let all = m.webhooks.push(rec);
    let surv = |w: WebhookRecord| survives_eviction(all, eid, retain, w);
    let is_eid = |w: WebhookRecord| w.endpoint_id == eid;
    m.webhooks.lemma_filter_len_push(is_eid, rec);
    assert forall|i: int| 0 <= i < all.len() implies surv(#[trigger] all[i]) by {
        let w = all[i];
        if w.endpoint_id == eid && retain >= 0 {
            let pw = |v: WebhookRecord| v.endpoint_id == w.endpoint_id && newer(v, w);
            assert(is_eid(all[i]) && !pw(all[i]));
            lemma_filter_len_weaker(all, pw, is_eid);
        }
    }
    lemma_filter_all(all, surv);
}

/// Eviction drops the oldest: of the webhooks of the endpoint that received
/// the new one, each evicted one is older than each one that stays.
pub proof fn law_evicts_oldest(m: StoreModel, rec: WebhookRecord, retain: int, i: int, j: int)
    requires
        m.well_formed(),
        rec.id as int == m.last_webhook_id + 1,
        0 <= i < m.webhooks.push(rec).len(),
        0 <= j < m.webhooks.push(rec).len(),
        m.webhooks.push(rec)[i].endpoint_id == rec.endpoint_id,
        m.webhooks.push(rec)[j].endpoint_id == rec.endpoint_id,
        survives_eviction(m.webhooks.push(rec), rec.endpoint_id, retain, m.webhooks.push(rec)[i]),
        !survives_eviction(m.webhooks.push(rec), rec.endpoint_id, retain, m.webhooks.push(rec)[j]),
    ensures
        newer(m.webhooks.push(rec)[i], m.webhooks.push(rec)[j]),
{
    let all = m.webhooks.push(rec);
    lemma_pushed_ids_increase(m, rec);
    assert(i != j);
    if i < j {
        assert(all[i].id < all[j].id);
    } else {
        assert(all[j].id < all[i].id);
    }
    if !newer(all[i], all[j]) {
        assert(newer(all[j], all[i]));
        lemma_newer_has_smaller_count(all, all[j], all[i]);
    }
}

/// Eviction is scoped to one endpoint: storing a webhook leaves the webhooks
/// of every other endpoint as they were.
pub proof fn law_eviction_is_per_endpoint(m: StoreModel, rec: WebhookRecord, retain: int, other: u128)
    requires
        other != rec.endpoint_id,
    ensures
        m.with_webhook(rec, retain).webhooks_of(other) == m.webhooks_of(other),
{
    let eid = rec.endpoint_id;
    let all = m.webhooks.push(rec);
    let surv = |w: WebhookRecord| survives_eviction(all, eid, retain, w);
    let is_other = |w: WebhookRecord| w.endpoint_id == other;
    lemma_filter_twice(all, surv, is_other);
    assert((|x: WebhookRecord| surv(x) && is_other(x)) =~= is_other);
    m.webhooks.lemma_filter_push(rec, is_other);
}

/// What a read gives back of a write: a stored webhook that survives the
/// eviction is found under its id, as it was stored.
pub proof fn law_get_after_insert(m: StoreModel, rec: WebhookRecord, retain: int)
    requires
        m.well_formed(),
        rec.id as int == m.last_webhook_id + 1,
        survives_eviction(m.webhooks.push(rec), rec.endpoint_id, retain, rec),
    ensures
        find_webhook(m.with_webhook(rec, retain).webhooks, rec.id) == Some(rec),
{
    let eid = rec.endpoint_id;
    let all = m.webhooks.push(rec);
    let surv = |w: WebhookRecord| survives_eviction(all, eid, retain, w);
    let ws = m.with_webhook(rec, retain).webhooks;
    lemma_pushed_ids_increase(m, rec);
    all.lemma_filter_contains(surv, all.len() - 1);
    let pos = lemma_filter_positions(all, surv);
    let k0 = choose|k: int| 0 <= k < ws.len() && ws[k] == rec;
    assert(ws[k0].id == rec.id);
    let k = choose|k: int| 0 <= k < ws.len() && #[trigger] ws[k].id == rec.id;
    if k != k0 {
        assert(ws[k] == all[pos[k]] && ws[k0] == all[pos[k0]]);
        if pos[k] < pos[k0] {
            assert(all[pos[k]].id < all[pos[k0]].id);
        } else if pos[k] > pos[k0] {
            assert(all[pos[k0]].id < all[pos[k]].id);
        }
    }
}

/// The newest webhook of its endpoint survives any retention of at least one
/// (and any negative retention, which keeps all).
pub proof fn law_newest_survives(m: StoreModel, rec: WebhookRecord, retain: int)
    requires
        m.well_formed(),
        rec.id as int == m.last_webhook_id + 1,
        retain != 0,
        forall|i: int| 0 <= i < m.webhooks.len() && #[trigger] m.webhooks[i].endpoint_id == rec.endpoint_id
            ==> m.webhooks[i].received_at <= rec.received_at,
    ensures
        survives_eviction(m.webhooks.push(rec), rec.endpoint_id, retain, rec),
{
    let all = m.webhooks.push(rec);
    let p = |v: WebhookRecord| v.endpoint_id == rec.endpoint_id && newer(v, rec);
    lemma_pushed_ids_increase(m, rec);
    assert forall|i: int| 0 <= i < all.len() implies !p(#[trigger] all[i]) by {
        if i < m.webhooks.len() {
            assert(all[i] == m.webhooks[i]);
            assert(all[i].id < all[all.len() - 1].id);
        }
    }
    lemma_filter_none(all, p);
}

/// Deleting an endpoint cascades: afterwards the endpoint is gone and none
/// of its webhooks is left, so a second delete finds nothing.
pub proof fn law_delete_endpoint_cascades(m: StoreModel, id: u128)
    ensures
        !has_endpoint(m.without_endpoint(id).endpoints, id),
        m.without_endpoint(id).webhooks_of(id).len() == 0,
{
    let r = m.without_endpoint(id);
    let pe = |e: EndpointRecord| e.id != id;
    let pw = |w: WebhookRecord| w.endpoint_id != id;
    let is_id = |w: WebhookRecord| w.endpoint_id == id;
    if has_endpoint(r.endpoints, id) {
        let k = choose|k: int| 0 <= k < r.endpoints.len() && #[trigger] r.endpoints[k].id == id;
        m.endpoints.lemma_filter_pred(pe, k);
    }
    assert forall|i: int| 0 <= i < r.webhooks.len() implies !is_id(#[trigger] r.webhooks[i]) by {
        m.webhooks.lemma_filter_pred(pw, i);
    }
    lemma_filter_none(r.webhooks, is_id);
}

/// Clearing an endpoint keeps the endpoint and leaves none of its webhooks.
pub proof fn law_clear_keeps_endpoint(m: StoreModel, id: u128)
    ensures
        m.without_webhooks_of(id).endpoints == m.endpoints,
        m.without_webhooks_of(id).webhooks_of(id).len() == 0,
{
    let r = m.without_webhooks_of(id);
    let pw = |w: WebhookRecord| w.endpoint_id != id;
    let is_id = |w: WebhookRecord| w.endpoint_id == id;
    assert forall|i: int| 0 <= i < r.webhooks.len() implies !is_id(#[trigger] r.webhooks[i]) by {
        m.webhooks.lemma_filter_pred(pw, i);
    }
    lemma_filter_none(r.webhooks, is_id);
}

/// A deleted webhook is gone: looking its id up afterwards finds nothing,
/// so deleting it again reports nothing.
pub proof fn law_delete_webhook_removes(m: StoreModel, id: i64)
    ensures
        find_webhook(m.without_webhook(id).webhooks, id) is None,
{
    let r = m.without_webhook(id);
    let pw = |w: WebhookRecord| w.id != id;
    if has_webhook(r.webhooks, id) {
        let k = choose|k: int| 0 <= k < r.webhooks.len() && #[trigger] r.webhooks[k].id == id;
        m.webhooks.lemma_filter_pred(pw, k);
    }
}

/// Webhook ids are never reused: after a webhook is deleted, the id that the
/// next stored webhook gets (one past the largest id handed out) is larger
/// than the deleted id and than every id still stored.
pub proof fn law_ids_never_reused(m: StoreModel, id: i64, next: int)
    requires
        m.well_formed(),
        has_webhook(m.webhooks, id),
        next == m.without_webhook(id).last_webhook_id + 1,
    ensures
        id < next,
        forall|i: int| 0 <= i < m.without_webhook(id).webhooks.len() ==>
            #[trigger] m.without_webhook(id).webhooks[i].id < next,
{
    let r = m.without_webhook(id);
    let pw = |w: WebhookRecord| w.id != id;
    let k = choose|k: int| 0 <= k < m.webhooks.len() && #[trigger] m.webhooks[k].id == id;
    assert(1 <= m.webhooks[k].id <= m.last_webhook_id);
    assert forall|i: int| 0 <= i < r.webhooks.len() implies #[trigger] r.webhooks[i].id < next by {
        assert(m.webhooks.filter(pw).contains(r.webhooks[i]));
        m.webhooks.lemma_filter_contains_rev(pw, r.webhooks[i]);
        let j = choose|j: int| 0 <= j < m.webhooks.len() && m.webhooks[j] == r.webhooks[i];
        assert(m.webhooks[j].id <= m.last_webhook_id);
    }
}

/// A sequence without repeats whose elements all occur in `b` is no longer
/// than `b`.
proof fn lemma_distinct_within(a: Seq<i64>, b: Seq<i64>)
    requires
        a.no_duplicates(),
        forall|i: int| 0 <= i < a.len() ==> b.contains(#[trigger] a[i]),
    ensures
        a.len() <= b.len(),
{
    a.unique_seq_to_set();
    b.lemma_cardinality_of_set();
    vstd::seq_lib::seq_to_set_is_finite(b);
    assert forall|x: i64| a.to_set().contains(x) implies b.to_set().contains(x) by {
        let i = choose|i: int| 0 <= i < a.len() && a[i] == x;
        assert(b.contains(a[i]));
    }
    vstd::set_lib::lemma_len_subset(a.to_set(), b.to_set());
}

/// Two rows of an endpoint's listings with the same id are the same row.
proof fn lemma_row_id_unique(m: StoreModel, endpoint_id: u128, x: WebhookSummaryRecord, y: WebhookSummaryRecord)
    requires
        m.well_formed(),
        is_row_of(m, endpoint_id, x),
        is_row_of(m, endpoint_id, y),
        x.id == y.id,
    ensures
        x == y,
{
    let j1 = choose|j: int| 0 <= j < m.webhooks.len() && #[trigger] m.webhooks[j].endpoint_id == endpoint_id
        && x == summary_of(m.webhooks[j]);
    let j2 = choose|j: int| 0 <= j < m.webhooks.len() && #[trigger] m.webhooks[j].endpoint_id == endpoint_id
        && y == summary_of(m.webhooks[j]);
    if j1 < j2 {
        assert(m.webhooks[j1].id < m.webhooks[j2].id);
    } else if j2 < j1 {
        assert(m.webhooks[j2].id < m.webhooks[j1].id);
    }
}

/// `s` lists rows of endpoint `endpoint_id` strictly newest first, and every
/// webhook of the endpoint that it leaves out is older than every row: a
/// newest-first listing, whatever its length.
pub open spec fn is_top_rows(m: StoreModel, endpoint_id: u128, s: Seq<WebhookSummaryRecord>) -> bool {
    &&& forall|k: int| 0 <= k < s.len() ==> is_row_of(m, endpoint_id, #[trigger] s[k])
    &&& forall|a: int, b: int| 0 <= a < b < s.len() ==> summary_newer(#[trigger] s[a], #[trigger] s[b])
    &&& forall|j: int| 0 <= j < m.webhooks.len() && #[trigger] m.webhooks[j].endpoint_id == endpoint_id
        && (forall|k: int| 0 <= k < s.len() ==> s[k].id != m.webhooks[j].id)
        ==> (forall|k: int| 0 <= k < s.len() ==> summary_newer(s[k], summary_of(m.webhooks[j])))
}

/// Where two such listings agree before position `i`, the row of the first
/// at `i` is the row of the second there, or older than it.
proof fn lemma_top_rows_step(
    m: StoreModel,
    endpoint_id: u128,
    s1: Seq<WebhookSummaryRecord>,
    s2: Seq<WebhookSummaryRecord>,
    i: int,
)
    requires
        m.well_formed(),
        is_top_rows(m, endpoint_id, s1),
        is_top_rows(m, endpoint_id, s2),
        0 <= i < s1.len(),
        i < s2.len(),
        forall|k: int| 0 <= k < i ==> s1[k] == s2[k],
    ensures
        s1[i] == s2[i] || summary_newer(s2[i], s1[i]),
{
    let a = s1[i];
    assert(is_row_of(m, endpoint_id, a));
    if exists|k: int| 0 <= k < s2.len() && s2[k].id == a.id {
        let k = choose|k: int| 0 <= k < s2.len() && s2[k].id == a.id;
        assert(is_row_of(m, endpoint_id, s2[k]));
        lemma_row_id_unique(m, endpoint_id, s2[k], a);
        if k < i {
            assert(s1[k] == s2[k]);
            assert(summary_newer(s1[k], s1[i]));
        } else if k > i {
            assert(summary_newer(s2[i], s2[k]));
        }
    } else {
        let j = choose|j: int| 0 <= j < m.webhooks.len() && #[trigger] m.webhooks[j].endpoint_id == endpoint_id
            && a == summary_of(m.webhooks[j]);
        assert(forall|k: int| 0 <= k < s2.len() ==> s2[k].id != m.webhooks[j].id);
        assert(summary_newer(s2[i], summary_of(m.webhooks[j])));
    }
}

/// Two such listings agree on their first `n` rows, `n` at most the shorter
/// length.
proof fn lemma_top_rows_agree(
    m: StoreModel,
    endpoint_id: u128,
    s1: Seq<WebhookSummaryRecord>,
    s2: Seq<WebhookSummaryRecord>,
    n: int,
)
    requires
        m.well_formed(),
        is_top_rows(m, endpoint_id, s1),
        is_top_rows(m, endpoint_id, s2),
        s1.len() <= s2.len(),
        0 <= n <= s1.len(),
    ensures
        forall|k: int| 0 <= k < n ==> s1[k] == s2[k],
    decreases n,
{
    if n > 0 {
        lemma_top_rows_agree(m, endpoint_id, s1, s2, n - 1);
        let i = n - 1;
        lemma_top_rows_step(m, endpoint_id, s1, s2, i);
        lemma_top_rows_step(m, endpoint_id, s2, s1, i);
    }
}

/// Listings agree: on one store, the newest-first listing of an endpoint's
/// webhooks with limit `k1` is a prefix of the listing with a larger limit
/// `k2` (or with no limit, a negative `k2`).
pub proof fn law_listing_prefix(
    m: StoreModel,
    endpoint_id: u128,
    k1: int,
    k2: int,
    s1: Seq<WebhookSummaryRecord>,
    s2: Seq<WebhookSummaryRecord>,
)
    requires
        m.well_formed(),
        (0 <= k1 <= k2) || k2 < 0,
        is_newest_first(m, endpoint_id, k1, s1),
        is_newest_first(m, endpoint_id, k2, s2),
    ensures
        s1.len() <= s2.len(),
        s1 == s2.take(s1.len() as int),
{
    lemma_top_rows_agree(m, endpoint_id, s1, s2, s1.len() as int);
    assert(s1 =~= s2.take(s1.len() as int));
}

/// The store right after `rec` is stored, before any eviction.
pub open spec fn before_eviction(m: StoreModel, rec: WebhookRecord) -> StoreModel {
    StoreModel { webhooks: m.webhooks.push(rec), last_webhook_id: rec.id as int, ..m }
}

/// The kept webhooks of the endpoint, listed newest first, still lead the
/// endpoint's webhooks as they stood before the eviction.
proof fn lemma_kept_rows_lead(m: StoreModel, rec: WebhookRecord, retain: int, t: Seq<WebhookSummaryRecord>)
    requires
        m.well_formed(),
        rec.id as int == m.last_webhook_id + 1,
        is_top_rows(m.with_webhook(rec, retain), rec.endpoint_id, t),
    ensures
        is_top_rows(before_eviction(m, rec), rec.endpoint_id, t),
{
    let eid = rec.endpoint_id;
    let all = m.webhooks.push(rec);
    let p = before_eviction(m, rec);
    let a = m.with_webhook(rec, retain);
    let surv = |w: WebhookRecord| survives_eviction(all, eid, retain, w);
    assert(a.webhooks == all.filter(surv));
    assert forall|k: int| 0 <= k < t.len() implies is_row_of(p, eid, #[trigger] t[k]) by {
        let j = choose|j: int| 0 <= j < a.webhooks.len() && #[trigger] a.webhooks[j].endpoint_id == eid
            && t[k] == summary_of(a.webhooks[j]);
        assert(all.filter(surv).contains(a.webhooks[j]));
        all.lemma_filter_contains_rev(surv, a.webhooks[j]);
        let jj = choose|jj: int| 0 <= jj < all.len() && all[jj] == a.webhooks[j];
        assert(p.webhooks[jj].endpoint_id == eid);
    }
    assert forall|j: int| 0 <= j < p.webhooks.len() && #[trigger] p.webhooks[j].endpoint_id == eid
        && (forall|k: int| 0 <= k < t.len() ==> t[k].id != p.webhooks[j].id)
        implies (forall|k: int| 0 <= k < t.len() ==> summary_newer(t[k], summary_of(p.webhooks[j]))) by {
        let w = all[j];
        if surv(w) {
            all.lemma_filter_contains(surv, j);
            let ja = choose|ja: int| 0 <= ja < a.webhooks.len() && a.webhooks[ja] == w;
            assert(a.webhooks[ja].endpoint_id == eid);
        } else {
            assert forall|k: int| 0 <= k < t.len() implies summary_newer(t[k], summary_of(w)) by {
                let jt = choose|jt: int| 0 <= jt < a.webhooks.len() && #[trigger] a.webhooks[jt].endpoint_id == eid
                    && t[k] == summary_of(a.webhooks[jt]);
                all.lemma_filter_pred(surv, jt);
                assert(all.filter(surv).contains(a.webhooks[jt]));
                all.lemma_filter_contains_rev(surv, a.webhooks[jt]);
                let ii = choose|ii: int| 0 <= ii < all.len() && all[ii] == a.webhooks[jt];
                law_evicts_oldest(m, rec, retain, ii, j);
            }
        }
    }
}

/// A webhook of the endpoint has at most `n` newer ones when the first `n`
/// rows of a newest-first listing come just before it.
proof fn lemma_newer_count_bound(m: StoreModel, rec: WebhookRecord, s: Seq<WebhookSummaryRecord>, n: int, jw: int)
    requires
        m.well_formed(),
        rec.id as int == m.last_webhook_id + 1,
        before_eviction(m, rec).well_formed(),
        is_top_rows(before_eviction(m, rec), rec.endpoint_id, s),
        0 <= n < s.len(),
        0 <= jw < m.webhooks.push(rec).len(),
        m.webhooks.push(rec)[jw].endpoint_id == rec.endpoint_id,
        s[n] == summary_of(m.webhooks.push(rec)[jw]),
    ensures
        newer_count(m.webhooks.push(rec), m.webhooks.push(rec)[jw]) <= n,
{
    let eid = rec.endpoint_id;
    let all = m.webhooks.push(rec);
    let p = before_eviction(m, rec);
    let w = all[jw];
    let pn = |v: WebhookRecord| v.endpoint_id == w.endpoint_id && newer(v, w);
    let f = all.filter(pn);
    let pos = lemma_filter_positions(all, pn);
    lemma_pushed_ids_increase(m, rec);
    let fa = f.map_values(|v: WebhookRecord| v.id);
    let sb = s.take(n).map_values(|r: WebhookSummaryRecord| r.id);
    assert forall|i: int, j: int| 0 <= i < fa.len() && 0 <= j < fa.len() && i != j implies fa[i] != fa[j] by {
        assert(f[i] == all[pos[i]]);
        assert(f[j] == all[pos[j]]);
        if pos[i] < pos[j] {
            assert(all[pos[i]].id < all[pos[j]].id);
        } else {
            assert(all[pos[j]].id < all[pos[i]].id);
        }
    }
    assert forall|i: int| 0 <= i < fa.len() implies sb.contains(#[trigger] fa[i]) by {
        let v = f[i];
        assert(v == all[pos[i]]);
        all.lemma_filter_pred(pn, i);
        assert(p.webhooks[pos[i]].endpoint_id == eid);
        if forall|k: int| 0 <= k < s.len() ==> s[k].id != v.id {
            assert(summary_newer(s[n], summary_of(p.webhooks[pos[i]])));
        } else {
            let k = choose|k: int| 0 <= k < s.len() && s[k].id == v.id;
            assert(is_row_of(p, eid, s[k]));
            assert(is_row_of(p, eid, summary_of(v)));
            lemma_row_id_unique(p, eid, s[k], summary_of(v));
            if k > n {
                assert(summary_newer(s[n], s[k]));
            }
            assert(k < n);
            assert(sb[k] == v.id);
        }
    }
    lemma_distinct_within(fa, sb);
}

/// Retention keeps the first rows: after a webhook is stored with retention
/// `retain >= 0`, the endpoint's webhooks listed newest first are the first
/// `retain` rows (or all, if fewer) of the newest-first listing of its
/// webhooks with the new one added, before the eviction.
pub proof fn law_retention_keeps_first_rows(
    m: StoreModel,
    rec: WebhookRecord,
    retain: int,
    s: Seq<WebhookSummaryRecord>,
    t: Seq<WebhookSummaryRecord>,
)
    requires
        m.well_formed(),
        has_endpoint(m.endpoints, rec.endpoint_id),
        rec.id as int == m.last_webhook_id + 1,
        retain >= 0,
        is_newest_first(before_eviction(m, rec), rec.endpoint_id, -1, s),
        is_newest_first(m.with_webhook(rec, retain), rec.endpoint_id, -1, t),
    ensures
        t == s.take(if retain < s.len() { retain } else { s.len() as int }),
{
    let eid = rec.endpoint_id;
    let all = m.webhooks.push(rec);
    let p = before_eviction(m, rec);
    let a = m.with_webhook(rec, retain);
    let surv = |w: WebhookRecord| survives_eviction(all, eid, retain, w);
    let is_e = |w: WebhookRecord| w.endpoint_id == eid;
    let both = |w: WebhookRecord| surv(w) && is_e(w);
    lemma_push_webhook_well_formed(m, rec);
    lemma_filter_webhooks_well_formed(p, surv);
    assert(a =~= StoreModel { webhooks: p.webhooks.filter(surv), ..p });
    lemma_kept_rows_lead(m, rec, retain, t);
    assert(a.webhooks_of(eid) == all.filter(surv).filter(is_e));
    assert(p.webhooks_of(eid) == all.filter(is_e));
    lemma_filter_twice(all, surv, is_e);
    lemma_filter_len_weaker(all, both, is_e);
    let n = t.len() as int;
    assert(n <= s.len());
    lemma_top_rows_agree(p, eid, t, s, n);
    law_retention_cap(m, rec, retain);
    if n < retain && n < s.len() {
        let x = s[n];
        assert(is_row_of(p, eid, x));
        let jw = choose|j: int| 0 <= j < p.webhooks.len() && #[trigger] p.webhooks[j].endpoint_id == eid
            && x == summary_of(p.webhooks[j]);
        let w = all[jw];
        lemma_newer_count_bound(m, rec, s, n, jw);
        assert(surv(w));
        all.lemma_filter_contains(surv, jw);
        let ja = choose|ja: int| 0 <= ja < a.webhooks.len() && a.webhooks[ja] == w;
        lemma_kept_rows_fill(a, eid, t, ja);
        assert forall|k: int| 0 <= k < n implies t[k].id != w.id by {
            assert(t[k] == s[k]);
            assert(summary_newer(s[k], s[n]));
            if s[k].id == s[n].id {
                lemma_row_id_unique(p, eid, s[k], s[n]);
            }
        }
    }
    assert(t =~= s.take(if retain < s.len() { retain } else { s.len() as int }));
}

/// A listing with as many rows as the endpoint has webhooks leaves out none
/// of them.
proof fn lemma_kept_rows_fill(a: StoreModel, eid: u128, t: Seq<WebhookSummaryRecord>, ja: int)
    requires
        a.well_formed(),
        is_top_rows(a, eid, t),
        t.len() == a.webhooks_of(eid).len(),
        0 <= ja < a.webhooks.len(),
        a.webhooks[ja].endpoint_id == eid,
    ensures
        exists|k: int| 0 <= k < t.len() && t[k].id == a.webhooks[ja].id,
{
    let is_e = |w: WebhookRecord| w.endpoint_id == eid;
    let ae = a.webhooks.filter(is_e);
    assert(a.webhooks_of(eid) == ae);
    if forall|k: int| 0 <= k < t.len() ==> t[k].id != a.webhooks[ja].id {
        let ta = t.map_values(|r: WebhookSummaryRecord| r.id).push(a.webhooks[ja].id);
        let ab = ae.map_values(|w: WebhookRecord| w.id);
        assert forall|i: int, j: int| 0 <= i < ta.len() && 0 <= j < ta.len() && i != j implies ta[i] != ta[j] by {
            if i < t.len() && j < t.len() {
                if t[i].id == t[j].id {
                    lemma_row_id_unique(a, eid, t[i], t[j]);
                    if i < j {
                        assert(summary_newer(t[i], t[j]));
                    } else {
                        assert(summary_newer(t[j], t[i]));
                    }
                }
            }
        }
        assert forall|i: int| 0 <= i < ta.len() implies ab.contains(#[trigger] ta[i]) by {
            let jj = if i < t.len() {
                let r = t[i];
                assert(is_row_of(a, eid, r));
                choose|j: int| 0 <= j < a.webhooks.len() && #[trigger] a.webhooks[j].endpoint_id == eid
                    && r == summary_of(a.webhooks[j])
            } else {
                ja
            };
            assert(a.webhooks[jj].id == ta[i]);
            a.webhooks.lemma_filter_contains(is_e, jj);
            let q = choose|q: int| 0 <= q < ae.len() && ae[q] == a.webhooks[jj];
            assert(ab[q] == ta[i]);
        }
        lemma_distinct_within(ta, ab);
    }
}

/// How long a listing is: with a limit below the endpoint's number of
/// webhooks it has exactly `limit` rows; with a larger limit, or none (a
/// negative one), it has a row for every webhook of the endpoint.
pub proof fn law_listing_length(m: StoreModel, endpoint_id: u128, limit: int, s: Seq<WebhookSummaryRecord>)
    requires
        m.well_formed(),
        is_newest_first(m, endpoint_id, limit, s),
    ensures
        0 <= limit < m.webhooks_of(endpoint_id).len() ==> s.len() == limit,
        limit < 0 || limit >= m.webhooks_of(endpoint_id).len() ==> {
            &&& s.len() == m.webhooks_of(endpoint_id).len()
            &&& forall|j: int| 0 <= j < m.webhooks.len() && #[trigger] m.webhooks[j].endpoint_id == endpoint_id
                ==> exists|k: int| 0 <= k < s.len() && s[k].id == m.webhooks[j].id
        },
{
    if limit < 0 || limit >= m.webhooks_of(endpoint_id).len() {
        assert forall|j: int| 0 <= j < m.webhooks.len() && #[trigger] m.webhooks[j].endpoint_id == endpoint_id
            implies exists|k: int| 0 <= k < s.len() && s[k].id == m.webhooks[j].id by {
            lemma_kept_rows_fill(m, endpoint_id, s, j);
        }
    }
}

/// The latest receive time among the webhooks of `ws` of one endpoint is
/// none when there are none, else the receive time of one of them, and no
/// earlier than any of them.
proof fn lemma_latest_received(ws: Seq<WebhookRecord>, endpoint_id: u128)
    ensures
        latest_received(ws, endpoint_id) is None
            <==> (forall|i: int| 0 <= i < ws.len() ==> ws[i].endpoint_id != endpoint_id),
        latest_received(ws, endpoint_id) matches Some(r) ==> {
            &&& exists|i: int| 0 <= i < ws.len() && ws[i].endpoint_id == endpoint_id && ws[i].received_at == r
            &&& forall|i: int| 0 <= i < ws.len() && ws[i].endpoint_id == endpoint_id ==> ws[i].received_at <= r
        },
    decreases ws.len(),
{
    if ws.len() > 0 {
        let rest = ws.drop_last();
        lemma_latest_received(rest, endpoint_id);
        assert forall|i: int| 0 <= i < rest.len() implies rest[i] == ws[i] by {}
        let last = ws.len() - 1;
        if latest_received(ws, endpoint_id) is None {
            assert forall|i: int| 0 <= i < ws.len() implies ws[i].endpoint_id != endpoint_id by {
                if i < last {
                    assert(rest[i] == ws[i]);
                }
            }
        }
        if let Some(r) = latest_received(ws, endpoint_id) {
            if ws[last].endpoint_id == endpoint_id && ws[last].received_at == r {
            } else {
                let i = choose|i: int| 0 <= i < rest.len() && rest[i].endpoint_id == endpoint_id && rest[i].received_at == r;
                assert(ws[i] == rest[i]);
            }
            assert forall|i: int| 0 <= i < ws.len() && ws[i].endpoint_id == endpoint_id implies ws[i].received_at <= r by {
                if i < last {
                    assert(rest[i] == ws[i]);
                }
            }
        }
    }
}

/// An endpoint's dashboard summary: its webhook count is the number of its
/// webhooks, and its latest receive time is none when it has none, else the
/// receive time of one of its webhooks and no earlier than any of them.
pub proof fn law_endpoint_summary(m: StoreModel, e: EndpointRecord)
    ensures
        endpoint_summary_of(m, e).id == e.id,
        endpoint_summary_of(m, e).webhook_count as int == m.webhooks_of(e.id).len() || m.webhooks_of(e.id).len() > i64::MAX,
        endpoint_summary_of(m, e).last_received_at is None
            <==> (forall|i: int| 0 <= i < m.webhooks.len() ==> m.webhooks[i].endpoint_id != e.id),
        endpoint_summary_of(m, e).last_received_at matches Some(r) ==> {
            &&& exists|i: int| 0 <= i < m.webhooks.len() && m.webhooks[i].endpoint_id == e.id
                && m.webhooks[i].received_at == r
            &&& forall|i: int| 0 <= i < m.webhooks.len() && m.webhooks[i].endpoint_id == e.id
                ==> m.webhooks[i].received_at <= r
        },
{
    lemma_latest_received(m.webhooks, e.id);
}

/// Receive times are clock readings in whole milliseconds: a reading of `n`
/// nanoseconds since the epoch becomes the millisecond that contains it
/// (rounding toward zero, so toward the epoch for readings before it), and
/// any reading that a 64-bit millisecond count can hold is kept as is.
pub proof fn law_millis_of_nanos(n: int)
    ensures
        n >= 0 ==> 0 <= nanos_to_millis(n) && nanos_to_millis(n) * 1_000_000 <= n
            < nanos_to_millis(n) * 1_000_000 + 1_000_000,
        n < 0 ==> nanos_to_millis(n) <= 0 && nanos_to_millis(n) * 1_000_000 - 1_000_000 < n
            <= nanos_to_millis(n) * 1_000_000,
        i64::MIN * 1_000_000 <= n <= i64::MAX * 1_000_000 ==> i64::MIN <= nanos_to_millis(n) <= i64::MAX,
{
    if n >= 0 {
        assert(n / 1_000_000 * 1_000_000 <= n < n / 1_000_000 * 1_000_000 + 1_000_000) by (nonlinear_arith)
            requires n >= 0;
    } else {
        let p = -n;
        assert(p / 1_000_000 * 1_000_000 <= p < p / 1_000_000 * 1_000_000 + 1_000_000) by (nonlinear_arith)
            requires p >= 0;
    }
}

/// Newest creations first: in the endpoint listing, an endpoint created at a
/// later second comes before one created earlier.
pub proof fn law_later_created_listed_first(m: StoreModel, s: Seq<EndpointSummaryRecord>, a: int, b: int)
    requires
        is_endpoint_listing(m, s),
        0 <= a < s.len(),
        0 <= b < s.len(),
        created_at_of(m, s[b].id) < created_at_of(m, s[a].id),
    ensures
        a < b,
{
    if b < a {
        assert(created_at_of(m, s[b].id) >= created_at_of(m, s[a].id));
    }
}

} // verus!
