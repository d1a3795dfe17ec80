//! The ingest handler: any request sent to `/webhooks/{endpoint-id}` is
//! captured — method, path, query, source address, headers and body — and
//! stored for that endpoint, provided the endpoint exists.

use vstd::prelude::*;
use crate::db::{self, has_endpoint, NewWebhook, Store, StoreError, StoreModel, WebhookRecord};
use crate::error::AppError;

verus! {

/// `c` mapped to ASCII lower case: `A`..=`Z` become `a`..=`z`, every other
/// character stays.
pub open spec fn ascii_lower(c: char) -> char {
    if 'A' <= c && c <= 'Z' {
        ((c as u32) + 32) as char
    } else {
        c
    }
}

/// `s` with every character mapped by [`ascii_lower`].
pub open spec fn ascii_lowercase(s: Seq<char>) -> Seq<char> {
    s.map_values(|c: char| ascii_lower(c))
}

/// `str::to_ascii_lowercase`: std documents that it maps `A`..=`Z` to
/// `a`..=`z` and leaves every other character unchanged, which is what the
/// contract states.
#[verifier::external_body]
fn to_ascii_lowercase(s: &str) -> (res: String)
    ensures
        res@ == ascii_lowercase(s@),
{
    s.to_ascii_lowercase()
}

/// Lexicographic order of character sequences, which is the order of
/// `String`s (their UTF-8 bytes order the same way as their characters).
pub open spec fn seq_less(a: Seq<char>, b: Seq<char>) -> bool
    decreases a.len(),
{
    if a.len() == 0 {
        b.len() > 0
    } else if b.len() == 0 {
        false
    } else if (a[0] as int) < (b[0] as int) {
        true
    } else if (a[0] as int) > (b[0] as int) {
        false
    } else {
        seq_less(a.drop_first(), b.drop_first())
    }
}

proof fn lemma_seq_less_irreflexive(a: Seq<char>)
    ensures
        !seq_less(a, a),
    decreases a.len(),
{
    if a.len() > 0 {
        lemma_seq_less_irreflexive(a.drop_first());
    }
}

proof fn lemma_seq_less_trichotomy(a: Seq<char>, b: Seq<char>)
    ensures
        seq_less(a, b) || seq_less(b, a) || a == b,
    decreases a.len(),
{
    if a.len() > 0 && b.len() > 0 && a[0] == b[0] {
        lemma_seq_less_trichotomy(a.drop_first(), b.drop_first());
        if a.drop_first() == b.drop_first() {
            assert(a.drop_first().len() == b.drop_first().len());
            assert(a.len() == b.len());
            assert forall|i: int| 0 <= i < a.len() implies a[i] == b[i] by {
                if i > 0 {
                    assert(a[i] == a.drop_first()[i - 1]);
                    assert(b[i] == b.drop_first()[i - 1]);
                }
            }
            assert(a =~= b);
        }
    } else if a.len() == 0 && b.len() == 0 {
        assert(a =~= b);
    } else if a.len() > 0 && b.len() > 0 {
        assert((a[0] as int) != (b[0] as int));
    }
}

proof fn lemma_seq_less_transitive(a: Seq<char>, b: Seq<char>, c: Seq<char>)
    requires
        seq_less(a, b),
        seq_less(b, c),
    ensures
        seq_less(a, c),
    decreases a.len(),
{
    if a.len() > 0 && b.len() > 0 && c.len() > 0 && a[0] == b[0] && b[0] == c[0] {
        lemma_seq_less_transitive(a.drop_first(), b.drop_first(), c.drop_first());
    }
}

/// Whether `a` sorts before `b`, as `String`'s `<` does.
fn str_less(a: &str, b: &str) -> (res: bool)
    ensures
        res == seq_less(a@, b@),
{
    let na = a.unicode_len();
    let nb = b.unicode_len();
    let mut i: usize = 0;
    proof {
        assert(a@.skip(0) =~= a@);
        assert(b@.skip(0) =~= b@);
    }
    while i < na && i < nb
        invariant
            na == a@.len(),
            nb == b@.len(),
            i <= na,
            i <= nb,
            seq_less(a@, b@) == seq_less(a@.skip(i as int), b@.skip(i as int)),
        decreases na - i,
    {
        let ca = a.get_char(i);
        let cb = b.get_char(i);
        proof {
            assert(a@.skip(i as int)[0] == ca);
            assert(b@.skip(i as int)[0] == cb);
            assert(a@.skip(i as int).drop_first() =~= a@.skip(i + 1));
            assert(b@.skip(i as int).drop_first() =~= b@.skip(i + 1));
        }
        if (ca as u32) < (cb as u32) {
            return true;
        }
        if (ca as u32) > (cb as u32) {
            return false;
        }
        i = i + 1;
    }
    proof {
        assert(a@.skip(i as int).len() == na - i);
        assert(b@.skip(i as int).len() == nb - i);
    }
    i == na && i < nb
}

/// The value stored for a header: its text, or `<binary>` for a value that is
/// not valid UTF-8 (`None`).
pub open spec fn header_value(v: Option<String>) -> Seq<char> {
    match v {
        Some(s) => s@,
        None => "<binary>"@,
    }
}

/// The values of the headers of `h` whose lower-cased name is `name`, in order.
pub open spec fn values_of(h: Seq<(String, Option<String>)>, name: Seq<char>) -> Seq<Seq<char>> {
    h.filter(|x: (String, Option<String>)| ascii_lowercase(x.0@) == name)
        .map_values(|x: (String, Option<String>)| header_value(x.1))
}

/// Group names strictly increase, so each name occurs once.
pub open spec fn names_strictly_increasing(g: Seq<(Seq<char>, Seq<Seq<char>>)>) -> bool {
    forall|i: int, j: int| 0 <= i < j < g.len() ==> seq_less(#[trigger] g[i].0, #[trigger] g[j].0)
}

/// Some header of `h` has the lower-cased name `name`.
pub open spec fn names_header(h: Seq<(String, Option<String>)>, name: Seq<char>) -> bool {
    exists|k: int| 0 <= k < h.len() && #[trigger] ascii_lowercase(h[k].0@) == name
}

/// Some group of `g` has the name `name`.
pub open spec fn has_group(g: Seq<(Seq<char>, Seq<Seq<char>>)>, name: Seq<char>) -> bool {
    exists|i: int| 0 <= i < g.len() && #[trigger] g[i].0 == name
}

/// `g` groups the headers `h` by lower-cased name: one group per name, in
/// name order, each with the values of that name in the request's order.
pub open spec fn is_header_grouping(h: Seq<(String, Option<String>)>, g: Seq<(Seq<char>, Seq<Seq<char>>)>) -> bool {
    &&& names_strictly_increasing(g)
    &&& forall|i: int| 0 <= i < g.len() ==> names_header(h, #[trigger] g[i].0)
    &&& forall|k: int| 0 <= k < h.len() ==> has_group(g, #[trigger] ascii_lowercase(h[k].0@))
    &&& forall|i: int| 0 <= i < g.len() ==> #[trigger] g[i].1 == values_of(h, g[i].0)
}

/// The mathematical value of a list of strings.
pub open spec fn string_records(v: Seq<String>) -> Seq<Seq<char>> {
    v.map_values(|s: String| s@)
}

/// The mathematical value of header groups.
pub open spec fn group_records(g: Seq<(String, Vec<String>)>) -> Seq<(Seq<char>, Seq<Seq<char>>)> {
    g.map_values(|x: (String, Vec<String>)| (x.0@, string_records(x.1@)))
}

/// How the values of one name change when header `x` is appended.
proof fn lemma_values_of_push(h: Seq<(String, Option<String>)>, x: (String, Option<String>), name: Seq<char>)
    ensures
        values_of(h.push(x), name) == if ascii_lowercase(x.0@) == name {
            values_of(h, name).push(header_value(x.1))
        } else {
            values_of(h, name)
        },
{
    let p = |y: (String, Option<String>)| ascii_lowercase(y.0@) == name;
    let f = |y: (String, Option<String>)| header_value(y.1);
    h.lemma_filter_push(x, p);
    if p(x) {
        assert(h.filter(p).push(x).map_values(f) =~= h.filter(p).map_values(f).push(f(x)));
    }
}

/// A name that no header of `h` has gets no values.
proof fn lemma_values_of_absent(h: Seq<(String, Option<String>)>, name: Seq<char>)
    requires
        !names_header(h, name),
    ensures
        values_of(h, name) == Seq::<Seq<char>>::empty(),
{
    let p = |y: (String, Option<String>)| ascii_lowercase(y.0@) == name;
    let pos = db::lemma_filter_positions(h, p);
    if h.filter(p).len() > 0 {
        h.lemma_filter_pred(p, 0);
        assert(ascii_lowercase(h[pos[0]].0@) == name);
    }
    assert(values_of(h, name) =~= Seq::<Seq<char>>::empty());
}

/// Adding header `x` with name `n` and value `v` to the group at place `p`,
/// whose name is `n`, keeps a grouping a grouping.
proof fn lemma_grouping_append(
    h: Seq<(String, Option<String>)>,
    x: (String, Option<String>),
    g: Seq<(Seq<char>, Seq<Seq<char>>)>,
    p: int,
)
    requires
        is_header_grouping(h, g),
        0 <= p < g.len(),
        g[p].0 == ascii_lowercase(x.0@),
    ensures
        is_header_grouping(h.push(x), g.update(p, (g[p].0, g[p].1.push(header_value(x.1))))),
{
    let n = ascii_lowercase(x.0@);
    let h2 = h.push(x);
    let g2 = g.update(p, (g[p].0, g[p].1.push(header_value(x.1))));
    assert forall|i: int, j: int| 0 <= i < j < g2.len() implies seq_less(#[trigger] g2[i].0, #[trigger] g2[j].0) by {
        assert(g2[i].0 == g[i].0 && g2[j].0 == g[j].0);
    }
    assert forall|i: int| 0 <= i < g2.len() implies names_header(h2, #[trigger] g2[i].0) by {
        assert(g2[i].0 == g[i].0);
        assert(names_header(h, g[i].0));
        let k = choose|k: int| 0 <= k < h.len() && #[trigger] ascii_lowercase(h[k].0@) == g[i].0;
        assert(h2[k] == h[k]);
    }
    assert forall|k: int| 0 <= k < h2.len() implies has_group(g2, #[trigger] ascii_lowercase(h2[k].0@)) by {
        if k < h.len() {
            assert(h2[k] == h[k]);
            assert(has_group(g, ascii_lowercase(h[k].0@)));
            let i = choose|i: int| 0 <= i < g.len() && #[trigger] g[i].0 == ascii_lowercase(h[k].0@);
            assert(g2[i].0 == g[i].0);
        } else {
            assert(g2[p].0 == n);
        }
    }
    assert forall|i: int| 0 <= i < g2.len() implies #[trigger] g2[i].1 == values_of(h2, g2[i].0) by {
        lemma_values_of_push(h, x, g[i].0);
        if i != p {
            assert(g[i].0 != n) by {
                if i < p {
                    assert(seq_less(g[i].0, g[p].0));
                } else {
                    assert(seq_less(g[p].0, g[i].0));
                }
                lemma_seq_less_irreflexive(n);
            }
        }
    }
}

/// Adding header `x` with name `n`, which has no group yet, as a new group at
/// place `p`, between the names below `n` and those above it, keeps a grouping
/// a grouping.
proof fn lemma_grouping_insert(
    h: Seq<(String, Option<String>)>,
    x: (String, Option<String>),
    g: Seq<(Seq<char>, Seq<Seq<char>>)>,
    p: int,
)
    requires
        is_header_grouping(h, g),
        0 <= p <= g.len(),
        forall|q: int| 0 <= q < p ==> seq_less(#[trigger] g[q].0, ascii_lowercase(x.0@)),
        p < g.len() ==> !seq_less(g[p].0, ascii_lowercase(x.0@)) && g[p].0 != ascii_lowercase(x.0@),
    ensures
        is_header_grouping(h.push(x), g.insert(p, (ascii_lowercase(x.0@), seq![header_value(x.1)]))),
{
    let n = ascii_lowercase(x.0@);
    let h2 = h.push(x);
    let g2 = g.insert(p, (n, seq![header_value(x.1)]));
    if p < g.len() {
        lemma_seq_less_trichotomy(g[p].0, n);
    }
    assert(!has_group(g, n)) by {
        if has_group(g, n) {
            let i = choose|i: int| 0 <= i < g.len() && #[trigger] g[i].0 == n;
            if i < p {
                assert(seq_less(g[i].0, n));
                lemma_seq_less_irreflexive(n);
            } else if i > p {
                assert(seq_less(g[p].0, g[i].0));
                lemma_seq_less_transitive(n, g[p].0, g[i].0);
                lemma_seq_less_irreflexive(n);
            }
        }
    }
    assert(!names_header(h, n)) by {
        if names_header(h, n) {
            let k = choose|k: int| 0 <= k < h.len() && #[trigger] ascii_lowercase(h[k].0@) == n;
            assert(has_group(g, ascii_lowercase(h[k].0@)));
        }
    }
    assert forall|i: int, j: int| 0 <= i < j < g2.len() implies seq_less(#[trigger] g2[i].0, #[trigger] g2[j].0) by {
        if j < p {
            assert(g2[i] == g[i] && g2[j] == g[j]);
        } else if j == p {
            assert(g2[i] == g[i]);
        } else if i < p {
            assert(g2[i] == g[i] && g2[j] == g[j - 1]);
            if j - 1 > p {
                assert(seq_less(g[p].0, g[j - 1].0));
                lemma_seq_less_transitive(n, g[p].0, g[j - 1].0);
            }
            lemma_seq_less_transitive(g[i].0, n, g[j - 1].0);
        } else if i == p {
            assert(g2[j] == g[j - 1]);
            if j - 1 > p {
                assert(seq_less(g[p].0, g[j - 1].0));
                lemma_seq_less_transitive(n, g[p].0, g[j - 1].0);
            }
        } else {
            assert(g2[i] == g[i - 1] && g2[j] == g[j - 1]);
        }
    }
    assert forall|i: int| 0 <= i < g2.len() implies names_header(h2, #[trigger] g2[i].0) by {
        if i == p {
            assert(h2[h.len() as int] == x);
            assert(ascii_lowercase(h2[h.len() as int].0@) == n);
        } else {
            let gi = if i < p { i } else { i - 1 };
            assert(g2[i] == g[gi]);
            assert(names_header(h, g[gi].0));
            let k = choose|k: int| 0 <= k < h.len() && #[trigger] ascii_lowercase(h[k].0@) == g[gi].0;
            assert(h2[k] == h[k]);
        }
    }
    assert forall|k: int| 0 <= k < h2.len() implies has_group(g2, #[trigger] ascii_lowercase(h2[k].0@)) by {
        if k < h.len() {
            assert(h2[k] == h[k]);
            assert(has_group(g, ascii_lowercase(h[k].0@)));
            let i = choose|i: int| 0 <= i < g.len() && #[trigger] g[i].0 == ascii_lowercase(h[k].0@);
            if i < p {
                assert(g2[i] == g[i]);
            } else {
                assert(g2[i + 1] == g[i]);
            }
        } else {
            assert(g2[p].0 == n);
        }
    }
    assert forall|i: int| 0 <= i < g2.len() implies #[trigger] g2[i].1 == values_of(h2, g2[i].0) by {
        if i == p {
            lemma_values_of_push(h, x, n);
            lemma_values_of_absent(h, n);
            assert(values_of(h, n).push(header_value(x.1)) =~= seq![header_value(x.1)]);
        } else {
            let gi = if i < p { i } else { i - 1 };
            assert(g2[i] == g[gi]);
            lemma_values_of_push(h, x, g[gi].0);
            assert(g[gi].0 != n);
        }
    }
}

/// Groups the headers by lower-cased name, in name order, keeping each
/// name's values in the request's order; a value that is not valid UTF-8
/// (`None`) is kept as `<binary>`.
pub fn group_headers(headers: &Vec<(String, Option<String>)>) -> (groups: Vec<(String, Vec<String>)>)
    ensures
        is_header_grouping(headers@, group_records(groups@)),
{
    let n = headers.len();
    let mut groups: Vec<(String, Vec<String>)> = Vec::new();
    let mut k: usize = 0;
    proof {
        assert(headers@.take(0) =~= Seq::<(String, Option<String>)>::empty());
        assert(group_records(groups@) =~= Seq::<(Seq<char>, Seq<Seq<char>>)>::empty());
    }
    while k < n
        invariant
            n == headers.len(),
            k <= n,
            is_header_grouping(headers@.take(k as int), group_records(groups@)),
        decreases n - k,
    {
        let ghost h = headers@.take(k as int);
        let ghost x = headers@[k as int];
        let ghost g = group_records(groups@);
        proof {
            assert(headers@.take(k + 1) =~= h.push(x));
        }
        let name = to_ascii_lowercase(headers[k].0.as_str());
        let value = match &headers[k].1 {
            Some(v) => v.clone(),
            None => "<binary>".to_owned(),
        };
        proof {
            assert(value@ == header_value(x.1));
        }
        let len = groups.len();
        let mut p: usize = 0;
        while p < len && str_less(groups[p].0.as_str(), name.as_str())
            invariant
                len == groups.len(),
                p <= len,
                g == group_records(groups@),
                name@ == ascii_lowercase(x.0@),
                forall|q: int| 0 <= q < p ==> seq_less(#[trigger] g[q].0, name@),
            decreases len - p,
        {
            p = p + 1;
        }
        if p < len && crate::routes::str_equal(groups[p].0.as_str(), name.as_str()) {
            let (key, mut vals) = groups.remove(p);
            let ghost old_vals = vals@;
            vals.push(value);
            groups.insert(p, (key, vals));
            proof {
                lemma_grouping_append(h, x, g, p as int);
                assert(string_records(vals@) =~= string_records(old_vals).push(header_value(x.1)));
                assert(group_records(groups@) =~= g.update(p as int, (g[p as int].0, g[p as int].1.push(header_value(x.1)))));
            }
        } else {
            let mut vals: Vec<String> = Vec::new();
            vals.push(value);
            proof {
                assert(string_records(vals@) =~= seq![header_value(x.1)]);
            }
            groups.insert(p, (name, vals));
            proof {
                lemma_grouping_insert(h, x, g, p as int);
                assert(group_records(groups@) =~= g.insert(p as int, (ascii_lowercase(x.0@), seq![header_value(x.1)])));
            }
        }
        k = k + 1;
    }
    proof {
        assert(headers@.take(n as int) =~= headers@);
    }
    groups
}


/// The JSON text that serde_json writes for header groups: an object from
/// each name to the array of its values. Its exact form (escaping, spacing)
/// is serde_json's; the library only relies on it being a function of the
/// groups.
pub uninterp spec fn header_groups_json(groups: Seq<(Seq<char>, Seq<Seq<char>>)>) -> Seq<char>;

/// `serde_json::to_string` of the groups as a map from name to values (a
/// `BTreeMap`, as the names are distinct and already in order); a failure
/// would be handed back as the error's text. serde_json documents that
/// `to_string` fails only where a `Serialize` impl decides to fail or a map
/// has keys that are not strings; a map from string names to lists of
/// strings has neither, so the contract states success and names its text.
#[verifier::external_body]
fn headers_to_json(groups: &Vec<(String, Vec<String>)>) -> (res: Result<String, String>)
    requires
        names_strictly_increasing(group_records(groups@)),
    ensures
        res is Ok,
        res matches Ok(text) ==> text@ == header_groups_json(group_records(groups@)),
{
    let map: std::collections::BTreeMap<&str, &Vec<String>> =
        groups.iter().map(|g| (g.0.as_str(), &g.1)).collect();
    match serde_json::to_string(&map) {
        Ok(text) => Ok(text),
        Err(e) => Err(e.to_string()),
    }
}

/// `time::OffsetDateTime::now_utc`, taken as nanoseconds since the Unix epoch
/// (`unix_timestamp_nanos`). It reads the clock, so nothing is stated of it.
#[verifier::external_body]
fn unix_now_nanos() -> i128 {
    time::OffsetDateTime::now_utc().unix_timestamp_nanos()
}

/// Nanoseconds to whole milliseconds, rounding toward zero as integer
/// division does.
pub open spec fn nanos_to_millis(nanos: int) -> int {
    if nanos >= 0 {
        nanos / 1_000_000
    } else {
        -((-nanos) / 1_000_000)
    }
}

/// `(nanos / 1_000_000) as i64`: whole milliseconds, rounded toward zero,
/// then taken to 64 bits.
pub fn millis_from_nanos(nanos: i128) -> (ms: i64)
    ensures
        ms == nanos_to_millis(nanos as int) as i64,
{
    if nanos >= 0 {
        let q: u128 = (nanos as u128) / 1_000_000;
        proof {
            assert(q <= i128::MAX);
        }
        (q as i128) as i64
    } else {
        let m: u128 = ((-(nanos + 1)) as u128) + 1;
        let q: u128 = m / 1_000_000;
        proof {
            assert(m as int == -(nanos as int));
            assert(q <= i128::MAX);
        }
        (-(q as i128)) as i64
    }
}

/// The record stored for a captured request.
pub open spec fn captured_record(
    id: int,
    endpoint_id: u128,
    received_at: i64,
    method: Seq<char>,
    path: Seq<char>,
    query: Seq<char>,
    source_ip: Seq<char>,
    headers_json: Seq<char>,
    body: Seq<u8>,
) -> WebhookRecord {
    WebhookRecord {
        id: id as i64,
        endpoint_id,
        received_at,
        method,
        path,
        query,
        source_ip,
        headers_json,
        body,
        body_size: body.len() as i64,
    }
}

/// Stores a captured request for endpoint `endpoint_id` received at
/// `received_at` (Unix milliseconds) with the headers already as JSON, and
/// answers 200. An unknown endpoint answers `NotFound` and stores nothing.
pub fn capture_webhook(
    store: &mut Store,
    endpoint_id: u128,
    received_at: i64,
    method: &str,
    path: &str,
    query: &str,
    source_ip: &str,
    headers_json: &str,
    body: &[u8],
    retain: i64,
) -> (res: Result<u16, AppError>)
    ensures
        !has_endpoint(old(store)@.endpoints, endpoint_id) ==> res == Err::<u16, AppError>(AppError::NotFound)
            && final(store)@ == old(store)@,
        has_endpoint(old(store)@.endpoints, endpoint_id) && old(store)@.last_webhook_id < i64::MAX ==> {
            &&& res == Ok::<u16, AppError>(200)
            &&& final(store)@ == old(store)@.with_webhook(
                captured_record(old(store)@.last_webhook_id + 1, endpoint_id, received_at, method@, path@, query@,
                    source_ip@, headers_json@, body@),
                retain as int,
            )
        },
        has_endpoint(old(store)@.endpoints, endpoint_id) && old(store)@.last_webhook_id == i64::MAX ==>
            res == Err::<u16, AppError>(AppError::Database(StoreError::WebhookIdsExhausted))
            && final(store)@ == old(store)@,
        res is Ok ==> has_endpoint(old(store)@.endpoints, endpoint_id) && old(store)@.last_webhook_id < i64::MAX,
        res is Err ==> final(store)@ == old(store)@ && (
            (res == Err::<u16, AppError>(AppError::NotFound) && !has_endpoint(old(store)@.endpoints, endpoint_id))
            || (res == Err::<u16, AppError>(AppError::Database(StoreError::WebhookIdsExhausted))
                && old(store)@.last_webhook_id == i64::MAX)),
{
    if db::get_endpoint(store, endpoint_id).is_none() {
        return Err(AppError::NotFound);
    }
    let new = NewWebhook { endpoint_id, received_at, method, path, query, source_ip, headers_json, body };
    match db::insert_webhook(store, &new, retain) {
        Ok(_) => Ok(200),
        Err(e) => Err(AppError::Database(e)),
    }
}

/// The message of an internal error raised when the headers cannot be
/// written as JSON.
pub fn serializing_headers_message(reason: &str) -> (res: String)
    ensures
        res@ == "serializing headers: "@ + reason@,
{
    let mut msg = "serializing headers: ".to_owned();
    msg.append(reason);
    msg
}

/// `after` is `before` with the request stored at time `received_at` (and the
/// eviction that follows), its headers grouped as `groups` and written as JSON.
pub open spec fn stored_capture(
    before: StoreModel,
    after: StoreModel,
    endpoint_id: u128,
    method: Seq<char>,
    path: Seq<char>,
    query: Seq<char>,
    source_ip: Seq<char>,
    headers: Seq<(String, Option<String>)>,
    body: Seq<u8>,
    retain: int,
    received_at: i64,
    groups: Seq<(Seq<char>, Seq<Seq<char>>)>,
) -> bool {
    &&& is_header_grouping(headers, groups)
    &&& after == before.with_webhook(
        captured_record(before.last_webhook_id + 1, endpoint_id, received_at, method, path, query, source_ip,
            header_groups_json(groups), body),
        retain,
    )
}

/// The query text stored: the raw query, or empty when there is none.
pub open spec fn query_text(query: Option<&str>) -> Seq<char> {
    match query {
        Some(q) => q@,
        None => Seq::empty(),
    }
}

/// Handles a request sent to an endpoint: when the endpoint exists, stores
/// the request with the current time in milliseconds, its headers grouped
/// by lower-cased name as JSON, and answers 200; an unknown endpoint answers
/// `NotFound`. Storing evicts the endpoint's oldest webhooks beyond `retain`.
pub fn ingest(
    store: &mut Store,
    endpoint_id: u128,
    method: &str,
    path: &str,
    query: Option<&str>,
    source_ip: &str,
    headers: &Vec<(String, Option<String>)>,
    body: &[u8],
    retain: i64,
) -> (res: Result<u16, AppError>)
    ensures
        !has_endpoint(old(store)@.endpoints, endpoint_id) ==> res == Err::<u16, AppError>(AppError::NotFound)
            && final(store)@ == old(store)@,
        has_endpoint(old(store)@.endpoints, endpoint_id) && old(store)@.last_webhook_id < i64::MAX
            ==> res == Ok::<u16, AppError>(200),
        res is Ok ==> res == Ok::<u16, AppError>(200) && has_endpoint(old(store)@.endpoints, endpoint_id)
            && exists|t: i64, g: Seq<(Seq<char>, Seq<Seq<char>>)>| #[trigger] stored_capture(
                old(store)@, final(store)@, endpoint_id, method@, path@, query_text(query), source_ip@,
                headers@, body@, retain as int, t, g),
        res matches Err(AppError::Database(e)) ==> final(store)@ == old(store)@
            && e == StoreError::WebhookIdsExhausted && old(store)@.last_webhook_id == i64::MAX,
        res is Err ==> res matches Err(AppError::NotFound) || res matches Err(AppError::Database(_)),
{
    if db::get_endpoint(store, endpoint_id).is_none() {
        return Err(AppError::NotFound);
    }
    let now = unix_now_nanos();
    ingest_at(store, endpoint_id, method, path, query, source_ip, headers, body, retain, now)
}

/// Handles a request sent to an endpoint, received when the clock read
/// `now_nanos` nanoseconds since the Unix epoch: when the endpoint exists,
/// stores the request with that time in whole milliseconds, its headers
/// grouped by lower-cased name as JSON, and answers 200; an unknown endpoint
/// answers `NotFound`. Storing evicts the endpoint's oldest webhooks beyond
/// `retain`.
pub fn ingest_at(
    store: &mut Store,
    endpoint_id: u128,
    method: &str,
    path: &str,
    query: Option<&str>,
    source_ip: &str,
    headers: &Vec<(String, Option<String>)>,
    body: &[u8],
    retain: i64,
    now_nanos: i128,
) -> (res: Result<u16, AppError>)
    ensures
        !has_endpoint(old(store)@.endpoints, endpoint_id) ==> res == Err::<u16, AppError>(AppError::NotFound)
            && final(store)@ == old(store)@,
        has_endpoint(old(store)@.endpoints, endpoint_id) && old(store)@.last_webhook_id < i64::MAX
            ==> res == Ok::<u16, AppError>(200),
        res is Ok ==> res == Ok::<u16, AppError>(200) && has_endpoint(old(store)@.endpoints, endpoint_id)
            && exists|g: Seq<(Seq<char>, Seq<Seq<char>>)>| #[trigger] stored_capture(
                old(store)@, final(store)@, endpoint_id, method@, path@, query_text(query), source_ip@,
                headers@, body@, retain as int, nanos_to_millis(now_nanos as int) as i64, g),
        res matches Err(AppError::Database(e)) ==> final(store)@ == old(store)@
            && e == StoreError::WebhookIdsExhausted && old(store)@.last_webhook_id == i64::MAX,
        res is Err ==> res matches Err(AppError::NotFound) || res matches Err(AppError::Database(_)),
{
    if db::get_endpoint(store, endpoint_id).is_none() {
        return Err(AppError::NotFound);
    }
    let received_at = millis_from_nanos(now_nanos);
    let groups = group_headers(headers);
    let headers_json = match headers_to_json(&groups) {
        Ok(text) => text,
        Err(reason) => {
            let m = serializing_headers_message(reason.as_str());
            proof {
                assert(m@.subrange(0, "serializing headers: "@.len() as int) =~= "serializing headers: "@);
            }
            return Err(AppError::Internal(m));
        },
    };
    let q = match query {
        Some(q) => q,
        None => "",
    };
    proof {
        reveal_strlit("");
        assert(q@ == query_text(query));
    }
    let ghost before = store@;
    let res = capture_webhook(store, endpoint_id, received_at, method, path, q, source_ip, headers_json.as_str(), body, retain);
    proof {
        if res is Ok {
            assert(stored_capture(before, store@, endpoint_id, method@, path@, query_text(query), source_ip@,
                headers@, body@, retain as int, received_at, group_records(groups@)));
        }
    }
    res
}

} // verus!
