//! The dashboard handlers: the page data of the index, the creation form of
//! an endpoint and its deletion.

use vstd::prelude::*;
use crate::db::{
    self, has_endpoint, holds_v4_id, is_v4_uuid, EndpointRecord, EndpointSummary, Store, StoreError, StoreModel,
};
use crate::error::AppError;

verus! {

/// Whether `c` is whitespace in Unicode's `White_Space` property, which is
/// what `char::is_whitespace` (and so `str::trim`) goes by.
pub open spec fn is_unicode_whitespace(c: char) -> bool {
    ||| ('\u{9}' <= c && c <= '\u{d}')
    ||| c == ' '
    ||| c == '\u{85}'
    ||| c == '\u{a0}'
    ||| c == '\u{1680}'
    ||| ('\u{2000}' <= c && c <= '\u{200a}')
    ||| c == '\u{2028}'
    ||| c == '\u{2029}'
    ||| c == '\u{202f}'
    ||| c == '\u{205f}'
    ||| c == '\u{3000}'
}

/// How many whitespace characters `s` starts with.
pub open spec fn leading_whitespace(s: Seq<char>) -> nat
    decreases s.len(),
{
    if s.len() == 0 || !is_unicode_whitespace(s[0]) {
        0
    } else {
        1 + leading_whitespace(s.drop_first())
    }
}

/// How many whitespace characters `s` ends with.
pub open spec fn trailing_whitespace(s: Seq<char>) -> nat
    decreases s.len(),
{
    if s.len() == 0 || !is_unicode_whitespace(s.last()) {
        0
    } else {
        1 + trailing_whitespace(s.drop_last())
    }
}

/// `s` without its leading and trailing whitespace.
pub open spec fn trimmed(s: Seq<char>) -> Seq<char> {
    let t = s.skip(leading_whitespace(s) as int);
    t.take(t.len() - trailing_whitespace(t))
}

proof fn lemma_leading_bound(s: Seq<char>)
    ensures
        leading_whitespace(s) <= s.len(),
    decreases s.len(),
{
    if s.len() > 0 && is_unicode_whitespace(s[0]) {
        lemma_leading_bound(s.drop_first());
    }
}

proof fn lemma_trailing_bound(s: Seq<char>)
    ensures
        trailing_whitespace(s) <= s.len(),
    decreases s.len(),
{
    if s.len() > 0 && is_unicode_whitespace(s.last()) {
        lemma_trailing_bound(s.drop_last());
    }
}

fn is_whitespace_exec(c: char) -> (res: bool)
    ensures
        res == is_unicode_whitespace(c),
{
    ('\u{9}' <= c && c <= '\u{d}') || c == ' ' || c == '\u{85}' || c == '\u{a0}' || c == '\u{1680}'
        || ('\u{2000}' <= c && c <= '\u{200a}') || c == '\u{2028}' || c == '\u{2029}' || c == '\u{202f}'
        || c == '\u{205f}' || c == '\u{3000}'
}

/// `s` with leading and trailing whitespace removed, as `str::trim` does.
pub fn trim(s: &str) -> (res: &str)
    ensures
        res@ == trimmed(s@),
{
    let n = s.unicode_len();
    let mut a: usize = 0;
    proof {
        assert(s@.subrange(0, n as int) =~= s@);
    }
    while a < n && is_whitespace_exec(s.get_char(a))
        invariant
            n == s@.len(),
            a <= n,
            leading_whitespace(s@) == a + leading_whitespace(s@.subrange(a as int, n as int)),
        decreases n - a,
    {
        proof {
            let sub = s@.subrange(a as int, n as int);
            assert(sub.drop_first() =~= s@.subrange(a + 1, n as int));
            assert(sub[0] == s@[a as int]);
        }
        a = a + 1;
    }
    proof {
        let sub = s@.subrange(a as int, n as int);
        if a < n {
            assert(sub[0] == s@[a as int]);
        }
        assert(leading_whitespace(sub) == 0);
        assert(s@.skip(a as int) =~= sub);
    }
    let ghost t = s@.skip(a as int);
    let mut b: usize = n;
    proof {
        assert(t.subrange(0, (b - a) as int) =~= t);
    }
    while b > a && is_whitespace_exec(s.get_char(b - 1))
        invariant
            n == s@.len(),
            a <= b <= n,
            t == s@.skip(a as int),
            trailing_whitespace(t) == (n - b) + trailing_whitespace(t.subrange(0, (b - a) as int)),
        decreases b - a,
    {
        proof {
            let sub = t.subrange(0, (b - a) as int);
            assert(sub.drop_last() =~= t.subrange(0, (b - 1 - a) as int));
            assert(sub.last() == s@[b - 1]);
        }
        b = b - 1;
    }
    proof {
        let sub = t.subrange(0, (b - a) as int);
        if b > a {
            assert(sub.last() == s@[b - 1]);
        }
        assert(trailing_whitespace(sub) == 0);
        assert(t.take(t.len() - trailing_whitespace(t)) =~= s@.subrange(a as int, b as int));
    }
    s.substring_char(a, b)
}

/// The host of the dashboard's receive URLs: the request's `Host` header when
/// it has a readable one, else `localhost`.
pub fn host_or_localhost(host: Option<&str>) -> (res: String)
    ensures
        res@ == match host {
            Some(h) => h@,
            None => "localhost"@,
        },
{
    match host {
        Some(h) => h.to_owned(),
        None => "localhost".to_owned(),
    }
}

/// The base URL shown on the index page: `http://` and the host.
pub fn base_url(host: Option<&str>) -> (res: String)
    ensures
        res@ == "http://"@ + match host {
            Some(h) => h@,
            None => "localhost"@,
        },
{
    let h = host_or_localhost(host);
    let mut url = "http://".to_owned();
    url.append(h.as_str());
    url
}

/// The character of hexadecimal digit `d` (`0`..=`9`, `a`..=`f`).
pub open spec fn hex_digit_lower(d: u128) -> char {
    if d < 10 {
        ('0' as u32 + d) as char
    } else {
        ('a' as u32 + d - 10) as char
    }
}

/// The `k`-th hexadecimal digit of `id`, from the most significant.
pub open spec fn uuid_nibble(id: u128, k: int) -> u128 {
    (id >> ((4 * (31 - k)) as u128)) & 0xfu128
}

/// Which hexadecimal digit stands at position `i` of the hyphenated form.
pub open spec fn hyphenated_digit_index(i: int) -> int {
    if i < 8 { i } else if i < 13 { i - 1 } else if i < 18 { i - 2 } else if i < 23 { i - 3 } else { i - 4 }
}

/// The hyphenated lower-case form of a UUID held as its 128-bit value:
/// 32 hexadecimal digits, most significant first, in groups of 8-4-4-4-12.
pub open spec fn uuid_hyphenated(id: u128) -> Seq<char> {
    Seq::new(36, |i: int|
        if i == 8 || i == 13 || i == 18 || i == 23 {
            '-'
        } else {
            hex_digit_lower(uuid_nibble(id, hyphenated_digit_index(i)))
        })
}

/// `uuid::Uuid::from_u128(id).to_string()`. uuid's `Display` writes the
/// hyphenated lower-case form of the big-endian bytes, which is all the
/// contract claims.
#[verifier::external_body]
fn uuid_to_string(id: u128) -> (res: String)
    ensures
        res@ == uuid_hyphenated(id),
{
    uuid::Uuid::from_u128(id).to_string()
}

/// Where the dashboard shows endpoint `id`: `/endpoints/` and its UUID.
pub fn endpoint_location(id: u128) -> (res: String)
    ensures
        res@ == "/endpoints/"@ + uuid_hyphenated(id),
{
    let text = uuid_to_string(id);
    let mut loc = "/endpoints/".to_owned();
    loc.append(text.as_str());
    loc
}

/// What the index page shows: all endpoints and the base of their receive URLs.
#[derive(Debug, Clone)]
pub struct IndexPage {
    pub endpoints: Vec<EndpointSummary>,
    pub base_url: String,
}

/// The data of the dashboard's index page.
pub fn index(store: &Store, host: Option<&str>) -> (res: IndexPage)
    ensures
        db::is_endpoint_listing(store@, db::endpoint_summary_records(res.endpoints@)),
        res.base_url@ == "http://"@ + match host {
            Some(h) => h@,
            None => "localhost"@,
        },
{
    let endpoints = db::list_endpoints(store);
    let base_url = base_url(host);
    IndexPage { endpoints, base_url }
}

/// The form that creates an endpoint.
#[derive(Debug, Clone)]
pub struct CreateEndpointForm {
    pub label: String,
    pub description: String,
}

/// The message given when the label is blank.
pub open spec fn label_required_text() -> Seq<char> {
    "label is required"@
}

/// Creates an endpoint from the form: the label, trimmed, must not be empty;
/// the description is trimmed too. Returns where to send the browser: the
/// new endpoint's page. With a non-blank label it fails only when the drawn
/// id is taken (see [`db::create_endpoint`]).
pub fn create_endpoint(store: &mut Store, form: &CreateEndpointForm) -> (res: Result<String, AppError>)
    ensures
        trimmed(form.label@).len() == 0 ==> {
            &&& res matches Err(AppError::BadRequest(m)) && m@ == label_required_text()
            &&& final(store)@ == old(store)@
        },
        res matches Ok(location) ==> trimmed(form.label@).len() > 0
            && final(store)@.endpoints.len() == old(store)@.endpoints.len() + 1
            && created_from_form(old(store)@, final(store)@, form.label@, form.description@, location@,
                final(store)@.endpoints.last()),
        trimmed(form.label@).len() > 0 && res is Err ==>
            res == Err::<String, AppError>(AppError::Database(StoreError::DuplicateEndpoint))
            && final(store)@ == old(store)@ && holds_v4_id(old(store)@.endpoints),
        trimmed(form.label@).len() > 0 && !holds_v4_id(old(store)@.endpoints) ==> res is Ok,
{
    let label = trim(form.label.as_str());
    if label.is_empty() {
        return Err(AppError::BadRequest("label is required".to_owned()));
    }
    let description = trim(form.description.as_str());
    let ghost old_model = store@;
    match db::create_endpoint(store, label, description) {
        Ok(e) => {
            let location = endpoint_location(e.id);
            proof {
                let er = e@;
                assert(created_from_form(old_model, store@, form.label@, form.description@, location@, er));
                assert(store@.endpoints.last() == er);
            }
            Ok(location)
        },
        Err(err) => {
            proof {
                assert(store@ == old_model);
            }
            Err(AppError::Database(err))
        },
    }
}

/// `after` is `before` with endpoint `e` added, made from the form's label
/// and description (both trimmed) under a fresh version-4 UUID, and
/// `location` is the page of `e`.
pub open spec fn created_from_form(
    before: StoreModel,
    after: StoreModel,
    label: Seq<char>,
    description: Seq<char>,
    location: Seq<char>,
    e: EndpointRecord,
) -> bool {
    &&& e.label == trimmed(label)
    &&& e.description == trimmed(description)
    &&& !has_endpoint(before.endpoints, e.id)
    &&& is_v4_uuid(e.id)
    &&& after == (StoreModel { endpoints: before.endpoints.push(e), ..before })
    &&& location == "/endpoints/"@ + uuid_hyphenated(e.id)
}

/// Deletes an endpoint (with its webhooks), whether or not it exists, and
/// sends the browser back to the index with `303 See Other`.
pub fn delete_endpoint(store: &mut Store, id: u128) -> (res: (u16, String))
    ensures
        final(store)@ == old(store)@.without_endpoint(id),
        res.0 == 303,
        res.1@ == "/"@,
{
    let _ = db::delete_endpoint(store, id);
    (303, "/".to_owned())
}

} // verus!
