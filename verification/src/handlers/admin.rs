use rand::Rng;
use vstd::prelude::*;

use crate::text::{trim, trim_str};

verus! {

/// Filters of the usage report.
pub struct UsageQuery {
    pub key: Option<String>,
    pub from: Option<String>,
    pub to: Option<String>,
    pub model: Option<String>,
}

/// Filters and page of the request log listing.
pub struct LogsQuery {
    pub from: Option<String>,
    pub to: Option<String>,
    pub key: Option<String>,
    pub model: Option<String>,
    pub limit: Option<i64>,
    pub offset: Option<i64>,
}

/// A new client key; without a key one is generated.
pub struct AddClientKeyPayload {
    pub key: Option<String>,
    pub description: Option<String>,
    pub rate_limit: Option<i64>,
}

/// A new downstream key with its weight.
pub struct AddDownstreamKeyPayload {
    pub key: String,
    pub weight: i64,
}

/// A new weight for a downstream key.
pub struct UpdateDownstreamKeyPayload {
    pub weight: i64,
}

/// An optional text, or a default.
pub open spec fn text_or(v: Option<String>, default: Seq<char>) -> Seq<char> {
    match v {
        Some(s) => s@,
        None => default,
    }
}

fn string_or(v: &Option<String>, default: &str) -> (r: String)
    ensures
        r@ == text_or(*v, default@),
{
    match v {
        Some(s) => s.clone(),
        None => String::from_str(default),
    }
}

/// The date range of a report: from `1970-01-01` and to `9999-12-31`
/// unless given.
pub fn usage_period(query: &UsageQuery) -> (r: (String, String))
    ensures
        r.0@ == text_or(query.from, "1970-01-01"@),
        r.1@ == text_or(query.to, "9999-12-31"@),
{
    (string_or(&query.from, "1970-01-01"), string_or(&query.to, "9999-12-31"))
}

/// The date range and page of a log listing.
pub struct LogsWindow {
    pub from: String,
    pub to: String,
    pub limit: i64,
    pub offset: i64,
}

/// The page size of a log listing: 100 unless given, and never above 500.
pub open spec fn logs_limit(limit: Option<i64>) -> i64 {
    let l = match limit {
        Some(l) => l,
        None => 100,
    };
    if l < 500 {
        l
    } else {
        500
    }
}

/// The date range and page of a log listing: the report's date defaults,
/// a limit of 100 at most 500, and an offset of 0 unless given.
pub fn logs_window(query: &LogsQuery) -> (r: LogsWindow)
    ensures
        r.from@ == text_or(query.from, "1970-01-01"@),
        r.to@ == text_or(query.to, "9999-12-31"@),
        r.limit == logs_limit(query.limit),
        r.offset == match query.offset {
            Some(o) => o,
            None => 0,
        },
{
    let l = match query.limit {
        Some(l) => l,
        None => 100,
    };
    LogsWindow {
        from: string_or(&query.from, "1970-01-01"),
        to: string_or(&query.to, "9999-12-31"),
        limit: if l < 500 {
            l
        } else {
            500
        },
        offset: match query.offset {
            Some(o) => o,
            None => 0,
        },
    }
}

/// Whether a log page may be followed by another: it is full.
pub fn logs_has_more(count: usize, limit: i64) -> (r: bool)
    ensures
        r == (count as i64 == limit),
{
    count as i64 == limit
}

/// Whether a character is an ASCII letter or digit.
pub open spec fn is_ascii_alphanumeric(c: char) -> bool {
    ('a' <= c && c <= 'z') || ('A' <= c && c <= 'Z') || ('0' <= c && c <= '9')
}

/// `n` characters drawn from `rand::distributions::Alphanumeric` with the
/// thread's generator. Only their number and that they are ASCII letters or
/// digits is known.
#[verifier::external_body]
fn random_alphanumeric(n: usize) -> (r: String)
    ensures
        r@.len() == n,
        forall|i: int| 0 <= i < n ==> is_ascii_alphanumeric(#[trigger] r@[i]),
{
    rand::thread_rng().sample_iter(&rand::distributions::Alphanumeric).take(n).map(char::from).collect()
}

/// Whether a generated client key has its shape: `sk-` and 32 ASCII letters
/// or digits.
pub open spec fn generated_key_shape(k: Seq<char>) -> bool {
    &&& k.len() == 35
    &&& k.subrange(0, 3) == "sk-"@
    &&& forall|i: int| 3 <= i < 35 ==> is_ascii_alphanumeric(#[trigger] k[i])
}

/// The client key to add: the given one without surrounding white space,
/// or, when none is given or it is blank, a fresh `sk-` key of 32 random
/// ASCII letters and digits.
pub fn new_client_key(payload: &AddClientKeyPayload) -> (r: String)
    ensures
        payload.key matches Some(k) && trim(k@).len() > 0 ==> r@ == trim(payload.key->0@),
        !(payload.key matches Some(k) && trim(k@).len() > 0) ==> generated_key_shape(r@),
{
    if let Some(k) = &payload.key {
        let t = trim_str(k.as_str());
        if t.as_str().unicode_len() > 0 {
            return t;
        }
    }
    let rand_str = random_alphanumeric(32);
    let r = String::from_str("sk-").concat(rand_str.as_str());
    proof {
        reveal_strlit("sk-");
        assert(r@.subrange(0, 3) =~= "sk-"@);
        assert forall|i: int| 3 <= i < 35 implies is_ascii_alphanumeric(#[trigger] r@[i]) by {
            assert(r@[i] == rand_str@[i - 3]);
        }
    }
    r
}

/// The downstream key to add: its name without surrounding white space, and
/// its weight for the pool (the low 32 bits of the stored weight).
pub fn downstream_key_to_add(payload: &AddDownstreamKeyPayload) -> (r: (String, u32))
    ensures
        r.0@ == trim(payload.key@),
        r.1 == payload.weight as u32,
{
    (trim_str(payload.key.as_str()), payload.weight as u32)
}

/// A weight update: the stored weight is at least 1, and the pool gets its
/// low 32 bits.
pub fn weight_update(payload: &UpdateDownstreamKeyPayload) -> (r: (i64, u32))
    ensures
        r.0 == (if payload.weight < 1 {
            1
        } else {
            payload.weight
        }),
        r.1 == r.0 as u32,
{
    let w = if payload.weight < 1 {
        1
    } else {
        payload.weight
    };
    (w, w as u32)
}

} // verus!
