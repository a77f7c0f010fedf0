use vstd::prelude::*;

use crate::text::{decimal, has_prefix, starts_with, to_decimal};

verus! {

/// Whether a database URL points at a remote libsql server rather than a
/// local file.
pub open spec fn spec_is_remote_url(url: Seq<char>) -> bool {
    has_prefix(url, "libsql://"@) || has_prefix(url, "http://"@) || has_prefix(url, "https://"@)
}

/// Whether the database URL starts with `libsql://`, `http://` or `https://`.
pub fn is_remote_url(url: &str) -> (r: bool)
    ensures
        r == spec_is_remote_url(url@),
{
    starts_with(url, "libsql://") || starts_with(url, "http://") || starts_with(url, "https://")
}

/// Whether the database is a local file whose directory may have to be
/// created first: the URL is neither remote nor empty.
pub fn is_local_file_url(url: &str) -> (r: bool)
    ensures
        r == (!spec_is_remote_url(url@) && url@.len() > 0),
{
    !is_remote_url(url) && !url.is_empty()
}

/// Which database to open.
pub enum DbTarget {
    /// A remote libsql server at this URL.
    Remote(String),
    /// A local database file at this path.
    Local(String),
}

/// The database a URL designates: a remote one for a remote URL, else the
/// local file it names, `local.db` when it is empty.
pub fn db_target(url: &str) -> (r: DbTarget)
    ensures
        spec_is_remote_url(url@) ==> (r matches DbTarget::Remote(u) && u@ == url@),
        !spec_is_remote_url(url@) && url@.len() == 0 ==> (r matches DbTarget::Local(p) && p@
            == "local.db"@),
        !spec_is_remote_url(url@) && url@.len() > 0 ==> (r matches DbTarget::Local(p) && p@ == url@),
{
    if is_remote_url(url) {
        DbTarget::Remote(String::from_str(url))
    } else if url.is_empty() {
        DbTarget::Local(String::from_str("local.db"))
    } else {
        DbTarget::Local(String::from_str(url))
    }
}

/// The aggregate query over `request_logs` between two dates (`?1`, `?2`).
pub open spec fn usage_select() -> Seq<char> {
    "SELECT date(timestamp) as date, client_key, model, COUNT(*) as request_count, COALESCE(SUM(prompt_tokens), 0) as total_prompt_tokens, COALESCE(SUM(completion_tokens), 0) as total_completion_tokens, COALESCE(SUM(total_tokens), 0) as total_tokens FROM request_logs WHERE date(timestamp) >= ?1 AND date(timestamp) <= ?2"@
}

/// The grouping and order of the usage query.
pub open spec fn usage_group_by() -> Seq<char> {
    " GROUP BY date(timestamp), client_key, model ORDER BY date(timestamp) DESC"@
}

/// A usage query: its SQL text and its positional parameters.
pub struct UsageQueryPlan {
    pub sql: String,
    pub params: Vec<String>,
}

/// The SQL of the usage query, with a filter on the client key and on the
/// model when they are given, numbered after the two dates.
pub open spec fn usage_sql(key: bool, model: bool) -> Seq<char> {
    let with_key = if key {
        usage_select() + " AND client_key = ?"@ + decimal(3)
    } else {
        usage_select()
    };
    let with_model = if model {
        with_key + " AND model = ?"@ + decimal(if key {
            4
        } else {
            3
        })
    } else {
        with_key
    };
    with_model + usage_group_by()
}

/// Builds the usage query for a date range and optional client key and
/// model: the parameters are the two dates, then the key, then the model,
/// each filter numbered after the parameters before it.
pub fn usage_query(from: &str, to: &str, key: Option<&str>, model: Option<&str>) -> (r: UsageQueryPlan)
    ensures
        r.sql@ == usage_sql(key is Some, model is Some),
        r.params@.len() == 2 + (if key is Some {
            1int
        } else {
            0
        }) + (if model is Some {
            1int
        } else {
            0
        }),
        r.params@[0]@ == from@,
        r.params@[1]@ == to@,
        key matches Some(k) ==> r.params@[2]@ == k@,
        model matches Some(m) ==> r.params@[r.params@.len() - 1]@ == m@,
{
    let mut sql = String::from_str(
        "SELECT date(timestamp) as date, client_key, model, COUNT(*) as request_count, COALESCE(SUM(prompt_tokens), 0) as total_prompt_tokens, COALESCE(SUM(completion_tokens), 0) as total_completion_tokens, COALESCE(SUM(total_tokens), 0) as total_tokens FROM request_logs WHERE date(timestamp) >= ?1 AND date(timestamp) <= ?2",
    );
    let mut params: Vec<String> = Vec::new();
    params.push(String::from_str(from));
    params.push(String::from_str(to));
    if let Some(k) = key {
        sql = sql.concat(" AND client_key = ?").concat(to_decimal(params.len() as u64 + 1).as_str());
        params.push(String::from_str(k));
    }
    if let Some(m) = model {
        sql = sql.concat(" AND model = ?").concat(to_decimal(params.len() as u64 + 1).as_str());
        params.push(String::from_str(m));
    }
    sql = sql.concat(" GROUP BY date(timestamp), client_key, model ORDER BY date(timestamp) DESC");
    UsageQueryPlan { sql, params }
}

} // verus!
