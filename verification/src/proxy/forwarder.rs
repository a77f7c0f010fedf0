use vstd::prelude::*;
use vstd::string::StringSliceAdditionalSpecFns;

use crate::config::{key_bytes, Config};
use crate::error::AppError;
use crate::proxy::key_pool::{after_failure, after_success, cooldown_ticket, AcquiredKey, KeyPool};
use crate::proxy::retry::{is_success, spec_is_success};
use crate::text::{decimal, to_decimal};

verus! {

/// The two upstream APIs the proxy speaks.
#[derive(Clone, Copy, Debug, PartialEq, Eq, Structural)]
pub enum Protocol {
    OpenAI,
    Anthropic,
}

/// One HTTP header: its name in lower case, as `http::HeaderMap` keeps it,
/// and its raw value.
pub struct Header {
    pub name: String,
    pub value: Vec<u8>,
}

/// A header list as mathematical values.
pub open spec fn header_view(hs: Seq<Header>) -> Seq<(Seq<char>, Seq<u8>)> {
    hs.map_values(|h: Header| (h.name@, h.value@))
}

/// A byte that may stand in a header value: visible ASCII, space, tab, or
/// any byte from 0x80 up (what `http::HeaderValue::from_str` accepts).
pub open spec fn header_value_byte(b: u8) -> bool {
    (b >= 32 && b != 127) || b == 9
}

/// A byte that `http::HeaderValue::to_str` reads as text: visible ASCII,
/// space or tab.
pub open spec fn visible_ascii_byte(b: u8) -> bool {
    (b >= 32 && b < 127) || b == 9
}

/// Whether every byte may stand in a header value.
pub open spec fn valid_header_value(v: Seq<u8>) -> bool {
    forall|i: int| 0 <= i < v.len() ==> header_value_byte(#[trigger] v[i])
}

/// Whether `bytes` is a valid header value.
pub fn header_value_valid(bytes: &[u8]) -> (r: bool)
    ensures
        r == valid_header_value(bytes@),
{
    let mut i: usize = 0;
    while i < bytes.len()
        invariant
            0 <= i <= bytes@.len(),
            forall|j: int| 0 <= j < i ==> header_value_byte(#[trigger] bytes@[j]),
        decreases bytes@.len() - i,
    {
        let b = bytes[i];
        if !((b >= 32 && b != 127) || b == 9) {
            return false;
        }
        i = i + 1;
    }
    true
}

/// The bytes of `Bearer `.
pub open spec fn bearer_prefix() -> Seq<u8> {
    seq![66u8, 101u8, 97u8, 114u8, 101u8, 114u8, 32u8]
}

/// The headers whose client values are never forwarded: the client's own
/// credentials, and the host and length of the client's request.
pub open spec fn stripped_header(name: Seq<char>) -> bool {
    name == "authorization"@ || name == "x-api-key"@ || name == "host"@ || name == "content-length"@
}

/// The headers sent downstream: the client's headers without the stripped
/// ones, then `authorization: Bearer <key>`, then, for Anthropic, also
/// `x-api-key: <key>`.
pub open spec fn spec_downstream_headers(
    client_headers: Seq<(Seq<char>, Seq<u8>)>,
    key: Seq<u8>,
    protocol: Protocol,
) -> Seq<(Seq<char>, Seq<u8>)> {
    let kept = client_headers.filter(|h: (Seq<char>, Seq<u8>)| !stripped_header(h.0));
    let with_auth = kept.push(("authorization"@, bearer_prefix() + key));
    if protocol == Protocol::Anthropic {
        with_auth.push(("x-api-key"@, key))
    } else {
        with_auth
    }
}

impl Protocol {
    /// The base URL of the upstream service for this protocol.
    pub fn base_url<'a>(&self, config: &'a Config) -> (r: &'a str)
        ensures
            r@ == (match *self {
                Protocol::OpenAI => config.downstream.openai_base_url@,
                Protocol::Anthropic => config.downstream.anthropic_base_url@,
            }),
    {
        match self {
            Protocol::OpenAI => config.downstream.openai_base_url.as_str(),
            Protocol::Anthropic => config.downstream.anthropic_base_url.as_str(),
        }
    }

    /// The protocol's name as recorded in usage logs.
    pub fn as_str(&self) -> (r: &'static str)
        ensures
            r@ == (match *self {
                Protocol::OpenAI => "openai"@,
                Protocol::Anthropic => "anthropic"@,
            }),
    {
        match self {
            Protocol::OpenAI => "openai",
            Protocol::Anthropic => "anthropic",
        }
    }
}

/// The upstream URL of a request: the protocol's base URL followed by the path.
pub fn downstream_url(config: &Config, protocol: Protocol, path: &str) -> (r: String)
    ensures
        r@ == (match protocol {
            Protocol::OpenAI => config.downstream.openai_base_url@,
            Protocol::Anthropic => config.downstream.anthropic_base_url@,
        }) + path@,
{
    String::from_str(protocol.base_url(config)).concat(path)
}

fn push_bytes(out: &mut Vec<u8>, bytes: &[u8])
    ensures
        final(out)@ == old(out)@ + bytes@,
{
    let mut i: usize = 0;
    while i < bytes.len()
        invariant
            0 <= i <= bytes@.len(),
            out@ == old(out)@ + bytes@.subrange(0, i as int),
        decreases bytes@.len() - i,
    {
        out.push(bytes[i]);
        proof {
            assert(bytes@.subrange(0, i + 1) =~= bytes@.subrange(0, i as int).push(bytes@[i as int]));
        }
        i = i + 1;
    }
    proof {
        assert(bytes@.subrange(0, bytes@.len() as int) =~= bytes@);
    }
}

fn copy_bytes(bytes: &Vec<u8>) -> (r: Vec<u8>)
    ensures
        r@ == bytes@,
{
    let mut out: Vec<u8> = Vec::new();
    push_bytes(&mut out, bytes.as_slice());
    proof {
        assert(out@ =~= bytes@);
    }
    out
}

/// The headers of the upstream request: the client's headers without its
/// credentials, host and content length, with the downstream key as bearer
/// token and, for Anthropic, also as `x-api-key`.
pub fn build_downstream_headers(client_headers: &Vec<Header>, downstream_key: &str, protocol: Protocol) -> (r: Vec<Header>)
    requires
        valid_header_value(key_bytes(downstream_key@)),
    ensures
        header_view(r@) == spec_downstream_headers(
            header_view(client_headers@),
            key_bytes(downstream_key@),
            protocol,
        ),
{
    let ghost pred = |h: (Seq<char>, Seq<u8>)| !stripped_header(h.0);
    let ghost client = header_view(client_headers@);
    let authorization = String::from_str("authorization");
    let api_key = String::from_str("x-api-key");
    let host = String::from_str("host");
    let content_length = String::from_str("content-length");
    let mut out: Vec<Header> = Vec::new();
    let mut i: usize = 0;
    proof {
        reveal(Seq::filter);
        assert(client.take(0) =~= Seq::<(Seq<char>, Seq<u8>)>::empty());
        assert(header_view(out@) =~= client.take(0).filter(pred));
    }
    while i < client_headers.len()
        invariant
            0 <= i <= client_headers@.len(),
            client == header_view(client_headers@),
            pred == (|h: (Seq<char>, Seq<u8>)| !stripped_header(h.0)),
            authorization@ == "authorization"@,
            api_key@ == "x-api-key"@,
            host@ == "host"@,
            content_length@ == "content-length"@,
            header_view(out@) == client.take(i as int).filter(pred),
        decreases client_headers@.len() - i,
    {
        let h = &client_headers[i];
        proof {
            assert(client.take(i + 1) =~= client.take(i as int).push(client[i as int]));
            client.take(i as int).lemma_filter_push(client[i as int], pred);
            assert(client[i as int] == (h.name@, h.value@));
        }
        if !(h.name == authorization || h.name == api_key || h.name == host || h.name
            == content_length) {
            let ghost before = out@;
            out.push(Header { name: h.name.clone(), value: copy_bytes(&h.value) });
            proof {
                assert(header_view(out@) =~= header_view(before).push((h.name@, h.value@)));
            }
        }
        i = i + 1;
    }
    proof {
        assert(client.take(i as int) =~= client);
    }
    let key = downstream_key.as_bytes();
    let mut bearer: Vec<u8> = vec![66u8, 101u8, 97u8, 114u8, 101u8, 114u8, 32u8];
    push_bytes(&mut bearer, key);
    let ghost kept = out@;
    out.push(Header { name: authorization, value: bearer });
    proof {
        assert(bearer@ =~= bearer_prefix() + key_bytes(downstream_key@));
        assert(header_view(out@) =~= header_view(kept).push(
            ("authorization"@, bearer_prefix() + key_bytes(downstream_key@)),
        ));
    }
    if protocol == Protocol::Anthropic {
        let ghost with_auth = out@;
        let mut v: Vec<u8> = Vec::new();
        push_bytes(&mut v, key);
        out.push(Header { name: api_key, value: v });
        proof {
            assert(header_view(out@) =~= header_view(with_auth).push(
                ("x-api-key"@, key_bytes(downstream_key@)),
            ));
        }
    }
    out
}

/// The error for a streaming request that the upstream service refused:
/// `HTTP <status>: <body>`.
pub fn streaming_error(status: u16, body: &str) -> (r: AppError)
    ensures
        r matches AppError::Downstream(m) && m@ == "HTTP "@ + decimal(status as nat) + ": "@ + body@,
{
    AppError::Downstream(
        String::from_str("HTTP ").concat(to_decimal(status as u64).as_str()).concat(": ").concat(
            body,
        ),
    )
}

/// The client's own credentials never reach the upstream service: the
/// request carries exactly one `authorization` header, the downstream key as
/// bearer token, and an `x-api-key` header only for Anthropic, holding the
/// downstream key. Every other client header is kept, in order.
pub proof fn law_client_credentials_replaced(
    client_headers: Seq<(Seq<char>, Seq<u8>)>,
    key: Seq<u8>,
    protocol: Protocol,
)
    ensures
        ({
            let out = spec_downstream_headers(client_headers, key, protocol);
            let kept = client_headers.filter(|h: (Seq<char>, Seq<u8>)| !stripped_header(h.0));
            &&& forall|i: int|
                0 <= i < out.len() && out[i].0 == "authorization"@ ==> i == kept.len() && out[i].1
                    == bearer_prefix() + key
            &&& forall|i: int|
                0 <= i < out.len() && out[i].0 == "x-api-key"@ ==> protocol == Protocol::Anthropic
                    && i == kept.len() + 1 && out[i].1 == key
            &&& out.subrange(0, kept.len() as int) == kept
            &&& out[kept.len() as int] == ("authorization"@, bearer_prefix() + key)
        }),
{
    let pred = |h: (Seq<char>, Seq<u8>)| !stripped_header(h.0);
    let kept = client_headers.filter(pred);
    let out = spec_downstream_headers(client_headers, key, protocol);
    reveal_strlit("authorization");
    reveal_strlit("x-api-key");
    assert forall|i: int| 0 <= i < kept.len() implies !stripped_header(#[trigger] kept[i].0) by {
        client_headers.lemma_filter_pred(pred, i);
    }
    assert("authorization"@ != "x-api-key"@) by {
        assert("authorization"@.len() != "x-api-key"@.len());
    }
    assert(out.subrange(0, kept.len() as int) =~= kept);
}

/// Exactly four client headers are stripped: `authorization`,
/// `x-api-key`, `host` and `content-length`.
pub proof fn law_stripped_headers(name: Seq<char>)
    ensures
        stripped_header(name) <==> (name == "authorization"@ || name == "x-api-key"@ || name
            == "host"@ || name == "content-length"@),
{
}

/// Every client header named other than `authorization`, `x-api-key`,
/// `host` and `content-length` reaches the upstream service with its value:
/// the upstream headers begin with exactly those client headers, in the
/// client's order.
pub proof fn law_other_headers_forwarded(
    client_headers: Seq<(Seq<char>, Seq<u8>)>,
    key: Seq<u8>,
    protocol: Protocol,
)
    ensures
        ({
            let out = spec_downstream_headers(client_headers, key, protocol);
            let others = client_headers.filter(
                |h: (Seq<char>, Seq<u8>)|
                    !(h.0 == "authorization"@ || h.0 == "x-api-key"@ || h.0 == "host"@ || h.0
                        == "content-length"@),
            );
            &&& out.subrange(0, others.len() as int) == others
            &&& forall|i: int|
                0 <= i < client_headers.len() && !(client_headers[i].0 == "authorization"@
                    || client_headers[i].0 == "x-api-key"@ || client_headers[i].0 == "host"@
                    || client_headers[i].0 == "content-length"@) ==> out.contains(
                    #[trigger] client_headers[i],
                )
        }),
{
    let pred = |h: (Seq<char>, Seq<u8>)| !stripped_header(h.0);
    let lit = |h: (Seq<char>, Seq<u8>)|
        !(h.0 == "authorization"@ || h.0 == "x-api-key"@ || h.0 == "host"@ || h.0
            == "content-length"@);
    assert(pred =~= lit);
    law_client_credentials_replaced(client_headers, key, protocol);
    let out = spec_downstream_headers(client_headers, key, protocol);
    let kept = client_headers.filter(pred);
    assert forall|i: int|
        0 <= i < client_headers.len() && lit(client_headers[i]) implies out.contains(
        #[trigger] client_headers[i],
    ) by {
        client_headers.lemma_filter_contains(pred, i);
        let j = choose|j: int| 0 <= j < kept.len() && kept[j] == client_headers[i];
        assert(out.subrange(0, kept.len() as int)[j] == out[j]);
    }
}

/// Settles the status of a streaming request, which is never retried: a
/// success counts for the key, anything else against it. The first result
/// says whether the stream may be handed to the client, the second, when the
/// key's failure took it out of rotation, the identity of the entry whose
/// cooldown must be scheduled.
pub fn settle_streaming_status(pool: &mut KeyPool, acquired: &AcquiredKey, status: u16) -> (r: (bool, Option<u64>))
    requires
        old(pool).wf(),
    ensures
        final(pool).wf(),
        final(pool)@.cursor == old(pool)@.cursor,
        r.0 == spec_is_success(status),
        spec_is_success(status) ==> final(pool)@.keys == after_success(old(pool)@.keys, acquired.key@)
            && r.1 is None,
        !spec_is_success(status) ==> final(pool)@.keys == after_failure(old(pool)@.keys, acquired.key@)
            && r.1 == cooldown_ticket(old(pool)@.keys, acquired.key@),
        final(pool)@.next_id == old(pool)@.next_id,
{
    if is_success(status) {
        pool.report_success(acquired);
        (true, None)
    } else {
        let cooldown = pool.report_failure(acquired);
        (false, cooldown)
    }
}

} // verus!
