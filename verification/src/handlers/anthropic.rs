use vstd::prelude::*;

use crate::text::{ascii_text, decimal};

verus! {

/// A JSON scalar: an unsigned integer, or a string.
pub enum JsonScalar {
    Number(u64),
    Text(Seq<char>),
}

/// The value of a member of a JSON document: a scalar, or an object whose
/// members are scalars.
pub enum JsonMember {
    Scalar(JsonScalar),
    Object(Seq<(Seq<char>, JsonScalar)>),
}

/// A character that stands for itself inside a JSON string: printable ASCII
/// other than `"` and `\`.
pub open spec fn plain_json_char(c: char) -> bool {
    ' ' <= c && c <= '~' && c != '"' && c != '\\'
}

/// A text written in a JSON string without any escape.
pub open spec fn plain_json_text(s: Seq<char>) -> bool {
    forall|i: int| 0 <= i < s.len() ==> plain_json_char(#[trigger] s[i])
}

/// A member name that a JSON pointer names literally: plain, and without
/// `/` or `~`.
pub open spec fn pointer_token(s: Seq<char>) -> bool {
    plain_json_text(s) && forall|i: int| 0 <= i < s.len() ==> #[trigger] s[i] != '/' && s[i] != '~'
}

/// A JSON string.
pub open spec fn json_string(s: Seq<char>) -> Seq<char> {
    seq!['"'] + s + seq!['"']
}

/// A scalar as JSON text: a number in decimal, a string in quotes.
pub open spec fn scalar_text(v: JsonScalar) -> Seq<char> {
    match v {
        JsonScalar::Number(n) => decimal(n as nat),
        JsonScalar::Text(s) => json_string(s),
    }
}

/// The members of an object of scalars as compact JSON text, separated by
/// commas.
pub open spec fn scalar_members_text(ms: Seq<(Seq<char>, JsonScalar)>) -> Seq<char>
    decreases ms.len(),
{
    if ms.len() == 0 {
        Seq::empty()
    } else {
        let last = json_string(ms.last().0) + seq![':'] + scalar_text(ms.last().1);
        if ms.len() == 1 {
            last
        } else {
            scalar_members_text(ms.drop_last()) + seq![','] + last
        }
    }
}

/// A member's value as compact JSON text.
pub open spec fn member_text(v: JsonMember) -> Seq<char> {
    match v {
        JsonMember::Scalar(s) => scalar_text(s),
        JsonMember::Object(ms) => seq!['{'] + scalar_members_text(ms) + seq!['}'],
    }
}

/// The members of a document as compact JSON text, separated by commas.
pub open spec fn members_text(ms: Seq<(Seq<char>, JsonMember)>) -> Seq<char>
    decreases ms.len(),
{
    if ms.len() == 0 {
        Seq::empty()
    } else {
        let last = json_string(ms.last().0) + seq![':'] + member_text(ms.last().1);
        if ms.len() == 1 {
            last
        } else {
            members_text(ms.drop_last()) + seq![','] + last
        }
    }
}

/// A JSON document, an object with these members, as compact JSON text.
pub open spec fn document_text(doc: Seq<(Seq<char>, JsonMember)>) -> Seq<char> {
    seq!['{'] + members_text(doc) + seq!['}']
}

/// A scalar whose text needs no escape.
pub open spec fn plain_scalar(v: JsonScalar) -> bool {
    match v {
        JsonScalar::Number(_) => true,
        JsonScalar::Text(s) => plain_json_text(s),
    }
}

/// An object of scalars with plain, pairwise different member names.
pub open spec fn plain_object(ms: Seq<(Seq<char>, JsonScalar)>) -> bool {
    &&& forall|i: int| 0 <= i < ms.len() ==> plain_json_text(#[trigger] ms[i].0) && plain_scalar(ms[i].1)
    &&& forall|i: int, j: int| 0 <= i < ms.len() && 0 <= j < ms.len() && i != j ==> #[trigger] ms[i].0 != #[trigger] ms[j].0
}

/// A document with plain, pairwise different member names whose values are
/// plain scalars or plain objects.
pub open spec fn plain_document(doc: Seq<(Seq<char>, JsonMember)>) -> bool {
    &&& forall|i: int|
        0 <= i < doc.len() ==> plain_json_text(#[trigger] doc[i].0) && match doc[i].1 {
            JsonMember::Scalar(s) => plain_scalar(s),
            JsonMember::Object(ms) => plain_object(ms),
        }
    &&& forall|i: int, j: int| 0 <= i < doc.len() && 0 <= j < doc.len() && i != j ==> #[trigger] doc[i].0 != #[trigger] doc[j].0
}

/// Whether a member's value is an object with a member `inner` holding the
/// number `n`.
pub open spec fn object_holds_number(v: JsonMember, inner: Seq<char>, n: u64) -> bool {
    &&& v is Object
    &&& exists|j: int| 0 <= j < v->Object_0.len() && #[trigger] v->Object_0[j] == (inner, JsonScalar::Number(n))
}

/// Whether document `doc` has a member `outer` that is an object with a
/// member `inner` holding the number `n`, whatever other members either has.
pub open spec fn reports_number(doc: Seq<(Seq<char>, JsonMember)>, outer: Seq<char>, inner: Seq<char>, n: u64) -> bool {
    &&& plain_document(doc)
    &&& pointer_token(outer)
    &&& pointer_token(inner)
    &&& exists|i: int| 0 <= i < doc.len() && (#[trigger] doc[i]).0 == outer && object_holds_number(doc[i].1, inner, n)
}

/// The number at a JSON pointer of a document, as `serde_json` reads it:
/// `None` unless the bytes parse as JSON and the pointer leads to a
/// non-negative integer that fits in 64 bits.
pub uninterp spec fn json_u64_at_pointer(body: Seq<u8>, pointer: Seq<char>) -> Option<u64>;

/// In a document with pairwise different member names, the number at
/// `/outer/inner` is the one held by the member named exactly `inner`:
/// it is unique, and no other member of `outer`, whatever its name, stands
/// for it.
pub proof fn law_reported_number_unique(
    doc: Seq<(Seq<char>, JsonMember)>,
    outer: Seq<char>,
    inner: Seq<char>,
    n: u64,
    m: u64,
)
    requires
        reports_number(doc, outer, inner, n),
        reports_number(doc, outer, inner, m),
    ensures
        n == m,
{
    let i = choose|i: int| 0 <= i < doc.len() && (#[trigger] doc[i]).0 == outer && object_holds_number(doc[i].1, inner, n);
    let i2 = choose|i: int| 0 <= i < doc.len() && (#[trigger] doc[i]).0 == outer && object_holds_number(doc[i].1, inner, m);
    if i != i2 {
        assert(doc[i].0 != doc[i2].0);
    }
    if let JsonMember::Object(ms) = doc[i].1 {
        assert(plain_object(ms));
        let j = choose|j: int| 0 <= j < ms.len() && #[trigger] ms[j] == (inner, JsonScalar::Number(n));
        let j2 = choose|j: int| 0 <= j < ms.len() && #[trigger] ms[j] == (inner, JsonScalar::Number(m));
        if j != j2 {
            assert(ms[j].0 != ms[j2].0);
        }
    }
}

/// A member whose name differs from `inner`, even one that ends with it,
/// holds no number at `/outer/inner`: adding such a member to the object
/// leaves what is reported there unchanged.
pub proof fn law_other_members_ignored(
    outer: Seq<char>,
    before: Seq<(Seq<char>, JsonScalar)>,
    other: Seq<char>,
    value: JsonScalar,
    inner: Seq<char>,
    n: u64,
)
    requires
        reports_number(seq![(outer, JsonMember::Object(before))], outer, inner, n),
        other != inner,
        plain_json_text(other),
        plain_scalar(value),
        forall|i: int| 0 <= i < before.len() ==> #[trigger] before[i].0 != other,
    ensures
        reports_number(seq![(outer, JsonMember::Object(seq![(other, value)] + before))], outer, inner, n),
{
    let doc = seq![(outer, JsonMember::Object(before))];
    let after = seq![(other, value)] + before;
    let doc2 = seq![(outer, JsonMember::Object(after))];
    let i0 = choose|i: int| 0 <= i < doc.len() && (#[trigger] doc[i]).0 == outer && object_holds_number(doc[i].1, inner, n);
    assert(i0 == 0);
    assert(doc[0] == (outer, JsonMember::Object(before)));
    assert(object_holds_number(JsonMember::Object(before), inner, n));
    let j = choose|j: int| 0 <= j < before.len() && #[trigger] before[j] == (inner, JsonScalar::Number(n));
    assert(after[j + 1] == before[j]);
    assert(plain_object(before));
    assert forall|i: int| 0 <= i < after.len() implies plain_json_text(#[trigger] after[i].0) && plain_scalar(after[i].1) by {
        if i > 0 {
            assert(after[i] == before[i - 1]);
        }
    }
    assert forall|i: int, k: int| 0 <= i < after.len() && 0 <= k < after.len() && i != k implies #[trigger] after[i].0 != #[trigger] after[k].0 by {
        if i > 0 {
            assert(after[i] == before[i - 1]);
        }
        if k > 0 {
            assert(after[k] == before[k - 1]);
        }
    }
    assert(plain_object(after));
    assert(doc2[0] == (outer, JsonMember::Object(after)));
    assert(after.len() == before.len() + 1);
    assert(after[j + 1] == (inner, JsonScalar::Number(n)));
    let v = JsonMember::Object(after);
    assert(v->Object_0 == after);
    assert(v->Object_0[j + 1] == (inner, JsonScalar::Number(n)));
    assert(object_holds_number(v, inner, n));
    assert(doc2[0].1 == v);
}

/// `serde_json::from_slice::<serde_json::Value>`, then `Value::pointer` and
/// `Value::as_u64`: the unsigned integer at a pointer of a JSON document.
/// The result is `json_u64_at_pointer` of the arguments; beyond that, only
/// the RFC 6901 lookup of a two-step pointer `/outer/inner` in a compact
/// document of plain objects is stated: it finds the number held by member
/// `inner` of member `outer`.
#[verifier::external_body]
fn json_u64_at(body: &[u8], pointer: &str) -> (r: Option<u64>)
    ensures
        r == json_u64_at_pointer(body@, pointer@),
        forall|doc: Seq<(Seq<char>, JsonMember)>, outer: Seq<char>, inner: Seq<char>, n: u64|
            #[trigger] reports_number(doc, outer, inner, n) && ascii_text(body@) == document_text(doc)
                && pointer@ == seq!['/'] + outer + seq!['/'] + inner ==> r == Some(n),
{
    match serde_json::from_slice::<serde_json::Value>(body) {
        Ok(v) => match v.pointer(pointer) {
            Some(x) => x.as_u64(),
            None => None,
        },
        Err(_) => None,
    }
}

/// A token count as recorded: the low 32 bits of the reported number.
pub open spec fn truncated_count(v: Option<u64>) -> Option<u32> {
    match v {
        Some(x) => Some(x as u32),
        None => None,
    }
}

/// The token counts of a response, each the low 32 bits of the reported
/// number.
pub fn usage_counts(input: Option<u64>, output: Option<u64>) -> (r: (Option<u32>, Option<u32>))
    ensures
        r.0 == truncated_count(input),
        r.1 == truncated_count(output),
{
    let i = match input {
        Some(x) => Some(x as u32),
        None => None,
    };
    let o = match output {
        Some(x) => Some(x as u32),
        None => None,
    };
    (i, o)
}

/// The input and output token counts an Anthropic response reports under
/// `usage`, each `None` when the body is no JSON or the count is missing or
/// not an unsigned integer.
pub fn extract_anthropic_usage(body: &[u8]) -> (r: (Option<u32>, Option<u32>))
    ensures
        r.0 == truncated_count(json_u64_at_pointer(body@, "/usage/input_tokens"@)),
        r.1 == truncated_count(json_u64_at_pointer(body@, "/usage/output_tokens"@)),
        forall|doc: Seq<(Seq<char>, JsonMember)>, n: u64|
            #[trigger] reports_number(doc, "usage"@, "input_tokens"@, n) && ascii_text(body@)
                == document_text(doc) ==> r.0 == Some(n as u32),
        forall|doc: Seq<(Seq<char>, JsonMember)>, n: u64|
            #[trigger] reports_number(doc, "usage"@, "output_tokens"@, n) && ascii_text(body@)
                == document_text(doc) ==> r.1 == Some(n as u32),
{
    let input = json_u64_at(body, "/usage/input_tokens");
    let output = json_u64_at(body, "/usage/output_tokens");
    proof {
        reveal_strlit("/usage/input_tokens");
        reveal_strlit("/usage/output_tokens");
        reveal_strlit("usage");
        reveal_strlit("input_tokens");
        reveal_strlit("output_tokens");
        assert("/usage/input_tokens"@ =~= seq!['/'] + "usage"@ + seq!['/'] + "input_tokens"@);
        assert("/usage/output_tokens"@ =~= seq!['/'] + "usage"@ + seq!['/'] + "output_tokens"@);
    }
    usage_counts(input, output)
}

/// Whether the total of two token counts can be recorded.
pub open spec fn total_defined(prompt: Option<u32>, completion: Option<u32>) -> bool {
    match (prompt, completion) {
        (Some(p), Some(c)) => p + c <= u32::MAX,
        _ => true,
    }
}

/// The total token count: the sum when both counts are known.
pub fn total_tokens(prompt: Option<u32>, completion: Option<u32>) -> (r: Option<u32>)
    requires
        total_defined(prompt, completion),
    ensures
        r == match (prompt, completion) {
            (Some(p), Some(c)) => Some((p + c) as u32),
            _ => None::<u32>,
        },
{
    match (prompt, completion) {
        (Some(p), Some(c)) => Some(p + c),
        _ => None,
    }
}

/// How a messages request is handled: streamed or not, and the model named
/// in the log.
pub struct MessagePlan {
    pub stream: bool,
    pub model: String,
}

/// A request is streamed when its `stream` field is `true`; its model is the
/// `model` field, `unknown` when absent.
pub fn message_plan(stream: Option<bool>, model: Option<String>) -> (r: MessagePlan)
    ensures
        r.stream == (stream == Some(true)),
        r.model@ == match model {
            Some(m) => m@,
            None => "unknown"@,
        },
{
    MessagePlan {
        stream: match stream {
            Some(b) => b,
            None => false,
        },
        model: match model {
            Some(m) => m,
            None => String::from_str("unknown"),
        },
    }
}

} // verus!
