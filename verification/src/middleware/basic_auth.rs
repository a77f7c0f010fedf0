use base64::Engine;
use vstd::prelude::*;
use vstd::utf8::*;

use crate::middleware::auth::{first_header, first_header_value, header_text, is_header_text, strip_prefix};
use crate::proxy::forwarder::{header_view, visible_ascii_byte, Header};
use crate::text::{ascii_text, ascii_to_string, is_whitespace, trim, trim_end, trim_start, trim_str};

verus! {

/// The character of a 6-bit value in the standard Base64 alphabet
/// (`A`-`Z`, `a`-`z`, `0`-`9`, `+`, `/`).
pub open spec fn base64_digit(v: nat) -> char {
    if v < 26 {
        (65 + v) as char
    } else if v < 52 {
        (97 + v - 26) as char
    } else if v < 62 {
        (48 + v - 52) as char
    } else if v == 62 {
        '+'
    } else {
        '/'
    }
}

/// The standard Base64 encoding (RFC 4648) of a byte string, with `=`
/// padding: each group of 3 bytes becomes 4 characters of 6 bits each, and a
/// last group of 1 or 2 bytes is padded to 4 characters.
pub open spec fn base64_standard(data: Seq<u8>) -> Seq<char>
    decreases data.len(),
{
    if data.len() == 0 {
        Seq::empty()
    } else if data.len() == 1 {
        let a = data[0] as nat;
        seq![base64_digit(a / 4), base64_digit((a % 4) * 16), '=', '=']
    } else if data.len() == 2 {
        let a = data[0] as nat;
        let b = data[1] as nat;
        seq![
            base64_digit(a / 4),
            base64_digit((a % 4) * 16 + b / 16),
            base64_digit((b % 16) * 4),
            '=',
        ]
    } else {
        let a = data[0] as nat;
        let b = data[1] as nat;
        let c = data[2] as nat;
        seq![
            base64_digit(a / 4),
            base64_digit((a % 4) * 16 + b / 16),
            base64_digit((b % 16) * 4 + c / 64),
            base64_digit(c % 64),
        ] + base64_standard(data.subrange(3, data.len() as int))
    }
}

/// Whether the Base64 text of `n` bytes has a length that fits in `usize`
/// (`base64::encoded_len` panics otherwise).
pub open spec fn base64_encodable(n: nat) -> bool {
    (n / 3) * 4 + (if n % 3 > 0 {
        4nat
    } else {
        0nat
    }) <= usize::MAX
}

/// `base64::engine::general_purpose::STANDARD.encode`: the padded standard
/// Base64 text of the bytes (`base64_standard`).
#[verifier::external_body]
fn base64_encode(data: &[u8]) -> (r: String)
    requires
        base64_encodable(data@.len()),
    ensures
        r@ == base64_standard(data@),
{
    base64::engine::general_purpose::STANDARD.encode(data)
}

/// The bytes of `Basic `.
pub open spec fn basic_bytes() -> Seq<u8> {
    seq![66u8, 97u8, 115u8, 105u8, 99u8, 32u8]
}

/// The credentials a request must present: Base64 of `username:password`.
pub open spec fn expected_credentials(username: Seq<char>, password: Seq<char>) -> Seq<char> {
    base64_standard(encode_utf8(username + seq![':'] + password))
}

/// Whether a request may reach the admin routes. Without both a user name
/// and a password configured, every request may. Otherwise its first
/// `Authorization` header must be plain visible ASCII, start with `Basic `,
/// and hold, white space aside, the Base64 of `username:password`.
pub open spec fn spec_basic_auth_allows(
    username: Seq<char>,
    password: Seq<char>,
    hs: Seq<(Seq<char>, Seq<u8>)>,
) -> bool {
    if username.len() == 0 || password.len() == 0 {
        true
    } else {
        match first_header(hs, "authorization"@) {
            Some(v) => match header_text(v) {
                Some(t) => match strip_prefix(t, basic_bytes()) {
                    Some(rest) => trim(ascii_text(rest)) == expected_credentials(username, password),
                    None => false,
                },
                None => false,
            },
            None => false,
        }
    }
}

fn starts_with_basic(v: &Vec<u8>) -> (r: bool)
    ensures
        r == (v@.len() >= 6 && v@.subrange(0, 6) == basic_bytes()),
{
    let r = v.len() >= 6 && v[0] == 66u8 && v[1] == 97u8 && v[2] == 115u8 && v[3] == 105u8 && v[4]
        == 99u8 && v[5] == 32u8;
    proof {
        if v@.len() >= 6 {
            if r {
                assert(v@.subrange(0, 6) =~= basic_bytes());
            } else if v@.subrange(0, 6) == basic_bytes() {
                assert(v@[0] == v@.subrange(0, 6)[0]);
                assert(v@[1] == v@.subrange(0, 6)[1]);
                assert(v@[2] == v@.subrange(0, 6)[2]);
                assert(v@[3] == v@.subrange(0, 6)[3]);
                assert(v@[4] == v@.subrange(0, 6)[4]);
                assert(v@[5] == v@.subrange(0, 6)[5]);
            }
        }
    }
    r
}

/// Checks the HTTP Basic credentials of a request to the admin routes (see
/// `spec_basic_auth_allows`).
pub fn basic_auth_allows(username: &str, password: &str, headers: &Vec<Header>) -> (r: bool)
    requires
        username@.len() == 0 || password@.len() == 0 || base64_encodable(
            encode_utf8(username@ + seq![':'] + password@).len(),
        ),
    ensures
        r == spec_basic_auth_allows(username@, password@, header_view(headers@)),
{
    if username.unicode_len() == 0 || password.unicode_len() == 0 {
        return true;
    }
    let raw = String::from_str(username).concat(":").concat(password);
    proof {
        reveal_strlit(":");
        assert(raw@ =~= username@ + seq![':'] + password@);
    }
    let expected = base64_encode(raw.as_str().as_bytes());
    let authorization = String::from_str("authorization");
    match first_header_value(headers, &authorization) {
        Some(v) => {
            let visible = is_header_text(v);
            if !visible || !starts_with_basic(v) {
                proof {
                    if !visible {
                        assert(header_text(v@) is None);
                    }
                }
                return false;
            }
            let mut rest: Vec<u8> = Vec::new();
            let mut k: usize = 6;
            while k < v.len()
                invariant
                    6 <= k <= v@.len(),
                    rest@ == v@.subrange(6, k as int),
                decreases v@.len() - k,
            {
                rest.push(v[k]);
                proof {
                    assert(v@.subrange(6, k + 1) =~= v@.subrange(6, k as int).push(v@[k as int]));
                }
                k = k + 1;
            }
            proof {
                assert forall|j: int| 0 <= j < rest@.len() implies #[trigger] rest@[j] < 128 by {
                    assert(rest@[j] == v@[j + 6]);
                    assert(crate::proxy::forwarder::visible_ascii_byte(v@[j + 6]));
                }
            }
            let provided = trim_str(ascii_to_string(rest.as_slice()).as_str());
            proof {
                assert(header_text(v@) == Some(v@));
                assert(strip_prefix(v@, basic_bytes()) == Some(rest@));
            }
            provided == expected
        },
        None => false,
    }
}

/// The padded Base64 text of `n` bytes has `4 * ceil(n / 3)` characters:
/// always a multiple of four.
pub proof fn law_base64_length(data: Seq<u8>)
    ensures
        base64_standard(data).len() == 4 * ((data.len() + 2) / 3),
        base64_standard(data).len() % 4 == 0,
    decreases data.len(),
{
    if data.len() >= 3 {
        law_base64_length(data.subrange(3, data.len() as int));
    }
}

proof fn lemma_base64_digit_not_whitespace(v: nat)
    ensures
        !is_whitespace(base64_digit(v)),
        base64_digit(v) != '=',
{
}

proof fn lemma_base64_not_whitespace(data: Seq<u8>)
    ensures
        forall|i: int| 0 <= i < base64_standard(data).len() ==> !is_whitespace(#[trigger] base64_standard(data)[i]),
    decreases data.len(),
{
    let e = base64_standard(data);
    if data.len() == 1 {
        let a = data[0] as nat;
        lemma_base64_digit_not_whitespace(a / 4);
        lemma_base64_digit_not_whitespace((a % 4) * 16);
    } else if data.len() == 2 {
        let a = data[0] as nat;
        let b = data[1] as nat;
        lemma_base64_digit_not_whitespace(a / 4);
        lemma_base64_digit_not_whitespace((a % 4) * 16 + b / 16);
        lemma_base64_digit_not_whitespace((b % 16) * 4);
    } else if data.len() >= 3 {
        let a = data[0] as nat;
        let b = data[1] as nat;
        let c = data[2] as nat;
        lemma_base64_digit_not_whitespace(a / 4);
        lemma_base64_digit_not_whitespace((a % 4) * 16 + b / 16);
        lemma_base64_digit_not_whitespace((b % 16) * 4 + c / 64);
        lemma_base64_digit_not_whitespace(c % 64);
        let rest = data.subrange(3, data.len() as int);
        lemma_base64_not_whitespace(rest);
        assert forall|i: int| 0 <= i < e.len() implies !is_whitespace(#[trigger] e[i]) by {
            if i >= 4 {
                assert(e[i] == base64_standard(rest)[i - 4]);
            }
        }
    }
}

/// The credentials a request must present are the padded standard Base64
/// text of the UTF-8 bytes of `username:password`, as a browser sends them:
/// four characters for every started group of three bytes.
pub proof fn law_expected_credentials_padded(username: Seq<char>, password: Seq<char>)
    ensures
        expected_credentials(username, password) == base64_standard(
            encode_utf8(username + seq![':'] + password),
        ),
        expected_credentials(username, password).len() == 4 * ((encode_utf8(
            username + seq![':'] + password,
        ).len() + 2) / 3),
{
    law_base64_length(encode_utf8(username + seq![':'] + password));
}

/// With credentials configured, a request whose `Authorization` header is
/// `Basic ` followed by exactly the padded Base64 text of
/// `username:password` is let through.
pub proof fn law_padded_credentials_allowed(
    username: Seq<char>,
    password: Seq<char>,
    hs: Seq<(Seq<char>, Seq<u8>)>,
    presented: Seq<u8>,
)
    requires
        first_header(hs, "authorization"@) == Some(basic_bytes() + presented),
        forall|i: int| 0 <= i < presented.len() ==> visible_ascii_byte(#[trigger] presented[i]),
        ascii_text(presented) == base64_standard(encode_utf8(username + seq![':'] + password)),
    ensures
        spec_basic_auth_allows(username, password, hs),
{
    let v = basic_bytes() + presented;
    assert forall|i: int| 0 <= i < v.len() implies visible_ascii_byte(#[trigger] v[i]) by {
        if i >= 6 {
            assert(v[i] == presented[i - 6]);
        }
    }
    assert(v.subrange(0, 6) =~= basic_bytes());
    assert(v.subrange(6, v.len() as int) =~= presented);
    let s = ascii_text(presented);
    lemma_base64_not_whitespace(encode_utf8(username + seq![':'] + password));
    if s.len() > 0 {
        assert(!is_whitespace(s[0]));
        assert(!is_whitespace(s.last()));
    }
    assert(trim_start(s) == s);
    assert(trim_end(s) == s);
}

/// Without both a user name and a password configured, the admin routes
/// are open: every request passes.
pub proof fn law_open_without_credentials(
    username: Seq<char>,
    password: Seq<char>,
    hs: Seq<(Seq<char>, Seq<u8>)>,
)
    requires
        username.len() == 0 || password.len() == 0,
    ensures
        spec_basic_auth_allows(username, password, hs),
{
}

/// With credentials configured, a request without an `Authorization` header
/// is refused.
pub proof fn law_credentials_required(
    username: Seq<char>,
    password: Seq<char>,
    hs: Seq<(Seq<char>, Seq<u8>)>,
)
    requires
        username.len() > 0,
        password.len() > 0,
        first_header(hs, "authorization"@) is None,
    ensures
        !spec_basic_auth_allows(username, password, hs),
{
}

} // verus!
