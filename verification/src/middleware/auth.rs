use vstd::prelude::*;

use crate::error::AppError;
use crate::proxy::forwarder::{header_view, visible_ascii_byte, Header};
use crate::text::{ascii_text, ascii_to_string};

verus! {

/// The client key a request was authenticated with.
pub struct ClientKey(pub String);

/// The value of the first header of that name, as `HeaderMap::get` finds it.
pub open spec fn first_header(hs: Seq<(Seq<char>, Seq<u8>)>, name: Seq<char>) -> Option<Seq<u8>>
    decreases hs.len(),
{
    if hs.len() == 0 {
        None
    } else if hs[0].0 == name {
        Some(hs[0].1)
    } else {
        first_header(hs.drop_first(), name)
    }
}

/// A header value as text, when it only holds visible ASCII, space and tab
/// (`HeaderValue::to_str`).
pub open spec fn header_text(v: Seq<u8>) -> Option<Seq<u8>> {
    if forall|i: int| 0 <= i < v.len() ==> visible_ascii_byte(#[trigger] v[i]) {
        Some(v)
    } else {
        None
    }
}

/// The bytes of `Bearer `.
pub open spec fn bearer_bytes() -> Seq<u8> {
    seq![66u8, 101u8, 97u8, 114u8, 101u8, 114u8, 32u8]
}

/// What follows a prefix, when the text starts with it (`str::strip_prefix`).
pub open spec fn strip_prefix(t: Seq<u8>, prefix: Seq<u8>) -> Option<Seq<u8>> {
    if t.len() >= prefix.len() && t.subrange(0, prefix.len() as int) == prefix {
        Some(t.subrange(prefix.len() as int, t.len() as int))
    } else {
        None
    }
}

/// The key a client presents: the token of an `Authorization: Bearer`
/// header, or else the value of an `x-api-key` header.
pub open spec fn presented_key(hs: Seq<(Seq<char>, Seq<u8>)>) -> Option<Seq<u8>> {
    let bearer = match first_header(hs, "authorization"@) {
        Some(v) => match header_text(v) {
            Some(t) => strip_prefix(t, bearer_bytes()),
            None => None,
        },
        None => None,
    };
    match bearer {
        Some(k) => Some(k),
        None => match first_header(hs, "x-api-key"@) {
            Some(v) => header_text(v),
            None => None,
        },
    }
}

/// A client presenting `Authorization: Bearer <t>`, with `t` plain visible
/// ASCII of any length, presents exactly `t`: the whole rest of the header,
/// nothing cut off, whatever `x-api-key` header it also sends.
pub proof fn law_bearer_token_is_rest_of_header(hs: Seq<(Seq<char>, Seq<u8>)>, t: Seq<u8>)
    requires
        first_header(hs, "authorization"@) == Some(bearer_bytes() + t),
        forall|i: int| 0 <= i < t.len() ==> visible_ascii_byte(#[trigger] t[i]),
    ensures
        presented_key(hs) == Some(t),
{
    let v = bearer_bytes() + t;
    assert forall|i: int| 0 <= i < v.len() implies visible_ascii_byte(#[trigger] v[i]) by {
        if i >= 7 {
            assert(v[i] == t[i - 7]);
        }
    }
    assert(v.subrange(0, 7) =~= bearer_bytes());
    assert(v.subrange(7, v.len() as int) =~= t);
}

/// Without an `Authorization` header, a client presents the whole value of
/// its `x-api-key` header when that is plain visible ASCII.
pub proof fn law_api_key_header_is_presented(hs: Seq<(Seq<char>, Seq<u8>)>, t: Seq<u8>)
    requires
        first_header(hs, "authorization"@) is None,
        first_header(hs, "x-api-key"@) == Some(t),
        forall|i: int| 0 <= i < t.len() ==> visible_ascii_byte(#[trigger] t[i]),
    ensures
        presented_key(hs) == Some(t),
{
}

/// The client keys the proxy accepts.
pub struct ClientKeySet {
    keys: Vec<String>,
}

/// The keys of a list, as texts.
pub open spec fn key_texts(keys: Seq<String>) -> Seq<Seq<char>> {
    keys.map_values(|s: String| s@)
}

impl View for ClientKeySet {
    type V = Set<Seq<char>>;

    closed spec fn view(&self) -> Set<Seq<char>> {
        key_texts(self.keys@).to_set()
    }
}

impl ClientKeySet {
    /// An empty set.
    pub fn new() -> (r: ClientKeySet)
        ensures
            r@ == Set::<Seq<char>>::empty(),
    {
        let r = ClientKeySet { keys: Vec::new() };
        assert(r@ =~= Set::<Seq<char>>::empty());
        r
    }

    /// Whether the set holds `key`.
    pub fn contains(&self, key: &String) -> (r: bool)
        ensures
            r == self@.contains(key@),
    {
        let ghost ks = key_texts(self.keys@);
        let mut i: usize = 0;
        while i < self.keys.len()
            invariant
                ks == key_texts(self.keys@),
                0 <= i <= ks.len(),
                forall|j: int| 0 <= j < i ==> ks[j] != key@,
            decreases ks.len() - i,
        {
            if self.keys[i] == *key {
                assert(ks[i as int] == key@);
                return true;
            }
            i = i + 1;
        }
        false
    }

    /// Adds a key.
    pub fn insert(&mut self, key: String)
        ensures
            final(self)@ == old(self)@.insert(key@),
    {
        if !self.contains(&key) {
            let ghost k = key@;
            let ghost before = key_texts(self.keys@);
            self.keys.push(key);
            proof {
                assert(key_texts(self.keys@) =~= before.push(k));
                before.lemma_push_to_set_commute(k);
            }
        } else {
            assert(self@ =~= old(self)@.insert(key@));
        }
    }

    /// Removes a key.
    pub fn remove(&mut self, key: &String)
        ensures
            final(self)@ == old(self)@.remove(key@),
    {
        let ghost before = key_texts(self.keys@);
        let ghost pred = |x: Seq<char>| x != key@;
        let mut kept: Vec<String> = Vec::new();
        let mut i: usize = 0;
        proof {
            reveal(Seq::filter);
            assert(before.take(0) =~= Seq::<Seq<char>>::empty());
            assert(key_texts(kept@) =~= before.take(0).filter(pred));
        }
        while i < self.keys.len()
            invariant
                before == key_texts(self.keys@),
                pred == (|x: Seq<char>| x != key@),
                0 <= i <= before.len(),
                key_texts(kept@) == before.take(i as int).filter(pred),
            decreases before.len() - i,
        {
            proof {
                assert(before.take(i + 1) =~= before.take(i as int).push(before[i as int]));
                before.take(i as int).lemma_filter_push(before[i as int], pred);
            }
            if self.keys[i] != *key {
                let ghost old_kept = key_texts(kept@);
                kept.push(self.keys[i].clone());
                proof {
                    assert(key_texts(kept@) =~= old_kept.push(before[i as int]));
                }
            }
            i = i + 1;
        }
        proof {
            assert(before.take(i as int) =~= before);
        }
        self.keys = kept;
        proof {
            let after = key_texts(self.keys@);
            assert forall|x: Seq<char>| #[trigger] after.to_set().contains(x) == before.to_set().remove(key@).contains(x) by {
                if after.contains(x) {
                    let j = choose|j: int| 0 <= j < after.len() && after[j] == x;
                    before.lemma_filter_pred(pred, j);
                    before.lemma_filter_contains_rev(pred, x);
                }
                if before.contains(x) && x != key@ {
                    let j = choose|j: int| 0 <= j < before.len() && before[j] == x;
                    before.lemma_filter_contains(pred, j);
                }
            }
            assert(self@ =~= old(self)@.remove(key@));
        }
    }
}

/// The value of the first header of that name.
pub fn first_header_value<'a>(headers: &'a Vec<Header>, name: &String) -> (r: Option<&'a Vec<u8>>)
    ensures
        match first_header(header_view(headers@), name@) {
            Some(v) => r matches Some(x) && x@ == v,
            None => r is None,
        },
{
    let ghost hs = header_view(headers@);
    let mut i: usize = 0;
    proof {
        assert(hs.subrange(0, hs.len() as int) =~= hs);
    }
    while i < headers.len()
        invariant
            hs == header_view(headers@),
            0 <= i <= headers@.len(),
            first_header(hs, name@) == first_header(hs.subrange(i as int, hs.len() as int), name@),
        decreases headers@.len() - i,
    {
        let ghost rest = hs.subrange(i as int, hs.len() as int);
        proof {
            assert(rest.drop_first() =~= hs.subrange(i + 1, hs.len() as int));
            assert(rest[0] == (headers@[i as int].name@, headers@[i as int].value@));
        }
        if headers[i].name == *name {
            return Some(&headers[i].value);
        }
        i = i + 1;
    }
    proof {
        assert(hs.subrange(i as int, hs.len() as int).len() == 0);
    }
    None
}

/// Whether a header value reads as text (see `header_text`).
pub fn is_header_text(v: &Vec<u8>) -> (r: bool)
    ensures
        r == header_text(v@) is Some,
{
    let mut i: usize = 0;
    while i < v.len()
        invariant
            0 <= i <= v@.len(),
            forall|j: int| 0 <= j < i ==> visible_ascii_byte(#[trigger] v@[j]),
        decreases v@.len() - i,
    {
        let b = v[i];
        if !((b >= 32 && b < 127) || b == 9) {
            assert(!visible_ascii_byte(v@[i as int]));
            return false;
        }
        i = i + 1;
    }
    true
}

fn slice_from(v: &Vec<u8>, start: usize) -> (r: Vec<u8>)
    requires
        start <= v@.len(),
    ensures
        r@ == v@.subrange(start as int, v@.len() as int),
{
    let mut out: Vec<u8> = Vec::new();
    let mut i: usize = start;
    while i < v.len()
        invariant
            start <= i <= v@.len(),
            out@ == v@.subrange(start as int, i as int),
        decreases v@.len() - i,
    {
        out.push(v[i]);
        proof {
            assert(v@.subrange(start as int, i + 1) =~= v@.subrange(start as int, i as int).push(v@[i as int]));
        }
        i = i + 1;
    }
    out
}

fn starts_with_bearer(v: &Vec<u8>) -> (r: bool)
    ensures
        r == (v@.len() >= 7 && v@.subrange(0, 7) == bearer_bytes()),
{
    let r = v.len() >= 7 && v[0] == 66u8 && v[1] == 101u8 && v[2] == 97u8 && v[3] == 114u8 && v[4]
        == 101u8 && v[5] == 114u8 && v[6] == 32u8;
    proof {
        if v@.len() >= 7 {
            if r {
                assert(v@.subrange(0, 7) =~= bearer_bytes());
            } else {
                if v@.subrange(0, 7) == bearer_bytes() {
                    assert(v@[0] == v@.subrange(0, 7)[0]);
                    assert(v@[1] == v@.subrange(0, 7)[1]);
                    assert(v@[2] == v@.subrange(0, 7)[2]);
                    assert(v@[3] == v@.subrange(0, 7)[3]);
                    assert(v@[4] == v@.subrange(0, 7)[4]);
                    assert(v@[5] == v@.subrange(0, 7)[5]);
                    assert(v@[6] == v@.subrange(0, 7)[6]);
                }
            }
        }
    }
    r
}

/// The key a request presents: the token of an `Authorization: Bearer`
/// header, or else the value of an `x-api-key` header; a header that is not
/// plain visible ASCII counts as absent.
pub fn extract_client_key(headers: &Vec<Header>) -> (r: Option<String>)
    ensures
        match presented_key(header_view(headers@)) {
            Some(k) => r matches Some(s) && s@ == ascii_text(k),
            None => r is None,
        },
{
    let authorization = String::from_str("authorization");
    let api_key = String::from_str("x-api-key");
    let ghost hs = header_view(headers@);
    if let Some(v) = first_header_value(headers, &authorization) {
        if is_header_text(v) && starts_with_bearer(v) {
            let token = slice_from(v, 7);
            proof {
                assert forall|i: int| 0 <= i < token@.len() implies #[trigger] token@[i] < 128 by {
                    assert(token@[i] == v@[i + 7]);
                    assert(visible_ascii_byte(v@[i + 7]));
                }
            }
            return Some(ascii_to_string(token.as_slice()));
        }
    }
    if let Some(v) = first_header_value(headers, &api_key) {
        if is_header_text(v) {
            proof {
                assert forall|i: int| 0 <= i < v@.len() implies #[trigger] v@[i] < 128 by {
                    assert(visible_ascii_byte(v@[i]));
                }
            }
            return Some(ascii_to_string(v.as_slice()));
        }
    }
    None
}

/// Authenticates a request: it must present a key (see `presented_key`)
/// that the proxy accepts; otherwise it is refused as `Unauthorized`.
pub fn authenticate(headers: &Vec<Header>, accepted: &ClientKeySet) -> (r: Result<ClientKey, AppError>)
    ensures
        match presented_key(header_view(headers@)) {
            Some(k) => if accepted@.contains(ascii_text(k)) {
                r matches Ok(ClientKey(s)) && s@ == ascii_text(k)
            } else {
                r == Err::<ClientKey, AppError>(AppError::Unauthorized)
            },
            None => r == Err::<ClientKey, AppError>(AppError::Unauthorized),
        },
{
    match extract_client_key(headers) {
        Some(k) => {
            if accepted.contains(&k) {
                Ok(ClientKey(k))
            } else {
                Err(AppError::Unauthorized)
            }
        },
        None => Err(AppError::Unauthorized),
    }
}

} // verus!
