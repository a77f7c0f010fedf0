use vstd::prelude::*;
use vstd::utf8::*;
use vstd::string::StrSliceExecFns;
use vstd::string::StringSliceAdditionalSpecFns;

verus! {

broadcast use vstd::utf8::encode_utf8_decode_utf8, vstd::utf8::encode_utf8_valid_utf8;

/// The whole proxy configuration.
pub struct Config {
    pub server: ServerConfig,
    pub downstream: DownstreamConfig,
    pub client_keys: Vec<ClientKeyConfig>,
    pub downstream_keys: Vec<DownstreamKeyConfig>,
    pub rate_limit: RateLimitConfig,
    pub database: DatabaseConfig,
}

/// Where the proxy listens.
pub struct ServerConfig {
    pub host: String,
    pub port: u16,
}

/// The two upstream services that requests are forwarded to, and the
/// retry policy towards them.
pub struct DownstreamConfig {
    pub openai_base_url: String,
    pub anthropic_base_url: String,
    pub timeout_secs: u64,
    pub max_retries: u32,
    pub retry_base_ms: u64,
}

/// A key that clients may present to the proxy.
pub struct ClientKeyConfig {
    pub key: String,
}

/// A key of the upstream service, with its share of the traffic.
pub struct DownstreamKeyConfig {
    pub key: String,
    pub weight: u32,
}

/// Per-client token bucket settings.
pub struct RateLimitConfig {
    pub requests_per_minute: u32,
    pub burst_size: u32,
}

/// Where usage records and keys are stored.
pub struct DatabaseConfig {
    /// Turso/libsql database URL (e.g. libsql://mydb.aws-ap-south-1.turso.io)
    pub url: String,
    /// Turso auth token
    pub token: String,
}

/// The bytes of a key in UTF-8.
pub open spec fn key_bytes(key: Seq<char>) -> Seq<u8> {
    encode_utf8(key)
}

/// `mask_key` cuts a key longer than 8 bytes after its 4th byte and before its
/// 4th-to-last byte; both cuts must fall between characters.
pub open spec fn mask_defined(key: Seq<char>) -> bool {
    let b = key_bytes(key);
    b.len() <= 8 || (is_char_boundary(b, 4) && is_char_boundary(b, b.len() - 4))
}

/// A key as shown in logs and statistics: `***` for keys of at most 8 bytes,
/// else the first 4 bytes, `...` and the last 4 bytes.
pub open spec fn spec_mask_key(key: Seq<char>) -> Seq<char> {
    let b = key_bytes(key);
    if b.len() <= 8 {
        seq!['*', '*', '*']
    } else {
        decode_utf8(b.subrange(0, 4)) + seq!['.', '.', '.'] + decode_utf8(
            b.subrange(b.len() - 4, b.len() as int),
        )
    }
}


/// The listening host when none is configured.
pub fn default_host() -> (r: String)
    ensures
        r@ == "0.0.0.0"@,
{
    String::from_str("0.0.0.0")
}

/// The listening port when none is configured.
pub fn default_port() -> (r: u16)
    ensures
        r == 3000,
{
    3000
}

/// The downstream request timeout in seconds when none is configured.
pub fn default_timeout() -> (r: u64)
    ensures
        r == 120,
{
    120
}

/// The number of retries when none is configured.
pub fn default_max_retries() -> (r: u32)
    ensures
        r == 3,
{
    3
}

/// The base retry delay in milliseconds when none is configured.
pub fn default_retry_base_ms() -> (r: u64)
    ensures
        r == 500,
{
    500
}

/// The weight of a downstream key when none is configured.
pub fn default_weight() -> (r: u32)
    ensures
        r == 1,
{
    1
}

/// The rate limit in requests per minute when none is configured.
pub fn default_rpm() -> (r: u32)
    ensures
        r == 60,
{
    60
}

/// The token bucket size when none is configured.
pub fn default_burst() -> (r: u32)
    ensures
        r == 60,
{
    60
}

impl Default for ServerConfig {
    fn default() -> (r: Self)
        ensures
            r.host@ == "0.0.0.0"@,
            r.port == 3000,
    {
        ServerConfig { host: default_host(), port: default_port() }
    }
}

impl Default for RateLimitConfig {
    fn default() -> (r: Self)
        ensures
            r.requests_per_minute == 60,
            r.burst_size == 60,
    {
        RateLimitConfig { requests_per_minute: default_rpm(), burst_size: default_burst() }
    }
}

impl Default for DatabaseConfig {
    fn default() -> (r: Self)
        ensures
            r.url@ == Seq::<char>::empty(),
            r.token@ == Seq::<char>::empty(),
    {
        DatabaseConfig { url: String::new(), token: String::new() }
    }
}

/// Why a number could not be read, as the standard library reports it.
pub enum IntErrorKind {
    /// The text is empty.
    Empty,
    /// The text holds something other than an optional `+` and digits.
    InvalidDigit,
    /// The number is too large for the target type.
    PosOverflow,
}

impl IntErrorKind {
    /// The message the standard library gives for this error.
    pub fn message(&self) -> (r: &'static str)
        ensures
            r@ == (match *self {
                IntErrorKind::Empty => "cannot parse integer from empty string"@,
                IntErrorKind::InvalidDigit => "invalid digit found in string"@,
                IntErrorKind::PosOverflow => "number too large to fit in target type"@,
            }),
    {
        match self {
            IntErrorKind::Empty => "cannot parse integer from empty string",
            IntErrorKind::InvalidDigit => "invalid digit found in string",
            IntErrorKind::PosOverflow => "number too large to fit in target type",
        }
    }
}

/// The value of a decimal digit character.
pub open spec fn digit_value(c: char) -> Option<nat> {
    if '0' <= c && c <= '9' {
        Some((c as nat - '0' as nat) as nat)
    } else {
        None
    }
}

/// Reads decimal digits left to right onto `acc`; the first character that
/// is no digit, or the first digit that takes the value past `u16::MAX`,
/// stops the reading with an error.
pub open spec fn parse_digits(ds: Seq<char>, acc: nat) -> Result<nat, IntErrorKind>
    decreases ds.len(),
{
    if ds.len() == 0 {
        Ok(acc)
    } else {
        match digit_value(ds[0]) {
            None => Err(IntErrorKind::InvalidDigit),
            Some(x) => if acc * 10 + x > u16::MAX {
                Err(IntErrorKind::PosOverflow)
            } else {
                parse_digits(ds.drop_first(), acc * 10 + x)
            },
        }
    }
}

/// How `str::parse::<u16>` reads a text: an optional leading `+`, then one
/// or more decimal digits, with no other character.
pub open spec fn spec_parse_u16(s: Seq<char>) -> Result<nat, IntErrorKind> {
    if s.len() == 0 {
        Err(IntErrorKind::Empty)
    } else if (s[0] == '+' || s[0] == '-') && s.len() == 1 {
        Err(IntErrorKind::InvalidDigit)
    } else if s[0] == '+' {
        parse_digits(s.drop_first(), 0)
    } else {
        parse_digits(s, 0)
    }
}

/// Reads a port number the way `str::parse::<u16>` does.
pub fn parse_u16(s: &str) -> (r: Result<u16, IntErrorKind>)
    ensures
        match spec_parse_u16(s@) {
            Ok(v) => r == Ok::<u16, IntErrorKind>(v as u16),
            Err(e) => r == Err::<u16, IntErrorKind>(e),
        },
        spec_parse_u16(s@) matches Ok(v) ==> v <= u16::MAX,
{
    let n = s.unicode_len();
    if n == 0 {
        return Err(IntErrorKind::Empty);
    }
    let first = s.get_char(0);
    if (first == '+' || first == '-') && n == 1 {
        return Err(IntErrorKind::InvalidDigit);
    }
    let mut i: usize = if first == '+' {
        1
    } else {
        0
    };
    let ghost start = i as int;
    let ghost ds = s@.subrange(start, n as int);
    proof {
        assert(s@.drop_first() =~= s@.subrange(1, n as int));
        assert(s@ =~= s@.subrange(0, n as int));
    }
    let mut acc: u16 = 0;
    while i < n
        invariant
            n == s@.len(),
            start <= i <= n,
            0 <= start <= 1,
            ds == s@.subrange(start, n as int),
            spec_parse_u16(s@) == parse_digits(s@.subrange(i as int, n as int), acc as nat),
        decreases n - i,
    {
        let c = s.get_char(i);
        proof {
            assert(s@.subrange(i as int, n as int)[0] == c);
            assert(s@.subrange(i as int, n as int).drop_first() =~= s@.subrange(i + 1, n as int));
        }
        if c < '0' || c > '9' {
            return Err(IntErrorKind::InvalidDigit);
        }
        let x = (c as u32 - '0' as u32) as u16;
        if acc > 6553 || (acc == 6553 && x > 5) {
            return Err(IntErrorKind::PosOverflow);
        }
        acc = acc * 10 + x;
        i = i + 1;
    }
    proof {
        assert(s@.subrange(n as int, n as int) =~= Seq::<char>::empty());
    }
    Ok(acc)
}

impl Config {
    /// Whether `key` is one of the configured client keys.
    pub fn is_valid_client_key(&self, key: &str) -> (r: bool)
        ensures
            r == exists|i: int| 0 <= i < self.client_keys@.len() && #[trigger] self.client_keys@[i].key@ == key@,
    {
        let wanted = String::from_str(key);
        let mut i: usize = 0;
        while i < self.client_keys.len()
            invariant
                0 <= i <= self.client_keys@.len(),
                wanted@ == key@,
                forall|j: int| 0 <= j < i ==> self.client_keys@[j].key@ != key@,
            decreases self.client_keys@.len() - i,
        {
            if self.client_keys[i].key == wanted {
                return true;
            }
            i = i + 1;
        }
        false
    }

    /// Whether `mask_key` is defined on `key` (see `mask_defined`).
    pub fn mask_key_defined(key: &str) -> (r: bool)
        ensures
            r == mask_defined(key@),
    {
        let len = key.as_bytes().len();
        len <= 8 || (key.is_char_boundary(4) && key.is_char_boundary(len - 4))
    }

    /// Hides most of a key: `***` when it has at most 8 bytes, else its first
    /// and last 4 bytes around `...`.
    pub fn mask_key(key: &str) -> (r: String)
        requires
            mask_defined(key@),
        ensures
            r@ == spec_mask_key(key@),
    {
        let len = key.as_bytes().len();
        if len <= 8 {
            proof {
                reveal_strlit("***");
            }
            return String::from_str("***");
        }
        let (head, _) = key.split_at(4);
        let (_, tail) = key.split_at(len - 4);
        proof {
            reveal_strlit("...");
            assert(head@ == decode_utf8(head.spec_bytes()));
            assert(tail@ == decode_utf8(tail.spec_bytes()));
        }
        let r = String::from_str(head).concat("...").concat(tail);
        r
    }
}

/// Settings taken from the environment, each present only when its variable
/// is set.
pub struct EnvOverrides {
    /// `XIAOMI_PROXY_PORT`
    pub port: Option<String>,
    /// `XIAOMI_PROXY_HOST`
    pub host: Option<String>,
    /// `XIAOMI_PROXY_OPENAI_URL`
    pub openai_url: Option<String>,
    /// `XIAOMI_PROXY_ANTHROPIC_URL`
    pub anthropic_url: Option<String>,
    /// `TURSO_DATABASE_URL`
    pub database_url: Option<String>,
    /// `TURSO_AUTH_TOKEN`
    pub database_token: Option<String>,
}

/// A setting after an optional override.
pub open spec fn overridden(current: Seq<char>, over: Option<String>) -> Seq<char> {
    match over {
        Some(v) => v@,
        None => current,
    }
}

impl Config {
    /// Applies the environment's settings over the ones read from the file.
    /// A port that does not read as a `u16` is an error, and then nothing is
    /// changed.
    pub fn apply_env_overrides(&mut self, env: EnvOverrides) -> (r: Result<(), IntErrorKind>)
        ensures
            match env.port {
                Some(p) => match spec_parse_u16(p@) {
                    Ok(v) => r is Ok && final(self).server.port == v,
                    Err(e) => r == Err::<(), IntErrorKind>(e) && *final(self) == *old(self),
                },
                None => r is Ok && final(self).server.port == old(self).server.port,
            },
            r is Ok ==> {
                &&& final(self).server.host@ == overridden(old(self).server.host@, env.host)
                &&& final(self).downstream.openai_base_url@ == overridden(
                    old(self).downstream.openai_base_url@,
                    env.openai_url,
                )
                &&& final(self).downstream.anthropic_base_url@ == overridden(
                    old(self).downstream.anthropic_base_url@,
                    env.anthropic_url,
                )
                &&& final(self).database.url@ == overridden(old(self).database.url@, env.database_url)
                &&& final(self).database.token@ == overridden(
                    old(self).database.token@,
                    env.database_token,
                )
                &&& final(self).client_keys == old(self).client_keys
                &&& final(self).downstream_keys == old(self).downstream_keys
                &&& final(self).rate_limit == old(self).rate_limit
                &&& final(self).downstream.timeout_secs == old(self).downstream.timeout_secs
                &&& final(self).downstream.max_retries == old(self).downstream.max_retries
                &&& final(self).downstream.retry_base_ms == old(self).downstream.retry_base_ms
            },
    {
        if let Some(p) = &env.port {
            match parse_u16(p.as_str()) {
                Ok(v) => {
                    self.server.port = v;
                },
                Err(e) => {
                    return Err(e);
                },
            }
        }
        if let Some(h) = env.host {
            self.server.host = h;
        }
        if let Some(u) = env.openai_url {
            self.downstream.openai_base_url = u;
        }
        if let Some(u) = env.anthropic_url {
            self.downstream.anthropic_base_url = u;
        }
        if let Some(u) = env.database_url {
            self.database.url = u;
        }
        if let Some(tok) = env.database_token {
            self.database.token = tok;
        }
        Ok(())
    }
}

proof fn lemma_ascii_encoding(chars: Seq<char>)
    requires
        is_ascii_chars(chars),
    ensures
        encode_utf8(chars) =~= chars.map_values(|c: char| c as u8),
        valid_utf8(encode_utf8(chars)),
{
    is_ascii_chars_encode_utf8(chars);
    encode_utf8_valid_utf8(chars);
}

/// On an ASCII key, masking is always defined, shows nothing of a key of at
/// most 8 characters, and otherwise shows its first and last 4 characters
/// around `...`.
pub proof fn law_mask_ascii_key(key: Seq<char>)
    requires
        is_ascii_chars(key),
    ensures
        mask_defined(key),
        key.len() <= 8 ==> spec_mask_key(key) == seq!['*', '*', '*'],
        key.len() > 8 ==> spec_mask_key(key) == key.subrange(0, 4) + seq!['.', '.', '.']
            + key.subrange(key.len() - 4, key.len() as int),
{
    let b = key_bytes(key);
    lemma_ascii_encoding(key);
    if key.len() > 8 {
        let n = key.len() as int;
        assert(b[4] == key[4] as u8);
        assert(b[n - 4] == key[n - 4] as u8);
        is_char_boundary_iff_not_is_continuation_byte(b, 4);
        is_char_boundary_iff_not_is_continuation_byte(b, n - 4);
        let head = key.subrange(0, 4);
        let tail = key.subrange(n - 4, n);
        assert(is_ascii_chars(head));
        assert(is_ascii_chars(tail));
        lemma_ascii_encoding(head);
        lemma_ascii_encoding(tail);
        assert(b.subrange(0, 4) =~= encode_utf8(head));
        assert(b.subrange(n - 4, n) =~= encode_utf8(tail));
    }
}

} // verus!
