use vstd::prelude::*;
use vstd::arithmetic::div_mod::*;
use vstd::relations::injective_on;
use vstd::set_lib::*;

use crate::config::{mask_defined, spec_mask_key, Config, DownstreamKeyConfig};
use crate::error::AppError;

verus! {

/// One downstream key of the pool, as a mathematical value.
pub struct KeyEntry {
    pub key: Seq<char>,
    pub weight: u32,
    pub healthy: bool,
    pub consecutive_errors: u32,
    pub request_count: u32,
    /// The identity the entry was given when it joined the pool.
    pub id: u64,
}

/// The whole pool: its keys in order, the round-robin cursor, and the
/// identity the next new entry will get.
pub struct PoolView {
    pub keys: Seq<KeyEntry>,
    pub cursor: nat,
    pub next_id: nat,
}

/// Number of failures in a row after which a key is taken out of rotation.
pub open spec fn failure_threshold() -> u32 {
    3
}

/// The share of the rotation a key takes: its weight while healthy, else nothing.
pub open spec fn effective_weight(e: KeyEntry) -> nat {
    if e.healthy {
        e.weight as nat
    } else {
        0
    }
}

/// Sum of the effective weights of the first `n` keys.
pub open spec fn weight_prefix(s: Seq<KeyEntry>, n: int) -> nat
    decreases n,
{
    if n <= 0 {
        0
    } else {
        weight_prefix(s, n - 1) + effective_weight(s[n - 1])
    }
}

/// Sum of the weights of all healthy keys.
pub open spec fn total_weight(s: Seq<KeyEntry>) -> nat {
    weight_prefix(s, s.len() as int)
}

/// The first position at or after `p` whose cumulative weight passes `slot`.
pub open spec fn select_from(s: Seq<KeyEntry>, slot: nat, p: int) -> int
    decreases s.len() - p,
{
    if p >= s.len() || p < 0 {
        s.len() as int
    } else if weight_prefix(s, p + 1) > slot {
        p
    } else {
        select_from(s, slot, p + 1)
    }
}

/// The key that serves rotation slot `slot`: the first one whose cumulative
/// weight passes the slot.
pub open spec fn selected_position(s: Seq<KeyEntry>, slot: nat) -> int {
    select_from(s, slot, 0)
}

/// A 32-bit counter that wraps around.
pub open spec fn wrapping_incr(c: u32) -> u32 {
    if c == u32::MAX {
        0
    } else {
        (c + 1) as u32
    }
}

/// The first position at or after `p` holding key `k`, or -1.
pub open spec fn position_from(s: Seq<KeyEntry>, k: Seq<char>, p: int) -> int
    decreases s.len() - p,
{
    if p >= s.len() || p < 0 {
        -1
    } else if s[p].key == k {
        p
    } else {
        position_from(s, k, p + 1)
    }
}

/// The first position holding key `k`, or -1 when the pool has no such key.
pub open spec fn key_position(s: Seq<KeyEntry>, k: Seq<char>) -> int {
    position_from(s, k, 0)
}

/// A fresh key: healthy, with no errors and no requests.
pub open spec fn fresh_entry(k: Seq<char>, weight: u32, id: u64) -> KeyEntry {
    KeyEntry { key: k, weight, healthy: true, consecutive_errors: 0, request_count: 0, id }
}

/// The first position at or after `p` holding the entry with identity
/// `id`, or -1.
pub open spec fn id_position_from(s: Seq<KeyEntry>, id: u64, p: int) -> int
    decreases s.len() - p,
{
    if p >= s.len() || p < 0 {
        -1
    } else if s[p].id == id {
        p
    } else {
        id_position_from(s, id, p + 1)
    }
}

/// The position of the entry with identity `id`, or -1 when it has left the
/// pool.
pub open spec fn id_position(s: Seq<KeyEntry>, id: u64) -> int {
    id_position_from(s, id, 0)
}

/// No two entries share an identity.
pub open spec fn ids_distinct(s: Seq<KeyEntry>) -> bool {
    forall|i: int, j: int| 0 <= i < s.len() && 0 <= j < s.len() && i != j ==> #[trigger] s[i].id != #[trigger] s[j].id
}

/// Every entry's identity was handed out before `next_id`, and no two
/// entries share one.
pub open spec fn ids_fresh(s: Seq<KeyEntry>, next_id: nat) -> bool {
    &&& forall|i: int| 0 <= i < s.len() ==> #[trigger] s[i].id < next_id
    &&& ids_distinct(s)
}

/// The keys left after removing every key equal to `k`.
pub open spec fn without_key(s: Seq<KeyEntry>, k: Seq<char>) -> Seq<KeyEntry> {
    s.filter(|e: KeyEntry| e.key != k)
}

/// The healthy keys, in order.
pub open spec fn healthy_keys(s: Seq<KeyEntry>) -> Seq<KeyEntry> {
    s.filter(|e: KeyEntry| e.healthy)
}

/// The pool's keys after a request with key `k` went through.
pub open spec fn after_success(s: Seq<KeyEntry>, k: Seq<char>) -> Seq<KeyEntry> {
    let p = key_position(s, k);
    if p == -1 {
        s
    } else {
        s.update(p, KeyEntry { consecutive_errors: 0, ..s[p] })
    }
}

/// A key after one more failure: its run of errors grows by one (wrapping),
/// and from the threshold on it is out of rotation.
pub open spec fn failed_entry(e: KeyEntry) -> KeyEntry {
    let errors = wrapping_incr(e.consecutive_errors);
    KeyEntry {
        consecutive_errors: errors,
        healthy: if errors >= failure_threshold() {
            false
        } else {
            e.healthy
        },
        ..e
    }
}

/// The pool's keys after a request with key `k` failed.
pub open spec fn after_failure(s: Seq<KeyEntry>, k: Seq<char>) -> Seq<KeyEntry> {
    let p = key_position(s, k);
    if p == -1 {
        s
    } else {
        s.update(p, failed_entry(s[p]))
    }
}

/// Whether a failure with key `k` takes that key out of rotation, so that a
/// cooldown has to be scheduled.
pub open spec fn starts_cooldown(s: Seq<KeyEntry>, k: Seq<char>) -> bool {
    let p = key_position(s, k);
    p != -1 && wrapping_incr(s[p].consecutive_errors) >= failure_threshold()
}

/// The entry whose cooldown a failure with key `k` starts: its identity, or
/// `None` when no cooldown starts.
pub open spec fn cooldown_ticket(s: Seq<KeyEntry>, k: Seq<char>) -> Option<u64> {
    if starts_cooldown(s, k) {
        Some(s[key_position(s, k)].id)
    } else {
        None
    }
}

/// The pool's keys once the cooldown of the entry with identity `id` is
/// over. An entry that has left the pool in the meantime is not brought
/// back, and an entry that joined since is not touched.
pub open spec fn after_recovery(s: Seq<KeyEntry>, id: u64) -> Seq<KeyEntry> {
    let p = id_position(s, id);
    if p == -1 {
        s
    } else {
        s.update(p, KeyEntry { healthy: true, consecutive_errors: 0, ..s[p] })
    }
}

/// The pool's keys after adding key `k` with weight `w`; a new entry gets
/// identity `id`.
pub open spec fn after_add(s: Seq<KeyEntry>, k: Seq<char>, w: u32, id: u64) -> Seq<KeyEntry> {
    let p = key_position(s, k);
    if p == -1 {
        s.push(fresh_entry(k, w, id))
    } else {
        s.update(p, KeyEntry { weight: w, healthy: true, consecutive_errors: 0, ..s[p] })
    }
}

/// The position served by an acquisition at cursor `cursor`.
pub open spec fn acquired_position(s: Seq<KeyEntry>, cursor: nat) -> int {
    selected_position(s, cursor % total_weight(s))
}

/// The pool's keys after an acquisition at cursor `cursor`: the served key
/// counts one more request (wrapping).
pub open spec fn after_acquire(s: Seq<KeyEntry>, cursor: nat) -> Seq<KeyEntry> {
    let p = acquired_position(s, cursor);
    s.update(p, KeyEntry { request_count: wrapping_incr(s[p].request_count), ..s[p] })
}

struct PooledKey {
    key: String,
    weight: u32,
    healthy: bool,
    consecutive_errors: u32,
    request_count: u32,
    id: u64,
}

impl PooledKey {
    spec fn entry(self) -> KeyEntry {
        KeyEntry {
            key: self.key@,
            weight: self.weight,
            healthy: self.healthy,
            consecutive_errors: self.consecutive_errors,
            request_count: self.request_count,
            id: self.id,
        }
    }
}

/// A pool of downstream keys served in weighted round-robin order, with
/// health tracking: a key that fails three times in a row leaves the
/// rotation until it is recovered.
pub struct KeyPool {
    keys: Vec<PooledKey>,
    round_robin_index: usize,
    next_id: u64,
}

/// A key handed out by the pool for one request.
pub struct AcquiredKey {
    pub key: String,
}

/// What the admin interface shows of one key.
pub struct KeyStats {
    pub key: String,
    pub actual_key: String,
    pub weight: u32,
    pub healthy: bool,
    pub request_count: u32,
    pub consecutive_errors: u32,
}

impl View for KeyPool {
    type V = PoolView;

    closed spec fn view(&self) -> PoolView {
        PoolView {
            keys: self.keys@.map_values(|k: PooledKey| k.entry()),
            cursor: self.round_robin_index as nat,
            next_id: self.next_id as nat,
        }
    }
}

/// Cumulative weights never decrease along the pool.
pub proof fn lemma_weight_prefix_monotone(s: Seq<KeyEntry>, a: int, b: int)
    requires
        a <= b,
    ensures
        weight_prefix(s, a) <= weight_prefix(s, b),
    decreases b - a,
{
    if a < b {
        lemma_weight_prefix_monotone(s, a, b - 1);
    }
}

/// Changing a key without touching its weight or health leaves every
/// cumulative weight, and so the whole rotation, as it was.
pub proof fn law_rotation_ignores_counters(s: Seq<KeyEntry>, p: int, e: KeyEntry, n: int)
    requires
        0 <= p < s.len(),
        e.healthy == s[p].healthy,
        e.weight == s[p].weight,
        n <= s.len(),
    ensures
        weight_prefix(s.update(p, e), n) == weight_prefix(s, n),
    decreases n,
{
    if n > 0 {
        law_rotation_ignores_counters(s, p, e, n - 1);
    }
}

/// Changing an entry without touching its identity keeps the identities
/// fresh and distinct.
proof fn lemma_update_keeps_ids(s: Seq<KeyEntry>, p: int, e: KeyEntry, next_id: nat)
    requires
        ids_fresh(s, next_id),
        0 <= p < s.len(),
        e.id == s[p].id,
    ensures
        ids_fresh(s.update(p, e), next_id),
{
    let t = s.update(p, e);
    assert forall|i: int| 0 <= i < t.len() implies #[trigger] t[i].id == s[i].id by {}
    assert forall|i: int, j: int|
        0 <= i < t.len() && 0 <= j < t.len() && i != j implies #[trigger] t[i].id != #[trigger] t[j].id by {
        assert(t[i].id == s[i].id);
        assert(t[j].id == s[j].id);
    }
}

/// Dropping entries keeps the identities fresh and distinct.
proof fn lemma_filter_keeps_ids(s: Seq<KeyEntry>, pred: spec_fn(KeyEntry) -> bool, next_id: nat)
    requires
        ids_fresh(s, next_id),
    ensures
        ids_fresh(s.filter(pred), next_id),
    decreases s.len(),
{
    reveal(Seq::filter);
    if s.len() > 0 {
        let d = s.drop_last();
        assert forall|i: int| 0 <= i < d.len() implies #[trigger] d[i] == s[i] by {}
        assert(ids_fresh(d, next_id));
        lemma_filter_keeps_ids(d, pred, next_id);
        let f = d.filter(pred);
        if pred(s.last()) {
            let g = f.push(s.last());
            assert(s.filter(pred) == g);
            assert forall|i: int| 0 <= i < f.len() implies #[trigger] f[i].id != s.last().id by {
                d.lemma_filter_contains_rev(pred, f[i]);
                let m = choose|m: int| 0 <= m < d.len() && d[m] == f[i];
                assert(s[m] == d[m]);
            }
            assert forall|i: int| 0 <= i < g.len() implies #[trigger] g[i].id < next_id by {
                if i < f.len() {
                    assert(g[i] == f[i]);
                }
            }
            assert forall|i: int, j: int|
                0 <= i < g.len() && 0 <= j < g.len() && i != j implies #[trigger] g[i].id
                    != #[trigger] g[j].id by {
                if i < f.len() {
                    assert(g[i] == f[i]);
                }
                if j < f.len() {
                    assert(g[j] == f[j]);
                }
            }
        } else {
            assert(s.filter(pred) == f);
        }
    }
}

impl KeyPool {
    /// The pool's cursor always stays below `u32::MAX`, and every entry has
    /// an identity of its own, handed out before `next_id`.
    pub open spec fn wf(&self) -> bool {
        &&& self@.cursor < u32::MAX
        &&& ids_fresh(self@.keys, self@.next_id)
    }

    /// Whether the pool holds a key of that name.
    pub fn contains_key(&self, key: &str) -> (r: bool)
        ensures
            r == (key_position(self@.keys, key@) != -1),
    {
        let k = String::from_str(key);
        self.find(&k).is_some()
    }

    /// Whether a new entry can still be given an identity (see `add_key`).
    pub fn can_add_key(&self) -> (r: bool)
        ensures
            r == (self@.next_id < u64::MAX),
    {
        self.next_id < u64::MAX
    }

    /// A pool holding the configured keys, in order, all healthy; the
    /// entries get identities `0, 1, ...` in order.
    pub fn new(configs: &[DownstreamKeyConfig]) -> (pool: KeyPool)
        ensures
            pool.wf(),
            pool@.cursor == 0,
            pool@.next_id == configs@.len(),
            pool@.keys.len() == configs@.len(),
            forall|i: int|
                0 <= i < configs@.len() ==> #[trigger] pool@.keys[i] == fresh_entry(
                    configs@[i].key@,
                    configs@[i].weight,
                    i as u64,
                ),
    {
        let mut keys: Vec<PooledKey> = Vec::new();
        let mut i: usize = 0;
        while i < configs.len()
            invariant
                0 <= i <= configs@.len(),
                keys@.len() == i,
                forall|j: int|
                    0 <= j < i ==> #[trigger] keys@[j].entry() == fresh_entry(
                        configs@[j].key@,
                        configs@[j].weight,
                        j as u64,
                    ),
            decreases configs@.len() - i,
        {
            let c = &configs[i];
            keys.push(
                PooledKey {
                    key: c.key.clone(),
                    weight: c.weight,
                    healthy: true,
                    consecutive_errors: 0,
                    request_count: 0,
                    id: i as u64,
                },
            );
            i = i + 1;
        }
        let pool = KeyPool { keys, round_robin_index: 0, next_id: configs.len() as u64 };
        proof {
            let s = pool@.keys;
            assert forall|j: int| 0 <= j < s.len() implies #[trigger] s[j].id == j by {
                assert(s[j] == pool.keys@[j].entry());
            }
        }
        pool
    }

    /// Whether the healthy keys' weights add up to at most `u32::MAX`, the
    /// condition under which `acquire_key` may be called.
    pub fn usable_weight_fits(&self) -> (r: bool)
        ensures
            r == (total_weight(self@.keys) <= u32::MAX),
    {
        let ghost s = self@.keys;
        let mut total: u64 = 0;
        let mut i: usize = 0;
        while i < self.keys.len()
            invariant
                s == self@.keys,
                0 <= i <= s.len(),
                total == weight_prefix(s, i as int),
                total <= u32::MAX,
            decreases s.len() - i,
        {
            if self.keys[i].healthy {
                total = total + self.keys[i].weight as u64;
            }
            if total > u32::MAX as u64 {
                proof {
                    lemma_weight_prefix_monotone(s, i + 1, s.len() as int);
                }
                return false;
            }
            i = i + 1;
        }
        true
    }

    /// Hands out the next key in weighted round-robin order.
    ///
    /// With `total` the sum of the healthy keys' weights, the call serves
    /// slot `cursor % total` of the rotation: the first key whose cumulative
    /// weight passes the slot. That key's request count goes up by one and the
    /// cursor moves to `(cursor + 1) % total`. With no healthy weight at all
    /// the pool answers `NoKeysAvailable` and is left as it was.
    pub fn acquire_key(&mut self) -> (r: Result<AcquiredKey, AppError>)
        requires
            old(self).wf(),
            total_weight(old(self)@.keys) <= u32::MAX,
        ensures
            final(self).wf(),
            r is Err <==> total_weight(old(self)@.keys) == 0,
            r is Err ==> r == Err::<AcquiredKey, AppError>(AppError::NoKeysAvailable) && final(self)@
                == old(self)@,
            r is Ok ==> ({
                let s = old(self)@.keys;
                let p = acquired_position(s, old(self)@.cursor);
                &&& 0 <= p < s.len()
                &&& r->Ok_0.key@ == s[p].key
                &&& final(self)@.keys == after_acquire(s, old(self)@.cursor)
                &&& final(self)@.cursor == (old(self)@.cursor + 1) % total_weight(s)
                &&& final(self)@.next_id == old(self)@.next_id
            }),
    {
        let ghost s = self@.keys;
        let n = self.keys.len();
        let mut total: u32 = 0;
        let mut i: usize = 0;
        while i < n
            invariant
                s == self@.keys,
                n == s.len(),
                0 <= i <= n,
                total == weight_prefix(s, i as int),
                total_weight(s) <= u32::MAX,
            decreases n - i,
        {
            proof {
                lemma_weight_prefix_monotone(s, i + 1, n as int);
            }
            if self.keys[i].healthy {
                total = total + self.keys[i].weight;
            }
            i = i + 1;
        }
        if total == 0 {
            return Err(AppError::NoKeysAvailable);
        }
        let ghost cursor = self.round_robin_index as nat;
        let index: usize = self.round_robin_index % (total as usize);
        self.round_robin_index = (self.round_robin_index + 1) % (total as usize);
        let mut acc: u32 = 0;
        let mut i: usize = 0;
        while i < n
            invariant
                s == self.keys@.map_values(|k: PooledKey| k.entry()),
                s == old(self)@.keys,
                cursor == old(self)@.cursor,
                self.next_id == old(self).next_id,
                ids_fresh(s, old(self)@.next_id),
                total > 0,
                n == s.len(),
                0 <= i <= n,
                total == total_weight(s),
                index == cursor % (total as nat),
                self.round_robin_index == (cursor + 1) % (total as nat),
                acc == weight_prefix(s, i as int),
                acc <= index,
                selected_position(s, index as nat) == select_from(s, index as nat, i as int),
            decreases n - i,
        {
            proof {
                lemma_weight_prefix_monotone(s, i + 1, n as int);
            }
            if self.keys[i].healthy {
                acc = acc + self.keys[i].weight;
                if acc as usize > index {
                    let c = self.keys[i].request_count;
                    self.keys[i].request_count = if c == u32::MAX {
                        0
                    } else {
                        c + 1
                    };
                    proof {
                        assert(self@.keys =~= after_acquire(s, cursor));
                        lemma_update_keeps_ids(
                            s,
                            i as int,
                            KeyEntry { request_count: wrapping_incr(s[i as int].request_count), ..s[i as int] },
                            old(self)@.next_id,
                        );
                    }
                    return Ok(AcquiredKey { key: self.keys[i].key.clone() });
                }
            }
            i = i + 1;
        }
        // The cumulative weight reaches `total`, which is above `index`, so the
        // loop above always returns.
        proof {
            assert(false);
        }
        Err(AppError::NoKeysAvailable)
    }

    fn find(&self, key: &String) -> (r: Option<usize>)
        ensures
            match r {
                Some(p) => p as int == key_position(self@.keys, key@) && p < self@.keys.len(),
                None => key_position(self@.keys, key@) == -1,
            },
    {
        let ghost s = self@.keys;
        let mut i: usize = 0;
        while i < self.keys.len()
            invariant
                s == self@.keys,
                0 <= i <= s.len(),
                key_position(s, key@) == position_from(s, key@, i as int),
            decreases s.len() - i,
        {
            if self.keys[i].key == *key {
                return Some(i);
            }
            i = i + 1;
        }
        None
    }

    /// A request made with `acquired` went through: the first key of that
    /// name has its run of consecutive errors reset.
    pub fn report_success(&mut self, acquired: &AcquiredKey)
        requires
            old(self).wf(),
        ensures
            final(self).wf(),
            final(self)@.cursor == old(self)@.cursor,
            final(self)@.next_id == old(self)@.next_id,
            final(self)@.keys == after_success(old(self)@.keys, acquired.key@),
    {
        let ghost s = self@.keys;
        if let Some(p) = self.find(&acquired.key) {
            self.keys[p].consecutive_errors = 0;
            proof {
                assert(self@.keys =~= s.update(p as int, KeyEntry { consecutive_errors: 0, ..s[p as int] }));
                lemma_update_keeps_ids(s, p as int, KeyEntry { consecutive_errors: 0, ..s[p as int] }, self@.next_id);
            }
        }
    }

    /// A request made with `acquired` failed: the first key of that name
    /// counts one more consecutive error (wrapping at `u32::MAX`), and once it
    /// has three or more it leaves the rotation. When this call takes it out
    /// of rotation, the result is that entry's identity, with which the
    /// caller brings it back through `recover_key` after the cooldown.
    pub fn report_failure(&mut self, acquired: &AcquiredKey) -> (cooldown: Option<u64>)
        requires
            old(self).wf(),
        ensures
            final(self).wf(),
            final(self)@.cursor == old(self)@.cursor,
            final(self)@.next_id == old(self)@.next_id,
            final(self)@.keys == after_failure(old(self)@.keys, acquired.key@),
            cooldown == cooldown_ticket(old(self)@.keys, acquired.key@),
    {
        let ghost s = self@.keys;
        if let Some(p) = self.find(&acquired.key) {
            let c = self.keys[p].consecutive_errors;
            let errors = if c == u32::MAX {
                0
            } else {
                c + 1
            };
            self.keys[p].consecutive_errors = errors;
            let cooldown = errors >= 3;
            if cooldown {
                self.keys[p].healthy = false;
            }
            proof {
                assert(self@.keys =~= s.update(p as int, failed_entry(s[p as int])));
                lemma_update_keeps_ids(s, p as int, failed_entry(s[p as int]), self@.next_id);
            }
            if cooldown {
                Some(self.keys[p].id)
            } else {
                None
            }
        } else {
            None
        }
    }

    fn find_id(&self, id: u64) -> (r: Option<usize>)
        ensures
            match r {
                Some(p) => p as int == id_position(self@.keys, id) && p < self@.keys.len(),
                None => id_position(self@.keys, id) == -1,
            },
    {
        let ghost s = self@.keys;
        let mut i: usize = 0;
        while i < self.keys.len()
            invariant
                s == self@.keys,
                0 <= i <= s.len(),
                id_position(s, id) == id_position_from(s, id, i as int),
            decreases s.len() - i,
        {
            proof {
                assert(s[i as int] == self.keys@[i as int].entry());
            }
            if self.keys[i].id == id {
                return Some(i);
            }
            i = i + 1;
        }
        None
    }

    /// The cooldown of the entry with identity `ticket` is over: that entry,
    /// if it is still in the pool, is healthy again with no errors. An entry
    /// added since, even under the same name, is left alone.
    pub fn recover_key(&mut self, ticket: u64)
        requires
            old(self).wf(),
        ensures
            final(self).wf(),
            final(self)@.cursor == old(self)@.cursor,
            final(self)@.next_id == old(self)@.next_id,
            final(self)@.keys == after_recovery(old(self)@.keys, ticket),
    {
        let ghost s = self@.keys;
        if let Some(p) = self.find_id(ticket) {
            self.keys[p].healthy = true;
            self.keys[p].consecutive_errors = 0;
            proof {
                let e = KeyEntry { healthy: true, consecutive_errors: 0, ..s[p as int] };
                assert(self@.keys =~= s.update(p as int, e));
                lemma_update_keeps_ids(s, p as int, e, self@.next_id);
            }
        }
    }

    /// Adds a key with identity `next_id`, or, when a key of that name is
    /// already in the pool, gives the first one the new weight and puts it
    /// back in rotation with no errors.
    pub fn add_key(&mut self, key: String, weight: u32)
        requires
            old(self).wf(),
            key_position(old(self)@.keys, key@) != -1 || old(self)@.next_id < u64::MAX,
        ensures
            final(self).wf(),
            final(self)@.cursor == old(self)@.cursor,
            final(self)@.keys == after_add(old(self)@.keys, key@, weight, old(self)@.next_id as u64),
            final(self)@.next_id == if key_position(old(self)@.keys, key@) == -1 {
                old(self)@.next_id + 1
            } else {
                old(self)@.next_id
            },
    {
        let ghost s = self@.keys;
        match self.find(&key) {
            Some(p) => {
                self.keys[p].weight = weight;
                self.keys[p].healthy = true;
                self.keys[p].consecutive_errors = 0;
                proof {
                    let e = KeyEntry { weight, healthy: true, consecutive_errors: 0, ..s[p as int] };
                    assert(self@.keys =~= s.update(p as int, e));
                    lemma_update_keeps_ids(s, p as int, e, self@.next_id);
                }
            },
            None => {
                let ghost k = key@;
                let id = self.next_id;
                self.keys.push(
                    PooledKey {
                        key,
                        weight,
                        healthy: true,
                        consecutive_errors: 0,
                        request_count: 0,
                        id,
                    },
                );
                self.next_id = id + 1;
                proof {
                    let t = self@.keys;
                    assert(t =~= s.push(fresh_entry(k, weight, id)));
                    assert forall|i: int| 0 <= i < t.len() implies #[trigger] t[i].id < self@.next_id by {
                        if i < s.len() {
                            assert(t[i] == s[i]);
                        }
                    }
                    assert forall|i: int, j: int|
                        0 <= i < t.len() && 0 <= j < t.len() && i != j implies #[trigger] t[i].id
                            != #[trigger] t[j].id by {
                        if i < s.len() {
                            assert(t[i] == s[i]);
                        }
                        if j < s.len() {
                            assert(t[j] == s[j]);
                        }
                    }
                }
            },
        }
    }

    /// Removes every key of that name.
    pub fn remove_key(&mut self, key: &str)
        requires
            old(self).wf(),
        ensures
            final(self).wf(),
            final(self)@.cursor == old(self)@.cursor,
            final(self)@.next_id == old(self)@.next_id,
            final(self)@.keys == without_key(old(self)@.keys, key@),
    {
        let ghost s = self@.keys;
        let ghost pred = |e: KeyEntry| e.key != key@;
        let k = String::from_str(key);
        let mut i: usize = 0;
        let ghost mut j: int = 0;
        proof {
            reveal(Seq::filter);
            assert(s.take(0) =~= Seq::<KeyEntry>::empty());
            assert(self@.keys =~= s.take(0).filter(pred) + s.skip(0));
        }
        while i < self.keys.len()
            invariant
                0 <= j <= s.len(),
                k@ == key@,
                pred == (|e: KeyEntry| e.key != key@),
                self@.cursor == old(self)@.cursor,
                self@.next_id == old(self)@.next_id,
                s == old(self)@.keys,
                self@.keys == s.take(j).filter(pred) + s.skip(j),
                i == s.take(j).filter(pred).len(),
            decreases self@.keys.len() - i,
        {
            let ghost before = self@.keys;
            proof {
                assert(s.take(j + 1) =~= s.take(j).push(s[j]));
                s.take(j).lemma_filter_push(s[j], pred);
                assert(before[i as int] == s[j]);
            }
            if self.keys[i].key == k {
                self.keys.remove(i);
                proof {
                    assert(self@.keys =~= before.remove(i as int));
                    assert(self@.keys =~= s.take(j).filter(pred) + s.skip(j + 1));
                    assert(self@.keys =~= s.take(j + 1).filter(pred) + s.skip(j + 1));
                }
            } else {
                i = i + 1;
                proof {
                    assert(self@.keys =~= s.take(j + 1).filter(pred) + s.skip(j + 1));
                }
            }
            proof {
                j = j + 1;
            }
        }
        proof {
            assert(j == s.len());
            assert(s.take(j) =~= s);
            assert(self@.keys =~= without_key(s, key@));
            lemma_filter_keeps_ids(s, pred, self@.next_id);
        }
    }

    /// Number of keys in the pool, healthy or not.
    pub fn key_count(&self) -> (r: usize)
        ensures
            r == self@.keys.len(),
    {
        self.keys.len()
    }

    /// Number of keys currently in rotation.
    pub fn healthy_key_count(&self) -> (r: usize)
        ensures
            r == healthy_keys(self@.keys).len(),
    {
        let ghost s = self@.keys;
        let ghost pred = |e: KeyEntry| e.healthy;
        let mut count: usize = 0;
        let mut i: usize = 0;
        proof {
            reveal(Seq::filter);
            assert(s.take(0) =~= Seq::<KeyEntry>::empty());
        }
        while i < self.keys.len()
            invariant
                s == self@.keys,
                pred == (|e: KeyEntry| e.healthy),
                0 <= i <= s.len(),
                count == s.take(i as int).filter(pred).len(),
                count <= i,
            decreases s.len() - i,
        {
            proof {
                assert(s.take(i + 1) =~= s.take(i as int).push(s[i as int]));
                s.take(i as int).lemma_filter_push(s[i as int], pred);
            }
            if self.keys[i].healthy {
                count = count + 1;
            }
            i = i + 1;
        }
        proof {
            assert(s.take(i as int) =~= s);
        }
        count
    }

    /// Whether every key of the pool can be masked (see `mask_defined`), the
    /// condition under which `key_stats` may be called.
    pub fn all_keys_maskable(&self) -> (r: bool)
        ensures
            r == forall|i: int| 0 <= i < self@.keys.len() ==> mask_defined(#[trigger] self@.keys[i].key),
    {
        let mut i: usize = 0;
        while i < self.keys.len()
            invariant
                0 <= i <= self@.keys.len(),
                forall|j: int| 0 <= j < i ==> mask_defined(#[trigger] self@.keys[j].key),
            decreases self@.keys.len() - i,
        {
            proof {
                assert(self@.keys[i as int] == self.keys@[i as int].entry());
            }
            if !Config::mask_key_defined(self.keys[i].key.as_str()) {
                assert(!mask_defined(self@.keys[i as int].key));
                return false;
            }
            i = i + 1;
        }
        true
    }

    /// One line of statistics per key, in pool order, with the key masked.
    pub fn key_stats(&self) -> (r: Vec<KeyStats>)
        requires
            forall|i: int| 0 <= i < self@.keys.len() ==> mask_defined(#[trigger] self@.keys[i].key),
        ensures
            r@.len() == self@.keys.len(),
            forall|i: int|
                0 <= i < r@.len() ==> {
                    let e = #[trigger] self@.keys[i];
                    &&& r@[i].key@ == spec_mask_key(e.key)
                    &&& r@[i].actual_key@ == e.key
                    &&& r@[i].weight == e.weight
                    &&& r@[i].healthy == e.healthy
                    &&& r@[i].request_count == e.request_count
                    &&& r@[i].consecutive_errors == e.consecutive_errors
                },
    {
        let mut out: Vec<KeyStats> = Vec::new();
        let mut i: usize = 0;
        while i < self.keys.len()
            invariant
                0 <= i <= self@.keys.len(),
                out@.len() == i,
                forall|j: int| 0 <= j < self@.keys.len() ==> mask_defined(#[trigger] self@.keys[j].key),
                forall|j: int|
                    0 <= j < i ==> {
                        let e = #[trigger] self@.keys[j];
                        &&& out@[j].key@ == spec_mask_key(e.key)
                        &&& out@[j].actual_key@ == e.key
                        &&& out@[j].weight == e.weight
                        &&& out@[j].healthy == e.healthy
                        &&& out@[j].request_count == e.request_count
                        &&& out@[j].consecutive_errors == e.consecutive_errors
                    },
            decreases self@.keys.len() - i,
        {
            let k = &self.keys[i];
            proof {
                assert(self@.keys[i as int] == k.entry());
                assert(mask_defined(self@.keys[i as int].key));
            }
            out.push(
                KeyStats {
                    key: Config::mask_key(k.key.as_str()),
                    actual_key: k.key.clone(),
                    weight: k.weight,
                    healthy: k.healthy,
                    request_count: k.request_count,
                    consecutive_errors: k.consecutive_errors,
                },
            );
            i = i + 1;
        }
        out
    }
}

proof fn lemma_select_from(s: Seq<KeyEntry>, slot: nat, i: int)
    requires
        0 <= i <= s.len(),
        weight_prefix(s, i) <= slot < total_weight(s),
    ensures
        i <= select_from(s, slot, i) < s.len(),
        weight_prefix(s, select_from(s, slot, i)) <= slot < weight_prefix(
            s,
            select_from(s, slot, i) + 1,
        ),
    decreases s.len() - i,
{
    if i < s.len() && weight_prefix(s, i + 1) <= slot {
        lemma_select_from(s, slot, i + 1);
    }
}

/// Every slot of the rotation is served by a key in rotation with a positive
/// weight: the one whose cumulative weight range holds the slot.
pub proof fn law_served_key_is_in_rotation(s: Seq<KeyEntry>, slot: nat)
    requires
        slot < total_weight(s),
    ensures
        0 <= selected_position(s, slot) < s.len(),
        s[selected_position(s, slot)].healthy,
        s[selected_position(s, slot)].weight > 0,
        weight_prefix(s, selected_position(s, slot)) <= slot,
        slot < weight_prefix(s, selected_position(s, slot) + 1),
{
    lemma_select_from(s, slot, 0);
}

/// The slots of one full turn of the rotation (`0 .. total_weight`) that
/// the key at position `q` serves.
pub open spec fn rotation_slots_of(s: Seq<KeyEntry>, q: int) -> Set<int> {
    Set::new(|slot: int| 0 <= slot < total_weight(s) && selected_position(s, slot as nat) == q)
}

/// Over one full turn of the rotation (slots `0 .. total_weight`), each key
/// serves exactly as many slots as its effective weight: its weight while it
/// is healthy, none otherwise. The slots it serves are one contiguous range.
pub proof fn law_rotation_share(s: Seq<KeyEntry>, q: int)
    requires
        0 <= q < s.len(),
    ensures
        rotation_slots_of(s, q) == set_int_range(weight_prefix(s, q) as int, weight_prefix(s, q + 1) as int),
        rotation_slots_of(s, q).len() == effective_weight(s[q]),
{
    let served = rotation_slots_of(s, q);
    let range = set_int_range(weight_prefix(s, q) as int, weight_prefix(s, q + 1) as int);
    lemma_weight_prefix_monotone(s, q + 1, s.len() as int);
    assert forall|slot: int| served.contains(slot) <==> range.contains(slot) by {
        if 0 <= slot < total_weight(s) {
            law_served_key_is_in_rotation(s, slot as nat);
            let p = selected_position(s, slot as nat);
            if p < q {
                lemma_weight_prefix_monotone(s, p + 1, q);
            } else if p > q {
                lemma_weight_prefix_monotone(s, q + 1, p);
            }
        }
        if range.contains(slot) {
            lemma_weight_prefix_monotone(s, 0, q);
        }
    }
    assert(served =~= range);
    lemma_int_range(weight_prefix(s, q) as int, weight_prefix(s, q + 1) as int);
}

proof fn lemma_position_from_update(s: Seq<KeyEntry>, p: int, e: KeyEntry, k: Seq<char>, i: int)
    requires
        0 <= p < s.len(),
        e.key == s[p].key,
        0 <= i,
    ensures
        position_from(s.update(p, e), k, i) == position_from(s, k, i),
    decreases s.len() - i,
{
    if i < s.len() {
        lemma_position_from_update(s, p, e, k, i + 1);
    }
}

/// Changing a key's counters or health does not move any key.
pub proof fn law_positions_stable(s: Seq<KeyEntry>, p: int, e: KeyEntry, k: Seq<char>)
    requires
        0 <= p < s.len(),
        e.key == s[p].key,
    ensures
        key_position(s.update(p, e), k) == key_position(s, k),
{
    lemma_position_from_update(s, p, e, k, 0);
}

proof fn lemma_position_from_found(s: Seq<KeyEntry>, k: Seq<char>, i: int)
    requires
        0 <= i,
    ensures
        position_from(s, k, i) == -1 || (i <= position_from(s, k, i) < s.len() && s[position_from(
            s,
            k,
            i,
        )].key == k),
        position_from(s, k, i) == -1 ==> forall|j: int| i <= j < s.len() ==> s[j].key != k,
    decreases s.len() - i,
{
    if i < s.len() {
        lemma_position_from_found(s, k, i + 1);
    }
}

proof fn lemma_position_from_first(s: Seq<KeyEntry>, k: Seq<char>, i: int, m: int)
    requires
        0 <= i <= m < s.len(),
        forall|j: int| i <= j < m ==> s[j].key != k,
        s[m].key == k,
    ensures
        position_from(s, k, i) == m,
    decreases m - i,
{
    if i < m {
        lemma_position_from_first(s, k, i + 1, m);
    }
}

/// `key_position` finds a key exactly when the pool holds it.
pub proof fn law_key_position(s: Seq<KeyEntry>, k: Seq<char>)
    ensures
        key_position(s, k) == -1 <==> forall|j: int| 0 <= j < s.len() ==> s[j].key != k,
        key_position(s, k) != -1 ==> 0 <= key_position(s, k) < s.len() && s[key_position(
            s,
            k,
        )].key == k,
{
    lemma_position_from_found(s, k, 0);
}

/// A key in rotation with no errors stays in rotation through two failures in
/// a row and leaves it at the third, which is the one that starts the
/// cooldown and hands out that entry's identity; recovering with it puts the
/// key back in rotation.
pub proof fn law_three_failures_take_key_out(s: Seq<KeyEntry>, k: Seq<char>)
    requires
        key_position(s, k) != -1,
        s[key_position(s, k)].healthy,
        s[key_position(s, k)].consecutive_errors == 0,
        ids_distinct(s),
    ensures
        ({
            let p = key_position(s, k);
            let s1 = after_failure(s, k);
            let s2 = after_failure(s1, k);
            let s3 = after_failure(s2, k);
            &&& cooldown_ticket(s, k) is None && s1[p].healthy
            &&& cooldown_ticket(s1, k) is None && s2[p].healthy
            &&& cooldown_ticket(s2, k) == Some(s[p].id) && !s3[p].healthy
            &&& s3[p].consecutive_errors == failure_threshold()
            &&& key_position(s3, k) == p
            &&& after_recovery(s3, s[p].id)[p].healthy
            &&& after_recovery(s3, s[p].id)[p].consecutive_errors == 0
        }),
{
    let p = key_position(s, k);
    law_key_position(s, k);
    let s1 = after_failure(s, k);
    law_positions_stable(s, p, failed_entry(s[p]), k);
    let s2 = after_failure(s1, k);
    law_positions_stable(s1, p, failed_entry(s1[p]), k);
    let s3 = after_failure(s2, k);
    law_positions_stable(s2, p, failed_entry(s2[p]), k);
    assert(s3[p].id == s[p].id);
    assert forall|j: int| 0 <= j < p implies s3[j].id != s[p].id by {
        assert(s3[j] == s[j]);
    }
    lemma_id_position_first(s3, s[p].id, 0, p);
}

/// A success clears the run of errors, so failures only count while they
/// come one after the other.
pub proof fn law_success_resets_errors(s: Seq<KeyEntry>, k: Seq<char>)
    requires
        key_position(s, k) != -1,
    ensures
        key_position(after_success(s, k), k) == key_position(s, k),
        after_success(s, k)[key_position(s, k)].consecutive_errors == 0,
        after_success(s, k)[key_position(s, k)].healthy == s[key_position(s, k)].healthy,
{
    law_key_position(s, k);
    let p = key_position(s, k);
    law_positions_stable(s, p, KeyEntry { consecutive_errors: 0, ..s[p] }, k);
}

proof fn lemma_id_position_from_found(s: Seq<KeyEntry>, id: u64, i: int)
    requires
        0 <= i,
    ensures
        id_position_from(s, id, i) == -1 || (i <= id_position_from(s, id, i) < s.len()
            && s[id_position_from(s, id, i)].id == id),
    decreases s.len() - i,
{
    if i < s.len() {
        lemma_id_position_from_found(s, id, i + 1);
    }
}

proof fn lemma_id_position_first(s: Seq<KeyEntry>, id: u64, i: int, m: int)
    requires
        0 <= i <= m < s.len(),
        forall|j: int| i <= j < m ==> s[j].id != id,
        s[m].id == id,
    ensures
        id_position_from(s, id, i) == m,
    decreases m - i,
{
    if i < m {
        lemma_id_position_first(s, id, i + 1, m);
    }
}

/// After its cooldown an entry still in the pool is back in rotation with
/// its full weight and no errors; nothing else changes.
pub proof fn law_recovery_restores_key(s: Seq<KeyEntry>, id: u64)
    requires
        id_position(s, id) != -1,
    ensures
        ({
            let p = id_position(s, id);
            let t = after_recovery(s, id);
            &&& 0 <= p < s.len() && s[p].id == id
            &&& t.len() == s.len()
            &&& t[p].healthy && t[p].consecutive_errors == 0
            &&& effective_weight(t[p]) == s[p].weight
            &&& t[p].key == s[p].key
            &&& forall|j: int| 0 <= j < s.len() && j != p ==> t[j] == s[j]
        }),
{
    lemma_id_position_from_found(s, id, 0);
}

/// A recovery whose cooldown was started before a key was removed and added
/// again does not touch the new entry: the new entry has an identity of its
/// own, which no earlier cooldown holds.
pub proof fn law_stale_recovery_spares_new_entry(
    s: Seq<KeyEntry>,
    k: Seq<char>,
    w: u32,
    next_id: u64,
    ticket: u64,
)
    requires
        ids_fresh(s, next_id as nat),
        ticket < next_id,
    ensures
        ({
            let t = after_add(without_key(s, k), k, w, next_id);
            let q = key_position(t, k);
            &&& q == t.len() - 1
            &&& t[q] == fresh_entry(k, w, next_id)
            &&& after_recovery(t, ticket)[q] == t[q]
        }),
{
    let r = without_key(s, k);
    law_removed_key_is_absent(s, k);
    law_key_position(r, k);
    let t = r.push(fresh_entry(k, w, next_id));
    assert(after_add(r, k, w, next_id) == t);
    assert forall|j: int| 0 <= j < r.len() implies t[j].key != k by {
        assert(t[j] == r[j]);
    }
    lemma_position_from_first(t, k, 0, r.len() as int);
    lemma_id_position_from_found(t, ticket, 0);
}

/// After `add_key` the pool holds the key, in rotation, with the given weight
/// and no errors; a new key gets identity `id`, and the pool only grows when
/// the key was new.
pub proof fn law_added_key_is_present(s: Seq<KeyEntry>, k: Seq<char>, w: u32, id: u64)
    ensures
        key_position(after_add(s, k, w, id), k) != -1,
        ({
            let e = after_add(s, k, w, id)[key_position(after_add(s, k, w, id), k)];
            e.key == k && e.weight == w && e.healthy && e.consecutive_errors == 0
        }),
        key_position(s, k) == -1 ==> after_add(s, k, w, id)[key_position(after_add(s, k, w, id), k)]
            == fresh_entry(k, w, id),
        after_add(s, k, w, id).len() == if key_position(s, k) == -1 {
            s.len() + 1
        } else {
            s.len() + 0
        },
{
    law_key_position(s, k);
    let p = key_position(s, k);
    if p == -1 {
        let t = s.push(fresh_entry(k, w, id));
        assert forall|j: int| 0 <= j < s.len() implies t[j].key != k by {
            assert(t[j] == s[j]);
        }
        lemma_position_from_first(t, k, 0, s.len() as int);
    } else {
        law_positions_stable(
            s,
            p,
            KeyEntry { weight: w, healthy: true, consecutive_errors: 0, ..s[p] },
            k,
        );
    }
}

/// After `remove_key` no key of that name is left, and every other key is
/// still there.
pub proof fn law_removed_key_is_absent(s: Seq<KeyEntry>, k: Seq<char>)
    ensures
        key_position(without_key(s, k), k) == -1,
        forall|j: int|
            0 <= j < s.len() && s[j].key != k ==> without_key(s, k).contains(#[trigger] s[j]),
{
    let pred = |e: KeyEntry| e.key != k;
    let t = without_key(s, k);
    assert forall|j: int| 0 <= j < t.len() implies t[j].key != k by {
        s.lemma_filter_pred(pred, j);
    }
    law_key_position(t, k);
    assert forall|j: int| 0 <= j < s.len() && s[j].key != k implies t.contains(#[trigger] s[j]) by {
        s.lemma_filter_contains(pred, j);
    }
}

/// The key `k` stands at exactly one position of the pool.
pub open spec fn occurs_once(s: Seq<KeyEntry>, k: Seq<char>) -> bool {
    let p = key_position(s, k);
    &&& p != -1
    &&& forall|j: int| 0 <= j < s.len() && (#[trigger] s[j]).key == k ==> j == p
}

/// Adding a key to a pool whose keys all have different names keeps them
/// different, and the added key is then in the pool exactly once.
pub proof fn law_add_keeps_keys_distinct(s: Seq<KeyEntry>, k: Seq<char>, w: u32, id: u64)
    requires
        keys_distinct(s),
    ensures
        keys_distinct(after_add(s, k, w, id)),
        occurs_once(after_add(s, k, w, id), k),
{
    law_key_position(s, k);
    law_added_key_is_present(s, k, w, id);
    let t = after_add(s, k, w, id);
    let p = key_position(s, k);
    if p == -1 {
        assert forall|i: int, j: int|
            0 <= i < t.len() && 0 <= j < t.len() && i != j implies #[trigger] t[i].key
                != #[trigger] t[j].key by {
            if i < s.len() {
                assert(t[i] == s[i]);
            }
            if j < s.len() {
                assert(t[j] == s[j]);
            }
        }
    } else {
        assert forall|i: int| 0 <= i < t.len() implies #[trigger] t[i].key == s[i].key by {}
        assert forall|i: int, j: int|
            0 <= i < t.len() && 0 <= j < t.len() && i != j implies #[trigger] t[i].key
                != #[trigger] t[j].key by {
            assert(t[i].key == s[i].key);
            assert(t[j].key == s[j].key);
        }
    }
    law_key_position(t, k);
    let q = key_position(t, k);
    assert forall|j: int| 0 <= j < t.len() && (#[trigger] t[j]).key == k implies j == q by {
        if j != q {
            assert(t[j].key != t[q].key);
        }
    }
}

proof fn lemma_filter_keeps_all(s: Seq<KeyEntry>, pred: spec_fn(KeyEntry) -> bool)
    requires
        forall|i: int| 0 <= i < s.len() ==> pred(#[trigger] s[i]),
    ensures
        s.filter(pred) == s,
    decreases s.len(),
{
    reveal(Seq::filter);
    if s.len() > 0 {
        let d = s.drop_last();
        assert forall|i: int| 0 <= i < d.len() implies pred(#[trigger] d[i]) by {
            assert(d[i] == s[i]);
        }
        lemma_filter_keeps_all(d, pred);
        assert(pred(s[s.len() - 1]));
        assert(d.push(s.last()) =~= s);
    }
}

/// Adding a key the pool does not hold and then removing it gives the
/// pool's keys back exactly as they were, so the key statistics and the
/// key count are as before.
pub proof fn law_add_then_remove(s: Seq<KeyEntry>, k: Seq<char>, w: u32, id: u64)
    requires
        key_position(s, k) == -1,
    ensures
        without_key(after_add(s, k, w, id), k) == s,
{
    law_key_position(s, k);
    let pred = |e: KeyEntry| e.key != k;
    let t = s.push(fresh_entry(k, w, id));
    assert(after_add(s, k, w, id) == t);
    reveal(Seq::filter);
    assert(t.drop_last() =~= s);
    assert(t.filter(pred) == s.filter(pred));
    assert forall|i: int| 0 <= i < s.len() implies pred(#[trigger] s[i]) by {}
    lemma_filter_keeps_all(s, pred);
}

/// The pool never has more keys in rotation than keys.
pub proof fn law_healthy_count_bounded(s: Seq<KeyEntry>)
    ensures
        healthy_keys(s).len() <= s.len(),
{
    s.lemma_filter_len(|e: KeyEntry| e.healthy);
}

/// The positions served by `n` acquisitions in a row from cursor `cursor`,
/// with nothing else happening to the pool in between.
pub open spec fn served_positions(s: Seq<KeyEntry>, cursor: nat, n: nat) -> Seq<int>
    decreases n,
{
    if n == 0 || total_weight(s) == 0 {
        Seq::empty()
    } else {
        seq![acquired_position(s, cursor)] + served_positions(
            after_acquire(s, cursor),
            (cursor + 1) % total_weight(s),
            (n - 1) as nat,
        )
    }
}

proof fn lemma_select_from_same_weights(s: Seq<KeyEntry>, t: Seq<KeyEntry>, slot: nat, i: int)
    requires
        s.len() == t.len(),
        0 <= i,
        forall|n: int| 0 <= n <= s.len() ==> #[trigger] weight_prefix(s, n) == weight_prefix(t, n),
    ensures
        select_from(s, slot, i) == select_from(t, slot, i),
    decreases s.len() - i,
{
    if i < s.len() {
        assert(weight_prefix(s, i + 1) == weight_prefix(t, i + 1));
        lemma_select_from_same_weights(s, t, slot, i + 1);
    }
}

proof fn lemma_acquire_keeps_weights(s: Seq<KeyEntry>, cursor: nat)
    requires
        total_weight(s) > 0,
    ensures
        after_acquire(s, cursor).len() == s.len(),
        total_weight(after_acquire(s, cursor)) == total_weight(s),
        forall|slot: nat| #[trigger]
            selected_position(after_acquire(s, cursor), slot) == selected_position(s, slot),
{
    let p = acquired_position(s, cursor);
    let total = total_weight(s);
    lemma_mod_bound(cursor as int, total as int);
    law_served_key_is_in_rotation(s, cursor % total);
    let e = KeyEntry { request_count: wrapping_incr(s[p].request_count), ..s[p] };
    let t = after_acquire(s, cursor);
    assert forall|n: int| 0 <= n <= s.len() implies #[trigger] weight_prefix(s, n) == weight_prefix(t, n) by {
        law_rotation_ignores_counters(s, p, e, n);
    }
    assert(weight_prefix(s, s.len() as int) == weight_prefix(t, s.len() as int));
    assert forall|slot: nat| #[trigger] selected_position(t, slot) == selected_position(s, slot) by {
        lemma_select_from_same_weights(s, t, slot, 0);
    }
}

proof fn lemma_mod_bound(c: int, t: int)
    requires
        c >= 0,
        t > 0,
    ensures
        0 <= c % t < t,
{
    lemma_mod_pos_bound(c, t);
}

proof fn lemma_turn_slot(c: int, k: int, t: int)
    requires
        c >= 0,
        t > 0,
        0 <= k < t,
    ensures
        (c + k) % t == if c % t + k < t {
            c % t + k
        } else {
            c % t + k - t
        },
{
    lemma_fundamental_div_mod(c, t);
    lemma_mod_bound(c, t);
    let q = c / t;
    let r = c % t;
    if r + k < t {
        assert(c + k == t * q + (r + k));
        lemma_mod_multiples_vanish(q, r + k, t);
        lemma_small_mod((r + k) as nat, t as nat);
    } else {
        assert(t * (q + 1) == t * q + t) by (nonlinear_arith);
        assert(c + k == t * (q + 1) + (r + k - t));
        lemma_mod_multiples_vanish(q + 1, r + k - t, t);
        lemma_small_mod((r + k - t) as nat, t as nat);
    }
}

/// Acquisitions in a row serve the rotation's slots one after the other:
/// the `k`-th serves slot `(cursor + k) % total_weight`.
pub proof fn law_consecutive_acquisitions(s: Seq<KeyEntry>, cursor: nat, n: nat)
    requires
        total_weight(s) > 0,
    ensures
        served_positions(s, cursor, n).len() == n,
        forall|k: int|
            0 <= k < n ==> #[trigger] served_positions(s, cursor, n)[k] == selected_position(
                s,
                (cursor + k) as nat % total_weight(s),
            ),
    decreases n,
{
    if n > 0 {
        let total = total_weight(s);
        let t = after_acquire(s, cursor);
        let c2 = (cursor + 1) % total;
        lemma_acquire_keeps_weights(s, cursor);
        law_consecutive_acquisitions(t, c2, (n - 1) as nat);
        let run = served_positions(s, cursor, n);
        let rest = served_positions(t, c2, (n - 1) as nat);
        assert(run == seq![acquired_position(s, cursor)] + rest);
        assert forall|k: int| 0 <= k < n implies #[trigger] run[k] == selected_position(
            s,
            (cursor + k) as nat % total,
        ) by {
            if k > 0 {
                assert(run[k] == rest[k - 1]);
                lemma_add_mod_noop((cursor + 1) as int, k - 1, total as int);
                lemma_mod_twice((cursor + 1) as int, total as int);
                lemma_add_mod_noop(c2 as int, k - 1, total as int);
                assert((c2 + (k - 1)) % (total as int) == (cursor + k) % (total as int));
            }
        }
    }
}

/// Which of `n` acquisitions in a row from cursor `cursor` (numbered
/// `0 .. n`) are served by the key at position `q`.
pub open spec fn acquisitions_serving(s: Seq<KeyEntry>, cursor: nat, n: nat, q: int) -> Set<int> {
    Set::new(|k: int| 0 <= k < n && served_positions(s, cursor, n)[k] == q)
}

/// Which of `n` acquisitions in a row from cursor `cursor` (numbered
/// `0 .. n`) hand out the key `key`.
pub open spec fn acquisitions_of_key(s: Seq<KeyEntry>, cursor: nat, n: nat, key: Seq<char>) -> Set<int> {
    Set::new(|k: int| 0 <= k < n && s[served_positions(s, cursor, n)[k]].key == key)
}

/// No two keys of the pool have the same name.
pub open spec fn keys_distinct(s: Seq<KeyEntry>) -> bool {
    forall|i: int, j: int|
        0 <= i < s.len() && 0 <= j < s.len() && i != j ==> #[trigger] s[i].key != #[trigger] s[j].key
}

/// Weighted round-robin is fair: over as many acquisitions in a row as the
/// pool's total weight, from any cursor, each key is served exactly its
/// effective weight times (its weight while healthy, never otherwise).
/// Where no two keys share a name, this counts the acquisitions that hand
/// out that key's name.
pub proof fn law_turn_serves_each_key_by_weight(s: Seq<KeyEntry>, cursor: nat, q: int)
    requires
        total_weight(s) > 0,
        0 <= q < s.len(),
    ensures
        acquisitions_serving(s, cursor, total_weight(s), q).len() == effective_weight(s[q]),
        keys_distinct(s) ==> acquisitions_of_key(s, cursor, total_weight(s), s[q].key)
            == acquisitions_serving(s, cursor, total_weight(s), q),
        keys_distinct(s) ==> acquisitions_of_key(s, cursor, total_weight(s), s[q].key).len()
            == effective_weight(s[q]),
{
    let total = total_weight(s);
    let run = served_positions(s, cursor, total);
    law_consecutive_acquisitions(s, cursor, total);
    let ks = acquisitions_serving(s, cursor, total, q);
    let slots = rotation_slots_of(s, q);
    if keys_distinct(s) {
        let named = acquisitions_of_key(s, cursor, total, s[q].key);
        assert forall|k: int| named.contains(k) <==> ks.contains(k) by {
            if 0 <= k < total {
                lemma_mod_bound((cursor + k) as int, total as int);
                law_served_key_is_in_rotation(s, (cursor + k) as nat % total);
                assert(run[k] == selected_position(s, (cursor + k) as nat % total));
            }
        }
        assert(named =~= ks);
    }
    law_rotation_share(s, q);
    let f = |k: int| (cursor + k) % (total as int);
    let r = cursor % total;
    lemma_mod_bound(cursor as int, total as int);
    assert forall|k: int| 0 <= k < total implies #[trigger] f(k) == if r + k < total {
        r + k
    } else {
        r + k - total
    } by {
        lemma_turn_slot(cursor as int, k, total as int);
    }
    assert forall|x: int| #[trigger] ks.map(f).contains(x) <==> slots.contains(x) by {
        if ks.map(f).contains(x) {
            let k = choose|k: int| ks.contains(k) && f(k) == x;
            assert(run[k] == selected_position(s, (cursor + k) as nat % total));
        }
        if slots.contains(x) {
            let k = if x >= r {
                x - r
            } else {
                x - r + total
            };
            assert(f(k) == x);
            assert(run[k] == selected_position(s, (cursor + k) as nat % total));
            assert(ks.contains(k));
        }
    }
    assert(ks.map(f) =~= slots);
    lemma_int_range(0, total as int);
    assert(ks.subset_of(set_int_range(0, total as int)));
    lemma_set_subset_finite(set_int_range(0, total as int), ks);
    assert forall|k1: int, k2: int| ks.contains(k1) && ks.contains(k2) && #[trigger] f(k1) == #[trigger] f(k2) implies k1 == k2 by {}
    assert(injective_on(f, ks));
    lemma_map_size(ks, slots, f);
}

} // verus!
