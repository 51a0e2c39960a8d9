use vstd::prelude::*;
use vstd::string::*;
use vstd::utf8::encode_utf8;

use crate::error::{error_text, RedisError};
use crate::resp::{all_digits, digits_value, is_digit, lemma_digits_prefix, views, RespType, RespValue};

verus! {

pub open spec fn ascii_lower(b: u8) -> u8 {
    if 65u8 <= b <= 90u8 {
        (b + 32) as u8
    } else {
        b
    }
}

/// Equality of byte strings with ASCII letters compared without case.
pub open spec fn eq_ignore_case(a: Seq<u8>, b: Seq<u8>) -> bool {
    a.len() == b.len() && forall|i: int| 0 <= i < a.len() ==> ascii_lower(#[trigger] a[i])
        == ascii_lower(b[i])
}

fn lower(b: u8) -> (r: u8)
    ensures
        r == ascii_lower(b),
{
    if 65u8 <= b && b <= 90u8 {
        b + 32
    } else {
        b
    }
}

pub fn eq_ignore_ascii_case(a: &[u8], b: &[u8]) -> (r: bool)
    ensures
        r == eq_ignore_case(a@, b@),
{
    if a.len() != b.len() {
        return false;
    }
    let mut k: usize = 0;
    while k < a.len()
        invariant
            k <= a@.len() == b@.len(),
            forall|i: int| 0 <= i < k ==> ascii_lower(#[trigger] a@[i]) == ascii_lower(b@[i]),
        decreases a@.len() - k,
    {
        if lower(a[k]) != lower(b[k]) {
            return false;
        }
        k = k + 1;
    }
    true
}

pub open spec fn name_ping() -> Seq<u8> {
    seq![80u8, 73u8, 78u8, 71u8]
}

pub open spec fn name_echo() -> Seq<u8> {
    seq![69u8, 67u8, 72u8, 79u8]
}

pub open spec fn name_info() -> Seq<u8> {
    seq![73u8, 78u8, 70u8, 79u8]
}

pub open spec fn name_set() -> Seq<u8> {
    seq![83u8, 69u8, 84u8]
}

pub open spec fn name_get() -> Seq<u8> {
    seq![71u8, 69u8, 84u8]
}

/// The commands that a connection may name.
#[derive(Debug, Clone, Copy, PartialEq, Eq, Structural)]
pub enum RedisCommandType {
    Ping,
    Echo,
    Info,
    SetKey,
    Get,
}

/// The command that a name selects, compared without case.
pub open spec fn command_of(name: Seq<u8>) -> Option<RedisCommandType> {
    if eq_ignore_case(name, name_ping()) {
        Some(RedisCommandType::Ping)
    } else if eq_ignore_case(name, name_echo()) {
        Some(RedisCommandType::Echo)
    } else if eq_ignore_case(name, name_info()) {
        Some(RedisCommandType::Info)
    } else if eq_ignore_case(name, name_set()) {
        Some(RedisCommandType::SetKey)
    } else if eq_ignore_case(name, name_get()) {
        Some(RedisCommandType::Get)
    } else {
        None
    }
}

impl RedisCommandType {
    /// The command named by `name`, whatever the case of its letters.
    pub fn from(name: &[u8]) -> (r: Option<RedisCommandType>)
        ensures
            r == command_of(name@),
    {
        let ping: [u8; 4] = [80u8, 73u8, 78u8, 71u8];
        let echo: [u8; 4] = [69u8, 67u8, 72u8, 79u8];
        let info: [u8; 4] = [73u8, 78u8, 70u8, 79u8];
        let set: [u8; 3] = [83u8, 69u8, 84u8];
        let get: [u8; 3] = [71u8, 69u8, 84u8];
        assert(ping@ =~= name_ping());
        assert(echo@ =~= name_echo());
        assert(info@ =~= name_info());
        assert(set@ =~= name_set());
        assert(get@ =~= name_get());
        if eq_ignore_ascii_case(name, ping.as_slice()) {
            Some(RedisCommandType::Ping)
        } else if eq_ignore_ascii_case(name, echo.as_slice()) {
            Some(RedisCommandType::Echo)
        } else if eq_ignore_ascii_case(name, info.as_slice()) {
            Some(RedisCommandType::Info)
        } else if eq_ignore_ascii_case(name, set.as_slice()) {
            Some(RedisCommandType::SetKey)
        } else if eq_ignore_ascii_case(name, get.as_slice()) {
            Some(RedisCommandType::Get)
        } else {
            None
        }
    }
}

/// What splitting a request into its name and arguments gives: defined for
/// an array whose first element is a bulk string.
pub open spec fn command_parts(v: RespValue) -> Option<(Seq<u8>, Seq<RespValue>)> {
    match v {
        RespValue::Array(xs) => if xs.len() > 0 && xs[0] is Bulk {
            Some((xs[0]->Bulk_0, xs.drop_first()))
        } else {
            None
        },
        _ => None,
    }
}

/// Splits a request into the command name and its arguments.
pub fn extract_command(resp: RespType) -> (r: Result<(Vec<u8>, Vec<RespType>), RedisError>)
    ensures
        match r {
            Ok((name, args)) => command_parts(resp@) == Some((name@, views(args@))),
            Err(e) => command_parts(resp@) is None && e == RedisError::MalformedCommand,
        },
{
    match resp {
        RespType::Arrays(mut args) => {
            proof {
                crate::resp::lemma_array_view(args);
            }
            if args.len() == 0 {
                return Err(RedisError::MalformedCommand);
            }
            let ghost before = args@;
            let first = args.remove(0);
            assert(views(args@) =~= views(before).drop_first());
            match first {
                RespType::BulkStrings(name) => Ok((name, args)),
                _ => Err(RedisError::MalformedCommand),
            }
        },
        _ => Err(RedisError::MalformedCommand),
    }
}

/// What parsing a request gives: its command and arguments, or why it is
/// not a command.
pub open spec fn command_request(v: RespValue) -> Result<(RedisCommandType, Seq<RespValue>), RedisError> {
    match command_parts(v) {
        None => Err(RedisError::MalformedCommand),
        Some((name, args)) => match command_of(name) {
            Some(c) => Ok((c, args)),
            None => Err(RedisError::UnknownCommand),
        },
    }
}

/// Reads a decoded request as a command and its arguments.
pub fn parse_command(resp: RespType) -> (r: Result<(RedisCommandType, Vec<RespType>), RedisError>)
    ensures
        match r {
            Ok((c, args)) => command_request(resp@) == Ok::<_, RedisError>((c, views(args@))),
            Err(e) => command_request(resp@) == Err::<(RedisCommandType, Seq<RespValue>), _>(e),
        },
{
    match extract_command(resp) {
        Ok((name, args)) => match RedisCommandType::from(name.as_slice()) {
            Some(c) => Ok((c, args)),
            None => Err(RedisError::UnknownCommand),
        },
        Err(e) => Err(e),
    }
}

/// A stored value and the time, in milliseconds, at which it expires.
pub struct StoreEntry {
    pub key: RespType,
    pub value: RespType,
    pub expiry: Option<u64>,
}

/// The model of the store: each key's value and expiry.
pub type StoreMap = Map<RespValue, (RespValue, Option<u64>)>;

pub open spec fn has_key(s: Seq<StoreEntry>, k: RespValue) -> bool {
    exists|i: int| 0 <= i < s.len() && #[trigger] s[i].key@ == k
}

pub open spec fn keys_unique(s: Seq<StoreEntry>) -> bool {
    forall|i: int, j: int|
        0 <= i < s.len() && 0 <= j < s.len() && #[trigger] s[i].key@ == #[trigger] s[j].key@
            ==> i == j
}

pub open spec fn model_of(s: Seq<StoreEntry>) -> StoreMap {
    Map::new(
        |k: RespValue| has_key(s, k),
        |k: RespValue|
            {
                let i = choose|i: int| 0 <= i < s.len() && #[trigger] s[i].key@ == k;
                (s[i].value@, s[i].expiry)
            },
    )
}

proof fn lemma_model_at(s: Seq<StoreEntry>, i: int)
    requires
        keys_unique(s),
        0 <= i < s.len(),
    ensures
        model_of(s).contains_key(s[i].key@),
        model_of(s)[s[i].key@] == (s[i].value@, s[i].expiry),
{
    let k = s[i].key@;
    assert(has_key(s, k));
    let j = choose|j: int| 0 <= j < s.len() && #[trigger] s[j].key@ == k;
    assert(s[j].key@ == s[i].key@);
}

proof fn lemma_model_update(s: Seq<StoreEntry>, i: int, e: StoreEntry)
    requires
        keys_unique(s),
        0 <= i < s.len(),
        e.key@ == s[i].key@,
    ensures
        keys_unique(s.update(i, e)),
        model_of(s.update(i, e)) == model_of(s).insert(e.key@, (e.value@, e.expiry)),
{
    let t = s.update(i, e);
    assert forall|a: int, b: int|
        0 <= a < t.len() && 0 <= b < t.len() && #[trigger] t[a].key@ == #[trigger] t[b].key@
        implies a == b by {
        assert(s[a].key@ == t[a].key@ || a == i);
        assert(s[b].key@ == t[b].key@ || b == i);
    }
    lemma_model_at(t, i);
    assert forall|k: RespValue| #[trigger] has_key(t, k) == (has_key(s, k) || k == e.key@) by {
        if has_key(s, k) {
            let j = choose|j: int| 0 <= j < s.len() && #[trigger] s[j].key@ == k;
            if j == i {
                assert(t[i].key@ == k);
            } else {
                assert(t[j].key@ == k);
            }
        }
        if has_key(t, k) {
            let j = choose|j: int| 0 <= j < t.len() && #[trigger] t[j].key@ == k;
            if j != i {
                assert(s[j].key@ == k);
            }
        }
    }
    assert forall|k: RespValue| has_key(t, k) && k != e.key@ implies #[trigger] model_of(t)[k]
        == model_of(s)[k] by {
        let j = choose|j: int| 0 <= j < t.len() && #[trigger] t[j].key@ == k;
        assert(j != i);
        assert(s[j] == t[j]);
        lemma_model_at(t, j);
        lemma_model_at(s, j);
    }
    assert(model_of(t) =~= model_of(s).insert(e.key@, (e.value@, e.expiry)));
}

proof fn lemma_model_push(s: Seq<StoreEntry>, e: StoreEntry)
    requires
        keys_unique(s),
        !has_key(s, e.key@),
    ensures
        keys_unique(s.push(e)),
        model_of(s.push(e)) == model_of(s).insert(e.key@, (e.value@, e.expiry)),
{
    let t = s.push(e);
    let n = s.len() as int;
    assert forall|a: int, b: int|
        0 <= a < t.len() && 0 <= b < t.len() && #[trigger] t[a].key@ == #[trigger] t[b].key@
        implies a == b by {
        if a < n && b < n {
            assert(s[a].key@ == s[b].key@);
        } else if a < n {
            assert(s[a].key@ == e.key@);
        } else if b < n {
            assert(s[b].key@ == e.key@);
        }
    }
    lemma_model_at(t, n);
    assert forall|k: RespValue| #[trigger] has_key(t, k) == (has_key(s, k) || k == e.key@) by {
        if has_key(s, k) {
            let j = choose|j: int| 0 <= j < s.len() && #[trigger] s[j].key@ == k;
            assert(t[j].key@ == k);
        }
        if has_key(t, k) {
            let j = choose|j: int| 0 <= j < t.len() && #[trigger] t[j].key@ == k;
            if j != n {
                assert(s[j].key@ == k);
            }
        }
    }
    assert forall|k: RespValue| has_key(t, k) && k != e.key@ implies #[trigger] model_of(t)[k]
        == model_of(s)[k] by {
        let j = choose|j: int| 0 <= j < t.len() && #[trigger] t[j].key@ == k;
        assert(j != n);
        assert(s[j] == t[j]);
        lemma_model_at(t, j);
        lemma_model_at(s, j);
    }
    assert(model_of(t) =~= model_of(s).insert(e.key@, (e.value@, e.expiry)));
}

proof fn lemma_model_remove(s: Seq<StoreEntry>, i: int)
    requires
        keys_unique(s),
        0 <= i < s.len(),
    ensures
        keys_unique(s.remove(i)),
        model_of(s.remove(i)) == model_of(s).remove(s[i].key@),
{
    let t = s.remove(i);
    let key = s[i].key@;
    assert forall|a: int| 0 <= a < t.len() implies #[trigger] t[a] == s[if a < i {
        a
    } else {
        a + 1
    }] by {}
    assert forall|a: int, b: int|
        0 <= a < t.len() && 0 <= b < t.len() && #[trigger] t[a].key@ == #[trigger] t[b].key@
        implies a == b by {
        let a1 = if a < i { a } else { a + 1 };
        let b1 = if b < i { b } else { b + 1 };
        assert(s[a1].key@ == s[b1].key@);
    }
    assert forall|k: RespValue| #[trigger] has_key(t, k) == (has_key(s, k) && k != key) by {
        if has_key(s, k) && k != key {
            let j = choose|j: int| 0 <= j < s.len() && #[trigger] s[j].key@ == k;
            assert(j != i);
            let j1 = if j < i { j } else { j - 1 };
            assert(t[j1].key@ == k);
        }
        if has_key(t, k) {
            let j = choose|j: int| 0 <= j < t.len() && #[trigger] t[j].key@ == k;
            let j1 = if j < i { j } else { j + 1 };
            assert(s[j1].key@ == k);
            assert(j1 != i);
        }
    }
    assert forall|k: RespValue| has_key(t, k) implies #[trigger] model_of(t)[k] == model_of(s)[k] by {
        let j = choose|j: int| 0 <= j < t.len() && #[trigger] t[j].key@ == k;
        let j1 = if j < i { j } else { j + 1 };
        lemma_model_at(t, j);
        lemma_model_at(s, j1);
    }
    assert(model_of(t) =~= model_of(s).remove(key));
}

pub open spec fn name_ex() -> Seq<u8> {
    seq![69u8, 88u8]
}

pub open spec fn name_px() -> Seq<u8> {
    seq![80u8, 88u8]
}

/// Whether `v` is the option token `name`, compared without case.
pub open spec fn is_option(v: RespValue, name: Seq<u8>) -> bool {
    v is Bulk && eq_ignore_case(v->Bulk_0, name)
}

/// The number that a duration argument holds: a non-negative integer, or a
/// bulk string of decimal digits.
pub open spec fn duration_value(v: RespValue) -> Option<nat> {
    match v {
        RespValue::Int(n) => if n >= 0 {
            Some(n as nat)
        } else {
            None
        },
        RespValue::Bulk(b) => if b.len() > 0 && all_digits(b) {
            Some(digits_value(b))
        } else {
            None
        },
        _ => None,
    }
}

/// The time to live, in milliseconds, that the options of `SET` from
/// position `i` add to `acc`. The options are read in pairs: `EX n` adds `n`
/// seconds and `PX n` adds `n` milliseconds, so that several of them add up;
/// any other token is passed over, and so is an option with no value after
/// it. `None` where a duration is not a number.
pub open spec fn ttl_from(args: Seq<RespValue>, i: int, acc: nat) -> Option<nat>
    decreases args.len() - i,
{
    if i < 0 || i >= args.len() {
        Some(acc)
    } else if is_option(args[i], name_ex()) || is_option(args[i], name_px()) {
        if i + 1 >= args.len() {
            Some(acc)
        } else {
            match duration_value(args[i + 1]) {
                Some(d) => ttl_from(
                    args,
                    i + 2,
                    acc + if is_option(args[i], name_ex()) {
                        d * 1000
                    } else {
                        d
                    },
                ),
                None => None,
            }
        }
    } else {
        ttl_from(args, i + 1, acc)
    }
}

proof fn lemma_ttl_grows(args: Seq<RespValue>, i: int, acc: nat)
    ensures
        ttl_from(args, i, acc) matches Some(t) ==> t >= acc,
    decreases args.len() - i,
{
    if 0 <= i < args.len() {
        if is_option(args[i], name_ex()) || is_option(args[i], name_px()) {
            if i + 1 < args.len() {
                if let Some(d) = duration_value(args[i + 1]) {
                    lemma_ttl_grows(
                        args,
                        i + 2,
                        acc + if is_option(args[i], name_ex()) {
                            d * 1000
                        } else {
                            d
                        },
                    );
                }
            }
        } else {
            lemma_ttl_grows(args, i + 1, acc);
        }
    }
}

/// What `SET` with arguments `args` does to the store at time `now`: the key
/// `args[0]` then holds `args[1]`, expiring `now` plus the time to live
/// later, or never where that is zero.
pub open spec fn set_outcome(m: StoreMap, args: Seq<RespValue>, now: u64) -> Result<StoreMap, RedisError> {
    if args.len() < 2 {
        Err(RedisError::ArityError)
    } else {
        match ttl_from(args, 2, 0) {
            None => Err(RedisError::MalformedCommand),
            Some(t) => if now + t > u64::MAX {
                Err(RedisError::MalformedCommand)
            } else {
                Ok(
                    m.insert(
                        args[0],
                        (
                            args[1],
                            if t == 0 {
                                None
                            } else {
                                Some((now + t) as u64)
                            },
                        ),
                    ),
                )
            },
        }
    }
}

/// Whether an entry that expires at `expiry` has expired at `now`.
pub open spec fn expired(expiry: Option<u64>, now: u64) -> bool {
    expiry matches Some(t) && now >= t
}

/// What `GET` of key `k` at time `now` replies and leaves in the store: an
/// expired entry is removed and reads as null.
pub open spec fn get_outcome(m: StoreMap, k: RespValue, now: u64) -> (RespValue, StoreMap) {
    if !m.contains_key(k) {
        (RespValue::Null, m)
    } else if expired(m[k].1, now) {
        (RespValue::Null, m.remove(k))
    } else {
        (m[k].0, m)
    }
}

fn is_option_token(v: &RespType, name: &[u8]) -> (r: bool)
    ensures
        r == is_option(v@, name@),
{
    match v {
        RespType::BulkStrings(b) => eq_ignore_ascii_case(b.as_slice(), name),
        _ => false,
    }
}

/// The number held by a duration argument, where it fits in 64 bits.
fn duration_of(v: &RespType) -> (r: Option<u64>)
    ensures
        match r {
            Some(d) => duration_value(v@) == Some(d as nat),
            None => duration_value(v@) matches Some(d) ==> d > u64::MAX,
        },
{
    match v {
        RespType::Integers(n) => if *n >= 0 {
            Some(*n as u64)
        } else {
            None
        },
        RespType::BulkStrings(b) => {
            if b.len() == 0 {
                return None;
            }
            let mut acc: u64 = 0;
            let mut k: usize = 0;
            assert(b@.subrange(0, 0) =~= Seq::<u8>::empty());
            while k < b.len()
                invariant
                    k <= b@.len(),
                    b@.len() > 0,
                    v@ == RespValue::Bulk(b@),
                    acc as nat == digits_value(b@.subrange(0, k as int)),
                    all_digits(b@.subrange(0, k as int)),
                decreases b@.len() - k,
            {
                let c = b[k];
                if c < 48u8 || c > 57u8 {
                    assert(!is_digit(b@[k as int]));
                    return None;
                }
                let ghost next = b@.subrange(0, k + 1);
                assert(next.drop_last() =~= b@.subrange(0, k as int));
                assert(all_digits(next)) by {
                    assert forall|m: int| 0 <= m < next.len() implies is_digit(#[trigger] next[m]) by {
                        if m < k {
                            assert(next[m] == b@.subrange(0, k as int)[m]);
                        }
                    }
                }
                let digit = (c - 48u8) as u64;
                match acc.checked_mul(10) {
                    Some(t) => match t.checked_add(digit) {
                        Some(u) => {
                            acc = u;
                        },
                        None => {
                            proof {
                                if all_digits(b@) {
                                    lemma_digits_prefix(b@, k + 1);
                                }
                            }
                            return None;
                        },
                    },
                    None => {
                        proof {
                            if all_digits(b@) {
                                lemma_digits_prefix(b@, k + 1);
                            }
                        }
                        return None;
                    },
                }
                k = k + 1;
            }
            assert(b@.subrange(0, k as int) =~= b@);
            Some(acc)
        },
        _ => None,
    }
}

/// A request for the store.
pub enum RedisCommand {
    /// `SET` with its arguments: key, value, then options.
    SetKey(Vec<RespType>),
    /// `GET` of a key.
    Get(RespType),
}

/// The values that the store replies with.
pub struct RedisCommandResponse(pub Vec<RespType>);

/// A response that holds the one value `v`.
pub open spec fn single_reply(r: RedisCommandResponse, v: RespValue) -> bool {
    r.0@.len() == 1 && r.0@[0]@ == v
}

/// The acknowledgement of a `SET`.
pub open spec fn ok_reply() -> RespValue {
    RespValue::Simple(vstd::utf8::encode_utf8(seq!['O', 'K']))
}

/// The error value that answers a failed command.
pub open spec fn error_reply(e: RedisError) -> RespValue {
    RespValue::Error(vstd::utf8::encode_utf8(error_text(e)))
}

/// The key-value store: the one owner of the map.
pub struct Redis {
    entries: Vec<StoreEntry>,
}

impl Redis {
    /// Each key is stored once.
    pub closed spec fn wf(&self) -> bool {
        keys_unique(self.entries@)
    }

    pub closed spec fn view(&self) -> StoreMap {
        model_of(self.entries@)
    }

    /// An empty store.
    pub fn new() -> (r: Redis)
        ensures
            r.wf(),
            r@ == StoreMap::empty(),
    {
        let r = Redis { entries: Vec::new() };
        assert(r@ =~= StoreMap::empty());
        r
    }

    fn find(&self, key: &RespType) -> (r: Option<usize>)
        requires
            self.wf(),
        ensures
            match r {
                Some(i) => i < self.entries@.len() && self.entries@[i as int].key@ == key@,
                None => !has_key(self.entries@, key@),
            },
    {
        let mut i: usize = 0;
        while i < self.entries.len()
            invariant
                i <= self.entries@.len(),
                forall|j: int| 0 <= j < i ==> #[trigger] self.entries@[j].key@ != key@,
            decreases self.entries@.len() - i,
        {
            if self.entries[i].key.same_value(key) {
                return Some(i);
            }
            i = i + 1;
        }
        None
    }

    /// Whether `key` is in the store, expired or not.
    pub fn contains_key(&self, key: &RespType) -> (r: bool)
        requires
            self.wf(),
        ensures
            r == self@.contains_key(key@),
    {
        self.find(key).is_some()
    }

    fn insert(&mut self, entry: StoreEntry)
        requires
            old(self).wf(),
        ensures
            final(self).wf(),
            final(self)@ == old(self)@.insert(entry.key@, (entry.value@, entry.expiry)),
    {
        match self.find(&entry.key) {
            Some(i) => {
                proof {
                    lemma_model_update(self.entries@, i as int, entry);
                }
                self.entries.set(i, entry);
            },
            None => {
                proof {
                    lemma_model_push(self.entries@, entry);
                }
                self.entries.push(entry);
            },
        }
    }

    /// `SET key value [EX seconds | PX milliseconds]...` at time `now`, in
    /// milliseconds. Several options add up. The store is left as it was
    /// when the command fails.
    pub fn redis_set(&mut self, args: Vec<RespType>, now: u64) -> (r: Result<RedisCommandResponse, RedisError>)
        requires
            old(self).wf(),
        ensures
            final(self).wf(),
            match set_outcome(old(self)@, views(args@), now) {
                Ok(m) => {
                    &&& final(self)@ == m
                    &&& r matches Ok(resp)
                    &&& single_reply(resp, ok_reply())
                },
                Err(e) => final(self)@ == old(self)@ && r == Err::<RedisCommandResponse, _>(e),
            },
    {
        let ghost vs = views(args@);
        if args.len() < 2 {
            return Err(RedisError::ArityError);
        }
        let ex: [u8; 2] = [69u8, 88u8];
        let px: [u8; 2] = [80u8, 88u8];
        assert(ex@ =~= name_ex());
        assert(px@ =~= name_px());
        let mut i: usize = 2;
        let mut acc: u64 = 0;
        while i < args.len()
            invariant
                2 <= i <= args@.len(),
                self.wf(),
                self@ == old(self)@,
                vs == views(args@),
                ex@ == name_ex(),
                px@ == name_px(),
                ttl_from(vs, 2, 0) == ttl_from(vs, i as int, acc as nat),
            decreases args@.len() - i,
        {
            let is_ex = is_option_token(&args[i], ex.as_slice());
            if is_ex || is_option_token(&args[i], px.as_slice()) {
                if i + 1 >= args.len() {
                    i = args.len();
                } else {
                    proof {
                        lemma_ttl_grows(vs, i + 2, acc as nat);
                    }
                    let d = match duration_of(&args[i + 1]) {
                        Some(d) => d,
                        None => {
                            proof {
                                if let Some(d) = duration_value(vs[i + 1]) {
                                    lemma_ttl_grows(
                                        vs,
                                        i + 2,
                                        (acc + if is_ex {
                                            d * 1000
                                        } else {
                                            d
                                        }) as nat,
                                    );
                                }
                            }
                            return Err(RedisError::MalformedCommand);
                        },
                    };
                    let step = if is_ex {
                        match d.checked_mul(1000) {
                            Some(s) => s,
                            None => {
                                proof {
                                    lemma_ttl_grows(vs, i + 2, (acc + d * 1000) as nat);
                                }
                                return Err(RedisError::MalformedCommand);
                            },
                        }
                    } else {
                        d
                    };
                    match acc.checked_add(step) {
                        Some(a) => {
                            acc = a;
                        },
                        None => {
                            proof {
                                lemma_ttl_grows(vs, i + 2, (acc + step) as nat);
                            }
                            return Err(RedisError::MalformedCommand);
                        },
                    }
                    i = i + 2;
                }
            } else {
                i = i + 1;
            }
        }
        let expiry = if acc == 0 {
            None
        } else {
            match now.checked_add(acc) {
                Some(t) => Some(t),
                None => {
                    return Err(RedisError::MalformedCommand);
                },
            }
        };
        let mut args = args;
        let value = args.remove(1);
        let key = args.remove(0);
        assert(key@ == vs[0] && value@ == vs[1]);
        self.insert(StoreEntry { key, value, expiry });
        let mut reply: Vec<RespType> = Vec::new();
        reply.push(RespType::SimpleStrings(String::from_str("OK")));
        proof {
            reveal_strlit("OK");
            assert("OK"@ =~= seq!['O', 'K']);
            assert(views(reply@) =~= seq![ok_reply()]);
        }
        Ok(RedisCommandResponse(reply))
    }

    /// `GET key` at time `now`, in milliseconds. An expired entry is removed
    /// and reads as null; the expiry of a live one is left as it is.
    pub fn redis_get(&mut self, key: RespType, now: u64) -> (r: RedisCommandResponse)
        requires
            old(self).wf(),
        ensures
            final(self).wf(),
            single_reply(r, get_outcome(old(self)@, key@, now).0),
            final(self)@ == get_outcome(old(self)@, key@, now).1,
    {
        let mut reply: Vec<RespType> = Vec::new();
        match self.find(&key) {
            Some(i) => {
                proof {
                    lemma_model_at(self.entries@, i as int);
                }
                let expired_now = match self.entries[i].expiry {
                    Some(t) => now >= t,
                    None => false,
                };
                if expired_now {
                    proof {
                        lemma_model_remove(self.entries@, i as int);
                    }
                    self.entries.remove(i);
                    reply.push(RespType::Nulls);
                } else {
                    reply.push(self.entries[i].value.deep_copy());
                }
            },
            None => {
                reply.push(RespType::Nulls);
            },
        }
        assert(views(reply@) =~= seq![get_outcome(old(self)@, key@, now).0]);
        RedisCommandResponse(reply)
    }

    /// Serves one request at time `now`, in milliseconds, and gives the
    /// reply. A command that fails is answered with an error value and
    /// leaves the store unchanged.
    pub fn handle(&mut self, command: RedisCommand, now: u64) -> (r: RedisCommandResponse)
        requires
            old(self).wf(),
        ensures
            final(self).wf(),
            match command {
                RedisCommand::SetKey(args) => match set_outcome(old(self)@, views(args@), now) {
                    Ok(m) => final(self)@ == m && single_reply(r, ok_reply()),
                    Err(e) => {
                        &&& final(self)@ == old(self)@
                        &&& single_reply(r, error_reply(e))
                    },
                },
                RedisCommand::Get(key) => {
                    &&& single_reply(r, get_outcome(old(self)@, key@, now).0)
                    &&& final(self)@ == get_outcome(old(self)@, key@, now).1
                },
            },
    {
        match command {
            RedisCommand::SetKey(args) => match self.redis_set(args, now) {
                Ok(resp) => resp,
                Err(e) => {
                    let mut reply: Vec<RespType> = Vec::new();
                    reply.push(RespType::SimpleErrors(e.message()));
                    assert(views(reply@) =~= seq![error_reply(e)]);
                    RedisCommandResponse(reply)
                },
            },
            RedisCommand::Get(key) => self.redis_get(key, now),
        }
    }
}

/// Once a `GET` finds its key expired and removes it, every later `GET` of
/// that key reads null and changes nothing, however much time has passed.
pub proof fn lemma_expired_stays_gone(m: StoreMap, k: RespValue, t1: u64, t2: u64)
    requires
        m.contains_key(k),
        expired(m[k].1, t1),
    ensures
        get_outcome(m, k, t1).0 == RespValue::Null,
        !get_outcome(m, k, t1).1.contains_key(k),
        get_outcome(get_outcome(m, k, t1).1, k, t2) == (RespValue::Null, get_outcome(m, k, t1).1),
{
}

/// The store serves requests one at a time, so of two `SET`s of one key the
/// one served last decides what the key holds, whatever the first did.
pub proof fn lemma_last_set_wins(
    m: StoreMap,
    first: Seq<RespValue>,
    second: Seq<RespValue>,
    t1: u64,
    t2: u64,
)
    requires
        first.len() >= 2,
        second.len() >= 2,
        first[0] == second[0],
    ensures
        ({
            let m1 = match set_outcome(m, first, t1) {
                Ok(m1) => m1,
                Err(_) => m,
            };
            set_outcome(m1, second, t2) matches Ok(m2) ==> m2.contains_key(first[0]) && m2[first[0]].0
                == second[1]
        }),
{
}

/// What a connection does with a command: answer it at once, or hand it to
/// the store.
pub enum Reply {
    Immediate(RespType),
    Store(RedisCommand),
}

/// The role line that `INFO` replies with.
pub open spec fn role_text(replica: bool) -> Seq<char> {
    if replica {
        "role:slave"@
    } else {
        "role:master"@
    }
}

fn text_bytes(s: &str) -> (r: Vec<u8>)
    ensures
        r@ == encode_utf8(s@),
{
    let b = s.as_bytes();
    crate::resp::copy_range(b, 0, b.len())
}

/// Decides how a command with arguments `args` is served; `replica` tells
/// whether this server follows another one.
pub fn dispatch(kind: RedisCommandType, args: Vec<RespType>, replica: bool) -> (r: Result<Reply, RedisError>)
    ensures
        match kind {
            RedisCommandType::Ping => r matches Ok(Reply::Immediate(v)) && v@ == RespValue::Simple(
                encode_utf8("PONG"@),
            ),
            RedisCommandType::Echo => if args@.len() == 0 {
                r == Err::<Reply, _>(RedisError::ArityError)
            } else {
                r matches Ok(Reply::Immediate(v)) && v@ == args@[0]@
            },
            RedisCommandType::Info => if args@.len() == 0 {
                r == Err::<Reply, _>(RedisError::ArityError)
            } else {
                r matches Ok(Reply::Immediate(v)) && v@ == RespValue::Bulk(
                    encode_utf8(role_text(replica)),
                )
            },
            RedisCommandType::SetKey => r matches Ok(Reply::Store(RedisCommand::SetKey(a))) && views(
                a@,
            ) == views(args@),
            RedisCommandType::Get => if args@.len() == 0 {
                r == Err::<Reply, _>(RedisError::ArityError)
            } else {
                r matches Ok(Reply::Store(RedisCommand::Get(k))) && k@ == args@[0]@
            },
        },
{
    match kind {
        RedisCommandType::Ping => Ok(
            Reply::Immediate(RespType::SimpleStrings(String::from_str("PONG"))),
        ),
        RedisCommandType::SetKey => Ok(Reply::Store(RedisCommand::SetKey(args))),
        _ => {
            if args.len() == 0 {
                return Err(RedisError::ArityError);
            }
            let mut args = args;
            let first = args.remove(0);
            match kind {
                RedisCommandType::Echo => Ok(Reply::Immediate(first)),
                RedisCommandType::Get => Ok(Reply::Store(RedisCommand::Get(first))),
                _ => {
                    let role = if replica {
                        text_bytes("role:slave")
                    } else {
                        text_bytes("role:master")
                    };
                    Ok(Reply::Immediate(RespType::BulkStrings(role)))
                },
            }
        },
    }
}

} // verus!
