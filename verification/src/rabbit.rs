//! Bookkeeping of HTTP over a message broker: requests to a solver are
//! published on a request queue, each carrying a correlation id, and the
//! solver's responses come back on a response queue, where the correlation
//! id tells which waiting request each one answers.

use vstd::prelude::*;
use std::collections::HashMap;
use rand::Rng;
use crate::decimal::{decimal, decimal_string, parse_u64, parse_decimal_u64, push_decimal, lemma_parse_decimal};

verus! {

broadcast use vstd::std_specs::hash::group_hash_axioms;

/// The queue that the broker is reached at when nothing else is given.
pub open spec fn default_request_queue() -> Seq<char> {
    "work"@
}

/// The name of the request queue used by default.
pub fn default_request_queue_name() -> (r: String)
    ensures
        r@ == default_request_queue(),
{
    String::from_str("work")
}

/// The name of the queue on which responses to this wrapper arrive, made
/// from a random number: `solver_` and the number in decimal.
pub fn response_queue_name(id: u64) -> (r: String)
    ensures
        r@ == "solver_"@ + decimal(id as nat),
{
    let mut s = String::from_str("solver_");
    push_decimal(&mut s, id as u128);
    s
}

/// A draw of a random 64-bit number.
///
/// Calls `rand::thread_rng().gen::<u64>()`. Nothing is claimed of the
/// number: it comes from the thread-local random number generator.
#[verifier::external_body]
fn random_u64() -> u64 {
    rand::thread_rng().gen()
}

/// The name of a fresh queue for responses: `solver_` and a random number
/// in decimal.
pub fn random_response_queue_name() -> (r: String)
    ensures
        exists|id: u64| r@ == "solver_"@ + decimal(id as nat),
{
    response_queue_name(random_u64())
}

/// The correlation id that a request with the given id carries: the id in
/// decimal.
pub fn correlation_id(id: u64) -> (r: String)
    ensures
        r@ == decimal(id as nat),
{
    decimal_string(id as u128)
}

/// The largest number of milliseconds of a `Duration`: `u64::MAX` seconds
/// and 999_999_999 nanoseconds.
pub open spec fn max_timeout_millis() -> nat {
    (u64::MAX as nat) * 1000 + 999
}

/// How long a request may wait for its response, in milliseconds, given
/// the timeout of the request as seconds and nanoseconds, if it has one;
/// without one it may wait for the longest `Duration`.
pub fn timeout_millis(timeout: Option<(u64, u32)>) -> (r: u128)
    requires
        timeout matches Some((_, nanos)) ==> nanos < 1_000_000_000,
    ensures
        r == match timeout {
            Some((secs, nanos)) => (secs as nat) * 1000 + (nanos as nat) / 1_000_000,
            None => max_timeout_millis(),
        },
{
    let (secs, nanos): (u64, u32) = match timeout {
        Some(t) => t,
        None => (u64::MAX, 999_999_999),
    };
    (secs as u128) * 1000 + (nanos / 1_000_000) as u128
}

/// The expiration that a request is published with: its timeout in
/// milliseconds, in decimal.
pub fn expiration(timeout_millis: u128) -> (r: String)
    ensures
        r@ == decimal(timeout_millis as nat),
{
    decimal_string(timeout_millis)
}

/// The id handed out `k` calls after the counter stood at `start`:
/// `start + k`, wrapping at `u64::MAX`.
pub open spec fn id_after(start: u64, k: nat) -> u64 {
    ((start as nat + k) % 0x1_0000_0000_0000_0000) as u64
}

/// One call of [`RequestIds::next_id`] after `k` calls stands where `k + 1`
/// calls stand.
pub proof fn lemma_id_after_step(start: u64, k: nat)
    ensures
        id_after(start, k + 1) == (if id_after(start, k) == u64::MAX {
            0
        } else {
            id_after(start, k) + 1
        }),
{
}

/// The ids handed out by fewer than 2^64 consecutive calls of
/// [`RequestIds::next_id`] are pairwise distinct.
pub proof fn lemma_ids_distinct(start: u64, i: nat, j: nat)
    requires
        i < j < 0x1_0000_0000_0000_0000,
    ensures
        id_after(start, i) != id_after(start, j),
{
}

/// `k` consecutive calls of [`RequestIds::next_id`], starting from the
/// counter standing at `ids[0]`, hand out `ids[0], ..., ids[k - 1]` and
/// leave the counter at `ids[k]` (each call returns the counter it found
/// and leaves it one further). Then the ids are `n, n + 1, ..., n + k - 1`
/// and the counter ends at `n + k`, wrapping at `u64::MAX`; and if there
/// are at most 2^64 calls, no two of them get the same id.
pub proof fn lemma_consecutive_ids(ids: Seq<u64>, k: nat)
    requires
        ids.len() == k + 1,
        forall|i: int| 0 <= i < k ==> #[trigger] ids[i + 1] == id_after(ids[i], 1),
    ensures
        forall|i: int| 0 <= i <= k ==> #[trigger] ids[i] == id_after(ids[0], i as nat),
        k <= 0x1_0000_0000_0000_0000 ==> forall|i: int, j: int|
            0 <= i < j < k ==> #[trigger] ids[i] != #[trigger] ids[j],
    decreases k,
{
    if k > 0 {
        lemma_consecutive_ids(ids.drop_last(), (k - 1) as nat);
        assert forall|i: int| 0 <= i <= k implies #[trigger] ids[i] == id_after(ids[0], i as nat) by {
            if i < k {
                assert(ids.drop_last()[i] == ids[i]);
            } else {
                assert(ids.drop_last()[k - 1] == ids[k - 1]);
                assert(ids[k as int] == id_after(ids[k - 1], 1));
                lemma_id_after_step(ids[0], (k - 1) as nat);
            }
        }
    } else {
        assert(ids[0] == id_after(ids[0], 0));
    }
    if k <= 0x1_0000_0000_0000_0000 {
        assert forall|i: int, j: int| 0 <= i < j < k implies #[trigger] ids[i] != #[trigger] ids[j] by {
            assert(ids[i] == id_after(ids[0], i as nat));
            assert(ids[j] == id_after(ids[0], j as nat));
            lemma_ids_distinct(ids[0], i as nat, j as nat);
        }
    }
}

/// The counter that hands out the ids of requests.
#[derive(Debug)]
pub struct RequestIds {
    next: u64,
}

impl RequestIds {
    /// The id that the next request gets.
    pub closed spec fn next(self) -> u64 {
        self.next
    }

    /// A counter that starts at zero.
    pub fn new() -> (r: RequestIds)
        ensures
            r.next() == 0,
    {
        RequestIds { next: 0 }
    }

    /// Hands out the next id; after `u64::MAX` the ids start again at zero.
    pub fn next_id(&mut self) -> (r: u64)
        ensures
            r == old(self).next(),
            final(self).next() == id_after(old(self).next(), 1),
    {
        let id = self.next;
        self.next = id.wrapping_add(1);
        id
    }
}

/// The requests that wait for their response: for each request id, what
/// the response is handed to.
#[derive(Debug)]
pub struct Callbacks<T> {
    pending: HashMap<u64, T>,
}

impl<T> Callbacks<T> {
    /// The waiting requests, by id.
    pub closed spec fn view(self) -> Map<u64, T> {
        self.pending@
    }

    /// No request waits.
    pub fn new() -> (r: Callbacks<T>)
        ensures
            r.view() == Map::<u64, T>::empty(),
    {
        Callbacks { pending: HashMap::new() }
    }

    /// The request with the given id waits for its response, to be handed
    /// to `sender`.
    pub fn register(&mut self, id: u64, sender: T)
        ensures
            final(self).view() == old(self).view().insert(id, sender),
    {
        self.pending.insert(id, sender);
    }

    /// The request with the given id stops waiting; what its response
    /// would have been handed to is returned, if it was waiting.
    pub fn take(&mut self, id: u64) -> (r: Option<T>)
        ensures
            final(self).view() == old(self).view().remove(id),
            r == (if old(self).view().contains_key(id) {
                Some(old(self).view()[id])
            } else {
                None
            }),
    {
        self.pending.remove(&id)
    }

    /// The number of waiting requests.
    pub fn len(&self) -> (r: usize)
        ensures
            r == self.view().len(),
    {
        self.pending.len()
    }
}

/// What becomes of a response that arrives on the response queue.
#[derive(Debug)]
pub enum Routed<T> {
    /// The response carries no correlation id; it is dropped.
    MissingCorrelationId,
    /// The correlation id is no number; the response is dropped.
    InvalidCorrelationId,
    /// The response answers the waiting request with this id; it is handed
    /// to what that request waits on.
    Deliver(u64, T),
    /// The request with this id no longer waits (it timed out); the
    /// response is dropped.
    NoWaiter(u64),
}

/// What becomes of a response with the given correlation id while the
/// given requests wait.
pub open spec fn routed<T>(pending: Map<u64, T>, correlation_id: Option<Seq<char>>) -> Routed<T> {
    match correlation_id {
        None => Routed::MissingCorrelationId,
        Some(text) => match parse_u64(text) {
            None => Routed::InvalidCorrelationId,
            Some(id) => if pending.contains_key(id) {
                Routed::Deliver(id, pending[id])
            } else {
                Routed::NoWaiter(id)
            },
        },
    }
}

/// The requests that still wait after a response with the given
/// correlation id has arrived.
pub open spec fn still_pending<T>(pending: Map<u64, T>, correlation_id: Option<Seq<char>>) -> Map<
    u64,
    T,
> {
    match correlation_id {
        None => pending,
        Some(text) => match parse_u64(text) {
            None => pending,
            Some(id) => pending.remove(id),
        },
    }
}

/// The view of an optional string.
pub open spec fn opt_view(s: Option<&str>) -> Option<Seq<char>> {
    match s {
        Some(t) => Some(t@),
        None => None,
    }
}

/// Decides what becomes of a response that arrived with the given
/// correlation id, and stops the request it answers from waiting.
pub fn route_response<T>(callbacks: &mut Callbacks<T>, correlation_id: Option<&str>) -> (r: Routed<T>)
    ensures
        r == routed(old(callbacks).view(), opt_view(correlation_id)),
        final(callbacks).view() == still_pending(old(callbacks).view(), opt_view(correlation_id)),
{
    match correlation_id {
        None => Routed::MissingCorrelationId,
        Some(text) => match parse_decimal_u64(text) {
            None => Routed::InvalidCorrelationId,
            Some(id) => match callbacks.take(id) {
                Some(sender) => Routed::Deliver(id, sender),
                None => Routed::NoWaiter(id),
            },
        },
    }
}

/// An HTTP request as it is published to a solver over the broker.
#[derive(Clone, Debug, PartialEq, Eq)]
pub struct Request {
    pub body: Vec<u8>,
    pub url: String,
    pub headers: Vec<(String, Vec<String>)>,
    pub method: String,
}

impl Request {
    /// The request to publish for an HTTP request with the given body (if
    /// it has one), URL, method and headers (each header's name with its
    /// value if that value is visible ASCII). The headers are grouped by
    /// name; values that are not visible ASCII are left out.
    pub fn from_parts(
        body: Option<Vec<u8>>,
        url: String,
        method: String,
        headers: &Vec<(String, Option<String>)>,
    ) -> (r: Request)
        ensures
            r.body@ == match body {
                Some(b) => b@,
                None => Seq::<u8>::empty(),
            },
            r.url@ == url@,
            r.method@ == method@,
            is_grouping(r.headers@, headers@),
    {
        let body = match body {
            Some(b) => b,
            None => Vec::new(),
        };
        Request { body, url, method, headers: group_headers(headers) }
    }
}

/// The values that `pairs` give for the header `key`, in their order;
/// values that are not visible ASCII (`None`) are left out.
pub open spec fn header_values(pairs: Seq<(String, Option<String>)>, key: Seq<char>) -> Seq<Seq<char>>
    decreases pairs.len(),
{
    if pairs.len() == 0 {
        seq![]
    } else {
        let rest = header_values(pairs.drop_last(), key);
        let (k, v) = pairs.last();
        if k@ == key {
            match v {
                Some(value) => rest.push(value@),
                None => rest,
            }
        } else {
            rest
        }
    }
}

/// Whether `pairs` name the header `key`.
pub open spec fn names_header(pairs: Seq<(String, Option<String>)>, key: Seq<char>) -> bool {
    exists|i: int| 0 <= i < pairs.len() && (#[trigger] pairs[i]).0@ == key
}

/// Whether `groups` hold the header `key`.
pub open spec fn holds_header(groups: Seq<(String, Vec<String>)>, key: Seq<char>) -> bool {
    exists|i: int| 0 <= i < groups.len() && (#[trigger] groups[i]).0@ == key
}

/// The views of some strings.
pub open spec fn views(strings: Seq<String>) -> Seq<Seq<char>> {
    strings.map_values(|s: String| s@)
}

/// `groups` are the headers of `pairs` grouped by name: each name once,
/// with all its values in order.
pub open spec fn is_grouping(groups: Seq<(String, Vec<String>)>, pairs: Seq<(String, Option<String>)>) -> bool {
    &&& forall|i: int, j: int|
        0 <= i < groups.len() && 0 <= j < groups.len() && i != j ==> (#[trigger] groups[i]).0@
            != (#[trigger] groups[j]).0@
    &&& forall|key: Seq<char>| #[trigger] holds_header(groups, key) <==> names_header(pairs, key)
    &&& forall|i: int|
        0 <= i < groups.len() ==> views((#[trigger] groups[i]).1@) == header_values(pairs, groups[i].0@)
}

/// Groups the headers of an HTTP request by name, given each header's name
/// and its value if that value is visible ASCII.
pub fn group_headers(pairs: &Vec<(String, Option<String>)>) -> (r: Vec<(String, Vec<String>)>)
    ensures
        is_grouping(r@, pairs@),
{
    let mut groups: Vec<(String, Vec<String>)> = Vec::new();
    let mut k: usize = 0;
    while k < pairs.len()
        invariant
            0 <= k <= pairs@.len(),
            is_grouping(groups@, pairs@.take(k as int)),
        decreases pairs@.len() - k,
    {
        let ghost prev = pairs@.take(k as int);
        let ghost next = pairs@.take(k + 1);
        let ghost old_groups = groups@;
        let (key, value) = &pairs[k];
        proof {
            assert(next.drop_last() =~= prev);
            assert(next.last() == pairs@[k as int]);
        }
        let mut idx: usize = 0;
        let mut found = false;
        while idx < groups.len()
            invariant_except_break
                0 <= idx <= groups@.len(),
                !found,
                forall|j: int| 0 <= j < idx ==> (#[trigger] groups@[j]).0@ != key@,
            ensures
                0 <= idx <= groups@.len(),
                found ==> idx < groups@.len() && groups@[idx as int].0@ == key@,
                !found ==> forall|j: int| 0 <= j < groups@.len() ==> (#[trigger] groups@[j]).0@ != key@,
            decreases groups@.len() - idx,
        {
            if groups[idx].0 == *key {
                found = true;
                break;
            }
            idx = idx + 1;
        }
        if found {
            let (name, mut values) = groups.remove(idx);
            let ghost old_values = values@;
            match value {
                Some(v) => values.push(v.clone()),
                None => {},
            }
            proof {
                assert(views(values@) == header_values(next, name@)) by {
                    assert(views(old_values) == header_values(prev, name@));
                    match value {
                        Some(v) => {
                            assert(views(values@) =~= views(old_values).push(v@));
                        },
                        None => {
                            assert(values@ == old_values);
                        },
                    }
                }
            }
            groups.insert(idx, (name, values));
            proof {
                assert(groups@ =~= old_groups.update(idx as int, (name, values)));
            }
        } else {
            let mut values: Vec<String> = Vec::new();
            match value {
                Some(v) => values.push(v.clone()),
                None => {},
            }
            proof {
                assert(!names_header(prev, key@)) by {
                    assert(holds_header(old_groups, key@) == names_header(prev, key@));
                    if holds_header(old_groups, key@) {
                        let i = choose|i: int| 0 <= i < old_groups.len() && (#[trigger] old_groups[i]).0@ == key@;
                        assert(false);
                    }
                }
                lemma_header_values_absent(prev, key@);
                match value {
                    Some(v) => {
                        assert(views(values@) =~= seq![v@]);
                    },
                    None => {
                        assert(views(values@) =~= Seq::<Seq<char>>::empty());
                    },
                }
            }
            groups.push((key.clone(), values));
        }
        proof {
            assert forall|i: int|
                0 <= i < groups@.len() implies views((#[trigger] groups@[i]).1@) == header_values(
                next,
                groups@[i].0@,
            ) by {
                if groups@[i].0@ != key@ {
                    assert(groups@[i] == old_groups[i]);
                }
            }
            assert forall|i: int, j: int|
                0 <= i < groups@.len() && 0 <= j < groups@.len() && i != j implies (#[trigger] groups@[i]).0@
                    != (#[trigger] groups@[j]).0@ by {
                if i < old_groups.len() && i != idx {
                    assert(groups@[i] == old_groups[i]);
                }
                if j < old_groups.len() && j != idx {
                    assert(groups@[j] == old_groups[j]);
                }
            }
            assert forall|name: Seq<char>| #[trigger] holds_header(groups@, name) <==> names_header(next, name) by {
                assert(holds_header(old_groups, name) == names_header(prev, name));
                if holds_header(groups@, name) {
                    let i = choose|i: int| 0 <= i < groups@.len() && (#[trigger] groups@[i]).0@ == name;
                    if name != key@ {
                        assert(groups@[i] == old_groups[i]);
                        let m = choose|m: int| 0 <= m < prev.len() && (#[trigger] prev[m]).0@ == name;
                        assert(next[m] == prev[m]);
                    } else {
                        assert(next[k as int].0@ == name);
                    }
                }
                if names_header(next, name) {
                    let m = choose|m: int| 0 <= m < next.len() && (#[trigger] next[m]).0@ == name;
                    if m < k {
                        assert(prev[m] == next[m]);
                        let i = choose|i: int| 0 <= i < old_groups.len() && (#[trigger] old_groups[i]).0@ == name;
                        if found {
                            assert(groups@[i].0@ == name);
                        } else {
                            assert(groups@[i] == old_groups[i]);
                        }
                    } else {
                        if found {
                            assert(groups@[idx as int].0@ == name);
                        } else {
                            assert(groups@[old_groups.len() as int].0@ == name);
                        }
                    }
                }
            }
        }
        k = k + 1;
    }
    proof {
        assert(pairs@.take(pairs@.len() as int) =~= pairs@);
    }
    groups
}

/// A header that `pairs` do not name has no values.
proof fn lemma_header_values_absent(pairs: Seq<(String, Option<String>)>, key: Seq<char>)
    requires
        !names_header(pairs, key),
    ensures
        header_values(pairs, key) == Seq::<Seq<char>>::empty(),
    decreases pairs.len(),
{
    if pairs.len() > 0 {
        let rest = pairs.drop_last();
        if names_header(rest, key) {
            let i = choose|i: int| 0 <= i < rest.len() && (#[trigger] rest[i]).0@ == key;
            assert(pairs[i] == rest[i]);
        }
        assert(pairs[pairs.len() - 1] == pairs.last());
        lemma_header_values_absent(rest, key);
    }
}

/// A response that carries the correlation id of a waiting request is
/// handed to what that request waits on, and that request stops waiting.
pub proof fn lemma_response_reaches_request<T>(pending: Map<u64, T>, id: u64, sender: T)
    ensures
        routed(pending.insert(id, sender), Some(decimal(id as nat))) == Routed::Deliver(id, sender),
        still_pending(pending.insert(id, sender), Some(decimal(id as nat))) == pending.insert(
            id,
            sender,
        ).remove(id),
{
    lemma_parse_decimal(id);
}

/// Once a request has timed out and stopped waiting, a late response to it
/// is dropped.
pub proof fn lemma_late_response_dropped<T>(pending: Map<u64, T>, id: u64)
    ensures
        routed(pending.remove(id), Some(decimal(id as nat))) == Routed::<T>::NoWaiter(id),
{
    lemma_parse_decimal(id);
}

} // verus!
