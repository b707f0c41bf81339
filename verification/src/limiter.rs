//! The limit on the number of requests that a client can make in a minute.

use vstd::hash_map::StringHashMap;
use vstd::prelude::*;

verus! {

/// The number of requests that were accepted from each client, by its address,
/// since the counts were last cleared.
pub struct RequestCounter {
    counts: StringHashMap<usize>,
}

impl View for RequestCounter {
    type V = Map<Seq<char>, usize>;

    closed spec fn view(&self) -> Map<Seq<char>, usize> {
        self.counts@
    }
}

/// The number of requests that were accepted from a client.
pub open spec fn count_of(counts: Map<Seq<char>, usize>, client_ip: Seq<char>) -> nat {
    if counts.contains_key(client_ip) {
        counts[client_ip] as nat
    } else {
        0
    }
}

/// Whether one more request of a client is accepted. A limit of zero is no
/// limit.
pub open spec fn accepted(
    counts: Map<Seq<char>, usize>,
    client_ip: Seq<char>,
    max_requests: usize,
) -> bool {
    max_requests == 0 || count_of(counts, client_ip) < max_requests
}

/// The counts after a request of a client. A refused request does not count,
/// and where there is no limit nothing is counted.
pub open spec fn counts_after(
    counts: Map<Seq<char>, usize>,
    client_ip: Seq<char>,
    max_requests: usize,
) -> Map<Seq<char>, usize> {
    if max_requests > 0 && accepted(counts, client_ip, max_requests) {
        counts.insert(client_ip, (count_of(counts, client_ip) + 1) as usize)
    } else {
        counts
    }
}

impl RequestCounter {
    /// No requests so far.
    pub fn new() -> (r: RequestCounter)
        ensures
            r@ == Map::<Seq<char>, usize>::empty(),
    {
        RequestCounter { counts: StringHashMap::new() }
    }

    /// Forgets all requests.
    pub fn clear(&mut self)
        ensures
            final(self)@ == Map::<Seq<char>, usize>::empty(),
    {
        self.counts.clear();
    }

    /// Counts one more request of a client, if it is to be accepted.
    pub fn count_request(&mut self, client_ip: &String, max_requests: usize) -> (r: bool)
        ensures
            r == accepted(old(self)@, client_ip@, max_requests),
            final(self)@ == counts_after(old(self)@, client_ip@, max_requests),
    {
        if max_requests == 0 {
            return true;
        }
        let request_times: usize = match self.counts.get(client_ip.as_str()) {
            Some(count) => *count,
            None => 0,
        };
        if request_times >= max_requests {
            false
        } else {
            self.counts.insert(client_ip.clone(), request_times + 1);
            true
        }
    }
}

/// The counts after the requests of these clients, in this order, since the
/// counts were cleared.
pub open spec fn counts_since_clear(
    clients: Seq<Seq<char>>,
    max_requests: usize,
) -> Map<Seq<char>, usize>
    decreases clients.len(),
{
    if clients.len() == 0 {
        Map::empty()
    } else {
        counts_after(
            counts_since_clear(clients.drop_last(), max_requests),
            clients.last(),
            max_requests,
        )
    }
}

/// The number of requests of a client among these.
pub open spec fn requests_of(clients: Seq<Seq<char>>, client_ip: Seq<char>) -> nat
    decreases clients.len(),
{
    if clients.len() == 0 {
        0
    } else {
        requests_of(clients.drop_last(), client_ip) + if clients.last() == client_ip {
            1nat
        } else {
            0nat
        }
    }
}

/// The law of the limiter: since the counts were cleared, the first
/// `max_requests` requests of a client are accepted and all later ones are
/// refused, whatever other clients do. A limit of zero refuses nothing.
pub proof fn lemma_limit_is_kept(
    clients: Seq<Seq<char>>,
    client_ip: Seq<char>,
    max_requests: usize,
)
    ensures
        accepted(counts_since_clear(clients, max_requests), client_ip, max_requests) <==> (
        max_requests == 0 || requests_of(clients, client_ip) < max_requests),
        max_requests > 0 ==> count_of(counts_since_clear(clients, max_requests), client_ip)
            == if requests_of(clients, client_ip) < max_requests {
            requests_of(clients, client_ip)
        } else {
            max_requests as nat
        },
    decreases clients.len(),
{
    if clients.len() > 0 {
        lemma_limit_is_kept(clients.drop_last(), client_ip, max_requests);
    }
}

} // verus!
