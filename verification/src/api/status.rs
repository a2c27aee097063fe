//! Stream totals, as the status page shows them.

use vstd::prelude::*;

use crate::api::config::{find, find_remote, remotes_of, RemoteConfig};
use crate::names::NameMap;
use crate::pick::{count, sum};

verus! {

/// How many of the first `n` slots carry a tone.
pub open spec fn tones_in(slots: Seq<u8>, n: int) -> int
    decreases n,
{
    if n <= 0 {
        0
    } else {
        tones_in(slots, n - 1) + (if slots[n - 1] != 0 {
            1int
        } else {
            0int
        })
    }
}

pub open spec fn or_zero(n: Option<usize>) -> int {
    match n {
        Some(x) => x as int,
        None => 0,
    }
}

proof fn lemma_tones_bound(slots: Seq<u8>, n: int)
    requires
        0 <= n,
    ensures
        0 <= tones_in(slots, n) <= n,
    decreases n,
{
    if n > 0 {
        lemma_tones_bound(slots, n - 1);
    }
}

/// What one remote's routing is set up to carry: outgoing crosspoints, tones among them, and
/// incoming ones. The routes are the parsed lengths of its matrices, none where it has no
/// matrix; a tone slot counts where its value is not 0.
pub fn configured_crosspoints(
    send_routes: Option<usize>,
    tone_slots: Option<&Vec<u8>>,
    receive_routes: Option<usize>,
) -> (r: (usize, usize))
    requires
        or_zero(send_routes) + (match tone_slots {
            Some(v) => v@.len() as int,
            None => 0,
        }) <= usize::MAX,
    ensures
        r.0 == or_zero(send_routes) + (match tone_slots {
            Some(v) => tones_in(v@, v@.len() as int),
            None => 0,
        }),
        r.1 == or_zero(receive_routes),
{
    let signal: usize = match send_routes {
        Some(n) => n,
        None => 0,
    };
    let rx: usize = match receive_routes {
        Some(n) => n,
        None => 0,
    };
    let mut tones: usize = 0;
    if let Some(slots) = tone_slots {
        let mut i: usize = 0;
        while i < slots.len()
            invariant
                i <= slots@.len(),
                tones <= i,
                tones == tones_in(slots@, i as int),
            decreases slots@.len() - i,
        {
            if slots[i] != 0 {
                tones = tones + 1;
            }
            i = i + 1;
        }
    }
    (signal + tones, rx)
}

/// The tones a peer is routed, out of the tables of all peers.
pub open spec fn tones_of(tones: Map<Seq<char>, Vec<u8>>, peer: Seq<char>) -> int {
    if tones.dom().contains(peer) {
        tones_in(tones[peer]@, tones[peer]@.len() as int)
    } else {
        0
    }
}

/// What the status page shows for one peer: the crosspoints of the remote of that name, none
/// where no remote has it. `routes` are the remotes' parsed matrices, in their order.
pub fn peer_crosspoints(
    remotes: &Vec<RemoteConfig>,
    routes: &Vec<(Option<usize>, Option<usize>)>,
    tones: &NameMap<Vec<u8>>,
    peer: &str,
) -> (r: (usize, usize))
    requires
        routes@.len() == remotes@.len(),
        tones.well_formed(),
        forall|i: int|
            0 <= i < routes@.len() ==> or_zero((#[trigger] routes@[i]).0) + (
            if tones.map().dom().contains(peer@) {
                tones.map()[peer@]@.len() as int
            } else {
                0
            }) <= usize::MAX,
    ensures
        match find(remotes_of(remotes@), peer@) {
            Some(i) => r.0 == or_zero(routes@[i].0) + tones_of(tones.map(), peer@) && r.1
                == or_zero(routes@[i].1),
            None => r == (0usize, 0usize),
        },
{
    match find_remote(remotes, peer) {
        Some(i) => configured_crosspoints(routes[i].0, tones.get(peer), routes[i].1),
        None => (0, 0),
    }
}

/// The configured routes of the first `n` remotes, outgoing and incoming.
pub open spec fn routes_in(rs: Seq<(Option<usize>, Option<usize>)>, n: int) -> (int, int)
    decreases n,
{
    if n <= 0 {
        (0, 0)
    } else {
        let (tx, rx) = routes_in(rs, n - 1);
        (tx + or_zero(rs[n - 1].0), rx + or_zero(rs[n - 1].1))
    }
}

proof fn lemma_routes_grow(rs: Seq<(Option<usize>, Option<usize>)>, n: int, m: int)
    requires
        0 <= n <= m,
    ensures
        0 <= routes_in(rs, n).0 <= routes_in(rs, m).0,
        0 <= routes_in(rs, n).1 <= routes_in(rs, m).1,
    decreases m,
{
    if n < m {
        lemma_routes_grow(rs, n, m - 1);
    } else if n > 0 {
        lemma_routes_grow(rs, n - 1, n - 1);
    }
}

/// What is set up over all remotes, live or not: a source routed to several remotes counts
/// for each.
pub fn stream_totals(remotes: &Vec<(Option<usize>, Option<usize>)>) -> (r: (usize, usize))
    requires
        routes_in(remotes@, remotes@.len() as int).0 <= usize::MAX,
        routes_in(remotes@, remotes@.len() as int).1 <= usize::MAX,
    ensures
        r.0 == routes_in(remotes@, remotes@.len() as int).0,
        r.1 == routes_in(remotes@, remotes@.len() as int).1,
{
    let mut tx: usize = 0;
    let mut rx: usize = 0;
    let mut i: usize = 0;
    while i < remotes.len()
        invariant
            i <= remotes@.len(),
            tx == routes_in(remotes@, i as int).0,
            rx == routes_in(remotes@, i as int).1,
            routes_in(remotes@, remotes@.len() as int).0 <= usize::MAX,
            routes_in(remotes@, remotes@.len() as int).1 <= usize::MAX,
        decreases remotes@.len() - i,
    {
        proof {
            lemma_routes_grow(remotes@, i + 1, remotes@.len() as int);
        }
        if let Some(n) = remotes[i].0 {
            tx = tx + n;
        }
        if let Some(n) = remotes[i].1 {
            rx = rx + n;
        }
        i = i + 1;
    }
    (tx, rx)
}

/// Every tone slot counts at most once, so a remote's outgoing crosspoints are its routes and
/// no more than its slots besides.
pub proof fn law_tones_add_at_most_a_slot_each(slots: Seq<u8>)
    ensures
        0 <= tones_in(slots, slots.len() as int) <= slots.len(),
        (forall|i: int| 0 <= i < slots.len() ==> #[trigger] slots[i] != 0) ==> tones_in(
            slots,
            slots.len() as int,
        ) == slots.len(),
{
    lemma_tones_bound(slots, slots.len() as int);
    if forall|i: int| 0 <= i < slots.len() ==> #[trigger] slots[i] != 0 {
        lemma_all_tones(slots, slots.len() as int);
    }
}

proof fn lemma_all_tones(slots: Seq<u8>, n: int)
    requires
        0 <= n <= slots.len(),
        forall|i: int| 0 <= i < slots.len() ==> #[trigger] slots[i] != 0,
    ensures
        tones_in(slots, n) == n,
    decreases n,
{
    if n > 0 {
        lemma_all_tones(slots, n - 1);
        assert(slots[n - 1] != 0);
    }
}

/// The outgoing crosspoints of the first `n` remotes, each with its tones.
pub open spec fn carried(
    routes: Seq<(Option<usize>, Option<usize>)>,
    tones: Seq<int>,
    n: int,
) -> int
    decreases n,
{
    if n <= 0 {
        0
    } else {
        carried(routes, tones, n - 1) + or_zero(routes[n - 1].0) + tones[n - 1]
    }
}

pub open spec fn first_sum(s: Seq<int>, n: int) -> int
    decreases n,
{
    if n <= 0 {
        0
    } else {
        first_sum(s, n - 1) + s[n - 1]
    }
}

/// What the remotes show one by one adds up to the outgoing total and their tones besides.
pub proof fn law_remotes_add_up_to_the_total(
    routes: Seq<(Option<usize>, Option<usize>)>,
    tones: Seq<int>,
    n: int,
)
    requires
        0 <= n <= routes.len(),
        tones.len() == routes.len(),
    ensures
        carried(routes, tones, n) == routes_in(routes, n).0 + first_sum(tones, n),
    decreases n,
{
    if n > 0 {
        law_remotes_add_up_to_the_total(routes, tones, n - 1);
    }
}

/// A tone slot counts exactly where it is not 0.
pub proof fn law_every_set_slot_counts_once(slots: Seq<u8>, n: int)
    requires
        0 <= n <= slots.len(),
    ensures
        tones_in(slots, n) == count(n, |i: int| slots[i] != 0),
    decreases n,
{
    if n > 0 {
        law_every_set_slot_counts_once(slots, n - 1);
    }
}

/// The totals are the sums of the remotes' routes, each direction for itself; a remote without
/// a matrix adds nothing.
pub proof fn law_totals_are_sums(rs: Seq<(Option<usize>, Option<usize>)>, n: int)
    requires
        0 <= n <= rs.len(),
    ensures
        routes_in(rs, n).0 == sum(n, |i: int| rs[i].0 is Some, |i: int| rs[i].0->Some_0 as int),
        routes_in(rs, n).1 == sum(n, |i: int| rs[i].1 is Some, |i: int| rs[i].1->Some_0 as int),
    decreases n,
{
    if n > 0 {
        law_totals_are_sums(rs, n - 1);
    }
}

/// One remote's crosspoints: outgoing its routes and every tone slot that is set, incoming its
/// routes alone.
pub proof fn law_what_one_remote_carries(
    tx: usize,
    slots: Vec<u8>,
    rx: usize,
    both: (usize, usize),
    untoned: (usize, usize),
    none: (usize, usize),
)
    requires
        call_ensures(configured_crosspoints, (Some(tx), Some(&slots), Some(rx)), both),
        call_ensures(configured_crosspoints, (Some(tx), None, Some(rx)), untoned),
        call_ensures(configured_crosspoints, (None, None, None), none),
    ensures
        both.0 == tx + count(slots@.len() as int, |i: int| slots@[i] != 0),
        both.1 == rx,
        untoned == (tx, rx),
        none == (0usize, 0usize),
{
    law_every_set_slot_counts_once(slots@, slots@.len() as int);
}

/// A peer's tones are those of its own table, none where it has no table.
pub proof fn law_a_peer_has_its_own_tones(tones: Map<Seq<char>, Vec<u8>>, peer: Seq<char>)
    ensures
        tones.dom().contains(peer) ==> tones_of(tones, peer) == count(
            tones[peer]@.len() as int,
            |i: int| tones[peer]@[i] != 0,
        ),
        !tones.dom().contains(peer) ==> tones_of(tones, peer) == 0,
{
    if tones.dom().contains(peer) {
        law_every_set_slot_counts_once(tones[peer]@, tones[peer]@.len() as int);
    }
}

} // verus!
