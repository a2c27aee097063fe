//! Send routing: which source feeds each of a remote's slots, one source per slot.

use vstd::prelude::*;

use crate::audio::capture::tone_channel;

verus! {

/// Slots that a channel byte on the wire can address.
pub const WIRE_SLOTS: usize = 128;

/// One route: a source channel to a remote's slot.
#[derive(Clone, Copy, Debug, PartialEq, Eq, Structural)]
pub struct RouteEntry {
    pub src: u8,
    pub dst: u8,
}

/// The source that a list of routes leaves on a slot: the last one put there.
pub open spec fn source_on(routes: Seq<RouteEntry>, slot: int) -> Option<u8>
    decreases routes.len(),
{
    if routes.len() == 0 {
        None
    } else if routes.last().dst == slot {
        Some(routes.last().src)
    } else {
        source_on(routes.drop_last(), slot)
    }
}

/// The table of sources by slot that a list of routes makes.
pub open spec fn slot_table(routes: Seq<RouteEntry>) -> Seq<Option<u8>> {
    Seq::new(256, |slot: int| source_on(routes, slot))
}

/// The slots below `n` that a source feeds, in ascending order.
pub open spec fn slots_fed(table: Seq<Option<u8>>, src: u8, n: int) -> Seq<u8>
    decreases n,
{
    if n <= 0 {
        Seq::empty()
    } else if table[n - 1] == Some(src) {
        slots_fed(table, src, n - 1).push((n - 1) as u8)
    } else {
        slots_fed(table, src, n - 1)
    }
}

/// How many of the slots below `n` are fed.
pub open spec fn fed_count(table: Seq<Option<u8>>, n: int) -> nat
    decreases n,
{
    if n <= 0 {
        0
    } else {
        fed_count(table, n - 1) + (if table[n - 1] is Some {
            1nat
        } else {
            0nat
        })
    }
}

/// A source feeds at least one slot.
pub open spec fn feeds(table: Seq<Option<u8>>, src: u8) -> bool {
    exists|slot: int| 0 <= slot < table.len() && #[trigger] table[slot] == Some(src)
}

/// One remote's send table. A slot carries one source: a later route to it evicts the
/// earlier.
pub struct PeerSendRouting {
    sources: Vec<Option<u8>>,
}

impl View for PeerSendRouting {
    type V = Seq<Option<u8>>;

    closed spec fn view(&self) -> Seq<Option<u8>> {
        self.sources@
    }
}

impl PeerSendRouting {
    /// A source or none for each of the 256 slots.
    pub open spec fn well_formed(&self) -> bool {
        self@.len() == 256
    }

    pub fn new(routes: &Vec<RouteEntry>) -> (r: Self)
        ensures
            r.well_formed(),
            r@ == slot_table(routes@),
    {
        let mut sources: Vec<Option<u8>> = Vec::new();
        let mut i: usize = 0;
        while i < 256
            invariant
                i <= 256,
                sources@.len() == i,
                forall|j: int| 0 <= j < i ==> #[trigger] sources@[j] is None,
            decreases 256 - i,
        {
            sources.push(None);
            i = i + 1;
        }
        let mut k: usize = 0;
        assert(sources@ =~= slot_table(routes@.subrange(0, 0)));
        while k < routes.len()
            invariant
                k <= routes@.len(),
                sources@ == slot_table(routes@.subrange(0, k as int)),
            decreases routes@.len() - k,
        {
            let ghost before = sources@;
            let r: RouteEntry = routes[k];
            sources.set(r.dst as usize, Some(r.src));
            proof {
                let now = routes@.subrange(0, k + 1);
                assert(now.drop_last() =~= routes@.subrange(0, k as int));
                assert(now.last() == r);
                assert(sources@ =~= slot_table(now));
            }
            k = k + 1;
        }
        assert(routes@.subrange(0, routes@.len() as int) =~= routes@);
        PeerSendRouting { sources }
    }

    /// The slots a source feeds, in ascending order.
    pub fn resolve(&self, src: u8) -> (slots: Vec<u8>)
        requires
            self.well_formed(),
        ensures
            slots@ == slots_fed(self@, src, 256),
    {
        let mut slots: Vec<u8> = Vec::new();
        let mut i: usize = 0;
        while i < 256
            invariant
                i <= 256,
                self.well_formed(),
                slots@ == slots_fed(self@, src, i as int),
            decreases 256 - i,
        {
            match self.sources[i] {
                Some(s) => {
                    if s == src {
                        slots.push(i as u8);
                    }
                },
                None => {},
            }
            i = i + 1;
        }
        slots
    }

    /// Does the source feed any slot?
    pub fn carries(&self, src: u8) -> (c: bool)
        requires
            self.well_formed(),
        ensures
            c == feeds(self@, src),
    {
        let mut i: usize = 0;
        while i < 256
            invariant
                i <= 256,
                self.well_formed(),
                forall|j: int| 0 <= j < i ==> #[trigger] self@[j] != Some(src),
            decreases 256 - i,
        {
            match self.sources[i] {
                Some(s) => {
                    if s == src {
                        assert(self@[i as int] == Some(src));
                        return true;
                    }
                },
                None => {},
            }
            i = i + 1;
        }
        false
    }

    /// How many (source, slot) pairs there are.
    pub fn stream_count(&self) -> (n: usize)
        requires
            self.well_formed(),
        ensures
            n == fed_count(self@, 256),
            n <= 256,
    {
        let mut n: usize = 0;
        let mut i: usize = 0;
        while i < 256
            invariant
                i <= 256,
                n <= i,
                self.well_formed(),
                n == fed_count(self@, i as int),
            decreases 256 - i,
        {
            if self.sources[i].is_some() {
                n = n + 1;
            }
            i = i + 1;
        }
        n
    }
}

/// The routes of a tone table among its first `n` slots: slot `i` from tone leg `tones[i]`,
/// 0 being off. Slots that the wire cannot address have none.
pub open spec fn tone_routes(tones: Seq<u8>, num_out_ch: int, n: int) -> Seq<RouteEntry>
    decreases n,
{
    if n <= 0 {
        Seq::empty()
    } else {
        let rest = tone_routes(tones, num_out_ch, n - 1);
        if tones[n - 1] == 0 || n - 1 > 127 {
            rest
        } else {
            rest.push(
                RouteEntry {
                    src: (num_out_ch + tones[n - 1] - 1) as u8,
                    dst: (n - 1) as u8,
                },
            )
        }
    }
}

/// Signal routes first, then tone: a tone leg put on an occupied slot displaces the signal
/// source there.
pub open spec fn composed_routes(
    signal: Seq<RouteEntry>,
    tones: Seq<u8>,
    num_out_ch: int,
) -> Seq<RouteEntry> {
    signal + tone_routes(tones, num_out_ch, tones.len() as int)
}

/// Compose a remote's signal routes and tone slots into one list of routes.
pub fn compose_routes(signal: &Vec<RouteEntry>, tones: &Vec<u8>, num_out_ch: usize) -> (routes:
    Vec<RouteEntry>)
    requires
        num_out_ch + 255 <= usize::MAX,
    ensures
        routes@ == composed_routes(signal@, tones@, num_out_ch as int),
{
    let mut routes: Vec<RouteEntry> = Vec::new();
    let mut i: usize = 0;
    while i < signal.len()
        invariant
            i <= signal@.len(),
            routes@ =~= signal@.subrange(0, i as int),
        decreases signal@.len() - i,
    {
        routes.push(signal[i]);
        i = i + 1;
    }
    let mut ci: usize = 0;
    assert(signal@.subrange(0, signal@.len() as int) =~= signal@);
    assert(signal@ + tone_routes(tones@, num_out_ch as int, 0) =~= signal@);
    while ci < tones.len()
        invariant
            ci <= tones@.len(),
            num_out_ch + 255 <= usize::MAX,
            routes@ == signal@ + tone_routes(tones@, num_out_ch as int, ci as int),
        decreases tones@.len() - ci,
    {
        let t: u8 = tones[ci];
        let ghost before = tone_routes(tones@, num_out_ch as int, ci as int);
        if t != 0 && ci <= 127 {
            let wide: usize = tone_channel(num_out_ch, t);
            let r = RouteEntry { src: #[verifier::truncate] (wide as u8), dst: ci as u8 };
            routes.push(r);
            assert(routes@ =~= signal@ + before.push(r));
        }
        ci = ci + 1;
    }
    routes
}

proof fn lemma_source_on_concat(a: Seq<RouteEntry>, b: Seq<RouteEntry>, slot: int)
    ensures
        source_on(a + b, slot) == (match source_on(b, slot) {
            Some(s) => Some(s),
            None => source_on(a, slot),
        }),
    decreases b.len(),
{
    if b.len() == 0 {
        assert(a + b =~= a);
    } else {
        assert((a + b).drop_last() =~= a + b.drop_last());
        lemma_source_on_concat(a, b.drop_last(), slot);
    }
}

proof fn lemma_tone_source(tones: Seq<u8>, num_out_ch: int, n: int, slot: int)
    requires
        0 <= n <= tones.len(),
        0 <= slot < 256,
    ensures
        source_on(tone_routes(tones, num_out_ch, n), slot) == (if slot < n && slot <= 127
            && tones[slot] != 0 {
            Some((num_out_ch + tones[slot] - 1) as u8)
        } else {
            None
        }),
    decreases n,
{
    if n > 0 {
        lemma_tone_source(tones, num_out_ch, n - 1, slot);
        let all = tone_routes(tones, num_out_ch, n);
        let rest = tone_routes(tones, num_out_ch, n - 1);
        if !(tones[n - 1] == 0 || n - 1 > 127) {
            assert(all.drop_last() =~= rest);
        }
    }
}

/// A tone leg holds its slot against whatever signal is routed there, and every slot without
/// tone keeps its signal source.
pub proof fn law_tone_wins_a_contested_slot(
    signal: Seq<RouteEntry>,
    tones: Seq<u8>,
    num_out_ch: int,
    slot: int,
)
    requires
        0 <= slot < 256,
    ensures
        slot_table(composed_routes(signal, tones, num_out_ch))[slot] == (if slot < tones.len()
            && slot <= 127 && tones[slot] != 0 {
            Some((num_out_ch + tones[slot] - 1) as u8)
        } else {
            source_on(signal, slot)
        }),
{
    let t = tone_routes(tones, num_out_ch, tones.len() as int);
    lemma_source_on_concat(signal, t, slot);
    lemma_tone_source(tones, num_out_ch, tones.len() as int, slot);
}

/// With no tone the composed table is the signal's own.
pub proof fn law_no_tone_leaves_the_signal(signal: Seq<RouteEntry>, num_out_ch: int)
    ensures
        composed_routes(signal, Seq::empty(), num_out_ch) == signal,
{
    assert(composed_routes(signal, Seq::empty(), num_out_ch) =~= signal);
}

/// A slot carries one source: no two sources feed it.
pub proof fn law_one_source_per_slot(table: Seq<Option<u8>>, a: u8, b: u8, slot: u8)
    requires
        table.len() == 256,
        slots_fed(table, a, 256).contains(slot),
        slots_fed(table, b, 256).contains(slot),
    ensures
        a == b,
{
    lemma_slots_fed(table, a, 256, slot);
    lemma_slots_fed(table, b, 256, slot);
}

proof fn lemma_slots_fed(table: Seq<Option<u8>>, src: u8, n: int, slot: u8)
    requires
        0 <= n <= 256,
        table.len() == 256,
    ensures
        slots_fed(table, src, n).contains(slot) <==> slot < n && table[slot as int] == Some(src),
    decreases n,
{
    if n > 0 {
        lemma_slots_fed(table, src, n - 1, slot);
        let rest = slots_fed(table, src, n - 1);
        let all = slots_fed(table, src, n);
        if table[n - 1] == Some(src) {
            assert(all == rest.push((n - 1) as u8));
            if rest.contains(slot) {
                let i = choose|i: int| 0 <= i < rest.len() && rest[i] == slot;
                assert(all[i] == slot);
            }
            if slot == n - 1 {
                assert(all[rest.len() as int] == slot);
            }
            if all.contains(slot) {
                let i = choose|i: int| 0 <= i < all.len() && all[i] == slot;
                if i < rest.len() {
                    assert(rest[i] == slot);
                }
            }
        }
    }
}

/// A source is carried exactly where it feeds some slot.
pub proof fn law_a_carried_source_feeds_a_slot(
    r: PeerSendRouting,
    src: u8,
    slots: Vec<u8>,
    carried: bool,
)
    requires
        r.well_formed(),
        call_ensures(PeerSendRouting::resolve, (&r, src), slots),
        call_ensures(PeerSendRouting::carries, (&r, src), carried),
    ensures
        carried <==> slots@.len() > 0,
{
    if slots@.len() > 0 {
        assert(slots@.contains(slots@[0]));
        lemma_slots_fed(r@, src, 256, slots@[0]);
    }
    if carried {
        let s = choose|s: int| 0 <= s < r@.len() && #[trigger] r@[s] == Some(src);
        lemma_slots_fed(r@, src, 256, s as u8);
    }
}

} // verus!
