//! What the send side promises as a whole: who is sent what, by which stream, in which packet.

use vstd::prelude::*;

use crate::audio::capture::bucket_of;
use crate::audio::encode::{
    bucket_wanted, calls_for, changed_pref, channel_streams, connected_total, desired, dropped,
    encoded, entry_tasks, job_tasks, key_before, mode_named, params_of, peer_dests, retained,
    retry_open, sealed_packet, stream_dests, stream_total, taken_count, transmit_audio, AudioMode,
    Bitrate, CaptureEngine, ChannelEncoder, DestView, EncodeTask, EncoderParams, LiveStream, Seal,
    SendStream, StreamKey,
};
use crate::audio::routing::{
    composed_routes, fed_count, law_tone_wins_a_contested_slot, slot_table, slots_fed,
    PeerSendRouting, RouteEntry,
};
use crate::pick::{count, law_picked, picked, sum};

verus! {

/// Frames that are encoded are numbered one after another, from the number the encoder stands
/// at, and a frame that could not be encoded uses none up. The result of a frame is its own
/// number and length.
pub proof fn law_packets_are_numbered_in_order(e: ChannelEncoder, bytes: usize)
    ensures
        encoded(e, Some(bytes)).pending == Some((e.seq, bytes)),
        e.seq < u16::MAX ==> encoded(e, Some(bytes)).seq == e.seq + 1,
        e.seq == u16::MAX ==> encoded(e, Some(bytes)).seq == 0,
        encoded(e, None).seq == e.seq,
        encoded(e, None).pending is None,
        encoded(e, Some(bytes)).frame_samples == e.frame_samples,
        encoded(e, None).frame_samples == e.frame_samples,
{
}

/// Streams stand in one strict order: any two different ones, one way round and not the other;
/// a lower channel comes first whatever its frame, and on one channel the shorter frame.
pub proof fn law_streams_have_one_order(a: StreamKey, b: StreamKey, c: StreamKey)
    ensures
        !key_before(a, a),
        a != b ==> key_before(a, b) != key_before(b, a),
        key_before(a, b) && key_before(b, c) ==> key_before(a, c),
        a.ch < b.ch ==> key_before(a, b),
        a.ch == b.ch && a.frame < b.frame ==> key_before(a, b),
{
}

/// A remote is sent in the mode and at the frame size it was given, or in the template's where
/// it was given none, and never in frames shorter than the devices can run.
pub proof fn law_a_remote_is_sent_as_it_prefers(
    prefs: Map<Seq<char>, (usize, AudioMode)>,
    p: EncoderParams,
    peer: Seq<char>,
    shortest: usize,
)
    ensures
        ({
            let (frame, mode) = params_of(prefs, p, peer, shortest);
            let own = prefs.dom().contains(peer);
            &&& own ==> mode == prefs[peer].1
            &&& !own ==> mode == p.mode
            &&& frame >= shortest
            &&& own && prefs[peer].0 >= shortest ==> frame == prefs[peer].0
            &&& !own && p.frame_samples >= shortest ==> frame == p.frame_samples
            &&& (if own {
                prefs[peer].0
            } else {
                p.frame_samples
            }) < shortest ==> frame == shortest
        }),
{
}

/// A change of frame size or mode sets what it names and keeps what it does not.
pub proof fn law_a_change_sets_only_what_it_names(
    v: (usize, AudioMode),
    frame: usize,
    mode: AudioMode,
)
    ensures
        changed_pref(v, None, None) == v,
        changed_pref(v, Some(frame), None) == (frame, v.1),
        changed_pref(v, None, Some(mode)) == (v.0, mode),
        changed_pref(v, Some(frame), Some(mode)) == (frame, mode),
{
}

/// The encoders that took a bitrate are counted one by one.
pub proof fn law_answers_are_counted(took: Seq<bool>, n: int)
    requires
        0 <= n <= took.len(),
    ensures
        taken_count(took, n) == count(n, |i: int| took[i]),
    decreases n,
{
    if n > 0 {
        law_answers_are_counted(took, n - 1);
    }
}

/// The last route to a slot decides what feeds it, and a slot with no route is fed nothing.
pub proof fn law_the_last_route_wins(routes: Seq<RouteEntry>, k: int, slot: int)
    requires
        0 <= slot < 256,
    ensures
        0 <= k < routes.len() && routes[k].dst == slot && (forall|j: int|
            k < j < routes.len() ==> (#[trigger] routes[j]).dst != slot) ==> slot_table(
            routes,
        )[slot] == Some(routes[k].src),
        (forall|j: int| 0 <= j < routes.len() ==> (#[trigger] routes[j]).dst != slot)
            ==> slot_table(routes)[slot] is None,
        slot_table(routes).len() == 256,
    decreases routes.len(),
{
    if routes.len() > 0 {
        let rest = routes.drop_last();
        assert forall|j: int| 0 <= j < rest.len() implies #[trigger] rest[j] == routes[j] by {}
        law_the_last_route_wins(rest, k, slot);
        if 0 <= k < routes.len() && routes[k].dst == slot && (forall|j: int|
            k < j < routes.len() ==> (#[trigger] routes[j]).dst != slot) {
            if k < routes.len() - 1 {
                assert(routes[routes.len() - 1].dst != slot);
                assert(rest[k] == routes[k]);
                assert forall|j: int| k < j < rest.len() implies (#[trigger] rest[j]).dst != slot by {
                    assert(routes[j].dst != slot);
                }
            }
        }
        if forall|j: int| 0 <= j < routes.len() ==> (#[trigger] routes[j]).dst != slot {
            assert(routes[routes.len() - 1].dst != slot);
            assert forall|j: int| 0 <= j < rest.len() implies (#[trigger] rest[j]).dst != slot by {
                assert(routes[j].dst != slot);
            }
        }
    }
}

/// The slots a source feeds are those whose entry is that source.
pub proof fn law_fed_slots_are_the_source_s(table: Seq<Option<u8>>, src: u8, slot: u8)
    requires
        table.len() == 256,
    ensures
        slots_fed(table, src, 256).contains(slot) <==> table[slot as int] == Some(src),
        slots_fed(table, src, 256).len() == count(256, |s: int| table[s] == Some(src)),
        fed_count(table, 256) == count(256, |s: int| table[s] is Some),
{
    let p = |s: int| table[s] == Some(src);
    let f = |s: int| s as u8;
    lemma_slots_picked(table, src, 256);
    law_picked(256, p, f);
    assert(slots_fed(table, src, 256) =~= picked(256, p, f));
    if table[slot as int] == Some(src) {
        assert(p(slot as int) && f(slot as int) == slot);
    }
    lemma_fed_counted(table, 256);
}

proof fn lemma_slots_picked(table: Seq<Option<u8>>, src: u8, n: int)
    ensures
        slots_fed(table, src, n) == picked(
            n,
            |s: int| table[s] == Some(src),
            |s: int| s as u8,
        ),
    decreases n,
{
    if n > 0 {
        lemma_slots_picked(table, src, n - 1);
    }
}

proof fn lemma_fed_counted(table: Seq<Option<u8>>, n: int)
    ensures
        fed_count(table, n) == count(n, |s: int| table[s] is Some),
    decreases n,
{
    if n > 0 {
        lemma_fed_counted(table, n - 1);
    }
}

/// What a remote is sent on a slot: the tone leg set there, counted from the first after the
/// hardware channels, or else the last signal route to it. A remote with neither signal nor
/// tone has no send table.
pub proof fn law_a_remote_is_sent_its_tone_and_its_signal(
    e: &CaptureEngine,
    peer: Seq<char>,
    slot: int,
)
    requires
        e.well_formed(),
        0 <= slot < 256,
    ensures
        ({
            let signal = e.signal_routes.map();
            let tone = e.tone_dests.map();
            let routed = e.send_routing.map();
            let leg = tone.dom().contains(peer) && slot < tone[peer]@.len() && slot < 128
                && tone[peer]@[slot] != 0;
            &&& !signal.dom().contains(peer) && !tone.dom().contains(peer) ==> !routed.dom().contains(
                peer,
            )
            &&& leg ==> routed.dom().contains(peer) && routed[peer]@[slot] == Some(
                (e.num_out_ch + tone[peer]@[slot] - 1) as u8,
            )
            &&& signal.dom().contains(peer) && signal[peer]@.len() > 0 ==> routed.dom().contains(
                peer,
            )
            &&& signal.dom().contains(peer) && !leg && routed.dom().contains(peer)
                ==> routed[peer]@[slot] == slot_table(signal[peer]@)[slot]
            &&& !signal.dom().contains(peer) && !leg && routed.dom().contains(peer)
                ==> routed[peer]@[slot] is None
        }),
{
    assert(e.composed_for(peer));
    let signal = if e.signal_routes.map().dom().contains(peer) {
        e.signal_routes.map()[peer]@
    } else {
        Seq::empty()
    };
    let tone = if e.tone_dests.map().dom().contains(peer) {
        e.tone_dests.map()[peer]@
    } else {
        Seq::empty()
    };
    assert(e.routes_of(peer) == composed_routes(signal, tone, e.num_out_ch as int));
    law_tone_wins_a_contested_slot(signal, tone, e.num_out_ch as int, slot);
    if slot < tone.len() && slot < 128 && tone[slot] != 0 {
        if e.routes_of(peer).len() == 0 {
            assert(slot_table(e.routes_of(peer))[slot] is None);
        }
    }
    if signal.len() == 0 && tone.len() == 0 {
        assert(e.routes_of(peer).len() == 0);
    }
}

/// A stream is called for exactly where some remote has a slot fed by its channel and is sent
/// at its frame size and in its mode.
pub proof fn law_what_is_routed_is_called_for(
    routing: Seq<(Seq<char>, PeerSendRouting)>,
    prefs: Map<Seq<char>, (usize, AudioMode)>,
    p: EncoderParams,
    shortest: usize,
    total_ch: int,
    k: StreamKey,
    i: int,
    slot: int,
)
    requires
        total_ch <= 256,
        forall|j: int| 0 <= j < routing.len() ==> (#[trigger] routing[j]).1@.len() == 256,
    ensures
        0 <= i < routing.len() && 0 <= slot < 256 && k.ch < total_ch && routing[i].1@[slot]
            == Some(k.ch as u8) && params_of(prefs, p, routing[i].0, shortest) == (k.frame, k.mode)
            ==> desired(routing, prefs, p, shortest, total_ch, k),
        desired(routing, prefs, p, shortest, total_ch, k) ==> k.ch < total_ch && exists|
            j: int,
            s: int,
        |
            0 <= j < routing.len() && 0 <= s < 256 && #[trigger] routing[j].1@[s] == Some(
                k.ch as u8,
            ) && params_of(prefs, p, routing[j].0, shortest) == (k.frame, k.mode),
{
    if 0 <= i < routing.len() && 0 <= slot < 256 && k.ch < total_ch && routing[i].1@[slot]
        == Some(k.ch as u8) && params_of(prefs, p, routing[i].0, shortest) == (k.frame, k.mode) {
        assert(routing[i].1@.len() == 256);
        assert(calls_for(routing[i], prefs, p, shortest, k));
    }
    if desired(routing, prefs, p, shortest, total_ch, k) {
        let j = choose|j: int|
            0 <= j < routing.len() && calls_for(#[trigger] routing[j], prefs, p, shortest, k);
        assert(routing[j].1@.len() == 256);
        let s = choose|s: int|
            0 <= s < routing[j].1@.len() && #[trigger] routing[j].1@[s] == Some(k.ch as u8);
        assert(routing[j].1@[s] == Some(k.ch as u8));
    }
}

/// A channel is buffered at a frame size exactly where a stream of it has that size.
pub proof fn law_channels_are_buffered_at_their_streams_sizes(
    keys: Seq<StreamKey>,
    ch: int,
    b: int,
)
    requires
        forall|i: int|
            0 <= i < keys.len() ==> crate::audio::geometry::is_frame_size(
                (#[trigger] keys[i]).frame as int,
            ),
    ensures
        b == 0 ==> (bucket_wanted(keys, ch, b) <==> exists|i: int|
            0 <= i < keys.len() && #[trigger] keys[i].ch == ch && keys[i].frame == 120),
        b == 1 ==> (bucket_wanted(keys, ch, b) <==> exists|i: int|
            0 <= i < keys.len() && #[trigger] keys[i].ch == ch && keys[i].frame == 240),
        b == 2 ==> (bucket_wanted(keys, ch, b) <==> exists|i: int|
            0 <= i < keys.len() && #[trigger] keys[i].ch == ch && keys[i].frame == 480),
        b == 3 ==> (bucket_wanted(keys, ch, b) <==> exists|i: int|
            0 <= i < keys.len() && #[trigger] keys[i].ch == ch && keys[i].frame == 960),
{
    if bucket_wanted(keys, ch, b) {
        let i = choose|i: int|
            0 <= i < keys.len() && #[trigger] keys[i].ch == ch && bucket_of(keys[i].frame as int)
                == b;
        assert(crate::audio::geometry::is_frame_size(keys[i].frame as int));
        assert(keys[i].ch == ch);
    }
    assert forall|i: int| 0 <= i < keys.len() && #[trigger] keys[i].ch == ch && bucket_of(
        keys[i].frame as int,
    ) == b implies bucket_wanted(keys, ch, b) by {}
}

/// The streams that leave are the fed slots of every remote, and those to connected remotes
/// the fed slots of the connected ones.
pub proof fn law_leaving_streams_are_fed_slots<T>(
    routing: Seq<(Seq<char>, PeerSendRouting)>,
    connected: Map<Seq<char>, T>,
    n: int,
)
    requires
        0 <= n <= routing.len(),
    ensures
        stream_total(routing, n) == sum(
            n,
            |i: int| true,
            |i: int| count(256, |s: int| routing[i].1@[s] is Some),
        ),
        connected_total(routing, connected, n) == sum(
            n,
            |i: int| connected.dom().contains(routing[i].0),
            |i: int| count(256, |s: int| routing[i].1@[s] is Some),
        ),
    decreases n,
{
    if n > 0 {
        law_leaving_streams_are_fed_slots(routing, connected, n - 1);
        lemma_fed_counted(routing[n - 1].1@, 256);
        let table = routing[n - 1].1@;
        assert((|s: int| table[s] is Some) =~= (|s: int| routing[n - 1].1@[s] is Some));
    }
}

/// The encoders given up are those of the live streams no longer called for, and between them
/// and the ones kept every live stream is accounted for.
pub proof fn law_only_unneeded_encoders_are_given_up(
    live: Seq<LiveStream>,
    keys: Seq<StreamKey>,
    encoder: u64,
    n: int,
)
    requires
        0 <= n <= live.len(),
    ensures
        dropped(live, keys, n).contains(encoder) <==> exists|i: int|
            0 <= i < n && !keys.contains((#[trigger] live[i]).key) && live[i].encoder == encoder,
        dropped(live, keys, n).len() + retained(live, keys, n).len() == n,
    decreases n,
{
    if n > 0 {
        law_only_unneeded_encoders_are_given_up(live, keys, encoder, n - 1);
        let rest = dropped(live, keys, n - 1);
        let all = dropped(live, keys, n);
        if all.contains(encoder) {
            let k = choose|k: int| 0 <= k < all.len() && all[k] == encoder;
            if k < rest.len() {
                assert(rest[k] == encoder);
                let i = choose|i: int|
                    0 <= i < n - 1 && !keys.contains((#[trigger] live[i]).key) && live[i].encoder
                        == encoder;
                assert(live[i].encoder == encoder);
            } else {
                assert(live[n - 1].encoder == encoder);
            }
        }
        if rest.contains(encoder) {
            let k = choose|k: int| 0 <= k < rest.len() && rest[k] == encoder;
            assert(all[k] == encoder);
        }
        if all.len() > rest.len() {
            assert(all[rest.len() as int] == live[n - 1].encoder);
        }
    }
}

proof fn lemma_peer_dests_exactly(
    peer: Seq<char>,
    addr: u64,
    table: Seq<Option<u8>>,
    ch: u8,
    n: int,
    d: DestView,
)
    requires
        0 <= n <= 128,
    ensures
        peer_dests(peer, addr, table, ch, n).contains(d) <==> d.peer == peer && d.addr == addr
            && d.slot < n && table[d.slot as int] == Some(ch),
    decreases n,
{
    if n > 0 {
        lemma_peer_dests_exactly(peer, addr, table, ch, n - 1, d);
        let rest = peer_dests(peer, addr, table, ch, n - 1);
        let all = peer_dests(peer, addr, table, ch, n);
        if all.contains(d) {
            let k = choose|k: int| 0 <= k < all.len() && all[k] == d;
            if k < rest.len() {
                assert(rest[k] == d);
                assert(rest.contains(d));
            }
        }
        if rest.contains(d) {
            let k = choose|k: int| 0 <= k < rest.len() && rest[k] == d;
            assert(all[k] == d);
        }
        if all.len() > rest.len() {
            assert(all[rest.len() as int] == (DestView { peer, slot: (n - 1) as u8, addr }));
        }
    }
}

/// A stream goes exactly to the slots it feeds: of every remote with a known address that is
/// sent at its frame size and in its mode, to each slot below 128 whose source is its channel,
/// at that remote's address.
pub proof fn law_a_stream_reaches_every_slot_it_feeds(
    routing: Seq<(Seq<char>, PeerSendRouting)>,
    addrs: Map<Seq<char>, u64>,
    prefs: Map<Seq<char>, (usize, AudioMode)>,
    p: EncoderParams,
    shortest: usize,
    k: StreamKey,
    n: int,
    d: DestView,
)
    requires
        0 <= n <= routing.len(),
    ensures
        stream_dests(routing, addrs, prefs, p, shortest, k, n).contains(d) <==> exists|i: int|
            0 <= i < n && (#[trigger] routing[i]).0 == d.peer && addrs.dom().contains(d.peer)
                && addrs[d.peer] == d.addr && params_of(prefs, p, d.peer, shortest) == (
            k.frame,
            k.mode,
            ) && d.slot < 128 && routing[i].1@[d.slot as int] == Some(k.ch as u8),
    decreases n,
{
    if n > 0 {
        law_a_stream_reaches_every_slot_it_feeds(
            routing,
            addrs,
            prefs,
            p,
            shortest,
            k,
            n - 1,
            d,
        );
        let (peer, table) = routing[n - 1];
        let rest = stream_dests(routing, addrs, prefs, p, shortest, k, n - 1);
        let all = stream_dests(routing, addrs, prefs, p, shortest, k, n);
        let last = peer_dests(peer, addrs[peer], table@, k.ch as u8, 128);
        lemma_peer_dests_exactly(peer, addrs[peer], table@, k.ch as u8, 128, d);
        if all.contains(d) {
            let a = choose|a: int| 0 <= a < all.len() && all[a] == d;
            if a < rest.len() {
                assert(rest[a] == d);
                assert(rest.contains(d));
            } else {
                assert(last[a - rest.len()] == d);
                assert(last.contains(d));
                assert(routing[n - 1].0 == d.peer);
            }
        }
        if rest.contains(d) {
            let a = choose|a: int| 0 <= a < rest.len() && rest[a] == d;
            assert(all[a] == d);
        }
        if last.contains(d) && addrs.dom().contains(peer) && params_of(prefs, p, peer, shortest)
            == (k.frame, k.mode) {
            let a = choose|a: int| 0 <= a < last.len() && last[a] == d;
            assert(all[rest.len() + a] == d);
        }
    }
}

/// A channel's send streams are its live streams, each with its own encoder, frame size, mode
/// and destinations, and as many.
pub proof fn law_a_channel_s_streams_are_its_live_ones(
    e: &CaptureEngine,
    addrs: Map<Seq<char>, u64>,
    shortest: usize,
    ch: int,
    n: int,
    i: int,
)
    requires
        0 <= i < n <= e.live@.len(),
    ensures
        e.live@[i].key.ch == ch ==> exists|k: int|
            0 <= k < channel_streams(e, addrs, shortest, ch, n).len() && ({
                let s = #[trigger] channel_streams(e, addrs, shortest, ch, n)[k];
                &&& s.encoder == e.live@[i].encoder
                &&& s.frame == e.live@[i].key.frame
                &&& s.mode == e.live@[i].key.mode
                &&& s.dests == stream_dests(
                    e.send_routing.seq(),
                    addrs,
                    e.peer_enc_prefs.map(),
                    e.enc_params,
                    shortest,
                    e.live@[i].key,
                    e.send_routing.seq().len() as int,
                )
            }),
        channel_streams(e, addrs, shortest, ch, n).len() == count(
            n,
            |j: int| e.live@[j].key.ch == ch,
        ),
    decreases n,
{
    let all = channel_streams(e, addrs, shortest, ch, n);
    let rest = channel_streams(e, addrs, shortest, ch, n - 1);
    lemma_channel_streams_counted(e, addrs, shortest, ch, n);
    if e.live@[i].key.ch == ch {
        if i == n - 1 {
            assert(all[rest.len() as int].encoder == e.live@[i].encoder);
        } else {
            law_a_channel_s_streams_are_its_live_ones(e, addrs, shortest, ch, n - 1, i);
            let k = choose|k: int|
                0 <= k < rest.len() && ({
                    let s = #[trigger] rest[k];
                    &&& s.encoder == e.live@[i].encoder
                    &&& s.frame == e.live@[i].key.frame
                    &&& s.mode == e.live@[i].key.mode
                    &&& s.dests == stream_dests(
                        e.send_routing.seq(),
                        addrs,
                        e.peer_enc_prefs.map(),
                        e.enc_params,
                        shortest,
                        e.live@[i].key,
                        e.send_routing.seq().len() as int,
                    )
                });
            assert(all[k] == rest[k]);
        }
    }
}

proof fn lemma_channel_streams_counted(
    e: &CaptureEngine,
    addrs: Map<Seq<char>, u64>,
    shortest: usize,
    ch: int,
    n: int,
)
    requires
        n <= e.live@.len(),
    ensures
        channel_streams(e, addrs, shortest, ch, n).len() == count(
            n,
            |j: int| e.live@[j].key.ch == ch,
        ),
    decreases n,
{
    if n > 0 {
        lemma_channel_streams_counted(e, addrs, shortest, ch, n - 1);
    }
}

proof fn lemma_entry_tasks(
    entry: int,
    ch: int,
    frame: int,
    list: Seq<SendStream>,
    n: int,
    t: EncodeTask,
)
    requires
        0 <= entry <= usize::MAX,
        0 <= ch <= usize::MAX,
        0 <= n <= list.len() <= usize::MAX,
    ensures
        entry_tasks(entry, ch, frame, list, n).contains(t) <==> t.entry == entry && t.ch == ch
            && t.stream < n && list[t.stream as int].frame == frame && t.encoder
            == list[t.stream as int].encoder,
    decreases n,
{
    if n > 0 {
        lemma_entry_tasks(entry, ch, frame, list, n - 1, t);
        let rest = entry_tasks(entry, ch, frame, list, n - 1);
        let all = entry_tasks(entry, ch, frame, list, n);
        if all.contains(t) {
            let k = choose|k: int| 0 <= k < all.len() && all[k] == t;
            if k < rest.len() {
                assert(rest[k] == t);
                assert(rest.contains(t));
            }
        }
        if rest.contains(t) {
            let k = choose|k: int| 0 <= k < rest.len() && rest[k] == t;
            assert(all[k] == t);
        }
        if all.len() > rest.len() {
            assert(all[rest.len() as int] == (EncodeTask {
                entry: entry as usize,
                ch: ch as usize,
                stream: (n - 1) as usize,
                encoder: list[n - 1].encoder,
            }));
        }
    }
}

/// Every captured frame is encoded by every stream of its channel that has its size, and by no
/// other.
pub proof fn law_every_frame_is_encoded_by_its_streams(
    entries: Seq<(usize, usize)>,
    streams: Seq<Vec<SendStream>>,
    t: EncodeTask,
    n: int,
)
    requires
        0 <= n <= entries.len() <= usize::MAX,
    ensures
        job_tasks(entries, streams, n).contains(t) <==> {
            &&& t.entry < n
            &&& t.ch == entries[t.entry as int].0
            &&& t.ch < streams.len()
            &&& t.stream < streams[t.ch as int]@.len()
            &&& streams[t.ch as int]@[t.stream as int].frame == entries[t.entry as int].1
            &&& t.encoder == streams[t.ch as int]@[t.stream as int].encoder
        },
    decreases n,
{
    if n > 0 {
        law_every_frame_is_encoded_by_its_streams(entries, streams, t, n - 1);
        let (ch, frame) = entries[n - 1];
        let rest = job_tasks(entries, streams, n - 1);
        let all = job_tasks(entries, streams, n);
        if ch < streams.len() {
            let list = streams[ch as int]@;
            assert(streams[ch as int].len() == list.len());
            let last = entry_tasks(n - 1, ch as int, frame as int, list, list.len() as int);
            lemma_entry_tasks(n - 1, ch as int, frame as int, list, list.len() as int, t);
            if all.contains(t) {
                let k = choose|k: int| 0 <= k < all.len() && all[k] == t;
                if k < rest.len() {
                    assert(rest[k] == t);
                    assert(rest.contains(t));
                } else {
                    assert(last[k - rest.len()] == t);
                    assert(last.contains(t));
                }
            }
            if rest.contains(t) {
                let k = choose|k: int| 0 <= k < rest.len() && rest[k] == t;
                assert(all[k] == t);
            }
            if last.contains(t) {
                let k = choose|k: int| 0 <= k < last.len() && last[k] == t;
                assert(all[rest.len() + k] == t);
            }
        }
    }
}

/// A sealed packet is the sealed payload behind the header, the header marked encrypted and
/// carrying the payload's length low byte first, and otherwise as it was.
pub proof fn law_a_sealed_packet_is_marked_and_measured(header: Seq<u8>, blob: Seq<u8>, i: int)
    requires
        header.len() >= 21,
        0 <= i < header.len(),
    ensures
        ({
            let p = sealed_packet(header, blob);
            &&& p.len() == header.len() + blob.len()
            &&& p.subrange(header.len() as int, p.len() as int) == blob
            &&& p[8] & 0x80 == 0x80
            &&& p[8] & 0x7f == header[8] & 0x7f
            &&& blob.len() < 65536 ==> p[19] + 256 * p[20] == blob.len()
            &&& i != 8 && i != 19 && i != 20 ==> p[i] == header[i]
        }),
{
    let p = sealed_packet(header, blob);
    assert(p.subrange(header.len() as int, p.len() as int) =~= blob);
    let f = header[8];
    assert((f | 0x80u8) & 0x80 == 0x80) by (bit_vector);
    assert((f | 0x80u8) & 0x7f == f & 0x7f) by (bit_vector);
}

/// What leaves is the packet itself where it is plain, and nothing where it may not leave in
/// the clear; what is counted is what leaves and the 28 bytes around it.
pub proof fn law_what_leaves_is_counted(
    pkt: Vec<u8>,
    header_len: usize,
    n: usize,
    seal: Seal,
    sent: Option<(Vec<u8>, u64)>,
)
    requires
        header_len >= 21,
        header_len + n <= pkt@.len(),
        call_ensures(transmit_audio, (&pkt, header_len, n, seal), sent),
    ensures
        sent is None <==> seal is Drop,
        sent matches Some(s) ==> s.1 == s.0@.len() + 28,
        (seal is Plaintext && sent is Some) ==> sent->Some_0.0@ == pkt@.subrange(0, header_len + n),
        (seal matches Seal::Sealed(blob) && sent is Some) ==> sent->Some_0.0@.len() == header_len
            + seal->Sealed_0@.len() && sent->Some_0.0@.subrange(
            header_len as int,
            sent->Some_0.0@.len() as int,
        ) == seal->Sealed_0@,
{
    if let Seal::Sealed(blob) = seal {
        let header = pkt@.subrange(0, header_len as int);
        law_a_sealed_packet_is_marked_and_measured(header, blob@, 0);
    }
}

/// Only "voice" names voice.
pub proof fn law_only_voice_names_voice(name: &str, mode: AudioMode)
    requires
        call_ensures(mode_named, (name,), mode),
    ensures
        mode == AudioMode::Voice <==> name@ == "voice"@,
{
}

/// An encoder takes frames of its own size alone, and a refused one leaves no packet behind;
/// a packet is handed over once.
pub proof fn law_an_encoder_takes_its_own_frames(
    e: &mut ChannelEncoder,
    len: usize,
    ok: bool,
    t: &mut ChannelEncoder,
    result: Option<(u16, usize)>,
)
    requires
        call_ensures(ChannelEncoder::accepts, (e, len), ok),
        call_ensures(ChannelEncoder::take_pending, (t,), result),
    ensures
        ok <==> len == old(e).frame_samples,
        ok ==> final(e).pending == old(e).pending,
        !ok ==> final(e).pending is None,
        final(e).seq == old(e).seq && final(e).frame_samples == old(e).frame_samples,
        result == old(t).pending,
        final(t).pending is None,
        final(t).seq == old(t).seq && final(t).frame_samples == old(t).frame_samples,
{
}

/// The input is asked for the period that was last asked for, and never for less than the
/// shortest; what is in force is at most 10 ms.
pub proof fn law_the_input_keeps_its_period(
    e: &mut CaptureEngine,
    asked: Option<usize>,
    shortest: usize,
    request: usize,
    frames: usize,
)
    requires
        call_ensures(CaptureEngine::request_input_frames, (e, asked, shortest), request),
        call_ensures(CaptureEngine::current_input_frames, (final(e),), frames),
    ensures
        request >= shortest,
        asked matches Some(f) ==> f >= shortest ==> request == f,
        asked is None && old(e).input_request >= shortest ==> request == old(e).input_request,
        request > shortest ==> asked == Some(request) || (asked is None && request
            == old(e).input_request),
        final(e).input_request == request,
        frames <= 480,
        request <= 480 ==> frames == request,
        request > 480 ==> frames == 480,
        final(e).live == old(e).live && final(e).send_routing == old(e).send_routing,
{
}

/// An open is tried again only where the device was held and there was a stream before.
pub proof fn law_only_a_held_device_is_tried_again(busy: bool, had_stream: bool, retry: bool)
    requires
        call_ensures(retry_open, (busy, had_stream), retry),
    ensures
        retry <==> busy && had_stream,
{
}

/// A new bitrate counts for the encoders to come and is handed to the live ones as bits a
/// second; zero leaves it to them. Nothing else moves.
pub proof fn law_a_bitrate_reaches_every_encoder(e: &mut CaptureEngine, kbps: u32, b: Bitrate)
    requires
        kbps * 1000 <= i32::MAX,
        call_ensures(CaptureEngine::set_bitrate_hot, (e, kbps), b),
    ensures
        final(e).enc_params.bitrate_kbps == kbps,
        kbps == 0 <==> b == Bitrate::Auto,
        b matches Bitrate::Bits(n) ==> n == kbps * 1000,
        final(e).enc_params.frame_samples == old(e).enc_params.frame_samples,
        final(e).enc_params.mode == old(e).enc_params.mode,
        final(e).live == old(e).live && final(e).peer_enc_prefs == old(e).peer_enc_prefs,
{
}

/// A new frame size or mode counts for every remote, those with a preference of their own too;
/// what it does not name stays.
pub proof fn law_a_new_frame_size_counts_for_everyone(
    e: &mut CaptureEngine,
    frame: Option<usize>,
    mode: Option<AudioMode>,
    done: (),
    peer: Seq<char>,
    shortest: usize,
)
    requires
        call_ensures(CaptureEngine::reinit_encoders, (e, frame, mode), done),
    ensures
        ({
            let before = params_of(old(e).peer_enc_prefs.map(), old(e).enc_params, peer, shortest);
            let after = params_of(final(e).peer_enc_prefs.map(), final(e).enc_params, peer, shortest);
            &&& frame matches Some(f) ==> after.0 == (if f < shortest {
                shortest
            } else {
                f
            })
            &&& frame is None ==> after.0 == before.0
            &&& mode matches Some(m) ==> after.1 == m
            &&& mode is None ==> after.1 == before.1
            &&& final(e).enc_params.bitrate_kbps == old(e).enc_params.bitrate_kbps
            &&& final(e).send_routing == old(e).send_routing && final(e).live == old(e).live
        }),
{
}

/// A remote's own preference is what it is sent by from then on, and no other remote notices.
pub proof fn law_a_preference_is_one_remote_s(
    e: &mut CaptureEngine,
    peer: &str,
    frame: usize,
    mode: AudioMode,
    done: (),
    other: Seq<char>,
    shortest: usize,
)
    requires
        call_ensures(CaptureEngine::set_peer_enc_prefs, (e, peer, frame, mode), done),
        frame >= shortest,
    ensures
        params_of(final(e).peer_enc_prefs.map(), final(e).enc_params, peer@, shortest) == (
            frame,
            mode,
        ),
        other != peer@ ==> params_of(
            final(e).peer_enc_prefs.map(),
            final(e).enc_params,
            other,
            shortest,
        ) == params_of(old(e).peer_enc_prefs.map(), old(e).enc_params, other, shortest),
        final(e).send_routing == old(e).send_routing,
{
}

/// A removed remote is sent nothing any more and keeps no preference; every other remote is
/// sent what it was.
pub proof fn law_a_removed_remote_is_forgotten(
    e: &mut CaptureEngine,
    peer: &str,
    done: (),
    other: Seq<char>,
)
    requires
        old(e).well_formed(),
        call_ensures(CaptureEngine::remove_peer, (e, peer), done),
    ensures
        !final(e).send_routing.map().dom().contains(peer@),
        !final(e).peer_enc_prefs.map().dom().contains(peer@),
        other != peer@ ==> {
            &&& final(e).send_routing.map().dom().contains(other)
                == old(e).send_routing.map().dom().contains(other)
            &&& old(e).send_routing.map().dom().contains(other)
                ==> final(e).send_routing.map()[other]@ == old(e).send_routing.map()[other]@
        },
{
    assert(final(e).composed_for(peer@));
    assert(final(e).composed_for(other));
    assert(old(e).composed_for(other));
    assert(composed_routes(Seq::empty(), Seq::empty(), final(e).num_out_ch as int) =~= Seq::empty());
    assert(final(e).routes_of(peer@) =~= Seq::empty());
    if other != peer@ {
        assert(final(e).routes_of(other) == old(e).routes_of(other));
    }
}

/// New signal routes of a remote are what it is sent on every slot without tone, and no other
/// remote notices.
pub proof fn law_new_routes_are_sent(
    e: &mut CaptureEngine,
    peer: &str,
    routes: Vec<RouteEntry>,
    done: (),
    slot: int,
    other: Seq<char>,
)
    requires
        old(e).well_formed(),
        !old(e).tone_dests.map().dom().contains(peer@),
        routes@.len() > 0,
        0 <= slot < 256,
        call_ensures(CaptureEngine::set_send_routing, (e, peer, routes), done),
    ensures
        final(e).send_routing.map().dom().contains(peer@),
        final(e).send_routing.map()[peer@]@[slot] == slot_table(routes@)[slot],
        other != peer@ && old(e).send_routing.map().dom().contains(other)
            ==> final(e).send_routing.map().dom().contains(other)
            && final(e).send_routing.map()[other]@ == old(e).send_routing.map()[other]@,
{
    law_a_remote_is_sent_its_tone_and_its_signal(final(e), peer@, slot);
    assert(final(e).composed_for(other));
    assert(old(e).composed_for(other));
    if other != peer@ {
        assert(final(e).routes_of(other) == old(e).routes_of(other));
    }
}

/// A tone leg that is put on a slot is what that slot carries, whatever the signal; tone that
/// is all off leaves the signal.
pub proof fn law_a_tone_leg_is_sent(
    e: &mut CaptureEngine,
    peer: &str,
    slots: Vec<u8>,
    done: (),
    slot: int,
)
    requires
        old(e).well_formed(),
        call_ensures(CaptureEngine::set_tone_routing, (e, peer, slots), done),
        0 <= slot < 128,
    ensures
        slot < slots@.len() && slots@[slot] != 0
            ==> final(e).send_routing.map().dom().contains(peer@)
            && final(e).send_routing.map()[peer@]@[slot] == Some(
            (old(e).num_out_ch + slots@[slot] - 1) as u8,
        ),
        (forall|i: int| 0 <= i < slots@.len()
            ==> slots@[i] == 0) && old(e).signal_routes.map().dom().contains(peer@)
            && old(e).signal_routes.map()[peer@]@.len() > 0
            ==> final(e).send_routing.map().dom().contains(peer@)
                && final(e).send_routing.map()[peer@]@[slot]
                == slot_table(old(e).signal_routes.map()[peer@]@)[slot],
{
    let before = old(e).tone_dests.map();
    let after = final(e).tone_dests.map();
    if forall|i: int| 0 <= i < slots@.len() ==> slots@[i] == 0 {
        assert(after == before.remove(peer@));
        assert(!after.dom().contains(peer@));
    } else {
        assert(after == before.insert(peer@, slots));
        assert(after.dom().contains(peer@) && after[peer@] == slots);
    }
    assert(final(e).num_out_ch == old(e).num_out_ch);
    assert(final(e).signal_routes == old(e).signal_routes);
    law_a_remote_is_sent_its_tone_and_its_signal(final(e), peer@, slot);
}

/// The slots of a source are listed in ascending order.
pub proof fn law_fed_slots_ascend(table: Seq<Option<u8>>, src: u8, n: int)
    requires
        0 <= n <= 256,
    ensures
        forall|a: int| 0 <= a < slots_fed(table, src, n).len()
            ==> #[trigger] slots_fed(table, src, n)[a] < n,
        forall|a: int, b: int|
            0 <= a < b < slots_fed(table, src, n).len() ==> #[trigger] slots_fed(table, src, n)[a]
                < #[trigger] slots_fed(table, src, n)[b],
    decreases n,
{
    if n > 0 {
        law_fed_slots_ascend(table, src, n - 1);
        let rest = slots_fed(table, src, n - 1);
        let all = slots_fed(table, src, n);
        assert forall|a: int| 0 <= a < all.len() implies #[trigger] all[a] < n by {
            if a < rest.len() {
                assert(all[a] == rest[a]);
            }
        }
        assert forall|a: int, b: int| 0 <= a < b < all.len() implies #[trigger] all[a]
            < #[trigger] all[b] by {
            assert(all[a] == rest[a]);
            if b < rest.len() {
                assert(all[b] == rest[b]);
            }
        }
    }
}

/// Frames are encoded in the order they came, each by its channel's streams in theirs.
pub proof fn law_frames_are_encoded_in_order(
    entries: Seq<(usize, usize)>,
    streams: Seq<Vec<SendStream>>,
    n: int,
)
    requires
        0 <= n <= entries.len() <= usize::MAX,
    ensures
        ({
            let all = job_tasks(entries, streams, n);
            &&& forall|a: int| 0 <= a < all.len() ==> (#[trigger] all[a]).entry < n
            &&& forall|a: int, b: int|
                0 <= a < b < all.len()
                    ==> (#[trigger] all[a]).entry < (#[trigger] all[b]).entry || (
                all[a].entry == all[b].entry && all[a].stream < all[b].stream)
        }),
    decreases n,
{
    if n > 0 {
        law_frames_are_encoded_in_order(entries, streams, n - 1);
        let (ch, frame) = entries[n - 1];
        let rest = job_tasks(entries, streams, n - 1);
        let all = job_tasks(entries, streams, n);
        if ch < streams.len() {
            let list = streams[ch as int]@;
            let more = entry_tasks(n - 1, ch as int, frame as int, list, list.len() as int);
            assert(streams[ch as int]@.len() == streams[ch as int].len());
            lemma_entry_in_order(n - 1, ch as int, frame as int, list, list.len() as int);
            assert forall|a: int, b: int| 0 <= a < b < all.len() implies (
            #[trigger] all[a]).entry < (#[trigger] all[b]).entry || (all[a].entry == all[b].entry
                && all[a].stream < all[b].stream) by {
                if b < rest.len() {
                    assert(all[a] == rest[a] && all[b] == rest[b]);
                } else {
                    assert(all[b] == more[b - rest.len()]);
                    if a < rest.len() {
                        assert(all[a] == rest[a]);
                    } else {
                        assert(all[a] == more[a - rest.len()]);
                    }
                }
            }
            assert forall|a: int| 0 <= a < all.len() implies (#[trigger] all[a]).entry < n by {
                if a < rest.len() {
                    assert(all[a] == rest[a]);
                } else {
                    assert(all[a] == more[a - rest.len()]);
                }
            }
        }
    }
}

proof fn lemma_entry_in_order(entry: int, ch: int, frame: int, list: Seq<SendStream>, n: int)
    requires
        0 <= entry <= usize::MAX,
        0 <= n <= list.len() <= usize::MAX,
    ensures
        ({
            let all = entry_tasks(entry, ch, frame, list, n);
            &&& forall|a: int|
                0 <= a < all.len() ==> (#[trigger] all[a]).entry == entry && all[a].stream < n
            &&& forall|a: int, b: int|
                0 <= a < b < all.len() ==> (#[trigger] all[a]).stream < (#[trigger] all[b]).stream
        }),
    decreases n,
{
    if n > 0 {
        lemma_entry_in_order(entry, ch, frame, list, n - 1);
        let rest = entry_tasks(entry, ch, frame, list, n - 1);
        let all = entry_tasks(entry, ch, frame, list, n);
        assert forall|a: int, b: int| 0 <= a < b < all.len() implies (#[trigger] all[a]).stream < (
        #[trigger] all[b]).stream by {
            assert(all[a] == rest[a]);
            if b < rest.len() {
                assert(all[b] == rest[b]);
            }
        }
        assert forall|a: int| 0 <= a < all.len() implies (#[trigger] all[a]).entry == entry
            && all[a].stream < n by {
            if a < rest.len() {
                assert(all[a] == rest[a]);
            }
        }
    }
}

/// A stream has one destination for each slot that it feeds, and no more: as many as there are
/// such slots with a known remote that is sent at its frame size and mode.
pub proof fn law_each_fed_slot_is_one_destination(
    routing: Seq<(Seq<char>, PeerSendRouting)>,
    addrs: Map<Seq<char>, u64>,
    prefs: Map<Seq<char>, (usize, AudioMode)>,
    p: EncoderParams,
    shortest: usize,
    k: StreamKey,
    n: int,
)
    requires
        0 <= n <= routing.len(),
    ensures
        stream_dests(routing, addrs, prefs, p, shortest, k, n).len() == sum(
            n,
            |i: int|
                addrs.dom().contains(routing[i].0) && params_of(prefs, p, routing[i].0, shortest)
                    == (k.frame, k.mode),
            |i: int| count(128, |s: int| routing[i].1@[s] == Some(k.ch as u8)),
        ),
    decreases n,
{
    if n > 0 {
        law_each_fed_slot_is_one_destination(routing, addrs, prefs, p, shortest, k, n - 1);
        let (peer, table) = routing[n - 1];
        lemma_peer_dests_count(peer, addrs[peer], table@, k.ch as u8, 128);
        assert((|s: int| routing[n - 1].1@[s] == Some(k.ch as u8)) =~= (|s: int|
            table@[s] == Some(k.ch as u8)));
    }
}

proof fn lemma_peer_dests_count(
    peer: Seq<char>,
    addr: u64,
    table: Seq<Option<u8>>,
    ch: u8,
    n: int,
)
    requires
        0 <= n <= 128,
    ensures
        peer_dests(peer, addr, table, ch, n).len() == count(n, |s: int| table[s] == Some(ch)),
    decreases n,
{
    if n > 0 {
        lemma_peer_dests_count(peer, addr, table, ch, n - 1);
    }
}

} // verus!
