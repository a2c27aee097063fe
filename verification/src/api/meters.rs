//! Meter snapshots: when they are published, and which peak a channel shows.

use vstd::prelude::*;

use crate::api::late::ChannelInfo;
use crate::audio::sample::SILENCE;
use crate::names::{as_map, has_name, in_name_order, lemma_name_stands_once, NameMap};

verus! {

/// What to do at a meter tick.
#[derive(Clone, Copy, Debug, PartialEq, Eq, Structural)]
pub enum MeterAction {
    /// Nobody watches: read and reset nothing.
    Idle,
    /// Drain the accumulators and drop what they held from before.
    Drain,
    /// Drain the accumulators and publish what they held.
    Publish,
}

/// The meter publisher: whether the last tick was watched.
#[derive(Clone, Copy, Debug, PartialEq, Eq, Structural)]
pub struct MeterGate {
    pub active: bool,
}

impl MeterGate {
    pub fn new() -> (g: Self)
        ensures
            !g.active,
    {
        MeterGate { active: false }
    }

    /// The first watched tick after an idle one publishes nothing, so that no maximum from
    /// before reaches a viewer.
    pub fn tick(&mut self, watched: bool) -> (a: MeterAction)
        ensures
            final(self).active == watched,
            a == (if !watched {
                MeterAction::Idle
            } else if old(self).active {
                MeterAction::Publish
            } else {
                MeterAction::Drain
            }),
    {
        if !watched {
            self.active = false;
            return MeterAction::Idle;
        }
        let was: bool = self.active;
        self.active = true;
        if was {
            MeterAction::Publish
        } else {
            MeterAction::Drain
        }
    }
}

/// A channel's number and whether it is routed.
pub open spec fn channel_view(c: ChannelInfo) -> (int, bool) {
    (c.channel as int, c.routed)
}

pub open spec fn channel_views(s: Seq<ChannelInfo>) -> Seq<(int, bool)> {
    Seq::new(s.len(), |i: int| channel_view(s[i]))
}

/// A peak by index; silence past the end.
pub open spec fn peak_at(peaks: Seq<u32>, i: int) -> u32 {
    if 0 <= i < peaks.len() {
        peaks[i]
    } else {
        SILENCE
    }
}

/// Peaks with silence appended up to `n` of them.
pub open spec fn reaching(peaks: Seq<u32>, n: int) -> Seq<u32> {
    if peaks.len() >= n {
        peaks
    } else {
        peaks + Seq::new((n - peaks.len()) as nat, |i: int| SILENCE)
    }
}

/// One remote's peaks after the first `n` of its channels: a routed channel keeps its
/// post-buffer peak, an unrouted one takes its pre-decode peak.
pub open spec fn selected(post: Seq<u32>, pre: Seq<u32>, channels: Seq<(int, bool)>, n: int) -> Seq<
    u32,
>
    decreases n,
{
    if n <= 0 {
        post
    } else {
        let (ch, routed) = channels[n - 1];
        let p = reaching(selected(post, pre, channels, n - 1), ch + 1);
        if routed {
            p
        } else {
            p.update(ch, peak_at(pre, ch))
        }
    }
}

/// One remote's peaks, each channel from exactly one source. `post` are the peaks behind the
/// receive buffers, `pre` those before decoding.
pub fn select_peaks(post: Vec<u32>, pre: &Vec<u32>, channels: &Vec<ChannelInfo>) -> (peaks: Vec<u32>)
    ensures
        peaks@ == selected(
            post@,
            pre@,
            channel_views(channels@),
            channels@.len() as int,
        ),
{
    let ghost start = post@;
    let mut peaks: Vec<u32> = post;
    let mut i: usize = 0;
    while i < channels.len()
        invariant
            i <= channels@.len(),
            peaks@ == selected(start, pre@, channel_views(channels@), i as int),
        decreases channels@.len() - i,
    {
        let ghost held = peaks@;
        let idx: usize = channels[i].channel as usize;
        while peaks.len() <= idx
            invariant
                idx <= 255,
                held.len() <= peaks@.len(),
                peaks@.len() > held.len() ==> peaks@.len() <= idx + 1,
                forall|j: int| 0 <= j < held.len() ==> #[trigger] peaks@[j] == held[j],
                forall|j: int| held.len() <= j < peaks@.len() ==> #[trigger] peaks@[j] == SILENCE,
            decreases idx + 1 - peaks@.len(),
        {
            peaks.push(SILENCE);
        }
        assert(peaks@ =~= reaching(held, idx + 1));
        if !channels[i].routed {
            let v: u32 = if idx < pre.len() {
                pre[idx]
            } else {
                SILENCE
            };
            peaks.set(idx, v);
        }
        i = i + 1;
        assert(channel_views(channels@)[i - 1] == channel_view(channels@[i - 1]));
    }
    peaks
}

/// The peaks a remote starts from: none where it has none yet.
pub open spec fn peaks_in(m: Map<Seq<char>, Vec<u32>>, name: Seq<char>) -> Seq<u32> {
    if m.dom().contains(name) {
        m[name]@
    } else {
        Seq::empty()
    }
}

/// What one remote shows in the snapshot.
pub open spec fn shown(
    post: Map<Seq<char>, Vec<u32>>,
    pre: Map<Seq<char>, Vec<u32>>,
    channels: Map<Seq<char>, Vec<ChannelInfo>>,
    name: Seq<char>,
) -> Seq<u32> {
    if channels.dom().contains(name) {
        selected(
            peaks_in(post, name),
            peaks_in(pre, name),
            channel_views(channels[name]@),
            channels[name]@.len() as int,
        )
    } else {
        peaks_in(post, name)
    }
}

fn copy_peaks(p: &Vec<u32>) -> (c: Vec<u32>)
    ensures
        c@ == p@,
{
    let mut c: Vec<u32> = Vec::new();
    let mut i: usize = 0;
    while i < p.len()
        invariant
            i <= p@.len(),
            c@ == p@.subrange(0, i as int),
        decreases p@.len() - i,
    {
        c.push(p[i]);
        i = i + 1;
        assert(c@ =~= p@.subrange(0, i as int));
    }
    assert(c@ =~= p@);
    c
}

/// A name stands among the first `n` entries.
spec fn stands_before<T>(entries: Seq<(Seq<char>, T)>, n: int, name: Seq<char>) -> bool {
    exists|k: int| 0 <= k < n && #[trigger] entries[k].0 == name
}

proof fn lemma_stands_before_next<T>(entries: Seq<(Seq<char>, T)>, n: int)
    requires
        in_name_order(entries),
        0 <= n < entries.len(),
    ensures
        forall|name: Seq<char>| #[trigger]
            stands_before(entries, n + 1, name) <==> name == entries[n].0 || stands_before(
                entries,
                n,
                name,
            ),
        !stands_before(entries, n, entries[n].0),
        has_name(entries, entries[n].0),
        as_map(entries)[entries[n].0] == entries[n].1,
{
    lemma_name_stands_once(entries, entries[n].0, n);
    assert forall|name: Seq<char>| #[trigger]
        stands_before(entries, n + 1, name) <==> name == entries[n].0 || stands_before(
            entries,
            n,
            name,
        ) by {
        if stands_before(entries, n + 1, name) {
            let k = choose|k: int| 0 <= k < n + 1 && #[trigger] entries[k].0 == name;
            assert(entries[k].0 == name);
            assert(k == n || k < n);
        }
        if stands_before(entries, n, name) {
            let k = choose|k: int| 0 <= k < n && #[trigger] entries[k].0 == name;
            assert(entries[k].0 == name && 0 <= k < n + 1);
        }
        if name == entries[n].0 {
            assert(entries[n].0 == name);
        }
    }
    if stands_before(entries, n, entries[n].0) {
        let k = choose|k: int| 0 <= k < n && #[trigger] entries[k].0 == entries[n].0;
        lemma_name_stands_once(entries, entries[n].0, k);
    }
}

proof fn lemma_stands_at_the_end<T>(entries: Seq<(Seq<char>, T)>)
    ensures
        forall|name: Seq<char>| #[trigger]
            stands_before(entries, entries.len() as int, name) <==> has_name(entries, name),
{
    assert forall|name: Seq<char>| #[trigger]
        stands_before(entries, entries.len() as int, name) <==> has_name(entries, name) by {
        if has_name(entries, name) {
            let k = choose|k: int| 0 <= k < entries.len() && #[trigger] entries[k].0 == name;
            assert(entries[k].0 == name);
        }
    }
}

/// The incoming part of a snapshot, from drained peaks: every remote with peaks behind its
/// buffers or with announced channels, each channel from its one source.
pub fn drain_peaks(
    post: &NameMap<Vec<u32>>,
    pre: &NameMap<Vec<u32>>,
    channels: &NameMap<Vec<ChannelInfo>>,
) -> (incoming: NameMap<Vec<u32>>)
    requires
        post.well_formed(),
        pre.well_formed(),
        channels.well_formed(),
    ensures
        incoming.well_formed(),
        incoming.map().dom() == post.map().dom().union(channels.map().dom()),
        forall|name: Seq<char>| #[trigger]
            incoming.map().dom().contains(name) ==> incoming.map()[name]@ == shown(
                post.map(),
                pre.map(),
                channels.map(),
                name,
            ),
{
    let mut out: NameMap<Vec<u32>> = NameMap::new();
    let mut i: usize = 0;
    let n: usize = post.len();
    // Every remote with peaks behind its buffers.
    while i < n
        invariant
            i <= n,
            n == post.seq().len(),
            post.well_formed(),
            out.well_formed(),
            forall|name: Seq<char>| #[trigger]
                out.map().dom().contains(name) <==> stands_before(post.seq(), i as int, name),
            forall|name: Seq<char>| #[trigger]
                out.map().dom().contains(name) ==> out.map()[name]@ == post.map()[name]@,
        decreases n - i,
    {
        let (name, peaks) = post.entry(i);
        proof {
            lemma_stands_before_next(post.seq(), i as int);
        }
        out.insert(name, copy_peaks(peaks));
        i = i + 1;
    }
    proof {
        lemma_stands_at_the_end(post.seq());
    }
    assert(out.map().dom() =~= post.map().dom());
    // Every remote with announced channels.
    let m: usize = channels.len();
    let mut j: usize = 0;
    while j < m
        invariant
            j <= m,
            m == channels.seq().len(),
            post.well_formed(),
            pre.well_formed(),
            channels.well_formed(),
            out.well_formed(),
            forall|name: Seq<char>| #[trigger]
                out.map().dom().contains(name) <==> post.map().dom().contains(name)
                    || stands_before(channels.seq(), j as int, name),
            forall|name: Seq<char>| #[trigger]
                out.map().dom().contains(name) ==> out.map()[name]@ == (if stands_before(
                    channels.seq(),
                    j as int,
                    name,
                ) {
                    shown(post.map(), pre.map(), channels.map(), name)
                } else {
                    peaks_in(post.map(), name)
                }),
        decreases m - j,
    {
        let (name, list) = channels.entry(j);
        proof {
            lemma_stands_before_next(channels.seq(), j as int);
        }
        let start: Vec<u32> = match post.get(name) {
            Some(p) => copy_peaks(p),
            None => Vec::new(),
        };
        assert(start@ =~= peaks_in(post.map(), name@));
        let none: Vec<u32> = Vec::new();
        let before: &Vec<u32> = match pre.get(name) {
            Some(p) => p,
            None => &none,
        };
        assert(before@ =~= peaks_in(pre.map(), name@));
        let peaks: Vec<u32> = select_peaks(start, before, list);
        assert(peaks@ == shown(post.map(), pre.map(), channels.map(), name@));
        out.insert(name, peaks);
        j = j + 1;
    }
    proof {
        lemma_stands_at_the_end(channels.seq());
    }
    assert(out.map().dom() =~= post.map().dom().union(channels.map().dom()));
    out
}

/// The channel numbers differ.
pub open spec fn channels_differ(channels: Seq<(int, bool)>) -> bool {
    forall|i: int, j: int|
        0 <= i < j < channels.len() ==> (#[trigger] channels[i]).0 != (#[trigger] channels[j]).0
}

proof fn lemma_selected_at(
    post: Seq<u32>,
    pre: Seq<u32>,
    channels: Seq<(int, bool)>,
    n: int,
    ch: int,
)
    requires
        0 <= n <= channels.len(),
        forall|i: int| 0 <= i < channels.len() ==> (#[trigger] channels[i]).0 >= 0,
        forall|i: int| 0 <= i < n ==> (#[trigger] channels[i]).0 != ch,
    ensures
        peak_at(selected(post, pre, channels, n), ch) == peak_at(post, ch),
    decreases n,
{
    if n > 0 {
        lemma_selected_at(post, pre, channels, n - 1, ch);
        assert(channels[n - 1].0 != ch);
    }
}

/// Every announced channel shows exactly one source: behind the buffer where it is routed,
/// before decoding where it is not.
pub proof fn law_routing_selects_the_peak(
    post: Seq<u32>,
    pre: Seq<u32>,
    channels: Seq<(int, bool)>,
    i: int,
    n: int,
)
    requires
        channels_differ(channels),
        forall|j: int| 0 <= j < channels.len() ==> (#[trigger] channels[j]).0 >= 0,
        0 <= i < n <= channels.len(),
    ensures
        peak_at(selected(post, pre, channels, n), channels[i].0) == (if channels[i].1 {
            peak_at(post, channels[i].0)
        } else {
            peak_at(pre, channels[i].0)
        }),
    decreases n,
{
    if i == n - 1 {
        assert forall|j: int| 0 <= j < n - 1 implies (#[trigger] channels[j]).0 != channels[i].0 by {
            assert(channels[j].0 != channels[i].0);
        }
        lemma_selected_at(post, pre, channels, n - 1, channels[i].0);
    } else {
        law_routing_selects_the_peak(post, pre, channels, i, n - 1);
        assert(channels[i].0 != channels[n - 1].0);
    }
}

/// Channels that are not announced show what is behind the buffers, and a remote shows every
/// channel that it announced or has peaks of.
pub proof fn law_other_channels_show_what_is_behind_the_buffers(
    post: Seq<u32>,
    pre: Seq<u32>,
    channels: Seq<(int, bool)>,
    n: int,
    ch: int,
)
    requires
        0 <= n <= channels.len(),
        forall|i: int| 0 <= i < channels.len() ==> (#[trigger] channels[i]).0 >= 0,
    ensures
        (forall|i: int| 0 <= i < n ==> (#[trigger] channels[i]).0 != ch) && 0 <= ch < post.len()
            ==> selected(post, pre, channels, n)[ch] == post[ch],
        selected(post, pre, channels, n).len() >= post.len(),
        forall|i: int|
            0 <= i < n ==> selected(post, pre, channels, n).len() > (#[trigger] channels[i]).0,
        selected(post, pre, channels, n).len() == post.len() || exists|i: int|
            0 <= i < n && selected(post, pre, channels, n).len() == (#[trigger] channels[i]).0 + 1,
    decreases n,
{
    if n > 0 {
        law_other_channels_show_what_is_behind_the_buffers(post, pre, channels, n - 1, ch);
        let rest = selected(post, pre, channels, n - 1);
        let all = selected(post, pre, channels, n);
        let c = channels[n - 1].0;
        assert(all.len() == reaching(rest, c + 1).len());
        if all.len() != post.len() {
            if all.len() == rest.len() {
                let i = choose|i: int| 0 <= i < n - 1 && rest.len() == (#[trigger] channels[i]).0 + 1;
                assert(all.len() == channels[i].0 + 1);
            } else {
                assert(all.len() == channels[n - 1].0 + 1);
            }
        }
        if forall|i: int| 0 <= i < n ==> (#[trigger] channels[i]).0 != ch {
            assert(channels[n - 1].0 != ch);
        }
    }
}

/// A remote that announced no channels shows the peaks behind its buffers as they are; one
/// that has none of a kind starts from none.
pub proof fn law_a_remote_without_channels_shows_its_peaks(
    post: Map<Seq<char>, Vec<u32>>,
    pre: Map<Seq<char>, Vec<u32>>,
    channels: Map<Seq<char>, Vec<ChannelInfo>>,
    name: Seq<char>,
)
    ensures
        post.dom().contains(name) && !channels.dom().contains(name) ==> shown(
            post,
            pre,
            channels,
            name,
        ) == post[name]@,
        post.dom().contains(name) ==> peaks_in(post, name) == post[name]@,
        !post.dom().contains(name) ==> peaks_in(post, name).len() == 0,
{
}

/// Of a remote with channels, each one shows its own source: behind the buffer where it is
/// routed, before decoding where it is not, and silence where that source has no such
/// channel.
pub proof fn law_a_remote_shows_each_channel_from_its_source(
    post: Map<Seq<char>, Vec<u32>>,
    pre: Map<Seq<char>, Vec<u32>>,
    channels: Map<Seq<char>, Vec<ChannelInfo>>,
    name: Seq<char>,
    i: int,
)
    requires
        channels.dom().contains(name),
        post.dom().contains(name),
        pre.dom().contains(name),
        forall|a: int, b: int|
            0 <= a < b < channels[name]@.len() ==> (#[trigger] channels[name]@[a]).channel != (
            #[trigger] channels[name]@[b]).channel,
        0 <= i < channels[name]@.len(),
    ensures
        ({
            let c = channels[name]@[i];
            let ch = c.channel as int;
            let source = if c.routed {
                post[name]@
            } else {
                pre[name]@
            };
            let s = shown(post, pre, channels, name);
            &&& ch < s.len()
            &&& s[ch] == (if ch < source.len() {
                source[ch]
            } else {
                0
            })
        }),
{
    let views = channel_views(channels[name]@);
    let n = views.len() as int;
    assert forall|a: int, b: int| 0 <= a < b < n implies (#[trigger] views[a]).0 != (
    #[trigger] views[b]).0 by {
        assert(channels[name]@[a].channel != channels[name]@[b].channel);
    }
    law_routing_selects_the_peak(post[name]@, pre[name]@, views, i, n);
    law_other_channels_show_what_is_behind_the_buffers(post[name]@, pre[name]@, views, n, 0);
    assert(views[i] == channel_view(channels[name]@[i]));
}

/// Snapshots are published from the second watched tick on, and an unwatched one starts over.
pub proof fn law_the_first_watched_tick_publishes_nothing(
    g: &mut MeterGate,
    watched: bool,
    a: MeterAction,
)
    requires
        call_ensures(MeterGate::tick, (g, watched), a),
    ensures
        a == MeterAction::Publish <==> watched && old(g).active,
        a == MeterAction::Idle <==> !watched,
        final(g).active == watched,
{
}

} // verus!
