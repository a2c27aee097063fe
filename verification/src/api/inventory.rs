//! The device inventory: when the devices are listed anew, and what of it is news.

use vstd::prelude::*;
use vstd::string::*;

use crate::names::name_same;

verus! {

/// The service tick, in milliseconds.
pub const TICK_MS: u64 = 500;

/// Without a nudge the devices are listed this often, in milliseconds: listing them probes
/// inputs, which shows.
pub const ENUM_INTERVAL_MS: u64 = 60_000;

/// The known devices, by name.
pub struct DeviceInventory {
    pub inputs: Vec<String>,
    pub outputs: Vec<String>,
    /// The devices may have changed: list them at the next tick.
    pub dirty: bool,
    /// The devices have been listed at least once.
    pub populated: bool,
    /// Milliseconds since the last listing.
    pub since_ms: u64,
}

#[verifier::ext_equal]
pub struct Inventory {
    pub inputs: Seq<Seq<char>>,
    pub outputs: Seq<Seq<char>>,
    pub dirty: bool,
    pub populated: bool,
    pub since_ms: int,
}

pub open spec fn names_in(s: Seq<String>) -> Seq<Seq<char>> {
    Seq::new(s.len(), |i: int| s[i]@)
}

impl View for DeviceInventory {
    type V = Inventory;

    open spec fn view(&self) -> Inventory {
        Inventory {
            inputs: names_in(self.inputs@),
            outputs: names_in(self.outputs@),
            dirty: self.dirty,
            populated: self.populated,
            since_ms: self.since_ms as int,
        }
    }
}

/// Are two lists of names the same?
fn same_names(a: &Vec<String>, b: &Vec<String>) -> (same: bool)
    ensures
        same == (names_in(a@) == names_in(b@)),
{
    if a.len() != b.len() {
        assert(names_in(a@).len() != names_in(b@).len());
        return false;
    }
    let mut i: usize = 0;
    while i < a.len()
        invariant
            i <= a@.len(),
            a@.len() == b@.len(),
            forall|j: int| 0 <= j < i ==> (#[trigger] a@[j])@ == b@[j]@,
        decreases a@.len() - i,
    {
        if !name_same(a[i].as_str(), b[i].as_str()) {
            assert(names_in(a@)[i as int] != names_in(b@)[i as int]);
            return false;
        }
        i = i + 1;
    }
    assert(names_in(a@) =~= names_in(b@));
    true
}

/// A service tick: the inventory it leaves, and whether the devices are to be listed now.
pub open spec fn ticked(inv: Inventory) -> (Inventory, bool) {
    let since = inv.since_ms + TICK_MS;
    if inv.populated && !inv.dirty && since < ENUM_INTERVAL_MS {
        (Inventory { since_ms: since, ..inv }, false)
    } else {
        (Inventory { since_ms: 0, ..inv }, true)
    }
}

/// A finished listing: the inventory it leaves, and whether it is news.
pub open spec fn listed(inv: Inventory, inputs: Seq<Seq<char>>, outputs: Seq<Seq<char>>) -> (
    Inventory,
    bool,
) {
    if !inv.populated || inv.inputs != inputs || inv.outputs != outputs {
        (Inventory { inputs, outputs, dirty: false, populated: true, ..inv }, true)
    } else {
        (Inventory { dirty: false, ..inv }, false)
    }
}

impl DeviceInventory {
    pub open spec fn well_formed(&self) -> bool {
        self.since_ms < ENUM_INTERVAL_MS
    }

    /// Nothing listed yet.
    pub fn new() -> (inv: Self)
        ensures
            inv.well_formed(),
            inv@ == (Inventory {
                inputs: Seq::empty(),
                outputs: Seq::empty(),
                dirty: false,
                populated: false,
                since_ms: 0,
            }),
    {
        let inv = DeviceInventory {
            inputs: Vec::new(),
            outputs: Vec::new(),
            dirty: false,
            populated: false,
            since_ms: 0,
        };
        assert(inv@.inputs =~= Seq::<Seq<char>>::empty());
        assert(inv@.outputs =~= Seq::<Seq<char>>::empty());
        inv
    }

    /// A service tick: are the devices to be listed now?
    pub fn tick(&mut self) -> (due: bool)
        requires
            old(self).well_formed(),
        ensures
            final(self).well_formed(),
            (final(self)@, due) == ticked(old(self)@),
    {
        self.since_ms = self.since_ms + TICK_MS;
        if self.populated && !self.dirty && self.since_ms < ENUM_INTERVAL_MS {
            false
        } else {
            self.since_ms = 0;
            true
        }
    }

    /// The devices were listed: is the list news to the clients?
    pub fn found(&mut self, inputs: Vec<String>, outputs: Vec<String>) -> (changed: bool)
        requires
            old(self).well_formed(),
        ensures
            final(self).well_formed(),
            (final(self)@, changed) == listed(old(self)@, names_in(inputs@), names_in(outputs@)),
    {
        self.dirty = false;
        let changed: bool = !self.populated || !same_names(&self.inputs, &inputs) || !same_names(
            &self.outputs,
            &outputs,
        );
        if changed {
            self.inputs = inputs;
            self.outputs = outputs;
            self.populated = true;
        }
        changed
    }

    /// A client asked before the first listing, and the devices were listed for it. A listing
    /// that came in between stands.
    pub fn seed(&mut self, inputs: Vec<String>, outputs: Vec<String>)
        requires
            old(self).well_formed(),
        ensures
            final(self).well_formed(),
            final(self)@ == (if old(self)@.populated {
                old(self)@
            } else {
                Inventory {
                    inputs: names_in(inputs@),
                    outputs: names_in(outputs@),
                    populated: true,
                    ..old(self)@
                }
            }),
    {
        if !self.populated {
            self.inputs = inputs;
            self.outputs = outputs;
            self.populated = true;
        }
    }
}

/// Have the devices listed again at the next tick.
pub fn invalidate_device_cache(inv: &mut DeviceInventory)
    ensures
        final(inv)@ == (Inventory { dirty: true, ..old(inv)@ }),
        final(inv).since_ms == old(inv).since_ms,
{
    inv.dirty = true;
}

/// The inventory after `n` ticks at which nothing was listed.
pub open spec fn quiet_ticks(inv: Inventory, n: nat) -> Inventory
    decreases n,
{
    if n == 0 {
        inv
    } else {
        ticked(quiet_ticks(inv, (n - 1) as nat)).0
    }
}

/// A nudge has the devices listed at the next tick, and so has a start with none listed.
pub proof fn law_a_nudge_lists_at_the_next_tick(inv: Inventory)
    ensures
        ticked(Inventory { dirty: true, ..inv }).1,
        !inv.populated ==> ticked(inv).1,
{
}

/// Without a nudge the devices are listed once a minute: never before, and then.
pub proof fn law_the_sweep_comes_once_a_minute(inv: Inventory, n: nat)
    requires
        inv.populated,
        !inv.dirty,
        inv.since_ms == 0,
        n < 120,
    ensures
        quiet_ticks(inv, n) == (Inventory { since_ms: n * TICK_MS, ..inv }),
        ticked(quiet_ticks(inv, n)).1 <==> n == 119,
    decreases n,
{
    if n > 0 {
        law_the_sweep_comes_once_a_minute(inv, (n - 1) as nat);
    }
}

/// An unchanged list is no news, and a list once taken in is the one shown.
pub proof fn law_a_list_is_news_once(
    inv: Inventory,
    inputs: Seq<Seq<char>>,
    outputs: Seq<Seq<char>>,
)
    ensures
        ({
            let first = listed(inv, inputs, outputs).0;
            &&& first.inputs == inputs && first.outputs == outputs
            &&& !listed(first, inputs, outputs).1
        }),
{
}

/// A tick has the devices listed exactly where none were yet, where they may have changed, or
/// where a minute has passed; it never changes what is known of them.
pub proof fn law_when_a_tick_lists(inv: Inventory)
    ensures
        ({
            let (next, due) = ticked(inv);
            &&& due <==> !inv.populated || inv.dirty || inv.since_ms + 500 >= 60_000
            &&& due ==> next.since_ms == 0
            &&& !due ==> next.since_ms == inv.since_ms + 500
            &&& next.inputs == inv.inputs && next.outputs == inv.outputs
            &&& next.dirty == inv.dirty && next.populated == inv.populated
        }),
{
}

/// A list is news exactly where it is the first or differs from the one known, in either
/// direction. After it nothing is due before the next tick says so.
pub proof fn law_when_a_list_is_news(
    inv: Inventory,
    inputs: Seq<Seq<char>>,
    outputs: Seq<Seq<char>>,
)
    ensures
        ({
            let (next, news) = listed(inv, inputs, outputs);
            &&& news <==> !inv.populated || inputs != inv.inputs || outputs != inv.outputs
            &&& next.inputs == inputs && next.outputs == outputs
            &&& next.populated && !next.dirty
            &&& next.since_ms == inv.since_ms
        }),
{
}

/// A nudge marks the list as doubtful and forgets nothing of it; a listing made for a client
/// counts only where none had been made before.
pub proof fn law_a_nudge_forgets_nothing(
    inv: &mut DeviceInventory,
    done: (),
    seeded: &mut DeviceInventory,
    inputs: Vec<String>,
    outputs: Vec<String>,
    also: (),
)
    requires
        call_ensures(invalidate_device_cache, (inv,), done),
        call_ensures(DeviceInventory::seed, (seeded, inputs, outputs), also),
    ensures
        final(inv)@.dirty,
        final(inv)@.inputs == old(inv)@.inputs && final(inv)@.outputs == old(inv)@.outputs,
        final(inv)@.populated == old(inv)@.populated && final(inv)@.since_ms == old(inv)@.since_ms,
        final(seeded)@.populated,
        old(seeded)@.populated ==> final(seeded)@ == old(seeded)@,
        !old(seeded)@.populated
            ==> final(seeded)@.inputs == names_in(inputs@)
            && final(seeded)@.outputs == names_in(outputs@),
        final(seeded)@.dirty == old(seeded)@.dirty,
{
}

} // verus!
