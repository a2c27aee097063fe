//! Tables keyed by name, kept in the order in which strings compare: by their bytes.

use vstd::prelude::*;
use vstd::utf8::encode_utf8;

verus! {

/// Lexicographic order on bytes.
pub open spec fn bytes_before(a: Seq<u8>, b: Seq<u8>) -> bool
    decreases a.len(),
{
    if b.len() == 0 {
        false
    } else if a.len() == 0 {
        true
    } else if a[0] != b[0] {
        a[0] < b[0]
    } else {
        bytes_before(a.drop_first(), b.drop_first())
    }
}

/// One name comes before another.
pub open spec fn name_before(a: Seq<char>, b: Seq<char>) -> bool {
    bytes_before(encode_utf8(a), encode_utf8(b))
}

proof fn lemma_bytes_irreflexive(a: Seq<u8>)
    ensures
        !bytes_before(a, a),
    decreases a.len(),
{
    if a.len() > 0 {
        lemma_bytes_irreflexive(a.drop_first());
    }
}

proof fn lemma_bytes_transitive(a: Seq<u8>, b: Seq<u8>, c: Seq<u8>)
    requires
        bytes_before(a, b),
        bytes_before(b, c),
    ensures
        bytes_before(a, c),
    decreases a.len(),
{
    if a.len() > 0 && b.len() > 0 && c.len() > 0 && a[0] == b[0] && b[0] == c[0] {
        lemma_bytes_transitive(a.drop_first(), b.drop_first(), c.drop_first());
    }
}

proof fn lemma_bytes_total(a: Seq<u8>, b: Seq<u8>)
    ensures
        a == b || bytes_before(a, b) || bytes_before(b, a),
    decreases a.len(),
{
    if a.len() == 0 && b.len() == 0 {
        assert(a =~= b);
    } else if a.len() > 0 && b.len() > 0 && a[0] == b[0] {
        lemma_bytes_total(a.drop_first(), b.drop_first());
        if a.drop_first() == b.drop_first() {
            assert(a =~= seq![a[0]] + a.drop_first());
            assert(b =~= seq![b[0]] + b.drop_first());
        }
    }
}

/// Names are strictly and totally ordered.
pub proof fn law_names_are_ordered(a: Seq<char>, b: Seq<char>, c: Seq<char>)
    ensures
        !name_before(a, a),
        name_before(a, b) && name_before(b, c) ==> name_before(a, c),
        a == b || name_before(a, b) || name_before(b, a),
        name_before(a, b) ==> !name_before(b, a),
{
    vstd::utf8::encode_utf8_decode_utf8(a);
    vstd::utf8::encode_utf8_decode_utf8(b);
    lemma_bytes_irreflexive(encode_utf8(a));
    if name_before(a, b) && name_before(b, c) {
        lemma_bytes_transitive(encode_utf8(a), encode_utf8(b), encode_utf8(c));
    }
    lemma_bytes_total(encode_utf8(a), encode_utf8(b));
    if name_before(a, b) && name_before(b, a) {
        lemma_bytes_transitive(encode_utf8(a), encode_utf8(b), encode_utf8(a));
    }
}

/// Does `a` come before `b`?
pub fn name_less(a: &str, b: &str) -> (less: bool)
    ensures
        less == name_before(a@, b@),
{
    let x: &[u8] = a.as_bytes();
    let y: &[u8] = b.as_bytes();
    let mut i: usize = 0;
    assert(x@.subrange(0, x@.len() as int) =~= x@);
    assert(y@.subrange(0, y@.len() as int) =~= y@);
    while i < x.len() && i < y.len()
        invariant
            i <= x@.len(),
            i <= y@.len(),
            bytes_before(x@, y@) == bytes_before(
                x@.subrange(i as int, x@.len() as int),
                y@.subrange(i as int, y@.len() as int),
            ),
            name_before(a@, b@) == bytes_before(x@, y@),
        decreases x@.len() - i,
    {
        let ghost tx = x@.subrange(i as int, x@.len() as int);
        let ghost ty = y@.subrange(i as int, y@.len() as int);
        assert(tx[0] == x@[i as int] && ty[0] == y@[i as int]);
        if x[i] != y[i] {
            return x[i] < y[i];
        }
        assert(tx.drop_first() =~= x@.subrange(i + 1, x@.len() as int));
        assert(ty.drop_first() =~= y@.subrange(i + 1, y@.len() as int));
        i = i + 1;
    }
    i < y.len()
}

/// Are two names the same?
pub fn name_same(a: &str, b: &str) -> (same: bool)
    ensures
        same == (a@ == b@),
{
    proof {
        law_names_are_ordered(a@, b@, a@);
    }
    !name_less(a, b) && !name_less(b, a)
}

/// The entries of a table, names by their characters.
pub open spec fn keyed<T>(entries: Seq<(String, T)>) -> Seq<(Seq<char>, T)> {
    Seq::new(entries.len(), |i: int| (entries[i].0@, entries[i].1))
}

/// Names ascend, each once.
pub open spec fn in_name_order<T>(entries: Seq<(Seq<char>, T)>) -> bool {
    forall|i: int, j: int|
        0 <= i < j < entries.len() ==> name_before(#[trigger] entries[i].0, #[trigger] entries[j].0)
}

/// Some entry has this name.
pub open spec fn has_name<T>(entries: Seq<(Seq<char>, T)>, name: Seq<char>) -> bool {
    exists|i: int| 0 <= i < entries.len() && #[trigger] entries[i].0 == name
}

/// Where a name stands.
pub open spec fn name_at<T>(entries: Seq<(Seq<char>, T)>, name: Seq<char>) -> int {
    choose|i: int| 0 <= i < entries.len() && #[trigger] entries[i].0 == name
}

/// The entries as a map.
pub open spec fn as_map<T>(entries: Seq<(Seq<char>, T)>) -> Map<Seq<char>, T> {
    Map::new(
        |name: Seq<char>| has_name(entries, name),
        |name: Seq<char>| entries[name_at(entries, name)].1,
    )
}

/// A table from names to values, in name order.
pub struct NameMap<T> {
    entries: Vec<(String, T)>,
}

impl<T> NameMap<T> {
    /// The entries, in name order.
    pub closed spec fn seq(&self) -> Seq<(Seq<char>, T)> {
        keyed(self.entries@)
    }

    pub open spec fn well_formed(&self) -> bool {
        in_name_order(self.seq())
    }

    /// The table as a map.
    pub open spec fn map(&self) -> Map<Seq<char>, T> {
        as_map(self.seq())
    }

    pub fn new() -> (t: Self)
        ensures
            t.well_formed(),
            t.seq() == Seq::<(Seq<char>, T)>::empty(),
            t.map() == Map::<Seq<char>, T>::empty(),
    {
        let t = NameMap { entries: Vec::new() };
        assert(t.seq() =~= Seq::<(Seq<char>, T)>::empty());
        assert(t.map() =~= Map::<Seq<char>, T>::empty());
        t
    }

    pub fn len(&self) -> (n: usize)
        ensures
            n == self.seq().len(),
    {
        self.entries.len()
    }

    /// The entry at position `i` in name order.
    pub fn entry(&self, i: usize) -> (e: (&str, &T))
        requires
            i < self.seq().len(),
        ensures
            e.0@ == self.seq()[i as int].0,
            *e.1 == self.seq()[i as int].1,
    {
        (self.entries[i].0.as_str(), &self.entries[i].1)
    }

    fn find(&self, name: &str) -> (at: Option<usize>)
        requires
            self.well_formed(),
        ensures
            match at {
                Some(i) => i < self.seq().len() && self.seq()[i as int].0 == name@,
                None => !has_name(self.seq(), name@),
            },
    {
        let mut i: usize = 0;
        while i < self.entries.len()
            invariant
                i <= self.entries@.len(),
                forall|j: int| 0 <= j < i ==> #[trigger] self.seq()[j].0 != name@,
            decreases self.entries@.len() - i,
        {
            if name_same(self.entries[i].0.as_str(), name) {
                assert(self.seq()[i as int].0 == name@);
                return Some(i);
            }
            i = i + 1;
        }
        None
    }

    pub fn contains(&self, name: &str) -> (has: bool)
        requires
            self.well_formed(),
        ensures
            has == self.map().dom().contains(name@),
    {
        match self.find(name) {
            Some(i) => {
                assert(self.seq()[i as int].0 == name@);
                true
            },
            None => false,
        }
    }

    pub fn get(&self, name: &str) -> (v: Option<&T>)
        requires
            self.well_formed(),
        ensures
            match v {
                Some(t) => self.map().dom().contains(name@) && *t == self.map()[name@],
                None => !self.map().dom().contains(name@),
            },
    {
        match self.find(name) {
            Some(i) => {
                proof {
                    assert(self.seq()[i as int].0 == name@);
                    lemma_name_stands_once(self.seq(), name@, i as int);
                }
                Some(&self.entries[i].1)
            },
            None => None,
        }
    }

    /// Set the value of a name, in place of any it had.
    pub fn insert(&mut self, name: &str, value: T)
        requires
            old(self).well_formed(),
        ensures
            final(self).well_formed(),
            final(self).map() == old(self).map().insert(name@, value),
    {
        let ghost before = self.seq();
        let mut i: usize = 0;
        while i < self.entries.len() && name_less(self.entries[i].0.as_str(), name)
            invariant
                i <= self.entries@.len(),
                self.seq() == before,
                self.entries@.len() == before.len(),
                forall|j: int| 0 <= j < i ==> name_before(#[trigger] before[j].0, name@),
            decreases self.entries@.len() - i,
        {
            assert(before[i as int].0 == self.entries@[i as int].0@);
            i = i + 1;
        }
        let owned: String = name.to_owned();
        if i < self.entries.len() && name_same(self.entries[i].0.as_str(), name) {
            assert(before[i as int].0 == name@);
            self.entries.set(i, (owned, value));
            proof {
                assert(self.seq() =~= before.update(i as int, (name@, value)));
                lemma_update_is_insert(before, i as int, name@, value);
            }
        } else {
            proof {
                if i < before.len() {
                    assert(before[i as int].0 == self.entries@[i as int].0@);
                    law_names_are_ordered(before[i as int].0, name@, name@);
                    assert(name_before(name@, before[i as int].0));
                    assert forall|j: int| i <= j < before.len() implies name_before(
                        name@,
                        #[trigger] before[j].0,
                    ) by {
                        if j > i {
                            law_names_are_ordered(name@, before[i as int].0, before[j].0);
                        }
                    }
                }
            }
            self.entries.insert(i, (owned, value));
            proof {
                assert(self.seq() =~= before.insert(i as int, (name@, value)));
                lemma_splice_is_insert(before, i as int, name@, value);
            }
        }
    }

    /// Forget a name.
    pub fn remove(&mut self, name: &str)
        requires
            old(self).well_formed(),
        ensures
            final(self).well_formed(),
            final(self).map() == old(self).map().remove(name@),
    {
        let ghost before = self.seq();
        match self.find(name) {
            Some(i) => {
                let _ = self.entries.remove(i);
                proof {
                    assert(self.seq() =~= before.remove(i as int));
                    lemma_remove_is_remove(before, i as int, name@);
                }
            },
            None => {
                assert(self.map() =~= old(self).map().remove(name@));
            },
        }
    }

    /// Forget every name.
    pub fn clear(&mut self)
        ensures
            final(self).well_formed(),
            final(self).seq() == Seq::<(Seq<char>, T)>::empty(),
            final(self).map() == Map::<Seq<char>, T>::empty(),
    {
        self.entries.clear();
        assert(self.seq() =~= Seq::<(Seq<char>, T)>::empty());
        assert(self.map() =~= Map::<Seq<char>, T>::empty());
    }
}

/// In name order a name stands at one place only.
pub proof fn lemma_name_stands_once<T>(s: Seq<(Seq<char>, T)>, name: Seq<char>, i: int)
    requires
        in_name_order(s),
        0 <= i < s.len(),
        s[i].0 == name,
    ensures
        has_name(s, name),
        name_at(s, name) == i,
{
    let k = name_at(s, name);
    assert(0 <= k < s.len() && s[k].0 == name);
    law_names_are_ordered(name, name, name);
    if k < i {
        assert(name_before(s[k].0, s[i].0));
    } else if i < k {
        assert(name_before(s[i].0, s[k].0));
    }
}

proof fn lemma_update_is_insert<T>(s: Seq<(Seq<char>, T)>, i: int, name: Seq<char>, v: T)
    requires
        in_name_order(s),
        0 <= i < s.len(),
        s[i].0 == name,
    ensures
        in_name_order(s.update(i, (name, v))),
        as_map(s.update(i, (name, v))) == as_map(s).insert(name, v),
{
    let t = s.update(i, (name, v));
    assert forall|j: int, k: int| 0 <= j < k < t.len() implies name_before(
        #[trigger] t[j].0,
        #[trigger] t[k].0,
    ) by {
        assert(t[j].0 == s[j].0 && t[k].0 == s[k].0);
    }
    assert forall|n: Seq<char>| has_name(t, n) == (has_name(s, n) || n == name) by {
        lemma_has_name_transfer(s, t, n);
        lemma_has_name_transfer(t, s, n);
        assert(t[i].0 == name);
    }
    assert forall|n: Seq<char>| has_name(t, n) implies t[name_at(t, n)].1 == as_map(s).insert(
        name,
        v,
    )[n] by {
        let k = name_at(t, n);
        assert(0 <= k < t.len() && t[k].0 == n);
        if n == name {
            lemma_name_stands_once(t, name, i);
        } else {
            assert(s[k].0 == n);
            lemma_name_stands_once(s, n, k);
        }
    }
    assert(as_map(t) =~= as_map(s).insert(name, v));
}

/// Every name of `s` is one of `t` where `t` holds, at some place, each of `s`'s names.
proof fn lemma_has_name_transfer<T>(s: Seq<(Seq<char>, T)>, t: Seq<(Seq<char>, T)>, n: Seq<char>)
    requires
        s.len() == t.len(),
        forall|i: int| 0 <= i < s.len() ==> #[trigger] s[i].0 == t[i].0,
    ensures
        has_name(s, n) ==> has_name(t, n),
{
    if has_name(s, n) {
        let i = name_at(s, n);
        assert(s[i].0 == t[i].0);
    }
}

proof fn lemma_splice_is_insert<T>(s: Seq<(Seq<char>, T)>, i: int, name: Seq<char>, v: T)
    requires
        in_name_order(s),
        0 <= i <= s.len(),
        forall|j: int| 0 <= j < i ==> name_before(#[trigger] s[j].0, name),
        forall|j: int| i <= j < s.len() ==> name_before(name, #[trigger] s[j].0),
    ensures
        in_name_order(s.insert(i, (name, v))),
        as_map(s.insert(i, (name, v))) == as_map(s).insert(name, v),
{
    let t = s.insert(i, (name, v));
    assert forall|j: int, k: int| 0 <= j < k < t.len() implies name_before(
        #[trigger] t[j].0,
        #[trigger] t[k].0,
    ) by {
        let a = if j < i {
            j
        } else {
            j - 1
        };
        let b = if k < i {
            k
        } else {
            k - 1
        };
        if j != i {
            assert(t[j] == s[a]);
        }
        if k != i {
            assert(t[k] == s[b]);
        }
    }
    assert forall|n: Seq<char>| has_name(t, n) == (has_name(s, n) || n == name) by {
        if has_name(t, n) {
            let k = name_at(t, n);
            if k != i {
                let b = if k < i {
                    k
                } else {
                    k - 1
                };
                assert(s[b].0 == n);
            }
        }
        if has_name(s, n) {
            let b = name_at(s, n);
            let k = if b < i {
                b
            } else {
                b + 1
            };
            assert(t[k].0 == n);
        }
        assert(t[i].0 == name);
    }
    assert forall|n: Seq<char>| has_name(t, n) implies t[name_at(t, n)].1 == as_map(s).insert(
        name,
        v,
    )[n] by {
        let k = name_at(t, n);
        assert(0 <= k < t.len() && t[k].0 == n);
        if n == name {
            lemma_name_stands_once(t, name, i);
        } else {
            let b = if k < i {
                k
            } else {
                k - 1
            };
            assert(k != i);
            assert(s[b].0 == n);
            lemma_name_stands_once(s, n, b);
        }
    }
    assert(as_map(t) =~= as_map(s).insert(name, v));
}

proof fn lemma_remove_is_remove<T>(s: Seq<(Seq<char>, T)>, i: int, name: Seq<char>)
    requires
        in_name_order(s),
        0 <= i < s.len(),
        s[i].0 == name,
    ensures
        in_name_order(s.remove(i)),
        as_map(s.remove(i)) == as_map(s).remove(name),
{
    let t = s.remove(i);
    assert forall|j: int, k: int| 0 <= j < k < t.len() implies name_before(
        #[trigger] t[j].0,
        #[trigger] t[k].0,
    ) by {
        let a = if j < i {
            j
        } else {
            j + 1
        };
        let b = if k < i {
            k
        } else {
            k + 1
        };
        assert(t[j] == s[a] && t[k] == s[b]);
    }
    assert forall|n: Seq<char>| has_name(t, n) == (has_name(s, n) && n != name) by {
        if has_name(t, n) {
            let k = name_at(t, n);
            let b = if k < i {
                k
            } else {
                k + 1
            };
            assert(s[b].0 == n);
            if n == name {
                lemma_name_stands_once(s, name, i);
                lemma_name_stands_once(s, name, b);
            }
        }
        if has_name(s, n) && n != name {
            let b = name_at(s, n);
            let k = if b < i {
                b
            } else {
                b - 1
            };
            assert(t[k].0 == n);
        }
    }
    assert forall|n: Seq<char>| has_name(t, n) implies t[name_at(t, n)].1 == as_map(s).remove(
        name,
    )[n] by {
        let k = name_at(t, n);
        let b = if k < i {
            k
        } else {
            k + 1
        };
        assert(s[b].0 == n);
        lemma_name_stands_once(s, n, b);
    }
    assert(as_map(t) =~= as_map(s).remove(name));
}

/// A table without a name that it had is shorter.
pub proof fn lemma_remove_shrinks<T>(
    s: Seq<(Seq<char>, T)>,
    t: Seq<(Seq<char>, T)>,
    name: Seq<char>,
)
    requires
        in_name_order(s),
        in_name_order(t),
        has_name(s, name),
        as_map(t) == as_map(s).remove(name),
    ensures
        t.len() < s.len(),
{
    let names = s.map_values(|e: (Seq<char>, T)| e.0);
    let left = t.map_values(|e: (Seq<char>, T)| e.0);
    law_names_are_ordered(name, name, name);
    assert(names.no_duplicates()) by {
        assert forall|i: int, j: int| 0 <= i < names.len() && 0 <= j < names.len() && i != j implies
            names[i] != names[j] by {
            lemma_name_stands_once(s, s[i].0, i);
            lemma_name_stands_once(s, s[j].0, j);
        }
    }
    assert(left.no_duplicates()) by {
        assert forall|i: int, j: int| 0 <= i < left.len() && 0 <= j < left.len() && i != j implies
            left[i] != left[j] by {
            lemma_name_stands_once(t, t[i].0, i);
            lemma_name_stands_once(t, t[j].0, j);
        }
    }
    names.unique_seq_to_set();
    left.unique_seq_to_set();
    let a = names.to_set();
    let b = left.to_set();
    assert forall|n: Seq<char>| #[trigger] b.contains(n) implies a.remove(name).contains(n) by {
        let i = choose|i: int| 0 <= i < left.len() && left[i] == n;
        assert(t[i].0 == n);
        assert(as_map(t).dom().contains(n));
        let k = name_at(s, n);
        assert(names[k] == n);
    }
    let at = name_at(s, name);
    assert(names[at] == name);
    assert(a.contains(name));
    vstd::set_lib::lemma_len_subset(b, a.remove(name));
}

/// Strings compare at the first place where they differ; where there is none, the shorter one
/// comes first.
pub proof fn law_the_first_difference_decides(a: Seq<u8>, b: Seq<u8>, k: int)
    requires
        0 <= k <= a.len(),
        k <= b.len(),
        forall|i: int| 0 <= i < k ==> #[trigger] a[i] == b[i],
    ensures
        k < a.len() && k < b.len() && a[k] != b[k] ==> bytes_before(a, b) == (a[k] < b[k]),
        k == a.len() ==> bytes_before(a, b) == (a.len() < b.len()),
        k == b.len() ==> !bytes_before(a, b),
    decreases k,
{
    if k > 0 {
        let x = a.drop_first();
        let y = b.drop_first();
        assert(a[0] == b[0]);
        assert forall|i: int| 0 <= i < k - 1 implies #[trigger] x[i] == y[i] by {
            assert(a[i + 1] == b[i + 1]);
        }
        law_the_first_difference_decides(x, y, k - 1);
    }
}

/// A table holds each of its entries under its name, and no others.
pub proof fn law_a_table_holds_its_entries<T>(s: Seq<(Seq<char>, T)>, i: int, name: Seq<char>)
    requires
        in_name_order(s),
        0 <= i < s.len(),
    ensures
        as_map(s).dom().contains(s[i].0),
        as_map(s)[s[i].0] == s[i].1,
        as_map(s).dom().contains(name) ==> exists|j: int|
            0 <= j < s.len() && (#[trigger] s[j]).0 == name,
        forall|j: int| 0 <= j < s.len() && j != i ==> (#[trigger] s[j]).0 != s[i].0,
{
    lemma_name_stands_once(s, s[i].0, i);
    assert forall|j: int| 0 <= j < s.len() && j != i implies (#[trigger] s[j]).0 != s[i].0 by {
        lemma_name_stands_once(s, s[j].0, j);
    }
}

} // verus!
