//! The deadline tracker: one pending debounce window per input line.

use vstd::prelude::*;

verus! {

/// Maps each input line (identified by its pin number) to the tick at which
/// that line's current debounce window closes. The entry list never holds
/// two entries for the same pin, so the tracker denotes a mapping.
pub struct DeadlineTracker {
    pub entries: Vec<(u8, u64)>,
}

/// The mapping that a sequence of (pin, deadline) entries denotes; a later
/// entry for a pin overrides an earlier one (under `unique_pins` there is
/// at most one).
pub open spec fn map_of(entries: Seq<(u8, u64)>) -> Map<u8, u64>
    decreases entries.len(),
{
    if entries.len() == 0 {
        Map::empty()
    } else {
        map_of(entries.drop_last()).insert(entries.last().0, entries.last().1)
    }
}

/// No two entries name the same pin.
pub open spec fn unique_pins(entries: Seq<(u8, u64)>) -> bool {
    forall|i: int, j: int|
        0 <= i < j < entries.len() ==> (#[trigger] entries[i]).0 != (#[trigger] entries[j]).0
}

/// The lines whose windows have closed by `now`: those tracked with a
/// deadline at or before it.
pub open spec fn expired_set(m: Map<u8, u64>, now: u64) -> Set<u8> {
    m.dom().filter(|p: u8| m[p] <= now)
}

/// The windows still open after a scan at `now`: the tracked lines whose
/// deadlines lie strictly after it, with their deadlines unchanged.
pub open spec fn still_pending(m: Map<u8, u64>, now: u64) -> Map<u8, u64> {
    Map::<u8, u64>::new(|p: u8| m.contains_key(p) && m[p] > now, |p: u8| m[p])
}

/// A pin is in the denoted mapping exactly when some entry names it.
pub proof fn lemma_map_of_contains(entries: Seq<(u8, u64)>)
    ensures
        forall|p: u8|
            #[trigger] map_of(entries).contains_key(p) <==> exists|i: int|
                0 <= i < entries.len() && (#[trigger] entries[i]).0 == p,
    decreases entries.len(),
{
    if entries.len() > 0 {
        let prefix = entries.drop_last();
        lemma_map_of_contains(prefix);
        assert forall|p: u8| #[trigger] map_of(entries).contains_key(p) implies exists|i: int|
            0 <= i < entries.len() && (#[trigger] entries[i]).0 == p by {
            if p == entries.last().0 {
                assert(entries[entries.len() - 1].0 == p);
            } else {
                assert(map_of(prefix).contains_key(p));
                let i = choose|i: int| 0 <= i < prefix.len() && (#[trigger] prefix[i]).0 == p;
                assert(prefix[i] == entries[i]);
                assert(entries[i].0 == p);
            }
        }
        assert forall|p: u8|
            (exists|i: int| 0 <= i < entries.len() && (#[trigger] entries[i]).0 == p) implies
            map_of(entries).contains_key(p) by {
            let i = choose|i: int| 0 <= i < entries.len() && (#[trigger] entries[i]).0 == p;
            if i < entries.len() - 1 {
                assert(prefix[i] == entries[i]);
                assert(prefix[i].0 == p);
                assert(map_of(prefix).contains_key(p));
            }
        }
    }
}

/// Under `unique_pins`, each entry gives its pin's value in the mapping.
pub proof fn lemma_map_of_value(entries: Seq<(u8, u64)>)
    requires
        unique_pins(entries),
    ensures
        forall|i: int|
            0 <= i < entries.len() ==> map_of(entries).contains_key(
                (#[trigger] entries[i]).0,
            ) && map_of(entries)[entries[i].0] == entries[i].1,
    decreases entries.len(),
{
    if entries.len() > 0 {
        let prefix = entries.drop_last();
        assert forall|i: int, j: int| 0 <= i < j < prefix.len() implies (
        #[trigger] prefix[i]).0 != (#[trigger] prefix[j]).0 by {
            assert(prefix[i] == entries[i]);
            assert(prefix[j] == entries[j]);
        }
        lemma_map_of_value(prefix);
        assert forall|i: int| 0 <= i < entries.len() implies map_of(entries).contains_key(
            (#[trigger] entries[i]).0,
        ) && map_of(entries)[entries[i].0] == entries[i].1 by {
            if i < entries.len() - 1 {
                assert(prefix[i] == entries[i]);
                assert(entries[i].0 != entries.last().0);
            }
        }
    }
}

/// No duplicate deadlines: a well-formed tracker holds at most one entry
/// per line — two entries that name the same pin are the same entry.
/// Every tracker operation requires and preserves this well-formedness.
pub proof fn lemma_no_duplicate_deadlines(t: &DeadlineTracker, a: int, b: int)
    requires
        t.wf(),
        0 <= a < t.entries@.len(),
        0 <= b < t.entries@.len(),
        t.entries@[a].0 == t.entries@[b].0,
    ensures
        a == b,
{
    if a < b {
        assert(t.entries@[a].0 != t.entries@[b].0);
    }
    if b < a {
        assert(t.entries@[b].0 != t.entries@[a].0);
    }
}

impl DeadlineTracker {
    /// The mapping this tracker denotes.
    pub open spec fn view(&self) -> Map<u8, u64> {
        map_of(self.entries@)
    }

    /// Well-formed: at most one entry per pin.
    pub open spec fn wf(&self) -> bool {
        unique_pins(self.entries@)
    }

    /// A tracker with no pending deadlines.
    pub fn new() -> (t: DeadlineTracker)
        ensures
            t.wf(),
            t.view() == Map::<u8, u64>::empty(),
    {
        DeadlineTracker { entries: Vec::new() }
    }

    /// The index of the entry for `pin`, if one exists.
    fn find_pin(&self, pin: u8) -> (r: Option<usize>)
        ensures
            match r {
                Some(j) => j < self.entries@.len() && self.entries@[j as int].0 == pin,
                None => forall|k: int|
                    0 <= k < self.entries@.len() ==> (#[trigger] self.entries@[k]).0 != pin,
            },
    {
        let n = self.entries.len();
        let mut i: usize = 0;
        while i < n
            invariant
                n == self.entries@.len(),
                i <= n,
                forall|j: int| 0 <= j < i ==> (#[trigger] self.entries@[j]).0 != pin,
            decreases n - i,
        {
            let (p, _) = self.entries[i];
            if p == pin {
                return Some(i);
            }
            i += 1;
        }
        None
    }

    /// The pending deadline for `pin`, if that line has an open window.
    pub fn get(&self, pin: u8) -> (r: Option<u64>)
        requires
            self.wf(),
        ensures
            match r {
                Some(d) => self.view().contains_key(pin) && self.view()[pin] == d,
                None => !self.view().contains_key(pin),
            },
    {
        proof {
            lemma_map_of_contains(self.entries@);
            lemma_map_of_value(self.entries@);
        }
        match self.find_pin(pin) {
            Some(j) => {
                let (_, d) = self.entries[j];
                Some(d)
            },
            None => None,
        }
    }

    /// Opens or extends the window for `pin`: sets its deadline, leaving
    /// every other line untouched.
    pub fn set(&mut self, pin: u8, deadline: u64)
        requires
            old(self).wf(),
        ensures
            final(self).wf(),
            final(self).view() == old(self).view().insert(pin, deadline),
    {
        proof {
            lemma_map_of_contains(self.entries@);
            lemma_map_of_value(self.entries@);
        }
        let ghost orig = self.entries@;
        match self.find_pin(pin) {
            Some(j) => {
                self.entries[j] = (pin, deadline);
                proof {
                    let updated = orig.update(j as int, (pin, deadline));
                    assert(self.entries@ == updated);
                    assert forall|a: int, b: int| 0 <= a < b < updated.len() implies (
                    #[trigger] updated[a]).0 != (#[trigger] updated[b]).0 by {
                        assert(orig[a].0 != orig[b].0);
                        assert(orig[j as int].0 == pin);
                    }
                    lemma_map_of_contains(updated);
                    lemma_map_of_value(updated);
                    assert forall|p2: u8| #[trigger]
                        map_of(updated).contains_key(p2) == map_of(orig).insert(
                            pin,
                            deadline,
                        ).contains_key(p2) by {
                        if p2 == pin {
                            assert(updated[j as int].0 == pin);
                        } else {
                            if map_of(updated).contains_key(p2) {
                                let k = choose|k: int|
                                    0 <= k < updated.len() && (#[trigger] updated[k]).0 == p2;
                                assert(orig[k].0 == p2);
                            }
                            if map_of(orig).contains_key(p2) {
                                let k = choose|k: int|
                                    0 <= k < orig.len() && (#[trigger] orig[k]).0 == p2;
                                assert(updated[k].0 == p2);
                            }
                        }
                    }
                    assert forall|p2: u8|
                        map_of(updated).contains_key(p2) implies #[trigger] map_of(updated)[p2]
                        == map_of(orig).insert(pin, deadline)[p2] by {
                        if p2 == pin {
                            assert(updated[j as int].0 == pin);
                            assert(map_of(updated)[pin] == deadline);
                        } else {
                            let k = choose|k: int|
                                0 <= k < updated.len() && (#[trigger] updated[k]).0 == p2;
                            assert(orig[k] == updated[k]);
                            assert(map_of(orig)[p2] == orig[k].1);
                            assert(map_of(updated)[p2] == updated[k].1);
                        }
                    }
                    assert(map_of(updated) =~= map_of(orig).insert(pin, deadline));
                }
            },
            None => {
                self.entries.push((pin, deadline));
                proof {
                    let pushed = orig.push((pin, deadline));
                    assert(self.entries@ == pushed);
                    assert(pushed.drop_last() =~= orig);
                    assert(pushed.last() == (pin, deadline));
                    assert forall|a: int, b: int| 0 <= a < b < pushed.len() implies (
                    #[trigger] pushed[a]).0 != (#[trigger] pushed[b]).0 by {
                        if b == pushed.len() - 1 {
                            assert(pushed[a] == orig[a]);
                            assert(orig[a].0 != pin);
                        } else {
                            assert(pushed[a] == orig[a]);
                            assert(pushed[b] == orig[b]);
                            assert(orig[a].0 != orig[b].0);
                        }
                    }
                    assert(map_of(pushed) == map_of(orig).insert(pin, deadline));
                }
            },
        }
    }

    /// One scan of the tracker at `now`: removes every line whose window
    /// has closed and returns those lines, each exactly once. Lines whose
    /// windows are still open keep their deadlines untouched. Removal is
    /// applied only after the scan, never while iterating the entries.
    pub fn remove_expired(&mut self, now: u64) -> (expired: Vec<u8>)
        requires
            old(self).wf(),
        ensures
            final(self).wf(),
            final(self).view() == still_pending(old(self).view(), now),
            forall|p: u8|
                #[trigger] expired@.contains(p) <==> expired_set(old(self).view(), now).contains(
                    p,
                ),
            forall|a: int, b: int|
                0 <= a < b < expired@.len() ==> expired@[a] != expired@[b],
    {
        proof {
            lemma_map_of_contains(self.entries@);
            lemma_map_of_value(self.entries@);
        }
        let ghost orig = self.entries@;
        let n = self.entries.len();
        let mut kept: Vec<(u8, u64)> = Vec::new();
        let mut expired: Vec<u8> = Vec::new();
        let mut i: usize = 0;
        while i < n
            invariant
                self.entries@ == orig,
                n == orig.len(),
                i <= n,
                unique_pins(orig),
                forall|p: u8|
                    #[trigger] map_of(orig).contains_key(p) <==> exists|k: int|
                        0 <= k < orig.len() && (#[trigger] orig[k]).0 == p,
                forall|k: int|
                    0 <= k < orig.len() ==> map_of(orig).contains_key((#[trigger] orig[k]).0)
                        && map_of(orig)[orig[k].0] == orig[k].1,
                unique_pins(kept@),
                forall|p: u8|
                    #[trigger] map_of(kept@).contains_key(p) <==> exists|k: int|
                        0 <= k < i && (#[trigger] orig[k]).0 == p && orig[k].1 > now,
                forall|p: u8|
                    #[trigger] map_of(kept@).contains_key(p) ==> map_of(kept@)[p] == map_of(
                        orig,
                    )[p],
                forall|p: u8|
                    #[trigger] expired@.contains(p) <==> exists|k: int|
                        0 <= k < i && (#[trigger] orig[k]).0 == p && orig[k].1 <= now,
                forall|a: int, b: int|
                    0 <= a < b < expired@.len() ==> expired@[a] != expired@[b],
            decreases n - i,
        {
            let (p, d) = self.entries[i];
            proof {
                lemma_map_of_contains(kept@);
            }
            if d > now {
                let ghost before = kept@;
                kept.push((p, d));
                proof {
                    let pushed = before.push((p, d));
                    assert(pushed.drop_last() =~= before);
                    assert(pushed.last() == (p, d));
                    assert(map_of(pushed) == map_of(before).insert(p, d));
                    assert forall|a: int, b: int| 0 <= a < b < pushed.len() implies (
                    #[trigger] pushed[a]).0 != (#[trigger] pushed[b]).0 by {
                        if b == pushed.len() - 1 {
                            assert(pushed[a] == before[a]);
                            if before[a].0 == p {
                                assert(map_of(before).contains_key(p));
                                let k = choose|k: int|
                                    0 <= k < i && (#[trigger] orig[k]).0 == p && orig[k].1 > now;
                                assert(orig[k].0 == orig[i as int].0);
                                assert(false);
                            }
                        } else {
                            assert(pushed[a] == before[a]);
                            assert(pushed[b] == before[b]);
                        }
                    }
                    assert forall|p2: u8| #[trigger] map_of(kept@).contains_key(p2) implies (
                    exists|k: int|
                        0 <= k < i + 1 && (#[trigger] orig[k]).0 == p2 && orig[k].1 > now) by {
                        if p2 == p {
                            assert(orig[i as int].0 == p2 && orig[i as int].1 > now);
                        } else {
                            assert(map_of(before).contains_key(p2));
                        }
                    }
                    assert forall|p2: u8|
                        (exists|k: int|
                            0 <= k < i + 1 && (#[trigger] orig[k]).0 == p2 && orig[k].1
                                > now) implies #[trigger] map_of(kept@).contains_key(p2) by {
                        let k = choose|k: int|
                            0 <= k < i + 1 && (#[trigger] orig[k]).0 == p2 && orig[k].1 > now;
                        if k < i {
                            assert(map_of(before).contains_key(p2));
                        }
                    }
                }
            } else {
                let ghost ebefore = expired@;
                expired.push(p);
                proof {
                    assert(expired@ == ebefore.push(p));
                    assert forall|p2: u8| #[trigger] expired@.contains(p2) implies (exists|k: int|
                        0 <= k < i + 1 && (#[trigger] orig[k]).0 == p2 && orig[k].1 <= now) by {
                        let a = choose|a: int| 0 <= a < expired@.len() && expired@[a] == p2;
                        if a < ebefore.len() {
                            assert(ebefore[a] == p2);
                            assert(ebefore.contains(p2));
                        } else {
                            assert(orig[i as int].0 == p2 && orig[i as int].1 <= now);
                        }
                    }
                    assert forall|p2: u8|
                        (exists|k: int|
                            0 <= k < i + 1 && (#[trigger] orig[k]).0 == p2 && orig[k].1
                                <= now) implies #[trigger] expired@.contains(p2) by {
                        let k = choose|k: int|
                            0 <= k < i + 1 && (#[trigger] orig[k]).0 == p2 && orig[k].1 <= now;
                        if k < i {
                            assert(ebefore.contains(p2));
                            let a = choose|a: int| 0 <= a < ebefore.len() && ebefore[a] == p2;
                            assert(expired@[a] == p2);
                        } else {
                            assert(expired@[expired@.len() - 1] == p2);
                        }
                    }
                    assert forall|a: int, b: int|
                        0 <= a < b < expired@.len() implies expired@[a] != expired@[b] by {
                        if b == expired@.len() - 1 {
                            assert(ebefore[a] == expired@[a]);
                            if ebefore[a] == p {
                                assert(ebefore.contains(p));
                                let k = choose|k: int|
                                    0 <= k < i && (#[trigger] orig[k]).0 == p && orig[k].1 <= now;
                                assert(orig[k].0 == orig[i as int].0);
                                assert(false);
                            }
                        } else {
                            assert(ebefore[a] == expired@[a]);
                            assert(ebefore[b] == expired@[b]);
                        }
                    }
                }
            }
            i += 1;
        }
        self.entries = kept;
        proof {
            assert forall|p: u8| #[trigger]
                map_of(kept@).contains_key(p) == still_pending(map_of(orig), now).contains_key(
                    p,
                ) by {
                if map_of(kept@).contains_key(p) {
                    let k = choose|k: int|
                        0 <= k < n && (#[trigger] orig[k]).0 == p && orig[k].1 > now;
                    assert(map_of(orig).contains_key(p) && map_of(orig)[p] > now);
                }
                if still_pending(map_of(orig), now).contains_key(p) {
                    let k = choose|k: int| 0 <= k < orig.len() && (#[trigger] orig[k]).0 == p;
                    assert(map_of(orig)[p] == orig[k].1);
                }
            }
            assert(map_of(kept@) =~= still_pending(map_of(orig), now));
            assert forall|p: u8| #[trigger]
                expired@.contains(p) == expired_set(map_of(orig), now).contains(p) by {
                if expired@.contains(p) {
                    let k = choose|k: int|
                        0 <= k < n && (#[trigger] orig[k]).0 == p && orig[k].1 <= now;
                    assert(map_of(orig).contains_key(p) && map_of(orig)[p] <= now);
                }
                if expired_set(map_of(orig), now).contains(p) {
                    let k = choose|k: int| 0 <= k < orig.len() && (#[trigger] orig[k]).0 == p;
                    assert(map_of(orig)[p] == orig[k].1);
                }
            }
        }
        expired
    }

    /// The earliest pending deadline, if any line's window is open.
    pub fn earliest(&self) -> (r: Option<u64>)
        requires
            self.wf(),
        ensures
            match r {
                Some(w) => (exists|p: u8|
                    self.view().contains_key(p) && self.view()[p] == w) && (forall|p: u8|
                    self.view().contains_key(p) ==> w <= self.view()[p]),
                None => forall|p: u8| !self.view().contains_key(p),
            },
    {
        proof {
            lemma_map_of_contains(self.entries@);
            lemma_map_of_value(self.entries@);
        }
        let n = self.entries.len();
        if n == 0 {
            return None;
        }
        let (_, first) = self.entries[0];
        let mut best: u64 = first;
        let mut i: usize = 1;
        while i < n
            invariant
                self.wf(),
                n == self.entries@.len(),
                1 <= i <= n,
                exists|k: int| 0 <= k < i && (#[trigger] self.entries@[k]).1 == best,
                forall|k: int| 0 <= k < i ==> best <= (#[trigger] self.entries@[k]).1,
            decreases n - i,
        {
            let (_, d) = self.entries[i];
            if d < best {
                best = d;
            }
            i += 1;
        }
        proof {
            let k = choose|k: int| 0 <= k < n && (#[trigger] self.entries@[k]).1 == best;
            assert(self.view().contains_key(self.entries@[k].0));
            assert(self.view()[self.entries@[k].0] == best);
            assert forall|p: u8| self.view().contains_key(p) implies best <= self.view()[p] by {
                let m = choose|m: int|
                    0 <= m < self.entries@.len() && (#[trigger] self.entries@[m]).0 == p;
                assert(self.view()[p] == self.entries@[m].1);
            }
        }
        Some(best)
    }
}

} // verus!
