//! Bounded assembly table at the acceptor.
//!
//! The handshake of one session arrives as `size` independent datagrams, one
//! per path, in any order. `Backlog` groups them: values inserted under the
//! same session key accumulate until their count reaches the target size,
//! at which point the whole list is handed back and the entry disappears.
//! Admission is bounded: when `table_max` sessions are already assembling, a
//! new session's first value is dropped. Entries that stop growing are swept
//! by `clean` once their last insert is older than the timeout.
//!
//! The table is modelled as a `Map` from session to partial assembly; the
//! concrete representation is an association list with unique keys.

use vstd::prelude::*;

use crate::message::Session;

verus! {

/// Ghost model of one partial assembly: the values inserted so far in
/// arrival order, the target size, and the time of the last insert.
pub ghost struct EntryModel<V> {
    pub list: Seq<V>,
    pub size: nat,
    pub last_update: u64,
}

impl<V> EntryModel<V> {
    /// An entry that rests in the table is valid and strictly incomplete.
    pub open spec fn wf(self) -> bool {
        self.size >= 1 && self.list.len() < self.size
    }

    /// Whether the entry's last insert is older than `timeout` at `now`.
    pub open spec fn timed_out(self, now: u64, timeout: u64) -> bool {
        now - self.last_update > timeout
    }
}

/// One partial assembly: the values received so far, the number that
/// completes the assembly, and the time of the last insert.
#[derive(Debug)]
pub struct EphemeralVec<T> {
    pub list: Vec<T>,
    pub size: usize,
    pub last_update: u64,
}

impl<T> View for EphemeralVec<T> {
    type V = EntryModel<T>;

    open spec fn view(&self) -> EntryModel<T> {
        EntryModel { list: self.list@, size: self.size as nat, last_update: self.last_update }
    }
}

/// What one insert did to a partial assembly: either it is still growing, or
/// it reached its target size and dissolved into the finished list.
#[derive(Debug)]
pub enum PushResult<T> {
    Incomplete(EphemeralVec<T>),
    Complete(Vec<T>),
}

impl<T> EphemeralVec<T> {
    pub fn new(size: usize, now: u64) -> (e: EphemeralVec<T>)
        requires
            size >= 1,
        ensures
            e@ == (EntryModel::<T> { list: Seq::empty(), size: size as nat, last_update: now }),
    {
        let e = EphemeralVec { list: Vec::new(), size, last_update: now };
        proof {
            assert(e@.list =~= Seq::<T>::empty());
        }
        e
    }

    /// Appends one value. Completes the assembly when the count reaches the
    /// target size; otherwise refreshes the entry's timestamp.
    pub fn push(self, value: T, now: u64) -> (r: PushResult<T>)
        requires
            self@.list.len() < self@.size,
        ensures
            match r {
                PushResult::Complete(l) => self@.list.len() + 1 == self@.size && l@ == self@.list.push(value),
                PushResult::Incomplete(e) => self@.list.len() + 1 < self@.size && e@ == (EntryModel {
                    list: self@.list.push(value),
                    size: self@.size,
                    last_update: now,
                }),
            },
    {
        let mut list = self.list;
        list.push(value);
        if list.len() == self.size {
            return PushResult::Complete(list);
        }
        PushResult::Incomplete(EphemeralVec { list, size: self.size, last_update: now })
    }

    /// Whether the last insert is older than `timeout` at `now`.
    pub fn timed_out(&self, now: u64, timeout: u64) -> (r: bool)
        ensures
            r == self@.timed_out(now, timeout),
    {
        if now >= self.last_update {
            now - self.last_update > timeout
        } else {
            false
        }
    }
}

/// No session key occurs twice in the association list.
pub open spec fn unique_keys<V>(s: Seq<(Session, EphemeralVec<V>)>) -> bool {
    forall|i: int, j: int| #![trigger s[i], s[j]] 0 <= i < j < s.len() ==> s[i].0 != s[j].0
}

/// The map an association list stands for.
pub open spec fn map_of<V>(s: Seq<(Session, EphemeralVec<V>)>) -> Map<Session, EntryModel<V>>
    decreases s.len(),
{
    if s.len() == 0 {
        Map::empty()
    } else {
        map_of(s.drop_last()).insert(s.last().0, s.last().1@)
    }
}

pub proof fn lemma_unique_drop_last<V>(s: Seq<(Session, EphemeralVec<V>)>)
    requires
        unique_keys(s),
        s.len() > 0,
    ensures
        unique_keys(s.drop_last()),
{
    let prefix = s.drop_last();
    assert forall|i: int, j: int| #![trigger prefix[i], prefix[j]] 0 <= i < j < prefix.len()
        implies prefix[i].0 != prefix[j].0 by {
        assert(prefix[i] == s[i]);
        assert(prefix[j] == s[j]);
    }
}

/// With unique keys, the map agrees with the list: a key is present exactly
/// when some pair carries it, that pair's entry is its value, and the map has
/// one key per pair.
pub proof fn lemma_map_of_properties<V>(s: Seq<(Session, EphemeralVec<V>)>)
    requires
        unique_keys(s),
    ensures
        map_of(s).dom().finite(),
        map_of(s).len() == s.len(),
        forall|k: Session| #[trigger]
            map_of(s).contains_key(k) <==> exists|i: int|
                0 <= i < s.len() && (#[trigger] s[i]).0 == k,
        forall|i: int| 0 <= i < s.len() ==> map_of(s)[(#[trigger] s[i]).0] == s[i].1@,
    decreases s.len(),
{
    if s.len() == 0 {
    } else {
        let prefix = s.drop_last();
        lemma_unique_drop_last(s);
        lemma_map_of_properties(prefix);
        let m0 = map_of(prefix);
        let kl = s.last().0;
        let vl = s.last().1@;
        assert(s.last() == s[s.len() - 1]);
        assert(!m0.contains_key(kl)) by {
            if m0.contains_key(kl) {
                let i = choose|i: int| 0 <= i < prefix.len() && (#[trigger] prefix[i]).0 == kl;
                assert(s[i] == prefix[i]);
                assert(s[i].0 == s[s.len() - 1].0);
                assert(false);
            }
        };
        assert(map_of(s) == m0.insert(kl, vl));
        assert(map_of(s).dom() =~= m0.dom().insert(kl));
        assert forall|k: Session| #[trigger] map_of(s).contains_key(k) implies exists|i: int|
            0 <= i < s.len() && (#[trigger] s[i]).0 == k by {
            if k == kl {
                assert(s[s.len() - 1].0 == k);
            } else {
                assert(m0.contains_key(k));
                let i = choose|i: int| 0 <= i < prefix.len() && (#[trigger] prefix[i]).0 == k;
                assert(s[i] == prefix[i]);
                assert(s[i].0 == k);
            }
        }
        assert forall|k: Session| (exists|i: int| 0 <= i < s.len() && (#[trigger] s[i]).0 == k)
            implies #[trigger] map_of(s).contains_key(k) by {
            let i = choose|i: int| 0 <= i < s.len() && (#[trigger] s[i]).0 == k;
            if i == s.len() - 1 {
                assert(k == kl);
            } else {
                assert(prefix[i] == s[i]);
                assert(m0.contains_key(k));
            }
        }
        assert forall|i: int| 0 <= i < s.len() implies map_of(s)[(#[trigger] s[i]).0] == s[i].1@ by {
            if i == s.len() - 1 {
            } else {
                assert(prefix[i] == s[i]);
                assert(s[i].0 != kl);
                assert(m0[s[i].0] == s[i].1@);
            }
        }
    }
}

/// Appending a pair inserts its key.
pub proof fn lemma_map_of_push<V>(s: Seq<(Session, EphemeralVec<V>)>, p: (Session, EphemeralVec<V>))
    ensures
        map_of(s.push(p)) == map_of(s).insert(p.0, p.1@),
{
    assert(s.push(p).drop_last() =~= s);
    assert(s.push(p).last() == p);
}

/// Removing the pair at `i` removes its key.
pub proof fn lemma_map_of_remove<V>(s: Seq<(Session, EphemeralVec<V>)>, i: int)
    requires
        unique_keys(s),
        0 <= i < s.len(),
    ensures
        map_of(s.remove(i)) == map_of(s).remove(s[i].0),
        unique_keys(s.remove(i)),
    decreases s.len(),
{
    let prefix = s.drop_last();
    let t = s.remove(i);
    lemma_unique_drop_last(s);
    lemma_map_of_properties(prefix);
    let m0 = map_of(prefix);
    let kl = s.last().0;
    let vl = s.last().1@;
    assert(s.last() == s[s.len() - 1]);
    assert(!m0.contains_key(kl)) by {
        if m0.contains_key(kl) {
            let j = choose|j: int| 0 <= j < prefix.len() && (#[trigger] prefix[j]).0 == kl;
            assert(s[j] == prefix[j]);
            assert(false);
        }
    };
    assert forall|a: int, b: int| #![trigger t[a], t[b]] 0 <= a < b < t.len() implies t[a].0
        != t[b].0 by {
        let a0 = if a < i {
            a
        } else {
            a + 1
        };
        let b0 = if b < i {
            b
        } else {
            b + 1
        };
        assert(t[a] == s[a0]);
        assert(t[b] == s[b0]);
    }
    if i == s.len() - 1 {
        assert(t =~= prefix);
        assert(map_of(s).remove(s[i].0) =~= m0);
    } else {
        lemma_map_of_remove(prefix, i);
        assert(t.drop_last() =~= prefix.remove(i));
        assert(t.last() == s.last());
        assert(t.len() > 0);
        assert(map_of(t) == map_of(prefix.remove(i)).insert(kl, vl));
        assert(s[i] == prefix[i]);
        assert(s[i].0 != kl);
        assert(map_of(prefix).remove(s[i].0).insert(kl, vl) =~= map_of(prefix).insert(
            kl,
            vl,
        ).remove(s[i].0));
    }
}

/// The association list after a sweep at `now`: the pairs whose entries are
/// not timed out, in order.
pub open spec fn spec_sweep<V>(
    s: Seq<(Session, EphemeralVec<V>)>,
    now: u64,
    timeout: u64,
) -> Seq<(Session, EphemeralVec<V>)>
    decreases s.len(),
{
    if s.len() == 0 {
        Seq::empty()
    } else if s.last().1@.timed_out(now, timeout) {
        spec_sweep(s.drop_last(), now, timeout)
    } else {
        spec_sweep(s.drop_last(), now, timeout).push(s.last())
    }
}

/// A sweep keeps exactly the pairs that are not timed out, with their
/// contents; keys stay unique and every surviving pair comes from the list
/// that was swept.
pub proof fn lemma_sweep_properties<V>(s: Seq<(Session, EphemeralVec<V>)>, now: u64, timeout: u64)
    requires
        unique_keys(s),
    ensures
        unique_keys(spec_sweep(s, now, timeout)),
        forall|j: int|
            0 <= j < spec_sweep(s, now, timeout).len() ==> exists|t: int|
                0 <= t < s.len() && (#[trigger] spec_sweep(s, now, timeout)[j]) == s[t],
        forall|k: Session| #[trigger]
            map_of(spec_sweep(s, now, timeout)).contains_key(k) <==> (map_of(s).contains_key(k)
                && !map_of(s)[k].timed_out(now, timeout)),
        forall|k: Session| #[trigger]
            map_of(spec_sweep(s, now, timeout)).contains_key(k) ==> map_of(
                spec_sweep(s, now, timeout),
            )[k] == map_of(s)[k],
    decreases s.len(),
{
    let w = spec_sweep(s, now, timeout);
    if s.len() == 0 {
    } else {
        let prefix = s.drop_last();
        lemma_unique_drop_last(s);
        lemma_sweep_properties(prefix, now, timeout);
        lemma_map_of_properties(prefix);
        let w0 = spec_sweep(prefix, now, timeout);
        let m0 = map_of(prefix);
        let kl = s.last().0;
        let vl = s.last().1@;
        assert(s.last() == s[s.len() - 1]);
        assert(!m0.contains_key(kl)) by {
            if m0.contains_key(kl) {
                let j = choose|j: int| 0 <= j < prefix.len() && (#[trigger] prefix[j]).0 == kl;
                assert(s[j] == prefix[j]);
                assert(false);
            }
        };
        assert(!map_of(w0).contains_key(kl));
        assert(map_of(s) == m0.insert(kl, vl));
        assert forall|j: int| 0 <= j < w0.len() implies exists|t: int|
            0 <= t < s.len() && (#[trigger] w0[j]) == s[t] by {
            let t = choose|t: int| 0 <= t < prefix.len() && (#[trigger] w0[j]) == prefix[t];
            assert(s[t] == prefix[t]);
            assert(w0[j] == s[t]);
        }
        if vl.timed_out(now, timeout) {
            assert(w == w0);
            assert forall|k: Session| #[trigger] map_of(w).contains_key(k) implies (map_of(
                s,
            ).contains_key(k) && !map_of(s)[k].timed_out(now, timeout)) by {
                assert(k != kl);
                assert(m0.contains_key(k) && !m0[k].timed_out(now, timeout));
            }
            assert forall|k: Session|
                (map_of(s).contains_key(k) && !map_of(s)[k].timed_out(now, timeout)) implies #[trigger]
                map_of(w).contains_key(k) by {
                if k == kl {
                    assert(map_of(s)[kl] == vl);
                    assert(false);
                } else {
                    assert(m0.contains_key(k) && !m0[k].timed_out(now, timeout));
                }
            }
        } else {
            assert(w == w0.push(s.last()));
            lemma_map_of_push(w0, s.last());
            lemma_map_of_properties(w0);
            assert forall|a: int, b: int| #![trigger w[a], w[b]] 0 <= a < b < w.len() implies w[a].0
                != w[b].0 by {
                if b < w0.len() {
                    assert(w[a] == w0[a]);
                    assert(w[b] == w0[b]);
                } else {
                    assert(w[b] == s.last());
                    assert(w[a] == w0[a]);
                    if w0[a].0 == kl {
                        assert(map_of(w0).contains_key(kl));
                        assert(false);
                    }
                }
            }
            assert forall|j: int| 0 <= j < w.len() implies exists|t: int|
                0 <= t < s.len() && (#[trigger] w[j]) == s[t] by {
                if j < w0.len() {
                    assert(w[j] == w0[j]);
                    let t = choose|t: int| 0 <= t < s.len() && w0[j] == s[t];
                    assert(w[j] == s[t]);
                } else {
                    assert(w[j] == s[s.len() - 1]);
                }
            }
            assert(map_of(w) == map_of(w0).insert(kl, vl));
            assert forall|k: Session| #[trigger] map_of(w).contains_key(k) implies (map_of(
                s,
            ).contains_key(k) && !map_of(s)[k].timed_out(now, timeout)) by {
                if k == kl {
                    assert(map_of(s)[kl] == vl);
                } else {
                    assert(map_of(w0).contains_key(k));
                    assert(m0.contains_key(k) && !m0[k].timed_out(now, timeout));
                }
            }
            assert forall|k: Session|
                (map_of(s).contains_key(k) && !map_of(s)[k].timed_out(now, timeout)) implies #[trigger]
                map_of(w).contains_key(k) by {
                if k != kl {
                    assert(m0.contains_key(k) && !m0[k].timed_out(now, timeout));
                    assert(map_of(w0).contains_key(k));
                }
            }
            assert forall|k: Session| #[trigger] map_of(w).contains_key(k) implies map_of(w)[k]
                == map_of(s)[k] by {
                if k != kl {
                    assert(map_of(w0).contains_key(k));
                    assert(map_of(w0)[k] == m0[k]);
                }
            }
        }
    }
}

/// The bounded assembly table: an association list from session to partial
/// assembly, admitting at most `table_max` sessions at a time.
#[derive(Debug)]
pub struct Backlog<V> {
    pub incomplete_table: Vec<(Session, EphemeralVec<V>)>,
    pub table_max: usize,
}

impl<V> View for Backlog<V> {
    type V = Map<Session, EntryModel<V>>;

    open spec fn view(&self) -> Map<Session, EntryModel<V>> {
        map_of(self.incomplete_table@)
    }
}

/// The table after one insert of `value` under `key`: a completed entry
/// disappears, a growing one is refreshed, a new session is admitted only
/// below the cap, and a session completed by its very first value never
/// rests in the table at all.
pub open spec fn spec_handle_map<V>(
    m: Map<Session, EntryModel<V>>,
    table_max: nat,
    key: Session,
    value: V,
    size: nat,
    now: u64,
) -> Map<Session, EntryModel<V>> {
    if m.contains_key(key) {
        let e = m[key];
        if e.list.len() + 1 == e.size {
            m.remove(key)
        } else {
            m.insert(key, (EntryModel { list: e.list.push(value), size: e.size, last_update: now }))
        }
    } else if m.len() >= table_max {
        m
    } else if size == 1 {
        m
    } else {
        m.insert(key, (EntryModel { list: seq![value], size: size, last_update: now }))
    }
}

/// What one insert returns: the finished list exactly when it brings its
/// entry to the target size.
pub open spec fn spec_handle_out<V>(
    m: Map<Session, EntryModel<V>>,
    table_max: nat,
    key: Session,
    value: V,
    size: nat,
) -> Option<Seq<V>> {
    if m.contains_key(key) {
        let e = m[key];
        if e.list.len() + 1 == e.size {
            Some(e.list.push(value))
        } else {
            None
        }
    } else if m.len() >= table_max {
        None
    } else if size == 1 {
        Some(seq![value])
    } else {
        None
    }
}

impl<V> Backlog<V> {
    /// Every resting entry is strictly incomplete, keys are unique, and the
    /// cap is positive.
    pub open spec fn wf(self) -> bool {
        &&& self.table_max >= 1
        &&& unique_keys(self.incomplete_table@)
        &&& forall|i: int|
            0 <= i < self.incomplete_table@.len() ==> (#[trigger] self.incomplete_table@[i]).1@.wf()
    }

    pub fn new(table_max: usize) -> (b: Backlog<V>)
        requires
            table_max >= 1,
        ensures
            b.wf(),
            b@ == Map::<Session, EntryModel<V>>::empty(),
            b.table_max == table_max,
    {
        Backlog { incomplete_table: Vec::new(), table_max }
    }

    fn find_key(table: &Vec<(Session, EphemeralVec<V>)>, key: Session) -> (r: Option<usize>)
        ensures
            match r {
                Some(i) => i < table@.len() && table@[i as int].0 == key,
                None => forall|j: int| 0 <= j < table@.len() ==> (#[trigger] table@[j]).0 != key,
            },
    {
        let mut i: usize = 0;
        while i < table.len()
            invariant
                i <= table@.len(),
                forall|j: int| 0 <= j < i ==> (#[trigger] table@[j]).0 != key,
            decreases table@.len() - i,
        {
            if table[i].0.0 == key.0 {
                return Some(i);
            }
            i += 1;
        }
        None
    }

    /// Removes every entry whose last insert is older than `timeout` at
    /// `now`; the survivors keep their contents.
    pub fn clean(&mut self, now: u64, timeout: u64)
        requires
            old(self).wf(),
        ensures
            final(self).wf(),
            final(self).table_max == old(self).table_max,
            forall|k: Session| #[trigger]
                final(self)@.contains_key(k) <==> (old(self)@.contains_key(k) && !old(
                    self,
                )@[k].timed_out(now, timeout)),
            forall|k: Session| #[trigger]
                final(self)@.contains_key(k) ==> final(self)@[k] == old(self)@[k],
    {
        let ghost orig = self.incomplete_table@;
        proof {
            lemma_map_of_properties(orig);
        }
        let mut kept: Vec<(Session, EphemeralVec<V>)> = Vec::new();
        let ghost i: int = 0;
        while self.incomplete_table.len() > 0
            invariant
                0 <= i <= orig.len(),
                orig == old(self).incomplete_table@,
                old(self).wf(),
                self.table_max == old(self).table_max,
                self.incomplete_table@ =~= orig.skip(i),
                kept@ =~= spec_sweep(orig.take(i), now, timeout),
            decreases orig.len() - i,
        {
            let pair = self.incomplete_table.remove(0);
            proof {
                assert(pair == orig[i]);
                assert(orig.skip(i).remove(0) =~= orig.skip(i + 1));
                assert(orig.take(i + 1).drop_last() =~= orig.take(i));
                assert(orig.take(i + 1).last() == orig[i]);
            }
            if pair.1.timed_out(now, timeout) {
                proof {
                    assert(kept@ =~= spec_sweep(orig.take(i + 1), now, timeout));
                }
            } else {
                kept.push(pair);
                proof {
                    assert(kept@ =~= spec_sweep(orig.take(i + 1), now, timeout));
                }
            }
            proof {
                i = i + 1;
            }
        }
        proof {
            assert(orig.take(orig.len() as int) =~= orig);
            lemma_sweep_properties(orig, now, timeout);
            assert(kept@ == spec_sweep(orig, now, timeout));
            assert forall|j: int| 0 <= j < kept@.len() implies (#[trigger] kept@[j]).1@.wf() by {
                let t = choose|t: int|
                    0 <= t < orig.len() && spec_sweep(orig, now, timeout)[j] == orig[t];
                assert(orig[t].1@.wf());
            }
        }
        self.incomplete_table = kept;
    }

    /// Inserts `value` under `key`; a new session starts an assembly that
    /// completes after `size` inserts. Returns the finished list exactly
    /// when this insert is the one that completes the assembly.
    pub fn handle(&mut self, key: Session, value: V, size: usize, now: u64) -> (r: Option<Vec<V>>)
        requires
            old(self).wf(),
            size >= 1,
        ensures
            final(self).wf(),
            final(self).table_max == old(self).table_max,
            final(self)@ == spec_handle_map(
                old(self)@,
                old(self).table_max as nat,
                key,
                value,
                size as nat,
                now,
            ),
            match r {
                Some(l) => spec_handle_out(
                    old(self)@,
                    old(self).table_max as nat,
                    key,
                    value,
                    size as nat,
                ) == Some(l@),
                None => spec_handle_out(
                    old(self)@,
                    old(self).table_max as nat,
                    key,
                    value,
                    size as nat,
                ) is None,
            },
    {
        proof {
            lemma_map_of_properties(self.incomplete_table@);
        }
        let ghost orig = self.incomplete_table@;
        let ghost m = map_of(orig);
        match Self::find_key(&self.incomplete_table, key) {
            Some(i) => {
                proof {
                    assert(m.contains_key(key));
                    assert(m[key] == orig[i as int].1@);
                    lemma_map_of_remove(orig, i as int);
                }
                let pair = self.incomplete_table.remove(i);
                let ev = pair.1;
                match ev.push(value, now) {
                    PushResult::Complete(list) => {
                        proof {
                            assert(final(self)@ == m.remove(key));
                        }
                        Some(list)
                    },
                    PushResult::Incomplete(ev2) => {
                        proof {
                            lemma_map_of_push(orig.remove(i as int), (key, ev2));
                            assert(m.remove(key).insert(key, ev2@) =~= m.insert(key, ev2@));
                        }
                        let ghost removed = orig.remove(i as int);
                        proof {
                            assert forall|a: int, b: int|
                                #![trigger removed.push((key, ev2))[a], removed.push((key, ev2))[b]]
                                0 <= a < b < removed.push((key, ev2)).len() implies removed.push(
                                (key, ev2),
                            )[a].0 != removed.push((key, ev2))[b].0 by {
                                let t = removed.push((key, ev2));
                                if b < removed.len() {
                                    assert(t[a] == removed[a]);
                                    assert(t[b] == removed[b]);
                                } else {
                                    assert(t[b].0 == key);
                                    assert(t[a] == removed[a]);
                                    let a0 = if a < i {
                                        a
                                    } else {
                                        a + 1
                                    };
                                    assert(removed[a] == orig[a0]);
                                    assert(orig[i as int].0 == key);
                                }
                            }
                        }
                        self.incomplete_table.push((key, ev2));
                        None
                    },
                }
            },
            None => {
                proof {
                    if m.contains_key(key) {
                        let j = choose|j: int| 0 <= j < orig.len() && (#[trigger] orig[j]).0 == key;
                        assert(false);
                    }
                }
                if self.incomplete_table.len() >= self.table_max {
                    return None;
                }
                let ev = EphemeralVec::new(size, now);
                match ev.push(value, now) {
                    PushResult::Complete(list) => {
                        proof {
                            assert(list@ =~= seq![value]);
                        }
                        Some(list)
                    },
                    PushResult::Incomplete(ev2) => {
                        proof {
                            lemma_map_of_push(orig, (key, ev2));
                            assert(ev2@.list =~= seq![value]);
                            assert forall|a: int, b: int|
                                #![trigger orig.push((key, ev2))[a], orig.push((key, ev2))[b]]
                                0 <= a < b < orig.push((key, ev2)).len() implies orig.push(
                                (key, ev2),
                            )[a].0 != orig.push((key, ev2))[b].0 by {
                                let t = orig.push((key, ev2));
                                if b < orig.len() {
                                    assert(t[a] == orig[a]);
                                    assert(t[b] == orig[b]);
                                } else {
                                    assert(t[b].0 == key);
                                    assert(t[a] == orig[a]);
                                }
                            }
                        }
                        self.incomplete_table.push((key, ev2));
                        None
                    },
                }
            },
        }
    }
}

// --- laws -----------------------------------------------------------------

/// The table model after the values of one session have been inserted one at
/// a time under `key`, the `i`-th at time `times[i]`.
pub open spec fn spec_handle_iter<V>(
    m: Map<Session, EntryModel<V>>,
    table_max: nat,
    key: Session,
    values: Seq<V>,
    size: nat,
    times: Seq<u64>,
) -> Map<Session, EntryModel<V>>
    recommends
        times.len() == values.len(),
    decreases values.len(),
{
    if values.len() == 0 {
        m
    } else {
        spec_handle_map(
            spec_handle_iter(m, table_max, key, values.drop_last(), size, times.drop_last()),
            table_max,
            key,
            values.last(),
            size,
            times.last(),
        )
    }
}

/// While an assembly is still short of its target size, the table holds
/// exactly the values inserted so far, in arrival order, stamped with the
/// time of the last insert; the rest of the table is untouched.
pub proof fn lemma_assembly_state<V>(
    m: Map<Session, EntryModel<V>>,
    table_max: nat,
    key: Session,
    values: Seq<V>,
    size: nat,
    times: Seq<u64>,
)
    requires
        m.dom().finite(),
        !m.contains_key(key),
        m.len() < table_max,
        1 <= values.len() < size,
        times.len() == values.len(),
    ensures
        spec_handle_iter(m, table_max, key, values, size, times) == m.insert(
            key,
            (EntryModel { list: values, size: size, last_update: times.last() }),
        ),
    decreases values.len(),
{
    if values.len() == 1 {
        assert(values.drop_last().len() == 0);
        assert(spec_handle_iter(m, table_max, key, values.drop_last(), size, times.drop_last())
            == m);
        assert(seq![values.last()] =~= values);
    } else {
        lemma_assembly_state(m, table_max, key, values.drop_last(), size, times.drop_last());
        let prev = m.insert(
            key,
            (EntryModel {
                list: values.drop_last(),
                size: size,
                last_update: times.drop_last().last(),
            }),
        );
        assert(prev.contains_key(key));
        assert(prev[key].list.len() + 1 == values.len());
        assert(values.drop_last().push(values.last()) =~= values);
        assert(prev.insert(
            key,
            (EntryModel { list: values, size: size, last_update: times.last() }),
        ) =~= m.insert(key, (EntryModel { list: values, size: size, last_update: times.last() })));
    }
}

/// One session, any arrival order: inserting a session's `size` values one
/// at a time — into a table that does not hold the session and still has
/// room — returns nothing for every insert but the last, returns exactly the
/// `size` values (in arrival order) for the last, and leaves the table as it
/// was before the first insert. Since the values are an arbitrary sequence,
/// this covers every permutation of the arrivals.
pub proof fn lemma_assembly_completes<V>(
    m: Map<Session, EntryModel<V>>,
    table_max: nat,
    key: Session,
    values: Seq<V>,
    size: nat,
    times: Seq<u64>,
)
    requires
        m.dom().finite(),
        !m.contains_key(key),
        m.len() < table_max,
        values.len() == size,
        1 <= size,
        times.len() == size,
    ensures
        forall|i: int|
            0 <= i < size - 1 ==> spec_handle_out(
                spec_handle_iter(m, table_max, key, values.take(i), size, times.take(i)),
                table_max,
                key,
                values[i],
                size,
            ) is None,
        spec_handle_out(
            spec_handle_iter(
                m,
                table_max,
                key,
                values.take(size - 1),
                size,
                times.take(size - 1),
            ),
            table_max,
            key,
            values[size - 1],
            size,
        ) == Some(values),
        spec_handle_iter(m, table_max, key, values, size, times) == m,
{
    assert forall|i: int|
        0 <= i < size - 1 implies spec_handle_out(
        spec_handle_iter(m, table_max, key, values.take(i), size, times.take(i)),
        table_max,
        key,
        values[i],
        size,
    ) is None by {
        if i == 0 {
            assert(values.take(0).len() == 0);
        } else {
            lemma_assembly_state(m, table_max, key, values.take(i), size, times.take(i));
            let st = spec_handle_iter(m, table_max, key, values.take(i), size, times.take(i));
            assert(st[key].list.len() + 1 == i + 1);
        }
    }
    if size == 1 {
        assert(values.take(0).len() == 0);
        assert(seq![values[0]] =~= values);
        assert(values.drop_last().len() == 0);
    } else {
        lemma_assembly_state(m, table_max, key, values.take(size - 1), size, times.take(size - 1));
        let st = spec_handle_iter(
            m,
            table_max,
            key,
            values.take(size - 1),
            size,
            times.take(size - 1),
        );
        assert(st[key].list.len() + 1 == size);
        assert(values.take(size - 1).push(values[size - 1]) =~= values);
        assert(values.drop_last() =~= values.take(size - 1));
        assert(times.drop_last() =~= times.take(size - 1));
        assert(st.remove(key) =~= m);
    }
}

/// Admission control: when the table is full, the first insert of a session
/// it does not hold returns nothing and perturbs no existing entry.
pub proof fn lemma_admission_control<V>(
    m: Map<Session, EntryModel<V>>,
    table_max: nat,
    key: Session,
    value: V,
    size: nat,
    now: u64,
)
    requires
        !m.contains_key(key),
        m.len() >= table_max,
    ensures
        spec_handle_map(m, table_max, key, value, size, now) == m,
        spec_handle_out(m, table_max, key, value, size) is None,
{
}

} // verus!
