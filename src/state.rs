//! The in-memory state of a store: the live set of the current mark cycle,
//! the temp tags that callers hold, and the transient partial entries of
//! small blobs.
use vstd::prelude::*;

use crate::hash::HashAndFormat;
use vstd::multiset::Multiset;

verus! {

broadcast use vstd::seq_lib::group_to_multiset_ensures;

/// The key of a temp tag: the hash bytes and the format code.
pub open spec fn tag_key(t: HashAndFormat) -> (Seq<u8>, u64) {
    (t.hash.0@, t.format.0)
}

/// The in-memory state.
#[derive(Debug)]
pub struct State {
    /// hashes protected from deletion in this mark cycle
    pub live: Vec<crate::hash::Hash>,
    /// one element per temp tag held
    pub temp: Vec<HashAndFormat>,
    /// transient partial entries: hash and target size, each hash once
    pub partial: Vec<(crate::hash::Hash, u64)>,
}

impl State {
    /// The live set.
    pub open spec fn live_view(&self) -> Set<Seq<u8>> {
        self.live@.map_values(|h: crate::hash::Hash| h.0@).to_set()
    }

    /// The temp tags held, with their counts.
    pub open spec fn temp_view(&self) -> Multiset<(Seq<u8>, u64)> {
        self.temp@.map_values(|t: HashAndFormat| tag_key(t)).to_multiset()
    }

    /// The hashes of the transient partial entries.
    pub open spec fn partial_keys(&self) -> Seq<Seq<u8>> {
        self.partial@.map_values(|e: (crate::hash::Hash, u64)| e.0.0@)
    }

    /// The transient partial entries: hash to target size.
    pub open spec fn partial_view(&self) -> Map<Seq<u8>, u64> {
        entries_map(self.partial@)
    }

    /// True when some temp tag for the hash is held, in any format.
    pub open spec fn tagged(&self, h: Seq<u8>) -> bool {
        exists|f: u64| #[trigger] self.temp_view().count((h, f)) > 0
    }

    /// A hash is live if it is in the live set or temp tagged.
    pub open spec fn live_spec(&self, h: Seq<u8>) -> bool {
        self.live_view().contains(h) || self.tagged(h)
    }

    /// The empty state.
    pub fn new() -> (r: State)
        ensures
            r.live_view().is_empty(),
            r.temp_view().len() == 0,
            r.partial_view().is_empty(),
    {
        let r = State { live: Vec::new(), temp: Vec::new(), partial: Vec::new() };
        assert(r.live_view() =~= Set::empty());
        assert(r.partial_view() =~= Map::empty());
        r
    }

    /// Empties the live set; temp tags and partial entries stay.
    pub fn clear_live(&mut self)
        ensures
            final(self).live_view().is_empty(),
            final(self).temp == old(self).temp,
            final(self).partial == old(self).partial,
    {
        self.live.clear();
        assert(self.live_view() =~= Set::empty());
    }

    /// Adds hashes to the live set.
    pub fn add_live(&mut self, hashes: &Vec<crate::hash::Hash>)
        ensures
            final(self).live_view() == old(self).live_view().union(
                hashes@.map_values(|h: crate::hash::Hash| h.0@).to_set(),
            ),
            final(self).temp == old(self).temp,
            final(self).partial == old(self).partial,
    {
        let ghost added = hashes@.map_values(|h: crate::hash::Hash| h.0@);
        let mut i: usize = 0;
        while i < hashes.len()
            invariant
                i <= hashes@.len(),
                added == hashes@.map_values(|h: crate::hash::Hash| h.0@),
                self.live_view() == old(self).live_view().union(added.subrange(0, i as int).to_set()),
                self.temp == old(self).temp,
                self.partial == old(self).partial,
            decreases hashes@.len() - i,
        {
            let ghost before = self.live@;
            self.live.push(hashes[i]);
            proof {
                lemma_push_to_set(before.map_values(|h: crate::hash::Hash| h.0@), hashes@[i as int].0@);
                assert(self.live@.map_values(|h: crate::hash::Hash| h.0@) =~= before.map_values(
                    |h: crate::hash::Hash| h.0@,
                ).push(hashes@[i as int].0@));
                lemma_push_to_set(added.subrange(0, i as int), added[i as int]);
                assert(added.subrange(0, i + 1) =~= added.subrange(0, i as int).push(added[i as int]));
                assert(self.live_view() =~= old(self).live_view().union(added.subrange(0, i + 1).to_set()));
            }
            i = i + 1;
        }
        assert(added.subrange(0, hashes@.len() as int) =~= added);
    }

    /// Adds one hash to the live set.
    pub fn insert_live(&mut self, hash: crate::hash::Hash)
        ensures
            final(self).live_view() == old(self).live_view().insert(hash.0@),
            final(self).temp == old(self).temp,
            final(self).partial == old(self).partial,
    {
        let ghost before = self.live@;
        self.live.push(hash);
        proof {
            lemma_push_to_set(before.map_values(|h: crate::hash::Hash| h.0@), hash.0@);
            assert(self.live@.map_values(|h: crate::hash::Hash| h.0@) =~= before.map_values(
                |h: crate::hash::Hash| h.0@,
            ).push(hash.0@));
        }
    }

    /// True if the hash is in the live set or has a temp tag.
    pub fn is_live(&self, hash: &crate::hash::Hash) -> (r: bool)
        ensures
            r == self.live_spec(hash.0@),
    {
        let mut i: usize = 0;
        while i < self.live.len()
            invariant
                i <= self.live@.len(),
                forall|j: int| 0 <= j < i ==> self.live@[j].0@ != hash.0@,
            decreases self.live@.len() - i,
        {
            if self.live[i] == *hash {
                proof {
                    assert(self.live@.map_values(|h: crate::hash::Hash| h.0@)[i as int] == hash.0@);
                }
                return true;
            }
            i = i + 1;
        }
        let mut k: usize = 0;
        while k < self.temp.len()
            invariant
                k <= self.temp@.len(),
                forall|j: int| 0 <= j < k ==> self.temp@[j].hash.0@ != hash.0@,
            decreases self.temp@.len() - k,
        {
            if self.temp[k].hash == *hash {
                proof {
                    let keys = self.temp@.map_values(|t: HashAndFormat| tag_key(t));
                    assert(keys[k as int] == (hash.0@, self.temp@[k as int].format.0));
                    assert(keys.contains((hash.0@, self.temp@[k as int].format.0)));
                    assert(self.temp_view().count((hash.0@, self.temp@[k as int].format.0)) > 0);
                }
                return true;
            }
            k = k + 1;
        }
        proof {
            let keys = self.temp@.map_values(|t: HashAndFormat| tag_key(t));
            assert forall|f: u64| #[trigger] self.temp_view().count((hash.0@, f)) == 0 by {
                if keys.contains((hash.0@, f)) {
                    let j = choose|j: int| 0 <= j < keys.len() && keys[j] == (hash.0@, f);
                    assert(self.temp@[j].hash.0@ == hash.0@);
                }
            }
            let lv = self.live@.map_values(|h: crate::hash::Hash| h.0@);
            if lv.contains(hash.0@) {
                let j = choose|j: int| 0 <= j < lv.len() && lv[j] == hash.0@;
                assert(self.live@[j].0@ == hash.0@);
            }
        }
        false
    }

    /// Records one more holder of a temp tag.
    pub fn on_clone(&mut self, tag: HashAndFormat)
        ensures
            final(self).temp_view() == old(self).temp_view().insert(tag_key(tag)),
            final(self).live == old(self).live,
            final(self).partial == old(self).partial,
    {
        let ghost before = self.temp@;
        self.temp.push(tag);
        proof {
            assert(self.temp@.map_values(|t: HashAndFormat| tag_key(t)) =~= before.map_values(
                |t: HashAndFormat| tag_key(t),
            ).push(tag_key(tag)));
        }
    }

    /// Records that one holder of a temp tag dropped it.
    pub fn on_drop(&mut self, tag: HashAndFormat)
        ensures
            final(self).temp_view() == old(self).temp_view().remove(tag_key(tag)),
            final(self).live == old(self).live,
            final(self).partial == old(self).partial,
    {
        let ghost keys = self.temp@.map_values(|t: HashAndFormat| tag_key(t));
        let mut i: usize = 0;
        while i < self.temp.len()
            invariant
                i <= self.temp@.len(),
                keys == self.temp@.map_values(|t: HashAndFormat| tag_key(t)),
                self.live == old(self).live,
                self.partial == old(self).partial,
                self.temp == old(self).temp,
                forall|j: int| 0 <= j < i ==> keys[j] != tag_key(tag),
            decreases self.temp@.len() - i,
        {
            if self.temp[i] == tag {
                let ghost before = self.temp@;
                self.temp.remove(i);
                proof {
                    assert(keys[i as int] == tag_key(tag));
                    assert(self.temp@.map_values(|t: HashAndFormat| tag_key(t)) =~= keys.remove(
                        i as int,
                    ));
                }
                return;
            }
            i = i + 1;
        }
        proof {
            assert(!keys.contains(tag_key(tag)));
            assert(old(self).temp_view().count(tag_key(tag)) == 0);
            assert(old(self).temp_view().remove(tag_key(tag)) =~= old(self).temp_view());
        }
    }

    /// The hashes of `hashes` that are not live, in order: what a sweep may
    /// delete.
    pub fn deletable(&self, hashes: &Vec<crate::hash::Hash>) -> (r: Vec<crate::hash::Hash>)
        ensures
            forall|h: crate::hash::Hash| #[trigger]
                r@.contains(h) <==> hashes@.contains(h) && !self.live_spec(h.0@),
    {
        let mut out: Vec<crate::hash::Hash> = Vec::new();
        let mut i: usize = 0;
        while i < hashes.len()
            invariant
                i <= hashes@.len(),
                forall|h: crate::hash::Hash| #[trigger]
                    out@.contains(h) <==> hashes@.subrange(0, i as int).contains(h)
                        && !self.live_spec(h.0@),
            decreases hashes@.len() - i,
        {
            let h = hashes[i];
            let live = self.is_live(&h);
            let ghost before = out@;
            if !live {
                out.push(h);
            }
            proof {
                let s = hashes@.subrange(0, i + 1);
                assert(s =~= hashes@.subrange(0, i as int).push(h));
                assert forall|x: crate::hash::Hash| #[trigger]
                    out@.contains(x) <==> s.contains(x) && !self.live_spec(x.0@) by {
                    if out@.contains(x) && !before.contains(x) {
                        assert(out@ == before.push(h));
                        let j = choose|j: int| 0 <= j < out@.len() && out@[j] == x;
                        assert(x == h);
                        assert(s[i as int] == h);
                    }
                    if s.contains(x) && !self.live_spec(x.0@) {
                        let j = choose|j: int| 0 <= j < s.len() && s[j] == x;
                        if j < i {
                            assert(hashes@.subrange(0, i as int)[j] == x);
                        } else {
                            assert(x == h);
                            assert(out@[out@.len() - 1] == h);
                        }
                    }
                    if before.contains(x) {
                        let j = choose|j: int| 0 <= j < before.len() && before[j] == x;
                        assert(out@[j] == x);
                        assert(hashes@.subrange(0, i as int).contains(x));
                        let k = choose|k: int| 0 <= k < i && hashes@.subrange(0, i as int)[k] == x;
                        assert(s[k] == x);
                    }
                }
            }
            i = i + 1;
        }
        assert(hashes@.subrange(0, hashes@.len() as int) =~= hashes@);
        out
    }

    /// The target size of the transient partial entry of a hash.
    pub fn partial_size(&self, hash: &crate::hash::Hash) -> (r: Option<u64>)
        ensures
            r == (if self.partial_view().contains_key(hash.0@) {
                Some(self.partial_view()[hash.0@])
            } else {
                None::<u64>
            }),
    {
        let mut i: usize = self.partial.len();
        proof {
            assert(self.partial@.subrange(0, i as int) =~= self.partial@);
        }
        while i > 0
            invariant
                i <= self.partial@.len(),
                entries_map(self.partial@.subrange(0, i as int)).contains_key(hash.0@)
                    == self.partial_view().contains_key(hash.0@),
                entries_map(self.partial@.subrange(0, i as int)).contains_key(hash.0@)
                    ==> entries_map(self.partial@.subrange(0, i as int))[hash.0@]
                    == self.partial_view()[hash.0@],
            decreases i,
        {
            let ghost pre = self.partial@.subrange(0, i - 1);
            proof {
                assert(self.partial@.subrange(0, i as int) =~= pre.push(self.partial@[i - 1]));
                assert(pre.push(self.partial@[i - 1]).drop_last() =~= pre);
            }
            if self.partial[i - 1].0 == *hash {
                return Some(self.partial[i - 1].1);
            }
            i = i - 1;
        }
        None
    }

    /// The transient partial entry of a hash, created with the given size
    /// when there is none; gives the size of the entry.
    pub fn get_or_insert_partial(&mut self, hash: crate::hash::Hash, size: u64) -> (r: u64)
        ensures
            old(self).partial_view().contains_key(hash.0@) ==> final(self).partial_view() == old(
                self,
            ).partial_view() && r == old(self).partial_view()[hash.0@],
            !old(self).partial_view().contains_key(hash.0@) ==> final(self).partial_view() == old(
                self,
            ).partial_view().insert(hash.0@, size) && r == size,
            final(self).live == old(self).live,
            final(self).temp == old(self).temp,
    {
        match self.partial_size(&hash) {
            Some(s) => s,
            None => {
                self.partial.push((hash, size));
                proof {
                    assert(self.partial@.drop_last() =~= old(self).partial@);
                }
                size
            },
        }
    }

    /// Removes the transient partial entry of a hash.
    pub fn remove_partial(&mut self, hash: &crate::hash::Hash)
        ensures
            final(self).partial_view() == old(self).partial_view().remove(hash.0@),
            final(self).live == old(self).live,
            final(self).temp == old(self).temp,
    {
        let mut kept: Vec<(crate::hash::Hash, u64)> = Vec::new();
        let mut i: usize = 0;
        while i < self.partial.len()
            invariant
                i <= self.partial@.len(),
                self.partial == old(self).partial,
                entries_map(kept@) == entries_map(self.partial@.subrange(0, i as int)).remove(hash.0@),
            decreases self.partial@.len() - i,
        {
            let e = self.partial[i];
            let ghost pre = self.partial@.subrange(0, i as int);
            proof {
                assert(self.partial@.subrange(0, i + 1) =~= pre.push(e));
                assert(self.partial@.subrange(0, i + 1).drop_last() =~= pre);
            }
            if !(e.0 == *hash) {
                let ghost before = kept@;
                kept.push(e);
                proof {
                    assert(kept@.drop_last() =~= before);
                    assert(entries_map(kept@) =~= entries_map(self.partial@.subrange(0, i + 1)).remove(hash.0@));
                }
            } else {
                assert(entries_map(kept@) =~= entries_map(self.partial@.subrange(0, i + 1)).remove(hash.0@));
            }
            i = i + 1;
        }
        proof {
            assert(self.partial@.subrange(0, i as int) =~= self.partial@);
        }
        self.partial = kept;
    }

    /// The temp tags held, each once.
    pub fn temp_tags(&self) -> (r: Vec<HashAndFormat>)
        ensures
            r@.map_values(|t: HashAndFormat| tag_key(t)).no_duplicates(),
            r@.map_values(|t: HashAndFormat| tag_key(t)).to_set() == self.temp_view().dom(),
    {
        let ghost keys = self.temp@.map_values(|t: HashAndFormat| tag_key(t));
        let mut out: Vec<HashAndFormat> = Vec::new();
        let mut i: usize = 0;
        while i < self.temp.len()
            invariant
                i <= self.temp@.len(),
                keys == self.temp@.map_values(|t: HashAndFormat| tag_key(t)),
                out@.map_values(|t: HashAndFormat| tag_key(t)).no_duplicates(),
                out@.map_values(|t: HashAndFormat| tag_key(t)).to_set() == keys.subrange(0, i as int).to_set(),
            decreases self.temp@.len() - i,
        {
            let t = self.temp[i];
            let ghost ok = out@.map_values(|t: HashAndFormat| tag_key(t));
            let found = holds_tag(&out, &t);
            proof {
                assert(keys.subrange(0, i + 1) =~= keys.subrange(0, i as int).push(tag_key(t)));
                lemma_push_to_set(keys.subrange(0, i as int), tag_key(t));
                if found {
                    assert(ok.contains(tag_key(t)));
                    assert(ok.to_set().contains(tag_key(t)));
                    assert(keys.subrange(0, i as int).to_set().insert(tag_key(t)) =~= keys.subrange(0, i as int).to_set());
                }
            }
            if !found {
                out.push(t);
                proof {
                    assert(out@.map_values(|t: HashAndFormat| tag_key(t)) =~= ok.push(tag_key(t)));
                    lemma_push_to_set(ok, tag_key(t));
                    assert forall|a: int, b: int| 0 <= a < b < ok.len() + 1 implies ok.push(tag_key(t))[a] != ok.push(tag_key(t))[b] by {
                        if b == ok.len() {
                            assert(ok.push(tag_key(t))[a] == ok[a]);
                            if ok[a] == tag_key(t) {
                                assert(ok.contains(tag_key(t)));
                            }
                        }
                    }
                }
            }
            i = i + 1;
        }
        proof {
            assert(keys.subrange(0, keys.len() as int) =~= keys);
            assert forall|x| keys.to_set().contains(x) <==> self.temp_view().dom().contains(x) by {
                assert(keys.contains(x) <==> self.temp_view().count(x) > 0);
            }
            assert(keys.to_set() =~= self.temp_view().dom());
        }
        out
    }

    /// The hashes of the transient partial entries.
    pub fn partial_hashes(&self) -> (r: Vec<crate::hash::Hash>)
        ensures
            r@.map_values(|h: crate::hash::Hash| h.0@) == self.partial_keys(),
    {
        let mut out: Vec<crate::hash::Hash> = Vec::new();
        let mut i: usize = 0;
        while i < self.partial.len()
            invariant
                i <= self.partial@.len(),
                out@.map_values(|h: crate::hash::Hash| h.0@) == self.partial_keys().subrange(0, i as int),
            decreases self.partial@.len() - i,
        {
            let ghost before = out@;
            out.push(self.partial[i].0);
            proof {
                assert(self.partial_keys()[i as int] == self.partial@[i as int].0.0@);
                assert(out@.map_values(|h: crate::hash::Hash| h.0@) =~= before.map_values(
                    |h: crate::hash::Hash| h.0@,
                ).push(self.partial@[i as int].0.0@));
                assert(out@.map_values(|h: crate::hash::Hash| h.0@) =~= self.partial_keys().subrange(0, i + 1));
            }
            i = i + 1;
        }
        assert(self.partial_keys().subrange(0, i as int) =~= self.partial_keys());
        out
    }
}

/// The map that a list of entries stands for; a later entry for a hash
/// overrides an earlier one.
pub open spec fn entries_map(s: Seq<(crate::hash::Hash, u64)>) -> Map<Seq<u8>, u64>
    decreases s.len(),
{
    if s.len() == 0 {
        Map::empty()
    } else {
        entries_map(s.drop_last()).insert(s.last().0.0@, s.last().1)
    }
}

/// Whether the list holds a tag with the key of `t`.
fn holds_tag(v: &Vec<HashAndFormat>, t: &HashAndFormat) -> (r: bool)
    ensures
        r == v@.map_values(|x: HashAndFormat| tag_key(x)).contains(tag_key(*t)),
{
    let ghost keys = v@.map_values(|x: HashAndFormat| tag_key(x));
    let mut j: usize = 0;
    while j < v.len()
        invariant
            j <= v@.len(),
            keys == v@.map_values(|x: HashAndFormat| tag_key(x)),
            forall|k: int| 0 <= k < j ==> keys[k] != tag_key(*t),
        decreases v@.len() - j,
    {
        if v[j] == *t {
            assert(keys[j as int] == tag_key(*t));
            return true;
        }
        j = j + 1;
    }
    false
}

proof fn lemma_push_to_set<A>(s: Seq<A>, x: A)
    ensures
        s.push(x).to_set() == s.to_set().insert(x),
{
    assert forall|y| s.push(x).to_set().contains(y) implies s.to_set().insert(x).contains(y) by {
        let i = choose|i: int| 0 <= i < s.len() + 1 && s.push(x)[i] == y;
        if i < s.len() {
            assert(s[i] == y);
        }
    }
    assert forall|y| s.to_set().insert(x).contains(y) implies s.push(x).to_set().contains(y) by {
        if y != x {
            let i = choose|i: int| 0 <= i < s.len() && s[i] == y;
            assert(s.push(x)[i] == y);
        } else {
            assert(s.push(x)[s.len() as int] == y);
        }
    }
    assert(s.push(x).to_set() =~= s.to_set().insert(x));
}

/// A temp tag protects its hash: while one is held, a sweep over any list of
/// hashes leaves that hash alone, and clearing the live set does not change
/// that. Once no temp tag for a hash is held and the hash is not in the live
/// set, a sweep over a list that holds it deletes it.
pub proof fn lemma_temp_tag_liveness(
    s: State,
    tag: HashAndFormat,
    hashes: Seq<crate::hash::Hash>,
    swept: Seq<crate::hash::Hash>,
)
    requires
        forall|h: crate::hash::Hash| #[trigger]
            swept.contains(h) <==> hashes.contains(h) && !s.live_spec(h.0@),
    ensures
        s.temp_view().count(tag_key(tag)) > 0 ==> !swept.contains(tag.hash),
        s.temp_view().count(tag_key(tag)) > 0 ==> s.live_spec(tag.hash.0@),
        !s.live_view().contains(tag.hash.0@) && (forall|f: u64| #[trigger] s.temp_view().count((tag.hash.0@, f)) == 0)
            && hashes.contains(tag.hash) ==> swept.contains(tag.hash),
{
    if s.temp_view().count(tag_key(tag)) > 0 {
        assert(s.temp_view().count((tag.hash.0@, tag.format.0)) > 0);
        assert(s.tagged(tag.hash.0@));
    }
}

} // verus!
