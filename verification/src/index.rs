//! The in-memory index: a collection of `key -> CommandPos` entries with
//! pairwise-distinct keys, abstracted as a map from key characters to
//! record locations.

use vstd::prelude::*;
use core::ops::Range;

verus! {

/// The location and byte span of one serialized command inside a segment:
/// generation number, starting offset and record length.
#[derive(Debug, Clone, Copy, PartialEq, Eq, Structural)]
pub struct CommandPos {
    pub gen: u64,
    pub pos: u64,
    pub len: u64,
}

impl From<(u64, Range<u64>)> for CommandPos {
    /// Builds a `CommandPos` from a generation number and the byte range
    /// the record occupies (an empty span when the range is reversed).
    fn from(src: (u64, Range<u64>)) -> (r: CommandPos) {
        let (gen, range) = src;
        CommandPos {
            gen,
            pos: range.start,
            len: if range.end >= range.start {
                range.end - range.start
            } else {
                0
            },
        }
    }
}

impl vstd::std_specs::convert::FromSpecImpl<(u64, Range<u64>)> for CommandPos {
    open spec fn obeys_from_spec() -> bool {
        true
    }

    open spec fn from_spec(src: (u64, Range<u64>)) -> CommandPos {
        CommandPos {
            gen: src.0,
            pos: src.1.start,
            len: if src.1.end >= src.1.start {
                (src.1.end - src.1.start) as u64
            } else {
                0
            },
        }
    }
}

/// True when some entry of `s` carries the key `k`.
pub open spec fn has_key(s: Seq<(String, CommandPos)>, k: Seq<char>) -> bool {
    exists|i: int| 0 <= i < s.len() && s[i].0@ == k
}

/// The position of the entry carrying key `k` (unique under `distinct_keys`).
pub open spec fn idx_of(s: Seq<(String, CommandPos)>, k: Seq<char>) -> int {
    choose|i: int| 0 <= i < s.len() && s[i].0@ == k
}

/// Keys of distinct entries differ.
pub open spec fn distinct_keys(s: Seq<(String, CommandPos)>) -> bool {
    forall|i: int, j: int| 0 <= i < j < s.len() ==> s[i].0@ != s[j].0@
}

/// The map abstraction of an entry sequence.
pub open spec fn entries_map(s: Seq<(String, CommandPos)>) -> Map<Seq<char>, CommandPos> {
    Map::new(|k: Seq<char>| has_key(s, k), |k: Seq<char>| s[idx_of(s, k)].1)
}

/// Total record length of the entries: the number of live bytes they span.
pub open spec fn live_bytes(s: Seq<(String, CommandPos)>) -> int
    decreases s.len(),
{
    if s.len() == 0 {
        0
    } else {
        live_bytes(s.drop_last()) + s.last().1.len
    }
}

proof fn lemma_live_bytes_update(s: Seq<(String, CommandPos)>, i: int, e: (String, CommandPos))
    requires
        0 <= i < s.len(),
    ensures
        live_bytes(s.update(i, e)) == live_bytes(s) - s[i].1.len + e.1.len,
    decreases s.len(),
{
    if i == s.len() - 1 {
        assert(s.update(i, e).drop_last() =~= s.drop_last());
    } else {
        assert(s.update(i, e).drop_last() =~= s.drop_last().update(i, e));
        lemma_live_bytes_update(s.drop_last(), i, e);
    }
}

proof fn lemma_live_bytes_nonneg(s: Seq<(String, CommandPos)>)
    ensures
        live_bytes(s) >= 0,
    decreases s.len(),
{
    if s.len() > 0 {
        lemma_live_bytes_nonneg(s.drop_last());
    }
}

proof fn lemma_live_bytes_entry(s: Seq<(String, CommandPos)>, i: int)
    requires
        0 <= i < s.len(),
    ensures
        s[i].1.len <= live_bytes(s),
    decreases s.len(),
{
    if i == s.len() - 1 {
        lemma_live_bytes_nonneg(s.drop_last());
    } else {
        lemma_live_bytes_entry(s.drop_last(), i);
    }
}

proof fn lemma_entries_map_finite(s: Seq<(String, CommandPos)>)
    ensures
        entries_map(s).dom().finite(),
    decreases s.len(),
{
    if s.len() == 0 {
        assert(entries_map(s).dom() =~= Set::<Seq<char>>::empty());
    } else {
        lemma_entries_map_finite(s.drop_last());
        assert(entries_map(s).dom() =~= entries_map(s.drop_last()).dom().insert(s.last().0@)) by {
            assert forall|k: Seq<char>| #[trigger] has_key(s, k) implies has_key(s.drop_last(), k)
                || s.last().0@ == k by {
                let i = idx_of(s, k);
                if i < s.len() - 1 {
                    assert(s.drop_last()[i].0@ == k);
                }
            }
            assert forall|k: Seq<char>| #[trigger] has_key(s.drop_last(), k) implies has_key(
                s,
                k,
            ) by {
                let i = idx_of(s.drop_last(), k);
                assert(s[i].0@ == k);
            }
            assert(has_key(s, s.last().0@)) by {
                assert(s[s.len() - 1].0@ == s.last().0@);
            }
        }
    }
}

/// Appending an entry with a fresh key adds that key to the map.
proof fn lemma_push_view(s: Seq<(String, CommandPos)>, e: (String, CommandPos))
    requires
        distinct_keys(s),
        !has_key(s, e.0@),
    ensures
        distinct_keys(s.push(e)),
        entries_map(s.push(e)) == entries_map(s).insert(e.0@, e.1),
        live_bytes(s.push(e)) == live_bytes(s) + e.1.len,
{
    let s1 = s.push(e);
    assert(s1.drop_last() =~= s);
    assert forall|a: int, b: int| 0 <= a < b < s1.len() implies s1[a].0@ != s1[b].0@ by {
        if b == s1.len() - 1 {
            assert(s[a].0@ != e.0@);
        }
    }
    assert forall|k: Seq<char>| #[trigger] has_key(s1, k) implies has_key(s, k) || k == e.0@ by {
        let j = idx_of(s1, k);
        if j < s.len() {
            assert(s[j].0@ == k);
        }
    }
    assert forall|k: Seq<char>| #[trigger] has_key(s, k) implies has_key(s1, k) by {
        let j = idx_of(s, k);
        assert(s1[j].0@ == k);
    }
    assert(has_key(s1, e.0@)) by {
        assert(s1[s1.len() - 1].0@ == e.0@);
    }
    assert forall|k: Seq<char>| #[trigger] has_key(s1, k) implies entries_map(s1)[k]
        == entries_map(s).insert(e.0@, e.1)[k] by {
        let j = idx_of(s1, k);
        if k == e.0@ {
            assert(j == s1.len() - 1);
        } else {
            assert(s[j].0@ == k);
            assert(idx_of(s, k) == j);
        }
    }
    assert(entries_map(s1) =~= entries_map(s).insert(e.0@, e.1));
}

/// Swap-removing the entry at `i` removes exactly its key from the map.
proof fn lemma_swap_remove_view(s: Seq<(String, CommandPos)>, i: int)
    requires
        distinct_keys(s),
        0 <= i < s.len(),
    ensures
        distinct_keys(s.update(i, s.last()).drop_last()),
        entries_map(s.update(i, s.last()).drop_last()) == entries_map(s).remove(s[i].0@),
        live_bytes(s.update(i, s.last()).drop_last()) == live_bytes(s) - s[i].1.len,
{
    let s1 = s.update(i, s.last()).drop_last();
    let k0 = s[i].0@;
    lemma_live_bytes_update(s, i, s.last());
    assert(s1 =~= s.update(i, s.last()).drop_last());
    assert(live_bytes(s.update(i, s.last()).drop_last()) == live_bytes(s.update(i, s.last()))
        - s.update(i, s.last()).last().1.len);
    // each surviving position carries the entry of a distinct original position
    assert forall|j: int| 0 <= j < s1.len() implies s1[j] == s[(
    if j == i {
        s.len() - 1
    } else {
        j
    })] by {}
    assert forall|a: int, b: int| 0 <= a < b < s1.len() implies s1[a].0@ != s1[b].0@ by {
        let oa: int = if a == i {
            s.len() - 1
        } else {
            a
        };
        let ob: int = if b == i {
            s.len() - 1
        } else {
            b
        };
        assert(oa != ob);
    }
    assert forall|k: Seq<char>| #[trigger] has_key(s1, k) implies has_key(s, k) && k != k0 by {
        let j = idx_of(s1, k);
        let oj: int = if j == i {
            s.len() - 1
        } else {
            j
        };
        assert(s[oj].0@ == k);
        assert(oj != i || k == k0);
        if oj == i {
        } else {
            assert(k != k0);
        }
    }
    assert forall|k: Seq<char>| has_key(s, k) && k != k0 implies #[trigger] has_key(s1, k) by {
        let j = idx_of(s, k);
        if j == s.len() - 1 {
            if i < s.len() - 1 {
                assert(s1[i].0@ == k);
            } else {
                assert(k == k0);
            }
        } else {
            assert(j != i);
            assert(s1[j].0@ == k);
        }
    }
    assert forall|k: Seq<char>| #[trigger] has_key(s1, k) implies entries_map(s1)[k]
        == entries_map(s)[k] by {
        let j = idx_of(s1, k);
        let oj: int = if j == i {
            s.len() - 1
        } else {
            j
        };
        assert(s[oj].0@ == k);
        assert(idx_of(s, k) == oj);
    }
    assert(entries_map(s1) =~= entries_map(s).remove(k0));
}

/// The index. Internally a vector of entries whose keys are pairwise
/// distinct; its view is the corresponding map.
pub struct Index {
    entries: Vec<(String, CommandPos)>,
}

impl View for Index {
    type V = Map<Seq<char>, CommandPos>;

    closed spec fn view(&self) -> Map<Seq<char>, CommandPos> {
        entries_map(self.entries@)
    }
}

impl Index {
    /// Keys of distinct entries differ.
    pub closed spec fn inv(self) -> bool {
        distinct_keys(self.entries@)
    }

    /// Number of entries.
    pub closed spec fn spec_len(self) -> nat {
        self.entries@.len()
    }

    /// Key of the entry at position `i`.
    pub closed spec fn key_at_spec(self, i: int) -> Seq<char> {
        self.entries@[i].0@
    }

    /// Location of the entry at position `i`.
    pub closed spec fn pos_at_spec(self, i: int) -> CommandPos {
        self.entries@[i].1
    }

    /// Total record length of all entries.
    pub closed spec fn live(self) -> int {
        live_bytes(self.entries@)
    }

    /// The entries are exactly the view: each position carries a mapped
    /// key, every mapped key is carried at exactly one position, and the
    /// live byte count is nonnegative.
    pub proof fn lemma_entries(self)
        requires
            self.inv(),
        ensures
            forall|i: int|
                0 <= i < self.spec_len() ==> self@.contains_key(#[trigger] self.key_at_spec(i))
                    && self@[self.key_at_spec(i)] == self.pos_at_spec(i),
            forall|i: int, j: int|
                0 <= i < j < self.spec_len() ==> self.key_at_spec(i) != self.key_at_spec(j),
            forall|k: Seq<char>|
                self@.contains_key(k) ==> exists|i: int|
                    0 <= i < self.spec_len() && #[trigger] self.key_at_spec(i) == k,
            self.live() >= 0,
            self@.dom().finite(),
    {
        let s = self.entries@;
        assert forall|i: int| 0 <= i < self.spec_len() implies self@.contains_key(
            #[trigger] self.key_at_spec(i),
        ) && self@[self.key_at_spec(i)] == self.pos_at_spec(i) by {
            let k = s[i].0@;
            assert(has_key(s, k));
            let j = idx_of(s, k);
            assert(j == i);
        }
        assert forall|k: Seq<char>| self@.contains_key(k) implies exists|i: int|
            0 <= i < self.spec_len() && #[trigger] self.key_at_spec(i) == k by {
            let j = idx_of(s, k);
            assert(self.key_at_spec(j) == k);
        }
        lemma_live_bytes_nonneg(s);
        lemma_entries_map_finite(s);
    }

    /// Total record length of the first `j` entries.
    pub closed spec fn live_prefix(self, j: int) -> int {
        live_bytes(self.entries@.take(j))
    }

    /// One step of the prefix sums: entry `j` adds its own length.
    pub proof fn lemma_live_prefix_step(self, j: int)
        requires
            0 <= j < self.spec_len(),
        ensures
            self.live_prefix(j + 1) == self.live_prefix(j) + self.pos_at_spec(j).len,
    {
        assert(self.entries@.take(j + 1).drop_last() =~= self.entries@.take(j));
        assert(self.entries@.take(j + 1).last() == self.entries@[j]);
    }

    /// The prefix sums start at zero and end at the live byte count.
    pub proof fn lemma_live_prefix_ends(self)
        ensures
            self.live_prefix(0) == 0,
            self.live_prefix(self.spec_len() as int) == self.live(),
    {
        assert(self.entries@.take(0) =~= Seq::<(String, CommandPos)>::empty());
        assert(self.entries@.take(self.spec_len() as int) =~= self.entries@);
    }

    /// A mapped entry never spans more bytes than all live entries together.
    pub proof fn lemma_entry_len_bound(self, k: Seq<char>)
        requires
            self.inv(),
            self@.contains_key(k),
        ensures
            self@[k].len <= self.live(),
    {
        let i = idx_of(self.entries@, k);
        self.lemma_entries();
        assert(self.key_at_spec(i) == k);
        lemma_live_bytes_entry(self.entries@, i);
    }

    /// A fresh, empty index.
    pub fn new() -> (r: Index)
        ensures
            r.inv(),
            r@ == Map::<Seq<char>, CommandPos>::empty(),
            r.spec_len() == 0,
            r.live() == 0,
    {
        let r = Index { entries: Vec::new() };
        proof {
            assert(r@ =~= Map::<Seq<char>, CommandPos>::empty());
        }
        r
    }

    /// Number of entries.
    pub fn len(&self) -> (r: usize)
        ensures
            r == self.spec_len(),
    {
        self.entries.len()
    }

    /// The key of the entry at position `i`, as a fresh string.
    pub fn key_at(&self, i: usize) -> (r: String)
        requires
            i < self.spec_len(),
        ensures
            r@ == self.key_at_spec(i as int),
    {
        self.entries[i].0.clone()
    }

    /// The location of the entry at position `i`.
    pub fn pos_at(&self, i: usize) -> (r: CommandPos)
        requires
            i < self.spec_len(),
        ensures
            r == self.pos_at_spec(i as int),
    {
        self.entries[i].1
    }

    /// Finds the entry carrying `key`, scanning the entries in order.
    fn find(&self, key: &String) -> (r: Option<usize>)
        requires
            self.inv(),
        ensures
            match r {
                Some(i) => i < self.spec_len() && self.key_at_spec(i as int) == key@
                    && self@.contains_key(key@) && self@[key@] == self.pos_at_spec(i as int),
                None => !self@.contains_key(key@),
            },
    {
        let n = self.entries.len();
        let mut i: usize = 0;
        while i < n
            invariant
                n == self.spec_len(),
                i <= n,
                self.inv(),
                forall|j: int| 0 <= j < i ==> self.entries@[j].0@ != key@,
            decreases n - i,
    {
            if self.entries[i].0 == *key {
                proof {
                    self.lemma_entries();
                }
                return Some(i);
            }
            i = i + 1;
        }
        proof {
            if self@.contains_key(key@) {
                let j = idx_of(self.entries@, key@);
                assert(self.entries@[j].0@ == key@);
            }
        }
        None
    }

    /// Looks the key up.
    pub fn get(&self, key: &String) -> (r: Option<CommandPos>)
        requires
            self.inv(),
        ensures
            match r {
                Some(cp) => self@.contains_key(key@) && self@[key@] == cp,
                None => !self@.contains_key(key@),
            },
    {
        match self.find(key) {
            Some(i) => Some(self.entries[i].1),
            None => None,
        }
    }

    /// Maps `key` to `cp`, returning the location it previously mapped to,
    /// if any.
    pub fn insert(&mut self, key: String, cp: CommandPos) -> (r: Option<CommandPos>)
        requires
            old(self).inv(),
        ensures
            final(self).inv(),
            final(self)@ == old(self)@.insert(key@, cp),
            match r {
                Some(prev) => old(self)@.contains_key(key@) && old(self)@[key@] == prev
                    && final(self).live() == old(self).live() - prev.len + cp.len,
                None => !old(self)@.contains_key(key@) && final(self).live() == old(self).live()
                    + cp.len,
            },
    {
        let ghost s0 = self.entries@;
        match self.find(&key) {
            Some(i) => {
                let prev = self.entries[i].1;
                let _moved = self.entries.swap_remove(i);
                proof {
                    lemma_swap_remove_view(s0, i as int);
                    assert(!has_key(self.entries@, key@)) by {
                        if has_key(self.entries@, key@) {
                            assert(entries_map(self.entries@).contains_key(key@));
                        }
                    }
                    lemma_push_view(self.entries@, (key, cp));
                }
                self.entries.push((key, cp));
                proof {
                    assert(final(self)@ =~= old(self)@.insert(key@, cp));
                }
                Some(prev)
            },
            None => {
                proof {
                    lemma_push_view(s0, (key, cp));
                }
                self.entries.push((key, cp));
                None
            },
        }
    }

    /// Unmaps `key`, returning the location it mapped to, if any.
    pub fn remove(&mut self, key: &String) -> (r: Option<CommandPos>)
        requires
            old(self).inv(),
        ensures
            final(self).inv(),
            final(self)@ == old(self)@.remove(key@),
            match r {
                Some(prev) => old(self)@.contains_key(key@) && old(self)@[key@] == prev
                    && final(self).live() == old(self).live() - prev.len,
                None => !old(self)@.contains_key(key@) && *final(self) == *old(self),
            },
    {
        let ghost s0 = self.entries@;
        match self.find(key) {
            Some(i) => {
                let prev = self.entries[i].1;
                let _moved = self.entries.swap_remove(i);
                proof {
                    lemma_swap_remove_view(s0, i as int);
                }
                Some(prev)
            },
            None => {
                proof {
                    assert(final(self)@ =~= old(self)@.remove(key@));
                }
                None
            },
        }
    }
}

} // verus!
