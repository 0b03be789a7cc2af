//! The storage engine.
//!
//! A `KvStore` owns an in-memory image of the on-disk state: the ordered
//! list of log segments, each a generation number with its bytes. All
//! decisions — replay, lookups, appends, compaction — are made here; the
//! pending [`Effect`]s record what an I/O shell must mirror to the real
//! segment files.

use vstd::prelude::*;
use vstd::string::StringSliceAdditionalSpecFns;
use vstd::utf8::encode_utf8;

use crate::codec::{Command, CommandModel, SpanKind, cmd_fits, copy_range, dec_at, decode_at, enc, encode_command, lemma_dec_enc, lemma_dec_extend, lemma_enc_dec, lemma_enc_structure, span_kind, value_at};
use crate::error::KvsError;
use crate::index::{CommandPos, Index};

verus! {

/// Reclaimable bytes beyond which a `set` triggers compaction.
pub const COMPACTION_THRESHOLD: u64 = 1024 * 1024;

/// One log segment: its generation number and the bytes of its file.
#[derive(Debug)]
pub struct Segment {
    pub gen: u64,
    pub data: Vec<u8>,
}

/// One durable-storage action the I/O shell must mirror: create the file
/// of a generation, append bytes to it, or delete it.
#[derive(Debug)]
pub enum Effect {
    Create { gen: u64 },
    Append { gen: u64, bytes: Vec<u8> },
    Delete { gen: u64 },
}

/// Generation numbers strictly increase along the segment list.
pub open spec fn gens_ascending(segs: Seq<Segment>) -> bool {
    forall|i: int, j: int| 0 <= i < j < segs.len() ==> segs[i].gen < segs[j].gen
}

/// True when some segment carries generation `g`.
pub open spec fn has_gen(segs: Seq<Segment>, g: u64) -> bool {
    exists|i: int| 0 <= i < segs.len() && segs[i].gen == g
}

/// The position of the segment carrying `g` (unique under `gens_ascending`).
pub open spec fn idx_of_gen(segs: Seq<Segment>, g: u64) -> int {
    choose|i: int| 0 <= i < segs.len() && segs[i].gen == g
}

/// The bytes of the segment carrying generation `g`.
pub open spec fn seg_data(segs: Seq<Segment>, g: u64) -> Seq<u8> {
    segs[idx_of_gen(segs, g)].data@
}

/// Bytes held by all segments together.
pub open spec fn total_bytes(segs: Seq<Segment>) -> int
    decreases segs.len(),
{
    if segs.len() == 0 {
        0
    } else {
        total_bytes(segs.drop_last()) + segs.last().data@.len()
    }
}

/// Applies one decoded command, recorded at `[p, end)` of generation
/// `gen`, to an index map.
pub open spec fn apply_cmd(
    m: Map<Seq<char>, CommandPos>,
    c: CommandModel,
    gen: u64,
    p: int,
    end: int,
) -> Map<Seq<char>, CommandPos> {
    match c {
        CommandModel::Put { key, value } => m.insert(
            key,
            CommandPos { gen, pos: p as u64, len: (end - p) as u64 },
        ),
        CommandModel::Remove { key } => m.remove(key),
    }
}

/// Replays the records of one segment from position `p` onward, starting
/// from index map `m`; `None` when the bytes do not decode.
pub open spec fn load_from(
    m: Map<Seq<char>, CommandPos>,
    gen: u64,
    data: Seq<u8>,
    p: int,
) -> Option<Map<Seq<char>, CommandPos>>
    decreases data.len() - p,
{
    if p == data.len() {
        Some(m)
    } else if 0 <= p < data.len() {
        match dec_at(data, p) {
            Some((c, end)) => if p < end <= data.len() {
                load_from(apply_cmd(m, c, gen, p, end), gen, data, end)
            } else {
                None
            },
            None => None,
        }
    } else {
        None
    }
}

/// Replays the segments from position `i` onward, starting from `m`.
pub open spec fn replay_from(
    m: Map<Seq<char>, CommandPos>,
    segs: Seq<Segment>,
    i: int,
) -> Option<Map<Seq<char>, CommandPos>>
    decreases segs.len() - i,
{
    if i >= segs.len() {
        Some(m)
    } else if 0 <= i {
        match load_from(m, segs[i].gen, segs[i].data@, 0) {
            Some(m2) => replay_from(m2, segs, i + 1),
            None => None,
        }
    } else {
        None
    }
}

/// The index that replaying all segments in order rebuilds; `None` when
/// some record does not decode.
pub open spec fn replay(segs: Seq<Segment>) -> Option<Map<Seq<char>, CommandPos>> {
    replay_from(Map::empty(), segs, 0)
}

/// The value recorded at a location, for locations that hold a `Put`.
pub open spec fn entry_value(segs: Seq<Segment>, cp: CommandPos) -> Seq<char> {
    match dec_at(seg_data(segs, cp.gen), cp.pos as int) {
        Some((CommandModel::Put { key, value }, end)) => value,
        _ => Seq::empty(),
    }
}

/// An index entry resolves inside the segments: its generation exists and
/// the span holds exactly one `Put` record for that key.
pub open spec fn entry_consistent(segs: Seq<Segment>, k: Seq<char>, cp: CommandPos) -> bool {
    &&& has_gen(segs, cp.gen)
    &&& cp.pos + cp.len <= seg_data(segs, cp.gen).len()
    &&& dec_at(seg_data(segs, cp.gen), cp.pos as int) == Some(
        (CommandModel::Put { key: k, value: entry_value(segs, cp) }, cp.pos + cp.len),
    )
}

/// The key/value map that the on-disk segments denote: replay the log,
/// then read each surviving location. `None` when the log is corrupt.
pub open spec fn disk_kv(segs: Seq<Segment>) -> Option<Map<Seq<char>, Seq<char>>> {
    match replay(segs) {
        Some(ix) => Some(
            Map::new(
                |k: Seq<char>| ix.contains_key(k),
                |k: Seq<char>| entry_value(segs, ix[k]),
            ),
        ),
        None => None,
    }
}

/// Appending a segment replays as: replay the rest, then load the new one.
proof fn lemma_replay_snoc(m: Map<Seq<char>, CommandPos>, segs: Seq<Segment>, s: Segment)
    ensures
        replay_from(m, segs.push(s), 0) == match replay_from(m, segs, 0) {
            Some(m2) => load_from(m2, s.gen, s.data@, 0),
            None => None::<Map<Seq<char>, CommandPos>>,
        },
{
    lemma_replay_snoc_from(m, segs, s, 0);
}

proof fn lemma_replay_snoc_from(
    m: Map<Seq<char>, CommandPos>,
    segs: Seq<Segment>,
    s: Segment,
    i: int,
)
    requires
        0 <= i <= segs.len(),
    ensures
        replay_from(m, segs.push(s), i) == match replay_from(m, segs, i) {
            Some(m2) => load_from(m2, s.gen, s.data@, 0),
            None => None::<Map<Seq<char>, CommandPos>>,
        },
    decreases segs.len() - i,
{
    let t = segs.push(s);
    if i == segs.len() {
        assert(t[i] == s);
        assert(replay_from(m, t, i) == match load_from(m, s.gen, s.data@, 0) {
            Some(m2) => replay_from(m2, t, i + 1),
            None => None::<Map<Seq<char>, CommandPos>>,
        });
    } else {
        assert(t[i] == segs[i]);
        match load_from(m, segs[i].gen, segs[i].data@, 0) {
            Some(m2) => {
                lemma_replay_snoc_from(m2, segs, s, i + 1);
            },
            None => {},
        }
    }
}

/// Appending one encoded command to a segment replays as: replay the old
/// bytes, then apply the command at its new span.
proof fn lemma_load_append(
    m: Map<Seq<char>, CommandPos>,
    gen: u64,
    data: Seq<u8>,
    p: int,
    c: CommandModel,
)
    requires
        cmd_fits(c),
        0 <= p <= data.len(),
        load_from(m, gen, data, p) is Some,
    ensures
        load_from(m, gen, data + enc(c), p) == Some(
            apply_cmd(
                load_from(m, gen, data, p)->Some_0,
                c,
                gen,
                data.len() as int,
                data.len() + enc(c).len() as int,
            ),
        ),
    decreases data.len() - p,
{
    let t = data + enc(c);
    if p == data.len() {
        lemma_enc_structure(c);
        assert(enc(c).len() >= 9);
        assert(t.subrange(p, p + enc(c).len()) =~= enc(c));
        lemma_enc_dec(t, p, c);
        assert(load_from(m, gen, t, p) == load_from(
            apply_cmd(m, c, gen, p, p + enc(c).len()),
            gen,
            t,
            p + enc(c).len(),
        ));
    } else {
        let step = dec_at(data, p);
        assert(step is Some);
        let (c0, end) = step->Some_0;
        lemma_dec_extend(data, enc(c), p);
        lemma_load_append(apply_cmd(m, c0, gen, p, end), gen, data, end, c);
    }
}

/// Under ascending generations, a generation is carried by at most one
/// segment, so `idx_of_gen` names the position of any witness.
proof fn lemma_gen_unique(segs: Seq<Segment>, i: int)
    requires
        gens_ascending(segs),
        0 <= i < segs.len(),
    ensures
        idx_of_gen(segs, segs[i].gen) == i,
        has_gen(segs, segs[i].gen),
        seg_data(segs, segs[i].gen) == segs[i].data@,
{
    assert(has_gen(segs, segs[i].gen));
    let j = idx_of_gen(segs, segs[i].gen);
    if j < i {
        assert(segs[j].gen < segs[i].gen);
    } else if j > i {
        assert(segs[i].gen < segs[j].gen);
    }
}

/// Extending the last segment's bytes leaves every generation in place;
/// only the last generation's bytes change, by the extension.
proof fn lemma_extend_last(segs0: Seq<Segment>, segs1: Seq<Segment>, ext: Seq<u8>)
    requires
        segs0.len() >= 1,
        gens_ascending(segs0),
        segs1.len() == segs0.len(),
        forall|i: int| 0 <= i < segs1.len() ==> #[trigger] segs1[i].gen == segs0[i].gen,
        forall|i: int| 0 <= i < segs1.len() - 1 ==> #[trigger] segs1[i] == segs0[i],
        segs1.last().data@ == segs0.last().data@ + ext,
    ensures
        gens_ascending(segs1),
        forall|g: u64| has_gen(segs1, g) == has_gen(segs0, g),
        forall|g: u64| #[trigger]
            has_gen(segs0, g) ==> seg_data(segs1, g) == (if g == segs0.last().gen {
                segs0.last().data@ + ext
            } else {
                seg_data(segs0, g)
            }),
        total_bytes(segs1) == total_bytes(segs0) + ext.len(),
{
    let n = segs0.len() as int;
    assert forall|g: u64| has_gen(segs1, g) == has_gen(segs0, g) by {
        if has_gen(segs1, g) {
            let i = idx_of_gen(segs1, g);
            assert(segs0[i].gen == g);
        }
        if has_gen(segs0, g) {
            let i = idx_of_gen(segs0, g);
            assert(segs1[i].gen == g);
        }
    }
    assert forall|g: u64| #[trigger] has_gen(segs0, g) implies seg_data(segs1, g) == (if g
        == segs0.last().gen {
        segs0.last().data@ + ext
    } else {
        seg_data(segs0, g)
    }) by {
        let i = idx_of_gen(segs0, g);
        lemma_gen_unique(segs0, i);
        lemma_gen_unique(segs1, i);
        if g == segs0.last().gen {
            lemma_gen_unique(segs0, n - 1);
            assert(i == n - 1);
        }
    }
    assert(segs1.drop_last() =~= segs0.drop_last());
    assert(total_bytes(segs1) == total_bytes(segs1.drop_last()) + segs1.last().data@.len());
}

proof fn lemma_total_nonneg(segs: Seq<Segment>)
    ensures
        total_bytes(segs) >= 0,
    decreases segs.len(),
{
    if segs.len() > 0 {
        lemma_total_nonneg(segs.drop_last());
    }
}

proof fn lemma_total_take_step(segs: Seq<Segment>, j: int)
    requires
        0 <= j < segs.len(),
    ensures
        total_bytes(segs.take(j + 1)) == total_bytes(segs.take(j)) + segs[j].data@.len(),
{
    assert(segs.take(j + 1).drop_last() =~= segs.take(j));
    assert(segs.take(j + 1).last() == segs[j]);
}

proof fn lemma_total_take_bound(segs: Seq<Segment>, j: int)
    requires
        0 <= j <= segs.len(),
    ensures
        total_bytes(segs.take(j)) <= total_bytes(segs),
    decreases segs.len() - j,
{
    if j == segs.len() {
        assert(segs.take(j) =~= segs);
    } else {
        lemma_total_take_step(segs, j);
        lemma_total_take_bound(segs, j + 1);
    }
}

/// Pushing a segment with a generation above all others keeps the list
/// ascending and every existing generation's bytes in place.
proof fn lemma_push_preserve(segs: Seq<Segment>, s: Segment)
    requires
        gens_ascending(segs),
        forall|i: int| 0 <= i < segs.len() ==> segs[i].gen < s.gen,
    ensures
        gens_ascending(segs.push(s)),
        has_gen(segs.push(s), s.gen),
        seg_data(segs.push(s), s.gen) == s.data@,
        forall|g: u64| #[trigger]
            has_gen(segs, g) ==> has_gen(segs.push(s), g) && seg_data(segs.push(s), g) == seg_data(
                segs,
                g,
            ),
        total_bytes(segs.push(s)) == total_bytes(segs) + s.data@.len(),
{
    let t = segs.push(s);
    lemma_gen_unique(t, t.len() - 1);
    assert forall|g: u64| #[trigger] has_gen(segs, g) implies has_gen(t, g) && seg_data(t, g)
        == seg_data(segs, g) by {
        let i = idx_of_gen(segs, g);
        lemma_gen_unique(segs, i);
        assert(t[i].gen == g);
        lemma_gen_unique(t, i);
    }
    assert(t.drop_last() =~= segs);
    assert(total_bytes(t) == total_bytes(t.drop_last()) + s.data@.len());
}

/// The newer effect list still opens with everything the older one
/// recorded: the I/O shell never loses a pending action.
pub open spec fn effects_extended(older: Seq<Effect>, newer: Seq<Effect>) -> bool {
    older.len() <= newer.len() && newer.subrange(0, older.len() as int) == older
}

proof fn lemma_effects_extended_trans(a: Seq<Effect>, b: Seq<Effect>, c: Seq<Effect>)
    requires
        effects_extended(a, b),
        effects_extended(b, c),
    ensures
        effects_extended(a, c),
{
    assert(c.subrange(0, a.len() as int) =~= a) by {
        assert(forall|i: int|
            0 <= i < a.len() ==> c.subrange(0, b.len() as int)[i] == #[trigger] c[i]);
        assert(forall|i: int| 0 <= i < a.len() ==> b.subrange(0, a.len() as int)[i] == #[trigger] b[i]);
    }
}

/// The storage engine: an append-only command log split into generation
/// numbered segments, an index from each live key to the span of its
/// latest `Put` record, and a running count of superseded bytes.
pub struct KvStore {
    segments: Vec<Segment>,
    index: Index,
    current_gen: u64,
    uncompacted: u64,
    total: u64,
    effects: Vec<Effect>,
}

impl KvStore {
    /// The key/value map this store holds.
    pub closed spec fn kv(self) -> Map<Seq<char>, Seq<char>> {
        Map::new(
            |k: Seq<char>| self.index@.contains_key(k),
            |k: Seq<char>| entry_value(self.segments@, self.index@[k]),
        )
    }

    /// The segments as the I/O shell must hold them on disk.
    pub closed spec fn disk(self) -> Seq<Segment> {
        self.segments@
    }

    /// The generation of the active (newest) segment.
    pub closed spec fn current_generation(self) -> u64 {
        self.current_gen
    }

    /// The running count of reclaimable bytes.
    pub closed spec fn uncompacted_spec(self) -> u64 {
        self.uncompacted
    }

    /// The pending effects, oldest first.
    pub closed spec fn effects_spec(self) -> Seq<Effect> {
        self.effects@
    }

    /// The span of the live record of key `k` (for stating how reclaimable
    /// bytes grow when `k` is overwritten or removed).
    pub closed spec fn live_len(self, k: Seq<char>) -> int {
        if self.index@.contains_key(k) {
            self.index@[k].len as int
        } else {
            0
        }
    }

    /// Well-formedness: the segment list is ascending and ends in the
    /// active generation, the index resolves every key to a live `Put`
    /// record, replaying the segments rebuilds exactly the index, and the
    /// reclaimable count is the bytes no index entry spans.
    pub closed spec fn wf(self) -> bool {
        &&& self.segments@.len() >= 1
        &&& gens_ascending(self.segments@)
        &&& self.current_gen == self.segments@.last().gen
        &&& self.index.inv()
        &&& forall|k: Seq<char>|
            self.index@.contains_key(k) ==> entry_consistent(
                self.segments@,
                k,
                #[trigger] self.index@[k],
            )
        &&& replay(self.segments@) == Some(self.index@)
        &&& self.uncompacted == total_bytes(self.segments@) - self.index.live()
        &&& self.total == total_bytes(self.segments@)
        &&& total_bytes(self.segments@) <= u64::MAX
    }

    /// Replaying this store's segments yields exactly its key/value map:
    /// what is on disk determines what the store holds, so a fresh engine
    /// opened on the same segments answers the same lookups.
    pub proof fn lemma_durability(self)
        requires
            self.wf(),
        ensures
            disk_kv(self.disk()) == Some(self.kv()),
    {
        assert(disk_kv(self.disk())->Some_0 =~= self.kv());
    }

    /// The reclaimable-byte count.
    pub fn uncompacted_bytes(&self) -> (r: u64)
        ensures
            r == self.uncompacted_spec(),
    {
        self.uncompacted
    }

    /// Hands out the pending effects, oldest first, and forgets them.
    pub fn take_effects(&mut self) -> (r: Vec<Effect>)
        ensures
            r@ == old(self).effects_spec(),
            final(self).effects_spec() == Seq::<Effect>::empty(),
            final(self).wf() == old(self).wf(),
            final(self).kv() == old(self).kv(),
            final(self).disk() == old(self).disk(),
            final(self).current_generation() == old(self).current_generation(),
            final(self).uncompacted_spec() == old(self).uncompacted_spec(),
    {
        let mut out: Vec<Effect> = Vec::new();
        core::mem::swap(&mut out, &mut self.effects);
        out
    }

    /// A deep copy of the segments, as they must stand on disk.
    pub fn snapshot(&self) -> (r: Vec<Segment>)
        ensures
            r@.len() == self.disk().len(),
            forall|i: int|
                0 <= i < r@.len() ==> #[trigger] r@[i].gen == self.disk()[i].gen && r@[i].data@
                    == self.disk()[i].data@,
    {
        let mut out: Vec<Segment> = Vec::new();
        let n = self.segments.len();
        let mut i: usize = 0;
        while i < n
            invariant
                i <= n,
                n == self.segments@.len(),
                out@.len() == i,
                forall|j: int|
                    0 <= j < i ==> #[trigger] out@[j].gen == self.segments@[j].gen && out@[j].data@
                        == self.segments@[j].data@,
            decreases n - i,
        {
            let seg = &self.segments[i];
            let data = copy_bytes(&seg.data);
            out.push(Segment { gen: seg.gen, data });
            i = i + 1;
        }
        out
    }

    /// Appends one encoded command to the active segment and records the
    /// matching `Append` effect. The index is not touched: the caller
    /// decides how the record changes it.
    fn append_record(&mut self, cmd: &Command) -> (r: CommandPos)
        requires
            old(self).wf(),
            total_bytes(old(self).disk()) + enc(cmd@).len() <= u64::MAX,
        ensures
            ({
                let segs0 = old(self).segments@;
                let segs1 = final(self).segments@;
                let e = enc(cmd@);
                &&& cmd_fits(cmd@)
                &&& r == (CommandPos {
                    gen: old(self).current_gen,
                    pos: seg_data(segs0, old(self).current_gen).len() as u64,
                    len: e.len() as u64,
                })
                &&& segs1.len() == segs0.len() >= 1
                &&& gens_ascending(segs1)
                &&& segs1.last().gen == old(self).current_gen
                &&& forall|g: u64| has_gen(segs1, g) == has_gen(segs0, g)
                &&& forall|g: u64| #[trigger]
                    has_gen(segs0, g) ==> seg_data(segs1, g) == (if g == old(self).current_gen {
                        seg_data(segs0, g) + e
                    } else {
                        seg_data(segs0, g)
                    })
                &&& total_bytes(segs1) == total_bytes(segs0) + e.len()
                &&& total_bytes(segs1) <= u64::MAX
                &&& dec_at(seg_data(segs1, old(self).current_gen), r.pos as int) == Some(
                    (cmd@, r.pos + r.len),
                )
                &&& replay(segs1) == Some(
                    apply_cmd(
                        old(self).index@,
                        cmd@,
                        old(self).current_gen,
                        r.pos as int,
                        r.pos + r.len,
                    ),
                )
                &&& final(self).index == old(self).index
                &&& final(self).current_gen == old(self).current_gen
                &&& final(self).uncompacted == old(self).uncompacted
                &&& final(self).total == old(self).total + enc(cmd@).len()
                &&& final(self).effects@.len() == old(self).effects@.len() + 1
                &&& final(self).effects@.subrange(0, old(self).effects@.len() as int) == old(
                    self,
                ).effects@
                &&& match final(self).effects@.last() {
                    Effect::Append { gen, bytes } => gen == old(self).current_gen && bytes@ == e,
                    _ => false,
                }
            }),
    {
        let ghost segs0 = self.segments@;
        let ghost e = enc(cmd@);
        let bytes = encode_command(cmd);
        let blen = bytes.len();
        proof {
            // the encoded record exists as an exec vector, so its string
            // lengths fit the format's 64-bit length fields
            lemma_enc_structure(cmd@);
            assert(blen == enc(cmd@).len());
            assert(usize::MAX <= u64::MAX);
            assert(cmd_fits(cmd@));
        }
        let mut seg = match self.segments.pop() {
            Some(seg) => seg,
            None => unreached(),
        };
        let pos = seg.data.len() as u64;
        let mut payload = copy_bytes(&bytes);
        seg.data.append(&mut payload);
        self.segments.push(seg);
        let len = bytes.len() as u64;
        self.total = self.total + len;
        self.effects.push(Effect::Append { gen: self.current_gen, bytes });
        let r = CommandPos { gen: self.current_gen, pos, len };
        proof {
            let segs1 = self.segments@;
            assert(segs1 =~= segs0.update(segs0.len() - 1, segs1.last()));
            lemma_gen_unique(segs0, segs0.len() - 1);
            assert(seg_data(segs0, self.current_gen) == segs0.last().data@);
            lemma_extend_last(segs0, segs1, e);
            // replay the unchanged prefix, then the extended last segment
            let prefix = segs0.drop_last();
            assert(segs0 =~= prefix.push(segs0.last()));
            assert(segs1 =~= prefix.push(segs1.last()));
            lemma_replay_snoc(Map::empty(), prefix, segs0.last());
            lemma_replay_snoc(Map::empty(), prefix, segs1.last());
            let m1 = replay_from(Map::empty(), prefix, 0)->Some_0;
            assert(load_from(m1, self.current_gen, segs0.last().data@, 0) == Some(self.index@));
            lemma_load_append(m1, self.current_gen, segs0.last().data@, 0, cmd@);
            assert(replay(segs1) == Some(
                apply_cmd(self.index@, cmd@, self.current_gen, r.pos as int, r.pos + r.len),
            ));
            lemma_gen_unique(segs1, segs1.len() - 1);
            assert(seg_data(segs1, self.current_gen) == segs0.last().data@ + e);
            assert((segs0.last().data@ + e).subrange(r.pos as int, r.pos + r.len) =~= e);
            lemma_enc_dec(segs0.last().data@ + e, r.pos as int, cmd@);
            assert(self.effects@.subrange(0, old(self).effects@.len() as int) =~= old(
                self,
            ).effects@);
        }
        r
    }

    /// Opens a store over the segments read from a data directory, given
    /// in ascending generation order.
    ///
    /// Replays every record to rebuild the index, then allocates a fresh
    /// active segment (recording its `Create` effect). Fails exactly when
    /// some segment's bytes do not decode as a record stream: a corrupt
    /// log is not silently skipped.
    #[verifier::loop_isolation(false)]
    #[verifier::spinoff_prover]
    #[verifier::rlimit(100)]
    pub fn open(segments: Vec<Segment>) -> (r: Result<KvStore, KvsError>)
        requires
            gens_ascending(segments@),
            segments@.len() > 0 ==> segments@.last().gen < u64::MAX,
            total_bytes(segments@) <= u64::MAX,
        ensures
            match r {
                Ok(s) => {
                    &&& s.wf()
                    &&& replay(segments@) is Some
                    &&& Some(s.kv()) == disk_kv(segments@)
                    &&& s.current_generation() == (if segments@.len() == 0 {
                        1u64
                    } else {
                        (segments@.last().gen + 1) as u64
                    })
                    &&& s.disk().len() == segments@.len() + 1
                    &&& forall|i: int| 0 <= i < segments@.len() ==> s.disk()[i] == segments@[i]
                    &&& s.disk().last().gen == s.current_generation()
                    &&& s.disk().last().data@ == Seq::<u8>::empty()
                    &&& s.effects_spec().len() == 1
                    &&& match s.effects_spec()[0] {
                        Effect::Create { gen } => gen == s.current_generation(),
                        _ => false,
                    }
                },
                Err(e) => replay(segments@) is None && e matches KvsError::Serde(_),
            },
    {
        let ghost segs0 = segments@;
        let mut segs = segments;
        let n = segs.len();
        let mut index = Index::new();
        let mut uncompacted: u64 = 0;
        let mut total: u64 = 0;
        let mut si: usize = 0;
        proof {
            lemma_total_nonneg(segs0);
            assert(segs0.take(0) =~= Seq::<Segment>::empty());
            assert(total_bytes(segs0.take(0)) == 0);
        }
        while si < n
            invariant
                n == segs@.len(),
                si <= n,
                segs@ == segs0,
                gens_ascending(segs0),
                total_bytes(segs0) <= u64::MAX,
                index.inv(),
                replay(segs0) == replay_from(index@, segs0, si as int),
                forall|k: Seq<char>|
                    index@.contains_key(k) ==> entry_consistent(segs0, k, #[trigger] index@[k]),
                uncompacted == total_bytes(segs0.take(si as int)) - index.live(),
                index.live() <= total_bytes(segs0.take(si as int)),
                total == total_bytes(segs0.take(si as int)),
                total_bytes(segs0.take(si as int)) <= total_bytes(segs0),
            decreases n - si,
        {
            let dn = segs[si].data.len();
            let ghost gen_si = segs0[si as int].gen;
            let ghost data_si = segs0[si as int].data@;
            let mut pos: usize = 0;
            proof {
                lemma_total_take_bound(segs0, si as int);
                lemma_total_take_step(segs0, si as int);
                lemma_total_take_bound(segs0, si + 1);
            }
            while pos < dn
                invariant
                    n == segs@.len(),
                    si < n,
                    segs@ == segs0,
                    gens_ascending(segs0),
                    total_bytes(segs0) <= u64::MAX,
                    gen_si == segs0[si as int].gen,
                    data_si == segs0[si as int].data@,
                    dn == data_si.len(),
                    pos <= dn,
                    index.inv(),
                    replay(segs0) == (match load_from(index@, gen_si, data_si, pos as int) {
                        Some(m) => replay_from(m, segs0, si + 1),
                        None => None,
                    }),
                    forall|k: Seq<char>|
                        index@.contains_key(k) ==> entry_consistent(
                            segs0,
                            k,
                            #[trigger] index@[k],
                        ),
                    uncompacted == total_bytes(segs0.take(si as int)) + pos - index.live(),
                    index.live() <= total_bytes(segs0.take(si as int)) + pos,
                    total_bytes(segs0.take(si as int)) + dn <= total_bytes(segs0),
                decreases dn - pos,
            {
                let seg = &segs[si];
                let step = decode_at(&seg.data, pos);
                let (c, end) = match step {
                    Ok(p) => p,
                    Err(e) => {
                        proof {
                            assert(load_from(index@, gen_si, data_si, pos as int) is None);
                            assert(replay(segs0) is None);
                        }
                        return Err(e);
                    },
                };
                let ghost cm = c@;
                let ghost ix0 = index@;
                let ghost live0 = index.live();
                match c {
                    Command::Put { key, value: _ } => {
                        let cp = CommandPos {
                            gen: seg.gen,
                            pos: pos as u64,
                            len: (end - pos) as u64,
                        };
                        let ghost k1 = key@;
                        proof {
                            if index@.contains_key(k1) {
                                index.lemma_entry_len_bound(k1);
                            }
                        }
                        let prev = index.insert(key, cp);
                        match prev {
                            Some(old_cmd) => {
                                uncompacted = uncompacted + old_cmd.len;
                            },
                            None => {},
                        }
                        proof {
                            lemma_gen_unique(segs0, si as int);
                            assert(entry_consistent(segs0, k1, cp));
                            assert(index@ == apply_cmd(ix0, cm, gen_si, pos as int, end as int));
                        }
                    },
                    Command::Remove { key } => {
                        let ghost k1 = key@;
                        proof {
                            if index@.contains_key(k1) {
                                index.lemma_entry_len_bound(k1);
                            }
                        }
                        let prev = index.remove(&key);
                        proof {
                            index.lemma_entries();
                        }
                        match prev {
                            Some(old_cmd) => {
                                uncompacted = uncompacted + old_cmd.len;
                            },
                            None => {},
                        }
                        proof {
                            assert(index.live() >= 0);
                            assert(uncompacted <= total_bytes(segs0.take(si as int)) + pos);
                        }
                        uncompacted = uncompacted + (end - pos) as u64;
                        proof {
                            assert(index@ == apply_cmd(ix0, cm, gen_si, pos as int, end as int));
                        }
                    },
                }
                proof {
                    assert(load_from(ix0, gen_si, data_si, pos as int) == load_from(
                        index@,
                        gen_si,
                        data_si,
                        end as int,
                    ));
                }
                pos = end;
            }
            si = si + 1;
            proof {
                lemma_total_take_step(segs0, si - 1);
                lemma_total_take_bound(segs0, si as int);
            }
            total = total + dn as u64;
        }
        proof {
            assert(segs0.take(n as int) =~= segs0);
            assert(replay(segs0) == Some(index@));
        }
        let current_gen: u64 = if n == 0 {
            1
        } else {
            segs[n - 1].gen + 1
        };
        proof {
            assert forall|i: int| 0 <= i < segs0.len() implies segs0[i].gen < current_gen by {
                if i < segs0.len() - 1 {
                    assert(segs0[i].gen < segs0[segs0.len() - 1].gen);
                }
            }
        }
        let active: Vec<u8> = Vec::new();
        segs.push(Segment { gen: current_gen, data: active });
        let mut effects: Vec<Effect> = Vec::new();
        effects.push(Effect::Create { gen: current_gen });
        let store = KvStore { segments: segs, index, current_gen, uncompacted, total, effects };
        proof {
            let segs1 = store.segments@;
            lemma_push_preserve(segs0, segs1.last());
            assert(segs1 =~= segs0.push(segs1.last()));
            lemma_replay_snoc(Map::empty(), segs0, segs1.last());
            assert(replay(segs1) == Some(store.index@));
            assert forall|k: Seq<char>| store.index@.contains_key(k) implies entry_consistent(
                segs1,
                k,
                #[trigger] store.index@[k],
            ) by {
                assert(entry_consistent(segs0, k, store.index@[k]));
            }
            assert(store.wf());
            assert forall|k: Seq<char>| store.index@.contains_key(k) implies entry_value(
                segs1,
                #[trigger] store.index@[k],
            ) == entry_value(segs0, store.index@[k]) by {
                assert(entry_consistent(segs0, k, store.index@[k]));
            }
            assert(store.kv() =~= disk_kv(segs0)->Some_0);
            assert(disk_kv(segs0) == Some(store.kv()));
        }
        Ok(store)
    }

    /// Sets the value of a key, overwriting any previous value.
    ///
    /// The `Put` record is appended durably before the index moves to it.
    /// A record this key previously held becomes reclaimable; when the
    /// reclaimable bytes then exceed [`COMPACTION_THRESHOLD`], compaction
    /// runs synchronously before the call returns.
    pub fn set(&mut self, key: String, value: String) -> (r: Result<(), KvsError>)
        requires
            old(self).wf(),
            total_bytes(old(self).disk()) + enc(
                CommandModel::Put { key: key@, value: value@ },
            ).len() <= u64::MAX,
            old(self).current_generation() + 2 <= u64::MAX,
        ensures
            final(self).wf(),
            r is Ok,
            final(self).kv() == old(self).kv().insert(key@, value@),
            effects_extended(old(self).effects_spec(), final(self).effects_spec()),
            ({
                let grown = old(self).uncompacted_spec() + old(self).live_len(key@);
                if grown > COMPACTION_THRESHOLD {
                    &&& final(self).uncompacted_spec() == 0
                    &&& final(self).current_generation() == old(self).current_generation() + 2
                } else {
                    &&& final(self).uncompacted_spec() == grown
                    &&& final(self).current_generation() == old(self).current_generation()
                    &&& final(self).effects_spec().len() == old(self).effects_spec().len() + 1
                    &&& match final(self).effects_spec().last() {
                        Effect::Append { gen, bytes } => gen == old(self).current_generation()
                            && bytes@ == enc(CommandModel::Put { key: key@, value: value@ }),
                        _ => false,
                    }
                }
            }),
    {
        let ghost segs0 = self.segments@;
        let ghost k0 = key@;
        let cmd = Command::set(key, value);
        let ghost cmdm = cmd@;
        proof {
            if self.index@.contains_key(k0) {
                self.index.lemma_entry_len_bound(k0);
            }
            self.index.lemma_entries();
        }
        let cp = self.append_record(&cmd);
        let key = match cmd {
            Command::Put { key, value: _ } => key,
            Command::Remove { key } => key,
        };
        let prev = self.index.insert(key, cp);
        match prev {
            Some(old_cmd) => {
                self.uncompacted = self.uncompacted + old_cmd.len;
            },
            None => {},
        }
        proof {
            let segs1 = self.segments@;
            assert forall|k: Seq<char>| self.index@.contains_key(k) implies entry_consistent(
                segs1,
                k,
                #[trigger] self.index@[k],
            ) && (k != key@ ==> entry_value(segs1, self.index@[k]) == entry_value(
                segs0,
                self.index@[k],
            )) by {
                let cpk = self.index@[k];
                if k == key@ {
                    assert(cpk == cp);
                    assert(dec_at(seg_data(segs1, cp.gen), cp.pos as int) == Some(
                        (cmdm, cp.pos + cp.len),
                    ));
                } else {
                    assert(old(self).index@.contains_key(k) && old(self).index@[k] == cpk);
                    assert(entry_consistent(segs0, k, cpk));
                    if cpk.gen == old(self).current_gen {
                        lemma_dec_extend(seg_data(segs0, cpk.gen), enc(cmdm), cpk.pos as int);
                    }
                }
            }
            assert(self.kv() =~= old(self).kv().insert(key@, value@));
            assert(self.wf());
        }
        proof {
            assert(effects_extended(old(self).effects_spec(), self.effects_spec()));
        }
        if self.uncompacted > COMPACTION_THRESHOLD {
            let ghost mid = self.effects_spec();
            match self.compact() {
                Ok(_) => {},
                Err(e) => {
                    return Err(e);
                },
            }
            proof {
                lemma_effects_extended_trans(
                    old(self).effects_spec(),
                    mid,
                    self.effects_spec(),
                );
            }
        }
        Ok(())
    }

    /// Removes a key.
    ///
    /// When the key is live, a `Remove` record is appended durably, the
    /// key leaves the index, and both the superseded record and the new
    /// tombstone become reclaimable. Removing an absent key fails with
    /// `KeyNotFound` and changes nothing.
    pub fn remove(&mut self, key: String) -> (r: Result<(), KvsError>)
        requires
            old(self).wf(),
            old(self).kv().contains_key(key@) ==> total_bytes(old(self).disk()) + enc(
                CommandModel::Remove { key: key@ },
            ).len() <= u64::MAX,
        ensures
            final(self).wf(),
            match r {
                Ok(_) => {
                    &&& old(self).kv().contains_key(key@)
                    &&& final(self).kv() == old(self).kv().remove(key@)
                    &&& final(self).uncompacted_spec() == old(self).uncompacted_spec() + old(
                        self,
                    ).live_len(key@) + enc(CommandModel::Remove { key: key@ }).len()
                    &&& final(self).current_generation() == old(self).current_generation()
                    &&& final(self).effects_spec().len() == old(self).effects_spec().len() + 1
                    &&& effects_extended(old(self).effects_spec(), final(self).effects_spec())
                    &&& match final(self).effects_spec().last() {
                        Effect::Append { gen, bytes } => gen == old(self).current_generation()
                            && bytes@ == enc(CommandModel::Remove { key: key@ }),
                        _ => false,
                    }
                },
                Err(e) => {
                    &&& !old(self).kv().contains_key(key@)
                    &&& e matches KvsError::KeyNotFound
                    &&& *final(self) == *old(self)
                },
            },
    {
        if self.index.get(&key).is_none() {
            return Err(KvsError::KeyNotFound);
        }
        let ghost segs0 = self.segments@;
        let cmd = Command::remove(key);
        let ghost cmdm = cmd@;
        let cp = self.append_record(&cmd);
        let key = match cmd {
            Command::Put { key, value: _ } => key,
            Command::Remove { key } => key,
        };
        proof {
            self.index.lemma_entry_len_bound(key@);
        }
        let prev = match self.index.remove(&key) {
            Some(prev) => prev,
            None => unreached(),
        };
        self.uncompacted = self.uncompacted + prev.len + cp.len;
        proof {
            let segs1 = self.segments@;
            assert forall|k: Seq<char>| self.index@.contains_key(k) implies entry_consistent(
                segs1,
                k,
                #[trigger] self.index@[k],
            ) && entry_value(segs1, self.index@[k]) == entry_value(segs0, self.index@[k]) by {
                let cpk = self.index@[k];
                assert(entry_consistent(segs0, k, cpk));
                if cpk.gen == old(self).current_gen {
                    lemma_dec_extend(seg_data(segs0, cpk.gen), enc(cmdm), cpk.pos as int);
                }
            }
            assert(final(self).kv() =~= old(self).kv().remove(key@));
        }
        Ok(())
    }

    /// Rewrites every live record into a fresh compaction segment, makes a
    /// new empty segment the active one, and drops all older segments.
    ///
    /// The key/value map is unchanged; afterwards no byte on disk is
    /// reclaimable. Two generation numbers are consumed: the compaction
    /// target and the new active segment.
    pub fn compact(&mut self) -> (r: Result<(), KvsError>)
        requires
            old(self).wf(),
            old(self).current_generation() + 2 <= u64::MAX,
        ensures
            final(self).wf(),
            r is Ok,
            final(self).kv() == old(self).kv(),
            final(self).uncompacted_spec() == 0,
            final(self).current_generation() == old(self).current_generation() + 2,
            effects_extended(old(self).effects_spec(), final(self).effects_spec()),
            ({
                // the new segments are created and filled before any old
                // segment is deleted: a crash in between loses no record
                let e0 = old(self).effects_spec().len() as int;
                let eff = final(self).effects_spec();
                &&& eff.len() == e0 + 3 + old(self).disk().len()
                &&& eff[e0] == (Effect::Create { gen: (old(self).current_generation() + 1) as u64 })
                &&& match eff[e0 + 1] {
                    Effect::Append { gen, bytes } => gen == old(self).current_generation() + 1
                        && bytes@ == seg_data(
                        final(self).disk(),
                        (old(self).current_generation() + 1) as u64,
                    ),
                    _ => false,
                }
                &&& eff[e0 + 2] == (Effect::Create {
                    gen: (old(self).current_generation() + 2) as u64,
                })
                &&& forall|i: int|
                    0 <= i < old(self).disk().len() ==> eff[e0 + 3 + i] == (Effect::Delete {
                        gen: old(self).disk()[i].gen,
                    })
            }),
    {
        let comp_gen = self.current_gen + 1;
        let new_gen = self.current_gen + 2;
        let mut comp_data: Vec<u8> = Vec::new();
        let mut nix = Index::new();
        let n = self.index.len();
        proof {
            self.index.lemma_entries();
            self.index.lemma_live_prefix_ends();
        }
        let mut j: usize = 0;
        while j < n
            invariant
                *self == *old(self),
                self.wf(),
                n == self.index.spec_len(),
                j <= n,
                comp_gen == self.current_gen + 1,
                self.current_gen + 2 <= u64::MAX,
                nix.inv(),
                load_from(Map::<Seq<char>, CommandPos>::empty(), comp_gen, comp_data@, 0) == Some(
                    nix@,
                ),
                comp_data@.len() == nix.live(),
                comp_data@.len() == self.index.live_prefix(j as int),
                forall|t: int|
                    0 <= t < j ==> nix@.contains_key(#[trigger] self.index.key_at_spec(t)),
                forall|k: Seq<char>|
                    nix@.contains_key(k) ==> exists|t: int|
                        0 <= t < j && #[trigger] self.index.key_at_spec(t) == k,
                forall|k: Seq<char>| #[trigger]
                    nix@.contains_key(k) ==> {
                        &&& self.index@.contains_key(k)
                        &&& nix@[k].gen == comp_gen
                        &&& nix@[k].pos + nix@[k].len <= comp_data@.len()
                        &&& nix@[k].len == self.index@[k].len
                        &&& dec_at(comp_data@, nix@[k].pos as int) == Some(
                            (
                                CommandModel::Put { key: k, value: self.kv()[k] },
                                nix@[k].pos + nix@[k].len,
                            ),
                        )
                    },
            decreases n - j,
        {
            let key = self.index.key_at(j);
            let cp = self.index.pos_at(j);
            proof {
                self.index.lemma_entries();
                assert(self.index@.contains_key(key@) && self.index@[key@] == cp);
                assert(entry_consistent(self.segments@, key@, cp));
            }
            let si = match self.find_segment(cp.gen) {
                Some(i) => i,
                None => unreached(),
            };
            let seg = &self.segments[si];
            let _sl = seg.data.len();
            proof {
                assert(seg.data@ == seg_data(self.segments@, cp.gen));
                lemma_dec_enc(seg.data@, cp.pos as int);
            }
            let ghost cmdm = dec_at(seg.data@, cp.pos as int)->Some_0.0;
            let pos_new = comp_data.len() as u64;
            let copied = copy_range(&seg.data, cp.pos as usize, cp.len as usize);
            let ghost d0 = comp_data@;
            proof {
                assert(copied@ == enc(cmdm));
                // the key has not been rewritten yet: entry keys are distinct
                if nix@.contains_key(key@) {
                    let t = choose|t: int|
                        0 <= t < j && #[trigger] self.index.key_at_spec(t) == key@;
                    assert(false);
                }
                self.index.lemma_live_prefix_step(j as int);
            }
            let mut payload = copied;
            comp_data.append(&mut payload);
            let new_cp = CommandPos { gen: comp_gen, pos: pos_new, len: cp.len };
            let ghost nix0 = nix@;
            let prev = nix.insert(key, new_cp);
            proof {
                assert(prev is None);
                lemma_load_append(
                    Map::<Seq<char>, CommandPos>::empty(),
                    comp_gen,
                    d0,
                    0,
                    cmdm,
                );
                assert(comp_data@ == d0 + enc(cmdm));
                assert(cmdm == (CommandModel::Put {
                    key: key@,
                    value: entry_value(old(self).segments@, cp),
                }));
                assert(self.kv()[key@] == entry_value(old(self).segments@, cp));
                assert(load_from(Map::<Seq<char>, CommandPos>::empty(), comp_gen, comp_data@, 0)
                    == Some(nix@));
                assert(comp_data@.subrange(
                    pos_new as int,
                    pos_new + enc(cmdm).len() as int,
                ) =~= enc(cmdm));
                lemma_enc_dec(comp_data@, pos_new as int, cmdm);
                assert forall|k: Seq<char>| #[trigger] nix@.contains_key(k) implies {
                    &&& self.index@.contains_key(k)
                    &&& nix@[k].gen == comp_gen
                    &&& nix@[k].pos + nix@[k].len <= comp_data@.len()
                    &&& nix@[k].len == self.index@[k].len
                    &&& dec_at(comp_data@, nix@[k].pos as int) == Some(
                        (
                            CommandModel::Put { key: k, value: self.kv()[k] },
                            nix@[k].pos + nix@[k].len,
                        ),
                    )
                } by {
                    if k != key@ {
                        assert(nix0.contains_key(k));
                        lemma_dec_extend(d0, enc(cmdm), nix0[k].pos as int);
                    }
                }
                assert forall|k: Seq<char>| nix@.contains_key(k) implies exists|t: int|
                    0 <= t < j + 1 && #[trigger] self.index.key_at_spec(t) == k by {
                    if k == key@ {
                        assert(self.index.key_at_spec(j as int) == k);
                    } else {
                        let t = choose|t: int|
                            0 <= t < j && #[trigger] self.index.key_at_spec(t) == k;
                        assert(self.index.key_at_spec(t) == k);
                    }
                }
            }
            j = j + 1;
        }
        // record the effects: write the new segments, then drop the old ones
        let ghost eff0 = self.effects@;
        let eff_bytes = copy_bytes(&comp_data);
        let new_total = eff_bytes.len() as u64;
        self.effects.push(Effect::Create { gen: comp_gen });
        self.effects.push(Effect::Append { gen: comp_gen, bytes: eff_bytes });
        self.effects.push(Effect::Create { gen: new_gen });
        let ghost eff3 = self.effects@;
        proof {
            assert(eff3.subrange(0, eff0.len() as int) =~= eff0);
            assert(eff3.len() == eff0.len() + 3);
            assert(eff3[eff0.len() as int] == (Effect::Create { gen: comp_gen }));
            assert(match eff3[eff0.len() as int + 1] {
                Effect::Append { gen, bytes } => gen == comp_gen && bytes@ == comp_data@,
                _ => false,
            });
            assert(eff3[eff0.len() as int + 2] == (Effect::Create { gen: new_gen }));
        }
        let sn = self.segments.len();
        let mut di: usize = 0;
        while di < sn
            invariant
                di <= sn,
                sn == self.segments@.len(),
                self.segments == old(self).segments,
                self.index == old(self).index,
                self.current_gen == old(self).current_gen,
                self.uncompacted == old(self).uncompacted,
                effects_extended(eff0, self.effects@),
                self.effects@.len() == eff3.len() + di,
                self.effects@.subrange(0, eff3.len() as int) == eff3,
                forall|t: int|
                    0 <= t < di ==> self.effects@[eff3.len() + t] == (Effect::Delete {
                        gen: self.segments@[t].gen,
                    }),
            decreases sn - di,
        {
            let g = self.segments[di].gen;
            self.effects.push(Effect::Delete { gen: g });
            proof {
                assert(self.effects@.subrange(0, eff0.len() as int) =~= eff0);
                assert(self.effects@.subrange(0, eff3.len() as int) =~= eff3);
            }
            di = di + 1;
        }
        // install the new segment pair and the rewritten index
        proof {
            self.index.lemma_entries();
            self.index.lemma_live_prefix_ends();
        }
        let ghost segs0 = self.segments@;
        let ghost kv0 = old(self).kv();
        let mut new_segments: Vec<Segment> = Vec::new();
        new_segments.push(Segment { gen: comp_gen, data: comp_data });
        let active_data: Vec<u8> = Vec::new();
        new_segments.push(Segment { gen: new_gen, data: active_data });
        self.segments = new_segments;
        self.index = nix;
        self.current_gen = new_gen;
        self.uncompacted = 0;
        self.total = new_total;
        proof {
            let segs1 = self.segments@;
            let d = segs1[0].data@;
            assert(segs1.len() == 2);
            assert(replay(segs1) == Some(self.index@)) by {
                assert(segs1[0].gen == comp_gen && segs1[0].data@ == d);
                assert(load_from(Map::<Seq<char>, CommandPos>::empty(), comp_gen, d, 0) == Some(
                    self.index@,
                ));
                assert(segs1[1].gen == new_gen && segs1[1].data@.len() == 0);
                assert(load_from(self.index@, new_gen, segs1[1].data@, 0) == Some(self.index@));
                assert(replay_from(self.index@, segs1, 2) == Some(self.index@));
                assert(replay_from(self.index@, segs1, 1) == Some(self.index@));
            }
            assert forall|k: Seq<char>| self.index@.contains_key(k) implies entry_consistent(
                segs1,
                k,
                #[trigger] self.index@[k],
            ) by {
                assert(segs1[0].gen == comp_gen);
                lemma_gen_unique(segs1, 0);
                assert(seg_data(segs1, comp_gen) == d);
            }
            assert(total_bytes(segs1) == d.len()) by {
                let one = segs1.drop_last();
                assert(one =~= seq![segs1[0]]);
                assert(one.drop_last() =~= Seq::<Segment>::empty());
                assert(total_bytes(one.drop_last()) == 0);
                assert(one.len() == 1 && one.last() == segs1[0]);
                assert(total_bytes(one) == one.last().data@.len());
                assert(segs1.last().data@.len() == 0);
                assert(total_bytes(segs1) == total_bytes(one) + segs1.last().data@.len());
            }
            assert(seg_data(segs1, comp_gen) == d) by {
                lemma_gen_unique(segs1, 0);
            }
            assert forall|i: int| 0 <= i < eff3.len() implies self.effects@[i] == eff3[i] by {
                assert(self.effects@.subrange(0, eff3.len() as int)[i] == self.effects@[i]);
            }
            assert(self.kv() =~= kv0) by {
                assert forall|k: Seq<char>| kv0.contains_key(k) implies self.index@.contains_key(
                    k,
                ) by {
                    let t = choose|t: int|
                        0 <= t < n && #[trigger] old(self).index.key_at_spec(t) == k;
                }
                assert forall|k: Seq<char>| self.index@.contains_key(k) implies self.kv()[k]
                    == kv0[k] by {
                    lemma_gen_unique(segs1, 0);
                }
            }
        }
        Ok(())
    }

    /// Looks a key up in the segment list.
    ///
    /// Returns `i` with `segments[i].gen == gen` when the generation is
    /// present.
    fn find_segment(&self, gen: u64) -> (r: Option<usize>)
        requires
            gens_ascending(self.segments@),
        ensures
            match r {
                Some(i) => i < self.segments@.len() && self.segments@[i as int].gen == gen
                    && has_gen(self.segments@, gen) && idx_of_gen(self.segments@, gen) == i,
                None => !has_gen(self.segments@, gen),
            },
    {
        let n = self.segments.len();
        let mut i: usize = 0;
        while i < n
            invariant
                i <= n,
                n == self.segments@.len(),
                gens_ascending(self.segments@),
                forall|j: int| 0 <= j < i ==> self.segments@[j].gen != gen,
            decreases n - i,
        {
            if self.segments[i].gen == gen {
                proof {
                    lemma_gen_unique(self.segments@, i as int);
                }
                return Some(i);
            }
            i = i + 1;
        }
        proof {
            if has_gen(self.segments@, gen) {
                let j = idx_of_gen(self.segments@, gen);
                assert(self.segments@[j].gen == gen);
            }
        }
        None
    }

    /// Gets the value of a key.
    ///
    /// Returns `None` when the key is absent; never fails on a well-formed
    /// store.
    pub fn get(&self, key: String) -> (r: Result<Option<String>, KvsError>)
        requires
            self.wf(),
        ensures
            match r {
                Ok(Some(v)) => self.kv().contains_key(key@) && v@ == self.kv()[key@],
                Ok(None) => !self.kv().contains_key(key@),
                Err(_) => false,
            },
    {
        let cp = match self.index.get(&key) {
            Some(cp) => cp,
            None => {
                return Ok(None);
            },
        };
        let i = match self.find_segment(cp.gen) {
            Some(i) => i,
            None => {
                proof {
                    assert(entry_consistent(self.segments@, key@, cp));
                }
                return Err(KvsError::UnexpectedCommandType);
            },
        };
        let seg = &self.segments[i];
        proof {
            assert(entry_consistent(self.segments@, key@, cp));
            assert(seg.data@ == seg_data(self.segments@, cp.gen));
        }
        match value_at(&seg.data, cp.pos, cp.len) {
            Ok(v) => {
                proof {
                    assert(span_kind(seg.data@, cp.pos as int, cp.len as int) == SpanKind::Value(
                        entry_value(self.segments@, cp),
                    ));
                }
                Ok(Some(v))
            },
            Err(e) => {
                proof {
                    assert(span_kind(seg.data@, cp.pos as int, cp.len as int) == SpanKind::Value(
                        entry_value(self.segments@, cp),
                    ));
                }
                Err(e)
            },
        }
    }
}

/// The failure reported when the log cannot grow without overflowing its
/// 64-bit byte or generation counters.
fn limit_error() -> (e: KvsError)
    ensures
        e matches KvsError::StringError(_),
{
    KvsError::StringError(String::from_str("store has reached its size limit"))
}

impl crate::engine::KvsEngine for KvStore {
    open spec fn inv(&self) -> bool {
        self.wf()
    }

    /// Checks the machine limits (the 64-bit byte and generation
    /// counters), then appends through the store; a log that cannot grow
    /// any further reports a plain failure instead of overflowing.
    fn set(&mut self, key: String, value: String) -> (r: Result<(), KvsError>)
        ensures
            r is Ok <==> total_bytes(old(self).disk()) + enc(
                CommandModel::Put { key: key@, value: value@ },
            ).len() <= u64::MAX && old(self).current_generation() + 2 <= u64::MAX,
            r is Ok ==> final(self).kv() == old(self).kv().insert(key@, value@),
            r is Err ==> *final(self) == *old(self) && r matches Err(KvsError::StringError(_)),
    {
        let ks = key.as_str();
        let vs = value.as_str();
        let klen = ks.as_bytes().len();
        let vlen = vs.as_bytes().len();
        proof {
            assert(ks@ == key@ && vs@ == value@);
            assert(klen == ks.spec_bytes().len() && vlen == vs.spec_bytes().len());
            lemma_enc_structure(CommandModel::Put { key: key@, value: value@ });
        }
        let need = match (17u64).checked_add(klen as u64) {
            Some(x) => match x.checked_add(vlen as u64) {
                Some(y) => y,
                None => {
                    return Err(limit_error());
                },
            },
            None => {
                return Err(limit_error());
            },
        };
        if self.total > u64::MAX - need || self.current_gen > u64::MAX - 2 {
            return Err(limit_error());
        }
        proof {
            lemma_enc_structure(CommandModel::Put { key: key@, value: value@ });
            assert(klen == encode_utf8(key@).len());
            assert(vlen == encode_utf8(value@).len());
        }
        KvStore::set(self, key, value)
    }

    fn get(&mut self, key: String) -> (r: Result<Option<String>, KvsError>)
        ensures
            *final(self) == *old(self),
            match r {
                Ok(Some(v)) => old(self).kv().contains_key(key@) && v@ == old(self).kv()[key@],
                Ok(None) => !old(self).kv().contains_key(key@),
                Err(_) => false,
            },
    {
        KvStore::get(self, key)
    }

    /// Checks the machine limits as `set` does; an absent key still
    /// answers `KeyNotFound` even when the log cannot grow.
    fn remove(&mut self, key: String) -> (r: Result<(), KvsError>)
        ensures
            r is Ok ==> old(self).kv().contains_key(key@) && final(self).kv() == old(
                self,
            ).kv().remove(key@),
            r matches Err(KvsError::KeyNotFound) <==> !old(self).kv().contains_key(key@),
            r is Err ==> *final(self) == *old(self),
    {
        let ks = key.as_str();
        let klen = ks.as_bytes().len();
        proof {
            assert(ks@ == key@);
            assert(klen == ks.spec_bytes().len());
            lemma_enc_structure(CommandModel::Remove { key: key@ });
        }
        let need = match (9u64).checked_add(klen as u64) {
            Some(x) => x,
            None => {
                return match self.index.get(&key) {
                    None => Err(KvsError::KeyNotFound),
                    Some(_) => Err(limit_error()),
                };
            },
        };
        if self.total > u64::MAX - need {
            return match self.index.get(&key) {
                None => Err(KvsError::KeyNotFound),
                Some(_) => Err(limit_error()),
            };
        }
        KvStore::remove(self, key)
    }
}

proof fn lemma_replay_congruent(
    m: Map<Seq<char>, CommandPos>,
    a: Seq<Segment>,
    b: Seq<Segment>,
    i: int,
)
    requires
        a.len() == b.len(),
        forall|j: int|
            0 <= j < a.len() ==> #[trigger] a[j].gen == b[j].gen && a[j].data@ == b[j].data@,
        0 <= i <= a.len(),
    ensures
        replay_from(m, a, i) == replay_from(m, b, i),
    decreases a.len() - i,
{
    if i < a.len() {
        match load_from(m, a[i].gen, a[i].data@, 0) {
            Some(m2) => {
                lemma_replay_congruent(m2, a, b, i + 1);
            },
            None => {},
        }
    }
}

proof fn lemma_total_congruent(a: Seq<Segment>, b: Seq<Segment>)
    requires
        a.len() == b.len(),
        forall|j: int|
            0 <= j < a.len() ==> #[trigger] a[j].gen == b[j].gen && a[j].data@ == b[j].data@,
    ensures
        total_bytes(a) == total_bytes(b),
    decreases a.len(),
{
    if a.len() > 0 {
        assert forall|j: int|
            0 <= j < a.drop_last().len() implies #[trigger] a.drop_last()[j].gen
            == b.drop_last()[j].gen && a.drop_last()[j].data@ == b.drop_last()[j].data@ by {
            assert(a[j].gen == b[j].gen && a[j].data@ == b[j].data@);
        }
        lemma_total_congruent(a.drop_last(), b.drop_last());
        assert(a[a.len() - 1].gen == b[b.len() - 1].gen && a[a.len() - 1].data@ == b[b.len()
            - 1].data@);
    }
}

impl KvStore {
    /// Durability across reopen: a byte-for-byte copy of a well-formed
    /// store's segments — such as [`KvStore::snapshot`] returns and the
    /// I/O shell keeps on disk — denotes exactly the store's key/value
    /// map, and meets the shape `open` asks of a segment list. A fresh
    /// engine opened on the copy therefore answers every lookup as this
    /// one does.
    pub proof fn lemma_snapshot_durability(self, copy: Seq<Segment>)
        requires
            self.wf(),
            copy.len() == self.disk().len(),
            forall|i: int|
                0 <= i < copy.len() ==> #[trigger] copy[i].gen == self.disk()[i].gen
                    && copy[i].data@ == self.disk()[i].data@,
        ensures
            gens_ascending(copy),
            total_bytes(copy) == total_bytes(self.disk()),
            disk_kv(copy) == Some(self.kv()),
    {
        let a = self.segments@;
        assert forall|i: int|
            0 <= i < copy.len() implies #[trigger] copy[i].gen == a[i].gen && copy[i].data@
            == a[i].data@ by {
            assert(copy[i].gen == self.disk()[i].gen && copy[i].data@ == self.disk()[i].data@);
        }
        lemma_total_congruent(copy, a);
        lemma_replay_congruent(Map::empty(), a, copy, 0);
        assert(replay(copy) == Some(self.index@));
        assert forall|k: Seq<char>| self.index@.contains_key(k) implies entry_value(
            copy,
            #[trigger] self.index@[k],
        ) == entry_value(a, self.index@[k]) by {
            let cp = self.index@[k];
            assert(entry_consistent(a, k, cp));
            let i = idx_of_gen(a, cp.gen);
            lemma_gen_unique(a, i);
            assert(copy[i].gen == cp.gen);
            lemma_gen_unique(copy, i);
            assert(seg_data(copy, cp.gen) == seg_data(a, cp.gen));
        }
        assert(disk_kv(copy)->Some_0 =~= self.kv());
    }
}

/// Round trip: after `set(k, v)` the store's map holds `v` at `k`, so a
/// `get(k)` — whose contract returns exactly the map's value — answers
/// `Some(v)`, whatever the map held before.
pub proof fn lemma_set_then_get(m: Map<Seq<char>, Seq<char>>, k: Seq<char>, v: Seq<char>)
    ensures
        m.insert(k, v).contains_key(k),
        m.insert(k, v)[k] == v,
{
}

/// Overwrite: two `set`s to one key leave exactly the second value; the
/// earlier value is gone from the map, so no `get` can ever answer it.
pub proof fn lemma_set_overwrites(
    m: Map<Seq<char>, Seq<char>>,
    k: Seq<char>,
    v1: Seq<char>,
    v2: Seq<char>,
)
    ensures
        m.insert(k, v1).insert(k, v2)[k] == v2,
        m.insert(k, v1).insert(k, v2) == m.insert(k, v2),
{
    assert(m.insert(k, v1).insert(k, v2) =~= m.insert(k, v2));
}

/// Removal: after `set(k, v)` then `remove(k)` the key is absent, so
/// `get(k)` answers `None`; and by `remove`'s contract, removing a key
/// that was never set fails with `KeyNotFound` and changes nothing.
pub proof fn lemma_set_then_remove(m: Map<Seq<char>, Seq<char>>, k: Seq<char>, v: Seq<char>)
    ensures
        !m.insert(k, v).remove(k).contains_key(k),
{
}

/// Copies a byte vector.
fn copy_bytes(data: &Vec<u8>) -> (r: Vec<u8>)
    ensures
        r@ == data@,
{
    let n = data.len();
    let mut out: Vec<u8> = Vec::new();
    let mut i: usize = 0;
    while i < n
        invariant
            i <= n,
            n == data@.len(),
            out@ =~= data@.subrange(0, i as int),
        decreases n - i,
    {
        out.push(data[i]);
        i = i + 1;
        assert(out@ =~= data@.subrange(0, i as int));
    }
    assert(out@ =~= data@);
    out
}

} // verus!
