//! The log-structured storage engine: generation segments, the
//! replay-built index, and threshold-triggered compaction.
//!
//! The engine works on the segment bytes themselves, held as values; the
//! surrounding program mirrors them to one file per generation.  Its
//! abstract contents — the map each key's latest live command gives it —
//! is `spec_replay` of those bytes, so recovery is correct by
//! construction: reopening from the same bytes rebuilds the same map.

use crate::codec::bytes_range;
use crate::error::KvsError;
use crate::wal::{
    apply_entry, commands_of, decode_entry_at, enc_str, encode_entry, entries_of, entry_ok,
    lemma_commands_push, lemma_encode_parse, lemma_parse_encode, lemma_records_append,
    lemma_replay_push, replay_map, spec_encode_entry, spec_records, Entry, LogEntry,
};
use vstd::prelude::*;

verus! {

/// How many stale bytes a mutation may leave behind before the engine
/// compacts: one mebibyte, a tuning knob rather than an invariant.
pub const COMPACTION_THRESHOLD: u64 = 1048576;

/// One generation file: its number and its record bytes.
#[derive(Debug)]
pub struct Segment {
    pub gen: u64,
    pub data: Vec<u8>,
}

/// Where a key's latest `Put` record lies: generation, byte offset and
/// record length.
#[derive(Debug)]
struct CommandPos {
    gen: u64,
    pos: u64,
    len: u64,
}

/// The commands held by a run of segments, oldest generation first, or
/// `None` if any segment's bytes are malformed.
pub open spec fn segs_entries(segs: Seq<Segment>) -> Option<Seq<Entry>>
    decreases segs.len(),
{
    if segs.len() == 0 {
        Some(Seq::empty())
    } else {
        match (segs_entries(segs.drop_last()), entries_of(segs.last().data@)) {
            (Some(a), Some(b)) => Some(a + commands_of(b)),
            _ => None,
        }
    }
}

/// The key-value map a run of segments replays to.
pub open spec fn spec_replay(segs: Seq<Segment>) -> Map<Seq<char>, Seq<char>>
    recommends
        segs_entries(segs) is Some,
{
    replay_map(segs_entries(segs).unwrap())
}

/// Generation numbers strictly increase along the run.
pub open spec fn gens_increasing(segs: Seq<Segment>) -> bool {
    forall|i: int, j: int|
        0 <= i < j < segs.len() ==> (#[trigger] segs[i].gen) < (#[trigger] segs[j].gen)
}

/// A well-formed segment run: nonempty, ordered, and fully parseable.
pub open spec fn segs_ok(segs: Seq<Segment>) -> bool {
    &&& segs.len() >= 1
    &&& gens_increasing(segs)
    &&& segs_entries(segs) is Some
}

/// The index entry `(k, cp)` points at a canonical `Put` record for `k`
/// holding exactly the value the map `m` gives `k`.
spec fn index_entry_ok(
    segs: Seq<Segment>,
    k: Seq<char>,
    cp: CommandPos,
    m: Map<Seq<char>, Seq<char>>,
) -> bool {
    &&& m.contains_key(k)
    &&& entry_ok(Entry::Put { key: k, value: m[k] })
    &&& cp.len == spec_encode_entry(Entry::Put { key: k, value: m[k] }).len()
    &&& exists|i: int|
        {
            &&& 0 <= i < segs.len()
            &&& (#[trigger] segs[i]).gen == cp.gen
            &&& cp.pos + cp.len <= segs[i].data@.len()
            &&& segs[i].data@.subrange(cp.pos as int, cp.pos + cp.len) == spec_encode_entry(
                Entry::Put { key: k, value: m[k] },
            )
        }
}

/// The index mirrors the map `m`: keys unique, every entry pointing at
/// its key's live record, and every key of `m` present.
spec fn index_wf(
    segs: Seq<Segment>,
    index: Seq<(String, CommandPos)>,
    m: Map<Seq<char>, Seq<char>>,
) -> bool {
    &&& forall|p: int, q: int|
        0 <= p < q < index.len() ==> (#[trigger] index[p]).0@ != (#[trigger] index[q]).0@
    &&& forall|p: int|
        0 <= p < index.len() ==> index_entry_ok(segs, (#[trigger] index[p]).0@, index[p].1, m)
    &&& forall|k: Seq<char>|
        #[trigger] m.contains_key(k) ==> exists|p: int|
            0 <= p < index.len() && (#[trigger] index[p]).0@ == k
}

/// Two segments of one run with the same generation are the same
/// segment.
proof fn lemma_gen_unique(segs: Seq<Segment>, i: int, j: int)
    requires
        gens_increasing(segs),
        0 <= i < segs.len(),
        0 <= j < segs.len(),
        segs[i].gen == segs[j].gen,
    ensures
        i == j,
{
}

/// The storage engine: the segment run, the in-memory index, and the
/// stale-byte counter.
#[derive(Debug)]
pub struct KvStore {
    segments: Vec<Segment>,
    index: Vec<(String, CommandPos)>,
    uncompacted: u64,
}

impl View for KvStore {
    type V = Map<Seq<char>, Seq<char>>;

    /// The abstract contents: what replaying the durable bytes gives.
    closed spec fn view(&self) -> Map<Seq<char>, Seq<char>> {
        spec_replay(self.segments@)
    }
}

impl KvStore {
    /// The durable state: the segment run the store would recover from.
    pub closed spec fn segs(&self) -> Seq<Segment> {
        self.segments@
    }

    /// The current writer generation.
    pub closed spec fn current_gen(&self) -> u64 {
        self.segments@.last().gen
    }

    /// The stale bytes accumulated since the last compaction.
    pub closed spec fn stale_bytes(&self) -> u64 {
        self.uncompacted
    }

    /// Well-formed: the segment run parses, and the index mirrors the
    /// replayed map.
    pub closed spec fn wf(&self) -> bool {
        &&& segs_ok(self.segments@)
        &&& index_wf(self.segments@, self.index@, self@)
    }

    /// Round-trip: a store that a `set` of `k` to `v` has just left —
    /// its map is the old one with `(k, v)` inserted — holds `v` at
    /// `k`, so the `get(k)` that follows returns exactly `v`.
    pub proof fn lemma_set_then_get(pre: &KvStore, post: &KvStore, k: Seq<char>, v: Seq<char>)
        requires
            post@ == pre@.insert(k, v),
        ensures
            post@.contains_key(k),
            post@[k] == v,
    {
    }

    /// Delete then get: a store that a successful `remove(k)` has just
    /// left holds nothing at `k`, so the `get(k)` that follows returns
    /// no value, whatever was set before.
    pub proof fn lemma_remove_then_get(pre: &KvStore, post: &KvStore, k: Seq<char>)
        requires
            post@ == pre@.remove(k),
        ensures
            !post@.contains_key(k),
    {
    }

    /// Idempotent recovery: the store's map is exactly what replaying
    /// its durable segment run gives — the index is a cache, never the
    /// source of truth — and that run satisfies `open`'s demands, so a
    /// store reopened over it answers every `get` as this one does.
    pub proof fn lemma_idempotent_recovery(&self)
        requires
            self.wf(),
        ensures
            gens_increasing(self.segs()),
            self.segs().len() >= 1,
            segs_entries(self.segs()) is Some,
            spec_replay(self.segs()) == self@,
    {
    }

    /// Mutation exclusion, one writer at a time: `set`s of distinct
    /// keys never disturb each other — after both, each key is
    /// retrievable with its own last-written value.
    pub proof fn lemma_distinct_sets_preserved(
        pre: &KvStore,
        post: &KvStore,
        k1: Seq<char>,
        v1: Seq<char>,
        k2: Seq<char>,
        v2: Seq<char>,
    )
        requires
            k1 != k2,
            post@ == pre@.insert(k1, v1).insert(k2, v2),
        ensures
            post@.contains_key(k1) && post@[k1] == v1,
            post@.contains_key(k2) && post@[k2] == v2,
    {
    }

    /// The segment run, for the surrounding program to persist.
    pub fn segments(&self) -> (r: &Vec<Segment>)
        ensures
            r@ == self.segs(),
    {
        &self.segments
    }

    /// Looks up a key's value.  Never fails on a well-formed store: an
    /// index hit always decodes to that key's live `Put` record.
    pub fn get(&self, key: String) -> (r: Result<Option<String>, KvsError>)
        requires
            self.wf(),
        ensures
            r is Ok,
            match r.unwrap() {
                Some(v) => self@.contains_key(key@) && v@ == self@[key@] && enc_str(v@).len()
                    <= u32::MAX,
                None => !self@.contains_key(key@),
            },
    {
        match find_index(&self.index, &key) {
            None => {
                proof {
                    assert(!self@.contains_key(key@));
                }
                Ok(None)
            }
            Some(i) => {
                let g = self.index[i].1.gen;
                let pos64 = self.index[i].1.pos;
                let len64 = self.index[i].1.len;
                proof {
                    assert(index_entry_ok(self.segments@, self.index@[i as int].0@,
                        self.index@[i as int].1, self@));
                }
                match find_segment(&self.segments, g) {
                    Some(si) => {
                        let seg_len = self.segments[si].data.len();
                        proof {
                            let segs = self.segments@;
                            let cp = self.index@[i as int].1;
                            let e = Entry::Put { key: key@, value: self@[key@] };
                            let sj = choose|j: int|
                                {
                                    &&& 0 <= j < segs.len()
                                    &&& (#[trigger] segs[j]).gen == cp.gen
                                    &&& cp.pos + cp.len <= segs[j].data@.len()
                                    &&& segs[j].data@.subrange(cp.pos as int, cp.pos + cp.len)
                                        == spec_encode_entry(e)
                                };
                            lemma_gen_unique(segs, si as int, sj);
                            lemma_parse_encode(e, segs[si as int].data@, pos64 as int);
                            // The segment's length, read as a `usize`,
                            // keeps the offset cast below faithful.
                            assert(pos64 <= seg_len as u64);
                        }
                        let pos = pos64 as usize;
                        match decode_entry_at(self.segments[si].data.as_slice(), pos) {
                            Some((ent, _end)) => match ent {
                                LogEntry::Put { key: _k2, value } => Ok(Some(value)),
                                LogEntry::Rm { .. } => {
                                    proof {
                                        assert(false);
                                    }
                                    Err(KvsError::UnexpectedCommandType)
                                }
                            },
                            None => {
                                proof {
                                    assert(false);
                                }
                                Err(KvsError::UnexpectedCommandType)
                            }
                        }
                    }
                    None => {
                        proof {
                            assert(false);
                        }
                        Err(KvsError::UnexpectedCommandType)
                    }
                }
            }
        }
    }
}

/// Extending the last segment of a run with one encoded record appends
/// exactly that command to what the run holds and replays.
proof fn lemma_segs_append(segs: Seq<Segment>, seg2: Segment, e: Entry)
    requires
        segs.len() >= 1,
        segs_entries(segs) is Some,
        entry_ok(e),
        seg2.gen == segs.last().gen,
        seg2.data@ == segs.last().data@ + spec_encode_entry(e),
    ensures
        segs_entries(segs.drop_last().push(seg2)) == Some(segs_entries(segs).unwrap().push(e)),
        spec_replay(segs.drop_last().push(seg2)) == apply_entry(spec_replay(segs), e),
{
    let segs2 = segs.drop_last().push(seg2);
    assert(segs2.drop_last() =~= segs.drop_last());
    assert(segs2.last() == seg2);
    let old_last = segs.last().data@;
    lemma_records_append(old_last, e, 0);
    lemma_commands_push(entries_of(old_last).unwrap(), old_last.len() as int, e);
    let a = segs_entries(segs.drop_last()).unwrap();
    let b = commands_of(entries_of(old_last).unwrap());
    assert(segs_entries(segs) == Some(a + b));
    assert(segs_entries(segs2) == Some(a + b.push(e)));
    assert(a + b.push(e) =~= (a + b).push(e));
    lemma_replay_push(a + b, e);
}

/// A live index entry stays live when segments only grow at their ends
/// and the key's value is unchanged.
proof fn lemma_entry_ok_extend(
    segs: Seq<Segment>,
    segs2: Seq<Segment>,
    k: Seq<char>,
    cp: CommandPos,
    m: Map<Seq<char>, Seq<char>>,
    m2: Map<Seq<char>, Seq<char>>,
)
    requires
        index_entry_ok(segs, k, cp, m),
        segs.len() <= segs2.len(),
        forall|i: int| 0 <= i < segs.len() ==> (#[trigger] segs2[i]).gen == segs[i].gen,
        forall|i: int|
            0 <= i < segs.len() ==> segs[i].data@.is_prefix_of((#[trigger] segs2[i]).data@),
        m2.contains_key(k),
        m2[k] == m[k],
    ensures
        index_entry_ok(segs2, k, cp, m2),
{
    let e = Entry::Put { key: k, value: m[k] };
    let j = choose|j: int|
        {
            &&& 0 <= j < segs.len()
            &&& (#[trigger] segs[j]).gen == cp.gen
            &&& cp.pos + cp.len <= segs[j].data@.len()
            &&& segs[j].data@.subrange(cp.pos as int, cp.pos + cp.len) == spec_encode_entry(e)
        };
    assert(segs2[j].data@.subrange(cp.pos as int, cp.pos + cp.len) =~= segs[j].data@.subrange(
        cp.pos as int,
        cp.pos + cp.len,
    ));
    assert({
        &&& 0 <= j < segs2.len()
        &&& (#[trigger] segs2[j]).gen == cp.gen
        &&& cp.pos + cp.len <= segs2[j].data@.len()
        &&& segs2[j].data@.subrange(cp.pos as int, cp.pos + cp.len) == spec_encode_entry(
            Entry::Put { key: k, value: m2[k] },
        )
    });
}

impl KvStore {
    /// Appends one command to the current generation's bytes; returns
    /// the new record's byte offset and length.
    fn append_record(&mut self, ent: &LogEntry) -> (r: (u64, u64))
        requires
            old(self).segments@.len() >= 1,
            segs_entries(old(self).segments@) is Some,
            entry_ok(ent@),
        ensures
            final(self).segments@.len() == old(self).segments@.len(),
            forall|i: int|
                0 <= i < old(self).segments@.len() ==> (#[trigger] final(self).segments@[i]).gen
                    == old(self).segments@[i].gen,
            forall|i: int|
                0 <= i < old(self).segments@.len() - 1 ==> (#[trigger] final(self).segments@[i])
                    .data@ == old(self).segments@[i].data@,
            forall|i: int|
                0 <= i < old(self).segments@.len() ==> old(self).segments@[i].data@.is_prefix_of(
                    (#[trigger] final(self).segments@[i]).data@,
                ),
            final(self).segments@.last().data@ == old(self).segments@.last().data@
                + spec_encode_entry(ent@),
            segs_entries(final(self).segments@) == Some(
                segs_entries(old(self).segments@).unwrap().push(ent@),
            ),
            final(self)@ == apply_entry(old(self)@, ent@),
            final(self).index@ == old(self).index@,
            final(self).uncompacted == old(self).uncompacted,
            r.0 == old(self).segments@.last().data@.len(),
            r.1 == spec_encode_entry(ent@).len(),
            r.0 + r.1 <= final(self).segments@.last().data@.len(),
    {
        let mut seg = self.segments.pop().unwrap();
        let pos = seg.data.len() as u64;
        let mut enc = encode_entry(ent);
        let elen = enc.len() as u64;
        seg.data.append(&mut enc);
        self.segments.push(seg);
        proof {
            lemma_segs_append(old(self).segments@, self.segments@.last(), ent@);
            assert(self.segments@ =~= old(self).segments@.drop_last().push(self.segments@.last()));
            assert forall|i: int| 0 <= i < old(self).segments@.len() implies old(
                self,
            ).segments@[i].data@.is_prefix_of((#[trigger] self.segments@[i]).data@) by {
                if i < old(self).segments@.len() - 1 {
                    assert(self.segments@[i] == old(self).segments@[i]);
                }
            }
        }
        (pos, elen)
    }

    /// Adds or replaces a key: appends a `Put` record to the current
    /// generation, repoints the index, accounts the bytes the key's old
    /// record (if any) leaves stale, then compacts once past the
    /// threshold.  The map gains the pair whatever compaction does.
    #[verifier::rlimit(60)]
    pub fn set(&mut self, key: String, value: String) -> (r: Result<(), KvsError>)
        requires
            old(self).wf(),
            enc_str(key@).len() <= u32::MAX,
            enc_str(value@).len() <= u32::MAX,
        ensures
            final(self).wf(),
            final(self)@ == old(self)@.insert(key@, value@),
            old(self).current_gen() <= u64::MAX - 2 ==> r is Ok,
            r is Err ==> old(self).current_gen() > u64::MAX - 2,
    {
        let ghost m0 = self@;
        let ghost segs0 = self.segments@;
        let ghost kv = key@;
        let ghost vv = value@;
        let ent = LogEntry::Put { key: key.clone(), value };
        let (pos, elen) = self.append_record(&ent);
        let ghost m1 = self@;
        let ghost segs1 = self.segments@;
        proof {
            assert(m1 == m0.insert(kv, vv));
            assert(gens_increasing(segs1));
        }
        let glen = self.segments.len();
        let g = self.segments[glen - 1].gen;
        let cp = CommandPos { gen: g, pos, len: elen };
        let ghost cpg = cp;
        proof {
            assert(segs1.last().data@.subrange(cpg.pos as int, cpg.pos + cpg.len)
                =~= spec_encode_entry(ent@));
            assert({
                &&& 0 <= segs1.len() - 1 < segs1.len()
                &&& (segs1[segs1.len() - 1]).gen == cpg.gen
                &&& cpg.pos + cpg.len <= segs1[segs1.len() - 1].data@.len()
                &&& segs1[segs1.len() - 1].data@.subrange(cpg.pos as int, cpg.pos + cpg.len)
                    == spec_encode_entry(Entry::Put { key: kv, value: m1[kv] })
            });
            assert(index_entry_ok(segs1, kv, cpg, m1));
        }
        match find_index(&self.index, &key) {
            Some(i) => {
                let stale = self.index[i].1.len;
                self.uncompacted = self.uncompacted.saturating_add(stale);
                self.index.remove(i);
                self.index.insert(i, (key, cp));
                proof {
                    assert(self.index@ =~= old(self).index@.update(i as int, self.index@[i as int]));
                    lemma_set_index_wf(segs0, segs1, old(self).index@, self.index@, m0, m1, key@,
                        i as int, cpg);
                }
            }
            None => {
                self.index.push((key, cp));
                proof {
                    lemma_set_index_wf_push(segs0, segs1, old(self).index@, self.index@, m0, m1,
                        key@, cpg);
                }
            }
        }
        if self.uncompacted > COMPACTION_THRESHOLD {
            proof {
                assert(self.segments@.last().gen == old(self).segments@.last().gen);
            }
            return self.compact();
        }
        Ok(())
    }
}

impl KvStore {
    /// Deletes a key: fails with `KeyNotFound` and changes nothing if
    /// the key is absent; otherwise appends a `Rm` record, drops the
    /// index entry, accounts both the old record's and the tombstone's
    /// bytes as stale, then compacts once past the threshold.
    pub fn remove(&mut self, key: String) -> (r: Result<(), KvsError>)
        requires
            old(self).wf(),
            enc_str(key@).len() <= u32::MAX,
        ensures
            final(self).wf(),
            !old(self)@.contains_key(key@) ==> r == Err::<(), KvsError>(KvsError::KeyNotFound)
                && *final(self) == *old(self),
            old(self)@.contains_key(key@) ==> {
                &&& final(self)@ == old(self)@.remove(key@)
                &&& (old(self).current_gen() <= u64::MAX - 2 ==> r is Ok)
                &&& (r is Err ==> old(self).current_gen() > u64::MAX - 2)
            },
    {
        let ghost m0 = self@;
        let ghost segs0 = self.segments@;
        let ghost kv = key@;
        match find_index(&self.index, &key) {
            None => {
                proof {
                    assert(!self@.contains_key(kv));
                }
                Err(KvsError::KeyNotFound)
            }
            Some(i) => {
                proof {
                    assert(index_entry_ok(segs0, old(self).index@[i as int].0@,
                        old(self).index@[i as int].1, m0));
                }
                let stale = self.index[i].1.len;
                let ent = LogEntry::Rm { key };
                let (_pos, elen) = self.append_record(&ent);
                let ghost m1 = self@;
                let ghost segs1 = self.segments@;
                self.uncompacted = self.uncompacted.saturating_add(stale).saturating_add(elen);
                self.index.remove(i);
                proof {
                    assert(m1 == m0.remove(kv));
                    assert(gens_increasing(segs1));
                    lemma_remove_index_wf(segs0, segs1, old(self).index@, self.index@, m0, m1, kv,
                        i as int);
                }
                if self.uncompacted > COMPACTION_THRESHOLD {
                    proof {
                        assert(self.segments@.last().gen == old(self).segments@.last().gen);
                    }
                    return self.compact();
                }
                Ok(())
            }
        }
    }
}

/// One malformed segment makes the whole run malformed.
proof fn lemma_segs_entries_none(segs: Seq<Segment>, i: int)
    requires
        0 <= i < segs.len(),
        entries_of(segs[i].data@) is None,
    ensures
        segs_entries(segs) is None,
    decreases segs.len(),
{
    if i < segs.len() - 1 {
        assert(segs.drop_last()[i] == segs[i]);
        lemma_segs_entries_none(segs.drop_last(), i);
    }
}

impl KvStore {
    /// Opens a store over the segment files recovered from disk, given
    /// in ascending generation order: replays every command to rebuild
    /// the index and the stale-byte counter, then starts a fresh writer
    /// generation one past the highest existing one.  Refuses to start,
    /// with `Serde`, exactly when some segment's bytes are malformed.
    pub fn open(files: Vec<Segment>) -> (r: Result<KvStore, KvsError>)
        requires
            gens_increasing(files@),
            files@.len() == 0 || files@.last().gen < u64::MAX,
        ensures
            match r {
                Ok(s) => {
                    &&& s.wf()
                    &&& segs_entries(files@) is Some
                    &&& s@ == spec_replay(files@)
                    &&& s.segs().len() == files@.len() + 1
                },
                Err(e) => e == KvsError::Serde && segs_entries(files@) is None,
            },
    {
        let mut index: Vec<(String, CommandPos)> = Vec::new();
        let mut uncompacted: u64 = 0;
        let ghost mut es: Seq<Entry> = Seq::empty();
        let mut si: usize = 0;
        proof {
            assert(files@.subrange(0, 0) =~= Seq::<Segment>::empty());
        }
        while si < files.len()
            invariant
                si <= files@.len(),
                gens_increasing(files@),
                segs_entries(files@.subrange(0, si as int)) == Some(es),
                index_wf(files@, index@, replay_map(es)),
            decreases files@.len() - si,
        {
            let g = files[si].gen;
            let dlen = files[si].data.len();
            let ghost d = files@[si as int].data@;
            let ghost es_pre = es;
            let ghost mut rs_done: Seq<(int, Entry)> = Seq::empty();
            let mut pos: usize = 0;
            proof {
                if spec_records(d, 0) is Some {
                    assert(Seq::<(int, Entry)>::empty() + spec_records(d, 0).unwrap()
                        =~= spec_records(d, 0).unwrap());
                }
                assert(commands_of(rs_done) =~= Seq::<Entry>::empty());
                assert(es_pre + Seq::<Entry>::empty() =~= es_pre);
            }
            while pos < dlen
                invariant
                    pos <= dlen,
                    si < files@.len(),
                    dlen == files@[si as int].data@.len(),
                    d == files@[si as int].data@,
                    g == files@[si as int].gen,
                    gens_increasing(files@),
                    match spec_records(d, pos as int) {
                        Some(rest) => entries_of(d) == Some(rs_done + rest),
                        None => entries_of(d) is None,
                    },
                    es == es_pre + commands_of(rs_done),
                    segs_entries(files@.subrange(0, si as int)) == Some(es_pre),
                    index_wf(files@, index@, replay_map(es)),
                decreases dlen - pos,
            {
                match decode_entry_at(files[si].data.as_slice(), pos) {
                    Some((ent, end)) => {
                        let ghost e = ent@;
                        let ghost m = replay_map(es);
                        let ghost idx0 = index@;
                        proof {
                            lemma_encode_parse(d, pos as int);
                            lemma_replay_push(es, e);
                            lemma_commands_push(rs_done, pos as int, e);
                            if spec_records(d, end as int) is Some {
                                assert(rs_done + (seq![(pos as int, e)] + spec_records(
                                    d,
                                    end as int,
                                ).unwrap()) =~= rs_done.push((pos as int, e)) + spec_records(
                                    d,
                                    end as int,
                                ).unwrap());
                            }
                            assert(es_pre + commands_of(rs_done).push(e) =~= (es_pre
                                + commands_of(rs_done)).push(e));
                            assert forall|j: int|
                                0 <= j < files@.len() implies files@[j].data@.is_prefix_of(
                                (#[trigger] files@[j]).data@,
                            ) by {
                                assert(files@[j].data@ =~= files@[j].data@.subrange(
                                    0,
                                    files@[j].data@.len() as int,
                                ));
                            }
                        }
                        let rec_len = (end - pos) as u64;
                        match ent {
                            LogEntry::Put { key, value: _v } => {
                                let cp = CommandPos { gen: g, pos: pos as u64, len: rec_len };
                                let ghost cpg = cp;
                                let ghost kv = key@;
                                let ghost m2 = replay_map(es.push(e));
                                proof {
                                    assert(m2 == m.insert(kv, m2[kv]));
                                    assert({
                                        &&& 0 <= (si as int) < files@.len()
                                        &&& files@[si as int].gen == cpg.gen
                                        &&& cpg.pos + cpg.len <= files@[si as int].data@.len()
                                        &&& files@[si as int].data@.subrange(
                                            cpg.pos as int,
                                            cpg.pos + cpg.len,
                                        ) == spec_encode_entry(
                                            Entry::Put { key: kv, value: m2[kv] },
                                        )
                                    });
                                    assert(index_entry_ok(files@, kv, cpg, m2));
                                }
                                match find_index(&index, &key) {
                                    Some(i) => {
                                        let stale = index[i].1.len;
                                        uncompacted = uncompacted.saturating_add(stale);
                                        index.remove(i);
                                        index.insert(i, (key, cp));
                                        proof {
                                            assert(index@ =~= idx0.update(
                                                i as int,
                                                index@[i as int],
                                            ));
                                            lemma_set_index_wf(files@, files@, idx0, index@, m, m2,
                                                kv, i as int, cpg);
                                        }
                                    }
                                    None => {
                                        index.push((key, cp));
                                        proof {
                                            lemma_set_index_wf_push(files@, files@, idx0, index@,
                                                m, m2, kv, cpg);
                                        }
                                    }
                                }
                            }
                            LogEntry::Rm { key } => {
                                let ghost kv = key@;
                                let ghost m2 = replay_map(es.push(e));
                                match find_index(&index, &key) {
                                    Some(i) => {
                                        let stale = index[i].1.len;
                                        uncompacted = uncompacted.saturating_add(
                                            stale,
                                        ).saturating_add(rec_len);
                                        index.remove(i);
                                        proof {
                                            lemma_remove_index_wf(files@, files@, idx0, index@, m,
                                                m2, kv, i as int);
                                        }
                                    }
                                    None => {
                                        uncompacted = uncompacted.saturating_add(rec_len);
                                        proof {
                                            assert(!m.contains_key(kv));
                                            assert(m2 =~= m);
                                        }
                                    }
                                }
                            }
                        }
                        proof {
                            es = es.push(e);
                            rs_done = rs_done.push((pos as int, e));
                        }
                        pos = end;
                    }
                    None => {
                        proof {
                            lemma_segs_entries_none(files@, si as int);
                        }
                        return Err(KvsError::Serde);
                    }
                }
            }
            proof {
                assert(rs_done + Seq::<(int, Entry)>::empty() =~= rs_done);
                assert(entries_of(d) == Some(rs_done));
                assert(files@.subrange(0, si as int + 1).drop_last() =~= files@.subrange(
                    0,
                    si as int,
                ));
                assert(files@.subrange(0, si as int + 1).last() == files@[si as int]);
                assert(segs_entries(files@.subrange(0, si as int + 1)) == Some(es));
            }
            si += 1;
        }
        let next_gen: u64 = if files.len() == 0 {
            1
        } else {
            files[files.len() - 1].gen + 1
        };
        let ghost files0 = files@;
        let mut segments = files;
        segments.push(Segment { gen: next_gen, data: Vec::new() });
        let store = KvStore { segments, index, uncompacted };
        proof {
            assert(files0.subrange(0, files0.len() as int) =~= files0);
            assert(segs_entries(files0) == Some(es));
            let segs2 = store.segments@;
            assert(segs2.drop_last() =~= files0);
            assert forall|i: int, j: int| 0 <= i < j < segs2.len() implies (
            #[trigger] segs2[i].gen) < (#[trigger] segs2[j].gen) by {
                if j < segs2.len() - 1 {
                    assert(segs2[i] == files0[i] && segs2[j] == files0[j]);
                } else {
                    assert(segs2[j].gen == next_gen);
                    if i < files0.len() - 1 {
                        assert(files0[i].gen < files0[files0.len() - 1].gen);
                    }
                }
            }
            assert(entries_of(segs2.last().data@) == Some(Seq::<(int, Entry)>::empty()));
            assert(commands_of(Seq::<(int, Entry)>::empty()) =~= Seq::<Entry>::empty());
            assert(es + Seq::<Entry>::empty() =~= es);
            assert(segs_entries(segs2) == Some(es));
            let m = replay_map(es);
            assert forall|p: int| 0 <= p < store.index@.len() implies index_entry_ok(
                segs2,
                (#[trigger] store.index@[p]).0@,
                store.index@[p].1,
                m,
            ) by {
                assert forall|j: int|
                    0 <= j < files0.len() implies files0[j].data@.is_prefix_of(
                    (#[trigger] segs2[j]).data@,
                ) by {
                    assert(segs2[j] == files0[j]);
                    assert(files0[j].data@ =~= files0[j].data@.subrange(
                        0,
                        files0[j].data@.len() as int,
                    ));
                }
                assert forall|j: int| 0 <= j < files0.len() implies (#[trigger] segs2[j]).gen
                    == files0[j].gen by {
                    assert(segs2[j] == files0[j]);
                }
                lemma_entry_ok_extend(files0, segs2, store.index@[p].0@, store.index@[p].1, m, m);
            }
            assert(index_wf(segs2, store.index@, m));
            assert(store.wf());
        }
        Ok(store)
    }
}

impl KvStore {
    /// Reclaims stale bytes: copies every live record into a fresh
    /// compaction-target generation, moves the writer one generation
    /// past it, swaps the index to the new positions only then, drops
    /// every older segment and resets the stale-byte counter.  The map
    /// is unchanged.  Fails, changing nothing, only when no two fresh
    /// generation numbers remain.
    pub fn compact(&mut self) -> (r: Result<(), KvsError>)
        requires
            old(self).wf(),
        ensures
            final(self).wf(),
            final(self)@ == old(self)@,
            old(self).current_gen() <= u64::MAX - 2 ==> r is Ok,
            r is Err ==> old(self).current_gen() > u64::MAX - 2 && *final(self) == *old(self),
            r is Ok ==> {
                &&& final(self).segs().len() == 2
                &&& final(self).segs()[0].gen == old(self).current_gen() + 1
                &&& final(self).segs()[1].gen == old(self).current_gen() + 2
                &&& final(self).current_gen() == old(self).current_gen() + 2
                &&& final(self).stale_bytes() == 0
            },
    {
        let glen = self.segments.len();
        let cur_gen = self.segments[glen - 1].gen;
        if cur_gen > u64::MAX - 2 {
            return Err(KvsError::Io);
        }
        let target_gen = cur_gen + 1;
        let writer_gen = cur_gen + 2;
        let ghost m = self@;
        let ghost segs0 = self.segments@;
        let ghost idx0 = self.index@;
        let mut new_data: Vec<u8> = Vec::new();
        let mut new_index: Vec<(String, CommandPos)> = Vec::new();
        let ghost mut es: Seq<Entry> = Seq::empty();
        let mut i: usize = 0;
        while i < self.index.len()
            invariant
                i <= idx0.len(),
                self.index@ == idx0,
                self.segments@ == segs0,
                segs_ok(segs0),
                index_wf(segs0, idx0, m),
                m == spec_replay(segs0),
                entries_of(new_data@) is Some,
                commands_of(entries_of(new_data@).unwrap()) == es,
                es.len() == i,
                forall|j: int|
                    0 <= j < i ==> es[j] == (Entry::Put {
                        key: (#[trigger] idx0[j]).0@,
                        value: m[idx0[j].0@],
                    }),
                forall|k: Seq<char>|
                    #[trigger] replay_map(es).contains_key(k) ==> exists|j: int|
                        0 <= j < i && (#[trigger] idx0[j]).0@ == k,
                forall|j: int|
                    0 <= j < i ==> replay_map(es).contains_key((#[trigger] idx0[j]).0@)
                        && replay_map(es)[idx0[j].0@] == m[idx0[j].0@],
                new_index@.len() == i,
                forall|j: int| 0 <= j < i ==> (#[trigger] new_index@[j]).0 == idx0[j].0,
                forall|j: int|
                    0 <= j < i ==> {
                        let cp = (#[trigger] new_index@[j]).1;
                        let e = Entry::Put { key: idx0[j].0@, value: m[idx0[j].0@] };
                        &&& cp.gen == target_gen
                        &&& cp.pos + cp.len <= new_data@.len()
                        &&& cp.len == spec_encode_entry(e).len()
                        &&& new_data@.subrange(cp.pos as int, cp.pos + cp.len)
                            == spec_encode_entry(e)
                    },
            decreases idx0.len() - i,
        {
            let g = self.index[i].1.gen;
            let pos64 = self.index[i].1.pos;
            let len64 = self.index[i].1.len;
            let ghost kv = idx0[i as int].0@;
            let ghost e = Entry::Put { key: kv, value: m[kv] };
            proof {
                assert(index_entry_ok(segs0, idx0[i as int].0@, idx0[i as int].1, m));
            }
            match find_segment(&self.segments, g) {
                Some(si) => {
                    proof {
                        let cp = idx0[i as int].1;
                        let sj = choose|j: int|
                            {
                                &&& 0 <= j < segs0.len()
                                &&& (#[trigger] segs0[j]).gen == cp.gen
                                &&& cp.pos + cp.len <= segs0[j].data@.len()
                                &&& segs0[j].data@.subrange(cp.pos as int, cp.pos + cp.len)
                                    == spec_encode_entry(e)
                            };
                        lemma_gen_unique(segs0, si as int, sj);
                    }
                    let seg_len = self.segments[si].data.len();
                    let pos = pos64 as usize;
                    let len = len64 as usize;
                    let ghost nd0 = new_data@;
                    let new_pos = new_data.len() as u64;
                    let mut piece = bytes_range(self.segments[si].data.as_slice(), pos, pos + len);
                    new_data.append(&mut piece);
                    let key2 = self.index[i].0.clone();
                    new_index.push((key2, CommandPos { gen: target_gen, pos: new_pos, len: len64 }));
                    proof {
                        assert(nd0 + spec_encode_entry(e) == new_data@);
                        lemma_records_append(nd0, e, 0);
                        lemma_commands_push(entries_of(nd0).unwrap(), nd0.len() as int, e);
                        lemma_replay_push(es, e);
                        assert(new_data@.subrange(new_pos as int, new_pos + len64)
                            =~= spec_encode_entry(e));
                        assert forall|j: int|
                            0 <= j < i implies {
                            let cp = (#[trigger] new_index@[j]).1;
                            let ej = Entry::Put { key: idx0[j].0@, value: m[idx0[j].0@] };
                            &&& cp.gen == target_gen
                            &&& cp.pos + cp.len <= new_data@.len()
                            &&& cp.len == spec_encode_entry(ej).len()
                            &&& new_data@.subrange(cp.pos as int, cp.pos + cp.len)
                                == spec_encode_entry(ej)
                        } by {
                            let cp = new_index@[j].1;
                            let ej = Entry::Put { key: idx0[j].0@, value: m[idx0[j].0@] };
                            assert(new_index@[j] == new_index@.drop_last()[j]);
                            assert(nd0.subrange(cp.pos as int, cp.pos + cp.len)
                                == spec_encode_entry(ej));
                            assert(new_data@.subrange(cp.pos as int, cp.pos + cp.len)
                                =~= nd0.subrange(cp.pos as int, cp.pos + cp.len));
                        }
                        es = es.push(e);
                    }
                    i += 1;
                }
                None => {
                    proof {
                        assert(false);
                    }
                    return Err(KvsError::UnexpectedCommandType);
                }
            }
        }
        proof {
            let mn = replay_map(es);
            assert forall|k: Seq<char>| mn.contains_key(k) implies m.contains_key(k) && mn[k]
                == m[k] by {
                let j = choose|j: int| 0 <= j < i && (#[trigger] idx0[j]).0@ == k;
                assert(index_entry_ok(segs0, idx0[j].0@, idx0[j].1, m));
            }
            assert forall|k: Seq<char>| m.contains_key(k) implies mn.contains_key(k) by {
                let p = choose|p: int| 0 <= p < idx0.len() && (#[trigger] idx0[p]).0@ == k;
            }
            assert(mn =~= m);
        }
        let ghost ndf = new_data@;
        let mut segments: Vec<Segment> = Vec::new();
        segments.push(Segment { gen: target_gen, data: new_data });
        segments.push(Segment { gen: writer_gen, data: Vec::new() });
        self.segments = segments;
        self.index = new_index;
        self.uncompacted = 0;
        proof {
            let segs2 = self.segments@;
            assert(segs2.len() == 2);
            assert(segs2[0].data@ == ndf);
            assert(segs2.drop_last() =~= seq![segs2[0]]);
            assert(seq![segs2[0]].drop_last() =~= Seq::<Segment>::empty());
            assert(seq![segs2[0]].last() == segs2[0]);
            assert(segs_entries(Seq::<Segment>::empty()) == Some(Seq::<Entry>::empty()));
            assert(Seq::<Entry>::empty() + commands_of(entries_of(ndf).unwrap()) =~= es);
            assert(segs_entries(seq![segs2[0]]) == Some(es));
            assert(segs2.last().data@ =~= Seq::<u8>::empty());
            assert(entries_of(segs2.last().data@) == Some(Seq::<(int, Entry)>::empty()));
            assert(commands_of(Seq::<(int, Entry)>::empty()) =~= Seq::<Entry>::empty());
            assert(es + Seq::<Entry>::empty() =~= es);
            assert(segs_entries(segs2) == Some(es));
            assert(self@ == m);
            assert(gens_increasing(segs2));
            assert forall|p: int| 0 <= p < self.index@.len() implies index_entry_ok(
                segs2,
                (#[trigger] self.index@[p]).0@,
                self.index@[p].1,
                m,
            ) by {
                assert(index_entry_ok(segs0, idx0[p].0@, idx0[p].1, m));
                assert(self.index@[p].0@ == idx0[p].0@);
                let cp = self.index@[p].1;
                let ep = Entry::Put { key: idx0[p].0@, value: m[idx0[p].0@] };
                assert({
                    &&& 0 <= 0 < segs2.len()
                    &&& segs2[0].gen == cp.gen
                    &&& cp.pos + cp.len <= segs2[0].data@.len()
                    &&& segs2[0].data@.subrange(cp.pos as int, cp.pos + cp.len)
                        == spec_encode_entry(ep)
                });
            }
            assert forall|kk: Seq<char>| #[trigger] m.contains_key(kk) implies exists|p: int|
                0 <= p < self.index@.len() && (#[trigger] self.index@[p]).0@ == kk by {
                let p = choose|p: int| 0 <= p < idx0.len() && (#[trigger] idx0[p]).0@ == kk;
                assert(self.index@[p].0@ == kk);
            }
            assert forall|p: int, q: int| 0 <= p < q < self.index@.len() implies (
            #[trigger] self.index@[p]).0@ != (#[trigger] self.index@[q]).0@ by {
                assert(idx0[p].0@ != idx0[q].0@);
            }
            assert(index_wf(segs2, self.index@, m));
            assert(self.wf());
        }
        Ok(())
    }
}

/// After a `remove` that drops the entry at `i`, the index still mirrors
/// the shrunken map.
proof fn lemma_remove_index_wf(
    segs: Seq<Segment>,
    segs2: Seq<Segment>,
    index: Seq<(String, CommandPos)>,
    index2: Seq<(String, CommandPos)>,
    m: Map<Seq<char>, Seq<char>>,
    m2: Map<Seq<char>, Seq<char>>,
    k: Seq<char>,
    i: int,
)
    requires
        index_wf(segs, index, m),
        m2 == m.remove(k),
        segs2.len() == segs.len(),
        forall|j: int| 0 <= j < segs.len() ==> (#[trigger] segs2[j]).gen == segs[j].gen,
        forall|j: int|
            0 <= j < segs.len() ==> segs[j].data@.is_prefix_of((#[trigger] segs2[j]).data@),
        0 <= i < index.len(),
        index[i].0@ == k,
        index2 == index.remove(i),
    ensures
        index_wf(segs2, index2, m2),
{
    assert forall|p: int, q: int| 0 <= p < q < index2.len() implies (#[trigger] index2[p]).0@ != (
    #[trigger] index2[q]).0@ by {
        let p0: int = if p < i {
            p
        } else {
            p + 1
        };
        let q0: int = if q < i {
            q
        } else {
            q + 1
        };
        assert(index2[p] == index[p0]);
        assert(index2[q] == index[q0]);
    }
    assert forall|p: int| 0 <= p < index2.len() implies index_entry_ok(
        segs2,
        (#[trigger] index2[p]).0@,
        index2[p].1,
        m2,
    ) by {
        let p0: int = if p < i {
            p
        } else {
            p + 1
        };
        assert(index2[p] == index[p0]);
        assert(index[p0].0@ != k);
        lemma_entry_ok_extend(segs, segs2, index[p0].0@, index[p0].1, m, m2);
    }
    assert forall|kk: Seq<char>| #[trigger] m2.contains_key(kk) implies exists|p: int|
        0 <= p < index2.len() && (#[trigger] index2[p]).0@ == kk by {
        assert(m.contains_key(kk));
        assert(kk != k);
        let p0 = choose|p: int| 0 <= p < index.len() && (#[trigger] index[p]).0@ == kk;
        assert(p0 != i);
        let p: int = if p0 < i {
            p0
        } else {
            p0 - 1
        };
        assert(index2[p].0@ == kk);
    }
}

/// After a `set` that replaces the entry at `i`, the index still mirrors
/// the new map.
proof fn lemma_set_index_wf(
    segs: Seq<Segment>,
    segs2: Seq<Segment>,
    index: Seq<(String, CommandPos)>,
    index2: Seq<(String, CommandPos)>,
    m: Map<Seq<char>, Seq<char>>,
    m2: Map<Seq<char>, Seq<char>>,
    k: Seq<char>,
    i: int,
    cp: CommandPos,
)
    requires
        index_wf(segs, index, m),
        m2 == m.insert(k, m2[k]),
        m2.contains_key(k),
        segs2.len() == segs.len(),
        forall|j: int| 0 <= j < segs.len() ==> (#[trigger] segs2[j]).gen == segs[j].gen,
        forall|j: int|
            0 <= j < segs.len() ==> segs[j].data@.is_prefix_of((#[trigger] segs2[j]).data@),
        0 <= i < index.len(),
        index[i].0@ == k,
        index2 == index.update(i, index2[i]),
        index2.len() == index.len(),
        index2[i].0@ == k,
        index_entry_ok(segs2, k, index2[i].1, m2),
    ensures
        index_wf(segs2, index2, m2),
{
    assert forall|p: int| 0 <= p < index2.len() implies index_entry_ok(
        segs2,
        (#[trigger] index2[p]).0@,
        index2[p].1,
        m2,
    ) by {
        if p != i {
            assert(index2[p] == index[p]);
            assert(index[p].0@ != k);
            lemma_entry_ok_extend(segs, segs2, index[p].0@, index[p].1, m, m2);
        }
    }
    assert forall|kk: Seq<char>| #[trigger] m2.contains_key(kk) implies exists|p: int|
        0 <= p < index2.len() && (#[trigger] index2[p]).0@ == kk by {
        if kk == k {
            assert(0 <= i < index2.len() && index2[i].0@ == kk);
        } else {
            assert(m.contains_key(kk));
            let p = choose|p: int| 0 <= p < index.len() && (#[trigger] index[p]).0@ == kk;
            assert(index2[p].0@ == kk);
        }
    }
}

/// After a `set` of a fresh key, pushed at the index's end, the index
/// still mirrors the new map.
proof fn lemma_set_index_wf_push(
    segs: Seq<Segment>,
    segs2: Seq<Segment>,
    index: Seq<(String, CommandPos)>,
    index2: Seq<(String, CommandPos)>,
    m: Map<Seq<char>, Seq<char>>,
    m2: Map<Seq<char>, Seq<char>>,
    k: Seq<char>,
    cp: CommandPos,
)
    requires
        index_wf(segs, index, m),
        m2 == m.insert(k, m2[k]),
        m2.contains_key(k),
        segs2.len() == segs.len(),
        forall|j: int| 0 <= j < segs.len() ==> (#[trigger] segs2[j]).gen == segs[j].gen,
        forall|j: int|
            0 <= j < segs.len() ==> segs[j].data@.is_prefix_of((#[trigger] segs2[j]).data@),
        forall|p: int| 0 <= p < index.len() ==> (#[trigger] index[p]).0@ != k,
        index2 == index.push(index2[index.len() as int]),
        index2[index.len() as int].0@ == k,
        index_entry_ok(segs2, k, index2[index.len() as int].1, m2),
    ensures
        index_wf(segs2, index2, m2),
{
    assert forall|p: int| 0 <= p < index2.len() implies index_entry_ok(
        segs2,
        (#[trigger] index2[p]).0@,
        index2[p].1,
        m2,
    ) by {
        if p < index.len() {
            assert(index2[p] == index[p]);
            assert(index[p].0@ != k);
            lemma_entry_ok_extend(segs, segs2, index[p].0@, index[p].1, m, m2);
        }
    }
    assert forall|kk: Seq<char>| #[trigger] m2.contains_key(kk) implies exists|p: int|
        0 <= p < index2.len() && (#[trigger] index2[p]).0@ == kk by {
        if kk == k {
            assert(index2[index.len() as int].0@ == kk);
        } else {
            assert(m.contains_key(kk));
            let p = choose|p: int| 0 <= p < index.len() && (#[trigger] index[p]).0@ == kk;
            assert(index2[p].0@ == kk);
        }
    }
}

/// The characters of the segment file extension.
pub open spec fn dot_log() -> Seq<char> {
    seq!['.', 'l', 'o', 'g']
}

/// Whether `c` is a decimal digit.
pub open spec fn is_digit(c: char) -> bool {
    48 <= c as u32 <= 57
}

/// A nonempty run of decimal digits.
pub open spec fn is_digit_chars(s: Seq<char>) -> bool {
    s.len() > 0 && forall|i: int| 0 <= i < s.len() ==> is_digit(#[trigger] s[i])
}

/// The number a run of decimal digits denotes, most significant first.
pub open spec fn digits_val(s: Seq<char>) -> nat
    recommends
        is_digit_chars(s),
    decreases s.len(),
{
    if s.len() == 0 {
        0
    } else {
        (digits_val(s.drop_last()) * 10 + (s.last() as u32 - 48)) as nat
    }
}

/// The digit character for `d`.
pub open spec fn digit_char(d: nat) -> char {
    if d == 0 {
        '0'
    } else if d == 1 {
        '1'
    } else if d == 2 {
        '2'
    } else if d == 3 {
        '3'
    } else if d == 4 {
        '4'
    } else if d == 5 {
        '5'
    } else if d == 6 {
        '6'
    } else if d == 7 {
        '7'
    } else if d == 8 {
        '8'
    } else {
        '9'
    }
}

/// The decimal digits of `n`, most significant first, without leading
/// zeros.
pub open spec fn dec_chars(n: nat) -> Seq<char>
    decreases n,
{
    if n < 10 {
        seq![digit_char(n)]
    } else {
        dec_chars(n / 10).push(digit_char(n % 10))
    }
}

/// The generation a segment file name denotes — decimal digits then
/// `.log`, with a value that fits `u64` — or `None` for any other name.
pub open spec fn gen_of_name(s: Seq<char>) -> Option<u64> {
    let stem = s.subrange(0, s.len() - 4);
    if s.len() >= 5 && s.subrange(s.len() - 4, s.len() as int) == dot_log() && is_digit_chars(stem)
        && digits_val(stem) <= u64::MAX {
        Some(digits_val(stem) as u64)
    } else {
        None
    }
}

/// The generations of the parseable names, in the order given.
pub open spec fn gens_of_names(names: Seq<String>) -> Seq<u64>
    decreases names.len(),
{
    if names.len() == 0 {
        Seq::empty()
    } else {
        let rest = gens_of_names(names.drop_last());
        match gen_of_name(names.last()@) {
            Some(g) => rest.push(g),
            None => rest,
        }
    }
}

/// Ascending order.
pub open spec fn sorted(s: Seq<u64>) -> bool {
    forall|i: int, j: int| 0 <= i < j < s.len() ==> s[i] <= s[j]
}

proof fn lemma_digit_char(d: nat)
    requires
        d < 10,
    ensures
        is_digit(digit_char(d)),
        digit_char(d) as u32 == 48 + d,
{
}

/// The decimal digits of `n` are digits and denote `n`.
proof fn lemma_dec_chars(n: nat)
    ensures
        is_digit_chars(dec_chars(n)),
        digits_val(dec_chars(n)) == n,
    decreases n,
{
    if n < 10 {
        lemma_digit_char(n);
        assert(digits_val(Seq::<char>::empty()) == 0);
        assert(dec_chars(n).drop_last() =~= Seq::<char>::empty());
        assert(dec_chars(n).last() == digit_char(n));
    } else {
        lemma_dec_chars(n / 10);
        lemma_digit_char(n % 10);
        assert(dec_chars(n).drop_last() =~= dec_chars(n / 10));
        assert(dec_chars(n).last() == digit_char(n % 10));
        assert(digits_val(dec_chars(n)) == (n / 10) * 10 + (n % 10));
        assert((n / 10) * 10 + (n % 10) == n) by (nonlinear_arith);
    }
}

/// A longer digit prefix never denotes a smaller number.
proof fn lemma_digits_val_mono(s: Seq<char>, i: int, j: int)
    requires
        0 <= i <= j <= s.len(),
        forall|p: int| 0 <= p < s.len() ==> is_digit(#[trigger] s[p]),
    ensures
        digits_val(s.subrange(0, i)) <= digits_val(s.subrange(0, j)),
    decreases j - i,
{
    if i < j {
        lemma_digits_val_mono(s, i, j - 1);
        assert(s.subrange(0, j).drop_last() =~= s.subrange(0, j - 1));
        assert(s.subrange(0, j).last() == s[j - 1]);
    }
}

/// Parses a segment file name, exactly as `gen_of_name` describes.
pub fn parse_gen_name(name: &String) -> (r: Option<u64>)
    ensures
        r == gen_of_name(name@),
{
    let s = name.as_str();
    let n = s.unicode_len();
    if n < 5 {
        return None;
    }
    if !(s.get_char(n - 4) == '.') || !(s.get_char(n - 3) == 'l') || !(s.get_char(n - 2) == 'o')
        || !(s.get_char(n - 1) == 'g') {
        proof {
            assert(name@.subrange(n as int - 4, n as int) != dot_log());
        }
        return None;
    }
    proof {
        assert(name@.subrange(n as int - 4, n as int) =~= dot_log());
    }
    let ghost stem = name@.subrange(0, n as int - 4);
    let mut i: usize = 0;
    let mut val: u64 = 0;
    proof {
        assert(stem.subrange(0, 0) =~= Seq::<char>::empty());
    }
    while i < n - 4
        invariant
            i <= n - 4,
            5 <= n == name@.len(),
            s@ == name@,
            stem == name@.subrange(0, n as int - 4),
            forall|p: int| 0 <= p < i ==> is_digit(#[trigger] stem[p]),
            val == digits_val(stem.subrange(0, i as int)),
        decreases n - 4 - i,
    {
        let c = s.get_char(i);
        let cv = c as u32;
        if cv < 48 || cv > 57 {
            proof {
                assert(!is_digit(stem[i as int]));
            }
            return None;
        }
        let d = (cv - 48) as u64;
        proof {
            assert(stem.subrange(0, i + 1).drop_last() =~= stem.subrange(0, i as int));
            assert(stem.subrange(0, i + 1).last() == stem[i as int]);
        }
        let v10 = match val.checked_mul(10) {
            Some(x) => x,
            None => {
                proof {
                    if is_digit_chars(stem) {
                        lemma_digits_val_mono(stem, i + 1, stem.len() as int);
                        assert(stem.subrange(0, stem.len() as int) =~= stem);
                    }
                }
                return None;
            }
        };
        let v = match v10.checked_add(d) {
            Some(x) => x,
            None => {
                proof {
                    if is_digit_chars(stem) {
                        lemma_digits_val_mono(stem, i + 1, stem.len() as int);
                        assert(stem.subrange(0, stem.len() as int) =~= stem);
                    }
                }
                return None;
            }
        };
        val = v;
        i += 1;
    }
    proof {
        assert(stem.subrange(0, stem.len() as int) =~= stem);
    }
    Some(val)
}

/// Appends the decimal digits of `n`.
fn push_dec_str(out: &mut String, n: u64)
    ensures
        final(out)@ == old(out)@ + dec_chars(n as nat),
    decreases n,
{
    if n >= 10 {
        push_dec_str(out, n / 10);
    }
    let d = if n < 10 {
        n
    } else {
        n % 10
    };
    let ds: &str = if d == 0 {
        "0"
    } else if d == 1 {
        "1"
    } else if d == 2 {
        "2"
    } else if d == 3 {
        "3"
    } else if d == 4 {
        "4"
    } else if d == 5 {
        "5"
    } else if d == 6 {
        "6"
    } else if d == 7 {
        "7"
    } else if d == 8 {
        "8"
    } else {
        "9"
    };
    proof {
        reveal_strlit("0");
        reveal_strlit("1");
        reveal_strlit("2");
        reveal_strlit("3");
        reveal_strlit("4");
        reveal_strlit("5");
        reveal_strlit("6");
        reveal_strlit("7");
        reveal_strlit("8");
        reveal_strlit("9");
        assert(ds@ =~= seq![digit_char(d as nat)]);
    }
    out.append(ds);
    proof {
        assert(out@ =~= old(out)@ + dec_chars(n as nat));
    }
}

/// The file name a generation's segment is kept under: the generation's
/// decimal digits and the `.log` extension.
pub fn log_path(gen: u64) -> (r: String)
    ensures
        r@ == dec_chars(gen as nat) + dot_log(),
        gen_of_name(r@) == Some(gen),
{
    let mut out = String::new();
    push_dec_str(&mut out, gen);
    proof {
        reveal_strlit(".log");
        assert(".log"@ =~= dot_log());
    }
    out.append(".log");
    proof {
        assert(out@ =~= dec_chars(gen as nat) + dot_log());
        lemma_dec_chars(gen as nat);
        let s = out@;
        assert(s.subrange(0, s.len() - 4) =~= dec_chars(gen as nat));
        assert(s.subrange(s.len() - 4, s.len() as int) =~= dot_log());
    }
    out
}

/// Inserts `g` into a sorted vector, keeping it sorted.
fn insert_sorted(out: &mut Vec<u64>, g: u64)
    requires
        sorted(old(out)@),
    ensures
        sorted(final(out)@),
        final(out)@.to_multiset() == old(out)@.to_multiset().insert(g),
{
    broadcast use vstd::seq_lib::group_to_multiset_ensures;

    let mut j: usize = 0;
    while j < out.len() && out[j] <= g
        invariant
            j <= out@.len(),
            sorted(out@),
            forall|p: int| 0 <= p < j ==> out@[p] <= g,
        decreases out@.len() - j,
    {
        j += 1;
    }
    let ghost before = out@;
    out.insert(j, g);
    proof {
        before.insert_ensures(j as int, g);
        assert forall|p: int, q: int| 0 <= p < q < out@.len() implies out@[p] <= out@[q] by {
            if q > j {
                assert(out@[q] == before[q - 1]);
                if (j as int) < before.len() {
                    assert(before[j as int] > g);
                    if j < q - 1 {
                        assert(before[j as int] <= before[q - 1]);
                    }
                }
            }
        }
        assert(out@.remove(j as int) =~= before);
        assert(out@.to_multiset().remove(g) =~= before.to_multiset());
        assert(out@.to_multiset().count(g) > 0);
        assert(out@.to_multiset() =~= before.to_multiset().insert(g));
    }
}

/// Lists the generations of the parseable segment file names in
/// ascending numeric order; other names are ignored, not an error.
pub fn sorted_gen_list(names: &Vec<String>) -> (r: Vec<u64>)
    ensures
        sorted(r@),
        r@.to_multiset() == gens_of_names(names@).to_multiset(),
{
    broadcast use vstd::seq_lib::group_to_multiset_ensures;

    let mut out: Vec<u64> = Vec::new();
    let mut i: usize = 0;
    proof {
        assert(names@.subrange(0, 0) =~= Seq::<String>::empty());
    }
    while i < names.len()
        invariant
            i <= names@.len(),
            sorted(out@),
            out@.to_multiset() == gens_of_names(names@.subrange(0, i as int)).to_multiset(),
        decreases names@.len() - i,
    {
        proof {
            assert(names@.subrange(0, i + 1).drop_last() =~= names@.subrange(0, i as int));
            assert(names@.subrange(0, i + 1).last() == names@[i as int]);
        }
        match parse_gen_name(&names[i]) {
            Some(g) => {
                proof {
                    assert(gens_of_names(names@.subrange(0, i + 1)) == gens_of_names(
                        names@.subrange(0, i as int),
                    ).push(g));
                    gens_of_names(names@.subrange(0, i as int)).to_multiset_ensures();
                    assert(gens_of_names(names@.subrange(0, i as int)).push(g).to_multiset()
                        =~= gens_of_names(names@.subrange(0, i as int)).to_multiset().insert(g));
                }
                insert_sorted(&mut out, g);
            }
            None => {}
        }
        i += 1;
    }
    proof {
        assert(names@.subrange(0, names@.len() as int) =~= names@);
    }
    out
}

/// Finds the position of `key` in the index, if it has one.
fn find_index(index: &Vec<(String, CommandPos)>, key: &String) -> (r: Option<usize>)
    ensures
        match r {
            Some(i) => i < index@.len() && index@[i as int].0@ == key@,
            None => forall|p: int| 0 <= p < index@.len() ==> (#[trigger] index@[p]).0@ != key@,
        },
{
    let mut i: usize = 0;
    while i < index.len()
        invariant
            i <= index@.len(),
            forall|p: int| 0 <= p < i ==> (#[trigger] index@[p]).0@ != key@,
        decreases index@.len() - i,
    {
        if index[i].0 == *key {
            return Some(i);
        }
        i += 1;
    }
    None
}

/// Finds the position of the segment with generation `g`, if one exists.
fn find_segment(segs: &Vec<Segment>, g: u64) -> (r: Option<usize>)
    ensures
        match r {
            Some(i) => i < segs@.len() && segs@[i as int].gen == g,
            None => forall|p: int| 0 <= p < segs@.len() ==> (#[trigger] segs@[p]).gen != g,
        },
{
    let mut i: usize = 0;
    while i < segs.len()
        invariant
            i <= segs@.len(),
            forall|p: int| 0 <= p < i ==> (#[trigger] segs@[p]).gen != g,
        decreases segs@.len() - i,
    {
        if segs[i].gen == g {
            return Some(i);
        }
        i += 1;
    }
    None
}

} // verus!
