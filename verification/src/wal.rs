//! The durable record format and the write-ahead log built on it.
//!
//! A segment is a byte sequence of records, each a serialized command:
//! a tag byte (`1` for `Set`, `2` for `Rm`), then the key as a
//! length-prefixed UTF-8 run, and for `Set` the value in the same form.
//! `spec_records` says which byte sequences are well-formed logs and which
//! commands they hold; the executable encoder and decoder are proved
//! against it.

use crate::codec::{
    be32, be32_val, bytes_range, bytes_to_string, lemma_be32_bytes_round_trip, lemma_be32_round_trip,
    push_be32, read_be32,
};
use crate::error::KvsError;
use vstd::prelude::*;
use vstd::utf8::{
    decode_utf8, encode_utf8, encode_utf8_decode_utf8, encode_utf8_valid_utf8, valid_utf8,
};

verus! {

/// One durable command: either `key` now maps to `value`, or `key` is
/// deleted.
#[derive(Debug)]
pub enum LogEntry {
    Put { key: String, value: String },
    Rm { key: String },
}

/// The mathematical form of a [`LogEntry`]: the same command over
/// character sequences.
pub enum Entry {
    Put { key: Seq<char>, value: Seq<char> },
    Rm { key: Seq<char> },
}

impl View for LogEntry {
    type V = Entry;

    open spec fn view(&self) -> Entry {
        match self {
            LogEntry::Put { key, value } => Entry::Put { key: key@, value: value@ },
            LogEntry::Rm { key } => Entry::Rm { key: key@ },
        }
    }
}

impl PartialEq for LogEntry {
    fn eq(&self, other: &LogEntry) -> (r: bool) {
        match (self, other) {
            (LogEntry::Put { key: k1, value: v1 }, LogEntry::Put { key: k2, value: v2 }) => *k1
                == *k2 && *v1 == *v2,
            (LogEntry::Rm { key: k1 }, LogEntry::Rm { key: k2 }) => *k1 == *k2,
            _ => false,
        }
    }
}

impl vstd::std_specs::cmp::PartialEqSpecImpl for LogEntry {
    open spec fn obeys_eq_spec() -> bool {
        true
    }

    open spec fn eq_spec(&self, other: &LogEntry) -> bool {
        match (self, other) {
            (LogEntry::Put { key: k1, value: v1 }, LogEntry::Put { key: k2, value: v2 }) => k1@
                == k2@ && v1@ == v2@,
            (LogEntry::Rm { key: k1 }, LogEntry::Rm { key: k2 }) => k1@ == k2@,
            _ => false,
        }
    }
}

/// A record together with the byte offset it was read from.
#[derive(Debug)]
pub struct LogEntryIdx {
    pub idx: u64,
    pub entry: LogEntry,
}

/// The UTF-8 bytes of `s`.
pub open spec fn enc_str(s: Seq<char>) -> Seq<u8> {
    encode_utf8(s)
}

/// A length-prefixed byte run: four big-endian length bytes, then `b`.
pub open spec fn enc_lp(b: Seq<u8>) -> Seq<u8>
    recommends
        b.len() <= u32::MAX,
{
    be32(b.len() as u32) + b
}

/// Whether the command's strings fit the four-byte length prefixes.
pub open spec fn entry_ok(e: Entry) -> bool {
    match e {
        Entry::Put { key, value } => enc_str(key).len() <= u32::MAX && enc_str(value).len()
            <= u32::MAX,
        Entry::Rm { key } => enc_str(key).len() <= u32::MAX,
    }
}

/// The byte encoding of one command.
pub open spec fn spec_encode_entry(e: Entry) -> Seq<u8> {
    match e {
        Entry::Put { key, value } => seq![1u8] + enc_lp(enc_str(key)) + enc_lp(enc_str(value)),
        Entry::Rm { key } => seq![2u8] + enc_lp(enc_str(key)),
    }
}

/// Parses the length-prefixed byte run at `pos`, giving the run and the
/// position just past it.
pub open spec fn parse_lp(d: Seq<u8>, pos: int) -> Option<(Seq<u8>, int)> {
    if 0 <= pos && pos + 4 <= d.len() {
        let n = be32_val(d.subrange(pos, pos + 4)) as int;
        if pos + 4 + n <= d.len() {
            Some((d.subrange(pos + 4, pos + 4 + n), pos + 4 + n))
        } else {
            None
        }
    } else {
        None
    }
}

/// Parses the record at `pos`, giving the command and the position just
/// past the record.
pub open spec fn spec_parse_entry(d: Seq<u8>, pos: int) -> Option<(Entry, int)> {
    if 0 <= pos && pos < d.len() {
        let tag = d[pos];
        if tag == 1u8 {
            match parse_lp(d, pos + 1) {
                Some((kb, p2)) => match parse_lp(d, p2) {
                    Some((vb, p3)) => if valid_utf8(kb) && valid_utf8(vb) {
                        Some((Entry::Put { key: decode_utf8(kb), value: decode_utf8(vb) }, p3))
                    } else {
                        None
                    },
                    None => None,
                },
                None => None,
            }
        } else if tag == 2u8 {
            match parse_lp(d, pos + 1) {
                Some((kb, p2)) => if valid_utf8(kb) {
                    Some((Entry::Rm { key: decode_utf8(kb) }, p2))
                } else {
                    None
                },
                None => None,
            }
        } else {
            None
        }
    } else {
        None
    }
}

/// Parses every record from `pos` to the end of `d`: the offset of each
/// record and its command, or `None` if the bytes are malformed.
pub open spec fn spec_records(d: Seq<u8>, pos: int) -> Option<Seq<(int, Entry)>>
    decreases d.len() - pos,
    when 0 <= pos <= d.len()
    via spec_records_dec
{
    if pos == d.len() {
        Some(Seq::empty())
    } else {
        match spec_parse_entry(d, pos) {
            Some((e, end)) => match spec_records(d, end) {
                Some(rest) => Some(seq![(pos, e)] + rest),
                None => None,
            },
            None => None,
        }
    }
}

#[via_fn]
proof fn spec_records_dec(d: Seq<u8>, pos: int) {
    lemma_parse_entry_bounds(d, pos);
}

/// A parsed record lies strictly between `pos` and the end of `d`.
pub proof fn lemma_parse_entry_bounds(d: Seq<u8>, pos: int)
    ensures
        match spec_parse_entry(d, pos) {
            Some(r) => pos < r.1 <= d.len(),
            None => true,
        },
{
}

/// The whole log, parsed from its first byte.
pub open spec fn entries_of(d: Seq<u8>) -> Option<Seq<(int, Entry)>> {
    spec_records(d, 0)
}

/// The commands of a parsed log, without their offsets.
pub open spec fn commands_of(rs: Seq<(int, Entry)>) -> Seq<Entry> {
    rs.map_values(|r: (int, Entry)| r.1)
}

/// Parsing reads back exactly the length-prefixed run written at `pos`.
pub(crate) proof fn lemma_parse_lp_encode(b: Seq<u8>, d: Seq<u8>, pos: int)
    requires
        b.len() <= u32::MAX,
        0 <= pos,
        pos + 4 + b.len() <= d.len(),
        d.subrange(pos, pos + 4 + b.len()) == enc_lp(b),
    ensures
        parse_lp(d, pos) == Some((b, pos + 4 + b.len())),
{
    let n32 = b.len() as u32;
    let sub = d.subrange(pos, pos + 4 + b.len());
    assert(d.subrange(pos, pos + 4) =~= be32(n32)) by {
        assert forall|i: int| 0 <= i < 4 implies d.subrange(pos, pos + 4)[i] == be32(n32)[i] by {
            assert(sub[i] == d[pos + i]);
            assert(enc_lp(b)[i] == be32(n32)[i]);
        }
    };
    lemma_be32_round_trip(n32);
    assert(d.subrange(pos + 4, pos + 4 + b.len()) =~= b) by {
        assert forall|i: int| 0 <= i < b.len() implies d.subrange(pos + 4, pos + 4 + b.len())[i]
            == b[i] by {
            assert(sub[4 + i] == d[pos + 4 + i]);
            assert(enc_lp(b)[4 + i] == b[i]);
        }
    };
}

/// Parsing reads back exactly the record written at `pos`, whatever
/// stands before or after it.
pub proof fn lemma_parse_encode(e: Entry, d: Seq<u8>, pos: int)
    requires
        entry_ok(e),
        0 <= pos,
        pos + spec_encode_entry(e).len() <= d.len(),
        d.subrange(pos, pos + spec_encode_entry(e).len()) == spec_encode_entry(e),
    ensures
        spec_parse_entry(d, pos) == Some((e, pos + spec_encode_entry(e).len())),
{
    broadcast use encode_utf8_valid_utf8, encode_utf8_decode_utf8;

    let enc = spec_encode_entry(e);
    let sub = d.subrange(pos, pos + enc.len());
    match e {
        Entry::Put { key, value } => {
            let klp = enc_lp(enc_str(key));
            let vlp = enc_lp(enc_str(value));
            assert(enc == seq![1u8] + klp + vlp);
            assert(d[pos] == 1u8) by {
                assert(sub[0] == d[pos]);
                assert(enc[0] == 1u8);
            };
            assert(d.subrange(pos + 1, pos + 1 + klp.len()) =~= klp) by {
                assert forall|i: int| 0 <= i < klp.len() implies d.subrange(
                    pos + 1,
                    pos + 1 + klp.len(),
                )[i] == klp[i] by {
                    assert(sub[1 + i] == d[pos + 1 + i]);
                    assert(enc[1 + i] == klp[i]);
                }
            };
            lemma_parse_lp_encode(enc_str(key), d, pos + 1);
            let p2 = pos + 1 + klp.len();
            assert(d.subrange(p2, p2 + vlp.len()) =~= vlp) by {
                assert forall|i: int| 0 <= i < vlp.len() implies d.subrange(p2, p2 + vlp.len())[i]
                    == vlp[i] by {
                    assert(sub[1 + klp.len() + i] == d[p2 + i]);
                    assert(enc[1 + klp.len() + i] == vlp[i]);
                }
            };
            lemma_parse_lp_encode(enc_str(value), d, p2);
        }
        Entry::Rm { key } => {
            let klp = enc_lp(enc_str(key));
            assert(enc == seq![2u8] + klp);
            assert(d[pos] == 2u8) by {
                assert(sub[0] == d[pos]);
                assert(enc[0] == 2u8);
            };
            assert(d.subrange(pos + 1, pos + 1 + klp.len()) =~= klp) by {
                assert forall|i: int| 0 <= i < klp.len() implies d.subrange(
                    pos + 1,
                    pos + 1 + klp.len(),
                )[i] == klp[i] by {
                    assert(sub[1 + i] == d[pos + 1 + i]);
                    assert(enc[1 + i] == klp[i]);
                }
            };
            lemma_parse_lp_encode(enc_str(key), d, pos + 1);
        }
    }
}

/// A record that parses lies in the log in exactly its canonical
/// encoding: the bytes from `pos` to the record's end re-encode from the
/// parsed command, whose strings fit their length prefixes.
pub proof fn lemma_encode_parse(d: Seq<u8>, pos: int)
    requires
        spec_parse_entry(d, pos) is Some,
    ensures
        ({
            let (e, end) = spec_parse_entry(d, pos).unwrap();
            &&& entry_ok(e)
            &&& spec_encode_entry(e).len() == end - pos
            &&& d.subrange(pos, end) == spec_encode_entry(e)
        }),
{
    broadcast use vstd::utf8::decode_utf8_encode_utf8;

    let (e, end) = spec_parse_entry(d, pos).unwrap();
    if d[pos] == 1u8 {
        let (kb, p2) = parse_lp(d, pos + 1).unwrap();
        let (vb, p3) = parse_lp(d, p2).unwrap();
        let key = decode_utf8(kb);
        let value = decode_utf8(vb);
        assert(e == Entry::Put { key, value });
        assert(enc_str(key) == kb);
        assert(enc_str(value) == vb);
        lemma_be32_bytes_round_trip(d.subrange(pos + 1, pos + 5));
        lemma_be32_bytes_round_trip(d.subrange(p2, p2 + 4));
        assert(kb.len() == be32_val(d.subrange(pos + 1, pos + 5)) as int);
        assert(be32(kb.len() as u32) == d.subrange(pos + 1, pos + 5));
        assert(be32(vb.len() as u32) == d.subrange(p2, p2 + 4));
        assert(d.subrange(pos + 1, p2) =~= d.subrange(pos + 1, pos + 5) + d.subrange(pos + 5, p2));
        assert(d.subrange(p2, p3) =~= d.subrange(p2, p2 + 4) + d.subrange(p2 + 4, p3));
        assert(d.subrange(pos, end) =~= seq![1u8] + d.subrange(pos + 1, p2) + d.subrange(p2, p3));
        assert(d.subrange(pos, end) == spec_encode_entry(e));
    } else {
        let (kb, p2) = parse_lp(d, pos + 1).unwrap();
        let key = decode_utf8(kb);
        assert(e == Entry::Rm { key });
        assert(enc_str(key) == kb);
        lemma_be32_bytes_round_trip(d.subrange(pos + 1, pos + 5));
        assert(be32(kb.len() as u32) == d.subrange(pos + 1, pos + 5));
        assert(d.subrange(pos + 1, p2) =~= d.subrange(pos + 1, pos + 5) + d.subrange(pos + 5, p2));
        assert(d.subrange(pos, end) =~= seq![2u8] + d.subrange(pos + 1, p2));
        assert(d.subrange(pos, end) == spec_encode_entry(e));
    }
}

/// A run that parses is still parsed the same after bytes are appended.
proof fn lemma_parse_lp_prefix(d: Seq<u8>, x: Seq<u8>, pos: int)
    requires
        parse_lp(d, pos) is Some,
    ensures
        parse_lp(d + x, pos) == parse_lp(d, pos),
{
    let dx = d + x;
    assert(dx.subrange(pos, pos + 4) =~= d.subrange(pos, pos + 4));
    let n = be32_val(d.subrange(pos, pos + 4)) as int;
    assert(dx.subrange(pos + 4, pos + 4 + n) =~= d.subrange(pos + 4, pos + 4 + n));
}

/// A record that parses is still parsed the same after bytes are
/// appended.
pub proof fn lemma_parse_prefix(d: Seq<u8>, x: Seq<u8>, pos: int)
    requires
        spec_parse_entry(d, pos) is Some,
    ensures
        spec_parse_entry(d + x, pos) == spec_parse_entry(d, pos),
{
    let dx = d + x;
    assert(dx[pos] == d[pos]);
    if d[pos] == 1u8 {
        let kp = parse_lp(d, pos + 1);
        assert(kp is Some);
        lemma_parse_lp_prefix(d, x, pos + 1);
        let p2 = kp.unwrap().1;
        assert(parse_lp(d, p2) is Some);
        lemma_parse_lp_prefix(d, x, p2);
    } else {
        let kp = parse_lp(d, pos + 1);
        assert(kp is Some);
        lemma_parse_lp_prefix(d, x, pos + 1);
    }
}

/// Appending one encoded record to a well-formed log appends exactly
/// that record, at the old end of the log, to what the log parses to.
pub proof fn lemma_records_append(d: Seq<u8>, e: Entry, pos: int)
    requires
        entry_ok(e),
        0 <= pos <= d.len(),
        spec_records(d, pos) is Some,
    ensures
        spec_records(d + spec_encode_entry(e), pos) == Some(
            spec_records(d, pos).unwrap().push((d.len() as int, e)),
        ),
    decreases d.len() - pos,
{
    let enc = spec_encode_entry(e);
    let dx = d + enc;
    if pos == d.len() {
        assert(dx.subrange(pos, pos + enc.len()) =~= enc);
        lemma_parse_encode(e, dx, pos);
        assert(spec_records(dx, dx.len() as int) == Some(Seq::<(int, Entry)>::empty()));
        assert(seq![(pos, e)] + Seq::<(int, Entry)>::empty() =~= spec_records(d, pos).unwrap().push(
            (d.len() as int, e),
        ));
    } else {
        let r1 = spec_parse_entry(d, pos);
        assert(r1 is Some);
        let (e1, end1) = r1.unwrap();
        lemma_parse_entry_bounds(d, pos);
        lemma_parse_prefix(d, enc, pos);
        assert(spec_records(d, end1) is Some);
        lemma_records_append(d, e, end1);
        assert(seq![(pos, e1)] + spec_records(d, end1).unwrap().push((d.len() as int, e)) =~= (seq![
            (pos, e1),
        ] + spec_records(d, end1).unwrap()).push((d.len() as int, e)));
    }
}

/// The effect of one command on the abstract key-value map.
pub open spec fn apply_entry(m: Map<Seq<char>, Seq<char>>, e: Entry) -> Map<Seq<char>, Seq<char>> {
    match e {
        Entry::Put { key, value } => m.insert(key, value),
        Entry::Rm { key } => m.remove(key),
    }
}

/// The key-value map left after replaying `es` in order, oldest first.
pub open spec fn replay_map(es: Seq<Entry>) -> Map<Seq<char>, Seq<char>>
    decreases es.len(),
{
    if es.len() == 0 {
        Map::empty()
    } else {
        apply_entry(replay_map(es.drop_last()), es.last())
    }
}

/// Replaying one more command applies it to the replayed map.
pub proof fn lemma_replay_push(es: Seq<Entry>, e: Entry)
    ensures
        replay_map(es.push(e)) == apply_entry(replay_map(es), e),
{
    assert(es.push(e).drop_last() =~= es);
}

/// Dropping the offsets commutes with appending a record.
pub proof fn lemma_commands_push(rs: Seq<(int, Entry)>, p: int, e: Entry)
    ensures
        commands_of(rs.push((p, e))) == commands_of(rs).push(e),
{
    assert(commands_of(rs.push((p, e))) =~= commands_of(rs).push(e));
}

/// Appends the key (or value) string as a length-prefixed UTF-8 run.
pub(crate) fn push_lp_str(out: &mut Vec<u8>, s: &String)
    requires
        enc_str(s@).len() <= u32::MAX,
    ensures
        final(out)@ == old(out)@ + enc_lp(enc_str(s@)),
{
    let bs = s.as_str().as_bytes();
    push_be32(out, bs.len() as u32);
    let mut tail = vstd::slice::slice_to_vec(bs);
    out.append(&mut tail);
    proof {
        assert(out@ =~= old(out)@ + enc_lp(enc_str(s@)));
    }
}

/// Encodes one command as the bytes `spec_encode_entry` describes.
pub fn encode_entry(e: &LogEntry) -> (r: Vec<u8>)
    requires
        entry_ok(e@),
    ensures
        r@ == spec_encode_entry(e@),
{
    let mut out: Vec<u8> = Vec::new();
    match e {
        LogEntry::Put { key, value } => {
            out.push(1u8);
            push_lp_str(&mut out, key);
            push_lp_str(&mut out, value);
            proof {
                assert(out@ =~= spec_encode_entry(e@));
            }
        }
        LogEntry::Rm { key } => {
            out.push(2u8);
            push_lp_str(&mut out, key);
            proof {
                assert(out@ =~= spec_encode_entry(e@));
            }
        }
    }
    out
}

/// Reads the length-prefixed byte run at `pos`, as `parse_lp` describes.
fn read_lp(d: &[u8], pos: usize) -> (r: Option<(Vec<u8>, usize)>)
    ensures
        match r {
            Some(p) => parse_lp(d@, pos as int) == Some((p.0@, p.1 as int)) && pos < p.1 <= d@.len(),
            None => parse_lp(d@, pos as int) is None,
        },
{
    let dlen = d.len();
    if dlen < 4 || pos > dlen - 4 {
        return None;
    }
    let n = read_be32(d, pos) as usize;
    if n > dlen - (pos + 4) {
        return None;
    }
    let b = bytes_range(d, pos + 4, pos + 4 + n);
    Some((b, pos + 4 + n))
}

/// Reads the length-prefixed UTF-8 run at `pos`, or `None` where the
/// bytes are missing or not UTF-8.
pub(crate) fn read_lp_str(d: &[u8], pos: usize) -> (r: Option<(String, usize)>)
    ensures
        match r {
            Some(p) => {
                &&& parse_lp(d@, pos as int) matches Some(q)
                &&& valid_utf8(q.0)
                &&& p.0@ == decode_utf8(q.0)
                &&& p.1 as int == q.1
                &&& pos < p.1 <= d@.len()
            },
            None => match parse_lp(d@, pos as int) {
                Some(q) => !valid_utf8(q.0),
                None => true,
            },
        },
{
    match read_lp(d, pos) {
        Some((b, end)) => match bytes_to_string(b) {
            Some(s) => Some((s, end)),
            None => None,
        },
        None => None,
    }
}

/// Decodes the record at `pos`, exactly as `spec_parse_entry` describes.
pub fn decode_entry_at(d: &[u8], pos: usize) -> (r: Option<(LogEntry, usize)>)
    ensures
        match r {
            Some(p) => spec_parse_entry(d@, pos as int) == Some((p.0@, p.1 as int)) && pos < p.1
                <= d@.len(),
            None => spec_parse_entry(d@, pos as int) is None,
        },
{
    if pos >= d.len() {
        return None;
    }
    let tag = d[pos];
    if tag == 1u8 {
        match read_lp_str(d, pos + 1) {
            Some((key, p2)) => match read_lp_str(d, p2) {
                Some((value, p3)) => Some((LogEntry::Put { key, value }, p3)),
                None => None,
            },
            None => None,
        }
    } else if tag == 2u8 {
        match read_lp_str(d, pos + 1) {
            Some((key, p2)) => Some((LogEntry::Rm { key }, p2)),
            None => None,
        }
    } else {
        None
    }
}

/// An append-only command log: the record bytes written so far, and the
/// file name the surrounding program keeps them under.
pub struct WalLog {
    file_name: String,
    data: Vec<u8>,
}

impl WalLog {
    /// The record bytes written so far.
    pub closed spec fn bytes(&self) -> Seq<u8> {
        self.data@
    }

    /// The file name the log is kept under.
    pub closed spec fn name(&self) -> Seq<char> {
        self.file_name@
    }

    /// Well-formed: the bytes parse as a record log.
    pub open spec fn wf(&self) -> bool {
        entries_of(self.bytes()) is Some
    }

    /// A fresh, empty log; an empty name falls back to `log.txt`.
    pub fn new(file_name: String) -> (r: WalLog)
        ensures
            r.bytes() == Seq::<u8>::empty(),
            r.wf(),
            r.name() == if file_name@.len() == 0 {
                "log.txt"@
            } else {
                file_name@
            },
    {
        let name = if file_name.as_str().is_empty() {
            "log.txt".to_owned()
        } else {
            file_name
        };
        WalLog { file_name: name, data: Vec::new() }
    }

    /// Renames the log; the bytes are untouched.
    pub fn set_file_name(&mut self, new_name: String)
        ensures
            final(self).name() == new_name@,
            final(self).bytes() == old(self).bytes(),
    {
        self.file_name = new_name;
    }

    /// The raw bytes, for the surrounding program to persist.
    pub fn data(&self) -> (r: &Vec<u8>)
        ensures
            r@ == self.bytes(),
    {
        &self.data
    }

    /// The file name, for the surrounding program to open.
    pub fn file_name(&self) -> (r: &String)
        ensures
            r@ == self.name(),
    {
        &self.file_name
    }

    /// Appends one command and returns the byte offset where its record
    /// begins.
    pub fn write(&mut self, ent: &LogEntry) -> (r: Result<u64, KvsError>)
        requires
            old(self).wf(),
            entry_ok(ent@),
        ensures
            final(self).wf(),
            final(self).name() == old(self).name(),
            final(self).bytes() == old(self).bytes() + spec_encode_entry(ent@),
            r is Ok,
            r.unwrap() == old(self).bytes().len(),
            entries_of(final(self).bytes()) == Some(
                entries_of(old(self).bytes()).unwrap().push(
                    (old(self).bytes().len() as int, ent@),
                ),
            ),
    {
        let pos = self.data.len() as u64;
        let mut enc = encode_entry(ent);
        proof {
            lemma_records_append(self.data@, ent@, 0);
        }
        self.data.append(&mut enc);
        Ok(pos)
    }

    /// Decodes every record, oldest first, each with its byte offset.
    /// Fails with `Serde` exactly when the log bytes are malformed.
    pub fn read_all(&self) -> (r: Result<Vec<LogEntryIdx>, KvsError>)
        ensures
            match r {
                Ok(v) => {
                    &&& entries_of(self.bytes()) matches Some(rs)
                    &&& v@.len() == rs.len()
                    &&& forall|i: int|
                        0 <= i < rs.len() ==> (#[trigger] v@[i]).idx as int == rs[i].0
                            && v@[i].entry@ == rs[i].1
                },
                Err(err) => err == KvsError::Serde && entries_of(self.bytes()) is None,
            },
    {
        let d = self.data.as_slice();
        let mut out: Vec<LogEntryIdx> = Vec::new();
        let ghost mut acc: Seq<(int, Entry)> = Seq::empty();
        let mut pos: usize = 0;
        loop
            invariant
                pos <= d@.len(),
                d@ == self.bytes(),
                out@.len() == acc.len(),
                forall|i: int|
                    0 <= i < acc.len() ==> (#[trigger] out@[i]).idx as int == acc[i].0
                        && out@[i].entry@ == acc[i].1,
                match spec_records(d@, pos as int) {
                    Some(rest) => spec_records(d@, 0) == Some(acc + rest),
                    None => spec_records(d@, 0) is None,
                },
            decreases d@.len() - pos,
        {
            if pos == d.len() {
                proof {
                    assert(acc + Seq::<(int, Entry)>::empty() =~= acc);
                }
                return Ok(out);
            }
            match decode_entry_at(d, pos) {
                Some((ent, end)) => {
                    proof {
                        if spec_records(d@, end as int) is Some {
                            assert(acc + (seq![(pos as int, ent@)] + spec_records(
                                d@,
                                end as int,
                            ).unwrap()) =~= acc.push((pos as int, ent@)) + spec_records(
                                d@,
                                end as int,
                            ).unwrap());
                        }
                    }
                    out.push(LogEntryIdx { idx: pos as u64, entry: ent });
                    proof {
                        acc = acc.push((pos as int, ent@));
                    }
                    pos = end;
                }
                None => {
                    return Err(KvsError::Serde);
                }
            }
        }
    }

    /// Decodes the record at `pos`: the value of a `Put` record, the
    /// `KeyNotFound` error for a `Rm` record, and `Serde` where no record
    /// starts there.
    pub fn read_line_at(&self, pos: u64) -> (r: Result<String, KvsError>)
        ensures
            match r {
                Ok(v) => spec_parse_entry(self.bytes(), pos as int) matches Some(p) && (p.0 matches
                Entry::Put { key, value } && v@ == value),
                Err(err) => match spec_parse_entry(self.bytes(), pos as int) {
                    Some(p) => err == KvsError::KeyNotFound && p.0 is Rm,
                    None => err == KvsError::Serde,
                },
            },
    {
        let len = self.data.len();
        if pos > usize::MAX as u64 {
            proof {
                assert(pos as int >= len as int);
                assert(spec_parse_entry(self.bytes(), pos as int) is None);
            }
            return Err(KvsError::Serde);
        }
        match decode_entry_at(self.data.as_slice(), pos as usize) {
            Some((ent, _end)) => match ent {
                LogEntry::Put { key: _, value } => Ok(value),
                LogEntry::Rm { .. } => Err(KvsError::KeyNotFound),
            },
            None => Err(KvsError::Serde),
        }
    }

    /// The log keeps its bytes; reclaiming space is the store's job.
    pub fn compacting(&mut self)
        ensures
            *final(self) == *old(self),
    {
    }
}

} // verus!
