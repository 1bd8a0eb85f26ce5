//! Segmented append-only write-ahead log.
//!
//! Entry envelope: `tag:u8 | length:u32 | crc32:u32 | payload`, integers
//! little-endian, the CRC over the payload. A partial tail (a truncated
//! header, a length past the file end, or a checksum mismatch) ends replay
//! cleanly.
//!
//! The log works over an in-memory directory value: a list of files by
//! ascending id. On open every existing file is frozen and a fresh active
//! file is rotated in; a push that drives the active file over its capacity
//! freezes it as well.

use crate::bytes_util::subrange_to_vec;
use crate::error::{Error, Result};
use crate::utils::{crc32_of, crc32check, crc32sum};
use vstd::bytes::{
    lemma_auto_spec_u32_to_from_le_bytes, spec_u32_from_le_bytes, spec_u32_to_le_bytes,
    u32_from_le_bytes, u32_to_le_bytes,
};
use vstd::prelude::*;
use vstd::slice::slice_subrange;

verus! {

/// One log segment.
pub struct LogFile {
    pub id: u64,
    pub data: Vec<u8>,
}

/// A directory of log segments, ascending by id.
pub struct LogDir {
    pub files: Vec<LogFile>,
}

impl LogDir {
    pub fn new() -> (r: Self)
        ensures
            r.files@.len() == 0,
    {
        LogDir { files: Vec::new() }
    }
}

/// Options for opening a log.
pub struct LogOptions {
    /// A file is frozen once it grows past this size. Capacities are capped
    /// at 256 MiB, a machine limit that keeps a file's byte offsets within a
    /// 32-bit address space alongside one maximal entry.
    pub log_file_capacity: usize,
}

/// The envelope of one entry.
pub open spec fn spec_envelope(tag: u8, payload: Seq<u8>) -> Seq<u8> {
    seq![tag] + spec_u32_to_le_bytes(payload.len() as u32) + spec_u32_to_le_bytes(
        crc32_of(payload),
    ) + payload
}

/// The bytes of a run of enveloped entries.
pub open spec fn spec_log_encoding(es: Seq<(u8, Seq<u8>)>) -> Seq<u8>
    decreases es.len(),
{
    if es.len() == 0 {
        Seq::<u8>::empty()
    } else {
        spec_envelope(es.first().0, es.first().1) + spec_log_encoding(es.drop_first())
    }
}

/// The replay records of a run of entries written from `base` on:
/// `(write_offset, tag, payload)`.
pub open spec fn spec_records(es: Seq<(u8, Seq<u8>)>, base: int) -> Seq<(int, u8, Seq<u8>)>
    decreases es.len(),
{
    if es.len() == 0 {
        Seq::<(int, u8, Seq<u8>)>::empty()
    } else {
        seq![(base, es.first().0, es.first().1)] + spec_records(
            es.drop_first(),
            base + 9 + es.first().1.len(),
        )
    }
}

/// Each entry contributes one record.
pub proof fn lemma_records_len(es: Seq<(u8, Seq<u8>)>, base: int)
    ensures
        spec_records(es, base).len() == es.len(),
    decreases es.len(),
{
    if es.len() > 0 {
        lemma_records_len(es.drop_first(), base + 9 + es.first().1.len());
    }
}

/// Replay a file's bytes from `base`: parse enveloped entries until the
/// bytes end or a partial or corrupt tail is found.
pub open spec fn spec_replay_at(data: Seq<u8>, base: int) -> Seq<(int, u8, Seq<u8>)>
    decreases data.len(),
{
    if data.len() < 9 {
        Seq::<(int, u8, Seq<u8>)>::empty()
    } else {
        let len = spec_u32_from_le_bytes(data.subrange(1, 5)) as int;
        let crc = spec_u32_from_le_bytes(data.subrange(5, 9));
        if data.len() < 9 + len {
            Seq::<(int, u8, Seq<u8>)>::empty()
        } else {
            let payload = data.subrange(9, 9 + len);
            if crc != crc32_of(payload) {
                Seq::<(int, u8, Seq<u8>)>::empty()
            } else {
                seq![(base, data[0], payload)] + spec_replay_at(data.skip(9 + len), base + 9 + len)
            }
        }
    }
}

/// All payloads fit the length field.
pub open spec fn entries_encodable(es: Seq<(u8, Seq<u8>)>) -> bool {
    forall|i: int| 0 <= i < es.len() ==> (#[trigger] es[i]).1.len() <= u32::MAX
}

/// Replaying a whole run of enveloped entries yields exactly their records.
pub proof fn lemma_replay_of_encoding(es: Seq<(u8, Seq<u8>)>, base: int)
    requires
        entries_encodable(es),
    ensures
        spec_replay_at(spec_log_encoding(es), base) == spec_records(es, base),
    decreases es.len(),
{
    lemma_auto_spec_u32_to_from_le_bytes();
    if es.len() == 0 {
    } else {
        let (tag, payload) = (es.first().0, es.first().1);
        let env = spec_envelope(tag, payload);
        let rest = spec_log_encoding(es.drop_first());
        let s = env + rest;
        let c = 9 + payload.len() as int;
        assert(env.len() == c);
        assert(s.subrange(1, 5) =~= spec_u32_to_le_bytes(payload.len() as u32));
        assert(s.subrange(5, 9) =~= spec_u32_to_le_bytes(crc32_of(payload)));
        assert(s.subrange(9, c) =~= payload);
        assert(s[0] == tag);
        assert(s.skip(c) =~= rest);
        assert(entries_encodable(es.drop_first())) by {
            assert(forall|i: int|
                0 <= i < es.drop_first().len() ==> #[trigger] es.drop_first()[i] == es[i + 1]);
        }
        lemma_replay_of_encoding(es.drop_first(), base + c);
        assert(spec_replay_at(s, base) =~= spec_records(es, base));
    }
}

/// Log replay fidelity: a log truncated at any byte boundary replays to a
/// prefix of the appended entries' records, and an untruncated log replays
/// them all. No partial entry is surfaced.
pub proof fn lemma_replay_prefix(es: Seq<(u8, Seq<u8>)>, j: int, base: int)
    requires
        entries_encodable(es),
        0 <= j <= spec_log_encoding(es).len(),
    ensures
        exists|k: int|
            0 <= k <= es.len() && spec_replay_at(spec_log_encoding(es).take(j), base)
                == #[trigger] spec_records(es, base).take(k) && (j == spec_log_encoding(es).len()
                ==> k == es.len()),
    decreases es.len(),
{
    lemma_auto_spec_u32_to_from_le_bytes();
    let enc = spec_log_encoding(es);
    let cut = enc.take(j);
    if es.len() == 0 {
        assert(cut =~= Seq::<u8>::empty());
        assert(spec_replay_at(cut, base) =~= spec_records(es, base).take(0));
        assert(0 <= 0 <= es.len() && spec_replay_at(spec_log_encoding(es).take(j), base)
            == spec_records(es, base).take(0) && (j == spec_log_encoding(es).len() ==> 0
            == es.len()));
    } else {
        let (tag, payload) = (es.first().0, es.first().1);
        let env = spec_envelope(tag, payload);
        let rest = spec_log_encoding(es.drop_first());
        let c = 9 + payload.len() as int;
        assert(env.len() == c);
        assert(enc =~= env + rest);
        assert(entries_encodable(es.drop_first())) by {
            assert(forall|i: int|
                0 <= i < es.drop_first().len() ==> #[trigger] es.drop_first()[i] == es[i + 1]);
        }
        if j < c {
            // The cut falls inside the first envelope: replay stops cleanly
            // with no records.
            if j >= 9 {
                assert(cut.subrange(1, 5) =~= spec_u32_to_le_bytes(payload.len() as u32));
                assert(cut.len() < 9 + payload.len());
            }
            assert(spec_replay_at(cut, base) =~= Seq::<(int, u8, Seq<u8>)>::empty());
            assert(spec_replay_at(cut, base) =~= spec_records(es, base).take(0));
            assert(0 <= 0 <= es.len() && spec_replay_at(spec_log_encoding(es).take(j), base)
                == spec_records(es, base).take(0) && (j == spec_log_encoding(es).len() ==> 0
                == es.len()));
        } else {
            assert(cut.subrange(1, 5) =~= spec_u32_to_le_bytes(payload.len() as u32));
            assert(cut.subrange(5, 9) =~= spec_u32_to_le_bytes(crc32_of(payload)));
            assert(cut.subrange(9, c) =~= payload);
            assert(cut[0] == tag);
            assert(cut.skip(c) =~= rest.take(j - c));
            lemma_replay_prefix(es.drop_first(), j - c, base + c);
            let k2 = choose|k2: int|
                0 <= k2 <= es.drop_first().len() && spec_replay_at(
                    spec_log_encoding(es.drop_first()).take(j - c),
                    base + c,
                ) == #[trigger] spec_records(es.drop_first(), base + c).take(k2) && (j - c
                    == spec_log_encoding(es.drop_first()).len() ==> k2 == es.drop_first().len());
            assert(spec_replay_at(cut, base) == seq![(base, tag, payload)] + spec_records(
                es.drop_first(),
                base + c,
            ).take(k2));
            lemma_records_len(es, base);
            lemma_records_len(es.drop_first(), base + c);
            assert(spec_records(es, base) == seq![(base, tag, payload)] + spec_records(
                es.drop_first(),
                base + c,
            ));
            assert(spec_records(es, base).take(k2 + 1) =~= seq![(base, tag, payload)]
                + spec_records(es.drop_first(), base + c).take(k2));
            assert(spec_replay_at(cut, base) =~= spec_records(es, base).take(k2 + 1));
            assert(0 <= k2 + 1 <= es.len() && spec_replay_at(
                spec_log_encoding(es).take(j),
                base,
            ) == spec_records(es, base).take(k2 + 1) && (j == spec_log_encoding(es).len() ==> k2
                + 1 == es.len()));
        }
    }
}

/// One replayed record: file id, write offset, entry tag, payload bytes.
pub struct ReplayRecord {
    pub file_id: u64,
    pub offset: usize,
    pub tag: u8,
    pub payload: Vec<u8>,
}

/// Views of replay records of one file.
pub open spec fn replay_views(s: Seq<ReplayRecord>) -> Seq<(int, u8, Seq<u8>)> {
    s.map_values(|r: ReplayRecord| (r.offset as int, r.tag, r.payload@))
}

/// Full views of replay records: file id, write offset, tag, payload.
pub open spec fn record_views(s: Seq<ReplayRecord>) -> Seq<(u64, int, u8, Seq<u8>)> {
    s.map_values(|r: ReplayRecord| (r.file_id, r.offset as int, r.tag, r.payload@))
}

/// One file's replay records, tagged with its id.
pub open spec fn tag_records(id: u64, recs: Seq<(int, u8, Seq<u8>)>) -> Seq<(u64, int, u8, Seq<u8>)> {
    recs.map_values(|r: (int, u8, Seq<u8>)| (id, r.0, r.1, r.2))
}

/// The replay records of a whole directory, in file order.
pub open spec fn spec_dir_replay(files: Seq<LogFile>) -> Seq<(u64, int, u8, Seq<u8>)>
    decreases files.len(),
{
    if files.len() == 0 {
        Seq::<(u64, int, u8, Seq<u8>)>::empty()
    } else {
        tag_records(files.first().id, spec_replay_at(files.first().data@, 0)) + spec_dir_replay(
            files.drop_first(),
        )
    }
}

/// Segmented write-ahead log over an in-memory directory.
pub struct Log {
    frozen: Vec<LogFile>,
    active_id: u64,
    active: Vec<u8>,
    log_file_capacity: usize,
    active_recs: Ghost<Seq<(u8, Seq<u8>)>>,
}

impl Log {
    pub closed spec fn spec_frozen(&self) -> Seq<LogFile> {
        self.frozen@
    }

    pub closed spec fn spec_active_id(&self) -> u64 {
        self.active_id
    }

    pub closed spec fn spec_active(&self) -> Seq<u8> {
        self.active@
    }

    /// The entries pushed into the active file since it was rotated in.
    pub closed spec fn spec_active_recs(&self) -> Seq<(u8, Seq<u8>)> {
        self.active_recs@
    }

    pub closed spec fn wf(&self) -> bool {
        &&& forall|i: int, j: int|
            0 <= i < j < self.frozen@.len() ==> (#[trigger] self.frozen@[i]).id < (
            #[trigger] self.frozen@[j]).id
        &&& forall|i: int|
            0 <= i < self.frozen@.len() ==> (#[trigger] self.frozen@[i]).id < self.active_id
        &&& self.active@ == spec_log_encoding(self.active_recs@)
        &&& entries_encodable(self.active_recs@)
        &&& self.active@.len() <= self.log_file_capacity
        &&& self.log_file_capacity <= 0x1000_0000
    }

    /// Open a log over a directory: every existing file is frozen, a fresh
    /// active file is rotated in, and the records of every file are replayed
    /// in file order.
    pub fn open(dir: LogDir, options: LogOptions) -> (r: (Log, Vec<ReplayRecord>))
        requires
            forall|i: int, j: int|
                0 <= i < j < dir.files@.len() ==> (#[trigger] dir.files@[i]).id < (
                #[trigger] dir.files@[j]).id,
            forall|i: int|
                0 <= i < dir.files@.len() ==> (#[trigger] dir.files@[i]).id < u64::MAX,
            options.log_file_capacity <= 0x1000_0000,
        ensures
            r.0.wf(),
            r.0.spec_frozen() == dir.files@,
            r.0.spec_active_recs() == Seq::<(u8, Seq<u8>)>::empty(),
            r.0.spec_frozen().len() == dir.files@.len(),
            record_views(r.1@) == spec_dir_replay(dir.files@),
    {
        let mut records: Vec<ReplayRecord> = Vec::new();
        let nf = dir.files.len();
        let mut fi: usize = 0;
        proof {
            assert(dir.files@.skip(0) =~= dir.files@);
            assert(record_views(records@) =~= Seq::<(u64, int, u8, Seq<u8>)>::empty());
            assert(record_views(records@) + spec_dir_replay(dir.files@) =~= spec_dir_replay(
                dir.files@,
            ));
        }
        while fi < nf
            invariant
                fi <= nf,
                nf == dir.files@.len(),
                record_views(records@) + spec_dir_replay(dir.files@.skip(fi as int))
                    == spec_dir_replay(dir.files@),
            decreases nf - fi,
        {
            let file = &dir.files[fi];
            let ghost pre = records@;
            Self::replay_file(file, &mut records);
            proof {
                let rest = dir.files@.skip(fi as int);
                assert(rest.first() == dir.files@[fi as int]);
                assert(rest.drop_first() =~= dir.files@.skip(fi + 1));
                assert(records@.skip(pre.len() as int).len() == records@.len() - pre.len());
                assert(record_views(records@) =~= record_views(pre) + tag_records(
                    file.id,
                    spec_replay_at(file.data@, 0),
                )) by {
                    assert(tag_records(file.id, spec_replay_at(file.data@, 0)) =~= tag_records(
                        file.id,
                        replay_views(records@.skip(pre.len() as int)),
                    ));
                    assert forall|k: int|
                        0 <= k < records@.len() implies record_views(records@)[k] == (
                    record_views(pre) + tag_records(
                        file.id,
                        replay_views(records@.skip(pre.len() as int)),
                    ))[k] by {
                        if k >= pre.len() {
                            assert(records@.skip(pre.len() as int)[k - pre.len()] == records@[k]);
                        }
                    }
                }
                assert(record_views(pre) + (tag_records(file.id, spec_replay_at(file.data@, 0))
                    + spec_dir_replay(dir.files@.skip(fi + 1))) =~= (record_views(pre)
                    + tag_records(file.id, spec_replay_at(file.data@, 0))) + spec_dir_replay(
                    dir.files@.skip(fi + 1),
                ));
            }
            fi += 1;
        }
        proof {
            assert(dir.files@.skip(nf as int) =~= Seq::<LogFile>::empty());
            assert(record_views(records@) + Seq::<(u64, int, u8, Seq<u8>)>::empty()
                =~= record_views(records@));
        }
        let active_id = if dir.files.len() == 0 {
            1
        } else {
            dir.files[dir.files.len() - 1].id + 1
        };
        let log = Log {
            frozen: dir.files,
            active_id,
            active: Vec::new(),
            log_file_capacity: options.log_file_capacity,
            active_recs: Ghost(Seq::empty()),
        };
        proof {
            assert(log.active@ =~= spec_log_encoding(log.active_recs@));
            assert forall|i: int|
                0 <= i < log.frozen@.len() implies (#[trigger] log.frozen@[i]).id
                < log.active_id by {
                if i < log.frozen@.len() - 1 {
                    assert(log.frozen@[i].id < log.frozen@[log.frozen@.len() - 1].id);
                }
            }
        }
        (log, records)
    }

    /// Replay one file, appending its records.
    fn replay_file(file: &LogFile, records: &mut Vec<ReplayRecord>)
        ensures
            final(records)@.len() >= old(records)@.len(),
            forall|i: int|
                0 <= i < old(records)@.len() ==> #[trigger] final(records)@[i] == old(records)@[i],
            replay_views(final(records)@.skip(old(records)@.len() as int)) == spec_replay_at(
                file.data@,
                0,
            ),
            forall|i: int|
                old(records)@.len() <= i < final(records)@.len() ==> (#[trigger] final(
                    records
                )@[i]).file_id == file.id,
    {
        proof {
            lemma_auto_spec_u32_to_from_le_bytes();
        }
        let ghost base_len = records@.len() as int;
        let data = file.data.as_slice();
        let n = data.len();
        let mut pos: usize = 0;
        proof {
            assert(data@.skip(0) =~= data@);
            assert(replay_views(records@.skip(base_len)) =~= Seq::<(int, u8, Seq<u8>)>::empty());
        }
        loop
            invariant
                pos <= n,
                n == data@.len(),
                data@ == file.data@,
                records@.len() >= base_len,
                base_len == old(records)@.len(),
                forall|i: int|
                    0 <= i < base_len ==> #[trigger] records@[i] == old(records)@[i],
                forall|i: int|
                    base_len <= i < records@.len() ==> (#[trigger] records@[i]).file_id == file.id,
                spec_replay_at(data@, 0) == replay_views(records@.skip(base_len))
                    + spec_replay_at(data@.skip(pos as int), pos as int),
            decreases n - pos,
        {
            proof {
                lemma_auto_spec_u32_to_from_le_bytes();
            }
            let ghost rest = data@.skip(pos as int);
            if n - pos < 9 {
                proof {
                    assert(spec_replay_at(rest, pos as int) =~= Seq::<(int, u8, Seq<u8>)>::empty());
                    assert(replay_views(records@.skip(base_len)) + Seq::<(
                        int,
                        u8,
                        Seq<u8>,
                    )>::empty() =~= replay_views(records@.skip(base_len)));
                }
                return ;
            }
            let tag = data[pos];
            proof {
                assert(rest.subrange(1, 5) =~= data@.subrange(pos + 1, pos + 5));
                assert(rest.subrange(5, 9) =~= data@.subrange(pos + 5, pos + 9));
                assert(rest[0] == data@[pos as int]);
            }
            let len = u32_from_le_bytes(slice_subrange(data, pos + 1, pos + 5)) as usize;
            let crc = u32_from_le_bytes(slice_subrange(data, pos + 5, pos + 9));
            if len > n - pos - 9 {
                proof {
                    assert(spec_replay_at(rest, pos as int) =~= Seq::<(int, u8, Seq<u8>)>::empty());
                    assert(replay_views(records@.skip(base_len)) + Seq::<(
                        int,
                        u8,
                        Seq<u8>,
                    )>::empty() =~= replay_views(records@.skip(base_len)));
                }
                return ;
            }
            let payload = subrange_to_vec(data, pos + 9, pos + 9 + len);
            proof {
                assert(rest.subrange(9, 9 + len) =~= data@.subrange(pos + 9, pos + 9 + len));
            }
            if !crc32check(payload.as_slice(), crc) {
                proof {
                    assert(spec_replay_at(rest, pos as int) =~= Seq::<(int, u8, Seq<u8>)>::empty());
                    assert(replay_views(records@.skip(base_len)) + Seq::<(
                        int,
                        u8,
                        Seq<u8>,
                    )>::empty() =~= replay_views(records@.skip(base_len)));
                }
                return ;
            }
            let next_pos = pos + 9 + len;
            proof {
                assert(rest.skip(9 + len) =~= data@.skip(next_pos as int));
                let rec = (pos as int, tag, payload@);
                assert(spec_replay_at(rest, pos as int) == seq![rec] + spec_replay_at(
                    data@.skip(next_pos as int),
                    next_pos as int,
                ));
            }
            let rec = ReplayRecord { file_id: file.id, offset: pos, tag, payload };
            let ghost pre_records = records@;
            records.push(rec);
            proof {
                assert(records@.skip(base_len) =~= pre_records.skip(base_len).push(rec));
                assert(replay_views(records@.skip(base_len)) =~= replay_views(
                    pre_records.skip(base_len),
                ).push((pos as int, tag, rec.payload@)));
                assert(replay_views(records@.skip(base_len)) + spec_replay_at(
                    data@.skip(next_pos as int),
                    next_pos as int,
                ) =~= replay_views(pre_records.skip(base_len)) + spec_replay_at(
                    rest,
                    pos as int,
                ));
            }
            pos = next_pos;
        }
    }

    /// Bounds a well-formed log is known to satisfy.
    pub proof fn lemma_wf_bounds(&self)
        requires
            self.wf(),
        ensures
            self.spec_active().len() <= self.spec_log_file_capacity(),
            self.spec_log_file_capacity() <= 0x1000_0000,
    {
    }

    /// The one input a push refuses: the active file must rotate but the
    /// file id space is exhausted.
    pub open spec fn spec_push_refused(pre: Log, tag: u8, payload: Seq<u8>) -> bool {
        &&& (pre.spec_active() + spec_envelope(tag, payload)).len()
            > pre.spec_log_file_capacity()
        &&& pre.spec_active_id() == u64::MAX
    }

    /// `post` is `pre` with one enveloped entry appended: either into the
    /// active file, or, when the file crosses its capacity, the grown file
    /// frozen and a fresh active file rotated in.
    pub open spec fn spec_pushed(pre: Log, post: Log, tag: u8, payload: Seq<u8>) -> bool {
        let grown = pre.spec_active() + spec_envelope(tag, payload);
        if grown.len() > pre.spec_log_file_capacity() {
            &&& post.spec_frozen().len() == pre.spec_frozen().len() + 1
            &&& (forall|i: int|
                0 <= i < pre.spec_frozen().len() ==> #[trigger] post.spec_frozen()[i]
                    == pre.spec_frozen()[i])
            &&& post.spec_frozen().last().id == pre.spec_active_id()
            &&& post.spec_frozen().last().data@ == grown
            &&& post.spec_active() == Seq::<u8>::empty()
            &&& post.spec_active_id() == pre.spec_active_id() + 1
            &&& post.spec_active_recs() == Seq::<(u8, Seq<u8>)>::empty()
        } else {
            &&& post.spec_frozen() == pre.spec_frozen()
            &&& post.spec_active() == grown
            &&& post.spec_active_id() == pre.spec_active_id()
            &&& post.spec_active_recs() == pre.spec_active_recs().push((tag, payload))
        }
    }

    /// Append one entry to the active file; rotate when the file crosses its
    /// capacity. Returns `(file_id, write_offset, write_len)`.
    pub fn push(&mut self, entry: &crate::raft_entry::Entry) -> (r: Result<(u64, usize, usize)>)
        requires
            old(self).wf(),
            entry.shape_wf(),
        ensures
            final(self).wf(),
            r is Err ==> r == Err::<(u64, usize, usize), Error>(Error::ObjectRange)
                && Self::spec_push_refused(*old(self), entry.spec_tag(), entry.spec_payload())
                && *final(self) == *old(self),
            r matches Ok(t) ==> {
                &&& t.0 == old(self).spec_active_id()
                &&& t.1 == old(self).spec_active().len()
                &&& t.2 == spec_envelope(entry.spec_tag(), entry.spec_payload()).len()
                &&& Self::spec_pushed(
                    *old(self),
                    *final(self),
                    entry.spec_tag(),
                    entry.spec_payload(),
                )
            },
    {
        proof {
            lemma_auto_spec_u32_to_from_le_bytes();
        }
        proof {
            crate::raft_entry::lemma_payload_len(*entry);
        }
        let tag = entry.tag();
        let payload = entry.encode_payload();
        if self.active_id == u64::MAX && self.active.len() + 9 + payload.len()
            > self.log_file_capacity {
            // The id space is exhausted; refuse rather than rotate.
            return Err(Error::ObjectRange);
        }
        let write_offset = self.active.len();
        let file_id = self.active_id;
        let ghost pre = *self;
        self.active.push(tag);
        let b = u32_to_le_bytes(payload.len() as u32);
        self.active.extend_from_slice(b.as_slice());
        let crc = crc32sum(payload.as_slice());
        let b = u32_to_le_bytes(crc);
        self.active.extend_from_slice(b.as_slice());
        self.active.extend_from_slice(payload.as_slice());
        let write_len = 9 + payload.len();
        proof {
            let env = spec_envelope(entry.spec_tag(), entry.spec_payload());
            assert(self.active@ =~= pre.active@ + env);
            self.active_recs@ = pre.active_recs@.push((entry.spec_tag(), entry.spec_payload()));
            lemma_log_encoding_push(pre.active_recs@, entry.spec_tag(), entry.spec_payload());
        }
        if self.active.len() > self.log_file_capacity {
            let mut data: Vec<u8> = Vec::new();
            core::mem::swap(&mut data, &mut self.active);
            let file = LogFile { id: self.active_id, data };
            self.frozen.push(file);
            self.active_id = self.active_id + 1;
            proof {
                self.active_recs@ = Seq::empty();
                assert(self.active@ =~= spec_log_encoding(self.active_recs@));
                assert(self.frozen@ =~= pre.frozen@.push(self.frozen@.last()));
            }
        }
        Ok((file_id, write_offset, write_len))
    }

    pub closed spec fn spec_log_file_capacity(&self) -> int {
        self.log_file_capacity as int
    }

    /// The log holds a frozen file with this id.
    pub open spec fn has_frozen(&self, file_id: u64) -> bool {
        exists|i: int|
            0 <= i < self.spec_frozen().len() && (#[trigger] self.spec_frozen()[i]).id == file_id
    }

    /// The bytes of the frozen file with this id.
    pub open spec fn spec_frozen_data(&self, file_id: u64) -> Seq<u8> {
        self.spec_frozen()[choose|i: int|
            0 <= i < self.spec_frozen().len() && (#[trigger] self.spec_frozen()[i]).id
                == file_id].data@
    }

    proof fn lemma_frozen_at(&self, file_id: u64, i: int)
        requires
            self.wf(),
            0 <= i < self.spec_frozen().len(),
            self.spec_frozen()[i].id == file_id,
        ensures
            self.has_frozen(file_id),
            self.spec_frozen_data(file_id) == self.spec_frozen()[i].data@,
    {
        assert(self.has_frozen(file_id));
        let j = choose|j: int|
            0 <= j < self.spec_frozen().len() && (#[trigger] self.spec_frozen()[j]).id == file_id;
        if j != i {
            if j < i {
                assert(self.spec_frozen()[j].id < self.spec_frozen()[i].id);
            } else {
                assert(self.spec_frozen()[i].id < self.spec_frozen()[j].id);
            }
        }
    }

    /// Random read from a frozen or the active file. Succeeds exactly when
    /// the id names the active file or a frozen file and the range lies
    /// within it.
    pub fn read(&self, file_id: u64, offset: usize, len: usize) -> (r: Result<Vec<u8>>)
        requires
            self.wf(),
        ensures
            file_id == self.spec_active_id() ==> {
                if offset + len <= self.spec_active().len() {
                    r matches Ok(v) && v@ == self.spec_active().subrange(offset as int, offset
                        + len)
                } else {
                    r == Err::<Vec<u8>, Error>(Error::ObjectRange)
                }
            },
            file_id != self.spec_active_id() && self.has_frozen(file_id) ==> {
                if offset + len <= self.spec_frozen_data(file_id).len() {
                    r matches Ok(v) && v@ == self.spec_frozen_data(file_id).subrange(
                        offset as int,
                        offset + len,
                    )
                } else {
                    r == Err::<Vec<u8>, Error>(Error::ObjectRange)
                }
            },
            file_id != self.spec_active_id() && !self.has_frozen(file_id) ==> (r matches Err(e)
                && e matches Error::ObjectNotFound(_)),
    {
        if file_id == self.active_id {
            if offset > self.active.len() || len > self.active.len() - offset {
                return Err(Error::ObjectRange);
            }
            return Ok(subrange_to_vec(self.active.as_slice(), offset, offset + len));
        }
        let n = self.frozen.len();
        let mut i: usize = 0;
        while i < n
            invariant
                self.wf(),
                i <= n,
                n == self.frozen@.len(),
                forall|j: int| 0 <= j < i ==> (#[trigger] self.frozen@[j]).id != file_id,
            decreases n - i,
        {
            if self.frozen[i].id == file_id {
                proof {
                    self.lemma_frozen_at(file_id, i as int);
                }
                let file = &self.frozen[i];
                if offset > file.data.len() || len > file.data.len() - offset {
                    return Err(Error::ObjectRange);
                }
                let v = subrange_to_vec(file.data.as_slice(), offset, offset + len);
                return Ok(v);
            }
            i += 1;
        }
        proof {
            if self.has_frozen(file_id) {
                let j = choose|j: int|
                    0 <= j < self.spec_frozen().len() && (#[trigger] self.spec_frozen()[j]).id
                        == file_id;
                assert(false);
            }
        }
        Err(Error::ObjectNotFound(Vec::new()))
    }

    /// Number of frozen files.
    pub fn frozen_file_count(&self) -> (r: usize)
        ensures
            r == self.spec_frozen().len(),
    {
        self.frozen.len()
    }

    /// Hand the directory back: the frozen files followed by the active one.
    pub fn into_dir(self) -> (r: LogDir)
        requires
            self.wf(),
        ensures
            r.files@.len() == self.spec_frozen().len() + 1,
            forall|i: int|
                0 <= i < self.spec_frozen().len() ==> #[trigger] r.files@[i] == self.spec_frozen()[
                    i
                ],
            r.files@.last().id == self.spec_active_id(),
            r.files@.last().data@ == self.spec_active(),
            forall|i: int, j: int|
                0 <= i < j < r.files@.len() ==> (#[trigger] r.files@[i]).id < (
                #[trigger] r.files@[j]).id,
    {
        let Log { mut frozen, active_id, active, log_file_capacity: _, active_recs: _ } = self;
        let file = LogFile { id: active_id, data: active };
        let ghost pre = frozen@;
        frozen.push(file);
        proof {
            assert forall|i: int, j: int|
                0 <= i < j < frozen@.len() implies (#[trigger] frozen@[i]).id < (
            #[trigger] frozen@[j]).id by {
                if j < frozen@.len() - 1 {
                    assert(pre[i].id < pre[j].id);
                }
            }
        }
        LogDir { files: frozen }
    }
}

/// Appending one entry extends the encoding by its envelope.
proof fn lemma_log_encoding_push(es: Seq<(u8, Seq<u8>)>, tag: u8, payload: Seq<u8>)
    ensures
        spec_log_encoding(es.push((tag, payload))) == spec_log_encoding(es) + spec_envelope(
            tag,
            payload,
        ),
    decreases es.len(),
{
    let es2 = es.push((tag, payload));
    if es.len() == 0 {
        assert(es2.first() == (tag, payload));
        assert(es2.drop_first() =~= Seq::<(u8, Seq<u8>)>::empty());
        assert(spec_log_encoding(Seq::<(u8, Seq<u8>)>::empty()) =~= Seq::<u8>::empty());
        assert(spec_log_encoding(es2) =~= spec_envelope(tag, payload));
        assert(spec_log_encoding(es) + spec_envelope(tag, payload) =~= spec_envelope(tag, payload));
    } else {
        assert(es2.first() == es.first());
        assert(es2.drop_first() =~= es.drop_first().push((tag, payload)));
        lemma_log_encoding_push(es.drop_first(), tag, payload);
        assert(spec_envelope(es.first().0, es.first().1) + (spec_log_encoding(es.drop_first())
            + spec_envelope(tag, payload)) =~= (spec_envelope(es.first().0, es.first().1)
            + spec_log_encoding(es.drop_first())) + spec_envelope(tag, payload));
    }
}

} // verus!
