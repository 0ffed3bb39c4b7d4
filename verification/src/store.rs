//! The storage engine: an append-only log across generation files, a key
//! directory pointing each live key at its latest `Put` record, dead-byte
//! accounting, and a compactor for sealed generations.
//!
//! The engine holds the byte contents of every generation file. Each
//! state-changing operation returns the [`FileOp`]s it implies, in order; a
//! caller that owns the real directory appends, creates and unlinks
//! accordingly (and syncs before acknowledging), so the disk mirrors the
//! verified state.

use std::collections::HashMap;

use vstd::prelude::*;
use vstd::seq_lib::*;

use crate::keydir::{KeyDir, LogPos};
use crate::model::{
    enc_file, keydir_of, last_for, lemma_enc_file_extract, lemma_enc_file_push, lemma_last_for,
    lemma_locate_push, lemma_log_delete, lemma_log_gen_bounds, lemma_log_index,
    lemma_log_of_concat, lemma_log_push_file, lemma_log_push_rec, lemma_push_put,
    lemma_push_tombstone, lemma_rec_pos_mono, lemma_rec_pos_step, live_at, locate, log_of,
    logpos_at, parse_prefix, rec_pos, rec_value, view_of, FileM, LRec,
};
use crate::record::{
    decode, enc, encode_put, encode_tombstone, lemma_decode_enc, lemma_enc_decode, lemma_enc_len,
    put_len, rec_key, rec_wf, spec_decode, tombstone_len, LogRecord, Rec,
};
use crate::KvsError;

verus! {

broadcast use vstd::std_specs::hash::group_hash_axioms;

/// Size cap of one generation file: once an append would pass it, the writer
/// rotates to a fresh generation first.
pub const MAX_FILE_SIZE: usize = 1048576;

/// Dead-byte threshold at which a sealed generation is compacted: sixty
/// percent of [`MAX_FILE_SIZE`].
pub const COMPACTION_THRESHOLD: usize = 629145;

/// One generation file, held as plain bytes: the generation number and the
/// file's contents.
#[derive(Debug, Clone)]
pub struct GenFile {
    pub gen: u64,
    pub data: Vec<u8>,
}

/// The mathematical shape of a generation file.
pub struct FileV {
    pub gen: u64,
    pub data: Seq<u8>,
}

impl View for GenFile {
    type V = FileV;

    open spec fn view(&self) -> FileV {
        FileV { gen: self.gen, data: self.data@ }
    }
}

/// A change to the store directory that the caller must mirror to disk, in
/// order, before acknowledging the operation that returned it.
#[derive(Debug, Clone, PartialEq, Eq)]
pub enum FileOp {
    /// Append `bytes` at the end of `<gen>.log`, creating the file first if
    /// it does not exist, and sync the file.
    Append { gen: u64, bytes: Vec<u8> },
    /// Unlink `<gen>.log`.
    Delete { gen: u64 },
}

/// The shapes of a file sequence.
pub open spec fn files_v(files: Seq<GenFile>) -> Seq<FileV> {
    Seq::new(files.len(), |i: int| files[i]@)
}

/// Whether some file holds generation `g`.
pub open spec fn has_gen(fs: Seq<FileV>, g: u64) -> bool {
    exists|i: int| 0 <= i < fs.len() && (#[trigger] fs[i]).gen == g
}

/// The index of the file holding generation `g`.
pub open spec fn gen_index_of(fs: Seq<FileV>, g: u64) -> int {
    choose|i: int| 0 <= i < fs.len() && (#[trigger] fs[i]).gen == g
}

/// Generation numbers strictly ascend across the file sequence.
pub open spec fn gens_sorted(fs: Seq<FileV>) -> bool {
    forall|i: int, j: int|
        0 <= i < j < fs.len() ==> (#[trigger] fs[i]).gen < (#[trigger] fs[j]).gen
}

/// The file sequence after one directory operation.
pub open spec fn apply_op(fs: Seq<FileV>, op: FileOp) -> Seq<FileV> {
    match op {
        FileOp::Append { gen, bytes } => if has_gen(fs, gen) {
            let i = gen_index_of(fs, gen);
            fs.update(i, FileV { gen, data: fs[i].data + bytes@ })
        } else {
            fs.push(FileV { gen, data: bytes@ })
        },
        FileOp::Delete { gen } => if has_gen(fs, gen) {
            fs.remove(gen_index_of(fs, gen))
        } else {
            fs
        },
    }
}

/// The file sequence after a list of directory operations, applied in order.
pub open spec fn apply_ops(fs: Seq<FileV>, ops: Seq<FileOp>) -> Seq<FileV>
    decreases ops.len(),
{
    if ops.len() == 0 {
        fs
    } else {
        apply_op(apply_ops(fs, ops.drop_last()), ops.last())
    }
}

proof fn lemma_apply_ops_push(fs: Seq<FileV>, ops: Seq<FileOp>, op: FileOp)
    ensures
        apply_ops(fs, ops.push(op)) == apply_op(apply_ops(fs, ops), op),
{
    assert(ops.push(op).drop_last() =~= ops);
}

proof fn lemma_apply_ops_concat(fs: Seq<FileV>, o1: Seq<FileOp>, o2: Seq<FileOp>)
    ensures
        apply_ops(fs, o1 + o2) == apply_ops(apply_ops(fs, o1), o2),
    decreases o2.len(),
{
    if o2.len() == 0 {
        assert(o1 + o2 =~= o1);
    } else {
        assert((o1 + o2).drop_last() =~= o1 + o2.drop_last());
        assert((o1 + o2).last() == o2.last());
        lemma_apply_ops_concat(fs, o1, o2.drop_last());
    }
}

/// Two helper-call op lists compose into one.
proof fn lemma_ops_compose(
    fv0: Seq<FileV>,
    fv1: Seq<FileV>,
    fv2: Seq<FileV>,
    o0: Seq<FileOp>,
    o1: Seq<FileOp>,
    o2: Seq<FileOp>,
)
    requires
        o0.is_prefix_of(o1),
        o1.is_prefix_of(o2),
        apply_ops(fv0, o1.skip(o0.len() as int)) == fv1,
        apply_ops(fv1, o2.skip(o1.len() as int)) == fv2,
    ensures
        o0.is_prefix_of(o2),
        apply_ops(fv0, o2.skip(o0.len() as int)) == fv2,
{
    assert(o2.skip(o0.len() as int) =~= o1.skip(o0.len() as int) + o2.skip(o1.len() as int));
    lemma_apply_ops_concat(fv0, o1.skip(o0.len() as int), o2.skip(o1.len() as int));
}

/// In a strictly sorted file sequence, a generation determines its index.
pub proof fn lemma_gen_at(fs: Seq<FileV>, j: int)
    requires
        gens_sorted(fs),
        0 <= j < fs.len(),
    ensures
        has_gen(fs, fs[j].gen),
        gen_index_of(fs, fs[j].gen) == j,
{
    assert(has_gen(fs, fs[j].gen));
    let i = gen_index_of(fs, fs[j].gen);
    assert(0 <= i < fs.len() && fs[i].gen == fs[j].gen);
    if i < j {
        assert(fs[i].gen < fs[j].gen);
    }
    if j < i {
        assert(fs[j].gen < fs[i].gen);
    }
}

/// The dead-byte map after accounting `amount` more dead bytes to
/// generation `g`: the count grows by `amount`, clamped to the generation's
/// current file size; a generation without a file is left unaccounted.
pub open spec fn bumped(dead: Map<u64, usize>, fs: Seq<FileV>, g: u64, amount: usize) -> Map<
    u64,
    usize,
> {
    if has_gen(fs, g) {
        let size = fs[gen_index_of(fs, g)].data.len() as int;
        let cur: int = if dead.contains_key(g) {
            dead[g] as int
        } else {
            0
        };
        let nv: int = if cur + amount <= size {
            cur + amount
        } else {
            size
        };
        dead.insert(g, nv as usize)
    } else {
        dead
    }
}

/// Dead-byte counts stay within the named generation's current file size.
pub open spec fn dead_ok(dead: Map<u64, usize>, fs: Seq<FileV>) -> bool {
    forall|g: u64|
        #[trigger] dead.contains_key(g) ==> has_gen(fs, g) && dead[g] <= fs[gen_index_of(
            fs,
            g,
        )].data.len()
}

/// The dead-byte accounting one replayed record adds, given the directory
/// `prev` as it stood just before the record: a `Put` charges the record it
/// overwrites (if any); a `Tombstone` charges both the record it removes (if
/// any) and itself.
pub open spec fn dead_step(
    d: Map<u64, usize>,
    fs: Seq<FileV>,
    prev: Map<Seq<u8>, LogPos>,
    l: LRec,
) -> Map<u64, usize> {
    match l.rec {
        Rec::Put { key, .. } => if prev.contains_key(key) {
            bumped(d, fs, prev[key].gen, prev[key].len)
        } else {
            d
        },
        Rec::Tombstone { key } => {
            let d1 = if prev.contains_key(key) {
                bumped(d, fs, prev[key].gen, prev[key].len)
            } else {
                d
            };
            bumped(d1, fs, l.gen, enc(l.rec).len() as usize)
        },
    }
}

/// The dead-byte accounting replay of a whole log produces, with counts
/// clamped against the file sizes `fs`.
pub open spec fn replay_dead(log: Seq<LRec>, fs: Seq<FileV>) -> Map<u64, usize>
    decreases log.len(),
{
    if log.len() == 0 {
        Map::empty()
    } else {
        dead_step(
            replay_dead(log.drop_last(), fs),
            fs,
            keydir_of(log.drop_last()),
            log.last(),
        )
    }
}

/// The writer's append discipline for one record: its encoding lands at the
/// end of the active generation, and a fresh generation is opened first
/// exactly when the record would not have fit under the size cap (and a
/// fresh generation number remains). `lp` locates the record; `wops` are the
/// directory operations the append emitted.
pub open spec fn appended_files(
    s0: KvStore,
    s1: KvStore,
    rec: Rec,
    lp: LogPos,
    wops: Seq<FileOp>,
) -> bool {
    let e = enc(rec);
    let last0 = s0.files@.len() - 1;
    let w0 = s0.files@[last0].data@.len() as int;
    let rotated = w0 + e.len() > s0.cap && s0.active_gen < u64::MAX;
    &&& s1.log() == s0.log().push(LRec { gen: lp.gen, pos: lp.pos as int, rec })
    &&& s1.cap == s0.cap
    &&& s1.threshold == s0.threshold
    &&& lp.gen == s1.active_gen
    &&& lp.len == e.len()
    &&& if rotated {
        &&& s1.active_gen == s0.active_gen + 1
        &&& lp.pos == 0
        &&& s1.fv() == s0.fv().push(FileV { gen: s1.active_gen, data: e })
        &&& wops.len() == 2
        &&& (wops[0] matches FileOp::Append { gen, bytes } && gen == s1.active_gen && bytes@
            =~= Seq::<u8>::empty())
        &&& (wops[1] matches FileOp::Append { gen, bytes } && gen == s1.active_gen && bytes@ == e)
    } else {
        &&& s1.active_gen == s0.active_gen
        &&& lp.pos as int == w0
        &&& s1.fv() == s0.fv().update(
            last0,
            FileV { gen: s0.active_gen, data: s0.fv()[last0].data + e },
        )
        &&& wops.len() == 1
        &&& (wops[0] matches FileOp::Append { gen, bytes } && gen == s0.active_gen && bytes@ == e)
    }
}

/// One writer step of `set`: the `Put` appended under the append discipline,
/// the directory repointed at it, and the overwritten entry (if any) charged
/// as dead against its generation.
pub open spec fn put_step(
    s0: KvStore,
    s1: KvStore,
    k: Seq<u8>,
    v: Seq<u8>,
    lp: LogPos,
    wops: Seq<FileOp>,
) -> bool {
    &&& appended_files(s0, s1, Rec::Put { key: k, value: v }, lp, wops)
    &&& s1.keydir@ == s0.keydir@.insert(k, lp)
    &&& s1.dead@ == if s0.keydir@.contains_key(k) {
        bumped(s0.dead@, s1.fv(), s0.keydir@[k].gen, s0.keydir@[k].len)
    } else {
        s0.dead@
    }
}

/// One writer step of `remove`: the `Tombstone` appended under the append
/// discipline, the key's entry dropped, and both the overwritten record and
/// the tombstone itself charged as dead.
pub open spec fn remove_step(
    s0: KvStore,
    s1: KvStore,
    k: Seq<u8>,
    lp: LogPos,
    wops: Seq<FileOp>,
) -> bool {
    &&& s0.keydir@.contains_key(k)
    &&& appended_files(s0, s1, Rec::Tombstone { key: k }, lp, wops)
    &&& s1.keydir@ == s0.keydir@.remove(k)
    &&& s1.dead@ == bumped(
        bumped(s0.dead@, s1.fv(), s0.keydir@[k].gen, s0.keydir@[k].len),
        s1.fv(),
        lp.gen,
        lp.len,
    )
}

/// Whether a writer step crossed the compaction threshold on the sealed
/// generation holding the key's previous record, so that generation is
/// compacted before the operation returns.
pub open spec fn compaction_due(s0: KvStore, s1: KvStore, k: Seq<u8>) -> bool {
    &&& s0.keydir@.contains_key(k)
    &&& s1.dead@.contains_key(s0.keydir@[k].gen)
    &&& s1.dead@[s0.keydir@[k].gen] >= s1.threshold
    &&& s0.keydir@[k].gen != s1.active_gen
}

/// What compacting generation `g` guarantees, as a relation between the
/// states before and after: the key-to-value view is unchanged, the
/// generation's file and dead-byte count are gone, no directory entry points
/// into it any more, and `cops` are the directory operations it emitted.
pub open spec fn compacted(s0: KvStore, s1: KvStore, g: u64, cops: Seq<FileOp>) -> bool {
    &&& view_of(s1.log()) == view_of(s0.log())
    &&& !has_gen(s1.fv(), g)
    &&& !s1.dead@.contains_key(g)
    &&& (forall|k: Seq<u8>| s1.keydir@.contains_key(k) ==> (#[trigger] s1.keydir@[k]).gen != g)
    &&& apply_ops(s0.fv(), cops) == s1.fv()
    &&& s1.cap == s0.cap
    &&& s1.threshold == s0.threshold
    &&& s1.active_gen >= s0.active_gen
}

/// Every record's encoding stays within the size cap of one generation.
pub open spec fn recs_fit(rs: Seq<Rec>, cap: usize) -> bool {
    forall|t: int| 0 <= t < rs.len() ==> enc(#[trigger] rs[t]).len() <= cap
}

/// Every record that replay would adopt from `files` fits the cap.
pub open spec fn files_fit(files: Seq<GenFile>, cap: usize) -> bool {
    forall|i: int|
        0 <= i < files.len() ==> recs_fit(parse_prefix((#[trigger] files[i]).data@, 0).0, cap)
}

/// The input files arrive in strictly ascending generation order.
pub open spec fn input_sorted(files: Seq<GenFile>) -> bool {
    gens_sorted(files_v(files))
}

/// Every sealed (non-last) input file decodes in full.
pub open spec fn sealed_ok(files: Seq<GenFile>) -> bool {
    forall|i: int|
        0 <= i < files.len() - 1 ==> parse_prefix((#[trigger] files[i]).data@, 0).1
            == files[i].data@.len()
}

/// What opening a store from `files` with the given bounds returns: a
/// well-formed store whose files are the input files (the last one cut back
/// to its longest decodable prefix, each file's records its parse), holding
/// the key directory replay rebuilds; `Config` for files out of order;
/// `Codec` for a sealed file that does not decode in full.
pub open spec fn open_post(
    files: Seq<GenFile>,
    cap: usize,
    threshold: usize,
    r: Result<KvStore, KvsError>,
) -> bool {
    match r {
        Ok(s) => {
            &&& input_sorted(files) && sealed_ok(files) && files_fit(files, cap)
            &&& s.wf()
            &&& s.cap == cap
            &&& s.threshold == threshold
            &&& (files.len() == 0 ==> s.files@.len() == 1 && s.files@[0].gen == 0
                && s.files@[0].data@ == Seq::<u8>::empty() && s@ =~= Map::<Seq<u8>, Seq<u8>>::empty()
                && s.dead@ =~= Map::<u64, usize>::empty())
            &&& (files.len() > 0 ==> {
                &&& s.files@.len() == files.len()
                &&& (forall|i: int|
                    0 <= i < files.len() ==> (#[trigger] s.files@[i]).gen == files[i].gen)
                &&& (forall|i: int|
                    0 <= i < files.len() - 1 ==> (#[trigger] s.files@[i]).data@
                        == files[i].data@)
                &&& (forall|i: int|
                    0 <= i < files.len() ==> (#[trigger] s.recs@[i]) == parse_prefix(
                        files[i].data@,
                        0,
                    ).0)
                &&& s.files@[files.len() - 1].data@ == files[files.len() - 1].data@.take(
                    parse_prefix(files[files.len() - 1].data@, 0).1,
                )
                &&& ({
                    let fsm = Seq::new(
                        files.len(),
                        |i: int|
                            FileM { gen: files[i].gen, recs: parse_prefix(files[i].data@, 0).0 },
                    );
                    let raw = replay_dead(log_of(fsm), files_v(files));
                    let lastg = files[files.len() - 1].gen;
                    let tlen = parse_prefix(files[files.len() - 1].data@, 0).1;
                    s.dead@ == if raw.contains_key(lastg) && raw[lastg] > tlen {
                        raw.insert(lastg, tlen as usize)
                    } else {
                        raw
                    }
                })
            })
        },
        Err(e) => {
            &&& !(input_sorted(files) && sealed_ok(files) && files_fit(files, cap))
            &&& (!input_sorted(files) ==> e == KvsError::Config)
            &&& (input_sorted(files) ==> e == KvsError::Codec || e == KvsError::ValueTooLarge)
        },
    }
}

/// Finds the file holding generation `g`.
fn find_gen(files: &Vec<GenFile>, g: u64) -> (r: Option<usize>)
    ensures
        match r {
            Some(i) => i < files@.len() && files@[i as int].gen == g,
            None => !has_gen(files_v(files@), g),
        },
{
    let mut i: usize = 0;
    while i < files.len()
        invariant
            i <= files@.len(),
            forall|t: int| 0 <= t < i ==> (#[trigger] files@[t]).gen != g,
        decreases files@.len() - i,
    {
        if files[i].gen == g {
            return Some(i);
        }
        i = i + 1;
    }
    proof {
        assert forall|t: int| 0 <= t < files_v(files@).len() implies (#[trigger] files_v(
            files@,
        )[t]).gen != g by {
            assert(files_v(files@)[t] == files@[t]@);
        }
    }
    None
}

/// Accounts `amount` more dead bytes to generation `g`. The count is clamped
/// to the generation's current file size — the accounting itself never
/// reaches the clamp, but the bound [`dead_ok`] is kept self-evident. Returns
/// the new count, or `None` when no file holds `g`.
fn bump_dead(dead: &mut HashMap<u64, usize>, files: &Vec<GenFile>, g: u64, amount: usize) -> (r:
    Option<usize>)
    requires
        dead_ok(old(dead)@, files_v(files@)),
        gens_sorted(files_v(files@)),
    ensures
        dead_ok(final(dead)@, files_v(files@)),
        final(dead)@ == bumped(old(dead)@, files_v(files@), g, amount),
        r is Some <==> has_gen(files_v(files@), g),
        r matches Some(v) ==> final(dead)@ == old(dead)@.insert(g, v) && v == final(dead)@[g],
{
    match find_gen(files, g) {
        None => None,
        Some(i) => {
            proof {
                assert(files_v(files@)[i as int] == files@[i as int]@);
                lemma_gen_at(files_v(files@), i as int);
            }
            let size = files[i].data.len();
            let cur = match dead.get(&g) {
                Some(v) => *v,
                None => 0,
            };
            let room = size - cur;
            let add = if amount < room {
                amount
            } else {
                room
            };
            let nv = cur + add;
            dead.insert(g, nv);
            Some(nv)
        },
    }
}

/// Replays one decoded record into the directory and the dead-byte
/// accounting, as recovery prescribes: a `Put` points its key at the record
/// and kills any overwritten record; a `Tombstone` drops its key's entry,
/// killing both that record and itself.
fn replay_record(
    keydir: &mut KeyDir,
    dead: &mut HashMap<u64, usize>,
    files: &Vec<GenFile>,
    gen: u64,
    p: usize,
    r: LogRecord,
    rlen: usize,
    log: Ghost<Seq<LRec>>,
)
    requires
        dead_ok(old(dead)@, files_v(files@)),
        gens_sorted(files_v(files@)),
        old(keydir)@ == keydir_of(log@),
        rec_wf(r@),
        enc(r@).len() == rlen,
    ensures
        dead_ok(final(dead)@, files_v(files@)),
        final(keydir)@ == keydir_of(log@.push(LRec { gen, pos: p as int, rec: r@ })),
        final(dead)@ == dead_step(
            old(dead)@,
            files_v(files@),
            keydir_of(log@),
            LRec { gen, pos: p as int, rec: r@ },
        ),
{
    let ghost l = LRec { gen, pos: p as int, rec: r@ };
    match r {
        LogRecord::Put { key, value } => {
            proof {
                lemma_push_put(log@, l);
            }
            let prev = keydir.get(key.as_slice());
            keydir.insert(key, LogPos { gen, pos: p, len: rlen });
            if let Some(pv) = prev {
                bump_dead(dead, files, pv.gen, pv.len);
            }
        },
        LogRecord::Tombstone { key } => {
            proof {
                lemma_push_tombstone(log@, l);
            }
            let prev = keydir.remove(key.as_slice());
            if let Some(pv) = prev {
                bump_dead(dead, files, pv.gen, pv.len);
            }
            bump_dead(dead, files, gen, rlen);
        },
    }
}

/// The store: the generation files, the key directory, the dead-byte
/// accounting, and the bounds that drive rotation and compaction.
pub struct KvStore {
    pub files: Vec<GenFile>,
    pub keydir: KeyDir,
    pub dead: HashMap<u64, usize>,
    pub active_gen: u64,
    pub cap: usize,
    pub threshold: usize,
    pub recs: Ghost<Seq<Seq<Rec>>>,
}

impl View for KvStore {
    type V = Map<Seq<u8>, Seq<u8>>;

    open spec fn view(&self) -> Map<Seq<u8>, Seq<u8>> {
        view_of(log_of(self.fm()))
    }
}

impl KvStore {
    /// The shapes of the store's files.
    pub open spec fn fv(&self) -> Seq<FileV> {
        files_v(self.files@)
    }

    /// The store's files as sequences of records.
    pub open spec fn fm(&self) -> Seq<FileM> {
        Seq::new(
            self.files@.len(),
            |i: int| FileM { gen: self.files@[i].gen, recs: self.recs@[i] },
        )
    }

    /// The store's log: every record of every generation, in replay order.
    pub open spec fn log(&self) -> Seq<LRec> {
        log_of(self.fm())
    }

    /// The file structure is well formed: at least one generation, bytes that
    /// are exactly the records' encodings, strictly ascending generation
    /// numbers, well-formed records, and the largest generation active.
    pub open spec fn files_wf(&self) -> bool {
        &&& 0 < self.files@.len()
        &&& self.recs@.len() == self.files@.len()
        &&& (forall|i: int|
            0 <= i < self.files@.len() ==> (#[trigger] self.files@[i]).data@ == enc_file(
                self.recs@[i],
            ))
        &&& gens_sorted(self.fv())
        &&& (forall|i: int, j: int|
            0 <= i < self.recs@.len() && 0 <= j < self.recs@[i].len() ==> rec_wf(
                #[trigger] self.recs@[i][j],
            ) && enc(#[trigger] self.recs@[i][j]).len() <= self.cap)
        &&& self.active_gen == self.files@[self.files@.len() - 1].gen
        &&& 0 < self.threshold < self.cap
    }

    /// The store invariant: well-formed files, bounded dead-byte counts, and
    /// a key directory that equals the one replay would rebuild.
    pub open spec fn wf(&self) -> bool {
        &&& self.files_wf()
        &&& dead_ok(self.dead@, self.fv())
        &&& self.keydir@ == keydir_of(self.log())
    }

    /// Returns the store's files, for a caller that persists or inspects
    /// them; dropping the store needs no other flush.
    pub fn close(self) -> (r: Vec<GenFile>)
        ensures
            r@ == self.files@,
    {
        self.files
    }

    /// Borrows the store's files.
    pub fn files(&self) -> (r: &Vec<GenFile>)
        ensures
            r@ == self.files@,
    {
        &self.files
    }

    /// Opens the next generation for appends: the current active file is
    /// sealed and a fresh, empty one becomes active.
    fn rotate(&mut self, ops: &mut Vec<FileOp>)
        requires
            old(self).files_wf(),
            old(self).active_gen < u64::MAX,
        ensures
            final(self).files_wf(),
            final(self).keydir == old(self).keydir,
            final(self).dead == old(self).dead,
            final(self).cap == old(self).cap,
            final(self).threshold == old(self).threshold,
            final(self).active_gen == old(self).active_gen + 1,
            final(self).log() == old(self).log(),
            final(self).files@.len() == old(self).files@.len() + 1,
            final(self).files@[final(self).files@.len() - 1].data@ == Seq::<u8>::empty(),
            forall|t: int|
                0 <= t < old(self).files@.len() ==> final(self).files@[t] == old(self).files@[t]
                    && final(self).recs@[t] == old(self).recs@[t],
            final(self).fv() == old(self).fv().push(
                FileV { gen: final(self).active_gen, data: Seq::<u8>::empty() },
            ),
            final(ops)@.len() == old(ops)@.len() + 1,
            final(ops)@.last() matches FileOp::Append { gen, bytes } && gen == final(self).active_gen
                && bytes@ =~= Seq::<u8>::empty(),
            old(ops)@.is_prefix_of(final(ops)@),
            apply_ops(old(self).fv(), final(ops)@.skip(old(ops)@.len() as int)) == final(self).fv(),
            old(self).dead_ok_now() ==> final(self).dead_ok_now(),
    {
        let ghost ops0 = ops@;
        let ghost fv0 = self.fv();
        let g = self.active_gen + 1;
        proof {
            assert forall|t: int| 0 <= t < self.fv().len() implies (#[trigger] self.fv()[t]).gen
                < g by {
                if t < self.fv().len() - 1 {
                    assert(self.fv()[t].gen < self.fv()[self.fv().len() - 1].gen);
                }
            }
            assert(!has_gen(self.fv(), g));
            lemma_log_push_file(self.fm(), g);
        }
        let ghost fm_pre = self.fm();
        self.files.push(GenFile { gen: g, data: Vec::new() });
        self.recs = Ghost(self.recs@.push(Seq::empty()));
        self.active_gen = g;
        ops.push(FileOp::Append { gen: g, bytes: Vec::new() });
        proof {
            let op = ops@.last();
            assert(self.fm() =~= fm_pre.push(FileM { gen: g, recs: Seq::empty() }));
            assert(self.fv() =~= apply_op(fv0, op));
            assert(ops@.skip(ops0.len() as int) =~= seq![op]);
            assert(seq![op].drop_last() =~= Seq::<FileOp>::empty());
            assert(apply_ops(fv0, Seq::<FileOp>::empty()) == fv0);
            assert(apply_ops(fv0, seq![op]) == apply_op(fv0, op));
            if old(self).dead_ok_now() {
                assert forall|g2: u64| #[trigger] self.dead@.contains_key(g2) implies has_gen(
                    self.fv(),
                    g2,
                ) && self.dead@[g2] <= self.fv()[gen_index_of(self.fv(), g2)].data.len() by {
                    let i0 = gen_index_of(fv0, g2);
                    assert(0 <= i0 < fv0.len() && fv0[i0].gen == g2);
                    assert(self.fv()[i0] == fv0[i0]);
                    assert(has_gen(self.fv(), g2));
                    lemma_gen_at(self.fv(), i0);
                }
            }
        }
    }

    /// Appends one encoded record to the active generation, rotating to a
    /// fresh generation first when the record would not fit under the size
    /// cap. Returns the record's log position.
    fn append_record(&mut self, bytes: Vec<u8>, rec: Ghost<Rec>, ops: &mut Vec<FileOp>) -> (r:
        LogPos)
        requires
            old(self).files_wf(),
            rec_wf(rec@),
            bytes@ == enc(rec@),
            bytes@.len() <= old(self).cap,
        ensures
            final(self).files_wf(),
            final(self).keydir == old(self).keydir,
            final(self).dead == old(self).dead,
            final(self).cap == old(self).cap,
            final(self).threshold == old(self).threshold,
            final(self).active_gen >= old(self).active_gen,
            r.gen == final(self).active_gen,
            r.len == bytes@.len(),
            final(self).log() == old(self).log().push(
                LRec { gen: r.gen, pos: r.pos as int, rec: rec@ },
            ),
            final(self).files@.len() >= old(self).files@.len(),
            forall|t: int|
                0 <= t < old(self).files@.len() - 1 ==> final(self).files@[t]
                    == old(self).files@[t] && final(self).recs@[t] == old(self).recs@[t],
            old(ops)@.is_prefix_of(final(ops)@),
            apply_ops(old(self).fv(), final(ops)@.skip(old(ops)@.len() as int)) == final(self).fv(),
            appended_files(
                *old(self),
                *final(self),
                rec@,
                r,
                final(ops)@.skip(old(ops)@.len() as int),
            ),
            old(self).dead_ok_now() ==> final(self).dead_ok_now(),
    {
        let ghost ops0 = ops@;
        let ghost fv0 = self.fv();
        let ghost rotated = false;
        let last0 = self.files.len() - 1;
        let wpos = self.files[last0].data.len();
        if wpos > self.cap - bytes.len() && self.active_gen < u64::MAX {
            self.rotate(ops);
            proof {
                rotated = true;
            }
        }
        proof {
            if ops@.len() == ops0.len() {
                assert(ops@ =~= ops0);
                assert(ops@.skip(ops0.len() as int) =~= Seq::<FileOp>::empty());
            }
            assert(apply_ops(fv0, ops@.skip(ops0.len() as int)) == self.fv());
        }
        let ghost ops1 = ops@;
        let ghost fv1 = self.fv();
        let ghost fm1 = self.fm();
        let ghost log1 = self.log();
        let last = self.files.len() - 1;
        let pos = self.files[last].data.len();
        let len = bytes.len();
        let gen = self.active_gen;
        proof {
            assert(fv1[last as int].gen == gen);
            lemma_gen_at(fv1, last as int);
        }
        let mut f = match self.files.pop() {
            Some(f) => f,
            None => {
                proof {
                    assert(false);
                }
                GenFile { gen: 0, data: Vec::new() }
            },
        };
        f.data.extend_from_slice(bytes.as_slice());
        self.files.push(f);
        self.recs = Ghost(self.recs@.update(last as int, self.recs@[last as int].push(rec@)));
        ops.push(FileOp::Append { gen, bytes });
        let lp = LogPos { gen, pos, len };
        proof {
            let op = ops@.last();
            assert(self.files@[last as int].data@ == fv1[last as int].data + enc(rec@));
            lemma_enc_file_push(fm1[last as int].recs, rec@);
            lemma_log_push_rec(fm1, rec@);
            assert(self.fm() =~= fm1.update(
                last as int,
                FileM { gen, recs: fm1[last as int].recs.push(rec@) },
            ));
            assert(self.log() == log1.push(LRec { gen, pos: pos as int, rec: rec@ }));
            assert(self.fv() =~= apply_op(fv1, op));
            lemma_apply_ops_push(fv0, ops1.skip(ops0.len() as int), op);
            assert(ops@.skip(ops0.len() as int) =~= ops1.skip(ops0.len() as int).push(op));
            assert(apply_ops(fv0, ops@.skip(ops0.len() as int)) == self.fv());
            assert(self.files_wf()) by {
                assert forall|i: int, j: int|
                    0 <= i < self.recs@.len() && 0 <= j < self.recs@[i].len() implies rec_wf(
                    #[trigger] self.recs@[i][j],
                ) && enc(#[trigger] self.recs@[i][j]).len() <= self.cap by {
                    if i == last as int && j < self.recs@[i].len() - 1 {
                        assert(self.recs@[i][j] == fm1[i].recs[j]);
                    }
                }
            }
            if old(self).dead_ok_now() {
                assert forall|g2: u64| #[trigger] self.dead@.contains_key(g2) implies has_gen(
                    self.fv(),
                    g2,
                ) && self.dead@[g2] <= self.fv()[gen_index_of(self.fv(), g2)].data.len() by {
                    let i0 = gen_index_of(fv1, g2);
                    assert(0 <= i0 < fv1.len() && fv1[i0].gen == g2);
                    assert(self.fv()[i0].gen == g2);
                    assert(has_gen(self.fv(), g2));
                    lemma_gen_at(self.fv(), i0);
                    assert(self.fv()[i0].data.len() >= fv1[i0].data.len());
                }
            }
            let wops = ops@.skip(ops0.len() as int);
            let e = enc(rec@);
            if rotated {
                assert(self.fv() =~= fv0.push(FileV { gen: self.active_gen, data: e })) by {
                    assert(fv1 == fv0.push(
                        FileV { gen: self.active_gen, data: Seq::<u8>::empty() },
                    ));
                    assert(fv1[last as int].data + e =~= e);
                }
                assert(wops.len() == 2);
                assert(wops[1] == op);
                assert(wops[0] == ops1.last());
            } else {
                assert(ops1 =~= ops0);
                assert(wops.len() == 1);
                assert(wops[0] == op);
                assert(self.fv() =~= fv0.update(
                    last as int,
                    FileV { gen: self.active_gen, data: fv0[last as int].data + e },
                ));
            }
            assert(appended_files(*old(self), *self, rec@, lp, wops));
        }
        lp
    }

    /// Opens a store from the contents of a directory's generation files,
    /// given in ascending generation order, with the reference size cap and
    /// compaction threshold.
    pub fn open(files: Vec<GenFile>) -> (r: Result<KvStore, KvsError>)
        ensures
            open_post(files@, MAX_FILE_SIZE, COMPACTION_THRESHOLD, r),
    {
        KvStore::open_with_limits(files, MAX_FILE_SIZE, COMPACTION_THRESHOLD)
    }

    /// Opens a store from the contents of a directory's generation files,
    /// given in ascending generation order. The key directory and the
    /// dead-byte accounting are rebuilt by replaying every generation from
    /// offset zero; a hint cache is never trusted over the log itself. When
    /// no file is given, generation `0` starts empty. A trailing partial
    /// record on the active (last) generation is treated as unwritten and cut
    /// off; a sealed generation that does not decode in full signals data
    /// loss and fails with `Codec`; files out of order fail with `Config`.
    #[verifier::rlimit(60)]
    pub fn open_with_limits(files: Vec<GenFile>, cap: usize, threshold: usize) -> (r: Result<
        KvStore,
        KvsError,
    >)
        requires
            0 < threshold < cap,
        ensures
            open_post(files@, cap, threshold, r),
    {
        let ghost inp = files@;
        let n0 = files.len();
        let mut i: usize = 1;
        while i < n0
            invariant
                inp == files@,
                n0 == files@.len(),
                1 <= i,
                n0 == 0 || i <= n0,
                forall|a: int, b: int| 0 <= a < b < i ==> files@[a].gen < files@[b].gen,
            decreases n0 - i,
        {
            if files[i - 1].gen >= files[i].gen {
                proof {
                    assert(files_v(inp)[i - 1].gen == files@[i - 1].gen);
                    assert(files_v(inp)[i as int].gen == files@[i as int].gen);
                    assert(!input_sorted(inp));
                }
                return Err(KvsError::Config);
            }
            i = i + 1;
        }
        proof {
            assert forall|a: int, b: int| 0 <= a < b < files_v(inp).len() implies (
            #[trigger] files_v(inp)[a]).gen < (#[trigger] files_v(inp)[b]).gen by {
                assert(files_v(inp)[a].gen == inp[a].gen);
                assert(files_v(inp)[b].gen == inp[b].gen);
            }
            assert(input_sorted(inp));
        }
        let mut work = files;
        if work.len() == 0 {
            work.push(GenFile { gen: 0, data: Vec::new() });
        }
        let ghost fin = work@;
        let n = work.len();
        proof {
            assert forall|a: int, b: int| 0 <= a < b < files_v(fin).len() implies (
            #[trigger] files_v(fin)[a]).gen < (#[trigger] files_v(fin)[b]).gen by {
                assert(files_v(fin)[a].gen == fin[a].gen);
                assert(files_v(fin)[b].gen == fin[b].gen);
            }
        }
        let mut keydir = KeyDir::new();
        let mut dead: HashMap<u64, usize> = HashMap::new();
        let ghost mut fsm: Seq<FileM> = Seq::empty();
        let ghost mut log: Seq<LRec> = Seq::empty();
        proof {
            assert(keydir@ =~= keydir_of(log));
            assert(dead_ok(dead@, files_v(fin)));
            assert(dead@ =~= Map::<u64, usize>::empty());
            assert(dead@ == replay_dead(log, files_v(fin)));
        }
        let mut fi: usize = 0;
        while fi + 1 < n
            invariant
                inp == files@,
                n == work@.len(),
                work@ == fin,
                0 < n,
                fi + 1 <= n,
                0 < threshold < cap,
                n0 > 0 ==> fin == inp,
                n0 == 0 ==> n == 1 && fin[0].data@.len() == 0,
                gens_sorted(files_v(fin)),
                fsm.len() == fi as int,
                log == log_of(fsm),
                keydir@ == keydir_of(log),
                dead_ok(dead@, files_v(fin)),
                dead@ == replay_dead(log, files_v(fin)),
                forall|t: int| 0 <= t < fi ==> (#[trigger] fsm[t]).gen == fin[t].gen,
                forall|t: int| 0 <= t < fi ==> fin[t].data@ == enc_file((#[trigger] fsm[t]).recs),
                forall|t: int|
                    0 <= t < fi ==> parse_prefix(fin[t].data@, 0) == ((#[trigger] fsm[t]).recs, fin[t].data@.len() as int),
                forall|t: int, u: int|
                    0 <= t < fsm.len() && 0 <= u < fsm[t].recs.len() ==> rec_wf(
                        #[trigger] fsm[t].recs[u],
                    ) && enc(#[trigger] fsm[t].recs[u]).len() <= cap,
            decreases n - fi,
        {
            let gen = work[fi].gen;
            let flen = work[fi].data.len();
            let mut p: usize = 0;
            let ghost mut frecs: Seq<Rec> = Seq::empty();
            proof {
                assert(log + locate(gen, frecs) =~= log);
            }
            while p < flen
                invariant
                    inp == files@,
                    n == work@.len(),
                    work@ == fin,
                    fi + 1 < n,
                    0 < threshold < cap,
                    n0 > 0 ==> fin == inp,
                    n0 == 0 ==> n == 1 && fin[0].data@.len() == 0,
                    gens_sorted(files_v(fin)),
                    fsm.len() == fi as int,
                    log == log_of(fsm),
                    dead_ok(dead@, files_v(fin)),
                    gen == fin[fi as int].gen,
                    flen == fin[fi as int].data@.len(),
                    p <= flen,
                    p == enc_file(frecs).len(),
                    dead@ == replay_dead(log + locate(gen, frecs), files_v(fin)),
                    fin[fi as int].data@.subrange(0, p as int) == enc_file(frecs),
                    forall|u: int|
                        0 <= u < frecs.len() ==> rec_wf(#[trigger] frecs[u]) && enc(
                            #[trigger] frecs[u],
                        ).len() <= cap,
                    keydir@ == keydir_of(log + locate(gen, frecs)),
                    parse_prefix(fin[fi as int].data@, 0) == (
                        frecs + parse_prefix(fin[fi as int].data@, p as int).0,
                        parse_prefix(fin[fi as int].data@, p as int).1,
                    ),
                decreases flen - p,
            {
                match decode(work[fi].data.as_slice(), p) {
                    Err(_) => {
                        proof {
                            assert(n0 > 0);
                            assert(fin == inp);
                            assert(parse_prefix(inp[fi as int].data@, 0).1 == p as int);
                            assert(!sealed_ok(inp));
                            assert(input_sorted(inp)) by {
                                assert forall|a: int, b: int|
                                    0 <= a < b < files_v(inp).len() implies (#[trigger] files_v(
                                    inp,
                                )[a]).gen < (#[trigger] files_v(inp)[b]).gen by {
                                    assert(files_v(fin)[a].gen < files_v(fin)[b].gen);
                                }
                            }
                        }
                        return Err(KvsError::Codec);
                    },
                    Ok((r, rlen)) => {
                        proof {
                            lemma_enc_decode(fin[fi as int].data@, p as int, r@, rlen as int);
                        }
                        if rlen > cap {
                            proof {
                                let d = fin[fi as int].data@;
                                assert(parse_prefix(d, p as int).0[0] == r@);
                                assert((frecs + parse_prefix(d, p as int).0)[frecs.len() as int]
                                    == r@);
                                assert(!recs_fit(parse_prefix(d, 0).0, cap));
                                assert(fin == inp);
                                assert(!files_fit(inp, cap));
                                assert(input_sorted(inp)) by {
                                    assert forall|a: int, b: int|
                                        0 <= a < b < files_v(inp).len() implies (
                                    #[trigger] files_v(inp)[a]).gen < (#[trigger] files_v(
                                        inp,
                                    )[b]).gen by {
                                        assert(files_v(fin)[a].gen < files_v(fin)[b].gen);
                                    }
                                }
                            }
                            return Err(KvsError::ValueTooLarge);
                        }
                        proof {
                            lemma_locate_push(gen, frecs, r@);
                            assert(log + locate(gen, frecs.push(r@)) =~= (log + locate(
                                gen,
                                frecs,
                            )).push(LRec { gen, pos: p as int, rec: r@ }));
                        }
                        replay_record(
                            &mut keydir,
                            &mut dead,
                            &work,
                            gen,
                            p,
                            r,
                            rlen,
                            Ghost(log + locate(gen, frecs)),
                        );
                        proof {
                            let d = fin[fi as int].data@;
                            let fold = frecs;
                            frecs = fold.push(r@);
                            lemma_enc_file_push(fold, r@);
                            let l = LRec { gen, pos: p as int, rec: r@ };
                            assert((log + locate(gen, frecs)).drop_last() =~= log + locate(
                                gen,
                                fold,
                            ));
                            assert((log + locate(gen, frecs)).last() == l);
                            assert(dead@ == replay_dead(log + locate(gen, frecs), files_v(fin)));
                            assert(d.subrange(0, p + rlen) =~= d.subrange(0, p as int)
                                + d.subrange(p as int, p + rlen));
                            assert(parse_prefix(d, 0) == (
                                frecs + parse_prefix(d, p + rlen).0,
                                parse_prefix(d, p + rlen).1,
                            )) by {
                                assert(frecs + parse_prefix(d, p + rlen).0 =~= fold + (seq![r@]
                                    + parse_prefix(d, p + rlen).0));
                            }
                        }
                        p = p + rlen;
                    },
                }
            }
            proof {
                let d = fin[fi as int].data@;
                assert(d =~= d.subrange(0, flen as int));
                assert(parse_prefix(d, flen as int) == (Seq::<Rec>::empty(), flen as int));
                assert(parse_prefix(d, 0) == (frecs, flen as int)) by {
                    assert(frecs + Seq::<Rec>::empty() =~= frecs);
                }
                let fsm0 = fsm;
                fsm = fsm0.push(FileM { gen, recs: frecs });
                log = log + locate(gen, frecs);
                assert(fsm.drop_last() =~= fsm0);
                assert(log == log_of(fsm));
                assert(dead@ == replay_dead(log, files_v(fin)));
            }
            fi = fi + 1;
        }
        let gen = work[n - 1].gen;
        let flen = work[n - 1].data.len();
        let mut p: usize = 0;
        let mut clean = true;
        let ghost mut frecs: Seq<Rec> = Seq::empty();
        proof {
            assert(log + locate(gen, frecs) =~= log);
        }
        while clean && p < flen
            invariant
                inp == files@,
                n == work@.len(),
                work@ == fin,
                0 < n,
                0 < threshold < cap,
                n0 > 0 ==> fin == inp,
                n0 == 0 ==> n == 1 && fin[0].data@.len() == 0,
                gens_sorted(files_v(fin)),
                fsm.len() == n - 1,
                log == log_of(fsm),
                dead_ok(dead@, files_v(fin)),
                forall|t: int| 0 <= t < n - 1 ==> (#[trigger] fsm[t]).gen == fin[t].gen,
                forall|t: int|
                    0 <= t < n - 1 ==> fin[t].data@ == enc_file((#[trigger] fsm[t]).recs),
                forall|t: int|
                    0 <= t < n - 1 ==> parse_prefix(fin[t].data@, 0) == ((#[trigger] fsm[t]).recs, fin[t].data@.len() as int),
                forall|t: int, u: int|
                    0 <= t < fsm.len() && 0 <= u < fsm[t].recs.len() ==> rec_wf(
                        #[trigger] fsm[t].recs[u],
                    ) && enc(#[trigger] fsm[t].recs[u]).len() <= cap,
                gen == fin[n - 1].gen,
                flen == fin[n - 1].data@.len(),
                p <= flen,
                p == enc_file(frecs).len(),
                dead@ == replay_dead(log + locate(gen, frecs), files_v(fin)),
                fin[n - 1].data@.subrange(0, p as int) == enc_file(frecs),
                forall|u: int|
                    0 <= u < frecs.len() ==> rec_wf(#[trigger] frecs[u]) && enc(
                        #[trigger] frecs[u],
                    ).len() <= cap,
                keydir@ == keydir_of(log + locate(gen, frecs)),
                parse_prefix(fin[n - 1].data@, 0) == (
                    frecs + parse_prefix(fin[n - 1].data@, p as int).0,
                    parse_prefix(fin[n - 1].data@, p as int).1,
                ),
                !clean ==> spec_decode(fin[n - 1].data@, p as int) is None,
            decreases flen - p + (if clean { 1int } else { 0int }),
        {
            match decode(work[n - 1].data.as_slice(), p) {
                Err(_) => {
                    clean = false;
                },
                Ok((r, rlen)) => {
                    proof {
                        lemma_enc_decode(fin[n - 1].data@, p as int, r@, rlen as int);
                        assert(n0 > 0) by {
                            if n0 == 0 {
                                assert(fin[0].data@.len() == 0);
                            }
                        }
                    }
                    if rlen > cap {
                        proof {
                            let d = fin[n - 1].data@;
                            assert(parse_prefix(d, p as int).0[0] == r@);
                            assert((frecs + parse_prefix(d, p as int).0)[frecs.len() as int]
                                == r@);
                            assert(!recs_fit(parse_prefix(d, 0).0, cap));
                            assert(fin == inp);
                            assert(!files_fit(inp, cap));
                            assert(input_sorted(inp)) by {
                                assert forall|a: int, b: int|
                                    0 <= a < b < files_v(inp).len() implies (#[trigger] files_v(
                                    inp,
                                )[a]).gen < (#[trigger] files_v(inp)[b]).gen by {
                                    assert(files_v(fin)[a].gen < files_v(fin)[b].gen);
                                }
                            }
                        }
                        return Err(KvsError::ValueTooLarge);
                    }
                    proof {
                        lemma_locate_push(gen, frecs, r@);
                        assert(log + locate(gen, frecs.push(r@)) =~= (log + locate(
                            gen,
                            frecs,
                        )).push(LRec { gen, pos: p as int, rec: r@ }));
                    }
                    replay_record(
                        &mut keydir,
                        &mut dead,
                        &work,
                        gen,
                        p,
                        r,
                        rlen,
                        Ghost(log + locate(gen, frecs)),
                    );
                    proof {
                        let d = fin[n - 1].data@;
                        let fold = frecs;
                        frecs = fold.push(r@);
                        lemma_enc_file_push(fold, r@);
                        let l = LRec { gen, pos: p as int, rec: r@ };
                        assert((log + locate(gen, frecs)).drop_last() =~= log + locate(gen, fold));
                        assert((log + locate(gen, frecs)).last() == l);
                        assert(dead@ == replay_dead(log + locate(gen, frecs), files_v(fin)));
                        assert(d.subrange(0, p + rlen) =~= d.subrange(0, p as int) + d.subrange(
                            p as int,
                            p + rlen,
                        ));
                        assert(parse_prefix(d, 0) == (
                            frecs + parse_prefix(d, p + rlen).0,
                            parse_prefix(d, p + rlen).1,
                        )) by {
                            assert(frecs + parse_prefix(d, p + rlen).0 =~= fold + (seq![r@]
                                + parse_prefix(d, p + rlen).0));
                        }
                    }
                    p = p + rlen;
                },
            }
        }
        proof {
            let d = fin[n - 1].data@;
            if clean {
                assert(p == flen);
                assert(parse_prefix(d, flen as int) == (Seq::<Rec>::empty(), flen as int));
            }
            assert(parse_prefix(d, p as int).0 =~= Seq::<Rec>::empty());
            assert(parse_prefix(d, 0) == (frecs, p as int)) by {
                assert(frecs + Seq::<Rec>::empty() =~= frecs);
            }
        }
        if p < flen {
            let mut f = match work.pop() {
                Some(f) => f,
                None => {
                    proof {
                        assert(false);
                    }
                    GenFile { gen: 0, data: Vec::new() }
                },
            };
            f.data.truncate(p);
            work.push(f);
        }
        let ghost ftrunc = work@;
        proof {
            assert(ftrunc.len() == n);
            assert(ftrunc[n - 1].gen == gen);
            if p == flen {
                assert(fin[n - 1].data@.subrange(0, p as int) =~= fin[n - 1].data@);
            }
            assert(ftrunc[n - 1].data@ == fin[n - 1].data@.subrange(0, p as int));
            assert forall|t: int| 0 <= t < n - 1 implies ftrunc[t] == fin[t] by {}
            assert forall|a: int, b: int| 0 <= a < b < files_v(ftrunc).len() implies (
            #[trigger] files_v(ftrunc)[a]).gen < (#[trigger] files_v(ftrunc)[b]).gen by {
                assert(files_v(ftrunc)[a].gen == files_v(fin)[a].gen);
                assert(files_v(ftrunc)[b].gen == files_v(fin)[b].gen);
            }
        }
        let ghost raw = dead@;
        if p < flen {
            let cur = match dead.get(&gen) {
                Some(v) => *v,
                None => 0,
            };
            if cur > p {
                dead.insert(gen, p);
            }
        }
        proof {
            assert(dead@ == if raw.contains_key(gen) && raw[gen] > p as int {
                raw.insert(gen, p)
            } else {
                raw
            });
        }
        proof {
            assert(dead_ok(dead@, files_v(ftrunc))) by {
                assert forall|g2: u64| #[trigger] dead@.contains_key(g2) implies has_gen(
                    files_v(ftrunc),
                    g2,
                ) && dead@[g2] <= files_v(ftrunc)[gen_index_of(files_v(ftrunc), g2)].data.len() by {
                    let i0 = gen_index_of(files_v(fin), g2);
                    assert(0 <= i0 < files_v(fin).len() && files_v(fin)[i0].gen == g2);
                    assert(files_v(ftrunc)[i0].gen == g2);
                    assert(has_gen(files_v(ftrunc), g2));
                    lemma_gen_at(files_v(ftrunc), i0);
                    if i0 < n - 1 {
                        assert(files_v(ftrunc)[i0].data == files_v(fin)[i0].data);
                    }
                }
            }
            let fsm0 = fsm;
            fsm = fsm0.push(FileM { gen, recs: frecs });
            log = log + locate(gen, frecs);
            assert(fsm.drop_last() =~= fsm0);
            assert(log == log_of(fsm));
            assert(raw == replay_dead(log, files_v(fin)));
        }
        let active_gen = work[n - 1].gen;
        let st = KvStore {
            files: work,
            keydir,
            dead,
            active_gen,
            cap,
            threshold,
            recs: Ghost(Seq::new(fsm.len(), |t: int| fsm[t].recs)),
        };
        proof {
            assert(st.fm() =~= fsm);
            assert(st.fv() =~= files_v(ftrunc));
            assert(st.files_wf()) by {
                assert(st.files@[n - 1].data@ == enc_file(st.recs@[n - 1]));
            }
            assert(st.keydir@ == keydir_of(st.log()));
            assert(files_fit(inp, cap)) by {
                if inp.len() > 0 {
                    assert forall|i2: int| 0 <= i2 < inp.len() implies recs_fit(
                        parse_prefix((#[trigger] inp[i2]).data@, 0).0,
                        cap,
                    ) by {
                        if i2 < n - 1 {
                            assert(parse_prefix(fin[i2].data@, 0).0 == fsm[i2].recs);
                        } else {
                            assert(parse_prefix(fin[i2].data@, 0).0 == frecs);
                        }
                    }
                }
            }
            assert(open_post(inp, cap, threshold, Ok(st))) by {
                if inp.len() == 0 {
                    assert(st@ =~= Map::<Seq<u8>, Seq<u8>>::empty()) by {
                        assert(locate(0u64, Seq::<Rec>::empty()) =~= Seq::<LRec>::empty());
                        assert(log_of(fsm) =~= Seq::<LRec>::empty());
                        assert forall|k: Seq<u8>| !st@.contains_key(k) by {
                            assert(last_for(Seq::<LRec>::empty(), k) == -1);
                        }
                    }
                } else {
                    assert(sealed_ok(inp));
                    let fsm_spec = Seq::new(
                        inp.len(),
                        |i: int| FileM { gen: inp[i].gen, recs: parse_prefix(inp[i].data@, 0).0 },
                    );
                    assert(fsm_spec =~= fsm) by {
                        assert forall|i: int| 0 <= i < inp.len() implies fsm_spec[i] == fsm[i] by {
                            if i < n - 1 {
                                assert(parse_prefix(fin[i].data@, 0).0 == fsm[i].recs);
                            } else {
                                assert(parse_prefix(fin[i].data@, 0).0 == frecs);
                                assert(fsm[i] == FileM { gen, recs: frecs });
                            }
                        }
                    }
                    assert(files_v(inp) == files_v(fin));
                    assert(raw == replay_dead(log_of(fsm_spec), files_v(inp)));
                    assert(parse_prefix(inp[n - 1].data@, 0).1 == p as int);
                    assert(dead_ok(raw, files_v(fin)));
                    assert(raw.contains_key(gen) ==> raw[gen] <= flen as int) by {
                        if raw.contains_key(gen) {
                            assert(files_v(fin)[n - 1].gen == gen);
                            lemma_gen_at(files_v(fin), n - 1);
                        }
                    }
                    assert(st.dead@ == if raw.contains_key(gen) && raw[gen] > p as int {
                        raw.insert(gen, p)
                    } else {
                        raw
                    });
                }
            }
        }
        Ok(st)
    }

    /// Looks `key` up: `Ok(Some(value))` for a live key, `Ok(None)` for an
    /// absent one. Reads of the in-memory state cannot fail.
    pub fn get(&self, key: &[u8]) -> (r: Result<Option<Vec<u8>>, KvsError>)
        requires
            self.wf(),
        ensures
            match r {
                Ok(v) => {
                    &&& (v matches Some(b) ==> self@.contains_key(key@) && b@ == self@[key@])
                    &&& (v is None <==> !self@.contains_key(key@))
                },
                Err(_) => false,
            },
    {
        let lp = match self.keydir.get(key) {
            None => {
                return Ok(None);
            },
            Some(lp) => lp,
        };
        proof {
            assert(live_at(self.log(), key@));
            lemma_last_for(self.log(), key@);
            lemma_log_index(self.fm(), last_for(self.log(), key@));
        }
        let ghost idx = last_for(self.log(), key@);
        let ghost l = self.log()[idx];
        let ghost (fi, ri) = choose|fi: int, ri: int|
            0 <= fi < self.fm().len() && 0 <= ri < self.fm()[fi].recs.len()
                && #[trigger] log_of(self.fm())[idx] == locate(
                self.fm()[fi].gen,
                self.fm()[fi].recs,
            )[ri] && log_of(self.fm())[idx].gen == self.fm()[fi].gen && log_of(self.fm())[idx].rec
                == self.fm()[fi].recs[ri] && log_of(self.fm())[idx].pos == rec_pos(
                self.fm()[fi].recs,
                ri,
            );
        proof {
            lemma_enc_file_extract(self.recs@[fi], ri);
            assert(self.fv()[fi].gen == l.gen);
            assert(has_gen(self.fv(), lp.gen));
        }
        let i = match find_gen(&self.files, lp.gen) {
            Some(i) => i,
            None => {
                proof {
                    assert(false);
                }
                return Err(KvsError::Codec);
            },
        };
        proof {
            assert(self.fv()[i as int].gen == lp.gen);
            lemma_gen_at(self.fv(), i as int);
            lemma_gen_at(self.fv(), fi);
            assert(i as int == fi);
            assert(l.pos == rec_pos(self.recs@[fi], ri));
            assert(0 <= l.pos && l.pos + enc(l.rec).len() <= self.files@[fi].data@.len());
            assert(self.files@[fi].data.len() == self.files@[fi].data@.len());
            assert(l.pos <= usize::MAX);
            assert(lp.pos as int == l.pos);
            assert(self.files@[fi].data@.subrange(l.pos, l.pos + enc(l.rec).len()) == enc(l.rec));
            lemma_decode_enc(l.rec, self.files@[fi].data@, l.pos);
        }
        match decode(self.files[i].data.as_slice(), lp.pos) {
            Ok((LogRecord::Put { key: _k, value }, _n)) => Ok(Some(value)),
            _ => {
                proof {
                    assert(false);
                }
                Err(KvsError::Codec)
            },
        }
    }

    /// Maps `key` to `value`: appends a `Put` record, points the key
    /// directory at it, and accounts any overwritten record as dead against
    /// its generation. When that charge pushes a sealed generation past the
    /// compaction threshold, the generation is compacted before returning. A
    /// record that could not fit one generation file is rejected.
    pub fn set(&mut self, key: &[u8], value: &[u8]) -> (r: Result<Vec<FileOp>, KvsError>)
        requires
            old(self).wf(),
            key@.len() > 0,
        ensures
            final(self).wf(),
            final(self).cap == old(self).cap,
            final(self).threshold == old(self).threshold,
            r is Ok <==> put_len(key@, value@) <= old(self).cap,
            match r {
                Ok(ops) => {
                    &&& final(self)@ == old(self)@.insert(key@, value@)
                    &&& apply_ops(old(self).fv(), ops@) == final(self).fv()
                    &&& exists|mid: KvStore, lp: LogPos, wops: Seq<FileOp>|
                        {
                            &&& #[trigger] put_step(*old(self), mid, key@, value@, lp, wops)
                            &&& mid.wf()
                            &&& wops.is_prefix_of(ops@)
                            &&& if compaction_due(*old(self), mid, key@) {
                                compacted(
                                    mid,
                                    *final(self),
                                    old(self).keydir@[key@].gen,
                                    ops@.skip(wops.len() as int),
                                )
                            } else {
                                *final(self) == mid && ops@ == wops
                            }
                        }
                },
                Err(e) => e == KvsError::ValueTooLarge && *final(self) == *old(self),
            },
    {
        let bytes = encode_put(key, value);
        if bytes.len() > self.cap {
            return Err(KvsError::ValueTooLarge);
        }
        let ghost rec = Rec::Put { key: key@, value: value@ };
        let mut ops: Vec<FileOp> = Vec::new();
        let ghost log0 = self.log();
        proof {
            lemma_enc_len(rec);
        }
        let lp = self.append_record(bytes, Ghost(rec), &mut ops);
        let ghost sa = *self;
        proof {
            lemma_push_put(log0, LRec { gen: lp.gen, pos: lp.pos as int, rec });
        }
        let prev = self.keydir.get(key);
        let kv = vstd::slice::slice_to_vec(key);
        self.keydir.insert(kv, lp);
        proof {
            assert(ops@.skip(0) =~= ops@);
            assert(self.keydir@ == keydir_of(self.log()));
            assert(self@ == old(self)@.insert(key@, value@));
        }
        if let Some(pv) = prev {
            bump_dead(&mut self.dead, &self.files, pv.gen, pv.len);
        }
        let ghost mid = *self;
        let ghost wops = ops@;
        proof {
            assert(wops =~= ops@.skip(0));
            assert(mid.fv() =~= sa.fv());
            assert(mid.fm() =~= sa.fm());
            assert(appended_files(*old(self), mid, rec, lp, wops));
            assert(put_step(*old(self), mid, key@, value@, lp, wops));
            assert(mid.wf());
            assert(wops.is_prefix_of(ops@)) by {
                assert(wops =~= ops@.take(wops.len() as int));
            }
        }
        if let Some(pv) = prev {
            let due = match self.dead.get(&pv.gen) {
                Some(d) => *d >= self.threshold && pv.gen != self.active_gen,
                None => false,
            };
            if due {
                proof {
                    assert(compaction_due(*old(self), mid, key@));
                    assert(has_gen(mid.fv(), pv.gen));
                    assert(apply_ops(old(self).fv(), wops.skip(0)) == mid.fv()) by {
                        assert(wops.skip(0) =~= wops);
                    }
                    assert(Seq::<FileOp>::empty().is_prefix_of(wops)) by {
                        assert(Seq::<FileOp>::empty() =~= wops.take(0));
                    }
                }
                self.compact(pv.gen, &mut ops);
                proof {
                    lemma_ops_compose(
                        old(self).fv(),
                        mid.fv(),
                        self.fv(),
                        Seq::<FileOp>::empty(),
                        wops,
                        ops@,
                    );
                    assert(ops@.skip(0) =~= ops@);
                    assert(compacted(mid, *self, pv.gen, ops@.skip(wops.len() as int)));
                }
            } else {
                proof {
                    assert(!compaction_due(*old(self), mid, key@));
                }
            }
        } else {
            proof {
                assert(!compaction_due(*old(self), mid, key@));
            }
        }
        Ok(ops)
    }

    /// Removes `key`: appends a `Tombstone`, drops the directory entry, and
    /// accounts both the overwritten record and the tombstone itself as dead.
    /// When the charge pushes a sealed generation past the compaction
    /// threshold, that generation is compacted before returning. Fails with
    /// `KeyNotFound` when the key has no mapping.
    pub fn remove(&mut self, key: &[u8]) -> (r: Result<Vec<FileOp>, KvsError>)
        requires
            old(self).wf(),
        ensures
            final(self).wf(),
            final(self).cap == old(self).cap,
            final(self).threshold == old(self).threshold,
            r is Ok <==> old(self)@.contains_key(key@),
            match r {
                Ok(ops) => {
                    &&& final(self)@ == old(self)@.remove(key@)
                    &&& apply_ops(old(self).fv(), ops@) == final(self).fv()
                    &&& exists|mid: KvStore, lp: LogPos, wops: Seq<FileOp>|
                        {
                            &&& #[trigger] remove_step(*old(self), mid, key@, lp, wops)
                            &&& mid.wf()
                            &&& wops.is_prefix_of(ops@)
                            &&& if compaction_due(*old(self), mid, key@) {
                                compacted(
                                    mid,
                                    *final(self),
                                    old(self).keydir@[key@].gen,
                                    ops@.skip(wops.len() as int),
                                )
                            } else {
                                *final(self) == mid && ops@ == wops
                            }
                        }
                },
                Err(e) => *final(self) == *old(self) && e == KvsError::KeyNotFound,
            },
    {
        let prev = match self.keydir.get(key) {
            None => {
                return Err(KvsError::KeyNotFound);
            },
            Some(p) => p,
        };
        proof {
            assert(live_at(self.log(), key@));
            lemma_last_for(self.log(), key@);
            lemma_log_index(self.fm(), last_for(self.log(), key@));
            assert(rec_key(self.log()[last_for(self.log(), key@)].rec) == key@);
            assert(key@.len() > 0);
            let l = self.log()[last_for(self.log(), key@)];
            let (fi, ri) = choose|fi: int, ri: int|
                0 <= fi < self.fm().len() && 0 <= ri < self.fm()[fi].recs.len()
                    && #[trigger] log_of(self.fm())[last_for(self.log(), key@)] == locate(
                    self.fm()[fi].gen,
                    self.fm()[fi].recs,
                )[ri] && log_of(self.fm())[last_for(self.log(), key@)].gen == self.fm()[fi].gen
                    && log_of(self.fm())[last_for(self.log(), key@)].rec
                    == self.fm()[fi].recs[ri] && log_of(self.fm())[last_for(
                    self.log(),
                    key@,
                )].pos == rec_pos(self.fm()[fi].recs, ri);
            assert(l.rec == self.recs@[fi][ri]);
            assert(enc(l.rec).len() <= self.cap);
            lemma_enc_len(l.rec);
            assert(tombstone_len(key@) <= self.cap);
        }
        let tomb = encode_tombstone(key);
        if tomb.len() > self.cap {
            proof {
                assert(false);
            }
            return Err(KvsError::KeyNotFound);
        }
        let ghost rec = Rec::Tombstone { key: key@ };
        let mut ops: Vec<FileOp> = Vec::new();
        let ghost log0 = self.log();
        proof {
            lemma_enc_len(rec);
        }
        let lp = self.append_record(tomb, Ghost(rec), &mut ops);
        let ghost sa = *self;
        proof {
            lemma_push_tombstone(log0, LRec { gen: lp.gen, pos: lp.pos as int, rec });
        }
        let p = match self.keydir.remove(key) {
            Some(p) => p,
            None => {
                proof {
                    assert(false);
                }
                return Err(KvsError::KeyNotFound);
            },
        };
        proof {
            assert(ops@.skip(0) =~= ops@);
            assert(self.keydir@ == keydir_of(self.log()));
            assert(self@ == old(self)@.remove(key@));
        }
        bump_dead(&mut self.dead, &self.files, p.gen, p.len);
        bump_dead(&mut self.dead, &self.files, lp.gen, lp.len);
        let ghost mid = *self;
        let ghost wops = ops@;
        proof {
            assert(wops =~= ops@.skip(0));
            assert(mid.fv() =~= sa.fv());
            assert(mid.fm() =~= sa.fm());
            assert(appended_files(*old(self), mid, rec, lp, wops));
            assert(remove_step(*old(self), mid, key@, lp, wops));
            assert(mid.wf());
            assert(wops.is_prefix_of(ops@)) by {
                assert(wops =~= ops@.take(wops.len() as int));
            }
        }
        let due = match self.dead.get(&p.gen) {
            Some(d) => *d >= self.threshold && p.gen != self.active_gen,
            None => false,
        };
        if due {
            proof {
                assert(compaction_due(*old(self), mid, key@));
                assert(has_gen(mid.fv(), p.gen));
                assert(apply_ops(old(self).fv(), wops.skip(0)) == mid.fv()) by {
                    assert(wops.skip(0) =~= wops);
                }
                assert(Seq::<FileOp>::empty().is_prefix_of(wops)) by {
                    assert(Seq::<FileOp>::empty() =~= wops.take(0));
                }
            }
            self.compact(p.gen, &mut ops);
            proof {
                lemma_ops_compose(
                    old(self).fv(),
                    mid.fv(),
                    self.fv(),
                    Seq::<FileOp>::empty(),
                    wops,
                    ops@,
                );
                assert(ops@.skip(0) =~= ops@);
                assert(compacted(mid, *self, p.gen, ops@.skip(wops.len() as int)));
            }
        } else {
            proof {
                assert(!compaction_due(*old(self), mid, key@));
            }
        }
        Ok(ops)
    }

    /// Compacts the sealed generation `gen`: every record still pointed at
    /// by the key directory is copied forward to the active generation, a
    /// tombstone found in `gen` whose key is still absent is forwarded (it
    /// may still shadow an older `Put`), and the generation's file is then
    /// deleted and its dead-byte count dropped. The visible key-to-value map
    /// is unchanged, and afterwards no directory entry points into `gen`.
    #[verifier::rlimit(100)]
    pub fn compact(&mut self, gen: u64, ops: &mut Vec<FileOp>)
        requires
            old(self).wf(),
            has_gen(old(self).fv(), gen),
            gen != old(self).active_gen,
        ensures
            final(self).wf(),
            final(self)@ == old(self)@,
            final(self).cap == old(self).cap,
            final(self).threshold == old(self).threshold,
            final(self).active_gen >= old(self).active_gen,
            !has_gen(final(self).fv(), gen),
            forall|k: Seq<u8>|
                final(self).keydir@.contains_key(k) ==> (#[trigger] final(self).keydir@[k]).gen
                    != gen,
            old(ops)@.is_prefix_of(final(ops)@),
            apply_ops(old(self).fv(), final(ops)@.skip(old(ops)@.len() as int)) == final(self).fv(),
            compacted(*old(self), *final(self), gen, final(ops)@.skip(old(ops)@.len() as int)),
    {
        let ghost ops0 = ops@;
        let ghost fv0 = self.fv();
        let j = match find_gen(&self.files, gen) {
            Some(j) => j,
            None => {
                proof {
                    assert(false);
                }
                return ;
            },
        };
        proof {
            assert(self.fv()[j as int] == self.files@[j as int]@);
            lemma_gen_at(self.fv(), j as int);
            assert(self.fv()[self.fv().len() - 1].gen == self.active_gen);
            if j as int == self.fv().len() - 1 {
                assert(false);
            }
        }
        let data = vstd::slice::slice_to_vec(self.files[j].data.as_slice());
        let glen = data.len();
        let ghost grecs = self.recs@[j as int];
        let ghost fm0 = self.fm();
        let ghost ga = log_of(fm0.take(j as int));
        let ghost gg = locate(gen, grecs);
        let ghost mut gb = log_of(fm0.skip(j as int + 1));
        proof {
            assert(fm0 =~= fm0.take(j as int) + (seq![fm0[j as int]] + fm0.skip(j as int + 1)));
            lemma_log_of_concat(fm0.take(j as int), seq![fm0[j as int]] + fm0.skip(j as int + 1));
            lemma_log_of_concat(seq![fm0[j as int]], fm0.skip(j as int + 1));
            assert(seq![fm0[j as int]].drop_last() =~= Seq::<FileM>::empty());
            assert(log_of(Seq::<FileM>::empty()) =~= Seq::<LRec>::empty());
            assert(fm0[j as int].gen == gen && fm0[j as int].recs == grecs);
            assert(log_of(seq![fm0[j as int]]) =~= gg);
            assert(self.log() =~= ga + gg + gb);
            assert forall|t: int| 0 <= t < fm0.take(j as int).len() implies (#[trigger] fm0.take(
                j as int,
            )[t]).gen < gen by {
                assert(self.fv()[t].gen < self.fv()[j as int].gen);
            }
            assert forall|t: int|
                0 <= t < fm0.skip(j as int + 1).len() implies (#[trigger] fm0.skip(
                j as int + 1,
            )[t]).gen > gen by {
                assert(self.fv()[j as int].gen < self.fv()[t + j + 1].gen);
            }
            lemma_log_gen_bounds(fm0.take(j as int), gen);
            lemma_log_gen_bounds(fm0.skip(j as int + 1), gen);
        }
        let mut p: usize = 0;
        let ghost mut i: int = 0;
        while p < glen
            invariant
                self.files_wf(),
                dead_ok(self.dead@, self.fv()),
                self.keydir@ == keydir_of(self.log()),
                self.cap == old(self).cap,
                self.threshold == old(self).threshold,
                self.active_gen >= old(self).active_gen,
                old(self).active_gen > gen,
                self.log() == ga + gg + gb,
                gg == locate(gen, grecs),
                forall|t: int| 0 <= t < ga.len() ==> (#[trigger] ga[t]).gen < gen,
                forall|t: int| 0 <= t < gb.len() ==> (#[trigger] gb[t]).gen > gen,
                forall|t: int|
                    0 <= t < grecs.len() ==> rec_wf(#[trigger] grecs[t]) && enc(
                        #[trigger] grecs[t],
                    ).len() <= self.cap,
                data@ == enc_file(grecs),
                glen == data@.len(),
                0 <= i <= grecs.len(),
                p == rec_pos(grecs, i),
                p <= glen,
                view_of(self.log()) == old(self)@,
                forall|t: int|
                    0 <= t < i ==> last_for(self.log(), rec_key(#[trigger] grecs[t])) >= ga.len()
                        + i,
                ops0.is_prefix_of(ops@),
                apply_ops(fv0, ops@.skip(ops0.len() as int)) == self.fv(),
                0 <= j < fv0.len() - 1,
                self.files@.len() >= fv0.len(),
                forall|t: int|
                    0 <= t <= j ==> self.files@[t] == old(self).files@[t] && self.recs@[t] == old(
                        self,
                    ).recs@[t],
                grecs == old(self).recs@[j as int],
                fm0 == old(self).fm(),
                fv0 == old(self).fv(),
                old(self).files@[j as int].gen == gen,
            decreases glen - p,
        {
            proof {
                if i == grecs.len() {
                    assert(grecs.take(i) =~= grecs);
                    assert(false);
                }
                lemma_enc_file_extract(grecs, i);
                lemma_decode_enc(grecs[i], data@, p as int);
                lemma_enc_len(grecs[i]);
            }
            let (r, rlen) = match decode(data.as_slice(), p) {
                Ok(x) => x,
                Err(_) => {
                    proof {
                        assert(false);
                    }
                    return ;
                },
            };
            let ghost lg = self.log();
            let ghost gai = ga.len() + i;
            proof {
                assert(r@ == grecs[i] && rlen as int == enc(grecs[i]).len());
                assert(lg[gai] == gg[i]);
                assert(gg[i].gen == gen && gg[i].pos == rec_pos(grecs, i) && gg[i].rec
                    == grecs[i]);
                lemma_last_for(lg, rec_key(grecs[i]));
            }
            match r {
                LogRecord::Put { key, value } => {
                    let cur = self.keydir.get(key.as_slice());
                    let is_live = match cur {
                        Some(c) => c.gen == gen && c.pos == p && c.len == rlen,
                        None => false,
                    };
                    if is_live {
                        proof {
                            let lf = last_for(lg, key@);
                            assert(live_at(lg, key@)) by {
                                assert(self.keydir@.contains_key(key@));
                            }
                            assert(self.keydir@[key@] == logpos_at(lg, key@));
                            assert(lg[lf].gen == gen) by {
                                assert(logpos_at(lg, key@).gen == lg[lf].gen);
                            }
                            if lf < ga.len() {
                                assert(lg[lf] == ga[lf]);
                                assert(false);
                            }
                            if lf >= ga.len() + gg.len() {
                                assert(lg[lf] == gb[lf - ga.len() - gg.len()]);
                                assert(false);
                            }
                            let ri = lf - ga.len();
                            assert(lg[lf] == gg[ri]);
                            assert(gg[ri].pos == rec_pos(grecs, ri));
                            lemma_enc_file_extract(grecs, ri);
                            assert(logpos_at(lg, key@).pos == rec_pos(grecs, ri));
                            assert(rec_pos(grecs, ri) == p);
                            if ri < i {
                                lemma_rec_pos_mono(grecs, ri, i);
                                lemma_enc_len(grecs[ri]);
                                assert(false);
                            }
                            if i < ri {
                                lemma_rec_pos_mono(grecs, i, ri);
                                assert(false);
                            }
                            assert(lf == gai);
                            assert(view_of(lg)[key@] == rec_value(grecs[i]));
                            assert(rec_value(grecs[i]) == value@);
                        }
                        let bytes = encode_put(key.as_slice(), value.as_slice());
                        proof {
                            assert(grecs[i] == Rec::Put { key: key@, value: value@ });
                            assert(bytes@.len() <= self.cap);
                        }
                        let ghost gb_pre = gb;
                        let ghost ops_pre = ops@;
                        let ghost fv_pre = self.fv();
                        let lp = self.append_record(
                            bytes,
                            Ghost(Rec::Put { key: key@, value: value@ }),
                            ops,
                        );
                        proof {
                            lemma_ops_compose(fv0, fv_pre, self.fv(), ops0, ops_pre, ops@);
                            lemma_push_put(
                                lg,
                                LRec {
                                    gen: lp.gen,
                                    pos: lp.pos as int,
                                    rec: Rec::Put { key: key@, value: value@ },
                                },
                            );
                        }
                        self.keydir.insert(key, lp);
                        proof {
                            let nl = LRec {
                                gen: lp.gen,
                                pos: lp.pos as int,
                                rec: Rec::Put { key: key@, value: value@ },
                            };
                            gb = gb_pre.push(nl);
                            assert(self.log() =~= ga + gg + gb);
                            assert(self.keydir@ == keydir_of(self.log()));
                            assert(view_of(self.log()) =~= view_of(lg)) by {
                                assert(view_of(self.log()) == view_of(lg).insert(key@, value@));
                                assert(view_of(lg).contains_key(key@) && view_of(lg)[key@]
                                    == value@);
                            }
                            assert(self.log().drop_last() =~= lg);
                            assert forall|t: int|
                                0 <= t < i + 1 implies last_for(
                                self.log(),
                                rec_key(#[trigger] grecs[t]),
                            ) >= ga.len() + i + 1 by {
                                let k2 = rec_key(grecs[t]);
                                lemma_last_for(self.log(), k2);
                                lemma_last_for(lg, k2);
                                if k2 == key@ {
                                    assert(rec_key(self.log().last().rec) == k2);
                                    assert(last_for(self.log(), k2) == self.log().len() - 1);
                                } else {
                                    assert(last_for(self.log(), k2) == last_for(lg, k2));
                                    assert(rec_key(self.log()[gai].rec) == key@);
                                    assert(last_for(self.log(), k2) != gai);
                                }
                            }
                        }
                    } else {
                        proof {
                            let lf = last_for(lg, key@);
                            assert(rec_key(lg[gai].rec) == key@);
                            assert(lf >= gai);
                            if lf == gai {
                                assert(live_at(lg, key@));
                                assert(self.keydir@.contains_key(key@));
                                assert(self.keydir@[key@] == logpos_at(lg, key@));
                                lemma_enc_file_extract(grecs, i);
                                assert(logpos_at(lg, key@).gen == gen);
                                assert(logpos_at(lg, key@).pos == p);
                                assert(logpos_at(lg, key@).len == rlen);
                                assert(false);
                            }
                            assert forall|t: int|
                                0 <= t < i + 1 implies last_for(
                                self.log(),
                                rec_key(#[trigger] grecs[t]),
                            ) >= ga.len() + i + 1 by {
                                let k2 = rec_key(grecs[t]);
                                lemma_last_for(lg, k2);
                                if k2 == key@ {
                                    assert(last_for(lg, k2) > gai);
                                } else {
                                    assert(rec_key(lg[gai].rec) == key@);
                                    assert(last_for(lg, k2) != gai);
                                }
                            }
                        }
                    }
                },
                LogRecord::Tombstone { key } => {
                    let cur = self.keydir.get(key.as_slice());
                    match cur {
                        None => {
                            let bytes = encode_tombstone(key.as_slice());
                            proof {
                                assert(grecs[i] == Rec::Tombstone { key: key@ });
                                assert(bytes@.len() <= self.cap);
                            }
                            let ghost gb_pre = gb;
                            let ghost ops_pre = ops@;
                            let ghost fv_pre = self.fv();
                            let lp = self.append_record(
                                bytes,
                                Ghost(Rec::Tombstone { key: key@ }),
                                ops,
                            );
                            proof {
                                lemma_ops_compose(fv0, fv_pre, self.fv(), ops0, ops_pre, ops@);
                                lemma_push_tombstone(
                                    lg,
                                    LRec {
                                        gen: lp.gen,
                                        pos: lp.pos as int,
                                        rec: Rec::Tombstone { key: key@ },
                                    },
                                );
                            }
                            bump_dead(&mut self.dead, &self.files, lp.gen, lp.len);
                            proof {
                                let nl = LRec {
                                    gen: lp.gen,
                                    pos: lp.pos as int,
                                    rec: Rec::Tombstone { key: key@ },
                                };
                                gb = gb_pre.push(nl);
                                assert(self.log() =~= ga + gg + gb);
                                assert(self.keydir@ == keydir_of(self.log())) by {
                                    assert(keydir_of(self.log()) == keydir_of(lg).remove(key@));
                                    assert(!keydir_of(lg).contains_key(key@));
                                    assert(keydir_of(lg).remove(key@) =~= keydir_of(lg));
                                }
                                assert(view_of(self.log()) =~= view_of(lg)) by {
                                    assert(view_of(self.log()) == view_of(lg).remove(key@));
                                    assert(!view_of(lg).contains_key(key@));
                                }
                                assert(self.log().drop_last() =~= lg);
                                assert forall|t: int|
                                    0 <= t < i + 1 implies last_for(
                                    self.log(),
                                    rec_key(#[trigger] grecs[t]),
                                ) >= ga.len() + i + 1 by {
                                    let k2 = rec_key(grecs[t]);
                                    lemma_last_for(self.log(), k2);
                                    lemma_last_for(lg, k2);
                                    if k2 == key@ {
                                        assert(rec_key(self.log().last().rec) == k2);
                                        assert(last_for(self.log(), k2) == self.log().len() - 1);
                                    } else {
                                        assert(last_for(self.log(), k2) == last_for(lg, k2));
                                        assert(rec_key(self.log()[gai].rec) == key@);
                                        assert(last_for(self.log(), k2) != gai);
                                    }
                                }
                            }
                        },
                        Some(_) => {
                            proof {
                                let lf = last_for(lg, key@);
                                assert(rec_key(lg[gai].rec) == key@);
                                assert(lf >= gai);
                                if lf == gai {
                                    assert(!(lg[lf].rec is Put));
                                    assert(!live_at(lg, key@));
                                    assert(!self.keydir@.contains_key(key@));
                                    assert(false);
                                }
                                assert forall|t: int|
                                    0 <= t < i + 1 implies last_for(
                                    self.log(),
                                    rec_key(#[trigger] grecs[t]),
                                ) >= ga.len() + i + 1 by {
                                    let k2 = rec_key(grecs[t]);
                                    lemma_last_for(lg, k2);
                                    if k2 == key@ {
                                        assert(last_for(lg, k2) > gai);
                                    } else {
                                        assert(rec_key(lg[gai].rec) == key@);
                                        assert(last_for(lg, k2) != gai);
                                    }
                                }
                            }
                        },
                    }
                },
            }
            proof {
                lemma_rec_pos_step(grecs, i);
                if i + 1 <= grecs.len() {
                    lemma_rec_pos_mono(grecs, i, grecs.len() as int);
                }
                assert(rec_pos(grecs, grecs.len() as int) == glen) by {
                    assert(grecs.take(grecs.len() as int) =~= grecs);
                }
                i = i + 1;
            }
            p = p + rlen;
        }
        proof {
            if i < grecs.len() {
                lemma_enc_file_extract(grecs, i);
                lemma_enc_len(grecs[i]);
                assert(false);
            }
            assert(i == grecs.len());
        }
        let ghost fm_cur = self.fm();
        let ghost fv_cur = self.fv();
        let ghost log_cur = self.log();
        proof {
            assert(fm_cur.take(j as int + 1) =~= fm0.take(j as int + 1)) by {
                assert forall|t: int| 0 <= t < j + 1 implies fm_cur[t] == fm0[t] by {
                    assert(self.files@[t] == old(self).files@[t]);
                    assert(self.recs@[t] == old(self).recs@[t]);
                }
            }
            assert(fm_cur =~= fm_cur.take(j as int + 1) + fm_cur.skip(j as int + 1));
            lemma_log_of_concat(fm_cur.take(j as int + 1), fm_cur.skip(j as int + 1));
            assert(fm_cur.take(j as int + 1) =~= fm0.take(j as int) + seq![fm0[j as int]]);
            lemma_log_of_concat(fm0.take(j as int), seq![fm0[j as int]]);
            assert(seq![fm0[j as int]].drop_last() =~= Seq::<FileM>::empty());
            assert(log_of(Seq::<FileM>::empty()) =~= Seq::<LRec>::empty());
            assert(fm0[j as int].gen == gen && fm0[j as int].recs == grecs);
            assert(log_of(seq![fm0[j as int]]) =~= gg);
            assert(log_of(fm_cur.take(j as int + 1)) == ga + gg);
            assert(log_cur == (ga + gg) + log_of(fm_cur.skip(j as int + 1)));
            assert(log_cur == (ga + gg) + gb) by {
                assert(ga + gg + gb =~= (ga + gg) + gb);
            }
            assert(log_of(fm_cur.skip(j as int + 1)) =~= gb) by {
                assert forall|t: int|
                    0 <= t < log_of(fm_cur.skip(j as int + 1)).len() implies #[trigger] log_of(
                    fm_cur.skip(j as int + 1),
                )[t] == gb[t] by {
                    assert(log_cur[ga.len() + gg.len() + t] == log_of(
                        fm_cur.skip(j as int + 1),
                    )[t]);
                    assert(log_cur[ga.len() + gg.len() + t] == gb[t]);
                }
            }
            assert forall|t: int| 0 <= t < gg.len() implies last_for(
                log_cur,
                rec_key(#[trigger] gg[t].rec),
            ) >= ga.len() + gg.len() by {
                assert(gg[t].rec == grecs[t]);
            }
            lemma_log_delete(ga, gg, gb);
        }
        let _removed = self.files.remove(j);
        self.recs = Ghost(self.recs@.remove(j as int));
        self.dead.remove(&gen);
        let ghost ops_cur = ops@;
        ops.push(FileOp::Delete { gen });
        proof {
            let fm_new = self.fm();
            assert(fm_new =~= fm_cur.take(j as int) + fm_cur.skip(j as int + 1)) by {
                assert(fm_new.len() == fm_cur.len() - 1);
                assert forall|t: int| 0 <= t < fm_new.len() implies fm_new[t] == (fm_cur.take(
                    j as int,
                ) + fm_cur.skip(j as int + 1))[t] by {
                    if t < j {
                        assert(self.files@[t] == old(self).files@[t]);
                    }
                }
            }
            assert(fm_cur.take(j as int) =~= fm0.take(j as int));
            lemma_log_of_concat(fm_cur.take(j as int), fm_cur.skip(j as int + 1));
            assert(self.log() == ga + gb);
            assert(self.keydir@ == keydir_of(self.log()));
            assert(view_of(self.log()) == old(self)@) by {
                assert(view_of((ga + gg) + gb) == view_of(ga + gg + gb)) by {
                    assert((ga + gg) + gb =~= ga + gg + gb);
                }
            }
            assert(self@ == old(self)@);
            // the deleted generation is gone, and no entry points into it
            assert forall|t: int| 0 <= t < self.fv().len() implies (#[trigger] self.fv()[t]).gen
                != gen by {
                if t < j {
                    assert(self.fv()[t] == fv_cur[t]);
                    assert(fv_cur[t].gen < fv_cur[j as int].gen);
                } else {
                    assert(self.fv()[t] == fv_cur[t + 1]);
                    assert(fv_cur[j as int].gen < fv_cur[t + 1].gen);
                }
            }
            assert(!has_gen(self.fv(), gen));
            assert forall|k: Seq<u8>| self.keydir@.contains_key(k) implies (
            #[trigger] self.keydir@[k]).gen != gen by {
                lemma_last_for(self.log(), k);
                let lf = last_for(self.log(), k);
                assert(self.keydir@[k] == logpos_at(self.log(), k));
                if lf < ga.len() {
                    assert(self.log()[lf] == ga[lf]);
                } else {
                    assert(self.log()[lf] == gb[lf - ga.len()]);
                }
            }
            // structural well-formedness of the shrunk store
            assert(self.files_wf()) by {
                assert forall|a: int, b: int|
                    0 <= a < b < self.fv().len() implies (#[trigger] self.fv()[a]).gen < (
                #[trigger] self.fv()[b]).gen by {
                    let a2 = if a < j { a } else { a + 1 };
                    let b2 = if b < j { b } else { b + 1 };
                    assert(self.fv()[a] == fv_cur[a2] && self.fv()[b] == fv_cur[b2]);
                }
                assert forall|a: int, b: int|
                    0 <= a < self.recs@.len() && 0 <= b < self.recs@[a].len() implies rec_wf(
                    #[trigger] self.recs@[a][b],
                ) && enc(#[trigger] self.recs@[a][b]).len() <= self.cap by {
                    let a2 = if a < j { a } else { a + 1 };
                    assert(self.recs@[a] == fm_cur[a2].recs);
                }
                assert(self.files@[self.files@.len() - 1].gen == self.active_gen) by {
                    assert(self.fv()[self.fv().len() - 1] == fv_cur[fv_cur.len() - 1]);
                }
            }
            // dead bytes of surviving generations keep their bound
            assert(dead_ok(self.dead@, self.fv())) by {
                assert forall|g2: u64| #[trigger] self.dead@.contains_key(g2) implies has_gen(
                    self.fv(),
                    g2,
                ) && self.dead@[g2] <= self.fv()[gen_index_of(self.fv(), g2)].data.len() by {
                    assert(dead_ok(self.dead@, fv_cur));
                    assert(self.dead@.contains_key(g2) && g2 != gen);
                    let i0 = gen_index_of(fv_cur, g2);
                    assert(0 <= i0 < fv_cur.len() && fv_cur[i0].gen == g2);
                    assert(i0 != j);
                    let i1 = if i0 < j { i0 } else { i0 - 1 };
                    assert(self.fv()[i1] == fv_cur[i0]);
                    assert(has_gen(self.fv(), g2));
                    lemma_gen_at(self.fv(), i1);
                }
            }
            // the emitted deletion matches the model change
            let opd = ops@.last();
            assert(has_gen(fv_cur, gen) && gen_index_of(fv_cur, gen) == j as int) by {
                assert(fv_cur[j as int].gen == gen);
                lemma_gen_at(fv_cur, j as int);
            }
            assert(self.fv() =~= apply_op(fv_cur, opd));
            assert(ops@.drop_last() =~= ops_cur);
            lemma_apply_ops_push(fv0, ops_cur.skip(ops0.len() as int), opd);
            assert(ops@.skip(ops0.len() as int) =~= ops_cur.skip(ops0.len() as int).push(opd));
            assert(apply_ops(fv0, ops@.skip(ops0.len() as int)) == self.fv());
            assert(ops0.is_prefix_of(ops@));
            assert(!self.dead@.contains_key(gen));
            assert(compacted(*old(self), *self, gen, ops@.skip(ops0.len() as int)));
        }
    }

    /// Whether the dead-byte bound currently holds; a helper for contracts.
    pub open spec fn dead_ok_now(&self) -> bool {
        dead_ok(self.dead@, self.fv())
    }
}

} // verus!
