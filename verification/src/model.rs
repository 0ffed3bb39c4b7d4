//! The mathematical model of the log.
//!
//! A store's on-disk state is a sequence of generation files, each a sequence
//! of records. Flattening them in ascending generation order gives one
//! located record sequence, the *log*. The key directory and the key-to-value
//! view of a log are both determined by the last record that mentions each
//! key; the lemmas here say how they change when a record is appended, when
//! an empty generation is opened, and when a whole generation is cut out.

use vstd::prelude::*;

use crate::keydir::LogPos;
use crate::record::{enc, lemma_decode_enc, lemma_enc_len, rec_key, rec_wf, spec_decode, Rec};

verus! {

/// One generation file: its number and its records in order.
pub struct FileM {
    pub gen: u64,
    pub recs: Seq<Rec>,
}

/// A record located in the log: the generation that holds it and its byte
/// offset within that generation's file.
pub struct LRec {
    pub gen: u64,
    pub pos: int,
    pub rec: Rec,
}

/// The value a `Put` record carries.
pub open spec fn rec_value(r: Rec) -> Seq<u8> {
    match r {
        Rec::Put { value, .. } => value,
        Rec::Tombstone { .. } => Seq::empty(),
    }
}

/// The byte contents of a file holding the records `rs`.
pub open spec fn enc_file(rs: Seq<Rec>) -> Seq<u8>
    decreases rs.len(),
{
    if rs.len() == 0 {
        Seq::empty()
    } else {
        enc_file(rs.drop_last()) + enc(rs.last())
    }
}

/// The byte offset of record `i` within its file.
pub open spec fn rec_pos(rs: Seq<Rec>, i: int) -> int {
    enc_file(rs.take(i)).len() as int
}

/// The records of one generation file, located.
pub open spec fn locate(gen: u64, rs: Seq<Rec>) -> Seq<LRec> {
    Seq::new(rs.len(), |i: int| LRec { gen, pos: rec_pos(rs, i), rec: rs[i] })
}

/// The log: every record of every generation, in replay order.
pub open spec fn log_of(fs: Seq<FileM>) -> Seq<LRec>
    decreases fs.len(),
{
    if fs.len() == 0 {
        Seq::empty()
    } else {
        log_of(fs.drop_last()) + locate(fs.last().gen, fs.last().recs)
    }
}

/// The index of the last record about key `k`, or `-1` when no record
/// mentions `k`.
pub open spec fn last_for(log: Seq<LRec>, k: Seq<u8>) -> int
    decreases log.len(),
{
    if log.len() == 0 {
        -1
    } else if rec_key(log.last().rec) == k {
        log.len() - 1
    } else {
        last_for(log.drop_last(), k)
    }
}

/// Whether `k` is live: its last record exists and is a `Put`.
pub open spec fn live_at(log: Seq<LRec>, k: Seq<u8>) -> bool {
    last_for(log, k) >= 0 && log[last_for(log, k)].rec is Put
}

/// The position entry for a live key.
pub open spec fn logpos_at(log: Seq<LRec>, k: Seq<u8>) -> LogPos {
    let l = log[last_for(log, k)];
    LogPos { gen: l.gen, pos: l.pos as usize, len: enc(l.rec).len() as usize }
}

/// The key directory a log determines: each live key mapped to the location
/// of its last `Put` record.
pub open spec fn keydir_of(log: Seq<LRec>) -> Map<Seq<u8>, LogPos> {
    Map::new(|k: Seq<u8>| live_at(log, k), |k: Seq<u8>| logpos_at(log, k))
}

/// The key-to-value view a log determines.
pub open spec fn view_of(log: Seq<LRec>) -> Map<Seq<u8>, Seq<u8>> {
    Map::new(|k: Seq<u8>| live_at(log, k), |k: Seq<u8>| rec_value(log[last_for(log, k)].rec))
}

/// Appending one record extends the file's bytes by that record's encoding.
pub proof fn lemma_enc_file_push(rs: Seq<Rec>, r: Rec)
    ensures
        enc_file(rs.push(r)) == enc_file(rs) + enc(r),
{
    assert(rs.push(r).drop_last() =~= rs);
    assert(rs.push(r).last() == r);
}

/// File bytes concatenate as the record sequences do.
pub proof fn lemma_enc_file_concat(r1: Seq<Rec>, r2: Seq<Rec>)
    ensures
        enc_file(r1 + r2) == enc_file(r1) + enc_file(r2),
    decreases r2.len(),
{
    if r2.len() == 0 {
        assert(r1 + r2 =~= r1);
        assert(enc_file(r1) + enc_file(r2) =~= enc_file(r1));
    } else {
        let r2p = r2.drop_last();
        assert(r1 + r2 =~= (r1 + r2p).push(r2.last()));
        lemma_enc_file_push(r1 + r2p, r2.last());
        lemma_enc_file_concat(r1, r2p);
        lemma_enc_file_push(r2p, r2.last());
        assert(r2p.push(r2.last()) =~= r2);
        assert((enc_file(r1) + enc_file(r2p)) + enc(r2.last()) =~= enc_file(r1) + (enc_file(r2p)
            + enc(r2.last())));
    }
}

/// The bytes of record `i` sit at `[rec_pos(rs, i), rec_pos(rs, i) + |enc|)`
/// within its file.
pub proof fn lemma_enc_file_extract(rs: Seq<Rec>, i: int)
    requires
        0 <= i < rs.len(),
    ensures
        rec_pos(rs, i) + enc(rs[i]).len() <= enc_file(rs).len(),
        enc_file(rs).subrange(rec_pos(rs, i), rec_pos(rs, i) + enc(rs[i]).len()) == enc(rs[i]),
{
    let pre = rs.take(i);
    let post = rs.skip(i + 1);
    assert(rs =~= pre.push(rs[i]) + post);
    lemma_enc_file_concat(pre.push(rs[i]), post);
    lemma_enc_file_push(pre, rs[i]);
    let e = enc(rs[i]);
    let p = rec_pos(rs, i);
    assert(enc_file(rs) =~= (enc_file(pre) + e) + enc_file(post));
    assert(enc_file(rs).subrange(p, p + e.len()) =~= e);
}

/// Appending a record to the last file appends one located record to the log.
pub proof fn lemma_log_push_rec(fs: Seq<FileM>, r: Rec)
    requires
        fs.len() > 0,
    ensures
        ({
            let last = fs.len() - 1;
            let grown = fs.update(last, FileM { gen: fs[last].gen, recs: fs[last].recs.push(r) });
            log_of(grown) == log_of(fs).push(
                LRec { gen: fs[last].gen, pos: enc_file(fs[last].recs).len() as int, rec: r },
            )
        }),
{
    let last = fs.len() - 1;
    let rs = fs[last].recs;
    let grown = fs.update(last, FileM { gen: fs[last].gen, recs: rs.push(r) });
    let nl = LRec { gen: fs[last].gen, pos: enc_file(rs).len() as int, rec: r };
    assert(grown.drop_last() =~= fs.drop_last());
    assert(locate(fs[last].gen, rs.push(r)) =~= locate(fs[last].gen, rs).push(nl)) by {
        assert forall|i: int| 0 <= i < rs.len() + 1 implies #[trigger] locate(
            fs[last].gen,
            rs.push(r),
        )[i] == locate(fs[last].gen, rs).push(nl)[i] by {
            if i < rs.len() {
                assert(rs.push(r).take(i) =~= rs.take(i));
            } else {
                assert(rs.push(r).take(i) =~= rs);
            }
        }
    }
    assert(log_of(grown) =~= log_of(fs).push(nl));
}

/// Opening a fresh, empty generation leaves the log unchanged.
pub proof fn lemma_log_push_file(fs: Seq<FileM>, g: u64)
    ensures
        log_of(fs.push(FileM { gen: g, recs: Seq::empty() })) == log_of(fs),
{
    let grown = fs.push(FileM { gen: g, recs: Seq::empty() });
    assert(grown.drop_last() =~= fs);
    assert(locate(g, Seq::empty()) =~= Seq::<LRec>::empty());
    assert(log_of(grown) =~= log_of(fs));
}

/// The basic facts about `last_for`: it stays in range, it lands on a record
/// about `k`, and no later record is about `k`.
pub proof fn lemma_last_for(log: Seq<LRec>, k: Seq<u8>)
    ensures
        -1 <= last_for(log, k) < log.len(),
        last_for(log, k) >= 0 ==> rec_key(log[last_for(log, k)].rec) == k,
        forall|i: int| last_for(log, k) < i < log.len() ==> rec_key(#[trigger] log[i].rec) != k,
    decreases log.len(),
{
    if log.len() > 0 && rec_key(log.last().rec) != k {
        lemma_last_for(log.drop_last(), k);
        assert(forall|i: int|
            0 <= i < log.len() - 1 ==> #[trigger] log[i] == log.drop_last()[i]);
    }
}

/// `last_for` over a concatenation: the later part wins when it mentions `k`.
pub proof fn lemma_last_for_concat(a: Seq<LRec>, b: Seq<LRec>, k: Seq<u8>)
    ensures
        last_for(a + b, k) == if last_for(b, k) >= 0 {
            a.len() + last_for(b, k)
        } else {
            last_for(a, k)
        },
    decreases b.len(),
{
    if b.len() == 0 {
        assert(a + b =~= a);
    } else {
        assert((a + b).last() == b.last());
        if rec_key(b.last().rec) != k {
            assert((a + b).drop_last() =~= a + b.drop_last());
            lemma_last_for_concat(a, b.drop_last(), k);
        }
    }
}

/// Appending a `Put` updates the directory and the view at its key and
/// nothing else.
pub proof fn lemma_push_put(log: Seq<LRec>, l: LRec)
    requires
        l.rec is Put,
    ensures
        keydir_of(log.push(l)) == keydir_of(log).insert(
            rec_key(l.rec),
            LogPos { gen: l.gen, pos: l.pos as usize, len: enc(l.rec).len() as usize },
        ),
        view_of(log.push(l)) == view_of(log).insert(rec_key(l.rec), rec_value(l.rec)),
{
    let k = rec_key(l.rec);
    let log2 = log.push(l);
    assert(log2.drop_last() =~= log);
    assert forall|q: Seq<u8>| q != k implies last_for(log2, q) == last_for(log, q) && (last_for(
        log,
        q,
    ) >= 0 ==> log2[last_for(log, q)] == log[last_for(log, q)]) by {
        lemma_last_for(log, q);
    }
    assert(last_for(log2, k) == log.len());
    assert(keydir_of(log2) =~= keydir_of(log).insert(
        k,
        LogPos { gen: l.gen, pos: l.pos as usize, len: enc(l.rec).len() as usize },
    ));
    assert(view_of(log2) =~= view_of(log).insert(k, rec_value(l.rec)));
}

/// Appending a `Tombstone` removes its key from the directory and the view
/// and changes nothing else.
pub proof fn lemma_push_tombstone(log: Seq<LRec>, l: LRec)
    requires
        l.rec is Tombstone,
    ensures
        keydir_of(log.push(l)) == keydir_of(log).remove(rec_key(l.rec)),
        view_of(log.push(l)) == view_of(log).remove(rec_key(l.rec)),
{
    let k = rec_key(l.rec);
    let log2 = log.push(l);
    assert(log2.drop_last() =~= log);
    assert forall|q: Seq<u8>| q != k implies last_for(log2, q) == last_for(log, q) && (last_for(
        log,
        q,
    ) >= 0 ==> log2[last_for(log, q)] == log[last_for(log, q)]) by {
        lemma_last_for(log, q);
    }
    assert(last_for(log2, k) == log.len());
    assert(keydir_of(log2) =~= keydir_of(log).remove(k));
    assert(view_of(log2) =~= view_of(log).remove(k));
}

/// Cutting a block of records out of the middle of the log preserves the
/// directory and the view, provided every key the block mentions has its last
/// record after the block.
pub proof fn lemma_log_delete(a: Seq<LRec>, g: Seq<LRec>, b: Seq<LRec>)
    requires
        forall|i: int|
            0 <= i < g.len() ==> last_for(a + g + b, rec_key(#[trigger] g[i].rec)) >= a.len()
                + g.len(),
    ensures
        keydir_of(a + b) == keydir_of(a + g + b),
        view_of(a + b) == view_of(a + g + b),
{
    let whole = a + g + b;
    let cut = a + b;
    assert forall|k: Seq<u8>|
        {
            &&& live_at(cut, k) == live_at(whole, k)
            &&& live_at(cut, k) ==> cut[last_for(cut, k)] == whole[last_for(whole, k)]
        } by {
        lemma_last_for_concat(a + g, b, k);
        lemma_last_for_concat(a, g, k);
        lemma_last_for_concat(a, b, k);
        lemma_last_for(a, k);
        lemma_last_for(g, k);
        lemma_last_for(b, k);
        if last_for(b, k) >= 0 {
            let i = last_for(b, k);
            assert(whole[a.len() + g.len() + i] == b[i]);
            assert(cut[a.len() + i] == b[i]);
        } else if last_for(g, k) >= 0 {
            let i = last_for(g, k);
            assert(rec_key(g[i].rec) == k);
            assert(last_for(whole, k) >= a.len() + g.len());
            assert(last_for(whole, k) == a.len() + i);
            assert(false);
        } else {
            if last_for(a, k) >= 0 {
                let i = last_for(a, k);
                assert(whole[i] == a[i]);
                assert(cut[i] == a[i]);
            }
        }
    }
    assert(keydir_of(cut) =~= keydir_of(whole));
    assert(view_of(cut) =~= view_of(whole));
}

/// Consecutive record offsets differ by the earlier record's encoded length.
pub proof fn lemma_rec_pos_step(rs: Seq<Rec>, i: int)
    requires
        0 <= i < rs.len(),
    ensures
        rec_pos(rs, i + 1) == rec_pos(rs, i) + enc(rs[i]).len(),
{
    assert(rs.take(i + 1) =~= rs.take(i).push(rs[i]));
    lemma_enc_file_push(rs.take(i), rs[i]);
}

/// Record offsets within one file are strictly increasing.
pub proof fn lemma_rec_pos_mono(rs: Seq<Rec>, i: int, j: int)
    requires
        0 <= i < j <= rs.len(),
    ensures
        rec_pos(rs, i) + enc(rs[i]).len() <= rec_pos(rs, j),
    decreases j - i,
{
    lemma_enc_len(rs[i]);
    lemma_rec_pos_step(rs, i);
    if i + 1 < j {
        lemma_enc_len(rs[i + 1]);
        lemma_rec_pos_mono(rs, i + 1, j);
    }
}

/// Locating a file appended by one record appends one located record.
pub proof fn lemma_locate_push(gen: u64, rs: Seq<Rec>, r: Rec)
    ensures
        locate(gen, rs.push(r)) == locate(gen, rs).push(
            LRec { gen, pos: enc_file(rs).len() as int, rec: r },
        ),
{
    let nl = LRec { gen, pos: enc_file(rs).len() as int, rec: r };
    assert forall|i: int| 0 <= i < rs.len() + 1 implies #[trigger] locate(gen, rs.push(r))[i]
        == locate(gen, rs).push(nl)[i] by {
        if i < rs.len() {
            assert(rs.push(r).take(i) =~= rs.take(i));
        } else {
            assert(rs.push(r).take(i) =~= rs);
        }
    }
    assert(locate(gen, rs.push(r)) =~= locate(gen, rs).push(nl));
}

/// The log of a concatenation is the concatenation of the logs.
pub proof fn lemma_log_of_concat(f1: Seq<FileM>, f2: Seq<FileM>)
    ensures
        log_of(f1 + f2) == log_of(f1) + log_of(f2),
    decreases f2.len(),
{
    if f2.len() == 0 {
        assert(f1 + f2 =~= f1);
        assert(log_of(f1) + log_of(f2) =~= log_of(f1));
    } else {
        assert((f1 + f2).drop_last() =~= f1 + f2.drop_last());
        assert((f1 + f2).last() == f2.last());
        lemma_log_of_concat(f1, f2.drop_last());
        assert((log_of(f1) + log_of(f2.drop_last())) + locate(f2.last().gen, f2.last().recs)
            =~= log_of(f1) + (log_of(f2.drop_last()) + locate(f2.last().gen, f2.last().recs)));
    }
}

/// Every log entry comes from one record of one file.
pub proof fn lemma_log_index(fs: Seq<FileM>, idx: int)
    requires
        0 <= idx < log_of(fs).len(),
    ensures
        exists|fi: int, ri: int|
            0 <= fi < fs.len() && 0 <= ri < fs[fi].recs.len() && #[trigger] log_of(fs)[idx]
                == locate(fs[fi].gen, fs[fi].recs)[ri] && log_of(fs)[idx].gen == fs[fi].gen
                && log_of(fs)[idx].rec == fs[fi].recs[ri] && log_of(fs)[idx].pos == rec_pos(
                fs[fi].recs,
                ri,
            ),
    decreases fs.len(),
{
    let pre = log_of(fs.drop_last());
    if idx < pre.len() {
        lemma_log_index(fs.drop_last(), idx);
        let (fi, ri) = choose|fi: int, ri: int|
            0 <= fi < fs.drop_last().len() && 0 <= ri < fs.drop_last()[fi].recs.len()
                && #[trigger] log_of(fs.drop_last())[idx] == locate(
                fs.drop_last()[fi].gen,
                fs.drop_last()[fi].recs,
            )[ri] && log_of(fs.drop_last())[idx].gen == fs.drop_last()[fi].gen && log_of(
                fs.drop_last(),
            )[idx].rec == fs.drop_last()[fi].recs[ri] && log_of(fs.drop_last())[idx].pos == rec_pos(
                fs.drop_last()[fi].recs,
                ri,
            );
        assert(fs.drop_last()[fi] == fs[fi]);
        assert(log_of(fs)[idx] == locate(fs[fi].gen, fs[fi].recs)[ri]);
    } else {
        let fi = fs.len() - 1;
        let ri = idx - pre.len();
        assert(log_of(fs)[idx] == locate(fs[fi].gen, fs[fi].recs)[ri]);
    }
}

/// When every file's generation is below `g`, so is every log entry's; when
/// every file's is above, so is every entry's.
pub proof fn lemma_log_gen_bounds(fs: Seq<FileM>, g: u64)
    ensures
        (forall|i: int| 0 <= i < fs.len() ==> (#[trigger] fs[i]).gen < g) ==> forall|t: int|
            0 <= t < log_of(fs).len() ==> (#[trigger] log_of(fs)[t]).gen < g,
        (forall|i: int| 0 <= i < fs.len() ==> (#[trigger] fs[i]).gen > g) ==> forall|t: int|
            0 <= t < log_of(fs).len() ==> (#[trigger] log_of(fs)[t]).gen > g,
{
    assert forall|t: int| 0 <= t < log_of(fs).len() implies exists|fi: int|
        0 <= fi < fs.len() && (#[trigger] log_of(fs)[t]).gen == fs[fi].gen by {
        lemma_log_index(fs, t);
    }
}

/// The longest sequence of records decodable from `data` starting at `p`,
/// together with the offset where decoding stopped.
pub open spec fn parse_prefix(data: Seq<u8>, p: int) -> (Seq<Rec>, int)
    decreases data.len() - p,
    when 0 <= p <= data.len()
{
    match spec_decode(data, p) {
        Some((r, n)) => if 0 < n && p + n <= data.len() {
            (seq![r] + parse_prefix(data, p + n).0, parse_prefix(data, p + n).1)
        } else {
            (Seq::empty(), p)
        },
        None => (Seq::empty(), p),
    }
}

/// A file holding exactly the encodings of well-formed records parses back to
/// those records, consuming the whole file.
pub proof fn lemma_parse_enc_file(data: Seq<u8>, p: int, rs: Seq<Rec>)
    requires
        0 <= p,
        p + enc_file(rs).len() == data.len(),
        data.subrange(p, data.len() as int) == enc_file(rs),
        forall|i: int| 0 <= i < rs.len() ==> rec_wf(#[trigger] rs[i]),
    ensures
        parse_prefix(data, p) == (rs, data.len() as int),
    decreases rs.len(),
{
    if rs.len() == 0 {
        assert(p == data.len());
        assert(spec_decode(data, p) is None);
    } else {
        let head = rs[0];
        let tail = rs.skip(1);
        assert(rs =~= seq![head] + tail);
        lemma_enc_file_concat(seq![head], tail);
        assert(enc_file(seq![head]) == enc_file(seq![head].drop_last()) + enc(head));
        assert(seq![head].drop_last() =~= Seq::<Rec>::empty());
        assert(enc_file(seq![head]) =~= enc(head));
        lemma_enc_len(head);
        let n = enc(head).len() as int;
        assert(data.subrange(p, p + n) =~= enc(head)) by {
            assert forall|t: int| 0 <= t < n implies #[trigger] data.subrange(p, p + n)[t] == enc(
                head,
            )[t] by {
                assert(data.subrange(p, data.len() as int)[t] == enc_file(rs)[t]);
            }
        }
        lemma_decode_enc(head, data, p);
        assert(data.subrange(p + n, data.len() as int) =~= enc_file(tail)) by {
            assert forall|t: int| 0 <= t < enc_file(tail).len() implies #[trigger] data.subrange(
                p + n,
                data.len() as int,
            )[t] == enc_file(tail)[t] by {
                assert(data.subrange(p, data.len() as int)[n + t] == enc_file(rs)[n + t]);
            }
        }
        lemma_parse_enc_file(data, p + n, tail);
        assert(parse_prefix(data, p).0 =~= rs);
    }
}

} // verus!
