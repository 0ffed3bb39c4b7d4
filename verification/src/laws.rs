//! The store's laws, stated over the views its contracts speak of and proved
//! once and for all.

use vstd::prelude::*;

use crate::model::{
    last_for, lemma_enc_file_extract, lemma_last_for, lemma_log_index, lemma_parse_enc_file,
    live_at, locate, log_of, rec_pos, FileM,
};
use crate::record::{enc, lemma_decode_enc, spec_decode, Rec};
use crate::store::{appended_files, files_v, gen_index_of, has_gen, open_post, FileOp, KvStore};
use crate::keydir::LogPos;
use crate::KvsError;

verus! {

/// After `set(k, v)`, `get(k)` yields `Some(v)`: inserting a key binds it to
/// the inserted value.
pub proof fn law_set_then_get(m: Map<Seq<u8>, Seq<u8>>, k: Seq<u8>, v: Seq<u8>)
    ensures
        m.insert(k, v).contains_key(k),
        m.insert(k, v)[k] == v,
{
}

/// After `set(k, v1); set(k, v2)`, `get(k)` yields `Some(v2)`: the later
/// write wins.
pub proof fn law_set_then_set(m: Map<Seq<u8>, Seq<u8>>, k: Seq<u8>, v1: Seq<u8>, v2: Seq<u8>)
    ensures
        m.insert(k, v1).insert(k, v2).contains_key(k),
        m.insert(k, v1).insert(k, v2)[k] == v2,
{
}

/// After `set(k, v); remove(k)`, `get(k)` yields `None`; and since the key no
/// longer has a mapping, a second `remove(k)` fails with `KeyNotFound` by the
/// contract of `remove`.
pub proof fn law_set_then_remove(m: Map<Seq<u8>, Seq<u8>>, k: Seq<u8>, v: Seq<u8>)
    ensures
        !m.insert(k, v).remove(k).contains_key(k),
{
}

/// A write to one key leaves every other key unchanged.
pub proof fn law_other_keys(m: Map<Seq<u8>, Seq<u8>>, k: Seq<u8>, q: Seq<u8>, v: Seq<u8>)
    requires
        k != q,
    ensures
        m.insert(k, v).contains_key(q) == m.contains_key(q),
        m.contains_key(q) ==> m.insert(k, v)[q] == m[q],
        m.remove(k).contains_key(q) == m.contains_key(q),
        m.contains_key(q) ==> m.remove(k)[q] == m[q],
{
}

/// A generation's dead-byte count never exceeds its file's size.
pub proof fn law_dead_bytes(s: &KvStore, g: u64)
    requires
        s.wf(),
        s.dead@.contains_key(g),
    ensures
        has_gen(s.fv(), g),
        s.dead@[g] <= s.fv()[gen_index_of(s.fv(), g)].data.len(),
{
}

/// Every key directory entry locates a `Put` record for exactly its key:
/// decoding the entry's file at the entry's offset yields that record, whose
/// value is the one the store maps the key to.
pub proof fn law_keydir_points_at_put(s: &KvStore, k: Seq<u8>)
    requires
        s.wf(),
        s.keydir@.contains_key(k),
    ensures
        ({
            let lp = s.keydir@[k];
            &&& has_gen(s.fv(), lp.gen)
            &&& s@.contains_key(k)
            &&& spec_decode(s.fv()[gen_index_of(s.fv(), lp.gen)].data, lp.pos as int) == Some(
                (Rec::Put { key: k, value: s@[k] }, lp.len as int),
            )
        }),
{
    assert(live_at(s.log(), k));
    lemma_last_for(s.log(), k);
    lemma_log_index(s.fm(), last_for(s.log(), k));
    let l = s.log()[last_for(s.log(), k)];
    let (fi, ri) = choose|fi: int, ri: int|
        0 <= fi < s.fm().len() && 0 <= ri < s.fm()[fi].recs.len() && #[trigger] log_of(s.fm())[
        last_for(s.log(), k)] == locate(s.fm()[fi].gen, s.fm()[fi].recs)[ri] && log_of(s.fm())[
        last_for(s.log(), k)].gen == s.fm()[fi].gen && log_of(s.fm())[last_for(s.log(), k)].rec
            == s.fm()[fi].recs[ri] && log_of(s.fm())[last_for(s.log(), k)].pos == rec_pos(
            s.fm()[fi].recs,
            ri,
        );
    lemma_enc_file_extract(s.recs@[fi], ri);
    assert(s.fv()[fi].gen == l.gen);
    crate::store::lemma_gen_at(s.fv(), fi);
    assert(s.files@[fi].data.len() == s.files@[fi].data@.len());
    assert(l.pos <= usize::MAX);
    lemma_decode_enc(l.rec, s.files@[fi].data@, l.pos);
}

/// Replaying the generation files of a well-formed store rebuilds exactly
/// the store's key-to-value map: `open` after `close` loses nothing.
pub proof fn law_reopen(s: &KvStore, r: Result<KvStore, KvsError>)
    requires
        s.wf(),
        open_post(s.files@, s.cap, s.threshold, r),
    ensures
        r matches Ok(s2) && s2@ == s@,
{
    let files = s.files@;
    assert(files.len() > 0);
    assert forall|i: int| 0 <= i < files.len() implies crate::model::parse_prefix(
        (#[trigger] files[i]).data@,
        0,
    ) == (s.recs@[i], files[i].data@.len() as int) by {
        assert(files[i].data@.subrange(0, files[i].data@.len() as int) =~= files[i].data@);
        lemma_parse_enc_file(files[i].data@, 0, s.recs@[i]);
    }
    assert(crate::store::sealed_ok(files));
    assert(crate::store::files_fit(files, s.cap)) by {
        assert forall|i: int| 0 <= i < files.len() implies crate::store::recs_fit(
            crate::model::parse_prefix((#[trigger] files[i]).data@, 0).0,
            s.cap,
        ) by {
            assert forall|t: int| 0 <= t < s.recs@[i].len() implies enc(
                #[trigger] s.recs@[i][t],
            ).len() <= s.cap by {}
            assert(crate::store::recs_fit(s.recs@[i], s.cap));
        }
    }
    assert(crate::store::input_sorted(files)) by {
        assert(files_v(files) =~= s.fv());
    }
    if r is Err {
        assert(false);
    }
    let s2 = r->Ok_0;
    assert(s2.fm() =~= s.fm()) by {
        assert forall|i: int| 0 <= i < files.len() implies s2.fm()[i] == s.fm()[i] by {
            assert(s2.recs@[i] == crate::model::parse_prefix(files[i].data@, 0).0);
            assert(s2.files@[i].gen == files[i].gen);
        }
    }
}

/// The rotation discipline keeps every generation file within the size cap:
/// one append under [`appended_files`] of a record that itself fits the cap
/// preserves the per-file bound, as long as generation numbers remain. (A
/// directory written under a larger cap may still hold bigger files; `open`
/// accepts them, and this bound then holds of every generation born after.)
pub proof fn law_size_cap(s0: KvStore, s1: KvStore, rec: Rec, lp: LogPos, wops: Seq<FileOp>)
    requires
        s0.files@.len() > 0,
        appended_files(s0, s1, rec, lp, wops),
        enc(rec).len() <= s0.cap,
        s0.active_gen < u64::MAX,
        forall|i: int| 0 <= i < s0.fv().len() ==> (#[trigger] s0.fv()[i]).data.len() <= s0.cap,
    ensures
        forall|i: int| 0 <= i < s1.fv().len() ==> (#[trigger] s1.fv()[i]).data.len() <= s1.cap,
{
    let e = enc(rec);
    let last0 = s0.files@.len() - 1;
    let w0 = s0.files@[last0].data@.len() as int;
    assert(s0.fv()[last0].data.len() == w0);
    assert forall|i: int| 0 <= i < s1.fv().len() implies (#[trigger] s1.fv()[i]).data.len()
        <= s1.cap by {
        if w0 + e.len() > s0.cap {
            if i < s0.fv().len() {
                assert(s1.fv()[i] == s0.fv()[i]);
            } else {
                assert(s1.fv()[i].data == e);
            }
        } else {
            if i != last0 {
                assert(s1.fv()[i] == s0.fv()[i]);
            } else {
                assert(s1.fv()[i].data == s0.fv()[last0].data + e);
            }
        }
    }
}

/// Cutting a suffix of records off the active generation cuts exactly that
/// suffix off the log: replay after a crash that lost the tail of the active
/// file reaches the state in which the lost appends never happened.
pub proof fn law_crash_prefix(fs: Seq<FileM>, m: int)
    requires
        fs.len() > 0,
        0 <= m <= fs.last().recs.len(),
    ensures
        ({
            let cut = fs.update(
                fs.len() - 1,
                FileM { gen: fs.last().gen, recs: fs.last().recs.take(m) },
            );
            log_of(cut) == log_of(fs).take(
                log_of(fs).len() - (fs.last().recs.len() - m),
            )
        }),
{
    let gen = fs.last().gen;
    let rs = fs.last().recs;
    let cut = fs.update(fs.len() - 1, FileM { gen, recs: rs.take(m) });
    assert(cut.drop_last() =~= fs.drop_last());
    assert(cut.last() == FileM { gen, recs: rs.take(m) });
    assert(locate(gen, rs.take(m)) =~= locate(gen, rs).take(m)) by {
        assert forall|i: int| 0 <= i < m implies #[trigger] locate(gen, rs.take(m))[i] == locate(
            gen,
            rs,
        ).take(m)[i] by {
            assert(rs.take(m).take(i) =~= rs.take(i));
        }
    }
    assert(log_of(cut) =~= log_of(fs).take(log_of(fs).len() - (rs.len() - m)));
}

} // verus!
