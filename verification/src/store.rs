//! The log-structured storage engine.
//!
//! The engine keeps the bytes of its active log segment in memory, mirrored
//! one-to-one with the durable file, together with the index over it and a
//! running count of stale bytes. Every mutation appends to the in-memory
//! segment and records a [`LogEffect`] saying how the durable file must
//! change; the caller that owns the file drains those effects with
//! [`KvStore::take_effects`] and applies them in order. Compaction rewrites
//! only the live records into a fresh segment and replaces the file whole.

use vstd::prelude::*;

use crate::codec::{
    decode_record, encode_all, encode_record, encode_record_model, lemma_encode_all_snoc,
    lemma_parse_record_complete, lemma_parse_record_sound, lemma_recover_encode_all, recover_map,
    recover_records,
};
use crate::errors::MyError;
use crate::index::{distinct_keys, live_bytes, Index, Pointer};
use crate::record::{replay, Record, RecordModel};

verus! {

/// Stale bytes past which a `set` compacts the log, unless overridden at
/// open time.
pub const DEFAULT_COMPACTION_THRESHOLD: u64 = 1024 * 1024;

/// One change the durable log file must undergo to stay a mirror of the
/// engine's in-memory segment.
#[derive(Debug)]
pub enum LogEffect {
    /// Append these bytes to the active log file and flush it.
    Append(Vec<u8>),
    /// Write these bytes to a temporary file in the same directory, flush
    /// it, and rename it over the active log file in one step.
    Replace(Vec<u8>),
}

/// The file contents after one effect.
pub open spec fn apply_effect(base: Seq<u8>, e: LogEffect) -> Seq<u8> {
    match e {
        LogEffect::Append(d) => base + d@,
        LogEffect::Replace(d) => d@,
    }
}

/// The file contents after a sequence of effects, applied in order.
pub open spec fn apply_effects(base: Seq<u8>, effs: Seq<LogEffect>) -> Seq<u8>
    decreases effs.len(),
{
    if effs.len() == 0 {
        base
    } else {
        apply_effect(apply_effects(base, effs.drop_last()), effs.last())
    }
}

/// The pointer each live key would carry after replaying `rs`: the byte
/// offset and length of its latest `Set` record.
pub open spec fn replay_ptr(rs: Seq<RecordModel>) -> Map<Seq<char>, (int, int)>
    decreases rs.len(),
{
    if rs.len() == 0 {
        Map::empty()
    } else {
        let m = replay_ptr(rs.drop_last());
        let off = encode_all(rs.drop_last()).len() as int;
        match rs.last() {
            RecordModel::Put { key, value } => m.insert(
                key,
                (off, encode_record_model(rs.last()).len() as int),
            ),
            RecordModel::Remove { key } => m.remove(key),
        }
    }
}

/// A subrange of a prefix is unchanged by what follows the prefix.
proof fn lemma_prefix_subrange(a: Seq<u8>, b: Seq<u8>, lo: int, ln: int)
    requires
        0 <= lo,
        0 <= ln,
        lo + ln <= a.len(),
    ensures
        (a + b).subrange(lo, lo + ln) == a.subrange(lo, lo + ln),
{
    assert((a + b).subrange(lo, lo + ln) =~= a.subrange(lo, lo + ln)) by {
        assert forall|x: int|
            0 <= x < ln implies #[trigger] (a + b).subrange(lo, lo + ln)[x] == a.subrange(
            lo,
            lo + ln,
        )[x] by {
            assert((a + b).subrange(lo, lo + ln)[x] == (a + b)[lo + x]);
            assert((a + b)[lo + x] == a[lo + x]);
        }
    }
}

/// Replay and its pointers agree: they bind the same keys, and each pointer
/// addresses exactly the encoding of the latest `Set` record of its key.
#[verifier::rlimit(100)]
#[verifier::spinoff_prover]
pub proof fn lemma_replay_ptr_valid(rs: Seq<RecordModel>)
    ensures
        forall|k: Seq<char>|
            replay(rs).contains_key(k) <==> #[trigger] replay_ptr(rs).contains_key(k),
        forall|k: Seq<char>| #[trigger]
            replay_ptr(rs).contains_key(k) ==> 0 <= replay_ptr(rs)[k].0 && 0 <= replay_ptr(
                rs,
            )[k].1 && replay_ptr(rs)[k].0 + replay_ptr(rs)[k].1 <= encode_all(rs).len()
                && encode_all(rs).subrange(
                replay_ptr(rs)[k].0,
                replay_ptr(rs)[k].0 + replay_ptr(rs)[k].1,
            ) == encode_record_model(RecordModel::Put { key: k, value: replay(rs)[k] }),
    decreases rs.len(),
{
    if rs.len() > 0 {
        let pre = rs.drop_last();
        let last = rs.last();
        lemma_replay_ptr_valid(pre);
        lemma_encode_all_snoc(pre, last);
        assert(pre.push(last) =~= rs);
        assert(encode_all(rs) == encode_all(pre) + encode_record_model(last));
        let off = encode_all(pre).len() as int;
        assert forall|k: Seq<char>|
            replay(rs).contains_key(k) <==> #[trigger] replay_ptr(rs).contains_key(k) by {
            assert(replay(pre).contains_key(k) <==> replay_ptr(pre).contains_key(k));
        }
        assert forall|k: Seq<char>| #[trigger]
            replay_ptr(rs).contains_key(k) implies 0 <= replay_ptr(rs)[k].0 && 0 <= replay_ptr(
            rs,
        )[k].1 && replay_ptr(rs)[k].0 + replay_ptr(rs)[k].1 <= encode_all(rs).len()
            && encode_all(rs).subrange(
            replay_ptr(rs)[k].0,
            replay_ptr(rs)[k].0 + replay_ptr(rs)[k].1,
        ) == encode_record_model(RecordModel::Put { key: k, value: replay(rs)[k] }) by {
            let is_new = match last {
                RecordModel::Put { key, value } => k == key,
                RecordModel::Remove { key } => false,
            };
            if is_new {
                let len = encode_record_model(last).len() as int;
                assert(replay_ptr(rs)[k] == (off, len));
                assert(encode_all(rs).subrange(off, off + len) =~= encode_record_model(last));
                assert(replay(rs)[k] == last->Put_value);
            } else {
                assert(replay_ptr(pre).contains_key(k));
                assert(replay_ptr(rs)[k] == replay_ptr(pre)[k]);
                assert(replay(pre).contains_key(k));
                assert(replay(rs)[k] == replay(pre)[k]);
                let lo = replay_ptr(pre)[k].0;
                let ln = replay_ptr(pre)[k].1;
                assert(0 <= lo && lo + ln <= encode_all(pre).len());
                assert(encode_all(pre).subrange(lo, lo + ln) == encode_record_model(
                    RecordModel::Put { key: k, value: replay(pre)[k] },
                ));
                lemma_prefix_subrange(encode_all(pre), encode_record_model(last), lo, ln);
            }
        }
    }
}

/// For a segment of `Set` records with distinct keys, the replayed pointers
/// are exactly the record offsets in order.
pub proof fn lemma_replay_ptr_all_puts(rs: Seq<RecordModel>)
    requires
        forall|i: int| 0 <= i < rs.len() ==> rs[i] is Put,
        forall|i: int, j: int|
            0 <= i < j < rs.len() ==> (#[trigger] rs[i])->Put_key != (#[trigger] rs[j])->Put_key,
    ensures
        forall|i: int|
            0 <= i < rs.len() ==> replay_ptr(rs).contains_key((#[trigger] rs[i])->Put_key)
                && replay_ptr(rs)[rs[i]->Put_key] == (
            encode_all(rs.subrange(0, i)).len() as int,
            encode_record_model(rs[i]).len() as int,
            ),
    decreases rs.len(),
{
    if rs.len() > 0 {
        let pre = rs.drop_last();
        let n = rs.len() as int;
        lemma_replay_ptr_all_puts(pre);
        assert(rs.subrange(0, n - 1) =~= pre);
        assert forall|i: int|
            0 <= i < rs.len() implies replay_ptr(rs).contains_key((#[trigger] rs[i])->Put_key)
            && replay_ptr(rs)[rs[i]->Put_key] == (
        encode_all(rs.subrange(0, i)).len() as int,
        encode_record_model(rs[i]).len() as int,
        ) by {
            if i < n - 1 {
                assert(pre[i] == rs[i]);
                assert(rs[i]->Put_key != rs[n - 1]->Put_key);
                assert(pre.subrange(0, i) =~= rs.subrange(0, i));
            } else {
                assert(rs.subrange(0, n - 1) =~= pre);
            }
        }
    }
}


/// The rewritten records have pairwise distinct keys, all of them `Set`.
#[verifier::spinoff_prover]
proof fn lemma_compaction_distinct(
    old_records: Seq<RecordModel>,
    pairs0: Seq<(Seq<char>, Pointer)>,
    new_records: Seq<RecordModel>,
    np: Seq<(Seq<char>, Pointer)>,
)
    requires
        distinct_keys(pairs0),
        forall|k: Seq<char>|
            crate::index::assoc_map(pairs0).contains_key(k) <==> #[trigger] replay_ptr(
                old_records,
            ).contains_key(k),
        forall|k: Seq<char>| #[trigger]
            crate::index::assoc_map(pairs0).contains_key(k) ==> (crate::index::assoc_map(
                pairs0,
            )[k].location as int, crate::index::assoc_map(pairs0)[k].length as int) == replay_ptr(
                old_records,
            )[k],
        new_records.len() == pairs0.len(),
        forall|j: int|
            0 <= j < pairs0.len() ==> #[trigger] new_records[j] == (RecordModel::Put {
                key: pairs0[j].0,
                value: replay(old_records)[pairs0[j].0],
            }),
        np.len() == pairs0.len(),
        forall|j: int| 0 <= j < np.len() ==> (#[trigger] np[j]).0 == pairs0[j].0,
        forall|j: int|
            0 <= j < np.len() ==> (#[trigger] np[j]).1.location as int == encode_all(
                new_records.subrange(0, j),
            ).len() && np[j].1.length == pairs0[j].1.length,
    ensures
        forall|i: int| 0 <= i < new_records.len() ==> (#[trigger] new_records[i]) is Put,
        forall|a: int, b: int|
            0 <= a < b < new_records.len() ==> (#[trigger] new_records[a])->Put_key != (
            #[trigger] new_records[b])->Put_key,
        distinct_keys(np),
{
    assert forall|a: int, b: int|
        0 <= a < b < new_records.len() implies (#[trigger] new_records[a])->Put_key != (
    #[trigger] new_records[b])->Put_key by {
        assert(pairs0[a].0 != pairs0[b].0);
    }
    assert forall|a: int, b: int| 0 <= a < b < np.len() implies (#[trigger] np[a]).0 != (
    #[trigger] np[b]).0 by {
        assert(pairs0[a].0 != pairs0[b].0);
    }
}

/// The rewritten segment replays to the old visible state.
#[verifier::rlimit(100)]
#[verifier::spinoff_prover]
proof fn lemma_compaction_replay(
    old_records: Seq<RecordModel>,
    pairs0: Seq<(Seq<char>, Pointer)>,
    new_records: Seq<RecordModel>,
    np: Seq<(Seq<char>, Pointer)>,
)
    requires
        distinct_keys(pairs0),
        forall|k: Seq<char>|
            crate::index::assoc_map(pairs0).contains_key(k) <==> #[trigger] replay_ptr(
                old_records,
            ).contains_key(k),
        forall|k: Seq<char>| #[trigger]
            crate::index::assoc_map(pairs0).contains_key(k) ==> (crate::index::assoc_map(
                pairs0,
            )[k].location as int, crate::index::assoc_map(pairs0)[k].length as int) == replay_ptr(
                old_records,
            )[k],
        new_records.len() == pairs0.len(),
        forall|j: int|
            0 <= j < pairs0.len() ==> #[trigger] new_records[j] == (RecordModel::Put {
                key: pairs0[j].0,
                value: replay(old_records)[pairs0[j].0],
            }),
        np.len() == pairs0.len(),
        forall|j: int| 0 <= j < np.len() ==> (#[trigger] np[j]).0 == pairs0[j].0,
        forall|j: int|
            0 <= j < np.len() ==> (#[trigger] np[j]).1.location as int == encode_all(
                new_records.subrange(0, j),
            ).len() && np[j].1.length == pairs0[j].1.length,
    ensures
        replay(new_records) == replay(old_records),
{
    lemma_compaction_distinct(old_records, pairs0, new_records, np);
    crate::record::lemma_replay_all_sets(new_records);
    lemma_replay_ptr_valid(old_records);
    crate::index::lemma_assoc_map_entries(pairs0);
    assert forall|k: Seq<char>| #[trigger]
        replay(old_records).contains_key(k) implies replay(new_records).contains_key(k) by {
        assert(replay_ptr(old_records).contains_key(k));
        assert(crate::index::assoc_map(pairs0).contains_key(k));
        let j = choose|j: int| 0 <= j < pairs0.len() && (#[trigger] pairs0[j]).0 == k;
        assert(new_records[j]->Put_key == k);
    }
    assert forall|k: Seq<char>| #[trigger]
        replay(new_records).contains_key(k) implies replay(old_records).contains_key(k) && replay(
        new_records,
    )[k] == replay(old_records)[k] by {
        let j = choose|j: int|
            0 <= j < new_records.len() && (#[trigger] new_records[j])->Put_key == k;
        assert(pairs0[j].0 == k);
        assert(crate::index::assoc_map(pairs0).contains_key(k));
        assert(replay_ptr(old_records).contains_key(k));
        assert(replay(old_records).contains_key(k));
        assert(replay(new_records)[k] == new_records[j]->Put_value);
        assert(replay(old_records)[k] == new_records[j]->Put_value);
    }
    assert(replay(new_records) =~= replay(old_records));
}

/// Each rewritten entry is as long as its record's encoding.
#[verifier::rlimit(100)]
#[verifier::spinoff_prover]
proof fn lemma_compaction_lens(
    old_records: Seq<RecordModel>,
    pairs0: Seq<(Seq<char>, Pointer)>,
    new_records: Seq<RecordModel>,
    np: Seq<(Seq<char>, Pointer)>,
)
    requires
        distinct_keys(pairs0),
        forall|k: Seq<char>|
            crate::index::assoc_map(pairs0).contains_key(k) <==> #[trigger] replay_ptr(
                old_records,
            ).contains_key(k),
        forall|k: Seq<char>| #[trigger]
            crate::index::assoc_map(pairs0).contains_key(k) ==> (crate::index::assoc_map(
                pairs0,
            )[k].location as int, crate::index::assoc_map(pairs0)[k].length as int) == replay_ptr(
                old_records,
            )[k],
        new_records.len() == pairs0.len(),
        forall|j: int|
            0 <= j < pairs0.len() ==> #[trigger] new_records[j] == (RecordModel::Put {
                key: pairs0[j].0,
                value: replay(old_records)[pairs0[j].0],
            }),
        np.len() == pairs0.len(),
        forall|j: int| 0 <= j < np.len() ==> (#[trigger] np[j]).0 == pairs0[j].0,
        forall|j: int|
            0 <= j < np.len() ==> (#[trigger] np[j]).1.location as int == encode_all(
                new_records.subrange(0, j),
            ).len() && np[j].1.length == pairs0[j].1.length,
    ensures
        forall|j: int|
            0 <= j < new_records.len() ==> encode_record_model(#[trigger] new_records[j]).len()
                == (#[trigger] np[j]).1.length,
        live_bytes(np) == encode_all(new_records).len(),
        encode_all(new_records).len() == live_bytes(pairs0),
{
    lemma_replay_ptr_valid(old_records);
    crate::index::lemma_assoc_map_entries(pairs0);
    assert forall|j: int|
        0 <= j < new_records.len() implies encode_record_model(#[trigger] new_records[j]).len()
        == (#[trigger] np[j]).1.length by {
        assert(crate::index::assoc_map(pairs0).contains_key(pairs0[j].0));
        assert(replay_ptr(old_records).contains_key(pairs0[j].0));
        assert(crate::index::assoc_map(pairs0)[pairs0[j].0] == pairs0[j].1);
        assert((pairs0[j].1.location as int, pairs0[j].1.length as int) == replay_ptr(
            old_records,
        )[pairs0[j].0]);
    }
    lemma_encode_len_matches_live(new_records, np);
    assert forall|j: int|
        0 <= j < new_records.len() implies encode_record_model(#[trigger] new_records[j]).len()
        == (#[trigger] pairs0[j]).1.length by {
        assert(np[j].1.length == pairs0[j].1.length);
    }
    lemma_encode_len_matches_live(new_records, pairs0);
}

/// The repointed entries are exactly the pointer map of the rewritten
/// segment.
#[verifier::rlimit(100)]
#[verifier::spinoff_prover]
proof fn lemma_compaction_ptrs(
    old_records: Seq<RecordModel>,
    pairs0: Seq<(Seq<char>, Pointer)>,
    new_records: Seq<RecordModel>,
    np: Seq<(Seq<char>, Pointer)>,
)
    requires
        distinct_keys(pairs0),
        forall|k: Seq<char>|
            crate::index::assoc_map(pairs0).contains_key(k) <==> #[trigger] replay_ptr(
                old_records,
            ).contains_key(k),
        forall|k: Seq<char>| #[trigger]
            crate::index::assoc_map(pairs0).contains_key(k) ==> (crate::index::assoc_map(
                pairs0,
            )[k].location as int, crate::index::assoc_map(pairs0)[k].length as int) == replay_ptr(
                old_records,
            )[k],
        new_records.len() == pairs0.len(),
        forall|j: int|
            0 <= j < pairs0.len() ==> #[trigger] new_records[j] == (RecordModel::Put {
                key: pairs0[j].0,
                value: replay(old_records)[pairs0[j].0],
            }),
        np.len() == pairs0.len(),
        forall|j: int| 0 <= j < np.len() ==> (#[trigger] np[j]).0 == pairs0[j].0,
        forall|j: int|
            0 <= j < np.len() ==> (#[trigger] np[j]).1.location as int == encode_all(
                new_records.subrange(0, j),
            ).len() && np[j].1.length == pairs0[j].1.length,
    ensures
        forall|k: Seq<char>|
            crate::index::assoc_map(np).contains_key(k) <==> #[trigger] replay_ptr(
                new_records,
            ).contains_key(k),
        forall|k: Seq<char>| #[trigger]
            crate::index::assoc_map(np).contains_key(k) ==> (crate::index::assoc_map(
                np,
            )[k].location as int, crate::index::assoc_map(np)[k].length as int) == replay_ptr(
                new_records,
            )[k],
{
    lemma_compaction_distinct(old_records, pairs0, new_records, np);
    lemma_compaction_replay(old_records, pairs0, new_records, np);
    lemma_replay_ptr_all_puts(new_records);
    lemma_replay_ptr_valid(old_records);
    lemma_replay_ptr_valid(new_records);
    crate::index::lemma_assoc_map_entries(pairs0);
    crate::index::lemma_assoc_map_entries(np);
    assert forall|k: Seq<char>|
        crate::index::assoc_map(np).contains_key(k) <==> #[trigger] replay_ptr(
            new_records,
        ).contains_key(k) by {
        if crate::index::assoc_map(np).contains_key(k) {
            let j = choose|j: int| 0 <= j < np.len() && (#[trigger] np[j]).0 == k;
            assert(new_records[j]->Put_key == k);
            assert(replay_ptr(new_records).contains_key(k));
        }
        if replay_ptr(new_records).contains_key(k) {
            assert(replay(new_records).contains_key(k));
            assert(replay(old_records).contains_key(k));
            assert(replay_ptr(old_records).contains_key(k));
            assert(crate::index::assoc_map(pairs0).contains_key(k));
            let j = choose|j: int| 0 <= j < pairs0.len() && (#[trigger] pairs0[j]).0 == k;
            assert(np[j].0 == k);
            assert(crate::index::assoc_map(np).contains_key(k));
        }
    }
    assert forall|k: Seq<char>| #[trigger]
        crate::index::assoc_map(np).contains_key(k) implies (crate::index::assoc_map(
        np,
    )[k].location as int, crate::index::assoc_map(np)[k].length as int) == replay_ptr(
        new_records,
    )[k] by {
        let j = choose|j: int| 0 <= j < np.len() && (#[trigger] np[j]).0 == k;
        assert(crate::index::assoc_map(np)[k] == np[j].1);
        assert(new_records[j]->Put_key == k);
        assert(replay_ptr(new_records)[k] == (
            encode_all(new_records.subrange(0, j)).len() as int,
            encode_record_model(new_records[j]).len() as int,
        ));
        assert(pairs0[j].0 == k);
        assert(crate::index::assoc_map(pairs0).contains_key(k));
        assert(replay_ptr(old_records).contains_key(k));
        assert(crate::index::assoc_map(pairs0)[k] == pairs0[j].1);
        assert(pairs0[j].1.length as int == replay_ptr(old_records)[k].1);
        assert(encode_all(old_records).subrange(
            replay_ptr(old_records)[k].0,
            replay_ptr(old_records)[k].0 + replay_ptr(old_records)[k].1,
        ) == encode_record_model(RecordModel::Put { key: k, value: replay(old_records)[k] }));
        assert(encode_record_model(new_records[j]).len() == replay_ptr(old_records)[k].1);
    }
}

/// When each record's encoding is as long as the matching entry says, the
/// whole segment is as long as the live bytes.
proof fn lemma_encode_len_matches_live(rs: Seq<RecordModel>, s: Seq<(Seq<char>, Pointer)>)
    requires
        rs.len() == s.len(),
        forall|i: int|
            0 <= i < rs.len() ==> encode_record_model(#[trigger] rs[i]).len() == (
            #[trigger] s[i]).1.length,
    ensures
        encode_all(rs).len() == live_bytes(s),
    decreases rs.len(),
{
    if rs.len() > 0 {
        let n = rs.len() as int;
        lemma_encode_all_snoc(rs.drop_last(), rs.last());
        assert(rs.drop_last().push(rs.last()) =~= rs);
        assert forall|i: int|
            0 <= i < rs.drop_last().len() implies encode_record_model(
            #[trigger] rs.drop_last()[i],
        ).len() == (#[trigger] s.drop_last()[i]).1.length by {
            assert(rs.drop_last()[i] == rs[i] && s.drop_last()[i] == s[i]);
        }
        lemma_encode_len_matches_live(rs.drop_last(), s.drop_last());
        assert(s.last() == s[n - 1] && rs.last() == rs[n - 1]);
    }
}

/// Copy the bytes of `src[start..end]` into a fresh vector.
fn copy_range(src: &Vec<u8>, start: usize, end: usize) -> (r: Vec<u8>)
    requires
        start <= end <= src.len(),
    ensures
        r@ == src@.subrange(start as int, end as int),
{
    let mut r: Vec<u8> = Vec::new();
    let mut i: usize = start;
    while i < end
        invariant
            start <= i <= end <= src.len(),
            r@ == src@.subrange(start as int, i as int),
        decreases end - i,
    {
        r.push(src[i]);
        proof {
            assert(src@.subrange(start as int, i as int + 1) =~= src@.subrange(
                start as int,
                i as int,
            ).push(src@[i as int]));
        }
        i = i + 1;
    }
    r
}

/// Append the bytes of `src` to `dst`.
fn append_bytes(dst: &mut Vec<u8>, src: &Vec<u8>)
    ensures
        final(dst)@ == old(dst)@ + src@,
{
    let n = src.len();
    let mut i: usize = 0;
    while i < n
        invariant
            i <= n,
            n == src.len(),
            dst@ == old(dst)@ + src@.subrange(0, i as int),
        decreases n - i,
    {
        dst.push(src[i]);
        proof {
            assert(src@.subrange(0, i as int + 1) =~= src@.subrange(0, i as int).push(
                src@[i as int],
            ));
            assert(old(dst)@ + src@.subrange(0, i as int).push(src@[i as int]) =~= (old(dst)@
                + src@.subrange(0, i as int)).push(src@[i as int]));
        }
        i = i + 1;
    }
    proof {
        assert(src@.subrange(0, n as int) =~= src@);
    }
}

/// Append the bytes of `src[start..end]` to `dst`.
fn append_from(dst: &mut Vec<u8>, src: &Vec<u8>, start: usize, end: usize)
    requires
        start <= end <= src.len(),
    ensures
        final(dst)@ == old(dst)@ + src@.subrange(start as int, end as int),
{
    let piece = copy_range(src, start, end);
    append_bytes(dst, &piece);
}

/// The storage engine over one working directory's log.
pub struct KvStore {
    log: Vec<u8>,
    records: Ghost<Seq<RecordModel>>,
    durable: Ghost<Seq<u8>>,
    index: Index,
    stale_bytes: u64,
    threshold: u64,
    pending: Vec<LogEffect>,
}

impl KvStore {
    /// The visible key-value state.
    pub closed spec fn kv(&self) -> Map<Seq<char>, Seq<char>> {
        replay(self.records@)
    }

    /// The bytes of the active in-memory log segment.
    pub closed spec fn log_bytes(&self) -> Seq<u8> {
        self.log@
    }

    /// The bytes the durable file held when the effects now pending were
    /// last drained (or the bytes the store was opened from).
    pub closed spec fn durable_bytes(&self) -> Seq<u8> {
        self.durable@
    }

    /// The effects not yet drained.
    pub closed spec fn effects(&self) -> Seq<LogEffect> {
        self.pending@
    }

    /// The stale-byte count.
    pub closed spec fn stale(&self) -> u64 {
        self.stale_bytes
    }

    /// The compaction threshold this store was opened with.
    pub closed spec fn compaction_threshold(&self) -> u64 {
        self.threshold
    }

    /// Well-formedness: the log is exactly the encoding of the replayed
    /// records; the index is their pointer map; every byte of the log is
    /// live or stale; and applying the pending effects to the durable file
    /// yields the log.
    pub closed spec fn wf(&self) -> bool {
        &&& self.log@ == encode_all(self.records@)
        &&& self.index.wf()
        &&& (forall|k: Seq<char>|
            self.index@.contains_key(k) <==> #[trigger] replay_ptr(self.records@).contains_key(k))
        &&& (forall|k: Seq<char>| #[trigger]
            self.index@.contains_key(k) ==> (self.index@[k].location as int, self.index@[k].length
                as int) == replay_ptr(self.records@)[k])
        &&& live_bytes(self.index.pairs()) + self.stale_bytes == self.log@.len()
        &&& apply_effects(self.durable@, self.pending@) == self.log@
    }

    /// Open a store from the bytes of its log file, with the given
    /// compaction threshold. Every complete record of the cleanly decodable
    /// prefix is replayed in file order; an unreadable trailing partial
    /// record is discarded, and an effect is recorded that rewrites the file
    /// without it.
    #[verifier::rlimit(100)]
    pub fn open_with_threshold(data: Vec<u8>, threshold: u64) -> (r: KvStore)
        ensures
            r.wf(),
            r.kv() == recover_map(data@),
            r.durable_bytes() == data@,
            r.compaction_threshold() == threshold,
            r.log_bytes() == encode_all(recover_records(data@, 0)),
    {
        let mut index = Index::new();
        let mut stale: u64 = 0;
        let ghost mut records: Seq<RecordModel> = Seq::empty();
        let mut pos: usize = 0;
        proof {
            assert(encode_all(records) =~= data@.subrange(0, 0));
        }
        loop
            invariant
                pos <= data.len(),
                index.wf(),
                encode_all(records) == data@.subrange(0, pos as int),
                recover_records(data@, 0) == records + recover_records(data@, pos as int),
                forall|k: Seq<char>|
                    index@.contains_key(k) <==> #[trigger] replay_ptr(records).contains_key(k),
                forall|k: Seq<char>| #[trigger]
                    index@.contains_key(k) ==> (index@[k].location as int, index@[k].length
                        as int) == replay_ptr(records)[k],
                live_bytes(index.pairs()) + stale == pos,
            ensures
                pos <= data.len(),
                index.wf(),
                encode_all(records) == data@.subrange(0, pos as int),
                records == recover_records(data@, 0),
                forall|k: Seq<char>|
                    index@.contains_key(k) <==> #[trigger] replay_ptr(records).contains_key(k),
                forall|k: Seq<char>| #[trigger]
                    index@.contains_key(k) ==> (index@[k].location as int, index@[k].length
                        as int) == replay_ptr(records)[k],
                live_bytes(index.pairs()) + stale == pos,
            decreases data.len() - pos,
        {
            proof {
                assert(recover_records(data@, 0) == records + recover_records(data@, pos as int));
            }
            match decode_record(&data, pos) {
                Some((rec, next)) => {
                    let ghost rv = rec@;
                    let ghost rs0 = records;
                    let ghost pairs_before = index.pairs();
                    proof {
                        lemma_parse_record_sound(data@, pos as int, rv, next as int);
                        lemma_encode_all_snoc(rs0, rv);
                        assert(encode_all(rs0.push(rv)) =~= data@.subrange(0, next as int));
                        assert(recover_records(data@, pos as int) == seq![rv] + recover_records(
                            data@,
                            next as int,
                        ));
                        assert(rs0.push(rv) + recover_records(data@, next as int) =~= rs0 + (
                        seq![rv] + recover_records(data@, next as int)));
                        assert(encode_all(rs0).len() == pos as int);
                        crate::index::lemma_live_bytes_bounds(pairs_before);
                        crate::index::lemma_assoc_map_entries(pairs_before);
                    }
                    let len = next - pos;
                    let ptr = Pointer { location: pos as u64, length: len as u64 };
                    match rec {
                        Record::Put { key, value: _value } => {
                            let prior = index.insert(key, ptr);
                            match prior {
                                Some(p) => {
                                    stale = stale + p.length;
                                },
                                None => {},
                            }
                        },
                        Record::Remove { key } => {
                            let prior = index.remove(&key);
                            match prior {
                                Some(p) => {
                                    stale = stale + p.length + len as u64;
                                },
                                None => {
                                    stale = stale + len as u64;
                                },
                            }
                        },
                    }
                    proof {
                        records = rs0.push(rv);
                        assert(records.drop_last() =~= rs0);
                        assert(records.last() == rv);
                    }
                    pos = next;
                },
                None => {
                    proof {
                        assert(recover_records(data@, pos as int) =~= Seq::<RecordModel>::empty());
                        assert(records + Seq::<RecordModel>::empty() =~= records);
                    }
                    break ;
                },
            }
        }
        proof {
            assert(records == recover_records(data@, 0));
        }
        if pos == data.len() {
            proof {
                assert(data@.subrange(0, pos as int) =~= data@);
            }
            let ghost dv = data@;
            let r = KvStore {
                log: data,
                records: Ghost(records),
                durable: Ghost(dv),
                index,
                stale_bytes: stale,
                threshold,
                pending: Vec::new(),
            };
            r
        } else {
            let clean = copy_range(&data, 0, pos);
            let again = copy_range(&data, 0, pos);
            let mut pending: Vec<LogEffect> = Vec::new();
            pending.push(LogEffect::Replace(again));
            let r = KvStore {
                log: clean,
                records: Ghost(records),
                durable: Ghost(data@),
                index,
                stale_bytes: stale,
                threshold,
                pending,
            };
            proof {
                assert(r.pending@.drop_last() =~= Seq::<LogEffect>::empty());
            }
            r
        }
    }

    /// Open a store from the bytes of its log file with the default
    /// compaction threshold.
    pub fn open(data: Vec<u8>) -> (r: KvStore)
        ensures
            r.wf(),
            r.kv() == recover_map(data@),
            r.durable_bytes() == data@,
            r.compaction_threshold() == DEFAULT_COMPACTION_THRESHOLD,
    {
        KvStore::open_with_threshold(data, DEFAULT_COMPACTION_THRESHOLD)
    }

    /// Read the value of a key. A missing key is `Ok(None)`, never an
    /// error; under the engine invariant the internal-fault branch is
    /// proven unreachable, so the call always succeeds.
    pub fn get(&self, key: &String) -> (r: Result<Option<String>, MyError>)
        requires
            self.wf(),
        ensures
            r matches Ok(ov) && (if self.kv().contains_key(key@) {
                ov matches Some(v) && v@ == self.kv()[key@]
            } else {
                ov is None
            }),
    {
        proof {
            lemma_replay_ptr_valid(self.records@);
        }
        match self.index.lookup(key) {
            None => {
                proof {
                    assert(!replay_ptr(self.records@).contains_key(key@));
                }
                Ok(None)
            },
            Some(ptr) => {
                let ghost rv = RecordModel::Put { key: key@, value: self.kv()[key@] };
                proof {
                    assert(replay_ptr(self.records@).contains_key(key@));
                }
                proof {
                    let k = key@;
                    let lo = replay_ptr(self.records@)[k].0;
                    let ln = replay_ptr(self.records@)[k].1;
                    assert(replay_ptr(self.records@).contains_key(k));
                    assert((ptr.location as int, ptr.length as int) == replay_ptr(
                        self.records@,
                    )[k]);
                    assert(self.log@.subrange(lo, lo + ln) == encode_record_model(rv));
                    assert(ln == encode_record_model(rv).len());
                    assert(lo + ln <= self.log.len());
                    assert(crate::codec::has_bytes_at(self.log@, lo, encode_record_model(rv)));
                    lemma_parse_record_complete(self.log@, lo, rv);
                }
                let start = ptr.location as usize;
                match decode_record(&self.log, start) {
                    Some((found, _next)) => match found {
                        Record::Put { key: _k, value } => Ok(Some(value)),
                        Record::Remove { .. } => {
                            proof {
                                assert(false);
                            }
                            Err(MyError::InternalInvariant)
                        },
                    },
                    None => {
                        proof {
                            assert(false);
                        }
                        Err(MyError::InternalInvariant)
                    },
                }
            },
        }
    }

    /// Bind a key to a value: append a `Set` record, repoint the index,
    /// account the overwritten record as stale, and compact when the stale
    /// bytes exceed the threshold.
    pub fn set(&mut self, key: String, value: String) -> (r: Result<(), MyError>)
        requires
            old(self).wf(),
        ensures
            final(self).wf(),
            r is Ok,
            final(self).kv() == old(self).kv().insert(key@, value@),
            final(self).durable_bytes() == old(self).durable_bytes(),
            final(self).compaction_threshold() == old(self).compaction_threshold(),
            final(self).stale() <= final(self).compaction_threshold(),
            old(self).effects().is_prefix_of(final(self).effects()),
    {
        let rec = Record::Put { key: key.clone(), value };
        let data = encode_record(&rec);
        let n = data.len();
        let loc = self.log.len();
        proof {
            lemma_encode_all_snoc(self.records@, rec@);
            crate::index::lemma_live_bytes_bounds(self.index.pairs());
            crate::index::lemma_assoc_map_entries(self.index.pairs());
            lemma_replay_ptr_valid(self.records@);
        }
        append_bytes(&mut self.log, &data);
        let ptr = Pointer { location: loc as u64, length: n as u64 };
        let prior = self.index.insert(key, ptr);
        proof {
            self.records = Ghost(self.records@.push(rec@));
            assert(self.records@.drop_last() =~= old(self).records@);
            assert(self.records@.last() == rec@);
        }
        match prior {
            Some(p) => {
                self.stale_bytes = self.stale_bytes + p.length;
            },
            None => {},
        }
        self.pending.push(LogEffect::Append(data));
        proof {
            assert(self.pending@.drop_last() =~= old(self).pending@);
            assert(old(self).pending@.is_prefix_of(self.pending@));
        }
        if self.stale_bytes > self.threshold {
            self.force_compaction();
        }
        Ok(())
    }

    /// Unbind a key: `KeyNotFound` when it is absent; otherwise append a
    /// tombstone, drop the index entry, and account both the tombstone and
    /// the overwritten record as stale.
    pub fn remove(&mut self, key: &String) -> (r: Result<(), MyError>)
        requires
            old(self).wf(),
        ensures
            final(self).wf(),
            final(self).durable_bytes() == old(self).durable_bytes(),
            final(self).compaction_threshold() == old(self).compaction_threshold(),
            old(self).effects().is_prefix_of(final(self).effects()),
            old(self).kv().contains_key(key@) ==> r is Ok && final(self).kv() == old(
                self,
            ).kv().remove(key@),
            !old(self).kv().contains_key(key@) ==> (r matches Err(MyError::KeyNotFound)) && (
            *final(self)) == (*old(self)),
    {
        proof {
            lemma_replay_ptr_valid(self.records@);
        }
        match self.index.lookup(key) {
            None => {
                proof {
                    assert(!replay_ptr(self.records@).contains_key(key@));
                    assert(old(self).pending@.is_prefix_of(self.pending@));
                }
                Err(MyError::KeyNotFound)
            },
            Some(_ptr) => {
                proof {
                    assert(replay_ptr(self.records@).contains_key(key@));
                    assert(self.kv().contains_key(key@));
                }
                let rec = Record::Remove { key: key.clone() };
                let data = encode_record(&rec);
                let n = data.len();
                proof {
                    lemma_encode_all_snoc(self.records@, rec@);
                    crate::index::lemma_live_bytes_bounds(self.index.pairs());
                    crate::index::lemma_assoc_map_entries(self.index.pairs());
                }
                append_bytes(&mut self.log, &data);
                let prior = self.index.remove(key);
                proof {
                    self.records = Ghost(self.records@.push(rec@));
                    assert(self.records@.drop_last() =~= old(self).records@);
                    assert(self.records@.last() == rec@);
                }
                match prior {
                    Some(p) => {
                        proof {
                            let pairs_before = old(self).index.pairs();
                            assert(p == crate::index::assoc_map(pairs_before)[key@]);
                            let j = choose|j: int|
                                0 <= j < pairs_before.len() && (#[trigger] pairs_before[j]).0
                                    == key@;
                            assert(crate::index::assoc_map(pairs_before)[pairs_before[j].0]
                                == pairs_before[j].1);
                            assert(p.length <= live_bytes(pairs_before));
                            assert(self.stale_bytes + p.length + n <= self.log.len());
                        }
                        self.stale_bytes = self.stale_bytes + p.length + n as u64;
                    },
                    None => {
                        proof {
                            assert(false);
                        }
                    },
                }
                self.pending.push(LogEffect::Append(data));
                proof {
                    assert(self.pending@.drop_last() =~= old(self).pending@);
                    assert(old(self).pending@.is_prefix_of(self.pending@));
                    assert(replay(self.records@) == replay(old(self).records@).remove(key@));
                }
                Ok(())
            },
        }
    }

    /// Rewrite only the live records, in index order, into a fresh segment,
    /// replace the log with it, repoint every index entry, and reset the
    /// stale-byte count. The visible state is unchanged, the segment never
    /// grows, and both the old and the new segment recover to the same
    /// state, so a crash on either side of the file replacement loses
    /// nothing.
    #[verifier::rlimit(100)]
    pub fn force_compaction(&mut self)
        requires
            old(self).wf(),
        ensures
            final(self).wf(),
            final(self).kv() == old(self).kv(),
            final(self).log_bytes().len() <= old(self).log_bytes().len(),
            final(self).stale() == 0,
            final(self).durable_bytes() == old(self).durable_bytes(),
            final(self).compaction_threshold() == old(self).compaction_threshold(),
            old(self).effects().is_prefix_of(final(self).effects()),
    {
        let n = self.index.len();
        let mut new_log: Vec<u8> = Vec::new();
        let ghost old_records = self.records@;
        let ghost pairs0 = self.index.pairs();
        let ghost new_records = Seq::new(
            pairs0.len(),
            |i: int|
                RecordModel::Put { key: pairs0[i].0, value: replay(old_records)[pairs0[i].0] },
        );
        proof {
            lemma_replay_ptr_valid(old_records);
            crate::index::lemma_assoc_map_entries(pairs0);
            assert(encode_all(new_records.subrange(0, 0)) =~= new_log@);
        }
        let mut i: usize = 0;
        while i < n
            invariant
                i <= n,
                n == pairs0.len(),
                self.log == old(self).log,
                self.records == old(self).records,
                self.durable == old(self).durable,
                self.pending == old(self).pending,
                self.stale_bytes == old(self).stale_bytes,
                self.threshold == old(self).threshold,
                old(self).wf(),
                old_records == self.records@,
                pairs0 == old(self).index.pairs(),
                new_records.len() == pairs0.len(),
                forall|j: int|
                    0 <= j < n ==> #[trigger] new_records[j] == (RecordModel::Put {
                        key: pairs0[j].0,
                        value: replay(old_records)[pairs0[j].0],
                    }),
                self.index.wf(),
                self.index.pairs().len() == n,
                forall|j: int|
                    0 <= j < n ==> (#[trigger] self.index.pairs()[j]).0 == pairs0[j].0,
                forall|j: int|
                    i <= j < n ==> (#[trigger] self.index.pairs()[j]).1 == pairs0[j].1,
                forall|j: int|
                    0 <= j < i ==> (#[trigger] self.index.pairs()[j]).1.location as int
                        == encode_all(new_records.subrange(0, j)).len() && (
                    #[trigger] self.index.pairs()[j]).1.length == pairs0[j].1.length,
                new_log@ == encode_all(new_records.subrange(0, i as int)),
                live_bytes(self.index.pairs()) == live_bytes(pairs0),
            decreases n - i,
        {
            let ptr = self.index.ptr_at(i);
            let ghost k = pairs0[i as int].0;
            proof {
                crate::index::lemma_assoc_map_entries(pairs0);
                lemma_replay_ptr_valid(old_records);
                assert(crate::index::assoc_map(pairs0).contains_key(k) && crate::index::assoc_map(
                    pairs0,
                )[k] == pairs0[i as int].1);
                assert(old(self).index@.contains_key(k));
                assert(ptr == pairs0[i as int].1);
                assert((ptr.location as int, ptr.length as int) == replay_ptr(old_records)[k]);
                assert(replay_ptr(old_records).contains_key(k));
                assert(replay(old_records).contains_key(k));
                assert(ptr.location as int + ptr.length as int <= self.log.len());
            }
            let start = ptr.location as usize;
            let end = start + ptr.length as usize;
            let newloc = new_log.len();
            append_from(&mut new_log, &self.log, start, end);
            self.index.set_ptr_at(i, Pointer { location: newloc as u64, length: ptr.length });
            proof {
                assert(new_records.subrange(0, i as int + 1) =~= new_records.subrange(
                    0,
                    i as int,
                ).push(new_records[i as int]));
                lemma_encode_all_snoc(new_records.subrange(0, i as int), new_records[i as int]);
                assert(self.log@ == encode_all(old_records));
                assert(self.log@.subrange(start as int, end as int) == encode_record_model(
                    new_records[i as int],
                ));
            }
            i = i + 1;
        }
        proof {
            assert(new_records.subrange(0, n as int) =~= new_records);
            assert(new_log@ == encode_all(new_records));
            assert forall|k: Seq<char>| #[trigger]
                crate::index::assoc_map(pairs0).contains_key(k) implies (crate::index::assoc_map(
                pairs0,
            )[k].location as int, crate::index::assoc_map(pairs0)[k].length as int) == replay_ptr(
                old_records,
            )[k] by {
                assert(old(self).index@.contains_key(k));
            }
            lemma_compaction_replay(old_records, pairs0, new_records, self.index.pairs());
            lemma_compaction_lens(old_records, pairs0, new_records, self.index.pairs());
            lemma_compaction_ptrs(old_records, pairs0, new_records, self.index.pairs());
        }
        self.stale_bytes = 0;
        let again = copy_range(&new_log, 0, new_log.len());
        self.log = new_log;
        proof {
            self.records = Ghost(new_records);
        }
        self.pending.push(LogEffect::Replace(again));
        proof {
            assert(self.pending@.drop_last() =~= old(self).pending@);
            assert(old(self).pending@.is_prefix_of(self.pending@));
            assert(again@ =~= self.log@);
        }
    }

    /// Hand over the pending file effects, in order. Applying them to the
    /// file contents as of the previous drain yields exactly the current
    /// log segment.
    pub fn take_effects(&mut self) -> (effs: Vec<LogEffect>)
        requires
            old(self).wf(),
        ensures
            final(self).wf(),
            final(self).kv() == old(self).kv(),
            final(self).log_bytes() == old(self).log_bytes(),
            final(self).compaction_threshold() == old(self).compaction_threshold(),
            effs@ == old(self).effects(),
            final(self).effects().len() == 0,
            final(self).durable_bytes() == final(self).log_bytes(),
            apply_effects(old(self).durable_bytes(), effs@) == old(self).log_bytes(),
    {
        let mut effs: Vec<LogEffect> = Vec::new();
        core::mem::swap(&mut effs, &mut self.pending);
        proof {
            self.durable = Ghost(self.log@);
        }
        effs
    }

    /// The byte length of the active log segment.
    pub fn log_len(&self) -> (n: usize)
        ensures
            n == self.log_bytes().len(),
    {
        self.log.len()
    }
}

/// Durability: the bytes of a well-formed store's log segment, replayed
/// from offset zero, rebuild exactly its visible state. Closing a store
/// without ceremony and reopening on the same file therefore loses nothing
/// that was acknowledged.
pub proof fn lemma_recovery_roundtrip(s: &KvStore)
    requires
        s.wf(),
    ensures
        recover_map(s.log_bytes()) == s.kv(),
{
    assert(s.log_bytes().subrange(0, s.log_bytes().len() as int) =~= s.log_bytes());
    lemma_recover_encode_all(s.log_bytes(), 0, s.records@);
}

/// Compaction crash-safety: compaction leaves the visible state unchanged,
/// so whichever segment survives a crash around the file replacement — the
/// old one if the rename never happened, the new one if it did — replaying
/// it recovers that same state, and nothing is lost.
pub proof fn lemma_compaction_crash_safe(before: &KvStore, after: &KvStore)
    requires
        before.wf(),
        after.wf(),
        after.kv() == before.kv(),
    ensures
        recover_map(before.log_bytes()) == before.kv(),
        recover_map(after.log_bytes()) == before.kv(),
{
    lemma_recovery_roundtrip(before);
    lemma_recovery_roundtrip(after);
}

/// Binding a key makes exactly that binding visible: the foundation of
/// `set(k, v)` then `get(k)` returning `v`.
pub proof fn lemma_set_then_get(m: Map<Seq<char>, Seq<char>>, k: Seq<char>, v: Seq<char>)
    ensures
        m.insert(k, v).contains_key(k),
        m.insert(k, v)[k] == v,
{
}

/// Only the latest binding of a key is visible: `set(k, a)` then
/// `set(k, b)` leaves `get(k)` at `b`.
pub proof fn lemma_overwrite(m: Map<Seq<char>, Seq<char>>, k: Seq<char>, a: Seq<char>, b: Seq<char>)
    ensures
        m.insert(k, a).insert(k, b).contains_key(k),
        m.insert(k, a).insert(k, b)[k] == b,
{
}

/// Unbinding a key that was never bound changes nothing: `remove(k)` fails
/// with `KeyNotFound` and `get(k)` still sees no value.
pub proof fn lemma_remove_missing(m: Map<Seq<char>, Seq<char>>, k: Seq<char>)
    requires
        !m.contains_key(k),
    ensures
        m.remove(k) == m,
{
    assert(m.remove(k) =~= m);
}

} // verus!
