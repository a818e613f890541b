//! The unit of durability: one command, either an upsert or a deletion.

use vstd::prelude::*;

verus! {

/// One entry of the command log. Immutable once written.
#[derive(Debug)]
pub enum Record {
    Put { key: String, value: String },
    Remove { key: String },
}

/// The mathematical shape of a [`Record`]: the same tag over character
/// sequences.
pub enum RecordModel {
    Put { key: Seq<char>, value: Seq<char> },
    Remove { key: Seq<char> },
}

impl View for Record {
    type V = RecordModel;

    open spec fn view(&self) -> RecordModel {
        match self {
            Record::Put { key, value } => RecordModel::Put { key: key@, value: value@ },
            Record::Remove { key } => RecordModel::Remove { key: key@ },
        }
    }
}

/// The visible key-value state implied by a sequence of log records, read in
/// file order: a `Set` binds its key, a `Remove` unbinds it, and the latest
/// record for a key wins.
pub open spec fn replay(rs: Seq<RecordModel>) -> Map<Seq<char>, Seq<char>>
    decreases rs.len(),
{
    if rs.len() == 0 {
        Map::empty()
    } else {
        let m = replay(rs.drop_last());
        match rs.last() {
            RecordModel::Put { key, value } => m.insert(key, value),
            RecordModel::Remove { key } => m.remove(key),
        }
    }
}

/// A sequence of `Set` records with pairwise distinct keys replays to exactly
/// the map of its pairs. This is the shape a compacted log has.
pub proof fn lemma_replay_all_sets(rs: Seq<RecordModel>)
    requires
        forall|i: int| 0 <= i < rs.len() ==> rs[i] is Put,
        forall|i: int, j: int|
            0 <= i < j < rs.len() ==> (#[trigger] rs[i])->Put_key != (#[trigger] rs[j])->Put_key,
    ensures
        forall|i: int|
            0 <= i < rs.len() ==> replay(rs).contains_key((#[trigger] rs[i])->Put_key)
                && replay(rs)[rs[i]->Put_key] == rs[i]->Put_value,
        forall|k: Seq<char>|
            replay(rs).contains_key(k) ==> exists|i: int|
                0 <= i < rs.len() && (#[trigger] rs[i])->Put_key == k,
    decreases rs.len(),
{
    if rs.len() > 0 {
        let pre = rs.drop_last();
        let last = rs.last();
        let n = rs.len() as int;
        lemma_replay_all_sets(pre);
        assert(replay(rs) == replay(pre).insert(last->Put_key, last->Put_value));
        assert forall|i: int|
            0 <= i < rs.len() implies replay(rs).contains_key((#[trigger] rs[i])->Put_key)
            && replay(rs)[rs[i]->Put_key] == rs[i]->Put_value by {
            if i < n - 1 {
                assert(pre[i] == rs[i]);
                assert(rs[i]->Put_key != rs[n - 1]->Put_key);
            }
        }
        assert forall|k: Seq<char>| replay(rs).contains_key(k) implies exists|i: int|
            0 <= i < rs.len() && (#[trigger] rs[i])->Put_key == k by {
            if k == last->Put_key {
                assert(rs[n - 1]->Put_key == k);
            } else {
                let i = choose|i: int| 0 <= i < pre.len() && (#[trigger] pre[i])->Put_key == k;
                assert(rs[i]->Put_key == k);
            }
        }
    }
}

} // verus!
