//! Primary keys: what makes a batch of records acceptable.

use crate::ledger::model::first_clash;
use crate::ledger::records::{Order, Region};
use vstd::prelude::*;

verus! {

/// A record that is told from the others of its kind by an id.
pub trait Keyed {
    /// The id of this record.
    spec fn key(&self) -> int;

    /// Reads the id of this record.
    fn id(&self) -> (id: i32)
        ensures
            id as int == self.key(),
    ;
}

impl Keyed for Region {
    open spec fn key(&self) -> int {
        self.id as int
    }

    fn id(&self) -> (id: i32) {
        self.id
    }
}

impl Keyed for Order {
    open spec fn key(&self) -> int {
        self.id as int
    }

    fn id(&self) -> (id: i32) {
        self.id
    }
}

/// The ids of a sequence of records, in the same positions.
pub open spec fn keys_in<T: Keyed>(records: Seq<T>) -> Seq<int> {
    records.map_values(|x: T| x.key())
}

/// A batch without a clash is one whose ids, put behind the ids that are
/// present, repeat nothing.
pub proof fn lemma_first_clash_none(present: Seq<int>, batch: Seq<int>)
    requires
        present.no_duplicates(),
    ensures
        first_clash(present, batch) is None <==> (present + batch).no_duplicates(),
    decreases batch.len(),
{
    if batch.len() == 0 {
        assert(present + batch =~= present);
    } else {
        let all = present + batch;
        let n = present.len() as int;
        assert(all[n] == batch[0]);
        if present.contains(batch[0]) {
            let i = choose|i: int| 0 <= i < present.len() && present[i] == batch[0];
            assert(all[i] == all[n]);
        } else {
            let grown = present.push(batch[0]);
            assert(grown + batch.drop_first() =~= all);
            lemma_first_clash_none(grown, batch.drop_first());
        }
    }
}

/// Whether `id` is on one of the first `upto` records.
fn holds_id<T: Keyed>(records: &Vec<T>, upto: usize, id: i32) -> (r: bool)
    requires
        upto <= records.len(),
    ensures
        r == keys_in(records@).take(upto as int).contains(id as int),
{
    let ghost ids = keys_in(records@).take(upto as int);
    let mut i: usize = 0;
    while i < upto
        invariant
            i <= upto <= records.len(),
            ids == keys_in(records@).take(upto as int),
            forall|j: int| 0 <= j < i ==> ids[j] != id as int,
        decreases upto - i,
    {
        if records[i].id() == id {
            assert(ids[i as int] == id as int);
            return true;
        }
        i = i + 1;
    }
    false
}

/// Looks for the first record of `batch` whose id is already on a record
/// of `present` or on an earlier record of `batch`, and reports that id.
pub fn find_clash<T: Keyed>(present: &Vec<T>, batch: &Vec<T>) -> (r: Option<i32>)
    ensures
        r is Some <==> first_clash(keys_in(present@), keys_in(batch@)) is Some,
        r matches Some(id) ==> first_clash(keys_in(present@), keys_in(batch@)) == Some(id as int),
{
    let ghost old_ids = keys_in(present@);
    let ghost new_ids = keys_in(batch@);
    let mut i: usize = 0;
    proof {
        assert(old_ids + new_ids.take(0) =~= old_ids);
        assert(new_ids.skip(0) =~= new_ids);
    }
    while i < batch.len()
        invariant
            i <= batch.len(),
            old_ids == keys_in(present@),
            new_ids == keys_in(batch@),
            first_clash(old_ids, new_ids) == first_clash(
                old_ids + new_ids.take(i as int),
                new_ids.skip(i as int),
            ),
        decreases batch.len() - i,
    {
        let id = batch[i].id();
        let ghost seen = old_ids + new_ids.take(i as int);
        let ghost rest = new_ids.skip(i as int);
        let known = holds_id(present, present.len(), id) || holds_id(batch, i, id);
        proof {
            assert(old_ids.take(present.len() as int) =~= old_ids);
            assert(rest[0] == id as int);
            if new_ids.take(i as int).contains(id as int) {
                let j = choose|j: int|
                    0 <= j < new_ids.take(i as int).len() && new_ids.take(i as int)[j] == id as int;
                assert(seen[old_ids.len() + j] == id as int);
            }
            if old_ids.contains(id as int) {
                let j = choose|j: int| 0 <= j < old_ids.len() && old_ids[j] == id as int;
                assert(seen[j] == id as int);
            }
            assert(known == seen.contains(id as int));
        }
        if known {
            return Some(id);
        }
        proof {
            assert(seen.push(rest[0]) =~= old_ids + new_ids.take(i + 1));
            assert(rest.drop_first() =~= new_ids.skip(i + 1));
        }
        i = i + 1;
    }
    None
}

} // verus!
