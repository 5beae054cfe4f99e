//! Diagnostics as they are handed out: each with the pass it comes from and
//! the source of its segment, all of them in source order.

use vstd::prelude::*;
use crate::segment::{Diagnostic, DiagnosticClass, StatementAddress};
use crate::segment_order::SegmentId;
use crate::segment_set::SegmentSet;

verus! {

/// A diagnostic with the pass it comes from.
pub struct Finding {
    pub class: DiagnosticClass,
    pub address: StatementAddress,
    pub diagnostic: Diagnostic,
}

/// A diagnostic as it is handed out.
#[derive(Debug)]
pub struct Notation {
    /// The pass that the diagnostic comes from.
    pub class: DiagnosticClass,
    /// The statement that the diagnostic is about.
    pub address: StatementAddress,
    /// The diagnostic itself.
    pub diagnostic: Diagnostic,
    /// The name of the source that the segment of the statement came from,
    /// where the database holds that segment.
    pub origin: Option<Vec<u8>>,
}

/// The place of a statement in the sources: the position of its segment in
/// the logical order, or the number of segments where the segment is not in
/// the database, and the number of the statement.
pub open spec fn place(ids: Seq<SegmentId>, address: StatementAddress) -> (int, int) {
    (
        match ids.index_of_first(address.segment_id) {
            Some(n) => n,
            None => ids.len() as int,
        },
        address.index as int,
    )
}

/// The place `a` is not behind the place `b`.
pub open spec fn not_behind(a: (int, int), b: (int, int)) -> bool {
    a.0 < b.0 || (a.0 == b.0 && a.1 <= b.1)
}

/// The number of findings at the front of `list` that are not behind `at`.
pub open spec fn run_upto(ids: Seq<SegmentId>, list: Seq<Finding>, at: (int, int)) -> int
    decreases list.len(),
{
    if list.len() == 0 || !not_behind(place(ids, list[0].address), at) {
        0
    } else {
        1 + run_upto(ids, list.subrange(1, list.len() as int), at)
    }
}

/// The findings in source order: each finding of `list` in turn is put
/// behind the findings already placed that are not behind it.  Findings at
/// the same statement therefore stay in the order of `list`.
pub open spec fn arranged(ids: Seq<SegmentId>, list: Seq<Finding>) -> Seq<Finding>
    decreases list.len(),
{
    if list.len() == 0 {
        Seq::empty()
    } else {
        let placed = arranged(ids, list.drop_last());
        placed.insert(run_upto(ids, placed, place(ids, list.last().address)), list.last())
    }
}

/// No finding of `list` is behind one that follows it.
pub open spec fn in_source_order(ids: Seq<SegmentId>, list: Seq<Finding>) -> bool {
    forall|i: int, j: int|
        0 <= i < j < list.len() ==> not_behind(
            place(ids, list[i].address),
            place(ids, list[j].address),
        )
}

/// In a list in source order, the findings that are not behind a place are
/// those in front of `run_upto`.
pub proof fn lemma_run_upto(ids: Seq<SegmentId>, list: Seq<Finding>, at: (int, int))
    requires
        in_source_order(ids, list),
    ensures
        0 <= run_upto(ids, list, at) <= list.len(),
        forall|i: int|
            0 <= i < run_upto(ids, list, at) ==> not_behind(
                place(ids, (#[trigger] list[i]).address),
                at,
            ),
        forall|i: int|
            run_upto(ids, list, at) <= i < list.len() ==> !not_behind(
                place(ids, (#[trigger] list[i]).address),
                at,
            ),
    decreases list.len(),
{
    if list.len() > 0 {
        let rest = list.subrange(1, list.len() as int);
        assert forall|i: int, j: int| 0 <= i < j < rest.len() implies not_behind(
            place(ids, rest[i].address),
            place(ids, rest[j].address),
        ) by {
            assert(rest[i] == list[i + 1] && rest[j] == list[j + 1]);
        }
        lemma_run_upto(ids, rest, at);
        if not_behind(place(ids, list[0].address), at) {
            assert forall|i: int| 0 <= i < run_upto(ids, list, at) implies not_behind(
                place(ids, (#[trigger] list[i]).address),
                at,
            ) by {
                if i > 0 {
                    assert(list[i] == rest[i - 1]);
                }
            }
            assert forall|i: int| run_upto(ids, list, at) <= i < list.len() implies !not_behind(
                place(ids, (#[trigger] list[i]).address),
                at,
            ) by {
                assert(list[i] == rest[i - 1]);
            }
        } else {
            assert forall|i: int| 0 <= i < list.len() implies !not_behind(
                place(ids, (#[trigger] list[i]).address),
                at,
            ) by {
                if i > 0 {
                    assert(not_behind(place(ids, list[0].address), place(ids, list[i].address)));
                }
            }
        }
    }
}

/// Arranging yields a list in source order that holds the same findings as
/// often as the list it was made from.
pub proof fn lemma_arranged(ids: Seq<SegmentId>, list: Seq<Finding>)
    ensures
        in_source_order(ids, arranged(ids, list)),
        arranged(ids, list).len() == list.len(),
        arranged(ids, list).to_multiset() == list.to_multiset(),
    decreases list.len(),
{
    broadcast use vstd::seq_lib::group_to_multiset_ensures;

    if list.len() == 0 {
        assert(arranged(ids, list).to_multiset() =~= list.to_multiset());
    } else {
        let placed = arranged(ids, list.drop_last());
        let x = list.last();
        let at = place(ids, x.address);
        let k = run_upto(ids, placed, at);
        lemma_arranged(ids, list.drop_last());
        lemma_run_upto(ids, placed, at);
        let now = placed.insert(k, x);
        assert forall|i: int, j: int| 0 <= i < j < now.len() implies not_behind(
            place(ids, now[i].address),
            place(ids, now[j].address),
        ) by {
            let a = if i < k { i } else { i - 1 };
            let b = if j < k { j } else { j - 1 };
            if i != k && j != k {
                assert(now[i] == placed[a] && now[j] == placed[b]);
            } else if i == k {
                assert(now[j] == placed[b]);
            } else {
                assert(now[i] == placed[a]);
            }
        }
        placed.to_multiset_ensures();
        assert(now.to_multiset() =~= placed.to_multiset().insert(x));
        assert(list =~= list.drop_last().push(x));
        list.drop_last().to_multiset_ensures();
        assert(list.to_multiset() =~= list.drop_last().to_multiset().insert(x));
    }
}

/// Puts findings in source order.
pub fn arrange(set: &SegmentSet, list: Vec<Finding>) -> (sorted: Vec<Finding>)
    ensures
        sorted@ == arranged(set.ids(), list@),
{
    let ghost ids = set.ids();
    let ghost all = list@;
    let mut sorted: Vec<Finding> = Vec::new();
    let mut places: Vec<(usize, i32)> = Vec::new();
    for finding in it: list
        invariant
            it.seq() == all,
            ids == set.ids(),
            sorted@ == arranged(ids, all.subrange(0, it.index() as int)),
            places@.len() == sorted@.len(),
            forall|i: int|
                0 <= i < places@.len() ==> ((#[trigger] places@[i]).0 as int, places@[i].1 as int)
                    == place(ids, sorted@[i].address),
    {
        let ghost placed = sorted@;
        let at = set.place_of(finding.address);
        let mut k: usize = 0;
        proof {
            assert(placed.subrange(0, placed.len() as int) =~= placed);
        }
        while k < places.len() && (places[k].0 < at.0 || (places[k].0 == at.0 && places[k].1
            <= at.1))
            invariant
                k <= places@.len(),
                places@.len() == sorted@.len(),
                sorted@ == placed,
                (at.0 as int, at.1 as int) == place(ids, finding.address),
                forall|i: int|
                    0 <= i < places@.len() ==> ((#[trigger] places@[i]).0 as int, places@[i].1 as int)
                        == place(ids, sorted@[i].address),
                run_upto(ids, placed, place(ids, finding.address)) == k + run_upto(
                    ids,
                    placed.subrange(k as int, placed.len() as int),
                    place(ids, finding.address),
                ),
            decreases places@.len() - k,
        {
            proof {
                let rest = placed.subrange(k as int, placed.len() as int);
                assert(rest[0] == placed[k as int]);
                assert(rest.subrange(1, rest.len() as int) =~= placed.subrange(
                    k + 1,
                    placed.len() as int,
                ));
            }
            k += 1;
        }
        proof {
            let rest = placed.subrange(k as int, placed.len() as int);
            if k < placed.len() {
                assert(rest[0] == placed[k as int]);
            }
            let upto = all.subrange(0, it.index() + 1);
            assert(upto.drop_last() =~= all.subrange(0, it.index() as int));
            assert(upto.last() == finding);
        }
        places.insert(k, at);
        sorted.insert(k, finding);
    }
    proof {
        assert(all.subrange(0, all.len() as int) =~= all);
    }
    sorted
}

} // verus!
