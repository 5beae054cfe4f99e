//! The ordered collection of parsed segments.
//!
//! The set remembers which piece of which source each segment came from.  On
//! a reload it keeps the segments of the pieces that did not change, and with
//! them their identifiers; it gives the segments of a changed piece the
//! identifiers of the segments they replace where there are as many of them;
//! and everywhere else it frees the old identifiers and allocates new ones
//! between their neighbours.

use vstd::prelude::*;
use std::sync::Arc;
use crate::segment::{
    Diagnostic, ErrorKind, Segment, SegmentRef, StatementAddress, StatementRef,
};
use crate::segment_order::{OrderView, SegmentId, SegmentOrder};
use crate::pass::share;
use crate::source::{
    copy_bytes, enumerate, layout, plan_views, plans_fit, PieceKey, PiecePlan, SourcePiece,
    SourceText,
};

verus! {

/// A segment of the set with its identifier.
pub struct SegmentEntry {
    pub id: SegmentId,
    pub segment: Arc<Segment>,
}

/// One piece of the sources with the segments that were parsed from it.
pub struct PieceRecord {
    /// The piece as it was recorded when it was read.
    pub piece: SourcePiece,
    /// The error that the piece stands for, if it stands for one.
    pub error: Option<ErrorKind>,
    /// The segments of the piece, in source order.
    pub entries: Vec<SegmentEntry>,
}

impl PieceRecord {
    /// The identifiers of the segments of the piece.
    pub open spec fn ids(&self) -> Seq<SegmentId> {
        Seq::new(self.entries@.len(), |i: int| self.entries@[i].id)
    }

    /// The segments of the piece.
    pub open spec fn segments(&self) -> Seq<Segment> {
        Seq::new(self.entries@.len(), |i: int| *self.entries@[i].segment)
    }
}

/// The mathematical content of a `PieceRecord`.
pub struct RecordView {
    /// What identifies the piece across reloads.
    pub key: PieceKey,
    /// What was recorded to detect a modification.
    pub fingerprint: (bool, u64, u64),
    /// The error that the piece stands for, if it stands for one.
    pub error: Option<ErrorKind>,
    /// The identifiers of the segments.
    pub ids: Seq<SegmentId>,
    /// The segments.
    pub segments: Seq<Segment>,
}

impl View for PieceRecord {
    type V = RecordView;

    open spec fn view(&self) -> RecordView {
        RecordView {
            key: self.piece.key(),
            fingerprint: self.piece.fingerprint(),
            error: self.error,
            ids: self.ids(),
            segments: self.segments(),
        }
    }
}

/// The views of `records`.
pub open spec fn record_views(records: Seq<PieceRecord>) -> Seq<RecordView> {
    Seq::new(records.len(), |i: int| records[i]@)
}

/// The identifiers of all segments of `records`, in order.
pub open spec fn flat_ids(records: Seq<RecordView>) -> Seq<SegmentId>
    decreases records.len(),
{
    if records.len() == 0 {
        Seq::empty()
    } else {
        flat_ids(records.drop_last()) + records.last().ids
    }
}

/// The identifiers of a list of records are those of its first record
/// followed by those of the rest.
pub proof fn lemma_flat_ids_front(records: Seq<RecordView>)
    requires
        records.len() > 0,
    ensures
        flat_ids(records) == records[0].ids + flat_ids(records.subrange(1, records.len() as int)),
    decreases records.len(),
{
    let rest = records.subrange(1, records.len() as int);
    if records.len() == 1 {
        assert(records.drop_last() =~= Seq::<RecordView>::empty());
        assert(rest =~= Seq::<RecordView>::empty());
        assert(flat_ids(records) =~= records[0].ids + flat_ids(rest));
    } else {
        lemma_flat_ids_front(records.drop_last());
        assert(records.drop_last().subrange(1, records.len() - 1) =~= rest.drop_last());
        assert(flat_ids(records) =~= records[0].ids + flat_ids(rest));
    }
}

/// All segments of `records`, in order.
pub open spec fn flat_segments(records: Seq<RecordView>) -> Seq<Segment>
    decreases records.len(),
{
    if records.len() == 0 {
        Seq::empty()
    } else {
        flat_segments(records.drop_last()) + records.last().segments
    }
}

/// There are as many identifiers as segments.
pub proof fn lemma_flat_len(records: Seq<RecordView>)
    requires
        forall|i: int| 0 <= i < records.len() ==> (#[trigger] records[i]).ids.len() == records[i].segments.len(),
    ensures
        flat_ids(records).len() == flat_segments(records).len(),
    decreases records.len(),
{
    if records.len() > 0 {
        lemma_flat_len(records.drop_last());
    }
}

/// The errors of one segment, each with the address of its statement.
pub open spec fn segment_diagnostics(id: SegmentId, segment: Segment) -> Seq<
    (StatementAddress, Diagnostic),
> {
    Seq::new(
        segment.diagnostics@.len(),
        |k: int|
            (
                StatementAddress { segment_id: id, index: segment.diagnostics@[k].0 },
                segment.diagnostics@[k].1,
            ),
    )
}

/// The errors of the first `n` of the segments `segments`, which bear the
/// identifiers `ids`: segment by segment, and within a segment in the order
/// in which the parser met them.
pub open spec fn diagnostics_upto(ids: Seq<SegmentId>, segments: Seq<Segment>, n: int) -> Seq<
    (StatementAddress, Diagnostic),
>
    decreases n,
{
    if n <= 0 {
        Seq::empty()
    } else {
        diagnostics_upto(ids, segments, n - 1) + segment_diagnostics(ids[n - 1], segments[n - 1])
    }
}

/// The first record at or behind `from` that holds the segment `id`.
pub open spec fn first_holder(records: Seq<RecordView>, id: SegmentId, from: int) -> Option<int>
    decreases records.len() - from,
{
    if from < 0 || from >= records.len() {
        None
    } else if records[from].ids.contains(id) {
        Some(from)
    } else {
        first_holder(records, id, from + 1)
    }
}

/// The name of the source that the segment `id` came from.
pub open spec fn origin_of(records: Seq<RecordView>, id: SegmentId) -> Option<Seq<u8>> {
    match first_holder(records, id, 0) {
        Some(r) => Some(records[r].key.0),
        None => None,
    }
}

/// Frees the identifiers `ids`, which stand in the order between `head` and
/// `tail`.
fn free_run(
    order: &mut SegmentOrder,
    ids: &Vec<SegmentId>,
    Ghost(head): Ghost<Seq<SegmentId>>,
    Ghost(tail): Ghost<Seq<SegmentId>>,
)
    requires
        old(order).wf(),
        head.len() > 0,
        old(order)@.ids == head + ids@ + tail,
    ensures
        final(order).wf(),
        final(order)@.ids == head + tail,
        final(order)@.next == old(order)@.next,
        old(order)@.evolves_to(final(order)@),
{
    let ghost start = order@;
    proof {
        order.lemma_valid();
        start.lemma_evolves_reflexive();
        assert(ids@.subrange(0, ids@.len() as int) =~= ids@);
    }
    let mut k: usize = 0;
    while k < ids.len()
        invariant
            k <= ids@.len(),
            order.wf(),
            head.len() > 0,
            start.valid(),
            order@.ids == head + ids@.subrange(k as int, ids@.len() as int) + tail,
            order@.next == start.next,
            start.evolves_to(order@),
        decreases ids@.len() - k,
    {
        let ghost mid = order@;
        let id = ids[k];
        proof {
            order.lemma_valid();
            assert(mid.ids[head.len() as int] == id);
            mid.lemma_rank(head.len() as int);
        }
        order.free(id);
        proof {
            start.lemma_evolves_transitive(mid, order@);
            assert(order@.ids =~= head + ids@.subrange(k + 1, ids@.len() as int) + tail);
        }
        k += 1;
    }
    proof {
        assert(order@.ids =~= head + tail);
    }
}

/// Allocates `n` identifiers, which come to stand in the order between `head`
/// and `tail`: each one between its two neighbours, or behind the last
/// identifier where nothing follows.
fn allocate_run(
    order: &mut SegmentOrder,
    n: usize,
    Ghost(head): Ghost<Seq<SegmentId>>,
    Ghost(tail): Ghost<Seq<SegmentId>>,
    prev: SegmentId,
) -> (fresh: Vec<SegmentId>)
    requires
        old(order).wf(),
        old(order).has_room(n as nat),
        head.len() > 0,
        head.last() == prev,
        old(order)@.ids == head + tail,
    ensures
        final(order).wf(),
        fresh@.len() == n,
        forall|i: int| 0 <= i < n ==> (#[trigger] fresh@[i]).0 == old(order)@.next + i,
        final(order)@.ids == head + fresh@ + tail,
        final(order)@.next == old(order)@.next + n,
        old(order)@.evolves_to(final(order)@),
{
    let ghost start = order@;
    let mut fresh: Vec<SegmentId> = Vec::new();
    let mut last = prev;
    proof {
        order.lemma_valid();
        start.lemma_evolves_reflexive();
        assert(order@.ids =~= head + fresh@ + tail);
    }
    let mut k: usize = 0;
    while k < n
        invariant
            k <= n,
            order.wf(),
            start.valid(),
            start.next + n <= u32::MAX,
            head.len() > 0,
            (head + fresh@).last() == last,
            fresh@.len() == k,
            forall|i: int| 0 <= i < k ==> (#[trigger] fresh@[i]).0 == start.next + i,
            order@.ids == head + fresh@ + tail,
            order@.next == start.next + k,
            start.evolves_to(order@),
        decreases n - k,
    {
        let ghost mid = order@;
        let ghost at = (head + fresh@).len() as int;
        proof {
            order.lemma_valid();
            assert(mid.ids[at - 1] == last);
            mid.lemma_rank(at - 1);
        }
        let id = match order.successor(last) {
            Some(b) => order.allocate_between(last, b),
            None => order.allocate_after(last),
        };
        fresh.push(id);
        last = id;
        proof {
            start.lemma_evolves_transitive(mid, order@);
            assert(order@.ids =~= head + fresh@ + tail);
        }
        k += 1;
    }
    fresh
}

/// The elements of `v` from the last to the first.
fn reversed<T>(v: Vec<T>) -> (r: Vec<T>)
    ensures
        r@.len() == v@.len(),
        forall|i: int| 0 <= i < v@.len() ==> #[trigger] r@[i] == v@[v@.len() - 1 - i],
{
    let ghost all = v@;
    let mut v = v;
    let mut r: Vec<T> = Vec::new();
    while v.len() > 0
        invariant
            r@.len() + v@.len() == all.len(),
            forall|i: int| 0 <= i < v@.len() ==> v@[i] == all[i],
            forall|i: int| 0 <= i < r@.len() ==> #[trigger] r@[i] == all[all.len() - 1 - i],
        decreases v@.len(),
    {
        let x = v.pop().unwrap();
        r.push(x);
    }
    r
}

/// The keys of the pieces of `records`.
pub open spec fn record_keys(records: Seq<RecordView>) -> Seq<PieceKey> {
    Seq::new(records.len(), |i: int| records[i].key)
}

/// The keys of the pieces of `plans`.
pub open spec fn plan_keys(plans: Seq<PiecePlan>) -> Seq<PieceKey> {
    Seq::new(plans.len(), |i: int| plans[i].piece.key())
}

/// The first position at or behind `from` at which `keys` holds `key`.
pub open spec fn first_from(keys: Seq<PieceKey>, from: int, key: PieceKey) -> Option<int>
    decreases keys.len() - from,
{
    if from < 0 || from >= keys.len() {
        None
    } else if keys[from] == key {
        Some(from)
    } else {
        first_from(keys, from + 1, key)
    }
}

/// How far the earlier pieces have been used up before the new piece `i` is
/// matched: behind the match of the last new piece that found one.
pub open spec fn match_cursor(earlier: Seq<PieceKey>, new: Seq<PieceKey>, i: int) -> int
    decreases i,
{
    if i <= 0 {
        0
    } else {
        match first_from(earlier, match_cursor(earlier, new, i - 1), new[i - 1]) {
            Some(j) => j + 1,
            None => match_cursor(earlier, new, i - 1),
        }
    }
}

/// The earlier piece that the new piece `i` is the same piece as: the first
/// with its key that lies behind every earlier piece already matched.  The
/// matches are therefore in the order of the earlier pieces.
pub open spec fn matched(earlier: Seq<PieceKey>, new: Seq<PieceKey>, i: int) -> Option<int> {
    first_from(earlier, match_cursor(earlier, new, i), new[i])
}

/// Nothing shows that the piece of `plan` was modified since `record` was
/// made.
pub open spec fn unchanged(record: RecordView, plan: PiecePlan) -> bool {
    &&& record.key == plan.piece.key()
    &&& record.fingerprint == plan.piece.fingerprint()
    &&& record.error == plan.error
}

/// The new piece `i` is an earlier piece that did not change: its segments
/// stay.
pub open spec fn keeps(records: Seq<RecordView>, plans: Seq<PiecePlan>, i: int) -> bool {
    matched(record_keys(records), plan_keys(plans), i) matches Some(j) && unchanged(
        records[j],
        plans[i],
    )
}

/// Nothing has changed: every new piece is the earlier piece at the same
/// position, and no earlier piece is left over.
pub open spec fn stays(records: Seq<RecordView>, plans: Seq<PiecePlan>) -> bool {
    &&& plans.len() == records.len()
    &&& forall|i: int|
        0 <= i < plans.len() ==> #[trigger] matched(record_keys(records), plan_keys(plans), i)
            == Some(i) && unchanged(records[i], plans[i])
}

/// Pieces that are read again as they were recorded stay.
pub proof fn lemma_same_pieces_stay(records: Seq<RecordView>, plans: Seq<PiecePlan>)
    requires
        plans.len() == records.len(),
        forall|i: int| 0 <= i < plans.len() ==> unchanged(#[trigger] records[i], plans[i]),
    ensures
        stays(records, plans),
{
    let keys = record_keys(records);
    let new = plan_keys(plans);
    assert forall|i: int| 0 <= i <= plans.len() implies #[trigger] match_cursor(keys, new, i)
        == i by {
        lemma_cursor_steps(keys, new, i);
    }
    assert forall|i: int| 0 <= i < plans.len() implies #[trigger] matched(keys, new, i) == Some(
        i,
    ) && unchanged(records[i], plans[i]) by {
        assert(match_cursor(keys, new, i) == i);
        assert(keys[i] == records[i].key && new[i] == plans[i].piece.key());
    }
}

/// Sources that are read a second time as they were read the first time
/// stay: where `records` is what a reload made of the pieces `plans`, and
/// `again` describes the same pieces, nothing has changed.
pub proof fn lemma_same_sources_stay(
    earlier: Seq<RecordView>,
    next: nat,
    plans: Seq<PiecePlan>,
    parsed: Seq<Vec<Segment>>,
    records: Seq<RecordView>,
    again: Seq<PiecePlan>,
)
    requires
        all_spliced(earlier, next, plans, parsed, records),
        plan_views(again) == plan_views(plans),
    ensures
        stays(records, again),
{
    assert(again.len() == plan_views(again).len());
    assert(plans.len() == plan_views(plans).len());
    assert forall|i: int| 0 <= i < again.len() implies unchanged(#[trigger] records[i], again[i]) by {
        assert(spliced(earlier, next, plans, parsed, i, records[i]));
        assert(plan_views(again)[i] == again[i]@);
        assert(plan_views(plans)[i] == plans[i]@);
    }
    lemma_same_pieces_stay(records, again);
}

/// Where every new piece has the key of the earlier piece at its position,
/// the cursor is at `i` when piece `i` is matched.
proof fn lemma_cursor_steps(keys: Seq<PieceKey>, new: Seq<PieceKey>, i: int)
    requires
        0 <= i <= new.len(),
        new.len() == keys.len(),
        forall|k: int| 0 <= k < new.len() ==> keys[k] == new[k],
    ensures
        match_cursor(keys, new, i) == i,
    decreases i,
{
    if i > 0 {
        lemma_cursor_steps(keys, new, i - 1);
    }
}

/// The new piece `i` is to be parsed: it is a piece of a source text, and it
/// is new or has changed.
pub open spec fn needs_parse(records: Seq<RecordView>, plans: Seq<PiecePlan>, i: int) -> bool {
    plans[i].error is None && !keeps(records, plans, i)
}

/// The number of new pieces before piece `i` that are to be parsed.
pub open spec fn jobs_before(records: Seq<RecordView>, plans: Seq<PiecePlan>, i: int) -> nat
    decreases i,
{
    if i <= 0 {
        0
    } else {
        jobs_before(records, plans, i - 1) + if needs_parse(records, plans, i - 1) {
            1nat
        } else {
            0nat
        }
    }
}

/// The number of segments in `parsed` from job `from` on.
pub open spec fn segments_from(parsed: Seq<Vec<Segment>>, from: int) -> nat
    decreases parsed.len() - from,
{
    if from < 0 || from >= parsed.len() {
        0
    } else {
        parsed[from]@.len() + segments_from(parsed, from + 1)
    }
}

/// A piece that is to be parsed, with the bytes to parse.
pub struct ParseJob {
    /// The name of the source that the piece is a part of.
    pub origin: Vec<u8>,
    /// The position of the piece among the new pieces.
    pub plan: usize,
    /// The length of the piece: the longer, the earlier it should be parsed.
    pub estimate: usize,
    /// The bytes of the piece.
    pub buffer: Vec<u8>,
}

/// What a reload will do: the new pieces, which earlier piece each of them
/// is, and which of them are to be parsed.
pub struct Reparse {
    plans: Vec<PiecePlan>,
    matches: Vec<Option<usize>>,
    jobs: Vec<ParseJob>,
    same: bool,
}

impl Reparse {
    /// The new pieces, in order.
    pub closed spec fn plans(&self) -> Seq<PiecePlan> {
        self.plans@
    }

    /// The pieces that are to be parsed, in the order of the new pieces.
    pub closed spec fn jobs(&self) -> Seq<ParseJob> {
        self.jobs@
    }

    /// The reload was planned for a set that holds `records`.
    pub closed spec fn planned_for(&self, records: Seq<RecordView>) -> bool {
        &&& self.matches@.len() == self.plans@.len()
        &&& forall|i: int|
            0 <= i < self.plans@.len() ==> match matched(
                record_keys(records),
                plan_keys(self.plans@),
                i,
            ) {
                Some(j) => #[trigger] self.matches@[i] == Some(j as usize),
                None => self.matches@[i] is None,
            }
        &&& self.jobs@.len() == jobs_before(records, self.plans@, self.plans@.len() as int)
        &&& self.same == stays(records, self.plans@)
    }

    /// The reload was found to change nothing.
    pub closed spec fn keeps_all(&self) -> bool {
        self.same
    }

    /// A reload that was planned for a set lists the pieces of that set that
    /// are to be parsed, and knows whether anything has changed.
    pub proof fn lemma_planned(&self, records: Seq<RecordView>)
        requires
            self.planned_for(records),
        ensures
            self.keeps_all() == stays(records, self.plans()),
            self.jobs().len() == jobs_before(records, self.plans(), self.plans().len() as int),
    {
    }

    /// Whether the reload changes nothing.
    pub fn changes_nothing(&self) -> (same: bool)
        ensures
            same == self.keeps_all(),
    {
        self.same
    }

    /// The pieces that are to be parsed.
    pub fn parse_jobs(&self) -> (jobs: &Vec<ParseJob>)
        ensures
            jobs@ == self.jobs(),
    {
        &self.jobs
    }
}

/// A search from `from` finds nothing before `upto` if no key in between is
/// `key`.
proof fn lemma_first_from_skip(keys: Seq<PieceKey>, from: int, upto: int, key: PieceKey)
    requires
        0 <= from <= upto <= keys.len(),
        forall|k: int| from <= k < upto ==> keys[k] != key,
    ensures
        first_from(keys, from, key) == first_from(keys, upto, key),
    decreases upto - from,
{
    if from < upto {
        lemma_first_from_skip(keys, from + 1, upto, key);
    }
}

/// A match lies at or behind the position the search started from, inside
/// the keys.
proof fn lemma_first_from_bounds(keys: Seq<PieceKey>, from: int, key: PieceKey)
    requires
        0 <= from,
    ensures
        first_from(keys, from, key) matches Some(j) ==> from <= j < keys.len() && keys[j] == key,
    decreases keys.len() - from,
{
    if from < keys.len() && keys[from] != key {
        lemma_first_from_bounds(keys, from + 1, key);
    }
}

/// The cursor never leaves the earlier pieces.
proof fn lemma_cursor_bounds(earlier: Seq<PieceKey>, new: Seq<PieceKey>, i: int)
    ensures
        0 <= match_cursor(earlier, new, i) <= earlier.len(),
    decreases i,
{
    if i > 0 {
        lemma_cursor_bounds(earlier, new, i - 1);
        lemma_first_from_bounds(earlier, match_cursor(earlier, new, i - 1), new[i - 1]);
    }
}

/// Whether two optional errors are the same.
fn same_error(a: &Option<ErrorKind>, b: &Option<ErrorKind>) -> (same: bool)
    ensures
        same == (*a == *b),
{
    match (a, b) {
        (None, None) => true,
        (Some(x), Some(y)) => *x == *y,
        _ => false,
    }
}

/// Job `k` of `jobs` is the `k`-th of the new pieces that are to be parsed,
/// and holds the bytes of that piece.
pub open spec fn job_fits(
    records: Seq<RecordView>,
    plans: Seq<PiecePlan>,
    text: Seq<SourceText>,
    jobs: Seq<ParseJob>,
    k: int,
) -> bool {
    let i = jobs[k].plan as int;
    &&& 0 <= i < plans.len()
    &&& needs_parse(records, plans, i)
    &&& jobs_before(records, plans, i) == k
    &&& jobs[k].origin@ == plans[i].piece.origin@
    &&& jobs[k].estimate == plans[i].piece.end - plans[i].piece.start
    &&& jobs[k].buffer@ == text[plans[i].text as int].bytes@.subrange(
        plans[i].piece.start as int,
        plans[i].piece.end as int,
    )
}

/// The identifiers of the segments of `record`.
fn record_ids(record: &PieceRecord) -> (ids: Vec<SegmentId>)
    ensures
        ids@ == record.ids(),
{
    let mut ids: Vec<SegmentId> = Vec::new();
    let mut k: usize = 0;
    while k < record.entries.len()
        invariant
            k <= record.entries@.len(),
            ids@.len() == k,
            forall|i: int| 0 <= i < k ==> ids@[i] == record.entries@[i].id,
        decreases record.entries@.len() - k,
    {
        ids.push(record.entries[k].id);
        k += 1;
    }
    assert(ids@ =~= record.ids());
    ids
}

/// The segments `segments` under the identifiers `ids`, one for one.
fn make_entries(ids: &Vec<SegmentId>, segments: Vec<Segment>) -> (entries: Vec<SegmentEntry>)
    requires
        ids@.len() == segments@.len(),
    ensures
        entries@.len() == ids@.len(),
        forall|i: int|
            0 <= i < ids@.len() ==> (#[trigger] entries@[i]).id == ids@[i] && *entries@[i].segment
                == segments@[i],
{
    let ghost all = segments@;
    let mut entries: Vec<SegmentEntry> = Vec::new();
    for segment in it: segments
        invariant
            it.seq() == all,
            ids@.len() == all.len(),
            entries@.len() == it.index(),
            forall|i: int|
                0 <= i < entries@.len() ==> (#[trigger] entries@[i]).id == ids@[i]
                    && *entries@[i].segment == all[i],
    {
        let id = ids[entries.len()];
        entries.push(SegmentEntry { id, segment: Arc::new(segment) });
    }
    entries
}

/// The identifiers of the records from `c` on are those of record `c`
/// followed by those of the records behind it.
proof fn lemma_tail_front(records: Seq<RecordView>, c: int)
    requires
        0 <= c < records.len(),
    ensures
        flat_ids(records.subrange(c, records.len() as int)) == records[c].ids + flat_ids(
            records.subrange(c + 1, records.len() as int),
        ),
{
    let tail = records.subrange(c, records.len() as int);
    lemma_flat_ids_front(tail);
    assert(tail.subrange(1, tail.len() as int) =~= records.subrange(c + 1, records.len() as int));
}

/// The count of pieces to parse does not fall as more pieces are counted.
proof fn lemma_jobs_before_monotone(
    records: Seq<RecordView>,
    plans: Seq<PiecePlan>,
    i: int,
    j: int,
)
    requires
        i <= j,
    ensures
        jobs_before(records, plans, i) <= jobs_before(records, plans, j),
    decreases j - i,
{
    if i < j {
        lemma_jobs_before_monotone(records, plans, i, j - 1);
    }
}

/// Frees the identifiers of the earlier records from `cursor` up to `upto`,
/// which are the next on `stack` and stand in the order behind `head`.
fn retire(
    order: &mut SegmentOrder,
    stack: &mut Vec<PieceRecord>,
    cursor: usize,
    upto: usize,
    Ghost(earlier): Ghost<Seq<RecordView>>,
    Ghost(head): Ghost<Seq<SegmentId>>,
)
    requires
        old(order).wf(),
        head.len() > 0,
        cursor <= upto <= earlier.len(),
        old(stack)@.len() == earlier.len() - cursor,
        forall|t: int|
            0 <= t < old(stack)@.len() ==> (#[trigger] old(stack)@[t])@ == earlier[earlier.len()
                - 1 - t],
        old(order)@.ids == head + flat_ids(earlier.subrange(cursor as int, earlier.len() as int)),
    ensures
        final(order).wf(),
        final(order)@.next == old(order)@.next,
        old(order)@.evolves_to(final(order)@),
        final(stack)@.len() == earlier.len() - upto,
        forall|t: int|
            0 <= t < final(stack)@.len() ==> (#[trigger] final(stack)@[t])@ == earlier[
                earlier.len() - 1 - t],
        final(order)@.ids == head + flat_ids(earlier.subrange(upto as int, earlier.len() as int)),
{
    let ghost first = order@;
    let mut at = cursor;
    proof {
        order.lemma_valid();
        first.lemma_evolves_reflexive();
    }
    while at < upto
        invariant
            cursor <= at <= upto <= earlier.len(),
            head.len() > 0,
            stack@.len() == earlier.len() - at,
            forall|t: int|
                0 <= t < stack@.len() ==> (#[trigger] stack@[t])@ == earlier[earlier.len() - 1 - t],
            order.wf(),
            first.valid(),
            first.evolves_to(order@),
            order@.next == first.next,
            order@.ids == head + flat_ids(earlier.subrange(at as int, earlier.len() as int)),
        decreases upto - at,
    {
        let ghost mid = order@;
        let gone = stack.pop().unwrap();
        let ids = record_ids(&gone);
        proof {
            lemma_tail_front(earlier, at as int);
            assert(order@.ids =~= head + ids@ + flat_ids(
                earlier.subrange(at + 1, earlier.len() as int),
            ));
        }
        free_run(
            order,
            &ids,
            Ghost(head),
            Ghost(flat_ids(earlier.subrange(at + 1, earlier.len() as int))),
        );
        proof {
            first.lemma_evolves_transitive(mid, order@);
        }
        at += 1;
    }
}

/// Makes the record of a piece that holds the fresh segments `incoming`.
/// They take over the identifiers of `replaced` where there are as many of
/// them; else those are freed first and new ones allocated in their place.
fn place(
    order: &mut SegmentOrder,
    replaced: Option<PieceRecord>,
    incoming: Vec<Segment>,
    piece: SourcePiece,
    error: Option<ErrorKind>,
    prev: SegmentId,
    Ghost(head): Ghost<Seq<SegmentId>>,
    Ghost(tail): Ghost<Seq<SegmentId>>,
) -> (record: PieceRecord)
    requires
        old(order).wf(),
        old(order).has_room(incoming@.len()),
        head.len() > 0,
        head.last() == prev,
        old(order)@.ids == head + (match replaced {
            Some(r) => r.ids(),
            None => Seq::empty(),
        }) + tail,
    ensures
        final(order).wf(),
        old(order)@.evolves_to(final(order)@),
        old(order)@.next <= final(order)@.next <= old(order)@.next + incoming@.len(),
        final(order)@.ids == head + record.ids() + tail,
        record.piece == piece,
        record.error == error,
        record.segments() == incoming@,
        record.ids().len() == incoming@.len(),
        if replaced is Some && replaced->0.ids().len() == incoming@.len() {
            record.ids() == replaced->0.ids()
        } else {
            forall|k: int|
                0 <= k < record.ids().len() ==> (#[trigger] record.ids()[k]).0 >= old(order)@.next
        },
{
    let ghost first = order@;
    let count = incoming.len();
    let mut reuse: Option<Vec<SegmentId>> = None;
    proof {
        order.lemma_valid();
        first.lemma_evolves_reflexive();
    }
    match replaced {
        Some(r) => {
            let ids = record_ids(&r);
            if ids.len() == count {
                reuse = Some(ids);
            } else {
                free_run(order, &ids, Ghost(head), Ghost(tail));
            }
        },
        None => {
            assert(order@.ids =~= head + tail);
        },
    }
    let ghost mid = order@;
    let ids = match reuse {
        Some(ids) => ids,
        None => allocate_run(order, count, Ghost(head), Ghost(tail), prev),
    };
    proof {
        first.lemma_evolves_transitive(mid, order@);
    }
    let entries = make_entries(&ids, incoming);
    let record = PieceRecord { piece, error, entries };
    proof {
        assert(record.ids() =~= ids@);
        assert(record.segments() =~= incoming@);
    }
    record
}

/// What the reload makes of the new piece `i`.  The record describes the
/// piece as planned.  The segments of a piece that did not change stay, with
/// their identifiers.  Any other piece holds fresh segments: what the parser
/// made of it, or the one segment that stands for its error.  They take over
/// the identifiers of the segments they replace where there are as many of
/// them; else every identifier is one that had never been handed out before.
pub open spec fn spliced(
    earlier: Seq<RecordView>,
    next: nat,
    plans: Seq<PiecePlan>,
    parsed: Seq<Vec<Segment>>,
    i: int,
    record: RecordView,
) -> bool {
    let found = matched(record_keys(earlier), plan_keys(plans), i);
    &&& unchanged(record, plans[i])
    &&& record.ids.len() == record.segments.len()
    &&& if keeps(earlier, plans, i) {
        &&& record.ids == earlier[found->0].ids
        &&& record.segments == earlier[found->0].segments
    } else {
        &&& match plans[i].error {
            Some(kind) => record.segments.len() == 1 && record.segments[0].is_synthetic(kind),
            None => record.segments == parsed[jobs_before(earlier, plans, i) as int]@,
        }
        &&& if found is Some && earlier[found->0].ids.len() == record.segments.len() {
            record.ids == earlier[found->0].ids
        } else {
            forall|k: int| 0 <= k < record.ids.len() ==> (#[trigger] record.ids[k]).0 >= next
        }
    }
}

/// The identifiers of record `r` stand in the flat list from the position
/// that the records in front of it fill.
proof fn lemma_flat_index(records: Seq<RecordView>, r: int, k: int)
    requires
        0 <= r < records.len(),
        0 <= k < records[r].ids.len(),
    ensures
        flat_ids(records.subrange(0, r)).len() + k < flat_ids(records).len(),
        flat_ids(records)[flat_ids(records.subrange(0, r)).len() + k] == records[r].ids[k],
        flat_ids(records.subrange(0, r)).len() + records[r].ids.len() == flat_ids(
            records.subrange(0, r + 1),
        ).len(),
    decreases records.len(),
{
    let front = records.subrange(0, r);
    let upto = records.subrange(0, r + 1);
    assert(upto.drop_last() =~= front);
    assert(upto.last() == records[r]);
    if r == records.len() - 1 {
        assert(upto =~= records);
    } else {
        let shorter = records.drop_last();
        lemma_flat_index(shorter, r, k);
        assert(shorter.subrange(0, r) =~= front);
        assert(shorter.subrange(0, r + 1) =~= upto);
    }
}

/// The records in front of a record fill no more of the flat list than the
/// records in front of a later one.
proof fn lemma_flat_offsets(records: Seq<RecordView>, a: int, b: int)
    requires
        0 <= a <= b <= records.len(),
    ensures
        flat_ids(records.subrange(0, a)).len() <= flat_ids(records.subrange(0, b)).len(),
    decreases b - a,
{
    if a < b {
        lemma_flat_offsets(records, a, b - 1);
        let upto = records.subrange(0, b);
        assert(upto.drop_last() =~= records.subrange(0, b - 1));
    }
}

/// An identifier of the flat list is an identifier of one of the records.
proof fn lemma_flat_member(records: Seq<RecordView>, x: SegmentId)
    requires
        flat_ids(records).contains(x),
    ensures
        exists|r: int| 0 <= r < records.len() && (#[trigger] records[r]).ids.contains(x),
    decreases records.len(),
{
    if records.len() > 0 {
        let n = flat_ids(records.drop_last()).len();
        let at = choose|at: int| 0 <= at < flat_ids(records).len() && flat_ids(records)[at] == x;
        if at < n {
            assert(flat_ids(records.drop_last())[at] == x);
            lemma_flat_member(records.drop_last(), x);
            let r = choose|r: int|
                0 <= r < records.drop_last().len() && (#[trigger] records.drop_last()[r]).ids.contains(
                    x,
                );
            assert(records[r].ids.contains(x));
        } else {
            assert(records.last().ids[at - n] == x);
            assert(records[records.len() - 1].ids.contains(x));
        }
    }
}

/// Where no identifier occurs twice, no two records share one.
proof fn lemma_flat_disjoint(records: Seq<RecordView>, a: int, b: int, x: SegmentId)
    requires
        flat_ids(records).no_duplicates(),
        0 <= a < records.len(),
        0 <= b < records.len(),
        records[a].ids.contains(x),
        records[b].ids.contains(x),
    ensures
        a == b,
{
    if a != b {
        let (lo, hi) = if a < b { (a, b) } else { (b, a) };
        let k1 = choose|k: int| 0 <= k < records[lo].ids.len() && records[lo].ids[k] == x;
        let k2 = choose|k: int| 0 <= k < records[hi].ids.len() && records[hi].ids[k] == x;
        lemma_flat_index(records, lo, k1);
        lemma_flat_index(records, hi, k2);
        lemma_flat_offsets(records, lo + 1, hi);
    }
}

/// The cursor does not move back.
proof fn lemma_cursor_monotone(earlier: Seq<PieceKey>, new: Seq<PieceKey>, i: int, j: int)
    requires
        0 <= i <= j,
    ensures
        match_cursor(earlier, new, i) <= match_cursor(earlier, new, j),
    decreases j - i,
{
    if i < j {
        lemma_cursor_monotone(earlier, new, i, j - 1);
        lemma_cursor_bounds(earlier, new, j - 1);
        lemma_first_from_bounds(earlier, match_cursor(earlier, new, j - 1), new[j - 1]);
    }
}

/// No earlier piece is matched by two new pieces.
pub proof fn lemma_matches_differ(earlier: Seq<PieceKey>, new: Seq<PieceKey>, a: int, b: int)
    requires
        0 <= a < b,
        matched(earlier, new, a) is Some,
    ensures
        matched(earlier, new, b) matches Some(j) ==> matched(earlier, new, a)->0 < j,
{
    lemma_cursor_bounds(earlier, new, a);
    lemma_cursor_bounds(earlier, new, b);
    lemma_first_from_bounds(earlier, match_cursor(earlier, new, a), new[a]);
    lemma_first_from_bounds(earlier, match_cursor(earlier, new, b), new[b]);
    lemma_cursor_monotone(earlier, new, a + 1, b);
}

/// An identifier of an earlier piece that is live after a reload belongs to
/// a new piece that took over the identifiers of that earlier piece.
proof fn lemma_survivor(
    earlier: Seq<RecordView>,
    before: OrderView,
    plans: Seq<PiecePlan>,
    parsed: Seq<Vec<Segment>>,
    records: Seq<RecordView>,
    after: OrderView,
    j: int,
    k: int,
)
    requires
        before.valid(),
        before.ids == seq![SegmentOrder::start_id()] + flat_ids(earlier),
        after.ids == seq![SegmentOrder::start_id()] + flat_ids(records),
        all_spliced(earlier, before.next, plans, parsed, records),
        0 <= j < earlier.len(),
        0 <= k < earlier[j].ids.len(),
        after.live(earlier[j].ids[k]),
    ensures
        exists|m: int|
            0 <= m < plans.len() && #[trigger] matched(
                record_keys(earlier),
                plan_keys(plans),
                m,
            ) == Some(j) && records[m].ids == earlier[j].ids,
{
    let keys = record_keys(earlier);
    let new = plan_keys(plans);
    let x = earlier[j].ids[k];
    lemma_flat_index(earlier, j, k);
    let at = flat_ids(earlier.subrange(0, j)).len() + k;
    assert(before.ids[at + 1] == x);
    assert(x.0 < before.next);
    assert(before.ids[0] == SegmentOrder::start_id());
    assert(flat_ids(earlier) =~= before.ids.subrange(1, before.ids.len() as int));
    assert forall|a: int, b: int|
        0 <= a < flat_ids(earlier).len() && 0 <= b < flat_ids(earlier).len() && a
            != b implies flat_ids(earlier)[a] != flat_ids(earlier)[b] by {
        assert(before.ids[a + 1] != before.ids[b + 1]);
    }
    let p = choose|p: int| 0 <= p < after.ids.len() && after.ids[p] == x;
    assert(p > 0);
    assert(flat_ids(records)[p - 1] == x);
    lemma_flat_member(records, x);
    let m = choose|m: int| 0 <= m < records.len() && (#[trigger] records[m]).ids.contains(x);
    let w = choose|w: int| 0 <= w < records[m].ids.len() && records[m].ids[w] == x;
    assert(spliced(earlier, before.next, plans, parsed, m, records[m]));
    let found = matched(keys, new, m);
    lemma_cursor_bounds(keys, new, m);
    lemma_first_from_bounds(keys, match_cursor(keys, new, m), new[m]);
    if found is Some && records[m].ids == earlier[found->0].ids {
        assert(earlier[found->0].ids.contains(x));
        assert(earlier[j].ids.contains(x));
        lemma_flat_disjoint(earlier, found->0, j, x);
    } else {
        assert(records[m].ids[w].0 >= before.next);
    }
}

/// Identifier reuse.  Let a reload replace an earlier piece by one that has
/// changed.  Where the new piece has as many segments as the piece it
/// replaces, every new segment has the identifier of the segment at its
/// position.  Else no identifier of the replaced piece is live after the
/// reload, and every identifier of the new piece is one that had never been
/// handed out before.
pub proof fn identifier_reuse(
    earlier: Seq<RecordView>,
    before: OrderView,
    plans: Seq<PiecePlan>,
    parsed: Seq<Vec<Segment>>,
    records: Seq<RecordView>,
    after: OrderView,
    i: int,
)
    requires
        before.valid(),
        before.ids == seq![SegmentOrder::start_id()] + flat_ids(earlier),
        after.ids == seq![SegmentOrder::start_id()] + flat_ids(records),
        all_spliced(earlier, before.next, plans, parsed, records),
        0 <= i < plans.len(),
        matched(record_keys(earlier), plan_keys(plans), i) is Some,
        !keeps(earlier, plans, i),
    ensures
        ({
            let j = matched(record_keys(earlier), plan_keys(plans), i)->0;
            if records[i].segments.len() == earlier[j].ids.len() {
                records[i].ids == earlier[j].ids
            } else {
                &&& forall|k: int|
                    0 <= k < earlier[j].ids.len() ==> !after.live(#[trigger] earlier[j].ids[k])
                &&& forall|k: int|
                    0 <= k < records[i].ids.len() ==> (#[trigger] records[i].ids[k]).0
                        >= before.next
            }
        }),
{
    let keys = record_keys(earlier);
    let new = plan_keys(plans);
    let j = matched(keys, new, i)->0;
    lemma_cursor_bounds(keys, new, i);
    lemma_first_from_bounds(keys, match_cursor(keys, new, i), new[i]);
    assert(spliced(earlier, before.next, plans, parsed, i, records[i]));
    if records[i].segments.len() != earlier[j].ids.len() {
        assert forall|k: int| 0 <= k < earlier[j].ids.len() implies !after.live(
            #[trigger] earlier[j].ids[k],
        ) by {
            if after.live(earlier[j].ids[k]) {
                lemma_survivor(earlier, before, plans, parsed, records, after, j, k);
                let m = choose|m: int|
                    0 <= m < plans.len() && #[trigger] matched(keys, new, m) == Some(j)
                        && records[m].ids == earlier[j].ids;
                if m < i {
                    lemma_matches_differ(keys, new, m, i);
                } else if i < m {
                    lemma_matches_differ(keys, new, i, m);
                }
            }
        }
    }
}

/// The identifiers of a piece that is gone from the sources are freed: none
/// of them is live after the reload.
pub proof fn removed_pieces_are_freed(
    earlier: Seq<RecordView>,
    before: OrderView,
    plans: Seq<PiecePlan>,
    parsed: Seq<Vec<Segment>>,
    records: Seq<RecordView>,
    after: OrderView,
    j: int,
)
    requires
        before.valid(),
        before.ids == seq![SegmentOrder::start_id()] + flat_ids(earlier),
        after.ids == seq![SegmentOrder::start_id()] + flat_ids(records),
        all_spliced(earlier, before.next, plans, parsed, records),
        0 <= j < earlier.len(),
        forall|m: int|
            0 <= m < plans.len() ==> #[trigger] matched(record_keys(earlier), plan_keys(plans), m)
                != Some(j),
    ensures
        forall|k: int| 0 <= k < earlier[j].ids.len() ==> !after.live(#[trigger] earlier[j].ids[k]),
{
    assert forall|k: int| 0 <= k < earlier[j].ids.len() implies !after.live(
        #[trigger] earlier[j].ids[k],
    ) by {
        if after.live(earlier[j].ids[k]) {
            lemma_survivor(earlier, before, plans, parsed, records, after, j, k);
        }
    }
}

/// The segments of a set are what `parser` makes of the pieces: every piece
/// of a source holds what `parser` gives for its key and its record.
pub open spec fn faithful(
    records: Seq<RecordView>,
    parser: spec_fn(PieceKey, (bool, u64, u64)) -> Seq<Segment>,
) -> bool {
    forall|i: int|
        0 <= i < records.len() && (#[trigger] records[i]).error is None ==> records[i].segments
            == parser(records[i].key, records[i].fingerprint)
}

/// Incremental equivalence.  Let the segments that the parser makes of a
/// piece depend on the piece alone, as `parser` says, and let the set hold
/// what the parser made of its pieces.  Then after a reload the set holds
/// what the parser makes of the new pieces, whatever it held before: the
/// segments are those of a fresh load of the same sources.
pub proof fn incremental_equivalence(
    earlier: Seq<RecordView>,
    next: nat,
    plans: Seq<PiecePlan>,
    parsed: Seq<Vec<Segment>>,
    records: Seq<RecordView>,
    parser: spec_fn(PieceKey, (bool, u64, u64)) -> Seq<Segment>,
)
    requires
        faithful(earlier, parser),
        all_spliced(earlier, next, plans, parsed, records),
        forall|i: int|
            0 <= i < plans.len() && needs_parse(earlier, plans, i) ==> (#[trigger] parsed[jobs_before(
                earlier,
                plans,
                i,
            ) as int])@ == parser(plans[i].piece.key(), plans[i].piece.fingerprint()),
    ensures
        faithful(records, parser),
        forall|i: int|
            0 <= i < plans.len() && (#[trigger] plans[i]).error is None ==> records[i].segments
                == parser(plans[i].piece.key(), plans[i].piece.fingerprint()),
{
    let keys = record_keys(earlier);
    let new = plan_keys(plans);
    assert forall|i: int| 0 <= i < plans.len() && (#[trigger] plans[i]).error is None implies records[i].segments
        == parser(plans[i].piece.key(), plans[i].piece.fingerprint()) by {
        assert(spliced(earlier, next, plans, parsed, i, records[i]));
        lemma_cursor_bounds(keys, new, i);
        lemma_first_from_bounds(keys, match_cursor(keys, new, i), new[i]);
        if !keeps(earlier, plans, i) {
            assert(needs_parse(earlier, plans, i));
        }
    }
    assert forall|i: int|
        0 <= i < records.len() && (#[trigger] records[i]).error is None implies records[i].segments
        == parser(records[i].key, records[i].fingerprint) by {
        assert(spliced(earlier, next, plans, parsed, i, records[i]));
        assert(plans[i].error is None);
    }
}

/// The identifiers have run out: a reload would need more of them than are
/// left.
#[derive(Copy, Clone, Debug, PartialEq, Eq, Structural)]
pub struct Exhausted;

/// What a reload of the sources `root` and `text` does to a set that holds
/// `earlier`, with `parse` as the parser: the sources are read in the pieces
/// `plans`; the pieces that are new or have changed are the jobs `jobs`;
/// `parsed` is what the parser made of each of them.
pub open spec fn reload<F: Fn(&ParseJob) -> Vec<Segment>>(
    earlier: Seq<RecordView>,
    text: Seq<SourceText>,
    root: Seq<u8>,
    autosplit: bool,
    parse: F,
    plans: Seq<PiecePlan>,
    jobs: Seq<ParseJob>,
    parsed: Seq<Vec<Segment>>,
) -> bool {
    &&& plan_views(plans) == layout(text, root, autosplit)
    &&& jobs.len() == jobs_before(earlier, plans, plans.len() as int)
    &&& forall|k: int| 0 <= k < jobs.len() ==> job_fits(earlier, plans, text, jobs, k)
    &&& parsed.len() == jobs.len()
    &&& forall|k: int| 0 <= k < jobs.len() ==> call_ensures(parse, (&#[trigger] jobs[k],), parsed[k])
}

/// The records `records` are what a reload makes of the pieces `plans`.
pub open spec fn all_spliced(
    earlier: Seq<RecordView>,
    next: nat,
    plans: Seq<PiecePlan>,
    parsed: Seq<Vec<Segment>>,
    records: Seq<RecordView>,
) -> bool {
    &&& records.len() == plans.len()
    &&& forall|i: int|
        0 <= i < plans.len() ==> spliced(earlier, next, plans, parsed, i, #[trigger] records[i])
}

/// The ordered collection of parsed segments, with the pieces they came from
/// and the order of their identifiers.
pub struct SegmentSet {
    order: SegmentOrder,
    records: Vec<PieceRecord>,
}

impl SegmentSet {
    /// The pieces of the sources, in order, with their segments.
    pub closed spec fn records(&self) -> Seq<RecordView> {
        record_views(self.records@)
    }

    /// The order of the identifiers.
    pub closed spec fn order(&self) -> OrderView {
        self.order@
    }

    /// The identifiers of the segments are unique, and their order in the set
    /// is their order in the order of identifiers, which holds no others but
    /// the start marker.
    pub closed spec fn wf(&self) -> bool {
        &&& self.order.wf()
        &&& self.order@.ids == seq![SegmentOrder::start_id()] + flat_ids(record_views(self.records@))
    }

    /// In a well-formed set the live identifiers are the start marker and
    /// the identifiers of the segments, in the order of the segments.
    pub proof fn lemma_wf(&self)
        requires
            self.wf(),
        ensures
            self.order().valid(),
            self.order().ids == seq![SegmentOrder::start_id()] + flat_ids(self.records()),
    {
        self.order.lemma_valid();
    }

    /// A set without segments.  Its order holds the start marker alone and
    /// has handed out no other identifier: the first segment will be given
    /// the identifier 1.
    pub fn new() -> (set: Self)
        ensures
            set.wf(),
            set.records().len() == 0,
            set.order().ids == seq![SegmentOrder::start_id()],
            set.order().next == 1,
    {
        let set = SegmentSet { order: SegmentOrder::new(), records: Vec::new() };
        assert(set.order@.ids =~= seq![SegmentOrder::start_id()] + flat_ids(record_views(set.records@)));
        set
    }

    /// Decides, for the new pieces `plans`, which of them the set holds
    /// already and which are to be parsed.
    pub fn plan(&self, plans: Vec<PiecePlan>, text: &Vec<SourceText>) -> (reparse: Reparse)
        requires
            plans_fit(plans@, text@),
        ensures
            reparse.plans() == plans@,
            reparse.planned_for(self.records()),
            forall|k: int|
                0 <= k < reparse.jobs().len() ==> job_fits(
                    self.records(),
                    plans@,
                    text@,
                    reparse.jobs(),
                    k,
                ),
    {
        let ghost views = record_views(self.records@);
        let ghost earlier = record_keys(views);
        let ghost new = plan_keys(plans@);
        let mut matches: Vec<Option<usize>> = Vec::new();
        let mut jobs: Vec<ParseJob> = Vec::new();
        let mut same = plans.len() == self.records.len();
        let mut cursor: usize = 0;
        let mut i: usize = 0;
        while i < plans.len()
            invariant
                i <= plans@.len(),
                same == (plans@.len() == views.len() && forall|m: int|
                    0 <= m < i ==> #[trigger] matched(earlier, new, m) == Some(m) && unchanged(
                        views[m],
                        plans@[m],
                    )),
                plans_fit(plans@, text@),
                views == record_views(self.records@),
                earlier == record_keys(views),
                new == plan_keys(plans@),
                cursor == match_cursor(earlier, new, i as int),
                cursor <= self.records@.len(),
                matches@.len() == i,
                forall|m: int|
                    0 <= m < i ==> match matched(earlier, new, m) {
                        Some(j) => #[trigger] matches@[m] == Some(j as usize),
                        None => matches@[m] is None,
                    },
                jobs@.len() == jobs_before(views, plans@, i as int),
                forall|k: int|
                    0 <= k < jobs@.len() ==> job_fits(views, plans@, text@, jobs@, k),
            decreases plans@.len() - i,
        {
            let plan = &plans[i];
            let mut j = cursor;
            while j < self.records.len() && !self.records[j].piece.same_piece(&plan.piece)
                invariant
                    cursor <= j <= self.records@.len(),
                    earlier == record_keys(record_views(self.records@)),
                    forall|k: int| cursor <= k < j ==> earlier[k] != plan.piece.key(),
                decreases self.records@.len() - j,
            {
                j += 1;
            }
            proof {
                lemma_first_from_skip(earlier, cursor as int, j as int, plan.piece.key());
                assert(new[i as int] == plan.piece.key());
            }
            let found = j < self.records.len();
            let kept = found && plan.piece.same_content(&self.records[j].piece) && same_error(
                &self.records[j].error,
                &plan.error,
            );
            proof {
                assert(matched(earlier, new, i as int) == if found {
                    Some(j as int)
                } else {
                    None::<int>
                });
                assert(kept == keeps(views, plans@, i as int));
            }
            if !(kept && j == i) {
                same = false;
            }
            if found {
                matches.push(Some(j));
                cursor = j + 1;
            } else {
                matches.push(None);
            }
            if !kept && plan.error.is_none() {
                let ghost before = jobs@;
                let buffer = copy_bytes(&text[plan.text].bytes, plan.piece.start, plan.piece.end);
                let origin = copy_bytes(&plan.piece.origin, 0, plan.piece.origin.len());
                assert(origin@ =~= plan.piece.origin@);
                jobs.push(
                    ParseJob {
                        origin,
                        plan: i,
                        estimate: plan.piece.end - plan.piece.start,
                        buffer,
                    },
                );
                proof {
                    assert forall|k: int| 0 <= k < jobs@.len() implies job_fits(
                        views,
                        plans@,
                        text@,
                        jobs@,
                        k,
                    ) by {
                        if k < before.len() {
                            assert(job_fits(views, plans@, text@, before, k));
                        }
                    }
                }
            }
            i += 1;
        }
        Reparse { plans, matches, jobs, same }
    }

    /// Carries out a planned reload with the segments that the parser made of
    /// the pieces that were to be parsed, one list for each job.
    pub fn splice(&mut self, reparse: Reparse, parsed: Vec<Vec<Segment>>)
        requires
            old(self).wf(),
            reparse.planned_for(old(self).records()),
            parsed@.len() == reparse.jobs().len(),
            old(self).order().next + reparse.plans().len() + segments_from(parsed@, 0) <= u32::MAX,
        ensures
            final(self).wf(),
            old(self).order().evolves_to(final(self).order()),
            final(self).records().len() == reparse.plans().len(),
            forall|i: int|
                0 <= i < reparse.plans().len() ==> spliced(
                    old(self).records(),
                    old(self).order().next,
                    reparse.plans(),
                    parsed@,
                    i,
                    #[trigger] final(self).records()[i],
                ),
    {
        let ghost earlier = record_views(self.records@);
        let ghost first = self.order@;
        let ghost results = parsed@;
        let ghost s0 = seq![SegmentOrder::start_id()];
        let Reparse { plans, matches, .. } = reparse;
        let ghost keys = record_keys(earlier);
        let ghost new = plan_keys(plans@);
        let mut taken: Vec<PieceRecord> = Vec::new();
        core::mem::swap(&mut taken, &mut self.records);
        let n_old = taken.len();
        let mut old_stack = reversed(taken);
        let mut parsed_stack = reversed(parsed);
        let mut done: Vec<PieceRecord> = Vec::new();
        let mut prev = self.order.start();
        let mut cursor: usize = 0;
        let mut i: usize = 0;
        proof {
            self.order.lemma_valid();
            first.lemma_evolves_reflexive();
            assert(earlier.subrange(0, earlier.len() as int) =~= earlier);
            assert(self.order@.ids =~= s0 + flat_ids(record_views(done@)) + flat_ids(
                earlier.subrange(0, earlier.len() as int),
            ));
            assert(s0 + flat_ids(record_views(done@)) =~= s0);
        }
        while i < plans.len()
            invariant
                i <= plans@.len(),
                matches@.len() == plans@.len(),
                forall|m: int|
                    0 <= m < plans@.len() ==> match matched(keys, new, m) {
                        Some(j) => #[trigger] matches@[m] == Some(j as usize),
                        None => matches@[m] is None,
                    },
                results.len() == jobs_before(earlier, plans@, plans@.len() as int),
                keys == record_keys(earlier),
                new == plan_keys(plans@),
                s0 == seq![SegmentOrder::start_id()],
                cursor == match_cursor(keys, new, i as int),
                cursor <= earlier.len(),
                n_old == earlier.len(),
                old_stack@.len() == earlier.len() - cursor,
                forall|t: int|
                    0 <= t < old_stack@.len() ==> (#[trigger] old_stack@[t])@ == earlier[
                        earlier.len() - 1 - t],
                parsed_stack@.len() == results.len() - jobs_before(earlier, plans@, i as int),
                forall|t: int|
                    0 <= t < parsed_stack@.len() ==> #[trigger] parsed_stack@[t]
                        == results[results.len() - 1 - t],
                self.order.wf(),
                first.valid(),
                first.evolves_to(self.order@),
                self.order@.next >= first.next,
                self.order@.ids == s0 + flat_ids(record_views(done@)) + flat_ids(
                    earlier.subrange(cursor as int, earlier.len() as int),
                ),
                prev == (s0 + flat_ids(record_views(done@))).last(),
                done@.len() == i,
                forall|m: int|
                    0 <= m < i ==> spliced(
                        earlier,
                        first.next,
                        plans@,
                        results,
                        m,
                        (#[trigger] done@[m])@,
                    ),
                self.order@.next + (plans@.len() - i) + segments_from(
                    results,
                    jobs_before(earlier, plans@, i as int) as int,
                ) <= u32::MAX,
            decreases plans@.len() - i,
        {
            let plan = &plans[i];
            let ghost job = jobs_before(earlier, plans@, i as int) as int;
            let ghost placed = record_views(done@);
            let found = matches[i];
            proof {
                lemma_first_from_bounds(keys, cursor as int, new[i as int]);
                lemma_jobs_before_monotone(earlier, plans@, i + 1, plans@.len() as int);
                assert(new[i as int] == plan.piece.key());
                assert(matched(keys, new, i as int) == first_from(
                    keys,
                    cursor as int,
                    new[i as int],
                ));
                assert(match matched(keys, new, i as int) {
                    Some(j) => found == Some(j as usize) && cursor <= j < earlier.len(),
                    None => found is None,
                }) by {
                    let at = matches@[i as int];
                }
            }
            // The earlier pieces in front of the match are gone from the sources.
            let upto = match found {
                Some(j) => j,
                None => cursor,
            };
            let ghost mid = self.order@;
            retire(
                &mut self.order,
                &mut old_stack,
                cursor,
                upto,
                Ghost(earlier),
                Ghost(s0 + flat_ids(record_views(done@))),
            );
            cursor = upto;
            proof {
                first.lemma_evolves_transitive(mid, self.order@);
                if found is Some {
                    lemma_tail_front(earlier, cursor as int);
                    assert(old_stack@[old_stack@.len() - 1]@ == earlier[cursor as int]);
                    assert(keys[cursor as int] == earlier[cursor as int].key);
                }
            }
            // The piece itself.
            let kept = match found {
                Some(j) => plan.piece.same_content(&old_stack[old_stack.len() - 1].piece)
                    && same_error(&old_stack[old_stack.len() - 1].error, &plan.error),
                None => false,
            };
            assert(kept == keeps(earlier, plans@, i as int));
            if kept {
                let record = old_stack.pop().unwrap();
                let n = record.entries.len();
                if n > 0 {
                    prev = record.entries[n - 1].id;
                }
                proof {
                    assert(record@ == earlier[cursor as int]);
                    assert(record.ids().len() == n);
                    assert(n > 0 ==> record.ids().last() == prev);
                    assert(spliced(earlier, first.next, plans@, results, i as int, record@));
                }
                done.push(record);
                cursor += 1;
            } else {
                let incoming: Vec<Segment> = match plan.error {
                    Some(kind) => {
                        let mut one: Vec<Segment> = Vec::new();
                        one.push(Segment::synthetic(kind));
                        one
                    },
                    None => parsed_stack.pop().unwrap(),
                };
                let count = incoming.len();
                let replaced = match found {
                    Some(j) => {
                        cursor += 1;
                        old_stack.pop()
                    },
                    None => None,
                };
                let ghost mid2 = self.order@;
                proof {
                    let head = s0 + flat_ids(record_views(done@));
                    let tail = flat_ids(earlier.subrange(cursor as int, earlier.len() as int));
                    if replaced is Some {
                        assert(replaced->0@ == earlier[cursor - 1]);
                        assert(self.order@.ids =~= head + replaced->0.ids() + tail);
                    } else {
                        assert(self.order@.ids =~= head + Seq::<SegmentId>::empty() + tail);
                    }
                }
                let record = place(
                    &mut self.order,
                    replaced,
                    incoming,
                    plan.piece.duplicate(),
                    plan.error,
                    prev,
                    Ghost(s0 + flat_ids(record_views(done@))),
                    Ghost(flat_ids(earlier.subrange(cursor as int, earlier.len() as int))),
                );
                if count > 0 {
                    prev = record.entries[count - 1].id;
                }
                proof {
                    first.lemma_evolves_transitive(mid2, self.order@);
                    assert(count > 0 ==> record.ids().last() == prev);
                    assert(spliced(earlier, first.next, plans@, results, i as int, record@));
                }
                done.push(record);
            }
            proof {
                assert(record_views(done@).drop_last() =~= placed);
                assert(flat_ids(record_views(done@)) == flat_ids(placed) + done@.last().ids());
                assert(self.order@.ids =~= s0 + flat_ids(record_views(done@)) + flat_ids(
                    earlier.subrange(cursor as int, earlier.len() as int),
                ));
                assert(prev == (s0 + flat_ids(record_views(done@))).last());
            }
            i += 1;
        }
        // What is left of the earlier pieces is gone from the sources.
        let ghost mid = self.order@;
        retire(
            &mut self.order,
            &mut old_stack,
            cursor,
            n_old,
            Ghost(earlier),
            Ghost(s0 + flat_ids(record_views(done@))),
        );
        proof {
            first.lemma_evolves_transitive(mid, self.order@);
            assert(earlier.subrange(n_old as int, earlier.len() as int) =~= Seq::<
                RecordView,
            >::empty());
            assert(self.order@.ids =~= s0 + flat_ids(record_views(done@)));
        }
        self.records = done;
    }

    /// The identifiers of the segments, in order.
    pub open spec fn ids(&self) -> Seq<SegmentId> {
        flat_ids(self.records())
    }

    /// The segments, in order.
    pub open spec fn contents(&self) -> Seq<Segment> {
        flat_segments(self.records())
    }

    /// The segments with their identifiers, in logical order.
    pub fn segments(&self) -> (all: Vec<SegmentRef<'_>>)
        ensures
            all@.len() == self.ids().len(),
            all@.len() == self.contents().len(),
            forall|i: int|
                0 <= i < all@.len() ==> (#[trigger] all@[i]).id == self.ids()[i] && *all@[i].segment
                    == self.contents()[i],
    {
        let mut all: Vec<SegmentRef<'_>> = Vec::new();
        let mut r: usize = 0;
        while r < self.records.len()
            invariant
                r <= self.records@.len(),
                all@.len() == flat_ids(record_views(self.records@).subrange(0, r as int)).len(),
                all@.len() == flat_segments(record_views(self.records@).subrange(0, r as int)).len(),
                forall|i: int|
                    0 <= i < all@.len() ==> (#[trigger] all@[i]).id == flat_ids(
                        record_views(self.records@).subrange(0, r as int),
                    )[i] && *all@[i].segment == flat_segments(
                        record_views(self.records@).subrange(0, r as int),
                    )[i],
            decreases self.records@.len() - r,
        {
            let record = &self.records[r];
            let ghost before = record_views(self.records@).subrange(0, r as int);
            let ghost now = record_views(self.records@).subrange(0, r + 1);
            proof {
                lemma_flat_len(before);
            }
            let mut k: usize = 0;
            while k < record.entries.len()
                invariant
                    k <= record.entries@.len(),
                    all@.len() == flat_ids(before).len() + k,
                    flat_ids(before).len() == flat_segments(before).len(),
                    forall|i: int|
                        0 <= i < flat_ids(before).len() ==> (#[trigger] all@[i]).id == flat_ids(
                            before,
                        )[i] && *all@[i].segment == flat_segments(before)[i],
                    forall|i: int|
                        0 <= i < k ==> (#[trigger] all@[flat_ids(before).len() + i]).id
                            == record.entries@[i].id && *all@[flat_ids(before).len() + i].segment
                            == *record.entries@[i].segment,
                decreases record.entries@.len() - k,
            {
                all.push(SegmentRef { id: record.entries[k].id, segment: &*record.entries[k].segment });
                k += 1;
            }
            proof {
                lemma_flat_len(before);
                assert(now.drop_last() =~= before);
                assert(now.last() == record@);
                let base = flat_ids(before).len() as int;
                assert forall|i: int| 0 <= i < all@.len() implies (#[trigger] all@[i]).id
                    == flat_ids(now)[i] && *all@[i].segment == flat_segments(now)[i] by {
                    if i >= base {
                        let t = i - base;
                        assert(all@[base + t].id == record.entries@[t].id);
                        assert(record.ids()[t] == record.entries@[t].id);
                        assert(record.segments()[t] == *record.entries@[t].segment);
                    }
                }
            }
            r += 1;
        }
        proof {
            assert(record_views(self.records@).subrange(0, self.records@.len() as int) =~= record_views(
                self.records@,
            ));
        }
        all
    }

    /// All errors that the parser met, in the order of the segments.
    pub fn parse_diagnostics(&self) -> (all: Vec<(StatementAddress, Diagnostic)>)
        ensures
            all@ == diagnostics_upto(self.ids(), self.contents(), self.ids().len() as int),
    {
        let segments = self.segments();
        let mut all: Vec<(StatementAddress, Diagnostic)> = Vec::new();
        let mut n: usize = 0;
        while n < segments.len()
            invariant
                n <= segments@.len(),
                segments@.len() == self.ids().len(),
                segments@.len() == self.contents().len(),
                forall|i: int|
                    0 <= i < segments@.len() ==> (#[trigger] segments@[i]).id == self.ids()[i]
                        && *segments@[i].segment == self.contents()[i],
                all@ == diagnostics_upto(self.ids(), self.contents(), n as int),
            decreases segments@.len() - n,
        {
            let id = segments[n].id;
            let segment = segments[n].segment;
            let ghost before = all@;
            let mut k: usize = 0;
            while k < segment.diagnostics.len()
                invariant
                    k <= segment.diagnostics@.len(),
                    all@ == before + segment_diagnostics(id, *segment).subrange(0, k as int),
                decreases segment.diagnostics@.len() - k,
            {
                let found = &segment.diagnostics[k];
                all.push((StatementAddress::new(id, found.0), found.1.clone()));
                k += 1;
                assert(all@ =~= before + segment_diagnostics(id, *segment).subrange(0, k as int));
            }
            proof {
                assert(segment_diagnostics(id, *segment).subrange(
                    0,
                    segment.diagnostics@.len() as int,
                ) =~= segment_diagnostics(id, *segment));
            }
            n += 1;
        }
        all
    }

    /// The piece of the sources that the segment `id` came from.
    pub fn source_info(&self, id: SegmentId) -> (piece: Option<&SourcePiece>)
        ensures
            piece matches Some(p) ==> Some(p.origin@) == origin_of(self.records(), id),
            piece is None ==> origin_of(self.records(), id) is None,
            match piece {
                Some(p) => exists|r: int|
                    0 <= r < self.records().len() && (#[trigger] self.records()[r]).ids.contains(
                        id,
                    ) && p.key() == self.records()[r].key && p.fingerprint()
                        == self.records()[r].fingerprint,
                None => forall|r: int|
                    0 <= r < self.records().len() ==> !(#[trigger] self.records()[r]).ids.contains(
                        id,
                    ),
            },
    {
        let mut r: usize = 0;
        while r < self.records.len()
            invariant
                r <= self.records@.len(),
                forall|m: int| 0 <= m < r ==> !(#[trigger] self.records()[m]).ids.contains(id),
                first_holder(self.records(), id, 0) == first_holder(self.records(), id, r as int),
            decreases self.records@.len() - r,
        {
            let record = &self.records[r];
            let mut k: usize = 0;
            while k < record.entries.len()
                invariant
                    k <= record.entries@.len(),
                    r < self.records@.len(),
                    *record == self.records@[r as int],
                    first_holder(self.records(), id, 0) == first_holder(
                        self.records(),
                        id,
                        r as int,
                    ),
                    forall|i: int| 0 <= i < k ==> record.entries@[i].id != id,
                decreases record.entries@.len() - k,
            {
                if record.entries[k].id == id {
                    assert(record.ids()[k as int] == id);
                    assert(self.records()[r as int].ids.contains(id));
                    assert(self.records()[r as int].key.0 == record.piece.origin@);
                    return Some(&record.piece);
                }
                k += 1;
            }
            proof {
                assert(self.records()[r as int].ids =~= record.ids());
                if self.records()[r as int].ids.contains(id) {
                    let w = choose|w: int| 0 <= w < record.ids().len() && record.ids()[w] == id;
                    assert(record.entries@[w].id == id);
                }
            }
            r += 1;
        }
        None
    }

    /// A set that shares every segment with this one.
    pub fn duplicate(&self) -> (copy: Self)
        requires
            self.wf(),
        ensures
            copy.wf(),
            copy.records() == self.records(),
            copy.order() == self.order(),
    {
        let mut records: Vec<PieceRecord> = Vec::new();
        let mut r: usize = 0;
        while r < self.records.len()
            invariant
                r <= self.records@.len(),
                records@.len() == r,
                forall|i: int| 0 <= i < r ==> (#[trigger] records@[i])@ == self.records@[i]@,
            decreases self.records@.len() - r,
        {
            let record = &self.records[r];
            let mut entries: Vec<SegmentEntry> = Vec::new();
            let mut k: usize = 0;
            while k < record.entries.len()
                invariant
                    k <= record.entries@.len(),
                    entries@.len() == k,
                    forall|i: int|
                        0 <= i < k ==> (#[trigger] entries@[i]).id == record.entries@[i].id
                            && *entries@[i].segment == *record.entries@[i].segment,
                decreases record.entries@.len() - k,
            {
                let entry = &record.entries[k];
                entries.push(SegmentEntry { id: entry.id, segment: share(&entry.segment) });
                k += 1;
            }
            let copy = PieceRecord { piece: record.piece.duplicate(), error: record.error, entries };
            proof {
                assert(copy.ids() =~= record.ids());
                assert(copy.segments() =~= record.segments());
            }
            records.push(copy);
            r += 1;
        }
        proof {
            assert(record_views(records@) =~= record_views(self.records@));
        }
        SegmentSet { order: self.order.duplicate(), records }
    }

    /// Whether the identifiers that are left suffice for a planned reload
    /// with the segments `parsed`.
    pub fn fits(&self, reparse: &Reparse, parsed: &Vec<Vec<Segment>>) -> (enough: bool)
        requires
            self.wf(),
        ensures
            enough == (self.order().next + reparse.plans().len() + segments_from(parsed@, 0)
                <= u32::MAX),
    {
        let room = self.order.room() as usize;
        if reparse.plans.len() > room {
            return false;
        }
        let mut left = room - reparse.plans.len();
        let mut k: usize = 0;
        while k < parsed.len()
            invariant
                k <= parsed@.len(),
                left + self.order@.next + reparse.plans@.len() + segments_from(parsed@, 0)
                    == u32::MAX + segments_from(parsed@, k as int),
            decreases parsed@.len() - k,
        {
            let n = parsed[k].len();
            if n > left {
                return false;
            }
            left -= n;
            k += 1;
        }
        true
    }

    /// Replaces the contents of the set by what the sources `root` and `text`
    /// hold, and keeps the segments of the pieces that did not change.  The
    /// pieces that are new or have changed are parsed by `parse`, in source
    /// order.  Tells whether anything changed.
    ///
    /// Fails, and leaves the set as it is, where the identifiers run out.
    pub fn read<F>(
        &mut self,
        root: &Vec<u8>,
        text: &Vec<SourceText>,
        autosplit: bool,
        parse: &F,
    ) -> (r: Result<bool, Exhausted>) where F: Fn(&ParseJob) -> Vec<Segment>
        requires
            old(self).wf(),
            forall|job: &ParseJob| call_requires(*parse, (job,)),
        ensures
            final(self).wf(),
            exists|plans: Seq<PiecePlan>, jobs: Seq<ParseJob>, parsed: Seq<Vec<Segment>>|
                {
                    &&& #[trigger] reload(
                        old(self).records(),
                        text@,
                        root@,
                        autosplit,
                        *parse,
                        plans,
                        jobs,
                        parsed,
                    )
                    &&& match r {
                        Ok(changed) => {
                            &&& changed == !stays(old(self).records(), plans)
                            &&& if changed {
                                &&& old(self).order().next + plans.len() + segments_from(parsed, 0)
                                    <= u32::MAX
                                &&& old(self).order().evolves_to(final(self).order())
                                &&& all_spliced(
                                    old(self).records(),
                                    old(self).order().next,
                                    plans,
                                    parsed,
                                    final(self).records(),
                                )
                            } else {
                                &&& final(self).records() == old(self).records()
                                &&& final(self).order() == old(self).order()
                            }
                        },
                        Err(_) => {
                            &&& !stays(old(self).records(), plans)
                            &&& old(self).order().next + plans.len() + segments_from(parsed, 0)
                                > u32::MAX
                            &&& final(self).records() == old(self).records()
                            &&& final(self).order() == old(self).order()
                        },
                    }
                },
    {
        let plans = enumerate(root, text, autosplit);
        let reparse = self.plan(plans, text);
        proof {
            assert forall|k: int| 0 <= k < reparse.jobs@.len() implies job_fits(
                self.records(),
                reparse.plans@,
                text@,
                reparse.jobs@,
                k,
            ) by {
                assert(job_fits(self.records(), reparse.plans(), text@, reparse.jobs(), k));
            }
        }
        let mut parsed: Vec<Vec<Segment>> = Vec::new();
        let mut k: usize = 0;
        while k < reparse.jobs.len()
            invariant
                k <= reparse.jobs@.len(),
                parsed@.len() == k,
                forall|job: &ParseJob| call_requires(*parse, (job,)),
                forall|j: int|
                    0 <= j < k ==> call_ensures(
                        *parse,
                        (&#[trigger] reparse.jobs@[j],),
                        parsed@[j],
                    ),
            decreases reparse.jobs@.len() - k,
        {
            let segments = parse(&reparse.jobs[k]);
            parsed.push(segments);
            k += 1;
        }
        proof {
            assert(reload(
                self.records(),
                text@,
                root@,
                autosplit,
                *parse,
                reparse.plans@,
                reparse.jobs@,
                parsed@,
            ));
        }
        if reparse.same {
            return Ok(false);
        }
        if !self.fits(&reparse, &parsed) {
            return Err(Exhausted);
        }
        self.splice(reparse, parsed);
        Ok(true)
    }

    /// The position of the segment `id` in the logical order, if the set
    /// holds it.
    pub fn position(&self, id: SegmentId) -> (at: Option<usize>)
        ensures
            match at {
                Some(n) => n < self.ids().len() && self.ids()[n as int] == id && forall|m: int|
                    0 <= m < n ==> self.ids()[m] != id,
                None => !self.ids().contains(id),
            },
    {
        let segments = self.segments();
        let mut n: usize = 0;
        while n < segments.len()
            invariant
                n <= segments@.len(),
                segments@.len() == self.ids().len(),
                forall|i: int|
                    0 <= i < segments@.len() ==> (#[trigger] segments@[i]).id == self.ids()[i],
                forall|m: int| 0 <= m < n ==> self.ids()[m] != id,
            decreases segments@.len() - n,
        {
            if segments[n].id == id {
                return Some(n);
            }
            n += 1;
        }
        None
    }

    /// The statement at `address`, if the set holds its segment.
    pub fn statement(&self, address: StatementAddress) -> (found: Option<StatementRef<'_>>)
        ensures
            match found {
                Some(statement) => statement.index == address.index && statement.segment.id
                    == address.segment_id && exists|n: int|
                    0 <= n < self.ids().len() && #[trigger] self.ids()[n] == address.segment_id
                        && *statement.segment.segment == self.contents()[n],
                None => !self.ids().contains(address.segment_id),
            },
    {
        let mut segments = self.segments();
        let mut n: usize = 0;
        while n < segments.len()
            invariant
                n <= segments@.len(),
                segments@.len() == self.ids().len(),
                segments@.len() == self.contents().len(),
                forall|i: int|
                    0 <= i < segments@.len() ==> (#[trigger] segments@[i]).id == self.ids()[i]
                        && *segments@[i].segment == self.contents()[i],
                forall|m: int| 0 <= m < n ==> self.ids()[m] != address.segment_id,
            decreases segments@.len() - n,
        {
            if segments[n].id == address.segment_id {
                let segment = segments[n].segment;
                assert(self.ids()[n as int] == address.segment_id);
                return Some(
                    StatementRef {
                        segment: SegmentRef { id: address.segment_id, segment },
                        index: address.index,
                    },
                );
            }
            n += 1;
        }
        None
    }

    /// The place of a statement in the sources: the position of its segment
    /// in the logical order, or the number of segments where the set does not
    /// hold the segment, and the number of the statement.
    pub fn place_of(&self, address: StatementAddress) -> (at: (usize, i32))
        ensures
            (at.0 as int, at.1 as int) == crate::diag::place(self.ids(), address),
    {
        proof {
            self.ids().index_of_first_ensures(address.segment_id);
        }
        match self.position(address.segment_id) {
            Some(n) => (n, address.index),
            None => (self.segments().len(), address.index),
        }
    }
}

} // verus!
