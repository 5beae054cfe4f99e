//! The database: the segments, and for every analysis pass its result slot.
//!
//! Results are computed when they are asked for and kept until the segments
//! change.  A pass is run by the runner that the caller hands in, after the
//! passes it reads from, on what it computed last.  Cloning a database shares
//! every handle; a pass that is to change a shared result works on a copy.

use vstd::prelude::*;
use std::sync::Arc;
use crate::outline::{build_outline, entries_upto, root_tree, OutlineNode, OutlineTree};
use crate::pass::{
    lemma_dependencies, share, starts_from, try_unwrap, Pass, PassResult, SlotView,
};
use crate::promise::{Failure, Outcome};
use crate::diag::{arrange, arranged, Finding, Notation};
use crate::segment::{
    Diagnostic, DiagnosticClass, ErrorKind, HeadingLevel, Segment, StatementAddress, StatementRef,
};
use crate::segment_order::SegmentId;
use crate::segment_set::{
    all_spliced, diagnostics_upto, job_fits, origin_of, reload, segments_from, stays, Exhausted,
    ParseJob, Reparse, SegmentSet,
};
use crate::source::{copy_bytes, enumerate, layout, plan_views, PiecePlan, SourceText};

verus! {

/// Structure for options that affect database processing, and must be constant
/// for the lifetime of the database container.
#[derive(Debug)]
pub struct DbOptions {
    /// If true, sources of more than a mebibyte are split at chapter
    /// headings into pieces that are read and parsed on their own.
    pub autosplit: bool,
    /// If true, time in milliseconds is printed after the completion of each
    /// pass.
    pub timing: bool,
    /// True to print names of segments which are recalculated in each pass.
    pub trace_recalc: bool,
    /// True to record database outline with parts, chapters, and sections.
    pub outline: bool,
    /// True to record detailed usage data needed for incremental operation.
    /// If this is false, every run of a pass starts from nothing.
    pub incremental: bool,
    /// Number of jobs to run in parallel at any given time.
    pub jobs: usize,
    /// If true, will parse the statements in addition to preparing the grammar
    pub parse_statements: bool,
}

impl Default for DbOptions {
    fn default() -> (options: Self)
        ensures
            !options.autosplit,
            !options.timing,
            !options.trace_recalc,
            !options.outline,
            !options.incremental,
            options.jobs == 0,
            !options.parse_statements,
    {
        DbOptions {
            autosplit: false,
            timing: false,
            trace_recalc: false,
            outline: false,
            incremental: false,
            jobs: 0,
            parse_statements: false,
        }
    }
}

/// Master type of database containers.
///
/// A variable of type `Database` holds a database, i.e. an ordered collection
/// of segments and analysis results for that collection.  Analysis results are
/// generated lazily for each database, and are invalidated on any edit to the
/// database's segments.  If you need to refer to old analysis results while
/// making a sequence of edits, call `Clone::clone` on the database first; this
/// is a cheap operation.
///
/// The fields are declared, and therefore released, in the reverse of the
/// order in which the passes read from one another: a result goes before the
/// results it was computed from, and the segments go last.
pub struct Database<T> {
    stmt_parse: PassResult<T>,
    grammar: PassResult<T>,
    verify: PassResult<T>,
    scopes: PassResult<T>,
    names: PassResult<T>,
    outline: PassResult<OutlineNode>,
    segments: Arc<SegmentSet>,
    options: Arc<DbOptions>,
    aborted: Vec<(Pass, Failure)>,
}

/// `inputs` are the valid results of the passes that `pass` reads, in the
/// order of `pass.inputs()`.
pub open spec fn inputs_of<T>(db: Database<T>, pass: Pass, inputs: Seq<Arc<T>>) -> bool {
    &&& inputs.len() == pass.inputs().len()
    &&& forall|k: int|
        0 <= k < inputs.len() ==> db.slot(#[trigger] pass.inputs()[k]).current == Some(*inputs[k])
}

/// The valid result of `pass` in `after` is what `run` made, on the segments
/// and the valid results of the passes that `pass` reads, of what `pass` had
/// computed last in `before`; or of nothing, where the database is not
/// incremental.
pub open spec fn computed<T: Clone, F: Fn(Pass, Option<T>, &SegmentSet, &Vec<Arc<T>>) -> Outcome<T>>(
    before: Database<T>,
    after: Database<T>,
    run: F,
    pass: Pass,
) -> bool {
    &&& after.slot(pass).current is Some
    &&& after.slot(pass).previous == after.slot(pass).current
    &&& exists|start: Option<T>, inputs: Vec<Arc<T>>|
        {
            &&& #[trigger] call_ensures(
                run,
                (pass, start, &after.segments(), &inputs),
                Ok(after.slot(pass).current->0),
            )
            &&& inputs_of(after, pass, inputs@)
            &&& if before.options().incremental {
                starts_from(before.slot(pass).previous, start)
            } else {
                start is None
            }
        }
}

/// The runner accepts every call.
pub open spec fn runs_always<T, F: Fn(Pass, Option<T>, &SegmentSet, &Vec<Arc<T>>) -> Outcome<T>>(
    run: F,
) -> bool {
    forall|pass: Pass, start: Option<T>, segments: &SegmentSet, inputs: &Vec<Arc<T>>|
        call_requires(run, (pass, start, segments, inputs))
}

/// The slot of `pass` holds nothing: the pass was given up.
pub open spec fn gave_up<T>(db: Database<T>, pass: Pass) -> bool {
    db.slot(pass).current is None && db.slot(pass).previous is None
}

/// The pass `pass` was run and failed with `failure`: the runner was called
/// for it, on the segments and the valid results of the passes that `pass`
/// reads, with what `pass` had computed last in `before`, or with nothing
/// where the database is not incremental, and it returned the failure.  The
/// pass was then given up.
pub open spec fn failed<T: Clone, F: Fn(Pass, Option<T>, &SegmentSet, &Vec<Arc<T>>) -> Outcome<T>>(
    before: Database<T>,
    after: Database<T>,
    run: F,
    pass: Pass,
    failure: Failure,
) -> bool {
    &&& gave_up(after, pass)
    &&& exists|start: Option<T>, inputs: Vec<Arc<T>>|
        {
            &&& #[trigger] call_ensures(
                run,
                (pass, start, &after.segments(), &inputs),
                Err::<T, Failure>(failure),
            )
            &&& inputs_of(after, pass, inputs@)
            &&& if before.options().incremental {
                starts_from(before.slot(pass).previous, start)
            } else {
                start is None
            }
        }
}

/// What asking for the result of `pass` does to a database.
///
/// The segments, the options and the outline stay.  A slot changes only if
/// it is that of `pass` or of a pass that feeds it, and only if it held no
/// valid result: a result that is valid is never computed again.  Such a slot
/// then holds what the runner computed, unless the runner failed.
///
/// Where every run came to its end, `pass` and every pass that feeds it have
/// valid results, and the handle is that of `pass`.  The request fails only
/// where the runner failed: the failure is the one that the runner returned
/// for `pass` or for a pass that feeds it, that pass was given up and
/// recorded with the failure, no pass was run after it, and `pass` has no
/// valid result.
pub open spec fn settled<T: Clone, F: Fn(Pass, Option<T>, &SegmentSet, &Vec<Arc<T>>) -> Outcome<T>>(
    before: Database<T>,
    after: Database<T>,
    run: F,
    pass: Pass,
    r: Result<&Arc<T>, Failure>,
) -> bool {
    &&& after.options() == before.options()
    &&& after.segments() == before.segments()
    &&& after.outline_slot() == before.outline_slot()
    &&& forall|q: Pass|
        #![trigger after.slot(q)]
        after.slot(q) == before.slot(q) || (!before.is_current(q) && (q == pass || q.feeds(pass))
            && (computed(before, after, run, q) || (r matches Err(failure) && failed(
            before,
            after,
            run,
            q,
            failure,
        ))))
    &&& match r {
        Ok(handle) => {
            &&& after.slot(pass).current == Some(**handle)
            &&& forall|q: Pass| q.feeds(pass) ==> #[trigger] after.is_current(q)
            &&& after.aborted() == before.aborted()
        },
        Err(failure) => {
            &&& !after.is_current(pass)
            &&& exists|q: Pass|
                {
                    &&& q == pass || q.feeds(pass)
                    &&& !before.is_current(q)
                    &&& #[trigger] failed(before, after, run, q, failure)
                    &&& after.aborted() == before.aborted().push((q, failure))
                }
        },
    }
}

/// The results of a database are as they were in `before`.
pub open spec fn results_kept<T>(before: Database<T>, after: Database<T>) -> bool {
    &&& forall|pass: Pass| #[trigger] after.slot(pass) == before.slot(pass)
    &&& after.outline_slot() == before.outline_slot()
    &&& after.aborted() == before.aborted()
}

/// What reading the sources again does to a database, where the sources are
/// read in the pieces `plans` and `parsed` is what the parser made of the
/// pieces that were to be parsed.
///
/// Where nothing changed, the database is as it was.  Where something
/// changed, the segments are those of the new pieces; no pass has a valid
/// result any more, and every pass keeps what it computed last; the list of
/// the passes that were given up is empty.  Where the identifiers run out,
/// the reading fails and the database is as it was.
pub open spec fn reparsed<T>(
    before: Database<T>,
    after: Database<T>,
    plans: Seq<PiecePlan>,
    parsed: Seq<Vec<Segment>>,
    r: Result<(), Exhausted>,
) -> bool {
    let earlier = before.segments();
    let room = earlier.order().next + plans.len() + segments_from(parsed, 0) <= u32::MAX;
    if stays(earlier.records(), plans) {
        &&& r is Ok
        &&& after.segments().records() == earlier.records()
        &&& after.segments().order() == earlier.order()
        &&& results_kept(before, after)
    } else if room {
        &&& r is Ok
        &&& earlier.order().evolves_to(after.segments().order())
        &&& all_spliced(
            earlier.records(),
            earlier.order().next,
            plans,
            parsed,
            after.segments().records(),
        )
        &&& forall|pass: Pass|
            (#[trigger] after.slot(pass)).current is None && after.slot(pass).previous
                == before.slot(pass).previous
        &&& after.outline_slot().current is None
        &&& after.outline_slot().previous == before.outline_slot().previous
        &&& after.aborted().len() == 0
    } else {
        &&& r is Err
        &&& after.segments().records() == earlier.records()
        &&& after.segments().order() == earlier.order()
        &&& results_kept(before, after)
    }
}

/// The pass whose result holds the diagnostics of a class; none for the
/// diagnostics of the parser, which the segments hold.
pub open spec fn class_pass(class: DiagnosticClass) -> Option<Pass> {
    match class {
        DiagnosticClass::Parse => None,
        DiagnosticClass::Scope => Some(Pass::Scopeck),
        DiagnosticClass::Verify => Some(Pass::Verify),
        DiagnosticClass::Grammar => Some(Pass::Grammar),
        DiagnosticClass::StmtParse => Some(Pass::StmtParse),
    }
}

/// The diagnostics `list` as findings of `class`.
pub open spec fn tagged(class: DiagnosticClass, list: Seq<(StatementAddress, Diagnostic)>) -> Seq<
    Finding,
> {
    Seq::new(
        list.len(),
        |i: int| Finding { class, address: list[i].0, diagnostic: list[i].1 },
    )
}

/// The finding that stands for a pass that was given up: an internal error
/// with the message of the failure, at no statement of the sources.
pub open spec fn internal_finding(class: DiagnosticClass, failure: Failure) -> Finding {
    Finding {
        class,
        address: StatementAddress { segment_id: SegmentId(0), index: 0 },
        diagnostic: Diagnostic { kind: ErrorKind::Internal, message: failure.message },
    }
}

/// `part` is what the parser adds to the findings: its diagnostics, where
/// `types` holds the class of the parser, and else nothing.
pub open spec fn parse_part(
    set: SegmentSet,
    types: Seq<DiagnosticClass>,
    part: Seq<Finding>,
) -> bool {
    part == if types.contains(DiagnosticClass::Parse) {
        tagged(
            DiagnosticClass::Parse,
            diagnostics_upto(set.ids(), set.contents(), set.ids().len() as int),
        )
    } else {
        Seq::<Finding>::empty()
    }
}

/// What gathering the findings of the class `class`, whose pass is `pass`,
/// does to a database, and what it adds to the findings.
///
/// Where `types` lacks the class, nothing happens and nothing is added.
/// Else the result of the pass is asked for.  Where that gives a result,
/// `part` is the diagnostics that `diagnostics_of` reads from it.  Where the
/// runner fails, `part` is the one finding that stands for the failure.
pub open spec fn gathered_class<
    T: Clone,
    F: Fn(Pass, Option<T>, &SegmentSet, &Vec<Arc<T>>) -> Outcome<T>,
    D: Fn(DiagnosticClass, &T) -> Vec<(StatementAddress, Diagnostic)>,
>(
    before: Database<T>,
    after: Database<T>,
    run: F,
    diagnostics_of: D,
    types: Seq<DiagnosticClass>,
    class: DiagnosticClass,
    pass: Pass,
    part: Seq<Finding>,
) -> bool {
    if !types.contains(class) {
        &&& part == Seq::<Finding>::empty()
        &&& after.options() == before.options()
        &&& after.segments() == before.segments()
        &&& results_kept(before, after)
    } else {
        exists|r: Result<&Arc<T>, Failure>|
            {
                &&& #[trigger] settled(before, after, run, pass, r)
                &&& match r {
                    Ok(table) => exists|list: Vec<(StatementAddress, Diagnostic)>|
                        #[trigger] call_ensures(diagnostics_of, (class, &**table), list) && part
                            == tagged(class, list@),
                    Err(failure) => part == seq![internal_finding(class, failure)],
                }
            }
    }
}

/// The findings of the classes `types`: `parts` holds what the parser and
/// the four passes add, which are gathered one after the other in the order
/// scope, verify, grammar, statement parse, the database going from `before`
/// through `stages` to `after`.
pub open spec fn gathered<
    T: Clone,
    F: Fn(Pass, Option<T>, &SegmentSet, &Vec<Arc<T>>) -> Outcome<T>,
    D: Fn(DiagnosticClass, &T) -> Vec<(StatementAddress, Diagnostic)>,
>(
    before: Database<T>,
    after: Database<T>,
    run: F,
    diagnostics_of: D,
    types: Seq<DiagnosticClass>,
    stages: Seq<Database<T>>,
    parts: Seq<Seq<Finding>>,
) -> bool {
    &&& stages.len() == 3
    &&& parts.len() == 5
    &&& parse_part(before.segments(), types, parts[0])
    &&& gathered_class(
        before,
        stages[0],
        run,
        diagnostics_of,
        types,
        DiagnosticClass::Scope,
        Pass::Scopeck,
        parts[1],
    )
    &&& gathered_class(
        stages[0],
        stages[1],
        run,
        diagnostics_of,
        types,
        DiagnosticClass::Verify,
        Pass::Verify,
        parts[2],
    )
    &&& gathered_class(
        stages[1],
        stages[2],
        run,
        diagnostics_of,
        types,
        DiagnosticClass::Grammar,
        Pass::Grammar,
        parts[3],
    )
    &&& gathered_class(
        stages[2],
        after,
        run,
        diagnostics_of,
        types,
        DiagnosticClass::StmtParse,
        Pass::StmtParse,
        parts[4],
    )
}

/// The findings of `parts`, one part after the other.
pub open spec fn all_findings(parts: Seq<Seq<Finding>>) -> Seq<Finding> {
    parts[0] + parts[1] + parts[2] + parts[3] + parts[4]
}

/// The pass `q` is needed for the findings of `class`: it is the pass of the
/// class or feeds it.
pub open spec fn serves(q: Pass, class: DiagnosticClass) -> bool {
    match class_pass(class) {
        Some(p) => q == p || q.feeds(p),
        None => false,
    }
}

/// Only what was asked for was run: the options, the segments and the
/// outline are as before, and a slot has changed only if it held no valid
/// result and is the slot of the pass of a class in `types` or of a pass
/// that feeds it.
pub open spec fn only_asked<T>(
    before: Database<T>,
    after: Database<T>,
    types: Seq<DiagnosticClass>,
) -> bool {
    &&& after.options() == before.options()
    &&& after.segments() == before.segments()
    &&& after.outline_slot() == before.outline_slot()
    &&& forall|q: Pass|
        #![trigger after.slot(q)]
        after.slot(q) == before.slot(q) || (!before.is_current(q) && exists|class: DiagnosticClass|
            types.contains(class) && #[trigger] serves(q, class))
}

/// Gathering the findings of a class runs only what the class needs.
pub proof fn lemma_gathered_class<
    T: Clone,
    F: Fn(Pass, Option<T>, &SegmentSet, &Vec<Arc<T>>) -> Outcome<T>,
    D: Fn(DiagnosticClass, &T) -> Vec<(StatementAddress, Diagnostic)>,
>(
    before: Database<T>,
    after: Database<T>,
    run: F,
    diagnostics_of: D,
    types: Seq<DiagnosticClass>,
    class: DiagnosticClass,
    pass: Pass,
    part: Seq<Finding>,
)
    requires
        class_pass(class) == Some(pass),
        gathered_class(before, after, run, diagnostics_of, types, class, pass, part),
    ensures
        after.options() == before.options(),
        after.segments() == before.segments(),
        after.outline_slot() == before.outline_slot(),
        forall|q: Pass|
            #![trigger after.slot(q)]
            after.slot(q) == before.slot(q) || (!before.is_current(q) && types.contains(class) && (q
                == pass || q.feeds(pass))),
        forall|q: Pass| before.is_current(q) ==> #[trigger] after.is_current(q),
{
    if types.contains(class) {
        let r = choose|r: Result<&Arc<T>, Failure>|
            {
                &&& #[trigger] settled(before, after, run, pass, r)
                &&& match r {
                    Ok(table) => exists|list: Vec<(StatementAddress, Diagnostic)>|
                        #[trigger] call_ensures(diagnostics_of, (class, &**table), list) && part
                            == tagged(class, list@),
                    Err(failure) => part == seq![internal_finding(class, failure)],
                }
            };
        assert(settled(before, after, run, pass, r));
    }
    assert forall|q: Pass| before.is_current(q) implies #[trigger] after.is_current(q) by {
        assert(after.slot(q) == before.slot(q));
    }
}

/// Gathering findings runs only what was asked for: the passes of the
/// classes in `types` and the passes that feed them, as far as they had no
/// valid result.  Where no class of a pass is asked for, no pass is run.
pub proof fn lemma_only_asked<
    T: Clone,
    F: Fn(Pass, Option<T>, &SegmentSet, &Vec<Arc<T>>) -> Outcome<T>,
    D: Fn(DiagnosticClass, &T) -> Vec<(StatementAddress, Diagnostic)>,
>(
    before: Database<T>,
    after: Database<T>,
    run: F,
    diagnostics_of: D,
    types: Seq<DiagnosticClass>,
    stages: Seq<Database<T>>,
    parts: Seq<Seq<Finding>>,
)
    requires
        gathered(before, after, run, diagnostics_of, types, stages, parts),
    ensures
        only_asked(before, after, types),
{
    let s1 = stages[0];
    let s2 = stages[1];
    let s3 = stages[2];
    lemma_gathered_class(
        before,
        s1,
        run,
        diagnostics_of,
        types,
        DiagnosticClass::Scope,
        Pass::Scopeck,
        parts[1],
    );
    lemma_gathered_class(
        s1,
        s2,
        run,
        diagnostics_of,
        types,
        DiagnosticClass::Verify,
        Pass::Verify,
        parts[2],
    );
    lemma_gathered_class(
        s2,
        s3,
        run,
        diagnostics_of,
        types,
        DiagnosticClass::Grammar,
        Pass::Grammar,
        parts[3],
    );
    lemma_gathered_class(
        s3,
        after,
        run,
        diagnostics_of,
        types,
        DiagnosticClass::StmtParse,
        Pass::StmtParse,
        parts[4],
    );
    assert forall|q: Pass|
        #![trigger after.slot(q)]
        after.slot(q) == before.slot(q) || (!before.is_current(q) && exists|class: DiagnosticClass|
            types.contains(class) && #[trigger] serves(q, class)) by {
        if after.slot(q) != before.slot(q) {
            if before.is_current(q) {
                assert(s1.slot(q) == before.slot(q));
                assert(s2.slot(q) == s1.slot(q));
                assert(s3.slot(q) == s2.slot(q));
                assert(after.slot(q) == s3.slot(q));
            }
            if s1.slot(q) != before.slot(q) {
                assert(serves(q, DiagnosticClass::Scope));
            } else if s2.slot(q) != s1.slot(q) {
                assert(serves(q, DiagnosticClass::Verify));
            } else if s3.slot(q) != s2.slot(q) {
                assert(serves(q, DiagnosticClass::Grammar));
            } else {
                assert(after.slot(q) != s3.slot(q));
                assert(serves(q, DiagnosticClass::StmtParse));
            }
        }
    }
}

/// `list` holds the findings `found`, each with the name of the source of
/// its segment.
pub open spec fn noted(set: SegmentSet, found: Seq<Finding>, list: Seq<Notation>) -> bool {
    &&& list.len() == found.len()
    &&& forall|i: int|
        0 <= i < list.len() ==> {
            &&& (#[trigger] list[i]).class == found[i].class
            &&& list[i].address == found[i].address
            &&& list[i].diagnostic == found[i].diagnostic
            &&& match list[i].origin {
                Some(name) => origin_of(set.records(), found[i].address.segment_id) == Some(name@),
                None => origin_of(set.records(), found[i].address.segment_id) is None,
            }
        }
}

/// `found` is the statement with the label `name`: the table of names is
/// `names`, in which `lookup` finds the label at `address` or not at all, and
/// the segments hold the statement at that address or lack its segment.
pub open spec fn looked_up<
    T: Clone,
    F: Fn(Pass, Option<T>, &SegmentSet, &Vec<Arc<T>>) -> Outcome<T>,
    L: Fn(&T, &Vec<u8>) -> Option<StatementAddress>,
>(
    before: Database<T>,
    after: Database<T>,
    run: F,
    lookup: L,
    name: Vec<u8>,
    found: Option<StatementRef>,
    names: &Arc<T>,
    address: Option<StatementAddress>,
) -> bool {
    &&& settled(before, after, run, Pass::Nameck, Ok::<&Arc<T>, Failure>(names))
    &&& call_ensures(lookup, (&**names, &name), address)
    &&& match address {
        Some(at) => match found {
            Some(statement) => statement.index == at.index && statement.segment.id == at.segment_id
                && after.segments().ids().contains(at.segment_id),
            None => !after.segments().ids().contains(at.segment_id),
        },
        None => found is None,
    }
}

/// A valid result is handed out again.  Asking for the result of a pass that
/// has a valid result runs no pass and changes nothing, and the handle is
/// that of the valid result.
pub proof fn lemma_valid_result_is_kept<
    T: Clone,
    F: Fn(Pass, Option<T>, &SegmentSet, &Vec<Arc<T>>) -> Outcome<T>,
>(before: Database<T>, after: Database<T>, run: F, pass: Pass, r: Result<&Arc<T>, Failure>)
    requires
        before.wf(),
        before.is_current(pass),
        settled(before, after, run, pass, r),
    ensures
        r matches Ok(handle) && Some(**handle) == before.slot(pass).current,
        results_kept(before, after),
        after.segments() == before.segments(),
        after.options() == before.options(),
{
    assert forall|q: Pass| #[trigger] after.slot(q) == before.slot(q) by {
        if q.feeds(pass) {
            assert(before.is_current(pass) && q.feeds(pass));
        }
    }
    if r is Err {
        let q = choose|q: Pass|
            {
                &&& q == pass || q.feeds(pass)
                &&& !before.is_current(q)
                &&& #[trigger] failed(before, after, run, q, r->Err_0)
                &&& after.aborted() == before.aborted().push((q, r->Err_0))
            };
        assert(before.is_current(pass) && (q == pass || q.feeds(pass)));
    }
}

/// Dependency discipline.  Asking for the result of a pass runs that pass and
/// the passes that feed it, as far as they have no valid result, and no
/// other: only their slots change.  Where no run fails, each of them has a
/// valid result afterwards, computed by the runner where it had none.
pub proof fn lemma_only_what_is_needed_runs<
    T: Clone,
    F: Fn(Pass, Option<T>, &SegmentSet, &Vec<Arc<T>>) -> Outcome<T>,
>(before: Database<T>, after: Database<T>, run: F, pass: Pass, r: Result<&Arc<T>, Failure>)
    requires
        settled(before, after, run, pass, r),
    ensures
        forall|q: Pass|
            #[trigger] after.slot(q) != before.slot(q) ==> (q == pass || q.feeds(pass))
                && !before.is_current(q),
        r is Ok ==> forall|q: Pass|
            q == pass || q.feeds(pass) ==> #[trigger] after.is_current(q) && (!before.is_current(q)
                ==> computed(before, after, run, q)),
{
    if r is Ok {
        assert forall|q: Pass| q == pass || q.feeds(pass) implies #[trigger] after.is_current(q)
            && (!before.is_current(q) ==> computed(before, after, run, q)) by {
            assert(after.slot(q) == before.slot(q) || computed(before, after, run, q));
        }
    }
}

/// A request fails only where the runner fails: with a runner that returns
/// a table on every call, the request gives a result.
pub proof fn lemma_succeeds_where_the_runner_does<
    T: Clone,
    F: Fn(Pass, Option<T>, &SegmentSet, &Vec<Arc<T>>) -> Outcome<T>,
>(before: Database<T>, after: Database<T>, run: F, pass: Pass, r: Result<&Arc<T>, Failure>)
    requires
        settled(before, after, run, pass, r),
        forall|q: Pass, start: Option<T>, segments: &SegmentSet, inputs: &Vec<Arc<T>>, out: Outcome<T>|
            #[trigger] call_ensures(run, (q, start, segments, inputs), out) ==> out is Ok,
    ensures
        r is Ok,
{
    if r is Err {
        let q = choose|q: Pass|
            {
                &&& q == pass || q.feeds(pass)
                &&& !before.is_current(q)
                &&& #[trigger] failed(before, after, run, q, r->Err_0)
                &&& after.aborted() == before.aborted().push((q, r->Err_0))
            };
        assert(failed(before, after, run, q, r->Err_0));
    }
}

/// A run that failed in a later state failed in an earlier one in which the
/// pass had computed the same last and the options were the same.
pub proof fn lemma_failed_rebase<
    T: Clone,
    F: Fn(Pass, Option<T>, &SegmentSet, &Vec<Arc<T>>) -> Outcome<T>,
>(
    before: Database<T>,
    mid: Database<T>,
    after: Database<T>,
    run: F,
    pass: Pass,
    failure: Failure,
)
    requires
        failed(mid, after, run, pass, failure),
        before.options() == mid.options(),
        before.slot(pass).previous == mid.slot(pass).previous,
    ensures
        failed(before, after, run, pass, failure),
{
    let (start, inputs) = choose|start: Option<T>, inputs: Vec<Arc<T>>|
        {
            &&& #[trigger] call_ensures(
                run,
                (pass, start, &after.segments(), &inputs),
                Err::<T, Failure>(failure),
            )
            &&& inputs_of(after, pass, inputs@)
            &&& if mid.options().incremental {
                starts_from(mid.slot(pass).previous, start)
            } else {
                start is None
            }
        };
    assert(call_ensures(
        run,
        (pass, start, &after.segments(), &inputs),
        Err::<T, Failure>(failure),
    ));
}

/// What the request for the result of `q`, a pass that `pass` reads, adds to
/// what earlier such requests did: the passes that feed `pass` and have
/// changed since `before` were computed, or, where the request failed, one of
/// them failed.
pub proof fn lemma_after_request<
    T: Clone,
    F: Fn(Pass, Option<T>, &SegmentSet, &Vec<Arc<T>>) -> Outcome<T>,
>(
    before: Database<T>,
    mid: Database<T>,
    after: Database<T>,
    run: F,
    q: Pass,
    pass: Pass,
    r: Result<&Arc<T>, Failure>,
)
    requires
        q.feeds(pass),
        mid.options() == before.options(),
        forall|p: Pass|
            #![trigger mid.slot(p)]
            mid.slot(p) == before.slot(p) || (!before.is_current(p) && p.feeds(pass) && computed(
                before,
                mid,
                run,
                p,
            )),
        settled(mid, after, run, q, r),
    ensures
        forall|p: Pass|
            #![trigger after.slot(p)]
            after.slot(p) == before.slot(p) || (!before.is_current(p) && p.feeds(pass) && (computed(
                before,
                after,
                run,
                p,
            ) || (r matches Err(failure) && failed(before, after, run, p, failure)))),
{
    assert forall|p: Pass|
        #![trigger after.slot(p)]
        after.slot(p) == before.slot(p) || (!before.is_current(p) && p.feeds(pass) && (computed(
            before,
            after,
            run,
            p,
        ) || (r matches Err(failure) && failed(before, after, run, p, failure)))) by {
        lemma_dependencies(p, q);
        lemma_dependencies(p, pass);
        if after.slot(p) != mid.slot(p) {
            assert(mid.slot(p) == before.slot(p));
            if computed(mid, after, run, p) {
                lemma_computed_rebase(before, mid, after, run, p);
            } else {
                lemma_failed_rebase(before, mid, after, run, p, r->Err_0);
            }
        } else if mid.slot(p) != before.slot(p) {
            lemma_computed_carries(before, mid, after, run, p);
        }
    }
}

/// The tables behind the handles `inputs`.
pub open spec fn input_tables<T>(inputs: Seq<Arc<T>>) -> Seq<T> {
    Seq::new(inputs.len(), |k: int| *inputs[k])
}

/// The table that the runner computes depends on the pass, the segments and
/// the tables it reads alone, as `table` says: not on what the pass computed
/// last, and not on when or where the runner is called.
pub open spec fn determined_by<T, F: Fn(Pass, Option<T>, &SegmentSet, &Vec<Arc<T>>) -> Outcome<T>>(
    run: F,
    table: spec_fn(Pass, SegmentSet, Seq<T>) -> T,
) -> bool {
    forall|pass: Pass, start: Option<T>, segments: &SegmentSet, inputs: &Vec<Arc<T>>, made: T|
        #[trigger] call_ensures(run, (pass, start, segments, inputs), Ok::<T, Failure>(made))
            ==> made == table(pass, *segments, input_tables(inputs@))
}

/// With such a runner, the result that was computed for a pass is what
/// `table` gives for the segments and the valid results of the passes that
/// the pass reads.
pub proof fn lemma_computed_is_determined<
    T: Clone,
    F: Fn(Pass, Option<T>, &SegmentSet, &Vec<Arc<T>>) -> Outcome<T>,
>(
    before: Database<T>,
    after: Database<T>,
    run: F,
    table: spec_fn(Pass, SegmentSet, Seq<T>) -> T,
    pass: Pass,
)
    requires
        determined_by(run, table),
        computed(before, after, run, pass),
    ensures
        after.slot(pass).current == Some(
            table(
                pass,
                after.segments(),
                Seq::new(pass.inputs().len(), |k: int| after.slot(pass.inputs()[k]).current->0),
            ),
        ),
{
    let (start, inputs) = choose|start: Option<T>, inputs: Vec<Arc<T>>|
        {
            &&& #[trigger] call_ensures(
                run,
                (pass, start, &after.segments(), &inputs),
                Ok(after.slot(pass).current->0),
            )
            &&& inputs_of(after, pass, inputs@)
            &&& if before.options().incremental {
                starts_from(before.slot(pass).previous, start)
            } else {
                start is None
            }
        };
    assert(input_tables(inputs@) =~= Seq::new(
        pass.inputs().len(),
        |k: int| after.slot(pass.inputs()[k]).current->0,
    ));
}

/// Determinism.  Let the table that the runner computes depend on the pass,
/// the segments and the tables it reads alone.  Then two databases that hold
/// the same segments and no valid result give the same result for a pass,
/// whatever they had computed before and in whatever order the work was
/// done.
pub proof fn results_are_determined<
    T: Clone,
    F: Fn(Pass, Option<T>, &SegmentSet, &Vec<Arc<T>>) -> Outcome<T>,
>(
    first: Database<T>,
    first_after: Database<T>,
    first_result: Result<&Arc<T>, Failure>,
    second: Database<T>,
    second_after: Database<T>,
    second_result: Result<&Arc<T>, Failure>,
    run: F,
    table: spec_fn(Pass, SegmentSet, Seq<T>) -> T,
    pass: Pass,
)
    requires
        determined_by(run, table),
        first.segments() == second.segments(),
        forall|q: Pass| !(#[trigger] first.is_current(q)),
        forall|q: Pass| !(#[trigger] second.is_current(q)),
        settled(first, first_after, run, pass, first_result),
        settled(second, second_after, run, pass, second_result),
        first_result is Ok,
        second_result is Ok,
    ensures
        **first_result->Ok_0 == **second_result->Ok_0,
        forall|q: Pass|
            q == pass || q.feeds(pass) ==> #[trigger] first_after.slot(q).current
                == second_after.slot(q).current,
{
    lemma_only_what_is_needed_runs(first, first_after, run, pass, first_result);
    lemma_only_what_is_needed_runs(second, second_after, run, pass, second_result);
    assert forall|q: Pass|
        #![trigger computed(first, first_after, run, q)]
        #![trigger computed(second, second_after, run, q)]
        q == pass || q.feeds(pass) implies computed(first, first_after, run, q) && computed(
        second,
        second_after,
        run,
        q,
    ) by {
        assert(!first.is_current(q) && !second.is_current(q));
        assert(first_after.is_current(q) && second_after.is_current(q));
    }
    lemma_same_result(first, first_after, second, second_after, run, table, pass, Pass::Nameck);
    lemma_same_result(first, first_after, second, second_after, run, table, pass, Pass::Scopeck);
    lemma_same_result(first, first_after, second, second_after, run, table, pass, Pass::Verify);
    lemma_same_result(first, first_after, second, second_after, run, table, pass, Pass::Grammar);
    lemma_same_result(first, first_after, second, second_after, run, table, pass, Pass::StmtParse);
    assert forall|q: Pass| q == pass || q.feeds(pass) implies #[trigger] first_after.slot(
        q,
    ).current == second_after.slot(q).current by {
        assert(!first.is_current(q));
        assert(first_after.is_current(q));
    }
    assert(first_after.slot(pass).current == second_after.slot(pass).current);
}

/// One step of `results_are_determined`: the pass `q` has the same result in
/// both databases where the passes that it reads have.
proof fn lemma_same_result<
    T: Clone,
    F: Fn(Pass, Option<T>, &SegmentSet, &Vec<Arc<T>>) -> Outcome<T>,
>(
    first: Database<T>,
    first_after: Database<T>,
    second: Database<T>,
    second_after: Database<T>,
    run: F,
    table: spec_fn(Pass, SegmentSet, Seq<T>) -> T,
    pass: Pass,
    q: Pass,
)
    requires
        determined_by(run, table),
        first_after.segments() == second_after.segments(),
        q == pass || q.feeds(pass) ==> computed(first, first_after, run, q) && computed(
            second,
            second_after,
            run,
            q,
        ),
        forall|p: Pass|
            p.feeds(q) && (q == pass || q.feeds(pass)) ==> #[trigger] first_after.slot(p).current
                == second_after.slot(p).current,
    ensures
        q == pass || q.feeds(pass) ==> first_after.slot(q).current == second_after.slot(q).current,
{
    if q == pass || q.feeds(pass) {
        lemma_computed_is_determined(first, first_after, run, table, q);
        lemma_computed_is_determined(second, second_after, run, table, q);
        assert forall|k: int| 0 <= k < q.inputs().len() implies first_after.slot(
            #[trigger] q.inputs()[k],
        ).current == second_after.slot(q.inputs()[k]).current by {
            lemma_dependencies(q.inputs()[k], q);
        }
        assert(Seq::new(q.inputs().len(), |k: int| first_after.slot(q.inputs()[k]).current->0)
            =~= Seq::new(q.inputs().len(), |k: int| second_after.slot(q.inputs()[k]).current->0));
    }
}

/// The results that were computed for the passes that feed `pass` stay
/// computed while only the slot of `pass` changes.
pub proof fn lemma_others_carry<
    T: Clone,
    F: Fn(Pass, Option<T>, &SegmentSet, &Vec<Arc<T>>) -> Outcome<T>,
>(before: Database<T>, mid: Database<T>, after: Database<T>, run: F, pass: Pass)
    requires
        forall|q: Pass|
            #![trigger mid.slot(q)]
            mid.slot(q) == before.slot(q) || (!before.is_current(q) && q.feeds(pass) && computed(
                before,
                mid,
                run,
                q,
            )),
        forall|q: Pass| q != pass ==> #[trigger] after.slot(q) == mid.slot(q),
        after.segments() == mid.segments(),
    ensures
        forall|q: Pass|
            #![trigger after.slot(q)]
            q != pass ==> after.slot(q) == before.slot(q) || (!before.is_current(q) && q.feeds(pass)
                && computed(before, after, run, q)),
{
    assert forall|q: Pass|
        #![trigger after.slot(q)]
        q != pass implies after.slot(q) == before.slot(q) || (!before.is_current(q) && q.feeds(pass)
            && computed(before, after, run, q)) by {
        if mid.slot(q) != before.slot(q) {
            lemma_dependencies(q, pass);
            assert forall|j: int| 0 <= j < q.inputs().len() implies after.slot(
                #[trigger] q.inputs()[j],
            ) == mid.slot(q.inputs()[j]) by {
                lemma_dependencies(q.inputs()[j], q);
            }
            lemma_computed_carries(before, mid, after, run, q);
        }
    }
}

/// A computed result stays computed while its slot, the slots it was computed
/// from and the segments stay.
pub proof fn lemma_computed_carries<
    T: Clone,
    F: Fn(Pass, Option<T>, &SegmentSet, &Vec<Arc<T>>) -> Outcome<T>,
>(before: Database<T>, mid: Database<T>, after: Database<T>, run: F, pass: Pass)
    requires
        computed(before, mid, run, pass),
        after.segments() == mid.segments(),
        after.slot(pass) == mid.slot(pass),
        forall|k: int|
            0 <= k < pass.inputs().len() ==> after.slot(#[trigger] pass.inputs()[k]) == mid.slot(
                pass.inputs()[k],
            ),
    ensures
        computed(before, after, run, pass),
{
    let (start, inputs) = choose|start: Option<T>, inputs: Vec<Arc<T>>|
        {
            &&& #[trigger] call_ensures(
                run,
                (pass, start, &mid.segments(), &inputs),
                Ok(mid.slot(pass).current->0),
            )
            &&& inputs_of(mid, pass, inputs@)
            &&& if before.options().incremental {
                starts_from(before.slot(pass).previous, start)
            } else {
                start is None
            }
        };
    assert(call_ensures(
        run,
        (pass, start, &after.segments(), &inputs),
        Ok(after.slot(pass).current->0),
    ));
    assert(inputs_of(after, pass, inputs@));
}

/// A result computed from a later state was computed from an earlier one in
/// which the pass had computed the same last and the options were the same.
pub proof fn lemma_computed_rebase<
    T: Clone,
    F: Fn(Pass, Option<T>, &SegmentSet, &Vec<Arc<T>>) -> Outcome<T>,
>(before: Database<T>, mid: Database<T>, after: Database<T>, run: F, pass: Pass)
    requires
        computed(mid, after, run, pass),
        before.options() == mid.options(),
        before.slot(pass).previous == mid.slot(pass).previous,
    ensures
        computed(before, after, run, pass),
{
    let (start, inputs) = choose|start: Option<T>, inputs: Vec<Arc<T>>|
        {
            &&& #[trigger] call_ensures(
                run,
                (pass, start, &after.segments(), &inputs),
                Ok(after.slot(pass).current->0),
            )
            &&& inputs_of(after, pass, inputs@)
            &&& if mid.options().incremental {
                starts_from(mid.slot(pass).previous, start)
            } else {
                start is None
            }
        };
    assert(call_ensures(
        run,
        (pass, start, &after.segments(), &inputs),
        Ok(after.slot(pass).current->0),
    ));
}

/// Whether `types` holds `class`.
fn has_class(types: &Vec<DiagnosticClass>, class: DiagnosticClass) -> (r: bool)
    ensures
        r == types@.contains(class),
{
    let mut i: usize = 0;
    while i < types.len()
        invariant
            i <= types@.len(),
            forall|k: int| 0 <= k < i ==> types@[k] != class,
        decreases types@.len() - i,
    {
        if types[i] == class {
            return true;
        }
        i += 1;
    }
    false
}

/// Adds the diagnostics `list` to `found` as findings of `class`.
fn tag(class: DiagnosticClass, list: Vec<(StatementAddress, Diagnostic)>, found: &mut Vec<Finding>)
    ensures
        final(found)@ == old(found)@ + tagged(class, list@),
{
    let ghost all = list@;
    let ghost before = found@;
    for entry in it: list
        invariant
            it.seq() == all,
            found@ == before + tagged(class, all).subrange(0, it.index() as int),
    {
        found.push(Finding { class, address: entry.0, diagnostic: entry.1 });
        proof {
            assert(found@ =~= before + tagged(class, all).subrange(0, it.index() + 1));
        }
    }
    proof {
        assert(tagged(class, all).subrange(0, all.len() as int) =~= tagged(class, all));
    }
}

impl<T> Database<T> {
    /// The options that the database was made with.
    pub closed spec fn options(&self) -> DbOptions {
        *self.options
    }

    /// The segments.
    pub closed spec fn segments(&self) -> SegmentSet {
        *self.segments
    }

    /// The result slot of a pass that the runner computes.  The outline is
    /// not computed by the runner and has a slot of its own, `outline_slot`:
    /// for it this is a slot that holds nothing.
    pub closed spec fn slot(&self, pass: Pass) -> SlotView<T> {
        match pass {
            Pass::Nameck => self.names@,
            Pass::Scopeck => self.scopes@,
            Pass::Verify => self.verify@,
            Pass::Outline => SlotView { current: None, previous: None },
            Pass::Grammar => self.grammar@,
            Pass::StmtParse => self.stmt_parse@,
        }
    }

    /// The result slot of the outline.
    pub closed spec fn outline_slot(&self) -> SlotView<OutlineNode> {
        self.outline@
    }

    /// The passes that were given up, each with the failure that stopped it,
    /// in the order in which that happened.
    pub closed spec fn aborted(&self) -> Seq<(Pass, Failure)> {
        self.aborted@
    }

    /// The pass has a valid result.
    pub open spec fn is_current(&self, pass: Pass) -> bool {
        self.slot(pass).current is Some
    }

    /// The segments are well-formed, and a pass has a valid result only while
    /// every pass that feeds it has one.
    pub open spec fn wf(&self) -> bool {
        &&& self.segments().wf()
        &&& forall|q: Pass, p: Pass|
            #![trigger self.is_current(p), q.feeds(p)]
            self.is_current(p) && q.feeds(p) ==> self.is_current(q)
    }

    /// Constructs a new database object representing an empty set of segments.
    ///
    /// Use `parse` to load it with data.
    pub fn new(options: DbOptions) -> (db: Database<T>)
        ensures
            db.wf(),
            db.options() == options,
            db.segments().wf(),
            db.segments().records().len() == 0,
            forall|pass: Pass|
                db.slot(pass).current is None && (#[trigger] db.slot(pass)).previous is None,
            db.outline_slot().current is None,
            db.outline_slot().previous is None,
            db.aborted().len() == 0,
    {
        Database {
            options: Arc::new(options),
            segments: Arc::new(SegmentSet::new()),
            names: PassResult::new(),
            scopes: PassResult::new(),
            verify: PassResult::new(),
            grammar: PassResult::new(),
            stmt_parse: PassResult::new(),
            outline: PassResult::new(),
            aborted: Vec::new(),
        }
    }

    /// The options that the database was made with.
    pub fn settings(&self) -> (options: &Arc<DbOptions>)
        ensures
            **options == self.options(),
    {
        &self.options
    }

    /// Obtains a reference to the current parsed data.
    pub fn parse_result(&self) -> (segments: &Arc<SegmentSet>)
        ensures
            **segments == self.segments(),
    {
        &self.segments
    }

    /// The slot of a pass that the runner computes.
    fn slot_ref(&self, pass: Pass) -> (slot: &PassResult<T>)
        requires
            pass != Pass::Outline,
        ensures
            slot@ == self.slot(pass),
    {
        match pass {
            Pass::Nameck => &self.names,
            Pass::Scopeck => &self.scopes,
            Pass::Verify => &self.verify,
            Pass::Grammar => &self.grammar,
            _ => &self.stmt_parse,
        }
    }

    /// Nothing but the slot of `pass` differs between the two databases.
    pub open spec fn differs_at(&self, other: &Database<T>, pass: Pass) -> bool {
        &&& self.options() == other.options()
        &&& self.segments() == other.segments()
        &&& self.outline_slot() == other.outline_slot()
        &&& self.aborted() == other.aborted()
        &&& forall|q: Pass| q != pass ==> #[trigger] self.slot(q) == other.slot(q)
    }

    /// Takes out what `pass` is to start from.
    fn take_previous(&mut self, pass: Pass) -> (table: Option<T>) where T: Clone
        requires
            pass != Pass::Outline,
        ensures
            starts_from(old(self).slot(pass).previous, table),
            final(self).slot(pass).previous is None,
            final(self).slot(pass).current == old(self).slot(pass).current,
            final(self).differs_at(old(self), pass),
    {
        match pass {
            Pass::Nameck => self.names.take_previous(),
            Pass::Scopeck => self.scopes.take_previous(),
            Pass::Verify => self.verify.take_previous(),
            Pass::Grammar => self.grammar.take_previous(),
            _ => self.stmt_parse.take_previous(),
        }
    }

    /// Stores the result of a run of `pass` that came to its end.
    fn complete(&mut self, pass: Pass, table: T)
        requires
            pass != Pass::Outline,
        ensures
            final(self).slot(pass).current == Some(table),
            final(self).slot(pass).previous == Some(table),
            final(self).differs_at(old(self), pass),
    {
        match pass {
            Pass::Nameck => {
                self.names.complete(table);
            },
            Pass::Scopeck => {
                self.scopes.complete(table);
            },
            Pass::Verify => {
                self.verify.complete(table);
            },
            Pass::Grammar => {
                self.grammar.complete(table);
            },
            _ => {
                self.stmt_parse.complete(table);
            },
        }
    }

    /// Empties the slot of a pass that was given up.
    fn abandon(&mut self, pass: Pass)
        requires
            pass != Pass::Outline,
        ensures
            final(self).slot(pass).current is None,
            final(self).slot(pass).previous is None,
            final(self).differs_at(old(self), pass),
    {
        match pass {
            Pass::Nameck => self.names.abandon(),
            Pass::Scopeck => self.scopes.abandon(),
            Pass::Verify => self.verify.abandon(),
            Pass::Grammar => self.grammar.abandon(),
            _ => self.stmt_parse.abandon(),
        }
    }

    /// Returns the valid result of `pass`, computing it first where there is
    /// none, after the results of the passes that it reads.
    pub fn result<F>(&mut self, pass: Pass, run: &F) -> (r: Result<&Arc<T>, Failure>) where
        T: Clone,
        F: Fn(Pass, Option<T>, &SegmentSet, &Vec<Arc<T>>) -> Outcome<T>,

        requires
            old(self).wf(),
            pass != Pass::Outline,
            runs_always(*run),
        ensures
            final(self).wf(),
            settled(*old(self), *final(self), *run, pass, r),
        decreases pass.rank(),
    {
        let ghost before = *self;
        if self.slot_ref(pass).current().is_some() {
            proof {
                assert forall|q: Pass| q.feeds(pass) implies #[trigger] self.is_current(q) by {
                    assert(self.is_current(pass) && q.feeds(pass));
                }
            }
            return Ok(self.slot_ref(pass).current().unwrap());
        }
        let needed = pass.prerequisites();
        let mut inputs: Vec<Arc<T>> = Vec::new();
        let mut k: usize = 0;
        while k < needed.len()
            invariant
                k <= needed@.len(),
                needed@ == pass.inputs(),
                pass != Pass::Outline,
                runs_always(*run),
                before == *old(self),
                before.wf(),
                self.wf(),
                !before.is_current(pass),
                self.options() == before.options(),
                self.segments() == before.segments(),
                self.outline_slot() == before.outline_slot(),
                self.aborted() == before.aborted(),
                self.slot(pass) == before.slot(pass),
                forall|q: Pass|
                    #![trigger self.slot(q)]
                    self.slot(q) == before.slot(q) || (!before.is_current(q) && q.feeds(pass)
                        && computed(before, *self, *run, q)),
                forall|j: int|
                    #![trigger needed@[j]]
                    0 <= j < k ==> self.is_current(needed@[j]) && forall|q: Pass|
                        q.feeds(needed@[j]) ==> self.is_current(q),
                inputs@.len() == k,
                forall|j: int|
                    0 <= j < k ==> self.slot(#[trigger] needed@[j]).current == Some(*inputs@[j]),
            decreases needed@.len() - k,
        {
            let q = needed[k];
            let ghost mid = *self;
            proof {
                lemma_dependencies(q, pass);
                assert(q == pass.inputs()[k as int]);
            }
            match self.result(q, run) {
                Ok(handle) => {
                    inputs.push(share(handle));
                },
                Err(failure) => {
                    proof {
                        let after = *self;
                        let r = Err::<&Arc<T>, Failure>(failure);
                        assert(r->Err_0 == failure);
                        lemma_after_request(
                            before,
                            mid,
                            after,
                            *run,
                            q,
                            pass,
                            Err::<&Arc<T>, Failure>(failure),
                        );
                        let bad = choose|bad: Pass|
                            {
                                &&& bad == q || bad.feeds(q)
                                &&& !mid.is_current(bad)
                                &&& #[trigger] failed(mid, after, *run, bad, failure)
                                &&& after.aborted() == mid.aborted().push((bad, failure))
                            };
                        lemma_dependencies(bad, q);
                        lemma_dependencies(bad, pass);
                        lemma_failed_rebase(before, mid, after, *run, bad, failure);
                        assert(failed(before, after, *run, bad, failure));
                        assert(settled(before, after, *run, pass, r));
                    }
                    return Err(failure);
                },
            }
            proof {
                lemma_after_request(
                    before,
                    mid,
                    *self,
                    *run,
                    q,
                    pass,
                    Ok::<&Arc<T>, Failure>(&inputs@[k as int]),
                );
            }
            k += 1;
        }
        let ghost mid = *self;
        let mut start = self.take_previous(pass);
        if !self.options.incremental {
            start = None;
        }
        let ghost taken = *self;
        proof {
            assert forall|p: Pass| p.feeds(pass) implies #[trigger] mid.is_current(p) by {
                lemma_dependencies(p, pass);
                let j = choose|j: int|
                    0 <= j < pass.inputs().len() && (p == #[trigger] pass.inputs()[j] || p.feeds(
                        pass.inputs()[j],
                    ));
                assert(mid.is_current(needed@[j]));
            }
            assert forall|p: Pass| p.feeds(pass) implies #[trigger] taken.is_current(p) by {
                lemma_dependencies(p, pass);
                assert(taken.slot(p) == mid.slot(p));
            }
            assert forall|q: Pass, p: Pass|
                #![trigger taken.is_current(p), q.feeds(p)]
                taken.is_current(p) && q.feeds(p) implies taken.is_current(q) by {
                lemma_dependencies(q, p);
                assert(mid.is_current(p) && q.feeds(p));
                assert(mid.is_current(q));
            }
        }
        let outcome = run(pass, start, &*self.segments, &inputs);
        let ghost came = outcome;
        let failure = match self.conclude(pass, outcome) {
            Ok(_) => None,
            Err(failure) => Some(failure),
        };
        proof {
            let after = *self;
            assert forall|p: Pass| p != pass implies #[trigger] after.slot(p) == mid.slot(p) by {
                assert(taken.slot(p) == mid.slot(p));
            }
            lemma_others_carry(before, mid, after, *run, pass);
            assert(inputs_of(after, pass, inputs@)) by {
                assert forall|j: int| 0 <= j < inputs@.len() implies after.slot(
                    #[trigger] pass.inputs()[j],
                ).current == Some(*inputs@[j]) by {
                    lemma_dependencies(pass.inputs()[j], pass);
                    assert(mid.slot(needed@[j]).current == Some(*inputs@[j]));
                }
            }
            if came is Ok {
                assert(call_ensures(
                    *run,
                    (pass, start, &after.segments(), &inputs),
                    Ok(after.slot(pass).current->0),
                ));
                assert(computed(before, after, *run, pass));
                assert forall|p: Pass| p.feeds(pass) implies #[trigger] after.is_current(p) by {
                    lemma_dependencies(p, pass);
                    assert(mid.is_current(p));
                }
            } else {
                let f = came->Err_0;
                assert(call_ensures(
                    *run,
                    (pass, start, &after.segments(), &inputs),
                    Err::<T, Failure>(f),
                ));
                assert(failed(before, after, *run, pass, f));
                assert(failure == Some(f));
            }
        }
        match failure {
            None => Ok(self.slot_ref(pass).current().unwrap()),
            Some(failure) => Err(failure),
        }
    }

    /// Stores what a run of `pass` came to.  A table becomes the valid result
    /// of the pass, and what its next run will start from; the handle of the
    /// table is handed out.  A failure is handed on: the pass is given up,
    /// so that its slot holds nothing, and is recorded with the failure.
    pub fn conclude(&mut self, pass: Pass, outcome: Outcome<T>) -> (r: Result<&Arc<T>, Failure>)
        requires
            pass != Pass::Outline,
        ensures
            final(self).options() == old(self).options(),
            final(self).segments() == old(self).segments(),
            final(self).outline_slot() == old(self).outline_slot(),
            forall|q: Pass| q != pass ==> #[trigger] final(self).slot(q) == old(self).slot(q),
            match outcome {
                Ok(table) => {
                    &&& r matches Ok(handle) && **handle == table
                    &&& final(self).slot(pass).current == Some(table)
                    &&& final(self).slot(pass).previous == Some(table)
                    &&& final(self).aborted() == old(self).aborted()
                },
                Err(failure) => {
                    &&& r == Err::<&Arc<T>, Failure>(failure)
                    &&& gave_up(*final(self), pass)
                    &&& final(self).aborted() == old(self).aborted().push((pass, failure))
                },
            },
            old(self).wf() && (outcome is Ok ==> forall|q: Pass|
                q.feeds(pass) ==> #[trigger] old(self).is_current(q)) && (outcome is Err
                ==> !old(self).is_current(pass)) ==> final(self).wf(),
    {
        let ghost before = *self;
        match outcome {
            Ok(table) => {
                self.complete(pass, table);
                proof {
                    if before.wf() && forall|q: Pass|
                        q.feeds(pass) ==> #[trigger] before.is_current(q) {
                        assert forall|q: Pass, p: Pass|
                            #![trigger self.is_current(p), q.feeds(p)]
                            self.is_current(p) && q.feeds(p) implies self.is_current(q) by {
                            lemma_dependencies(q, p);
                            if p == pass {
                                assert(before.is_current(q));
                                assert(self.slot(q) == before.slot(q));
                            } else {
                                assert(self.slot(p) == before.slot(p));
                                assert(before.is_current(p) && q.feeds(p));
                                assert(before.is_current(q));
                            }
                        }
                    }
                }
                Ok(self.slot_ref(pass).current().unwrap())
            },
            Err(failure) => {
                self.abandon(pass);
                let ghost dropped = *self;
                self.aborted.push((pass, failure.clone()));
                proof {
                    assert forall|p: Pass| #[trigger] self.slot(p) == dropped.slot(p) by {}
                    if before.wf() && !before.is_current(pass) {
                        assert forall|q: Pass, p: Pass|
                            #![trigger self.is_current(p), q.feeds(p)]
                            self.is_current(p) && q.feeds(p) implies self.is_current(q) by {
                            assert(self.slot(p) == before.slot(p));
                            assert(before.is_current(p) && q.feeds(p));
                            assert(before.is_current(q));
                        }
                    }
                }
                Err(failure)
            },
        }
    }

    /// Calculates and returns the name to definition lookup table.
    pub fn name_result<F>(&mut self, run: &F) -> (r: Result<&Arc<T>, Failure>) where
        T: Clone,
        F: Fn(Pass, Option<T>, &SegmentSet, &Vec<Arc<T>>) -> Outcome<T>,

        requires
            old(self).wf(),
            runs_always(*run),
        ensures
            final(self).wf(),
            settled(*old(self), *final(self), *run, Pass::Nameck, r),
    {
        self.result(Pass::Nameck, run)
    }

    /// Calculates and returns the frames for this database, i.e. the actual
    /// logical system.
    pub fn scope_result<F>(&mut self, run: &F) -> (r: Result<&Arc<T>, Failure>) where
        T: Clone,
        F: Fn(Pass, Option<T>, &SegmentSet, &Vec<Arc<T>>) -> Outcome<T>,

        requires
            old(self).wf(),
            runs_always(*run),
        ensures
            final(self).wf(),
            settled(*old(self), *final(self), *run, Pass::Scopeck, r),
    {
        self.result(Pass::Scopeck, run)
    }

    /// Calculates and returns verification information for the database.
    pub fn verify_result<F>(&mut self, run: &F) -> (r: Result<&Arc<T>, Failure>) where
        T: Clone,
        F: Fn(Pass, Option<T>, &SegmentSet, &Vec<Arc<T>>) -> Outcome<T>,

        requires
            old(self).wf(),
            runs_always(*run),
        ensures
            final(self).wf(),
            settled(*old(self), *final(self), *run, Pass::Verify, r),
    {
        self.result(Pass::Verify, run)
    }

    /// Builds and returns the grammar
    pub fn grammar_result<F>(&mut self, run: &F) -> (r: Result<&Arc<T>, Failure>) where
        T: Clone,
        F: Fn(Pass, Option<T>, &SegmentSet, &Vec<Arc<T>>) -> Outcome<T>,

        requires
            old(self).wf(),
            runs_always(*run),
        ensures
            final(self).wf(),
            settled(*old(self), *final(self), *run, Pass::Grammar, r),
    {
        self.result(Pass::Grammar, run)
    }

    /// Parses the statements using the grammar
    pub fn stmt_parse_result<F>(&mut self, run: &F) -> (r: Result<&Arc<T>, Failure>) where
        T: Clone,
        F: Fn(Pass, Option<T>, &SegmentSet, &Vec<Arc<T>>) -> Outcome<T>,

        requires
            old(self).wf(),
            runs_always(*run),
        ensures
            final(self).wf(),
            settled(*old(self), *final(self), *run, Pass::StmtParse, r),
    {
        self.result(Pass::StmtParse, run)
    }

    /// Returns the root node of the outline, building the outline first
    /// where the database holds none that is valid.  The outline of a
    /// database without segments is the root alone.
    pub fn outline_result(&mut self) -> (root: &Arc<OutlineNode>)
        requires
            old(self).wf(),
        ensures
            final(self).wf(),
            final(self).options() == old(self).options(),
            final(self).segments() == old(self).segments(),
            final(self).aborted() == old(self).aborted(),
            forall|pass: Pass| #[trigger] final(self).slot(pass) == old(self).slot(pass),
            final(self).outline_slot().current == Some(**root),
            match old(self).outline_slot().current {
                Some(valid) => final(self).outline_slot() == old(self).outline_slot(),
                None => final(self).outline_slot().previous == Some(**root) && root@
                    == if old(self).segments().ids().len() == 0 {
                    OutlineTree::leaf(
                        (
                            HeadingLevel::Database,
                            StatementAddress { segment_id: SegmentId(0), index: 0 },
                        ),
                    )
                } else {
                    root_tree(old(self).segments().ids()[0]).with_entries(
                        entries_upto(
                            old(self).segments().ids(),
                            old(self).segments().contents(),
                            old(self).segments().ids().len() as int,
                        ),
                    )
                },
            },
    {
        if self.outline.current().is_none() {
            let mut outline = OutlineNode::default();
            if self.segments.segments().len() > 0 {
                build_outline(&mut outline, &self.segments);
            }
            self.outline.complete(outline);
        }
        proof {
            assert forall|pass: Pass| #[trigger] self.slot(pass) == old(self).slot(pass) by {}
            assert forall|q: Pass, p: Pass|
                #![trigger self.is_current(p), q.feeds(p)]
                self.is_current(p) && q.feeds(p) implies self.is_current(q) by {
                assert(old(self).is_current(p) && q.feeds(p));
            }
        }
        self.outline.current().unwrap()
    }

    /// A getter method which does not build the outline
    pub fn get_outline(&self) -> (root: Option<&Arc<OutlineNode>>)
        ensures
            match root {
                Some(node) => self.outline_slot().current == Some(**node),
                None => self.outline_slot().current is None,
            },
    {
        self.outline.current()
    }

    /// The passes that were given up since the sources were read last, each
    /// with the failure that stopped it.
    pub fn failures(&self) -> (list: &Vec<(Pass, Failure)>)
        ensures
            list@ == self.aborted(),
    {
        &self.aborted
    }

    /// Replaces the content of a database in memory with the parsed content of
    /// one or more sources.
    ///
    /// `start` names the source to begin with.  It and the sources it includes
    /// are taken from `text`; a name that `text` lacks stands for a missing
    /// file.  The segments of the pieces that did not change since the last
    /// call are kept; the others are parsed by `parser`, one after the other
    /// in source order.
    ///
    /// Where anything changed, all analysis passes are invalidated; they will
    /// not immediately be rerun, but will be when next requested, each from
    /// what it computed last.  Where nothing changed, every result stays
    /// valid.
    ///
    /// Fails, and leaves the database as it is, where the segment identifiers
    /// run out.
    pub fn parse<P>(&mut self, start: Vec<u8>, text: Vec<SourceText>, parser: &P) -> (r: Result<
        (),
        Exhausted,
    >) where P: Fn(&ParseJob) -> Vec<Segment>
        requires
            old(self).wf(),
            forall|job: &ParseJob| call_requires(*parser, (job,)),
        ensures
            final(self).wf(),
            final(self).options() == old(self).options(),
            exists|plans: Seq<PiecePlan>, jobs: Seq<ParseJob>, parsed: Seq<Vec<Segment>>|
                {
                    &&& #[trigger] reload(
                        old(self).segments().records(),
                        text@,
                        start@,
                        old(self).options().autosplit,
                        *parser,
                        plans,
                        jobs,
                        parsed,
                    )
                    &&& reparsed(*old(self), *final(self), plans, parsed, r)
                },
    {
        let reparse = self.plan_parse(&start, &text);
        let mut parsed: Vec<Vec<Segment>> = Vec::new();
        let mut k: usize = 0;
        while k < reparse.parse_jobs().len()
            invariant
                k <= reparse.jobs().len(),
                parsed@.len() == k,
                forall|job: &ParseJob| call_requires(*parser, (job,)),
                forall|j: int|
                    0 <= j < k ==> call_ensures(*parser, (&#[trigger] reparse.jobs()[j],), parsed@[j]),
            decreases reparse.jobs().len() - k,
        {
            let segments = parser(&reparse.parse_jobs()[k]);
            parsed.push(segments);
            k += 1;
        }
        proof {
            reparse.lemma_planned(self.segments().records());
            assert(reload(
                self.segments().records(),
                text@,
                start@,
                self.options().autosplit,
                *parser,
                reparse.plans(),
                reparse.jobs(),
                parsed@,
            ));
        }
        self.finish_parse(reparse, parsed)
    }

    /// The first half of a reload: lists the pieces that the sources `start`
    /// and `text` are read in, and decides which of them the database holds
    /// already and which are to be parsed.  The jobs of the plan can then be
    /// parsed in any order, each under its estimate, and the reload be ended
    /// by `finish_parse`.
    pub fn plan_parse(&self, start: &Vec<u8>, text: &Vec<SourceText>) -> (reparse: Reparse)
        ensures
            plan_views(reparse.plans()) == layout(text@, start@, self.options().autosplit),
            reparse.planned_for(self.segments().records()),
            forall|k: int|
                0 <= k < reparse.jobs().len() ==> job_fits(
                    self.segments().records(),
                    reparse.plans(),
                    text@,
                    reparse.jobs(),
                    k,
                ),
    {
        let plans = enumerate(start, text, self.options.autosplit);
        self.segments.plan(plans, text)
    }

    /// The second half of a reload: carries out the plan with the segments
    /// that the parser made of the pieces that were to be parsed, one list
    /// for each job, in the order of the jobs.
    ///
    /// Where anything changed, all analysis passes are invalidated.  Where
    /// nothing changed, every result stays valid.  Fails, and leaves the
    /// database as it is, where the segment identifiers run out.
    pub fn finish_parse(&mut self, reparse: Reparse, parsed: Vec<Vec<Segment>>) -> (r: Result<
        (),
        Exhausted,
    >)
        requires
            old(self).wf(),
            reparse.planned_for(old(self).segments().records()),
            parsed@.len() == reparse.jobs().len(),
        ensures
            final(self).wf(),
            final(self).options() == old(self).options(),
            reparsed(*old(self), *final(self), reparse.plans(), parsed@, r),
    {
        let ghost before = *self;
        proof {
            reparse.lemma_planned(self.segments().records());
            assert forall|pass: Pass| #[trigger] self.slot(pass) == before.slot(pass) by {}
        }
        if reparse.changes_nothing() {
            return Ok(());
        }
        if !self.segments.fits(&reparse, &parsed) {
            return Err(Exhausted);
        }
        let mut handle = Arc::new(SegmentSet::new());
        core::mem::swap(&mut handle, &mut self.segments);
        let mut segments = match try_unwrap(handle) {
            Ok(own) => own,
            Err(shared) => shared.duplicate(),
        };
        segments.splice(reparse, parsed);
        self.segments = Arc::new(segments);
        self.names.invalidate();
        self.scopes.invalidate();
        self.verify.invalidate();
        self.grammar.invalidate();
        self.stmt_parse.invalidate();
        self.outline.invalidate();
        self.aborted = Vec::new();
        proof {
            assert forall|pass: Pass|
                (#[trigger] self.slot(pass)).current is None && self.slot(pass).previous
                    == before.slot(pass).previous by {}
        }
        Ok(())
    }

    /// Get a statement by label.  The label is looked up by `lookup` in the
    /// table of names, which is computed first where it is not valid.
    pub fn statement<F, L>(&mut self, name: &Vec<u8>, run: &F, lookup: &L) -> (r: Result<
        Option<StatementRef<'_>>,
        Failure,
    >) where
        T: Clone,
        F: Fn(Pass, Option<T>, &SegmentSet, &Vec<Arc<T>>) -> Outcome<T>,
        L: Fn(&T, &Vec<u8>) -> Option<StatementAddress>,

        requires
            old(self).wf(),
            runs_always(*run),
            forall|table: &T, label: &Vec<u8>| call_requires(*lookup, (table, label)),
        ensures
            final(self).wf(),
            match r {
                Ok(found) => exists|names: &Arc<T>, address: Option<StatementAddress>|
                    looked_up(
                        *old(self),
                        *final(self),
                        *run,
                        *lookup,
                        *name,
                        found,
                        names,
                        address,
                    ),
                Err(failure) => settled(
                    *old(self),
                    *final(self),
                    *run,
                    Pass::Nameck,
                    Err::<&Arc<T>, Failure>(failure),
                ),
            },
    {
        let ghost before = *self;
        let ghost handle: &Arc<T>;
        let address = match self.result(Pass::Nameck, run) {
            Ok(names) => {
                proof {
                    handle = names;
                }
                lookup(&**names, name)
            },
            Err(failure) => {
                return Err(failure);
            },
        };
        let found = match address {
            Some(at) => self.segments.statement(at),
            None => None,
        };
        proof {
            assert(looked_up(before, *self, *run, *lookup, *name, found, handle, address));
        }
        Ok(found)
    }

    /// Adds to `found` what the class `class`, whose pass is `pass`, adds to
    /// the findings.
    fn gather<F, D>(
        &mut self,
        class: DiagnosticClass,
        pass: Pass,
        types: &Vec<DiagnosticClass>,
        run: &F,
        diagnostics_of: &D,
        found: &mut Vec<Finding>,
    ) where
        T: Clone,
        F: Fn(Pass, Option<T>, &SegmentSet, &Vec<Arc<T>>) -> Outcome<T>,
        D: Fn(DiagnosticClass, &T) -> Vec<(StatementAddress, Diagnostic)>,

        requires
            old(self).wf(),
            runs_always(*run),
            forall|c: DiagnosticClass, table: &T| call_requires(*diagnostics_of, (c, table)),
            class_pass(class) == Some(pass),
        ensures
            final(self).wf(),
            exists|part: Seq<Finding>|
                #[trigger] gathered_class(
                    *old(self),
                    *final(self),
                    *run,
                    *diagnostics_of,
                    types@,
                    class,
                    pass,
                    part,
                ) && final(found)@ == old(found)@ + part,
    {
        let ghost before = *self;
        let ghost had = found@;
        if !has_class(types, class) {
            proof {
                let none = Seq::<Finding>::empty();
                assert(gathered_class(
                    before,
                    *self,
                    *run,
                    *diagnostics_of,
                    types@,
                    class,
                    pass,
                    none,
                ));
                assert(found@ =~= had + none);
            }
            return ;
        }
        match self.result(pass, run) {
            Ok(table) => {
                let ghost handle = table;
                let list = diagnostics_of(class, &**table);
                let ghost part = tagged(class, list@);
                tag(class, list, found);
                proof {
                    let r = Ok::<&Arc<T>, Failure>(handle);
                    assert(settled(before, *self, *run, pass, r));
                    assert(call_ensures(*diagnostics_of, (class, &**handle), list));
                    assert(gathered_class(
                        before,
                        *self,
                        *run,
                        *diagnostics_of,
                        types@,
                        class,
                        pass,
                        part,
                    ));
                }
            },
            Err(failure) => {
                let ghost part = seq![internal_finding(class, failure)];
                found.push(
                    Finding {
                        class,
                        address: StatementAddress::new(SegmentId(0), 0),
                        diagnostic: Diagnostic { kind: ErrorKind::Internal, message: failure.message },
                    },
                );
                proof {
                    let r = Err::<&Arc<T>, Failure>(failure);
                    assert(r->Err_0 == failure);
                    assert(settled(before, *self, *run, pass, r));
                    assert(found@ =~= had + part);
                    assert(gathered_class(
                        before,
                        *self,
                        *run,
                        *diagnostics_of,
                        types@,
                        class,
                        pass,
                        part,
                    ));
                }
            },
        }
    }

    /// Runs one or more passes and collects all errors they generate.
    ///
    /// Passes are identified by the `types` argument and are not inclusive; if
    /// you ask for Verify, you will not get Parse unless you specifically ask
    /// for that as well.  The errors are read from the results of the passes
    /// by `diagnostics_of`, and are handed out in source order.
    ///
    /// A pass that the runner fails on is given up and leaves one error of
    /// the kind `Internal` in place of its own; the other passes are run all
    /// the same.  Only the passes of the classes in `types`, and the passes
    /// that feed them, are run.
    pub fn diag_notations<F, D>(
        &mut self,
        types: Vec<DiagnosticClass>,
        run: &F,
        diagnostics_of: &D,
    ) -> (list: Vec<Notation>) where
        T: Clone,
        F: Fn(Pass, Option<T>, &SegmentSet, &Vec<Arc<T>>) -> Outcome<T>,
        D: Fn(DiagnosticClass, &T) -> Vec<(StatementAddress, Diagnostic)>,

        requires
            old(self).wf(),
            runs_always(*run),
            forall|c: DiagnosticClass, table: &T| call_requires(*diagnostics_of, (c, table)),
        ensures
            final(self).wf(),
            only_asked(*old(self), *final(self), types@),
            exists|stages: Seq<Database<T>>, parts: Seq<Seq<Finding>>|
                #[trigger] gathered(
                    *old(self),
                    *final(self),
                    *run,
                    *diagnostics_of,
                    types@,
                    stages,
                    parts,
                ) && noted(
                    final(self).segments(),
                    arranged(final(self).segments().ids(), all_findings(parts)),
                    list@,
                ),
    {
        let ghost s0 = *self;
        let mut found: Vec<Finding> = Vec::new();
        if has_class(&types, DiagnosticClass::Parse) {
            tag(DiagnosticClass::Parse, self.segments.parse_diagnostics(), &mut found);
        }
        let ghost p0 = found@;
        proof {
            assert(p0 =~= Seq::<Finding>::empty() + p0);
            assert(parse_part(s0.segments(), types@, p0)) by {
                if !types@.contains(DiagnosticClass::Parse) {
                    assert(p0 =~= Seq::<Finding>::empty());
                } else {
                    assert(p0 =~= tagged(
                        DiagnosticClass::Parse,
                        diagnostics_upto(
                            s0.segments().ids(),
                            s0.segments().contents(),
                            s0.segments().ids().len() as int,
                        ),
                    ));
                }
            }
        }
        self.gather(DiagnosticClass::Scope, Pass::Scopeck, &types, run, diagnostics_of, &mut found);
        let ghost s1 = *self;
        let ghost p1 = choose|part: Seq<Finding>|
            #[trigger] gathered_class(
                s0,
                s1,
                *run,
                *diagnostics_of,
                types@,
                DiagnosticClass::Scope,
                Pass::Scopeck,
                part,
            ) && found@ == p0 + part;
        self.gather(DiagnosticClass::Verify, Pass::Verify, &types, run, diagnostics_of, &mut found);
        let ghost s2 = *self;
        let ghost p2 = choose|part: Seq<Finding>|
            #[trigger] gathered_class(
                s1,
                s2,
                *run,
                *diagnostics_of,
                types@,
                DiagnosticClass::Verify,
                Pass::Verify,
                part,
            ) && found@ == p0 + p1 + part;
        self.gather(
            DiagnosticClass::Grammar,
            Pass::Grammar,
            &types,
            run,
            diagnostics_of,
            &mut found,
        );
        let ghost s3 = *self;
        let ghost p3 = choose|part: Seq<Finding>|
            #[trigger] gathered_class(
                s2,
                s3,
                *run,
                *diagnostics_of,
                types@,
                DiagnosticClass::Grammar,
                Pass::Grammar,
                part,
            ) && found@ == p0 + p1 + p2 + part;
        self.gather(
            DiagnosticClass::StmtParse,
            Pass::StmtParse,
            &types,
            run,
            diagnostics_of,
            &mut found,
        );
        let ghost s4 = *self;
        let ghost p4 = choose|part: Seq<Finding>|
            #[trigger] gathered_class(
                s3,
                s4,
                *run,
                *diagnostics_of,
                types@,
                DiagnosticClass::StmtParse,
                Pass::StmtParse,
                part,
            ) && found@ == p0 + p1 + p2 + p3 + part;
        let ghost stages = seq![s1, s2, s3];
        let ghost parts = seq![p0, p1, p2, p3, p4];
        let ghost all = found@;
        proof {
            assert(gathered(s0, s4, *run, *diagnostics_of, types@, stages, parts));
            lemma_only_asked(s0, s4, *run, *diagnostics_of, types@, stages, parts);
            assert(all == all_findings(parts));
        }
        let sorted = arrange(&self.segments, found);
        let mut list: Vec<Notation> = Vec::new();
        for finding in it: sorted
            invariant
                it.seq() == arranged(self.segments().ids(), all),
                list@.len() == it.index(),
                forall|i: int|
                    0 <= i < list@.len() ==> {
                        &&& (#[trigger] list@[i]).class == it.seq()[i].class
                        &&& list@[i].address == it.seq()[i].address
                        &&& list@[i].diagnostic == it.seq()[i].diagnostic
                        &&& match list@[i].origin {
                            Some(name) => origin_of(
                                self.segments().records(),
                                it.seq()[i].address.segment_id,
                            ) == Some(name@),
                            None => origin_of(
                                self.segments().records(),
                                it.seq()[i].address.segment_id,
                            ) is None,
                        }
                    },
        {
            let origin = match self.segments.source_info(finding.address.segment_id) {
                Some(piece) => {
                    let name = copy_bytes(&piece.origin, 0, piece.origin.len());
                    assert(name@ =~= piece.origin@);
                    Some(name)
                },
                None => None,
            };
            list.push(
                Notation {
                    class: finding.class,
                    address: finding.address,
                    diagnostic: finding.diagnostic,
                    origin,
                },
            );
        }
        list
    }
}

impl<T> Clone for Database<T> {
    /// A database that shares the segments and every result with this one.
    fn clone(&self) -> (copy: Self)
        ensures
            copy.options() == self.options(),
            copy.segments() == self.segments(),
            forall|pass: Pass| #[trigger] copy.slot(pass) == self.slot(pass),
            copy.outline_slot() == self.outline_slot(),
            copy.aborted() == self.aborted(),
            self.wf() ==> copy.wf(),
    {
        let mut aborted: Vec<(Pass, Failure)> = Vec::new();
        let mut i: usize = 0;
        while i < self.aborted.len()
            invariant
                i <= self.aborted@.len(),
                aborted@ == self.aborted@.subrange(0, i as int),
            decreases self.aborted@.len() - i,
        {
            aborted.push((self.aborted[i].0, self.aborted[i].1.clone()));
            i += 1;
            assert(aborted@ =~= self.aborted@.subrange(0, i as int));
        }
        assert(self.aborted@.subrange(0, self.aborted@.len() as int) =~= self.aborted@);
        let copy = Database {
            options: share(&self.options),
            segments: share(&self.segments),
            names: self.names.duplicate(),
            scopes: self.scopes.duplicate(),
            verify: self.verify.duplicate(),
            grammar: self.grammar.duplicate(),
            stmt_parse: self.stmt_parse.duplicate(),
            outline: self.outline.duplicate(),
            aborted,
        };
        proof {
            assert forall|pass: Pass| #[trigger] copy.slot(pass) == self.slot(pass) by {}
            if self.wf() {
                assert forall|q: Pass, p: Pass|
                    #![trigger copy.is_current(p), q.feeds(p)]
                    copy.is_current(p) && q.feeds(p) implies copy.is_current(q) by {
                    assert(self.is_current(p) && q.feeds(p));
                }
            }
        }
        copy
    }
}

} // verus!
