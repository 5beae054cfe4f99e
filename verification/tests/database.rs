use metamath_pipeline::database::{Database, DbOptions};
use metamath_pipeline::executor::JobQueue;
use metamath_pipeline::diag::Notation;
use metamath_pipeline::outline::OutlineNode;
use metamath_pipeline::pass::Pass;
use metamath_pipeline::promise::{Failure, Outcome};
use metamath_pipeline::segment::{
    Diagnostic, DiagnosticClass, ErrorKind, HeadingDef, HeadingLevel, Segment, StatementAddress,
};
use metamath_pipeline::segment_order::SegmentId;
use metamath_pipeline::segment_set::{ParseJob, SegmentSet};
use metamath_pipeline::source::SourceText;
use std::cell::RefCell;
use std::sync::Arc;

/// What a pass of these tests computes: the labels it found, the errors it
/// met, and how it came about.
#[derive(Clone, Debug, PartialEq)]
struct Table {
    pass: Pass,
    labels: Vec<(Vec<u8>, StatementAddress)>,
    diagnostics: Vec<(StatementAddress, ErrorKind)>,
    started_from: Option<usize>,
    inputs: Vec<Pass>,
    runs: usize,
}

fn options(jobs: usize, incremental: bool) -> DbOptions {
    DbOptions { jobs, incremental, ..DbOptions::default() }
}

fn buffer(name: &str, text: &str) -> SourceText {
    SourceText { name: name.as_bytes().to_vec(), mtime: None, bytes: text.as_bytes().to_vec() }
}

/// One segment for a piece.  A word that ends with `:` is a label, a line
/// that starts with `#` is a heading, a `!` is a syntax error.
fn parser(job: &ParseJob) -> Vec<Segment> {
    let mut outline = Vec::new();
    let mut diagnostics = Vec::new();
    for (n, line) in job.buffer.split(|b| *b == b'\n').enumerate() {
        if line.first() == Some(&b'#') {
            outline.push(HeadingDef { name: line.to_vec(), index: n as i32, level: HeadingLevel::MajorPart });
        }
        if line.contains(&b'!') {
            diagnostics.push((n as i32, Diagnostic { kind: ErrorKind::Parse, message: "bang".to_string() }));
        }
    }
    vec![Segment { buffer: job.buffer.clone(), outline, diagnostics }]
}

fn labels(segments: &SegmentSet) -> Vec<(Vec<u8>, StatementAddress)> {
    let mut found = Vec::new();
    for segment in segments.segments() {
        let mut index = 0;
        for word in segment.segment.buffer.split(|b| b.is_ascii_whitespace()) {
            if word.last() == Some(&b':') {
                found.push((word[..word.len() - 1].to_vec(), StatementAddress::new(segment.id, index)));
                index += 1;
            }
        }
    }
    found
}

struct Runner {
    log: RefCell<Vec<Pass>>,
    fail: RefCell<Option<Pass>>,
}

impl Runner {
    fn new() -> Runner {
        Runner { log: RefCell::new(Vec::new()), fail: RefCell::new(None) }
    }

    fn run(
        &self,
        pass: Pass,
        start: Option<Table>,
        segments: &SegmentSet,
        inputs: &Vec<Arc<Table>>,
    ) -> Outcome<Table> {
        self.log.borrow_mut().push(pass);
        if *self.fail.borrow() == Some(pass) {
            return Err(Failure { message: format!("{:?} gave up", pass) });
        }
        let found = labels(segments);
        let diagnostics = found
            .iter()
            .filter(|l| l.0.starts_with(b"bad"))
            .map(|l| {
                (
                    l.1,
                    match pass {
                        Pass::Scopeck => ErrorKind::Scope,
                        Pass::Verify => ErrorKind::Verify,
                        _ => ErrorKind::Grammar,
                    },
                )
            })
            .collect();
        Ok(Table {
            pass,
            labels: found,
            diagnostics,
            started_from: start.as_ref().map(|t| t.runs),
            inputs: inputs.iter().map(|t| t.pass).collect(),
            runs: start.map(|t| t.runs + 1).unwrap_or(1),
        })
    }

    fn taken(&self) -> Vec<Pass> {
        self.log.borrow_mut().drain(..).collect()
    }
}

fn diagnostics_of(class: DiagnosticClass, table: &Table) -> Vec<(StatementAddress, Diagnostic)> {
    table
        .diagnostics
        .iter()
        .map(|d| (d.0, Diagnostic { kind: d.1, message: format!("{:?}", class) }))
        .collect()
}

fn lookup(table: &Table, name: &Vec<u8>) -> Option<StatementAddress> {
    table.labels.iter().find(|l| &l.0 == name).map(|l| l.1)
}

#[test]
fn default_options() {
    let options = DbOptions::default();
    assert!(!options.autosplit && !options.timing && !options.trace_recalc && !options.outline);
    assert!(!options.incremental && !options.parse_statements);
    assert_eq!(options.jobs, 0);
}

#[test]
fn empty_database_has_no_names() {
    let runner = Runner::new();
    let run = |p: Pass, s: Option<Table>, g: &SegmentSet, i: &Vec<Arc<Table>>| runner.run(p, s, g, i);
    let mut db: Database<Table> = Database::new(options(2, true));
    assert!(db.parse_result().segments().is_empty());
    let names = db.name_result(&run).unwrap();
    assert!(names.labels.is_empty());
    assert!(names.diagnostics.is_empty());
    assert!(db.get_outline().is_none());
    assert!(db.failures().is_empty());
    let notes = db.diag_notations(vec![DiagnosticClass::Parse], &run, &diagnostics_of);
    assert!(notes.is_empty());
}

#[test]
fn an_inclusion_cycle_gives_one_diagnostic() {
    let runner = Runner::new();
    let run = |p: Pass, s: Option<Table>, g: &SegmentSet, i: &Vec<Arc<Table>>| runner.run(p, s, g, i);
    let mut db: Database<Table> = Database::new(options(1, true));
    let text = vec![buffer("a", "$[ b $]"), buffer("b", "$[ a $]")];
    assert_eq!(db.parse(b"a".to_vec(), text, &parser), Ok(()));
    let notes: Vec<Notation> =
        db.diag_notations(vec![DiagnosticClass::Parse], &run, &diagnostics_of);
    assert_eq!(notes.len(), 1);
    assert_eq!(notes[0].class, DiagnosticClass::Parse);
    assert_eq!(notes[0].diagnostic.kind, ErrorKind::Include);
    assert_eq!(notes[0].origin, Some(b"a".to_vec()));
    assert!(runner.taken().is_empty());
}

#[test]
fn a_pass_runs_after_the_passes_it_reads_and_no_other() {
    let expected = [
        (Pass::Nameck, vec![Pass::Nameck]),
        (Pass::Scopeck, vec![Pass::Nameck, Pass::Scopeck]),
        (Pass::Verify, vec![Pass::Nameck, Pass::Scopeck, Pass::Verify]),
        (Pass::Grammar, vec![Pass::Nameck, Pass::Scopeck, Pass::Grammar]),
        (Pass::StmtParse, vec![Pass::Nameck, Pass::Scopeck, Pass::Grammar, Pass::StmtParse]),
    ];
    for (target, order) in expected.iter() {
        let runner = Runner::new();
        let run = |p: Pass, s: Option<Table>, g: &SegmentSet, i: &Vec<Arc<Table>>| runner.run(p, s, g, i);
        let mut db: Database<Table> = Database::new(options(1, true));
        assert_eq!(db.parse(b"a".to_vec(), vec![buffer("a", "x: y:")], &parser), Ok(()));
        let table = db.result(*target, &run).unwrap().clone();
        assert_eq!(table.pass, *target);
        assert_eq!(&runner.taken(), order);
        assert_eq!(Pass::prerequisites(*target), table.inputs);
        assert_eq!(target.index() < 6, true);
    }
}

#[test]
fn named_accessors_ask_for_their_pass() {
    let runner = Runner::new();
    let run = |p: Pass, s: Option<Table>, g: &SegmentSet, i: &Vec<Arc<Table>>| runner.run(p, s, g, i);
    let mut db: Database<Table> = Database::new(options(1, true));
    assert_eq!(db.parse(b"a".to_vec(), vec![buffer("a", "x:")], &parser), Ok(()));
    assert_eq!(db.name_result(&run).unwrap().pass, Pass::Nameck);
    assert_eq!(db.scope_result(&run).unwrap().pass, Pass::Scopeck);
    assert_eq!(db.verify_result(&run).unwrap().pass, Pass::Verify);
    assert_eq!(db.grammar_result(&run).unwrap().pass, Pass::Grammar);
    assert_eq!(db.stmt_parse_result(&run).unwrap().pass, Pass::StmtParse);
    assert_eq!(
        runner.taken(),
        vec![Pass::Nameck, Pass::Scopeck, Pass::Verify, Pass::Grammar, Pass::StmtParse]
    );
}

#[test]
fn a_valid_result_is_handed_out_again() {
    let runner = Runner::new();
    let run = |p: Pass, s: Option<Table>, g: &SegmentSet, i: &Vec<Arc<Table>>| runner.run(p, s, g, i);
    let mut db: Database<Table> = Database::new(options(1, true));
    assert_eq!(db.parse(b"a".to_vec(), vec![buffer("a", "x:")], &parser), Ok(()));
    let first = db.verify_result(&run).unwrap().clone();
    assert_eq!(runner.taken().len(), 3);
    let second = db.verify_result(&run).unwrap().clone();
    assert!(Arc::ptr_eq(&first, &second));
    let names = db.name_result(&run).unwrap().clone();
    let names_again = db.name_result(&run).unwrap().clone();
    assert!(Arc::ptr_eq(&names, &names_again));
    assert!(runner.taken().is_empty());
}

#[test]
fn a_reload_invalidates_and_the_next_run_starts_from_the_last() {
    let runner = Runner::new();
    let run = |p: Pass, s: Option<Table>, g: &SegmentSet, i: &Vec<Arc<Table>>| runner.run(p, s, g, i);
    let mut db: Database<Table> = Database::new(options(1, true));
    assert_eq!(db.parse(b"a".to_vec(), vec![buffer("a", "x:")], &parser), Ok(()));
    let first = db.scope_result(&run).unwrap().clone();
    assert_eq!((first.started_from, first.runs), (None, 1));
    assert_eq!(db.parse(b"a".to_vec(), vec![buffer("a", "x: y:")], &parser), Ok(()));
    assert!(runner.taken().len() == 2);
    let second = db.scope_result(&run).unwrap().clone();
    assert_eq!(runner.taken(), vec![Pass::Nameck, Pass::Scopeck]);
    assert_eq!((second.started_from, second.runs), (Some(1), 2));
    assert_eq!(second.labels.len(), 2);
    assert!(!Arc::ptr_eq(&first, &second));
}

#[test]
fn a_reload_of_the_same_sources_keeps_every_result() {
    let runner = Runner::new();
    let run = |p: Pass, s: Option<Table>, g: &SegmentSet, i: &Vec<Arc<Table>>| runner.run(p, s, g, i);
    let calls: RefCell<usize> = RefCell::new(0);
    let counting = |job: &ParseJob| {
        *calls.borrow_mut() += 1;
        parser(job)
    };
    let mut db: Database<Table> = Database::new(options(1, true));
    let text = || vec![buffer("a", "# h\nx: $[ b $]"), buffer("b", "y:")];
    assert_eq!(db.parse(b"a".to_vec(), text(), &counting), Ok(()));
    assert_eq!(*calls.borrow(), 2);
    let verified = db.verify_result(&run).unwrap().clone();
    let grammar = db.grammar_result(&run).unwrap().clone();
    let outline = db.outline_result().clone();
    let segments = db.parse_result().clone();
    runner.taken();
    assert_eq!(db.parse(b"a".to_vec(), text(), &counting), Ok(()));
    assert_eq!(*calls.borrow(), 2);
    assert!(Arc::ptr_eq(db.verify_result(&run).unwrap(), &verified));
    assert!(Arc::ptr_eq(db.grammar_result(&run).unwrap(), &grammar));
    assert!(Arc::ptr_eq(db.get_outline().unwrap(), &outline));
    assert_eq!(
        db.parse_result().segments().iter().map(|s| s.id).collect::<Vec<SegmentId>>(),
        segments.segments().iter().map(|s| s.id).collect::<Vec<SegmentId>>()
    );
    assert!(runner.taken().is_empty());
}

#[test]
fn without_incremental_every_run_starts_from_nothing() {
    let runner = Runner::new();
    let run = |p: Pass, s: Option<Table>, g: &SegmentSet, i: &Vec<Arc<Table>>| runner.run(p, s, g, i);
    let mut db: Database<Table> = Database::new(options(1, false));
    assert_eq!(db.parse(b"a".to_vec(), vec![buffer("a", "x:")], &parser), Ok(()));
    assert_eq!(db.name_result(&run).unwrap().runs, 1);
    assert_eq!(db.parse(b"a".to_vec(), vec![buffer("a", "x: y:")], &parser), Ok(()));
    let again = db.name_result(&run).unwrap();
    assert_eq!((again.started_from, again.runs), (None, 1));
    assert_eq!(again.labels.len(), 2);
}

#[test]
fn a_clone_is_not_touched_by_what_happens_to_the_other() {
    let runner = Runner::new();
    let run = |p: Pass, s: Option<Table>, g: &SegmentSet, i: &Vec<Arc<Table>>| runner.run(p, s, g, i);
    let mut db: Database<Table> = Database::new(options(1, true));
    assert_eq!(db.parse(b"a".to_vec(), vec![buffer("a", "x: good:")], &parser), Ok(()));
    let shared = db.verify_result(&run).unwrap().clone();
    let segments = db.parse_result().clone();
    let mut copy = db.clone();
    assert!(Arc::ptr_eq(copy.verify_result(&run).unwrap(), &shared));
    assert!(Arc::ptr_eq(copy.parse_result(), &segments));
    runner.taken();

    assert_eq!(copy.parse(b"a".to_vec(), vec![buffer("a", "x: bad:")], &parser), Ok(()));
    let changed = copy.verify_result(&run).unwrap().clone();
    assert_eq!(runner.taken(), vec![Pass::Nameck, Pass::Scopeck, Pass::Verify]);
    assert_eq!(changed.diagnostics.len(), 1);
    assert_eq!(changed.started_from, Some(1));

    let still = db.verify_result(&run).unwrap().clone();
    assert!(Arc::ptr_eq(&still, &shared));
    assert!(still.diagnostics.is_empty());
    assert!(Arc::ptr_eq(db.parse_result(), &segments));
    assert_eq!(db.parse_result().segments()[0].segment.buffer, b"x: good:".to_vec());
    assert_eq!(copy.parse_result().segments()[0].segment.buffer, b"x: bad:".to_vec());
    assert!(runner.taken().is_empty());

    assert_eq!(db.parse(b"a".to_vec(), vec![buffer("a", "z:")], &parser), Ok(()));
    assert_eq!(db.name_result(&run).unwrap().labels.len(), 1);
    assert_eq!(copy.name_result(&run).unwrap().labels.len(), 2);
}

#[test]
fn a_failing_pass_is_given_up_and_tried_again() {
    let runner = Runner::new();
    let run = |p: Pass, s: Option<Table>, g: &SegmentSet, i: &Vec<Arc<Table>>| runner.run(p, s, g, i);
    let mut db: Database<Table> = Database::new(options(1, true));
    assert_eq!(db.parse(b"a".to_vec(), vec![buffer("a", "x:")], &parser), Ok(()));
    *runner.fail.borrow_mut() = Some(Pass::Scopeck);
    let failure = db.verify_result(&run).unwrap_err();
    assert_eq!(failure.message, "Scopeck gave up");
    assert_eq!(runner.taken(), vec![Pass::Nameck, Pass::Scopeck]);
    assert_eq!(db.failures().len(), 1);
    assert_eq!(db.failures()[0].0, Pass::Scopeck);
    assert_eq!(db.failures()[0].1, failure);
    assert!(db.name_result(&run).is_ok());
    assert!(runner.taken().is_empty());
    *runner.fail.borrow_mut() = None;
    let verified = db.verify_result(&run).unwrap().clone();
    assert_eq!(runner.taken(), vec![Pass::Scopeck, Pass::Verify]);
    assert_eq!(verified.inputs, vec![Pass::Nameck, Pass::Scopeck]);
    assert_eq!(db.parse(b"a".to_vec(), vec![buffer("a", "x:")], &parser), Ok(()));
    assert!(db.name_result(&run).is_ok());
    assert_eq!(db.parse(b"a".to_vec(), vec![buffer("a", "y:")], &parser), Ok(()));
    assert!(db.failures().is_empty());
}

#[test]
fn outline_is_built_when_asked_for() {
    let mut db: Database<Table> = Database::new(options(1, true));
    let text = vec![buffer("a", "# one\nx:\n# two\n$[ b $]"), buffer("b", "y:\n# three")];
    assert_eq!(db.parse(b"a".to_vec(), text, &parser), Ok(()));
    assert!(db.get_outline().is_none());
    let root: Arc<OutlineNode> = db.outline_result().clone();
    assert_eq!(root.level, HeadingLevel::Database);
    assert_eq!(root.children.len(), 3);
    let ids: Vec<SegmentId> = db.parse_result().segments().iter().map(|s| s.id).collect();
    assert_eq!(root.stmt_address, StatementAddress::new(ids[0], 0));
    assert_eq!(root.children[1].stmt_address, StatementAddress::new(ids[0], 2));
    assert_eq!(root.children[2].stmt_address, StatementAddress::new(ids[1], 1));
    assert!(Arc::ptr_eq(db.get_outline().unwrap(), &root));
    assert!(Arc::ptr_eq(db.outline_result(), &root));
    assert_eq!(db.parse(b"a".to_vec(), vec![buffer("a", "# only")], &parser), Ok(()));
    assert!(db.get_outline().is_none());
    assert_eq!(db.outline_result().children.len(), 1);
}

#[test]
fn statement_by_label() {
    let runner = Runner::new();
    let run = |p: Pass, s: Option<Table>, g: &SegmentSet, i: &Vec<Arc<Table>>| runner.run(p, s, g, i);
    let mut db: Database<Table> = Database::new(options(1, true));
    let text = vec![buffer("a", "x: $[ b $]"), buffer("b", "y: z:")];
    assert_eq!(db.parse(b"a".to_vec(), text, &parser), Ok(()));
    let ids: Vec<SegmentId> = db.parse_result().segments().iter().map(|s| s.id).collect();
    let found = db.statement(&b"z".to_vec(), &run, &lookup).unwrap().unwrap();
    assert_eq!(found.segment.id, ids[1]);
    assert_eq!(found.index, 1);
    assert_eq!(found.segment.segment.buffer, b"y: z:".to_vec());
    assert!(db.statement(&b"nope".to_vec(), &run, &lookup).unwrap().is_none());
    assert_eq!(runner.taken(), vec![Pass::Nameck]);
}

#[test]
fn diagnostics_come_in_source_order() {
    let runner = Runner::new();
    let run = |p: Pass, s: Option<Table>, g: &SegmentSet, i: &Vec<Arc<Table>>| runner.run(p, s, g, i);
    let mut db: Database<Table> = Database::new(options(1, true));
    let text = vec![buffer("a", "bad1: $[ b $] ok: bad3: oops!"), buffer("b", "bad2: $[ c $]")];
    assert_eq!(db.parse(b"a".to_vec(), text, &parser), Ok(()));
    let ids: Vec<SegmentId> = db.parse_result().segments().iter().map(|s| s.id).collect();
    assert_eq!(ids.len(), 4);
    let notes = db.diag_notations(
        vec![DiagnosticClass::Verify, DiagnosticClass::Parse, DiagnosticClass::Scope],
        &run,
        &diagnostics_of,
    );
    let got: Vec<(DiagnosticClass, StatementAddress, ErrorKind, Option<Vec<u8>>)> = notes
        .iter()
        .map(|n| (n.class, n.address, n.diagnostic.kind, n.origin.clone()))
        .collect();
    let a = Some(b"a".to_vec());
    let b = Some(b"b".to_vec());
    let c = Some(b"c".to_vec());
    assert_eq!(
        got,
        vec![
            (DiagnosticClass::Scope, StatementAddress::new(ids[0], 0), ErrorKind::Scope, a.clone()),
            (DiagnosticClass::Verify, StatementAddress::new(ids[0], 0), ErrorKind::Verify, a.clone()),
            (DiagnosticClass::Scope, StatementAddress::new(ids[1], 0), ErrorKind::Scope, b.clone()),
            (DiagnosticClass::Verify, StatementAddress::new(ids[1], 0), ErrorKind::Verify, b.clone()),
            (DiagnosticClass::Parse, StatementAddress::new(ids[2], 0), ErrorKind::Io, c.clone()),
            (DiagnosticClass::Parse, StatementAddress::new(ids[3], 0), ErrorKind::Parse, a.clone()),
            (DiagnosticClass::Scope, StatementAddress::new(ids[3], 1), ErrorKind::Scope, a.clone()),
            (DiagnosticClass::Verify, StatementAddress::new(ids[3], 1), ErrorKind::Verify, a.clone()),
        ]
    );
    assert_eq!(runner.taken(), vec![Pass::Nameck, Pass::Scopeck, Pass::Verify]);
    let only = db.diag_notations(vec![DiagnosticClass::Grammar], &run, &diagnostics_of);
    assert_eq!(only.len(), 3);
    assert!(only.iter().all(|n| n.class == DiagnosticClass::Grammar));
    assert_eq!(runner.taken(), vec![Pass::Grammar]);
}

#[test]
fn no_class_gives_no_diagnostic_and_runs_no_pass() {
    let runner = Runner::new();
    let run = |p: Pass, s: Option<Table>, g: &SegmentSet, i: &Vec<Arc<Table>>| runner.run(p, s, g, i);
    let mut db: Database<Table> = Database::new(options(1, true));
    assert_eq!(db.parse(b"a".to_vec(), vec![buffer("a", "bad: oops!")], &parser), Ok(()));
    assert!(db.diag_notations(Vec::new(), &run, &diagnostics_of).is_empty());
    assert!(runner.taken().is_empty());
    let parse_only = db.diag_notations(
        vec![DiagnosticClass::Parse, DiagnosticClass::Parse],
        &run,
        &diagnostics_of,
    );
    assert_eq!(parse_only.len(), 1);
    assert_eq!(parse_only[0].diagnostic.kind, ErrorKind::Parse);
    assert!(runner.taken().is_empty());
}

#[test]
fn a_pass_that_is_given_up_leaves_an_internal_diagnostic() {
    let runner = Runner::new();
    let run = |p: Pass, s: Option<Table>, g: &SegmentSet, i: &Vec<Arc<Table>>| runner.run(p, s, g, i);
    let mut db: Database<Table> = Database::new(options(1, true));
    assert_eq!(db.parse(b"a".to_vec(), vec![buffer("a", "bad: oops!")], &parser), Ok(()));
    let ids: Vec<SegmentId> = db.parse_result().segments().iter().map(|s| s.id).collect();
    *runner.fail.borrow_mut() = Some(Pass::Verify);
    let notes = db.diag_notations(
        vec![
            DiagnosticClass::Parse,
            DiagnosticClass::Scope,
            DiagnosticClass::Verify,
            DiagnosticClass::Grammar,
        ],
        &run,
        &diagnostics_of,
    );
    let got: Vec<(DiagnosticClass, StatementAddress, ErrorKind, Option<Vec<u8>>)> = notes
        .iter()
        .map(|n| (n.class, n.address, n.diagnostic.kind, n.origin.clone()))
        .collect();
    let a = Some(b"a".to_vec());
    assert_eq!(
        got,
        vec![
            (DiagnosticClass::Parse, StatementAddress::new(ids[0], 0), ErrorKind::Parse, a.clone()),
            (DiagnosticClass::Scope, StatementAddress::new(ids[0], 0), ErrorKind::Scope, a.clone()),
            (DiagnosticClass::Grammar, StatementAddress::new(ids[0], 0), ErrorKind::Grammar, a.clone()),
            (DiagnosticClass::Verify, StatementAddress::new(SegmentId(0), 0), ErrorKind::Internal, None),
        ]
    );
    assert_eq!(notes[3].diagnostic.message, "Verify gave up");
    assert_eq!(runner.taken(), vec![Pass::Nameck, Pass::Scopeck, Pass::Verify, Pass::Grammar]);
    assert_eq!(db.failures().len(), 1);
    assert_eq!(db.failures()[0].0, Pass::Verify);
    // The database can still be asked, and the pass is tried again.
    *runner.fail.borrow_mut() = None;
    let notes = db.diag_notations(vec![DiagnosticClass::Verify], &run, &diagnostics_of);
    assert_eq!(notes.len(), 1);
    assert_eq!(notes[0].diagnostic.kind, ErrorKind::Verify);
    assert_eq!(runner.taken(), vec![Pass::Verify]);
}

#[test]
fn a_failure_in_a_pass_that_feeds_others_is_tried_again_for_each_class() {
    let runner = Runner::new();
    let run = |p: Pass, s: Option<Table>, g: &SegmentSet, i: &Vec<Arc<Table>>| runner.run(p, s, g, i);
    let mut db: Database<Table> = Database::new(options(1, true));
    assert_eq!(db.parse(b"a".to_vec(), vec![buffer("a", "x:")], &parser), Ok(()));
    *runner.fail.borrow_mut() = Some(Pass::Nameck);
    let notes = db.diag_notations(
        vec![DiagnosticClass::Scope, DiagnosticClass::StmtParse],
        &run,
        &diagnostics_of,
    );
    let got: Vec<(DiagnosticClass, ErrorKind)> =
        notes.iter().map(|n| (n.class, n.diagnostic.kind)).collect();
    assert_eq!(
        got,
        vec![
            (DiagnosticClass::Scope, ErrorKind::Internal),
            (DiagnosticClass::StmtParse, ErrorKind::Internal),
        ]
    );
    assert_eq!(runner.taken(), vec![Pass::Nameck, Pass::Nameck]);
    assert_eq!(db.failures().len(), 2);
}

#[test]
fn conclude_stores_a_table_and_hands_a_failure_on() {
    let mut db: Database<Table> = Database::new(options(1, true));
    let table = Table {
        pass: Pass::Nameck,
        labels: Vec::new(),
        diagnostics: Vec::new(),
        started_from: None,
        inputs: Vec::new(),
        runs: 1,
    };
    let handle = db.conclude(Pass::Nameck, Ok(table.clone())).unwrap().clone();
    assert_eq!(*handle, table);
    let runner = Runner::new();
    let run = |p: Pass, s: Option<Table>, g: &SegmentSet, i: &Vec<Arc<Table>>| runner.run(p, s, g, i);
    assert!(Arc::ptr_eq(db.name_result(&run).unwrap(), &handle));
    assert!(runner.taken().is_empty());
    let failure = Failure { message: "no".to_string() };
    assert_eq!(db.conclude(Pass::Scopeck, Err(failure.clone())).unwrap_err(), failure);
    assert_eq!(db.failures().len(), 1);
    assert_eq!(db.failures()[0].0, Pass::Scopeck);
    assert_eq!(db.failures()[0].1, failure);
    assert_eq!(db.scope_result(&run).unwrap().started_from, None);
    assert_eq!(runner.taken(), vec![Pass::Scopeck]);
}

#[test]
fn outline_of_an_empty_database_is_the_root_alone() {
    let mut db: Database<Table> = Database::new(options(1, true));
    let root = db.outline_result().clone();
    assert_eq!(root.level, HeadingLevel::Database);
    assert_eq!(root.stmt_address, StatementAddress::new(SegmentId(0), 0));
    assert!(root.children.is_empty());
    assert!(Arc::ptr_eq(db.get_outline().unwrap(), &root));
}

#[test]
fn a_reload_in_two_halves_lets_the_largest_piece_be_parsed_first() {
    let mut db: Database<Table> = Database::new(options(2, true));
    let text = vec![
        buffer("a", "x: $[ b $] a longer tail of the first source $[ c $]"),
        buffer("b", "y:"),
        buffer("c", "the longest of all the sources that are read here: z:"),
    ];
    let reparse = db.plan_parse(&b"a".to_vec(), &text);
    assert!(!reparse.changes_nothing());
    let estimates: Vec<usize> = reparse.parse_jobs().iter().map(|j| j.estimate).collect();
    assert_eq!(estimates, vec![10, 2, 42, 53]);
    let mut order: JobQueue<usize> = JobQueue::new();
    for (k, job) in reparse.parse_jobs().iter().enumerate() {
        order.push(job.estimate, k);
    }
    let mut parsed: Vec<Option<Vec<Segment>>> = vec![None, None, None, None];
    let mut sequence = Vec::new();
    while let Some((_, k)) = order.pop() {
        sequence.push(k);
        parsed[k] = Some(parser(&reparse.parse_jobs()[k]));
    }
    assert_eq!(sequence, vec![3, 2, 0, 1]);
    let parsed: Vec<Vec<Segment>> = parsed.into_iter().map(|p| p.unwrap()).collect();
    assert_eq!(db.finish_parse(reparse, parsed), Ok(()));
    let texts: Vec<Vec<u8>> =
        db.parse_result().segments().iter().map(|s| s.segment.buffer.clone()).collect();
    assert_eq!(texts.len(), 4);
    assert_eq!(texts[1], b"y:".to_vec());
    let mut whole: Database<Table> = Database::new(options(1, true));
    let text = vec![
        buffer("a", "x: $[ b $] a longer tail of the first source $[ c $]"),
        buffer("b", "y:"),
        buffer("c", "the longest of all the sources that are read here: z:"),
    ];
    assert_eq!(whole.parse(b"a".to_vec(), text, &parser), Ok(()));
    let same: Vec<Vec<u8>> =
        whole.parse_result().segments().iter().map(|s| s.segment.buffer.clone()).collect();
    assert_eq!(texts, same);
    // Nothing is left to do when the same sources are read again.
    let text = vec![
        buffer("a", "x: $[ b $] a longer tail of the first source $[ c $]"),
        buffer("b", "y:"),
        buffer("c", "the longest of all the sources that are read here: z:"),
    ];
    let again = db.plan_parse(&b"a".to_vec(), &text);
    assert!(again.changes_nothing());
    assert!(again.parse_jobs().is_empty());
    assert_eq!(db.finish_parse(again, Vec::new()), Ok(()));
}

fn large_text(marker: &str) -> Vec<u8> {
    let mut bytes = Vec::new();
    for chapter in 0..3 {
        bytes.extend_from_slice(b"$(\n#### chapter\n$)\n");
        if chapter == 1 {
            bytes.extend_from_slice(marker.as_bytes());
        }
        while bytes.len() < (chapter + 1) * 512 * 1024 {
            bytes.extend_from_slice(b"$c aaaaaaaaaaaaaaaaaaaaaaaaaaaaaaaaaaaaaaaaaaaaaaaaaaaaaaaaaaaaaaaaaaaaaaaaaaaaaaaaaaa $.\n");
        }
    }
    bytes
}

#[test]
fn a_large_source_is_read_in_three_pieces() {
    let parsed: RefCell<Vec<usize>> = RefCell::new(Vec::new());
    let counting = |job: &ParseJob| {
        parsed.borrow_mut().push(job.plan);
        parser(job)
    };
    let mut db: Database<Table> = Database::new(DbOptions { autosplit: true, ..options(1, true) });
    let text = vec![SourceText { name: b"big".to_vec(), mtime: None, bytes: large_text("") }];
    assert_eq!(db.parse(b"big".to_vec(), text, &counting), Ok(()));
    assert_eq!(*parsed.borrow(), vec![0, 1, 2]);
    let segments = db.parse_result().clone();
    let ids: Vec<SegmentId> = segments.segments().iter().map(|s| s.id).collect();
    assert_eq!(ids.len(), 3);
    let starts: Vec<usize> = ids.iter().map(|id| segments.source_info(*id).unwrap().start).collect();
    assert_eq!(starts[0], 0);
    assert!(starts[0] < starts[1] && starts[1] < starts[2]);

    parsed.borrow_mut().clear();
    let text = vec![SourceText { name: b"big".to_vec(), mtime: None, bytes: large_text("") }];
    assert_eq!(db.parse(b"big".to_vec(), text, &counting), Ok(()));
    assert!(parsed.borrow().is_empty());

    let mut changed = large_text("");
    let at = starts[1] + 40;
    changed[at] = b'b';
    let text = vec![SourceText { name: b"big".to_vec(), mtime: None, bytes: changed }];
    assert_eq!(db.parse(b"big".to_vec(), text, &counting), Ok(()));
    assert_eq!(*parsed.borrow(), vec![1]);
    let after: Vec<SegmentId> = db.parse_result().segments().iter().map(|s| s.id).collect();
    assert_eq!(after, ids);
}

#[test]
fn databases_that_hold_the_same_segments_give_the_same_results() {
    let runner = Runner::new();
    let run = |p: Pass, s: Option<Table>, g: &SegmentSet, i: &Vec<Arc<Table>>| runner.run(p, s, g, i);
    let text = || vec![buffer("a", "x: bad: $[ b $]"), buffer("b", "y:")];
    let mut first: Database<Table> = Database::new(options(1, false));
    let mut second: Database<Table> = Database::new(options(4, false));
    assert_eq!(first.parse(b"a".to_vec(), text(), &parser), Ok(()));
    assert_eq!(second.parse(b"a".to_vec(), text(), &parser), Ok(()));
    // The second database is asked in another order.
    let grammar = second.grammar_result(&run).unwrap().clone();
    let verified = second.verify_result(&run).unwrap().clone();
    assert_eq!(**first.verify_result(&run).unwrap(), *verified);
    assert_eq!(**first.grammar_result(&run).unwrap(), *grammar);
    assert_eq!(**first.name_result(&run).unwrap(), **second.name_result(&run).unwrap());
}
