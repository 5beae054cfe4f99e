use metamath_pipeline::segment::{Diagnostic, ErrorKind, Segment, StatementAddress};
use metamath_pipeline::segment_order::SegmentId;
use metamath_pipeline::segment_set::{Exhausted, ParseJob, SegmentSet};
use metamath_pipeline::source::{enumerate, SourceText};
use std::cell::RefCell;
use std::sync::Arc;

fn buffer(name: &str, text: &str) -> SourceText {
    SourceText { name: name.as_bytes().to_vec(), mtime: None, bytes: text.as_bytes().to_vec() }
}

fn file(name: &str, mtime: u64, text: &str) -> SourceText {
    SourceText { name: name.as_bytes().to_vec(), mtime: Some(mtime), bytes: text.as_bytes().to_vec() }
}

/// One segment for every line of the piece; a line that holds `!` is in error.
fn by_line(job: &ParseJob) -> Vec<Segment> {
    job.buffer
        .split(|b| *b == b'\n')
        .filter(|line| !line.is_empty())
        .map(|line| Segment {
            buffer: line.to_vec(),
            outline: Vec::new(),
            diagnostics: if line.contains(&b'!') {
                vec![(0, Diagnostic { kind: ErrorKind::Parse, message: "bang".to_string() })]
            } else {
                Vec::new()
            },
        })
        .collect()
}

fn contents(set: &SegmentSet) -> Vec<(SegmentId, Vec<u8>)> {
    set.segments().iter().map(|s| (s.id, s.segment.buffer.clone())).collect()
}

fn texts(set: &SegmentSet) -> Vec<Vec<u8>> {
    set.segments().iter().map(|s| s.segment.buffer.clone()).collect()
}

#[test]
fn new_set_is_empty() {
    let set = SegmentSet::new();
    assert!(set.segments().is_empty());
    assert!(set.parse_diagnostics().is_empty());
    assert!(set.source_info(SegmentId(1)).is_none());
    assert!(set.position(SegmentId(0)).is_none());
    assert!(set.statement(StatementAddress::new(SegmentId(1), 0)).is_none());
}

#[test]
fn first_read_numbers_the_segments_in_order() {
    let text = vec![buffer("a", "one\ntwo\n$[ b $]\nfour"), buffer("b", "three")];
    let mut set = SegmentSet::new();
    assert_eq!(set.read(&b"a".to_vec(), &text, false, &by_line), Ok(true));
    assert_eq!(
        contents(&set),
        vec![
            (SegmentId(1), b"one".to_vec()),
            (SegmentId(2), b"two".to_vec()),
            (SegmentId(3), b"$[ b $]".to_vec()),
            (SegmentId(4), b"three".to_vec()),
            (SegmentId(5), b"four".to_vec()),
        ]
    );
    assert_eq!(set.source_info(SegmentId(4)).unwrap().origin, b"b".to_vec());
    assert_eq!(set.source_info(SegmentId(5)).unwrap().origin, b"a".to_vec());
    assert_eq!(set.source_info(SegmentId(5)).unwrap().start, 15);
    assert_eq!(set.position(SegmentId(4)), Some(3));
    assert_eq!(set.position(SegmentId(9)), None);
    let found = set.statement(StatementAddress::new(SegmentId(2), 6)).unwrap();
    assert_eq!(found.index, 6);
    assert_eq!(found.segment.id, SegmentId(2));
    assert_eq!(found.segment.segment.buffer, b"two".to_vec());
    assert_eq!(set.place_of(StatementAddress::new(SegmentId(4), 2)), (3, 2));
    assert_eq!(set.place_of(StatementAddress::new(SegmentId(77), 2)), (5, 2));
}

#[test]
fn unchanged_pieces_are_not_parsed_again() {
    let calls: RefCell<Vec<Vec<u8>>> = RefCell::new(Vec::new());
    let parser = |job: &ParseJob| {
        calls.borrow_mut().push(job.buffer.clone());
        by_line(job)
    };
    let text = vec![buffer("a", "one\n$[ b $]\ntwo"), buffer("b", "inner")];
    let mut set = SegmentSet::new();
    assert_eq!(set.read(&b"a".to_vec(), &text, false, &parser), Ok(true));
    assert_eq!(calls.borrow().len(), 3);
    let before = contents(&set);
    assert_eq!(set.read(&b"a".to_vec(), &text, false, &parser), Ok(false));
    assert_eq!(calls.borrow().len(), 3);
    assert_eq!(contents(&set), before);
    let text = vec![buffer("a", "one\n$[ b $]\ntwo"), buffer("b", "other")];
    assert_eq!(set.read(&b"a".to_vec(), &text, false, &parser), Ok(true));
    assert_eq!(calls.borrow().len(), 4);
    assert_eq!(calls.borrow()[3], b"other".to_vec());
}

#[test]
fn changed_piece_with_as_many_segments_keeps_the_identifiers() {
    let text = vec![buffer("a", "one\ntwo\n$[ b $]\nend"), buffer("b", "x\ny\nz")];
    let mut set = SegmentSet::new();
    assert_eq!(set.read(&b"a".to_vec(), &text, false, &by_line), Ok(true));
    let before = contents(&set);
    let text = vec![buffer("a", "one\ntwo\n$[ b $]\nend"), buffer("b", "p\nq\nr")];
    assert_eq!(set.read(&b"a".to_vec(), &text, false, &by_line), Ok(true));
    let after = contents(&set);
    let ids_before: Vec<SegmentId> = before.iter().map(|e| e.0).collect();
    let ids_after: Vec<SegmentId> = after.iter().map(|e| e.0).collect();
    assert_eq!(ids_after, ids_before);
    assert_eq!(
        texts(&set),
        vec![
            b"one".to_vec(),
            b"two".to_vec(),
            b"$[ b $]".to_vec(),
            b"p".to_vec(),
            b"q".to_vec(),
            b"r".to_vec(),
            b"end".to_vec()
        ]
    );
}

#[test]
fn changed_piece_with_another_count_gets_fresh_identifiers() {
    let text = vec![buffer("a", "one\n$[ b $]\nend"), buffer("b", "x\ny")];
    let mut set = SegmentSet::new();
    assert_eq!(set.read(&b"a".to_vec(), &text, false, &by_line), Ok(true));
    assert_eq!(
        contents(&set),
        vec![
            (SegmentId(1), b"one".to_vec()),
            (SegmentId(2), b"$[ b $]".to_vec()),
            (SegmentId(3), b"x".to_vec()),
            (SegmentId(4), b"y".to_vec()),
            (SegmentId(5), b"end".to_vec()),
        ]
    );
    let text = vec![buffer("a", "one\n$[ b $]\nend"), buffer("b", "x\ny\nz")];
    assert_eq!(set.read(&b"a".to_vec(), &text, false, &by_line), Ok(true));
    assert_eq!(
        contents(&set),
        vec![
            (SegmentId(1), b"one".to_vec()),
            (SegmentId(2), b"$[ b $]".to_vec()),
            (SegmentId(6), b"x".to_vec()),
            (SegmentId(7), b"y".to_vec()),
            (SegmentId(8), b"z".to_vec()),
            (SegmentId(5), b"end".to_vec()),
        ]
    );
    assert!(set.source_info(SegmentId(3)).is_none());
    assert!(set.source_info(SegmentId(4)).is_none());
}

#[test]
fn removed_and_new_pieces() {
    let text = vec![buffer("a", "$[ b $]\n$[ c $]\nend"), buffer("b", "bee"), buffer("c", "sea")];
    let mut set = SegmentSet::new();
    assert_eq!(set.read(&b"a".to_vec(), &text, false, &by_line), Ok(true));
    let before = contents(&set);
    assert_eq!(before.len(), 5);
    let sea = before[3].0;
    let text = vec![buffer("a", "$[ d $]\n$[ c $]\nend"), buffer("d", "dee\ndum"), buffer("c", "sea")];
    assert_eq!(set.read(&b"a".to_vec(), &text, false, &by_line), Ok(true));
    let after = contents(&set);
    assert_eq!(
        texts(&set),
        vec![
            b"$[ d $]".to_vec(),
            b"dee".to_vec(),
            b"dum".to_vec(),
            b"$[ c $]".to_vec(),
            b"sea".to_vec(),
            b"end".to_vec()
        ]
    );
    assert_eq!(after[0].0, before[0].0);
    assert_eq!(after[3].0, before[2].0);
    assert_eq!(after[4].0, sea);
    assert_eq!(after[5].0, before[4].0);
    assert!(after[1].0 .0 > 5 && after[2].0 .0 > 5);
    assert!(set.source_info(before[1].0).is_none());
}

#[test]
fn a_reload_gives_what_a_fresh_load_gives() {
    let first = vec![buffer("a", "one\n$[ b $]\ntwo"), buffer("b", "x\ny")];
    let second = vec![buffer("a", "zero\none\n$[ b $]\n$[ c $]"), buffer("b", "x\ny"), buffer("c", "new")];
    let mut grown = SegmentSet::new();
    assert_eq!(grown.read(&b"a".to_vec(), &first, false, &by_line), Ok(true));
    assert_eq!(grown.read(&b"a".to_vec(), &second, false, &by_line), Ok(true));
    let mut fresh = SegmentSet::new();
    assert_eq!(fresh.read(&b"a".to_vec(), &second, false, &by_line), Ok(true));
    assert_eq!(texts(&grown), texts(&fresh));
    let ids: Vec<u32> = grown.segments().iter().map(|s| s.id.0).collect();
    let mut sorted = ids.clone();
    sorted.sort();
    sorted.dedup();
    assert_eq!(sorted.len(), ids.len());
}

#[test]
fn files_are_judged_by_their_modification_time() {
    let calls: RefCell<usize> = RefCell::new(0);
    let parser = |job: &ParseJob| {
        *calls.borrow_mut() += 1;
        by_line(job)
    };
    let mut set = SegmentSet::new();
    assert_eq!(set.read(&b"a".to_vec(), &vec![file("a", 5, "one")], false, &parser), Ok(true));
    assert_eq!(*calls.borrow(), 1);
    assert_eq!(set.read(&b"a".to_vec(), &vec![file("a", 5, "ONE")], false, &parser), Ok(false));
    assert_eq!(*calls.borrow(), 1);
    assert_eq!(texts(&set), vec![b"one".to_vec()]);
    assert_eq!(set.read(&b"a".to_vec(), &vec![file("a", 6, "ONE")], false, &parser), Ok(true));
    assert_eq!(*calls.borrow(), 2);
    assert_eq!(texts(&set), vec![b"ONE".to_vec()]);
    assert_eq!(set.read(&b"a".to_vec(), &vec![file("a", 6, "ONE!")], false, &parser), Ok(true));
    assert_eq!(*calls.borrow(), 3);
    assert_eq!(set.read(&b"a".to_vec(), &vec![buffer("a", "ONE!")], false, &parser), Ok(true));
    assert_eq!(*calls.borrow(), 4);
}

#[test]
fn errors_of_the_sources_become_segments() {
    let text = vec![buffer("a", "fine\n$[ gone $]\nbad!"), buffer("b", "unused")];
    let mut set = SegmentSet::new();
    assert_eq!(set.read(&b"a".to_vec(), &text, false, &by_line), Ok(true));
    let diagnostics = set.parse_diagnostics();
    let got: Vec<(StatementAddress, ErrorKind)> =
        diagnostics.iter().map(|d| (d.0, d.1.kind)).collect();
    assert_eq!(
        got,
        vec![
            (StatementAddress::new(SegmentId(3), 0), ErrorKind::Io),
            (StatementAddress::new(SegmentId(4), 0), ErrorKind::Parse),
        ]
    );
    assert_eq!(diagnostics[1].1.message, "bang");
    assert_eq!(set.source_info(SegmentId(3)).unwrap().origin, b"gone".to_vec());
    let synthetic = &set.segments()[2];
    assert!(synthetic.segment.buffer.is_empty());
    assert_eq!(Segment::synthetic(ErrorKind::Include).diagnostics[0].1.kind, ErrorKind::Include);
}

#[test]
fn plan_lists_the_pieces_to_parse_with_their_lengths() {
    let text = vec![buffer("a", "one\n$[ b $]\nthree!"), buffer("b", "a much longer inner text")];
    let set = SegmentSet::new();
    let plans = enumerate(&b"a".to_vec(), &text, false);
    let reparse = set.plan(plans, &text);
    let names: Vec<Vec<u8>> = reparse.parse_jobs().iter().map(|j| j.origin.clone()).collect();
    assert_eq!(names, vec![b"a".to_vec(), b"b".to_vec(), b"a".to_vec()]);
    let jobs: Vec<(usize, usize, Vec<u8>)> =
        reparse.parse_jobs().iter().map(|j| (j.plan, j.estimate, j.buffer.clone())).collect();
    assert_eq!(
        jobs,
        vec![
            (0, 11, b"one\n$[ b $]".to_vec()),
            (1, 24, b"a much longer inner text".to_vec()),
            (2, 7, b"\nthree!".to_vec()),
        ]
    );
    let parsed: Vec<Vec<Segment>> = reparse.parse_jobs().iter().map(by_line).collect();
    let mut set = set;
    assert!(!reparse.changes_nothing());
    assert!(set.fits(&reparse, &parsed));
    set.splice(reparse, parsed);
    assert_eq!(set.segments().len(), 4);
}

#[test]
fn duplicate_shares_the_segments() {
    let text = vec![buffer("a", "one\ntwo")];
    let mut set = SegmentSet::new();
    assert_eq!(set.read(&b"a".to_vec(), &text, false, &by_line), Ok(true));
    let mut copy = set.duplicate();
    assert_eq!(contents(&copy), contents(&set));
    let text = vec![buffer("a", "one\ntwo\nthree")];
    assert_eq!(copy.read(&b"a".to_vec(), &text, false, &by_line), Ok(true));
    assert_eq!(texts(&set), vec![b"one".to_vec(), b"two".to_vec()]);
    assert_eq!(texts(&copy).len(), 3);
    let _ = Arc::new(copy);
    assert_eq!(Exhausted, Exhausted);
}

#[test]
fn the_same_sources_give_the_same_set() {
    let text = vec![buffer("a", "one\n$[ b $]\ntwo!\n$[ gone $]"), buffer("b", "x\ny")];
    let mut first = SegmentSet::new();
    let mut second = SegmentSet::new();
    assert_eq!(first.read(&b"a".to_vec(), &text, false, &by_line), Ok(true));
    assert_eq!(second.read(&b"a".to_vec(), &text, false, &by_line), Ok(true));
    assert_eq!(contents(&first), contents(&second));
    let errors = |set: &SegmentSet| -> Vec<(StatementAddress, ErrorKind)> {
        set.parse_diagnostics().iter().map(|d| (d.0, d.1.kind)).collect()
    };
    assert_eq!(errors(&first), errors(&second));
}
