use metamath_pipeline::outline::{build_outline, OutlineNode};
use metamath_pipeline::segment::{HeadingDef, HeadingLevel, Segment, StatementAddress};
use metamath_pipeline::segment_order::SegmentId;
use metamath_pipeline::segment_set::{ParseJob, SegmentSet};
use metamath_pipeline::source::SourceText;
use std::sync::Arc;

fn leaf(level: HeadingLevel, index: i32) -> OutlineNode {
    OutlineNode::from_heading_def(
        &HeadingDef { name: Vec::new(), index, level },
        SegmentId(1),
    )
}

fn preorder(node: &OutlineNode, out: &mut Vec<(HeadingLevel, i32)>) {
    out.push((node.level, node.stmt_address.index));
    for child in node.children.iter() {
        preorder(child, out);
    }
}

fn shape(node: &OutlineNode) -> String {
    let mut text = format!("{}", node.stmt_address.index);
    if !node.children.is_empty() {
        text.push('(');
        for (i, child) in node.children.iter().enumerate() {
            if i > 0 {
                text.push(' ');
            }
            text.push_str(&shape(child));
        }
        text.push(')');
    }
    text
}

#[test]
fn default_node_is_a_bare_root() {
    let node = OutlineNode::default();
    assert_eq!(node.level, HeadingLevel::Database);
    assert_eq!(node.stmt_address, StatementAddress::new(SegmentId(0), 0));
    assert!(node.children.is_empty());
    assert_eq!(HeadingLevel::default(), HeadingLevel::Database);
    assert_eq!(StatementAddress::default(), StatementAddress { segment_id: SegmentId(0), index: 0 });
}

#[test]
fn heading_levels_deepen() {
    let levels = [
        HeadingLevel::Database,
        HeadingLevel::MajorPart,
        HeadingLevel::Section,
        HeadingLevel::SubSection,
        HeadingLevel::SubSubSection,
    ];
    for (n, level) in levels.iter().enumerate() {
        assert_eq!(level.number() as usize, n);
    }
    assert!(HeadingLevel::Database < HeadingLevel::MajorPart);
}

#[test]
fn node_from_heading() {
    let node = OutlineNode::from_heading_def(
        &HeadingDef { name: b"Logic".to_vec(), index: 7, level: HeadingLevel::Section },
        SegmentId(3),
    );
    assert_eq!(node.level, HeadingLevel::Section);
    assert_eq!(node.stmt_address, StatementAddress::new(SegmentId(3), 7));
    assert!(node.children.is_empty());
}

#[test]
fn clone_copies_the_whole_tree() {
    let mut root = OutlineNode::default();
    root.add_child(leaf(HeadingLevel::Section, 1));
    root.add_child(leaf(HeadingLevel::MajorPart, 2));
    root.add_child(leaf(HeadingLevel::SubSection, 3));
    let mut copy = root.clone();
    assert_eq!(shape(&copy), shape(&root));
    copy.add_child(leaf(HeadingLevel::SubSubSection, 4));
    assert_eq!(shape(&root), "0(1(2) 3)");
    assert_eq!(shape(&copy), "0(1(2) 3 4)");
}

#[test]
fn first_child_hangs_under_the_node() {
    let mut root = OutlineNode::default();
    root.add_child(leaf(HeadingLevel::Section, 1));
    assert_eq!(shape(&root), "0(1)");
}

#[test]
fn child_goes_under_a_deeper_last_child() {
    let mut root = OutlineNode::default();
    root.add_child(leaf(HeadingLevel::Section, 1));
    root.add_child(leaf(HeadingLevel::MajorPart, 2));
    assert_eq!(shape(&root), "0(1(2))");
    root.add_child(leaf(HeadingLevel::MajorPart, 3));
    assert_eq!(shape(&root), "0(1(2 3))");
}

#[test]
fn child_goes_behind_a_last_child_that_is_not_deeper() {
    let mut root = OutlineNode::default();
    root.add_child(leaf(HeadingLevel::MajorPart, 1));
    root.add_child(leaf(HeadingLevel::Section, 2));
    root.add_child(leaf(HeadingLevel::Section, 3));
    assert_eq!(shape(&root), "0(1 2 3)");
    root.add_child(leaf(HeadingLevel::MajorPart, 4));
    assert_eq!(shape(&root), "0(1 2 3(4))");
}

#[test]
fn preorder_is_the_order_of_adding() {
    let levels = [
        HeadingLevel::SubSection,
        HeadingLevel::MajorPart,
        HeadingLevel::Section,
        HeadingLevel::SubSubSection,
        HeadingLevel::Section,
        HeadingLevel::MajorPart,
        HeadingLevel::SubSection,
        HeadingLevel::SubSubSection,
    ];
    let mut root = OutlineNode::default();
    let mut expected = vec![(HeadingLevel::Database, 0)];
    for (n, level) in levels.iter().enumerate() {
        root.add_child(leaf(*level, n as i32 + 1));
        expected.push((*level, n as i32 + 1));
    }
    let mut got = Vec::new();
    preorder(&root, &mut got);
    assert_eq!(got, expected);
}

fn parse_headings(job: &ParseJob) -> Vec<Segment> {
    let mut outline = Vec::new();
    let mut index = 0;
    for line in job.buffer.split(|b| *b == b'\n') {
        let level = match line.first() {
            Some(b'1') => Some(HeadingLevel::MajorPart),
            Some(b'2') => Some(HeadingLevel::Section),
            Some(b'3') => Some(HeadingLevel::SubSection),
            _ => None,
        };
        if let Some(level) = level {
            outline.push(HeadingDef { name: line.to_vec(), index, level });
        }
        index += 1;
    }
    vec![Segment { buffer: job.buffer.clone(), outline, diagnostics: Vec::new() }]
}

#[test]
fn outline_of_a_database() {
    let text = vec![
        SourceText { name: b"a".to_vec(), mtime: None, bytes: b"1 part\nx\n2 sec\n$[ b $]\n2 more".to_vec() },
        SourceText { name: b"b".to_vec(), mtime: None, bytes: b"3 sub\n1 next".to_vec() },
    ];
    let mut set = SegmentSet::new();
    assert_eq!(set.read(&b"a".to_vec(), &text, false, &parse_headings), Ok(true));
    let set = Arc::new(set);
    let ids: Vec<SegmentId> = set.segments().iter().map(|s| s.id).collect();
    assert_eq!(ids.len(), 3);
    let mut root = OutlineNode::default();
    build_outline(&mut root, &set);
    assert_eq!(root.level, HeadingLevel::Database);
    assert_eq!(root.stmt_address, StatementAddress::new(ids[0], 0));
    let mut got = Vec::new();
    fn walk(node: &OutlineNode, out: &mut Vec<(HeadingLevel, StatementAddress)>) {
        out.push((node.level, node.stmt_address));
        for child in node.children.iter() {
            walk(child, out);
        }
    }
    walk(&root, &mut got);
    assert_eq!(
        got,
        vec![
            (HeadingLevel::Database, StatementAddress::new(ids[0], 0)),
            (HeadingLevel::MajorPart, StatementAddress::new(ids[0], 0)),
            (HeadingLevel::Section, StatementAddress::new(ids[0], 2)),
            (HeadingLevel::SubSection, StatementAddress::new(ids[1], 0)),
            (HeadingLevel::MajorPart, StatementAddress::new(ids[1], 1)),
            (HeadingLevel::Section, StatementAddress::new(ids[2], 1)),
        ]
    );
    assert_eq!(root.children.len(), 3);
    assert_eq!(root.children[2].level, HeadingLevel::SubSection);
    assert_eq!(root.children[2].children.len(), 2);
    assert!(root.children[2].children[0].children.is_empty());
}
