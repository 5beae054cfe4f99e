use metamath_pipeline::segment::ErrorKind;
use metamath_pipeline::source::{
    bytes_equal, copy_bytes, cut, digest, end_of_token, enumerate, find_heading, find_inclusion,
    heading_at, skip, SourceText, SPLIT_THRESHOLD,
};

fn buffer(name: &str, text: &str) -> SourceText {
    SourceText { name: name.as_bytes().to_vec(), mtime: None, bytes: text.as_bytes().to_vec() }
}

fn file(name: &str, mtime: u64, text: &str) -> SourceText {
    SourceText { name: name.as_bytes().to_vec(), mtime: Some(mtime), bytes: text.as_bytes().to_vec() }
}

#[test]
fn digest_is_the_fnv_1a_hash() {
    let empty: Vec<u8> = Vec::new();
    assert_eq!(digest(&empty, 0, 0), 0xcbf2_9ce4_8422_2325);
    let a = b"a".to_vec();
    assert_eq!(digest(&a, 0, 1), 0xaf63_dc4c_8601_ec8c);
    let foobar = b"foobar".to_vec();
    assert_eq!(digest(&foobar, 0, 6), 0x8594_4171_f739_67e8);
    let padded = b"xxfoobaryy".to_vec();
    assert_eq!(digest(&padded, 2, 8), 0x8594_4171_f739_67e8);
}

#[test]
fn byte_helpers() {
    let a = b"abc".to_vec();
    assert!(bytes_equal(&a, &b"abc".to_vec()));
    assert!(!bytes_equal(&a, &b"abd".to_vec()));
    assert!(!bytes_equal(&a, &b"ab".to_vec()));
    assert_eq!(copy_bytes(&a, 1, 3), b"bc".to_vec());
    assert_eq!(copy_bytes(&a, 2, 2), Vec::<u8>::new());
}

#[test]
fn tokens_are_separated_by_white_space() {
    let text = b"  ab\t\ncd ".to_vec();
    assert_eq!(skip(&text, 0), 2);
    assert_eq!(end_of_token(&text, 2), 4);
    assert_eq!(skip(&text, 4), 6);
    assert_eq!(end_of_token(&text, 6), 8);
    assert_eq!(skip(&text, 8), 9);
    assert_eq!(end_of_token(&text, 9), 9);
}

#[test]
fn inclusions_are_found_outside_comments() {
    let text = b"$c a $. $[ other.mm $] $c b $.".to_vec();
    assert_eq!(find_inclusion(&text, 0), Some((22, 11, 19)));
    assert_eq!(find_inclusion(&text, 22), None);
    let commented = b"$( $[ no $] $) $[ yes $]".to_vec();
    assert_eq!(find_inclusion(&commented, 0), Some((24, 18, 21)));
    let open = b"$[ name".to_vec();
    assert_eq!(find_inclusion(&open, 0), None);
    let glued = b"$[name$]".to_vec();
    assert_eq!(find_inclusion(&glued, 0), None);
}

#[test]
fn chapter_headings_start_a_line_and_a_comment() {
    let text = b"$c a $.\n$(\n####\n  Chapter\n####\n$)\n$( #### $)\n $(\n####".to_vec();
    assert!(heading_at(&text, 8));
    assert!(heading_at(&text, 34));
    assert!(!heading_at(&text, 0));
    assert!(!heading_at(&text, 46));
    assert_eq!(find_heading(&text, 0, text.len()), 8);
    assert_eq!(find_heading(&text, 9, text.len()), 34);
    assert_eq!(find_heading(&text, 35, text.len()), text.len());
    let short = b"$(\n###\n$)".to_vec();
    assert!(!heading_at(&short, 0));
    let tight = b"$(####".to_vec();
    assert!(!heading_at(&tight, 0));
}

#[test]
fn cut_ends_a_piece_behind_every_inclusion() {
    let text = b"a $[ x $] b $[ y $]".to_vec();
    let chunks = cut(&text, false);
    let got: Vec<(usize, usize, Option<(usize, usize)>)> =
        chunks.iter().map(|c| (c.start, c.end, c.inclusion)).collect();
    assert_eq!(got, vec![(0, 9, Some((5, 6))), (9, 19, Some((15, 16)))]);
    let plain = b"no inclusion here".to_vec();
    let got: Vec<(usize, usize, Option<(usize, usize)>)> =
        cut(&plain, false).iter().map(|c| (c.start, c.end, c.inclusion)).collect();
    assert_eq!(got, vec![(0, 17, None)]);
    let empty: Vec<u8> = Vec::new();
    let got: Vec<(usize, usize, Option<(usize, usize)>)> =
        cut(&empty, true).iter().map(|c| (c.start, c.end, c.inclusion)).collect();
    assert_eq!(got, vec![(0, 0, None)]);
}

#[test]
fn cut_splits_in_front_of_chapter_headings() {
    let text = b"$(\n#### one\n$)\n$c a $.\n$(\n#### two\n$)\n$[ x $]\n$(\n#### three\n$)\n".to_vec();
    let got: Vec<(usize, usize, Option<(usize, usize)>)> =
        cut(&text, true).iter().map(|c| (c.start, c.end, c.inclusion)).collect();
    assert_eq!(got, vec![(0, 23, None), (23, 45, Some((41, 42))), (45, 46, None), (46, 63, None)]);
    let got: Vec<(usize, usize, Option<(usize, usize)>)> =
        cut(&text, false).iter().map(|c| (c.start, c.end, c.inclusion)).collect();
    assert_eq!(got, vec![(0, 45, Some((41, 42))), (45, 63, None)]);
}

#[test]
fn a_single_text_is_one_piece() {
    let text = vec![buffer("a", "$c x $.")];
    let plans = enumerate(&b"a".to_vec(), &text, false);
    assert_eq!(plans.len(), 1);
    assert_eq!(plans[0].piece.origin, b"a".to_vec());
    assert_eq!((plans[0].piece.start, plans[0].piece.end), (0, 7));
    assert_eq!(plans[0].text, 0);
    assert_eq!(plans[0].error, None);
    assert!(!plans[0].piece.from_file);
    assert_eq!(plans[0].piece.stamp, 0);
    assert_eq!(plans[0].piece.digest, digest(&text[0].bytes, 0, 7));
}

#[test]
fn a_file_is_recorded_with_its_modification_time() {
    let text = vec![file("a", 1234, "$c x $.")];
    let plans = enumerate(&b"a".to_vec(), &text, false);
    assert_eq!(plans.len(), 1);
    assert!(plans[0].piece.from_file);
    assert_eq!(plans[0].piece.stamp, 1234);
    assert_eq!(plans[0].piece.digest, 0);
}

#[test]
fn a_missing_source_is_an_input_error() {
    let text = vec![buffer("a", "$[ b $] $c x $.")];
    let plans = enumerate(&b"a".to_vec(), &text, false);
    let got: Vec<(Vec<u8>, usize, usize, Option<ErrorKind>)> = plans
        .iter()
        .map(|p| (p.piece.origin.clone(), p.piece.start, p.piece.end, p.error))
        .collect();
    assert_eq!(
        got,
        vec![
            (b"a".to_vec(), 0, 7, None),
            (b"b".to_vec(), 0, 0, Some(ErrorKind::Io)),
            (b"a".to_vec(), 7, 15, None),
        ]
    );
    let none = enumerate(&b"zzz".to_vec(), &text, false);
    assert_eq!(none.len(), 1);
    assert_eq!(none[0].error, Some(ErrorKind::Io));
}

#[test]
fn an_inclusion_cycle_is_reported_once() {
    let text = vec![buffer("a", "$[ b $]"), buffer("b", "$[ a $]")];
    let plans = enumerate(&b"a".to_vec(), &text, false);
    let got: Vec<(Vec<u8>, Option<ErrorKind>)> =
        plans.iter().map(|p| (p.piece.origin.clone(), p.error)).collect();
    assert_eq!(
        got,
        vec![
            (b"a".to_vec(), None),
            (b"b".to_vec(), None),
            (b"a".to_vec(), Some(ErrorKind::Include)),
        ]
    );
}

#[test]
fn a_source_may_be_included_twice_outside_a_cycle() {
    let text = vec![buffer("a", "$[ b $] $[ b $]"), buffer("b", "$c x $.")];
    let plans = enumerate(&b"a".to_vec(), &text, false);
    let got: Vec<(Vec<u8>, usize, Option<ErrorKind>)> =
        plans.iter().map(|p| (p.piece.origin.clone(), p.piece.start, p.error)).collect();
    assert_eq!(
        got,
        vec![
            (b"a".to_vec(), 0, None),
            (b"b".to_vec(), 0, None),
            (b"a".to_vec(), 7, None),
            (b"b".to_vec(), 0, None),
        ]
    );
}

fn large_text_with_three_chapters() -> Vec<u8> {
    let mut bytes = Vec::new();
    for chapter in 0..3 {
        bytes.extend_from_slice(b"$(\n#### chapter\n$)\n");
        while bytes.len() < (chapter + 1) * 512 * 1024 {
            bytes.extend_from_slice(b"$c aaaaaaaaaaaaaaaaaaaaaaaaaaaaaaaaaaaaaaaaaaaaaaaaaaaaaaaaaaaaaaaaaaaaaaaaaaaaaaaaaaa $.\n");
        }
    }
    bytes
}

#[test]
fn a_large_source_is_split_at_its_chapters() {
    let bytes = large_text_with_three_chapters();
    assert!(bytes.len() > SPLIT_THRESHOLD);
    let text = vec![SourceText { name: b"big".to_vec(), mtime: None, bytes }];
    let plans = enumerate(&b"big".to_vec(), &text, true);
    assert_eq!(plans.len(), 3);
    assert_eq!(plans[0].piece.start, 0);
    assert_eq!(plans[0].piece.end, plans[1].piece.start);
    assert_eq!(plans[1].piece.end, plans[2].piece.start);
    assert_eq!(plans[2].piece.end, text[0].bytes.len());
    for plan in plans.iter() {
        assert!(heading_at(&text[0].bytes, plan.piece.start));
        assert_eq!(plan.piece.digest, digest(&text[0].bytes, plan.piece.start, plan.piece.end));
    }
    let whole = enumerate(&b"big".to_vec(), &text, false);
    assert_eq!(whole.len(), 1);
}

#[test]
fn a_small_source_is_not_split() {
    let text = vec![buffer("a", "$(\n#### one\n$)\n$c a $.\n$(\n#### two\n$)\n")];
    let plans = enumerate(&b"a".to_vec(), &text, true);
    assert_eq!(plans.len(), 1);
}

#[test]
fn only_a_source_above_the_threshold_is_split() {
    let mut bytes = b"$(\n#### one\n$)\n".to_vec();
    bytes.resize(SPLIT_THRESHOLD - 16, b' ');
    bytes.push(b'\n');
    bytes.extend_from_slice(b"$(\n#### two\n$)\n");
    assert_eq!(bytes.len(), SPLIT_THRESHOLD);
    let text = vec![SourceText { name: b"a".to_vec(), mtime: None, bytes: bytes.clone() }];
    assert_eq!(enumerate(&b"a".to_vec(), &text, true).len(), 1);
    bytes.push(b'\n');
    let text = vec![SourceText { name: b"a".to_vec(), mtime: None, bytes }];
    let plans = enumerate(&b"a".to_vec(), &text, true);
    assert_eq!(plans.len(), 2);
    assert_eq!(plans[1].piece.start, SPLIT_THRESHOLD - 15);
    assert_eq!(enumerate(&b"a".to_vec(), &text, false).len(), 1);
}
