//! Source texts and the pieces they are read in.
//!
//! A piece is the unit of re-reading: a range of bytes of one source text,
//! with what is needed to tell on a reload whether it has changed.

use vstd::prelude::*;
use crate::segment::ErrorKind;

verus! {

/// A source text handed to the loader: a file that was read, or a buffer that
/// stands for one.
#[derive(Debug)]
pub struct SourceText {
    /// The name under which the text is included.
    pub name: Vec<u8>,
    /// The modification time of the file the text was read from; `None` for
    /// a buffer that did not come from a file.
    pub mtime: Option<u64>,
    /// The text itself.
    pub bytes: Vec<u8>,
}

/// A range of bytes of one source text, as recorded when it was read.
#[derive(Debug)]
pub struct SourcePiece {
    /// The name of the source text.
    pub origin: Vec<u8>,
    /// The first byte of the piece.
    pub start: usize,
    /// The byte behind the last byte of the piece.
    pub end: usize,
    /// The modification time of the file, for a piece read from a file; 0 for
    /// a piece of a buffer.
    pub stamp: u64,
    /// The digest of the bytes, for a piece of a buffer; 0 for a piece read
    /// from a file and for a piece that stands for an error.
    pub digest: u64,
    /// Whether the piece was read from a file.
    pub from_file: bool,
}

/// What identifies a piece across reloads: the name of its source and its
/// range of bytes.
pub type PieceKey = (Seq<u8>, int, int);

impl SourcePiece {
    /// The name of the source and the range of bytes.
    pub open spec fn key(&self) -> PieceKey {
        (self.origin@, self.start as int, self.end as int)
    }

    /// What is recorded to detect a modification: for a piece read from a
    /// file its modification time, for a piece of a buffer its digest.
    pub open spec fn fingerprint(&self) -> (bool, u64, u64) {
        (self.from_file, self.stamp, self.digest)
    }

    /// Whether two pieces are the same piece across reloads.
    pub fn same_piece(&self, other: &SourcePiece) -> (same: bool)
        ensures
            same == (self.key() == other.key()),
    {
        let same = self.start == other.start && self.end == other.end && bytes_equal(
            &self.origin,
            &other.origin,
        );
        proof {
            if self.origin@ == other.origin@ {
                assert(self.origin@ =~= other.origin@);
            }
        }
        same
    }

    /// Whether nothing shows that the piece was modified since `earlier` was
    /// recorded: both are the same piece, and the modification time of a file
    /// and its length, or the digest of a buffer, agree.
    pub fn same_content(&self, earlier: &SourcePiece) -> (same: bool)
        ensures
            same == (self.key() == earlier.key() && self.fingerprint() == earlier.fingerprint()),
    {
        self.same_piece(earlier) && self.from_file == earlier.from_file && self.stamp
            == earlier.stamp && self.digest == earlier.digest
    }

    /// A copy of the record.
    pub fn duplicate(&self) -> (copy: SourcePiece)
        ensures
            copy.key() == self.key(),
            copy.fingerprint() == self.fingerprint(),
            copy.origin@ == self.origin@,
    {
        SourcePiece {
            origin: copy_bytes(&self.origin, 0, self.origin.len()),
            start: self.start,
            end: self.end,
            stamp: self.stamp,
            digest: self.digest,
            from_file: self.from_file,
        }
    }
}

/// Whether two byte strings are equal.
pub fn bytes_equal(a: &Vec<u8>, b: &Vec<u8>) -> (equal: bool)
    ensures
        equal == (a@ == b@),
{
    if a.len() != b.len() {
        return false;
    }
    let mut i: usize = 0;
    while i < a.len()
        invariant
            a@.len() == b@.len(),
            i <= a@.len(),
            forall|k: int| 0 <= k < i ==> a@[k] == b@[k],
        decreases a@.len() - i,
    {
        if a[i] != b[i] {
            return false;
        }
        i += 1;
    }
    assert(a@ =~= b@);
    true
}

/// The bytes of `source` from `start` up to `end`.
pub fn copy_bytes(source: &Vec<u8>, start: usize, end: usize) -> (copy: Vec<u8>)
    requires
        start <= end <= source@.len(),
    ensures
        copy@ == source@.subrange(start as int, end as int),
{
    let mut copy: Vec<u8> = Vec::new();
    let mut i = start;
    while i < end
        invariant
            start <= i <= end <= source@.len(),
            copy@ == source@.subrange(start as int, i as int),
        decreases end - i,
    {
        copy.push(source[i]);
        i += 1;
        assert(copy@ =~= source@.subrange(start as int, i as int));
    }
    copy
}

/// The digest of no bytes.
pub const DIGEST_BASIS: u64 = 0xcbf2_9ce4_8422_2325;

/// The multiplier of the digest.
pub const DIGEST_PRIME: u64 = 0x0000_0100_0000_01b3;

/// The digest after one more byte: the byte is mixed in by exclusive or, and
/// the result multiplied, modulo 2^64, by `DIGEST_PRIME`.
pub open spec fn digest_step(h: u64, b: u8) -> u64 {
    (((h ^ (b as u64)) * DIGEST_PRIME) % 0x1_0000_0000_0000_0000) as u64
}

/// The digest of a byte string: the 64-bit FNV-1a hash.
pub open spec fn digest_of(bytes: Seq<u8>) -> u64
    decreases bytes.len(),
{
    if bytes.len() == 0 {
        DIGEST_BASIS
    } else {
        digest_step(digest_of(bytes.drop_last()), bytes.last())
    }
}

/// Computes the digest of the bytes of `source` from `start` up to `end`.
pub fn digest(source: &Vec<u8>, start: usize, end: usize) -> (h: u64)
    requires
        start <= end <= source@.len(),
    ensures
        h == digest_of(source@.subrange(start as int, end as int)),
{
    let mut h: u64 = DIGEST_BASIS;
    let mut i = start;
    while i < end
        invariant
            start <= i <= end <= source@.len(),
            h == digest_of(source@.subrange(start as int, i as int)),
        decreases end - i,
    {
        let ghost before = source@.subrange(start as int, i as int);
        h = (h ^ (source[i] as u64)).wrapping_mul(DIGEST_PRIME);
        i += 1;
        proof {
            let now = source@.subrange(start as int, i as int);
            assert(now.drop_last() =~= before);
            assert(now.last() == source@[i - 1]);
        }
    }
    h
}

/// One entry of the list of pieces that a source configuration is read in:
/// a range of a source text that is to be parsed, or the record of an error
/// met where a source text was expected.
#[derive(Debug)]
pub struct PiecePlan {
    /// The piece; for an error, an empty range of the name in question.
    pub piece: SourcePiece,
    /// The index of the source text among the texts that were handed in, for
    /// a piece that is to be parsed.
    pub text: usize,
    /// The error that the entry stands for, if it stands for one.
    pub error: Option<ErrorKind>,
}

/// The length above which a source is split at chapter headings, where
/// splitting is asked for: one mebibyte.
pub const SPLIT_THRESHOLD: usize = 1048576;

/// Whether a byte separates tokens: space, tab, line feed, form feed,
/// carriage return.
pub open spec fn is_space(b: u8) -> bool {
    b == 32 || b == 9 || b == 10 || b == 12 || b == 13
}

/// Whether a byte separates tokens.
pub fn space(b: u8) -> (r: bool)
    ensures
        r == is_space(b),
{
    b == 32 || b == 9 || b == 10 || b == 12 || b == 13
}

/// The first position at or behind `p` that holds no separator, or the
/// length of `bytes` where only separators follow.
pub open spec fn skip_space(bytes: Seq<u8>, p: int) -> int
    decreases bytes.len() - p,
{
    if p < 0 || p >= bytes.len() {
        bytes.len() as int
    } else if is_space(bytes[p]) {
        skip_space(bytes, p + 1)
    } else {
        p
    }
}

/// The first position at or behind `p` that holds a separator, or the length
/// of `bytes` where none follows: the end of a token that holds `p`.
pub open spec fn token_end(bytes: Seq<u8>, p: int) -> int
    decreases bytes.len() - p,
{
    if p < 0 || p >= bytes.len() {
        bytes.len() as int
    } else if is_space(bytes[p]) {
        p
    } else {
        token_end(bytes, p + 1)
    }
}

/// Where a token starts at `p`, it ends behind `p`; and nothing ends or
/// starts outside the bytes.
pub proof fn lemma_token_bounds(bytes: Seq<u8>, p: int)
    requires
        0 <= p <= bytes.len(),
    ensures
        p <= skip_space(bytes, p) <= bytes.len(),
        p <= token_end(bytes, p) <= bytes.len(),
        p < bytes.len() && !is_space(bytes[p]) ==> p < token_end(bytes, p),
        skip_space(bytes, p) < bytes.len() ==> !is_space(bytes[skip_space(bytes, p)]),
    decreases bytes.len() - p,
{
    if p < bytes.len() {
        lemma_token_bounds(bytes, p + 1);
    }
}

/// The token from `start` up to `end` is the two bytes `a`, `b`.
pub open spec fn token_is(bytes: Seq<u8>, start: int, end: int, a: u8, b: u8) -> bool {
    end == start + 2 && bytes[start] == a && bytes[start + 1] == b
}

/// An inclusion found in a source text.
pub struct Inclusion {
    /// The position behind the token that closes the inclusion.
    pub end: int,
    /// The first byte of the name of the included source.
    pub name_start: int,
    /// The position behind the last byte of the name.
    pub name_end: int,
}

/// The first inclusion that is complete at or behind `p`.
///
/// The source is read token by token.  A comment runs from the token `$(` to
/// the next token `$)`, and nothing in it counts.  An inclusion is the token
/// `$[`, a token that names a source, and the token `$]`.
pub open spec fn next_inclusion(bytes: Seq<u8>, p: int, in_comment: bool) -> Option<Inclusion>
    decreases bytes.len() - p,
{
    let s = skip_space(bytes, p);
    if p < 0 || s >= bytes.len() {
        None
    } else {
        let e = token_end(bytes, s);
        proof {
            lemma_token_bounds(bytes, p);
            lemma_token_bounds(bytes, s);
        }
        if in_comment {
            next_inclusion(bytes, e, !token_is(bytes, s, e, 36, 41))
        } else if token_is(bytes, s, e, 36, 40) {
            next_inclusion(bytes, e, true)
        } else if token_is(bytes, s, e, 36, 91) {
            let s1 = skip_space(bytes, e);
            let e1 = token_end(bytes, s1);
            let s2 = skip_space(bytes, e1);
            let e2 = token_end(bytes, s2);
            if s1 < bytes.len() && s2 < bytes.len() && token_is(bytes, s2, e2, 36, 93) {
                Some(Inclusion { end: e2, name_start: s1, name_end: e1 })
            } else {
                next_inclusion(bytes, e, false)
            }
        } else {
            next_inclusion(bytes, e, false)
        }
    }
}

/// An inclusion lies behind the position the search started from, inside
/// the bytes.
pub proof fn lemma_inclusion_bounds(bytes: Seq<u8>, p: int, in_comment: bool)
    requires
        0 <= p,
    ensures
        next_inclusion(bytes, p, in_comment) matches Some(found) ==> p < found.name_start
            < found.name_end < found.end <= bytes.len(),
    decreases bytes.len() - p,
{
    let s = skip_space(bytes, p);
    if s < bytes.len() {
        let e = token_end(bytes, s);
        lemma_token_bounds(bytes, p);
        lemma_token_bounds(bytes, s);
        lemma_token_bounds(bytes, e);
        let s1 = skip_space(bytes, e);
        lemma_token_bounds(bytes, s1);
        let e1 = token_end(bytes, s1);
        lemma_token_bounds(bytes, e1);
        let s2 = skip_space(bytes, e1);
        lemma_token_bounds(bytes, s2);
        lemma_inclusion_bounds(bytes, e, true);
        lemma_inclusion_bounds(bytes, e, false);
    }
}

/// Whether a chapter heading starts at `p`: the start of a line that opens a
/// comment whose text begins, after at least one separator, with four number
/// signs.
pub open spec fn is_heading(bytes: Seq<u8>, p: int) -> bool {
    let q = skip_space(bytes, p + 2);
    &&& 0 <= p
    &&& p + 2 < bytes.len()
    &&& p == 0 || bytes[p - 1] == 10
    &&& bytes[p] == 36
    &&& bytes[p + 1] == 40
    &&& p + 2 < q
    &&& q + 4 <= bytes.len()
    &&& bytes[q] == 35
    &&& bytes[q + 1] == 35
    &&& bytes[q + 2] == 35
    &&& bytes[q + 3] == 35
}

/// The first position from `p` up to `end` at which a chapter heading
/// starts, or `end` where there is none.
pub open spec fn next_heading(bytes: Seq<u8>, p: int, end: int) -> int
    decreases end - p,
{
    if p >= end {
        end
    } else if is_heading(bytes, p) {
        p
    } else {
        next_heading(bytes, p + 1, end)
    }
}

/// A heading is found between the position the search started from and the
/// end.
pub proof fn lemma_heading_bounds(bytes: Seq<u8>, p: int, end: int)
    requires
        p <= end,
    ensures
        p <= next_heading(bytes, p, end) <= end,
    decreases end - p,
{
    if p < end && !is_heading(bytes, p) {
        lemma_heading_bounds(bytes, p + 1, end);
    }
}

/// A range of a source text that is read as one piece.
pub struct ChunkView {
    pub start: int,
    pub end: int,
    /// The name of the source that the piece ends with the inclusion of, as a
    /// range of the text.
    pub inclusion: Option<(int, int)>,
}

/// The range from `start` up to `end`, cut in front of every chapter heading
/// in it.  The inclusion at the end stays with the last part.
pub open spec fn split_at_headings(
    bytes: Seq<u8>,
    start: int,
    end: int,
    inclusion: Option<(int, int)>,
) -> Seq<ChunkView>
    decreases end - start,
{
    let h = next_heading(bytes, start + 1, end);
    if start >= end || h >= end {
        seq![ChunkView { start, end, inclusion }]
    } else {
        proof {
            lemma_heading_bounds(bytes, start + 1, end);
        }
        seq![ChunkView { start, end: h, inclusion: None }] + split_at_headings(
            bytes,
            h,
            end,
            inclusion,
        )
    }
}

/// The pieces that a source text is read in, from `p` on.  A piece ends
/// behind every inclusion, so that the included source can take its place in
/// the order; where `split` is set, a piece also ends in front of every
/// chapter heading.  An empty text is one empty piece.
pub open spec fn pieces_from(bytes: Seq<u8>, p: int, split: bool) -> Seq<ChunkView>
    decreases bytes.len() - p,
{
    if p < 0 {
        Seq::empty()
    } else {
        match next_inclusion(bytes, p, false) {
            Some(found) => {
                proof {
                    lemma_inclusion_bounds(bytes, p, false);
                }
                part(bytes, p, found.end, Some((found.name_start, found.name_end)), split)
                    + pieces_from(bytes, found.end, split)
            },
            None => if p < bytes.len() || p == 0 {
                part(bytes, p, bytes.len() as int, None, split)
            } else {
                Seq::empty()
            },
        }
    }
}

/// One range of a source text as pieces: itself, or its parts between
/// chapter headings.
pub open spec fn part(
    bytes: Seq<u8>,
    start: int,
    end: int,
    inclusion: Option<(int, int)>,
    split: bool,
) -> Seq<ChunkView> {
    if split {
        split_at_headings(bytes, start, end, inclusion)
    } else {
        seq![ChunkView { start, end, inclusion }]
    }
}

/// Whether a source of `len` bytes is split at chapter headings.
pub open spec fn splits(autosplit: bool, len: int) -> bool {
    autosplit && len > SPLIT_THRESHOLD
}

/// Finds the first position at or behind `p` that holds no separator.
pub fn skip(bytes: &Vec<u8>, p: usize) -> (q: usize)
    requires
        p <= bytes@.len(),
    ensures
        q == skip_space(bytes@, p as int),
        p <= q <= bytes@.len(),
{
    let mut q = p;
    while q < bytes.len() && space(bytes[q])
        invariant
            p <= q <= bytes@.len(),
            skip_space(bytes@, p as int) == skip_space(bytes@, q as int),
        decreases bytes@.len() - q,
    {
        q += 1;
    }
    q
}

/// Finds the end of the token that holds `p`.
pub fn end_of_token(bytes: &Vec<u8>, p: usize) -> (q: usize)
    requires
        p <= bytes@.len(),
    ensures
        q == token_end(bytes@, p as int),
        p <= q <= bytes@.len(),
{
    let mut q = p;
    while q < bytes.len() && !space(bytes[q])
        invariant
            p <= q <= bytes@.len(),
            token_end(bytes@, p as int) == token_end(bytes@, q as int),
        decreases bytes@.len() - q,
    {
        q += 1;
    }
    q
}

/// Whether the token from `start` up to `end` is the two bytes `a`, `b`.
fn token_eq(bytes: &Vec<u8>, start: usize, end: usize, a: u8, b: u8) -> (r: bool)
    requires
        start <= end <= bytes@.len(),
    ensures
        r == token_is(bytes@, start as int, end as int, a, b),
{
    end - start == 2 && bytes[start] == a && bytes[start + 1] == b
}

/// Finds the first inclusion that is complete at or behind `p`: the position
/// behind it, and the range of the name.
pub fn find_inclusion(bytes: &Vec<u8>, p: usize) -> (found: Option<(usize, usize, usize)>)
    requires
        p <= bytes@.len(),
    ensures
        match found {
            Some((end, name_start, name_end)) => next_inclusion(bytes@, p as int, false) == Some(
                Inclusion {
                    end: end as int,
                    name_start: name_start as int,
                    name_end: name_end as int,
                },
            ) && p < name_start < name_end < end <= bytes@.len(),
            None => next_inclusion(bytes@, p as int, false) is None,
        },
{
    let mut at = p;
    let mut in_comment = false;
    loop
        invariant
            p <= at <= bytes@.len(),
            next_inclusion(bytes@, p as int, false) == next_inclusion(
                bytes@,
                at as int,
                in_comment,
            ),
        decreases bytes@.len() - at,
    {
        let s = skip(bytes, at);
        if s >= bytes.len() {
            return None;
        }
        let e = end_of_token(bytes, s);
        proof {
            lemma_token_bounds(bytes@, at as int);
            lemma_token_bounds(bytes@, s as int);
        }
        if in_comment {
            in_comment = !token_eq(bytes, s, e, 36, 41);
        } else if token_eq(bytes, s, e, 36, 40) {
            in_comment = true;
        } else if token_eq(bytes, s, e, 36, 91) {
            let s1 = skip(bytes, e);
            let e1 = end_of_token(bytes, s1);
            let s2 = skip(bytes, e1);
            let e2 = end_of_token(bytes, s2);
            if s1 < bytes.len() && s2 < bytes.len() && token_eq(bytes, s2, e2, 36, 93) {
                proof {
                    lemma_inclusion_bounds(bytes@, p as int, false);
                }
                return Some((e2, s1, e1));
            }
        }
        at = e;
    }
}

/// Whether a chapter heading starts at `p`.
pub fn heading_at(bytes: &Vec<u8>, p: usize) -> (r: bool)
    requires
        p <= bytes@.len(),
    ensures
        r == is_heading(bytes@, p as int),
{
    let n = bytes.len();
    if n < 2 || p >= n - 2 {
        return false;
    }
    if !(p == 0 || bytes[p - 1] == 10) || bytes[p] != 36 || bytes[p + 1] != 40 {
        return false;
    }
    let q = skip(bytes, p + 2);
    p + 2 < q && n - q >= 4 && bytes[q] == 35 && bytes[q + 1] == 35 && bytes[q + 2] == 35 && bytes[q
        + 3] == 35
}

/// Finds the first position from `p` up to `end` at which a chapter heading
/// starts.
pub fn find_heading(bytes: &Vec<u8>, p: usize, end: usize) -> (h: usize)
    requires
        p <= end <= bytes@.len(),
    ensures
        h == next_heading(bytes@, p as int, end as int),
        p <= h <= end,
{
    let mut h = p;
    while h < end && !heading_at(bytes, h)
        invariant
            p <= h <= end <= bytes@.len(),
            next_heading(bytes@, p as int, end as int) == next_heading(
                bytes@,
                h as int,
                end as int,
            ),
        decreases end - h,
    {
        h += 1;
    }
    h
}

/// A range of a source text that is read as one piece.
#[derive(Debug)]
pub struct Chunk {
    pub start: usize,
    pub end: usize,
    /// The name of the source that the piece ends with the inclusion of, as a
    /// range of the text.
    pub inclusion: Option<(usize, usize)>,
}

impl View for Chunk {
    type V = ChunkView;

    open spec fn view(&self) -> ChunkView {
        ChunkView {
            start: self.start as int,
            end: self.end as int,
            inclusion: match self.inclusion {
                Some((a, b)) => Some((a as int, b as int)),
                None => None,
            },
        }
    }
}

/// The views of `chunks`.
pub open spec fn chunk_views(chunks: Seq<Chunk>) -> Seq<ChunkView> {
    Seq::new(chunks.len(), |i: int| chunks[i]@)
}

/// Every chunk is a range of `len` bytes, and so is the name of every
/// inclusion.
pub open spec fn chunks_within(chunks: Seq<ChunkView>, len: int) -> bool {
    forall|i: int|
        0 <= i < chunks.len() ==> 0 <= (#[trigger] chunks[i]).start <= chunks[i].end <= len && (
        chunks[i].inclusion matches Some((a, b)) ==> 0 <= a <= b <= len)
}

/// The range of a name as a pair of mathematical integers.
pub open spec fn range_view(range: Option<(usize, usize)>) -> Option<(int, int)> {
    match range {
        Some((a, b)) => Some((a as int, b as int)),
        None => None,
    }
}

/// Adds to `out` the range from `start` up to `end`, cut in front of every
/// chapter heading in it.
fn push_split(
    bytes: &Vec<u8>,
    start: usize,
    end: usize,
    inclusion: Option<(usize, usize)>,
    out: &mut Vec<Chunk>,
)
    requires
        start <= end <= bytes@.len(),
        inclusion matches Some((a, b)) ==> a <= b <= bytes@.len(),
        chunks_within(chunk_views(old(out)@), bytes@.len() as int),
    ensures
        chunk_views(final(out)@) == chunk_views(old(out)@) + split_at_headings(
            bytes@,
            start as int,
            end as int,
            range_view(inclusion),
        ),
        chunks_within(chunk_views(final(out)@), bytes@.len() as int),
{
    let ghost before = chunk_views(out@);
    let ghost tail = range_view(inclusion);
    let ghost mut done = Seq::<ChunkView>::empty();
    let mut at = start;
    proof {
        assert(chunk_views(out@) =~= before + done);
        assert(done + split_at_headings(bytes@, at as int, end as int, tail)
            =~= split_at_headings(bytes@, start as int, end as int, tail));
    }
    loop
        invariant
            start <= at <= end <= bytes@.len(),
            inclusion matches Some((a, b)) ==> a <= b <= bytes@.len(),
            tail == range_view(inclusion),
            before == chunk_views(old(out)@),
            chunks_within(chunk_views(out@), bytes@.len() as int),
            chunk_views(out@) == before + done,
            done + split_at_headings(bytes@, at as int, end as int, tail) == split_at_headings(
                bytes@,
                start as int,
                end as int,
                tail,
            ),
        decreases end - at,
    {
        let ghost views = chunk_views(out@);
        let h = if at < end {
            find_heading(bytes, at + 1, end)
        } else {
            end
        };
        if at >= end || h >= end {
            out.push(Chunk { start: at, end, inclusion });
            proof {
                let last = ChunkView { start: at as int, end: end as int, inclusion: tail };
                assert(out@.last()@ == last);
                assert(chunk_views(out@) =~= views.push(last));
                assert(split_at_headings(bytes@, at as int, end as int, tail) == seq![last]);
                assert(views.push(last) =~= before + (done + seq![last]));
            }
            return ;
        }
        out.push(Chunk { start: at, end: h, inclusion: None });
        proof {
            let one = ChunkView { start: at as int, end: h as int, inclusion: None };
            assert(out@.last()@ == one);
            assert(chunk_views(out@) =~= views.push(one));
            assert(views.push(one) =~= before + (done + seq![one]));
            assert((done + seq![one]) + split_at_headings(bytes@, h as int, end as int, tail)
                =~= done + split_at_headings(bytes@, at as int, end as int, tail));
            done = done + seq![one];
        }
        at = h;
    }
}

/// Cuts a source text into the pieces that it is read in.
pub fn cut(bytes: &Vec<u8>, split: bool) -> (chunks: Vec<Chunk>)
    ensures
        chunk_views(chunks@) == pieces_from(bytes@, 0, split),
        chunks_within(chunk_views(chunks@), bytes@.len() as int),
{
    let mut out: Vec<Chunk> = Vec::new();
    let mut at: usize = 0;
    proof {
        assert(chunk_views(out@) + pieces_from(bytes@, 0, split) =~= pieces_from(bytes@, 0, split));
    }
    loop
        invariant
            at <= bytes@.len(),
            chunks_within(chunk_views(out@), bytes@.len() as int),
            chunk_views(out@) + pieces_from(bytes@, at as int, split) == pieces_from(
                bytes@,
                0,
                split,
            ),
        decreases bytes@.len() - at,
    {
        let ghost done = chunk_views(out@);
        match find_inclusion(bytes, at) {
            Some((end, name_start, name_end)) => {
                if split {
                    push_split(bytes, at, end, Some((name_start, name_end)), &mut out);
                } else {
                    out.push(Chunk { start: at, end, inclusion: Some((name_start, name_end)) });
                }
                proof {
                    let here = part(
                        bytes@,
                        at as int,
                        end as int,
                        Some((name_start as int, name_end as int)),
                        split,
                    );
                    if !split {
                        assert(out@.last()@ == here[0]);
                    }
                    assert(chunk_views(out@) =~= done + here);
                    assert((done + here) + pieces_from(bytes@, end as int, split) =~= done
                        + pieces_from(bytes@, at as int, split));
                }
                at = end;
            },
            None => {
                if at < bytes.len() || at == 0 {
                    if split {
                        push_split(bytes, at, bytes.len(), None, &mut out);
                    } else {
                        out.push(Chunk { start: at, end: bytes.len(), inclusion: None });
                    }
                }
                proof {
                    if (at < bytes@.len() || at == 0) && !split {
                        assert(out@.last()@ == ChunkView {
                            start: at as int,
                            end: bytes@.len() as int,
                            inclusion: None,
                        });
                    }
                    assert(chunk_views(out@) =~= done + pieces_from(bytes@, at as int, split));
                }
                return out;
            },
        }
    }
}

/// The plans name ranges of the texts.
pub open spec fn plans_fit(plans: Seq<PiecePlan>, text: Seq<SourceText>) -> bool {
    forall|i: int|
        0 <= i < plans.len() && (#[trigger] plans[i]).error is None ==> plans[i].text < text.len()
            && plans[i].piece.start <= plans[i].piece.end <= text[plans[i].text as int].bytes@.len()
}

/// The mathematical content of a `PiecePlan`.
pub struct PlanView {
    pub origin: Seq<u8>,
    pub start: int,
    pub end: int,
    pub from_file: bool,
    pub stamp: u64,
    pub digest: u64,
    pub text: int,
    pub error: Option<ErrorKind>,
}

impl View for PiecePlan {
    type V = PlanView;

    open spec fn view(&self) -> PlanView {
        PlanView {
            origin: self.piece.origin@,
            start: self.piece.start as int,
            end: self.piece.end as int,
            from_file: self.piece.from_file,
            stamp: self.piece.stamp,
            digest: self.piece.digest,
            text: self.text as int,
            error: self.error,
        }
    }
}

/// The views of `plans`.
pub open spec fn plan_views(plans: Seq<PiecePlan>) -> Seq<PlanView> {
    Seq::new(plans.len(), |i: int| plans[i]@)
}

/// The first text at or behind `from` that bears the name `name`.
pub open spec fn find_text(text: Seq<SourceText>, name: Seq<u8>, from: int) -> Option<int>
    decreases text.len() - from,
{
    if from < 0 || from >= text.len() {
        None
    } else if text[from].name@ == name {
        Some(from)
    } else {
        find_text(text, name, from + 1)
    }
}

/// A text that is found is one of the texts and bears the name.
pub proof fn lemma_find_text(text: Seq<SourceText>, name: Seq<u8>, from: int)
    requires
        0 <= from,
    ensures
        find_text(text, name, from) matches Some(f) ==> from <= f < text.len() && text[f].name@
            == name,
    decreases text.len() - from,
{
    if from < text.len() && text[from].name@ != name {
        lemma_find_text(text, name, from + 1);
    }
}

/// The entry that stands for an error met at the source `name`.
pub open spec fn error_plan(name: Seq<u8>, kind: ErrorKind) -> PlanView {
    PlanView {
        origin: name,
        start: 0,
        end: 0,
        from_file: false,
        stamp: 0,
        digest: 0,
        text: 0,
        error: Some(kind),
    }
}

/// The entry for the piece `chunk` of text `f`.  A piece read from a file is
/// recorded with the modification time of the file, a piece of a buffer with
/// the digest of its bytes.
pub open spec fn piece_plan(text: Seq<SourceText>, f: int, chunk: ChunkView) -> PlanView {
    PlanView {
        origin: text[f].name@,
        start: chunk.start,
        end: chunk.end,
        from_file: text[f].mtime is Some,
        stamp: match text[f].mtime {
            Some(t) => t,
            None => 0,
        },
        digest: if text[f].mtime is Some {
            0
        } else {
            digest_of(text[f].bytes@.subrange(chunk.start, chunk.end))
        },
        text: f,
        error: None,
    }
}

/// The texts on the way from the root to the text being read: each one of
/// the `n` texts, none of them twice.
pub open spec fn stack_ok(n: int, stack: Seq<usize>) -> bool {
    &&& stack.no_duplicates()
    &&& forall|i: int| 0 <= i < stack.len() ==> (#[trigger] stack[i]) < n
}

/// A stack that lacks one of the texts is shorter than the list of texts.
pub proof fn lemma_stack_room(n: int, stack: Seq<usize>, f: usize)
    requires
        stack_ok(n, stack),
        f < n,
        !stack.contains(f),
    ensures
        stack.len() < n,
        stack_ok(n, stack.push(f)),
{
    let longer = stack.push(f);
    assert forall|i: int, j: int|
        0 <= i < longer.len() && 0 <= j < longer.len() && i != j implies longer[i] != longer[j] by {
        if i < stack.len() && j < stack.len() {
        } else if i < stack.len() {
            assert(stack.contains(stack[i]));
        } else {
            assert(stack.contains(stack[j]));
        }
    }
    let upto = vstd::set_lib::set_int_range(0, n);
    vstd::set_lib::lemma_int_range(0, n);
    let held = longer.to_set();
    longer.unique_seq_to_set();
    let as_int = held.map(|x: usize| x as int);
    assert(as_int.subset_of(upto)) by {
        assert forall|y: int| as_int.contains(y) implies upto.contains(y) by {
            let x = choose|x: usize| held.contains(x) && x as int == y;
            let i = choose|i: int| 0 <= i < longer.len() && longer[i] == x;
        }
    }
    vstd::set_lib::lemma_len_subset(as_int, upto);
    vstd::set_lib::lemma_map_size(held, as_int, |x: usize| x as int);
}

/// The pieces of text `f`.
pub open spec fn pieces_of(text: Seq<SourceText>, f: int, autosplit: bool) -> Seq<ChunkView> {
    pieces_from(text[f].bytes@, 0, splits(autosplit, text[f].bytes@.len() as int))
}

/// The list of pieces that the source `name` is read in, when it is included
/// while the texts of `stack` are being read.
///
/// A name that no text bears stands for a file that is missing.  A text that
/// is being read already is not read again: the inclusion closes a cycle.
/// Else the text is read piece by piece.
pub open spec fn enter(
    text: Seq<SourceText>,
    name: Seq<u8>,
    stack: Seq<usize>,
    autosplit: bool,
) -> Seq<PlanView>
    decreases text.len() - stack.len(), 0nat,
    when stack_ok(text.len() as int, stack)
{
    match find_text(text, name, 0) {
        None => seq![error_plan(name, ErrorKind::Io)],
        Some(f) => if stack.contains(f as usize) {
            seq![error_plan(name, ErrorKind::Include)]
        } else {
            proof {
                lemma_find_text(text, name, 0);
                lemma_stack_room(text.len() as int, stack, f as usize);
            }
            expand(text, f as usize, stack.push(f as usize), autosplit, 0)
        },
    }
}

/// The list of pieces that text `f` is read in from its piece `k` on: every
/// piece, and behind a piece that ends with an inclusion what the included
/// source is read in.
pub open spec fn expand(
    text: Seq<SourceText>,
    f: usize,
    stack: Seq<usize>,
    autosplit: bool,
    k: nat,
) -> Seq<PlanView>
    decreases text.len() - stack.len(), pieces_of(text, f as int, autosplit).len() - k + 1,
    when stack_ok(text.len() as int, stack)
{
    let parts = pieces_of(text, f as int, autosplit);
    if k >= parts.len() {
        Seq::empty()
    } else {
        seq![piece_plan(text, f as int, parts[k as int])] + (match parts[k as int].inclusion {
            Some((a, b)) => enter(text, text[f as int].bytes@.subrange(a, b), stack, autosplit),
            None => Seq::empty(),
        }) + expand(text, f, stack, autosplit, k + 1)
    }
}

/// The list of pieces that a source configuration is read in: the source
/// `root` and, in place of every inclusion, the source it names.
pub open spec fn layout(text: Seq<SourceText>, root: Seq<u8>, autosplit: bool) -> Seq<PlanView> {
    enter(text, root, Seq::empty(), autosplit)
}

/// Finds the first text that bears the name `name`.
fn find(text: &Vec<SourceText>, name: &Vec<u8>) -> (found: Option<usize>)
    ensures
        match found {
            Some(f) => find_text(text@, name@, 0) == Some(f as int) && f < text@.len(),
            None => find_text(text@, name@, 0) is None,
        },
{
    let mut f: usize = 0;
    while f < text.len()
        invariant
            f <= text@.len(),
            find_text(text@, name@, 0) == find_text(text@, name@, f as int),
        decreases text@.len() - f,
    {
        if bytes_equal(&text[f].name, name) {
            return Some(f);
        }
        f += 1;
    }
    None
}

/// Whether text `f` is on the stack.
fn on_stack(stack: &Vec<usize>, f: usize) -> (r: bool)
    ensures
        r == stack@.contains(f),
{
    let mut i: usize = 0;
    while i < stack.len()
        invariant
            i <= stack@.len(),
            forall|k: int| 0 <= k < i ==> stack@[k] != f,
        decreases stack@.len() - i,
    {
        if stack[i] == f {
            return true;
        }
        i += 1;
    }
    false
}

/// The entry that stands for an error met at the source `name`.
fn error_entry(name: &Vec<u8>, kind: ErrorKind) -> (plan: PiecePlan)
    ensures
        plan@ == error_plan(name@, kind),
{
    let origin = copy_bytes(name, 0, name.len());
    assert(origin@ =~= name@);
    PiecePlan {
        piece: SourcePiece { origin, start: 0, end: 0, stamp: 0, digest: 0, from_file: false },
        text: 0,
        error: Some(kind),
    }
}

/// The entry for a piece of text `f`.
fn piece_entry(text: &Vec<SourceText>, f: usize, chunk: &Chunk) -> (plan: PiecePlan)
    requires
        f < text@.len(),
        chunk.start <= chunk.end <= text@[f as int].bytes@.len(),
    ensures
        plan@ == piece_plan(text@, f as int, chunk@),
{
    let source = &text[f];
    let (from_file, stamp, sum) = match source.mtime {
        Some(t) => (true, t, 0),
        None => (false, 0, digest(&source.bytes, chunk.start, chunk.end)),
    };
    let origin = copy_bytes(&source.name, 0, source.name.len());
    assert(origin@ =~= source.name@);
    PiecePlan {
        piece: SourcePiece {
            origin,
            start: chunk.start,
            end: chunk.end,
            stamp,
            digest: sum,
            from_file,
        },
        text: f,
        error: None,
    }
}

/// Adds to `out` the pieces that the source `name` is read in.
fn enter_text(
    text: &Vec<SourceText>,
    name: &Vec<u8>,
    stack: &mut Vec<usize>,
    autosplit: bool,
    out: &mut Vec<PiecePlan>,
)
    requires
        stack_ok(text@.len() as int, old(stack)@),
        plans_fit(old(out)@, text@),
    ensures
        final(stack)@ == old(stack)@,
        plan_views(final(out)@) == plan_views(old(out)@) + enter(
            text@,
            name@,
            old(stack)@,
            autosplit,
        ),
        plans_fit(final(out)@, text@),
    decreases text@.len() - old(stack)@.len(), 0nat,
{
    let ghost before = plan_views(out@);
    match find(text, name) {
        None => {
            out.push(error_entry(name, ErrorKind::Io));
            proof {
                assert(plan_views(out@) =~= before + seq![error_plan(name@, ErrorKind::Io)]);
            }
        },
        Some(f) => {
            if on_stack(stack, f) {
                out.push(error_entry(name, ErrorKind::Include));
                proof {
                    assert(plan_views(out@) =~= before + seq![
                        error_plan(name@, ErrorKind::Include),
                    ]);
                }
            } else {
                proof {
                    lemma_stack_room(text@.len() as int, stack@, f);
                }
                let source = &text[f];
                let chunks = cut(&source.bytes, autosplit && source.bytes.len() > SPLIT_THRESHOLD);
                stack.push(f);
                expand_text(text, f, stack, autosplit, &chunks, out);
                stack.pop();
                proof {
                    assert(stack@ =~= old(stack)@);
                }
            }
        },
    }
}

/// Adds to `out` the pieces that text `f` is read in: every piece of it, and
/// behind a piece that ends with an inclusion the pieces of the included
/// source.
fn expand_text(
    text: &Vec<SourceText>,
    f: usize,
    stack: &mut Vec<usize>,
    autosplit: bool,
    chunks: &Vec<Chunk>,
    out: &mut Vec<PiecePlan>,
)
    requires
        stack_ok(text@.len() as int, old(stack)@),
        f < text@.len(),
        chunk_views(chunks@) == pieces_of(text@, f as int, autosplit),
        chunks_within(chunk_views(chunks@), text@[f as int].bytes@.len() as int),
        plans_fit(old(out)@, text@),
    ensures
        final(stack)@ == old(stack)@,
        plan_views(final(out)@) == plan_views(old(out)@) + expand(
            text@,
            f,
            old(stack)@,
            autosplit,
            0,
        ),
        plans_fit(final(out)@, text@),
    decreases text@.len() - old(stack)@.len(), 1nat,
{
    let ghost before = plan_views(out@);
    let ghost whole = expand(text@, f, stack@, autosplit, 0);
    let mut k: usize = 0;
    proof {
        assert(plan_views(out@) + expand(text@, f, stack@, autosplit, 0) =~= before + whole);
    }
    while k < chunks.len()
        invariant
            k <= chunks@.len(),
            stack@ == old(stack)@,
            stack_ok(text@.len() as int, stack@),
            f < text@.len(),
            chunk_views(chunks@) == pieces_of(text@, f as int, autosplit),
            chunks_within(chunk_views(chunks@), text@[f as int].bytes@.len() as int),
            plans_fit(out@, text@),
            whole == expand(text@, f, old(stack)@, autosplit, 0),
            plan_views(out@) + expand(text@, f, stack@, autosplit, k as nat) == before + whole,
        decreases chunks@.len() - k,
    {
        let chunk = &chunks[k];
        let ghost done = plan_views(out@);
        let ghost parts = pieces_of(text@, f as int, autosplit);
        proof {
            assert(chunk_views(chunks@)[k as int] == chunk@);
            assert(parts[k as int] == chunk@);
        }
        out.push(piece_entry(text, f, chunk));
        let ghost one = seq![piece_plan(text@, f as int, chunk@)];
        let ghost mid = plan_views(out@);
        proof {
            assert(mid =~= done + one);
        }
        match chunk.inclusion {
            Some((a, b)) => {
                let name = copy_bytes(&text[f].bytes, a, b);
                enter_text(text, &name, stack, autosplit, out);
            },
            None => {},
        }
        proof {
            let inner = match parts[k as int].inclusion {
                Some((a, b)) => enter(
                    text@,
                    text@[f as int].bytes@.subrange(a, b),
                    stack@,
                    autosplit,
                ),
                None => Seq::<PlanView>::empty(),
            };
            assert(plan_views(out@) =~= mid + inner);
            assert(expand(text@, f, stack@, autosplit, k as nat) == one + inner + expand(
                text@,
                f,
                stack@,
                autosplit,
                (k + 1) as nat,
            ));
            assert(plan_views(out@) + expand(text@, f, stack@, autosplit, (k + 1) as nat) =~= done
                + expand(text@, f, stack@, autosplit, k as nat));
        }
        k += 1;
    }
    proof {
        assert(expand(text@, f, stack@, autosplit, k as nat) =~= Seq::<PlanView>::empty());
        assert(plan_views(out@) =~= before + whole);
    }
}

/// Lists the pieces that a source configuration is read in: the source
/// `root` and, in place of every inclusion, the source it names.
pub fn enumerate(root: &Vec<u8>, text: &Vec<SourceText>, autosplit: bool) -> (plans: Vec<PiecePlan>)
    ensures
        plan_views(plans@) == layout(text@, root@, autosplit),
        plans_fit(plans@, text@),
{
    let mut plans: Vec<PiecePlan> = Vec::new();
    let mut stack: Vec<usize> = Vec::new();
    enter_text(text, root, &mut stack, autosplit, &mut plans);
    proof {
        assert(plan_views(plans@) =~= layout(text@, root@, autosplit));
    }
    plans
}

} // verus!
