//! Open source documents: their text and version, the conversion between
//! byte offsets and line / UTF-16 column positions, and incremental edits.
//!
//! Positions are computed on the UTF-8 bytes of the text: a line ends at a
//! newline byte, and a column counts UTF-16 code units, two for a character
//! whose UTF-8 encoding takes four bytes and one for any other character.
use vstd::prelude::*;
use vstd::utf8::{encode_utf8, is_char_boundary, is_continuation_byte, is_leading_byte_width_4, valid_utf8};

verus! {

/// A zero-based line and a zero-based column in UTF-16 code units.
#[derive(Clone, Copy, PartialEq, Eq, Debug, Structural)]
pub struct Position {
    pub line: u32,
    pub character: u32,
}

impl Position {
    pub fn new(line: u32, character: u32) -> (p: Position)
        ensures
            p.line == line,
            p.character == character,
    {
        Position { line, character }
    }
}

/// A range between two positions.
#[derive(Clone, Copy, PartialEq, Eq, Debug, Structural)]
pub struct Range {
    pub start: Position,
    pub end: Position,
}

impl Range {
    pub fn new(start: Position, end: Position) -> (r: Range)
        ensures
            r.start == start,
            r.end == end,
    {
        Range { start, end }
    }
}

/// A zero-based row and a zero-based column in bytes.
#[derive(Clone, Copy, PartialEq, Eq, Debug, Structural)]
pub struct Point {
    pub row: usize,
    pub column: usize,
}

impl Point {
    pub fn new(row: usize, column: usize) -> (p: Point)
        ensures
            p.row == row,
            p.column == column,
    {
        Point { row, column }
    }
}

/// A byte range of a document with the points of its ends.
#[derive(Clone, Copy, PartialEq, Eq, Debug, Structural)]
pub struct ByteSpan {
    pub start_byte: usize,
    pub end_byte: usize,
    pub start_point: Point,
    pub end_point: Point,
}

/// Description of one edit of a text, for an incremental parser: the
/// replaced bytes `start_byte..old_end_byte` now span
/// `start_byte..new_end_byte`.
#[derive(Clone, Copy, PartialEq, Eq, Debug, Structural)]
pub struct InputEdit {
    pub start_byte: usize,
    pub old_end_byte: usize,
    pub new_end_byte: usize,
    pub start_position: Point,
    pub old_end_position: Point,
    pub new_end_position: Point,
}

/// The edit that one applied change made.
#[derive(Clone, Copy, PartialEq, Eq, Debug, Structural)]
pub struct AppliedDocumentChange {
    pub input_edit: InputEdit,
}

/// A change of a document: `text` replaces `range`, or the whole document
/// when there is no range.
pub struct TextChange {
    pub range: Option<Range>,
    pub text: String,
}

/// Why a position, an offset or a change was refused.
#[derive(Debug, Clone, PartialEq, Eq)]
pub enum SourceError {
    DocumentNotOpen(String),
    InvalidLine { line: u32 },
    InvalidCharacter { line: u32, character: u32 },
    InvalidByteOffset { byte_offset: usize },
    InvalidCharacterBoundary { byte_offset: usize },
}

/// The newline byte.
pub open spec fn is_newline(b: u8) -> bool {
    b == 10
}

/// Number of newline bytes in `s`.
pub open spec fn newlines(s: Seq<u8>) -> nat
    decreases s.len(),
{
    if s.len() == 0 {
        0
    } else {
        newlines(s.drop_last()) + if is_newline(s.last()) {
            1nat
        } else {
            0nat
        }
    }
}

/// Offset at which the last line of `s` begins: just after its last
/// newline, or `0`.
pub open spec fn last_line_start(s: Seq<u8>) -> int
    decreases s.len(),
{
    if s.len() == 0 {
        0
    } else if is_newline(s.last()) {
        s.len() as int
    } else {
        last_line_start(s.drop_last())
    }
}

/// UTF-16 code units of the character that a byte begins: none for a
/// continuation byte, two for the first byte of a four-byte sequence, one
/// otherwise.
pub open spec fn byte_units(b: u8) -> nat {
    if is_continuation_byte(b) {
        0
    } else if is_leading_byte_width_4(b) {
        2
    } else {
        1
    }
}

/// UTF-16 length of the characters encoded in `s`.
pub open spec fn utf16_units(s: Seq<u8>) -> nat
    decreases s.len(),
{
    if s.len() == 0 {
        0
    } else {
        utf16_units(s.drop_last()) + byte_units(s.last())
    }
}

/// Byte offset `k` of `b` lies at position `p`: it is a character boundary,
/// `p.line` newlines precede it, and `p.character` UTF-16 units separate it
/// from the start of its line.
pub open spec fn position_at(b: Seq<u8>, p: Position, k: int) -> bool {
    &&& 0 <= k <= b.len()
    &&& is_char_boundary(b, k)
    &&& newlines(b.take(k)) == p.line
    &&& utf16_units(b.subrange(last_line_start(b.take(k)), k)) == p.character
}

/// The offset of a position: the line must exist, and the column must fall
/// on a character of that line or just after its last one.
pub open spec fn spec_position_offset(b: Seq<u8>, p: Position) -> Result<int, SourceError> {
    if newlines(b) < p.line {
        Err(SourceError::InvalidLine { line: p.line })
    } else if exists|k: int| position_at(b, p, k) {
        Ok(choose|k: int| position_at(b, p, k))
    } else {
        Err(SourceError::InvalidCharacter { line: p.line, character: p.character })
    }
}

/// The position of an offset (line and column truncated to 32 bits, as the
/// protocol carries them).
pub open spec fn spec_offset_position(b: Seq<u8>, k: int) -> Result<Position, SourceError> {
    if k > b.len() {
        Err(SourceError::InvalidByteOffset { byte_offset: k as usize })
    } else if !is_char_boundary(b, k) {
        Err(SourceError::InvalidCharacterBoundary { byte_offset: k as usize })
    } else {
        Ok(
            Position {
                line: newlines(b.take(k)) as u32,
                character: utf16_units(b.subrange(last_line_start(b.take(k)), k)) as u32,
            },
        )
    }
}

/// The point of offset `k` on line `line`.
pub open spec fn spec_point_of(b: Seq<u8>, line: u32, k: int) -> Point {
    Point { row: line as usize, column: (k - last_line_start(b.take(k))) as usize }
}

/// The point reached from `start` by writing the text `t`.
pub open spec fn spec_point_after(start: Point, t: Seq<u8>) -> Point {
    if newlines(t) > 0 {
        Point { row: (start.row + newlines(t)) as usize, column: (t.len() - last_line_start(t)) as usize }
    } else {
        Point { row: start.row, column: (start.column + t.len()) as usize }
    }
}

/// Offset `k` begins line `line`.
pub open spec fn line_begins(b: Seq<u8>, line: u32, k: int) -> bool {
    ||| line == 0 && k == 0
    ||| 0 < k <= b.len() && is_newline(b[k - 1]) && newlines(b.take(k)) == line
}

proof fn lemma_newlines_split(s: Seq<u8>, i: int, j: int)
    requires
        0 <= i <= j <= s.len(),
    ensures
        newlines(s.take(j)) == newlines(s.take(i)) + newlines(s.subrange(i, j)),
    decreases j - i,
{
    if j > i {
        lemma_newlines_split(s, i, j - 1);
        assert(s.take(j).drop_last() =~= s.take(j - 1));
        assert(s.subrange(i, j).drop_last() =~= s.subrange(i, j - 1));
    } else {
        assert(s.subrange(i, j) =~= Seq::<u8>::empty());
    }
}

proof fn lemma_units_split(s: Seq<u8>, a: int, i: int, j: int)
    requires
        0 <= a <= i <= j <= s.len(),
    ensures
        utf16_units(s.subrange(a, j)) == utf16_units(s.subrange(a, i)) + utf16_units(s.subrange(i, j)),
    decreases j - i,
{
    if j > i {
        lemma_units_split(s, a, i, j - 1);
        assert(s.subrange(a, j).drop_last() =~= s.subrange(a, j - 1));
        assert(s.subrange(i, j).drop_last() =~= s.subrange(i, j - 1));
    } else {
        assert(s.subrange(i, j) =~= Seq::<u8>::empty());
    }
}

/// No newline among the bytes `i..j`.
pub open spec fn no_newline(s: Seq<u8>, i: int, j: int) -> bool {
    forall|m: int| i <= m < j ==> !is_newline(#[trigger] s[m])
}

proof fn lemma_no_newline_count(s: Seq<u8>, i: int, j: int)
    requires
        0 <= i <= j <= s.len(),
    ensures
        no_newline(s, i, j) <==> newlines(s.subrange(i, j)) == 0,
    decreases j - i,
{
    if j > i {
        lemma_no_newline_count(s, i, j - 1);
        assert(s.subrange(i, j).drop_last() =~= s.subrange(i, j - 1));
    } else {
        assert(s.subrange(i, j) =~= Seq::<u8>::empty());
    }
}

proof fn lemma_last_line_start_within(s: Seq<u8>, ls: int, k: int)
    requires
        0 <= ls <= k <= s.len(),
        ls == 0 || is_newline(s[ls - 1]),
        no_newline(s, ls, k),
    ensures
        last_line_start(s.take(k)) == ls,
    decreases k,
{
    if k > ls {
        assert(s.take(k).drop_last() =~= s.take(k - 1));
        lemma_last_line_start_within(s, ls, k - 1);
    } else if ls > 0 {
        assert(s.take(k).last() == s[ls - 1]);
    }
}

/// Where a line begins and ends, every offset with as many preceding
/// newlines lies within it.
proof fn lemma_offset_in_line(b: Seq<u8>, line: u32, ls: int, le: int, k: int)
    requires
        line_begins(b, line, ls),
        ls <= le <= b.len(),
        no_newline(b, ls, le),
        le == b.len() || is_newline(b[le]),
        0 <= k <= b.len(),
        newlines(b.take(k)) == line,
    ensures
        ls <= k <= le,
        last_line_start(b.take(k)) == ls,
{
    if k < ls {
        lemma_newlines_split(b, k, ls - 1);
        assert(b.take(ls).drop_last() =~= b.take(ls - 1));
    }
    lemma_newlines_split(b, ls, le);
    lemma_no_newline_count(b, ls, le);
    assert(b.take(ls) =~= b.take(ls));
    if line == 0 && ls == 0 {
        assert(newlines(b.take(0)) == 0) by {
            assert(b.take(0) =~= Seq::<u8>::empty());
        }
    }
    if k > le {
        lemma_newlines_split(b, le + 1, k);
        assert(b.take(le + 1).drop_last() =~= b.take(le));
    }
    lemma_no_newline_count(b, ls, k);
    if k >= ls && k <= le {
        assert forall|m: int| ls <= m < k implies !is_newline(#[trigger] b[m]) by {
            assert(b[m] == b[m]);
        }
        lemma_last_line_start_within(b, ls, k);
    }
}

/// Two offsets at the same position are equal.
pub proof fn lemma_position_unique(b: Seq<u8>, p: Position, k1: int, k2: int)
    requires
        valid_utf8(b),
        position_at(b, p, k1),
        position_at(b, p, k2),
    ensures
        k1 == k2,
{
    if k1 != k2 {
        let (lo, hi) = if k1 < k2 {
            (k1, k2)
        } else {
            (k2, k1)
        };
        lemma_newlines_split(b, lo, hi);
        lemma_no_newline_count(b, lo, hi);
        let ls = last_line_start(b.take(lo));
        lemma_line_start_bounds(b, lo);
        assert forall|m: int| ls <= m < hi implies !is_newline(#[trigger] b[m]) by {
            if m >= lo {
                assert(b[m] == b.subrange(lo, hi)[m - lo]);
            } else {
                lemma_after_line_start(b, lo, m);
            }
        }
        lemma_last_line_start_within(b, ls, hi);
        lemma_units_split(b, ls, lo, hi);
        lemma_units_split(b, lo, lo, lo + 1);
        lemma_units_split(b, lo, lo + 1, hi);
        assert(b.subrange(lo, lo + 1).drop_last() =~= b.subrange(lo, lo));
        vstd::utf8::is_char_boundary_iff_not_is_continuation_byte(b, lo);
    }
}

proof fn lemma_line_start_bounds(b: Seq<u8>, k: int)
    requires
        0 <= k <= b.len(),
    ensures
        0 <= last_line_start(b.take(k)) <= k,
        last_line_start(b.take(k)) == 0 || is_newline(b[last_line_start(b.take(k)) - 1]),
    decreases k,
{
    if k > 0 {
        assert(b.take(k).drop_last() =~= b.take(k - 1));
        lemma_line_start_bounds(b, k - 1);
    }
}

proof fn lemma_after_line_start(b: Seq<u8>, k: int, m: int)
    requires
        0 <= k <= b.len(),
        last_line_start(b.take(k)) <= m < k,
    ensures
        !is_newline(b[m]),
    decreases k,
{
    if k > 0 {
        assert(b.take(k).drop_last() =~= b.take(k - 1));
        if m < k - 1 {
            lemma_after_line_start(b, k - 1, m);
        }
    }
}

/// Where line `line` begins.
fn line_start_offset(bytes: &[u8], line: u32) -> (r: Result<usize, SourceError>)
    ensures
        match r {
            Ok(k) => line_begins(bytes@, line, k as int),
            Err(e) => newlines(bytes@) < line && e == SourceError::InvalidLine { line },
        },
{
    if line == 0 {
        return Ok(0);
    }
    let mut current_line: u32 = 0;
    let mut idx: usize = 0;
    while idx < bytes.len()
        invariant
            0 < line,
            idx <= bytes@.len(),
            current_line as nat == newlines(bytes@.take(idx as int)),
            current_line < line,
        decreases bytes@.len() - idx,
    {
        assert(bytes@.take(idx + 1).drop_last() =~= bytes@.take(idx as int));
        if bytes[idx] == 10 {
            current_line = current_line + 1;
            if current_line == line {
                return Ok(idx + 1);
            }
        }
        idx = idx + 1;
    }
    assert(bytes@.take(idx as int) =~= bytes@);
    Err(SourceError::InvalidLine { line })
}

/// The offset of column `character` on the line that begins at
/// `line_start`.
fn position_to_byte_offset_on_line(bytes: &[u8], line_start: usize, line: u32, character: u32) -> (r: Result<
    usize,
    SourceError,
>)
    requires
        valid_utf8(bytes@),
        line_begins(bytes@, line, line_start as int),
    ensures
        match r {
            Ok(k) => position_at(bytes@, Position { line, character }, k as int),
            Err(e) => e == (SourceError::InvalidCharacter { line, character }) && forall|k: int|
                !#[trigger] position_at(bytes@, Position { line, character }, k),
        },
{
    let ghost b = bytes@;
    let ghost p = Position { line, character };
    let ghost ls = line_start as int;
    let target = character as u64;
    let mut le: usize = line_start;
    while le < bytes.len() && bytes[le] != 10
        invariant
            b == bytes@,
            ls == line_start as int,
            line_start <= le <= b.len(),
            no_newline(b, ls, le as int),
        decreases b.len() - le,
    {
        le = le + 1;
    }
    proof {
        vstd::utf8::is_char_boundary_start_end_of_seq(b);
        if le < b.len() {
            vstd::utf8::is_char_boundary_iff_not_is_continuation_byte(b, le as int);
        }
        lemma_newlines_split(b, ls, ls);
        assert(b.subrange(ls, ls) =~= Seq::<u8>::empty());
        if line == 0 {
            assert(b.take(0) =~= Seq::<u8>::empty());
        }
    }
    let mut consumed: u64 = 0;
    let mut i: usize = line_start;
    while i < le
        invariant
            b == bytes@,
            valid_utf8(b),
            ls == line_start as int,
            p == (Position { line, character }),
            line_start <= i <= le <= b.len(),
            line_begins(b, line, ls),
            no_newline(b, ls, le as int),
            le == b.len() || is_newline(b[le as int]),
            target == character,
            consumed == utf16_units(b.subrange(ls, i as int)),
            consumed <= target,
            forall|k: int| ls <= k < i ==> !#[trigger] position_at(b, p, k),
        decreases le - i,
    {
        proof {
            vstd::utf8::is_char_boundary_iff_not_is_continuation_byte(b, i as int);
            lemma_no_newline_count(b, ls, i as int);
            lemma_newlines_split(b, ls, i as int);
            assert forall|m: int| ls <= m < i implies !is_newline(#[trigger] b[m]) by {
                assert(b[m] == b[m]);
            }
            lemma_last_line_start_within(b, ls, i as int);
            if line == 0 {
                assert(b.take(0) =~= Seq::<u8>::empty());
            }
        }
        let byte = bytes[i];
        let is_start = !(0x80 <= byte && byte <= 0xbf);
        if is_start && consumed == target {
            return Ok(i);
        }
        let units: u64 = if !is_start {
            0
        } else if 0xf0 <= byte && byte <= 0xf7 {
            2
        } else {
            1
        };
        proof {
            assert(b.subrange(ls, i + 1).drop_last() =~= b.subrange(ls, i as int));
        }
        consumed = consumed + units;
        if consumed > target {
            proof {
                assert forall|k: int| !#[trigger] position_at(b, p, k) by {
                    if position_at(b, p, k) {
                        lemma_offset_in_line(b, line, ls, le as int, k);
                        if k > i {
                            lemma_units_split(b, ls, i + 1, k);
                        }
                    }
                }
            }
            return Err(SourceError::InvalidCharacter { line, character });
        }
        i = i + 1;
    }
    proof {
        lemma_no_newline_count(b, ls, le as int);
        lemma_newlines_split(b, ls, le as int);
        lemma_last_line_start_within(b, ls, le as int);
        if line == 0 {
            assert(b.take(0) =~= Seq::<u8>::empty());
        }
    }
    if consumed == target {
        Ok(le)
    } else {
        proof {
            assert forall|k: int| !#[trigger] position_at(b, p, k) by {
                if position_at(b, p, k) {
                    lemma_offset_in_line(b, line, ls, le as int, k);
                }
            }
        }
        Err(SourceError::InvalidCharacter { line, character })
    }
}

/// The UTF-8 bytes of a string.
fn bytes_of(s: &String) -> (b: &[u8])
    ensures
        b@ == encode_utf8(s@),
        valid_utf8(b@),
{
    proof {
        vstd::utf8::encode_utf8_valid_utf8(s@);
    }
    s.as_str().as_bytes()
}

/// The point reached from `start` by writing `t`.
fn point_after(start: Point, t: &[u8]) -> (r: Point)
    requires
        start.row + t@.len() <= usize::MAX,
        start.column + t@.len() <= usize::MAX,
    ensures
        r == spec_point_after(start, t@),
{
    let mut count: usize = 0;
    let mut line_start: usize = 0;
    let mut i: usize = 0;
    while i < t.len()
        invariant
            i <= t@.len(),
            count as nat == newlines(t@.take(i as int)),
            line_start as int == last_line_start(t@.take(i as int)),
            count <= i,
            line_start <= i,
        decreases t@.len() - i,
    {
        assert(t@.take(i + 1).drop_last() =~= t@.take(i as int));
        if t[i] == 10 {
            count = count + 1;
            line_start = i + 1;
        }
        i = i + 1;
    }
    assert(t@.take(i as int) =~= t@);
    if count > 0 {
        Point { row: start.row + count, column: t.len() - line_start }
    } else {
        Point { row: start.row, column: start.column + t.len() }
    }
}

/// The span of a whole text.
pub open spec fn spec_full_span(b: Seq<u8>) -> ByteSpan {
    ByteSpan {
        start_byte: 0,
        end_byte: b.len() as usize,
        start_point: Point { row: 0, column: 0 },
        end_point: spec_point_after(Point { row: 0, column: 0 }, b),
    }
}

/// The positions of two offsets.
pub open spec fn spec_offset_range(b: Seq<u8>, start: int, end: int) -> Result<Range, SourceError> {
    match spec_offset_position(b, start) {
        Err(e) => Err(e),
        Ok(s) => match spec_offset_position(b, end) {
            Err(e) => Err(e),
            Ok(t) => Ok(Range { start: s, end: t }),
        },
    }
}

/// The byte span of a range.
pub open spec fn spec_byte_span(b: Seq<u8>, r: Range) -> Result<ByteSpan, SourceError> {
    match spec_position_offset(b, r.start) {
        Err(e) => Err(e),
        Ok(s) => match spec_position_offset(b, r.end) {
            Err(e) => Err(e),
            Ok(t) => Ok(
                ByteSpan {
                    start_byte: s as usize,
                    end_byte: t as usize,
                    start_point: spec_point_of(b, r.start.line, s),
                    end_point: spec_point_of(b, r.end.line, t),
                },
            ),
        },
    }
}

/// Mathematical value of a document.
pub struct DocumentModel {
    pub version: i32,
    pub text: Seq<char>,
}

/// The bytes of a document.
pub open spec fn doc_bytes(d: DocumentModel) -> Seq<u8> {
    encode_utf8(d.text)
}

/// The line of a byte offset and the offset at which that line starts.
fn line_info_for_offset(text: &String, byte_offset: usize) -> (r: Result<(usize, usize), SourceError>)
    ensures
        ({
            let b = encode_utf8(text@);
            let k = byte_offset as int;
            match r {
                Ok((line, start)) => {
                    &&& k <= b.len()
                    &&& is_char_boundary(b, k)
                    &&& line as nat == newlines(b.take(k))
                    &&& start as int == last_line_start(b.take(k))
                    &&& line <= byte_offset
                    &&& start <= byte_offset
                },
                Err(e) => spec_offset_position(b, k) == Err::<Position, SourceError>(e),
            }
        }),
{
    let bytes = bytes_of(text);
    if byte_offset > bytes.len() {
        return Err(SourceError::InvalidByteOffset { byte_offset });
    }
    if !text.as_str().is_char_boundary(byte_offset) {
        return Err(SourceError::InvalidCharacterBoundary { byte_offset });
    }
    let ghost b = bytes@;
    let mut line: usize = 0;
    let mut line_start: usize = 0;
    let mut i: usize = 0;
    while i < byte_offset
        invariant
            b == bytes@,
            byte_offset <= b.len(),
            i <= byte_offset,
            line as nat == newlines(b.take(i as int)),
            line_start as int == last_line_start(b.take(i as int)),
            line <= i,
            line_start <= i,
        decreases byte_offset - i,
    {
        assert(b.take(i + 1).drop_last() =~= b.take(i as int));
        if bytes[i] == 10 {
            line = line + 1;
            line_start = i + 1;
        }
        i = i + 1;
    }
    Ok((line, line_start))
}

/// An open document: its text and the version the client gave it.
#[derive(Debug, Clone, PartialEq, Eq)]
pub struct SourceDocument {
    version: i32,
    text: String,
}

impl View for SourceDocument {
    type V = DocumentModel;

    closed spec fn view(&self) -> DocumentModel {
        DocumentModel { version: self.version, text: self.text@ }
    }
}

/// Offsets found by `line_start_offset` and `position_to_byte_offset_on_line`
/// are those of `spec_position_offset`.
proof fn lemma_offset_result(b: Seq<u8>, p: Position, k: int)
    requires
        valid_utf8(b),
        position_at(b, p, k),
    ensures
        spec_position_offset(b, p) == Ok::<int, SourceError>(k),
{
    lemma_newlines_split(b, k, b.len() as int);
    assert(b.take(b.len() as int) =~= b);
    let c = choose|c: int| position_at(b, p, c);
    lemma_position_unique(b, p, k, c);
}

impl SourceDocument {
    pub fn new(version: i32, text: String) -> (d: SourceDocument)
        ensures
            d@ == (DocumentModel { version, text: text@ }),
    {
        SourceDocument { version, text }
    }

    pub fn version(&self) -> (v: i32)
        ensures
            v == self@.version,
    {
        self.version
    }

    pub fn text(&self) -> (t: &str)
        ensures
            t@ == self@.text,
    {
        self.text.as_str()
    }

    pub fn set_version(&mut self, version: i32)
        ensures
            final(self)@ == (DocumentModel { version, text: old(self)@.text }),
    {
        self.version = version;
    }

    /// The span of the whole text.
    pub fn full_span(&self) -> (s: ByteSpan)
        ensures
            s == spec_full_span(doc_bytes(self@)),
    {
        let bytes = bytes_of(&self.text);
        ByteSpan {
            start_byte: 0,
            end_byte: bytes.len(),
            start_point: Point { row: 0, column: 0 },
            end_point: point_after(Point { row: 0, column: 0 }, bytes),
        }
    }

    /// The byte offset of a position.
    pub fn position_to_byte_offset(&self, position: Position) -> (r: Result<usize, SourceError>)
        ensures
            match r {
                Ok(k) => spec_position_offset(doc_bytes(self@), position) == Ok::<int, SourceError>(k as int),
                Err(e) => spec_position_offset(doc_bytes(self@), position) == Err::<int, SourceError>(e),
            },
    {
        let bytes = bytes_of(&self.text);
        let line_start = match line_start_offset(bytes, position.line) {
            Ok(k) => k,
            Err(e) => {
                return Err(e);
            },
        };
        proof {
            lemma_newlines_split(bytes@, line_start as int, bytes@.len() as int);
            assert(bytes@.take(bytes@.len() as int) =~= bytes@);
            if position.line == 0 {
                assert(bytes@.take(0) =~= Seq::<u8>::empty());
            }
        }
        let r = position_to_byte_offset_on_line(bytes, line_start, position.line, position.character);
        proof {
            assert(position == Position { line: position.line, character: position.character });
            match r {
                Ok(k) => {
                    lemma_offset_result(bytes@, position, k as int);
                },
                Err(_) => {},
            }
        }
        r
    }

    /// The point (row and byte column) of a position.
    pub fn position_to_point(&self, position: Position) -> (r: Result<Point, SourceError>)
        ensures
            r == match spec_position_offset(doc_bytes(self@), position) {
                Ok(k) => Ok(spec_point_of(doc_bytes(self@), position.line, k)),
                Err(e) => Err(e),
            },
    {
        let bytes = bytes_of(&self.text);
        let line_start = match line_start_offset(bytes, position.line) {
            Ok(k) => k,
            Err(e) => {
                return Err(e);
            },
        };
        proof {
            lemma_newlines_split(bytes@, line_start as int, bytes@.len() as int);
            assert(bytes@.take(bytes@.len() as int) =~= bytes@);
            if position.line == 0 {
                assert(bytes@.take(0) =~= Seq::<u8>::empty());
            }
        }
        let byte_offset = match position_to_byte_offset_on_line(
            bytes,
            line_start,
            position.line,
            position.character,
        ) {
            Ok(k) => k,
            Err(e) => {
                return Err(e);
            },
        };
        proof {
            assert(position == Position { line: position.line, character: position.character });
            lemma_offset_result(bytes@, position, byte_offset as int);
            lemma_line_of_offset(bytes@, position.line, line_start as int, byte_offset as int);
        }
        Ok(Point { row: position.line as usize, column: byte_offset - line_start })
    }

    /// The position of a byte offset.
    pub fn byte_offset_to_position(&self, byte_offset: usize) -> (r: Result<Position, SourceError>)
        ensures
            r == spec_offset_position(doc_bytes(self@), byte_offset as int),
    {
        let (line, line_start) = match line_info_for_offset(&self.text, byte_offset) {
            Ok(info) => info,
            Err(e) => {
                return Err(e);
            },
        };
        let bytes = bytes_of(&self.text);
        let ghost b = bytes@;
        let ghost ls = line_start as int;
        let mut units: u128 = 0;
        let mut j: usize = line_start;
        assert(b.subrange(ls, ls) =~= Seq::<u8>::empty());
        while j < byte_offset
            invariant
                b == bytes@,
                byte_offset <= b.len(),
                ls == line_start as int,
                line_start <= j <= byte_offset,
                units == utf16_units(b.subrange(ls, j as int)),
                units <= 2 * (j - line_start),
            decreases byte_offset - j,
        {
            assert(b.subrange(ls, j + 1).drop_last() =~= b.subrange(ls, j as int));
            let byte = bytes[j];
            let u: u128 = if 0x80 <= byte && byte <= 0xbf {
                0
            } else if 0xf0 <= byte && byte <= 0xf7 {
                2
            } else {
                1
            };
            units = units + u;
            j = j + 1;
        }
        Ok(Position { line: line as u32, character: units as u32 })
    }

    /// The positions of two byte offsets.
    pub fn byte_range_to_lsp_range(&self, start_byte: usize, end_byte: usize) -> (r: Result<Range, SourceError>)
        ensures
            r == spec_offset_range(doc_bytes(self@), start_byte as int, end_byte as int),
    {
        let start = match self.byte_offset_to_position(start_byte) {
            Ok(p) => p,
            Err(e) => {
                return Err(e);
            },
        };
        let end = match self.byte_offset_to_position(end_byte) {
            Ok(p) => p,
            Err(e) => {
                return Err(e);
            },
        };
        Ok(Range { start, end })
    }

    /// The byte span of a range.
    pub fn byte_span_for_range(&self, range: Range) -> (r: Result<ByteSpan, SourceError>)
        ensures
            r == spec_byte_span(doc_bytes(self@), range),
    {
        let start_byte = match self.position_to_byte_offset(range.start) {
            Ok(k) => k,
            Err(e) => {
                return Err(e);
            },
        };
        let end_byte = match self.position_to_byte_offset(range.end) {
            Ok(k) => k,
            Err(e) => {
                return Err(e);
            },
        };
        let start_point = match self.position_to_point(range.start) {
            Ok(p) => p,
            Err(e) => {
                return Err(e);
            },
        };
        let end_point = match self.position_to_point(range.end) {
            Ok(p) => p,
            Err(e) => {
                return Err(e);
            },
        };
        Ok(ByteSpan { start_byte, end_byte, start_point, end_point })
    }
}

proof fn lemma_line_of_offset(b: Seq<u8>, line: u32, ls: int, k: int)
    requires
        line_begins(b, line, ls),
        0 <= k <= b.len(),
        newlines(b.take(k)) == line,
    ensures
        ls <= k,
        last_line_start(b.take(k)) == ls,
        no_newline(b, ls, k),
{
    if line == 0 {
        assert(b.take(0) =~= Seq::<u8>::empty());
    }
    if k < ls {
        lemma_newlines_split(b, k, ls - 1);
        assert(b.take(ls).drop_last() =~= b.take(ls - 1));
    }
    lemma_newlines_split(b, ls, k);
    lemma_no_newline_count(b, ls, k);
    lemma_last_line_start_within(b, ls, k);
}

proof fn lemma_encode_concat(a: Seq<char>, b: Seq<char>)
    ensures
        encode_utf8(a + b) == encode_utf8(a) + encode_utf8(b),
    decreases a.len(),
{
    if a.len() == 0 {
        assert(a + b =~= b);
        assert(encode_utf8(a) =~= Seq::<u8>::empty());
        assert(encode_utf8(a) + encode_utf8(b) =~= encode_utf8(b));
    } else {
        assert((a + b).drop_first() =~= a.drop_first() + b);
        assert((a + b)[0] == a[0]);
        lemma_encode_concat(a.drop_first(), b);
        assert(encode_utf8(a + b) =~= encode_utf8(a) + encode_utf8(b));
    }
}

/// `b` with the bytes `s..e` replaced by `t`.
pub open spec fn splice(b: Seq<u8>, s: int, e: int, t: Seq<u8>) -> Seq<u8> {
    b.subrange(0, s) + t + b.subrange(e, b.len() as int)
}

/// The span a change replaces.
pub open spec fn spec_change_span(b: Seq<u8>, range: Option<Range>) -> Result<ByteSpan, SourceError> {
    match range {
        Some(r) => spec_byte_span(b, r),
        None => Ok(spec_full_span(b)),
    }
}

/// The edit that replacing `span` by `t` makes.
pub open spec fn spec_edit(span: ByteSpan, t: Seq<u8>) -> InputEdit {
    InputEdit {
        start_byte: span.start_byte,
        old_end_byte: span.end_byte,
        new_end_byte: (span.start_byte + t.len()) as usize,
        start_position: span.start_point,
        old_end_position: span.end_point,
        new_end_position: spec_point_after(span.start_point, t),
    }
}

/// A change can be applied: its range does not end before it starts, and
/// the texts involved fit in memory together.
pub open spec fn change_ok(d: DocumentModel, c: TextChange) -> bool {
    &&& doc_bytes(d).len() + encode_utf8(c.text@).len() <= usize::MAX
    &&& match spec_change_span(doc_bytes(d), c.range) {
        Ok(span) => span.start_byte <= span.end_byte,
        Err(_) => true,
    }
}

/// The document after a change, and the edit it made.
pub open spec fn spec_apply_change(d: DocumentModel, c: TextChange) -> Result<(DocumentModel, InputEdit), SourceError> {
    let b = doc_bytes(d);
    match spec_change_span(b, c.range) {
        Err(e) => Err(e),
        Ok(span) => Ok(
            (
                DocumentModel {
                    version: d.version,
                    text: vstd::utf8::decode_utf8(
                        splice(b, span.start_byte as int, span.end_byte as int, encode_utf8(c.text@)),
                    ),
                },
                spec_edit(span, encode_utf8(c.text@)),
            ),
        ),
    }
}

/// `text` with the bytes `s..e` replaced by `t`.
fn splice_text(text: &String, s: usize, e: usize, t: &str) -> (r: String)
    requires
        s <= e <= encode_utf8(text@).len(),
        is_char_boundary(encode_utf8(text@), s as int),
        is_char_boundary(encode_utf8(text@), e as int),
    ensures
        encode_utf8(r@) == splice(encode_utf8(text@), s as int, e as int, encode_utf8(t@)),
        r@ == vstd::utf8::decode_utf8(splice(encode_utf8(text@), s as int, e as int, encode_utf8(t@))),
{
    let (left, _) = text.as_str().split_at(s);
    let (_, right) = text.as_str().split_at(e);
    let mut out = crate::text::owned(left);
    crate::text::push_str(&mut out, t);
    crate::text::push_str(&mut out, right);
    proof {
        lemma_encode_concat(left@ + t@, right@);
        lemma_encode_concat(left@, t@);
        vstd::utf8::encode_utf8_decode_utf8(out@);
    }
    out
}

/// Whether the span found for a change lies on character boundaries in
/// order.
proof fn lemma_span_boundaries(b: Seq<u8>, range: Option<Range>, span: ByteSpan)
    requires
        valid_utf8(b),
        b.len() <= usize::MAX,
        spec_change_span(b, range) == Ok::<ByteSpan, SourceError>(span),
    ensures
        span.start_byte <= b.len(),
        span.end_byte <= b.len(),
        is_char_boundary(b, span.start_byte as int),
        is_char_boundary(b, span.end_byte as int),
        span.start_point.row <= b.len(),
        span.start_point.column <= b.len(),
{
    vstd::utf8::is_char_boundary_start_end_of_seq(b);
    match range {
        Some(r) => {
            let s = choose|k: int| position_at(b, r.start, k);
            let e = choose|k: int| position_at(b, r.end, k);
            assert(newlines(b) >= r.start.line);
            assert(exists|k: int| position_at(b, r.start, k));
            assert(exists|k: int| position_at(b, r.end, k));
            assert(position_at(b, r.start, s));
            assert(position_at(b, r.end, e));
            lemma_line_start_bounds(b, s);
            lemma_newlines_split(b, s, b.len() as int);
            assert(b.take(b.len() as int) =~= b);
            lemma_newlines_le_len(b);
        },
        None => {},
    }
}

proof fn lemma_newlines_le_len(s: Seq<u8>)
    ensures
        newlines(s) <= s.len(),
    decreases s.len(),
{
    if s.len() > 0 {
        lemma_newlines_le_len(s.drop_last());
    }
}

impl SourceDocument {
    /// Applies one change.
    fn apply_change(&mut self, change: &TextChange) -> (r: Result<AppliedDocumentChange, SourceError>)
        requires
            change_ok(old(self)@, *change),
        ensures
            match spec_apply_change(old(self)@, *change) {
                Ok((d, edit)) => r == Ok::<AppliedDocumentChange, SourceError>(AppliedDocumentChange { input_edit: edit })
                    && final(self)@ == d,
                Err(e) => r == Err::<AppliedDocumentChange, SourceError>(e) && final(self)@ == old(self)@,
            },
    {
        let ghost b = doc_bytes(self@);
        let old_span = match &change.range {
            Some(range) => match self.byte_span_for_range(*range) {
                Ok(span) => span,
                Err(e) => {
                    return Err(e);
                },
            },
            None => self.full_span(),
        };
        let bytes = bytes_of(&self.text);
        let new_bytes = bytes_of(&change.text);
        proof {
            lemma_span_boundaries(b, change.range, old_span);
        }
        let new_end_position = point_after(old_span.start_point, new_bytes);
        let new_end_byte = old_span.start_byte + new_bytes.len();
        let new_text = splice_text(&self.text, old_span.start_byte, old_span.end_byte, change.text.as_str());
        self.text = new_text;
        Ok(
            AppliedDocumentChange {
                input_edit: InputEdit {
                    start_byte: old_span.start_byte,
                    old_end_byte: old_span.end_byte,
                    new_end_byte,
                    start_position: old_span.start_point,
                    old_end_position: old_span.end_point,
                    new_end_position,
                },
            },
        )
    }
}

/// Entry `(uri, document)` lists have each key once.
pub open spec fn keys_distinct(s: Seq<(String, SourceDocument)>) -> bool {
    forall|i: int, j: int| 0 <= i < j < s.len() ==> (#[trigger] s[i]).0@ != (#[trigger] s[j]).0@
}

pub open spec fn has_key(s: Seq<(String, SourceDocument)>, k: Seq<char>) -> bool {
    exists|i: int| 0 <= i < s.len() && (#[trigger] s[i]).0@ == k
}

pub open spec fn key_position(s: Seq<(String, SourceDocument)>, k: Seq<char>) -> int {
    choose|i: int| 0 <= i < s.len() && (#[trigger] s[i]).0@ == k
}

/// The documents of an entry list, by URI.
pub open spec fn entries_view(s: Seq<(String, SourceDocument)>) -> Map<Seq<char>, DocumentModel> {
    Map::new(|k: Seq<char>| has_key(s, k), |k: Seq<char>| s[key_position(s, k)].1@)
}

proof fn lemma_entry_lookup(s: Seq<(String, SourceDocument)>, i: int)
    requires
        keys_distinct(s),
        0 <= i < s.len(),
    ensures
        entries_view(s).dom().contains(s[i].0@),
        entries_view(s)[s[i].0@] == s[i].1@,
        key_position(s, s[i].0@) == i,
{
    let k = s[i].0@;
    assert(has_key(s, k));
    let j = key_position(s, k);
    if j != i {
        if j < i {
            assert(s[j].0@ != s[i].0@);
        } else {
            assert(s[i].0@ != s[j].0@);
        }
    }
}

proof fn lemma_entries_update(s: Seq<(String, SourceDocument)>, i: int, x: (String, SourceDocument))
    requires
        keys_distinct(s),
        0 <= i < s.len(),
        s[i].0@ == x.0@,
    ensures
        keys_distinct(s.update(i, x)),
        entries_view(s.update(i, x)) == entries_view(s).insert(x.0@, x.1@),
{
    let t = s.update(i, x);
    assert forall|a: int, b: int| 0 <= a < b < t.len() implies (#[trigger] t[a]).0@ != (#[trigger] t[b]).0@ by {
        assert(s[a].0@ != s[b].0@);
    }
    assert forall|k: Seq<char>| #[trigger] has_key(t, k) <==> has_key(s, k) by {
        if has_key(t, k) {
            let j = key_position(t, k);
            assert(s[j].0@ == k);
        }
        if has_key(s, k) {
            let j = key_position(s, k);
            assert(t[j].0@ == k);
        }
    }
    lemma_entry_lookup(t, i);
    assert forall|k: Seq<char>| #[trigger] has_key(t, k) && k != x.0@ implies entries_view(t)[k]
        == entries_view(s)[k] by {
        let j = key_position(s, k);
        assert(s[j].0@ == k);
        lemma_entry_lookup(s, j);
        assert(t[j] == s[j]);
        lemma_entry_lookup(t, j);
    }
    assert(entries_view(t) =~= entries_view(s).insert(x.0@, x.1@));
}

proof fn lemma_entries_push(s: Seq<(String, SourceDocument)>, x: (String, SourceDocument))
    requires
        keys_distinct(s),
        !has_key(s, x.0@),
    ensures
        keys_distinct(s.push(x)),
        entries_view(s.push(x)) == entries_view(s).insert(x.0@, x.1@),
{
    let t = s.push(x);
    assert forall|a: int, b: int| 0 <= a < b < t.len() implies (#[trigger] t[a]).0@ != (#[trigger] t[b]).0@ by {
        if b < s.len() {
            assert(s[a].0@ != s[b].0@);
        } else {
            assert(t[a] == s[a]);
        }
    }
    assert forall|k: Seq<char>| #[trigger] has_key(t, k) <==> (has_key(s, k) || k == x.0@) by {
        if has_key(t, k) {
            let j = key_position(t, k);
            if j < s.len() {
                assert(s[j].0@ == k);
            }
        }
        if has_key(s, k) {
            let j = key_position(s, k);
            assert(t[j].0@ == k);
        }
        if k == x.0@ {
            assert(t[s.len() as int].0@ == k);
        }
    }
    lemma_entry_lookup(t, s.len() as int);
    assert forall|k: Seq<char>| #[trigger] has_key(t, k) && k != x.0@ implies entries_view(t)[k]
        == entries_view(s)[k] by {
        let j = key_position(s, k);
        assert(s[j].0@ == k);
        lemma_entry_lookup(s, j);
        assert(t[j] == s[j]);
        lemma_entry_lookup(t, j);
    }
    assert(entries_view(t) =~= entries_view(s).insert(x.0@, x.1@));
}

proof fn lemma_entries_remove(s: Seq<(String, SourceDocument)>, i: int)
    requires
        keys_distinct(s),
        0 <= i < s.len(),
    ensures
        keys_distinct(s.remove(i)),
        entries_view(s.remove(i)) == entries_view(s).remove(s[i].0@),
{
    let t = s.remove(i);
    let key = s[i].0@;
    assert forall|a: int, b: int| 0 <= a < b < t.len() implies (#[trigger] t[a]).0@ != (#[trigger] t[b]).0@ by {
        let a1 = if a < i {
            a
        } else {
            a + 1
        };
        let b1 = if b < i {
            b
        } else {
            b + 1
        };
        assert(t[a] == s[a1]);
        assert(t[b] == s[b1]);
        assert(s[a1].0@ != s[b1].0@);
    }
    assert forall|k: Seq<char>| #[trigger] has_key(t, k) <==> (has_key(s, k) && k != key) by {
        if has_key(t, k) {
            let j = key_position(t, k);
            let j1 = if j < i {
                j
            } else {
                j + 1
            };
            assert(t[j] == s[j1]);
            assert(s[j1].0@ == k);
            if j1 != i {
                if j1 < i {
                    assert(s[j1].0@ != s[i].0@);
                } else {
                    assert(s[i].0@ != s[j1].0@);
                }
            }
        }
        if has_key(s, k) && k != key {
            let j = key_position(s, k);
            let j1 = if j < i {
                j
            } else {
                j - 1
            };
            assert(j != i);
            assert(t[j1] == s[j]);
            assert(t[j1].0@ == k);
        }
    }
    assert forall|k: Seq<char>| #[trigger] has_key(t, k) implies entries_view(t)[k] == entries_view(s)[k] by {
        let j = key_position(t, k);
        assert(t[j].0@ == k);
        let j1 = if j < i {
            j
        } else {
            j + 1
        };
        assert(t[j] == s[j1]);
        lemma_entry_lookup(s, j1);
        lemma_entry_lookup(t, j);
    }
    assert(entries_view(t) =~= entries_view(s).remove(key));
}

/// The state after applying changes in order: the document, the edits made,
/// and the error that stopped the changes, if one did (the changes before
/// it stay applied).
pub struct ApplyState {
    pub doc: DocumentModel,
    pub applied: Seq<AppliedDocumentChange>,
    pub error: Option<SourceError>,
}

pub open spec fn spec_apply_changes(d: DocumentModel, cs: Seq<TextChange>) -> ApplyState
    decreases cs.len(),
{
    if cs.len() == 0 {
        ApplyState { doc: d, applied: Seq::empty(), error: None }
    } else {
        let prev = spec_apply_changes(d, cs.drop_last());
        if prev.error is Some {
            prev
        } else {
            match spec_apply_change(prev.doc, cs.last()) {
                Ok((next, edit)) => ApplyState {
                    doc: next,
                    applied: prev.applied.push(AppliedDocumentChange { input_edit: edit }),
                    error: None,
                },
                Err(e) => ApplyState { doc: prev.doc, applied: prev.applied, error: Some(e) },
            }
        }
    }
}

/// Each change that is reached can be applied.
pub open spec fn changes_ok(d: DocumentModel, cs: Seq<TextChange>) -> bool
    decreases cs.len(),
{
    if cs.len() == 0 {
        true
    } else {
        let prev = spec_apply_changes(d, cs.drop_last());
        changes_ok(d, cs.drop_last()) && (prev.error is Some || change_ok(prev.doc, cs.last()))
    }
}

/// The open documents, by URI.
pub struct SourceDatabase {
    documents: Vec<(String, SourceDocument)>,
}

impl View for SourceDatabase {
    type V = Map<Seq<char>, DocumentModel>;

    closed spec fn view(&self) -> Map<Seq<char>, DocumentModel> {
        entries_view(self.documents@)
    }
}

fn find_document(documents: &Vec<(String, SourceDocument)>, uri: &str) -> (r: Option<usize>)
    requires
        keys_distinct(documents@),
    ensures
        match r {
            Some(i) => i < documents@.len() && documents@[i as int].0@ == uri@,
            None => !has_key(documents@, uri@),
        },
{
    let mut i: usize = 0;
    while i < documents.len()
        invariant
            i <= documents@.len(),
            forall|j: int| 0 <= j < i ==> (#[trigger] documents@[j]).0@ != uri@,
        decreases documents@.len() - i,
    {
        if crate::text::str_eq(documents[i].0.as_str(), uri) {
            return Some(i);
        }
        i = i + 1;
    }
    None
}

impl SourceDatabase {
    #[verifier::type_invariant]
    spec fn wf(self) -> bool {
        keys_distinct(self.documents@)
    }

    pub fn new() -> (db: SourceDatabase)
        ensures
            db@ == Map::<Seq<char>, DocumentModel>::empty(),
    {
        let db = SourceDatabase { documents: Vec::new() };
        assert(db@ =~= Map::<Seq<char>, DocumentModel>::empty());
        db
    }

    /// Opens a document, replacing one already open under the same URI.
    pub fn open(&mut self, uri: String, version: i32, text: String)
        ensures
            final(self)@ == old(self)@.insert(uri@, DocumentModel { version, text: text@ }),
    {
        proof {
            use_type_invariant(&*self);
        }
        let document = SourceDocument::new(version, text);
        let mut documents: Vec<(String, SourceDocument)> = Vec::new();
        std::mem::swap(&mut documents, &mut self.documents);
        match find_document(&documents, uri.as_str()) {
            Some(i) => {
                proof {
                    lemma_entries_update(documents@, i as int, (uri, document));
                }
                documents.set(i, (uri, document));
            },
            None => {
                proof {
                    lemma_entries_push(documents@, (uri, document));
                }
                documents.push((uri, document));
            },
        }
        self.documents = documents;
    }

    /// Closes a document, handing it back when it was open.
    pub fn close(&mut self, uri: &str) -> (r: Option<SourceDocument>)
        ensures
            match r {
                Some(d) => old(self)@.contains_key(uri@) && d@ == old(self)@[uri@] && final(self)@ == old(
                    self,
                )@.remove(uri@),
                None => !old(self)@.contains_key(uri@) && final(self)@ == old(self)@,
            },
    {
        proof {
            use_type_invariant(&*self);
        }
        match find_document(&self.documents, uri) {
            Some(i) => {
                let mut documents: Vec<(String, SourceDocument)> = Vec::new();
                std::mem::swap(&mut documents, &mut self.documents);
                proof {
                    lemma_entry_lookup(documents@, i as int);
                    lemma_entries_remove(documents@, i as int);
                }
                let (_, document) = documents.remove(i);
                self.documents = documents;
                Some(document)
            },
            None => None,
        }
    }

    pub fn contains(&self, uri: &str) -> (r: bool)
        ensures
            r == self@.contains_key(uri@),
    {
        proof {
            use_type_invariant(self);
        }
        match find_document(&self.documents, uri) {
            Some(i) => {
                proof {
                    lemma_entry_lookup(self.documents@, i as int);
                }
                true
            },
            None => false,
        }
    }

    pub fn document(&self, uri: &str) -> (r: Option<&SourceDocument>)
        ensures
            match r {
                Some(d) => self@.contains_key(uri@) && d@ == self@[uri@],
                None => !self@.contains_key(uri@),
            },
    {
        proof {
            use_type_invariant(self);
        }
        match find_document(&self.documents, uri) {
            Some(i) => {
                proof {
                    lemma_entry_lookup(self.documents@, i as int);
                }
                Some(&self.documents[i].1)
            },
            None => None,
        }
    }
}

proof fn lemma_changes_ok_prefix(d: DocumentModel, cs: Seq<TextChange>, j: int)
    requires
        changes_ok(d, cs),
        0 <= j <= cs.len(),
    ensures
        changes_ok(d, cs.take(j)),
    decreases cs.len() - j,
{
    if j < cs.len() {
        assert(cs.drop_last() =~= cs.take(cs.len() - 1));
        lemma_changes_ok_prefix(d, cs.drop_last(), j);
        assert(cs.drop_last().take(j) =~= cs.take(j));
    } else {
        assert(cs.take(j) =~= cs);
    }
}

proof fn lemma_apply_error_stable(d: DocumentModel, cs: Seq<TextChange>, j: int)
    requires
        0 <= j <= cs.len(),
        spec_apply_changes(d, cs.take(j)).error is Some,
    ensures
        spec_apply_changes(d, cs) == spec_apply_changes(d, cs.take(j)),
    decreases cs.len() - j,
{
    if j < cs.len() {
        assert(cs.drop_last() =~= cs.take(cs.len() - 1));
        assert(cs.drop_last().take(j) =~= cs.take(j));
        lemma_apply_error_stable(d, cs.drop_last(), j);
    } else {
        assert(cs.take(j) =~= cs);
    }
}

impl SourceDatabase {
    /// Applies changes in order to an open document and gives it `version`.
    /// A change that fails stops the rest and is reported: the changes
    /// before it stay applied, and the version is left as it was.
    #[verifier::loop_isolation(false)]
    pub fn apply_changes(&mut self, uri: &str, version: i32, changes: &[TextChange]) -> (r: Result<
        Vec<AppliedDocumentChange>,
        SourceError,
    >)
        requires
            old(self)@.contains_key(uri@) ==> changes_ok(old(self)@[uri@], changes@),
        ensures
            !old(self)@.contains_key(uri@) ==> final(self)@ == old(self)@ && (r matches Err(
                SourceError::DocumentNotOpen(u),
            ) && u@ == uri@),
            old(self)@.contains_key(uri@) ==> ({
                let st = spec_apply_changes(old(self)@[uri@], changes@);
                match st.error {
                    None => (r matches Ok(v) && v@ == st.applied) && final(self)@ == old(self)@.insert(
                        uri@,
                        DocumentModel { version, text: st.doc.text },
                    ),
                    Some(e) => r == Err::<Vec<AppliedDocumentChange>, SourceError>(e) && final(self)@ == old(
                        self,
                    )@.insert(uri@, st.doc),
                }
            }),
    {
        proof {
            use_type_invariant(&*self);
        }
        let i = match find_document(&self.documents, uri) {
            Some(i) => i,
            None => {
                return Err(SourceError::DocumentNotOpen(crate::text::owned(uri)));
            },
        };
        let mut documents: Vec<(String, SourceDocument)> = Vec::new();
        std::mem::swap(&mut documents, &mut self.documents);
        let ghost old_docs = documents@;
        proof {
            lemma_entry_lookup(old_docs, i as int);
        }
        let (key, mut document) = documents.remove(i);
        let ghost d0 = document@;
        let ghost cs = changes@;
        let mut applied: Vec<AppliedDocumentChange> = Vec::new();
        let mut k: usize = 0;
        assert(cs.take(0) =~= Seq::<TextChange>::empty());
        while k < changes.len()
            invariant
                k <= cs.len(),
                cs == changes@,
                documents@ == old_docs.remove(i as int),
                spec_apply_changes(d0, cs.take(k as int)) == (ApplyState {
                    doc: document@,
                    applied: applied@,
                    error: None,
                }),
            decreases cs.len() - k,
        {
            proof {
                lemma_changes_ok_prefix(d0, cs, k + 1);
                assert(cs.take(k + 1).drop_last() =~= cs.take(k as int));
                assert(cs.take(k + 1).last() == cs[k as int]);
            }
            match document.apply_change(&changes[k]) {
                Ok(a) => {
                    applied.push(a);
                },
                Err(e) => {
                    proof {
                        lemma_apply_error_stable(d0, cs, k + 1);
                    }
                    documents.insert(i, (key, document));
                    proof {
                        assert(documents@ =~= old_docs.update(i as int, (key, document)));
                        lemma_entries_update(old_docs, i as int, (key, document));
                    }
                    self.documents = documents;
                    return Err(e);
                },
            }
            k = k + 1;
        }
        proof {
            assert(cs.take(k as int) =~= cs);
        }
        document.set_version(version);
        documents.insert(i, (key, document));
        proof {
            assert(documents@ =~= old_docs.update(i as int, (key, document)));
            lemma_entries_update(old_docs, i as int, (key, document));
        }
        self.documents = documents;
        Ok(applied)
    }
}

/// A position that has an offset is the position of that offset.
pub proof fn lemma_position_offset_round_trip(d: DocumentModel, p: Position)
    requires
        spec_position_offset(doc_bytes(d), p) is Ok,
    ensures
        spec_offset_position(doc_bytes(d), spec_position_offset(doc_bytes(d), p)->Ok_0)
            == Ok::<Position, SourceError>(p),
{
    let b = doc_bytes(d);
    let k = choose|k: int| position_at(b, p, k);
    assert(position_at(b, p, k));
}

/// An offset whose position fits the protocol's 32-bit fields is the offset
/// of that position.
pub proof fn lemma_offset_position_round_trip(d: DocumentModel, k: int)
    requires
        spec_offset_position(doc_bytes(d), k) is Ok,
        newlines(doc_bytes(d).take(k)) <= u32::MAX,
        utf16_units(doc_bytes(d).subrange(last_line_start(doc_bytes(d).take(k)), k)) <= u32::MAX,
    ensures
        spec_position_offset(doc_bytes(d), spec_offset_position(doc_bytes(d), k)->Ok_0)
            == Ok::<int, SourceError>(k),
{
    let b = doc_bytes(d);
    vstd::utf8::encode_utf8_valid_utf8(d.text);
    let p = spec_offset_position(b, k)->Ok_0;
    assert(position_at(b, p, k));
    lemma_offset_result(b, p, k);
}

impl SourceDocument {
    /// Whether a change can be applied to this document.
    fn change_applicable(&self, change: &TextChange) -> (r: bool)
        ensures
            r == change_ok(self@, *change),
    {
        let bytes = bytes_of(&self.text);
        let new_bytes = bytes_of(&change.text);
        if bytes.len() > usize::MAX - new_bytes.len() {
            return false;
        }
        match &change.range {
            Some(range) => match self.byte_span_for_range(*range) {
                Ok(span) => span.start_byte <= span.end_byte,
                Err(_) => true,
            },
            None => true,
        }
    }

    fn copy(&self) -> (r: SourceDocument)
        ensures
            r@ == self@,
    {
        SourceDocument { version: self.version, text: crate::text::owned(self.text.as_str()) }
    }
}

impl SourceDatabase {
    /// Whether `apply_changes` may be called with these changes: each change
    /// it would reach has a range that does not end before it starts.
    pub fn changes_applicable(&self, uri: &str, changes: &[TextChange]) -> (r: bool)
        ensures
            r == (self@.contains_key(uri@) ==> changes_ok(self@[uri@], changes@)),
    {
        let document = match self.document(uri) {
            Some(d) => d,
            None => {
                return true;
            },
        };
        let mut scratch = document.copy();
        let ghost d0 = document@;
        let ghost cs = changes@;
        let mut k: usize = 0;
        assert(cs.take(0) =~= Seq::<TextChange>::empty());
        while k < changes.len()
            invariant
                k <= cs.len(),
                cs == changes@,
                self@.contains_key(uri@),
                d0 == self@[uri@],
                changes_ok(d0, cs.take(k as int)),
                spec_apply_changes(d0, cs.take(k as int)).error is None,
                spec_apply_changes(d0, cs.take(k as int)).doc == scratch@,
            decreases cs.len() - k,
        {
            proof {
                assert(cs.take(k + 1).drop_last() =~= cs.take(k as int));
                assert(cs.take(k + 1).last() == cs[k as int]);
            }
            if !scratch.change_applicable(&changes[k]) {
                proof {
                    lemma_changes_ok_extend_fail(d0, cs, k as int);
                }
                return false;
            }
            match scratch.apply_change(&changes[k]) {
                Ok(_) => {},
                Err(_) => {
                    proof {
                        lemma_changes_ok_after_error(d0, cs, k + 1);
                    }
                    return true;
                },
            }
            k = k + 1;
        }
        proof {
            assert(cs.take(k as int) =~= cs);
        }
        true
    }
}

proof fn lemma_changes_ok_extend_fail(d: DocumentModel, cs: Seq<TextChange>, k: int)
    requires
        0 <= k < cs.len(),
        spec_apply_changes(d, cs.take(k)).error is None,
        !change_ok(spec_apply_changes(d, cs.take(k)).doc, cs[k]),
    ensures
        !changes_ok(d, cs),
    decreases cs.len() - k,
{
    assert(cs.take(k + 1).drop_last() =~= cs.take(k));
    assert(cs.take(k + 1).last() == cs[k]);
    lemma_not_ok_extends(d, cs, k + 1);
}

proof fn lemma_not_ok_extends(d: DocumentModel, cs: Seq<TextChange>, j: int)
    requires
        0 <= j <= cs.len(),
        !changes_ok(d, cs.take(j)),
    ensures
        !changes_ok(d, cs),
    decreases cs.len() - j,
{
    if j < cs.len() {
        assert(cs.drop_last() =~= cs.take(cs.len() - 1));
        assert(cs.drop_last().take(j) =~= cs.take(j));
        lemma_not_ok_extends(d, cs.drop_last(), j);
    } else {
        assert(cs.take(j) =~= cs);
    }
}

proof fn lemma_changes_ok_after_error(d: DocumentModel, cs: Seq<TextChange>, j: int)
    requires
        0 <= j <= cs.len(),
        changes_ok(d, cs.take(j)),
        spec_apply_changes(d, cs.take(j)).error is Some,
    ensures
        changes_ok(d, cs),
    decreases cs.len() - j,
{
    if j < cs.len() {
        assert(cs.drop_last() =~= cs.take(cs.len() - 1));
        assert(cs.drop_last().take(j) =~= cs.take(j));
        lemma_changes_ok_after_error(d, cs.drop_last(), j);
        lemma_apply_error_stable(d, cs.drop_last(), j);
    } else {
        assert(cs.take(j) =~= cs);
    }
}

/// Reading a document back: once a document is opened under a URI, the
/// store holds that URI with the version and text opened, and every other
/// URI as before.
pub proof fn lemma_open_then_document(
    before: Map<Seq<char>, DocumentModel>,
    uri: Seq<char>,
    version: i32,
    text: Seq<char>,
    other: Seq<char>,
)
    ensures
        ({
            let after = before.insert(uri, DocumentModel { version, text });
            &&& after.contains_key(uri)
            &&& after[uri] == DocumentModel { version, text }
            &&& other != uri ==> (after.contains_key(other) == before.contains_key(other) && (before.contains_key(
                other,
            ) ==> after[other] == before[other]))
        }),
{
}

/// Closing forgets: once a document is closed, the store no longer holds
/// its URI, and every other URI is as before.
pub proof fn lemma_close_then_absent(before: Map<Seq<char>, DocumentModel>, uri: Seq<char>, other: Seq<char>)
    ensures
        ({
            let after = before.remove(uri);
            &&& !after.contains_key(uri)
            &&& other != uri ==> (after.contains_key(other) == before.contains_key(other) && (before.contains_key(
                other,
            ) ==> after[other] == before[other]))
        }),
{
}

} // verus!
