//! The text of a PLY mesh file: its header, and the lines of its triangles.
//!
//! A line is a run of fields with single spaces between them. The header
//! ends with the line `end_header`; its lines `element vertex N` and
//! `element face N` give the numbers of the lines that follow for the
//! vertices and for the triangles.
use vstd::prelude::*;
use crate::scene::types::Triangle;

verus! {

/// The byte of a space.
pub const SPACE: u8 = 32;

/// The place of the first space in `line`, or its length if it has none.
pub open spec fn first_space(line: Seq<u8>) -> int
    decreases line.len(),
{
    if line.len() == 0 || line[0] == SPACE {
        0
    } else {
        1 + first_space(line.skip(1))
    }
}

/// Field `k` of `line`, counting from zero: what stands between space `k`
/// and space `k + 1`, where space 0 is the start of the line and the last
/// space is its end. `None` if the line has fewer than `k` spaces.
pub open spec fn nth_field(line: Seq<u8>, k: nat) -> Option<Seq<u8>>
    decreases k,
{
    let end = first_space(line);
    if k == 0 {
        Some(line.take(end))
    } else if end >= line.len() {
        None
    } else {
        nth_field(line.skip(end + 1), (k - 1) as nat)
    }
}

/// The number that a run of decimal digits stands for.
pub open spec fn digits_value(digits: Seq<u8>) -> nat
    decreases digits.len(),
{
    if digits.len() == 0 {
        0
    } else {
        digits_value(digits.drop_last()) * 10 + (digits.last() - 48) as nat
    }
}

/// Every byte is a decimal digit.
pub open spec fn all_digits(text: Seq<u8>) -> bool {
    forall|i: int| 0 <= i < text.len() ==> 48 <= #[trigger] text[i] <= 57
}

/// The number that `text` stands for: one or more decimal digits, with or
/// without a plus sign before them. `None` for any other text.
pub open spec fn number(text: Seq<u8>) -> Option<nat> {
    let digits = if text.len() > 0 && text[0] == 43 {
        text.skip(1)
    } else {
        text
    };
    if digits.len() > 0 && all_digits(digits) {
        Some(digits_value(digits))
    } else {
        None
    }
}

/// The number that `text` stands for, if it stands for one that is at most
/// `limit`.
pub open spec fn number_within(text: Seq<u8>, limit: u64) -> Option<u64> {
    match number(text) {
        Some(v) => if v <= limit {
            Some(v as u64)
        } else {
            None
        },
        None => None,
    }
}

/// Field `k` of `line` as a number of at most `limit`, if it is one.
pub open spec fn field_number(line: Seq<u8>, k: nat, limit: u64) -> Option<u64> {
    match nth_field(line, k) {
        Some(text) => number_within(text, limit),
        None => None,
    }
}

/// The word `end_header`.
pub open spec fn end_header_word() -> Seq<u8> {
    seq![101u8, 110u8, 100u8, 95u8, 104u8, 101u8, 97u8, 100u8, 101u8, 114u8]
}

/// The word `element`.
pub open spec fn element_word() -> Seq<u8> {
    seq![101u8, 108u8, 101u8, 109u8, 101u8, 110u8, 116u8]
}

/// The word `vertex`.
pub open spec fn vertex_word() -> Seq<u8> {
    seq![118u8, 101u8, 114u8, 116u8, 101u8, 120u8]
}

/// The word `face`.
pub open spec fn face_word() -> Seq<u8> {
    seq![102u8, 97u8, 99u8, 101u8]
}

/// What a line of the header says.
#[derive(Clone, Copy, Debug, PartialEq, Eq, Structural)]
pub enum HeaderLine {
    /// `end_header`: the header is over.
    End,
    /// `element vertex N`: the file has `N` vertices.
    Vertices(usize),
    /// `element face N`: the file has `N` triangles.
    Faces(usize),
    /// Anything else that the header may hold.
    Other,
    /// An `element` line that is cut short or whose number is none.
    Malformed,
}

/// The numbers of vertices and of triangles that a header announces, and
/// the index of the first line behind the header.
#[derive(Clone, Copy, Debug, PartialEq, Eq, Structural)]
pub struct Header {
    pub num_vertices: usize,
    pub num_faces: usize,
    pub body: usize,
}

/// What the header line `line` says.
pub open spec fn header_line(line: Seq<u8>) -> HeaderLine {
    if nth_field(line, 0) == Some(end_header_word()) {
        HeaderLine::End
    } else if nth_field(line, 0) == Some(element_word()) {
        match nth_field(line, 1) {
            None => HeaderLine::Malformed,
            Some(kind) => if kind == vertex_word() {
                match field_number(line, 2, usize::MAX as u64) {
                    Some(n) => HeaderLine::Vertices(n as usize),
                    None => HeaderLine::Malformed,
                }
            } else if kind == face_word() {
                match field_number(line, 2, usize::MAX as u64) {
                    Some(n) => HeaderLine::Faces(n as usize),
                    None => HeaderLine::Malformed,
                }
            } else {
                HeaderLine::Other
            },
        }
    } else {
        HeaderLine::Other
    }
}

/// The header that the lines from `from` on make up, after a header that
/// announced `vertices` and `faces` so far: the last announcement of each
/// kind counts, and the header ends behind `end_header` or with the file.
/// `None` if one of its lines is malformed.
pub open spec fn header_from(lines: Seq<Vec<u8>>, from: int, vertices: usize, faces: usize) -> Option<
    Header,
>
    decreases lines.len() - from,
{
    if from < 0 || from >= lines.len() {
        Some(Header { num_vertices: vertices, num_faces: faces, body: lines.len() as usize })
    } else {
        match header_line(lines[from]@) {
            HeaderLine::End => Some(
                Header { num_vertices: vertices, num_faces: faces, body: (from + 1) as usize },
            ),
            HeaderLine::Vertices(n) => header_from(lines, from + 1, n, faces),
            HeaderLine::Faces(n) => header_from(lines, from + 1, vertices, n),
            HeaderLine::Other => header_from(lines, from + 1, vertices, faces),
            HeaderLine::Malformed => None,
        }
    }
}

/// The triangle that the line `line` gives: its fields 1, 2 and 3 are the
/// indices of the corners; field 0, the number of corners, is not looked at.
/// `None` if one of the three is missing or no index.
pub open spec fn face_line(line: Seq<u8>) -> Option<Triangle> {
    match (
        field_number(line, 1, u32::MAX as u64),
        field_number(line, 2, u32::MAX as u64),
        field_number(line, 3, u32::MAX as u64),
    ) {
        (Some(v1), Some(v2), Some(v3)) => Some(
            Triangle { v1: v1 as u32, v2: v2 as u32, v3: v3 as u32 },
        ),
        _ => None,
    }
}

/// A run without a space that ends at a space or at the end of the line ends
/// at the line's first space.
proof fn lemma_first_space(line: Seq<u8>, end: int)
    requires
        0 <= end <= line.len(),
        forall|i: int| 0 <= i < end ==> line[i] != SPACE,
        end == line.len() || line[end] == SPACE,
    ensures
        first_space(line) == end,
    decreases end,
{
    if end > 0 {
        let rest = line.skip(1);
        assert forall|i: int| 0 <= i < end - 1 implies rest[i] != SPACE by {
            assert(rest[i] == line[i + 1]);
        }
        lemma_first_space(rest, end - 1);
    }
}

/// The bounds of field `k` of `line`: it is `line[a..b]` for the pair
/// `(a, b)` that is returned; `None` if the line has no such field.
pub fn field(line: &[u8], k: usize) -> (r: Option<(usize, usize)>)
    ensures
        match r {
            Some((a, b)) => a <= b <= line@.len() && nth_field(line@, k as nat) == Some(
                line@.subrange(a as int, b as int),
            ),
            None => nth_field(line@, k as nat).is_none(),
        },
{
    let mut start: usize = 0;
    let mut left: usize = k;
    proof {
        assert(line@.skip(0) =~= line@);
    }
    loop
        invariant
            start <= line@.len(),
            left <= k,
            nth_field(line@, k as nat) == nth_field(line@.skip(start as int), left as nat),
        decreases left, line@.len() - start,
    {
        let mut end: usize = start;
        while end < line.len() && line[end] != SPACE
            invariant
                start <= end <= line@.len(),
                forall|i: int| start <= i < end ==> line@[i] != SPACE,
            decreases line@.len() - end,
        {
            end = end + 1;
        }
        proof {
            let rest = line@.skip(start as int);
            assert forall|i: int| 0 <= i < end - start implies rest[i] != SPACE by {
                assert(rest[i] == line@[start + i]);
            }
            lemma_first_space(rest, end - start);
            assert(rest.take(end - start) =~= line@.subrange(start as int, end as int));
            if end < line@.len() {
                assert(rest.skip(end - start + 1) =~= line@.skip(end + 1));
            }
        }
        if left == 0 {
            return Some((start, end));
        }
        if end >= line.len() {
            return None;
        }
        start = end + 1;
        left = left - 1;
    }
}

/// A longer run of digits stands for no smaller number than its beginning.
proof fn lemma_digits_grow(digits: Seq<u8>, n: int)
    requires
        0 <= n <= digits.len(),
        all_digits(digits),
    ensures
        digits_value(digits.take(n)) <= digits_value(digits),
    decreases digits.len() - n,
{
    if n == digits.len() {
        assert(digits.take(n) =~= digits);
    } else {
        lemma_digits_grow(digits, n + 1);
        assert(digits.take(n + 1).drop_last() =~= digits.take(n));
        assert(48 <= digits[n] <= 57);
        assert(digits.take(n + 1).last() == digits[n]);
    }
}

/// The number that `line[from..to]` stands for, if it stands for one that
/// is at most `limit`: digits, with or without a plus sign before them.
pub fn parse_number(line: &[u8], from: usize, to: usize, limit: u64) -> (r: Option<u64>)
    requires
        from <= to <= line@.len(),
    ensures
        r == number_within(line@.subrange(from as int, to as int), limit),
{
    let ghost text = line@.subrange(from as int, to as int);
    let mut i: usize = from;
    if i < to && line[i] == 43 {
        i = i + 1;
    }
    let first: usize = i;
    let ghost digits = line@.subrange(first as int, to as int);
    proof {
        assert(text.len() > 0 && text[0] == 43 ==> text.skip(1) =~= digits);
        assert(!(text.len() > 0 && text[0] == 43) ==> text =~= digits);
    }
    if first == to {
        return None;
    }
    let mut value: u64 = 0;
    proof {
        assert(digits.take(0) =~= Seq::<u8>::empty());
    }
    while i < to
        invariant
            from <= first <= i <= to <= line@.len(),
            first < to,
            digits == line@.subrange(first as int, to as int),
            number(line@.subrange(from as int, to as int)) == (if all_digits(digits) {
                Some(digits_value(digits))
            } else {
                None::<nat>
            }),
            all_digits(digits.take(i - first)),
            value == digits_value(digits.take(i - first)),
            value <= limit,
        decreases to - i,
    {
        let c = line[i];
        proof {
            assert(digits[i - first] == c);
            assert(digits.take(i - first + 1).drop_last() =~= digits.take(i - first));
            assert(digits.take(i - first + 1).last() == c);
        }
        if c < 48 || c > 57 {
            assert(!all_digits(digits));
            return None;
        }
        let next: u128 = (value as u128) * 10 + ((c - 48) as u128);
        assert(next == digits_value(digits.take(i - first + 1)));
        proof {
            assert forall|j: int| 0 <= j < i - first + 1 implies 48 <= #[trigger] digits.take(
                i - first + 1,
            )[j] <= 57 by {
                if j < i - first {
                    assert(digits.take(i - first)[j] == digits[j]);
                }
            }
        }
        if next > limit as u128 {
            proof {
                if all_digits(digits) {
                    lemma_digits_grow(digits, i - first + 1);
                }
            }
            return None;
        }
        value = next as u64;
        i = i + 1;
    }
    proof {
        assert(digits.take(to - first) =~= digits);
    }
    Some(value)
}

/// Field `k` of `line` as a number of at most `limit`, if it is one.
pub fn parse_field(line: &[u8], k: usize, limit: u64) -> (r: Option<u64>)
    ensures
        r == field_number(line@, k as nat, limit),
{
    match field(line, k) {
        Some((a, b)) => parse_number(line, a, b, limit),
        None => None,
    }
}

/// Whether `line[from..to]` is the word `word`.
fn is_word(line: &[u8], from: usize, to: usize, word: &[u8]) -> (r: bool)
    requires
        from <= to <= line@.len(),
    ensures
        r == (line@.subrange(from as int, to as int) == word@),
{
    let ghost text = line@.subrange(from as int, to as int);
    if to - from != word.len() {
        return false;
    }
    let mut i: usize = 0;
    while i < word.len()
        invariant
            i <= word@.len(),
            to - from == word@.len(),
            from <= to <= line@.len(),
            text == line@.subrange(from as int, to as int),
            forall|j: int| 0 <= j < i ==> text[j] == word@[j],
        decreases word@.len() - i,
    {
        if line[from + i] != word[i] {
            assert(text[i as int] != word@[i as int]);
            return false;
        }
        i = i + 1;
    }
    assert(text =~= word@);
    true
}

/// Reads one line of the header.
pub fn parse_header_line(line: &[u8]) -> (r: HeaderLine)
    ensures
        r == header_line(line@),
{
    let end_header: [u8; 10] = [101, 110, 100, 95, 104, 101, 97, 100, 101, 114];
    let element: [u8; 7] = [101, 108, 101, 109, 101, 110, 116];
    let vertex: [u8; 6] = [118, 101, 114, 116, 101, 120];
    let face: [u8; 4] = [102, 97, 99, 101];
    proof {
        assert(end_header@ =~= end_header_word());
        assert(element@ =~= element_word());
        assert(vertex@ =~= vertex_word());
        assert(face@ =~= face_word());
    }
    let (a, b) = match field(line, 0) {
        Some(bounds) => bounds,
        None => {
            return HeaderLine::Other;
        },
    };
    if is_word(line, a, b, end_header.as_slice()) {
        HeaderLine::End
    } else if is_word(line, a, b, element.as_slice()) {
        match field(line, 1) {
            None => HeaderLine::Malformed,
            Some((c, d)) => {
                if is_word(line, c, d, vertex.as_slice()) {
                    match parse_field(line, 2, usize::MAX as u64) {
                        Some(n) => HeaderLine::Vertices(n as usize),
                        None => HeaderLine::Malformed,
                    }
                } else if is_word(line, c, d, face.as_slice()) {
                    match parse_field(line, 2, usize::MAX as u64) {
                        Some(n) => HeaderLine::Faces(n as usize),
                        None => HeaderLine::Malformed,
                    }
                } else {
                    HeaderLine::Other
                }
            },
        }
    } else {
        HeaderLine::Other
    }
}

/// Reads the header that the lines of a file begin with.
pub fn parse_header(lines: &[Vec<u8>]) -> (r: Option<Header>)
    ensures
        r == header_from(lines@, 0, 0, 0),
{
    let mut num_vertices: usize = 0;
    let mut num_faces: usize = 0;
    let mut i: usize = 0;
    while i < lines.len()
        invariant
            i <= lines@.len(),
            header_from(lines@, 0, 0, 0) == header_from(lines@, i as int, num_vertices, num_faces),
        decreases lines@.len() - i,
    {
        match parse_header_line(lines[i].as_slice()) {
            HeaderLine::End => {
                return Some(Header { num_vertices, num_faces, body: i + 1 });
            },
            HeaderLine::Vertices(n) => {
                num_vertices = n;
            },
            HeaderLine::Faces(n) => {
                num_faces = n;
            },
            HeaderLine::Other => {},
            HeaderLine::Malformed => {
                return None;
            },
        }
        i = i + 1;
    }
    Some(Header { num_vertices, num_faces, body: i })
}

/// Reads the line of one triangle.
pub fn parse_face(line: &[u8]) -> (r: Option<Triangle>)
    ensures
        r == face_line(line@),
{
    let v1 = parse_field(line, 1, u32::MAX as u64);
    let v2 = parse_field(line, 2, u32::MAX as u64);
    let v3 = parse_field(line, 3, u32::MAX as u64);
    match (v1, v2, v3) {
        (Some(v1), Some(v2), Some(v3)) => Some(
            Triangle { v1: v1 as u32, v2: v2 as u32, v3: v3 as u32 },
        ),
        _ => None,
    }
}

} // verus!
