use rusty_ray::scene::ply::field;
use rusty_ray::scene::ply::parse_face;
use rusty_ray::scene::ply::parse_field;
use rusty_ray::scene::ply::parse_header;
use rusty_ray::scene::ply::parse_header_line;
use rusty_ray::scene::ply::parse_number;
use rusty_ray::scene::ply::Header;
use rusty_ray::scene::ply::HeaderLine;
use rusty_ray::scene::types::Triangle;

fn number(text: &str, limit: u64) -> Option<u64> {
    parse_number(text.as_bytes(), 0, text.len(), limit)
}

fn lines(text: &str) -> Vec<Vec<u8>> {
    text.lines().map(|l| l.as_bytes().to_vec()).collect()
}

#[test]
fn fields_are_split_at_single_spaces() {
    let line = b"ab c  de ";
    assert_eq!(field(line, 0), Some((0, 2)));
    assert_eq!(field(line, 1), Some((3, 4)));
    assert_eq!(field(line, 2), Some((5, 5)));
    assert_eq!(field(line, 3), Some((6, 8)));
    assert_eq!(field(line, 4), Some((9, 9)));
    assert_eq!(field(line, 5), None);
    assert_eq!(field(b"", 0), Some((0, 0)));
    assert_eq!(field(b"", 1), None);
    assert_eq!(field(b" ", 0), Some((0, 0)));
    assert_eq!(field(b" ", 1), Some((1, 1)));
}

#[test]
fn fields_are_those_of_split() {
    for text in ["3 0 1 2", "element vertex 8", "  x", "a", "a b c d e f g", "tab\there now"] {
        let expected: Vec<&str> = text.split(" ").collect();
        for (k, e) in expected.iter().enumerate() {
            let (a, b) = field(text.as_bytes(), k).unwrap();
            assert_eq!(&text[a..b], *e);
        }
        assert_eq!(field(text.as_bytes(), expected.len()), None);
    }
}

#[test]
fn numbers_are_runs_of_digits() {
    assert_eq!(number("0", 10), Some(0));
    assert_eq!(number("7", 10), Some(7));
    assert_eq!(number("10", 10), Some(10));
    assert_eq!(number("0012", 100), Some(12));
    assert_eq!(number("+12", 100), Some(12));
    assert_eq!(number("18446744073709551615", u64::MAX), Some(u64::MAX));
    assert_eq!(number("4294967295", u32::MAX as u64), Some(4294967295));
}

#[test]
fn other_text_is_no_number() {
    for text in ["", "+", "-1", "1.5", "12a", "a12", " 12", "12 ", "++1", "1+", "0x10", "1e3"] {
        assert_eq!(number(text, u64::MAX), None, "{:?}", text);
        assert_eq!(text.parse::<u64>().ok(), None, "{:?}", text);
    }
}

#[test]
fn numbers_beyond_the_limit_are_none() {
    assert_eq!(number("11", 10), None);
    assert_eq!(number("4294967296", u32::MAX as u64), None);
    assert_eq!(number("18446744073709551616", u64::MAX), None);
    assert_eq!(number("99999999999999999999999999", u64::MAX), None);
    assert_eq!(number("00000000000000000000000000000000000001", 1), Some(1));
}

#[test]
fn numbers_are_read_as_the_standard_parser_does() {
    let mut seed: u64 = 5;
    for _ in 0..2000 {
        seed = seed.wrapping_mul(6364136223846793005).wrapping_add(1442695040888963407);
        let value = seed >> (seed % 64);
        let text = format!("{}", value);
        assert_eq!(number(&text, u64::MAX), Some(value));
        assert_eq!(number(&text, u32::MAX as u64), text.parse::<u32>().ok().map(|v| v as u64));
    }
}

#[test]
fn part_of_a_line_is_read_as_a_number() {
    let line = b"element vertex 128 extra";
    assert_eq!(parse_number(line, 15, 18, 1000), Some(128));
    assert_eq!(parse_number(line, 15, 17, 1000), Some(12));
    assert_eq!(parse_number(line, 14, 18, 1000), None);
    assert_eq!(parse_field(line, 2, 1000), Some(128));
    assert_eq!(parse_field(line, 2, 127), None);
    assert_eq!(parse_field(line, 1, 1000), None);
    assert_eq!(parse_field(line, 4, 1000), None);
}

#[test]
fn header_lines_are_told_apart() {
    assert_eq!(parse_header_line(b"end_header"), HeaderLine::End);
    assert_eq!(parse_header_line(b"end_header now"), HeaderLine::End);
    assert_eq!(parse_header_line(b"element vertex 8"), HeaderLine::Vertices(8));
    assert_eq!(parse_header_line(b"element face 12"), HeaderLine::Faces(12));
    assert_eq!(parse_header_line(b"element face 12 more"), HeaderLine::Faces(12));
    assert_eq!(parse_header_line(b"element edge 5"), HeaderLine::Other);
    assert_eq!(parse_header_line(b"ply"), HeaderLine::Other);
    assert_eq!(parse_header_line(b"format ascii 1.0"), HeaderLine::Other);
    assert_eq!(parse_header_line(b"property float x"), HeaderLine::Other);
    assert_eq!(parse_header_line(b""), HeaderLine::Other);
    assert_eq!(parse_header_line(b" end_header"), HeaderLine::Other);
    assert_eq!(parse_header_line(b"end_headers"), HeaderLine::Other);
    assert_eq!(parse_header_line(b"elements vertex 8"), HeaderLine::Other);
}

#[test]
fn cut_element_lines_are_malformed() {
    assert_eq!(parse_header_line(b"element"), HeaderLine::Malformed);
    assert_eq!(parse_header_line(b"element vertex"), HeaderLine::Malformed);
    assert_eq!(parse_header_line(b"element vertex many"), HeaderLine::Malformed);
    assert_eq!(parse_header_line(b"element face -3"), HeaderLine::Malformed);
    assert_eq!(parse_header_line(b"element  vertex 8"), HeaderLine::Other);
    assert_eq!(parse_header_line(b"element vertex  8"), HeaderLine::Malformed);
    assert_eq!(
        parse_header_line(b"element face 99999999999999999999999"),
        HeaderLine::Malformed
    );
}

#[test]
fn header_gives_counts_and_where_the_body_starts() {
    let text = "ply\nformat ascii 1.0\nelement vertex 3\nproperty float x\nproperty float y\n\
                property float z\nelement face 1\nproperty list uchar int vertex_indices\n\
                end_header\n0 0 0 0 0 1\n1 0 0 0 0 1\n0 1 0 0 0 1\n3 0 1 2\n";
    let lines = lines(text);
    assert_eq!(parse_header(&lines), Some(Header { num_vertices: 3, num_faces: 1, body: 9 }));
    assert_eq!(parse_face(&lines[12]), Some(Triangle { v1: 0, v2: 1, v3: 2 }));
}

#[test]
fn header_without_end_runs_to_the_last_line() {
    let lines = lines("ply\nelement face 4\nelement vertex 2\nelement vertex 7\n");
    assert_eq!(parse_header(&lines), Some(Header { num_vertices: 7, num_faces: 4, body: 4 }));
    assert_eq!(parse_header(&[]), Some(Header { num_vertices: 0, num_faces: 0, body: 0 }));
    let only_end = lines_of_one("end_header");
    assert_eq!(parse_header(&only_end), Some(Header { num_vertices: 0, num_faces: 0, body: 1 }));
}

fn lines_of_one(line: &str) -> Vec<Vec<u8>> {
    vec![line.as_bytes().to_vec()]
}

#[test]
fn header_with_a_malformed_line_is_none() {
    let bad = lines("ply\nelement vertex\nend_header\n");
    assert_eq!(parse_header(&bad), None);
    // what comes behind the end of the header is not looked at
    let fine = lines("ply\nend_header\nelement vertex\n");
    assert_eq!(parse_header(&fine), Some(Header { num_vertices: 0, num_faces: 0, body: 2 }));
}

#[test]
fn face_lines_give_three_indices() {
    assert_eq!(parse_face(b"3 0 1 2"), Some(Triangle { v1: 0, v2: 1, v3: 2 }));
    assert_eq!(parse_face(b"3 10 4294967295 7 9 9"), Some(Triangle { v1: 10, v2: 4294967295, v3: 7 }));
    assert_eq!(parse_face(b"anything 1 2 3"), Some(Triangle { v1: 1, v2: 2, v3: 3 }));
    assert_eq!(parse_face(b"3 0 1"), None);
    assert_eq!(parse_face(b"3 0 1 "), None);
    assert_eq!(parse_face(b"3 0 1 x"), None);
    assert_eq!(parse_face(b"3 0 4294967296 2"), None);
    assert_eq!(parse_face(b"3  0 1 2"), None);
    assert_eq!(parse_face(b""), None);
}
