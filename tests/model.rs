use wireframe::model::{default_cube, parse_obj, parse_reference, split_fields, split_lines, FaceWarning, LoadError, Mesh};

fn load(text: &str) -> Mesh {
    match parse_obj(text.as_bytes()) {
        Ok(m) => m,
        Err(e) => panic!("load failed: {:?}", e),
    }
}

const TRIANGLE: &str = "v 0 0 0\nv 1 0 0\nv 0 1 0\n";

#[test]
fn face_gives_three_edges() {
    let m = load(&format!("{}f 1 2 3\n", TRIANGLE));
    assert_eq!(m.vertices.len(), 3);
    assert_eq!(m.edges, vec![(0, 1), (1, 2), (2, 0)]);
    assert!(m.warnings.is_empty());
}

#[test]
fn face_declared_twice_adds_no_duplicates() {
    let m = load(&format!("{}f 1 2 3\nf 1 2 3\n", TRIANGLE));
    assert_eq!(m.edges, vec![(0, 1), (1, 2), (2, 0)]);
}

#[test]
fn reversed_face_adds_no_duplicates() {
    let m = load(&format!("{}f 1 2 3\nf 3 2 1\n", TRIANGLE));
    assert_eq!(m.edges, vec![(0, 1), (1, 2), (2, 0)]);
}

#[test]
fn out_of_range_face_is_skipped() {
    let m = load(&format!("{}f 1 2 4\nf 1 2 3\n", TRIANGLE));
    assert_eq!(m.edges, vec![(0, 1), (1, 2), (2, 0)]);
    assert_eq!(m.warnings, vec![FaceWarning::OutOfRange(4)]);
}

#[test]
fn zero_reference_is_out_of_range() {
    let m = load(&format!("{}f 0 1 2\n", TRIANGLE));
    assert!(m.edges.is_empty());
    assert_eq!(m.warnings, vec![FaceWarning::OutOfRange(4)]);
}

#[test]
fn face_before_its_vertices_is_skipped() {
    let m = load("v 0 0 0\nf 1 2 3\nv 1 0 0\nv 0 1 0\n");
    assert!(m.edges.is_empty());
    assert_eq!(m.warnings, vec![FaceWarning::OutOfRange(2)]);
}

#[test]
fn unreadable_reference_is_skipped() {
    let m = load(&format!("{}f 1/1 2/2 3/3\nf 1 x 3\nf 1 2 3\n", TRIANGLE));
    assert_eq!(m.edges, vec![(0, 1), (1, 2), (2, 0)]);
    assert_eq!(m.warnings, vec![FaceWarning::BadReference(4), FaceWarning::BadReference(5)]);
}

#[test]
fn bad_reference_wins_over_range() {
    let m = load(&format!("{}f 9 x 1\n", TRIANGLE));
    assert_eq!(m.warnings, vec![FaceWarning::BadReference(4)]);
}

#[test]
fn quad_face_and_shared_edge() {
    let m = load("v 0 0 0\nv 1 0 0\nv 1 1 0\nv 0 1 0\nf 1 2 3 4\nf 3 1 4\n");
    assert_eq!(m.edges, vec![(0, 1), (1, 2), (2, 3), (3, 0), (2, 0)]);
}

#[test]
fn comments_blank_lines_and_other_records() {
    let m = load("# a model\n\n  \nvn 0 0 1\nv 1 2 3 # corner\r\nv -1.5 +2 3e1\t\nv 0 0 0\no name\nf 1 2 3 # face\n#f 1 2\n");
    assert_eq!(m.vertices.len(), 3);
    assert_eq!(m.vertices[0].x, b"1".to_vec());
    assert_eq!(m.vertices[1].x, b"-1.5".to_vec());
    assert_eq!(m.vertices[1].y, b"+2".to_vec());
    assert_eq!(m.vertices[1].z, b"3e1".to_vec());
    assert_eq!(m.edges.len(), 3);
}

#[test]
fn short_vertex_fails_the_load() {
    assert_eq!(parse_obj(b"v 0 0 0\nv 1 2\n").err(), Some(LoadError::ShortVertex(2)));
}

#[test]
fn empty_text_is_empty_mesh() {
    let m = load("");
    assert!(m.vertices.is_empty() && m.edges.is_empty() && m.warnings.is_empty());
}

#[test]
fn default_cube_has_eight_vertices_and_twelve_edges() {
    let m = default_cube();
    assert_eq!(m.vertices.len(), 8);
    assert_eq!(m.edges.len(), 12);
    assert_eq!(m.vertices[0].x, b"-1".to_vec());
    assert_eq!(m.vertices[6].z, b"1".to_vec());
}

#[test]
fn reference_parsing() {
    assert_eq!(parse_reference(b"12"), Some(12));
    assert_eq!(parse_reference(b"+7"), Some(7));
    assert_eq!(parse_reference(b"0"), Some(0));
    assert_eq!(parse_reference(b"18446744073709551615"), Some(usize::MAX));
    assert_eq!(parse_reference(b"18446744073709551616"), None);
    assert_eq!(parse_reference(b""), None);
    assert_eq!(parse_reference(b"+"), None);
    assert_eq!(parse_reference(b"-1"), None);
    assert_eq!(parse_reference(b"1/2"), None);
}

#[test]
fn lines_and_fields() {
    let lines = split_lines(b"a\n\nb c\n");
    assert_eq!(lines, vec![b"a".to_vec(), b"".to_vec(), b"b c".to_vec()]);
    assert_eq!(split_lines(b"x"), vec![b"x".to_vec()]);
    let fields = split_fields(b"  f\t1  2 #3 4");
    assert_eq!(fields, vec![b"f".to_vec(), b"1".to_vec(), b"2".to_vec()]);
}

#[test]
fn unicode_whitespace_separates_fields() {
    let m = load("v\u{A0}0 0 0\nv 1\u{2003}0\u{85}0\nv\t0 1 0\u{3000}\nf\u{2028}1\u{202F}2\u{1680}3\u{205F}\n");
    assert_eq!(m.vertices.len(), 3);
    assert_eq!(m.vertices[0].x, b"0".to_vec());
    assert_eq!(m.vertices[1].y, b"0".to_vec());
    assert_eq!(m.vertices[1].z, b"0".to_vec());
    assert_eq!(m.vertices[2].z, b"0".to_vec());
    assert_eq!(m.edges, vec![(0, 1), (1, 2), (2, 0)]);
}

#[test]
fn other_non_ascii_is_part_of_a_field() {
    let fields = split_fields("f\u{200B}1 \u{E9}2".as_bytes());
    assert_eq!(fields, vec!["f\u{200B}1".as_bytes().to_vec(), "\u{E9}2".as_bytes().to_vec()]);
}

#[test]
fn skipped_face_loads_as_if_deleted() {
    let with = load(&format!("{}f 1 2 9\nv 1 1 1\nf 1 2 4\n", TRIANGLE));
    let without = load(&format!("{}v 1 1 1\nf 1 2 4\n", TRIANGLE));
    assert_eq!(with.edges, without.edges);
    assert_eq!(with.vertices.len(), without.vertices.len());
    assert_eq!(with.edges, vec![(0, 1), (1, 3), (3, 0)]);
}

#[test]
fn default_cube_corners() {
    let m = default_cube();
    let text = |v: &Vec<u8>| String::from_utf8(v.clone()).unwrap();
    let corners: Vec<(String, String, String)> =
        m.vertices.iter().map(|v| (text(&v.x), text(&v.y), text(&v.z))).collect();
    let c = |x: &str, y: &str, z: &str| (x.to_string(), y.to_string(), z.to_string());
    assert_eq!(
        corners,
        vec![
            c("-1", "-1", "-1"),
            c("1", "-1", "-1"),
            c("1", "1", "-1"),
            c("-1", "1", "-1"),
            c("-1", "-1", "1"),
            c("1", "-1", "1"),
            c("1", "1", "1"),
            c("-1", "1", "1"),
        ]
    );
}
