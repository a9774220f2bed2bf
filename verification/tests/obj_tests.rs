use scop::error::LoadError;
use scop::obj::{
    classify_line, faces_indexable, finish_geometry, is_ppm_path, obj_text_readable, parse_face,
    scan_obj, str_equal, triangulate, uv_mapping, Face, LineKind, ObjScan, UvMapping,
};

fn face(a: u32, b: u32, c: u32, d: u32) -> Face {
    Face { a, b, c, d }
}

fn fields(s: &str) -> Vec<Vec<u8>> {
    s.split_ascii_whitespace().map(|w| w.as_bytes().to_vec()).collect()
}

#[test]
fn lines_are_classified_by_their_first_two_bytes() {
    assert_eq!(classify_line(b"v 1 2 3"), LineKind::Vertex);
    assert_eq!(classify_line(b"f 1 2 3"), LineKind::Face);
    assert_eq!(classify_line(b"vn 0 0 1"), LineKind::Other);
    assert_eq!(classify_line(b"# comment"), LineKind::Other);
    assert_eq!(classify_line(b""), LineKind::Other);
}

#[test]
fn faces_have_three_or_four_numbers() {
    assert_eq!(parse_face(&fields("1 2 3")), Some(face(1, 2, 3, 0)));
    assert_eq!(parse_face(&fields("1 2 3 4")), Some(face(1, 2, 3, 4)));
    assert_eq!(parse_face(&fields("1 2")), None);
    assert_eq!(parse_face(&fields("1 2 3 4 5")), None);
    assert_eq!(parse_face(&fields("1/1 2/2 3/3")), None);
    assert_eq!(parse_face(&fields("1 -2 3")), None);
}

#[test]
fn scan_reads_vertices_and_faces() {
    let text = "# cube\nv 1.0 2.0 3.0\nv -1 0 0.5\r\nvt 0 0\nf 1 2 3\nf 1 2 3 4\n";
    let scan = scan_obj(text);
    let verts = scan.vertices.unwrap();
    assert_eq!(verts.len(), 2);
    assert_eq!(verts[0], fields("1.0 2.0 3.0"));
    assert_eq!(verts[1], fields("-1 0 0.5"));
    assert_eq!(scan.faces.unwrap(), vec![face(1, 2, 3, 0), face(1, 2, 3, 4)]);
}

#[test]
fn scan_refuses_short_vertices_and_bad_faces() {
    let scan = scan_obj("v 1 2\nf 1 2 3\n");
    assert!(scan.vertices.is_none());
    assert_eq!(scan.faces.unwrap(), vec![face(1, 2, 3, 0)]);
    let scan = scan_obj("v 1 2 3\nf 1 x 3\n");
    assert_eq!(scan.vertices.unwrap().len(), 1);
    assert!(scan.faces.is_none());
    let scan = scan_obj("");
    assert_eq!(scan.vertices.unwrap().len(), 0);
    assert_eq!(scan.faces.unwrap().len(), 0);
}

#[test]
fn one_byte_lines_cannot_be_read() {
    assert!(obj_text_readable("v 1 2 3\nf 1 2 3\n\n"));
    assert!(!obj_text_readable("v 1 2 3\nx\n"));
    assert!(!obj_text_readable("aé\n"));
    assert!(obj_text_readable("é\n"));
}

#[test]
fn triangles_and_quads_become_index_triples() {
    let faces = vec![face(1, 2, 3, 0), face(1, 2, 3, 4)];
    assert_eq!(triangulate(&faces), vec![0, 1, 2, 0, 1, 2, 0, 2, 3]);
    // A zero in a triangle is skipped.
    assert_eq!(triangulate(&vec![face(0, 2, 3, 0)]), vec![1, 2]);
    assert!(faces_indexable(&faces));
    assert!(!faces_indexable(&vec![face(0, 2, 3, 4)]));
}

#[test]
fn concatenated_faces_give_concatenated_indices() {
    let f1 = vec![face(4, 5, 6, 0)];
    let f2 = vec![face(1, 2, 3, 7)];
    let mut both = f1.clone();
    both.extend(f2.iter().copied());
    let mut expected = triangulate(&f1);
    expected.extend(triangulate(&f2));
    assert_eq!(triangulate(&both), expected);
}

#[test]
fn indices_stay_below_the_largest_vertex_number() {
    let faces = vec![face(3, 1, 2, 0), face(1, 2, 3, 3)];
    assert!(triangulate(&faces).iter().all(|&i| i < 3));
}

fn scan(vertices: bool, faces: Option<Vec<Face>>) -> ObjScan {
    ObjScan { vertices: if vertices { Some(vec![]) } else { None }, faces }
}

#[test]
fn geometry_errors_come_in_order() {
    let ok = Some(vec![face(1, 2, 3, 0)]);
    assert_eq!(finish_geometry(&scan(false, None), true, "t.txt"), Err(LoadError::VertexData));
    assert_eq!(finish_geometry(&scan(true, ok.clone()), false, "t.ppm"), Err(LoadError::VertexData));
    assert_eq!(finish_geometry(&scan(true, None), true, "t.txt"), Err(LoadError::FaceData));
    assert_eq!(finish_geometry(&scan(true, ok.clone()), true, "t.png"), Err(LoadError::TextureFormat));
    assert_eq!(finish_geometry(&scan(true, ok), true, "tex/t.ppm"), Ok(vec![0, 1, 2]));
}

#[test]
fn texture_paths_must_end_in_ppm() {
    assert!(is_ppm_path("a.ppm"));
    assert!(is_ppm_path(".ppm"));
    assert!(!is_ppm_path("ppm"));
    assert!(!is_ppm_path("a.PPM"));
    assert!(!is_ppm_path("a.ppm "));
}

#[test]
fn model_kinds_choose_the_mapping() {
    assert_eq!(uv_mapping("42"), UvMapping::Box);
    assert_eq!(uv_mapping("sphere"), UvMapping::Sphere);
    assert_eq!(uv_mapping("box"), UvMapping::Unmapped);
    assert!(str_equal("é", "é"));
    assert!(!str_equal("ab", "abc"));
}

#[test]
fn error_messages() {
    assert_eq!(LoadError::VertexData.message(), "Failed to parse vertex data");
    assert_eq!(LoadError::FaceData.message(), "Failed to parse face data");
    assert_eq!(LoadError::TextureFormat.message(), "texture must be of ppm format");
    assert_eq!(LoadError::PpmMagic.message(), "malformed ppm 0");
    assert_eq!(LoadError::PpmSize.message(), "malformed ppm 1");
    assert_eq!(LoadError::PpmMaxValue.message(), "malformed ppm 2");
}

#[test]
fn a_written_model_is_read_back() {
    let lines = ["v 0.5 -1 2e3", "# note", "f 1 2 3", "f 10 20 30 40", "vt 0 1"];
    let text = lines.join("\n");
    let scan = scan_obj(&text);
    assert_eq!(scan.vertices.unwrap(), vec![fields("0.5 -1 2e3")]);
    assert_eq!(scan.faces.unwrap(), vec![face(1, 2, 3, 0), face(10, 20, 30, 40)]);
}

#[test]
fn a_written_face_line_is_read_back() {
    assert_eq!(parse_face(&fields("4294967295 007 +1")), Some(face(u32::MAX, 7, 1, 0)));
    assert_eq!(parse_face(&fields("4294967296 1 1")), None);
}
