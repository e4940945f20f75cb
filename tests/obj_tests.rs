use path_tracer::obj::{load_obj, ObjError};

fn text(s: &str) -> Vec<u8> {
    s.as_bytes().to_vec()
}

#[test]
fn reads_vertices_and_faces() {
    let src = "# a triangle\nv 0.0 1.0 -2.5\nv 1 0 0\r\nv  0 0 1\nvn 0 0 1\nf 1/1/1 2/2/2 3/3/3\nf 3 2 1\n";
    let mesh = load_obj(&text(src)).unwrap();
    assert_eq!(mesh.vertices.len(), 3);
    assert_eq!(mesh.vertices[0].x, b"0.0".to_vec());
    assert_eq!(mesh.vertices[0].z, b"-2.5".to_vec());
    assert_eq!(mesh.vertices[1].z, b"0".to_vec());
    // A doubled space leaves an empty field, so the coordinates shift by one.
    assert_eq!(mesh.vertices[2].x, b"".to_vec());
    assert_eq!(mesh.vertices[2].y, b"0".to_vec());
    assert_eq!(mesh.faces, vec![(0, 1, 2), (2, 1, 0)]);
}

#[test]
fn faces_may_name_later_vertices() {
    let mesh = load_obj(&text("f 1 2 3\nv 0 0 0\nv 1 0 0\nv 0 1 0")).unwrap();
    assert_eq!(mesh.faces, vec![(0, 1, 2)]);
    assert_eq!(mesh.vertices[2].y, b"1".to_vec());
}

#[test]
fn empty_text_is_empty_mesh() {
    let mesh = load_obj(&vec![]).unwrap();
    assert!(mesh.vertices.is_empty() && mesh.faces.is_empty());
}

#[test]
fn short_lines_are_refused() {
    assert_eq!(load_obj(&text("v 1 2\n")).err(), Some(ObjError::MissingField));
    assert_eq!(load_obj(&text("v 1 2 3\nf 1 1\n")).err(), Some(ObjError::MissingField));
}

#[test]
fn bad_indices_are_refused() {
    assert_eq!(load_obj(&text("v 1 2 3\nf 1 x 1\n")).err(), Some(ObjError::BadIndex));
    assert_eq!(load_obj(&text("v 1 2 3\nf 1 /1 1\n")).err(), Some(ObjError::BadIndex));
    assert_eq!(load_obj(&text("v 1 2 3\nf 1 99999999999999999999999 1\n")).err(), Some(ObjError::BadIndex));
    assert_eq!(load_obj(&text("v 1 2 3\nf 1 0 1\n")).err(), Some(ObjError::IndexOutOfRange));
    assert_eq!(load_obj(&text("v 1 2 3\nf 1 2 1\n")).err(), Some(ObjError::IndexOutOfRange));
    assert_eq!(load_obj(&text("v 1 2 3\nf +1 1 1\n")).unwrap().faces, vec![(0, 0, 0)]);
}

#[test]
fn vertex_errors_come_before_face_errors() {
    assert_eq!(load_obj(&text("f 9 9 9\nv 1\n")).err(), Some(ObjError::MissingField));
}
