use pinturapp::io::mesh_loader::{parse_face_vertex, parse_obj, ObjVertexRef};

fn text(tokens: &Vec<Vec<char>>) -> Vec<String> {
    tokens.iter().map(|t| t.iter().collect()).collect()
}

const QUAD: &str = "# a quad\nv 0 0 0\nv 1 0 0\nv 1 1 0\nv 0 1 0\nvt 0 0\nvt 1 0\nvt 1 1\nvt 0 1\nvn 0 0 1\nf 1/1/1 2/2/1 3/3/1 4/4/1\n";

#[test]
fn face_vertex_with_and_without_normal() {
    assert_eq!(parse_face_vertex("3/2/1", 0), Ok((2, 1, Some(0))));
    assert_eq!(parse_face_vertex("3/2", 0), Ok((2, 1, None)));
    assert_eq!(parse_face_vertex("3/2/", 0), Ok((2, 1, None)));
    assert_eq!(parse_face_vertex("3/2/5/9", 0), Ok((2, 1, Some(4))));
}

#[test]
fn face_vertex_errors_name_the_line() {
    assert_eq!(parse_face_vertex("3", 4), Err("Line 5: face vertex '3' is missing UV index".to_string()));
    assert_eq!(parse_face_vertex("3//1", 0), Err("Line 1: face vertex '3//1' has empty UV index".to_string()));
    assert_eq!(parse_face_vertex("x/1", 1), Err("Line 2: invalid position index 'x'".to_string()));
    assert_eq!(parse_face_vertex("1/-1", 1), Err("Line 2: invalid UV index '-1'".to_string()));
    assert_eq!(parse_face_vertex("1/1/n", 1), Err("Line 2: invalid normal index 'n'".to_string()));
    assert_eq!(
        parse_face_vertex("0/1", 9),
        Err("Line 10: OBJ indices are 1-based, found zero index".to_string())
    );
    assert_eq!(
        parse_face_vertex("1/1/0", 9),
        Err("Line 10: OBJ indices are 1-based, found zero normal index".to_string())
    );
}

#[test]
fn a_quad_becomes_a_fan_of_two_triangles() {
    let doc = parse_obj(QUAD).unwrap();
    assert_eq!(doc.positions.len(), 4);
    assert_eq!(doc.texcoords.len(), 4);
    assert_eq!(doc.normals.len(), 1);
    assert_eq!(text(&doc.positions[1]), vec!["1", "0", "0"]);
    assert_eq!(doc.vertices.len(), 4);
    assert_eq!(doc.vertices[2], ObjVertexRef { position: 2, texcoord: 2, normal: Some(0) });
    assert_eq!(doc.indices, vec![0, 1, 2, 0, 2, 3]);
}

#[test]
fn shared_corners_are_welded() {
    let src = "v 0 0 0\nv 1 0 0\nv 1 1 0\nv 0 1 0\nvt 0 0\nf 1/1 2/1 3/1\nf 1/1 3/1 4/1\n";
    let doc = parse_obj(src).unwrap();
    assert_eq!(doc.vertices.len(), 4);
    assert_eq!(doc.indices, vec![0, 1, 2, 0, 2, 3]);
    // The same position with another UV is another vertex.
    let src = "v 0 0 0\nv 1 0 0\nv 1 1 0\nvt 0 0\nvt 1 1\nf 1/1 2/1 3/1\nf 1/2 2/1 3/1\n";
    let doc = parse_obj(src).unwrap();
    assert_eq!(doc.vertices.len(), 4);
    assert_eq!(doc.indices, vec![0, 1, 2, 3, 1, 2]);
}

#[test]
fn blank_lines_comments_and_other_records_are_skipped() {
    let src = "\n   \n# comment\no object\ns 1\nv 0 0 0\r\nv 1 0 0\nv 0 1 0\nvt 0 0\nusemtl red\nf 1/1 2/1 3/1";
    let doc = parse_obj(src).unwrap();
    assert_eq!(doc.indices, vec![0, 1, 2]);
}

#[test]
fn coordinates_must_be_floats() {
    assert_eq!(parse_obj("v 0 0\n").err(), Some("Line 1: missing z".to_string()));
    assert_eq!(parse_obj("vt 0 x\n").err(), Some("Line 1: invalid float for v".to_string()));
    assert_eq!(parse_obj("\nvn 1 2 three\n").err(), Some("Line 2: invalid float for nz".to_string()));
    assert!(parse_obj("v 1e3 -2.5 +.5\nv inf NaN 0\nv 0 0 0\nvt 0 0\nf 1/1 2/1 3/1\n").is_ok());
}

#[test]
fn faces_must_reference_what_was_read() {
    let head = "v 0 0 0\nv 1 0 0\nv 0 1 0\nvt 0 0\n";
    assert_eq!(
        parse_obj(&format!("{head}f 1/1 2/1\n")).err(),
        Some("Line 5: face has fewer than 3 vertices".to_string())
    );
    assert_eq!(
        parse_obj(&format!("{head}f 1/1 2/1 4/1\n")).err(),
        Some("Line 5: position index out of bounds".to_string())
    );
    assert_eq!(
        parse_obj(&format!("{head}f 1/1 2/2 3/1\n")).err(),
        Some("Line 5: UV index out of bounds".to_string())
    );
    assert_eq!(
        parse_obj(&format!("{head}f 1/1/1 2/1 3/1\n")).err(),
        Some("Line 5: normal index out of bounds".to_string())
    );
}

#[test]
fn a_text_without_faces_is_refused() {
    let msg = Some("OBJ did not contain any renderable faces with UVs".to_string());
    assert_eq!(parse_obj("").err(), msg);
    assert_eq!(parse_obj("v 0 0 0\nvt 0 0\n").err(), msg);
}

#[test]
fn the_first_error_wins() {
    assert_eq!(parse_obj("v 0 0\nf 1\n").err(), Some("Line 1: missing z".to_string()));
}

#[test]
fn parsed_indices_form_whole_triangles_of_known_vertices() {
    let doc = parse_obj(QUAD).unwrap();
    assert_eq!(doc.indices.len() % 3, 0);
    assert!(doc.indices.iter().all(|i| (*i as usize) < doc.vertices.len()));
    for (a, va) in doc.vertices.iter().enumerate() {
        for vb in doc.vertices.iter().skip(a + 1) {
            assert_ne!(va, vb);
        }
    }
}

#[test]
fn a_quad_reads_as_its_two_fan_triangles() {
    let l = "v 0 0 0\nv 1 0 0\nv 1 1 0\nv 0 1 0\nvt 0 0\nvt 1 0\nvt 1 1\nvt 0 1";
    let c4 = format!("{l}\nf 1/1 2/2 3/3 4/4");
    let c3 = format!("{l}\nf 1/1 2/2 3/3\nf 1/1 3/3 4/4");
    let quad = parse_obj(&c4).unwrap();
    let tris = parse_obj(&c3).unwrap();
    assert_eq!(quad.vertices.len(), 4);
    assert_eq!(quad.indices, vec![0, 1, 2, 0, 2, 3]);
    assert_eq!(tris.vertices, quad.vertices);
    assert_eq!(tris.indices, quad.indices);
    assert_eq!(tris.positions, quad.positions);
    assert_eq!(tris.texcoords, quad.texcoords);
    assert_eq!(tris.normals, quad.normals);
}

#[test]
fn vertices_are_numbered_by_first_use() {
    let src = "v 0 0 0\nv 1 0 0\nv 1 1 0\nvt 0 0\nvt 1 0\nf 3/1 1/2 2/1\nf 2/1 3/1 1/1";
    let m = parse_obj(src).unwrap();
    assert_eq!(
        m.vertices,
        vec![
            ObjVertexRef { position: 2, texcoord: 0, normal: None },
            ObjVertexRef { position: 0, texcoord: 1, normal: None },
            ObjVertexRef { position: 1, texcoord: 0, normal: None },
            ObjVertexRef { position: 0, texcoord: 0, normal: None },
        ]
    );
    assert_eq!(m.indices, vec![0, 1, 2, 2, 0, 3]);
}
