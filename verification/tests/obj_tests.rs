use raytracer::obj::{parse_obj_line, parse_obj_tokens, ObjError, ObjLine};

#[test]
fn vertex_line() {
    assert_eq!(
        parse_obj_line("v 1.0 -2.5  3", 0),
        Ok(ObjLine::Vertex("1.0".to_string(), "-2.5".to_string(), "3".to_string()))
    );
}

#[test]
fn face_line_counts_from_one() {
    assert_eq!(parse_obj_line("f 1 2 3", 3), Ok(ObjLine::Face(0, 1, 2)));
    assert_eq!(parse_obj_line("\tf  +3 1 2 extra", 3), Ok(ObjLine::Face(2, 0, 1)));
}

#[test]
fn face_index_zero_or_too_large() {
    assert_eq!(parse_obj_line("f 0 1 2", 3), Err(ObjError::IndexOutOfRange));
    assert_eq!(parse_obj_line("f 1 2 4", 3), Err(ObjError::IndexOutOfRange));
}

#[test]
fn face_index_not_a_number() {
    assert_eq!(parse_obj_line("f 1 x 2", 3), Err(ObjError::BadIndex));
    assert_eq!(parse_obj_line("f 1 2 -3", 3), Err(ObjError::BadIndex));
    assert_eq!(parse_obj_line("f 1/1 2 3", 3), Err(ObjError::BadIndex));
    assert_eq!(
        parse_obj_line("f 1 2 99999999999999999999999", 3),
        Err(ObjError::BadIndex)
    );
}

#[test]
fn other_lines_are_skipped() {
    assert_eq!(parse_obj_line("", 0), Ok(ObjLine::Skip));
    assert_eq!(parse_obj_line("# a comment", 0), Ok(ObjLine::Skip));
    assert_eq!(parse_obj_line("vn 0 0 1", 0), Ok(ObjLine::Skip));
    assert_eq!(parse_obj_line("v 1 2", 0), Ok(ObjLine::Skip));
    assert_eq!(parse_obj_line("f 1 2", 3), Ok(ObjLine::Skip));
}

#[test]
fn tokens_already_cut() {
    let tokens: Vec<String> = ["f", "2", "2", "1"].iter().map(|s| s.to_string()).collect();
    assert_eq!(parse_obj_tokens(&tokens, 2), Ok(ObjLine::Face(1, 1, 0)));
}
