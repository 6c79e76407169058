use polyblade::polyhedron::shape::Shape;
use polyblade::polyhedron::shape::schlegel::decimal_string;

#[test]
fn cube_has_one_face_type() {
    let options = Shape::prism(4).schlegel_face_options();
    assert_eq!(options.len(), 1);
    assert_eq!(options[0].face_index, 0);
    assert_eq!(options[0].count, 6);
    assert_eq!(options[0].signature.side_count, 4);
    assert_eq!(options[0].label, "4-gon (4,4,4,4)");
}

#[test]
fn triangular_prism_has_two_face_types() {
    let options = Shape::prism(3).schlegel_face_options();
    assert_eq!(options.len(), 2);
    // Faces go in canonical order, more sides first.
    assert_eq!(options[0].face_index, 0);
    assert_eq!(options[0].count, 3);
    assert_eq!(options[0].label, "4-gon (3,3,4,4)");
    assert_eq!(options[1].count, 2);
    assert_eq!(options[1].label, "3-gon (4,4,4)");
}

#[test]
fn decimal_strings() {
    assert_eq!(decimal_string(0), "0");
    assert_eq!(decimal_string(7), "7");
    assert_eq!(decimal_string(10), "10");
    assert_eq!(decimal_string(1234), "1234");
}
