use polyblade::polyhedron::name::rename;

#[test]
fn letters_go_in_front() {
    let truncated = rename(&String::from("C"), 't');
    assert_eq!(truncated, "tC");
    assert_eq!(rename(&truncated, 'a'), "atC");
}

#[test]
fn bevel_replaces_its_two_letters() {
    let steps = rename(&rename(&String::from("C"), 't'), 'a');
    assert_eq!(rename(&steps, 'b'), "bC");
}

#[test]
fn dual_cancels_a_leading_dual() {
    let dual = rename(&String::from("T"), 'd');
    assert_eq!(dual, "dT");
    assert_eq!(rename(&dual, 'd'), "T");
}

#[test]
fn letters_go_in_front_of_any_name() {
    assert_eq!(rename(&String::from("\u{e9}"), 'a'), "a\u{e9}");
    assert_eq!(rename(&String::from("C"), 'a'), "aC");
}

#[test]
fn bevel_drops_two_bytes() {
    assert_eq!(rename(&String::from("atC"), 'b'), "bC");
    // A two-byte letter is the first two bytes by itself.
    assert_eq!(rename(&String::from("\u{e9}x"), 'b'), "bx");
}

#[test]
fn dual_cancels_only_a_leading_dual() {
    assert_eq!(rename(&String::from("dC"), 'd'), "C");
    assert_eq!(rename(&String::from("C\u{e9}"), 'd'), "dC\u{e9}");
}
