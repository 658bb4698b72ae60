use atlas::gate::{source_float_free, source_never_names_the_weights};

/// Integer code, and comments that may name anything.
fn sources() -> Vec<String> {
    vec![
        String::from("pub mod cells;\npub mod clock;\npub mod matmul;\n"),
        String::from("pub fn frac_for(rmin: i32) -> i32 {\n    90 - rmin // the floor, in bits\n}\n"),
        format!("// a comment may name {}{} or {}{}\nlet w: u16 = 0x3F80;\n", "safe", "tensors", "f", "64"),
        String::from("let x: i128 = 1 << 100;\r\nlet y = x.wrapping_add(3);"),
    ]
}

#[test]
fn gate_1_source_needles() {
    let owned = sources();
    let files: Vec<&str> = owned.iter().map(|s| s.as_str()).collect();
    assert_eq!(source_float_free(&files), None);
}

#[test]
fn gate_8_source_never_names_the_weights() {
    let owned = sources();
    let files: Vec<&str> = owned.iter().map(|s| s.as_str()).collect();
    assert_eq!(source_never_names_the_weights(&files), None);
}

#[test]
fn gates_find_needles_in_code_but_not_in_comments() {
    let f = format!("{}{}", "f", "32");
    let code = format!("let x = 1;\nlet y: {} = 2.0;\n", f);
    let comment = format!("let x = 1; // a {} in a comment\n", f);
    assert_eq!(source_float_free(&[comment.as_str(), code.as_str()]), Some((1, 1)));
    assert_eq!(source_float_free(&[comment.as_str()]), None);
    let w = format!("let p = \"{}{}\";\n", "models", "/x");
    let cut = format!("let p = {}//x\n", "models");
    assert_eq!(source_never_names_the_weights(&[w.as_str()]), Some((0, 0)));
    assert_eq!(source_never_names_the_weights(&[cut.as_str()]), None);
}
