use supercv::kind::ContentType;

#[test]
fn pasteboard_test_build() {
    println!("build pass!")
}

#[test]
fn pasteboard_new_type() {
    let c_type = ContentType::File;
    println!("{:?}", c_type.to_string());
    assert_eq!(c_type.to_string(), "File");
}
