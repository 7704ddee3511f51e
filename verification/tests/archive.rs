use cs375_autograder::archive::entry_name;

fn named(student: &str, name: &str) -> Option<(String, String)> {
    Some((student.to_string(), name.to_string()))
}

#[test]
fn an_entry_names_its_student_and_its_file() {
    assert_eq!(
        entry_name("doejane_12345_6789012_lexanc.c"),
        named("doejane", "lexanc.c")
    );
    assert_eq!(entry_name("doejane_late_12345_6789012_lexan.l"), named("doejane", "lexan.l"));
}

#[test]
fn the_counter_of_a_second_upload_is_dropped() {
    assert_eq!(entry_name("doejane_12345_6789012_lexanc-1.c"), named("doejane", "lexanc.c"));
    assert_eq!(entry_name("doejane_12345_6789012_parse-12.y"), named("doejane", "parse.y"));
    assert_eq!(entry_name("doe_1_2_name99.tar.gz"), named("doe", "name99.tar.gz"));
    assert_eq!(entry_name("doe_1_2_name.tar-3.gz"), named("doe", "name.tar.gz"));
}

#[test]
fn a_name_made_of_a_counter_alone_is_empty() {
    assert_eq!(entry_name("doe_file_123.c"), named("doe", ".c"));
    assert_eq!(entry_name("doe_123.c"), named("doe", ".c"));
    assert_eq!(entry_name("doe_1-2-3.c"), named("doe", ".c"));
}

#[test]
fn an_entry_needs_an_underscore_and_a_point() {
    assert_eq!(entry_name("doejane.c"), None);
    assert_eq!(entry_name("doejane_lexanc"), None);
    assert_eq!(entry_name(""), None);
    assert_eq!(entry_name("a.b_c"), None);
    assert_eq!(entry_name("_.x"), named("", ".x"));
    assert_eq!(entry_name("a_b."), named("a", "b."));
}
