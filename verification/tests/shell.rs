use task_engine::shell::{parse_command, split_command};

fn bytes(s: &str) -> Vec<u8> {
    s.as_bytes().to_vec()
}

#[test]
fn split_drops_empty_pieces() {
    assert_eq!(
        split_command(&bytes("/musl/busybox sh libctest_testcode.sh")),
        vec![bytes("/musl/busybox"), bytes("sh"), bytes("libctest_testcode.sh")]
    );
    assert_eq!(
        split_command(&bytes("  a   b  ")),
        vec![bytes("a"), bytes("b")]
    );
    assert_eq!(split_command(&bytes("one")), vec![bytes("one")]);
    assert_eq!(split_command(&bytes("a\tb c")), vec![bytes("a\tb"), bytes("c")]);
}

#[test]
fn split_of_blank_line_is_empty() {
    assert!(split_command(&bytes("")).is_empty());
    assert!(split_command(&bytes("    ")).is_empty());
}

#[test]
fn parse_command_names_program_and_keeps_it_as_first_argument() {
    let c = parse_command(&bytes("/musl/busybox sh run-static.sh")).unwrap();
    assert_eq!(c.filename, bytes("/musl/busybox"));
    assert_eq!(
        c.args,
        vec![bytes("/musl/busybox"), bytes("sh"), bytes("run-static.sh")]
    );
    let c = parse_command(&bytes(" ls")).unwrap();
    assert_eq!(c.filename, bytes("ls"));
    assert_eq!(c.args, vec![bytes("ls")]);
}

#[test]
fn parse_command_of_blank_line_is_none() {
    assert!(parse_command(&bytes("")).is_none());
    assert!(parse_command(&bytes("   ")).is_none());
}
