use permtrace::command::{basename, parse_command, Command};

#[test]
fn plain_line_is_text() {
    match parse_command("hello there") {
        Command::Text(s) => assert_eq!(s, "hello there"),
        _ => panic!("not text"),
    }
    match parse_command("") {
        Command::Text(s) => assert_eq!(s, ""),
        _ => panic!("not text"),
    }
}

#[test]
fn file_command_carries_the_path() {
    match parse_command("\\f:dir/notes.txt") {
        Command::SendFile { path } => assert_eq!(path, "dir/notes.txt"),
        _ => panic!("not a file command"),
    }
}

#[test]
fn numeric_command_selects_the_recipient() {
    assert!(matches!(parse_command("\\5"), Command::Select(5)));
    assert!(matches!(parse_command("\\42"), Command::Select(42)));
    assert!(matches!(parse_command("\\+12"), Command::Select(12)));
    assert!(matches!(parse_command("\\4294967295"), Command::Select(u32::MAX)));
}

#[test]
fn unparsable_command_is_ignored() {
    assert!(matches!(parse_command("\\"), Command::Ignore));
    assert!(matches!(parse_command("\\x"), Command::Ignore));
    assert!(matches!(parse_command("\\12a"), Command::Ignore));
    assert!(matches!(parse_command("\\+"), Command::Ignore));
    // One past u32::MAX no longer fits.
    assert!(matches!(parse_command("\\4294967296"), Command::Ignore));
}

#[test]
fn basename_takes_what_follows_the_last_slash() {
    assert_eq!(basename("dir/sub/name.txt"), "name.txt");
    assert_eq!(basename("name.txt"), "name.txt");
    assert_eq!(basename("dir/"), "");
    assert_eq!(basename("/root"), "root");
    assert_eq!(basename(""), "");
}
