use honeyssh::shell::{command_output, FakeShell};

fn run(shell: &mut FakeShell, input: &str) -> String {
    String::from_utf8(shell.feed(input.as_bytes())).unwrap()
}

fn command(line: &str) -> Option<String> {
    command_output(&line.as_bytes().to_vec()).map(|t| String::from_utf8(t).unwrap())
}

#[test]
fn prompt_is_default_ps1() {
    let shell = FakeShell::new();
    assert_eq!(shell.prompt(), b"$ ".to_vec());
}

#[test]
fn enter_on_blank_line_prints_prompt() {
    let mut shell = FakeShell::new();
    assert_eq!(run(&mut shell, "\r"), "\r\n$ ");
}

#[test]
fn typed_line_is_echoed_then_executed() {
    let mut shell = FakeShell::new();
    assert_eq!(
        run(&mut shell, "id\r"),
        "id\r\nuid=1000(user) gid=1000(user) groups=1000(user)\r\n$ "
    );
    // nothing stays pending: a second enter gives a bare prompt
    assert_eq!(run(&mut shell, "\r"), "\r\n$ ");
}

#[test]
fn line_split_over_several_feeds() {
    let mut shell = FakeShell::new();
    assert_eq!(run(&mut shell, "l"), "l");
    assert_eq!(run(&mut shell, "s"), "s");
    assert_eq!(run(&mut shell, "\r"), "\r\ninfo.txt  passwords.txt\r\n$ ");
}

#[test]
fn erase_on_empty_buffer() {
    let mut shell = FakeShell::new();
    assert_eq!(shell.feed(&[0x7f]), Vec::<u8>::new());
    assert_eq!(run(&mut shell, "\r"), "\r\n$ ");
}

#[test]
fn erase_drops_last_pending_byte_and_overstrikes() {
    let mut shell = FakeShell::new();
    // the echo "ix" becomes "\r" + "i"; the pending line becomes "i"
    assert_eq!(shell.feed(b"ix\x7f"), b"\ri".to_vec());
    assert_eq!(run(&mut shell, "d\r"), "d\r\nuid=1000(user) gid=1000(user) groups=1000(user)\r\n$ ");
}

#[test]
fn interrupt_discards_staged_output() {
    let mut shell = FakeShell::new();
    assert_eq!(run(&mut shell, "echo hi\x03"), "^C\r\n$ ");
    // the pending line was dropped too
    assert_eq!(run(&mut shell, "\r"), "\r\n$ ");
}

#[test]
fn interrupt_after_executed_line() {
    let mut shell = FakeShell::new();
    assert_eq!(run(&mut shell, "ls\r\x03"), "^C\r\n$ ");
}

#[test]
fn bytes_after_interrupt_are_kept() {
    let mut shell = FakeShell::new();
    assert_eq!(run(&mut shell, "ab\x03cd"), "^C\r\n$ cd");
}

#[test]
fn echo_adds_space_after_each_token() {
    assert_eq!(command("echo a b"), Some("a b ".to_string()));
    let shell = FakeShell::new();
    let out = shell.execute(&b"echo a b".to_vec());
    assert_eq!(String::from_utf8(out).unwrap(), "a b \r\n$ ");
}

#[test]
fn id_output_is_fixed() {
    assert_eq!(command("id"), Some("uid=1000(user) gid=1000(user) groups=1000(user)".to_string()));
}

#[test]
fn ls_shows_bait_files() {
    assert_eq!(command("  ls -la /"), Some("info.txt  passwords.txt".to_string()));
}

#[test]
fn cat_prints_nothing() {
    assert_eq!(command("cat /etc/passwd"), Some(String::new()));
    let mut shell = FakeShell::new();
    assert_eq!(run(&mut shell, "cat x\r"), "cat x\r\n\r\n$ ");
}

#[test]
fn unknown_command_not_found() {
    assert_eq!(command("bogus"), Some("sh: bogus: command not found...".to_string()));
}

#[test]
fn blank_line_has_no_command() {
    assert_eq!(command(""), None);
    assert_eq!(command(" \t "), None);
    let shell = FakeShell::new();
    assert_eq!(shell.execute(&b"   ".to_vec()), b"$ ".to_vec());
}

#[test]
fn expand_replaces_variables() {
    let shell = FakeShell::new();
    assert_eq!(shell.expand(&b"echo $HOME $USER".to_vec()), b"echo /home/user user".to_vec());
    let mut shell = FakeShell::new();
    assert_eq!(run(&mut shell, "echo $SHELL\r"), "echo $SHELL\r\nsh \r\n$ ");
}

#[test]
fn expand_leaves_line_without_dollar() {
    let shell = FakeShell::new();
    let line = b"echo HOME USER".to_vec();
    let once = shell.expand(&line);
    assert_eq!(once, line);
    assert_eq!(shell.expand(&once), once);
}

#[test]
fn expand_unknown_variable_stays() {
    let shell = FakeShell::new();
    assert_eq!(shell.expand(&b"$NOPE".to_vec()), b"$NOPE".to_vec());
}

#[test]
fn invalid_utf8_is_replaced_before_execution() {
    let mut shell = FakeShell::new();
    let out = shell.feed(b"echo \xff\r");
    assert_eq!(out, b"echo \xff\r\n\xef\xbf\xbd \r\n$ ".to_vec());
}

#[test]
fn execute_buffer_runs_pending_line() {
    let mut shell = FakeShell::new();
    shell.feed(b"echo x");
    assert_eq!(shell.execute_buffer(), b"\r\nx \r\n$ ".to_vec());
}
