use network_programming::ftp::{command_step, ftp_command, ftp_greeting, ftp_step, parse_ftp_command, FtpCommand, FtpState};

#[test]
fn greeting_text() {
    assert_eq!(ftp_greeting(), "220 Welcome to my FTP server\r\n");
}

#[test]
fn commands_in_any_case_and_spacing() {
    assert_eq!(parse_ftp_command("USER"), FtpCommand::User);
    assert_eq!(parse_ftp_command("user\r\n"), FtpCommand::User);
    assert_eq!(parse_ftp_command("  Pass "), FtpCommand::Pass);
    assert_eq!(parse_ftp_command("reTR"), FtpCommand::Retr);
    assert_eq!(parse_ftp_command("\tquit\n"), FtpCommand::Quit);
    assert_eq!(parse_ftp_command("LIST"), FtpCommand::Unknown);
    assert_eq!(parse_ftp_command(""), FtpCommand::Unknown);
    assert_eq!(parse_ftp_command("USER alice"), FtpCommand::Unknown);
}

#[test]
fn uppercase_mapping_is_unicode() {
    assert_eq!(parse_ftp_command("pa\u{df}"), FtpCommand::Pass);
    assert_eq!(parse_ftp_command("u\u{17f}er"), FtpCommand::User);
    assert_eq!(parse_ftp_command("qu\u{131}t"), FtpCommand::Quit);
}

#[test]
fn command_names() {
    assert_eq!(ftp_command("USER"), FtpCommand::User);
    assert_eq!(ftp_command("user"), FtpCommand::Unknown);
    assert_eq!(ftp_command("RETR"), FtpCommand::Retr);
}

#[test]
fn replies_to_commands() {
    let s = command_step(FtpCommand::User);
    assert_eq!(s.next, FtpState::AwaitUsername);
    assert_eq!(s.replies, vec!["331 Please specify the username.\r\n"]);
    assert!(s.username.is_none());
    let s = command_step(FtpCommand::Pass);
    assert_eq!(s.next, FtpState::AwaitCommand);
    assert_eq!(s.replies, vec!["230 Login successful.\r\n"]);
    let s = command_step(FtpCommand::Retr);
    assert_eq!(s.next, FtpState::AwaitCommand);
    assert_eq!(
        s.replies,
        vec!["150 Opening data connection.\r\n", "Hello, world!", "\r\n226 Transfer complete.\r\n"]
    );
    let s = command_step(FtpCommand::Quit);
    assert_eq!(s.next, FtpState::Closed);
    assert_eq!(s.replies, vec!["221 Goodbye.\r\n"]);
    let s = command_step(FtpCommand::Unknown);
    assert_eq!(s.next, FtpState::AwaitCommand);
    assert_eq!(s.replies, vec!["502 Command not implemented.\r\n"]);
}

#[test]
fn a_whole_session() {
    let s = ftp_step(FtpState::AwaitCommand, "USER\r\n");
    assert_eq!(s.next, FtpState::AwaitUsername);
    let s = ftp_step(s.next, "  alice \r\n");
    assert_eq!(s.next, FtpState::AwaitCommand);
    assert_eq!(s.username.as_deref(), Some("alice"));
    assert_eq!(s.replies, vec!["331 Please specify the password.\r\n"]);
    let s = ftp_step(s.next, "pass");
    assert_eq!(s.replies, vec!["230 Login successful.\r\n"]);
    let s = ftp_step(s.next, "QUIT");
    assert_eq!(s.next, FtpState::Closed);
}

#[test]
fn only_quit_closes() {
    for c in [FtpCommand::User, FtpCommand::Pass, FtpCommand::Retr, FtpCommand::Unknown] {
        assert_ne!(command_step(c).next, FtpState::Closed);
        assert!(!command_step(c).replies.is_empty());
    }
    assert_eq!(command_step(FtpCommand::Quit).next, FtpState::Closed);
}

#[test]
fn surrounding_space_never_changes_the_command() {
    for raw in ["user", " RETR\t", "quit\n", "nope", "  "] {
        assert_eq!(parse_ftp_command(raw), parse_ftp_command(raw.trim()));
    }
}
