//! The FTP side: the replies of a toy FTP session, as a state machine that a
//! driver feeds with what it reads and whose replies it writes back.

use vstd::prelude::*;

use crate::text::{lemma_trim_ws_idempotent, str_equal, trim_str, trim_ws};

verus! {

/// Names what `str::to_uppercase` makes of a text: its Unicode uppercase
/// mapping, where one character may become several.
pub uninterp spec fn uppercase(text: Seq<char>) -> Seq<char>;

/// `c` is an ASCII character.
pub open spec fn is_ascii_char(c: char) -> bool {
    (c as u32) < 0x80
}

/// Every character of `s` is ASCII.
pub open spec fn is_ascii_text(s: Seq<char>) -> bool {
    forall|i: int| 0 <= i < s.len() ==> is_ascii_char(#[trigger] s[i])
}

/// The uppercase of an ASCII character: `a` to `z` become `A` to `Z`, the
/// rest stay.
pub open spec fn ascii_upper_char(c: char) -> char {
    if 'a' <= c <= 'z' {
        ((c as u32) - 32) as char
    } else {
        c
    }
}

/// The uppercase of an ASCII text, character by character.
pub open spec fn ascii_uppercase(s: Seq<char>) -> Seq<char> {
    s.map_values(|c: char| ascii_upper_char(c))
}

/// Upper-cases `text` with `str::to_uppercase` (trusted). The contract claims
/// that the result is a function of the text (`uppercase`) and that an ASCII
/// text maps as std's examples show, `a` to `z` onto `A` to `Z` and the rest
/// unchanged; what the Unicode mapping does beyond ASCII stays unsaid.
#[verifier::external_body]
fn to_uppercase(text: &str) -> (r: String)
    ensures
        r@ == uppercase(text@),
        is_ascii_text(text@) ==> r@ == ascii_uppercase(text@),
{
    text.to_uppercase()
}

/// The commands that the server knows.
#[derive(PartialEq, Eq, Structural, Clone, Copy, Debug)]
pub enum FtpCommand {
    User,
    Pass,
    Retr,
    Quit,
    Unknown,
}

/// Where a session stands.
#[derive(PartialEq, Eq, Structural, Clone, Copy, Debug)]
pub enum FtpState {
    /// Waiting for a command.
    AwaitCommand,
    /// `USER` was given; waiting for the user name.
    AwaitUsername,
    /// `QUIT` was given; the session is over.
    Closed,
}

/// The command that an upper-cased, trimmed command text names.
pub open spec fn command_named(upper: Seq<char>) -> FtpCommand {
    if upper == "USER"@ {
        FtpCommand::User
    } else if upper == "PASS"@ {
        FtpCommand::Pass
    } else if upper == "RETR"@ {
        FtpCommand::Retr
    } else if upper == "QUIT"@ {
        FtpCommand::Quit
    } else {
        FtpCommand::Unknown
    }
}

/// The command that a line read from the client gives: the line is trimmed of
/// white space and upper-cased, then compared with the command names.
pub open spec fn command_of(raw: Seq<char>) -> FtpCommand {
    command_named(uppercase(trim_ws(raw)))
}

/// Law: the four command names are pairwise different texts.
proof fn lemma_command_names_differ()
    ensures
        "USER"@ != "PASS"@,
        "USER"@ != "RETR"@,
        "USER"@ != "QUIT"@,
        "PASS"@ != "RETR"@,
        "PASS"@ != "QUIT"@,
        "RETR"@ != "QUIT"@,
{
    reveal_strlit("USER");
    reveal_strlit("PASS");
    reveal_strlit("RETR");
    reveal_strlit("QUIT");
    assert("USER"@[0] != "PASS"@[0]);
    assert("USER"@[0] != "RETR"@[0]);
    assert("USER"@[0] != "QUIT"@[0]);
    assert("PASS"@[0] != "RETR"@[0]);
    assert("PASS"@[0] != "QUIT"@[0]);
    assert("RETR"@[0] != "QUIT"@[0]);
}

/// Law: an upper-cased, trimmed text names `USER`, `PASS`, `RETR` or `QUIT`
/// exactly when it is that word, letter for letter, and names no command
/// (`Unknown`) for every other text, such as `PASV` or `USERS`.
pub proof fn lemma_command_named_exactly(upper: Seq<char>)
    ensures
        command_named(upper) == FtpCommand::User <==> upper == "USER"@,
        command_named(upper) == FtpCommand::Pass <==> upper == "PASS"@,
        command_named(upper) == FtpCommand::Retr <==> upper == "RETR"@,
        command_named(upper) == FtpCommand::Quit <==> upper == "QUIT"@,
        command_named(upper) == FtpCommand::Unknown <==> (upper != "USER"@ && upper != "PASS"@
            && upper != "RETR"@ && upper != "QUIT"@),
{
    lemma_command_names_differ();
}

/// Names the command that an upper-cased, trimmed command text gives.
pub fn ftp_command(upper: &str) -> (r: FtpCommand)
    ensures
        r == command_named(upper@),
        r == FtpCommand::User <==> upper@ == "USER"@,
        r == FtpCommand::Pass <==> upper@ == "PASS"@,
        r == FtpCommand::Retr <==> upper@ == "RETR"@,
        r == FtpCommand::Quit <==> upper@ == "QUIT"@,
        r == FtpCommand::Unknown <==> (upper@ != "USER"@ && upper@ != "PASS"@ && upper@ != "RETR"@
            && upper@ != "QUIT"@),
{
    proof { lemma_command_names_differ(); }
    if str_equal(upper, "USER") {
        FtpCommand::User
    } else if str_equal(upper, "PASS") {
        FtpCommand::Pass
    } else if str_equal(upper, "RETR") {
        FtpCommand::Retr
    } else if str_equal(upper, "QUIT") {
        FtpCommand::Quit
    } else {
        FtpCommand::Unknown
    }
}

/// The command that a line read from the client gives, in any case and with
/// any surrounding white space.
pub fn parse_ftp_command(raw: &str) -> (r: FtpCommand)
    ensures
        r == command_of(raw@),
        is_ascii_text(trim_ws(raw@)) ==> r == command_named(ascii_uppercase(trim_ws(raw@))),
        r == FtpCommand::User <==> uppercase(trim_ws(raw@)) == "USER"@,
        r == FtpCommand::Pass <==> uppercase(trim_ws(raw@)) == "PASS"@,
        r == FtpCommand::Retr <==> uppercase(trim_ws(raw@)) == "RETR"@,
        r == FtpCommand::Quit <==> uppercase(trim_ws(raw@)) == "QUIT"@,
        is_ascii_text(trim_ws(raw@)) ==> (r == FtpCommand::Pass <==> ascii_uppercase(trim_ws(raw@))
            == "PASS"@),
{
    let upper = to_uppercase(trim_str(raw));
    ftp_command(upper.as_str())
}

/// One step of a session: the state it moves to, the replies to write in
/// order, and the user name to log, where one was read.
pub struct FtpStep {
    pub next: FtpState,
    pub replies: Vec<String>,
    pub username: Option<String>,
}

/// Replies seen as sequences.
pub open spec fn replies_view(replies: Seq<String>) -> Seq<Seq<char>> {
    replies.map_values(|r: String| r@)
}

/// What a session first writes.
pub open spec fn greeting() -> Seq<char> {
    "220 Welcome to my FTP server\r\n"@
}

/// The file that `RETR` sends.
pub open spec fn retrieved_file() -> Seq<char> {
    "Hello, world!"@
}

/// The state that a command moves a waiting session to.
pub open spec fn next_state(command: FtpCommand) -> FtpState {
    match command {
        FtpCommand::User => FtpState::AwaitUsername,
        FtpCommand::Quit => FtpState::Closed,
        _ => FtpState::AwaitCommand,
    }
}

/// The replies to a command, in the order they are written.
pub open spec fn command_replies(command: FtpCommand) -> Seq<Seq<char>> {
    match command {
        FtpCommand::User => seq!["331 Please specify the username.\r\n"@],
        FtpCommand::Pass => seq!["230 Login successful.\r\n"@],
        FtpCommand::Retr => seq![
            "150 Opening data connection.\r\n"@,
            retrieved_file(),
            "\r\n226 Transfer complete.\r\n"@,
        ],
        FtpCommand::Quit => seq!["221 Goodbye.\r\n"@],
        FtpCommand::Unknown => seq!["502 Command not implemented.\r\n"@],
    }
}

/// The reply once the user name was read.
pub open spec fn username_reply() -> Seq<char> {
    "331 Please specify the password.\r\n"@
}

/// Law: white space around a command never changes which command it names.
pub proof fn lemma_command_ignores_surrounding_space(raw: Seq<char>)
    ensures
        command_of(trim_ws(raw)) == command_of(raw),
{
    lemma_trim_ws_idempotent(raw);
}

/// Law: only `QUIT` ends a session, only `USER` makes it wait for a user
/// name, and every command is answered.
pub proof fn lemma_session_transitions(command: FtpCommand)
    ensures
        next_state(command) == FtpState::Closed <==> command == FtpCommand::Quit,
        next_state(command) == FtpState::AwaitUsername <==> command == FtpCommand::User,
        command_replies(command).len() >= 1,
{
}

/// Law: the login reply and the refusal answer one command each.
proof fn lemma_replies_tell_commands(command: FtpCommand)
    ensures
        command_replies(command) == seq!["230 Login successful.\r\n"@] <==> command == FtpCommand::Pass,
        command_replies(command) == seq!["502 Command not implemented.\r\n"@] <==> command
            == FtpCommand::Unknown,
{
    reveal_strlit("331 Please specify the username.\r\n");
    reveal_strlit("230 Login successful.\r\n");
    reveal_strlit("221 Goodbye.\r\n");
    reveal_strlit("502 Command not implemented.\r\n");
    let login = seq!["230 Login successful.\r\n"@];
    let refusal = seq!["502 Command not implemented.\r\n"@];
    let replies = command_replies(command);
    if replies.len() == 1 {
        assert(replies == login ==> replies[0][0] == '2' && replies[0][1] == '3');
        assert(replies == refusal ==> replies[0][0] == '5');
    }
}

/// What a session first writes to the client.
pub fn ftp_greeting() -> (r: String)
    ensures
        r@ == greeting(),
{
    String::from_str("220 Welcome to my FTP server\r\n")
}

/// How a session waiting for a command answers `command`.
pub fn command_step(command: FtpCommand) -> (r: FtpStep)
    ensures
        r.next == next_state(command),
        replies_view(r.replies@) == command_replies(command),
        r.username is None,
{
    let mut replies: Vec<String> = Vec::new();
    let next = match command {
        FtpCommand::User => {
            replies.push(String::from_str("331 Please specify the username.\r\n"));
            FtpState::AwaitUsername
        },
        FtpCommand::Pass => {
            replies.push(String::from_str("230 Login successful.\r\n"));
            FtpState::AwaitCommand
        },
        FtpCommand::Retr => {
            replies.push(String::from_str("150 Opening data connection.\r\n"));
            replies.push(String::from_str("Hello, world!"));
            replies.push(String::from_str("\r\n226 Transfer complete.\r\n"));
            FtpState::AwaitCommand
        },
        FtpCommand::Quit => {
            replies.push(String::from_str("221 Goodbye.\r\n"));
            FtpState::Closed
        },
        FtpCommand::Unknown => {
            replies.push(String::from_str("502 Command not implemented.\r\n"));
            FtpState::AwaitCommand
        },
    };
    assert(replies_view(replies@) =~= command_replies(command));
    FtpStep { next, replies, username: None }
}

/// How a session answers the line `input` read in state `state`: a waiting
/// session runs the command that the line names; after `USER` the line is the
/// user name, which is logged trimmed, and the password is asked for. A closed
/// session reads nothing more.
pub fn ftp_step(state: FtpState, input: &str) -> (r: FtpStep)
    requires
        state != FtpState::Closed,
    ensures
        state == FtpState::AwaitCommand ==> {
            &&& r.next == next_state(command_of(input@))
            &&& replies_view(r.replies@) == command_replies(command_of(input@))
            &&& r.username is None
        },
        state == FtpState::AwaitCommand ==> (replies_view(r.replies@) == seq![
            "230 Login successful.\r\n"@,
        ] <==> uppercase(trim_ws(input@)) == "PASS"@),
        state == FtpState::AwaitCommand ==> (replies_view(r.replies@) == seq![
            "502 Command not implemented.\r\n"@,
        ] <==> ({
            let upper = uppercase(trim_ws(input@));
            upper != "USER"@ && upper != "PASS"@ && upper != "RETR"@ && upper != "QUIT"@
        })),
        state == FtpState::AwaitUsername ==> {
            &&& r.next == FtpState::AwaitCommand
            &&& replies_view(r.replies@) == seq![username_reply()]
            &&& r.username matches Some(name) && name@ == trim_ws(input@)
        },
{
    match state {
        FtpState::AwaitUsername => {
            let mut replies: Vec<String> = Vec::new();
            replies.push(String::from_str("331 Please specify the password.\r\n"));
            assert(replies_view(replies@) =~= seq![username_reply()]);
            FtpStep {
                next: FtpState::AwaitCommand,
                replies,
                username: Some(String::from_str(trim_str(input))),
            }
        },
        _ => {
            let command = parse_ftp_command(input);
            proof { lemma_replies_tell_commands(command); }
            command_step(command)
        },
    }
}

} // verus!
