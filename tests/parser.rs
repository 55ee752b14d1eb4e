use fix_repl::{engine_refusal, parse, BadCommand, ShellCommand};

fn send_to(line: &str) -> (fix_repl::Message, fix_repl::SessionId) {
    match parse(line) {
        Ok(ShellCommand::SendMessage(m, s)) => (m, s),
        other => panic!("expected a message to send, got {:?}", other),
    }
}

#[test]
fn keywords_give_their_commands() {
    assert_eq!(parse("quit"), Ok(ShellCommand::Quit));
    assert_eq!(parse("q"), Ok(ShellCommand::Quit));
    assert_eq!(parse("help"), Ok(ShellCommand::Help));
    assert_eq!(parse("?"), Ok(ShellCommand::Help));
    assert_eq!(parse("start"), Ok(ShellCommand::Start));
    assert_eq!(parse("stop"), Ok(ShellCommand::Stop));
    assert_eq!(parse("status"), Ok(ShellCommand::Status));
    assert_eq!(parse("block"), Ok(ShellCommand::Block));
    assert_eq!(parse("poll"), Ok(ShellCommand::Poll));
    assert_eq!(parse(""), Ok(ShellCommand::NoOperation));
}

#[test]
fn keywords_are_trimmed() {
    assert_eq!(parse("  quit \n"), Ok(ShellCommand::Quit));
    assert_eq!(parse("\tstatus\r\n"), Ok(ShellCommand::Status));
    assert_eq!(parse("\u{3000}poll\u{a0}"), Ok(ShellCommand::Poll));
    assert_eq!(parse(" \n"), Ok(ShellCommand::NoOperation));
}

#[test]
fn keywords_are_exact() {
    assert_eq!(parse("Quit"), Err(BadCommand::Unknown("Quit".to_string())));
    assert_eq!(parse("qu"), Err(BadCommand::Unknown("qu".to_string())));
    assert_eq!(parse("stop now"), Err(BadCommand::Unknown("stop now".to_string())));
}

#[test]
fn unknown_keeps_the_line_verbatim() {
    assert_eq!(parse("foo"), Err(BadCommand::Unknown("foo".to_string())));
    assert_eq!(parse("  foo bar \n"), Err(BadCommand::Unknown("  foo bar \n".to_string())));
    assert_eq!(parse("send_tox 1=2 A B"), Err(BadCommand::Unknown("send_tox 1=2 A B".to_string())));
    assert_eq!(parse("send_to"), Err(BadCommand::Unknown("send_to".to_string())));
    assert_eq!(parse("send_to \n"), Err(BadCommand::Unknown("send_to \n".to_string())));
    assert_eq!(parse("send_to\t1=2 A B"), Err(BadCommand::Unknown("send_to\t1=2 A B".to_string())));
}

#[test]
fn send_to_builds_message_and_session() {
    let (m, s) = send_to("send_to 35=D|55=AAPL|54=1|38=100 CLIENT EXCHANGE");
    assert_eq!(m.len(), 4);
    assert_eq!(m.get_field(35), Some("D".to_string()));
    assert_eq!(m.get_field(55), Some("AAPL".to_string()));
    assert_eq!(m.get_field(54), Some("1".to_string()));
    assert_eq!(m.get_field(38), Some("100".to_string()));
    assert_eq!(m.get_field(44), None);
    assert_eq!(s.begin_string, "FIX.4.4");
    assert_eq!(s.sender_comp_id, "CLIENT");
    assert_eq!(s.target_comp_id, "EXCHANGE");
    assert_eq!(s.session_qualifier, "");
}

#[test]
fn send_to_keeps_field_order() {
    let (m, _) = send_to("send_to 55=MSFT|35=V CLIENT EXCHANGE");
    let (t0, v0) = m.field_at(0);
    let (t1, v1) = m.field_at(1);
    assert_eq!((t0, v0.as_str()), (55, "MSFT"));
    assert_eq!((t1, v1.as_str()), (35, "V"));
}

#[test]
fn send_to_missing_target() {
    assert_eq!(
        parse("send_to 35=D CLIENT"),
        Err(BadCommand::InvalidArgumentCount { current: 2, expected: 3 })
    );
}

#[test]
fn send_to_missing_sender() {
    assert_eq!(
        parse("send_to 35=D"),
        Err(BadCommand::InvalidArgumentCount { current: 1, expected: 3 })
    );
    assert_eq!(
        parse("  send_to   35=D  \n"),
        Err(BadCommand::InvalidArgumentCount { current: 1, expected: 3 })
    );
}

#[test]
fn send_to_non_numeric_tag() {
    assert_eq!(
        parse("send_to abc=D CLIENT EXCHANGE"),
        Err(BadCommand::InvalidArgument("Invalid tag number"))
    );
}

#[test]
fn send_to_field_without_equals() {
    assert_eq!(
        parse("send_to 35 CLIENT EXCHANGE"),
        Err(BadCommand::InvalidArgument("Invalid value"))
    );
    assert_eq!(
        parse("send_to 35=D|55 CLIENT EXCHANGE"),
        Err(BadCommand::InvalidArgument("Invalid value"))
    );
}

#[test]
fn send_to_first_bad_field_decides() {
    assert_eq!(
        parse("send_to 35|x=1 CLIENT EXCHANGE"),
        Err(BadCommand::InvalidArgument("Invalid value"))
    );
    assert_eq!(
        parse("send_to x=1|35 CLIENT EXCHANGE"),
        Err(BadCommand::InvalidArgument("Invalid tag number"))
    );
}

#[test]
fn send_to_empty_field_is_rejected() {
    assert_eq!(
        parse("send_to 35=D||55=X CLIENT EXCHANGE"),
        Err(BadCommand::InvalidArgument("Invalid tag number"))
    );
    assert_eq!(
        parse("send_to 35=D| CLIENT EXCHANGE"),
        Err(BadCommand::InvalidArgument("Invalid tag number"))
    );
}

#[test]
fn send_to_tag_range_and_sign() {
    let (m, _) = send_to("send_to 2147483647=x|+35=D|-0=z CLIENT EXCHANGE");
    assert_eq!(m.get_field(2147483647), Some("x".to_string()));
    assert_eq!(m.get_field(35), Some("D".to_string()));
    assert_eq!(m.get_field(0), Some("z".to_string()));
    assert_eq!(
        parse("send_to 2147483648=x CLIENT EXCHANGE"),
        Err(BadCommand::InvalidArgument("Invalid tag number"))
    );
    assert_eq!(
        parse("send_to -5=x CLIENT EXCHANGE"),
        Err(BadCommand::InvalidArgument("Invalid tag number"))
    );
    assert_eq!(
        parse("send_to +=x CLIENT EXCHANGE"),
        Err(BadCommand::InvalidArgument("Invalid tag number"))
    );
    assert_eq!(
        parse("send_to 99999999999999999999=x CLIENT EXCHANGE"),
        Err(BadCommand::InvalidArgument("Invalid tag number"))
    );
}

#[test]
fn send_to_values_may_hold_equals_or_be_empty() {
    let (m, _) = send_to("send_to 58=a=b|59= CLIENT EXCHANGE");
    assert_eq!(m.get_field(58), Some("a=b".to_string()));
    assert_eq!(m.get_field(59), Some("".to_string()));
}

#[test]
fn send_to_last_write_wins() {
    let (m, _) = send_to("send_to 35=D|35=F CLIENT EXCHANGE");
    assert_eq!(m.len(), 2);
    assert_eq!(m.get_field(35), Some("F".to_string()));
}

#[test]
fn send_to_ignores_extra_tokens() {
    let (m, s) = send_to("send_to 35=D CLIENT EXCHANGE EXTRA MORE");
    assert_eq!(m.get_field(35), Some("D".to_string()));
    assert_eq!(s.sender_comp_id, "CLIENT");
    assert_eq!(s.target_comp_id, "EXCHANGE");
}

#[test]
fn send_to_with_surrounding_whitespace() {
    let (m, s) = send_to("\t send_to 35=D \u{2003} CLIENT\tEXCHANGE \n");
    assert_eq!(m.get_field(35), Some("D".to_string()));
    assert_eq!(s.sender_comp_id, "CLIENT");
    assert_eq!(s.target_comp_id, "EXCHANGE");
}

#[test]
fn send_to_non_ascii_text() {
    let (m, s) = send_to("send_to 58=caf\u{e9}|55=\u{20ac}1 \u{d6}RE EXCH");
    assert_eq!(m.get_field(58), Some("caf\u{e9}".to_string()));
    assert_eq!(m.get_field(55), Some("\u{20ac}1".to_string()));
    assert_eq!(s.sender_comp_id, "\u{d6}RE");
}

#[test]
fn parsing_twice_gives_equal_results() {
    for line in [
        "send_to 35=D|55=AAPL|54=1|38=100 CLIENT EXCHANGE",
        "send_to abc=D CLIENT EXCHANGE",
        "send_to 35=D CLIENT",
        "status",
        "nonsense",
        "",
    ] {
        assert_eq!(parse(line), parse(line));
    }
}

#[test]
fn from_str_agrees_with_parse() {
    let c: Result<ShellCommand, BadCommand> = "help".parse();
    assert_eq!(c, Ok(ShellCommand::Help));
    let c: Result<ShellCommand, BadCommand> = "bogus".parse();
    assert_eq!(c, Err(BadCommand::Unknown("bogus".to_string())));
}

#[test]
fn errors_render_as_text() {
    assert_eq!(BadCommand::Unknown("foo".to_string()).to_string(), "unknown command: foo");
    assert_eq!(
        BadCommand::InvalidArgumentCount { current: 2, expected: 3 }.to_string(),
        "invalid argument count: current=2, expected=3"
    );
    assert_eq!(
        BadCommand::InvalidArgumentCount { current: 0, expected: 1203 }.to_string(),
        "invalid argument count: current=0, expected=1203"
    );
    assert_eq!(
        BadCommand::InvalidArgument("Invalid value").to_string(),
        "invalid argument: Invalid value"
    );
}

#[test]
fn engine_refusals_become_invalid_argument() {
    assert_eq!(engine_refusal(true, true), Ok(()));
    assert_eq!(engine_refusal(false, true), Err(BadCommand::InvalidArgument("bad session id")));
    assert_eq!(engine_refusal(false, false), Err(BadCommand::InvalidArgument("bad session id")));
    assert_eq!(engine_refusal(true, false), Err(BadCommand::InvalidArgument("Invalid value")));
}

#[test]
fn from_str_on_send_to_and_errors() {
    let c: Result<ShellCommand, BadCommand> = "send_to 35=D CLIENT".parse();
    assert_eq!(c, Err(BadCommand::InvalidArgumentCount { current: 2, expected: 3 }));
    let c: Result<ShellCommand, BadCommand> = "send_to abc=D CLIENT EXCHANGE".parse();
    assert_eq!(c, Err(BadCommand::InvalidArgument("Invalid tag number")));
    let c: Result<ShellCommand, BadCommand> = "  status\n".parse();
    assert_eq!(c, Ok(ShellCommand::Status));
}
