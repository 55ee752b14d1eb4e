//! The command language of the shell and its parser.
use vstd::prelude::*;
use vstd::string::*;

use crate::message::{Message, SessionId};
use crate::text::{
    chars_of, digits_value, is_digit, is_ws, lemma_split_on_len, lemma_split_on_prefix,
    lemma_split_on_step, next_word, prefix_len, split_on, trim, trim_bounds, words,
};

verus! {

/// Why a line could not be turned into a command.
#[derive(Debug, PartialEq, Eq)]
#[non_exhaustive]
pub enum BadCommand {
    /// The line is no command of the shell.
    Unknown(String),
    /// A command lacks an argument: `current` is the index of the first missing one.
    InvalidArgumentCount { current: usize, expected: usize },
    /// An argument is malformed.
    InvalidArgument(&'static str),
}

/// One user intention, read from one line.
#[derive(Debug, PartialEq, Eq)]
pub enum ShellCommand {
    Quit,
    Help,
    Start,
    Stop,
    Status,
    Block,
    Poll,
    SendMessage(Message, SessionId),
    NoOperation,
}

/// What a [`BadCommand`] says, as mathematical values.
pub enum ErrorModel {
    Unknown(Seq<char>),
    InvalidArgumentCount { current: nat, expected: nat },
    InvalidArgument(Seq<char>),
}

/// What a [`ShellCommand`] says, as mathematical values.
pub enum CommandModel {
    Quit,
    Help,
    Start,
    Stop,
    Status,
    Block,
    Poll,
    SendMessage(Seq<(i32, Seq<char>)>, (Seq<char>, Seq<char>, Seq<char>, Seq<char>)),
    NoOperation,
}

impl View for BadCommand {
    type V = ErrorModel;

    open spec fn view(&self) -> ErrorModel {
        match self {
            BadCommand::Unknown(s) => ErrorModel::Unknown(s@),
            BadCommand::InvalidArgumentCount { current, expected } => {
                ErrorModel::InvalidArgumentCount { current: *current as nat, expected: *expected as nat }
            },
            BadCommand::InvalidArgument(s) => ErrorModel::InvalidArgument(s@),
        }
    }
}

impl View for ShellCommand {
    type V = CommandModel;

    open spec fn view(&self) -> CommandModel {
        match self {
            ShellCommand::Quit => CommandModel::Quit,
            ShellCommand::Help => CommandModel::Help,
            ShellCommand::Start => CommandModel::Start,
            ShellCommand::Stop => CommandModel::Stop,
            ShellCommand::Status => CommandModel::Status,
            ShellCommand::Block => CommandModel::Block,
            ShellCommand::Poll => CommandModel::Poll,
            ShellCommand::SendMessage(m, s) => CommandModel::SendMessage(m@, s@),
            ShellCommand::NoOperation => CommandModel::NoOperation,
        }
    }
}

pub open spec fn parse_view(r: Result<ShellCommand, BadCommand>) -> Result<
    CommandModel,
    ErrorModel,
> {
    match r {
        Ok(c) => Ok(c@),
        Err(e) => Err(e@),
    }
}

/// The command that a keyword names, for a line that is exactly a keyword.
pub open spec fn keyword_command(t: Seq<char>) -> Option<CommandModel> {
    if t == "quit"@ || t == "q"@ {
        Some(CommandModel::Quit)
    } else if t == "help"@ || t == "?"@ {
        Some(CommandModel::Help)
    } else if t == "start"@ {
        Some(CommandModel::Start)
    } else if t == "stop"@ {
        Some(CommandModel::Stop)
    } else if t == "status"@ {
        Some(CommandModel::Status)
    } else if t == "block"@ {
        Some(CommandModel::Block)
    } else if t == "poll"@ {
        Some(CommandModel::Poll)
    } else if t.len() == 0 {
        Some(CommandModel::NoOperation)
    } else {
        None
    }
}

pub open spec fn starts_send_to(t: Seq<char>) -> bool {
    t.len() >= 8 && t.take(8) == "send_to "@
}

pub open spec fn all_digits(d: Seq<char>) -> bool {
    forall|i: int| 0 <= i < d.len() ==> is_digit(#[trigger] d[i])
}

pub open spec fn has_sign(s: Seq<char>) -> bool {
    s.len() > 0 && (s[0] == '+' || s[0] == '-')
}

/// The tag that a field's left side names: a decimal number with an optional
/// sign, in the range of `i32`, and not negative.
pub open spec fn tag_of(s: Seq<char>) -> Option<i32> {
    let d = if has_sign(s) {
        s.drop_first()
    } else {
        s
    };
    if d.len() > 0 && all_digits(d) && digits_value(d) <= i32::MAX && (has_sign(s) && s[0] == '-'
        ==> digits_value(d) == 0) {
        Some(digits_value(d) as i32)
    } else {
        None
    }
}

/// One `tag=value` item, split at its first `=`; the error is the reason.
pub open spec fn parse_field(f: Seq<char>) -> Result<(i32, Seq<char>), Seq<char>> {
    let k = prefix_len(f, '=') as int;
    match tag_of(f.take(k)) {
        None => Err("Invalid tag number"@),
        Some(t) => if k == f.len() {
            Err("Invalid value"@)
        } else {
            Ok((t, f.skip(k + 1)))
        },
    }
}

/// The fields of a list of items, in order; the first malformed item decides the error.
pub open spec fn parse_fields(items: Seq<Seq<char>>) -> Result<Seq<(i32, Seq<char>)>, Seq<char>>
    decreases items.len(),
{
    if items.len() == 0 {
        Ok(Seq::empty())
    } else {
        match parse_fields(items.drop_last()) {
            Err(e) => Err(e),
            Ok(fs) => match parse_field(items.last()) {
                Err(e) => Err(e),
                Ok(f) => Ok(fs.push(f)),
            },
        }
    }
}

/// The message and session of a `send_to` command line.
pub open spec fn send_to_of(t: Seq<char>) -> Result<
    (Seq<(i32, Seq<char>)>, (Seq<char>, Seq<char>, Seq<char>, Seq<char>)),
    ErrorModel,
> {
    let w = words(t);
    if w.len() < 4 {
        Err(
            ErrorModel::InvalidArgumentCount {
                current: if w.len() < 2 {
                    0
                } else {
                    (w.len() - 1) as nat
                },
                expected: 3,
            },
        )
    } else {
        match parse_fields(split_on(w[1], '|')) {
            Err(reason) => Err(ErrorModel::InvalidArgument(reason)),
            Ok(fields) => Ok((fields, ("FIX.4.4"@, w[2], w[3], Seq::empty()))),
        }
    }
}

/// The command, or the error, that a line gives.
pub open spec fn command_of(s: Seq<char>) -> Result<CommandModel, ErrorModel> {
    let t = trim(s);
    match keyword_command(t) {
        Some(c) => Ok(c),
        None => if starts_send_to(t) {
            match send_to_of(t) {
                Ok((m, sid)) => Ok(CommandModel::SendMessage(m, sid)),
                Err(e) => Err(e),
            }
        } else {
            Err(ErrorModel::Unknown(s))
        },
    }
}

/// Whether `chars[a..b]` is the text `lit`.
fn span_is(chars: &Vec<char>, a: usize, b: usize, lit: &str) -> (r: bool)
    requires
        a <= b <= chars@.len(),
    ensures
        r == (chars@.subrange(a as int, b as int) == lit@),
{
    let m = lit.unicode_len();
    if b - a != m {
        return false;
    }
    let mut k: usize = 0;
    while k < m
        invariant
            m == lit@.len(),
            b - a == m,
            a <= b <= chars@.len(),
            k <= m,
            forall|i: int| 0 <= i < k ==> chars@[a + i] == lit@[i],
        decreases m - k,
    {
        if chars[a + k] != lit.get_char(k) {
            assert(chars@.subrange(a as int, b as int)[k as int] != lit@[k as int]);
            return false;
        }
        k = k + 1;
    }
    assert(chars@.subrange(a as int, b as int) =~= lit@);
    true
}

proof fn lemma_digits_value_prefix(d: Seq<char>, k: int)
    requires
        0 <= k <= d.len(),
        forall|i: int| 0 <= i < d.len() ==> is_digit(#[trigger] d[i]),
    ensures
        0 <= digits_value(d.take(k)) <= digits_value(d),
    decreases d.len(),
{
    if k == d.len() {
        assert(d.take(k) =~= d);
        if d.len() > 0 {
            lemma_digits_value_prefix(d.drop_last(), 0);
        }
    } else {
        let q = d.drop_last();
        assert(d.take(k) =~= q.take(k));
        lemma_digits_value_prefix(q, k);
    }
}

/// The tag written in `chars[a..b]`.
fn parse_tag(chars: &Vec<char>, a: usize, b: usize) -> (r: Option<i32>)
    requires
        a <= b <= chars@.len(),
    ensures
        r == tag_of(chars@.subrange(a as int, b as int)),
{
    let ghost s = chars@.subrange(a as int, b as int);
    let mut start = a;
    let mut negative = false;
    if a < b && (chars[a] == '+' || chars[a] == '-') {
        negative = chars[a] == '-';
        start = a + 1;
    }
    let ghost d = chars@.subrange(start as int, b as int);
    assert(has_sign(s) ==> d =~= s.drop_first());
    assert(!has_sign(s) ==> d =~= s);
    if start == b {
        return None;
    }
    let mut v: u64 = 0;
    let mut k: usize = start;
    while k < b
        invariant
            a <= start <= k <= b <= chars@.len(),
            s == chars@.subrange(a as int, b as int),
            d == chars@.subrange(start as int, b as int),
            has_sign(s) ==> d == s.drop_first(),
            !has_sign(s) ==> d == s,
            negative == (s.len() > 0 && s[0] == '-'),
            v == digits_value(chars@.subrange(start as int, k as int)),
            v <= i32::MAX,
            forall|i: int| start <= i < k ==> is_digit(#[trigger] chars@[i]),
        decreases b - k,
    {
        let c = chars[k] as u32;
        if !(0x30 <= c && c <= 0x39) {
            assert(!is_digit(d[k - start]));
            return None;
        }
        assert(chars@.subrange(start as int, k + 1).drop_last() =~= chars@.subrange(
            start as int,
            k as int,
        ));
        v = v * 10 + (c - 0x30) as u64;
        k = k + 1;
        assert(v == digits_value(chars@.subrange(start as int, k as int)));
        if v > 2147483647 {
            proof {
                if all_digits(d) {
                    assert(d.take(k - start) =~= chars@.subrange(start as int, k as int));
                    lemma_digits_value_prefix(d, k - start);
                }
            }
            return None;
        }
    }
    assert(d =~= chars@.subrange(start as int, k as int));
    assert forall|i: int| 0 <= i < d.len() implies is_digit(#[trigger] d[i]) by {
        assert(d[i] == chars@[start + i]);
    }
    if negative && v != 0 {
        return None;
    }
    Some(v as i32)
}

proof fn lemma_prefix_len_exact(f: Seq<char>, c: char, k: int)
    requires
        0 <= k <= f.len(),
        forall|i: int| 0 <= i < k ==> #[trigger] f[i] != c,
        k == f.len() || f[k] == c,
    ensures
        prefix_len(f, c) == k,
    decreases k,
{
    if k > 0 {
        lemma_prefix_len_exact(f.drop_first(), c, k - 1);
    }
}

/// The field written in `chars[a..b]`, whose text is `source[a..b]`.
fn parse_field_at(source: &str, chars: &Vec<char>, a: usize, b: usize) -> (r: Result<
    (i32, String),
    &'static str,
>)
    requires
        chars@ == source@,
        a <= b <= chars@.len(),
    ensures
        match parse_field(chars@.subrange(a as int, b as int)) {
            Ok(f) => r matches Ok(g) && g.0 == f.0 && g.1@ == f.1,
            Err(e) => r matches Err(m) && m@ == e,
        },
{
    let ghost f = chars@.subrange(a as int, b as int);
    let mut k: usize = a;
    while k < b && chars[k] != '='
        invariant
            a <= k <= b <= chars@.len(),
            forall|i: int| a <= i < k ==> #[trigger] chars@[i] != '=',
        decreases b - k,
    {
        k = k + 1;
    }
    proof {
        assert forall|i: int| 0 <= i < k - a implies #[trigger] f[i] != '=' by {
            assert(f[i] == chars@[a + i]);
        }
        lemma_prefix_len_exact(f, '=', k - a);
        assert(f.take(k - a) =~= chars@.subrange(a as int, k as int));
    }
    let tag = match parse_tag(chars, a, k) {
        None => {
            return Err("Invalid tag number");
        },
        Some(t) => t,
    };
    if k == b {
        return Err("Invalid value");
    }
    let value = source.substring_char(k + 1, b).to_owned();
    assert(value@ =~= f.skip(k - a + 1));
    Ok((tag, value))
}

proof fn lemma_parse_fields_err_prefix(items: Seq<Seq<char>>, n: int, e: Seq<char>)
    requires
        0 <= n <= items.len(),
        parse_fields(items.take(n)) == Err::<Seq<(i32, Seq<char>)>, Seq<char>>(e),
    ensures
        parse_fields(items) == Err::<Seq<(i32, Seq<char>)>, Seq<char>>(e),
    decreases items.len(),
{
    if n == items.len() {
        assert(items.take(n) =~= items);
    } else {
        assert(items.drop_last().take(n) =~= items.take(n));
        lemma_parse_fields_err_prefix(items.drop_last(), n, e);
    }
}

/// Splits a `send_to` line into its message and its session.
fn parse_send_to(source: &str) -> (r: Result<(Message, SessionId), BadCommand>)
    ensures
        match send_to_of(source@) {
            Ok((m, sid)) => r matches Ok(p) && p.0@ == m && p.1@ == sid,
            Err(e) => r matches Err(x) && x@ == e,
        },
{
    let chars = chars_of(source);
    let ghost s = chars@;
    assert(s.skip(0) =~= s);
    let w0 = next_word(&chars, 0);
    let w1 = next_word(&chars, w0.1);
    if w1.0 == w1.1 {
        return Err(BadCommand::InvalidArgumentCount { current: 0, expected: 3 });
    }
    let w2 = next_word(&chars, w1.1);
    if w2.0 == w2.1 {
        return Err(BadCommand::InvalidArgumentCount { current: 1, expected: 3 });
    }
    let w3 = next_word(&chars, w2.1);
    if w3.0 == w3.1 {
        return Err(BadCommand::InvalidArgumentCount { current: 2, expected: 3 });
    }
    let ghost tok = s.subrange(w1.0 as int, w1.1 as int);
    assert(words(s)[1] == tok);
    let lo = w1.0;
    let hi = w1.1;
    let mut msg = Message::new();
    let mut start: usize = lo;
    let mut i: usize = lo;
    assert(tok.take(0) =~= Seq::<char>::empty());
    assert(s.subrange(start as int, i as int) =~= Seq::<char>::empty());
    while i < hi
        invariant
            s == chars@,
            chars@ == source@,
            lo <= start <= i <= hi <= s.len(),
            tok == s.subrange(lo as int, hi as int),
            words(s).len() >= 4,
            words(s)[1] == tok,
            words(s)[2] == s.subrange(w2.0 as int, w2.1 as int),
            words(s)[3] == s.subrange(w3.0 as int, w3.1 as int),
            w2.0 <= w2.1 <= s.len(),
            w3.0 <= w3.1 <= s.len(),
            split_on(tok.take(i - lo), '|').last() == s.subrange(start as int, i as int),
            parse_fields(split_on(tok.take(i - lo), '|').drop_last()) == Ok::<
                Seq<(i32, Seq<char>)>,
                Seq<char>,
            >(msg@),
        decreases hi - i,
    {
        proof {
            lemma_split_on_step(tok, '|', i - lo);
            lemma_split_on_len(tok.take(i - lo), '|');
        }
        let ghost before = split_on(tok.take(i - lo), '|');
        if chars[i] == '|' {
            assert(tok[i - lo] == '|');
            let ghost done = split_on(tok.take(i + 1 - lo), '|').drop_last();
            assert(done =~= before);
            assert(before.drop_last() =~= before.take(before.len() - 1));
            match parse_field_at(source, &chars, start, i) {
                Err(reason) => {
                    proof {
                        assert(before.last() == s.subrange(start as int, i as int));
                        assert(parse_field(before.last()) == Err::<(i32, Seq<char>), Seq<char>>(
                            reason@,
                        ));
                        assert(parse_fields(before) == Err::<Seq<(i32, Seq<char>)>, Seq<char>>(
                            reason@,
                        ));
                        lemma_split_on_prefix(tok, '|', i + 1 - lo);
                        let whole = split_on(tok, '|');
                        let n = split_on(tok.take(i + 1 - lo), '|').len() - 1;
                        assert(whole.take(n) == before);
                        lemma_parse_fields_err_prefix(whole, n, reason@);
                        assert(words(s)[1] == tok);
                        assert(send_to_of(s) == Err::<
                            (Seq<(i32, Seq<char>)>, (Seq<char>, Seq<char>, Seq<char>, Seq<char>)),
                            ErrorModel,
                        >(ErrorModel::InvalidArgument(reason@)));
                    }
                    return Err(BadCommand::InvalidArgument(reason));
                },
                Ok(field) => {
                    msg.set_field(field.0, field.1);
                },
            }
            start = i + 1;
        } else {
            assert(tok[i - lo] != '|');
            assert(s.subrange(start as int, i + 1) =~= s.subrange(start as int, i as int).push(
                tok[i - lo],
            ));
        }
        i = i + 1;
    }
    assert(tok.take(hi - lo) =~= tok);
    proof {
        lemma_split_on_len(tok, '|');
    }
    let ghost all = split_on(tok, '|');
    assert(all.drop_last() =~= all.take(all.len() - 1));
    match parse_field_at(source, &chars, start, hi) {
        Err(reason) => {
            return Err(BadCommand::InvalidArgument(reason));
        },
        Ok(field) => {
            msg.set_field(field.0, field.1);
        },
    }
    let sender = source.substring_char(w2.0, w2.1).to_owned();
    let target = source.substring_char(w3.0, w3.1).to_owned();
    let session_id = SessionId::new(
        "FIX.4.4".to_owned(),
        sender,
        target,
        "".to_owned(),
    );
    proof {
        reveal_strlit("");
    }
    assert(session_id@.3 =~= Seq::<char>::empty());
    Ok((msg, session_id))
}

/// Reads one line of the shell: surrounding whitespace is ignored, a keyword
/// names its command, and a line that starts with `send_to ` is a message to send.
pub fn parse(source: &str) -> (r: Result<ShellCommand, BadCommand>)
    ensures
        parse_view(r) == command_of(source@),
{
    let chars = chars_of(source);
    let (lo, hi) = trim_bounds(&chars);
    let ghost t = chars@.subrange(lo as int, hi as int);
    if span_is(&chars, lo, hi, "quit") || span_is(&chars, lo, hi, "q") {
        Ok(ShellCommand::Quit)
    } else if span_is(&chars, lo, hi, "help") || span_is(&chars, lo, hi, "?") {
        Ok(ShellCommand::Help)
    } else if span_is(&chars, lo, hi, "start") {
        Ok(ShellCommand::Start)
    } else if span_is(&chars, lo, hi, "stop") {
        Ok(ShellCommand::Stop)
    } else if span_is(&chars, lo, hi, "status") {
        Ok(ShellCommand::Status)
    } else if span_is(&chars, lo, hi, "block") {
        Ok(ShellCommand::Block)
    } else if span_is(&chars, lo, hi, "poll") {
        Ok(ShellCommand::Poll)
    } else if lo == hi {
        Ok(ShellCommand::NoOperation)
    } else if hi - lo >= 8 && span_is(&chars, lo, lo + 8, "send_to ") {
        assert(t.take(8) =~= chars@.subrange(lo as int, lo + 8));
        let cmd = source.substring_char(lo, hi);
        match parse_send_to(cmd) {
            Ok((m, sid)) => Ok(ShellCommand::SendMessage(m, sid)),
            Err(e) => Err(e),
        }
    } else {
        proof {
            if hi - lo >= 8 {
                assert(t.take(8) =~= chars@.subrange(lo as int, lo + 8));
            }
        }
        Err(BadCommand::Unknown(source.to_owned()))
    }
}

impl std::str::FromStr for ShellCommand {
    type Err = BadCommand;

    fn from_str(source: &str) -> (r: Result<ShellCommand, BadCommand>)
        ensures
            parse_view(r) == command_of(source@),
    {
        parse(source)
    }
}

/// The error for a `send_to` command whose values the FIX engine refused to
/// take: `session_accepted` tells whether it built the session id,
/// `message_accepted` whether it took every field of the message.
pub fn engine_refusal(session_accepted: bool, message_accepted: bool) -> (r: Result<
    (),
    BadCommand,
>)
    ensures
        r is Ok <==> session_accepted && message_accepted,
        !session_accepted ==> (r matches Err(e) && e@ == ErrorModel::InvalidArgument(
            "bad session id"@,
        )),
        session_accepted && !message_accepted ==> (r matches Err(e) && e@
            == ErrorModel::InvalidArgument("Invalid value"@)),
{
    if !session_accepted {
        Err(BadCommand::InvalidArgument("bad session id"))
    } else if !message_accepted {
        Err(BadCommand::InvalidArgument("Invalid value"))
    } else {
        Ok(())
    }
}

/// The character of a decimal digit.
pub open spec fn digit_char(d: nat) -> char {
    if d == 0 {
        '0'
    } else if d == 1 {
        '1'
    } else if d == 2 {
        '2'
    } else if d == 3 {
        '3'
    } else if d == 4 {
        '4'
    } else if d == 5 {
        '5'
    } else if d == 6 {
        '6'
    } else if d == 7 {
        '7'
    } else if d == 8 {
        '8'
    } else {
        '9'
    }
}

/// `n` written in decimal, without leading zeros.
pub open spec fn decimal(n: nat) -> Seq<char>
    decreases n,
{
    if n < 10 {
        seq![digit_char(n)]
    } else {
        decimal(n / 10).push(digit_char(n % 10))
    }
}

/// The diagnostic that an error prints.
pub open spec fn error_text(e: ErrorModel) -> Seq<char> {
    match e {
        ErrorModel::Unknown(cmd) => "unknown command: "@ + cmd,
        ErrorModel::InvalidArgumentCount { current, expected } => "invalid argument count: current="@
            + decimal(current) + ", expected="@ + decimal(expected),
        ErrorModel::InvalidArgument(reason) => "invalid argument: "@ + reason,
    }
}

fn digit_text(d: usize) -> (r: &'static str)
    requires
        d < 10,
    ensures
        r@ == seq![digit_char(d as nat)],
{
    proof {
        reveal_strlit("0");
        reveal_strlit("1");
        reveal_strlit("2");
        reveal_strlit("3");
        reveal_strlit("4");
        reveal_strlit("5");
        reveal_strlit("6");
        reveal_strlit("7");
        reveal_strlit("8");
        reveal_strlit("9");
    }
    let r = if d == 0 {
        "0"
    } else if d == 1 {
        "1"
    } else if d == 2 {
        "2"
    } else if d == 3 {
        "3"
    } else if d == 4 {
        "4"
    } else if d == 5 {
        "5"
    } else if d == 6 {
        "6"
    } else if d == 7 {
        "7"
    } else if d == 8 {
        "8"
    } else {
        "9"
    };
    assert(r@ =~= seq![digit_char(d as nat)]);
    r
}

/// Appends `n` in decimal to `out`.
fn push_decimal(out: &mut String, n: usize)
    ensures
        final(out)@ == old(out)@ + decimal(n as nat),
    decreases n,
{
    if n >= 10 {
        push_decimal(out, n / 10);
        out.append(digit_text(n % 10));
        assert(final(out)@ =~= old(out)@ + decimal(n as nat));
    } else {
        out.append(digit_text(n));
    }
}

impl BadCommand {
    /// The human-readable diagnostic of this error.
    pub fn to_string(&self) -> (r: String)
        ensures
            r@ == error_text(self@),
    {
        match self {
            BadCommand::Unknown(cmd) => {
                let mut out = "unknown command: ".to_owned();
                out.append(cmd.as_str());
                out
            },
            BadCommand::InvalidArgumentCount { current, expected } => {
                let mut out = "invalid argument count: current=".to_owned();
                push_decimal(&mut out, *current);
                out.append(", expected=");
                push_decimal(&mut out, *expected);
                out
            },
            BadCommand::InvalidArgument(reason) => {
                let mut out = "invalid argument: ".to_owned();
                out.append(reason);
                out
            },
        }
    }
}

/// Each keyword, written exactly, reads as the command that it names.
pub proof fn keywords_read_as_their_commands(k: Seq<char>)
    requires
        keyword_command(k) is Some,
    ensures
        command_of(k) == Ok::<CommandModel, ErrorModel>(keyword_command(k)->0),
{
    reveal_strlit("quit");
    reveal_strlit("q");
    reveal_strlit("help");
    reveal_strlit("?");
    reveal_strlit("start");
    reveal_strlit("stop");
    reveal_strlit("status");
    reveal_strlit("block");
    reveal_strlit("poll");
    if k.len() > 0 {
        assert(!is_ws(k[0]));
        assert(!is_ws(k.last()));
    }
    assert(trim(k) == k);
}

/// Two keywords name the same command only when they are the same keyword,
/// or the synonyms `quit` and `q`, or the synonyms `help` and `?`.
pub proof fn keywords_alias_only_as_synonyms(k1: Seq<char>, k2: Seq<char>)
    requires
        keyword_command(k1) is Some,
        keyword_command(k1) == keyword_command(k2),
    ensures
        k1 == k2 || ((k1 == "quit"@ || k1 == "q"@) && (k2 == "quit"@ || k2 == "q"@)) || ((k1
            == "help"@ || k1 == "?"@) && (k2 == "help"@ || k2 == "?"@)),
{
    if k1.len() == 0 && k2.len() == 0 {
        assert(k1 =~= k2);
    }
}

/// A line whose trimmed text is no keyword and does not start with `send_to `
/// is an unknown command that carries the line as it was given.
pub proof fn other_lines_are_unknown(s: Seq<char>)
    requires
        keyword_command(trim(s)) is None,
        !starts_send_to(trim(s)),
    ensures
        command_of(s) == Err::<CommandModel, ErrorModel>(ErrorModel::Unknown(s)),
{
}

/// Parsing depends on the line alone: two parses of one line give equal results.
pub proof fn parsing_is_deterministic(
    s: Seq<char>,
    r1: Result<ShellCommand, BadCommand>,
    r2: Result<ShellCommand, BadCommand>,
)
    requires
        parse_view(r1) == command_of(s),
        parse_view(r2) == command_of(s),
    ensures
        parse_view(r1) == parse_view(r2),
{
}

} // verus!
