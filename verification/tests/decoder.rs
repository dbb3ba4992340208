use gdb_mi::decoder::{decode_line, decode_lines, parse_value};
use gdb_mi::escape::escape_command;
use gdb_mi::output::{
    AsyncKind, OutOfBandRecord, Output, ParseError, ResultClass, ResultRecord, StreamKind,
};
use gdb_mi::value::Value;

fn text(s: &str) -> Value {
    Value::Const(s.to_string())
}

fn tuple(entries: Vec<(&str, Value)>) -> Value {
    Value::Tuple(entries.into_iter().map(|(k, v)| (k.to_string(), v)).collect())
}

fn value(s: &str) -> Option<(Value, usize)> {
    let chars: Vec<char> = s.chars().collect();
    parse_value(&chars, 0)
}

fn stream(kind: StreamKind, data: &str) -> Result<Output, ParseError> {
    Ok(Output::OutOfBand(OutOfBandRecord::StreamRecord { kind, data: data.to_string() }))
}

fn result(token: u64, class: ResultClass, results: Value) -> Result<Output, ParseError> {
    Ok(Output::Result(ResultRecord { token, class, results }))
}

#[test]
fn stream_line_then_prompt() {
    let out = decode_lines("~\"hello\\n\"\n(gdb)\n");
    assert_eq!(out.len(), 2);
    assert_eq!(out[0], stream(StreamKind::Console, "hello\n"));
    assert_eq!(out[1], Ok(Output::Prompt));
    let records: Vec<_> =
        out.iter().filter(|o| matches!(o, Ok(Output::Result(_)) | Ok(Output::OutOfBand(_)))).collect();
    assert_eq!(records.len(), 1);
}

#[test]
fn malformed_line_between_two_results() {
    let out = decode_lines("1^done\nthis is no record\n2^running\n");
    assert_eq!(out.len(), 3);
    assert_eq!(out[0], result(1, ResultClass::Done, tuple(vec![])));
    assert_eq!(out[1], Err(ParseError));
    assert_eq!(out[2], result(2, ResultClass::Running, tuple(vec![])));
    assert_eq!(out.iter().filter(|o| o.is_ok()).count(), 2);
    assert_eq!(out.iter().filter(|o| o.is_err()).count(), 1);
    assert_eq!(decode_line("2^running\n"), out[2]);
}

#[test]
fn lines_are_split_at_line_feeds() {
    assert_eq!(decode_lines("").len(), 0);
    assert_eq!(decode_lines("\n"), vec![Err(ParseError)]);
    assert_eq!(decode_lines("(gdb)"), vec![Ok(Output::Prompt)]);
    assert_eq!(decode_lines("(gdb) \r\n(gdb)"), vec![Ok(Output::Prompt), Ok(Output::Prompt)]);
    assert_eq!(
        decode_lines("\n\n7^exit"),
        vec![Err(ParseError), Err(ParseError), result(7, ResultClass::Exit, tuple(vec![]))]
    );
}

#[test]
fn prompt_forms() {
    assert_eq!(decode_line("(gdb)"), Ok(Output::Prompt));
    assert_eq!(decode_line("(gdb) "), Ok(Output::Prompt));
    assert_eq!(decode_line("(gdb) \n"), Ok(Output::Prompt));
    assert_eq!(decode_line("(gdb)\r\n"), Ok(Output::Prompt));
    assert_eq!(decode_line("(gdb)x"), Err(ParseError));
    assert_eq!(decode_line("(gdb"), Err(ParseError));
    assert_eq!(decode_line(" (gdb)"), Err(ParseError));
}

#[test]
fn result_classes() {
    assert_eq!(decode_line("0^done"), result(0, ResultClass::Done, tuple(vec![])));
    assert_eq!(decode_line("1^running"), result(1, ResultClass::Running, tuple(vec![])));
    assert_eq!(decode_line("2^connected"), result(2, ResultClass::Connected, tuple(vec![])));
    assert_eq!(decode_line("3^error"), result(3, ResultClass::Error, tuple(vec![])));
    assert_eq!(decode_line("4^exit"), result(4, ResultClass::Exit, tuple(vec![])));
    assert_eq!(decode_line("5^finished"), Err(ParseError));
    assert_eq!(decode_line("5^donee"), Err(ParseError));
    assert_eq!(decode_line("5^"), Err(ParseError));
    assert_eq!(decode_line("5^Done"), Err(ParseError));
}

#[test]
fn result_with_values() {
    assert_eq!(
        decode_line("12^done,value=\"42\"\n"),
        result(12, ResultClass::Done, tuple(vec![("value", text("42"))]))
    );
    assert_eq!(
        decode_line("3^error,msg=\"No symbol \\\"x\\\" in current context.\"\r\n"),
        result(
            3,
            ResultClass::Error,
            tuple(vec![("msg", text("No symbol \"x\" in current context."))])
        )
    );
    assert_eq!(
        decode_line("8^done,depth=\"3\",frame={level=\"0\",args=[]}"),
        result(
            8,
            ResultClass::Done,
            tuple(vec![
                ("depth", text("3")),
                ("frame", tuple(vec![("level", text("0")), ("args", Value::List(vec![]))])),
            ])
        )
    );
}

#[test]
fn result_needs_a_token() {
    assert_eq!(decode_line("^done"), Err(ParseError));
    assert_eq!(
        decode_line("18446744073709551615^done"),
        result(18446744073709551615, ResultClass::Done, tuple(vec![]))
    );
    assert_eq!(decode_line("18446744073709551616^done"), Err(ParseError));
    assert_eq!(decode_line("007^done"), result(7, ResultClass::Done, tuple(vec![])));
}

#[test]
fn result_with_broken_values() {
    assert_eq!(decode_line("1^done,"), Err(ParseError));
    assert_eq!(decode_line("1^done,a"), Err(ParseError));
    assert_eq!(decode_line("1^done,a="), Err(ParseError));
    assert_eq!(decode_line("1^done,=\"x\""), Err(ParseError));
    assert_eq!(decode_line("1^done,a=\"x\"b"), Err(ParseError));
    assert_eq!(decode_line("1^done,a=\"x\","), Err(ParseError));
    assert_eq!(decode_line("1^done,a=\"x"), Err(ParseError));
    assert_eq!(decode_line("1^done,a={b=\"x\""), Err(ParseError));
    assert_eq!(decode_line("1^done a=\"x\""), Err(ParseError));
}

#[test]
fn async_records() {
    assert_eq!(
        decode_line("*stopped,reason=\"breakpoint-hit\",thread-id=\"1\"\n"),
        Ok(Output::OutOfBand(OutOfBandRecord::AsyncRecord {
            token: None,
            kind: AsyncKind::Exec,
            class: "stopped".to_string(),
            results: tuple(vec![("reason", text("breakpoint-hit")), ("thread-id", text("1"))]),
        }))
    );
    assert_eq!(
        decode_line("45+download"),
        Ok(Output::OutOfBand(OutOfBandRecord::AsyncRecord {
            token: Some(45),
            kind: AsyncKind::Status,
            class: "download".to_string(),
            results: tuple(vec![]),
        }))
    );
    assert_eq!(
        decode_line("=thread-group-added,id=\"i1\""),
        Ok(Output::OutOfBand(OutOfBandRecord::AsyncRecord {
            token: None,
            kind: AsyncKind::Notify,
            class: "thread-group-added".to_string(),
            results: tuple(vec![("id", text("i1"))]),
        }))
    );
    assert_eq!(decode_line("*"), Err(ParseError));
    assert_eq!(decode_line("=,a=\"b\""), Err(ParseError));
    assert_eq!(decode_line("99999999999999999999*stopped"), Err(ParseError));
}

#[test]
fn stream_records() {
    assert_eq!(decode_line("~\"hello\\n\""), stream(StreamKind::Console, "hello\n"));
    assert_eq!(decode_line("@\"out\\tput\""), stream(StreamKind::Target, "out\tput"));
    assert_eq!(decode_line("&\"a \\\"b\\\" \\\\ c\\r\"\n"), stream(StreamKind::Log, "a \"b\" \\ c\r"));
    assert_eq!(decode_line("~\"\""), stream(StreamKind::Console, ""));
    assert_eq!(decode_line("~\"\\303\\244\""), stream(StreamKind::Console, "\\303\\244"));
    assert_eq!(decode_line("~\"open"), Err(ParseError));
    assert_eq!(decode_line("~\"a\"b"), Err(ParseError));
    assert_eq!(decode_line("~hello"), Err(ParseError));
    assert_eq!(decode_line("1~\"hello\""), Err(ParseError));
    assert_eq!(decode_line("~\"ends with backslash\\\""), Err(ParseError));
}

#[test]
fn unknown_lines_are_malformed() {
    assert_eq!(decode_line(""), Err(ParseError));
    assert_eq!(decode_line("\n"), Err(ParseError));
    assert_eq!(decode_line("123"), Err(ParseError));
    assert_eq!(decode_line("hello"), Err(ParseError));
    assert_eq!(decode_line("12-exec-run"), Err(ParseError));
}

#[test]
fn values_of_each_shape() {
    assert_eq!(value("\"abc\""), Some((text("abc"), 5)));
    assert_eq!(value("\"abc\"rest"), Some((text("abc"), 5)));
    assert_eq!(value("{}"), Some((tuple(vec![]), 2)));
    assert_eq!(value("[]"), Some((Value::List(vec![]), 2)));
    assert_eq!(
        value("{a=\"1\",b=[\"x\",\"y\"]}"),
        Some((
            tuple(vec![("a", text("1")), ("b", Value::List(vec![text("x"), text("y")]))]),
            19
        ))
    );
    assert_eq!(
        value("[frame={level=\"0\"},frame={level=\"1\"}]"),
        Some((
            Value::List(vec![
                tuple(vec![("level", text("0"))]),
                tuple(vec![("level", text("1"))]),
            ]),
            37
        ))
    );
    assert_eq!(value("[[],{}]"), Some((Value::List(vec![Value::List(vec![]), tuple(vec![])]), 7)));
    assert_eq!(value(""), None);
    assert_eq!(value("abc"), None);
    assert_eq!(value("{a=\"1\""), None);
    assert_eq!(value("{a=\"1\",}"), None);
    assert_eq!(value("[\"x\",]"), None);
    assert_eq!(value("[\"x\"\"y\"]"), None);
    assert_eq!(value("{\"x\"}"), None);
}

#[test]
fn later_value_wins_for_a_repeated_key() {
    assert_eq!(
        value("{a=\"1\",b=\"2\",a=\"3\"}"),
        Some((tuple(vec![("a", text("3")), ("b", text("2"))]), 19))
    );
    assert_eq!(
        decode_line("1^done,x=\"old\",x=\"new\""),
        result(1, ResultClass::Done, tuple(vec![("x", text("new"))]))
    );
}

#[test]
fn escaped_text_reads_back() {
    for wanted in ["", "plain", "a\\b", "say \"hi\"", "line\nfeed", "carriage\rreturn", "\\n", "\\\"\r\n\\", "t\tab \u{e4}\u{1f600}"] {
        let line = format!("~{}", escape_command(wanted));
        assert_eq!(decode_line(&line), stream(StreamKind::Console, wanted));
        let mut chars: Vec<char> = escape_command(wanted).chars().collect();
        chars.push(',');
        assert_eq!(parse_value(&chars, 0), Some((text(wanted), chars.len() - 1)));
    }
}
