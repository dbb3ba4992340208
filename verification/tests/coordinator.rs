use gdb_mi::commands::MiCommand;
use gdb_mi::coordinator::{Channel, Coordinator, Delivery, ExecuteError};
use gdb_mi::output::{
    AsyncKind, OutOfBandRecord, Output, ResultClass, ResultRecord, StreamKind,
};
use gdb_mi::value::Value;
use std::collections::VecDeque;

fn channel(lines: &[&str]) -> Channel {
    Channel {
        outbound: Vec::new(),
        inbound: lines.iter().map(|l| l.to_string()).collect::<VecDeque<String>>(),
    }
}

fn text(s: &str) -> Value {
    Value::Const(s.to_string())
}

fn tuple(entries: Vec<(&str, Value)>) -> Value {
    Value::Tuple(entries.into_iter().map(|(k, v)| (k.to_string(), v)).collect())
}

fn console(data: &str) -> OutOfBandRecord {
    OutOfBandRecord::StreamRecord { kind: StreamKind::Console, data: data.to_string() }
}

#[test]
fn execute_returns_the_result_with_its_token() {
    let mut c = Coordinator::new();
    let mut ch = channel(&["0^done,value=\"42\"\n", "(gdb) \n"]);
    let mut sink = Vec::new();
    let r = c.execute(&MiCommand::data_evaluate_expression("6*7".to_string()), &mut ch, &mut sink);
    assert_eq!(
        r,
        Ok(ResultRecord {
            token: 0,
            class: ResultClass::Done,
            results: tuple(vec![("value", text("42"))]),
        })
    );
    assert_eq!(ch.outbound, b"0-data-evaluate-expression \"6*7\"\n".to_vec());
    assert_eq!(ch.inbound.len(), 1);
    assert!(sink.is_empty());
    assert_eq!(c.pending(), None);
    assert_eq!(c.next_token(), 1);
    assert!(!c.is_quit());
}

#[test]
fn execute_delivers_an_error_class_as_a_result() {
    let mut c = Coordinator::new();
    let mut ch = channel(&["0^error,msg=\"No symbol table is loaded.\"\n"]);
    let mut sink = Vec::new();
    let r = c.execute(&MiCommand::exec_interrupt(), &mut ch, &mut sink).unwrap();
    assert_eq!(r.class, ResultClass::Error);
    assert_eq!(r.results.get("msg"), Some(&text("No symbol table is loaded.")));
}

#[test]
fn execute_while_pending_is_busy_and_writes_nothing() {
    let mut c = Coordinator::new();
    let mut ch = channel(&["~\"still working\"\n"]);
    assert_eq!(c.submit(&MiCommand::exec_interrupt(), &mut ch.outbound), Ok(0));
    let written = ch.outbound.clone();
    assert_eq!(written, b"0-exec-interrupt\n".to_vec());
    let mut sink = Vec::new();
    let r = c.execute(&MiCommand::exit(), &mut ch, &mut sink);
    assert_eq!(r, Err(ExecuteError::Busy));
    assert_eq!(ch.outbound, written);
    assert_eq!(ch.inbound.len(), 1);
    assert!(sink.is_empty());
    assert_eq!(c.submit(&MiCommand::exit(), &mut ch.outbound), Err(ExecuteError::Busy));
    assert_eq!(ch.outbound, written);
    assert_eq!(c.pending(), Some(0));
    assert_eq!(c.next_token(), 1);
}

#[test]
fn busy_ends_when_the_result_is_observed() {
    let mut c = Coordinator::new();
    let mut out = Vec::new();
    assert_eq!(c.submit(&MiCommand::exec_interrupt(), &mut out), Ok(0));
    assert_eq!(c.observe_line("(gdb) \n"), Delivery::Nothing);
    assert_eq!(c.observe_line("garbage\n"), Delivery::Nothing);
    assert_eq!(c.observe_line("5^done\n"), Delivery::Nothing);
    assert_eq!(c.submit(&MiCommand::exit(), &mut out), Err(ExecuteError::Busy));
    assert_eq!(c.observe_line("~\"x\"\n"), Delivery::Notification(console("x")));
    assert_eq!(
        c.observe_line("0^running\n"),
        Delivery::Result(ResultRecord {
            token: 0,
            class: ResultClass::Running,
            results: tuple(vec![]),
        })
    );
    assert_eq!(c.pending(), None);
    assert_eq!(c.observe_line("0^running\n"), Delivery::Nothing);
    assert_eq!(c.submit(&MiCommand::exit(), &mut out), Ok(1));
    assert_eq!(out, b"0-exec-interrupt\n1-gdb-exit\n".to_vec());
}

#[test]
fn end_of_stream_is_quit_for_good() {
    let mut c = Coordinator::new();
    let mut ch = channel(&["~\"bye\"\n", "7^done\n"]);
    let mut sink = Vec::new();
    let r = c.execute(&MiCommand::exit(), &mut ch, &mut sink);
    assert_eq!(r, Err(ExecuteError::Quit));
    assert_eq!(sink, vec![console("bye")]);
    assert!(ch.inbound.is_empty());
    assert!(c.is_quit());
    let written = ch.outbound.clone();
    assert_eq!(written, b"0-gdb-exit\n".to_vec());
    ch.inbound.push_back("1^done\n".to_string());
    for _ in 0..3 {
        let r = c.execute(&MiCommand::exit(), &mut ch, &mut sink);
        assert_eq!(r, Err(ExecuteError::Quit));
        assert_eq!(c.submit(&MiCommand::exit(), &mut ch.outbound), Err(ExecuteError::Quit));
        assert_eq!(ch.outbound, written);
        assert_eq!(ch.inbound.len(), 1);
        assert_eq!(sink.len(), 1);
        assert!(c.is_quit());
    }
}

#[test]
fn close_gives_up_the_pending_command() {
    let mut c = Coordinator::new();
    let mut out = Vec::new();
    assert_eq!(c.submit(&MiCommand::exit(), &mut out), Ok(0));
    c.close();
    assert!(c.is_quit());
    assert_eq!(c.pending(), None);
    assert_eq!(c.submit(&MiCommand::exit(), &mut out), Err(ExecuteError::Quit));
    assert_eq!(out, b"0-gdb-exit\n".to_vec());
}

#[test]
fn out_of_band_records_are_passed_on_in_order() {
    let mut c = Coordinator::new();
    let mut ch = channel(&[
        "=thread-group-added,id=\"i1\"\n",
        "~\"one\"\n",
        "not a record\n",
        "9^done\n",
        "(gdb) \n",
        "*stopped,reason=\"exited\"\n",
        "0^done\n",
        "~\"after\"\n",
    ]);
    let mut sink = vec![console("earlier")];
    let r = c.execute(&MiCommand::environment_pwd(), &mut ch, &mut sink);
    assert_eq!(r, Ok(ResultRecord { token: 0, class: ResultClass::Done, results: tuple(vec![]) }));
    assert_eq!(
        sink,
        vec![
            console("earlier"),
            OutOfBandRecord::AsyncRecord {
                token: None,
                kind: AsyncKind::Notify,
                class: "thread-group-added".to_string(),
                results: tuple(vec![("id", text("i1"))]),
            },
            console("one"),
            OutOfBandRecord::AsyncRecord {
                token: None,
                kind: AsyncKind::Exec,
                class: "stopped".to_string(),
                results: tuple(vec![("reason", text("exited"))]),
            },
        ]
    );
    assert_eq!(ch.inbound.len(), 1);
    assert_eq!(ch.inbound[0], "~\"after\"\n");
}

#[test]
fn tokens_increase_and_are_not_reused() {
    let mut c = Coordinator::new();
    let mut ch = channel(&["0^done\n", "0^done\n", "1^done\n", "2^exit\n"]);
    let mut sink = Vec::new();
    for expected in 0..3u64 {
        assert_eq!(c.next_token(), expected);
        let r = c.execute(&MiCommand::stack_info_depth(), &mut ch, &mut sink).unwrap();
        assert_eq!(r.token, expected);
    }
    assert_eq!(ch.outbound, b"0-stack-info-depth\n1-stack-info-depth\n2-stack-info-depth\n".to_vec());
    assert!(ch.inbound.is_empty());
}

#[test]
fn observe_sorts_outputs() {
    let mut c = Coordinator::new();
    assert_eq!(c.observe(Output::Prompt), Delivery::Nothing);
    assert_eq!(c.observe(Output::OutOfBand(console("x"))), Delivery::Notification(console("x")));
    let record = ResultRecord { token: 0, class: ResultClass::Done, results: tuple(vec![]) };
    assert_eq!(c.observe(Output::Result(record.clone())), Delivery::Nothing);
    let mut out = Vec::new();
    assert_eq!(c.submit(&MiCommand::exit(), &mut out), Ok(0));
    assert_eq!(c.observe(Output::Result(record.clone())), Delivery::Result(record));
}
