use gdb_mi::breakpoint::BreakPointNumber;
use gdb_mi::commands::{BreakPointLocation, DisassembleMode, MiCommand};
use gdb_mi::escape::escape_command;

fn line(cmd: &MiCommand, token: u64) -> String {
    let mut sink: Vec<u8> = Vec::new();
    cmd.write_interpreter_string(&mut sink, token);
    String::from_utf8(sink).unwrap()
}

fn options(cmd: &MiCommand) -> Vec<String> {
    cmd.options().iter().map(|o| String::from_utf8(o.clone()).unwrap()).collect()
}

fn parameters(cmd: &MiCommand) -> Vec<String> {
    cmd.parameters().iter().map(|o| String::from_utf8(o.clone()).unwrap()).collect()
}

fn id(major: usize, minor: Option<usize>) -> BreakPointNumber {
    BreakPointNumber { major, minor }
}

#[test]
fn line_with_two_options_and_two_parameters() {
    let cmd = MiCommand::list_thread_groups(true, &[3, 14]);
    assert_eq!(line(&cmd, 7), "7-list-thread-groups --available -- 3 14\n");
    let cmd = MiCommand::interpreter_exec(b"a".to_vec(), b"b".to_vec());
    assert_eq!(line(&cmd, 12), "12-interpreter-exec a b\n");
}

#[test]
fn line_without_parameters_has_no_double_hyphen() {
    assert_eq!(line(&MiCommand::exit(), 0), "0-gdb-exit\n");
    assert_eq!(line(&MiCommand::select_frame(3), 41), "41-stack-select-frame 3\n");
    assert_eq!(line(&MiCommand::list_thread_groups(false, &[]), 1), "1-list-thread-groups\n");
}

#[test]
fn line_carries_bytes_as_they_are() {
    let cmd = MiCommand::exec_arguments(vec![vec![0xff, 0x20, 0x00], b"-x".to_vec()]);
    let mut sink: Vec<u8> = vec![1, 2];
    cmd.write_interpreter_string(&mut sink, 18446744073709551615);
    let mut expected: Vec<u8> = vec![1, 2];
    expected.extend_from_slice(b"18446744073709551615-exec-arguments ");
    expected.extend_from_slice(&[0xff, 0x20, 0x00]);
    expected.extend_from_slice(b" -x\n");
    assert_eq!(sink, expected);
}

#[test]
fn escape_wraps_and_prefixes() {
    assert_eq!(escape_command("plain"), "\"plain\"");
    assert_eq!(escape_command(""), "\"\"");
    assert_eq!(escape_command("a\\b\"c\rd\ne"), "\"a\\\\b\\\"c\\\rd\\\ne\"");
    assert_eq!(escape_command("p \"x y\" \u{e4}"), "\"p \\\"x y\\\" \u{e4}\"");
}

#[test]
fn cli_exec_quotes_the_command() {
    let cmd = MiCommand::cli_exec("print \"hi\"");
    assert_eq!(cmd.operation(), "interpreter-exec");
    assert_eq!(options(&cmd), vec!["console", "\"print \\\"hi\\\"\""]);
    assert!(cmd.parameters().is_empty());
    assert_eq!(line(&cmd, 5), "5-interpreter-exec console \"print \\\"hi\\\"\"\n");
}

#[test]
fn disassemble_file_encodes_line_count_or_sentinel() {
    let cmd =
        MiCommand::data_disassemble_file(b"src/main.c", 10, Some(20), DisassembleMode::DisassemblyOnly);
    assert_eq!(cmd.operation(), "data-disassemble");
    assert_eq!(options(&cmd), vec!["-f", "src/main.c", "-l", "10", "-n", "20"]);
    assert_eq!(parameters(&cmd), vec!["0"]);
    let cmd = MiCommand::data_disassemble_file(
        b"m.c",
        1,
        None,
        DisassembleMode::MixedSourceAndDisassembly,
    );
    assert_eq!(options(&cmd), vec!["-f", "m.c", "-l", "1", "-n", "-1"]);
    assert_eq!(parameters(&cmd), vec!["4"]);
    assert_eq!(line(&cmd, 2), "2-data-disassemble -f m.c -l 1 -n -1 -- 4\n");
}

#[test]
fn disassemble_address_encodes_both_ends() {
    let cmd = MiCommand::data_disassemble_address(
        4096,
        4128,
        DisassembleMode::MixedSourceAndDisassemblyWithRawOpcodes,
    );
    assert_eq!(options(&cmd), vec!["-s", "4096", "-e", "4128"]);
    assert_eq!(parameters(&cmd), vec!["5"]);
}

#[test]
fn disassemble_modes_have_their_wire_values() {
    assert_eq!(DisassembleMode::DisassemblyOnly.code(), 0);
    assert_eq!(DisassembleMode::DisassemblyWithRawOpcodes.code(), 1);
    assert_eq!(DisassembleMode::MixedSourceAndDisassembly.code(), 4);
    assert_eq!(DisassembleMode::MixedSourceAndDisassemblyWithRawOpcodes.code(), 5);
}

#[test]
fn only_four_numbers_are_modes() {
    assert_eq!(DisassembleMode::from_code(0), Some(DisassembleMode::DisassemblyOnly));
    assert_eq!(DisassembleMode::from_code(1), Some(DisassembleMode::DisassemblyWithRawOpcodes));
    assert_eq!(DisassembleMode::from_code(4), Some(DisassembleMode::MixedSourceAndDisassembly));
    assert_eq!(
        DisassembleMode::from_code(5),
        Some(DisassembleMode::MixedSourceAndDisassemblyWithRawOpcodes)
    );
    for code in 0..=255u8 {
        match DisassembleMode::from_code(code) {
            Some(mode) => assert_eq!(mode.code(), code),
            None => assert!(![0, 1, 4, 5].contains(&code)),
        }
    }
    assert_eq!(DisassembleMode::from_code(2), None);
    assert_eq!(DisassembleMode::from_code(3), None);
}

#[test]
fn evaluate_expression_is_quoted_without_escaping() {
    let cmd = MiCommand::data_evaluate_expression("a + b".to_string());
    assert_eq!(cmd.operation(), "data-evaluate-expression");
    assert_eq!(options(&cmd), vec!["\"a + b\""]);
    let cmd = MiCommand::data_evaluate_expression("s == \"x\"".to_string());
    assert_eq!(options(&cmd), vec!["\"s == \"x\"\""]);
}

#[test]
fn insert_breakpoint_at_each_kind_of_location() {
    let cmd = MiCommand::insert_breakpoint(BreakPointLocation::Address(0xdeadbeef));
    assert_eq!(cmd.operation(), "break-insert");
    assert_eq!(options(&cmd), vec!["*0xdeadbeef"]);
    let cmd = MiCommand::insert_breakpoint(BreakPointLocation::Address(0));
    assert_eq!(options(&cmd), vec!["*0x0"]);
    let cmd = MiCommand::insert_breakpoint(BreakPointLocation::Address(255));
    assert_eq!(options(&cmd), vec!["*0xff"]);
    let cmd = MiCommand::insert_breakpoint(BreakPointLocation::Function(b"a.c", "main"));
    assert_eq!(options(&cmd), vec!["--source", "a.c", "--function", "main"]);
    let cmd = MiCommand::insert_breakpoint(BreakPointLocation::Line(b"dir/b.c", 42));
    assert_eq!(options(&cmd), vec!["--source", "dir/b.c", "--line", "42"]);
    assert!(cmd.parameters().is_empty());
}

#[test]
fn delete_breakpoints_names_each_major_once_ascending() {
    let ids = [id(3, None), id(1, None), id(3, Some(1)), id(2, None)];
    let cmd = MiCommand::delete_breakpoints(&ids);
    assert_eq!(cmd.operation(), "break-delete");
    assert_eq!(options(&cmd), vec!["1", "2", "3"]);
    assert!(cmd.parameters().is_empty());
    let ids = [id(2, None), id(3, Some(1)), id(3, None), id(1, None)];
    assert_eq!(options(&MiCommand::delete_breakpoints(&ids)), vec!["1", "2", "3"]);
}

#[test]
fn delete_breakpoints_orders_by_number_not_by_text() {
    let ids = [id(10, None), id(9, Some(4)), id(100, None), id(9, None)];
    assert_eq!(options(&MiCommand::delete_breakpoints(&ids)), vec!["9", "10", "100"]);
    assert!(MiCommand::delete_breakpoints(&[]).options().is_empty());
}

#[test]
fn commands_without_inputs() {
    assert_eq!(line(&MiCommand::environment_pwd(), 1), "1-environment-pwd\n");
    assert_eq!(line(&MiCommand::exec_interrupt(), 2), "2-exec-interrupt\n");
    assert_eq!(line(&MiCommand::exit(), 3), "3-gdb-exit\n");
    assert_eq!(line(&MiCommand::stack_info_depth(), 4), "4-stack-info-depth\n");
}

#[test]
fn absent_inputs_leave_no_option() {
    assert!(MiCommand::stack_info_frame(None).options().is_empty());
    assert_eq!(options(&MiCommand::stack_info_frame(Some(2))), vec!["2"]);
    assert!(MiCommand::thread_info(None).options().is_empty());
    assert_eq!(options(&MiCommand::thread_info(Some(17))), vec!["17"]);
    assert!(MiCommand::file_symbol_file(None).options().is_empty());
    assert_eq!(options(&MiCommand::file_symbol_file(Some(b"/bin/ls"))), vec!["/bin/ls"]);
    assert_eq!(options(&MiCommand::file_exec_and_symbols(b"/bin/ls")), vec!["/bin/ls"]);
    assert_eq!(line(&MiCommand::stack_info_frame(None), 9), "9-stack-info-frame\n");
}
