//! Commands for the debugger: how they are built from typed inputs and
//! how they are written on the wire.

use crate::breakpoint::BreakPointNumber;
use crate::escape::{escape_command, escaped};
use crate::text::{decimal, hexadecimal, push_char, push_numeral};
use vstd::prelude::*;
use vstd::slice::slice_to_vec;
use vstd::utf8::encode_utf8;

verus! {

/// The number that ties a command to the result that answers it.
pub type Token = u64;

/// A command: the name of an operation, its options and its parameters.
/// Options and parameters are byte strings, carried as they are.
#[derive(Debug, Clone)]
pub struct MiCommand {
    operation: &'static str,
    options: Vec<Vec<u8>>,
    parameters: Vec<Vec<u8>>,
}

/// What a command holds, as mathematical values.
pub struct CommandView {
    pub operation: Seq<char>,
    pub options: Seq<Seq<u8>>,
    pub parameters: Seq<Seq<u8>>,
}

/// How much of the disassembly the debugger is asked to show.
#[derive(Debug, Clone, Copy, PartialEq, Eq, Structural)]
pub enum DisassembleMode {
    DisassemblyOnly,
    DisassemblyWithRawOpcodes,
    MixedSourceAndDisassembly,
    MixedSourceAndDisassemblyWithRawOpcodes,
}

/// Where a breakpoint is to be set. Paths are byte strings.
pub enum BreakPointLocation<'a> {
    Address(usize),
    Function(&'a [u8], &'a str),
    Line(&'a [u8], usize),
}

/// The byte strings that a list of byte vectors holds.
pub open spec fn views(items: Seq<Vec<u8>>) -> Seq<Seq<u8>> {
    items.map_values(|v: Vec<u8>| v@)
}

/// The bytes that stand for the number `n` on the wire: its decimal
/// numeral.
pub open spec fn number_text(n: nat) -> Seq<u8> {
    encode_utf8(decimal(n))
}

/// The wire form of each number in `ids`, in order.
pub open spec fn numbers_text(ids: Seq<u32>) -> Seq<Seq<u8>> {
    ids.map_values(|id: u32| number_text(id as nat))
}

/// The byte strings of `items`, each with one space in front of it.
pub open spec fn spaced(items: Seq<Seq<u8>>) -> Seq<u8>
    decreases items.len(),
{
    if items.len() == 0 {
        Seq::empty()
    } else {
        spaced(items.drop_last()) + seq![32u8] + items.last()
    }
}

impl CommandView {
    /// The line that sends this command under `token`: the token, a
    /// hyphen, the operation, each option after a space, then, only if
    /// there are parameters, a space and two hyphens and each parameter
    /// after a space, and a line feed.
    pub open spec fn wire(self, token: nat) -> Seq<u8> {
        number_text(token) + seq![45u8] + encode_utf8(self.operation) + spaced(self.options) + (
        if self.parameters.len() > 0 {
            seq![32u8, 45u8, 45u8] + spaced(self.parameters)
        } else {
            Seq::empty()
        }) + seq![10u8]
    }
}

impl DisassembleMode {
    /// The number that the debugger knows this mode by.
    pub open spec fn wire_value(self) -> nat {
        match self {
            DisassembleMode::DisassemblyOnly => 0,
            DisassembleMode::DisassemblyWithRawOpcodes => 1,
            DisassembleMode::MixedSourceAndDisassembly => 4,
            DisassembleMode::MixedSourceAndDisassemblyWithRawOpcodes => 5,
        }
    }

    /// The mode that the debugger knows by `code`, if there is one: no
    /// other number can become a mode.
    pub fn from_code(code: u8) -> (mode: Option<DisassembleMode>)
        ensures
            match mode {
                Some(m) => m.wire_value() == code,
                None => code != 0 && code != 1 && code != 4 && code != 5,
            },
    {
        if code == 0 {
            Some(DisassembleMode::DisassemblyOnly)
        } else if code == 1 {
            Some(DisassembleMode::DisassemblyWithRawOpcodes)
        } else if code == 4 {
            Some(DisassembleMode::MixedSourceAndDisassembly)
        } else if code == 5 {
            Some(DisassembleMode::MixedSourceAndDisassemblyWithRawOpcodes)
        } else {
            None
        }
    }

    /// The number that the debugger knows this mode by.
    pub fn code(&self) -> (v: u8)
        ensures
            v == self.wire_value(),
    {
        match self {
            DisassembleMode::DisassemblyOnly => 0,
            DisassembleMode::DisassemblyWithRawOpcodes => 1,
            DisassembleMode::MixedSourceAndDisassembly => 4,
            DisassembleMode::MixedSourceAndDisassemblyWithRawOpcodes => 5,
        }
    }
}

impl<'a> BreakPointLocation<'a> {
    /// The options that name this location to the debugger.
    pub open spec fn options(self) -> Seq<Seq<u8>> {
        match self {
            BreakPointLocation::Address(addr) => seq![
                encode_utf8(seq!['*', '0', 'x'] + hexadecimal(addr as nat)),
            ],
            BreakPointLocation::Function(path, name) => seq![
                encode_utf8("--source"@),
                path@,
                encode_utf8("--function"@),
                encode_utf8(name@),
            ],
            BreakPointLocation::Line(path, line) => seq![
                encode_utf8("--source"@),
                path@,
                encode_utf8("--line"@),
                number_text(line as nat),
            ],
        }
    }
}

/// Whether each number in `m` is smaller than all that follow it.
pub open spec fn ascending(m: Seq<usize>) -> bool {
    forall|i: int, j: int| 0 <= i < j < m.len() ==> m[i] < m[j]
}

/// Whether some identifier in `ids` has the major index `x`.
pub open spec fn has_major(ids: Seq<BreakPointNumber>, x: usize) -> bool {
    exists|i: int| 0 <= i < ids.len() && (#[trigger] ids[i]).major == x
}

/// Whether `m` lists the major indices of `ids`: each of them once, in
/// ascending order, and nothing else.
pub open spec fn is_major_list(m: Seq<usize>, ids: Seq<BreakPointNumber>) -> bool {
    &&& ascending(m)
    &&& forall|x: usize| m.contains(x) <==> has_major(ids, x)
}

/// The major indices of `ids`, each once, in ascending order.
pub open spec fn major_list(ids: Seq<BreakPointNumber>) -> Seq<usize> {
    choose|m: Seq<usize>| is_major_list(m, ids)
}

/// The wire form of each major index in `m`, in order.
pub open spec fn majors_text(m: Seq<usize>) -> Seq<Seq<u8>> {
    m.map_values(|x: usize| number_text(x as nat))
}

/// Two ascending lists with the same members are the same list.
pub proof fn lemma_ascending_unique(a: Seq<usize>, b: Seq<usize>)
    requires
        ascending(a),
        ascending(b),
        forall|x: usize| a.contains(x) <==> b.contains(x),
    ensures
        a == b,
    decreases a.len(),
{
    if a.len() == 0 {
        if b.len() > 0 {
            assert(b.contains(b[0]));
            assert(a.contains(b[0]));
        }
        assert(a =~= b);
    } else {
        let top = a.last();
        assert(a.contains(top));
        assert(b.contains(top));
        assert(b.len() > 0);
        assert(b.contains(b.last()));
        assert(a.contains(b.last()));
        let ia = choose|i: int| 0 <= i < a.len() && a[i] == b.last();
        let ib = choose|i: int| 0 <= i < b.len() && b[i] == top;
        assert(b.last() == top);
        let a0 = a.drop_last();
        let b0 = b.drop_last();
        assert forall|x: usize| a0.contains(x) <==> b0.contains(x) by {
            if a0.contains(x) {
                let i = choose|i: int| 0 <= i < a0.len() && a0[i] == x;
                assert(a[i] == x);
                assert(a.contains(x));
                let j = choose|j: int| 0 <= j < b.len() && b[j] == x;
                assert(x < top);
                assert(j < b.len() - 1);
                assert(b0[j] == x);
            }
            if b0.contains(x) {
                let j = choose|j: int| 0 <= j < b0.len() && b0[j] == x;
                assert(b[j] == x);
                assert(b.contains(x));
                let i = choose|i: int| 0 <= i < a.len() && a[i] == x;
                assert(x < top);
                assert(i < a.len() - 1);
                assert(a0[i] == x);
            }
        }
        lemma_ascending_unique(a0, b0);
        assert(a =~= a0.push(top));
        assert(b =~= b0.push(top));
    }
}

/// Every sequence of identifiers has a list of its major indices.
pub proof fn lemma_major_list_exists(ids: Seq<BreakPointNumber>) -> (m: Seq<usize>)
    ensures
        is_major_list(m, ids),
    decreases ids.len(),
{
    if ids.len() == 0 {
        let m = Seq::<usize>::empty();
        assert forall|x: usize| m.contains(x) <==> has_major(ids, x) by {}
        m
    } else {
        let rest = ids.drop_last();
        let prev = lemma_major_list_exists(rest);
        let x = ids.last().major;
        assert forall|y: usize| has_major(ids, y) <==> (has_major(rest, y) || y == x) by {
            if has_major(ids, y) {
                let i = choose|i: int| 0 <= i < ids.len() && (#[trigger] ids[i]).major == y;
                if i < rest.len() {
                    assert(rest[i].major == y);
                }
            }
            if has_major(rest, y) {
                let i = choose|i: int| 0 <= i < rest.len() && (#[trigger] rest[i]).major == y;
                assert(ids[i].major == y);
            }
            if y == x {
                assert(ids[ids.len() - 1].major == y);
            }
        }
        if prev.contains(x) {
            prev
        } else {
            let k = lemma_insert_point(prev, x);
            let m = prev.insert(k, x);
            assert forall|j: int| k <= j < prev.len() implies prev[j] > x by {
                assert(prev.contains(prev[j]));
            }
            lemma_insert_ascending(prev, k, x);
            m
        }
    }
}

/// In an ascending list, the place where `x` belongs: all before it are
/// smaller and none from it on is.
pub proof fn lemma_insert_point(m: Seq<usize>, x: usize) -> (k: int)
    requires
        ascending(m),
    ensures
        0 <= k <= m.len(),
        forall|j: int| 0 <= j < k ==> m[j] < x,
        forall|j: int| k <= j < m.len() ==> m[j] >= x,
    decreases m.len(),
{
    if m.len() == 0 {
        0
    } else if m.last() < x {
        assert forall|j: int| 0 <= j < m.len() implies m[j] < x by {
            if j < m.len() - 1 {
                assert(m[j] < m[m.len() - 1]);
            }
        }
        m.len() as int
    } else {
        let head = m.drop_last();
        assert forall|i: int, j: int| 0 <= i < j < head.len() implies head[i] < head[j] by {
            assert(m[i] < m[j]);
        }
        let k = lemma_insert_point(head, x);
        assert forall|j: int| 0 <= j < k implies m[j] < x by {
            assert(head[j] < x);
        }
        assert forall|j: int| k <= j < m.len() implies m[j] >= x by {
            if j < head.len() {
                assert(head[j] >= x);
            }
        }
        k
    }
}

/// Putting a new number at its place in an ascending list keeps the list
/// ascending and adds that number alone to its members.
pub proof fn lemma_insert_ascending(m: Seq<usize>, k: int, x: usize)
    requires
        ascending(m),
        0 <= k <= m.len(),
        forall|j: int| 0 <= j < k ==> m[j] < x,
        forall|j: int| k <= j < m.len() ==> m[j] > x,
    ensures
        ascending(m.insert(k, x)),
        forall|y: usize| m.insert(k, x).contains(y) <==> (m.contains(y) || y == x),
{
    let n = m.insert(k, x);
    assert forall|i: int, j: int| 0 <= i < j < n.len() implies n[i] < n[j] by {
        let vi = if i < k { m[i] } else if i == k { x } else { m[i - 1] };
        let vj = if j < k { m[j] } else if j == k { x } else { m[j - 1] };
        assert(n[i] == vi);
        assert(n[j] == vj);
    }
    assert forall|y: usize| n.contains(y) <==> (m.contains(y) || y == x) by {
        if n.contains(y) {
            let i = choose|i: int| 0 <= i < n.len() && n[i] == y;
            if i < k {
                assert(m[i] == y);
            } else if i > k {
                assert(m[i - 1] == y);
            }
        }
        if m.contains(y) {
            let i = choose|i: int| 0 <= i < m.len() && m[i] == y;
            if i < k {
                assert(n[i] == y);
            } else {
                assert(n[i + 1] == y);
            }
        }
        if y == x {
            assert(n[k] == y);
        }
    }
}

/// `major_list` is the one list of the major indices of `ids`.
pub proof fn lemma_major_list(m: Seq<usize>, ids: Seq<BreakPointNumber>)
    ensures
        is_major_list(major_list(ids), ids),
        is_major_list(m, ids) ==> m == major_list(ids),
{
    let w = lemma_major_list_exists(ids);
    if is_major_list(m, ids) {
        lemma_ascending_unique(m, major_list(ids));
    }
}

/// The list of major indices depends only on which major indices occur:
/// not on their order, on repetitions, or on minor indices.
pub proof fn lemma_major_list_order_independent(
    a: Seq<BreakPointNumber>,
    b: Seq<BreakPointNumber>,
)
    requires
        forall|x: usize| has_major(a, x) <==> has_major(b, x),
    ensures
        major_list(a) == major_list(b),
{
    lemma_major_list(major_list(a), a);
    lemma_major_list(major_list(a), b);
}

/// With two options and two parameters the line is the token, a hyphen,
/// the operation, the options each after one space, a space and two
/// hyphens, the parameters each after one space, and a line feed.
pub proof fn lemma_wire_two_options_two_parameters(
    token: nat,
    operation: Seq<char>,
    a: Seq<u8>,
    b: Seq<u8>,
    c: Seq<u8>,
    d: Seq<u8>,
)
    ensures
        (CommandView { operation, options: seq![a, b], parameters: seq![c, d] }).wire(token)
            == number_text(token) + seq![45u8] + encode_utf8(operation) + seq![32u8] + a
            + seq![32u8] + b + seq![32u8, 45u8, 45u8] + seq![32u8] + c + seq![32u8] + d
            + seq![10u8],
{
    lemma_spaced_pair(a, b);
    lemma_spaced_pair(c, d);
    let v = CommandView { operation, options: seq![a, b], parameters: seq![c, d] };
    assert(v.wire(token) =~= number_text(token) + seq![45u8] + encode_utf8(operation)
        + seq![32u8] + a + seq![32u8] + b + seq![32u8, 45u8, 45u8] + seq![32u8] + c
        + seq![32u8] + d + seq![10u8]);
}

/// Without parameters the line has no double hyphen: it ends after the
/// last option.
pub proof fn lemma_wire_without_parameters(token: nat, operation: Seq<char>, options: Seq<Seq<u8>>)
    ensures
        (CommandView { operation, options, parameters: Seq::empty() }).wire(token)
            == number_text(token) + seq![45u8] + encode_utf8(operation) + spaced(options)
            + seq![10u8],
{
    let v = CommandView { operation, options, parameters: Seq::empty() };
    assert(v.wire(token) =~= number_text(token) + seq![45u8] + encode_utf8(operation) + spaced(
        options,
    ) + seq![10u8]);
}

/// Two byte strings, each after one space.
pub proof fn lemma_spaced_pair(a: Seq<u8>, b: Seq<u8>)
    ensures
        spaced(seq![a, b]) == seq![32u8] + a + seq![32u8] + b,
{
    let two = seq![a, b];
    assert(two.drop_last() =~= seq![a]);
    assert(seq![a].drop_last() =~= Seq::<Seq<u8>>::empty());
    assert(spaced(Seq::<Seq<u8>>::empty()) =~= Seq::<u8>::empty());
    assert(spaced(seq![a]) =~= seq![32u8] + a);
    assert(spaced(two) =~= seq![32u8] + a + seq![32u8] + b);
}

fn ascending_majors(ids: &[BreakPointNumber]) -> (majors: Vec<usize>)
    ensures
        is_major_list(majors@, ids@),
{
    let mut majors: Vec<usize> = Vec::new();
    let mut k: usize = 0;
    assert forall|x: usize| majors@.contains(x) <==> has_major(ids@.take(0), x) by {}
    while k < ids.len()
        invariant
            k <= ids.len(),
            is_major_list(majors@, ids@.take(k as int)),
        decreases ids.len() - k,
    {
        let x = ids[k].major;
        let mut p: usize = 0;
        while p < majors.len() && majors[p] < x
            invariant
                p <= majors.len(),
                forall|j: int| 0 <= j < p ==> majors@[j] < x,
            decreases majors.len() - p,
        {
            p += 1;
        }
        let ghost seen = ids@.take(k as int);
        let ghost next = ids@.take(k + 1);
        proof {
            assert(next.drop_last() =~= seen);
            assert forall|y: usize| has_major(next, y) <==> (has_major(seen, y) || y == x) by {
                if has_major(next, y) {
                    let i = choose|i: int| 0 <= i < next.len() && (#[trigger] next[i]).major == y;
                    if i < seen.len() {
                        assert(seen[i].major == y);
                    }
                }
                if has_major(seen, y) {
                    let i = choose|i: int| 0 <= i < seen.len() && (#[trigger] seen[i]).major == y;
                    assert(next[i].major == y);
                }
                if y == x {
                    assert(next[k as int].major == y);
                }
            }
        }
        if p == majors.len() || majors[p] != x {
            proof {
                assert forall|j: int| p <= j < majors@.len() implies majors@[j] > x by {
                    if j > p {
                        assert(majors@[p as int] < majors@[j]);
                    }
                }
                lemma_insert_ascending(majors@, p as int, x);
            }
            majors.insert(p, x);
        } else {
            assert(majors@.contains(x));
        }
        k += 1;
    }
    assert(ids@.take(ids.len() as int) =~= ids@);
    majors
}

impl View for MiCommand {
    type V = CommandView;

    closed spec fn view(&self) -> CommandView {
        CommandView {
            operation: self.operation@,
            options: views(self.options@),
            parameters: views(self.parameters@),
        }
    }
}

fn text_bytes(s: &str) -> (b: Vec<u8>)
    ensures
        b@ == encode_utf8(s@),
{
    s.as_bytes_vec()
}

fn number_bytes(n: u64) -> (b: Vec<u8>)
    ensures
        b@ == number_text(n as nat),
{
    let mut s = String::new();
    push_numeral(&mut s, n, false);
    assert(s@ =~= decimal(n as nat));
    text_bytes(s.as_str())
}

fn append_bytes(sink: &mut Vec<u8>, bytes: &[u8])
    ensures
        final(sink)@ == old(sink)@ + bytes@,
{
    let mut i: usize = 0;
    while i < bytes.len()
        invariant
            i <= bytes.len(),
            sink@ == old(sink)@ + bytes@.take(i as int),
        decreases bytes.len() - i,
    {
        sink.push(bytes[i]);
        i += 1;
        assert(sink@ =~= old(sink)@ + bytes@.take(i as int));
    }
    assert(bytes@.take(bytes.len() as int) =~= bytes@);
}

fn append_spaced(sink: &mut Vec<u8>, items: &Vec<Vec<u8>>)
    ensures
        final(sink)@ == old(sink)@ + spaced(views(items@)),
{
    let mut i: usize = 0;
    assert(views(items@.take(0)) =~= Seq::<Seq<u8>>::empty());
    assert(sink@ =~= old(sink)@ + spaced(views(items@.take(0))));
    while i < items.len()
        invariant
            i <= items.len(),
            sink@ == old(sink)@ + spaced(views(items@.take(i as int))),
        decreases items.len() - i,
    {
        let ghost before = views(items@.take(i as int));
        sink.push(32u8);
        append_bytes(sink, items[i].as_slice());
        i += 1;
        proof {
            let now = views(items@.take(i as int));
            assert(now.drop_last() =~= before);
            assert(now.last() == items@[i - 1]@);
            assert(sink@ =~= old(sink)@ + spaced(now));
        }
    }
    assert(items@.take(items.len() as int) =~= items@);
}

impl MiCommand {
    fn build(operation: &'static str, options: Vec<Vec<u8>>, parameters: Vec<Vec<u8>>) -> (cmd:
        MiCommand)
        ensures
            cmd@ == (CommandView {
                operation: operation@,
                options: views(options@),
                parameters: views(parameters@),
            }),
    {
        MiCommand { operation, options, parameters }
    }

    /// The name of the operation.
    pub fn operation(&self) -> (name: &'static str)
        ensures
            name@ == self@.operation,
    {
        self.operation
    }

    /// The options, in order.
    pub fn options(&self) -> (items: &Vec<Vec<u8>>)
        ensures
            views(items@) == self@.options,
    {
        &self.options
    }

    /// The parameters, in order.
    pub fn parameters(&self) -> (items: &Vec<Vec<u8>>)
        ensures
            views(items@) == self@.parameters,
    {
        &self.parameters
    }

    /// Appends to `sink` the line that sends this command under `token`.
    pub fn write_interpreter_string(&self, sink: &mut Vec<u8>, token: Token)
        ensures
            final(sink)@ == old(sink)@ + self@.wire(token as nat),
    {
        let digits = number_bytes(token);
        append_bytes(sink, digits.as_slice());
        sink.push(45u8);
        append_bytes(sink, self.operation.as_bytes());
        append_spaced(sink, &self.options);
        if self.parameters.len() > 0 {
            sink.push(32u8);
            sink.push(45u8);
            sink.push(45u8);
            append_spaced(sink, &self.parameters);
        }
        sink.push(10u8);
        assert(sink@ =~= old(sink)@ + self@.wire(token as nat));
    }

    /// A command for another interpreter of the debugger.
    pub fn interpreter_exec(interpreter: Vec<u8>, command: Vec<u8>) -> (cmd: MiCommand)
        ensures
            cmd@ == (CommandView {
                operation: "interpreter-exec"@,
                options: seq![interpreter@, command@],
                parameters: Seq::empty(),
            }),
    {
        let mut options: Vec<Vec<u8>> = Vec::new();
        options.push(interpreter);
        options.push(command);
        assert(views(options@) =~= seq![interpreter@, command@]);
        let parameters: Vec<Vec<u8>> = Vec::new();
        assert(views(parameters@) =~= Seq::<Seq<u8>>::empty());
        MiCommand::build("interpreter-exec", options, parameters)
    }

    /// A command line for the debugger's console, passed through as one
    /// quoted argument.
    pub fn cli_exec(command: &str) -> (cmd: MiCommand)
        ensures
            cmd@ == (CommandView {
                operation: "interpreter-exec"@,
                options: seq![encode_utf8("console"@), encode_utf8(escaped(command@))],
                parameters: Seq::empty(),
            }),
    {
        let quoted = escape_command(command);
        MiCommand::interpreter_exec(text_bytes("console"), text_bytes(quoted.as_str()))
    }

    /// Disassembly of `lines` source lines of `file` from line `linenum`
    /// on; without a number of lines, of all of them, which is written
    /// as `-1`.
    pub fn data_disassemble_file(
        file: &[u8],
        linenum: usize,
        lines: Option<usize>,
        mode: DisassembleMode,
    ) -> (cmd: MiCommand)
        ensures
            cmd@ == (CommandView {
                operation: "data-disassemble"@,
                options: seq![
                    encode_utf8("-f"@),
                    file@,
                    encode_utf8("-l"@),
                    number_text(linenum as nat),
                    encode_utf8("-n"@),
                    match lines {
                        Some(n) => number_text(n as nat),
                        None => encode_utf8("-1"@),
                    },
                ],
                parameters: seq![number_text(mode.wire_value())],
            }),
    {
        let mut options: Vec<Vec<u8>> = Vec::new();
        options.push(text_bytes("-f"));
        options.push(slice_to_vec(file));
        options.push(text_bytes("-l"));
        options.push(number_bytes(linenum as u64));
        options.push(text_bytes("-n"));
        let count = match lines {
            Some(n) => number_bytes(n as u64),
            None => text_bytes("-1"),
        };
        options.push(count);
        let mut parameters: Vec<Vec<u8>> = Vec::new();
        parameters.push(number_bytes(mode.code() as u64));
        assert(views(options@) =~= seq![
            encode_utf8("-f"@),
            file@,
            encode_utf8("-l"@),
            number_text(linenum as nat),
            encode_utf8("-n"@),
            match lines {
                Some(n) => number_text(n as nat),
                None => encode_utf8("-1"@),
            },
        ]);
        assert(views(parameters@) =~= seq![number_text(mode.wire_value())]);
        MiCommand::build("data-disassemble", options, parameters)
    }

    /// Disassembly of the addresses from `start_addr` to `end_addr`.
    pub fn data_disassemble_address(start_addr: usize, end_addr: usize, mode: DisassembleMode) -> (cmd:
        MiCommand)
        ensures
            cmd@ == (CommandView {
                operation: "data-disassemble"@,
                options: seq![
                    encode_utf8("-s"@),
                    number_text(start_addr as nat),
                    encode_utf8("-e"@),
                    number_text(end_addr as nat),
                ],
                parameters: seq![number_text(mode.wire_value())],
            }),
    {
        let mut options: Vec<Vec<u8>> = Vec::new();
        options.push(text_bytes("-s"));
        options.push(number_bytes(start_addr as u64));
        options.push(text_bytes("-e"));
        options.push(number_bytes(end_addr as u64));
        let mut parameters: Vec<Vec<u8>> = Vec::new();
        parameters.push(number_bytes(mode.code() as u64));
        assert(views(options@) =~= seq![
            encode_utf8("-s"@),
            number_text(start_addr as nat),
            encode_utf8("-e"@),
            number_text(end_addr as nat),
        ]);
        assert(views(parameters@) =~= seq![number_text(mode.wire_value())]);
        MiCommand::build("data-disassemble", options, parameters)
    }

    /// Evaluation of an expression, which is put between double quotes
    /// as it is: a double quote inside it is not escaped.
    pub fn data_evaluate_expression(expression: String) -> (cmd: MiCommand)
        ensures
            cmd@ == (CommandView {
                operation: "data-evaluate-expression"@,
                options: seq![encode_utf8(seq!['"'] + expression@ + seq!['"'])],
                parameters: Seq::empty(),
            }),
    {
        let mut quoted = String::new();
        push_char(&mut quoted, '"');
        quoted.append(expression.as_str());
        push_char(&mut quoted, '"');
        assert(quoted@ =~= seq!['"'] + expression@ + seq!['"']);
        MiCommand::single("data-evaluate-expression", text_bytes(quoted.as_str()))
    }

    /// Insertion of a breakpoint at `location`.
    pub fn insert_breakpoint(location: BreakPointLocation) -> (cmd: MiCommand)
        ensures
            cmd@ == (CommandView {
                operation: "break-insert"@,
                options: location.options(),
                parameters: Seq::empty(),
            }),
    {
        let mut options: Vec<Vec<u8>> = Vec::new();
        match location {
            BreakPointLocation::Address(addr) => {
                let mut text = String::new();
                push_char(&mut text, '*');
                push_char(&mut text, '0');
                push_char(&mut text, 'x');
                push_numeral(&mut text, addr as u64, true);
                assert(text@ =~= seq!['*', '0', 'x'] + hexadecimal(addr as nat));
                options.push(text_bytes(text.as_str()));
            },
            BreakPointLocation::Function(path, name) => {
                options.push(text_bytes("--source"));
                options.push(slice_to_vec(path));
                options.push(text_bytes("--function"));
                options.push(text_bytes(name));
            },
            BreakPointLocation::Line(path, line) => {
                options.push(text_bytes("--source"));
                options.push(slice_to_vec(path));
                options.push(text_bytes("--line"));
                options.push(number_bytes(line as u64));
            },
        }
        assert(views(options@) =~= location.options());
        let parameters: Vec<Vec<u8>> = Vec::new();
        assert(views(parameters@) =~= Seq::<Seq<u8>>::empty());
        MiCommand::build("break-insert", options, parameters)
    }

    /// Deletion of breakpoints. The debugger deletes whole breakpoints
    /// only, so the command names the major index of each identifier,
    /// once, in ascending order.
    pub fn delete_breakpoints(breakpoint_numbers: &[BreakPointNumber]) -> (cmd: MiCommand)
        ensures
            cmd@ == (CommandView {
                operation: "break-delete"@,
                options: majors_text(major_list(breakpoint_numbers@)),
                parameters: Seq::empty(),
            }),
    {
        let majors = ascending_majors(breakpoint_numbers);
        proof {
            lemma_major_list(majors@, breakpoint_numbers@);
        }
        let mut options: Vec<Vec<u8>> = Vec::new();
        let mut i: usize = 0;
        while i < majors.len()
            invariant
                i <= majors.len(),
                options.len() == i,
                forall|j: int|
                    0 <= j < i ==> (#[trigger] options@[j])@ == number_text(majors@[j] as nat),
            decreases majors.len() - i,
        {
            options.push(number_bytes(majors[i] as u64));
            i += 1;
        }
        assert(views(options@) =~= majors_text(majors@));
        let parameters: Vec<Vec<u8>> = Vec::new();
        assert(views(parameters@) =~= Seq::<Seq<u8>>::empty());
        MiCommand::build("break-delete", options, parameters)
    }

    fn bare(operation: &'static str) -> (cmd: MiCommand)
        ensures
            cmd@ == (CommandView {
                operation: operation@,
                options: Seq::empty(),
                parameters: Seq::empty(),
            }),
    {
        let options: Vec<Vec<u8>> = Vec::new();
        let parameters: Vec<Vec<u8>> = Vec::new();
        assert(views(options@) =~= Seq::<Seq<u8>>::empty());
        MiCommand::build(operation, options, parameters)
    }

    fn single(operation: &'static str, option: Vec<u8>) -> (cmd: MiCommand)
        ensures
            cmd@ == (CommandView {
                operation: operation@,
                options: seq![option@],
                parameters: Seq::empty(),
            }),
    {
        let mut options: Vec<Vec<u8>> = Vec::new();
        options.push(option);
        let parameters: Vec<Vec<u8>> = Vec::new();
        assert(views(options@) =~= seq![option@]);
        assert(views(parameters@) =~= Seq::<Seq<u8>>::empty());
        MiCommand::build(operation, options, parameters)
    }

    /// The question for the debugger's working directory.
    pub fn environment_pwd() -> (cmd: MiCommand)
        ensures
            cmd@ == (CommandView {
                operation: "environment-pwd"@,
                options: Seq::empty(),
                parameters: Seq::empty(),
            }),
    {
        MiCommand::bare("environment-pwd")
    }

    /// The request to interrupt the running program.
    pub fn exec_interrupt() -> (cmd: MiCommand)
        ensures
            cmd@ == (CommandView {
                operation: "exec-interrupt"@,
                options: Seq::empty(),
                parameters: Seq::empty(),
            }),
    {
        MiCommand::bare("exec-interrupt")
    }

    /// The arguments for the next run of the program, carried as they are.
    pub fn exec_arguments(args: Vec<Vec<u8>>) -> (cmd: MiCommand)
        ensures
            cmd@ == (CommandView {
                operation: "exec-arguments"@,
                options: views(args@),
                parameters: Seq::empty(),
            }),
    {
        let parameters: Vec<Vec<u8>> = Vec::new();
        assert(views(parameters@) =~= Seq::<Seq<u8>>::empty());
        MiCommand::build("exec-arguments", args, parameters)
    }

    /// The request to leave the debugger.
    pub fn exit() -> (cmd: MiCommand)
        ensures
            cmd@ == (CommandView {
                operation: "gdb-exit"@,
                options: Seq::empty(),
                parameters: Seq::empty(),
            }),
    {
        MiCommand::bare("gdb-exit")
    }

    /// Selection of a stack frame.
    pub fn select_frame(frame_number: u64) -> (cmd: MiCommand)
        ensures
            cmd@ == (CommandView {
                operation: "stack-select-frame"@,
                options: seq![number_text(frame_number as nat)],
                parameters: Seq::empty(),
            }),
    {
        MiCommand::single("stack-select-frame", number_bytes(frame_number))
    }

    /// The question for a stack frame: the given one, or without a number
    /// the selected one.
    pub fn stack_info_frame(frame_number: Option<u64>) -> (cmd: MiCommand)
        ensures
            cmd@ == (CommandView {
                operation: "stack-info-frame"@,
                options: match frame_number {
                    Some(n) => seq![number_text(n as nat)],
                    None => Seq::empty(),
                },
                parameters: Seq::empty(),
            }),
    {
        match frame_number {
            Some(n) => MiCommand::single("stack-info-frame", number_bytes(n)),
            None => MiCommand::bare("stack-info-frame"),
        }
    }

    /// The question for the depth of the stack.
    pub fn stack_info_depth() -> (cmd: MiCommand)
        ensures
            cmd@ == (CommandView {
                operation: "stack-info-depth"@,
                options: Seq::empty(),
                parameters: Seq::empty(),
            }),
    {
        MiCommand::bare("stack-info-depth")
    }

    /// The question for one thread, or without a number for all of them.
    pub fn thread_info(thread_id: Option<u64>) -> (cmd: MiCommand)
        ensures
            cmd@ == (CommandView {
                operation: "thread-info"@,
                options: match thread_id {
                    Some(n) => seq![number_text(n as nat)],
                    None => Seq::empty(),
                },
                parameters: Seq::empty(),
            }),
    {
        match thread_id {
            Some(n) => MiCommand::single("thread-info", number_bytes(n)),
            None => MiCommand::bare("thread-info"),
        }
    }

    /// The program to debug, for its code and its symbols.
    pub fn file_exec_and_symbols(file: &[u8]) -> (cmd: MiCommand)
        ensures
            cmd@ == (CommandView {
                operation: "file-exec-and-symbols"@,
                options: seq![file@],
                parameters: Seq::empty(),
            }),
    {
        MiCommand::single("file-exec-and-symbols", slice_to_vec(file))
    }

    /// The file to read symbols from, or without one the request to
    /// forget them.
    pub fn file_symbol_file(file: Option<&[u8]>) -> (cmd: MiCommand)
        ensures
            cmd@ == (CommandView {
                operation: "file-symbol-file"@,
                options: match file {
                    Some(f) => seq![f@],
                    None => Seq::empty(),
                },
                parameters: Seq::empty(),
            }),
    {
        match file {
            Some(f) => MiCommand::single("file-symbol-file", slice_to_vec(f)),
            None => MiCommand::bare("file-symbol-file"),
        }
    }

    /// The question for thread groups: the given ones, and with
    /// `list_all_available` those that could be attached to.
    pub fn list_thread_groups(list_all_available: bool, thread_group_ids: &[u32]) -> (cmd:
        MiCommand)
        ensures
            cmd@ == (CommandView {
                operation: "list-thread-groups"@,
                options: if list_all_available {
                    seq![encode_utf8("--available"@)]
                } else {
                    Seq::empty()
                },
                parameters: numbers_text(thread_group_ids@),
            }),
    {
        let mut options: Vec<Vec<u8>> = Vec::new();
        if list_all_available {
            options.push(text_bytes("--available"));
        }
        let mut parameters: Vec<Vec<u8>> = Vec::new();
        let mut i: usize = 0;
        while i < thread_group_ids.len()
            invariant
                i <= thread_group_ids.len(),
                parameters.len() == i,
                forall|j: int|
                    0 <= j < i ==> (#[trigger] parameters@[j])@ == number_text(
                        thread_group_ids@[j] as nat,
                    ),
            decreases thread_group_ids.len() - i,
        {
            parameters.push(number_bytes(thread_group_ids[i] as u64));
            i += 1;
        }
        assert(views(parameters@) =~= numbers_text(thread_group_ids@));
        assert(views(options@) =~= if list_all_available {
            seq![encode_utf8("--available"@)]
        } else {
            Seq::<Seq<u8>>::empty()
        });
        MiCommand::build("list-thread-groups", options, parameters)
    }
}

} // verus!
