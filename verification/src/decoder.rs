//! Reading the debugger's output: one line at a time, each on its own.

use crate::commands::Token;
use crate::escape::{quoted_at, unquote};
use crate::output::{
    AsyncKind, OutOfBandRecord, OutOfBandView, Output, OutputView, ParseError, ResultClass,
    ResultRecord, ResultRecordView, StreamKind,
};
use crate::text::{
    chars_of, digit_run, find_char, find_from, lemma_find_char, lemma_find_char_unique,
    parse_unsigned, range_is, scan_digits, string_of, unsigned_of,
};
use crate::escape::{escaped, escaped_body, lemma_unquote_escaped};
use crate::value::{
    insert_entry, inserted, joined, key_index, keys_distinct, lemma_key_index_from,
    lemma_list_view, lemma_normalized_distinct, lemma_normalized_from, lemma_rendered_entries,
    lemma_tuple_view, list_view, normalized, tuple_view, Value, ValueView,
};
use vstd::prelude::*;

verus! {

/// Whether `c` can stand in the name of a value.
pub open spec fn is_key_char(c: char) -> bool {
    c != '=' && c != ',' && c != '{' && c != '}' && c != '[' && c != ']' && c != '"'
}

/// The end of the longest run of name characters that starts at `from`.
pub open spec fn key_end(s: Seq<char>, from: int) -> int
    decreases s.len() - from,
{
    if 0 <= from < s.len() && is_key_char(s[from]) {
        key_end(s, from + 1)
    } else {
        from
    }
}

/// The value that starts at `pos`, and where it ends: quoted text is a
/// constant, braces hold a tuple of named values, square brackets hold a
/// list of items.
pub open spec fn value_at(s: Seq<char>, pos: int) -> Option<(ValueView, int)>
    decreases s.len() - pos, 0nat,
{
    if pos < 0 || pos >= s.len() {
        None
    } else if s[pos] == '"' {
        match quoted_at(s, pos) {
            Some((text, end)) => Some((ValueView::Const(text), end)),
            None => None,
        }
    } else if s[pos] == '{' {
        if pos + 1 < s.len() && s[pos + 1] == '}' {
            Some((ValueView::Tuple(Seq::empty()), pos + 2))
        } else {
            match pairs_at(s, pos + 1) {
                Some((pairs, end)) => if end < s.len() && s[end] == '}' {
                    Some((ValueView::Tuple(normalized(pairs)), end + 1))
                } else {
                    None
                },
                None => None,
            }
        }
    } else if s[pos] == '[' {
        if pos + 1 < s.len() && s[pos + 1] == ']' {
            Some((ValueView::List(Seq::empty()), pos + 2))
        } else {
            match items_at(s, pos + 1) {
                Some((items, end)) => if end < s.len() && s[end] == ']' {
                    Some((ValueView::List(items), end + 1))
                } else {
                    None
                },
                None => None,
            }
        }
    } else {
        None
    }
}

/// The named value that starts at `pos`: a name, an equals sign and a
/// value.
pub open spec fn pair_at(s: Seq<char>, pos: int) -> Option<((Seq<char>, ValueView), int)>
    decreases s.len() - pos, 1nat,
{
    let k = key_end(s, pos);
    if pos < 0 || pos >= s.len() || k <= pos || k >= s.len() || s[k] != '=' {
        None
    } else {
        match value_at(s, k + 1) {
            Some((value, end)) => Some(((s.subrange(pos, k), value), end)),
            None => None,
        }
    }
}

/// The item of a list that starts at `pos`: a value, or a named value,
/// whose name is dropped.
pub open spec fn item_at(s: Seq<char>, pos: int) -> Option<(ValueView, int)>
    decreases s.len() - pos, 2nat,
{
    if 0 <= pos < s.len() && (s[pos] == '"' || s[pos] == '{' || s[pos] == '[') {
        value_at(s, pos)
    } else {
        match pair_at(s, pos) {
            Some((pair, end)) => Some((pair.1, end)),
            None => None,
        }
    }
}

/// One or more named values with commas between them, from `pos` on, in
/// the order in which they stand.
pub open spec fn pairs_at(s: Seq<char>, pos: int) -> Option<(Seq<(Seq<char>, ValueView)>, int)>
    decreases s.len() - pos, 3nat,
{
    if pos < 0 || pos >= s.len() {
        None
    } else {
        match pair_at(s, pos) {
            None => None,
            Some((pair, end)) => if pos < end < s.len() && s[end] == ',' {
                match pairs_at(s, end + 1) {
                    Some((rest, last)) => Some((seq![pair] + rest, last)),
                    None => None,
                }
            } else {
                Some((seq![pair], end))
            },
        }
    }
}

/// One or more items with commas between them, from `pos` on.
pub open spec fn items_at(s: Seq<char>, pos: int) -> Option<(Seq<ValueView>, int)>
    decreases s.len() - pos, 3nat,
{
    if pos < 0 || pos >= s.len() {
        None
    } else {
        match item_at(s, pos) {
            None => None,
            Some((item, end)) => if pos < end < s.len() && s[end] == ',' {
                match items_at(s, end + 1) {
                    Some((rest, last)) => Some((seq![item] + rest, last)),
                    None => None,
                }
            } else {
                Some((seq![item], end))
            },
        }
    }
}

/// `r` with `done` put in front of the sequence it carries.
pub open spec fn after<T>(done: Seq<T>, r: Option<(Seq<T>, int)>) -> Option<(Seq<T>, int)> {
    match r {
        Some((rest, end)) => Some((done + rest, end)),
        None => None,
    }
}

/// Whether each value in `pairs` is well formed.
pub open spec fn values_well_formed(pairs: Seq<(Seq<char>, ValueView)>) -> bool {
    forall|i: int| 0 <= i < pairs.len() ==> (#[trigger] pairs[i]).1.well_formed()
}

/// The tuple made of well-formed values is well formed.
pub proof fn lemma_tuple_well_formed(pairs: Seq<(Seq<char>, ValueView)>)
    requires
        values_well_formed(pairs),
    ensures
        ValueView::Tuple(normalized(pairs)).well_formed(),
{
    let t = normalized(pairs);
    lemma_normalized_distinct(pairs);
    assert forall|i: int| 0 <= i < t.len() implies (#[trigger] t[i]).1.well_formed() by {
        lemma_normalized_from(pairs, i);
        let j = choose|j: int| 0 <= j < pairs.len() && #[trigger] pairs[j] == t[i];
        assert(pairs[j].1.well_formed());
    }
}

/// Every value that is read is well formed: no tuple in it has a
/// repeated key.
pub proof fn lemma_value_at_well_formed(s: Seq<char>, pos: int)
    ensures
        value_at(s, pos) matches Some((value, end)) ==> value.well_formed(),
    decreases s.len() - pos, 0nat,
{
    if 0 <= pos < s.len() {
        if s[pos] == '{' {
            if !(pos + 1 < s.len() && s[pos + 1] == '}') {
                lemma_pairs_at_well_formed(s, pos + 1);
                match pairs_at(s, pos + 1) {
                    Some((pairs, end)) => {
                        lemma_tuple_well_formed(pairs);
                    },
                    None => {},
                }
            }
        } else if s[pos] == '[' {
            if !(pos + 1 < s.len() && s[pos + 1] == ']') {
                lemma_items_at_well_formed(s, pos + 1);
            }
        }
    }
}

/// Every named value that is read holds a well-formed value.
pub proof fn lemma_pair_at_well_formed(s: Seq<char>, pos: int)
    ensures
        pair_at(s, pos) matches Some((pair, end)) ==> pair.1.well_formed(),
    decreases s.len() - pos, 1nat,
{
    let k = key_end(s, pos);
    if !(pos < 0 || pos >= s.len() || k <= pos || k >= s.len() || s[k] != '=') {
        lemma_value_at_well_formed(s, k + 1);
    }
}

/// Every sequence of named values that is read holds well-formed values.
pub proof fn lemma_pairs_at_well_formed(s: Seq<char>, pos: int)
    ensures
        pairs_at(s, pos) matches Some((pairs, end)) ==> values_well_formed(pairs),
    decreases s.len() - pos, 3nat,
{
    if 0 <= pos < s.len() {
        lemma_pair_at_well_formed(s, pos);
        match pair_at(s, pos) {
            Some((pair, end)) => {
                if pos < end < s.len() && s[end] == ',' {
                    lemma_pairs_at_well_formed(s, end + 1);
                }
            },
            None => {},
        }
    }
}

/// Every sequence of items that is read holds well-formed values.
pub proof fn lemma_items_at_well_formed(s: Seq<char>, pos: int)
    ensures
        items_at(s, pos) matches Some((items, end)) ==> forall|i: int|
            0 <= i < items.len() ==> (#[trigger] items[i]).well_formed(),
    decreases s.len() - pos, 3nat,
{
    if 0 <= pos < s.len() {
        if s[pos] == '"' || s[pos] == '{' || s[pos] == '[' {
            lemma_value_at_well_formed(s, pos);
        } else {
            lemma_pair_at_well_formed(s, pos);
        }
        match item_at(s, pos) {
            Some((item, end)) => {
                if pos < end < s.len() && s[end] == ',' {
                    lemma_items_at_well_formed(s, end + 1);
                }
            },
            None => {},
        }
    }
}

fn scan_key(chars: &Vec<char>, from: usize) -> (end: usize)
    requires
        from <= chars.len(),
    ensures
        end == key_end(chars@, from as int),
        from <= end <= chars.len(),
{
    let mut i: usize = from;
    while i < chars.len() && chars[i] != '=' && chars[i] != ',' && chars[i] != '{' && chars[i]
        != '}' && chars[i] != '[' && chars[i] != ']' && chars[i] != '"'
        invariant
            from <= i <= chars.len(),
            key_end(chars@, from as int) == key_end(chars@, i as int),
        decreases chars.len() - i,
    {
        i += 1;
    }
    i
}

/// Reads the value that starts at `pos`.
pub fn parse_value(chars: &Vec<char>, pos: usize) -> (r: Option<(Value, usize)>)
    ensures
        match r {
            Some((value, end)) => value_at(chars@, pos as int) == Some((value@, end as int))
                && pos < end <= chars.len(),
            None => value_at(chars@, pos as int) is None,
        },
    decreases chars.len() - pos, 0nat,
{
    if pos >= chars.len() {
        return None;
    }
    let c = chars[pos];
    if c == '"' {
        match unquote(chars, pos) {
            Some((text, end)) => Some((Value::Const(text), end)),
            None => None,
        }
    } else if c == '{' {
        if pos + 1 < chars.len() && chars[pos + 1] == '}' {
            let entries: Vec<(String, Value)> = Vec::new();
            proof {
                lemma_tuple_view(entries);
                assert(tuple_view(entries@) =~= Seq::empty());
            }
            return Some((Value::Tuple(entries), pos + 2));
        }
        match parse_pairs(chars, pos + 1) {
            Some((entries, end)) => {
                if end < chars.len() && chars[end] == '}' {
                    proof {
                        lemma_tuple_view(entries);
                    }
                    Some((Value::Tuple(entries), end + 1))
                } else {
                    None
                }
            },
            None => None,
        }
    } else if c == '[' {
        if pos + 1 < chars.len() && chars[pos + 1] == ']' {
            let items: Vec<Value> = Vec::new();
            proof {
                lemma_list_view(items);
                assert(list_view(items@) =~= Seq::empty());
            }
            return Some((Value::List(items), pos + 2));
        }
        match parse_items(chars, pos + 1) {
            Some((items, end)) => {
                if end < chars.len() && chars[end] == ']' {
                    proof {
                        lemma_list_view(items);
                    }
                    Some((Value::List(items), end + 1))
                } else {
                    None
                }
            },
            None => None,
        }
    } else {
        None
    }
}

fn parse_pair(chars: &Vec<char>, pos: usize) -> (r: Option<(String, Value, usize)>)
    ensures
        match r {
            Some((key, value, end)) => pair_at(chars@, pos as int) == Some(
                ((key@, value@), end as int),
            ) && pos < end <= chars.len(),
            None => pair_at(chars@, pos as int) is None,
        },
    decreases chars.len() - pos, 1nat,
{
    if pos >= chars.len() {
        return None;
    }
    let k = scan_key(chars, pos);
    if k <= pos || k >= chars.len() || chars[k] != '=' {
        return None;
    }
    match parse_value(chars, k + 1) {
        Some((value, end)) => {
            let key = string_of(chars, pos, k);
            Some((key, value, end))
        },
        None => None,
    }
}

fn parse_item(chars: &Vec<char>, pos: usize) -> (r: Option<(Value, usize)>)
    ensures
        match r {
            Some((value, end)) => item_at(chars@, pos as int) == Some((value@, end as int))
                && pos < end <= chars.len(),
            None => item_at(chars@, pos as int) is None,
        },
    decreases chars.len() - pos, 2nat,
{
    if pos < chars.len() && (chars[pos] == '"' || chars[pos] == '{' || chars[pos] == '[') {
        parse_value(chars, pos)
    } else {
        match parse_pair(chars, pos) {
            Some((_, value, end)) => Some((value, end)),
            None => None,
        }
    }
}

fn parse_pairs(chars: &Vec<char>, pos: usize) -> (r: Option<(Vec<(String, Value)>, usize)>)
    ensures
        match pairs_at(chars@, pos as int) {
            Some((pairs, end)) => r matches Some((entries, stop)) && stop == end && tuple_view(
                entries@,
            ) == normalized(pairs) && pos < stop <= chars.len(),
            None => r is None,
        },
    decreases chars.len() - pos, 3nat,
{
    if pos >= chars.len() {
        return None;
    }
    let ghost s = chars@;
    let mut entries: Vec<(String, Value)> = Vec::new();
    let ghost mut raw: Seq<(Seq<char>, ValueView)> = Seq::empty();
    let mut i: usize = pos;
    proof {
        assert(tuple_view(entries@) =~= normalized(raw));
        match pairs_at(s, pos as int) {
            Some((rest, end)) => {
                assert(raw + rest =~= rest);
            },
            None => {},
        }
    }
    loop
        invariant
            pos <= i <= chars.len(),
            s == chars@,
            tuple_view(entries@) == normalized(raw),
            pairs_at(s, pos as int) == after(raw, pairs_at(s, i as int)),
        decreases chars.len() - i,
    {
        match parse_pair(chars, i) {
            None => {
                return None;
            },
            Some((key, value, end)) => {
                let ghost pair = (key@, value@);
                let ghost before = raw;
                insert_entry(&mut entries, key, value);
                proof {
                    raw = raw.push(pair);
                    assert(raw.drop_last() =~= before);
                }
                if end < chars.len() && chars[end] == ',' {
                    proof {
                        match pairs_at(s, end + 1) {
                            Some((rest, last)) => {
                                assert(before + (seq![pair] + rest) =~= raw + rest);
                            },
                            None => {},
                        }
                    }
                    i = end + 1;
                } else {
                    assert(before + seq![pair] =~= raw);
                    return Some((entries, end));
                }
            },
        }
    }
}

fn parse_items(chars: &Vec<char>, pos: usize) -> (r: Option<(Vec<Value>, usize)>)
    ensures
        match items_at(chars@, pos as int) {
            Some((items, end)) => r matches Some((found, stop)) && stop == end && list_view(found@)
                == items && pos < stop <= chars.len(),
            None => r is None,
        },
    decreases chars.len() - pos, 3nat,
{
    if pos >= chars.len() {
        return None;
    }
    let ghost s = chars@;
    let mut found: Vec<Value> = Vec::new();
    let mut i: usize = pos;
    proof {
        assert(list_view(found@) =~= Seq::empty());
        match items_at(s, pos as int) {
            Some((rest, end)) => {
                assert(list_view(found@) + rest =~= rest);
            },
            None => {},
        }
    }
    loop
        invariant
            pos <= i <= chars.len(),
            s == chars@,
            items_at(s, pos as int) == after(list_view(found@), items_at(s, i as int)),
        decreases chars.len() - i,
    {
        match parse_item(chars, i) {
            None => {
                return None;
            },
            Some((value, end)) => {
                let ghost item = value@;
                let ghost before = list_view(found@);
                found.push(value);
                assert(list_view(found@) =~= before.push(item));
                if end < chars.len() && chars[end] == ',' {
                    proof {
                        match items_at(s, end + 1) {
                            Some((rest, last)) => {
                                assert(before + (seq![item] + rest) =~= list_view(found@) + rest);
                            },
                            None => {},
                        }
                    }
                    i = end + 1;
                } else {
                    assert(before + seq![item] =~= list_view(found@));
                    return Some((found, end));
                }
            },
        }
    }
}

/// The class that a word names in a result record.
pub open spec fn class_of(word: Seq<char>) -> Option<ResultClass> {
    if word == "done"@ {
        Some(ResultClass::Done)
    } else if word == "running"@ {
        Some(ResultClass::Running)
    } else if word == "connected"@ {
        Some(ResultClass::Connected)
    } else if word == "error"@ {
        Some(ResultClass::Error)
    } else if word == "exit"@ {
        Some(ResultClass::Exit)
    } else {
        None
    }
}

/// The kind of notification that a marker stands for.
pub open spec fn async_kind_of(c: char) -> Option<AsyncKind> {
    if c == '*' {
        Some(AsyncKind::Exec)
    } else if c == '+' {
        Some(AsyncKind::Status)
    } else if c == '=' {
        Some(AsyncKind::Notify)
    } else {
        None
    }
}

/// The stream that a marker stands for.
pub open spec fn stream_kind_of(c: char) -> Option<StreamKind> {
    if c == '~' {
        Some(StreamKind::Console)
    } else if c == '@' {
        Some(StreamKind::Target)
    } else if c == '&' {
        Some(StreamKind::Log)
    } else {
        None
    }
}

/// The named values that follow a class up to the end of the line, each
/// after a comma, in the order in which they stand.
pub open spec fn results_at(s: Seq<char>, pos: int) -> Option<Seq<(Seq<char>, ValueView)>>
    decreases s.len() - pos,
{
    if pos == s.len() {
        Some(Seq::empty())
    } else if 0 <= pos < s.len() && s[pos] == ',' {
        match pair_at(s, pos + 1) {
            Some((pair, end)) => if pos < end <= s.len() {
                match results_at(s, end) {
                    Some(rest) => Some(seq![pair] + rest),
                    None => None,
                }
            } else {
                None
            },
            None => None,
        }
    } else {
        None
    }
}

/// `r` with `done` put in front of the sequence it is.
pub open spec fn following<T>(done: Seq<T>, r: Option<Seq<T>>) -> Option<Seq<T>> {
    match r {
        Some(rest) => Some(done + rest),
        None => None,
    }
}

/// A line without its end: without one line feed at the end, and then
/// without one carriage return at the end.
pub open spec fn line_body(line: Seq<char>) -> Seq<char> {
    let cut = if line.len() > 0 && line.last() == '\n' {
        line.drop_last()
    } else {
        line
    };
    if cut.len() > 0 && cut.last() == '\r' {
        cut.drop_last()
    } else {
        cut
    }
}

/// Whether `s` is the prompt: the word `(gdb)`, and after it nothing but
/// spaces.
pub open spec fn is_prompt(s: Seq<char>) -> bool {
    let word = "(gdb)"@;
    &&& word.len() <= s.len()
    &&& s.take(word.len() as int) == word
    &&& forall|i: int| word.len() <= i < s.len() ==> s[i] == ' '
}

/// The token that the `t` digits at the start of `s` denote. With no
/// digits there is no token; digits that denote too large a number are
/// no token at all.
pub open spec fn token_at(s: Seq<char>, t: int) -> Option<Option<Token>> {
    if t == 0 {
        Some(None)
    } else {
        match unsigned_of(s.take(t), u64::MAX as nat) {
            Ok(v) => Some(Some(v as u64)),
            Err(_) => None,
        }
    }
}

/// What the body of a line holds, or `None` if it has none of the known
/// forms.
///
/// After the digits of a token, `^` starts a result and needs the token,
/// and `*`, `+` and `=` start a notification. A class follows up to the
/// first comma, then the named values. Without a token, `~`, `@` and `&`
/// start streamed text, which is one quoted string up to the end.
pub open spec fn record_of(s: Seq<char>) -> Option<OutputView> {
    let t = digit_run(s, 0);
    let comma = find_char(s, ',', t + 1);
    if is_prompt(s) {
        Some(OutputView::Prompt)
    } else if t >= s.len() {
        None
    } else if s[t] == '^' {
        match (token_at(s, t), class_of(s.subrange(t + 1, comma)), results_at(s, comma)) {
            (Some(Some(token)), Some(class), Some(pairs)) => Some(
                OutputView::Result(
                    ResultRecordView { token, class, results: ValueView::Tuple(normalized(pairs)) },
                ),
            ),
            _ => None,
        }
    } else if async_kind_of(s[t]) is Some {
        match (token_at(s, t), results_at(s, comma)) {
            (Some(token), Some(pairs)) => if comma > t + 1 {
                Some(
                    OutputView::OutOfBand(
                        OutOfBandView::Async {
                            token,
                            kind: async_kind_of(s[t])->0,
                            class: s.subrange(t + 1, comma),
                            results: ValueView::Tuple(normalized(pairs)),
                        },
                    ),
                )
            } else {
                None
            },
            _ => None,
        }
    } else if t == 0 && stream_kind_of(s[0]) is Some {
        match quoted_at(s, 1) {
            Some((data, end)) => if end == s.len() {
                Some(OutputView::OutOfBand(OutOfBandView::Stream { kind: stream_kind_of(s[0])->0, data }))
            } else {
                None
            },
            None => None,
        }
    } else {
        None
    }
}

/// What a line holds, or `None` if it is malformed.
pub open spec fn decoded(line: Seq<char>) -> Option<OutputView> {
    record_of(line_body(line))
}

/// The outcome of reading a line, as a mathematical object.
pub open spec fn outcome_view(r: Result<Output, ParseError>) -> Option<OutputView> {
    match r {
        Ok(output) => Some(output@),
        Err(_) => None,
    }
}

/// The lines of a text. Each line ends with its line feed; the text
/// after the last line feed, if there is any, is a line too.
pub open spec fn lines_of(s: Seq<char>) -> Seq<Seq<char>>
    decreases s.len(),
{
    let n = find_char(s, '\n', 0);
    if s.len() == 0 {
        Seq::empty()
    } else if 0 <= n < s.len() {
        seq![s.take(n + 1)] + lines_of(s.skip(n + 1))
    } else {
        seq![s]
    }
}

/// The named values of a record hold well-formed values.
pub proof fn lemma_results_at_well_formed(s: Seq<char>, pos: int)
    ensures
        results_at(s, pos) matches Some(pairs) ==> values_well_formed(pairs),
    decreases s.len() - pos,
{
    if 0 <= pos < s.len() && s[pos] == ',' {
        lemma_pair_at_well_formed(s, pos + 1);
        match pair_at(s, pos + 1) {
            Some((pair, end)) => {
                if pos < end <= s.len() {
                    lemma_results_at_well_formed(s, end);
                }
            },
            None => {},
        }
    }
}

/// The payload of every record that is read is a well-formed tuple.
pub proof fn lemma_decoded_well_formed(line: Seq<char>)
    ensures
        match decoded(line) {
            Some(OutputView::Result(record)) => record.results is Tuple
                && record.results.well_formed(),
            Some(OutputView::OutOfBand(OutOfBandView::Async { results, .. })) => results is Tuple
                && results.well_formed(),
            _ => true,
        },
{
    let s = line_body(line);
    let t = digit_run(s, 0);
    let comma = find_char(s, ',', t + 1);
    lemma_results_at_well_formed(s, comma);
    match results_at(s, comma) {
        Some(pairs) => {
            lemma_tuple_well_formed(pairs);
        },
        None => {},
    }
}

fn parse_results(chars: &Vec<char>, pos: usize) -> (r: Option<Vec<(String, Value)>>)
    requires
        pos <= chars.len(),
    ensures
        match results_at(chars@, pos as int) {
            Some(pairs) => r matches Some(entries) && tuple_view(entries@) == normalized(pairs),
            None => r is None,
        },
{
    let ghost s = chars@;
    let mut entries: Vec<(String, Value)> = Vec::new();
    let ghost mut raw: Seq<(Seq<char>, ValueView)> = Seq::empty();
    let mut i: usize = pos;
    proof {
        assert(tuple_view(entries@) =~= normalized(raw));
        match results_at(s, pos as int) {
            Some(rest) => {
                assert(raw + rest =~= rest);
            },
            None => {},
        }
    }
    while i < chars.len()
        invariant
            pos <= i <= chars.len(),
            s == chars@,
            tuple_view(entries@) == normalized(raw),
            results_at(s, pos as int) == following(raw, results_at(s, i as int)),
        decreases chars.len() - i,
    {
        if chars[i] != ',' {
            return None;
        }
        match parse_pair(chars, i + 1) {
            None => {
                return None;
            },
            Some((key, value, end)) => {
                let ghost pair = (key@, value@);
                let ghost before = raw;
                insert_entry(&mut entries, key, value);
                proof {
                    raw = raw.push(pair);
                    assert(raw.drop_last() =~= before);
                    match results_at(s, end as int) {
                        Some(rest) => {
                            assert(before + (seq![pair] + rest) =~= raw + rest);
                        },
                        None => {},
                    }
                }
                i = end;
            },
        }
    }
    assert(raw + Seq::empty() =~= raw);
    Some(entries)
}

fn is_prompt_line(chars: &Vec<char>) -> (r: bool)
    ensures
        r == is_prompt(chars@),
{
    let word = chars_of("(gdb)");
    let n = word.len();
    if chars.len() < n || !range_is(chars, 0, n, "(gdb)") {
        return false;
    }
    assert(chars@.subrange(0, n as int) =~= chars@.take(n as int));
    let mut i: usize = n;
    while i < chars.len()
        invariant
            n <= i <= chars.len(),
            n == "(gdb)"@.len(),
            chars@.take(n as int) == "(gdb)"@,
            forall|j: int| n <= j < i ==> chars@[j] == ' ',
        decreases chars.len() - i,
    {
        if chars[i] != ' ' {
            return false;
        }
        i += 1;
    }
    true
}

fn parse_class(chars: &Vec<char>, from: usize, to: usize) -> (r: Option<ResultClass>)
    requires
        from <= to <= chars.len(),
    ensures
        r == class_of(chars@.subrange(from as int, to as int)),
{
    if range_is(chars, from, to, "done") {
        Some(ResultClass::Done)
    } else if range_is(chars, from, to, "running") {
        Some(ResultClass::Running)
    } else if range_is(chars, from, to, "connected") {
        Some(ResultClass::Connected)
    } else if range_is(chars, from, to, "error") {
        Some(ResultClass::Error)
    } else if range_is(chars, from, to, "exit") {
        Some(ResultClass::Exit)
    } else {
        None
    }
}

/// Reads the body of a line: a line without its end.
pub fn decode_body(chars: &Vec<char>) -> (r: Result<Output, ParseError>)
    ensures
        outcome_view(r) == record_of(chars@),
{
    let n = chars.len();
    if is_prompt_line(chars) {
        return Ok(Output::Prompt);
    }
    let t = scan_digits(chars, 0);
    if t >= n {
        return Err(ParseError);
    }
    let marker = chars[t];
    let comma = find_from(chars, ',', t + 1);
    assert(chars@.subrange(0, t as int) =~= chars@.take(t as int));
    if marker == '^' {
        if t == 0 {
            return Err(ParseError);
        }
        let token = match parse_unsigned(chars, 0, t, u64::MAX) {
            Ok(v) => v,
            Err(_) => {
                return Err(ParseError);
            },
        };
        let class = match parse_class(chars, t + 1, comma) {
            Some(class) => class,
            None => {
                return Err(ParseError);
            },
        };
        match parse_results(chars, comma) {
            Some(entries) => {
                proof {
                    lemma_tuple_view(entries);
                }
                Ok(Output::Result(ResultRecord { token, class, results: Value::Tuple(entries) }))
            },
            None => Err(ParseError),
        }
    } else if marker == '*' || marker == '+' || marker == '=' {
        let kind = if marker == '*' {
            AsyncKind::Exec
        } else if marker == '+' {
            AsyncKind::Status
        } else {
            AsyncKind::Notify
        };
        let token = if t == 0 {
            None
        } else {
            match parse_unsigned(chars, 0, t, u64::MAX) {
                Ok(v) => Some(v),
                Err(_) => {
                    return Err(ParseError);
                },
            }
        };
        if comma <= t + 1 {
            return Err(ParseError);
        }
        match parse_results(chars, comma) {
            Some(entries) => {
                proof {
                    lemma_tuple_view(entries);
                }
                let class = string_of(chars, t + 1, comma);
                Ok(
                    Output::OutOfBand(
                        OutOfBandRecord::AsyncRecord {
                            token,
                            kind,
                            class,
                            results: Value::Tuple(entries),
                        },
                    ),
                )
            },
            None => Err(ParseError),
        }
    } else if t == 0 && (marker == '~' || marker == '@' || marker == '&') {
        let kind = if marker == '~' {
            StreamKind::Console
        } else if marker == '@' {
            StreamKind::Target
        } else {
            StreamKind::Log
        };
        match unquote(chars, 1) {
            Some((data, end)) => {
                if end == n {
                    Ok(Output::OutOfBand(OutOfBandRecord::StreamRecord { kind, data }))
                } else {
                    Err(ParseError)
                }
            },
            None => Err(ParseError),
        }
    } else {
        Err(ParseError)
    }
}

/// Reads a line that is held as characters, with or without its end.
pub fn decode_chars(chars: Vec<char>) -> (r: Result<Output, ParseError>)
    ensures
        outcome_view(r) == decoded(chars@),
{
    let mut chars = chars;
    let ghost line = chars@;
    let mut n: usize = chars.len();
    if n > 0 && chars[n - 1] == '\n' {
        n -= 1;
    }
    if n > 0 && chars[n - 1] == '\r' {
        n -= 1;
    }
    chars.truncate(n);
    assert(chars@ =~= line_body(line));
    decode_body(&chars)
}

/// Reads one line of the debugger's output, with or without its end.
/// A line that has none of the known forms is an error.
pub fn decode_line(line: &str) -> (r: Result<Output, ParseError>)
    ensures
        outcome_view(r) == decoded(line@),
{
    decode_chars(chars_of(line))
}

/// Reads each line of `text` on its own: the outcome for a line depends
/// on that line alone, so a malformed line costs its own record and no
/// other.
pub fn decode_lines(text: &str) -> (out: Vec<Result<Output, ParseError>>)
    ensures
        out.len() == lines_of(text@).len(),
        forall|i: int|
            0 <= i < out.len() ==> outcome_view(#[trigger] out@[i]) == decoded(lines_of(text@)[i]),
{
    let chars = chars_of(text);
    let ghost s = chars@;
    let mut out: Vec<Result<Output, ParseError>> = Vec::new();
    let ghost mut done: Seq<Seq<char>> = Seq::empty();
    let mut start: usize = 0;
    assert(s.skip(0) =~= s);
    assert(done + lines_of(s) =~= lines_of(s));
    while start < chars.len()
        invariant
            start <= chars.len(),
            s == chars@,
            s == text@,
            lines_of(s) == done + lines_of(s.skip(start as int)),
            out.len() == done.len(),
            forall|i: int| 0 <= i < out.len() ==> outcome_view(#[trigger] out@[i]) == decoded(done[i]),
        decreases chars.len() - start,
    {
        let nl = find_from(&chars, '\n', start);
        let stop: usize = if nl < chars.len() {
            nl + 1
        } else {
            nl
        };
        let mut line: Vec<char> = Vec::new();
        let mut i: usize = start;
        while i < stop
            invariant
                start <= i <= stop <= chars.len(),
                line@ == chars@.subrange(start as int, i as int),
            decreases stop - i,
        {
            line.push(chars[i]);
            i += 1;
            assert(line@ =~= chars@.subrange(start as int, i as int));
        }
        proof {
            let rest = s.skip(start as int);
            lemma_find_char(s, '\n', start as int);
            assert forall|j: int| 0 <= j < nl - start implies #[trigger] rest[j] != '\n' by {
                assert(rest[j] == s[start + j]);
            }
            lemma_find_char_unique(rest, '\n', 0, nl - start);
            if nl < chars.len() {
                assert(rest.take(nl - start + 1) =~= line@);
                assert(rest.skip(nl - start + 1) =~= s.skip(stop as int));
            } else {
                assert(rest =~= line@);
                assert(lines_of(s.skip(stop as int)) =~= Seq::<Seq<char>>::empty());
            }
            assert(done + (seq![line@] + lines_of(s.skip(stop as int))) =~= done.push(line@)
                + lines_of(s.skip(stop as int)));
            done = done.push(line@);
        }
        out.push(decode_chars(line));
        start = stop;
    }
    assert(lines_of(s.skip(chars.len() as int)) =~= Seq::<Seq<char>>::empty());
    assert(done + Seq::<Seq<char>>::empty() =~= done);
    out
}

/// Whether `key` can be written as the name of a value: it is not empty
/// and holds name characters only.
pub open spec fn is_key(key: Seq<char>) -> bool {
    key.len() > 0 && forall|j: int| 0 <= j < key.len() ==> is_key_char(#[trigger] key[j])
}

/// Whether a value reads back from its textual form as it is: no tuple in
/// it has a repeated key, and every key is a name.
pub open spec fn writable(v: ValueView) -> bool
    decreases v,
{
    match v {
        ValueView::Const(_) => true,
        ValueView::Tuple(entries) => keys_distinct(entries) && forall|i: int|
            0 <= i < entries.len() ==> is_key((#[trigger] entries[i]).0) && writable(entries[i].1),
        ValueView::List(items) => forall|i: int|
            0 <= i < items.len() ==> writable(#[trigger] items[i]),
    }
}

/// Whether `text` stands in `s` at `pos`.
pub open spec fn holds(s: Seq<char>, pos: int, text: Seq<char>) -> bool {
    0 <= pos && pos + text.len() <= s.len() && s.subrange(pos, pos + text.len()) == text
}

/// The number of entries of a tuple or of items of a list.
pub open spec fn arity(v: ValueView) -> nat {
    match v {
        ValueView::Const(_) => 0,
        ValueView::Tuple(entries) => entries.len(),
        ValueView::List(items) => items.len(),
    }
}

/// Where a text stands, each of its characters stands.
pub proof fn lemma_holds_index(s: Seq<char>, pos: int, text: Seq<char>, j: int)
    requires
        holds(s, pos, text),
        0 <= j < text.len(),
    ensures
        s[pos + j] == text[j],
{
    assert(s.subrange(pos, pos + text.len())[j] == s[pos + j]);
}

/// Where two texts stand one after the other, each of them stands.
pub proof fn lemma_holds_split(s: Seq<char>, pos: int, a: Seq<char>, b: Seq<char>)
    requires
        holds(s, pos, a + b),
    ensures
        holds(s, pos, a),
        holds(s, pos + a.len(), b),
{
    assert forall|j: int| 0 <= j < a.len() implies s[pos + j] == a[j] by {
        lemma_holds_index(s, pos, a + b, j);
    }
    assert forall|j: int| 0 <= j < b.len() implies s[pos + a.len() + j] == b[j] by {
        lemma_holds_index(s, pos, a + b, a.len() + j);
    }
    assert(s.subrange(pos, pos + a.len()) =~= a);
    assert(s.subrange(pos + a.len(), pos + a.len() + b.len()) =~= b);
}

/// Parts joined by commas start with the first part; the others follow
/// it after a comma.
pub proof fn lemma_joined_first(parts: Seq<Seq<char>>)
    requires
        parts.len() >= 1,
    ensures
        parts.len() == 1 ==> joined(parts) == parts[0],
        parts.len() >= 2 ==> joined(parts) == parts[0] + seq![','] + joined(parts.drop_first()),
    decreases parts.len(),
{
    if parts.len() == 2 {
        assert(parts.drop_last() =~= seq![parts[0]]);
        assert(parts.drop_first() =~= seq![parts[1]]);
        assert(joined(seq![parts[0]]) == parts[0]);
        assert(joined(seq![parts[1]]) == parts[1]);
    } else if parts.len() > 2 {
        let front = parts.drop_last();
        lemma_joined_first(front);
        let back = parts.drop_first();
        assert(back.drop_last() =~= front.drop_first());
        assert(back.last() == parts.last());
        assert(joined(parts) =~= parts[0] + seq![','] + joined(back));
    }
}

/// A run of name characters ends exactly where the first other
/// character stands.
pub proof fn lemma_key_end(s: Seq<char>, pos: int, k: int)
    requires
        0 <= pos <= k <= s.len(),
        forall|j: int| pos <= j < k ==> is_key_char(#[trigger] s[j]),
        k == s.len() || !is_key_char(s[k]),
    ensures
        key_end(s, pos) == k,
    decreases k - pos,
{
    if pos < k {
        lemma_key_end(s, pos + 1, k);
    }
}

/// Putting in one after the other the entries of a tuple without
/// repeated keys gives that tuple.
pub proof fn lemma_normalized_identity(t: Seq<(Seq<char>, ValueView)>)
    requires
        keys_distinct(t),
    ensures
        normalized(t) == t,
    decreases t.len(),
{
    if t.len() > 0 {
        let front = t.drop_last();
        lemma_normalized_identity(front);
        lemma_key_index_from(front, t.last().0, 0);
        let k = key_index(front, t.last().0);
        if k < front.len() {
            assert(front[k] == t[k]);
            assert(t[k].0 != t[t.len() - 1].0);
        }
        assert(inserted(front, t.last().0, t.last().1) =~= t);
    } else {
        assert(normalized(t) =~= t);
    }
}

/// The textual form of a value starts with the mark of its shape.
pub proof fn lemma_rendered_start(v: ValueView)
    ensures
        v.rendered().len() >= 2,
        v.rendered()[0] == '"' || v.rendered()[0] == '{' || v.rendered()[0] == '[',
{
}

/// Reading undoes writing: where the textual form of a writable value
/// stands, that value is read, and reading stops at the end of the form.
pub proof fn lemma_value_roundtrip(s: Seq<char>, pos: int, v: ValueView)
    requires
        writable(v),
        holds(s, pos, v.rendered()),
    ensures
        value_at(s, pos) == Some((v, pos + v.rendered().len())),
    decreases v, arity(v) + 1,
{
    let text = v.rendered();
    lemma_rendered_start(v);
    lemma_rendered_entries(v);
    lemma_holds_index(s, pos, text, 0);
    lemma_holds_index(s, pos, text, text.len() - 1);
    match v {
        ValueView::Const(t) => {
            let body = escaped_body(t);
            assert(text =~= seq!['"'] + (body + seq!['"']));
            lemma_holds_split(s, pos, seq!['"'], body + seq!['"']);
            lemma_holds_split(s, pos + 1, body, seq!['"']);
            lemma_holds_index(s, pos + 1 + body.len(), seq!['"'], 0);
            lemma_unquote_escaped(s, pos + 1, t);
        },
        ValueView::Tuple(entries) => {
            let parts = v.rendered_entries();
            let inner = joined(parts);
            assert(text =~= seq!['{'] + (inner + seq!['}']));
            lemma_holds_split(s, pos, seq!['{'], inner + seq!['}']);
            lemma_holds_split(s, pos + 1, inner, seq!['}']);
            lemma_holds_index(s, pos + 1 + inner.len(), seq!['}'], 0);
            if entries.len() == 0 {
                assert(entries =~= Seq::empty());
            } else {
                lemma_joined_first(parts);
                assert(is_key(entries[0].0));
                assert(parts[0][0] == entries[0].0[0]);
                assert(inner[0] == parts[0][0]);
                lemma_holds_index(s, pos + 1, inner, 0);
                assert(is_key_char(s[pos + 1]));
                assert(parts.skip(0) =~= parts);
                lemma_pairs_roundtrip(s, pos + 1, v, 0);
                assert(entries.skip(0) =~= entries);
                lemma_normalized_identity(entries);
            }
        },
        ValueView::List(items) => {
            let parts = v.rendered_entries();
            let inner = joined(parts);
            assert(text =~= seq!['['] + (inner + seq![']']));
            lemma_holds_split(s, pos, seq!['['], inner + seq![']']);
            lemma_holds_split(s, pos + 1, inner, seq![']']);
            lemma_holds_index(s, pos + 1 + inner.len(), seq![']'], 0);
            if items.len() == 0 {
                assert(items =~= Seq::empty());
            } else {
                lemma_joined_first(parts);
                lemma_rendered_start(items[0]);
                assert(inner[0] == parts[0][0]);
                lemma_holds_index(s, pos + 1, inner, 0);
                assert(parts.skip(0) =~= parts);
                lemma_items_roundtrip(s, pos + 1, v, 0);
                assert(items.skip(0) =~= items);
            }
        },
    }
}

/// Where the entries of a writable tuple from the `k`th on stand, with
/// commas between them and no comma after them, those entries are read.
pub proof fn lemma_pairs_roundtrip(s: Seq<char>, pos: int, v: ValueView, k: int)
    requires
        v is Tuple,
        writable(v),
        0 <= k < arity(v),
        holds(s, pos, joined(v.rendered_entries().skip(k))),
        pos + joined(v.rendered_entries().skip(k)).len() < s.len(),
        s[pos + joined(v.rendered_entries().skip(k)).len()] != ',',
    ensures
        pairs_at(s, pos) == Some(
            (v->Tuple_0.skip(k), pos + joined(v.rendered_entries().skip(k)).len()),
        ),
    decreases v, arity(v) - k,
{
    let entries = v->Tuple_0;
    let parts = v.rendered_entries();
    lemma_rendered_entries(v);
    let suffix = parts.skip(k);
    let text = joined(suffix);
    lemma_joined_first(suffix);
    let key = entries[k].0;
    let value = entries[k].1;
    let part = parts[k];
    assert(suffix[0] == part);
    assert(part == key + seq!['='] + value.rendered());
    assert(is_key(key) && writable(value));
    if k + 1 < entries.len() {
        assert(suffix.drop_first() =~= parts.skip(k + 1));
        assert(text =~= part + (seq![','] + joined(parts.skip(k + 1))));
        lemma_holds_split(s, pos, part, seq![','] + joined(parts.skip(k + 1)));
        lemma_holds_split(s, pos + part.len(), seq![','], joined(parts.skip(k + 1)));
        lemma_holds_index(s, pos + part.len(), seq![','], 0);
    } else {
        assert(text == part);
    }
    // the entry itself
    assert(part =~= key + (seq!['='] + value.rendered()));
    lemma_holds_split(s, pos, key, seq!['='] + value.rendered());
    lemma_holds_split(s, pos + key.len(), seq!['='], value.rendered());
    lemma_holds_index(s, pos + key.len(), seq!['='], 0);
    assert forall|j: int| pos <= j < pos + key.len() implies is_key_char(#[trigger] s[j]) by {
        lemma_holds_index(s, pos, key, j - pos);
        assert(is_key_char(key[j - pos]));
    }
    lemma_key_end(s, pos, pos + key.len());
    lemma_value_roundtrip(s, pos + key.len() + 1, value);
    let end = pos + part.len();
    assert(pair_at(s, pos) == Some(((key, value), end)));
    if k + 1 < entries.len() {
        lemma_pairs_roundtrip(s, end + 1, v, k + 1);
        assert(seq![(key, value)] + entries.skip(k + 1) =~= entries.skip(k));
    } else {
        assert(seq![(key, value)] =~= entries.skip(k));
    }
}

/// Where the items of a writable list from the `k`th on stand, with
/// commas between them and no comma after them, those items are read.
pub proof fn lemma_items_roundtrip(s: Seq<char>, pos: int, v: ValueView, k: int)
    requires
        v is List,
        writable(v),
        0 <= k < arity(v),
        holds(s, pos, joined(v.rendered_entries().skip(k))),
        pos + joined(v.rendered_entries().skip(k)).len() < s.len(),
        s[pos + joined(v.rendered_entries().skip(k)).len()] != ',',
    ensures
        items_at(s, pos) == Some(
            (v->List_0.skip(k), pos + joined(v.rendered_entries().skip(k)).len()),
        ),
    decreases v, arity(v) - k,
{
    let items = v->List_0;
    let parts = v.rendered_entries();
    lemma_rendered_entries(v);
    let suffix = parts.skip(k);
    let text = joined(suffix);
    lemma_joined_first(suffix);
    let item = items[k];
    let part = parts[k];
    assert(suffix[0] == part);
    assert(part == item.rendered());
    assert(writable(item));
    if k + 1 < items.len() {
        assert(suffix.drop_first() =~= parts.skip(k + 1));
        assert(text =~= part + (seq![','] + joined(parts.skip(k + 1))));
        lemma_holds_split(s, pos, part, seq![','] + joined(parts.skip(k + 1)));
        lemma_holds_split(s, pos + part.len(), seq![','], joined(parts.skip(k + 1)));
        lemma_holds_index(s, pos + part.len(), seq![','], 0);
    } else {
        assert(text == part);
    }
    lemma_rendered_start(item);
    lemma_holds_index(s, pos, part, 0);
    lemma_value_roundtrip(s, pos, item);
    let end = pos + part.len();
    assert(item_at(s, pos) == Some((item, end)));
    if k + 1 < items.len() {
        lemma_items_roundtrip(s, end + 1, v, k + 1);
        assert(seq![item] + items.skip(k + 1) =~= items.skip(k));
    } else {
        assert(seq![item] =~= items.skip(k));
    }
}

/// Streamed text reads back: the line made of the console mark and the
/// quoted form of any text is a stream record that carries exactly that
/// text.
pub proof fn lemma_escaped_stream_decodes(text: Seq<char>)
    ensures
        decoded(seq!['~'] + escaped(text)) == Some(
            OutputView::OutOfBand(OutOfBandView::Stream { kind: StreamKind::Console, data: text }),
        ),
{
    let line = seq!['~'] + escaped(text);
    let body = escaped_body(text);
    assert(line.last() == '"');
    assert(line_body(line) == line);
    reveal_strlit("(gdb)");
    assert(line.take(1)[0] == '~');
    assert(!is_prompt(line));
    assert(digit_run(line, 0) == 0);
    assert(line.subrange(2, 2 + body.len() as int) =~= body);
    lemma_unquote_escaped(line, 2, text);
}

} // verus!
