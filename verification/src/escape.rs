//! Quoting of free-form text for the wire, and its inverse.

use crate::text::{chars_of, push_char};
use vstd::prelude::*;

verus! {

/// Whether `c` is written with a backslash in front of it inside quotes.
pub open spec fn needs_escape(c: char) -> bool {
    c == '\\' || c == '"' || c == '\r' || c == '\n'
}

/// How one character is written inside quotes.
pub open spec fn escaped_char(c: char) -> Seq<char> {
    if needs_escape(c) {
        seq!['\\', c]
    } else {
        seq![c]
    }
}

/// How `text` is written inside quotes: each character in turn.
pub open spec fn escaped_body(text: Seq<char>) -> Seq<char>
    decreases text.len(),
{
    if text.len() == 0 {
        Seq::empty()
    } else {
        escaped_char(text.first()) + escaped_body(text.drop_first())
    }
}

/// The quoted form of `text`: its escaped body between two double quotes.
pub open spec fn escaped(text: Seq<char>) -> Seq<char> {
    seq!['"'] + escaped_body(text) + seq!['"']
}

/// The character that a backslash followed by `c` stands for, if the pair
/// is an escape at all.
pub open spec fn escape_target(c: char) -> Option<char> {
    if c == 'n' {
        Some('\n')
    } else if c == 'r' {
        Some('\r')
    } else if c == 't' {
        Some('\t')
    } else if needs_escape(c) {
        Some(c)
    } else {
        None
    }
}

/// `r` with `acc` put in front of the text it carries.
pub open spec fn with_prefix(acc: Seq<char>, r: Option<(Seq<char>, int)>) -> Option<
    (Seq<char>, int),
> {
    match r {
        Some((rest, end)) => Some((acc + rest, end)),
        None => None,
    }
}

/// Reads quoted text from inside the quotes: from `pos` up to the closing
/// quote. Gives the text with its escapes resolved and the position just
/// after the closing quote, or `None` if no closing quote follows.
///
/// A backslash that starts no known escape stands for itself.
pub open spec fn unquote_from(s: Seq<char>, pos: int) -> Option<(Seq<char>, int)>
    decreases s.len() - pos,
{
    if pos < 0 || pos >= s.len() {
        None
    } else if s[pos] == '"' {
        Some((Seq::empty(), pos + 1))
    } else if s[pos] == '\\' && pos + 1 < s.len() && escape_target(s[pos + 1]) is Some {
        with_prefix(seq![escape_target(s[pos + 1])->0], unquote_from(s, pos + 2))
    } else {
        with_prefix(seq![s[pos]], unquote_from(s, pos + 1))
    }
}

/// Reads a quoted string that starts at `pos` with its opening quote.
pub open spec fn quoted_at(s: Seq<char>, pos: int) -> Option<(Seq<char>, int)> {
    if 0 <= pos < s.len() && s[pos] == '"' {
        unquote_from(s, pos + 1)
    } else {
        None
    }
}

/// Escaping a text with one more character at its end appends that
/// character's escaped form.
pub proof fn lemma_escaped_body_push(text: Seq<char>, c: char)
    ensures
        escaped_body(text.push(c)) == escaped_body(text) + escaped_char(c),
    decreases text.len(),
{
    if text.len() == 0 {
        assert(text.push(c).drop_first() =~= Seq::<char>::empty());
        assert(escaped_body(Seq::<char>::empty()) =~= Seq::<char>::empty());
        assert(text =~= Seq::<char>::empty());
        assert(text.push(c).first() == c);
        assert(escaped_body(text.push(c)) =~= escaped_body(text) + escaped_char(c));
    } else {
        lemma_escaped_body_push(text.drop_first(), c);
        assert(text.push(c).drop_first() =~= text.drop_first().push(c));
        assert(escaped_body(text.push(c)) =~= escaped_body(text) + escaped_char(c));
    }
}

/// Wherever the escaped body of `text` and a closing quote stand in `s`,
/// unquoting from there gives `text` back and stops after the quote.
pub proof fn lemma_unquote_escaped(s: Seq<char>, pos: int, text: Seq<char>)
    requires
        0 <= pos,
        pos + escaped_body(text).len() < s.len(),
        s.subrange(pos, pos + escaped_body(text).len()) == escaped_body(text),
        s[pos + escaped_body(text).len()] == '"',
    ensures
        unquote_from(s, pos) == Some((text, pos + escaped_body(text).len() + 1)),
    decreases text.len(),
{
    let body = escaped_body(text);
    if text.len() == 0 {
    } else {
        let c = text.first();
        let rest = text.drop_first();
        let step = escaped_char(c).len() as int;
        assert(body =~= escaped_char(c) + escaped_body(rest));
        assert forall|k: int| 0 <= k < body.len() implies s[pos + k] == body[k] by {
            assert(s.subrange(pos, pos + body.len())[k] == s[pos + k]);
        }
        assert(s.subrange(pos + step, pos + step + escaped_body(rest).len()) =~= escaped_body(
            rest,
        )) by {
            assert forall|k: int| 0 <= k < escaped_body(rest).len() implies s[pos + step + k]
                == escaped_body(rest)[k] by {
                assert(body[step + k] == escaped_body(rest)[k]);
            }
        }
        lemma_unquote_escaped(s, pos + step, rest);
        assert(s[pos] == body[0]);
        if needs_escape(c) {
            assert(s[pos + 1] == body[1]);
            assert(escape_target(c) == Some(c));
        } else {
            assert(s[pos] == c);
        }
        assert(seq![c] + rest =~= text);
    }
}

/// Unquoting undoes quoting: read from its opening quote, the quoted form
/// of any text gives exactly that text, whatever follows it.
pub proof fn lemma_escape_roundtrip(text: Seq<char>, tail: Seq<char>)
    ensures
        quoted_at(escaped(text) + tail, 0) == Some((text, escaped(text).len() as int)),
{
    let s = escaped(text) + tail;
    let body = escaped_body(text);
    assert(s.subrange(1, 1 + body.len() as int) =~= body);
    lemma_unquote_escaped(s, 1, text);
}

/// Wraps `input` in double quotes, with a backslash in front of every
/// backslash, double quote, carriage return and line feed in it.
pub fn escape_command(input: &str) -> (output: String)
    ensures
        output@ == escaped(input@),
{
    let chars = chars_of(input);
    let mut output = String::new();
    push_char(&mut output, '"');
    let mut i: usize = 0;
    while i < chars.len()
        invariant
            i <= chars.len(),
            output@ == seq!['"'] + escaped_body(chars@.take(i as int)),
        decreases chars.len() - i,
    {
        let c = chars[i];
        proof {
            lemma_escaped_body_push(chars@.take(i as int), c);
            assert(chars@.take(i + 1) =~= chars@.take(i as int).push(c));
        }
        if c == '\\' || c == '"' || c == '\r' || c == '\n' {
            push_char(&mut output, '\\');
        }
        push_char(&mut output, c);
        i += 1;
        assert(output@ =~= seq!['"'] + escaped_body(chars@.take(i as int)));
    }
    assert(chars@.take(chars.len() as int) =~= chars@);
    push_char(&mut output, '"');
    assert(output@ =~= escaped(input@));
    output
}

/// Reads the quoted string that starts at `pos`, resolving its escapes.
pub fn unquote(chars: &Vec<char>, pos: usize) -> (r: Option<(String, usize)>)
    ensures
        match r {
            Some((text, end)) => quoted_at(chars@, pos as int) == Some((text@, end as int))
                && pos < end <= chars.len(),
            None => quoted_at(chars@, pos as int) is None,
        },
{
    if pos >= chars.len() || chars[pos] != '"' {
        return None;
    }
    let ghost s = chars@;
    let mut text = String::new();
    let mut i: usize = pos + 1;
    while i < chars.len()
        invariant
            pos < i <= chars.len(),
            s == chars@,
            s[pos as int] == '"',
            unquote_from(s, pos + 1) == with_prefix(text@, unquote_from(s, i as int)),
        decreases chars.len() - i,
    {
        let c = chars[i];
        if c == '"' {
            assert(text@ + Seq::<char>::empty() =~= text@);
            return Some((text, i + 1));
        }
        let ghost before = text@;
        if c == '\\' && i + 1 < chars.len() {
            let e = chars[i + 1];
            let target = if e == 'n' {
                Some('\n')
            } else if e == 'r' {
                Some('\r')
            } else if e == 't' {
                Some('\t')
            } else if e == '\\' || e == '"' || e == '\r' || e == '\n' {
                Some(e)
            } else {
                None
            };
            assert(target == escape_target(e));
            match target {
                Some(t) => {
                    push_char(&mut text, t);
                    i += 2;
                },
                None => {
                    push_char(&mut text, c);
                    i += 1;
                },
            }
        } else {
            push_char(&mut text, c);
            i += 1;
        }
        proof {
            let r = unquote_from(s, i as int);
            match r {
                Some((rest, end)) => {
                    assert(before + (seq![text@.last()] + rest) =~= text@ + rest);
                },
                None => {},
            }
        }
    }
    None
}

} // verus!
