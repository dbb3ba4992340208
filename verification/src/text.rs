//! Characters, strings and numerals: the small vocabulary that the wire
//! format is written in.

use vstd::prelude::*;

verus! {

/// Appends `c` to `s` by `String::push`. That the string afterwards is
/// the string before with `c` as its last character is what the
/// standard library documents of `String::push`; it is not proved here.
#[verifier::external_body]
pub(crate) fn push_char(s: &mut String, c: char)
    ensures
        final(s)@ == old(s)@.push(c),
{
    s.push(c);
}

/// The characters of a string slice, in order.
pub fn chars_of(s: &str) -> (out: Vec<char>)
    ensures
        out@ == s@,
{
    let mut out: Vec<char> = Vec::new();
    for c in it: s.chars()
        invariant
            it.seq() == s@,
            out@ == it.seq().take(it.index() as int),
    {
        out.push(c);
        assert(it.seq().take(it.index() + 1) =~= it.seq().take(it.index() as int).push(c));
    }
    assert(out@ =~= s@);
    out
}

/// The string made of `chars[from..to]`.
pub fn string_of(chars: &Vec<char>, from: usize, to: usize) -> (out: String)
    requires
        from <= to <= chars.len(),
    ensures
        out@ == chars@.subrange(from as int, to as int),
{
    let mut out = String::new();
    let mut i: usize = from;
    while i < to
        invariant
            from <= i <= to <= chars.len(),
            out@ == chars@.subrange(from as int, i as int),
        decreases to - i,
    {
        push_char(&mut out, chars[i]);
        i += 1;
        assert(chars@.subrange(from as int, i as int) =~= chars@.subrange(
            from as int,
            i - 1,
        ).push(chars@[i - 1]));
    }
    out
}

/// The character that stands for the digit `d` in bases up to sixteen:
/// `0` to `9`, then lower-case `a` to `f`.
pub open spec fn digit_char(d: nat) -> char {
    if d < 10 {
        ((48 + d) as u8) as char
    } else {
        ((87 + d) as u8) as char
    }
}

/// The decimal numeral of `n`, without sign or leading zeros.
pub open spec fn decimal(n: nat) -> Seq<char>
    decreases n,
{
    if n < 10 {
        seq![digit_char(n)]
    } else {
        decimal(n / 10).push(digit_char(n % 10))
    }
}

/// The lower-case hexadecimal numeral of `n`, without prefix or leading
/// zeros.
pub open spec fn hexadecimal(n: nat) -> Seq<char>
    decreases n,
{
    if n < 16 {
        seq![digit_char(n)]
    } else {
        hexadecimal(n / 16).push(digit_char(n % 16))
    }
}

/// The numeral of `n` in base ten, or in base sixteen when `hex` is set.
pub open spec fn numeral(n: nat, hex: bool) -> Seq<char> {
    if hex {
        hexadecimal(n)
    } else {
        decimal(n)
    }
}

fn digit_of(d: u8) -> (c: char)
    requires
        d < 16,
    ensures
        c == digit_char(d as nat),
{
    if d < 10 {
        (48 + d) as char
    } else {
        (87 + d) as char
    }
}

/// Appends the numeral of `n` to `out`.
pub fn push_numeral(out: &mut String, n: u64, hex: bool)
    ensures
        final(out)@ == old(out)@ + numeral(n as nat, hex),
{
    let base: u64 = if hex { 16 } else { 10 };
    let mut low: Vec<char> = Vec::new();
    let mut rest: u64 = n;
    while rest >= base
        invariant
            base == (if hex { 16u64 } else { 10u64 }),
            numeral(n as nat, hex) == numeral(rest as nat, hex) + low@.reverse(),
        decreases rest,
    {
        let d = digit_of((rest % base) as u8);
        proof {
            let next = (rest / base) as nat;
            assert(numeral(rest as nat, hex) == numeral(next, hex).push(d));
            assert(numeral(next, hex).push(d) + low@.reverse() =~= numeral(next, hex)
                + low@.push(d).reverse());
        }
        low.push(d);
        rest = rest / base;
    }
    let d = digit_of(rest as u8);
    low.push(d);
    assert(numeral(n as nat, hex) =~= low@.reverse());
    let mut i: usize = low.len();
    while i > 0
        invariant
            i <= low.len(),
            out@ == old(out)@ + low@.reverse().take(low.len() - i),
        decreases i,
    {
        i -= 1;
        push_char(out, low[i]);
        assert(low@.reverse().take(low.len() - i) =~= low@.reverse().take(
            low.len() - i - 1,
        ).push(low@[i as int]));
    }
    assert(low@.reverse().take(low.len() as int) =~= low@.reverse());
}

/// Whether `c` is one of the ten decimal digits.
pub open spec fn is_digit(c: char) -> bool {
    '0' <= c <= '9'
}

/// The value of a decimal digit.
pub open spec fn digit_value(c: char) -> nat {
    (c as u32 - 48) as nat
}

/// The number that a sequence of decimal digits denotes; the empty
/// sequence denotes zero.
pub open spec fn decimal_value(s: Seq<char>) -> nat
    decreases s.len(),
{
    if s.len() == 0 {
        0
    } else {
        decimal_value(s.drop_last()) * 10 + digit_value(s.last())
    }
}

/// The end of the longest run of decimal digits that starts at `from`.
pub open spec fn digit_run(s: Seq<char>, from: int) -> int
    decreases s.len() - from,
{
    if 0 <= from < s.len() && is_digit(s[from]) {
        digit_run(s, from + 1)
    } else {
        from
    }
}

/// Why a piece of text is not an unsigned number.
#[derive(Clone, Copy, PartialEq, Eq, Debug, Structural)]
pub enum NumberError {
    /// There is no text at all.
    Empty,
    /// Some character is not a decimal digit, or a sign stands alone.
    InvalidDigit,
    /// The digits denote a number above the largest one allowed.
    Overflow,
}

/// What `s` denotes as an unsigned number no larger than `max`.
///
/// A single leading `+` is allowed. Reading from the left, the first
/// thing that goes wrong decides the error: digits that already exceed
/// `max` report `Overflow` even if a bad character follows them.
pub open spec fn unsigned_of(s: Seq<char>, max: nat) -> Result<nat, NumberError> {
    if s.len() == 0 {
        Err(NumberError::Empty)
    } else {
        let body = if s[0] == '+' {
            s.drop_first()
        } else {
            s
        };
        let run = body.take(digit_run(body, 0));
        if body.len() == 0 {
            Err(NumberError::InvalidDigit)
        } else if decimal_value(run) > max {
            Err(NumberError::Overflow)
        } else if run.len() < body.len() {
            Err(NumberError::InvalidDigit)
        } else {
            Ok(decimal_value(body))
        }
    }
}

/// `digit_run` stops exactly at the first character that is no digit.
pub proof fn lemma_digit_run(s: Seq<char>, from: int)
    requires
        0 <= from <= s.len(),
    ensures
        from <= digit_run(s, from) <= s.len(),
        forall|j: int| from <= j < digit_run(s, from) ==> is_digit(#[trigger] s[j]),
        digit_run(s, from) < s.len() ==> !is_digit(s[digit_run(s, from)]),
    decreases s.len() - from,
{
    if from < s.len() && is_digit(s[from]) {
        lemma_digit_run(s, from + 1);
    }
}

/// A longer prefix of a digit sequence never denotes a smaller number.
pub proof fn lemma_decimal_value_prefix(s: Seq<char>, a: int, b: int)
    requires
        0 <= a <= b <= s.len(),
    ensures
        decimal_value(s.take(a)) <= decimal_value(s.take(b)),
    decreases b - a,
{
    if a < b {
        lemma_decimal_value_prefix(s, a, b - 1);
        assert(s.take(b).drop_last() =~= s.take(b - 1));
    }
}

/// The decimal numeral of `n` is a non-empty run of digits that denotes `n`.
pub proof fn lemma_decimal_denotes(n: nat)
    ensures
        decimal(n).len() >= 1,
        forall|j: int| 0 <= j < decimal(n).len() ==> is_digit(#[trigger] decimal(n)[j]),
        decimal_value(decimal(n)) == n,
    decreases n,
{
    let last = if n < 10 {
        n
    } else {
        n % 10
    };
    assert(digit_char(last) as u32 == 48 + last);
    assert(decimal(n).last() == digit_char(last));
    if n < 10 {
        assert(decimal(n).drop_last() =~= Seq::<char>::empty());
        assert(decimal_value(Seq::<char>::empty()) == 0);
    } else {
        lemma_decimal_denotes(n / 10);
        assert(decimal(n).drop_last() =~= decimal(n / 10));
    }
}

/// Reading back the decimal numeral of a number gives that number.
pub proof fn lemma_unsigned_of_decimal(n: nat, max: nat)
    requires
        n <= max,
    ensures
        unsigned_of(decimal(n), max) == Ok::<nat, NumberError>(n),
{
    let s = decimal(n);
    lemma_decimal_denotes(n);
    lemma_digit_run(s, 0);
    assert(is_digit(s[0]));
    assert(s.take(s.len() as int) =~= s);
}

/// Reads `chars[from..to]` as an unsigned number no larger than `max`.
pub fn parse_unsigned(chars: &Vec<char>, from: usize, to: usize, max: u64) -> (r: Result<
    u64,
    NumberError,
>)
    requires
        from <= to <= chars.len(),
    ensures
        match r {
            Ok(v) => unsigned_of(chars@.subrange(from as int, to as int), max as nat) == Ok::<
                nat,
                NumberError,
            >(v as nat),
            Err(e) => unsigned_of(chars@.subrange(from as int, to as int), max as nat) == Err::<
                nat,
                NumberError,
            >(e),
        },
{
    let ghost s = chars@.subrange(from as int, to as int);
    if from == to {
        return Err(NumberError::Empty);
    }
    let start: usize = if chars[from] == '+' {
        from + 1
    } else {
        from
    };
    let ghost body = chars@.subrange(start as int, to as int);
    assert(body =~= if s[0] == '+' {
        s.drop_first()
    } else {
        s
    });
    if start == to {
        return Err(NumberError::InvalidDigit);
    }
    let mut value: u64 = 0;
    let mut i: usize = start;
    while i < to
        invariant
            from <= start <= i <= to <= chars.len(),
            start < to,
            s == chars@.subrange(from as int, to as int),
            body == chars@.subrange(start as int, to as int),
            body == (if s[0] == '+' {
                s.drop_first()
            } else {
                s
            }),
            forall|j: int| 0 <= j < i - start ==> is_digit(#[trigger] body[j]),
            value == decimal_value(body.take(i - start)),
            value <= max,
        decreases to - i,
    {
        let c = chars[i];
        proof {
            assert(body[i - start] == c);
            lemma_digit_run(body, 0);
            assert(body.take(i - start + 1).drop_last() =~= body.take(i - start));
        }
        if !(c >= '0' && c <= '9') {
            assert(!is_digit(body[i - start]));
            assert(digit_run(body, 0) == i - start);
            return Err(NumberError::InvalidDigit);
        }
        assert(is_digit(body[i - start]));
        let d: u64 = (c as u32 - 48) as u64;
        let wide: u128 = (value as u128) * 10 + (d as u128);
        if wide > max as u128 {
            proof {
                assert(digit_run(body, 0) >= i - start + 1);
                lemma_decimal_value_prefix(body, i - start + 1, digit_run(body, 0));
            }
            return Err(NumberError::Overflow);
        }
        value = wide as u64;
        i += 1;
    }
    proof {
        lemma_digit_run(body, 0);
        assert(body.take(body.len() as int) =~= body);
    }
    Ok(value)
}

impl NumberError {
    /// The words that describe this error.
    pub open spec fn message(self) -> Seq<char> {
        match self {
            NumberError::Empty => "cannot parse integer from empty string"@,
            NumberError::InvalidDigit => "invalid digit found in string"@,
            NumberError::Overflow => "number too large to fit in target type"@,
        }
    }

    /// The words that describe this error, as an owned string.
    pub fn description(&self) -> (s: String)
        ensures
            s@ == self.message(),
    {
        match self {
            NumberError::Empty => "cannot parse integer from empty string".to_owned(),
            NumberError::InvalidDigit => "invalid digit found in string".to_owned(),
            NumberError::Overflow => "number too large to fit in target type".to_owned(),
        }
    }
}

/// The first position at or after `from` that holds `c`, or the end of
/// `s` if there is none.
pub open spec fn find_char(s: Seq<char>, c: char, from: int) -> int
    decreases s.len() - from,
{
    if 0 <= from < s.len() && s[from] != c {
        find_char(s, c, from + 1)
    } else {
        from
    }
}

/// `find_char` stops exactly at the first occurrence of `c`.
pub proof fn lemma_find_char(s: Seq<char>, c: char, from: int)
    requires
        0 <= from <= s.len(),
    ensures
        from <= find_char(s, c, from) <= s.len(),
        forall|j: int| from <= j < find_char(s, c, from) ==> #[trigger] s[j] != c,
        find_char(s, c, from) < s.len() ==> s[find_char(s, c, from)] == c,
    decreases s.len() - from,
{
    if from < s.len() && s[from] != c {
        lemma_find_char(s, c, from + 1);
    }
}

/// The first position at or after `from` that holds `c`, or the length
/// of `chars` if there is none.
pub fn find_from(chars: &Vec<char>, c: char, from: usize) -> (i: usize)
    requires
        from <= chars.len(),
    ensures
        i == find_char(chars@, c, from as int),
        from <= i <= chars.len(),
{
    let mut i: usize = from;
    while i < chars.len() && chars[i] != c
        invariant
            from <= i <= chars.len(),
            find_char(chars@, c, from as int) == find_char(chars@, c, i as int),
        decreases chars.len() - i,
    {
        i += 1;
    }
    i
}

/// The first occurrence of `c` from `from` on is where nothing before
/// it is `c` and it either is `c` or is the end.
pub proof fn lemma_find_char_unique(s: Seq<char>, c: char, from: int, k: int)
    requires
        0 <= from <= k <= s.len(),
        forall|j: int| from <= j < k ==> #[trigger] s[j] != c,
        k == s.len() || s[k] == c,
    ensures
        find_char(s, c, from) == k,
    decreases k - from,
{
    if from < k {
        lemma_find_char_unique(s, c, from + 1, k);
    }
}

/// The end of the longest run of decimal digits that starts at `from`.
pub fn scan_digits(chars: &Vec<char>, from: usize) -> (end: usize)
    requires
        from <= chars.len(),
    ensures
        end == digit_run(chars@, from as int),
        from <= end <= chars.len(),
{
    let mut i: usize = from;
    while i < chars.len() && chars[i] >= '0' && chars[i] <= '9'
        invariant
            from <= i <= chars.len(),
            digit_run(chars@, from as int) == digit_run(chars@, i as int),
        decreases chars.len() - i,
    {
        i += 1;
    }
    i
}

/// Whether `chars[from..to]` spells `word`.
pub fn range_is(chars: &Vec<char>, from: usize, to: usize, word: &str) -> (same: bool)
    requires
        from <= to <= chars.len(),
    ensures
        same == (chars@.subrange(from as int, to as int) == word@),
{
    let wanted = chars_of(word);
    if wanted.len() != to - from {
        return false;
    }
    let mut i: usize = 0;
    while i < wanted.len()
        invariant
            i <= wanted.len(),
            wanted.len() == to - from,
            from <= to <= chars.len(),
            wanted@ == word@,
            forall|j: int| 0 <= j < i ==> chars@[from + j] == wanted@[j],
        decreases wanted.len() - i,
    {
        if chars[from + i] != wanted[i] {
            assert(chars@.subrange(from as int, to as int)[i as int] != word@[i as int]);
            return false;
        }
        i += 1;
    }
    assert(chars@.subrange(from as int, to as int) =~= word@);
    true
}

} // verus!
