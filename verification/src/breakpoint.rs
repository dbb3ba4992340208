//! Breakpoint identifiers: a major index, and for a sub-breakpoint a
//! minor index, written `N` or `N.M`.

use crate::text::{
    chars_of, decimal, find_char, find_from, lemma_decimal_denotes, lemma_find_char,
    lemma_unsigned_of_decimal, parse_unsigned, push_char, push_numeral, unsigned_of, NumberError,
};
use std::cmp::Ordering;
use vstd::prelude::*;
use vstd::std_specs::cmp::PartialOrdSpecImpl;

verus! {

/// The identifier of a breakpoint, or of one location of a breakpoint
/// that has several.
#[derive(Copy, Clone, Hash, PartialEq, Eq, Ord, Debug, Structural)]
pub struct BreakPointNumber {
    pub major: usize,
    pub minor: Option<usize>,
}

/// What `s` denotes as a breakpoint identifier.
///
/// Text without a dot is a major index alone. Otherwise the first dot
/// separates the major index from the minor one. Each index is an
/// unsigned number that fits in `usize`.
pub open spec fn breakpoint_of(s: Seq<char>) -> Result<BreakPointNumber, NumberError> {
    let dot = find_char(s, '.', 0);
    if dot < s.len() {
        match unsigned_of(s.take(dot), usize::MAX as nat) {
            Err(e) => Err(e),
            Ok(major) => match unsigned_of(s.skip(dot + 1), usize::MAX as nat) {
                Err(e) => Err(e),
                Ok(minor) => Ok(
                    BreakPointNumber { major: major as usize, minor: Some(minor as usize) },
                ),
            },
        }
    } else {
        match unsigned_of(s, usize::MAX as nat) {
            Err(e) => Err(e),
            Ok(major) => Ok(BreakPointNumber { major: major as usize, minor: None }),
        }
    }
}

impl BreakPointNumber {
    /// The textual form: the major index, then for a sub-breakpoint a dot
    /// and the minor index.
    pub open spec fn text(self) -> Seq<char> {
        match self.minor {
            Some(minor) => decimal(self.major as nat) + seq!['.'] + decimal(minor as nat),
            None => decimal(self.major as nat),
        }
    }

    /// Whether `self` comes strictly before `other`: by major index
    /// first, then by minor index, where no minor index comes before any.
    pub open spec fn precedes(self, other: BreakPointNumber) -> bool {
        self.major < other.major || (self.major == other.major && match (
            self.minor,
            other.minor,
        ) {
            (None, None) => false,
            (None, Some(_)) => true,
            (Some(_), None) => false,
            (Some(a), Some(b)) => a < b,
        })
    }

    /// Reads an identifier from its textual form. Malformed text gives
    /// the description of what is wrong with the first index that cannot
    /// be read.
    pub fn from_str(s: &str) -> (r: Result<BreakPointNumber, String>)
        ensures
            match r {
                Ok(n) => breakpoint_of(s@) == Ok::<BreakPointNumber, NumberError>(n),
                Err(msg) => breakpoint_of(s@) is Err && msg@ == breakpoint_of(
                    s@,
                )->Err_0.message(),
            },
    {
        let chars = chars_of(s);
        let len = chars.len();
        let dot = find_from(&chars, '.', 0);
        proof {
            assert(chars@.subrange(0, dot as int) =~= s@.take(dot as int));
            assert(chars@.subrange(0, len as int) =~= s@);
            if dot < len {
                assert(chars@.subrange(dot + 1, len as int) =~= s@.skip(dot + 1));
            }
        }
        let major = match parse_unsigned(&chars, 0, dot, usize::MAX as u64) {
            Ok(v) => v as usize,
            Err(e) => {
                return Err(e.description());
            },
        };
        if dot < len {
            match parse_unsigned(&chars, dot + 1, len, usize::MAX as u64) {
                Ok(v) => Ok(BreakPointNumber { major, minor: Some(v as usize) }),
                Err(e) => Err(e.description()),
            }
        } else {
            Ok(BreakPointNumber { major, minor: None })
        }
    }

    /// Writes the identifier in its textual form.
    pub fn to_string(&self) -> (s: String)
        ensures
            s@ == self.text(),
    {
        let mut s = String::new();
        push_numeral(&mut s, self.major as u64, false);
        match self.minor {
            Some(minor) => {
                push_char(&mut s, '.');
                push_numeral(&mut s, minor as u64, false);
            },
            None => {},
        }
        assert(s@ =~= self.text());
        s
    }
}

impl std::str::FromStr for BreakPointNumber {
    type Err = String;

    /// Reads an identifier from its textual form, as the method of the
    /// same name on the type does: `str::parse` comes here.
    fn from_str(s: &str) -> (r: Result<BreakPointNumber, String>)
        ensures
            match r {
                Ok(n) => breakpoint_of(s@) == Ok::<BreakPointNumber, NumberError>(n),
                Err(msg) => breakpoint_of(s@) is Err && msg@ == breakpoint_of(
                    s@,
                )->Err_0.message(),
            },
    {
        BreakPointNumber::from_str(s)
    }
}

impl PartialOrd for BreakPointNumber {
    fn partial_cmp(&self, other: &BreakPointNumber) -> (r: Option<Ordering>) {
        if self.major < other.major {
            Some(Ordering::Less)
        } else if self.major > other.major {
            Some(Ordering::Greater)
        } else {
            match (self.minor, other.minor) {
                (None, None) => Some(Ordering::Equal),
                (None, Some(_)) => Some(Ordering::Less),
                (Some(_), None) => Some(Ordering::Greater),
                (Some(a), Some(b)) => if a < b {
                    Some(Ordering::Less)
                } else if a > b {
                    Some(Ordering::Greater)
                } else {
                    Some(Ordering::Equal)
                },
            }
        }
    }
}

impl PartialOrdSpecImpl for BreakPointNumber {
    open spec fn obeys_partial_cmp_spec() -> bool {
        true
    }

    open spec fn partial_cmp_spec(&self, other: &BreakPointNumber) -> Option<Ordering> {
        if self.precedes(*other) {
            Some(Ordering::Less)
        } else if other.precedes(*self) {
            Some(Ordering::Greater)
        } else {
            Some(Ordering::Equal)
        }
    }
}

/// The order of identifiers is a strict total order: of two identifiers
/// exactly one comes first unless they are equal, and coming first carries
/// over a chain of three.
pub proof fn lemma_precedes_total_order(a: BreakPointNumber, b: BreakPointNumber, c: BreakPointNumber)
    ensures
        !a.precedes(a),
        a.precedes(b) || b.precedes(a) || a == b,
        !(a.precedes(b) && b.precedes(a)),
        a.precedes(b) && b.precedes(c) ==> a.precedes(c),
{
}

/// Reading back the textual form of an identifier gives that identifier.
pub proof fn lemma_breakpoint_roundtrip(n: BreakPointNumber)
    ensures
        breakpoint_of(n.text()) == Ok::<BreakPointNumber, NumberError>(n),
{
    let s = n.text();
    let major = decimal(n.major as nat);
    lemma_decimal_denotes(n.major as nat);
    lemma_unsigned_of_decimal(n.major as nat, usize::MAX as nat);
    lemma_find_char(s, '.', 0);
    match n.minor {
        Some(m) => {
            let minor = decimal(m as nat);
            lemma_decimal_denotes(m as nat);
            lemma_unsigned_of_decimal(m as nat, usize::MAX as nat);
            assert(s[major.len() as int] == '.');
            assert forall|j: int| 0 <= j < major.len() implies s[j] != '.' by {
                assert(s[j] == major[j]);
            }
            assert(find_char(s, '.', 0) == major.len());
            assert(s.take(major.len() as int) =~= major);
            assert(s.skip(major.len() as int + 1) =~= minor);
        },
        None => {
            assert forall|j: int| 0 <= j < s.len() implies s[j] != '.' by {
                assert(s[j] == major[j]);
            }
        },
    }
}

} // verus!
