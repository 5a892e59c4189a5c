//! Arguments of a command line: numbers separated by commas, each of which
//! may be left out.

use vstd::prelude::*;
use vstd::slice::SliceAdditionalExecFns;

verus! {

/// What reading the arguments of a command reports.
#[derive(Debug)]
pub enum ParseResult<'a> {
    /// Every argument given was read.
    Parsed,
    /// More arguments were given than the command takes.
    TooManyArguments,
    /// An argument was left out where every argument is needed.
    MissingArgument,
    /// This argument is not a positive number.
    InvalidArgument(&'a str),
}

/// The outcome of reading arguments, with the offending text as characters.
pub enum Verdict {
    Parsed,
    TooManyArguments,
    MissingArgument,
    InvalidArgument(Seq<char>),
}

impl<'a> ParseResult<'a> {
    pub open spec fn verdict(self) -> Verdict {
        match self {
            ParseResult::Parsed => Verdict::Parsed,
            ParseResult::TooManyArguments => Verdict::TooManyArguments,
            ParseResult::MissingArgument => Verdict::MissingArgument,
            ParseResult::InvalidArgument(s) => Verdict::InvalidArgument(s@),
        }
    }
}

pub open spec fn is_digit(c: char) -> bool {
    48 <= (c as u32) <= 57
}

/// The value of a run of decimal digits.
pub open spec fn digits_value(d: Seq<char>) -> nat
    decreases d.len(),
{
    if d.len() == 0 {
        0
    } else {
        digits_value(d.drop_last()) * 10 + ((d.last() as u32) - 48) as nat
    }
}

/// `p` without a leading `+`.
pub open spec fn unsigned_part(p: Seq<char>) -> Seq<char> {
    if p.len() > 0 && p[0] == '+' {
        p.drop_first()
    } else {
        p
    }
}

pub open spec fn all_digits(d: Seq<char>) -> bool {
    forall|i: int| 0 <= i < d.len() ==> is_digit(#[trigger] d[i])
}

/// The number that `p` writes as an unsigned machine integer: an optional
/// `+`, then one or more decimal digits, of a value that fits a `usize`.
pub open spec fn number_value(p: Seq<char>) -> Option<nat> {
    let d = unsigned_part(p);
    if d.len() > 0 && all_digits(d) && digits_value(d) <= usize::MAX {
        Some(digits_value(d))
    } else {
        None
    }
}

/// Reading `s` from position `i`, where the current argument started at
/// `start` and is the `k`-th: the arguments after it and the outcome. An
/// argument that is left out keeps its value in `args`.
pub open spec fn scan_args(
    s: Seq<char>,
    i: nat,
    start: nat,
    args: Seq<usize>,
    k: nat,
    mandatory: bool,
) -> (Seq<usize>, Verdict)
    decreases s.len() - i,
{
    if i > s.len() || start > i {
        (args, Verdict::Parsed)
    } else if i < s.len() && s[i as int] != ',' {
        scan_args(s, i + 1, start, args, k, mandatory)
    } else {
        let piece = s.subrange(start as int, i as int);
        let value = number_value(piece);
        if k >= args.len() {
            (args, Verdict::TooManyArguments)
        } else if piece.len() == 0 && mandatory {
            (args, Verdict::MissingArgument)
        } else if piece.len() > 0 && !(value is Some && value->0 > 0) {
            (args, Verdict::InvalidArgument(piece))
        } else {
            let a = if piece.len() == 0 {
                args
            } else {
                args.update(k as int, value->0 as usize)
            };
            if i == s.len() {
                (a, Verdict::Parsed)
            } else {
                scan_args(s, i + 1, i + 1, a, k + 1, mandatory)
            }
        }
    }
}

/// A longer run of digits is worth at least as much.
proof fn lemma_digits_value_grows(d: Seq<char>, j: int)
    requires
        0 <= j <= d.len(),
        forall|i: int| 0 <= i < d.len() ==> is_digit(#[trigger] d[i]),
    ensures
        digits_value(d.take(j)) <= digits_value(d),
    decreases d.len() - j,
{
    if j == d.len() {
        assert(d.take(j) =~= d);
    } else {
        lemma_digits_value_grows(d, j + 1);
        assert(d.take(j + 1).drop_last() =~= d.take(j));
        assert(is_digit(d[j]));
        assert(d.take(j + 1).last() == d[j]);
        let v = digits_value(d.take(j));
        assert(digits_value(d.take(j + 1)) == v * 10 + ((d[j] as u32) - 48) as nat);
        assert(v <= v * 10) by (nonlinear_arith);
    }
}

/// The value of the digits `line[from..to]`, or `None` when it exceeds
/// `usize::MAX`.
fn digits_in(line: &str, from: usize, to: usize) -> (r: Option<usize>)
    requires
        from <= to <= line@.len(),
        forall|i: int| from <= i < to ==> is_digit(#[trigger] line@[i]),
    ensures
        ({
            let d = line@.subrange(from as int, to as int);
            &&& r is Some <==> digits_value(d) <= usize::MAX
            &&& r is Some ==> r->0 == digits_value(d)
        }),
{
    let ghost d = line@.subrange(from as int, to as int);
    let mut value: usize = 0;
    let mut j: usize = from;
    while j < to
        invariant
            from <= j <= to <= line@.len(),
            d == line@.subrange(from as int, to as int),
            forall|i: int| from <= i < to ==> is_digit(#[trigger] line@[i]),
            value == digits_value(d.take(j - from)),
        decreases to - j,
    {
        let c = line.get_char(j);
        assert(d.take(j + 1 - from).drop_last() =~= d.take(j - from));
        assert(d[j - from] == c);
        let digit = (c as u32 - 48) as usize;
        if value > (usize::MAX - digit) / 10 {
            proof {
                lemma_digits_value_grows(d, j + 1 - from);
            }
            return None;
        }
        value = value * 10 + digit;
        j += 1;
    }
    assert(d.take(to - from) =~= d);
    Some(value)
}

/// The number written in `line[from..to]`, as `number_value` reads it.
fn number_in(line: &str, from: usize, to: usize) -> (r: Option<usize>)
    requires
        from <= to <= line@.len(),
    ensures
        ({
            let v = number_value(line@.subrange(from as int, to as int));
            &&& r is Some <==> v is Some
            &&& r is Some ==> r->0 == v->0
        }),
{
    let ghost p = line@.subrange(from as int, to as int);
    let mut first = from;
    if from < to && line.get_char(from) == '+' {
        first = from + 1;
    }
    let ghost d = line@.subrange(first as int, to as int);
    assert(d =~= unsigned_part(p));
    if first == to {
        return None;
    }
    let mut j: usize = first;
    while j < to
        invariant
            first <= j <= to <= line@.len(),
            d == line@.subrange(first as int, to as int),
            d == unsigned_part(p),
            p == line@.subrange(from as int, to as int),
            forall|i: int| first <= i < j ==> is_digit(#[trigger] line@[i]),
        decreases to - j,
    {
        let c = line.get_char(j);
        if !(48 <= c as u32 && c as u32 <= 57) {
            assert(d[j - first] == c);
            assert(!is_digit(d[j - first]));
            return None;
        }
        j += 1;
    }
    assert forall|i: int| 0 <= i < d.len() implies is_digit(#[trigger] d[i]) by {
        assert(d[i] == line@[first + i]);
    }
    digits_in(line, first, to)
}

/// Read the comma-separated arguments of a command from `line` into `args`,
/// in order. A positive number replaces the argument at its place; an empty
/// argument keeps it, unless `mandatory`, which then reports it missing.
/// Anything else is reported as invalid, and more arguments than `args`
/// holds as too many. Arguments read before an error stay written.
pub fn parse_arguments<'a>(line: &'a str, args: &mut [usize], mandatory: bool) -> (r: ParseResult<'a>)
    ensures
        (final(args)@, r.verdict()) == scan_args(line@, 0, 0, old(args)@, 0, mandatory),
{
    let n = line.unicode_len();
    let mut start: usize = 0;
    let mut k: usize = 0;
    let mut i: usize = 0;
    while i <= n
        invariant
            n == line@.len(),
            start <= i <= n + 1,
            k <= args@.len(),
            i <= n ==> scan_args(line@, i as nat, start as nat, args@, k as nat, mandatory)
                == scan_args(line@, 0, 0, old(args)@, 0, mandatory),
            i > n ==> scan_args(line@, 0, 0, old(args)@, 0, mandatory) == (
            args@,
            Verdict::Parsed,
            ),
        decreases n + 1 - i,
    {
        if i < n && line.get_char(i) != ',' {
            i += 1;
        } else {
            if k >= args.len() {
                return ParseResult::TooManyArguments;
            }
            if start == i {
                if mandatory {
                    return ParseResult::MissingArgument;
                }
            } else {
                let value = number_in(line, start, i);
                match value {
                    Some(v) => {
                        if v == 0 {
                            return ParseResult::InvalidArgument(line.substring_char(start, i));
                        }
                        args.set(k, v);
                    },
                    None => {
                        return ParseResult::InvalidArgument(line.substring_char(start, i));
                    },
                }
            }
            if i == n {
                return ParseResult::Parsed;
            }
            k += 1;
            i += 1;
            start = i;
        }
    }
    ParseResult::Parsed
}

} // verus!
