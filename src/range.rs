//! Compression of a list of unsigned integers into runs: each maximal run of
//! consecutive values becomes one `Range`, a lone value a `Scalar`.

use vstd::prelude::*;
use vstd::std_specs::iter::IteratorSpec;

verus! {

broadcast use vstd::string::group_string_axioms;

/// Why a piece of text is not an unsigned 64-bit number.
#[derive(Debug, PartialEq, Eq, Clone, Copy)]
pub enum ParseFailure {
    /// The piece is empty.
    Empty,
    /// The piece holds something other than an optional leading `+` and
    /// decimal digits.
    InvalidDigit,
    /// The digits stand for a number above `u64::MAX`.
    TooLarge,
}

/// Returned by `Range::new` when a piece of the input is not a number.
#[derive(Debug, PartialEq)]
pub enum RangeError {
    ParsingError(String),
}

/// One run of the compressed list.
#[derive(Debug, PartialEq)]
pub enum Ranges {
    /// The consecutive values `from..=to`, with `from < to`.
    Range { from: u64, to: u64 },
    /// A value with no neighbour in the list.
    Scalar(u64),
}

/// A list of unsigned integers, kept in ascending order.
#[derive(Debug, PartialEq)]
pub struct Range {
    numbers: Vec<u64>,
}

/// The first value of a run.
pub open spec fn run_first(r: Ranges) -> int {
    match r {
        Ranges::Range { from, to } => from as int,
        Ranges::Scalar(v) => v as int,
    }
}

/// The last value of a run.
pub open spec fn run_last(r: Ranges) -> int {
    match r {
        Ranges::Range { from, to } => to as int,
        Ranges::Scalar(v) => v as int,
    }
}

/// The values that a run stands for, in ascending order.
pub open spec fn run_values(r: Ranges) -> Seq<u64> {
    match r {
        Ranges::Range { from, to } => Seq::new(
            (to - from + 1) as nat,
            |i: int| (from + i) as u64,
        ),
        Ranges::Scalar(v) => seq![v],
    }
}

/// The values that a list of runs stands for.
pub open spec fn expand(rs: Seq<Ranges>) -> Seq<u64>
    decreases rs.len(),
{
    if rs.len() == 0 {
        Seq::empty()
    } else {
        expand(rs.drop_last()) + run_values(rs.last())
    }
}

/// Whether `rs` is the compressed form of a list: every `Range` spans at
/// least two values, and no run continues where the one before it ends.
pub open spec fn maximal_runs(rs: Seq<Ranges>) -> bool {
    &&& forall|i: int|
        0 <= i < rs.len() ==> (#[trigger] rs[i] matches Ranges::Range { from, to } ==> from < to)
    &&& forall|i: int|
        0 <= i < rs.len() - 1 ==> #[trigger] run_last(rs[i]) + 1 != run_first(rs[i + 1])
}

/// Expanding a list with one more run appends that run's values.
proof fn lemma_expand_push(rs: Seq<Ranges>, r: Ranges)
    ensures
        expand(rs.push(r)) == expand(rs) + run_values(r),
{
    assert(rs.push(r).drop_last() =~= rs);
}

/// The value of a decimal digit.
pub open spec fn digit_value(c: char) -> int {
    (c as u32) as int - ('0' as u32) as int
}

/// Whether `c` is a decimal digit.
pub open spec fn is_digit(c: char) -> bool {
    '0' <= c && c <= '9'
}

/// Reads the digits `d` from the left onto `acc`: the first character that
/// is no digit, or the first digit that takes the value past `u64::MAX`,
/// decides the failure.
pub open spec fn scan_digits(d: Seq<char>, acc: u64) -> Result<u64, ParseFailure>
    decreases d.len(),
{
    if d.len() == 0 {
        Ok(acc)
    } else if !is_digit(d[0]) {
        Err(ParseFailure::InvalidDigit)
    } else if acc * 10 + digit_value(d[0]) > u64::MAX {
        Err(ParseFailure::TooLarge)
    } else {
        scan_digits(d.drop_first(), (acc * 10 + digit_value(d[0])) as u64)
    }
}

/// A piece of text read as an unsigned decimal number with an optional
/// leading `+`.
pub open spec fn parse_decimal(p: Seq<char>) -> Result<u64, ParseFailure> {
    if p.len() == 0 {
        Err(ParseFailure::Empty)
    } else if p[0] == '+' {
        if p.len() == 1 {
            Err(ParseFailure::InvalidDigit)
        } else {
            scan_digits(p.drop_first(), 0)
        }
    } else {
        scan_digits(p, 0)
    }
}

/// The pieces of `s` between commas; text without a comma is one piece.
pub open spec fn split_commas(s: Seq<char>) -> Seq<Seq<char>>
    decreases s.len(),
{
    if s.len() == 0 {
        seq![Seq::empty()]
    } else {
        let init = split_commas(s.drop_last());
        if s.last() == ',' {
            init.push(Seq::empty())
        } else {
            init.update(init.len() - 1, init.last().push(s.last()))
        }
    }
}

/// The numbers of all pieces, or the first piece that is not one, with the
/// reason.
pub open spec fn parse_pieces(ps: Seq<Seq<char>>) -> Result<Seq<u64>, (Seq<char>, ParseFailure)>
    decreases ps.len(),
{
    if ps.len() == 0 {
        Ok(Seq::empty())
    } else {
        match parse_pieces(ps.drop_last()) {
            Err(e) => Err(e),
            Ok(vs) => match parse_decimal(ps.last()) {
                Ok(v) => Ok(vs.push(v)),
                Err(k) => Err((ps.last(), k)),
            },
        }
    }
}

/// The words that describe a failure.
pub open spec fn failure_words(k: ParseFailure) -> Seq<char> {
    match k {
        ParseFailure::Empty => "cannot parse integer from empty string"@,
        ParseFailure::InvalidDigit => "invalid digit found in string"@,
        ParseFailure::TooLarge => "number too large to fit in target type"@,
    }
}

/// The message of the error for a piece that is not a number.
pub open spec fn error_text(piece: Seq<char>, k: ParseFailure) -> Seq<char> {
    "Failed to parse '"@ + piece + "': "@ + failure_words(k)
}

/// Whether `s` is in ascending order.
pub open spec fn ascending(s: Seq<u64>) -> bool {
    forall|i: int, j: int| 0 <= i < j < s.len() ==> s[i] <= s[j]
}

/// Relies on `slice::sort`: afterwards the numbers are in ascending order
/// and are the same numbers as before.
#[verifier::external_body]
fn sort_ascending(v: &mut Vec<u64>)
    ensures
        final(v)@.to_multiset() == old(v)@.to_multiset(),
        ascending(final(v)@),
{
    v.sort();
}

/// The characters of `s`, in order.
pub(crate) fn chars_of(s: &str) -> (r: Vec<char>)
    ensures
        r@ == s@,
{
    let mut it = s.chars();
    let mut out: Vec<char> = Vec::new();
    loop
        invariant
            out@ + it.remaining() == s@,
            it.decrease() is Some,
        ensures
            out@ == s@,
        decreases it.decrease()->0,
    {
        match it.next() {
            Some(c) => {
                out.push(c);
            },
            None => {
                assert(out@ =~= s@);
                break ;
            },
        }
    }
    out
}

/// The characters `chars[a..b]` read as a number.
fn parse_piece(chars: &Vec<char>, a: usize, b: usize) -> (r: Result<u64, ParseFailure>)
    requires
        a <= b <= chars@.len(),
    ensures
        r == parse_decimal(chars@.subrange(a as int, b as int)),
{
    let ghost p = chars@.subrange(a as int, b as int);
    if a == b {
        return Err(ParseFailure::Empty);
    }
    let mut j: usize = a;
    if chars[a] == '+' {
        if b - a == 1 {
            return Err(ParseFailure::InvalidDigit);
        }
        j = a + 1;
        assert(p.drop_first() =~= chars@.subrange(j as int, b as int));
    } else {
        assert(p =~= chars@.subrange(j as int, b as int));
    }
    let mut acc: u64 = 0;
    while j < b
        invariant
            a < j <= b <= chars@.len() || (a == j && j < b && chars@[a as int] != '+'),
            b <= chars@.len(),
            p == chars@.subrange(a as int, b as int),
            scan_digits(chars@.subrange(j as int, b as int), acc) == parse_decimal(p),
        decreases b - j,
    {
        let ghost d = chars@.subrange(j as int, b as int);
        assert(d[0] == chars@[j as int]);
        assert(d.drop_first() =~= chars@.subrange(j + 1, b as int));
        let c = chars[j];
        if !('0' <= c && c <= '9') {
            assert(!is_digit(d[0]));
            assert(scan_digits(d, acc) == Err::<u64, ParseFailure>(ParseFailure::InvalidDigit));
            return Err(ParseFailure::InvalidDigit);
        }
        let dg = (c as u32 - '0' as u32) as u64;
        assert(dg == digit_value(d[0]));
        match acc.checked_mul(10) {
            None => {
                assert(acc * 10 + dg > u64::MAX);
                assert(scan_digits(d, acc) == Err::<u64, ParseFailure>(ParseFailure::TooLarge));
                return Err(ParseFailure::TooLarge);
            },
            Some(m) => match m.checked_add(dg) {
                None => {
                    assert(scan_digits(d, acc) == Err::<u64, ParseFailure>(ParseFailure::TooLarge));
                    return Err(ParseFailure::TooLarge);
                },
                Some(x) => {
                    acc = x;
                },
            },
        }
        j = j + 1;
    }
    assert(chars@.subrange(j as int, b as int).len() == 0);
    Ok(acc)
}

/// The words that describe a failure, as text.
fn failure_message(k: ParseFailure) -> (r: &'static str)
    ensures
        r@ == failure_words(k),
{
    match k {
        ParseFailure::Empty => "cannot parse integer from empty string",
        ParseFailure::InvalidDigit => "invalid digit found in string",
        ParseFailure::TooLarge => "number too large to fit in target type",
    }
}

impl View for Range {
    type V = Seq<u64>;

    /// The numbers, in ascending order.
    closed spec fn view(&self) -> Seq<u64> {
        self.numbers@
    }
}

impl RangeError {
    /// The message of the error.
    pub fn to_string(&self) -> (r: String)
        ensures
            self matches RangeError::ParsingError(m) && r@ == m@,
    {
        match self {
            RangeError::ParsingError(m) => m.clone(),
        }
    }
}

impl Range {
    /// The numbers of the comma-separated `input`, in ascending order; the
    /// first piece that is not an unsigned 64-bit number gives the error.
    pub fn new(input: &str) -> (r: Result<Self, RangeError>)
        ensures
            match parse_pieces(split_commas(input@)) {
                Ok(vs) => r matches Ok(range) && range@.to_multiset() == vs.to_multiset()
                    && ascending(range@),
                Err((piece, k)) => r matches Err(RangeError::ParsingError(m)) && m@ == error_text(
                    piece,
                    k,
                ),
            },
    {
        let chars = chars_of(input);
        let n = chars.len();
        let mut numbers: Vec<u64> = Vec::new();
        let mut failure: Option<(usize, usize, ParseFailure)> = None;
        let mut start: usize = 0;
        let mut i: usize = 0;
        let ghost mut done: Seq<Seq<char>> = Seq::empty();
        proof {
            assert(chars@.subrange(0, 0) =~= Seq::<char>::empty());
            assert(split_commas(Seq::<char>::empty()) =~= done.push(Seq::empty()));
        }
        while i < n
            invariant
                n == chars@.len(),
                chars@ == input@,
                start <= i <= n,
                split_commas(chars@.subrange(0, i as int)) == done.push(
                    chars@.subrange(start as int, i as int),
                ),
                match failure {
                    None => parse_pieces(done) == Ok::<Seq<u64>, (Seq<char>, ParseFailure)>(
                        numbers@,
                    ),
                    Some((a, b, k)) => a <= b <= n && parse_pieces(done) == Err::<
                        Seq<u64>,
                        (Seq<char>, ParseFailure),
                    >((chars@.subrange(a as int, b as int), k)),
                },
            decreases n - i,
        {
            let ghost piece = chars@.subrange(start as int, i as int);
            proof {
                let t = chars@.subrange(0, i + 1);
                assert(t.drop_last() =~= chars@.subrange(0, i as int));
                assert(t.last() == chars@[i as int]);
                assert(piece.push(chars@[i as int]) =~= chars@.subrange(start as int, i + 1));
                assert(done.push(piece).drop_last() =~= done);
            }
            if chars[i] == ',' {
                if failure.is_none() {
                    match parse_piece(&chars, start, i) {
                        Ok(v) => {
                            numbers.push(v);
                        },
                        Err(k) => {
                            failure = Some((start, i, k));
                        },
                    }
                }
                proof {
                    done = done.push(piece);
                }
                start = i + 1;
                proof {
                    assert(chars@.subrange(start as int, start as int) =~= Seq::<char>::empty());
                }
            } else {
                proof {
                    assert(done.push(piece).update(done.len() as int, piece.push(chars@[i as int]))
                        =~= done.push(chars@.subrange(start as int, i + 1)));
                }
            }
            i = i + 1;
        }
        let ghost last_piece = chars@.subrange(start as int, n as int);
        let ghost pieces = done.push(last_piece);
        proof {
            assert(chars@.subrange(0, n as int) =~= chars@);
            assert(pieces.drop_last() =~= done);
        }
        if failure.is_none() {
            match parse_piece(&chars, start, n) {
                Ok(v) => {
                    numbers.push(v);
                },
                Err(k) => {
                    failure = Some((start, n, k));
                },
            }
        }
        match failure {
            Some((a, b, k)) => {
                let mut message = String::from_str("Failed to parse '");
                message.append(input.substring_char(a, b));
                message.append("': ");
                message.append(failure_message(k));
                Err(RangeError::ParsingError(message))
            },
            None => {
                sort_ascending(&mut numbers);
                Ok(Range { numbers })
            },
        }
    }

    /// The list in runs: the runs stand for exactly the numbers, in order,
    /// and each run is as long as it can be.
    pub fn get_range(&self) -> (r: Vec<Ranges>)
        ensures
            expand(r@) == self@,
            maximal_runs(r@),
    {
        let mut result: Vec<Ranges> = Vec::new();
        let n = self.numbers.len();
        let mut k: usize = 0;
        while k < n
            invariant
                n == self.numbers@.len(),
                k <= n,
                expand(result@) == self.numbers@.subrange(0, k as int),
                maximal_runs(result@),
                (result@.len() == 0) == (k == 0),
                k > 0 ==> run_last(result@.last()) == self.numbers@[k - 1] as int,
            decreases n - k,
        {
            let num = self.numbers[k];
            let ghost before = result@;
            proof {
                assert(self.numbers@.subrange(0, k + 1) =~= self.numbers@.subrange(0, k as int).push(num));
            }
            if result.len() == 0 {
                result.push(Ranges::Scalar(num));
                proof {
                    lemma_expand_push(before, Ranges::Scalar(num));
                }
            } else {
                let last = result.pop().unwrap();
                let ghost rest = result@;
                proof {
                    assert(before =~= rest.push(last));
                    lemma_expand_push(rest, last);
                }
                match last {
                    Ranges::Scalar(last_num) => {
                        if last_num < num && num - last_num == 1 {
                            let run = Ranges::Range { from: last_num, to: num };
                            result.push(run);
                            proof {
                                lemma_expand_push(rest, run);
                                assert(run_values(run) =~= seq![last_num].push(num));
                            }
                        } else {
                            result.push(Ranges::Scalar(last_num));
                            result.push(Ranges::Scalar(num));
                            proof {
                                lemma_expand_push(before, Ranges::Scalar(num));
                            }
                        }
                    },
                    Ranges::Range { from, to } => {
                        if to < num && num - to == 1 {
                            let run = Ranges::Range { from, to: num };
                            result.push(run);
                            proof {
                                lemma_expand_push(rest, run);
                                assert(run_values(run) =~= run_values(last).push(num));
                            }
                        } else {
                            result.push(Ranges::Range { from, to });
                            result.push(Ranges::Scalar(num));
                            proof {
                                lemma_expand_push(before, Ranges::Scalar(num));
                            }
                        }
                    },
                }
            }
            k = k + 1;
        }
        proof {
            assert(self.numbers@.subrange(0, n as int) =~= self.numbers@);
        }
        result
    }
}

} // verus!
