//! Checking a list of numbers already produced, one line at a time: each line
//! is trimmed and read as a decimal number, and every number that fails the
//! Baillie-PSW test, and every line that is no number, is kept for the
//! report.

use vstd::prelude::*;
use crate::lucas::{bpsw_accepts, is_bpsw_prime_check};

verus! {

/// ASCII white space: space, tab, line feed, vertical tab, form feed and
/// carriage return.
pub open spec fn is_space(b: u8) -> bool {
    b == 32 || (9 <= b && b <= 13)
}

/// `s` without its leading white space.
pub open spec fn trim_start(s: Seq<u8>) -> Seq<u8>
    decreases s.len(),
{
    if s.len() > 0 && is_space(s[0]) {
        trim_start(s.drop_first())
    } else {
        s
    }
}

/// `s` without its trailing white space.
pub open spec fn trim_end(s: Seq<u8>) -> Seq<u8>
    decreases s.len(),
{
    if s.len() > 0 && is_space(s.last()) {
        trim_end(s.drop_last())
    } else {
        s
    }
}

/// `s` without white space at either end.
pub open spec fn trim(s: Seq<u8>) -> Seq<u8> {
    trim_end(trim_start(s))
}

/// Every byte of `s` is an ASCII digit.
pub open spec fn all_digits(s: Seq<u8>) -> bool {
    forall|i: int| 0 <= i < s.len() ==> 48 <= #[trigger] s[i] <= 57
}

/// The number that the decimal digits `s` spell.
pub open spec fn digits_value(s: Seq<u8>) -> nat
    decreases s.len(),
{
    if s.len() == 0 {
        0
    } else {
        digits_value(s.drop_last()) * 10 + (s.last() - 48) as nat
    }
}

/// `t` read as an unsigned 64-bit decimal number: an optional `+`, then one
/// or more digits, with a value that fits.
pub open spec fn parse_u64(t: Seq<u8>) -> Option<u64> {
    let d = if t.len() > 0 && t[0] == 43 {
        t.drop_first()
    } else {
        t
    };
    if d.len() > 0 && all_digits(d) && digits_value(d) <= u64::MAX {
        Some(digits_value(d) as u64)
    } else {
        None
    }
}

proof fn lemma_trim_start(s: Seq<u8>, i: int)
    requires
        0 <= i <= s.len(),
        forall|k: int| 0 <= k < i ==> is_space(#[trigger] s[k]),
        i == s.len() || !is_space(s[i]),
    ensures
        trim_start(s) == s.subrange(i, s.len() as int),
    decreases i,
{
    if i == 0 {
        assert(s.subrange(0, s.len() as int) =~= s);
    } else {
        let t = s.drop_first();
        assert forall|k: int| 0 <= k < i - 1 implies is_space(#[trigger] t[k]) by {
            assert(t[k] == s[k + 1]);
        }
        lemma_trim_start(t, i - 1);
        assert(t.subrange(i - 1, t.len() as int) =~= s.subrange(i, s.len() as int));
    }
}

proof fn lemma_trim_end(s: Seq<u8>, j: int)
    requires
        0 <= j <= s.len(),
        forall|k: int| j <= k < s.len() ==> is_space(#[trigger] s[k]),
        j == 0 || !is_space(s[j - 1]),
    ensures
        trim_end(s) == s.subrange(0, j),
    decreases s.len() - j,
{
    if j == s.len() {
        assert(s.subrange(0, j) =~= s);
    } else {
        let t = s.drop_last();
        assert forall|k: int| j <= k < t.len() implies is_space(#[trigger] t[k]) by {
            assert(t[k] == s[k]);
        }
        lemma_trim_end(t, j);
        assert(t.subrange(0, j) =~= s.subrange(0, j));
    }
}

proof fn lemma_digits_value_grows(s: Seq<u8>, k: int)
    requires
        0 <= k <= s.len(),
    ensures
        digits_value(s.subrange(0, k)) <= digits_value(s),
    decreases s.len(),
{
    if k < s.len() {
        assert(s.drop_last().subrange(0, k) =~= s.subrange(0, k));
        lemma_digits_value_grows(s.drop_last(), k);
    } else {
        assert(s.subrange(0, k) =~= s);
    }
}

/// Reads `d`, all of whose bytes are digits, as a number, unless it does not
/// fit in 64 bits.
fn digits_to_u64(d: &[u8]) -> (r: Option<u64>)
    requires
        all_digits(d@),
    ensures
        r == (if digits_value(d@) <= u64::MAX {
            Some(digits_value(d@) as u64)
        } else {
            None::<u64>
        }),
{
    let mut acc: u64 = 0;
    let mut k: usize = 0;
    while k < d.len()
        invariant
            all_digits(d@),
            k <= d@.len(),
            acc as nat == digits_value(d@.subrange(0, k as int)),
        decreases d@.len() - k,
    {
        let ghost pre = d@.subrange(0, k as int);
        let ghost post = d@.subrange(0, k + 1);
        assert(post.drop_last() =~= pre);
        let digit: u64 = (d[k] - 48u8) as u64;
        let next = match acc.checked_mul(10) {
            Some(t) => t.checked_add(digit),
            None => None,
        };
        match next {
            Some(v) => {
                acc = v;
            },
            None => {
                proof {
                    lemma_digits_value_grows(d@, k + 1);
                }
                return None;
            },
        }
        k = k + 1;
    }
    assert(d@.subrange(0, d@.len() as int) =~= d@);
    Some(acc)
}

/// Reads a trimmed line as a number: an optional `+` and decimal digits that
/// fit in 64 bits.
pub fn parse_number(t: &[u8]) -> (r: Option<u64>)
    ensures
        r == parse_u64(t@),
{
    let d: &[u8] = if t.len() > 0 && t[0] == 43u8 {
        vstd::slice::slice_subrange(t, 1, t.len())
    } else {
        t
    };
    let ghost sd = if t@.len() > 0 && t@[0] == 43 {
        t@.drop_first()
    } else {
        t@
    };
    assert(d@ =~= sd);
    if d.len() == 0 {
        return None;
    }
    let mut i: usize = 0;
    while i < d.len()
        invariant
            i <= d@.len(),
            d@ == sd,
            sd == (if t@.len() > 0 && t@[0] == 43 {
                t@.drop_first()
            } else {
                t@
            }),
            forall|k: int| 0 <= k < i ==> 48 <= #[trigger] d@[k] <= 57,
        decreases d@.len() - i,
    {
        if d[i] < 48u8 || d[i] > 57u8 {
            assert(!all_digits(sd));
            return None;
        }
        i = i + 1;
    }
    digits_to_u64(d)
}

/// `line` without white space at either end.
pub fn trim_line(line: &[u8]) -> (r: &[u8])
    ensures
        r@ == trim(line@),
{
    let mut i: usize = 0;
    while i < line.len() && (line[i] == 32u8 || (9u8 <= line[i] && line[i] <= 13u8))
        invariant
            i <= line@.len(),
            forall|k: int| 0 <= k < i ==> is_space(#[trigger] line@[k]),
        decreases line@.len() - i,
    {
        i = i + 1;
    }
    proof {
        lemma_trim_start(line@, i as int);
    }
    let ghost rest = line@.subrange(i as int, line@.len() as int);
    let mut j: usize = line.len();
    while j > i && (line[j - 1] == 32u8 || (9u8 <= line[j - 1] && line[j - 1] <= 13u8))
        invariant
            i <= j <= line@.len(),
            forall|k: int| j <= k < line@.len() ==> is_space(#[trigger] line@[k]),
        decreases j,
    {
        j = j - 1;
    }
    proof {
        assert forall|k: int| j - i <= k < rest.len() implies is_space(#[trigger] rest[k]) by {
            assert(rest[k] == line@[k + i]);
        }
        if j > i {
            assert(rest[j - i - 1] == line@[j - 1]);
        }
        lemma_trim_end(rest, j - i);
        assert(rest.subrange(0, j - i) =~= line@.subrange(i as int, j as int));
    }
    vstd::slice::slice_subrange(line, i, j)
}

/// The verdict on one line of a list of primes.
#[derive(Clone, Copy, Debug, PartialEq, Eq, Structural)]
pub enum LineCheck {
    /// The line holds this number, which passes the Baillie-PSW test.
    Prime(u64),
    /// The line holds this number, which fails the test.
    Composite(u64),
    /// The line holds no 64-bit decimal number.
    Invalid,
}

/// What the check of a line gives: the trimmed line read as a number, then
/// the Baillie-PSW test on it.
pub open spec fn line_verdict(line: Seq<u8>) -> LineCheck {
    match parse_u64(trim(line)) {
        None => LineCheck::Invalid,
        Some(n) => if bpsw_accepts(n as int) {
            LineCheck::Prime(n)
        } else {
            LineCheck::Composite(n)
        },
    }
}

/// Checks one line of a list of primes.
pub fn check_line(line: &[u8]) -> (r: LineCheck)
    ensures
        r == line_verdict(line@),
{
    let t = trim_line(line);
    match parse_number(t) {
        None => LineCheck::Invalid,
        Some(n) => if is_bpsw_prime_check(n) {
            LineCheck::Prime(n)
        } else {
            LineCheck::Composite(n)
        },
    }
}

/// An entry of a list of primes that did not check out.
#[derive(Clone, Debug)]
pub enum Flagged {
    /// A number that fails the Baillie-PSW test.
    Composite(u64),
    /// A line, trimmed, that holds no number.
    Invalid(Vec<u8>),
}

/// What a flagged entry stands for: a number, or the bytes of a line.
pub open spec fn flagged_view(f: Flagged) -> Result<u64, Seq<u8>> {
    match f {
        Flagged::Composite(n) => Ok(n),
        Flagged::Invalid(t) => Err(t@),
    }
}

/// What a line adds to the list of flagged entries: nothing for a prime.
pub open spec fn flags_of(line: Seq<u8>) -> Seq<Result<u64, Seq<u8>>> {
    match line_verdict(line) {
        LineCheck::Prime(_) => seq![],
        LineCheck::Composite(n) => seq![Ok(n)],
        LineCheck::Invalid => seq![Err(trim(line))],
    }
}

/// The lines checked so far and the entries among them that did not check
/// out, in the order met.
pub struct VerificationTally {
    pub checked: u64,
    pub flagged: Vec<Flagged>,
}

impl VerificationTally {
    /// The flagged entries, as numbers and lines.
    pub open spec fn flagged_seq(&self) -> Seq<Result<u64, Seq<u8>>> {
        self.flagged@.map_values(|f: Flagged| flagged_view(f))
    }

    /// A tally with nothing checked.
    pub fn new() -> (t: Self)
        ensures
            t.checked == 0,
            t.flagged_seq() == Seq::<Result<u64, Seq<u8>>>::empty(),
    {
        let t = VerificationTally { checked: 0, flagged: Vec::new() };
        assert(t.flagged_seq() =~= Seq::<Result<u64, Seq<u8>>>::empty());
        t
    }

    /// Checks one more line; a composite or a line that is no number is
    /// added to the flagged entries.
    pub fn record(&mut self, line: &[u8]) -> (r: LineCheck)
        requires
            old(self).checked < u64::MAX,
        ensures
            r == line_verdict(line@),
            final(self).checked == old(self).checked + 1,
            final(self).flagged_seq() == old(self).flagged_seq() + flags_of(line@),
    {
        let ghost before = self.flagged_seq();
        let verdict = check_line(line);
        match verdict {
            LineCheck::Prime(_) => {},
            LineCheck::Composite(n) => {
                self.flagged.push(Flagged::Composite(n));
            },
            LineCheck::Invalid => {
                let t = trim_line(line);
                self.flagged.push(Flagged::Invalid(slice_to_vec(t)));
            },
        }
        self.checked = self.checked + 1;
        assert(self.flagged_seq() =~= before + flags_of(line@));
        verdict
    }

    /// Whether every line checked so far held a prime.
    pub fn all_verified(&self) -> (r: bool)
        ensures
            r == (self.flagged_seq().len() == 0),
    {
        self.flagged.len() == 0
    }
}

/// A copy of `s`.
fn slice_to_vec(s: &[u8]) -> (r: Vec<u8>)
    ensures
        r@ == s@,
{
    let mut v: Vec<u8> = Vec::new();
    let mut i: usize = 0;
    while i < s.len()
        invariant
            i <= s@.len(),
            v@ == s@.subrange(0, i as int),
        decreases s@.len() - i,
    {
        v.push(s[i]);
        assert(v@ =~= s@.subrange(0, i + 1));
        i = i + 1;
    }
    assert(s@.subrange(0, s@.len() as int) =~= s@);
    v
}

/// The entries that a list of lines flags, in order.
pub open spec fn flags_of_lines(lines: Seq<Seq<u8>>) -> Seq<Result<u64, Seq<u8>>>
    decreases lines.len(),
{
    if lines.len() == 0 {
        seq![]
    } else {
        flags_of_lines(lines.drop_last()) + flags_of(lines.last())
    }
}

/// When every line of a list holds a prime except one, which holds a
/// composite `n`, the check flags `n` and nothing else.
pub proof fn lemma_single_composite_flagged(lines: Seq<Seq<u8>>, j: int, n: u64)
    requires
        0 <= j < lines.len(),
        line_verdict(lines[j]) == LineCheck::Composite(n),
        forall|i: int|
            0 <= i < lines.len() && i != j ==> (#[trigger] line_verdict(lines[i])) is Prime,
    ensures
        flags_of_lines(lines) == seq![Ok::<u64, Seq<u8>>(n)],
    decreases lines.len(),
{
    lemma_flags_of_primes(lines.subrange(0, j));
    lemma_flags_of_lines_split(lines, j);
    lemma_flags_of_lines_split(lines, j + 1);
    lemma_flags_of_primes(lines.subrange(j + 1, lines.len() as int));
    assert(lines.subrange(0, j + 1).drop_last() =~= lines.subrange(0, j));
    assert(flags_of_lines(lines) =~= seq![Ok::<u64, Seq<u8>>(n)]);
}

/// Lines that all hold primes flag nothing.
proof fn lemma_flags_of_primes(lines: Seq<Seq<u8>>)
    requires
        forall|i: int| 0 <= i < lines.len() ==> (#[trigger] line_verdict(lines[i])) is Prime,
    ensures
        flags_of_lines(lines) == Seq::<Result<u64, Seq<u8>>>::empty(),
    decreases lines.len(),
{
    if lines.len() > 0 {
        let rest = lines.drop_last();
        assert forall|i: int| 0 <= i < rest.len() implies (#[trigger] line_verdict(rest[i])) is Prime by {
            assert(rest[i] == lines[i]);
        }
        lemma_flags_of_primes(rest);
        assert(line_verdict(lines[lines.len() - 1]) is Prime);
        assert(flags_of_lines(lines) =~= Seq::<Result<u64, Seq<u8>>>::empty());
    }
}

/// The flags of a list are those of a prefix followed by those of the rest.
proof fn lemma_flags_of_lines_split(lines: Seq<Seq<u8>>, k: int)
    requires
        0 <= k <= lines.len(),
    ensures
        flags_of_lines(lines) == flags_of_lines(lines.subrange(0, k)) + flags_of_lines(
            lines.subrange(k, lines.len() as int),
        ),
    decreases lines.len(),
{
    if k == lines.len() {
        assert(lines.subrange(0, k) =~= lines);
        assert(flags_of_lines(lines.subrange(k, lines.len() as int)) =~= seq![]);
        assert(flags_of_lines(lines) + seq![] =~= flags_of_lines(lines));
    } else {
        let rest = lines.drop_last();
        lemma_flags_of_lines_split(rest, k);
        assert(rest.subrange(0, k) =~= lines.subrange(0, k));
        let tail = lines.subrange(k, lines.len() as int);
        assert(tail.drop_last() =~= rest.subrange(k, rest.len() as int));
        assert(tail.last() == lines.last());
        assert(flags_of_lines(lines) =~= flags_of_lines(lines.subrange(0, k)) + flags_of_lines(
            tail,
        ));
    }
}

} // verus!
