//! The bytes of output files: decimal numbers in plain, CSV or JSON form,
//! spread over several files when a split count is set.

use vstd::prelude::*;
use crate::config::OutputFormat;

verus! {

/// The decimal digits of `n`, most significant first.
pub open spec fn decimal(n: nat) -> Seq<u8>
    decreases n,
{
    if n < 10 {
        seq![(48 + n) as u8]
    } else {
        decimal(n / 10).push((48 + n % 10) as u8)
    }
}

/// Appends the decimal digits of `n` to `out`.
pub fn push_decimal(out: &mut Vec<u8>, n: u64)
    ensures
        final(out)@ == old(out)@ + decimal(n as nat),
    decreases n,
{
    if n >= 10 {
        push_decimal(out, n / 10);
    }
    let ghost mid = out@;
    out.push(48u8 + (n % 10) as u8);
    proof {
        if n >= 10 {
            assert(out@ =~= old(out)@ + decimal(n as nat));
        } else {
            assert(out@ =~= old(out)@ + decimal(n as nat));
        }
    }
}

/// `ps` in decimal, separated by `sep`.
pub open spec fn joined(ps: Seq<u64>, sep: u8) -> Seq<u8>
    decreases ps.len(),
{
    if ps.len() == 0 {
        seq![]
    } else if ps.len() == 1 {
        decimal(ps[0] as nat)
    } else {
        joined(ps.drop_last(), sep).push(sep) + decimal(ps.last() as nat)
    }
}

/// `ps` in decimal, each followed by a newline.
pub open spec fn lines_of(ps: Seq<u64>) -> Seq<u8>
    decreases ps.len(),
{
    if ps.len() == 0 {
        seq![]
    } else {
        (lines_of(ps.drop_last()) + decimal(ps.last() as nat)).push(10u8)
    }
}

/// The contents of one output file holding `ps`: one number per line; or the
/// numbers joined by commas on one line (nothing when there are none); or a
/// JSON array.
pub open spec fn file_body(ps: Seq<u64>, format: OutputFormat) -> Seq<u8> {
    match format {
        OutputFormat::Text => lines_of(ps),
        OutputFormat::CSV => if ps.len() == 0 {
            seq![]
        } else {
            joined(ps, 44u8).push(10u8)
        },
        OutputFormat::JSON => seq![91u8] + joined(ps, 44u8) + seq![93u8],
    }
}

/// How many files `count` primes fill: one without splitting; otherwise a
/// new file is opened each time one reaches `split_count` primes.
pub open spec fn spec_file_count(count: nat, split_count: nat) -> nat {
    if split_count == 0 {
        1
    } else {
        count / split_count + 1
    }
}

/// The primes that file `index` (from 0) holds.
pub open spec fn file_share(ps: Seq<u64>, split_count: nat, index: nat) -> Seq<u64> {
    if split_count == 0 {
        ps
    } else {
        let lo = index * split_count;
        let hi: int = if (index + 1) * split_count <= ps.len() {
            ((index + 1) * split_count) as int
        } else {
            ps.len() as int
        };
        if lo <= ps.len() {
            ps.subrange(lo as int, hi as int)
        } else {
            seq![]
        }
    }
}

/// How many files `count` primes fill with the given split count.
pub fn file_count(count: u64, split_count: u64) -> (r: u64)
    requires
        count < u64::MAX,
    ensures
        r == spec_file_count(count as nat, split_count as nat),
{
    if split_count == 0 {
        1
    } else {
        assert(count / split_count <= count) by {
            vstd::arithmetic::div_mod::lemma_div_is_ordered_by_denominator(count as int, 1, split_count as int);
        }
        count / split_count + 1
    }
}

/// Appends `ps` to `out` in decimal, separated by `sep`.
fn push_joined(out: &mut Vec<u8>, ps: &[u64], sep: u8)
    ensures
        final(out)@ == old(out)@ + joined(ps@, sep),
{
    let ghost start = out@;
    let mut i: usize = 0;
    while i < ps.len()
        invariant
            i <= ps@.len(),
            out@ == start + joined(ps@.subrange(0, i as int), sep),
        decreases ps@.len() - i,
    {
        let ghost pre = ps@.subrange(0, i as int);
        let ghost post = ps@.subrange(0, i + 1);
        assert(post.drop_last() =~= pre);
        assert(post.last() == ps@[i as int]);
        if i > 0 {
            out.push(sep);
        }
        push_decimal(out, ps[i]);
        proof {
            if i == 0 {
                assert(joined(pre, sep) =~= seq![]);
                assert(out@ =~= start + joined(post, sep));
            } else {
                assert(out@ =~= start + joined(post, sep));
            }
        }
        i = i + 1;
    }
    assert(ps@.subrange(0, ps@.len() as int) =~= ps@);
}

/// Appends `ps` to `out`, one number per line.
fn push_lines(out: &mut Vec<u8>, ps: &[u64])
    ensures
        final(out)@ == old(out)@ + lines_of(ps@),
{
    let ghost start = out@;
    let mut i: usize = 0;
    while i < ps.len()
        invariant
            i <= ps@.len(),
            out@ == start + lines_of(ps@.subrange(0, i as int)),
        decreases ps@.len() - i,
    {
        let ghost pre = ps@.subrange(0, i as int);
        let ghost post = ps@.subrange(0, i + 1);
        assert(post.drop_last() =~= pre);
        assert(post.last() == ps@[i as int]);
        push_decimal(out, ps[i]);
        out.push(10u8);
        assert(out@ =~= start + lines_of(post));
        i = i + 1;
    }
    assert(ps@.subrange(0, ps@.len() as int) =~= ps@);
}

/// The contents of one file holding `ps` in the given format.
pub fn render_body(ps: &[u64], format: OutputFormat) -> (r: Vec<u8>)
    ensures
        r@ == file_body(ps@, format),
{
    let mut out: Vec<u8> = Vec::new();
    match format {
        OutputFormat::Text => {
            push_lines(&mut out, ps);
        },
        OutputFormat::CSV => {
            if ps.len() > 0 {
                push_joined(&mut out, ps, 44u8);
                out.push(10u8);
            }
        },
        OutputFormat::JSON => {
            out.push(91u8);
            push_joined(&mut out, ps, 44u8);
            out.push(93u8);
        },
    }
    assert(out@ =~= file_body(ps@, format));
    out
}

/// The contents of file `index` (from 0) when `primes` are written with the
/// given split count: each file holds `split_count` primes in turn, the last
/// one the rest (which may be none); without splitting, one file holds all.
pub fn render_file(primes: &[u64], format: OutputFormat, split_count: u64, index: u64) -> (r: Vec<u8>)
    requires
        index < spec_file_count(primes@.len() as nat, split_count as nat),
    ensures
        r@ == file_body(file_share(primes@, split_count as nat, index as nat), format),
{
    if split_count == 0 {
        return render_body(primes, format);
    }
    let len: u64 = primes.len() as u64;
    assert(index * split_count <= len) by (nonlinear_arith)
        requires index < len / split_count + 1, split_count >= 1;
    let lo: u64 = index * split_count;
    let hi: u64 = if len - lo >= split_count { lo + split_count } else { len };
    assert((index + 1) * split_count == lo + split_count) by (nonlinear_arith)
        requires lo == index * split_count;
    let share = slice_range(primes, lo as usize, hi as usize);
    render_body(share, format)
}

/// `s[lo..hi]`.
fn slice_range(s: &[u64], lo: usize, hi: usize) -> (r: &[u64])
    requires
        lo <= hi <= s@.len(),
    ensures
        r@ == s@.subrange(lo as int, hi as int),
{
    vstd::slice::slice_subrange(s, lo, hi)
}

/// The digits of a split file's index are padded with zeros to this width.
pub const FILE_INDEX_WIDTH: usize = 4;

/// The decimal digits of `n`, padded on the left with zeros to `width`.
pub open spec fn padded_decimal(n: nat, width: nat) -> Seq<u8> {
    let d = decimal(n);
    if d.len() < width {
        Seq::new((width - d.len()) as nat, |_i: int| 48u8) + d
    } else {
        d
    }
}

/// Appends the decimal digits of `n` to `out`, padded with zeros to `width`.
fn push_padded_decimal(out: &mut Vec<u8>, n: u64, width: usize)
    ensures
        final(out)@ == old(out)@ + padded_decimal(n as nat, width as nat),
{
    let mut digits: Vec<u8> = Vec::new();
    push_decimal(&mut digits, n);
    assert(digits@ =~= decimal(n as nat));
    let ghost start = out@;
    let mut pad: usize = if digits.len() < width { width - digits.len() } else { 0 };
    let ghost total = pad;
    while pad > 0
        invariant
            pad <= total,
            out@ == start + Seq::new((total - pad) as nat, |_i: int| 48u8),
        decreases pad,
    {
        out.push(48u8);
        assert(out@ =~= start + Seq::new((total - pad + 1) as nat, |_i: int| 48u8));
        pad = pad - 1;
    }
    let ghost zeros = out@;
    let mut k: usize = 0;
    while k < digits.len()
        invariant
            k <= digits@.len(),
            out@ == zeros + digits@.subrange(0, k as int),
        decreases digits@.len() - k,
    {
        out.push(digits[k]);
        assert(out@ =~= zeros + digits@.subrange(0, k + 1));
        k = k + 1;
    }
    assert(digits@.subrange(0, digits@.len() as int) =~= digits@);
    assert(out@ =~= start + padded_decimal(n as nat, width as nat));
}

/// The name of output file `index` (from 1): `primes.<ext>`, or
/// `primes_<index>.<ext>` when splitting, with the index padded with zeros to
/// [`FILE_INDEX_WIDTH`] digits.
pub fn file_name(format: OutputFormat, split_count: u64, index: u64) -> (r: Vec<u8>)
    ensures
        r@ == seq![112u8, 114, 105, 109, 101, 115] + (if split_count > 0 {
            seq![95u8] + padded_decimal(index as nat, FILE_INDEX_WIDTH as nat)
        } else {
            seq![]
        }) + seq![46u8] + extension(format),
{
    let mut out: Vec<u8> = Vec::new();
    out.push(112u8);
    out.push(114u8);
    out.push(105u8);
    out.push(109u8);
    out.push(101u8);
    out.push(115u8);
    let ghost base = out@;
    if split_count > 0 {
        out.push(95u8);
        push_padded_decimal(&mut out, index, FILE_INDEX_WIDTH);
    }
    let ghost named = out@;
    out.push(46u8);
    match format {
        OutputFormat::Text => {
            out.push(116u8);
            out.push(120u8);
            out.push(116u8);
        },
        OutputFormat::CSV => {
            out.push(99u8);
            out.push(115u8);
            out.push(118u8);
        },
        OutputFormat::JSON => {
            out.push(106u8);
            out.push(115u8);
            out.push(111u8);
            out.push(110u8);
        },
    }
    assert(out@ =~= seq![112u8, 114, 105, 109, 101, 115] + (if split_count > 0 {
        seq![95u8] + padded_decimal(index as nat, FILE_INDEX_WIDTH as nat)
    } else {
        seq![]
    }) + seq![46u8] + extension(format));
    out
}

/// The file extension of a format: `txt`, `csv` or `json`.
pub open spec fn extension(format: OutputFormat) -> Seq<u8> {
    match format {
        OutputFormat::Text => seq![116u8, 120, 116],
        OutputFormat::CSV => seq![99u8, 115, 118],
        OutputFormat::JSON => seq![106u8, 115, 111, 110],
    }
}

/// With a split count `s > 0`, `n` primes fill `n / s + 1` files: each of
/// the first `n / s` holds exactly `s` primes and the last holds the other
/// `n mod s`.
pub proof fn lemma_split_rotation(ps: Seq<u64>, split_count: nat)
    requires
        split_count > 0,
    ensures
        spec_file_count(ps.len(), split_count) == ps.len() / split_count + 1,
        forall|i: nat|
            i < ps.len() / split_count ==> (#[trigger] file_share(ps, split_count, i)).len()
                == split_count,
        file_share(ps, split_count, ps.len() / split_count).len() == ps.len() % split_count,
{
    let n = ps.len() as int;
    let s = split_count as int;
    vstd::arithmetic::div_mod::lemma_fundamental_div_mod(n, s);
    vstd::arithmetic::div_mod::lemma_mod_bound(n, s);
    let q = n / s;
    assert forall|i: nat| i < ps.len() / split_count implies (#[trigger] file_share(
        ps,
        split_count,
        i,
    )).len() == split_count by {
        assert((i + 1) * s <= n) by (nonlinear_arith)
            requires i < q, n == s * q + n % s, n % s >= 0, s > 0;
        assert(i * s <= n) by (nonlinear_arith)
            requires (i + 1) * s <= n, s > 0;
        assert((i + 1) * s - i * s == s) by (nonlinear_arith);
    }
    assert(q * s <= n) by (nonlinear_arith)
        requires n == s * q + n % s, n % s >= 0;
    assert((q + 1) * s > n) by (nonlinear_arith)
        requires n == s * q + n % s, n % s < s;
    assert(n - q * s == n % s) by (nonlinear_arith)
        requires n == s * q + n % s;
}

} // verus!
