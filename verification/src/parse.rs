//! Parsing of the input matrix: plain text, one line per node, each line
//! holding whitespace-separated non-negative decimal numbers.  A number is
//! read into fixed point (`v` stands for `v / SCALE`), so at most three
//! fraction digits are representable; anything else is a format error.

use vstd::prelude::*;
use crate::errors::AcoError;
use crate::{MAX_ENTRY, MAX_NODES};

verus! {

/// Whitespace inside a row: space, tab, carriage return.
pub open spec fn is_ws(b: u8) -> bool {
    b == 32 || b == 9 || b == 13
}

/// An ASCII decimal digit.
pub open spec fn is_digit(b: u8) -> bool {
    48 <= b && b <= 57
}

/// The value of a run of decimal digits, most significant first.
pub open spec fn digits_val(s: Seq<u8>) -> nat
    decreases s.len(),
{
    if s.len() == 0 {
        0
    } else {
        digits_val(s.drop_last()) * 10 + (s.last() - 48) as nat
    }
}

/// Length of the longest digit prefix of `s`.
pub open spec fn digit_run_len(s: Seq<u8>) -> nat
    decreases s.len(),
{
    if s.len() > 0 && is_digit(s[0]) {
        1 + digit_run_len(s.drop_first())
    } else {
        0
    }
}

/// Powers of ten.
pub open spec fn pow10(e: nat) -> nat
    decreases e,
{
    if e == 0 {
        1
    } else {
        10 * pow10((e - 1) as nat)
    }
}

/// The digit prefix never runs past the end.
proof fn lemma_digit_run_len_le(s: Seq<u8>)
    ensures
        digit_run_len(s) <= s.len(),
    decreases s.len(),
{
    if s.len() > 0 && is_digit(s[0]) {
        lemma_digit_run_len_le(s.drop_first());
    }
}

/// Length of the number (digits, optionally a dot and more digits) that
/// starts `s`.
pub open spec fn spec_number_len(s: Seq<u8>) -> nat {
    let il = digit_run_len(s) as int;
    if il < s.len() && s[il] == 46 {
        (il + 1 + digit_run_len(s.skip(il + 1))) as nat
    } else {
        il as nat
    }
}

/// The scaled value of a whole token `digits [ '.' digits ]`: `None` when it
/// has more than three fraction digits or does not fit below `MAX_ENTRY`.
pub open spec fn spec_number_val(s: Seq<u8>) -> Option<u64> {
    let il = digit_run_len(s) as int;
    let ipart = digits_val(s.take(il));
    let v = if il == s.len() {
        ipart * 1000
    } else {
        ipart * 1000 + digits_val(s.skip(il + 1)) * pow10((3 - (s.len() - il - 1)) as nat)
    };
    if (il < s.len() ==> s.len() - il - 1 <= 3) && v <= MAX_ENTRY {
        Some(v as u64)
    } else {
        None
    }
}

/// Glue a parsed prefix onto the parse of the remaining suffix.
pub open spec fn row_result(acc: Seq<u64>, rest: Option<Seq<u64>>) -> Option<Seq<u64>> {
    match rest {
        Some(r) => Some(acc + r),
        None => None,
    }
}

/// A number occupies at most the whole sequence.
proof fn lemma_number_len_le(s: Seq<u8>)
    ensures
        spec_number_len(s) <= s.len(),
{
    lemma_digit_run_len_le(s);
    let il = digit_run_len(s) as int;
    if il < s.len() && s[il] == 46 {
        lemma_digit_run_len_le(s.skip(il + 1));
    }
}

/// The numbers of one row, in order; `None` on any byte that is neither
/// whitespace nor part of a well-formed number.
pub open spec fn spec_parse_row(s: Seq<u8>) -> Option<Seq<u64>>
    decreases s.len(),
    via spec_parse_row_decreases
{
    if s.len() == 0 {
        Some(Seq::empty())
    } else if is_ws(s[0]) {
        spec_parse_row(s.drop_first())
    } else if is_digit(s[0]) {
        let l = spec_number_len(s) as int;
        match spec_number_val(s.take(l)) {
            Some(v) => row_result(seq![v], spec_parse_row(s.skip(l))),
            None => None,
        }
    } else {
        None
    }
}

#[via_fn]
proof fn spec_parse_row_decreases(s: Seq<u8>) {
    lemma_number_len_le(s);
}

/// Every value of a well-formed row fits below `MAX_ENTRY`.
proof fn lemma_row_vals_le(s: Seq<u8>)
    requires
        spec_parse_row(s) is Some,
    ensures
        forall|x: int|
            0 <= x < spec_parse_row(s).unwrap().len() ==> #[trigger] spec_parse_row(s).unwrap()[x]
                <= MAX_ENTRY,
    decreases s.len(),
{
    if s.len() == 0 {
    } else if is_ws(s[0]) {
        lemma_row_vals_le(s.drop_first());
    } else {
        assert(is_digit(s[0]));
        let l = spec_number_len(s) as int;
        lemma_number_len_le(s);
        assert(1 <= l <= s.len());
        lemma_row_vals_le(s.skip(l));
        let v = spec_number_val(s.take(l)).unwrap();
        let rest = spec_parse_row(s.skip(l)).unwrap();
        assert(spec_parse_row(s).unwrap() == seq![v] + rest);
        assert forall|x: int| 0 <= x < spec_parse_row(s).unwrap().len() implies #[trigger] spec_parse_row(
            s,
        ).unwrap()[x] <= MAX_ENTRY by {
            if x > 0 {
                assert((seq![v] + rest)[x] == rest[x - 1]);
            }
        }
    }
}

/// Length of the first line of `s` (everything before the first newline).
pub open spec fn line_len(s: Seq<u8>) -> nat
    decreases s.len(),
{
    if s.len() == 0 {
        0
    } else if s[0] == 10 {
        0
    } else {
        1 + line_len(s.drop_first())
    }
}

/// The first line never runs past the end.
proof fn lemma_line_len_le(s: Seq<u8>)
    ensures
        line_len(s) <= s.len(),
    decreases s.len(),
{
    if s.len() > 0 && s[0] != 10 {
        lemma_line_len_le(s.drop_first());
    }
}

/// Split into lines at newline bytes; a trailing newline ends the last line
/// rather than opening an empty one.
pub open spec fn spec_split_lines(s: Seq<u8>) -> Seq<Seq<u8>>
    decreases s.len(),
    via spec_split_lines_decreases
{
    if s.len() == 0 {
        Seq::empty()
    } else {
        let k = line_len(s) as int;
        if k == s.len() {
            seq![s]
        } else {
            seq![s.take(k)] + spec_split_lines(s.skip(k + 1))
        }
    }
}

#[via_fn]
proof fn spec_split_lines_decreases(s: Seq<u8>) {
    lemma_line_len_le(s);
}

/// The whole matrix: every line parses, the matrix is square with one row
/// per line, small enough for `u8` ids, and the diagonal is zero.
pub open spec fn spec_parse_matrix(s: Seq<u8>) -> Option<Seq<Seq<u64>>> {
    let lines = spec_split_lines(s);
    let n = lines.len() as int;
    if n > MAX_NODES as int {
        None
    } else if exists|i: int| 0 <= i < n && (#[trigger] spec_parse_row(lines[i])) is None {
        None
    } else {
        let rows = Seq::new(n as nat, |i: int| spec_parse_row(lines[i]).unwrap());
        if exists|i: int| 0 <= i < n && (#[trigger] rows[i]).len() != n {
            None
        } else if exists|i: int| 0 <= i < n && #[trigger] rows[i][i] != 0 {
            None
        } else {
            Some(rows)
        }
    }
}

/// The digit prefix of `s` has length `e`.
proof fn lemma_digit_run(s: Seq<u8>, e: int)
    requires
        0 <= e <= s.len(),
        forall|k: int| 0 <= k < e ==> is_digit(#[trigger] s[k]),
        e == s.len() || !is_digit(s[e]),
    ensures
        digit_run_len(s) == e,
    decreases s.len(),
{
    if e == 0 {
    } else {
        lemma_digit_run(s.drop_first(), e - 1);
    }
}

/// Appending one digit multiplies the value by ten and adds the digit.
proof fn lemma_digits_val_push(s: Seq<u8>, d: u8)
    requires
        is_digit(d),
    ensures
        digits_val(s.push(d)) == digits_val(s) * 10 + (d - 48),
{
    assert(s.push(d).drop_last() =~= s);
    assert(s.push(d).last() == d);
}

/// A digit string is worth at least any of its prefixes.
proof fn lemma_digits_val_prefix_le(s: Seq<u8>, i: int)
    requires
        0 <= i <= s.len(),
        forall|k: int| 0 <= k < s.len() ==> is_digit(#[trigger] s[k]),
    ensures
        digits_val(s.take(i)) <= digits_val(s),
    decreases s.len(),
{
    if i == s.len() {
        assert(s.take(i) =~= s);
    } else {
        assert(s.drop_last().take(i) =~= s.take(i));
        lemma_digits_val_prefix_le(s.drop_last(), i);
        assert(digits_val(s) == digits_val(s.drop_last()) * 10 + (s.last() - 48) as nat);
        assert(digits_val(s.drop_last()) * 10 >= digits_val(s.drop_last())) by (nonlinear_arith);
    }
}

/// The first line of `c + rest` is `c` when `c` is newline-free and `rest`
/// opens with a newline or is empty.
proof fn lemma_line_len(c: Seq<u8>, rest: Seq<u8>)
    requires
        forall|k: int| 0 <= k < c.len() ==> (#[trigger] c[k]) != 10,
        rest.len() == 0 || rest[0] == 10,
    ensures
        line_len(c + rest) == c.len(),
    decreases c.len(),
{
    if c.len() == 0 {
        assert(c + rest =~= rest);
    } else {
        assert((c + rest)[0] == c[0]);
        assert((c + rest).drop_first() =~= c.drop_first() + rest);
        lemma_line_len(c.drop_first(), rest);
    }
}

/// Splitting off one full line: `c`, a newline, then the rest.
proof fn lemma_split_step(c: Seq<u8>, rest: Seq<u8>)
    requires
        forall|k: int| 0 <= k < c.len() ==> (#[trigger] c[k]) != 10,
        rest.len() > 0,
        rest[0] == 10,
    ensures
        spec_split_lines(c + rest) == seq![c] + spec_split_lines(rest.drop_first()),
{
    let s = c + rest;
    lemma_line_len(c, rest);
    assert(s.len() > 0);
    assert(line_len(s) == c.len() < s.len());
    assert(s.take(c.len() as int) =~= c);
    assert(s.skip(c.len() as int + 1) =~= rest.drop_first());
}

/// A newline-free tail is one line of its own (or none, when empty).
proof fn lemma_split_tail(c: Seq<u8>)
    requires
        forall|k: int| 0 <= k < c.len() ==> (#[trigger] c[k]) != 10,
    ensures
        spec_split_lines(c) == if c.len() == 0 {
            Seq::<Seq<u8>>::empty()
        } else {
            seq![c]
        },
{
    lemma_line_len(c, Seq::empty());
    assert(c + Seq::<u8>::empty() =~= c);
}

/// Parse the numbers of `line[from..to]`.  `Ok` exactly when the whole range
/// is whitespace-separated well-formed numbers.
#[verifier::rlimit(100)]
pub fn parse_row(line: &Vec<u8>, from: usize, to: usize) -> (r: Result<Vec<u64>, AcoError>)
    requires
        from <= to <= line@.len(),
    ensures
        r is Ok <==> spec_parse_row(line@.subrange(from as int, to as int)) is Some,
        r matches Ok(v) ==> v@ == spec_parse_row(line@.subrange(from as int, to as int)).unwrap(),
        r is Err ==> r == Result::<Vec<u64>, AcoError>::Err(AcoError::FormatError),
{
    let ghost whole = line@.subrange(from as int, to as int);
    let mut acc: Vec<u64> = Vec::new();
    let mut p: usize = from;
    while p < to
        invariant
            from <= p <= to <= line@.len(),
            whole == line@.subrange(from as int, to as int),
            spec_parse_row(whole) == row_result(
                acc@,
                spec_parse_row(line@.subrange(p as int, to as int)),
            ),
        decreases to - p,
    {
        let ghost suf = line@.subrange(p as int, to as int);
        let b = line[p];
        proof {
            assert(suf[0] == b);
        }
        if b == 32 || b == 9 || b == 13 {
            proof {
                assert(suf.drop_first() =~= line@.subrange(p + 1, to as int));
            }
            p = p + 1;
        } else if 48 <= b && b <= 57 {
            // integer part
            let mut j: usize = p;
            let mut ival: u64 = 0;
            let mut big = false;
            while j < to && 48 <= line[j] && line[j] <= 57
                invariant
                    p <= j <= to <= line@.len(),
                    forall|k: int| p <= k < j ==> is_digit(#[trigger] line@[k]),
                    !big ==> ival == digits_val(line@.subrange(p as int, j as int)) && ival
                        <= 10_000_009,
                    big ==> digits_val(line@.subrange(p as int, j as int)) > 1_000_000,
                decreases to - j,
            {
                let d = line[j] - 48;
                proof {
                    assert(line@.subrange(p as int, j + 1) =~= line@.subrange(
                        p as int,
                        j as int,
                    ).push(line@[j as int]));
                    lemma_digits_val_push(line@.subrange(p as int, j as int), line@[j as int]);
                }
                if big || ival > 1_000_000 {
                    proof {
                        if !big {
                            assert(digits_val(line@.subrange(p as int, j + 1)) == ival * 10 + (
                            line@[j as int] - 48)) by {};
                            assert(ival * 10 > 10_000_000) by (nonlinear_arith)
                                requires
                                    ival > 1_000_000,
                            ;
                        } else {
                            assert(digits_val(line@.subrange(p as int, j as int)) * 10 + (
                            line@[j as int] - 48) as nat > 1_000_000) by (nonlinear_arith)
                                requires
                                    digits_val(line@.subrange(p as int, j as int)) > 1_000_000,
                            ;
                        }
                    }
                    big = true;
                } else {
                    ival = ival * 10 + (d as u64);
                }
                j = j + 1;
            }
            // fraction part
            let mut k: usize = j;
            let mut fl: u64 = 0;
            let mut fval: u64 = 0;
            let mut frac_long = false;
            let has_dot = j < to && line[j] == 46;
            if has_dot {
                k = j + 1;
                while k < to && 48 <= line[k] && line[k] <= 57
                    invariant
                        j + 1 <= k <= to <= line@.len(),
                        fl == k - j - 1,
                        forall|m: int| j + 1 <= m < k ==> is_digit(#[trigger] line@[m]),
                        frac_long <==> fl > 3,
                        fl <= 3 ==> fval == digits_val(line@.subrange(j + 1, k as int)),
                        fl == 0 ==> fval == 0,
                        fl == 1 ==> fval <= 9,
                        fl == 2 ==> fval <= 99,
                        fl >= 3 ==> fval <= 999,
                    decreases to - k,
                {
                    let d = line[k] - 48;
                    proof {
                        assert(line@.subrange(j + 1, k + 1) =~= line@.subrange(j + 1, k as int).push(
                            line@[k as int],
                        ));
                        lemma_digits_val_push(line@.subrange(j + 1, k as int), line@[k as int]);
                    }
                    if fl >= 3 {
                        frac_long = true;
                    } else {
                        fval = fval * 10 + (d as u64);
                    }
                    fl = fl + 1;
                    k = k + 1;
                }
            }
            let l: usize = k - p;
            proof {
                // the token boundaries match the specification's
                lemma_digit_run(suf, j - p);
                let tok = suf.take(l as int);
                assert(tok =~= line@.subrange(p as int, k as int));
                lemma_digit_run(tok, j - p);
                if has_dot {
                    assert(suf[j - p] == 46);
                    assert(suf.skip(j - p + 1) =~= line@.subrange(j + 1, to as int));
                    lemma_digit_run(suf.skip(j - p + 1), k - j - 1);
                    assert(spec_number_len(suf) == l);
                    assert(tok.skip(j - p + 1) =~= line@.subrange(j + 1, k as int));
                    lemma_digit_run(tok.skip(j - p + 1), k - j - 1);
                } else {
                    assert(spec_number_len(suf) == l);
                }
                assert(tok.take(j - p) =~= line@.subrange(p as int, j as int));
            }
            if big || ival > 1_000_000 || frac_long {
                proof {
                    let tok = suf.take(l as int);
                    if big || ival > 1_000_000 {
                        let full = line@.subrange(p as int, j as int);
                        assert(digits_val(full) > 1_000_000);
                        assert(digits_val(full) * 1000 > 1_000_000_000) by (nonlinear_arith)
                            requires
                                digits_val(full) > 1_000_000,
                        ;
                        assert(digits_val(tok.take(j - p)) * 1000 + digits_val(
                            tok.skip(j - p + 1),
                        ) * pow10((3 - (tok.len() - (j - p) - 1)) as nat) >= digits_val(
                            tok.take(j - p),
                        ) * 1000) by (nonlinear_arith);
                        assert(spec_number_val(tok) is None);
                    } else {
                        assert(tok.len() - (j - p) - 1 > 3);
                        assert(spec_number_val(tok) is None);
                    }
                    assert(spec_parse_row(suf) is None);
                }
                return Err(AcoError::FormatError);
            }
            let sc: u64 = if fl == 0 {
                1000
            } else if fl == 1 {
                100
            } else if fl == 2 {
                10
            } else {
                1
            };
            proof {
                assert(pow10(0) == 1);
                assert(pow10(1) == 10);
                assert(pow10(2) == 100);
                assert(pow10(3) == 1000);
            }
            let v: u64 = ival * 1000 + fval * sc;
            if v > MAX_ENTRY {
                proof {
                    let tok = suf.take(l as int);
                    assert(spec_number_val(tok) is None);
                    assert(spec_parse_row(suf) is None);
                }
                return Err(AcoError::FormatError);
            }
            proof {
                let tok = suf.take(l as int);
                assert(spec_number_val(tok) == Some(v));
                assert(suf.skip(l as int) =~= line@.subrange(k as int, to as int));
                assert(spec_parse_row(suf) == row_result(
                    seq![v],
                    spec_parse_row(line@.subrange(k as int, to as int)),
                ));
                assert(acc@.push(v) =~= acc@ + seq![v]);
                assert forall|rest: Seq<u64>| (acc@ + seq![v]) + rest =~= acc@ + (
                seq![v] + rest) by {}
            }
            acc.push(v);
            p = k;
        } else {
            proof {
                assert(spec_parse_row(suf) is None);
            }
            return Err(AcoError::FormatError);
        }
    }
    proof {
        assert(line@.subrange(p as int, to as int) =~= Seq::<u8>::empty());
        assert(spec_parse_row(Seq::<u8>::empty()) == Some(Seq::<u64>::empty()));
        assert(acc@ + Seq::<u64>::empty() =~= acc@);
    }
    Ok(acc)
}

/// Parse the whole matrix.  `Ok` exactly when every line is a well-formed
/// row, the matrix is square with one row per line, at most `MAX_NODES`
/// rows, and the diagonal is zero.
pub fn parse_matrix(contents: &Vec<u8>) -> (r: Result<Vec<Vec<u64>>, AcoError>)
    ensures
        r is Ok <==> spec_parse_matrix(contents@) is Some,
        r matches Ok(rows) ==> {
            &&& rows@.len() == spec_parse_matrix(contents@).unwrap().len()
            &&& rows@.len() <= MAX_NODES
            &&& forall|i: int|
                0 <= i < rows@.len() ==> (#[trigger] rows@[i])@ == spec_parse_matrix(
                    contents@,
                ).unwrap()[i]
            &&& forall|i: int| 0 <= i < rows@.len() ==> (#[trigger] rows@[i])@.len() == rows@.len()
            &&& forall|i: int| 0 <= i < rows@.len() ==> (#[trigger] rows@[i])@[i] == 0
            &&& forall|i: int, j: int|
                0 <= i < rows@.len() && 0 <= j < rows@.len() ==> #[trigger] rows@[i]@[j]
                    <= MAX_ENTRY
        },
        r is Err ==> r == Result::<Vec<Vec<u64>>, AcoError>::Err(AcoError::FormatError),
{
    let ghost slines = spec_split_lines(contents@);
    // first pass: find the line boundaries
    let mut bounds: Vec<(usize, usize)> = Vec::new();
    let ghost mut done: Seq<Seq<u8>> = Seq::empty();
    let mut ls: usize = 0;
    let mut i: usize = 0;
    proof {
        assert(contents@.subrange(0, 0) + contents@.skip(0) =~= contents@);
        assert(Seq::<Seq<u8>>::empty() + spec_split_lines(contents@) =~= spec_split_lines(
            contents@,
        ));
    }
    while i < contents.len()
        invariant
            ls <= i <= contents@.len(),
            forall|k: int| ls <= k < i ==> (#[trigger] contents@[k]) != 10,
            slines == done + spec_split_lines(
                contents@.subrange(ls as int, i as int) + contents@.skip(i as int),
            ),
            done.len() == bounds@.len(),
            forall|a: int|
                0 <= a < bounds@.len() ==> {
                    &&& (#[trigger] bounds@[a]).0 <= bounds@[a].1 <= contents@.len()
                    &&& contents@.subrange(bounds@[a].0 as int, bounds@[a].1 as int) == done[a]
                },
        decreases contents@.len() - i,
    {
        let ghost cur = contents@.subrange(ls as int, i as int);
        if contents[i] == 10 {
            proof {
                assert(contents@.skip(i as int)[0] == 10);
                lemma_split_step(cur, contents@.skip(i as int));
                assert(contents@.skip(i as int).drop_first() =~= contents@.skip(i + 1));
                assert(contents@.subrange(i + 1, i + 1) + contents@.skip(i + 1) =~= contents@.skip(
                    i + 1,
                ));
                assert(done + (seq![cur] + spec_split_lines(contents@.skip(i + 1))) =~= (done
                    + seq![cur]) + spec_split_lines(contents@.skip(i + 1)));
            }
            bounds.push((ls, i));
            proof {
                done = done + seq![cur];
            }
            ls = i + 1;
        } else {
            proof {
                assert(contents@.subrange(ls as int, i + 1) + contents@.skip(i + 1)
                    =~= contents@.subrange(ls as int, i as int) + contents@.skip(i as int));
            }
        }
        i = i + 1;
    }
    proof {
        let cur = contents@.subrange(ls as int, i as int);
        assert(contents@.skip(i as int) =~= Seq::<u8>::empty());
        assert(cur + Seq::<u8>::empty() =~= cur);
        lemma_split_tail(cur);
    }
    if ls < i {
        bounds.push((ls, i));
        proof {
            done = done + seq![contents@.subrange(ls as int, i as int)];
        }
    }
    proof {
        if ls >= i {
            assert(done + Seq::<Seq<u8>>::empty() =~= done);
        }
        assert(slines == done);
    }
    // second pass: parse each line
    let n = bounds.len();
    if n > MAX_NODES {
        return Err(AcoError::FormatError);
    }
    let mut rows: Vec<Vec<u64>> = Vec::new();
    let mut a: usize = 0;
    while a < n
        invariant
            a <= n,
            n == bounds@.len() == slines.len() <= MAX_NODES,
            slines == spec_split_lines(contents@),
            forall|b: int|
                0 <= b < n ==> {
                    &&& (#[trigger] bounds@[b]).0 <= bounds@[b].1 <= contents@.len()
                    &&& contents@.subrange(bounds@[b].0 as int, bounds@[b].1 as int) == slines[b]
                },
            rows@.len() == a,
            forall|b: int| 0 <= b < a ==> spec_parse_row(slines[b]) == Some((#[trigger] rows@[b])@),
        decreases n - a,
    {
        let f = bounds[a].0;
        let t = bounds[a].1;
        match parse_row(contents, f, t) {
            Ok(row) => {
                rows.push(row);
            },
            Err(e) => {
                proof {
                    assert(spec_parse_row(slines[a as int]) is None);
                    assert(spec_parse_matrix(contents@) is None);
                }
                return Err(AcoError::FormatError);
            },
        }
        a = a + 1;
    }
    let ghost srows = Seq::new(slines.len(), |b: int| spec_parse_row(slines[b]).unwrap());
    proof {
        assert forall|b: int| 0 <= b < n implies (#[trigger] rows@[b])@ == srows[b] by {}
    }
    // square shape and zero diagonal
    let mut c: usize = 0;
    while c < n
        invariant
            c <= n,
            n == rows@.len() == srows.len() <= MAX_NODES,
            srows == Seq::new(
                spec_split_lines(contents@).len(),
                |b: int| spec_parse_row(spec_split_lines(contents@)[b]).unwrap(),
            ),
            forall|b: int|
                0 <= b < n ==> spec_parse_row(spec_split_lines(contents@)[b]) == Some(
                    (#[trigger] rows@[b])@,
                ),
            forall|b: int| 0 <= b < c ==> (#[trigger] rows@[b])@.len() == n,
            forall|b: int| 0 <= b < c ==> (#[trigger] rows@[b])@[b] == 0,
        decreases n - c,
    {
        if rows[c].len() != n {
            proof {
                assert(srows[c as int].len() != n);
                assert(spec_parse_matrix(contents@) is None);
            }
            return Err(AcoError::FormatError);
        }
        if rows[c][c] != 0 {
            proof {
                assert(srows[c as int][c as int] != 0);
                assert(spec_parse_matrix(contents@) is None);
            }
            return Err(AcoError::FormatError);
        }
        c = c + 1;
    }
    proof {
        assert forall|b: int| 0 <= b < slines.len() implies (#[trigger] spec_parse_row(
            slines[b],
        )) is Some by {
            assert(spec_parse_row(spec_split_lines(contents@)[b]) == Some(rows@[b]@));
        }
        assert forall|b: int| 0 <= b < srows.len() implies (#[trigger] srows[b]).len()
            == srows.len() by {
            assert(rows@[b]@.len() == n);
        }
        assert forall|b: int| 0 <= b < srows.len() implies #[trigger] srows[b][b] == 0 by {
            assert(rows@[b]@[b] == 0);
        }
        assert(spec_parse_matrix(contents@) == Some(srows));
        assert forall|i: int, j: int|
            0 <= i < rows@.len() && 0 <= j < rows@.len() implies #[trigger] rows@[i]@[j]
            <= MAX_ENTRY by {
            lemma_row_vals_le(slines[i]);
        }
    }
    Ok(rows)
}

} // verus!
