use vstd::prelude::*;

use crate::error::Error;
use crate::matrix::Matrix;
use crate::text::{
    all_digits, dec_val, is_digit, lemma_dec_val_nonneg, lemma_dec_val_prefix, lemma_dec_val_step,
    lines_acc, lines_of, token_body, token_val, token_valid, tokens_acc, tokens_of,
};

verus! {

// ---------------------------------------------------------------------------
// What a text describes: the parse model
// ---------------------------------------------------------------------------
/// The outcome of reading a text as a matrix: a grid of numbers, a cell that
/// does not read as a number, or rows of unequal cell counts.
pub enum ScanOutcome {
    Good,
    BadCell(Seq<u8>),
    Ragged,
}

/// Every token of the line reads as a number.
pub open spec fn line_ok(l: Seq<u8>) -> bool {
    forall|k: int| 0 <= k < tokens_of(l).len() ==> token_valid(#[trigger] tokens_of(l)[k])
}

/// The position of the first invalid token at or after `k`.
pub open spec fn first_bad_from(ts: Seq<Seq<u8>>, k: int) -> int
    decreases ts.len() - k,
{
    if k < 0 || k >= ts.len() {
        k
    } else if !token_valid(ts[k]) {
        k
    } else {
        first_bad_from(ts, k + 1)
    }
}

/// The first token of the line that does not read as a number.
pub open spec fn first_bad_token(l: Seq<u8>) -> Seq<u8> {
    tokens_of(l)[first_bad_from(tokens_of(l), 0)]
}

/// The numbers written on a line, one per token.
pub open spec fn line_vals(l: Seq<u8>) -> Seq<u64> {
    tokens_of(l).map_values(|t: Seq<u8>| token_val(t) as u64)
}

/// Scans the lines from position `i` on, in order: a line with an unreadable
/// cell fails first with that cell, then a line whose cell count disagrees
/// with the first line's fails the whole text.
pub open spec fn scan_from(ls: Seq<Seq<u8>>, i: int) -> ScanOutcome
    decreases ls.len() - i,
{
    if i < 0 || i >= ls.len() {
        ScanOutcome::Good
    } else if !line_ok(ls[i]) {
        ScanOutcome::BadCell(first_bad_token(ls[i]))
    } else if i > 0 && tokens_of(ls[i]).len() != tokens_of(ls[0]).len() {
        ScanOutcome::Ragged
    } else {
        scan_from(ls, i + 1)
    }
}

/// The outcome of parsing a whole text.
pub open spec fn scan_of(t: Seq<u8>) -> ScanOutcome {
    scan_from(lines_of(t), 0)
}

/// The grid of numbers a well-formed text describes, row by row.
pub open spec fn parsed_rows(t: Seq<u8>) -> Seq<Seq<u64>> {
    lines_of(t).map_values(|l: Seq<u8>| line_vals(l))
}

/// The column count a well-formed text describes: fixed by its first line,
/// zero for an empty text.
pub open spec fn parsed_cols(t: Seq<u8>) -> int {
    if lines_of(t).len() > 0 {
        tokens_of(lines_of(t)[0]).len() as int
    } else {
        0
    }
}

// ---------------------------------------------------------------------------
// Splitting the input
// ---------------------------------------------------------------------------
/// Pushing one inner vector extends the element-wise view by its view.
proof fn lemma_deep_view_push(v: Vec<Vec<u8>>, w: Vec<Vec<u8>>, x: Vec<u8>)
    requires
        w@ == v@.push(x),
    ensures
        w.deep_view() == v.deep_view().push(x@),
{
    assert(x.deep_view() =~= x@);
    assert forall|i: int| 0 <= i < w@.len() implies w.deep_view()[i] == v.deep_view().push(x@)[i]
        by {
        if i < v@.len() {
            assert(w@[i] == v@[i]);
        } else {
            assert(w@[i] == x);
        }
    }
    assert(w.deep_view() =~= v.deep_view().push(x@));
}

/// Element-wise views of a vector of byte vectors.
proof fn lemma_deep_view_index(v: Vec<Vec<u8>>)
    ensures
        v.deep_view().len() == v@.len(),
        forall|i: int| 0 <= i < v@.len() ==> v.deep_view()[i] == (#[trigger] v@[i])@,
{
    assert forall|i: int| 0 <= i < v@.len() implies v.deep_view()[i] == (#[trigger] v@[i])@ by {
        assert(v@[i].deep_view() =~= v@[i]@);
    }
}

/// Cuts a text at its newlines.
fn split_lines(text: &[u8]) -> (r: Vec<Vec<u8>>)
    ensures
        r.deep_view() == lines_of(text@),
{
    let n = text.len();
    let mut out: Vec<Vec<u8>> = Vec::new();
    let mut cur: Vec<u8> = Vec::new();
    let mut i: usize = 0;
    proof {
        assert(text@.skip(0) =~= text@);
        assert(out.deep_view() =~= Seq::<Seq<u8>>::empty());
        assert(out.deep_view() + lines_acc(text@, cur@) =~= lines_acc(text@, cur@));
    }
    while i < n
        invariant
            i <= n,
            n == text@.len(),
            lines_of(text@) == out.deep_view() + lines_acc(text@.skip(i as int), cur@),
        decreases n - i,
    {
        let b = text[i];
        proof {
            assert(text@.skip(i as int)[0] == b);
            assert(text@.skip(i as int).skip(1) =~= text@.skip(i + 1));
        }
        if b == 10 {
            let ghost old_out = out;
            let ghost old_cur = cur;
            out.push(cur);
            cur = Vec::new();
            proof {
                lemma_deep_view_push(old_out, out, old_cur);
                assert(cur@ =~= Seq::<u8>::empty());
                assert(old_out.deep_view() + (seq![old_cur@] + lines_acc(
                    text@.skip(i + 1),
                    cur@,
                )) =~= out.deep_view() + lines_acc(text@.skip(i + 1), cur@));
            }
        } else {
            cur.push(b);
        }
        i = i + 1;
    }
    proof {
        assert(text@.skip(n as int) =~= Seq::<u8>::empty());
    }
    if cur.len() > 0 {
        let ghost old_out = out;
        let ghost old_cur = cur;
        out.push(cur);
        proof {
            lemma_deep_view_push(old_out, out, old_cur);
            assert(old_out.deep_view() + seq![old_cur@] =~= out.deep_view());
        }
    } else {
        proof {
            assert(out.deep_view() + Seq::<Seq<u8>>::empty() =~= out.deep_view());
        }
    }
    out
}

/// Cuts a line at its blanks into tokens; runs of blanks leave no empty
/// token behind.
fn split_tokens(line: &[u8]) -> (r: Vec<Vec<u8>>)
    ensures
        r.deep_view() == tokens_of(line@),
{
    let n = line.len();
    let mut out: Vec<Vec<u8>> = Vec::new();
    let mut cur: Vec<u8> = Vec::new();
    let mut i: usize = 0;
    proof {
        assert(line@.skip(0) =~= line@);
        assert(out.deep_view() =~= Seq::<Seq<u8>>::empty());
        assert(out.deep_view() + tokens_acc(line@, cur@) =~= tokens_acc(line@, cur@));
    }
    while i < n
        invariant
            i <= n,
            n == line@.len(),
            tokens_of(line@) == out.deep_view() + tokens_acc(line@.skip(i as int), cur@),
        decreases n - i,
    {
        let b = line[i];
        proof {
            assert(line@.skip(i as int)[0] == b);
            assert(line@.skip(i as int).skip(1) =~= line@.skip(i + 1));
        }
        if b == 32 || b == 9 || b == 13 {
            if cur.len() > 0 {
                let ghost old_out = out;
                let ghost old_cur = cur;
                out.push(cur);
                cur = Vec::new();
                proof {
                    lemma_deep_view_push(old_out, out, old_cur);
                    assert(cur@ =~= Seq::<u8>::empty());
                    assert(old_out.deep_view() + (seq![old_cur@] + tokens_acc(
                        line@.skip(i + 1),
                        cur@,
                    )) =~= out.deep_view() + tokens_acc(line@.skip(i + 1), cur@));
                }
            } else {
                proof {
                    assert(cur@ =~= Seq::<u8>::empty());
                    assert(out.deep_view() + (Seq::<Seq<u8>>::empty() + tokens_acc(
                        line@.skip(i + 1),
                        Seq::<u8>::empty(),
                    )) =~= out.deep_view() + tokens_acc(line@.skip(i + 1), cur@));
                }
            }
        } else {
            cur.push(b);
        }
        i = i + 1;
    }
    proof {
        assert(line@.skip(n as int) =~= Seq::<u8>::empty());
    }
    if cur.len() > 0 {
        let ghost old_out = out;
        let ghost old_cur = cur;
        out.push(cur);
        proof {
            lemma_deep_view_push(old_out, out, old_cur);
            assert(old_out.deep_view() + seq![old_cur@] =~= out.deep_view());
        }
    } else {
        proof {
            assert(out.deep_view() + Seq::<Seq<u8>>::empty() =~= out.deep_view());
        }
    }
    out
}

/// Reads one token as an unsigned 64-bit decimal number: an optional leading
/// plus sign, then digits.  Returns nothing on a stray byte or a value over
/// `u64::MAX`.
fn parse_token(tok: &Vec<u8>) -> (r: Option<u64>)
    ensures
        match r {
            Some(v) => token_valid(tok@) && v == token_val(tok@),
            None => !token_valid(tok@),
        },
{
    let n = tok.len();
    let start: usize = if n > 0 && tok[0] == 43 {
        1
    } else {
        0
    };
    let ghost body = token_body(tok@);
    proof {
        assert(body =~= tok@.skip(start as int));
    }
    if n == start {
        return None;
    }
    let mut val: u64 = 0;
    let mut k: usize = start;
    proof {
        assert(tok@.subrange(start as int, start as int) =~= Seq::<u8>::empty());
        assert(body.take(0) =~= Seq::<u8>::empty());
    }
    while k < n
        invariant
            start <= k <= n,
            n == tok@.len(),
            body == token_body(tok@),
            body == tok@.skip(start as int),
            body.len() == n - start,
            all_digits(body.take(k - start)),
            val == dec_val(body.take(k - start)),
        decreases n - k,
    {
        let b = tok[k];
        proof {
            assert(body[k - start] == tok@[k as int]);
        }
        if b < 48 || b > 57 {
            proof {
                assert(!is_digit(body[k - start]));
                assert(!all_digits(body));
            }
            return None;
        }
        let d: u64 = (b - 48) as u64;
        proof {
            lemma_dec_val_step(body, k - start);
            assert(body.take(k - start + 1).drop_last() =~= body.take(k - start));
            assert(all_digits(body.take(k - start + 1)));
        }
        let limit: u64 = (u64::MAX - d) / 10;
        if val > limit {
            proof {
                vstd::arithmetic::div_mod::lemma_fundamental_div_mod(
                    (u64::MAX - d) as int,
                    10,
                );
                assert(10 * val > u64::MAX - d);
                if all_digits(body) {
                    lemma_dec_val_prefix(body, k - start + 1);
                }
            }
            return None;
        }
        proof {
            vstd::arithmetic::div_mod::lemma_fundamental_div_mod((u64::MAX - d) as int, 10);
            assert(10 * val <= u64::MAX - d);
        }
        val = val * 10 + d;
        k = k + 1;
    }
    proof {
        assert(body.take(n - start) =~= body);
        lemma_dec_val_nonneg(body);
    }
    Some(val)
}

/// A scan that has found only valid tokens before an invalid one stops at
/// that one.
proof fn lemma_first_bad_at(ts: Seq<Seq<u8>>, m: int, k: int)
    requires
        0 <= m <= k < ts.len(),
        forall|j: int| m <= j < k ==> token_valid(#[trigger] ts[j]),
        !token_valid(ts[k]),
    ensures
        first_bad_from(ts, m) == k,
    decreases k - m,
{
    if m < k {
        lemma_first_bad_at(ts, m + 1, k);
    }
}

/// Reads one line as a row of numbers, or fails with its first unreadable
/// cell.
fn parse_line(line: &[u8]) -> (r: Result<Vec<u64>, Error>)
    ensures
        match r {
            Ok(v) => line_ok(line@) && v@ == line_vals(line@),
            Err(Error::InvalidCell(t)) => !line_ok(line@) && t@ == first_bad_token(line@),
            Err(_) => false,
        },
{
    let mut toks = split_tokens(line);
    let ghost ts = tokens_of(line@);
    proof {
        lemma_deep_view_index(toks);
    }
    let n = toks.len();
    let mut vals: Vec<u64> = Vec::new();
    let mut k: usize = 0;
    while k < n
        invariant
            k <= n,
            n == toks@.len(),
            ts == tokens_of(line@),
            toks.deep_view() == ts,
            forall|i: int| 0 <= i < n ==> (#[trigger] toks@[i])@ == ts[i],
            forall|j: int| 0 <= j < k ==> token_valid(#[trigger] ts[j]),
            vals@.len() == k,
            forall|j: int| 0 <= j < k ==> #[trigger] vals@[j] == token_val(ts[j]) as u64,
        decreases n - k,
    {
        match parse_token(&toks[k]) {
            Some(v) => {
                vals.push(v);
            },
            None => {
                proof {
                    lemma_first_bad_at(ts, 0, k as int);
                    assert(!line_ok(line@));
                }
                let bad = toks.remove(k);
                return Err(Error::InvalidCell(bad));
            },
        }
        k = k + 1;
    }
    proof {
        assert(vals@ =~= line_vals(line@));
    }
    Ok(vals)
}

/// Parses a whitespace-delimited numeric text into a dense rectangular
/// matrix: one row per line, one cell per token, the column count fixed by
/// the first line.  An empty text yields a matrix with no rows; no partial
/// matrix is returned on failure.
pub fn parse_matrix(text: &[u8]) -> (r: Result<Matrix, Error>)
    ensures
        match r {
            Ok(m) => {
                &&& scan_of(text@) == ScanOutcome::Good
                &&& m.wf()
                &&& m@ == parsed_rows(text@)
                &&& m.spec_rows() == lines_of(text@).len()
                &&& m.spec_cols() == parsed_cols(text@)
            },
            Err(Error::InvalidCell(t)) => scan_of(text@) == ScanOutcome::BadCell(t@),
            Err(Error::RaggedMatrix) => scan_of(text@) == ScanOutcome::Ragged,
            Err(_) => false,
        },
{
    let lines = split_lines(text);
    let ghost ls = lines_of(text@);
    proof {
        lemma_deep_view_index(lines);
    }
    let n = lines.len();
    let mut rows: Vec<Vec<u64>> = Vec::new();
    let mut cols: usize = 0;
    let mut i: usize = 0;
    while i < n
        invariant
            i <= n,
            n == lines@.len(),
            ls == lines_of(text@),
            lines.deep_view() == ls,
            forall|a: int| 0 <= a < n ==> (#[trigger] lines@[a])@ == ls[a],
            scan_from(ls, 0) == scan_from(ls, i as int),
            i > 0 ==> cols == tokens_of(ls[0]).len(),
            i == 0 ==> cols == 0,
            rows@.len() == i,
            forall|a: int| 0 <= a < i ==> (#[trigger] rows@[a])@ == line_vals(ls[a]),
            forall|a: int| 0 <= a < i ==> (#[trigger] rows@[a])@.len() == cols,
        decreases n - i,
    {
        match parse_line(&lines[i]) {
            Ok(v) => {
                if i == 0 {
                    cols = v.len();
                } else if v.len() != cols {
                    proof {
                        assert(line_vals(ls[i as int]).len() == tokens_of(ls[i as int]).len());
                        assert(line_vals(ls[0]).len() == tokens_of(ls[0]).len());
                        assert(scan_from(ls, i as int) == ScanOutcome::Ragged);
                    }
                    return Err(Error::RaggedMatrix);
                }
                proof {
                    assert(line_vals(ls[i as int]).len() == tokens_of(ls[i as int]).len());
                }
                rows.push(v);
            },
            Err(e) => {
                proof {
                    assert(scan_from(ls, i as int) == ScanOutcome::BadCell(
                        first_bad_token(ls[i as int]),
                    ));
                }
                return Err(e);
            },
        }
        i = i + 1;
    }
    let m = Matrix::from_rows(rows, cols);
    proof {
        assert(scan_from(ls, n as int) == ScanOutcome::Good);
        assert forall|a: int| 0 <= a < n implies m@[a] == parsed_rows(text@)[a] by {
            assert(m@[a] == rows@[a].deep_view());
            assert(rows@[a].deep_view() =~= rows@[a]@);
        }
        assert(m@ =~= parsed_rows(text@));
    }
    Ok(m)
}

/// A scan with a cell-count disagreement ahead of it, and no unreadable
/// cell anywhere, ends ragged.
proof fn lemma_scan_ragged(ls: Seq<Seq<u8>>, k: int, w: int)
    requires
        0 <= k <= w < ls.len(),
        1 <= w,
        forall|i: int| 0 <= i < ls.len() ==> line_ok(#[trigger] ls[i]),
        tokens_of(ls[w]).len() != tokens_of(ls[0]).len(),
    ensures
        scan_from(ls, k) == ScanOutcome::Ragged,
    decreases ls.len() - k,
{
    if !(k > 0 && tokens_of(ls[k]).len() != tokens_of(ls[0]).len()) {
        lemma_scan_ragged(ls, k + 1, w);
    }
}

/// A text whose cells all read as numbers but whose lines disagree on
/// their cell counts parses to `RaggedMatrix`, no matter which lines
/// disagree.
pub proof fn lemma_ragged_rejected(t: Seq<u8>)
    requires
        forall|i: int| 0 <= i < lines_of(t).len() ==> line_ok(#[trigger] lines_of(t)[i]),
        exists|i: int, j: int|
            0 <= i < lines_of(t).len() && 0 <= j < lines_of(t).len() && tokens_of(
                #[trigger] lines_of(t)[i],
            ).len() != tokens_of(#[trigger] lines_of(t)[j]).len(),
    ensures
        scan_of(t) == ScanOutcome::Ragged,
{
    let ls = lines_of(t);
    let (i, j) = choose|i: int, j: int|
        0 <= i < ls.len() && 0 <= j < ls.len() && tokens_of(#[trigger] ls[i]).len() != tokens_of(
            #[trigger] ls[j],
        ).len();
    if tokens_of(ls[i]).len() != tokens_of(ls[0]).len() {
        lemma_scan_ragged(ls, 0, i);
    } else {
        lemma_scan_ragged(ls, 0, j);
    }
}

} // verus!
