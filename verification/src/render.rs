use vstd::prelude::*;

use crate::matrix::Matrix;
use crate::parse::{
    line_ok, line_vals, parsed_cols, parsed_rows, scan_from, scan_of, ScanOutcome,
};
use crate::text::{
    dec_digits, is_newline, lemma_dec_digits_shape, lemma_dec_digits_token,
    lemma_lines_acc_newline, lemma_lines_acc_run, lemma_tokens_acc_blank, lemma_tokens_acc_run,
    lines_of, token_valid, tokens_of,
};

verus! {

// ---------------------------------------------------------------------------
// The text form of a matrix
// ---------------------------------------------------------------------------
/// A row's text: its cells as decimal digits, joined by single spaces, with
/// no trailing separator.
pub open spec fn render_row(r: Seq<u64>) -> Seq<u8>
    decreases r.len(),
{
    if r.len() == 0 {
        Seq::empty()
    } else if r.len() == 1 {
        dec_digits(r[0] as int)
    } else {
        dec_digits(r[0] as int) + seq![32u8] + render_row(r.skip(1))
    }
}

/// A matrix's text: its rows joined by single newlines, with no trailing
/// newline.
pub open spec fn render_rows(rs: Seq<Seq<u64>>) -> Seq<u8>
    decreases rs.len(),
{
    if rs.len() == 0 {
        Seq::empty()
    } else if rs.len() == 1 {
        render_row(rs[0])
    } else {
        render_row(rs[0]) + seq![10u8] + render_rows(rs.skip(1))
    }
}

// ---------------------------------------------------------------------------
// Shape of rendered text
// ---------------------------------------------------------------------------
/// A rendered row is free of newlines, and nonempty when the row is.
proof fn lemma_render_row_shape(r: Seq<u64>)
    ensures
        r.len() > 0 ==> render_row(r).len() > 0,
        forall|i: int|
            0 <= i < render_row(r).len() ==> !is_newline(#[trigger] render_row(r)[i]),
    decreases r.len(),
{
    if r.len() == 0 {
    } else if r.len() == 1 {
        lemma_dec_digits_shape(r[0] as int);
    } else {
        lemma_dec_digits_shape(r[0] as int);
        lemma_render_row_shape(r.skip(1));
        let a = dec_digits(r[0] as int);
        let l = a + seq![32u8] + render_row(r.skip(1));
        assert forall|i: int| 0 <= i < l.len() implies !is_newline(#[trigger] l[i]) by {
            if i < a.len() {
                assert(l[i] == a[i]);
            } else if i == a.len() {
                assert(l[i] == 32u8);
            } else {
                assert(l[i] == render_row(r.skip(1))[i - a.len() - 1]);
            }
        }
    }
}

/// Joining one more row on the right.
proof fn lemma_render_rows_snoc(rs: Seq<Seq<u64>>)
    requires
        rs.len() >= 1,
    ensures
        rs.len() == 1 ==> render_rows(rs) == render_row(rs[0]),
        rs.len() > 1 ==> render_rows(rs) == render_rows(rs.drop_last()) + seq![10u8]
            + render_row(rs.last()),
    decreases rs.len(),
{
    if rs.len() > 1 {
        let head = rs[0];
        let tail = rs.skip(1);
        lemma_render_rows_snoc(tail);
        assert(rs.drop_last()[0] == head);
        if rs.len() == 2 {
            assert(rs.drop_last() =~= seq![head]);
            assert(tail =~= seq![rs.last()]);
            assert(render_rows(rs) == render_row(head) + seq![10u8] + render_rows(tail));
            assert(render_rows(tail) == render_row(rs.last()));
            assert(render_rows(rs.drop_last()) == render_row(head));
        } else {
            assert(tail.drop_last() =~= rs.drop_last().skip(1));
            assert(tail.last() == rs.last());
            assert(render_rows(rs) == render_row(head) + seq![10u8] + render_rows(tail));
            assert(render_rows(tail) == render_rows(tail.drop_last()) + seq![10u8]
                + render_row(tail.last()));
            assert(render_rows(rs.drop_last()) == render_row(head) + seq![10u8] + render_rows(
                rs.drop_last().skip(1),
            ));
            assert(render_row(head) + seq![10u8] + (render_rows(tail.drop_last()) + seq![10u8]
                + render_row(tail.last())) =~= (render_row(head) + seq![10u8] + render_rows(
                tail.drop_last(),
            )) + seq![10u8] + render_row(rs.last()));
        }
    }
}

/// Joining one more cell on the right.
proof fn lemma_render_row_snoc(r: Seq<u64>)
    requires
        r.len() >= 1,
    ensures
        r.len() == 1 ==> render_row(r) == dec_digits(r[0] as int),
        r.len() > 1 ==> render_row(r) == render_row(r.drop_last()) + seq![32u8] + dec_digits(
            r.last() as int,
        ),
    decreases r.len(),
{
    if r.len() > 1 {
        let head = r[0];
        let tail = r.skip(1);
        lemma_render_row_snoc(tail);
        assert(r.drop_last()[0] == head);
        if r.len() == 2 {
            assert(r.drop_last() =~= seq![head]);
            assert(tail =~= seq![r.last()]);
        } else {
            assert(tail.drop_last() =~= r.drop_last().skip(1));
            assert(tail.last() == r.last());
            assert(render_row(r.drop_last()) == dec_digits(head as int) + seq![32u8] + render_row(
                r.drop_last().skip(1),
            ));
            assert(dec_digits(head as int) + seq![32u8] + (render_row(tail.drop_last())
                + seq![32u8] + dec_digits(tail.last() as int)) =~= (dec_digits(head as int)
                + seq![32u8] + render_row(tail.drop_last())) + seq![32u8] + dec_digits(
                r.last() as int,
            ));
        }
    }
}

// ---------------------------------------------------------------------------
// Reading rendered text back
// ---------------------------------------------------------------------------
/// The tokens of a rendered row are exactly its cells' digits.
proof fn lemma_tokens_of_render_row(r: Seq<u64>)
    requires
        r.len() >= 1,
    ensures
        tokens_of(render_row(r)) =~= r.map_values(|v: u64| dec_digits(v as int)),
    decreases r.len(),
{
    let a = dec_digits(r[0] as int);
    lemma_dec_digits_shape(r[0] as int);
    if r.len() == 1 {
        assert(a + Seq::<u8>::empty() =~= render_row(r));
        lemma_tokens_acc_run(a, Seq::empty(), Seq::empty());
        assert(Seq::<u8>::empty() + a =~= a);
    } else {
        let rest = seq![32u8] + render_row(r.skip(1));
        assert(a + rest =~= render_row(r));
        lemma_tokens_acc_run(a, rest, Seq::empty());
        assert(Seq::<u8>::empty() + a =~= a);
        lemma_tokens_acc_blank(32u8, render_row(r.skip(1)), a);
        lemma_tokens_of_render_row(r.skip(1));
        assert(tokens_of(render_row(r)) =~= seq![a] + tokens_of(render_row(r.skip(1))));
    }
}

/// A rendered row reads back as its own cells.
proof fn lemma_read_render_row(r: Seq<u64>)
    requires
        r.len() >= 1,
    ensures
        line_ok(render_row(r)),
        tokens_of(render_row(r)).len() == r.len(),
        line_vals(render_row(r)) =~= r,
{
    lemma_tokens_of_render_row(r);
    let ts = tokens_of(render_row(r));
    assert forall|k: int| 0 <= k < ts.len() implies token_valid(#[trigger] ts[k]) by {
        lemma_dec_digits_token(r[k] as int);
    }
    assert forall|k: int| 0 <= k < r.len() implies line_vals(render_row(r))[k] == r[k] by {
        lemma_dec_digits_token(r[k] as int);
    }
}

/// The lines of a rendered matrix are exactly its rendered rows.
proof fn lemma_lines_of_render_rows(rs: Seq<Seq<u64>>)
    requires
        forall|i: int| 0 <= i < rs.len() ==> (#[trigger] rs[i]).len() >= 1,
    ensures
        lines_of(render_rows(rs)) =~= rs.map_values(|r: Seq<u64>| render_row(r)),
    decreases rs.len(),
{
    if rs.len() == 0 {
    } else {
        let a = render_row(rs[0]);
        lemma_render_row_shape(rs[0]);
        if rs.len() == 1 {
            assert(a + Seq::<u8>::empty() =~= render_rows(rs));
            lemma_lines_acc_run(a, Seq::empty(), Seq::empty());
            assert(Seq::<u8>::empty() + a =~= a);
        } else {
            let rest = seq![10u8] + render_rows(rs.skip(1));
            assert(a + rest =~= render_rows(rs));
            lemma_lines_acc_run(a, rest, Seq::empty());
            assert(Seq::<u8>::empty() + a =~= a);
            lemma_lines_acc_newline(10u8, render_rows(rs.skip(1)), a);
            lemma_lines_of_render_rows(rs.skip(1));
            assert(lines_of(render_rows(rs)) =~= seq![a] + lines_of(render_rows(rs.skip(1))));
        }
    }
}

/// A scan of lines that all read well and agree on the cell count succeeds.
proof fn lemma_scan_good(ls: Seq<Seq<u8>>, k: int)
    requires
        0 <= k <= ls.len(),
        forall|i: int| 0 <= i < ls.len() ==> line_ok(#[trigger] ls[i]),
        forall|i: int|
            0 <= i < ls.len() ==> tokens_of(#[trigger] ls[i]).len() == tokens_of(ls[0]).len(),
    ensures
        scan_from(ls, k) == ScanOutcome::Good,
    decreases ls.len() - k,
{
    if k < ls.len() {
        lemma_scan_good(ls, k + 1);
    }
}

/// Writing a rectangular grid of numbers out as whitespace-delimited text
/// and parsing that text back yields exactly the same grid with the same
/// column count.  Grids with rows but no columns are excluded: their text
/// form is made of empty lines and cannot record the row count.
pub proof fn lemma_parse_round_trip(rows: Seq<Seq<u64>>, cols: int)
    requires
        forall|i: int| 0 <= i < rows.len() ==> (#[trigger] rows[i]).len() == cols,
        rows.len() > 0 ==> cols > 0,
        rows.len() == 0 ==> cols == 0,
    ensures
        scan_of(render_rows(rows)) == ScanOutcome::Good,
        parsed_rows(render_rows(rows)) == rows,
        parsed_cols(render_rows(rows)) == cols,
{
    let t = render_rows(rows);
    lemma_lines_of_render_rows(rows);
    let ls = lines_of(t);
    assert(ls.len() == rows.len());
    assert forall|i: int| 0 <= i < ls.len() implies line_ok(#[trigger] ls[i]) && tokens_of(
        ls[i],
    ).len() == cols && line_vals(ls[i]) == rows[i] by {
        assert(ls[i] == render_row(rows[i]));
        lemma_read_render_row(rows[i]);
    }
    lemma_scan_good(ls, 0);
    assert(parsed_rows(t) =~= rows);
}

// ---------------------------------------------------------------------------
// The serializer
// ---------------------------------------------------------------------------
/// The bytes of a sequence in reverse order.
spec fn reversed(s: Seq<u8>) -> Seq<u8>
    decreases s.len(),
{
    if s.len() == 0 {
        Seq::empty()
    } else {
        seq![s.last()] + reversed(s.drop_last())
    }
}

proof fn lemma_reversed_index(s: Seq<u8>)
    ensures
        reversed(s).len() == s.len(),
        forall|i: int| 0 <= i < s.len() ==> #[trigger] reversed(s)[i] == s[s.len() - 1 - i],
    decreases s.len(),
{
    if s.len() > 0 {
        lemma_reversed_index(s.drop_last());
    }
}

/// Writes a number as decimal digits, most significant first.
fn fmt_u64(v: u64) -> (r: Vec<u8>)
    ensures
        r@ == dec_digits(v as int),
{
    let mut tmp: Vec<u8> = Vec::new();
    let mut cur: u64 = v;
    proof {
        assert(reversed(Seq::<u8>::empty()) =~= Seq::<u8>::empty());
        assert(dec_digits(v as int) + Seq::<u8>::empty() =~= dec_digits(v as int));
    }
    while cur >= 10
        invariant
            dec_digits(v as int) == dec_digits(cur as int) + reversed(tmp@),
        decreases cur,
    {
        let d: u8 = (cur % 10) as u8;
        let ghost old_tmp = tmp@;
        tmp.push(48 + d);
        cur = cur / 10;
        proof {
            assert(tmp@.drop_last() =~= old_tmp);
            assert(reversed(tmp@) == seq![(48 + d) as u8] + reversed(old_tmp));
            assert(dec_digits(cur as int) + (seq![(48 + d) as u8] + reversed(old_tmp))
                =~= (dec_digits(cur as int) + seq![(48 + d) as u8]) + reversed(old_tmp));
        }
    }
    let ghost old_tmp = tmp@;
    tmp.push(48 + (cur as u8));
    proof {
        assert(tmp@.drop_last() =~= old_tmp);
        assert(reversed(tmp@) == seq![(48 + cur) as u8] + reversed(old_tmp));
        assert(dec_digits(cur as int) =~= seq![(48 + cur) as u8]);
        assert(seq![(48 + cur) as u8] + reversed(old_tmp) =~= dec_digits(cur as int) + reversed(
            old_tmp,
        ));
    }
    let n = tmp.len();
    let mut out: Vec<u8> = Vec::new();
    let mut i: usize = 0;
    proof {
        lemma_reversed_index(tmp@);
    }
    while i < n
        invariant
            i <= n,
            n == tmp@.len(),
            reversed(tmp@).len() == n,
            forall|j: int| 0 <= j < n ==> #[trigger] reversed(tmp@)[j] == tmp@[n - 1 - j],
            out@.len() == i,
            forall|j: int| 0 <= j < i ==> #[trigger] out@[j] == reversed(tmp@)[j],
        decreases n - i,
    {
        out.push(tmp[n - 1 - i]);
        i = i + 1;
    }
    proof {
        assert(out@ =~= reversed(tmp@));
    }
    out
}

/// Writes a matrix as whitespace-delimited text: one line per row, cells as
/// decimal digits joined by single spaces, no trailing separators.
pub fn matrix_to_text(m: &Matrix) -> (r: Vec<u8>)
    requires
        m.wf(),
    ensures
        r@ == render_rows(m@),
{
    proof {
        m.lemma_shape();
    }
    let rows = m.rows();
    let cols = m.cols();
    let mut out: Vec<u8> = Vec::new();
    let mut i: usize = 0;
    proof {
        assert(m@.take(0) =~= Seq::<Seq<u64>>::empty());
    }
    while i < rows
        invariant
            i <= rows,
            m.wf(),
            rows == m.spec_rows(),
            cols == m.spec_cols(),
            m@.len() == rows,
            forall|a: int| 0 <= a < rows ==> (#[trigger] m@[a]).len() == cols,
            out@ == render_rows(m@.take(i as int)),
        decreases rows - i,
    {
        if i > 0 {
            out.push(10);
        }
        let ghost base = out@;
        let mut j: usize = 0;
        proof {
            assert(m@[i as int].take(0) =~= Seq::<u64>::empty());
            assert(base + Seq::<u8>::empty() =~= base);
        }
        while j < cols
            invariant
                j <= cols,
                i < rows,
                m.wf(),
                rows == m.spec_rows(),
                cols == m.spec_cols(),
                m@.len() == rows,
                forall|a: int| 0 <= a < rows ==> (#[trigger] m@[a]).len() == cols,
                base == render_rows(m@.take(i as int)) + (if i > 0 {
                    seq![10u8]
                } else {
                    Seq::<u8>::empty()
                }),
                out@ == base + render_row(m@[i as int].take(j as int)),
            decreases cols - j,
        {
            if j > 0 {
                out.push(32);
            }
            let digits = fmt_u64(m.get(i, j));
            let dn = digits.len();
            let ghost mid = out@;
            let mut k: usize = 0;
            while k < dn
                invariant
                    k <= dn,
                    dn == digits@.len(),
                    out@ == mid + digits@.take(k as int),
                decreases dn - k,
            {
                proof {
                    assert(digits@.take(k as int).push(digits@[k as int]) =~= digits@.take(
                        k + 1,
                    ));
                }
                out.push(digits[k]);
                k = k + 1;
            }
            proof {
                assert(digits@.take(dn as int) =~= digits@);
                let row = m@[i as int];
                lemma_render_row_snoc(row.take(j + 1));
                assert(row.take(j + 1).drop_last() =~= row.take(j as int));
                assert(row.take(j + 1).last() == row[j as int]);
                if j > 0 {
                    assert(out@ =~= base + (render_row(row.take(j as int)) + seq![32u8]
                        + dec_digits(row[j as int] as int)));
                } else {
                    assert(row.take(1)[0] == row[0]);
                    assert(out@ =~= base + render_row(row.take(1)));
                }
            }
            j = j + 1;
        }
        proof {
            let row = m@[i as int];
            assert(row.take(cols as int) =~= row);
            lemma_render_rows_snoc(m@.take(i + 1));
            assert(m@.take(i + 1).drop_last() =~= m@.take(i as int));
            assert(m@.take(i + 1).last() == row);
            if i > 0 {
                assert(out@ =~= render_rows(m@.take(i as int)) + seq![10u8] + render_row(row));
            } else {
                assert(m@.take(1)[0] == row);
                assert(out@ =~= render_row(row));
            }
        }
        i = i + 1;
    }
    proof {
        assert(m@.take(rows as int) =~= m@);
    }
    out
}

} // verus!
