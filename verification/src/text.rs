use vstd::prelude::*;

verus! {

// ---------------------------------------------------------------------------
// Character classes
// ---------------------------------------------------------------------------
/// Line separator: a newline byte.
pub open spec fn is_newline(b: u8) -> bool {
    b == 10
}

/// In-line whitespace between cells: space, tab or carriage return.
pub open spec fn is_blank(b: u8) -> bool {
    b == 32 || b == 9 || b == 13
}

pub open spec fn is_digit(b: u8) -> bool {
    48 <= b && b <= 57
}

// ---------------------------------------------------------------------------
// Splitting a text into lines and a line into tokens
// ---------------------------------------------------------------------------
/// Lines of `t` with `cur` as the already-read prefix of the current line.
/// A final line not closed by a newline still counts; a closing newline adds
/// no empty line after it.
pub open spec fn lines_acc(t: Seq<u8>, cur: Seq<u8>) -> Seq<Seq<u8>>
    decreases t.len(),
{
    if t.len() == 0 {
        if cur.len() > 0 {
            seq![cur]
        } else {
            Seq::empty()
        }
    } else if is_newline(t[0]) {
        seq![cur] + lines_acc(t.skip(1), Seq::empty())
    } else {
        lines_acc(t.skip(1), cur.push(t[0]))
    }
}

/// The lines of a text, one per row of the matrix it describes.
pub open spec fn lines_of(t: Seq<u8>) -> Seq<Seq<u8>> {
    lines_acc(t, Seq::empty())
}

/// Tokens of `l` with `cur` as the already-read prefix of the current token.
/// Tokens are the maximal runs of non-blank bytes.
pub open spec fn tokens_acc(l: Seq<u8>, cur: Seq<u8>) -> Seq<Seq<u8>>
    decreases l.len(),
{
    if l.len() == 0 {
        if cur.len() > 0 {
            seq![cur]
        } else {
            Seq::empty()
        }
    } else if is_blank(l[0]) {
        (if cur.len() > 0 {
            seq![cur]
        } else {
            Seq::empty()
        }) + tokens_acc(l.skip(1), Seq::empty())
    } else {
        tokens_acc(l.skip(1), cur.push(l[0]))
    }
}

/// The whitespace-delimited tokens of a line, one per cell.
pub open spec fn tokens_of(l: Seq<u8>) -> Seq<Seq<u8>> {
    tokens_acc(l, Seq::empty())
}

// ---------------------------------------------------------------------------
// Decimal tokens and their values
// ---------------------------------------------------------------------------
/// The number written by a sequence of decimal digits, most significant
/// first.
pub open spec fn dec_val(s: Seq<u8>) -> int
    decreases s.len(),
{
    if s.len() == 0 {
        0
    } else {
        dec_val(s.drop_last()) * 10 + s.last() - 48
    }
}

pub open spec fn all_digits(s: Seq<u8>) -> bool {
    forall|i: int| 0 <= i < s.len() ==> is_digit(#[trigger] s[i])
}

/// The digits of a token, with one optional leading plus sign stripped.
pub open spec fn token_body(s: Seq<u8>) -> Seq<u8> {
    if s.len() > 0 && s[0] == 43 {
        s.skip(1)
    } else {
        s
    }
}

/// A token reads as an unsigned 64-bit decimal number: at least one digit
/// after the optional sign, digits only, and a value within range.
pub open spec fn token_valid(s: Seq<u8>) -> bool {
    &&& token_body(s).len() > 0
    &&& all_digits(token_body(s))
    &&& dec_val(token_body(s)) <= u64::MAX
}

pub open spec fn token_val(s: Seq<u8>) -> int {
    dec_val(token_body(s))
}

/// The canonical decimal digits of a non-negative number: no sign, no
/// leading zero except for the number zero itself.
pub open spec fn dec_digits(n: int) -> Seq<u8>
    decreases n,
{
    if n < 10 {
        seq![(48 + if n >= 0 { n } else { 0 }) as u8]
    } else {
        dec_digits(n / 10) + seq![(48 + n % 10) as u8]
    }
}

// ---------------------------------------------------------------------------
// Facts about decimal values
// ---------------------------------------------------------------------------
pub proof fn lemma_dec_val_nonneg(s: Seq<u8>)
    requires
        all_digits(s),
    ensures
        dec_val(s) >= 0,
    decreases s.len(),
{
    if s.len() > 0 {
        assert(all_digits(s.drop_last())) by {
            assert(forall|i: int| 0 <= i < s.len() - 1 ==> s.drop_last()[i] == s[i]);
        }
        lemma_dec_val_nonneg(s.drop_last());
    }
}

/// Extending a digit string on the right never shrinks its value.
pub proof fn lemma_dec_val_prefix(s: Seq<u8>, k: int)
    requires
        all_digits(s),
        0 <= k <= s.len(),
    ensures
        dec_val(s.take(k)) <= dec_val(s),
    decreases s.len(),
{
    if k == s.len() {
        assert(s.take(k) =~= s);
    } else {
        assert(all_digits(s.drop_last())) by {
            assert(forall|i: int| 0 <= i < s.len() - 1 ==> s.drop_last()[i] == s[i]);
        }
        assert(s.drop_last().take(k) =~= s.take(k));
        lemma_dec_val_prefix(s.drop_last(), k);
        lemma_dec_val_nonneg(s.drop_last());
    }
}

/// Reading one more digit multiplies the value read so far by ten and adds
/// the digit.
pub proof fn lemma_dec_val_step(s: Seq<u8>, k: int)
    requires
        0 <= k < s.len(),
    ensures
        dec_val(s.take(k + 1)) == dec_val(s.take(k)) * 10 + s[k] - 48,
{
    assert(s.take(k + 1).drop_last() =~= s.take(k));
    assert(s.take(k + 1).last() == s[k]);
}

/// The canonical digits of a number are digits, and are neither blanks,
/// newlines nor a sign.
pub proof fn lemma_dec_digits_shape(n: int)
    requires
        n >= 0,
    ensures
        dec_digits(n).len() >= 1,
        all_digits(dec_digits(n)),
        forall|i: int|
            0 <= i < dec_digits(n).len() ==> !is_blank(#[trigger] dec_digits(n)[i])
                && !is_newline(dec_digits(n)[i]) && dec_digits(n)[i] != 43,
    decreases n,
{
    if n >= 10 {
        lemma_dec_digits_shape(n / 10);
    }
}

/// Writing a number as decimal digits and reading them back yields the
/// number.
pub proof fn lemma_dec_val_of_dec_digits(n: int)
    requires
        n >= 0,
    ensures
        dec_val(dec_digits(n)) == n,
    decreases n,
{
    if n < 10 {
        let s = dec_digits(n);
        assert(s =~= seq![(48 + n) as u8]);
        assert(s.drop_last() =~= Seq::<u8>::empty());
        assert(dec_val(Seq::<u8>::empty()) == 0);
        assert(s.last() == (48 + n) as u8);
        assert(dec_val(s) == 0 * 10 + (48 + n) - 48);
    } else {
        lemma_dec_val_of_dec_digits(n / 10);
        let d = (48 + n % 10) as u8;
        assert(0 <= n % 10 < 10);
        assert(dec_digits(n) == dec_digits(n / 10) + seq![d]);
        assert((dec_digits(n / 10) + seq![d]).drop_last() =~= dec_digits(n / 10));
        assert((dec_digits(n / 10) + seq![d]).last() == d);
        assert(dec_val(dec_digits(n)) == (n / 10) * 10 + (d - 48));
        vstd::arithmetic::div_mod::lemma_fundamental_div_mod(n, 10);
    }
}

/// The canonical digits of an in-range number form a valid token with that
/// number as its value.
pub proof fn lemma_dec_digits_token(n: int)
    requires
        0 <= n <= u64::MAX,
    ensures
        token_valid(dec_digits(n)),
        token_val(dec_digits(n)) == n,
    {
    lemma_dec_digits_shape(n);
    lemma_dec_val_of_dec_digits(n);
    assert(token_body(dec_digits(n)) =~= dec_digits(n));
}

// ---------------------------------------------------------------------------
// Facts about token and line splitting
// ---------------------------------------------------------------------------
/// Reading a run of non-blank bytes extends the current token.
pub proof fn lemma_tokens_acc_run(a: Seq<u8>, rest: Seq<u8>, cur: Seq<u8>)
    requires
        forall|i: int| 0 <= i < a.len() ==> !is_blank(#[trigger] a[i]),
    ensures
        tokens_acc(a + rest, cur) == tokens_acc(rest, cur + a),
    decreases a.len(),
{
    if a.len() == 0 {
        assert(a + rest =~= rest);
        assert(cur + a =~= cur);
    } else {
        assert((a + rest)[0] == a[0]);
        assert((a + rest).skip(1) =~= a.skip(1) + rest);
        assert(forall|i: int| 0 <= i < a.skip(1).len() ==> !is_blank(#[trigger] a.skip(1)[i]));
        lemma_tokens_acc_run(a.skip(1), rest, cur.push(a[0]));
        assert(cur.push(a[0]) + a.skip(1) =~= cur + a);
    }
}

/// Reading a blank closes the current token.
pub proof fn lemma_tokens_acc_blank(b: u8, rest: Seq<u8>, cur: Seq<u8>)
    requires
        is_blank(b),
    ensures
        tokens_acc(seq![b] + rest, cur) == (if cur.len() > 0 {
            seq![cur]
        } else {
            Seq::<Seq<u8>>::empty()
        }) + tokens_acc(rest, Seq::empty()),
{
    assert((seq![b] + rest)[0] == b);
    assert((seq![b] + rest).skip(1) =~= rest);
}

/// Reading a run of non-newline bytes extends the current line.
pub proof fn lemma_lines_acc_run(a: Seq<u8>, rest: Seq<u8>, cur: Seq<u8>)
    requires
        forall|i: int| 0 <= i < a.len() ==> !is_newline(#[trigger] a[i]),
    ensures
        lines_acc(a + rest, cur) == lines_acc(rest, cur + a),
    decreases a.len(),
{
    if a.len() == 0 {
        assert(a + rest =~= rest);
        assert(cur + a =~= cur);
    } else {
        assert((a + rest)[0] == a[0]);
        assert((a + rest).skip(1) =~= a.skip(1) + rest);
        assert(forall|i: int| 0 <= i < a.skip(1).len() ==> !is_newline(#[trigger] a.skip(1)[i]));
        lemma_lines_acc_run(a.skip(1), rest, cur.push(a[0]));
        assert(cur.push(a[0]) + a.skip(1) =~= cur + a);
    }
}

/// Reading a newline closes the current line.
pub proof fn lemma_lines_acc_newline(b: u8, rest: Seq<u8>, cur: Seq<u8>)
    requires
        is_newline(b),
    ensures
        lines_acc(seq![b] + rest, cur) == seq![cur] + lines_acc(rest, Seq::empty()),
{
    assert((seq![b] + rest)[0] == b);
    assert((seq![b] + rest).skip(1) =~= rest);
}

} // verus!
