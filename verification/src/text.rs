use vstd::prelude::*;

use crate::accum::value_ok;
use crate::{Error, VALUE_LIMIT};

verus! {

/// ASCII codes the corpus grammar is built from.
pub const SEMI: u8 = 59;

pub const NL: u8 = 10;

pub const DOT: u8 = 46;

pub const MINUS: u8 = 45;

pub const ZERO: u8 = 48;

pub open spec fn is_digit(b: u8) -> bool {
    48 <= b <= 57
}

/// Index of the first occurrence of `c` in `d`, or `d.len()` if absent.
pub open spec fn first_at(d: Seq<u8>, c: u8) -> int
    decreases d.len(),
{
    if d.len() == 0 {
        0
    } else if d[0] == c {
        0
    } else {
        1 + first_at(d.skip(1), c)
    }
}

pub proof fn lemma_first_at(d: Seq<u8>, c: u8)
    ensures
        0 <= first_at(d, c) <= d.len(),
        first_at(d, c) < d.len() ==> d[first_at(d, c)] == c,
        forall|i: int| 0 <= i < first_at(d, c) ==> d[i] != c,
    decreases d.len(),
{
    if d.len() != 0 && d[0] != c {
        lemma_first_at(d.skip(1), c);
        assert forall|i: int| 0 <= i < first_at(d, c) implies d[i] != c by {
            if i > 0 {
                assert(d.skip(1)[i - 1] == d[i]);
            }
        }
    }
}

/// The first occurrence is pinned by exhibiting it: if everything before
/// `i` differs from `c`, and `i` either holds `c` or is the length, then
/// `i` is the first occurrence.
pub proof fn lemma_first_at_is(d: Seq<u8>, c: u8, i: int)
    requires
        0 <= i <= d.len(),
        i < d.len() ==> d[i] == c,
        forall|j: int| 0 <= j < i ==> d[j] != c,
    ensures
        first_at(d, c) == i,
{
    lemma_first_at(d, c);
    let f = first_at(d, c);
    if f < i {
        assert(d[f] != c);
    }
    if f > i {
        assert(d[i] != c);
    }
}

/// The corpus, split into lines on `NL`.  A trailing newline closes the
/// last line; a final unterminated fragment counts as a line of its own;
/// empty input has no lines.
pub open spec fn lines_of(d: Seq<u8>) -> Seq<Seq<u8>>
    decreases d.len(),
{
    if d.len() == 0 {
        Seq::empty()
    } else {
        let i = first_at(d, NL);
        if 0 <= i < d.len() {
            seq![d.take(i)] + lines_of(d.skip(i + 1))
        } else {
            seq![d]
        }
    }
}

/// There are never more lines than bytes.
pub proof fn lemma_lines_count(d: Seq<u8>)
    ensures
        lines_of(d).len() <= d.len(),
        d.len() > 0 ==> lines_of(d).len() >= 1,
    decreases d.len(),
{
    if d.len() != 0 {
        lemma_first_at(d, NL);
        let i = first_at(d, NL);
        if i < d.len() {
            lemma_lines_count(d.skip(i + 1));
        }
    }
}

/// Splitting the input right after a newline splits its line sequence.
pub proof fn lemma_lines_split(d: Seq<u8>, j: int)
    requires
        0 <= j <= d.len(),
        j == 0 || j == d.len() || d[j - 1] == NL,
    ensures
        lines_of(d) == lines_of(d.take(j)) + lines_of(d.skip(j)),
    decreases d.len(),
{
    if j == 0 {
        assert(d.take(0) =~= Seq::<u8>::empty());
        assert(d.skip(0) =~= d);
        assert(lines_of(d.take(0)) + lines_of(d.skip(0)) =~= lines_of(d));
    } else if j == d.len() && d[j - 1] != NL {
        assert(d.take(j) =~= d);
        assert(d.skip(j) =~= Seq::<u8>::empty());
        assert(lines_of(d.take(j)) + lines_of(d.skip(j)) =~= lines_of(d));
    } else {
        lemma_first_at(d, NL);
        let i = first_at(d, NL);
        assert(i <= j - 1);
        let a = d.take(j);
        lemma_first_at_is(a, NL, i);
        assert(lines_of(a) == seq![a.take(i)] + lines_of(a.skip(i + 1)));
        assert(a.take(i) =~= d.take(i));
        if i + 1 == j {
            assert(a.skip(i + 1) =~= Seq::<u8>::empty());
            assert(a.skip(i + 1).len() == 0);
            assert(lines_of(a) =~= seq![d.take(i)]);
            assert(d.skip(i + 1) =~= d.skip(j));
            assert(lines_of(d) == seq![d.take(i)] + lines_of(d.skip(j)));
            assert(lines_of(d) =~= lines_of(a) + lines_of(d.skip(j)));
        } else {
            let rest = d.skip(i + 1);
            let jr = j - (i + 1);
            assert(rest[jr - 1] == d[j - 1]);
            lemma_lines_split(rest, jr);
            assert(rest.take(jr) =~= a.skip(i + 1));
            assert(rest.skip(jr) =~= d.skip(j));
            assert(lines_of(d) == seq![d.take(i)] + (lines_of(rest.take(jr)) + lines_of(
                rest.skip(jr),
            )));
            assert(lines_of(d) =~= (seq![a.take(i)] + lines_of(a.skip(i + 1))) + lines_of(
                d.skip(j),
            ));
        }
    }
}

/// Appending one newline-terminated, newline-free line appends one line.
pub proof fn lemma_lines_append(buf: Seq<u8>, line: Seq<u8>)
    requires
        buf.len() == 0 || buf[buf.len() - 1] == NL,
        forall|i: int| 0 <= i < line.len() ==> line[i] != NL,
    ensures
        lines_of(buf + line.push(NL)) == lines_of(buf).push(line),
{
    let d = buf + line.push(NL);
    let j = buf.len() as int;
    if j > 0 {
        assert(d[j - 1] == buf[j - 1]);
    }
    lemma_lines_split(d, j);
    assert(d.take(j) =~= buf);
    let tail = d.skip(j);
    assert(tail =~= line.push(NL));
    lemma_first_at_is(line.push(NL), NL, line.len() as int);
    assert(lines_of(line.push(NL)) == seq![line.push(NL).take(line.len() as int)] + lines_of(
        line.push(NL).skip(line.len() as int + 1),
    ));
    assert(line.push(NL).take(line.len() as int) =~= line);
    assert(line.push(NL).skip(line.len() as int + 1) =~= Seq::<u8>::empty());
    assert(lines_of(d) =~= lines_of(buf).push(line));
}

/// Strict lexicographic byte order, the order of the formatted output.
pub open spec fn lex_lt(a: Seq<u8>, b: Seq<u8>) -> bool
    decreases a.len(),
{
    if b.len() == 0 {
        false
    } else if a.len() == 0 {
        true
    } else if a[0] < b[0] {
        true
    } else if a[0] > b[0] {
        false
    } else {
        lex_lt(a.skip(1), b.skip(1))
    }
}

pub proof fn lemma_lex_irrefl(a: Seq<u8>)
    ensures
        !lex_lt(a, a),
    decreases a.len(),
{
    if a.len() > 0 {
        lemma_lex_irrefl(a.skip(1));
    }
}

pub proof fn lemma_lex_trans(a: Seq<u8>, b: Seq<u8>, c: Seq<u8>)
    requires
        lex_lt(a, b),
        lex_lt(b, c),
    ensures
        lex_lt(a, c),
    decreases a.len(),
{
    if a.len() > 0 && b.len() > 0 && c.len() > 0 && a[0] == b[0] && b[0] == c[0] {
        lemma_lex_trans(a.skip(1), b.skip(1), c.skip(1));
    }
}

/// Any two byte strings are ordered or equal.
pub proof fn lemma_lex_connex(a: Seq<u8>, b: Seq<u8>)
    ensures
        lex_lt(a, b) || lex_lt(b, a) || a == b,
    decreases a.len(),
{
    if a.len() > 0 && b.len() > 0 && a[0] == b[0] {
        lemma_lex_connex(a.skip(1), b.skip(1));
        if !lex_lt(a, b) && !lex_lt(b, a) {
            assert(a.skip(1) == b.skip(1));
            assert(a.len() == b.len());
            assert forall|j: int| 0 <= j < a.len() implies a[j] == b[j] by {
                if j > 0 {
                    assert(a.skip(1)[j - 1] == a[j]);
                    assert(b.skip(1)[j - 1] == b[j]);
                }
            }
            assert(a =~= b);
        }
    } else if a.len() == 0 && b.len() == 0 {
        assert(a =~= b);
    }
}

/// A common prefix cancels out of the comparison.
pub proof fn lemma_lex_common_prefix(a: Seq<u8>, b: Seq<u8>, i: int)
    requires
        0 <= i <= a.len(),
        i <= b.len(),
        a.take(i) == b.take(i),
    ensures
        lex_lt(a, b) == lex_lt(a.skip(i), b.skip(i)),
    decreases i,
{
    if i > 0 {
        assert(a.take(i)[0] == a[0]);
        assert(b.take(i)[0] == b[0]);
        assert(a[0] == b[0]);
        assert(a.len() > 0 && b.len() > 0);
        assert(a.skip(1).take(i - 1) =~= a.take(i).skip(1));
        assert(b.skip(1).take(i - 1) =~= b.take(i).skip(1));
        assert(a.skip(1).take(i - 1) == b.skip(1).take(i - 1));
        lemma_lex_common_prefix(a.skip(1), b.skip(1), i - 1);
        assert(a.skip(1).skip(i - 1) =~= a.skip(i));
        assert(b.skip(1).skip(i - 1) =~= b.skip(i));
    } else {
        assert(a.skip(0) =~= a);
        assert(b.skip(0) =~= b);
    }
}

/// Three-way lexicographic comparison of two byte vectors: -1, 0 or 1 as
/// the left is below, equal to or above the right.
pub(crate) fn lex_cmp(a: &Vec<u8>, b: &Vec<u8>) -> (r: i8)
    ensures
        r == -1 <==> lex_lt(a@, b@),
        r == 1 <==> lex_lt(b@, a@),
        r == 0 <==> a@ == b@,
        r == -1 || r == 0 || r == 1,
{
    proof {
        lemma_lex_connex(a@, b@);
        lemma_lex_irrefl(a@);
        lemma_lex_irrefl(b@);
    }
    let mut i: usize = 0;
    while i < a.len() && i < b.len()
        invariant
            0 <= i <= a@.len(),
            i <= b@.len(),
            a@.take(i as int) =~= b@.take(i as int),
        decreases a@.len() - i,
    {
        let x = a[i];
        let y = b[i];
        if x < y {
            proof {
                lemma_lex_common_prefix(a@, b@, i as int);
                assert(lex_lt(a@.skip(i as int), b@.skip(i as int)));
                lemma_lex_common_prefix(b@, a@, i as int);
                assert(!lex_lt(b@.skip(i as int), a@.skip(i as int)));
                if a@ == b@ {
                    assert(false);
                }
            }
            return -1;
        }
        if x > y {
            proof {
                lemma_lex_common_prefix(a@, b@, i as int);
                lemma_lex_common_prefix(b@, a@, i as int);
                assert(lex_lt(b@.skip(i as int), a@.skip(i as int)));
                assert(!lex_lt(a@.skip(i as int), b@.skip(i as int)));
                if a@ == b@ {
                    assert(false);
                }
            }
            return 1;
        }
        proof {
            assert(a@.take(i + 1) =~= a@.take(i as int).push(a@[i as int]));
            assert(b@.take(i + 1) =~= b@.take(i as int).push(b@[i as int]));
        }
        i = i + 1;
    }
    proof {
        lemma_lex_common_prefix(a@, b@, i as int);
        lemma_lex_common_prefix(b@, a@, i as int);
    }
    if a.len() == b.len() {
        proof {
            assert(a@ =~= b@);
        }
        0
    } else if i == a.len() {
        proof {
            assert(lex_lt(a@.skip(i as int), b@.skip(i as int)));
            if a@ == b@ {
                assert(false);
            }
        }
        -1
    } else {
        proof {
            assert(lex_lt(b@.skip(i as int), a@.skip(i as int)));
            if a@ == b@ {
                assert(false);
            }
        }
        1
    }
}

/// Numeric value of a big-endian digit string.
pub open spec fn digits_val(ds: Seq<u8>) -> int
    decreases ds.len(),
{
    if ds.len() == 0 {
        0
    } else {
        digits_val(ds.drop_last()) * 10 + (ds.last() - ZERO)
    }
}

pub open spec fn all_digits(ds: Seq<u8>) -> bool {
    forall|i: int| 0 <= i < ds.len() ==> is_digit(ds[i])
}

/// Digit strings have non-negative values that only grow along prefixes.
pub proof fn lemma_digits_prefix(ds: Seq<u8>, k: int)
    requires
        all_digits(ds),
        0 <= k <= ds.len(),
    ensures
        0 <= digits_val(ds.take(k)) <= digits_val(ds),
    decreases ds.len() - k,
{
    if k == ds.len() {
        assert(ds.take(k) =~= ds);
        lemma_digits_nonneg(ds);
    } else {
        lemma_digits_prefix(ds, k + 1);
        assert(ds.take(k + 1).drop_last() =~= ds.take(k));
        assert(digits_val(ds.take(k + 1)) == digits_val(ds.take(k)) * 10 + (ds.take(k + 1).last()
            - ZERO));
        lemma_digits_nonneg(ds.take(k));
        assert(is_digit(ds[k]));
    }
}

pub proof fn lemma_digits_nonneg(ds: Seq<u8>)
    requires
        all_digits(ds),
    ensures
        digits_val(ds) >= 0,
    decreases ds.len(),
{
    if ds.len() > 0 {
        assert(all_digits(ds.drop_last()));
        lemma_digits_nonneg(ds.drop_last());
        assert(is_digit(ds.last()));
    }
}

/// A value with exactly one fractional digit: one or more integer digits,
/// a dot, one digit, the whole worth at most `VALUE_LIMIT` tenths.
pub open spec fn parse_unsigned_spec(u: Seq<u8>) -> Option<int> {
    if u.len() >= 3 && u[u.len() - 2] == DOT && all_digits(u.take(u.len() - 2)) && is_digit(
        u.last(),
    ) {
        let t = digits_val(u.take(u.len() - 2)) * 10 + (u.last() - ZERO);
        if t <= VALUE_LIMIT {
            Some(t)
        } else {
            None
        }
    } else {
        None
    }
}

/// A corpus value: an optional leading minus before the unsigned form.
pub open spec fn parse_value_spec(v: Seq<u8>) -> Option<int> {
    if v.len() > 0 && v[0] == MINUS {
        match parse_unsigned_spec(v.skip(1)) {
            Some(t) => Some(-t),
            None => None,
        }
    } else {
        parse_unsigned_spec(v)
    }
}

/// A reference-table baseline value without a dot: one or more digits,
/// read as whole units and scaled to tenths.
pub open spec fn parse_whole_spec(u: Seq<u8>) -> Option<int> {
    if u.len() >= 1 && all_digits(u) {
        let t = digits_val(u) * 10;
        if t <= VALUE_LIMIT {
            Some(t)
        } else {
            None
        }
    } else {
        None
    }
}

/// The unsigned part of a reference-table baseline value: the corpus
/// spelling with exactly one fractional digit, or a plain integer
/// spelling.  Finer precision than tenths cannot be held exactly by the
/// value model, so it is refused as malformed rather than rounded.
pub open spec fn parse_baseline_unsigned_spec(u: Seq<u8>) -> Option<int> {
    if first_at(u, DOT) == u.len() {
        parse_whole_spec(u)
    } else {
        parse_unsigned_spec(u)
    }
}

/// A reference-table baseline value: an optional leading minus before the
/// unsigned form.
pub open spec fn parse_baseline_spec(v: Seq<u8>) -> Option<int> {
    if v.len() > 0 && v[0] == MINUS {
        match parse_baseline_unsigned_spec(v.skip(1)) {
            Some(t) => Some(-t),
            None => None,
        }
    } else {
        parse_baseline_unsigned_spec(v)
    }
}

/// Whether the bytes form valid UTF-8 text; a property of the bytes alone.
pub uninterp spec fn utf8_ok(b: Seq<u8>) -> bool;

/// Relies on core::str::from_utf8: it accepts exactly the valid UTF-8 byte
/// windows.
#[verifier::external_body]
pub(crate) fn check_utf8(data: &[u8], start: usize, end: usize) -> (r: bool)
    requires
        start <= end <= data@.len(),
    ensures
        r == utf8_ok(data@.subrange(start as int, end as int)),
{
    core::str::from_utf8(&data[start..end]).is_ok()
}

/// A corpus line: entity name, first semicolon, value.  The name must be
/// valid UTF-8 and the value must carry exactly one fractional digit.
pub open spec fn parse_line_spec(l: Seq<u8>) -> Option<(Seq<u8>, int)> {
    let s = first_at(l, SEMI);
    if s >= l.len() {
        None
    } else if !utf8_ok(l.take(s)) {
        None
    } else {
        match parse_value_spec(l.skip(s + 1)) {
            Some(t) => Some((l.take(s), t)),
            None => None,
        }
    }
}

/// Decimal digit string of `n`, most significant digit first.
pub open spec fn digits_of(n: nat) -> Seq<u8>
    decreases n,
{
    if n < 10 {
        seq![(48 + n) as u8]
    } else {
        digits_of(n / 10).push((48 + n % 10) as u8)
    }
}

/// The canonical rendering of a value in tenths: optional minus, the whole
/// part without leading zeros, a dot, and exactly one fractional digit.
pub open spec fn render_tenths(t: int) -> Seq<u8> {
    let m = if t < 0 {
        -t
    } else {
        t
    };
    let body = digits_of((m / 10) as nat).push(DOT).push((48 + m % 10) as u8);
    if t < 0 {
        seq![MINUS] + body
    } else {
        body
    }
}

pub proof fn lemma_digits_of(n: nat)
    ensures
        digits_of(n).len() >= 1,
        all_digits(digits_of(n)),
        digits_val(digits_of(n)) == n,
    decreases n,
{
    if n < 10 {
        assert(digits_val(digits_of(n)) == digits_val(Seq::<u8>::empty()) * 10 + ((48 + n) as u8
            - ZERO)) by {
            assert(digits_of(n).drop_last() =~= Seq::<u8>::empty());
        }
    } else {
        lemma_digits_of(n / 10);
        let d = ((48 + n % 10) as u8);
        assert(digits_of(n).drop_last() =~= digits_of(n / 10));
        assert(digits_val(digits_of(n)) == (n / 10) * 10 + n % 10);
        assert((n / 10) * 10 + n % 10 == n) by (nonlinear_arith);
    }
}

/// Rendering is parsed back to the very value: the corpus grammar and the
/// canonical rendering agree on every representable value.  The rendering
/// also never contains a separator or a newline, so it can stand as the
/// value field of a line.
pub proof fn lemma_render_parses(t: int)
    requires
        value_ok(t),
    ensures
        parse_value_spec(render_tenths(t)) == Some(t),
        render_tenths(t).len() >= 3,
        forall|i: int|
            0 <= i < render_tenths(t).len() ==> render_tenths(t)[i] != SEMI && render_tenths(t)[i]
                != NL,
{
    let m = if t < 0 {
        -t
    } else {
        t
    };
    let dd = digits_of((m / 10) as nat);
    let body = dd.push(DOT).push((48 + m % 10) as u8);
    lemma_digits_of((m / 10) as nat);
    vstd::arithmetic::div_mod::lemma_fundamental_div_mod(m, 10);
    assert(0 <= m % 10 < 10);
    assert(body.len() == dd.len() + 2);
    assert(body[body.len() - 2] == DOT);
    assert(body.last() == (48 + m % 10) as u8);
    assert(is_digit(body.last()));
    assert(body.take(body.len() - 2) =~= dd);
    let tv = digits_val(dd) * 10 + (body.last() - ZERO);
    assert(tv == (m / 10) * 10 + m % 10);
    assert(tv == m);
    assert(parse_unsigned_spec(body) == Some(m)) by {
        assert(body[0] == dd[0] || body[0] == DOT || is_digit(body[0]));
    }
    assert(is_digit(body[0])) by {
        assert(body[0] == dd[0]);
    }
    if t < 0 {
        let r = seq![MINUS] + body;
        assert(render_tenths(t) == r);
        assert(r[0] == MINUS);
        assert(r.skip(1) =~= body);
        assert(parse_value_spec(r) == Some(-m));
        assert(forall|i: int| 0 <= i < r.len() ==> r[i] != SEMI && r[i] != NL) by {
            assert(forall|i: int| 0 <= i < body.len() ==> body[i] != SEMI && body[i] != NL);
            assert(forall|i: int| 1 <= i < r.len() ==> r[i] == body[i - 1]);
        }
    } else {
        assert(render_tenths(t) == body);
        assert(body[0] != MINUS);
        assert(parse_value_spec(body) == Some(m));
        assert(forall|i: int| 0 <= i < body.len() ==> body[i] != SEMI && body[i] != NL);
    }
}

/// Appends the decimal digits of `n` to the buffer.
pub(crate) fn push_digits(out: &mut Vec<u8>, n: u64)
    ensures
        final(out)@ == old(out)@ + digits_of(n as nat),
    decreases n,
{
    if n < 10 {
        out.push(ZERO + n as u8);
        proof {
            assert(out@ =~= old(out)@ + digits_of(n as nat));
        }
    } else {
        push_digits(out, n / 10);
        out.push(ZERO + (n % 10) as u8);
        proof {
            assert(out@ =~= old(out)@ + digits_of(n as nat));
        }
    }
}

/// Appends the canonical rendering of `t` tenths to the buffer.
pub(crate) fn push_tenths(out: &mut Vec<u8>, t: i64)
    requires
        value_ok(t as int),
    ensures
        final(out)@ == old(out)@ + render_tenths(t as int),
{
    let m: u64 = if t < 0 {
        (-t) as u64
    } else {
        t as u64
    };
    if t < 0 {
        out.push(MINUS);
    }
    push_digits(out, m / 10);
    out.push(DOT);
    out.push(ZERO + (m % 10) as u8);
    proof {
        assert(out@ =~= old(out)@ + render_tenths(t as int));
    }
}

/// No line ever contains a newline byte.
pub proof fn lemma_lines_no_nl(d: Seq<u8>)
    ensures
        forall|i: int, j: int|
            0 <= i < lines_of(d).len() && 0 <= j < lines_of(d)[i].len()
                ==> #[trigger] lines_of(d)[i][j] != NL,
    decreases d.len(),
{
    if d.len() != 0 {
        lemma_first_at(d, NL);
        let f = first_at(d, NL);
        if f < d.len() {
            lemma_lines_no_nl(d.skip(f + 1));
            assert forall|i: int, j: int|
                0 <= i < lines_of(d).len() && 0 <= j < lines_of(d)[i].len() implies
                #[trigger] lines_of(d)[i][j] != NL by {
                if i == 0 {
                    assert(lines_of(d)[0] == d.take(f));
                    assert(d.take(f)[j] == d[j]);
                } else {
                    assert(lines_of(d)[i] == lines_of(d.skip(f + 1))[i - 1]);
                }
            }
        } else {
            assert forall|i: int, j: int|
                0 <= i < lines_of(d).len() && 0 <= j < lines_of(d)[i].len() implies
                #[trigger] lines_of(d)[i][j] != NL by {
                assert(lines_of(d)[i] == d);
            }
        }
    }
}

/// A reference-table row: entity name, first semicolon, baseline value.
/// The same shape as a corpus line, but the value also admits the plain
/// integer spelling.
pub open spec fn parse_row_spec(l: Seq<u8>) -> Option<(Seq<u8>, int)> {
    let s = first_at(l, SEMI);
    if s >= l.len() {
        None
    } else if !utf8_ok(l.take(s)) {
        None
    } else {
        match parse_baseline_spec(l.skip(s + 1)) {
            Some(t) => Some((l.take(s), t)),
            None => None,
        }
    }
}

/// One row's record: its parsed name and baseline.  Meaningful only on
/// rows the row grammar accepts.
pub open spec fn row_of_line(l: Seq<u8>) -> (Seq<u8>, int) {
    match parse_row_spec(l) {
        Some(r) => r,
        None => (Seq::empty(), 0),
    }
}

/// Whether every row of the reference table parses.
pub open spec fn rows_ok(d: Seq<u8>) -> bool {
    forall|i: int|
        0 <= i < lines_of(d).len() ==> parse_row_spec(#[trigger] lines_of(d)[i]) is Some
}

/// The record sequence of a reference table, row by row.
pub open spec fn row_records_of(d: Seq<u8>) -> Seq<(Seq<u8>, int)> {
    lines_of(d).map_values(|l: Seq<u8>| row_of_line(l))
}

/// One line's record: its parsed name and value.  Meaningful only on
/// lines the grammar accepts.
pub open spec fn record_of_line(l: Seq<u8>) -> (Seq<u8>, int) {
    match parse_line_spec(l) {
        Some(r) => r,
        None => (Seq::empty(), 0),
    }
}

/// Whether every line of the corpus parses.
pub open spec fn parses_ok(d: Seq<u8>) -> bool {
    forall|i: int|
        0 <= i < lines_of(d).len() ==> parse_line_spec(#[trigger] lines_of(d)[i]) is Some
}

/// The record sequence of a corpus, line by line.
pub open spec fn records_of(d: Seq<u8>) -> Seq<(Seq<u8>, int)> {
    lines_of(d).map_values(|l: Seq<u8>| record_of_line(l))
}

/// Index of the first `c` in `data[start..end]`, or `end` when absent.
pub(crate) fn find_byte(data: &[u8], start: usize, end: usize, c: u8) -> (r: usize)
    requires
        start <= end <= data@.len(),
    ensures
        start <= r <= end,
        r < end ==> data@[r as int] == c,
        forall|j: int| start <= j < r ==> data@[j] != c,
        first_at(data@.subrange(start as int, end as int), c) == r - start,
{
    let mut i: usize = start;
    while i < end
        invariant
            start <= i <= end <= data@.len(),
            forall|j: int| start <= j < i ==> data@[j] != c,
        decreases end - i,
    {
        if data[i] == c {
            proof {
                let w = data@.subrange(start as int, end as int);
                lemma_first_at_is(w, c, i - start);
            }
            return i;
        }
        i = i + 1;
    }
    proof {
        let w = data@.subrange(start as int, end as int);
        lemma_first_at_is(w, c, end - start);
    }
    end
}

/// Parses the value in `data[start..end]`.  Returns the value in tenths on
/// the grammar `-?digits.digit` bounded by `VALUE_LIMIT`, and a parse error
/// on exactly the windows the grammar refuses.
#[verifier::loop_isolation(false)]
pub(crate) fn parse_value(data: &[u8], start: usize, end: usize) -> (r: Result<i64, Error>)
    requires
        start <= end <= data@.len(),
    ensures
        match r {
            Ok(t) => parse_value_spec(data@.subrange(start as int, end as int)) == Some(t as int)
                && value_ok(t as int),
            Err(e) => e == Error::Parse && parse_value_spec(
                data@.subrange(start as int, end as int),
            ) is None,
        },
{
    let ghost w = data@.subrange(start as int, end as int);
    let mut ds: usize = start;
    let mut neg = false;
    if start < end && data[start] == MINUS {
        neg = true;
        ds = start + 1;
    }
    let ghost u = if neg {
        w.skip(1)
    } else {
        w
    };
    proof {
        assert(u =~= data@.subrange(ds as int, end as int));
    }
    if end - ds < 3 {
        return Err(Error::Parse);
    }
    if data[end - 2] != DOT {
        return Err(Error::Parse);
    }
    let fb = data[end - 1];
    if !(ZERO <= fb && fb <= 57) {
        return Err(Error::Parse);
    }
    let ghost intpart = u.take(u.len() - 2);
    proof {
        assert(intpart =~= data@.subrange(ds as int, end - 2));
        assert(u.last() == data@[end - 1]);
        assert(u[u.len() - 2] == data@[end - 2]);
    }
    let mut acc: i64 = 0;
    let mut j: usize = ds;
    while j < end - 2
        invariant
            start <= ds <= j <= end - 2,
            end <= data@.len(),
            end - ds >= 3,
            0 <= acc <= VALUE_LIMIT,
            intpart =~= data@.subrange(ds as int, end - 2),
            acc == digits_val(data@.subrange(ds as int, j as int)),
            all_digits(data@.subrange(ds as int, j as int)),
        decreases end - 2 - j,
    {
        let b = data[j];
        if !(ZERO <= b && b <= 57) {
            assert(!is_digit(intpart[j - ds]));
            return Err(Error::Parse);
        }
        proof {
            assert(data@.subrange(ds as int, j + 1).drop_last() =~= data@.subrange(
                ds as int,
                j as int,
            ));
        }
        let t = acc * 10 + (b - ZERO) as i64;
        if t > VALUE_LIMIT {
            proof {
                assert(data@.subrange(ds as int, j + 1) =~= intpart.take(j + 1 - ds));
                assert(digits_val(intpart.take(j + 1 - ds)) == t as int);
                if parse_unsigned_spec(u) is Some {
                    assert(all_digits(intpart));
                    lemma_digits_prefix(intpart, j + 1 - ds);
                    assert(digits_val(intpart) >= t as int);
                    assert(digits_val(intpart) * 10 >= digits_val(intpart)) by (nonlinear_arith)
                        requires
                            digits_val(intpart) >= 0,
                    ;
                    assert(is_digit(u.last()));
                    assert(digits_val(intpart) * 10 + (u.last() - ZERO) <= VALUE_LIMIT);
                    assert(false);
                }
            }
            return Err(Error::Parse);
        }
        acc = t;
        j = j + 1;
    }
    proof {
        assert(data@.subrange(ds as int, end - 2) =~= intpart);
        assert(u.last() == data@[end - 1]);
        assert(u[u.len() - 2] == data@[end - 2]);
    }
    let t = acc * 10 + (fb - ZERO) as i64;
    if t > VALUE_LIMIT {
        return Err(Error::Parse);
    }
    if neg {
        Ok(-t)
    } else {
        Ok(t)
    }
}

/// Parses one corpus line held in `data[start..end]` into its entity name
/// and value.  Fails with a parse error exactly where the line grammar
/// fails: no separator, a name that is not UTF-8, or a malformed value.
pub fn parse_line(data: &[u8], start: usize, end: usize) -> (r: Result<(Vec<u8>, i64), Error>)
    requires
        start <= end <= data@.len(),
    ensures
        match r {
            Ok(p) => {
                &&& parse_line_spec(data@.subrange(start as int, end as int)) == Some(
                    (p.0@, p.1 as int),
                )
                &&& value_ok(p.1 as int)
                &&& forall|i: int| 0 <= i < p.0@.len() ==> p.0@[i] != SEMI
            },
            Err(e) => e == Error::Parse && parse_line_spec(
                data@.subrange(start as int, end as int),
            ) is None,
        },
{
    let ghost w = data@.subrange(start as int, end as int);
    let s = find_byte(data, start, end, SEMI);
    if s == end {
        return Err(Error::Parse);
    }
    proof {
        assert(w.take(s - start) =~= data@.subrange(start as int, s as int));
    }
    if !check_utf8(data, start, s) {
        return Err(Error::Parse);
    }
    proof {
        assert(w.skip(s - start + 1) =~= data@.subrange(s + 1, end as int));
    }
    let v = match parse_value(data, s + 1, end) {
        Ok(v) => v,
        Err(e) => {
            return Err(e);
        },
    };
    let mut name: Vec<u8> = Vec::new();
    let mut i: usize = start;
    while i < s
        invariant
            start <= i <= s <= end <= data@.len(),
            name@ =~= data@.subrange(start as int, i as int),
        decreases s - i,
    {
        let b = data[i];
        name.push(b);
        i = i + 1;
        proof {
            assert(name@ =~= data@.subrange(start as int, i as int));
        }
    }
    proof {
        assert(name@ =~= w.take(s - start));
    }
    Ok((name, v))
}

/// Parses a reference-table baseline value in `data[start..end]`: the
/// corpus spelling with exactly one fractional digit, or a plain integer
/// spelling scaled to tenths.  Precision finer than tenths is refused as
/// malformed rather than rounded, since the value model holds tenths
/// exactly.
#[verifier::loop_isolation(false)]
pub(crate) fn parse_baseline(data: &[u8], start: usize, end: usize) -> (r: Result<i64, Error>)
    requires
        start <= end <= data@.len(),
    ensures
        match r {
            Ok(t) => parse_baseline_spec(data@.subrange(start as int, end as int)) == Some(
                t as int,
            ) && value_ok(t as int),
            Err(e) => e == Error::Parse && parse_baseline_spec(
                data@.subrange(start as int, end as int),
            ) is None,
        },
{
    let ghost w = data@.subrange(start as int, end as int);
    let mut ds: usize = start;
    let mut neg = false;
    if start < end && data[start] == MINUS {
        neg = true;
        ds = start + 1;
    }
    let ghost u = if neg {
        w.skip(1)
    } else {
        w
    };
    proof {
        assert(u =~= data@.subrange(ds as int, end as int));
    }
    let dot = find_byte(data, ds, end, DOT);
    proof {
        assert(first_at(u, DOT) == dot - ds);
    }
    if dot < end {
        // a dot: the corpus value grammar decides
        let r = parse_value(data, start, end);
        proof {
            assert(parse_baseline_unsigned_spec(u) == parse_unsigned_spec(u));
            assert(parse_baseline_spec(w) == parse_value_spec(w));
        }
        return r;
    }
    // no dot: a whole number of units
    if ds == end {
        return Err(Error::Parse);
    }
    let mut acc: i64 = 0;
    let mut j: usize = ds;
    while j < end
        invariant
            start <= ds <= j <= end,
            ds < end,
            end <= data@.len(),
            0 <= acc,
            acc * 10 <= VALUE_LIMIT,
            acc == digits_val(data@.subrange(ds as int, j as int)),
            all_digits(data@.subrange(ds as int, j as int)),
        decreases end - j,
    {
        let b = data[j];
        if !(ZERO <= b && b <= 57) {
            assert(!is_digit(u[j - ds]));
            return Err(Error::Parse);
        }
        proof {
            assert(data@.subrange(ds as int, j + 1).drop_last() =~= data@.subrange(
                ds as int,
                j as int,
            ));
        }
        let t = acc * 10 + (b - ZERO) as i64;
        if t > VALUE_LIMIT / 10 {
            proof {
                assert(data@.subrange(ds as int, j + 1) =~= u.take(j + 1 - ds));
                assert(digits_val(u.take(j + 1 - ds)) == t as int);
                if parse_baseline_spec(w) is Some {
                    assert(all_digits(u));
                    lemma_digits_prefix(u, j + 1 - ds);
                    assert(digits_val(u) >= t as int);
                    assert(digits_val(u) * 10 <= VALUE_LIMIT);
                    assert(false);
                }
            }
            return Err(Error::Parse);
        }
        acc = t;
        j = j + 1;
    }
    proof {
        assert(data@.subrange(ds as int, end as int) =~= u);
        assert(u.len() >= 1);
    }
    let v = acc * 10;
    if neg {
        Ok(-v)
    } else {
        Ok(v)
    }
}

/// Parses one reference-table row held in `data[start..end]` into its
/// entity name and baseline value in tenths.  Fails with a parse error
/// exactly where the row grammar fails.
pub fn parse_row(data: &[u8], start: usize, end: usize) -> (r: Result<(Vec<u8>, i64), Error>)
    requires
        start <= end <= data@.len(),
    ensures
        match r {
            Ok(p) => {
                &&& parse_row_spec(data@.subrange(start as int, end as int)) == Some(
                    (p.0@, p.1 as int),
                )
                &&& value_ok(p.1 as int)
                &&& forall|i: int| 0 <= i < p.0@.len() ==> p.0@[i] != SEMI
            },
            Err(e) => e == Error::Parse && parse_row_spec(
                data@.subrange(start as int, end as int),
            ) is None,
        },
{
    let ghost w = data@.subrange(start as int, end as int);
    let s = find_byte(data, start, end, SEMI);
    if s == end {
        return Err(Error::Parse);
    }
    proof {
        assert(w.take(s - start) =~= data@.subrange(start as int, s as int));
    }
    if !check_utf8(data, start, s) {
        return Err(Error::Parse);
    }
    proof {
        assert(w.skip(s - start + 1) =~= data@.subrange(s + 1, end as int));
    }
    let v = match parse_baseline(data, s + 1, end) {
        Ok(v) => v,
        Err(e) => {
            return Err(e);
        },
    };
    let mut name: Vec<u8> = Vec::new();
    let mut i: usize = start;
    while i < s
        invariant
            start <= i <= s <= end <= data@.len(),
            name@ =~= data@.subrange(start as int, i as int),
        decreases s - i,
    {
        let b = data[i];
        name.push(b);
        i = i + 1;
        proof {
            assert(name@ =~= data@.subrange(start as int, i as int));
        }
    }
    proof {
        assert(name@ =~= w.take(s - start));
    }
    Ok((name, v))
}

} // verus!
