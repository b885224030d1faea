//! The human-readable text form of pattern rules.
//!
//! A rule serializes as the row boundary spec, the column boundary spec and
//! one block per pattern, the parts separated by `;` and blank lines; each
//! pattern block holds its chance, its priority and the character form of
//! its `before` and `after` templates. Chance and priority are written as
//! decimal fixed-point numbers in parts of
//! [`CHANCE_SCALE`](crate::rule::pattern_rule::CHANCE_SCALE). Parsing
//! recovers an equivalent rule and rejects malformed text with an explicit
//! error instead of falling back to defaults.

use crate::cell_grid::{
    col_count, grid_cols, grid_from_vec, grid_rows, grid_wf, row_count, view_of, CellGrid,
    GridView,
};
use crate::error::CelluminaError;
use crate::rule::pattern_rule::{
    pattern_view, pattern_views, pattern_wf, Pattern, PatternRule, PatternView,
};
use crate::rule::BoundaryBehaviour;
use crate::{char_to_id, id_to_char, representable, spec_id_to_char};
use vstd::prelude::*;

verus! {

/// The decimal digits of `n`, most significant first; empty for 0.
pub open spec fn dec_rep(n: nat) -> Seq<u8>
    decreases n,
{
    if n == 0 {
        Seq::empty()
    } else {
        dec_rep(n / 10) + seq![(48 + n % 10) as u8]
    }
}

/// The decimal text of `n` (just `0` for 0).
pub open spec fn fmt_nat(n: nat) -> Seq<u8> {
    if n == 0 {
        seq![48u8]
    } else {
        dec_rep(n)
    }
}

/// The `w` least significant decimal digits of `n`, zero-padded.
pub open spec fn dec_width(n: nat, w: nat) -> Seq<u8>
    decreases w,
{
    if w == 0 {
        Seq::empty()
    } else {
        dec_width(n / 10, (w - 1) as nat) + seq![(48 + n % 10) as u8]
    }
}

/// The digits with trailing zeros removed.
pub open spec fn trim_zeros(s: Seq<u8>) -> Seq<u8>
    decreases s.len(),
{
    if s.len() > 0 && s.last() == 48u8 {
        trim_zeros(s.drop_last())
    } else {
        s
    }
}

/// The decimal fixed-point text of `n` parts of a million: the integer
/// part, then (when the fraction is not zero) a point and the fraction's
/// digits without trailing zeros.
pub open spec fn fmt_fixed(n: nat) -> Seq<u8> {
    let ip = n / 1000000;
    let fp = n % 1000000;
    if fp == 0 {
        fmt_nat(ip)
    } else {
        fmt_nat(ip) + seq![46u8] + trim_zeros(dec_width(fp, 6))
    }
}

/// The decimal fixed-point text of a possibly negative value.
pub open spec fn fmt_fixed_signed(n: int) -> Seq<u8> {
    if n < 0 {
        seq![45u8] + fmt_fixed((-n) as nat)
    } else {
        fmt_fixed(n as nat)
    }
}

/// Appends the decimal digits of a positive value.
fn push_digits(out: &mut Vec<u8>, n: u64)
    requires
        n > 0,
    ensures
        final (out)@ == old(out)@ + dec_rep(n as nat),
    decreases n,
{
    if n >= 10 {
        push_digits(out, n / 10);
    }
    out.push(48 + (n % 10) as u8);
    proof {
        if n < 10 {
            assert(dec_rep((n as nat) / 10) =~= Seq::<u8>::empty());
        }
        assert(final (out)@ =~= old(out)@ + dec_rep(n as nat));
    }
}

/// Appends the decimal text of a value.
fn push_decimal(out: &mut Vec<u8>, n: u64)
    ensures
        final (out)@ == old(out)@ + fmt_nat(n as nat),
{
    if n == 0 {
        out.push(48);
        proof {
            assert(final (out)@ =~= old(out)@ + fmt_nat(0));
        }
    } else {
        push_digits(out, n);
    }
}

/// Appends the `w` least significant decimal digits of a value.
fn push_width(out: &mut Vec<u8>, n: u64, w: u8)
    ensures
        final (out)@ == old(out)@ + dec_width(n as nat, w as nat),
    decreases w,
{
    if w > 0 {
        push_width(out, n / 10, w - 1);
        out.push(48 + (n % 10) as u8);
        proof {
            assert(final (out)@ =~= old(out)@ + dec_width(n as nat, w as nat));
        }
    } else {
        proof {
            assert(final (out)@ =~= old(out)@ + dec_width(n as nat, 0));
        }
    }
}

/// Appends the decimal fixed-point text of `n` parts of a million.
fn push_fixed(out: &mut Vec<u8>, n: u64)
    ensures
        final (out)@ == old(out)@ + fmt_fixed(n as nat),
{
    let ip = n / 1000000;
    let fp = n % 1000000;
    push_decimal(out, ip);
    if fp != 0 {
        out.push(46);
        let mut digits: Vec<u8> = Vec::new();
        push_width(&mut digits, fp, 6);
        proof {
            assert(digits@ =~= dec_width(fp as nat, 6));
        }
        while digits.len() > 0 && digits[digits.len() - 1] == 48
            invariant
                trim_zeros(digits@) == trim_zeros(dec_width(fp as nat, 6)),
            decreases digits@.len(),
        {
            let ghost before = digits@;
            digits.pop();
            proof {
                assert(digits@ =~= before.drop_last());
                assert(trim_zeros(before) == trim_zeros(digits@));
            }
        }
        proof {
            assert(trim_zeros(digits@) == digits@);
        }
        let mut di: usize = 0;
        let dn = digits.len();
        while di < dn
            invariant
                dn == digits@.len(),
                di <= dn,
                out@ == old(out)@ + fmt_nat((n as nat) / 1000000) + seq![46u8] + digits@.take(
                    di as int,
                ),
            decreases dn - di,
        {
            let b = digits[di];
            out.push(b);
            proof {
                assert(digits@.take(di as int + 1) =~= digits@.take(di as int).push(b));
                assert(out@ =~= old(out)@ + fmt_nat((n as nat) / 1000000) + seq![46u8]
                    + digits@.take(di as int + 1));
            }
            di += 1;
        }
        proof {
            assert(digits@.take(dn as int) =~= digits@);
            assert(fmt_fixed(n as nat) =~= fmt_nat((n as nat) / 1000000) + seq![46u8] + digits@);
            assert(out@ =~= old(out)@ + fmt_fixed(n as nat));
        }
    } else {
        proof {
            assert(final (out)@ =~= old(out)@ + fmt_fixed(n as nat));
        }
    }
}

/// Appends the decimal fixed-point text of a signed value.
fn push_fixed_signed(out: &mut Vec<u8>, n: i64)
    ensures
        final (out)@ == old(out)@ + fmt_fixed_signed(n as int),
{
    if n < 0 {
        out.push(45);
        let m: u64 = (-(n as i128)) as u64;
        proof {
            assert(m as nat == (-(n as int)) as nat);
        }
        push_fixed(out, m);
        proof {
            assert(final (out)@ =~= old(out)@ + fmt_fixed_signed(n as int));
        }
    } else {
        push_fixed(out, n as u64);
    }
}


/// A decimal digit byte.
pub open spec fn is_digit(b: u8) -> bool {
    48 <= b <= 57
}

/// The value of a sequence of decimal digit bytes.
pub open spec fn dec_val(s: Seq<u8>) -> nat
    decreases s.len(),
{
    if s.len() == 0 {
        0
    } else {
        dec_val(s.drop_last()) * 10 + (if s.last() >= 48 {
            (s.last() - 48) as nat
        } else {
            0
        })
    }
}

/// The digits of a value represent that value, and are digit bytes.
proof fn lemma_dec_rep_val(n: nat)
    ensures
        dec_val(dec_rep(n)) == n,
        forall|i: int| 0 <= i < dec_rep(n).len() ==> is_digit(#[trigger] dec_rep(n)[i]),
    decreases n,
{
    if n > 0 {
        lemma_dec_rep_val(n / 10);
        let s = dec_rep(n);
        let head = dec_rep(n / 10);
        assert(s == head + seq![(48 + n % 10) as u8]);
        assert(s.drop_last() =~= head);
        assert(s.last() == (48 + n % 10) as u8);
        assert(dec_val(s) == dec_val(head) * 10 + n % 10);
        vstd::arithmetic::div_mod::lemma_fundamental_div_mod(n as int, 10);
        assert(forall|i: int| 0 <= i < head.len() ==> s[i] == #[trigger] head[i]);
    }
}

/// The fixed-width digits of a value represent it modulo the width's power
/// of ten, and are digit bytes.
proof fn lemma_dec_width_val(n: nat, w: nat)
    ensures
        dec_val(dec_width(n, w)) == n % (vstd::arithmetic::power::pow(10, w) as nat),
        dec_width(n, w).len() == w,
        forall|i: int| 0 <= i < w ==> is_digit(#[trigger] dec_width(n, w)[i]),
    decreases w,
{
    vstd::arithmetic::power::lemma_pow_positive(10, w);
    if w == 0 {
        vstd::arithmetic::power::lemma_pow0(10);
        vstd::arithmetic::div_mod::lemma_small_mod(0, 1);
        assert(n % 1 == 0) by {
            vstd::arithmetic::div_mod::lemma_mod_self_0(1);
            vstd::arithmetic::div_mod::lemma_mod_bound(n as int, 1);
        }
    } else {
        lemma_dec_width_val(n / 10, (w - 1) as nat);
        let s = dec_width(n, w);
        let head = dec_width(n / 10, (w - 1) as nat);
        assert(s == head + seq![(48 + n % 10) as u8]);
        assert(s.drop_last() =~= head);
        assert(forall|i: int| 0 <= i < head.len() ==> s[i] == #[trigger] head[i]);
        let pw = vstd::arithmetic::power::pow(10, w) as nat;
        let pw1 = vstd::arithmetic::power::pow(10, (w - 1) as nat) as nat;
        assert(pw == 10 * pw1) by {
            vstd::arithmetic::power::lemma_pow_adds(10, (w - 1) as nat, 1);
            vstd::arithmetic::power::lemma_pow1(10);
        }
        assert(dec_val(s) == ((n / 10) % pw1) * 10 + n % 10);
        vstd::arithmetic::div_mod::lemma_breakdown(n as int, 10, pw1 as int);
        assert((n as int) % (10 * (pw1 as int)) == 10 * (((n as int) / 10) % (pw1 as int)) + (
        n as int) % 10);
        assert(10 * (((n as int) / 10) % (pw1 as int)) == (((n as int) / 10) % (pw1 as int)) * 10)
            by (nonlinear_arith);
    }
}

/// Trimming trailing zero digits divides the value by the matching power of
/// ten: the value of the trimmed digits times ten for each removed digit
/// gives back the untrimmed value.
proof fn lemma_trim_zeros_val(s: Seq<u8>)
    ensures
        dec_val(trim_zeros(s)) * (vstd::arithmetic::power::pow(
            10,
            (s.len() - trim_zeros(s).len()) as nat,
        ) as nat) == dec_val(s),
        trim_zeros(s).len() <= s.len(),
        (forall|i: int| 0 <= i < s.len() ==> is_digit(#[trigger] s[i])) ==> (forall|i: int|
            0 <= i < trim_zeros(s).len() ==> is_digit(#[trigger] trim_zeros(s)[i])),
        trim_zeros(s).len() > 0 ==> trim_zeros(s).last() != 48,
        dec_val(s) > 0 ==> trim_zeros(s).len() > 0,
    decreases s.len(),
{
    vstd::arithmetic::power::lemma_pow_positive(10, (s.len() - trim_zeros(s).len()) as nat);
    if s.len() > 0 && s.last() == 48u8 {
        lemma_trim_zeros_val(s.drop_last());
        let t = trim_zeros(s);
        assert(t == trim_zeros(s.drop_last()));
        assert(dec_val(s) == dec_val(s.drop_last()) * 10);
        let w1 = (s.len() - 1 - t.len()) as nat;
        let w = (s.len() - t.len()) as nat;
        assert(vstd::arithmetic::power::pow(10, w) == 10 * vstd::arithmetic::power::pow(10, w1))
            by {
            vstd::arithmetic::power::lemma_pow_adds(10, w1, 1);
            vstd::arithmetic::power::lemma_pow1(10);
        }
        assert(dec_val(t) * (vstd::arithmetic::power::pow(10, w1) as nat) == dec_val(
            s.drop_last(),
        ));
        let dt = dec_val(t) as int;
        let p1 = vstd::arithmetic::power::pow(10, w1);
        assert(dt * (10 * p1) == (dt * p1) * 10) by (nonlinear_arith);
        assert(dt * (vstd::arithmetic::power::pow(10, w) as int) == (dec_val(s.drop_last()) as int)
            * 10);
        assert(dec_val(t) * (vstd::arithmetic::power::pow(10, w) as nat) == dec_val(s));
        assert(forall|i: int| 0 <= i < s.len() - 1 ==> s.drop_last()[i] == #[trigger] s[i]);
    } else {
        assert(trim_zeros(s) == s);
        vstd::arithmetic::power::lemma_pow0(10);
        assert((s.len() - trim_zeros(s).len()) as nat == 0);
        assert(vstd::arithmetic::power::pow(10, 0) as nat == 1);
        assert(dec_val(trim_zeros(s)) * 1 == dec_val(s)) by (nonlinear_arith)
            requires
                trim_zeros(s) == s,
        ;
    }
}

/// A digit run extending another has at least its value.
proof fn lemma_dec_val_prefix(s: Seq<u8>, t: Seq<u8>)
    requires
        t.len() <= s.len(),
        forall|i: int| 0 <= i < t.len() ==> t[i] == s[i],
    ensures
        dec_val(s) >= dec_val(t),
    decreases s.len(),
{
    if t.len() < s.len() {
        assert(forall|i: int| 0 <= i < t.len() ==> t[i] == #[trigger] s.drop_last()[i]);
        lemma_dec_val_prefix(s.drop_last(), t);
    } else {
        assert(t =~= s);
    }
}

/// Reads a maximal run of decimal digits starting at `pos` and returns its
/// value; fails when no digit stands at `pos` or the value does not fit.
fn parse_digits(bytes: &Vec<u8>, pos: usize) -> (res: Result<(u64, usize), CelluminaError>)
    requires
        pos <= bytes@.len(),
    ensures
        match res {
            Ok((v, p2)) => {
                &&& pos < p2 <= bytes@.len()
                &&& forall|i: int| pos <= i < p2 ==> is_digit(#[trigger] bytes@[i])
                &&& (p2 == bytes@.len() || !is_digit(bytes@[p2 as int]))
                &&& v as nat == dec_val(bytes@.subrange(pos as int, p2 as int))
            },
            Err(_) => pos == bytes@.len() || !is_digit(bytes@[pos as int]) || (exists|e: int|
                pos < e <= bytes@.len() && (forall|i: int|
                    pos <= i < e ==> is_digit(#[trigger] bytes@[i])) && dec_val(
                    bytes@.subrange(pos as int, e),
                ) > u64::MAX),
        },
        (pos == bytes@.len() || !is_digit(bytes@[pos as int])) ==> res is Err,
{
    let n = bytes.len();
    if pos >= n || bytes[pos] < 48 || bytes[pos] > 57 {
        return Err(CelluminaError::CustomError(parse_error_text()));
    }
    let mut acc: u64 = 0;
    let mut p: usize = pos;
    while p < n && bytes[p] >= 48 && bytes[p] <= 57
        invariant
            pos <= p <= n,
            n == bytes@.len(),
            forall|i: int| pos <= i < p ==> is_digit(#[trigger] bytes@[i]),
            acc as nat == dec_val(bytes@.subrange(pos as int, p as int)),
        decreases n - p,
    {
        let d = bytes[p] - 48;
        if acc > 1844674407370955161 || (acc == 1844674407370955161 && d > 5) {
            proof {
                let run = bytes@.subrange(pos as int, p as int + 1);
                assert(run.drop_last() =~= bytes@.subrange(pos as int, p as int));
                assert(run.last() == bytes@[p as int]);
                assert(dec_val(run) == (acc as nat) * 10 + d);
                assert(pos < p as int + 1 <= bytes@.len() && (forall|i: int|
                    pos <= i < p as int + 1 ==> is_digit(#[trigger] bytes@[i])) && dec_val(
                    bytes@.subrange(pos as int, p as int + 1),
                ) > u64::MAX);
            }
            return Err(CelluminaError::CustomError(parse_error_text()));
        }
        proof {
            let run = bytes@.subrange(pos as int, p as int + 1);
            assert(run.drop_last() =~= bytes@.subrange(pos as int, p as int));
            assert(run.last() == bytes@[p as int]);
            assert((acc as nat) * 10 + d <= u64::MAX);
        }
        acc = acc * 10 + (d as u64);
        p += 1;
    }
    Ok((acc, p))
}

/// Relies on the std `String::from` conversion for the fixed parse-error
/// message.
#[verifier::external_body]
fn parse_error_text() -> (s: String)
    ensures
        s@.len() > 0,
{
    String::from("malformed rule text")
}


/// The text of a boundary policy: `Periodic`, or `Symbol:` followed by the
/// symbol's character form.
pub open spec fn fmt_boundary(b: BoundaryBehaviour) -> Seq<u8> {
    match b {
        BoundaryBehaviour::Periodic => seq![80u8, 101u8, 114u8, 105u8, 111u8, 100u8, 105u8, 99u8],
        BoundaryBehaviour::Symbol(sym) => seq![83u8, 121u8, 109u8, 98u8, 111u8, 108u8, 58u8]
            + seq![(spec_id_to_char(sym) as u8)],
    }
}

/// The character bytes of one template row.
pub open spec fn row_chars(gv: GridView, r: int) -> Seq<u8> {
    Seq::new(gv.cols as nat, |j: int| (spec_id_to_char(gv.cell(r, j)) as u8))
}

/// The text of the template rows from row `r` on: each row preceded by a
/// line break.
pub open spec fn rows_text(gv: GridView, r: int) -> Seq<u8>
    decreases gv.rows - r,
{
    if !(0 <= r < gv.rows) {
        Seq::empty()
    } else {
        seq![10u8] + row_chars(gv, r) + rows_text(gv, r + 1)
    }
}

/// The text of one pattern block: chance, priority, the `before` rows and
/// the `after` rows, separated by `;`.
pub open spec fn fmt_pattern(p: PatternView) -> Seq<u8> {
    fmt_fixed(p.chance as nat) + seq![59u8, 10u8] + fmt_fixed_signed(p.priority) + seq![59u8]
        + rows_text(p.before, 0) + seq![59u8] + rows_text(p.after, 0) + seq![59u8, 10u8]
}

/// The pattern blocks from index `k` on, each followed by a blank line.
pub open spec fn fmt_blocks(ps: Seq<PatternView>, k: int) -> Seq<u8>
    decreases ps.len() - k,
{
    if !(0 <= k < ps.len()) {
        Seq::empty()
    } else {
        fmt_pattern(ps[k]) + seq![10u8] + fmt_blocks(ps, k + 1)
    }
}

/// The text of a whole rule: both boundary specs and the pattern blocks.
pub open spec fn fmt_rule(
    rb: BoundaryBehaviour,
    cb: BoundaryBehaviour,
    ps: Seq<PatternView>,
) -> Seq<u8> {
    fmt_boundary(rb) + seq![59u8, 10u8, 10u8] + fmt_boundary(cb) + seq![59u8, 10u8, 10u8]
        + fmt_blocks(ps, 0)
}

/// The character form of a cell value, as a byte.
fn symbol_byte(id: u8) -> (b: u8)
    ensures
        b == (spec_id_to_char(id) as u8),
{
    let c = id_to_char(id);
    proof {
        assert((spec_id_to_char(id) as u32) < 128);
    }
    (c as u32) as u8
}

/// Appends the text of a boundary policy.
fn push_boundary(out: &mut Vec<u8>, b: BoundaryBehaviour)
    ensures
        final (out)@ == old(out)@ + fmt_boundary(b),
{
    match b {
        BoundaryBehaviour::Periodic => {
            out.push(80);
            out.push(101);
            out.push(114);
            out.push(105);
            out.push(111);
            out.push(100);
            out.push(105);
            out.push(99);
            proof {
                assert(final (out)@ =~= old(out)@ + fmt_boundary(b));
            }
        },
        BoundaryBehaviour::Symbol(sym) => {
            out.push(83);
            out.push(121);
            out.push(109);
            out.push(98);
            out.push(111);
            out.push(108);
            out.push(58);
            let sb = symbol_byte(sym);
            out.push(sb);
            proof {
                assert(final (out)@ =~= old(out)@ + fmt_boundary(b));
            }
        },
    }
}

/// Appends the text of the rows of a template grid.
fn push_rows(out: &mut Vec<u8>, g: &crate::cell_grid::CellGrid)
    requires
        grid_wf(*g),
    ensures
        final (out)@ == old(out)@ + rows_text(view_of(*g), 0),
{
    let ghost gv = view_of(*g);
    let rows = row_count(g);
    let cols = col_count(g);
    let mut r: usize = 0;
    while r < rows
        invariant
            grid_wf(*g),
            gv == view_of(*g),
            rows == crate::cell_grid::grid_rows(*g),
            cols == crate::cell_grid::grid_cols(*g),
            r <= rows,
            out@ + rows_text(gv, r as int) == old(out)@ + rows_text(gv, 0),
        decreases rows - r,
    {
        let ghost out_row = out@;
        out.push(10);
        let mut j: usize = 0;
        while j < cols
            invariant
                grid_wf(*g),
                gv == view_of(*g),
                rows == crate::cell_grid::grid_rows(*g),
                cols == crate::cell_grid::grid_cols(*g),
                r < rows,
                j <= cols,
                out@ == out_row + seq![10u8] + row_chars(gv, r as int).take(j as int),
            decreases cols - j,
        {
            let id = crate::cell_grid::grid_read(g, r, j);
            proof {
                crate::rule::pattern_rule::lemma_cell_index(rows as int, cols as int, r as int,
                    j as int);
                assert(id == gv.cell(r as int, j as int));
            }
            let b = symbol_byte(id);
            out.push(b);
            proof {
                assert(row_chars(gv, r as int).take(j as int + 1) =~= row_chars(
                    gv,
                    r as int,
                ).take(j as int).push(b));
                assert(out@ =~= out_row + seq![10u8] + row_chars(gv, r as int).take(j as int + 1));
            }
            j += 1;
        }
        proof {
            assert(row_chars(gv, r as int).take(cols as int) =~= row_chars(gv, r as int));
            assert(out@ =~= out_row + (seq![10u8] + row_chars(gv, r as int)));
            assert(rows_text(gv, r as int) == seq![10u8] + row_chars(gv, r as int) + rows_text(
                gv,
                r as int + 1,
            ));
            assert(out@ + rows_text(gv, r as int + 1) =~= out_row + rows_text(gv, r as int));
        }
        r += 1;
    }
    proof {
        assert(rows_text(gv, rows as int) =~= Seq::<u8>::empty());
        assert(out@ + Seq::<u8>::empty() =~= out@);
    }
}

impl Pattern {
    /// The text of this pattern block.
    pub fn to_text(&self) -> (r: Vec<u8>)
        requires
            pattern_wf(*self),
        ensures
            r@ == fmt_pattern(pattern_view(*self)),
    {
        let mut out: Vec<u8> = Vec::new();
        push_fixed(&mut out, self.chance as u64);
        out.push(59);
        out.push(10);
        push_fixed_signed(&mut out, self.priority);
        out.push(59);
        push_rows(&mut out, &self.before);
        out.push(59);
        push_rows(&mut out, &self.after);
        out.push(59);
        out.push(10);
        proof {
            assert(out@ =~= fmt_pattern(pattern_view(*self)));
        }
        out
    }
}

impl PatternRule {
    /// The text of this rule: both boundary specs and one block per
    /// pattern.
    pub fn to_text(&self) -> (r: Vec<u8>)
        requires
            self.patterns_wf(),
        ensures
            r@ == fmt_rule(self.row_boundary, self.col_boundary, pattern_views(self.patterns@)),
    {
        let ghost ps = pattern_views(self.patterns@);
        let mut out: Vec<u8> = Vec::new();
        push_boundary(&mut out, self.row_boundary);
        out.push(59);
        out.push(10);
        out.push(10);
        push_boundary(&mut out, self.col_boundary);
        out.push(59);
        out.push(10);
        out.push(10);
        let ghost base = out@;
        proof {
            assert(base =~= fmt_boundary(self.row_boundary) + seq![59u8, 10u8, 10u8]
                + fmt_boundary(self.col_boundary) + seq![59u8, 10u8, 10u8]);
        }
        let n = self.patterns.len();
        let mut i: usize = 0;
        while i < n
            invariant
                self.patterns_wf(),
                ps == pattern_views(self.patterns@),
                n == self.patterns@.len(),
                i <= n,
                out@ + fmt_blocks(ps, i as int) == base + fmt_blocks(ps, 0),
            decreases n - i,
        {
            let ghost out_old = out@;
            let mut block = self.patterns[i].to_text();
            out.append(&mut block);
            out.push(10);
            proof {
                assert(ps[i as int] == pattern_view(self.patterns@[i as int]));
                assert(fmt_blocks(ps, i as int) == fmt_pattern(ps[i as int]) + seq![10u8]
                    + fmt_blocks(ps, i as int + 1));
                assert(out@ =~= out_old + fmt_pattern(ps[i as int]) + seq![10u8]);
                assert(out@ + fmt_blocks(ps, i as int + 1) =~= out_old + fmt_blocks(ps, i as int));
            }
            i += 1;
        }
        proof {
            assert(fmt_blocks(ps, n as int) =~= Seq::<u8>::empty());
            assert(out@ + Seq::<u8>::empty() =~= out@);
            assert(out@ =~= base + fmt_blocks(ps, 0));
            assert(out@ =~= fmt_rule(self.row_boundary, self.col_boundary, ps));
        }
        out
    }
}


/// The concrete small powers of ten.
proof fn lemma_pow10_vals()
    ensures
        vstd::arithmetic::power::pow(10, 0) == 1,
        vstd::arithmetic::power::pow(10, 1) == 10,
        vstd::arithmetic::power::pow(10, 2) == 100,
        vstd::arithmetic::power::pow(10, 3) == 1000,
        vstd::arithmetic::power::pow(10, 4) == 10000,
        vstd::arithmetic::power::pow(10, 5) == 100000,
        vstd::arithmetic::power::pow(10, 6) == 1000000,
{
    reveal_with_fuel(vstd::arithmetic::power::pow, 8);
}

/// A run of `w` digits has value below the `w`-th power of ten.
proof fn lemma_dec_val_bound(t: Seq<u8>)
    requires
        forall|i: int| 0 <= i < t.len() ==> is_digit(#[trigger] t[i]),
    ensures
        dec_val(t) < vstd::arithmetic::power::pow(10, t.len()) as nat,
    decreases t.len(),
{
    vstd::arithmetic::power::lemma_pow_positive(10, t.len());
    if t.len() == 0 {
        vstd::arithmetic::power::lemma_pow0(10);
    } else {
        assert(forall|i: int| 0 <= i < t.len() - 1 ==> t.drop_last()[i] == #[trigger] t[i]);
        lemma_dec_val_bound(t.drop_last());
        let w1 = t.drop_last().len();
        assert(vstd::arithmetic::power::pow(10, t.len()) == 10 * vstd::arithmetic::power::pow(
            10,
            w1,
        )) by {
            vstd::arithmetic::power::lemma_pow_adds(10, w1, 1);
            vstd::arithmetic::power::lemma_pow1(10);
        }
        let p1 = vstd::arithmetic::power::pow(10, w1);
        assert(dec_val(t.drop_last()) * 10 <= (p1 - 1) * 10) by (nonlinear_arith)
            requires
                dec_val(t.drop_last()) <= p1 - 1,
        ;
    }
}

/// A digit run equal to the canonical digits of a value, followed by a
/// non-digit, is exactly what [`parse_digits`] consumes.
proof fn lemma_parse_digits_exact(bytes: Seq<u8>, pos: int, f: Seq<u8>, p2: int)
    requires
        0 <= pos,
        pos + f.len() <= bytes.len(),
        f.len() > 0,
        forall|i: int| 0 <= i < f.len() ==> is_digit(#[trigger] f[i]),
        forall|i: int| 0 <= i < f.len() ==> bytes[pos + i] == f[i],
        pos + f.len() == bytes.len() || !is_digit(bytes[pos + f.len()]),
        pos < p2 <= bytes.len(),
        forall|i: int| pos <= i < p2 ==> is_digit(#[trigger] bytes[i]),
        p2 == bytes.len() || !is_digit(bytes[p2]),
    ensures
        p2 == pos + f.len(),
        dec_val(bytes.subrange(pos, p2)) == dec_val(f),
{
    if p2 < pos + f.len() {
        assert(is_digit(f[p2 - pos]));
        assert(bytes[p2] == f[p2 - pos]);
        assert(false);
    }
    if p2 > pos + f.len() {
        assert(is_digit(bytes[pos + f.len()]));
        assert(false);
    }
    assert(bytes.subrange(pos, p2) =~= f);
}

/// No digit run starting at the canonical digits of a value can exceed the
/// largest representable value when the value itself fits.
proof fn lemma_run_value_bounded(bytes: Seq<u8>, pos: int, f: Seq<u8>, e: int)
    requires
        0 <= pos,
        pos + f.len() <= bytes.len(),
        forall|i: int| 0 <= i < f.len() ==> bytes[pos + i] == f[i],
        pos + f.len() == bytes.len() || !is_digit(bytes[pos + f.len()]),
        pos < e <= bytes.len(),
        forall|i: int| pos <= i < e ==> is_digit(#[trigger] bytes[i]),
    ensures
        dec_val(bytes.subrange(pos, e)) <= dec_val(f),
{
    if e > pos + f.len() {
        assert(is_digit(bytes[pos + f.len()]));
        assert(false);
    }
    let run = bytes.subrange(pos, e);
    assert(forall|i: int| 0 <= i < run.len() ==> run[i] == #[trigger] f[i]);
    lemma_dec_val_prefix(f, run);
}

/// Reads one byte.
fn eat(bytes: &Vec<u8>, pos: usize, b: u8) -> (res: Result<usize, CelluminaError>)
    requires
        pos <= bytes@.len(),
    ensures
        match res {
            Ok(p2) => p2 == pos + 1 && pos < bytes@.len() && bytes@[pos as int] == b,
            Err(_) => pos == bytes@.len() || bytes@[pos as int] != b,
        },
{
    if pos < bytes.len() && bytes[pos] == b {
        Ok(pos + 1)
    } else {
        Err(CelluminaError::CustomError(parse_error_text()))
    }
}

/// The byte continues a fixed-point number.
pub open spec fn continues_number(b: u8) -> bool {
    is_digit(b) || b == 46u8
}

/// A power of ten up to the sixth.
fn pow10_u64(e: usize) -> (r: u64)
    requires
        e <= 6,
    ensures
        r as nat == vstd::arithmetic::power::pow(10, e as nat) as nat,
        1 <= r <= 1000000,
{
    proof {
        lemma_pow10_vals();
    }
    if e == 0 {
        1
    } else if e == 1 {
        10
    } else if e == 2 {
        100
    } else if e == 3 {
        1000
    } else if e == 4 {
        10000
    } else if e == 5 {
        100000
    } else {
        1000000
    }
}

/// Reads a decimal fixed-point number (an integer part and at most six
/// fraction digits) and returns it in parts of a million; fails on
/// malformed or out-of-range text.
fn parse_fixed(bytes: &Vec<u8>, pos: usize, expect: Ghost<Option<u64>>) -> (res: Result<
    (u64, usize),
    CelluminaError,
>)
    requires
        pos <= bytes@.len(),
    ensures
        (match res {
            Ok((v, p2)) => pos < p2 <= bytes@.len(),
            Err(_) => true,
        }),
        (expect@ matches Some(n) && {
            let f = fmt_fixed(n as nat);
            &&& pos + f.len() <= bytes@.len()
            &&& (forall|i: int| 0 <= i < f.len() ==> bytes@[pos + i] == #[trigger] f[i])
            &&& (pos + f.len() == bytes@.len() || !continues_number(bytes@[pos + f.len()]))
        }) ==> (res matches Ok((v, p2)) && expect@ matches Some(n) && v == n && p2 == pos
            + fmt_fixed(n as nat).len()),
        (pos == bytes@.len() || !is_digit(bytes@[pos as int])) ==> res is Err,
{
    let ghost n_exp: nat = if expect@ is Some {
        expect@->0 as nat
    } else {
        0
    };
    let ghost ip_spec: nat = n_exp / 1000000;
    let ghost fp_spec: nat = n_exp % 1000000;
    let ghost f_int: Seq<u8> = fmt_nat(ip_spec);
    let ghost f_frac: Seq<u8> = trim_zeros(dec_width(fp_spec, 6));
    proof {
        lemma_dec_rep_val(ip_spec);
        lemma_dec_width_val(fp_spec, 6);
        lemma_trim_zeros_val(dec_width(fp_spec, 6));
        lemma_pow10_vals();
        lemma_dec_val_bound(f_frac);
    }
    let r1 = parse_digits(bytes, pos);
    let (ip, p1) = match r1 {
        Ok(t) => t,
        Err(e) => {
            proof {
                if expect@ is Some && premise_holds(bytes@, pos as int, n_exp) {
                    lemma_premise_digits(bytes@, pos as int, n_exp);
                    assert(is_digit(bytes@[pos as int])) by {
                        assert(bytes@[pos as int + 0] == f_int[0]);
                        assert(is_digit(f_int[0]));
                    }
                    assert(pos < bytes@.len());
                    assert forall|e2: int|
                        pos < e2 <= bytes@.len() && (forall|i: int|
                            pos <= i < e2 ==> is_digit(#[trigger] bytes@[i])) implies #[trigger] dec_val(
                        bytes@.subrange(pos as int, e2),
                    ) <= u64::MAX by {
                        lemma_run_value_bounded(bytes@, pos as int, f_int, e2);
                        lemma_dec_val_bound_u64(ip_spec);
                    }
                    assert(false);
                }
            }
            return Err(e);
        },
    };
    proof {
        if expect@ is Some && premise_holds(bytes@, pos as int, n_exp) {
            lemma_premise_digits(bytes@, pos as int, n_exp);
            lemma_parse_digits_exact(bytes@, pos as int, f_int, p1 as int);
            assert(ip as nat == ip_spec);
        }
    }
    if p1 < bytes.len() && bytes[p1] == 46 {
        let r2 = parse_digits(bytes, p1 + 1);
        let (fv, p2) = match r2 {
            Ok(t) => t,
            Err(e) => {
                proof {
                    if expect@ is Some && premise_holds(bytes@, pos as int, n_exp) {
                        assert(fp_spec != 0) by {
                            if fp_spec == 0 {
                                lemma_premise_nofrac(bytes@, pos as int, n_exp);
                                lemma_premise_digits(bytes@, pos as int, n_exp);
                                lemma_parse_digits_exact(bytes@, pos as int, f_int, p1 as int);
                            }
                        }
                        lemma_premise_digits(bytes@, pos as int, n_exp);
                        lemma_parse_digits_exact(bytes@, pos as int, f_int, p1 as int);
                        lemma_premise_frac(bytes@, pos as int, n_exp);
                        lemma_frac_value(n_exp);
                        assert(dec_val(f_frac) <= u64::MAX) by {
                            vstd::arithmetic::power::lemma_pow_positive(10, (6
                                - f_frac.len()) as nat);
                            assert(dec_val(f_frac) <= dec_val(f_frac)
                                * (vstd::arithmetic::power::pow(10, (6 - f_frac.len()) as nat)
                                as nat)) by (nonlinear_arith)
                                requires
                                    vstd::arithmetic::power::pow(10, (6 - f_frac.len()) as nat)
                                        >= 1,
                            ;
                        }
                        assert(is_digit(bytes@[p1 as int + 1])) by {
                            assert(bytes@[(pos + f_int.len() + 1) + 0] == f_frac[0]);
                            assert(is_digit(f_frac[0]));
                        }
                        assert(p1 + 1 < bytes@.len());
                        assert forall|e2: int|
                            p1 + 1 < e2 <= bytes@.len() && (forall|i: int|
                                p1 + 1 <= i < e2 ==> is_digit(#[trigger] bytes@[i])) implies #[trigger] dec_val(
                            bytes@.subrange(p1 as int + 1, e2),
                        ) <= u64::MAX by {
                            lemma_run_value_bounded(bytes@, p1 as int + 1, f_frac, e2);
                        }
                        assert(false);
                    }
                }
                return Err(e);
            },
        };
        let flen = p2 - (p1 + 1);
        proof {
            if expect@ is Some && premise_holds(bytes@, pos as int, n_exp) {
                assert(fp_spec != 0) by {
                    if fp_spec == 0 {
                        lemma_premise_nofrac(bytes@, pos as int, n_exp);
                        lemma_premise_digits(bytes@, pos as int, n_exp);
                        lemma_parse_digits_exact(bytes@, pos as int, f_int, p1 as int);
                    }
                }
                lemma_premise_digits(bytes@, pos as int, n_exp);
                lemma_parse_digits_exact(bytes@, pos as int, f_int, p1 as int);
                lemma_premise_frac(bytes@, pos as int, n_exp);
                lemma_parse_digits_exact(bytes@, p1 as int + 1, f_frac, p2 as int);
                assert(fv as nat == dec_val(f_frac));
                assert(flen == f_frac.len());
            }
        }
        if flen > 6 {
            proof {
                if expect@ is Some && premise_holds(bytes@, pos as int, n_exp) {
                    assert(false);
                }
            }
            return Err(CelluminaError::CustomError(parse_error_text()));
        }
        let mult = pow10_u64(6 - flen);
        if fv > (1000000u64 - 1) / mult {
            proof {
                if expect@ is Some && premise_holds(bytes@, pos as int, n_exp) {
                    lemma_frac_value(n_exp);
                    assert((fv as int) * (mult as int) <= 999999) by {
                        assert(dec_val(f_frac) * (vstd::arithmetic::power::pow(10, (6
                            - f_frac.len()) as nat) as nat) == fp_spec);
                    }
                    vstd::arithmetic::div_mod::lemma_div_is_ordered((fv as int) * (mult as int),
                        999999, mult as int);
                    vstd::arithmetic::div_mod::lemma_div_multiples_vanish(fv as int, mult as int);
                    assert((((mult as int) * (fv as int)) / (mult as int)) == fv as int);
                    assert(((fv as int) * (mult as int)) == ((mult as int) * (fv as int)))
                        by (nonlinear_arith);
                    assert(false);
                }
            }
            return Err(CelluminaError::CustomError(parse_error_text()));
        }
        proof {
            assert((999999int) / (mult as int) * (mult as int) <= 999999) by {
                vstd::arithmetic::div_mod::lemma_fundamental_div_mod(999999, mult as int);
                vstd::arithmetic::div_mod::lemma_mod_bound(999999, mult as int);
                assert((mult as int) * ((999999int) / (mult as int)) == ((999999int) / (
                mult as int)) * (mult as int)) by (nonlinear_arith);
            }
            assert((fv as int) * (mult as int) <= 999999) by (nonlinear_arith)
                requires
                    0 <= fv as int,
                    1 <= mult as int,
                    fv as int <= (999999int) / (mult as int),
                    (999999int) / (mult as int) * (mult as int) <= 999999,
            ;
        }
        let frac = fv * mult;
        let limit = (u64::MAX - frac) / 1000000;
        if ip > limit {
            proof {
                if expect@ is Some && premise_holds(bytes@, pos as int, n_exp) {
                    lemma_frac_value(n_exp);
                    assert(frac as nat == fp_spec);
                    assert((ip_spec as int) * 1000000 + (fp_spec as int) <= u64::MAX) by {
                        vstd::arithmetic::div_mod::lemma_fundamental_div_mod(n_exp as int, 1000000);
                        assert(1000000 * ((n_exp as int) / 1000000) == ((n_exp as int) / 1000000)
                            * 1000000) by (nonlinear_arith);
                    }
                    vstd::arithmetic::div_mod::lemma_div_is_ordered(
                        (ip_spec as int) * 1000000,
                        u64::MAX - fp_spec as int,
                        1000000,
                    );
                    vstd::arithmetic::div_mod::lemma_div_multiples_vanish(ip_spec as int, 1000000);
                    assert((1000000 * (ip_spec as int)) / 1000000 == ip_spec as int);
                    assert((ip_spec as int) * 1000000 == 1000000 * (ip_spec as int))
                        by (nonlinear_arith);
                    assert(false);
                }
            }
            return Err(CelluminaError::CustomError(parse_error_text()));
        }
        proof {
            assert((((u64::MAX - frac as int) as int) / 1000000) * 1000000 <= u64::MAX
                - frac as int) by {
                vstd::arithmetic::div_mod::lemma_fundamental_div_mod(
                    u64::MAX - frac as int,
                    1000000,
                );
                vstd::arithmetic::div_mod::lemma_mod_bound(u64::MAX - frac as int, 1000000);
                assert(1000000 * (((u64::MAX - frac as int) as int) / 1000000) == (((u64::MAX
                    - frac as int) as int) / 1000000) * 1000000) by (nonlinear_arith);
            }
            assert((ip as int) * 1000000 + (frac as int) <= u64::MAX) by (nonlinear_arith)
                requires
                    0 <= ip as int,
                    0 <= frac as int <= 999999,
                    ip as int <= ((u64::MAX - frac as int) as int) / 1000000,
                    (((u64::MAX - frac as int) as int) / 1000000) * 1000000 <= u64::MAX
                        - frac as int,
            ;
        }
        let v = ip * 1000000 + frac;
        proof {
            if expect@ is Some && premise_holds(bytes@, pos as int, n_exp) {
                lemma_frac_value(n_exp);
                vstd::arithmetic::div_mod::lemma_fundamental_div_mod(n_exp as int, 1000000);
                assert(1000000 * ((n_exp as int) / 1000000) == ((n_exp as int) / 1000000) * 1000000)
                    by (nonlinear_arith);
                assert(v as nat == n_exp);
                lemma_premise_frac(bytes@, pos as int, n_exp);
                assert(p2 == pos + fmt_fixed(n_exp).len());
            }
        }
        Ok((v, p2))
    } else {
        let limit = u64::MAX / 1000000;
        if ip > limit {
            proof {
                if expect@ is Some && premise_holds(bytes@, pos as int, n_exp) {
                    assert(fp_spec == 0) by {
                        if fp_spec != 0 {
                            lemma_premise_digits(bytes@, pos as int, n_exp);
                            lemma_parse_digits_exact(bytes@, pos as int, f_int, p1 as int);
                            lemma_premise_frac(bytes@, pos as int, n_exp);
                        }
                    }
                    lemma_premise_nofrac(bytes@, pos as int, n_exp);
                    lemma_premise_digits(bytes@, pos as int, n_exp);
                    lemma_parse_digits_exact(bytes@, pos as int, f_int, p1 as int);
                    lemma_dec_val_bound_u64(ip_spec);
                    vstd::arithmetic::div_mod::lemma_div_is_ordered(
                        (ip_spec as int) * 1000000,
                        u64::MAX as int,
                        1000000,
                    );
                    vstd::arithmetic::div_mod::lemma_div_multiples_vanish(ip_spec as int, 1000000);
                    assert((1000000 * (ip_spec as int)) / 1000000 == ip_spec as int);
                    assert((ip_spec as int) * 1000000 == 1000000 * (ip_spec as int))
                        by (nonlinear_arith);
                    assert(false);
                }
            }
            return Err(CelluminaError::CustomError(parse_error_text()));
        }
        proof {
            assert(((u64::MAX as int) / 1000000) * 1000000 <= u64::MAX as int) by {
                vstd::arithmetic::div_mod::lemma_fundamental_div_mod(u64::MAX as int, 1000000);
                vstd::arithmetic::div_mod::lemma_mod_bound(u64::MAX as int, 1000000);
                assert(1000000 * ((u64::MAX as int) / 1000000) == ((u64::MAX as int) / 1000000)
                    * 1000000) by (nonlinear_arith);
            }
            assert((ip as int) * 1000000 <= u64::MAX) by (nonlinear_arith)
                requires
                    0 <= ip as int,
                    ip as int <= (u64::MAX as int) / 1000000,
                    ((u64::MAX as int) / 1000000) * 1000000 <= u64::MAX as int,
            ;
        }
        let v = ip * 1000000;
        proof {
            if expect@ is Some && premise_holds(bytes@, pos as int, n_exp) {
                assert(fp_spec == 0) by {
                    if fp_spec != 0 {
                        lemma_premise_digits(bytes@, pos as int, n_exp);
                        lemma_parse_digits_exact(bytes@, pos as int, f_int, p1 as int);
                        lemma_premise_frac(bytes@, pos as int, n_exp);
                    }
                }
                lemma_premise_nofrac(bytes@, pos as int, n_exp);
                lemma_premise_digits(bytes@, pos as int, n_exp);
                lemma_parse_digits_exact(bytes@, pos as int, f_int, p1 as int);
                vstd::arithmetic::div_mod::lemma_fundamental_div_mod(n_exp as int, 1000000);
                assert(1000000 * ((n_exp as int) / 1000000) == ((n_exp as int) / 1000000) * 1000000)
                    by (nonlinear_arith);
                assert(v as nat == n_exp);
                assert(p1 == pos + fmt_fixed(n_exp).len());
            }
        }
        Ok((v, p1))
    }
}

/// The premise of the exact-parse clause for a fixed-point value.
pub open spec fn premise_holds(bytes: Seq<u8>, pos: int, n: nat) -> bool {
    let f = fmt_fixed(n);
    &&& 0 <= pos
    &&& pos + f.len() <= bytes.len()
    &&& (forall|i: int| 0 <= i < f.len() ==> bytes[pos + i] == #[trigger] f[i])
    &&& (pos + f.len() == bytes.len() || !continues_number(bytes[pos + f.len()]))
}

/// A value that fits in the integer part of a fixed-point number.
proof fn lemma_dec_val_bound_u64(ip: nat)
    requires
        ip <= u64::MAX,
    ensures
        dec_val(fmt_nat(ip)) <= u64::MAX,
        dec_val(fmt_nat(ip)) == ip,
{
    lemma_dec_rep_val(ip);
    if ip == 0 {
        assert(seq![48u8].drop_last() =~= Seq::<u8>::empty());
        assert(dec_val(seq![48u8]) == 0);
    }
}

/// Under the exact-parse premise, the integer part's digits stand at `pos`,
/// followed by a non-digit.
proof fn lemma_premise_digits(bytes: Seq<u8>, pos: int, n: nat)
    requires
        premise_holds(bytes, pos, n),
    ensures
        ({
            let f_int = fmt_nat(n / 1000000);
            &&& f_int.len() > 0
            &&& pos + f_int.len() <= bytes.len()
            &&& (forall|i: int| 0 <= i < f_int.len() ==> is_digit(#[trigger] f_int[i]))
            &&& (forall|i: int| 0 <= i < f_int.len() ==> bytes[pos + i] == f_int[i])
            &&& (pos + f_int.len() == bytes.len() || !is_digit(bytes[pos + f_int.len()]))
            &&& dec_val(f_int) == n / 1000000
        }),
{
    let ip = n / 1000000;
    let fp = n % 1000000;
    let f = fmt_fixed(n);
    let f_int = fmt_nat(ip);
    lemma_dec_rep_val(ip);
    if ip == 0 {
        assert(seq![48u8].drop_last() =~= Seq::<u8>::empty());
        assert(dec_val(seq![48u8]) == 0);
        assert(is_digit(f_int[0]));
    } else {
        assert(dec_rep(ip) == dec_rep(ip / 10) + seq![(48 + ip % 10) as u8]);
    }
    if fp == 0 {
        assert(f == f_int);
        assert forall|i: int| 0 <= i < f_int.len() implies bytes[pos + i] == f_int[i] by {
            assert(bytes[pos + i] == f[i]);
        }
    } else {
        assert(f == f_int + seq![46u8] + trim_zeros(dec_width(fp, 6)));
        assert forall|i: int| 0 <= i < f_int.len() implies bytes[pos + i] == f_int[i] by {
            assert(f[i] == f_int[i]);
            assert(bytes[pos + i] == f[i]);
        }
        assert(f[f_int.len() as int] == 46u8);
        assert(bytes[pos + f_int.len()] == f[f_int.len() as int]);
        assert(bytes[pos + f_int.len()] == 46u8);
    }
}

/// Under the exact-parse premise with a non-zero fraction, the fraction's
/// digits follow the point, terminated by a non-digit, and scaling their
/// value by the trimmed power of ten recovers the fraction.
proof fn lemma_premise_frac(bytes: Seq<u8>, pos: int, n: nat)
    requires
        premise_holds(bytes, pos, n),
        n % 1000000 != 0,
    ensures
        ({
            let f_int = fmt_nat(n / 1000000);
            let f_frac = trim_zeros(dec_width(n % 1000000, 6));
            let fpos = pos + f_int.len() + 1;
            &&& bytes[pos + f_int.len()] == 46u8
            &&& 1 <= f_frac.len() <= 6
            &&& fpos + f_frac.len() <= bytes.len()
            &&& (forall|i: int| 0 <= i < f_frac.len() ==> is_digit(#[trigger] f_frac[i]))
            &&& (forall|i: int| 0 <= i < f_frac.len() ==> bytes[fpos + i] == f_frac[i])
            &&& (fpos + f_frac.len() == bytes.len() || !is_digit(bytes[fpos + f_frac.len()]))
            &&& fmt_fixed(n).len() == f_int.len() + 1 + f_frac.len()
        }),
{
    let ip = n / 1000000;
    let fp = n % 1000000;
    let f = fmt_fixed(n);
    let f_int = fmt_nat(ip);
    let f_frac = trim_zeros(dec_width(fp, 6));
    lemma_dec_width_val(fp, 6);
    lemma_trim_zeros_val(dec_width(fp, 6));
    lemma_pow10_vals();
    assert(dec_val(dec_width(fp, 6)) == fp) by {
        vstd::arithmetic::div_mod::lemma_mod_bound(n as int, 1000000);
        vstd::arithmetic::div_mod::lemma_small_mod(fp, 1000000);
    }
    assert(f_frac.len() > 0);
    assert(f == f_int + seq![46u8] + f_frac);
    assert(bytes[pos + f_int.len()] == f[f_int.len() as int]);
    assert(f[f_int.len() as int] == 46u8);
    assert forall|i: int| 0 <= i < f_frac.len() implies bytes[(pos + f_int.len() + 1) + i]
        == f_frac[i] by {
        assert(f[f_int.len() + 1 + i] == f_frac[i]);
        assert(bytes[pos + (f_int.len() + 1 + i)] == f[f_int.len() + 1 + i]);
    }
}

/// Under the exact-parse premise with a zero fraction, the text is just the
/// integer part and no point follows.
proof fn lemma_premise_nofrac(bytes: Seq<u8>, pos: int, n: nat)
    requires
        premise_holds(bytes, pos, n),
        n % 1000000 == 0,
    ensures
        ({
            let f_int = fmt_nat(n / 1000000);
            &&& fmt_fixed(n).len() == f_int.len()
            &&& (pos + f_int.len() == bytes.len() || !(bytes[pos + f_int.len()] == 46u8))
        }),
{
    assert(fmt_fixed(n) == fmt_nat(n / 1000000));
}

/// Scaling the trimmed fraction digits back recovers the fraction.
proof fn lemma_frac_value(n: nat)
    requires
        n % 1000000 != 0,
    ensures
        ({
            let f_frac = trim_zeros(dec_width(n % 1000000, 6));
            dec_val(f_frac) * (vstd::arithmetic::power::pow(10, (6 - f_frac.len()) as nat) as nat)
                == n % 1000000
        }),
{
    let fp = n % 1000000;
    lemma_dec_width_val(fp, 6);
    lemma_trim_zeros_val(dec_width(fp, 6));
    lemma_pow10_vals();
    assert(dec_val(dec_width(fp, 6)) == fp) by {
        vstd::arithmetic::div_mod::lemma_mod_bound(n as int, 1000000);
        vstd::arithmetic::div_mod::lemma_small_mod(fp, 1000000);
    }
}


/// The first byte of a fixed-point text is a digit.
proof fn lemma_fmt_fixed_first(n: nat)
    ensures
        fmt_fixed(n).len() > 0,
        is_digit(fmt_fixed(n)[0]),
{
    let ip = n / 1000000;
    lemma_dec_rep_val(ip);
    if ip == 0 {
    } else {
        assert(dec_rep(ip) == dec_rep(ip / 10) + seq![(48 + ip % 10) as u8]);
        assert(is_digit(dec_rep(ip)[0]));
    }
    if n % 1000000 != 0 {
        assert(fmt_fixed(n)[0] == fmt_nat(ip)[0]);
    }
}

/// The premise of the exact-parse clause for a signed fixed-point value.
pub open spec fn premise_signed(bytes: Seq<u8>, pos: int, n: int) -> bool {
    let f = fmt_fixed_signed(n);
    &&& 0 <= pos
    &&& pos + f.len() <= bytes.len()
    &&& (forall|i: int| 0 <= i < f.len() ==> bytes[pos + i] == #[trigger] f[i])
    &&& (pos + f.len() == bytes.len() || !continues_number(bytes[pos + f.len()]))
}

/// Reads a decimal fixed-point number with an optional leading minus sign.
fn parse_fixed_signed(bytes: &Vec<u8>, pos: usize, expect: Ghost<Option<i64>>) -> (res: Result<
    (i64, usize),
    CelluminaError,
>)
    requires
        pos <= bytes@.len(),
    ensures
        (match res {
            Ok((v, p2)) => pos < p2 <= bytes@.len(),
            Err(_) => true,
        }),
        (expect@ matches Some(n) && premise_signed(bytes@, pos as int, n as int)) ==> (res matches
            Ok((v, p2)) && expect@ matches Some(n) && v == n && p2 == pos + fmt_fixed_signed(
            expect@->0 as int,
        ).len()),
        (pos == bytes@.len() || !(is_digit(bytes@[pos as int]) || bytes@[pos as int] == 45u8))
            ==> res is Err,
{
    let ghost n_exp: int = if expect@ is Some {
        expect@->0 as int
    } else {
        0
    };
    let ghost pr: bool = expect@ is Some && premise_signed(bytes@, pos as int, n_exp);
    let ghost fsg = fmt_fixed_signed(n_exp);
    if pos < bytes.len() && bytes[pos] == 45 {
        let ghost inner: Option<u64> = if pr && n_exp < 0 {
            Some(((-n_exp) as nat) as u64)
        } else {
            None
        };
        proof {
            if pr && n_exp >= 0 {
                lemma_fmt_fixed_first(n_exp as nat);
                assert(fsg[0] == fmt_fixed(n_exp as nat)[0]);
                assert(bytes@[pos + 0] == fsg[0]);
                assert(false);
            }
            if pr && n_exp < 0 {
                assert(fsg == seq![45u8] + fmt_fixed((-n_exp) as nat));
                assert forall|i: int|
                    0 <= i < fmt_fixed((-n_exp) as nat).len() implies bytes@[(pos + 1) + i]
                    == #[trigger] fmt_fixed((-n_exp) as nat)[i] by {
                    assert(fsg[1 + i] == fmt_fixed((-n_exp) as nat)[i]);
                    assert(bytes@[pos + (1 + i)] == fsg[1 + i]);
                }
                assert(premise_holds(bytes@, pos as int + 1, (-n_exp) as nat));
            }
        }
        let r = parse_fixed(bytes, pos + 1, Ghost(inner));
        match r {
            Ok((v, p2)) => {
                if v > 9223372036854775808u64 {
                    proof {
                        if pr {
                            assert((-n_exp) as nat <= 9223372036854775808);
                        }
                    }
                    return Err(CelluminaError::CustomError(parse_error_text()));
                }
                let nv: i64 = if v == 9223372036854775808u64 {
                    i64::MIN
                } else {
                    -(v as i64)
                };
                Ok((nv, p2))
            },
            Err(e) => Err(e),
        }
    } else {
        let ghost inner: Option<u64> = if pr && n_exp >= 0 {
            Some((n_exp as nat) as u64)
        } else {
            None
        };
        proof {
            if pr && n_exp < 0 {
                assert(fsg == seq![45u8] + fmt_fixed((-n_exp) as nat));
                assert(fsg[0] == 45u8);
                assert(bytes@[pos + 0] == fsg[0]);
                assert(false);
            }
            if pr && n_exp >= 0 {
                assert(fsg == fmt_fixed(n_exp as nat));
                assert forall|i: int|
                    0 <= i < fmt_fixed(n_exp as nat).len() implies bytes@[pos + i]
                    == #[trigger] fmt_fixed(n_exp as nat)[i] by {
                    assert(bytes@[pos + i] == fsg[i]);
                }
                assert(premise_holds(bytes@, pos as int, n_exp as nat));
            }
        }
        let r = parse_fixed(bytes, pos, Ghost(inner));
        match r {
            Ok((v, p2)) => {
                if v > 9223372036854775807u64 {
                    return Err(CelluminaError::CustomError(parse_error_text()));
                }
                Ok((v as i64, p2))
            },
            Err(e) => Err(e),
        }
    }
}

/// A boundary policy whose text parses back to the same policy.
pub open spec fn boundary_representable(b: BoundaryBehaviour) -> bool {
    b is Periodic || representable(b->0)
}

/// The input holds boundary-spec text at `pos`: the word `Periodic`, or
/// `Symbol:` followed by one character byte.
pub open spec fn boundary_text_at(bytes: Seq<u8>, pos: int) -> bool {
    ||| (pos + 8 <= bytes.len() && bytes[pos] == 80u8 && bytes[pos + 1] == 101u8 && bytes[pos + 2]
        == 114u8 && bytes[pos + 3] == 105u8 && bytes[pos + 4] == 111u8 && bytes[pos + 5] == 100u8
        && bytes[pos + 6] == 105u8 && bytes[pos + 7] == 99u8)
    ||| (pos + 8 <= bytes.len() && bytes[pos] == 83u8 && bytes[pos + 1] == 121u8 && bytes[pos + 2]
        == 109u8 && bytes[pos + 3] == 98u8 && bytes[pos + 4] == 111u8 && bytes[pos + 5] == 108u8
        && bytes[pos + 6] == 58u8)
}

/// The premise of the exact-parse clause for a boundary policy.
pub open spec fn premise_boundary(bytes: Seq<u8>, pos: int, bd: BoundaryBehaviour) -> bool {
    let f = fmt_boundary(bd);
    &&& boundary_representable(bd)
    &&& 0 <= pos
    &&& pos + f.len() <= bytes.len()
    &&& (forall|i: int| 0 <= i < f.len() ==> bytes[pos + i] == #[trigger] f[i])
}

/// Reads a boundary policy: `Periodic`, or `Symbol:` followed by the
/// symbol's character.
fn parse_boundary(bytes: &Vec<u8>, pos: usize, expect: Ghost<Option<BoundaryBehaviour>>) -> (res:
    Result<(BoundaryBehaviour, usize), CelluminaError>)
    requires
        pos <= bytes@.len(),
    ensures
        (match res {
            Ok((b, p2)) => pos < p2 <= bytes@.len(),
            Err(_) => true,
        }),
        (expect@ matches Some(bd) && premise_boundary(bytes@, pos as int, bd)) ==> (res matches Ok(
            (b, p2),
        ) && expect@ matches Some(bd) && b == bd && p2 == pos + 8),
        !boundary_text_at(bytes@, pos as int) ==> res is Err,
{
    let ghost pr: bool = expect@ is Some && premise_boundary(bytes@, pos as int, expect@->0);
    let ghost bd = if expect@ is Some {
        expect@->0
    } else {
        BoundaryBehaviour::Periodic
    };
    proof {
        if pr {
            if bd is Periodic {
                assert(fmt_boundary(bd) =~= seq![80u8, 101u8, 114u8, 105u8, 111u8, 100u8, 105u8, 99u8]);
                assert forall|i: int| 0 <= i < 8 implies bytes@[pos + i] == #[trigger] fmt_boundary(
                    bd,
                )[i] by {}
                assert(bytes@[pos + 0] == 80u8);
                assert(bytes@[pos + 1] == 101u8);
                assert(bytes@[pos + 2] == 114u8);
                assert(bytes@[pos + 3] == 105u8);
                assert(bytes@[pos + 4] == 111u8);
                assert(bytes@[pos + 5] == 100u8);
                assert(bytes@[pos + 6] == 105u8);
                assert(bytes@[pos + 7] == 99u8);
            } else {
                assert(fmt_boundary(bd) =~= seq![83u8, 121u8, 109u8, 98u8, 111u8, 108u8, 58u8]
                    + seq![(spec_id_to_char(bd->0) as u8)]);
                assert(bytes@[pos + 0] == fmt_boundary(bd)[0]);
                assert(fmt_boundary(bd)[0] == 83u8);
                assert(bytes@[pos + 1] == fmt_boundary(bd)[1]);
                assert(fmt_boundary(bd)[1] == 121u8);
                assert(bytes@[pos + 2] == fmt_boundary(bd)[2]);
                assert(fmt_boundary(bd)[2] == 109u8);
                assert(bytes@[pos + 3] == fmt_boundary(bd)[3]);
                assert(fmt_boundary(bd)[3] == 98u8);
                assert(bytes@[pos + 4] == fmt_boundary(bd)[4]);
                assert(fmt_boundary(bd)[4] == 111u8);
                assert(bytes@[pos + 5] == fmt_boundary(bd)[5]);
                assert(fmt_boundary(bd)[5] == 108u8);
                assert(bytes@[pos + 6] == fmt_boundary(bd)[6]);
                assert(fmt_boundary(bd)[6] == 58u8);
                assert(bytes@[pos + 7] == fmt_boundary(bd)[7]);
                assert(fmt_boundary(bd)[7] == (spec_id_to_char(bd->0) as u8));
            }
        }
    }
    let n = bytes.len();
    if pos < n && n - pos >= 8 && bytes[pos] == 80 && bytes[pos + 1] == 101 && bytes[pos + 2]
        == 114 && bytes[pos + 3] == 105 && bytes[pos + 4] == 111 && bytes[pos + 5] == 100
        && bytes[pos + 6] == 105 && bytes[pos + 7] == 99 {
        proof {
            if pr && bd is Symbol {
                assert(false);
            }
        }
        return Ok((BoundaryBehaviour::Periodic, pos + 8));
    }
    if pos < n && n - pos >= 8 && bytes[pos] == 83 && bytes[pos + 1] == 121 && bytes[pos + 2]
        == 109 && bytes[pos + 3] == 98 && bytes[pos + 4] == 111 && bytes[pos + 5] == 108
        && bytes[pos + 6] == 58 {
        let b = bytes[pos + 7];
        let id = char_to_id(b as char);
        proof {
            if pr {
                assert(bd is Symbol);
                let sym = bd->0;
                assert(b == (spec_id_to_char(sym) as u8));
                assert((spec_id_to_char(sym) as u32) < 128);
                assert((b as char) == spec_id_to_char(sym));
                crate::lemma_char_id_round_trip(sym);
                assert(id == sym);
            }
        }
        return Ok((BoundaryBehaviour::Symbol(id), pos + 8));
    }
    proof {
        if pr {
            assert(false);
        }
    }
    Err(CelluminaError::CustomError(parse_error_text()))
}


/// The rows of a template are representable cell values only.
pub open spec fn representable_cells(gv: GridView) -> bool {
    forall|k: int| 0 <= k < gv.cells.len() ==> representable(#[trigger] gv.cells[k])
}

/// The premise of the exact-parse clause for a template's rows: the rows'
/// text stands at `pos`, followed by the terminating `;`.
pub open spec fn rows_premise(bytes: Seq<u8>, pos: int, gv: GridView) -> bool {
    let f = rows_text(gv, 0);
    &&& gv.wf()
    &&& 1 <= gv.rows
    &&& 1 <= gv.cols
    &&& representable_cells(gv)
    &&& 0 <= pos
    &&& pos + f.len() + 1 <= bytes.len()
    &&& (forall|i: int| 0 <= i < f.len() ==> bytes[pos + i] == #[trigger] f[i])
    &&& bytes[pos + f.len()] == 59u8
}

/// The length of the rows' text: each row is one line break plus its cells.
proof fn lemma_rows_text_len(gv: GridView, r: int)
    requires
        0 <= r <= gv.rows,
        0 <= gv.cols,
    ensures
        rows_text(gv, r).len() == (gv.rows - r) * (gv.cols + 1),
    decreases gv.rows - r,
{
    if r < gv.rows {
        lemma_rows_text_len(gv, r + 1);
        assert((gv.rows - r) * (gv.cols + 1) == (gv.rows - r - 1) * (gv.cols + 1) + (gv.cols + 1))
            by (nonlinear_arith);
    } else {
        assert((gv.rows - r) * (gv.cols + 1) == 0) by (nonlinear_arith)
            requires
                gv.rows == r,
        ;
    }
}

/// The bytes of row `r` inside the rows' text: a line break at the row's
/// offset, then the row's cell characters.
proof fn lemma_rows_text_index(gv: GridView, r0: int, r: int)
    requires
        0 <= r0 <= r < gv.rows,
        1 <= gv.cols,
    ensures
        ({
            let off = (r - r0) * (gv.cols + 1);
            &&& rows_text(gv, r0)[off] == 10u8
            &&& forall|j: int|
                0 <= j < gv.cols ==> rows_text(gv, r0)[off + 1 + j] == (spec_id_to_char(
                    #[trigger] gv.cell(r, j),
                ) as u8)
        }),
    decreases r - r0,
{
    lemma_rows_text_len(gv, r0);
    lemma_rows_text_len(gv, r0 + 1);
    let off = (r - r0) * (gv.cols + 1);
    let f = rows_text(gv, r0);
    assert(f == seq![10u8] + row_chars(gv, r0) + rows_text(gv, r0 + 1));
    if r == r0 {
        assert(off == 0) by (nonlinear_arith)
            requires
                off == (r - r0) * (gv.cols + 1),
                r == r0,
        ;
        assert(f[0] == 10u8);
        assert forall|j: int|
            0 <= j < gv.cols implies f[0 + 1 + j] == (spec_id_to_char(
            #[trigger] gv.cell(r, j),
        ) as u8) by {
            assert(f[1 + j] == row_chars(gv, r0)[j]);
        }
    } else {
        lemma_rows_text_index(gv, r0 + 1, r);
        let off2 = (r - r0 - 1) * (gv.cols + 1);
        assert(off == off2 + (gv.cols + 1)) by (nonlinear_arith)
            requires
                off == (r - r0) * (gv.cols + 1),
                off2 == (r - r0 - 1) * (gv.cols + 1),
        ;
        assert(0 <= off2) by (nonlinear_arith)
            requires
                off2 == (r - r0 - 1) * (gv.cols + 1),
                r0 < r,
                1 <= gv.cols,
        ;
        assert(off2 + (gv.cols + 1) + 1 + gv.cols <= rows_text(gv, r0 + 1).len() + (gv.cols + 1))
            by (nonlinear_arith)
            requires
                off2 == (r - r0 - 1) * (gv.cols + 1),
                rows_text(gv, r0 + 1).len() == (gv.rows - r0 - 1) * (gv.cols + 1),
                r0 <= r,
                r < gv.rows,
                1 <= gv.cols,
        ;
        assert(f[off] == rows_text(gv, r0 + 1)[off2]);
        assert forall|j: int|
            0 <= j < gv.cols implies f[off + 1 + j] == (spec_id_to_char(
            #[trigger] gv.cell(r, j),
        ) as u8) by {
            assert(f[off + 1 + j] == rows_text(gv, r0 + 1)[off2 + 1 + j]);
            assert(rows_text(gv, r0 + 1)[off2 + 1 + j] == (spec_id_to_char(gv.cell(r, j)) as u8));
        }
    }
}

/// A cell character byte is neither a line break nor a semicolon.
proof fn lemma_row_byte(id: u8)
    ensures
        (spec_id_to_char(id) as u8) != 10u8,
        (spec_id_to_char(id) as u8) != 59u8,
{
}

/// Reads the rows of one template: one or more lines of cell characters,
/// terminated by `;`. All rows must have the same positive length.
fn parse_rows(bytes: &Vec<u8>, pos: usize, expect: Ghost<Option<GridView>>) -> (res: Result<
    (CellGrid, usize),
    CelluminaError,
>)
    requires
        pos <= bytes@.len(),
    ensures
        match res {
            Ok((g, p2)) => {
                &&& pos < p2 <= bytes@.len()
                &&& grid_wf(g)
                &&& 1 <= grid_rows(g)
                &&& 1 <= grid_cols(g)
            },
            Err(_) => true,
        },
        (expect@ matches Some(gv) && rows_premise(bytes@, pos as int, gv)) ==> (res matches Ok(
            (g, p2),
        ) && expect@ matches Some(gv) && view_of(g) == gv && p2 == pos + rows_text(gv, 0).len()
            + 1),
{
    let ghost gve: GridView = if expect@ is Some {
        expect@->0
    } else {
        GridView { rows: 0, cols: 0, cells: Seq::empty() }
    };
    let ghost pr: bool = expect@ is Some && rows_premise(bytes@, pos as int, gve);
    let ghost flen: int = rows_text(gve, 0).len() as int;
    proof {
        if pr {
            lemma_rows_text_len(gve, 0);
            assert(flen == gve.rows * (gve.cols + 1)) by (nonlinear_arith)
                requires
                    flen == (gve.rows - 0) * (gve.cols + 1),
            ;
        }
    }
    let n = bytes.len();
    let mut cells: Vec<u8> = Vec::new();
    let mut p = pos;
    let mut cols: usize = 0;
    let mut rows: usize = 0;
    proof {
        if pr {
            lemma_rows_text_index(gve, 0, 0);
            assert(bytes@[pos + 0] == rows_text(gve, 0)[0]);
        }
    }
    while p < n && bytes[p] == 10
        invariant
            pos <= p <= n,
            n == bytes@.len(),
            rows + pos <= p,
            cells@.len() == (rows as int) * (cols as int),
            rows == 0 ==> cols == 0 && cells@.len() == 0,
            rows >= 1 ==> cols >= 1,
            pr <==> (expect@ is Some && rows_premise(bytes@, pos as int, gve)),
            expect@ is Some ==> gve == expect@->0,
            pr ==> rows_premise(bytes@, pos as int, gve),
            flen == rows_text(gve, 0).len(),
            pr ==> flen == gve.rows * (gve.cols + 1),
            pr ==> rows <= gve.rows,
            pr ==> (rows >= 1 ==> cols as int == gve.cols),
            pr ==> p == pos + (rows as int) * (gve.cols + 1),
            pr ==> cells@ == gve.cells.take((rows as int) * gve.cols),
        decreases n - p,
    {
        proof {
            if pr {
                assert(rows < gve.rows) by {
                    if rows == gve.rows {
                        assert(p == pos + flen) by (nonlinear_arith)
                            requires
                                p == pos + (rows as int) * (gve.cols + 1),
                                flen == gve.rows * (gve.cols + 1),
                                rows == gve.rows,
                        ;
                        assert(bytes@[p as int] == 59u8);
                    }
                }
                lemma_rows_text_index(gve, 0, rows as int);
                lemma_rows_text_len(gve, 0);
                assert(((rows as int) + 1) * (gve.cols + 1) <= (gve.rows) * (gve.cols + 1))
                    by (nonlinear_arith)
                    requires
                        (rows as int) < gve.rows,
                        1 <= gve.cols,
                ;
            }
        }
        let ghost p0 = p;
        p += 1;
        let mut rlen: usize = 0;
        while p < n && bytes[p] != 10 && bytes[p] != 59
            invariant
                pos <= p <= n,
                p0 < p,
                n == bytes@.len(),
                cells@.len() == (rows as int) * (cols as int) + rlen,
                rlen <= p,
                pr <==> (expect@ is Some && rows_premise(bytes@, pos as int, gve)),
                expect@ is Some ==> gve == expect@->0,
                pr ==> rows_premise(bytes@, pos as int, gve),
                flen == rows_text(gve, 0).len(),
                pr ==> flen == gve.rows * (gve.cols + 1),
                pr ==> rows < gve.rows,
                pr ==> p0 == pos + (rows as int) * (gve.cols + 1),
                pr ==> rlen <= gve.cols,
                pr ==> p == p0 + 1 + rlen,
                pr ==> cells@ == gve.cells.take((rows as int) * gve.cols + rlen),
            decreases n - p,
        {
            proof {
                if pr {
                    assert(rlen < gve.cols) by {
                        if rlen == gve.cols {
                            lemma_rows_text_len(gve, 0);
                            let off = (rows as int) * (gve.cols + 1) + (gve.cols + 1);
                            assert(off == ((rows as int) + 1) * (gve.cols + 1))
                                by (nonlinear_arith)
                                requires
                                    off == (rows as int) * (gve.cols + 1) + (gve.cols + 1),
                            ;
                            assert(off <= flen) by (nonlinear_arith)
                                requires
                                    off == ((rows as int) + 1) * (gve.cols + 1),
                                    flen == gve.rows * (gve.cols + 1),
                                    (rows as int) < gve.rows,
                                    1 <= gve.cols,
                            ;
                            if off == flen {
                                assert(bytes@[p as int] == 59u8);
                            } else {
                                assert((rows as int) + 1 < gve.rows) by (nonlinear_arith)
                                    requires
                                        ((rows as int) + 1) * (gve.cols + 1) < gve.rows * (gve.cols
                                            + 1),
                                        1 <= gve.cols,
                                ;
                                lemma_rows_text_index(gve, 0, rows as int + 1);
                                assert(bytes@[pos + off] == rows_text(gve, 0)[off]);
                                assert(bytes@[p as int] == 10u8);
                            }
                        }
                    }
                    lemma_rows_text_index(gve, 0, rows as int);
                    let off2 = (rows as int) * (gve.cols + 1) + 1 + rlen;
                    assert(off2 < flen) by (nonlinear_arith)
                        requires
                            rlen < gve.cols,
                            (rows as int) < gve.rows,
                            off2 == (rows as int) * (gve.cols + 1) + 1 + rlen,
                            flen == gve.rows * (gve.cols + 1),
                            1 <= gve.cols,
                    ;
                    assert(bytes@[pos + off2] == rows_text(gve, 0)[off2]);
                    assert(rows_text(gve, 0)[(rows as int) * (gve.cols + 1) + 1 + rlen] == (
                    spec_id_to_char(gve.cell(rows as int, rlen as int)) as u8));
                }
            }
            let b = bytes[p];
            let id = char_to_id(b as char);
            proof {
                if pr {
                    let cell = gve.cell(rows as int, rlen as int);
                    assert(b == (spec_id_to_char(cell) as u8));
                    crate::rule::pattern_rule::lemma_cell_index(gve.rows, gve.cols, rows as int,
                        rlen as int);
                    assert(representable(cell));
                    assert((spec_id_to_char(cell) as u32) < 128);
                    assert((b as char) == spec_id_to_char(cell));
                    crate::lemma_char_id_round_trip(cell);
                    assert(id == cell);
                    assert(gve.cells.take((rows as int) * gve.cols + rlen + 1)
                        =~= gve.cells.take((rows as int) * gve.cols + rlen).push(cell)) by {
                        assert(gve.cells[(rows as int) * gve.cols + rlen] == cell);
                    }
                }
            }
            cells.push(id);
            p += 1;
            rlen += 1;
        }
        proof {
            if pr {
                assert(rlen == gve.cols) by {
                    if (rlen as int) < gve.cols {
                        lemma_rows_text_index(gve, 0, rows as int);
                        let off2 = (rows as int) * (gve.cols + 1) + 1 + rlen;
                        assert(off2 < flen) by (nonlinear_arith)
                            requires
                                (rlen as int) < gve.cols,
                                (rows as int) < gve.rows,
                                off2 == (rows as int) * (gve.cols + 1) + 1 + rlen,
                                flen == gve.rows * (gve.cols + 1),
                                1 <= gve.cols,
                        ;
                        assert(bytes@[pos + off2] == rows_text(gve, 0)[off2]);
                        assert(rows_text(gve, 0)[(rows as int) * (gve.cols + 1) + 1 + rlen] == (
                        spec_id_to_char(gve.cell(rows as int, rlen as int)) as u8));
                        lemma_row_byte(gve.cell(rows as int, rlen as int));
                        assert(p < n);
                        assert(false);
                    }
                }
            }
        }
        if rows == 0 {
            if rlen == 0 {
                proof {
                    if pr {
                        assert(false);
                    }
                }
                return Err(CelluminaError::CustomError(parse_error_text()));
            }
            cols = rlen;
        } else if rlen != cols {
            proof {
                if pr {
                    assert(false);
                }
            }
            return Err(CelluminaError::CustomError(parse_error_text()));
        }
        proof {
            assert((rows as int) * (cols as int) + (cols as int) == (rows as int + 1) * (
            cols as int)) by (nonlinear_arith);
            if pr {
                assert((rows as int) * (gve.cols + 1) + (gve.cols + 1) == (rows as int + 1) * (
                gve.cols + 1)) by (nonlinear_arith);
                assert((rows as int) * gve.cols + gve.cols == (rows as int + 1) * gve.cols)
                    by (nonlinear_arith);
            }
        }
        rows += 1;
    }
    proof {
        if pr {
            assert(rows == gve.rows) by {
                if (rows as int) < gve.rows {
                    lemma_rows_text_index(gve, 0, rows as int);
                    lemma_rows_text_len(gve, 0);
                    let off = (rows as int) * (gve.cols + 1);
                    assert(off < flen) by (nonlinear_arith)
                        requires
                            (rows as int) < gve.rows,
                            off == (rows as int) * (gve.cols + 1),
                            flen == gve.rows * (gve.cols + 1),
                            1 <= gve.cols,
                    ;
                    assert(bytes@[pos + off] == rows_text(gve, 0)[off]);
                    assert(p < n);
                    assert(false);
                }
            }
            assert(p == pos + flen) by (nonlinear_arith)
                requires
                    p == pos + (rows as int) * (gve.cols + 1),
                    flen == gve.rows * (gve.cols + 1),
                    (rows as int) == gve.rows,
            ;
            assert(bytes@[p as int] == 59u8);
        }
    }
    if rows == 0 || cols == 0 {
        proof {
            if pr {
                assert(false);
            }
        }
        return Err(CelluminaError::CustomError(parse_error_text()));
    }
    if p < n && bytes[p] == 59 {
        p += 1;
    } else {
        proof {
            if pr {
                assert(false);
            }
        }
        return Err(CelluminaError::CustomError(parse_error_text()));
    }
    proof {
        assert(cells@.len() >= (1int) * (cols as int)) by (nonlinear_arith)
            requires
                cells@.len() == (rows as int) * (cols as int),
                1 <= rows as int,
                1 <= cols as int,
        ;
        vstd::arithmetic::div_mod::lemma_mod_multiples_basic(rows as int, cols as int);
        vstd::arithmetic::div_mod::lemma_div_multiples_vanish(rows as int, cols as int);
        assert((rows as int) * (cols as int) == (cols as int) * (rows as int))
            by (nonlinear_arith);
    }
    let g = grid_from_vec(cells, cols);
    proof {
        assert(grid_rows(g) == rows as int);
        if pr {
            assert(gve.cells.take((rows as int) * gve.cols) =~= gve.cells);
            assert(view_of(g) == gve);
        }
    }
    Ok((g, p))
}

/// A pattern whose text parses back to the same fields.
pub open spec fn serializable_pattern(p: PatternView) -> bool {
    &&& p.before.wf()
    &&& p.after.wf()
    &&& 1 <= p.before.rows
    &&& 1 <= p.before.cols
    &&& p.after.rows == p.before.rows
    &&& p.after.cols == p.before.cols
    &&& representable_cells(p.before)
    &&& representable_cells(p.after)
    &&& 0 <= p.chance <= u32::MAX
    &&& i64::MIN <= p.priority <= i64::MAX
}

/// The premise of the exact-parse clause for a pattern block.
pub open spec fn pattern_premise(bytes: Seq<u8>, pos: int, p: PatternView) -> bool {
    let f = fmt_pattern(p);
    &&& serializable_pattern(p)
    &&& 0 <= pos
    &&& pos + f.len() <= bytes.len()
    &&& (forall|i: int| 0 <= i < f.len() ==> bytes[pos + i] == #[trigger] f[i])
}

/// Reads one pattern block: chance, priority and the two templates.
fn parse_pattern(bytes: &Vec<u8>, pos: usize, expect: Ghost<Option<PatternView>>) -> (res: Result<
    (Pattern, usize),
    CelluminaError,
>)
    requires
        pos <= bytes@.len(),
    ensures
        match res {
            Ok((pat, p2)) => pos < p2 <= bytes@.len() && pattern_wf(pat),
            Err(_) => true,
        },
        (expect@ matches Some(pv) && pattern_premise(bytes@, pos as int, pv)) ==> (res matches Ok(
            (pat, p2),
        ) && expect@ matches Some(pv) && pattern_view(pat) == pv && p2 == pos + fmt_pattern(
            expect@->0,
        ).len()),
        (pos == bytes@.len() || !is_digit(bytes@[pos as int])) ==> res is Err,
{
    let ghost pv: PatternView = if expect@ is Some {
        expect@->0
    } else {
        PatternView {
            chance: 0,
            priority: 0,
            before: GridView { rows: 0, cols: 0, cells: Seq::empty() },
            after: GridView { rows: 0, cols: 0, cells: Seq::empty() },
        }
    };
    let ghost pr: bool = expect@ is Some && pattern_premise(bytes@, pos as int, pv);
    let ghost f = fmt_pattern(pv);
    let ghost seg_c = fmt_fixed(pv.chance as nat);
    let ghost seg_p = fmt_fixed_signed(pv.priority);
    let ghost seg_r1 = rows_text(pv.before, 0);
    let ghost seg_r2 = rows_text(pv.after, 0);
    let ghost o2: int = seg_c.len() as int + 2;
    let ghost o4: int = o2 + seg_p.len() as int + 1;
    let ghost o6: int = o4 + seg_r1.len() as int + 1;
    let ghost o8: int = o6 + seg_r2.len() as int;
    proof {
        if pr {
            assert(f =~= seg_c + seq![59u8, 10u8] + seg_p + seq![59u8] + seg_r1 + seq![59u8]
                + seg_r2 + seq![59u8, 10u8]);
            assert(f.len() == o8 + 2);
            assert forall|i: int| 0 <= i < seg_c.len() implies bytes@[pos + i] == #[trigger] seg_c[i] by {
                assert(f[i] == seg_c[i]);
                assert(bytes@[pos + i] == f[i]);
            }
            assert(bytes@[pos + seg_c.len()] == f[seg_c.len() as int]);
            assert(f[seg_c.len() as int] == 59u8);
            assert(bytes@[pos + seg_c.len() + 1] == f[seg_c.len() as int + 1]);
            assert(f[seg_c.len() as int + 1] == 10u8);
            assert(premise_holds(bytes@, pos as int, pv.chance as nat));
            assert forall|i: int| 0 <= i < seg_p.len() implies bytes@[(pos + o2) + i]
                == #[trigger] seg_p[i] by {
                assert(f[o2 + i] == seg_p[i]);
                assert(bytes@[pos + (o2 + i)] == f[o2 + i]);
            }
            assert(bytes@[pos + o2 + seg_p.len()] == f[o2 + seg_p.len()]);
            assert(f[o2 + seg_p.len()] == 59u8);
            assert(premise_signed(bytes@, pos as int + o2, pv.priority));
            assert forall|i: int| 0 <= i < seg_r1.len() implies bytes@[(pos + o4) + i]
                == #[trigger] seg_r1[i] by {
                assert(f[o4 + i] == seg_r1[i]);
                assert(bytes@[pos + (o4 + i)] == f[o4 + i]);
            }
            assert(bytes@[pos + o4 + seg_r1.len()] == f[o4 + seg_r1.len()]);
            assert(f[o4 + seg_r1.len()] == 59u8);
            assert(rows_premise(bytes@, pos as int + o4, pv.before));
            assert forall|i: int| 0 <= i < seg_r2.len() implies bytes@[(pos + o6) + i]
                == #[trigger] seg_r2[i] by {
                assert(f[o6 + i] == seg_r2[i]);
                assert(bytes@[pos + (o6 + i)] == f[o6 + i]);
            }
            assert(bytes@[pos + o6 + seg_r2.len()] == f[o6 + seg_r2.len()]);
            assert(f[o6 + seg_r2.len()] == 59u8);
            assert(rows_premise(bytes@, pos as int + o6, pv.after));
            assert(bytes@[pos + o8 + 1] == f[o8 + 1]);
            assert(f[o8 + 1] == 10u8);
        }
    }
    let ghost chance_expect: Option<u64> = if pr {
        Some((pv.chance as nat) as u64)
    } else {
        None
    };
    let (chance64, p1) = match parse_fixed(bytes, pos, Ghost(chance_expect)) {
        Ok(t) => t,
        Err(e) => {
            return Err(e);
        },
    };
    if chance64 > 4294967295u64 {
        return Err(CelluminaError::CustomError(parse_error_text()));
    }
    let p2 = match eat(bytes, p1, 59) {
        Ok(t) => t,
        Err(e) => {
            return Err(e);
        },
    };
    let p3 = match eat(bytes, p2, 10) {
        Ok(t) => t,
        Err(e) => {
            return Err(e);
        },
    };
    let ghost pri_expect: Option<i64> = if pr {
        Some((pv.priority) as i64)
    } else {
        None
    };
    let (priority, p4) = match parse_fixed_signed(bytes, p3, Ghost(pri_expect)) {
        Ok(t) => t,
        Err(e) => {
            return Err(e);
        },
    };
    let p5 = match eat(bytes, p4, 59) {
        Ok(t) => t,
        Err(e) => {
            return Err(e);
        },
    };
    let ghost before_expect: Option<GridView> = if pr {
        Some(pv.before)
    } else {
        None
    };
    let (before, p6) = match parse_rows(bytes, p5, Ghost(before_expect)) {
        Ok(t) => t,
        Err(e) => {
            return Err(e);
        },
    };
    let ghost after_expect: Option<GridView> = if pr {
        Some(pv.after)
    } else {
        None
    };
    let (after, p7) = match parse_rows(bytes, p6, Ghost(after_expect)) {
        Ok(t) => t,
        Err(e) => {
            return Err(e);
        },
    };
    let p8 = match eat(bytes, p7, 10) {
        Ok(t) => t,
        Err(e) => {
            return Err(e);
        },
    };
    let pat = match Pattern::new(chance64 as u32, priority, before, after) {
        Ok(t) => t,
        Err(e) => {
            proof {
                if pr {
                    assert(false);
                }
            }
            return Err(e);
        },
    };
    proof {
        if pr {
            assert(pattern_view(pat) == pv);
            assert(p8 == pos + f.len());
        }
    }
    Ok((pat, p8))
}

/// A rule whose text parses back to the same boundary policies and pattern
/// fields.
pub open spec fn rule_serializable(
    rb: BoundaryBehaviour,
    cb: BoundaryBehaviour,
    ps: Seq<PatternView>,
) -> bool {
    &&& boundary_representable(rb)
    &&& boundary_representable(cb)
    &&& forall|i: int| 0 <= i < ps.len() ==> serializable_pattern(#[trigger] ps[i])
}

/// The premise of the exact-parse clause for a whole rule: the input is
/// exactly the rule's text.
pub open spec fn rule_premise(
    bytes: Seq<u8>,
    rb: BoundaryBehaviour,
    cb: BoundaryBehaviour,
    ps: Seq<PatternView>,
) -> bool {
    &&& rule_serializable(rb, cb, ps)
    &&& bytes == fmt_rule(rb, cb, ps)
}

/// Parses a whole rule, optionally against an expected decomposition.
fn parse_rule(
    bytes: &Vec<u8>,
    expect: Ghost<Option<(BoundaryBehaviour, BoundaryBehaviour, Seq<PatternView>)>>,
) -> (res: Result<PatternRule, CelluminaError>)
    ensures
        res matches Ok(rule) ==> rule.patterns_wf(),
        (expect@ matches Some(t) && rule_premise(bytes@, t.0, t.1, t.2)) ==> (res matches Ok(rule)
            && expect@ matches Some(t) && rule.row_boundary == t.0 && rule.col_boundary == t.1
            && pattern_views(rule.patterns@) == t.2),
        !boundary_text_at(bytes@, 0) ==> res is Err,
{
    let ghost (rb0, cb0, ps0): (BoundaryBehaviour, BoundaryBehaviour, Seq<PatternView>) = if expect@
        is Some {
        expect@->0
    } else {
        (BoundaryBehaviour::Periodic, BoundaryBehaviour::Periodic, Seq::empty())
    };
    let ghost pr: bool = expect@ is Some && rule_premise(bytes@, rb0, cb0, ps0);
    let ghost f = fmt_rule(rb0, cb0, ps0);
    proof {
        if pr {
            assert(fmt_boundary(rb0).len() == 8);
            assert(fmt_boundary(cb0).len() == 8);
            assert(f =~= fmt_boundary(rb0) + seq![59u8, 10u8, 10u8] + fmt_boundary(cb0) + seq![
                59u8,
                10u8,
                10u8,
            ] + fmt_blocks(ps0, 0));
            assert(bytes@ == f);
            assert forall|i: int| 0 <= i < 8 implies bytes@[0 + i] == #[trigger] fmt_boundary(
                rb0,
            )[i] by {
                assert(f[i] == fmt_boundary(rb0)[i]);
            }
            assert(premise_boundary(bytes@, 0, rb0));
            assert(bytes@[8int] == f[8int] && f[8int] == 59u8);
            assert(bytes@[9int] == f[9int] && f[9int] == 10u8);
            assert(bytes@[10int] == f[10int] && f[10int] == 10u8);
            assert forall|i: int| 0 <= i < 8 implies bytes@[11 + i] == #[trigger] fmt_boundary(
                cb0,
            )[i] by {
                assert(f[11 + i] == fmt_boundary(cb0)[i]);
            }
            assert(premise_boundary(bytes@, 11, cb0));
            assert(bytes@[19int] == f[19int] && f[19int] == 59u8);
            assert(bytes@[20int] == f[20int] && f[20int] == 10u8);
            assert(bytes@[21int] == f[21int] && f[21int] == 10u8);
            assert(bytes@.subrange(22, bytes@.len() as int) =~= fmt_blocks(ps0, 0));
        }
    }
    let n = bytes.len();
    let ghost rb_expect: Option<BoundaryBehaviour> = if pr {
        Some(rb0)
    } else {
        None
    };
    let (row_boundary, p1) = match parse_boundary(bytes, 0, Ghost(rb_expect)) {
        Ok(t) => t,
        Err(e) => {
            return Err(e);
        },
    };
    let mut p = p1;
    let mut k: usize = 0;
    while k < 3
        invariant
            p <= bytes@.len(),
            k <= 3,
            pr <==> (expect@ is Some && rule_premise(bytes@, rb0, cb0, ps0)),
            expect@ is Some ==> expect@->0 == (rb0, cb0, ps0),
            pr ==> p == 8 + k && bytes@[8int] == 59u8 && bytes@[9int] == 10u8 && bytes@[10int]
                == 10u8,
        decreases 3 - k,
    {
        let want: u8 = if k == 0 {
            59
        } else {
            10
        };
        p = match eat(bytes, p, want) {
            Ok(t) => t,
            Err(e) => {
                proof {
                    if pr {
                        assert(false);
                    }
                }
                return Err(e);
            },
        };
        k += 1;
    }
    let ghost cb_expect: Option<BoundaryBehaviour> = if pr {
        Some(cb0)
    } else {
        None
    };
    let (col_boundary, p2) = match parse_boundary(bytes, p, Ghost(cb_expect)) {
        Ok(t) => t,
        Err(e) => {
            return Err(e);
        },
    };
    p = p2;
    k = 0;
    while k < 3
        invariant
            p <= bytes@.len(),
            k <= 3,
            pr <==> (expect@ is Some && rule_premise(bytes@, rb0, cb0, ps0)),
            expect@ is Some ==> expect@->0 == (rb0, cb0, ps0),
            pr ==> p == 19 + k && bytes@[19int] == 59u8 && bytes@[20int] == 10u8 && bytes@[21int]
                == 10u8,
        decreases 3 - k,
    {
        let want: u8 = if k == 0 {
            59
        } else {
            10
        };
        p = match eat(bytes, p, want) {
            Ok(t) => t,
            Err(e) => {
                proof {
                    if pr {
                        assert(false);
                    }
                }
                return Err(e);
            },
        };
        k += 1;
    }
    let mut patterns: Vec<Pattern> = Vec::new();
    let ghost kp: int = 0;
    proof {
        if pr {
            assert(pattern_views(patterns@) =~= ps0.take(0));
        }
    }
    while p < n
        invariant
            p <= bytes@.len(),
            n == bytes@.len(),
            forall|i: int| 0 <= i < patterns@.len() ==> pattern_wf(#[trigger] patterns@[i]),
            pr <==> (expect@ is Some && rule_premise(bytes@, rb0, cb0, ps0)),
            expect@ is Some ==> expect@->0 == (rb0, cb0, ps0),
            pr ==> 0 <= kp <= ps0.len(),
            pr ==> pattern_views(patterns@) == ps0.take(kp),
            pr ==> bytes@.subrange(p as int, n as int) == fmt_blocks(ps0, kp),
        decreases n - p,
    {
        let ghost fp = fmt_pattern(ps0[kp]);
        proof {
            if pr {
                assert(kp < ps0.len()) by {
                    if kp >= ps0.len() {
                        assert(fmt_blocks(ps0, kp) =~= Seq::<u8>::empty());
                        assert(bytes@.subrange(p as int, n as int).len() == 0);
                    }
                }
                assert(fmt_blocks(ps0, kp) == fp + seq![10u8] + fmt_blocks(ps0, kp + 1));
                assert(p + fp.len() + 1 <= n);
                assert forall|i: int| 0 <= i < fp.len() implies bytes@[(p as int) + i]
                    == #[trigger] fp[i] by {
                    assert(bytes@.subrange(p as int, n as int)[i] == bytes@[p + i]);
                    assert(fmt_blocks(ps0, kp)[i] == fp[i]);
                }
                assert(serializable_pattern(ps0[kp]));
                assert(pattern_premise(bytes@, p as int, ps0[kp]));
            }
        }
        let ghost pat_expect: Option<PatternView> = if pr {
            Some(ps0[kp])
        } else {
            None
        };
        let (pat, p9) = match parse_pattern(bytes, p, Ghost(pat_expect)) {
            Ok(t) => t,
            Err(e) => {
                return Err(e);
            },
        };
        let p10 = match eat(bytes, p9, 10) {
            Ok(t) => t,
            Err(e) => {
                proof {
                    if pr {
                        assert(bytes@.subrange(p as int, n as int)[fp.len() as int] == bytes@[p
                            + fp.len()]);
                        assert(fmt_blocks(ps0, kp)[fp.len() as int] == 10u8);
                        assert(false);
                    }
                }
                return Err(e);
            },
        };
        let ghost patterns_old = patterns@;
        patterns.push(pat);
        proof {
            if pr {
                assert(bytes@.subrange(p as int, n as int)[fp.len() as int] == bytes@[p
                    + fp.len()]);
                assert(fmt_blocks(ps0, kp)[fp.len() as int] == 10u8);
                assert(p10 == p + fp.len() + 1);
                assert(pattern_views(patterns@) =~= ps0.take(kp + 1)) by {
                    assert(pattern_views(patterns_old) == ps0.take(kp));
                    assert(forall|t: int|
                        0 <= t < patterns_old.len() ==> patterns@[t] == #[trigger] patterns_old[t]);
                    assert(pattern_view(patterns@[kp]) == ps0[kp]);
                }
                assert(bytes@.subrange(p10 as int, n as int) =~= fmt_blocks(ps0, kp + 1)) by {
                    assert forall|t: int|
                        0 <= t < n - p10 implies bytes@.subrange(p10 as int, n as int)[t]
                        == fmt_blocks(ps0, kp + 1)[t] by {
                        assert(bytes@.subrange(p10 as int, n as int)[t] == bytes@[p10 + t]);
                        assert(bytes@.subrange(p as int, n as int)[fp.len() + 1 + t] == bytes@[p
                            + (fp.len() + 1 + t)]);
                        assert(fmt_blocks(ps0, kp)[fp.len() + 1 + t] == fmt_blocks(ps0, kp + 1)[t]);
                    }
                }
                kp = kp + 1;
            }
        }
        p = p10;
    }
    proof {
        if pr {
            assert(kp == ps0.len()) by {
                if kp < ps0.len() {
                    let fp = fmt_pattern(ps0[kp]);
                    assert(fmt_blocks(ps0, kp) == fp + seq![10u8] + fmt_blocks(ps0, kp + 1));
                    assert(bytes@.subrange(p as int, n as int).len() == 0);
                }
            }
            assert(ps0.take(kp) =~= ps0);
        }
    }
    Ok(PatternRule { patterns, row_boundary, col_boundary })
}

impl PatternRule {
    /// Parses a rule from its text form; malformed text is rejected with an
    /// explicit error rather than falling back to a default. Any text that
    /// is the exact serialization of some representable rule parses
    /// successfully, to a rule that serializes back to that very text.
    pub fn from_text(bytes: &Vec<u8>) -> (res: Result<PatternRule, CelluminaError>)
        ensures
            res matches Ok(rule) ==> rule.patterns_wf(),
            (exists|rb: BoundaryBehaviour, cb: BoundaryBehaviour, ps: Seq<PatternView>|
                #[trigger] rule_premise(bytes@, rb, cb, ps)) ==> (res matches Ok(rule)
                && rule.patterns_wf() && bytes@ == fmt_rule(
                rule.row_boundary,
                rule.col_boundary,
                pattern_views(rule.patterns@),
            )),
            !boundary_text_at(bytes@, 0) ==> res is Err,
    {
        let ghost expected: Option<(BoundaryBehaviour, BoundaryBehaviour, Seq<PatternView>)> = if (
        exists|rb: BoundaryBehaviour, cb: BoundaryBehaviour, ps: Seq<PatternView>|
            #[trigger] rule_premise(bytes@, rb, cb, ps)) {
            Some(
                choose|rb: BoundaryBehaviour, cb: BoundaryBehaviour, ps: Seq<PatternView>|
                    #[trigger] rule_premise(bytes@, rb, cb, ps),
            )
        } else {
            None
        };
        let res = parse_rule(bytes, Ghost(expected));
        proof {
            if expected is Some {
                let (rb0, cb0, ps0) = expected->0;
                assert(rule_premise(bytes@, rb0, cb0, ps0));
            }
        }
        res
    }

    /// Serialization round trip: for a rule whose boundary symbols and
    /// template cells are representable characters, parsing the rule's own
    /// text recovers a rule with identical boundary policies and identical
    /// pattern fields.
    pub fn parse_serialized(&self) -> (r: PatternRule)
        requires
            self.patterns_wf(),
            boundary_representable(self.row_boundary),
            boundary_representable(self.col_boundary),
            forall|i: int|
                0 <= i < self.patterns@.len() ==> representable_cells(
                    (#[trigger] pattern_views(self.patterns@)[i]).before,
                ) && representable_cells(pattern_views(self.patterns@)[i].after),
        ensures
            r.row_boundary == self.row_boundary,
            r.col_boundary == self.col_boundary,
            pattern_views(r.patterns@) == pattern_views(self.patterns@),
    {
        let ghost ps = pattern_views(self.patterns@);
        proof {
            assert forall|i: int| 0 <= i < ps.len() implies serializable_pattern(
                #[trigger] ps[i],
            ) by {
                assert(pattern_wf(self.patterns@[i]));
                assert(ps[i] == pattern_view(self.patterns@[i]));
            }
        }
        let text = self.to_text();
        let ghost trip = (self.row_boundary, self.col_boundary, ps);
        match parse_rule(&text, Ghost(Some(trip))) {
            Ok(r) => r,
            Err(_) => {
                proof {
                    assert(false);
                }
                PatternRule::new_empty()
            },
        }
    }
}

impl Pattern {
    /// Parses one pattern block from its text form; malformed text —
    /// including a chance field that is not a digit run — is rejected with
    /// an explicit error rather than defaulted. Any text that is the exact
    /// serialization of some representable pattern parses successfully, to a
    /// pattern that serializes back to that very text.
    pub fn from_text(bytes: &Vec<u8>) -> (res: Result<Pattern, CelluminaError>)
        ensures
            res matches Ok(p) ==> pattern_wf(p),
            (exists|pv: PatternView|
                #[trigger] pattern_premise(bytes@, 0, pv) && bytes@.len() == fmt_pattern(
                    pv,
                ).len()) ==> (res matches Ok(p) && pattern_wf(p) && bytes@ == fmt_pattern(
                pattern_view(p),
            )),
            (bytes@.len() == 0 || !is_digit(bytes@[0])) ==> res is Err,
    {
        let ghost expected: Option<PatternView> = if (exists|pv: PatternView|
            #[trigger] pattern_premise(bytes@, 0, pv) && bytes@.len() == fmt_pattern(pv).len()) {
            Some(
                choose|pv: PatternView|
                    #[trigger] pattern_premise(bytes@, 0, pv) && bytes@.len() == fmt_pattern(
                        pv,
                    ).len(),
            )
        } else {
            None
        };
        match parse_pattern(bytes, 0, Ghost(expected)) {
            Ok((pat, p2)) => {
                if p2 == bytes.len() {
                    Ok(pat)
                } else {
                    proof {
                        if expected is Some {
                            assert(false);
                        }
                    }
                    Err(CelluminaError::CustomError(parse_error_text()))
                }
            },
            Err(e) => Err(e),
        }
    }

    /// Serialization round trip: for a pattern whose template cells are
    /// representable characters, parsing the pattern's own text recovers a
    /// pattern with the same chance, the same priority and cell-for-cell
    /// equal templates.
    pub fn parse_serialized(&self) -> (r: Pattern)
        requires
            pattern_wf(*self),
            representable_cells(view_of(self.before)),
            representable_cells(view_of(self.after)),
        ensures
            r.chance == self.chance,
            r.priority == self.priority,
            view_of(r.before) == view_of(self.before),
            view_of(r.after) == view_of(self.after),
    {
        let ghost pv = pattern_view(*self);
        let text = self.to_text();
        proof {
            assert(serializable_pattern(pv));
            assert(pattern_premise(text@, 0, pv));
        }
        match parse_pattern(&text, 0, Ghost(Some(pv))) {
            Ok((pat, _)) => pat,
            Err(_) => {
                proof {
                    assert(false);
                }
                Pattern::default()
            },
        }
    }
}

} // verus!
