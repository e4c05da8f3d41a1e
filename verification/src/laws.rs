//! General laws of the scanner, proved against the model in `model`: what a
//! whole digit run, fixed-point literal, identifier, reserved word, symbol
//! run or comment scans to, that whitespace is skipped without trace, and
//! how the line counter moves.

use vstd::prelude::*;

use crate::model::SpecOutcome;
use crate::model::digits_value;
use crate::model::lemma_cmt_end_is;
use crate::model::lemma_ident_end_is;
use crate::model::lemma_num_end_is;
use crate::model::lemma_newline_count_nonneg;
use crate::model::lemma_ws_end_bounds;
use crate::model::lemma_ws_end_is;
use crate::model::line_after;
use crate::model::newline_count;
use crate::model::spec_scan;
use crate::model::sym_stop;
use crate::model::symbolic_outcome;
use crate::model::ws_end;
use crate::types::SpecToken;
use crate::types::is_digit;
use crate::types::is_ident_part;
use crate::types::is_ident_start;
use crate::types::is_symbolic;
use crate::types::is_white;

verus! {

/// Ten to the `k`th power.
pub open spec fn pow10(k: nat) -> int
    decreases k,
{
    if k == 0 {
        1
    } else {
        10 * pow10((k - 1) as nat)
    }
}

/// The positional base-10 reading of a digit string:
/// `d1 * 10^(n-1) + d2 * 10^(n-2) + ... + dn`.
pub open spec fn base10(s: Seq<u8>) -> int
    decreases s.len(),
{
    if s.len() == 0 {
        0
    } else {
        (s[0] - 48) * pow10((s.len() - 1) as nat) + base10(s.drop_first())
    }
}

proof fn lemma_base10_push(s: Seq<u8>, b: u8)
    ensures
        base10(s.push(b)) == base10(s) * 10 + (b - 48),
    decreases s.len(),
{
    if s.len() == 0 {
        assert(s.push(b).drop_first() =~= Seq::<u8>::empty());
        assert(s.push(b)[0] == b);
        assert(base10(s.push(b)) == (b - 48) * pow10(0) + base10(s.push(b).drop_first()));
        assert(base10(s.push(b).drop_first()) == 0);
        assert(pow10(0) == 1);
        assert(base10(s) == 0);
        assert((b - 48) * 1 == b - 48) by (nonlinear_arith);
    } else {
        assert(s.push(b).drop_first() =~= s.drop_first().push(b));
        lemma_base10_push(s.drop_first(), b);
        assert(pow10(s.len() as nat) == 10 * pow10((s.len() - 1) as nat));
        assert((s[0] - 48) * pow10(s.len() as nat) == ((s[0] - 48) * pow10(
            (s.len() - 1) as nat,
        )) * 10) by (nonlinear_arith)
            requires
                pow10(s.len() as nat) == 10 * pow10((s.len() - 1) as nat),
        ;
        assert(s.push(b)[0] == s[0]);
        assert(base10(s.push(b)) == (s.push(b)[0] - 48) * pow10(s.len() as nat) + base10(
            s.push(b).drop_first(),
        ));
        assert(base10(s.push(b).drop_first()) == base10(s.drop_first()) * 10 + (b - 48));
        assert(base10(s) == (s[0] - 48) * pow10((s.len() - 1) as nat) + base10(s.drop_first()));
        assert(base10(s) * 10 == ((s[0] - 48) * pow10((s.len() - 1) as nat)) * 10 + base10(
            s.drop_first(),
        ) * 10) by (nonlinear_arith)
            requires
                base10(s) == (s[0] - 48) * pow10((s.len() - 1) as nat) + base10(s.drop_first()),
        ;
    }
}

/// On a pure digit string, the scanner's left-to-right accumulation agrees
/// with the positional base-10 reading.
pub proof fn lemma_digits_value_is_base10(s: Seq<u8>)
    requires
        forall|m: int| 0 <= m < s.len() ==> is_digit(s[m]),
    ensures
        digits_value(s) == base10(s),
    decreases s.len(),
{
    if s.len() > 0 {
        lemma_digits_value_is_base10(s.drop_last());
        assert(s.drop_last().push(s.last()) =~= s);
        lemma_base10_push(s.drop_last(), s.last());
    }
}

/// For a string of digits (no separators) whose value fits the token's
/// 32-bit width, one scan call yields `Int` with exactly the base-10 value
/// and consumes the whole string.
pub proof fn lemma_scan_digit_run(words: Map<Seq<u8>, SpecToken>, s: Seq<u8>)
    requires
        s.len() > 0,
        forall|m: int| 0 <= m < s.len() ==> is_digit(s[m]),
        base10(s) <= i32::MAX,
    ensures
        spec_scan(words, s, 0) == SpecOutcome::Tok(SpecToken::Int(base10(s)), s.len() as int),
{
    lemma_digits_value_is_base10(s);
    lemma_ws_end_is(s, 0, 0);
    lemma_num_end_is(s, 0, s.len() as int);
    assert(s.subrange(0, s.len() as int) =~= s);
}

/// For `d1..dn '.' f1..fm` with digit runs on both sides of the point and an
/// integer part that fits the token's width, one scan call yields
/// `FloatingPoint` carrying that integer part and exactly the fractional
/// digits, and consumes the whole literal.
pub proof fn lemma_scan_fixed_point(words: Map<Seq<u8>, SpecToken>, d: Seq<u8>, f: Seq<u8>)
    requires
        d.len() > 0,
        forall|m: int| 0 <= m < d.len() ==> is_digit(d[m]),
        forall|m: int| 0 <= m < f.len() ==> is_digit(f[m]),
        base10(d) <= i32::MAX,
    ensures
        spec_scan(words, d + seq![46u8] + f, 0) == SpecOutcome::Tok(
            SpecToken::Float { whole: base10(d), frac: f },
            d.len() + 1 + f.len() as int,
        ),
{
    let s = d + seq![46u8] + f;
    let dlen = d.len() as int;
    lemma_digits_value_is_base10(d);
    lemma_ws_end_is(s, 0, 0);
    lemma_num_end_is(s, 0, dlen);
    assert(s.subrange(0, dlen) =~= d);
    assert(s[dlen] == 46);
    lemma_num_end_is(s, dlen + 1, s.len() as int);
    assert(s.subrange(dlen + 1, s.len() as int) =~= f);
}

/// An identifier-class string that is not a registered reserved word scans
/// to `Identifier` carrying exactly that string, consuming all of it.
pub proof fn lemma_scan_identifier(words: Map<Seq<u8>, SpecToken>, s: Seq<u8>)
    requires
        s.len() > 0,
        is_ident_start(s[0]),
        forall|m: int| 0 <= m < s.len() ==> is_ident_part(s[m]),
        !words.contains_key(s),
    ensures
        spec_scan(words, s, 0) == SpecOutcome::Tok(SpecToken::Var(s), s.len() as int),
{
    lemma_ws_end_is(s, 0, 0);
    lemma_ident_end_is(s, 0, s.len() as int);
    assert(s.subrange(0, s.len() as int) =~= s);
}

/// The exact text of a registered reserved word scans to that word's
/// registered token, not to `Identifier`.
pub proof fn lemma_scan_reserved(words: Map<Seq<u8>, SpecToken>, s: Seq<u8>)
    requires
        s.len() > 0,
        is_ident_start(s[0]),
        forall|m: int| 0 <= m < s.len() ==> is_ident_part(s[m]),
        words.contains_key(s),
    ensures
        spec_scan(words, s, 0) == SpecOutcome::Tok(words[s], s.len() as int),
{
    lemma_ws_end_is(s, 0, 0);
    lemma_ident_end_is(s, 0, s.len() as int);
    assert(s.subrange(0, s.len() as int) =~= s);
}

proof fn lemma_sym_stop_run(s: Seq<u8>, i: int, j: int)
    requires
        0 <= i < j <= s.len(),
        forall|m: int| i <= m < j ==> is_symbolic(s[m]),
        j < s.len() ==> !is_symbolic(s[j]),
        forall|m: int| i <= m < j - 1 ==> !(#[trigger] s[m] == 92 && s[m + 1] == 92),
    ensures
        sym_stop(s, i) == j - 1,
    decreases j - i,
{
    if i + 1 < j {
        lemma_sym_stop_run(s, i + 1, j);
    }
}

/// A run of symbol-class characters that does not open a comment and holds
/// no two consecutive backslashes scans to a single `Symbol` equal to the
/// full run, consuming all of it. Stated at the symbol branch, for a run
/// ending at `j` (the input's end, or the first non-symbol byte).
pub proof fn lemma_scan_symbol_run(words: Map<Seq<u8>, SpecToken>, s: Seq<u8>, i: int, j: int)
    requires
        0 <= i < j <= s.len(),
        ws_end(s, i) == i,
        forall|m: int| i <= m < j ==> is_symbolic(s[m]),
        j < s.len() ==> !is_symbolic(s[j]),
        s[i] == 47 && i + 1 < s.len() ==> s[i + 1] != 47 && s[i + 1] != 42,
        forall|m: int| i <= m < j - 1 ==> !(#[trigger] s[m] == 92 && s[m + 1] == 92),
    ensures
        spec_scan(words, s, i) == SpecOutcome::Tok(SpecToken::Sym(s.subrange(i, j)), j),
{
    lemma_sym_stop_run(s, i, j);
    if j < s.len() {
        assert(s[j] != 92);
    }
}

/// Two consecutive backslashes inside a symbol run close the token at once:
/// the returned `Symbol` holds the run up to (excluding) the pair, and the
/// cursor is left on the pair's second backslash.
pub proof fn lemma_symbol_escape(s: Seq<u8>, i: int, d: int)
    requires
        0 <= i <= d,
        d + 1 < s.len(),
        forall|m: int| i <= m < d ==> is_symbolic(s[m]),
        s[d] == 92,
        s[d + 1] == 92,
        forall|m: int| i <= m < d ==> !(#[trigger] s[m] == 92 && s[m + 1] == 92),
        s[i] == 47 ==> s[i + 1] != 47 && s[i + 1] != 42,
    ensures
        symbolic_outcome(s, i) == SpecOutcome::Tok(SpecToken::Sym(s.subrange(i, d)), d + 1),
{
    lemma_sym_stop_escape(s, i, d);
}

proof fn lemma_sym_stop_escape(s: Seq<u8>, i: int, d: int)
    requires
        0 <= i <= d,
        d + 1 < s.len(),
        forall|m: int| i <= m < d ==> is_symbolic(s[m]),
        s[d] == 92,
        s[d + 1] == 92,
        forall|m: int| i <= m < d ==> !(#[trigger] s[m] == 92 && s[m + 1] == 92),
    ensures
        sym_stop(s, i) == d,
    decreases d - i,
{
    if i < d {
        lemma_sym_stop_escape(s, i + 1, d);
    }
}

/// A line beginning with `//` scans to exactly one `Comment`, consuming the
/// comment's text and the newline that ends it, and nothing more.
pub proof fn lemma_scan_line_comment(words: Map<Seq<u8>, SpecToken>, s: Seq<u8>, nl: int)
    requires
        s.len() >= 2,
        s[0] == 47,
        s[1] == 47,
        2 <= nl < s.len(),
        s[nl] == 10,
        forall|m: int| 2 <= m < nl ==> s[m] != 10,
    ensures
        spec_scan(words, s, 0) == SpecOutcome::Tok(SpecToken::Comment, nl + 1),
{
    lemma_ws_end_is(s, 0, 0);
    lemma_cmt_end_is(s, 2, nl);
}

/// Whitespace between tokens leaves no trace: scanning from a whitespace
/// byte produces the same token and final cursor as scanning from just past
/// it, so no returned token ever holds a skipped byte.
pub proof fn lemma_whitespace_skipped(words: Map<Seq<u8>, SpecToken>, s: Seq<u8>, pos: int)
    requires
        0 <= pos < s.len(),
        is_white(s[pos]),
    ensures
        spec_scan(words, s, pos) == spec_scan(words, s, pos + 1),
{
    assert(ws_end(s, pos) == ws_end(s, pos + 1));
}

/// While the counter's width is not exhausted, one scan call advances the
/// line counter by exactly the number of newlines it skips as whitespace —
/// one per newline, and nothing else moves it.
pub proof fn lemma_line_increment(line: u32, s: Seq<u8>, pos: int)
    requires
        0 <= pos <= s.len(),
        line + newline_count(s, pos, ws_end(s, pos)) <= u32::MAX,
    ensures
        line_after(line, s, pos) == line + newline_count(s, pos, ws_end(s, pos)),
{
    lemma_ws_end_bounds(s, pos);
    lemma_newline_count_nonneg(s, pos, ws_end(s, pos));
}

} // verus!
