//! The mathematical model of one scan call: where each kind of run ends,
//! what value a digit run denotes, and which token and final cursor a call
//! must produce. The scanner's contracts are stated against `spec_scan`.

use vstd::prelude::*;

use crate::types::LexError;
use crate::types::SpecToken;
use crate::types::is_digit;
use crate::types::is_ident_part;
use crate::types::is_ident_start;
use crate::types::is_numeric;
use crate::types::is_symbolic;
use crate::types::is_white;

verus! {

/// First position at or after `i` holding a non-whitespace byte (or the end).
pub open spec fn ws_end(s: Seq<u8>, i: int) -> int
    decreases s.len() - i when 0 <= i <= s.len()
{
    if i >= s.len() {
        i
    } else if is_white(s[i]) {
        ws_end(s, i + 1)
    } else {
        i
    }
}

/// First position at or after `i` holding a byte outside the numeric class.
pub open spec fn num_end(s: Seq<u8>, i: int) -> int
    decreases s.len() - i when 0 <= i <= s.len()
{
    if i >= s.len() {
        i
    } else if is_numeric(s[i]) {
        num_end(s, i + 1)
    } else {
        i
    }
}

/// First position at or after `i` holding a byte outside the identifier class.
pub open spec fn ident_end(s: Seq<u8>, i: int) -> int
    decreases s.len() - i when 0 <= i <= s.len()
{
    if i >= s.len() {
        i
    } else if is_ident_part(s[i]) {
        ident_end(s, i + 1)
    } else {
        i
    }
}

/// First position at or after `i` holding a newline (or the end): where a
/// single-line comment's text stops.
pub open spec fn cmt_end(s: Seq<u8>, i: int) -> int
    decreases s.len() - i when 0 <= i <= s.len()
{
    if i >= s.len() {
        i
    } else if s[i] == 10 {
        i
    } else {
        cmt_end(s, i + 1)
    }
}

/// First position `m` at or after `i` where the pair `s[m] s[m + 1]` is `*/`,
/// or the input's length when no closing pair exists.
pub open spec fn block_close(s: Seq<u8>, i: int) -> int
    decreases s.len() - i when 0 <= i <= s.len()
{
    if i + 1 >= s.len() {
        s.len() as int
    } else if s[i] == 42 && s[i + 1] == 47 {
        i
    } else {
        block_close(s, i + 1)
    }
}

/// Where a symbol run beginning at `i` stops examining bytes: the first `m`
/// whose successor is absent or non-symbolic, or where `s[m] s[m + 1]` are
/// two backslashes (the escape that closes a run early).
pub open spec fn sym_stop(s: Seq<u8>, i: int) -> int
    decreases s.len() - i when 0 <= i < s.len()
{
    if i + 1 >= s.len() {
        i
    } else if !is_symbolic(s[i + 1]) {
        i
    } else if s[i] == 92 && s[i + 1] == 92 {
        i
    } else {
        sym_stop(s, i + 1)
    }
}

/// Whether the run beginning at `i` was closed by the two-backslash escape.
pub open spec fn sym_escaped(s: Seq<u8>, i: int) -> bool {
    let m = sym_stop(s, i);
    m + 1 < s.len() && s[m] == 92 && s[m + 1] == 92
}

/// Base-10 value of a numeric run, read left to right; `_` separators are
/// consumed without contributing.
pub open spec fn digits_value(s: Seq<u8>) -> int
    decreases s.len()
{
    if s.len() == 0 {
        0
    } else if is_digit(s.last()) {
        digits_value(s.drop_last()) * 10 + (s.last() - 48)
    } else {
        digits_value(s.drop_last())
    }
}

/// Number of newline bytes in `s[i .. j)`.
pub open spec fn newline_count(s: Seq<u8>, i: int, j: int) -> int
    decreases j - i when i <= j
{
    if j <= i {
        0
    } else {
        newline_count(s, i, j - 1) + if s[j - 1] == 10 { 1int } else { 0int }
    }
}

/// The line counter after one scan call: one more per newline skipped as
/// whitespace, saturating at the counter's width.
pub open spec fn line_after(line: u32, s: Seq<u8>, pos: int) -> u32 {
    let n = newline_count(s, pos, ws_end(s, pos));
    if line + n <= u32::MAX {
        (line + n) as u32
    } else {
        u32::MAX
    }
}

/// What one scan call produces: a token and the final cursor, or an error
/// and the final cursor.
pub ghost enum SpecOutcome {
    Tok(SpecToken, int),
    Fail(LexError, int),
}

/// Outcome of the symbol/comment branch, dispatched at a symbolic byte `s[i]`.
pub open spec fn symbolic_outcome(s: Seq<u8>, i: int) -> SpecOutcome {
    if s[i] == 47 && i + 1 < s.len() && s[i + 1] == 47 {
        let e = cmt_end(s, i + 2);
        SpecOutcome::Tok(SpecToken::Comment, if e < s.len() { e + 1 } else { e })
    } else if s[i] == 47 && i + 1 < s.len() && s[i + 1] == 42 {
        let m = block_close(s, i + 1);
        if m < s.len() {
            SpecOutcome::Tok(SpecToken::Comment, m + 2)
        } else {
            SpecOutcome::Fail(LexError::UnterminatedComment, s.len() as int)
        }
    } else {
        let m = sym_stop(s, i);
        if sym_escaped(s, i) {
            SpecOutcome::Tok(SpecToken::Sym(s.subrange(i, m)), m + 1)
        } else {
            SpecOutcome::Tok(SpecToken::Sym(s.subrange(i, m + 1)), m + 1)
        }
    }
}

/// Outcome of the numeric branch, dispatched at a digit `s[i]`.
pub open spec fn number_outcome(s: Seq<u8>, i: int) -> SpecOutcome {
    let j = num_end(s, i);
    let v = digits_value(s.subrange(i, j));
    if j < s.len() && s[j] == 46 {
        let k = num_end(s, j + 1);
        if v <= i32::MAX {
            SpecOutcome::Tok(SpecToken::Float { whole: v, frac: s.subrange(j + 1, k) }, k)
        } else {
            SpecOutcome::Fail(LexError::NumberTooLarge, k)
        }
    } else {
        if v <= i32::MAX {
            SpecOutcome::Tok(SpecToken::Int(v), j)
        } else {
            SpecOutcome::Fail(LexError::NumberTooLarge, j)
        }
    }
}

/// Outcome of the identifier branch, dispatched at an identifier-start byte
/// `s[i]`: the registered token for a reserved word, else the word itself.
pub open spec fn word_outcome(words: Map<Seq<u8>, SpecToken>, s: Seq<u8>, i: int) -> SpecOutcome {
    let j = ident_end(s, i);
    let w = s.subrange(i, j);
    if words.contains_key(w) {
        SpecOutcome::Tok(words[w], j)
    } else {
        SpecOutcome::Tok(SpecToken::Var(w), j)
    }
}

/// The whole classification state machine for one call: skip whitespace,
/// then dispatch on the first remaining byte.
pub open spec fn spec_scan(words: Map<Seq<u8>, SpecToken>, s: Seq<u8>, pos: int) -> SpecOutcome {
    let i = ws_end(s, pos);
    if i >= s.len() {
        SpecOutcome::Tok(SpecToken::Eos, i)
    } else if is_symbolic(s[i]) {
        symbolic_outcome(s, i)
    } else if is_digit(s[i]) {
        number_outcome(s, i)
    } else if is_ident_start(s[i]) {
        word_outcome(words, s, i)
    } else {
        SpecOutcome::Tok(SpecToken::Unid(s[i]), i + 1)
    }
}

// --- facts the scanner's proofs and the stated laws rely on ---

/// A numeric run's value is never negative.
pub proof fn lemma_digits_value_nonneg(s: Seq<u8>)
    ensures
        digits_value(s) >= 0,
    decreases s.len(),
{
    if s.len() > 0 {
        lemma_digits_value_nonneg(s.drop_last());
        if is_digit(s.last()) {
            assert(digits_value(s.drop_last()) * 10 >= 0) by (nonlinear_arith)
                requires digits_value(s.drop_last()) >= 0;
        }
    }
}

/// A count of newlines is never negative.
pub proof fn lemma_newline_count_nonneg(s: Seq<u8>, i: int, j: int)
    requires
        i <= j,
    ensures
        newline_count(s, i, j) >= 0,
    decreases j - i,
{
    if i < j {
        lemma_newline_count_nonneg(s, i, j - 1);
    }
}

/// `ws_end` never moves backwards or past the end.
pub proof fn lemma_ws_end_bounds(s: Seq<u8>, i: int)
    requires
        0 <= i <= s.len(),
    ensures
        i <= ws_end(s, i) <= s.len(),
    decreases s.len() - i,
{
    if i < s.len() && is_white(s[i]) {
        lemma_ws_end_bounds(s, i + 1);
    }
}

/// `ws_end` lands exactly at the end of a maximal whitespace run.
pub proof fn lemma_ws_end_is(s: Seq<u8>, i: int, j: int)
    requires
        0 <= i <= j <= s.len(),
        forall|m: int| i <= m < j ==> is_white(s[m]),
        j < s.len() ==> !is_white(s[j]),
    ensures
        ws_end(s, i) == j,
    decreases j - i,
{
    if i < j {
        lemma_ws_end_is(s, i + 1, j);
    }
}

/// `num_end` lands exactly at the end of a maximal numeric run.
pub proof fn lemma_num_end_is(s: Seq<u8>, i: int, j: int)
    requires
        0 <= i <= j <= s.len(),
        forall|m: int| i <= m < j ==> is_numeric(s[m]),
        j < s.len() ==> !is_numeric(s[j]),
    ensures
        num_end(s, i) == j,
    decreases j - i,
{
    if i < j {
        lemma_num_end_is(s, i + 1, j);
    }
}

/// `ident_end` lands exactly at the end of a maximal identifier run.
pub proof fn lemma_ident_end_is(s: Seq<u8>, i: int, j: int)
    requires
        0 <= i <= j <= s.len(),
        forall|m: int| i <= m < j ==> is_ident_part(s[m]),
        j < s.len() ==> !is_ident_part(s[j]),
    ensures
        ident_end(s, i) == j,
    decreases j - i,
{
    if i < j {
        lemma_ident_end_is(s, i + 1, j);
    }
}

/// `cmt_end` lands exactly on the first newline.
pub proof fn lemma_cmt_end_is(s: Seq<u8>, i: int, j: int)
    requires
        0 <= i <= j <= s.len(),
        forall|m: int| i <= m < j ==> s[m] != 10,
        j < s.len() ==> s[j] == 10,
    ensures
        cmt_end(s, i) == j,
    decreases j - i,
{
    if i < j {
        lemma_cmt_end_is(s, i + 1, j);
    }
}

} // verus!
