//! The scanner engine: one call classifies the next run of input bytes into
//! exactly one token, leaving the cursor on the first byte of the next token.

use vstd::prelude::*;

use crate::model::SpecOutcome;
use crate::model::block_close;
use crate::model::cmt_end;
use crate::model::digits_value;
use crate::model::ident_end;
use crate::model::lemma_digits_value_nonneg;
use crate::model::line_after;
use crate::model::newline_count;
use crate::model::num_end;
use crate::model::number_outcome;
use crate::model::spec_scan;
use crate::model::sym_stop;
use crate::model::symbolic_outcome;
use crate::model::word_outcome;
use crate::model::ws_end;
use crate::types::LexError;
use crate::types::SpecToken;
use crate::types::Token;
use crate::types::digit;
use crate::types::ident_part;
use crate::types::ident_start;
use crate::types::is_digit;
use crate::types::is_ident_start;
use crate::types::is_symbolic;
use crate::types::numeric;
use crate::types::symbolic;
use crate::types::white;

verus! {

/// Folds a registration list into the table it denotes; a later entry for the
/// same word overrides an earlier one, as re-registration does.
pub open spec fn word_map(entries: Seq<(Vec<u8>, Token)>) -> Map<Seq<u8>, SpecToken>
    decreases entries.len()
{
    if entries.len() == 0 {
        Map::empty()
    } else {
        word_map(entries.drop_last()).insert(entries.last().0@, entries.last().1@)
    }
}

/// The table a fresh scanner starts with: `true` and `false`.
pub open spec fn reserved_words() -> Map<Seq<u8>, SpecToken> {
    Map::empty().insert(seq![116u8, 114u8, 117u8, 101u8], SpecToken::True).insert(
        seq![102u8, 97u8, 108u8, 115u8, 101u8],
        SpecToken::False,
    )
}

/// One scanner instance: a line counter for diagnostics and the reserved-word
/// table, built at construction and extended only through `reserve`.
pub struct Lexer {
    line: u32,
    words: Vec<(Vec<u8>, Token)>,
}

impl Lexer {
    /// The reserved-word table: which identifier spellings yield which token.
    pub closed spec fn words_map(&self) -> Map<Seq<u8>, SpecToken> {
        word_map(self.words@)
    }

    /// The current line counter.
    pub closed spec fn spec_line(&self) -> u32 {
        self.line
    }

    /// A fresh scanner: line counter at 1, with `true` and `false` registered.
    pub fn new() -> (r: Lexer)
        ensures
            r.spec_line() == 1,
            r.words_map() == reserved_words(),
    {
        let mut lexer = Lexer { line: 1, words: Vec::new() };
        let mut t: Vec<u8> = Vec::new();
        t.push(116);  // t
        t.push(114);  // r
        t.push(117);  // u
        t.push(101);  // e
        proof {
            assert(t@ =~= seq![116u8, 114u8, 117u8, 101u8]);
        }
        lexer.reserve(Token::TRUE, t);
        let mut f: Vec<u8> = Vec::new();
        f.push(102);  // f
        f.push(97);  // a
        f.push(108);  // l
        f.push(115);  // s
        f.push(101);  // e
        proof {
            assert(f@ =~= seq![102u8, 97u8, 108u8, 115u8, 101u8]);
        }
        lexer.reserve(Token::FALSE, f);
        lexer
    }

    /// The line counter's current value.
    pub fn line(&self) -> (r: u32)
        ensures
            r == self.spec_line(),
    {
        self.line
    }

    /// Registers `idx` as a reserved word producing `word`; a second
    /// registration of the same spelling replaces the first.
    pub fn reserve(&mut self, word: Token, idx: Vec<u8>)
        ensures
            final(self).words_map() == old(self).words_map().insert(idx@, word@),
            final(self).spec_line() == old(self).spec_line(),
    {
        let ghost before = self.words@;
        self.words.push((idx, word));
        proof {
            assert(self.words@.drop_last() =~= before);
        }
    }

    /// The registered token for `w`, or nothing when `w` is not reserved.
    fn find_reserved(&self, w: &Vec<u8>) -> (r: Option<Token>)
        ensures
            match r {
                Some(t) => self.words_map().contains_key(w@) && t@ == self.words_map()[w@],
                None => !self.words_map().contains_key(w@),
            },
    {
        let ghost all = self.words@;
        let mut k: usize = self.words.len();
        proof {
            assert(all.take(all.len() as int) =~= all);
        }
        while k > 0
            invariant
                k <= all.len(),
                all == self.words@,
                word_map(all).contains_key(w@) == word_map(all.take(k as int)).contains_key(w@),
                word_map(all).contains_key(w@) ==> word_map(all.take(k as int))[w@] == word_map(
                    all,
                )[w@],
            decreases k,
        {
            k = k - 1;
            proof {
                assert(all.take(k + 1).drop_last() =~= all.take(k as int));
                assert(all.take(k + 1).last() == all[k as int]);
            }
            if bytes_eq(&self.words[k].0, w) {
                return Some(self.words[k].1.duplicate());
            }
        }
        proof {
            assert(all.take(0) =~= Seq::<(Vec<u8>, Token)>::empty());
        }
        None
    }

    /// Skips the whitespace run at the cursor, counting newlines into the
    /// line counter (saturating at the counter's width).
    fn skip_whitespace(&mut self, src: &[u8], pos: &mut usize)
        requires
            *old(pos) <= src@.len(),
        ensures
            final(self).words == old(self).words,
            *final(pos) == ws_end(src@, *old(pos) as int),
            *final(pos) <= src@.len(),
            final(self).line == line_after(old(self).line, src@, *old(pos) as int),
    {
        let ghost s = src@;
        let ghost p0 = *pos as int;
        while *pos < src.len() && white(src[*pos])
            invariant
                p0 <= *pos <= s.len(),
                s == src@,
                self.words == old(self).words,
                ws_end(s, p0) == ws_end(s, *pos as int),
                self.line as int == (if old(self).line + newline_count(s, p0, *pos as int)
                    <= u32::MAX {
                    old(self).line + newline_count(s, p0, *pos as int)
                } else {
                    u32::MAX as int
                }),
            decreases s.len() - *pos,
        {
            if src[*pos] == 10 {
                if self.line < u32::MAX {
                    self.line = self.line + 1;
                }
            }
            *pos = *pos + 1;
        }
    }

    /// One token from `src`, starting at `*pos`: skip whitespace, then
    /// classify by the first remaining byte as `spec_scan` describes. The
    /// cursor is left on the first byte after the token, so a repeated call
    /// walks the whole input, ending with `EOS`.
    pub fn scan(&mut self, src: &[u8], pos: &mut usize) -> (r: Result<Token, LexError>)
        requires
            *old(pos) <= src@.len(),
        ensures
            final(self).words_map() == old(self).words_map(),
            final(self).spec_line() == line_after(old(self).spec_line(), src@, *old(pos) as int),
            *final(pos) <= src@.len(),
            ({
                let out = spec_scan(old(self).words_map(), src@, *old(pos) as int);
                match out {
                    SpecOutcome::Tok(t, end) => r matches Ok(tok) && tok@ == t && *final(pos)
                        == end,
                    SpecOutcome::Fail(e, end) => r matches Err(e2) && e2 == e && *final(pos)
                        == end,
                }
            }),
    {
        self.skip_whitespace(src, pos);
        if *pos == src.len() {
            return Ok(Token::EOS);
        }
        let c = src[*pos];
        if symbolic(c) {
            scan_symbolic(src, pos)
        } else if digit(c) {
            scan_number(src, pos)
        } else if ident_start(c) {
            Ok(self.scan_word(src, pos))
        } else {
            *pos = *pos + 1;
            Ok(Token::UNID(c))
        }
    }

    /// The identifier sub-scanner: assembles the run, then the reserved-word
    /// table decides between the registered token and `VAR`.
    fn scan_word(&self, src: &[u8], pos: &mut usize) -> (r: Token)
        requires
            *old(pos) < src@.len(),
            is_ident_start(src@[*old(pos) as int]),
        ensures
            *final(pos) <= src@.len(),
            ({
                let out = word_outcome(self.words_map(), src@, *old(pos) as int);
                out matches SpecOutcome::Tok(t, end) && r@ == t && *final(pos) == end
            }),
    {
        let ghost s = src@;
        let i = *pos;
        let mut m = i;
        let mut w: Vec<u8> = Vec::new();
        proof {
            assert(w@ =~= s.subrange(i as int, i as int));
        }
        while m < src.len() && ident_part(src[m])
            invariant
                i <= m <= s.len(),
                s == src@,
                ident_end(s, i as int) == ident_end(s, m as int),
                w@ == s.subrange(i as int, m as int),
            decreases s.len() - m,
        {
            w.push(src[m]);
            proof {
                assert(s.subrange(i as int, m as int).push(s[m as int]) =~= s.subrange(
                    i as int,
                    m + 1,
                ));
            }
            m = m + 1;
        }
        *pos = m;
        match self.find_reserved(&w) {
            Some(t) => t,
            None => Token::VAR(w),
        }
    }
}

/// Whether two byte strings hold the same bytes.
fn bytes_eq(a: &Vec<u8>, b: &Vec<u8>) -> (r: bool)
    ensures
        r == (a@ == b@),
{
    if a.len() != b.len() {
        return false;
    }
    let mut i: usize = 0;
    while i < a.len()
        invariant
            i <= a@.len(),
            a@.len() == b@.len(),
            forall|j: int| 0 <= j < i ==> a@[j] == b@[j],
        decreases a@.len() - i,
    {
        if a[i] != b[i] {
            return false;
        }
        i = i + 1;
    }
    proof {
        assert(a@ =~= b@);
    }
    true
}

/// The comment and symbol sub-scanner, dispatched at a symbolic byte:
/// `//` runs to (and consumes) the newline, `/*` runs to (and consumes)
/// `*/` or fails at the end of input, and anything else is a symbol run,
/// closed early by two consecutive backslashes.
#[verifier::loop_isolation(false)]
fn scan_symbolic(src: &[u8], pos: &mut usize) -> (r: Result<Token, LexError>)
    requires
        *old(pos) < src@.len(),
        is_symbolic(src@[*old(pos) as int]),
    ensures
        *final(pos) <= src@.len(),
        ({
            let out = symbolic_outcome(src@, *old(pos) as int);
            match out {
                SpecOutcome::Tok(t, end) => r matches Ok(tok) && tok@ == t && *final(pos) == end,
                SpecOutcome::Fail(e, end) => r matches Err(e2) && e2 == e && *final(pos) == end,
            }
        }),
{
    let ghost s = src@;
    let n = src.len();
    proof {
        assert(s.len() == n as int);
        assert(s.len() <= usize::MAX);
    }
    let i = *pos;
    let c = src[i];
    if c == 47 && i + 1 < src.len() && src[i + 1] == 47 {
        // single-line comment: through the next newline, or to the end
        let mut m = i + 2;
        while m < src.len() && src[m] != 10
            invariant
                i + 2 <= m <= s.len(),
                s == src@,
                cmt_end(s, i + 2) == cmt_end(s, m as int),
            decreases s.len() - m,
        {
            m = m + 1;
        }
        if m < src.len() {
            *pos = m + 1;
        } else {
            *pos = m;
        }
        Ok(Token::COMMENT)
    } else if c == 47 && i + 1 < src.len() && src[i + 1] == 42 {
        // block comment: through the closing pair, which may reuse the
        // opener's star, or fail at the end of input
        let mut m = i + 1;
        while m + 1 < src.len() && !(src[m] == 42 && src[m + 1] == 47)
            invariant
                i + 1 <= m < s.len(),
                s == src@,
                block_close(s, i + 1) == block_close(s, m as int),
            decreases s.len() - m,
        {
            m = m + 1;
        }
        if m + 1 < src.len() {
            *pos = m + 2;
            Ok(Token::COMMENT)
        } else {
            *pos = src.len();
            Err(LexError::UnterminatedComment)
        }
    } else {
        // symbol run
        let mut sym: Vec<u8> = Vec::new();
        let mut m = i;
        proof {
            assert(sym@ =~= s.subrange(i as int, i as int));
        }
        while m + 1 < src.len() && symbolic(src[m + 1]) && !(src[m] == 92 && src[m + 1] == 92)
            invariant
                i <= m < s.len(),
                s == src@,
                is_symbolic(s[m as int]),
                sym_stop(s, i as int) == sym_stop(s, m as int),
                sym@ == s.subrange(i as int, m as int),
            decreases s.len() - m,
        {
            sym.push(src[m]);
            proof {
                assert(s.subrange(i as int, m as int).push(s[m as int]) =~= s.subrange(
                    i as int,
                    m + 1,
                ));
            }
            m = m + 1;
        }
        if m + 1 < src.len() && src[m] == 92 && src[m + 1] == 92 {
            // two backslashes close the run; neither joins the token, and the
            // second stays unread
            *pos = m + 1;
            Ok(Token::SYMBOL(sym))
        } else {
            sym.push(src[m]);
            proof {
                assert(s.subrange(i as int, m as int).push(s[m as int]) =~= s.subrange(
                    i as int,
                    m + 1,
                ));
            }
            *pos = m + 1;
            Ok(Token::SYMBOL(sym))
        }
    }
}

/// The numeric sub-scanner, dispatched at a digit: a run of digits and `_`
/// separators, optionally followed by `.` and a fractional run. The integer
/// part must fit in 32 signed bits; the fractional run is kept verbatim.
#[verifier::loop_isolation(false)]
fn scan_number(src: &[u8], pos: &mut usize) -> (r: Result<Token, LexError>)
    requires
        *old(pos) < src@.len(),
        is_digit(src@[*old(pos) as int]),
    ensures
        *final(pos) <= src@.len(),
        ({
            let out = number_outcome(src@, *old(pos) as int);
            match out {
                SpecOutcome::Tok(t, end) => r matches Ok(tok) && tok@ == t && *final(pos) == end,
                SpecOutcome::Fail(e, end) => r matches Err(e2) && e2 == e && *final(pos) == end,
            }
        }),
{
    let ghost s = src@;
    let i = *pos;
    let mut m = i;
    let mut v: u64 = 0;
    proof {
        assert(s.subrange(i as int, i as int) =~= Seq::<u8>::empty());
    }
    while m < src.len() && numeric(src[m])
        invariant
            i <= m <= s.len(),
            s == src@,
            num_end(s, i as int) == num_end(s, m as int),
            digits_value(s.subrange(i as int, m as int)) >= 0,
            digits_value(s.subrange(i as int, m as int)) <= i32::MAX ==> v == digits_value(
                s.subrange(i as int, m as int),
            ),
            digits_value(s.subrange(i as int, m as int)) > i32::MAX ==> v > i32::MAX,
            v <= 0x7fffffff * 10 + 9,
        decreases s.len() - m,
    {
        let ghost run = s.subrange(i as int, m as int);
        let ghost grown = s.subrange(i as int, m + 1);
        proof {
            assert(run.push(s[m as int]) =~= grown);
            assert(grown.drop_last() =~= run);
            assert(grown.last() == s[m as int]);
            lemma_digits_value_nonneg(run);
        }
        let b = src[m];
        if b != 95 {
            let d = (b - 48) as u64;
            proof {
                assert(digits_value(grown) == digits_value(run) * 10 + d);
            }
            if v <= 2147483647 {
                // a value beyond the width would have driven `v` beyond it too
                proof {
                    assert(digits_value(run) <= i32::MAX);
                    assert(v == digits_value(run));
                }
                v = v * 10 + d;
            } else {
                proof {
                    assert(digits_value(run) > i32::MAX);
                    assert(digits_value(run) * 10 + d > i32::MAX) by (nonlinear_arith)
                        requires
                            digits_value(run) > i32::MAX,
                            d >= 0,
                    ;
                }
            }
        } else {
            proof {
                assert(digits_value(grown) == digits_value(run));
            }
        }
        m = m + 1;
    }
    let ghost j = m as int;
    let ghost whole_run = s.subrange(i as int, j);
    if m < src.len() && src[m] == 46 {
        let mut frac: Vec<u8> = Vec::new();
        let mut k = m + 1;
        proof {
            assert(frac@ =~= s.subrange(m + 1, m + 1));
        }
        while k < src.len() && numeric(src[k])
            invariant
                j + 1 <= k <= s.len(),
                s == src@,
                num_end(s, j + 1) == num_end(s, k as int),
                frac@ == s.subrange(j + 1, k as int),
            decreases s.len() - k,
        {
            frac.push(src[k]);
            proof {
                assert(s.subrange(j + 1, k as int).push(s[k as int]) =~= s.subrange(j + 1, k + 1));
            }
            k = k + 1;
        }
        *pos = k;
        if v <= 2147483647 {
            Ok(Token::FLOAT { whole: v as i32, frac })
        } else {
            Err(LexError::NumberTooLarge)
        }
    } else {
        *pos = m;
        if v <= 2147483647 {
            Ok(Token::INT(v as i32))
        } else {
            Err(LexError::NumberTooLarge)
        }
    }
}

} // verus!

