//! A lazy, restartable sequence of `(kind, lexeme)` pairs over an input
//! string. The tokenizer owns a cursor and advances it one token at a
//! time; constructing a new tokenizer over the same input yields the same
//! sequence.

use vstd::prelude::*;
use crate::syntax::SyntaxKind;

verus! {

/// The character class tokenized as whitespace: space, tab and carriage
/// return. Newline is deliberately not in the class.
pub open spec fn is_ws_char(c: char) -> bool {
    c == ' ' || c == '\t' || c == '\r'
}

/// An ASCII decimal digit.
pub open spec fn is_digit_char(c: char) -> bool {
    '0' <= c && c <= '9'
}

/// End of the maximal whitespace run that starts at `i`.
pub open spec fn ws_run_end(s: Seq<char>, i: int) -> int
    decreases s.len() - i,
{
    if 0 <= i < s.len() && is_ws_char(s[i]) {
        ws_run_end(s, i + 1)
    } else {
        i
    }
}

/// End of the maximal digit run that starts at `i`.
pub open spec fn digit_run_end(s: Seq<char>, i: int) -> int
    decreases s.len() - i,
{
    if 0 <= i < s.len() && is_digit_char(s[i]) {
        digit_run_end(s, i + 1)
    } else {
        i
    }
}

/// End of the number lexeme that starts at `i` (which must hold a digit):
/// a maximal digit run, then one `.` and a further maximal digit run, but
/// only if a digit directly follows the dot. A trailing `.` is left for
/// the next token attempt.
pub open spec fn number_end(s: Seq<char>, i: int) -> int {
    let j = digit_run_end(s, i);
    if j + 1 < s.len() && s[j] == '.' && is_digit_char(s[j + 1]) {
        digit_run_end(s, j + 2)
    } else {
        j
    }
}

/// What the tokenizer does at position `i` of `s`.
pub ghost enum TokenStep {
    /// The cursor is at end of input: the sequence is over.
    End,
    /// The character at `i` is not in the accepted alphabet.
    Unrecognized,
    /// A token of `kind` whose lexeme spans `i..end`.
    Tok { kind: SyntaxKind, end: int },
}

/// The single dispatch step of the tokenizer state machine.
pub open spec fn token_at(s: Seq<char>, i: int) -> TokenStep {
    if !(0 <= i < s.len()) {
        TokenStep::End
    } else if s[i] == '+' {
        TokenStep::Tok { kind: SyntaxKind::ADD, end: i + 1 }
    } else if s[i] == '-' {
        TokenStep::Tok { kind: SyntaxKind::SUB, end: i + 1 }
    } else if s[i] == '*' {
        TokenStep::Tok { kind: SyntaxKind::MUL, end: i + 1 }
    } else if s[i] == '/' {
        TokenStep::Tok { kind: SyntaxKind::DIV, end: i + 1 }
    } else if is_ws_char(s[i]) {
        TokenStep::Tok { kind: SyntaxKind::WHITESPACE, end: ws_run_end(s, i) }
    } else if is_digit_char(s[i]) {
        TokenStep::Tok { kind: SyntaxKind::NUMBER, end: number_end(s, i) }
    } else {
        TokenStep::Unrecognized
    }
}

/// A whitespace run's end never precedes its start and never passes the
/// input's end.
pub proof fn lemma_ws_run_end_bounds(s: Seq<char>, i: int)
    requires
        0 <= i <= s.len(),
    ensures
        i <= ws_run_end(s, i) <= s.len(),
    decreases s.len() - i,
{
    if i < s.len() && is_ws_char(s[i]) {
        lemma_ws_run_end_bounds(s, i + 1);
    }
}

/// A digit run's end never precedes its start and never passes the
/// input's end.
pub proof fn lemma_digit_run_end_bounds(s: Seq<char>, i: int)
    requires
        0 <= i <= s.len(),
    ensures
        i <= digit_run_end(s, i) <= s.len(),
    decreases s.len() - i,
{
    if i < s.len() && is_digit_char(s[i]) {
        lemma_digit_run_end_bounds(s, i + 1);
    }
}

/// Every token is non-empty and ends within the input.
pub proof fn lemma_token_at_bounds(s: Seq<char>, i: int)
    requires
        0 <= i <= s.len(),
        token_at(s, i) is Tok,
    ensures
        i < token_at(s, i)->end <= s.len(),
{
    if i < s.len() {
        if is_ws_char(s[i]) {
            lemma_ws_run_end_bounds(s, i + 1);
        } else if is_digit_char(s[i]) {
            let j = digit_run_end(s, i);
            lemma_digit_run_end_bounds(s, i + 1);
            if j + 1 < s.len() && s[j] == '.' && is_digit_char(s[j + 1]) {
                lemma_digit_run_end_bounds(s, j + 2);
            }
        }
    }
}

/// The lexical error: the character at `offset` is outside the accepted
/// alphabet, so the token sequence cannot continue past it.
#[derive(Clone, Copy, Debug, PartialEq, Eq, Structural)]
pub enum TokenizeError {
    UnrecognizedByte { offset: usize },
}

/// A forward cursor over `input` that hands out one `(kind, lexeme)` pair
/// per call of `next`, in source order.
#[derive(Debug)]
pub struct Tokenizer<'a> {
    pub input: &'a str,
    pub pos: usize,
}

impl<'a> Tokenizer<'a> {
    /// A tokenizer whose cursor is at the start of `input`.
    pub fn new(input: &'a str) -> (t: Tokenizer<'a>)
        ensures
            t.input@ == input@,
            t.pos == 0,
    {
        Tokenizer { input, pos: 0 }
    }

    /// True once the cursor has consumed the whole input.
    pub fn end_of_file(&self) -> (r: bool)
        ensures
            r == (self.pos >= self.input@.len()),
    {
        self.pos >= self.input.unicode_len()
    }

    /// Whether the cursor is inside the input (a tokenizer constructed by
    /// `new` satisfies this, and `next` preserves it).
    pub open spec fn wf(self) -> bool {
        self.pos <= self.input@.len()
    }

    /// Advances the cursor over the maximal whitespace run at the cursor.
    fn advance_ws(&mut self)
        requires
            old(self).wf(),
        ensures
            final(self).wf(),
            final(self).input == old(self).input,
            final(self).pos == ws_run_end(old(self).input@, old(self).pos as int),
    {
        loop
            invariant
                self.wf(),
                self.input == old(self).input,
                old(self).pos <= self.pos,
                ws_run_end(old(self).input@, old(self).pos as int)
                    == ws_run_end(self.input@, self.pos as int),
            decreases self.input@.len() - self.pos,
        {
            if self.pos >= self.input.unicode_len() {
                return ;
            }
            let c = self.input.get_char(self.pos);
            if !(c == ' ' || c == '\t' || c == '\r') {
                return ;
            }
            self.pos = self.pos + 1;
        }
    }

    /// Advances the cursor over the maximal digit run at the cursor.
    fn advance_digits(&mut self)
        requires
            old(self).wf(),
        ensures
            final(self).wf(),
            final(self).input == old(self).input,
            final(self).pos == digit_run_end(old(self).input@, old(self).pos as int),
    {
        loop
            invariant
                self.wf(),
                self.input == old(self).input,
                old(self).pos <= self.pos,
                digit_run_end(old(self).input@, old(self).pos as int)
                    == digit_run_end(self.input@, self.pos as int),
            decreases self.input@.len() - self.pos,
        {
            if self.pos >= self.input.unicode_len() {
                return ;
            }
            let c = self.input.get_char(self.pos);
            if !('0' <= c && c <= '9') {
                return ;
            }
            self.pos = self.pos + 1;
        }
    }

    /// The next token of the sequence, or `Ok(None)` at end of input, or
    /// the offset of the first unrecognized character. On success the
    /// cursor moves to the token's end; otherwise it does not move.
    pub fn next(&mut self) -> (r: Result<Option<(SyntaxKind, String)>, TokenizeError>)
        requires
            old(self).wf(),
        ensures
            final(self).wf(),
            final(self).input == old(self).input,
            match token_at(old(self).input@, old(self).pos as int) {
                TokenStep::End => {
                    &&& r == Result::<Option<(SyntaxKind, String)>, TokenizeError>::Ok(None)
                    &&& *final(self) == *old(self)
                },
                TokenStep::Unrecognized => {
                    &&& r == Result::<Option<(SyntaxKind, String)>, TokenizeError>::Err(
                        TokenizeError::UnrecognizedByte { offset: old(self).pos },
                    )
                    &&& *final(self) == *old(self)
                },
                TokenStep::Tok { kind, end } => {
                    &&& r matches Ok(Some((k, text)))
                    &&& k == kind
                    &&& text@ == old(self).input@.subrange(old(self).pos as int, end)
                    &&& final(self).pos == end
                },
            },
    {
        proof {
            if token_at(self.input@, self.pos as int) is Tok {
                lemma_token_at_bounds(self.input@, self.pos as int);
            }
        }
        if self.pos >= self.input.unicode_len() {
            return Ok(None);
        }
        let start = self.pos;
        let c = self.input.get_char(self.pos);
        let kind: SyntaxKind;
        if c == '+' {
            kind = SyntaxKind::ADD;
            self.pos = self.pos + 1;
        } else if c == '-' {
            kind = SyntaxKind::SUB;
            self.pos = self.pos + 1;
        } else if c == '*' {
            kind = SyntaxKind::MUL;
            self.pos = self.pos + 1;
        } else if c == '/' {
            kind = SyntaxKind::DIV;
            self.pos = self.pos + 1;
        } else if c == ' ' || c == '\t' || c == '\r' {
            kind = SyntaxKind::WHITESPACE;
            self.advance_ws();
        } else if '0' <= c && c <= '9' {
            kind = SyntaxKind::NUMBER;
            self.advance_digits();
            if self.input.unicode_len() - self.pos >= 2 && self.input.get_char(self.pos) == '.'
                && {
                    let d = self.input.get_char(self.pos + 1);
                    '0' <= d && d <= '9'
                } {
                self.pos = self.pos + 2;
                self.advance_digits();
            }
            assert(self.pos == number_end(self.input@, start as int));
        } else {
            return Err(TokenizeError::UnrecognizedByte { offset: self.pos });
        }
        let text = self.input.substring_char(start, self.pos);
        Ok(Some((kind, text.to_string())))
    }
}

} // verus!
