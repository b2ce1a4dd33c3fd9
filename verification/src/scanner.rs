//! The scanner: a stateful line/column walker that turns diagram
//! source text into an ordered sequence of [`Token`]s.
//!
//! The scan loop consumes one construct per step: a newline becomes an
//! `Endl` token and bumps the line counter; spaces are skipped; `:`
//! becomes a `Colon` followed by the rest of the `key: value` text as
//! one `Value` token (or an `Error` when that text is missing or cut
//! short by an unexpected character); `->` becomes an `Arrow`;
//! `(digits)` becomes a `Number` (an `Error` when the parenthesis
//! never closes); a run of letters, digits, underscores and spaces
//! becomes an `Identifier`, or `Title` when it is exactly the keyword
//! `title`; anything else becomes an `Unexpected` token.  The scanner
//! never fails: error tokens are ordinary data for the caller.

use crate::chars::digit_char;
use crate::chars::is_digit_char;
use crate::chars::is_word_char;
use crate::chars::is_word_or_digit_char;
use crate::chars::span_string;
use crate::chars::trim_spec;
use crate::chars::trimmed_string;
use crate::chars::chars_of;
use crate::chars::word_or_digit_char;
use crate::chars::word_char;
use crate::token::tok;
use crate::token::Token;
use crate::token::TokenModel;
use crate::token::TokenType;
use vstd::prelude::*;

verus! {

/// Where the run of word-or-digit characters beginning at `i` ends:
/// the first position at or after `i` holding no such character.
pub open spec fn word_run_end(s: Seq<char>, i: int) -> int
    decreases s.len() - i,
    when 0 <= i <= s.len()
{
    if i == s.len() {
        i
    } else if is_word_or_digit_char(s[i]) {
        word_run_end(s, i + 1)
    } else {
        i
    }
}

/// Where the run of digits beginning at `i` ends.
pub open spec fn digit_run_end(s: Seq<char>, i: int) -> int
    decreases s.len() - i,
    when 0 <= i <= s.len()
{
    if i == s.len() {
        i
    } else if is_digit_char(s[i]) {
        digit_run_end(s, i + 1)
    } else {
        i
    }
}

pub proof fn lemma_word_run_end(s: Seq<char>, i: int)
    requires
        0 <= i <= s.len(),
    ensures
        i <= word_run_end(s, i) <= s.len(),
    decreases s.len() - i,
{
    if i < s.len() && is_word_or_digit_char(s[i]) {
        lemma_word_run_end(s, i + 1);
    }
}

pub proof fn lemma_digit_run_end(s: Seq<char>, i: int)
    requires
        0 <= i <= s.len(),
    ensures
        i <= digit_run_end(s, i) <= s.len(),
    decreases s.len() - i,
{
    if i < s.len() && is_digit_char(s[i]) {
        lemma_digit_run_end(s, i + 1);
    }
}

/// The keyword that makes a name run a `Title` token.
pub open spec fn title_kw() -> Seq<char> {
    seq!['t', 'i', 't', 'l', 'e']
}

/// The tokens scanned from position `i` of `s` onward, with the line
/// counter at `line`.  Scanning the whole of `s` is
/// `scan_from(s, 0, 1)`.
pub open spec fn scan_from(s: Seq<char>, i: int, line: nat) -> Seq<TokenModel>
    decreases s.len() - i,
    when 0 <= i <= s.len()
    via scan_from_decreases
{
    if i == s.len() {
        Seq::empty()
    } else {
        let c = s[i];
        if c == '\n' {
            seq![tok(TokenType::Endl, line, seq!['\n'])] + scan_from(s, i + 1, line + 1)
        } else if c == ' ' {
            scan_from(s, i + 1, line)
        } else if c == ':' {
            let j = word_run_end(s, i + 1);
            let bad = j == i + 1 || (j < s.len() && s[j] != '\n');
            let kind = if bad {
                TokenType::Error
            } else {
                TokenType::Value
            };
            seq![
                tok(TokenType::Colon, line, seq![':']),
                tok(kind, line, trim_spec(s.subrange(i + 1, j))),
            ] + scan_from(s, j, line)
        } else if c == '-' {
            if i + 1 < s.len() && s[i + 1] == '>' {
                seq![tok(TokenType::Arrow, line, seq!['-', '>'])] + scan_from(s, i + 2, line)
            } else {
                seq![tok(TokenType::Unexpected, line, seq!['-'])] + scan_from(s, i + 1, line)
            }
        } else if c == '(' {
            let j = digit_run_end(s, i + 1);
            if j == s.len() {
                seq![tok(TokenType::Error, line, s.subrange(i, j))]
            } else {
                seq![tok(TokenType::Number, line, trim_spec(s.subrange(i, j + 1)))]
                    + scan_from(s, j + 1, line)
            }
        } else if is_word_char(c) {
            let j = word_run_end(s, i);
            let kind = if s.subrange(i, j) == title_kw() {
                TokenType::Title
            } else {
                TokenType::Identifier
            };
            seq![tok(kind, line, trim_spec(s.subrange(i, j)))] + scan_from(s, j, line)
        } else {
            seq![tok(TokenType::Unexpected, line, seq![c])] + scan_from(s, i + 1, line)
        }
    }
}

#[via_fn]
proof fn scan_from_decreases(s: Seq<char>, i: int, line: nat) {
    if 0 <= i && i < s.len() {
        let c = s[i];
        if c == ':' {
            lemma_word_run_end(s, i + 1);
        } else if c == '(' {
            lemma_digit_run_end(s, i + 1);
        } else if is_word_char(c) {
            lemma_word_run_end(s, i + 1);
            assert(word_run_end(s, i) == word_run_end(s, i + 1));
        }
    }
}

proof fn lemma_line_chain(ps: Seq<TokenModel>, rest: Seq<TokenModel>, line: nat, line2: nat)
    requires
        line2 >= line,
        ps.len() > 0,
        forall|k: int| 0 <= k < ps.len() ==> (#[trigger] ps[k]).line == line,
        forall|k: int| 0 <= k < ps.len() - 1 ==> (#[trigger] ps[k]).kind != TokenType::Endl,
        ps.last().kind == TokenType::Endl ==> line2 == line + 1,
        ps.last().kind != TokenType::Endl ==> line2 == line,
        forall|k: int| 0 <= k < rest.len() ==> (#[trigger] rest[k]).line >= line2,
        rest.len() > 0 ==> rest[0].line == line2,
        forall|k: int|
            0 <= k < rest.len() - 1 ==> (#[trigger] rest[k + 1]).line == rest[k].line + (
            if rest[k].kind == TokenType::Endl {
                1nat
            } else {
                0nat
            }),
    ensures
        forall|k: int| 0 <= k < (ps + rest).len() ==> (#[trigger] (ps + rest)[k]).line >= line,
        (ps + rest).len() > 0 ==> (ps + rest)[0].line == line,
        forall|k: int|
            0 <= k < (ps + rest).len() - 1 ==> (#[trigger] (ps + rest)[k + 1]).line == (ps
                + rest)[k].line + (if (ps + rest)[k].kind == TokenType::Endl {
                1nat
            } else {
                0nat
            }),
{
    let ts = ps + rest;
    assert forall|k: int| 0 <= k < ts.len() implies (#[trigger] ts[k]).line >= line by {
        if k < ps.len() {
            assert(ts[k] == ps[k]);
        } else {
            assert(ts[k] == rest[k - ps.len()]);
        }
    }
    assert(ts[0] == ps[0]);
    assert forall|k: int| 0 <= k < ts.len() - 1 implies (#[trigger] ts[k + 1]).line == ts[k].line
        + (if ts[k].kind == TokenType::Endl {
        1nat
    } else {
        0nat
    }) by {
        if k + 1 < ps.len() {
            assert(ts[k] == ps[k]);
            assert(ts[k + 1] == ps[k + 1]);
        } else if k + 1 == ps.len() {
            assert(ts[k] == ps[k]);
            assert(ps[k] == ps.last());
            assert(rest.len() > 0);
            assert(ts[k + 1] == rest[0]);
        } else {
            let k2 = k - ps.len();
            assert(0 <= k2 < rest.len() - 1);
            assert(rest[k2 + 1].line == rest[k2].line + (if rest[k2].kind == TokenType::Endl {
                1nat
            } else {
                0nat
            }));
            assert(ts[k] == rest[k2]);
            assert(ts[k + 1] == rest[k2 + 1]);
        }
    }
}

/// Line numbering law: within one scan, token lines never decrease,
/// the first token reports the line the scan started on, and the line
/// number grows by exactly one across each `Endl` token and stays the
/// same across every other token.
pub proof fn lemma_scan_line_numbers(s: Seq<char>, i: int, line: nat)
    requires
        0 <= i <= s.len(),
    ensures
        forall|k: int|
            0 <= k < scan_from(s, i, line).len() ==> (#[trigger] scan_from(s, i, line)[k]).line
                >= line,
        scan_from(s, i, line).len() > 0 ==> scan_from(s, i, line)[0].line == line,
        forall|k: int|
            0 <= k < scan_from(s, i, line).len() - 1 ==> (#[trigger] scan_from(s, i, line)[k
                + 1]).line == scan_from(s, i, line)[k].line + (if scan_from(s, i, line)[k].kind
                == TokenType::Endl {
                1nat
            } else {
                0nat
            }),
    decreases s.len() - i,
{
    if i == s.len() {
    } else {
        let c = s[i];
        if c == '\n' {
            lemma_scan_line_numbers(s, i + 1, line + 1);
            lemma_line_chain(
                seq![tok(TokenType::Endl, line, seq!['\n'])],
                scan_from(s, i + 1, line + 1),
                line,
                line + 1,
            );
        } else if c == ' ' {
            lemma_scan_line_numbers(s, i + 1, line);
        } else if c == ':' {
            let j = word_run_end(s, i + 1);
            lemma_word_run_end(s, i + 1);
            let bad = j == i + 1 || (j < s.len() && s[j] != '\n');
            let kind = if bad {
                TokenType::Error
            } else {
                TokenType::Value
            };
            lemma_scan_line_numbers(s, j, line);
            lemma_line_chain(
                seq![
                    tok(TokenType::Colon, line, seq![':']),
                    tok(kind, line, trim_spec(s.subrange(i + 1, j))),
                ],
                scan_from(s, j, line),
                line,
                line,
            );
        } else if c == '-' {
            if i + 1 < s.len() && s[i + 1] == '>' {
                lemma_scan_line_numbers(s, i + 2, line);
                lemma_line_chain(
                    seq![tok(TokenType::Arrow, line, seq!['-', '>'])],
                    scan_from(s, i + 2, line),
                    line,
                    line,
                );
            } else {
                lemma_scan_line_numbers(s, i + 1, line);
                lemma_line_chain(
                    seq![tok(TokenType::Unexpected, line, seq!['-'])],
                    scan_from(s, i + 1, line),
                    line,
                    line,
                );
            }
        } else if c == '(' {
            let j = digit_run_end(s, i + 1);
            lemma_digit_run_end(s, i + 1);
            if j == s.len() {
                lemma_line_chain(
                    seq![tok(TokenType::Error, line, s.subrange(i, j))],
                    Seq::empty(),
                    line,
                    line,
                );
                assert(seq![tok(TokenType::Error, line, s.subrange(i, j))]
                    + Seq::<TokenModel>::empty() =~= scan_from(s, i, line));
            } else {
                lemma_scan_line_numbers(s, j + 1, line);
                lemma_line_chain(
                    seq![tok(TokenType::Number, line, trim_spec(s.subrange(i, j + 1)))],
                    scan_from(s, j + 1, line),
                    line,
                    line,
                );
            }
        } else if is_word_char(c) {
            let j = word_run_end(s, i);
            assert(word_run_end(s, i) == word_run_end(s, i + 1));
            lemma_word_run_end(s, i + 1);
            let kind = if s.subrange(i, j) == title_kw() {
                TokenType::Title
            } else {
                TokenType::Identifier
            };
            lemma_scan_line_numbers(s, j, line);
            lemma_line_chain(
                seq![tok(kind, line, trim_spec(s.subrange(i, j)))],
                scan_from(s, j, line),
                line,
                line,
            );
        } else {
            lemma_scan_line_numbers(s, i + 1, line);
            lemma_line_chain(
                seq![tok(TokenType::Unexpected, line, seq![c])],
                scan_from(s, i + 1, line),
                line,
                line,
            );
        }
    }
}

/// The stateful walker over one source text.  `start` marks where the
/// current token began, `current` is the scan cursor, and `line` is
/// the 1-based line counter.
pub struct Scanner {
    source: Vec<char>,
    start: usize,
    current: usize,
    line: usize,
}

impl Scanner {
    /// The characters being scanned.
    pub closed spec fn src(&self) -> Seq<char> {
        self.source@
    }

    /// The scan cursor.
    pub closed spec fn pos(&self) -> int {
        self.current as int
    }

    /// Where the current token began.
    pub closed spec fn mark(&self) -> int {
        self.start as int
    }

    /// The 1-based line counter.
    pub closed spec fn line_at(&self) -> nat {
        self.line as nat
    }

    /// Well-formedness: the marks stay within the source, and the line
    /// counter never exceeds one more than the characters consumed.
    pub closed spec fn wf(&self) -> bool {
        &&& self.start <= self.current
        &&& self.current <= self.source.len()
        &&& 1 <= self.line
        &&& self.line <= self.current + 1
        &&& self.source@.len() < usize::MAX
    }

    /// A fresh scanner over `source`, at the start of line 1.
    ///
    /// The length bound is a machine limit: it keeps the line counter,
    /// which can grow one past the cursor, within `usize`.
    pub fn new(source: &str) -> (s: Scanner)
        requires
            source@.len() < usize::MAX,
        ensures
            s.wf(),
            s.src() == source@,
            s.pos() == 0,
            s.line_at() == 1,
    {
        Scanner { source: chars_of(source), start: 0, current: 0, line: 1 }
    }

    fn is_at_end(&self) -> (r: bool)
        ensures
            r == (self.pos() >= self.src().len()),
    {
        self.current >= self.source.len()
    }

    fn peek(&self) -> (c: char)
        ensures
            c == (if self.pos() < self.src().len() {
                self.src()[self.pos()]
            } else {
                '\0'
            }),
    {
        if self.current < self.source.len() {
            self.source[self.current]
        } else {
            '\0'
        }
    }

    /// Moves the cursor forward by one position — even at the end of
    /// the input — and returns the character consumed, or `None` when
    /// there was none left.
    fn advance(&mut self) -> (c: Option<char>)
        requires
            old(self).wf(),
        ensures
            final(self).src() == old(self).src(),
            final(self).mark() == old(self).mark(),
            final(self).line_at() == old(self).line_at(),
            final(self).pos() == old(self).pos() + 1,
            c == (if old(self).pos() < old(self).src().len() {
                Some(old(self).src()[old(self).pos()])
            } else {
                None::<char>
            }),
            old(self).pos() < old(self).src().len() ==> final(self).wf(),
    {
        let next = if self.current < self.source.len() {
            Some(self.source[self.current])
        } else {
            None
        };
        self.current = self.current + 1;
        next
    }

    fn match_next_token(&mut self, c: char) -> (r: bool)
        requires
            old(self).wf(),
        ensures
            final(self).wf(),
            final(self).src() == old(self).src(),
            final(self).mark() == old(self).mark(),
            final(self).line_at() == old(self).line_at(),
            r == (old(self).pos() < old(self).src().len() && old(self).src()[old(self).pos()]
                == c),
            final(self).pos() == old(self).pos() + (if r {
                1int
            } else {
                0int
            }),
    {
        if self.current < self.source.len() {
            if self.source[self.current] == c {
                self.current = self.current + 1;
                return true;
            }
        }
        false
    }

    /// Advances the cursor to the end of the run of word-or-digit
    /// characters beginning at it.
    fn consume_word_run(&mut self)
        requires
            old(self).wf(),
        ensures
            final(self).wf(),
            final(self).src() == old(self).src(),
            final(self).mark() == old(self).mark(),
            final(self).line_at() == old(self).line_at(),
            final(self).pos() == word_run_end(old(self).src(), old(self).pos()),
    {
        while !self.is_at_end() && word_or_digit_char(self.peek())
            invariant
                self.wf(),
                self.source@ == old(self).src(),
                self.start == old(self).start,
                self.line == old(self).line,
                old(self).pos() <= self.pos(),
                word_run_end(self.source@, old(self).pos()) == word_run_end(
                    self.source@,
                    self.pos(),
                ),
            decreases self.source@.len() - self.pos(),
        {
            proof {
                assert(word_run_end(self.source@, self.pos()) == word_run_end(
                    self.source@,
                    self.pos() + 1,
                ));
            }
            self.current = self.current + 1;
        }
        proof {
            assert(word_run_end(self.source@, self.pos()) == self.pos());
        }
    }

    /// Advances the cursor to the end of the run of digits beginning
    /// at it.
    fn consume_digit_run(&mut self)
        requires
            old(self).wf(),
        ensures
            final(self).wf(),
            final(self).src() == old(self).src(),
            final(self).mark() == old(self).mark(),
            final(self).line_at() == old(self).line_at(),
            final(self).pos() == digit_run_end(old(self).src(), old(self).pos()),
    {
        while !self.is_at_end() && digit_char(self.peek())
            invariant
                self.wf(),
                self.source@ == old(self).src(),
                self.start == old(self).start,
                self.line == old(self).line,
                old(self).pos() <= self.pos(),
                digit_run_end(self.source@, old(self).pos()) == digit_run_end(
                    self.source@,
                    self.pos(),
                ),
            decreases self.source@.len() - self.pos(),
        {
            proof {
                assert(digit_run_end(self.source@, self.pos()) == digit_run_end(
                    self.source@,
                    self.pos() + 1,
                ));
            }
            self.current = self.current + 1;
        }
        proof {
            assert(digit_run_end(self.source@, self.pos()) == self.pos());
        }
    }

    /// Whether the current token span is exactly the keyword `title`.
    fn is_title_span(&self) -> (r: bool)
        requires
            self.mark() <= self.pos() <= self.src().len(),
        ensures
            r == (self.src().subrange(self.mark(), self.pos()) == title_kw()),
    {
        let ghost sub = self.src().subrange(self.mark(), self.pos());
        if self.current - self.start != 5 {
            proof {
                assert(sub.len() != title_kw().len());
            }
            return false;
        }
        let r = self.source[self.start] == 't' && self.source[self.start + 1] == 'i'
            && self.source[self.start + 2] == 't' && self.source[self.start + 3] == 'l'
            && self.source[self.start + 4] == 'e';
        proof {
            if r {
                assert(sub =~= title_kw());
            } else {
                assert(sub != title_kw());
            }
        }
        r
    }

    /// Consumes the word-or-digit run at the cursor and classifies the
    /// token span: `Title` for the keyword, `Identifier` otherwise.
    fn identifier_or_keyword(&mut self) -> (t: TokenType)
        requires
            old(self).wf(),
        ensures
            final(self).wf(),
            final(self).src() == old(self).src(),
            final(self).mark() == old(self).mark(),
            final(self).line_at() == old(self).line_at(),
            final(self).pos() == word_run_end(old(self).src(), old(self).pos()),
            t == (if old(self).src().subrange(
                old(self).mark(),
                word_run_end(old(self).src(), old(self).pos()),
            ) == title_kw() {
                TokenType::Title
            } else {
                TokenType::Identifier
            }),
    {
        self.consume_word_run();
        if self.is_title_span() {
            TokenType::Title
        } else {
            TokenType::Identifier
        }
    }

    /// Appends a token for the current span, trimmed of surrounding
    /// spaces.
    fn add_token(&self, tokens: &mut Vec<Token>, token_type: TokenType)
        requires
            self.mark() <= self.pos() <= self.src().len(),
        ensures
            final(tokens).deep_view() == old(tokens).deep_view().push(
                tok(token_type, self.line_at(), trim_spec(self.src().subrange(self.mark(), self.pos()))),
            ),
    {
        let text = trimmed_string(&self.source, self.start, self.current);
        let t = Token { token_type, line: self.line, text };
        tokens.push(t);
        proof {
            assert(tokens.deep_view() =~= old(tokens).deep_view().push(t@));
        }
    }

    /// Appends a token for the current span, kept literally.
    fn add_raw_token(&self, tokens: &mut Vec<Token>, token_type: TokenType)
        requires
            self.mark() <= self.pos() <= self.src().len(),
        ensures
            final(tokens).deep_view() == old(tokens).deep_view().push(
                tok(token_type, self.line_at(), self.src().subrange(self.mark(), self.pos())),
            ),
    {
        let text = span_string(&self.source, self.start, self.current);
        let t = Token { token_type, line: self.line, text };
        tokens.push(t);
        proof {
            assert(tokens.deep_view() =~= old(tokens).deep_view().push(t@));
        }
    }

    /// Scans a parenthesized numeric literal whose `(` was just
    /// consumed: the digits up to a closing character become one
    /// `Number` token; a literal cut off by the end of the input
    /// becomes an `Error` token carrying the open span.
    fn number(&mut self, tokens: &mut Vec<Token>)
        requires
            old(self).wf(),
            old(self).mark() + 1 == old(self).pos(),
        ensures
            final(self).wf(),
            final(self).src() == old(self).src(),
            final(self).line_at() == old(self).line_at(),
            ({
                let s = old(self).src();
                let i = old(self).mark();
                let j = digit_run_end(s, i + 1);
                if j == s.len() {
                    &&& final(tokens).deep_view() == old(tokens).deep_view().push(
                        tok(TokenType::Error, old(self).line_at(), s.subrange(i, j)),
                    )
                    &&& final(self).pos() == j
                } else {
                    &&& final(tokens).deep_view() == old(tokens).deep_view().push(
                        tok(TokenType::Number, old(self).line_at(), trim_spec(s.subrange(i, j + 1))),
                    )
                    &&& final(self).pos() == j + 1
                }
            }),
    {
        self.consume_digit_run();
        if self.is_at_end() {
            self.add_raw_token(tokens, TokenType::Error);
        } else {
            let _ = self.advance();
            self.add_token(tokens, TokenType::Number);
        }
    }

    /// Scans the remaining input and returns its tokens in source
    /// order.  A scanner fresh from [`Scanner::new`] yields
    /// `scan_from(source, 0, 1)`: the token sequence of the whole
    /// text.
    pub fn scan(&mut self) -> (tokens: Vec<Token>)
        requires
            old(self).wf(),
        ensures
            final(self).wf(),
            final(self).src() == old(self).src(),
            final(self).pos() == old(self).src().len(),
            tokens.deep_view() == scan_from(old(self).src(), old(self).pos(), old(self).line_at()),
    {
        let mut tokens: Vec<Token> = Vec::new();
        let ghost s = self.source@;
        let ghost p0 = self.current as int;
        let ghost l0 = self.line as nat;
        proof {
            assert(tokens.deep_view() =~= Seq::<TokenModel>::empty());
            assert(tokens.deep_view() + scan_from(s, p0, l0) =~= scan_from(s, p0, l0));
        }
        while !self.is_at_end()
            invariant
                self.wf(),
                self.source@ == s,
                0 <= p0 <= s.len(),
                scan_from(s, p0, l0) == tokens.deep_view() + scan_from(s, self.pos(), self.line_at()),
            decreases s.len() - self.pos(),
        {
            self.start = self.current;
            let ghost i = self.current as int;
            let ghost line = self.line as nat;
            let ghost pre = tokens.deep_view();
            let ghost rest0 = scan_from(s, i, line);
            let c = match self.advance() {
                Some(c) => c,
                None => {
                    // the loop guard leaves a character to consume
                    proof {
                        assert(false);
                    }
                    ' '
                },
            };
            if c == '\n' {
                self.add_raw_token(&mut tokens, TokenType::Endl);
                self.line = self.line + 1;
                proof {
                    let t = tok(TokenType::Endl, line, seq!['\n']);
                    assert(s.subrange(i, i + 1) =~= seq!['\n']);
                    assert(rest0 == seq![t] + scan_from(s, i + 1, line + 1));
                    assert(pre.push(t) + scan_from(s, i + 1, line + 1) =~= pre + rest0);
                }
            } else if c == ' ' {
                proof {
                    assert(rest0 == scan_from(s, i + 1, line));
                }
            } else if c == ':' {
                self.add_token(&mut tokens, TokenType::Colon);
                self.start = self.current;
                self.consume_word_run();
                let consumed_nothing = self.current == self.start;
                let stopped_badly = !self.is_at_end() && self.peek() != '\n';
                let kind = if consumed_nothing || stopped_badly {
                    TokenType::Error
                } else {
                    TokenType::Value
                };
                self.add_token(&mut tokens, kind);
                proof {
                    let j = word_run_end(s, i + 1);
                    lemma_word_run_end(s, i + 1);
                    let ct = tok(TokenType::Colon, line, trim_spec(s.subrange(i, i + 1)));
                    let vt = tok(kind, line, trim_spec(s.subrange(i + 1, j)));
                    assert(s.subrange(i, i + 1) =~= seq![':']);
                    assert(trim_spec(seq![':']) == seq![':']);
                    assert(rest0 == seq![
                        tok(TokenType::Colon, line, seq![':']),
                        vt,
                    ] + scan_from(s, j, line));
                    assert(pre.push(ct).push(vt) + scan_from(s, j, line) =~= pre + rest0);
                }
            } else if c == '-' {
                if self.match_next_token('>') {
                    self.add_token(&mut tokens, TokenType::Arrow);
                    proof {
                        let t = tok(TokenType::Arrow, line, trim_spec(s.subrange(i, i + 2)));
                        assert(s.subrange(i, i + 2) =~= seq!['-', '>']);
                        assert(trim_spec(seq!['-', '>']) == seq!['-', '>']);
                        assert(rest0 == seq![tok(TokenType::Arrow, line, seq!['-', '>'])]
                            + scan_from(s, i + 2, line));
                        assert(pre.push(t) + scan_from(s, i + 2, line) =~= pre + rest0);
                    }
                } else {
                    self.add_raw_token(&mut tokens, TokenType::Unexpected);
                    proof {
                        let t = tok(TokenType::Unexpected, line, s.subrange(i, i + 1));
                        assert(s.subrange(i, i + 1) =~= seq!['-']);
                        assert(rest0 == seq![tok(TokenType::Unexpected, line, seq!['-'])]
                            + scan_from(s, i + 1, line));
                        assert(pre.push(t) + scan_from(s, i + 1, line) =~= pre + rest0);
                    }
                }
            } else if c == '(' {
                self.number(&mut tokens);
                proof {
                    let j = digit_run_end(s, i + 1);
                    lemma_digit_run_end(s, i + 1);
                    if j == s.len() {
                        let t = tok(TokenType::Error, line, s.subrange(i, j));
                        assert(rest0 == seq![t]);
                        assert(pre.push(t) + scan_from(s, j, line) =~= pre + rest0);
                    } else {
                        let t = tok(TokenType::Number, line, trim_spec(s.subrange(i, j + 1)));
                        assert(rest0 == seq![t] + scan_from(s, j + 1, line));
                        assert(pre.push(t) + scan_from(s, j + 1, line) =~= pre + rest0);
                    }
                }
            } else if word_char(c) {
                let kind = self.identifier_or_keyword();
                self.add_token(&mut tokens, kind);
                proof {
                    let j = word_run_end(s, i);
                    assert(word_run_end(s, i) == word_run_end(s, i + 1));
                    lemma_word_run_end(s, i + 1);
                    let t = tok(kind, line, trim_spec(s.subrange(i, j)));
                    assert(rest0 == seq![t] + scan_from(s, j, line));
                    assert(pre.push(t) + scan_from(s, j, line) =~= pre + rest0);
                }
            } else {
                self.add_raw_token(&mut tokens, TokenType::Unexpected);
                proof {
                    let t = tok(TokenType::Unexpected, line, s.subrange(i, i + 1));
                    assert(s.subrange(i, i + 1) =~= seq![c]);
                    assert(rest0 == seq![t] + scan_from(s, i + 1, line));
                    assert(pre.push(t) + scan_from(s, i + 1, line) =~= pre + rest0);
                }
            }
        }
        proof {
            assert(scan_from(s, self.pos(), self.line_at()) =~= Seq::<TokenModel>::empty());
            assert(tokens.deep_view() =~= scan_from(s, p0, l0));
        }
        tokens
    }
}

} // verus!
