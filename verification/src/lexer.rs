//! The lexer: turns raw lines of text into a flat ordered token sequence,
//! accumulating one read error per line that could not be read instead of
//! stopping at the first problem.

use vstd::prelude::*;
use vstd::string::StrSliceExecFns;
use vstd::string::StringExecFns;

use crate::error::MorphError;
use crate::error::MorphErrorView;
use crate::error::MorphResult;
use crate::error::MorphResultView;
use crate::error::ReadError;
use crate::error::ReadErrorView;
use crate::text::is_space;
use crate::text::spec_nat_digits;
use crate::text::usize_to_string;
use crate::token::as_token_kind;
use crate::token::spec_token_kind_of;
use crate::token::Token;
use crate::token::TokenView;

verus! {

/// The lexer of the schema language.
pub struct SimpleLexer;

/// Whether a character always forms a one-character word of its own,
/// flushing any word in progress.
pub open spec fn spec_is_special_char(c: char) -> bool {
    c == '{' || c == '}' || c == '=' || c == ',' || c == ':' || c == ';' || c == '(' || c == ')'
        || c == '[' || c == ']'
}

/// The token a completed word produces, located at its line and starting
/// column.
pub open spec fn spec_word_token(word: Seq<char>, line: int, column: int) -> TokenView {
    TokenView { kind: spec_token_kind_of(word), line: line, column: column }
}

/// The tokens of the rest of a line, scanning from position `i` with the
/// word `word` in progress since column `word_start`.
pub open spec fn spec_line_scan(
    line: int,
    s: Seq<char>,
    i: int,
    word_start: int,
    word: Seq<char>,
) -> Seq<TokenView>
    decreases s.len() - i,
    when 0 <= i <= s.len()
{
    if i >= s.len() {
        if word.len() > 0 {
            seq![spec_word_token(word, line, word_start)]
        } else {
            Seq::<TokenView>::empty()
        }
    } else {
        let c = s[i];
        if is_space(c) {
            if word.len() > 0 {
                seq![spec_word_token(word, line, word_start)] + spec_line_scan(
                    line,
                    s,
                    i + 1,
                    word_start,
                    Seq::<char>::empty(),
                )
            } else {
                spec_line_scan(line, s, i + 1, word_start, Seq::<char>::empty())
            }
        } else if spec_is_special_char(c) {
            if word.len() > 0 {
                seq![spec_word_token(word, line, word_start)] + seq![
                    spec_word_token(seq![c], line, i),
                ] + spec_line_scan(line, s, i + 1, word_start, Seq::<char>::empty())
            } else {
                seq![spec_word_token(seq![c], line, i)] + spec_line_scan(
                    line,
                    s,
                    i + 1,
                    word_start,
                    Seq::<char>::empty(),
                )
            }
        } else {
            spec_line_scan(
                line,
                s,
                i + 1,
                if word.len() == 0 {
                    i
                } else {
                    word_start
                },
                word.push(c),
            )
        }
    }
}

/// The tokens of one whole line.
pub open spec fn spec_line_tokens(line: int, s: Seq<char>) -> Seq<TokenView> {
    spec_line_scan(line, s, 0, 0, Seq::<char>::empty())
}

/// The message of the read error for a line that failed to read.
pub open spec fn spec_read_failure_message(line: int, cause: Seq<char>) -> Seq<char> {
    "Failed to read line "@ + spec_nat_digits(line as nat) + ", cause: "@ + cause
}

/// The tokens of the first `k` lines, in line order; a line that failed to
/// read contributes none.
pub open spec fn spec_lex_tokens(lines: Seq<Result<String, String>>, k: int) -> Seq<TokenView>
    decreases k,
    when 0 <= k <= lines.len()
{
    if k <= 0 {
        Seq::<TokenView>::empty()
    } else {
        spec_lex_tokens(lines, k - 1) + (match lines[k - 1] {
            Ok(line) => spec_line_tokens(k, line@),
            Err(_) => Seq::<TokenView>::empty(),
        })
    }
}

/// The read errors of the first `k` lines, in line order; a line that read
/// successfully contributes none.
pub open spec fn spec_lex_errors(lines: Seq<Result<String, String>>, k: int) -> Seq<MorphErrorView>
    decreases k,
    when 0 <= k <= lines.len()
{
    if k <= 0 {
        Seq::<MorphErrorView>::empty()
    } else {
        spec_lex_errors(lines, k - 1) + (match lines[k - 1] {
            Ok(_) => Seq::<MorphErrorView>::empty(),
            Err(cause) => seq![
                MorphErrorView::Read(
                    ReadErrorView { message: spec_read_failure_message(k, cause@) },
                ),
            ],
        })
    }
}

/// What lexing a whole source yields: the full token sequence when every
/// line read, else every read error, in line order.
pub open spec fn spec_tokenize(lines: Seq<Result<String, String>>) -> MorphResultView<
    Seq<TokenView>,
> {
    let n = lines.len() as int;
    if spec_lex_errors(lines, n).len() == 0 {
        MorphResultView::Success(spec_lex_tokens(lines, n))
    } else {
        MorphResultView::Errors(spec_lex_errors(lines, n))
    }
}

impl SimpleLexer {
    /// Whether a character always forms a one-character word of its own.
    pub fn is_special_char(ch: char) -> (r: bool)
        ensures
            r == spec_is_special_char(ch),
    {
        ch == '{' || ch == '}' || ch == '=' || ch == ',' || ch == ':' || ch == ';' || ch == '('
            || ch == ')' || ch == '[' || ch == ']'
    }

    /// Classifies one completed word and appends its token; the word list
    /// of classifications is total, so no error is ever appended.
    pub fn process_word(
        &self,
        word: &str,
        line: usize,
        column: usize,
        tokens: &mut Vec<Token>,
        errors: &mut Vec<MorphError>,
    )
        ensures
            final(tokens).deep_view() == old(tokens).deep_view().push(
                spec_word_token(word@, line as int, column as int),
            ),
            *final(errors) == *old(errors),
    {
        match as_token_kind(word) {
            Some(kind) => {
                let token = Token { kind, line, column };
                proof {
                    assert(token@ == spec_word_token(word@, line as int, column as int));
                }
                tokens.push(token);
                proof {
                    assert(tokens.deep_view() =~= old(tokens).deep_view().push(
                        spec_word_token(word@, line as int, column as int),
                    ));
                }
            },
            None => {
                proof {
                    assert(false);
                }
            },
        }
    }

    /// Tokenizes one line: whitespace ends the word in progress, a special
    /// character is a one-character word of its own, and every word is
    /// classified; lexing a line never fails.
    pub fn tokenize_line(&self, line_number: usize, line: &str) -> (r: MorphResult<Vec<Token>>)
        ensures
            r@ == MorphResultView::<Seq<TokenView>>::Success(
                spec_line_tokens(line_number as int, line@),
            ),
    {
        let mut tokens: Vec<Token> = Vec::new();
        let mut errors: Vec<MorphError> = Vec::new();

        let n = line.unicode_len();
        let mut i: usize = 0;
        let mut current_word = String::new();
        let mut word_start: usize = 0;

        proof {
            assert(tokens.deep_view() =~= Seq::<TokenView>::empty());
        }

        while i < n
            invariant
                0 <= i <= n,
                n == line@.len(),
                errors@.len() == 0,
                spec_line_tokens(line_number as int, line@) == tokens.deep_view() + spec_line_scan(
                    line_number as int,
                    line@,
                    i as int,
                    word_start as int,
                    current_word@,
                ),
            decreases n - i,
        {
            let ghost ln = line_number as int;
            let ghost s = line@;
            let ghost toks0 = tokens.deep_view();
            let ghost w0 = current_word@;
            let ghost ws0 = word_start as int;
            let c = line.get_char(i);
            if c.is_whitespace() {
                if !current_word.as_str().is_empty() {
                    self.process_word(
                        current_word.as_str(),
                        line_number,
                        word_start,
                        &mut tokens,
                        &mut errors,
                    );
                    current_word = String::new();
                    proof {
                        assert(spec_line_scan(ln, s, i as int, ws0, w0) == seq![
                            spec_word_token(w0, ln, ws0),
                        ] + spec_line_scan(ln, s, i + 1, ws0, Seq::<char>::empty()));
                        assert(toks0 + (seq![spec_word_token(w0, ln, ws0)] + spec_line_scan(
                            ln,
                            s,
                            i + 1,
                            ws0,
                            Seq::<char>::empty(),
                        )) =~= tokens.deep_view() + spec_line_scan(
                            ln,
                            s,
                            i + 1,
                            ws0,
                            Seq::<char>::empty(),
                        ));
                    }
                } else {
                    proof {
                        assert(spec_line_scan(ln, s, i as int, ws0, w0) == spec_line_scan(
                            ln,
                            s,
                            i + 1,
                            ws0,
                            Seq::<char>::empty(),
                        ));
                        assert(w0 =~= Seq::<char>::empty());
                    }
                }
            } else if Self::is_special_char(c) {
                if !current_word.as_str().is_empty() {
                    self.process_word(
                        current_word.as_str(),
                        line_number,
                        word_start,
                        &mut tokens,
                        &mut errors,
                    );
                    current_word = String::new();
                    proof {
                        assert(spec_line_scan(ln, s, i as int, ws0, w0) == seq![
                            spec_word_token(w0, ln, ws0),
                        ] + seq![spec_word_token(seq![c], ln, i as int)] + spec_line_scan(
                            ln,
                            s,
                            i + 1,
                            ws0,
                            Seq::<char>::empty(),
                        ));
                    }
                } else {
                    proof {
                        assert(w0 =~= Seq::<char>::empty());
                        assert(spec_line_scan(ln, s, i as int, ws0, w0) == seq![
                            spec_word_token(seq![c], ln, i as int),
                        ] + spec_line_scan(ln, s, i + 1, ws0, Seq::<char>::empty()));
                    }
                }
                let ghost toks1 = tokens.deep_view();
                let mut special = String::new();
                special.push(c);
                proof {
                    assert(special@ =~= seq![c]);
                }
                self.process_word(special.as_str(), line_number, i, &mut tokens, &mut errors);
                proof {
                    assert(tokens.deep_view() == toks1.push(spec_word_token(seq![c], ln, i as int)));
                    assert(toks0 + spec_line_scan(ln, s, i as int, ws0, w0) =~= tokens.deep_view()
                        + spec_line_scan(ln, s, i + 1, ws0, Seq::<char>::empty()));
                }
            } else {
                if current_word.as_str().is_empty() {
                    word_start = i;
                }
                current_word.push(c);
                proof {
                    assert(spec_line_scan(ln, s, i as int, ws0, w0) == spec_line_scan(
                        ln,
                        s,
                        i + 1,
                        if w0.len() == 0 {
                            i as int
                        } else {
                            ws0
                        },
                        w0.push(c),
                    ));
                    assert(current_word@ == w0.push(c));
                    assert(word_start as int == if w0.len() == 0 {
                        i as int
                    } else {
                        ws0
                    });
                }
            }
            i = i + 1;
        }

        if !current_word.as_str().is_empty() {
            self.process_word(
                current_word.as_str(),
                line_number,
                word_start,
                &mut tokens,
                &mut errors,
            );
        }

        proof {
            assert(tokens.deep_view() =~= spec_line_tokens(line_number as int, line@));
        }
        MorphResult::Success(tokens)
    }

    /// Lexes a whole source given line by line; a line that failed to read
    /// is handed over as the failure's cause.  Errors accumulate across all
    /// lines: the result is the full token sequence, or every read error.
    pub fn tokenize(&self, lines: &Vec<Result<String, String>>) -> (r: MorphResult<Vec<Token>>)
        ensures
            r@ == spec_tokenize(lines@),
    {
        let mut tokens: Vec<Token> = Vec::new();
        let mut all_errors: Vec<MorphError> = Vec::new();

        let n = lines.len();
        let mut j: usize = 0;

        proof {
            assert(tokens.deep_view() =~= spec_lex_tokens(lines@, 0));
            assert(all_errors.deep_view() =~= spec_lex_errors(lines@, 0));
        }

        while j < n
            invariant
                0 <= j <= n,
                n == lines@.len(),
                tokens.deep_view() == spec_lex_tokens(lines@, j as int),
                all_errors.deep_view() == spec_lex_errors(lines@, j as int),
            decreases n - j,
        {
            match &lines[j] {
                Ok(line) => {
                    match self.tokenize_line(j + 1, line.as_str()) {
                        MorphResult::Success(mut line_tokens) => {
                            proof {
                                assert(line_tokens.deep_view() == spec_line_tokens(
                                    j + 1,
                                    line@,
                                ));
                            }
                            tokens.append(&mut line_tokens);
                            proof {
                                assert(tokens.deep_view() =~= spec_lex_tokens(lines@, j + 1));
                                assert(all_errors.deep_view() =~= spec_lex_errors(
                                    lines@,
                                    j + 1,
                                ));
                            }
                        },
                        MorphResult::Errors(_) => {
                            proof {
                                assert(false);
                            }
                        },
                    }
                },
                Err(cause) => {
                    let mut message = String::from_str("Failed to read line ");
                    let num = usize_to_string(j + 1);
                    message.append(num.as_str());
                    message.append(", cause: ");
                    message.append(cause.as_str());
                    proof {
                        assert(message@ =~= spec_read_failure_message(j + 1, cause@));
                    }
                    let read_error = ReadError { message };
                    all_errors.push(MorphError::Read(read_error));
                    proof {
                        assert(all_errors.deep_view() =~= spec_lex_errors(lines@, j + 1));
                        assert(tokens.deep_view() =~= spec_lex_tokens(lines@, j + 1));
                    }
                },
            }
            j = j + 1;
        }

        if all_errors.is_empty() {
            MorphResult::Success(tokens)
        } else {
            MorphResult::Errors(all_errors)
        }
    }
}

/// How many of the first `k` lines failed to read.
pub open spec fn spec_read_failures(lines: Seq<Result<String, String>>, k: int) -> int
    decreases k,
    when 0 <= k <= lines.len()
{
    if k <= 0 {
        0
    } else {
        spec_read_failures(lines, k - 1) + (match lines[k - 1] {
            Ok(_) => 0int,
            Err(_) => 1int,
        })
    }
}

/// Error accumulation: the lexer reports exactly one read error per line
/// that failed to read, never stopping at the first, and a word that is not
/// a keyword or a number is a qualifier, never an error, so a fully
/// readable source always lexes successfully with every line's tokens kept
/// in order.
pub proof fn lemma_lexer_error_accumulation(lines: Seq<Result<String, String>>, k: int)
    requires
        0 <= k <= lines.len(),
    ensures
        spec_lex_errors(lines, k).len() == spec_read_failures(lines, k),
        (forall|j: int| 0 <= j < k ==> lines[j] is Ok) ==> spec_lex_errors(lines, k)
            == Seq::<MorphErrorView>::empty(),
    decreases k,
{
    if k > 0 {
        lemma_lexer_error_accumulation(lines, k - 1);
        if forall|j: int| 0 <= j < k ==> lines[j] is Ok {
            assert(spec_lex_errors(lines, k) =~= Seq::<MorphErrorView>::empty());
        }
    }
}

/// Determinism of the lexer: its result is a function of the input lines
/// alone, so tokenizing the same source twice yields identical sequences.
pub proof fn lemma_lexer_deterministic(
    first: Seq<Result<String, String>>,
    second: Seq<Result<String, String>>,
)
    requires
        first == second,
    ensures
        spec_tokenize(first) == spec_tokenize(second),
{
}

} // verus!
