//! Tokenizer: splits text into typed tokens with code-point character spans
//! and finds sentence ranges.
//!
//! The token grammar: a run of CJK ideographs is one word token; alphanumeric
//! runs joined by `/` form an acronym token; a Latin-letter run or a digit run
//! is a word or number token; any other run of non-whitespace characters is a
//! punctuation token. Whitespace separates tokens and is never emitted.

use vstd::prelude::*;

use crate::text::{
    char_is_alnum, char_is_cjk, char_is_digit, char_is_latin, char_is_space, char_is_uppercase,
    spec_is_alnum, spec_is_cjk, spec_is_digit, spec_is_latin, spec_is_space, spec_is_uppercase,
    str_to_chars,
};

verus! {

#[derive(Debug, Clone, Copy, PartialEq, Eq, Structural)]
pub enum TokenizerError {
    InvalidTokenInterval { start_index: usize, end_index: usize, total_tokens: usize },
    SentenceRangeError { start_token_index: usize, total_tokens: usize },
}

#[derive(Debug, Clone, Copy, PartialEq, Eq, Structural)]
pub struct CharInterval {
    pub start_pos: usize,
    pub end_pos: usize,
}

#[derive(Debug, Clone, Copy, PartialEq, Eq, Structural)]
pub struct TokenInterval {
    pub start_index: usize,
    pub end_index: usize,
}

#[derive(Debug, Clone, Copy, PartialEq, Eq, Structural)]
pub enum TokenType {
    Word,
    Number,
    Punctuation,
    Acronym,
}

#[derive(Debug, Clone, Copy, PartialEq, Eq, Structural)]
pub struct Token {
    pub index: usize,
    pub token_type: TokenType,
    pub char_interval: CharInterval,
    pub first_token_after_newline: bool,
}

#[derive(Debug)]
pub struct TokenizedText {
    pub text: String,
    pub tokens: Vec<Token>,
}

/// The mathematical model of a tokenized text.
pub struct TokenizedTextView {
    pub text: Seq<char>,
    pub tokens: Seq<Token>,
}

impl View for TokenizedText {
    type V = TokenizedTextView;

    open spec fn view(&self) -> TokenizedTextView {
        TokenizedTextView { text: self.text@, tokens: self.tokens@ }
    }
}

// ---------------------------------------------------------------------------
// The token grammar, as specification functions over character sequences.
// ---------------------------------------------------------------------------

/// End of the maximal run of characters satisfying `f`, starting at `i`.
pub open spec fn run_end(s: Seq<char>, i: int, f: spec_fn(char) -> bool) -> int
    decreases s.len() - i,
{
    if 0 <= i < s.len() && f(s[i]) {
        run_end(s, i + 1, f)
    } else {
        i
    }
}

pub open spec fn space_pred() -> spec_fn(char) -> bool {
    |c: char| spec_is_space(c)
}

pub open spec fn cjk_pred() -> spec_fn(char) -> bool {
    |c: char| spec_is_cjk(c)
}

pub open spec fn alnum_pred() -> spec_fn(char) -> bool {
    |c: char| spec_is_alnum(c)
}

pub open spec fn digit_pred() -> spec_fn(char) -> bool {
    |c: char| spec_is_digit(c)
}

pub open spec fn latin_pred() -> spec_fn(char) -> bool {
    |c: char| spec_is_latin(c)
}

/// A character that belongs to a punctuation run: printable, but neither
/// alphanumeric nor a CJK ideograph.
pub open spec fn spec_is_other(c: char) -> bool {
    !spec_is_space(c) && !spec_is_alnum(c) && !spec_is_cjk(c)
}

pub open spec fn other_pred() -> spec_fn(char) -> bool {
    |c: char| spec_is_other(c)
}

pub open spec fn space_run_end(s: Seq<char>, i: int) -> int {
    run_end(s, i, space_pred())
}

pub open spec fn cjk_run_end(s: Seq<char>, i: int) -> int {
    run_end(s, i, cjk_pred())
}

pub open spec fn alnum_run_end(s: Seq<char>, i: int) -> int {
    run_end(s, i, alnum_pred())
}

pub open spec fn digit_run_end(s: Seq<char>, i: int) -> int {
    run_end(s, i, digit_pred())
}

pub open spec fn latin_run_end(s: Seq<char>, i: int) -> int {
    run_end(s, i, latin_pred())
}

pub open spec fn other_run_end(s: Seq<char>, i: int) -> int {
    run_end(s, i, other_pred())
}

/// End of an acronym: alphanumeric characters, with `/` accepted whenever an
/// alphanumeric character follows it.
pub open spec fn acronym_end(s: Seq<char>, i: int) -> int
    decreases s.len() - i,
{
    if 0 <= i < s.len() && spec_is_alnum(s[i]) {
        acronym_end(s, i + 1)
    } else if 0 <= i && i + 1 < s.len() && s[i] == '/' && spec_is_alnum(s[i + 1]) {
        acronym_end(s, i + 1)
    } else {
        i
    }
}

/// Whether the token starting at `i` is an acronym: its alphanumeric run is
/// followed by `/` and another alphanumeric character.
#[verifier::opaque]
pub open spec fn is_acronym_at(s: Seq<char>, i: int) -> bool {
    &&& spec_is_alnum(s[i])
    &&& alnum_run_end(s, i) < s.len()
    &&& s[alnum_run_end(s, i)] == '/'
    &&& alnum_run_end(s, i) + 1 < s.len()
    &&& spec_is_alnum(s[alnum_run_end(s, i) + 1])
}

/// End of the token starting at `i`; meaningful when `s[i]` is not whitespace.
#[verifier::opaque]
pub open spec fn token_end(s: Seq<char>, i: int) -> int {
    if spec_is_cjk(s[i]) {
        cjk_run_end(s, i)
    } else if spec_is_alnum(s[i]) {
        if is_acronym_at(s, i) {
            acronym_end(s, i)
        } else if spec_is_digit(s[i]) {
            digit_run_end(s, i)
        } else {
            latin_run_end(s, i)
        }
    } else {
        other_run_end(s, i)
    }
}

/// Kind of the token starting at `i`.
#[verifier::opaque]
pub open spec fn token_kind(s: Seq<char>, i: int) -> TokenType {
    if spec_is_cjk(s[i]) {
        TokenType::Word
    } else if spec_is_alnum(s[i]) {
        if is_acronym_at(s, i) {
            TokenType::Acronym
        } else if spec_is_digit(s[i]) {
            TokenType::Number
        } else {
            TokenType::Word
        }
    } else {
        TokenType::Punctuation
    }
}

pub proof fn lemma_run_end_bounds(s: Seq<char>, i: int, f: spec_fn(char) -> bool)
    requires
        0 <= i <= s.len(),
    ensures
        i <= run_end(s, i, f) <= s.len(),
        forall|k: int| i <= k < run_end(s, i, f) ==> f(s[k]),
        run_end(s, i, f) < s.len() ==> !f(s[run_end(s, i, f)]),
    decreases s.len() - i,
{
    if i < s.len() && f(s[i]) {
        lemma_run_end_bounds(s, i + 1, f);
    }
}

/// A scan that stops at the first character failing `f` has found the run end.
pub proof fn lemma_run_end_exact(s: Seq<char>, i: int, e: int, f: spec_fn(char) -> bool)
    requires
        0 <= i <= e <= s.len(),
        forall|k: int| i <= k < e ==> f(s[k]),
        e < s.len() ==> !f(s[e]),
    ensures
        run_end(s, i, f) == e,
    decreases e - i,
{
    if i < e {
        lemma_run_end_exact(s, i + 1, e, f);
    }
}

pub proof fn lemma_acronym_end_bounds(s: Seq<char>, i: int)
    requires
        0 <= i <= s.len(),
    ensures
        i <= acronym_end(s, i) <= s.len(),
    decreases s.len() - i,
{
    if i < s.len() && spec_is_alnum(s[i]) {
        lemma_acronym_end_bounds(s, i + 1);
    } else if i + 1 < s.len() && s[i] == '/' && spec_is_alnum(s[i + 1]) {
        lemma_acronym_end_bounds(s, i + 1);
    }
}

/// The token starting at a non-whitespace character is non-empty and stays
/// inside the text.
pub proof fn lemma_token_end_bounds(s: Seq<char>, i: int)
    requires
        0 <= i < s.len(),
        !spec_is_space(s[i]),
    ensures
        i < token_end(s, i) <= s.len(),
{
    reveal(token_end);
    reveal(is_acronym_at);
    lemma_run_end_bounds(s, i, cjk_pred());
    lemma_run_end_bounds(s, i, alnum_pred());
    lemma_run_end_bounds(s, i, digit_pred());
    lemma_run_end_bounds(s, i, latin_pred());
    lemma_run_end_bounds(s, i, other_pred());
    lemma_acronym_end_bounds(s, i);
    if spec_is_alnum(s[i]) && is_acronym_at(s, i) {
        assert(acronym_end(s, i) == acronym_end(s, i + 1));
        lemma_acronym_end_bounds(s, i + 1);
    }
}

/// The spans of all tokens of `s` from position `i` on, in order.
#[verifier::opaque]
pub open spec fn spec_spans(s: Seq<char>, i: int) -> Seq<(int, int)>
    decreases s.len() - i,
    when 0 <= i
    via spec_spans_decreases
{
    let j = space_run_end(s, i);
    if j >= s.len() {
        Seq::empty()
    } else {
        seq![(j, token_end(s, j))] + spec_spans(s, token_end(s, j))
    }
}

#[via_fn]
proof fn spec_spans_decreases(s: Seq<char>, i: int) {
    if i <= s.len() {
        lemma_run_end_bounds(s, i, space_pred());
        let j = space_run_end(s, i);
        if j < s.len() {
            lemma_token_end_bounds(s, j);
        }
    }
}

/// Whether the gap `[from, to)` contains a line break.
#[verifier::opaque]
pub open spec fn gap_has_newline(s: Seq<char>, from: int, to: int) -> bool {
    exists|k: int| from <= k < to && (s[k] == '\n' || s[k] == '\r')
}

/// The character span of a token, as a pair.
pub open spec fn span_fn() -> spec_fn(Token) -> (int, int) {
    |t: Token| (t.char_interval.start_pos as int, t.char_interval.end_pos as int)
}

/// What `tokenize` promises of its output, relative to the input characters.
pub open spec fn tokens_follow_spans(s: Seq<char>, tokens: Seq<Token>) -> bool {
    &&& tokens.map_values(span_fn()) == spec_spans(s, 0)
    &&& forall|k: int|
        0 <= k < tokens.len() ==> (#[trigger] tokens[k]).index == k
    &&& forall|k: int|
        0 <= k < tokens.len() ==> (#[trigger] tokens[k]).token_type == token_kind(
            s,
            tokens[k].char_interval.start_pos as int,
        )
    &&& forall|k: int|
        0 <= k < tokens.len() ==> #[trigger] tokens[k].first_token_after_newline == (k > 0
            && gap_has_newline(
            s,
            tokens[k - 1].char_interval.end_pos as int,
            tokens[k].char_interval.start_pos as int,
        ))
}

/// Well-formedness of a tokenized text: every token's char interval is a
/// non-empty range inside the text, and tokens come in ascending,
/// non-overlapping order with dense indices.
pub open spec fn tokenized_wf(text: Seq<char>, tokens: Seq<Token>) -> bool {
    &&& forall|k: int|
        0 <= k < tokens.len() ==> (#[trigger] tokens[k]).char_interval.start_pos
            < tokens[k].char_interval.end_pos
    &&& forall|k: int|
        0 <= k < tokens.len() ==> (#[trigger] tokens[k]).char_interval.end_pos <= text.len()
    &&& forall|k: int, l: int|
        0 <= k < l < tokens.len() ==> (#[trigger] tokens[k]).char_interval.end_pos <= (
        #[trigger] tokens[l]).char_interval.start_pos
    &&& forall|k: int| 0 <= k < tokens.len() ==> (#[trigger] tokens[k]).index == k
}

impl TokenizedText {
    pub open spec fn wf(&self) -> bool {
        tokenized_wf(self.text@, self.tokens@)
    }
}

// ---------------------------------------------------------------------------
// Tokenizing
// ---------------------------------------------------------------------------

/// Splits `text` into typed tokens with code-point character spans.
#[verifier::rlimit(100)]
pub fn tokenize(text: &str) -> (r: TokenizedText)
    ensures
        r.text@ == text@,
        tokens_follow_spans(text@, r.tokens@),
        r.wf(),
        text@.len() == 0 ==> r.tokens@.len() == 0,
{
    let chars = str_to_chars(text);
    let tokens = tokenize_chars(&chars);
    proof {
        if text@.len() == 0 {
            assert(spec_spans(text@, 0) == Seq::<(int, int)>::empty()) by {
                reveal(spec_spans);
            }
            assert(tokens@.map_values(span_fn()).len() == 0);
            assert(tokens@.len() == 0);
        }
    }
    TokenizedText { text: text.to_owned(), tokens }
}

/// Reconstructs the text covered by a token interval: the substring from the
/// first token's start to the last token's end.
pub fn tokens_text(tokenized_text: &TokenizedText, token_interval: &TokenInterval) -> (r: Result<
    String,
    TokenizerError,
>)
    requires
        tokenized_text.wf(),
    ensures
        (token_interval.start_index < token_interval.end_index && token_interval.end_index
            <= tokenized_text.tokens@.len()) <==> r is Ok,
        r is Ok ==> r->Ok_0@ == tokenized_text.text@.subrange(
            tokenized_text.tokens@[token_interval.start_index as int].char_interval.start_pos
                as int,
            tokenized_text.tokens@[token_interval.end_index - 1].char_interval.end_pos as int,
        ),
        r is Err ==> r == Result::<String, TokenizerError>::Err(
            TokenizerError::InvalidTokenInterval {
                start_index: token_interval.start_index,
                end_index: token_interval.end_index,
                total_tokens: tokenized_text.tokens@.len() as usize,
            },
        ),
{
    if token_interval.start_index >= token_interval.end_index || token_interval.end_index
        > tokenized_text.tokens.len() {
        return Err(TokenizerError::InvalidTokenInterval {
            start_index: token_interval.start_index,
            end_index: token_interval.end_index,
            total_tokens: tokenized_text.tokens.len(),
        });
    }
    let start_token = tokenized_text.tokens[token_interval.start_index];
    let end_token = tokenized_text.tokens[token_interval.end_index - 1];
    let a = start_token.char_interval.start_pos;
    let b = end_token.char_interval.end_pos;
    proof {
        if token_interval.start_index < token_interval.end_index - 1 {
            assert(tokenized_text.tokens@[token_interval.start_index as int].char_interval.end_pos
                <= tokenized_text.tokens@[token_interval.end_index - 1].char_interval.start_pos);
        }
    }
    Ok(tokenized_text.text.as_str().substring_char(a, b).to_owned())
}

/// A character that ends a sentence.
pub open spec fn spec_is_sentence_end_char(c: char) -> bool {
    c == '.' || c == '?' || c == '!' || c == '\u{3002}' || c == '\u{ff1f}' || c == '\u{ff01}'
}

#[verifier::when_used_as_spec(spec_is_sentence_end_char)]
pub fn char_is_sentence_end(c: char) -> (r: bool)
    ensures
        r == spec_is_sentence_end_char(c),
{
    c == '.' || c == '?' || c == '!' || c == '\u{3002}' || c == '\u{ff1f}' || c == '\u{ff01}'
}

/// Abbreviations whose trailing period does not end a sentence.
pub open spec fn spec_is_known_abbreviation(s: Seq<char>) -> bool {
    s == "Mr."@ || s == "Mrs."@ || s == "Ms."@ || s == "Dr."@ || s == "Prof."@ || s == "St."@
}

/// The text of token `k`, as a character sequence.
pub open spec fn spec_token_text(s: Seq<char>, tokens: Seq<Token>, k: int) -> Seq<char> {
    s.subrange(
        tokens[k].char_interval.start_pos as int,
        tokens[k].char_interval.end_pos as int,
    )
}

/// Token `k` ends a sentence: its text ends with a sentence-end character and
/// it does not combine with the previous token into a known abbreviation.
pub open spec fn spec_is_end_of_sentence(s: Seq<char>, tokens: Seq<Token>, k: int) -> bool {
    &&& spec_is_sentence_end_char(s[tokens[k].char_interval.end_pos - 1])
    &&& !(k > 0 && spec_is_known_abbreviation(
        spec_token_text(s, tokens, k - 1) + spec_token_text(s, tokens, k),
    ))
}

/// Decides whether token `current_idx` ends a sentence.
pub fn is_end_of_sentence_token(text: &str, tokens: &[Token], current_idx: usize) -> (r: bool)
    requires
        tokenized_wf(text@, tokens@),
        current_idx < tokens@.len(),
    ensures
        r == spec_is_end_of_sentence(text@, tokens@, current_idx as int),
{
    let tok = tokens[current_idx];
    let last = text.get_char(tok.char_interval.end_pos - 1);
    if !char_is_sentence_end(last) {
        return false;
    }
    if current_idx > 0 {
        let prev = tokens[current_idx - 1];
        let prev_text = text.substring_char(
            prev.char_interval.start_pos,
            prev.char_interval.end_pos,
        ).to_owned();
        let tok_text = text.substring_char(
            tok.char_interval.start_pos,
            tok.char_interval.end_pos,
        ).to_owned();
        let combined = prev_text.concat(tok_text.as_str());
        if combined == String::from_str("Mr.") || combined == String::from_str("Mrs.") || combined
            == String::from_str("Ms.") || combined == String::from_str("Dr.") || combined
            == String::from_str("Prof.") || combined == String::from_str("St.") {
            return false;
        }
    }
    true
}

/// The gap after token `k` contains a line feed and the next token starts
/// with an uppercase letter.
pub open spec fn spec_newline_break(s: Seq<char>, tokens: Seq<Token>, k: int) -> bool {
    &&& k + 1 < tokens.len()
    &&& exists|m: int|
        tokens[k].char_interval.end_pos <= m < tokens[k + 1].char_interval.start_pos && s[m]
            == '\n'
    &&& spec_is_uppercase(s[tokens[k + 1].char_interval.start_pos as int])
}

/// Decides whether a sentence break follows token `current_idx`: a newline in
/// the gap, then a token beginning with an uppercase letter.
pub fn is_sentence_break_after_newline(text: &str, tokens: &[Token], current_idx: usize) -> (r:
    bool)
    requires
        tokenized_wf(text@, tokens@),
        current_idx < tokens@.len(),
    ensures
        r == spec_newline_break(text@, tokens@, current_idx as int),
{
    let total = tokens.len();
    if current_idx + 1 >= total {
        return false;
    }
    let gap_start = tokens[current_idx].char_interval.end_pos;
    let gap_end = tokens[current_idx + 1].char_interval.start_pos;
    let mut m = gap_start;
    let mut found = false;
    while m < gap_end
        invariant
            tokenized_wf(text@, tokens@),
            current_idx + 1 < tokens@.len(),
            gap_start == tokens@[current_idx as int].char_interval.end_pos,
            gap_end == tokens@[current_idx + 1].char_interval.start_pos,
            gap_start <= m <= gap_end,
            gap_end <= text@.len(),
            found == exists|k: int| gap_start <= k < m && text@[k] == '\n',
        decreases gap_end - m,
    {
        if text.get_char(m) == '\n' {
            found = true;
            proof {
                assert(gap_start <= m < m + 1 && text@[m as int] == '\n');
            }
        } else {
            proof {
                if exists|k: int| gap_start <= k < m + 1 && text@[k] == '\n' {
                    let k = choose|k: int| gap_start <= k < m + 1 && text@[k] == '\n';
                    assert(k < m ==> exists|k2: int| gap_start <= k2 < m && text@[k2] == '\n');
                }
            }
        }
        m = m + 1;
    }
    if !found {
        return false;
    }
    let first = text.get_char(gap_end);
    char_is_uppercase(first)
}

/// A sentence boundary at token `k`: a sentence-ending punctuation token, or
/// a newline break followed by an uppercase token.
pub open spec fn spec_sentence_boundary(s: Seq<char>, tokens: Seq<Token>, k: int) -> bool {
    ||| (tokens[k].token_type == TokenType::Punctuation && spec_is_end_of_sentence(s, tokens, k))
    ||| spec_newline_break(s, tokens, k)
}

/// One past the first sentence boundary at or after token `i`, or the token
/// count when no boundary follows.
pub open spec fn spec_sentence_end(s: Seq<char>, tokens: Seq<Token>, i: int) -> int
    decreases tokens.len() - i,
{
    if !(0 <= i < tokens.len()) {
        tokens.len() as int
    } else if spec_sentence_boundary(s, tokens, i) {
        i + 1
    } else {
        spec_sentence_end(s, tokens, i + 1)
    }
}

/// Finds the smallest sentence range starting at `start_token_index`: the
/// range ends just after the first sentence boundary, or at the last token
/// when no boundary exists.
pub fn find_sentence_range(text: &str, tokens: &[Token], start_token_index: usize) -> (r: Result<
    TokenInterval,
    TokenizerError,
>)
    requires
        tokenized_wf(text@, tokens@),
    ensures
        (start_token_index < tokens@.len()) <==> r is Ok,
        r is Err ==> r == Result::<TokenInterval, TokenizerError>::Err(
            TokenizerError::SentenceRangeError {
                start_token_index,
                total_tokens: tokens@.len() as usize,
            },
        ),
        r is Ok ==> {
            let iv = r->Ok_0;
            &&& iv.start_index == start_token_index
            &&& start_token_index < iv.end_index <= tokens@.len()
            &&& iv.end_index == spec_sentence_end(text@, tokens@, start_token_index as int)
            &&& forall|m: int|
                start_token_index <= m < iv.end_index - 1 ==> !spec_sentence_boundary(
                    text@,
                    tokens@,
                    m,
                )
            &&& (spec_sentence_boundary(text@, tokens@, iv.end_index - 1) || iv.end_index
                == tokens@.len())
        },
{
    if start_token_index >= tokens.len() {
        return Err(TokenizerError::SentenceRangeError {
            start_token_index,
            total_tokens: tokens.len(),
        });
    }
    let mut i = start_token_index;
    while i < tokens.len()
        invariant
            tokenized_wf(text@, tokens@),
            start_token_index <= i <= tokens@.len(),
            spec_sentence_end(text@, tokens@, start_token_index as int) == spec_sentence_end(
                text@,
                tokens@,
                i as int,
            ),
            forall|m: int|
                start_token_index <= m < i ==> !spec_sentence_boundary(text@, tokens@, m),
        decreases tokens@.len() - i,
    {
        let is_punct = tokens[i].token_type == TokenType::Punctuation;
        if is_punct && is_end_of_sentence_token(text, tokens, i) {
            return Ok(TokenInterval { start_index: start_token_index, end_index: i + 1 });
        }
        if is_sentence_break_after_newline(text, tokens, i) {
            return Ok(TokenInterval { start_index: start_token_index, end_index: i + 1 });
        }
        i = i + 1;
    }
    Ok(TokenInterval { start_index: start_token_index, end_index: tokens.len() })
}

/// A maximal run of CJK ideographs forms a single word token: a token
/// starting at a CJK character extends to the end of the ideograph run and
/// is classified as a word.
pub proof fn lemma_cjk_run_is_one_word_token(s: Seq<char>, i: int)
    requires
        0 <= i < s.len(),
        spec_is_cjk(s[i]),
    ensures
        token_end(s, i) == cjk_run_end(s, i),
        token_kind(s, i) == TokenType::Word,
        forall|k: int| i <= k < cjk_run_end(s, i) ==> spec_is_cjk(s[k]),
        cjk_run_end(s, i) < s.len() ==> !spec_is_cjk(s[cjk_run_end(s, i)]),
{
    reveal(token_end);
    reveal(token_kind);
    lemma_run_end_bounds(s, i, cjk_pred());
}

/// Invariant of the tokenizing loop: the tokens collected so far, followed by
/// the tokens still to come from `pos`, are exactly the tokens of `s`, and
/// every collected token is well formed.
pub open spec fn tok_state_ok(s: Seq<char>, tokens: Seq<Token>, pos: int, prev_end: int) -> bool {
    &&& 0 <= prev_end <= pos <= s.len()
    &&& tokens.map_values(span_fn()) + spec_spans(s, pos) == spec_spans(s, 0)
    &&& forall|k: int| 0 <= k < tokens.len() ==> (#[trigger] tokens[k]).index == k
    &&& forall|k: int|
        0 <= k < tokens.len() ==> (#[trigger] tokens[k]).token_type == token_kind(
            s,
            tokens[k].char_interval.start_pos as int,
        )
    &&& forall|k: int|
        0 <= k < tokens.len() ==> #[trigger] tokens[k].first_token_after_newline == (k > 0
            && gap_has_newline(
            s,
            tokens[k - 1].char_interval.end_pos as int,
            tokens[k].char_interval.start_pos as int,
        ))
    &&& forall|k: int|
        0 <= k < tokens.len() ==> (#[trigger] tokens[k]).char_interval.start_pos
            < tokens[k].char_interval.end_pos
    &&& forall|k: int|
        0 <= k < tokens.len() ==> (#[trigger] tokens[k]).char_interval.end_pos <= prev_end
    &&& forall|k: int, l: int|
        0 <= k < l < tokens.len() ==> (#[trigger] tokens[k]).char_interval.end_pos <= (
        #[trigger] tokens[l]).char_interval.start_pos
    &&& tokens.len() > 0 ==> tokens[tokens.len() - 1].char_interval.end_pos == prev_end
}

/// Two positions with the same whitespace-skip target see the same tokens.
proof fn lemma_spans_same_skip(s: Seq<char>, i: int, j: int)
    requires
        0 <= i,
        0 <= j,
        space_run_end(s, i) == space_run_end(s, j),
    ensures
        spec_spans(s, i) == spec_spans(s, j),
{
    reveal(spec_spans);
    assert(spec_spans(s, i) == spec_spans(s, j));
}

/// Appending the token found at `pos` preserves the loop invariant.
proof fn lemma_tok_step(s: Seq<char>, tokens: Seq<Token>, pos: int, prev_end: int, tok: Token)
    requires
        tok_state_ok(s, tokens, pos, prev_end),
        pos < s.len(),
        space_run_end(s, pos) == pos,
        tok.index == tokens.len(),
        tok.char_interval.start_pos == pos,
        tok.char_interval.end_pos == token_end(s, pos),
        tok.token_type == token_kind(s, pos),
        tok.first_token_after_newline == (tokens.len() > 0 && gap_has_newline(s, prev_end, pos)),
    ensures
        tok_state_ok(s, tokens.push(tok), token_end(s, pos), token_end(s, pos)),
{
    lemma_run_end_bounds(s, pos, space_pred());
    assert(!spec_is_space(s[pos]));
    lemma_token_end_bounds(s, pos);
    let e = token_end(s, pos);
    assert(spec_spans(s, pos) == seq![(pos, e)] + spec_spans(s, e)) by {
        reveal(spec_spans);
    }
    assert(tokens.push(tok).map_values(span_fn()) =~= tokens.map_values(span_fn()) + seq![
        (pos, e),
    ]);
    assert(tokens.push(tok).map_values(span_fn()) + spec_spans(s, e) =~= tokens.map_values(
        span_fn(),
    ) + spec_spans(s, pos));
    let new_tokens = tokens.push(tok);
    assert forall|k: int|
        0 <= k < new_tokens.len() implies (#[trigger] new_tokens[k]).char_interval.end_pos
        <= e by {
        if k < tokens.len() {
            assert(new_tokens[k] == tokens[k]);
        }
    }
}

/// When the scan has passed the last token, the invariant gives the contract
/// of `tokenize`.
proof fn lemma_tok_finish(s: Seq<char>, tokens: Seq<Token>, pos: int, prev_end: int)
    requires
        tok_state_ok(s, tokens, pos, prev_end),
        pos >= s.len(),
    ensures
        tokens_follow_spans(s, tokens),
        tokenized_wf(s, tokens),
{
    assert(spec_spans(s, pos) == Seq::<(int, int)>::empty()) by {
        reveal(spec_spans);
    }
    assert(tokens.map_values(span_fn()) =~= tokens.map_values(span_fn()) + spec_spans(s, pos));
}

#[verifier::rlimit(50)]
fn tokenize_chars(v: &Vec<char>) -> (tokens: Vec<Token>)
    ensures
        tokens_follow_spans(v@, tokens@),
        tokenized_wf(v@, tokens@),
{
    let ghost s = v@;
    let n = v.len();
    let mut tokens: Vec<Token> = Vec::new();
    let mut pos: usize = 0;
    let mut prev_end: usize = 0;
    proof {
        assert(tokens@.map_values(span_fn()) + spec_spans(s, 0) =~= spec_spans(s, 0));
        assert(tok_state_ok(s, tokens@, 0, 0));
    }
    loop
        invariant
            s == v@,
            n == s.len(),
            tok_state_ok(s, tokens@, pos as int, prev_end as int),
        ensures
            tokens_follow_spans(s, tokens@),
            tokenized_wf(s, tokens@),
        decreases n - pos,
    {
        // skip whitespace
        let ghost p0 = pos as int;
        while pos < n && char_is_space(v[pos])
            invariant
                s == v@,
                n == s.len(),
                p0 <= pos <= n,
                space_run_end(s, p0) == space_run_end(s, pos as int),
            decreases n - pos,
        {
            pos = pos + 1;
        }
        proof {
            assert(space_run_end(s, pos as int) == pos as int);
            lemma_spans_same_skip(s, p0, pos as int);
            assert(tok_state_ok(s, tokens@, pos as int, prev_end as int)) by {
                assert(spec_spans(s, p0) == spec_spans(s, pos as int));
            }
        }
        if pos >= n {
            proof {
                lemma_tok_finish(s, tokens@, pos as int, prev_end as int);
            }
            break;
        }
        let j = pos;
        let c = v[j];
        let kind: TokenType;
        let mut e: usize;
        if char_is_cjk(c) {
            e = j;
            while e < n && char_is_cjk(v[e])
                invariant
                    s == v@,
                    n == s.len(),
                    j <= e <= n,
                    cjk_run_end(s, j as int) == cjk_run_end(s, e as int),
                decreases n - e,
            {
                e = e + 1;
            }
            proof {
                assert(cjk_run_end(s, e as int) == e as int);
            }
            kind = TokenType::Word;
        } else if char_is_alnum(c) {
            let mut m: usize = j;
            while m < n && char_is_alnum(v[m])
                invariant
                    s == v@,
                    n == s.len(),
                    j <= m <= n,
                    alnum_run_end(s, j as int) == alnum_run_end(s, m as int),
                decreases n - m,
            {
                m = m + 1;
            }
            proof {
                assert(alnum_run_end(s, m as int) == m as int);
            }
            if m < n && v[m] == '/' && m + 1 < n && char_is_alnum(v[m + 1]) {
                e = j;
                while e < n && (char_is_alnum(v[e]) || (v[e] == '/' && e + 1 < n && char_is_alnum(
                    v[e + 1],
                )))
                    invariant
                        s == v@,
                        n == s.len(),
                        j <= e <= n,
                        acronym_end(s, j as int) == acronym_end(s, e as int),
                    decreases n - e,
                {
                    e = e + 1;
                }
                proof {
                    assert(acronym_end(s, e as int) == e as int);
                }
                kind = TokenType::Acronym;
            } else if char_is_digit(c) {
                e = j;
                while e < n && char_is_digit(v[e])
                    invariant
                        s == v@,
                        n == s.len(),
                        j <= e <= n,
                        digit_run_end(s, j as int) == digit_run_end(s, e as int),
                    decreases n - e,
                {
                    e = e + 1;
                }
                proof {
                    assert(digit_run_end(s, e as int) == e as int);
                }
                kind = TokenType::Number;
            } else {
                e = j;
                while e < n && char_is_latin(v[e])
                    invariant
                        s == v@,
                        n == s.len(),
                        j <= e <= n,
                        latin_run_end(s, j as int) == latin_run_end(s, e as int),
                    decreases n - e,
                {
                    e = e + 1;
                }
                proof {
                    assert(latin_run_end(s, e as int) == e as int);
                }
                kind = TokenType::Word;
            }
        } else {
            e = j;
            while e < n && !char_is_space(v[e]) && !char_is_alnum(v[e]) && !char_is_cjk(v[e])
                invariant
                    s == v@,
                    n == s.len(),
                    j <= e <= n,
                    other_run_end(s, j as int) == other_run_end(s, e as int),
                decreases n - e,
            {
                e = e + 1;
            }
            proof {
                assert(other_run_end(s, e as int) == e as int);
            }
            kind = TokenType::Punctuation;
        }
        proof {
            assert(e as int == token_end(s, j as int)) by {
                reveal(token_end);
                reveal(is_acronym_at);
            }
            assert(kind == token_kind(s, j as int)) by {
                reveal(token_kind);
                reveal(is_acronym_at);
            }
            lemma_run_end_bounds(s, j as int, space_pred());
            lemma_token_end_bounds(s, j as int);
        }
        // line break in the gap before this token
        let mut has_newline = false;
        if tokens.len() > 0 {
            let mut g = prev_end;
            proof {
                reveal(gap_has_newline);
                assert(!gap_has_newline(s, prev_end as int, g as int));
            }
            while g < j
                invariant
                    s == v@,
                    n == s.len(),
                    prev_end <= g <= j <= n,
                    has_newline == gap_has_newline(s, prev_end as int, g as int),
                decreases j - g,
            {
                if v[g] == '\n' || v[g] == '\r' {
                    has_newline = true;
                    proof {
                        reveal(gap_has_newline);
                        assert(gap_has_newline(s, prev_end as int, g + 1));
                    }
                } else {
                    proof {
                        reveal(gap_has_newline);
                        if gap_has_newline(s, prev_end as int, g + 1) {
                            let k = choose|k: int|
                                prev_end <= k < g + 1 && (s[k] == '\n' || s[k] == '\r');
                            assert(k < g ==> gap_has_newline(s, prev_end as int, g as int));
                        }
                    }
                }
                g = g + 1;
            }
        }
        let tok = Token {
            index: tokens.len(),
            token_type: kind,
            char_interval: CharInterval { start_pos: j, end_pos: e },
            first_token_after_newline: has_newline,
        };
        proof {
            lemma_tok_step(s, tokens@, pos as int, prev_end as int, tok);
        }
        tokens.push(tok);
        pos = e;
        prev_end = e;
    }
    tokens
}


// ---------------------------------------------------------------------------
// Locality of the token grammar: tokenizing a slice cut at token boundaries
// finds the same tokens.
// ---------------------------------------------------------------------------

/// Character-for-character correspondence of a slice with its source.
pub open spec fn is_slice_of(s: Seq<char>, off: int, sub: Seq<char>) -> bool {
    &&& 0 <= off
    &&& off + sub.len() <= s.len()
    &&& sub == s.subrange(off, off + sub.len())
}

/// A run in the slice ends where the run in the source does, as long as the
/// source run stays inside the slice.
proof fn lemma_run_end_translate(s: Seq<char>, off: int, sub: Seq<char>, i: int, f: spec_fn(char) -> bool)
    requires
        is_slice_of(s, off, sub),
        0 <= i <= sub.len(),
    ensures
        run_end(s, off + i, f) - off <= sub.len() ==> run_end(sub, i, f) == run_end(s, off + i, f)
            - off,
        run_end(s, off + i, f) - off > sub.len() ==> run_end(sub, i, f) == sub.len(),
{
    let e = run_end(s, off + i, f);
    lemma_run_end_bounds(s, off + i, f);
    if e - off <= sub.len() {
        assert forall|k: int| i <= k < e - off implies f(sub[k]) by {
            assert(sub[k] == s[off + k]);
        }
        if e - off < sub.len() {
            assert(sub[e - off] == s[e]);
        }
        lemma_run_end_exact(sub, i, e - off, f);
    } else {
        assert forall|k: int| i <= k < sub.len() implies f(sub[k]) by {
            assert(sub[k] == s[off + k]);
        }
        lemma_run_end_exact(sub, i, sub.len() as int, f);
    }
}

proof fn lemma_acronym_end_translate(s: Seq<char>, off: int, sub: Seq<char>, i: int)
    requires
        is_slice_of(s, off, sub),
        0 <= i <= sub.len(),
        acronym_end(s, off + i) <= off + sub.len(),
    ensures
        acronym_end(sub, i) == acronym_end(s, off + i) - off,
    decreases sub.len() - i,
{
    lemma_acronym_end_bounds(s, off + i);
    if off + i < s.len() && spec_is_alnum(s[off + i]) {
        lemma_acronym_end_bounds(s, off + i + 1);
        assert(acronym_end(s, off + i) == acronym_end(s, off + i + 1));
        assert(i < sub.len()) by {
            if i == sub.len() {
                assert(acronym_end(s, off + i) >= off + i + 1);
            }
        }
        assert(sub[i] == s[off + i]);
        lemma_acronym_end_translate(s, off, sub, i + 1, );
    } else if off + i + 1 < s.len() && s[off + i] == '/' && spec_is_alnum(s[off + i + 1]) {
        lemma_acronym_end_bounds(s, off + i + 1);
        assert(acronym_end(s, off + i) == acronym_end(s, off + i + 1));
        assert(acronym_end(s, off + i + 1) >= off + i + 1);
        assert(acronym_end(s, off + i + 1) > off + i + 1) by {
            assert(spec_is_alnum(s[off + i + 1]));
            if off + i + 1 < s.len() {
                assert(acronym_end(s, off + i + 1) == acronym_end(s, off + i + 2));
                lemma_acronym_end_bounds(s, off + i + 2);
            }
        }
        assert(i + 1 < sub.len());
        assert(sub[i] == s[off + i]);
        assert(sub[i + 1] == s[off + i + 1]);
        assert(!spec_is_alnum(sub[i]));
        lemma_acronym_end_translate(s, off, sub, i + 1);
    } else {
        assert(acronym_end(s, off + i) == off + i);
        if i < sub.len() {
            assert(sub[i] == s[off + i]);
            assert(!spec_is_alnum(sub[i]));
            if i + 1 < sub.len() {
                assert(sub[i + 1] == s[off + i + 1]);
            }
            assert(acronym_end(sub, i) == i);
        }
    }
}

/// A token cut nowhere: its end in the slice is its end in the source, and
/// its kind is unchanged.
proof fn lemma_token_translate(s: Seq<char>, off: int, sub: Seq<char>, i: int)
    requires
        is_slice_of(s, off, sub),
        0 <= i < sub.len(),
        !spec_is_space(s[off + i]),
        token_end(s, off + i) <= off + sub.len(),
    ensures
        token_end(sub, i) == token_end(s, off + i) - off,
        token_kind(sub, i) == token_kind(s, off + i),
{
    reveal(token_end);
    reveal(token_kind);
    reveal(is_acronym_at);
    assert(sub[i] == s[off + i]);
    lemma_token_end_bounds(s, off + i);
    let c = s[off + i];
    if spec_is_cjk(c) {
        lemma_run_end_translate(s, off, sub, i, cjk_pred());
        lemma_run_end_bounds(s, off + i, cjk_pred());
    } else if spec_is_alnum(c) {
        let r = alnum_run_end(s, off + i);
        lemma_run_end_bounds(s, off + i, alnum_pred());
        lemma_run_end_translate(s, off, sub, i, alnum_pred());
        if is_acronym_at(s, off + i) {
            lemma_acronym_end_bounds(s, off + i);
            assert(acronym_end(s, off + i) >= r + 2) by {
                lemma_acronym_run_lower_bound(s, off + i);
            }
            assert(r - off + 1 < sub.len());
            assert(alnum_run_end(sub, i) == r - off);
            assert(sub[r - off] == s[r]);
            assert(sub[r - off + 1] == s[r + 1]);
            assert(is_acronym_at(sub, i));
            lemma_acronym_end_translate(s, off, sub, i);
        } else {
            assert(!is_acronym_at(sub, i)) by {
                if is_acronym_at(sub, i) {
                    let rs = alnum_run_end(sub, i);
                    lemma_run_end_bounds(sub, i, alnum_pred());
                    assert(rs + 1 < sub.len());
                    assert(r - off <= sub.len() ==> rs == r - off);
                    assert(r - off > sub.len() ==> rs == sub.len());
                    assert(rs == r - off);
                    assert(sub[rs] == s[r]);
                    assert(sub[rs + 1] == s[r + 1]);
                }
            }
            if spec_is_digit(c) {
                lemma_run_end_translate(s, off, sub, i, digit_pred());
                lemma_run_end_bounds(s, off + i, digit_pred());
            } else {
                lemma_run_end_translate(s, off, sub, i, latin_pred());
                lemma_run_end_bounds(s, off + i, latin_pred());
            }
        }
    } else {
        lemma_run_end_translate(s, off, sub, i, other_pred());
        lemma_run_end_bounds(s, off + i, other_pred());
    }
}

/// An acronym reaches at least past its first run's slash.
proof fn lemma_acronym_run_lower_bound(s: Seq<char>, i: int)
    requires
        0 <= i < s.len(),
        is_acronym_at(s, i),
    ensures
        acronym_end(s, i) >= alnum_run_end(s, i) + 2,
    decreases s.len() - i,
{
    reveal(is_acronym_at);
    lemma_run_end_bounds(s, i, alnum_pred());
    if spec_is_alnum(s[i]) && alnum_run_end(s, i) > i + 1 {
        assert(alnum_run_end(s, i) == alnum_run_end(s, i + 1));
        assert(is_acronym_at(s, i + 1)) by {
            assert(spec_is_alnum(s[i + 1]));
        }
        assert(acronym_end(s, i) == acronym_end(s, i + 1));
        lemma_acronym_run_lower_bound(s, i + 1);
    } else {
        // the run is the single character at i; the slash and one
        // alphanumeric character follow
        let r = alnum_run_end(s, i);
        assert(r == i + 1);
        assert(acronym_end(s, i) == acronym_end(s, i + 1));
        assert(s[i + 1] == '/');
        assert(!spec_is_alnum(s[i + 1]));
        assert(acronym_end(s, i + 1) == acronym_end(s, i + 2));
        lemma_acronym_end_bounds(s, i + 2);
        assert(spec_is_alnum(s[i + 2]));
        assert(i + 2 < s.len() ==> acronym_end(s, i + 2) == acronym_end(s, i + 3));
        assert(acronym_end(s, i + 2) >= i + 3) by {
            if i + 2 < s.len() {
                lemma_acronym_end_bounds(s, i + 3);
            } else {
                assert(false);
            }
        }
    }
}

/// The spans from any position are in ascending, non-overlapping order and
/// stay inside the text.
pub proof fn lemma_spans_wf(s: Seq<char>, i: int)
    requires
        0 <= i,
    ensures
        forall|k: int|
            0 <= k < spec_spans(s, i).len() ==> i <= (#[trigger] spec_spans(s, i)[k]).0
                < spec_spans(s, i)[k].1 <= s.len(),
        forall|k: int, l: int|
            0 <= k < l < spec_spans(s, i).len() ==> (#[trigger] spec_spans(s, i)[k]).1 <= (
            #[trigger] spec_spans(s, i)[l]).0,
    decreases s.len() - i,
{
    reveal(spec_spans);
    if i > s.len() {
        assert(spec_spans(s, i).len() == 0);
        return ;
    }
    lemma_run_end_bounds(s, i, space_pred());
    let j = space_run_end(s, i);
    if i <= s.len() && j < s.len() {
        lemma_token_end_bounds(s, j);
        let e = token_end(s, j);
        lemma_spans_wf(s, e);
        let head = (j, e);
        let rest = spec_spans(s, e);
        assert(spec_spans(s, i) == seq![head] + rest);
        assert forall|k: int|
            0 <= k < spec_spans(s, i).len() implies i <= (#[trigger] spec_spans(s, i)[k]).0
            < spec_spans(s, i)[k].1 <= s.len() by {
            if k > 0 {
                assert(spec_spans(s, i)[k] == rest[k - 1]);
            }
        }
        assert forall|k: int, l: int|
            0 <= k < l < spec_spans(s, i).len() implies (#[trigger] spec_spans(s, i)[k]).1 <= (
        #[trigger] spec_spans(s, i)[l]).0 by {
            assert(spec_spans(s, i)[l] == rest[l - 1]);
            if k > 0 {
                assert(spec_spans(s, i)[k] == rest[k - 1]);
            }
        }
    } else {
        assert(spec_spans(s, i).len() == 0);
    }
}

/// The spans from a token's start are the suffix of the spans beginning with
/// that token.
pub proof fn lemma_spans_suffix(s: Seq<char>, i: int, k: int)
    requires
        0 <= i,
        0 <= k < spec_spans(s, i).len(),
    ensures
        spec_spans(s, spec_spans(s, i)[k].0) == spec_spans(s, i).subrange(
            k,
            spec_spans(s, i).len() as int,
        ),
    decreases k,
{
    reveal(spec_spans);
    assert(i <= s.len()) by {
        if i > s.len() {
            assert(spec_spans(s, i).len() == 0);
        }
    }
    lemma_run_end_bounds(s, i, space_pred());
    let j = space_run_end(s, i);
    assert(j < s.len());
    lemma_token_end_bounds(s, j);
    let e = token_end(s, j);
    let rest = spec_spans(s, e);
    assert(spec_spans(s, i) == seq![(j, e)] + rest);
    if k == 0 {
        assert(spec_spans(s, i)[0].0 == j);
        assert(space_run_end(s, j) == j);
        assert(spec_spans(s, j) == spec_spans(s, i));
        assert(spec_spans(s, i).subrange(0, spec_spans(s, i).len() as int) =~= spec_spans(s, i));
    } else {
        assert(spec_spans(s, i)[k] == rest[k - 1]);
        lemma_spans_suffix(s, e, k - 1);
        assert(rest.subrange(k - 1, rest.len() as int) =~= spec_spans(s, i).subrange(
            k,
            spec_spans(s, i).len() as int,
        ));
    }
}

/// Cutting the text at the end of the `m`-th token from a position keeps
/// exactly those `m` tokens.
proof fn lemma_spans_cut(s: Seq<char>, off: int, sub: Seq<char>, p: int, m: int)
    requires
        is_slice_of(s, off, sub),
        0 <= p <= sub.len(),
        0 <= m <= spec_spans(s, off + p).len(),
        m == 0 ==> p == sub.len(),
        m >= 1 ==> spec_spans(s, off + p)[m - 1].1 == off + sub.len(),
        forall|k: int|
            0 <= k < m ==> (#[trigger] spec_spans(s, off + p)[k]).1 <= off + sub.len(),
    ensures
        spec_spans(sub, p).len() == m,
    decreases m,
{
    reveal(spec_spans);
    if m == 0 {
        assert(spec_spans(sub, p).len() == 0) by {
            lemma_run_end_bounds(sub, p, space_pred());
        }
    } else {
        lemma_run_end_bounds(s, off + p, space_pred());
        let j = space_run_end(s, off + p);
        assert(j < s.len());
        lemma_token_end_bounds(s, j);
        let e = token_end(s, j);
        assert(spec_spans(s, off + p)[0] == (j, e));
        assert(e <= off + sub.len());
        assert(j < e);
        lemma_run_end_translate(s, off, sub, p, space_pred());
        assert(space_run_end(sub, p) == j - off);
        assert(sub[j - off] == s[j]);
        assert(!spec_is_space(s[j])) by {
            lemma_run_end_bounds(s, off + p, space_pred());
        }
        lemma_token_translate(s, off, sub, j - off);
        assert(token_end(sub, j - off) == e - off);
        assert(spec_spans(sub, p) == seq![(j - off, e - off)] + spec_spans(sub, e - off));
        let tail = spec_spans(s, e);
        assert(spec_spans(s, off + p) == seq![(j, e)] + tail);
        assert forall|k: int|
            0 <= k < m - 1 implies (#[trigger] spec_spans(s, off + (e - off))[k]).1 <= off
            + sub.len() by {
            assert(spec_spans(s, e)[k] == spec_spans(s, off + p)[k + 1]);
        }
        if m - 1 >= 1 {
            assert(spec_spans(s, e)[m - 2] == spec_spans(s, off + p)[m - 1]);
        }
        if m - 1 == 0 {
            assert(e == off + sub.len());
        }
        lemma_spans_cut(s, off, sub, e - off, m - 1);
    }
}

/// Re-tokenizing the text covered by a token range finds exactly as many
/// tokens as the range holds.
pub proof fn lemma_retokenize_spans(s: Seq<char>, a: int, b: int)
    requires
        0 <= a < b <= spec_spans(s, 0).len(),
    ensures
        spec_spans(
            s.subrange(spec_spans(s, 0)[a].0, spec_spans(s, 0)[b - 1].1),
            0,
        ).len() == b - a,
{
    let spans = spec_spans(s, 0);
    lemma_spans_wf(s, 0);
    let off = spans[a].0;
    let hi = spans[b - 1].1;
    assert(off < hi) by {
        if a < b - 1 {
            assert(spans[a].1 <= spans[b - 1].0);
        }
    }
    let sub = s.subrange(off, hi);
    lemma_spans_suffix(s, 0, a);
    assert(spec_spans(s, off) == spans.subrange(a, spans.len() as int));
    let m = b - a;
    assert(spec_spans(s, off)[m - 1] == spans[b - 1]);
    assert forall|k: int|
        0 <= k < m implies (#[trigger] spec_spans(s, off)[k]).1 <= off + sub.len() by {
        assert(spec_spans(s, off)[k] == spans[a + k]);
        if a + k < b - 1 {
            assert(spans[a + k].1 <= spans[b - 1].0);
            assert(spans[b - 1].0 < spans[b - 1].1);
        }
    }
    lemma_spans_cut(s, off, sub, 0, m);
}

} // verus!


