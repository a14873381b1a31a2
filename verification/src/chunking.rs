//! Chunker: breaks a tokenized document into chunks that honor sentence
//! boundaries and a per-chunk character budget.

use vstd::prelude::*;

use crate::data::{CharInterval, Document, DocumentView};
use crate::text::{char_is_space, spec_is_space, str_to_chars, usize_to_string};
use crate::tokenizer::{
    self, run_end, space_pred, space_run_end, Token, TokenInterval, TokenizedText,
};

verus! {

/// Error raised when a token interval or derived text is unusable.
#[derive(Debug)]
pub struct TokenUtilError(pub String);

impl Clone for TokenUtilError {
    fn clone(&self) -> (r: Self)
        ensures
            r.0@ == self.0@,
    {
        TokenUtilError(self.0.clone())
    }
}

/// Creates a token interval; the start must lie before the end.
pub fn create_token_interval(start_index: usize, end_index: usize) -> (r: Result<
    TokenInterval,
    TokenUtilError,
>)
    ensures
        (start_index < end_index) <==> r is Ok,
        r is Ok ==> r->Ok_0 == (TokenInterval { start_index, end_index }),
{
    if start_index >= end_index {
        let mut msg = String::from_str("Start index ");
        msg.append(usize_to_string(start_index).as_str());
        msg.append(" must be < end index ");
        msg.append(usize_to_string(end_index).as_str());
        msg.append(".");
        return Err(TokenUtilError(msg));
    }
    Ok(TokenInterval { start_index, end_index })
}

/// The characters covered by a token interval: from the first token's start
/// to the last token's end.
pub open spec fn spec_interval_text(text: Seq<char>, tokens: Seq<Token>, iv: TokenInterval)
    -> Seq<char> {
    text.subrange(
        tokens[iv.start_index as int].char_interval.start_pos as int,
        tokens[iv.end_index - 1].char_interval.end_pos as int,
    )
}

/// Returns the text within an interval of tokens.
pub fn tokens_text(tokenized_text: &TokenizedText, token_interval: &TokenInterval) -> (r: Result<
    String,
    TokenUtilError,
>)
    requires
        tokenized_text.wf(),
    ensures
        (token_interval.start_index < token_interval.end_index && token_interval.end_index
            <= tokenized_text.tokens@.len()) <==> r is Ok,
        r is Ok ==> r->Ok_0@ == spec_interval_text(
            tokenized_text.text@,
            tokenized_text.tokens@,
            *token_interval,
        ),
{
    match tokenizer::tokens_text(tokenized_text, token_interval) {
        Ok(s) => Ok(s),
        Err(_) => {
            let mut msg = String::from_str("Invalid token interval. start_index=");
            msg.append(usize_to_string(token_interval.start_index).as_str());
            msg.append(", end_index=");
            msg.append(usize_to_string(token_interval.end_index).as_str());
            msg.append(".");
            Err(TokenUtilError(msg))
        },
    }
}

/// Returns the text within an interval of tokens, rejecting empty intervals.
pub fn get_token_interval_text(
    tokenized_text: &TokenizedText,
    token_interval: &TokenInterval,
) -> (r: Result<String, TokenUtilError>)
    requires
        tokenized_text.wf(),
    ensures
        (token_interval.start_index < token_interval.end_index && token_interval.end_index
            <= tokenized_text.tokens@.len()) <==> r is Ok,
        r is Ok ==> r->Ok_0@ == spec_interval_text(
            tokenized_text.text@,
            tokenized_text.tokens@,
            *token_interval,
        ),
{
    if token_interval.start_index >= token_interval.end_index {
        let mut msg = String::from_str("Start index ");
        msg.append(usize_to_string(token_interval.start_index).as_str());
        msg.append(" must be < end index ");
        msg.append(usize_to_string(token_interval.end_index).as_str());
        msg.append(".");
        return Err(TokenUtilError(msg));
    }
    tokens_text(tokenized_text, token_interval)
}

/// Returns the character interval covered by a token interval; an interval
/// that is empty or reaches past the last token is an error.
pub fn get_char_interval(
    tokenized_text: &TokenizedText,
    token_interval: &TokenInterval,
) -> (r: Result<CharInterval, TokenUtilError>)
    ensures
        (token_interval.start_index < token_interval.end_index && token_interval.end_index
            <= tokenized_text.tokens@.len()) <==> r is Ok,
        r is Ok ==> r->Ok_0 == (CharInterval {
            start_pos: Some(
                tokenized_text.tokens@[token_interval.start_index as int].char_interval.start_pos,
            ),
            end_pos: Some(
                tokenized_text.tokens@[token_interval.end_index - 1].char_interval.end_pos,
            ),
        }),
{
    if token_interval.start_index >= token_interval.end_index {
        let mut msg = String::from_str("Start index ");
        msg.append(usize_to_string(token_interval.start_index).as_str());
        msg.append(" must be < end index ");
        msg.append(usize_to_string(token_interval.end_index).as_str());
        msg.append(".");
        return Err(TokenUtilError(msg));
    }
    if token_interval.end_index > tokenized_text.tokens.len() {
        let mut msg = String::from_str("End index ");
        msg.append(usize_to_string(token_interval.end_index).as_str());
        msg.append(" is past the last token.");
        return Err(TokenUtilError(msg));
    }
    let start_token = &tokenized_text.tokens[token_interval.start_index];
    let final_token = &tokenized_text.tokens[token_interval.end_index - 1];
    Ok(CharInterval {
        start_pos: Some(start_token.char_interval.start_pos),
        end_pos: Some(final_token.char_interval.end_pos),
    })
}

// ---------------------------------------------------------------------------
// Whitespace sanitizing
// ---------------------------------------------------------------------------

pub open spec fn nonspace_pred() -> spec_fn(char) -> bool {
    |c: char| !spec_is_space(c)
}

pub open spec fn word_run_end(s: Seq<char>, i: int) -> int {
    run_end(s, i, nonspace_pred())
}

/// The whitespace-separated words of `s`, from position `i` on.
#[verifier::opaque]
pub open spec fn spec_words(s: Seq<char>, i: int) -> Seq<Seq<char>>
    decreases s.len() - i,
    when 0 <= i
    via spec_words_decreases
{
    let j = space_run_end(s, i);
    if j >= s.len() {
        Seq::empty()
    } else {
        seq![s.subrange(j, word_run_end(s, j))] + spec_words(s, word_run_end(s, j))
    }
}

#[via_fn]
proof fn spec_words_decreases(s: Seq<char>, i: int) {
    if i <= s.len() {
        tokenizer::lemma_run_end_bounds(s, i, space_pred());
        let j = space_run_end(s, i);
        if j < s.len() {
            assert(word_run_end(s, j) == run_end(s, j + 1, nonspace_pred()));
            tokenizer::lemma_run_end_bounds(s, j + 1, nonspace_pred());
        }
    }
}

/// Words joined by single spaces.
pub open spec fn spec_join_words(ws: Seq<Seq<char>>) -> Seq<char>
    decreases ws.len(),
{
    if ws.len() == 0 {
        Seq::empty()
    } else if ws.len() == 1 {
        ws[0]
    } else {
        ws[0] + seq![' '] + spec_join_words(ws.drop_first())
    }
}

/// What sanitizing produces: the words of the text joined by single spaces.
pub open spec fn spec_sanitized(s: Seq<char>) -> Seq<char> {
    spec_join_words(spec_words(s, 0))
}

proof fn lemma_join_push(ws: Seq<Seq<char>>, w: Seq<char>)
    ensures
        ws.len() == 0 ==> spec_join_words(ws.push(w)) == w,
        ws.len() > 0 ==> spec_join_words(ws.push(w)) == spec_join_words(ws) + seq![' '] + w,
    decreases ws.len(),
{
    if ws.len() == 0 {
        assert(ws.push(w).len() == 1);
        assert(spec_join_words(ws.push(w)) == ws.push(w)[0]);
    } else {
        assert(ws.push(w).drop_first() =~= ws.drop_first().push(w));
        lemma_join_push(ws.drop_first(), w);
        if ws.len() == 1 {
            assert(spec_join_words(ws.push(w)) == ws[0] + seq![' '] + w);
            assert(spec_join_words(ws) == ws[0]);
        } else {
            assert(spec_join_words(ws.push(w)) == ws[0] + seq![' '] + spec_join_words(
                ws.drop_first().push(w),
            ));
            assert(spec_join_words(ws.drop_first().push(w)) == spec_join_words(ws.drop_first())
                + seq![' '] + w);
            assert(ws[0] + seq![' '] + (spec_join_words(ws.drop_first()) + seq![' '] + w) =~= (
            ws[0] + seq![' '] + spec_join_words(ws.drop_first())) + seq![' '] + w);
        }
    }
}

proof fn lemma_words_same_skip(s: Seq<char>, i: int, j: int)
    requires
        0 <= i,
        0 <= j,
        space_run_end(s, i) == space_run_end(s, j),
    ensures
        spec_words(s, i) == spec_words(s, j),
{
    reveal(spec_words);
    assert(spec_words(s, i) == spec_words(s, j));
}

/// Collapses every whitespace run in the text to a single space and trims the
/// ends; an empty result is an error.
pub fn sanitize(text: &str) -> (r: Result<String, TokenUtilError>)
    ensures
        (spec_sanitized(text@).len() > 0) <==> r is Ok,
        r is Ok ==> r->Ok_0@ == spec_sanitized(text@),
{
    let chars = str_to_chars(text);
    let ghost s = text@;
    let n = chars.len();
    let mut out = String::new();
    let ghost mut words: Seq<Seq<char>> = Seq::empty();
    let mut pos: usize = 0;
    let mut first = true;
    proof {
        reveal_strlit(" ");
        assert(words + spec_words(s, 0) =~= spec_words(s, 0));
    }
    loop
        invariant
            chars@ == s,
            s == text@,
            n == s.len(),
            pos <= n,
            out@ == spec_join_words(words),
            first <==> words.len() == 0,
            words + spec_words(s, pos as int) == spec_words(s, 0),
            " "@ == seq![' '],
        ensures
            out@ == spec_sanitized(text@),
        decreases n - pos,
    {
        let ghost p0 = pos as int;
        while pos < n && char_is_space(chars[pos])
            invariant
                chars@ == s,
                n == s.len(),
                p0 <= pos <= n,
                space_run_end(s, p0) == space_run_end(s, pos as int),
            decreases n - pos,
        {
            pos = pos + 1;
        }
        proof {
            assert(space_run_end(s, pos as int) == pos as int);
            lemma_words_same_skip(s, p0, pos as int);
        }
        if pos >= n {
            proof {
                reveal(spec_words);
                assert(spec_words(s, pos as int) == Seq::<Seq<char>>::empty());
                assert(words =~= words + spec_words(s, pos as int));
            }
            break;
        }
        let j = pos;
        let mut e = j;
        while e < n && !char_is_space(chars[e])
            invariant
                chars@ == s,
                n == s.len(),
                j <= e <= n,
                word_run_end(s, j as int) == word_run_end(s, e as int),
            decreases n - e,
        {
            e = e + 1;
        }
        proof {
            assert(word_run_end(s, e as int) == e as int);
            assert(e > j) by {
                tokenizer::lemma_run_end_bounds(s, j as int, nonspace_pred());
            }
        }
        if !first {
            out.append(" ");
        }
        out.append(text.substring_char(j, e));
        proof {
            let w = s.subrange(j as int, e as int);
            lemma_join_push(words, w);
            reveal(spec_words);
            assert(spec_words(s, pos as int) == seq![w] + spec_words(s, e as int));
            assert(words.push(w) + spec_words(s, e as int) =~= words + spec_words(s, pos as int));
            words = words.push(w);
        }
        first = false;
        pos = e;
    }
    if out.as_str().is_empty() {
        return Err(TokenUtilError(String::from_str("Sanitized text is empty.")));
    }
    Ok(out)
}

// ---------------------------------------------------------------------------
// Text chunks
// ---------------------------------------------------------------------------

/// A chunk of a document: a token interval, a handle to the source document,
/// and lazily computed text, sanitized text and char interval.
#[derive(Debug)]
pub struct TextChunk {
    pub token_interval: TokenInterval,
    pub document: Option<Document>,
    pub chunk_text: Option<String>,
    pub sanitized_chunk_text: Option<String>,
    pub char_interval: Option<CharInterval>,
}

/// The mathematical model of a text chunk.
pub struct TextChunkView {
    pub token_interval: TokenInterval,
    pub document: Option<DocumentView>,
    pub chunk_text: Option<Seq<char>>,
    pub sanitized_chunk_text: Option<Seq<char>>,
    pub char_interval: Option<CharInterval>,
}

impl View for TextChunk {
    type V = TextChunkView;

    open spec fn view(&self) -> TextChunkView {
        TextChunkView {
            token_interval: self.token_interval,
            document: match self.document {
                Some(d) => Some(d@),
                None => None,
            },
            chunk_text: match self.chunk_text {
                Some(ct) => Some(ct@),
                None => None,
            },
            sanitized_chunk_text: match self.sanitized_chunk_text {
                Some(st) => Some(st@),
                None => None,
            },
            char_interval: self.char_interval,
        }
    }
}

impl TextChunk {
    /// The document, its cached tokenization and the token interval agree.
    pub open spec fn doc_wf(&self) -> bool {
        match self.document {
            Some(d) => {
                &&& d.tokenized_text is Some
                &&& d.tokenized_text->0.text@ == d.text@
                &&& tokenizer::tokenized_wf(d.text@, d.tokenized_text->0.tokens@)
                &&& self.token_interval.start_index < self.token_interval.end_index
                &&& self.token_interval.end_index <= d.tokenized_text->0.tokens@.len()
            },
            None => true,
        }
    }

    /// The text this chunk covers in its document.
    pub open spec fn spec_text(&self) -> Seq<char> {
        spec_interval_text(
            self.document->0.text@,
            self.document->0.tokenized_text->0.tokens@,
            self.token_interval,
        )
    }

    /// The character interval this chunk covers in its document.
    pub open spec fn spec_char_interval(&self) -> CharInterval {
        CharInterval {
            start_pos: Some(
                self.document->0.tokenized_text->0.tokens@[self.token_interval.start_index as int].char_interval.start_pos,
            ),
            end_pos: Some(
                self.document->0.tokenized_text->0.tokens@[self.token_interval.end_index - 1].char_interval.end_pos,
            ),
        }
    }

    /// Every filled cache holds the value it is meant to cache.
    pub open spec fn caches_ok(&self) -> bool {
        &&& match self.chunk_text {
            Some(ct) => self.document is Some && ct@ == self.spec_text(),
            None => true,
        }
        &&& match self.sanitized_chunk_text {
            Some(st) => self.document is Some && st@ == spec_sanitized(self.spec_text())
                && st@.len() > 0,
            None => true,
        }
        &&& match self.char_interval {
            Some(ci) => self.document is Some && ci == self.spec_char_interval(),
            None => true,
        }
    }

    pub open spec fn wf(&self) -> bool {
        self.doc_wf() && self.caches_ok()
    }

    pub fn new(token_interval: TokenInterval, document: Option<Document>) -> (r: Self)
        ensures
            r.token_interval == token_interval,
            r.document == document,
            r.chunk_text is None,
            r.sanitized_chunk_text is None,
            r.char_interval is None,
    {
        TextChunk {
            token_interval,
            document,
            chunk_text: None,
            sanitized_chunk_text: None,
            char_interval: None,
        }
    }

    /// The id of the owning document, when there is one; a document without
    /// an id is reported under a fresh one.
    pub fn document_id(&self) -> (r: Option<String>)
        ensures
            r is Some <==> self.document is Some,
            (self.document is Some && self.document->0.document_id is Some) ==> r->0@
                == self.document->0.document_id->0@,
    {
        match &self.document {
            None => None,
            Some(d) => match &d.document_id {
                Some(id) => Some(id.clone()),
                None => Some(crate::data::new_document_id()),
            },
        }
    }

    /// The tokenization of the owning document.
    pub fn document_text(&self) -> (r: Option<TokenizedText>)
        requires
            self.wf(),
        ensures
            r is Some <==> self.document is Some,
            self.document is Some ==> r->0@ == self.document->0.tokenized_text->0@,
    {
        match &self.document {
            None => None,
            Some(d) => match &d.tokenized_text {
                Some(tt) => Some(tt.clone()),
                None => unreached(),
            },
        }
    }

    /// The text the chunk covers; an error when no document is attached.
    pub fn chunk_text(&mut self) -> (r: Result<String, TokenUtilError>)
        requires
            old(self).wf(),
        ensures
            final(self).wf(),
            final(self).token_interval == old(self).token_interval,
            final(self).document == old(self).document,
            r is Ok <==> old(self).document is Some,
            r is Ok ==> r->Ok_0@ == old(self).spec_text() && final(self).chunk_text == Some(
                r->Ok_0,
            ),
            old(self).document is None ==> *final(self) == *old(self),
    {
        if self.document.is_none() {
            return Err(
                TokenUtilError(
                    String::from_str("document_text must be set to access chunk_text."),
                ),
            );
        }
        match &self.chunk_text {
            Some(ct) => Ok(ct.clone()),
            None => {
                let tt = match self.document_text() {
                    Some(tt) => tt,
                    None => unreached(),
                };
                match get_token_interval_text(&tt, &self.token_interval) {
                    Ok(txt) => {
                        self.chunk_text = Some(txt.clone());
                        Ok(txt)
                    },
                    Err(_) => unreached(),
                }
            },
        }
    }

    /// The chunk text with whitespace collapsed to single spaces; an error
    /// when there is no document or the sanitized text is empty.
    pub fn sanitized_chunk_text(&mut self) -> (r: Result<String, TokenUtilError>)
        requires
            old(self).wf(),
        ensures
            final(self).wf(),
            final(self).token_interval == old(self).token_interval,
            final(self).document == old(self).document,
            old(self).document is Some ==> (r is Ok <==> spec_sanitized(
                old(self).spec_text(),
            ).len() > 0),
            r is Ok ==> r->Ok_0@ == spec_sanitized(old(self).spec_text()),
            old(self).document is None ==> r is Err,
    {
        match &self.sanitized_chunk_text {
            Some(st) => Ok(st.clone()),
            None => {
                let txt = match self.chunk_text() {
                    Ok(txt) => txt,
                    Err(e) => {
                        return Err(e);
                    },
                };
                match sanitize(txt.as_str()) {
                    Ok(st) => {
                        self.sanitized_chunk_text = Some(st.clone());
                        Ok(st)
                    },
                    Err(e) => Err(e),
                }
            },
        }
    }

    /// The additional context of the owning document, when set.
    pub fn additional_context(&self) -> (r: Option<String>)
        ensures
            r is Some <==> (self.document is Some && self.document->0.additional_context
                is Some),
            r is Some ==> r->0@ == self.document->0.additional_context->0@,
    {
        match &self.document {
            None => None,
            Some(d) => match &d.additional_context {
                Some(c) => Some(c.clone()),
                None => None,
            },
        }
    }

    /// The character interval of the chunk in the document; an error when no
    /// document is attached.
    pub fn char_interval(&mut self) -> (r: Result<CharInterval, TokenUtilError>)
        requires
            old(self).wf(),
        ensures
            final(self).wf(),
            final(self).token_interval == old(self).token_interval,
            final(self).document == old(self).document,
            r is Ok <==> old(self).document is Some,
            r is Ok ==> r->Ok_0 == old(self).spec_char_interval(),
            old(self).document is None ==> *final(self) == *old(self),
    {
        if self.document.is_none() {
            return Err(
                TokenUtilError(
                    String::from_str("document_text must be set to compute char_interval."),
                ),
            );
        }
        match &self.char_interval {
            Some(ci) => Ok(*ci),
            None => {
                let tt = match self.document_text() {
                    Some(tt) => tt,
                    None => unreached(),
                };
                match get_char_interval(&tt, &self.token_interval) {
                    Ok(ci) => {
                        self.char_interval = Some(ci);
                        Ok(ci)
                    },
                    Err(_) => unreached(),
                }
            },
        }
    }
}

// ---------------------------------------------------------------------------
// Batching
// ---------------------------------------------------------------------------

/// The views of a sequence of chunks.
pub open spec fn chunk_views(s: Seq<TextChunk>) -> Seq<TextChunkView> {
    s.map_values(|c: TextChunk| c@)
}

/// The views of a sequence of batches.
pub open spec fn batch_views(r: Seq<Vec<TextChunk>>) -> Seq<Seq<TextChunkView>> {
    r.map_values(|v: Vec<TextChunk>| chunk_views(v@))
}

pub proof fn lemma_flatten_push<A>(s: Seq<Seq<A>>, x: Seq<A>)
    ensures
        (s.push(x)).flatten() == s.flatten() + x,
    decreases s.len(),
{
    if s.len() == 0 {
        assert(s =~= Seq::<Seq<A>>::empty());
        assert(s.push(x).len() == 1);
        assert(s.push(x)[0] == x);
        assert(s.push(x).drop_first() =~= Seq::<Seq<A>>::empty());
        assert(s.push(x).flatten() == x + Seq::<Seq<A>>::empty().flatten());
        assert(x + Seq::<Seq<A>>::empty().flatten() =~= x);
        assert(s.flatten() + x =~= x);
    } else {
        assert(s.push(x).drop_first() =~= s.drop_first().push(x));
        lemma_flatten_push(s.drop_first(), x);
        assert(s.push(x).flatten() == s[0] + (s.drop_first().flatten() + x));
        assert(s[0] + (s.drop_first().flatten() + x) =~= (s[0] + s.drop_first().flatten()) + x);
    }
}

/// Flattening a sequence of singletons gives their heads, in order.
pub proof fn lemma_flatten_singletons<A>(s: Seq<Seq<A>>)
    requires
        forall|i: int| 0 <= i < s.len() ==> (#[trigger] s[i]).len() == 1,
    ensures
        s.flatten().len() == s.len(),
        forall|i: int| 0 <= i < s.len() ==> s.flatten()[i] == (#[trigger] s[i])[0],
    decreases s.len(),
{
    if s.len() > 0 {
        assert forall|i: int| 0 <= i < s.drop_last().len() implies (#[trigger] s.drop_last()[
            i
        ]).len() == 1 by {
            assert(s.drop_last()[i] == s[i]);
        }
        lemma_flatten_singletons(s.drop_last());
        lemma_flatten_push(s.drop_last(), s.last());
        assert(s.drop_last().push(s.last()) =~= s);
        assert forall|i: int| 0 <= i < s.len() implies s.flatten()[i] == (#[trigger] s[i])[0] by {
            if i < s.len() - 1 {
                assert(s.drop_last()[i] == s[i]);
            }
        }
    }
}

/// Groups chunks into batches of `batch_length`, the last batch possibly
/// shorter; order is preserved.
pub fn make_batches_of_textchunk(chunks: Vec<TextChunk>, batch_length: usize) -> (r: Vec<
    Vec<TextChunk>,
>)
    requires
        batch_length >= 1,
    ensures
        batch_views(r@).flatten() == chunk_views(chunks@),
        forall|b: int| 0 <= b < r@.len() ==> 0 < (#[trigger] r@[b])@.len() <= batch_length,
        forall|b: int| 0 <= b < r@.len() - 1 ==> (#[trigger] r@[b])@.len() == batch_length,
{
    let ghost all = chunks@;
    let mut rest = chunks;
    let mut r: Vec<Vec<TextChunk>> = Vec::new();
    proof {
        assert(batch_views(r@) =~= Seq::<Seq<TextChunkView>>::empty());
        assert(batch_views(r@).flatten() + chunk_views(rest@) =~= chunk_views(rest@));
        assert(chunk_views(all).subrange(0, 0) =~= Seq::<TextChunkView>::empty());
        assert(batch_views(r@).flatten() =~= Seq::<TextChunkView>::empty());
    }
    while rest.len() > 0
        invariant
            batch_length >= 1,
            batch_views(r@).flatten() + chunk_views(rest@) =~= chunk_views(all),
            forall|b: int| 0 <= b < r@.len() ==> 0 < (#[trigger] r@[b])@.len() <= batch_length,
            forall|b: int|
                0 <= b < r@.len() - 1 ==> (#[trigger] r@[b])@.len() == batch_length,
            r@.len() > 0 && r@[r@.len() - 1]@.len() < batch_length ==> rest@.len() == 0,
        decreases rest@.len(),
    {
        let mut batch: Vec<TextChunk> = Vec::new();
        let mut k: usize = 0;
        let ghost rest0 = rest@;
        while k < batch_length && rest.len() > 0
            invariant
                k <= batch_length,
                batch@.len() == k,
                chunk_views(batch@) + chunk_views(rest@) =~= chunk_views(rest0),
                k == rest0.len() - rest@.len(),
            decreases batch_length - k,
        {
            let c = rest.remove(0);
            let ghost prev_batch = batch@;
            let ghost prev_rest = rest@;
            batch.push(c);
            proof {
                assert(chunk_views(batch@) =~= chunk_views(prev_batch).push(c@));
                assert(chunk_views(prev_rest.insert(0, c)) =~= seq![c@] + chunk_views(prev_rest));
                assert(chunk_views(prev_batch).push(c@) + chunk_views(prev_rest) =~= chunk_views(
                    prev_batch,
                ) + (seq![c@] + chunk_views(prev_rest)));
            }
            k = k + 1;
        }
        let ghost prev_r = r@;
        let ghost batch_snap = batch@;
        proof {
            assert(chunk_views(batch_snap).len() == batch_snap.len());
        }
        r.push(batch);
        proof {
            assert(batch_views(r@) =~= batch_views(prev_r).push(chunk_views(batch_snap)));
            lemma_flatten_push(batch_views(prev_r), chunk_views(batch_snap));
            assert(batch_views(r@).flatten() + chunk_views(rest@) =~= batch_views(
                prev_r,
            ).flatten() + (chunk_views(batch_snap) + chunk_views(rest@)));
            assert(chunk_views(batch_snap) + chunk_views(rest@) =~= chunk_views(rest0));
        }
    }
    proof {
        assert(chunk_views(rest@) =~= Seq::<TextChunkView>::empty());
        assert(batch_views(r@).flatten() =~= batch_views(r@).flatten() + chunk_views(rest@));
    }
    r
}

// ---------------------------------------------------------------------------
// Sentence and chunk iteration
// ---------------------------------------------------------------------------

/// Walks the sentences of a tokenized text, one token interval at a time.
pub struct SentenceIterator<'a> {
    pub tokenized_text: &'a TokenizedText,
    pub token_len: usize,
    pub curr_token_pos: usize,
}

impl<'a> SentenceIterator<'a> {
    pub open spec fn wf(&self) -> bool {
        &&& self.tokenized_text.wf()
        &&& self.token_len == self.tokenized_text.tokens@.len()
        &&& self.curr_token_pos <= self.token_len
    }

    pub fn new(tokenized_text: &'a TokenizedText, curr_token_pos: usize) -> (r: Result<
        Self,
        TokenUtilError,
    >)
        requires
            tokenized_text.wf(),
        ensures
            (curr_token_pos <= tokenized_text.tokens@.len()) <==> r is Ok,
            r is Ok ==> r->Ok_0.wf() && r->Ok_0.curr_token_pos == curr_token_pos
                && r->Ok_0.tokenized_text == tokenized_text,
    {
        let token_len = tokenized_text.tokens.len();
        if curr_token_pos > token_len {
            let mut msg = String::from_str("Current token position ");
            msg.append(usize_to_string(curr_token_pos).as_str());
            msg.append(" is past the length of the document ");
            msg.append(usize_to_string(token_len).as_str());
            msg.append(".");
            return Err(TokenUtilError(msg));
        }
        Ok(SentenceIterator { tokenized_text, token_len, curr_token_pos })
    }

    /// The next sentence range, or `None` past the last token.
    pub fn next_interval(&mut self) -> (r: Option<TokenInterval>)
        requires
            old(self).wf(),
        ensures
            final(self).wf(),
            final(self).tokenized_text == old(self).tokenized_text,
            (old(self).curr_token_pos == old(self).token_len) <==> r is None,
            r is Some ==> {
                let iv = r->0;
                &&& iv.start_index == old(self).curr_token_pos
                &&& old(self).curr_token_pos < iv.end_index <= old(self).token_len
                &&& final(self).curr_token_pos == iv.end_index
                &&& forall|m: int|
                    iv.start_index <= m < iv.end_index - 1
                        ==> !tokenizer::spec_sentence_boundary(
                        old(self).tokenized_text.text@,
                        old(self).tokenized_text.tokens@,
                        m,
                    )
                &&& (tokenizer::spec_sentence_boundary(
                    old(self).tokenized_text.text@,
                    old(self).tokenized_text.tokens@,
                    iv.end_index - 1,
                ) || iv.end_index == old(self).token_len)
            },
    {
        if self.curr_token_pos == self.token_len {
            return None;
        }
        match tokenizer::find_sentence_range(
            self.tokenized_text.text.as_str(),
            self.tokenized_text.tokens.as_slice(),
            self.curr_token_pos,
        ) {
            Ok(iv) => {
                self.curr_token_pos = iv.end_index;
                Some(iv)
            },
            Err(_) => unreached(),
        }
    }
}

/// Whether the characters covered by a token interval exceed a budget.
pub open spec fn spec_exceeds(tokens: Seq<Token>, iv: TokenInterval, max: int) -> bool {
    tokens[iv.end_index - 1].char_interval.end_pos - tokens[iv.start_index as int].char_interval.start_pos
        > max
}

/// Walks a tokenized text producing chunks that honor sentence boundaries and
/// the character budget.
pub struct ChunkIterator<'a> {
    pub tokenized_text: &'a TokenizedText,
    pub max_char_buffer: usize,
    pub document: Document,
    pub next_pos: usize,
    pub broken_sentence: bool,
}

impl<'a> ChunkIterator<'a> {
    pub open spec fn wf(&self) -> bool {
        &&& self.tokenized_text.wf()
        &&& self.next_pos <= self.tokenized_text.tokens@.len()
        &&& self.document.tokenized_text is Some
        &&& self.document.tokenized_text->0.text@ == self.document.text@
        &&& self.document.text@ == self.tokenized_text.text@
        &&& self.document.tokenized_text->0.tokens@ == self.tokenized_text.tokens@
    }

    pub fn new(text: &'a TokenizedText, max_char_buffer: usize, document: Option<Document>) -> (r:
        Self)
        requires
            text.wf(),
            document is Some ==> document->0.text@ == text.text@,
        ensures
            r.wf(),
            r.tokenized_text == text,
            r.max_char_buffer == max_char_buffer,
            r.next_pos == 0,
            r.broken_sentence == false,
            document is Some ==> r.document.document_id == document->0.document_id
                && r.document.additional_context == document->0.additional_context,
            document is None ==> r.document.document_id is None
                && r.document.additional_context is None,
    {
        let mut doc = match document {
            Some(d) => d,
            None => Document::new(text.text.clone(), None, None),
        };
        doc.set_tokenized_text(text.clone());
        ChunkIterator {
            tokenized_text: text,
            max_char_buffer,
            document: doc,
            next_pos: 0,
            broken_sentence: false,
        }
    }

    /// Whether the interval's characters exceed the budget; an invalid
    /// interval does not.
    pub fn tokens_exceed_buffer(&self, token_interval: &TokenInterval) -> (r: bool)
        requires
            token_interval.end_index <= self.tokenized_text.tokens@.len(),
        ensures
            token_interval.start_index < token_interval.end_index ==> r == spec_exceeds(
                self.tokenized_text.tokens@,
                *token_interval,
                self.max_char_buffer as int,
            ),
            token_interval.start_index >= token_interval.end_index ==> r == false,
    {
        match get_char_interval(self.tokenized_text, token_interval) {
            Ok(char_interval) => {
                let start = match char_interval.start_pos {
                    Some(s) => s,
                    None => 0,
                };
                let end = match char_interval.end_pos {
                    Some(e) => e,
                    None => 0,
                };
                if end >= start {
                    (end - start) > self.max_char_buffer
                } else {
                    false
                }
            },
            Err(_) => false,
        }
    }

    /// The next chunk: it starts at the current sentence start, stays within
    /// the character budget unless it is a single over-budget token, and
    /// advances the iterator to its end.
    pub fn next_chunk(&mut self) -> (r: Option<TextChunk>)
        requires
            old(self).wf(),
        ensures
            final(self).wf(),
            final(self).tokenized_text == old(self).tokenized_text,
            final(self).max_char_buffer == old(self).max_char_buffer,
            final(self).document@ == old(self).document@,
            (old(self).next_pos == old(self).tokenized_text.tokens@.len()) <==> r is None,
            r is None ==> final(self).next_pos == old(self).next_pos,
            r is Some ==> {
                let iv = r->0.token_interval;
                let tokens = old(self).tokenized_text.tokens@;
                &&& iv.start_index == old(self).next_pos
                &&& old(self).next_pos < iv.end_index <= tokens.len()
                &&& final(self).next_pos == iv.end_index
                &&& r->0.wf()
                &&& r->0.document is Some
                &&& r->0.document->0@ == old(self).document@
                &&& r->0.chunk_text is None
                &&& r->0.sanitized_chunk_text is None
                &&& r->0.char_interval is None
                &&& (iv.end_index == iv.start_index + 1 || !spec_exceeds(
                    tokens,
                    iv,
                    old(self).max_char_buffer as int,
                ))
                &&& (spec_exceeds(
                    tokens,
                    TokenInterval {
                        start_index: iv.start_index,
                        end_index: (iv.start_index + 1) as usize,
                    },
                    old(self).max_char_buffer as int,
                ) ==> iv.end_index == iv.start_index + 1)
                &&& {
                    let text = old(self).tokenized_text.text@;
                    let se = tokenizer::spec_sentence_end(text, tokens, iv.start_index as int);
                    let max = old(self).max_char_buffer as int;
                    let single = TokenInterval {
                        start_index: iv.start_index,
                        end_index: (iv.start_index + 1) as usize,
                    };
                    &&& (old(self).broken_sentence ==> iv.end_index <= se)
                    &&& ((!spec_exceeds(tokens, single, max) && iv.end_index < se) ==> (
                    spec_exceeds(
                        tokens,
                        TokenInterval {
                            start_index: iv.start_index,
                            end_index: (iv.end_index + 1) as usize,
                        },
                        max,
                    ) || tokens[iv.end_index as int].first_token_after_newline))
                    &&& ((!old(self).broken_sentence && !spec_exceeds(tokens, single, max)
                        && !spec_exceeds(
                        tokens,
                        TokenInterval { start_index: iv.start_index, end_index: se as usize },
                        max,
                    )) ==> iv.end_index >= se)
                    &&& ((!old(self).broken_sentence && !spec_exceeds(tokens, single, max)
                        && iv.end_index >= se && iv.end_index < tokens.len()) ==> spec_exceeds(
                        tokens,
                        TokenInterval {
                            start_index: iv.start_index,
                            end_index: tokenizer::spec_sentence_end(
                                text,
                                tokens,
                                iv.end_index as int,
                            ) as usize,
                        },
                        max,
                    ))
                }
            },
    {
        let ghost tokens = self.tokenized_text.tokens@;
        let len = self.tokenized_text.tokens.len();
        if self.next_pos >= len {
            return None;
        }
        let sentence = match tokenizer::find_sentence_range(
            self.tokenized_text.text.as_str(),
            self.tokenized_text.tokens.as_slice(),
            self.next_pos,
        ) {
            Ok(iv) => iv,
            Err(_) => unreached(),
        };
        let start = sentence.start_index;
        let ghost text = self.tokenized_text.text@;
        let ghost se = sentence.end_index as int;
        proof {
            assert(se == tokenizer::spec_sentence_end(text, tokens, start as int));
        }
        let single = TokenInterval { start_index: start, end_index: start + 1 };
        if self.tokens_exceed_buffer(&single) {
            self.next_pos = start + 1;
            self.broken_sentence = start + 1 < sentence.end_index;
            return Some(TextChunk::new(single, Some(self.document.clone())));
        }
        // grow the chunk token by token within the sentence
        let mut curr_end = start + 1;
        let mut newline_cut: usize = 0;
        let mut ti = start + 1;
        while ti < sentence.end_index
            invariant
                *self == *old(self),
                self.wf(),
                tokens == self.tokenized_text.tokens@,
                text == self.tokenized_text.text@,
                start == old(self).next_pos,
                start < tokens.len(),
                se == sentence.end_index as int,
                se == tokenizer::spec_sentence_end(text, tokens, start as int),
                !spec_exceeds(
                    tokens,
                    TokenInterval { start_index: start, end_index: (start + 1) as usize },
                    self.max_char_buffer as int,
                ),
                start < curr_end <= ti <= sentence.end_index,
                sentence.end_index <= tokens.len(),
                curr_end == ti,
                !spec_exceeds(
                    tokens,
                    TokenInterval { start_index: start, end_index: curr_end },
                    self.max_char_buffer as int,
                ),
                newline_cut == 0 || (start < newline_cut <= ti
                    && tokens[newline_cut as int].first_token_after_newline),
            decreases sentence.end_index - ti,
        {
            if self.tokenized_text.tokens[ti].first_token_after_newline {
                newline_cut = ti;
            }
            let test_chunk = TokenInterval { start_index: start, end_index: ti + 1 };
            if self.tokens_exceed_buffer(&test_chunk) {
                let cut_end = if newline_cut > 0 {
                    newline_cut
                } else {
                    ti
                };
                let cut = TokenInterval { start_index: start, end_index: cut_end };
                proof {
                    assert(tokens[cut_end - 1].char_interval.end_pos <= tokens[curr_end
                        - 1].char_interval.end_pos) by {
                        if cut_end < curr_end {
                            assert(tokens[cut_end - 1].char_interval.end_pos <= tokens[curr_end
                                - 1].char_interval.start_pos);
                            assert(tokens[curr_end - 1].char_interval.start_pos <= tokens[curr_end
                                - 1].char_interval.end_pos);
                        }
                    }
                    // the cut stays within the budget and below the sentence
                    // end, and cutting tighter was forced: the next token
                    // would exceed the budget, or the cut token opens a line
                    assert(cut_end < se);
                    if newline_cut == 0 {
                        assert(spec_exceeds(
                            tokens,
                            TokenInterval { start_index: start, end_index: (cut_end + 1) as usize },
                            self.max_char_buffer as int,
                        ));
                    }
                    // the whole sentence would exceed the budget as well
                    assert(tokens[ti as int].char_interval.end_pos <= tokens[
                        se - 1].char_interval.end_pos) by {
                        if (ti as int) < se - 1 {
                            assert(tokens[ti as int].char_interval.end_pos <= tokens[
                                se - 1].char_interval.start_pos);
                        }
                    }
                    assert(spec_exceeds(
                        tokens,
                        TokenInterval { start_index: start, end_index: se as usize },
                        self.max_char_buffer as int,
                    ));
                }
                self.next_pos = cut_end;
                self.broken_sentence = true;
                return Some(TextChunk::new(cut, Some(self.document.clone())));
            }
            curr_end = ti + 1;
            ti = ti + 1;
        }
        let mut chunk_iv = TokenInterval { start_index: start, end_index: curr_end };
        proof {
            assert(chunk_iv.end_index == se);
        }
        if self.broken_sentence {
            self.broken_sentence = false;
        } else {
            // greedily fold in whole following sentences
            while chunk_iv.end_index < len
                invariant
                    *self == *old(self),
                    self.wf(),
                    tokens == self.tokenized_text.tokens@,
                    text == self.tokenized_text.text@,
                    len == tokens.len(),
                    start == old(self).next_pos,
                    start < tokens.len(),
                    !spec_exceeds(
                        tokens,
                        TokenInterval { start_index: start, end_index: (start + 1) as usize },
                        self.max_char_buffer as int,
                    ),
                    chunk_iv.start_index == start,
                    se <= chunk_iv.end_index,
                    start < chunk_iv.end_index <= len,
                    !spec_exceeds(tokens, chunk_iv, self.max_char_buffer as int),
                ensures
                    *self == *old(self),
                    chunk_iv.start_index == start,
                    se <= chunk_iv.end_index,
                    start < chunk_iv.end_index <= len,
                    !spec_exceeds(tokens, chunk_iv, self.max_char_buffer as int),
                    chunk_iv.end_index < len ==> spec_exceeds(
                        tokens,
                        TokenInterval {
                            start_index: start,
                            end_index: tokenizer::spec_sentence_end(
                                text,
                                tokens,
                                chunk_iv.end_index as int,
                            ) as usize,
                        },
                        self.max_char_buffer as int,
                    ),
                decreases len - chunk_iv.end_index,
            {
                let next_sentence = match tokenizer::find_sentence_range(
                    self.tokenized_text.text.as_str(),
                    self.tokenized_text.tokens.as_slice(),
                    chunk_iv.end_index,
                ) {
                    Ok(iv) => iv,
                    Err(_) => unreached(),
                };
                let test_chunk = TokenInterval {
                    start_index: start,
                    end_index: next_sentence.end_index,
                };
                if self.tokens_exceed_buffer(&test_chunk) {
                    proof {
                        assert(next_sentence.end_index as int == tokenizer::spec_sentence_end(
                            text,
                            tokens,
                            chunk_iv.end_index as int,
                        ));
                    }
                    break;
                }
                chunk_iv = test_chunk;
            }
        }
        self.next_pos = chunk_iv.end_index;
        Some(TextChunk::new(chunk_iv, Some(self.document.clone())))
    }
}

/// Re-tokenizing the text covered by a chunk's token interval yields exactly
/// as many tokens as the interval holds: `tokenize` on the substring
/// `text[char_start, char_end)` finds `end_index - start_index` tokens.
pub proof fn lemma_chunk_token_count(text: Seq<char>, tokens: Seq<Token>, iv: TokenInterval)
    requires
        tokenizer::tokens_follow_spans(text, tokens),
        iv.start_index < iv.end_index,
        iv.end_index <= tokens.len(),
    ensures
        tokenizer::spec_spans(spec_interval_text(text, tokens, iv), 0).len() == iv.end_index
            - iv.start_index,
{
    let spans = tokenizer::spec_spans(text, 0);
    let a = iv.start_index as int;
    let b = iv.end_index as int;
    assert(spans == tokens.map_values(tokenizer::span_fn()));
    assert(spans[a] == tokenizer::span_fn()(tokens[a]));
    assert(spans[b - 1] == tokenizer::span_fn()(tokens[b - 1]));
    tokenizer::lemma_retokenize_spans(text, a, b);
    assert(spec_interval_text(text, tokens, iv) == text.subrange(spans[a].0, spans[b - 1].1));
}

} // verus!

