//! Shared data model: documents, extractions, intervals, alignment status and
//! attribute values.

use vstd::prelude::*;

use crate::tokenizer::{
    tokenize, tokens_follow_spans, TokenInterval, TokenizedText, TokenizedTextView,
};

verus! {

/// How an extraction's text was located in the source.
#[derive(Debug, Clone, Copy, PartialEq, Eq, Structural)]
pub enum AlignmentStatus {
    MatchExact,
    MatchGreater,
    MatchLesser,
    MatchFuzzy,
}

impl AlignmentStatus {
    /// The wire name of the status.
    pub fn to_status_string(&self) -> (r: String)
        ensures
            self is MatchExact ==> r@ == "match_exact"@,
            self is MatchGreater ==> r@ == "match_greater"@,
            self is MatchLesser ==> r@ == "match_lesser"@,
            self is MatchFuzzy ==> r@ == "match_fuzzy"@,
    {
        match self {
            AlignmentStatus::MatchExact => String::from_str("match_exact"),
            AlignmentStatus::MatchGreater => String::from_str("match_greater"),
            AlignmentStatus::MatchLesser => String::from_str("match_lesser"),
            AlignmentStatus::MatchFuzzy => String::from_str("match_fuzzy"),
        }
    }

    /// Parses a wire name back into a status; unknown names give `None`.
    pub fn from_status_string(s: &str) -> (r: Option<AlignmentStatus>)
        ensures
            s@ == "match_exact"@ ==> r == Some(AlignmentStatus::MatchExact),
            s@ == "match_greater"@ ==> r == Some(AlignmentStatus::MatchGreater),
            s@ == "match_lesser"@ ==> r == Some(AlignmentStatus::MatchLesser),
            s@ == "match_fuzzy"@ ==> r == Some(AlignmentStatus::MatchFuzzy),
            !(s@ == "match_exact"@ || s@ == "match_greater"@ || s@ == "match_lesser"@ || s@
                == "match_fuzzy"@) ==> r is None,
    {
        proof {
            reveal_strlit("match_exact");
            reveal_strlit("match_greater");
            reveal_strlit("match_lesser");
            reveal_strlit("match_fuzzy");
            assert("match_exact"@.len() == 11);
            assert("match_greater"@.len() == 13);
            assert("match_lesser"@.len() == 12);
            assert("match_fuzzy"@.len() == 11);
            assert("match_exact"@[6] == 'e');
            assert("match_fuzzy"@[6] == 'f');
        }
        let owned = s.to_owned();
        if owned == String::from_str("match_exact") {
            Some(AlignmentStatus::MatchExact)
        } else if owned == String::from_str("match_greater") {
            Some(AlignmentStatus::MatchGreater)
        } else if owned == String::from_str("match_lesser") {
            Some(AlignmentStatus::MatchLesser)
        } else if owned == String::from_str("match_fuzzy") {
            Some(AlignmentStatus::MatchFuzzy)
        } else {
            None
        }
    }
}

/// A half-open character range `[start_pos, end_pos)` in code-point offsets;
/// either bound may be absent.
#[derive(Debug, Clone, Copy, PartialEq, Eq, Structural, Default)]
pub struct CharInterval {
    pub start_pos: Option<usize>,
    pub end_pos: Option<usize>,
}

impl CharInterval {
    pub fn new(start_pos: Option<usize>, end_pos: Option<usize>) -> (r: Self)
        ensures
            r.start_pos == start_pos,
            r.end_pos == end_pos,
    {
        CharInterval { start_pos, end_pos }
    }
}

/// An attribute value: a single string or a list of strings.
#[derive(Debug)]
pub enum AttributeValue {
    Single(String),
    Multiple(Vec<String>),
}

/// The mathematical model of an attribute value.
pub enum AttrValView {
    Single(Seq<char>),
    Multiple(Seq<Seq<char>>),
}

/// The view of one string in a list.
pub open spec fn string_view_fn() -> spec_fn(String) -> Seq<char> {
    |x: String| x@
}

/// The view of one named attribute pair.
pub open spec fn attr_pair_view_fn() -> spec_fn((String, AttributeValue)) -> (
    Seq<char>,
    AttrValView,
) {
    |p: (String, AttributeValue)| (p.0@, p.1@)
}

impl View for AttributeValue {
    type V = AttrValView;

    open spec fn view(&self) -> AttrValView {
        match self {
            AttributeValue::Single(s) => AttrValView::Single(s@),
            AttributeValue::Multiple(v) => AttrValView::Multiple(
                v@.map_values(string_view_fn()),
            ),
        }
    }
}

impl Clone for AttributeValue {
    fn clone(&self) -> (r: Self)
        ensures
            r@ == self@,
    {
        match self {
            AttributeValue::Single(s) => AttributeValue::Single(s.clone()),
            AttributeValue::Multiple(v) => {
                let mut out: Vec<String> = Vec::new();
                let mut i: usize = 0;
                while i < v.len()
                    invariant
                        i <= v@.len(),
                        out@.len() == i,
                        forall|k: int| 0 <= k < i ==> (#[trigger] out@[k])@ == v@[k]@,
                    decreases v@.len() - i,
                {
                    out.push(v[i].clone());
                    i = i + 1;
                }
                proof {
                    assert forall|k: int| 0 <= k < v@.len() implies out@.map_values(
                        string_view_fn(),
                    )[k] == v@.map_values(string_view_fn())[k] by {
                        assert(out@[k]@ == v@[k]@);
                    }
                    assert(out@.map_values(string_view_fn()) =~= v@.map_values(string_view_fn()));
                }
                AttributeValue::Multiple(out)
            },
        }
    }
}

/// The model of a named attribute list: names paired with attribute values.
pub open spec fn attrs_view(attrs: Option<Vec<(String, AttributeValue)>>) -> Option<
    Seq<(Seq<char>, AttrValView)>,
> {
    match attrs {
        None => None,
        Some(v) => Some(v@.map_values(attr_pair_view_fn())),
    }
}

/// Clones a list of named attribute values.
pub fn clone_attributes(attrs: &Option<Vec<(String, AttributeValue)>>) -> (r: Option<
    Vec<(String, AttributeValue)>,
>)
    ensures
        attrs_view(r) == attrs_view(*attrs),
        r is Some <==> attrs is Some,
{
    match attrs {
        None => None,
        Some(v) => {
            let mut out: Vec<(String, AttributeValue)> = Vec::new();
            let mut i: usize = 0;
            while i < v.len()
                invariant
                    i <= v@.len(),
                    out@.len() == i,
                    forall|k: int|
                        0 <= k < i ==> (#[trigger] out@[k]).0@ == v@[k].0@ && out@[k].1@
                            == v@[k].1@,
                decreases v@.len() - i,
            {
                let (k, a) = &v[i];
                out.push((k.clone(), a.clone()));
                i = i + 1;
            }
            proof {
                assert forall|k: int| 0 <= k < v@.len() implies out@.map_values(
                    attr_pair_view_fn(),
                )[k] == v@.map_values(attr_pair_view_fn())[k] by {
                    assert(out@[k].0@ == v@[k].0@ && out@[k].1@ == v@[k].1@);
                }
                assert(out@.map_values(attr_pair_view_fn()) =~= v@.map_values(attr_pair_view_fn()));
            }
            Some(out)
        },
    }
}

/// One extraction: a class, a verbatim text and its optional location in the
/// source.
#[derive(Debug)]
pub struct Extraction {
    pub extraction_class: String,
    pub extraction_text: String,
    pub char_interval: Option<CharInterval>,
    pub alignment_status: Option<AlignmentStatus>,
    pub extraction_index: Option<usize>,
    pub group_index: Option<usize>,
    pub description: Option<String>,
    pub attributes: Option<Vec<(String, AttributeValue)>>,
    pub token_interval: Option<TokenInterval>,
}

impl Extraction {
    pub fn new(
        extraction_class: String,
        extraction_text: String,
        token_interval: Option<TokenInterval>,
        char_interval: Option<CharInterval>,
        alignment_status: Option<AlignmentStatus>,
        extraction_index: Option<usize>,
        group_index: Option<usize>,
        description: Option<String>,
        attributes: Option<Vec<(String, AttributeValue)>>,
    ) -> (r: Self)
        ensures
            r == (Extraction {
                extraction_class,
                extraction_text,
                char_interval,
                alignment_status,
                extraction_index,
                group_index,
                description,
                attributes,
                token_interval,
            }),
    {
        Extraction {
            extraction_class,
            extraction_text,
            char_interval,
            alignment_status,
            extraction_index,
            group_index,
            description,
            attributes,
            token_interval,
        }
    }

    pub fn token_interval(&self) -> (r: Option<&TokenInterval>)
        ensures
            r is Some <==> self.token_interval is Some,
            r is Some ==> *r->0 == self.token_interval->0,
    {
        self.token_interval.as_ref()
    }

    pub fn set_token_interval(&mut self, value: Option<TokenInterval>)
        ensures
            *final(self) == (Extraction { token_interval: value, ..*old(self) }),
    {
        self.token_interval = value;
    }
}

/// The mathematical model of an extraction.
pub struct ExtractionView {
    pub extraction_class: Seq<char>,
    pub extraction_text: Seq<char>,
    pub char_interval: Option<CharInterval>,
    pub alignment_status: Option<AlignmentStatus>,
    pub extraction_index: Option<usize>,
    pub group_index: Option<usize>,
    pub description: Option<Seq<char>>,
    pub attributes: Option<Seq<(Seq<char>, AttrValView)>>,
    pub token_interval: Option<TokenInterval>,
}

impl View for Extraction {
    type V = ExtractionView;

    open spec fn view(&self) -> ExtractionView {
        ExtractionView {
            extraction_class: self.extraction_class@,
            extraction_text: self.extraction_text@,
            char_interval: self.char_interval,
            alignment_status: self.alignment_status,
            extraction_index: self.extraction_index,
            group_index: self.group_index,
            description: match self.description {
                Some(d) => Some(d@),
                None => None,
            },
            attributes: attrs_view(self.attributes),
            token_interval: self.token_interval,
        }
    }
}

impl Clone for Extraction {
    fn clone(&self) -> (r: Self)
        ensures
            r@ == self@,
    {
        Extraction {
            extraction_class: self.extraction_class.clone(),
            extraction_text: self.extraction_text.clone(),
            char_interval: self.char_interval,
            alignment_status: self.alignment_status,
            extraction_index: self.extraction_index,
            group_index: self.group_index,
            description: match &self.description {
                Some(d) => Some(d.clone()),
                None => None,
            },
            attributes: clone_attributes(&self.attributes),
            token_interval: self.token_interval,
        }
    }
}

/// Relies on uuid::Uuid::new_v4 for a fresh random identifier, rendered in
/// its simple form: 32 hexadecimal characters. Only the length is promised,
/// since the value is random.
#[verifier::external_body]
fn fresh_uuid_simple() -> (r: String)
    ensures
        r@.len() == 32,
{
    uuid::Uuid::new_v4().simple().to_string()
}

/// A fresh document id: `doc_` followed by the first eight characters of a
/// fresh identifier.
pub(crate) fn new_document_id() -> (r: String)
    ensures
        r@.len() == 12,
        r@.subrange(0, 4) == "doc_"@,
{
    proof {
        reveal_strlit("doc_");
    }
    let hex = fresh_uuid_simple();
    let mut s = String::from_str("doc_");
    s.append(hex.as_str().substring_char(0, 8));
    proof {
        assert(s@.subrange(0, 4) =~= "doc_"@);
    }
    s
}

/// A source document: verbatim text, an optional stable id, optional extra
/// context, and a lazily computed tokenization.
#[derive(Debug)]
pub struct Document {
    pub text: String,
    pub additional_context: Option<String>,
    pub document_id: Option<String>,
    pub tokenized_text: Option<TokenizedText>,
}

impl Document {
    pub fn new(text: String, document_id: Option<String>, additional_context: Option<String>) -> (
        r: Self)
        ensures
            r.text == text,
            r.document_id == document_id,
            r.additional_context == additional_context,
            r.tokenized_text is None,
    {
        Document { text, additional_context, document_id, tokenized_text: None }
    }

    /// The document id; a missing id is assigned on first access.
    pub fn document_id(&mut self) -> (r: String)
        ensures
            final(self).text == old(self).text,
            final(self).additional_context == old(self).additional_context,
            final(self).tokenized_text == old(self).tokenized_text,
            final(self).document_id == Some(r),
            old(self).document_id is Some ==> final(self).document_id == old(self).document_id,
            old(self).document_id is None ==> r@.len() == 12 && r@.subrange(0, 4) == "doc_"@,
    {
        if self.document_id.is_none() {
            self.document_id = Some(new_document_id());
        }
        match &self.document_id {
            Some(id) => id.clone(),
            None => String::new(),
        }
    }

    pub fn set_document_id(&mut self, value: Option<String>)
        ensures
            *final(self) == (Document { document_id: value, ..*old(self) }),
    {
        self.document_id = value;
    }

    /// The tokenization of the text, computed on first access.
    pub fn tokenized_text(&mut self) -> (r: &TokenizedText)
        ensures
            final(self).text == old(self).text,
            final(self).additional_context == old(self).additional_context,
            final(self).document_id == old(self).document_id,
            final(self).tokenized_text == Some(*r),
            old(self).tokenized_text is Some ==> final(self).tokenized_text == old(
                self,
            ).tokenized_text,
            old(self).tokenized_text is None ==> r.text@ == old(self).text@
                && tokens_follow_spans(old(self).text@, r.tokens@) && r.wf(),
    {
        if self.tokenized_text.is_none() {
            let tokenized = tokenize(self.text.as_str());
            self.tokenized_text = Some(tokenized);
        }
        match &self.tokenized_text {
            Some(t) => t,
            None => unreached(),
        }
    }

    pub fn set_tokenized_text(&mut self, value: TokenizedText)
        ensures
            *final(self) == (Document { tokenized_text: Some(value), ..*old(self) }),
    {
        self.tokenized_text = Some(value);
    }
}

impl Clone for TokenizedText {
    fn clone(&self) -> (r: Self)
        ensures
            r.text@ == self.text@,
            r.tokens@ == self.tokens@,
    {
        let mut tokens = Vec::new();
        let mut i: usize = 0;
        while i < self.tokens.len()
            invariant
                i <= self.tokens@.len(),
                tokens@ =~= self.tokens@.subrange(0, i as int),
            decreases self.tokens@.len() - i,
        {
            tokens.push(self.tokens[i]);
            proof {
                assert(tokens@ =~= self.tokens@.subrange(0, i + 1));
            }
            i = i + 1;
        }
        proof {
            assert(tokens@ =~= self.tokens@);
        }
        TokenizedText { text: self.text.clone(), tokens }
    }
}

/// The mathematical model of a document.
pub struct DocumentView {
    pub text: Seq<char>,
    pub additional_context: Option<Seq<char>>,
    pub document_id: Option<Seq<char>>,
    pub tokenized_text: Option<TokenizedTextView>,
}

impl View for Document {
    type V = DocumentView;

    open spec fn view(&self) -> DocumentView {
        DocumentView {
            text: self.text@,
            additional_context: match self.additional_context {
                Some(c) => Some(c@),
                None => None,
            },
            document_id: match self.document_id {
                Some(d) => Some(d@),
                None => None,
            },
            tokenized_text: match self.tokenized_text {
                Some(tt) => Some(tt@),
                None => None,
            },
        }
    }
}

impl Clone for Document {
    fn clone(&self) -> (r: Self)
        ensures
            r@ == self@,
    {
        Document {
            text: self.text.clone(),
            additional_context: match &self.additional_context {
                Some(c) => Some(c.clone()),
                None => None,
            },
            document_id: match &self.document_id {
                Some(d) => Some(d.clone()),
                None => None,
            },
            tokenized_text: match &self.tokenized_text {
                Some(t) => Some(t.clone()),
                None => None,
            },
        }
    }
}

/// The final output for one document: its id, its text and the ordered
/// extractions found in it.
#[derive(Debug)]
pub struct AnnotatedDocument {
    pub extractions: Option<Vec<Extraction>>,
    pub text: Option<String>,
    pub document_id: Option<String>,
    pub tokenized_text: Option<TokenizedText>,
}

impl AnnotatedDocument {
    pub fn new(
        document_id: Option<String>,
        extractions: Option<Vec<Extraction>>,
        text: Option<String>,
    ) -> (r: Self)
        ensures
            r.document_id == document_id,
            r.extractions == extractions,
            r.text == text,
            r.tokenized_text is None,
    {
        AnnotatedDocument { extractions, text, document_id, tokenized_text: None }
    }

    /// The document id; a missing id is assigned on first access.
    pub fn document_id(&mut self) -> (r: String)
        ensures
            final(self).text == old(self).text,
            final(self).extractions == old(self).extractions,
            final(self).tokenized_text == old(self).tokenized_text,
            final(self).document_id == Some(r),
            old(self).document_id is Some ==> final(self).document_id == old(self).document_id,
            old(self).document_id is None ==> r@.len() == 12 && r@.subrange(0, 4) == "doc_"@,
    {
        if self.document_id.is_none() {
            self.document_id = Some(new_document_id());
        }
        match &self.document_id {
            Some(id) => id.clone(),
            None => String::new(),
        }
    }

    pub fn set_document_id(&mut self, value: Option<String>)
        ensures
            *final(self) == (AnnotatedDocument { document_id: value, ..*old(self) }),
    {
        self.document_id = value;
    }

    /// The tokenization of the text, computed on first access when text is
    /// present.
    pub fn tokenized_text(&mut self) -> (r: Option<&TokenizedText>)
        ensures
            final(self).text == old(self).text,
            final(self).extractions == old(self).extractions,
            final(self).document_id == old(self).document_id,
            old(self).tokenized_text is Some ==> final(self).tokenized_text == old(
                self,
            ).tokenized_text,
            r is Some <==> final(self).tokenized_text is Some,
            (old(self).tokenized_text is None && old(self).text is None)
                ==> final(self).tokenized_text is None,
            (old(self).tokenized_text is None && old(self).text is Some)
                ==> (final(self).tokenized_text is Some
                && final(self).tokenized_text->0.text@ == old(self).text->0@
                && tokens_follow_spans(old(self).text->0@, final(self).tokenized_text->0.tokens@)),
    {
        if self.tokenized_text.is_none() {
            match &self.text {
                Some(text) => {
                    let tokenized = tokenize(text.as_str());
                    self.tokenized_text = Some(tokenized);
                },
                None => {},
            }
        }
        self.tokenized_text.as_ref()
    }

    pub fn set_tokenized_text(&mut self, value: TokenizedText)
        ensures
            *final(self) == (AnnotatedDocument { tokenized_text: Some(value), ..*old(self) }),
    {
        self.tokenized_text = Some(value);
    }
}

/// The wire format of prompts and replies.
#[derive(Debug, Clone, Copy, PartialEq, Eq, Structural)]
pub enum FormatType {
    Yaml,
    Json,
}

/// A few-shot example: a text and the extractions expected from it.
#[derive(Debug)]
pub struct ExampleData {
    pub text: String,
    pub extractions: Vec<Extraction>,
}

impl ExampleData {
    pub fn new(text: String, extractions: Vec<Extraction>) -> (r: Self)
        ensures
            r.text == text,
            r.extractions == extractions,
    {
        ExampleData { text, extractions }
    }
}

} // verus!
