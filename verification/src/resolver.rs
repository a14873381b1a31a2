//! Resolver: parses one LLM reply string into ordered, typed extraction
//! records, and relocates extraction texts back into the source chunk.

use vstd::prelude::*;

use crate::chunking::{spec_words, word_run_end, nonspace_pred};
use crate::text::{
    char_is_space, lower_of, lowercase_str, spec_is_space, str_to_chars, usize_to_string,
};
use crate::tokenizer::{lemma_run_end_bounds, run_end, space_pred, space_run_end};
use crate::wire::{
    json_parsed, parse_json_value, parse_yaml_value, yaml_parsed, ParsedValue, ValueView,
};

verus! {

/// A general error of the extraction pipeline, with a message.
#[derive(Debug)]
pub struct LangExtractError(pub String);

/// A half-open character range in code-point offsets.
#[derive(Debug, Clone, Copy, PartialEq, Eq, Structural)]
pub struct CharInterval {
    pub start_pos: usize,
    pub end_pos: usize,
}

/// A half-open token range.
#[derive(Debug, Clone, Copy, PartialEq, Eq, Structural)]
pub struct TokenInterval {
    pub start_index: usize,
    pub end_index: usize,
}

/// How an extraction was aligned.
#[derive(Debug, Clone, Copy, PartialEq, Eq, Structural)]
pub enum AlignmentStatus {
    MatchExact,
    MatchLesser,
    MatchFuzzy,
}

/// One resolved extraction.
#[derive(Debug)]
pub struct Extraction {
    pub extraction_class: String,
    pub extraction_text: String,
    pub extraction_index: usize,
    pub group_index: usize,
    pub attributes: Option<ParsedValue>,
    pub token_interval: Option<TokenInterval>,
    pub char_interval: Option<CharInterval>,
    pub alignment_status: Option<AlignmentStatus>,
}

/// The mathematical model of a resolved extraction.
pub struct RExtractionView {
    pub extraction_class: Seq<char>,
    pub extraction_text: Seq<char>,
    pub extraction_index: usize,
    pub group_index: usize,
    pub attributes: Option<ValueView>,
    pub token_interval: Option<TokenInterval>,
    pub char_interval: Option<CharInterval>,
    pub alignment_status: Option<AlignmentStatus>,
}

impl View for Extraction {
    type V = RExtractionView;

    open spec fn view(&self) -> RExtractionView {
        RExtractionView {
            extraction_class: self.extraction_class@,
            extraction_text: self.extraction_text@,
            extraction_index: self.extraction_index,
            group_index: self.group_index,
            attributes: match self.attributes {
                Some(a) => Some(a@),
                None => None,
            },
            token_interval: self.token_interval,
            char_interval: self.char_interval,
            alignment_status: self.alignment_status,
        }
    }
}

impl Extraction {
    pub fn new(
        extraction_class: String,
        extraction_text: String,
        extraction_index: usize,
        group_index: usize,
        attributes: Option<ParsedValue>,
    ) -> (r: Self)
        ensures
            r@ == (RExtractionView {
                extraction_class: extraction_class@,
                extraction_text: extraction_text@,
                extraction_index,
                group_index,
                attributes: match attributes {
                    Some(a) => Some(a@),
                    None => None,
                },
                token_interval: None,
                char_interval: None,
                alignment_status: None,
            }),
    {
        Extraction {
            extraction_class,
            extraction_text,
            extraction_index,
            group_index,
            attributes,
            token_interval: None,
            char_interval: None,
            alignment_status: None,
        }
    }
}

impl Clone for Extraction {
    fn clone(&self) -> (r: Self)
        ensures
            r@ == self@,
    {
        Extraction {
            extraction_class: self.extraction_class.clone(),
            extraction_text: self.extraction_text.clone(),
            extraction_index: self.extraction_index,
            group_index: self.group_index,
            attributes: match &self.attributes {
                Some(a) => Some(a.clone()),
                None => None,
            },
            token_interval: self.token_interval,
            char_interval: self.char_interval,
            alignment_status: self.alignment_status,
        }
    }
}

// ---------------------------------------------------------------------------
// Whitespace tokenizing for alignment
// ---------------------------------------------------------------------------

/// A whitespace-delimited token with its character span.
#[derive(Debug)]
pub struct Token {
    pub text: String,
    pub char_interval: CharInterval,
}

/// A whitespace-tokenized text.
#[derive(Debug)]
pub struct TokenizedText {
    pub text: String,
    pub tokens: Vec<Token>,
}

/// The spans of the whitespace-delimited tokens of `s`, from `i` on.
#[verifier::opaque]
pub open spec fn ws_spans(s: Seq<char>, i: int) -> Seq<(int, int)>
    decreases s.len() - i,
    when 0 <= i
    via ws_spans_decreases
{
    let j = space_run_end(s, i);
    if j >= s.len() {
        Seq::empty()
    } else {
        seq![(j, word_run_end(s, j))] + ws_spans(s, word_run_end(s, j))
    }
}

#[via_fn]
proof fn ws_spans_decreases(s: Seq<char>, i: int) {
    if i <= s.len() {
        lemma_run_end_bounds(s, i, space_pred());
        let j = space_run_end(s, i);
        if j < s.len() {
            assert(word_run_end(s, j) == run_end(s, j + 1, nonspace_pred()));
            lemma_run_end_bounds(s, j + 1, nonspace_pred());
        }
    }
}

/// What whitespace tokenizing promises: tokens cover exactly the
/// whitespace-delimited spans, each carrying its text.
pub open spec fn ws_tokens_ok(s: Seq<char>, tokens: Seq<Token>) -> bool {
    &&& tokens.len() == ws_spans(s, 0).len()
    &&& forall|k: int|
        0 <= k < tokens.len() ==> {
            let sp = ws_spans(s, 0)[k];
            &&& (#[trigger] tokens[k]).char_interval.start_pos == sp.0
            &&& tokens[k].char_interval.end_pos == sp.1
            &&& 0 <= sp.0 < sp.1 <= s.len()
            &&& tokens[k].text@ == s.subrange(sp.0, sp.1)
        }
}

proof fn lemma_ws_spans_same_skip(s: Seq<char>, i: int, j: int)
    requires
        0 <= i,
        0 <= j,
        space_run_end(s, i) == space_run_end(s, j),
    ensures
        ws_spans(s, i) == ws_spans(s, j),
{
    reveal(ws_spans);
    assert(ws_spans(s, i) == ws_spans(s, j));
}

/// A text has at most as many whitespace tokens as characters.
pub proof fn lemma_ws_spans_count(s: Seq<char>, i: int)
    requires
        0 <= i,
    ensures
        i <= s.len() ==> ws_spans(s, i).len() <= s.len() - i,
        i > s.len() ==> ws_spans(s, i).len() == 0,
    decreases s.len() - i,
{
    reveal(ws_spans);
    if i <= s.len() {
        lemma_run_end_bounds(s, i, space_pred());
        let j = space_run_end(s, i);
        if j < s.len() {
            assert(word_run_end(s, j) == run_end(s, j + 1, nonspace_pred()));
            lemma_run_end_bounds(s, j + 1, nonspace_pred());
            let e = word_run_end(s, j);
            lemma_ws_spans_count(s, e);
        }
    }
}

/// The character span of a whitespace token, as a pair.
pub open spec fn rspan_fn() -> spec_fn(Token) -> (int, int) {
    |t: Token| (t.char_interval.start_pos as int, t.char_interval.end_pos as int)
}

/// The tokens collected so far are exactly the leading whitespace-delimited
/// spans of `s`, those before position `pos`.
pub open spec fn seq_spans_prefix_ok(s: Seq<char>, tokens: Seq<Token>, pos: int) -> bool {
    &&& ws_spans(s, 0) == tokens.map_values(rspan_fn()) + ws_spans(s, pos)
    &&& forall|k: int|
        0 <= k < tokens.len() ==> {
            let sp = ws_spans(s, 0)[k];
            &&& (#[trigger] tokens[k]).char_interval.start_pos == sp.0
            &&& tokens[k].char_interval.end_pos == sp.1
            &&& 0 <= sp.0 < sp.1 <= s.len()
            &&& tokens[k].text@ == s.subrange(sp.0, sp.1)
        }
}

/// Splits a text into whitespace-delimited tokens with code-point spans.
pub fn tokenize(text: &str) -> (r: TokenizedText)
    ensures
        r.text@ == text@,
        ws_tokens_ok(text@, r.tokens@),
{
    let chars = str_to_chars(text);
    let ghost s = text@;
    let n = chars.len();
    let mut tokens: Vec<Token> = Vec::new();
    let mut pos: usize = 0;
    proof {
        assert(tokens@.map_values(rspan_fn()) + ws_spans(s, 0) =~= ws_spans(s, 0));
    }
    loop
        invariant
            chars@ == s,
            s == text@,
            n == s.len(),
            pos <= n,
            seq_spans_prefix_ok(s, tokens@, pos as int),
        ensures
            ws_tokens_ok(s, tokens@),
        decreases n - pos,
    {
        let ghost p0 = pos as int;
        while pos < n && char_is_space(chars[pos])
            invariant
                chars@ == s,
                n == s.len(),
                p0 <= pos <= n,
                space_run_end(s, p0) == space_run_end(s, pos as int),
            decreases n - pos,
        {
            pos = pos + 1;
        }
        proof {
            assert(space_run_end(s, pos as int) == pos as int);
            lemma_ws_spans_same_skip(s, p0, pos as int);
        }
        if pos >= n {
            proof {
                reveal(ws_spans);
                assert(ws_spans(s, pos as int) =~= Seq::<(int, int)>::empty());
                assert(tokens@.map_values(rspan_fn()) =~= tokens@.map_values(rspan_fn()) + ws_spans(
                    s,
                    pos as int,
                ));
            }
            break;
        }
        let j = pos;
        let mut e = j;
        while e < n && !char_is_space(chars[e])
            invariant
                chars@ == s,
                n == s.len(),
                j <= e <= n,
                word_run_end(s, j as int) == word_run_end(s, e as int),
            decreases n - e,
        {
            e = e + 1;
        }
        proof {
            assert(word_run_end(s, e as int) == e as int);
            assert(e > j) by {
                lemma_run_end_bounds(s, j as int, nonspace_pred());
            }
        }
        let tok = Token {
            text: text.substring_char(j, e).to_owned(),
            char_interval: CharInterval { start_pos: j, end_pos: e },
        };
        let ghost old_tokens = tokens@;
        tokens.push(tok);
        proof {
            reveal(ws_spans);
            assert(ws_spans(s, pos as int) == seq![(j as int, e as int)] + ws_spans(s, e as int));
            assert(tokens@.map_values(rspan_fn()) =~= old_tokens.map_values(rspan_fn()) + seq![
                (j as int, e as int),
            ]);
            assert(tokens@.map_values(rspan_fn()) + ws_spans(s, e as int) =~= old_tokens.map_values(
                rspan_fn(),
            ) + ws_spans(s, pos as int));
            assert(ws_spans(s, 0)[old_tokens.len() as int] == (j as int, e as int)) by {
                assert(ws_spans(s, 0) == old_tokens.map_values(rspan_fn()) + ws_spans(
                    s,
                    pos as int,
                ));
            }
        }
        pos = e;
    }
    TokenizedText { text: text.to_owned(), tokens }
}

// ---------------------------------------------------------------------------
// Reply parsing
// ---------------------------------------------------------------------------

/// Errors of the resolver: malformed replies and invalid field types.
#[derive(Debug)]
pub enum ResolverError {
    Parse(String),
    Other(String),
}

/// The pattern occurs in `s` at position `i`.
pub open spec fn match_at(s: Seq<char>, pat: Seq<char>, i: int) -> bool {
    0 <= i && i + pat.len() <= s.len() && s.subrange(i, i + pat.len()) == pat
}

/// Finds the first occurrence of `pat` in `hay` at or after `from`.
pub fn find_first(hay: &Vec<char>, pat: &Vec<char>, from: usize) -> (r: Option<usize>)
    requires
        from <= hay@.len(),
        pat@.len() >= 1,
    ensures
        r is Some ==> from <= r->0 && match_at(hay@, pat@, r->0 as int) && (forall|m: int|
            from <= m < r->0 ==> !match_at(hay@, pat@, m)),
        r is None ==> forall|m: int| m >= from ==> !match_at(hay@, pat@, m),
{
    let n = hay.len();
    let pn = pat.len();
    if pn > n {
        return None;
    }
    let mut i = from;
    while i <= n - pn
        invariant
            n == hay@.len(),
            pn == pat@.len(),
            1 <= pn <= n,
            from <= i <= n + 1,
            forall|m: int| from <= m < i ==> !match_at(hay@, pat@, m),
        decreases n + 1 - i,
    {
        let mut k: usize = 0;
        let mut ok = true;
        while k < pn
            invariant
                n == hay@.len(),
                pn == pat@.len(),
                i + pn <= n,
                k <= pn,
                ok <==> (forall|m: int| 0 <= m < k ==> hay@[i + m] == pat@[m]),
            decreases pn - k,
        {
            if hay[i + k] != pat[k] {
                ok = false;
            }
            k = k + 1;
        }
        if ok {
            proof {
                assert(hay@.subrange(i as int, i + pn) =~= pat@);
            }
            return Some(i);
        }
        proof {
            if match_at(hay@, pat@, i as int) {
                let m = choose|m: int| 0 <= m < pn && hay@[i + m] != pat@[m];
                assert(hay@.subrange(i as int, i + pn)[m] == pat@[m]);
            }
        }
        i = i + 1;
    }
    proof {
        assert forall|m: int| m >= from implies !match_at(hay@, pat@, m) by {
            if m > n - pn {
                assert(m + pat@.len() > hay@.len());
            }
        }
    }
    None
}

/// Index of the first character kept by a left trim.
pub open spec fn trim_start_idx(s: Seq<char>) -> int {
    space_run_end(s, 0)
}

/// Index one past the last character kept by a right trim.
pub open spec fn trim_end_idx(s: Seq<char>) -> int
    decreases s.len(),
{
    if s.len() == 0 {
        0
    } else if spec_is_space(s[s.len() - 1]) {
        trim_end_idx(s.drop_last())
    } else {
        s.len() as int
    }
}

/// The text with leading and trailing whitespace removed.
pub open spec fn spec_trim(s: Seq<char>) -> Seq<char> {
    if trim_end_idx(s) <= trim_start_idx(s) {
        Seq::empty()
    } else {
        s.subrange(trim_start_idx(s), trim_end_idx(s))
    }
}

proof fn lemma_trim_end(s: Seq<char>, b: int)
    requires
        0 <= b <= s.len(),
        forall|k: int| b <= k < s.len() ==> spec_is_space(s[k]),
        b > 0 ==> !spec_is_space(s[b - 1]),
    ensures
        trim_end_idx(s) == b,
    decreases s.len(),
{
    if s.len() == 0 {
    } else if b == s.len() {
    } else {
        assert(spec_is_space(s[s.len() - 1]));
        assert forall|k: int| b <= k < s.drop_last().len() implies spec_is_space(
            s.drop_last()[k],
        ) by {
            assert(s.drop_last()[k] == s[k]);
        }
        if b > 0 {
            assert(s.drop_last()[b - 1] == s[b - 1]);
        }
        lemma_trim_end(s.drop_last(), b);
    }
}

/// Removes leading and trailing whitespace.
pub fn trim_str(text: &str) -> (r: String)
    ensures
        r@ == spec_trim(text@),
{
    let chars = str_to_chars(text);
    let ghost s = text@;
    let n = chars.len();
    let mut a: usize = 0;
    while a < n && char_is_space(chars[a])
        invariant
            chars@ == s,
            n == s.len(),
            a <= n,
            space_run_end(s, 0) == space_run_end(s, a as int),
        decreases n - a,
    {
        a = a + 1;
    }
    proof {
        assert(space_run_end(s, a as int) == a as int);
        lemma_run_end_bounds(s, 0, space_pred());
    }
    let mut b: usize = n;
    while b > a && char_is_space(chars[b - 1])
        invariant
            chars@ == s,
            n == s.len(),
            a <= b <= n,
            forall|k: int| b <= k < n ==> spec_is_space(s[k]),
        decreases b,
    {
        b = b - 1;
    }
    if b <= a {
        proof {
            assert(forall|k: int| 0 <= k < a ==> spec_is_space(#[trigger] s[k]));
            assert forall|k: int| 0 <= k < s.len() implies spec_is_space(#[trigger] s[k]) by {}
            lemma_trim_end(s, 0);
        }
        String::new()
    } else {
        proof {
            lemma_trim_end(s, b as int);
        }
        text.substring_char(a, b).to_owned()
    }
}

/// The fence tag that opens machine-readable content.
pub open spec fn fence_open_tag(yaml: bool) -> Seq<char> {
    if yaml {
        "```yaml"@
    } else {
        "```json"@
    }
}

/// `out` is the trimmed content of the first fenced block of `s`: `a` is the
/// first opening tag and `b` the first closing fence after it.
pub open spec fn fence_extraction_ok(
    s: Seq<char>,
    yaml: bool,
    a: int,
    b: int,
    out: Seq<char>,
) -> bool {
    let tag = fence_open_tag(yaml);
    &&& match_at(s, tag, a)
    &&& forall|m: int| 0 <= m < a ==> !match_at(s, tag, m)
    &&& a + tag.len() <= b
    &&& match_at(s, "```"@, b)
    &&& forall|m: int| a + tag.len() <= m < b ==> !match_at(s, "```"@, m)
    &&& out == spec_trim(s.subrange(a + tag.len(), b))
}

/// A fenced block exists in `s`.
pub open spec fn has_fenced_content(s: Seq<char>, yaml: bool) -> bool {
    exists|a: int, b: int, out: Seq<char>| fence_extraction_ok(s, yaml, a, b, out)
}

/// The first fenced block of a reply is unique: its tag position, closing
/// position and trimmed content are determined by the text.
pub proof fn lemma_fence_unique(
    s: Seq<char>,
    yaml: bool,
    a1: int,
    b1: int,
    c1: Seq<char>,
    a2: int,
    b2: int,
    c2: Seq<char>,
)
    requires
        fence_extraction_ok(s, yaml, a1, b1, c1),
        fence_extraction_ok(s, yaml, a2, b2, c2),
    ensures
        a1 == a2,
        b1 == b2,
        c1 == c2,
{
    let tag = fence_open_tag(yaml);
    assert(a1 == a2) by {
        if a1 < a2 {
            assert(!match_at(s, tag, a1));
        }
        if a2 < a1 {
            assert(!match_at(s, tag, a2));
        }
    }
    assert(b1 == b2) by {
        if b1 < b2 {
            assert(!match_at(s, "```"@, b1));
        }
        if b2 < b1 {
            assert(!match_at(s, "```"@, b2));
        }
    }
}

impl Clone for ResolverError {
    fn clone(&self) -> (r: Self)
        ensures
            r is Parse <==> self is Parse,
    {
        match self {
            ResolverError::Parse(m) => ResolverError::Parse(m.clone()),
            ResolverError::Other(m) => ResolverError::Other(m.clone()),
        }
    }
}

/// Maps heterogeneous LLM replies to ordered, typed extraction records.
#[derive(Debug)]
pub struct Resolver {
    pub fence_output: bool,
    pub extraction_index_suffix: Option<String>,
    pub extraction_attributes_suffix: Option<String>,
    pub format_is_yaml: bool,
}

impl Default for Resolver {
    /// The default resolver: fenced JSON with `_index` and `_attributes`
    /// suffixes.
    fn default() -> (r: Self)
        ensures
            r.fence_output == true,
            r.extraction_index_suffix is Some && r.extraction_index_suffix->0@ == "_index"@,
            r.extraction_attributes_suffix is Some && r.extraction_attributes_suffix->0@
                == "_attributes"@,
            r.format_is_yaml == false,
    {
        Resolver {
            fence_output: true,
            extraction_index_suffix: Some(String::from_str("_index")),
            extraction_attributes_suffix: Some(String::from_str("_attributes")),
            format_is_yaml: false,
        }
    }
}

/// What parsing the resolved content yields under the configured format.
pub open spec fn parsed_of(yaml: bool, content: Seq<char>) -> Option<ValueView> {
    if yaml {
        yaml_parsed(content)
    } else {
        json_parsed(content)
    }
}

impl Resolver {
    pub fn new(
        fence_output: bool,
        extraction_index_suffix: Option<String>,
        extraction_attributes_suffix: Option<String>,
        format_is_yaml: bool,
    ) -> (r: Self)
        ensures
            r.fence_output == fence_output,
            r.extraction_index_suffix == extraction_index_suffix,
            r.extraction_attributes_suffix == extraction_attributes_suffix,
            r.format_is_yaml == format_is_yaml,
    {
        Resolver { fence_output, extraction_index_suffix, extraction_attributes_suffix, format_is_yaml }
    }

    /// Extracts the trimmed content strictly between the first opening fence
    /// tag and the next closing fence.
    pub fn extract_fenced_content(&self, input_string: &str) -> (r: Result<String, ResolverError>)
        ensures
            r is Ok <==> has_fenced_content(input_string@, self.format_is_yaml),
            r is Ok ==> exists|a: int, b: int, out: Seq<char>|
                fence_extraction_ok(input_string@, self.format_is_yaml, a, b, out) && out
                    == r->Ok_0@,
    {
        let ghost s = input_string@;
        let chars = str_to_chars(input_string);
        let left_key_str: &str = if self.format_is_yaml {
            "```yaml"
        } else {
            "```json"
        };
        let left_key = str_to_chars(left_key_str);
        proof {
            reveal_strlit("```yaml");
            reveal_strlit("```json");
            reveal_strlit("```");
            assert(left_key@ == fence_open_tag(self.format_is_yaml));
            assert(left_key@.len() == 7);
        }
        let close = str_to_chars("```");
        match find_first(&chars, &left_key, 0) {
            None => {
                proof {
                    assert forall|a: int, b: int, out: Seq<char>|
                        !fence_extraction_ok(s, self.format_is_yaml, a, b, out) by {}
                }
                Err(
                    ResolverError::Parse(
                        String::from_str("Input string does not contain valid markers."),
                    ),
                )
            },
            Some(start) => {
                let total = chars.len();
                proof {
                    assert(match_at(s, fence_open_tag(self.format_is_yaml), start as int));
                    assert(start + 7 <= total);
                }
                let content_start = start + 7;
                match find_first(&chars, &close, content_start) {
                    None => {
                        proof {
                            assert forall|a: int, b: int, out: Seq<char>|
                                !fence_extraction_ok(s, self.format_is_yaml, a, b, out) by {
                                if fence_extraction_ok(s, self.format_is_yaml, a, b, out) {
                                    assert(a == start as int) by {
                                        if a < start as int {
                                            assert(!match_at(
                                                s,
                                                fence_open_tag(self.format_is_yaml),
                                                a,
                                            ));
                                        }
                                        if a > start as int {
                                            assert(!match_at(
                                                s,
                                                fence_open_tag(self.format_is_yaml),
                                                start as int,
                                            ));
                                        }
                                    }
                                    assert(b >= content_start);
                                    assert(match_at(s, "```"@, b));
                                }
                            }
                        }
                        Err(
                            ResolverError::Parse(
                                String::from_str("Input string does not contain valid markers."),
                            ),
                        )
                    },
                    Some(end) => {
                        let content = input_string.substring_char(content_start, end);
                        let trimmed = trim_str(content);
                        proof {
                            let tag = fence_open_tag(self.format_is_yaml);
                            assert(match_at(s, tag, start as int));
                            assert(forall|m: int| 0 <= m < start ==> !match_at(s, tag, m));
                            assert(start as int + tag.len() <= end as int);
                            assert(match_at(s, "```"@, end as int));
                            assert(forall|m: int|
                                start as int + tag.len() <= m < end ==> !match_at(s, "```"@, m));
                            assert(trimmed@ == spec_trim(s.subrange(start as int + tag.len(), end as int)));
                            assert(fence_extraction_ok(
                                s,
                                self.format_is_yaml,
                                start as int,
                                end as int,
                                trimmed@,
                            ));
                            assert(exists|a: int, b: int|
                                fence_extraction_ok(s, self.format_is_yaml, a, b, trimmed@));
                        }
                        Ok(trimmed)
                    },
                }
            },
        }
    }

    /// Extracts the resolved content (fenced or whole) and parses it in the
    /// configured format.
    pub fn extract_and_parse_content(&self, input_string: &str) -> (r: Result<
        ParsedValue,
        ResolverError,
    >)
        ensures
            spec_trim(input_string@).len() == 0 ==> r is Err,
            r is Ok ==> exists|content: Seq<char>|
                {
                    &&& #[trigger] parsed_of(self.format_is_yaml, content) == Some(r->Ok_0@)
                    &&& if self.fence_output {
                        exists|a: int, b: int|
                            fence_extraction_ok(input_string@, self.format_is_yaml, a, b, content)
                    } else {
                        content == input_string@
                    }
                },
            !self.fence_output ==> (r is Ok <==> (spec_trim(input_string@).len() != 0
                && parsed_of(self.format_is_yaml, input_string@) is Some)),
            self.fence_output ==> (r is Ok <==> (spec_trim(input_string@).len() != 0 && exists|
                a: int,
                b: int,
                content: Seq<char>,
            |
                fence_extraction_ok(input_string@, self.format_is_yaml, a, b, content)
                    && parsed_of(self.format_is_yaml, content) is Some)),
    {
        let trimmed_input = trim_str(input_string);
        if trimmed_input.as_str().is_empty() {
            return Err(
                ResolverError::Parse(String::from_str("Input string must be a non-empty string.")),
            );
        }
        let content: String = if self.fence_output {
            match self.extract_fenced_content(input_string) {
                Ok(c) => c,
                Err(e) => {
                    return Err(e);
                },
            }
        } else {
            input_string.to_owned()
        };
        let parsed: Option<ParsedValue> = if self.format_is_yaml {
            parse_yaml_value(content.as_str())
        } else {
            parse_json_value(content.as_str())
        };
        match parsed {
            Some(v) => {
                proof {
                    assert(parsed_of(self.format_is_yaml, content@) == Some(v@));
                }
                Ok(v)
            },
            None => {
                proof {
                    if self.fence_output {
                        let (a0, b0) = choose|a0: int, b0: int|
                            fence_extraction_ok(
                                input_string@,
                                self.format_is_yaml,
                                a0,
                                b0,
                                content@,
                            );
                        assert forall|a: int, b: int, c: Seq<char>|
                            !(fence_extraction_ok(input_string@, self.format_is_yaml, a, b, c)
                                && parsed_of(self.format_is_yaml, c) is Some) by {
                            if fence_extraction_ok(input_string@, self.format_is_yaml, a, b, c) {
                                lemma_fence_unique(
                                    input_string@,
                                    self.format_is_yaml,
                                    a,
                                    b,
                                    c,
                                    a0,
                                    b0,
                                    content@,
                                );
                            }
                        }
                    }
                }
                Err(ResolverError::Parse(String::from_str("Failed to parse content.")))
            },
        }
    }
}

// ---------------------------------------------------------------------------
// Normalizing parsed replies to extraction groups
// ---------------------------------------------------------------------------

/// `s` ends with the given suffix.
pub open spec fn ends_with_spec(s: Seq<char>, suffix: Seq<char>) -> bool {
    s.len() >= suffix.len() && s.subrange(s.len() - suffix.len(), s.len() as int) == suffix
}

/// Tests whether a string ends with a suffix.
pub fn str_ends_with(s: &String, suffix: &String) -> (r: bool)
    ensures
        r == ends_with_spec(s@, suffix@),
{
    let sc = str_to_chars(s.as_str());
    let xc = str_to_chars(suffix.as_str());
    if sc.len() < xc.len() {
        return false;
    }
    let sn = sc.len();
    let off = sn - xc.len();
    let mut k: usize = 0;
    while k < xc.len()
        invariant
            sc@ == s@,
            xc@ == suffix@,
            sn == s@.len(),
            off == s@.len() - suffix@.len(),
            0 <= off,
            k <= suffix@.len(),
            forall|m: int| 0 <= m < k ==> s@[off + m] == suffix@[m],
        decreases xc@.len() - k,
    {
        if sc[off + k] != xc[k] {
            proof {
                if ends_with_spec(s@, suffix@) {
                    assert(s@.subrange(s@.len() - suffix@.len(), s@.len() as int)[k as int]
                        == suffix@[k as int]);
                }
            }
            return false;
        }
        k = k + 1;
    }
    proof {
        assert(s@.subrange(s@.len() - suffix@.len(), s@.len() as int) =~= suffix@);
    }
    true
}

/// A concatenation ends with its own suffix part.
pub proof fn lemma_ends_with_concat(a: Seq<char>, x: Seq<char>)
    ensures
        ends_with_spec(a + x, x),
{
    assert((a + x).subrange((a + x).len() - x.len(), (a + x).len() as int) =~= x);
}

/// A short suffix check on a concatenation only sees the appended part.
pub proof fn lemma_ends_with_concat_short(a: Seq<char>, x: Seq<char>, y: Seq<char>)
    requires
        y.len() <= x.len(),
    ensures
        ends_with_spec(a + x, y) == ends_with_spec(x, y),
{
    if ends_with_spec(a + x, y) {
        assert(x.subrange(x.len() - y.len(), x.len() as int) =~= (a + x).subrange(
            (a + x).len() - y.len(),
            (a + x).len() as int,
        ));
    }
    if ends_with_spec(x, y) {
        assert((a + x).subrange((a + x).len() - y.len(), (a + x).len() as int) =~= x.subrange(
            x.len() - y.len(),
            x.len() as int,
        ));
    }
}

/// The stable sort leaves a strictly ordered sequence unchanged.
pub proof fn lemma_sort_exts_of_sorted(s: Seq<RExtractionView>)
    requires
        forall|i: int, j: int| 0 <= i < j < s.len() ==> ext_lt(#[trigger] s[i], #[trigger] s[j]),
    ensures
        spec_sort_exts(s) == s,
    decreases s.len(),
{
    if s.len() > 0 {
        lemma_first_min_of_sorted(s);
        assert(s.remove(0) =~= s.subrange(1, s.len() as int));
        assert forall|i: int, j: int|
            0 <= i < j < s.remove(0).len() implies ext_lt(
            #[trigger] s.remove(0)[i],
            #[trigger] s.remove(0)[j],
        ) by {
            assert(s.remove(0)[i] == s[i + 1]);
            assert(s.remove(0)[j] == s[j + 1]);
        }
        lemma_sort_exts_of_sorted(s.remove(0));
        assert(seq![s[0]] + s.remove(0) =~= s);
    }
}

proof fn lemma_first_min_of_sorted(s: Seq<RExtractionView>)
    requires
        s.len() > 0,
        forall|i: int, j: int| 0 <= i < j < s.len() ==> ext_lt(#[trigger] s[i], #[trigger] s[j]),
    ensures
        first_min_idx(s) == 0,
    decreases s.len(),
{
    if s.len() > 1 {
        assert forall|i: int, j: int|
            0 <= i < j < s.drop_last().len() implies ext_lt(
            #[trigger] s.drop_last()[i],
            #[trigger] s.drop_last()[j],
        ) by {
            assert(s.drop_last()[i] == s[i]);
            assert(s.drop_last()[j] == s[j]);
        }
        lemma_first_min_of_sorted(s.drop_last());
        assert(s.drop_last()[0] == s[0]);
        assert(ext_lt(s[0], s.last()));
    }
}

/// Looks up the first value stored under `key`.
pub fn group_get<'a>(g: &'a Vec<(String, ParsedValue)>, key: &String) -> (r: Option<
    &'a ParsedValue,
>)
    ensures
        r is Some <==> first_field(crate::wire::fields_view(g@), key@) is Some,
        r is Some ==> Some(r->0@) == first_field(crate::wire::fields_view(g@), key@),
{
    let mut i: usize = 0;
    while i < g.len()
        invariant
            i <= g@.len(),
            forall|m: int| 0 <= m < i ==> (#[trigger] g@[m]).0@ != key@,
        decreases g@.len() - i,
    {
        if g[i].0 == *key {
            proof {
                crate::wire::lemma_fields_view(g@);
                lemma_first_field(crate::wire::fields_view(g@), key@);
                let fv = crate::wire::fields_view(g@);
                assert(fv[i as int].0 == key@);
                assert forall|m: int| 0 <= m < i implies (#[trigger] fv[m]).0 != key@ by {
                    assert(g@[m].0@ != key@);
                }
                assert(first_field(fv, key@) == Some(fv[i as int].1));
            }
            return Some(&g[i].1);
        }
        i = i + 1;
    }
    proof {
        crate::wire::lemma_fields_view(g@);
        lemma_first_field(crate::wire::fields_view(g@), key@);
        let fv = crate::wire::fields_view(g@);
        assert forall|m: int| 0 <= m < fv.len() implies (#[trigger] fv[m]).0 != key@ by {
            assert(g@[m].0@ != key@);
        }
    }
    None
}

/// A key is reserved when it is one of the structured keys or carries a
/// configured suffix.
pub open spec fn is_reserved_key(
    k: Seq<char>,
    idx_sfx: Option<Seq<char>>,
    attr_sfx: Option<Seq<char>>,
) -> bool {
    ||| k == "extraction_class"@
    ||| k == "extraction_text"@
    ||| (idx_sfx is Some && ends_with_spec(k, idx_sfx->0))
    ||| (attr_sfx is Some && ends_with_spec(k, attr_sfx->0))
}

impl Resolver {
    /// The configured index suffix, as a sequence.
    pub open spec fn idx_sfx(&self) -> Option<Seq<char>> {
        match self.extraction_index_suffix {
            Some(s) => Some(s@),
            None => None,
        }
    }

    /// The configured attributes suffix, as a sequence.
    pub open spec fn attr_sfx(&self) -> Option<Seq<char>> {
        match self.extraction_attributes_suffix {
            Some(s) => Some(s@),
            None => None,
        }
    }

    fn key_is_reserved(&self, k: &String) -> (r: bool)
        ensures
            r == is_reserved_key(k@, self.idx_sfx(), self.attr_sfx()),
    {
        if *k == String::from_str("extraction_class") || *k == String::from_str(
            "extraction_text",
        ) {
            return true;
        }
        if let Some(sfx) = &self.extraction_index_suffix {
            if str_ends_with(k, sfx) {
                return true;
            }
        }
        if let Some(sfx) = &self.extraction_attributes_suffix {
            if str_ends_with(k, sfx) {
                return true;
            }
        }
        false
    }
}

/// The key given to entry `i` of a flat reply array of `n` entries.
pub open spec fn flat_key(i: int, n: int) -> Seq<char> {
    if n == 1 {
        "text"@
    } else {
        "text_"@ + crate::text::spec_decimal(i)
    }
}

/// One group of a category map entry: the category as class, the item as
/// text.
pub open spec fn pair_group(k: Seq<char>, item: ValueView) -> Seq<(Seq<char>, ValueView)> {
    seq![("extraction_class"@, ValueView::Text(k)), ("extraction_text"@, item)]
}

/// The groups of one category-map field: one per item of a list value, one
/// for a single value.
pub open spec fn cat_field_groups(f: (Seq<char>, ValueView)) -> Seq<Seq<(Seq<char>, ValueView)>> {
    match f.1 {
        ValueView::List(items) => Seq::new(items.len(), |j: int| pair_group(f.0, items[j])),
        _ => seq![pair_group(f.0, f.1)],
    }
}

/// Category-map normalization: one group per `(category, item)` pair, in
/// field order.
pub open spec fn cat_map_groups(fields: Seq<(Seq<char>, ValueView)>) -> Seq<
    Seq<(Seq<char>, ValueView)>,
> {
    Seq::new(fields.len(), |i: int| cat_field_groups(fields[i])).flatten()
}

/// Plain structured groups: objects pass through, anything else becomes a
/// `text` entry.
pub open spec fn plain_groups(arr: Seq<ValueView>) -> Seq<Seq<(Seq<char>, ValueView)>> {
    Seq::new(
        arr.len(),
        |i: int|
            match arr[i] {
                ValueView::Object(f) => f,
                _ => seq![("text"@, arr[i])],
            },
    )
}

/// The canonical re-encoding of one category key of one item: the key as
/// class, its value as text, and the suffixed siblings carried over under the
/// `extraction_text` key.
pub open spec fn cat_encode(
    fields: Seq<(Seq<char>, ValueView)>,
    k: Seq<char>,
    v: ValueView,
    isfx: Option<Seq<char>>,
    asfx: Option<Seq<char>>,
) -> Seq<(Seq<char>, ValueView)> {
    seq![("extraction_class"@, ValueView::Text(k)), ("extraction_text"@, v)] + (match isfx {
        Some(x) => match first_field(fields, k + x) {
            Some(iv) => seq![("extraction_text"@ + x, iv)],
            None => Seq::empty(),
        },
        None => Seq::empty(),
    }) + (match asfx {
        Some(x) => match first_field(fields, k + x) {
            Some(av) => seq![("extraction_text"@ + x, av)],
            None => Seq::empty(),
        },
        None => Seq::empty(),
    })
}

/// The groups of one category-form item: one per non-reserved key, in key
/// order.
pub open spec fn cat_item_groups(
    item: ValueView,
    isfx: Option<Seq<char>>,
    asfx: Option<Seq<char>>,
) -> Seq<Seq<(Seq<char>, ValueView)>> {
    match item {
        ValueView::Object(f) => Seq::new(
            f.len(),
            |j: int|
                if is_reserved_key(f[j].0, isfx, asfx) {
                    Seq::empty()
                } else {
                    seq![cat_encode(f, f[j].0, f[j].1, isfx, asfx)]
                },
        ).flatten(),
        _ => Seq::empty(),
    }
}

/// Category-form normalization of the `extractions` array.
pub open spec fn cat_form_groups(
    arr: Seq<ValueView>,
    isfx: Option<Seq<char>>,
    asfx: Option<Seq<char>>,
) -> Seq<Seq<(Seq<char>, ValueView)>> {
    Seq::new(arr.len(), |i: int| cat_item_groups(arr[i], isfx, asfx)).flatten()
}

/// An item qualifies for category form: an object holding at least one
/// non-reserved key.
pub open spec fn item_has_category_key(
    item: ValueView,
    isfx: Option<Seq<char>>,
    asfx: Option<Seq<char>>,
) -> bool {
    item is Object && exists|j: int|
        0 <= j < item->Object_0.len() && !is_reserved_key(
            (#[trigger] item->Object_0[j]).0,
            isfx,
            asfx,
        )
}

/// The `extractions` array is read in category form when each of its entries
/// qualifies.
pub open spec fn is_category_form(
    arr: Seq<ValueView>,
    isfx: Option<Seq<char>>,
    asfx: Option<Seq<char>>,
) -> bool {
    forall|i: int| 0 <= i < arr.len() ==> item_has_category_key(#[trigger] arr[i], isfx, asfx)
}

/// Flat-array normalization: one group with one `text`-keyed entry per item.
pub open spec fn flat_groups(items: Seq<ValueView>) -> Seq<Seq<(Seq<char>, ValueView)>> {
    seq![Seq::new(items.len(), |i: int| (flat_key(i, items.len() as int), items[i]))]
}

/// What normalization yields for each accepted reply shape; `None` is a
/// parse error.
pub open spec fn spec_groups_of(
    v: ValueView,
    isfx: Option<Seq<char>>,
    asfx: Option<Seq<char>>,
) -> Option<Seq<Seq<(Seq<char>, ValueView)>>> {
    match v {
        ValueView::List(items) => Some(flat_groups(items)),
        ValueView::Object(fields) => match first_field(fields, "extractions"@) {
            Some(ev) => match ev {
                ValueView::List(arr) => Some(
                    if is_category_form(arr, isfx, asfx) {
                        cat_form_groups(arr, isfx, asfx)
                    } else {
                        plain_groups(arr)
                    },
                ),
                _ => None,
            },
            None => Some(cat_map_groups(fields)),
        },
        _ => None,
    }
}

/// The fields of a wire value when it is a mapping.
fn value_as_object<'a>(v: &'a ParsedValue) -> (r: Option<&'a Vec<(String, ParsedValue)>>)
    ensures
        r is Some <==> v@ is Object,
        r is Some ==> v@->Object_0 == crate::wire::fields_view(r->0@),
{
    match v {
        ParsedValue::Object(f) => Some(f),
        ParsedValue::Null => None,
        ParsedValue::Bool(_) => None,
        ParsedValue::Number { .. } => None,
        ParsedValue::Text(_) => None,
        ParsedValue::List(_) => None,
    }
}

/// The items of a wire value when it is an array.
fn value_as_list<'a>(v: &'a ParsedValue) -> (r: Option<&'a Vec<ParsedValue>>)
    ensures
        r is Some <==> v@ is List,
        r is Some ==> v@->List_0 == crate::wire::values_view(r->0@),
{
    match v {
        ParsedValue::List(items) => Some(items),
        ParsedValue::Null => None,
        ParsedValue::Bool(_) => None,
        ParsedValue::Number { .. } => None,
        ParsedValue::Text(_) => None,
        ParsedValue::Object(_) => None,
    }
}

/// The first value stored under `key` in a field list.
pub open spec fn first_field(fields: Seq<(Seq<char>, ValueView)>, key: Seq<char>) -> Option<
    ValueView,
>
    decreases fields.len(),
{
    if fields.len() == 0 {
        None
    } else if fields[0].0 == key {
        Some(fields[0].1)
    } else {
        first_field(fields.subrange(1, fields.len() as int), key)
    }
}

pub proof fn lemma_first_field(fields: Seq<(Seq<char>, ValueView)>, key: Seq<char>)
    ensures
        first_field(fields, key) is None <==> (forall|i: int|
            0 <= i < fields.len() ==> (#[trigger] fields[i]).0 != key),
        first_field(fields, key) is Some ==> exists|i: int|
            0 <= i < fields.len() && (#[trigger] fields[i]).0 == key && first_field(fields, key)
                == Some(fields[i].1),
        forall|i: int|
            (0 <= i < fields.len() && (#[trigger] fields[i]).0 == key && (forall|m: int|
                0 <= m < i ==> (#[trigger] fields[m]).0 != key)) ==> first_field(fields, key)
                == Some(fields[i].1),
    decreases fields.len(),
{
    if fields.len() > 0 {
        lemma_first_field(fields.subrange(1, fields.len() as int), key);
        let rest0 = fields.subrange(1, fields.len() as int);
        assert forall|i: int|
            (0 <= i < fields.len() && (#[trigger] fields[i]).0 == key && (forall|m: int|
                0 <= m < i ==> (#[trigger] fields[m]).0 != key)) implies first_field(fields, key)
            == Some(fields[i].1) by {
            if i == 0 {
            } else {
                assert(fields[0].0 != key);
                assert(rest0[i - 1] == fields[i]);
                assert forall|m: int| 0 <= m < i - 1 implies (#[trigger] rest0[m]).0 != key by {
                    assert(rest0[m] == fields[m + 1]);
                }
                assert(first_field(rest0, key) == Some(rest0[i - 1].1));
            }
        }
        if fields[0].0 != key {
            let rest = fields.subrange(1, fields.len() as int);
            if first_field(rest, key) is Some {
                let i = choose|i: int|
                    0 <= i < rest.len() && (#[trigger] rest[i]).0 == key && first_field(rest, key)
                        == Some(rest[i].1);
                assert(fields[i + 1].0 == key && first_field(fields, key) == Some(
                    fields[i + 1].1,
                ));
            } else {
                assert forall|i: int| 0 <= i < fields.len() implies (#[trigger] fields[i]).0
                    != key by {
                    if i > 0 {
                        assert(rest[i - 1] == fields[i]);
                    }
                }
            }
        }
    }
}

/// One extraction group: named values from one entry of the reply.
pub type Group = Vec<(String, ParsedValue)>;

fn clone_group(g: &Group) -> (r: Group)
    ensures
        crate::wire::fields_view(r@) == crate::wire::fields_view(g@),
{
    let mut out: Group = Vec::new();
    let mut i: usize = 0;
    while i < g.len()
        invariant
            i <= g@.len(),
            out@.len() == i,
            forall|k: int|
                0 <= k < i ==> (#[trigger] out@[k]).0@ == g@[k].0@ && out@[k].1@ == g@[k].1@,
        decreases g@.len() - i,
    {
        let (k, v) = &g[i];
        out.push((k.clone(), v.clone()));
        i = i + 1;
    }
    proof {
        crate::wire::lemma_fields_view(out@);
        crate::wire::lemma_fields_view(g@);
        assert forall|k: int| 0 <= k < out@.len() implies crate::wire::fields_view(out@)[k]
            == crate::wire::fields_view(g@)[k] by {
            assert(out@[k].0@ == g@[k].0@ && out@[k].1@ == g@[k].1@);
        }
        assert(crate::wire::fields_view(out@) =~= crate::wire::fields_view(g@));
    }
    out
}

impl Resolver {
    /// Normalizes an accepted reply value into a sequence of extraction
    /// groups under one of the three accepted schemas.
    pub fn normalize_groups(&self, parsed: &ParsedValue) -> (r: Result<Vec<Group>, ResolverError>)
        ensures
            r is Ok <==> spec_groups_of(parsed@, self.idx_sfx(), self.attr_sfx()) is Some,
            r is Ok ==> groups_view(r->Ok_0@) == spec_groups_of(
                parsed@,
                self.idx_sfx(),
                self.attr_sfx(),
            )->0,
    {
        let ghost isfx = self.idx_sfx();
        let ghost asfx = self.attr_sfx();
        match parsed {
            ParsedValue::List(items) => {
                let ghost items_v = crate::wire::values_view(items@);
                let n = items.len();
                let mut group: Group = Vec::new();
                let mut i: usize = 0;
                proof {
                    crate::wire::lemma_values_view(items@);
                }
                while i < n
                    invariant
                        items_v == crate::wire::values_view(items@),
                        items_v.len() == items@.len(),
                        forall|k: int|
                            0 <= k < items@.len() ==> items_v[k] == (#[trigger] items@[k])@,
                        n == items@.len(),
                        i <= n,
                        group@.len() == i,
                        forall|k: int|
                            0 <= k < i ==> (#[trigger] group@[k]).0@ == flat_key(k, n as int)
                                && group@[k].1@ == items@[k]@,
                    decreases n - i,
                {
                    let key: String = if n == 1 {
                        String::from_str("text")
                    } else {
                        let mut k = String::from_str("text_");
                        k.append(usize_to_string(i).as_str());
                        k
                    };
                    group.push((key, items[i].clone()));
                    i = i + 1;
                }
                proof {
                    crate::wire::lemma_fields_view(group@);
                    crate::wire::lemma_values_view(items@);
                    let flat = flat_groups(items_v)[0];
                    assert forall|k: int|
                        0 <= k < items@.len() implies #[trigger] crate::wire::fields_view(
                        group@,
                    )[k] == flat[k] by {
                        assert(group@[k].0@ == flat_key(k, n as int));
                        assert(group@[k].1@ == items@[k]@);
                    }
                    assert(crate::wire::fields_view(group@) =~= flat);
                }
                let mut groups: Vec<Group> = Vec::new();
                groups.push(group);
                proof {
                    assert(groups_view(groups@) =~= flat_groups(items_v));
                }
                Ok(groups)
            },
            ParsedValue::Object(fields) => {
                proof {
                    crate::wire::lemma_fields_view(fields@);
                }
                let got = group_get(fields, &String::from_str("extractions"));
                match got {
                    Some(ev) => match value_as_list(ev) {
                        Some(arr) => self.normalize_extraction_array(arr),
                        None => Err(
                            ResolverError::Parse(
                                String::from_str(
                                    "The 'extractions' value must be a sequence (list).",
                                ),
                            ),
                        ),
                    },
                    None => Ok(self.normalize_category_map(fields)),
                }
            },
            ParsedValue::Null => Err(
                ResolverError::Parse(
                    String::from_str(
                        "Content must be an array, a mapping with an 'extractions' key, or a category-based mapping.",
                    ),
                ),
            ),
            ParsedValue::Bool(_) => Err(
                ResolverError::Parse(
                    String::from_str(
                        "Content must be an array, a mapping with an 'extractions' key, or a category-based mapping.",
                    ),
                ),
            ),
            ParsedValue::Number { .. } => Err(
                ResolverError::Parse(
                    String::from_str(
                        "Content must be an array, a mapping with an 'extractions' key, or a category-based mapping.",
                    ),
                ),
            ),
            ParsedValue::Text(_) => Err(
                ResolverError::Parse(
                    String::from_str(
                        "Content must be an array, a mapping with an 'extractions' key, or a category-based mapping.",
                    ),
                ),
            ),
        }
    }

    /// Normalizes the array under `extractions`: in category form each
    /// non-reserved key becomes one re-encoded group; otherwise the items
    /// pass through as plain groups.
    fn normalize_extraction_array(&self, arr: &Vec<ParsedValue>) -> (r: Result<
        Vec<Group>,
        ResolverError,
    >)
        ensures
            r is Ok,
            groups_view(r->Ok_0@) == (if is_category_form(
                crate::wire::values_view(arr@),
                self.idx_sfx(),
                self.attr_sfx(),
            ) {
                cat_form_groups(
                    crate::wire::values_view(arr@),
                    self.idx_sfx(),
                    self.attr_sfx(),
                )
            } else {
                plain_groups(crate::wire::values_view(arr@))
            }),
    {
        let ghost isfx = self.idx_sfx();
        let ghost asfx = self.attr_sfx();
        let ghost arr_v = crate::wire::values_view(arr@);
        proof {
            crate::wire::lemma_values_view(arr@);
        }
        // category form: every item is an object with at least one
        // non-reserved key
        let mut category_form = true;
        let mut i: usize = 0;
        while i < arr.len()
            invariant
                isfx == self.idx_sfx(),
                asfx == self.attr_sfx(),
                arr_v == crate::wire::values_view(arr@),
                arr_v.len() == arr@.len(),
                forall|k: int| 0 <= k < arr@.len() ==> arr_v[k] == (#[trigger] arr@[k])@,
                i <= arr@.len(),
                category_form <==> (forall|i2: int|
                    0 <= i2 < i ==> item_has_category_key(#[trigger] arr_v[i2], isfx, asfx)),
            decreases arr@.len() - i,
        {
            match value_as_object(&arr[i]) {
                Some(fields) => {
                    let ghost fv = crate::wire::fields_view(fields@);
                    proof {
                        crate::wire::lemma_fields_view(fields@);
                        assert(arr_v[i as int] == arr@[i as int]@);
                        assert(arr_v[i as int]->Object_0 == fv);
                    }
                    let mut has_category = false;
                    let mut j: usize = 0;
                    while j < fields.len()
                        invariant
                            isfx == self.idx_sfx(),
                            asfx == self.attr_sfx(),
                            fv == crate::wire::fields_view(fields@),
                            fv.len() == fields@.len(),
                            j <= fields@.len(),
                            has_category <==> (exists|j2: int|
                                0 <= j2 < j && !is_reserved_key(
                                    (#[trigger] fv[j2]).0,
                                    isfx,
                                    asfx,
                                )),
                        decreases fields@.len() - j,
                    {
                        proof {
                            crate::wire::lemma_fields_view(fields@);
                        }
                        if !self.key_is_reserved(&fields[j].0) {
                            proof {
                                assert(fv[j as int].0 == fields@[j as int].0@);
                                assert(!is_reserved_key(fv[j as int].0, isfx, asfx));
                            }
                            has_category = true;
                        } else {
                            proof {
                                if exists|j2: int|
                                    0 <= j2 < j + 1 && !is_reserved_key(
                                        (#[trigger] fv[j2]).0,
                                        isfx,
                                        asfx,
                                    ) {
                                    let j2 = choose|j2: int|
                                        0 <= j2 < j + 1 && !is_reserved_key(
                                            (#[trigger] fv[j2]).0,
                                            isfx,
                                            asfx,
                                        );
                                    assert(j2 < j ==> exists|j3: int|
                                        0 <= j3 < j && !is_reserved_key(
                                            (#[trigger] fv[j3]).0,
                                            isfx,
                                            asfx,
                                        ));
                                }
                            }
                        }
                        j = j + 1;
                    }
                    if !has_category {
                        proof {
                            assert(!item_has_category_key(arr_v[i as int], isfx, asfx));
                        }
                        category_form = false;
                    } else {
                        proof {
                            assert(item_has_category_key(arr_v[i as int], isfx, asfx));
                        }
                    }
                },
                None => {
                    proof {
                        assert(!item_has_category_key(arr_v[i as int], isfx, asfx));
                    }
                    category_form = false;
                },
            }
            proof {
                if category_form {
                    assert forall|i2: int|
                        0 <= i2 < i + 1 implies item_has_category_key(
                        #[trigger] arr_v[i2],
                        isfx,
                        asfx,
                    ) by {}
                }
            }
            i = i + 1;
        }
        proof {
            assert(category_form == is_category_form(arr_v, isfx, asfx));
        }
        let mut groups: Vec<Group> = Vec::new();
        if category_form {
            let ghost item_seqs = Seq::new(
                arr_v.len(),
                |i2: int| cat_item_groups(arr_v[i2], isfx, asfx),
            );
            let mut i: usize = 0;
            proof {
                assert(groups_view(groups@) =~= item_seqs.take(0).flatten());
            }
            while i < arr.len()
                invariant
                    isfx == self.idx_sfx(),
                    asfx == self.attr_sfx(),
                    arr_v == crate::wire::values_view(arr@),
                    arr_v.len() == arr@.len(),
                    forall|k: int| 0 <= k < arr@.len() ==> arr_v[k] == (#[trigger] arr@[k])@,
                    is_category_form(arr_v, isfx, asfx),
                    i <= arr@.len(),
                    item_seqs == Seq::new(
                        arr_v.len(),
                        |i2: int| cat_item_groups(arr_v[i2], isfx, asfx),
                    ),
                    groups_view(groups@) == item_seqs.take(i as int).flatten(),
                decreases arr@.len() - i,
            {
                let ghost groups_entry = groups_view(groups@);
                match value_as_object(&arr[i]) {
                    Some(fields) => {
                        let ghost fv = crate::wire::fields_view(fields@);
                        proof {
                            crate::wire::lemma_fields_view(fields@);
                            assert(arr_v[i as int] == arr@[i as int]@);
                            assert(arr_v[i as int]->Object_0 == fv);
                        }
                        let mut j: usize = 0;
                        while j < fields.len()
                            invariant
                                isfx == self.idx_sfx(),
                                asfx == self.attr_sfx(),
                                fv == crate::wire::fields_view(fields@),
                                fv.len() == fields@.len(),
                                j <= fields@.len(),
                                groups_entry == groups_view(groups@).take(
                                    groups_entry.len() as int,
                                ),
                                groups_view(groups@) == groups_entry + Seq::new(
                                    fv.len(),
                                    |j2: int|
                                        if is_reserved_key(fv[j2].0, isfx, asfx) {
                                            Seq::empty()
                                        } else {
                                            seq![cat_encode(fv, fv[j2].0, fv[j2].1, isfx, asfx)]
                                        },
                                ).take(j as int).flatten(),
                            decreases fields@.len() - j,
                        {
                            let ghost inner = Seq::new(
                                fv.len(),
                                |j2: int|
                                    if is_reserved_key(fv[j2].0, isfx, asfx) {
                                        Seq::empty()
                                    } else {
                                        seq![cat_encode(fv, fv[j2].0, fv[j2].1, isfx, asfx)]
                                    },
                            );
                            let (k, v) = &fields[j];
                            proof {
                                crate::wire::lemma_fields_view(fields@);
                                assert(fv[j as int] == (k@, v@));
                                assert(inner.take(j + 1) =~= inner.take(j as int).push(
                                    inner[j as int],
                                ));
                                crate::chunking::lemma_flatten_push(
                                    inner.take(j as int),
                                    inner[j as int],
                                );
                            }
                            if !self.key_is_reserved(k) {
                                let mut group: Group = Vec::new();
                                group.push(
                                    (
                                        String::from_str("extraction_class"),
                                        ParsedValue::Text(k.clone()),
                                    ),
                                );
                                group.push((String::from_str("extraction_text"), v.clone()));
                                if let Some(sfx) = &self.extraction_index_suffix {
                                    let sib = k.clone().concat(sfx.as_str());
                                    if let Some(idx_val) = group_get(fields, &sib) {
                                        let key = String::from_str("extraction_text").concat(
                                            sfx.as_str(),
                                        );
                                        group.push((key, idx_val.clone()));
                                    }
                                }
                                if let Some(sfx) = &self.extraction_attributes_suffix {
                                    let sib = k.clone().concat(sfx.as_str());
                                    if let Some(attr_val) = group_get(fields, &sib) {
                                        let key = String::from_str("extraction_text").concat(
                                            sfx.as_str(),
                                        );
                                        group.push((key, attr_val.clone()));
                                    }
                                }
                                proof {
                                    crate::wire::lemma_fields_view(group@);
                                    assert(crate::wire::fields_view(group@) =~= cat_encode(
                                        fv,
                                        fv[j as int].0,
                                        fv[j as int].1,
                                        isfx,
                                        asfx,
                                    ));
                                }
                                let ghost groups_old = groups_view(groups@);
                                groups.push(group);
                                proof {
                                    assert(groups_view(groups@) =~= groups_old.push(
                                        cat_encode(fv, fv[j as int].0, fv[j as int].1, isfx, asfx),
                                    ));
                                    assert(inner[j as int] == seq![
                                        cat_encode(fv, fv[j as int].0, fv[j as int].1, isfx, asfx),
                                    ]);
                                    assert(groups_view(groups@) =~= groups_entry + inner.take(
                                        j + 1,
                                    ).flatten());
                                }
                            } else {
                                proof {
                                    assert(inner[j as int] =~= Seq::<
                                        Seq<(Seq<char>, ValueView)>,
                                    >::empty());
                                    assert(groups_view(groups@) =~= groups_entry + inner.take(
                                        j + 1,
                                    ).flatten());
                                }
                            }
                            proof {
                                assert(groups_entry =~= groups_view(groups@).take(
                                    groups_entry.len() as int,
                                ));
                            }
                            j = j + 1;
                        }
                        proof {
                            let inner = Seq::new(
                                fv.len(),
                                |j2: int|
                                    if is_reserved_key(fv[j2].0, isfx, asfx) {
                                        Seq::empty()
                                    } else {
                                        seq![cat_encode(fv, fv[j2].0, fv[j2].1, isfx, asfx)]
                                    },
                            );
                            assert(inner.take(fv.len() as int) =~= inner);
                            assert(arr_v[i as int]->Object_0 == fv);
                            assert(cat_item_groups(arr_v[i as int], isfx, asfx) =~= inner.flatten());
                            assert(item_seqs[i as int] == cat_item_groups(
                                arr_v[i as int],
                                isfx,
                                asfx,
                            ));
                            assert(item_seqs.take(i + 1) =~= item_seqs.take(i as int).push(
                                item_seqs[i as int],
                            ));
                            crate::chunking::lemma_flatten_push(
                                item_seqs.take(i as int),
                                item_seqs[i as int],
                            );
                            assert(groups_view(groups@) =~= item_seqs.take(i + 1).flatten());
                        }
                    },
                    None => {
                        proof {
                            assert(item_has_category_key(arr_v[i as int], isfx, asfx));
                            assert(false);
                        }
                    },
                }
                i = i + 1;
            }
            proof {
                assert(item_seqs.take(arr_v.len() as int) =~= item_seqs);
                assert(groups_view(groups@) =~= cat_form_groups(arr_v, isfx, asfx));
            }
        } else {
            let mut i: usize = 0;
            proof {
                assert(groups_view(groups@) =~= plain_groups(arr_v).take(0));
            }
            while i < arr.len()
                invariant
                    isfx == self.idx_sfx(),
                    asfx == self.attr_sfx(),
                    arr_v == crate::wire::values_view(arr@),
                    arr_v.len() == arr@.len(),
                    forall|k: int| 0 <= k < arr@.len() ==> arr_v[k] == (#[trigger] arr@[k])@,
                    i <= arr@.len(),
                    groups_view(groups@) == plain_groups(arr_v).take(i as int),
                decreases arr@.len() - i,
            {
                let ghost groups_old = groups_view(groups@);
                match value_as_object(&arr[i]) {
                    Some(fields) => {
                        proof {
                            crate::wire::lemma_fields_view(fields@);
                            assert(arr_v[i as int] == arr@[i as int]@);
                            assert(arr_v[i as int]->Object_0 == crate::wire::fields_view(
                                fields@,
                            ));
                        }
                        let copied = clone_group(fields);
                        groups.push(copied);
                        proof {
                            assert(plain_groups(arr_v)[i as int] == crate::wire::fields_view(
                                fields@,
                            ));
                            assert(plain_groups(arr_v).take(i + 1) =~= plain_groups(arr_v).take(
                                i as int,
                            ).push(plain_groups(arr_v)[i as int]));
                            assert(groups_view(groups@) =~= plain_groups(arr_v).take(i + 1));
                        }
                    },
                    None => {
                        let other = &arr[i];
                        proof {
                            assert(arr_v[i as int] == arr@[i as int]@);
                            assert(!(arr_v[i as int] is Object));
                        }
                        let mut group: Group = Vec::new();
                        group.push((String::from_str("text"), other.clone()));
                        proof {
                            crate::wire::lemma_fields_view(group@);
                            assert(crate::wire::fields_view(group@) =~= seq![
                                ("text"@, arr_v[i as int]),
                            ]);
                            assert(plain_groups(arr_v)[i as int] == seq![
                                ("text"@, arr_v[i as int]),
                            ]);
                        }
                        groups.push(group);
                        proof {
                            assert(plain_groups(arr_v).take(i + 1) =~= plain_groups(arr_v).take(
                                i as int,
                            ).push(plain_groups(arr_v)[i as int]));
                            assert(groups_view(groups@) =~= plain_groups(arr_v).take(i + 1));
                        }
                    },
                }
                i = i + 1;
            }
            proof {
                assert(plain_groups(arr_v).take(arr_v.len() as int) =~= plain_groups(arr_v));
            }
        }
        Ok(groups)
    }

    /// Normalizes a category map: each `(category, item)` pair becomes one
    /// group, in field order.
    fn normalize_category_map(&self, fields: &Vec<(String, ParsedValue)>) -> (r: Vec<Group>)
        ensures
            groups_view(r@) == cat_map_groups(crate::wire::fields_view(fields@)),
    {
        let ghost fv = crate::wire::fields_view(fields@);
        let ghost field_seqs = Seq::new(fv.len(), |i2: int| cat_field_groups(fv[i2]));
        proof {
            crate::wire::lemma_fields_view(fields@);
        }
        let mut groups: Vec<Group> = Vec::new();
        let mut i: usize = 0;
        proof {
            assert(groups_view(groups@) =~= field_seqs.take(0).flatten());
        }
        while i < fields.len()
            invariant
                fv == crate::wire::fields_view(fields@),
                fv.len() == fields@.len(),
                forall|k: int|
                    0 <= k < fields@.len() ==> fv[k] == ((#[trigger] fields@[k]).0@, fields@[k].1@),
                field_seqs == Seq::new(fv.len(), |i2: int| cat_field_groups(fv[i2])),
                i <= fields@.len(),
                groups_view(groups@) == field_seqs.take(i as int).flatten(),
            decreases fields@.len() - i,
        {
            let ghost groups_entry = groups_view(groups@);
            let (category, value) = &fields[i];
            proof {
                assert(fv[i as int] == (category@, value@));
                assert(field_seqs.take(i + 1) =~= field_seqs.take(i as int).push(
                    field_seqs[i as int],
                ));
                crate::chunking::lemma_flatten_push(field_seqs.take(i as int), field_seqs[i as int]);
            }
            match value_as_list(value) {
                Some(items) => {
                    let ghost items_v = crate::wire::values_view(items@);
                    let ghost pair_seq = Seq::new(
                        items_v.len(),
                        |j2: int| pair_group(category@, items_v[j2]),
                    );
                    proof {
                        crate::wire::lemma_values_view(items@);
                        assert(cat_field_groups(fv[i as int]) =~= pair_seq);
                    }
                    let mut j: usize = 0;
                    while j < items.len()
                        invariant
                            items_v == crate::wire::values_view(items@),
                            items_v.len() == items@.len(),
                            forall|k: int|
                                0 <= k < items@.len() ==> items_v[k] == (#[trigger] items@[k])@,
                            pair_seq == Seq::new(
                                items_v.len(),
                                |j2: int| pair_group(category@, items_v[j2]),
                            ),
                            category@ == fv[i as int].0,
                            fv == crate::wire::fields_view(fields@),
                            j <= items@.len(),
                            groups_view(groups@) == groups_entry + pair_seq.take(j as int),
                        decreases items@.len() - j,
                    {
                        let mut group: Group = Vec::new();
                        group.push(
                            (
                                String::from_str("extraction_class"),
                                ParsedValue::Text(category.clone()),
                            ),
                        );
                        group.push((String::from_str("extraction_text"), items[j].clone()));
                        proof {
                            crate::wire::lemma_fields_view(group@);
                            assert(crate::wire::fields_view(group@) =~= pair_group(
                                category@,
                                items_v[j as int],
                            ));
                        }
                        let ghost groups_old = groups_view(groups@);
                        groups.push(group);
                        proof {
                            assert(groups_view(groups@) =~= groups_old.push(
                                pair_group(category@, items_v[j as int]),
                            ));
                            assert(groups_view(groups@) =~= groups_entry + pair_seq.take(j + 1));
                        }
                        j = j + 1;
                    }
                    proof {
                        assert(pair_seq.take(items_v.len() as int) =~= pair_seq);
                        assert(groups_view(groups@) =~= groups_entry + field_seqs[i as int]);
                        assert(groups_view(groups@) =~= field_seqs.take(i + 1).flatten());
                    }
                },
                None => {
                    let mut group: Group = Vec::new();
                    group.push(
                        (
                            String::from_str("extraction_class"),
                            ParsedValue::Text(category.clone()),
                        ),
                    );
                    group.push((String::from_str("extraction_text"), value.clone()));
                    proof {
                        crate::wire::lemma_fields_view(group@);
                        assert(crate::wire::fields_view(group@) =~= pair_group(
                            category@,
                            value@,
                        ));
                        assert(cat_field_groups(fv[i as int]) =~= seq![
                            pair_group(category@, value@),
                        ]);
                    }
                    let ghost groups_old = groups_view(groups@);
                    groups.push(group);
                    proof {
                        assert(groups_view(groups@) =~= groups_old.push(
                            pair_group(category@, value@),
                        ));
                        assert(groups_view(groups@) =~= field_seqs.take(i + 1).flatten());
                    }
                },
            }
            i = i + 1;
        }
        proof {
            assert(field_seqs.take(fv.len() as int) =~= field_seqs);
        }
        groups
    }
}

// ---------------------------------------------------------------------------
// Building ordered extractions
// ---------------------------------------------------------------------------

/// The views of a list of resolved extractions.
pub open spec fn resolved_views(s: Seq<Extraction>) -> Seq<RExtractionView> {
    s.map_values(|e: Extraction| e@)
}

/// The views of a list of extraction groups.
pub open spec fn groups_view(s: Seq<Group>) -> Seq<Seq<(Seq<char>, ValueView)>> {
    s.map_values(|g: Group| crate::wire::fields_view(g@))
}

/// The textual form of a scalar wire value; arrays and objects have none.
pub open spec fn spec_text_of(v: ValueView) -> Option<Seq<char>> {
    match v {
        ValueView::Text(s) => Some(s),
        ValueView::Number { repr, .. } => Some(repr),
        ValueView::Bool(b) => if b {
            Some("true"@)
        } else {
            Some("false"@)
        },
        ValueView::Null => Some(Seq::empty()),
        ValueView::List(_) => None,
        ValueView::Object(_) => None,
    }
}

/// The next value of the reply-scoped counter, with the counter it leaves
/// behind; exhaustion is an error.
pub open spec fn spec_counter_next(c: usize) -> Option<(usize, usize)> {
    if c < usize::MAX {
        Some((((c + 1) as usize), ((c + 1) as usize)))
    } else {
        None
    }
}

/// The extraction index for key `k` in group `g`: the integer stored under
/// `<k><suffix>` when that key is present, else the next counter value.
/// `None` is an error: a non-integer or unrepresentable index.
pub open spec fn spec_index_of(
    g: Seq<(Seq<char>, ValueView)>,
    k: Seq<char>,
    sfx: Option<Seq<char>>,
    c: usize,
) -> Option<(usize, usize)> {
    match sfx {
        Some(x) => match first_field(g, k + x) {
            Some(fv) => if fv is Number && fv->int_val is Some && fv->int_val->0 <= usize::MAX
                as u64 {
                Some(((fv->int_val->0 as usize), c))
            } else {
                None
            },
            None => spec_counter_next(c),
        },
        None => spec_counter_next(c),
    }
}

/// The view of an optional wire value.
pub open spec fn opt_value_view(o: Option<ParsedValue>) -> Option<ValueView> {
    match o {
        Some(p) => Some(p@),
        None => None,
    }
}

/// The attributes for key `k` in group `g`: the mapping or null stored under
/// `<k><suffix>` when present; any other type is an error (outer `None`).
pub open spec fn spec_attrs_of(
    g: Seq<(Seq<char>, ValueView)>,
    k: Seq<char>,
    sfx: Option<Seq<char>>,
) -> Option<Option<ValueView>> {
    match sfx {
        Some(x) => match first_field(g, k + x) {
            Some(v) => if v is Object || v is Null {
                Some(Some(v))
            } else {
                None
            },
            None => Some(None),
        },
        None => Some(None),
    }
}

/// Every value under an index-suffixed key is an integer.
pub open spec fn group_indexes_int(
    g: Seq<(Seq<char>, ValueView)>,
    sfx: Option<Seq<char>>,
) -> bool {
    match sfx {
        Some(x) => forall|i: int|
            0 <= i < g.len() ==> (ends_with_spec((#[trigger] g[i]).0, x) ==> g[i].1 is Number
                && g[i].1->is_int),
        None => true,
    }
}

/// A freshly resolved extraction, not yet aligned.
pub open spec fn mk_resolved(
    class: Seq<char>,
    text: Seq<char>,
    idx: usize,
    gi: usize,
    attrs: Option<ValueView>,
) -> RExtractionView {
    RExtractionView {
        extraction_class: class,
        extraction_text: text,
        extraction_index: idx,
        group_index: gi,
        attributes: attrs,
        token_interval: None,
        char_interval: None,
        alignment_status: None,
    }
}

/// The extraction sequence of a successful projection.
pub open spec fn proj_seq(o: Option<(Seq<RExtractionView>, usize)>) -> Seq<RExtractionView> {
    let p = o->0;
    p.0
}

/// A group in structured form: it carries both reserved keys.
pub open spec fn is_structured_group(g: Seq<(Seq<char>, ValueView)>) -> bool {
    first_field(g, "extraction_class"@) is Some && first_field(g, "extraction_text"@) is Some
}

/// The extractions projected from the non-suffixed keys of one group, from
/// position `j` on, with the counter threaded through; `None` is an error.
pub open spec fn spec_project_keys(
    g: Seq<(Seq<char>, ValueView)>,
    j: int,
    gi: usize,
    c: usize,
    isfx: Option<Seq<char>>,
    asfx: Option<Seq<char>>,
) -> Option<(Seq<RExtractionView>, usize)>
    decreases g.len() - j,
{
    if !(0 <= j < g.len()) {
        Some((Seq::empty(), c))
    } else {
        let k = g[j].0;
        let v = g[j].1;
        let skip = (isfx is Some && ends_with_spec(k, isfx->0)) || (asfx is Some
            && ends_with_spec(k, asfx->0));
        if skip {
            spec_project_keys(g, j + 1, gi, c, isfx, asfx)
        } else {
            match spec_text_of(v) {
                None => None,
                Some(text) => match spec_index_of(g, k, isfx, c) {
                    None => None,
                    Some(ic) => match spec_attrs_of(g, k, asfx) {
                        None => None,
                        Some(attrs) => match spec_project_keys(g, j + 1, gi, ic.1, isfx, asfx) {
                            None => None,
                            Some(rest) => Some(
                                (seq![mk_resolved(k, text, ic.0, gi, attrs)] + rest.0, rest.1),
                            ),
                        },
                    },
                },
            }
        }
    }
}

/// The extractions projected from one group: the structured pair when both
/// reserved keys are present, else one extraction per non-suffixed key;
/// `None` is an error, including any non-integer index value in the group.
pub open spec fn spec_project_group(
    g: Seq<(Seq<char>, ValueView)>,
    gi: usize,
    c: usize,
    isfx: Option<Seq<char>>,
    asfx: Option<Seq<char>>,
) -> Option<(Seq<RExtractionView>, usize)> {
    if !group_indexes_int(g, isfx) {
        None
    } else if is_structured_group(g) {
        let cv = first_field(g, "extraction_class"@)->0;
        if cv is Text {
            match spec_text_of(first_field(g, "extraction_text"@)->0) {
                None => None,
                Some(text) => match spec_index_of(g, "extraction_text"@, isfx, c) {
                    None => None,
                    Some(ic) => match spec_attrs_of(g, "extraction_text"@, asfx) {
                        None => None,
                        Some(attrs) => Some(
                            (seq![mk_resolved(cv->Text_0, text, ic.0, gi, attrs)], ic.1),
                        ),
                    },
                },
            }
        } else {
            None
        }
    } else {
        spec_project_keys(g, 0, gi, c, isfx, asfx)
    }
}

/// The extractions projected from the groups from index `gi` on, in group
/// order, with the reply-scoped counter threaded through.
pub open spec fn spec_project_groups(
    groups: Seq<Seq<(Seq<char>, ValueView)>>,
    gi: int,
    c: usize,
    isfx: Option<Seq<char>>,
    asfx: Option<Seq<char>>,
) -> Option<Seq<RExtractionView>>
    decreases groups.len() - gi,
{
    if !(0 <= gi < groups.len()) {
        Some(Seq::empty())
    } else {
        match spec_project_group(groups[gi], gi as usize, c, isfx, asfx) {
            None => None,
            Some(ec) => match spec_project_groups(groups, gi + 1, ec.1, isfx, asfx) {
                None => None,
                Some(rest) => Some(ec.0 + rest),
            },
        }
    }
}

/// Resolved extractions strictly before one another in the output order.
pub open spec fn ext_lt(a: RExtractionView, b: RExtractionView) -> bool {
    a.extraction_index < b.extraction_index || (a.extraction_index == b.extraction_index
        && a.group_index < b.group_index)
}

/// The index of the first minimal element by `(extraction_index,
/// group_index)`.
pub open spec fn first_min_idx(s: Seq<RExtractionView>) -> int
    decreases s.len(),
{
    if s.len() <= 1 {
        0
    } else {
        let m = first_min_idx(s.drop_last());
        if ext_lt(s.last(), s[m]) {
            s.len() - 1
        } else {
            m
        }
    }
}

pub proof fn lemma_first_min_idx(s: Seq<RExtractionView>)
    requires
        s.len() > 0,
    ensures
        0 <= first_min_idx(s) < s.len(),
        forall|k: int| 0 <= k < s.len() ==> ext_le(s[first_min_idx(s)], #[trigger] s[k]),
    decreases s.len(),
{
    if s.len() > 1 {
        lemma_first_min_idx(s.drop_last());
        let m = first_min_idx(s.drop_last());
        assert forall|k: int| 0 <= k < s.len() implies ext_le(
            s[first_min_idx(s)],
            #[trigger] s[k],
        ) by {
            if k < s.len() - 1 {
                assert(s.drop_last()[k] == s[k]);
                assert(s.drop_last()[m] == s[m]);
            }
        }
    }
}

/// The stable sort of resolved extractions: the first minimal element comes
/// out first, repeatedly.
pub open spec fn spec_sort_exts(s: Seq<RExtractionView>) -> Seq<RExtractionView>
    decreases s.len(),
    via spec_sort_exts_decreases
{
    if s.len() == 0 {
        Seq::empty()
    } else {
        seq![s[first_min_idx(s)]] + spec_sort_exts(s.remove(first_min_idx(s)))
    }
}

#[via_fn]
proof fn spec_sort_exts_decreases(s: Seq<RExtractionView>) {
    if s.len() > 0 {
        lemma_first_min_idx(s);
    }
}

proof fn lemma_resolved_views_remove(s: Seq<Extraction>, i: int)
    requires
        0 <= i < s.len(),
    ensures
        resolved_views(s.remove(i)) =~= resolved_views(s).remove(i),
{
    assert forall|k: int| 0 <= k < s.len() - 1 implies resolved_views(s.remove(i))[k]
        == resolved_views(s).remove(i)[k] by {
        if k < i {
            assert(s.remove(i)[k] == s[k]);
        } else {
            assert(s.remove(i)[k] == s[k + 1]);
        }
    }
}

/// Order of resolved extractions: by extraction index, then group index.
pub open spec fn ext_le(a: RExtractionView, b: RExtractionView) -> bool {
    a.extraction_index < b.extraction_index || (a.extraction_index == b.extraction_index
        && a.group_index <= b.group_index)
}

/// The list is sorted by `(extraction_index, group_index)` non-decreasing.
pub open spec fn sorted_extractions(s: Seq<Extraction>) -> bool {
    forall|i: int, j: int| 0 <= i < j < s.len() ==> ext_le(#[trigger] s[i]@, #[trigger] s[j]@)
}

/// Sorts extractions by `(extraction_index, group_index)`, keeping the first
/// of equal elements first.
fn sort_extractions(input: Vec<Extraction>) -> (r: Vec<Extraction>)
    ensures
        resolved_views(r@) == spec_sort_exts(resolved_views(input@)),
        sorted_extractions(r@),
        r@.len() == input@.len(),
        (forall|j: int| 0 <= j < input@.len() ==> unaligned(#[trigger] input@[j]@)) ==> (forall|
            k: int,
        | 0 <= k < r@.len() ==> unaligned(#[trigger] r@[k]@)),
{
    let mut rest = input;
    let mut out: Vec<Extraction> = Vec::new();
    let ghost total = rest@.len();
    let ghost orig_views = resolved_views(rest@);
    let ghost all_unaligned = forall|j: int| 0 <= j < rest@.len() ==> unaligned(
        #[trigger] rest@[j]@,
    );
    proof {
        assert(resolved_views(out@) + spec_sort_exts(resolved_views(rest@)) =~= spec_sort_exts(
            orig_views,
        ));
    }
    while rest.len() > 0
        invariant
            out@.len() + rest@.len() == total,
            spec_sort_exts(orig_views) == resolved_views(out@) + spec_sort_exts(
                resolved_views(rest@),
            ),
            all_unaligned ==> (forall|j: int|
                0 <= j < rest@.len() ==> unaligned(#[trigger] rest@[j]@)),
            all_unaligned ==> (forall|k: int| 0 <= k < out@.len() ==> unaligned(
                #[trigger] out@[k]@,
            )),
            sorted_extractions(out@),
            forall|i: int, j: int|
                0 <= i < out@.len() && 0 <= j < rest@.len() ==> ext_le(
                    #[trigger] out@[i]@,
                    #[trigger] rest@[j]@,
                ),
        ensures
            rest@.len() == 0,
            spec_sort_exts(orig_views) == resolved_views(out@) + spec_sort_exts(
                resolved_views(rest@),
            ),
            sorted_extractions(out@),
            out@.len() == total,
            all_unaligned ==> (forall|k: int| 0 <= k < out@.len() ==> unaligned(
                #[trigger] out@[k]@,
            )),
        decreases rest@.len(),
    {
        // first position holding a minimal element
        let mut m: usize = 0;
        let mut j: usize = 1;
        while j < rest.len()
            invariant
                rest@.len() > 0,
                j <= rest@.len(),
                m < j || (m == 0 && j <= 1),
                m < rest@.len(),
                m as int == first_min_idx(resolved_views(rest@).take(j as int)),
                forall|k: int| 0 <= k < j ==> ext_le(rest@[m as int]@, #[trigger] rest@[k]@),
            decreases rest@.len() - j,
        {
            let better = rest[j].extraction_index < rest[m].extraction_index || (
            rest[j].extraction_index == rest[m].extraction_index && rest[j].group_index
                < rest[m].group_index);
            proof {
                let rv = resolved_views(rest@);
                assert(rv.take(j + 1).drop_last() =~= rv.take(j as int));
                assert(rv.take(j + 1).last() == rest@[j as int]@);
                assert(better == ext_lt(rest@[j as int]@, rest@[m as int]@));
            }
            if better {
                m = j;
            }
            j = j + 1;
        }
        proof {
            assert(resolved_views(rest@).take(rest@.len() as int) =~= resolved_views(rest@));
            assert(m as int == first_min_idx(resolved_views(rest@)));
        }
        let ghost old_rest = rest@;
        let x = rest.remove(m);
        out.push(x);
        proof {
            let orv = resolved_views(old_rest);
            lemma_resolved_views_remove(old_rest, m as int);
            assert(resolved_views(rest@) =~= orv.remove(m as int));
            assert(spec_sort_exts(orv) == seq![orv[m as int]] + spec_sort_exts(
                orv.remove(m as int),
            ));
            assert(resolved_views(out@) =~= resolved_views(out@.drop_last()) + seq![
                orv[m as int],
            ]);
            assert(resolved_views(out@) + spec_sort_exts(resolved_views(rest@))
                =~= resolved_views(out@.drop_last()) + spec_sort_exts(orv));
            assert forall|i: int, jj: int|
                0 <= i < out@.len() && 0 <= jj < rest@.len() implies ext_le(
                #[trigger] out@[i]@,
                #[trigger] rest@[jj]@,
            ) by {
                if jj < m {
                    assert(rest@[jj] == old_rest[jj]);
                } else {
                    assert(rest@[jj] == old_rest[jj + 1]);
                }
                if i < out@.len() - 1 {
                } else {
                    assert(out@[i] == old_rest[m as int]);
                }
            }
        }
    }
    proof {
        assert(resolved_views(rest@).len() == 0);
        assert(spec_sort_exts(resolved_views(rest@)) =~= Seq::<RExtractionView>::empty());
        assert(resolved_views(out@) + spec_sort_exts(resolved_views(rest@)) =~= resolved_views(
            out@,
        ));
    }
    out
}

/// Whether a wire value is an integer number.
fn value_is_int(v: &ParsedValue) -> (r: bool)
    ensures
        r == (v@ is Number && v@->is_int),
{
    match v {
        ParsedValue::Number { is_int, .. } => *is_int,
        ParsedValue::Null => false,
        ParsedValue::Bool(_) => false,
        ParsedValue::Text(_) => false,
        ParsedValue::List(_) => false,
        ParsedValue::Object(_) => false,
    }
}

/// The text of a wire value when it is a string.
fn value_as_text(v: &ParsedValue) -> (r: Option<String>)
    ensures
        r is Some <==> v@ is Text,
        r is Some ==> r->0@ == v@->Text_0,
{
    match v {
        ParsedValue::Text(s) => Some(s.clone()),
        ParsedValue::Null => None,
        ParsedValue::Bool(_) => None,
        ParsedValue::Number { .. } => None,
        ParsedValue::List(_) => None,
        ParsedValue::Object(_) => None,
    }
}

impl Resolver {
    /// The textual form of a scalar value; arrays and objects are invalid
    /// extraction texts.
    pub fn convert_to_text(&self, value: &ParsedValue) -> (r: Result<String, ResolverError>)
        ensures
            r is Ok <==> spec_text_of(value@) is Some,
            r is Ok ==> Some(r->Ok_0@) == spec_text_of(value@),
    {
        match value {
            ParsedValue::Text(s) => Ok(s.clone()),
            ParsedValue::Number { repr, .. } => Ok(repr.clone()),
            ParsedValue::Bool(b) => {
                if *b {
                    Ok(String::from_str("true"))
                } else {
                    Ok(String::from_str("false"))
                }
            },
            ParsedValue::Null => Ok(String::new()),
            ParsedValue::List(_) => Err(
                ResolverError::Other(
                    String::from_str("Extraction text must be string or number."),
                ),
            ),
            ParsedValue::Object(_) => Err(
                ResolverError::Other(
                    String::from_str("Extraction text must be string or number."),
                ),
            ),
        }
    }

    /// The extraction index: the value under `<key><index_suffix>` when
    /// present, else the next value of the reply-scoped counter.
    fn get_extraction_index(
        &self,
        group: &Group,
        key: &String,
        default_counter: &mut usize,
    ) -> (r: Result<usize, ResolverError>)
        ensures
            *final(default_counter) >= *old(default_counter),
            r is Ok <==> spec_index_of(
                crate::wire::fields_view(group@),
                key@,
                self.idx_sfx(),
                *old(default_counter),
            ) is Some,
            r is Ok ==> Some((r->Ok_0, *final(default_counter))) == spec_index_of(
                crate::wire::fields_view(group@),
                key@,
                self.idx_sfx(),
                *old(default_counter),
            ),
            r is Err ==> *final(default_counter) == *old(default_counter),
    {
        if let Some(sfx) = &self.extraction_index_suffix {
            let index_key = key.clone().concat(sfx.as_str());
            if let Some(idx_val) = group_get(group, &index_key) {
                match idx_val {
                    ParsedValue::Number { int_val: Some(u), .. } => {
                        if *u <= usize::MAX as u64 {
                            return Ok(*u as usize);
                        } else {
                            return Err(
                                ResolverError::Other(String::from_str("Index must be integer.")),
                            );
                        }
                    },
                    ParsedValue::Number { int_val: None, .. } => {
                        return Err(
                            ResolverError::Other(String::from_str("Index must be integer.")),
                        );
                    },
                    ParsedValue::Null => {
                        return Err(
                            ResolverError::Other(String::from_str("Index must be integer.")),
                        );
                    },
                    ParsedValue::Bool(_) => {
                        return Err(
                            ResolverError::Other(String::from_str("Index must be integer.")),
                        );
                    },
                    ParsedValue::Text(_) => {
                        return Err(
                            ResolverError::Other(String::from_str("Index must be integer.")),
                        );
                    },
                    ParsedValue::List(_) => {
                        return Err(
                            ResolverError::Other(String::from_str("Index must be integer.")),
                        );
                    },
                    ParsedValue::Object(_) => {
                        return Err(
                            ResolverError::Other(String::from_str("Index must be integer.")),
                        );
                    },
                }
            }
        }
        if *default_counter == usize::MAX {
            return Err(ResolverError::Other(String::from_str("Index must be integer.")));
        }
        *default_counter = *default_counter + 1;
        Ok(*default_counter)
    }

    /// The attributes stored under `<key><attributes_suffix>`: a mapping or
    /// null when present, anything else is an error.
    fn get_attributes(&self, group: &Group, key: &String) -> (r: Result<
        Option<ParsedValue>,
        ResolverError,
    >)
        ensures
            r is Ok <==> spec_attrs_of(
                crate::wire::fields_view(group@),
                key@,
                self.attr_sfx(),
            ) is Some,
            r is Ok ==> Some(opt_value_view(r->Ok_0)) == spec_attrs_of(
                crate::wire::fields_view(group@),
                key@,
                self.attr_sfx(),
            ),
    {
        if let Some(sfx) = &self.extraction_attributes_suffix {
            let attr_key = key.clone().concat(sfx.as_str());
            if let Some(v) = group_get(group, &attr_key) {
                match v {
                    ParsedValue::Object(_) => {
                        return Ok(Some(v.clone()));
                    },
                    ParsedValue::Null => {
                        return Ok(Some(v.clone()));
                    },
                    ParsedValue::Bool(_) => {
                        return Err(
                            ResolverError::Other(
                                String::from_str("Attributes must be a mapping or null."),
                            ),
                        );
                    },
                    ParsedValue::Number { .. } => {
                        return Err(
                            ResolverError::Other(
                                String::from_str("Attributes must be a mapping or null."),
                            ),
                        );
                    },
                    ParsedValue::Text(_) => {
                        return Err(
                            ResolverError::Other(
                                String::from_str("Attributes must be a mapping or null."),
                            ),
                        );
                    },
                    ParsedValue::List(_) => {
                        return Err(
                            ResolverError::Other(
                                String::from_str("Attributes must be a mapping or null."),
                            ),
                        );
                    },
                }
            }
        }
        Ok(None)
    }

    /// Builds extractions from groups and sorts them by
    /// `(extraction_index, group_index)`: the result is exactly the sorted
    /// projection of the groups, and an error arises exactly when some group
    /// does not project.
    pub fn extract_ordered_extractions_impl(&self, extraction_data: &Vec<Group>) -> (r: Result<
        Vec<Extraction>,
        ResolverError,
    >)
        ensures
            r is Ok <==> spec_project_groups(
                groups_view(extraction_data@),
                0,
                0,
                self.idx_sfx(),
                self.attr_sfx(),
            ) is Some,
            r is Ok ==> resolved_views(r->Ok_0@) == spec_sort_exts(
                spec_project_groups(
                    groups_view(extraction_data@),
                    0,
                    0,
                    self.idx_sfx(),
                    self.attr_sfx(),
                )->0,
            ),
            r is Ok ==> sorted_extractions(r->Ok_0@),
            r is Ok ==> forall|k: int|
                0 <= k < r->Ok_0@.len() ==> unaligned(#[trigger] r->Ok_0@[k]@),
    {
        let ghost gv = groups_view(extraction_data@);
        let ghost isfx = self.idx_sfx();
        let ghost asfx = self.attr_sfx();
        let mut processed: Vec<Extraction> = Vec::new();
        let mut default_counter: usize = 0;
        let class_key = String::from_str("extraction_class");
        let text_key = String::from_str("extraction_text");
        let mut group_index: usize = 0;
        proof {
            if spec_project_groups(gv, 0, 0, isfx, asfx) is Some {
                assert(resolved_views(processed@) + spec_project_groups(gv, 0, 0, isfx, asfx)->0
                    =~= spec_project_groups(gv, 0, 0, isfx, asfx)->0);
            }
        }
        while group_index < extraction_data.len()
            invariant
                gv == groups_view(extraction_data@),
                isfx == self.idx_sfx(),
                asfx == self.attr_sfx(),
                class_key@ == "extraction_class"@,
                text_key@ == "extraction_text"@,
                group_index <= extraction_data@.len(),
                forall|k: int| 0 <= k < processed@.len() ==> unaligned(#[trigger] processed@[k]@),
                spec_project_groups(gv, 0, 0, isfx, asfx) is Some <==> spec_project_groups(
                    gv,
                    group_index as int,
                    default_counter,
                    isfx,
                    asfx,
                ) is Some,
                spec_project_groups(gv, 0, 0, isfx, asfx) is Some ==> spec_project_groups(
                    gv,
                    0,
                    0,
                    isfx,
                    asfx,
                )->0 == resolved_views(processed@) + spec_project_groups(
                    gv,
                    group_index as int,
                    default_counter,
                    isfx,
                    asfx,
                )->0,
            decreases extraction_data@.len() - group_index,
        {
            let group = &extraction_data[group_index];
            let ghost gview = crate::wire::fields_view(group@);
            let ghost c_entry = default_counter;
            let ghost processed_entry = resolved_views(processed@);
            let ghost gi_int = group_index as int;
            proof {
                assert(gv[gi_int] == gview);
                crate::wire::lemma_fields_view(group@);
            }
            // reject non-integer index values anywhere in the group
            match &self.extraction_index_suffix {
                Some(sfx) => {
                    let mut vi: usize = 0;
                    while vi < group.len()
                        invariant
                            gv == groups_view(extraction_data@),
                            isfx == self.idx_sfx(),
                            asfx == self.attr_sfx(),
                            self.extraction_index_suffix is Some,
                            sfx@ == self.extraction_index_suffix->0@,
                            gi_int == group_index as int,
                            group_index < extraction_data@.len(),
                            group@ == extraction_data@[gi_int]@,
                            gview == crate::wire::fields_view(group@),
                            gview == gv[gi_int],
                            c_entry == default_counter,
                            spec_project_groups(gv, 0, 0, isfx, asfx) is Some
                                <==> spec_project_groups(
                                gv,
                                gi_int,
                                c_entry,
                                isfx,
                                asfx,
                            ) is Some,
                            vi <= group@.len(),
                            forall|i2: int|
                                0 <= i2 < vi ==> (ends_with_spec(
                                    (#[trigger] gview[i2]).0,
                                    sfx@,
                                ) ==> gview[i2].1 is Number && gview[i2].1->is_int),
                        decreases group@.len() - vi,
                    {
                        let (k, v) = &group[vi];
                        proof {
                            crate::wire::lemma_fields_view(group@);
                            assert(gview[vi as int] == (k@, v@));
                        }
                        if str_ends_with(k, sfx) {
                            let ok = value_is_int(v);
                            if !ok {
                                proof {
                                    assert(isfx == Some(sfx@));
                                    assert(ends_with_spec(gview[vi as int].0, isfx->0));
                                    assert(!group_indexes_int(gview, isfx));
                                    assert(spec_project_group(
                                        gview,
                                        group_index as usize,
                                        c_entry,
                                        isfx,
                                        asfx,
                                    ) is None);
                                    assert(spec_project_groups(
                                        gv,
                                        gi_int,
                                        c_entry,
                                        isfx,
                                        asfx,
                                    ) is None);
                                }
                                return Err(
                                    ResolverError::Other(
                                        String::from_str("Index values must be integers."),
                                    ),
                                );
                            }
                        }
                        vi = vi + 1;
                    }
                    proof {
                        crate::wire::lemma_fields_view(group@);
                        assert(isfx == Some(sfx@));
                        assert(group_indexes_int(gview, isfx));
                    }
                },
                None => {
                    proof {
                        assert(isfx is None);
                        assert(group_indexes_int(gview, isfx));
                    }
                },
            }
            let has_class = group_get(group, &class_key).is_some();
            let has_text = group_get(group, &text_key).is_some();
            let ghost mut emitted: Seq<RExtractionView> = Seq::empty();
            if has_class && has_text {
                proof {
                    assert(is_structured_group(gview));
                }
                let class_val = match group_get(group, &class_key) {
                    Some(v) => v,
                    None => unreached(),
                };
                let extraction_class = match value_as_text(class_val) {
                    Some(s) => s,
                    None => {
                        proof {
                            assert(!(first_field(gview, "extraction_class"@)->0 is Text));
                            assert(spec_project_group(
                                gview,
                                group_index as usize,
                                c_entry,
                                isfx,
                                asfx,
                            ) is None);
                            assert(spec_project_groups(gv, gi_int, c_entry, isfx, asfx) is None);
                        }
                        return Err(
                            ResolverError::Parse(
                                String::from_str("extraction_class must be a string"),
                            ),
                        );
                    },
                };
                let text_val = match group_get(group, &text_key) {
                    Some(v) => v.clone(),
                    None => unreached(),
                };
                let extraction_text = match self.convert_to_text(&text_val) {
                    Ok(tx) => tx,
                    Err(e) => {
                        proof {
                            assert(spec_text_of(first_field(gview, "extraction_text"@)->0)
                                is None);
                            assert(spec_project_group(
                                gview,
                                group_index as usize,
                                c_entry,
                                isfx,
                                asfx,
                            ) is None);
                            assert(spec_project_groups(gv, gi_int, c_entry, isfx, asfx) is None);
                        }
                        return Err(e);
                    },
                };
                let extraction_index = match self.get_extraction_index(
                    group,
                    &text_key,
                    &mut default_counter,
                ) {
                    Ok(i) => i,
                    Err(e) => {
                        proof {
                            assert(spec_index_of(gview, "extraction_text"@, isfx, c_entry)
                                is None);
                            assert(spec_project_group(
                                gview,
                                group_index as usize,
                                c_entry,
                                isfx,
                                asfx,
                            ) is None);
                            assert(spec_project_groups(gv, gi_int, c_entry, isfx, asfx) is None);
                        }
                        return Err(e);
                    },
                };
                let attributes = match self.get_attributes(group, &text_key) {
                    Ok(a) => a,
                    Err(e) => {
                        proof {
                            assert(spec_attrs_of(gview, "extraction_text"@, asfx) is None);
                            assert(spec_project_group(
                                gview,
                                group_index as usize,
                                c_entry,
                                isfx,
                                asfx,
                            ) is None);
                            assert(spec_project_groups(gv, gi_int, c_entry, isfx, asfx) is None);
                        }
                        return Err(e);
                    },
                };
                let ghost av = opt_value_view(attributes);
                let ext = Extraction::new(
                    extraction_class,
                    extraction_text,
                    extraction_index,
                    group_index,
                    attributes,
                );
                proof {
                    emitted = seq![ext@];
                    assert(ext@ == mk_resolved(
                        first_field(gview, "extraction_class"@)->0->Text_0,
                        spec_text_of(first_field(gview, "extraction_text"@)->0)->0,
                        extraction_index,
                        group_index as usize,
                        av,
                    ));
                    assert(spec_project_group(gview, group_index as usize, c_entry, isfx, asfx)
                        == Some((emitted, default_counter)));
                }
                let ghost processed_old = processed@;
                processed.push(ext);
                proof {
                    assert(resolved_views(processed@) =~= resolved_views(processed_old).push(
                        ext@,
                    ));
                    assert(resolved_views(processed_old).push(ext@) =~= processed_entry
                        + emitted);
                }
            } else {
                proof {
                    assert(!is_structured_group(gview));
                }
                let mut ki: usize = 0;
                while ki < group.len()
                    invariant
                        gv == groups_view(extraction_data@),
                        isfx == self.idx_sfx(),
                        asfx == self.attr_sfx(),
                        gview == crate::wire::fields_view(group@),
                        gview == gv[gi_int],
                        gi_int == group_index as int,
                        group_indexes_int(gview, isfx),
                        !is_structured_group(gview),
                        spec_project_groups(gv, 0, 0, isfx, asfx) is Some
                            <==> spec_project_groups(gv, gi_int, c_entry, isfx, asfx) is Some,
                        ki <= group@.len(),
                        group_index < extraction_data@.len(),
                        group@ == extraction_data@[gi_int]@,
                        forall|k: int|
                            0 <= k < processed@.len() ==> unaligned(#[trigger] processed@[k]@),
                        resolved_views(processed@) == processed_entry + emitted,
                        spec_project_keys(gview, 0, group_index as usize, c_entry, isfx, asfx)
                            is Some <==> spec_project_keys(
                            gview,
                            ki as int,
                            group_index as usize,
                            default_counter,
                            isfx,
                            asfx,
                        ) is Some,
                        spec_project_keys(gview, 0, group_index as usize, c_entry, isfx, asfx)
                            is Some ==> {
                            let whole = spec_project_keys(
                                gview,
                                0,
                                group_index as usize,
                                c_entry,
                                isfx,
                                asfx,
                            )->0;
                            let rest = spec_project_keys(
                                gview,
                                ki as int,
                                group_index as usize,
                                default_counter,
                                isfx,
                                asfx,
                            )->0;
                            whole.0 == emitted + rest.0 && whole.1 == rest.1
                        },
                    decreases group@.len() - ki,
                {
                    let ghost kiI = ki as int;
                    let ghost giU = group_index as usize;
                    let ghost c_iter = default_counter;
                    let (k, v) = &group[ki];
                    proof {
                        crate::wire::lemma_fields_view(group@);
                        assert(gview[kiI] == (k@, v@));
                    }
                    let mut skip = false;
                    if let Some(sfx) = &self.extraction_index_suffix {
                        if str_ends_with(k, sfx) {
                            skip = true;
                        }
                    }
                    if let Some(sfx) = &self.extraction_attributes_suffix {
                        if str_ends_with(k, sfx) {
                            skip = true;
                        }
                    }
                    proof {
                        assert(skip == ((isfx is Some && ends_with_spec(gview[kiI].0, isfx->0))
                            || (asfx is Some && ends_with_spec(gview[kiI].0, asfx->0))));
                    }
                    if !skip {
                        let text_val = match self.convert_to_text(v) {
                            Ok(tx) => tx,
                            Err(e) => {
                                proof {
                                    assert(spec_text_of(gview[kiI].1) is None);
                                    assert(spec_project_keys(
                                        gview,
                                        kiI,
                                        giU,
                                        c_iter,
                                        isfx,
                                        asfx,
                                    ) is None);
                                    assert(spec_project_keys(gview, 0, giU, c_entry, isfx, asfx)
                                        is None);
                                    assert(spec_project_group(gview, giU, c_entry, isfx, asfx)
                                        is None);
                                    assert(spec_project_groups(gv, gi_int, c_entry, isfx, asfx)
                                        is None);
                                }
                                return Err(e);
                            },
                        };
                        let extraction_index = match self.get_extraction_index(
                            group,
                            k,
                            &mut default_counter,
                        ) {
                            Ok(i) => i,
                            Err(e) => {
                                proof {
                                    assert(spec_index_of(gview, gview[kiI].0, isfx, c_iter)
                                        is None);
                                    assert(spec_project_keys(
                                        gview,
                                        kiI,
                                        giU,
                                        c_iter,
                                        isfx,
                                        asfx,
                                    ) is None);
                                    assert(spec_project_keys(gview, 0, giU, c_entry, isfx, asfx)
                                        is None);
                                    assert(spec_project_group(gview, giU, c_entry, isfx, asfx)
                                        is None);
                                    assert(spec_project_groups(gv, gi_int, c_entry, isfx, asfx)
                                        is None);
                                }
                                return Err(e);
                            },
                        };
                        let attributes = match self.get_attributes(group, k) {
                            Ok(a) => a,
                            Err(e) => {
                                proof {
                                    assert(spec_attrs_of(gview, gview[kiI].0, asfx) is None);
                                    assert(spec_project_keys(
                                        gview,
                                        kiI,
                                        giU,
                                        c_iter,
                                        isfx,
                                        asfx,
                                    ) is None);
                                    assert(spec_project_keys(gview, 0, giU, c_entry, isfx, asfx)
                                        is None);
                                    assert(spec_project_group(gview, giU, c_entry, isfx, asfx)
                                        is None);
                                    assert(spec_project_groups(gv, gi_int, c_entry, isfx, asfx)
                                        is None);
                                }
                                return Err(e);
                            },
                        };
                        let ghost av = opt_value_view(attributes);
                        let ext = Extraction::new(
                            k.clone(),
                            text_val,
                            extraction_index,
                            group_index,
                            attributes,
                        );
                        let ghost emitted_old = emitted;
                        proof {
                            assert(ext@ == mk_resolved(
                                gview[kiI].0,
                                spec_text_of(gview[kiI].1)->0,
                                extraction_index,
                                giU,
                                av,
                            ));
                            assert(spec_index_of(gview, gview[kiI].0, isfx, c_iter) == Some(
                                (extraction_index, default_counter),
                            ));
                            assert(spec_project_keys(gview, kiI, giU, c_iter, isfx, asfx) is Some
                                <==> spec_project_keys(
                                gview,
                                kiI + 1,
                                giU,
                                default_counter,
                                isfx,
                                asfx,
                            ) is Some);
                            if spec_project_keys(gview, kiI, giU, c_iter, isfx, asfx) is Some {
                                assert(proj_seq(
                                    spec_project_keys(gview, kiI, giU, c_iter, isfx, asfx),
                                ) =~= seq![ext@] + proj_seq(
                                    spec_project_keys(
                                        gview,
                                        kiI + 1,
                                        giU,
                                        default_counter,
                                        isfx,
                                        asfx,
                                    ),
                                ));
                            }
                            emitted = emitted.push(ext@);
                        }
                        let ghost processed_old = processed@;
                        processed.push(ext);
                        proof {
                            assert(resolved_views(processed@) =~= resolved_views(
                                processed_old,
                            ).push(ext@));
                            assert(resolved_views(processed_old).push(ext@) =~= processed_entry
                                + emitted);
                            if spec_project_keys(gview, 0, giU, c_entry, isfx, asfx) is Some {
                                let whole = spec_project_keys(
                                    gview,
                                    0,
                                    giU,
                                    c_entry,
                                    isfx,
                                    asfx,
                                )->0;
                                let tail = proj_seq(
                                    spec_project_keys(
                                        gview,
                                        kiI + 1,
                                        giU,
                                        default_counter,
                                        isfx,
                                        asfx,
                                    ),
                                );
                                assert(whole.0 =~= emitted_old + (seq![ext@] + tail));
                                assert(emitted_old + (seq![ext@] + tail) =~= emitted + tail);
                            }
                        }
                    } else {
                        proof {
                            assert(spec_project_keys(gview, kiI, giU, default_counter, isfx, asfx)
                                == spec_project_keys(
                                gview,
                                kiI + 1,
                                giU,
                                default_counter,
                                isfx,
                                asfx,
                            ));
                        }
                    }
                    ki = ki + 1;
                }
                proof {
                    crate::wire::lemma_fields_view(group@);
                    assert(spec_project_keys(
                        gview,
                        group@.len() as int,
                        group_index as usize,
                        default_counter,
                        isfx,
                        asfx,
                    ) == Some((Seq::<RExtractionView>::empty(), default_counter)));
                    if spec_project_keys(gview, 0, group_index as usize, c_entry, isfx, asfx)
                        is Some {
                        let whole = spec_project_keys(
                            gview,
                            0,
                            group_index as usize,
                            c_entry,
                            isfx,
                            asfx,
                        )->0;
                        assert(whole.0 =~= emitted);
                    }
                    assert(spec_project_keys(gview, 0, group_index as usize, c_entry, isfx, asfx)
                        is Some);
                    assert(spec_project_group(gview, group_index as usize, c_entry, isfx, asfx)
                        == Some((emitted, default_counter)));
                }
            }
            proof {
                assert(spec_project_group(gview, group_index as usize, c_entry, isfx, asfx)
                    == Some((emitted, default_counter)));
                assert(spec_project_groups(gv, gi_int, c_entry, isfx, asfx) is Some
                    <==> spec_project_groups(gv, gi_int + 1, default_counter, isfx, asfx) is Some);
                if spec_project_groups(gv, 0, 0, isfx, asfx) is Some {
                    assert(spec_project_groups(gv, gi_int, c_entry, isfx, asfx)->0 == emitted
                        + spec_project_groups(gv, gi_int + 1, default_counter, isfx, asfx)->0);
                    assert(processed_entry + (emitted + spec_project_groups(
                        gv,
                        gi_int + 1,
                        default_counter,
                        isfx,
                        asfx,
                    )->0) =~= resolved_views(processed@) + spec_project_groups(
                        gv,
                        gi_int + 1,
                        default_counter,
                        isfx,
                        asfx,
                    )->0);
                }
            }
            group_index = group_index + 1;
        }
        proof {
            assert(spec_project_groups(gv, group_index as int, default_counter, isfx, asfx)
                == Some(Seq::<RExtractionView>::empty()));
            if spec_project_groups(gv, 0, 0, isfx, asfx) is Some {
                assert(spec_project_groups(gv, 0, 0, isfx, asfx)->0 =~= resolved_views(
                    processed@,
                ));
            }
        }
        Ok(sort_extractions(processed))
    }

    /// What resolving a reply yields under a configuration: the trimmed input
    /// is non-empty, the (fenced) content parses, the parsed value
    /// normalizes, every group projects, and the output is the sorted
    /// projection.
    pub open spec fn resolution_ok(&self, input: Seq<char>, out: Seq<RExtractionView>) -> bool {
        exists|content: Seq<char>, v: ValueView|
            #![trigger parsed_of(self.format_is_yaml, content), spec_groups_of(v, self.idx_sfx(), self.attr_sfx())]
            {
                &&& parsed_of(self.format_is_yaml, content) == Some(v)
                &&& spec_trim(input).len() != 0
                &&& if self.fence_output {
                    exists|a: int, b: int|
                        fence_extraction_ok(input, self.format_is_yaml, a, b, content)
                } else {
                    content == input
                }
                &&& spec_groups_of(v, self.idx_sfx(), self.attr_sfx()) is Some
                &&& spec_project_groups(
                    spec_groups_of(v, self.idx_sfx(), self.attr_sfx())->0,
                    0,
                    0,
                    self.idx_sfx(),
                    self.attr_sfx(),
                ) is Some
                &&& out == spec_sort_exts(
                    spec_project_groups(
                        spec_groups_of(v, self.idx_sfx(), self.attr_sfx())->0,
                        0,
                        0,
                        self.idx_sfx(),
                        self.attr_sfx(),
                    )->0,
                )
            }
    }

    /// A reply resolves under a configuration: some output satisfies
    /// `resolution_ok`.
    pub open spec fn resolvable(&self, input: Seq<char>) -> bool {
        exists|out: Seq<RExtractionView>| #[trigger] self.resolution_ok(input, out)
    }

    /// Parses a reply string into ordered extractions: exactly the sorted
    /// projection of the normalized parsed reply, with an error exactly when
    /// some stage refuses the reply.
    pub fn parse_extractions_from_string(&self, input: &str) -> (r: Result<
        Vec<Extraction>,
        ResolverError,
    >)
        ensures
            r is Ok <==> self.resolvable(input@),
            r is Ok ==> self.resolution_ok(input@, resolved_views(r->Ok_0@)),
            r is Ok ==> sorted_extractions(r->Ok_0@),
            r is Ok ==> forall|k: int|
                0 <= k < r->Ok_0@.len() ==> unaligned(#[trigger] r->Ok_0@[k]@),
    {
        let ghost isfx = self.idx_sfx();
        let ghost asfx = self.attr_sfx();
        let parsed = match self.extract_and_parse_content(input) {
            Ok(v) => v,
            Err(e) => {
                proof {
                    assert forall|out: Seq<RExtractionView>|
                        !self.resolution_ok(input@, out) by {
                        if self.resolution_ok(input@, out) {
                            let (content, v) = choose|content: Seq<char>, v: ValueView|
                                #![trigger parsed_of(self.format_is_yaml, content), spec_groups_of(v, self.idx_sfx(), self.attr_sfx())]
                                {
                                    &&& parsed_of(self.format_is_yaml, content)
                                        == Some(v)
                                    &&& spec_trim(input@).len() != 0
                                    &&& if self.fence_output {
                                        exists|a: int, b: int|
                                            fence_extraction_ok(
                                                input@,
                                                self.format_is_yaml,
                                                a,
                                                b,
                                                content,
                                            )
                                    } else {
                                        content == input@
                                    }
                                    &&& spec_groups_of(v, isfx, asfx) is Some
                                    &&& spec_project_groups(
                                        spec_groups_of(v, isfx, asfx)->0,
                                        0,
                                        0,
                                        isfx,
                                        asfx,
                                    ) is Some
                                    &&& out == spec_sort_exts(
                                        spec_project_groups(
                                            spec_groups_of(v, isfx, asfx)->0,
                                            0,
                                            0,
                                            isfx,
                                            asfx,
                                        )->0,
                                    )
                                };
                        }
                    }
                }
                return Err(e);
            },
        };
        let ghost content0 = choose|content: Seq<char>|
            {
                &&& #[trigger] parsed_of(self.format_is_yaml, content) == Some(parsed@)
                &&& if self.fence_output {
                    exists|a: int, b: int|
                        fence_extraction_ok(input@, self.format_is_yaml, a, b, content)
                } else {
                    content == input@
                }
            };
        let groups = match self.normalize_groups(&parsed) {
            Ok(g) => g,
            Err(e) => {
                proof {
                    assert forall|out: Seq<RExtractionView>|
                        !self.resolution_ok(input@, out) by {
                        if self.resolution_ok(input@, out) {
                            let (content, v) = choose|content: Seq<char>, v: ValueView|
                                #![trigger parsed_of(self.format_is_yaml, content), spec_groups_of(v, self.idx_sfx(), self.attr_sfx())]
                                {
                                    &&& parsed_of(self.format_is_yaml, content)
                                        == Some(v)
                                    &&& spec_trim(input@).len() != 0
                                    &&& if self.fence_output {
                                        exists|a: int, b: int|
                                            fence_extraction_ok(
                                                input@,
                                                self.format_is_yaml,
                                                a,
                                                b,
                                                content,
                                            )
                                    } else {
                                        content == input@
                                    }
                                    &&& spec_groups_of(v, isfx, asfx) is Some
                                    &&& spec_project_groups(
                                        spec_groups_of(v, isfx, asfx)->0,
                                        0,
                                        0,
                                        isfx,
                                        asfx,
                                    ) is Some
                                    &&& out == spec_sort_exts(
                                        spec_project_groups(
                                            spec_groups_of(v, isfx, asfx)->0,
                                            0,
                                            0,
                                            isfx,
                                            asfx,
                                        )->0,
                                    )
                                };
                            if self.fence_output {
                                let (a1, b1) = choose|a1: int, b1: int|
                                    fence_extraction_ok(
                                        input@,
                                        self.format_is_yaml,
                                        a1,
                                        b1,
                                        content,
                                    );
                                let (a0, b0) = choose|a0: int, b0: int|
                                    fence_extraction_ok(
                                        input@,
                                        self.format_is_yaml,
                                        a0,
                                        b0,
                                        content0,
                                    );
                                lemma_fence_unique(
                                    input@,
                                    self.format_is_yaml,
                                    a1,
                                    b1,
                                    content,
                                    a0,
                                    b0,
                                    content0,
                                );
                            }
                            assert(content == content0);
                            assert(v == parsed@);
                        }
                    }
                }
                return Err(e);
            },
        };
        let result = self.extract_ordered_extractions_impl(&groups);
        proof {
            match &result {
                Ok(es) => {
                    assert(self.resolution_ok(input@, resolved_views(es@))) by {
                        assert(parsed_of(self.format_is_yaml, content0) == Some(parsed@));
                    }
                },
                Err(_) => {
                    assert forall|out: Seq<RExtractionView>|
                        !self.resolution_ok(input@, out) by {
                        if self.resolution_ok(input@, out) {
                            let (content, v) = choose|content: Seq<char>, v: ValueView|
                                #![trigger parsed_of(self.format_is_yaml, content), spec_groups_of(v, self.idx_sfx(), self.attr_sfx())]
                                {
                                    &&& parsed_of(self.format_is_yaml, content)
                                        == Some(v)
                                    &&& spec_trim(input@).len() != 0
                                    &&& if self.fence_output {
                                        exists|a: int, b: int|
                                            fence_extraction_ok(
                                                input@,
                                                self.format_is_yaml,
                                                a,
                                                b,
                                                content,
                                            )
                                    } else {
                                        content == input@
                                    }
                                    &&& spec_groups_of(v, isfx, asfx) is Some
                                    &&& spec_project_groups(
                                        spec_groups_of(v, isfx, asfx)->0,
                                        0,
                                        0,
                                        isfx,
                                        asfx,
                                    ) is Some
                                    &&& out == spec_sort_exts(
                                        spec_project_groups(
                                            spec_groups_of(v, isfx, asfx)->0,
                                            0,
                                            0,
                                            isfx,
                                            asfx,
                                        )->0,
                                    )
                                };
                            if self.fence_output {
                                let (a1, b1) = choose|a1: int, b1: int|
                                    fence_extraction_ok(
                                        input@,
                                        self.format_is_yaml,
                                        a1,
                                        b1,
                                        content,
                                    );
                                let (a0, b0) = choose|a0: int, b0: int|
                                    fence_extraction_ok(
                                        input@,
                                        self.format_is_yaml,
                                        a0,
                                        b0,
                                        content0,
                                    );
                                lemma_fence_unique(
                                    input@,
                                    self.format_is_yaml,
                                    a1,
                                    b1,
                                    content,
                                    a0,
                                    b0,
                                    content0,
                                );
                            }
                            assert(content == content0);
                            assert(v == parsed@);
                        }
                    }
                },
            }
        }
        result
    }

    /// Parses a reply string into ordered extractions; with
    /// `suppress_parse_errors`, failures give an empty list instead.
    pub fn resolve(&self, input_text: &str, suppress_parse_errors: bool) -> (r: Result<
        Vec<Extraction>,
        ResolverError,
    >)
        ensures
            !suppress_parse_errors ==> (r is Ok <==> self.resolvable(input_text@)),
            r is Ok && self.resolvable(input_text@) ==> self.resolution_ok(
                input_text@,
                resolved_views(r->Ok_0@),
            ),
            suppress_parse_errors ==> r is Ok,
            suppress_parse_errors && !self.resolvable(input_text@) ==> r->Ok_0@.len() == 0,
            r is Ok ==> sorted_extractions(r->Ok_0@),
            r is Ok ==> forall|k: int|
                0 <= k < r->Ok_0@.len() ==> unaligned(#[trigger] r->Ok_0@[k]@),
    {
        match self.parse_extractions_from_string(input_text) {
            Ok(exts) => Ok(exts),
            Err(e) => {
                if suppress_parse_errors {
                    Ok(Vec::new())
                } else {
                    Err(e)
                }
            },
        }
    }
}

// ---------------------------------------------------------------------------
// Word alignment
// ---------------------------------------------------------------------------

/// Lowercase plus a light plural trim: a trailing `s` is stripped from
/// lowercased tokens longer than three characters unless they end in `ss`.
pub open spec fn spec_plural_trim(s: Seq<char>) -> Seq<char> {
    if s.len() > 3 && s[s.len() - 1] == 's' && s[s.len() - 2] != 's' {
        s.drop_last()
    } else {
        s
    }
}

/// Normalizes a token for fuzzy matching: lowercase, then plural trim.
pub fn normalize_token(tok: &str) -> (r: String)
    ensures
        r@ == spec_plural_trim(lower_of(tok@)),
{
    let lowered = lowercase_str(tok);
    let n = lowered.as_str().unicode_len();
    if n > 3 {
        let last = lowered.as_str().get_char(n - 1);
        let prev = lowered.as_str().get_char(n - 2);
        if last == 's' && prev != 's' {
            let trimmed = lowered.as_str().substring_char(0, n - 1).to_owned();
            proof {
                assert(trimmed@ =~= lowered@.drop_last());
            }
            return trimmed;
        }
    }
    lowered
}

/// The words of `s` are exactly the texts of its whitespace spans.
pub proof fn lemma_words_are_spans(s: Seq<char>, i: int)
    requires
        0 <= i,
    ensures
        spec_words(s, i).len() == ws_spans(s, i).len(),
        forall|k: int|
            0 <= k < ws_spans(s, i).len() ==> spec_words(s, i)[k] == s.subrange(
                (#[trigger] ws_spans(s, i)[k]).0,
                ws_spans(s, i)[k].1,
            ),
    decreases s.len() - i,
{
    reveal(ws_spans);
    reveal(spec_words);
    if i <= s.len() {
        lemma_run_end_bounds(s, i, space_pred());
        let j = space_run_end(s, i);
        if j < s.len() {
            assert(word_run_end(s, j) == run_end(s, j + 1, nonspace_pred()));
            lemma_run_end_bounds(s, j + 1, nonspace_pred());
            lemma_words_are_spans(s, word_run_end(s, j));
            let e = word_run_end(s, j);
            assert forall|k: int|
                0 <= k < ws_spans(s, i).len() implies spec_words(s, i)[k] == s.subrange(
                (#[trigger] ws_spans(s, i)[k]).0,
                ws_spans(s, i)[k].1,
            ) by {
                if k > 0 {
                    assert(ws_spans(s, i)[k] == ws_spans(s, e)[k - 1]);
                    assert(spec_words(s, i)[k] == spec_words(s, e)[k - 1]);
                }
            }
        }
    } else {
        assert(space_run_end(s, i) == i);
    }
}

/// An exact alignment: the whitespace-split words of the extraction text
/// equal, lowercased, the source tokens covered by the recorded interval,
/// shifted by the caller's token offset.
pub open spec fn exact_alignment_ok(
    source: Seq<char>,
    ext_text: Seq<char>,
    ti: TokenInterval,
    token_offset: int,
) -> bool {
    let spans = ws_spans(source, 0);
    let words = spec_words(ext_text, 0);
    &&& token_offset <= ti.start_index < ti.end_index
    &&& ti.end_index - token_offset <= spans.len()
    &&& ti.end_index - ti.start_index == words.len()
    &&& forall|k: int|
        0 <= k < words.len() ==> lower_of(
            source.subrange(
                (#[trigger] spans[ti.start_index - token_offset + k]).0,
                spans[ti.start_index - token_offset + k].1,
            ),
        ) == lower_of(words[k])
}

/// The needle tokens occur contiguously in the haystack at position `p`.
pub open spec fn tokens_match_at(needle: Seq<Vec<char>>, hay: Seq<Vec<char>>, p: int) -> bool {
    &&& 0 <= p
    &&& p + needle.len() <= hay.len()
    &&& forall|k: int| 0 <= k < needle.len() ==> (#[trigger] hay[p + k])@ == needle[k]@
}

/// The lowered whitespace words of the extraction text occur contiguously in
/// the source's lowered tokens at position `p`.
pub open spec fn ext_match_at(source: Seq<char>, ext_text: Seq<char>, p: int) -> bool {
    let spans = ws_spans(source, 0);
    let words = spec_words(ext_text, 0);
    &&& 0 <= p
    &&& p + words.len() <= spans.len()
    &&& forall|k: int|
        0 <= k < words.len() ==> lower_of(
            source.subrange((#[trigger] spans[p + k]).0, spans[p + k].1),
        ) == lower_of(words[k])
}

/// Some position carries an exact occurrence.
pub open spec fn has_ext_match(source: Seq<char>, ext_text: Seq<char>) -> bool {
    exists|p: int| #[trigger] ext_match_at(source, ext_text, p)
}

/// The normalized source tokens: each whitespace token lowered and
/// plural-trimmed.
pub open spec fn normd_source(source: Seq<char>) -> Seq<Seq<char>> {
    Seq::new(
        ws_spans(source, 0).len(),
        |j: int|
            spec_plural_trim(
                lower_of(
                    source.subrange(ws_spans(source, 0)[j].0, ws_spans(source, 0)[j].1),
                ),
            ),
    )
}

/// The normalized extraction words: each whitespace word lowered and
/// plural-trimmed.
pub open spec fn normd_words(t: Seq<char>) -> Seq<Seq<char>> {
    Seq::new(
        spec_words(t, 0).len(),
        |k: int| spec_plural_trim(lower_of(spec_words(t, 0)[k])),
    )
}

/// A window of normalized source tokens whose overlap with the normalized
/// extraction words meets the threshold, in parts per thousand.
pub open spec fn fuzzy_window_ok(
    ext_norm: Seq<Seq<char>>,
    src_norm: Seq<Seq<char>>,
    thr: u32,
    s: int,
    w: int,
) -> bool {
    &&& 0 <= s
    &&& ext_norm.len() <= w
    &&& s + w <= src_norm.len()
    &&& overlap_spec(ext_norm, src_norm.subrange(s, s + w)) * 1000 >= thr * ext_norm.len()
}

/// Some window meets the fuzzy threshold.
pub open spec fn has_fuzzy_window(source: Seq<char>, t: Seq<char>, thr: u32) -> bool {
    exists|s: int, w: int| #[trigger] fuzzy_window_ok(normd_words(t), normd_source(source), thr, s, w)
}

/// What aligning one extraction yields: identity fields are carried; an
/// exact occurrence of the lowered words is found at its first position and
/// recorded; else, when fuzzy matching is on and some window meets the
/// threshold, a fuzzy interval is recorded; else the extraction is unchanged.
pub open spec fn aligned_result_ok(
    source: Seq<char>,
    orig: RExtractionView,
    out: RExtractionView,
    token_offset: int,
    enable_fuzzy: bool,
    thr: u32,
) -> bool {
    let words = spec_words(orig.extraction_text, 0);
    &&& carries_identity(orig, out)
    &&& (out.alignment_status == Some(AlignmentStatus::MatchExact) ==> exact_alignment_ok(
        source,
        out.extraction_text,
        out.token_interval->0,
        token_offset,
    ))
    &&& (out.alignment_status is None ==> out == orig)
    &&& (words.len() == 0 ==> out == orig)
    &&& (words.len() > 0 && has_ext_match(source, orig.extraction_text)
        ==> out.alignment_status == Some(AlignmentStatus::MatchExact) && exists|p: int|
        {
            &&& #[trigger] ext_match_at(source, orig.extraction_text, p)
            &&& forall|p2: int| 0 <= p2 < p ==> !ext_match_at(source, orig.extraction_text, p2)
            &&& out.token_interval == Some(
                TokenInterval {
                    start_index: (p + token_offset) as usize,
                    end_index: (p + words.len() + token_offset) as usize,
                },
            )
        })
    &&& (words.len() > 0 && !has_ext_match(source, orig.extraction_text) && enable_fuzzy
        && has_fuzzy_window(source, orig.extraction_text, thr) ==> out.alignment_status == Some(
        AlignmentStatus::MatchFuzzy,
    ) && exists|s: int, w: int|
        {
            &&& #[trigger] fuzzy_window_ok(
                normd_words(orig.extraction_text),
                normd_source(source),
                thr,
                s,
                w,
            )
            &&& forall|s2: int, w2: int|
                #[trigger] fuzzy_window_ok(
                    normd_words(orig.extraction_text),
                    normd_source(source),
                    thr,
                    s2,
                    w2,
                ) ==> overlap_spec(
                    normd_words(orig.extraction_text),
                    normd_source(source).subrange(s2, s2 + w2),
                ) <= overlap_spec(
                    normd_words(orig.extraction_text),
                    normd_source(source).subrange(s, s + w),
                )
            &&& out.token_interval == Some(
                TokenInterval {
                    start_index: (s + token_offset) as usize,
                    end_index: (s + w + token_offset) as usize,
                },
            )
        })
    &&& (words.len() > 0 && !has_ext_match(source, orig.extraction_text) && !(enable_fuzzy
        && has_fuzzy_window(source, orig.extraction_text, thr)) ==> out == orig)
}

/// Number of occurrences of `x` in `s`.
pub open spec fn count_in(s: Seq<Seq<char>>, x: Seq<char>) -> int
    decreases s.len(),
{
    if s.len() == 0 {
        0
    } else {
        count_in(s.drop_last(), x) + if s.last() == x {
            1int
        } else {
            0int
        }
    }
}

/// The multiset overlap between the extraction tokens and a window: each
/// extraction token is matched while unmatched copies remain in the window.
pub open spec fn overlap_spec(ext: Seq<Seq<char>>, win: Seq<Seq<char>>) -> int
    decreases ext.len(),
{
    if ext.len() == 0 {
        0
    } else {
        overlap_spec(ext.drop_last(), win) + if count_in(win, ext.last()) > count_in(
            ext.drop_last(),
            ext.last(),
        ) {
            1int
        } else {
            0int
        }
    }
}

/// The views of a list of character vectors.
pub open spec fn charvecs_view(s: Seq<Vec<char>>) -> Seq<Seq<char>> {
    s.map_values(|v: Vec<char>| v@)
}

/// Counts occurrences of `x` among the first `upto` entries of `list`.
fn count_occurrences(list: &Vec<Vec<char>>, x: &Vec<char>, upto: usize) -> (r: usize)
    requires
        upto <= list@.len(),
    ensures
        r == count_in(charvecs_view(list@).take(upto as int), x@),
{
    let mut count: usize = 0;
    let mut i: usize = 0;
    while i < upto
        invariant
            upto <= list@.len(),
            i <= upto,
            count <= i,
            count == count_in(charvecs_view(list@).take(i as int), x@),
        decreases upto - i,
    {
        let eq = crate::text::chars_eq(&list[i], x);
        proof {
            assert(charvecs_view(list@).take(i + 1).drop_last() =~= charvecs_view(list@).take(
                i as int,
            ));
            assert(charvecs_view(list@).take(i + 1).last() == list@[i as int]@);
        }
        if eq {
            count = count + 1;
        }
        i = i + 1;
    }
    count
}

/// Relocates extraction texts into the source text by exact and fuzzy word
/// matching.
#[derive(Debug)]
pub struct WordAligner;

impl WordAligner {
    pub fn new() -> (r: Self) {
        WordAligner
    }

    /// Finds the first position where `haystack` contains `needle` as a
    /// contiguous subsequence; `None` means no position does.
    pub fn find_exact_match(&self, needle: &Vec<Vec<char>>, haystack: &Vec<Vec<char>>) -> (r:
        Option<usize>)
        ensures
            r is Some ==> needle@.len() >= 1 && tokens_match_at(
                needle@,
                haystack@,
                r->0 as int,
            ) && (forall|p2: int| 0 <= p2 < r->0 ==> !tokens_match_at(needle@, haystack@, p2)),
            r is None && needle@.len() >= 1 ==> forall|p: int|
                !tokens_match_at(needle@, haystack@, p),
    {
        let nn = needle.len();
        let hn = haystack.len();
        if nn == 0 || hn < nn {
            proof {
                if nn >= 1 {
                    assert forall|p: int| !tokens_match_at(needle@, haystack@, p) by {}
                }
            }
            return None;
        }
        let mut p: usize = 0;
        while p <= hn - nn
            invariant
                nn == needle@.len(),
                hn == haystack@.len(),
                1 <= nn <= hn,
                p <= hn - nn + 1,
                forall|p2: int| 0 <= p2 < p ==> !tokens_match_at(needle@, haystack@, p2),
            decreases hn - nn - p + 1,
        {
            let mut k: usize = 0;
            let mut ok = true;
            while k < nn
                invariant
                    nn == needle@.len(),
                    hn == haystack@.len(),
                    p + nn <= hn,
                    k <= nn,
                    ok <==> (forall|m: int|
                        0 <= m < k ==> (#[trigger] haystack@[p + m])@ == needle@[m]@),
                decreases nn - k,
            {
                if !crate::text::chars_eq(&haystack[p + k], &needle[k]) {
                    ok = false;
                }
                k = k + 1;
            }
            if ok {
                return Some(p);
            }
            proof {
                if tokens_match_at(needle@, haystack@, p as int) {
                    let m = choose|m: int|
                        0 <= m < nn && !((#[trigger] haystack@[p + m])@ == needle@[m]@);
                }
            }
            p = p + 1;
        }
        proof {
            assert forall|p2: int| !tokens_match_at(needle@, haystack@, p2) by {
                if p2 > hn - nn {
                    assert(p2 + needle@.len() > haystack@.len());
                }
            }
        }
        None
    }

    /// The multiset overlap between the normalized extraction tokens and a
    /// window of normalized source tokens.
    pub fn calculate_overlap(&self, ext_norm: &Vec<Vec<char>>, window: &Vec<Vec<char>>) -> (r:
        usize)
        ensures
            r == overlap_spec(charvecs_view(ext_norm@), charvecs_view(window@)),
            r <= ext_norm@.len(),
    {
        let mut total: usize = 0;
        let mut i: usize = 0;
        while i < ext_norm.len()
            invariant
                i <= ext_norm@.len(),
                total <= i,
                total == overlap_spec(
                    charvecs_view(ext_norm@).take(i as int),
                    charvecs_view(window@),
                ),
            decreases ext_norm@.len() - i,
        {
            let in_window = count_occurrences(window, &ext_norm[i], window.len());
            let before = count_occurrences(ext_norm, &ext_norm[i], i);
            proof {
                assert(charvecs_view(window@).take(window@.len() as int) =~= charvecs_view(
                    window@,
                ));
                assert(charvecs_view(ext_norm@).take(i + 1).drop_last() =~= charvecs_view(
                    ext_norm@,
                ).take(i as int));
                assert(charvecs_view(ext_norm@).take(i + 1).last() == ext_norm@[i as int]@);
            }
            if in_window > before {
                total = total + 1;
            }
            i = i + 1;
        }
        proof {
            assert(charvecs_view(ext_norm@).take(ext_norm@.len() as int) =~= charvecs_view(
                ext_norm@,
            ));
        }
        total
    }

    /// Finds the window of normalized source tokens with the greatest overlap
    /// with the normalized extraction tokens among those meeting the
    /// threshold, in parts per thousand; `None` means no window meets it.
    pub fn find_fuzzy_match(
        &self,
        ext_norm: &Vec<Vec<char>>,
        source_norm: &Vec<Vec<char>>,
        threshold_permille: u32,
    ) -> (r: Option<(usize, usize)>)
        ensures
            r is Some ==> {
                let (start, size) = r->0;
                &&& ext_norm@.len() >= 1
                &&& fuzzy_window_ok(
                    charvecs_view(ext_norm@),
                    charvecs_view(source_norm@),
                    threshold_permille,
                    start as int,
                    size as int,
                )
                &&& forall|s2: int, w2: int|
                    #[trigger] fuzzy_window_ok(
                        charvecs_view(ext_norm@),
                        charvecs_view(source_norm@),
                        threshold_permille,
                        s2,
                        w2,
                    ) ==> overlap_spec(
                        charvecs_view(ext_norm@),
                        charvecs_view(source_norm@).subrange(s2, s2 + w2),
                    ) <= overlap_spec(
                        charvecs_view(ext_norm@),
                        charvecs_view(source_norm@).subrange(
                            start as int,
                            start as int + size as int,
                        ),
                    )
            },
            r is None && ext_norm@.len() >= 1 ==> forall|s2: int, w2: int|
                !#[trigger] fuzzy_window_ok(
                    charvecs_view(ext_norm@),
                    charvecs_view(source_norm@),
                    threshold_permille,
                    s2,
                    w2,
                ),
    {
        let ghost ev = charvecs_view(ext_norm@);
        let ghost sv = charvecs_view(source_norm@);
        let ghost thr = threshold_permille;
        let n = ext_norm.len();
        let sn = source_norm.len();
        if n == 0 || sn < n {
            proof {
                if n >= 1 {
                    assert forall|s2: int, w2: int|
                        !#[trigger] fuzzy_window_ok(ev, sv, thr, s2, w2) by {
                        if fuzzy_window_ok(ev, sv, thr, s2, w2) {
                            assert(ev.len() <= w2 && s2 + w2 <= sv.len() && 0 <= s2);
                        }
                    }
                }
            }
            return None;
        }
        let mut best: Option<(usize, usize)> = None;
        let mut best_overlap: usize = 0;
        let mut window_size = n;
        loop
            invariant
                ev == charvecs_view(ext_norm@),
                sv == charvecs_view(source_norm@),
                thr == threshold_permille,
                n == ext_norm@.len(),
                sn == source_norm@.len(),
                1 <= n <= window_size <= sn,
                best is None ==> best_overlap == 0 && (forall|s2: int, w2: int|
                    w2 < window_size ==> !#[trigger] fuzzy_window_ok(ev, sv, thr, s2, w2)),
                best is Some ==> {
                    let (bs, bw) = best->0;
                    &&& fuzzy_window_ok(ev, sv, thr, bs as int, bw as int)
                    &&& best_overlap == overlap_spec(
                        ev,
                        sv.subrange(bs as int, bs as int + bw as int),
                    )
                    &&& forall|s2: int, w2: int|
                        w2 < window_size && #[trigger] fuzzy_window_ok(ev, sv, thr, s2, w2)
                            ==> overlap_spec(ev, sv.subrange(s2, s2 + w2)) <= best_overlap
                },
            ensures
                best is None ==> forall|s2: int, w2: int|
                    !#[trigger] fuzzy_window_ok(ev, sv, thr, s2, w2),
                best is Some ==> {
                    let (bs, bw) = best->0;
                    &&& fuzzy_window_ok(ev, sv, thr, bs as int, bw as int)
                    &&& forall|s2: int, w2: int|
                        #[trigger] fuzzy_window_ok(ev, sv, thr, s2, w2) ==> overlap_spec(
                            ev,
                            sv.subrange(s2, s2 + w2),
                        ) <= overlap_spec(ev, sv.subrange(bs as int, bs as int + bw as int))
                },
            decreases sn - window_size,
        {
            let mut start: usize = 0;
            while start <= sn - window_size
                invariant
                    ev == charvecs_view(ext_norm@),
                    sv == charvecs_view(source_norm@),
                    thr == threshold_permille,
                    n == ext_norm@.len(),
                    sn == source_norm@.len(),
                    1 <= n <= window_size <= sn,
                    start <= sn,
                    best is None ==> best_overlap == 0 && (forall|s2: int, w2: int|
                        (w2 < window_size || (w2 == window_size && s2 < start))
                            ==> !#[trigger] fuzzy_window_ok(ev, sv, thr, s2, w2)),
                    best is Some ==> {
                        let (bs, bw) = best->0;
                        &&& fuzzy_window_ok(ev, sv, thr, bs as int, bw as int)
                        &&& best_overlap == overlap_spec(
                            ev,
                            sv.subrange(bs as int, bs as int + bw as int),
                        )
                        &&& forall|s2: int, w2: int|
                            (w2 < window_size || (w2 == window_size && s2 < start))
                                && #[trigger] fuzzy_window_ok(ev, sv, thr, s2, w2)
                                ==> overlap_spec(ev, sv.subrange(s2, s2 + w2)) <= best_overlap
                    },
                decreases sn - start,
            {
                let mut window: Vec<Vec<char>> = Vec::new();
                let mut k: usize = 0;
                while k < window_size
                    invariant
                        start + window_size <= sn,
                        sn == source_norm@.len(),
                        k <= window_size,
                        window@.len() == k,
                        forall|m: int|
                            0 <= m < k ==> (#[trigger] window@[m])@ == source_norm@[start + m]@,
                    decreases window_size - k,
                {
                    window.push(crate::text::clone_chars(&source_norm[start + k]));
                    k = k + 1;
                }
                proof {
                    assert forall|m: int|
                        0 <= m < window@.len() implies charvecs_view(window@)[m] == charvecs_view(
                        source_norm@,
                    ).subrange(start as int, start as int + window_size as int)[m] by {
                        assert(window@[m]@ == source_norm@[start + m]@);
                    }
                    assert(charvecs_view(window@) =~= sv.subrange(
                        start as int,
                        start as int + window_size as int,
                    ));
                }
                let overlap = self.calculate_overlap(ext_norm, &window);
                proof {
                    assert((threshold_permille as u128) * (n as u128) <= 0xffff_ffffu128
                        * 0xffff_ffff_ffff_ffffu128) by (nonlinear_arith)
                        requires
                            threshold_permille as u128 <= 0xffff_ffffu128,
                            n as u128 <= 0xffff_ffff_ffff_ffffu128,
                    ;
                }
                let meets = (overlap as u128) * 1000 >= (threshold_permille as u128) * (
                n as u128);
                proof {
                    assert(meets == (overlap_spec(
                        ev,
                        sv.subrange(start as int, start as int + window_size as int),
                    ) * 1000 >= thr * ev.len()));
                    assert(meets == fuzzy_window_ok(
                        ev,
                        sv,
                        thr,
                        start as int,
                        window_size as int,
                    ));
                }
                if meets && (best.is_none() || overlap > best_overlap) {
                    best = Some((start, window_size));
                    best_overlap = overlap;
                }
                proof {
                    if best is Some {
                        assert forall|s2: int, w2: int|
                            (w2 < window_size || (w2 == window_size && s2 < start + 1))
                                && #[trigger] fuzzy_window_ok(ev, sv, thr, s2, w2)
                                implies overlap_spec(ev, sv.subrange(s2, s2 + w2))
                            <= best_overlap by {}
                    }
                }
                start = start + 1;
            }
            proof {
                if best is None {
                    assert forall|s2: int, w2: int|
                        w2 < window_size + 1 implies !#[trigger] fuzzy_window_ok(
                        ev,
                        sv,
                        thr,
                        s2,
                        w2,
                    ) by {
                        if w2 == window_size && fuzzy_window_ok(ev, sv, thr, s2, w2) {
                            assert(s2 <= sn - window_size);
                        }
                    }
                } else {
                    assert forall|s2: int, w2: int|
                        w2 < window_size + 1 && #[trigger] fuzzy_window_ok(ev, sv, thr, s2, w2)
                        implies overlap_spec(ev, sv.subrange(s2, s2 + w2)) <= best_overlap by {
                        if w2 == window_size {
                            assert(s2 <= sn - window_size);
                        }
                    }
                }
            }
            if window_size == sn {
                proof {
                    if best is None {
                        assert forall|s2: int, w2: int|
                            !#[trigger] fuzzy_window_ok(ev, sv, thr, s2, w2) by {
                            if fuzzy_window_ok(ev, sv, thr, s2, w2) {
                                assert(w2 <= sn);
                            }
                        }
                    } else {
                        assert forall|s2: int, w2: int|
                            #[trigger] fuzzy_window_ok(ev, sv, thr, s2, w2) implies overlap_spec(
                            ev,
                            sv.subrange(s2, s2 + w2),
                        ) <= best_overlap by {
                            assert(w2 <= sn);
                        }
                    }
                }
                break;
            }
            window_size = window_size + 1;
        }
        best
    }
}

/// An extraction that has not been located yet.
pub open spec fn unaligned(e: RExtractionView) -> bool {
    e.token_interval is None && e.char_interval is None && e.alignment_status is None
}

/// The fields the aligner never changes are carried over.
pub open spec fn carries_identity(orig: RExtractionView, out: RExtractionView) -> bool {
    &&& out.extraction_class == orig.extraction_class
    &&& out.extraction_text == orig.extraction_text
    &&& out.extraction_index == orig.extraction_index
    &&& out.group_index == orig.group_index
    &&& out.attributes == orig.attributes
}

/// The lowered source tokens match the source's whitespace spans.
pub open spec fn lowered_tokens_ok(source: Seq<char>, lowered: Seq<Vec<char>>) -> bool {
    &&& lowered.len() == ws_spans(source, 0).len()
    &&& forall|j: int|
        0 <= j < lowered.len() ==> (#[trigger] lowered[j])@ == lower_of(
            source.subrange(ws_spans(source, 0)[j].0, ws_spans(source, 0)[j].1),
        )
    &&& forall|j: int|
        0 <= j < lowered.len() ==> 0 <= (#[trigger] ws_spans(source, 0)[j]).0 < ws_spans(
            source,
            0,
        )[j].1 <= source.len()
}

impl WordAligner {
    /// Builds the aligned copy of an extraction located at token
    /// `start_idx` with `length` tokens.
    pub fn create_aligned_extraction(
        &self,
        extraction: &Extraction,
        start_idx: usize,
        length: usize,
        source_tokenized: &TokenizedText,
        token_offset: usize,
        char_offset: usize,
        status: AlignmentStatus,
    ) -> (r: Extraction)
        requires
            ws_tokens_ok(source_tokenized.text@, source_tokenized.tokens@),
            1 <= length,
            start_idx + length <= source_tokenized.tokens@.len(),
            token_offset + start_idx + length <= usize::MAX,
            char_offset + source_tokenized.text@.len() <= usize::MAX,
        ensures
            carries_identity(extraction@, r@),
            r@.alignment_status == Some(status),
            r@.token_interval == Some(
                TokenInterval {
                    start_index: (start_idx + token_offset) as usize,
                    end_index: (start_idx + length + token_offset) as usize,
                },
            ),
            r@.char_interval == Some(
                CharInterval {
                    start_pos: (char_offset
                        + source_tokenized.tokens@[start_idx as int].char_interval.start_pos)
                        as usize,
                    end_pos: (char_offset + source_tokenized.tokens@[start_idx + length
                        - 1].char_interval.end_pos) as usize,
                },
            ),
    {
        let mut out = extraction.clone();
        out.token_interval = Some(
            TokenInterval {
                start_index: start_idx + token_offset,
                end_index: start_idx + length + token_offset,
            },
        );
        let start_token = &source_tokenized.tokens[start_idx];
        let end_token = &source_tokenized.tokens[start_idx + length - 1];
        out.char_interval = Some(
            CharInterval {
                start_pos: char_offset + start_token.char_interval.start_pos,
                end_pos: char_offset + end_token.char_interval.end_pos,
            },
        );
        out.alignment_status = Some(status);
        out
    }

    /// Aligns one extraction against the lowered source tokens: exact first,
    /// then fuzzy when enabled, else unchanged.
    fn align_single_extraction(
        &self,
        extraction: &Extraction,
        source_lower: &Vec<Vec<char>>,
        source_tokenized: &TokenizedText,
        token_offset: usize,
        char_offset: usize,
        enable_fuzzy_alignment: bool,
        fuzzy_alignment_threshold_permille: u32,
    ) -> (r: Extraction)
        requires
            unaligned(extraction@),
            ws_tokens_ok(source_tokenized.text@, source_tokenized.tokens@),
            lowered_tokens_ok(source_tokenized.text@, source_lower@),
            char_offset + source_tokenized.text@.len() <= usize::MAX,
            token_offset + source_tokenized.text@.len() <= usize::MAX,
        ensures
            aligned_result_ok(
                source_tokenized.text@,
                extraction@,
                r@,
                token_offset as int,
                enable_fuzzy_alignment,
                fuzzy_alignment_threshold_permille,
            ),
    {
        let ghost src = source_tokenized.text@;
        let ghost ext_text = extraction.extraction_text@;
        proof {
            lemma_words_are_spans(ext_text, 0);
            lemma_words_are_spans(src, 0);
            lemma_ws_spans_count(src, 0);
        }
        let ext_tok = tokenize(extraction.extraction_text.as_str());
        let mut ext_lower: Vec<Vec<char>> = Vec::new();
        let mut j: usize = 0;
        while j < ext_tok.tokens.len()
            invariant
                ws_tokens_ok(ext_text, ext_tok.tokens@),
                ext_tok.text@ == ext_text,
                j <= ext_tok.tokens@.len(),
                ext_lower@.len() == j,
                forall|m: int|
                    0 <= m < j ==> (#[trigger] ext_lower@[m])@ == lower_of(
                        ext_text.subrange(
                            ws_spans(ext_text, 0)[m].0,
                            ws_spans(ext_text, 0)[m].1,
                        ),
                    ),
            decreases ext_tok.tokens@.len() - j,
        {
            let lowered = lowercase_str(ext_tok.tokens[j].text.as_str());
            ext_lower.push(str_to_chars(lowered.as_str()));
            j = j + 1;
        }
        if ext_lower.len() == 0 {
            proof {
                assert(spec_words(ext_text, 0).len() == 0);
            }
            return extraction.clone();
        }
        let ext_len = ext_lower.len();
        let hay_len = source_lower.len();
        proof {
            assert(ext_len == spec_words(ext_text, 0).len());
            assert(hay_len == ws_spans(src, 0).len());
            assert forall|p: int|
                tokens_match_at(ext_lower@, source_lower@, p) == ext_match_at(
                src,
                ext_text,
                p,
            ) by {
                if tokens_match_at(ext_lower@, source_lower@, p) {
                    assert forall|k: int|
                        0 <= k < spec_words(ext_text, 0).len() implies lower_of(
                        src.subrange(
                            (#[trigger] ws_spans(src, 0)[p + k]).0,
                            ws_spans(src, 0)[p + k].1,
                        ),
                    ) == lower_of(spec_words(ext_text, 0)[k]) by {
                        assert(source_lower@[p + k]@ == ext_lower@[k]@);
                    }
                }
                if ext_match_at(src, ext_text, p) {
                    assert forall|k: int|
                        0 <= k < ext_lower@.len() implies (#[trigger] source_lower@[p + k])@
                        == ext_lower@[k]@ by {
                        assert(lower_of(
                            src.subrange(
                                ws_spans(src, 0)[p + k].0,
                                ws_spans(src, 0)[p + k].1,
                            ),
                        ) == lower_of(spec_words(ext_text, 0)[k]));
                    }
                }
            }
        }
        match self.find_exact_match(&ext_lower, source_lower) {
            Some(p) => {
                proof {
                    assert(p + ext_len <= hay_len);
                    assert(ext_match_at(src, ext_text, p as int));
                }
                if token_offset <= usize::MAX - (p + ext_len) {
                    let out = self.create_aligned_extraction(
                        extraction,
                        p,
                        ext_len,
                        source_tokenized,
                        token_offset,
                        char_offset,
                        AlignmentStatus::MatchExact,
                    );
                    proof {
                        lemma_words_are_spans(ext_text, 0);
                        let ti = out@.token_interval->0;
                        assert(ti.start_index == p + token_offset);
                        assert(ti.end_index == p + ext_len + token_offset);
                        assert forall|k: int|
                            0 <= k < spec_words(ext_text, 0).len() implies lower_of(
                            src.subrange(
                                (#[trigger] ws_spans(src, 0)[ti.start_index - token_offset + k]).0,
                                ws_spans(src, 0)[ti.start_index - token_offset + k].1,
                            ),
                        ) == lower_of(spec_words(ext_text, 0)[k]) by {
                            assert(source_lower@[p + k]@ == ext_lower@[k]@);
                            assert(ext_lower@[k]@ == lower_of(
                                ext_text.subrange(
                                    ws_spans(ext_text, 0)[k].0,
                                    ws_spans(ext_text, 0)[k].1,
                                ),
                            ));
                            assert(spec_words(ext_text, 0)[k] == ext_text.subrange(
                                ws_spans(ext_text, 0)[k].0,
                                ws_spans(ext_text, 0)[k].1,
                            ));
                        }
                        assert(exact_alignment_ok(src, ext_text, ti, token_offset as int));
                        assert forall|p2: int|
                            0 <= p2 < p implies !ext_match_at(src, ext_text, p2) by {
                            assert(!tokens_match_at(ext_lower@, source_lower@, p2));
                        }
                    }
                    return out;
                } else {
                    proof {
                        assert(p + ext_len <= src.len());
                        assert(false);
                    }
                    return extraction.clone();
                }
            },
            None => {
                proof {
                    assert forall|p: int| !ext_match_at(src, ext_text, p) by {
                        assert(!tokens_match_at(ext_lower@, source_lower@, p));
                    }
                    assert(!has_ext_match(src, ext_text));
                }
            },
        }
        if enable_fuzzy_alignment {
            let mut ext_norm: Vec<Vec<char>> = Vec::new();
            let mut m: usize = 0;
            while m < ext_tok.tokens.len()
                invariant
                    ws_tokens_ok(ext_text, ext_tok.tokens@),
                    ext_tok.text@ == ext_text,
                    m <= ext_tok.tokens@.len(),
                    ext_norm@.len() == m,
                    forall|m3: int|
                        0 <= m3 < m ==> (#[trigger] ext_norm@[m3])@ == spec_plural_trim(
                            lower_of(
                                ext_text.subrange(
                                    ws_spans(ext_text, 0)[m3].0,
                                    ws_spans(ext_text, 0)[m3].1,
                                ),
                            ),
                        ),
                decreases ext_tok.tokens@.len() - m,
            {
                let norm = normalize_token(ext_tok.tokens[m].text.as_str());
                ext_norm.push(str_to_chars(norm.as_str()));
                m = m + 1;
            }
            let src_tok_count = source_tokenized.tokens.len();
            let mut source_norm: Vec<Vec<char>> = Vec::new();
            let mut m2: usize = 0;
            while m2 < src_tok_count
                invariant
                    ws_tokens_ok(src, source_tokenized.tokens@),
                    source_tokenized.text@ == src,
                    src_tok_count == source_tokenized.tokens@.len(),
                    m2 <= src_tok_count,
                    source_norm@.len() == m2,
                    forall|m3: int|
                        0 <= m3 < m2 ==> (#[trigger] source_norm@[m3])@ == spec_plural_trim(
                            lower_of(
                                src.subrange(
                                    ws_spans(src, 0)[m3].0,
                                    ws_spans(src, 0)[m3].1,
                                ),
                            ),
                        ),
                decreases src_tok_count - m2,
            {
                let norm = normalize_token(source_tokenized.tokens[m2].text.as_str());
                source_norm.push(str_to_chars(norm.as_str()));
                m2 = m2 + 1;
            }
            proof {
                lemma_words_are_spans(ext_text, 0);
                assert forall|m3: int|
                    0 <= m3 < ext_norm@.len() implies charvecs_view(ext_norm@)[m3] == normd_words(
                    ext_text,
                )[m3] by {
                    assert(ext_norm@[m3]@ == spec_plural_trim(
                        lower_of(
                            ext_text.subrange(
                                ws_spans(ext_text, 0)[m3].0,
                                ws_spans(ext_text, 0)[m3].1,
                            ),
                        ),
                    ));
                    assert(spec_words(ext_text, 0)[m3] == ext_text.subrange(
                        ws_spans(ext_text, 0)[m3].0,
                        ws_spans(ext_text, 0)[m3].1,
                    ));
                }
                assert(charvecs_view(ext_norm@) =~= normd_words(ext_text));
                assert forall|m3: int|
                    0 <= m3 < source_norm@.len() implies charvecs_view(source_norm@)[m3]
                    == normd_source(src)[m3] by {
                    assert(source_norm@[m3]@ == spec_plural_trim(
                        lower_of(
                            src.subrange(ws_spans(src, 0)[m3].0, ws_spans(src, 0)[m3].1),
                        ),
                    ));
                }
                assert(charvecs_view(source_norm@) =~= normd_source(src));
            }
            match self.find_fuzzy_match(
                &ext_norm,
                &source_norm,
                fuzzy_alignment_threshold_permille,
            ) {
                Some((start_idx, window_size)) => {
                    proof {
                        assert(fuzzy_window_ok(
                            normd_words(ext_text),
                            normd_source(src),
                            fuzzy_alignment_threshold_permille,
                            start_idx as int,
                            window_size as int,
                        ));
                        assert(has_fuzzy_window(
                            src,
                            ext_text,
                            fuzzy_alignment_threshold_permille,
                        ));
                        assert(start_idx + window_size <= src_tok_count);
                        assert(window_size >= 1);
                        assert(src_tok_count <= src.len());
                    }
                    if window_size >= 1 && start_idx <= src_tok_count - window_size
                        && token_offset <= usize::MAX - (start_idx + window_size) {
                        let out = self.create_aligned_extraction(
                            extraction,
                            start_idx,
                            window_size,
                            source_tokenized,
                            token_offset,
                            char_offset,
                            AlignmentStatus::MatchFuzzy,
                        );
                        proof {
                            assert forall|s2: int, w2: int|
                                #[trigger] fuzzy_window_ok(
                                normd_words(ext_text),
                                normd_source(src),
                                fuzzy_alignment_threshold_permille,
                                s2,
                                w2,
                            ) implies overlap_spec(
                                normd_words(ext_text),
                                normd_source(src).subrange(s2, s2 + w2),
                            ) <= overlap_spec(
                                normd_words(ext_text),
                                normd_source(src).subrange(
                                    start_idx as int,
                                    start_idx as int + window_size as int,
                                ),
                            ) by {
                                assert(fuzzy_window_ok(
                                    charvecs_view(ext_norm@),
                                    charvecs_view(source_norm@),
                                    fuzzy_alignment_threshold_permille,
                                    s2,
                                    w2,
                                ));
                            }
                        }
                        return out;
                    } else {
                        proof {
                            assert(false);
                        }
                        return extraction.clone();
                    }
                },
                None => {
                    proof {
                        assert forall|s2: int, w2: int|
                            !#[trigger] fuzzy_window_ok(
                            normd_words(ext_text),
                            normd_source(src),
                            fuzzy_alignment_threshold_permille,
                            s2,
                            w2,
                        ) by {
                            assert(!fuzzy_window_ok(
                                charvecs_view(ext_norm@),
                                charvecs_view(source_norm@),
                                fuzzy_alignment_threshold_permille,
                                s2,
                                w2,
                            ));
                        }
                        assert(!has_fuzzy_window(
                            src,
                            ext_text,
                            fuzzy_alignment_threshold_permille,
                        ));
                    }
                },
            }
        }
        extraction.clone()
    }

    /// Aligns each group of extractions against the source text.
    pub fn align_extractions(
        &mut self,
        extraction_groups: &Vec<Vec<Extraction>>,
        source_text: &str,
        token_offset: usize,
        char_offset: usize,
        enable_fuzzy_alignment: bool,
        fuzzy_alignment_threshold_permille: u32,
        accept_match_lesser: bool,
    ) -> (r: Vec<Vec<Extraction>>)
        requires
            forall|g: int, k: int|
                0 <= g < extraction_groups@.len() && 0 <= k < extraction_groups@[g]@.len()
                    ==> unaligned(#[trigger] extraction_groups@[g]@[k]@),
            char_offset + source_text@.len() <= usize::MAX,
            token_offset + source_text@.len() <= usize::MAX,
        ensures
            r@.len() == extraction_groups@.len(),
            forall|g: int|
                0 <= g < r@.len() ==> (#[trigger] r@[g])@.len() == extraction_groups@[g]@.len(),
            forall|g: int, k: int|
                0 <= g < r@.len() && 0 <= k < r@[g]@.len() ==> aligned_result_ok(
                    source_text@,
                    extraction_groups@[g]@[k]@,
                    (#[trigger] r@[g]@[k])@,
                    token_offset as int,
                    enable_fuzzy_alignment,
                    fuzzy_alignment_threshold_permille,
                ),
    {
        let source_tokenized = tokenize(source_text);
        let mut source_lower: Vec<Vec<char>> = Vec::new();
        let mut j: usize = 0;
        while j < source_tokenized.tokens.len()
            invariant
                ws_tokens_ok(source_text@, source_tokenized.tokens@),
                source_tokenized.text@ == source_text@,
                j <= source_tokenized.tokens@.len(),
                source_lower@.len() == j,
                forall|m: int|
                    0 <= m < j ==> (#[trigger] source_lower@[m])@ == lower_of(
                        source_text@.subrange(
                            ws_spans(source_text@, 0)[m].0,
                            ws_spans(source_text@, 0)[m].1,
                        ),
                    ),
            decreases source_tokenized.tokens@.len() - j,
        {
            let lowered = lowercase_str(source_tokenized.tokens[j].text.as_str());
            source_lower.push(str_to_chars(lowered.as_str()));
            j = j + 1;
        }
        proof {
            assert forall|m: int|
                0 <= m < source_lower@.len() implies 0 <= (#[trigger] ws_spans(
                source_text@,
                0,
            )[m]).0 < ws_spans(source_text@, 0)[m].1 <= source_text@.len() by {
                assert(source_tokenized.tokens@[m].char_interval.start_pos == ws_spans(
                    source_text@,
                    0,
                )[m].0);
            }
            assert(lowered_tokens_ok(source_text@, source_lower@));
        }
        let mut aligned_groups: Vec<Vec<Extraction>> = Vec::new();
        let mut g: usize = 0;
        while g < extraction_groups.len()
            invariant
                forall|g2: int, k: int|
                    0 <= g2 < extraction_groups@.len() && 0 <= k < extraction_groups@[g2]@.len()
                        ==> unaligned(#[trigger] extraction_groups@[g2]@[k]@),
                char_offset + source_text@.len() <= usize::MAX,
                token_offset + source_text@.len() <= usize::MAX,
                ws_tokens_ok(source_text@, source_tokenized.tokens@),
                source_tokenized.text@ == source_text@,
                lowered_tokens_ok(source_text@, source_lower@),
                g <= extraction_groups@.len(),
                aligned_groups@.len() == g,
                forall|g2: int|
                    0 <= g2 < g ==> (#[trigger] aligned_groups@[g2])@.len()
                        == extraction_groups@[g2]@.len(),
                forall|g2: int, k: int|
                    0 <= g2 < g && 0 <= k < aligned_groups@[g2]@.len() ==> aligned_result_ok(
                        source_text@,
                        extraction_groups@[g2]@[k]@,
                        (#[trigger] aligned_groups@[g2]@[k])@,
                        token_offset as int,
                        enable_fuzzy_alignment,
                        fuzzy_alignment_threshold_permille,
                    ),
            decreases extraction_groups@.len() - g,
        {
            let group = &extraction_groups[g];
            let mut aligned: Vec<Extraction> = Vec::new();
            let mut k: usize = 0;
            while k < group.len()
                invariant
                    forall|g2: int, k2: int|
                        0 <= g2 < extraction_groups@.len() && 0 <= k2 < extraction_groups@[g2]@.len()
                            ==> unaligned(#[trigger] extraction_groups@[g2]@[k2]@),
                    char_offset + source_text@.len() <= usize::MAX,
                    token_offset + source_text@.len() <= usize::MAX,
                    ws_tokens_ok(source_text@, source_tokenized.tokens@),
                    source_tokenized.text@ == source_text@,
                    lowered_tokens_ok(source_text@, source_lower@),
                    g < extraction_groups@.len(),
                    group == &extraction_groups@[g as int],
                    k <= group@.len(),
                    aligned@.len() == k,
                    forall|k2: int|
                        0 <= k2 < k ==> aligned_result_ok(
                            source_text@,
                            extraction_groups@[g as int]@[k2]@,
                            (#[trigger] aligned@[k2])@,
                            token_offset as int,
                            enable_fuzzy_alignment,
                            fuzzy_alignment_threshold_permille,
                        ),
                decreases group@.len() - k,
            {
                let out = self.align_single_extraction(
                    &group[k],
                    &source_lower,
                    &source_tokenized,
                    token_offset,
                    char_offset,
                    enable_fuzzy_alignment,
                    fuzzy_alignment_threshold_permille,
                );
                aligned.push(out);
                k = k + 1;
            }
            aligned_groups.push(aligned);
            g = g + 1;
        }
        aligned_groups
    }
}

impl Resolver {
    /// Aligns extractions against a source chunk: exact matching first, then
    /// fuzzy matching when enabled.
    pub fn align(
        &self,
        extractions: &Vec<Extraction>,
        source_text: &str,
        token_offset: usize,
        char_offset: Option<usize>,
        enable_fuzzy_alignment: bool,
        fuzzy_alignment_threshold_permille: u32,
        accept_match_lesser: bool,
    ) -> (r: Vec<Extraction>)
        requires
            forall|k: int|
                0 <= k < extractions@.len() ==> unaligned(#[trigger] extractions@[k]@),
            char_offset is Some ==> char_offset->0 + source_text@.len() <= usize::MAX,
            char_offset is None ==> source_text@.len() <= usize::MAX,
            token_offset + source_text@.len() <= usize::MAX,
        ensures
            r@.len() == extractions@.len(),
            forall|k: int|
                0 <= k < r@.len() ==> aligned_result_ok(
                    source_text@,
                    extractions@[k]@,
                    (#[trigger] r@[k])@,
                    token_offset as int,
                    enable_fuzzy_alignment,
                    fuzzy_alignment_threshold_permille,
                ),
    {
        let mut group: Vec<Extraction> = Vec::new();
        let mut i: usize = 0;
        while i < extractions.len()
            invariant
                forall|k: int|
                    0 <= k < extractions@.len() ==> unaligned(#[trigger] extractions@[k]@),
                i <= extractions@.len(),
                group@.len() == i,
                forall|k: int| 0 <= k < i ==> (#[trigger] group@[k])@ == extractions@[k]@,
            decreases extractions@.len() - i,
        {
            group.push(extractions[i].clone());
            i = i + 1;
        }
        let mut groups: Vec<Vec<Extraction>> = Vec::new();
        groups.push(group);
        let mut aligner = WordAligner::new();
        let char_offset_val = match char_offset {
            Some(c) => c,
            None => 0,
        };
        let aligned = aligner.align_extractions(
            &groups,
            source_text,
            token_offset,
            char_offset_val,
            enable_fuzzy_alignment,
            fuzzy_alignment_threshold_permille,
            accept_match_lesser,
        );
        let mut out: Vec<Extraction> = Vec::new();
        let mut gi: usize = 0;
        while gi < aligned.len()
            invariant
                gi <= aligned@.len(),
                aligned@.len() == 1,
                groups@.len() == 1,
                groups@[0]@.len() == extractions@.len(),
                forall|k: int|
                    0 <= k < extractions@.len() ==> (#[trigger] groups@[0]@[k])@
                        == extractions@[k]@,
                aligned@[0]@.len() == extractions@.len(),
                forall|k: int|
                    0 <= k < aligned@[0]@.len() ==> aligned_result_ok(
                        source_text@,
                        groups@[0]@[k]@,
                        (#[trigger] aligned@[0]@[k])@,
                        token_offset as int,
                        enable_fuzzy_alignment,
                        fuzzy_alignment_threshold_permille,
                    ),
                gi == 0 ==> out@.len() == 0,
                gi == 1 ==> out@.len() == extractions@.len(),
                forall|k: int|
                    0 <= k < out@.len() ==> aligned_result_ok(
                        source_text@,
                        extractions@[k]@,
                        (#[trigger] out@[k])@,
                        token_offset as int,
                        enable_fuzzy_alignment,
                        fuzzy_alignment_threshold_permille,
                    ),
            decreases aligned@.len() - gi,
        {
            let g = &aligned[gi];
            let mut k: usize = 0;
            while k < g.len()
                invariant
                    gi == 0,
                    g == &aligned@[0],
                    aligned@[0]@.len() == extractions@.len(),
                    groups@[0]@.len() == extractions@.len(),
                    forall|k2: int|
                        0 <= k2 < extractions@.len() ==> (#[trigger] groups@[0]@[k2])@
                            == extractions@[k2]@,
                    forall|k2: int|
                        0 <= k2 < aligned@[0]@.len() ==> aligned_result_ok(
                            source_text@,
                            groups@[0]@[k2]@,
                            (#[trigger] aligned@[0]@[k2])@,
                            token_offset as int,
                            enable_fuzzy_alignment,
                            fuzzy_alignment_threshold_permille,
                        ),
                    k <= g@.len(),
                    out@.len() == k,
                    forall|k2: int|
                        0 <= k2 < k ==> aligned_result_ok(
                            source_text@,
                            extractions@[k2]@,
                            (#[trigger] out@[k2])@,
                            token_offset as int,
                            enable_fuzzy_alignment,
                            fuzzy_alignment_threshold_permille,
                        ),
                decreases g@.len() - k,
            {
                out.push(g[k].clone());
                k = k + 1;
            }
            gi = gi + 1;
        }
        out
    }
}

} // verus!





