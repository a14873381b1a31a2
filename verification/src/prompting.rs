//! Prompt renderer: serializes the few-shot template and the current chunk
//! text into a single prompt string.

use vstd::prelude::*;

use crate::resolver::{
    self, ends_with_spec, first_field, lemma_ends_with_concat, lemma_ends_with_concat_short,
    lemma_first_field, lemma_sort_exts_of_sorted, RExtractionView,
};
use crate::wire::{
    fields_view, json_rendered, render_json_value, render_yaml_value, yaml_rendered, ParsedValue,
    ValueView,
};

verus! {

/// The wire format of prompts and replies.
#[derive(Debug, Clone, Copy, PartialEq, Eq, Structural)]
pub enum FormatType {
    YAML,
    JSON,
}

impl FormatType {
    /// Parses a format name.
    pub fn from_format_string(value: &str) -> (r: Option<FormatType>)
        ensures
            value@ == "yaml"@ ==> r == Some(FormatType::YAML),
            value@ == "json"@ ==> r == Some(FormatType::JSON),
    {
        proof {
            reveal_strlit("yaml");
            reveal_strlit("json");
            assert("yaml"@.len() == 4 && "json"@.len() == 4);
            assert("yaml"@[0] == 'y' && "json"@[0] == 'j');
        }
        let owned = value.to_owned();
        if owned == String::from_str("yaml") {
            Some(FormatType::YAML)
        } else if owned == String::from_str("json") {
            Some(FormatType::JSON)
        } else {
            None
        }
    }
}

/// Errors of the prompt builder.
#[derive(Debug)]
pub enum PromptBuilderError {
    Parse(String),
}

/// An example extraction: a class, a text and optional attributes.
#[derive(Debug)]
pub struct Extraction {
    pub extraction_class: String,
    pub extraction_text: String,
    pub attributes: Option<Vec<(String, ParsedValue)>>,
}

/// The mathematical model of an example extraction.
pub struct PExtractionView {
    pub extraction_class: Seq<char>,
    pub extraction_text: Seq<char>,
    pub attributes: Option<Seq<(Seq<char>, ValueView)>>,
}

impl View for Extraction {
    type V = PExtractionView;

    open spec fn view(&self) -> PExtractionView {
        PExtractionView {
            extraction_class: self.extraction_class@,
            extraction_text: self.extraction_text@,
            attributes: match self.attributes {
                Some(a) => Some(fields_view(a@)),
                None => None,
            },
        }
    }
}

/// A few-shot example: a text and its expected extractions.
#[derive(Debug)]
pub struct ExampleData {
    pub text: String,
    pub extractions: Vec<Extraction>,
}

/// A structured prompt template: a task description and few-shot examples.
#[derive(Debug)]
pub struct PromptTemplateStructured {
    pub description: String,
    pub examples: Vec<ExampleData>,
}

/// The attribute fields serialized for one example extraction: its own
/// attributes, or an empty mapping.
pub open spec fn attrs_or_empty(a: Option<Seq<(Seq<char>, ValueView)>>) -> Seq<
    (Seq<char>, ValueView),
> {
    match a {
        Some(fields) => fields,
        None => Seq::empty(),
    }
}

/// The payload entry serialized for one example extraction: the class mapped
/// to the text, and the suffixed class mapped to the attributes.
pub open spec fn example_entry(e: PExtractionView, attr_sfx: Seq<char>) -> ValueView {
    ValueView::Object(
        seq![
            (e.extraction_class, ValueView::Text(e.extraction_text)),
            (e.extraction_class + attr_sfx, ValueView::Object(attrs_or_empty(e.attributes))),
        ],
    )
}

/// The serialized answer for an example: its extractions as an array under
/// the `extractions` key, rendered in the configured format, optionally
/// fenced.
pub open spec fn example_answer_ok(
    extractions: Seq<PExtractionView>,
    attr_sfx: Seq<char>,
    yaml: bool,
    fence: bool,
    answer: Seq<char>,
) -> bool {
    exists|items: Seq<ValueView>|
        {
            &&& items.len() == extractions.len()
            &&& (forall|i: int|
                0 <= i < items.len() ==> #[trigger] items[i] == example_entry(
                    extractions[i],
                    attr_sfx,
                ))
            &&& {
                let payload = ValueView::Object(
                    seq![("extractions"@, ValueView::List(items))],
                );
                let rendered = if yaml {
                    yaml_rendered(payload)
                } else {
                    json_rendered(payload)
                };
                answer == if fence {
                    (if yaml {
                        "```yaml\n"@
                    } else {
                        "```json\n"@
                    }) + rendered + "```"@
                } else {
                    rendered
                }
            }
        }
}

/// One rendered example block: question prefix and text, then answer prefix
/// and serialized answer.
pub open spec fn example_block_ok(
    qp: Seq<char>,
    ap: Seq<char>,
    text: Seq<char>,
    extractions: Seq<PExtractionView>,
    attr_sfx: Seq<char>,
    yaml: bool,
    fence: bool,
    block: Seq<char>,
) -> bool {
    exists|answer: Seq<char>|
        {
            &&& example_answer_ok(extractions, attr_sfx, yaml, fence, answer)
            &&& block == qp + text + "\n"@ + ap + answer + "\n"@
        }
}

/// Lines joined by a separator character.
pub open spec fn spec_join_lines(ws: Seq<Seq<char>>) -> Seq<char>
    decreases ws.len(),
{
    if ws.len() == 0 {
        Seq::empty()
    } else if ws.len() == 1 {
        ws[0]
    } else {
        ws[0] + seq!['\n'] + spec_join_lines(ws.drop_first())
    }
}

proof fn lemma_join_lines_push(ws: Seq<Seq<char>>, w: Seq<char>)
    ensures
        ws.len() == 0 ==> spec_join_lines(ws.push(w)) == w,
        ws.len() > 0 ==> spec_join_lines(ws.push(w)) == spec_join_lines(ws) + seq!['\n'] + w,
    decreases ws.len(),
{
    if ws.len() == 0 {
        assert(ws.push(w).len() == 1);
        assert(spec_join_lines(ws.push(w)) == ws.push(w)[0]);
    } else {
        assert(ws.push(w).drop_first() =~= ws.drop_first().push(w));
        lemma_join_lines_push(ws.drop_first(), w);
        if ws.len() == 1 {
            assert(spec_join_lines(ws.push(w)) == ws[0] + seq!['\n'] + w);
            assert(spec_join_lines(ws) == ws[0]);
        } else {
            assert(spec_join_lines(ws.push(w)) == ws[0] + seq!['\n'] + spec_join_lines(
                ws.drop_first().push(w),
            ));
            assert(spec_join_lines(ws.drop_first().push(w)) == spec_join_lines(ws.drop_first())
                + seq!['\n'] + w);
            assert(ws[0] + seq!['\n'] + (spec_join_lines(ws.drop_first()) + seq!['\n'] + w) =~= (
            ws[0] + seq!['\n'] + spec_join_lines(ws.drop_first())) + seq!['\n'] + w);
        }
    }
}

/// Generates question-answer prompts from a template.
#[derive(Debug)]
pub struct QAPromptGenerator {
    pub template: PromptTemplateStructured,
    pub format_type: FormatType,
    pub attribute_suffix: String,
    pub examples_heading: String,
    pub question_prefix: String,
    pub answer_prefix: String,
    pub fence_output: bool,
}

impl QAPromptGenerator {
    /// A generator over an empty template: fenced YAML, `_attributes`
    /// suffix, `Examples` heading and `Q: `/`A: ` prefixes.
    pub fn default() -> (r: Self)
        ensures
            r.template.description@ == Seq::<char>::empty(),
            r.template.examples@.len() == 0,
            r.format_type == FormatType::YAML,
            r.attribute_suffix@ == "_attributes"@,
            r.examples_heading@ == "Examples"@,
            r.question_prefix@ == "Q: "@,
            r.answer_prefix@ == "A: "@,
            r.fence_output == true,
    {
        QAPromptGenerator {
            template: PromptTemplateStructured { description: String::new(), examples: Vec::new() },
            format_type: FormatType::YAML,
            attribute_suffix: String::from_str("_attributes"),
            examples_heading: String::from_str("Examples"),
            question_prefix: String::from_str("Q: "),
            answer_prefix: String::from_str("A: "),
            fence_output: true,
        }
    }

    /// A generator over the given template with the default settings.
    pub fn new(template: PromptTemplateStructured) -> (r: Self)
        ensures
            r.template == template,
            r.format_type == FormatType::YAML,
            r.attribute_suffix@ == "_attributes"@,
            r.examples_heading@ == "Examples"@,
            r.question_prefix@ == "Q: "@,
            r.answer_prefix@ == "A: "@,
            r.fence_output == true,
    {
        QAPromptGenerator {
            template,
            format_type: FormatType::YAML,
            attribute_suffix: String::from_str("_attributes"),
            examples_heading: String::from_str("Examples"),
            question_prefix: String::from_str("Q: "),
            answer_prefix: String::from_str("A: "),
            fence_output: true,
        }
    }

    /// Serializes one example as a question block and an answer block.
    pub fn format_example_as_text(&self, example: &ExampleData) -> (r: String)
        ensures
            example_block_ok(
                self.question_prefix@,
                self.answer_prefix@,
                example.text@,
                example.extractions@.map_values(|e: Extraction| e@),
                self.attribute_suffix@,
                self.format_type == FormatType::YAML,
                self.fence_output,
                r@,
            ),
    {
        let ghost exts_view = example.extractions@.map_values(|e: Extraction| e@);
        let mut items: Vec<ParsedValue> = Vec::new();
        let mut i: usize = 0;
        while i < example.extractions.len()
            invariant
                exts_view == example.extractions@.map_values(|e: Extraction| e@),
                i <= example.extractions@.len(),
                items@.len() == i,
                forall|k: int|
                    0 <= k < i ==> (#[trigger] items@[k])@ == example_entry(
                        example.extractions@[k]@,
                        self.attribute_suffix@,
                    ),
            decreases example.extractions@.len() - i,
        {
            let ext = &example.extractions[i];
            let mut entry: Vec<(String, ParsedValue)> = Vec::new();
            entry.push(
                (ext.extraction_class.clone(), ParsedValue::Text(ext.extraction_text.clone())),
            );
            let attrs_key = ext.extraction_class.clone().concat(self.attribute_suffix.as_str());
            let attrs_value: ParsedValue = match &ext.attributes {
                Some(a) => {
                    let mut fields: Vec<(String, ParsedValue)> = Vec::new();
                    let mut j: usize = 0;
                    while j < a.len()
                        invariant
                            j <= a@.len(),
                            fields@.len() == j,
                            forall|m: int|
                                0 <= m < j ==> (#[trigger] fields@[m]).0@ == a@[m].0@
                                    && fields@[m].1@ == a@[m].1@,
                        decreases a@.len() - j,
                    {
                        let (k, v) = &a[j];
                        fields.push((k.clone(), v.clone()));
                        j = j + 1;
                    }
                    proof {
                        crate::wire::lemma_fields_view(fields@);
                        crate::wire::lemma_fields_view(a@);
                        assert forall|m: int|
                            0 <= m < fields@.len() implies fields_view(fields@)[m] == fields_view(
                            a@,
                        )[m] by {
                            assert(fields@[m].0@ == a@[m].0@ && fields@[m].1@ == a@[m].1@);
                        }
                        assert(fields_view(fields@) =~= fields_view(a@));
                    }
                    ParsedValue::Object(fields)
                },
                None => ParsedValue::Object(Vec::new()),
            };
            let ghost pre_entry = entry@;
            entry.push((attrs_key, attrs_value));
            proof {
                crate::wire::lemma_fields_view(entry@);
                assert(entry@.len() == 2);
                assert(entry@[0].0@ == example.extractions@[i as int]@.extraction_class);
                assert(entry@[0].1@ == ValueView::Text(
                    example.extractions@[i as int]@.extraction_text,
                ));
                assert(entry@[1].0@ == example.extractions@[i as int]@.extraction_class
                    + self.attribute_suffix@);
                assert(entry@[1].1@ == ValueView::Object(
                    attrs_or_empty(example.extractions@[i as int]@.attributes),
                ));
                assert(fields_view(entry@) =~= seq![
                    (
                        example.extractions@[i as int]@.extraction_class,
                        ValueView::Text(example.extractions@[i as int]@.extraction_text),
                    ),
                    (
                        example.extractions@[i as int]@.extraction_class
                            + self.attribute_suffix@,
                        ValueView::Object(
                            attrs_or_empty(example.extractions@[i as int]@.attributes),
                        ),
                    ),
                ]);
            }
            items.push(ParsedValue::Object(entry));
            i = i + 1;
        }
        let ghost items_snap = items@;
        let mut payload_fields: Vec<(String, ParsedValue)> = Vec::new();
        payload_fields.push((String::from_str("extractions"), ParsedValue::List(items)));
        let ghost pf_snap = payload_fields@;
        let payload = ParsedValue::Object(payload_fields);
        let ghost iv = crate::wire::values_view(items_snap);
        proof {
            crate::wire::lemma_values_view(items_snap);
            crate::wire::lemma_fields_view(pf_snap);
            assert(iv.len() == exts_view.len());
            assert forall|k: int| 0 <= k < iv.len() implies #[trigger] iv[k] == example_entry(
                exts_view[k],
                self.attribute_suffix@,
            ) by {
                assert(items_snap[k]@ == example_entry(
                    example.extractions@[k]@,
                    self.attribute_suffix@,
                ));
                assert(exts_view[k] == example.extractions@[k]@);
            }
            assert(pf_snap[0].1@ == ValueView::List(iv));
            assert(fields_view(pf_snap) =~= seq![("extractions"@, ValueView::List(iv))]);
            assert(payload@ == ValueView::Object(seq![("extractions"@, ValueView::List(iv))]));
        }
        let ghost payload_view = payload@;
        let rendered: String = match self.format_type {
            FormatType::YAML => render_yaml_value(&payload),
            FormatType::JSON => render_json_value(&payload),
        };
        let answer: String = if self.fence_output {
            let mut a = match self.format_type {
                FormatType::YAML => String::from_str("```yaml\n"),
                FormatType::JSON => String::from_str("```json\n"),
            };
            a.append(rendered.as_str());
            a.append("```");
            a
        } else {
            rendered
        };
        proof {
            assert(example_answer_ok(
                exts_view,
                self.attribute_suffix@,
                self.format_type == FormatType::YAML,
                self.fence_output,
                answer@,
            ));
        }
        let mut out = self.question_prefix.clone();
        out.append(example.text.as_str());
        out.append("\n");
        out.append(self.answer_prefix.as_str());
        out.append(answer.as_str());
        out.append("\n");
        proof {
            assert(example_block_ok(
                self.question_prefix@,
                self.answer_prefix@,
                example.text@,
                exts_view,
                self.attribute_suffix@,
                self.format_type == FormatType::YAML,
                self.fence_output,
                out@,
            ));
        }
        out
    }
}

/// The view of an optional borrowed string.
pub open spec fn opt_str_view(s: Option<&str>) -> Option<Seq<char>> {
    match s {
        Some(c) => Some(c@),
        None => None,
    }
}

/// The rendered example blocks of a template, one per example.
pub open spec fn example_blocks_ok(
    g: QAPromptGenerator,
    examples: Seq<ExampleData>,
    blocks: Seq<Seq<char>>,
) -> bool {
    &&& blocks.len() == examples.len()
    &&& forall|i: int|
        0 <= i < blocks.len() ==> example_block_ok(
            g.question_prefix@,
            g.answer_prefix@,
            examples[i].text@,
            (#[trigger] examples[i]).extractions@.map_values(|e: Extraction| e@),
            g.attribute_suffix@,
            g.format_type == FormatType::YAML,
            g.fence_output,
            blocks[i],
        )
}

/// The lines of a rendered prompt: the description, the optional context,
/// the example section, the question and the answer prefix.
pub open spec fn prompt_lines_ok(
    g: QAPromptGenerator,
    question: Seq<char>,
    context: Option<Seq<char>>,
    lines: Seq<Seq<char>>,
) -> bool {
    exists|blocks: Seq<Seq<char>>|
        {
            &&& #[trigger] example_blocks_ok(g, g.template.examples@, blocks)
            &&& lines == seq![g.template.description@ + "\n"@] + (match context {
                Some(c) => if c.len() > 0 {
                    seq![c + "\n"@]
                } else {
                    Seq::empty()
                },
                None => Seq::empty(),
            }) + (if g.template.examples@.len() > 0 {
                seq![g.examples_heading@] + blocks
            } else {
                Seq::empty()
            }) + seq![g.question_prefix@ + question, g.answer_prefix@]
        }
}

impl QAPromptGenerator {
    /// Renders the full prompt for a question.
    pub fn render(&self, question: &str) -> (r: String)
        ensures
            exists|lines: Seq<Seq<char>>|
                #[trigger] prompt_lines_ok(*self, question@, None, lines) && r@
                    == spec_join_lines(lines),
    {
        self.render_with_context(question, None)
    }

    /// Renders the full prompt for a question with optional additional
    /// context.
    pub fn render_with_context(&self, question: &str, additional_context: Option<&str>) -> (r:
        String)
        ensures
            exists|lines: Seq<Seq<char>>|
                #[trigger] prompt_lines_ok(
                    *self,
                    question@,
                    opt_str_view(additional_context),
                    lines,
                ) && r@ == spec_join_lines(lines),
    {
        proof {
            reveal_strlit("\n");
            assert("\n"@ =~= seq!['\n']);
        }
        let ghost gsnap = *self;
        let mut lines: Vec<String> = Vec::new();
        let mut first_line = self.template.description.clone();
        first_line.append("\n");
        lines.push(first_line);
        match additional_context {
            Some(ctx) => {
                if !ctx.is_empty() {
                    let mut ctx_line = ctx.to_owned();
                    ctx_line.append("\n");
                    lines.push(ctx_line);
                }
            },
            None => {},
        }
        let ghost mut blocks: Seq<Seq<char>> = Seq::empty();
        if self.template.examples.len() > 0 {
            lines.push(self.examples_heading.clone());
            let mut i: usize = 0;
            while i < self.template.examples.len()
                invariant
                    *self == gsnap,
                    i <= self.template.examples@.len(),
                    blocks.len() == i,
                    forall|k: int|
                        0 <= k < i ==> example_block_ok(
                            gsnap.question_prefix@,
                            gsnap.answer_prefix@,
                            gsnap.template.examples@[k].text@,
                            (#[trigger] gsnap.template.examples@[k]).extractions@.map_values(
                                |e: Extraction| e@,
                            ),
                            gsnap.attribute_suffix@,
                            gsnap.format_type == FormatType::YAML,
                            gsnap.fence_output,
                            blocks[k],
                        ),
                    lines@.map_values(|l: String| l@) == lines_head(
                        gsnap,
                        match additional_context {
                            Some(c) => Some(c@),
                            None => None,
                        },
                    ) + blocks,
                decreases self.template.examples@.len() - i,
            {
                let block = self.format_example_as_text(&self.template.examples[i]);
                proof {
                    blocks = blocks.push(block@);
                }
                let ghost old_lines = lines@;
                lines.push(block);
                proof {
                    assert(lines@.map_values(|l: String| l@) =~= old_lines.map_values(
                        |l: String| l@,
                    ) + seq![block@]);
                    assert(old_lines.map_values(|l: String| l@) + seq![block@] =~= (lines_head(
                        gsnap,
                        match additional_context {
                            Some(c) => Some(c@),
                            None => None,
                        },
                    ) + blocks.drop_last()) + seq![blocks.last()]);
                    assert((lines_head(
                        gsnap,
                        match additional_context {
                            Some(c) => Some(c@),
                            None => None,
                        },
                    ) + blocks.drop_last()) + seq![blocks.last()] =~= lines_head(
                        gsnap,
                        match additional_context {
                            Some(c) => Some(c@),
                            None => None,
                        },
                    ) + blocks);
                }
                i = i + 1;
            }
        }
        let mut question_line = self.question_prefix.clone();
        question_line.append(question);
        lines.push(question_line);
        lines.push(self.answer_prefix.clone());
        let ghost final_lines = lines@.map_values(|l: String| l@);
        proof {
            let ctxv = match additional_context {
                Some(c) => Some(c@),
                None => None,
            };
            assert(final_lines =~= lines_head(gsnap, ctxv) + (if gsnap.template.examples@.len()
                > 0 {
                blocks
            } else {
                Seq::<Seq<char>>::empty()
            }) + seq![gsnap.question_prefix@ + question@, gsnap.answer_prefix@]);
            assert(example_blocks_ok(gsnap, gsnap.template.examples@, blocks));
            assert(final_lines =~= seq![gsnap.template.description@ + "\n"@] + (match ctxv {
                Some(c) => if c.len() > 0 {
                    seq![c + "\n"@]
                } else {
                    Seq::<Seq<char>>::empty()
                },
                None => Seq::<Seq<char>>::empty(),
            }) + (if gsnap.template.examples@.len() > 0 {
                seq![gsnap.examples_heading@] + blocks
            } else {
                Seq::<Seq<char>>::empty()
            }) + seq![gsnap.question_prefix@ + question@, gsnap.answer_prefix@]);
            assert(prompt_lines_ok(gsnap, question@, ctxv, final_lines));
        }
        join_lines(&lines)
    }
}

/// The prompt lines before the example blocks: the description, the optional
/// context and, when examples exist, the heading.
pub open spec fn lines_head(g: QAPromptGenerator, context: Option<Seq<char>>) -> Seq<Seq<char>> {
    seq![g.template.description@ + "\n"@] + (match context {
        Some(c) => if c.len() > 0 {
            seq![c + "\n"@]
        } else {
            Seq::empty()
        },
        None => Seq::empty(),
    }) + (if g.template.examples@.len() > 0 {
        seq![g.examples_heading@]
    } else {
        Seq::empty()
    })
}

/// Joins lines with single newlines.
fn join_lines(lines: &Vec<String>) -> (r: String)
    ensures
        r@ == spec_join_lines(lines@.map_values(|l: String| l@)),
{
    proof {
        reveal_strlit("\n");
        assert("\n"@ =~= seq!['\n']);
    }
    let mut out = String::new();
    let mut i: usize = 0;
    while i < lines.len()
        invariant
            i <= lines@.len(),
            "\n"@ =~= seq!['\n'],
            out@ == spec_join_lines(lines@.map_values(|l: String| l@).take(i as int)),
        decreases lines@.len() - i,
    {
        if i > 0 {
            out.append("\n");
        }
        out.append(lines[i].as_str());
        proof {
            let all = lines@.map_values(|l: String| l@);
            assert(all.take(i + 1).drop_last() =~= all.take(i as int));
            assert(all.take(i + 1).last() == lines@[i as int]@);
            lemma_join_lines_push(all.take(i as int), lines@[i as int]@);
            assert(all.take(i as int).push(lines@[i as int]@) =~= all.take(i + 1));
        }
        i = i + 1;
    }
    proof {
        assert(lines@.map_values(|l: String| l@).take(lines@.len() as int) =~= lines@.map_values(
            |l: String| l@,
        ));
    }
    out
}

// ---------------------------------------------------------------------------
// The renderer-to-resolver round trip
// ---------------------------------------------------------------------------

/// The payload value the renderer serializes for a list of example
/// extractions.
pub open spec fn example_payload(extractions: Seq<PExtractionView>) -> ValueView {
    ValueView::Object(
        seq![
            (
                "extractions"@,
                ValueView::List(
                    Seq::new(
                        extractions.len(),
                        |i: int| example_entry(extractions[i], "_attributes"@),
                    ),
                ),
            ),
        ],
    )
}

/// An example class that survives the round trip: it collides with no
/// reserved key of the resolver.
pub open spec fn round_trip_class_ok(c: Seq<char>) -> bool {
    &&& c != "extraction_class"@
    &&& c != "extraction_text"@
    &&& !ends_with_spec(c, "_index"@)
    &&& !ends_with_spec(c, "_attributes"@)
}

/// What resolving the payload built from entry `i` yields for that entry:
/// its class and text, the counter-assigned index `i + 1`, the group ordinal
/// `i`, and its attributes (an empty mapping when absent).
pub open spec fn expected_resolution(e: PExtractionView, i: int) -> RExtractionView {
    resolver::mk_resolved(
        e.extraction_class,
        e.extraction_text,
        (i + 1) as usize,
        i as usize,
        Some(ValueView::Object(attrs_or_empty(e.attributes))),
    )
}

proof fn lemma_reserved_literal_facts()
    ensures
        "extraction_class"@.len() == 16,
        "extraction_text"@.len() == 15,
        "_index"@.len() == 6,
        "_attributes"@.len() == 11,
        "extractions"@.len() == 11,
        !ends_with_spec("extraction_class"@, "_index"@),
        !ends_with_spec("extraction_text"@, "_index"@),
        !ends_with_spec("extraction_class"@, "_attributes"@),
        !ends_with_spec("extraction_text"@, "_attributes"@),
        !ends_with_spec("_attributes"@, "_index"@),
        "extraction_class"@ != "extraction_text"@,
{
    reveal_strlit("extraction_class");
    reveal_strlit("extraction_text");
    reveal_strlit("_index");
    reveal_strlit("_attributes");
    reveal_strlit("extractions");
    assert("extraction_class"@.len() == 16);
    assert("extraction_text"@.len() == 15);
    assert("_index"@.len() == 6);
    assert("_attributes"@.len() == 11);
    assert("extractions"@.len() == 11);
    if ends_with_spec("extraction_class"@, "_index"@) {
        assert("extraction_class"@.subrange(10, 16)[1] == "_index"@[1]);
        assert("extraction_class"@[11] == 'c' && "_index"@[1] == 'i');
    }
    if ends_with_spec("extraction_text"@, "_index"@) {
        assert("extraction_text"@.subrange(9, 15)[0] == "_index"@[0]);
        assert("extraction_text"@[9] == 'n' && "_index"@[0] == '_');
    }
    if ends_with_spec("extraction_class"@, "_attributes"@) {
        assert("extraction_class"@.subrange(5, 16)[0] == "_attributes"@[0]);
        assert("extraction_class"@[5] == 'c' && "_attributes"@[0] == '_');
    }
    if ends_with_spec("extraction_text"@, "_attributes"@) {
        assert("extraction_text"@.subrange(4, 15)[0] == "_attributes"@[0]);
        assert("extraction_text"@[4] == 'a' && "_attributes"@[0] == '_');
    }
    if ends_with_spec("_attributes"@, "_index"@) {
        assert("_attributes"@.subrange(5, 11)[0] == "_index"@[0]);
        assert("_attributes"@[5] == 'i' && "_index"@[0] == '_');
    }
}

/// The canonical group the resolver builds from one payload entry.
pub open spec fn entry_group(e: PExtractionView) -> Seq<(Seq<char>, ValueView)> {
    seq![
        ("extraction_class"@, ValueView::Text(e.extraction_class)),
        ("extraction_text"@, ValueView::Text(e.extraction_text)),
        (
            "extraction_text"@ + "_attributes"@,
            ValueView::Object(attrs_or_empty(e.attributes)),
        ),
    ]
}

/// One payload entry normalizes, in category form, to exactly its canonical
/// group.
proof fn lemma_normalize_example_entry(e: PExtractionView)
    requires
        round_trip_class_ok(e.extraction_class),
    ensures
        resolver::cat_item_groups(
            example_entry(e, "_attributes"@),
            Some("_index"@),
            Some("_attributes"@),
        ) =~= seq![entry_group(e)],
        resolver::item_has_category_key(
            example_entry(e, "_attributes"@),
            Some("_index"@),
            Some("_attributes"@),
        ),
{
    lemma_reserved_literal_facts();
    let isfx = Some("_index"@);
    let asfx = Some("_attributes"@);
    let c = e.extraction_class;
    let f = example_entry(e, "_attributes"@)->Object_0;
    assert(f.len() == 2);
    assert(!resolver::is_reserved_key(f[0].0, isfx, asfx));
    assert(resolver::item_has_category_key(example_entry(e, "_attributes"@), isfx, asfx));
    // the second key carries the attributes suffix and is skipped
    lemma_ends_with_concat(c, "_attributes"@);
    assert(resolver::is_reserved_key(f[1].0, isfx, asfx));
    // the encoded group: class, text, and the attributes sibling
    lemma_first_field(f, c + "_index"@);
    assert(first_field(f, c + "_index"@) is None) by {
        assert(f[0].0 != c + "_index"@) by {
            if c == c + "_index"@ {
                assert((c + "_index"@).len() == c.len() + 6);
            }
        }
        assert(f[1].0 != c + "_index"@) by {
            if c + "_attributes"@ == c + "_index"@ {
                assert((c + "_attributes"@).len() == (c + "_index"@).len());
            }
        }
        assert forall|i: int| 0 <= i < f.len() implies (#[trigger] f[i]).0 != c + "_index"@ by {}
    }
    lemma_first_field(f, c + "_attributes"@);
    assert(first_field(f, c + "_attributes"@) == Some(f[1].1)) by {
        assert(f[0].0 != c + "_attributes"@) by {
            if c == c + "_attributes"@ {
                assert((c + "_attributes"@).len() == c.len() + 11);
            }
        }
        assert(f[1].0 == c + "_attributes"@);
        assert forall|m: int| 0 <= m < 1 implies (#[trigger] f[m]).0 != c + "_attributes"@ by {}
    }
    assert(resolver::cat_encode(f, c, ValueView::Text(e.extraction_text), isfx, asfx)
        =~= entry_group(e));
    let inner = Seq::new(
        f.len(),
        |j: int|
            if resolver::is_reserved_key(f[j].0, isfx, asfx) {
                Seq::empty()
            } else {
                seq![resolver::cat_encode(f, f[j].0, f[j].1, isfx, asfx)]
            },
    );
    assert(inner.len() == 2);
    assert(inner[0] == seq![entry_group(e)]);
    assert(inner[1] =~= Seq::<Seq<(Seq<char>, ValueView)>>::empty());
    assert(inner.drop_last() =~= seq![inner[0]]);
    crate::chunking::lemma_flatten_push(inner.drop_last(), inner[1]);
    assert(inner.drop_last().push(inner[1]) =~= inner);
    assert(seq![inner[0]].flatten() =~= seq![entry_group(e)]) by {
        assert(seq![inner[0]].drop_first() =~= Seq::<Seq<Seq<(Seq<char>, ValueView)>>>::empty());
        assert(seq![inner[0]].flatten() == inner[0] + seq![inner[0]].drop_first().flatten());
        assert(Seq::<Seq<Seq<(Seq<char>, ValueView)>>>::empty().flatten() =~= Seq::<
            Seq<(Seq<char>, ValueView)>,
        >::empty());
        assert(inner[0] + Seq::<Seq<(Seq<char>, ValueView)>>::empty() =~= inner[0]);
    }
    assert(inner.flatten() =~= seq![entry_group(e)] + inner[1]);
    assert(seq![entry_group(e)] + inner[1] =~= seq![entry_group(e)]);
}

/// One canonical group projects to exactly its entry's expected resolution,
/// advancing the counter by one.
proof fn lemma_project_example_entry(e: PExtractionView, gi: usize, c: usize)
    requires
        round_trip_class_ok(e.extraction_class),
        c < usize::MAX,
    ensures
        resolver::spec_project_group(
            entry_group(e),
            gi,
            c,
            Some("_index"@),
            Some("_attributes"@),
        ) == Some(
            (
                seq![
                    resolver::mk_resolved(
                        e.extraction_class,
                        e.extraction_text,
                        (c + 1) as usize,
                        gi,
                        Some(ValueView::Object(attrs_or_empty(e.attributes))),
                    ),
                ],
                (c + 1) as usize,
            ),
        ),
{
    lemma_reserved_literal_facts();
    let isfx = Some("_index"@);
    let asfx = Some("_attributes"@);
    let g = entry_group(e);
    assert(resolver::group_indexes_int(g, isfx)) by {
        assert forall|i: int|
            0 <= i < g.len() implies (ends_with_spec((#[trigger] g[i]).0, "_index"@) ==> g[i].1
            is Number && g[i].1->is_int) by {
            if i == 2 {
                lemma_ends_with_concat_short("extraction_text"@, "_attributes"@, "_index"@);
            }
        }
    }
    lemma_first_field(g, "extraction_class"@);
    assert(first_field(g, "extraction_class"@) == Some(g[0].1)) by {
        assert(g[0].0 == "extraction_class"@);
        assert forall|m: int| 0 <= m < 0 implies (#[trigger] g[m]).0 != "extraction_class"@ by {}
    }
    lemma_first_field(g, "extraction_text"@);
    assert(first_field(g, "extraction_text"@) == Some(g[1].1)) by {
        assert(g[0].0 != "extraction_text"@);
        assert(g[1].0 == "extraction_text"@);
        assert forall|m: int| 0 <= m < 1 implies (#[trigger] g[m]).0 != "extraction_text"@ by {}
    }
    assert(resolver::is_structured_group(g));
    // the index sibling of `extraction_text` is absent: all three keys
    // differ from it in length
    lemma_first_field(g, "extraction_text"@ + "_index"@);
    assert(first_field(g, "extraction_text"@ + "_index"@) is None) by {
        assert(("extraction_text"@ + "_index"@).len() == 21);
        assert(g[2].0.len() == 26);
        assert(g[0].0 != "extraction_text"@ + "_index"@);
        assert(g[1].0 != "extraction_text"@ + "_index"@);
        assert(g[2].0 != "extraction_text"@ + "_index"@);
        assert forall|m: int|
            0 <= m < g.len() implies (#[trigger] g[m]).0 != "extraction_text"@ + "_index"@ by {}
    }
    assert(resolver::spec_index_of(g, "extraction_text"@, isfx, c) == Some(
        (((c + 1) as usize), ((c + 1) as usize)),
    ));
    // the attributes sibling is the third field
    lemma_first_field(g, "extraction_text"@ + "_attributes"@);
    assert(first_field(g, "extraction_text"@ + "_attributes"@) == Some(g[2].1)) by {
        assert(("extraction_text"@ + "_attributes"@).len() == 26);
        assert(g[0].0.len() == 16);
        assert(g[1].0.len() == 15);
        assert(g[2].0 == "extraction_text"@ + "_attributes"@);
        assert forall|m: int|
            0 <= m < 2 implies (#[trigger] g[m]).0 != "extraction_text"@ + "_attributes"@ by {}
    }
    assert(resolver::spec_attrs_of(g, "extraction_text"@, asfx) == Some(
        Some(ValueView::Object(attrs_or_empty(e.attributes))),
    ));
    assert(resolver::spec_text_of(first_field(g, "extraction_text"@)->0) == Some(
        e.extraction_text,
    ));
    assert(first_field(g, "extraction_class"@)->0->Text_0 == e.extraction_class);
}


/// The payload of a list of round-trip-safe example extractions normalizes,
/// in category form, to one canonical group per extraction, in order.
proof fn lemma_groups_of_example_payload(extractions: Seq<PExtractionView>)
    requires
        forall|i: int|
            0 <= i < extractions.len() ==> round_trip_class_ok(
                (#[trigger] extractions[i]).extraction_class,
            ),
    ensures
        resolver::spec_groups_of(
            example_payload(extractions),
            Some("_index"@),
            Some("_attributes"@),
        ) == Some(Seq::new(extractions.len(), |i: int| entry_group(extractions[i]))),
{
    lemma_reserved_literal_facts();
    let isfx = Some("_index"@);
    let asfx = Some("_attributes"@);
    let items = Seq::new(
        extractions.len(),
        |i: int| example_entry(extractions[i], "_attributes"@),
    );
    let fields = example_payload(extractions)->Object_0;
    lemma_first_field(fields, "extractions"@);
    assert(first_field(fields, "extractions"@) == Some(fields[0].1)) by {
        assert(fields[0].0 == "extractions"@);
        assert forall|m: int| 0 <= m < 0 implies (#[trigger] fields[m]).0 != "extractions"@ by {}
    }
    assert(fields[0].1->List_0 =~= items);
    assert(first_field(fields, "extractions"@) == Some(ValueView::List(items)));
    assert forall|i: int| 0 <= i < items.len() implies resolver::item_has_category_key(
        #[trigger] items[i],
        isfx,
        asfx,
    ) by {
        lemma_normalize_example_entry(extractions[i]);
    }
    assert(resolver::is_category_form(items, isfx, asfx));
    let inner = Seq::new(items.len(), |i: int| resolver::cat_item_groups(items[i], isfx, asfx));
    assert forall|i: int| 0 <= i < inner.len() implies (#[trigger] inner[i]).len() == 1 by {
        lemma_normalize_example_entry(extractions[i]);
    }
    crate::chunking::lemma_flatten_singletons(inner);
    assert(resolver::cat_form_groups(items, isfx, asfx) == inner.flatten()) by {
        assert(Seq::new(
            items.len(),
            |i: int| resolver::cat_item_groups(items[i], isfx, asfx),
        ) =~= inner);
    }
    assert(inner.flatten() =~= Seq::new(
        extractions.len(),
        |i: int| entry_group(extractions[i]),
    )) by {
        assert forall|i: int| 0 <= i < extractions.len() implies inner.flatten()[i]
            == entry_group(extractions[i]) by {
            lemma_normalize_example_entry(extractions[i]);
            assert(inner[i][0] == entry_group(extractions[i]));
        }
    }
}

/// Projecting the canonical groups from position `gi` on, with the counter at
/// `gi`, yields the expected resolutions of the remaining extractions.
proof fn lemma_project_example_groups(extractions: Seq<PExtractionView>, gi: int)
    requires
        forall|i: int|
            0 <= i < extractions.len() ==> round_trip_class_ok(
                (#[trigger] extractions[i]).extraction_class,
            ),
        extractions.len() < usize::MAX,
        0 <= gi <= extractions.len(),
    ensures
        resolver::spec_project_groups(
            Seq::new(extractions.len(), |i: int| entry_group(extractions[i])),
            gi,
            gi as usize,
            Some("_index"@),
            Some("_attributes"@),
        ) == Some(
            Seq::new(
                (extractions.len() - gi) as nat,
                |k: int| expected_resolution(extractions[gi + k], gi + k),
            ),
        ),
    decreases extractions.len() - gi,
{
    let isfx = Some("_index"@);
    let asfx = Some("_attributes"@);
    let groups = Seq::new(extractions.len(), |i: int| entry_group(extractions[i]));
    let want = Seq::new(
        (extractions.len() - gi) as nat,
        |k: int| expected_resolution(extractions[gi + k], gi + k),
    );
    if gi == extractions.len() {
        assert(want =~= Seq::<RExtractionView>::empty());
    } else {
        lemma_project_example_entry(extractions[gi], gi as usize, gi as usize);
        assert(groups[gi] == entry_group(extractions[gi]));
        let head = resolver::mk_resolved(
            extractions[gi].extraction_class,
            extractions[gi].extraction_text,
            (gi + 1) as usize,
            gi as usize,
            Some(ValueView::Object(attrs_or_empty(extractions[gi].attributes))),
        );
        assert(resolver::spec_project_group(groups[gi], gi as usize, gi as usize, isfx, asfx)
            == Some((seq![head], (gi + 1) as usize)));
        lemma_project_example_groups(extractions, gi + 1);
        let r2 = resolver::spec_project_groups(groups, gi + 1, (gi + 1) as usize, isfx, asfx);
        assert(r2 is Some);
        assert(seq![head] + r2->0 =~= want) by {
            assert forall|k: int| 0 <= k < want.len() implies (seq![head] + r2->0)[k]
                == want[k] by {
                if k > 0 {
                    assert(r2->0[k - 1] == expected_resolution(
                        extractions[gi + 1 + (k - 1)],
                        gi + 1 + (k - 1),
                    ));
                }
            }
        }
    }
}

/// The unfenced answer the renderer serializes for a list of example
/// extractions is exactly the configured rendering of the example payload,
/// so the renderer's round-trip promise speaks of that payload.
pub proof fn lemma_example_answer_payload(
    extractions: Seq<PExtractionView>,
    yaml: bool,
    answer: Seq<char>,
)
    requires
        example_answer_ok(extractions, "_attributes"@, yaml, false, answer),
    ensures
        answer == (if yaml {
            yaml_rendered(example_payload(extractions))
        } else {
            json_rendered(example_payload(extractions))
        }),
{
    let items = choose|items: Seq<ValueView>|
        {
            &&& items.len() == extractions.len()
            &&& (forall|i: int|
                0 <= i < items.len() ==> #[trigger] items[i] == example_entry(
                    extractions[i],
                    "_attributes"@,
                ))
            &&& {
                let payload = ValueView::Object(
                    seq![("extractions"@, ValueView::List(items))],
                );
                let rendered = if yaml {
                    yaml_rendered(payload)
                } else {
                    json_rendered(payload)
                };
                answer == if false {
                    (if yaml {
                        "```yaml\n"@
                    } else {
                        "```json\n"@
                    }) + rendered + "```"@
                } else {
                    rendered
                }
            }
        };
    assert(items =~= Seq::new(
        extractions.len(),
        |i: int| example_entry(extractions[i], "_attributes"@),
    ));
    assert(seq![("extractions"@, ValueView::List(items))] =~= example_payload(
        extractions,
    )->Object_0);
}

/// The round trip from the renderer to the resolver: a reply that parses
/// back to the payload the renderer serializes for a list of round-trip-safe
/// example extractions resolves, and resolves to exactly those extractions,
/// in order, with the counter-assigned one-based indexes, the group
/// ordinals, and the attributes (an empty mapping where absent). The render
/// wrapper promises the parse-back hypothesis at its call site for a clean
/// payload whose rendering parses at all.
pub proof fn lemma_render_resolve_round_trip(
    cfg: resolver::Resolver,
    extractions: Seq<PExtractionView>,
    answer: Seq<char>,
)
    requires
        !cfg.fence_output,
        cfg.idx_sfx() == Some("_index"@),
        cfg.attr_sfx() == Some("_attributes"@),
        forall|i: int|
            0 <= i < extractions.len() ==> round_trip_class_ok(
                (#[trigger] extractions[i]).extraction_class,
            ),
        extractions.len() < usize::MAX,
        resolver::parsed_of(cfg.format_is_yaml, answer) == Some(example_payload(extractions)),
        resolver::spec_trim(answer).len() != 0,
    ensures
        cfg.resolvable(answer),
        cfg.resolution_ok(
            answer,
            Seq::new(extractions.len(), |i: int| expected_resolution(extractions[i], i)),
        ),
{
    let isfx = Some("_index"@);
    let asfx = Some("_attributes"@);
    let v = example_payload(extractions);
    let groups = Seq::new(extractions.len(), |i: int| entry_group(extractions[i]));
    let out = Seq::new(extractions.len(), |i: int| expected_resolution(extractions[i], i));
    lemma_groups_of_example_payload(extractions);
    lemma_project_example_groups(extractions, 0);
    let proj = resolver::spec_project_groups(groups, 0, 0, isfx, asfx);
    assert(proj is Some);
    assert(proj->0 =~= out);
    assert forall|i: int, j: int| 0 <= i < j < out.len() implies resolver::ext_lt(
        #[trigger] out[i],
        #[trigger] out[j],
    ) by {
        assert(out[i].extraction_index == i + 1);
        assert(out[j].extraction_index == j + 1);
    }
    lemma_sort_exts_of_sorted(out);
    assert(cfg.resolution_ok(answer, out)) by {
        assert(resolver::parsed_of(cfg.format_is_yaml, answer) == Some(v));
        assert(resolver::spec_groups_of(v, cfg.idx_sfx(), cfg.attr_sfx()) == Some(groups));
        assert(resolver::spec_project_groups(
            resolver::spec_groups_of(v, cfg.idx_sfx(), cfg.attr_sfx())->0,
            0,
            0,
            cfg.idx_sfx(),
            cfg.attr_sfx(),
        ) == Some(out));
        assert(out == resolver::spec_sort_exts(out));
    }
    assert(cfg.resolvable(answer));
}

} // verus!
