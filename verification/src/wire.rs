//! Wire values: the shape of parsed YAML/JSON replies and of rendered
//! payloads, with the calls into the serde parsers and serializers behind
//! trusted wrappers.

use vstd::prelude::*;

verus! {

/// A parsed wire value. Numbers carry their rendered form and, when they are
/// integers that fit, their value.
#[derive(Debug)]
pub enum ParsedValue {
    Null,
    Bool(bool),
    Number { int_val: Option<u64>, is_int: bool, repr: String },
    Text(String),
    List(Vec<ParsedValue>),
    Object(Vec<(String, ParsedValue)>),
}

/// The mathematical model of a wire value.
pub enum ValueView {
    Null,
    Bool(bool),
    Number { int_val: Option<u64>, is_int: bool, repr: Seq<char> },
    Text(Seq<char>),
    List(Seq<ValueView>),
    Object(Seq<(Seq<char>, ValueView)>),
}

/// The model of one wire value.
pub open spec fn value_view(v: ParsedValue) -> ValueView
    decreases v,
{
    match v {
        ParsedValue::Null => ValueView::Null,
        ParsedValue::Bool(b) => ValueView::Bool(b),
        ParsedValue::Number { int_val, is_int, repr } => ValueView::Number {
            int_val,
            is_int,
            repr: repr@,
        },
        ParsedValue::Text(s) => ValueView::Text(s@),
        ParsedValue::List(items) => ValueView::List(values_view(items@)),
        ParsedValue::Object(fields) => ValueView::Object(fields_view(fields@)),
    }
}

/// The models of a sequence of wire values.
pub open spec fn values_view(s: Seq<ParsedValue>) -> Seq<ValueView>
    decreases s,
{
    if s.len() == 0 {
        Seq::empty()
    } else {
        seq![value_view(s[0])] + values_view(s.subrange(1, s.len() as int))
    }
}

/// The models of a sequence of named wire values.
pub open spec fn fields_view(s: Seq<(String, ParsedValue)>) -> Seq<(Seq<char>, ValueView)>
    decreases s,
{
    if s.len() == 0 {
        Seq::empty()
    } else {
        seq![(s[0].0@, value_view(s[0].1))] + fields_view(s.subrange(1, s.len() as int))
    }
}

pub proof fn lemma_values_view(s: Seq<ParsedValue>)
    ensures
        values_view(s).len() == s.len(),
        forall|i: int| 0 <= i < s.len() ==> values_view(s)[i] == value_view(#[trigger] s[i]),
        forall|i: int| 0 <= i < s.len() ==> #[trigger] values_view(s)[i] == value_view(s[i]),
    decreases s.len(),
{
    if s.len() > 0 {
        lemma_values_view(s.subrange(1, s.len() as int));
        assert forall|i: int| 0 <= i < s.len() implies values_view(s)[i] == value_view(
            #[trigger] s[i],
        ) by {
            if i > 0 {
                assert(s.subrange(1, s.len() as int)[i - 1] == s[i]);
            }
        }
    }
}

pub proof fn lemma_fields_view(s: Seq<(String, ParsedValue)>)
    ensures
        fields_view(s).len() == s.len(),
        forall|i: int|
            0 <= i < s.len() ==> fields_view(s)[i] == ((#[trigger] s[i]).0@, value_view(s[i].1)),
        forall|i: int|
            0 <= i < s.len() ==> #[trigger] fields_view(s)[i] == (s[i].0@, value_view(s[i].1)),
    decreases s.len(),
{
    if s.len() > 0 {
        lemma_fields_view(s.subrange(1, s.len() as int));
        assert forall|i: int| 0 <= i < s.len() implies fields_view(s)[i] == ((#[trigger] s[i]).0@,
            value_view(s[i].1)) by {
            if i > 0 {
                assert(s.subrange(1, s.len() as int)[i - 1] == s[i]);
            }
        }
    }
}

impl View for ParsedValue {
    type V = ValueView;

    open spec fn view(&self) -> ValueView {
        value_view(*self)
    }
}

impl Clone for ParsedValue {
    fn clone(&self) -> (r: Self)
        ensures
            r@ == self@,
        decreases self,
    {
        match self {
            ParsedValue::Null => ParsedValue::Null,
            ParsedValue::Bool(b) => ParsedValue::Bool(*b),
            ParsedValue::Number { int_val, is_int, repr } => ParsedValue::Number {
                int_val: *int_val,
                is_int: *is_int,
                repr: repr.clone(),
            },
            ParsedValue::Text(s) => ParsedValue::Text(s.clone()),
            ParsedValue::List(items) => {
                let mut out: Vec<ParsedValue> = Vec::new();
                let mut i: usize = 0;
                while i < items.len()
                    invariant
                        *self == ParsedValue::List(*items),
                        i <= items@.len(),
                        out@.len() == i,
                        forall|k: int| 0 <= k < i ==> (#[trigger] out@[k])@ == items@[k]@,
                    decreases items@.len() - i,
                {
                    proof {
                        assert(*items == self->List_0);
                        assert(decreases_to!(*self => self->List_0));
                        assert(decreases_to!(*items => items@));
                        assert(decreases_to!(items@ => items@[i as int]));
                    }
                    out.push(items[i].clone());
                    i = i + 1;
                }
                proof {
                    lemma_values_view(out@);
                    lemma_values_view(items@);
                    assert forall|k: int| 0 <= k < out@.len() implies values_view(out@)[k]
                        == values_view(items@)[k] by {
                        assert(out@[k]@ == items@[k]@);
                    }
                    assert(values_view(out@) =~= values_view(items@));
                }
                ParsedValue::List(out)
            },
            ParsedValue::Object(fields) => {
                let mut out: Vec<(String, ParsedValue)> = Vec::new();
                let mut i: usize = 0;
                while i < fields.len()
                    invariant
                        *self == ParsedValue::Object(*fields),
                        i <= fields@.len(),
                        out@.len() == i,
                        forall|k: int|
                            0 <= k < i ==> (#[trigger] out@[k]).0@ == fields@[k].0@ && out@[k].1@
                                == fields@[k].1@,
                    decreases fields@.len() - i,
                {
                    proof {
                        assert(*fields == self->Object_0);
                        assert(decreases_to!(*self => self->Object_0));
                        assert(decreases_to!(*fields => fields@));
                        assert(decreases_to!(fields@ => fields@[i as int]));
                        assert(decreases_to!(fields@[i as int] => fields@[i as int].1));
                    }
                    let (k, v) = &fields[i];
                    out.push((k.clone(), v.clone()));
                    i = i + 1;
                }
                proof {
                    lemma_fields_view(out@);
                    lemma_fields_view(fields@);
                    assert forall|k: int| 0 <= k < out@.len() implies fields_view(out@)[k]
                        == fields_view(fields@)[k] by {
                        assert(out@[k].0@ == fields@[k].0@ && out@[k].1@ == fields@[k].1@);
                    }
                    assert(fields_view(out@) =~= fields_view(fields@));
                }
                ParsedValue::Object(out)
            },
        }
    }
}

// ---------------------------------------------------------------------------
// Trusted parsing and rendering
// ---------------------------------------------------------------------------

#[verifier::external_type_specification]
#[verifier::external_body]
pub struct ExJsonValue(serde_json::Value);

/// What parsing a string as JSON yields: a function of the string alone.
pub uninterp spec fn json_parsed(s: Seq<char>) -> Option<ValueView>;

/// What parsing a string as YAML yields: a function of the string alone.
pub uninterp spec fn yaml_parsed(s: Seq<char>) -> Option<ValueView>;

/// Relies on serde_json::Value's accessors: each variant of the parsed value
/// is carried over one for one; integers are read with as_u64.
#[verifier::external_body]
fn convert_json_value(v: &serde_json::Value) -> ParsedValue {
    match v {
        serde_json::Value::Null => ParsedValue::Null,
        serde_json::Value::Bool(b) => ParsedValue::Bool(*b),
        serde_json::Value::Number(n) => ParsedValue::Number {
            int_val: n.as_u64(),
            is_int: n.is_i64() || n.is_u64(),
            repr: n.to_string(),
        },
        serde_json::Value::String(s) => ParsedValue::Text(s.clone()),
        serde_json::Value::Array(a) => ParsedValue::List(a.iter().map(convert_json_value).collect()),
        serde_json::Value::Object(m) => ParsedValue::Object(
            m.iter().map(|(k, w)| (k.clone(), convert_json_value(w))).collect(),
        ),
    }
}

/// Relies on serde_json::from_str::<serde_json::Value>: deterministic in the
/// input string; object keys come out in the parser's sorted order.
#[verifier::external_body]
pub fn parse_json_value(s: &str) -> (r: Option<ParsedValue>)
    ensures
        r is Some <==> json_parsed(s@) is Some,
        r is Some ==> r->0@ == json_parsed(s@)->0,
{
    match serde_json::from_str::<serde_json::Value>(s) {
        Ok(v) => Some(convert_json_value(&v)),
        Err(_) => None,
    }
}

/// Relies on serde_yaml::from_str::<serde_json::Value>: deterministic in the
/// input string; object keys come out in the parser's sorted order.
#[verifier::external_body]
pub fn parse_yaml_value(s: &str) -> (r: Option<ParsedValue>)
    ensures
        r is Some <==> yaml_parsed(s@) is Some,
        r is Some ==> r->0@ == yaml_parsed(s@)->0,
{
    match serde_yaml::from_str::<serde_json::Value>(s) {
        Ok(v) => Some(convert_json_value(&v)),
        Err(_) => None,
    }
}

/// Relies on serde_json::Value's constructors: each variant of the library
/// value is carried over one for one; number forms are re-read from their
/// rendering.
#[verifier::external_body]
fn convert_to_json_value(v: &ParsedValue) -> serde_json::Value {
    match v {
        ParsedValue::Null => serde_json::Value::Null,
        ParsedValue::Bool(b) => serde_json::Value::Bool(*b),
        ParsedValue::Number { repr, .. } => serde_json::from_str(repr).unwrap_or(
            serde_json::Value::String(repr.clone()),
        ),
        ParsedValue::Text(s) => serde_json::Value::String(s.clone()),
        ParsedValue::List(items) => serde_json::Value::Array(
            items.iter().map(convert_to_json_value).collect(),
        ),
        ParsedValue::Object(fields) => serde_json::Value::Object(
            fields.iter().map(|(k, w)| (k.clone(), convert_to_json_value(w))).collect(),
        ),
    }
}

/// What rendering a value as YAML yields: a function of the value alone.
pub uninterp spec fn yaml_rendered(v: ValueView) -> Seq<char>;

/// What rendering a value as pretty JSON yields: a function of the value
/// alone.
pub uninterp spec fn json_rendered(v: ValueView) -> Seq<char>;

/// Lexicographic order on character sequences by code point, matching the
/// byte order of their UTF-8 encodings.
pub open spec fn str_lt(a: Seq<char>, b: Seq<char>) -> bool
    decreases a.len(),
{
    if b.len() == 0 {
        false
    } else if a.len() == 0 {
        true
    } else if a[0] != b[0] {
        (a[0] as u32) < (b[0] as u32)
    } else {
        str_lt(a.drop_first(), b.drop_first())
    }
}

/// A string safe for an exact serializer round trip: no line breaks.
pub open spec fn clean_str(s: Seq<char>) -> bool {
    forall|i: int| 0 <= i < s.len() ==> s[i] != '\n' && s[i] != '\r'
}

/// A value whose rendering parses back to itself: no numbers, no line breaks
/// in strings, and object keys strictly sorted, as the parsers produce them.
pub open spec fn payload_clean(v: ValueView) -> bool
    decreases v,
{
    match v {
        ValueView::Null => true,
        ValueView::Bool(_) => true,
        ValueView::Number { .. } => false,
        ValueView::Text(s) => clean_str(s),
        ValueView::List(items) => forall|i: int|
            0 <= i < items.len() ==> payload_clean(#[trigger] items[i]),
        ValueView::Object(fields) => {
            &&& forall|i: int|
                0 <= i < fields.len() ==> clean_str((#[trigger] fields[i]).0) && payload_clean(
                    fields[i].1,
                )
            &&& forall|i: int|
                0 <= i < fields.len() - 1 ==> str_lt(
                    (#[trigger] fields[i]).0,
                    fields[i + 1].0,
                )
        },
    }
}

/// Relies on serde_yaml::to_string: deterministic in the value; for a clean
/// payload the rendering, when it parses at all, parses back to the same
/// value, since strings that would read as other scalars are quoted and
/// single-line strings round-trip exactly. The parser refuses deep nesting
/// that the serializer accepts, so success of the parse is not promised.
#[verifier::external_body]
pub fn render_yaml_value(v: &ParsedValue) -> (r: String)
    ensures
        r@ == yaml_rendered(v@),
        payload_clean(v@) && yaml_parsed(r@) is Some ==> yaml_parsed(r@) == Some(v@),
{
    let json = convert_to_json_value(v);
    let out = serde_yaml::to_string(&json).unwrap_or_default();
    out.trim().to_string()
}

/// Relies on serde_json::to_string_pretty: deterministic in the value; for a
/// clean payload the rendering, when it parses at all, parses back to the
/// same value. The parser refuses deep nesting that the serializer accepts,
/// so success of the parse is not promised.
#[verifier::external_body]
pub fn render_json_value(v: &ParsedValue) -> (r: String)
    ensures
        r@ == json_rendered(v@),
        payload_clean(v@) && json_parsed(r@) is Some ==> json_parsed(r@) == Some(v@),
{
    let json = convert_to_json_value(v);
    let out = serde_json::to_string_pretty(&json).unwrap_or_default();
    out.trim().to_string()
}

} // verus!
