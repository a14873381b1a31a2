//! Textual progress reporting: the extraction progress line, with ANSI
//! colors.

use vstd::prelude::*;

use crate::text::{spec_decimal, usize_to_string};

verus! {

/// The progress line: the highlighted product name, the model when known,
/// and the character counts when both are known.
pub open spec fn spec_extraction_progress(
    model_info: Option<Seq<char>>,
    current_chars: Option<usize>,
    processed_chars: Option<usize>,
) -> Seq<char> {
    let head = match model_info {
        Some(model) => "\u{1b}[94m\u{1b}[1mLangExtract\u{1b}[0m: model=\u{1b}[92m"@ + model
            + "\u{1b}[0m"@,
        None => "\u{1b}[94m\u{1b}[1mLangExtract\u{1b}[0m: Processing"@,
    };
    match (current_chars, processed_chars) {
        (Some(current), Some(processed)) => head + ", current=\u{1b}[92m"@ + spec_decimal(
            current as int,
        ) + "\u{1b}[0m chars, processed=\u{1b}[92m"@ + spec_decimal(processed as int)
            + "\u{1b}[0m chars"@,
        _ => head,
    }
}

/// Formats the extraction progress description.
pub fn format_extraction_progress(
    model_info: Option<&str>,
    current_chars: Option<usize>,
    processed_chars: Option<usize>,
) -> (r: String)
    ensures
        r@ == spec_extraction_progress(
            match model_info {
                Some(m) => Some(m@),
                None => None,
            },
            current_chars,
            processed_chars,
        ),
{
    let mut desc = match model_info {
        Some(model) => {
            let mut d = String::from_str("\u{1b}[94m\u{1b}[1mLangExtract\u{1b}[0m: model=\u{1b}[92m");
            d.append(model);
            d.append("\u{1b}[0m");
            d
        },
        None => String::from_str("\u{1b}[94m\u{1b}[1mLangExtract\u{1b}[0m: Processing"),
    };
    match (current_chars, processed_chars) {
        (Some(current), Some(processed)) => {
            desc.append(", current=\u{1b}[92m");
            desc.append(usize_to_string(current).as_str());
            desc.append("\u{1b}[0m chars, processed=\u{1b}[92m");
            desc.append(usize_to_string(processed).as_str());
            desc.append("\u{1b}[0m chars");
            desc
        },
        _ => desc,
    }
}

} // verus!
