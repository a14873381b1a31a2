//! Category naming helpers shared by the visualization front ends. The HTML
//! rendering itself lives outside the verified library.

use vstd::prelude::*;

verus! {

/// The visual style of a rendered document.
#[derive(Debug, Clone, Copy, PartialEq, Eq, Structural)]
pub enum VisualizationStyle {
    Animated,
    ChineseClassical,
}

/// The Chinese display name of an extraction category.
pub fn get_chinese_category_name(category: &str) -> (r: &'static str)
    ensures
        category@ == "characters"@ ==> r@ == "\u{4eba}\u{7269}\u{89d2}\u{8272}"@,
        category@ == "locations"@ ==> r@ == "\u{5730}\u{70b9}\u{573a}\u{6240}"@,
        category@ == "objects"@ ==> r@ == "\u{7269}\u{54c1}\u{5668}\u{5177}"@,
        category@ == "clothing"@ ==> r@ == "\u{670d}\u{9970}\u{88c5}\u{626e}"@,
        category@ == "emotions"@ ==> r@ == "\u{60c5}\u{611f}\u{72b6}\u{6001}"@,
        category@ == "nature"@ ==> r@ == "\u{81ea}\u{7136}\u{666f}\u{7269}"@,
{
    proof {
        reveal_strlit("characters");
        reveal_strlit("locations");
        reveal_strlit("objects");
        reveal_strlit("clothing");
        reveal_strlit("emotions");
        reveal_strlit("nature");
        assert("characters"@.len() == 10);
        assert("locations"@.len() == 9);
        assert("objects"@.len() == 7);
        assert("clothing"@.len() == 8);
        assert("emotions"@.len() == 8);
        assert("nature"@.len() == 6);
        assert("clothing"@[0] == 'c');
        assert("emotions"@[0] == 'e');
    }
    let owned = category.to_owned();
    if owned == String::from_str("characters") {
        "\u{4eba}\u{7269}\u{89d2}\u{8272}"
    } else if owned == String::from_str("locations") {
        "\u{5730}\u{70b9}\u{573a}\u{6240}"
    } else if owned == String::from_str("objects") {
        "\u{7269}\u{54c1}\u{5668}\u{5177}"
    } else if owned == String::from_str("clothing") {
        "\u{670d}\u{9970}\u{88c5}\u{626e}"
    } else if owned == String::from_str("emotions") {
        "\u{60c5}\u{611f}\u{72b6}\u{6001}"
    } else if owned == String::from_str("nature") {
        "\u{81ea}\u{7136}\u{666f}\u{7269}"
    } else {
        "\u{5176}\u{4ed6}"
    }
}

/// The icon of an extraction category.
pub fn get_category_icon(category: &str) -> (r: &'static str)
    ensures
        category@ == "characters"@ ==> r@ == "\u{1f464}"@,
        category@ == "locations"@ ==> r@ == "\u{1f3db}\u{fe0f}"@,
        category@ == "objects"@ ==> r@ == "\u{1f4ff}"@,
        category@ == "clothing"@ ==> r@ == "\u{1f458}"@,
        category@ == "emotions"@ ==> r@ == "\u{1f4ad}"@,
        category@ == "nature"@ ==> r@ == "\u{1f338}"@,
{
    proof {
        reveal_strlit("characters");
        reveal_strlit("locations");
        reveal_strlit("objects");
        reveal_strlit("clothing");
        reveal_strlit("emotions");
        reveal_strlit("nature");
        assert("characters"@.len() == 10);
        assert("locations"@.len() == 9);
        assert("objects"@.len() == 7);
        assert("clothing"@.len() == 8);
        assert("emotions"@.len() == 8);
        assert("nature"@.len() == 6);
        assert("clothing"@[0] == 'c');
        assert("emotions"@[0] == 'e');
    }
    let owned = category.to_owned();
    if owned == String::from_str("characters") {
        "\u{1f464}"
    } else if owned == String::from_str("locations") {
        "\u{1f3db}\u{fe0f}"
    } else if owned == String::from_str("objects") {
        "\u{1f4ff}"
    } else if owned == String::from_str("clothing") {
        "\u{1f458}"
    } else if owned == String::from_str("emotions") {
        "\u{1f4ad}"
    } else if owned == String::from_str("nature") {
        "\u{1f338}"
    } else {
        "\u{1f538}"
    }
}

} // verus!
