use uiasub_code_benchmark::reference_reverse_old;
use uiasub_code_benchmark::stats::outputs_match;
use uiasub_code_benchmark::text::char_is_ws;

#[test]
fn whitespace_class_matches_std_for_every_char() {
    for u in 0..=0x10FFFFu32 {
        if let Some(c) = char::from_u32(u) {
            assert_eq!(
                char_is_ws(c),
                c.is_whitespace(),
                "disagreement on U+{:04X}",
                u
            );
        }
    }
}

#[test]
fn reversal_agrees_with_std_tokenization() {
    let inputs = [
        "hello world",
        "  spaced\u{00A0}out\u{2003}text ",
        "line\u{2028}separator",
        "tab\tand\nnewline\r\nmix",
        "\u{3000}ideographic\u{3000}space\u{3000}",
        "unchanged",
        "",
    ];
    for input in inputs.iter() {
        let expected = input
            .split_whitespace()
            .map(|w| w.chars().rev().collect::<String>())
            .collect::<Vec<String>>()
            .join(" ");
        assert_eq!(reference_reverse_old(input), expected, "input {:?}", input);
    }
}

#[test]
fn output_comparison_agrees_with_std_trim() {
    let pairs = [
        ("6", "  6 \n"),
        ("\u{00A0}abc\u{00A0}", "abc"),
        ("a b", "a b "),
        ("a b", "a  b"),
        ("", "\u{2029}"),
        ("x", "y"),
    ];
    for (a, b) in pairs.iter() {
        assert_eq!(
            outputs_match(a, b),
            a.trim() == b.trim(),
            "pair {:?} {:?}",
            a,
            b
        );
    }
}
