use uiasub_code_benchmark::reference_reverse;
use uiasub_code_benchmark::reference_reverse_old;

#[test]
fn reverse_basic() {
    assert_eq!(reference_reverse("hello world"), "olleh dlrow");
    assert_eq!(reference_reverse_old("hello world"), "olleh dlrow");
}

#[test]
fn reverse_single_token() {
    assert_eq!(reference_reverse("ab"), "ba");
    assert_eq!(reference_reverse_old("abc"), "cba");
}

#[test]
fn reverse_empty_and_whitespace_only() {
    assert_eq!(reference_reverse(""), "");
    assert_eq!(reference_reverse("   \t\n"), "");
    assert_eq!(reference_reverse_old(""), "");
}

#[test]
fn reverse_normalizes_whitespace() {
    assert_eq!(reference_reverse("  abc \t def\nghi  "), "cba fed ihg");
    assert_eq!(reference_reverse_old("  abc \t def\nghi  "), "cba fed ihg");
}

#[test]
fn reverse_is_character_based_not_byte_based() {
    assert_eq!(reference_reverse("héllo"), "olléh");
    assert_eq!(reference_reverse_old("très bien"), "sèrt neib");
    assert_eq!(reference_reverse("日本語 text"), "語本日 txet");
}

#[test]
fn reverse_twice_restores_single_spaced_text() {
    let inputs = ["abc def ghi", "a", "xy zw", "palindrome racecar level"];
    for input in inputs.iter() {
        let once = reference_reverse_old(input);
        let twice = reference_reverse_old(&once);
        assert_eq!(&twice, input);
    }
}

#[test]
fn reverse_parallel_and_sequential_agree() {
    // Builds enough tokens to cross a chunk boundary of ten thousand.
    let mut input = String::new();
    for i in 0..25000 {
        input.push_str(&format!("tok{} ", i));
    }
    assert_eq!(reference_reverse(&input), reference_reverse_old(&input));
}

#[test]
fn reverse_preserves_token_count_and_order() {
    let out = reference_reverse("one two three");
    let words: Vec<&str> = out.split(' ').collect();
    assert_eq!(words, vec!["eno", "owt", "eerht"]);
}
