use poet::text::{
    character_literal_without_single_quotes, chars_of, index_of, index_of_any, quoted,
    string_literal_with_quotes, string_of, string_of_range,
};
use poet::DEFAULT_INDENT;

#[test]
fn string_literal() {
    assert_eq!("\"abc\"", string_literal_with_quotes("abc", " "));
    assert_eq!("\"\\u{2666}\\u{2665}\\u{2660}\\u{2663}\"", string_literal_with_quotes("♦♥♠♣", " "));
    assert_eq!("\"\\u{20ac}\\t@\\t$\"", string_literal_with_quotes("€\t@\t$", " "));
    assert_eq!("\"abc();\\n\"\n  + \"def();\"", string_literal_with_quotes("abc();\ndef();", " "));
    assert_eq!("\"This is \\\"quoted\\\"!\"", string_literal_with_quotes("This is \"quoted\"!", " "));
    assert_eq!("\"e^{i\\\\pi}+1=0\"", string_literal_with_quotes("e^{i\\pi}+1=0", " "));
}

#[test]
fn character_literal() {
    assert_eq!("a", character_literal_without_single_quotes('a'));
    // common escapes

    // unicode escapes
    assert_eq!("\u{0000}", character_literal_without_single_quotes('\u{0000}'));

    // unicode escapes
    assert_eq!("\\u{20ac}", character_literal_without_single_quotes('\u{20AC}'));
}

#[test]
fn character_literal_common_escapes() {
    assert_eq!("\\b", character_literal_without_single_quotes('\u{0008}'));
    assert_eq!("\\t", character_literal_without_single_quotes('\t'));
    assert_eq!("\\n", character_literal_without_single_quotes('\n'));
    assert_eq!("\\f", character_literal_without_single_quotes('\u{000c}'));
    assert_eq!("\\r", character_literal_without_single_quotes('\r'));
    assert_eq!("\"", character_literal_without_single_quotes('"'));
    assert_eq!("\\'", character_literal_without_single_quotes('\''));
    assert_eq!("\\\\", character_literal_without_single_quotes('\\'));
    assert_eq!("\u{007f}", character_literal_without_single_quotes('\u{007f}'));
    assert_eq!("\\u{80}", character_literal_without_single_quotes('\u{0080}'));
    assert_eq!("\\u{10ffff}", character_literal_without_single_quotes('\u{10FFFF}'));
    assert_eq!("\\u{1f600}", character_literal_without_single_quotes('\u{1F600}'));
}

#[test]
fn unicode_escape_matches_std() {
    for c in ['\u{80}', 'é', '€', '♦', '\u{ffff}', '\u{10000}', '\u{10ffff}'] {
        let expected: String = c.escape_unicode().collect();
        assert_eq!(expected, character_literal_without_single_quotes(c));
    }
}

#[test]
fn string_literal_breaks_behind_inner_newlines_only() {
    assert_eq!("\"a\\n\"", string_literal_with_quotes("a\n", "  "));
    assert_eq!("\"\\n\"\n    + \"a\"", string_literal_with_quotes("\na", "  "));
    assert_eq!(
        "\"a\\n\"\n\t\t+ \"b\\n\"\n\t\t+ \"c\"",
        string_literal_with_quotes("a\nb\nc", "\t")
    );
    assert_eq!("\"\"", string_literal_with_quotes("", DEFAULT_INDENT));
    assert_eq!("\"it's\"", string_literal_with_quotes("it's", DEFAULT_INDENT));
}

#[test]
fn quoted_escapes_dollar_on_request() {
    assert_eq!("\"${'$'}a\"", quoted("$a", " ", true));
    assert_eq!("\"$a\"", quoted("$a", " ", false));
    assert_eq!("\"This is \\\"quoted\\\"!\"", quoted("This is \"quoted\"!", " ", true));
}

#[test]
fn index_of_finds_the_next_escape() {
    let chars: Vec<char> = "ab%cd%".chars().collect();
    assert_eq!(2, index_of(&chars, 0));
    assert_eq!(2, index_of(&chars, 1));
    assert_eq!(5, index_of(&chars, 2));
    assert_eq!(-1, index_of(&chars, 5));
    assert_eq!(-1, index_of(&chars, 17));
    let none: Vec<char> = "abc".chars().collect();
    assert_eq!(-1, index_of(&none, 0));
}

#[test]
fn should_build_line_wrappers() {
    let special = [' ', '\n', '·'];
    let chars: Vec<char> = "hello ".chars().collect();
    assert_eq!(5, index_of_any(&chars, special, 0));
    assert_eq!(5, index_of_any(&chars, special, 5));

    let empty: Vec<char> = "hello".chars().collect();
    assert_eq!(-1, index_of_any(&empty, special, 0));
    let mixed: Vec<char> = "a·b\nc".chars().collect();
    assert_eq!(1, index_of_any(&mixed, special, 0));
    assert_eq!(3, index_of_any(&mixed, special, 2));
    assert_eq!(-1, index_of_any(&mixed, special, 4));
    assert_eq!(-1, index_of_any(&mixed, special, 9));
}

#[test]
fn chars_round_trip() {
    let chars = chars_of("a€b");
    assert_eq!(vec!['a', '€', 'b'], chars);
    assert_eq!("a€b", string_of(&chars));
    assert_eq!("", string_of(&chars_of("")));
    assert_eq!("€b", string_of_range(&chars, 1, 3));
    assert_eq!("", string_of_range(&chars, 2, 2));
}

#[test]
fn default_indent_is_four_spaces() {
    assert_eq!("    ", DEFAULT_INDENT);
}
