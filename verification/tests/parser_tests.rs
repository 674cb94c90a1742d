use cprintf::model::{Address, Color, Decoration, ParseError, Part, Style};
use cprintf::parser::{
    find_in, find_unescaped_in, parse, parse_index, resolve_address, resolve_decoration,
    resolve_specifier, scan_literal, split_tags_of,
};

fn chars(text: &str) -> Vec<char> {
    text.chars().collect()
}

fn literal(content: &str) -> Part {
    Part::Literal { content: content.to_string() }
}

fn placeholder(address: Address, color: Option<Color>, styles: Vec<Style>) -> Part {
    Part::Placeholder { address, decoration: Decoration { color, styles } }
}

fn positional() -> Part {
    placeholder(Address::NextPositional, None, vec![])
}

#[test]
fn empty_template_is_the_empty_program() {
    assert_eq!(parse(""), Ok(vec![]));
}

#[test]
fn text_without_braces_is_one_literal() {
    assert_eq!(parse("plain text"), Ok(vec![literal("plain text")]));
    assert_eq!(parse("héllo wörld ✓"), Ok(vec![literal("héllo wörld ✓")]));
}

#[test]
fn escaped_braces_are_literal_text() {
    assert_eq!(parse(r#"\{"#), Ok(vec![literal("{")]));
    assert_eq!(parse(r#"\}"#), Ok(vec![literal("}")]));
    assert_eq!(parse(r#"\{\}"#), Ok(vec![literal("{}")]));
    assert_eq!(parse(r#"\{\}\}\{"#), Ok(vec![literal("{}}{")]));
    assert_eq!(parse(r#"a\{b\}c"#), Ok(vec![literal("a{b}c")]));
}

#[test]
fn a_backslash_before_anything_else_stays() {
    assert_eq!(parse(r#"a\b"#), Ok(vec![literal(r#"a\b"#)]));
    assert_eq!(parse(r#"a\"#), Ok(vec![literal(r#"a\"#)]));
    assert_eq!(parse(r#"\\"#), Ok(vec![literal(r#"\\"#)]));
    assert_eq!(parse(r#"\#"#), Ok(vec![literal(r#"\#"#)]));
    assert_eq!(parse(r#"\\{"#), Ok(vec![literal(r#"\{"#)]));
}

#[test]
fn empty_braces_are_a_positional_placeholder() {
    assert_eq!(parse("{}"), Ok(vec![positional()]));
}

#[test]
fn literals_and_placeholders_alternate() {
    assert_eq!(
        parse("a{}b{}c"),
        Ok(vec![literal("a"), positional(), literal("b"), positional(), literal("c")])
    );
    assert_eq!(parse("{}{}"), Ok(vec![positional(), positional()]));
    assert_eq!(
        parse(r#"\{{}\}"#),
        Ok(vec![literal("{"), positional(), literal("}")])
    );
}

#[test]
fn percent_and_digits_are_an_index() {
    assert_eq!(parse("{%1}"), Ok(vec![placeholder(Address::Indexed(1), None, vec![])]));
    assert_eq!(parse("{%3}"), Ok(vec![placeholder(Address::Indexed(3), None, vec![])]));
    assert_eq!(parse("{%007}"), Ok(vec![placeholder(Address::Indexed(7), None, vec![])]));
    assert_eq!(parse("{%120}"), Ok(vec![placeholder(Address::Indexed(120), None, vec![])]));
    assert_eq!(
        parse("{%18446744073709551615}"),
        Ok(vec![placeholder(Address::Indexed(u64::MAX), None, vec![])])
    );
}

#[test]
fn an_index_must_be_a_positive_number() {
    assert_eq!(parse("{%}"), Err(ParseError::InvalidIndex));
    assert_eq!(parse("{%0}"), Err(ParseError::InvalidIndex));
    assert_eq!(parse("{%000}"), Err(ParseError::InvalidIndex));
    assert_eq!(parse("{%x}"), Err(ParseError::InvalidIndex));
    assert_eq!(parse("{%1x}"), Err(ParseError::InvalidIndex));
    assert_eq!(parse("{%+1}"), Err(ParseError::InvalidIndex));
    assert_eq!(parse("{%-1}"), Err(ParseError::InvalidIndex));
    assert_eq!(parse("{% 1}"), Err(ParseError::InvalidIndex));
    assert_eq!(parse("{%１}"), Err(ParseError::InvalidIndex));
    assert_eq!(parse("{%18446744073709551616}"), Err(ParseError::InvalidIndex));
    assert_eq!(parse("{%99999999999999999999999999}"), Err(ParseError::InvalidIndex));
    assert_eq!(parse("{%#r}"), Err(ParseError::InvalidIndex));
}

#[test]
fn any_other_token_is_a_name() {
    assert_eq!(
        parse("{name}"),
        Ok(vec![placeholder(Address::Named("name".to_string()), None, vec![])])
    );
    assert_eq!(
        parse("{ }"),
        Ok(vec![placeholder(Address::Named(" ".to_string()), None, vec![])])
    );
    assert_eq!(
        parse("{1}"),
        Ok(vec![placeholder(Address::Named("1".to_string()), None, vec![])])
    );
    assert_eq!(
        parse("{a%1}"),
        Ok(vec![placeholder(Address::Named("a%1".to_string()), None, vec![])])
    );
}

#[test]
fn escapes_inside_a_specifier_stay_in_the_name() {
    assert_eq!(
        parse(r#"{na\}me}"#),
        Ok(vec![placeholder(Address::Named(r#"na\}me"#.to_string()), None, vec![])])
    );
    assert_eq!(
        parse(r#"{a\#b}"#),
        Ok(vec![placeholder(Address::Named(r#"a\#b"#.to_string()), None, vec![])])
    );
    assert_eq!(
        parse(r#"{a\#b#g}"#),
        Ok(vec![placeholder(Address::Named(r#"a\#b"#.to_string()), Some(Color::Green), vec![])])
    );
}

#[test]
fn braces_do_not_nest() {
    assert_eq!(
        parse("{{}"),
        Ok(vec![placeholder(Address::Named("{".to_string()), None, vec![])])
    );
    assert_eq!(parse("{{}}"), Err(ParseError::UnbalancedClosingBrace));
}

#[test]
fn the_first_tag_may_be_a_color() {
    assert_eq!(
        parse("{#r}"),
        Ok(vec![placeholder(Address::NextPositional, Some(Color::Red), vec![])])
    );
    assert_eq!(
        parse("{#g}"),
        Ok(vec![placeholder(Address::NextPositional, Some(Color::Green), vec![])])
    );
    assert_eq!(
        parse("{%2#g}"),
        Ok(vec![placeholder(Address::Indexed(2), Some(Color::Green), vec![])])
    );
    assert_eq!(
        parse("{who#r}"),
        Ok(vec![placeholder(Address::Named("who".to_string()), Some(Color::Red), vec![])])
    );
}

#[test]
fn the_other_tags_are_styles_in_their_order() {
    assert_eq!(
        parse("{#bold}"),
        Ok(vec![placeholder(Address::NextPositional, None, vec![Style::Bold])])
    );
    assert_eq!(
        parse("{#underline,bold}"),
        Ok(vec![placeholder(
            Address::NextPositional,
            None,
            vec![Style::Underline, Style::Bold]
        )])
    );
    assert_eq!(
        parse("{#r,bold,underline}"),
        Ok(vec![placeholder(
            Address::NextPositional,
            Some(Color::Red),
            vec![Style::Bold, Style::Underline]
        )])
    );
    assert_eq!(
        parse("{#g,bold,bold}"),
        Ok(vec![placeholder(
            Address::NextPositional,
            Some(Color::Green),
            vec![Style::Bold, Style::Bold]
        )])
    );
}

#[test]
fn an_unknown_tag_is_a_fault() {
    assert_eq!(parse("{#}"), Err(ParseError::UnknownDecorationTag));
    assert_eq!(parse("{#x}"), Err(ParseError::UnknownDecorationTag));
    assert_eq!(parse("{#R}"), Err(ParseError::UnknownDecorationTag));
    assert_eq!(parse("{#r,}"), Err(ParseError::UnknownDecorationTag));
    assert_eq!(parse("{#,r}"), Err(ParseError::UnknownDecorationTag));
    assert_eq!(parse("{#r,g}"), Err(ParseError::UnknownDecorationTag));
    assert_eq!(parse("{#bold,r}"), Err(ParseError::UnknownDecorationTag));
    assert_eq!(parse("{#r, bold}"), Err(ParseError::UnknownDecorationTag));
    assert_eq!(parse("{#r#g}"), Err(ParseError::UnknownDecorationTag));
    assert_eq!(parse("{#r,bold,blink}"), Err(ParseError::UnknownDecorationTag));
}

#[test]
fn an_open_brace_needs_its_closing_brace() {
    assert_eq!(parse("{"), Err(ParseError::UnterminatedSpecifier));
    assert_eq!(parse("abc{"), Err(ParseError::UnterminatedSpecifier));
    assert_eq!(parse("{abc"), Err(ParseError::UnterminatedSpecifier));
    assert_eq!(parse(r#"{\}"#), Err(ParseError::UnterminatedSpecifier));
    assert_eq!(parse("{}{"), Err(ParseError::UnterminatedSpecifier));
    assert_eq!(parse("{%x"), Err(ParseError::UnterminatedSpecifier));
}

#[test]
fn a_closing_brace_needs_its_open_brace() {
    assert_eq!(parse("}"), Err(ParseError::UnbalancedClosingBrace));
    assert_eq!(parse("a}b"), Err(ParseError::UnbalancedClosingBrace));
    assert_eq!(parse("{}}"), Err(ParseError::UnbalancedClosingBrace));
    assert_eq!(parse(r#"\{}"#), Err(ParseError::UnbalancedClosingBrace));
    assert_eq!(parse(r#"\\{}"#), Err(ParseError::UnbalancedClosingBrace));
}

#[test]
fn the_first_fault_from_the_left_is_reported() {
    assert_eq!(parse("{%x} }"), Err(ParseError::InvalidIndex));
    assert_eq!(parse("} {%x}"), Err(ParseError::UnbalancedClosingBrace));
    assert_eq!(parse("{#zz} {"), Err(ParseError::UnknownDecorationTag));
    assert_eq!(parse("{%x#zz}"), Err(ParseError::InvalidIndex));
    assert_eq!(parse("{%1#zz} {%0}"), Err(ParseError::UnknownDecorationTag));
}

#[test]
fn find_unescaped_in_skips_escaped_targets() {
    assert_eq!(find_unescaped_in(&chars("abc}d"), '}', 0), 3);
    assert_eq!(find_unescaped_in(&chars(r#"a\}c}d"#), '}', 0), 4);
    assert_eq!(find_unescaped_in(&chars("}}"), '}', 1), 1);
    assert_eq!(find_unescaped_in(&chars("}a"), '}', 1), 2);
    assert_eq!(find_unescaped_in(&chars(r#"\}"#), '}', 0), 2);
    assert_eq!(find_unescaped_in(&chars(""), '}', 0), 0);
    assert_eq!(find_unescaped_in(&chars("#"), '#', 0), 0);
}

#[test]
fn find_in_gives_the_first_position() {
    assert_eq!(find_in(&chars("a,b,c"), ',', 0), 1);
    assert_eq!(find_in(&chars("a,b,c"), ',', 2), 3);
    assert_eq!(find_in(&chars("abc"), ',', 0), 3);
    assert_eq!(find_in(&chars(r#"\,"#), ',', 0), 1);
    assert_eq!(find_in(&chars(""), ',', 0), 0);
}

#[test]
fn scan_literal_resolves_escapes_and_stops_at_a_brace() {
    assert_eq!(scan_literal(&chars("abc{}"), 0), ("abc".to_string(), 3));
    assert_eq!(scan_literal(&chars("abc"), 1), ("bc".to_string(), 3));
    assert_eq!(scan_literal(&chars(r#"a\{b}c"#), 0), ("a{b".to_string(), 4));
    assert_eq!(scan_literal(&chars(r#"{}x\"#), 2), (r#"x\"#.to_string(), 4));
}

#[test]
fn parse_index_reads_positive_numbers() {
    assert_eq!(parse_index(&chars("1")), Some(1));
    assert_eq!(parse_index(&chars("42")), Some(42));
    assert_eq!(parse_index(&chars("0042")), Some(42));
    assert_eq!(parse_index(&chars("18446744073709551615")), Some(u64::MAX));
    assert_eq!(parse_index(&chars("18446744073709551616")), None);
    assert_eq!(parse_index(&chars("0")), None);
    assert_eq!(parse_index(&chars("")), None);
    assert_eq!(parse_index(&chars("4a")), None);
    assert_eq!(parse_index(&chars("99999999999999999999x")), None);
}

#[test]
fn resolve_address_tells_the_three_modes_apart() {
    assert_eq!(resolve_address(&chars("")), Ok(Address::NextPositional));
    assert_eq!(resolve_address(&chars("%12")), Ok(Address::Indexed(12)));
    assert_eq!(resolve_address(&chars("%")), Err(ParseError::InvalidIndex));
    assert_eq!(resolve_address(&chars("user")), Ok(Address::Named("user".to_string())));
}

#[test]
fn split_tags_of_cuts_at_every_comma() {
    let token = chars("r,bold,,x");
    let tags: Vec<String> =
        split_tags_of(&token).iter().map(|tag| tag.iter().collect()).collect();
    assert_eq!(tags, vec!["r", "bold", "", "x"]);

    let token = chars("");
    let tags: Vec<String> =
        split_tags_of(&token).iter().map(|tag| tag.iter().collect()).collect();
    assert_eq!(tags, vec![""]);
}

#[test]
fn resolve_decoration_reads_color_and_styles() {
    assert_eq!(
        resolve_decoration(&chars("g,underline")),
        Ok(Decoration { color: Some(Color::Green), styles: vec![Style::Underline] })
    );
    assert_eq!(
        resolve_decoration(&chars("bold")),
        Ok(Decoration { color: None, styles: vec![Style::Bold] })
    );
    assert_eq!(resolve_decoration(&chars("")), Err(ParseError::UnknownDecorationTag));
    assert_eq!(resolve_decoration(&chars("bold,g")), Err(ParseError::UnknownDecorationTag));
}

#[test]
fn resolve_specifier_splits_at_the_first_hash() {
    assert_eq!(resolve_specifier(&chars("")), Ok(positional()));
    assert_eq!(
        resolve_specifier(&chars("%3#r,bold")),
        Ok(placeholder(Address::Indexed(3), Some(Color::Red), vec![Style::Bold]))
    );
    assert_eq!(resolve_specifier(&chars("#")), Err(ParseError::UnknownDecorationTag));
    assert_eq!(resolve_specifier(&chars("%#r")), Err(ParseError::InvalidIndex));
}
