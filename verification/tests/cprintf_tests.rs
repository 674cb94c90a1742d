use cprintf::cprintf::{concatenate_arguments, cprintf, holds_placeholder, too_few_arguments};
use cprintf::model::{Address, Decoration, ParseError, Part, RenderError};

const TOO_FEW: &str = "The minimum number of arguments is 2. The first argument is the format. If no formatting is necessary, use an empty string.";

fn strings(items: &[&str]) -> Vec<String> {
    items.iter().map(|item| item.to_string()).collect()
}

#[test]
fn check_that_there_is_at_least_2_arguments_when_there_is_1_spec() {
    let i = strings(&["{}"]);
    let actual = cprintf(i);

    assert_eq!(
        actual.err(),
        Some("The minimum number of arguments is 2. The first argument is the format. If no formatting is necessary, use an empty string.".to_string())
    )
}

#[test]
fn print_formatted_string_with_positional_arguments() {
    let actual = cprintf(strings(&["{}+{}={}", "1", "2", "3"]));
    assert_eq!(actual.unwrap(), "1+2=3\x1b[0m".to_string());
}

#[test]
fn when_the_first_string_is_empty_and_there_are_2_arguments_just_return_the_second_argument() {
    let i = strings(&["", "{foo}"]);
    let actual = cprintf(i);
    assert_eq!(actual.ok(), Some("{foo}".to_string()));
}

#[test]
fn when_the_first_string_is_empty_and_there_are_n_arguments_just_return_their_concatenation() {
    let i = strings(&["", "1", ", 2, ", "N..."]);
    let actual = cprintf(i);
    assert_eq!(actual.ok(), Some("1, 2, N...".to_string()));
}

#[test]
fn when_a_format_is_specified_then_use_it_0_spec() {
    let i = strings(&[
        r#"Just raw text, nothing special, no placeholder like \{\}"#,
        "this will be ignored because the format contains no formatting specifier",
    ]);
    let actual = cprintf(i);
    assert_eq!(
        actual.ok(),
        Some("Just raw text, nothing special, no placeholder like {}\x1b[0m".to_string())
    );
}

#[test]
fn when_a_format_is_specified_then_use_it_2_specs() {
    let i = strings(&["{} and {}", "A", "B"]);
    let actual = cprintf(i);
    assert_eq!(actual.ok(), Some("A and B\x1b[0m".to_string()));
}

#[test]
fn print_red() {
    let i = strings(&["{#r}", "red"]);
    let actual = cprintf(i);
    assert_eq!(actual.ok(), Some("\x1b[31mred\x1b[0m\x1b[0m".to_string()));
}

#[test]
fn print_green() {
    let i = strings(&["{#g}", "green"]);
    let actual = cprintf(i);
    assert_eq!(actual.ok(), Some("\x1b[32mgreen\x1b[0m\x1b[0m".to_string()));
}

#[test]
fn tolerate_missing_arguments_when_the_format_doesnt_contain_specs() {
    let i = strings(&[r#"\{\}"#]);
    let actual = cprintf(i);
    assert_eq!(actual.ok(), Some("{}\x1b[0m".to_string()));

    // A closing brace has to be escaped as well: left as it is, it closes
    // nothing, and the template is refused.
    let i = strings(&[r#"\{}"#]);
    let actual = cprintf(i);
    assert_eq!(actual.err(), Some(ParseError::UnbalancedClosingBrace.message()));
}

#[test]
fn a_single_empty_string_as_the_single_argument_is_valid_and_does_nothing() {
    let i = strings(&[""]);
    let actual = cprintf(i);
    assert_eq!(actual.ok(), Some("".to_string()));
}

#[test]
fn require_at_least_2_arguments() {
    // An empty format asks for nothing; one with a placeholder asks for an
    // argument.
    assert_eq!(cprintf(strings(&[""])), Ok("".to_string()));
    assert_eq!(cprintf(strings(&["{}"])), Err(TOO_FEW.to_string()));
}

#[test]
fn print_any_string_by_omitting_the_format() {
    assert_eq!(
        cprintf(strings(&["", "Whatever you want here!"])),
        Ok("Whatever you want here!".to_string())
    );
}

#[test]
fn print_just_brackets_using_2_args() {
    assert_eq!(cprintf(strings(&["{}", "{}"])), Ok("{}\x1b[0m".to_string()));
}

#[test]
fn print_indexed_specs() {
    assert_eq!(
        cprintf(strings(&["{%3} {%2} {%1} {%2} {%3}", "1", "2", "3"])),
        Ok("3 2 1 2 3\x1b[0m".to_string())
    );
}

#[test]
fn print_literal_brackets() {
    assert_eq!(
        cprintf(strings(&[r#"\{{}\}"#, "value"])),
        Ok("{value}\x1b[0m".to_string())
    );
}

#[test]
fn too_few_arguments_has_the_fixed_message() {
    assert_eq!(too_few_arguments(), TOO_FEW.to_string());
    assert_eq!(cprintf(strings(&["a {%1} b"])), Err(TOO_FEW.to_string()));
    assert_eq!(cprintf(strings(&["{name#g}"])), Err(TOO_FEW.to_string()));
}

#[test]
fn empty_template_concatenates_without_codes() {
    assert_eq!(cprintf(strings(&["", "a", "b", "c"])), Ok("abc".to_string()));
    assert_eq!(cprintf(strings(&["", ""])), Ok("".to_string()));
    assert_eq!(cprintf(strings(&["", "{#r}", "\\{"])), Ok("{#r}\\{".to_string()));
}

#[test]
fn template_without_placeholders_ignores_the_arguments() {
    assert_eq!(cprintf(strings(&["plain"])), Ok("plain\x1b[0m".to_string()));
    assert_eq!(cprintf(strings(&["plain", "x", "y"])), Ok("plain\x1b[0m".to_string()));
    assert_eq!(cprintf(strings(&[r#"\{\}\}\{"#])), Ok("{}}{\x1b[0m".to_string()));
}

#[test]
fn parse_faults_come_back_as_their_messages() {
    assert_eq!(
        cprintf(strings(&["{", "x"])),
        Err(ParseError::UnterminatedSpecifier.message())
    );
    assert_eq!(
        cprintf(strings(&["}", "x"])),
        Err(ParseError::UnbalancedClosingBrace.message())
    );
    assert_eq!(
        cprintf(strings(&["{#purple}", "x"])),
        Err(ParseError::UnknownDecorationTag.message())
    );
    assert_eq!(cprintf(strings(&["{%0}", "x"])), Err(ParseError::InvalidIndex.message()));
}

#[test]
fn a_parse_fault_is_reported_before_too_few_arguments() {
    assert_eq!(cprintf(strings(&["{} {"])), Err(ParseError::UnterminatedSpecifier.message()));
}

#[test]
fn render_faults_come_back_as_their_message() {
    let missing = RenderError::MissingArgument.message();
    assert_eq!(cprintf(strings(&["{} {}", "only"])), Err(missing.clone()));
    assert_eq!(cprintf(strings(&["{%2}", "only"])), Err(missing.clone()));
    assert_eq!(cprintf(strings(&["{name}", "value"])), Err(missing));
}

#[test]
fn positional_and_indexed_placeholders_mix() {
    assert_eq!(
        cprintf(strings(&["{} {%1} {} {%2}", "a", "b"])),
        Ok("a a b b\x1b[0m".to_string())
    );
}

#[test]
fn styles_follow_the_color() {
    assert_eq!(
        cprintf(strings(&["<{#r,bold,underline}>", "x"])),
        Ok("<\x1b[31;1;4mx\x1b[0m>\x1b[0m".to_string())
    );
    assert_eq!(
        cprintf(strings(&["{#underline}", "x"])),
        Ok("\x1b[4mx\x1b[0m\x1b[0m".to_string())
    );
}

#[test]
fn unused_arguments_are_dropped() {
    assert_eq!(cprintf(strings(&["{}", "a", "b"])), Ok("a\x1b[0m".to_string()));
}

#[test]
fn holds_placeholder_looks_at_every_part() {
    let literal = Part::Literal { content: "a".to_string() };
    let placeholder =
        Part::Placeholder { address: Address::NextPositional, decoration: Decoration::plain() };
    assert!(!holds_placeholder(&vec![]));
    assert!(!holds_placeholder(&vec![literal.clone(), literal.clone()]));
    assert!(holds_placeholder(&vec![literal.clone(), placeholder.clone()]));
    assert!(holds_placeholder(&vec![placeholder, literal]));
}

#[test]
fn concatenate_arguments_skips_the_template() {
    assert_eq!(concatenate_arguments(&strings(&["template"])), "".to_string());
    assert_eq!(concatenate_arguments(&strings(&["template", "a", "", "bc"])), "abc".to_string());
}
