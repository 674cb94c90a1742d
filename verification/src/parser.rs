//! From a template to its format program.
//!
//! A template is literal text with placeholders in braces. A backslash
//! directly before a brace makes the brace literal text. The text between an
//! unescaped `{` and the next unescaped `}` is a specifier: an address,
//! optionally followed by `#` and a comma-separated list of decoration tags.

use vstd::prelude::*;
use vstd::slice::slice_subrange;

use crate::model::{
    has_placeholder, well_formed_program, Address, AddressView, Color, Decoration,
    DecorationView, ParseError, Part, PartView, Style,
};
use crate::text::{to_chars, to_text};

verus! {

/// Whether `c` opens or closes a specifier.
pub open spec fn is_brace(c: char) -> bool {
    c == '{' || c == '}'
}

/// Whether a backslash stands directly before position `i` of `s`.
pub open spec fn escaped(s: Seq<char>, i: int) -> bool {
    0 < i <= s.len() && s[i - 1] == '\\'
}

/// The first position at or after `from` where `target` stands unescaped, or
/// the length of `s` if there is none.
pub open spec fn find_unescaped(s: Seq<char>, target: char, from: int) -> int
    decreases s.len() - from,
{
    if from >= s.len() {
        s.len() as int
    } else if s[from] == target && !escaped(s, from) {
        from
    } else {
        find_unescaped(s, target, from + 1)
    }
}

/// The first position at or after `from` where an unescaped brace stands, or
/// the length of `s` if there is none.
pub open spec fn literal_end(s: Seq<char>, from: int) -> int
    decreases s.len() - from,
{
    if from >= s.len() {
        s.len() as int
    } else if is_brace(s[from]) && !escaped(s, from) {
        from
    } else {
        literal_end(s, from + 1)
    }
}

/// The text of a literal run: `s` without the backslashes that escape a brace.
pub open spec fn unescape(s: Seq<char>) -> Seq<char>
    decreases s.len(),
{
    if s.len() == 0 {
        s
    } else if s.len() >= 2 && is_brace(s.last()) && s[s.len() - 2] == '\\' {
        unescape(s.take(s.len() - 2)).push(s.last())
    } else {
        unescape(s.drop_last()).push(s.last())
    }
}

/// Whether `c` is a decimal digit.
pub open spec fn is_digit(c: char) -> bool {
    '0' <= c <= '9'
}

/// The value of the decimal digit `c`.
pub open spec fn digit_value(c: char) -> nat {
    (c as nat - '0' as nat) as nat
}

/// Whether `s` holds decimal digits only.
pub open spec fn all_digits(s: Seq<char>) -> bool {
    forall|i: int| 0 <= i < s.len() ==> is_digit(#[trigger] s[i])
}

/// The number that the decimal digits `s` spell.
pub open spec fn decimal_value(s: Seq<char>) -> nat
    decreases s.len(),
{
    if s.len() == 0 {
        0
    } else {
        decimal_value(s.drop_last()) * 10 + digit_value(s.last())
    }
}

/// The index that `digits` spell: they are one or more decimal digits, and
/// their value is at least one and fits the index type.
pub open spec fn index_of_digits(digits: Seq<char>) -> Option<nat> {
    if digits.len() > 0 && all_digits(digits) && 1 <= decimal_value(digits) <= u64::MAX {
        Some(decimal_value(digits))
    } else {
        None
    }
}

/// The address that an address token stands for: nothing is the next
/// positional argument, `%` and a number is an index, anything else a name.
pub open spec fn resolve_address_spec(token: Seq<char>) -> Result<AddressView, ParseError> {
    if token.len() == 0 {
        Ok(AddressView::NextPositional)
    } else if token[0] == '%' {
        match index_of_digits(token.subrange(1, token.len() as int)) {
            Some(n) => Ok(AddressView::Indexed(n)),
            None => Err(ParseError::InvalidIndex),
        }
    } else {
        Ok(AddressView::Named(token))
    }
}

/// The first position at or after `from` where `target` stands, or the length
/// of `s` if there is none.
pub open spec fn find(s: Seq<char>, target: char, from: int) -> int
    decreases s.len() - from,
{
    if from >= s.len() {
        s.len() as int
    } else if s[from] == target {
        from
    } else {
        find(s, target, from + 1)
    }
}

/// The tags of a decoration token: the pieces between its commas. A token
/// without a comma is one tag, and an empty piece is a tag too.
pub open spec fn split_tags(token: Seq<char>) -> Seq<Seq<char>>
    decreases token.len(),
    via split_tags_decreases
{
    let comma = find(token, ',', 0);
    if comma >= token.len() {
        seq![token]
    } else {
        seq![token.subrange(0, comma)] + split_tags(
            token.subrange(comma + 1, token.len() as int),
        )
    }
}

#[via_fn]
proof fn split_tags_decreases(token: Seq<char>) {
    lemma_find_bounds(token, ',', 0);
}

/// Whether every tag of `tags` names a style.
pub open spec fn all_styles(tags: Seq<Seq<char>>) -> bool {
    forall|k: int| 0 <= k < tags.len() ==> Style::from_tag_spec(#[trigger] tags[k]) is Some
}

/// The styles that `tags` name, in their order.
pub open spec fn styles_of(tags: Seq<Seq<char>>) -> Seq<Style> {
    tags.map_values(|tag: Seq<char>| Style::from_tag_spec(tag)->0)
}

/// The decoration that a decoration token stands for. The first tag may name
/// a color; every other tag names a style, and the styles keep their order.
pub open spec fn resolve_decoration_spec(token: Seq<char>) -> Result<DecorationView, ParseError> {
    let tags = split_tags(token);
    let color = Color::from_tag_spec(tags[0]);
    let style_tags = if color is Some {
        tags.subrange(1, tags.len() as int)
    } else {
        tags
    };
    if all_styles(style_tags) {
        Ok(DecorationView { color, styles: styles_of(style_tags) })
    } else {
        Err(ParseError::UnknownDecorationTag)
    }
}

/// The placeholder that a specifier body stands for. The first unescaped `#`
/// parts the address token from the decoration token; a fault in the address
/// is reported before one in the decoration.
pub open spec fn resolve_specifier_spec(body: Seq<char>) -> Result<PartView, ParseError> {
    let hash = find_unescaped(body, '#', 0);
    match resolve_address_spec(body.subrange(0, hash)) {
        Err(e) => Err(e),
        Ok(address) => if hash >= body.len() {
            Ok(PartView::Placeholder { address, decoration: DecorationView::plain() })
        } else {
            match resolve_decoration_spec(body.subrange(hash + 1, body.len() as int)) {
                Err(e) => Err(e),
                Ok(decoration) => Ok(PartView::Placeholder { address, decoration }),
            }
        },
    }
}

/// `rest` with `parts` put before it, where `rest` is a program.
pub open spec fn after(parts: Seq<PartView>, rest: Result<Seq<PartView>, ParseError>) -> Result<
    Seq<PartView>,
    ParseError,
> {
    match rest {
        Ok(more) => Ok(parts + more),
        Err(e) => Err(e),
    }
}

/// The program of the part of `s` that starts at `from`, where `from` is the
/// start of `s` or the position after a placeholder or a literal run. The
/// first fault from the left is the one reported.
pub open spec fn parse_from(s: Seq<char>, from: int) -> Result<Seq<PartView>, ParseError>
    decreases s.len() - from,
    via parse_from_decreases
{
    if from < 0 || from >= s.len() {
        Ok(Seq::empty())
    } else if s[from] == '}' {
        Err(ParseError::UnbalancedClosingBrace)
    } else if s[from] == '{' {
        let close = find_unescaped(s, '}', from + 1);
        if close >= s.len() {
            Err(ParseError::UnterminatedSpecifier)
        } else {
            match resolve_specifier_spec(s.subrange(from + 1, close)) {
                Err(e) => Err(e),
                Ok(part) => after(seq![part], parse_from(s, close + 1)),
            }
        }
    } else {
        let end = literal_end(s, from);
        after(
            seq![PartView::Literal { content: unescape(s.subrange(from, end)) }],
            parse_from(s, end),
        )
    }
}

#[via_fn]
proof fn parse_from_decreases(s: Seq<char>, from: int) {
    if 0 <= from < s.len() {
        lemma_find_unescaped_bounds(s, '}', from + 1);
        lemma_literal_end_bounds(s, from + 1);
    }
}

/// The program of a template.
pub open spec fn parse_spec(template: Seq<char>) -> Result<Seq<PartView>, ParseError> {
    parse_from(template, 0)
}

/// `find` gives the first position of `target`: it stands there, and
/// nowhere between `from` and there.
pub proof fn lemma_find_bounds(s: Seq<char>, target: char, from: int)
    requires
        0 <= from <= s.len(),
    ensures
        from <= find(s, target, from) <= s.len(),
        find(s, target, from) < s.len() ==> s[find(s, target, from)] == target,
        forall|i: int| from <= i < find(s, target, from) ==> s[i] != target,
    decreases s.len() - from,
{
    if from < s.len() && s[from] != target {
        lemma_find_bounds(s, target, from + 1);
    }
}

/// `find_unescaped` gives the first position of an unescaped `target`: one
/// stands there, and none between `from` and there.
pub proof fn lemma_find_unescaped_bounds(s: Seq<char>, target: char, from: int)
    requires
        0 <= from <= s.len(),
    ensures
        from <= find_unescaped(s, target, from) <= s.len(),
        find_unescaped(s, target, from) < s.len() ==> {
            &&& s[find_unescaped(s, target, from)] == target
            &&& !escaped(s, find_unescaped(s, target, from))
        },
        forall|i: int|
            from <= i < find_unescaped(s, target, from) ==> !(s[i] == target && !escaped(s, i)),
    decreases s.len() - from,
{
    if from < s.len() && !(s[from] == target && !escaped(s, from)) {
        lemma_find_unescaped_bounds(s, target, from + 1);
    }
}

/// `literal_end` gives the first position of an unescaped brace: one stands
/// there, and none between `from` and there.
pub proof fn lemma_literal_end_bounds(s: Seq<char>, from: int)
    requires
        0 <= from <= s.len(),
    ensures
        from <= literal_end(s, from) <= s.len(),
        literal_end(s, from) < s.len() ==> {
            &&& is_brace(s[literal_end(s, from)])
            &&& !escaped(s, literal_end(s, from))
        },
        forall|i: int|
            from <= i < literal_end(s, from) ==> !(is_brace(s[i]) && !escaped(s, i)),
    decreases s.len() - from,
{
    if from < s.len() && !(is_brace(s[from]) && !escaped(s, from)) {
        lemma_literal_end_bounds(s, from + 1);
    }
}

fn is_brace_char(c: char) -> (brace: bool)
    ensures
        brace == is_brace(c),
{
    c == '{' || c == '}'
}

/// Finds the first unescaped `target` at or after `from`.
pub fn find_unescaped_in(s: &[char], target: char, from: usize) -> (position: usize)
    requires
        from <= s@.len(),
    ensures
        position == find_unescaped(s@, target, from as int),
        from <= position <= s@.len(),
{
    let mut k: usize = from;
    while k < s.len()
        invariant
            from <= k <= s@.len(),
            find_unescaped(s@, target, k as int) == find_unescaped(s@, target, from as int),
        decreases s@.len() - k,
    {
        if s[k] == target && !(k > 0 && s[k - 1] == '\\') {
            return k;
        }
        k += 1;
    }
    k
}

/// Finds the first `target` at or after `from`.
pub fn find_in(s: &[char], target: char, from: usize) -> (position: usize)
    requires
        from <= s@.len(),
    ensures
        position == find(s@, target, from as int),
        from <= position <= s@.len(),
{
    let mut k: usize = from;
    while k < s.len()
        invariant
            from <= k <= s@.len(),
            find(s@, target, k as int) == find(s@, target, from as int),
        decreases s@.len() - k,
    {
        if s[k] == target {
            return k;
        }
        k += 1;
    }
    k
}

/// Whether an unescaped brace stands at position `k`.
fn unescaped_brace_at(s: &[char], k: usize) -> (found: bool)
    requires
        k < s@.len(),
    ensures
        found == (is_brace(s@[k as int]) && !escaped(s@, k as int)),
{
    is_brace_char(s[k]) && !(k > 0 && s[k - 1] == '\\')
}

/// Reads the literal run that starts at `from`: its text with the escapes
/// resolved, and the position where it ends.
pub fn scan_literal(s: &[char], from: usize) -> (run: (String, usize))
    requires
        from <= s@.len(),
    ensures
        run.1 == literal_end(s@, from as int),
        from <= run.1 <= s@.len(),
        run.0@ == unescape(s@.subrange(from as int, run.1 as int)),
{
    let mut content = String::new();
    let mut k: usize = from;
    while k < s.len() && !unescaped_brace_at(s, k)
        invariant
            from <= k <= s@.len(),
            from < k < s@.len() && is_brace(s@[k as int]) ==> !escaped(s@, k as int),
            literal_end(s@, k as int) == literal_end(s@, from as int),
            content@ == unescape(s@.subrange(from as int, k as int)),
        decreases s@.len() - k,
    {
        let c = s[k];
        if c == '\\' && k + 1 < s.len() && is_brace_char(s[k + 1]) {
            proof {
                let run = s@.subrange(from as int, k + 2);
                assert(run.take(run.len() - 2) =~= s@.subrange(from as int, k as int));
                assert(literal_end(s@, k as int) == literal_end(s@, k + 1));
            }
            content.push(s[k + 1]);
            k += 2;
        } else {
            proof {
                let run = s@.subrange(from as int, k + 1);
                assert(run.drop_last() =~= s@.subrange(from as int, k as int));
            }
            content.push(c);
            k += 1;
        }
    }
    (content, k)
}

/// Reads an index: one or more decimal digits that spell a positive number.
pub fn parse_index(digits: &[char]) -> (index: Option<u64>)
    ensures
        match index {
            Some(n) => index_of_digits(digits@) == Some(n as nat),
            None => index_of_digits(digits@) is None,
        },
{
    if digits.len() == 0 {
        return None;
    }
    let mut value: u64 = 0;
    let mut i: usize = 0;
    while i < digits.len()
        invariant
            i <= digits@.len(),
            all_digits(digits@.take(i as int)),
            value == decimal_value(digits@.take(i as int)),
        decreases digits@.len() - i,
    {
        let c = digits[i];
        if !(c >= '0' && c <= '9') {
            return None;
        }
        let digit: u64 = (c as u32 - '0' as u32) as u64;
        proof {
            assert(digits@.take(i + 1).drop_last() =~= digits@.take(i as int));
            if all_digits(digits@) {
                lemma_decimal_value_of_prefix(digits@, i + 1);
            }
        }
        if value > (u64::MAX - digit) / 10 {
            return None;
        }
        value = value * 10 + digit;
        i += 1;
    }
    proof {
        assert(digits@.take(i as int) =~= digits@);
    }
    if value == 0 {
        None
    } else {
        Some(value)
    }
}

/// The value of a prefix of decimal digits is at most the value of the whole.
pub proof fn lemma_decimal_value_of_prefix(s: Seq<char>, k: int)
    requires
        0 <= k <= s.len(),
    ensures
        decimal_value(s.take(k)) <= decimal_value(s),
    decreases s.len() - k,
{
    if k < s.len() {
        lemma_decimal_value_of_prefix(s, k + 1);
        assert(s.take(k + 1).drop_last() =~= s.take(k));
    } else {
        assert(s.take(k) =~= s);
    }
}

/// Resolves an address token.
pub fn resolve_address(token: &[char]) -> (result: Result<Address, ParseError>)
    ensures
        match result {
            Ok(address) => resolve_address_spec(token@) == Ok::<AddressView, ParseError>(address@),
            Err(e) => resolve_address_spec(token@) == Err::<AddressView, ParseError>(e),
        },
{
    if token.len() == 0 {
        Ok(Address::NextPositional)
    } else if token[0] == '%' {
        match parse_index(slice_subrange(token, 1, token.len())) {
            Some(n) => Ok(Address::Indexed(n)),
            None => Err(ParseError::InvalidIndex),
        }
    } else {
        Ok(Address::Named(to_text(token)))
    }
}

/// The tags that the slices in `tags` hold.
pub open spec fn tag_views(tags: Seq<&[char]>) -> Seq<Seq<char>> {
    Seq::new(tags.len(), |k: int| tags[k]@)
}

/// Splits a decoration token at its commas.
pub fn split_tags_of<'a>(token: &'a [char]) -> (tags: Vec<&'a [char]>)
    ensures
        tag_views(tags@) == split_tags(token@),
        tags@.len() >= 1,
{
    let mut tags: Vec<&[char]> = Vec::new();
    let mut rest: &[char] = token;
    loop
        invariant
            split_tags(token@) == tag_views(tags@) + split_tags(rest@),
        decreases rest@.len(),
    {
        let comma = find_in(rest, ',', 0);
        if comma >= rest.len() {
            tags.push(rest);
            return tags;
        }
        tags.push(slice_subrange(rest, 0, comma));
        rest = slice_subrange(rest, comma + 1, rest.len());
    }
}

/// Resolves a decoration token.
pub fn resolve_decoration(token: &[char]) -> (result: Result<Decoration, ParseError>)
    ensures
        match result {
            Ok(decoration) => resolve_decoration_spec(token@) == Ok::<
                DecorationView,
                ParseError,
            >(decoration@),
            Err(e) => resolve_decoration_spec(token@) == Err::<DecorationView, ParseError>(e),
        },
{
    let tags = split_tags_of(token);
    let color = Color::from_tag(tags[0]);
    let first: usize = if color.is_some() {
        1
    } else {
        0
    };
    let ghost style_tags = tag_views(tags@).subrange(first as int, tags@.len() as int);
    proof {
        if first == 0 {
            assert(style_tags =~= tag_views(tags@));
        }
    }
    let mut styles: Vec<Style> = Vec::new();
    let mut k: usize = first;
    while k < tags.len()
        invariant
            first <= k <= tags@.len(),
            tag_views(tags@) == split_tags(token@),
            color == Color::from_tag_spec(split_tags(token@)[0]),
            first == if color is Some { 1int } else { 0int },
            style_tags == tag_views(tags@).subrange(first as int, tags@.len() as int),
            all_styles(style_tags.take(k - first)),
            styles@ == styles_of(style_tags.take(k - first)),
        decreases tags@.len() - k,
    {
        match Style::from_tag(tags[k]) {
            None => {
                assert(style_tags[k - first] == tags@[k as int]@);
                return Err(ParseError::UnknownDecorationTag);
            },
            Some(style) => {
                styles.push(style);
            },
        }
        k += 1;
    }
    proof {
        assert(style_tags.take(k - first) =~= style_tags);
    }
    Ok(Decoration { color, styles })
}

/// Resolves the body of a specifier: what stands between its braces.
pub fn resolve_specifier(body: &[char]) -> (result: Result<Part, ParseError>)
    ensures
        match result {
            Ok(part) => resolve_specifier_spec(body@) == Ok::<PartView, ParseError>(part@),
            Err(e) => resolve_specifier_spec(body@) == Err::<PartView, ParseError>(e),
        },
{
    let hash = find_unescaped_in(body, '#', 0);
    let address = match resolve_address(slice_subrange(body, 0, hash)) {
        Err(e) => {
            return Err(e);
        },
        Ok(address) => address,
    };
    if hash >= body.len() {
        Ok(Part::Placeholder { address, decoration: Decoration::plain() })
    } else {
        match resolve_decoration(slice_subrange(body, hash + 1, body.len())) {
            Err(e) => Err(e),
            Ok(decoration) => Ok(Part::Placeholder { address, decoration }),
        }
    }
}

/// Parses a template into its format program.
pub fn parse(template: &str) -> (result: Result<Vec<Part>, ParseError>)
    ensures
        match result {
            Ok(parts) => parse_spec(template@) == Ok::<Seq<PartView>, ParseError>(
                parts.deep_view(),
            ),
            Err(e) => parse_spec(template@) == Err::<Seq<PartView>, ParseError>(e),
        },
        result matches Ok(parts) ==> well_formed_program(parts.deep_view()),
{
    let chars = to_chars(template);
    let s = chars.as_slice();
    let mut parts: Vec<Part> = Vec::new();
    let mut i: usize = 0;
    while i < s.len()
        invariant
            s@ == template@,
            i <= s@.len(),
            parse_spec(s@) == after(parts.deep_view(), parse_from(s@, i as int)),
        decreases s@.len() - i,
    {
        let ghost before = parts.deep_view();
        let c = s[i];
        if c == '}' {
            return Err(ParseError::UnbalancedClosingBrace);
        } else if c == '{' {
            let close = find_unescaped_in(s, '}', i + 1);
            if close >= s.len() {
                return Err(ParseError::UnterminatedSpecifier);
            }
            match resolve_specifier(slice_subrange(s, i + 1, close)) {
                Err(e) => {
                    return Err(e);
                },
                Ok(part) => {
                    proof {
                        lemma_after_after(before, part@, parse_from(s@, close + 1));
                    }
                    parts.push(part);
                    assert(parts.deep_view() =~= before.push(part@));
                    i = close + 1;
                },
            }
        } else {
            let (content, end) = scan_literal(s, i);
            let part = Part::Literal { content };
            proof {
                lemma_literal_end_bounds(s@, i + 1);
                lemma_after_after(before, part@, parse_from(s@, end as int));
            }
            parts.push(part);
            assert(parts.deep_view() =~= before.push(part@));
            i = end;
        }
    }
    proof {
        lemma_parse_is_well_formed(template@);
    }
    Ok(parts)
}

proof fn lemma_after_after(
    parts: Seq<PartView>,
    part: PartView,
    rest: Result<Seq<PartView>, ParseError>,
)
    ensures
        after(parts, after(seq![part], rest)) == after(parts.push(part), rest),
{
    if let Ok(more) = rest {
        assert(parts + (seq![part] + more) =~= parts.push(part) + more);
    }
}

/// Whether every brace of `s` is escaped.
pub open spec fn every_brace_escaped(s: Seq<char>) -> bool {
    forall|i: int| 0 <= i < s.len() ==> !(is_brace(#[trigger] s[i]) && !escaped(s, i))
}

/// Whether `s` is made of escaped braces and nothing else: a backslash at
/// every even position, a brace at every odd one.
pub open spec fn only_escaped_braces(s: Seq<char>) -> bool {
    &&& s.len() % 2 == 0
    &&& forall|i: int|
        0 <= i < s.len() ==> if i % 2 == 0 {
            #[trigger] s[i] == '\\'
        } else {
            is_brace(s[i])
        }
}

/// The braces of a sequence of escaped braces, in order.
pub open spec fn braces_of(s: Seq<char>) -> Seq<char> {
    Seq::new(s.len() / 2, |j: int| s[2 * j + 1])
}

/// Where every brace is escaped, a literal run goes on to the end.
pub proof fn lemma_literal_end_of_escaped(s: Seq<char>, from: int)
    requires
        0 <= from <= s.len(),
        every_brace_escaped(s),
    ensures
        literal_end(s, from) == s.len(),
    decreases s.len() - from,
{
    if from < s.len() {
        lemma_literal_end_of_escaped(s, from + 1);
    }
}

/// Text without braces is its own literal text.
pub proof fn lemma_unescape_without_braces(s: Seq<char>)
    requires
        forall|i: int| 0 <= i < s.len() ==> !is_brace(#[trigger] s[i]),
    ensures
        unescape(s) == s,
    decreases s.len(),
{
    if s.len() > 0 {
        lemma_unescape_without_braces(s.drop_last());
    }
}

/// A template in which every brace is escaped is one literal: its program
/// is that literal alone, with the escapes resolved, and parsing it cannot
/// fail.
pub proof fn lemma_parse_of_escaped(template: Seq<char>)
    requires
        template.len() > 0,
        every_brace_escaped(template),
    ensures
        parse_spec(template) == Ok::<Seq<PartView>, ParseError>(
            seq![PartView::Literal { content: unescape(template) }],
        ),
{
    lemma_literal_end_of_escaped(template, 0);
    assert(template.subrange(0, template.len() as int) =~= template);
    assert(parse_from(template, template.len() as int) == Ok::<Seq<PartView>, ParseError>(
        Seq::empty(),
    ));
}

/// Escaping loses nothing: a template made of escaped braces alone parses
/// without a fault, into no placeholder, and its literal text is the braces
/// in their order.
pub proof fn lemma_parse_of_escaped_braces(template: Seq<char>)
    requires
        only_escaped_braces(template),
    ensures
        parse_spec(template) is Ok,
        !has_placeholder(parse_spec(template)->Ok_0),
        template.len() > 0 ==> parse_spec(template) == Ok::<Seq<PartView>, ParseError>(
            seq![PartView::Literal { content: braces_of(template) }],
        ),
{
    if template.len() > 0 {
        lemma_unescape_of_escaped_braces(template);
        lemma_parse_of_escaped(template);
    }
}

/// The literal text of a sequence of escaped braces is the braces.
pub proof fn lemma_unescape_of_escaped_braces(s: Seq<char>)
    requires
        only_escaped_braces(s),
    ensures
        unescape(s) == braces_of(s),
    decreases s.len(),
{
    if s.len() > 0 {
        lemma_unescape_of_escaped_braces(s.take(s.len() - 2));
    }
}

/// What an address token resolves to is well formed.
pub proof fn lemma_resolved_address_is_well_formed(token: Seq<char>)
    requires
        resolve_address_spec(token) is Ok,
    ensures
        resolve_address_spec(token)->Ok_0.well_formed(),
{
}

proof fn lemma_parse_from_is_well_formed(s: Seq<char>, from: int)
    requires
        0 <= from <= s.len(),
        parse_from(s, from) is Ok,
    ensures
        well_formed_program(parse_from(s, from)->Ok_0),
        from < s.len() && is_brace(s[from]) ==> parse_from(s, from)->Ok_0[0] is Placeholder,
    decreases s.len() - from,
{
    let parts = parse_from(s, from)->Ok_0;
    if from < s.len() {
        if s[from] == '{' {
            let close = find_unescaped(s, '}', from + 1);
            lemma_find_unescaped_bounds(s, '}', from + 1);
            let body = s.subrange(from + 1, close);
            let part = resolve_specifier_spec(body)->Ok_0;
            let rest = parse_from(s, close + 1)->Ok_0;
            lemma_parse_from_is_well_formed(s, close + 1);
            lemma_resolved_address_is_well_formed(body.subrange(0, find_unescaped(body, '#', 0)));
            assert(parts == seq![part] + rest);
            assert(part is Placeholder);
            assert(part->address.well_formed());
            assert forall|k: int| 0 <= k < parts.len() implies match #[trigger] parts[k] {
                PartView::Literal { content } => content.len() > 0,
                PartView::Placeholder { address, .. } => address.well_formed(),
            } by {
                if k > 0 {
                    assert(parts[k] == rest[k - 1]);
                }
            }
        } else {
            lemma_literal_end_bounds(s, from + 1);
            lemma_parse_from_is_well_formed(s, literal_end(s, from));
        }
    }
}

/// The program of a template is well formed: no literal is empty, no two
/// literals are neighbours, and every address is well formed.
pub proof fn lemma_parse_is_well_formed(template: Seq<char>)
    requires
        parse_spec(template) is Ok,
    ensures
        well_formed_program(parse_spec(template)->Ok_0),
{
    lemma_parse_from_is_well_formed(template, 0);
}

} // verus!
