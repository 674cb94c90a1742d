//! From a format program and its arguments to the text for the terminal.
//!
//! Literal parts are emitted as they stand. A placeholder is replaced by the
//! argument that its address names; where it has a decoration, the argument
//! stands between the sequence that sets the decoration's attributes and the
//! sequence that resets them. One more reset ends the text.

use vstd::prelude::*;

use crate::model::{
    has_placeholder, Address, AddressView, Decoration, DecorationView, Part, PartView,
    RenderError,
};

verus! {

/// The sequence that switches every attribute off: `ESC [ 0 m`.
pub open spec fn reset_sequence() -> Seq<char> {
    seq!['\x1b', '[', '0', 'm']
}

/// The character of a decimal digit.
pub open spec fn digit_char(digit: nat) -> char {
    ('0' as nat + digit) as char
}

/// The decimal numeral of `n`, without leading zeros.
pub open spec fn decimal(n: nat) -> Seq<char>
    decreases n,
{
    if n < 10 {
        seq![digit_char(n)]
    } else {
        decimal(n / 10).push(digit_char(n % 10))
    }
}

/// The numerals of `codes`, with a semicolon between each two.
pub open spec fn joined(codes: Seq<nat>) -> Seq<char>
    decreases codes.len(),
{
    if codes.len() == 0 {
        Seq::empty()
    } else if codes.len() == 1 {
        decimal(codes[0])
    } else {
        joined(codes.drop_last()) + seq![';'] + decimal(codes.last())
    }
}

/// The sequence that sets the attributes of a decoration:
/// `ESC [ code ; code ... m`, the color's code first.
pub open spec fn set_sequence(decoration: DecorationView) -> Seq<char> {
    seq!['\x1b', '['] + joined(decoration.codes()) + seq!['m']
}

/// `text` as a decoration shows it: unchanged where the decoration is plain,
/// else between the decoration's set sequence and a reset.
pub open spec fn decorated(text: Seq<char>, decoration: DecorationView) -> Seq<char> {
    if decoration.is_plain() {
        text
    } else {
        set_sequence(decoration) + text + reset_sequence()
    }
}

/// Whether `part` is a positional placeholder.
pub open spec fn is_positional(part: PartView) -> bool {
    part matches PartView::Placeholder { address: AddressView::NextPositional, .. }
}

/// How many of the first `k` parts are positional placeholders.
pub open spec fn positional_before(parts: Seq<PartView>, k: int) -> nat
    decreases k,
{
    if k <= 0 {
        0
    } else {
        positional_before(parts, k - 1) + if is_positional(parts[k - 1]) {
            1nat
        } else {
            0nat
        }
    }
}

/// The position in the argument list that part `k` names, if it names one.
/// Position 0 holds the template, so the first argument is at position 1. A
/// positional placeholder names the position after those that the
/// positional placeholders before it name; an indexed one names its index,
/// wherever it stands; a named one names none, as no argument carries a name.
pub open spec fn source_of(parts: Seq<PartView>, k: int) -> Option<nat> {
    match parts[k] {
        PartView::Literal { .. } => None,
        PartView::Placeholder { address, .. } => match address {
            AddressView::NextPositional => Some(1 + positional_before(parts, k)),
            AddressView::Indexed(n) => Some(n),
            AddressView::Named(_) => None,
        },
    }
}

/// Whether part `k` can be emitted: it is a literal, or it names a position
/// that holds an argument.
pub open spec fn resolves(arguments: Seq<Seq<char>>, parts: Seq<PartView>, k: int) -> bool {
    parts[k] is Literal || (source_of(parts, k) matches Some(position) && 1 <= position
        < arguments.len())
}

/// The text that part `k` contributes.
pub open spec fn piece(arguments: Seq<Seq<char>>, parts: Seq<PartView>, k: int) -> Seq<char> {
    match parts[k] {
        PartView::Literal { content } => content,
        PartView::Placeholder { decoration, .. } => decorated(
            arguments[source_of(parts, k)->0 as int],
            decoration,
        ),
    }
}

/// The text that the first `k` parts contribute.
pub open spec fn pieces(arguments: Seq<Seq<char>>, parts: Seq<PartView>, k: int) -> Seq<char>
    decreases k,
{
    if k <= 0 {
        Seq::empty()
    } else {
        pieces(arguments, parts, k - 1) + piece(arguments, parts, k - 1)
    }
}

/// The rendering of a program: the text of all its parts and a final reset,
/// or no text at all where a part cannot be emitted.
pub open spec fn render_spec(arguments: Seq<Seq<char>>, parts: Seq<PartView>) -> Result<
    Seq<char>,
    RenderError,
> {
    if forall|k: int| 0 <= k < parts.len() ==> resolves(arguments, parts, k) {
        Ok(pieces(arguments, parts, parts.len() as int) + reset_sequence())
    } else {
        Err(RenderError::MissingArgument)
    }
}

fn digit_of(digit: u8) -> (c: char)
    requires
        digit < 10,
    ensures
        c == digit_char(digit as nat),
{
    ('0' as u8 + digit) as char
}

/// Appends the decimal numeral of `n`.
pub fn push_decimal(out: &mut String, n: u8)
    ensures
        final(out)@ == old(out)@ + decimal(n as nat),
{
    reveal_with_fuel(decimal, 3);
    if n >= 100 {
        out.push(digit_of(n / 100));
    }
    if n >= 10 {
        out.push(digit_of((n / 10) % 10));
    }
    out.push(digit_of(n % 10));
}

/// Appends the codes of a decoration, with a semicolon between each two.
pub fn push_codes(out: &mut String, decoration: &Decoration)
    ensures
        final(out)@ == old(out)@ + joined(decoration@.codes()),
{
    let ghost codes = decoration@.codes();
    let ghost offset: int = if decoration.color is Some { 1 } else { 0 };
    let mut first = true;
    if let Some(color) = decoration.color {
        push_decimal(out, color.code());
        first = false;
    }
    let mut i: usize = 0;
    while i < decoration.styles.len()
        invariant
            i <= decoration.styles@.len(),
            codes == decoration@.codes(),
            offset == if decoration.color is Some { 1int } else { 0int },
            first == (offset + i == 0),
            out@ == old(out)@ + joined(codes.take(offset + i)),
        decreases decoration.styles@.len() - i,
    {
        let style = decoration.styles[i];
        if !first {
            out.push(';');
        }
        push_decimal(out, style.code());
        proof {
            let now = codes.take(offset + i + 1);
            assert(now.drop_last() =~= codes.take(offset + i));
        }
        first = false;
        i += 1;
    }
    assert(codes.take(offset + i) =~= codes);
}

/// Appends `text` as `decoration` shows it.
pub fn push_decorated(out: &mut String, text: &str, decoration: &Decoration)
    ensures
        final(out)@ == old(out)@ + decorated(text@, decoration@),
{
    if decoration.is_plain() {
        out.append(text);
    } else {
        proof {
            reveal_strlit("\x1b[");
            reveal_strlit("\x1b[0m");
        }
        out.append("\x1b[");
        push_codes(out, decoration);
        out.push('m');
        out.append(text);
        out.append("\x1b[0m");
    }
}

/// Renders a format program. `arguments` holds the template first and the
/// arguments after it.
pub fn render(arguments: &Vec<String>, program: &Vec<Part>) -> (result: Result<
    String,
    RenderError,
>)
    ensures
        match result {
            Ok(text) => render_spec(arguments.deep_view(), program.deep_view()) == Ok::<
                Seq<char>,
                RenderError,
            >(text@),
            Err(e) => render_spec(arguments.deep_view(), program.deep_view()) == Err::<
                Seq<char>,
                RenderError,
            >(e),
        },
        result matches Ok(text) ==> ends_with(text@, reset_sequence()),
{
    let ghost texts = arguments.deep_view();
    let ghost parts = program.deep_view();
    let mut out = String::new();
    let mut cursor: usize = 1;
    let mut k: usize = 0;
    while k < program.len()
        invariant
            k <= program@.len(),
            texts == arguments.deep_view(),
            parts == program.deep_view(),
            cursor == 1 + positional_before(parts, k as int),
            forall|j: int| 0 <= j < k ==> resolves(texts, parts, j),
            out@ == pieces(texts, parts, k as int),
        decreases program@.len() - k,
    {
        match &program[k] {
            Part::Literal { content } => {
                out.append(content.as_str());
            },
            Part::Placeholder { address, decoration } => {
                let position: usize = match address {
                    Address::NextPositional => {
                        if cursor >= arguments.len() {
                            assert(!resolves(texts, parts, k as int));
                            return Err(RenderError::MissingArgument);
                        }
                        cursor += 1;
                        cursor - 1
                    },
                    Address::Indexed(n) => {
                        if *n == 0 || *n >= arguments.len() as u64 {
                            assert(!resolves(texts, parts, k as int));
                            return Err(RenderError::MissingArgument);
                        }
                        *n as usize
                    },
                    Address::Named(_) => {
                        assert(!resolves(texts, parts, k as int));
                        return Err(RenderError::MissingArgument);
                    },
                };
                push_decorated(&mut out, arguments[position].as_str(), decoration);
            },
        }
        k += 1;
    }
    proof {
        reveal_strlit("\x1b[0m");
    }
    out.append("\x1b[0m");
    proof {
        assert(out@ =~= pieces(texts, parts, parts.len() as int) + reset_sequence());
        lemma_render_ends_with_reset(texts, parts);
    }
    Ok(out)
}

/// The contents of the parts of a program without placeholders, one after
/// the other.
pub open spec fn literal_text(parts: Seq<PartView>) -> Seq<char> {
    parts.map_values(|part: PartView| part->content).flatten()
}

/// Whether `text` ends with `tail`.
pub open spec fn ends_with(text: Seq<char>, tail: Seq<char>) -> bool {
    text.len() >= tail.len() && text.subrange(text.len() - tail.len(), text.len() as int) == tail
}

proof fn lemma_pieces_of_literals(arguments: Seq<Seq<char>>, parts: Seq<PartView>, k: int)
    requires
        !has_placeholder(parts),
        0 <= k <= parts.len(),
    ensures
        pieces(arguments, parts, k) == literal_text(parts.take(k)),
    decreases k,
{
    let content = |part: PartView| part->content;
    if k > 0 {
        lemma_pieces_of_literals(arguments, parts, k - 1);
        assert(parts.take(k).map_values(content) =~= parts.take(k - 1).map_values(content).push(
            parts[k - 1]->content,
        ));
        parts.take(k - 1).map_values(content).lemma_flatten_push(parts[k - 1]->content);
    }
}

/// A program without placeholders renders, whatever the arguments are, as
/// its literal text followed by one reset.
pub proof fn lemma_render_of_literals(arguments: Seq<Seq<char>>, parts: Seq<PartView>)
    requires
        !has_placeholder(parts),
    ensures
        render_spec(arguments, parts) == Ok::<Seq<char>, RenderError>(
            literal_text(parts) + reset_sequence(),
        ),
{
    lemma_pieces_of_literals(arguments, parts, parts.len() as int);
    assert(parts.take(parts.len() as int) =~= parts);
}

proof fn lemma_positional_before_skips(parts: Seq<PartView>, from: int, to: int)
    requires
        0 <= from <= to <= parts.len(),
        forall|j: int| from <= j < to ==> !is_positional(#[trigger] parts[j]),
    ensures
        positional_before(parts, to) == positional_before(parts, from),
    decreases to - from,
{
    if from < to {
        lemma_positional_before_skips(parts, from, to - 1);
    }
}

proof fn lemma_positional_before_without(parts: Seq<PartView>, k: int, m: int)
    requires
        0 <= k < parts.len(),
        !is_positional(parts[k]),
        0 <= m < parts.len(),
    ensures
        positional_before(parts.remove(k), m) == positional_before(
            parts,
            if m <= k {
                m
            } else {
                m + 1
            },
        ),
    decreases m,
{
    if m > 0 {
        lemma_positional_before_without(parts, k, m - 1);
        if m - 1 == k {
            assert(positional_before(parts, k + 1) == positional_before(parts, k));
        }
    }
}

/// Positional placeholders take the arguments from left to right, one each:
/// the first of them takes the first argument.
pub proof fn lemma_first_positional(parts: Seq<PartView>, k: int)
    requires
        0 <= k < parts.len(),
        is_positional(parts[k]),
        forall|j: int| 0 <= j < k ==> !is_positional(#[trigger] parts[j]),
    ensures
        source_of(parts, k) == Some(1nat),
{
    lemma_positional_before_skips(parts, 0, k);
}

/// Positional placeholders take the arguments from left to right, one each:
/// each takes the argument after the one that the positional placeholder
/// before it took, whatever stands between the two.
pub proof fn lemma_next_positional(parts: Seq<PartView>, k1: int, k2: int)
    requires
        0 <= k1 < k2 < parts.len(),
        is_positional(parts[k1]),
        is_positional(parts[k2]),
        forall|j: int| k1 < j < k2 ==> !is_positional(#[trigger] parts[j]),
    ensures
        source_of(parts, k2) == Some(source_of(parts, k1)->0 + 1),
{
    lemma_positional_before_skips(parts, k1 + 1, k2);
}

/// An indexed placeholder names the same argument wherever it stands and
/// however often it occurs.
pub proof fn lemma_indexed_is_reusable(parts: Seq<PartView>, k1: int, k2: int, n: nat)
    requires
        0 <= k1 < parts.len(),
        0 <= k2 < parts.len(),
        parts[k1] matches PartView::Placeholder { address: AddressView::Indexed(m), .. } && m == n,
        parts[k2] matches PartView::Placeholder { address: AddressView::Indexed(m), .. } && m == n,
    ensures
        source_of(parts, k1) == Some(n),
        source_of(parts, k2) == Some(n),
{
}

/// Only positional placeholders consume arguments: a program without one of
/// its other parts has each remaining part name the argument that it named
/// before.
pub proof fn lemma_only_positional_consumes(parts: Seq<PartView>, k: int, j: int)
    requires
        0 <= k < parts.len(),
        !is_positional(parts[k]),
        0 <= j < parts.len(),
        j != k,
    ensures
        source_of(
            parts.remove(k),
            if j < k {
                j
            } else {
                j - 1
            },
        ) == source_of(parts, j),
{
    let m = if j < k {
        j
    } else {
        j - 1
    };
    lemma_positional_before_without(parts, k, m);
}

/// A decorated text ends with a reset of its own.
pub proof fn lemma_decorated_ends_with_reset(text: Seq<char>, decoration: DecorationView)
    requires
        !decoration.is_plain(),
    ensures
        ends_with(decorated(text, decoration), reset_sequence()),
{
    let whole = decorated(text, decoration);
    assert(whole.subrange(whole.len() - 4, whole.len() as int) =~= reset_sequence());
}

/// Every rendering ends with a reset.
pub proof fn lemma_render_ends_with_reset(arguments: Seq<Seq<char>>, parts: Seq<PartView>)
    requires
        render_spec(arguments, parts) is Ok,
    ensures
        ends_with(render_spec(arguments, parts)->Ok_0, reset_sequence()),
{
    let whole = render_spec(arguments, parts)->Ok_0;
    assert(whole.subrange(whole.len() - 4, whole.len() as int) =~= reset_sequence());
}

/// The reset of a decorated placeholder stands before the final reset: where
/// the last part is a decorated placeholder, the rendering ends with two.
pub proof fn lemma_render_of_decorated_last(arguments: Seq<Seq<char>>, parts: Seq<PartView>)
    requires
        parts.len() > 0,
        parts.last() matches PartView::Placeholder { decoration, .. } && !decoration.is_plain(),
        render_spec(arguments, parts) is Ok,
    ensures
        ends_with(render_spec(arguments, parts)->Ok_0, reset_sequence() + reset_sequence()),
{
    let whole = render_spec(arguments, parts)->Ok_0;
    assert(whole.subrange(whole.len() - 8, whole.len() as int) =~= reset_sequence()
        + reset_sequence());
}

} // verus!
