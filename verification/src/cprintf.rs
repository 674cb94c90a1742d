//! The formatter as its callers see it: one list of strings in, one string
//! or one message out.

use vstd::prelude::*;

use crate::model::{has_placeholder, Part, PartView};
use crate::parser::{
    every_brace_escaped, is_brace, lemma_parse_of_escaped, lemma_unescape_without_braces, parse,
    parse_spec, unescape,
};
use crate::renderer::{
    lemma_render_of_literals, literal_text, render, render_spec, reset_sequence,
};

verus! {

/// The message for a call with too few arguments.
pub open spec fn too_few_arguments_message() -> Seq<char> {
    "The minimum number of arguments is 2. The first argument is the format. If no formatting is necessary, use an empty string."@
}

/// What a call of the formatter gives. `inputs` holds the template first and
/// the arguments after it.
///
/// An empty template formats nothing: the result is the arguments, one after
/// the other, as they stand, and the empty text where there is none. Any
/// other template is parsed and rendered, and a fault of either comes back
/// as its message. A template that holds a placeholder needs an argument: a
/// call without one is answered with a message of its own.
pub open spec fn cprintf_spec(inputs: Seq<Seq<char>>) -> Result<Seq<char>, Seq<char>>
    recommends
        inputs.len() >= 1,
{
    let template = inputs[0];
    if template.len() == 0 {
        Ok(inputs.subrange(1, inputs.len() as int).flatten())
    } else {
        match parse_spec(template) {
            Err(e) => Err(e.message_spec()),
            Ok(parts) => if has_placeholder(parts) && inputs.len() < 2 {
                Err(too_few_arguments_message())
            } else {
                match render_spec(inputs, parts) {
                    Ok(text) => Ok(text),
                    Err(e) => Err(e.message_spec()),
                }
            },
        }
    }
}

/// Whether a program holds a placeholder.
pub fn holds_placeholder(program: &Vec<Part>) -> (found: bool)
    ensures
        found == has_placeholder(program.deep_view()),
{
    let mut k: usize = 0;
    while k < program.len()
        invariant
            k <= program@.len(),
            forall|j: int| 0 <= j < k ==> !(#[trigger] program.deep_view()[j] is Placeholder),
        decreases program@.len() - k,
    {
        assert(program.deep_view()[k as int] == program@[k as int]@);
        if program[k].is_placeholder() {
            return true;
        }
        k += 1;
    }
    false
}

/// The arguments after the template, one after the other.
pub fn concatenate_arguments(inputs: &Vec<String>) -> (text: String)
    requires
        inputs@.len() >= 1,
    ensures
        text@ == inputs.deep_view().subrange(1, inputs@.len() as int).flatten(),
{
    let ghost texts = inputs.deep_view();
    let mut text = String::new();
    let mut i: usize = 1;
    while i < inputs.len()
        invariant
            1 <= i <= inputs@.len(),
            texts == inputs.deep_view(),
            text@ == texts.subrange(1, i as int).flatten(),
        decreases inputs@.len() - i,
    {
        proof {
            assert(texts.subrange(1, i + 1) =~= texts.subrange(1, i as int).push(inputs@[i as int]@));
            texts.subrange(1, i as int).lemma_flatten_push(inputs@[i as int]@);
        }
        text.append(inputs[i].as_str());
        i += 1;
    }
    text
}

/// Formats `inputs`: the template first, the arguments after it.
pub fn cprintf(inputs: Vec<String>) -> (result: Result<String, String>)
    requires
        inputs@.len() >= 1,
    ensures
        match result {
            Ok(text) => cprintf_spec(inputs.deep_view()) == Ok::<Seq<char>, Seq<char>>(text@),
            Err(message) => cprintf_spec(inputs.deep_view()) == Err::<Seq<char>, Seq<char>>(
                message@,
            ),
        },
{
    if inputs[0].as_str().is_empty() {
        Ok(concatenate_arguments(&inputs))
    } else {
        match parse(inputs[0].as_str()) {
            Err(e) => Err(e.message()),
            Ok(program) => {
                if inputs.len() < 2 && holds_placeholder(&program) {
                    Err(too_few_arguments())
                } else {
                    match render(&inputs, &program) {
                        Ok(text) => Ok(text),
                        Err(e) => Err(e.message()),
                    }
                }
            },
        }
    }
}

/// The message for a call with too few arguments.
pub fn too_few_arguments() -> (message: String)
    ensures
        message@ == too_few_arguments_message(),
{
    String::from_str(
        "The minimum number of arguments is 2. The first argument is the format. If no formatting is necessary, use an empty string.",
    )
}

/// A template without placeholders is shown as it stands: whatever the
/// arguments are, the result is the literal text of its program followed by
/// one reset.
pub proof fn lemma_cprintf_of_literals(inputs: Seq<Seq<char>>)
    requires
        inputs.len() >= 1,
        inputs[0].len() > 0,
        parse_spec(inputs[0]) is Ok,
        !has_placeholder(parse_spec(inputs[0])->Ok_0),
    ensures
        cprintf_spec(inputs) == Ok::<Seq<char>, Seq<char>>(
            literal_text(parse_spec(inputs[0])->Ok_0) + reset_sequence(),
        ),
{
    lemma_render_of_literals(inputs, parse_spec(inputs[0])->Ok_0);
}

/// A template in which every brace is escaped is shown with the escapes
/// resolved and one reset after it, whatever the arguments are.
pub proof fn lemma_cprintf_of_escaped(inputs: Seq<Seq<char>>)
    requires
        inputs.len() >= 1,
        inputs[0].len() > 0,
        every_brace_escaped(inputs[0]),
    ensures
        cprintf_spec(inputs) == Ok::<Seq<char>, Seq<char>>(
            unescape(inputs[0]) + reset_sequence(),
        ),
{
    let part = PartView::Literal { content: unescape(inputs[0]) };
    lemma_parse_of_escaped(inputs[0]);
    seq![part].map_values(|part: PartView| part->content).lemma_flatten_one_element();
    lemma_cprintf_of_literals(inputs);
}

/// A template without braces is shown unchanged, with one reset after it,
/// whatever the arguments are.
pub proof fn lemma_cprintf_of_plain_text(inputs: Seq<Seq<char>>)
    requires
        inputs.len() >= 1,
        inputs[0].len() > 0,
        forall|i: int| 0 <= i < inputs[0].len() ==> !is_brace(#[trigger] inputs[0][i]),
    ensures
        cprintf_spec(inputs) == Ok::<Seq<char>, Seq<char>>(inputs[0] + reset_sequence()),
{
    lemma_unescape_without_braces(inputs[0]);
    lemma_cprintf_of_escaped(inputs);
}

/// With an empty template the result is the arguments, one after the
/// other, and nothing else: no code is set and none is reset. Without an
/// argument it is the empty text.
pub proof fn lemma_cprintf_of_empty_template(inputs: Seq<Seq<char>>)
    requires
        inputs.len() >= 1,
        inputs[0].len() == 0,
    ensures
        cprintf_spec(inputs) == Ok::<Seq<char>, Seq<char>>(
            inputs.subrange(1, inputs.len() as int).flatten(),
        ),
        inputs.len() == 1 ==> cprintf_spec(inputs) == Ok::<Seq<char>, Seq<char>>(Seq::empty()),
{
    if inputs.len() == 1 {
        assert(inputs.subrange(1, 1) =~= Seq::<Seq<char>>::empty());
    }
}

/// A template with a placeholder needs an argument: without one the call
/// fails with the message for too few arguments, and never gives a text.
pub proof fn lemma_cprintf_without_arguments(inputs: Seq<Seq<char>>)
    requires
        inputs.len() == 1,
        parse_spec(inputs[0]) is Ok,
        has_placeholder(parse_spec(inputs[0])->Ok_0),
    ensures
        cprintf_spec(inputs) == Err::<Seq<char>, Seq<char>>(too_few_arguments_message()),
{
}

} // verus!
