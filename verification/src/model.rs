//! The parts of a format program, and the errors of parsing and rendering.

use vstd::prelude::*;

use crate::text::same_text;

verus! {

/// A foreground color of the terminal.
#[derive(Clone, Copy, Debug, PartialEq, Eq, Structural)]
pub enum Color {
    Red,
    Green,
}

impl Color {
    /// The attribute code that selects this color.
    pub open spec fn code_spec(self) -> nat {
        match self {
            Color::Red => 31,
            Color::Green => 32,
        }
    }

    /// The tag that names this color in a specifier.
    pub open spec fn tag_spec(self) -> Seq<char> {
        match self {
            Color::Red => "r"@,
            Color::Green => "g"@,
        }
    }

    /// The color that `tag` names, if it names one.
    pub open spec fn from_tag_spec(tag: Seq<char>) -> Option<Color> {
        if tag == Color::Red.tag_spec() {
            Some(Color::Red)
        } else if tag == Color::Green.tag_spec() {
            Some(Color::Green)
        } else {
            None
        }
    }

    /// The attribute code that selects this color.
    pub fn code(self) -> (code: u8)
        ensures
            code == self.code_spec(),
    {
        match self {
            Color::Red => 31,
            Color::Green => 32,
        }
    }

    /// The tag that names this color in a specifier.
    pub fn tag(self) -> (tag: &'static str)
        ensures
            tag@ == self.tag_spec(),
    {
        match self {
            Color::Red => "r",
            Color::Green => "g",
        }
    }

    /// The color that the characters of `tag` name, if they name one.
    pub fn from_tag(tag: &[char]) -> (color: Option<Color>)
        ensures
            color == Color::from_tag_spec(tag@),
    {
        if same_text(tag, Color::Red.tag()) {
            Some(Color::Red)
        } else if same_text(tag, Color::Green.tag()) {
            Some(Color::Green)
        } else {
            None
        }
    }
}

/// A text style of the terminal.
#[derive(Clone, Copy, Debug, PartialEq, Eq, Structural)]
pub enum Style {
    Bold,
    Underline,
}

impl Style {
    /// The attribute code that switches this style on.
    pub open spec fn code_spec(self) -> nat {
        match self {
            Style::Bold => 1,
            Style::Underline => 4,
        }
    }

    /// The tag that names this style in a specifier.
    pub open spec fn tag_spec(self) -> Seq<char> {
        match self {
            Style::Bold => "bold"@,
            Style::Underline => "underline"@,
        }
    }

    /// The style that `tag` names, if it names one.
    pub open spec fn from_tag_spec(tag: Seq<char>) -> Option<Style> {
        if tag == Style::Bold.tag_spec() {
            Some(Style::Bold)
        } else if tag == Style::Underline.tag_spec() {
            Some(Style::Underline)
        } else {
            None
        }
    }

    /// The attribute code that switches this style on.
    pub fn code(self) -> (code: u8)
        ensures
            code == self.code_spec(),
    {
        match self {
            Style::Bold => 1,
            Style::Underline => 4,
        }
    }

    /// The tag that names this style in a specifier.
    pub fn tag(self) -> (tag: &'static str)
        ensures
            tag@ == self.tag_spec(),
    {
        match self {
            Style::Bold => "bold",
            Style::Underline => "underline",
        }
    }

    /// The style that the characters of `tag` name, if they name one.
    pub fn from_tag(tag: &[char]) -> (style: Option<Style>)
        ensures
            style == Style::from_tag_spec(tag@),
    {
        if same_text(tag, Style::Bold.tag()) {
            Some(Style::Bold)
        } else if same_text(tag, Style::Underline.tag()) {
            Some(Style::Underline)
        } else {
            None
        }
    }
}

/// How a placeholder finds its argument.
#[derive(Clone, Debug, PartialEq, Eq)]
pub enum Address {
    /// The next argument that no positional placeholder has taken yet.
    NextPositional,
    /// The argument at a fixed position, counted from one.
    Indexed(u64),
    /// The argument bound to a name.
    Named(String),
}

/// The mathematical value of an [`Address`].
pub enum AddressView {
    NextPositional,
    Indexed(nat),
    Named(Seq<char>),
}

impl View for Address {
    type V = AddressView;

    open spec fn view(&self) -> AddressView {
        match *self {
            Address::NextPositional => AddressView::NextPositional,
            Address::Indexed(n) => AddressView::Indexed(n as nat),
            Address::Named(name) => AddressView::Named(name@),
        }
    }
}

impl AddressView {
    /// An index counts from one, and a name is neither empty nor an index.
    pub open spec fn well_formed(self) -> bool {
        match self {
            AddressView::NextPositional => true,
            AddressView::Indexed(n) => n >= 1,
            AddressView::Named(name) => name.len() > 0 && name[0] != '%',
        }
    }
}

/// The color and the styles that a placeholder's text is shown in.
#[derive(Clone, Debug, PartialEq, Eq)]
pub struct Decoration {
    pub color: Option<Color>,
    pub styles: Vec<Style>,
}

/// The mathematical value of a [`Decoration`].
pub struct DecorationView {
    pub color: Option<Color>,
    pub styles: Seq<Style>,
}

impl View for Decoration {
    type V = DecorationView;

    open spec fn view(&self) -> DecorationView {
        DecorationView { color: self.color, styles: self.styles@ }
    }
}

impl DecorationView {
    /// The decoration that changes nothing.
    pub open spec fn plain() -> DecorationView {
        DecorationView { color: None, styles: Seq::empty() }
    }

    /// Whether the decoration changes nothing: it has no color and no style.
    pub open spec fn is_plain(self) -> bool {
        self.color is None && self.styles.len() == 0
    }

    /// The attribute codes of the decoration: the color's first, then the
    /// styles' in their order.
    pub open spec fn codes(self) -> Seq<nat> {
        let styles = self.styles.map_values(|style: Style| style.code_spec());
        match self.color {
            Some(color) => seq![color.code_spec()] + styles,
            None => styles,
        }
    }
}

impl Decoration {
    /// The decoration that changes nothing.
    pub fn plain() -> (decoration: Decoration)
        ensures
            decoration@ == DecorationView::plain(),
    {
        Decoration { color: None, styles: Vec::new() }
    }

    /// Whether the decoration changes nothing.
    pub fn is_plain(&self) -> (plain: bool)
        ensures
            plain == self@.is_plain(),
    {
        self.color.is_none() && self.styles.len() == 0
    }
}

/// One segment of a format program.
#[derive(Clone, Debug, PartialEq, Eq)]
pub enum Part {
    /// Text that is emitted as it stands.
    Literal { content: String },
    /// A place that an argument fills when the program is rendered.
    Placeholder { address: Address, decoration: Decoration },
}

/// The mathematical value of a [`Part`].
pub enum PartView {
    Literal { content: Seq<char> },
    Placeholder { address: AddressView, decoration: DecorationView },
}

impl View for Part {
    type V = PartView;

    open spec fn view(&self) -> PartView {
        match *self {
            Part::Literal { content } => PartView::Literal { content: content@ },
            Part::Placeholder { address, decoration } => PartView::Placeholder {
                address: address@,
                decoration: decoration@,
            },
        }
    }
}

impl DeepView for Part {
    type V = PartView;

    open spec fn deep_view(&self) -> PartView {
        self@
    }
}

impl Part {
    /// Whether the part is a placeholder.
    pub fn is_placeholder(&self) -> (placeholder: bool)
        ensures
            placeholder == (self@ is Placeholder),
    {
        match self {
            Part::Literal { .. } => false,
            Part::Placeholder { .. } => true,
        }
    }
}

/// Whether a program holds a placeholder.
pub open spec fn has_placeholder(parts: Seq<PartView>) -> bool {
    exists|k: int| 0 <= k < parts.len() && #[trigger] parts[k] is Placeholder
}

/// What holds of every program that a template stands for: no literal is
/// empty, no two literals are neighbours, and every address is well formed.
pub open spec fn well_formed_program(parts: Seq<PartView>) -> bool {
    &&& forall|k: int|
        0 <= k < parts.len() ==> match #[trigger] parts[k] {
            PartView::Literal { content } => content.len() > 0,
            PartView::Placeholder { address, .. } => address.well_formed(),
        }
    &&& forall|k: int|
        0 <= k && k + 1 < parts.len() ==> !(#[trigger] parts[k] is Literal && parts[k + 1] is Literal)
}

/// Why a template is not a format program.
#[derive(Clone, Copy, Debug, PartialEq, Eq, Structural)]
pub enum ParseError {
    /// A `{` is not closed by a `}` before the template ends.
    UnterminatedSpecifier,
    /// A `}` closes nothing.
    UnbalancedClosingBrace,
    /// A tag after `#` names neither a color nor a style.
    UnknownDecorationTag,
    /// What follows `%` is not a positive number.
    InvalidIndex,
}

impl ParseError {
    /// The message shown to the user.
    pub open spec fn message_spec(self) -> Seq<char> {
        match self {
            ParseError::UnterminatedSpecifier => "Unterminated specifier: a '{' is never closed by a '}'."@,
            ParseError::UnbalancedClosingBrace => "Unbalanced closing brace: a '}' closes no specifier."@,
            ParseError::UnknownDecorationTag => "Unknown decoration tag: a tag after '#' names neither a color nor a style."@,
            ParseError::InvalidIndex => "Invalid index: '%' must be followed by a positive number."@,
        }
    }

    /// The message shown to the user.
    pub fn message(self) -> (message: String)
        ensures
            message@ == self.message_spec(),
    {
        match self {
            ParseError::UnterminatedSpecifier => String::from_str(
                "Unterminated specifier: a '{' is never closed by a '}'.",
            ),
            ParseError::UnbalancedClosingBrace => String::from_str(
                "Unbalanced closing brace: a '}' closes no specifier.",
            ),
            ParseError::UnknownDecorationTag => String::from_str(
                "Unknown decoration tag: a tag after '#' names neither a color nor a style.",
            ),
            ParseError::InvalidIndex => String::from_str(
                "Invalid index: '%' must be followed by a positive number.",
            ),
        }
    }
}

/// Why a format program cannot be rendered against the arguments given.
#[derive(Clone, Copy, Debug, PartialEq, Eq, Structural)]
pub enum RenderError {
    /// A placeholder addresses an argument that is not there.
    MissingArgument,
}

impl RenderError {
    /// The message shown to the user.
    pub open spec fn message_spec(self) -> Seq<char> {
        match self {
            RenderError::MissingArgument => "Missing argument: a specifier refers to an argument that was not given."@,
        }
    }

    /// The message shown to the user.
    pub fn message(self) -> (message: String)
        ensures
            message@ == self.message_spec(),
    {
        match self {
            RenderError::MissingArgument => String::from_str(
                "Missing argument: a specifier refers to an argument that was not given.",
            ),
        }
    }
}

} // verus!
