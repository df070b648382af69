use vstd::prelude::*;

use crate::text::{decimal_text, push_decimal, push_str};

verus! {

/// A field of a record that could not be read.
#[derive(Debug)]
pub enum ParseError {
    /// The status field, with its trimmed text and its column, is not an unsigned integer.
    Int(String, usize),
    /// The payload field, with its trimmed text and its column, is not a decimal number.
    Float(String, usize),
    /// The record has no field at this column.
    MissingToken(usize),
}

/// Why a run stopped.
#[derive(Debug)]
pub enum ProgramError {
    ParseError(ParseError),
    /// Reading the input or writing the image failed; the system's message.
    InputOutput(String),
    /// Drawing the chart failed; the drawing library's message.
    PlotError(String),
    /// A status code other than 0, 1 or 2.
    UnknowStatus(usize),
}

/// The output path does not name an image format.
#[derive(Debug)]
pub enum FormatError {
    /// The path, which has no extension.
    MissingFormat(String),
    /// The extension, which is neither `png` nor `svg`.
    UnknownExtension(String),
}

/// `ParseError` with its text as a sequence of characters.
pub enum ParseErrorView {
    Int(Seq<char>, usize),
    Float(Seq<char>, usize),
    MissingToken(usize),
}

/// `ProgramError` with its text as a sequence of characters.
pub enum ProgramErrorView {
    ParseError(ParseErrorView),
    InputOutput(Seq<char>),
    PlotError(Seq<char>),
    UnknowStatus(usize),
}

/// `FormatError` with its text as a sequence of characters.
pub enum FormatErrorView {
    MissingFormat(Seq<char>),
    UnknownExtension(Seq<char>),
}

impl View for ParseError {
    type V = ParseErrorView;

    open spec fn view(&self) -> ParseErrorView {
        match self {
            ParseError::Int(t, c) => ParseErrorView::Int(t@, *c),
            ParseError::Float(t, c) => ParseErrorView::Float(t@, *c),
            ParseError::MissingToken(c) => ParseErrorView::MissingToken(*c),
        }
    }
}

impl View for ProgramError {
    type V = ProgramErrorView;

    open spec fn view(&self) -> ProgramErrorView {
        match self {
            ProgramError::ParseError(e) => ProgramErrorView::ParseError(e@),
            ProgramError::InputOutput(m) => ProgramErrorView::InputOutput(m@),
            ProgramError::PlotError(m) => ProgramErrorView::PlotError(m@),
            ProgramError::UnknowStatus(s) => ProgramErrorView::UnknowStatus(*s),
        }
    }
}

impl View for FormatError {
    type V = FormatErrorView;

    open spec fn view(&self) -> FormatErrorView {
        match self {
            FormatError::MissingFormat(p) => FormatErrorView::MissingFormat(p@),
            FormatError::UnknownExtension(e) => FormatErrorView::UnknownExtension(e@),
        }
    }
}


impl ParseErrorView {
    pub open spec fn message(self) -> Seq<char> {
        match self {
            ParseErrorView::Int(t, c) => "invalid status code `"@ + t + "` on column "@
                + decimal_text(c as nat),
            ParseErrorView::Float(t, c) => "invalid float literal `"@ + t + "` on column "@
                + decimal_text(c as nat),
            ParseErrorView::MissingToken(c) => "Missing Value on column "@ + decimal_text(c as nat),
        }
    }
}

impl ProgramErrorView {
    pub open spec fn message(self) -> Seq<char> {
        match self {
            ProgramErrorView::InputOutput(m) => "IO Error: "@ + m,
            ProgramErrorView::ParseError(e) => "Parse Error: "@ + e.message(),
            ProgramErrorView::UnknowStatus(s) => "Read Unknown Status Value: "@ + decimal_text(
                s as nat,
            ) + "\nExpect: ``, `0`, `1`, `2`"@,
            ProgramErrorView::PlotError(m) => "Plot Error: "@ + m,
        }
    }
}

impl FormatErrorView {
    pub open spec fn message(self) -> Seq<char> {
        match self {
            FormatErrorView::MissingFormat(p) => "Given file:`"@ + p
                + "`\ndoes not have an extension\ncannot understand output format"@,
            FormatErrorView::UnknownExtension(e) => "Given extension: `"@ + e
                + "` is unknow\ncannot understand output format"@,
        }
    }
}

impl ParseError {
    /// A line of text for a person to read.
    pub fn message(&self) -> (r: String)
        ensures
            r@ == self@.message(),
    {
        let mut r = String::new();
        match self {
            ParseError::Int(t, c) => {
                push_str(&mut r, "invalid status code `");
                push_str(&mut r, t.as_str());
                push_str(&mut r, "` on column ");
                push_decimal(&mut r, *c);
            },
            ParseError::Float(t, c) => {
                push_str(&mut r, "invalid float literal `");
                push_str(&mut r, t.as_str());
                push_str(&mut r, "` on column ");
                push_decimal(&mut r, *c);
            },
            ParseError::MissingToken(c) => {
                push_str(&mut r, "Missing Value on column ");
                push_decimal(&mut r, *c);
            },
        }
        assert(r@ =~= self@.message());
        r
    }
}

impl ProgramError {
    /// A line of text for a person to read.
    pub fn message(&self) -> (r: String)
        ensures
            r@ == self@.message(),
    {
        let mut r = String::new();
        match self {
            ProgramError::InputOutput(m) => {
                push_str(&mut r, "IO Error: ");
                push_str(&mut r, m.as_str());
            },
            ProgramError::ParseError(e) => {
                push_str(&mut r, "Parse Error: ");
                let m = e.message();
                push_str(&mut r, m.as_str());
            },
            ProgramError::UnknowStatus(s) => {
                push_str(&mut r, "Read Unknown Status Value: ");
                push_decimal(&mut r, *s);
                push_str(&mut r, "\nExpect: ``, `0`, `1`, `2`");
            },
            ProgramError::PlotError(m) => {
                push_str(&mut r, "Plot Error: ");
                push_str(&mut r, m.as_str());
            },
        }
        assert(r@ =~= self@.message());
        r
    }
}

impl FormatError {
    /// A line of text for a person to read.
    pub fn message(&self) -> (r: String)
        ensures
            r@ == self@.message(),
    {
        let mut r = String::new();
        match self {
            FormatError::MissingFormat(p) => {
                push_str(&mut r, "Given file:`");
                push_str(&mut r, p.as_str());
                push_str(&mut r, "`\ndoes not have an extension\ncannot understand output format");
            },
            FormatError::UnknownExtension(e) => {
                push_str(&mut r, "Given extension: `");
                push_str(&mut r, e.as_str());
                push_str(&mut r, "` is unknow\ncannot understand output format");
            },
        }
        assert(r@ =~= self@.message());
        r
    }
}

} // verus!
