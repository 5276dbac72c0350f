//! The document representation shared by every reader and writer: blocks
//! with their source span, the blank lines before them, and a typed shape.
use vstd::prelude::*;
use crate::label::Label;
use crate::span::Span;
use crate::strmap::StrMap;
use crate::yaml::YamlValue;

verus! {

/// The execution engine a document's code cells run under.
#[derive(Debug, Clone, Copy, PartialEq, Eq, Structural)]
pub enum Engine {
    Knitr,
    Jupyter,
}

/// `{key="value"}`-style attributes, kept in key order.
pub type Attrs = StrMap;

/// Per-cell rendering options of a code cell: its tags, its caption, and
/// every other option as written.
#[derive(Debug, Clone)]
pub struct CellOptions {
    pub tags: Vec<String>,
    pub caption: Option<String>,
    pub extra: StrMap,
}

impl CellOptions {
    /// No tags, no caption, no other options.
    pub fn empty() -> (o: CellOptions)
        ensures
            o.tags@.len() == 0,
            o.caption is None,
            o.extra@.len() == 0,
    {
        CellOptions { tags: Vec::new(), caption: None, extra: StrMap::new() }
    }
}

impl Default for CellOptions {
    fn default() -> (o: CellOptions)
        ensures
            o.tags@.len() == 0,
            o.caption is None,
            o.extra@.len() == 0,
    {
        CellOptions::empty()
    }
}

/// The ten admonition kinds: five with a native Quarto callout, five that
/// collapse onto one of those on write but are kept distinct here.
#[derive(Debug, Clone, Copy, PartialEq, Eq, Structural)]
pub enum AdmonitionKind {
    Note,
    Warning,
    Tip,
    Important,
    Caution,
    Danger,
    Error,
    Hint,
    SeeAlso,
    Attention,
}

/// One tab of a tab set.
#[derive(Debug)]
pub struct TabItem {
    pub label: String,
    pub body: Vec<Block>,
}

/// Options of an include: literal inclusion, its language, and partial-file
/// ranges.
#[derive(Debug, Clone, PartialEq, Eq)]
pub struct IncludeOpts {
    pub literal: bool,
    pub lang: Option<String>,
    pub start_line: Option<u32>,
    pub end_line: Option<u32>,
    pub lines: Option<String>,
}

impl Default for IncludeOpts {
    fn default() -> (o: IncludeOpts)
        ensures
            !o.literal,
            o.lang is None,
            o.start_line is None,
            o.end_line is None,
            o.lines is None,
    {
        IncludeOpts { literal: false, lang: None, start_line: None, end_line: None, lines: None }
    }
}

/// What an embed points at.
#[derive(Debug, Clone, PartialEq, Eq)]
pub enum EmbedTarget {
    /// A plain label within the same document.
    Label(Label),
    /// A labeled cell in another notebook.
    NotebookCell { notebook: String, cell_label: Label },
}

/// How a comment was written.
#[derive(Debug, Clone, Copy, PartialEq, Eq, Structural)]
pub enum CommentStyle {
    /// `% comment`.
    Percent,
    /// `<!-- comment -->`.
    Html,
}

/// Where a figure's image comes from.
#[derive(Debug, Clone, PartialEq, Eq)]
pub enum FigureSource {
    /// A plain image path.
    Path(String),
    /// A labeled notebook cell's output.
    CellRef { label: Label, notebook: Option<String> },
}

/// One content block: its shape, its source lines, and how many blank lines
/// preceded it.
#[derive(Debug)]
pub struct Block {
    pub kind: BlockKind,
    pub span: Span,
    pub blank_lines_before: u8,
}

/// The shape of one block.
#[derive(Debug)]
pub enum BlockKind {
    Heading { level: u8, text: String, label: Option<Label> },
    Paragraph { lines: Vec<String> },
    CodeCell { lang: String, options: CellOptions, body: Vec<String>, label: Option<Label> },
    StaticCode { lang: Option<String>, body: Vec<String>, attrs: Attrs },
    Figure { src: FigureSource, caption: Vec<String>, label: Option<Label>, attrs: Attrs },
    Table { caption: Vec<String>, rows: Vec<String>, label: Option<Label> },
    Math { body: Vec<String>, label: Option<Label> },
    Admonition {
        kind: AdmonitionKind,
        title: Option<String>,
        body: Vec<Block>,
        collapse: Option<bool>,
    },
    TabSet { items: Vec<TabItem> },
    Margin { body: Vec<Block> },
    Include { target: String, opts: IncludeOpts },
    Embed { target: EmbedTarget, label: Option<Label> },
    Blockquote { body: Vec<Block>, attribution: Option<Vec<String>> },
    Theorem { thm_type: String, label: Option<Label>, body: Vec<Block> },
    Directive { name: String, attrs: Attrs, body: Vec<Block>, label: Option<Label> },
    Comment { text: String, style: CommentStyle },
    Target { label: Label },
    Raw { format: String, body: Vec<String> },
    BlockBreak,
    /// A construct kept verbatim; `code` says why.
    Preserved { original: Vec<String>, code: &'static str },
    /// A construct with no target equivalent; `reason` says why.
    Unmappable { original: Vec<String>, reason: String },
}

/// A page's frontmatter: the exact text between its `---` lines, which
/// edits work on, and the same content as a parsed mapping, for reading
/// fields (`Null` until the text has been parsed).
#[derive(Debug, PartialEq)]
pub struct Frontmatter {
    pub raw: String,
    pub parsed: YamlValue,
}

/// A source file's blocks, where it was read from, and its engine.
#[derive(Debug)]
pub struct Document {
    pub frontmatter: Option<Frontmatter>,
    pub blocks: Vec<Block>,
    pub source: String,
    pub engine: Option<Engine>,
}

} // verus!
