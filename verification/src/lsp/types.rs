//! The Language Server Protocol values that the library computes: positions,
//! markup, hovers, completion items and inlay hints.
use vstd::prelude::*;

verus! {

/// A position in a document: zero-based line and character offset.
#[derive(Clone, Copy, Debug, PartialEq, Eq, Structural)]
pub struct Position {
    pub line: u32,
    pub character: u32,
}

/// A range in a document, from `start` to `end`.
#[derive(Clone, Copy, Debug, PartialEq, Eq, Structural)]
pub struct Range {
    pub start: Position,
    pub end: Position,
}

/// How the text of a `MarkupContent` is to be read.
#[derive(Clone, Copy, Debug, PartialEq, Eq, Structural)]
pub enum MarkupKind {
    PlainText,
    Markdown,
}

/// A piece of text with its markup kind.
pub struct MarkupContent {
    pub kind: MarkupKind,
    pub value: String,
}

/// The mathematical value of a `MarkupContent`.
pub struct MarkupView {
    pub kind: MarkupKind,
    pub value: Seq<char>,
}

impl View for MarkupContent {
    type V = MarkupView;

    open spec fn view(&self) -> MarkupView {
        MarkupView { kind: self.kind, value: self.value@ }
    }
}

/// The documentation of a completion item.
pub enum Documentation {
    String(String),
    MarkupContent(MarkupContent),
}

/// The mathematical value of a `Documentation`.
pub enum DocumentationView {
    String(Seq<char>),
    MarkupContent(MarkupView),
}

impl View for Documentation {
    type V = DocumentationView;

    open spec fn view(&self) -> DocumentationView {
        match self {
            Documentation::String(s) => DocumentationView::String(s@),
            Documentation::MarkupContent(m) => DocumentationView::MarkupContent(m@),
        }
    }
}

/// The answer to a hover request.
pub struct Hover {
    pub contents: MarkupContent,
    pub range: Option<Range>,
}

/// The mathematical value of a `Hover`.
pub struct HoverView {
    pub contents: MarkupView,
    pub range: Option<Range>,
}

impl View for Hover {
    type V = HoverView;

    open spec fn view(&self) -> HoverView {
        HoverView { contents: self.contents@, range: self.range }
    }
}

/// Replacing the text of `range` by `new_text`.
pub struct TextEdit {
    pub range: Range,
    pub new_text: String,
}

/// The kind of a completion item.
#[derive(Clone, Copy, Debug, PartialEq, Eq, Structural)]
pub enum CompletionItemKind {
    Text,
}

/// One proposal of a completion answer.
pub struct CompletionItem {
    pub label: String,
    pub kind: CompletionItemKind,
    pub detail: String,
    pub filter_text: String,
    pub text_edit: TextEdit,
    pub documentation: Documentation,
}

/// The mathematical value of a `CompletionItem`.
pub struct CompletionItemView {
    pub label: Seq<char>,
    pub kind: CompletionItemKind,
    pub detail: Seq<char>,
    pub filter_text: Seq<char>,
    pub edit_range: Range,
    pub new_text: Seq<char>,
    pub documentation: DocumentationView,
}

impl View for CompletionItem {
    type V = CompletionItemView;

    open spec fn view(&self) -> CompletionItemView {
        CompletionItemView {
            label: self.label@,
            kind: self.kind,
            detail: self.detail@,
            filter_text: self.filter_text@,
            edit_range: self.text_edit.range,
            new_text: self.text_edit.new_text@,
            documentation: self.documentation@,
        }
    }
}

/// The kind of an inlay hint.
#[derive(Clone, Copy, Debug, PartialEq, Eq, Structural)]
pub enum InlayHintKind {
    Type,
}

/// A hint shown inline after `position`.
pub struct InlayHint {
    pub position: Position,
    pub label: String,
    pub kind: InlayHintKind,
    pub padding_left: bool,
}

/// The mathematical value of an `InlayHint`.
pub struct InlayHintView {
    pub position: Position,
    pub label: Seq<char>,
    pub kind: InlayHintKind,
    pub padding_left: bool,
}

impl View for InlayHint {
    type V = InlayHintView;

    open spec fn view(&self) -> InlayHintView {
        InlayHintView {
            position: self.position,
            label: self.label@,
            kind: self.kind,
            padding_left: self.padding_left,
        }
    }
}

/// The view of an optional hover.
pub open spec fn opt_hover_view(o: Option<Hover>) -> Option<HoverView> {
    match o {
        Some(h) => Some(h@),
        None => None,
    }
}

/// The view of an optional inlay hint.
pub open spec fn opt_hint_view(o: Option<InlayHint>) -> Option<InlayHintView> {
    match o {
        Some(h) => Some(h@),
        None => None,
    }
}

} // verus!
