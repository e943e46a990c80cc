//! A translation key offered for completion, with its documentation.
use crate::completion::completion_doc::{
    lemma_markup_lists_own_translations, markup_text, CompletionDoc, CompletionDocData,
};
use crate::lsp::quote::{Quote, QuoteView};
use crate::lsp::types::{
    CompletionItem, CompletionItemKind, CompletionItemView, Documentation, DocumentationView,
    Hover, HoverView, MarkupKind, MarkupView, Position, Range, TextEdit,
};
use crate::string_map::StringMap;
use crate::text::{char_to_string, has_infix, views};
use vstd::prelude::*;

verus! {

/// A translation key and its documentation.
pub struct CompletionData {
    pub completion: String,
    pub documentation: CompletionDoc,
}

/// The range a hover or a completion applies to: on the cursor's line, from
/// just after the opening delimiter of the quote to the cursor.
pub open spec fn quote_range(quote: QuoteView, position: Position) -> Range {
    Range {
        start: Position { line: position.line, character: (quote.start + 1) as u32 },
        end: Position { line: position.line, character: position.character },
    }
}

/// The hover shown for `data`: its markdown documentation over the quote's range.
pub open spec fn hover_of(
    data: CompletionData,
    quote: QuoteView,
    position: Position,
    locales: Seq<Seq<char>>,
) -> HoverView {
    HoverView {
        contents: MarkupView {
            kind: MarkupKind::Markdown,
            value: markup_text(data.completion@, data.documentation.doc@, locales),
        },
        range: Some(quote_range(quote, position)),
    }
}

/// The completion item offered for `data`: labelled with the key, replacing
/// the quote's text up to the cursor with the key (followed by the closing
/// delimiter when the quote was not closed), filtered by the quote's text and
/// documented with the key's markdown documentation.
pub open spec fn item_of(
    data: CompletionData,
    quote: QuoteView,
    position: Position,
    locales: Seq<Seq<char>>,
) -> CompletionItemView {
    CompletionItemView {
        label: data.completion@,
        kind: CompletionItemKind::Text,
        detail: "Translation"@,
        filter_text: quote.text,
        edit_range: quote_range(quote, position),
        new_text: if quote.complete {
            data.completion@
        } else {
            data.completion@.push(quote.quote)
        },
        documentation: DocumentationView::MarkupContent(
            MarkupView {
                kind: MarkupKind::Markdown,
                value: markup_text(data.completion@, data.documentation.doc@, locales),
            },
        ),
    }
}

/// The hover of a key shows, as markdown, the key's documentation for the
/// locales (the key in bold, then each locale's own translation or a dash),
/// over the range of the cursor's line from just after the opening delimiter
/// to the cursor.
pub proof fn lemma_hover_is_markdown_documentation(
    data: CompletionData,
    quote: QuoteView,
    position: Position,
    locales: Seq<Seq<char>>,
)
    ensures
        hover_of(data, quote, position, locales).contents.kind == MarkupKind::Markdown,
        hover_of(data, quote, position, locales).contents.value == markup_text(
            data.completion@,
            data.documentation.doc@,
            locales,
        ),
        hover_of(data, quote, position, locales).range == (Some(
            Range {
                start: Position { line: position.line, character: (quote.start + 1) as u32 },
                end: Position { line: position.line, character: position.character },
            },
        )),
        forall|i: int|
            0 <= i < locales.len() && data.documentation.doc@.dom().contains(#[trigger] locales[i])
                ==> has_infix(
                hover_of(data, quote, position, locales).contents.value,
                "- **"@ + locales[i] + "**: "@ + data.documentation.doc@[locales[i]].info@ + " \n"@,
            ),
{
    lemma_markup_lists_own_translations(data.completion@, data.documentation.doc@, locales);
}

/// The completion item of a key replaces, on the cursor's line, the text from
/// just after the opening delimiter up to the cursor: the range the hover of
/// the same key covers. It is labelled with the key and documented, as
/// markdown, with the same documentation as the hover.
pub proof fn lemma_item_edits_cursor_line(
    data: CompletionData,
    quote: QuoteView,
    position: Position,
    locales: Seq<Seq<char>>,
)
    ensures
        item_of(data, quote, position, locales).edit_range.start == (Position {
            line: position.line,
            character: (quote.start + 1) as u32,
        }),
        item_of(data, quote, position, locales).edit_range.end == position,
        Some(item_of(data, quote, position, locales).edit_range) == hover_of(
            data,
            quote,
            position,
            locales,
        ).range,
        item_of(data, quote, position, locales).label == data.completion@,
        item_of(data, quote, position, locales).documentation == DocumentationView::MarkupContent(
            hover_of(data, quote, position, locales).contents,
        ),
{
}

impl CompletionData {
    /// The key `completion` with the translations `doc`.
    pub fn new(completion: &str, doc: StringMap<CompletionDocData>) -> (r: Self)
        ensures
            r.completion@ == completion@,
            r.documentation.doc == doc,
    {
        CompletionData { completion: completion.to_owned(), documentation: CompletionDoc::new(doc) }
    }

    /// The hover for this key when the cursor at `position` is in `quote`.
    pub fn get_hover(&self, quote: &Quote, position: Position, available_locales: &Vec<String>) -> (r:
        Hover)
        requires
            self.documentation.wf(),
            quote.start < u32::MAX,
        ensures
            r@ == hover_of(*self, quote@, position, views(available_locales@)),
    {
        let contents = self.documentation.get_markup(self.completion.as_str(), available_locales);
        Hover {
            contents,
            range: Some(
                Range {
                    start: Position { line: position.line, character: quote.start + 1 },
                    end: Position { line: position.line, character: position.character },
                },
            ),
        }
    }

    /// The completion item for this key when the cursor at `position` is in `quote`.
    pub fn get_completion(
        &self,
        quote: &Quote,
        position: Position,
        available_locales: &Vec<String>,
    ) -> (r: CompletionItem)
        requires
            self.documentation.wf(),
            quote.start < u32::MAX,
        ensures
            r@ == item_of(*self, quote@, position, views(available_locales@)),
    {
        let new_text = {
            let mut d = self.completion.clone();
            if !quote.complete {
                let closing = char_to_string(quote.quote);
                d.append(closing.as_str());
                assert(d@ =~= self.completion@.push(quote.quote));
            }
            d
        };
        let documentation = self.documentation.get_md_doc(self.completion.as_str(), available_locales);
        assert(documentation@ == item_of(*self, quote@, position, views(available_locales@)).documentation);
        CompletionItem {
            label: self.completion.clone(),
            kind: CompletionItemKind::Text,
            detail: String::from_str("Translation"),
            filter_text: quote.text.clone(),
            text_edit: TextEdit {
                range: Range {
                    start: Position { line: position.line, character: quote.start + 1 },
                    end: Position { line: position.line, character: position.character },
                },
                new_text,
            },
            documentation,
        }
    }
}

} // verus!
