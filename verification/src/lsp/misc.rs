//! The quoted string under the cursor, delimiters included.
use crate::lsp::quote::{
    cursor_index, from_line_ok, lemma_quote_char_width, lemma_scan_facts, line_quote, locate_quote,
    quote_span, Found, QuoteSpan,
};
use crate::text::{
    byte_len, byte_offset, lemma_offset_end, lemma_offset_split, lemma_offset_step, substring,
    utf8_len,
};
use vstd::prelude::*;
use vstd::utf8::*;

verus! {

/// What `get_quote_string` returns for `line` and the cursor at byte `cursor`:
/// the quote that holds the cursor with both delimiters, or, for a quote left
/// open at the end of the line, everything from its opening delimiter on.
pub open spec fn quote_string(line: Seq<char>, cursor: int) -> Option<Seq<char>> {
    match quote_span(line, cursor) {
        QuoteSpan::Closed { open, close } => Some(line.subrange(open, close + 1)),
        QuoteSpan::Open { open } => Some(line.subrange(open, line.len() as int)),
        QuoteSpan::Missing => None,
    }
}

/// The quoted string of `line`, delimiters included, that holds the cursor at
/// byte offset `character`; `None` when no quote holds it.
pub fn get_quote_string(line: &str, character: u32) -> (r: Option<String>)
    requires
        utf8_len(line@) <= u32::MAX,
    ensures
        r matches Some(s) ==> quote_string(line@, character as int) == Some(s@),
        r is None ==> quote_string(line@, character as int) is None,
{
    let (found, Ghost(open), Ghost(close)) = locate_quote(line, character);
    let ghost t = line@;
    proof {
        lemma_offset_end(t);
        if !(found is Missing) {
            lemma_offset_split(t, open, t.len() as int);
        }
    }
    match found {
        Found::Closed(start, end, _) => {
            proof {
                lemma_quote_char_width(t[close]);
                lemma_offset_split(t, close, t.len() as int);
                lemma_offset_step(t, close);
                lemma_offset_split(t, close + 1, t.len() as int);
            }
            Some(substring(line, start, end + 1, Ghost(open), Ghost(close + 1)))
        },
        Found::Open(start, _) => {
            let total = byte_len(line);
            Some(substring(line, start, total, Ghost(open), Ghost(t.len() as int)))
        },
        Found::Missing => None,
    }
}

/// The quoted string under the cursor is the quote's text with its delimiters
/// around it for a closed quote; for an unclosed quote it is the rest of the
/// line from the opening delimiter on (its bytes are those of the line from
/// byte `start` to the end), which begins with the delimiter and the text.
pub proof fn lemma_quote_string_wraps_text(line: Seq<char>, character: u32)
    requires
        from_line_ok(line, character),
    ensures
        line_quote(line, character) is None <==> quote_string(line, character as int) is None,
        line_quote(line, character) matches Some(q) ==> {
            let s = quote_string(line, character as int).unwrap();
            &&& q.complete ==> s == seq![q.quote] + q.text + seq![q.quote]
            &&& !q.complete ==> encode_utf8(s) == encode_utf8(line).subrange(
                q.start as int,
                utf8_len(line) as int,
            )
            &&& !q.complete ==> s.len() > q.text.len() && s.take(q.text.len() + 1int) == seq![q.quote]
                + q.text
        },
{
    lemma_scan_facts(line, character as int, 0, None);
    match quote_span(line, character as int) {
        QuoteSpan::Closed { open, close } => {
            assert(line.subrange(open, close + 1) =~= seq![line[open]] + line.subrange(open + 1, close)
                + seq![line[open]]);
        },
        QuoteSpan::Open { open } => {
            let j = cursor_index(line, character as int);
            lemma_offset_step(line, open);
            if j <= open {
                lemma_offset_split(line, j, open);
            }
            assert(line.subrange(open, line.len() as int).take(j - open) =~= seq![line[open]]
                + line.subrange(open + 1, j));
            lemma_offset_end(line);
            lemma_offset_split(line, open, line.len() as int);
            assert(line.take(line.len() as int) =~= line);
            assert(encode_utf8(line).subrange(byte_offset(line, open) as int, utf8_len(line) as int)
                =~= encode_utf8(line.subrange(open, line.len() as int)));
        },
        QuoteSpan::Missing => {},
    }
}

} // verus!
