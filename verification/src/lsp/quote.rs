//! Finding the quoted string under the cursor on one line of source text.
//!
//! Positions are UTF-8 byte offsets into the line, as `str::char_indices`
//! yields them; quotes are delimited by `"`, `'` or `` ` ``.
use crate::text::{split_lines, text_lines, is_char_offset, is_offset, byte_len, byte_offset, char_width, lemma_encode_concat, lemma_encode_single, lemma_offset_end, lemma_offset_split, lemma_offset_step, substring, utf8_len, utf8_width};
use vstd::utf8::*;
use crate::lsp::types::Position;
use vstd::prelude::*;

verus! {

/// The characters that open and close a quoted string.
pub open spec fn is_quote_char(c: char) -> bool {
    c == '"' || c == '\'' || c == '`'
}

/// Where the scan of a line finds the quote under the cursor, by character index.
pub enum QuoteSpan {
    /// A quote opened at `open` and closed at `close`, with the cursor between them.
    Closed { open: int, close: int },
    /// A quote opened at `open` and left unclosed at the end of the line, with
    /// the cursor at or after its opening.
    Open { open: int },
    /// No quote holds the cursor.
    Missing,
}

/// The left-to-right scan over `line` from character index `k`, where `open`
/// is the index of the quote that is currently open, if any. A quote opens at a
/// quote character while none is open and closes at the next occurrence of its
/// own opening character; the scan stops at the first closed quote whose byte
/// range (both delimiters included) holds the cursor. A quote still open at
/// the end of the line holds the cursor when the cursor is at or after it.
pub open spec fn scan_quotes(line: Seq<char>, cursor: int, k: int, open: Option<int>) -> QuoteSpan
    decreases line.len() - k,
{
    if k >= line.len() {
        match open {
            Some(s) => if cursor >= byte_offset(line, s) {
                QuoteSpan::Open { open: s }
            } else {
                QuoteSpan::Missing
            },
            None => QuoteSpan::Missing,
        }
    } else {
        match open {
            None => if is_quote_char(line[k]) {
                scan_quotes(line, cursor, k + 1, Some(k))
            } else {
                scan_quotes(line, cursor, k + 1, None)
            },
            Some(s) => if line[k] == line[s] {
                if byte_offset(line, s) <= cursor <= byte_offset(line, k) {
                    QuoteSpan::Closed { open: s, close: k }
                } else {
                    scan_quotes(line, cursor, k + 1, None)
                }
            } else {
                scan_quotes(line, cursor, k + 1, Some(s))
            },
        }
    }
}

/// The quote that holds byte offset `cursor` of `line`.
pub open spec fn quote_span(line: Seq<char>, cursor: int) -> QuoteSpan {
    scan_quotes(line, cursor, 0, None)
}

/// The character index whose byte offset in `line` is `cursor`.
pub open spec fn cursor_index(line: Seq<char>, cursor: int) -> int {
    choose|j: int| 0 <= j <= line.len() && byte_offset(line, j) == cursor
}

/// The inputs on which `Quote::from_line` neither truncates a byte offset to
/// `u32` nor slices the line out of range: the line's length fits in a `u32`,
/// and when an unclosed quote holds the cursor, the cursor lies past the
/// opening quote on a character boundary.
pub open spec fn from_line_ok(line: Seq<char>, character: u32) -> bool {
    &&& utf8_len(line) <= u32::MAX
    &&& match quote_span(line, character as int) {
        QuoteSpan::Open { open } => byte_offset(line, open) + 1 <= character && is_offset(
            line,
            character as int,
        ),
        _ => true,
    }
}

/// A quoted string, as a value of mathematics.
pub struct QuoteView {
    pub text: Seq<char>,
    pub start: u32,
    pub end: u32,
    pub quote: char,
    pub complete: bool,
}

/// What `Quote::from_line` finds on `line` for the cursor at byte `character`:
/// the text between the delimiters (up to the cursor when the quote is not
/// closed), the byte offset of the opening delimiter, the cursor, the
/// delimiter, and whether the quote is closed.
pub open spec fn line_quote(line: Seq<char>, character: u32) -> Option<QuoteView> {
    match quote_span(line, character as int) {
        QuoteSpan::Closed { open, close } => Some(
            QuoteView {
                text: line.subrange(open + 1, close),
                start: byte_offset(line, open) as u32,
                end: character,
                quote: line[open],
                complete: true,
            },
        ),
        QuoteSpan::Open { open } => Some(
            QuoteView {
                text: line.subrange(open + 1, cursor_index(line, character as int)),
                start: byte_offset(line, open) as u32,
                end: character,
                quote: line[open],
                complete: false,
            },
        ),
        QuoteSpan::Missing => None,
    }
}

/// A quoted string found under the cursor: its text without the delimiters,
/// the byte offset of the opening delimiter, the cursor, the delimiter and
/// whether the closing delimiter was found.
pub struct Quote {
    pub text: String,
    pub start: u32,
    pub end: u32,
    pub quote: char,
    pub complete: bool,
}

impl View for Quote {
    type V = QuoteView;

    open spec fn view(&self) -> QuoteView {
        QuoteView {
            text: self.text@,
            start: self.start,
            end: self.end,
            quote: self.quote,
            complete: self.complete,
        }
    }
}

/// Where the scan found the quote, by byte offsets of its delimiters,
/// with the delimiter character.
pub enum Found {
    Closed(usize, usize, char),
    Open(usize, char),
    Missing,
}

/// Every quote character takes one byte.
pub proof fn lemma_quote_char_width(c: char)
    requires
        is_quote_char(c),
    ensures
        char_width(c) == 1,
{
}

/// A quote character is encoded as the single byte of its code point.
pub proof fn lemma_quote_char_byte(c: char)
    requires
        is_quote_char(c),
    ensures
        encode_utf8(seq![c]) == seq![c as u8],
{
    lemma_encode_single(c);
    let u = c as u32;
    assert(u == 34 || u == 39 || u == 96);
    assert(u & 0x7f == u) by (bit_vector)
        requires
            u == 34 || u == 39 || u == 96,
    ;
    assert(c as u8 == u as u8);
    assert(encode_scalar(u) =~= seq![c as u8]);
}

/// Scans `line` for the quote that holds byte offset `character`, returning the
/// byte offsets of its delimiters and, as ghost values, their character indices.
pub(crate) fn locate_quote(line: &str, character: u32) -> (r: (Found, Ghost<int>, Ghost<int>))
    requires
        utf8_len(line@) <= u32::MAX,
    ensures
        match quote_span(line@, character as int) {
            QuoteSpan::Closed { open, close } => {
                &&& r.0 == Found::Closed(
                    byte_offset(line@, open) as usize,
                    byte_offset(line@, close) as usize,
                    line@[open],
                )
                &&& 0 <= open < close < line@.len()
                &&& is_quote_char(line@[open])
                &&& line@[close] == line@[open]
                &&& r.1@ == open
                &&& r.2@ == close
            },
            QuoteSpan::Open { open } => {
                &&& r.0 == Found::Open(byte_offset(line@, open) as usize, line@[open])
                &&& r.1@ == open
                &&& 0 <= open < line@.len()
                &&& is_quote_char(line@[open])
            },
            QuoteSpan::Missing => r.0 == Found::Missing,
        },
{
    let ghost t = line@;
    let total = byte_len(line);
    let mut started = false;
    let mut start: usize = 0;
    let mut starting_char = '?';
    let ghost mut open: int = 0;
    let mut i: usize = 0;
    for c in it: line.chars()
        invariant
            it.seq() == t,
            t == line@,
            total == utf8_len(t),
            total <= u32::MAX,
            i == byte_offset(t, it.index() as int),
            started <==> starting_char != '?',
            started ==> {
                &&& 0 <= open < it.index()
                &&& t[open] == starting_char
                &&& is_quote_char(starting_char)
                &&& start == byte_offset(t, open)
            },
            quote_span(t, character as int) == scan_quotes(
                t,
                character as int,
                it.index() as int,
                if started {
                    Some(open)
                } else {
                    None
                },
            ),
    {
        let ghost k = it.index() as int;
        proof {
            lemma_offset_step(t, k);
            lemma_offset_split(t, k + 1, t.len() as int);
            lemma_offset_end(t);
            if started {
                lemma_offset_split(t, open, k);
            }
        }
        let w = utf8_width(c);
        let mut opened_here = false;
        if c == '"' || c == '\'' || c == '`' {
            if starting_char == '?' {
                starting_char = c;
                started = true;
                start = i;
                proof {
                    open = k;
                }
                opened_here = true;
            }
        }
        if !opened_here && c == starting_char && started {
            if character >= start as u32 && character <= i as u32 {
                return (Found::Closed(start, i, starting_char), Ghost(open), Ghost(k));
            }
            started = false;
            starting_char = '?';
        }
        i = i + w;
    }
    if started && character as usize >= start {
        return (Found::Open(start, starting_char), Ghost(open), Ghost(0));
    }
    (Found::Missing, Ghost(0), Ghost(0))
}

impl Quote {
    /// Byte length of the quoted text.
    pub fn len(&self) -> (n: usize)
        ensures
            n == utf8_len(self.text@),
    {
        byte_len(self.text.as_str())
    }

    /// Whether the quoted text is empty.
    pub fn is_empty(&self) -> (b: bool)
        ensures
            b == (self.text@.len() == 0),
    {
        self.text.as_str().is_empty()
    }

    /// Whether `Quote::from_line` can read `line` at `character` (see `from_line_ok`).
    pub fn reads_cursor(line: &str, character: u32) -> (r: bool)
        ensures
            r == from_line_ok(line@, character),
    {
        let total = byte_len(line);
        if total > u32::MAX as usize {
            return false;
        }
        let (found, Ghost(open), _) = locate_quote(line, character);
        proof {
            lemma_offset_end(line@);
            if found is Open {
                lemma_offset_split(line@, open, line@.len() as int);
            }
        }
        match found {
            Found::Open(start, _) => start < character as usize && is_char_offset(
                line,
                character as usize,
            ),
            _ => true,
        }
    }

    /// The quoted string of `line` that holds the cursor at byte offset
    /// `character`: the first quote, scanning from the left, whose delimiters
    /// enclose the cursor, or else a quote left open at the end of the line
    /// that starts at or before the cursor, its text then ending at the cursor.
    pub fn from_line(line: &str, character: u32) -> (r: Option<Quote>)
        requires
            from_line_ok(line@, character),
        ensures
            r matches Some(q) ==> line_quote(line@, character) == Some(q@),
            r is None ==> line_quote(line@, character) is None,
            r matches Some(q) ==> q.start < u32::MAX,
    {
        let (found, Ghost(open), Ghost(close)) = locate_quote(line, character);
        let ghost t = line@;
        proof {
            if !(found is Missing) {
                lemma_offset_split(t, open, t.len() as int);
                lemma_offset_end(t);
            }
            if found is Closed {
                lemma_offset_split(t, close, t.len() as int);
            }
        }
        match found {
            Found::Closed(start, end, quote) => {
                proof {
                    lemma_offset_step(t, open);
                    lemma_quote_char_width(t[open]);
                    lemma_offset_split(t, open + 1, close);
                }
                let text = substring(line, start + 1, end, Ghost(open + 1), Ghost(close));
                Some(
                    Quote {
                        text,
                        end: character,
                        quote,
                        start: start as u32,
                        complete: true,
                    },
                )
            },
            Found::Open(start, quote) => {
                let ghost j = cursor_index(t, character as int);
                proof {
                    lemma_offset_step(t, open);
                    lemma_quote_char_width(t[open]);
                    if j <= open {
                        lemma_offset_split(t, j, open);
                    }
                    lemma_offset_split(t, open + 1, j);
                }
                let text = substring(line, start + 1, character as usize, Ghost(open + 1), Ghost(j));
                Some(
                    Quote {
                        text,
                        end: character,
                        quote,
                        start: start as u32,
                        complete: false,
                    },
                )
            },
            Found::Missing => None,
        }
    }
}

/// What every outcome of the scan satisfies: a found quote opens with a quote
/// character, holds no other occurrence of it, and (when closed) closes with it.
pub proof fn lemma_scan_facts(line: Seq<char>, cursor: int, k: int, open: Option<int>)
    requires
        0 <= k <= line.len(),
        open matches Some(s) ==> {
            &&& 0 <= s < k
            &&& is_quote_char(line[s])
            &&& forall|m: int| s < m < k ==> line[m] != line[s]
        },
    ensures
        match scan_quotes(line, cursor, k, open) {
            QuoteSpan::Closed { open: s, close: c } => {
                &&& 0 <= s < c < line.len()
                &&& is_quote_char(line[s])
                &&& line[c] == line[s]
                &&& forall|m: int| s < m < c ==> line[m] != line[s]
                &&& byte_offset(line, s) <= cursor <= byte_offset(line, c)
            },
            QuoteSpan::Open { open: s } => {
                &&& 0 <= s < line.len()
                &&& is_quote_char(line[s])
                &&& forall|m: int| s < m < line.len() ==> line[m] != line[s]
                &&& byte_offset(line, s) <= cursor
            },
            QuoteSpan::Missing => true,
        },
    decreases line.len() - k,
{
    if k < line.len() {
        match open {
            None => {
                if is_quote_char(line[k]) {
                    lemma_scan_facts(line, cursor, k + 1, Some(k));
                } else {
                    lemma_scan_facts(line, cursor, k + 1, None);
                }
            },
            Some(s) => {
                if line[k] == line[s] {
                    if !(byte_offset(line, s) <= cursor <= byte_offset(line, k)) {
                        lemma_scan_facts(line, cursor, k + 1, None);
                    }
                } else {
                    lemma_scan_facts(line, cursor, k + 1, Some(s));
                }
            },
        }
    }
}

/// A quote found under the cursor is delimited by a quote character that its
/// text never contains, and the cursor lies inside it: between the delimiters
/// of a closed quote, and at the end of the text of an unclosed one.
pub proof fn lemma_quote_shape(line: Seq<char>, character: u32)
    requires
        from_line_ok(line, character),
    ensures
        line_quote(line, character) matches Some(q) ==> {
            &&& is_quote_char(q.quote)
            &&& forall|i: int| 0 <= i < q.text.len() ==> q.text[i] != q.quote
            &&& q.end == character
            &&& q.complete ==> q.start <= q.end <= q.start + 1 + utf8_len(q.text)
            &&& !q.complete ==> q.end == q.start + 1 + utf8_len(q.text)
        },
{
    lemma_scan_facts(line, character as int, 0, None);
    lemma_offset_end(line);
    match quote_span(line, character as int) {
        QuoteSpan::Closed { open, close } => {
            lemma_offset_split(line, open, line.len() as int);
            lemma_offset_step(line, open);
            lemma_quote_char_width(line[open]);
            lemma_offset_split(line, open + 1, close);
        },
        QuoteSpan::Open { open } => {
            let j = cursor_index(line, character as int);
            lemma_offset_split(line, open, line.len() as int);
            lemma_offset_step(line, open);
            lemma_quote_char_width(line[open]);
            if j <= open {
                lemma_offset_split(line, j, open);
            }
            lemma_offset_split(line, open + 1, j);
        },
        QuoteSpan::Missing => {},
    }
}

/// A closed quote in the bytes of its line (`encode_utf8(line)`, what
/// `str::as_bytes` gives): the delimiter stands at byte `start` and again at
/// byte `start + 1 + len` where `len` is the text's byte length, the text's
/// bytes lie between the two, the text holds no delimiter, and the cursor lies
/// between the delimiters.
pub proof fn lemma_closed_quote_bytes(line: Seq<char>, character: u32)
    requires
        from_line_ok(line, character),
    ensures
        line_quote(line, character) matches Some(q) ==> (q.complete ==> {
            let bytes = encode_utf8(line);
            let s = q.start as int;
            let e = s + 1 + utf8_len(q.text);
            &&& is_quote_char(q.quote)
            &&& e < bytes.len()
            &&& bytes[s] == q.quote as u8
            &&& bytes[e] == q.quote as u8
            &&& bytes.subrange(s + 1, e) == encode_utf8(q.text)
            &&& !q.text.contains(q.quote)
            &&& s <= character <= e
            &&& q.end == character
        }),
{
    lemma_scan_facts(line, character as int, 0, None);
    if let QuoteSpan::Closed { open, close } = quote_span(line, character as int) {
        let c = line[open];
        let t = line.subrange(open + 1, close);
        lemma_offset_end(line);
        lemma_offset_split(line, open, line.len() as int);
        lemma_offset_split(line, open, close + 1);
        lemma_offset_split(line, close + 1, line.len() as int);
        lemma_offset_step(line, open);
        lemma_quote_char_width(c);
        lemma_offset_split(line, open + 1, close);
        lemma_quote_char_byte(c);
        assert(line.subrange(open, close + 1) =~= seq![c] + t + seq![c]);
        lemma_encode_concat(seq![c], t);
        lemma_encode_concat(seq![c] + t, seq![c]);
        let pre = encode_utf8(line.take(open));
        let mid = encode_utf8(line.subrange(open, close + 1));
        let post = encode_utf8(line.skip(close + 1));
        assert(line.take(line.len() as int) =~= line);
        assert(line.skip(close + 1) =~= line.subrange(close + 1, line.len() as int));
        let bytes = encode_utf8(line);
        assert(bytes == pre + mid + post);
        assert(mid =~= seq![c as u8] + encode_utf8(t) + seq![c as u8]);
        let s = pre.len() as int;
        let e = s + 1 + utf8_len(t);
        assert(bytes[s] == mid[0]);
        assert(bytes[e] == mid[e - s]);
        assert(bytes.subrange(s + 1, e) =~= encode_utf8(t));
        assert forall|i: int| 0 <= i < t.len() implies t[i] != c by {
            assert(t[i] == line[open + 1 + i]);
        }
    }
}

/// An unclosed quote in the bytes of its line: the delimiter stands at byte
/// `start`, before the cursor; the text is the bytes from just after it up to
/// the cursor; and no character of the line after the delimiter is that
/// delimiter again.
pub proof fn lemma_unclosed_quote_bytes(line: Seq<char>, character: u32)
    requires
        from_line_ok(line, character),
    ensures
        line_quote(line, character) matches Some(q) ==> (!q.complete ==> {
            let bytes = encode_utf8(line);
            let s = q.start as int;
            &&& is_quote_char(q.quote)
            &&& s < character <= bytes.len()
            &&& bytes[s] == q.quote as u8
            &&& bytes.subrange(s + 1, character as int) == encode_utf8(q.text)
            &&& forall|m: int|
                0 <= m < line.len() && byte_offset(line, m) > s ==> #[trigger] line[m] != q.quote
            &&& q.end == character
        }),
{
    lemma_scan_facts(line, character as int, 0, None);
    if let QuoteSpan::Open { open } = quote_span(line, character as int) {
        let c = line[open];
        let j = cursor_index(line, character as int);
        lemma_offset_end(line);
        lemma_offset_split(line, open, line.len() as int);
        lemma_offset_step(line, open);
        lemma_quote_char_width(c);
        if j <= open {
            lemma_offset_split(line, j, open);
        }
        assert(open < j);
        let t = line.subrange(open + 1, j);
        lemma_offset_split(line, open + 1, j);
        lemma_offset_split(line, open, j);
        lemma_offset_split(line, j, line.len() as int);
        lemma_quote_char_byte(c);
        assert(line.subrange(open, j) =~= seq![c] + t);
        lemma_encode_concat(seq![c], t);
        let pre = encode_utf8(line.take(open));
        let mid = encode_utf8(line.subrange(open, j));
        let post = encode_utf8(line.subrange(j, line.len() as int));
        assert(line.take(line.len() as int) =~= line);
        let bytes = encode_utf8(line);
        assert(bytes == pre + mid + post);
        let s = pre.len() as int;
        assert(bytes[s] == mid[0]);
        assert(bytes.subrange(s + 1, character as int) =~= encode_utf8(t));
        assert forall|m: int| 0 <= m < line.len() && byte_offset(line, m) > s implies #[trigger] line[m]
            != c by {
            if m <= open {
                lemma_offset_split(line, m, open);
            }
        }
    }
}

/// The quote left open by the pairing of the first `k` characters of `line`,
/// by the index of its opening character: scanning from the left, a quote
/// character met while no quote is open opens one, and the next occurrence of
/// that same character closes it; other quote characters inside are ignored.
pub open spec fn open_before(line: Seq<char>, k: int) -> Option<int>
    decreases k,
{
    if k <= 0 {
        None
    } else {
        match open_before(line, k - 1) {
            None => if is_quote_char(line[k - 1]) {
                Some(k - 1)
            } else {
                None
            },
            Some(s) => if line[k - 1] == line[s] {
                None
            } else {
                Some(s)
            },
        }
    }
}

/// Characters `s` and `c` of `line` are the two delimiters of a quote of the
/// pairing.
pub open spec fn is_span(line: Seq<char>, s: int, c: int) -> bool {
    &&& 0 <= s < c < line.len()
    &&& open_before(line, c) == Some(s)
    &&& line[c] == line[s]
}

/// The quote delimited by characters `s` and `c` holds byte offset `cursor`:
/// the cursor lies from the opening delimiter to the closing one, both included.
pub open spec fn span_holds(line: Seq<char>, cursor: int, s: int, c: int) -> bool {
    &&& is_span(line, s, c)
    &&& byte_offset(line, s) <= cursor <= byte_offset(line, c)
}

/// The scan from character `k`, in the pairing state of the first `k`
/// characters, finds the first quote closing at or after `k` that holds the
/// cursor; failing that, the quote the pairing leaves open at the end of the
/// line when it starts at or before the cursor; failing that, nothing.
pub proof fn lemma_scan_finds_first_span(line: Seq<char>, cursor: int, k: int)
    requires
        0 <= k <= line.len(),
    ensures
        match scan_quotes(line, cursor, k, open_before(line, k)) {
            QuoteSpan::Closed { open, close } => {
                &&& span_holds(line, cursor, open, close)
                &&& k <= close
                &&& forall|s: int, c: int| k <= c && span_holds(line, cursor, s, c) ==> close <= c
            },
            QuoteSpan::Open { open } => {
                &&& forall|s: int, c: int| k <= c ==> !span_holds(line, cursor, s, c)
                &&& open_before(line, line.len() as int) == Some(open)
                &&& byte_offset(line, open) <= cursor
            },
            QuoteSpan::Missing => {
                &&& forall|s: int, c: int| k <= c ==> !span_holds(line, cursor, s, c)
                &&& !(open_before(line, line.len() as int) matches Some(s) && byte_offset(line, s)
                    <= cursor)
            },
        },
    decreases line.len() - k,
{
    lemma_open_before_range(line, k);
    if k < line.len() {
        lemma_scan_finds_first_span(line, cursor, k + 1);
        let next = scan_quotes(line, cursor, k + 1, open_before(line, k + 1));
        match open_before(line, k) {
            None => {
                assert(scan_quotes(line, cursor, k, None) == next);
                assert forall|s: int, c: int| k <= c && span_holds(line, cursor, s, c) implies k + 1
                    <= c by {}
            },
            Some(o) => {
                if line[k] == line[o] && byte_offset(line, o) <= cursor <= byte_offset(line, k) {
                    assert(span_holds(line, cursor, o, k));
                } else {
                    assert(scan_quotes(line, cursor, k, Some(o)) == next);
                    assert forall|s: int, c: int| k <= c && span_holds(line, cursor, s, c) implies k
                        + 1 <= c by {
                        if c == k {
                            assert(s == o);
                        }
                    }
                }
            },
        }
    } else {
        assert forall|s: int, c: int| k <= c implies !span_holds(line, cursor, s, c) by {}
    }
}

/// The quote left open by a prefix starts with a quote character inside it.
pub proof fn lemma_open_before_range(line: Seq<char>, k: int)
    requires
        0 <= k <= line.len(),
    ensures
        open_before(line, k) matches Some(s) ==> 0 <= s < k && is_quote_char(line[s]),
    decreases k,
{
    if k > 0 {
        lemma_open_before_range(line, k - 1);
    }
}

/// The quote that `Quote::from_line` reads is chosen by the pairing of
/// `open_before`: the first closed quote whose delimiters enclose the cursor;
/// failing that, the quote left open at the end of the line when it starts at
/// or before the cursor; failing that, none.
pub proof fn lemma_first_span_chosen(line: Seq<char>, character: u32)
    ensures
        match quote_span(line, character as int) {
            QuoteSpan::Closed { open, close } => {
                &&& span_holds(line, character as int, open, close)
                &&& forall|s: int, c: int| span_holds(line, character as int, s, c) ==> close <= c
            },
            QuoteSpan::Open { open } => {
                &&& forall|s: int, c: int| !span_holds(line, character as int, s, c)
                &&& open_before(line, line.len() as int) == Some(open)
                &&& byte_offset(line, open) <= character
            },
            QuoteSpan::Missing => {
                &&& forall|s: int, c: int| !span_holds(line, character as int, s, c)
                &&& !(open_before(line, line.len() as int) matches Some(s) && byte_offset(line, s)
                    <= character)
            },
        },
        line_quote(line, character) matches Some(q) ==> exists|s: int|
            0 <= s < line.len() && q.start == byte_offset(line, s) as u32 && q.quote == line[s] && (
            q.complete ==> exists|c: int| #[trigger] span_holds(line, character as int, s, c))
            && (!q.complete ==> open_before(line, line.len() as int) == Some(s)),
{
    lemma_scan_finds_first_span(line, character as int, 0);
    assert(open_before(line, 0) is None);
    match quote_span(line, character as int) {
        QuoteSpan::Closed { open, close } => {
            assert forall|s: int, c: int| span_holds(line, character as int, s, c) implies close <= c by {}
            assert(span_holds(line, character as int, open, close));
        },
        QuoteSpan::Open { open } => {
            lemma_scan_facts(line, character as int, 0, None);
        },
        QuoteSpan::Missing => {},
    }
}

/// A line whose length fits in a `u32` can always be read with the cursor at
/// its end.
pub proof fn lemma_end_cursor_ok(line: Seq<char>)
    requires
        utf8_len(line) <= u32::MAX,
    ensures
        from_line_ok(line, utf8_len(line) as u32),
{
    let c = utf8_len(line) as u32;
    lemma_scan_facts(line, c as int, 0, None);
    lemma_offset_end(line);
    if let QuoteSpan::Open { open } = quote_span(line, c as int) {
        lemma_offset_step(line, open);
        lemma_quote_char_width(line[open]);
        lemma_offset_split(line, open + 1, line.len() as int);
    }
}

/// What `Quote::from_text` finds: the quote under the cursor on line
/// `position.line` of `text`, when the text has that line and the line can be
/// read at `position.character`.
pub open spec fn text_quote(text: Seq<char>, position: Position) -> Option<QuoteView> {
    let lines = text_lines(text);
    if position.line < lines.len() && from_line_ok(lines[position.line as int], position.character) {
        line_quote(lines[position.line as int], position.character)
    } else {
        None
    }
}

impl Quote {
    /// The quote under the cursor at `position` in the document `text`: that
    /// of line `position.line` read at `position.character`, or `None` when the
    /// text has no such line or the line cannot be read there.
    pub fn from_text(text: &str, position: Position) -> (r: Option<Quote>)
        ensures
            r matches Some(q) ==> text_quote(text@, position) == Some(q@) && q.start < u32::MAX,
            r is None ==> text_quote(text@, position) is None,
            position.line < text_lines(text@).len() && from_line_ok(
                text_lines(text@)[position.line as int],
                position.character,
            ) ==> (match r {
                Some(q) => line_quote(text_lines(text@)[position.line as int], position.character)
                    == Some(q@),
                None => line_quote(text_lines(text@)[position.line as int], position.character) is None,
            }),
    {
        let lines = split_lines(text);
        if position.line as usize >= lines.len() {
            return None;
        }
        let line = lines[position.line as usize].as_str();
        assert(line@ == text_lines(text@)[position.line as int]);
        if !Quote::reads_cursor(line, position.character) {
            return None;
        }
        Quote::from_line(line, position.character)
    }
}

/// The quote found at a position of a document is the quote found on the
/// line at that position, read at the position's character, whenever the
/// document has that line and the line can be read there.
pub proof fn lemma_document_quote_is_line_quote(text: Seq<char>, position: Position)
    requires
        position.line < text_lines(text).len(),
        from_line_ok(text_lines(text)[position.line as int], position.character),
    ensures
        text_quote(text, position) == line_quote(
            text_lines(text)[position.line as int],
            position.character,
        ),
{
}

/// While a key is being typed: when the pairing of a document line leaves a
/// quote open at the line's end, opened at character `s` before the cursor,
/// and no closed quote holds the cursor, the quote found at that position is
/// that open quote, unclosed, starting at the byte offset of `s`, ending at
/// the cursor, with the line's bytes between the delimiter and the cursor as
/// its text.
pub proof fn lemma_document_open_quote_is_found(text: Seq<char>, position: Position, s: int)
    requires
        position.line < text_lines(text).len(),
        from_line_ok(text_lines(text)[position.line as int], position.character),
        open_before(
            text_lines(text)[position.line as int],
            text_lines(text)[position.line as int].len() as int,
        ) == Some(s),
        byte_offset(text_lines(text)[position.line as int], s) < position.character,
        forall|x: int, c: int|
            !span_holds(text_lines(text)[position.line as int], position.character as int, x, c),
    ensures
        text_quote(text, position) matches Some(q) && !q.complete && q.start == byte_offset(
            text_lines(text)[position.line as int],
            s,
        ) && q.end == position.character && encode_utf8(
            text_lines(text)[position.line as int],
        ).subrange(q.start + 1, position.character as int) == encode_utf8(q.text),
{
    let line = text_lines(text)[position.line as int];
    lemma_first_span_chosen(line, position.character);
    lemma_unclosed_quote_bytes(line, position.character);
    lemma_scan_facts(line, position.character as int, 0, None);
}

} // verus!
