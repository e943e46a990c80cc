//! The translation keys of a project and the answers built from them: hovers,
//! completions and inlay hints.
use crate::completion::completion_data::{hover_of, item_of, CompletionData};
use crate::completion::completion_doc::hint_text;
use crate::lsp::quote::{lemma_end_cursor_ok, line_quote, Quote, QuoteView};
use crate::lsp::types::{
    CompletionItem, CompletionItemView, Hover, HoverView, InlayHint, InlayHintKind,
    InlayHintView, Position, opt_hint_view, opt_hover_view,
};
use crate::string_map::{entry_keys, StringMap};
use crate::text::{
    byte_len, has_infix, has_prefix, lemma_lines_bounded, lemma_utf8_len_at_least,
    spec_to_lowercase, split_lines, str_contains, str_eq, str_starts_with, text_lines,
    to_lowercase, utf8_len, views, ascii_lowercase, is_ascii_chars, keeps_ascii_lower_runs,
};
use vstd::prelude::*;

verus! {

/// The translation keys of a project: each key's data under its lowercase
/// form, the locales to document, and the keys in the order they were added.
pub struct Completion {
    pub completion: StringMap<CompletionData>,
    pub available_locales: Vec<String>,
    keys: Vec<(String, String)>,
}

/// Whether a key (with its lowercase form) is proposed for the lowercase text
/// of a quote: it extends the text, or its lowercase form contains the text.
pub open spec fn key_matches(key: Seq<char>, lowered_key: Seq<char>, lowered_text: Seq<char>) -> bool {
    (has_prefix(key, lowered_text) && key != lowered_text) || has_infix(lowered_key, lowered_text)
}

/// The keys proposed, in the order they were added: all of them when `all`
/// holds, else those that match `lowered_text`.
pub open spec fn shown_keys(
    pairs: Seq<(Seq<char>, Seq<char>)>,
    all: bool,
    lowered_text: Seq<char>,
) -> Seq<Seq<char>>
    decreases pairs.len(),
{
    if pairs.len() == 0 {
        Seq::empty()
    } else {
        let rest = shown_keys(pairs.drop_last(), all, lowered_text);
        let p = pairs.last();
        if all || key_matches(p.0, p.1, lowered_text) {
            rest.push(p.0)
        } else {
            rest
        }
    }
}

/// The completion items of the entries whose key is among `shown`, in the
/// entries' order.
pub open spec fn shown_items(
    entries: Seq<(Seq<char>, CompletionData)>,
    shown: Seq<Seq<char>>,
    quote: QuoteView,
    position: Position,
    locales: Seq<Seq<char>>,
) -> Seq<CompletionItemView>
    decreases entries.len(),
{
    if entries.len() == 0 {
        Seq::empty()
    } else {
        let rest = shown_items(entries.drop_last(), shown, quote, position, locales);
        let e = entries.last();
        if shown.contains(e.0) {
            rest.push(item_of(e.1, quote, position, locales))
        } else {
            rest
        }
    }
}

/// The views of a sequence of completion items.
pub open spec fn item_views(items: Seq<CompletionItem>) -> Seq<CompletionItemView> {
    items.map_values(|i: CompletionItem| i@)
}

/// The views of a sequence of inlay hints.
pub open spec fn hint_views(hints: Seq<InlayHint>) -> Seq<InlayHintView> {
    hints.map_values(|h: InlayHint| h@)
}

impl Completion {
    /// The keys in the order they were added, each with its lowercase form.
    pub closed spec fn key_pairs(&self) -> Seq<(Seq<char>, Seq<char>)> {
        self.keys@.map_values(|p: (String, String)| (p.0@, p.1@))
    }

    /// The locales to document, as character sequences.
    pub closed spec fn locales(&self) -> Seq<Seq<char>> {
        views(self.available_locales@)
    }

    /// The stored data, by lowercase key, in the order of the keys' first insertion.
    pub closed spec fn entries(&self) -> Seq<(Seq<char>, CompletionData)> {
        self.completion.entry_seq()
    }

    /// The stored data, by lowercase key.
    pub closed spec fn data(&self) -> Map<Seq<char>, CompletionData> {
        self.completion@
    }

    /// The invariant: the map is well formed, each key is the lowercase form of
    /// its data's key, each data's documentation is well formed, each data's
    /// key is among the added keys, and each added key is kept with its
    /// lowercase form, which keeps its runs of lowercase ASCII characters.
    pub closed spec fn wf(&self) -> bool {
        &&& self.completion.wf()
        &&& forall|i: int|
            0 <= i < self.completion.entry_seq().len() ==> {
                &&& (#[trigger] self.completion.entry_seq()[i]).1.documentation.wf()
                &&& self.completion.entry_seq()[i].0 == spec_to_lowercase(
                    self.completion.entry_seq()[i].1.completion@,
                )
                &&& exists|m: int|
                    0 <= m < self.key_pairs().len() && #[trigger] self.key_pairs()[m].0
                        == self.completion.entry_seq()[i].1.completion@
            }
        &&& forall|i: int|
            0 <= i < self.key_pairs().len() ==> {
                &&& (#[trigger] self.key_pairs()[i]).1 == spec_to_lowercase(self.key_pairs()[i].0)
                &&& keeps_ascii_lower_runs(self.key_pairs()[i].0, self.key_pairs()[i].1)
            }
    }

    /// What `get_hover` and `get_goto` answer for the lowercase text
    /// `lowered` of `quote`: the hover of the data stored under it, if any.
    pub open spec fn hover_answer(
        &self,
        lowered: Seq<char>,
        quote: QuoteView,
        position: Position,
    ) -> Option<HoverView> {
        if self.data().dom().contains(lowered) {
            Some(hover_of(self.data()[lowered], quote, position, self.locales()))
        } else {
            None
        }
    }

    /// The inlay hint for a quote whose lowercase text is `lowered`, on line
    /// `line`: the `en` translation of the data stored under it, after `": "`,
    /// placed at the quote's end, when that translation is not empty.
    pub open spec fn hint_answer(&self, lowered: Seq<char>, quote: QuoteView, line: u32) -> Option<
        InlayHintView,
    > {
        if self.data().dom().contains(lowered) {
            let h = hint_text(self.data()[lowered].documentation.doc@);
            if h.len() > 0 {
                Some(
                    InlayHintView {
                        position: Position { line, character: quote.end },
                        label: ": "@ + h,
                        kind: InlayHintKind::Type,
                        padding_left: true,
                    },
                )
            } else {
                None
            }
        } else {
            None
        }
    }

    /// The hint of line `n`: that of the quote read with the cursor at the
    /// line's end, if any.
    pub open spec fn line_hint(&self, line: Seq<char>, n: int) -> Option<InlayHintView> {
        match line_quote(line, utf8_len(line) as u32) {
            Some(q) => self.hint_answer(spec_to_lowercase(q.text), q, n as u32),
            None => None,
        }
    }

    /// The hints of `lines`, in line order.
    pub open spec fn hints_of(&self, lines: Seq<Seq<char>>) -> Seq<InlayHintView>
        decreases lines.len(),
    {
        if lines.len() == 0 {
            Seq::empty()
        } else {
            let rest = self.hints_of(lines.drop_last());
            match self.line_hint(lines.last(), lines.len() - 1) {
                Some(h) => rest.push(h),
                None => rest,
            }
        }
    }

    /// The completion items proposed for `quote`, whose lowercase text is
    /// `lowered`.
    pub open spec fn completion_answer(
        &self,
        lowered: Seq<char>,
        quote: QuoteView,
        position: Position,
    ) -> Seq<CompletionItemView> {
        shown_items(
            self.entries(),
            shown_keys(self.key_pairs(), quote.text.len() == 0, lowered),
            quote,
            position,
            self.locales(),
        )
    }

    /// No keys and no locales.
    pub fn new() -> (r: Self)
        ensures
            r.wf(),
            r.data() == Map::<Seq<char>, CompletionData>::empty(),
            r.entries().len() == 0,
            r.locales().len() == 0,
            r.key_pairs().len() == 0,
    {
        let r = Completion {
            completion: StringMap::new(),
            keys: Vec::new(),
            available_locales: Vec::new(),
        };
        assert(r.key_pairs() =~= Seq::<(Seq<char>, Seq<char>)>::empty());
        assert(r.locales() =~= Seq::<Seq<char>>::empty());
        r
    }

    /// Documents the locales `locales`, in that order, from now on.
    pub fn set_available_locales(&mut self, locales: &Vec<String>)
        requires
            old(self).wf(),
        ensures
            final(self).wf(),
            final(self).locales() == views(locales@),
            final(self).entries() == old(self).entries(),
            final(self).data() == old(self).data(),
            final(self).key_pairs() == old(self).key_pairs(),
    {
        let copy = copy_strings(locales);
        self.available_locales = copy;
        assert(self.completion == old(self).completion);
        assert(self.keys == old(self).keys);
        assert(self.key_pairs() == old(self).key_pairs());
    }

    /// Adds the key of `data`: it is remembered in the order of addition, and
    /// `data` is stored under the key's lowercase form, replacing what was
    /// stored there.
    pub fn add_completion(&mut self, data: CompletionData) -> (r: &mut Completion)
        requires
            old(self).wf(),
            data.documentation.wf(),
        ensures
            r.wf(),
            r.data() == old(self).data().insert(
                spec_to_lowercase(data.completion@),
                data,
            ),
            r.key_pairs() == old(self).key_pairs().push(
                (data.completion@, spec_to_lowercase(data.completion@)),
            ),
            r.locales() == old(self).locales(),
            r.entries() == (if entry_keys(old(self).entries()).contains(
                spec_to_lowercase(data.completion@),
            ) {
                old(self).entries().update(
                    entry_keys(old(self).entries()).index_of(spec_to_lowercase(data.completion@)),
                    (spec_to_lowercase(data.completion@), data),
                )
            } else {
                old(self).entries().push((spec_to_lowercase(data.completion@), data))
            }),
            *final(self) == *final(r),
    {
        let lowered = to_lowercase(data.completion.as_str());
        let ghost old_pairs = self.key_pairs();
        let ghost old_entries = self.completion.entry_seq();
        self.keys.push((data.completion.clone(), lowered.clone()));
        assert(self.key_pairs() =~= old_pairs.push(
            (data.completion@, spec_to_lowercase(data.completion@)),
        ));
        let ghost d = data;
        self.completion.insert(lowered, data);
        proof {
            let es = self.completion.entry_seq();
            let ps = self.key_pairs();
            assert forall|i: int| 0 <= i < es.len() implies {
                &&& (#[trigger] es[i]).1.documentation.wf()
                &&& es[i].0 == spec_to_lowercase(es[i].1.completion@)
                &&& exists|m: int| 0 <= m < ps.len() && #[trigger] ps[m].0 == es[i].1.completion@
            } by {
                if i < old_entries.len() && es[i] == old_entries[i] {
                    let m = choose|m: int|
                        0 <= m < old_pairs.len() && #[trigger] old_pairs[m].0
                            == old_entries[i].1.completion@;
                    assert(ps[m] == old_pairs[m]);
                } else {
                    assert(es[i] == (spec_to_lowercase(d.completion@), d));
                    assert(ps[old_pairs.len() as int].0 == d.completion@);
                }
            }
        }
        self
    }

    /// The hover for `quote` when its text holds more than one byte and its
    /// lowercase form is a known key.
    pub fn get_hover(&self, quote: &Quote, position: Position) -> (r: Option<Hover>)
        requires
            self.wf(),
            quote.start < u32::MAX,
        ensures
            utf8_len(quote.text@) > 1 ==> opt_hover_view(r) == self.hover_answer(
                spec_to_lowercase(quote.text@),
                quote@,
                position,
            ),
            utf8_len(quote.text@) <= 1 ==> r is None,
            r is Some <==> (utf8_len(quote.text@) > 1 && self.data().dom().contains(
                spec_to_lowercase(quote.text@),
            )),
    {
        if byte_len(quote.text.as_str()) > 1 {
            let lowered = to_lowercase(quote.text.as_str());
            return self.hover_for(lowered.as_str(), quote, position);
        }
        None
    }

    /// The target of a go-to-definition request on `quote`: answered as a hover.
    pub fn get_goto(&self, quote: &Quote, position: Position) -> (r: Option<Hover>)
        requires
            self.wf(),
            quote.start < u32::MAX,
        ensures
            utf8_len(quote.text@) > 1 ==> opt_hover_view(r) == self.hover_answer(
                spec_to_lowercase(quote.text@),
                quote@,
                position,
            ),
            utf8_len(quote.text@) <= 1 ==> r is None,
            r is Some <==> (utf8_len(quote.text@) > 1 && self.data().dom().contains(
                spec_to_lowercase(quote.text@),
            )),
    {
        if byte_len(quote.text.as_str()) > 1 {
            let lowered = to_lowercase(quote.text.as_str());
            return self.hover_for(lowered.as_str(), quote, position);
        }
        None
    }

    /// The hover of the data stored under the lowercase key `lowered`, for the
    /// cursor at `position` in `quote`.
    pub fn hover_for(&self, lowered: &str, quote: &Quote, position: Position) -> (r: Option<Hover>)
        requires
            self.wf(),
            quote.start < u32::MAX,
        ensures
            opt_hover_view(r) == self.hover_answer(lowered@, quote@, position),
    {
        proof {
            crate::string_map::lemma_entries_map(self.completion.entry_seq());
        }
        match self.completion.get(lowered) {
            Some(c) => {
                proof {
                    let es = self.completion.entry_seq();
                    let i = choose|i: int| 0 <= i < es.len() && es[i].0 == lowered@;
                    assert(es[i].1.documentation.wf());
                }
                Some(c.get_hover(quote, position, &self.available_locales))
            },
            None => None,
        }
    }

    /// The inlay hint of the data stored under the lowercase key `lowered`,
    /// for `quote` on line `line`.
    pub fn hint_for(&self, lowered: &str, quote: &Quote, line: u32) -> (r: Option<InlayHint>)
        requires
            self.wf(),
        ensures
            opt_hint_view(r) == self.hint_answer(lowered@, quote@, line),
    {
        proof {
            crate::string_map::lemma_entries_map(self.completion.entry_seq());
        }
        match self.completion.get(lowered) {
            Some(entry) => {
                proof {
                    let es = self.completion.entry_seq();
                    let i = choose|i: int| 0 <= i < es.len() && es[i].0 == lowered@;
                    assert(es[i].1.documentation.wf());
                }
                let hint = entry.documentation.get_hint();
                if !hint.as_str().is_empty() {
                    let mut label = String::from_str(": ");
                    label.append(hint.as_str());
                    Some(
                        InlayHint {
                            position: Position { line, character: quote.end },
                            label,
                            kind: InlayHintKind::Type,
                            padding_left: true,
                        },
                    )
                } else {
                    None
                }
            },
            None => None,
        }
    }

    /// The inlay hints of `text`: for each line, the quote read with the cursor
    /// at the line's end, hinted with the `en` translation of its lowercase
    /// text when that is a known key with a non-empty translation. `None` for
    /// an empty text.
    pub fn get_hints(&self, text: &str) -> (r: Option<Vec<InlayHint>>)
        requires
            self.wf(),
            utf8_len(text@) <= u32::MAX,
        ensures
            text@.len() == 0 ==> r is None,
            text@.len() > 0 ==> (r matches Some(h) && hint_views(h@) == self.hints_of(
                text_lines(text@),
            )),
    {
        if text.is_empty() {
            return None;
        }
        let lines = split_lines(text);
        let ghost ls = text_lines(text@);
        proof {
            lemma_lines_bounded(text@);
            lemma_utf8_len_at_least(text@);
        }
        let mut hints: Vec<InlayHint> = Vec::new();
        let mut n: usize = 0;
        while n < lines.len()
            invariant
                self.wf(),
                views(lines@) == ls,
                ls.len() <= u32::MAX,
                forall|i: int| 0 <= i < ls.len() ==> utf8_len(#[trigger] ls[i]) <= u32::MAX,
                n <= lines@.len(),
                hint_views(hints@) == self.hints_of(ls.take(n as int)),
            decreases lines@.len() - n,
        {
            let line = lines[n].as_str();
            assert(line@ == ls[n as int]);
            let cursor = byte_len(line);
            proof {
                lemma_end_cursor_ok(line@);
            }
            let ghost before = hint_views(hints@);
            assert(ls.take(n + 1).drop_last() =~= ls.take(n as int));
            if let Some(quote) = Quote::from_line(line, cursor as u32) {
                let lowered = to_lowercase(quote.text.as_str());
                if let Some(hint) = self.hint_for(lowered.as_str(), &quote, n as u32) {
                    hints.push(hint);
                    assert(hint_views(hints@) =~= before.push(hint@));
                }
            }
            n = n + 1;
        }
        assert(ls.take(lines@.len() as int) =~= ls);
        Some(hints)
    }

    /// The completion items proposed for `quote`: those of the keys, in the
    /// order of the stored data, that are among the proposed keys (all keys
    /// when the quote is empty, else those matching its lowercase text).
    pub fn get_completions(&self, quote: &Quote, position: Position) -> (r: Option<
        Vec<CompletionItem>,
    >)
        requires
            self.wf(),
            quote.start < u32::MAX,
        ensures
            r matches Some(items) && item_views(items@) == self.completion_answer(
                spec_to_lowercase(quote.text@),
                quote@,
                position,
            ),
            is_ascii_chars(quote.text@) ==> (r matches Some(items) && item_views(items@)
                == self.completion_answer(ascii_lowercase(quote.text@), quote@, position)),
    {
        let lowered = to_lowercase(quote.text.as_str());
        Some(self.completions_for(lowered.as_str(), quote, position))
    }

    /// The completion items proposed for `quote`, whose lowercase text is `lowered`.
    pub fn completions_for(&self, lowered: &str, quote: &Quote, position: Position) -> (r: Vec<
        CompletionItem,
    >)
        requires
            self.wf(),
            quote.start < u32::MAX,
        ensures
            item_views(r@) == self.completion_answer(lowered@, quote@, position),
    {
        let all = quote.len() == 0;
        proof {
            crate::text::lemma_utf8_len_at_least(quote.text@);
            if quote.text@.len() == 0 {
                assert(quote.text@ =~= Seq::<char>::empty());
                assert(crate::text::utf8_len(quote.text@) == 0);
            }
        }
        let ghost pairs = self.key_pairs();
        let mut keys_to_show: Vec<String> = Vec::new();
        let mut i: usize = 0;
        while i < self.keys.len()
            invariant
                self.wf(),
                pairs == self.key_pairs(),
                i <= pairs.len(),
                all == (quote.text@.len() == 0),
                views(keys_to_show@) == shown_keys(pairs.take(i as int), all, lowered@),
            decreases pairs.len() - i,
        {
            let key = self.keys[i].0.as_str();
            let lowered_key = self.keys[i].1.as_str();
            assert(pairs[i as int] == (key@, lowered_key@));
            assert(pairs.take(i + 1).drop_last() =~= pairs.take(i as int));
            let ghost before = views(keys_to_show@);
            if all || (str_starts_with(key, lowered) && !str_eq(key, lowered)) || str_contains(
                lowered_key,
                lowered,
            ) {
                keys_to_show.push(self.keys[i].0.clone());
                assert(views(keys_to_show@) =~= before.push(key@));
            }
            i = i + 1;
        }
        assert(pairs.take(pairs.len() as int) =~= pairs);
        let ghost shown = views(keys_to_show@);
        let ghost es = self.completion.entry_seq();
        let mut items: Vec<CompletionItem> = Vec::new();
        let mut j: usize = 0;
        while j < self.completion.len()
            invariant
                self.wf(),
                es == self.completion.entry_seq(),
                shown == views(keys_to_show@),
                j <= es.len(),
                quote.start < u32::MAX,
                item_views(items@) == shown_items(
                    es.take(j as int),
                    shown,
                    quote@,
                    position,
                    self.locales(),
                ),
            decreases es.len() - j,
        {
            let key = self.completion.key_at(j);
            let data = self.completion.value_at(j);
            assert(es.take(j + 1).drop_last() =~= es.take(j as int));
            assert(es.take(j + 1).last() == es[j as int]);
            let ghost before = item_views(items@);
            if contains_str(&keys_to_show, key.as_str()) {
                assert(es[j as int].1.documentation.wf());
                let item = data.get_completion(quote, position, &self.available_locales);
                items.push(item);
                assert(item_views(items@) =~= before.push(item@));
            }
            j = j + 1;
        }
        assert(es.take(es.len() as int) =~= es);
        items
    }
}

/// Whether `v` holds a string equal to `s`.
pub fn contains_str(v: &Vec<String>, s: &str) -> (r: bool)
    ensures
        r == views(v@).contains(s@),
{
    let mut i: usize = 0;
    while i < v.len()
        invariant
            i <= v@.len(),
            forall|k: int| 0 <= k < i ==> v@[k]@ != s@,
        decreases v@.len() - i,
    {
        if str_eq(v[i].as_str(), s) {
            assert(views(v@)[i as int] == s@);
            return true;
        }
        i = i + 1;
    }
    proof {
        if views(v@).contains(s@) {
            let k = choose|k: int| 0 <= k < views(v@).len() && views(v@)[k] == s@;
            assert(v@[k]@ == s@);
        }
    }
    false
}

/// Hints come at most one per line, in line order, each on a line of the text.
pub proof fn lemma_hints_in_line_order(c: Completion, lines: Seq<Seq<char>>)
    requires
        lines.len() <= u32::MAX,
    ensures
        c.hints_of(lines).len() <= lines.len(),
        forall|i: int|
            0 <= i < c.hints_of(lines).len() ==> (#[trigger] c.hints_of(lines)[i]).position.line
                < lines.len(),
        forall|i: int, j: int|
            0 <= i < j < c.hints_of(lines).len() ==> (#[trigger] c.hints_of(lines)[i]).position.line
                < (#[trigger] c.hints_of(lines)[j]).position.line,
    decreases lines.len(),
{
    if lines.len() > 0 {
        let prev = lines.drop_last();
        lemma_hints_in_line_order(c, prev);
        let n = lines.len() - 1;
        let hs = c.hints_of(lines);
        let rest = c.hints_of(prev);
        match c.line_hint(lines.last(), n) {
            Some(h) => {
                assert(hs == rest.push(h));
                match line_quote(lines.last(), utf8_len(lines.last()) as u32) {
                    Some(q) => {
                        assert(h.position.line == n as u32);
                    },
                    None => {},
                }
                assert forall|i: int, j: int| 0 <= i < j < hs.len() implies (#[trigger] hs[i]).position.line
                    < (#[trigger] hs[j]).position.line by {
                    if j == hs.len() - 1 {
                        assert(hs[i] == rest[i]);
                    } else {
                        assert(hs[i] == rest[i] && hs[j] == rest[j]);
                    }
                }
                assert forall|i: int| 0 <= i < hs.len() implies (#[trigger] hs[i]).position.line
                    < lines.len() by {
                    if i < rest.len() {
                        assert(hs[i] == rest[i]);
                    }
                }
            },
            None => {
                assert(hs == rest);
            },
        }
    }
}

/// Line `n` of the text gets a hint exactly when the quote read at the end of
/// that line has a lowercase text stored as a key with a non-empty `en`
/// translation, and each hint is the one of its line.
pub proof fn lemma_hints_per_line(c: Completion, lines: Seq<Seq<char>>)
    requires
        lines.len() <= u32::MAX,
    ensures
        forall|n: int|
            0 <= n < lines.len() ==> (#[trigger] c.line_hint(lines[n], n) is Some <==> exists|i: int|
                0 <= i < c.hints_of(lines).len() && c.hints_of(lines)[i].position.line == n),
        forall|i: int|
            0 <= i < c.hints_of(lines).len() ==> c.line_hint(
                lines[(#[trigger] c.hints_of(lines)[i]).position.line as int],
                c.hints_of(lines)[i].position.line as int,
            ) == Some(c.hints_of(lines)[i]),
    decreases lines.len(),
{
    if lines.len() > 0 {
        let prev = lines.drop_last();
        lemma_hints_per_line(c, prev);
        lemma_hints_in_line_order(c, prev);
        let n = lines.len() - 1;
        let hs = c.hints_of(lines);
        let rest = c.hints_of(prev);
        assert(lines[n] == lines.last());
        let last = c.line_hint(lines.last(), n);
        if let Some(h) = last {
            assert(hs == rest.push(h));
            assert(h.position.line == n as u32);
        } else {
            assert(hs == rest);
        }
        assert forall|i: int| 0 <= i < rest.len() implies #[trigger] hs[i] == rest[i] && rest[i].position.line
            < n by {}
        assert forall|m: int| 0 <= m < lines.len() implies (#[trigger] c.line_hint(lines[m], m) is Some
            <==> exists|i: int| 0 <= i < hs.len() && hs[i].position.line == m) by {
            if m < n {
                assert(lines[m] == prev[m]);
                if c.line_hint(lines[m], m) is Some {
                    let i = choose|i: int| 0 <= i < rest.len() && rest[i].position.line == m;
                    assert(hs[i] == rest[i]);
                }
                if exists|i: int| 0 <= i < hs.len() && hs[i].position.line == m {
                    let i = choose|i: int| 0 <= i < hs.len() && hs[i].position.line == m;
                    if i < rest.len() {
                        assert(hs[i] == rest[i]);
                    }
                }
            } else {
                if exists|i: int| 0 <= i < hs.len() && hs[i].position.line == m {
                    let i = choose|i: int| 0 <= i < hs.len() && hs[i].position.line == m;
                    if i < rest.len() {
                        assert(hs[i] == rest[i]);
                    }
                }
                if last is Some {
                    assert(hs[rest.len() as int].position.line == m);
                }
            }
        }
        assert forall|i: int| 0 <= i < hs.len() implies c.line_hint(
            lines[(#[trigger] hs[i]).position.line as int],
            hs[i].position.line as int,
        ) == Some(hs[i]) by {
            if i < rest.len() {
                let l = rest[i].position.line as int;
                assert(lines[l] == prev[l]);
            }
        }
    }
}

/// Once a key is added, a quote whose lowercase text is the key's lowercase
/// form is answered with the hover of the added data.
pub proof fn lemma_added_key_is_hovered(
    before: Completion,
    after: Completion,
    data: CompletionData,
    text: Seq<char>,
    quote: QuoteView,
    position: Position,
)
    requires
        after.data() == before.data().insert(spec_to_lowercase(data.completion@), data),
        spec_to_lowercase(text) == spec_to_lowercase(data.completion@),
    ensures
        after.hover_answer(spec_to_lowercase(text), quote, position) == Some(
            hover_of(data, quote, position, after.locales()),
        ),
{
}

/// The indices of the entries whose key is among `shown`, in increasing order.
pub open spec fn shown_indices(entries: Seq<(Seq<char>, CompletionData)>, shown: Seq<Seq<char>>) -> Seq<
    int,
>
    decreases entries.len(),
{
    if entries.len() == 0 {
        Seq::empty()
    } else {
        let rest = shown_indices(entries.drop_last(), shown);
        if shown.contains(entries.last().0) {
            rest.push(entries.len() - 1)
        } else {
            rest
        }
    }
}

/// The proposed completion items are, in order, the items of the entries
/// whose key is among the proposed keys, one item per such entry: their
/// indices strictly increase, so no entry gives two items and there are no
/// more items than entries.
pub proof fn lemma_items_are_shown_entries(
    entries: Seq<(Seq<char>, CompletionData)>,
    shown: Seq<Seq<char>>,
    quote: QuoteView,
    position: Position,
    locales: Seq<Seq<char>>,
)
    ensures
        ({
            let idx = shown_indices(entries, shown);
            let items = shown_items(entries, shown, quote, position, locales);
            &&& items.len() == idx.len() <= entries.len()
            &&& forall|i: int|
                0 <= i < idx.len() ==> 0 <= #[trigger] idx[i] < entries.len() && items[i] == item_of(
                    entries[idx[i]].1,
                    quote,
                    position,
                    locales,
                )
            &&& forall|i: int, j: int| 0 <= i < j < idx.len() ==> #[trigger] idx[i] < #[trigger] idx[j]
            &&& forall|k: int|
                0 <= k < entries.len() ==> (shown.contains(#[trigger] entries[k].0) <==> exists|i: int|
                    0 <= i < idx.len() && idx[i] == k)
        }),
    decreases entries.len(),
{
    if entries.len() > 0 {
        let prev = entries.drop_last();
        lemma_items_are_shown_entries(prev, shown, quote, position, locales);
        let idx = shown_indices(entries, shown);
        let rest = shown_indices(prev, shown);
        let items = shown_items(entries, shown, quote, position, locales);
        let n = entries.len() - 1;
        assert forall|i: int| 0 <= i < rest.len() implies #[trigger] idx[i] == rest[i] && entries[rest[i]]
            == prev[rest[i]] && items[i] == shown_items(prev, shown, quote, position, locales)[i] by {}
        if shown.contains(entries.last().0) {
            assert(idx[rest.len() as int] == n);
            assert(entries[n] == entries.last());
        }
        assert forall|k: int| 0 <= k < entries.len() implies (shown.contains(#[trigger] entries[k].0)
            <==> exists|i: int| 0 <= i < idx.len() && idx[i] == k) by {
            if k < n {
                assert(entries[k] == prev[k]);
                if shown.contains(entries[k].0) {
                    let i = choose|i: int| 0 <= i < rest.len() && rest[i] == k;
                    assert(idx[i] == k);
                }
                if exists|i: int| 0 <= i < idx.len() && idx[i] == k {
                    let i = choose|i: int| 0 <= i < idx.len() && idx[i] == k;
                    if i < rest.len() {
                        assert(rest[i] == k);
                    }
                }
            } else {
                assert(entries[k] == entries.last());
                if shown.contains(entries[k].0) {
                    assert(idx[rest.len() as int] == k);
                }
                if exists|i: int| 0 <= i < idx.len() && idx[i] == k {
                    let i = choose|i: int| 0 <= i < idx.len() && idx[i] == k;
                    if i < rest.len() {
                        assert(rest[i] < n);
                    }
                }
            }
        }
    }
}

/// A key is proposed exactly when some added key equal to it matches the text
/// (or every key is proposed).
pub proof fn lemma_shown_keys_contains(
    pairs: Seq<(Seq<char>, Seq<char>)>,
    all: bool,
    lowered: Seq<char>,
    x: Seq<char>,
)
    ensures
        shown_keys(pairs, all, lowered).contains(x) <==> exists|m: int|
            0 <= m < pairs.len() && #[trigger] pairs[m].0 == x && (all || key_matches(
                pairs[m].0,
                pairs[m].1,
                lowered,
            )),
    decreases pairs.len(),
{
    if pairs.len() > 0 {
        let prev = pairs.drop_last();
        lemma_shown_keys_contains(prev, all, lowered, x);
        let rest = shown_keys(prev, all, lowered);
        let ks = shown_keys(pairs, all, lowered);
        let p = pairs.last();
        let n = pairs.len() - 1;
        assert(pairs[n] == p);
        if all || key_matches(p.0, p.1, lowered) {
            assert(ks == rest.push(p.0));
            if rest.contains(x) {
                let i = choose|i: int| 0 <= i < rest.len() && rest[i] == x;
                assert(ks[i] == x);
            }
            if ks.contains(x) && !rest.contains(x) {
                let i = choose|i: int| 0 <= i < ks.len() && ks[i] == x;
                if i < rest.len() {
                    assert(ks[i] == rest[i]);
                }
            }
        }
        if exists|m: int|
            0 <= m < pairs.len() && #[trigger] pairs[m].0 == x && (all || key_matches(
                pairs[m].0,
                pairs[m].1,
                lowered,
            )) {
            let m = choose|m: int|
                0 <= m < pairs.len() && #[trigger] pairs[m].0 == x && (all || key_matches(
                    pairs[m].0,
                    pairs[m].1,
                    lowered,
                ));
            if m < n {
                assert(prev[m] == pairs[m]);
            } else {
                assert(ks == rest.push(p.0));
                assert(ks[rest.len() as int] == x);
            }
        }
        if ks.contains(x) && !(all || key_matches(p.0, p.1, lowered)) {
            assert(ks == rest);
            let m = choose|m: int|
                0 <= m < prev.len() && #[trigger] prev[m].0 == x && (all || key_matches(
                    prev[m].0,
                    prev[m].1,
                    lowered,
                ));
            assert(pairs[m] == prev[m]);
        }
        if rest.contains(x) {
            let m = choose|m: int|
                0 <= m < prev.len() && #[trigger] prev[m].0 == x && (all || key_matches(
                    prev[m].0,
                    prev[m].1,
                    lowered,
                ));
            assert(pairs[m] == prev[m]);
        }
    }
}

/// The completion items of the entries whose key contains `lowered` (of all
/// entries when `all` holds), in the entries' order.
pub open spec fn matching_items(
    entries: Seq<(Seq<char>, CompletionData)>,
    all: bool,
    lowered: Seq<char>,
    quote: QuoteView,
    position: Position,
    locales: Seq<Seq<char>>,
) -> Seq<CompletionItemView>
    decreases entries.len(),
{
    if entries.len() == 0 {
        Seq::empty()
    } else {
        let rest = matching_items(entries.drop_last(), all, lowered, quote, position, locales);
        let e = entries.last();
        if all || has_infix(e.0, lowered) {
            rest.push(item_of(e.1, quote, position, locales))
        } else {
            rest
        }
    }
}

/// Filtering by `shown` is filtering by the infix test when both pick the same entries.
proof fn lemma_shown_items_match(
    entries: Seq<(Seq<char>, CompletionData)>,
    shown: Seq<Seq<char>>,
    all: bool,
    lowered: Seq<char>,
    quote: QuoteView,
    position: Position,
    locales: Seq<Seq<char>>,
)
    requires
        forall|k: int|
            0 <= k < entries.len() ==> (shown.contains(#[trigger] entries[k].0) <==> (all
                || has_infix(entries[k].0, lowered))),
    ensures
        shown_items(entries, shown, quote, position, locales) == matching_items(
            entries,
            all,
            lowered,
            quote,
            position,
            locales,
        ),
    decreases entries.len(),
{
    if entries.len() > 0 {
        let prev = entries.drop_last();
        assert forall|k: int| 0 <= k < prev.len() implies (shown.contains(#[trigger] prev[k].0) <==> (all
            || has_infix(prev[k].0, lowered))) by {
            assert(prev[k] == entries[k]);
        }
        lemma_shown_items_match(prev, shown, all, lowered, quote, position, locales);
        assert(entries[entries.len() - 1] == entries.last());
    }
}

/// A key that extends a text contains it.
pub proof fn lemma_prefix_is_infix(s: Seq<char>, p: Seq<char>)
    requires
        has_prefix(s, p),
    ensures
        has_infix(s, p),
{
    assert(s.subrange(0, 0 + p.len() as int) =~= p);
}

impl Completion {
    /// When every added key is its own lowercase form, the items proposed for
    /// a quote whose lowercase text is `lowered` are those of the stored keys
    /// that contain `lowered` (of all stored keys when the quote is empty), in
    /// the order of the stored data; each item is labelled with its key, and
    /// the stored keys are distinct, so each such key labels exactly one item.
    pub proof fn lemma_lowercase_keys_proposed_by_infix(
        &self,
        lowered: Seq<char>,
        quote: QuoteView,
        position: Position,
    )
        requires
            self.wf(),
            forall|i: int| 0 <= i < self.key_pairs().len() ==> #[trigger] self.key_pairs()[i].1
                == self.key_pairs()[i].0,
        ensures
            self.completion_answer(lowered, quote, position) == matching_items(
                self.entries(),
                quote.text.len() == 0,
                lowered,
                quote,
                position,
                self.locales(),
            ),
            forall|k: int|
                0 <= k < self.entries().len() ==> (#[trigger] self.entries()[k]).1.completion@
                    == self.entries()[k].0,
            crate::string_map::distinct_keys(self.entries()),
    {
        let es = self.entries();
        let ps = self.key_pairs();
        let all = quote.text.len() == 0;
        let shown = shown_keys(ps, all, lowered);
        assert forall|k: int| 0 <= k < es.len() implies (#[trigger] es[k]).1.completion@ == es[k].0
            && (shown.contains(es[k].0) <==> (all || has_infix(es[k].0, lowered))) by {
            let m = choose|m: int| 0 <= m < ps.len() && #[trigger] ps[m].0 == es[k].1.completion@;
            assert(ps[m].1 == spec_to_lowercase(ps[m].0));
            assert(es[k].0 == ps[m].0);
            lemma_shown_keys_contains(ps, all, lowered, es[k].0);
            if shown.contains(es[k].0) {
                let m2 = choose|m2: int|
                    0 <= m2 < ps.len() && #[trigger] ps[m2].0 == es[k].0 && (all || key_matches(
                        ps[m2].0,
                        ps[m2].1,
                        lowered,
                    ));
                assert(ps[m2].1 == ps[m2].0);
                if !all && has_prefix(ps[m2].0, lowered) {
                    lemma_prefix_is_infix(ps[m2].0, lowered);
                }
            }
            if all || has_infix(es[k].0, lowered) {
                assert(ps[m].1 == ps[m].0);
                assert(all || key_matches(ps[m].0, ps[m].1, lowered));
            }
        }
        lemma_shown_items_match(es, shown, all, lowered, quote, position, self.locales());
    }
}

/// Containment of runs of characters is transitive.
pub proof fn lemma_infix_trans(a: Seq<char>, b: Seq<char>, c: Seq<char>)
    requires
        has_infix(a, b),
        has_infix(b, c),
    ensures
        has_infix(a, c),
{
    let i = choose|i: int| 0 <= i && i + b.len() <= a.len() && #[trigger] a.subrange(i, i + b.len()) == b;
    let j = choose|j: int| 0 <= j && j + c.len() <= b.len() && #[trigger] b.subrange(j, j + c.len()) == c;
    assert(a.subrange(i + j, i + j + c.len()) =~= c) by {
        assert forall|x: int| 0 <= x < c.len() implies a.subrange(i + j, i + j + c.len())[x] == c[x] by {
            assert(c[x] == b.subrange(j, j + c.len())[x]);
            assert(b[j + x] == a.subrange(i, i + b.len())[j + x]);
        }
    }
}

/// A key that extends a text containing the ASCII lowercase form
/// `ascii_lowercase(t)` of an ASCII text `t` has a lowercase form `lowered`
/// that contains it too, when lowering keeps the key's runs of lowercase
/// ASCII characters.
proof fn lemma_extension_keeps_infix(key: Seq<char>, lowered: Seq<char>, longer: Seq<char>, t: Seq<char>)
    requires
        has_prefix(key, longer),
        has_infix(longer, ascii_lowercase(t)),
        is_ascii_chars(t),
        keeps_ascii_lower_runs(key, lowered),
    ensures
        has_infix(lowered, ascii_lowercase(t)),
{
    let l1 = ascii_lowercase(t);
    let n = l1.len() as int;
    let p = choose|p: int| 0 <= p && p + n <= longer.len() && #[trigger] longer.subrange(p, p + n) == l1;
    assert(key.subrange(p, p + n) =~= l1) by {
        assert forall|x: int| 0 <= x < n implies key.subrange(p, p + n)[x] == l1[x] by {
            assert(key[p + x] == key.take(longer.len() as int)[p + x]);
            assert(l1[x] == longer.subrange(p, p + n)[x]);
        }
    }
    assert forall|x: int| p <= x < p + n implies crate::text::is_ascii_lower(#[trigger] key[x]) by {
        assert(key[x] == key.subrange(p, p + n)[x - p]);
        assert((t[x - p] as u32) < 128);
        crate::text::lemma_ascii_lower_char_idempotent(t[x - p]);
    }
    assert(has_infix(lowered, key.subrange(p, p + n)));
}

/// Some item of `b` is labelled `label`.
pub open spec fn has_label(b: Seq<CompletionItemView>, label: Seq<char>) -> bool {
    exists|j: int| 0 <= j < b.len() && b[j].label == label
}

/// Every label of the items `a` is the label of some item of `b`.
pub open spec fn labels_among(a: Seq<CompletionItemView>, b: Seq<CompletionItemView>) -> bool {
    forall|i: int| 0 <= i < a.len() ==> has_label(b, #[trigger] a[i].label)
}

impl Completion {
    /// A longer query never proposes more: when the lowercase text of `q2`
    /// contains that of `q1`, every label proposed for `q2` is proposed for
    /// `q1` too. Stated for ASCII quote texts, whose lowercase forms the
    /// library knows to be their ASCII lowercase forms; the keys may be any.
    pub proof fn lemma_longer_query_fewer_labels(
        &self,
        q1: QuoteView,
        p1: Position,
        q2: QuoteView,
        p2: Position,
    )
        requires
            self.wf(),
            is_ascii_chars(q1.text),
            is_ascii_chars(q2.text),
            has_infix(ascii_lowercase(q2.text), ascii_lowercase(q1.text)),
        ensures
            labels_among(
                self.completion_answer(ascii_lowercase(q2.text), q2, p2),
                self.completion_answer(ascii_lowercase(q1.text), q1, p1),
            ),
    {
        let es = self.entries();
        let ps = self.key_pairs();
        let locs = self.locales();
        let l1 = ascii_lowercase(q1.text);
        let l2 = ascii_lowercase(q2.text);
        let all1 = q1.text.len() == 0;
        let all2 = q2.text.len() == 0;
        let sh1 = shown_keys(ps, all1, l1);
        let sh2 = shown_keys(ps, all2, l2);
        let a1 = self.completion_answer(l1, q1, p1);
        let a2 = self.completion_answer(l2, q2, p2);
        lemma_items_are_shown_entries(es, sh1, q1, p1, locs);
        lemma_items_are_shown_entries(es, sh2, q2, p2, locs);
        let idx1 = shown_indices(es, sh1);
        let idx2 = shown_indices(es, sh2);
        assert forall|i: int| 0 <= i < a2.len() implies has_label(a1, #[trigger] a2[i].label) by {
            let k = idx2[i];
            assert(0 <= k < es.len());
            assert(sh2.contains(es[k].0));
            lemma_shown_keys_contains(ps, all2, l2, es[k].0);
            lemma_shown_keys_contains(ps, all1, l1, es[k].0);
            let m = choose|m: int|
                0 <= m < ps.len() && #[trigger] ps[m].0 == es[k].0 && (all2 || key_matches(
                    ps[m].0,
                    ps[m].1,
                    l2,
                ));
            if !all1 {
                assert(keeps_ascii_lower_runs(ps[m].0, ps[m].1));
                if all2 {
                    assert(l2.len() == 0);
                    assert(l1.len() == q1.text.len());
                    assert(false);
                } else if has_infix(ps[m].1, l2) {
                    lemma_infix_trans(ps[m].1, l2, l1);
                } else {
                    lemma_extension_keeps_infix(ps[m].0, ps[m].1, l2, q1.text);
                }
                assert(key_matches(ps[m].0, ps[m].1, l1));
            }
            assert(sh1.contains(es[k].0));
            let j = choose|j: int| 0 <= j < idx1.len() && idx1[j] == k;
            assert(a1[j].label == es[k].1.completion@);
        }
    }
}

/// A copy of the strings of `v`, in order.
pub fn copy_strings(v: &Vec<String>) -> (r: Vec<String>)
    ensures
        views(r@) == views(v@),
{
    let mut copy: Vec<String> = Vec::new();
    let mut i: usize = 0;
    while i < v.len()
        invariant
            i <= v@.len(),
            views(copy@) == views(v@).take(i as int),
        decreases v@.len() - i,
    {
        let ghost before = views(copy@);
        let s = v[i].clone();
        copy.push(s);
        assert(views(copy@) =~= before.push(v@[i as int]@));
        assert(views(v@).take(i + 1) =~= views(v@).take(i as int).push(v@[i as int]@));
        i = i + 1;
    }
    assert(views(v@).take(v@.len() as int) =~= views(v@));
    copy
}

} // verus!
