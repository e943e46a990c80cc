//! The state the language server keeps between requests: the text of each
//! open document, by URI, and the filtering of hints to the visible lines.
use crate::completion::completion::hint_views;
use crate::lsp::types::{InlayHint, InlayHintView};
use crate::string_map::StringMap;
use vstd::prelude::*;

verus! {

/// The text of each open document, by URI.
pub struct Documents {
    pub texts: StringMap<String>,
}

/// The texts of the documents, as character sequences.
pub open spec fn text_views(m: Map<Seq<char>, String>) -> Map<Seq<char>, Seq<char>> {
    m.map_values(|s: String| s@)
}

impl Documents {
    /// The store's invariant: its map is well formed.
    pub open spec fn wf(&self) -> bool {
        self.texts.wf()
    }

    /// The documents' texts by URI.
    pub open spec fn contents(&self) -> Map<Seq<char>, Seq<char>> {
        text_views(self.texts@)
    }

    /// No open document.
    pub fn new() -> (r: Self)
        ensures
            r.wf(),
            r.contents() == Map::<Seq<char>, Seq<char>>::empty(),
    {
        let r = Documents { texts: StringMap::new() };
        assert(r.contents() =~= Map::<Seq<char>, Seq<char>>::empty());
        r
    }

    /// A document was opened with `text`.
    pub fn did_open(&mut self, uri: String, text: String)
        requires
            old(self).wf(),
        ensures
            final(self).wf(),
            final(self).contents() == old(self).contents().insert(uri@, text@),
    {
        let ghost (u, t) = (uri@, text@);
        self.texts.insert(uri, text);
        assert(self.contents() =~= old(self).contents().insert(u, t));
    }

    /// A document was closed: its text is forgotten.
    pub fn did_close(&mut self, uri: &str)
        requires
            old(self).wf(),
        ensures
            final(self).wf(),
            final(self).contents() == old(self).contents().remove(uri@),
    {
        self.texts.remove(uri);
        assert(self.contents() =~= old(self).contents().remove(uri@));
    }

    /// A document was saved, with its text when the client sent it.
    pub fn did_save(&mut self, uri: String, text: Option<String>)
        requires
            old(self).wf(),
        ensures
            final(self).wf(),
            text matches Some(t) ==> final(self).contents() == old(self).contents().insert(
                uri@,
                t@,
            ),
            text is None ==> final(self).contents() == old(self).contents(),
    {
        if let Some(text) = text {
            self.did_open(uri, text);
        }
    }

    /// A document changed; with full synchronisation the first change holds
    /// its whole new text, and a change with none leaves it as it was.
    pub fn did_change(&mut self, uri: String, changes: Vec<String>)
        requires
            old(self).wf(),
        ensures
            final(self).wf(),
            changes@.len() > 0 ==> final(self).contents() == old(self).contents().insert(
                uri@,
                changes@[0]@,
            ),
            changes@.len() == 0 ==> final(self).contents() == old(self).contents(),
    {
        let mut changes = changes;
        if changes.len() > 0 {
            let text = changes.remove(0);
            self.did_open(uri, text);
        }
    }

    /// The text of the document `uri`, if it is open.
    pub fn get(&self, uri: &str) -> (r: Option<&String>)
        requires
            self.wf(),
        ensures
            r matches Some(t) ==> self.contents().dom().contains(uri@) && t@ == self.contents()[uri@],
            r is None ==> !self.contents().dom().contains(uri@),
    {
        self.texts.get(uri)
    }
}

/// The hints of `hints` on lines `start_line` to `end_line`, both included, in order.
pub open spec fn visible(hints: Seq<InlayHintView>, start_line: u32, end_line: u32) -> Seq<
    InlayHintView,
>
    decreases hints.len(),
{
    if hints.len() == 0 {
        Seq::empty()
    } else {
        let rest = visible(hints.drop_last(), start_line, end_line);
        let h = hints.last();
        if start_line <= h.position.line <= end_line {
            rest.push(h)
        } else {
            rest
        }
    }
}

/// The hints of `hints` on the visible lines `start_line` to `end_line`.
pub fn visible_hints(hints: &Vec<InlayHint>, start_line: u32, end_line: u32) -> (r: Vec<InlayHint>)
    ensures
        hint_views(r@) == visible(hint_views(hints@), start_line, end_line),
{
    let mut r: Vec<InlayHint> = Vec::new();
    let mut i: usize = 0;
    while i < hints.len()
        invariant
            i <= hints@.len(),
            hint_views(r@) == visible(hint_views(hints@).take(i as int), start_line, end_line),
        decreases hints@.len() - i,
    {
        let h = &hints[i];
        let ghost before = hint_views(r@);
        assert(hint_views(hints@).take(i + 1).drop_last() =~= hint_views(hints@).take(i as int));
        assert(hint_views(hints@).take(i + 1).last() == h@);
        if h.position.line >= start_line && h.position.line <= end_line {
            let copy = InlayHint {
                position: h.position,
                label: h.label.clone(),
                kind: h.kind,
                padding_left: h.padding_left,
            };
            r.push(copy);
            assert(hint_views(r@) =~= before.push(h@));
        }
        i = i + 1;
    }
    assert(hint_views(hints@).take(hints@.len() as int) =~= hint_views(hints@));
    r
}

/// After a document is opened (or saved or changed) with `text`, reading it
/// gives `text` back, and every other document is as it was.
pub proof fn lemma_read_after_open(before: Documents, after: Documents, uri: Seq<char>, text: Seq<char>)
    requires
        after.contents() == before.contents().insert(uri, text),
    ensures
        after.contents().dom().contains(uri),
        after.contents()[uri] == text,
        forall|other: Seq<char>|
            other != uri ==> (#[trigger] after.contents().dom().contains(other)
                == before.contents().dom().contains(other)) && (before.contents().dom().contains(
                other,
            ) ==> after.contents()[other] == before.contents()[other]),
{
}

/// After a document is closed it can no longer be read, and every other
/// document is as it was.
pub proof fn lemma_closed_is_gone(before: Documents, after: Documents, uri: Seq<char>)
    requires
        after.contents() == before.contents().remove(uri),
    ensures
        !after.contents().dom().contains(uri),
        forall|other: Seq<char>|
            other != uri ==> (#[trigger] after.contents().dom().contains(other)
                == before.contents().dom().contains(other)) && (before.contents().dom().contains(
                other,
            ) ==> after.contents()[other] == before.contents()[other]),
{
}

/// The visible hints lie on the visible lines, and they are some of the hints given.
pub proof fn lemma_visible_in_range(hints: Seq<InlayHintView>, start_line: u32, end_line: u32)
    ensures
        visible(hints, start_line, end_line).len() <= hints.len(),
        forall|i: int|
            0 <= i < visible(hints, start_line, end_line).len() ==> start_line <= (
            #[trigger] visible(hints, start_line, end_line)[i]).position.line <= end_line
                && hints.contains(visible(hints, start_line, end_line)[i]),
    decreases hints.len(),
{
    if hints.len() > 0 {
        let prev = hints.drop_last();
        lemma_visible_in_range(prev, start_line, end_line);
        let all = visible(hints, start_line, end_line);
        let rest = visible(prev, start_line, end_line);
        assert forall|i: int| 0 <= i < all.len() implies start_line <= (
        #[trigger] all[i]).position.line <= end_line && hints.contains(all[i]) by {
            if i < rest.len() {
                assert(all[i] == rest[i]);
                let k = choose|k: int| 0 <= k < prev.len() && prev[k] == rest[i];
                assert(hints[k] == prev[k]);
            } else {
                assert(all[i] == hints.last());
                assert(hints[hints.len() - 1] == hints.last());
            }
        }
    }
}

} // verus!
