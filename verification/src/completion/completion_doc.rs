//! The per-locale documentation of a translation key.
use crate::lsp::types::{Documentation, MarkupContent, MarkupKind};
use crate::string_map::StringMap;
use crate::text::{has_infix, views};
use vstd::prelude::*;

verus! {

/// The translation of a key in one locale, and the file it comes from.
pub struct CompletionDocData {
    pub info: String,
    pub file: String,
}

impl CompletionDocData {
    /// The translation `info`, found in `file`.
    pub fn new(info: &str, file: &str) -> (r: Self)
        ensures
            r.info@ == info@,
            r.file@ == file@,
    {
        CompletionDocData { info: info.to_owned(), file: file.to_owned() }
    }
}

/// The translations of a key, by locale.
pub struct CompletionDoc {
    pub doc: StringMap<CompletionDocData>,
}

/// The markdown line that lists the translation of `locale`, or a dash where
/// `doc` has none.
pub open spec fn locale_line(locale: Seq<char>, doc: Map<Seq<char>, CompletionDocData>) -> Seq<
    char,
> {
    if doc.dom().contains(locale) {
        "- **"@ + locale + "**: "@ + doc[locale].info@ + " \n"@
    } else {
        "- **"@ + locale + "**: - \n"@
    }
}

/// The lines of `locales`, in order.
pub open spec fn locale_lines(locales: Seq<Seq<char>>, doc: Map<Seq<char>, CompletionDocData>) -> Seq<
    char,
>
    decreases locales.len(),
{
    if locales.len() == 0 {
        Seq::empty()
    } else {
        locale_lines(locales.drop_last(), doc) + locale_line(locales.last(), doc)
    }
}

/// The markdown documentation of `key`: the key in bold, a blank line, then a
/// line per locale.
pub open spec fn markup_text(
    key: Seq<char>,
    doc: Map<Seq<char>, CompletionDocData>,
    locales: Seq<Seq<char>>,
) -> Seq<char> {
    "**"@ + key + "**\n\n"@ + locale_lines(locales, doc)
}

/// The translation shown as a hint: that of the `en` locale, or nothing.
pub open spec fn hint_text(doc: Map<Seq<char>, CompletionDocData>) -> Seq<char> {
    if doc.dom().contains("en"@) {
        doc["en"@].info@
    } else {
        Seq::empty()
    }
}

/// A run of characters found in `a` is found in `x + a + y` too.
pub proof fn lemma_infix_in_context(x: Seq<char>, a: Seq<char>, y: Seq<char>, p: Seq<char>)
    requires
        has_infix(a, p),
    ensures
        has_infix(x + a + y, p),
{
    let i = choose|i: int| 0 <= i && i + p.len() <= a.len() && #[trigger] a.subrange(i, i + p.len()) == p;
    let j = x.len() + i;
    assert((x + a + y).subrange(j, j + p.len()) =~= p) by {
        assert forall|k: int| 0 <= k < p.len() implies (x + a + y).subrange(j, j + p.len())[k] == p[k] by {
            assert(p[k] == a.subrange(i, i + p.len())[k]);
        }
    }
}

/// The markdown documentation of a key opens with the key in bold, and, for
/// every listed locale, holds the line `- **locale**: translation ` with that
/// locale's own translation when it has one, and `- **locale**: - ` when it
/// has none.
pub proof fn lemma_markup_lists_own_translations(
    key: Seq<char>,
    doc: Map<Seq<char>, CompletionDocData>,
    locales: Seq<Seq<char>>,
)
    ensures
        markup_text(key, doc, locales).take(key.len() + 6int) == "**"@ + key + "**\n\n"@,
        forall|i: int|
            0 <= i < locales.len() && doc.dom().contains(#[trigger] locales[i]) ==> has_infix(
                markup_text(key, doc, locales),
                "- **"@ + locales[i] + "**: "@ + doc[locales[i]].info@ + " \n"@,
            ),
        forall|i: int|
            0 <= i < locales.len() && !doc.dom().contains(#[trigger] locales[i]) ==> has_infix(
                markup_text(key, doc, locales),
                "- **"@ + locales[i] + "**: - \n"@,
            ),
    decreases locales.len(),
{
    let head = "**"@ + key + "**\n\n"@;
    reveal_strlit("**");
    reveal_strlit("**\n\n");
    assert(markup_text(key, doc, locales).take(key.len() + 6int) =~= head);
    if locales.len() > 0 {
        let prev = locales.drop_last();
        lemma_markup_lists_own_translations(key, doc, prev);
        let n = locales.len() - 1;
        let last = locale_line(locales.last(), doc);
        assert(markup_text(key, doc, locales) =~= markup_text(key, doc, prev) + last);
        assert forall|i: int|
            0 <= i < locales.len() && doc.dom().contains(#[trigger] locales[i]) implies has_infix(
            markup_text(key, doc, locales),
            "- **"@ + locales[i] + "**: "@ + doc[locales[i]].info@ + " \n"@,
        ) by {
            let line = "- **"@ + locales[i] + "**: "@ + doc[locales[i]].info@ + " \n"@;
            if i < n {
                assert(locales[i] == prev[i]);
                lemma_infix_in_context(Seq::empty(), markup_text(key, doc, prev), last, line);
                assert(Seq::<char>::empty() + markup_text(key, doc, prev) + last =~= markup_text(
                    key,
                    doc,
                    locales,
                ));
            } else {
                assert(last == line);
                assert(last.subrange(0, 0 + line.len() as int) =~= line);
                lemma_infix_in_context(markup_text(key, doc, prev), last, Seq::empty(), line);
                assert(markup_text(key, doc, prev) + last + Seq::<char>::empty() =~= markup_text(
                    key,
                    doc,
                    locales,
                ));
            }
        }
        assert forall|i: int|
            0 <= i < locales.len() && !doc.dom().contains(#[trigger] locales[i]) implies has_infix(
            markup_text(key, doc, locales),
            "- **"@ + locales[i] + "**: - \n"@,
        ) by {
            let line = "- **"@ + locales[i] + "**: - \n"@;
            if i < n {
                assert(locales[i] == prev[i]);
                lemma_infix_in_context(Seq::empty(), markup_text(key, doc, prev), last, line);
                assert(Seq::<char>::empty() + markup_text(key, doc, prev) + last =~= markup_text(
                    key,
                    doc,
                    locales,
                ));
            } else {
                assert(last == line);
                assert(last.subrange(0, 0 + line.len() as int) =~= line);
                lemma_infix_in_context(markup_text(key, doc, prev), last, Seq::empty(), line);
                assert(markup_text(key, doc, prev) + last + Seq::<char>::empty() =~= markup_text(
                    key,
                    doc,
                    locales,
                ));
            }
        }
    }
}

impl CompletionDoc {
    /// The documentation's invariant: its map is well formed.
    pub open spec fn wf(&self) -> bool {
        self.doc.wf()
    }

    /// Documentation made of the translations `doc`.
    pub fn new(doc: StringMap<CompletionDocData>) -> (r: Self)
        ensures
            r.doc == doc,
    {
        CompletionDoc { doc }
    }

    /// The markdown documentation of `key` for `available_locales`, wrapped as
    /// completion documentation.
    pub fn get_md_doc(&self, key: &str, available_locales: &Vec<String>) -> (r: Documentation)
        requires
            self.wf(),
        ensures
            r matches Documentation::MarkupContent(m) && m.kind == MarkupKind::Markdown
                && m.value@ == markup_text(key@, self.doc@, views(available_locales@)),
    {
        Documentation::MarkupContent(self.get_markup(key, available_locales))
    }

    /// The markdown documentation of `key`: `**key**`, a blank line, then for
    /// each of `available_locales` in order a line `- **locale**: translation `
    /// or, where the locale has no translation, `- **locale**: - `.
    pub fn get_markup(&self, key: &str, available_locales: &Vec<String>) -> (r: MarkupContent)
        requires
            self.wf(),
        ensures
            r.kind == MarkupKind::Markdown,
            r.value@ == markup_text(key@, self.doc@, views(available_locales@)),
    {
        let mut doc = String::new();
        doc.append("**");
        doc.append(key);
        doc.append("**\n\n");
        let ghost head = "**"@ + key@ + "**\n\n"@;
        assert(doc@ =~= head);
        let mut i: usize = 0;
        while i < available_locales.len()
            invariant
                self.wf(),
                i <= available_locales@.len(),
                doc@ == head + locale_lines(views(available_locales@).take(i as int), self.doc@),
            decreases available_locales@.len() - i,
        {
            let locale = available_locales[i].as_str();
            let ghost before = doc@;
            match self.doc.get(locale) {
                Some(data) => {
                    doc.append("- **");
                    doc.append(locale);
                    doc.append("**: ");
                    doc.append(data.info.as_str());
                    doc.append(" \n");
                },
                None => {
                    doc.append("- **");
                    doc.append(locale);
                    doc.append("**: - \n");
                },
            }
            proof {
                let ls = views(available_locales@);
                assert(ls.take(i + 1).drop_last() =~= ls.take(i as int));
                assert(ls.take(i + 1).last() == locale@);
                assert(doc@ =~= before + locale_line(locale@, self.doc@));
            }
            i = i + 1;
        }
        assert(views(available_locales@).take(available_locales@.len() as int) =~= views(
            available_locales@,
        ));
        MarkupContent { kind: MarkupKind::Markdown, value: doc }
    }

    /// The translation of the `en` locale, or the empty string.
    pub fn get_hint(&self) -> (r: String)
        requires
            self.wf(),
        ensures
            r@ == hint_text(self.doc@),
    {
        let default_locale = "en";
        let d = self.doc.get(default_locale);
        match d {
            None => String::new(),
            Some(d) => d.info.clone(),
        }
    }
}

} // verus!
