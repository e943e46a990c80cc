//! A plain store of completion entries by key.
use crate::string_map::StringMap;
use vstd::prelude::*;

verus! {

/// A completion text and the hover shown for it.
pub struct CompletionData {
    pub completion: String,
    pub hover: String,
}

/// Completion entries by key.
pub struct Completion {
    pub data: StringMap<CompletionData>,
}

impl Completion {
    /// The store's invariant: its map is well formed.
    pub open spec fn wf(&self) -> bool {
        self.data.wf()
    }

    /// An empty store.
    pub fn new() -> (r: Self)
        ensures
            r.wf(),
            r.data@ == Map::<Seq<char>, CompletionData>::empty(),
    {
        Completion { data: StringMap::new() }
    }

    /// Stores `completion` and `hover` under `key`, replacing what was there.
    pub fn add_completion(&mut self, key: String, completion: String, hover: String)
        requires
            old(self).wf(),
        ensures
            final(self).wf(),
            final(self).data@ == old(self).data@.insert(
                key@,
                (CompletionData { completion, hover }),
            ),
    {
        self.data.insert(key, CompletionData { completion, hover });
    }

    /// The entry stored under `key`.
    pub fn get_completion(&self, key: &str) -> (r: Option<&CompletionData>)
        requires
            self.wf(),
        ensures
            r matches Some(d) ==> self.data@.dom().contains(key@) && *d == self.data@[key@],
            r is None ==> !self.data@.dom().contains(key@),
    {
        self.data.get(key)
    }

    /// All entries, in the order of their keys' first insertion.
    pub fn get_all_completions(&self) -> (r: Vec<&CompletionData>)
        requires
            self.wf(),
        ensures
            r@.len() == self.data.entry_seq().len(),
            forall|i: int| 0 <= i < r@.len() ==> *r@[i] == self.data.entry_seq()[i].1,
    {
        let mut r: Vec<&CompletionData> = Vec::new();
        let mut i: usize = 0;
        while i < self.data.len()
            invariant
                i <= self.data.entry_seq().len(),
                r@.len() == i,
                forall|k: int| 0 <= k < i ==> *r@[k] == self.data.entry_seq()[k].1,
            decreases self.data.entry_seq().len() - i,
        {
            r.push(self.data.value_at(i));
            i = i + 1;
        }
        r
    }

    /// The hover stored under `key`.
    pub fn get_hover(&self, key: &str) -> (r: Option<&str>)
        requires
            self.wf(),
        ensures
            r matches Some(h) ==> self.data@.dom().contains(key@) && h@ == self.data@[key@].hover@,
            r is None ==> !self.data@.dom().contains(key@),
    {
        match self.data.get(key) {
            Some(d) => Some(d.hover.as_str()),
            None => None,
        }
    }

    /// All keys, in the order of their first insertion.
    pub fn get_keys(&self) -> (r: Vec<&String>)
        requires
            self.wf(),
        ensures
            r@.len() == self.data.entry_seq().len(),
            forall|i: int| 0 <= i < r@.len() ==> r@[i]@ == self.data.key_seq()[i],
    {
        let mut r: Vec<&String> = Vec::new();
        let mut i: usize = 0;
        while i < self.data.len()
            invariant
                i <= self.data.entry_seq().len(),
                r@.len() == i,
                forall|k: int| 0 <= k < i ==> r@[k]@ == self.data.key_seq()[k],
            decreases self.data.entry_seq().len() - i,
        {
            r.push(self.data.key_at(i));
            i = i + 1;
        }
        r
    }
}

/// After `completion` and `hover` are added under a key, that key reads back
/// the added entry and its hover, and every other key reads as before.
pub proof fn lemma_read_after_add(
    before: Completion,
    after: Completion,
    key: Seq<char>,
    completion: String,
    hover: String,
)
    requires
        after.data@ == before.data@.insert(key, (CompletionData { completion, hover })),
    ensures
        after.data@.dom().contains(key),
        after.data@[key].completion == completion,
        after.data@[key].hover@ == hover@,
        forall|other: Seq<char>|
            other != key ==> (#[trigger] after.data@.dom().contains(other) == before.data@.dom().contains(
                other,
            )) && (before.data@.dom().contains(other) ==> after.data@[other] == before.data@[other]),
{
}

} // verus!
