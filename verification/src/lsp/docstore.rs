//! The language server's store of open documents: each URI's version and
//! full text. Full-sync changes replace the text wholesale; URIs come out
//! sorted for deterministic republish sweeps. The store keeps its URIs in
//! a sorted list, each document beside its URI.

use vstd::prelude::*;

use crate::names::{
    find_name_slot, lemma_insert_at_slot, lemma_remove_sorted, lemma_sorted_unique, names_of,
    sorted_names,
};

verus! {

/// A document with its current version and text content.
pub struct Document {
    pub version: i32,
    pub text: String,
}

/// Store of open documents indexed by URI.
pub struct DocStore {
    /// Open URIs, strictly increasing.
    uris: Vec<String>,
    /// The document of each URI, at the same position.
    docs: Vec<Document>,
}

impl DocStore {
    /// The store's invariant: URIs sorted and distinct, one document each.
    pub closed spec fn wf(&self) -> bool {
        &&& sorted_names(names_of(self.uris@))
        &&& self.uris@.len() == self.docs@.len()
    }

    /// The open documents: URI to (version, text).
    pub closed spec fn view(&self) -> Map<Seq<char>, (i32, Seq<char>)> {
        Map::new(
            |k: Seq<char>| names_of(self.uris@).contains(k),
            |k: Seq<char>| self.entry_at(self.slot_of(k)),
        )
    }

    /// The position of `k` among the URIs.
    pub closed spec fn slot_of(&self, k: Seq<char>) -> int {
        choose|i: int| 0 <= i < self.uris@.len() && self.uris@[i]@ == k
    }

    /// The document at position `i`, as plain values.
    pub closed spec fn entry_at(&self, i: int) -> (i32, Seq<char>) {
        (self.docs@[i].version, self.docs@[i].text@)
    }

    /// The open URIs in order.
    pub closed spec fn uris_view(&self) -> Seq<Seq<char>> {
        names_of(self.uris@)
    }

    /// The entry at `i` is what the view holds for its URI.
    proof fn lemma_entry(&self, i: int)
        requires
            self.wf(),
            0 <= i < self.uris@.len(),
        ensures
            self.view().dom().contains(self.uris@[i]@),
            self.view()[self.uris@[i]@] == (self.docs@[i].version, self.docs@[i].text@),
    {
        let n = names_of(self.uris@);
        assert(n[i] == self.uris@[i]@);
        let k = self.uris@[i]@;
        assert(n.contains(k));
        assert(self.view().dom().contains(k));
        let j = self.slot_of(k);
        assert(0 <= j < self.uris@.len() && self.uris@[j]@ == k);
        assert(n[j] == n[i]);
        lemma_sorted_unique(n, i, j);
        assert(self.view()[k] == (self.docs@[j].version, self.docs@[j].text@));
    }

    /// The URIs listed are exactly the open ones, sorted.
    pub proof fn law_uris_are_the_open_documents(&self)
        requires
            self.wf(),
        ensures
            sorted_names(self.uris_view()),
            forall|k: Seq<char>| #[trigger] self.uris_view().contains(k) == self.view().dom().contains(k),
    {
    }

    /// An empty store.
    pub fn new() -> (r: DocStore)
        ensures
            r.wf(),
            r.view() == Map::<Seq<char>, (i32, Seq<char>)>::empty(),
    {
        let r = DocStore { uris: Vec::new(), docs: Vec::new() };
        proof {
            assert(r.view() =~= Map::<Seq<char>, (i32, Seq<char>)>::empty());
        }
        r
    }

    /// Open (or reopen) a document with the given URI, version and text.
    pub fn open(&mut self, uri: &str, version: i32, text: String)
        requires
            old(self).wf(),
        ensures
            final(self).wf(),
            final(self).view() == old(self).view().insert(uri@, (version, text@)),
    {
        let (slot, found) = find_name_slot(&self.uris, uri);
        let ghost old_self = *self;
        let ghost tv = text@;
        if found {
            self.docs.set(slot, Document { version, text });
            proof {
                self.lemma_same_keys_update(old_self, slot as int, uri@, (version, tv));
            }
        } else {
            let key = uri.to_owned();
            self.uris.insert(slot, key);
            self.docs.insert(slot, Document { version, text });
            proof {
                let old_n = names_of(old_self.uris@);
                assert(names_of(self.uris@) =~= old_n.insert(slot as int, uri@));
                lemma_insert_at_slot(old_n, slot as int, uri@);
                let m = self.view();
                let want = old_self.view().insert(uri@, (version, tv));
                assert forall|k: Seq<char>| #[trigger] m.dom().contains(k) == want.dom().contains(k) by {
                    assert(names_of(self.uris@).contains(k) == (old_n.contains(k) || k == uri@));
                }
                assert forall|k: Seq<char>| m.dom().contains(k) implies #[trigger] m[k] == want[k] by {
                    let i = self.slot_of(k);
                    assert(names_of(self.uris@)[i] == k);
                    assert(names_of(self.uris@).contains(k));
                    self.lemma_entry(i);
                    if i < slot {
                        old_self.lemma_entry(i);
                    } else if i > slot {
                        old_self.lemma_entry(i - 1);
                    }
                }
                assert(m =~= want);
            }
        }
    }

    /// Replacing the document at `slot`, keeping every URI, changes the
    /// view at that URI only.
    proof fn lemma_same_keys_update(&self, before: DocStore, slot: int, key: Seq<char>, val: (i32, Seq<char>))
        requires
            before.wf(),
            self.uris@ == before.uris@,
            self.docs@.len() == before.docs@.len(),
            0 <= slot < self.uris@.len(),
            self.uris@[slot]@ == key,
            (self.docs@[slot].version, self.docs@[slot].text@) == val,
            forall|j: int| 0 <= j < self.docs@.len() && j != slot ==> #[trigger] self.docs@[j] == before.docs@[j],
        ensures
            self.wf(),
            self.view() == before.view().insert(key, val),
    {
        let m = self.view();
        let want = before.view().insert(key, val);
        assert(names_of(self.uris@) == names_of(before.uris@));
        before.lemma_entry(slot);
        assert forall|k: Seq<char>| #[trigger] m.dom().contains(k) == want.dom().contains(k) by {}
        assert forall|k: Seq<char>| m.dom().contains(k) implies #[trigger] m[k] == want[k] by {
            let i = self.slot_of(k);
            assert(names_of(self.uris@)[i] == k);
            self.lemma_entry(i);
            if i != slot {
                before.lemma_entry(i);
                if k == key {
                    assert(names_of(self.uris@)[slot] == key);
                    lemma_sorted_unique(names_of(self.uris@), i, slot);
                }
            }
        }
        assert(m =~= want);
    }

    /// Replace an open document's version and text. An unknown URI is left
    /// alone.
    pub fn change(&mut self, uri: &str, version: i32, text: String)
        requires
            old(self).wf(),
        ensures
            final(self).wf(),
            old(self).view().dom().contains(uri@) ==> final(self).view() == old(self).view().insert(uri@, (version, text@)),
            !old(self).view().dom().contains(uri@) ==> final(self).view() == old(self).view(),
    {
        let (slot, found) = find_name_slot(&self.uris, uri);
        if found {
            let ghost old_self = *self;
            let ghost tv = text@;
            self.docs.set(slot, Document { version, text });
            proof {
                self.lemma_same_keys_update(old_self, slot as int, uri@, (version, tv));
            }
        }
    }

    /// Close a document: remove it from the store.
    pub fn close(&mut self, uri: &str)
        requires
            old(self).wf(),
        ensures
            final(self).wf(),
            final(self).view() == old(self).view().remove(uri@),
    {
        let (slot, found) = find_name_slot(&self.uris, uri);
        let ghost old_self = *self;
        if found {
            self.uris.remove(slot);
            self.docs.remove(slot);
            proof {
                let old_n = names_of(old_self.uris@);
                assert(names_of(self.uris@) =~= old_n.remove(slot as int));
                lemma_remove_sorted(old_n, slot as int);
                let m = self.view();
                let want = old_self.view().remove(uri@);
                assert forall|k: Seq<char>| #[trigger] m.dom().contains(k) == want.dom().contains(k) by {
                    let n = names_of(self.uris@);
                    if n.contains(k) {
                        let i = choose|i: int| 0 <= i < n.len() && n[i] == k;
                        let oi = if i < slot { i } else { i + 1 };
                        assert(old_n[oi] == k);
                        if k == uri@ {
                            lemma_sorted_unique(old_n, oi, slot as int);
                        }
                    }
                    if old_n.contains(k) && k != uri@ {
                        let i = choose|i: int| 0 <= i < old_n.len() && old_n[i] == k;
                        if i < slot {
                            assert(n[i] == k);
                        } else {
                            assert(i != slot);
                            assert(n[i - 1] == k);
                        }
                    }
                }
                assert forall|k: Seq<char>| m.dom().contains(k) implies #[trigger] m[k] == want[k] by {
                    let i = self.slot_of(k);
                    assert(names_of(self.uris@)[i] == k);
                    self.lemma_entry(i);
                    if i < slot {
                        old_self.lemma_entry(i);
                    } else {
                        old_self.lemma_entry(i + 1);
                    }
                }
                assert(m =~= want);
            }
        } else {
            proof {
                assert(old_self.view().remove(uri@) =~= old_self.view());
            }
        }
    }

    /// The open document at `uri`, if any.
    pub fn get(&self, uri: &str) -> (r: Option<&Document>)
        requires
            self.wf(),
        ensures
            match r {
                Some(d) => self.view().dom().contains(uri@) && self.view()[uri@] == (d.version, d.text@),
                None => !self.view().dom().contains(uri@),
            },
    {
        let (slot, found) = find_name_slot(&self.uris, uri);
        if found {
            proof {
                self.lemma_entry(slot as int);
            }
            Some(&self.docs[slot])
        } else {
            None
        }
    }

    /// All open URIs in sorted order.
    pub fn uris(&self) -> (r: Vec<String>)
        requires
            self.wf(),
        ensures
            names_of(r@) == self.uris_view(),
    {
        let mut out: Vec<String> = Vec::new();
        let mut i: usize = 0;
        while i < self.uris.len()
            invariant
                i <= self.uris@.len(),
                names_of(out@) == names_of(self.uris@).take(i as int),
            decreases self.uris@.len() - i,
        {
            let ghost prev = out@;
            out.push(self.uris[i].clone());
            i = i + 1;
            proof {
                assert(names_of(out@) =~= names_of(prev).push(self.uris@[i - 1]@));
                assert(names_of(out@) =~= names_of(self.uris@).take(i as int));
            }
        }
        proof {
            assert(names_of(self.uris@).take(i as int) =~= names_of(self.uris@));
        }
        out
    }
}

} // verus!
