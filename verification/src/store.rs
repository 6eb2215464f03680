//! Document store: maps document ids to their metadata and text, so that
//! results can be displayed and previewed with a snippet.
use std::collections::HashMap;
use vstd::prelude::*;
use crate::text::{
    char_is_alphanumeric, chars_of, contains_chars, is_alphanumeric, join_space, join_with_space,
    push_all, seq_contains_seq, split_whitespace, split_ws, str_lowercase, to_lowercase, views,
};

verus! {

broadcast use vstd::std_specs::hash::group_hash_axioms;

/// A stored document.
#[derive(Debug, Clone)]
pub struct Document {
    pub id: u32,
    pub path: String,
    pub title: String,
    pub body: String,
}

/// The documents, keyed by id; ids are handed out in order from 0.
#[derive(Debug)]
pub struct DocumentStore {
    docs: HashMap<u32, Document>,
    next_id: u32,
}

impl DocumentStore {
    /// The stored documents by id.
    pub closed spec fn docs(&self) -> Map<u32, Document> {
        self.docs@
    }

    /// The id the next added document gets.
    pub closed spec fn next(&self) -> u32 {
        self.next_id
    }

    /// The ids in use are exactly those below `next()`, each document stored
    /// under its own id.
    pub closed spec fn wf(&self) -> bool {
        &&& forall|i: u32| #[trigger] self.docs@.contains_key(i) <==> i < self.next_id
        &&& forall|i: u32| #[trigger] self.docs@.contains_key(i) ==> self.docs@[i].id == i
        &&& self.docs@.len() == self.next_id
        &&& self.docs@.dom().finite()
    }

    /// An empty store.
    pub fn new() -> (r: Self)
        ensures
            r.wf(),
            r.next() == 0,
            r.docs() == Map::<u32, Document>::empty(),
    {
        let r = DocumentStore { docs: HashMap::new(), next_id: 0 };
        assert(r.docs@ =~= Map::<u32, Document>::empty());
        r
    }

    /// Stores a document under the next id, and returns that id.
    pub fn add(&mut self, path: String, title: String, body: String) -> (id: u32)
        requires
            old(self).wf(),
            old(self).next() < u32::MAX,
        ensures
            final(self).wf(),
            id == old(self).next(),
            final(self).next() == old(self).next() + 1,
            final(self).docs() == old(self).docs().insert(
                id,
                Document { id, path, title, body },
            ),
    {
        let id = self.next_id;
        self.next_id = self.next_id + 1;
        let ghost before = self.docs@;
        self.docs.insert(id, Document { id, path, title, body });
        proof {
            assert(!before.contains_key(id));
            assert(self.docs@.dom() =~= before.dom().insert(id));
            assert forall|i: u32| #[trigger] self.docs@.contains_key(i) <==> i < self.next_id by {
                if i < self.next_id && i != id {
                    assert(before.contains_key(i));
                }
            }
        }
        id
    }

    /// The document with id `id`, if there is one.
    pub fn get(&self, id: u32) -> (r: Option<&Document>)
        requires
            self.wf(),
        ensures
            match r {
                Some(d) => self.docs().contains_key(id) && *d == self.docs()[id],
                None => !self.docs().contains_key(id),
            },
    {
        self.docs.get(&id)
    }

    /// Number of stored documents.
    pub fn count(&self) -> (r: usize)
        requires
            self.wf(),
        ensures
            r == self.next(),
            r == self.docs().len(),
    {
        self.docs.len()
    }

    /// A preview of document `doc_id`: up to `context_words` words on each
    /// side of the first word that matches one of `matched_terms` (or of the
    /// first word when none does), with `...` where words were cut off.  A
    /// word with no letter or digit matches nothing.
    /// The empty string when there is no such document.
    pub fn snippet(&self, doc_id: u32, matched_terms: &[String], context_words: usize) -> (r: String)
        requires
            self.wf(),
        ensures
            !self.docs().contains_key(doc_id) ==> r@ == Seq::<char>::empty(),
            self.docs().contains_key(doc_id) ==> r@ == snippet_text(
                split_ws(self.docs()[doc_id].body@),
                views(matched_terms@),
                context_words as int,
            ),
    {
        let doc = match self.get(doc_id) {
            Some(d) => d,
            None => return String::new(),
        };
        let words = split_whitespace(doc.body.as_str());
        let ghost ws = views(words@);
        let ghost terms = views(matched_terms@);
        let n = words.len();
        let mut best: Option<usize> = None;
        let mut i: usize = 0;
        while i < n && best.is_none()
            invariant
                n == words@.len(),
                ws == views(words@),
                terms == views(matched_terms@),
                i <= n,
                best is None ==> first_match_from(ws, terms, 0) == first_match_from(ws, terms, i as int),
                best matches Some(c) ==> first_match_from(ws, terms, 0) == c && c < n,
            decreases n - i,
        {
            let lw = to_lowercase(words[i].as_str());
            let cleaned = alnum_only(&chars_of(lw.as_str()));
            let ghost cw = cleaned@;
            let mut found = false;
            let mut j: usize = 0;
            while j < matched_terms.len() && !found
                invariant
                    j <= matched_terms@.len(),
                    terms == views(matched_terms@),
                    cw == cleaned@,
                    found == exists|t: int| 0 <= t < j && word_matches_term(cw, #[trigger] terms[t]),
                decreases matched_terms.len() - j,
            {
                let tc = chars_of(matched_terms[j].as_str());
                proof {
                    assert(terms[j as int] == matched_terms@[j as int]@);
                }
                if contains_chars(&cleaned, &tc) || contains_chars(&tc, &cleaned) {
                    found = true;
                    proof {
                        assert(word_matches_term(cw, terms[j as int]));
                    }
                }
                j += 1;
            }
            let ghost any = found;
            let found = found && cleaned.len() > 0;
            proof {
                assert(ws[i as int] == words@[i as int]@);
                assert(cw == keep_alnum(str_lowercase(ws[i as int])));
                if !any {
                    assert(j == matched_terms@.len());
                }
                assert(found == word_matches(ws[i as int], terms));
            }
            if found {
                best = Some(i);
            }
            i += 1;
        }
        let ghost fm = first_match_from(ws, terms, 0);
        let center: usize = match best {
            Some(c) => c,
            None => 0,
        };
        proof {
            assert(best is Some ==> fm == center);
            assert(best is None ==> fm == -1);
        }
        let start = center.saturating_sub(context_words);
        let reach = center.saturating_add(context_words).saturating_add(1);
        let end = if reach < n {
            reach
        } else {
            n
        };
        let mut out = String::new();
        if start > 0 {
            push_all(&mut out, "...");
        }
        let mut window: Vec<String> = Vec::new();
        let mut k = start;
        while k < end
            invariant
                start <= k <= end <= n,
                n == words@.len(),
                ws == views(words@),
                views(window@) == ws.subrange(start as int, k as int),
            decreases end - k,
        {
            let ghost before = window@;
            window.push(words[k].clone());
            proof {
                assert(ws[k as int] == words@[k as int]@);
                assert(window@ == before.push(words@[k as int]));
                assert(views(window@) =~= views(before).push(words@[k as int]@));
                assert(views(window@) =~= ws.subrange(start as int, k + 1));
            }
            k += 1;
        }
        let joined = join_with_space(&window);
        push_all(&mut out, joined.as_str());
        if end < n {
            push_all(&mut out, "...");
        }
        proof {
            let s = snippet_text(ws, terms, context_words as int);
            assert(out@ =~= s);
        }
        out
    }
}

impl DocumentStore {
    /// A store holding `docs`, the document at position `i` having id `i`;
    /// `None` when some document's id is not its position, or there are more
    /// documents than ids.
    pub fn from_documents(docs: Vec<Document>) -> (r: Option<Self>)
        ensures
            match r {
                Some(st) => {
                    &&& st.wf()
                    &&& st.next() == docs@.len()
                    &&& forall|i: u32| i < docs@.len() ==> #[trigger] st.docs()[i] == docs@[i as int]
                },
                None => docs@.len() > u32::MAX || exists|i: int| 0 <= i < docs@.len() && (#[trigger] docs@[i]).id != i,
            },
    {
        if docs.len() > 4294967295usize {
            return None;
        }
        let mut i: usize = 0;
        while i < docs.len()
            invariant
                i <= docs@.len() <= u32::MAX,
                forall|k: int| 0 <= k < i ==> (#[trigger] docs@[k]).id == k,
            decreases docs.len() - i,
        {
            if docs[i].id as usize != i {
                return None;
            }
            i += 1;
        }
        let ghost all = docs@;
        let mut st = DocumentStore::new();
        let mut docs = docs;
        let mut rev: Vec<Document> = Vec::new();
        let n = docs.len();
        while docs.len() > 0
            invariant
                docs@.len() <= n,
                n == all.len(),
                docs@ == all.take(docs@.len() as int),
                rev@.len() == n - docs@.len(),
                forall|x: int| 0 <= x < rev@.len() ==> #[trigger] rev@[x] == all[n - 1 - x],
            decreases docs.len(),
        {
            let d = docs.pop().unwrap();
            rev.push(d);
        }
        while rev.len() > 0
            invariant
                st.wf(),
                rev@.len() + st.next() == n,
                n == all.len() <= u32::MAX,
                forall|k: int| 0 <= k < n ==> (#[trigger] all[k]).id == k,
                forall|x: int| 0 <= x < rev@.len() ==> #[trigger] rev@[x] == all[n - 1 - x],
                forall|k: u32| k < st.next() ==> #[trigger] st.docs()[k] == all[k as int],
            decreases rev.len(),
        {
            let d = rev.pop().unwrap();
            let ghost before = st.docs();
            let ghost id = st.next();
            assert(d == all[id as int]);
            let path = d.path;
            let title = d.title;
            let body = d.body;
            st.add(path, title, body);
            proof {
                assert forall|k: u32| k < st.next() implies #[trigger] st.docs()[k] == all[k as int] by {
                    if k < id {
                        assert(st.docs()[k] == before[k]);
                    }
                }
            }
        }
        Some(st)
    }
}

impl DocumentStore {
    /// What a read gives back of a write: after `add` stored `d` under `id`,
    /// `get(id)` finds `d`, and every other id finds what it found before.
    pub proof fn lemma_get_after_add(before: DocumentStore, after: DocumentStore, id: u32, d: Document)
        requires
            before.wf(),
            after.docs() == before.docs().insert(id, d),
        ensures
            after.docs().contains_key(id),
            after.docs()[id] == d,
            forall|k: u32|
                k != id ==> (#[trigger] after.docs().contains_key(k) == before.docs().contains_key(k)
                    && (before.docs().contains_key(k) ==> after.docs()[k] == before.docs()[k])),
    {
    }
}


/// The alphanumeric characters of `w`, in order.
pub open spec fn keep_alnum(w: Seq<char>) -> Seq<char>
    decreases w.len(),
{
    if w.len() == 0 {
        Seq::empty()
    } else if char_is_alphanumeric(w.last()) {
        keep_alnum(w.drop_last()).push(w.last())
    } else {
        keep_alnum(w.drop_last())
    }
}

fn alnum_only(w: &Vec<char>) -> (r: Vec<char>)
    ensures
        r@ == keep_alnum(w@),
{
    let mut r: Vec<char> = Vec::new();
    let mut i: usize = 0;
    while i < w.len()
        invariant
            i <= w@.len(),
            r@ == keep_alnum(w@.take(i as int)),
        decreases w.len() - i,
    {
        proof {
            assert(w@.take(i + 1).drop_last() =~= w@.take(i as int));
        }
        if is_alphanumeric(w[i]) {
            r.push(w[i]);
        }
        i += 1;
    }
    assert(w@.take(w@.len() as int) =~= w@);
    r
}

/// The cleaned word `cw` matches `t` when either contains the other.
pub open spec fn word_matches_term(cw: Seq<char>, t: Seq<char>) -> bool {
    seq_contains_seq(cw, t) || seq_contains_seq(t, cw)
}

/// A word of a document matches the terms when it has some letter or digit,
/// and its lowercase alphanumeric characters contain one of the terms, or
/// are contained in one.
pub open spec fn word_matches(w: Seq<char>, terms: Seq<Seq<char>>) -> bool {
    &&& keep_alnum(str_lowercase(w)).len() > 0
    &&& exists|t: int| 0 <= t < terms.len() && word_matches_term(keep_alnum(str_lowercase(w)), #[trigger] terms[t])
}

/// Position of the first word from `i` on that matches the terms, or -1.
pub open spec fn first_match_from(ws: Seq<Seq<char>>, terms: Seq<Seq<char>>, i: int) -> int
    decreases ws.len() - i,
{
    if i < 0 || i >= ws.len() {
        -1
    } else if word_matches(ws[i], terms) {
        i
    } else {
        first_match_from(ws, terms, i + 1)
    }
}

/// The snippet of a text with words `ws`: the words from `center - c` to
/// `center + c` (clipped to the text), `center` being the first matching
/// word or the first word, with `...` on each side where words were left out.
pub open spec fn snippet_text(ws: Seq<Seq<char>>, terms: Seq<Seq<char>>, c: int) -> Seq<char> {
    let fm = first_match_from(ws, terms, 0);
    let center = if fm >= 0 {
        fm
    } else {
        0
    };
    let start = if center > c {
        center - c
    } else {
        0
    };
    let end = if center + c + 1 < ws.len() {
        center + c + 1
    } else {
        ws.len() as int
    };
    let pre = if start > 0 {
        "..."@
    } else {
        Seq::empty()
    };
    let post = if end < ws.len() {
        "..."@
    } else {
        Seq::empty()
    };
    pre + join_space(ws.subrange(start, end)) + post
}

} // verus!
