//! The inverted index: maps every stemmed term to the documents that
//! contain it, with the term frequency and the positions in each.
use std::collections::HashMap;
use vstd::prelude::*;
use vstd::std_specs::iter::IteratorSpec;
use crate::text::views;
use crate::tokenizer::{spec_tokenize, tokenize};

verus! {

broadcast use vstd::std_specs::hash::group_hash_axioms;

/// A single occurrence record: "term T appears in doc D at these positions".
#[derive(Clone, Debug)]
pub struct Posting {
    pub doc_id: u32,
    pub term_freq: u32,
    pub positions: Vec<u32>,
}

/// The abstract value of a posting: (document, term frequency, positions).
pub type PostingView = (u32, u32, Seq<u32>);

impl View for Posting {
    type V = PostingView;

    open spec fn view(&self) -> PostingView {
        (self.doc_id, self.term_freq, self.positions@)
    }
}

/// The views of a list of postings.
pub open spec fn posting_views(ps: Seq<Posting>) -> Seq<PostingView> {
    ps.map_values(|p: Posting| p@)
}

/// One term of the vocabulary with its postings list.
struct TermEntry {
    term: String,
    postings: Vec<Posting>,
}

/// The abstract contents of the index: (term, postings) pairs in vocabulary order.
pub type IndexView = Seq<(Seq<char>, Seq<PostingView>)>;

/// `t` is a term of the index.
pub open spec fn has_term(v: IndexView, t: Seq<char>) -> bool {
    exists|i: int| 0 <= i < v.len() && (#[trigger] v[i]).0 == t
}

/// The position of `t` in the vocabulary.
pub open spec fn term_index(v: IndexView, t: Seq<char>) -> int {
    choose|i: int| 0 <= i < v.len() && (#[trigger] v[i]).0 == t
}

/// The postings of `t` (empty for a term not in the index).
pub open spec fn postings_in(v: IndexView, t: Seq<char>) -> Seq<PostingView> {
    if has_term(v, t) {
        v[term_index(v, t)].1
    } else {
        Seq::empty()
    }
}

/// No term appears twice in the vocabulary.
pub open spec fn distinct_terms(v: IndexView) -> bool {
    forall|i: int, j: int| 0 <= i < v.len() && 0 <= j < v.len() && i != j ==> v[i].0 != v[j].0
}

/// The terms of the index, in vocabulary order.
pub open spec fn index_terms(v: IndexView) -> Seq<Seq<char>> {
    v.map_values(|e: (Seq<char>, Seq<PostingView>)| e.0)
}

/// Positions (as `u32`) at which `t` occurs in `toks`.
pub open spec fn positions_of(toks: Seq<Seq<char>>, t: Seq<char>) -> Seq<u32>
    decreases toks.len(),
{
    if toks.len() == 0 {
        Seq::empty()
    } else if toks.last() == t {
        positions_of(toks.drop_last(), t).push((toks.len() - 1) as u32)
    } else {
        positions_of(toks.drop_last(), t)
    }
}

/// The posting a document with tokens `toks` contributes for `t`.
pub open spec fn doc_posting(doc_id: u32, toks: Seq<Seq<char>>, t: Seq<char>) -> PostingView {
    (doc_id, positions_of(toks, t).len() as u32, positions_of(toks, t))
}

/// With distinct terms, the postings of the term at position `k` are the ones stored there.
pub proof fn lemma_postings_at(v: IndexView, k: int)
    requires
        distinct_terms(v),
        0 <= k < v.len(),
    ensures
        has_term(v, v[k].0),
        term_index(v, v[k].0) == k,
        postings_in(v, v[k].0) == v[k].1,
{
    assert(has_term(v, v[k].0));
}

/// A term occurs in `toks` exactly when it has a position there.
proof fn lemma_positions_nonempty(toks: Seq<Seq<char>>, t: Seq<char>)
    ensures
        toks.contains(t) <==> positions_of(toks, t).len() > 0,
    decreases toks.len(),
{
    if toks.len() > 0 {
        lemma_positions_nonempty(toks.drop_last(), t);
        if toks.contains(t) && toks.last() != t {
            let i = choose|i: int| 0 <= i < toks.len() && toks[i] == t;
            assert(toks.drop_last()[i] == t);
        }
        if toks.drop_last().contains(t) {
            let i = choose|i: int| 0 <= i < toks.drop_last().len() && toks.drop_last()[i] == t;
            assert(toks[i] == t);
        }
        if toks.last() == t {
            assert(toks[toks.len() - 1] == t);
        }
    }
}


/// What adding the document `doc_id` with text `text` does to an index (see
/// `InvertedIndex::add_document`).
pub open spec fn document_added(before: InvertedIndex, after: InvertedIndex, doc_id: u32, text: Seq<char>) -> bool {
    &&& after.wf()
    &&& after.lengths() == before.lengths().insert(doc_id, spec_tokenize(text).len() as u32)
    &&& after.count() == before.count() + 1
    &&& after.total() == before.total() + (spec_tokenize(text).len() as u32)
    &&& forall|t: Seq<char>|
        #![trigger postings_in(after@, t)]
        postings_in(after@, t) == postings_in(before@, t) + if spec_tokenize(text).contains(t) {
            seq![doc_posting(doc_id, spec_tokenize(text), t)]
        } else {
            Seq::<PostingView>::empty()
        }
    &&& forall|t: Seq<char>| has_term(after@, t) <==> (has_term(before@, t) || spec_tokenize(text).contains(t))
}


/// The postings of every term are in increasing document order.
pub open spec fn postings_sorted(v: IndexView) -> bool {
    forall|k: int, i: int, j: int|
        0 <= k < v.len() && 0 <= i < j < v[k].1.len() ==> (#[trigger] v[k].1[i]).0 < (#[trigger] v[k].1[j]).0
}

/// Every posting of the index is for a document numbered below `bound`.
pub open spec fn ids_below(v: IndexView, bound: int) -> bool {
    forall|k: int, i: int| 0 <= k < v.len() && 0 <= i < v[k].1.len() ==> (#[trigger] v[k].1[i]).0 < bound
}

/// Adding documents in increasing order of id keeps every postings list
/// sorted by document.
pub proof fn lemma_add_keeps_postings_sorted(before: InvertedIndex, after: InvertedIndex, doc_id: u32, text: Seq<char>)
    requires
        before.wf(),
        document_added(before, after, doc_id, text),
        postings_sorted(before@),
        ids_below(before@, doc_id as int),
    ensures
        postings_sorted(after@),
        ids_below(after@, doc_id + 1),
{
    let toks = spec_tokenize(text);
    assert forall|k: int, i: int|
        0 <= k < after@.len() && 0 <= i < after@[k].1.len() implies (#[trigger] after@[k].1[i]).0 < doc_id + 1 by {
        let t = after@[k].0;
        lemma_postings_at(after@, k);
        assert(postings_in(after@, t) == after@[k].1);
        if has_term(before@, t) {
            let kb = term_index(before@, t);
            lemma_postings_at(before@, kb);
        }
        let old_ps = postings_in(before@, t);
        if i < old_ps.len() {
            assert(after@[k].1[i] == old_ps[i]);
            if has_term(before@, t) {
                let kb = term_index(before@, t);
                assert(old_ps[i] == before@[kb].1[i]);
            }
        }
    }
    assert forall|k: int, i: int, j: int|
        0 <= k < after@.len() && 0 <= i < j < after@[k].1.len() implies (#[trigger] after@[k].1[i]).0
        < (#[trigger] after@[k].1[j]).0 by {
        let t = after@[k].0;
        lemma_postings_at(after@, k);
        let old_ps = postings_in(before@, t);
        if has_term(before@, t) {
            let kb = term_index(before@, t);
            lemma_postings_at(before@, kb);
            if j < old_ps.len() {
                assert(after@[k].1[i] == before@[kb].1[i]);
                assert(after@[k].1[j] == before@[kb].1[j]);
            } else {
                assert(after@[k].1[i] == before@[kb].1[i]);
                assert(after@[k].1[j].0 == doc_id);
            }
        } else {
            assert(old_ps.len() == 0);
        }
    }
}

/// The recorded (document, length) pairs.
pub open spec fn length_pairs(m: Map<u32, u32>) -> Set<(u32, u32)> {
    m.dom().map(|k: u32| (k, m[k]))
}

/// Adds the length of a (document, length) pair to a running sum.
pub open spec fn add_length() -> spec_fn(int, (u32, u32)) -> int {
    |acc: int, p: (u32, u32)| acc + p.1
}

/// The sum of the recorded document lengths.
pub open spec fn lengths_total(m: Map<u32, u32>) -> int {
    length_pairs(m).fold(0int, add_length())
}

/// Recording the length of one more document adds it to the sum.
proof fn lemma_lengths_total_insert(m: Map<u32, u32>, k: u32, v: u32)
    requires
        m.dom().finite(),
        !m.contains_key(k),
    ensures
        lengths_total(m.insert(k, v)) == lengths_total(m) + v,
{
    let f = add_length();
    assert(vstd::set::fold::is_fun_commutative(f)) by {
        assert forall|a1: (u32, u32), a2: (u32, u32), b: int| #[trigger] f(f(b, a1), a2) == f(f(b, a2), a1) by {}
    }
    m.dom().lemma_map_finite(|x: u32| (x, m[x]));
    assert(!length_pairs(m).contains((k, v))) by {
        if length_pairs(m).contains((k, v)) {
            let x = choose|x: u32| m.dom().contains(x) && (x, m[x]) == (k, v);
        }
    }
    assert(length_pairs(m.insert(k, v)) =~= length_pairs(m).insert((k, v))) by {
        let mi = m.insert(k, v);
        assert forall|p: (u32, u32)| length_pairs(mi).contains(p) implies length_pairs(m).insert((k, v)).contains(p) by {
            let x = choose|x: u32| mi.dom().contains(x) && (x, mi[x]) == p;
            if x != k {
                assert(length_pairs(m).contains(p)) by {
                    assert(m.dom().contains(x) && (x, m[x]) == p);
                }
            }
        }
        assert forall|p: (u32, u32)| length_pairs(m).insert((k, v)).contains(p) implies length_pairs(mi).contains(p) by {
            if p == (k, v) {
                assert(mi.dom().contains(k) && (k, mi[k]) == p);
            } else {
                let x = choose|x: u32| m.dom().contains(x) && (x, m[x]) == p;
                assert(x != k);
                assert(mi.dom().contains(x) && (x, mi[x]) == p);
            }
        }
    }
    vstd::set::fold::lemma_fold_insert(length_pairs(m), 0int, f, (k, v));
}

/// The index agrees with itself: every postings list is non-empty and in
/// increasing document order; each posting is for a recorded document, its
/// frequency is its number of positions, and its positions are increasing
/// and below the document's length; one document was counted per recorded
/// length; and the total length is the sum of the recorded lengths.
pub open spec fn consistent(ix: InvertedIndex) -> bool {
    let v = ix@;
    let lens = ix.lengths();
    &&& postings_sorted(v)
    &&& lens.dom().finite()
    &&& ix.count() == lens.len()
    &&& ix.total() == lengths_total(lens)
    &&& forall|k: int| 0 <= k < v.len() ==> (#[trigger] v[k]).1.len() > 0
    &&& forall|k: int, i: int|
        0 <= k < v.len() && 0 <= i < v[k].1.len() ==> {
            let p = #[trigger] v[k].1[i];
            &&& lens.contains_key(p.0)
            &&& p.1 == p.2.len()
            &&& forall|a: int, b: int| 0 <= a < b < p.2.len() ==> p.2[a] < p.2[b]
            &&& forall|a: int| 0 <= a < p.2.len() ==> p.2[a] < lens[p.0]
        }
}

/// A new, empty index is consistent.
pub proof fn lemma_empty_consistent(ix: InvertedIndex)
    requires
        ix@ == Seq::<(Seq<char>, Seq<PostingView>)>::empty(),
        ix.lengths() == Map::<u32, u32>::empty(),
        ix.count() == 0,
        ix.total() == 0,
    ensures
        consistent(ix),
{
    assert(length_pairs(ix.lengths()) =~= Set::<(u32, u32)>::empty());
    vstd::set::fold::lemma_fold_empty(0int, add_length());
}

/// A term has at most as many positions as there are tokens.
proof fn lemma_positions_len(toks: Seq<Seq<char>>, t: Seq<char>)
    ensures
        positions_of(toks, t).len() <= toks.len(),
    decreases toks.len(),
{
    if toks.len() > 0 {
        lemma_positions_len(toks.drop_last(), t);
    }
}

/// Adding a document numbered above every recorded one, with at most
/// `u32::MAX` tokens, keeps the index consistent.
pub proof fn lemma_add_keeps_index_consistent(before: InvertedIndex, after: InvertedIndex, doc_id: u32, text: Seq<char>)
    requires
        before.wf(),
        consistent(before),
        document_added(before, after, doc_id, text),
        forall|d: u32| #[trigger] before.lengths().contains_key(d) ==> d < doc_id,
        spec_tokenize(text).len() <= u32::MAX,
    ensures
        consistent(after),
{
    let toks = spec_tokenize(text);
    let n = toks.len();
    assert(ids_below(before@, doc_id as int)) by {
        assert forall|k: int, i: int| 0 <= k < before@.len() && 0 <= i < before@[k].1.len() implies
            (#[trigger] before@[k].1[i]).0 < doc_id as int by {
            assert(before.lengths().contains_key(before@[k].1[i].0));
        }
    }
    lemma_add_keeps_postings_sorted(before, after, doc_id, text);
    assert(!before.lengths().contains_key(doc_id));
    assert(after.lengths().len() == before.lengths().len() + 1);
    lemma_lengths_total_insert(before.lengths(), doc_id, spec_tokenize(text).len() as u32);
    assert forall|k: int| 0 <= k < after@.len() implies (#[trigger] after@[k]).1.len() > 0 by {
        let t = after@[k].0;
        lemma_postings_at(after@, k);
        if has_term(before@, t) {
            let kb = term_index(before@, t);
            lemma_postings_at(before@, kb);
            assert(before@[kb].1.len() > 0);
        } else {
            assert(has_term(after@, t));
            assert(toks.contains(t));
        }
    }
    assert forall|k: int, i: int| 0 <= k < after@.len() && 0 <= i < after@[k].1.len() implies {
        let p = #[trigger] after@[k].1[i];
        &&& after.lengths().contains_key(p.0)
        &&& p.1 == p.2.len()
        &&& forall|a: int, b: int| 0 <= a < b < p.2.len() ==> p.2[a] < p.2[b]
        &&& forall|a: int| 0 <= a < p.2.len() ==> p.2[a] < after.lengths()[p.0]
    } by {
        let t = after@[k].0;
        lemma_postings_at(after@, k);
        let old_ps = postings_in(before@, t);
        if i < old_ps.len() {
            let kb = term_index(before@, t);
            lemma_postings_at(before@, kb);
            assert(after@[k].1[i] == before@[kb].1[i]);
            let p = before@[kb].1[i];
            assert(before.lengths().contains_key(p.0));
            assert(p.0 != doc_id);
        } else {
            assert(toks.contains(t));
            assert(after@[k].1[i] == doc_posting(doc_id, toks, t));
            lemma_positions_increasing(toks, t);
            lemma_positions_len(toks, t);
        }
    }
}

/// The positions of a term in a token list are increasing, and each is the
/// index of an occurrence of the term.
pub proof fn lemma_positions_increasing(toks: Seq<Seq<char>>, t: Seq<char>)
    requires
        toks.len() <= u32::MAX + 1,
    ensures
        forall|i: int, j: int|
            0 <= i < j < positions_of(toks, t).len() ==> positions_of(toks, t)[i] < positions_of(toks, t)[j],
        forall|i: int|
            0 <= i < positions_of(toks, t).len() ==> positions_of(toks, t)[i] < toks.len() && toks[
                positions_of(toks, t)[i] as int] == t,
    decreases toks.len(),
{
    if toks.len() > 0 {
        lemma_positions_increasing(toks.drop_last(), t);
        let prev = positions_of(toks.drop_last(), t);
        assert forall|i: int| 0 <= i < prev.len() implies toks[prev[i] as int] == t by {
            assert(toks.drop_last()[prev[i] as int] == t);
        }
    }
}

/// The inverted index itself.
pub struct InvertedIndex {
    entries: Vec<TermEntry>,
    /// doc_id → number of tokens in that document
    doc_lengths: HashMap<u32, u32>,
    /// total number of indexed documents
    doc_count: u32,
    /// sum of all document lengths (for the average)
    total_length: u64,
}

impl View for InvertedIndex {
    type V = IndexView;

    closed spec fn view(&self) -> IndexView {
        self.entries@.map_values(
            |e: TermEntry| (e.term@, posting_views(e.postings@)),
        )
    }
}

/// A per-document group: a term and its positions in the document.
struct Group {
    term: String,
    positions: Vec<u32>,
}

/// Position of the group of `term`, if there is one.
fn find_group(groups: &Vec<Group>, term: &str) -> (r: Option<usize>)
    ensures
        match r {
            Some(g) => g < groups@.len() && groups@[g as int].term@ == term@,
            None => forall|a: int| 0 <= a < groups@.len() ==> groups@[a].term@ != term@,
        },
{
    let mut g: usize = 0;
    while g < groups.len()
        invariant
            g <= groups@.len(),
            forall|a: int| 0 <= a < g ==> groups@[a].term@ != term@,
        decreases groups.len() - g,
    {
        if crate::text::str_eq(groups[g].term.as_str(), term) {
            return Some(g);
        }
        g += 1;
    }
    None
}

impl InvertedIndex {
    /// The index keeps each term once.
    pub open spec fn wf(&self) -> bool {
        distinct_terms(self@)
    }

    /// Number of tokens of each indexed document.
    pub closed spec fn lengths(&self) -> Map<u32, u32> {
        self.doc_lengths@
    }

    /// Number of documents added.
    pub closed spec fn count(&self) -> u32 {
        self.doc_count
    }

    /// Sum of the lengths of the documents added.
    pub closed spec fn total(&self) -> u64 {
        self.total_length
    }

    /// Number of documents added.
    pub fn doc_count(&self) -> (r: u32)
        ensures
            r == self.count(),
    {
        self.doc_count
    }

    /// Sum of the lengths of the documents added.
    pub fn total_length(&self) -> (r: u64)
        ensures
            r == self.total(),
    {
        self.total_length
    }

    /// Number of tokens recorded for a document.
    pub fn doc_length(&self, doc_id: u32) -> (r: Option<u32>)
        ensures
            r == (if self.lengths().contains_key(doc_id) {
                Some(self.lengths()[doc_id])
            } else {
                None::<u32>
            }),
    {
        match self.doc_lengths.get(&doc_id) {
            Some(v) => Some(*v),
            None => None,
        }
    }

    /// An empty index.
    pub fn new() -> (r: Self)
        ensures
            r.wf(),
            r@ == Seq::<(Seq<char>, Seq<PostingView>)>::empty(),
            r.lengths() == Map::<u32, u32>::empty(),
            r.count() == 0,
            r.total() == 0,
    {
        let r = InvertedIndex {
            entries: Vec::new(),
            doc_lengths: HashMap::new(),
            doc_count: 0,
            total_length: 0,
        };
        assert(r@ =~= Seq::<(Seq<char>, Seq<PostingView>)>::empty());
        r
    }

    /// Position of `term` in the vocabulary, if it is there.
    fn find_entry(&self, term: &str) -> (r: Option<usize>)
        requires
            self.wf(),
        ensures
            match r {
                Some(k) => k < self@.len() && self@[k as int].0 == term@,
                None => !has_term(self@, term@),
            },
    {
        let mut k: usize = 0;
        while k < self.entries.len()
            invariant
                k <= self.entries@.len(),
                self@.len() == self.entries@.len(),
                forall|j: int| 0 <= j < k ==> self@[j].0 != term@,
            decreases self.entries.len() - k,
        {
            assert(self@[k as int].0 == self.entries@[k as int].term@);
            if crate::text::str_eq(self.entries[k].term.as_str(), term) {
                return Some(k);
            }
            k += 1;
        }
        None
    }

    /// Index a single document: its length is recorded, and every term it
    /// contains gets a posting with the positions where it occurs.
    pub fn add_document(&mut self, doc_id: u32, text: &str)
        requires
            old(self).wf(),
            old(self).count() < u32::MAX,
            old(self).total() + (spec_tokenize(text@).len() as u32) <= u64::MAX,
        ensures
            final(self).wf(),
            final(self).lengths() == old(self).lengths().insert(
                doc_id,
                spec_tokenize(text@).len() as u32,
            ),
            final(self).count() == old(self).count() + 1,
            final(self).total() == old(self).total() + (spec_tokenize(text@).len() as u32),
            forall|t: Seq<char>|
                #![trigger postings_in(final(self)@, t)]
                postings_in(final(self)@, t) == postings_in(old(self)@, t) + if spec_tokenize(
                    text@,
                ).contains(t) {
                    seq![doc_posting(doc_id, spec_tokenize(text@), t)]
                } else {
                    Seq::<PostingView>::empty()
                },
            forall|t: Seq<char>|
                has_term(final(self)@, t) <==> (has_term(old(self)@, t) || spec_tokenize(
                    text@,
                ).contains(t)),
    {
        let tokens = tokenize(text);
        let ghost toks = spec_tokenize(text@);
        assert(tokens@.len() == toks.len());
        let doc_len = tokens.len() as u32;
        self.doc_lengths.insert(doc_id, doc_len);
        self.doc_count = self.doc_count + 1;
        self.total_length = self.total_length + doc_len as u64;
        let ghost lengths1 = self.lengths();
        let ghost count1 = self.count();
        let ghost total1 = self.total();
        // Group the positions of each term of this document.
        let mut groups: Vec<Group> = Vec::new();
        let mut i: usize = 0;
        while i < tokens.len()
            invariant
                i <= tokens@.len(),
                views(tokens@) == toks,
                self.lengths() == lengths1,
                self.count() == count1,
                self.total() == total1,
                distinct_terms(self@),
                forall|a: int, b: int|
                    0 <= a < groups@.len() && 0 <= b < groups@.len() && a != b
                        ==> groups@[a].term@ != groups@[b].term@,
                forall|a: int|
                    0 <= a < groups@.len() ==> groups@[a].positions@ == positions_of(
                        toks.take(i as int),
                        #[trigger] groups@[a].term@,
                    ),
                forall|t: Seq<char>|
                    toks.take(i as int).contains(t) <==> exists|a: int|
                        0 <= a < groups@.len() && (#[trigger] groups@[a]).term@ == t,
            decreases tokens.len() - i,
        {
            let ghost prev_take = toks.take(i as int);
            let ghost next_take = toks.take(i + 1);
            proof {
                assert(next_take.drop_last() =~= prev_take);
                assert(tokens@[i as int]@ == toks[i as int]);
                assert(next_take.last() == toks[i as int]);
            }
            let found_at = find_group(&groups, tokens[i].as_str());
            let ghost old_groups = groups@;
            if let Some(g) = found_at {
                groups[g].positions.push(i as u32);
                proof {
                    assert forall|a: int| 0 <= a < groups@.len() implies groups@[a].positions@
                        == positions_of(next_take, #[trigger] groups@[a].term@) by {
                        if a != g {
                            assert(groups@[a] == old_groups[a]);
                        }
                    }
                    assert forall|t: Seq<char>|
                        next_take.contains(t) implies exists|a: int|
                            0 <= a < groups@.len() && (#[trigger] groups@[a]).term@ == t by {
                        if t != toks[i as int] {
                            let j = choose|j: int| 0 <= j < next_take.len() && next_take[j] == t;
                            assert(prev_take[j] == t);
                            assert(prev_take.contains(t));
                            let a = choose|a: int|
                                0 <= a < old_groups.len() && (#[trigger] old_groups[a]).term@
                                    == t;
                            assert(groups@[a].term@ == t);
                        } else {
                            assert(groups@[g as int].term@ == t);
                        }
                    }
                    assert forall|t: Seq<char>|
                        (exists|a: int|
                            0 <= a < groups@.len() && (#[trigger] groups@[a]).term@
                                == t) implies next_take.contains(t) by {
                        let a = choose|a: int|
                            0 <= a < groups@.len() && (#[trigger] groups@[a]).term@ == t;
                        assert(old_groups[a].term@ == t);
                        assert(prev_take.contains(t));
                        let j = choose|j: int| 0 <= j < prev_take.len() && prev_take[j] == t;
                        assert(next_take[j] == t);
                    }
                }
            } else {
                let mut ps: Vec<u32> = Vec::new();
                ps.push(i as u32);
                let term = tokens[i].clone();
                proof {
                    lemma_positions_nonempty(prev_take, toks[i as int]);
                    if prev_take.contains(toks[i as int]) {
                        let a = choose|a: int|
                            0 <= a < old_groups.len() && (#[trigger] old_groups[a]).term@
                                == toks[i as int];
                        assert(false);
                    }
                    assert(positions_of(prev_take, toks[i as int]).len() == 0);
                    assert(ps@ =~= positions_of(prev_take, toks[i as int]).push(i as u32));
                }
                groups.push(Group { term, positions: ps });
                proof {
                    assert forall|a: int| 0 <= a < groups@.len() implies groups@[a].positions@
                        == positions_of(next_take, #[trigger] groups@[a].term@) by {
                        if a < old_groups.len() {
                            assert(groups@[a] == old_groups[a]);
                        }
                    }
                    assert forall|t: Seq<char>|
                        next_take.contains(t) implies exists|a: int|
                            0 <= a < groups@.len() && (#[trigger] groups@[a]).term@ == t by {
                        if t != toks[i as int] {
                            let j = choose|j: int| 0 <= j < next_take.len() && next_take[j] == t;
                            assert(prev_take[j] == t);
                            assert(prev_take.contains(t));
                            let a = choose|a: int|
                                0 <= a < old_groups.len() && (#[trigger] old_groups[a]).term@
                                    == t;
                            assert(groups@[a].term@ == t);
                        } else {
                            assert(groups@[old_groups.len() as int].term@ == t);
                        }
                    }
                    assert forall|t: Seq<char>|
                        (exists|a: int|
                            0 <= a < groups@.len() && (#[trigger] groups@[a]).term@
                                == t) implies next_take.contains(t) by {
                        let a = choose|a: int|
                            0 <= a < groups@.len() && (#[trigger] groups@[a]).term@ == t;
                        if a < old_groups.len() {
                            assert(old_groups[a].term@ == t);
                            assert(prev_take.contains(t));
                            let j = choose|j: int| 0 <= j < prev_take.len() && prev_take[j] == t;
                            assert(next_take[j] == t);
                        } else {
                            assert(next_take[i as int] == t);
                        }
                    }
                }
            }
            i += 1;
        }
        proof {
            assert(toks.take(tokens@.len() as int) =~= toks);
        }
        // Merge the groups into the index.
        let ghost start = self@;
        let ghost all_groups = groups@;
        while groups.len() > 0
            invariant
                distinct_terms(self@),
                self.lengths() == lengths1,
                self.count() == count1,
                self.total() == total1,
                groups@.len() <= all_groups.len(),
                groups@ == all_groups.take(groups@.len() as int),
                forall|a: int, b: int|
                    0 <= a < all_groups.len() && 0 <= b < all_groups.len() && a != b
                        ==> all_groups[a].term@ != all_groups[b].term@,
                forall|a: int|
                    0 <= a < all_groups.len() ==> all_groups[a].positions@ == positions_of(
                        toks,
                        #[trigger] all_groups[a].term@,
                    ),
                forall|t: Seq<char>|
                    toks.contains(t) <==> exists|a: int|
                        0 <= a < all_groups.len() && (#[trigger] all_groups[a]).term@ == t,
                forall|t: Seq<char>|
                    #![trigger postings_in(self@, t)]
                    postings_in(self@, t) == postings_in(start, t) + if (exists|a: int|
                        groups@.len() <= a < all_groups.len() && (#[trigger] all_groups[a]).term@
                            == t) {
                        seq![doc_posting(doc_id, toks, t)]
                    } else {
                        Seq::<PostingView>::empty()
                    },
                forall|t: Seq<char>|
                    #![trigger has_term(self@, t)]
                    has_term(self@, t) <==> (has_term(start, t) || exists|a: int|
                        groups@.len() <= a < all_groups.len() && (#[trigger] all_groups[a]).term@
                            == t),
            decreases groups.len(),
        {
            let ghost before_groups = groups@;
            let grp = groups.pop().unwrap();
            let ghost gi = groups@.len() as int;
            assert(before_groups == all_groups.take(gi + 1));
            assert(grp == before_groups[gi]);
            let ghost t0 = grp.term@;
            let ghost before = self@;
            assert(all_groups[gi] == grp);
            let p = Posting {
                doc_id,
                term_freq: grp.positions.len() as u32,
                positions: grp.positions,
            };
            assert(p@ == doc_posting(doc_id, toks, t0));
            match self.find_entry(grp.term.as_str()) {
                Some(k) => {
                    self.entries[k].postings.push(p);
                    proof {
                        assert(posting_views(self.entries@[k as int].postings@) =~= before[k as int].1.push(p@));
                        assert(self@[k as int] == (t0, before[k as int].1.push(p@)));
                        assert(self@ =~= before.update(
                            k as int,
                            (t0, before[k as int].1.push(p@)),
                        ));
                        lemma_postings_at(before, k as int);
                        lemma_postings_at(self@, k as int);
                        assert forall|t: Seq<char>| t != t0 implies #[trigger] postings_in(
                            self@,
                            t,
                        ) == postings_in(before, t) && (has_term(self@, t) == has_term(
                            before,
                            t,
                        )) by {
                            if has_term(before, t) {
                                let j = term_index(before, t);
                                assert(self@[j].0 == t);
                                lemma_postings_at(self@, j);
                                lemma_postings_at(before, j);
                            }
                            if has_term(self@, t) {
                                let j = term_index(self@, t);
                                assert(before[j].0 == t);
                            }
                        }
                    }
                },
                None => {
                    let mut ps: Vec<Posting> = Vec::new();
                    ps.push(p);
                    self.entries.push(TermEntry { term: grp.term, postings: ps });
                    proof {
                        assert(posting_views(ps@) =~= seq![p@]);
                        assert(self@.last() == (t0, seq![p@]));
                        assert(self@ =~= before.push((t0, seq![p@])));
                        let k = before.len() as int;
                        lemma_postings_at(self@, k);
                        assert forall|t: Seq<char>| t != t0 implies #[trigger] postings_in(
                            self@,
                            t,
                        ) == postings_in(before, t) && (has_term(self@, t) == has_term(
                            before,
                            t,
                        )) by {
                            if has_term(before, t) {
                                let j = term_index(before, t);
                                assert(self@[j].0 == t);
                                lemma_postings_at(self@, j);
                                lemma_postings_at(before, j);
                            }
                            if has_term(self@, t) {
                                let j = term_index(self@, t);
                                assert(j < k);
                                assert(before[j].0 == t);
                            }
                        }
                    }
                },
            }
            proof {
                assert(groups@ =~= all_groups.take(gi));
                assert forall|t: Seq<char>|
                    #![trigger postings_in(self@, t)]
                    postings_in(self@, t) == postings_in(start, t) + if (exists|a: int|
                        gi <= a < all_groups.len() && (#[trigger] all_groups[a]).term@ == t) {
                        seq![doc_posting(doc_id, toks, t)]
                    } else {
                        Seq::<PostingView>::empty()
                    } by {
                    if t == t0 {
                        assert(all_groups[gi].term@ == t);
                        if exists|a: int|
                            gi + 1 <= a < all_groups.len() && (#[trigger] all_groups[a]).term@
                                == t {
                            let a = choose|a: int|
                                gi + 1 <= a < all_groups.len() && (#[trigger] all_groups[a]).term@
                                    == t;
                            assert(false);
                        }
                        assert(postings_in(start, t) + Seq::<PostingView>::empty() =~= postings_in(
                            start,
                            t,
                        ));
                    } else {
                        if exists|a: int|
                            gi <= a < all_groups.len() && (#[trigger] all_groups[a]).term@ == t {
                            let a = choose|a: int|
                                gi <= a < all_groups.len() && (#[trigger] all_groups[a]).term@
                                    == t;
                            assert(a != gi);
                        }
                    }
                }
                assert(has_term(self@, t0));
                assert forall|t: Seq<char>|
                    #![trigger has_term(self@, t)]
                    has_term(self@, t) <==> (has_term(start, t) || exists|a: int|
                        gi <= a < all_groups.len() && (#[trigger] all_groups[a]).term@ == t) by {
                    if t == t0 {
                        assert(all_groups[gi].term@ == t);
                    } else {
                        assert(postings_in(self@, t) == postings_in(before, t));
                        assert(has_term(self@, t) == has_term(before, t));
                        if exists|a: int|
                            gi + 1 <= a < all_groups.len() && (#[trigger] all_groups[a]).term@
                                == t {
                            let a = choose|a: int|
                                gi + 1 <= a < all_groups.len() && (#[trigger] all_groups[a]).term@
                                    == t;
                            assert(gi <= a < all_groups.len() && all_groups[a].term@ == t);
                        }
                        if exists|a: int|
                            gi <= a < all_groups.len() && (#[trigger] all_groups[a]).term@ == t {
                            let a = choose|a: int|
                                gi <= a < all_groups.len() && (#[trigger] all_groups[a]).term@
                                    == t;
                            assert(a != gi);
                        }
                    }
                }
            }
        }
        proof {
            assert(groups@.len() == 0);
            assert forall|t: Seq<char>|
                #![trigger postings_in(self@, t)]
                postings_in(self@, t) == postings_in(start, t) + if toks.contains(t) {
                    seq![doc_posting(doc_id, toks, t)]
                } else {
                    Seq::<PostingView>::empty()
                } by {
                if toks.contains(t) {
                    let a = choose|a: int|
                        0 <= a < all_groups.len() && (#[trigger] all_groups[a]).term@ == t;
                }
            }
            assert forall|t: Seq<char>|
                #![trigger has_term(self@, t)]
                has_term(self@, t) <==> (has_term(start, t) || toks.contains(t)) by {
                if toks.contains(t) {
                    let a = choose|a: int|
                        0 <= a < all_groups.len() && (#[trigger] all_groups[a]).term@ == t;
                    assert(groups@.len() <= a < all_groups.len() && all_groups[a].term@ == t);
                }
                if has_term(self@, t) && !has_term(start, t) {
                    let a = choose|a: int|
                        groups@.len() <= a < all_groups.len() && (#[trigger] all_groups[a]).term@
                            == t;
                    assert(0 <= a < all_groups.len() && all_groups[a].term@ == t);
                    assert(toks.contains(t));
                }
            }
        }
    }

    /// The postings list for a term (empty for a term not in the index).
    pub fn get_postings(&self, term: &str) -> (r: &[Posting])
        requires
            self.wf(),
        ensures
            posting_views(r@) == postings_in(self@, term@),
    {
        match self.find_entry(term) {
            Some(k) => {
                proof {
                    lemma_postings_at(self@, k as int);
                }
                self.entries[k].postings.as_slice()
            },
            None => {
                let e: &[Posting] = &[];
                assert(posting_views(e@) =~= Seq::<PostingView>::empty());
                e
            },
        }
    }

    /// Whether `term` is in the vocabulary.
    pub fn contains_term(&self, term: &str) -> (r: bool)
        requires
            self.wf(),
        ensures
            r == has_term(self@, term@),
    {
        match self.find_entry(term) {
            Some(k) => {
                assert(self@[k as int].0 == term@);
                true
            },
            None => false,
        }
    }

    /// How many documents contain this term.
    pub fn doc_frequency(&self, term: &str) -> (r: u32)
        requires
            self.wf(),
        ensures
            r == postings_in(self@, term@).len() as u32,
    {
        let ps = self.get_postings(term);
        ps.len() as u32
    }

    /// The terms of the index, in vocabulary order.
    pub fn terms(&self) -> (r: Vec<String>)
        ensures
            views(r@) == index_terms(self@),
    {
        let mut r: Vec<String> = Vec::new();
        let mut k: usize = 0;
        while k < self.entries.len()
            invariant
                k <= self.entries@.len(),
                self@.len() == self.entries@.len(),
                views(r@) == index_terms(self@).take(k as int),
            decreases self.entries.len() - k,
        {
            assert(self@[k as int].0 == self.entries@[k as int].term@);
            assert(index_terms(self@)[k as int] == self.entries@[k as int].term@);
            let ghost old_r = r@;
            let x = self.entries[k].term.clone();
            r.push(x);
            assert(views(r@) =~= views(old_r).push(x@));
            k += 1;
            assert(views(r@) =~= index_terms(self@).take(k as int));
        }
        assert(index_terms(self@).take(k as int) =~= index_terms(self@));
        r
    }

    /// Number of distinct terms.
    pub fn term_count(&self) -> (r: usize)
        ensures
            r == self@.len(),
    {
        self.entries.len()
    }

    /// The documents of the index, each once.
    pub fn doc_ids(&self) -> (r: Vec<u32>)
        ensures
            r@.to_set() == self.lengths().dom(),
            r@.no_duplicates(),
    {
        let mut r: Vec<u32> = Vec::new();
        let ghost ks = vstd::std_specs::hash::spec_keys_iter(&self.doc_lengths).remaining();
        for k in it: self.doc_lengths.keys()
            invariant
                r@ == it.seq().take(it.index()).unref(),
                it.seq() == ks,
                ks == vstd::std_specs::hash::spec_keys_iter(&self.doc_lengths).remaining(),
        {
            r.push(*k);
            proof {
                assert(r@ =~= it.seq().take(it.index() + 1).unref());
            }
        }
        proof {
            assert(ks.take(ks.len() as int) =~= ks);
            assert(r@ =~= ks.unref());
            assert(ks.unref().to_set() == self.doc_lengths@.dom());
            assert(ks.no_duplicates());
            assert forall|i: int, j: int| 0 <= i < r@.len() && 0 <= j < r@.len() && i != j implies r@[i] != r@[j] by {
                assert(r@[i] == *ks[i]);
                assert(r@[j] == *ks[j]);
            }
        }
        r
    }

    /// The term at position `k` of the vocabulary and its postings.
    pub fn entry_at(&self, k: usize) -> (r: (&str, &[Posting]))
        requires
            k < self@.len(),
        ensures
            r.0@ == self@[k as int].0,
            posting_views(r.1@) == self@[k as int].1,
    {
        (self.entries[k].term.as_str(), self.entries[k].postings.as_slice())
    }
}

/// The lengths recorded by (document, length) pairs, a later pair for a
/// document replacing an earlier one.
pub open spec fn lengths_of(pairs: Seq<(u32, u32)>) -> Map<u32, u32>
    decreases pairs.len(),
{
    if pairs.len() == 0 {
        Map::empty()
    } else {
        lengths_of(pairs.drop_last()).insert(pairs.last().0, pairs.last().1)
    }
}

/// The abstract contents of a list of (term, postings) entries.
pub open spec fn entries_view(es: Seq<(String, Vec<Posting>)>) -> IndexView {
    es.map_values(|e: (String, Vec<Posting>)| (e.0@, posting_views(e.1@)))
}

impl InvertedIndex {
    /// An index with the given contents, as saved: `None` when a term is
    /// listed twice.
    pub fn from_parts(
        entries: Vec<(String, Vec<Posting>)>,
        doc_lengths: &[(u32, u32)],
        doc_count: u32,
        total_length: u64,
    ) -> (r: Option<Self>)
        ensures
            match r {
                Some(ix) => {
                    &&& ix.wf()
                    &&& ix@ == entries_view(entries@)
                    &&& ix.lengths() == lengths_of(doc_lengths@)
                    &&& ix.count() == doc_count
                    &&& ix.total() == total_length
                },
                None => !distinct_terms(entries_view(entries@)),
            },
    {
        let ghost ev = entries_view(entries@);
        let mut chars: Vec<Vec<char>> = Vec::new();
        let mut k: usize = 0;
        while k < entries.len()
            invariant
                k <= entries@.len(),
                ev == entries_view(entries@),
                chars@.len() == k,
                forall|j: int| 0 <= j < k ==> (#[trigger] chars@[j])@ == ev[j].0,
            decreases entries.len() - k,
        {
            chars.push(crate::text::chars_of(entries[k].0.as_str()));
            k += 1;
        }
        let mut i: usize = 0;
        while i < chars.len()
            invariant
                i <= chars@.len(),
                ev == entries_view(entries@),
                chars@.len() == ev.len(),
                forall|j: int| 0 <= j < chars@.len() ==> (#[trigger] chars@[j])@ == ev[j].0,
                forall|a: int, b: int| 0 <= a < i && 0 <= b < ev.len() && a != b ==> ev[a].0 != ev[b].0,
            decreases chars.len() - i,
        {
            let mut j: usize = i + 1;
            while j < chars.len()
                invariant
                    i < j <= chars@.len(),
                    ev == entries_view(entries@),
                    chars@.len() == ev.len(),
                    forall|x: int| 0 <= x < chars@.len() ==> (#[trigger] chars@[x])@ == ev[x].0,
                    forall|b: int| i < b < j ==> ev[i as int].0 != ev[b].0,
                decreases chars.len() - j,
            {
                if crate::text::chars_eq(&chars[i], &chars[j]) {
                    assert(ev[i as int].0 == ev[j as int].0);
                    assert(!distinct_terms(ev));
                    return None;
                }
                j += 1;
            }
            i += 1;
        }
        let mut es: Vec<TermEntry> = Vec::new();
        let mut entries = entries;
        let ghost all = entries@;
        let mut lengths: HashMap<u32, u32> = HashMap::new();
        let mut p: usize = 0;
        proof {
            assert(lengths@ =~= lengths_of(doc_lengths@.take(0)));
        }
        while p < doc_lengths.len()
            invariant
                p <= doc_lengths@.len(),
                lengths@ == lengths_of(doc_lengths@.take(p as int)),
            decreases doc_lengths.len() - p,
        {
            lengths.insert(doc_lengths[p].0, doc_lengths[p].1);
            proof {
                assert(doc_lengths@.take(p + 1).drop_last() =~= doc_lengths@.take(p as int));
            }
            p += 1;
        }
        proof {
            assert(doc_lengths@.take(doc_lengths@.len() as int) =~= doc_lengths@);
        }
        let n = entries.len();
        let mut rev: Vec<TermEntry> = Vec::new();
        while entries.len() > 0
            invariant
                entries@.len() <= n,
                n == all.len(),
                entries@ == all.take(entries@.len() as int),
                rev@.len() == n - entries@.len(),
                forall|x: int| 0 <= x < rev@.len() ==> ((#[trigger] rev@[x]).term@, posting_views(rev@[x].postings@)) == entries_view(all)[n - 1 - x],
            decreases entries.len(),
        {
            let (term, postings) = entries.pop().unwrap();
            rev.push(TermEntry { term, postings });
        }
        while rev.len() > 0
            invariant
                rev@.len() + es@.len() == n,
                n == all.len(),
                forall|x: int| 0 <= x < rev@.len() ==> ((#[trigger] rev@[x]).term@, posting_views(rev@[x].postings@)) == entries_view(all)[n - 1 - x],
                forall|x: int| 0 <= x < es@.len() ==> ((#[trigger] es@[x]).term@, posting_views(es@[x].postings@)) == entries_view(all)[x],
            decreases rev.len(),
        {
            let e = rev.pop().unwrap();
            es.push(e);
        }
        let ix = InvertedIndex { entries: es, doc_lengths: lengths, doc_count, total_length };
        proof {
            assert(ix@ =~= ev);
        }
        Some(ix)
    }
}

} // verus!
