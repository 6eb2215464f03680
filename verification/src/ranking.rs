//! Phrase matching: which documents hold the terms of a phrase at
//! consecutive positions; and whether a query shares a token with a text.
//! (Scores themselves are floating point and are computed around the library.)
use vstd::prelude::*;
use crate::tokenizer::{spec_tokenize, tokenize};
use crate::index::{posting_views, postings_in, IndexView, InvertedIndex, Posting, PostingView};

verus! {

/// Document `d` has a posting in `ps`.
pub open spec fn doc_in(ps: Seq<PostingView>, d: u32) -> bool {
    exists|i: int| 0 <= i < ps.len() && ps[i].0 == d
}

/// The positions of the first posting of document `d` in `ps` (none if there is none).
pub open spec fn positions_in(ps: Seq<PostingView>, d: u32) -> Seq<u32>
    decreases ps.len(),
{
    if ps.len() == 0 {
        Seq::empty()
    } else if ps[0].0 == d {
        ps[0].2
    } else {
        positions_in(ps.drop_first(), d)
    }
}

/// Some position `s` of the first list is followed by `s + 1` in the
/// second list, `s + 2` in the third, and so on.
pub open spec fn consecutive(pos: Seq<Seq<u32>>) -> bool {
    &&& pos.len() > 0
    &&& exists|k: int| 0 <= k < pos[0].len() && #[trigger] starts_run(pos, k)
}

/// `list` holds the position `want`.
pub open spec fn holds(list: Seq<u32>, want: int) -> bool {
    exists|j: int| 0 <= j < list.len() && list[j] == want
}

/// The `k`-th position of the first list starts a run through the others.
pub open spec fn starts_run(pos: Seq<Seq<u32>>, k: int) -> bool {
    forall|i: int| 1 <= i < pos.len() ==> holds(#[trigger] pos[i], pos[0][k] + i)
}

/// For each term, its positions in document `d`.
pub open spec fn term_positions(v: IndexView, terms: Seq<Seq<char>>, d: u32) -> Seq<Seq<u32>> {
    Seq::new(terms.len(), |t: int| positions_in(postings_in(v, terms[t]), d))
}

/// Document `d` holds every term, and holds them as a phrase.
pub open spec fn phrase_match(v: IndexView, terms: Seq<Seq<char>>, d: u32) -> bool {
    &&& forall|t: int| 1 <= t < terms.len() ==> doc_in(postings_in(v, #[trigger] terms[t]), d)
    &&& consecutive(term_positions(v, terms, d))
}

/// The documents of `ds`, in order, that match the phrase.
pub open spec fn keep_phrase_docs(ds: Seq<u32>, v: IndexView, terms: Seq<Seq<char>>) -> Seq<u32>
    decreases ds.len(),
{
    if ds.len() == 0 {
        Seq::empty()
    } else if phrase_match(v, terms, ds.last()) {
        keep_phrase_docs(ds.drop_last(), v, terms).push(ds.last())
    } else {
        keep_phrase_docs(ds.drop_last(), v, terms)
    }
}

/// The documents matching the phrase: those listed for its first term that
/// match, in that order.
pub open spec fn phrase_spec(v: IndexView, terms: Seq<Seq<char>>) -> Seq<u32> {
    if terms.len() == 0 {
        Seq::empty()
    } else {
        keep_phrase_docs(postings_in(v, terms[0]).map_values(|p: PostingView| p.0), v, terms)
    }
}

/// Whether some position of the first list starts a run through the others.
pub fn has_consecutive_positions(positions: &[Vec<u32>]) -> (r: bool)
    ensures
        r == consecutive(positions@.map_values(|p: Vec<u32>| p@)),
{
    let ghost pv = positions@.map_values(|p: Vec<u32>| p@);
    if positions.len() == 0 || positions[0].len() == 0 {
        return false;
    }
    let first = &positions[0];
    let mut k: usize = 0;
    while k < first.len()
        invariant
            positions@.len() > 0,
            first@ == pv[0],
            pv == positions@.map_values(|p: Vec<u32>| p@),
            k <= first@.len(),
            forall|kk: int| 0 <= kk < k ==> !#[trigger] starts_run(pv, kk),
        decreases first.len() - k,
    {
        let start = first[k] as u128;
        let mut found = true;
        let mut i: usize = 1;
        while i < positions.len() && found
            invariant
                1 <= i <= positions@.len(),
                k < pv[0].len(),
                pv == positions@.map_values(|p: Vec<u32>| p@),
                start == pv[0][k as int],
                found == forall|ii: int| 1 <= ii < i ==> holds(#[trigger] pv[ii], start + ii),
            decreases positions.len() - i,
        {
            let list = &positions[i];
            assert(list@ == pv[i as int]);
            let want = start + i as u128;
            let mut hit = false;
            let mut j: usize = 0;
            while j < list.len() && !hit
                invariant
                    j <= list@.len(),
                    want == start + i,
                    hit == exists|jj: int| 0 <= jj < j && list@[jj] == want,
                decreases list.len() - j,
            {
                if list[j] as u128 == want {
                    hit = true;
                }
                j += 1;
            }
            if !hit {
                found = false;
            }
            i += 1;
        }
        if found {
            proof {
                assert(starts_run(pv, k as int));
            }
            return true;
        }
        proof {
            assert(!starts_run(pv, k as int)) by {
                let ii = choose|ii: int| 1 <= ii < i && !holds(#[trigger] pv[ii], start + ii);
            }
        }
        k += 1;
    }
    false
}

/// Whether `ps` holds a posting of document `d`.
fn has_doc(ps: &[Posting], d: u32) -> (r: bool)
    ensures
        r == doc_in(posting_views(ps@), d),
{
    let mut i: usize = 0;
    while i < ps.len()
        invariant
            i <= ps@.len(),
            forall|k: int| 0 <= k < i ==> ps@[k].doc_id != d,
        decreases ps.len() - i,
    {
        if ps[i].doc_id == d {
            assert(posting_views(ps@)[i as int].0 == d);
            return true;
        }
        i += 1;
    }
    assert forall|k: int| 0 <= k < ps@.len() implies posting_views(ps@)[k].0 != d by {
        assert(posting_views(ps@)[k] == ps@[k]@);
    }
    false
}

/// The positions of the first posting of document `d` in `ps`.
fn find_positions(ps: &[Posting], d: u32) -> (r: Vec<u32>)
    ensures
        r@ == positions_in(posting_views(ps@), d),
{
    let ghost pv = posting_views(ps@);
    assert(pv.subrange(0, pv.len() as int) =~= pv);
    let mut i: usize = 0;
    while i < ps.len()
        invariant
            i <= ps@.len(),
            pv == posting_views(ps@),
            positions_in(pv, d) == positions_in(pv.subrange(i as int, pv.len() as int), d),
        decreases ps.len() - i,
    {
        let ghost rest = pv.subrange(i as int, pv.len() as int);
        assert(rest[0] == ps@[i as int]@);
        if ps[i].doc_id == d {
            let src = &ps[i].positions;
            let mut out: Vec<u32> = Vec::new();
            let mut k: usize = 0;
            while k < src.len()
                invariant
                    k <= src@.len(),
                    out@ == src@.take(k as int),
                decreases src.len() - k,
            {
                out.push(src[k]);
                k += 1;
                assert(out@ =~= src@.take(k as int));
            }
            assert(src@.take(src@.len() as int) =~= src@);
            return out;
        }
        assert(rest.drop_first() =~= pv.subrange(i + 1, pv.len() as int));
        i += 1;
    }
    assert(pv.subrange(i as int, pv.len() as int) =~= Seq::<PostingView>::empty());
    Vec::new()
}

/// The documents in which `terms` occur as a phrase, in the order of the
/// postings of the first term.
pub fn phrase_docs(index: &InvertedIndex, terms: &[String]) -> (r: Vec<u32>)
    requires
        index.wf(),
    ensures
        r@ == phrase_spec(index@, crate::text::views(terms@)),
{
    let ghost v = index@;
    let ghost ts = crate::text::views(terms@);
    let mut out: Vec<u32> = Vec::new();
    if terms.len() == 0 {
        return out;
    }
    let first = index.get_postings(terms[0].as_str());
    let ghost ds = postings_in(v, ts[0]).map_values(|p: PostingView| p.0);
    let mut i: usize = 0;
    while i < first.len()
        invariant
            index.wf(),
            v == index@,
            ts == crate::text::views(terms@),
            ts.len() > 0,
            posting_views(first@) == postings_in(v, ts[0]),
            ds == postings_in(v, ts[0]).map_values(|p: PostingView| p.0),
            i <= first@.len(),
            out@ == keep_phrase_docs(ds.take(i as int), v, ts),
        decreases first.len() - i,
    {
        let d = first[i].doc_id;
        proof {
            assert(ds.take(i + 1).drop_last() =~= ds.take(i as int));
            assert(posting_views(first@)[i as int] == first@[i as int]@);
            assert(ds.take(i + 1).last() == d);
        }
        let mut all = true;
        let mut t: usize = 1;
        while t < terms.len() && all
            invariant
                index.wf(),
                v == index@,
                ts == crate::text::views(terms@),
                1 <= t <= terms@.len(),
                all == forall|tt: int| 1 <= tt < t ==> doc_in(postings_in(v, #[trigger] ts[tt]), d),
            decreases terms.len() - t,
        {
            let ps = index.get_postings(terms[t].as_str());
            proof {
                assert(ts[t as int] == terms@[t as int]@);
            }
            if !has_doc(ps, d) {
                all = false;
            }
            t += 1;
        }
        if all {
            let mut positions: Vec<Vec<u32>> = Vec::new();
            let mut t2: usize = 0;
            while t2 < terms.len()
                invariant
                    index.wf(),
                    v == index@,
                    ts == crate::text::views(terms@),
                    t2 <= terms@.len(),
                    positions@.len() == t2,
                    forall|tt: int|
                        0 <= tt < t2 ==> (#[trigger] positions@[tt])@ == positions_in(
                            postings_in(v, ts[tt]),
                            d,
                        ),
                decreases terms.len() - t2,
            {
                let ps = index.get_postings(terms[t2].as_str());
                proof {
                    assert(ts[t2 as int] == terms@[t2 as int]@);
                }
                positions.push(find_positions(ps, d));
                t2 += 1;
            }
            let hit = has_consecutive_positions(&positions);
            proof {
                assert(positions@.map_values(|p: Vec<u32>| p@) =~= term_positions(v, ts, d));
            }
            if hit {
                out.push(d);
            }
        }
        i += 1;
    }
    proof {
        assert(ds.take(first@.len() as int) =~= ds);
    }
    out
}


/// Some term of `a` is also a term of `b`.
pub open spec fn share_term(a: Seq<Seq<char>>, b: Seq<Seq<char>>) -> bool {
    exists|i: int| 0 <= i < a.len() && b.contains(#[trigger] a[i])
}

/// Whether `query` and `text` have a token in common (after tokenizing and
/// stemming both): what decides the title and URL boosts of a result.
pub fn shares_token(query: &str, text: &str) -> (r: bool)
    ensures
        r == share_term(spec_tokenize(query@), spec_tokenize(text@)),
{
    let q = tokenize(query);
    let t = tokenize(text);
    let ghost qv = crate::text::views(q@);
    let ghost tv = crate::text::views(t@);
    let mut i: usize = 0;
    while i < q.len()
        invariant
            i <= q@.len(),
            qv == crate::text::views(q@),
            tv == crate::text::views(t@),
            qv == spec_tokenize(query@),
            tv == spec_tokenize(text@),
            forall|k: int| 0 <= k < i ==> !tv.contains(#[trigger] qv[k]),
        decreases q.len() - i,
    {
        if crate::text::has_str(&t, q[i].as_str()) {
            assert(tv.contains(qv[i as int]));
            return true;
        }
        i += 1;
    }
    false
}

} // verus!
