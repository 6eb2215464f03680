//! Breadth-first web crawler.  The crawl is a state machine: the caller
//! performs the network requests (and the politeness delays) that the
//! machine asks for, and hands back what came back; the machine decides
//! what to fetch next, reads robots.txt files, extracts text and links from
//! pages, and feeds the pages into the inverted index and document store.
use vstd::prelude::*;
use crate::index::{document_added, InvertedIndex};
use crate::store::DocumentStore;
use crate::tokenizer::spec_tokenize;
use crate::text::{
    chars_of, push_all, push_char, seq_ascii_lower, seq_starts_with, seq_trim, split_by,
    starts_with, string_from_chars, trim_chars, ascii_lower_chars, lemma_split_by_nonempty,
};

verus! {

// ── Outside computations: URLs and HTML ─────────────────────────────────

/// What `url::Url::parse` followed by `set_fragment(None)` and serialization
/// gives for `s`: `None` when `s` does not parse.
pub uninterp spec fn url_normal_form(s: Seq<char>) -> Option<Seq<char>>;

/// The host of the URL `s` (`Url::host_str`), `None` when `s` does not parse
/// or has no host.
pub uninterp spec fn url_host_of(s: Seq<char>) -> Option<Seq<char>>;

/// The scheme of the URL `s` (`Url::scheme`), `None` when `s` does not parse.
pub uninterp spec fn url_scheme_of(s: Seq<char>) -> Option<Seq<char>>;

/// The path of the URL `s` (`Url::path`), `None` when `s` does not parse.
pub uninterp spec fn url_path_of(s: Seq<char>) -> Option<Seq<char>>;

/// The serialization of `href` resolved against the URL `base`
/// (`Url::join`), `None` when either does not parse.
pub uninterp spec fn url_joined(base: Seq<char>, href: Seq<char>) -> Option<Seq<char>>;

/// The text of the first `<title>` element that `scraper`'s selector yields
/// for the HTML document `html`, if there is one.
pub uninterp spec fn html_title_text(html: Seq<char>) -> Option<Seq<char>>;

/// The `href` attributes of the `<a href>` elements of `html`, in the order
/// in which `scraper`'s selector yields them.
pub uninterp spec fn html_hrefs(html: Seq<char>) -> Seq<Seq<char>>;

/// The nodes of the document tree of `html` in document order (pre-order),
/// each as (element name, text, number of nodes in its subtree).
pub uninterp spec fn html_node_list(html: Seq<char>) -> Seq<(Option<Seq<char>>, Option<Seq<char>>, usize)>;

/// The characters of an optional string.
pub open spec fn opt_chars(o: Option<String>) -> Option<Seq<char>> {
    match o {
        Some(s) => Some(s@),
        None => None,
    }
}

/// Parses `s` with `url::Url::parse`, drops the fragment, and serializes the result.
#[verifier::external_body]
fn url_normalize(s: &str) -> (r: Option<String>)
    ensures
        opt_chars(r) == url_normal_form(s@),
{
    match url::Url::parse(s) {
        Ok(mut u) => {
            u.set_fragment(None);
            Some(u.to_string())
        },
        Err(_) => None,
    }
}

/// Parses `s` with `url::Url::parse` and returns `Url::host_str`.
#[verifier::external_body]
fn url_host(s: &str) -> (r: Option<String>)
    ensures
        opt_chars(r) == url_host_of(s@),
{
    url::Url::parse(s).ok().and_then(|u| u.host_str().map(|h| h.to_string()))
}

/// Parses `s` with `url::Url::parse` and returns `Url::scheme`.
#[verifier::external_body]
fn url_scheme(s: &str) -> (r: Option<String>)
    ensures
        opt_chars(r) == url_scheme_of(s@),
{
    url::Url::parse(s).ok().map(|u| u.scheme().to_string())
}

/// Parses `s` with `url::Url::parse` and returns `Url::path`.
#[verifier::external_body]
fn url_path(s: &str) -> (r: Option<String>)
    ensures
        opt_chars(r) == url_path_of(s@),
{
    url::Url::parse(s).ok().map(|u| u.path().to_string())
}

/// Parses `base` with `url::Url::parse`, resolves `href` with `Url::join`,
/// and serializes the result.
#[verifier::external_body]
fn url_join(base: &str, href: &str) -> (r: Option<String>)
    ensures
        opt_chars(r) == url_joined(base@, href@),
{
    url::Url::parse(base).ok().and_then(|b| b.join(href).ok()).map(|u| u.to_string())
}

/// Parses `html` with `scraper::Html::parse_document` and returns the text
/// of the first element the selector `title` selects.
#[verifier::external_body]
fn html_title(html: &str) -> (r: Option<String>)
    ensures
        opt_chars(r) == html_title_text(html@),
{
    let doc = scraper::Html::parse_document(html);
    let sel = scraper::Selector::parse("title").unwrap();
    doc.select(&sel).next().map(|n| n.text().collect::<String>())
}

/// Parses `html` with `scraper::Html::parse_document` and returns the
/// `href` attribute of every element the selector `a[href]` selects.
#[verifier::external_body]
fn html_links(html: &str) -> (r: Vec<String>)
    ensures
        crate::text::views(r@) == html_hrefs(html@),
{
    let doc = scraper::Html::parse_document(html);
    let sel = scraper::Selector::parse("a[href]").unwrap();
    doc.select(&sel).filter_map(|el| el.value().attr("href").map(|h| h.to_string())).collect()
}

/// A node of a parsed HTML document: its element name, its text, and the
/// number of nodes in its subtree, itself included.
pub struct HtmlNode {
    pub tag: Option<String>,
    pub text: Option<String>,
    pub size: usize,
}

/// The nodes as (element name, text, subtree size).
pub open spec fn node_views(ns: Seq<HtmlNode>) -> Seq<(Option<Seq<char>>, Option<Seq<char>>, usize)> {
    ns.map_values(|n: HtmlNode| (opt_chars(n.tag), opt_chars(n.text), n.size))
}

/// Parses `html` with `scraper::Html::parse_document` and lists the nodes
/// of its tree in pre-order (`descendants` of the root).
#[verifier::external_body]
fn html_nodes(html: &str) -> (r: Vec<HtmlNode>)
    ensures
        node_views(r@) == html_node_list(html@),
{
    let doc = scraper::Html::parse_document(html);
    doc.tree.root().descendants().map(|n| HtmlNode {
        tag: n.value().as_element().map(|e| e.name().to_string()),
        text: n.value().as_text().map(|t| t.to_string()),
        size: n.descendants().count(),
    }).collect()
}

// ── Page extraction ─────────────────────────────────────────────────────

/// Elements whose contents are not page text.
pub open spec fn hidden_tag(t: Seq<char>) -> bool {
    t == "script"@ || t == "style"@ || t == "noscript"@ || t == "template"@
}

/// The non-blank trimmed texts of the nodes from position `i` on, in
/// document order, skipping the subtrees of hidden elements.
pub open spec fn texts_from(ns: Seq<(Option<Seq<char>>, Option<Seq<char>>, usize)>, i: int) -> Seq<Seq<char>>
    decreases ns.len() - i,
{
    if i < 0 || i >= ns.len() {
        Seq::empty()
    } else {
        let n = ns[i];
        let hidden = match n.0 {
            Some(t) => hidden_tag(t),
            None => false,
        };
        if hidden {
            let j = i + if n.2 >= 1 {
                n.2 as int
            } else {
                1
            };
            if j > ns.len() {
                Seq::empty()
            } else {
                texts_from(ns, j)
            }
        } else {
            match n.1 {
                Some(t) => if seq_trim(t).len() > 0 {
                    seq![seq_trim(t)] + texts_from(ns, i + 1)
                } else {
                    texts_from(ns, i + 1)
                },
                None => texts_from(ns, i + 1),
            }
        }
    }
}

/// How many nodes the walk skips at a hidden node of this subtree size.
pub open spec fn span(size: usize) -> int {
    if size >= 1 {
        size as int
    } else {
        1
    }
}

/// The subtree sizes describe a tree listed in pre-order: the subtrees of
/// two nodes are nested or disjoint.
pub open spec fn nested(ns: Seq<(Option<Seq<char>>, Option<Seq<char>>, usize)>) -> bool {
    forall|p: int, k: int|
        0 <= p < k < ns.len() ==> #[trigger] span(ns[p].2) + p <= k || p + span(ns[p].2) >= k + #[trigger] span(
            ns[k].2,
        )
}

/// `ns2` is `ns` with, at most, other texts for the nodes strictly inside the
/// subtree of node `k`.
pub open spec fn differs_inside(
    ns: Seq<(Option<Seq<char>>, Option<Seq<char>>, usize)>,
    ns2: Seq<(Option<Seq<char>>, Option<Seq<char>>, usize)>,
    k: int,
) -> bool {
    &&& ns.len() == ns2.len()
    &&& forall|m: int|
        0 <= m < ns.len() ==> (#[trigger] ns2[m]).0 == ns[m].0 && ns2[m].2 == ns[m].2 && (ns2[m].1
            == ns[m].1 || k < m < k + span(ns[k].2))
}

/// The walk from a position outside the subtree of `k` reads the same texts
/// in both node lists.
proof fn lemma_texts_from_inside(
    ns: Seq<(Option<Seq<char>>, Option<Seq<char>>, usize)>,
    ns2: Seq<(Option<Seq<char>>, Option<Seq<char>>, usize)>,
    k: int,
    i: int,
)
    requires
        0 <= k < ns.len(),
        ns[k].0 matches Some(t) && hidden_tag(t),
        nested(ns),
        differs_inside(ns, ns2, k),
        i <= k || i >= k + span(ns[k].2),
    ensures
        texts_from(ns, i) == texts_from(ns2, i),
    decreases ns.len() - i,
{
    if 0 <= i < ns.len() {
        assert(ns2[i] == ns[i]);
        let n = ns[i];
        let hidden = match n.0 {
            Some(t) => hidden_tag(t),
            None => false,
        };
        if hidden {
            let j = i + span(n.2);
            if i < k {
                assert(span(ns[i].2) + i <= k || i + span(ns[i].2) >= k + span(ns[k].2));
            }
            if j <= ns.len() {
                lemma_texts_from_inside(ns, ns2, k, j);
            }
        } else {
            assert(i != k);
            lemma_texts_from_inside(ns, ns2, k, i + 1);
        }
    }
}

/// The contents of a `<style>` element (or of a `<script>`, `<noscript>` or
/// `<template>` element) never reach the page text: in a node list of a
/// tree, giving the nodes inside such an element other texts leaves the
/// visible texts as they are.
pub proof fn lemma_hidden_contents_ignored(
    ns: Seq<(Option<Seq<char>>, Option<Seq<char>>, usize)>,
    ns2: Seq<(Option<Seq<char>>, Option<Seq<char>>, usize)>,
    k: int,
)
    requires
        0 <= k < ns.len(),
        ns[k].0 == Some("style"@) || ns[k].0 == Some("script"@) || ns[k].0 == Some("noscript"@)
            || ns[k].0 == Some("template"@),
        nested(ns),
        differs_inside(ns, ns2, k),
    ensures
        texts_from(ns, 0) == texts_from(ns2, 0),
        spaced(texts_from(ns, 0).reverse()) == spaced(texts_from(ns2, 0).reverse()),
{
    lemma_texts_from_inside(ns, ns2, k, 0);
}

/// Each piece followed by a space.
pub open spec fn spaced(ps: Seq<Seq<char>>) -> Seq<char>
    decreases ps.len(),
{
    if ps.len() == 0 {
        Seq::empty()
    } else {
        spaced(ps.drop_last()) + ps.last() + seq![' ']
    }
}

/// The text of a page: its visible texts, last first (the order in which a
/// depth-first walk that stacks the children of each node meets them).
pub open spec fn page_text(html: Seq<char>) -> Seq<char> {
    spaced(texts_from(html_node_list(html), 0).reverse())
}

/// The title of a page: the trimmed first title, or the page URL when
/// there is none or it is blank.
pub open spec fn page_title(html: Seq<char>, url: Seq<char>) -> Seq<char> {
    match html_title_text(html) {
        Some(t) => if seq_trim(t).len() > 0 {
            seq_trim(t)
        } else {
            url
        },
        None => url,
    }
}

/// The links of a page: its hrefs resolved against the page URL, keeping
/// those that resolve to http or https URLs, in order.
pub open spec fn page_links(hrefs: Seq<Seq<char>>, url: Seq<char>) -> Seq<Seq<char>>
    decreases hrefs.len(),
{
    if hrefs.len() == 0 {
        Seq::empty()
    } else {
        let rest = page_links(hrefs.drop_last(), url);
        match url_joined(url, hrefs.last()) {
            Some(j) => if url_scheme_of(j) == Some("http"@) || url_scheme_of(j) == Some("https"@) {
                rest.push(j)
            } else {
                rest
            },
            None => rest,
        }
    }
}

/// The text of a page, from its nodes.
fn visible_text(nodes: &Vec<HtmlNode>) -> (r: String)
    ensures
        r@ == spaced(texts_from(node_views(nodes@), 0).reverse()),
{
    let ghost ns = node_views(nodes@);
    let mut pieces: Vec<Vec<char>> = Vec::new();
    let mut i: usize = 0;
    while i < nodes.len()
        invariant
            ns == node_views(nodes@),
            i <= nodes@.len(),
            texts_from(ns, 0) == pieces@.map_values(|p: Vec<char>| p@) + texts_from(ns, i as int),
        decreases nodes.len() - i,
    {
        let ghost before = pieces@.map_values(|p: Vec<char>| p@);
        let n = &nodes[i];
        proof {
            assert(ns[i as int] == (opt_chars(n.tag), opt_chars(n.text), n.size));
        }
        let hidden = match &n.tag {
            Some(t) => {
                let tc = chars_of(t.as_str());
                crate::text::chars_eq(&tc, &chars_of("script")) || crate::text::chars_eq(&tc, &chars_of("style"))
                    || crate::text::chars_eq(&tc, &chars_of("noscript")) || crate::text::chars_eq(&tc, &chars_of("template"))
            },
            None => false,
        };
        if hidden {
            let step: usize = if n.size >= 1 {
                n.size
            } else {
                1
            };
            if step > nodes.len() - i {
                proof {
                    assert(texts_from(ns, i + step) == Seq::<Seq<char>>::empty());
                    assert(pieces@.map_values(|p: Vec<char>| p@) + Seq::<Seq<char>>::empty()
                        =~= pieces@.map_values(|p: Vec<char>| p@));
                }
                i = nodes.len();
            } else {
                i = i + step;
            }
        } else {
            match &n.text {
                Some(t) => {
                    let tr = trim_chars(&chars_of(t.as_str()));
                    if tr.len() > 0 {
                        pieces.push(tr);
                        proof {
                            assert(pieces@.map_values(|p: Vec<char>| p@) =~= before.push(
                                seq_trim(t@),
                            ));
                            assert(before.push(seq_trim(t@)) + texts_from(ns, i + 1) =~= before
                                + (seq![seq_trim(t@)] + texts_from(ns, i + 1)));
                        }
                    }
                },
                None => {},
            }
            i += 1;
        }
    }
    proof {
        assert(texts_from(ns, i as int) == Seq::<Seq<char>>::empty());
        assert(pieces@.map_values(|p: Vec<char>| p@) + Seq::<Seq<char>>::empty() =~= pieces@.map_values(
            |p: Vec<char>| p@,
        ));
    }
    let ghost all = pieces@.map_values(|p: Vec<char>| p@);
    let mut out = String::new();
    let mut k = pieces.len();
    proof {
        assert(all.reverse().take(0) =~= Seq::<Seq<char>>::empty());
    }
    while k > 0
        invariant
            k <= pieces@.len(),
            all == pieces@.map_values(|p: Vec<char>| p@),
            out@ == spaced(all.reverse().take(pieces@.len() - k)),
        decreases k,
    {
        let ghost done = all.reverse().take(pieces@.len() - k);
        let p = &pieces[k - 1];
        let mut j: usize = 0;
        let ghost start = out@;
        while j < p.len()
            invariant
                j <= p@.len(),
                out@ == start + p@.take(j as int),
            decreases p.len() - j,
        {
            push_char(&mut out, p[j]);
            j += 1;
            assert(out@ =~= start + p@.take(j as int));
        }
        push_char(&mut out, ' ');
        proof {
            assert(p@.take(p@.len() as int) =~= p@);
            let next = all.reverse().take(pieces@.len() - k + 1);
            assert(next.drop_last() =~= done);
            assert(next.last() == all[k - 1]);
            assert(out@ =~= spaced(next));
        }
        k -= 1;
    }
    proof {
        assert(all.reverse().take(pieces@.len() as int) =~= all.reverse());
    }
    out
}

/// The title, text and links of a page at `url` with HTML `html`.
pub fn extract(html: &str, url: &str) -> (r: (String, String, Vec<String>))
    ensures
        r.0@ == page_title(html@, url@),
        r.1@ == page_text(html@),
        crate::text::views(r.2@) == page_links(html_hrefs(html@), url@),
{
    let title = match html_title(html) {
        Some(t) => {
            let tr = trim_chars(&chars_of(t.as_str()));
            if tr.len() > 0 {
                string_from_chars(&tr)
            } else {
                url.to_owned()
            }
        },
        None => url.to_owned(),
    };
    let nodes = html_nodes(html);
    let text = visible_text(&nodes);
    let hrefs = html_links(html);
    let ghost hv = crate::text::views(hrefs@);
    let mut links: Vec<String> = Vec::new();
    let mut i: usize = 0;
    while i < hrefs.len()
        invariant
            i <= hrefs@.len(),
            hv == crate::text::views(hrefs@),
            crate::text::views(links@) == page_links(hv.take(i as int), url@),
        decreases hrefs.len() - i,
    {
        proof {
            assert(hv.take(i + 1).drop_last() =~= hv.take(i as int));
            assert(hv.take(i + 1).last() == hrefs@[i as int]@);
        }
        let ghost before = crate::text::views(links@);
        match url_join(url, hrefs[i].as_str()) {
            Some(j) => {
                let keep = match url_scheme(j.as_str()) {
                    Some(s) => crate::text::str_eq(s.as_str(), "http") || crate::text::str_eq(
                        s.as_str(),
                        "https",
                    ),
                    None => false,
                };
                if keep {
                    let ghost jv = j@;
                    links.push(j);
                    proof {
                        assert(crate::text::views(links@) =~= before.push(jv));
                    }
                }
            },
            None => {},
        }
        i += 1;
    }
    proof {
        assert(hv.take(hrefs@.len() as int) =~= hv);
    }
    (title, text, links)
}

// ── robots.txt ──────────────────────────────────────────────────────────

/// Position of the first `c` in `s`, or `s.len()`.
pub open spec fn char_pos(s: Seq<char>, c: char) -> int
    decreases s.len(),
{
    if s.len() == 0 {
        0
    } else if s[0] == c {
        0
    } else {
        1 + char_pos(s.drop_first(), c)
    }
}

/// One line of robots.txt read in state (the current group applies to us,
/// the disallowed prefixes so far): comments after `#` dropped, `key: value`
/// split at the first colon; `User-agent: *` starts a group that applies,
/// another user agent one that does not; `Disallow` with a value adds the
/// value when the group applies.
pub open spec fn robots_line(st: (bool, Seq<Seq<char>>), raw: Seq<char>) -> (bool, Seq<Seq<char>>) {
    let line = seq_trim(raw.take(char_pos(raw, '#')));
    let p = char_pos(line, ':');
    if line.len() == 0 || p >= line.len() {
        st
    } else {
        let k = seq_ascii_lower(seq_trim(line.take(p)));
        let v = seq_trim(line.skip(p + 1));
        if k == "user-agent"@ {
            (v == "*"@, st.1)
        } else if k == "disallow"@ && st.0 && v.len() > 0 {
            (st.0, st.1.push(v))
        } else {
            st
        }
    }
}

/// The state after reading `lines`.
pub open spec fn robots_fold(lines: Seq<Seq<char>>) -> (bool, Seq<Seq<char>>)
    decreases lines.len(),
{
    if lines.len() == 0 {
        (false, Seq::empty())
    } else {
        robots_line(robots_fold(lines.drop_last()), lines.last())
    }
}

/// The path prefixes a robots.txt body disallows for every user agent.
pub open spec fn robots_disallowed(body: Seq<char>) -> Seq<Seq<char>> {
    robots_fold(split_by(body, newline())).1
}

/// The line separator.
pub open spec fn newline() -> spec_fn(char) -> bool {
    |c: char| c == '\n'
}

/// `path` starts with none of the prefixes `rules`.
pub open spec fn path_permitted(rules: Seq<Seq<char>>, path: Seq<char>) -> bool {
    forall|i: int| 0 <= i < rules.len() ==> !seq_starts_with(path, #[trigger] rules[i])
}

/// The rules of a site's robots.txt that apply to every user agent.
pub struct RobotRules {
    disallowed: Vec<String>,
}

impl RobotRules {
    /// The disallowed path prefixes.
    pub closed spec fn prefixes(&self) -> Seq<Seq<char>> {
        crate::text::views(self.disallowed@)
    }

    /// `path` starts with none of the disallowed prefixes.
    pub open spec fn permits(&self, path: Seq<char>) -> bool {
        path_permitted(self.prefixes(), path)
    }

    /// Rules that disallow nothing.
    pub fn allow_all() -> (r: Self)
        ensures
            r.prefixes() == Seq::<Seq<char>>::empty(),
    {
        let r = RobotRules { disallowed: Vec::new() };
        assert(r.prefixes() =~= Seq::<Seq<char>>::empty());
        r
    }

    /// The rules of a robots.txt body.
    pub fn parse(body: &str) -> (r: Self)
        ensures
            r.prefixes() == robots_disallowed(body@),
    {
        let cs = chars_of(body);
        let ghost sep = newline();
        let ghost s = body@;
        let mut disallowed: Vec<String> = Vec::new();
        let mut applies = false;
        let mut line: Vec<char> = Vec::new();
        let mut i: usize = 0;
        proof {
            assert(cs@.take(0) =~= Seq::<char>::empty());
            assert(crate::text::views(disallowed@) =~= Seq::<Seq<char>>::empty());
        }
        while i < cs.len()
            invariant
                i <= cs@.len(),
                cs@ == s,
                sep == newline(),
                (applies, crate::text::views(disallowed@)) == robots_fold(
                    split_by(cs@.take(i as int), sep).drop_last(),
                ),
                line@ == split_by(cs@.take(i as int), sep).last(),
            decreases cs.len() - i,
        {
            let ghost prev = split_by(cs@.take(i as int), sep);
            proof {
                lemma_split_by_nonempty(cs@.take(i as int), sep);
                assert(cs@.take(i + 1).drop_last() =~= cs@.take(i as int));
            }
            if cs[i] == '\n' {
                self::read_line(&mut applies, &mut disallowed, &line);
                proof {
                    assert(prev =~= prev.drop_last().push(prev.last()));
                    assert(prev.push(Seq::<char>::empty()).drop_last() =~= prev);
                }
                line = Vec::new();
            } else {
                proof {
                    assert(prev.update(prev.len() - 1, prev.last().push(cs@[i as int])).drop_last()
                        =~= prev.drop_last());
                }
                line.push(cs[i]);
            }
            i += 1;
        }
        proof {
            let all = split_by(cs@.take(i as int), sep);
            lemma_split_by_nonempty(cs@.take(i as int), sep);
            assert(all =~= all.drop_last().push(all.last()));
            assert(cs@.take(i as int) =~= s);
        }
        self::read_line(&mut applies, &mut disallowed, &line);
        RobotRules { disallowed }
    }

    /// Whether the rules allow fetching `path`.
    pub fn allowed(&self, path: &str) -> (r: bool)
        ensures
            r == self.permits(path@),
    {
        let pc = chars_of(path);
        let mut i: usize = 0;
        while i < self.disallowed.len()
            invariant
                i <= self.disallowed@.len(),
                pc@ == path@,
                forall|k: int| 0 <= k < i ==> !seq_starts_with(path@, #[trigger] self.prefixes()[k]),
            decreases self.disallowed.len() - i,
        {
            let p = chars_of(self.disallowed[i].as_str());
            assert(self.prefixes()[i as int] == self.disallowed@[i as int]@);
            if starts_with(&pc, &p) {
                return false;
            }
            i += 1;
        }
        true
    }
}

/// Reads one robots.txt line into the state.
fn read_line(applies: &mut bool, disallowed: &mut Vec<String>, raw: &Vec<char>)
    ensures
        (*final(applies), crate::text::views(final(disallowed)@)) == robots_line(
            (*old(applies), crate::text::views(old(disallowed)@)),
            raw@,
        ),
{
    let mut h: usize = 0;
    assert(raw@.subrange(0, raw@.len() as int) =~= raw@);
    while h < raw.len() && raw[h] != '#'
        invariant
            h <= raw@.len(),
            char_pos(raw@, '#') == h + char_pos(raw@.subrange(h as int, raw@.len() as int), '#'),
        decreases raw.len() - h,
    {
        let ghost rest = raw@.subrange(h as int, raw@.len() as int);
        assert(rest[0] == raw@[h as int]);
        assert(rest.drop_first() =~= raw@.subrange(h + 1, raw@.len() as int));
        h += 1;
    }
    proof {
        let rest = raw@.subrange(h as int, raw@.len() as int);
        if h < raw@.len() {
            assert(rest[0] == raw@[h as int]);
        }
    }
    let mut head: Vec<char> = Vec::new();
    let mut k: usize = 0;
    while k < h
        invariant
            k <= h <= raw@.len(),
            head@ == raw@.take(k as int),
        decreases h - k,
    {
        head.push(raw[k]);
        k += 1;
        assert(head@ =~= raw@.take(k as int));
    }
    let line = trim_chars(&head);
    if line.len() == 0 {
        return;
    }
    let mut p: usize = 0;
    proof {
        assert(line@.subrange(0, line@.len() as int) =~= line@);
    }
    while p < line.len() && line[p] != ':'
        invariant
            p <= line@.len(),
            char_pos(line@, ':') == p + char_pos(line@.subrange(p as int, line@.len() as int), ':'),
        decreases line.len() - p,
    {
        let ghost rest = line@.subrange(p as int, line@.len() as int);
        assert(rest[0] == line@[p as int]);
        assert(rest.drop_first() =~= line@.subrange(p + 1, line@.len() as int));
        p += 1;
    }
    proof {
        let rest = line@.subrange(p as int, line@.len() as int);
        if p < line@.len() {
            assert(rest[0] == line@[p as int]);
        }
    }
    if p >= line.len() {
        return;
    }
    let mut kpart: Vec<char> = Vec::new();
    let mut vpart: Vec<char> = Vec::new();
    let mut q: usize = 0;
    while q < line.len()
        invariant
            q <= line@.len(),
            p < line@.len(),
            q <= p ==> kpart@ == line@.take(q as int) && vpart@ == Seq::<char>::empty(),
            q > p ==> kpart@ == line@.take(p as int) && vpart@ == line@.subrange(p + 1, q as int),
        decreases line.len() - q,
    {
        if q < p {
            kpart.push(line[q]);
            assert(kpart@ =~= line@.take(q + 1));
        } else if q > p {
            vpart.push(line[q]);
            assert(vpart@ =~= line@.subrange(p + 1, q + 1));
        } else {
            assert(vpart@ =~= line@.subrange(p + 1, q + 1));
        }
        q += 1;
    }
    assert(line@.subrange(p + 1, line@.len() as int) =~= line@.skip(p + 1));
    let key = ascii_lower_chars(&trim_chars(&kpart));
    let val = trim_chars(&vpart);
    if crate::text::chars_eq(&key, &chars_of("user-agent")) {
        *applies = crate::text::chars_eq(&val, &chars_of("*"));
    } else if crate::text::chars_eq(&key, &chars_of("disallow")) && *applies && val.len() > 0 {
        let ghost before = crate::text::views(disallowed@);
        disallowed.push(string_from_chars(&val));
        assert(crate::text::views(disallowed@) =~= before.push(val@));
    }
}

// ── Crawl settings and results ──────────────────────────────────────────

/// Crawl settings.
pub struct CrawlConfig {
    pub max_pages: usize,
    pub max_depth: u32,
    pub delay_ms: u64,
    pub same_domain_only: bool,
    pub user_agent: String,
    pub timeout_secs: u64,
}

impl Default for CrawlConfig {
    /// At most 50 pages, two links deep, half a second between requests to
    /// a host, one domain, a ten-second timeout.
    fn default() -> (r: Self)
        ensures
            r.max_pages == 50,
            r.max_depth == 2,
            r.delay_ms == 500,
            r.same_domain_only,
            r.user_agent@ == "ZehnyasearchBot/0.1"@,
            r.timeout_secs == 10,
    {
        CrawlConfig {
            max_pages: 50,
            max_depth: 2,
            delay_ms: 500,
            same_domain_only: true,
            user_agent: "ZehnyasearchBot/0.1".to_owned(),
            timeout_secs: 10,
        }
    }
}

/// What a crawl did.
pub struct CrawlStats {
    pub pages_fetched: usize,
    pub pages_indexed: usize,
    pub pages_skipped: usize,
    pub bytes_fetched: u64,
    pub elapsed: std::time::Duration,
    /// Outbound links of each page indexed in this crawl, as sorted document ids.
    pub link_graph: Vec<Vec<u32>>,
    /// URL → document id for the pages known to the crawl.
    pub url_map: Vec<(String, u32)>,
}

/// What the crawler asks its caller to do next.
pub enum CrawlAction {
    /// Fetch `url`, the robots.txt of `host`, and hand the body (if any) to `robots_fetched`.
    FetchRobots { host: String, url: String },
    /// Fetch the page `url` on `host`; hand the response to `page_fetched`,
    /// or call `fetch_failed`.
    FetchPage { url: String, host: String },
    /// Nothing left to fetch: call `finish`.
    Done,
}

/// What the crawler does with a URL taken from the frontier.
pub enum Verdict {
    /// The URL does not parse, or lacks a host, scheme or path: dropped.
    Drop,
    /// A host outside the seeds' domains (when crawling one domain), or a path
    /// robots.txt disallows: skipped and counted.
    Skip,
    /// The robots.txt of the host (at this URL) is needed first.
    NeedRobots(Seq<char>, Seq<char>),
    /// Fetch the page from this host.
    Fetch(Seq<char>),
}

/// The value stored under key `k` in an association list (the last entry
/// with that key).
pub open spec fn lookup<V>(list: Seq<(Seq<char>, V)>, k: Seq<char>) -> Option<V>
    decreases list.len(),
{
    if list.len() == 0 {
        None
    } else if list.last().0 == k {
        Some(list.last().1)
    } else {
        lookup(list.drop_last(), k)
    }
}

/// The URL of a host's robots.txt.
pub open spec fn robots_url(scheme: Seq<char>, host: Seq<char>) -> Seq<char> {
    scheme + "://"@ + host + "/robots.txt"@
}

/// The visited URLs and the frontier after queuing the links `ls` at depth
/// `d`: each link, normalized, that was not visited yet.
pub open spec fn expand(
    visited: Seq<Seq<char>>,
    frontier: Seq<(Seq<char>, u32)>,
    ls: Seq<Seq<char>>,
    d: u32,
) -> (Seq<Seq<char>>, Seq<(Seq<char>, u32)>)
    decreases ls.len(),
{
    if ls.len() == 0 {
        (visited, frontier)
    } else {
        let (v, f) = expand(visited, frontier, ls.drop_last(), d);
        match url_normal_form(ls.last()) {
            Some(n) => if v.contains(n) {
                (v, f)
            } else {
                (v.push(n), f.push((n, d)))
            },
            None => (v, f),
        }
    }
}

/// The normalized forms of the links that have one.
pub open spec fn normal_forms(ls: Seq<Seq<char>>) -> Seq<Seq<char>>
    decreases ls.len(),
{
    if ls.len() == 0 {
        Seq::empty()
    } else {
        match url_normal_form(ls.last()) {
            Some(n) => normal_forms(ls.drop_last()).push(n),
            None => normal_forms(ls.drop_last()),
        }
    }
}

/// The hosts of the seeds that parse.
pub open spec fn seed_hosts_of(seeds: Seq<Seq<char>>) -> Seq<Seq<char>>
    decreases seeds.len(),
{
    if seeds.len() == 0 {
        Seq::empty()
    } else {
        let prev = seed_hosts_of(seeds.drop_last());
        match (url_normal_form(seeds.last()), url_host_of(seeds.last())) {
            (Some(_), Some(h)) => prev.push(h),
            _ => prev,
        }
    }
}

/// A content type the crawler reads: HTML or plain text.
pub open spec fn readable_type(ct: Seq<char>) -> bool {
    crate::text::seq_contains_seq(seq_ascii_lower(ct), "text/html"@)
        || crate::text::seq_contains_seq(seq_ascii_lower(ct), "text/plain"@)
}

/// Whether a response of this content type is read: HTML or plain text,
/// in any letter case.
pub fn readable_content_type(content_type: &str) -> (r: bool)
    ensures
        r == readable_type(content_type@),
{
    let ct = ascii_lower_chars(&chars_of(content_type));
    crate::text::contains_chars(&ct, &chars_of("text/html"))
        || crate::text::contains_chars(&ct, &chars_of("text/plain"))
}

/// `a + b`, or the largest value when that does not fit.
pub open spec fn sat_add(a: int, b: int, max: int) -> int {
    if a + b > max {
        max
    } else {
        a + b
    }
}

// ── The crawl ───────────────────────────────────────────────────────────

/// A crawl in progress.
pub struct Crawl {
    max_pages: usize,
    max_depth: u32,
    same_domain_only: bool,
    frontier: Vec<(String, u32)>,
    head: usize,
    visited: Vec<String>,
    seed_hosts: Vec<String>,
    robots: Vec<(String, RobotRules)>,
    url_to_id: Vec<(String, u32)>,
    outbound: Vec<Vec<String>>,
    current: Option<(String, u32)>,
    pages_fetched: usize,
    pages_indexed: usize,
    pages_skipped: usize,
    bytes_fetched: u64,
}

/// The URLs of a frontier, in order.
pub open spec fn urls_of(f: Seq<(Seq<char>, u32)>) -> Seq<Seq<char>> {
    f.map_values(|e: (Seq<char>, u32)| e.0)
}

/// Queuing links keeps the frontier listing the visited URLs, each once.
pub proof fn lemma_expand_keeps_urls(visited: Seq<Seq<char>>, frontier: Seq<(Seq<char>, u32)>, ls: Seq<Seq<char>>, d: u32)
    requires
        visited == urls_of(frontier),
        visited.no_duplicates(),
    ensures
        expand(visited, frontier, ls, d).0 == urls_of(expand(visited, frontier, ls, d).1),
        expand(visited, frontier, ls, d).0.no_duplicates(),
    decreases ls.len(),
{
    if ls.len() > 0 {
        lemma_expand_keeps_urls(visited, frontier, ls.drop_last(), d);
        let (v, f) = expand(visited, frontier, ls.drop_last(), d);
        match url_normal_form(ls.last()) {
            Some(n) => {
                if !v.contains(n) {
                    assert(urls_of(f.push((n, d))) =~= v.push(n));
                    assert forall|i: int, j: int| 0 <= i < j < v.push(n).len() implies v.push(n)[i] != v.push(n)[j] by {
                        if j == v.len() {
                            assert(v[i] != n);
                        }
                    }
                }
            },
            None => {},
        }
    }
}

/// Queuing links at depth at most `b` keeps every depth of the frontier at
/// most `b`.
pub proof fn lemma_expand_depths(visited: Seq<Seq<char>>, frontier: Seq<(Seq<char>, u32)>, ls: Seq<Seq<char>>, d: u32, b: u32)
    requires
        d <= b,
        forall|i: int| 0 <= i < frontier.len() ==> #[trigger] frontier[i].1 <= b,
    ensures
        forall|i: int|
            0 <= i < expand(visited, frontier, ls, d).1.len() ==> #[trigger] expand(visited, frontier, ls, d).1[i].1
                <= b,
    decreases ls.len(),
{
    if ls.len() > 0 {
        lemma_expand_depths(visited, frontier, ls.drop_last(), d, b);
        let (v, f) = expand(visited, frontier, ls.drop_last(), d);
        match url_normal_form(ls.last()) {
            Some(n) => {
                if !v.contains(n) {
                    assert forall|i: int| 0 <= i < f.push((n, d)).len() implies #[trigger] f.push((n, d))[i].1 <= b by {
                        if i < f.len() {
                            assert(f.push((n, d))[i] == f[i]);
                        }
                    }
                }
            },
            None => {},
        }
    }
}

/// The views of an association list with `u32` values.
pub open spec fn id_views(list: Seq<(String, u32)>) -> Seq<(Seq<char>, u32)> {
    list.map_values(|e: (String, u32)| (e.0@, e.1))
}

/// The views of a frontier.
pub open spec fn frontier_views(list: Seq<(String, u32)>) -> Seq<(Seq<char>, u32)> {
    id_views(list)
}

impl Crawl {
    /// The queue of (URL, depth) pairs, in order; entries before `head()` are done.
    pub closed spec fn frontier(&self) -> Seq<(Seq<char>, u32)> {
        frontier_views(self.frontier@)
    }

    pub closed spec fn head(&self) -> int {
        self.head as int
    }

    /// URLs ever queued.
    pub closed spec fn visited(&self) -> Seq<Seq<char>> {
        crate::text::views(self.visited@)
    }

    /// Hosts of the seed URLs.
    pub closed spec fn seed_hosts(&self) -> Seq<Seq<char>> {
        crate::text::views(self.seed_hosts@)
    }

    /// Robots rules read so far, by host.
    pub closed spec fn robots(&self) -> Seq<(Seq<char>, Seq<Seq<char>>)> {
        self.robots@.map_values(|e: (String, RobotRules)| (e.0@, e.1.prefixes()))
    }

    /// URL → document id of the known pages.
    pub closed spec fn url_ids(&self) -> Seq<(Seq<char>, u32)> {
        id_views(self.url_to_id@)
    }

    /// Outbound links (normalized) of each page indexed in this crawl.
    pub closed spec fn outbound(&self) -> Seq<Seq<Seq<char>>> {
        self.outbound@.map_values(|l: Vec<String>| crate::text::views(l@))
    }

    /// The page being fetched, with its depth.
    pub closed spec fn current(&self) -> Option<(Seq<char>, u32)> {
        match self.current {
            Some(c) => Some((c.0@, c.1)),
            None => None,
        }
    }

    pub closed spec fn settings(&self) -> (usize, u32, bool) {
        (self.max_pages, self.max_depth, self.same_domain_only)
    }

    /// (fetched, indexed, skipped, bytes).
    pub closed spec fn counters(&self) -> (usize, usize, usize, u64) {
        (self.pages_fetched, self.pages_indexed, self.pages_skipped, self.bytes_fetched)
    }

    /// The crawl's invariant: the frontier lists the visited URLs, each once;
    /// no more pages were indexed than allowed, and one is being fetched only
    /// while more may be.
    pub closed spec fn wf(&self) -> bool {
        &&& self.head <= self.frontier@.len()
        &&& self.current is Some ==> self.pages_indexed < self.max_pages
        &&& self.pages_indexed <= self.max_pages
        &&& self.outbound@.len() == self.pages_indexed
        &&& self.visited() == urls_of(self.frontier())
        &&& self.visited().no_duplicates()
        &&& forall|i: int| 0 <= i < self.frontier().len() ==> #[trigger] self.frontier()[i].1 <= self.max_depth
        &&& self.current matches Some(c) ==> c.1 <= self.max_depth
    }

    /// Each URL enters the frontier at most once, so no page is fetched twice
    /// in a crawl; no URL is queued more links away from a seed than the
    /// depth limit; and no more pages are indexed than the settings allow.
    pub proof fn lemma_each_url_once(&self)
        requires
            self.wf(),
        ensures
            forall|i: int, j: int|
                0 <= i < j < self.frontier().len() ==> self.frontier()[i].0 != self.frontier()[j].0,
            forall|i: int| 0 <= i < self.frontier().len() ==> #[trigger] self.frontier()[i].1 <= self.settings().1,
            self.current() matches Some(c) ==> c.1 <= self.settings().1,
            self.counters().1 <= self.settings().0,
    {
        assert forall|i: int, j: int| 0 <= i < j < self.frontier().len() implies self.frontier()[i].0
            != self.frontier()[j].0 by {
            assert(self.visited()[i] == self.frontier()[i].0);
            assert(self.visited()[j] == self.frontier()[j].0);
        }
    }

    /// A page is fetched only from an allowed host (a seed host, when the
    /// crawl keeps to one domain), and only when that host's robots.txt,
    /// already read, permits the page's path.
    pub proof fn lemma_fetch_allowed(&self, url: Seq<char>, h: Seq<char>)
        requires
            self.verdict(url) == Verdict::Fetch(h),
        ensures
            url_host_of(url) == Some(h),
            self.settings().2 ==> self.seed_hosts().contains(h),
            lookup(self.robots(), h) is Some,
            url_path_of(url) is Some,
            path_permitted(lookup(self.robots(), h)->0, url_path_of(url)->0),
    {
    }

    /// What happens to the frontier entry with URL `url`.
    pub open spec fn verdict(&self, url: Seq<char>) -> Verdict {
        match url_host_of(url) {
            None => Verdict::Drop,
            Some(h) => if self.settings().2 && !self.seed_hosts().contains(h) {
                Verdict::Skip
            } else {
                match lookup(self.robots(), h) {
                    None => match url_scheme_of(url) {
                        None => Verdict::Drop,
                        Some(sc) => Verdict::NeedRobots(h, robots_url(sc, h)),
                    },
                    Some(rules) => match url_path_of(url) {
                        None => Verdict::Drop,
                        Some(p) => if path_permitted(rules, p) {
                            Verdict::Fetch(h)
                        } else {
                            Verdict::Skip
                        },
                    },
                }
            },
        }
    }

    /// Number of entries in positions `lo..hi` of the frontier that are skipped.
    pub open spec fn skips(&self, lo: int, hi: int) -> int
        decreases hi - lo,
    {
        if lo >= hi {
            0
        } else {
            self.skips(lo, hi - 1) + if self.verdict(self.frontier()[hi - 1].0) is Skip {
                1int
            } else {
                0int
            }
        }
    }
}

/// Position of the last entry with key `k`, if any.
fn find_rules(list: &Vec<(String, RobotRules)>, k: &str) -> (r: Option<usize>)
    ensures
        match r {
            Some(i) => i < list@.len() && lookup(
                list@.map_values(|e: (String, RobotRules)| (e.0@, e.1.prefixes())),
                k@,
            ) == Some(list@[i as int].1.prefixes()),
            None => lookup(list@.map_values(|e: (String, RobotRules)| (e.0@, e.1.prefixes())), k@) is None,
        },
{
    let ghost lv = list@.map_values(|e: (String, RobotRules)| (e.0@, e.1.prefixes()));
    let mut i = list.len();
    proof {
        assert(lv.take(lv.len() as int) =~= lv);
    }
    while i > 0
        invariant
            i <= list@.len(),
            lv == list@.map_values(|e: (String, RobotRules)| (e.0@, e.1.prefixes())),
            lookup(lv, k@) == lookup(lv.take(i as int), k@),
        decreases i,
    {
        proof {
            assert(lv.take(i as int).drop_last() =~= lv.take(i - 1));
            assert(lv.take(i as int).last() == lv[i - 1]);
        }
        if crate::text::str_eq(list[i - 1].0.as_str(), k) {
            return Some(i - 1);
        }
        i -= 1;
    }
    None
}

/// Position of the last entry with key `k`, if any.
fn find_id(list: &Vec<(String, u32)>, k: &str) -> (r: Option<usize>)
    ensures
        match r {
            Some(i) => i < list@.len() && lookup(id_views(list@), k@) == Some(list@[i as int].1),
            None => lookup(id_views(list@), k@) is None,
        },
{
    let ghost lv = id_views(list@);
    let mut i = list.len();
    proof {
        assert(lv.take(lv.len() as int) =~= lv);
    }
    while i > 0
        invariant
            i <= list@.len(),
            lv == id_views(list@),
            lookup(lv, k@) == lookup(lv.take(i as int), k@),
        decreases i,
    {
        proof {
            assert(lv.take(i as int).drop_last() =~= lv.take(i - 1));
            assert(lv.take(i as int).last() == lv[i - 1]);
        }
        if crate::text::str_eq(list[i - 1].0.as_str(), k) {
            return Some(i - 1);
        }
        i -= 1;
    }
    None
}

/// Queues the links `links` at depth `d`, as `expand` says.
fn queue_links(visited: &mut Vec<String>, frontier: &mut Vec<(String, u32)>, links: &Vec<String>, d: u32)
    ensures
        (crate::text::views(final(visited)@), frontier_views(final(frontier)@)) == expand(
            crate::text::views(old(visited)@),
            frontier_views(old(frontier)@),
            crate::text::views(links@),
            d,
        ),
{
    let ghost lv = crate::text::views(links@);
    let ghost v0 = crate::text::views(visited@);
    let ghost f0 = frontier_views(frontier@);
    let mut i: usize = 0;
    proof {
        assert(lv.take(0) =~= Seq::<Seq<char>>::empty());
    }
    while i < links.len()
        invariant
            i <= links@.len(),
            lv == crate::text::views(links@),
            (crate::text::views(visited@), frontier_views(frontier@)) == expand(v0, f0, lv.take(i as int), d),
        decreases links.len() - i,
    {
        proof {
            assert(lv.take(i + 1).drop_last() =~= lv.take(i as int));
            assert(lv.take(i + 1).last() == links@[i as int]@);
        }
        match url_normalize(links[i].as_str()) {
            Some(n) => {
                if !crate::text::has_str(visited, n.as_str()) {
                    let ghost bv = crate::text::views(visited@);
                    let ghost bf = frontier_views(frontier@);
                    let ghost nv = n@;
                    visited.push(n.clone());
                    frontier.push((n, d));
                    proof {
                        assert(crate::text::views(visited@) =~= bv.push(nv));
                        assert(frontier_views(frontier@) =~= bf.push((nv, d)));
                    }
                }
            },
            None => {},
        }
        i += 1;
    }
    proof {
        assert(lv.take(links@.len() as int) =~= lv);
    }
}

impl Crawl {
    /// A crawl from `seeds`: every seed that parses is queued (normalized,
    /// once) at depth 0, and its host is a seed host.  `existing` maps the
    /// URLs of pages already indexed to their document ids.
    pub fn start(seeds: &[String], config: &CrawlConfig, existing: &[(String, u32)]) -> (r: Self)
        ensures
            r.wf(),
            r.head() == 0,
            r.current() is None,
            r.settings() == (config.max_pages, config.max_depth, config.same_domain_only),
            r.counters() == (0usize, 0usize, 0usize, 0u64),
            r.robots() == Seq::<(Seq<char>, Seq<Seq<char>>)>::empty(),
            r.outbound() == Seq::<Seq<Seq<char>>>::empty(),
            r.url_ids() == id_views(existing@),
            r.seed_hosts() == seed_hosts_of(crate::text::views(seeds@)),
            (r.visited(), r.frontier()) == expand(
                Seq::empty(),
                Seq::empty(),
                crate::text::views(seeds@),
                0,
            ),
    {
        let mut url_to_id: Vec<(String, u32)> = Vec::new();
        let mut e: usize = 0;
        while e < existing.len()
            invariant
                e <= existing@.len(),
                id_views(url_to_id@) == id_views(existing@).take(e as int),
            decreases existing.len() - e,
        {
            let ghost before = id_views(url_to_id@);
            url_to_id.push((existing[e].0.clone(), existing[e].1));
            proof {
                assert(id_views(url_to_id@) =~= before.push((existing@[e as int].0@, existing@[e as int].1)));
                assert(id_views(url_to_id@) =~= id_views(existing@).take(e + 1));
            }
            e += 1;
        }
        proof {
            assert(id_views(existing@).take(existing@.len() as int) =~= id_views(existing@));
        }
        let mut seed_hosts: Vec<String> = Vec::new();
        let mut visited: Vec<String> = Vec::new();
        let mut frontier: Vec<(String, u32)> = Vec::new();
        let ghost sv = crate::text::views(seeds@);
        let mut i: usize = 0;
        proof {
            assert(sv.take(0) =~= Seq::<Seq<char>>::empty());
            assert(crate::text::views(visited@) =~= Seq::<Seq<char>>::empty());
            assert(frontier_views(frontier@) =~= Seq::<(Seq<char>, u32)>::empty());
            assert(crate::text::views(seed_hosts@) =~= Seq::<Seq<char>>::empty());
        }
        while i < seeds.len()
            invariant
                i <= seeds@.len(),
                sv == crate::text::views(seeds@),
                crate::text::views(seed_hosts@) == seed_hosts_of(sv.take(i as int)),
                (crate::text::views(visited@), frontier_views(frontier@)) == expand(
                    Seq::empty(),
                    Seq::empty(),
                    sv.take(i as int),
                    0,
                ),
            decreases seeds.len() - i,
        {
            proof {
                assert(sv.take(i + 1).drop_last() =~= sv.take(i as int));
                assert(sv.take(i + 1).last() == seeds@[i as int]@);
            }
            let s = seeds[i].as_str();
            match url_normalize(s) {
                Some(n) => {
                    match url_host(s) {
                        Some(h) => {
                            let ghost bh = crate::text::views(seed_hosts@);
                            seed_hosts.push(h);
                            proof {
                                assert(crate::text::views(seed_hosts@) =~= bh.push(seed_hosts@.last()@));
                            }
                        },
                        None => {},
                    }
                    if !crate::text::has_str(&visited, n.as_str()) {
                        let ghost bv = crate::text::views(visited@);
                        let ghost bf = frontier_views(frontier@);
                        let ghost nv = n@;
                        visited.push(n.clone());
                        frontier.push((n, 0));
                        proof {
                            assert(crate::text::views(visited@) =~= bv.push(nv));
                            assert(frontier_views(frontier@) =~= bf.push((nv, 0u32)));
                        }
                    }
                },
                None => {},
            }
            i += 1;
        }
        proof {
            assert(sv.take(seeds@.len() as int) =~= sv);
            assert(urls_of(Seq::<(Seq<char>, u32)>::empty()) =~= Seq::<Seq<char>>::empty());
            lemma_expand_keeps_urls(Seq::empty(), Seq::empty(), sv, 0);
            lemma_expand_depths(Seq::empty(), Seq::empty(), sv, 0, config.max_depth);
        }
        let r = Crawl {
            max_pages: config.max_pages,
            max_depth: config.max_depth,
            same_domain_only: config.same_domain_only,
            frontier,
            head: 0,
            visited,
            seed_hosts,
            robots: Vec::new(),
            url_to_id,
            outbound: Vec::new(),
            current: None,
            pages_fetched: 0,
            pages_indexed: 0,
            pages_skipped: 0,
            bytes_fetched: 0,
        };
        proof {
            assert(r.robots() =~= Seq::<(Seq<char>, Seq<Seq<char>>)>::empty());
            assert(r.outbound() =~= Seq::<Seq<Seq<char>>>::empty());
        }
        r
    }

    /// The number of pages indexed so far.
    pub fn pages_indexed(&self) -> (r: usize)
        ensures
            r == self.counters().1,
    {
        self.pages_indexed
    }
}

impl Crawl {
    /// The parts of the crawl that only the fetching of pages changes.
    pub open spec fn same_layout(&self, other: &Crawl) -> bool {
        &&& self.frontier() == other.frontier()
        &&& self.visited() == other.visited()
        &&& self.seed_hosts() == other.seed_hosts()
        &&& self.robots() == other.robots()
        &&& self.url_ids() == other.url_ids()
        &&& self.outbound() == other.outbound()
        &&& self.settings() == other.settings()
    }

    /// Takes URLs from the frontier until one needs fetching: URLs that do
    /// not parse are dropped, those of other domains (when crawling one
    /// domain) or disallowed by robots.txt are skipped and counted.  Asks for
    /// the robots.txt of a host not seen yet, for the page otherwise, and
    /// says `Done` when the frontier is exhausted or enough pages were indexed.
    pub fn next_action(&mut self) -> (r: CrawlAction)
        requires
            old(self).wf(),
        ensures
            final(self).wf(),
            final(self).same_layout(old(self)),
            final(self).counters().0 == old(self).counters().0,
            final(self).counters().1 == old(self).counters().1,
            final(self).counters().3 == old(self).counters().3,
            old(self).head() <= final(self).head() <= final(self).frontier().len(),
            match r {
                CrawlAction::Done => {
                    &&& final(self).current() is None
                    &&& final(self).head() == final(self).frontier().len() || old(self).counters().1
                        >= old(self).settings().0
                    &&& forall|k: int|
                        old(self).head() <= k < final(self).head() ==> !(old(self).verdict(
                            #[trigger] old(self).frontier()[k].0,
                        ) is NeedRobots || old(self).verdict(old(self).frontier()[k].0) is Fetch)
                    &&& final(self).counters().2 == sat_add(
                        old(self).counters().2 as int,
                        old(self).skips(old(self).head(), final(self).head()),
                        usize::MAX as int,
                    )
                },
                CrawlAction::FetchRobots { host, url } => {
                    &&& final(self).current() is None
                    &&& final(self).head() < final(self).frontier().len()
                    &&& old(self).verdict(old(self).frontier()[final(self).head()].0)
                        == Verdict::NeedRobots(host@, url@)
                    &&& forall|k: int|
                        old(self).head() <= k < final(self).head() ==> !(old(self).verdict(
                            #[trigger] old(self).frontier()[k].0,
                        ) is NeedRobots || old(self).verdict(old(self).frontier()[k].0) is Fetch)
                    &&& final(self).counters().2 == sat_add(
                        old(self).counters().2 as int,
                        old(self).skips(old(self).head(), final(self).head()),
                        usize::MAX as int,
                    )
                },
                CrawlAction::FetchPage { url, host } => {
                    &&& final(self).head() >= 1
                    &&& old(self).verdict(old(self).frontier()[final(self).head() - 1].0)
                        == Verdict::Fetch(host@)
                    &&& url@ == old(self).frontier()[final(self).head() - 1].0
                    &&& final(self).current() == Some(old(self).frontier()[final(self).head() - 1])
                    &&& forall|k: int|
                        old(self).head() <= k < final(self).head() - 1 ==> !(old(self).verdict(
                            #[trigger] old(self).frontier()[k].0,
                        ) is NeedRobots || old(self).verdict(old(self).frontier()[k].0) is Fetch)
                    &&& final(self).counters().2 == sat_add(
                        old(self).counters().2 as int,
                        old(self).skips(old(self).head(), final(self).head() - 1),
                        usize::MAX as int,
                    )
                },
            },
    {
        let ghost h0 = self.head as int;
        let ghost s0 = self.pages_skipped as int;
        self.current = None;
        let ghost start = *self;
        loop
            invariant
                self.wf(),
                self.same_layout(old(self)),
                self.current is None,
                self.pages_fetched == old(self).pages_fetched,
                self.pages_indexed == old(self).pages_indexed,
                self.bytes_fetched == old(self).bytes_fetched,
                h0 == old(self).head(),
                s0 == old(self).counters().2,
                h0 <= self.head <= self.frontier@.len(),
                self.pages_skipped == sat_add(s0, old(self).skips(h0, self.head as int), usize::MAX as int),
                forall|k: int|
                    h0 <= k < self.head ==> !(old(self).verdict(#[trigger] old(self).frontier()[k].0) is NeedRobots
                        || old(self).verdict(old(self).frontier()[k].0) is Fetch),
            decreases self.frontier@.len() - self.head,
        {
            if self.head >= self.frontier.len() || self.pages_indexed >= self.max_pages {
                return CrawlAction::Done;
            }
            let ghost hk = self.head as int;
            let url_str = self.frontier[self.head].0.clone();
            let depth = self.frontier[self.head].1;
            proof {
                assert(old(self).frontier()[hk] == (url_str@, depth));
                assert(old(self).skips(h0, hk + 1) == old(self).skips(h0, hk) + if old(self).verdict(
                    url_str@,
                ) is Skip {
                    1int
                } else {
                    0int
                });
            }
            match url_host(url_str.as_str()) {
                None => {
                    self.head = self.head + 1;
                },
                Some(host) => {
                    if self.same_domain_only && !crate::text::has_str(&self.seed_hosts, host.as_str()) {
                        proof {
                            let hs = host@;
                            assert(url_host_of(url_str@) == Some(hs));
                            assert(old(self).settings().2 && !old(self).seed_hosts().contains(hs));
                            assert(old(self).verdict(url_str@) == Verdict::Skip);
                        }
                        self.pages_skipped = self.pages_skipped.saturating_add(1);
                        self.head = self.head + 1;
                    } else {
                        match find_rules(&self.robots, host.as_str()) {
                            None => {
                                match url_scheme(url_str.as_str()) {
                                    None => {
                                        self.head = self.head + 1;
                                    },
                                    Some(sc) => {
                                        let mut ru = sc;
                                        push_all(&mut ru, "://");
                                        push_all(&mut ru, host.as_str());
                                        push_all(&mut ru, "/robots.txt");
                                        return CrawlAction::FetchRobots { host, url: ru };
                                    },
                                }
                            },
                            Some(ri) => {
                                match url_path(url_str.as_str()) {
                                    None => {
                                        self.head = self.head + 1;
                                    },
                                    Some(p) => {
                                        if self.robots[ri].1.allowed(p.as_str()) {
                                            proof {
                                                assert(self.frontier()[hk].1 == depth);
                                                assert(depth <= self.max_depth);
                                            }
                                            self.head = self.head + 1;
                                            self.current = Some((url_str.clone(), depth));
                                            return CrawlAction::FetchPage { url: url_str, host };
                                        } else {
                                            proof {
                                                let rules = self.robots@[ri as int].1.prefixes();
                                                assert(!path_permitted(rules, p@));
                                                let hs = host@;
                                                assert(url_host_of(url_str@) == Some(hs));
                                                assert(!(old(self).settings().2 && !old(self).seed_hosts().contains(hs)));
                                                assert(lookup(old(self).robots(), hs) == Some(rules));
                                                assert(url_path_of(url_str@) == Some(p@));
                                                assert(old(self).verdict(url_str@) == Verdict::Skip);
                                            }
                                            self.pages_skipped = self.pages_skipped.saturating_add(1);
                                            self.head = self.head + 1;
                                        }
                                    },
                                }
                            },
                        }
                    }
                },
            }
        }
    }

    /// Records the robots.txt of `host`: its rules when a body came back,
    /// no rules when the fetch failed.
    pub fn robots_fetched(&mut self, host: String, body: Option<String>)
        requires
            old(self).wf(),
        ensures
            final(self).wf(),
            final(self).frontier() == old(self).frontier(),
            final(self).head() == old(self).head(),
            final(self).current() == old(self).current(),
            final(self).counters() == old(self).counters(),
            final(self).visited() == old(self).visited(),
            final(self).url_ids() == old(self).url_ids(),
            final(self).settings() == old(self).settings(),
            final(self).seed_hosts() == old(self).seed_hosts(),
            final(self).outbound() == old(self).outbound(),
            final(self).robots() == old(self).robots().push(
                (
                    host@,
                    match body {
                        Some(b) => robots_disallowed(b@),
                        None => Seq::<Seq<char>>::empty(),
                    },
                ),
            ),
    {
        let rules = match &body {
            Some(b) => RobotRules::parse(b.as_str()),
            None => RobotRules::allow_all(),
        };
        let ghost before = self.robots();
        let ghost hv = host@;
        let ghost pv = rules.prefixes();
        self.robots.push((host, rules));
        proof {
            assert(self.robots() =~= before.push((hv, pv)));
        }
    }

    /// The page could not be fetched: it counts as skipped.
    pub fn fetch_failed(&mut self)
        requires
            old(self).wf(),
        ensures
            final(self).wf(),
            final(self).same_layout(old(self)),
            final(self).head() == old(self).head(),
            final(self).current() is None,
            final(self).counters() == (
                old(self).counters().0,
                old(self).counters().1,
                sat_add(old(self).counters().2 as int, 1, usize::MAX as int) as usize,
                old(self).counters().3,
            ),
    {
        self.current = None;
        self.pages_skipped = self.pages_skipped.saturating_add(1);
    }
}

/// A page with this text fits in the index and the store: their counters
/// have room for one more document of this many tokens.
pub open spec fn room_for(index: InvertedIndex, store: DocumentStore, text: Seq<char>) -> bool {
    &&& store.next() < u32::MAX
    &&& index.count() < u32::MAX
    &&& index.total() + (spec_tokenize(text).len() as u32) <= u64::MAX
}

impl Crawl {
    /// The page asked for by the last `FetchPage` came back with content type
    /// `content_type` and body `body` (`None` when it could not be read).
    /// Pages of another type, or unreadable, count as skipped.  Otherwise the
    /// page is read: a page not indexed before, with some text, is added to
    /// the store and the index (when they have room), and its links recorded;
    /// a blank new page counts as skipped.  Links of pages above the depth
    /// limit are queued.  Returns the id of the new document, if one was added.
    #[verifier::rlimit(30)]
    pub fn page_fetched(
        &mut self,
        content_type: &str,
        body: Option<String>,
        index: &mut InvertedIndex,
        store: &mut DocumentStore,
    ) -> (r: Option<u32>)
        requires
            old(self).wf(),
            old(self).current() is Some,
            old(index).wf(),
            old(store).wf(),
        ensures
            final(self).wf(),
            final(index).wf(),
            final(store).wf(),
            final(self).current() is None,
            final(self).head() == old(self).head(),
            final(self).seed_hosts() == old(self).seed_hosts(),
            final(self).robots() == old(self).robots(),
            final(self).settings() == old(self).settings(),
            final(self).counters().0 == sat_add(old(self).counters().0 as int, 1, usize::MAX as int),
            ({
                let (u, d) = old(self).current()->0;
                let readable = readable_type(content_type@) && body is Some;
                let b = body->0@;
                let text = page_text(b);
                let links = page_links(html_hrefs(b), u);
                let new_page = lookup(old(self).url_ids(), u) is None && seq_trim(text).len() > 0;
                let expanded = if d < old(self).settings().1 {
                    expand(old(self).visited(), old(self).frontier(), links, (d + 1) as u32)
                } else {
                    (old(self).visited(), old(self).frontier())
                };
                &&& !readable ==> {
                    &&& r is None
                    &&& final(self).counters().2 == sat_add(old(self).counters().2 as int, 1, usize::MAX as int)
                    &&& final(self).counters().1 == old(self).counters().1
                    &&& final(self).counters().3 == old(self).counters().3
                    &&& final(self).same_layout(old(self))
                    &&& *final(index) == *old(index)
                    &&& *final(store) == *old(store)
                }
                &&& readable ==> {
                    &&& final(self).counters().3 == sat_add(old(self).counters().3 as int, crate::text::byte_len(b) as int, u64::MAX as int)
                    &&& (final(self).visited(), final(self).frontier()) == expanded
                    &&& new_page && room_for(*old(index), *old(store), text) ==> r is Some
                    &&& match r {
                        Some(id) => {
                            &&& new_page
                            &&& id == old(store).next()
                            &&& final(store).docs() == old(store).docs().insert(id, final(store).docs()[id])
                            &&& final(store).docs()[id].id == id
                            &&& final(store).docs()[id].path@ == u
                            &&& final(store).docs()[id].title@ == page_title(b, u)
                            &&& final(store).docs()[id].body@ == text
                            &&& final(store).next() == id + 1
                            &&& document_added(*old(index), *final(index), id, text)
                            &&& final(self).url_ids() == old(self).url_ids().push((u, id))
                            &&& final(self).outbound() == old(self).outbound().push(normal_forms(links))
                            &&& final(self).counters().1 == old(self).counters().1 + 1
                            &&& final(self).counters().2 == old(self).counters().2
                        },
                        None => {
                            &&& *final(index) == *old(index)
                            &&& *final(store) == *old(store)
                            &&& final(self).url_ids() == old(self).url_ids()
                            &&& final(self).outbound() == old(self).outbound()
                            &&& final(self).counters().1 == old(self).counters().1
                            &&& final(self).counters().2 == if lookup(old(self).url_ids(), u) is None {
                                sat_add(old(self).counters().2 as int, 1, usize::MAX as int)
                            } else {
                                old(self).counters().2 as int
                            }
                        },
                    }
                }
            }),
    {
        let (url_str, depth) = match &self.current {
            Some(c) => (c.0.clone(), c.1),
            None => {
                return None;
            },
        };
        self.current = None;
        self.pages_fetched = self.pages_fetched.saturating_add(1);
        let ct = ascii_lower_chars(&chars_of(content_type));
        let html_ok = crate::text::contains_chars(&ct, &chars_of("text/html"));
        let plain_ok = crate::text::contains_chars(&ct, &chars_of("text/plain"));
        if !html_ok && !plain_ok {
            self.pages_skipped = self.pages_skipped.saturating_add(1);
            return None;
        }
        let body = match body {
            Some(b) => b,
            None => {
                self.pages_skipped = self.pages_skipped.saturating_add(1);
                return None;
            },
        };
        let nbytes = body.as_str().as_bytes().len() as u64;
        self.bytes_fetched = self.bytes_fetched.saturating_add(nbytes);
        let (title, text, links) = extract(body.as_str(), url_str.as_str());
        let mut added: Option<u32> = None;
        if find_id(&self.url_to_id, url_str.as_str()).is_none() {
            let tt = trim_chars(&chars_of(text.as_str()));
            if tt.len() == 0 {
                self.pages_skipped = self.pages_skipped.saturating_add(1);
            } else {
                let ntok = crate::tokenizer::tokenize(text.as_str()).len();
                let fits = store.count() < 4294967295usize && index.doc_count() < 4294967295u32
                    && (index.total_length() as u128) + ((#[verifier::truncate] (ntok as u32)) as u128) <= 18446744073709551615u128;
                if fits {
                    let doc_id = store.add(url_str.clone(), title, text.clone());
                    index.add_document(doc_id, text.as_str());
                    let ghost ub = id_views(self.url_to_id@);
                    self.url_to_id.push((url_str.clone(), doc_id));
                    let norm = normalize_all(&links);
                    let ghost ob = self.outbound();
                    let ghost nv = crate::text::views(norm@);
                    self.outbound.push(norm);
                    self.pages_indexed = self.pages_indexed + 1;
                    proof {
                        assert(id_views(self.url_to_id@) =~= ub.push((url_str@, doc_id)));
                        assert(self.outbound() =~= ob.push(nv));
                    }
                    added = Some(doc_id);
                } else {
                    self.pages_skipped = self.pages_skipped.saturating_add(1);
                }
            }
        }
        if depth < self.max_depth {
            let ghost f0 = self.frontier();
            queue_links(&mut self.visited, &mut self.frontier, &links, depth + 1);
            proof {
                lemma_expand_grows(old(self).visited(), f0, crate::text::views(links@), (depth + 1) as u32);
                lemma_expand_keeps_urls(old(self).visited(), f0, crate::text::views(links@), (depth + 1) as u32);
                lemma_expand_depths(old(self).visited(), f0, crate::text::views(links@), (depth + 1) as u32, self.max_depth);
            }
        }
        added
    }
}

/// The normalized forms of `links` that have one.
fn normalize_all(links: &Vec<String>) -> (r: Vec<String>)
    ensures
        crate::text::views(r@) == normal_forms(crate::text::views(links@)),
{
    let ghost lv = crate::text::views(links@);
    let mut r: Vec<String> = Vec::new();
    let mut i: usize = 0;
    proof {
        assert(lv.take(0) =~= Seq::<Seq<char>>::empty());
        assert(crate::text::views(r@) =~= Seq::<Seq<char>>::empty());
    }
    while i < links.len()
        invariant
            i <= links@.len(),
            lv == crate::text::views(links@),
            crate::text::views(r@) == normal_forms(lv.take(i as int)),
        decreases links.len() - i,
    {
        proof {
            assert(lv.take(i + 1).drop_last() =~= lv.take(i as int));
            assert(lv.take(i + 1).last() == links@[i as int]@);
        }
        let ghost before = crate::text::views(r@);
        match url_normalize(links[i].as_str()) {
            Some(n) => {
                let ghost nv = n@;
                r.push(n);
                proof {
                    assert(crate::text::views(r@) =~= before.push(nv));
                }
            },
            None => {},
        }
        i += 1;
    }
    proof {
        assert(lv.take(links@.len() as int) =~= lv);
    }
    r
}

/// Queuing links only appends to the frontier.
pub proof fn lemma_expand_grows(visited: Seq<Seq<char>>, frontier: Seq<(Seq<char>, u32)>, ls: Seq<Seq<char>>, d: u32)
    ensures
        expand(visited, frontier, ls, d).1.len() >= frontier.len(),
        expand(visited, frontier, ls, d).1.take(frontier.len() as int) == frontier,
    decreases ls.len(),
{
    if ls.len() > 0 {
        lemma_expand_grows(visited, frontier, ls.drop_last(), d);
        let (v, f) = expand(visited, frontier, ls.drop_last(), d);
        assert(f.push((ls.last(), d)).take(frontier.len() as int) =~= f.take(frontier.len() as int));
        match url_normal_form(ls.last()) {
            Some(n) => {
                assert(f.push((n, d)).take(frontier.len() as int) =~= f.take(frontier.len() as int));
            },
            None => {},
        }
    }
}

/// The ids of the known pages among the URLs `list`.
pub open spec fn resolved_ids(list: Seq<Seq<char>>, ids: Seq<(Seq<char>, u32)>) -> Set<u32> {
    Set::new(|x: u32| exists|j: int| 0 <= j < list.len() && lookup(ids, list[j]) == Some(x))
}

/// `v` is strictly increasing.
pub open spec fn increasing(v: Seq<u32>) -> bool {
    forall|i: int, j: int| 0 <= i < j < v.len() ==> v[i] < v[j]
}

/// Adds `x` to the increasing list `v`, unless it is there.
fn insert_sorted(v: &mut Vec<u32>, x: u32)
    requires
        increasing(old(v)@),
    ensures
        increasing(final(v)@),
        final(v)@.to_set() == old(v)@.to_set().insert(x),
{
    let ghost before = v@;
    let mut pos: usize = 0;
    while pos < v.len() && v[pos] < x
        invariant
            pos <= v@.len(),
            v@ == before,
            forall|k: int| 0 <= k < pos ==> v@[k] < x,
        decreases v.len() - pos,
    {
        pos += 1;
    }
    if pos < v.len() && v[pos] == x {
        assert(v@.to_set() =~= before.to_set().insert(x)) by {
            assert(before.to_set().contains(x));
        }
        return;
    }
    v.insert(pos, x);
    proof {
        assert(v@ == before.insert(pos as int, x));
        assert forall|i: int, j: int| 0 <= i < j < v@.len() implies v@[i] < v@[j] by {
            if j < pos {
                assert(v@[i] == before[i] && v@[j] == before[j]);
            } else if j == pos {
                assert(v@[i] == before[i]);
            } else if i < pos {
                assert(v@[i] == before[i] && v@[j] == before[j - 1]);
                assert(before[j - 1] > x || before[j - 1] >= before[pos as int]);
            } else if i == pos {
                assert(v@[j] == before[j - 1]);
                assert(before[pos as int] > x);
                assert(before[j - 1] >= before[pos as int]);
            } else {
                assert(v@[i] == before[i - 1] && v@[j] == before[j - 1]);
            }
        }
        assert forall|y: u32| v@.to_set().contains(y) <==> before.to_set().insert(x).contains(y) by {
            if v@.to_set().contains(y) {
                let k = choose|k: int| 0 <= k < v@.len() && v@[k] == y;
                if k < pos {
                    assert(before[k] == y);
                } else if k > pos {
                    assert(before[k - 1] == y);
                }
            }
            if before.to_set().contains(y) {
                let k = choose|k: int| 0 <= k < before.len() && before[k] == y;
                if k < pos {
                    assert(v@[k] == y);
                } else {
                    assert(v@[k + 1] == y);
                }
            }
            if y == x {
                assert(v@[pos as int] == x);
            }
        }
        assert(v@.to_set() =~= before.to_set().insert(x));
    }
}

impl Crawl {
    /// The results of the crawl: the counters, the outbound links of each page
    /// indexed in this crawl as sorted ids of known pages, and the URL → id map.
    pub fn finish(self, elapsed: std::time::Duration) -> (r: CrawlStats)
        requires
            self.wf(),
        ensures
            r.pages_fetched == self.counters().0,
            r.pages_indexed == self.counters().1,
            r.pages_skipped == self.counters().2,
            r.bytes_fetched == self.counters().3,
            r.elapsed == elapsed,
            id_views(r.url_map@) == self.url_ids(),
            r.link_graph@.len() == self.outbound().len(),
            forall|i: int|
                0 <= i < r.link_graph@.len() ==> increasing((#[trigger] r.link_graph@[i])@)
                    && r.link_graph@[i]@.to_set() == resolved_ids(self.outbound()[i], self.url_ids()),
    {
        let ghost ob = self.outbound();
        let ghost ids = self.url_ids();
        let mut graph: Vec<Vec<u32>> = Vec::new();
        let mut i: usize = 0;
        while i < self.outbound.len()
            invariant
                i <= self.outbound@.len(),
                ob == self.outbound(),
                ids == self.url_ids(),
                graph@.len() == i,
                forall|k: int|
                    0 <= k < i ==> increasing((#[trigger] graph@[k])@) && graph@[k]@.to_set()
                        == resolved_ids(ob[k], ids),
            decreases self.outbound.len() - i,
        {
            let dsts = &self.outbound[i];
            let ghost dv = crate::text::views(dsts@);
            assert(dv == ob[i as int]);
            let mut ids_i: Vec<u32> = Vec::new();
            let mut j: usize = 0;
            proof {
                assert(ids_i@.to_set() =~= Set::<u32>::empty());
            }
            while j < dsts.len()
                invariant
                    j <= dsts@.len(),
                    dv == crate::text::views(dsts@),
                    ids == id_views(self.url_to_id@),
                    increasing(ids_i@),
                    ids_i@.to_set() == Set::new(
                        |x: u32| exists|jj: int| 0 <= jj < j && lookup(ids, dv[jj]) == Some(x),
                    ),
                decreases dsts.len() - j,
            {
                let ghost before = ids_i@.to_set();
                match find_id(&self.url_to_id, dsts[j].as_str()) {
                    Some(k) => {
                        let id = self.url_to_id[k].1;
                        insert_sorted(&mut ids_i, id);
                        proof {
                            assert(dv[j as int] == dsts@[j as int]@);
                            assert(ids_i@.to_set() =~= Set::new(
                                |x: u32| exists|jj: int| 0 <= jj < j + 1 && lookup(ids, dv[jj]) == Some(x),
                            )) by {
                                assert forall|x: u32| before.insert(id).contains(x) <==> exists|jj: int|
                                    0 <= jj < j + 1 && lookup(ids, dv[jj]) == Some(x) by {
                                    if x == id {
                                        assert(lookup(ids, dv[j as int]) == Some(x));
                                    }
                                    if exists|jj: int| 0 <= jj < j + 1 && lookup(ids, dv[jj]) == Some(x) {
                                        let jj = choose|jj: int| 0 <= jj < j + 1 && lookup(ids, dv[jj]) == Some(x);
                                        if jj < j {
                                            assert(before.contains(x));
                                        }
                                    }
                                }
                            }
                        }
                    },
                    None => {
                        proof {
                            assert(dv[j as int] == dsts@[j as int]@);
                            assert(ids_i@.to_set() =~= Set::new(
                                |x: u32| exists|jj: int| 0 <= jj < j + 1 && lookup(ids, dv[jj]) == Some(x),
                            )) by {
                                assert forall|x: u32| before.contains(x) <==> exists|jj: int|
                                    0 <= jj < j + 1 && lookup(ids, dv[jj]) == Some(x) by {
                                    if exists|jj: int| 0 <= jj < j + 1 && lookup(ids, dv[jj]) == Some(x) {
                                        let jj = choose|jj: int| 0 <= jj < j + 1 && lookup(ids, dv[jj]) == Some(x);
                                        if jj == j {
                                            assert(lookup(ids, dv[j as int]) is None);
                                        }
                                    }
                                }
                            }
                        }
                    },
                }
                j += 1;
            }
            proof {
                assert(ids_i@.to_set() =~= resolved_ids(ob[i as int], ids));
            }
            graph.push(ids_i);
            i += 1;
        }
        CrawlStats {
            pages_fetched: self.pages_fetched,
            pages_indexed: self.pages_indexed,
            pages_skipped: self.pages_skipped,
            bytes_fetched: self.bytes_fetched,
            elapsed,
            link_graph: graph,
            url_map: self.url_to_id,
        }
    }
}

} // verus!
