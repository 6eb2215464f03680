//! The pages of the search UI: the landing page and the results page, as
//! HTML text.  (Serving them over HTTP, and the timing and scores they show,
//! are the caller's.)
use vstd::prelude::*;
use crate::store::{snippet_text, DocumentStore};
use crate::text::{chars_of, decimal, push_all, push_char, seq_starts_with, split_ws, starts_with, usize_to_decimal, views};

verus! {

/// The start of every page: document head, style sheet, body start.
pub const HEAD: &'static str = r#"<!doctype html>
<html lang="en">
<head>
<meta charset="utf-8">
<meta name="viewport" content="width=device-width, initial-scale=1">
<title>Zehnyasearch</title>
<style>
  *{box-sizing:border-box}
  body{font-family:system-ui,-apple-system,Segoe UI,Roboto,sans-serif;margin:0;color:#202124;background:#fff}
  a{color:#1a0dab;text-decoration:none}
  a:hover{text-decoration:underline}
  header{display:flex;align-items:center;gap:24px;padding:16px 28px;border-bottom:1px solid #ebebeb}
  .brand{font-size:22px;font-weight:600;color:#4285f4;text-decoration:none}
  .searchbar{flex:1;display:flex;gap:8px;max-width:640px}
  .searchbar input{flex:1;padding:10px 16px;font-size:15px;border:1px solid #dfe1e5;border-radius:24px;outline:none}
  .searchbar input:focus{border-color:#4285f4;box-shadow:0 1px 6px rgba(32,33,36,0.16)}
  .searchbar button,.bigform button{padding:10px 20px;font-size:14px;border:0;background:#4285f4;color:#fff;border-radius:24px;cursor:pointer}
  .meta{padding:12px 28px;color:#70757a;font-size:13px}
  .suggest{padding:8px 28px 8px;font-size:16px;color:#70757a}
  .suggest a{color:#1a0dab;font-size:18px}
  .suggest a:hover{text-decoration:underline}
  .empty{padding:40px 28px;color:#70757a}
  .results{padding:0 28px 40px;max-width:720px}
  .result{margin:0 0 28px}
  .result .url{color:#202124;font-size:12px;margin-bottom:2px;word-break:break-all}
  .result .title{font-size:20px;line-height:1.3;color:#1a0dab}
  .result .snippet{color:#4d5156;font-size:14px;line-height:1.58;margin-top:4px}
  .result .score{color:#9aa0a6;font-size:11px;margin-top:4px;font-family:ui-monospace,monospace}
  .landing{max-width:600px;margin:120px auto;padding:0 24px;text-align:center}
  .landing h1{font-weight:300;font-size:64px;color:#4285f4;margin:0 0 32px}
  .bigform{display:flex;gap:8px}
  .bigform input{flex:1;padding:14px 20px;font-size:16px;border:1px solid #dfe1e5;border-radius:28px;outline:none}
  .bigform input:focus{border-color:#4285f4;box-shadow:0 1px 6px rgba(32,33,36,0.16)}
</style>
</head>
<body>"#;

/// The end of every page.
pub const FOOTER: &'static str = "</body></html>";

/// The landing section of the home page.
pub const LANDING: &'static str = r#"<div class="landing">
  <h1>Zehnyasearch</h1>
  <form action="/" method="get" class="bigform">
    <input name="q" type="text" autofocus placeholder="Search the crawled web...">
    <button>Search</button>
  </form>
</div>"#;

/// The HTML escape of one character.
pub open spec fn escape_char(c: char) -> Seq<char> {
    if c == '&' {
        "&amp;"@
    } else if c == '<' {
        "&lt;"@
    } else if c == '>' {
        "&gt;"@
    } else if c == '"' {
        "&quot;"@
    } else if c == '\'' {
        "&#39;"@
    } else {
        seq![c]
    }
}

/// `s` with `&`, `<`, `>`, `"` and `'` written as HTML entities.
pub open spec fn escape(s: Seq<char>) -> Seq<char>
    decreases s.len(),
{
    if s.len() == 0 {
        Seq::empty()
    } else {
        escape(s.drop_last()) + escape_char(s.last())
    }
}

/// Escapes `s` for HTML text and attribute values.
pub fn esc(s: &str) -> (r: String)
    ensures
        r@ == escape(s@),
{
    let cs = chars_of(s);
    let mut out = String::new();
    let mut i: usize = 0;
    while i < cs.len()
        invariant
            i <= cs@.len(),
            cs@ == s@,
            out@ == escape(cs@.take(i as int)),
        decreases cs.len() - i,
    {
        let c = cs[i];
        let ghost before = out@;
        if c == '&' {
            push_all(&mut out, "&amp;");
        } else if c == '<' {
            push_all(&mut out, "&lt;");
        } else if c == '>' {
            push_all(&mut out, "&gt;");
        } else if c == '"' {
            push_all(&mut out, "&quot;");
        } else if c == '\'' {
            push_all(&mut out, "&#39;");
        } else {
            push_char(&mut out, c);
            assert(out@ =~= before + seq![c]);
        }
        proof {
            assert(cs@.take(i + 1).drop_last() =~= cs@.take(i as int));
            assert(cs@.take(i + 1).last() == c);
        }
        i += 1;
    }
    proof {
        assert(cs@.take(cs@.len() as int) =~= cs@);
    }
    out
}

/// The home page.
pub open spec fn home_page_text() -> Seq<char> {
    HEAD@ + LANDING@ + FOOTER@
}

/// The home page: a search form.
pub fn home_page() -> (r: String)
    ensures
        r@ == home_page_text(),
{
    let mut out = String::new();
    push_all(&mut out, HEAD);
    push_all(&mut out, LANDING);
    push_all(&mut out, FOOTER);
    out
}

/// The top of a results page, with the search bar filled in with `q`.
pub open spec fn header_text(q: Seq<char>) -> Seq<char> {
    HEAD@ + "<header>\n  <a class=\"brand\" href=\"/\">Zehnyasearch</a>\n  <form action=\"/\" method=\"get\" class=\"searchbar\">\n    <input name=\"q\" type=\"text\" value=\""@
        + escape(q) + "\">\n    <button>Search</button>\n  </form>\n</header>"@
}

/// The top of a results page.
pub fn header(query: &str) -> (r: String)
    ensures
        r@ == header_text(query@),
{
    let mut out = String::new();
    push_all(&mut out, HEAD);
    push_all(
        &mut out,
        "<header>\n  <a class=\"brand\" href=\"/\">Zehnyasearch</a>\n  <form action=\"/\" method=\"get\" class=\"searchbar\">\n    <input name=\"q\" type=\"text\" value=\"",
    );
    push_all(&mut out, esc(query).as_str());
    push_all(&mut out, "\">\n    <button>Search</button>\n  </form>\n</header>");
    out
}

/// One result to show: the document, the terms that matched it, and its
/// score as text.
pub struct ResultEntry {
    pub doc_id: u32,
    pub matched_terms: Vec<String>,
    pub score: String,
}

/// A path shown as a link: a web URL.
pub open spec fn is_web_url(p: Seq<char>) -> bool {
    seq_starts_with(p, "http://"@) || seq_starts_with(p, "https://"@)
}

/// The HTML of one result.
pub open spec fn result_text(path: Seq<char>, title: Seq<char>, snippet: Seq<char>, score: Seq<char>) -> Seq<char> {
    let link = if is_web_url(path) {
        "<a class=\"title\" href=\""@ + escape(path) + "\" target=\"_blank\" rel=\"noopener\">"@
            + escape(title) + "</a>"@
    } else {
        "<span class=\"title\">"@ + escape(title) + "</span>"@
    };
    "<div class=\"result\"><div class=\"url\">"@ + escape(path) + "</div>"@ + link
        + "<div class=\"snippet\">"@ + escape(snippet) + "</div><div class=\"score\">score "@ + score
        + "</div></div>"@
}

/// The HTML of the results whose documents are in the store, in order.
pub open spec fn results_text(store: DocumentStore, rs: Seq<ResultEntry>) -> Seq<char>
    decreases rs.len(),
{
    if rs.len() == 0 {
        Seq::empty()
    } else {
        let r = rs.last();
        let rest = results_text(store, rs.drop_last());
        if store.docs().contains_key(r.doc_id) {
            let d = store.docs()[r.doc_id];
            rest + result_text(
                d.path@,
                d.title@,
                snippet_text(split_ws(d.body@), views(r.matched_terms@), 14),
                r.score@,
            )
        } else {
            rest
        }
    }
}

/// The suggestion line: "Showing results for" when there are no results,
/// "Did you mean" otherwise.
pub open spec fn suggestion_text(s: Seq<char>, none_found: bool) -> Seq<char> {
    if none_found {
        "<div class=\"suggest\">Showing results for <a href=\"/?q="@ + escape(s) + "\"><b>"@ + escape(s)
            + "</b></a></div>"@
    } else {
        "<div class=\"suggest\">Did you mean: <a href=\"/?q="@ + escape(s) + "\"><b><i>"@ + escape(s)
            + "</i></b></a>?</div>"@
    }
}

/// The results page for query `q`.
pub open spec fn results_page_text(
    q: Seq<char>,
    store: DocumentStore,
    rs: Seq<ResultEntry>,
    seconds: Seq<char>,
    suggestion: Option<Seq<char>>,
) -> Seq<char> {
    header_text(q) + "<div class=\"meta\">About "@ + decimal(rs.len()) + " results ("@ + seconds
        + " seconds)</div>"@ + match suggestion {
        Some(s) => suggestion_text(s, rs.len() == 0),
        None => Seq::empty(),
    } + if rs.len() == 0 {
        "<div class=\"empty\">No results found.</div>"@
    } else {
        "<div class=\"results\">"@ + results_text(store, rs) + "</div>"@
    } + FOOTER@
}

/// The results page: the search bar, the number of results and the time
/// taken (`seconds`, as text), the spelling suggestion if any, and each
/// result with a snippet of fourteen words on each side of its first match.
pub fn results_page(
    query: &str,
    results: &[ResultEntry],
    seconds: &str,
    suggestion: Option<&str>,
    store: &DocumentStore,
) -> (r: String)
    requires
        store.wf(),
    ensures
        r@ == results_page_text(
            query@,
            *store,
            results@,
            seconds@,
            match suggestion {
                Some(s) => Some(s@),
                None => None,
            },
        ),
{
    let mut out = header(query);
    push_all(&mut out, "<div class=\"meta\">About ");
    push_all(&mut out, usize_to_decimal(results.len()).as_str());
    push_all(&mut out, " results (");
    push_all(&mut out, seconds);
    push_all(&mut out, " seconds)</div>");
    let ghost top = out@;
    match suggestion {
        Some(c) => {
            let e = esc(c);
            if results.len() == 0 {
                push_all(&mut out, "<div class=\"suggest\">Showing results for <a href=\"/?q=");
                push_all(&mut out, e.as_str());
                push_all(&mut out, "\"><b>");
                push_all(&mut out, e.as_str());
                push_all(&mut out, "</b></a></div>");
            } else {
                push_all(&mut out, "<div class=\"suggest\">Did you mean: <a href=\"/?q=");
                push_all(&mut out, e.as_str());
                push_all(&mut out, "\"><b><i>");
                push_all(&mut out, e.as_str());
                push_all(&mut out, "</i></b></a>?</div>");
            }
        },
        None => {},
    }
    let ghost mid = out@;
    if results.len() == 0 {
        push_all(&mut out, "<div class=\"empty\">No results found.</div>");
    } else {
        push_all(&mut out, "<div class=\"results\">");
        let ghost open_at = out@;
        let mut i: usize = 0;
        proof {
            assert(results@.take(0) =~= Seq::<ResultEntry>::empty());
            assert(out@ =~= open_at + results_text(*store, results@.take(0)));
        }
        while i < results.len()
            invariant
                i <= results@.len(),
                store.wf(),
                out@ == open_at + results_text(*store, results@.take(i as int)),
            decreases results.len() - i,
        {
            let r = &results[i];
            let ghost before = out@;
            proof {
                assert(results@.take(i + 1).drop_last() =~= results@.take(i as int));
                assert(results@.take(i + 1).last() == results@[i as int]);
            }
            match store.get(r.doc_id) {
                Some(doc) => {
                    let snippet = store.snippet(r.doc_id, r.matched_terms.as_slice(), 14);
                    let pc = chars_of(doc.path.as_str());
                    let is_url = starts_with(&pc, &chars_of("http://")) || starts_with(&pc, &chars_of("https://"));
                    let ep = esc(doc.path.as_str());
                    let et = esc(doc.title.as_str());
                    push_all(&mut out, "<div class=\"result\"><div class=\"url\">");
                    push_all(&mut out, ep.as_str());
                    push_all(&mut out, "</div>");
                    if is_url {
                        push_all(&mut out, "<a class=\"title\" href=\"");
                        push_all(&mut out, ep.as_str());
                        push_all(&mut out, "\" target=\"_blank\" rel=\"noopener\">");
                        push_all(&mut out, et.as_str());
                        push_all(&mut out, "</a>");
                    } else {
                        push_all(&mut out, "<span class=\"title\">");
                        push_all(&mut out, et.as_str());
                        push_all(&mut out, "</span>");
                    }
                    push_all(&mut out, "<div class=\"snippet\">");
                    push_all(&mut out, esc(snippet.as_str()).as_str());
                    push_all(&mut out, "</div><div class=\"score\">score ");
                    push_all(&mut out, r.score.as_str());
                    push_all(&mut out, "</div></div>");
                    proof {
                        let item = result_text(
                            doc.path@,
                            doc.title@,
                            snippet_text(split_ws(doc.body@), views(r.matched_terms@), 14),
                            r.score@,
                        );
                        assert(out@ =~= before + item);
                    }
                },
                None => {},
            }
            i += 1;
        }
        proof {
            assert(results@.take(results@.len() as int) =~= results@);
        }
        push_all(&mut out, "</div>");
    }
    push_all(&mut out, FOOTER);
    proof {
        let sug = match suggestion {
            Some(s) => Some(s@),
            None => None::<Seq<char>>,
        };
        assert(out@ =~= results_page_text(query@, *store, results@, seconds@, sug));
    }
    out
}

/// The name/value pairs of an `application/x-www-form-urlencoded` string,
/// decoded, in order, as `url::form_urlencoded::parse` yields them.
pub uninterp spec fn form_pairs(s: Seq<char>) -> Seq<(Seq<char>, Seq<char>)>;

/// The views of a list of string pairs.
pub open spec fn pair_views(ps: Seq<(String, String)>) -> Seq<(Seq<char>, Seq<char>)> {
    ps.map_values(|p: (String, String)| (p.0@, p.1@))
}

/// Calls `url::form_urlencoded::parse` on the bytes of `s` and collects the
/// decoded pairs.
#[verifier::external_body]
fn decode_form(s: &str) -> (r: Vec<(String, String)>)
    ensures
        pair_views(r@) == form_pairs(s@),
{
    url::form_urlencoded::parse(s.as_bytes()).map(|(k, v)| (k.into_owned(), v.into_owned())).collect()
}

/// The value of the first pair named `q`, or nothing.
pub open spec fn first_q(ps: Seq<(Seq<char>, Seq<char>)>) -> Seq<char>
    decreases ps.len(),
{
    if ps.len() == 0 {
        Seq::empty()
    } else if ps[0].0 == "q"@ {
        ps[0].1
    } else {
        first_q(ps.drop_first())
    }
}

/// The search query of a request's query string: the value of its first
/// `q` parameter, or the empty string.
pub fn extract_query(query_str: &str) -> (r: String)
    ensures
        r@ == first_q(form_pairs(query_str@)),
{
    let pairs = decode_form(query_str);
    let ghost pv = pair_views(pairs@);
    let mut i: usize = 0;
    proof {
        assert(pv.subrange(0, pv.len() as int) =~= pv);
    }
    while i < pairs.len()
        invariant
            i <= pairs@.len(),
            pv == pair_views(pairs@),
            pv == form_pairs(query_str@),
            first_q(pv) == first_q(pv.subrange(i as int, pv.len() as int)),
        decreases pairs.len() - i,
    {
        let ghost rest = pv.subrange(i as int, pv.len() as int);
        assert(rest[0] == (pairs@[i as int].0@, pairs@[i as int].1@));
        if crate::text::str_eq(pairs[i].0.as_str(), "q") {
            assert(rest.len() > 0 && rest[0].0 == "q"@);
            assert(first_q(rest) == rest[0].1);
            let v = pairs[i].1.clone();
            assert(v@ == pairs@[i as int].1@);
            return v;
        }
        assert(rest.drop_first() =~= pv.subrange(i + 1, pv.len() as int));
        i += 1;
    }
    proof {
        assert(pv.subrange(i as int, pv.len() as int) =~= Seq::<(Seq<char>, Seq<char>)>::empty());
    }
    String::new()
}

/// Escaped text holds none of the characters that end HTML text or an
/// attribute value: no `<`, `>`, `"` or `'`.
pub proof fn lemma_escape_is_safe(s: Seq<char>)
    ensures
        forall|i: int|
            0 <= i < escape(s).len() ==> escape(s)[i] != '<' && escape(s)[i] != '>' && escape(s)[i]
                != '"' && escape(s)[i] != '\'',
    decreases s.len(),
{
    if s.len() > 0 {
        lemma_escape_is_safe(s.drop_last());
        let prev = escape(s.drop_last());
        let e = escape_char(s.last());
        reveal_strlit("&amp;");
        reveal_strlit("&lt;");
        reveal_strlit("&gt;");
        reveal_strlit("&quot;");
        reveal_strlit("&#39;");
        assert forall|i: int| 0 <= i < escape(s).len() implies escape(s)[i] != '<' && escape(s)[i] != '>'
            && escape(s)[i] != '"' && escape(s)[i] != '\'' by {
            if i < prev.len() {
                assert(escape(s)[i] == prev[i]);
            } else {
                assert(escape(s)[i] == e[i - prev.len()]);
            }
        }
    }
}


/// What a results page does with the spelling corrector's answer
/// `corrected` for `query`: it offers the corrected query when there is one
/// that differs from `query`, and, when `query` found nothing, shows the
/// corrected query's results instead.  Returns the suggestion and whether to
/// search again with it.
pub fn spelling_plan(query: &str, corrected: Option<&str>, found_nothing: bool) -> (r: (Option<String>, bool))
    ensures
        (r.0 is Some) == (corrected is Some && corrected->0@ != query@),
        r.0 is Some ==> r.0->0@ == corrected->0@,
        r.1 == (r.0 is Some && found_nothing),
{
    match corrected {
        Some(c) => {
            if crate::text::str_eq(c, query) {
                (None, false)
            } else {
                (Some(c.to_owned()), found_nothing)
            }
        },
        None => (None, false),
    }
}

} // verus!
