use zehnyasearch::cli::{is_indexable, parse_args, parse_command, parse_uint, Command};
use zehnyasearch::crawler::{extract, readable_content_type, Crawl, CrawlAction, CrawlConfig, RobotRules};
use zehnyasearch::index::InvertedIndex;
use zehnyasearch::server::{esc, extract_query, header, home_page, results_page, spelling_plan, ResultEntry};
use zehnyasearch::store::DocumentStore;

#[test]
fn robots_rules() {
    let r = RobotRules::parse("User-agent: *\r\nDisallow: /private # comment\nDisallow:\n\nUser-agent: otherbot\nDisallow: /x\n# Disallow: /y\nUSER-AGENT: *\ndisallow : /tmp\n");
    assert!(!r.allowed("/private/a"));
    assert!(!r.allowed("/tmp"));
    assert!(r.allowed("/x"));
    assert!(r.allowed("/y"));
    assert!(r.allowed("/public"));
    assert!(RobotRules::allow_all().allowed("/private"));
}

#[test]
fn extract_title_text_links() {
    let html = "<html><head><title> T </title></head><body><p>Hello</p><script>var x</script><a href=\"/a#f\">A</a><a href=\"mailto:x@y\">m</a></body></html>";
    let (title, text, links) = extract(html, "http://ex.com/");
    assert_eq!(title, "T");
    assert_eq!(text, "m A Hello T ");
    assert_eq!(links, vec!["http://ex.com/a#f".to_string()]);
    let (title2, _, _) = extract("<p>no title</p>", "http://ex.com/z");
    assert_eq!(title2, "http://ex.com/z");
}

#[test]
fn crawl_state_machine() {
    let config = CrawlConfig::default();
    assert_eq!(config.max_pages, 50);
    assert_eq!(config.user_agent, "ZehnyasearchBot/0.1");
    let mut crawl = Crawl::start(&["http://ex.com/a#x".to_string(), "not a url".to_string()], &config, &[]);
    let mut index = InvertedIndex::new();
    let mut store = DocumentStore::new();
    match crawl.next_action() {
        CrawlAction::FetchRobots { host, url } => {
            assert_eq!(host, "ex.com");
            assert_eq!(url, "http://ex.com/robots.txt");
            crawl.robots_fetched(host, Some("User-agent: *\nDisallow: /private".to_string()));
        }
        _ => panic!("robots first"),
    }
    match crawl.next_action() {
        CrawlAction::FetchPage { url, host } => {
            assert_eq!(url, "http://ex.com/a");
            assert_eq!(host, "ex.com");
        }
        _ => panic!("page next"),
    }
    let page = "<html><head><title>Page A</title></head><body><p>raft consensus</p><a href=\"/private/p\">p</a><a href=\"/b\">b</a><a href=\"http://other.org/\">o</a></body></html>";
    let id = crawl.page_fetched("text/html; charset=utf-8", Some(page.to_string()), &mut index, &mut store);
    assert_eq!(id, Some(0));
    assert_eq!(store.count(), 1);
    assert_eq!(store.get(0).unwrap().title, "Page A");
    assert_eq!(index.doc_frequency("raft"), 1);
    match crawl.next_action() {
        CrawlAction::FetchPage { url, .. } => {
            assert_eq!(url, "http://ex.com/b");
            crawl.fetch_failed();
        }
        _ => panic!("second page"),
    }
    assert!(matches!(crawl.next_action(), CrawlAction::Done));
    let stats = crawl.finish(std::time::Duration::from_millis(5));
    assert_eq!(stats.pages_fetched, 1);
    assert_eq!(stats.pages_indexed, 1);
    assert_eq!(stats.pages_skipped, 3);
    assert_eq!(stats.link_graph, vec![Vec::<u32>::new()]);
    assert_eq!(stats.url_map, vec![("http://ex.com/a".to_string(), 0)]);
    assert_eq!(stats.elapsed, std::time::Duration::from_millis(5));
}

#[test]
fn crawl_skips_unreadable_types() {
    let config = CrawlConfig::default();
    let mut crawl = Crawl::start(&["https://ex.com/".to_string()], &config, &[("https://ex.com/".to_string(), 7)]);
    let mut index = InvertedIndex::new();
    let mut store = DocumentStore::new();
    if let CrawlAction::FetchRobots { host, .. } = crawl.next_action() {
        crawl.robots_fetched(host, None);
    }
    assert!(matches!(crawl.next_action(), CrawlAction::FetchPage { .. }));
    assert_eq!(crawl.page_fetched("image/png", Some(String::new()), &mut index, &mut store), None);
    assert!(matches!(crawl.next_action(), CrawlAction::Done));
    let stats = crawl.finish(std::time::Duration::ZERO);
    assert_eq!((stats.pages_fetched, stats.pages_indexed, stats.pages_skipped), (1, 0, 1));
    assert_eq!(stats.url_map, vec![("https://ex.com/".to_string(), 7)]);
}

#[test]
fn html_pages() {
    assert_eq!(esc("<a href='x'>&\""), "&lt;a href=&#39;x&#39;&gt;&amp;&quot;");
    let home = home_page();
    assert!(home.starts_with("<!doctype html>"));
    assert!(home.contains("<h1>Zehnyasearch</h1>"));
    assert!(home.ends_with("</body></html>"));
    let h = header("a<b");
    assert!(h.contains("value=\"a&lt;b\""));
    let mut store = DocumentStore::new();
    store.add("https://ex.com/x".to_string(), "X & co".to_string(), "alpha beta gamma".to_string());
    store.add("local.txt".to_string(), "L".to_string(), "delta".to_string());
    let rs = vec![
        ResultEntry { doc_id: 0, matched_terms: vec!["beta".to_string()], score: "1.500".to_string() },
        ResultEntry { doc_id: 1, matched_terms: vec![], score: "0.250".to_string() },
        ResultEntry { doc_id: 9, matched_terms: vec![], score: "0.100".to_string() },
    ];
    let page = results_page("beta", &rs, "0.001", Some("bet"), &store);
    assert!(page.contains("<div class=\"meta\">About 3 results (0.001 seconds)</div>"));
    assert!(page.contains("Did you mean: <a href=\"/?q=bet\"><b><i>bet</i></b></a>?"));
    assert!(page.contains("<a class=\"title\" href=\"https://ex.com/x\" target=\"_blank\" rel=\"noopener\">X &amp; co</a>"));
    assert!(page.contains("<span class=\"title\">L</span>"));
    assert!(page.contains("<div class=\"snippet\">alpha beta gamma</div><div class=\"score\">score 1.500</div>"));
    let empty = results_page("zzz", &[], "0.002", Some("zz"), &store);
    assert!(empty.contains("Showing results for <a href=\"/?q=zz\"><b>zz</b></a>"));
    assert!(empty.contains("No results found."));
}

#[test]
fn command_line() {
    let args: Vec<String> = ["--port", "9000", "site", "--cross-domain", "--max-pages", "x", "other", "--load", "c.bin", "--bench", "--depth", "3", "--delay", "+20", "--save"]
        .iter().map(|s| s.to_string()).collect();
    let cfg = parse_args(&args);
    assert_eq!(cfg.port, 9000);
    assert_eq!(cfg.target.as_deref(), Some("site"));
    assert!(!cfg.crawl.same_domain_only);
    assert_eq!(cfg.crawl.max_pages, 50);
    assert_eq!(cfg.load_path.as_deref(), Some("c.bin"));
    assert!(cfg.bench);
    assert!(!cfg.serve);
    assert_eq!(cfg.crawl.max_depth, 3);
    assert_eq!(cfg.crawl.delay_ms, 20);
    assert_eq!(cfg.save_path, None);
    let d = parse_args(&["--port".to_string(), "70000".to_string(), "--serve".to_string()]);
    assert_eq!(d.port, 8080);
    assert!(d.serve);
    assert_eq!(d.target, None);
}

#[test]
fn unsigned_parsing() {
    assert_eq!(parse_uint("42", 100), Some(42));
    assert_eq!(parse_uint("+7", 100), Some(7));
    assert_eq!(parse_uint("101", 100), None);
    assert_eq!(parse_uint("", 100), None);
    assert_eq!(parse_uint("+", 100), None);
    assert_eq!(parse_uint(" 1", 100), None);
    assert_eq!(parse_uint("-1", 100), None);
    assert_eq!(parse_uint("18446744073709551615", u64::MAX), Some(u64::MAX));
    assert_eq!(parse_uint("18446744073709551616", u64::MAX), None);
}

#[test]
fn prompt_commands() {
    assert!(matches!(parse_command("   "), Command::Empty));
    assert!(matches!(parse_command(" quit "), Command::Quit));
    assert!(matches!(parse_command("q"), Command::Quit));
    assert!(matches!(parse_command("exit"), Command::Quit));
    assert!(matches!(parse_command("?"), Command::Help));
    assert!(matches!(parse_command("stats"), Command::Stats));
    match parse_command("phrase: tcp socket ") { Command::Phrase(p) => assert_eq!(p, "tcp socket"), _ => panic!() }
    match parse_command("bool:a AND b") { Command::Bool(p) => assert_eq!(p, "a AND b"), _ => panic!() }
    match parse_command("fuzzy:raft") { Command::Fuzzy(p) => assert_eq!(p, "raft"), _ => panic!() }
    match parse_command("spell: consensus") { Command::Spell(p) => assert_eq!(p, "consensus"), _ => panic!() }
    match parse_command("  leader election ") { Command::Search(p) => assert_eq!(p, "leader election"), _ => panic!() }
}

#[test]
fn indexable_extensions() {
    assert!(is_indexable(Some("rs")));
    assert!(is_indexable(Some("md")));
    assert!(!is_indexable(Some("RS")));
    assert!(!is_indexable(Some("png")));
    assert!(!is_indexable(None));
}

#[test]
fn readable_content_types() {
    assert!(readable_content_type("Text/HTML; charset=utf-8"));
    assert!(readable_content_type("text/plain"));
    assert!(!readable_content_type("application/json"));
    assert!(!readable_content_type(""));
}

#[test]
fn query_parameter_of_request() {
    assert_eq!(extract_query("q=hello+world&x=1"), "hello world");
    assert_eq!(extract_query("x=1&q=a%26b"), "a&b");
    assert_eq!(extract_query("q=first&q=second"), "first");
    assert_eq!(extract_query("x=1"), "");
    assert_eq!(extract_query(""), "");
}

#[test]
fn crawl_visits_each_url_once() {
    let config = CrawlConfig::default();
    let mut crawl = Crawl::start(&["http://ex.com/".to_string(), "http://ex.com/#top".to_string()], &config, &[]);
    let mut index = InvertedIndex::new();
    let mut store = DocumentStore::new();
    if let CrawlAction::FetchRobots { host, .. } = crawl.next_action() {
        crawl.robots_fetched(host, None);
    }
    match crawl.next_action() {
        CrawlAction::FetchPage { url, .. } => assert_eq!(url, "http://ex.com/"),
        _ => panic!("seed page first"),
    }
    let page = "<p>home</p><a href=\"/\">home</a><a href=\"/#f\">again</a><a href=\"/x\">x</a><a href=\"x\">x again</a>";
    assert_eq!(crawl.page_fetched("text/html", Some(page.to_string()), &mut index, &mut store), Some(0));
    match crawl.next_action() {
        CrawlAction::FetchPage { url, .. } => {
            assert_eq!(url, "http://ex.com/x");
            crawl.fetch_failed();
        }
        _ => panic!("one new link"),
    }
    assert!(matches!(crawl.next_action(), CrawlAction::Done));
}

#[test]
fn spelling_suggestion_and_research() {
    assert_eq!(spelling_plan("concensus", Some("consensus"), true), (Some("consensus".to_string()), true));
    assert_eq!(spelling_plan("concensus", Some("consensus"), false), (Some("consensus".to_string()), false));
    assert_eq!(spelling_plan("raft", Some("raft"), true), (None, false));
    assert_eq!(spelling_plan("raft", None, true), (None, false));
}
