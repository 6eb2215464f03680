//! Command-line decisions: reading the arguments, classifying the lines
//! typed at the interactive prompt, choosing which files to index.
use vstd::prelude::*;
use crate::crawler::CrawlConfig;
use crate::text::{chars_eq, chars_of, seq_starts_with, seq_trim, starts_with, string_from_chars, trim_chars, views};

verus! {

// ── Unsigned integers in decimal ────────────────────────────────────────

/// Every character of `s` is an ASCII digit.
pub open spec fn all_digits(s: Seq<char>) -> bool {
    forall|i: int| 0 <= i < s.len() ==> '0' <= #[trigger] s[i] <= '9'
}

/// The number the ASCII digits `s` write.
pub open spec fn digits_value(s: Seq<char>) -> nat
    decreases s.len(),
{
    if s.len() == 0 {
        0
    } else {
        digits_value(s.drop_last()) * 10 + ((s.last() as u32) - ('0' as u32)) as nat
    }
}

/// What `str::parse` gives for an unsigned integer type with largest value
/// `max`: an optional `+` followed by at least one ASCII digit, and a value
/// that fits; nothing else (no spaces) is accepted.
pub open spec fn parse_unsigned(s: Seq<char>, max: int) -> Option<nat> {
    let d = if s.len() > 0 && s[0] == '+' {
        s.drop_first()
    } else {
        s
    };
    if d.len() > 0 && all_digits(d) && digits_value(d) <= max {
        Some(digits_value(d))
    } else {
        None
    }
}

proof fn lemma_digits_grow(s: Seq<char>, c: char)
    requires
        '0' <= c <= '9',
    ensures
        digits_value(s.push(c)) >= digits_value(s),
        digits_value(s.push(c)) == digits_value(s) * 10 + ((c as u32) - ('0' as u32)),
{
    assert(s.push(c).drop_last() =~= s);
}

/// Parses an unsigned decimal number no larger than `max`.
pub fn parse_uint(s: &str, max: u64) -> (r: Option<u64>)
    ensures
        match r {
            Some(v) => parse_unsigned(s@, max as int) == Some(v as nat),
            None => parse_unsigned(s@, max as int) is None,
        },
{
    let cs = chars_of(s);
    let mut start: usize = 0;
    if cs.len() > 0 && cs[0] == '+' {
        start = 1;
    }
    let ghost d = if s@.len() > 0 && s@[0] == '+' {
        s@.drop_first()
    } else {
        s@
    };
    proof {
        assert(d =~= cs@.subrange(start as int, cs@.len() as int));
    }
    if start >= cs.len() {
        assert(d.len() == 0);
        return None;
    }
    let mut acc: u128 = 0;
    let mut i = start;
    while i < cs.len()
        invariant
            start <= i <= cs@.len(),
            cs@ == s@,
            d == cs@.subrange(start as int, cs@.len() as int),
            d == (if s@.len() > 0 && s@[0] == '+' {
                s@.drop_first()
            } else {
                s@
            }),
            all_digits(cs@.subrange(start as int, i as int)),
            acc == digits_value(cs@.subrange(start as int, i as int)),
            acc <= max,
        decreases cs.len() - i,
    {
        let c = cs[i];
        if !('0' <= c && c <= '9') {
            proof {
                assert(d[i - start] == c);
                assert(!('0' <= d[i - start] <= '9'));
                assert(!all_digits(d));
                assert(parse_unsigned(s@, max as int) is None);
            }
            return None;
        }
        let digit = (c as u32 - '0' as u32) as u128;
        proof {
            lemma_digits_grow(cs@.subrange(start as int, i as int), c);
            assert(cs@.subrange(start as int, i + 1) =~= cs@.subrange(start as int, i as int).push(c));
        }
        acc = acc * 10 + digit;
        if acc > max as u128 {
            proof {
                let pre = cs@.subrange(start as int, i + 1);
                assert(d.take(i + 1 - start) =~= pre);
                lemma_prefix_value_bound(d, pre);
                assert(parse_unsigned(s@, max as int) is None);
            }
            return None;
        }
        i += 1;
    }
    proof {
        assert(cs@.subrange(start as int, i as int) =~= d);
    }
    Some(acc as u64)
}

/// A longer run of digits never has a smaller value than its prefix.
proof fn lemma_prefix_value_bound(d: Seq<char>, pre: Seq<char>)
    requires
        pre.len() <= d.len(),
        pre == d.take(pre.len() as int),
        all_digits(pre),
    ensures
        all_digits(d) ==> digits_value(d) >= digits_value(pre),
    decreases d.len() - pre.len(),
{
    if pre.len() < d.len() && all_digits(d) {
        let next = d.take(pre.len() as int + 1);
        assert(next =~= pre.push(d[pre.len() as int]));
        assert('0' <= d[pre.len() as int] <= '9');
        assert(all_digits(next));
        lemma_digits_grow(pre, d[pre.len() as int]);
        lemma_prefix_value_bound(d, next);
    } else if pre.len() == d.len() {
        assert(pre =~= d);
    }
}

// ── Arguments ───────────────────────────────────────────────────────────

/// The settings taken from the command line.
pub struct CliConfig {
    pub target: Option<String>,
    pub load_path: Option<String>,
    pub save_path: Option<String>,
    pub serve: bool,
    pub port: u16,
    pub bench: bool,
    pub crawl: CrawlConfig,
}

/// The settings as values: target, load path, save path, serve, port,
/// bench, max pages, max depth, delay, same domain only.
pub struct CliView {
    pub target: Option<Seq<char>>,
    pub load: Option<Seq<char>>,
    pub save: Option<Seq<char>>,
    pub serve: bool,
    pub port: u16,
    pub bench: bool,
    pub max_pages: usize,
    pub max_depth: u32,
    pub delay_ms: u64,
    pub same_domain_only: bool,
}

/// The defaults: port 8080 and the default crawl settings.
pub open spec fn default_cli() -> CliView {
    CliView {
        target: None,
        load: None,
        save: None,
        serve: false,
        port: 8080,
        bench: false,
        max_pages: 50,
        max_depth: 2,
        delay_ms: 500,
        same_domain_only: true,
    }
}

/// The settings after reading the arguments from position `i` on, in state `c`:
/// `--load P`, `--save P`, `--port N`, `--max-pages N`, `--depth N` and
/// `--delay N` take the next argument (numbers that do not parse leave the
/// setting alone); `--serve`, `--bench` and `--cross-domain` are flags; the
/// first argument not starting with `--` is the target; anything else is ignored.
pub open spec fn read_args(args: Seq<Seq<char>>, i: int, c: CliView) -> CliView
    decreases args.len() - i,
{
    if i < 0 || i >= args.len() {
        c
    } else {
        let a = args[i];
        let has_next = i + 1 < args.len();
        if a == "--load"@ && has_next {
            read_args(args, i + 2, CliView { load: Some(args[i + 1]), ..c })
        } else if a == "--save"@ && has_next {
            read_args(args, i + 2, CliView { save: Some(args[i + 1]), ..c })
        } else if a == "--serve"@ {
            read_args(args, i + 1, CliView { serve: true, ..c })
        } else if a == "--port"@ && has_next {
            read_args(
                args,
                i + 2,
                match parse_unsigned(args[i + 1], u16::MAX as int) {
                    Some(v) => CliView { port: v as u16, ..c },
                    None => c,
                },
            )
        } else if a == "--bench"@ {
            read_args(args, i + 1, CliView { bench: true, ..c })
        } else if a == "--max-pages"@ && has_next {
            read_args(
                args,
                i + 2,
                match parse_unsigned(args[i + 1], usize::MAX as int) {
                    Some(v) => CliView { max_pages: v as usize, ..c },
                    None => c,
                },
            )
        } else if a == "--depth"@ && has_next {
            read_args(
                args,
                i + 2,
                match parse_unsigned(args[i + 1], u32::MAX as int) {
                    Some(v) => CliView { max_depth: v as u32, ..c },
                    None => c,
                },
            )
        } else if a == "--delay"@ && has_next {
            read_args(
                args,
                i + 2,
                match parse_unsigned(args[i + 1], u64::MAX as int) {
                    Some(v) => CliView { delay_ms: v as u64, ..c },
                    None => c,
                },
            )
        } else if a == "--cross-domain"@ {
            read_args(args, i + 1, CliView { same_domain_only: false, ..c })
        } else if !seq_starts_with(a, "--"@) {
            read_args(
                args,
                i + 1,
                if c.target is None {
                    CliView { target: Some(a), ..c }
                } else {
                    c
                },
            )
        } else {
            read_args(args, i + 1, c)
        }
    }
}

/// The settings as values.
pub open spec fn cli_view(cfg: CliConfig) -> CliView {
    CliView {
        target: match cfg.target {
            Some(t) => Some(t@),
            None => None,
        },
        load: match cfg.load_path {
            Some(t) => Some(t@),
            None => None,
        },
        save: match cfg.save_path {
            Some(t) => Some(t@),
            None => None,
        },
        serve: cfg.serve,
        port: cfg.port,
        bench: cfg.bench,
        max_pages: cfg.crawl.max_pages,
        max_depth: cfg.crawl.max_depth,
        delay_ms: cfg.crawl.delay_ms,
        same_domain_only: cfg.crawl.same_domain_only,
    }
}

fn is_arg(a: &Vec<char>, name: &str) -> (r: bool)
    ensures
        r == (a@ == name@),
{
    chars_eq(a, &chars_of(name))
}

/// Reads the command-line arguments.
pub fn parse_args(args: &[String]) -> (r: CliConfig)
    ensures
        cli_view(r) == read_args(views(args@), 0, default_cli()),
        r.crawl.user_agent@ == "ZehnyasearchBot/0.1"@,
        r.crawl.timeout_secs == 10,
{
    let mut cfg = CliConfig {
        target: None,
        load_path: None,
        save_path: None,
        serve: false,
        port: 8080,
        bench: false,
        crawl: CrawlConfig::default(),
    };
    let ghost av = views(args@);
    let mut i: usize = 0;
    while i < args.len()
        invariant
            i <= args@.len(),
            av == views(args@),
            read_args(av, 0, default_cli()) == read_args(av, i as int, cli_view(cfg)),
            cfg.crawl.user_agent@ == "ZehnyasearchBot/0.1"@,
            cfg.crawl.timeout_secs == 10,
        decreases args.len() - i,
    {
        let a = chars_of(args[i].as_str());
        let has_next = i + 1 < args.len();
        proof {
            assert(av[i as int] == a@);
            if has_next {
                assert(av[i + 1] == args@[i + 1]@);
            }
        }
        if is_arg(&a, "--load") && has_next {
            cfg.load_path = Some(args[i + 1].clone());
            i += 2;
        } else if is_arg(&a, "--save") && has_next {
            cfg.save_path = Some(args[i + 1].clone());
            i += 2;
        } else if is_arg(&a, "--serve") {
            cfg.serve = true;
            i += 1;
        } else if is_arg(&a, "--port") && has_next {
            match parse_uint(args[i + 1].as_str(), 65535) {
                Some(p) => {
                    cfg.port = p as u16;
                },
                None => {},
            }
            i += 2;
        } else if is_arg(&a, "--bench") {
            cfg.bench = true;
            i += 1;
        } else if is_arg(&a, "--max-pages") && has_next {
            match parse_uint(args[i + 1].as_str(), usize::MAX as u64) {
                Some(n) => {
                    cfg.crawl.max_pages = n as usize;
                },
                None => {},
            }
            i += 2;
        } else if is_arg(&a, "--depth") && has_next {
            match parse_uint(args[i + 1].as_str(), 4294967295) {
                Some(n) => {
                    cfg.crawl.max_depth = n as u32;
                },
                None => {},
            }
            i += 2;
        } else if is_arg(&a, "--delay") && has_next {
            match parse_uint(args[i + 1].as_str(), 18446744073709551615) {
                Some(n) => {
                    cfg.crawl.delay_ms = n;
                },
                None => {},
            }
            i += 2;
        } else if is_arg(&a, "--cross-domain") {
            cfg.crawl.same_domain_only = false;
            i += 1;
        } else if !starts_with(&a, &chars_of("--")) {
            if cfg.target.is_none() {
                cfg.target = Some(args[i].clone());
            }
            i += 1;
        } else {
            i += 1;
        }
    }
    cfg
}

// ── The interactive prompt ──────────────────────────────────────────────

/// A line typed at the prompt.
pub enum Command {
    /// Nothing but whitespace.
    Empty,
    Quit,
    Help,
    Stats,
    /// `phrase:` and the phrase.
    Phrase(String),
    /// `bool:` and the boolean query.
    Bool(String),
    /// `fuzzy:` and the query.
    Fuzzy(String),
    /// `spell:` and the query.
    Spell(String),
    /// Anything else: a ranked search.
    Search(String),
}

/// What a typed line asks for, `q` being the line trimmed: the commands
/// `quit`/`exit`/`q`, `help`/`?` and `stats`; `phrase:`, `bool:`, `fuzzy:` and
/// `spell:` followed by a query (trimmed); otherwise a search for `q`.
pub open spec fn command_of(line: Seq<char>) -> (u8, Seq<char>) {
    let q = seq_trim(line);
    if q.len() == 0 {
        (0, q)
    } else if q == "quit"@ || q == "exit"@ || q == "q"@ {
        (1, q)
    } else if q == "help"@ || q == "?"@ {
        (2, q)
    } else if q == "stats"@ {
        (3, q)
    } else if seq_starts_with(q, "phrase:"@) {
        (4, seq_trim(q.skip(7)))
    } else if seq_starts_with(q, "bool:"@) {
        (5, seq_trim(q.skip(5)))
    } else if seq_starts_with(q, "fuzzy:"@) {
        (6, seq_trim(q.skip(6)))
    } else if seq_starts_with(q, "spell:"@) {
        (7, seq_trim(q.skip(6)))
    } else {
        (8, q)
    }
}

/// The kind and text of a command, as `command_of` numbers them.
pub open spec fn command_view(c: Command) -> (u8, Seq<char>) {
    match c {
        Command::Empty => (0, Seq::empty()),
        Command::Quit => (1, Seq::empty()),
        Command::Help => (2, Seq::empty()),
        Command::Stats => (3, Seq::empty()),
        Command::Phrase(s) => (4, s@),
        Command::Bool(s) => (5, s@),
        Command::Fuzzy(s) => (6, s@),
        Command::Spell(s) => (7, s@),
        Command::Search(s) => (8, s@),
    }
}

fn rest_trimmed(q: &Vec<char>, k: usize) -> (r: String)
    requires
        k <= q@.len(),
    ensures
        r@ == seq_trim(q@.skip(k as int)),
{
    let mut rest: Vec<char> = Vec::new();
    let mut i = k;
    while i < q.len()
        invariant
            k <= i <= q@.len(),
            rest@ == q@.subrange(k as int, i as int),
        decreases q.len() - i,
    {
        rest.push(q[i]);
        i += 1;
        assert(rest@ =~= q@.subrange(k as int, i as int));
    }
    assert(rest@ =~= q@.skip(k as int));
    string_from_chars(&trim_chars(&rest))
}

/// Classifies a line typed at the prompt.
pub fn parse_command(line: &str) -> (r: Command)
    ensures
        command_view(r).0 == command_of(line@).0,
        command_of(line@).0 >= 4 ==> command_view(r).1 == command_of(line@).1,
{
    let q = trim_chars(&chars_of(line));
    if q.len() == 0 {
        return Command::Empty;
    }
    if is_arg(&q, "quit") || is_arg(&q, "exit") || is_arg(&q, "q") {
        return Command::Quit;
    }
    if is_arg(&q, "help") || is_arg(&q, "?") {
        return Command::Help;
    }
    if is_arg(&q, "stats") {
        return Command::Stats;
    }
    let ghost qv = q@;
    if starts_with(&q, &chars_of("phrase:")) {
        proof {
            reveal_strlit("phrase:");
        }
        return Command::Phrase(rest_trimmed(&q, 7));
    }
    if starts_with(&q, &chars_of("bool:")) {
        proof {
            reveal_strlit("bool:");
        }
        return Command::Bool(rest_trimmed(&q, 5));
    }
    if starts_with(&q, &chars_of("fuzzy:")) {
        proof {
            reveal_strlit("fuzzy:");
        }
        return Command::Fuzzy(rest_trimmed(&q, 6));
    }
    if starts_with(&q, &chars_of("spell:")) {
        proof {
            reveal_strlit("spell:");
        }
        return Command::Spell(rest_trimmed(&q, 6));
    }
    Command::Search(string_from_chars(&q))
}

// ── Files to index ──────────────────────────────────────────────────────

/// The file extensions of text files worth indexing.
pub open spec fn indexable_ext(i: int) -> Seq<char> {
    if i == 0 { "txt"@ } else if i == 1 { "md"@ } else if i == 2 { "rs"@ } else if i == 3 { "py"@ }
    else if i == 4 { "js"@ } else if i == 5 { "ts"@ } else if i == 6 { "html"@ } else if i == 7 { "css"@ }
    else if i == 8 { "json"@ } else if i == 9 { "toml"@ } else if i == 10 { "yaml"@ } else if i == 11 { "yml"@ }
    else if i == 12 { "xml"@ } else if i == 13 { "csv"@ } else if i == 14 { "log"@ } else if i == 15 { "sh"@ }
    else if i == 16 { "bash"@ } else if i == 17 { "c"@ } else if i == 18 { "cpp"@ } else if i == 19 { "h"@ }
    else if i == 20 { "hpp"@ } else if i == 21 { "java"@ } else if i == 22 { "go"@ } else if i == 23 { "rb"@ }
    else if i == 24 { "php"@ } else if i == 25 { "swift"@ } else if i == 26 { "kt"@ } else if i == 27 { "scala"@ }
    else if i == 28 { "sql"@ } else if i == 29 { "r"@ } else if i == 30 { "m"@ } else if i == 31 { "tex"@ }
    else if i == 32 { "org"@ } else { "rst"@ }
}

fn indexable_ext_str(i: usize) -> (r: &'static str)
    requires
        i < 34,
    ensures
        r@ == indexable_ext(i as int),
{
    if i == 0 { "txt" } else if i == 1 { "md" } else if i == 2 { "rs" } else if i == 3 { "py" }
    else if i == 4 { "js" } else if i == 5 { "ts" } else if i == 6 { "html" } else if i == 7 { "css" }
    else if i == 8 { "json" } else if i == 9 { "toml" } else if i == 10 { "yaml" } else if i == 11 { "yml" }
    else if i == 12 { "xml" } else if i == 13 { "csv" } else if i == 14 { "log" } else if i == 15 { "sh" }
    else if i == 16 { "bash" } else if i == 17 { "c" } else if i == 18 { "cpp" } else if i == 19 { "h" }
    else if i == 20 { "hpp" } else if i == 21 { "java" } else if i == 22 { "go" } else if i == 23 { "rb" }
    else if i == 24 { "php" } else if i == 25 { "swift" } else if i == 26 { "kt" } else if i == 27 { "scala" }
    else if i == 28 { "sql" } else if i == 29 { "r" } else if i == 30 { "m" } else if i == 31 { "tex" }
    else if i == 32 { "org" } else { "rst" }
}

/// Whether the extension `e` is one of the listed text-file extensions.
fn known_extension(e: &str) -> (r: bool)
    ensures
        r == exists|i: int| 0 <= i < 34 && indexable_ext(i) == e@,
{
    let ec = chars_of(e);
    let mut i: usize = 0;
    while i < 34
        invariant
            i <= 34,
            ec@ == e@,
            forall|k: int| 0 <= k < i ==> indexable_ext(k) != e@,
        decreases 34 - i,
    {
        if chars_eq(&ec, &chars_of(indexable_ext_str(i))) {
            assert(indexable_ext(i as int) == e@);
            return true;
        }
        i += 1;
    }
    false
}

/// Whether a file with this extension (as UTF-8 text, if it has one) is
/// indexed: one of the listed text-file extensions, compared exactly.
pub fn is_indexable(extension: Option<&str>) -> (r: bool)
    ensures
        r == match extension {
            Some(e) => exists|i: int| 0 <= i < 34 && indexable_ext(i) == e@,
            None => false,
        },
{
    match extension {
        Some(e) => known_extension(e),
        None => false,
    }
}


/// The indexed extensions are exactly txt, md, rs, py, js, ts, html, css,
/// json, toml, yaml, yml, xml, csv, log, sh, bash, c, cpp, h, hpp, java, go,
/// rb, php, swift, kt, scala, sql, r, m, tex, org and rst.
pub proof fn lemma_indexable_extensions(e: Seq<char>)
    ensures
        (exists|i: int| 0 <= i < 34 && indexable_ext(i) == e) <==> (
            e == "txt"@
            || e == "md"@
            || e == "rs"@
            || e == "py"@
            || e == "js"@
            || e == "ts"@
            || e == "html"@
            || e == "css"@
            || e == "json"@
            || e == "toml"@
            || e == "yaml"@
            || e == "yml"@
            || e == "xml"@
            || e == "csv"@
            || e == "log"@
            || e == "sh"@
            || e == "bash"@
            || e == "c"@
            || e == "cpp"@
            || e == "h"@
            || e == "hpp"@
            || e == "java"@
            || e == "go"@
            || e == "rb"@
            || e == "php"@
            || e == "swift"@
            || e == "kt"@
            || e == "scala"@
            || e == "sql"@
            || e == "r"@
            || e == "m"@
            || e == "tex"@
            || e == "org"@
            || e == "rst"@
        ),
{
    if e == "txt"@ {
        assert(indexable_ext(0) == e);
    }
    if e == "md"@ {
        assert(indexable_ext(1) == e);
    }
    if e == "rs"@ {
        assert(indexable_ext(2) == e);
    }
    if e == "py"@ {
        assert(indexable_ext(3) == e);
    }
    if e == "js"@ {
        assert(indexable_ext(4) == e);
    }
    if e == "ts"@ {
        assert(indexable_ext(5) == e);
    }
    if e == "html"@ {
        assert(indexable_ext(6) == e);
    }
    if e == "css"@ {
        assert(indexable_ext(7) == e);
    }
    if e == "json"@ {
        assert(indexable_ext(8) == e);
    }
    if e == "toml"@ {
        assert(indexable_ext(9) == e);
    }
    if e == "yaml"@ {
        assert(indexable_ext(10) == e);
    }
    if e == "yml"@ {
        assert(indexable_ext(11) == e);
    }
    if e == "xml"@ {
        assert(indexable_ext(12) == e);
    }
    if e == "csv"@ {
        assert(indexable_ext(13) == e);
    }
    if e == "log"@ {
        assert(indexable_ext(14) == e);
    }
    if e == "sh"@ {
        assert(indexable_ext(15) == e);
    }
    if e == "bash"@ {
        assert(indexable_ext(16) == e);
    }
    if e == "c"@ {
        assert(indexable_ext(17) == e);
    }
    if e == "cpp"@ {
        assert(indexable_ext(18) == e);
    }
    if e == "h"@ {
        assert(indexable_ext(19) == e);
    }
    if e == "hpp"@ {
        assert(indexable_ext(20) == e);
    }
    if e == "java"@ {
        assert(indexable_ext(21) == e);
    }
    if e == "go"@ {
        assert(indexable_ext(22) == e);
    }
    if e == "rb"@ {
        assert(indexable_ext(23) == e);
    }
    if e == "php"@ {
        assert(indexable_ext(24) == e);
    }
    if e == "swift"@ {
        assert(indexable_ext(25) == e);
    }
    if e == "kt"@ {
        assert(indexable_ext(26) == e);
    }
    if e == "scala"@ {
        assert(indexable_ext(27) == e);
    }
    if e == "sql"@ {
        assert(indexable_ext(28) == e);
    }
    if e == "r"@ {
        assert(indexable_ext(29) == e);
    }
    if e == "m"@ {
        assert(indexable_ext(30) == e);
    }
    if e == "tex"@ {
        assert(indexable_ext(31) == e);
    }
    if e == "org"@ {
        assert(indexable_ext(32) == e);
    }
    if e == "rst"@ {
        assert(indexable_ext(33) == e);
    }
    if exists|i: int| 0 <= i < 34 && indexable_ext(i) == e {
        let i = choose|i: int| 0 <= i < 34 && indexable_ext(i) == e;
        assert(0 <= i < 34);
    }
}

} // verus!
