# zehnyasearch

A small search engine — inverted index, Porter-style stemmer, boolean
queries, fuzzy matching, BK-tree spell correction, VByte postings
compression, a robots.txt-respecting crawler and an HTML front end — whose
logic is written in Verus and proved against its contracts.

## Layout

- `src/` — the verified library.
  - `text.rs`: characters, splitting, trimming, decimal numbers.
  - `tokenizer.rs`: tokenizing and stemming.
  - `index.rs`: the positional inverted index.
  - `store.rs`: documents and snippets.
  - `fuzzy.rs`: edit distances, fuzzy term matching and query expansion.
  - `bktree.rs`: the BK-tree and the spelling corrector.
  - `boolean.rs`: the boolean query language: scanner, parser, evaluator.
  - `compression.rs`: VByte and delta coding of postings.
  - `ranking.rs`: phrase matching and token overlap.
  - `crawler.rs`: link and text extraction, robots.txt rules, and the crawl
    as a state machine.
  - `server.rs`: the HTML pages and the query string.
  - `cli.rs`: the command line and the prompt's commands.
- `app/` — the program around it: files, HTTP, the prompt, saving and
  loading the corpus, and the floating-point scoring (BM25, PageRank).
- `tests/` — tests run against the compiled library.
