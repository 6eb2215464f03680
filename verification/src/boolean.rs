//! Boolean query language: parses queries such as
//!   "TCP AND socket NOT UDP"
//!   "consensus OR (leader AND election)"
//!   "memory AND (heap OR stack) NOT garbage"
//! and evaluates them to sets of documents of an inverted index.
//!
//! Grammar (recursive descent):
//!   expr     → or_expr
//!   or_expr  → and_expr ("OR" and_expr)*
//!   and_expr → not_expr (("AND")? not_expr)*      two adjacent operands are ANDed
//!   not_expr → "NOT" atom | atom
//!   atom     → WORD | "(" expr ")"?
use std::collections::HashSet;
use vstd::prelude::*;
use vstd::std_specs::iter::IteratorSpec;
use crate::bktree::lookup_form;
use crate::index::{postings_in, IndexView, InvertedIndex};
use crate::text::{
    char_is_alphanumeric, char_is_whitespace, chars_of, is_alphanumeric, is_whitespace, push_all,
    push_char, str_uppercase, to_lowercase, to_uppercase,
};
use crate::tokenizer::stem;

verus! {

broadcast use vstd::std_specs::hash::group_hash_axioms;

// ── Queries ─────────────────────────────────────────────────────────────

/// A parsed boolean query.
#[derive(Debug)]
pub enum BoolExpr {
    Term(String),
    And(Box<BoolExpr>, Box<BoolExpr>),
    Or(Box<BoolExpr>, Box<BoolExpr>),
    Not(Box<BoolExpr>),
}

/// The abstract value of a query: its terms as character sequences.
pub enum Expr {
    Term(Seq<char>),
    And(Box<Expr>, Box<Expr>),
    Or(Box<Expr>, Box<Expr>),
    Not(Box<Expr>),
}

/// The abstract value of `e`.
pub open spec fn expr_view(e: BoolExpr) -> Expr
    decreases e,
{
    match e {
        BoolExpr::Term(t) => Expr::Term(t@),
        BoolExpr::And(l, r) => Expr::And(Box::new(expr_view(*l)), Box::new(expr_view(*r))),
        BoolExpr::Or(l, r) => Expr::Or(Box::new(expr_view(*l)), Box::new(expr_view(*r))),
        BoolExpr::Not(x) => Expr::Not(Box::new(expr_view(*x))),
    }
}

impl View for BoolExpr {
    type V = Expr;

    open spec fn view(&self) -> Expr {
        expr_view(*self)
    }
}

// ── Query tokens ────────────────────────────────────────────────────────

/// A token of the query language.
enum Token {
    Word(String),
    And,
    Or,
    Not,
    LParen,
    RParen,
}

/// The abstract value of a token.
pub enum Tok {
    Word(Seq<char>),
    And,
    Or,
    Not,
    LParen,
    RParen,
}

spec fn tok_view(t: Token) -> Tok {
    match t {
        Token::Word(w) => Tok::Word(w@),
        Token::And => Tok::And,
        Token::Or => Tok::Or,
        Token::Not => Tok::Not,
        Token::LParen => Tok::LParen,
        Token::RParen => Tok::RParen,
    }
}

spec fn toks_view(ts: Seq<Token>) -> Seq<Tok> {
    ts.map_values(|t: Token| tok_view(t))
}

/// Characters that make up words: alphanumerics, `_` and `-`.
pub open spec fn is_word_char(c: char) -> bool {
    char_is_alphanumeric(c) || c == '_' || c == '-'
}

/// Where the word that starts at `i` ends.
pub open spec fn word_end(s: Seq<char>, i: int) -> int
    decreases s.len() - i,
{
    if 0 <= i < s.len() && is_word_char(s[i]) {
        word_end(s, i + 1)
    } else {
        i
    }
}

/// A word ends within the string, after its start, at the first non-word character.
pub proof fn lemma_word_end(s: Seq<char>, i: int)
    requires
        0 <= i <= s.len(),
    ensures
        i <= word_end(s, i) <= s.len(),
        forall|k: int| i <= k < word_end(s, i) ==> is_word_char(#[trigger] s[k]),
        word_end(s, i) < s.len() ==> !is_word_char(s[word_end(s, i)]),
    decreases s.len() - i,
{
    if i < s.len() && is_word_char(s[i]) {
        lemma_word_end(s, i + 1);
    }
}

/// Every character of the query is one the scanner knows: whitespace, a
/// parenthesis or a word character.  On any other character the scanner of
/// the query language never finishes.
pub open spec fn scannable(s: Seq<char>) -> bool {
    forall|i: int|
        0 <= i < s.len() ==> char_is_whitespace(#[trigger] s[i]) || s[i] == '(' || s[i] == ')'
            || is_word_char(s[i])
}

/// The token for a word: an operator keyword (in any case) or the word itself.
pub open spec fn word_token(w: Seq<char>) -> Tok {
    let u = str_uppercase(w);
    if u == "AND"@ {
        Tok::And
    } else if u == "OR"@ {
        Tok::Or
    } else if u == "NOT"@ {
        Tok::Not
    } else {
        Tok::Word(w)
    }
}

/// The tokens of `s` from position `i` on.  A word is a maximal run of word
/// characters; `-word` stands for `NOT word`; whitespace separates tokens.
pub open spec fn scan(s: Seq<char>, i: int) -> Seq<Tok>
    decreases s.len() - i,
{
    if i < 0 || i >= s.len() {
        Seq::empty()
    } else {
        let c = s[i];
        if char_is_whitespace(c) {
            scan(s, i + 1)
        } else if c == '(' {
            seq![Tok::LParen] + scan(s, i + 1)
        } else if c == ')' {
            seq![Tok::RParen] + scan(s, i + 1)
        } else if c == '-' {
            let j = word_end(s, i + 1);
            proof {
                lemma_word_end(s, i + 1);
            }
            if j > i + 1 {
                seq![Tok::Not, Tok::Word(s.subrange(i + 1, j))] + scan(s, j)
            } else {
                scan(s, j)
            }
        } else {
            let j = word_end(s, i);
            proof {
                lemma_word_end(s, i);
            }
            if j > i {
                seq![word_token(s.subrange(i, j))] + scan(s, j)
            } else {
                Seq::empty()
            }
        }
    }
}

/// Operator keywords are read in any letter case: a word (a maximal run of
/// word characters, not led by `-`) whose upper case is `AND`, `OR` or
/// `NOT` is that operator, whatever its own case ("tcp or udp" reads like
/// "tcp OR udp"); any other word is a search word.
pub proof fn lemma_keywords_any_case(s: Seq<char>, i: int)
    requires
        0 <= i < s.len(),
        is_word_char(s[i]),
        !char_is_whitespace(s[i]),
        s[i] != '(',
        s[i] != ')',
        s[i] != '-',
    ensures
        ({
            let j = word_end(s, i);
            let w = s.subrange(i, j);
            &&& i < j
            &&& str_uppercase(w) == "AND"@ ==> scan(s, i) == seq![Tok::And] + scan(s, j)
            &&& str_uppercase(w) == "OR"@ ==> scan(s, i) == seq![Tok::Or] + scan(s, j)
            &&& str_uppercase(w) == "NOT"@ ==> scan(s, i) == seq![Tok::Not] + scan(s, j)
            &&& str_uppercase(w) != "AND"@ && str_uppercase(w) != "OR"@ && str_uppercase(w) != "NOT"@
                ==> scan(s, i) == seq![Tok::Word(w)] + scan(s, j)
        }),
{
    reveal_strlit("AND");
    reveal_strlit("OR");
    reveal_strlit("NOT");
    assert("OR"@.len() == 2 && "AND"@.len() == 3 && "NOT"@.len() == 3);
    assert("AND"@[0] == 'A' && "NOT"@[0] == 'N');
    assert("OR"@ != "AND"@);
    assert("NOT"@ != "AND"@);
    assert("NOT"@ != "OR"@);
    lemma_word_end(s, i);
    lemma_word_end(s, i + 1);
}

/// The tokens of a query.
pub open spec fn query_tokens(s: Seq<char>) -> Seq<Tok> {
    scan(s, 0)
}

/// The word starting at `i`, and where it ends.
fn consume_word(cs: &Vec<char>, i: usize) -> (r: (String, usize))
    requires
        i <= cs@.len(),
    ensures
        r.1 == word_end(cs@, i as int),
        r.0@ == cs@.subrange(i as int, r.1 as int),
{
    let mut word = String::new();
    let mut j = i;
    proof {
        lemma_word_end(cs@, i as int);
    }
    while j < cs.len() && (is_alphanumeric(cs[j]) || cs[j] == '_' || cs[j] == '-')
        invariant
            i <= j <= cs@.len(),
            word_end(cs@, j as int) == word_end(cs@, i as int),
            word@ == cs@.subrange(i as int, j as int),
        decreases cs.len() - j,
    {
        push_char(&mut word, cs[j]);
        j += 1;
        assert(word@ =~= cs@.subrange(i as int, j as int));
    }
    (word, j)
}

/// Whether `w` is spelled `kw` once upper-cased.
fn is_keyword(upper: &Vec<char>, kw: &str) -> (r: bool)
    ensures
        r == (upper@ == kw@),
{
    let k = chars_of(kw);
    crate::text::chars_eq(upper.as_slice(), k.as_slice())
}

/// Splits a query into tokens.
fn tokenize_query(input: &str) -> (r: Vec<Token>)
    requires
        scannable(input@),
    ensures
        toks_view(r@) == query_tokens(input@),
{
    let cs = chars_of(input);
    let ghost s = input@;
    let mut tokens: Vec<Token> = Vec::new();
    let mut i: usize = 0;
    proof {
        assert(toks_view(tokens@) =~= Seq::<Tok>::empty());
        assert(scan(s, 0) =~= toks_view(tokens@) + scan(s, 0));
    }
    while i < cs.len()
        invariant
            cs@ == s,
            scannable(s),
            i <= cs@.len(),
            scan(s, 0) == toks_view(tokens@) + scan(s, i as int),
        decreases cs.len() - i,
    {
        let ghost before = toks_view(tokens@);
        let c = cs[i];
        if is_whitespace(c) {
            i += 1;
        } else if c == '(' {
            tokens.push(Token::LParen);
            proof {
                assert(toks_view(tokens@) =~= before + seq![Tok::LParen]);
            }
            i += 1;
        } else if c == ')' {
            tokens.push(Token::RParen);
            proof {
                assert(toks_view(tokens@) =~= before + seq![Tok::RParen]);
            }
            i += 1;
        } else if c == '-' {
            let (word, j) = consume_word(&cs, i + 1);
            proof {
                lemma_word_end(s, i + 1);
            }
            if j > i + 1 {
                let ghost w = word@;
                tokens.push(Token::Not);
                tokens.push(Token::Word(word));
                proof {
                    assert(toks_view(tokens@) =~= before + seq![Tok::Not, Tok::Word(w)]);
                }
            }
            i = j;
        } else {
            let (word, j) = consume_word(&cs, i);
            proof {
                lemma_word_end(s, i as int);
                assert(is_word_char(c));
                assert(j > i);
            }
            let ghost w = word@;
            let upper = chars_of(to_uppercase(word.as_str()).as_str());
            if is_keyword(&upper, "AND") {
                tokens.push(Token::And);
            } else if is_keyword(&upper, "OR") {
                tokens.push(Token::Or);
            } else if is_keyword(&upper, "NOT") {
                tokens.push(Token::Not);
            } else {
                tokens.push(Token::Word(word));
            }
            proof {
                assert(w.len() > 0);
                assert(toks_view(tokens@) =~= before + seq![word_token(w)]);
            }
            i = j;
        }
    }
    tokens
}

// ── Parser ──────────────────────────────────────────────────────────────

/// The token at position `p`, if there is one.
pub open spec fn tok_at(t: Seq<Tok>, p: int) -> Option<Tok> {
    if 0 <= p < t.len() {
        Some(t[p])
    } else {
        None
    }
}

/// A token that starts an operand: a word, NOT or an opening parenthesis.
pub open spec fn starts_operand(k: Tok) -> bool {
    k is Word || k is Not || k is LParen
}

/// `or_expr` at position `p`: the expression read and where reading stopped.
pub open spec fn p_or(t: Seq<Tok>, p: int) -> Option<(Expr, int)>
    decreases t.len() - p, 3int,
{
    if p < 0 || p > t.len() {
        None
    } else {
        match p_and(t, p) {
            None => None,
            Some((l, p1)) => if p < p1 <= t.len() {
                p_or_rest(t, l, p1)
            } else {
                None
            },
        }
    }
}

/// The `("OR" and_expr)*` loop of `or_expr`, with `left` read so far.
pub open spec fn p_or_rest(t: Seq<Tok>, left: Expr, p: int) -> Option<(Expr, int)>
    decreases t.len() - p, 4int,
{
    if p < 0 || p > t.len() {
        None
    } else if tok_at(t, p) == Some(Tok::Or) {
        match p_and(t, p + 1) {
            None => None,
            Some((r, p2)) => if p < p2 <= t.len() {
                p_or_rest(t, Expr::Or(Box::new(left), Box::new(r)), p2)
            } else {
                None
            },
        }
    } else {
        Some((left, p))
    }
}

/// `and_expr` at position `p`.
pub open spec fn p_and(t: Seq<Tok>, p: int) -> Option<(Expr, int)>
    decreases t.len() - p, 2int,
{
    if p < 0 || p > t.len() {
        None
    } else {
        match p_not(t, p) {
            None => None,
            Some((l, p1)) => if p < p1 <= t.len() {
                p_and_rest(t, l, p1)
            } else {
                None
            },
        }
    }
}

/// The loop of `and_expr`: an explicit AND, or an operand right after the
/// left one, adds an AND.
pub open spec fn p_and_rest(t: Seq<Tok>, left: Expr, p: int) -> Option<(Expr, int)>
    decreases t.len() - p, 4int,
{
    if p < 0 || p > t.len() {
        None
    } else if tok_at(t, p) == Some(Tok::And) {
        match p_not(t, p + 1) {
            None => None,
            Some((r, p2)) => if p < p2 <= t.len() {
                p_and_rest(t, Expr::And(Box::new(left), Box::new(r)), p2)
            } else {
                None
            },
        }
    } else if p < t.len() && starts_operand(t[p]) {
        match p_not(t, p) {
            None => None,
            Some((r, p2)) => if p < p2 <= t.len() {
                p_and_rest(t, Expr::And(Box::new(left), Box::new(r)), p2)
            } else {
                None
            },
        }
    } else {
        Some((left, p))
    }
}

/// `not_expr` at position `p`.
pub open spec fn p_not(t: Seq<Tok>, p: int) -> Option<(Expr, int)>
    decreases t.len() - p, 1int,
{
    if p < 0 || p > t.len() {
        None
    } else if tok_at(t, p) == Some(Tok::Not) {
        match p_atom(t, p + 1) {
            None => None,
            Some((e, p1)) => Some((Expr::Not(Box::new(e)), p1)),
        }
    } else {
        p_atom(t, p)
    }
}

/// `atom` at position `p`: a word, looked up lowercased and stemmed, or a
/// parenthesised expression whose closing parenthesis may be missing.
pub open spec fn p_atom(t: Seq<Tok>, p: int) -> Option<(Expr, int)>
    decreases t.len() - p, 0int,
{
    if p < 0 || p >= t.len() {
        None
    } else {
        match t[p] {
            Tok::Word(w) => Some((Expr::Term(lookup_form(w)), p + 1)),
            Tok::LParen => match p_or(t, p + 1) {
                None => None,
                Some((e, p1)) => if tok_at(t, p1) == Some(Tok::RParen) {
                    Some((e, p1 + 1))
                } else {
                    Some((e, p1))
                },
            },
            _ => None,
        }
    }
}

/// The query a string parses to: `None` for a query without tokens or one
/// the grammar does not accept.  Tokens after a complete expression are ignored.
pub open spec fn spec_parse(q: Seq<char>) -> Option<Expr> {
    let t = query_tokens(q);
    if t.len() == 0 {
        None
    } else {
        match p_or(t, 0) {
            Some((e, _)) => Some(e),
            None => None,
        }
    }
}

/// A recursive-descent parser over the tokens of a query.
struct Parser {
    tokens: Vec<Token>,
    pos: usize,
}

impl Parser {
    spec fn t(&self) -> Seq<Tok> {
        toks_view(self.tokens@)
    }

    fn new(tokens: Vec<Token>) -> (r: Self)
        ensures
            r.tokens@ == tokens@,
            r.pos == 0,
    {
        Parser { tokens, pos: 0 }
    }

    /// The current token, if any.
    fn peek(&self) -> (r: Option<&Token>)
        ensures
            match r {
                Some(k) => tok_at(self.t(), self.pos as int) == Some(tok_view(*k)),
                None => tok_at(self.t(), self.pos as int) is None,
            },
    {
        if self.pos < self.tokens.len() {
            Some(&self.tokens[self.pos])
        } else {
            None
        }
    }

    /// Moves past the current token.
    fn advance(&mut self)
        requires
            old(self).pos < old(self).tokens@.len(),
        ensures
            final(self).tokens@ == old(self).tokens@,
            final(self).pos == old(self).pos + 1,
    {
        let n = self.tokens.len();
        assert(self.pos < n);
        self.pos = self.pos + 1;
    }

    fn at_or(&self) -> (r: bool)
        ensures
            r == (tok_at(self.t(), self.pos as int) == Some(Tok::Or)),
    {
        match self.peek() {
            Some(Token::Or) => true,
            _ => false,
        }
    }

    fn at_and(&self) -> (r: bool)
        ensures
            r == (tok_at(self.t(), self.pos as int) == Some(Tok::And)),
    {
        match self.peek() {
            Some(Token::And) => true,
            _ => false,
        }
    }

    fn at_not(&self) -> (r: bool)
        ensures
            r == (tok_at(self.t(), self.pos as int) == Some(Tok::Not)),
    {
        match self.peek() {
            Some(Token::Not) => true,
            _ => false,
        }
    }

    fn at_rparen(&self) -> (r: bool)
        ensures
            r == (tok_at(self.t(), self.pos as int) == Some(Tok::RParen)),
    {
        match self.peek() {
            Some(Token::RParen) => true,
            _ => false,
        }
    }

    fn at_operand(&self) -> (r: bool)
        ensures
            r == (self.pos < self.t().len() && starts_operand(self.t()[self.pos as int])),
    {
        match self.peek() {
            Some(Token::Word(_)) => true,
            Some(Token::Not) => true,
            Some(Token::LParen) => true,
            _ => false,
        }
    }

    fn parse(&mut self) -> (r: Option<BoolExpr>)
        requires
            old(self).pos <= old(self).tokens@.len(),
        ensures
            final(self).tokens@ == old(self).tokens@,
            match r {
                None => p_or(old(self).t(), old(self).pos as int) is None,
                Some(e) => p_or(old(self).t(), old(self).pos as int) == Some(
                    (e@, final(self).pos as int),
                ) && old(self).pos < final(self).pos <= old(self).tokens@.len(),
            },
        decreases old(self).tokens@.len() - old(self).pos, 4int,
    {
        let expr = self.or_expr()?;
        Some(expr)
    }

    fn or_expr(&mut self) -> (r: Option<BoolExpr>)
        requires
            old(self).pos <= old(self).tokens@.len(),
        ensures
            final(self).tokens@ == old(self).tokens@,
            match r {
                None => p_or(old(self).t(), old(self).pos as int) is None,
                Some(e) => p_or(old(self).t(), old(self).pos as int) == Some(
                    (e@, final(self).pos as int),
                ) && old(self).pos < final(self).pos <= old(self).tokens@.len(),
            },
        decreases old(self).tokens@.len() - old(self).pos, 3int,
    {
        let ghost t = self.t();
        let ghost p0 = self.pos as int;
        let ghost toks = self.tokens@;
        let mut left = self.and_expr()?;
        while self.at_or()
            invariant
                self.tokens@ == toks,
                t == toks_view(toks),
                p0 == old(self).pos,
                toks == old(self).tokens@,
                p0 < self.pos <= toks.len(),
                p_or(t, p0) == p_or_rest(t, left@, self.pos as int),
            decreases toks.len() - self.pos,
        {
            let ghost p = self.pos as int;
            let ghost lv = left@;
            self.advance();
            let right = self.and_expr()?;
            proof {
                assert(p_or_rest(t, lv, p) == p_or_rest(
                    t,
                    Expr::Or(Box::new(lv), Box::new(right@)),
                    self.pos as int,
                ));
            }
            left = BoolExpr::Or(Box::new(left), Box::new(right));
            assert(left@ == Expr::Or(Box::new(lv), Box::new(right@)));
        }
        Some(left)
    }

    fn and_expr(&mut self) -> (r: Option<BoolExpr>)
        requires
            old(self).pos <= old(self).tokens@.len(),
        ensures
            final(self).tokens@ == old(self).tokens@,
            match r {
                None => p_and(old(self).t(), old(self).pos as int) is None,
                Some(e) => p_and(old(self).t(), old(self).pos as int) == Some(
                    (e@, final(self).pos as int),
                ) && old(self).pos < final(self).pos <= old(self).tokens@.len(),
            },
        decreases old(self).tokens@.len() - old(self).pos, 2int,
    {
        let ghost t = self.t();
        let ghost p0 = self.pos as int;
        let ghost toks = self.tokens@;
        let mut left = self.not_expr()?;
        while self.at_and() || self.at_operand()
            invariant
                self.tokens@ == toks,
                t == toks_view(toks),
                p0 == old(self).pos,
                toks == old(self).tokens@,
                p0 < self.pos <= toks.len(),
                p_and(t, p0) == p_and_rest(t, left@, self.pos as int),
            decreases toks.len() - self.pos,
        {
            let ghost p = self.pos as int;
            let ghost lv = left@;
            if self.at_and() {
                self.advance();
            }
            let right = self.not_expr()?;
            proof {
                assert(p_and_rest(t, lv, p) == p_and_rest(
                    t,
                    Expr::And(Box::new(lv), Box::new(right@)),
                    self.pos as int,
                ));
            }
            left = BoolExpr::And(Box::new(left), Box::new(right));
            assert(left@ == Expr::And(Box::new(lv), Box::new(right@)));
        }
        Some(left)
    }

    fn not_expr(&mut self) -> (r: Option<BoolExpr>)
        requires
            old(self).pos <= old(self).tokens@.len(),
        ensures
            final(self).tokens@ == old(self).tokens@,
            match r {
                None => p_not(old(self).t(), old(self).pos as int) is None,
                Some(e) => p_not(old(self).t(), old(self).pos as int) == Some(
                    (e@, final(self).pos as int),
                ) && old(self).pos < final(self).pos <= old(self).tokens@.len(),
            },
        decreases old(self).tokens@.len() - old(self).pos, 1int,
    {
        if self.at_not() {
            self.advance();
            let expr = self.atom()?;
            return Some(BoolExpr::Not(Box::new(expr)));
        }
        self.atom()
    }

    fn atom(&mut self) -> (r: Option<BoolExpr>)
        requires
            old(self).pos <= old(self).tokens@.len(),
        ensures
            final(self).tokens@ == old(self).tokens@,
            match r {
                None => p_atom(old(self).t(), old(self).pos as int) is None,
                Some(e) => p_atom(old(self).t(), old(self).pos as int) == Some(
                    (e@, final(self).pos as int),
                ) && old(self).pos < final(self).pos <= old(self).tokens@.len(),
            },
        decreases old(self).tokens@.len() - old(self).pos, 0int,
    {
        if self.pos >= self.tokens.len() {
            return None;
        }
        let ghost t = self.t();
        assert(t[self.pos as int] == tok_view(self.tokens@[self.pos as int]));
        match &self.tokens[self.pos] {
            Token::Word(w) => {
                let stemmed = stem(to_lowercase(w.as_str()).as_str());
                self.advance();
                Some(BoolExpr::Term(stemmed))
            },
            Token::LParen => {
                self.advance();
                let expr = self.parse()?;
                if self.at_rparen() {
                    self.advance();
                }
                Some(expr)
            },
            _ => None,
        }
    }
}

/// Parses a query made only of characters the query language knows.
fn parse_scannable(query: &str) -> (r: Option<BoolExpr>)
    requires
        scannable(query@),
    ensures
        match r {
            Some(e) => spec_parse(query@) == Some(e@),
            None => spec_parse(query@) is None,
        },
{
    let tokens = tokenize_query(query);
    if tokens.len() == 0 {
        return None;
    }
    let mut parser = Parser::new(tokens);
    parser.parse()
}

/// Whether every character of `cs` is one the query language knows.
fn all_scannable(cs: &Vec<char>) -> (r: bool)
    ensures
        r == scannable(cs@),
{
    let mut i: usize = 0;
    while i < cs.len()
        invariant
            i <= cs@.len(),
            forall|k: int|
                0 <= k < i ==> char_is_whitespace(#[trigger] cs@[k]) || cs@[k] == '(' || cs@[k]
                    == ')' || is_word_char(cs@[k]),
        decreases cs.len() - i,
    {
        let c = cs[i];
        if !(is_whitespace(c) || c == '(' || c == ')' || is_alphanumeric(c) || c == '_' || c == '-') {
            return false;
        }
        i += 1;
    }
    true
}

/// Parse a boolean query string into an AST: `None` for a query that does
/// not parse, or that holds a character the query language does not know
/// (see `scannable`).
pub fn parse(query: &str) -> (r: Option<BoolExpr>)
    ensures
        scannable(query@) ==> match r {
            Some(e) => spec_parse(query@) == Some(e@),
            None => spec_parse(query@) is None,
        },
        !scannable(query@) ==> r is None,
{
    let cs = chars_of(query);
    if all_scannable(&cs) {
        parse_scannable(query)
    } else {
        None
    }
}

// ── Evaluation ──────────────────────────────────────────────────────────

/// The documents whose postings for `t` are in the index.
pub open spec fn term_docs(v: IndexView, t: Seq<char>) -> Set<u32> {
    Set::new(|d: u32| exists|i: int| 0 <= i < postings_in(v, t).len() && postings_in(v, t)[i].0 == d)
}

/// The documents matching `e`, `docs` being all documents of the index:
/// a term matches the documents it occurs in, AND intersects, OR unites,
/// and NOT takes every document but those matching its operand.
pub open spec fn eval(e: Expr, v: IndexView, docs: Set<u32>) -> Set<u32>
    decreases e,
{
    match e {
        Expr::Term(t) => term_docs(v, t),
        Expr::And(l, r) => eval(*l, v, docs).intersect(eval(*r, v, docs)),
        Expr::Or(l, r) => eval(*l, v, docs).union(eval(*r, v, docs)),
        Expr::Not(x) => docs.difference(eval(*x, v, docs)),
    }
}

/// The documents that contain `term`.
fn term_set(index: &InvertedIndex, term: &str) -> (r: HashSet<u32>)
    requires
        index.wf(),
    ensures
        r@ == term_docs(index@, term@),
{
    let ps = index.get_postings(term);
    let ghost pv = postings_in(index@, term@);
    let mut out: HashSet<u32> = HashSet::new();
    let mut i: usize = 0;
    while i < ps.len()
        invariant
            i <= ps@.len(),
            pv.len() == ps@.len(),
            forall|k: int| 0 <= k < ps@.len() ==> (#[trigger] pv[k]).0 == ps@[k].doc_id,
            forall|d: u32| out@.contains(d) <==> exists|k: int| 0 <= k < i && pv[k].0 == d,
        decreases ps.len() - i,
    {
        proof {
            assert(crate::index::posting_views(ps@)[i as int] == ps@[i as int]@);
        }
        out.insert(ps[i].doc_id);
        proof {
            assert forall|d: u32| out@.contains(d) implies exists|k: int| 0 <= k < i + 1 && pv[k].0 == d by {
                if d != ps@[i as int].doc_id {
                    let k = choose|k: int| 0 <= k < i && pv[k].0 == d;
                } else {
                    assert(pv[i as int].0 == d);
                }
            }
        }
        i += 1;
    }
    proof {
        assert(out@ =~= term_docs(index@, term@));
    }
    out
}

/// The set `a` with the elements of `s` added.
fn union_with(a: &HashSet<u32>, s: &HashSet<u32>) -> (r: HashSet<u32>)
    ensures
        r@ == a@.union(s@),
{
    let mut out: HashSet<u32> = HashSet::new();
    let ghost sa = vstd::std_specs::hash::spec_hash_keys_iter(a).remaining();
    for x in it: a.iter()
        invariant
            it.seq() == sa,
            sa == vstd::std_specs::hash::spec_hash_keys_iter(a).remaining(),
            forall|d: u32| out@.contains(d) <==> exists|k: int| 0 <= k < it.index() && *sa[k] == d,
    {
        out.insert(*x);
        proof {
            assert forall|d: u32|
                out@.contains(d) <==> exists|k: int| 0 <= k < it.index() + 1 && *sa[k] == d by {
                if (exists|k: int| 0 <= k < it.index() + 1 && *sa[k] == d) && d != *x {
                    let k = choose|k: int| 0 <= k < it.index() + 1 && *sa[k] == d;
                    assert(k < it.index());
                }
                if d == *x {
                    assert(*sa[it.index()] == d);
                }
            }
        }
    }
    proof {
        assert forall|d: u32| (exists|k: int| 0 <= k < sa.len() && *sa[k] == d) <==> a@.contains(d) by {
            if a@.contains(d) {
                assert(sa.unref().to_set().contains(d));
                let k = choose|k: int| 0 <= k < sa.unref().len() && sa.unref()[k] == d;
                assert(*sa[k] == d);
            }
            if exists|k: int| 0 <= k < sa.len() && *sa[k] == d {
                let k = choose|k: int| 0 <= k < sa.len() && *sa[k] == d;
                assert(sa.unref()[k] == d);
                assert(sa.unref().to_set().contains(d));
            }
        }
        assert(out@ =~= a@);
    }
    let ghost ss = vstd::std_specs::hash::spec_hash_keys_iter(s).remaining();
    for x in it: s.iter()
        invariant
            it.seq() == ss,
            ss == vstd::std_specs::hash::spec_hash_keys_iter(s).remaining(),
            forall|d: u32|
                out@.contains(d) <==> (a@.contains(d) || exists|k: int| 0 <= k < it.index() && *ss[k] == d),
    {
        out.insert(*x);
        proof {
            assert forall|d: u32|
                out@.contains(d) <==> (a@.contains(d) || exists|k: int|
                    0 <= k < it.index() + 1 && *ss[k] == d) by {
                if (exists|k: int| 0 <= k < it.index() + 1 && *ss[k] == d) && d != *x {
                    let k = choose|k: int| 0 <= k < it.index() + 1 && *ss[k] == d;
                    assert(k < it.index());
                }
                if d == *x {
                    assert(*ss[it.index()] == d);
                }
            }
        }
    }
    proof {
        assert forall|d: u32| (exists|k: int| 0 <= k < ss.len() && *ss[k] == d) <==> s@.contains(d) by {
            if s@.contains(d) {
                assert(ss.unref().to_set().contains(d));
                let k = choose|k: int| 0 <= k < ss.unref().len() && ss.unref()[k] == d;
                assert(*ss[k] == d);
            }
            if exists|k: int| 0 <= k < ss.len() && *ss[k] == d {
                let k = choose|k: int| 0 <= k < ss.len() && *ss[k] == d;
                assert(ss.unref()[k] == d);
                assert(ss.unref().to_set().contains(d));
            }
        }
        assert(out@ =~= a@.union(s@));
    }
    out
}

/// Evaluate a query against the index: the set of matching documents.
pub fn evaluate(expr: &BoolExpr, index: &InvertedIndex) -> (r: HashSet<u32>)
    requires
        index.wf(),
    ensures
        r@ == eval(expr@, index@, index.lengths().dom()),
    decreases expr,
{
    let ghost docs = index.lengths().dom();
    match expr {
        BoolExpr::Term(term) => term_set(index, term.as_str()),
        BoolExpr::And(left, right) => {
            let l = evaluate(left, index);
            let r = evaluate(right, index);
            let mut out: HashSet<u32> = HashSet::new();
            let ghost ls = vstd::std_specs::hash::spec_hash_keys_iter(&l).remaining();
            for x in it: l.iter()
                invariant
                    it.seq() == ls,
                    ls == vstd::std_specs::hash::spec_hash_keys_iter(&l).remaining(),
                    forall|d: u32|
                        out@.contains(d) <==> (exists|k: int| 0 <= k < it.index() && *ls[k] == d)
                            && r@.contains(d),
            {
                if r.contains(x) {
                    out.insert(*x);
                }
                proof {
                    assert forall|d: u32|
                        out@.contains(d) <==> (exists|k: int| 0 <= k < it.index() + 1 && *ls[k] == d)
                            && r@.contains(d) by {
                        if (exists|k: int| 0 <= k < it.index() + 1 && *ls[k] == d) && d != *x {
                            let k = choose|k: int| 0 <= k < it.index() + 1 && *ls[k] == d;
                            assert(k < it.index());
                        }
                        if d == *x {
                            assert(*ls[it.index()] == d);
                        }
                    }
                }
            }
            proof {
                assert forall|d: u32| (exists|k: int| 0 <= k < ls.len() && *ls[k] == d) <==> l@.contains(d) by {
                    if l@.contains(d) {
                        assert(ls.unref().to_set().contains(d));
                        let k = choose|k: int| 0 <= k < ls.unref().len() && ls.unref()[k] == d;
                        assert(*ls[k] == d);
                    }
                    if exists|k: int| 0 <= k < ls.len() && *ls[k] == d {
                        let k = choose|k: int| 0 <= k < ls.len() && *ls[k] == d;
                        assert(ls.unref()[k] == d);
                        assert(ls.unref().to_set().contains(d));
                    }
                }
                assert(out@ =~= l@.intersect(r@));
            }
            out
        },
        BoolExpr::Or(left, right) => {
            let l = evaluate(left, index);
            let r = evaluate(right, index);
            union_with(&l, &r)
        },
        BoolExpr::Not(inner) => {
            let all = index.doc_ids();
            let exclude = evaluate(inner, index);
            let mut out: HashSet<u32> = HashSet::new();
            let mut i: usize = 0;
            while i < all.len()
                invariant
                    i <= all@.len(),
                    forall|d: u32|
                        out@.contains(d) <==> (exists|k: int| 0 <= k < i && all@[k] == d)
                            && !exclude@.contains(d),
                decreases all.len() - i,
            {
                let d = all[i];
                if !exclude.contains(&d) {
                    out.insert(d);
                }
                proof {
                    assert forall|e: u32|
                        out@.contains(e) <==> (exists|k: int| 0 <= k < i + 1 && all@[k] == e)
                            && !exclude@.contains(e) by {
                        if (exists|k: int| 0 <= k < i + 1 && all@[k] == e) && e != d {
                            let k = choose|k: int| 0 <= k < i + 1 && all@[k] == e;
                            assert(k < i);
                        }
                        if e == d {
                            assert(all@[i as int] == e);
                        }
                    }
                }
                i += 1;
            }
            proof {
                assert forall|d: u32| (exists|k: int| 0 <= k < all@.len() && all@[k] == d) <==> docs.contains(d) by {
                    if docs.contains(d) {
                        assert(all@.to_set().contains(d));
                    }
                    if exists|k: int| 0 <= k < all@.len() && all@[k] == d {
                        let k = choose|k: int| 0 <= k < all@.len() && all@[k] == d;
                        assert(all@.contains(d));
                    }
                }
                assert(out@ =~= docs.difference(exclude@));
            }
            out
        },
    }
}

/// The terms of `e` outside any NOT, left to right.
pub open spec fn positive_terms(e: Expr) -> Seq<Seq<char>>
    decreases e,
{
    match e {
        Expr::Term(t) => seq![t],
        Expr::And(l, r) => positive_terms(*l) + positive_terms(*r),
        Expr::Or(l, r) => positive_terms(*l) + positive_terms(*r),
        Expr::Not(_) => Seq::empty(),
    }
}

/// The terms of a query that are not negated, for ranking its matches.
pub fn extract_terms(expr: &BoolExpr) -> (r: Vec<String>)
    ensures
        crate::text::views(r@) == positive_terms(expr@),
    decreases expr,
{
    match expr {
        BoolExpr::Term(t) => {
            let mut v: Vec<String> = Vec::new();
            v.push(t.clone());
            proof {
                assert(crate::text::views(v@) =~= seq![t@]);
            }
            v
        },
        BoolExpr::And(l, r) | BoolExpr::Or(l, r) => {
            let mut a = extract_terms(l);
            let mut b = extract_terms(r);
            let ghost av = crate::text::views(a@);
            let ghost bv = crate::text::views(b@);
            a.append(&mut b);
            proof {
                assert(crate::text::views(a@) =~= av + bv);
            }
            a
        },
        BoolExpr::Not(_) => {
            let v: Vec<String> = Vec::new();
            proof {
                assert(crate::text::views(v@) =~= Seq::<Seq<char>>::empty());
            }
            v
        },
    }
}

/// The text of a query: `(a AND b)`, `(a OR b)`, `NOT a`.
pub open spec fn expr_text(e: Expr) -> Seq<char>
    decreases e,
{
    match e {
        Expr::Term(t) => t,
        Expr::And(l, r) => "("@ + expr_text(*l) + " AND "@ + expr_text(*r) + ")"@,
        Expr::Or(l, r) => "("@ + expr_text(*l) + " OR "@ + expr_text(*r) + ")"@,
        Expr::Not(x) => "NOT "@ + expr_text(*x),
    }
}

/// Pretty-print a query.
pub fn format_expr(expr: &BoolExpr) -> (r: String)
    ensures
        r@ == expr_text(expr@),
    decreases expr,
{
    match expr {
        BoolExpr::Term(t) => t.clone(),
        BoolExpr::And(l, r) => {
            let mut s = String::new();
            push_all(&mut s, "(");
            push_all(&mut s, format_expr(l).as_str());
            push_all(&mut s, " AND ");
            push_all(&mut s, format_expr(r).as_str());
            push_all(&mut s, ")");
            proof {
                assert(s@ =~= "("@ + expr_text(l@) + " AND "@ + expr_text(r@) + ")"@);
            }
            s
        },
        BoolExpr::Or(l, r) => {
            let mut s = String::new();
            push_all(&mut s, "(");
            push_all(&mut s, format_expr(l).as_str());
            push_all(&mut s, " OR ");
            push_all(&mut s, format_expr(r).as_str());
            push_all(&mut s, ")");
            proof {
                assert(s@ =~= "("@ + expr_text(l@) + " OR "@ + expr_text(r@) + ")"@);
            }
            s
        },
        BoolExpr::Not(x) => {
            let mut s = String::new();
            push_all(&mut s, "NOT ");
            push_all(&mut s, format_expr(x).as_str());
            proof {
                assert(s@ =~= "NOT "@ + expr_text(x@));
            }
            s
        },
    }
}

// ── Implicit AND ────────────────────────────────────────────────────────

/// A parse result, with the position where reading stopped moved one on.
pub open spec fn shifted(r: Option<(Expr, int)>) -> Option<(Expr, int)> {
    match r {
        Some((e, q)) => Some((e, q + 1)),
        None => None,
    }
}

/// `t2` is `t` with one token inserted at position `p`.
pub open spec fn inserted_at(t: Seq<Tok>, t2: Seq<Tok>, p: int) -> bool {
    &&& 0 <= p <= t.len()
    &&& t2.len() == t.len() + 1
    &&& forall|i: int| p <= i < t.len() ==> t2[i + 1] == t[i]
}

proof fn lemma_or_rest_progress(t: Seq<Tok>, l: Expr, q: int)
    ensures
        p_or_rest(t, l, q) matches Some((_, r)) ==> q <= r <= t.len(),
    decreases t.len() - q,
{
    if 0 <= q <= t.len() && tok_at(t, q) == Some(Tok::Or) {
        match p_and(t, q + 1) {
            Some((r, p2)) => if q < p2 <= t.len() {
                lemma_or_rest_progress(t, Expr::Or(Box::new(l), Box::new(r)), p2);
            },
            None => {},
        }
    }
}

proof fn lemma_and_rest_progress(t: Seq<Tok>, l: Expr, q: int)
    ensures
        p_and_rest(t, l, q) matches Some((_, r)) ==> q <= r <= t.len(),
    decreases t.len() - q,
{
    if 0 <= q <= t.len() {
        if tok_at(t, q) == Some(Tok::And) {
            match p_not(t, q + 1) {
                Some((r, p2)) => if q < p2 <= t.len() {
                    lemma_and_rest_progress(t, Expr::And(Box::new(l), Box::new(r)), p2);
                },
                None => {},
            }
        } else if q < t.len() && starts_operand(t[q]) {
            match p_not(t, q) {
                Some((r, p2)) => if q < p2 <= t.len() {
                    lemma_and_rest_progress(t, Expr::And(Box::new(l), Box::new(r)), p2);
                },
                None => {},
            }
        }
    }
}

/// Reading a NOT expression always moves on.
proof fn lemma_not_progress(t: Seq<Tok>, q: int)
    ensures
        p_not(t, q) matches Some((_, r)) ==> q < r <= t.len(),
{
    if 0 <= q <= t.len() && tok_at(t, q) == Some(Tok::Not) {
        lemma_atom_progress(t, q + 1);
    } else {
        lemma_atom_progress(t, q);
    }
}

proof fn lemma_atom_progress(t: Seq<Tok>, q: int)
    ensures
        p_atom(t, q) matches Some((_, r)) ==> q < r <= t.len(),
{
    if 0 <= q < t.len() && t[q] is LParen {
        match p_and(t, q + 1) {
            Some((l, p1)) => if q + 1 < p1 <= t.len() {
                lemma_or_rest_progress(t, l, p1);
            },
            None => {},
        }
    }
}

proof fn lemma_shift_or(t: Seq<Tok>, t2: Seq<Tok>, p: int, q: int)
    requires
        inserted_at(t, t2, p),
        p <= q,
    ensures
        p_or(t2, q + 1) == shifted(p_or(t, q)),
    decreases t.len() - q, 3int,
{
    if q <= t.len() {
        lemma_shift_and(t, t2, p, q);
        match p_and(t, q) {
            Some((l, p1)) => if q < p1 <= t.len() {
                lemma_shift_or_rest(t, t2, p, l, p1);
            },
            None => {},
        }
    }
}

proof fn lemma_shift_or_rest(t: Seq<Tok>, t2: Seq<Tok>, p: int, l: Expr, q: int)
    requires
        inserted_at(t, t2, p),
        p <= q,
    ensures
        p_or_rest(t2, l, q + 1) == shifted(p_or_rest(t, l, q)),
    decreases t.len() - q, 4int,
{
    if q <= t.len() {
        assert(tok_at(t2, q + 1) == tok_at(t, q));
        if tok_at(t, q) == Some(Tok::Or) {
            lemma_shift_and(t, t2, p, q + 1);
            match p_and(t, q + 1) {
                Some((r, p2)) => if q < p2 <= t.len() {
                    lemma_shift_or_rest(t, t2, p, Expr::Or(Box::new(l), Box::new(r)), p2);
                },
                None => {},
            }
        }
    }
}

proof fn lemma_shift_and(t: Seq<Tok>, t2: Seq<Tok>, p: int, q: int)
    requires
        inserted_at(t, t2, p),
        p <= q,
    ensures
        p_and(t2, q + 1) == shifted(p_and(t, q)),
    decreases t.len() - q, 2int,
{
    if q <= t.len() {
        lemma_shift_not(t, t2, p, q);
        match p_not(t, q) {
            Some((l, p1)) => if q < p1 <= t.len() {
                lemma_shift_and_rest(t, t2, p, l, p1);
            },
            None => {},
        }
    }
}

proof fn lemma_shift_and_rest(t: Seq<Tok>, t2: Seq<Tok>, p: int, l: Expr, q: int)
    requires
        inserted_at(t, t2, p),
        p <= q,
    ensures
        p_and_rest(t2, l, q + 1) == shifted(p_and_rest(t, l, q)),
    decreases t.len() - q, 4int,
{
    if q <= t.len() {
        assert(tok_at(t2, q + 1) == tok_at(t, q));
        if tok_at(t, q) == Some(Tok::And) {
            lemma_shift_not(t, t2, p, q + 1);
            match p_not(t, q + 1) {
                Some((r, p2)) => if q < p2 <= t.len() {
                    lemma_shift_and_rest(t, t2, p, Expr::And(Box::new(l), Box::new(r)), p2);
                },
                None => {},
            }
        } else if q < t.len() && starts_operand(t[q]) {
            assert(t2[q + 1] == t[q]);
            lemma_shift_not(t, t2, p, q);
            match p_not(t, q) {
                Some((r, p2)) => if q < p2 <= t.len() {
                    lemma_shift_and_rest(t, t2, p, Expr::And(Box::new(l), Box::new(r)), p2);
                },
                None => {},
            }
        }
    }
}

proof fn lemma_shift_not(t: Seq<Tok>, t2: Seq<Tok>, p: int, q: int)
    requires
        inserted_at(t, t2, p),
        p <= q,
    ensures
        p_not(t2, q + 1) == shifted(p_not(t, q)),
    decreases t.len() - q, 1int,
{
    if q <= t.len() {
        assert(tok_at(t2, q + 1) == tok_at(t, q));
        if tok_at(t, q) == Some(Tok::Not) {
            lemma_shift_atom(t, t2, p, q + 1);
        } else {
            lemma_shift_atom(t, t2, p, q);
        }
    }
}

proof fn lemma_shift_atom(t: Seq<Tok>, t2: Seq<Tok>, p: int, q: int)
    requires
        inserted_at(t, t2, p),
        p <= q,
    ensures
        p_atom(t2, q + 1) == shifted(p_atom(t, q)),
    decreases t.len() - q, 0int,
{
    if q < t.len() {
        assert(t2[q + 1] == t[q]);
        if t[q] is LParen {
            lemma_shift_or(t, t2, p, q + 1);
            match p_and(t, q + 1) {
                Some((l, p1)) => if q + 1 < p1 <= t.len() {
                    lemma_or_rest_progress(t, l, p1);
                },
                None => {},
            }
            match p_or(t, q + 1) {
                Some((e, p1)) => {
                    assert(tok_at(t2, p1 + 1) == tok_at(t, p1));
                },
                None => {},
            }
        }
    }
}

/// Two adjacent operands are ANDed: within a conjunction, an operand that
/// directly follows the one read so far is read exactly as if `AND` stood
/// between them ("tcp socket" is "tcp AND socket").
pub proof fn lemma_implicit_and(t: Seq<Tok>, left: Expr, p: int)
    requires
        0 <= p < t.len(),
        starts_operand(t[p]),
    ensures
        p_and_rest(t.insert(p, Tok::And), left, p) == shifted(p_and_rest(t, left, p)),
{
    let t2 = t.insert(p, Tok::And);
    assert(inserted_at(t, t2, p));
    assert(tok_at(t2, p) == Some(Tok::And));
    lemma_shift_not(t, t2, p, p);
    lemma_not_progress(t, p);
    match p_not(t, p) {
        Some((r, p2)) => {
            lemma_shift_and_rest(t, t2, p, Expr::And(Box::new(left), Box::new(r)), p2);
        },
        None => {},
    }
}

} // verus!
