//! Character-level helpers shared by the tokenizer, the query language,
//! the document store and the robots.txt reader.
//!
//! Strings are modelled by their view, a `Seq<char>`.  Unicode character
//! classes and case mappings come from std and are named here.
use vstd::prelude::*;
use vstd::utf8::{encode_scalar, encode_utf8};

verus! {

// ── Unicode facts taken from std ────────────────────────────────────────

/// What `char::is_alphanumeric` answers for `c` (Unicode Alphabetic or Numeric).
pub uninterp spec fn char_is_alphanumeric(c: char) -> bool;

/// Unicode White_Space, what `char::is_whitespace` answers: tab, line
/// feed, vertical tab, form feed, carriage return, space, next line,
/// no-break space, ogham space mark, the spaces U+2000 to U+200A, line and
/// paragraph separators, narrow no-break space, medium mathematical space
/// and ideographic space.
pub open spec fn char_is_whitespace(c: char) -> bool {
    let u = c as u32;
    (0x9 <= u <= 0xD) || u == 0x20 || u == 0x85 || u == 0xA0 || u == 0x1680 || (0x2000 <= u
        <= 0x200A) || u == 0x2028 || u == 0x2029 || u == 0x202F || u == 0x205F || u == 0x3000
}

/// What `str::to_lowercase` returns for a string with these characters.
pub uninterp spec fn str_lowercase(s: Seq<char>) -> Seq<char>;

/// What `str::to_uppercase` returns for a string with these characters.
pub uninterp spec fn str_uppercase(s: Seq<char>) -> Seq<char>;

/// Calls `char::is_alphanumeric`; the answer is the named Unicode property.
#[verifier::external_body]
pub(crate) fn is_alphanumeric(c: char) -> (r: bool)
    ensures
        r == char_is_alphanumeric(c),
{
    c.is_alphanumeric()
}

/// Whether `c` is Unicode White_Space.
pub(crate) fn is_whitespace(c: char) -> (r: bool)
    ensures
        r == char_is_whitespace(c),
{
    let u = c as u32;
    (0x9 <= u && u <= 0xD) || u == 0x20 || u == 0x85 || u == 0xA0 || u == 0x1680 || (0x2000 <= u
        && u <= 0x200A) || u == 0x2028 || u == 0x2029 || u == 0x202F || u == 0x205F || u == 0x3000
}

/// Calls `str::to_lowercase`; the result is the named full Unicode lowercase mapping.
#[verifier::external_body]
pub(crate) fn to_lowercase(s: &str) -> (r: String)
    ensures
        r@ == str_lowercase(s@),
{
    s.to_lowercase()
}

/// Calls `str::to_uppercase`; the result is the named full Unicode uppercase mapping.
#[verifier::external_body]
pub(crate) fn to_uppercase(s: &str) -> (r: String)
    ensures
        r@ == str_uppercase(s@),
{
    s.to_uppercase()
}

/// Calls `String::push`, which appends one character.
#[verifier::external_body]
pub(crate) fn push_char(s: &mut String, c: char)
    ensures
        final(s)@ == old(s)@.push(c),
{
    s.push(c)
}

// ── Plain sequence predicates ───────────────────────────────────────────

/// Number of bytes of the UTF-8 encoding of `s` (what `str::len` counts).
pub open spec fn byte_len(s: Seq<char>) -> nat {
    encode_utf8(s).len()
}

/// `w` ends with `suf`.
pub open spec fn seq_ends_with(w: Seq<char>, suf: Seq<char>) -> bool {
    suf.len() <= w.len() && w.subrange(w.len() - suf.len(), w.len() as int) == suf
}

/// `w` starts with `pre`.
pub open spec fn seq_starts_with(w: Seq<char>, pre: Seq<char>) -> bool {
    pre.len() <= w.len() && w.subrange(0, pre.len() as int) == pre
}

/// `w` with its last `n` characters removed.
pub open spec fn drop_end(w: Seq<char>, n: int) -> Seq<char> {
    w.subrange(0, w.len() - n)
}

/// `needle` occurs as a contiguous block of `hay`.
pub open spec fn seq_contains_seq(hay: Seq<char>, needle: Seq<char>) -> bool {
    exists|i: int|
        0 <= i && i + needle.len() <= hay.len() && #[trigger] hay.subrange(i, i + needle.len())
            == needle
}

/// Pieces of `s` between characters satisfying `sep`, empty pieces included,
/// as `str::split` with a predicate yields them.
pub open spec fn split_by(s: Seq<char>, sep: spec_fn(char) -> bool) -> Seq<Seq<char>>
    decreases s.len(),
{
    if s.len() == 0 {
        seq![Seq::<char>::empty()]
    } else {
        let prev = split_by(s.drop_last(), sep);
        if sep(s.last()) {
            prev.push(Seq::<char>::empty())
        } else {
            prev.update(prev.len() - 1, prev.last().push(s.last()))
        }
    }
}

/// `split_by` never yields an empty list of pieces.
pub proof fn lemma_split_by_nonempty(s: Seq<char>, sep: spec_fn(char) -> bool)
    ensures
        split_by(s, sep).len() >= 1,
    decreases s.len(),
{
    if s.len() > 0 {
        lemma_split_by_nonempty(s.drop_last(), sep);
    }
}

/// The non-empty pieces of `ps`, in order.
pub open spec fn non_empty_pieces(ps: Seq<Seq<char>>) -> Seq<Seq<char>>
    decreases ps.len(),
{
    if ps.len() == 0 {
        Seq::empty()
    } else if ps.last().len() > 0 {
        non_empty_pieces(ps.drop_last()).push(ps.last())
    } else {
        non_empty_pieces(ps.drop_last())
    }
}

/// The words of `s`, as `str::split_whitespace` yields them.
pub open spec fn split_ws(s: Seq<char>) -> Seq<Seq<char>> {
    non_empty_pieces(split_by(s, |c: char| char_is_whitespace(c)))
}

/// ASCII lowercase of one character (`char::to_ascii_lowercase`).
pub open spec fn ascii_lower(c: char) -> char {
    if 'A' <= c <= 'Z' {
        ((c as u32) + 32) as char
    } else {
        c
    }
}

/// `str::to_ascii_lowercase`.
pub open spec fn seq_ascii_lower(s: Seq<char>) -> Seq<char> {
    s.map_values(|c: char| ascii_lower(c))
}

/// Index of the first whitespace-free start of `s` (what `trim` keeps from the left).
pub open spec fn trim_start_index(s: Seq<char>) -> int
    decreases s.len(),
{
    if s.len() == 0 {
        0
    } else if char_is_whitespace(s[0]) {
        1 + trim_start_index(s.drop_first())
    } else {
        0
    }
}

/// Index just after the last non-whitespace character of `s`.
pub open spec fn trim_end_index(s: Seq<char>) -> int
    decreases s.len(),
{
    if s.len() == 0 {
        0
    } else if char_is_whitespace(s.last()) {
        trim_end_index(s.drop_last())
    } else {
        s.len() as int
    }
}

/// `str::trim`: leading and trailing Unicode whitespace removed.
pub open spec fn seq_trim(s: Seq<char>) -> Seq<char> {
    let a = trim_start_index(s);
    let b = trim_end_index(s);
    if a < b {
        s.subrange(a, b)
    } else {
        Seq::empty()
    }
}

/// The views of a list of strings.
pub open spec fn views(v: Seq<String>) -> Seq<Seq<char>> {
    v.map_values(|s: String| s@)
}

// ── Executable helpers ──────────────────────────────────────────────────

/// The characters of `s`, in order.
pub fn chars_of(s: &str) -> (v: Vec<char>)
    ensures
        v@ == s@,
{
    let mut v: Vec<char> = Vec::new();
    for c in it: s.chars()
        invariant
            v@ == it.seq().take(it.index() as int),
            it.seq() == s@,
    {
        v.push(c);
    }
    v
}

/// A `String` holding the characters of `v`.
pub fn string_from_chars(v: &[char]) -> (s: String)
    ensures
        s@ == v@,
{
    let mut s = String::new();
    let mut i: usize = 0;
    while i < v.len()
        invariant
            i <= v.len(),
            s@ == v@.take(i as int),
        decreases v.len() - i,
    {
        push_char(&mut s, v[i]);
        i += 1;
        assert(s@ =~= v@.take(i as int));
    }
    assert(v@.take(v.len() as int) =~= v@);
    s
}

/// Appends the characters of `src` to `dst`.
pub fn push_all(dst: &mut String, src: &str)
    ensures
        final(dst)@ == old(dst)@ + src@,
{
    let cs = chars_of(src);
    let mut i: usize = 0;
    while i < cs.len()
        invariant
            i <= cs.len(),
            cs@ == src@,
            dst@ == old(dst)@ + cs@.take(i as int),
        decreases cs.len() - i,
    {
        push_char(dst, cs[i]);
        i += 1;
        assert(dst@ =~= old(dst)@ + cs@.take(i as int));
    }
    assert(cs@.take(cs.len() as int) =~= cs@);
}

/// Whether two character sequences are equal.
pub fn chars_eq(a: &[char], b: &[char]) -> (r: bool)
    ensures
        r == (a@ == b@),
{
    if a.len() != b.len() {
        return false;
    }
    let mut i: usize = 0;
    while i < a.len()
        invariant
            i <= a.len(),
            a.len() == b.len(),
            forall|j: int| 0 <= j < i ==> a@[j] == b@[j],
        decreases a.len() - i,
    {
        if a[i] != b[i] {
            return false;
        }
        i += 1;
    }
    assert(a@ =~= b@);
    true
}

/// Whether two strings hold the same characters.
pub fn str_eq(a: &str, b: &str) -> (r: bool)
    ensures
        r == (a@ == b@),
{
    let x = chars_of(a);
    let y = chars_of(b);
    chars_eq(x.as_slice(), y.as_slice())
}

/// Whether `w` ends with `suf`.
pub fn ends_with(w: &[char], suf: &[char]) -> (r: bool)
    ensures
        r == seq_ends_with(w@, suf@),
{
    if suf.len() > w.len() {
        return false;
    }
    let off = w.len() - suf.len();
    let mut i: usize = 0;
    while i < suf.len()
        invariant
            off + suf.len() == w.len(),
            i <= suf.len(),
            forall|j: int| 0 <= j < i ==> w@[off + j] == suf@[j],
        decreases suf.len() - i,
    {
        if w[off + i] != suf[i] {
            assert(w@.subrange(off as int, w.len() as int)[i as int] != suf@[i as int]);
            return false;
        }
        i += 1;
    }
    assert(w@.subrange(off as int, w.len() as int) =~= suf@);
    true
}

/// Whether `w` starts with `pre`.
pub fn starts_with(w: &[char], pre: &[char]) -> (r: bool)
    ensures
        r == seq_starts_with(w@, pre@),
{
    if pre.len() > w.len() {
        return false;
    }
    let mut i: usize = 0;
    while i < pre.len()
        invariant
            pre.len() <= w.len(),
            i <= pre.len(),
            forall|j: int| 0 <= j < i ==> w@[j] == pre@[j],
        decreases pre.len() - i,
    {
        if w[i] != pre[i] {
            assert(w@.subrange(0, pre.len() as int)[i as int] != pre@[i as int]);
            return false;
        }
        i += 1;
    }
    assert(w@.subrange(0, pre.len() as int) =~= pre@);
    true
}

/// Whether `w` ends with the character `c`.
pub fn ends_with_char(w: &[char], c: char) -> (r: bool)
    ensures
        r == (w@.len() > 0 && w@.last() == c),
{
    w.len() > 0 && w[w.len() - 1] == c
}

/// Whether `needle` occurs as a contiguous block of `hay`.
pub fn contains_chars(hay: &[char], needle: &[char]) -> (r: bool)
    ensures
        r == seq_contains_seq(hay@, needle@),
{
    if needle.len() > hay.len() {
        proof {
            assert forall|i: int|
                0 <= i && i + needle@.len() <= hay@.len() implies #[trigger] hay@.subrange(
                i,
                i + needle@.len(),
            ) != needle@ by {}
        }
        return false;
    }
    let last = hay.len() - needle.len();
    let mut i: usize = 0;
    while i <= last
        invariant
            last + needle.len() == hay.len(),
            i <= last + 1,
            forall|k: int|
                0 <= k < i ==> #[trigger] hay@.subrange(k, k + needle@.len()) != needle@,
        decreases last + 1 - i,
    {
        let mut j: usize = 0;
        let mut same = true;
        while j < needle.len()
            invariant
                last + needle.len() == hay.len(),
                i <= last,
                j <= needle.len(),
                same == (forall|t: int| 0 <= t < j ==> hay@[i + t] == needle@[t]),
            decreases needle.len() - j,
        {
            if hay[i + j] != needle[j] {
                same = false;
            }
            j += 1;
        }
        if same {
            assert(hay@.subrange(i as int, i + needle@.len()) =~= needle@);
            return true;
        }
        proof {
            let t = choose|t: int| 0 <= t < needle@.len() && hay@[i + t] != needle@[t];
            assert(hay@.subrange(i as int, i + needle@.len())[t] != needle@[t]);
        }
        i += 1;
    }
    proof {
        assert forall|k: int|
            0 <= k && k + needle@.len() <= hay@.len() implies #[trigger] hay@.subrange(
            k,
            k + needle@.len(),
        ) != needle@ by {
            assert(k < i);
        }
    }
    false
}

/// The UTF-8 width of `c` in bytes (`char::len_utf8`).
pub open spec fn char_width(c: char) -> nat {
    if (c as u32) < 0x80 {
        1
    } else if (c as u32) < 0x800 {
        2
    } else if (c as u32) < 0x10000 {
        3
    } else {
        4
    }
}

/// Number of UTF-8 bytes of `s`, character by character.
pub open spec fn width_sum(s: Seq<char>) -> nat
    decreases s.len(),
{
    if s.len() == 0 {
        0
    } else {
        width_sum(s.drop_last()) + char_width(s.last())
    }
}

/// The UTF-8 encoding of `s` followed by `c` is that of `s`, then that of `c`.
pub proof fn lemma_encode_utf8_push(s: Seq<char>, c: char)
    ensures
        encode_utf8(s.push(c)) =~= encode_utf8(s) + encode_scalar(c as u32),
    decreases s.len(),
{
    if s.len() == 0 {
        assert(s.push(c).drop_first() =~= Seq::<char>::empty());
        assert(encode_utf8(Seq::<char>::empty()) =~= Seq::<u8>::empty());
        assert(encode_utf8(s) =~= Seq::<u8>::empty());
    } else {
        assert(s.push(c).drop_first() =~= s.drop_first().push(c));
        lemma_encode_utf8_push(s.drop_first(), c);
        assert(s.push(c)[0] == s[0]);
        assert(encode_utf8(s.push(c)) == encode_scalar(s[0] as u32) + encode_utf8(s.drop_first().push(c)));
    }
}

/// The width of a character is the length of its UTF-8 encoding.
pub proof fn lemma_char_width(c: char)
    ensures
        encode_scalar(c as u32).len() == char_width(c),
        1 <= char_width(c) <= 4,
{
    vstd::utf8::char_is_scalar(c);
}

/// `width_sum` counts the bytes of the UTF-8 encoding.
pub proof fn lemma_byte_len_width_sum(s: Seq<char>)
    ensures
        byte_len(s) == width_sum(s),
        width_sum(s) >= s.len(),
    decreases s.len(),
{
    if s.len() > 0 {
        lemma_byte_len_width_sum(s.drop_last());
        lemma_encode_utf8_push(s.drop_last(), s.last());
        assert(s.drop_last().push(s.last()) =~= s);
        lemma_char_width(s.last());
    }
}

/// Whether the UTF-8 encoding of `w` is longer than `k` bytes, for small `k`.
pub fn byte_len_exceeds(w: &[char], k: usize) -> (r: bool)
    requires
        k <= 8,
    ensures
        r == (byte_len(w@) > k),
{
    proof {
        lemma_byte_len_width_sum(w@);
    }
    if w.len() > k {
        return true;
    }
    let mut n: usize = 0;
    let mut i: usize = 0;
    while i < w.len()
        invariant
            i <= w.len() <= k <= 8,
            n == width_sum(w@.take(i as int)),
            n <= 4 * i,
        decreases w.len() - i,
    {
        proof {
            assert(w@.take(i + 1).drop_last() =~= w@.take(i as int));
            lemma_char_width(w@[i as int]);
        }
        let x = w[i] as u32;
        let d: usize = if x < 0x80 {
            1
        } else if x < 0x800 {
            2
        } else if x < 0x10000 {
            3
        } else {
            4
        };
        n = n + d;
        i += 1;
    }
    assert(w@.take(w.len() as int) =~= w@);
    n > k
}

/// The words of `s`, split at whitespace, as `str::split_whitespace` yields them.
pub fn split_whitespace(s: &str) -> (r: Vec<String>)
    ensures
        views(r@) == split_ws(s@),
{
    let cs = chars_of(s);
    let ghost sep = |c: char| char_is_whitespace(c);
    let mut out: Vec<String> = Vec::new();
    let mut cur: Vec<char> = Vec::new();
    let mut i: usize = 0;
    proof {
        assert(cs@.take(0) =~= Seq::<char>::empty());
        assert(views(out@) =~= Seq::<Seq<char>>::empty());
    }
    while i < cs.len()
        invariant
            i <= cs.len(),
            cs@ == s@,
            sep == (|c: char| char_is_whitespace(c)),
            views(out@) == non_empty_pieces(split_by(cs@.take(i as int), sep).drop_last()),
            cur@ == split_by(cs@.take(i as int), sep).last(),
        decreases cs.len() - i,
    {
        let ghost prev = split_by(cs@.take(i as int), sep);
        proof {
            lemma_split_by_nonempty(cs@.take(i as int), sep);
            assert(cs@.take(i + 1).drop_last() =~= cs@.take(i as int));
        }
        let c = cs[i];
        if is_whitespace(c) {
            if cur.len() > 0 {
                out.push(string_from_chars(&cur));
            }
            proof {
                assert(prev.push(Seq::<char>::empty()).drop_last() =~= prev);
                assert(prev =~= prev.drop_last().push(prev.last()));
                assert(views(out@) =~= non_empty_pieces(prev));
            }
            cur = Vec::new();
        } else {
            cur.push(c);
            proof {
                assert(prev.update(prev.len() - 1, prev.last().push(c)).drop_last()
                    =~= prev.drop_last());
            }
        }
        i += 1;
    }
    proof {
        let all = split_by(cs@.take(i as int), sep);
        lemma_split_by_nonempty(cs@.take(i as int), sep);
        assert(all =~= all.drop_last().push(all.last()));
        assert(cs@.take(i as int) =~= cs@);
    }
    if cur.len() > 0 {
        out.push(string_from_chars(&cur));
    }
    proof {
        assert(views(out@) =~= split_ws(s@));
    }
    out
}

/// The words of `ws` separated by single spaces, as `join(" ")` builds them.
pub open spec fn join_space(ws: Seq<Seq<char>>) -> Seq<char>
    decreases ws.len(),
{
    if ws.len() == 0 {
        Seq::empty()
    } else if ws.len() == 1 {
        ws[0]
    } else {
        join_space(ws.drop_last()) + seq![' '] + ws.last()
    }
}

/// Joins `ws` with single spaces.
pub fn join_with_space(ws: &Vec<String>) -> (r: String)
    ensures
        r@ == join_space(views(ws@)),
{
    let mut r = String::new();
    let mut i: usize = 0;
    while i < ws.len()
        invariant
            i <= ws.len(),
            r@ == join_space(views(ws@).take(i as int)),
        decreases ws.len() - i,
    {
        if i > 0 {
            push_char(&mut r, ' ');
        }
        push_all(&mut r, ws[i].as_str());
        proof {
            assert(views(ws@).take(i + 1).drop_last() =~= views(ws@).take(i as int));
            if i == 0 {
                assert(r@ =~= views(ws@).take(1)[0]);
            }
        }
        i += 1;
    }
    assert(views(ws@).take(ws.len() as int) =~= views(ws@));
    r
}

/// The decimal digit `d` as a character.
pub open spec fn digit_char(d: nat) -> char {
    if d == 0 { '0' } else if d == 1 { '1' } else if d == 2 { '2' } else if d == 3 { '3' }
    else if d == 4 { '4' } else if d == 5 { '5' } else if d == 6 { '6' } else if d == 7 { '7' }
    else if d == 8 { '8' } else { '9' }
}

/// The decimal notation of `n`, without leading zeros.
pub open spec fn decimal(n: nat) -> Seq<char>
    decreases n,
{
    if n < 10 {
        seq![digit_char(n)]
    } else {
        decimal(n / 10).push(digit_char(n % 10))
    }
}

fn digit(d: usize) -> (c: char)
    requires
        d < 10,
    ensures
        c == digit_char(d as nat),
{
    if d == 0 { '0' } else if d == 1 { '1' } else if d == 2 { '2' } else if d == 3 { '3' }
    else if d == 4 { '4' } else if d == 5 { '5' } else if d == 6 { '6' } else if d == 7 { '7' }
    else if d == 8 { '8' } else { '9' }
}

/// The decimal notation of `n`.
pub fn usize_to_decimal(n: usize) -> (r: String)
    ensures
        r@ == decimal(n as nat),
{
    let mut x = n;
    let mut tail: Vec<char> = Vec::new();
    assert(decimal(n as nat) =~= decimal(x as nat) + tail@);
    while x >= 10
        invariant
            decimal(n as nat) == decimal(x as nat) + tail@,
        decreases x,
    {
        let c = digit(x % 10);
        let ghost t = tail@;
        tail.insert(0, c);
        proof {
            assert(decimal(x as nat) == decimal((x / 10) as nat).push(c));
            assert(decimal((x / 10) as nat).push(c) + t =~= decimal((x / 10) as nat) + tail@);
        }
        x = x / 10;
    }
    tail.insert(0, digit(x));
    proof {
        assert(decimal(n as nat) =~= tail@);
    }
    string_from_chars(&tail)
}

/// `cs` with leading and trailing whitespace removed.
pub fn trim_chars(cs: &[char]) -> (r: Vec<char>)
    ensures
        r@ == seq_trim(cs@),
{
    let ghost s = cs@;
    let n = cs.len();
    let mut a: usize = 0;
    proof {
        assert(s.subrange(0, s.len() as int) =~= s);
    }
    while a < n && is_whitespace(cs[a])
        invariant
            a <= n == s.len(),
            s == cs@,
            trim_start_index(s) == a + trim_start_index(s.subrange(a as int, s.len() as int)),
        decreases n - a,
    {
        let ghost rest = s.subrange(a as int, s.len() as int);
        assert(rest[0] == s[a as int]);
        assert(rest.drop_first() =~= s.subrange(a + 1, s.len() as int));
        a += 1;
    }
    proof {
        let rest = s.subrange(a as int, s.len() as int);
        if a < n {
            assert(rest[0] == s[a as int]);
        }
    }
    let mut b: usize = n;
    proof {
        assert(s.take(n as int) =~= s);
    }
    while b > 0 && is_whitespace(cs[b - 1])
        invariant
            b <= n == s.len(),
            s == cs@,
            trim_end_index(s) == trim_end_index(s.take(b as int)),
        decreases b,
    {
        assert(s.take(b as int).last() == s[b - 1]);
        assert(s.take(b as int).drop_last() =~= s.take(b - 1));
        b -= 1;
    }
    proof {
        if b > 0 {
            assert(s.take(b as int).last() == s[b - 1]);
        }
    }
    let mut r: Vec<char> = Vec::new();
    if a < b {
        let mut k = a;
        while k < b
            invariant
                a <= k <= b <= n == s.len(),
                s == cs@,
                r@ == s.subrange(a as int, k as int),
            decreases b - k,
        {
            r.push(cs[k]);
            k += 1;
            assert(r@ =~= s.subrange(a as int, k as int));
        }
    } else {
        assert(r@ =~= Seq::<char>::empty());
    }
    r
}

/// `cs` with ASCII letters lowercased.
pub fn ascii_lower_chars(cs: &[char]) -> (r: Vec<char>)
    ensures
        r@ == seq_ascii_lower(cs@),
{
    let mut r: Vec<char> = Vec::new();
    let mut i: usize = 0;
    while i < cs.len()
        invariant
            i <= cs@.len(),
            r@ == seq_ascii_lower(cs@.take(i as int)),
        decreases cs.len() - i,
    {
        let c = cs[i];
        let l = if 'A' <= c && c <= 'Z' {
            ((c as u8) + 32) as char
        } else {
            c
        };
        r.push(l);
        i += 1;
        assert(r@ =~= seq_ascii_lower(cs@.take(i as int)));
    }
    assert(cs@.take(cs@.len() as int) =~= cs@);
    r
}

/// Whether `list` holds `k`.
pub fn has_str(list: &Vec<String>, k: &str) -> (r: bool)
    ensures
        r == views(list@).contains(k@),
{
    let mut i: usize = 0;
    while i < list.len()
        invariant
            i <= list@.len(),
            forall|j: int| 0 <= j < i ==> list@[j]@ != k@,
        decreases list.len() - i,
    {
        if str_eq(list[i].as_str(), k) {
            assert(views(list@)[i as int] == k@);
            return true;
        }
        i += 1;
    }
    proof {
        if views(list@).contains(k@) {
            let j = choose|j: int| 0 <= j < list@.len() && views(list@)[j] == k@;
            assert(list@[j]@ == k@);
        }
    }
    false
}

} // verus!
