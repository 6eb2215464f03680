//! Tokenizer: lowercase, split on non-alphanumeric characters, drop short
//! words and stop words, then stem with a simplified Porter stemmer.
use vstd::prelude::*;
use vstd::utf8::encode_utf8;
use crate::text::{
    byte_len, byte_len_exceeds, chars_eq, chars_of, char_is_alphanumeric, drop_end, ends_with,
    ends_with_char, is_alphanumeric, lemma_split_by_nonempty, seq_ends_with, split_by,
    str_lowercase, string_from_chars, to_lowercase, views, char_width, width_sum,
};

verus! {

// ── Specification ───────────────────────────────────────────────────────

/// The vowels of the stemmer.
pub open spec fn is_vowel(c: char) -> bool {
    c == 'a' || c == 'e' || c == 'i' || c == 'o' || c == 'u'
}

/// Number of vowel-to-consonant transitions in `s` (Porter's measure).
pub open spec fn measure(s: Seq<char>) -> nat
    decreases s.len(),
{
    if s.len() < 2 {
        0
    } else {
        measure(s.drop_last()) + if !is_vowel(s.last()) && is_vowel(s[s.len() - 2]) {
            1nat
        } else {
            0nat
        }
    }
}

/// `s` holds a vowel.
pub open spec fn has_vowel(s: Seq<char>) -> bool {
    exists|i: int| 0 <= i < s.len() && is_vowel(#[trigger] s[i])
}

/// The last two bytes of the UTF-8 encoding of `s` are equal and the last one is not a vowel.
pub open spec fn ends_double_consonant(s: Seq<char>) -> bool {
    let b = encode_utf8(s);
    b.len() >= 2 && b[b.len() - 1] == b[b.len() - 2] && !is_vowel(b[b.len() - 1] as char)
}

/// `s` ends consonant-vowel-consonant, the last consonant not being w, x or y.
pub open spec fn ends_cvc(s: Seq<char>) -> bool {
    s.len() >= 3 && !is_vowel(s[s.len() - 3]) && is_vowel(s[s.len() - 2]) && !is_vowel(s.last())
        && s.last() != 'w' && s.last() != 'x' && s.last() != 'y'
}

/// `s` ends with the character `c`.
pub open spec fn ends_char(s: Seq<char>, c: char) -> bool {
    s.len() > 0 && s.last() == c
}

/// Step 1a: plurals.
pub open spec fn step1a(w: Seq<char>) -> Seq<char> {
    if seq_ends_with(w, "sses"@) {
        drop_end(w, 2)
    } else if seq_ends_with(w, "ies"@) {
        drop_end(w, 2)
    } else if !seq_ends_with(w, "ss"@) && ends_char(w, 's') {
        drop_end(w, 1)
    } else {
        w
    }
}

/// Clean-up after removing -ed or -ing.
pub open spec fn step1b_fixup(w: Seq<char>) -> Seq<char> {
    if seq_ends_with(w, "at"@) || seq_ends_with(w, "bl"@) || seq_ends_with(w, "iz"@) {
        w.push('e')
    } else if ends_double_consonant(w) && !ends_char(w, 'l') && !ends_char(w, 's') && !ends_char(
        w,
        'z',
    ) {
        drop_end(w, 1)
    } else if measure(w) == 1 && ends_cvc(w) {
        w.push('e')
    } else {
        w
    }
}

/// Step 1b: -eed, -ed, -ing.
pub open spec fn step1b(w: Seq<char>) -> Seq<char> {
    if seq_ends_with(w, "eed"@) {
        if measure(drop_end(w, 3)) > 0 {
            drop_end(w, 1)
        } else {
            w
        }
    } else if seq_ends_with(w, "ed"@) {
        if has_vowel(drop_end(w, 2)) {
            step1b_fixup(drop_end(w, 2))
        } else {
            w
        }
    } else if seq_ends_with(w, "ing"@) {
        if has_vowel(drop_end(w, 3)) {
            step1b_fixup(drop_end(w, 3))
        } else {
            w
        }
    } else {
        w
    }
}

/// Step 1c: y to i after a vowel-bearing stem.
pub open spec fn step1c(w: Seq<char>) -> Seq<char> {
    if ends_char(w, 'y') && has_vowel(drop_end(w, 1)) {
        drop_end(w, 1).push('i')
    } else {
        w
    }
}

/// Number of rules in a suffix table.
pub open spec fn rule_count(table: int) -> int {
    if table == 2 {
        20
    } else {
        7
    }
}

/// Applies the first rule of `table`, from position `i` on, whose suffix ends `w`:
/// its replacement is made when the remaining stem has a positive measure.
pub open spec fn apply_rules(w: Seq<char>, table: int, i: int) -> Seq<char>
    decreases rule_count(table) - i,
{
    if i < 0 || i >= rule_count(table) {
        w
    } else {
        let (suf, rep) = suffix_rule(table, i);
        if seq_ends_with(w, suf) {
            if measure(drop_end(w, suf.len() as int)) > 0 {
                drop_end(w, suf.len() as int) + rep
            } else {
                w
            }
        } else {
            apply_rules(w, table, i + 1)
        }
    }
}

/// Step 4, from suffix position `i` on.
pub open spec fn step4_from(w: Seq<char>, i: int) -> Seq<char>
    decreases 19 - i,
{
    if i < 0 || i >= 19 {
        w
    } else {
        let suf = step4_suffix(i);
        if seq_ends_with(w, suf) {
            let stem = drop_end(w, suf.len() as int);
            if measure(stem) > 1 {
                if i == 11 {
                    if ends_char(stem, 's') || ends_char(stem, 't') {
                        stem
                    } else {
                        w
                    }
                } else {
                    stem
                }
            } else {
                w
            }
        } else {
            step4_from(w, i + 1)
        }
    }
}

/// Step 5a: a trailing e goes when the measure allows it.
pub open spec fn step5a(w: Seq<char>) -> Seq<char> {
    if ends_char(w, 'e') {
        let s = drop_end(w, 1);
        if measure(s) > 1 || (measure(s) == 1 && !ends_cvc(s)) {
            s
        } else {
            w
        }
    } else {
        w
    }
}

/// Step 5b: ll becomes l when the measure exceeds one.
pub open spec fn step5b(w: Seq<char>) -> Seq<char> {
    if seq_ends_with(w, "ll"@) && measure(drop_end(w, 1)) > 1 {
        drop_end(w, 1)
    } else {
        w
    }
}

/// The stem of a word: words of at most two bytes are kept, others go through all steps.
pub open spec fn spec_stem(word: Seq<char>) -> Seq<char> {
    if byte_len(word) <= 2 {
        word
    } else {
        step5b(
            step5a(
                step4_from(
                    apply_rules(apply_rules(step1c(step1b(step1a(word))), 2, 0), 3, 0),
                    0,
                ),
            ),
        )
    }
}

/// `w` is one of the stop words.
pub open spec fn is_stop_word(w: Seq<char>) -> bool {
    exists|i: int| 0 <= i < 81 && #[trigger] stop_word(i) == w
}

/// A piece of text becomes a term when it is longer than one byte and no stop word.
pub open spec fn keeps_piece(w: Seq<char>) -> bool {
    byte_len(w) > 1 && !is_stop_word(w)
}

/// The stems of the kept pieces, in order.
pub open spec fn terms_of_pieces(ps: Seq<Seq<char>>) -> Seq<Seq<char>>
    decreases ps.len(),
{
    if ps.len() == 0 {
        Seq::empty()
    } else if keeps_piece(ps.last()) {
        terms_of_pieces(ps.drop_last()).push(spec_stem(ps.last()))
    } else {
        terms_of_pieces(ps.drop_last())
    }
}

/// Characters that separate words in documents and queries.
pub open spec fn non_alnum() -> spec_fn(char) -> bool {
    |c: char| !char_is_alphanumeric(c)
}

/// The terms of a text: lowercased, split on non-alphanumeric characters,
/// short words and stop words dropped, the rest stemmed.
pub open spec fn spec_tokenize(text: Seq<char>) -> Seq<Seq<char>> {
    terms_of_pieces(split_by(str_lowercase(text), non_alnum()))
}

/// The stop words, by position.
pub open spec fn stop_word(i: int) -> Seq<char> {
    if i == 0 {
        "a"@
    } else if i == 1 {
        "an"@
    } else if i == 2 {
        "the"@
    } else if i == 3 {
        "and"@
    } else if i == 4 {
        "or"@
    } else if i == 5 {
        "but"@
    } else if i == 6 {
        "in"@
    } else if i == 7 {
        "on"@
    } else if i == 8 {
        "at"@
    } else if i == 9 {
        "to"@
    } else if i == 10 {
        "for"@
    } else if i == 11 {
        "of"@
    } else if i == 12 {
        "with"@
    } else if i == 13 {
        "by"@
    } else if i == 14 {
        "from"@
    } else if i == 15 {
        "is"@
    } else if i == 16 {
        "it"@
    } else if i == 17 {
        "as"@
    } else if i == 18 {
        "was"@
    } else if i == 19 {
        "are"@
    } else if i == 20 {
        "were"@
    } else if i == 21 {
        "been"@
    } else if i == 22 {
        "be"@
    } else if i == 23 {
        "have"@
    } else if i == 24 {
        "has"@
    } else if i == 25 {
        "had"@
    } else if i == 26 {
        "do"@
    } else if i == 27 {
        "does"@
    } else if i == 28 {
        "did"@
    } else if i == 29 {
        "will"@
    } else if i == 30 {
        "would"@
    } else if i == 31 {
        "could"@
    } else if i == 32 {
        "should"@
    } else if i == 33 {
        "may"@
    } else if i == 34 {
        "might"@
    } else if i == 35 {
        "shall"@
    } else if i == 36 {
        "can"@
    } else if i == 37 {
        "this"@
    } else if i == 38 {
        "that"@
    } else if i == 39 {
        "these"@
    } else if i == 40 {
        "those"@
    } else if i == 41 {
        "i"@
    } else if i == 42 {
        "you"@
    } else if i == 43 {
        "he"@
    } else if i == 44 {
        "she"@
    } else if i == 45 {
        "we"@
    } else if i == 46 {
        "they"@
    } else if i == 47 {
        "me"@
    } else if i == 48 {
        "him"@
    } else if i == 49 {
        "her"@
    } else if i == 50 {
        "us"@
    } else if i == 51 {
        "them"@
    } else if i == 52 {
        "my"@
    } else if i == 53 {
        "your"@
    } else if i == 54 {
        "his"@
    } else if i == 55 {
        "its"@
    } else if i == 56 {
        "our"@
    } else if i == 57 {
        "their"@
    } else if i == 58 {
        "what"@
    } else if i == 59 {
        "which"@
    } else if i == 60 {
        "who"@
    } else if i == 61 {
        "whom"@
    } else if i == 62 {
        "not"@
    } else if i == 63 {
        "no"@
    } else if i == 64 {
        "nor"@
    } else if i == 65 {
        "if"@
    } else if i == 66 {
        "then"@
    } else if i == 67 {
        "than"@
    } else if i == 68 {
        "so"@
    } else if i == 69 {
        "just"@
    } else if i == 70 {
        "about"@
    } else if i == 71 {
        "into"@
    } else if i == 72 {
        "through"@
    } else if i == 73 {
        "during"@
    } else if i == 74 {
        "before"@
    } else if i == 75 {
        "after"@
    } else if i == 76 {
        "above"@
    } else if i == 77 {
        "below"@
    } else if i == 78 {
        "between"@
    } else if i == 79 {
        "same"@
    } else if i == 80 {
        "such"@
    } else {
        Seq::empty()
    }
}

/// Suffix rules of step 2 (`table == 2`) and step 3 (`table == 3`), by position.
pub open spec fn suffix_rule(table: int, i: int) -> (Seq<char>, Seq<char>) {
    if table == 2 {
        step2_rule(i)
    } else {
        step3_rule(i)
    }
}

/// Step 2 rules: (suffix, replacement).
pub open spec fn step2_rule(i: int) -> (Seq<char>, Seq<char>) {
    if i == 0 {
        ("ational"@, "ate"@)
    } else if i == 1 {
        ("tional"@, "tion"@)
    } else if i == 2 {
        ("enci"@, "ence"@)
    } else if i == 3 {
        ("anci"@, "ance"@)
    } else if i == 4 {
        ("izer"@, "ize"@)
    } else if i == 5 {
        ("abli"@, "able"@)
    } else if i == 6 {
        ("alli"@, "al"@)
    } else if i == 7 {
        ("entli"@, "ent"@)
    } else if i == 8 {
        ("eli"@, "e"@)
    } else if i == 9 {
        ("ousli"@, "ous"@)
    } else if i == 10 {
        ("ization"@, "ize"@)
    } else if i == 11 {
        ("ation"@, "ate"@)
    } else if i == 12 {
        ("ator"@, "ate"@)
    } else if i == 13 {
        ("alism"@, "al"@)
    } else if i == 14 {
        ("iveness"@, "ive"@)
    } else if i == 15 {
        ("fulness"@, "ful"@)
    } else if i == 16 {
        ("ousness"@, "ous"@)
    } else if i == 17 {
        ("aliti"@, "al"@)
    } else if i == 18 {
        ("iviti"@, "ive"@)
    } else if i == 19 {
        ("biliti"@, "ble"@)
    } else {
        (Seq::empty(), Seq::empty())
    }
}

/// Step 3 rules: (suffix, replacement).
pub open spec fn step3_rule(i: int) -> (Seq<char>, Seq<char>) {
    if i == 0 {
        ("icate"@, "ic"@)
    } else if i == 1 {
        ("ative"@, ""@)
    } else if i == 2 {
        ("alize"@, "al"@)
    } else if i == 3 {
        ("iciti"@, "ic"@)
    } else if i == 4 {
        ("ical"@, "ic"@)
    } else if i == 5 {
        ("ful"@, ""@)
    } else if i == 6 {
        ("ness"@, ""@)
    } else {
        (Seq::empty(), Seq::empty())
    }
}

/// Step 4 suffixes, in the order they are tried.
pub open spec fn step4_suffix(i: int) -> Seq<char> {
    if i == 0 {
        "al"@
    } else if i == 1 {
        "ance"@
    } else if i == 2 {
        "ence"@
    } else if i == 3 {
        "er"@
    } else if i == 4 {
        "ic"@
    } else if i == 5 {
        "able"@
    } else if i == 6 {
        "ible"@
    } else if i == 7 {
        "ant"@
    } else if i == 8 {
        "ement"@
    } else if i == 9 {
        "ment"@
    } else if i == 10 {
        "ent"@
    } else if i == 11 {
        "ion"@
    } else if i == 12 {
        "ou"@
    } else if i == 13 {
        "ism"@
    } else if i == 14 {
        "ate"@
    } else if i == 15 {
        "iti"@
    } else if i == 16 {
        "ous"@
    } else if i == 17 {
        "ive"@
    } else if i == 18 {
        "ize"@
    } else {
        Seq::empty()
    }
}

// ── Rule tables ─────────────────────────────────────────────────────────

fn stop_word_str(i: usize) -> (r: &'static str)
    requires
        i < 81,
    ensures
        r@ == stop_word(i as int),
{
    if i == 0 {
        "a"
    } else if i == 1 {
        "an"
    } else if i == 2 {
        "the"
    } else if i == 3 {
        "and"
    } else if i == 4 {
        "or"
    } else if i == 5 {
        "but"
    } else if i == 6 {
        "in"
    } else if i == 7 {
        "on"
    } else if i == 8 {
        "at"
    } else if i == 9 {
        "to"
    } else if i == 10 {
        "for"
    } else if i == 11 {
        "of"
    } else if i == 12 {
        "with"
    } else if i == 13 {
        "by"
    } else if i == 14 {
        "from"
    } else if i == 15 {
        "is"
    } else if i == 16 {
        "it"
    } else if i == 17 {
        "as"
    } else if i == 18 {
        "was"
    } else if i == 19 {
        "are"
    } else if i == 20 {
        "were"
    } else if i == 21 {
        "been"
    } else if i == 22 {
        "be"
    } else if i == 23 {
        "have"
    } else if i == 24 {
        "has"
    } else if i == 25 {
        "had"
    } else if i == 26 {
        "do"
    } else if i == 27 {
        "does"
    } else if i == 28 {
        "did"
    } else if i == 29 {
        "will"
    } else if i == 30 {
        "would"
    } else if i == 31 {
        "could"
    } else if i == 32 {
        "should"
    } else if i == 33 {
        "may"
    } else if i == 34 {
        "might"
    } else if i == 35 {
        "shall"
    } else if i == 36 {
        "can"
    } else if i == 37 {
        "this"
    } else if i == 38 {
        "that"
    } else if i == 39 {
        "these"
    } else if i == 40 {
        "those"
    } else if i == 41 {
        "i"
    } else if i == 42 {
        "you"
    } else if i == 43 {
        "he"
    } else if i == 44 {
        "she"
    } else if i == 45 {
        "we"
    } else if i == 46 {
        "they"
    } else if i == 47 {
        "me"
    } else if i == 48 {
        "him"
    } else if i == 49 {
        "her"
    } else if i == 50 {
        "us"
    } else if i == 51 {
        "them"
    } else if i == 52 {
        "my"
    } else if i == 53 {
        "your"
    } else if i == 54 {
        "his"
    } else if i == 55 {
        "its"
    } else if i == 56 {
        "our"
    } else if i == 57 {
        "their"
    } else if i == 58 {
        "what"
    } else if i == 59 {
        "which"
    } else if i == 60 {
        "who"
    } else if i == 61 {
        "whom"
    } else if i == 62 {
        "not"
    } else if i == 63 {
        "no"
    } else if i == 64 {
        "nor"
    } else if i == 65 {
        "if"
    } else if i == 66 {
        "then"
    } else if i == 67 {
        "than"
    } else if i == 68 {
        "so"
    } else if i == 69 {
        "just"
    } else if i == 70 {
        "about"
    } else if i == 71 {
        "into"
    } else if i == 72 {
        "through"
    } else if i == 73 {
        "during"
    } else if i == 74 {
        "before"
    } else if i == 75 {
        "after"
    } else if i == 76 {
        "above"
    } else if i == 77 {
        "below"
    } else if i == 78 {
        "between"
    } else if i == 79 {
        "same"
    } else if i == 80 {
        "such"
    } else {
        "such"
    }
}

fn step2_rule_str(i: usize) -> (r: (&'static str, &'static str))
    requires
        i < 20,
    ensures
        r.0@ == step2_rule(i as int).0,
        r.1@ == step2_rule(i as int).1,
{
    if i == 0 {
        ("ational", "ate")
    } else if i == 1 {
        ("tional", "tion")
    } else if i == 2 {
        ("enci", "ence")
    } else if i == 3 {
        ("anci", "ance")
    } else if i == 4 {
        ("izer", "ize")
    } else if i == 5 {
        ("abli", "able")
    } else if i == 6 {
        ("alli", "al")
    } else if i == 7 {
        ("entli", "ent")
    } else if i == 8 {
        ("eli", "e")
    } else if i == 9 {
        ("ousli", "ous")
    } else if i == 10 {
        ("ization", "ize")
    } else if i == 11 {
        ("ation", "ate")
    } else if i == 12 {
        ("ator", "ate")
    } else if i == 13 {
        ("alism", "al")
    } else if i == 14 {
        ("iveness", "ive")
    } else if i == 15 {
        ("fulness", "ful")
    } else if i == 16 {
        ("ousness", "ous")
    } else if i == 17 {
        ("aliti", "al")
    } else if i == 18 {
        ("iviti", "ive")
    } else if i == 19 {
        ("biliti", "ble")
    } else {
        ("biliti", "ble")
    }
}

fn step3_rule_str(i: usize) -> (r: (&'static str, &'static str))
    requires
        i < 7,
    ensures
        r.0@ == step3_rule(i as int).0,
        r.1@ == step3_rule(i as int).1,
{
    if i == 0 {
        ("icate", "ic")
    } else if i == 1 {
        ("ative", "")
    } else if i == 2 {
        ("alize", "al")
    } else if i == 3 {
        ("iciti", "ic")
    } else if i == 4 {
        ("ical", "ic")
    } else if i == 5 {
        ("ful", "")
    } else if i == 6 {
        ("ness", "")
    } else {
        ("ness", "")
    }
}

fn step4_suffix_str(i: usize) -> (r: &'static str)
    requires
        i < 19,
    ensures
        r@ == step4_suffix(i as int),
{
    if i == 0 {
        "al"
    } else if i == 1 {
        "ance"
    } else if i == 2 {
        "ence"
    } else if i == 3 {
        "er"
    } else if i == 4 {
        "ic"
    } else if i == 5 {
        "able"
    } else if i == 6 {
        "ible"
    } else if i == 7 {
        "ant"
    } else if i == 8 {
        "ement"
    } else if i == 9 {
        "ment"
    } else if i == 10 {
        "ent"
    } else if i == 11 {
        "ion"
    } else if i == 12 {
        "ou"
    } else if i == 13 {
        "ism"
    } else if i == 14 {
        "ate"
    } else if i == 15 {
        "iti"
    } else if i == 16 {
        "ous"
    } else if i == 17 {
        "ive"
    } else if i == 18 {
        "ize"
    } else {
        "ize"
    }
}

// ── Executable stemmer ──────────────────────────────────────────────────

fn is_vowel_char(c: char) -> (r: bool)
    ensures
        r == is_vowel(c),
{
    c == 'a' || c == 'e' || c == 'i' || c == 'o' || c == 'u'
}

fn measure_of(s: &[char]) -> (m: usize)
    ensures
        m == measure(s@),
{
    if s.len() < 2 {
        return 0;
    }
    let mut m: usize = 0;
    let mut i: usize = 1;
    assert(measure(s@.take(1)) == 0);
    while i < s.len()
        invariant
            1 <= i <= s.len(),
            m == measure(s@.take(i as int)),
            m <= i,
        decreases s.len() - i,
    {
        assert(s@.take(i + 1).drop_last() =~= s@.take(i as int));
        if !is_vowel_char(s[i]) && is_vowel_char(s[i - 1]) {
            m += 1;
        }
        i += 1;
    }
    assert(s@.take(s.len() as int) =~= s@);
    m
}

fn has_vowel_of(s: &[char]) -> (r: bool)
    ensures
        r == has_vowel(s@),
{
    let mut i: usize = 0;
    while i < s.len()
        invariant
            i <= s.len(),
            forall|j: int| 0 <= j < i ==> !is_vowel(#[trigger] s@[j]),
        decreases s.len() - i,
    {
        if is_vowel_char(s[i]) {
            return true;
        }
        i += 1;
    }
    false
}

fn ends_cvc_of(s: &[char]) -> (r: bool)
    ensures
        r == ends_cvc(s@),
{
    let n = s.len();
    if n < 3 {
        return false;
    }
    let c2 = s[n - 1];
    !is_vowel_char(s[n - 3]) && is_vowel_char(s[n - 2]) && !is_vowel_char(c2) && c2 != 'w' && c2
        != 'x' && c2 != 'y'
}

fn ends_double_consonant_of(s: &[char]) -> (r: bool)
    ensures
        r == ends_double_consonant(s@),
{
    let st = string_from_chars(s);
    let b = st.as_str().as_bytes();
    let n = b.len();
    if n < 2 {
        return false;
    }
    b[n - 1] == b[n - 2] && !is_vowel_char(b[n - 1] as char)
}

/// The first `n` characters of `w`.
pub fn take_chars(w: &[char], n: usize) -> (r: Vec<char>)
    requires
        n <= w@.len(),
    ensures
        r@ == w@.subrange(0, n as int),
{
    let mut r: Vec<char> = Vec::new();
    let mut i: usize = 0;
    while i < n
        invariant
            i <= n <= w@.len(),
            r@ == w@.subrange(0, i as int),
        decreases n - i,
    {
        r.push(w[i]);
        i += 1;
        assert(r@ =~= w@.subrange(0, i as int));
    }
    r
}

/// Appends the characters of `s` to `v`.
pub fn push_str_chars(v: &mut Vec<char>, s: &str)
    ensures
        final(v)@ == old(v)@ + s@,
{
    let cs = chars_of(s);
    let mut i: usize = 0;
    while i < cs.len()
        invariant
            i <= cs.len(),
            cs@ == s@,
            v@ == old(v)@ + cs@.take(i as int),
        decreases cs.len() - i,
    {
        v.push(cs[i]);
        i += 1;
        assert(v@ =~= old(v)@ + cs@.take(i as int));
    }
    assert(cs@.take(cs.len() as int) =~= cs@);
}

fn step1a_exec(w: Vec<char>) -> (r: Vec<char>)
    ensures
        r@ == step1a(w@),
{
    proof {
        reveal_strlit("sses");
        reveal_strlit("ies");
        reveal_strlit("ss");
    }
    if ends_with(&w, &chars_of("sses")) {
        take_chars(&w, w.len() - 2)
    } else if ends_with(&w, &chars_of("ies")) {
        take_chars(&w, w.len() - 2)
    } else if !ends_with(&w, &chars_of("ss")) && ends_with_char(&w, 's') {
        take_chars(&w, w.len() - 1)
    } else {
        w
    }
}

fn step1b_fixup_exec(w: Vec<char>) -> (r: Vec<char>)
    ensures
        r@ == step1b_fixup(w@),
{
    if ends_with(&w, &chars_of("at")) || ends_with(&w, &chars_of("bl")) || ends_with(
        &w,
        &chars_of("iz"),
    ) {
        let mut r = w;
        r.push('e');
        r
    } else if ends_double_consonant_of(&w) && !ends_with_char(&w, 'l') && !ends_with_char(&w, 's')
        && !ends_with_char(&w, 'z') {
        proof {
            if w@.len() == 0 {
                assert(encode_utf8(w@) =~= Seq::<u8>::empty());
            }
        }
        take_chars(&w, w.len() - 1)
    } else if measure_of(&w) == 1 && ends_cvc_of(&w) {
        let mut r = w;
        r.push('e');
        r
    } else {
        w
    }
}

fn step1b_exec(w: Vec<char>) -> (r: Vec<char>)
    ensures
        r@ == step1b(w@),
{
    proof {
        reveal_strlit("eed");
        reveal_strlit("ed");
        reveal_strlit("ing");
    }
    if ends_with(&w, &chars_of("eed")) {
        let stem = take_chars(&w, w.len() - 3);
        if measure_of(&stem) > 0 {
            take_chars(&w, w.len() - 1)
        } else {
            w
        }
    } else if ends_with(&w, &chars_of("ed")) {
        let stem = take_chars(&w, w.len() - 2);
        if has_vowel_of(&stem) {
            step1b_fixup_exec(stem)
        } else {
            w
        }
    } else if ends_with(&w, &chars_of("ing")) {
        let stem = take_chars(&w, w.len() - 3);
        if has_vowel_of(&stem) {
            step1b_fixup_exec(stem)
        } else {
            w
        }
    } else {
        w
    }
}

fn step1c_exec(w: Vec<char>) -> (r: Vec<char>)
    ensures
        r@ == step1c(w@),
{
    if ends_with_char(&w, 'y') {
        let mut stem = take_chars(&w, w.len() - 1);
        if has_vowel_of(&stem) {
            stem.push('i');
            return stem;
        }
    }
    w
}

fn apply_rules_exec(w: Vec<char>, table: usize) -> (r: Vec<char>)
    requires
        table == 2 || table == 3,
    ensures
        r@ == apply_rules(w@, table as int, 0),
{
    let n: usize = if table == 2 {
        20
    } else {
        7
    };
    let mut i: usize = 0;
    while i < n
        invariant
            table == 2 || table == 3,
            n == rule_count(table as int),
            i <= n,
            apply_rules(w@, table as int, 0) == apply_rules(w@, table as int, i as int),
        decreases n - i,
    {
        let (suf, rep) = if table == 2 {
            step2_rule_str(i)
        } else {
            step3_rule_str(i)
        };
        let sc = chars_of(suf);
        if ends_with(&w, &sc) {
            let mut stem = take_chars(&w, w.len() - sc.len());
            if measure_of(&stem) > 0 {
                push_str_chars(&mut stem, rep);
                return stem;
            }
            return w;
        }
        i += 1;
    }
    w
}

fn step4_exec(w: Vec<char>) -> (r: Vec<char>)
    ensures
        r@ == step4_from(w@, 0),
{
    let mut i: usize = 0;
    while i < 19
        invariant
            i <= 19,
            step4_from(w@, 0) == step4_from(w@, i as int),
        decreases 19 - i,
    {
        let sc = chars_of(step4_suffix_str(i));
        if ends_with(&w, &sc) {
            let stem = take_chars(&w, w.len() - sc.len());
            if measure_of(&stem) > 1 {
                if i == 11 {
                    if ends_with_char(&stem, 's') || ends_with_char(&stem, 't') {
                        return stem;
                    }
                    return w;
                }
                return stem;
            }
            return w;
        }
        i += 1;
    }
    w
}

fn step5a_exec(w: Vec<char>) -> (r: Vec<char>)
    ensures
        r@ == step5a(w@),
{
    if ends_with_char(&w, 'e') {
        let s = take_chars(&w, w.len() - 1);
        let m = measure_of(&s);
        if m > 1 || (m == 1 && !ends_cvc_of(&s)) {
            return s;
        }
    }
    w
}

fn step5b_exec(w: Vec<char>) -> (r: Vec<char>)
    ensures
        r@ == step5b(w@),
{
    proof {
        reveal_strlit("ll");
    }
    if ends_with(&w, &chars_of("ll")) {
        let s = take_chars(&w, w.len() - 1);
        if measure_of(&s) > 1 {
            return s;
        }
    }
    w
}

fn stem_chars(word: Vec<char>) -> (r: Vec<char>)
    ensures
        r@ == spec_stem(word@),
{
    if !byte_len_exceeds(&word, 2) {
        return word;
    }
    let w = step1a_exec(word);
    let w = step1b_exec(w);
    let w = step1c_exec(w);
    let w = apply_rules_exec(w, 2);
    let w = apply_rules_exec(w, 3);
    let w = step4_exec(w);
    let w = step5a_exec(w);
    step5b_exec(w)
}

/// The stem of `word` under the simplified Porter rules.
pub fn stem(word: &str) -> (r: String)
    ensures
        r@ == spec_stem(word@),
{
    let w = stem_chars(chars_of(word));
    string_from_chars(&w)
}

fn is_stop(w: &[char]) -> (r: bool)
    ensures
        r == is_stop_word(w@),
{
    let mut i: usize = 0;
    while i < 81
        invariant
            i <= 81,
            forall|j: int| 0 <= j < i ==> #[trigger] stop_word(j) != w@,
        decreases 81 - i,
    {
        let sw = chars_of(stop_word_str(i));
        if chars_eq(&sw, w) {
            return true;
        }
        i += 1;
    }
    false
}

fn keeps(w: &[char]) -> (r: bool)
    ensures
        r == keeps_piece(w@),
{
    byte_len_exceeds(w, 1) && !is_stop(w)
}

/// Tokenize raw text into a list of stemmed, lowercased terms.
pub fn tokenize(text: &str) -> (r: Vec<String>)
    ensures
        views(r@) == spec_tokenize(text@),
{
    let lower = to_lowercase(text);
    let cs = chars_of(lower.as_str());
    let ghost sep = non_alnum();
    let mut out: Vec<String> = Vec::new();
    let mut cur: Vec<char> = Vec::new();
    let mut i: usize = 0;
    proof {
        assert(cs@.take(0) =~= Seq::<char>::empty());
        assert(views(out@) =~= Seq::<Seq<char>>::empty());
    }
    while i < cs.len()
        invariant
            i <= cs.len(),
            sep == non_alnum(),
            views(out@) == terms_of_pieces(split_by(cs@.take(i as int), sep).drop_last()),
            cur@ == split_by(cs@.take(i as int), sep).last(),
        decreases cs.len() - i,
    {
        let ghost prev = split_by(cs@.take(i as int), sep);
        proof {
            lemma_split_by_nonempty(cs@.take(i as int), sep);
            assert(cs@.take(i + 1).drop_last() =~= cs@.take(i as int));
        }
        let c = cs[i];
        if !is_alphanumeric(c) {
            if keeps(&cur) {
                let t = string_from_chars(&stem_chars(cur));
                out.push(t);
            }
            proof {
                assert(prev.push(Seq::<char>::empty()).drop_last() =~= prev);
                assert(prev =~= prev.drop_last().push(prev.last()));
                assert(views(out@) =~= terms_of_pieces(prev));
            }
            cur = Vec::new();
        } else {
            cur.push(c);
            proof {
                assert(prev.update(prev.len() - 1, prev.last().push(c)).drop_last()
                    =~= prev.drop_last());
            }
        }
        i += 1;
    }
    proof {
        let all = split_by(cs@.take(i as int), sep);
        lemma_split_by_nonempty(cs@.take(i as int), sep);
        assert(all =~= all.drop_last().push(all.last()));
        assert(cs@.take(i as int) =~= cs@);
    }
    if keeps(&cur) {
        let t = string_from_chars(&stem_chars(cur));
        out.push(t);
    }
    proof {
        assert(views(out@) =~= spec_tokenize(text@));
    }
    out
}


// ── Length of stems ─────────────────────────────────────────────────────

/// No suffix rule makes a word longer: each replacement is at most as long
/// as the suffix it replaces, and is plain ASCII (one byte per character).
proof fn lemma_rule_shrinks(table: int, i: int)
    requires
        0 <= i < rule_count(table),
    ensures
        suffix_rule(table, i).1.len() <= suffix_rule(table, i).0.len(),
        width_sum(suffix_rule(table, i).1) == suffix_rule(table, i).1.len(),
{
    reveal_with_fuel(width_sum, 8);
    if table == 2 {
        if i == 0 {
            reveal_strlit("ational");
            reveal_strlit("ate");
        } else if i == 1 {
            reveal_strlit("tional");
            reveal_strlit("tion");
        } else if i == 2 {
            reveal_strlit("enci");
            reveal_strlit("ence");
        } else if i == 3 {
            reveal_strlit("anci");
            reveal_strlit("ance");
        } else if i == 4 {
            reveal_strlit("izer");
            reveal_strlit("ize");
        } else if i == 5 {
            reveal_strlit("abli");
            reveal_strlit("able");
        } else if i == 6 {
            reveal_strlit("alli");
            reveal_strlit("al");
        } else if i == 7 {
            reveal_strlit("entli");
            reveal_strlit("ent");
        } else if i == 8 {
            reveal_strlit("eli");
            reveal_strlit("e");
        } else if i == 9 {
            reveal_strlit("ousli");
            reveal_strlit("ous");
        } else if i == 10 {
            reveal_strlit("ization");
            reveal_strlit("ize");
        } else if i == 11 {
            reveal_strlit("ation");
            reveal_strlit("ate");
        } else if i == 12 {
            reveal_strlit("ator");
            reveal_strlit("ate");
        } else if i == 13 {
            reveal_strlit("alism");
            reveal_strlit("al");
        } else if i == 14 {
            reveal_strlit("iveness");
            reveal_strlit("ive");
        } else if i == 15 {
            reveal_strlit("fulness");
            reveal_strlit("ful");
        } else if i == 16 {
            reveal_strlit("ousness");
            reveal_strlit("ous");
        } else if i == 17 {
            reveal_strlit("aliti");
            reveal_strlit("al");
        } else if i == 18 {
            reveal_strlit("iviti");
            reveal_strlit("ive");
        } else if i == 19 {
            reveal_strlit("biliti");
            reveal_strlit("ble");
        }
    } else {
        if i == 0 {
            reveal_strlit("icate");
            reveal_strlit("ic");
        } else if i == 1 {
            reveal_strlit("ative");
            reveal_strlit("");
        } else if i == 2 {
            reveal_strlit("alize");
            reveal_strlit("al");
        } else if i == 3 {
            reveal_strlit("iciti");
            reveal_strlit("ic");
        } else if i == 4 {
            reveal_strlit("ical");
            reveal_strlit("ic");
        } else if i == 5 {
            reveal_strlit("ful");
            reveal_strlit("");
        } else if i == 6 {
            reveal_strlit("ness");
            reveal_strlit("");
        }
    }
}

/// A word with a positive measure has at least two characters.
proof fn lemma_measure_len(s: Seq<char>)
    ensures
        measure(s) > 0 ==> s.len() >= 2,
{
}

/// Applying the rules of a table keeps a word at most as long, and keeps a
/// non-empty word non-empty.
proof fn lemma_apply_rules_len(w: Seq<char>, table: int, i: int)
    ensures
        apply_rules(w, table, i).len() <= w.len(),
        w.len() > 0 ==> apply_rules(w, table, i).len() > 0,
    decreases rule_count(table) - i,
{
    if 0 <= i < rule_count(table) {
        let (suf, rep) = suffix_rule(table, i);
        if seq_ends_with(w, suf) {
            lemma_rule_shrinks(table, i);
            lemma_measure_len(drop_end(w, suf.len() as int));
        } else {
            lemma_apply_rules_len(w, table, i + 1);
        }
    }
}

/// Step 4 keeps a word at most as long, and a non-empty word non-empty.
proof fn lemma_step4_len(w: Seq<char>, i: int)
    ensures
        step4_from(w, i).len() <= w.len(),
        w.len() > 0 ==> step4_from(w, i).len() > 0,
    decreases 19 - i,
{
    if 0 <= i < 19 {
        let suf = step4_suffix(i);
        if seq_ends_with(w, suf) {
            lemma_measure_len(drop_end(w, suf.len() as int));
        } else {
            lemma_step4_len(w, i + 1);
        }
    }
}

/// The stem of a word before its last step (step 5b): all other steps done.
pub open spec fn stem_before_5b(word: Seq<char>) -> Seq<char> {
    step5a(step4_from(apply_rules(apply_rules(step1c(step1b(step1a(word))), 2, 0), 3, 0), 0))
}

/// A final double l goes: when the stem so far ends in "ll" after a part of
/// measure above one, the stem is that stem with one l fewer (so
/// "controlling" and "controlled" stem like "control"); otherwise the stem
/// is the stem so far.  So no stem ends in "ll" after a part of measure
/// above one unless the stem so far ended in "lll".
pub proof fn lemma_stem_double_l(word: Seq<char>)
    requires
        byte_len(word) > 2,
    ensures
        ({
            let x = stem_before_5b(word);
            let s = spec_stem(word);
            &&& (seq_ends_with(x, "ll"@) && measure(drop_end(x, 1)) > 1) ==> s + seq!['l'] == x
            &&& !(seq_ends_with(x, "ll"@) && measure(drop_end(x, 1)) > 1) ==> s == x
            &&& (seq_ends_with(s, "ll"@) && measure(drop_end(s, 1)) > 1) ==> seq_ends_with(x, "lll"@)
        }),
{
    reveal_strlit("ll");
    reveal_strlit("lll");
    let x = stem_before_5b(word);
    let s = spec_stem(word);
    if seq_ends_with(x, "ll"@) && measure(drop_end(x, 1)) > 1 {
        let tl = x.subrange(x.len() - 2, x.len() as int);
        assert(tl == "ll"@);
        assert(tl[1] == x[x.len() - 1]);
        assert("ll"@[1] == 'l');
        assert(x[x.len() - 1] == 'l');
        assert(s + seq!['l'] =~= x);
        if seq_ends_with(s, "ll"@) {
            let ts = s.subrange(s.len() - 2, s.len() as int);
            assert(ts == "ll"@);
            assert(ts[0] == x[x.len() - 3]);
            assert(ts[1] == x[x.len() - 2]);
            assert("ll"@[0] == 'l');
            assert(x.subrange(x.len() - 3, x.len() as int) =~= "lll"@);
        }
    }
}

/// The width of a concatenation is the sum of the widths.
proof fn lemma_width_concat(x: Seq<char>, y: Seq<char>)
    ensures
        width_sum(x + y) == width_sum(x) + width_sum(y),
    decreases y.len(),
{
    if y.len() > 0 {
        lemma_width_concat(x, y.drop_last());
        assert((x + y).drop_last() =~= x + y.drop_last());
        assert((x + y).last() == y.last());
    }
}

/// Cutting the last `n` characters off `w` leaves the width of `w` less the
/// width of the cut part, which is at least `n`.
proof fn lemma_width_drop_end(w: Seq<char>, n: int)
    requires
        0 <= n <= w.len(),
    ensures
        width_sum(w) == width_sum(drop_end(w, n)) + width_sum(w.subrange(w.len() - n, w.len() as int)),
        width_sum(w.subrange(w.len() - n, w.len() as int)) >= n,
{
    let tail = w.subrange(w.len() - n, w.len() as int);
    assert(w =~= drop_end(w, n) + tail);
    lemma_width_concat(drop_end(w, n), tail);
    crate::text::lemma_byte_len_width_sum(tail);
}

/// One more character of width one.
proof fn lemma_width_push_ascii(x: Seq<char>, c: char)
    requires
        (c as u32) < 0x80,
    ensures
        width_sum(x.push(c)) == width_sum(x) + 1,
{
    assert(x.push(c).drop_last() =~= x);
}

/// Applying the rules of a table never widens a word.
proof fn lemma_apply_rules_width(w: Seq<char>, table: int, i: int)
    ensures
        width_sum(apply_rules(w, table, i)) <= width_sum(w),
    decreases rule_count(table) - i,
{
    if 0 <= i < rule_count(table) {
        let (suf, rep) = suffix_rule(table, i);
        if seq_ends_with(w, suf) {
            lemma_rule_shrinks(table, i);
            lemma_width_drop_end(w, suf.len() as int);
            lemma_width_concat(drop_end(w, suf.len() as int), rep);
        } else {
            lemma_apply_rules_width(w, table, i + 1);
        }
    }
}

/// Step 4 never widens a word.
proof fn lemma_step4_width(w: Seq<char>, i: int)
    ensures
        width_sum(step4_from(w, i)) <= width_sum(w),
    decreases 19 - i,
{
    if 0 <= i < 19 {
        let suf = step4_suffix(i);
        if seq_ends_with(w, suf) {
            lemma_width_drop_end(w, suf.len() as int);
        } else {
            lemma_step4_width(w, i + 1);
        }
    }
}

/// A stem takes no more bytes than its word.
pub proof fn lemma_stem_bytes(word: Seq<char>)
    ensures
        byte_len(spec_stem(word)) <= byte_len(word),
{
    crate::text::lemma_byte_len_width_sum(word);
    crate::text::lemma_byte_len_width_sum(spec_stem(word));
    if byte_len(word) > 2 {
        reveal_strlit("sses");
        reveal_strlit("ies");
        reveal_strlit("ss");
        reveal_strlit("eed");
        reveal_strlit("ed");
        reveal_strlit("ing");
        reveal_strlit("at");
        reveal_strlit("bl");
        reveal_strlit("iz");
        reveal_strlit("ll");
        let a = step1a(word);
        if seq_ends_with(word, "sses"@) || seq_ends_with(word, "ies"@) {
            lemma_width_drop_end(word, 2);
        } else if word.len() >= 1 {
            lemma_width_drop_end(word, 1);
        }
        assert(width_sum(a) <= width_sum(word));
        let b = step1b(a);
        if seq_ends_with(a, "eed"@) {
            lemma_width_drop_end(a, 1);
        } else if seq_ends_with(a, "ed"@) || seq_ends_with(a, "ing"@) {
            let k: int = if seq_ends_with(a, "ed"@) {
                2
            } else {
                3
            };
            let x = drop_end(a, k);
            lemma_width_drop_end(a, k);
            lemma_width_push_ascii(x, 'e');
            if x.len() >= 1 {
                lemma_width_drop_end(x, 1);
            }
        }
        assert(width_sum(b) <= width_sum(a));
        let c = step1c(b);
        if b.len() >= 1 {
            lemma_width_drop_end(b, 1);
            lemma_width_push_ascii(drop_end(b, 1), 'i');
        }
        assert(width_sum(c) <= width_sum(b));
        lemma_apply_rules_width(c, 2, 0);
        let d = apply_rules(c, 2, 0);
        lemma_apply_rules_width(d, 3, 0);
        let e = apply_rules(d, 3, 0);
        lemma_step4_width(e, 0);
        let f = step4_from(e, 0);
        if f.len() >= 1 {
            lemma_width_drop_end(f, 1);
        }
        let g = step5a(f);
        if g.len() >= 1 {
            lemma_width_drop_end(g, 1);
        }
    }
}

/// A stem is never longer than its word, in characters; a word of at most
/// two bytes is its own stem, and a non-empty word has a non-empty stem.
pub proof fn lemma_stem_length(word: Seq<char>)
    ensures
        byte_len(word) <= 2 ==> spec_stem(word) == word,
        spec_stem(word).len() <= word.len(),
        word.len() > 0 ==> spec_stem(word).len() > 0,
{
    if byte_len(word) > 2 {
        reveal_strlit("sses");
        reveal_strlit("ies");
        reveal_strlit("ss");
        reveal_strlit("eed");
        reveal_strlit("ed");
        reveal_strlit("ing");
        reveal_strlit("at");
        reveal_strlit("bl");
        reveal_strlit("iz");
        reveal_strlit("ll");
        crate::text::lemma_byte_len_width_sum(word);
        if word.len() == 1 {
            assert(word.drop_last().len() == 0);
            assert(width_sum(word.drop_last()) == 0);
            assert(word.last() == word[0]);
            assert(width_sum(word) == char_width(word[0]));
        }
        let a = step1a(word);
        assert(a.len() <= word.len());
        assert(word.len() > 0 ==> a.len() > 0);
        let b = step1b(a);
        if seq_ends_with(a, "eed"@) {
            lemma_measure_len(drop_end(a, 3));
        } else if seq_ends_with(a, "ed"@) || seq_ends_with(a, "ing"@) {
            let k: int = if seq_ends_with(a, "ed"@) { 2 } else { 3 };
            let x = drop_end(a, k);
            if x.len() == 1 {
                crate::text::lemma_byte_len_width_sum(x);
                assert(x.drop_last().len() == 0);
                assert(width_sum(x.drop_last()) == 0);
                assert(x.last() == x[0]);
                assert(width_sum(x) == char_width(x[0]));
                crate::text::lemma_char_width(x[0]);
            }
            lemma_measure_len(x);
        }
        assert(b.len() <= a.len());
        assert(a.len() > 0 ==> b.len() > 0);
        let c = step1c(b);
        lemma_apply_rules_len(c, 2, 0);
        let d = apply_rules(c, 2, 0);
        lemma_apply_rules_len(d, 3, 0);
        let e = apply_rules(d, 3, 0);
        lemma_step4_len(e, 0);
        let f = step4_from(e, 0);
        lemma_measure_len(drop_end(f, 1));
        let g = step5a(f);
        lemma_measure_len(drop_end(g, 1));
    }
}

} // verus!
