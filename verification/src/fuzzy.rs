//! Edit distances (Levenshtein and the transposition-aware variant) and
//! fuzzy matching of query terms against the vocabulary of the index.
use vstd::prelude::*;
use crate::text::{chars_of, has_str, views};
use crate::index::{distinct_terms, has_term, IndexView, InvertedIndex};
use crate::tokenizer::{spec_stem, spec_tokenize, stem, tokenize};

verus! {

// ── Specification ───────────────────────────────────────────────────────

/// The least of three numbers.
pub open spec fn spec_min3(a: int, b: int, c: int) -> int {
    let m = if a <= b {
        a
    } else {
        b
    };
    if m <= c {
        m
    } else {
        c
    }
}

/// 0 when the characters agree, 1 otherwise.
pub open spec fn sub_cost(x: char, y: char) -> int {
    if x == y {
        0
    } else {
        1
    }
}

/// Levenshtein distance between the first `i` characters of `a` and the first `j` of `b`.
pub open spec fn lev_dp(a: Seq<char>, b: Seq<char>, i: nat, j: nat) -> int
    decreases i + j,
{
    if i == 0 {
        j as int
    } else if j == 0 {
        i as int
    } else {
        spec_min3(
            lev_dp(a, b, (i - 1) as nat, j) + 1,
            lev_dp(a, b, i, (j - 1) as nat) + 1,
            lev_dp(a, b, (i - 1) as nat, (j - 1) as nat) + sub_cost(a[i - 1], b[j - 1]),
        )
    }
}

/// Levenshtein distance: fewest insertions, deletions and substitutions turning `a` into `b`.
pub open spec fn levenshtein(a: Seq<char>, b: Seq<char>) -> int {
    lev_dp(a, b, a.len(), b.len())
}

/// Whether the last two characters of the prefixes `a[..i]` and `b[..j]` are swapped.
pub open spec fn swapped(a: Seq<char>, b: Seq<char>, i: int, j: int) -> bool {
    i > 1 && j > 1 && a[i - 1] == b[j - 2] && a[i - 2] == b[j - 1]
}

/// Optimal-string-alignment distance between `a[..i]` and `b[..j]`: Levenshtein
/// with adjacent transpositions counted as one edit.
pub open spec fn osa_dp(a: Seq<char>, b: Seq<char>, i: nat, j: nat) -> int
    decreases i + j,
{
    if i == 0 {
        j as int
    } else if j == 0 {
        i as int
    } else {
        let base = spec_min3(
            osa_dp(a, b, (i - 1) as nat, j) + 1,
            osa_dp(a, b, i, (j - 1) as nat) + 1,
            osa_dp(a, b, (i - 1) as nat, (j - 1) as nat) + sub_cost(a[i - 1], b[j - 1]),
        );
        if swapped(a, b, i as int, j as int) {
            let t = osa_dp(a, b, (i - 2) as nat, (j - 2) as nat) + 1;
            if t < base {
                t
            } else {
                base
            }
        } else {
            base
        }
    }
}

/// Damerau-Levenshtein (optimal string alignment) distance between `a` and `b`.
pub open spec fn damerau(a: Seq<char>, b: Seq<char>) -> int {
    osa_dp(a, b, a.len(), b.len())
}

/// Larger of two numbers.
pub open spec fn spec_max(a: int, b: int) -> int {
    if a >= b {
        a
    } else {
        b
    }
}

/// Absolute difference.
pub open spec fn abs_diff(a: int, b: int) -> int {
    if a >= b {
        a - b
    } else {
        b - a
    }
}

// ── Lemmas ──────────────────────────────────────────────────────────────

/// Levenshtein values lie between the length difference and the longer length.
pub proof fn lemma_lev_bounds(a: Seq<char>, b: Seq<char>, i: nat, j: nat)
    ensures
        abs_diff(i as int, j as int) <= lev_dp(a, b, i, j) <= spec_max(i as int, j as int),
    decreases i + j,
{
    if i > 0 && j > 0 {
        lemma_lev_bounds(a, b, (i - 1) as nat, j);
        lemma_lev_bounds(a, b, i, (j - 1) as nat);
        lemma_lev_bounds(a, b, (i - 1) as nat, (j - 1) as nat);
    }
}

/// Transposition-aware values lie between the length difference and the longer length.
pub proof fn lemma_osa_bounds(a: Seq<char>, b: Seq<char>, i: nat, j: nat)
    ensures
        abs_diff(i as int, j as int) <= osa_dp(a, b, i, j) <= spec_max(i as int, j as int),
    decreases i + j,
{
    if i > 0 && j > 0 {
        lemma_osa_bounds(a, b, (i - 1) as nat, j);
        lemma_osa_bounds(a, b, i, (j - 1) as nat);
        lemma_osa_bounds(a, b, (i - 1) as nat, (j - 1) as nat);
        if i > 1 && j > 1 {
            lemma_osa_bounds(a, b, (i - 2) as nat, (j - 2) as nat);
        }
    }
}

/// The Levenshtein table read with the roles of `a` and `b` exchanged.
pub proof fn lemma_lev_dp_symmetric(a: Seq<char>, b: Seq<char>, i: nat, j: nat)
    ensures
        lev_dp(a, b, i, j) == lev_dp(b, a, j, i),
    decreases i + j,
{
    if i > 0 && j > 0 {
        lemma_lev_dp_symmetric(a, b, (i - 1) as nat, j);
        lemma_lev_dp_symmetric(a, b, i, (j - 1) as nat);
        lemma_lev_dp_symmetric(a, b, (i - 1) as nat, (j - 1) as nat);
    }
}

/// The transposition-aware table read with the roles of `a` and `b` exchanged.
pub proof fn lemma_osa_dp_symmetric(a: Seq<char>, b: Seq<char>, i: nat, j: nat)
    ensures
        osa_dp(a, b, i, j) == osa_dp(b, a, j, i),
    decreases i + j,
{
    if i > 0 && j > 0 {
        lemma_osa_dp_symmetric(a, b, (i - 1) as nat, j);
        lemma_osa_dp_symmetric(a, b, i, (j - 1) as nat);
        lemma_osa_dp_symmetric(a, b, (i - 1) as nat, (j - 1) as nat);
        if i > 1 && j > 1 {
            lemma_osa_dp_symmetric(a, b, (i - 2) as nat, (j - 2) as nat);
        }
    }
}

/// A zero entry of the transposition-aware table means equal prefixes.
proof fn lemma_osa_dp_zero(a: Seq<char>, b: Seq<char>, i: nat, j: nat)
    requires
        i <= a.len(),
        j <= b.len(),
        osa_dp(a, b, i, j) == 0,
    ensures
        i == j,
        a.subrange(0, i as int) == b.subrange(0, j as int),
    decreases i + j,
{
    if i > 0 && j > 0 {
        lemma_osa_bounds(a, b, (i - 1) as nat, j);
        lemma_osa_bounds(a, b, i, (j - 1) as nat);
        lemma_osa_bounds(a, b, (i - 1) as nat, (j - 1) as nat);
        if i > 1 && j > 1 {
            lemma_osa_bounds(a, b, (i - 2) as nat, (j - 2) as nat);
        }
        lemma_osa_dp_zero(a, b, (i - 1) as nat, (j - 1) as nat);
        assert(a.subrange(0, i as int) =~= a.subrange(0, i - 1).push(a[i - 1]));
        assert(b.subrange(0, j as int) =~= b.subrange(0, j - 1).push(b[j - 1]));
    } else {
        assert(a.subrange(0, i as int) =~= b.subrange(0, j as int));
    }
}

/// The diagonal of the transposition-aware table of a string against itself is zero.
proof fn lemma_osa_dp_diag(a: Seq<char>, i: nat)
    requires
        i <= a.len(),
    ensures
        osa_dp(a, a, i, i) == 0,
    decreases i,
{
    if i > 0 {
        lemma_osa_dp_diag(a, (i - 1) as nat);
        lemma_osa_bounds(a, a, (i - 1) as nat, i);
        lemma_osa_bounds(a, a, i, (i - 1) as nat);
        if i > 1 {
            lemma_osa_bounds(a, a, (i - 2) as nat, (i - 2) as nat);
        }
    }
}

/// The Damerau-Levenshtein distance is zero exactly between equal strings.
pub proof fn lemma_damerau_zero_iff_equal(a: Seq<char>, b: Seq<char>)
    ensures
        damerau(a, b) == 0 <==> a == b,
{
    if damerau(a, b) == 0 {
        lemma_osa_dp_zero(a, b, a.len(), b.len());
        assert(a =~= a.subrange(0, a.len() as int));
        assert(b =~= b.subrange(0, b.len() as int));
    }
    if a == b {
        lemma_osa_dp_diag(a, a.len());
    }
}

/// The Damerau-Levenshtein distance does not depend on the order of its arguments.
pub proof fn lemma_damerau_symmetric(a: Seq<char>, b: Seq<char>)
    ensures
        damerau(a, b) == damerau(b, a),
{
    lemma_osa_dp_symmetric(a, b, a.len(), b.len());
}

/// The Levenshtein distance does not depend on the order of its arguments.
pub proof fn lemma_levenshtein_symmetric(a: Seq<char>, b: Seq<char>)
    ensures
        levenshtein(a, b) == levenshtein(b, a),
{
    lemma_lev_dp_symmetric(a, b, a.len(), b.len());
}

/// A zero entry of the Levenshtein table means equal prefixes.
proof fn lemma_lev_dp_zero(a: Seq<char>, b: Seq<char>, i: nat, j: nat)
    requires
        i <= a.len(),
        j <= b.len(),
        lev_dp(a, b, i, j) == 0,
    ensures
        i == j,
        a.subrange(0, i as int) == b.subrange(0, j as int),
    decreases i + j,
{
    if i > 0 && j > 0 {
        lemma_lev_bounds(a, b, (i - 1) as nat, j);
        lemma_lev_bounds(a, b, i, (j - 1) as nat);
        lemma_lev_bounds(a, b, (i - 1) as nat, (j - 1) as nat);
        lemma_lev_dp_zero(a, b, (i - 1) as nat, (j - 1) as nat);
        assert(a.subrange(0, i as int) =~= a.subrange(0, i - 1).push(a[i - 1]));
        assert(b.subrange(0, j as int) =~= b.subrange(0, j - 1).push(b[j - 1]));
    } else {
        assert(a.subrange(0, i as int) =~= b.subrange(0, j as int));
    }
}

/// The diagonal of the Levenshtein table of a string against itself is zero.
proof fn lemma_lev_dp_diag(a: Seq<char>, i: nat)
    requires
        i <= a.len(),
    ensures
        lev_dp(a, a, i, i) == 0,
    decreases i,
{
    if i > 0 {
        lemma_lev_dp_diag(a, (i - 1) as nat);
        lemma_lev_bounds(a, a, (i - 1) as nat, i);
        lemma_lev_bounds(a, a, i, (i - 1) as nat);
    }
}

/// The Levenshtein distance is zero exactly between equal strings.
pub proof fn lemma_levenshtein_zero_iff_equal(a: Seq<char>, b: Seq<char>)
    ensures
        levenshtein(a, b) == 0 <==> a == b,
{
    if levenshtein(a, b) == 0 {
        lemma_lev_dp_zero(a, b, a.len(), b.len());
        assert(a =~= a.subrange(0, a.len() as int));
        assert(b =~= b.subrange(0, b.len() as int));
    }
    if a == b {
        lemma_lev_dp_diag(a, a.len());
    }
}

/// The triangle inequality on prefixes: turning `a[..i]` into `c[..k]`
/// costs no more than going through `b[..j]`.
proof fn lemma_lev_dp_triangle(a: Seq<char>, b: Seq<char>, c: Seq<char>, i: nat, j: nat, k: nat)
    ensures
        lev_dp(a, c, i, k) <= lev_dp(a, b, i, j) + lev_dp(b, c, j, k),
    decreases i + j + k,
{
    if i == 0 {
        lemma_lev_bounds(b, c, j, k);
    } else if k == 0 {
        lemma_lev_bounds(a, b, i, j);
    } else if j == 0 {
        lemma_lev_bounds(a, c, i, k);
    } else {
        lemma_lev_dp_triangle(a, b, c, (i - 1) as nat, j, k);
        lemma_lev_dp_triangle(a, b, c, i, (j - 1) as nat, k);
        lemma_lev_dp_triangle(a, b, c, i, j, (k - 1) as nat);
        lemma_lev_dp_triangle(a, b, c, (i - 1) as nat, (j - 1) as nat, (k - 1) as nat);
        assert(lev_dp(a, b, i, (j - 1) as nat) <= lev_dp(a, b, (i - 1) as nat, (j - 1) as nat) + 1);
        assert(lev_dp(b, c, (j - 1) as nat, k) <= lev_dp(b, c, (j - 1) as nat, (k - 1) as nat) + 1);
        assert(sub_cost(a[i - 1], c[k - 1]) <= sub_cost(a[i - 1], b[j - 1]) + sub_cost(b[j - 1], c[k - 1]));
    }
}

/// The Levenshtein distance obeys the triangle inequality.
pub proof fn lemma_levenshtein_triangle(a: Seq<char>, b: Seq<char>, c: Seq<char>)
    ensures
        levenshtein(a, c) <= levenshtein(a, b) + levenshtein(b, c),
{
    lemma_lev_dp_triangle(a, b, c, a.len(), b.len(), c.len());
}

/// Both distances are at least the difference of the lengths and at most the
/// longer length.
pub proof fn lemma_distance_bounds(a: Seq<char>, b: Seq<char>)
    ensures
        abs_diff(a.len() as int, b.len() as int) <= damerau(a, b) <= spec_max(
            a.len() as int,
            b.len() as int,
        ),
        abs_diff(a.len() as int, b.len() as int) <= levenshtein(a, b) <= spec_max(
            a.len() as int,
            b.len() as int,
        ),
{
    lemma_osa_bounds(a, b, a.len(), b.len());
    lemma_lev_bounds(a, b, a.len(), b.len());
}

/// The transposition-aware table depends only on the prefixes it covers.
proof fn lemma_osa_dp_prefix(a: Seq<char>, b: Seq<char>, a2: Seq<char>, b2: Seq<char>, i: nat, j: nat)
    requires
        i <= a.len(),
        i <= a2.len(),
        j <= b.len(),
        j <= b2.len(),
        forall|k: int| 0 <= k < i ==> a[k] == a2[k],
        forall|k: int| 0 <= k < j ==> b[k] == b2[k],
    ensures
        osa_dp(a, b, i, j) == osa_dp(a2, b2, i, j),
    decreases i + j,
{
    if i > 0 && j > 0 {
        lemma_osa_dp_prefix(a, b, a2, b2, (i - 1) as nat, j);
        lemma_osa_dp_prefix(a, b, a2, b2, i, (j - 1) as nat);
        lemma_osa_dp_prefix(a, b, a2, b2, (i - 1) as nat, (j - 1) as nat);
        if i > 1 && j > 1 {
            lemma_osa_dp_prefix(a, b, a2, b2, (i - 2) as nat, (j - 2) as nat);
        }
    }
}

/// One more character on either side costs at most one more edit.
proof fn lemma_osa_dp_step(a: Seq<char>, b: Seq<char>, i: nat, j: nat)
    ensures
        i > 0 ==> osa_dp(a, b, i, j) <= osa_dp(a, b, (i - 1) as nat, j) + 1,
        j > 0 ==> osa_dp(a, b, i, j) <= osa_dp(a, b, i, (j - 1) as nat) + 1,
{
}

/// Editing `u` into `u2` and then `v` into `v2` edits `u + v` into `u2 + v2`:
/// the table for the joined strings, `i` and `j` characters into `v` and
/// `v2`, is at most the distance of `u` and `u2` plus the table of `v`, `v2`.
proof fn lemma_osa_dp_concat(u: Seq<char>, u2: Seq<char>, v: Seq<char>, v2: Seq<char>, i: nat, j: nat)
    requires
        i <= v.len(),
        j <= v2.len(),
    ensures
        osa_dp(u + v, u2 + v2, u.len() + i, u2.len() + j) <= damerau(u, u2) + osa_dp(v, v2, i, j),
    decreases i + j,
{
    let x = u + v;
    let y = u2 + v2;
    let p = (u.len() + i) as nat;
    let q = (u2.len() + j) as nat;
    lemma_osa_dp_step(x, y, p, q);
    if i == 0 && j == 0 {
        lemma_osa_dp_prefix(u, u2, x, y, u.len(), u2.len());
    } else if i == 0 {
        lemma_osa_dp_concat(u, u2, v, v2, i, (j - 1) as nat);
    } else if j == 0 {
        lemma_osa_dp_concat(u, u2, v, v2, (i - 1) as nat, j);
    } else {
        lemma_osa_dp_concat(u, u2, v, v2, (i - 1) as nat, j);
        lemma_osa_dp_concat(u, u2, v, v2, i, (j - 1) as nat);
        lemma_osa_dp_concat(u, u2, v, v2, (i - 1) as nat, (j - 1) as nat);
        assert(x[p - 1] == v[i - 1]);
        assert(y[q - 1] == v2[j - 1]);
        if swapped(v, v2, i as int, j as int) {
            lemma_osa_dp_concat(u, u2, v, v2, (i - 2) as nat, (j - 2) as nat);
            assert(x[p - 2] == v[i - 2]);
            assert(y[q - 2] == v2[j - 2]);
            assert(swapped(x, y, p as int, q as int));
        }
    }
}

/// Edits of the two halves combine: the distance of `u + v` to `u2 + v2` is
/// at most that of `u` to `u2` plus that of `v` to `v2`.
pub proof fn lemma_damerau_concat(u: Seq<char>, u2: Seq<char>, v: Seq<char>, v2: Seq<char>)
    ensures
        damerau(u + v, u2 + v2) <= damerau(u, u2) + damerau(v, v2),
{
    lemma_osa_dp_concat(u, u2, v, v2, v.len(), v2.len());
}

/// An adjacent transposition costs one edit wherever it stands: swapping
/// `p` and `q` between `x` / `x2` and `y` / `y2` costs one more edit than
/// editing `x` into `x2` and `y` into `y2`, whatever their lengths.
pub proof fn lemma_damerau_transposition(x: Seq<char>, x2: Seq<char>, p: char, q: char, y: Seq<char>, y2: Seq<char>)
    ensures
        damerau(seq![p, q], seq![q, p]) <= 1,
        damerau(x + seq![p, q] + y, x2 + seq![q, p] + y2) <= damerau(x, x2) + 1 + damerau(y, y2),
{
    let s = seq![p, q];
    let t = seq![q, p];
    assert(swapped(s, t, 2, 2));
    assert(osa_dp(s, t, 0, 0) == 0);
    lemma_damerau_concat(x, x2, s, t);
    lemma_damerau_concat(x + s, x2 + t, y, y2);
}

/// Transpositions only shorten: the transposition-aware table never exceeds Levenshtein's.
proof fn lemma_osa_le_lev(a: Seq<char>, b: Seq<char>, i: nat, j: nat)
    ensures
        osa_dp(a, b, i, j) <= lev_dp(a, b, i, j),
    decreases i + j,
{
    if i > 0 && j > 0 {
        lemma_osa_le_lev(a, b, (i - 1) as nat, j);
        lemma_osa_le_lev(a, b, i, (j - 1) as nat);
        lemma_osa_le_lev(a, b, (i - 1) as nat, (j - 1) as nat);
    }
}

/// The Damerau-Levenshtein distance never exceeds the Levenshtein distance.
pub proof fn lemma_damerau_le_levenshtein(a: Seq<char>, b: Seq<char>)
    ensures
        damerau(a, b) <= levenshtein(a, b),
{
    lemma_osa_le_lev(a, b, a.len(), b.len());
}

// ── Executable distances ────────────────────────────────────────────────

/// The least of three numbers.
fn min3(a: usize, b: usize, c: usize) -> (r: usize)
    ensures
        r == spec_min3(a as int, b as int, c as int),
{
    let m = if a <= b {
        a
    } else {
        b
    };
    if m <= c {
        m
    } else {
        c
    }
}

/// Levenshtein distance between `a` and `b`, computed with a single row over
/// the shorter string.
pub fn edit_distance(a: &str, b: &str) -> (d: usize)
    requires
        a@.len() < usize::MAX,
        b@.len() < usize::MAX,
    ensures
        d == levenshtein(a@, b@),
{
    let a_chars = chars_of(a);
    let b_chars = chars_of(b);
    let (short, long) = if a_chars.len() <= b_chars.len() {
        (&a_chars, &b_chars)
    } else {
        (&b_chars, &a_chars)
    };
    let len_s = short.len();
    let len_l = long.len();
    let mut row: Vec<usize> = Vec::new();
    let mut k: usize = 0;
    while k <= len_s
        invariant
            k <= len_s + 1,
            len_s < usize::MAX,
            row@.len() == k,
            forall|t: int| 0 <= t < k ==> row@[t] == t,
        decreases len_s + 1 - k,
    {
        row.push(k);
        k += 1;
    }
    let ghost s = short@;
    let ghost l = long@;
    let mut i: usize = 1;
    while i <= len_l
        invariant
            1 <= i <= len_l + 1,
            len_l < usize::MAX,
            len_s < usize::MAX,
            len_s == s.len(),
            len_l == l.len(),
            s == short@,
            l == long@,
            row@.len() == len_s + 1,
            forall|t: int| 0 <= t <= len_s ==> row@[t] == lev_dp(l, s, (i - 1) as nat, t as nat),
        decreases len_l + 1 - i,
    {
        let mut prev = row[0];
        row.set(0, i);
        let mut j: usize = 1;
        while j <= len_s
            invariant
                1 <= i <= len_l,
                1 <= j <= len_s + 1,
                len_s < usize::MAX,
                len_s == s.len(),
                len_l == l.len(),
                len_l < usize::MAX,
                s == short@,
                l == long@,
                row@.len() == len_s + 1,
                prev == lev_dp(l, s, (i - 1) as nat, (j - 1) as nat),
                forall|t: int| 0 <= t < j ==> row@[t] == lev_dp(l, s, i as nat, t as nat),
                forall|t: int|
                    j <= t <= len_s ==> row@[t] == lev_dp(l, s, (i - 1) as nat, t as nat),
            decreases len_s + 1 - j,
        {
            proof {
                lemma_lev_bounds(l, s, (i - 1) as nat, j as nat);
                lemma_lev_bounds(l, s, i as nat, (j - 1) as nat);
                lemma_lev_bounds(l, s, (i - 1) as nat, (j - 1) as nat);
            }
            let cost: usize = if long[i - 1] == short[j - 1] {
                0
            } else {
                1
            };
            let temp = row[j];
            let v = min3(row[j] + 1, row[j - 1] + 1, prev + cost);
            row.set(j, v);
            prev = temp;
            j += 1;
        }
        i += 1;
    }
    proof {
        lemma_lev_dp_symmetric(a@, b@, a@.len(), b@.len());
    }
    row[len_s]
}

/// Damerau-Levenshtein (optimal string alignment) distance between `a` and `b`:
/// like Levenshtein, with a swap of two adjacent characters counted as one edit.
pub fn damerau_levenshtein(a: &str, b: &str) -> (d: usize)
    requires
        a@.len() < usize::MAX,
        b@.len() < usize::MAX,
    ensures
        d == damerau(a@, b@),
{
    let a_chars = chars_of(a);
    let b_chars = chars_of(b);
    damerau_chars(&a_chars, &b_chars)
}

/// Damerau-Levenshtein distance between two character sequences, keeping the
/// last three rows of the table.
pub fn damerau_chars(a_chars: &[char], b_chars: &[char]) -> (d: usize)
    requires
        a_chars@.len() < usize::MAX,
        b_chars@.len() < usize::MAX,
    ensures
        d == damerau(a_chars@, b_chars@),
{
    let len_a = a_chars.len();
    let len_b = b_chars.len();
    if len_a == 0 {
        return len_b;
    }
    if len_b == 0 {
        return len_a;
    }
    let ghost a = a_chars@;
    let ghost b = b_chars@;
    let mut prev2: Vec<usize> = Vec::new();
    let mut prev: Vec<usize> = Vec::new();
    let mut k: usize = 0;
    while k <= len_b
        invariant
            k <= len_b + 1,
            len_b < usize::MAX,
            prev@.len() == k,
            prev2@.len() == k,
            forall|t: int| 0 <= t < k ==> prev@[t] == t,
        decreases len_b + 1 - k,
    {
        prev.push(k);
        prev2.push(0);
        k += 1;
    }
    let mut i: usize = 1;
    while i <= len_a
        invariant
            1 <= i <= len_a + 1,
            len_a < usize::MAX,
            len_b < usize::MAX,
            len_a == a.len(),
            len_b == b.len(),
            a == a_chars@,
            b == b_chars@,
            prev@.len() == len_b + 1,
            prev2@.len() == len_b + 1,
            forall|t: int| 0 <= t <= len_b ==> prev@[t] == osa_dp(a, b, (i - 1) as nat, t as nat),
            i >= 2 ==> forall|t: int|
                0 <= t <= len_b ==> prev2@[t] == osa_dp(a, b, (i - 2) as nat, t as nat),
        decreases len_a + 1 - i,
    {
        let mut cur: Vec<usize> = Vec::new();
        cur.push(i);
        let mut j: usize = 1;
        while j <= len_b
            invariant
                1 <= i <= len_a,
                1 <= j <= len_b + 1,
                len_a < usize::MAX,
                len_b < usize::MAX,
                len_a == a.len(),
                len_b == b.len(),
                a == a_chars@,
                b == b_chars@,
                prev@.len() == len_b + 1,
                prev2@.len() == len_b + 1,
                cur@.len() == j,
                forall|t: int|
                    0 <= t <= len_b ==> prev@[t] == osa_dp(a, b, (i - 1) as nat, t as nat),
                i >= 2 ==> forall|t: int|
                    0 <= t <= len_b ==> prev2@[t] == osa_dp(a, b, (i - 2) as nat, t as nat),
                forall|t: int| 0 <= t < j ==> cur@[t] == osa_dp(a, b, i as nat, t as nat),
            decreases len_b + 1 - j,
        {
            proof {
                lemma_osa_bounds(a, b, (i - 1) as nat, j as nat);
                lemma_osa_bounds(a, b, i as nat, (j - 1) as nat);
                lemma_osa_bounds(a, b, (i - 1) as nat, (j - 1) as nat);
                if i > 1 && j > 1 {
                    lemma_osa_bounds(a, b, (i - 2) as nat, (j - 2) as nat);
                }
            }
            let cost: usize = if a_chars[i - 1] == b_chars[j - 1] {
                0
            } else {
                1
            };
            let mut v = min3(prev[j] + 1, cur[j - 1] + 1, prev[j - 1] + cost);
            if i > 1 && j > 1 && a_chars[i - 1] == b_chars[j - 2] && a_chars[i - 2] == b_chars[j
                - 1] {
                let t = prev2[j - 2] + 1;
                if t < v {
                    v = t;
                }
            }
            cur.push(v);
            j += 1;
        }
        prev2 = prev;
        prev = cur;
        i += 1;
    }
    prev[len_b]
}

/// `t` is a fuzzy match of the stemmed query term `s` within `m`: a term
/// whose distance to `s` is between 1 and `m` (and whose length fits the
/// distance table).
pub open spec fn is_fuzzy_match(s: Seq<char>, t: Seq<char>, m: int) -> bool {
    &&& t.len() < usize::MAX
    &&& 0 < damerau(s, t) <= m
}

/// `r` lists the fuzzy matches of `s` among the terms of `index`, each once
/// with its distance, sorted by distance.
pub open spec fn fuzzy_matches_ok(index: InvertedIndex, s: Seq<char>, m: int, r: Seq<(String, usize)>) -> bool {
    &&& forall|i: int, j: int| 0 <= i <= j < r.len() ==> r[i].1 <= r[j].1
    &&& forall|i: int, j: int| 0 <= i < r.len() && 0 <= j < r.len() && i != j ==> r[i].0@ != r[j].0@
    &&& forall|i: int|
        0 <= i < r.len() ==> has_term(index@, (#[trigger] r[i]).0@) && is_fuzzy_match(s, r[i].0@, m)
            && r[i].1 == damerau(s, r[i].0@)
    &&& forall|k: int|
        0 <= k < index@.len() && is_fuzzy_match(s, (#[trigger] index@[k]).0, m) ==> exists|i: int|
            0 <= i < r.len() && (#[trigger] r[i]).0@ == index@[k].0
}

/// The matches found among the first `k` terms of the vocabulary `v`: sorted
/// by distance, each once, each a fuzzy match of `s` among those terms, and
/// none of those matches missing.
pub open spec fn matches_upto(v: IndexView, s: Seq<char>, m: int, k: int, out: Seq<(String, usize)>) -> bool {
    &&& forall|i: int, j: int| 0 <= i <= j < out.len() ==> out[i].1 <= out[j].1
    &&& forall|i: int, j: int|
        0 <= i < out.len() && 0 <= j < out.len() && i != j ==> out[i].0@ != out[j].0@
    &&& forall|i: int|
        0 <= i < out.len() ==> exists|t: int|
            0 <= t < k && v[t].0 == (#[trigger] out[i]).0@ && is_fuzzy_match(s, out[i].0@, m)
                && out[i].1 == damerau(s, out[i].0@)
    &&& forall|t: int|
        0 <= t < k && is_fuzzy_match(s, (#[trigger] v[t]).0, m) ==> exists|i: int|
            0 <= i < out.len() && (#[trigger] out[i]).0@ == v[t].0
}

/// A term that is no match leaves the matches found so far as they are.
proof fn lemma_matches_skip(v: IndexView, s: Seq<char>, m: int, k: int, out: Seq<(String, usize)>)
    requires
        0 <= k < v.len(),
        matches_upto(v, s, m, k, out),
        !is_fuzzy_match(s, v[k].0, m),
    ensures
        matches_upto(v, s, m, k + 1, out),
{
    assert forall|i: int| 0 <= i < out.len() implies exists|t: int|
        0 <= t < k + 1 && v[t].0 == (#[trigger] out[i]).0@ && is_fuzzy_match(s, out[i].0@, m)
            && out[i].1 == damerau(s, out[i].0@) by {
        let t = choose|t: int|
            0 <= t < k && v[t].0 == (#[trigger] out[i]).0@ && is_fuzzy_match(s, out[i].0@, m)
                && out[i].1 == damerau(s, out[i].0@);
    }
}

/// Adds the match `item`, the term at position `k`, after the matches at most as far.
#[verifier::spinoff_prover]
#[verifier::rlimit(50)]
fn add_match(
    out: &mut Vec<(String, usize)>,
    item: (String, usize),
    Ghost(v): Ghost<IndexView>,
    Ghost(s): Ghost<Seq<char>>,
    Ghost(m): Ghost<int>,
    Ghost(k): Ghost<int>,
)
    requires
        distinct_terms(v),
        0 <= k < v.len(),
        matches_upto(v, s, m, k, old(out)@),
        item.0@ == v[k].0,
        is_fuzzy_match(s, item.0@, m),
        item.1 == damerau(s, item.0@),
    ensures
        matches_upto(v, s, m, k + 1, final(out)@),
{
    let ghost old_out = out@;
    let d = item.1;
    let mut pos = out.len();
    while pos > 0 && out[pos - 1].1 > d
        invariant
            pos <= out@.len(),
            out@ == old_out,
            forall|x: int| pos <= x < out@.len() ==> out@[x].1 > d,
        decreases pos,
    {
        pos -= 1;
    }
    proof {
        assert forall|x: int| 0 <= x < pos implies out@[x].1 <= d by {
            assert(out@[x].1 <= out@[pos - 1].1);
        }
    }
    out.insert(pos, item);
    proof {
        assert(out@ == old_out.insert(pos as int, item));
        assert forall|i: int| 0 <= i < out@.len() implies exists|x: int|
            0 <= x < k + 1 && v[x].0 == (#[trigger] out@[i]).0@ && is_fuzzy_match(s, out@[i].0@, m)
                && out@[i].1 == damerau(s, out@[i].0@) by {
            if i < pos {
                assert(out@[i] == old_out[i]);
            } else if i > pos {
                assert(out@[i] == old_out[i - 1]);
            } else {
                assert(v[k].0 == out@[i].0@);
            }
        }
        assert forall|i: int, j: int|
            0 <= i < out@.len() && 0 <= j < out@.len() && i != j implies out@[i].0@ != out@[j].0@ by {
            if i != pos && j != pos {
                let oi = if i < pos { i } else { i - 1 };
                let oj = if j < pos { j } else { j - 1 };
                assert(out@[i] == old_out[oi]);
                assert(out@[j] == old_out[oj]);
            } else {
                let o = if i == pos { j } else { i };
                let oo = if o < pos { o } else { o - 1 };
                assert(out@[o] == old_out[oo]);
                let x = choose|x: int|
                    0 <= x < k && v[x].0 == (#[trigger] old_out[oo]).0@ && is_fuzzy_match(
                        s,
                        old_out[oo].0@,
                        m,
                    ) && old_out[oo].1 == damerau(s, old_out[oo].0@);
                assert(v[x].0 != v[k].0);
            }
        }
        assert forall|x: int| 0 <= x < k + 1 && is_fuzzy_match(s, (#[trigger] v[x]).0, m) implies exists|i: int|
            0 <= i < out@.len() && (#[trigger] out@[i]).0@ == v[x].0 by {
            if x == k {
                assert(out@[pos as int].0@ == v[x].0);
            } else {
                let i = choose|i: int| 0 <= i < old_out.len() && (#[trigger] old_out[i]).0@ == v[x].0;
                if i < pos {
                    assert(out@[i] == old_out[i]);
                } else {
                    assert(out@[i + 1] == old_out[i]);
                }
            }
        }
    }
}

/// Terms of the index within `max_dist` edits of the stemmed `query_term`,
/// exact matches excluded, sorted by distance.
pub fn fuzzy_match_terms(index: &InvertedIndex, query_term: &str, max_dist: usize) -> (r: Vec<(String, usize)>)
    requires
        index.wf(),
    ensures
        spec_stem(query_term@).len() < usize::MAX ==> fuzzy_matches_ok(
            *index,
            spec_stem(query_term@),
            max_dist as int,
            r@,
        ),
        spec_stem(query_term@).len() == usize::MAX ==> r@.len() == 0,
{
    let stemmed = stem(query_term);
    let sc = chars_of(stemmed.as_str());
    let mut out: Vec<(String, usize)> = Vec::new();
    if sc.len() == usize::MAX {
        return out;
    }
    let ghost s = stemmed@;
    let ghost m = max_dist as int;
    let ghost v = index@;
    let n = index.term_count();
    let mut k: usize = 0;
    while k < n
        invariant
            distinct_terms(v),
            v == index@,
            n == v.len(),
            k <= n,
            sc@ == s,
            s.len() < usize::MAX,
            m == max_dist,
            matches_upto(v, s, m, k as int, out@),
        decreases n - k,
    {
        let (term, _) = index.entry_at(k);
        let tc = chars_of(term);
        let gap = if tc.len() > sc.len() {
            tc.len() - sc.len()
        } else {
            sc.len() - tc.len()
        };
        let mut d: usize = 0;
        if tc.len() < usize::MAX && gap <= max_dist {
            d = damerau_chars(&sc, &tc);
        }
        if tc.len() < usize::MAX && gap <= max_dist && d <= max_dist && d > 0 {
            add_match(&mut out, (term.to_owned(), d), Ghost(v), Ghost(s), Ghost(m), Ghost(k as int));
        } else {
            proof {
                lemma_distance_bounds(s, tc@);
                lemma_matches_skip(v, s, m, k as int, out@);
            }
        }
        k += 1;
    }
    proof {
        assert forall|i: int| 0 <= i < out@.len() implies has_term(index@, (#[trigger] out@[i]).0@)
            && is_fuzzy_match(s, out@[i].0@, m) && out@[i].1 == damerau(s, out@[i].0@) by {
            let x = choose|x: int|
                0 <= x < n && v[x].0 == (#[trigger] out@[i]).0@ && is_fuzzy_match(s, out@[i].0@, m)
                    && out@[i].1 == damerau(s, out@[i].0@);
            assert(v[x].0 == out@[i].0@);
        }
    }
    out
}


// ── Query expansion ─────────────────────────────────────────────────────

/// What `fuzzy_match_terms` promises for the query term `t`.
pub open spec fn fuzzy_result(index: InvertedIndex, t: Seq<char>, m: int, r: Seq<(String, usize)>) -> bool {
    &&& spec_stem(t).len() < usize::MAX ==> fuzzy_matches_ok(index, spec_stem(t), m, r)
    &&& spec_stem(t).len() == usize::MAX ==> r.len() == 0
}

/// Corrections (query term, index term, distance) as plain values.
pub open spec fn fix_views(fs: Seq<(String, String, usize)>) -> Seq<(Seq<char>, Seq<char>, usize)> {
    fs.map_values(|f: (String, String, usize)| (f.0@, f.1@, f.2))
}

/// The expanded terms `ts` and corrections `fs` after the fuzzy matches `ms`
/// of the query term `t` are taken in turn: a match joins the terms unless it
/// is there already, and is recorded as a correction of `t` when `t` itself
/// is not in the index (`exact` false) or the match is one edit away.
pub open spec fn add_matches(
    ts: Seq<Seq<char>>,
    fs: Seq<(Seq<char>, Seq<char>, usize)>,
    t: Seq<char>,
    exact: bool,
    ms: Seq<(String, usize)>,
) -> (Seq<Seq<char>>, Seq<(Seq<char>, Seq<char>, usize)>)
    decreases ms.len(),
{
    if ms.len() == 0 {
        (ts, fs)
    } else {
        let prev = add_matches(ts, fs, t, exact, ms.drop_last());
        let mt = ms.last().0@;
        let d = ms.last().1;
        (
            if prev.0.contains(mt) {
                prev.0
            } else {
                prev.0.push(mt)
            },
            if !exact || d == 1 {
                prev.1.push((t, mt, d))
            } else {
                prev.1
            },
        )
    }
}

/// The expansion of the query terms `toks` over the vocabulary `v`, `ms[i]`
/// being the fuzzy matches of `toks[i]`: each query term in turn, followed by
/// those of its matches not listed yet.
pub open spec fn expand_all(v: IndexView, toks: Seq<Seq<char>>, ms: Seq<Seq<(String, usize)>>) -> (
    Seq<Seq<char>>,
    Seq<(Seq<char>, Seq<char>, usize)>,
)
    decreases toks.len(),
{
    if toks.len() == 0 || ms.len() == 0 {
        (Seq::empty(), Seq::empty())
    } else {
        let prev = expand_all(v, toks.drop_last(), ms.drop_last());
        let t = toks.last();
        add_matches(prev.0.push(t), prev.1, t, has_term(v, t), ms.last())
    }
}

/// The fuzzy expansion of a query: its terms, each followed by the index
/// terms within `max_dist` edits of it (each listed once), and the
/// corrections (query term, index term, distance) to report, as `expand_all`
/// says for the matches that `fuzzy_match_terms` finds.
pub fn fuzzy_expand(index: &InvertedIndex, query: &str, max_dist: usize) -> (r: (
    Vec<String>,
    Vec<(String, String, usize)>,
))
    requires
        index.wf(),
    ensures
        exists|ms: Seq<Seq<(String, usize)>>|
            {
                &&& ms.len() == spec_tokenize(query@).len()
                &&& forall|i: int|
                    0 <= i < ms.len() ==> fuzzy_result(
                        *index,
                        spec_tokenize(query@)[i],
                        max_dist as int,
                        #[trigger] ms[i],
                    )
                &&& (views(r.0@), fix_views(r.1@)) == expand_all(index@, spec_tokenize(query@), ms)
            },
{
    let toks = tokenize(query);
    let ghost tv = views(toks@);
    let mut terms: Vec<String> = Vec::new();
    let mut fixes: Vec<(String, String, usize)> = Vec::new();
    let ghost mut ms: Seq<Seq<(String, usize)>> = Seq::empty();
    let mut i: usize = 0;
    proof {
        assert(views(terms@) =~= Seq::<Seq<char>>::empty());
        assert(fix_views(fixes@) =~= Seq::<(Seq<char>, Seq<char>, usize)>::empty());
    }
    while i < toks.len()
        invariant
            i <= toks@.len(),
            tv == views(toks@),
            index.wf(),
            ms.len() == i,
            forall|k: int| 0 <= k < i ==> fuzzy_result(*index, tv[k], max_dist as int, #[trigger] ms[k]),
            (views(terms@), fix_views(fixes@)) == expand_all(index@, tv.take(i as int), ms),
        decreases toks.len() - i,
    {
        let t = &toks[i];
        let ghost tw = t@;
        assert(tw == tv[i as int]);
        let ghost old_terms = views(terms@);
        terms.push(t.clone());
        proof {
            assert(views(terms@) =~= old_terms.push(tw));
        }
        let exact = index.contains_term(t.as_str());
        let found = fuzzy_match_terms(index, t.as_str(), max_dist);
        let ghost ts0 = views(terms@);
        let ghost fs0 = fix_views(fixes@);
        let mut j: usize = 0;
        proof {
            assert(found@.take(0) =~= Seq::<(String, usize)>::empty());
        }
        while j < found.len()
            invariant
                j <= found@.len(),
                tw == t@,
                (views(terms@), fix_views(fixes@)) == add_matches(ts0, fs0, tw, exact, found@.take(j as int)),
            decreases found.len() - j,
        {
            let mt = &found[j].0;
            let d = found[j].1;
            let ghost before_t = views(terms@);
            let ghost before_f = fix_views(fixes@);
            if !has_str(&terms, mt.as_str()) {
                terms.push(mt.clone());
                proof {
                    assert(views(terms@) =~= before_t.push(mt@));
                }
            }
            if !exact || d == 1 {
                fixes.push((t.clone(), mt.clone(), d));
                proof {
                    assert(fix_views(fixes@) =~= before_f.push((tw, mt@, d)));
                }
            }
            proof {
                assert(found@.take(j + 1).drop_last() =~= found@.take(j as int));
                assert(found@.take(j + 1).last() == found@[j as int]);
            }
            j += 1;
        }
        proof {
            assert(found@.take(found@.len() as int) =~= found@);
            let ghost old_ms = ms;
            ms = ms.push(found@);
            assert(ms.drop_last() =~= old_ms);
            assert(tv.take(i + 1).drop_last() =~= tv.take(i as int));
            assert(tv.take(i + 1).last() == tw);
            assert forall|k: int| 0 <= k < i + 1 implies fuzzy_result(*index, tv[k], max_dist as int, #[trigger] ms[k]) by {
                if k < i {
                    assert(ms[k] == old_ms[k]);
                }
            }
        }
        i += 1;
    }
    proof {
        assert(tv.take(i as int) =~= tv);
    }
    (terms, fixes)
}

} // verus!
