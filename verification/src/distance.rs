//! Edit distance between names, used for "did you mean" suggestions.
use vstd::prelude::*;
use crate::text::str_chars;

verus! {

pub open spec fn min3(x: nat, y: nat, z: nat) -> nat {
    let m = if x <= y { x } else { y };
    if m <= z { m } else { z }
}

/// The Levenshtein distance between `a` and `b` (insertions, deletions and substitutions
/// each cost one).
pub open spec fn levenshtein(a: Seq<char>, b: Seq<char>) -> nat
    decreases a.len() + b.len(),
{
    if a.len() == 0 {
        b.len()
    } else if b.len() == 0 {
        a.len()
    } else if a.last() == b.last() {
        levenshtein(a.drop_last(), b.drop_last())
    } else {
        1 + min3(
            levenshtein(a.drop_last(), b.drop_last()),
            levenshtein(a.drop_last(), b),
            levenshtein(a, b.drop_last()),
        )
    }
}

/// The distance never exceeds the longer length.
pub proof fn lemma_levenshtein_bound(a: Seq<char>, b: Seq<char>)
    ensures
        levenshtein(a, b) <= if a.len() >= b.len() { a.len() } else { b.len() },
    decreases a.len() + b.len(),
{
    if a.len() > 0 && b.len() > 0 {
        lemma_levenshtein_bound(a.drop_last(), b.drop_last());
    }
}

/// `|m - n|` for lengths.
pub open spec fn abs_diff(m: nat, n: nat) -> nat {
    if m >= n { (m - n) as nat } else { (n - m) as nat }
}

/// The result of `edit_distance`: the Levenshtein distance, capped at 3.
pub open spec fn capped_distance(a: Seq<char>, b: Seq<char>) -> nat {
    if levenshtein(a, b) < 3 {
        levenshtein(a, b)
    } else {
        3
    }
}

/// The distance is at least the difference of the lengths.
pub proof fn lemma_levenshtein_len_diff(a: Seq<char>, b: Seq<char>)
    ensures
        levenshtein(a, b) >= abs_diff(a.len(), b.len()),
    decreases a.len() + b.len(),
{
    if a.len() > 0 && b.len() > 0 {
        lemma_levenshtein_len_diff(a.drop_last(), b.drop_last());
        lemma_levenshtein_len_diff(a.drop_last(), b);
        lemma_levenshtein_len_diff(a, b.drop_last());
    }
}

pub fn edit_distance_chars(a: &[char], b: &[char]) -> (r: usize)
    ensures
        r == capped_distance(a@, b@),
{
    let m = a.len();
    let n = b.len();
    let diff = if m >= n { m - n } else { n - m };
    if diff > 2 {
        proof {
            lemma_levenshtein_len_diff(a@, b@);
        }
        return 3;
    }
    let mut prev: Vec<usize> = Vec::new();
    let mut curr: Vec<usize> = Vec::new();
    prev.push(0);
    curr.push(0);
    let mut j: usize = 0;
    while j < n
        invariant
            n == b@.len(),
            j <= n,
            prev@.len() == j + 1,
            curr@.len() == j + 1,
            forall|k: int| 0 <= k <= j ==> prev@[k] == levenshtein(a@.take(0), b@.take(k)),
        decreases n - j,
    {
        j += 1;
        prev.push(j);
        curr.push(0);
    }
    let mut i: usize = 0;
    while i < m
        invariant
            m == a@.len(),
            n == b@.len(),
            i <= m,
            prev@.len() == n + 1,
            curr@.len() == n + 1,
            forall|k: int| 0 <= k <= n ==> prev@[k] == levenshtein(a@.take(i as int), b@.take(k)),
        decreases m - i,
    {
        let row = i + 1;
        curr.set(0, row);
        let mut j: usize = 0;
        while j < n
            invariant
                m == a@.len(),
                n == b@.len(),
                i < m,
                row == i + 1,
                j <= n,
                prev@.len() == n + 1,
                curr@.len() == n + 1,
                forall|k: int| 0 <= k <= n ==> prev@[k] == levenshtein(a@.take(i as int), b@.take(k)),
                forall|k: int| 0 <= k <= j ==> curr@[k] == levenshtein(a@.take(row as int), b@.take(k)),
            decreases n - j,
        {
            let col = j + 1;
            let ghost ai = a@.take(row as int);
            let ghost bj = b@.take(col as int);
            proof {
                assert(ai.drop_last() == a@.take(i as int));
                assert(bj.drop_last() == b@.take(j as int));
                assert(ai.last() == a@[i as int]);
                assert(bj.last() == b@[j as int]);
                lemma_levenshtein_bound(a@.take(i as int), b@.take(j as int));
                lemma_levenshtein_bound(a@.take(i as int), bj);
                lemma_levenshtein_bound(ai, b@.take(j as int));
            }
            let v = if a[i] == b[j] {
                prev[j]
            } else {
                let x = prev[j];
                let y = prev[col];
                let z = curr[j];
                let mm = if x <= y { x } else { y };
                let mm = if mm <= z { mm } else { z };
                1 + mm
            };
            curr.set(col, v);
            j = col;
        }
        std::mem::swap(&mut prev, &mut curr);
        i = row;
    }
    assert(a@.take(m as int) == a@);
    assert(b@.take(n as int) == b@);
    let d = prev[n];
    if d < 3 { d } else { 3 }
}

/// Simple Levenshtein distance (capped at 3).
pub fn edit_distance(a: &str, b: &str) -> (r: usize)
    ensures
        r == capped_distance(a@, b@),
{
    let ac = str_chars(a);
    let bc = str_chars(b);
    edit_distance_chars(ac.as_slice(), bc.as_slice())
}

} // verus!
