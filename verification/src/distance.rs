//! The edit distance of two transcriptions.
use vstd::prelude::*;

verus! {

/// The smallest of three numbers.
pub open spec fn min3(a: nat, b: nat, c: nat) -> nat {
    if a <= b && a <= c {
        a
    } else if b <= c {
        b
    } else {
        c
    }
}

/// The Levenshtein distance of `a` and `b`: the least number of characters to
/// insert, delete or replace that turns `a` into `b`.
pub open spec fn edit_distance(a: Seq<char>, b: Seq<char>) -> nat
    decreases a.len() + b.len(),
{
    if a.len() == 0 {
        b.len()
    } else if b.len() == 0 {
        a.len()
    } else {
        let replace = edit_distance(a.drop_last(), b.drop_last()) + if a.last() == b.last() {
            0nat
        } else {
            1nat
        };
        let delete = edit_distance(a.drop_last(), b) + 1;
        let insert = edit_distance(a, b.drop_last()) + 1;
        min3(replace, delete, insert)
    }
}

/// How far the lengths of `a` and `b` are apart.
pub open spec fn length_gap(a: Seq<char>, b: Seq<char>) -> nat {
    if a.len() >= b.len() {
        (a.len() - b.len()) as nat
    } else {
        (b.len() - a.len()) as nat
    }
}

/// Trusted: `levenshtein::levenshtein`, which computes the Levenshtein
/// distance of two strings, counted in characters.
#[verifier::external_body]
pub(crate) fn levenshtein(a: &str, b: &str) -> (r: usize)
    ensures
        r == edit_distance(a@, b@),
{
    levenshtein::levenshtein(a, b)
}

/// Two transcriptions are at least as far apart as their lengths are.
pub proof fn lemma_length_gap_bounds_distance(a: Seq<char>, b: Seq<char>)
    ensures
        length_gap(a, b) <= edit_distance(a, b),
    decreases a.len() + b.len(),
{
    if a.len() > 0 && b.len() > 0 {
        lemma_length_gap_bounds_distance(a.drop_last(), b.drop_last());
        lemma_length_gap_bounds_distance(a.drop_last(), b);
        lemma_length_gap_bounds_distance(a, b.drop_last());
    }
}

/// Comparing the lengths first never changes the answer: two transcriptions
/// are within `max_distance` edits of each other if and only if their
/// lengths are no further apart than that and their distance is no greater.
pub proof fn lemma_length_check_agrees(a: Seq<char>, b: Seq<char>, max_distance: nat)
    ensures
        (length_gap(a, b) <= max_distance && edit_distance(a, b) <= max_distance) <==> edit_distance(
            a,
            b,
        ) <= max_distance,
{
    lemma_length_gap_bounds_distance(a, b);
}

} // verus!
