//! Groups of words that are pronounced alike, and the merging of groups that
//! share members.
use crate::text::{
    group_less, group_lt, lemma_group_le_transitive, lemma_group_lt_asymmetric,
    lemma_lex_lt_irreflexive, lemma_lex_lt_total, lemma_lex_lt_transitive, lex_lt, push_char,
    str_lt, texts,
};
pub use crate::group_builder::GroupBuilder;
use crate::dictionary::{Dictionary, WordView};
use crate::util::{Buckets, Multimap};
use vstd::prelude::*;
use vstd::std_specs::iter::IteratorSpec;
use vstd::string::*;

verus! {

/// The character sequences of a sequence of groups of strings.
pub open spec fn group_texts(groups: Seq<Vec<String>>) -> Seq<Seq<Seq<char>>> {
    groups.map_values(|g: Vec<String>| texts(g@))
}

/// Every word of `g` comes before the words behind it, so none occurs twice.
pub open spec fn strictly_sorted(g: Seq<Seq<char>>) -> bool {
    forall|i: int, j: int| 0 <= i < j < g.len() ==> lex_lt(#[trigger] g[i], #[trigger] g[j])
}

/// The groups are in the order of their first members.
pub open spec fn sorted_by_first(groups: Seq<Seq<Seq<char>>>) -> bool {
    forall|i: int, j: int|
        0 <= i < j < groups.len() ==> !lex_lt((#[trigger] groups[j])[0], (#[trigger] groups[i])[0])
}

/// No group stands behind a group that comes after it: the groups are in
/// the order of their first words, groups with the same first word in the
/// order of their second words, and so on.
pub open spec fn sorted_groups(groups: Seq<Seq<Seq<char>>>) -> bool {
    forall|i: int, j: int|
        0 <= i < j < groups.len() ==> !group_lt(#[trigger] groups[j], #[trigger] groups[i])
}

/// What holds of the groups of every [`WordGroups`]: each group has at least
/// two words, in ascending order and without repetition, and the groups stand
/// in the order of their smallest words, groups with the same smallest word
/// in the order of the words that follow.
pub open spec fn well_formed(groups: Seq<Seq<Seq<char>>>) -> bool {
    &&& forall|i: int|
        0 <= i < groups.len() ==> (#[trigger] groups[i]).len() >= 2 && strictly_sorted(groups[i])
    &&& sorted_groups(groups)
}

/// The sorted group `g` with `w` put at its place, unless `w` is in it.
pub open spec fn insert_member(g: Seq<Seq<char>>, w: Seq<char>) -> Seq<Seq<char>>
    decreases g.len(),
{
    if g.len() == 0 {
        seq![w]
    } else if g.last() == w {
        g
    } else if lex_lt(g.last(), w) {
        g.push(w)
    } else {
        insert_member(g.drop_last(), w).push(g.last())
    }
}

/// The distinct words of `g` in ascending order.
pub open spec fn sorted_members(g: Seq<Seq<char>>) -> Seq<Seq<char>>
    decreases g.len(),
{
    if g.len() == 0 {
        g
    } else {
        insert_member(sorted_members(g.drop_last()), g.last())
    }
}

/// The groups `groups`, in their order, with `g` put behind the last group
/// that `g` does not come before.
pub open spec fn insert_group(groups: Seq<Seq<Seq<char>>>, g: Seq<Seq<char>>) -> Seq<
    Seq<Seq<char>>,
>
    decreases groups.len(),
{
    if groups.len() == 0 || !group_lt(g, groups.last()) {
        groups.push(g)
    } else {
        insert_group(groups.drop_last(), g).push(groups.last())
    }
}

/// The groups in their order: by first word, groups with the same first word
/// by the words that follow.
pub open spec fn ordered(groups: Seq<Seq<Seq<char>>>) -> Seq<Seq<Seq<char>>>
    decreases groups.len(),
{
    if groups.len() == 0 {
        groups
    } else {
        insert_group(ordered(groups.drop_last()), groups.last())
    }
}

/// Each candidate group with its words sorted and written once, without the
/// groups that are then left with fewer than two words.
pub open spec fn survivors(candidates: Seq<Seq<Seq<char>>>) -> Seq<Seq<Seq<char>>> {
    candidates.map_values(|g: Seq<Seq<char>>| sorted_members(g)).filter(
        |g: Seq<Seq<char>>| g.len() >= 2,
    )
}

/// The groups that a sequence of candidate groups stands for.
pub open spec fn canonical_groups(candidates: Seq<Seq<Seq<char>>>) -> Seq<Seq<Seq<char>>> {
    ordered(survivors(candidates))
}

/// Putting a word into a sorted group leaves it sorted, and adds that word
/// and no other.
pub proof fn lemma_insert_member(g: Seq<Seq<char>>, w: Seq<char>)
    requires
        strictly_sorted(g),
    ensures
        strictly_sorted(insert_member(g, w)),
        forall|x: Seq<char>| #[trigger] insert_member(g, w).contains(x) <==> g.contains(x) || x == w,
    decreases g.len(),
{
    let r = insert_member(g, w);
    if g.len() == 0 {
        assert(r[0] == w);
    } else if g.last() == w {
        assert(g[g.len() - 1] == w);
    } else if lex_lt(g.last(), w) {
        assert forall|i: int, j: int| 0 <= i < j < r.len() implies lex_lt(
            #[trigger] r[i],
            #[trigger] r[j],
        ) by {
            if j == g.len() && i < g.len() - 1 {
                assert(lex_lt(g[i], g[g.len() - 1]));
                lemma_lex_lt_transitive(g[i], g.last(), w);
            }
        }
        assert forall|x: Seq<char>| #[trigger] r.contains(x) <==> g.contains(x) || x == w by {
            if g.contains(x) {
                let k = choose|k: int| 0 <= k < g.len() && g[k] == x;
                assert(r[k] == x);
            }
            assert(r[g.len() as int] == w);
        }
    } else {
        let head = g.drop_last();
        let inner = insert_member(head, w);
        assert(strictly_sorted(head)) by {
            assert forall|i: int, j: int| 0 <= i < j < head.len() implies lex_lt(
                #[trigger] head[i],
                #[trigger] head[j],
            ) by {
                assert(lex_lt(g[i], g[j]));
            }
        }
        lemma_insert_member(head, w);
        lemma_lex_lt_total(g.last(), w);
        assert forall|i: int, j: int| 0 <= i < j < r.len() implies lex_lt(
            #[trigger] r[i],
            #[trigger] r[j],
        ) by {
            if j == inner.len() {
                assert(inner.contains(inner[i]));
                if inner[i] != w {
                    let k = choose|k: int| 0 <= k < head.len() && head[k] == inner[i];
                    assert(lex_lt(g[k], g[g.len() - 1]));
                }
            } else {
                assert(lex_lt(inner[i], inner[j]));
            }
        }
        assert forall|x: Seq<char>| #[trigger] r.contains(x) <==> g.contains(x) || x == w by {
            if r.contains(x) {
                let k = choose|k: int| 0 <= k < r.len() && r[k] == x;
                if k < inner.len() {
                    assert(inner.contains(inner[k]));
                    if x != w {
                        let m = choose|m: int| 0 <= m < head.len() && head[m] == x;
                        assert(g[m] == x);
                    }
                } else {
                    assert(g[g.len() - 1] == x);
                }
            }
            if g.contains(x) {
                let k = choose|k: int| 0 <= k < g.len() && g[k] == x;
                if k < head.len() {
                    assert(head[k] == x);
                    assert(head.contains(x));
                    assert(inner.contains(x));
                    let m = choose|m: int| 0 <= m < inner.len() && inner[m] == x;
                    assert(r[m] == x);
                } else {
                    assert(r[inner.len() as int] == x);
                }
            }
            if x == w {
                assert(inner.contains(w));
                let m = choose|m: int| 0 <= m < inner.len() && inner[m] == w;
                assert(r[m] == w);
            }
        }
    }
}

/// The sorted members of a group are in strictly ascending order, and they
/// are the words of the group.
pub proof fn lemma_sorted_members(g: Seq<Seq<char>>)
    ensures
        strictly_sorted(sorted_members(g)),
        forall|x: Seq<char>| #[trigger] sorted_members(g).contains(x) <==> g.contains(x),
    decreases g.len(),
{
    if g.len() > 0 {
        let head = g.drop_last();
        lemma_sorted_members(head);
        lemma_insert_member(sorted_members(head), g.last());
        assert forall|x: Seq<char>| #[trigger] sorted_members(g).contains(x) <==> g.contains(
            x,
        ) by {
            if g.contains(x) {
                let k = choose|k: int| 0 <= k < g.len() && g[k] == x;
                if k < head.len() {
                    assert(head[k] == x);
                }
            }
            if head.contains(x) {
                let k = choose|k: int| 0 <= k < head.len() && head[k] == x;
                assert(g[k] == x);
            }
            assert(g[g.len() - 1] == g.last());
        }
    }
}

/// Putting a group among groups that are in order leaves them in order, and
/// adds that group and no other.
pub proof fn lemma_insert_group(groups: Seq<Seq<Seq<char>>>, g: Seq<Seq<char>>)
    requires
        sorted_groups(groups),
    ensures
        sorted_groups(insert_group(groups, g)),
        insert_group(groups, g).len() == groups.len() + 1,
        forall|x: Seq<Seq<char>>| #[trigger]
            insert_group(groups, g).contains(x) <==> groups.contains(x) || x == g,
    decreases groups.len(),
{
    let r = insert_group(groups, g);
    if groups.len() == 0 || !group_lt(g, groups.last()) {
        assert forall|i: int, j: int| 0 <= i < j < r.len() implies !group_lt(
            #[trigger] r[j],
            #[trigger] r[i],
        ) by {
            if j == groups.len() {
                if i < groups.len() - 1 {
                    assert(!group_lt(groups[groups.len() - 1], groups[i]));
                    lemma_group_le_transitive(groups[i], groups.last(), g);
                }
            } else {
                assert(!group_lt(groups[j], groups[i]));
            }
        }
        assert forall|x: Seq<Seq<char>>| #[trigger]
            r.contains(x) <==> groups.contains(x) || x == g by {
            if groups.contains(x) {
                let k = choose|k: int| 0 <= k < groups.len() && groups[k] == x;
                assert(r[k] == x);
            }
            assert(r[groups.len() as int] == g);
        }
    } else {
        let head = groups.drop_last();
        let inner = insert_group(head, g);
        assert(sorted_groups(head)) by {
            assert forall|i: int, j: int| 0 <= i < j < head.len() implies !group_lt(
                #[trigger] head[j],
                #[trigger] head[i],
            ) by {
                assert(!group_lt(groups[j], groups[i]));
            }
        }
        lemma_insert_group(head, g);
        assert forall|i: int, j: int| 0 <= i < j < r.len() implies !group_lt(
            #[trigger] r[j],
            #[trigger] r[i],
        ) by {
            if j == inner.len() {
                assert(inner.contains(inner[i]));
                if inner[i] == g {
                    lemma_group_lt_asymmetric(g, groups.last());
                } else {
                    let k = choose|k: int| 0 <= k < head.len() && head[k] == inner[i];
                    assert(!group_lt(groups[groups.len() - 1], groups[k]));
                }
            } else {
                assert(!group_lt(inner[j], inner[i]));
            }
        }
        assert forall|x: Seq<Seq<char>>| #[trigger]
            r.contains(x) <==> groups.contains(x) || x == g by {
            if r.contains(x) {
                let k = choose|k: int| 0 <= k < r.len() && r[k] == x;
                if k < inner.len() {
                    assert(inner.contains(inner[k]));
                    if x != g {
                        let m = choose|m: int| 0 <= m < head.len() && head[m] == x;
                        assert(groups[m] == x);
                    }
                } else {
                    assert(groups[groups.len() - 1] == x);
                }
            }
            if groups.contains(x) {
                let k = choose|k: int| 0 <= k < groups.len() && groups[k] == x;
                if k < head.len() {
                    assert(head[k] == x);
                    assert(head.contains(x));
                    assert(inner.contains(x));
                    let m = choose|m: int| 0 <= m < inner.len() && inner[m] == x;
                    assert(r[m] == x);
                } else {
                    assert(r[inner.len() as int] == x);
                }
            }
            if x == g {
                assert(inner.contains(g));
                let m = choose|m: int| 0 <= m < inner.len() && inner[m] == g;
                assert(r[m] == g);
            }
        }
    }
}

/// Well-formed groups stand in the order of their smallest words.
pub proof fn lemma_well_formed_by_first(groups: Seq<Seq<Seq<char>>>)
    requires
        well_formed(groups),
    ensures
        sorted_by_first(groups),
{
    assert forall|i: int, j: int| 0 <= i < j < groups.len() implies !lex_lt(
        (#[trigger] groups[j])[0],
        (#[trigger] groups[i])[0],
    ) by {
        assert(!group_lt(groups[j], groups[i]));
        if lex_lt(groups[j][0], groups[i][0]) {
            lemma_lex_lt_irreflexive(groups[j][0]);
        }
    }
}

/// Putting groups in order keeps exactly the groups there were.
pub proof fn lemma_ordered(groups: Seq<Seq<Seq<char>>>)
    ensures
        sorted_groups(ordered(groups)),
        ordered(groups).len() == groups.len(),
        forall|x: Seq<Seq<char>>| #[trigger]
            ordered(groups).contains(x) <==> groups.contains(x),
    decreases groups.len(),
{
    if groups.len() > 0 {
        let head = groups.drop_last();
        lemma_ordered(head);
        lemma_insert_group(ordered(head), groups.last());
        assert forall|x: Seq<Seq<char>>| #[trigger]
            ordered(groups).contains(x) <==> groups.contains(x) by {
            if groups.contains(x) {
                let k = choose|k: int| 0 <= k < groups.len() && groups[k] == x;
                if k < head.len() {
                    assert(head[k] == x);
                }
            }
            if head.contains(x) {
                let k = choose|k: int| 0 <= k < head.len() && head[k] == x;
                assert(groups[k] == x);
            }
            assert(groups[groups.len() - 1] == groups.last());
        }
    }
}

/// Every surviving group is the sorted form of a candidate, and has at least
/// two words.
pub proof fn lemma_survivors(candidates: Seq<Seq<Seq<char>>>)
    ensures
        forall|x: Seq<Seq<char>>| #[trigger]
            survivors(candidates).contains(x) <==> x.len() >= 2 && exists|k: int|
                0 <= k < candidates.len() && x == sorted_members(#[trigger] candidates[k]),
{
    let mapped = candidates.map_values(|g: Seq<Seq<char>>| sorted_members(g));
    let pred = |g: Seq<Seq<char>>| g.len() >= 2;
    assert forall|x: Seq<Seq<char>>| #[trigger]
        survivors(candidates).contains(x) <==> x.len() >= 2 && exists|k: int|
            0 <= k < candidates.len() && x == sorted_members(#[trigger] candidates[k]) by {
        if survivors(candidates).contains(x) {
            let i = choose|i: int| 0 <= i < mapped.filter(pred).len() && mapped.filter(pred)[i] == x;
            mapped.lemma_filter_pred(pred, i);
            mapped.lemma_filter_contains_rev(pred, x);
            let k = choose|k: int| 0 <= k < mapped.len() && mapped[k] == x;
            assert(x == sorted_members(candidates[k]));
        }
        if x.len() >= 2 && exists|k: int|
            0 <= k < candidates.len() && x == sorted_members(#[trigger] candidates[k]) {
            let k = choose|k: int|
                0 <= k < candidates.len() && x == sorted_members(#[trigger] candidates[k]);
            assert(mapped[k] == x);
            mapped.lemma_filter_contains(pred, k);
        }
    }
}

/// The groups that candidates stand for are well formed, and each is the
/// sorted form of a candidate with at least two distinct words.
pub proof fn lemma_canonical_groups(candidates: Seq<Seq<Seq<char>>>)
    ensures
        well_formed(canonical_groups(candidates)),
        forall|x: Seq<Seq<char>>| #[trigger]
            canonical_groups(candidates).contains(x) <==> x.len() >= 2 && exists|k: int|
                0 <= k < candidates.len() && x == sorted_members(#[trigger] candidates[k]),
{
    let kept = survivors(candidates);
    let r = canonical_groups(candidates);
    lemma_survivors(candidates);
    lemma_ordered(kept);
    assert forall|i: int| 0 <= i < r.len() implies (#[trigger] r[i]).len() >= 2 && strictly_sorted(
        r[i],
    ) by {
        assert(r.contains(r[i]));
        assert(kept.contains(r[i]));
        let k = choose|k: int|
            0 <= k < candidates.len() && r[i] == sorted_members(#[trigger] candidates[k]);
        lemma_sorted_members(candidates[k]);
    }
}


/// The distinct transcriptions of `words`, each where it first occurs.
pub open spec fn transcriptions(words: Seq<WordView>) -> Seq<Seq<char>>
    decreases words.len(),
{
    if words.len() == 0 {
        Seq::empty()
    } else if transcriptions(words.drop_last()).contains(words.last().phonemes) {
        transcriptions(words.drop_last())
    } else {
        transcriptions(words.drop_last()).push(words.last().phonemes)
    }
}

/// The words of `words` whose transcription is `p`, in their order.
pub open spec fn bucket(words: Seq<WordView>, p: Seq<char>) -> Seq<Seq<char>> {
    words.filter(|w: WordView| w.phonemes == p).map_values(|w: WordView| w.word)
}

/// One candidate group for each transcription of `words`: the words that
/// have it.
pub open spec fn candidates(words: Seq<WordView>) -> Seq<Seq<Seq<char>>> {
    transcriptions(words).map_values(|p: Seq<char>| bucket(words, p))
}

/// One candidate group for each transcription that occurs in both `a` and
/// `b`: the words of `a` that have it, then those of `b`.
pub open spec fn cross_candidates(a: Seq<WordView>, b: Seq<WordView>) -> Seq<Seq<Seq<char>>> {
    transcriptions(a + b).filter(
        |p: Seq<char>| bucket(a, p).len() > 0 && bucket(b, p).len() > 0,
    ).map_values(|p: Seq<char>| bucket(a, p) + bucket(b, p))
}

/// The words of `g` with one blank between neighbours.
pub open spec fn joined(g: Seq<Seq<char>>) -> Seq<char>
    decreases g.len(),
{
    if g.len() == 0 {
        Seq::empty()
    } else if g.len() == 1 {
        g[0]
    } else {
        joined(g.drop_last()) + seq![' '] + g.last()
    }
}

/// One line for each group: its words with one blank between neighbours,
/// then a line feed.
pub open spec fn serialized(groups: Seq<Seq<Seq<char>>>) -> Seq<char>
    decreases groups.len(),
{
    if groups.len() == 0 {
        Seq::empty()
    } else {
        serialized(groups.drop_last()) + joined(groups.last()).push('\n')
    }
}

/// The groups of one dictionary are the groups of at least two words that
/// some transcription has.
pub proof fn lemma_from_dict_groups(words: Seq<WordView>)
    ensures
        well_formed(canonical_groups(candidates(words))),
        forall|g: Seq<Seq<char>>| #[trigger]
            canonical_groups(candidates(words)).contains(g) <==> g.len() >= 2 && exists|
                p: Seq<char>,
            |
                bucket(words, p).len() > 0 && g == sorted_members(#[trigger] bucket(words, p)),
{
    let c = candidates(words);
    let t = transcriptions(words);
    lemma_canonical_groups(c);
    lemma_transcriptions(words);
    assert forall|g: Seq<Seq<char>>| #[trigger]
        canonical_groups(c).contains(g) <==> g.len() >= 2 && exists|p: Seq<char>|
            bucket(words, p).len() > 0 && g == sorted_members(#[trigger] bucket(words, p)) by {
        if canonical_groups(c).contains(g) {
            let k = choose|k: int| 0 <= k < c.len() && g == sorted_members(#[trigger] c[k]);
            assert(c[k] == bucket(words, t[k]));
            assert(t.contains(t[k]));
        }
        if g.len() >= 2 && exists|p: Seq<char>|
            bucket(words, p).len() > 0 && g == sorted_members(#[trigger] bucket(words, p)) {
            let p = choose|p: Seq<char>|
                bucket(words, p).len() > 0 && g == sorted_members(#[trigger] bucket(words, p));
            assert(t.contains(p));
            let k = choose|k: int| 0 <= k < t.len() && t[k] == p;
            assert(c[k] == bucket(words, p));
        }
    }
}

/// The groups of two dictionaries are the groups of at least two words that
/// some transcription has in both: a transcription that only one of the
/// dictionaries has gives no group, however many words have it there.
pub proof fn lemma_from_dicts_groups(a: Seq<WordView>, b: Seq<WordView>)
    ensures
        well_formed(canonical_groups(cross_candidates(a, b))),
        forall|g: Seq<Seq<char>>| #[trigger]
            canonical_groups(cross_candidates(a, b)).contains(g) <==> g.len() >= 2 && exists|
                p: Seq<char>,
            |
                bucket(a, p).len() > 0 && bucket(b, p).len() > 0 && g == sorted_members(
                    #[trigger] bucket(a, p) + bucket(b, p),
                ),
{
    let c = cross_candidates(a, b);
    let t = transcriptions(a + b);
    let keep = |p: Seq<char>| bucket(a, p).len() > 0 && bucket(b, p).len() > 0;
    let kept = t.filter(keep);
    lemma_canonical_groups(c);
    lemma_transcriptions(a + b);
    assert forall|g: Seq<Seq<char>>| #[trigger]
        canonical_groups(c).contains(g) <==> g.len() >= 2 && exists|p: Seq<char>|
            bucket(a, p).len() > 0 && bucket(b, p).len() > 0 && g == sorted_members(
                #[trigger] bucket(a, p) + bucket(b, p),
            ) by {
        if canonical_groups(c).contains(g) {
            let k = choose|k: int| 0 <= k < c.len() && g == sorted_members(#[trigger] c[k]);
            t.lemma_filter_pred(keep, k);
            assert(c[k] == bucket(a, kept[k]) + bucket(b, kept[k]));
        }
        if g.len() >= 2 && exists|p: Seq<char>|
            bucket(a, p).len() > 0 && bucket(b, p).len() > 0 && g == sorted_members(
                #[trigger] bucket(a, p) + bucket(b, p),
            ) {
            let p = choose|p: Seq<char>|
                bucket(a, p).len() > 0 && bucket(b, p).len() > 0 && g == sorted_members(
                    #[trigger] bucket(a, p) + bucket(b, p),
                );
            lemma_bucket_add(a, b, p);
            assert(t.contains(p));
            let i = choose|i: int| 0 <= i < t.len() && t[i] == p;
            t.lemma_filter_contains(keep, i);
            let k = choose|k: int| 0 <= k < kept.len() && kept[k] == p;
            assert(c[k] == bucket(a, p) + bucket(b, p));
        }
    }
}

/// The words with one transcription, after one more word.
pub proof fn lemma_bucket_push(words: Seq<WordView>, w: WordView, p: Seq<char>)
    ensures
        bucket(words.push(w), p) == (if w.phonemes == p {
            bucket(words, p).push(w.word)
        } else {
            bucket(words, p)
        }),
{
    let pred = |w: WordView| w.phonemes == p;
    let f = |w: WordView| w.word;
    words.lemma_filter_push(w, pred);
    if w.phonemes == p {
        assert(words.filter(pred).push(w).map_values(f) =~= words.filter(pred).map_values(f).push(
            w.word,
        ));
    }
}

/// The words with one transcription in two sequences of words, one behind
/// the other.
pub proof fn lemma_bucket_add(a: Seq<WordView>, b: Seq<WordView>, p: Seq<char>)
    ensures
        bucket(a + b, p) == bucket(a, p) + bucket(b, p),
{
    let pred = |w: WordView| w.phonemes == p;
    let f = |w: WordView| w.word;
    Seq::filter_distributes_over_add(a, b, pred);
    assert((a.filter(pred) + b.filter(pred)).map_values(f) =~= a.filter(pred).map_values(f)
        + b.filter(pred).map_values(f));
}

/// No transcription is listed twice, and those listed are the ones that some
/// word has.
pub proof fn lemma_transcriptions(words: Seq<WordView>)
    ensures
        transcriptions(words).no_duplicates(),
        forall|p: Seq<char>| #[trigger]
            transcriptions(words).contains(p) <==> bucket(words, p).len() > 0,
    decreases words.len(),
{
    if words.len() == 0 {
        assert forall|p: Seq<char>| !(#[trigger] transcriptions(words).contains(p)) && bucket(
            words,
            p,
        ).len() == 0 by {
            words.lemma_filter_len(|w: WordView| w.phonemes == p);
        }
    } else {
        let head = words.drop_last();
        let t = transcriptions(head);
        lemma_transcriptions(head);
        assert(head.push(words.last()) =~= words);
        assert forall|p: Seq<char>| #[trigger]
            transcriptions(words).contains(p) <==> bucket(words, p).len() > 0 by {
            lemma_bucket_push(head, words.last(), p);
            if t.contains(p) {
                let k = choose|k: int| 0 <= k < t.len() && t[k] == p;
                assert(transcriptions(words)[k] == p);
            }
            if p == words.last().phonemes && !t.contains(p) {
                assert(transcriptions(words)[t.len() as int] == p);
            }
            if transcriptions(words).contains(p) && p != words.last().phonemes {
                let k = choose|k: int|
                    0 <= k < transcriptions(words).len() && transcriptions(words)[k] == p;
                assert(t[k] == p);
            }
        }
    }
}

/// The transcriptions of `a` stand first among those of `a` followed by `b`.
pub proof fn lemma_transcriptions_prefix(a: Seq<WordView>, b: Seq<WordView>)
    ensures
        transcriptions(a).len() <= transcriptions(a + b).len(),
        transcriptions(a + b).take(transcriptions(a).len() as int) == transcriptions(a),
    decreases b.len(),
{
    if b.len() == 0 {
        assert(a + b =~= a);
        assert(transcriptions(a).take(transcriptions(a).len() as int) =~= transcriptions(a));
    } else {
        lemma_transcriptions_prefix(a, b.drop_last());
        assert((a + b).drop_last() =~= a + b.drop_last());
        let t = transcriptions(a + b.drop_last());
        assert(transcriptions(a + b).take(transcriptions(a).len() as int) =~= t.take(
            transcriptions(a).len() as int,
        ));
    }
}

/// Survivors of candidates with one more candidate behind them.
pub proof fn lemma_survivors_push(candidates: Seq<Seq<Seq<char>>>, g: Seq<Seq<char>>)
    ensures
        survivors(candidates.push(g)) == (if sorted_members(g).len() >= 2 {
            survivors(candidates).push(sorted_members(g))
        } else {
            survivors(candidates)
        }),
{
    let f = |g: Seq<Seq<char>>| sorted_members(g);
    let pred = |g: Seq<Seq<char>>| g.len() >= 2;
    assert(candidates.push(g).map_values(f) =~= candidates.map_values(f).push(sorted_members(g)));
    candidates.map_values(f).lemma_filter_push(sorted_members(g), pred);
}

/// Puts `word` at its place in the sorted group, unless it is there.
fn insert_word(group: &mut Vec<String>, word: String)
    ensures
        texts(final(group)@) == insert_member(texts(old(group)@), word@),
{
    let ghost g = texts(group@);
    let ghost w = word@;
    let mut i = group.len();
    let mut placed = false;
    proof {
        assert(g.take(i as int) =~= g);
        assert(insert_member(g, w) + g.skip(i as int) =~= insert_member(g, w));
    }
    while i > 0 && !placed
        invariant
            i <= group.len(),
            group@ == old(group)@,
            g == texts(group@),
            w == word@,
            insert_member(g, w) == insert_member(g.take(i as int), w) + g.skip(i as int),
            placed ==> i > 0 && g[i - 1] != w && lex_lt(g[i - 1], w),
        decreases i + (if placed { 0int } else { 1int }),
    {
        let ghost part = g.take(i as int);
        assert(part.last() == g[i - 1]);
        assert(g[i - 1] == group@[i - 1]@);
        if group[i - 1] == word {
            proof {
                assert(insert_member(part, w) == part);
                assert(part + g.skip(i as int) =~= g);
            }
            return ;
        }
        if str_lt(group[i - 1].as_str(), word.as_str()) {
            placed = true;
        } else {
            proof {
                assert(part.drop_last() =~= g.take(i - 1));
                assert(insert_member(part, w) == insert_member(g.take(i - 1), w).push(g[i - 1]));
                assert(insert_member(g.take(i - 1), w).push(g[i - 1]) + g.skip(i as int)
                    =~= insert_member(g.take(i - 1), w) + g.skip(i - 1));
            }
            i -= 1;
        }
    }
    proof {
        let part = g.take(i as int);
        if i > 0 {
            assert(part.last() == g[i - 1]);
        }
        assert(insert_member(part, w) == part.push(w));
    }
    group.insert(i, word);
    proof {
        assert(texts(group@) =~= g.take(i as int).push(w) + g.skip(i as int));
    }
}

/// The distinct words of `words` in ascending order.
fn sort_words(words: &Vec<String>) -> (r: Vec<String>)
    ensures
        texts(r@) == sorted_members(texts(words@)),
{
    let mut res: Vec<String> = Vec::new();
    let n = words.len();
    let mut i: usize = 0;
    let ghost all = texts(words@);
    while i < n
        invariant
            n == words.len(),
            i <= n,
            all == texts(words@),
            texts(res@) == sorted_members(all.take(i as int)),
        decreases n - i,
    {
        proof {
            assert(all.take(i + 1).drop_last() =~= all.take(i as int));
            assert(all.take(i + 1).last() == words@[i as int]@);
        }
        insert_word(&mut res, words[i].clone());
        i += 1;
    }
    proof {
        assert(all.take(n as int) =~= all);
    }
    res
}

/// Puts `group` behind the last group that it does not come before.
fn insert_sorted_group(groups: &mut Vec<Vec<String>>, group: Vec<String>)
    ensures
        group_texts(final(groups)@) == insert_group(group_texts(old(groups)@), texts(group@)),
{
    let ghost all = group_texts(groups@);
    let ghost g = texts(group@);
    let mut i = groups.len();
    let mut placed = false;
    proof {
        assert(all.take(i as int) =~= all);
        assert(insert_group(all, g) + all.skip(i as int) =~= insert_group(all, g));
    }
    while i > 0 && !placed
        invariant
            i <= groups.len(),
            groups@ == old(groups)@,
            all == group_texts(groups@),
            g == texts(group@),
            insert_group(all, g) == insert_group(all.take(i as int), g) + all.skip(i as int),
            placed ==> i > 0 && !group_lt(g, all[i - 1]),
        decreases i + (if placed { 0int } else { 1int }),
    {
        let ghost part = all.take(i as int);
        assert(part.last() == all[i - 1]);
        assert(all[i - 1] == texts(groups@[i - 1]@));
        if group_less(&group, &groups[i - 1]) {
            proof {
                assert(part.drop_last() =~= all.take(i - 1));
                assert(insert_group(part, g) == insert_group(all.take(i - 1), g).push(all[i - 1]));
                assert(insert_group(all.take(i - 1), g).push(all[i - 1]) + all.skip(i as int)
                    =~= insert_group(all.take(i - 1), g) + all.skip(i - 1));
            }
            i -= 1;
        } else {
            placed = true;
        }
    }
    proof {
        let part = all.take(i as int);
        if i > 0 {
            assert(part.last() == all[i - 1]);
        }
        assert(insert_group(part, g) == part.push(g));
    }
    groups.insert(i, group);
    proof {
        assert(group_texts(groups@) =~= all.take(i as int).push(g) + all.skip(i as int));
    }
}

/// Groups of words, each group in ascending order and without repetition,
/// the groups in the order of their smallest words, groups with the same
/// smallest word in the order of the words that follow.
#[derive(Debug)]
pub struct WordGroups {
    groups: Vec<Vec<String>>,
}

impl View for WordGroups {
    type V = Seq<Seq<Seq<char>>>;

    closed spec fn view(&self) -> Seq<Seq<Seq<char>>> {
        group_texts(self.groups@)
    }
}

impl Clone for WordGroups {
    fn clone(&self) -> (r: Self)
        ensures
            r@ == self@,
    {
        let mut groups: Vec<Vec<String>> = Vec::new();
        let n = self.groups.len();
        let mut i: usize = 0;
        while i < n
            invariant
                n == self.groups.len(),
                i == groups.len(),
                i <= n,
                forall|k: int| 0 <= k < i ==> (#[trigger] groups@[k])@ == self.groups@[k]@,
            decreases n - i,
        {
            let group = &self.groups[i];
            let mut copy: Vec<String> = Vec::new();
            let mut j: usize = 0;
            while j < group.len()
                invariant
                    j <= group.len(),
                    copy@ == group@.take(j as int),
                decreases group.len() - j,
            {
                copy.push(group[j].clone());
                assert(copy@ =~= group@.take(j + 1));
                j += 1;
            }
            assert(group@.take(group.len() as int) =~= group@);
            groups.push(copy);
            i += 1;
        }
        assert(group_texts(groups@) =~= group_texts(self.groups@));
        WordGroups { groups }
    }
}

impl Default for WordGroups {
    fn default() -> (r: Self)
        ensures
            r@.len() == 0,
            r.wf(),
    {
        Self::new()
    }
}

impl WordGroups {
    /// The groups themselves, as strings.
    pub closed spec fn groups(&self) -> Seq<Vec<String>> {
        self.groups@
    }

    /// The groups are well formed.
    pub open spec fn wf(&self) -> bool {
        well_formed(self@)
    }

    /// The view of the groups is made of the character sequences of their words.
    pub proof fn lemma_view(&self)
        ensures
            self@ == group_texts(self.groups()),
    {
    }

    /// No groups.
    pub fn new() -> (r: Self)
        ensures
            r@.len() == 0,
            r.wf(),
    {
        WordGroups { groups: Vec::new() }
    }

    /// The number of groups.
    pub fn len(&self) -> (r: usize)
        ensures
            r == self@.len(),
    {
        self.groups.len()
    }

    /// Tells whether there is no group.
    pub fn is_empty(&self) -> (r: bool)
        ensures
            r == (self@.len() == 0),
    {
        self.groups.len() == 0
    }

    /// Walks the groups in their order.
    pub fn iter(&self) -> (r: std::slice::Iter<'_, Vec<String>>)
        ensures
            r.remaining() == self.groups().as_ref(),
    {
        self.groups.iter()
    }

    /// Gives the groups up, in their order.
    pub fn into_groups(self) -> (r: Vec<Vec<String>>)
        ensures
            r@ == self.groups(),
    {
        self.groups
    }

    /// Gives the groups up, in their order.
    pub fn into_iter(self) -> (r: std::vec::IntoIter<Vec<String>>)
        ensures
            r.remaining() == self.groups(),
    {
        self.groups.into_iter()
    }

    /// The groups that the candidate groups stand for: the words of each
    /// candidate are sorted and written once, candidates with fewer than two
    /// distinct words are left out, and the rest is put in order: by first
    /// word, groups with the same first word by the words that follow.
    pub fn from_iter(candidates: Vec<Vec<String>>) -> (r: Self)
        ensures
            r@ == canonical_groups(group_texts(candidates@)),
            r.wf(),
    {
        let mut res: Vec<Vec<String>> = Vec::new();
        let n = candidates.len();
        let mut i: usize = 0;
        let ghost all = group_texts(candidates@);
        while i < n
            invariant
                n == candidates.len(),
                i <= n,
                all == group_texts(candidates@),
                group_texts(res@) == canonical_groups(all.take(i as int)),
            decreases n - i,
        {
            let group = sort_words(&candidates[i]);
            proof {
                assert(all.take(i + 1) =~= all.take(i as int).push(all[i as int]));
                assert(all[i as int] == texts(candidates@[i as int]@));
                lemma_survivors_push(all.take(i as int), all[i as int]);
                assert(survivors(all.take(i as int)).push(texts(group@)).drop_last()
                    =~= survivors(all.take(i as int)));
            }
            if group.len() > 1 {
                insert_sorted_group(&mut res, group);
            }
            i += 1;
        }
        proof {
            assert(all.take(n as int) =~= all);
            lemma_canonical_groups(all);
        }
        WordGroups { groups: res }
    }
}


/// `buckets` holds, for each transcription of `words`, the words that have it.
spec fn holds_words(buckets: Buckets<String>, words: Seq<WordView>) -> bool {
    &&& buckets.wf()
    &&& buckets.keys() == transcriptions(words)
    &&& buckets.values().len() == buckets.keys().len()
    &&& forall|k: int|
        0 <= k < buckets.keys().len() ==> texts(#[trigger] buckets.values()[k]) == bucket(
            words,
            buckets.keys()[k],
        )
}

/// Files every word of `dict` under its transcription.
fn add_words(buckets: &mut Buckets<String>, dict: &Dictionary, before: Ghost<Seq<WordView>>)
    requires
        holds_words(*old(buckets), before@),
    ensures
        holds_words(*final(buckets), before@ + dict@),
{
    let n = dict.len();
    let mut i: usize = 0;
    proof {
        assert(before@ + dict@.take(0) =~= before@);
    }
    while i < n
        invariant
            n == dict@.len(),
            i <= n,
            holds_words(*buckets, before@ + dict@.take(i as int)),
        decreases n - i,
    {
        let ghost seen = before@ + dict@.take(i as int);
        let ghost prev = *buckets;
        let word = match dict.get(i) {
            Some(w) => w,
            None => { return ; },
        };
        proof {
            dict.lemma_view();
            assert(word@ == dict@[i as int]);
            assert(before@ + dict@.take(i + 1) =~= seen.push(word@));
            assert(seen.push(word@).drop_last() =~= seen);
            lemma_transcriptions(seen);
        }
        buckets.mm_insert(word.phonemes.clone(), word.word.clone());
        proof {
            let now = seen.push(word@);
            let p = word@.phonemes;
            assert(buckets.keys() == transcriptions(now));
            assert forall|k: int| 0 <= k < buckets.keys().len() implies texts(
                #[trigger] buckets.values()[k],
            ) == bucket(now, buckets.keys()[k]) by {
                lemma_bucket_push(seen, word@, buckets.keys()[k]);
                if prev.keys().contains(p) {
                    let at = prev.keys().index_of(p);
                    if k == at {
                        assert(texts(prev.values()[k].push(word.word)) =~= texts(
                            prev.values()[k],
                        ).push(word@.word));
                    } else {
                        assert(prev.keys()[k] != prev.keys()[at]);
                    }
                } else {
                    if k < prev.keys().len() {
                        assert(prev.keys().contains(prev.keys()[k]));
                    } else {
                        assert(texts(seq![word.word]) =~= seq![word@.word]);
                        assert(bucket(seen, p).len() == 0);
                        assert(bucket(seen, p) =~= Seq::<Seq<char>>::empty());
                    }
                }
            }
        }
        i += 1;
    }
    proof {
        assert(dict@.take(n as int) =~= dict@);
    }
}

/// A copy of `words`.
fn copy_words(words: &Vec<String>) -> (r: Vec<String>)
    ensures
        r@ == words@,
{
    let mut copy: Vec<String> = Vec::new();
    let mut j: usize = 0;
    while j < words.len()
        invariant
            j <= words.len(),
            copy@ == words@.take(j as int),
        decreases words.len() - j,
    {
        copy.push(words[j].clone());
        assert(copy@ =~= words@.take(j + 1));
        j += 1;
    }
    assert(words@.take(words.len() as int) =~= words@);
    copy
}

impl WordGroups {
    /// The groups of words of `dict` that have the same transcription.
    pub fn from_dict(dict: Dictionary) -> (r: Self)
        ensures
            r@ == canonical_groups(candidates(dict@)),
            r.wf(),
    {
        let mut buckets: Buckets<String> = Buckets::new();
        let ghost none = Seq::<WordView>::empty();
        proof {
            assert(transcriptions(none) =~= buckets.keys());
        }
        add_words(&mut buckets, &dict, Ghost(none));
        proof {
            assert(none + dict@ =~= dict@);
        }
        let ghost held = buckets;
        let groups = buckets.into_values();
        proof {
            assert(group_texts(groups@) =~= candidates(dict@)) by {
                assert forall|k: int| 0 <= k < groups@.len() implies group_texts(groups@)[k]
                    == candidates(dict@)[k] by {
                    assert(held.values()[k] == groups@[k]@);
                }
            }
        }
        Self::from_iter(groups)
    }

    /// The groups of words of the two dictionaries that have the same
    /// transcription, without the groups whose words all come from one of
    /// the dictionaries.
    pub fn from_dicts(dict: Dictionary, dict2: Dictionary) -> (r: Self)
        ensures
            r@ == canonical_groups(cross_candidates(dict@, dict2@)),
            r.wf(),
    {
        let mut buckets: Buckets<String> = Buckets::new();
        let ghost none = Seq::<WordView>::empty();
        let ghost a = dict@;
        let ghost b = dict2@;
        proof {
            assert(transcriptions(none) =~= buckets.keys());
        }
        add_words(&mut buckets, &dict, Ghost(none));
        proof {
            assert(none + a =~= a);
        }
        let ghost first = buckets;
        let firsts = buckets.sizes();
        add_words(&mut buckets, &dict2, Ghost(a));
        let ghost held = buckets;
        let groups = buckets.into_values();
        let ghost keys = transcriptions(a + b);
        let ghost keep = |p: Seq<char>| bucket(a, p).len() > 0 && bucket(b, p).len() > 0;
        let ghost both = |p: Seq<char>| bucket(a, p) + bucket(b, p);
        let mut crossing: Vec<Vec<String>> = Vec::new();
        let n = groups.len();
        let mut k: usize = 0;
        proof {
            lemma_transcriptions_prefix(a, b);
            lemma_transcriptions(a);
            lemma_transcriptions(a + b);
            assert(keys.take(0).filter(keep) =~= Seq::<Seq<char>>::empty()) by {
                keys.take(0).lemma_filter_len(keep);
            }
            assert(group_texts(crossing@) =~= keys.take(0).filter(keep).map_values(both));
            assert forall|j: int| 0 <= j < n implies texts(#[trigger] groups@[j]@) == bucket(
                a + b,
                keys[j],
            ) by {
                assert(held.values()[j] == groups@[j]@);
            }
        }
        while k < n
            invariant
                n == groups.len(),
                n == keys.len(),
                k <= n,
                keys == transcriptions(a + b),
                keys.no_duplicates(),
                firsts@.len() == transcriptions(a).len(),
                firsts@.len() <= n,
                keys.take(firsts@.len() as int) == transcriptions(a),
                forall|p: Seq<char>| #[trigger]
                    transcriptions(a).contains(p) <==> bucket(a, p).len() > 0,
                forall|j: int|
                    0 <= j < firsts@.len() ==> #[trigger] firsts@[j] == bucket(a, keys[j]).len(),
                forall|j: int| 0 <= j < n ==> texts(#[trigger] groups@[j]@) == bucket(a + b, keys[j]),
                keep == |p: Seq<char>| bucket(a, p).len() > 0 && bucket(b, p).len() > 0,
                both == |p: Seq<char>| bucket(a, p) + bucket(b, p),
                group_texts(crossing@) == keys.take(k as int).filter(keep).map_values(both),
            decreases n - k,
        {
            let ghost p = keys[k as int];
            proof {
                lemma_bucket_add(a, b, p);
                assert(keys.take(k + 1) =~= keys.take(k as int).push(p));
                keys.take(k as int).lemma_filter_push(p, keep);
                if k < firsts@.len() {
                    assert(transcriptions(a)[k as int] == p);
                    assert(transcriptions(a).contains(p));
                } else if transcriptions(a).contains(p) {
                    let j = choose|j: int|
                        0 <= j < transcriptions(a).len() && transcriptions(a)[j] == p;
                    assert(keys[j] == p);
                }
            }
            if k < firsts.len() && groups[k].len() > firsts[k] {
                let copy = copy_words(&groups[k]);
                let ghost chosen = group_texts(crossing@);
                crossing.push(copy);
                proof {
                    assert(keep(p));
                    assert(texts(copy@) == both(p));
                    assert(group_texts(crossing@) =~= chosen.push(both(p)));
                    assert(chosen.push(both(p)) =~= keys.take(k as int).filter(keep).push(
                        p,
                    ).map_values(both));
                }
            } else {
                proof {
                    assert(!keep(p));
                }
            }
            k += 1;
        }
        proof {
            assert(keys.take(n as int) =~= keys);
        }
        Self::from_iter(crossing)
    }

    /// The groups as text: one line for each group, its words with one blank
    /// between neighbours.
    pub fn to_string(&self) -> (r: String)
        ensures
            r@ == serialized(self@),
    {
        to_text(&self.groups)
    }
}

/// Lines of words as text: one line for each, its words with one blank
/// between neighbours.
pub fn to_text(lines: &Vec<Vec<String>>) -> (r: String)
    ensures
        r@ == serialized(group_texts(lines@)),
{
    let mut out = String::new();
    let n = lines.len();
    let mut i: usize = 0;
    let ghost all = group_texts(lines@);
    while i < n
        invariant
            n == lines.len(),
            i <= n,
            all == group_texts(lines@),
            out@ == serialized(all.take(i as int)),
        decreases n - i,
    {
        let group = &lines[i];
        let ghost g = texts(group@);
        let ghost start = out@;
        let m = group.len();
        let mut j: usize = 0;
        while j < m
            invariant
                m == group.len(),
                j <= m,
                g == texts(group@),
                out@ == start + joined(g.take(j as int)),
            decreases m - j,
        {
            proof {
                assert(g.take(j + 1).drop_last() =~= g.take(j as int));
                assert(g.take(j + 1).last() == group@[j as int]@);
            }
            if j > 0 {
                push_char(&mut out, ' ');
            }
            out.append(group[j].as_str());
            proof {
                if j == 0 {
                    assert(g.take(1)[0] == group@[0]@);
                    assert(joined(g.take(0)) =~= Seq::<char>::empty());
                    assert(out@ =~= start + joined(g.take(j + 1)));
                } else {
                    assert(out@ =~= start + joined(g.take(j + 1)));
                }
            }
            j += 1;
        }
        push_char(&mut out, '\n');
        proof {
            assert(g.take(m as int) =~= g);
            assert(all.take(i + 1).drop_last() =~= all.take(i as int));
            assert(all.take(i + 1).last() == g);
            assert(out@ =~= serialized(all.take(i as int)) + joined(g).push('\n'));
        }
        i += 1;
    }
    proof {
        assert(all.take(n as int) =~= all);
    }
    out
}

} // verus!
