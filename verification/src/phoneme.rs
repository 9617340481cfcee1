//! The normal form of phonemic transcriptions.
//!
//! Marks that do not change which phoneme is meant are dropped, allophones are
//! mapped to one representative, and repeated symbols are written once.
use crate::iter::collapse_runs;
use crate::text::{char_is_whitespace, is_whitespace, push_char};
use vstd::prelude::*;

verus! {

/// Modifier letters and combining marks (U+02B0 up to, not including, U+0370):
/// stress, length and similar marks.
pub open spec fn is_modifier(c: char) -> bool {
    688 <= (c as u32) && (c as u32) < 880
}

/// The characters that the normal form leaves out.
pub open spec fn is_dropped(c: char) -> bool {
    is_modifier(c) || is_whitespace(c)
}

/// The representative of the class of allophones that `c` belongs to; `c`
/// itself where it belongs to none.
pub open spec fn canonical(c: char) -> char {
    match c {
        'a' | '\u{e4}' | '\u{250}' | '\u{251}' | '\u{28c}' => 'a',
        'e' | '\u{e6}' | '\u{25b}' | '\u{153}' | '\u{25c}' => 'e',
        'i' | '\u{268}' | '\u{26a}' => 'i',
        'o' | '\u{254}' | '\u{252}' | '\u{275}' | '\u{28a}' => 'o',
        'u' | '\u{289}' => 'u',
        'y' | '\u{28f}' | '\u{f8}' => 'y',
        '\u{258}' | '\u{264}' | '\u{25e}' | '\u{259}' | '\u{26f}' => '\u{258}',
        'b' | '\u{299}' => 'b',
        'd' | '\u{256}' | '\u{25f}' => 'd',
        'f' | '\u{278}' => 'f',
        'g' | '\u{262}' => 'g',
        'j' | '\u{28e}' | '\u{29d}' => 'j',
        'k' | 'q' => 'k',
        'l' | '\u{26d}' | '\u{26b}' | '\u{29f}' => 'l',
        'm' | '\u{271}' => 'm',
        'n' | '\u{273}' | '\u{272}' | '\u{14b}' | '\u{274}' => 'n',
        'r' | '\u{27e}' | '\u{279}' | '\u{27d}' | '\u{27b}' | '\u{280}' | '\u{281}' => 'r',
        't' | '\u{288}' | 'c' => 't',
        'v' | '\u{3b2}' | '\u{28b}' => 'v',
        'x' | '\u{263}' | '\u{3c7}' | '\u{127}' | 'h' | '\u{266}' => 'x',
        '\u{3b8}' | '\u{f0}' => '\u{3b8}',
        '\u{283}' | '\u{282}' | '\u{e7}' => '\u{283}',
        '\u{292}' | '\u{290}' => '\u{292}',
        '\u{270}' | '\u{295}' => '\u{270}',
        _ => c,
    }
}

/// `s` without the characters that are left out.
pub open spec fn strip(s: Seq<char>) -> Seq<char>
    decreases s.len(),
{
    if s.len() == 0 {
        s
    } else if is_dropped(s.last()) {
        strip(s.drop_last())
    } else {
        strip(s.drop_last()).push(s.last())
    }
}

/// Every character of `s` replaced by its representative.
pub open spec fn canonicalize(s: Seq<char>) -> Seq<char> {
    s.map_values(|c: char| canonical(c))
}

/// The normal form of a transcription.
pub open spec fn normalized(s: Seq<char>) -> Seq<char> {
    collapse_runs(canonicalize(strip(s)))
}

/// A transcription that normalization leaves as it is: no dropped character,
/// only representatives, no character twice in a row.
pub open spec fn is_normal(s: Seq<char>) -> bool {
    &&& forall|i: int| 0 <= i < s.len() ==> !is_dropped(#[trigger] s[i]) && canonical(s[i]) == s[i]
    &&& forall|i: int| 0 < i < s.len() ==> s[i - 1] != #[trigger] s[i]
}

fn is_dropped_char(c: char) -> (r: bool)
    ensures
        r == is_dropped(c),
{
    let n: u32 = c as u32;
    (688 <= n && n < 880) || char_is_whitespace(c)
}

fn canonical_char(c: char) -> (r: char)
    ensures
        r == canonical(c),
{
    match c {
        'a' | '\u{e4}' | '\u{250}' | '\u{251}' | '\u{28c}' => 'a',
        'e' | '\u{e6}' | '\u{25b}' | '\u{153}' | '\u{25c}' => 'e',
        'i' | '\u{268}' | '\u{26a}' => 'i',
        'o' | '\u{254}' | '\u{252}' | '\u{275}' | '\u{28a}' => 'o',
        'u' | '\u{289}' => 'u',
        'y' | '\u{28f}' | '\u{f8}' => 'y',
        '\u{258}' | '\u{264}' | '\u{25e}' | '\u{259}' | '\u{26f}' => '\u{258}',
        'b' | '\u{299}' => 'b',
        'd' | '\u{256}' | '\u{25f}' => 'd',
        'f' | '\u{278}' => 'f',
        'g' | '\u{262}' => 'g',
        'j' | '\u{28e}' | '\u{29d}' => 'j',
        'k' | 'q' => 'k',
        'l' | '\u{26d}' | '\u{26b}' | '\u{29f}' => 'l',
        'm' | '\u{271}' => 'm',
        'n' | '\u{273}' | '\u{272}' | '\u{14b}' | '\u{274}' => 'n',
        'r' | '\u{27e}' | '\u{279}' | '\u{27d}' | '\u{27b}' | '\u{280}' | '\u{281}' => 'r',
        't' | '\u{288}' | 'c' => 't',
        'v' | '\u{3b2}' | '\u{28b}' => 'v',
        'x' | '\u{263}' | '\u{3c7}' | '\u{127}' | 'h' | '\u{266}' => 'x',
        '\u{3b8}' | '\u{f0}' => '\u{3b8}',
        '\u{283}' | '\u{282}' | '\u{e7}' => '\u{283}',
        '\u{292}' | '\u{290}' => '\u{292}',
        '\u{270}' | '\u{295}' => '\u{270}',
        _ => c,
    }
}

/// Returns the normal form of `phonemes`.
pub fn normalize_phonemes(phonemes: &str) -> (r: String)
    ensures
        r@ == normalized(phonemes@),
{
    let mut out = String::new();
    let mut prev: Option<char> = None;
    for c in it: phonemes.chars()
        invariant
            it.seq() == phonemes@,
            out@ == normalized(it.seq().take(it.index() as int)),
            prev == last_of(canonicalize(strip(it.seq().take(it.index() as int)))),
    {
        proof {
            let before = it.seq().take(it.index() as int);
            let now = it.seq().take(it.index() as int + 1);
            assert(now.drop_last() =~= before);
            assert(now.last() == c);
            if !is_dropped(c) {
                assert(canonicalize(strip(now)) =~= canonicalize(strip(before)).push(canonical(c)));
                assert(canonicalize(strip(now)).drop_last() =~= canonicalize(strip(before)));
            }
        }
        if !is_dropped_char(c) {
            let k = canonical_char(c);
            if prev != Some(k) {
                push_char(&mut out, k);
            }
            prev = Some(k);
        }
    }
    proof {
        assert(phonemes@.take(phonemes@.len() as int) =~= phonemes@);
    }
    out
}

/// The last character of `s`, if it has one.
pub open spec fn last_of(s: Seq<char>) -> Option<char> {
    if s.len() == 0 {
        None
    } else {
        Some(s.last())
    }
}

/// A representative is its own representative, and none is left out.
pub proof fn lemma_canonical_stable(c: char)
    requires
        !is_dropped(c),
    ensures
        !is_dropped(canonical(c)),
        canonical(canonical(c)) == canonical(c),
{
}

proof fn lemma_strip_keeps(s: Seq<char>)
    ensures
        forall|i: int| 0 <= i < strip(s).len() ==> !is_dropped(#[trigger] strip(s)[i]),
    decreases s.len(),
{
    if s.len() > 0 {
        let head = s.drop_last();
        lemma_strip_keeps(head);
        assert forall|i: int| 0 <= i < strip(s).len() implies !is_dropped(#[trigger] strip(s)[i]) by {
            if i < strip(head).len() {
                assert(strip(s)[i] == strip(head)[i]);
            }
        }
    }
}

proof fn lemma_collapse_runs(s: Seq<char>)
    ensures
        last_of(collapse_runs(s)) == last_of(s),
        forall|i: int| 0 <= i < collapse_runs(s).len() ==> s.contains(#[trigger] collapse_runs(s)[i]),
        forall|i: int| 0 < i < collapse_runs(s).len() ==> collapse_runs(s)[i - 1] != #[trigger] collapse_runs(s)[i],
    decreases s.len(),
{
    if s.len() > 0 {
        let head = s.drop_last();
        lemma_collapse_runs(head);
        assert forall|i: int| 0 <= i < collapse_runs(s).len() implies s.contains(
            #[trigger] collapse_runs(s)[i],
        ) by {
            if i < collapse_runs(head).len() {
                let j = choose|j: int| 0 <= j < head.len() && head[j] == collapse_runs(head)[i];
                assert(s[j] == collapse_runs(s)[i]);
            } else {
                assert(s[s.len() - 1] == collapse_runs(s)[i]);
            }
        }
    }
}

/// The normal form of any transcription is normal.
pub proof fn lemma_normalized_is_normal(s: Seq<char>)
    ensures
        is_normal(normalized(s)),
{
    let kept = strip(s);
    let mapped = canonicalize(kept);
    lemma_strip_keeps(s);
    lemma_collapse_runs(mapped);
    assert forall|i: int| 0 <= i < normalized(s).len() implies !is_dropped(
        #[trigger] normalized(s)[i],
    ) && canonical(normalized(s)[i]) == normalized(s)[i] by {
        let j = choose|j: int| 0 <= j < mapped.len() && mapped[j] == normalized(s)[i];
        assert(mapped[j] == canonical(kept[j]));
        lemma_canonical_stable(kept[j]);
    }
}

/// Normalization leaves a normal transcription as it is.
pub proof fn lemma_normal_is_fixed(s: Seq<char>)
    requires
        is_normal(s),
    ensures
        normalized(s) == s,
    decreases s.len(),
{
    if s.len() > 0 {
        let head = s.drop_last();
        lemma_normal_is_fixed(head);
        assert(strip(head) =~= head) by {
            lemma_fixed_parts(head);
        }
        lemma_fixed_parts(s);
    }
}

proof fn lemma_fixed_parts(s: Seq<char>)
    requires
        is_normal(s),
    ensures
        strip(s) == s,
        canonicalize(s) == s,
        collapse_runs(s) == s,
    decreases s.len(),
{
    if s.len() > 0 {
        let head = s.drop_last();
        lemma_fixed_parts(head);
        assert(s[s.len() - 1] == s.last());
        assert(head.push(s.last()) =~= s);
    }
    assert(canonicalize(s) =~= s);
}

/// Normalizing twice gives what normalizing once gives.
pub proof fn lemma_normalize_idempotent(s: Seq<char>)
    ensures
        normalized(normalized(s)) == normalized(s),
{
    lemma_normalized_is_normal(s);
    lemma_normal_is_fixed(normalized(s));
}

} // verus!
