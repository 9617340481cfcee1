//! The classes of words that hang together through the lines of a text.
use crate::determinism::{lemma_ordered_multiset, lemma_strictly_sorted_unique};
use crate::group_builder::{
    holds_each_once, lemma_linked_seen, lemma_with_new, linked, seen, touches,
};
use crate::word_groups::{
    canonical_groups, lemma_canonical_groups, lemma_sorted_members, lemma_survivors,
    lemma_survivors_push, sorted_members, strictly_sorted, survivors,
};
use vstd::prelude::*;
use vstd::seq_lib::to_multiset_contains;

verus! {

/// The relation holds of every word and itself, holds both ways, and carries
/// over a word in the middle.
pub open spec fn is_equivalence(e: spec_fn(Seq<char>, Seq<char>) -> bool) -> bool {
    &&& forall|a: Seq<char>| #[trigger] e(a, a)
    &&& forall|a: Seq<char>, b: Seq<char>| #[trigger] e(a, b) ==> e(b, a)
    &&& forall|a: Seq<char>, b: Seq<char>, c: Seq<char>|
        #[trigger] e(a, b) && #[trigger] e(b, c) ==> e(a, c)
}

/// The relation holds of any two words of one line.
pub open spec fn respects(e: spec_fn(Seq<char>, Seq<char>) -> bool, lines: Seq<Seq<Seq<char>>>) -> bool {
    forall|k: int, i: int, j: int|
        0 <= k < lines.len() && 0 <= i < lines[k].len() && 0 <= j < lines[k].len() ==> e(
            #[trigger] lines[k][i],
            #[trigger] lines[k][j],
        )
}

/// The two sequences are made of the same lines.
pub open spec fn same_lines(a: Seq<Seq<Seq<char>>>, b: Seq<Seq<Seq<char>>>) -> bool {
    forall|l: Seq<Seq<char>>| a.contains(l) <==> b.contains(l)
}

/// A group is a class of `lines`: at least two words in strictly ascending
/// order that hang together, with every word that hangs together with them.
pub open spec fn is_class(lines: Seq<Seq<Seq<char>>>, g: Seq<Seq<char>>) -> bool {
    &&& g.len() >= 2
    &&& strictly_sorted(g)
    &&& forall|i: int, j: int|
        0 <= i < g.len() && 0 <= j < g.len() ==> linked(lines, #[trigger] g[i], #[trigger] g[j])
    &&& forall|i: int, y: Seq<char>|
        0 <= i < g.len() && #[trigger] linked(lines, g[i], y) ==> g.contains(y)
}

/// The words that were seen are the words of the lines.
pub proof fn lemma_seen(lines: Seq<Seq<Seq<char>>>)
    ensures
        forall|x: Seq<char>|
            seen(lines).contains(x) <==> exists|k: int, i: int|
                0 <= k < lines.len() && 0 <= i < lines[k].len() && #[trigger] lines[k][i] == x,
    decreases lines.len(),
{
    if lines.len() > 0 {
        let before = lines.drop_last();
        let line = lines.last();
        lemma_seen(before);
        lemma_with_new(seen(before), line);
        assert forall|x: Seq<char>|
            seen(lines).contains(x) <==> exists|k: int, i: int|
                0 <= k < lines.len() && 0 <= i < lines[k].len() && #[trigger] lines[k][i] == x by {
            if seen(before).contains(x) {
                let (k, i) = choose|k: int, i: int|
                    0 <= k < before.len() && 0 <= i < before[k].len() && #[trigger] before[k][i]
                        == x;
                assert(lines[k][i] == x);
            }
            if line.contains(x) {
                let i = choose|i: int| 0 <= i < line.len() && line[i] == x;
                assert(lines[lines.len() - 1][i] == x);
            }
            if exists|k: int, i: int|
                0 <= k < lines.len() && 0 <= i < lines[k].len() && #[trigger] lines[k][i] == x {
                let (k, i) = choose|k: int, i: int|
                    0 <= k < lines.len() && 0 <= i < lines[k].len() && #[trigger] lines[k][i] == x;
                if k < before.len() {
                    assert(before[k][i] == x);
                } else {
                    assert(line[i] == x);
                }
            }
        }
    }
}

/// Hanging together holds both ways.
pub proof fn lemma_linked_symmetric(lines: Seq<Seq<Seq<char>>>, a: Seq<char>, b: Seq<char>)
    requires
        linked(lines, a, b),
    ensures
        linked(lines, b, a),
    decreases lines.len(),
{
    if linked(lines.drop_last(), a, b) {
        lemma_linked_symmetric(lines.drop_last(), a, b);
    }
}

/// A word that touches a line hangs together with every word that does.
proof fn lemma_touches_carries(
    before: Seq<Seq<Seq<char>>>,
    line: Seq<Seq<char>>,
    a: Seq<char>,
    b: Seq<char>,
)
    requires
        linked(before, a, b),
        touches(before, line, b),
        forall|x: Seq<char>, y: Seq<char>, z: Seq<char>|
            linked(before, x, y) && linked(before, y, z) ==> linked(before, x, z),
    ensures
        touches(before, line, a),
{
    if line.contains(b) {
        let i = choose|i: int| 0 <= i < line.len() && line[i] == b;
        assert(linked(before, a, line[i]));
    } else {
        let i = choose|i: int| 0 <= i < line.len() && linked(before, b, #[trigger] line[i]);
        assert(linked(before, a, line[i]));
    }
}

/// Hanging together carries over a word in the middle.
pub proof fn lemma_linked_transitive(lines: Seq<Seq<Seq<char>>>)
    ensures
        forall|a: Seq<char>, b: Seq<char>, c: Seq<char>|
            linked(lines, a, b) && linked(lines, b, c) ==> linked(lines, a, c),
    decreases lines.len(),
{
    if lines.len() > 0 {
        let before = lines.drop_last();
        let line = lines.last();
        lemma_linked_transitive(before);
        assert forall|a: Seq<char>, b: Seq<char>, c: Seq<char>|
            linked(lines, a, b) && linked(lines, b, c) implies linked(lines, a, c) by {
            if linked(before, a, b) && linked(before, b, c) {
            } else if linked(before, a, b) {
                assert(touches(before, line, b) && touches(before, line, c));
                lemma_touches_carries(before, line, a, b);
            } else if linked(before, b, c) {
                assert(touches(before, line, a) && touches(before, line, b));
                lemma_linked_symmetric(before, b, c);
                lemma_touches_carries(before, line, c, b);
            } else {
                assert(touches(before, line, a) && touches(before, line, c));
            }
        }
    }
}

/// The words of one line hang together.
pub proof fn lemma_linked_in_line(lines: Seq<Seq<Seq<char>>>, k: int, i: int, j: int)
    requires
        0 <= k < lines.len(),
        0 <= i < lines[k].len(),
        0 <= j < lines[k].len(),
    ensures
        linked(lines, lines[k][i], lines[k][j]),
    decreases lines.len(),
{
    let before = lines.drop_last();
    let line = lines.last();
    if k == lines.len() - 1 {
        assert(line[i] == lines[k][i]);
        assert(line[j] == lines[k][j]);
        assert(line.contains(lines[k][i]));
        assert(line.contains(lines[k][j]));
        assert(touches(before, line, lines[k][i]));
        assert(touches(before, line, lines[k][j]));
    } else {
        assert(before[k] == lines[k]);
        lemma_linked_in_line(before, k, i, j);
        assert(linked(before, lines[k][i], lines[k][j]));
    }
}

/// Hanging together is the least equivalence in which the words of each
/// line are equivalent: every such equivalence holds of words that hang
/// together.
pub proof fn lemma_linked_least(
    lines: Seq<Seq<Seq<char>>>,
    e: spec_fn(Seq<char>, Seq<char>) -> bool,
    a: Seq<char>,
    b: Seq<char>,
)
    requires
        is_equivalence(e),
        respects(e, lines),
        linked(lines, a, b),
    ensures
        e(a, b),
    decreases lines.len(),
{
    let before = lines.drop_last();
    let line = lines.last();
    assert(respects(e, before)) by {
        assert forall|k: int, i: int, j: int|
            0 <= k < before.len() && 0 <= i < before[k].len() && 0 <= j < before[k].len() implies e(
            #[trigger] before[k][i],
            #[trigger] before[k][j],
        ) by {
            assert(before[k] == lines[k]);
            assert(e(lines[k][i], lines[k][j]));
        }
    }
    if linked(before, a, b) {
        lemma_linked_least(before, e, a, b);
    } else {
        assert(touches(before, line, a) && touches(before, line, b));
        let i = if line.contains(a) {
            choose|i: int| 0 <= i < line.len() && line[i] == a
        } else {
            choose|i: int| 0 <= i < line.len() && linked(before, a, #[trigger] line[i])
        };
        let j = if line.contains(b) {
            choose|j: int| 0 <= j < line.len() && line[j] == b
        } else {
            choose|j: int| 0 <= j < line.len() && linked(before, b, #[trigger] line[j])
        };
        if !line.contains(a) {
            lemma_linked_least(before, e, a, line[i]);
        }
        if !line.contains(b) {
            lemma_linked_least(before, e, b, line[j]);
        }
        assert(e(a, line[i]));
        assert(e(b, line[j]));
        assert(e(lines[lines.len() - 1][i], lines[lines.len() - 1][j]));
        assert(e(line[j], b));
        assert(e(a, line[j]));
    }
}

/// Words that hang together through some lines hang together through the
/// same lines in any other order.
pub proof fn lemma_linked_same_lines(
    lines: Seq<Seq<Seq<char>>>,
    others: Seq<Seq<Seq<char>>>,
    a: Seq<char>,
    b: Seq<char>,
)
    requires
        same_lines(lines, others),
        linked(lines, a, b),
    ensures
        linked(others, a, b),
{
    let e = |x: Seq<char>, y: Seq<char>| x == y || linked(others, x, y);
    assert(is_equivalence(e)) by {
        lemma_linked_transitive(others);
        assert forall|x: Seq<char>, y: Seq<char>| #[trigger] e(x, y) implies e(y, x) by {
            if x != y {
                lemma_linked_symmetric(others, x, y);
            }
        }
    }
    assert(respects(e, lines)) by {
        assert forall|k: int, i: int, j: int|
            0 <= k < lines.len() && 0 <= i < lines[k].len() && 0 <= j < lines[k].len() implies e(
            #[trigger] lines[k][i],
            #[trigger] lines[k][j],
        ) by {
            assert(lines.contains(lines[k]));
            assert(others.contains(lines[k]));
            let m = choose|m: int| 0 <= m < others.len() && others[m] == lines[k];
            lemma_linked_in_line(others, m, i, j);
        }
    }
    lemma_linked_least(lines, e, a, b);
    if a == b {
        lemma_linked_seen(lines, a, b);
        lemma_seen(lines);
        let (k, i) = choose|k: int, i: int|
            0 <= k < lines.len() && 0 <= i < lines[k].len() && #[trigger] lines[k][i] == a;
        assert(lines.contains(lines[k]));
        assert(others.contains(lines[k]));
        let m = choose|m: int| 0 <= m < others.len() && others[m] == lines[k];
        lemma_linked_in_line(others, m, i, i);
    }
}

/// The same lines have the same classes.
pub proof fn lemma_class_same_lines(
    lines: Seq<Seq<Seq<char>>>,
    others: Seq<Seq<Seq<char>>>,
    g: Seq<Seq<char>>,
)
    requires
        same_lines(lines, others),
        is_class(lines, g),
    ensures
        is_class(others, g),
{
    assert forall|i: int, j: int| 0 <= i < g.len() && 0 <= j < g.len() implies linked(
        others,
        #[trigger] g[i],
        #[trigger] g[j],
    ) by {
        lemma_linked_same_lines(lines, others, g[i], g[j]);
    }
    assert forall|i: int, y: Seq<char>|
        0 <= i < g.len() && #[trigger] linked(others, g[i], y) implies g.contains(y) by {
        lemma_linked_same_lines(others, lines, g[i], y);
    }
}

/// Groups that hold each word of some lines once, two words in one group
/// where they hang together and in two where they do not, stand for the
/// classes of the lines, each once.
pub proof fn lemma_classes(lines: Seq<Seq<Seq<char>>>, groups: Seq<Seq<Seq<char>>>)
    requires
        holds_each_once(groups, seen(lines)),
        forall|s: int, j: int, t: int, k: int|
            0 <= s < groups.len() && 0 <= j < groups[s].len() && 0 <= t < groups.len() && 0 <= k
                < groups[t].len() ==> (linked(lines, #[trigger] groups[s][j], #[trigger] groups[t][k])
                <==> s == t),
    ensures
        forall|x: Seq<Seq<char>>| #[trigger]
            canonical_groups(groups).contains(x) <==> is_class(lines, x),
        canonical_groups(groups).no_duplicates(),
{
    let out = canonical_groups(groups);
    lemma_canonical_groups(groups);
    assert forall|x: Seq<Seq<char>>| #[trigger] out.contains(x) <==> is_class(lines, x) by {
        if out.contains(x) {
            let k = choose|k: int|
                0 <= k < groups.len() && x == sorted_members(#[trigger] groups[k]);
            lemma_group_is_class(lines, groups, k);
        }
        if is_class(lines, x) {
            lemma_class_is_group(lines, groups, x);
        }
    }
    lemma_survivors_distinct(groups, groups.len() as int);
    assert(groups.take(groups.len() as int) =~= groups);
    lemma_ordered_multiset(survivors(groups));
    survivors(groups).lemma_multiset_has_no_duplicates();
    out.lemma_multiset_has_no_duplicates_conv();
}

/// The sorted form of a group of such groups is a class, if it has two words.
proof fn lemma_group_is_class(lines: Seq<Seq<Seq<char>>>, groups: Seq<Seq<Seq<char>>>, k: int)
    requires
        holds_each_once(groups, seen(lines)),
        forall|s: int, j: int, t: int, k: int|
            0 <= s < groups.len() && 0 <= j < groups[s].len() && 0 <= t < groups.len() && 0 <= k
                < groups[t].len() ==> (linked(lines, #[trigger] groups[s][j], #[trigger] groups[t][k])
                <==> s == t),
        0 <= k < groups.len(),
        sorted_members(groups[k]).len() >= 2,
    ensures
        is_class(lines, sorted_members(groups[k])),
{
    let g = groups[k];
    let x = sorted_members(g);
    lemma_sorted_members(g);
    assert forall|i: int, j: int| 0 <= i < x.len() && 0 <= j < x.len() implies linked(
        lines,
        #[trigger] x[i],
        #[trigger] x[j],
    ) by {
        assert(x.contains(x[i]) && x.contains(x[j]));
        let p = choose|p: int| 0 <= p < g.len() && g[p] == x[i];
        let q = choose|q: int| 0 <= q < g.len() && g[q] == x[j];
        assert(linked(lines, groups[k][p], groups[k][q]));
    }
    assert forall|i: int, y: Seq<char>|
        0 <= i < x.len() && #[trigger] linked(lines, x[i], y) implies x.contains(y) by {
        assert(x.contains(x[i]));
        let p = choose|p: int| 0 <= p < g.len() && g[p] == x[i];
        lemma_linked_seen(lines, x[i], y);
        let (t, m) = choose|t: int, m: int|
            0 <= t < groups.len() && 0 <= m < groups[t].len() && #[trigger] groups[t][m] == y;
        assert(linked(lines, groups[k][p], groups[t][m]));
        assert(g.contains(y));
    }
}

/// Every class is the sorted form of one of such groups.
proof fn lemma_class_is_group(
    lines: Seq<Seq<Seq<char>>>,
    groups: Seq<Seq<Seq<char>>>,
    x: Seq<Seq<char>>,
)
    requires
        holds_each_once(groups, seen(lines)),
        forall|s: int, j: int, t: int, k: int|
            0 <= s < groups.len() && 0 <= j < groups[s].len() && 0 <= t < groups.len() && 0 <= k
                < groups[t].len() ==> (linked(lines, #[trigger] groups[s][j], #[trigger] groups[t][k])
                <==> s == t),
        is_class(lines, x),
    ensures
        canonical_groups(groups).contains(x),
{
    lemma_canonical_groups(groups);
    assert(linked(lines, x[0], x[0]));
    lemma_linked_seen(lines, x[0], x[0]);
    let (k, j) = choose|k: int, j: int|
        0 <= k < groups.len() && 0 <= j < groups[k].len() && #[trigger] groups[k][j] == x[0];
    let g = groups[k];
    lemma_sorted_members(g);
    assert forall|y: Seq<char>| sorted_members(g).contains(y) <==> x.contains(y) by {
        if g.contains(y) {
            let m = choose|m: int| 0 <= m < g.len() && g[m] == y;
            assert(linked(lines, groups[k][j], groups[k][m]));
            assert(linked(lines, x[0], y));
        }
        if x.contains(y) {
            let i = choose|i: int| 0 <= i < x.len() && x[i] == y;
            assert(linked(lines, x[0], x[i]));
            lemma_linked_seen(lines, x[0], y);
            let (t, m) = choose|t: int, m: int|
                0 <= t < groups.len() && 0 <= m < groups[t].len() && #[trigger] groups[t][m] == y;
            assert(linked(lines, groups[k][j], groups[t][m]));
            assert(g[m] == y);
        }
    }
    lemma_strictly_sorted_unique(sorted_members(g), x);
}

/// Groups that share no word have surviving groups that are all different.
proof fn lemma_survivors_distinct(groups: Seq<Seq<Seq<char>>>, n: int)
    requires
        0 <= n <= groups.len(),
        forall|s: int| 0 <= s < groups.len() ==> (#[trigger] groups[s]).len() > 0,
        forall|s: int, j: int, t: int, k: int|
            0 <= s < groups.len() && 0 <= j < groups[s].len() && 0 <= t < groups.len() && 0 <= k
                < groups[t].len() && (s != t || j != k) ==> #[trigger] groups[s][j]
                != #[trigger] groups[t][k],
    ensures
        survivors(groups.take(n)).no_duplicates(),
    decreases n,
{
    if n > 0 {
        let head = groups.take(n - 1);
        let g = groups[n - 1];
        lemma_survivors_distinct(groups, n - 1);
        assert(groups.take(n) =~= head.push(g));
        lemma_survivors_push(head, g);
        lemma_survivors(head);
        lemma_sorted_members(g);
        if survivors(head).contains(sorted_members(g)) {
            let k = choose|k: int|
                0 <= k < head.len() && sorted_members(g) == sorted_members(#[trigger] head[k]);
            lemma_sorted_members(head[k]);
            assert(g.contains(g[0]));
            assert(sorted_members(g).contains(g[0]));
            assert(head[k].contains(g[0]));
            let m = choose|m: int| 0 <= m < head[k].len() && head[k][m] == g[0];
            assert(groups[k][m] == groups[n - 1][0]);
        }
    }
}

} // verus!
