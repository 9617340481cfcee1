//! Characters and strings: white space, the order of strings, and the
//! handful of `std` string operations the rest of the crate builds on.
use vstd::prelude::*;
use vstd::string::*;

verus! {

/// The code points that carry the Unicode `White_Space` property.
pub open spec fn is_whitespace(c: char) -> bool {
    let n = c as u32;
    ||| 0x09 <= n <= 0x0d
    ||| n == 0x20
    ||| n == 0x85
    ||| n == 0xa0
    ||| n == 0x1680
    ||| 0x2000 <= n <= 0x200a
    ||| n == 0x2028
    ||| n == 0x2029
    ||| n == 0x202f
    ||| n == 0x205f
    ||| n == 0x3000
}

/// Trusted: `char::is_whitespace` of `std`. It is documented to tell whether
/// the character has the `White_Space` property of the Unicode character
/// database; the contract spells that set of code points out.
#[verifier::external_body]
pub(crate) fn char_is_whitespace(c: char) -> (r: bool)
    ensures
        r == is_whitespace(c),
{
    c.is_whitespace()
}

/// Trusted: `String::push` of `std`, which appends one character.
#[verifier::external_body]
pub(crate) fn push_char(s: &mut String, c: char)
    ensures
        final(s)@ == old(s)@.push(c),
{
    s.push(c)
}

/// Trusted: the `==` of `str` in `std`, which holds of two strings made of
/// the same characters.
#[verifier::external_body]
pub(crate) fn str_eq(a: &str, b: &str) -> (r: bool)
    ensures
        r == (a@ == b@),
{
    a == b
}

/// Lexicographic order of two character sequences by code point; a proper
/// prefix comes before the longer sequence.
pub open spec fn lex_lt(a: Seq<char>, b: Seq<char>) -> bool
    decreases a.len(),
{
    if b.len() == 0 {
        false
    } else if a.len() == 0 {
        true
    } else if a[0] != b[0] {
        a[0] < b[0]
    } else {
        lex_lt(a.drop_first(), b.drop_first())
    }
}

/// Trusted: the `<` of `str` in `std`. Strings are documented to be ordered
/// lexicographically by their bytes, which for UTF-8 is the order of their
/// code points.
#[verifier::external_body]
pub(crate) fn str_lt(a: &str, b: &str) -> (r: bool)
    ensures
        r == lex_lt(a@, b@),
{
    a < b
}

/// No sequence comes before itself.
pub proof fn lemma_lex_lt_irreflexive(a: Seq<char>)
    ensures
        !lex_lt(a, a),
    decreases a.len(),
{
    if a.len() > 0 {
        lemma_lex_lt_irreflexive(a.drop_first());
    }
}

/// The order is transitive.
pub proof fn lemma_lex_lt_transitive(a: Seq<char>, b: Seq<char>, c: Seq<char>)
    requires
        lex_lt(a, b),
        lex_lt(b, c),
    ensures
        lex_lt(a, c),
    decreases a.len(),
{
    if a.len() > 0 && a[0] == b[0] && b[0] == c[0] {
        lemma_lex_lt_transitive(a.drop_first(), b.drop_first(), c.drop_first());
    }
}

/// Of two different sequences one comes before the other.
pub proof fn lemma_lex_lt_total(a: Seq<char>, b: Seq<char>)
    ensures
        a == b || lex_lt(a, b) || lex_lt(b, a),
    decreases a.len(),
{
    if a.len() == 0 || b.len() == 0 {
        if a.len() == 0 && b.len() == 0 {
            assert(a =~= b);
        }
    } else if a[0] == b[0] {
        lemma_lex_lt_total(a.drop_first(), b.drop_first());
        if a.drop_first() == b.drop_first() {
            assert(a =~= seq![a[0]] + a.drop_first());
            assert(b =~= seq![b[0]] + b.drop_first());
        }
    }
}

/// Two sequences never come before each other.
pub proof fn lemma_lex_lt_asymmetric(a: Seq<char>, b: Seq<char>)
    requires
        lex_lt(a, b),
    ensures
        !lex_lt(b, a),
{
    if lex_lt(b, a) {
        lemma_lex_lt_transitive(a, b, a);
        lemma_lex_lt_irreflexive(a);
    }
}

/// Lexicographic order of two sequences of words, each word compared by
/// [`lex_lt`]: the first word in which the two differ decides, and a proper
/// prefix comes before the longer sequence.
pub open spec fn group_lt(g: Seq<Seq<char>>, h: Seq<Seq<char>>) -> bool
    decreases g.len(),
{
    if h.len() == 0 {
        false
    } else if g.len() == 0 {
        true
    } else if g[0] != h[0] {
        lex_lt(g[0], h[0])
    } else {
        group_lt(g.drop_first(), h.drop_first())
    }
}

/// No sequence of words comes before itself.
pub proof fn lemma_group_lt_irreflexive(g: Seq<Seq<char>>)
    ensures
        !group_lt(g, g),
    decreases g.len(),
{
    if g.len() > 0 {
        lemma_group_lt_irreflexive(g.drop_first());
    }
}

/// The order of sequences of words is transitive.
pub proof fn lemma_group_lt_transitive(g: Seq<Seq<char>>, h: Seq<Seq<char>>, k: Seq<Seq<char>>)
    requires
        group_lt(g, h),
        group_lt(h, k),
    ensures
        group_lt(g, k),
    decreases g.len(),
{
    if g.len() > 0 {
        if g[0] == h[0] && h[0] == k[0] {
            lemma_group_lt_transitive(g.drop_first(), h.drop_first(), k.drop_first());
        } else if g[0] != h[0] && h[0] != k[0] {
            lemma_lex_lt_transitive(g[0], h[0], k[0]);
            lemma_lex_lt_irreflexive(g[0]);
        }
    }
}

/// Of two different sequences of words one comes before the other.
pub proof fn lemma_group_lt_total(g: Seq<Seq<char>>, h: Seq<Seq<char>>)
    ensures
        g == h || group_lt(g, h) || group_lt(h, g),
    decreases g.len(),
{
    if g.len() == 0 || h.len() == 0 {
        if g.len() == 0 && h.len() == 0 {
            assert(g =~= h);
        }
    } else if g[0] == h[0] {
        lemma_group_lt_total(g.drop_first(), h.drop_first());
        if g.drop_first() == h.drop_first() {
            assert(g =~= seq![g[0]] + g.drop_first());
            assert(h =~= seq![h[0]] + h.drop_first());
        }
    } else {
        lemma_lex_lt_total(g[0], h[0]);
    }
}

/// Two sequences of words never come before each other.
pub proof fn lemma_group_lt_asymmetric(g: Seq<Seq<char>>, h: Seq<Seq<char>>)
    requires
        group_lt(g, h),
    ensures
        !group_lt(h, g),
{
    if group_lt(h, g) {
        lemma_group_lt_transitive(g, h, g);
        lemma_group_lt_irreflexive(g);
    }
}

/// Where `g` is not after `h` and `h` is not after `k`, `g` is not after `k`.
pub proof fn lemma_group_le_transitive(g: Seq<Seq<char>>, h: Seq<Seq<char>>, k: Seq<Seq<char>>)
    requires
        !group_lt(h, g),
        !group_lt(k, h),
    ensures
        !group_lt(k, g),
{
    if group_lt(k, g) {
        lemma_group_lt_total(g, h);
        if group_lt(g, h) {
            lemma_group_lt_transitive(k, g, h);
        }
    }
}

/// Tells whether the words `a` come before the words `b`.
pub fn group_less(a: &Vec<String>, b: &Vec<String>) -> (r: bool)
    ensures
        r == group_lt(texts(a@), texts(b@)),
{
    let ghost g = texts(a@);
    let ghost h = texts(b@);
    let mut i: usize = 0;
    proof {
        assert(g.skip(0) =~= g);
        assert(h.skip(0) =~= h);
    }
    loop
        invariant
            i <= a.len(),
            i <= b.len(),
            g == texts(a@),
            h == texts(b@),
            group_lt(g, h) == group_lt(g.skip(i as int), h.skip(i as int)),
        decreases a.len() - i,
    {
        if i == b.len() {
            return false;
        }
        if i == a.len() {
            return true;
        }
        proof {
            assert(g.skip(i as int)[0] == a@[i as int]@);
            assert(h.skip(i as int)[0] == b@[i as int]@);
            assert(g.skip(i as int).drop_first() =~= g.skip(i + 1));
            assert(h.skip(i as int).drop_first() =~= h.skip(i + 1));
        }
        if !str_eq(a[i].as_str(), b[i].as_str()) {
            return str_lt(a[i].as_str(), b[i].as_str());
        }
        i += 1;
    }
}

/// The words of `s`: its longest runs of characters that are not white space.
pub open spec fn tokens(s: Seq<char>) -> Seq<Seq<char>>
    decreases s.len(),
{
    if s.len() == 0 {
        Seq::empty()
    } else if is_whitespace(s.last()) {
        tokens(s.drop_last())
    } else if s.len() >= 2 && !is_whitespace(s[s.len() - 2]) {
        tokens(s.drop_last()).drop_last().push(tokens(s.drop_last()).last().push(s.last()))
    } else {
        tokens(s.drop_last()).push(seq![s.last()])
    }
}

/// The character sequences of a sequence of strings.
pub open spec fn texts(words: Seq<String>) -> Seq<Seq<char>> {
    words.map_values(|s: String| s@)
}

/// Splits `line` into its words.
pub fn split_whitespace(line: &str) -> (r: Vec<String>)
    ensures
        texts(r@) == tokens(line@),
{
    let mut out: Vec<String> = Vec::new();
    let mut word = String::new();
    let mut inside = false;
    for c in it: line.chars()
        invariant
            it.seq() == line@,
            inside <==> it.index() > 0 && !is_whitespace(it.seq()[it.index() - 1]),
            inside ==> word@.len() > 0 && texts(out@).push(word@) == tokens(
                it.seq().take(it.index() as int),
            ),
            !inside ==> word@.len() == 0 && texts(out@) == tokens(
                it.seq().take(it.index() as int),
            ),
    {
        let ghost before = it.seq().take(it.index() as int);
        let ghost now = it.seq().take(it.index() + 1);
        proof {
            assert(now.drop_last() =~= before);
            assert(now.last() == c);
            if it.index() > 0 {
                assert(now[now.len() - 2] == it.seq()[it.index() - 1]);
            }
        }
        if char_is_whitespace(c) {
            if inside {
                let ghost done = texts(out@);
                out.push(word);
                word = String::new();
                inside = false;
                assert(texts(out@) =~= done.push(out@[out@.len() - 1]@));
            }
        } else {
            push_char(&mut word, c);
            proof {
                let t = texts(out@);
                if inside {
                    assert(tokens(before).drop_last() =~= t);
                    assert(tokens(before).last() == word@.drop_last());
                    assert(word@.drop_last().push(c) =~= word@);
                } else {
                    assert(word@ =~= seq![c]);
                }
            }
            inside = true;
        }
    }
    proof {
        assert(line@.take(line@.len() as int) =~= line@);
    }
    if inside {
        let ghost done = texts(out@);
        out.push(word);
        assert(texts(out@) =~= done.push(out@[out@.len() - 1]@));
    }
    out
}

} // verus!
