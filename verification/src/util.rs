//! Small helpers: a multimap with string keys and the parsing of input lines.
use crate::text::{char_is_whitespace, is_whitespace, push_char};
use vstd::hash_map::StringHashMap;
use vstd::prelude::*;
use vstd::string::*;

verus! {

/// A map from keys to the values that were inserted under each key, in the
/// order of their insertion.
pub trait Multimap<K, V> {
    /// What holds of every multimap that was made by its own operations.
    spec fn wf(&self) -> bool;

    /// Appends `value` to the values of `key`.
    fn mm_insert(&mut self, key: K, value: V)
        requires
            old(self).wf(),
        ensures
            final(self).wf(),
    ;
}

/// A multimap with strings as keys. It remembers the order in which the keys
/// were first inserted.
pub struct Buckets<V> {
    index: StringHashMap<usize>,
    keys: Ghost<Seq<Seq<char>>>,
    values: Vec<Vec<V>>,
}

impl<V> Buckets<V> {
    /// The keys, in the order in which each was first inserted.
    pub closed spec fn keys(&self) -> Seq<Seq<char>> {
        self.keys@
    }

    /// The values of each key, in the order of the keys.
    pub closed spec fn values(&self) -> Seq<Seq<V>> {
        self.values@.map_values(|v: Vec<V>| v@)
    }

    /// An empty multimap.
    pub fn new() -> (r: Self)
        ensures
            r.wf(),
            r.keys().len() == 0,
            r.values().len() == 0,
    {
        Buckets { index: StringHashMap::new(), keys: Ghost(Seq::empty()), values: Vec::new() }
    }

    /// The number of values of each key, in the order of the keys.
    pub fn sizes(&self) -> (r: Vec<usize>)
        requires
            self.wf(),
        ensures
            r@.len() == self.values().len(),
            forall|i: int| 0 <= i < r@.len() ==> #[trigger] r@[i] == self.values()[i].len(),
    {
        let mut res: Vec<usize> = Vec::new();
        let n = self.values.len();
        let mut i: usize = 0;
        while i < n
            invariant
                n == self.values.len(),
                i <= n,
                res@.len() == i,
                forall|j: int| 0 <= j < i ==> #[trigger] res@[j] == self.values@[j]@.len(),
            decreases n - i,
        {
            res.push(self.values[i].len());
            i += 1;
        }
        res
    }

    /// Gives up the values of each key, in the order of the keys.
    pub fn into_values(self) -> (r: Vec<Vec<V>>)
        requires
            self.wf(),
        ensures
            self.keys().no_duplicates(),
            self.keys().len() == self.values().len(),
            r@.map_values(|v: Vec<V>| v@) == self.values(),
    {
        self.values
    }
}

impl<V> Multimap<String, V> for Buckets<V> {
    /// The keys are distinct and each has its values.
    closed spec fn wf(&self) -> bool {
        &&& self.keys@.len() == self.values@.len()
        &&& self.keys@.no_duplicates()
        &&& forall|k: Seq<char>| #[trigger] self.index@.contains_key(k) <==> self.keys@.contains(k)
        &&& forall|i: int|
            0 <= i < self.keys@.len() ==> self.index@[#[trigger] self.keys@[i]] == i
    }

    /// Appends `value` to the values of `key`; a key that was not there
    /// becomes the last key.
    fn mm_insert(&mut self, key: String, value: V)
        ensures
            old(self).keys().contains(key@) ==> {
                let i = old(self).keys().index_of(key@);
                &&& final(self).keys() == old(self).keys()
                &&& final(self).values() == old(self).values().update(
                    i,
                    old(self).values()[i].push(value),
                )
            },
            !old(self).keys().contains(key@) ==> {
                &&& final(self).keys() == old(self).keys().push(key@)
                &&& final(self).values() == old(self).values().push(seq![value])
            },
    {
        let slot = match self.index.get(key.as_str()) {
            Some(i) => Some(*i),
            None => None,
        };
        match slot {
            Some(i) => {
                assert(self.keys@.contains(key@));
                let ghost at = choose|j: int| 0 <= j < self.keys@.len() && self.keys@[j] == key@;
                assert(i == at);
                assert(old(self).keys().index_of(key@) == at);
                self.values[i].push(value);
                assert(self.values() =~= old(self).values().update(
                    i as int,
                    old(self).values()[i as int].push(value),
                ));
            },
            None => {
                let n = self.values.len();
                let ghost k = key@;
                self.index.insert(key, n);
                self.keys = Ghost(self.keys@.push(k));
                let mut first: Vec<V> = Vec::new();
                first.push(value);
                self.values.push(first);
                assert(self.values() =~= old(self).values().push(seq![value]));
                assert forall|q: Seq<char>| #[trigger]
                    self.index@.contains_key(q) <==> self.keys@.contains(q) by {
                    if q == k {
                        assert(self.keys@[n as int] == k);
                    } else {
                        if old(self).keys@.contains(q) {
                            let j = choose|j: int| 0 <= j < old(self).keys@.len() && old(self).keys@[j] == q;
                            assert(self.keys@[j] == q);
                        }
                    }
                }
            },
        }
    }
}

/// `s` without the white space at its start.
pub open spec fn trim_start(s: Seq<char>) -> Seq<char>
    decreases s.len(),
{
    if s.len() > 0 && is_whitespace(s[0]) {
        trim_start(s.drop_first())
    } else {
        s
    }
}

/// `s` without the white space at its end.
pub open spec fn trim_end(s: Seq<char>) -> Seq<char>
    decreases s.len(),
{
    if s.len() > 0 && is_whitespace(s.last()) {
        trim_end(s.drop_last())
    } else {
        s
    }
}

/// `s` without the white space at its start and at its end.
pub open spec fn trimmed(s: Seq<char>) -> Seq<char> {
    trim_end(trim_start(s))
}

/// The index of the first tabulator of `s` at or after `from`; the length of
/// `s` where there is none.
pub open spec fn first_tab(s: Seq<char>, from: int) -> int
    decreases s.len() - from,
{
    if from >= s.len() {
        s.len() as int
    } else if s[from] == '\t' {
        from
    } else {
        first_tab(s, from + 1)
    }
}

/// The key and the value that a line of a word list holds: what stands before
/// and behind the first tabulator of the trimmed line, both trimmed. A line
/// without a tabulator between its first and its last word holds none, nor
/// does a line whose key and value are both empty.
pub open spec fn tsv_pair(line: Seq<char>) -> Option<(Seq<char>, Seq<char>)> {
    let t = trimmed(line);
    let k = first_tab(t, 0);
    if k < t.len() && !(trimmed(t.take(k)).len() == 0 && trimmed(t.skip(k + 1)).len() == 0) {
        Some((trimmed(t.take(k)), trimmed(t.skip(k + 1))))
    } else {
        None
    }
}

/// The characters of `s`.
fn chars_of(s: &str) -> (r: Vec<char>)
    ensures
        r@ == s@,
{
    let mut out: Vec<char> = Vec::new();
    for c in it: s.chars()
        invariant
            it.seq() == s@,
            out@ == it.seq().take(it.index() as int),
    {
        out.push(c);
        assert(it.seq().take(it.index() + 1) =~= it.seq().take(it.index() as int).push(c));
    }
    assert(s@.take(s@.len() as int) =~= s@);
    out
}

/// The bounds of what is left of the characters from `low` up to `high`
/// when the white space at both ends is taken away.
fn trim_bounds(chars: &Vec<char>, low: usize, high: usize) -> (r: (usize, usize))
    requires
        low <= high <= chars.len(),
    ensures
        low <= r.0 <= r.1 <= high,
        chars@.subrange(r.0 as int, r.1 as int) == trimmed(chars@.subrange(low as int, high as int)),
{
    let mut a = low;
    while a < high && char_is_whitespace(chars[a])
        invariant
            low <= a <= high <= chars.len(),
            trim_start(chars@.subrange(low as int, high as int)) == trim_start(
                chars@.subrange(a as int, high as int),
            ),
        decreases high - a,
    {
        assert(chars@.subrange(a as int, high as int).drop_first() =~= chars@.subrange(
            a + 1,
            high as int,
        ));
        a += 1;
    }
    let mut b = high;
    while b > a && char_is_whitespace(chars[b - 1])
        invariant
            a <= b <= high <= chars.len(),
            trim_end(chars@.subrange(a as int, high as int)) == trim_end(
                chars@.subrange(a as int, b as int),
            ),
        decreases b,
    {
        assert(chars@.subrange(a as int, b as int).drop_last() =~= chars@.subrange(
            a as int,
            b - 1,
        ));
        b -= 1;
    }
    (a, b)
}

/// Reads one line of a word list: a key and a value with a tabulator between
/// them. White space around the line, the key and the value does not count.
pub fn to_tsv_pair<'a>(line: &'a str) -> (r: Option<(&'a str, &'a str)>)
    ensures
        match r {
            Some((key, value)) => tsv_pair(line@) == Some((key@, value@)),
            None => tsv_pair(line@) is None,
        },
{
    let chars = chars_of(line);
    let (a, b) = trim_bounds(&chars, 0, chars.len());
    let ghost t = trimmed(line@);
    assert(chars@.subrange(0, chars.len() as int) =~= line@);
    let mut k = a;
    while k < b && chars[k] != '\t'
        invariant
            a <= k <= b <= chars.len(),
            chars@ == line@,
            t == chars@.subrange(a as int, b as int),
            first_tab(t, 0) == first_tab(t, k - a),
        decreases b - k,
    {
        k += 1;
    }
    if k == b {
        return None;
    }
    let (a1, b1) = trim_bounds(&chars, a, k);
    let (a2, b2) = trim_bounds(&chars, k + 1, b);
    proof {
        assert(first_tab(t, 0) == k - a);
        assert(t.take(k - a) =~= chars@.subrange(a as int, k as int));
        assert(t.skip(k - a + 1) =~= chars@.subrange(k + 1, b as int));
    }
    if a1 == b1 && a2 == b2 {
        return None;
    }
    let key = line.substring_char(a1, b1);
    let value = line.substring_char(a2, b2);
    Some((key, value))
}

/// `s` without the white space at its start and at its end.
pub fn trim<'a>(s: &'a str) -> (r: &'a str)
    ensures
        r@ == trimmed(s@),
{
    let chars = chars_of(s);
    let (a, b) = trim_bounds(&chars, 0, chars.len());
    assert(chars@.subrange(0, chars.len() as int) =~= s@);
    s.substring_char(a, b)
}

/// The line of a word list for a word and its transcription: the two with a
/// tabulator between them. A word without a transcription gets no line.
pub fn tsv_line(word: &str, phonemes: &str) -> (r: Option<String>)
    ensures
        phonemes@.len() == 0 ==> r is None,
        phonemes@.len() > 0 ==> (r matches Some(line) && line@ == word@ + seq!['\t'] + phonemes@),
{
    if phonemes.unicode_len() == 0 {
        return None;
    }
    let mut line = String::from_str(word);
    push_char(&mut line, '\t');
    line.append(phonemes);
    assert(line@ =~= word@ + seq!['\t'] + phonemes@);
    Some(line)
}

/// Tells whether `line` holds nothing but white space.
pub fn is_blank(line: &str) -> (r: bool)
    ensures
        r == (trimmed(line@).len() == 0),
{
    let chars = chars_of(line);
    let (a, b) = trim_bounds(&chars, 0, chars.len());
    assert(chars@.subrange(0, chars.len() as int) =~= line@);
    a == b
}

} // verus!
