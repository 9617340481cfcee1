//! Words with their transcriptions, and the search for similar words.
use crate::distance::{edit_distance, lemma_length_gap_bounds_distance, length_gap, levenshtein};
use crate::phoneme::{normalize_phonemes, normalized};
use vstd::prelude::*;
use vstd::std_specs::iter::IteratorSpec;
use vstd::string::*;

verus! {

/// A word as it is written, with its phonemic transcription.
#[derive(Debug)]
pub struct Word {
    pub word: String,
    pub phonemes: String,
}

/// What a [`Word`] stands for: two sequences of characters.
pub struct WordView {
    pub word: Seq<char>,
    pub phonemes: Seq<char>,
}

impl View for Word {
    type V = WordView;

    open spec fn view(&self) -> WordView {
        WordView { word: self.word@, phonemes: self.phonemes@ }
    }
}

/// The transcription of `a` is within `max_distance` edits of that of `b`.
pub open spec fn similar(a: WordView, b: WordView, max_distance: nat) -> bool {
    edit_distance(a.phonemes, b.phonemes) <= max_distance
}

impl Clone for Word {
    fn clone(&self) -> (r: Self)
        ensures
            r == *self,
    {
        Word { word: self.word.clone(), phonemes: self.phonemes.clone() }
    }
}

impl PartialEq for Word {
    fn eq(&self, other: &Self) -> (r: bool) {
        self.word == other.word && self.phonemes == other.phonemes
    }
}

impl Eq for Word {

}

impl vstd::std_specs::cmp::PartialEqSpecImpl for Word {
    open spec fn obeys_eq_spec() -> bool {
        true
    }

    open spec fn eq_spec(&self, other: &Self) -> bool {
        self@ == other@
    }
}

impl Word {
    /// A word with its transcription.
    pub fn new(word: &str, phonemes: &str) -> (r: Self)
        ensures
            r@ == (WordView { word: word@, phonemes: phonemes@ }),
    {
        Word { word: String::from_str(word), phonemes: String::from_str(phonemes) }
    }

    /// Tells whether the transcriptions of the two words are at most
    /// `max_distance` edits apart.
    pub fn is_similar(&self, word: &Word, max_distance: usize) -> (r: bool)
        ensures
            r == similar(self@, word@, max_distance as nat),
            r == (length_gap(self@.phonemes, word@.phonemes) <= max_distance && edit_distance(
                self@.phonemes,
                word@.phonemes,
            ) <= max_distance),
    {
        let l1 = self.phonemes.as_str().unicode_len();
        let l2 = word.phonemes.as_str().unicode_len();
        let gap = if l1 >= l2 {
            l1 - l2
        } else {
            l2 - l1
        };
        proof {
            lemma_length_gap_bounds_distance(self.phonemes@, word.phonemes@);
        }
        gap <= max_distance && levenshtein(self.phonemes.as_str(), word.phonemes.as_str())
            <= max_distance
    }

    /// Replaces the transcription by its normal form.
    pub fn normalize_phonemes(&mut self)
        ensures
            final(self)@ == (WordView { word: old(self)@.word, phonemes: normalized(old(self)@.phonemes) }),
    {
        self.phonemes = normalize_phonemes(self.phonemes.as_str());
    }

    /// The word as it is written.
    pub fn to_string(&self) -> (r: String)
        ensures
            r@ == self@.word,
    {
        self.word.clone()
    }
}


/// An ordered collection of words; a word may occur more than once.
#[derive(Debug)]
pub struct Dictionary {
    words: Vec<Word>,
}

/// The views of a sequence of words.
pub open spec fn views(words: Seq<Word>) -> Seq<WordView> {
    words.map_values(|w: Word| w@)
}

/// The words that a slice of pairs of a word and its transcription describes.
pub open spec fn entry_views(entries: Seq<(&str, &str)>) -> Seq<WordView> {
    entries.map_values(|e: (&str, &str)| WordView { word: e.0@, phonemes: e.1@ })
}

/// The words of `words` that are similar to `query`, in their order.
pub open spec fn similar_words(words: Seq<WordView>, query: WordView, max_distance: nat) -> Seq<
    WordView,
> {
    words.filter(|w: WordView| similar(w, query, max_distance))
}

/// The index of the first word at or after `from` that is similar to `query`;
/// the number of words where there is none.
pub open spec fn next_match(
    words: Seq<WordView>,
    query: WordView,
    max_distance: nat,
    from: int,
) -> int
    decreases words.len() - from,
{
    if from >= words.len() {
        words.len() as int
    } else if similar(words[from], query, max_distance) {
        from
    } else {
        next_match(words, query, max_distance, from + 1)
    }
}

impl View for Dictionary {
    type V = Seq<WordView>;

    closed spec fn view(&self) -> Seq<WordView> {
        views(self.words@)
    }
}

impl Clone for Dictionary {
    fn clone(&self) -> (r: Self)
        ensures
            r@ == self@,
    {
        let mut words: Vec<Word> = Vec::new();
        let mut i: usize = 0;
        while i < self.words.len()
            invariant
                i <= self.words.len(),
                words@ == self.words@.take(i as int),
            decreases self.words.len() - i,
        {
            words.push(self.words[i].clone());
            assert(self.words@.take(i as int + 1) =~= self.words@.take(i as int).push(
                self.words@[i as int],
            ));
            i += 1;
        }
        assert(self.words@.take(self.words.len() as int) =~= self.words@);
        Dictionary { words }
    }
}

impl Default for Dictionary {
    fn default() -> (r: Self)
        ensures
            r@.len() == 0,
    {
        Self::new()
    }
}

impl Dictionary {
    /// The words themselves, in their order.
    pub closed spec fn words(&self) -> Seq<Word> {
        self.words@
    }

    /// The view of a dictionary is made of the views of its words.
    pub proof fn lemma_view(&self)
        ensures
            self@ == views(self.words()),
    {
    }

    /// An empty dictionary.
    pub fn new() -> (r: Self)
        ensures
            r@.len() == 0,
    {
        Dictionary { words: Vec::new() }
    }

    /// A dictionary of the given pairs of a word and its transcription.
    pub fn from_entries(entries: &[(&str, &str)]) -> (r: Self)
        ensures
            r@ == entry_views(entries@),
    {
        let mut res = Self::new();
        res.extend(entries);
        assert(res@ =~= entry_views(entries@));
        res
    }

    /// Replaces the transcription of every word by its normal form.
    pub fn normalize(&mut self)
        ensures
            final(self)@ == old(self)@.map_values(
                |w: WordView| WordView { word: w.word, phonemes: normalized(w.phonemes) },
            ),
    {
        let ghost before = self@;
        let n = self.words.len();
        let mut i: usize = 0;
        while i < n
            invariant
                n == self.words.len(),
                before.len() == n,
                i <= n,
                forall|j: int|
                    0 <= j < i ==> (#[trigger] self.words@[j])@ == (WordView {
                        word: before[j].word,
                        phonemes: normalized(before[j].phonemes),
                    }),
                forall|j: int| i <= j < n ==> (#[trigger] self.words@[j])@ == before[j],
            decreases n - i,
        {
            self.words[i].normalize_phonemes();
            i += 1;
        }
        assert(self@ =~= before.map_values(
            |w: WordView| WordView { word: w.word, phonemes: normalized(w.phonemes) },
        ));
    }

    /// Appends a word with its transcription.
    pub fn add(&mut self, word: &str, phonemes: &str)
        ensures
            final(self)@ == old(self)@.push(WordView { word: word@, phonemes: phonemes@ }),
    {
        self.words.push(Word::new(word, phonemes));
        assert(self@ =~= old(self)@.push(WordView { word: word@, phonemes: phonemes@ }));
    }

    /// Appends the given pairs of a word and its transcription, in their order.
    pub fn extend(&mut self, entries: &[(&str, &str)])
        ensures
            final(self)@ == old(self)@ + entry_views(entries@),
    {
        let n = entries.len();
        let mut i: usize = 0;
        while i < n
            invariant
                n == entries@.len(),
                i <= n,
                self@ == old(self)@ + entry_views(entries@.take(i as int)),
            decreases n - i,
        {
            let (word, phonemes) = entries[i];
            self.add(word, phonemes);
            assert(entries@.take(i as int + 1) =~= entries@.take(i as int).push(entries@[i as int]));
            assert(self@ =~= old(self)@ + entry_views(entries@.take(i as int + 1)));
            i += 1;
        }
        assert(entries@.take(n as int) =~= entries@);
    }

    /// Walks the words in their order.
    pub fn iter(&self) -> (r: std::slice::Iter<'_, Word>)
        ensures
            r.remaining() == self.words().as_ref(),
    {
        self.words.iter()
    }

    /// Gives the words up, in their order.
    pub fn into_iter(self) -> (r: std::vec::IntoIter<Word>)
        ensures
            r.remaining() == self.words(),
    {
        self.words.into_iter()
    }

    /// The number of words.
    pub fn len(&self) -> (r: usize)
        ensures
            r == self@.len(),
    {
        self.words.len()
    }

    /// The word at `index`.
    pub fn get(&self, index: usize) -> (r: Option<&Word>)
        ensures
            index < self@.len() ==> r == Some(&self.words()[index as int]),
            index >= self@.len() ==> r is None,
    {
        if index < self.words.len() {
            Some(&self.words[index])
        } else {
            None
        }
    }

    /// Starts a search for the words that are similar to `word`. The search
    /// begins at the first word of the dictionary.
    pub fn find_similar<'a>(&'a self, word: &'a Word, max_distance: usize) -> (r:
        WordSearchIterator<'a>)
        ensures
            r.dictionary() == self,
            r.query() == word,
            r.max_distance() == max_distance,
            r.position() == 0,
            r.remaining() == similar_words(self@, word@, max_distance as nat),
    {
        assert(self@.skip(0) =~= self@);
        WordSearchIterator { dict: self, word, max_distance, index: 0 }
    }
}

/// A search through a dictionary for the words similar to one word. It walks
/// the dictionary once, from the first word to the last, and cannot start over.
pub struct WordSearchIterator<'a> {
    word: &'a Word,
    dict: &'a Dictionary,
    max_distance: usize,
    index: usize,
}

impl<'a> WordSearchIterator<'a> {
    /// The dictionary that is searched.
    pub closed spec fn dictionary(&self) -> &'a Dictionary {
        self.dict
    }

    /// The word whose likes are looked for.
    pub closed spec fn query(&self) -> &'a Word {
        self.word
    }

    /// The greatest distance at which two words count as similar.
    pub closed spec fn max_distance(&self) -> usize {
        self.max_distance
    }

    /// How many words of the dictionary the search has passed.
    pub closed spec fn position(&self) -> nat {
        if self.index <= self.dict.words@.len() {
            self.index as nat
        } else {
            self.dict.words@.len()
        }
    }

    /// The words that the search has yet to give out.
    pub open spec fn remaining(&self) -> Seq<WordView> {
        similar_words(
            self.dictionary()@.skip(self.position() as int),
            self.query()@,
            self.max_distance() as nat,
        )
    }

    /// Gives out the next similar word: the first one at or after the current
    /// position. The search then stands just behind that word. Where no such
    /// word is left, the result is `None` and the search is at its end.
    pub fn next(&mut self) -> (r: Option<&'a Word>)
        ensures
            final(self).dictionary() == old(self).dictionary(),
            final(self).query() == old(self).query(),
            final(self).max_distance() == old(self).max_distance(),
            ({
                let words = old(self).dictionary()@;
                let found = next_match(
                    words,
                    old(self).query()@,
                    old(self).max_distance() as nat,
                    old(self).position() as int,
                );
                if found < words.len() {
                    &&& r == Some(&old(self).dictionary().words()[found])
                    &&& final(self).position() == found + 1
                    &&& old(self).remaining() == seq![words[found]] + final(self).remaining()
                } else {
                    &&& r is None
                    &&& final(self).position() == words.len()
                    &&& old(self).remaining().len() == 0
                    &&& final(self).remaining().len() == 0
                }
            }),
    {
        let dict: &'a Dictionary = self.dict;
        let n = dict.words.len();
        let ghost words = dict@;
        let ghost query = self.word@;
        let ghost d = self.max_distance as nat;
        let ghost start = self.position() as int;
        let mut i: usize = if self.index <= n {
            self.index
        } else {
            n
        };
        while i < n
            invariant
                n == dict.words@.len(),
                words == dict@,
                dict == self.dict,
                query == self.word@,
                d == self.max_distance as nat,
                start == old(self).position(),
                start <= i <= n,
                *self == *old(self),
                next_match(words, query, d, start) == next_match(words, query, d, i as int),
                similar_words(words.skip(start), query, d) == similar_words(
                    words.skip(i as int),
                    query,
                    d,
                ),
            decreases n - i,
        {
            proof {
                lemma_similar_words_step(words, query, d, i as int);
            }
            assert(words[i as int] == dict.words@[i as int]@);
            if dict.words[i].is_similar(self.word, self.max_distance) {
                self.index = i + 1;
                assert(next_match(words, query, d, i as int) == i);
                assert(self.position() == i + 1);
                return Some(&dict.words[i]);
            }
            i += 1;
        }
        self.index = usize::MAX;
        proof {
            assert(words.skip(n as int) =~= Seq::<WordView>::empty());
            reveal(Seq::filter);
        }
        None
    }
}

/// The similar words from `from` on are the word at `from`, if it is similar,
/// followed by the similar words after it.
pub proof fn lemma_similar_words_step(
    words: Seq<WordView>,
    query: WordView,
    max_distance: nat,
    from: int,
)
    requires
        0 <= from < words.len(),
    ensures
        similar_words(words.skip(from), query, max_distance) == (if similar(
            words[from],
            query,
            max_distance,
        ) {
            seq![words[from]]
        } else {
            Seq::empty()
        }) + similar_words(words.skip(from + 1), query, max_distance),
{
    let pred = |w: WordView| similar(w, query, max_distance);
    assert(words.skip(from) =~= seq![words[from]] + words.skip(from + 1));
    words.skip(from + 1).lemma_filter_prepend(words[from], pred);
}

/// The next match is found at or after the place where the search starts.
pub proof fn lemma_next_match_bounds(
    words: Seq<WordView>,
    query: WordView,
    max_distance: nat,
    from: int,
)
    requires
        0 <= from,
    ensures
        from <= next_match(words, query, max_distance, from) || next_match(
            words,
            query,
            max_distance,
            from,
        ) == words.len(),
        0 <= next_match(words, query, max_distance, from) <= words.len() || from > words.len(),
        next_match(words, query, max_distance, from) < words.len() ==> similar(
            words[next_match(words, query, max_distance, from)],
            query,
            max_distance,
        ),
    decreases words.len() - from,
{
    if from < words.len() && !similar(words[from], query, max_distance) {
        lemma_next_match_bounds(words, query, max_distance, from + 1);
    }
}

/// One line of a search: `word`, then the words of `others` that are similar
/// to it and are not `word` itself.
pub open spec fn search_line(word: WordView, others: Seq<WordView>, max_distance: nat) -> Seq<
    WordView,
> {
    seq![word] + similar_words(others, word, max_distance).filter(|w: WordView| w != word)
}

/// The lines of a search for the likes of each of `words` among `others`: one
/// line for each word that has a like, in the order of `words`.
pub open spec fn search_lines(words: Seq<WordView>, others: Seq<WordView>, max_distance: nat) -> Seq<
    Seq<WordView>,
> {
    words.map_values(|w: WordView| search_line(w, others, max_distance)).filter(
        |l: Seq<WordView>| l.len() > 1,
    )
}

/// The views of the words of a line.
pub open spec fn line_views(line: Seq<&Word>) -> Seq<WordView> {
    line.map_values(|w: &Word| w@)
}

/// The views of the words of some lines.
pub open spec fn lines_views(lines: Seq<Vec<&Word>>) -> Seq<Seq<WordView>> {
    lines.map_values(|l: Vec<&Word>| line_views(l@))
}

/// Looks, for each word of `dict`, for the words of `dict2` that are similar
/// to it. A word that has a like other than itself gives a line: the word,
/// then its likes in the order of `dict2`.
pub fn search<'a>(dict: &'a Dictionary, dict2: &'a Dictionary, max_distance: usize) -> (r: Vec<
    Vec<&'a Word>,
>)
    ensures
        lines_views(r@) == search_lines(dict@, dict2@, max_distance as nat),
{
    let mut res: Vec<Vec<&'a Word>> = Vec::new();
    let n = dict.words.len();
    let mut i: usize = 0;
    let ghost d = max_distance as nat;
    let ghost make = |w: WordView| search_line(w, dict2@, d);
    let ghost long = |l: Seq<WordView>| l.len() > 1;
    proof {
        assert(dict@.take(0).map_values(make) =~= Seq::<Seq<WordView>>::empty());
        dict@.take(0).map_values(make).lemma_filter_len(long);
        assert(lines_views(res@) =~= dict@.take(0).map_values(make).filter(long));
    }
    while i < n
        invariant
            n == dict.words@.len(),
            i <= n,
            d == max_distance as nat,
            make == |w: WordView| search_line(w, dict2@, d),
            long == |l: Seq<WordView>| l.len() > 1,
            lines_views(res@) == dict@.take(i as int).map_values(make).filter(long),
        decreases n - i,
    {
        let word = &dict.words[i];
        let ghost other = |w: WordView| w != word@;
        let mut it = dict2.find_similar(word, max_distance);
        let mut line: Vec<&'a Word> = Vec::new();
        line.push(word);
        let ghost given = Seq::<WordView>::empty();
        let mut next = it.next();
        proof {
            given.lemma_filter_len(other);
            assert(line_views(line@) =~= seq![word@] + given.filter(other));
            assert(given + similar_words(dict2@, word@, d) =~= similar_words(dict2@, word@, d));
        }
        while next.is_some()
            invariant
                it.dictionary() == dict2,
                it.query() == word,
                it.max_distance() == max_distance,
                d == max_distance as nat,
                other == |w: WordView| w != word@,
                similar_words(dict2@, word@, d) == given + (match next {
                    Some(w) => seq![w@] + it.remaining(),
                    None => Seq::empty(),
                }),
                line_views(line@) == seq![word@] + given.filter(other),
            decreases it.remaining().len() + (if next.is_some() { 1int } else { 0int }),
        {
            let w = next.unwrap();
            let ghost before = given;
            proof {
                given = given.push(w@);
                before.lemma_filter_push(w@, other);
            }
            let ghost shown = line_views(line@);
            if !(*w == *word) {
                line.push(w);
                assert(other(w@));
                assert(line_views(line@) =~= shown.push(w@));
                assert(line_views(line@) =~= seq![word@] + given.filter(other));
            } else {
                assert(!other(w@));
            }
            let ghost rest = it.remaining();
            let ghost from = it.position() as int;
            let ghost found = next_match(dict2@, word@, d, from);
            next = it.next();
            proof {
                assert(before + (seq![w@] + rest) =~= given + rest);
                match next {
                    Some(v) => {
                        lemma_next_match_bounds(dict2@, word@, d, from);
                        assert(dict2@[found] == dict2.words@[found]@);
                        assert(v@ == dict2@[found]);
                        assert(rest == seq![v@] + it.remaining());
                    },
                    None => {
                        assert(rest =~= Seq::<WordView>::empty());
                        assert(given + rest =~= given + Seq::<WordView>::empty());
                    },
                }
            }
        }
        proof {
            assert(given + Seq::<WordView>::empty() =~= given);
            assert(line_views(line@) == search_line(word@, dict2@, d));
            assert(dict@[i as int] == word@);
            assert(dict@.take(i + 1) =~= dict@.take(i as int).push(word@));
            assert(dict@.take(i + 1).map_values(make) =~= dict@.take(i as int).map_values(
                make,
            ).push(make(word@)));
            dict@.take(i as int).map_values(make).lemma_filter_push(make(word@), long);
        }
        if line.len() > 1 {
            let ghost lines = lines_views(res@);
            res.push(line);
            assert(lines_views(res@) =~= lines.push(line_views(line@)));
        }
        i += 1;
    }
    proof {
        assert(dict@.take(n as int) =~= dict@);
    }
    res
}

} // verus!
