//! What a search for similar words works on: the dictionaries, read from the
//! lines of word lists, and the distance up to which words count as similar.
use crate::dictionary::{line_views, lines_views, search, search_lines, Dictionary, WordView};
use crate::phoneme::normalized;
use crate::text::texts;
use crate::util::{to_tsv_pair, tsv_pair};
use crate::word_groups::{
    canonical_groups, candidates, cross_candidates, group_texts, WordGroups,
};
use unicode_segmentation::UnicodeSegmentation;
use vstd::prelude::*;
use vstd::string::*;

verus! {

/// The number of extended grapheme clusters of a word, as the crate
/// `unicode_segmentation` counts them.
pub uninterp spec fn grapheme_clusters(word: Seq<char>) -> nat;

/// Trusted: `UnicodeSegmentation::graphemes` of the crate
/// `unicode_segmentation`, asked for extended clusters, and counted.
#[verifier::external_body]
fn grapheme_count(word: &str) -> (r: usize)
    ensures
        r == grapheme_clusters(word@),
{
    UnicodeSegmentation::graphemes(word, true).count()
}

/// Every length lies between the two bounds.
pub open spec fn unbounded(min: usize, max: usize) -> bool {
    min == 0 && max == usize::MAX
}

/// Tells whether a word of `length` grapheme clusters is as long as asked:
/// not shorter than `min_length` and not longer than `max_length`.
pub fn length_allowed(length: usize, min_length: usize, max_length: usize) -> (r: bool)
    ensures
        r == (min_length <= length <= max_length),
{
    min_length <= length && length <= max_length
}

/// The words that the lines of a word list give: one for each line that holds
/// a key and a value and whose key is as long as asked.
pub open spec fn loaded(lines: Seq<Seq<char>>, min_length: usize, max_length: usize) -> Seq<
    WordView,
>
    decreases lines.len(),
{
    if lines.len() == 0 {
        Seq::empty()
    } else {
        match tsv_pair(lines.last()) {
            Some((key, value)) => if unbounded(min_length, max_length) || min_length
                <= grapheme_clusters(key) <= max_length {
                loaded(lines.drop_last(), min_length, max_length).push(
                    WordView { word: key, phonemes: value },
                )
            } else {
                loaded(lines.drop_last(), min_length, max_length)
            },
            None => loaded(lines.drop_last(), min_length, max_length),
        }
    }
}

/// Each word with its transcription in normal form.
pub open spec fn normalized_words(words: Seq<WordView>) -> Seq<WordView> {
    words.map_values(|w: WordView| WordView { word: w.word, phonemes: normalized(w.phonemes) })
}

/// The words of a line of results.
pub open spec fn written(line: Seq<WordView>) -> Seq<Seq<char>> {
    line.map_values(|w: WordView| w.word)
}

/// What a search works on.
pub struct Options {
    pub dict: Dictionary,
    pub dict2: Option<Dictionary>,
    pub max_distance: usize,
}

impl Options {
    /// Tells whether a search can work on `count` word lists: it takes one,
    /// or two, or none, for which the input is read.
    pub fn accepts_files(count: usize) -> (r: bool)
        ensures
            r == (count <= 2),
    {
        count <= 2
    }

    /// Reads a dictionary from the lines of a word list. Lines that hold no
    /// key and value are passed over, and so are words shorter than
    /// `min_length` or longer than `max_length`, counted in grapheme clusters.
    pub fn load_dict(lines: &Vec<String>, min_length: usize, max_length: usize) -> (r: Dictionary)
        ensures
            r@ == loaded(texts(lines@), min_length, max_length),
    {
        let mut res = Dictionary::new();
        let filter_word_length = !(min_length == 0 && max_length == usize::MAX);
        let n = lines.len();
        let mut i: usize = 0;
        let ghost all = texts(lines@);
        assert(res@ =~= loaded(all.take(0), min_length, max_length));
        while i < n
            invariant
                n == lines.len(),
                i <= n,
                all == texts(lines@),
                filter_word_length == !unbounded(min_length, max_length),
                res@ == loaded(all.take(i as int), min_length, max_length),
            decreases n - i,
        {
            proof {
                assert(all.take(i + 1).drop_last() =~= all.take(i as int));
                assert(all.take(i + 1).last() == lines@[i as int]@);
            }
            match to_tsv_pair(lines[i].as_str()) {
                Some((word, phonemes)) => {
                    if !filter_word_length || length_allowed(
                        grapheme_count(word),
                        min_length,
                        max_length,
                    ) {
                        res.add(word, phonemes);
                    }
                },
                None => {},
            }
            i += 1;
        }
        assert(all.take(n as int) =~= all);
        res
    }

    /// Reads the dictionaries from the lines of one or two word lists, and
    /// brings their transcriptions to normal form if `normalize` is set.
    pub fn from_args(
        lines: &Vec<String>,
        lines2: Option<&Vec<String>>,
        normalize: bool,
        min_word_length: usize,
        max_word_length: usize,
        max_distance: usize,
    ) -> (r: Self)
        ensures
            r.max_distance == max_distance,
            r.dict@ == (if normalize {
                normalized_words(loaded(texts(lines@), min_word_length, max_word_length))
            } else {
                loaded(texts(lines@), min_word_length, max_word_length)
            }),
            lines2 is None <==> r.dict2 is None,
            lines2 matches Some(l) ==> r.dict2->0@ == (if normalize {
                normalized_words(loaded(texts(l@), min_word_length, max_word_length))
            } else {
                loaded(texts(l@), min_word_length, max_word_length)
            }),
    {
        let mut dict = Self::load_dict(lines, min_word_length, max_word_length);
        let mut dict2 = match lines2 {
            Some(l) => Some(Self::load_dict(l, min_word_length, max_word_length)),
            None => None,
        };
        if normalize {
            dict.normalize();
            dict2 = match dict2 {
                Some(mut d) => {
                    d.normalize();
                    Some(d)
                },
                None => None,
            };
        }
        Options { dict, dict2, max_distance }
    }

    /// The second dictionary, or the first where there is no second.
    pub open spec fn others(&self) -> Seq<WordView> {
        match self.dict2 {
            Some(d) => d@,
            None => self.dict@,
        }
    }

    /// The lines of results. With the distance zero they are the groups of
    /// words with the same transcription: from both dictionaries where there
    /// are two, otherwise from the one. With a greater distance there is a
    /// line for each word of the first dictionary that has a like in the
    /// second, or in the first where there is no second.
    pub fn results(self) -> (r: Vec<Vec<String>>)
        ensures
            self.max_distance == 0 ==> group_texts(r@) == (match self.dict2 {
                Some(d) => canonical_groups(cross_candidates(self.dict@, d@)),
                None => canonical_groups(candidates(self.dict@)),
            }),
            self.max_distance > 0 ==> group_texts(r@) == search_lines(
                self.dict@,
                self.others(),
                self.max_distance as nat,
            ).map_values(|l: Seq<WordView>| written(l)),
    {
        if self.max_distance == 0 {
            let groups = match self.dict2 {
                Some(dict2) => WordGroups::from_dicts(self.dict, dict2),
                None => WordGroups::from_dict(self.dict),
            };
            proof {
                groups.lemma_view();
            }
            groups.into_groups()
        } else {
            let lines = match &self.dict2 {
                Some(dict2) => search(&self.dict, dict2, self.max_distance),
                None => search(&self.dict, &self.dict, self.max_distance),
            };
            let mut res: Vec<Vec<String>> = Vec::new();
            let n = lines.len();
            let mut i: usize = 0;
            while i < n
                invariant
                    n == lines.len(),
                    i <= n,
                    res@.len() == i,
                    forall|k: int|
                        0 <= k < i ==> texts((#[trigger] res@[k])@) == written(
                            line_views(lines@[k]@),
                        ),
                decreases n - i,
            {
                let line = &lines[i];
                let mut words: Vec<String> = Vec::new();
                let m = line.len();
                let mut j: usize = 0;
                while j < m
                    invariant
                        m == line.len(),
                        j <= m,
                        words@.len() == j,
                        forall|k: int| 0 <= k < j ==> (#[trigger] words@[k])@ == line@[k]@.word,
                    decreases m - j,
                {
                    words.push(line[j].to_string());
                    j += 1;
                }
                assert(texts(words@) =~= written(line_views(line@)));
                res.push(words);
                i += 1;
            }
            assert(group_texts(res@) =~= lines_views(lines@).map_values(
                |l: Seq<WordView>| written(l),
            ));
            res
        }
    }
}

} // verus!
