//! Languages and the voices that can speak them.
use crate::text::str_eq;
use vstd::prelude::*;
use vstd::std_specs::iter::IteratorSpec;
use vstd::string::*;

verus! {

/// A language that a voice speaks, with the priority of the voice for it.
#[derive(Debug)]
pub struct VoiceLanguage {
    pub name: String,
    pub priority: i8,
}

/// A voice as the speech synthesizer describes it: the file that defines it
/// and the languages it speaks.
#[derive(Debug)]
pub struct Voice {
    pub filename: String,
    pub languages: Vec<VoiceLanguage>,
}

/// A voice for one language.
#[derive(Debug)]
pub struct EspeakVoice {
    filename: String,
    priority: i8,
}

/// What an [`EspeakVoice`] stands for.
pub struct VoiceView {
    pub filename: Seq<char>,
    pub priority: i8,
}

/// A language with its voices, the voice of the highest priority first.
#[derive(Debug)]
pub struct Language {
    name: String,
    espeak_voices: Vec<EspeakVoice>,
}

/// What a [`Language`] stands for.
pub struct LanguageView {
    pub name: Seq<char>,
    pub voices: Seq<VoiceView>,
}

/// The languages that have a voice, in the order in which they were first named.
#[derive(Debug)]
pub struct Languages {
    languages: Vec<Language>,
}

/// No voice is known for a language.
#[derive(Debug)]
pub struct NoVoiceForLanguage {
    pub language: String,
}

/// The number of bytes that a text takes, as a string tells it.
pub open spec fn byte_len(s: Seq<char>) -> usize {
    vstd::utf8::encode_utf8(s).len() as usize
}

/// The greater of `min_width` and the greatest number of bytes that the
/// file name of one of `voices` takes.
pub open spec fn voices_width(voices: Seq<VoiceView>, min_width: usize) -> usize
    decreases voices.len(),
{
    if voices.len() == 0 {
        min_width
    } else if voices_width(voices.drop_last(), min_width) >= byte_len(voices.last().filename) {
        voices_width(voices.drop_last(), min_width)
    } else {
        byte_len(voices.last().filename)
    }
}

/// The greater of `min_width` and the greatest number of bytes that the
/// file name of a voice of one of `languages` takes.
pub open spec fn languages_width(languages: Seq<LanguageView>, min_width: usize) -> usize
    decreases languages.len(),
{
    if languages.len() == 0 {
        min_width
    } else {
        voices_width(languages.last().voices, languages_width(languages.drop_last(), min_width))
    }
}

/// The views of a sequence of voices.
pub open spec fn voice_views(voices: Seq<EspeakVoice>) -> Seq<VoiceView> {
    voices.map_values(|v: EspeakVoice| v@)
}

/// The views of a sequence of languages.
pub open spec fn language_views(languages: Seq<Language>) -> Seq<LanguageView> {
    languages.map_values(|l: Language| l@)
}

/// No voice stands behind one of lower priority.
pub open spec fn sorted_by_priority(voices: Seq<VoiceView>) -> bool {
    forall|i: int, j: int|
        0 <= i < j < voices.len() ==> (#[trigger] voices[i]).priority >= (
        #[trigger] voices[j]).priority
}

/// The index of the first voice at or after `from` whose priority is not
/// above `priority`; the number of voices where there is none.
pub open spec fn voice_position(voices: Seq<VoiceView>, priority: i8, from: int) -> int
    decreases voices.len() - from,
{
    if from >= voices.len() {
        voices.len() as int
    } else if voices[from].priority <= priority {
        from
    } else {
        voice_position(voices, priority, from + 1)
    }
}

/// The index of the first language at or after `from` that is named `name`.
pub open spec fn language_index(languages: Seq<LanguageView>, name: Seq<char>, from: int) -> Option<
    int,
>
    decreases languages.len() - from,
{
    if from >= languages.len() {
        None
    } else if languages[from].name == name {
        Some(from)
    } else {
        language_index(languages, name, from + 1)
    }
}

/// The languages after `voice` was added to the language named `name`, which
/// is made, as the last one, where it was not there.
pub open spec fn with_voice(languages: Seq<LanguageView>, name: Seq<char>, voice: VoiceView) -> Seq<
    LanguageView,
> {
    match language_index(languages, name, 0) {
        Some(i) => languages.update(
            i,
            LanguageView {
                name: languages[i].name,
                voices: languages[i].voices.insert(
                    voice_position(languages[i].voices, voice.priority, 0),
                    voice,
                ),
            },
        ),
        None => languages.push(LanguageView { name: name, voices: seq![voice] }),
    }
}

/// The languages after the voice in `filename` was added to each of the
/// languages it speaks.
pub open spec fn with_voice_languages(
    languages: Seq<LanguageView>,
    filename: Seq<char>,
    spoken: Seq<VoiceLanguage>,
) -> Seq<LanguageView>
    decreases spoken.len(),
{
    if spoken.len() == 0 {
        languages
    } else {
        with_voice(
            with_voice_languages(languages, filename, spoken.drop_last()),
            spoken.last().name@,
            VoiceView { filename: filename, priority: spoken.last().priority },
        )
    }
}

/// The languages after each of `voices` was added to the languages it speaks.
pub open spec fn with_voices(languages: Seq<LanguageView>, voices: Seq<Voice>) -> Seq<
    LanguageView,
>
    decreases voices.len(),
{
    if voices.len() == 0 {
        languages
    } else {
        with_voice_languages(
            with_voices(languages, voices.drop_last()),
            voices.last().filename@,
            voices.last().languages@,
        )
    }
}

impl View for EspeakVoice {
    type V = VoiceView;

    closed spec fn view(&self) -> VoiceView {
        VoiceView { filename: self.filename@, priority: self.priority }
    }
}

impl View for Language {
    type V = LanguageView;

    closed spec fn view(&self) -> LanguageView {
        LanguageView { name: self.name@, voices: voice_views(self.espeak_voices@) }
    }
}

impl View for Languages {
    type V = Seq<LanguageView>;

    closed spec fn view(&self) -> Seq<LanguageView> {
        language_views(self.languages@)
    }
}

impl Clone for EspeakVoice {
    fn clone(&self) -> (r: Self)
        ensures
            r@ == self@,
    {
        EspeakVoice { filename: self.filename.clone(), priority: self.priority }
    }
}

impl EspeakVoice {
    /// The voice `voice` as a voice of a language, for which it has the
    /// priority `priority`.
    pub fn new(voice: &Voice, priority: i8) -> (r: Self)
        ensures
            r@ == (VoiceView { filename: voice.filename@, priority: priority }),
    {
        EspeakVoice { filename: voice.filename.clone(), priority }
    }

    /// The file that defines the voice.
    pub fn filename(&self) -> (r: &String)
        ensures
            r@ == self@.filename,
    {
        &self.filename
    }

    /// The priority of the voice.
    pub fn priority(&self) -> (r: i8)
        ensures
            r == self@.priority,
    {
        self.priority
    }
}

impl Language {
    /// The voices of the language stand in the order of their priorities.
    pub open spec fn wf(&self) -> bool {
        sorted_by_priority(self@.voices)
    }

    /// The voices themselves.
    pub closed spec fn voices(&self) -> Seq<EspeakVoice> {
        self.espeak_voices@
    }

    /// The view of a language holds the views of its voices.
    pub proof fn lemma_view(&self)
        ensures
            self@.voices == voice_views(self.voices()),
    {
    }

    /// A language without voices.
    pub fn new(name: &str) -> (r: Self)
        ensures
            r@ == (LanguageView { name: name@, voices: Seq::empty() }),
            r.wf(),
    {
        let r = Language { name: String::from_str(name), espeak_voices: Vec::new() };
        assert(r@.voices =~= Seq::empty());
        r
    }

    /// The name of the language.
    pub fn name(&self) -> (r: &String)
        ensures
            r@ == self@.name,
    {
        &self.name
    }

    /// The voices of the language, the voice of the highest priority first.
    pub fn espeak_voices(&self) -> (r: &Vec<EspeakVoice>)
        ensures
            r@ == self.voices(),
    {
        &self.espeak_voices
    }

    /// The voice of the highest priority, if the language has a voice.
    pub fn default_espeak_voice(&self) -> (r: Option<&EspeakVoice>)
        ensures
            self@.voices.len() == 0 ==> r is None,
            self@.voices.len() > 0 ==> r == Some(&self.voices()[0]),
    {
        if self.espeak_voices.len() > 0 {
            Some(&self.espeak_voices[0])
        } else {
            None
        }
    }

    /// Adds a voice: it comes to stand before the first voice whose priority
    /// is not above its own.
    pub fn add_espeak_voice(&mut self, voice: EspeakVoice)
        requires
            old(self).wf(),
        ensures
            final(self).wf(),
            final(self)@ == (LanguageView {
                name: old(self)@.name,
                voices: old(self)@.voices.insert(
                    voice_position(old(self)@.voices, voice@.priority, 0),
                    voice@,
                ),
            }),
    {
        let ghost voices = self@.voices;
        let ghost p = voice@.priority;
        let mut low: usize = 0;
        let mut high: usize = self.espeak_voices.len();
        while low < high
            invariant
                voices == self@.voices,
                *self == *old(self),
                p == voice@.priority,
                sorted_by_priority(voices),
                low <= high <= voices.len(),
                forall|j: int| 0 <= j < low ==> (#[trigger] voices[j]).priority > p,
                forall|j: int| high <= j < voices.len() ==> (#[trigger] voices[j]).priority <= p,
            decreases high - low,
        {
            let mid = low + (high - low) / 2;
            assert(voices[mid as int] == self.espeak_voices@[mid as int]@);
            if self.espeak_voices[mid].priority > voice.priority {
                assert forall|j: int| 0 <= j < mid + 1 implies (#[trigger] voices[j]).priority
                    > p by {
                    if j < mid {
                        assert(voices[j].priority >= voices[mid as int].priority);
                    }
                }
                low = mid + 1;
            } else {
                assert forall|j: int| mid <= j < voices.len() implies (#[trigger] voices[j]).priority
                    <= p by {
                    if j > mid {
                        assert(voices[mid as int].priority >= voices[j].priority);
                    }
                }
                high = mid;
            }
        }
        proof {
            lemma_voice_position(voices, p, 0, low as int);
        }
        self.espeak_voices.insert(low, voice);
        proof {
            let now = self@.voices;
            assert(now =~= voices.insert(low as int, voice@));
            assert forall|i: int, j: int| 0 <= i < j < now.len() implies (#[trigger] now[i]).priority
                >= (#[trigger] now[j]).priority by {
                let a = if i < low { i } else { i - 1 };
                let b = if j < low { j } else { j - 1 };
                if i != low && j != low {
                    assert(voices[a].priority >= voices[b].priority);
                } else if i == low {
                    assert(voices[b].priority <= p);
                } else {
                    assert(voices[a].priority > p);
                }
            }
        }
    }

    /// Tells whether the language is named `name`.
    pub fn is(&self, name: &str) -> (r: bool)
        ensures
            r == (self@.name == name@),
    {
        str_eq(self.name.as_str(), name)
    }
}

impl Default for Languages {
    fn default() -> (r: Self)
        ensures
            r@.len() == 0,
            r.wf(),
    {
        Self::new()
    }
}

impl Languages {
    /// The languages themselves.
    pub closed spec fn languages(&self) -> Seq<Language> {
        self.languages@
    }

    /// The voices of every language stand in the order of their priorities.
    pub open spec fn wf(&self) -> bool {
        forall|i: int| 0 <= i < self.languages().len() ==> (#[trigger] self.languages()[i]).wf()
    }

    /// The view of the languages is made of the views of each.
    pub proof fn lemma_view(&self)
        ensures
            self@ == language_views(self.languages()),
    {
    }

    /// No languages.
    pub fn new() -> (r: Self)
        ensures
            r@.len() == 0,
            r.wf(),
    {
        Languages { languages: Vec::new() }
    }

    /// The index of the first language named `language`.
    pub fn index(&self, language: &str) -> (r: Option<usize>)
        ensures
            match r {
                Some(i) => language_index(self@, language@, 0) == Some(i as int),
                None => language_index(self@, language@, 0) is None,
            },
            r matches Some(i) ==> i < self@.len() && self@[i as int].name == language@,
    {
        let n = self.languages.len();
        let mut i: usize = 0;
        while i < n
            invariant
                n == self.languages.len(),
                i <= n,
                language_index(self@, language@, 0) == language_index(self@, language@, i as int),
            decreases n - i,
        {
            assert(self@[i as int] == self.languages@[i as int]@);
            if self.languages[i].is(language) {
                return Some(i);
            }
            i += 1;
        }
        None
    }

    /// The first language named `language`.
    pub fn get(&self, language: &str) -> (r: Option<&Language>)
        ensures
            match language_index(self@, language@, 0) {
                Some(i) => 0 <= i < self@.len() && r == Some(&self.languages()[i]),
                None => r is None,
            },
    {
        match self.index(language) {
            Some(i) => Some(&self.languages[i]),
            None => None,
        }
    }

    /// The index of the first language named `language`, which is made, as
    /// the last one and without voices, where there is none.
    fn get_or_create(&mut self, language: &str) -> (r: usize)
        requires
            old(self).wf(),
        ensures
            final(self).wf(),
            r < final(self)@.len(),
            final(self)@[r as int].name == language@,
            match language_index(old(self)@, language@, 0) {
                Some(i) => r == i && final(self).languages() == old(self).languages(),
                None => r == old(self)@.len() && final(self)@ == old(self)@.push(
                    LanguageView { name: language@, voices: Seq::empty() },
                ) && final(self).languages().take(r as int) == old(self).languages(),
            },
    {
        match self.index(language) {
            Some(i) => i,
            None => {
                let n = self.languages.len();
                self.languages.push(Language::new(language));
                assert(self@ =~= old(self)@.push(
                    LanguageView { name: language@, voices: Seq::empty() },
                ));
                assert(self.languages().take(n as int) =~= old(self).languages());
                n
            },
        }
    }

    /// The first language named `language`, which is made, as the last one
    /// and without voices, where there is none. What the caller does to the
    /// language shows in the languages.
    pub fn get_or_create_mut(&mut self, language: &str) -> (r: &mut Language)
        requires
            old(self).wf(),
        ensures
            match language_index(old(self)@, language@, 0) {
                Some(i) => {
                    &&& 0 <= i < old(self)@.len()
                    &&& *r == old(self).languages()[i]
                    &&& final(self).languages() == old(self).languages().update(i, *final(r))
                },
                None => {
                    &&& r@ == (LanguageView { name: language@, voices: Seq::empty() })
                    &&& final(self).languages() == old(self).languages().push(*final(r))
                },
            },
            r.wf(),
    {
        let i = self.get_or_create(language);
        &mut self.languages[i]
    }

    /// Adds `voice` to the language named `language`, which is made where it
    /// was not there.
    pub fn add_voice(&mut self, language: &str, voice: EspeakVoice)
        requires
            old(self).wf(),
        ensures
            final(self).wf(),
            final(self)@ == with_voice(old(self)@, language@, voice@),
    {
        let ghost before = self@;
        let ghost found = language_index(before, language@, 0);
        let i = self.get_or_create(language);
        let ghost mid = self@;
        let ghost mid_languages = self.languages();
        self.languages[i].add_espeak_voice(voice);
        proof {
            assert forall|k: int| 0 <= k < self.languages().len() implies (
            #[trigger] self.languages()[k]).wf() by {
                if k != i {
                    assert(self.languages()[k] == mid_languages[k]);
                }
            }
            match found {
                Some(at) => {
                    assert(self@ =~= with_voice(before, language@, voice@));
                },
                None => {
                    assert(voice_position(Seq::<VoiceView>::empty(), voice@.priority, 0) == 0);
                    assert(Seq::<VoiceView>::empty().insert(0, voice@) =~= seq![voice@]);
                    assert(self@ =~= with_voice(before, language@, voice@));
                },
            }
        }
    }

    /// The languages of the given voices: each voice is added, in the order
    /// of the voices, to each of the languages it speaks.
    pub fn from_voices(voices: &Vec<Voice>) -> (r: Self)
        ensures
            r.wf(),
            r@ == with_voices(Seq::empty(), voices@),
    {
        let mut res = Self::new();
        let n = voices.len();
        let mut i: usize = 0;
        assert(res@ =~= Seq::empty());
        while i < n
            invariant
                n == voices.len(),
                i <= n,
                res.wf(),
                res@ == with_voices(Seq::empty(), voices@.take(i as int)),
            decreases n - i,
        {
            let voice = &voices[i];
            let m = voice.languages.len();
            let mut j: usize = 0;
            let ghost start = res@;
            while j < m
                invariant
                    m == voice.languages.len(),
                    j <= m,
                    res.wf(),
                    res@ == with_voice_languages(
                        start,
                        voice.filename@,
                        voice.languages@.take(j as int),
                    ),
                decreases m - j,
            {
                let language = &voice.languages[j];
                proof {
                    assert(voice.languages@.take(j + 1).drop_last() =~= voice.languages@.take(
                        j as int,
                    ));
                }
                res.add_voice(language.name.as_str(), EspeakVoice::new(voice, language.priority));
                j += 1;
            }
            proof {
                assert(voice.languages@.take(m as int) =~= voice.languages@);
                assert(voices@.take(i + 1).drop_last() =~= voices@.take(i as int));
            }
            i += 1;
        }
        proof {
            assert(voices@.take(n as int) =~= voices@);
        }
        res
    }

    /// The file of the voice of the highest priority for the language named
    /// `language`; an error where no such language is known or it has no
    /// voice.
    pub fn default_voice(&self, language: &str) -> (r: Result<String, NoVoiceForLanguage>)
        ensures
            match language_index(self@, language@, 0) {
                Some(i) => if 0 <= i < self@.len() && self@[i].voices.len() > 0 {
                    r matches Ok(file) && file@ == self@[i].voices[0].filename
                } else {
                    r matches Err(e) && e.language@ == language@
                },
                None => r matches Err(e) && e.language@ == language@,
            },
    {
        match self.get(language) {
            Some(l) => {
                match l.default_espeak_voice() {
                    Some(v) => {
                        proof {
                            let i = language_index(self@, language@, 0)->0;
                            assert(self@[i] == self.languages@[i]@);
                            assert(l@.voices[0] == l.espeak_voices@[0]@);
                        }
                        return Ok(v.filename().clone());
                    },
                    None => {},
                }
            },
            None => {},
        }
        proof {
            match language_index(self@, language@, 0) {
                Some(i) => {
                    assert(self@[i] == self.languages@[i]@);
                },
                None => {},
            }
        }
        Err(NoVoiceForLanguage { language: String::from_str(language) })
    }

    /// The width of the columns of a table of the voices: the number of
    /// bytes of the longest file name of a voice, and `min_width` at least.
    pub fn filename_width(&self, min_width: usize) -> (r: usize)
        ensures
            r == languages_width(self@, min_width),
    {
        let mut width = min_width;
        let n = self.languages.len();
        let mut i: usize = 0;
        assert(self@.take(0) =~= Seq::<LanguageView>::empty());
        while i < n
            invariant
                n == self.languages.len(),
                i <= n,
                width == languages_width(self@.take(i as int), min_width),
            decreases n - i,
        {
            let language = &self.languages[i];
            let ghost start = width;
            let ghost voices = language@.voices;
            let m = language.espeak_voices.len();
            let mut j: usize = 0;
            assert(voices.take(0) =~= Seq::<VoiceView>::empty());
            while j < m
                invariant
                    m == language.espeak_voices.len(),
                    j <= m,
                    voices == language@.voices,
                    width == voices_width(voices.take(j as int), start),
                decreases m - j,
            {
                let l = language.espeak_voices[j].filename.as_str().len();
                proof {
                    assert(voices.take(j + 1).drop_last() =~= voices.take(j as int));
                    assert(voices.take(j + 1).last() == language.espeak_voices@[j as int]@);
                }
                if l > width {
                    width = l;
                }
                j += 1;
            }
            proof {
                assert(voices.take(m as int) =~= voices);
                assert(self@.take(i + 1).drop_last() =~= self@.take(i as int));
                assert(self@.take(i + 1).last() == language@);
            }
            i += 1;
        }
        assert(self@.take(n as int) =~= self@);
        width
    }

    /// Walks the languages in their order.
    pub fn iter(&self) -> (r: std::slice::Iter<'_, Language>)
        ensures
            r.remaining() == self.languages().as_ref(),
    {
        self.languages.iter()
    }

    /// The number of languages.
    pub fn len(&self) -> (r: usize)
        ensures
            r == self@.len(),
    {
        self.languages.len()
    }

    /// Tells whether there is no language.
    pub fn is_empty(&self) -> (r: bool)
        ensures
            r == (self@.len() == 0),
    {
        self.languages.len() == 0
    }
}

/// Tells whether the language of the text has to be found out: neither a
/// voice nor a language was asked for.
pub fn needs_detection(voice: Option<&str>, language: Option<&str>) -> (r: bool)
    ensures
        r == (voice is None && language is None),
{
    voice.is_none() && language.is_none()
}

/// Where the voices before `at` have priorities above `priority` and the
/// voice at `at`, if there is one, has not, `at` is the position for it.
pub proof fn lemma_voice_position(voices: Seq<VoiceView>, priority: i8, from: int, at: int)
    requires
        0 <= from <= at <= voices.len(),
        forall|j: int| from <= j < at ==> (#[trigger] voices[j]).priority > priority,
        at < voices.len() ==> voices[at].priority <= priority,
    ensures
        voice_position(voices, priority, from) == at,
    decreases at - from,
{
    if from < at {
        lemma_voice_position(voices, priority, from + 1, at);
    }
}

} // verus!
