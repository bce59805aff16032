use vstd::prelude::*;
use unicode_segmentation::UnicodeSegmentation;
use crate::similarity::texts;

verus! {

#[verifier::external_type_specification]
#[verifier::external_body]
pub struct ExStemmer(rust_stemmers::Stemmer);

/// Sentences of a text, by Unicode sentence boundaries.
pub uninterp spec fn sentences_of(text: Seq<char>) -> Seq<Seq<char>>;

/// Words of a sentence, by Unicode word boundaries.
pub uninterp spec fn words_of(sentence: Seq<char>) -> Seq<Seq<char>>;

/// Lower-case form of a word.
pub uninterp spec fn lower_of(word: Seq<char>) -> Seq<char>;

/// Stem of a word under the English Snowball stemmer.
pub uninterp spec fn english_stem_of(word: Seq<char>) -> Seq<char>;

/// Stop-word list for a language code.
pub uninterp spec fn stop_words_of(code: Seq<char>) -> Seq<Seq<char>>;

/// Relies on unicode_segmentation's `unicode_sentences`: the text split at
/// Unicode sentence boundaries, a function of the text alone.
#[verifier::external_body]
fn split_sentences(text: &str) -> (r: Vec<String>)
    ensures
        texts(r@) == sentences_of(text@),
{
    text.unicode_sentences().map(|s| s.to_string()).collect()
}

/// Relies on unicode_segmentation's `unicode_words`: the words of the sentence,
/// punctuation and spaces left out, a function of the sentence alone.
#[verifier::external_body]
fn split_words(sentence: &str) -> (r: Vec<String>)
    ensures
        texts(r@) == words_of(sentence@),
{
    sentence.unicode_words().map(|s| s.to_string()).collect()
}

/// Relies on `str::to_lowercase`: a function of the characters alone.
#[verifier::external_body]
fn lowercase(word: &str) -> (r: String)
    ensures
        r@ == lower_of(word@),
{
    word.to_lowercase()
}

/// Relies on `stop_words::get`: the fixed word list of a known language code.
#[verifier::external_body]
fn stop_words(code: &str) -> (r: Vec<String>)
    requires
        code@ == seq!['e', 'n'],
    ensures
        texts(r@) == stop_words_of(code@),
{
    stop_words::get(code).iter().map(|w| w.to_string()).collect()
}

/// A stemmer that runs the English Snowball algorithm.
pub struct EnglishStemmer {
    inner: rust_stemmers::Stemmer,
}

/// Relies on `rust_stemmers::Stemmer::create` with the English algorithm.
#[verifier::external_body]
fn english_stemmer() -> (r: EnglishStemmer) {
    EnglishStemmer { inner: rust_stemmers::Stemmer::create(rust_stemmers::Algorithm::English) }
}

/// Relies on `rust_stemmers::Stemmer::stem`: the stem depends on the word and
/// on the algorithm, which is English for every `EnglishStemmer`.
#[verifier::external_body]
fn stem(stemmer: &EnglishStemmer, word: &str) -> (r: String)
    ensures
        r@ == english_stem_of(word@),
{
    stemmer.inner.stem(word).into_owned()
}

/// Natural languages with stop words and a stemmer.
#[derive(Clone, Copy, Debug, PartialEq, Eq, Structural)]
pub enum Language {
    English,
}

/// ISO 639-1 code of a language.
pub open spec fn language_code(language: Language) -> Seq<char> {
    match language {
        Language::English => seq!['e', 'n'],
    }
}

impl Language {
    /// ISO 639-1 code of the language.
    pub fn code(&self) -> (r: &'static str)
        ensures
            r@ == language_code(*self),
    {
        match self {
            Language::English => {
                proof {
                    reveal_strlit("en");
                }
                let c = "en";
                assert(c@ =~= seq!['e', 'n']);
                c
            },
        }
    }
}

/// The words that are not stop words, order kept.
pub open spec fn without_stop_words(words: Seq<Seq<char>>, stops: Seq<Seq<char>>) -> Seq<Seq<char>>
    decreases words.len(),
{
    if words.len() == 0 {
        Seq::empty()
    } else {
        let prev = without_stop_words(words.drop_last(), stops);
        if stops.contains(words.last()) {
            prev
        } else {
            prev.push(words.last())
        }
    }
}

/// The normalized tokens of a word sequence: each word lower-cased, the stop
/// words dropped, the rest stemmed; order kept.
pub open spec fn normalized_tokens(words: Seq<Seq<char>>, stops: Seq<Seq<char>>) -> Seq<Seq<char>> {
    without_stop_words(words.map_values(|w: Seq<char>| lower_of(w)), stops).map_values(
        |w: Seq<char>| english_stem_of(w),
    )
}

/// The words of `words` that are not in `stops`, in order.
pub fn remove_stop_words(words: &Vec<String>, stops: &Vec<String>) -> (r: Vec<String>)
    ensures
        texts(r@) == without_stop_words(texts(words@), texts(stops@)),
{
    let mut kept: Vec<String> = Vec::new();
    let mut i: usize = 0;
    while i < words.len()
        invariant
            i <= words.len(),
            texts(kept@) == without_stop_words(texts(words@).subrange(0, i as int), texts(stops@)),
        decreases words.len() - i,
    {
        let ghost pre = texts(words@).subrange(0, i as int);
        let ghost next = texts(words@).subrange(0, i + 1);
        assert(next.drop_last() =~= pre);
        assert(next.last() == words[i as int]@);
        if !crate::similarity::contains_word(stops, &words[i]) {
            let ghost before = texts(kept@);
            kept.push(words[i].clone());
            assert(texts(kept@) =~= before.push(words[i as int]@));
        }
        i = i + 1;
    }
    assert(texts(words@).subrange(0, words.len() as int) =~= texts(words@));
    kept
}

/// One sentence of a document: its position, its text, and its normalized tokens.
pub struct Sentence {
    pub index: usize,
    pub raw_text: String,
    pub tokens: Vec<String>,
}

/// The tokens of one sentence: its words, lower-cased, without stop words, stemmed.
fn tokenize_sentence(sentence: &str, stops: &Vec<String>, stemmer: &EnglishStemmer) -> (r: Vec<
    String,
>)
    ensures
        texts(r@) == normalized_tokens(words_of(sentence@), texts(stops@)),
{
    let words = split_words(sentence);
    let mut lowered: Vec<String> = Vec::new();
    let mut i: usize = 0;
    while i < words.len()
        invariant
            i <= words.len(),
            texts(lowered@) =~= texts(words@).subrange(0, i as int).map_values(
                |w: Seq<char>| lower_of(w),
            ),
        decreases words.len() - i,
    {
        let ghost before = texts(lowered@);
        let l = lowercase(words[i].as_str());
        lowered.push(l);
        assert(texts(lowered@) =~= before.push(l@));
        assert(texts(words@)[i as int] == words[i as int]@);
        i = i + 1;
    }
    let kept = remove_stop_words(&lowered, stops);
    let mut tokens: Vec<String> = Vec::new();
    let mut j: usize = 0;
    while j < kept.len()
        invariant
            j <= kept.len(),
            texts(tokens@) =~= texts(kept@).subrange(0, j as int).map_values(
                |w: Seq<char>| english_stem_of(w),
            ),
        decreases kept.len() - j,
    {
        let ghost before = texts(tokens@);
        let t = stem(stemmer, kept[j].as_str());
        tokens.push(t);
        assert(texts(tokens@) =~= before.push(t@));
        assert(texts(kept@)[j as int] == kept[j as int]@);
        j = j + 1;
    }
    assert(texts(words@).subrange(0, words.len() as int) =~= texts(words@));
    assert(texts(kept@).subrange(0, kept.len() as int) =~= texts(kept@));
    tokens
}

/// Splits a document into sentences, in order and indexed from 0, each with its
/// normalized tokens. A sentence left with no token is kept.
pub fn normalize(text: &str, language: Language) -> (r: Vec<Sentence>)
    ensures
        r.len() == sentences_of(text@).len(),
        forall|i: int|
            0 <= i < r.len() ==> {
                &&& (#[trigger] r[i]).index == i
                &&& r[i].raw_text@ == sentences_of(text@)[i]
                &&& texts(r[i].tokens@) == normalized_tokens(
                    words_of(sentences_of(text@)[i]),
                    stop_words_of(language_code(language)),
                )
            },
{
    let code = language.code();
    let stops = stop_words(code);
    let stemmer = english_stemmer();
    let raw = split_sentences(text);
    let mut out: Vec<Sentence> = Vec::new();
    let mut i: usize = 0;
    while i < raw.len()
        invariant
            i <= raw.len(),
            texts(raw@) == sentences_of(text@),
            texts(stops@) == stop_words_of(language_code(language)),
            out.len() == i,
            forall|k: int|
                0 <= k < i ==> {
                    &&& (#[trigger] out[k]).index == k
                    &&& out[k].raw_text@ == sentences_of(text@)[k]
                    &&& texts(out[k].tokens@) == normalized_tokens(
                        words_of(sentences_of(text@)[k]),
                        stop_words_of(language_code(language)),
                    )
                },
        decreases raw.len() - i,
    {
        assert(texts(raw@)[i as int] == raw[i as int]@);
        let tokens = tokenize_sentence(raw[i].as_str(), &stops, &stemmer);
        out.push(Sentence { index: i, raw_text: raw[i].clone(), tokens });
        i = i + 1;
    }
    out
}

} // verus!
