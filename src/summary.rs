use vstd::prelude::*;
use crate::text::Sentence;

verus! {

/// Copy of a token sequence.
fn copy_tokens(tokens: &Vec<String>) -> (r: Vec<String>)
    ensures
        r@ == tokens@,
{
    let mut out: Vec<String> = Vec::new();
    let mut i: usize = 0;
    while i < tokens.len()
        invariant
            i <= tokens.len(),
            out@ == tokens@.subrange(0, i as int),
        decreases tokens.len() - i,
    {
        out.push(tokens[i].clone());
        assert(out@ =~= tokens@.subrange(0, i + 1));
        i = i + 1;
    }
    assert(tokens@.subrange(0, tokens.len() as int) =~= tokens@);
    out
}

/// The token sequences of the sentences, index for index.
pub fn token_lists(sentences: &Vec<Sentence>) -> (r: Vec<Vec<String>>)
    ensures
        r.len() == sentences.len(),
        forall|i: int| 0 <= i < r.len() ==> (#[trigger] r[i])@ == sentences[i].tokens@,
{
    let mut out: Vec<Vec<String>> = Vec::new();
    let mut i: usize = 0;
    while i < sentences.len()
        invariant
            i <= sentences.len(),
            out.len() == i,
            forall|k: int| 0 <= k < i ==> (#[trigger] out[k])@ == sentences[k].tokens@,
        decreases sentences.len() - i,
    {
        out.push(copy_tokens(&sentences[i].tokens));
        i = i + 1;
    }
    out
}

/// The texts of the sentences listed by `order`, in that order.
pub fn pick_sentences(sentences: &Vec<Sentence>, order: &Vec<usize>) -> (r: Vec<String>)
    requires
        forall|i: int| 0 <= i < order.len() ==> (#[trigger] order[i]) < sentences.len(),
    ensures
        r.len() == order.len(),
        forall|i: int| 0 <= i < r.len() ==> (#[trigger] r[i])@ == sentences[order[i] as int].raw_text@,
{
    let mut out: Vec<String> = Vec::new();
    let mut i: usize = 0;
    while i < order.len()
        invariant
            i <= order.len(),
            forall|i: int| 0 <= i < order.len() ==> (#[trigger] order[i]) < sentences.len(),
            out.len() == i,
            forall|k: int| 0 <= k < i ==> (#[trigger] out[k])@ == sentences[order[k] as int].raw_text@,
        decreases order.len() - i,
    {
        out.push(sentences[order[i]].raw_text.clone());
        i = i + 1;
    }
    out
}

} // verus!
