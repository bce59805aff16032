use vstd::prelude::*;

verus! {

/// Dot product of the first `n` components.
pub open spec fn dot_upto(a: Seq<usize>, b: Seq<usize>, n: int) -> int
    decreases n,
{
    if n <= 0 {
        0
    } else {
        dot_upto(a, b, n - 1) + a[n - 1] * b[n - 1]
    }
}

/// Dot product of two count vectors, over the components both have.
pub open spec fn dot_spec(a: Seq<usize>, b: Seq<usize>) -> int {
    dot_upto(a, b, if a.len() <= b.len() { a.len() as int } else { b.len() as int })
}

/// Partial dot products grow with the number of components taken.
proof fn lemma_dot_upto_monotonic(a: Seq<usize>, b: Seq<usize>, i: int, j: int)
    requires
        0 <= i <= j,
    ensures
        dot_upto(a, b, i) <= dot_upto(a, b, j),
    decreases j,
{
    if i < j {
        lemma_dot_upto_monotonic(a, b, i, j - 1);
        let x = a[j - 1];
        let y = b[j - 1];
        assert(x * y >= 0) by (nonlinear_arith)
            requires
                x >= 0,
                y >= 0,
        ;
    }
}

/// The dot product of two count vectors, over the components both have.
pub fn dot_product(vec1: &Vec<usize>, vec2: &Vec<usize>) -> (r: u128)
    requires
        dot_spec(vec1@, vec2@) <= u128::MAX,
    ensures
        r == dot_spec(vec1@, vec2@),
{
    let n: usize = if vec1.len() <= vec2.len() { vec1.len() } else { vec2.len() };
    let mut acc: u128 = 0;
    let mut i: usize = 0;
    while i < n
        invariant
            n <= vec1.len(),
            n <= vec2.len(),
            n == vec1.len() || n == vec2.len(),
            i <= n,
            dot_upto(vec1@, vec2@, n as int) <= u128::MAX,
            acc == dot_upto(vec1@, vec2@, i as int),
        decreases n - i,
    {
        proof {
            lemma_dot_upto_monotonic(vec1@, vec2@, i + 1, n as int);
        }
        let a = vec1[i] as u128;
        let b = vec2[i] as u128;
        assert(a * b == vec1[i as int] * vec2[i as int]);
        assert(a * b <= u128::MAX);
        acc = acc + a * b;
        i = i + 1;
    }
    acc
}


/// The text of each word of a token sequence.
pub open spec fn texts(v: Seq<String>) -> Seq<Seq<char>> {
    v.map_values(|w: String| w@)
}

/// Number of occurrences of `w` in `s`.
pub open spec fn count(s: Seq<Seq<char>>, w: Seq<char>) -> nat
    decreases s.len(),
{
    if s.len() == 0 {
        0
    } else {
        count(s.drop_last(), w) + if s.last() == w { 1nat } else { 0nat }
    }
}

pub proof fn lemma_count_le_len(s: Seq<Seq<char>>, w: Seq<char>)
    ensures
        count(s, w) <= s.len(),
    decreases s.len(),
{
    if s.len() > 0 {
        lemma_count_le_len(s.drop_last(), w);
    }
}

/// Whether `w` is one of the words of `v`.
pub fn contains_word(v: &Vec<String>, w: &String) -> (r: bool)
    ensures
        r == texts(v@).contains(w@),
{
    let mut j: usize = 0;
    while j < v.len()
        invariant
            j <= v.len(),
            !texts(v@).subrange(0, j as int).contains(w@),
        decreases v.len() - j,
    {
        if v[j] == *w {
            assert(texts(v@)[j as int] == w@);
            return true;
        }
        assert(texts(v@).subrange(0, j + 1) =~= texts(v@).subrange(0, j as int).push(
            texts(v@)[j as int],
        ));
        j = j + 1;
    }
    assert(texts(v@).subrange(0, v.len() as int) =~= texts(v@));
    false
}

/// Appends to `bag` each word of `s` that it does not hold yet.
fn add_words(bag: Vec<String>, s: &Vec<String>) -> (r: Vec<String>)
    requires
        texts(bag@).no_duplicates(),
    ensures
        texts(r@).no_duplicates(),
        forall|w: Seq<char>|
            texts(r@).contains(w) <==> (texts(bag@).contains(w) || texts(s@).contains(w)),
        r.len() <= bag.len() + s.len(),
{
    let mut bag = bag;
    let ghost start = texts(bag@);
    let mut i: usize = 0;
    while i < s.len()
        invariant
            i <= s.len(),
            bag.len() <= start.len() + i,
            texts(bag@).no_duplicates(),
            forall|w: Seq<char>|
                texts(bag@).contains(w) <==> (start.contains(w) || texts(s@).subrange(
                    0,
                    i as int,
                ).contains(w)),
        decreases s.len() - i,
    {
        let ghost before = texts(bag@);
        let ghost seen = texts(s@).subrange(0, i as int);
        assert(texts(s@).subrange(0, i + 1) =~= seen.push(s[i as int]@));
        if !contains_word(&bag, &s[i]) {
            bag.push(s[i].clone());
            assert(texts(bag@) =~= before.push(s[i as int]@));
        }
        proof {
            let now = texts(bag@);
            let seen2 = seen.push(s[i as int]@);
            assert(seen2[seen.len() as int] == s[i as int]@);
            assert(now.contains(s[i as int]@)) by {
                if now != before {
                    assert(now[before.len() as int] == s[i as int]@);
                }
            }
            assert forall|w: Seq<char>| now.contains(w) <==> (start.contains(w) || seen2.contains(w)) by {
                assert(before.contains(w) <==> (start.contains(w) || seen.contains(w)));
                if seen2.contains(w) && w != s[i as int]@ {
                    let k = choose|k: int| 0 <= k < seen2.len() && seen2[k] == w;
                    assert(seen[k] == w);
                }
                if seen.contains(w) {
                    let k = choose|k: int| 0 <= k < seen.len() && seen[k] == w;
                    assert(seen2[k] == w);
                }
                if now != before {
                    if before.contains(w) {
                        let k = choose|k: int| 0 <= k < before.len() && before[k] == w;
                        assert(now[k] == w);
                    }
                    if now.contains(w) && w != s[i as int]@ {
                        let k = choose|k: int| 0 <= k < now.len() && now[k] == w;
                        assert(before[k] == w);
                    }
                }
            }
        }
        i = i + 1;
    }
    assert(texts(s@).subrange(0, s.len() as int) =~= texts(s@));
    bag
}

/// The local vocabulary of two sentences: each of their distinct words once,
/// in order of first appearance.
pub fn word_bag(s1: &Vec<String>, s2: &Vec<String>) -> (r: Vec<String>)
    ensures
        texts(r@).no_duplicates(),
        forall|w: Seq<char>|
            texts(r@).contains(w) <==> (texts(s1@).contains(w) || texts(s2@).contains(w)),
        r.len() <= s1.len() + s2.len(),
{
    let empty: Vec<String> = Vec::new();
    assert(texts(empty@) =~= Seq::<Seq<char>>::empty());
    let mid = add_words(empty, s1);
    add_words(mid, s2)
}

/// Index of the first word of `v` equal to `w`.
fn position_of(v: &Vec<String>, w: &String) -> (p: usize)
    requires
        texts(v@).contains(w@),
    ensures
        p < v.len(),
        v[p as int]@ == w@,
{
    let mut j: usize = 0;
    while j < v.len()
        invariant
            j <= v.len(),
            texts(v@).contains(w@),
            forall|k: int| 0 <= k < j ==> v[k]@ != w@,
        decreases v.len() - j,
    {
        if v[j] == *w {
            return j;
        }
        j = j + 1;
    }
    proof {
        let k = choose|k: int| 0 <= k < texts(v@).len() && texts(v@)[k] == w@;
        assert(v[k]@ == w@);
    }
    0
}

/// The term-frequency vector of `sentence` over the vocabulary `bag`:
/// component `k` counts the occurrences of the word `bag[k]`.
pub fn get_sentence_vector(sentence: &Vec<String>, bag: &Vec<String>) -> (r: Vec<usize>)
    requires
        texts(bag@).no_duplicates(),
        forall|k: int| 0 <= k < sentence.len() ==> texts(bag@).contains(#[trigger] sentence[k]@),
    ensures
        r.len() == bag.len(),
        forall|k: int| 0 <= k < r.len() ==> r[k] == count(texts(sentence@), bag[k]@),
{
    let mut vector: Vec<usize> = Vec::new();
    let mut k: usize = 0;
    while k < bag.len()
        invariant
            k <= bag.len(),
            vector.len() == k,
            forall|m: int| 0 <= m < k ==> vector[m] == 0,
        decreases bag.len() - k,
    {
        vector.push(0);
        k = k + 1;
    }
    let mut i: usize = 0;
    while i < sentence.len()
        invariant
            i <= sentence.len(),
            vector.len() == bag.len(),
            texts(bag@).no_duplicates(),
            forall|k: int|
                0 <= k < sentence.len() ==> texts(bag@).contains(#[trigger] sentence[k]@),
            forall|m: int|
                0 <= m < vector.len() ==> vector[m] == count(
                    texts(sentence@).subrange(0, i as int),
                    bag[m]@,
                ),
        decreases sentence.len() - i,
    {
        let ghost prefix = texts(sentence@).subrange(0, i as int);
        let ghost next = texts(sentence@).subrange(0, i + 1);
        assert(next.drop_last() =~= prefix);
        assert(next.last() == sentence[i as int]@);
        let p = position_of(bag, &sentence[i]);
        proof {
            lemma_count_le_len(prefix, bag[p as int]@);
        }
        let c = vector[p];
        vector.set(p, c + 1);
        proof {
            assert forall|m: int| 0 <= m < vector.len() implies vector[m] == count(next, bag[m]@) by {
                if m != p {
                    assert(texts(bag@)[m] != texts(bag@)[p as int]);
                }
            }
        }
        i = i + 1;
    }
    assert(texts(sentence@).subrange(0, sentence.len() as int) =~= texts(sentence@));
    vector
}

/// Number of position pairs `(a, b)` with `s1[a] == s2[b]`: the dot product of
/// the term-frequency vectors of `s1` and `s2` over any vocabulary holding their words.
pub open spec fn pair_matches(s1: Seq<Seq<char>>, s2: Seq<Seq<char>>) -> nat
    decreases s1.len(),
{
    if s1.len() == 0 {
        0
    } else {
        pair_matches(s1.drop_last(), s2) + count(s2, s1.last())
    }
}

/// Sum over the first `n` vocabulary words of the products of their counts.
pub open spec fn count_dot(s1: Seq<Seq<char>>, s2: Seq<Seq<char>>, bag: Seq<Seq<char>>, n: int) -> int
    decreases n,
{
    if n <= 0 {
        0
    } else {
        count_dot(s1, s2, bag, n - 1) + count(s1, bag[n - 1]) * count(s2, bag[n - 1])
    }
}

/// Sum over the first `n` vocabulary words of `c` where the word is `w`.
pub open spec fn hits(bag: Seq<Seq<char>>, w: Seq<char>, c: int, n: int) -> int
    decreases n,
{
    if n <= 0 {
        0
    } else {
        hits(bag, w, c, n - 1) + if bag[n - 1] == w { c } else { 0 }
    }
}

proof fn lemma_hits(bag: Seq<Seq<char>>, w: Seq<char>, c: int, n: int)
    requires
        bag.no_duplicates(),
        0 <= n <= bag.len(),
    ensures
        hits(bag, w, c, n) == if bag.subrange(0, n).contains(w) { c } else { 0 },
    decreases n,
{
    if n > 0 {
        lemma_hits(bag, w, c, n - 1);
        let pre = bag.subrange(0, n - 1);
        assert(bag.subrange(0, n) =~= pre.push(bag[n - 1]));
        if bag[n - 1] == w {
            assert(bag.subrange(0, n)[n - 1] == w);
            if pre.contains(w) {
                let k = choose|k: int| 0 <= k < pre.len() && pre[k] == w;
                assert(bag[k] == bag[n - 1]);
            }
        } else {
            if bag.subrange(0, n).contains(w) {
                let k = choose|k: int| 0 <= k < n && bag.subrange(0, n)[k] == w;
                assert(pre[k] == w);
            }
            if pre.contains(w) {
                let k = choose|k: int| 0 <= k < pre.len() && pre[k] == w;
                assert(bag.subrange(0, n)[k] == w);
            }
        }
    }
}

proof fn lemma_count_dot_step(s1: Seq<Seq<char>>, s2: Seq<Seq<char>>, bag: Seq<Seq<char>>, n: int)
    requires
        s1.len() > 0,
    ensures
        count_dot(s1, s2, bag, n) == count_dot(s1.drop_last(), s2, bag, n) + hits(
            bag,
            s1.last(),
            count(s2, s1.last()) as int,
            n,
        ),
    decreases n,
{
    if n > 0 {
        lemma_count_dot_step(s1, s2, bag, n - 1);
        let x = bag[n - 1];
        let c1 = count(s1.drop_last(), x) as int;
        let c2 = count(s2, x) as int;
        if s1.last() == x {
            assert((c1 + 1) * c2 == c1 * c2 + c2) by (nonlinear_arith);
        }
    }
}

proof fn lemma_count_dot_empty(s2: Seq<Seq<char>>, bag: Seq<Seq<char>>, n: int)
    ensures
        count_dot(Seq::empty(), s2, bag, n) == 0,
    decreases n,
{
    if n > 0 {
        lemma_count_dot_empty(s2, bag, n - 1);
        let e = Seq::<Seq<char>>::empty();
        assert(count(e, bag[n - 1]) == 0);
        assert(count(e, bag[n - 1]) * count(s2, bag[n - 1]) == 0);
    }
}

/// Over a vocabulary without repeats that holds every word of `s1`, the dot
/// product of the count vectors is the number of matching position pairs.
proof fn lemma_count_dot(s1: Seq<Seq<char>>, s2: Seq<Seq<char>>, bag: Seq<Seq<char>>)
    requires
        bag.no_duplicates(),
        forall|k: int| 0 <= k < s1.len() ==> bag.contains(#[trigger] s1[k]),
    ensures
        count_dot(s1, s2, bag, bag.len() as int) == pair_matches(s1, s2),
    decreases s1.len(),
{
    if s1.len() == 0 {
        lemma_count_dot_empty(s2, bag, bag.len() as int);
        assert(s1 =~= Seq::empty());
    } else {
        let w = s1.last();
        assert(s1[s1.len() - 1] == w);
        assert forall|k: int| 0 <= k < s1.drop_last().len() implies bag.contains(
            #[trigger] s1.drop_last()[k],
        ) by {
            assert(s1.drop_last()[k] == s1[k]);
        }
        lemma_count_dot(s1.drop_last(), s2, bag);
        lemma_count_dot_step(s1, s2, bag, bag.len() as int);
        lemma_hits(bag, w, count(s2, w) as int, bag.len() as int);
        assert(bag.subrange(0, bag.len() as int) =~= bag);
    }
}

proof fn lemma_pair_matches_push(s1: Seq<Seq<char>>, s2: Seq<Seq<char>>, v: Seq<char>)
    ensures
        pair_matches(s1, s2.push(v)) == pair_matches(s1, s2) + count(s1, v),
    decreases s1.len(),
{
    if s1.len() > 0 {
        lemma_pair_matches_push(s1.drop_last(), s2, v);
        assert(s2.push(v).drop_last() =~= s2);
    }
}

proof fn lemma_pair_matches_empty(s1: Seq<Seq<char>>)
    ensures
        pair_matches(s1, Seq::empty()) == 0,
    decreases s1.len(),
{
    if s1.len() > 0 {
        lemma_pair_matches_empty(s1.drop_last());
    }
}

/// There are no more matching position pairs than position pairs.
proof fn lemma_pair_matches_bound(s1: Seq<Seq<char>>, s2: Seq<Seq<char>>)
    ensures
        pair_matches(s1, s2) <= s1.len() * s2.len(),
    decreases s1.len(),
{
    if s1.len() > 0 {
        lemma_pair_matches_bound(s1.drop_last(), s2);
        lemma_count_le_len(s2, s1.last());
        assert((s1.len() - 1) * s2.len() + s2.len() == s1.len() * s2.len()) by (nonlinear_arith);
    }
}

proof fn lemma_product_fits(x: int, y: int)
    requires
        0 <= x <= usize::MAX,
        0 <= y <= usize::MAX,
    ensures
        x * y <= u128::MAX,
{
    assert(x * y <= usize::MAX * usize::MAX) by (nonlinear_arith)
        requires
            0 <= x <= usize::MAX,
            0 <= y <= usize::MAX,
    ;
    assert(usize::MAX * usize::MAX <= u128::MAX) by (nonlinear_arith)
        requires
            usize::MAX <= u64::MAX,
    ;
}

/// Matching position pairs are counted the same from either side.
pub proof fn lemma_pair_matches_symmetric(s1: Seq<Seq<char>>, s2: Seq<Seq<char>>)
    ensures
        pair_matches(s1, s2) == pair_matches(s2, s1),
    decreases s2.len(),
{
    if s2.len() == 0 {
        lemma_pair_matches_empty(s1);
        assert(s2 =~= Seq::empty());
    } else {
        lemma_pair_matches_symmetric(s1, s2.drop_last());
        lemma_pair_matches_push(s1, s2.drop_last(), s2.last());
        assert(s2.drop_last().push(s2.last()) =~= s2);
    }
}

proof fn lemma_dot_counts(
    v1: Seq<usize>,
    v2: Seq<usize>,
    s1: Seq<Seq<char>>,
    s2: Seq<Seq<char>>,
    bag: Seq<Seq<char>>,
    n: int,
)
    requires
        0 <= n <= bag.len(),
        v1.len() == bag.len(),
        v2.len() == bag.len(),
        forall|k: int| 0 <= k < v1.len() ==> v1[k] == count(s1, bag[k]),
        forall|k: int| 0 <= k < v2.len() ==> v2[k] == count(s2, bag[k]),
    ensures
        dot_upto(v1, v2, n) == count_dot(s1, s2, bag, n),
    decreases n,
{
    if n > 0 {
        lemma_dot_counts(v1, v2, s1, s2, bag, n - 1);
    }
}

/// The integer quantities of the cosine similarity of two sentences:
/// `dot / sqrt(norm_sq_row * norm_sq_col)`, taken as 0 when a norm is 0.
#[derive(Clone, Copy, Debug, PartialEq, Eq, Structural)]
pub struct CosineTerms {
    /// Dot product of the two term-frequency vectors.
    pub dot: u128,
    /// Squared magnitude of the row sentence's vector.
    pub norm_sq_row: u128,
    /// Squared magnitude of the column sentence's vector.
    pub norm_sq_col: u128,
}

/// The cosine terms of the sentences `s1` (row) and `s2` (column).
pub open spec fn terms_of(t: CosineTerms, s1: Seq<Seq<char>>, s2: Seq<Seq<char>>) -> bool {
    &&& t.dot == pair_matches(s1, s2)
    &&& t.norm_sq_row == pair_matches(s1, s1)
    &&& t.norm_sq_col == pair_matches(s2, s2)
}

/// Cosine terms of two token sequences, from their count vectors over their
/// local vocabulary.
pub fn sentence_similarity(s1: &Vec<String>, s2: &Vec<String>) -> (r: CosineTerms)
    ensures
        terms_of(r, texts(s1@), texts(s2@)),
{
    let bag = word_bag(s1, s2);
    assert forall|k: int| 0 <= k < s1.len() implies texts(bag@).contains(#[trigger] s1[k]@) by {
        assert(texts(s1@)[k] == s1[k]@);
    }
    assert forall|k: int| 0 <= k < s2.len() implies texts(bag@).contains(#[trigger] s2[k]@) by {
        assert(texts(s2@)[k] == s2[k]@);
    }
    let v1 = get_sentence_vector(s1, &bag);
    let v2 = get_sentence_vector(s2, &bag);
    proof {
        let b = texts(bag@);
        assert forall|k: int| 0 <= k < texts(s1@).len() implies b.contains(#[trigger] texts(s1@)[k]) by {
            assert(texts(s1@)[k] == s1[k]@);
        }
        assert forall|k: int| 0 <= k < texts(s2@).len() implies b.contains(#[trigger] texts(s2@)[k]) by {
            assert(texts(s2@)[k] == s2[k]@);
        }
        lemma_dot_counts(v1@, v2@, texts(s1@), texts(s2@), b, b.len() as int);
        lemma_dot_counts(v1@, v1@, texts(s1@), texts(s1@), b, b.len() as int);
        lemma_dot_counts(v2@, v2@, texts(s2@), texts(s2@), b, b.len() as int);
        lemma_count_dot(texts(s1@), texts(s2@), b);
        lemma_count_dot(texts(s1@), texts(s1@), b);
        lemma_count_dot(texts(s2@), texts(s2@), b);
        lemma_pair_matches_bound(texts(s1@), texts(s2@));
        lemma_pair_matches_bound(texts(s1@), texts(s1@));
        lemma_pair_matches_bound(texts(s2@), texts(s2@));
        lemma_product_fits(s1.len() as int, s2.len() as int);
        lemma_product_fits(s1.len() as int, s1.len() as int);
        lemma_product_fits(s2.len() as int, s2.len() as int);
    }
    let dot = dot_product(&v1, &v2);
    let norm_sq_row = dot_product(&v1, &v1);
    let norm_sq_col = dot_product(&v2, &v2);
    CosineTerms { dot, norm_sq_row, norm_sq_col }
}

/// The token texts of each sentence.
pub open spec fn sentence_texts(ss: Seq<Vec<String>>) -> Seq<Seq<Seq<char>>> {
    ss.map_values(|s: Vec<String>| texts(s@))
}

/// `m` is the square matrix of cosine terms of `ss`: zero on the diagonal, the
/// terms of sentence `i` (row) against sentence `j` (column) elsewhere.
pub open spec fn is_terms_matrix(m: Seq<Vec<CosineTerms>>, ss: Seq<Seq<Seq<char>>>) -> bool {
    &&& m.len() == ss.len()
    &&& forall|i: int| 0 <= i < m.len() ==> (#[trigger] m[i]).len() == ss.len()
    &&& forall|i: int| 0 <= i < m.len() ==> (#[trigger] m[i])[i] == (CosineTerms { dot: 0, norm_sq_row: 0, norm_sq_col: 0 })
    &&& forall|i: int, j: int|
        0 <= i < m.len() && 0 <= j < m.len() && i != j ==> terms_of(#[trigger] m[i][j], ss[i], ss[j])
}

/// The similarity graph of a document: cosine terms of every ordered pair of
/// distinct sentences, zero terms on the diagonal.
pub fn similarity_matrix(sentences: &Vec<Vec<String>>) -> (m: Vec<Vec<CosineTerms>>)
    ensures
        is_terms_matrix(m@, sentence_texts(sentences@)),
{
    let ghost ss = sentence_texts(sentences@);
    let n = sentences.len();
    let mut matrix: Vec<Vec<CosineTerms>> = Vec::new();
    let mut i: usize = 0;
    while i < n
        invariant
            n == sentences.len(),
            ss == sentence_texts(sentences@),
            i <= n,
            matrix.len() == i,
            forall|a: int| 0 <= a < i ==> (#[trigger] matrix[a]).len() == n,
            forall|a: int| 0 <= a < i ==> (#[trigger] matrix[a])[a] == (CosineTerms { dot: 0, norm_sq_row: 0, norm_sq_col: 0 }),
            forall|a: int, b: int|
                0 <= a < i && 0 <= b < n && a != b ==> terms_of(#[trigger] matrix[a][b], ss[a], ss[b]),
        decreases n - i,
    {
        let mut row: Vec<CosineTerms> = Vec::new();
        let mut j: usize = 0;
        while j < n
            invariant
                n == sentences.len(),
                ss == sentence_texts(sentences@),
                    i < n,
                j <= n,
                matrix.len() == i,
                forall|a: int| 0 <= a < i ==> (#[trigger] matrix[a]).len() == n,
                forall|a: int, b: int|
                    0 <= a < i && 0 <= b < n && a != b ==> terms_of(#[trigger] matrix[a][b], ss[a], ss[b]),
                row.len() == j,
                i < j ==> row[i as int] == (CosineTerms { dot: 0, norm_sq_row: 0, norm_sq_col: 0 }),
                forall|b: int| 0 <= b < j && b != i ==> terms_of(#[trigger] row[b], ss[i as int], ss[b]),
            decreases n - j,
        {
            if j == i {
                row.push(CosineTerms { dot: 0, norm_sq_row: 0, norm_sq_col: 0 });
            } else if j < i {
                let t = matrix[j][i];
                proof {
                    assert(terms_of(matrix[j as int][i as int], ss[j as int], ss[i as int]));
                    lemma_pair_matches_symmetric(ss[j as int], ss[i as int]);
                }
                row.push(CosineTerms { dot: t.dot, norm_sq_row: t.norm_sq_col, norm_sq_col: t.norm_sq_row });
            } else {
                let t = sentence_similarity(&sentences[i], &sentences[j]);
                row.push(t);
            }
            j = j + 1;
        }
        matrix.push(row);
        i = i + 1;
    }
    matrix
}

/// The similarity graph is undirected: the dot product of sentences `i` and `j`
/// is the same read from either side, the two norms trade places, and the
/// diagonal carries no similarity.
pub proof fn lemma_similarity_symmetric(m: Seq<Vec<CosineTerms>>, ss: Seq<Seq<Seq<char>>>, i: int, j: int)
    requires
        is_terms_matrix(m, ss),
        0 <= i < m.len(),
        0 <= j < m.len(),
    ensures
        m[i][j].dot == m[j][i].dot,
        m[i][j].norm_sq_row == m[j][i].norm_sq_col,
        m[i][j].norm_sq_col == m[j][i].norm_sq_row,
        m[i][i].dot == 0,
{
    if i != j {
        assert(terms_of(m[i][j], ss[i], ss[j]));
        assert(terms_of(m[j][i], ss[j], ss[i]));
        lemma_pair_matches_symmetric(ss[i], ss[j]);
    }
    assert(m[i][i] == (CosineTerms { dot: 0, norm_sq_row: 0, norm_sq_col: 0 }));
}

} // verus!
