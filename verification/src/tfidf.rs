//! Term statistics behind TF-IDF: tokenisation, vocabulary, document and term counts.
use vstd::prelude::*;
use crate::query::{to_lowercase, unicode_lowercase};
use crate::text::{chars_of, string_from_chars};

verus! {

/// `char::is_alphanumeric`.
pub uninterp spec fn unicode_alphanumeric(c: char) -> bool;

/// `char::is_alphanumeric`: the Unicode `Alphabetic` or `Numeric` property, which the
/// standard library decides from its Unicode tables; the contract names the result.
#[verifier::external_body]
fn char_is_alphanumeric(c: char) -> (r: bool)
    ensures
        r == unicode_alphanumeric(c),
{
    c.is_alphanumeric()
}

/// The tokens found so far and the token in progress, reading `s` left to right.
pub open spec fn tokens_acc(s: Seq<char>) -> (Seq<Seq<char>>, Seq<char>)
    decreases s.len(),
{
    if s.len() == 0 {
        (seq![], seq![])
    } else {
        let (done, cur) = tokens_acc(s.drop_last());
        if unicode_alphanumeric(s.last()) {
            (done, cur.push(s.last()))
        } else if cur.len() > 0 {
            (done.push(unicode_lowercase(cur)), seq![])
        } else {
            (done, seq![])
        }
    }
}

/// The maximal alphanumeric runs of `s`, each in lowercase.
pub open spec fn tokens(s: Seq<char>) -> Seq<Seq<char>> {
    let (done, cur) = tokens_acc(s);
    if cur.len() > 0 {
        done.push(unicode_lowercase(cur))
    } else {
        done
    }
}

pub open spec fn string_views(v: Seq<String>) -> Seq<Seq<char>> {
    v.map_values(|s: String| s@)
}

/// The lowercase form of a run of characters.
fn lowercase_string(v: &Vec<char>) -> (s: String)
    ensures
        s@ == unicode_lowercase(v@),
{
    let run = string_from_chars(v);
    to_lowercase(run.as_str())
}

/// Split text into lowercase alphanumeric tokens.
pub fn tokenize(text: &str) -> (out: Vec<String>)
    ensures
        string_views(out@) == tokens(text@),
{
    let v = chars_of(text);
    let mut out: Vec<String> = Vec::new();
    let mut cur: Vec<char> = Vec::new();
    let mut i: usize = 0;
    while i < v.len()
        invariant
            i <= v@.len(),
            tokens_acc(v@.take(i as int)) == (string_views(out@), cur@),
        decreases v.len() - i,
    {
        assert(v@.take(i + 1 as int).drop_last() =~= v@.take(i as int));
        assert(v@.take(i + 1 as int).last() == v@[i as int]);
        let c = v[i];
        if char_is_alphanumeric(c) {
            cur.push(c);
        } else if cur.len() > 0 {
            let t = lowercase_string(&cur);
            let ghost before = out@;
            out.push(t);
            assert(string_views(out@) =~= string_views(before).push(unicode_lowercase(cur@)));
            cur = Vec::new();
        } else {
            cur = Vec::new();
        }
        i = i + 1;
    }
    assert(v@.take(v@.len() as int) =~= v@);
    if cur.len() > 0 {
        let t = lowercase_string(&cur);
        let ghost before = out@;
        out.push(t);
        assert(string_views(out@) =~= string_views(before).push(unicode_lowercase(cur@)));
    }
    out
}


/// `acc` followed by the tokens of `toks` not seen before, in first-seen order.
pub open spec fn add_unseen(acc: Seq<Seq<char>>, toks: Seq<Seq<char>>) -> Seq<Seq<char>>
    decreases toks.len(),
{
    if toks.len() == 0 {
        acc
    } else {
        let a = add_unseen(acc, toks.drop_last());
        if a.contains(toks.last()) {
            a
        } else {
            a.push(toks.last())
        }
    }
}

/// The distinct terms of a tokenised corpus, in order of first appearance.
pub open spec fn vocabulary_of(docs: Seq<Seq<Seq<char>>>) -> Seq<Seq<char>>
    decreases docs.len(),
{
    if docs.len() == 0 {
        seq![]
    } else {
        add_unseen(vocabulary_of(docs.drop_last()), docs.last())
    }
}

/// Number of documents that contain `term`.
pub open spec fn doc_count(docs: Seq<Seq<Seq<char>>>, term: Seq<char>) -> nat
    decreases docs.len(),
{
    if docs.len() == 0 {
        0
    } else {
        doc_count(docs.drop_last(), term) + if docs.last().contains(term) {
            1nat
        } else {
            0nat
        }
    }
}

/// Number of occurrences of `term` in `toks`.
pub open spec fn term_count(toks: Seq<Seq<char>>, term: Seq<char>) -> nat
    decreases toks.len(),
{
    if toks.len() == 0 {
        0
    } else {
        term_count(toks.drop_last(), term) + if toks.last() == term {
            1nat
        } else {
            0nat
        }
    }
}

/// Some document holds `term`.
pub open spec fn in_corpus(docs: Seq<Seq<Seq<char>>>, term: Seq<char>) -> bool {
    exists|d: int| 0 <= d < docs.len() && #[trigger] docs[d].contains(term)
}

proof fn lemma_add_unseen(acc: Seq<Seq<char>>, toks: Seq<Seq<char>>)
    requires
        acc.no_duplicates(),
    ensures
        add_unseen(acc, toks).no_duplicates(),
        forall|t: Seq<char>| add_unseen(acc, toks).contains(t) <==> (acc.contains(t) || toks.contains(t)),
    decreases toks.len(),
{
    if toks.len() > 0 {
        lemma_add_unseen(acc, toks.drop_last());
        let a = add_unseen(acc, toks.drop_last());
        let l = toks.last();
        assert forall|t: Seq<char>| toks.contains(t) <==> (toks.drop_last().contains(t) || t == l) by {
            if toks.contains(t) {
                let j = choose|j: int| 0 <= j < toks.len() && toks[j] == t;
                if j < toks.len() - 1 {
                    assert(toks.drop_last()[j] == t);
                }
            }
            if toks.drop_last().contains(t) {
                let j = choose|j: int| 0 <= j < toks.drop_last().len() && toks.drop_last()[j] == t;
                assert(toks[j] == t);
            }
            if t == l {
                assert(toks[toks.len() - 1] == t);
            }
        }
        if !a.contains(l) {
            let r = a.push(l);
            assert forall|i: int, j: int| 0 <= i < r.len() && 0 <= j < r.len() && i != j implies r[i] != r[j] by {
                if i < a.len() && j < a.len() {
                } else if i < a.len() {
                    assert(a.contains(r[i]));
                } else {
                    assert(a.contains(r[j]));
                }
            }
            assert forall|t: Seq<char>| r.contains(t) <==> (a.contains(t) || t == l) by {
                if r.contains(t) {
                    let j = choose|j: int| 0 <= j < r.len() && r[j] == t;
                    if j < a.len() {
                        assert(a[j] == t);
                    }
                }
                if a.contains(t) {
                    let j = choose|j: int| 0 <= j < a.len() && a[j] == t;
                    assert(r[j] == t);
                }
                if t == l {
                    assert(r[a.len() as int] == t);
                }
            }
        }
    }
}

proof fn lemma_doc_count_bounds(docs: Seq<Seq<Seq<char>>>, term: Seq<char>)
    ensures
        doc_count(docs, term) <= docs.len(),
        in_corpus(docs, term) ==> doc_count(docs, term) >= 1,
    decreases docs.len(),
{
    if docs.len() > 0 {
        let d = docs.drop_last();
        lemma_doc_count_bounds(d, term);
        if in_corpus(docs, term) && !docs.last().contains(term) {
            let k = choose|k: int| 0 <= k < docs.len() && #[trigger] docs[k].contains(term);
            assert(d[k] == docs[k]);
            assert(in_corpus(d, term));
        }
    }
}

/// The vocabulary of a corpus lists each term once, exactly the terms that occur in
/// some document, and each of them occurs in between one and all documents.
pub proof fn lemma_vocabulary_exact(docs: Seq<Seq<Seq<char>>>)
    ensures
        vocabulary_of(docs).no_duplicates(),
        forall|t: Seq<char>| vocabulary_of(docs).contains(t) <==> in_corpus(docs, t),
        forall|k: int|
            0 <= k < vocabulary_of(docs).len() ==> 1 <= doc_count(docs, #[trigger] vocabulary_of(docs)[k])
                <= docs.len(),
    decreases docs.len(),
{
    if docs.len() > 0 {
        let d = docs.drop_last();
        lemma_vocabulary_exact(d);
        lemma_add_unseen(vocabulary_of(d), docs.last());
        assert forall|t: Seq<char>| in_corpus(docs, t) <==> (in_corpus(d, t) || docs.last().contains(t)) by {
            if in_corpus(docs, t) {
                let k = choose|k: int| 0 <= k < docs.len() && #[trigger] docs[k].contains(t);
                if k < d.len() {
                    assert(d[k] == docs[k]);
                }
            }
            if in_corpus(d, t) {
                let k = choose|k: int| 0 <= k < d.len() && #[trigger] d[k].contains(t);
                assert(docs[k] == d[k]);
            }
            if docs.last().contains(t) {
                assert(docs[docs.len() - 1].contains(t));
            }
        }
    }
    let v = vocabulary_of(docs);
    assert forall|k: int| 0 <= k < v.len() implies 1 <= doc_count(docs, #[trigger] v[k]) <= docs.len() by {
        assert(v.contains(v[k]));
        lemma_doc_count_bounds(docs, v[k]);
    }
}

pub open spec fn tokenized(corpus: Seq<String>) -> Seq<Seq<Seq<char>>> {
    corpus.map_values(|d: String| tokens(d@))
}

/// The terms of a corpus with their document frequencies.
pub struct Vocabulary {
    /// Distinct terms in order of first appearance.
    pub terms: Vec<String>,
    /// `doc_freq[k]` documents contain `terms[k]`.
    pub doc_freq: Vec<usize>,
    /// Number of documents in the corpus.
    pub n_docs: usize,
}

fn index_of(v: &Vec<String>, t: &String) -> (r: Option<usize>)
    ensures
        match r {
            Some(k) => k < v@.len() && v@[k as int]@ == t@,
            None => !string_views(v@).contains(t@),
        },
{
    let mut k: usize = 0;
    while k < v.len()
        invariant
            k <= v@.len(),
            forall|j: int| 0 <= j < k ==> v@[j]@ != t@,
        decreases v.len() - k,
    {
        if v[k] == *t {
            return Some(k);
        }
        k = k + 1;
    }
    proof {
        if string_views(v@).contains(t@) {
            let j = choose|j: int| 0 <= j < v@.len() && string_views(v@)[j] == t@;
            assert(v@[j]@ == t@);
        }
    }
    None
}

fn contains_string(v: &Vec<String>, t: &String) -> (r: bool)
    ensures
        r == string_views(v@).contains(t@),
{
    match index_of(v, t) {
        Some(k) => {
            assert(string_views(v@)[k as int] == t@);
            true
        },
        None => false,
    }
}

impl Vocabulary {
    /// Build the vocabulary of a corpus: every distinct token, and how many documents
    /// hold it.
    pub fn new(corpus: &Vec<String>) -> (v: Vocabulary)
        ensures
            string_views(v.terms@) == vocabulary_of(tokenized(corpus@)),
            v.doc_freq@.len() == v.terms@.len(),
            forall|k: int|
                0 <= k < v.terms@.len() ==> #[trigger] v.doc_freq@[k] == doc_count(
                    tokenized(corpus@),
                    v.terms@[k]@,
                ),
            v.n_docs == corpus@.len(),
            string_views(v.terms@).no_duplicates(),
            forall|k: int| 0 <= k < v.terms@.len() ==> 1 <= #[trigger] v.doc_freq@[k] <= corpus@.len(),
    {
        proof {
            lemma_vocabulary_exact(tokenized(corpus@));
        }
        let ghost docs = tokenized(corpus@);
        let mut docs_tokens: Vec<Vec<String>> = Vec::new();
        let mut terms: Vec<String> = Vec::new();
        let mut d: usize = 0;
        while d < corpus.len()
            invariant
                d <= corpus@.len(),
                docs == tokenized(corpus@),
                docs_tokens@.len() == d,
                forall|j: int| 0 <= j < d ==> string_views(#[trigger] docs_tokens@[j]@) == docs[j],
                string_views(terms@) == vocabulary_of(docs.take(d as int)),
            decreases corpus.len() - d,
        {
            let toks = tokenize(corpus[d].as_str());
            assert(docs[d as int] == tokens(corpus@[d as int]@));
            assert(docs.take(d + 1 as int).drop_last() =~= docs.take(d as int));
            assert(docs.take(d + 1 as int).last() == string_views(toks@));
            let ghost start = string_views(terms@);
            let mut t: usize = 0;
            while t < toks.len()
                invariant
                    t <= toks@.len(),
                    string_views(terms@) == add_unseen(start, string_views(toks@).take(t as int)),
                decreases toks.len() - t,
            {
                assert(string_views(toks@).take(t + 1 as int).drop_last() =~= string_views(
                    toks@,
                ).take(t as int));
                assert(string_views(toks@).take(t + 1 as int).last() == toks@[t as int]@);
                if !contains_string(&terms, &toks[t]) {
                    let ghost before = terms@;
                    terms.push(toks[t].clone());
                    assert(string_views(terms@) =~= string_views(before).push(toks@[t as int]@));
                }
                t = t + 1;
            }
            assert(string_views(toks@).take(toks@.len() as int) =~= string_views(toks@));
            docs_tokens.push(toks);
            d = d + 1;
        }
        assert(docs.take(corpus@.len() as int) =~= docs);
        let mut doc_freq: Vec<usize> = Vec::new();
        let mut k: usize = 0;
        while k < terms.len()
            invariant
                k <= terms@.len(),
                docs == tokenized(corpus@),
                docs_tokens@.len() == corpus@.len(),
                forall|j: int| 0 <= j < docs_tokens@.len() ==> string_views(#[trigger] docs_tokens@[j]@) == docs[j],
                doc_freq@.len() == k,
                forall|j: int| 0 <= j < k ==> #[trigger] doc_freq@[j] == doc_count(docs, terms@[j]@),
            decreases terms.len() - k,
        {
            let mut c: usize = 0;
            let mut e: usize = 0;
            while e < docs_tokens.len()
                invariant
                    e <= docs_tokens@.len(),
                    k < terms@.len(),
                    docs_tokens@.len() == docs.len(),
                    forall|j: int| 0 <= j < docs_tokens@.len() ==> string_views(#[trigger] docs_tokens@[j]@) == docs[j],
                    c == doc_count(docs.take(e as int), terms@[k as int]@),
                    c <= e,
                decreases docs_tokens.len() - e,
            {
                assert(docs.take(e + 1 as int).drop_last() =~= docs.take(e as int));
                assert(docs.take(e + 1 as int).last() == string_views(docs_tokens@[e as int]@));
                if contains_string(&docs_tokens[e], &terms[k]) {
                    c = c + 1;
                }
                e = e + 1;
            }
            assert(docs.take(docs_tokens@.len() as int) =~= docs);
            doc_freq.push(c);
            k = k + 1;
        }
        proof {
            let docs = tokenized(corpus@);
            assert forall|k: int| 0 <= k < terms@.len() implies 1 <= #[trigger] doc_freq@[k]
                <= corpus@.len() by {
                assert(string_views(terms@)[k] == terms@[k]@);
                assert(vocabulary_of(docs)[k] == terms@[k]@);
            }
        }
        Vocabulary { terms, doc_freq, n_docs: corpus.len() }
    }

    /// How often each vocabulary term occurs in `text`, and how many tokens it has.
    pub fn term_counts(&self, text: &str) -> (r: (Vec<usize>, usize))
        ensures
            r.0@.len() == self.terms@.len(),
            forall|k: int|
                0 <= k < self.terms@.len() ==> #[trigger] r.0@[k] == term_count(
                    tokens(text@),
                    self.terms@[k]@,
                ),
            r.1 == tokens(text@).len(),
    {
        let toks = tokenize(text);
        let ghost tv = string_views(toks@);
        let mut counts: Vec<usize> = Vec::new();
        let mut k: usize = 0;
        while k < self.terms.len()
            invariant
                k <= self.terms@.len(),
                tv == string_views(toks@),
                tv == tokens(text@),
                counts@.len() == k,
                forall|j: int| 0 <= j < k ==> #[trigger] counts@[j] == term_count(tv, self.terms@[j]@),
            decreases self.terms.len() - k,
        {
            let mut c: usize = 0;
            let mut t: usize = 0;
            while t < toks.len()
                invariant
                    t <= toks@.len(),
                    k < self.terms@.len(),
                    tv == string_views(toks@),
                    c == term_count(tv.take(t as int), self.terms@[k as int]@),
                    c <= t,
                decreases toks.len() - t,
            {
                assert(tv.take(t + 1 as int).drop_last() =~= tv.take(t as int));
                assert(tv.take(t + 1 as int).last() == toks@[t as int]@);
                if toks[t] == self.terms[k] {
                    c = c + 1;
                }
                t = t + 1;
            }
            assert(tv.take(toks@.len() as int) =~= tv);
            counts.push(c);
            k = k + 1;
        }
        (counts, toks.len())
    }
}


/// The tokens equal to `term`.
pub open spec fn is_term(term: Seq<char>) -> spec_fn(Seq<char>) -> bool {
    |x: Seq<char>| x == term
}

/// The documents holding `term`.
pub open spec fn holds_term(term: Seq<char>) -> spec_fn(Seq<Seq<char>>) -> bool {
    |d: Seq<Seq<char>>| d.contains(term)
}

proof fn lemma_term_count_filter(toks: Seq<Seq<char>>, term: Seq<char>)
    ensures
        term_count(toks, term) == toks.filter(is_term(term)).len(),
    decreases toks.len(),
{
    if toks.len() > 0 {
        lemma_term_count_filter(toks.drop_last(), term);
        let f = is_term(term);
        let sub = toks.drop_last().filter(f);
        toks.drop_last().lemma_filter_push(toks.last(), f);
        assert(toks.drop_last().push(toks.last()) =~= toks);
        assert(toks.filter(f) == (if f(toks.last()) {
            sub.push(toks.last())
        } else {
            sub
        }));
    }
}

proof fn lemma_doc_count_filter(docs: Seq<Seq<Seq<char>>>, term: Seq<char>)
    ensures
        doc_count(docs, term) == docs.filter(holds_term(term)).len(),
    decreases docs.len(),
{
    if docs.len() > 0 {
        lemma_doc_count_filter(docs.drop_last(), term);
        let f = holds_term(term);
        let sub = docs.drop_last().filter(f);
        docs.drop_last().lemma_filter_push(docs.last(), f);
        assert(docs.drop_last().push(docs.last()) =~= docs);
        assert(docs.filter(f) == (if f(docs.last()) {
            sub.push(docs.last())
        } else {
            sub
        }));
    }
}

/// A term occurs in a list of tokens as often as tokens equal to it are found there;
/// a document counts towards a term's document frequency when one of its tokens
/// equals the term.
pub proof fn lemma_counts_are_exact(toks: Seq<Seq<char>>, docs: Seq<Seq<Seq<char>>>, term: Seq<char>)
    ensures
        term_count(toks, term) == toks.filter(is_term(term)).len(),
        doc_count(docs, term) == docs.filter(holds_term(term)).len(),
{
    lemma_term_count_filter(toks, term);
    lemma_doc_count_filter(docs, term);
}


/// Reading one more character into the tokens found so far and the run in progress.
pub open spec fn token_step(st: (Seq<Seq<char>>, Seq<char>), c: char) -> (Seq<Seq<char>>, Seq<char>) {
    if unicode_alphanumeric(c) {
        (st.0, st.1.push(c))
    } else if st.1.len() > 0 {
        (st.0.push(unicode_lowercase(st.1)), seq![])
    } else {
        (st.0, seq![])
    }
}

/// Reading `b` into the state `st`.
pub open spec fn tokens_from(st: (Seq<Seq<char>>, Seq<char>), b: Seq<char>) -> (Seq<Seq<char>>, Seq<char>)
    decreases b.len(),
{
    if b.len() == 0 {
        st
    } else {
        token_step(tokens_from(st, b.drop_last()), b.last())
    }
}

proof fn lemma_tokens_acc_concat(a: Seq<char>, b: Seq<char>)
    ensures
        tokens_acc(a + b) == tokens_from(tokens_acc(a), b),
    decreases b.len(),
{
    if b.len() == 0 {
        assert(a + b =~= a);
    } else {
        assert((a + b).drop_last() =~= a + b.drop_last());
        assert((a + b).last() == b.last());
        lemma_tokens_acc_concat(a, b.drop_last());
    }
}

proof fn lemma_tokens_from_fresh(d: Seq<Seq<char>>, s: Seq<char>)
    ensures
        tokens_from((d, seq![]), s) == (d + tokens_acc(s).0, tokens_acc(s).1),
    decreases s.len(),
{
    if s.len() == 0 {
        assert(d + Seq::<Seq<char>>::empty() =~= d);
    } else {
        lemma_tokens_from_fresh(d, s.drop_last());
        let a = tokens_acc(s.drop_last());
        if !unicode_alphanumeric(s.last()) && a.1.len() > 0 {
            assert((d + a.0).push(unicode_lowercase(a.1)) =~= d + a.0.push(unicode_lowercase(a.1)));
        }
    }
}

proof fn lemma_tokens_of_run(r: Seq<char>)
    requires
        forall|i: int| 0 <= i < r.len() ==> unicode_alphanumeric(#[trigger] r[i]),
    ensures
        tokens_acc(r) == (Seq::<Seq<char>>::empty(), r),
    decreases r.len(),
{
    if r.len() > 0 {
        assert forall|i: int| 0 <= i < r.drop_last().len() implies unicode_alphanumeric(
            #[trigger] r.drop_last()[i],
        ) by {
            assert(r.drop_last()[i] == r[i]);
        }
        lemma_tokens_of_run(r.drop_last());
        assert(unicode_alphanumeric(r[r.len() - 1]));
        assert(r.drop_last().push(r.last()) =~= r);
    }
}

/// Tokens are the lowercased maximal alphanumeric runs: a character that is not
/// alphanumeric splits the text into two parts whose tokens follow one another, and
/// a run of alphanumeric characters is one token, lowercased.
pub proof fn lemma_tokens_split(a: Seq<char>, c: char, b: Seq<char>, r: Seq<char>)
    ensures
        !unicode_alphanumeric(c) ==> tokens(a + seq![c] + b) == tokens(a) + tokens(b),
        r.len() > 0 && (forall|i: int| 0 <= i < r.len() ==> unicode_alphanumeric(#[trigger] r[i]))
            ==> tokens(r) == seq![unicode_lowercase(r)],
        tokens(Seq::<char>::empty()).len() == 0,
{
    if !unicode_alphanumeric(c) {
        let ac = a + seq![c];
        assert(ac.drop_last() =~= a);
        assert(ac.last() == c);
        assert(tokens_acc(ac) == (tokens(a), Seq::<char>::empty()));
        lemma_tokens_acc_concat(ac, b);
        assert(a + seq![c] + b == ac + b);
        lemma_tokens_from_fresh(tokens(a), b);
        let tb = tokens_acc(b);
        if tb.1.len() > 0 {
            assert((tokens(a) + tb.0).push(unicode_lowercase(tb.1)) =~= tokens(a) + tb.0.push(
                unicode_lowercase(tb.1),
            ));
        }
    }
    if r.len() > 0 && (forall|i: int| 0 <= i < r.len() ==> unicode_alphanumeric(#[trigger] r[i])) {
        lemma_tokens_of_run(r);
        assert(Seq::<Seq<char>>::empty().push(unicode_lowercase(r)) =~= seq![unicode_lowercase(r)]);
    }
}

} // verus!
