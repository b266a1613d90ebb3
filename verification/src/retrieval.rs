//! Sparse retrieval: tokenization and the statistics of a BM25 index.
//!
//! The index keeps, per document, the multiplicity of each token, the document's
//! length in tokens, and, per token, the number of documents that contain it. The
//! BM25 scores themselves are logarithms and quotients of these counts, computed in
//! floating point by the caller.

use vstd::prelude::*;
use crate::text::{str_chars, chars_to_string};
use crate::protocol::Document;
use crate::assoc::find_key;

verus! {

/// The lowercase form of a text (`str::to_lowercase`, full Unicode case mapping).
pub uninterp spec fn unicode_lowercase(s: Seq<char>) -> Seq<char>;

/// The Unicode `White_Space` property of a character (PropList.txt): the control
/// characters TAB through CR, SPACE, NEL, NO-BREAK SPACE, OGHAM SPACE MARK, EN QUAD
/// through HAIR SPACE, LINE and PARAGRAPH SEPARATOR, NARROW NO-BREAK SPACE, MEDIUM
/// MATHEMATICAL SPACE and IDEOGRAPHIC SPACE.
pub open spec fn unicode_whitespace(c: char) -> bool {
    let u = c as u32;
    ||| 0x9 <= u <= 0xD
    ||| u == 0x20
    ||| u == 0x85
    ||| u == 0xA0
    ||| u == 0x1680
    ||| 0x2000 <= u <= 0x200A
    ||| u == 0x2028
    ||| u == 0x2029
    ||| u == 0x202F
    ||| u == 0x205F
    ||| u == 0x3000
}

/// The Unicode `Alphabetic` property of a character.
pub uninterp spec fn unicode_alphabetic(c: char) -> bool;

/// `str::to_lowercase`.
#[verifier::external_body]
fn to_lowercase(s: &str) -> (r: String)
    ensures
        r@ == unicode_lowercase(s@),
{
    s.to_lowercase()
}

/// Whether `c` has the Unicode `White_Space` property (as `char::is_whitespace`).
pub fn is_whitespace(c: char) -> (r: bool)
    ensures
        r == unicode_whitespace(c),
{
    let u = c as u32;
    (0x9 <= u && u <= 0xD) || u == 0x20 || u == 0x85 || u == 0xA0 || u == 0x1680
        || (0x2000 <= u && u <= 0x200A) || u == 0x2028 || u == 0x2029 || u == 0x202F
        || u == 0x205F || u == 0x3000
}

/// `char::is_alphabetic`.
#[verifier::external_body]
fn is_alphabetic(c: char) -> (r: bool)
    ensures
        r == unicode_alphabetic(c),
{
    c.is_alphabetic()
}

/// The whitespace-separated words of `cs`, when `cur` is the part of a word already read.
pub open spec fn words_from(cs: Seq<char>, cur: Seq<char>) -> Seq<Seq<char>>
    decreases cs.len(),
{
    if cs.len() == 0 {
        if cur.len() > 0 { seq![cur] } else { Seq::empty() }
    } else if unicode_whitespace(cs[0]) {
        (if cur.len() > 0 { seq![cur] } else { Seq::empty() }) + words_from(cs.drop_first(), Seq::empty())
    } else {
        words_from(cs.drop_first(), cur.push(cs[0]))
    }
}

/// The maximal runs of non-whitespace characters of `cs`, in order.
pub open spec fn split_whitespace(cs: Seq<char>) -> Seq<Seq<char>> {
    words_from(cs, Seq::empty())
}

/// `w` without its leading non-alphabetic characters.
pub open spec fn trim_front(w: Seq<char>) -> Seq<char>
    decreases w.len(),
{
    if w.len() > 0 && !unicode_alphabetic(w[0]) { trim_front(w.drop_first()) } else { w }
}

/// `w` without its trailing non-alphabetic characters.
pub open spec fn trim_back(w: Seq<char>) -> Seq<char>
    decreases w.len(),
{
    if w.len() > 0 && !unicode_alphabetic(w.last()) { trim_back(w.drop_last()) } else { w }
}

/// `w` without leading and trailing non-alphabetic characters.
pub open spec fn trim_word(w: Seq<char>) -> Seq<char> {
    trim_back(trim_front(w))
}

/// The UTF-8 encoding of `t` is longer than one byte: it has two characters or more, or
/// a single character outside ASCII.
pub open spec fn longer_than_one_byte(t: Seq<char>) -> bool {
    t.len() >= 2 || (t.len() == 1 && (t[0] as u32) >= 0x80)
}

/// The tokens made of a list of words: each word trimmed, kept when longer than a byte.
pub open spec fn clean_words(ws: Seq<Seq<char>>) -> Seq<Seq<char>>
    decreases ws.len(),
{
    if ws.len() == 0 {
        Seq::empty()
    } else {
        let r = clean_words(ws.drop_last());
        if longer_than_one_byte(trim_word(ws.last())) { r.push(trim_word(ws.last())) } else { r }
    }
}

/// The tokens of a text: its lowercase form split at whitespace, each word trimmed of
/// non-alphabetic characters at both ends, the words of one byte or less dropped.
pub open spec fn tokens_of(text: Seq<char>) -> Seq<Seq<char>> {
    clean_words(split_whitespace(unicode_lowercase(text)))
}

proof fn lemma_words_step(cs: Seq<char>, i: int, cur: Seq<char>)
    requires
        0 <= i < cs.len(),
    ensures
        words_from(cs.skip(i), cur) == if unicode_whitespace(cs[i]) {
            (if cur.len() > 0 { seq![cur] } else { Seq::<Seq<char>>::empty() }) + words_from(cs.skip(i + 1), Seq::empty())
        } else {
            words_from(cs.skip(i + 1), cur.push(cs[i]))
        },
{
    assert(cs.skip(i).drop_first() =~= cs.skip(i + 1));
    assert(cs.skip(i)[0] == cs[i]);
}

/// The whitespace-separated words of `cs`.
fn split_words(cs: &Vec<char>) -> (r: Vec<Vec<char>>)
    ensures
        r@.len() == split_whitespace(cs@).len(),
        forall|k: int| 0 <= k < r@.len() ==> (#[trigger] r@[k])@ == split_whitespace(cs@)[k],
{
    let mut words: Vec<Vec<char>> = Vec::new();
    let mut cur: Vec<char> = Vec::new();
    let ghost done: Seq<Seq<char>> = Seq::empty();
    let mut i: usize = 0;
    assert(cs@.skip(0) =~= cs@);
    while i < cs.len()
        invariant
            i <= cs@.len(),
            words@.len() == done.len(),
            forall|k: int| 0 <= k < words@.len() ==> (#[trigger] words@[k])@ == done[k],
            split_whitespace(cs@) == done + words_from(cs@.skip(i as int), cur@),
        decreases cs@.len() - i,
    {
        proof {
            lemma_words_step(cs@, i as int, cur@);
        }
        let c = cs[i];
        if is_whitespace(c) {
            if cur.len() > 0 {
                proof {
                    assert(done + (seq![cur@] + words_from(cs@.skip(i + 1), Seq::empty()))
                        =~= done.push(cur@) + words_from(cs@.skip(i + 1), Seq::empty()));
                    done = done.push(cur@);
                }
                words.push(cur);
            } else {
                assert(Seq::<Seq<char>>::empty() + words_from(cs@.skip(i + 1), Seq::empty())
                    =~= words_from(cs@.skip(i + 1), Seq::empty()));
            }
            cur = Vec::new();
        } else {
            cur.push(c);
        }
        i = i + 1;
    }
    proof {
        assert(cs@.skip(i as int).len() == 0);
    }
    if cur.len() > 0 {
        proof {
            done = done.push(cur@);
        }
        words.push(cur);
    } else {
        assert(done + Seq::<Seq<char>>::empty() =~= done);
    }
    assert(split_whitespace(cs@) =~= done);
    words
}

/// `w[lo..hi]` after trimming non-alphabetic characters at both ends.
fn trim_bounds(w: &Vec<char>) -> (r: (usize, usize))
    ensures
        r.0 <= r.1 <= w@.len(),
        w@.subrange(r.0 as int, r.1 as int) == trim_word(w@),
{
    let mut lo: usize = 0;
    assert(w@.skip(0) =~= w@);
    while lo < w.len() && !is_alphabetic(w[lo])
        invariant
            lo <= w@.len(),
            trim_front(w@) == trim_front(w@.skip(lo as int)),
        decreases w@.len() - lo,
    {
        assert(w@.skip(lo as int).drop_first() =~= w@.skip(lo + 1));
        lo = lo + 1;
    }
    assert(trim_front(w@) == w@.skip(lo as int));
    let mut hi: usize = w.len();
    while hi > lo && !is_alphabetic(w[hi - 1])
        invariant
            lo <= hi <= w@.len(),
            trim_word(w@) == trim_back(w@.subrange(lo as int, hi as int)),
        decreases hi,
    {
        assert(w@.subrange(lo as int, hi as int).drop_last() =~= w@.subrange(lo as int, hi - 1));
        hi = hi - 1;
    }
    assert(w@.skip(lo as int) =~= w@.subrange(lo as int, w@.len() as int));
    (lo, hi)
}

/// The tokens of `text`, in order.
pub fn tokenize(text: &str) -> (r: Vec<String>)
    ensures
        r@.len() == tokens_of(text@).len(),
        forall|k: int| 0 <= k < r@.len() ==> (#[trigger] r@[k])@ == tokens_of(text@)[k],
{
    let lower = to_lowercase(text);
    let chars = str_chars(lower.as_str());
    let words = split_words(&chars);
    let ghost ws = split_whitespace(chars@);
    let mut out: Vec<String> = Vec::new();
    let mut j: usize = 0;
    while j < words.len()
        invariant
            j <= words@.len(),
            words@.len() == ws.len(),
            forall|k: int| 0 <= k < words@.len() ==> (#[trigger] words@[k])@ == ws[k],
            out@.len() == clean_words(ws.take(j as int)).len(),
            forall|k: int| 0 <= k < out@.len() ==> (#[trigger] out@[k])@ == clean_words(ws.take(j as int))[k],
        decreases words@.len() - j,
    {
        assert(ws.take(j + 1).drop_last() =~= ws.take(j as int));
        assert(ws.take(j + 1).last() == ws[j as int]);
        let (lo, hi) = trim_bounds(&words[j]);
        let n = hi - lo;
        let keep = n >= 2 || (n == 1 && (words[j][lo] as u32) >= 0x80);
        if keep {
            let t = chars_to_string(&words[j].as_slice()[lo..hi]);
            let ghost before = out@;
            out.push(t);
            proof {
                assert forall|k: int| 0 <= k < out@.len() implies (#[trigger] out@[k])@ == clean_words(ws.take(j + 1))[k] by {
                    if k < before.len() {
                        assert(out@[k] == before[k]);
                    }
                }
            }
        }
        j = j + 1;
    }
    assert(ws.take(words@.len() as int) =~= ws);
    out
}

/// Occurrences of `t` in a token list.
pub open spec fn occurrences(s: Seq<Seq<char>>, t: Seq<char>) -> nat
    decreases s.len(),
{
    if s.len() == 0 { 0 } else { occurrences(s.drop_last(), t) + if s.last() == t { 1nat } else { 0nat } }
}

/// Documents (as token lists) that contain `t`.
pub open spec fn doc_frequency(docs: Seq<Seq<Seq<char>>>, t: Seq<char>) -> nat
    decreases docs.len(),
{
    if docs.len() == 0 { 0 } else { doc_frequency(docs.drop_last(), t) + if occurrences(docs.last(), t) > 0 { 1nat } else { 0nat } }
}

/// Tokens in all documents.
pub open spec fn total_tokens(docs: Seq<Seq<Seq<char>>>) -> nat
    decreases docs.len(),
{
    if docs.len() == 0 { 0 } else { total_tokens(docs.drop_last()) + docs.last().len() }
}

/// The documents that contain `t`, by index, with the occurrences of `t` in each,
/// in index order.
pub open spec fn postings_of(docs: Seq<Seq<Seq<char>>>, t: Seq<char>) -> Seq<(int, nat)>
    decreases docs.len(),
{
    if docs.len() == 0 {
        Seq::empty()
    } else {
        let r = postings_of(docs.drop_last(), t);
        if occurrences(docs.last(), t) > 0 { r.push((docs.len() - 1, occurrences(docs.last(), t))) } else { r }
    }
}

/// The entries of a counter list, abstracted.
pub open spec fn counter_entries(v: Seq<(String, usize)>) -> Seq<(Seq<char>, nat)> {
    Seq::new(v.len(), |i: int| (v[i].0@, v[i].1 as nat))
}

/// `v` counts exactly the keys with a positive `count`, each once, with that count.
pub open spec fn counts_exactly(v: Seq<(Seq<char>, nat)>, count: spec_fn(Seq<char>) -> nat) -> bool {
    &&& crate::assoc::keys_unique(v)
    &&& forall|i: int| 0 <= i < v.len() ==> (#[trigger] v[i]).1 == count(v[i].0) && v[i].1 > 0
    &&& forall|t: Seq<char>| #[trigger] count(t) > 0 ==> exists|i: int| 0 <= i < v.len() && (#[trigger] v[i]).0 == t
}

proof fn lemma_occurrences_bound(s: Seq<Seq<char>>, t: Seq<char>)
    ensures
        occurrences(s, t) <= s.len(),
    decreases s.len(),
{
    if s.len() > 0 {
        lemma_occurrences_bound(s.drop_last(), t);
    }
}

proof fn lemma_doc_frequency_bound(docs: Seq<Seq<Seq<char>>>, t: Seq<char>)
    ensures
        doc_frequency(docs, t) <= docs.len(),
    decreases docs.len(),
{
    if docs.len() > 0 {
        lemma_doc_frequency_bound(docs.drop_last(), t);
    }
}

/// Value of `key` in a counter list, 0 when absent.
fn counter_get(v: &Vec<(String, usize)>, key: &String) -> (r: (Option<usize>, usize))
    requires
        crate::assoc::keys_unique(counter_entries(v@)),
    ensures
        match r.0 {
            Some(i) => i < v@.len() && v@[i as int].0@ == key@ && r.1 == v@[i as int].1,
            None => r.1 == 0 && forall|j: int| 0 <= j < v@.len() ==> #[trigger] v@[j].0@ != key@,
        },
{
    match find_key(v, key) {
        Some(i) => (Some(i), v[i].1),
        None => (None, 0),
    }
}

/// Adds one to the counter of `key` (a new key starts at one).
fn counter_bump(v: &mut Vec<(String, usize)>, key: &String, Ghost(before): Ghost<spec_fn(Seq<char>) -> nat>, Ghost(after): Ghost<spec_fn(Seq<char>) -> nat>)
    requires
        counts_exactly(counter_entries(old(v)@), before),
        after(key@) == before(key@) + 1,
        after(key@) <= usize::MAX,
        forall|t: Seq<char>| t != key@ ==> #[trigger] after(t) == before(t),
    ensures
        counts_exactly(counter_entries(final(v)@), after),
{
    let ghost e = counter_entries(v@);
    match find_key(v, key) {
        Some(i) => {
            let c = v[i].1;
            assert(e[i as int].1 == before(key@));
            v.set(i, (key.clone(), c + 1));
            let ghost e2 = counter_entries(v@);
            assert(e2 =~= e.update(i as int, (key@, (c + 1) as nat)));
            assert forall|a: int, b: int| 0 <= a < e2.len() && 0 <= b < e2.len() && a != b implies e2[a].0 != e2[b].0 by {
                assert(e2[a].0 == e[a].0 && e2[b].0 == e[b].0);
            }
            assert forall|a: int| 0 <= a < e2.len() implies (#[trigger] e2[a]).1 == after(e2[a].0) && e2[a].1 > 0 by {
                if a != i {
                    assert(e2[a] == e[a]);
                    assert(e[a].0 != key@);
                }
            }
            assert forall|t: Seq<char>| #[trigger] after(t) > 0 implies exists|a: int| 0 <= a < e2.len() && (#[trigger] e2[a]).0 == t by {
                if t == key@ {
                    assert(e2[i as int].0 == t);
                } else {
                    assert(before(t) > 0);
                    let a = choose|a: int| 0 <= a < e.len() && (#[trigger] e[a]).0 == t;
                    assert(e2[a].0 == t);
                }
            }
        }
        None => {
            proof {
                if before(key@) > 0 {
                    let a = choose|a: int| 0 <= a < e.len() && (#[trigger] e[a]).0 == key@;
                    assert(v@[a].0@ != key@);
                }
            }
            v.push((key.clone(), 1));
            let ghost e2 = counter_entries(v@);
            assert(e2 =~= e.push((key@, 1nat)));
            assert forall|a: int, b: int| 0 <= a < e2.len() && 0 <= b < e2.len() && a != b implies e2[a].0 != e2[b].0 by {
                if a < e.len() && b < e.len() {
                    assert(e2[a].0 == e[a].0 && e2[b].0 == e[b].0);
                } else if a < e.len() {
                    assert(v@[a].0@ != key@);
                } else {
                    assert(v@[b].0@ != key@);
                }
            }
            assert forall|a: int| 0 <= a < e2.len() implies (#[trigger] e2[a]).1 == after(e2[a].0) && e2[a].1 > 0 by {
                if a < e.len() {
                    assert(e2[a] == e[a]);
                    assert(v@[a].0@ != key@);
                }
            }
            assert forall|t: Seq<char>| #[trigger] after(t) > 0 implies exists|a: int| 0 <= a < e2.len() && (#[trigger] e2[a]).0 == t by {
                if t == key@ {
                    assert(e2[e.len() as int].0 == t);
                } else {
                    assert(before(t) > 0);
                    let a = choose|a: int| 0 <= a < e.len() && (#[trigger] e[a]).0 == t;
                    assert(e2[a].0 == t);
                }
            }
        }
    }
}

/// `t` is the key of one of the first `j` entries.
pub open spec fn among_first(v: Seq<(Seq<char>, nat)>, j: int, t: Seq<char>) -> bool {
    exists|a: int| 0 <= a < j && (#[trigger] v[a]).0 == t
}

/// A BM25 index: documents with the token statistics that BM25 scoring reads.
pub struct BM25Index {
    documents: Vec<Document>,
    doc_counts: Vec<Vec<(String, usize)>>,
    doc_freq: Vec<(String, usize)>,
    doc_lengths: Vec<usize>,
    total_length: usize,
    docs: Ghost<Seq<Seq<Seq<char>>>>,
}

impl BM25Index {
    /// The token list of each document, in insertion order.
    pub closed spec fn doc_tokens(&self) -> Seq<Seq<Seq<char>>> {
        self.docs@
    }

    /// The documents, in insertion order.
    pub closed spec fn documents(&self) -> Seq<Document> {
        self.documents@
    }

    /// The statistics agree with the documents.
    pub closed spec fn wf(&self) -> bool {
        &&& self.documents@.len() == self.docs@.len()
        &&& self.doc_counts@.len() == self.docs@.len()
        &&& self.doc_lengths@.len() == self.docs@.len()
        &&& forall|i: int| 0 <= i < self.docs@.len() ==> self.docs@[i] == tokens_of((#[trigger] self.documents@[i]).content@)
        &&& forall|i: int| 0 <= i < self.docs@.len() ==> (#[trigger] self.doc_lengths@[i]) == self.docs@[i].len()
        &&& forall|i: int| 0 <= i < self.docs@.len() ==>
            counts_exactly(counter_entries(#[trigger] self.doc_counts@[i]@), |t: Seq<char>| occurrences(self.docs@[i], t))
        &&& counts_exactly(counter_entries(self.doc_freq@), |t: Seq<char>| doc_frequency(self.docs@, t))
        &&& self.total_length == total_tokens(self.docs@)
    }

    /// An empty index.
    pub fn new() -> (r: Self)
        ensures
            r.wf(),
            r.doc_tokens() == Seq::<Seq<Seq<char>>>::empty(),
            r.documents() == Seq::<Document>::empty(),
    {
        let r = BM25Index {
            documents: Vec::new(),
            doc_counts: Vec::new(),
            doc_freq: Vec::new(),
            doc_lengths: Vec::new(),
            total_length: 0,
            docs: Ghost(Seq::empty()),
        };
        assert(counter_entries(r.doc_freq@) =~= Seq::<(Seq<char>, nat)>::empty());
        r
    }

    /// Number of documents.
    pub fn len(&self) -> (r: usize)
        requires
            self.wf(),
        ensures
            r == self.documents().len(),
            r == self.doc_tokens().len(),
    {
        self.documents.len()
    }

    /// Total tokens over all documents.
    pub fn total_length(&self) -> (r: usize)
        requires
            self.wf(),
        ensures
            r == total_tokens(self.doc_tokens()),
    {
        self.total_length
    }

    /// The document at `idx`, if there is one.
    pub fn get_document(&self, idx: usize) -> (r: Option<&Document>)
        requires
            self.wf(),
        ensures
            match r {
                Some(d) => idx < self.documents().len() && *d == self.documents()[idx as int],
                None => idx >= self.documents().len(),
            },
    {
        if idx < self.documents.len() {
            Some(&self.documents[idx])
        } else {
            None
        }
    }

    /// Tokens in the document at `idx`.
    pub fn doc_length(&self, idx: usize) -> (r: usize)
        requires
            self.wf(),
            idx < self.doc_tokens().len(),
        ensures
            r == self.doc_tokens()[idx as int].len(),
    {
        self.doc_lengths[idx]
    }

    /// Number of documents that contain `term`.
    pub fn doc_freq(&self, term: &str) -> (r: usize)
        requires
            self.wf(),
        ensures
            r == doc_frequency(self.doc_tokens(), term@),
    {
        let key = term.to_owned();
        let ghost e = counter_entries(self.doc_freq@);
        let (found, c) = counter_get(&self.doc_freq, &key);
        proof {
            match found {
                Some(i) => {
                    assert(e[i as int].1 == doc_frequency(self.docs@, e[i as int].0));
                }
                None => {
                    if doc_frequency(self.docs@, term@) > 0 {
                        assert((|t: Seq<char>| doc_frequency(self.docs@, t))(term@) > 0);
                        let a = choose|a: int| 0 <= a < e.len() && (#[trigger] e[a]).0 == term@;
                        assert(self.doc_freq@[a].0@ != key@);
                    }
                }
            }
        }
        c
    }

    /// Occurrences of `term` in the document at `idx`.
    pub fn term_count(&self, idx: usize, term: &str) -> (r: usize)
        requires
            self.wf(),
            idx < self.doc_tokens().len(),
        ensures
            r == occurrences(self.doc_tokens()[idx as int], term@),
    {
        let key = term.to_owned();
        let ghost e = counter_entries(self.doc_counts@[idx as int]@);
        let ghost f = |t: Seq<char>| occurrences(self.docs@[idx as int], t);
        assert(counts_exactly(e, f));
        let (found, c) = counter_get(&self.doc_counts[idx], &key);
        proof {
            match found {
                Some(i) => {
                    assert(e[i as int].1 == f(e[i as int].0));
                }
                None => {
                    if f(term@) > 0 {
                        let a = choose|a: int| 0 <= a < e.len() && (#[trigger] e[a]).0 == term@;
                        assert(self.doc_counts@[idx as int]@[a].0@ != key@);
                    }
                }
            }
        }
        c
    }

    /// The documents that contain `term`, by index, with the occurrences of `term` in
    /// each, in index order.
    pub fn postings(&self, term: &str) -> (r: Vec<(usize, usize)>)
        requires
            self.wf(),
        ensures
            r@.len() == postings_of(self.doc_tokens(), term@).len(),
            forall|k: int| 0 <= k < r@.len() ==>
                ((#[trigger] r@[k]).0 as int, r@[k].1 as nat) == postings_of(self.doc_tokens(), term@)[k],
    {
        let n = self.documents.len();
        let mut r: Vec<(usize, usize)> = Vec::new();
        let mut i: usize = 0;
        while i < n
            invariant
                self.wf(),
                n == self.doc_tokens().len(),
                i <= n,
                r@.len() == postings_of(self.doc_tokens().take(i as int), term@).len(),
                forall|k: int| 0 <= k < r@.len() ==>
                    ((#[trigger] r@[k]).0 as int, r@[k].1 as nat) == postings_of(self.doc_tokens().take(i as int), term@)[k],
            decreases n - i,
        {
            let c = self.term_count(i, term);
            let ghost d = self.doc_tokens().take(i + 1);
            assert(d.drop_last() =~= self.doc_tokens().take(i as int));
            assert(d.last() == self.doc_tokens()[i as int]);
            if c > 0 {
                let ghost before = r@;
                r.push((i, c));
                proof {
                    assert forall|k: int| 0 <= k < r@.len() implies
                        ((#[trigger] r@[k]).0 as int, r@[k].1 as nat) == postings_of(d, term@)[k] by {
                        if k < before.len() {
                            assert(r@[k] == before[k]);
                        }
                    }
                }
            }
            i = i + 1;
        }
        assert(self.doc_tokens().take(n as int) =~= self.doc_tokens());
        r
    }

    /// Adds a document with the given tokens.
    fn add_tokens(&mut self, doc: Document, tokens: Vec<String>)
        requires
            old(self).wf(),
            old(self).doc_tokens().len() < usize::MAX,
            old(self).total_length + tokens@.len() <= usize::MAX,
            tokens@.len() == tokens_of(doc.content@).len(),
            forall|k: int| 0 <= k < tokens@.len() ==> (#[trigger] tokens@[k])@ == tokens_of(doc.content@)[k],
        ensures
            final(self).wf(),
            final(self).doc_tokens() == old(self).doc_tokens().push(tokens_of(doc.content@)),
            final(self).documents() == old(self).documents().push(doc),
    {
        let ghost toks = tokens_of(doc.content@);
        let ghost old_docs = self.docs@;
        // Multiplicity of each token in this document.
        let mut local: Vec<(String, usize)> = Vec::new();
        let mut k: usize = 0;
        assert(counter_entries(local@) =~= Seq::<(Seq<char>, nat)>::empty());
        while k < tokens.len()
            invariant
                k <= tokens@.len(),
                tokens@.len() == toks.len(),
                forall|j: int| 0 <= j < tokens@.len() ==> (#[trigger] tokens@[j])@ == toks[j],
                counts_exactly(counter_entries(local@), |t: Seq<char>| occurrences(toks.take(k as int), t)),
            decreases tokens@.len() - k,
        {
            let ghost prefix = toks.take(k as int);
            let ghost next = toks.take(k + 1);
            assert(next.drop_last() =~= prefix);
            assert(next.last() == toks[k as int]);
            proof {
                lemma_occurrences_bound(next, tokens@[k as int]@);
            }
            counter_bump(&mut local, &tokens[k],
                Ghost(|t: Seq<char>| occurrences(prefix, t)),
                Ghost(|t: Seq<char>| occurrences(next, t)));
            k = k + 1;
        }
        assert(toks.take(tokens@.len() as int) =~= toks);
        // Each distinct token of the document is in one more document.
        let ghost docs2 = old_docs.push(toks);
        assert(docs2.drop_last() =~= old_docs);
        let ghost lview = counter_entries(local@);
        let mut j: usize = 0;
        proof {
            let f0 = |t: Seq<char>| doc_frequency(old_docs, t) + if among_first(lview, 0, t) { 1nat } else { 0nat };
            assert(f0 =~= (|t: Seq<char>| doc_frequency(self.docs@, t)));
        }
        while j < local.len()
            invariant
                j <= local@.len(),
                lview == counter_entries(local@),
                counts_exactly(lview, |t: Seq<char>| occurrences(toks, t)),
                docs2 == old_docs.push(toks),
                docs2.drop_last() == old_docs,
                old_docs.len() < usize::MAX,
                counts_exactly(counter_entries(self.doc_freq@), |t: Seq<char>|
                    doc_frequency(old_docs, t) + if among_first(lview, j as int, t) { 1nat } else { 0nat }),
                self.documents@ == old(self).documents@,
                self.doc_counts@ == old(self).doc_counts@,
                self.doc_lengths@ == old(self).doc_lengths@,
                self.total_length == old(self).total_length,
                self.docs@ == old_docs,
            decreases local@.len() - j,
        {
            let ghost key = lview[j as int].0;
            proof {
                lemma_doc_frequency_bound(old_docs, key);
                assert(!among_first(lview, j as int, key)) by {
                    if among_first(lview, j as int, key) {
                        let a = choose|a: int| 0 <= a < j && (#[trigger] lview[a]).0 == key;
                        assert(lview[a].0 != lview[j as int].0);
                    }
                }
                assert(among_first(lview, j + 1, key)) by {
                    assert(lview[j as int].0 == key);
                }
                assert forall|t: Seq<char>| t != key implies
                    #[trigger] among_first(lview, j + 1, t) == among_first(lview, j as int, t) by {
                    if among_first(lview, j + 1, t) {
                        let a = choose|a: int| 0 <= a < j + 1 && (#[trigger] lview[a]).0 == t;
                        assert(a != j);
                    }
                }
            }
            counter_bump(&mut self.doc_freq, &local[j].0,
                Ghost(|t: Seq<char>| doc_frequency(old_docs, t) + if among_first(lview, j as int, t) { 1nat } else { 0nat }),
                Ghost(|t: Seq<char>| doc_frequency(old_docs, t) + if among_first(lview, j + 1, t) { 1nat } else { 0nat }));
            j = j + 1;
        }
        proof {
            let f1 = |t: Seq<char>| doc_frequency(old_docs, t) + if among_first(lview, lview.len() as int, t) { 1nat } else { 0nat };
            let f2 = |t: Seq<char>| doc_frequency(docs2, t);
            assert forall|t: Seq<char>| #[trigger] f1(t) == f2(t) by {
                if occurrences(toks, t) > 0 {
                    assert((|t: Seq<char>| occurrences(toks, t))(t) > 0);
                }
                if among_first(lview, lview.len() as int, t) {
                    let a = choose|a: int| 0 <= a < lview.len() && (#[trigger] lview[a]).0 == t;
                    assert(lview[a].1 > 0);
                }
            }
            assert(f1 =~= f2);
        }
        let n_tokens = tokens.len();
        self.doc_lengths.push(n_tokens);
        self.doc_counts.push(local);
        self.documents.push(doc);
        self.total_length = self.total_length + n_tokens;
        self.docs = Ghost(docs2);
        proof {
            assert forall|i: int| 0 <= i < self.docs@.len() implies
                counts_exactly(counter_entries(#[trigger] self.doc_counts@[i]@), |t: Seq<char>| occurrences(self.docs@[i], t)) by {
                if i < old_docs.len() {
                    assert(self.doc_counts@[i] == old(self).doc_counts@[i]);
                    assert(self.docs@[i] == old_docs[i]);
                    assert((|t: Seq<char>| occurrences(self.docs@[i], t)) =~= (|t: Seq<char>| occurrences(old_docs[i], t)));
                } else {
                    assert((|t: Seq<char>| occurrences(self.docs@[i], t)) =~= (|t: Seq<char>| occurrences(toks, t)));
                }
            }
            assert forall|i: int| 0 <= i < self.docs@.len() implies self.docs@[i] == tokens_of((#[trigger] self.documents@[i]).content@) by {
                if i < old_docs.len() {
                    assert(self.documents@[i] == old(self).documents@[i]);
                }
            }
            assert forall|i: int| 0 <= i < self.docs@.len() implies (#[trigger] self.doc_lengths@[i]) == self.docs@[i].len() by {
                if i < old_docs.len() {
                    assert(self.doc_lengths@[i] == old(self).doc_lengths@[i]);
                }
            }
        }
    }

    /// Adds a document: its tokens are counted and each distinct token is in one more
    /// document.
    pub fn add_document(&mut self, doc: Document)
        requires
            old(self).wf(),
            old(self).doc_tokens().len() < usize::MAX,
            total_tokens(old(self).doc_tokens()) + tokens_of(doc.content@).len() <= usize::MAX,
        ensures
            final(self).wf(),
            final(self).doc_tokens() == old(self).doc_tokens().push(tokens_of(doc.content@)),
            final(self).documents() == old(self).documents().push(doc),
    {
        let tokens = tokenize(doc.content.as_str());
        self.add_tokens(doc, tokens);
    }

    /// Adds a document when the counters have room for it; otherwise hands it back.
    pub fn try_add_document(&mut self, doc: Document) -> (r: Result<(), Document>)
        requires
            old(self).wf(),
        ensures
            final(self).wf(),
            match r {
                Ok(()) => final(self).doc_tokens() == old(self).doc_tokens().push(tokens_of(doc.content@))
                    && final(self).documents() == old(self).documents().push(doc),
                Err(d) => d == doc && final(self).doc_tokens() == old(self).doc_tokens()
                    && final(self).documents() == old(self).documents()
                    && (old(self).doc_tokens().len() == usize::MAX
                        || total_tokens(old(self).doc_tokens()) + tokens_of(doc.content@).len() > usize::MAX),
            },
    {
        let tokens = tokenize(doc.content.as_str());
        if self.documents.len() == usize::MAX || tokens.len() > usize::MAX - self.total_length {
            return Err(doc);
        }
        self.add_tokens(doc, tokens);
        Ok(())
    }
}

/// The postings of a token list exactly the documents that contain it: as many entries
/// as its document frequency, each with a positive count, in increasing document order.
pub proof fn law_postings_match_doc_frequency(docs: Seq<Seq<Seq<char>>>, t: Seq<char>)
    ensures
        postings_of(docs, t).len() == doc_frequency(docs, t),
        forall|k: int| 0 <= k < postings_of(docs, t).len() ==> {
            let p = #[trigger] postings_of(docs, t)[k];
            &&& 0 <= p.0 < docs.len()
            &&& p.1 == occurrences(docs[p.0], t)
            &&& p.1 > 0
        },
        forall|a: int, b: int| 0 <= a < b < postings_of(docs, t).len() ==>
            postings_of(docs, t)[a].0 < postings_of(docs, t)[b].0,
    decreases docs.len(),
{
    if docs.len() > 0 {
        let d = docs.drop_last();
        law_postings_match_doc_frequency(d, t);
        let r = postings_of(d, t);
        let p = postings_of(docs, t);
        assert forall|k: int| 0 <= k < p.len() implies {
            let e = #[trigger] p[k];
            &&& 0 <= e.0 < docs.len()
            &&& e.1 == occurrences(docs[e.0], t)
            &&& e.1 > 0
        } by {
            if k < r.len() {
                assert(p[k] == r[k]);
                assert(docs[r[k].0] == d[r[k].0]);
            }
        }
        assert forall|a: int, b: int| 0 <= a < b < p.len() implies p[a].0 < p[b].0 by {
            assert(p[a] == r[a]);
            if b < r.len() {
                assert(p[b] == r[b]);
            }
        }
    }
}

proof fn lemma_trim_front(w: Seq<char>) -> (lo: int)
    ensures
        0 <= lo <= w.len(),
        trim_front(w) == w.skip(lo),
        forall|k: int| 0 <= k < lo ==> !unicode_alphabetic(#[trigger] w[k]),
        lo < w.len() ==> unicode_alphabetic(w[lo]),
    decreases w.len(),
{
    if w.len() > 0 && !unicode_alphabetic(w[0]) {
        let d = w.drop_first();
        let l = lemma_trim_front(d);
        assert(d.skip(l) =~= w.skip(l + 1));
        assert forall|k: int| 0 <= k < l + 1 implies !unicode_alphabetic(#[trigger] w[k]) by {
            if k > 0 {
                assert(w[k] == d[k - 1]);
            }
        }
        assert(l < d.len() ==> w[l + 1] == d[l]);
        l + 1
    } else {
        assert(w.skip(0) =~= w);
        0
    }
}

proof fn lemma_trim_back(w: Seq<char>) -> (hi: int)
    ensures
        0 <= hi <= w.len(),
        trim_back(w) == w.take(hi),
        forall|k: int| hi <= k < w.len() ==> !unicode_alphabetic(#[trigger] w[k]),
        hi > 0 ==> unicode_alphabetic(w[hi - 1]),
    decreases w.len(),
{
    if w.len() > 0 && !unicode_alphabetic(w.last()) {
        let d = w.drop_last();
        let h = lemma_trim_back(d);
        assert(d.take(h) =~= w.take(h));
        assert forall|k: int| h <= k < w.len() implies !unicode_alphabetic(#[trigger] w[k]) by {
            if k < d.len() {
                assert(w[k] == d[k]);
            }
        }
        if h > 0 {
            assert(w[h - 1] == d[h - 1]);
        }
        h
    } else {
        assert(w.take(w.len() as int) =~= w);
        w.len() as int
    }
}

/// Trimming a word removes every non-alphabetic character at both of its ends and
/// nothing else: the result is the infix `w[lo..hi]` where everything before `lo` and
/// from `hi` on is non-alphabetic, and a non-empty result starts and ends with an
/// alphabetic character (an empty one means the word has no alphabetic character).
pub proof fn law_trim_word_strips_both_ends(w: Seq<char>) -> (r: (int, int))
    ensures
        0 <= r.0 <= r.1 <= w.len(),
        trim_word(w) == w.subrange(r.0, r.1),
        forall|k: int| 0 <= k < r.0 ==> !unicode_alphabetic(#[trigger] w[k]),
        forall|k: int| r.1 <= k < w.len() ==> !unicode_alphabetic(#[trigger] w[k]),
        r.0 < r.1 ==> unicode_alphabetic(w[r.0]) && unicode_alphabetic(w[r.1 - 1]),
{
    let lo = lemma_trim_front(w);
    let f = w.skip(lo);
    let h = lemma_trim_back(f);
    assert(f.take(h) =~= w.subrange(lo, lo + h));
    assert forall|k: int| lo + h <= k < w.len() implies !unicode_alphabetic(#[trigger] w[k]) by {
        assert(w[k] == f[k - lo]);
    }
    if h > 0 {
        assert(w[lo + h - 1] == f[h - 1]);
    }
    (lo, lo + h)
}

proof fn lemma_clean_words_ends(ws: Seq<Seq<char>>)
    ensures
        forall|k: int| 0 <= k < clean_words(ws).len() ==> {
            let t = #[trigger] clean_words(ws)[k];
            t.len() > 0 && unicode_alphabetic(t[0]) && unicode_alphabetic(t.last())
        },
    decreases ws.len(),
{
    if ws.len() > 0 {
        lemma_clean_words_ends(ws.drop_last());
        let w = ws.last();
        let t = trim_word(w);
        if longer_than_one_byte(t) {
            let r = law_trim_word_strips_both_ends(w);
            assert(t[0] == w[r.0]);
            assert(t.last() == w[r.1 - 1]);
            let c = clean_words(ws.drop_last());
            assert forall|k: int| 0 <= k < clean_words(ws).len() implies {
                let u = #[trigger] clean_words(ws)[k];
                u.len() > 0 && unicode_alphabetic(u[0]) && unicode_alphabetic(u.last())
            } by {
                if k < c.len() {
                    assert(clean_words(ws)[k] == c[k]);
                }
            }
        }
    }
}

/// Every token of a text is non-empty and starts and ends with an alphabetic character:
/// no punctuation is left at either end of a token, however much a word carried.
pub proof fn law_tokens_have_alphabetic_ends(text: Seq<char>)
    ensures
        forall|k: int| 0 <= k < tokens_of(text).len() ==> {
            let t = #[trigger] tokens_of(text)[k];
            t.len() > 0 && unicode_alphabetic(t[0]) && unicode_alphabetic(t.last())
        },
{
    lemma_clean_words_ends(split_whitespace(unicode_lowercase(text)));
}

} // verus!
