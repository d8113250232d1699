//! Content-addressed vector cache.
//!
//! Each text is stored under `embedding:<md5 of the text, in lower-case hex>`
//! together with its embedding, so identical content always maps to the same
//! entry. Looking texts up is split in two steps around the embedding call: the
//! cache names the texts it lacks, the caller embeds them in one batch, and the
//! cache stores the batch.
use vstd::prelude::*;
use vstd::string::*;
use crate::corpus::File;
use crate::embeddings::EmbeddingError;
use crate::ranking::dimensions_fit;
use crate::similarity::{cosine, cosine_similarity, MAX_DIMENSION};

verus! {

/// The MD5 digest of a text's UTF-8 bytes.
pub uninterp spec fn md5_digest_of(text: Seq<char>) -> Seq<u8>;

/// Relies on `md5::compute`: the 16-byte MD5 digest of the given bytes.
#[verifier::external_body]
fn md5_digest(text: &str) -> (r: Vec<u8>)
    ensures
        r@ == md5_digest_of(text@),
        r@.len() == 16,
{
    md5::compute(text.as_bytes()).0.to_vec()
}

pub open spec fn hex_digits() -> Seq<char> {
    seq!['0', '1', '2', '3', '4', '5', '6', '7', '8', '9', 'a', 'b', 'c', 'd', 'e', 'f']
}

/// Two lower-case hex digits per byte, high nibble first.
pub open spec fn hex_of(bytes: Seq<u8>) -> Seq<char>
    decreases bytes.len(),
{
    if bytes.len() == 0 {
        Seq::empty()
    } else {
        let b = bytes.last();
        hex_of(bytes.drop_last()) + seq![hex_digits()[(b / 16) as int], hex_digits()[(b % 16) as int]]
    }
}

pub open spec fn key_prefix() -> Seq<char> {
    seq!['e', 'm', 'b', 'e', 'd', 'd', 'i', 'n', 'g', ':']
}

/// The store key of a text.
pub open spec fn cache_key_of(text: Seq<char>) -> Seq<char> {
    key_prefix() + hex_of(md5_digest_of(text))
}

/// The key for a digest: the namespace, then the digest in lower-case hex.
pub fn key_of_digest(digest: &Vec<u8>) -> (r: String)
    ensures
        r@ == key_prefix() + hex_of(digest@),
{
    let digits = "0123456789abcdef";
    proof {
        reveal_strlit("0123456789abcdef");
        reveal_strlit("embedding:");
        assert(digits@ =~= hex_digits());
        assert("embedding:"@ =~= key_prefix());
        assert(digest@.subrange(0, 0) =~= Seq::<u8>::empty());
    }
    let mut key = String::from_str("embedding:");
    let mut i: usize = 0;
    while i < digest.len()
        invariant
            i <= digest@.len(),
            digits@ == hex_digits(),
            key@ == key_prefix() + hex_of(digest@.subrange(0, i as int)),
        decreases digest@.len() - i,
    {
        let b = digest[i];
        let high = (b / 16) as usize;
        let low = (b % 16) as usize;
        key = key.concat(digits.substring_char(high, high + 1));
        key = key.concat(digits.substring_char(low, low + 1));
        proof {
            let next = digest@.subrange(0, i + 1);
            assert(next.drop_last() =~= digest@.subrange(0, i as int));
            assert(digits@.subrange(high as int, high + 1) =~= seq![hex_digits()[(b / 16) as int]]);
            assert(digits@.subrange(low as int, low + 1) =~= seq![hex_digits()[(b % 16) as int]]);
            assert(key@ =~= key_prefix() + hex_of(next));
        }
        i = i + 1;
    }
    proof {
        assert(digest@.subrange(0, digest@.len() as int) =~= digest@);
    }
    key
}

/// The key under which the embedding of `text` is stored.
pub fn cache_key(text: &str) -> (r: String)
    ensures
        r@ == cache_key_of(text@),
{
    let digest = md5_digest(text);
    key_of_digest(&digest)
}

/// One stored text and its embedding, under the text's key.
#[derive(Debug)]
pub struct CacheEntry {
    pub key: String,
    pub text: String,
    pub embedding: Vec<i16>,
}

/// What a cache holds: from key to stored text and embedding.
pub type CacheModel = Map<Seq<char>, (Seq<char>, Seq<i16>)>;

/// A content-addressed store of embeddings, one entry per key.
pub struct VectorCache {
    entries: Vec<CacheEntry>,
    model: Ghost<CacheModel>,
}

pub open spec fn string_views(s: Seq<String>) -> Seq<Seq<char>> {
    s.map_values(|x: String| x@)
}

pub open spec fn vector_views(s: Seq<Vec<i16>>) -> Seq<Seq<i16>> {
    s.map_values(|x: Vec<i16>| x@)
}

/// The texts among `texts` whose key is not stored, each once, in order of
/// first occurrence: the texts that still need an embedding.
pub open spec fn misses_of(m: CacheModel, texts: Seq<Seq<char>>) -> Seq<Seq<char>>
    decreases texts.len(),
{
    if texts.len() == 0 {
        Seq::empty()
    } else {
        let prev = misses_of(m, texts.drop_last());
        let t = texts.last();
        if !m.contains_key(cache_key_of(t)) && !prev.contains(t) {
            prev.push(t)
        } else {
            prev
        }
    }
}

/// The cache after storing `embeddings[i]` for `texts[i]`, in order; a later
/// text with the same key overwrites an earlier one.
pub open spec fn stored_all(m: CacheModel, texts: Seq<Seq<char>>, embeddings: Seq<Seq<i16>>) -> CacheModel
    decreases texts.len(),
{
    if texts.len() == 0 || texts.len() != embeddings.len() {
        m
    } else {
        stored_all(m, texts.drop_last(), embeddings.drop_last()).insert(
            cache_key_of(texts.last()),
            (texts.last(), embeddings.last()),
        )
    }
}

/// The stored embedding of each text, or `None` if one of them is not stored.
pub open spec fn hits_of(m: CacheModel, texts: Seq<Seq<char>>) -> Option<Seq<Seq<i16>>> {
    if forall|i: int| 0 <= i < texts.len() ==> m.contains_key(cache_key_of(#[trigger] texts[i])) {
        Some(texts.map_values(|t: Seq<char>| m[cache_key_of(t)].1))
    } else {
        None
    }
}

/// `stored` lists the cache `m`: one item per key, each the text and
/// embedding stored under that key.
pub open spec fn lists_model(stored: Seq<(Seq<char>, Seq<i16>)>, m: CacheModel) -> bool {
    &&& forall|i: int| 0 <= i < stored.len() ==> m.contains_key(cache_key_of((#[trigger] stored[i]).0))
        && m[cache_key_of(stored[i].0)] == stored[i]
    &&& forall|i: int, j: int| 0 <= i < j < stored.len() ==> cache_key_of((#[trigger] stored[i]).0)
        != cache_key_of((#[trigger] stored[j]).0)
    &&& forall|k: Seq<char>| #[trigger] m.contains_key(k) ==> exists|i: int|
        0 <= i < stored.len() && cache_key_of((#[trigger] stored[i]).0) == k
}

fn copy_embedding(v: &Vec<i16>) -> (r: Vec<i16>)
    ensures
        r@ == v@,
{
    let mut r: Vec<i16> = Vec::new();
    let mut i: usize = 0;
    while i < v.len()
        invariant
            i <= v@.len(),
            r@ == v@.subrange(0, i as int),
        decreases v@.len() - i,
    {
        r.push(v[i]);
        i = i + 1;
    }
    assert(r@ =~= v@);
    r
}

fn contains_text(texts: &Vec<String>, t: &String) -> (r: bool)
    ensures
        r == string_views(texts@).contains(t@),
{
    let mut i: usize = 0;
    while i < texts.len()
        invariant
            i <= texts@.len(),
            forall|k: int| 0 <= k < i ==> (#[trigger] texts@[k])@ != t@,
        decreases texts@.len() - i,
    {
        if texts[i] == *t {
            assert(string_views(texts@)[i as int] == t@);
            return true;
        }
        i = i + 1;
    }
    assert(!string_views(texts@).contains(t@)) by {
        if string_views(texts@).contains(t@) {
            let k = choose|k: int| 0 <= k < string_views(texts@).len() && string_views(texts@)[k] == t@;
            assert(texts@[k]@ == t@);
        }
    }
    false
}

impl View for VectorCache {
    type V = CacheModel;

    closed spec fn view(&self) -> CacheModel {
        self.model@
    }
}

impl VectorCache {
    /// Keys are unique and derived from their texts, every stored embedding
    /// fits the scoring dimension, and the entries are exactly the model.
    pub closed spec fn wf(&self) -> bool {
        &&& forall|i: int| 0 <= i < self.entries@.len() ==> {
            let e = #[trigger] self.entries@[i];
            &&& e.key@ == cache_key_of(e.text@)
            &&& e.embedding@.len() <= MAX_DIMENSION
            &&& self.model@.contains_key(e.key@)
            &&& self.model@[e.key@] == (e.text@, e.embedding@)
        }
        &&& forall|i: int, j: int|
            0 <= i < j < self.entries@.len() ==> (#[trigger] self.entries@[i]).key@
                != (#[trigger] self.entries@[j]).key@
        &&& forall|k: Seq<char>| #[trigger]
            self.model@.contains_key(k) ==> exists|i: int|
                0 <= i < self.entries@.len() && (#[trigger] self.entries@[i]).key@ == k
    }

    /// The stored texts and embeddings, in the order they were first stored.
    pub closed spec fn stored(&self) -> Seq<(Seq<char>, Seq<i16>)> {
        self.entries@.map_values(|e: CacheEntry| (e.text@, e.embedding@))
    }

    /// An empty cache.
    pub fn new() -> (r: VectorCache)
        ensures
            r.wf(),
            r@ == CacheModel::empty(),
            r.stored().len() == 0,
    {
        VectorCache { entries: Vec::new(), model: Ghost(Map::empty()) }
    }

    /// The number of stored entries.
    pub fn len(&self) -> (r: usize)
        requires
            self.wf(),
        ensures
            r == self.stored().len(),
            lists_model(self.stored(), self@),
    {
        proof {
            self.lemma_lists_model();
        }
        self.entries.len()
    }

    /// The listing of a well-formed cache holds each stored key once.
    pub proof fn lemma_lists_model(&self)
        requires
            self.wf(),
        ensures
            lists_model(self.stored(), self@),
    {
        let st = self.stored();
        assert forall|i: int| 0 <= i < st.len() implies self@.contains_key(cache_key_of((#[trigger] st[i]).0))
            && self@[cache_key_of(st[i].0)] == st[i] by {
            let e = self.entries@[i];
        }
        assert forall|i: int, j: int| 0 <= i < j < st.len() implies cache_key_of((#[trigger] st[i]).0)
            != cache_key_of((#[trigger] st[j]).0) by {
            let ei = self.entries@[i];
            let ej = self.entries@[j];
        }
        assert forall|k: Seq<char>| #[trigger] self@.contains_key(k) implies exists|i: int|
            0 <= i < st.len() && cache_key_of((#[trigger] st[i]).0) == k by {
            let i = choose|i: int| 0 <= i < self.entries@.len() && (#[trigger] self.entries@[i]).key@ == k;
            assert(cache_key_of(st[i].0) == k);
        }
    }

    fn find(&self, key: &String) -> (r: Option<usize>)
        requires
            self.wf(),
        ensures
            match r {
                Some(i) => i < self.entries@.len() && self.entries@[i as int].key@ == key@,
                None => !self@.contains_key(key@),
            },
    {
        let mut i: usize = 0;
        while i < self.entries.len()
            invariant
                i <= self.entries@.len(),
                forall|k: int| 0 <= k < i ==> (#[trigger] self.entries@[k]).key@ != key@,
            decreases self.entries@.len() - i,
        {
            if self.entries[i].key == *key {
                return Some(i);
            }
            i = i + 1;
        }
        None
    }

    /// Stores `embedding` for `text` under the text's key, replacing what was
    /// stored there. An embedding longer than scoring supports is refused.
    pub fn insert(&mut self, text: String, embedding: Vec<i16>) -> (r: Result<(), EmbeddingError>)
        requires
            old(self).wf(),
        ensures
            final(self).wf(),
            embedding@.len() > MAX_DIMENSION ==> r == Err::<(), EmbeddingError>(EmbeddingError::DimensionTooLarge)
                && final(self)@ == old(self)@,
            embedding@.len() <= MAX_DIMENSION ==> r is Ok && final(self)@ == old(self)@.insert(
                cache_key_of(text@),
                (text@, embedding@),
            ),
    {
        if embedding.len() > MAX_DIMENSION {
            return Err(EmbeddingError::DimensionTooLarge);
        }
        let key = cache_key(text.as_str());
        let ghost k = key@;
        let ghost value = (text@, embedding@);
        let ghost old_entries = self.entries@;
        let ghost new_model = self.model@.insert(k, value);
        match self.find(&key) {
            Some(i) => {
                self.entries.set(i, CacheEntry { key, text, embedding });
                self.model = Ghost(new_model);
                assert forall|j: Seq<char>| #[trigger] self.model@.contains_key(j) implies exists|x: int|
                    0 <= x < self.entries@.len() && (#[trigger] self.entries@[x]).key@ == j by {
                    if j != k {
                        let x = choose|x: int| 0 <= x < old_entries.len() && (#[trigger] old_entries[x]).key@ == j;
                        assert(self.entries@[x] == old_entries[x]);
                    } else {
                        assert(self.entries@[i as int].key@ == j);
                    }
                }
            },
            None => {
                self.entries.push(CacheEntry { key, text, embedding });
                self.model = Ghost(new_model);
                assert forall|j: Seq<char>| #[trigger] self.model@.contains_key(j) implies exists|x: int|
                    0 <= x < self.entries@.len() && (#[trigger] self.entries@[x]).key@ == j by {
                    if j != k {
                        let x = choose|x: int| 0 <= x < old_entries.len() && (#[trigger] old_entries[x]).key@ == j;
                        assert(self.entries@[x] == old_entries[x]);
                    } else {
                        assert(self.entries@[old_entries.len() as int].key@ == j);
                    }
                }
            },
        }
        Ok(())
    }

    /// The stored embedding of `text`, if its key is stored.
    pub fn lookup(&self, text: &str) -> (r: Option<Vec<i16>>)
        requires
            self.wf(),
        ensures
            r is Some <==> self@.contains_key(cache_key_of(text@)),
            r is Some ==> r->Some_0@ == self@[cache_key_of(text@)].1,
    {
        let key = cache_key(text);
        match self.find(&key) {
            Some(i) => Some(copy_embedding(&self.entries[i].embedding)),
            None => None,
        }
    }

    /// The texts that still need an embedding: those whose key is not
    /// stored, each once, in order of first occurrence.
    pub fn misses(&self, texts: &Vec<String>) -> (r: Vec<String>)
        requires
            self.wf(),
        ensures
            string_views(r@) == misses_of(self@, string_views(texts@)),
    {
        let mut r: Vec<String> = Vec::new();
        let mut i: usize = 0;
        proof {
            assert(string_views(texts@).subrange(0, 0) =~= Seq::<Seq<char>>::empty());
            assert(string_views(r@) =~= Seq::<Seq<char>>::empty());
        }
        while i < texts.len()
            invariant
                self.wf(),
                i <= texts@.len(),
                string_views(r@) == misses_of(self@, string_views(texts@).subrange(0, i as int)),
            decreases texts@.len() - i,
        {
            let t = &texts[i];
            let ghost next = string_views(texts@).subrange(0, i + 1);
            proof {
                assert(next.drop_last() =~= string_views(texts@).subrange(0, i as int));
                assert(next.last() == t@);
            }
            let key = cache_key(t.as_str());
            if self.find(&key).is_none() && !contains_text(&r, t) {
                let ghost old_r = r@;
                r.push(t.clone());
                proof {
                    assert(string_views(r@) =~= string_views(old_r).push(t@));
                }
            }
            i = i + 1;
        }
        proof {
            assert(string_views(texts@).subrange(0, texts@.len() as int) =~= string_views(texts@));
        }
        r
    }

    /// Stores `embeddings[i]` for `texts[i]`, in order. A batch whose length
    /// differs from the texts', or that holds a vector longer than scoring
    /// supports, is refused and nothing is stored.
    pub fn store_batch(&mut self, texts: Vec<String>, embeddings: Vec<Vec<i16>>) -> (r: Result<(), EmbeddingError>)
        requires
            old(self).wf(),
        ensures
            final(self).wf(),
            texts@.len() != embeddings@.len() ==> r == Err::<(), EmbeddingError>(EmbeddingError::CountMismatch)
                && final(self)@ == old(self)@,
            texts@.len() == embeddings@.len() && (exists|i: int| 0 <= i < embeddings@.len()
                && (#[trigger] embeddings@[i])@.len() > MAX_DIMENSION) ==> r == Err::<(), EmbeddingError>(
                EmbeddingError::DimensionTooLarge) && final(self)@ == old(self)@,
            r is Ok <==> texts@.len() == embeddings@.len() && forall|i: int| 0 <= i < embeddings@.len()
                ==> (#[trigger] embeddings@[i])@.len() <= MAX_DIMENSION,
            r is Ok ==> final(self)@ == stored_all(old(self)@, string_views(texts@), vector_views(embeddings@)),
    {
        if texts.len() != embeddings.len() {
            return Err(EmbeddingError::CountMismatch);
        }
        let mut i: usize = 0;
        while i < embeddings.len()
            invariant
                self.wf(),
                self@ == old(self)@,
                i <= embeddings@.len(),
                texts@.len() == embeddings@.len(),
                forall|k: int| 0 <= k < i ==> (#[trigger] embeddings@[k])@.len() <= MAX_DIMENSION,
            decreases embeddings@.len() - i,
        {
            if embeddings[i].len() > MAX_DIMENSION {
                return Err(EmbeddingError::DimensionTooLarge);
            }
            i = i + 1;
        }
        let ghost start = self@;
        let ghost ts = string_views(texts@);
        let ghost es = vector_views(embeddings@);
        let mut j: usize = 0;
        proof {
            assert(ts.subrange(0, 0) =~= Seq::<Seq<char>>::empty());
        }
        while j < texts.len()
            invariant
                self.wf(),
                j <= texts@.len(),
                texts@.len() == embeddings@.len(),
                ts == string_views(texts@),
                es == vector_views(embeddings@),
                forall|k: int| 0 <= k < embeddings@.len() ==> (#[trigger] embeddings@[k])@.len() <= MAX_DIMENSION,
                self@ == stored_all(start, ts.subrange(0, j as int), es.subrange(0, j as int)),
            decreases texts@.len() - j,
        {
            let t = texts[j].clone();
            let e = copy_embedding(&embeddings[j]);
            proof {
                assert(ts.subrange(0, j + 1).drop_last() =~= ts.subrange(0, j as int));
                assert(es.subrange(0, j + 1).drop_last() =~= es.subrange(0, j as int));
                assert(ts.subrange(0, j + 1).last() == t@);
                assert(es.subrange(0, j + 1).last() == e@);
            }
            let _ = self.insert(t, e);
            j = j + 1;
        }
        proof {
            assert(ts.subrange(0, texts@.len() as int) =~= ts);
            assert(es.subrange(0, texts@.len() as int) =~= es);
        }
        Ok(())
    }

    /// The stored embedding of each text, in order, or `None` if one of
    /// them is not stored.
    pub fn embeddings_for(&self, texts: &Vec<String>) -> (r: Option<Vec<Vec<i16>>>)
        requires
            self.wf(),
        ensures
            match r {
                Some(v) => hits_of(self@, string_views(texts@)) == Some(vector_views(v@)),
                None => hits_of(self@, string_views(texts@)) is None,
            },
    {
        let mut out: Vec<Vec<i16>> = Vec::new();
        let mut i: usize = 0;
        let ghost ts = string_views(texts@);
        while i < texts.len()
            invariant
                self.wf(),
                i <= texts@.len(),
                ts == string_views(texts@),
                out@.len() == i,
                forall|k: int| 0 <= k < i ==> self@.contains_key(cache_key_of(#[trigger] ts[k])),
                forall|k: int| 0 <= k < i ==> (#[trigger] out@[k])@ == self@[cache_key_of(ts[k])].1,
            decreases texts@.len() - i,
        {
            match self.lookup(texts[i].as_str()) {
                Some(v) => {
                    out.push(v);
                },
                None => {
                    assert(!(forall|k: int| 0 <= k < ts.len() ==> self@.contains_key(cache_key_of(#[trigger] ts[k])))) by {
                        assert(ts[i as int] == texts@[i as int]@);
                    }
                    return None;
                },
            }
            i = i + 1;
        }
        proof {
            assert(vector_views(out@) =~= ts.map_values(|t: Seq<char>| self@[cache_key_of(t)].1));
        }
        Some(out)
    }

    /// The stored entries as a corpus, in the order they were first stored:
    /// each file is named by its key and holds the stored text and embedding.
    pub fn documents(&self) -> (r: Vec<File>)
        requires
            self.wf(),
        ensures
            r@.len() == self.stored().len(),
            lists_model(self.stored(), self@),
            dimensions_fit(r@),
            forall|i: int| 0 <= i < r@.len() ==> {
                &&& (#[trigger] r@[i]).path@ == cache_key_of(self.stored()[i].0)
                &&& r@[i].content@ == self.stored()[i].0
                &&& r@[i].embedding@ == self.stored()[i].1
            },
    {
        let mut r: Vec<File> = Vec::new();
        let mut i: usize = 0;
        while i < self.entries.len()
            invariant
                self.wf(),
                i <= self.entries@.len(),
                r@.len() == i,
                dimensions_fit(r@),
                forall|k: int| 0 <= k < i ==> {
                    &&& (#[trigger] r@[k]).path@ == cache_key_of(self.stored()[k].0)
                    &&& r@[k].content@ == self.stored()[k].0
                    &&& r@[k].embedding@ == self.stored()[k].1
                },
            decreases self.entries@.len() - i,
        {
            let e = &self.entries[i];
            r.push(File { path: e.key.clone(), content: e.text.clone(), embedding: copy_embedding(&e.embedding) });
            i = i + 1;
        }
        proof {
            self.lemma_lists_model();
        }
        r
    }

    /// Scores every stored text against `query_embedding`, in the order the
    /// entries were first stored. Fails if a stored vector's dimension differs
    /// from the query's, or the query is longer than scoring supports.
    pub fn retrieve_documents_and_compute_similarity(&self, query_embedding: &Vec<i16>) -> (r: Result<
        Vec<(String, i64)>,
        EmbeddingError,
    >)
        requires
            self.wf(),
        ensures
            lists_model(self.stored(), self@),
            query_embedding@.len() > MAX_DIMENSION ==> r == Err::<Vec<(String, i64)>, EmbeddingError>(
                EmbeddingError::DimensionTooLarge),
            r is Ok <==> query_embedding@.len() <= MAX_DIMENSION && forall|i: int| 0 <= i < self.stored().len()
                ==> (#[trigger] self.stored()[i]).1.len() == query_embedding@.len(),
            query_embedding@.len() <= MAX_DIMENSION && r is Err ==> r == Err::<Vec<(String, i64)>, EmbeddingError>(
                EmbeddingError::DimensionMismatch),
            r is Ok ==> r->Ok_0@.len() == self.stored().len() && forall|i: int| 0 <= i < r->Ok_0@.len()
                ==> (#[trigger] r->Ok_0@[i]).0@ == self.stored()[i].0
                && r->Ok_0@[i].1 == cosine(query_embedding@, self.stored()[i].1),
    {
        proof {
            self.lemma_lists_model();
        }
        if query_embedding.len() > MAX_DIMENSION {
            return Err(EmbeddingError::DimensionTooLarge);
        }
        let mut j: usize = 0;
        while j < self.entries.len()
            invariant
                self.wf(),
                lists_model(self.stored(), self@),
                query_embedding@.len() <= MAX_DIMENSION,
                j <= self.entries@.len(),
                forall|k: int| 0 <= k < j ==> (#[trigger] self.stored()[k]).1.len() == query_embedding@.len(),
            decreases self.entries@.len() - j,
        {
            if self.entries[j].embedding.len() != query_embedding.len() {
                assert(self.stored()[j as int].1.len() != query_embedding@.len());
                return Err(EmbeddingError::DimensionMismatch);
            }
            j = j + 1;
        }
        let mut r: Vec<(String, i64)> = Vec::new();
        let mut i: usize = 0;
        while i < self.entries.len()
            invariant
                self.wf(),
                lists_model(self.stored(), self@),
                query_embedding@.len() <= MAX_DIMENSION,
                forall|k: int| 0 <= k < self.stored().len() ==> (#[trigger] self.stored()[k]).1.len() == query_embedding@.len(),
                i <= self.entries@.len(),
                r@.len() == i,
                forall|k: int| 0 <= k < i ==> (#[trigger] r@[k]).0@ == self.stored()[k].0
                    && r@[k].1 == cosine(query_embedding@, self.stored()[k].1),
            decreases self.entries@.len() - i,
        {
            let e = &self.entries[i];
            assert(self.stored()[i as int].1.len() == query_embedding@.len());
            let score = cosine_similarity(query_embedding.as_slice(), e.embedding.as_slice());
            r.push((e.text.clone(), score));
            i = i + 1;
        }
        Ok(r)
    }
}

proof fn lemma_stored_all_keys(m: CacheModel, texts: Seq<Seq<char>>, embeddings: Seq<Seq<i16>>)
    requires
        texts.len() == embeddings.len(),
    ensures
        forall|k: Seq<char>| m.contains_key(k) ==> #[trigger] stored_all(m, texts, embeddings).contains_key(k),
        forall|i: int| 0 <= i < texts.len() ==> stored_all(m, texts, embeddings).contains_key(
            cache_key_of(#[trigger] texts[i]),
        ),
    decreases texts.len(),
{
    if texts.len() > 0 {
        let pt = texts.drop_last();
        lemma_stored_all_keys(m, pt, embeddings.drop_last());
        assert forall|k: Seq<char>| m.contains_key(k) implies #[trigger] stored_all(m, texts, embeddings).contains_key(k) by {
            assert(stored_all(m, pt, embeddings.drop_last()).contains_key(k));
        }
        assert forall|i: int| 0 <= i < texts.len() implies stored_all(m, texts, embeddings).contains_key(
            cache_key_of(#[trigger] texts[i]),
        ) by {
            if i < texts.len() - 1 {
                assert(texts[i] == pt[i]);
            }
        }
    }
}

proof fn lemma_misses_cover(m: CacheModel, texts: Seq<Seq<char>>)
    ensures
        forall|i: int| 0 <= i < texts.len() ==> m.contains_key(cache_key_of(#[trigger] texts[i]))
            || misses_of(m, texts).contains(texts[i]),
    decreases texts.len(),
{
    if texts.len() > 0 {
        let pt = texts.drop_last();
        lemma_misses_cover(m, pt);
        let prev = misses_of(m, pt);
        assert forall|i: int| 0 <= i < texts.len() implies m.contains_key(cache_key_of(#[trigger] texts[i]))
            || misses_of(m, texts).contains(texts[i]) by {
            if i < texts.len() - 1 {
                assert(texts[i] == pt[i]);
                if prev.contains(texts[i]) {
                    let k = choose|k: int| 0 <= k < prev.len() && prev[k] == texts[i];
                    assert(misses_of(m, texts)[k] == texts[i]);
                }
            } else {
                if !m.contains_key(cache_key_of(texts[i])) && !prev.contains(texts[i]) {
                    assert(misses_of(m, texts)[prev.len() as int] == texts[i]);
                }
            }
        }
    }
}

proof fn lemma_no_misses(m: CacheModel, texts: Seq<Seq<char>>)
    requires
        forall|i: int| 0 <= i < texts.len() ==> m.contains_key(cache_key_of(#[trigger] texts[i])),
    ensures
        misses_of(m, texts) == Seq::<Seq<char>>::empty(),
    decreases texts.len(),
{
    if texts.len() > 0 {
        let pt = texts.drop_last();
        assert forall|i: int| 0 <= i < pt.len() implies m.contains_key(cache_key_of(#[trigger] pt[i])) by {
            assert(pt[i] == texts[i]);
        }
        lemma_no_misses(m, pt);
        assert(m.contains_key(cache_key_of(texts[texts.len() - 1])));
    }
}

/// Once the embeddings of a batch's misses have been stored, embedding the
/// same batch again needs no embedding call: nothing is missing, and each
/// text is found under the key it had the first time.
pub proof fn lemma_second_pass_hits(m: CacheModel, texts: Seq<Seq<char>>, embeddings: Seq<Seq<i16>>)
    requires
        embeddings.len() == misses_of(m, texts).len(),
    ensures
        misses_of(stored_all(m, misses_of(m, texts), embeddings), texts) == Seq::<Seq<char>>::empty(),
        hits_of(stored_all(m, misses_of(m, texts), embeddings), texts) is Some,
{
    let missing = misses_of(m, texts);
    let after = stored_all(m, missing, embeddings);
    lemma_stored_all_keys(m, missing, embeddings);
    lemma_misses_cover(m, texts);
    assert forall|i: int| 0 <= i < texts.len() implies after.contains_key(cache_key_of(#[trigger] texts[i])) by {
        if !m.contains_key(cache_key_of(texts[i])) {
            let k = choose|k: int| 0 <= k < missing.len() && missing[k] == texts[i];
            assert(after.contains_key(cache_key_of(missing[k])));
        }
    }
    lemma_no_misses(after, texts);
}

/// Storing an embedding for a text and looking the text up again returns that
/// embedding, under the same key, with no miss.
pub proof fn lemma_store_then_lookup(m: CacheModel, text: Seq<char>, embedding: Seq<i16>)
    ensures
        stored_all(m, seq![text], seq![embedding])[cache_key_of(text)] == (text, embedding),
        misses_of(stored_all(m, seq![text], seq![embedding]), seq![text]) == Seq::<Seq<char>>::empty(),
        hits_of(stored_all(m, seq![text], seq![embedding]), seq![text]) == Some(seq![embedding]),
{
    let after = stored_all(m, seq![text], seq![embedding]);
    assert(seq![text].drop_last() =~= Seq::<Seq<char>>::empty());
    assert(seq![embedding].drop_last() =~= Seq::<Seq<i16>>::empty());
    assert(stored_all(m, Seq::<Seq<char>>::empty(), Seq::<Seq<i16>>::empty()) == m);
    assert(seq![text].last() == text);
    assert(seq![embedding].last() == embedding);
    assert(after == m.insert(cache_key_of(text), (text, embedding)));
    lemma_no_misses(after, seq![text]);
    assert(seq![text].map_values(|t: Seq<char>| after[cache_key_of(t)].1) =~= seq![embedding]);
}

} // verus!
