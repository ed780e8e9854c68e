//! The search engine: tokenizer, index, cache and attribute filters as one
//! search operation.

use crate::cache::{
    admitted, distinct_keys, holds_key, key_index, promoted, value_of, QueryCache, CACHE_CAPACITY,
};
use crate::index::{
    answer, insert_all, insert_term, is_answer, is_match, lemma_answer_unique, postings_in,
    InvertedIndex,
};
use crate::lists::{copy_list, lemma_filter_keeps_order, strictly_ascending};
use crate::model::{Product, ProductId};
use crate::scalar::{below, is_below};
use crate::tokenizer::{
    is_space, is_term, lemma_terms_are_terms, nfd, normalize, normalized, term_seq, terms_of,
    tokenize,
};
use vstd::prelude::*;
use vstd::string::*;

verus! {

/// The attribute filters of a search.  A filter that is `None` lets every
/// record pass.
pub struct SearchFilters {
    /// The category a record must have, compared after normalization.
    pub category: Option<String>,
    /// The brand a record must have, compared after normalization.
    pub brand: Option<String>,
    /// A tag that a record must carry, compared after normalization.
    pub tag: Option<String>,
    /// The bit pattern of the price that a record's price must not be below.
    pub price_min: Option<u32>,
    /// The bit pattern of the price that a record's price must not be above.
    pub price_max: Option<u32>,
}

/// An attribute value as it is compared: decomposed and normalized, with its
/// stop words kept.
pub open spec fn attribute(value: Seq<char>) -> Seq<char> {
    normalized(nfd(value))
}

/// Whether one of `tags` is, as an attribute, the same as `wanted`.
pub open spec fn has_tag(tags: Seq<String>, wanted: Seq<char>) -> bool {
    exists|i: int| 0 <= i < tags.len() && attribute((#[trigger] tags[i])@) == attribute(wanted)
}

/// Whether the record `p` passes every filter of `f` that is set.
pub open spec fn passes(p: Product, f: SearchFilters) -> bool {
    &&& f.category matches Some(c) ==> attribute(p.category@) == attribute(c@)
    &&& f.brand matches Some(b) ==> attribute(p.brand@) == attribute(b@)
    &&& f.tag matches Some(t) ==> has_tag(p.tags@, t@)
    &&& f.price_min matches Some(least) ==> !below(p.price, least)
    &&& f.price_max matches Some(most) ==> !below(most, p.price)
}

/// Whether some record of `products` has the identifier `id`.
pub open spec fn has_record(products: Seq<Product>, id: ProductId) -> bool {
    exists|i: int| 0 <= i < products.len() && (#[trigger] products[i]).id == id
}

/// Whether `i` is the place of the first record with the identifier `id`.
pub open spec fn is_first_record(products: Seq<Product>, id: ProductId, i: int) -> bool {
    &&& 0 <= i < products.len()
    &&& products[i].id == id
    &&& forall|k: int| 0 <= k < i ==> (#[trigger] products[k]).id != id
}

/// The first record with the identifier `id`.
pub open spec fn record_of(products: Seq<Product>, id: ProductId) -> Product {
    products[choose|i: int| is_first_record(products, id, i)]
}

/// The predicate that keeps the identifiers whose record passes `f`.
pub open spec fn keeps(products: Seq<Product>, f: SearchFilters) -> spec_fn(ProductId) -> bool {
    |id: ProductId| has_record(products, id) && passes(record_of(products, id), f)
}

/// The identifiers of `ids` whose record passes `f`, in the order of `ids`.
pub open spec fn kept(products: Seq<Product>, ids: Seq<ProductId>, f: SearchFilters) -> Seq<
    ProductId,
> {
    ids.filter(keeps(products, f))
}

/// The key of a query: its terms joined by single spaces.
pub open spec fn query_key(terms: Seq<Seq<char>>) -> Seq<char>
    decreases terms.len(),
{
    if terms.len() == 0 {
        Seq::empty()
    } else if terms.len() == 1 {
        terms[0]
    } else {
        query_key(terms.drop_last()) + seq![' '] + terms.last()
    }
}

/// The key of the query `tokens`.
pub fn join_terms(tokens: &Vec<String>) -> (key: String)
    ensures
        key@ == query_key(term_seq(tokens@)),
{
    let ghost terms = term_seq(tokens@);
    let mut key = String::new();
    let mut i: usize = 0;
    proof {
        assert(terms.take(0) =~= Seq::<Seq<char>>::empty());
        reveal_strlit(" ");
        assert(" "@ =~= seq![' ']);
    }
    while i < tokens.len()
        invariant
            i <= tokens.len(),
            terms == term_seq(tokens@),
            " "@ == seq![' '],
            key@ == query_key(terms.take(i as int)),
        decreases tokens.len() - i,
    {
        proof {
            let next = terms.take(i + 1);
            assert(next.drop_last() =~= terms.take(i as int));
            assert(next.last() == tokens@[i as int]@);
            if i == 0 {
                assert(next[0] == tokens@[0]@);
                assert(Seq::<char>::empty() + tokens@[0]@ =~= tokens@[0]@);
            }
        }
        if i > 0 {
            key.append(" ");
        }
        key.append(tokens[i].as_str());
        i += 1;
    }
    proof {
        assert(terms.take(tokens.len() as int) =~= terms);
    }
    key
}

/// Whether one of `tags` is, as an attribute, the same as `wanted`.
fn any_tag_is(tags: &Vec<String>, wanted: &String) -> (found: bool)
    ensures
        found == has_tag(tags@, wanted@),
{
    let goal = normalize(wanted.as_str());
    let mut i: usize = 0;
    while i < tags.len()
        invariant
            i <= tags.len(),
            goal@ == attribute(wanted@),
            forall|k: int| 0 <= k < i ==> attribute((#[trigger] tags@[k])@) != attribute(wanted@),
        decreases tags.len() - i,
    {
        if normalize(tags[i].as_str()) == goal {
            return true;
        }
        i += 1;
    }
    false
}

/// Whether the record `p` passes every filter of `f` that is set.
pub fn passes_filters(p: &Product, f: &SearchFilters) -> (ok: bool)
    ensures
        ok == passes(*p, *f),
{
    if let Some(c) = &f.category {
        if normalize(p.category.as_str()) != normalize(c.as_str()) {
            return false;
        }
    }
    if let Some(b) = &f.brand {
        if normalize(p.brand.as_str()) != normalize(b.as_str()) {
            return false;
        }
    }
    if let Some(t) = &f.tag {
        if !any_tag_is(&p.tags, t) {
            return false;
        }
    }
    if let Some(least) = f.price_min {
        if is_below(p.price, least) {
            return false;
        }
    }
    if let Some(most) = f.price_max {
        if is_below(most, p.price) {
            return false;
        }
    }
    true
}

/// The place of the first record with the identifier `id`, if there is one.
fn find_record(products: &Vec<Product>, id: ProductId) -> (at: Option<usize>)
    ensures
        match at {
            Some(i) => is_first_record(products@, id, i as int) && products@[i as int]
                == record_of(products@, id) && has_record(products@, id),
            None => !has_record(products@, id),
        },
{
    let mut i: usize = 0;
    while i < products.len()
        invariant
            i <= products.len(),
            forall|k: int| 0 <= k < i ==> (#[trigger] products@[k]).id != id,
        decreases products.len() - i,
    {
        if products[i].id == id {
            proof {
                let c = choose|c: int| is_first_record(products@, id, c);
                assert(is_first_record(products@, id, i as int));
                assert(c == i) by {
                    if c < i {
                        assert(products@[c].id != id);
                    }
                    if i < c {
                        assert(products@[i as int].id != id);
                    }
                }
            }
            return Some(i);
        }
        i += 1;
    }
    None
}

/// The identifiers of `ids` whose record passes `f`, in the order of `ids`.
pub fn apply_filters(products: &Vec<Product>, ids: &Vec<ProductId>, f: &SearchFilters) -> (out: Vec<
    ProductId,
>)
    ensures
        out@ == kept(products@, ids@, *f),
{
    let ghost pred = keeps(products@, *f);
    let mut out: Vec<ProductId> = Vec::new();
    let mut i: usize = 0;
    proof {
        reveal(Seq::filter);
        assert(ids@.take(0).filter(pred) =~= out@);
    }
    while i < ids.len()
        invariant
            i <= ids.len(),
            pred == keeps(products@, *f),
            out@ == ids@.take(i as int).filter(pred),
        decreases ids.len() - i,
    {
        let id = ids[i];
        proof {
            assert(ids@.take(i + 1) =~= ids@.take(i as int).push(id));
            ids@.take(i as int).lemma_filter_push(id, pred);
        }
        match find_record(products, id) {
            Some(at) => {
                if passes_filters(&products[at], f) {
                    out.push(id);
                }
            },
            None => {},
        }
        i += 1;
    }
    assert(ids@.take(ids.len() as int) =~= ids@);
    out
}

/// Whether every one of `terms` can be a term.
pub open spec fn all_terms(terms: Seq<Seq<char>>) -> bool {
    forall|i: int| 0 <= i < terms.len() ==> is_term(#[trigger] terms[i])
}

/// The key of a query ends with the query's last term, and a space stands
/// before that term where the query has more than one.
proof fn lemma_key_shape(terms: Seq<Seq<char>>)
    requires
        all_terms(terms),
        terms.len() > 0,
    ensures
        query_key(terms).len() >= terms.last().len(),
        query_key(terms).len() > 0,
        query_key(terms).skip(query_key(terms).len() - terms.last().len()) == terms.last(),
        terms.len() == 1 ==> query_key(terms).len() == terms.last().len(),
        terms.len() > 1 ==> query_key(terms).len() > terms.last().len() && query_key(
            terms,
        )[query_key(terms).len() - terms.last().len() - 1] == ' ' && query_key(terms).take(
            query_key(terms).len() - terms.last().len() - 1,
        ) == query_key(terms.drop_last()),
{
    let key = query_key(terms);
    let last = terms.last();
    assert(is_term(terms[terms.len() - 1]));
    if terms.len() == 1 {
        assert(key.skip(0) =~= last);
    } else {
        let front = query_key(terms.drop_last());
        assert(key == front + seq![' '] + last);
        assert(key.skip(key.len() - last.len()) =~= last);
        assert(key.take(key.len() - last.len() - 1) =~= front);
    }
}

/// Two queries of terms with the same key are the same query: the key tells
/// the terms apart because no term holds a space or is empty.
pub proof fn lemma_key_tells_terms(a: Seq<Seq<char>>, b: Seq<Seq<char>>)
    requires
        all_terms(a),
        all_terms(b),
        query_key(a) == query_key(b),
    ensures
        a == b,
    decreases a.len(),
{
    if a.len() == 0 {
        if b.len() > 0 {
            lemma_key_shape(b);
        }
        assert(a =~= b);
    } else {
        lemma_key_shape(a);
        if b.len() == 0 {
            assert(false);
        }
        lemma_key_shape(b);
        let key = query_key(a);
        let la = a.last();
        let lb = b.last();
        assert(is_term(a[a.len() - 1]));
        assert(is_term(b[b.len() - 1]));
        assert(la.len() == lb.len()) by {
            if la.len() < lb.len() {
                // a space of `a`'s key would lie inside `b`'s last term
                if a.len() > 1 {
                    let at = key.len() - la.len() - 1;
                    assert(key[at] == ' ');
                    assert(key.skip(key.len() - lb.len())[at - (key.len() - lb.len())] == key[at]);
                    assert(!is_space(lb[at - (key.len() - lb.len())]));
                }
            }
            if lb.len() < la.len() {
                if b.len() > 1 {
                    let at = key.len() - lb.len() - 1;
                    assert(key[at] == ' ');
                    assert(key.skip(key.len() - la.len())[at - (key.len() - la.len())] == key[at]);
                    assert(!is_space(la[at - (key.len() - la.len())]));
                }
            }
        }
        assert(la == lb);
        if a.len() == 1 {
            assert(b.len() == 1);
            assert(a =~= b);
        } else {
            assert(b.len() > 1);
            let a0 = a.drop_last();
            let b0 = b.drop_last();
            assert(all_terms(a0)) by {
                assert forall|i: int| 0 <= i < a0.len() implies is_term(#[trigger] a0[i]) by {
                    assert(a0[i] == a[i]);
                }
            }
            assert(all_terms(b0)) by {
                assert forall|i: int| 0 <= i < b0.len() implies is_term(#[trigger] b0[i]) by {
                    assert(b0[i] == b[i]);
                }
            }
            lemma_key_tells_terms(a0, b0);
            assert(a =~= a0.push(la));
            assert(b =~= b0.push(lb));
        }
    }
}

/// The texts of a record that are indexed: its name, its category, its
/// brand and then its tags.
pub open spec fn texts_of(p: Product) -> Seq<Seq<char>> {
    seq![p.name@, p.category@, p.brand@] + term_seq(p.tags@)
}

/// `m` after the terms of each of `texts` are recorded for `id`.
pub open spec fn index_texts(
    m: Map<Seq<char>, Seq<ProductId>>,
    texts: Seq<Seq<char>>,
    id: ProductId,
) -> Map<Seq<char>, Seq<ProductId>>
    decreases texts.len(),
{
    if texts.len() == 0 {
        m
    } else {
        insert_all(index_texts(m, texts.drop_last(), id), terms_of(nfd(texts.last())), id)
    }
}

/// The index of a catalog: every record, first to last, recorded under the
/// terms of its texts.
pub open spec fn index_of(products: Seq<Product>) -> Map<Seq<char>, Seq<ProductId>>
    decreases products.len(),
{
    if products.len() == 0 {
        Map::empty()
    } else {
        index_texts(
            index_of(products.drop_last()),
            texts_of(products.last()),
            products.last().id,
        )
    }
}

/// Whether a cache entry holds, under the key of a query of terms, the
/// answer of `m` to that query.
pub open spec fn coherent(m: Map<Seq<char>, Seq<ProductId>>, e: (Seq<char>, Seq<ProductId>)) -> bool {
    exists|terms: Seq<Seq<char>>| #[trigger]
        all_terms(terms) && e.0 == query_key(terms) && is_answer(m, terms, e.1)
}

/// Whether every entry is coherent with `m`.
pub open spec fn all_coherent(
    m: Map<Seq<char>, Seq<ProductId>>,
    entries: Seq<(Seq<char>, Seq<ProductId>)>,
) -> bool {
    forall|i: int| 0 <= i < entries.len() ==> coherent(m, #[trigger] entries[i])
}

/// The entries of the cache after the query with the key `key` has been
/// answered by `found`: an entry with that key has moved to the front; where
/// there was none, one has been made at the front, in place of the last
/// entry if the cache was full.
pub open spec fn after_query(
    entries: Seq<(Seq<char>, Seq<ProductId>)>,
    cap: nat,
    key: Seq<char>,
    found: Seq<ProductId>,
) -> Seq<(Seq<char>, Seq<ProductId>)> {
    if holds_key(entries, key) {
        promoted(entries, key_index(entries, key))
    } else {
        admitted(entries, cap, key, found)
    }
}

/// A catalog with its index and a cache of the answers given so far.
pub struct SearchEngine {
    products: Vec<Product>,
    index: InvertedIndex,
    cache: QueryCache,
}

impl SearchEngine {
    /// The records of the catalog.
    pub closed spec fn products(&self) -> Seq<Product> {
        self.products@
    }

    /// The index: each known term with its postings.
    pub closed spec fn index(&self) -> Map<Seq<char>, Seq<ProductId>> {
        self.index@
    }

    /// The entries of the cache, each a query key with an answer, from the
    /// most recently used to the least recently used.
    pub closed spec fn cache_entries(&self) -> Seq<(Seq<char>, Seq<ProductId>)> {
        self.cache.entries()
    }

    /// The number of entries that the cache holds at most.
    pub closed spec fn cache_capacity(&self) -> nat {
        self.cache.capacity()
    }

    /// The answer that the cache holds under `key`, if it holds one.
    pub open spec fn cached(&self, key: Seq<char>) -> Option<Seq<ProductId>> {
        value_of(self.cache_entries(), key)
    }

    /// The engine's invariant: the index is the index of the catalog, and
    /// every cache entry holds the index's answer to the query of its key.
    pub closed spec fn wf(&self) -> bool {
        &&& self.index.wf()
        &&& self.cache.wf()
        &&& self.index@ == index_of(self.products@)
        &&& all_coherent(self.index@, self.cache.entries())
    }

    /// What the invariant means for the model.
    pub proof fn lemma_wf(&self)
        requires
            self.wf(),
        ensures
            self.index() == index_of(self.products()),
            distinct_keys(self.cache_entries()),
            self.cache_entries().len() <= self.cache_capacity(),
            forall|terms: Seq<Seq<char>>|
                all_terms(terms) && self.cached(query_key(terms)).is_some() ==> self.cached(
                    #[trigger] query_key(terms),
                ) == Some(answer(self.index(), terms)),
    {
        assert forall|terms: Seq<Seq<char>>|
            all_terms(terms) && self.cached(query_key(terms)).is_some() implies self.cached(
            #[trigger] query_key(terms),
        ) == Some(answer(self.index(), terms)) by {
            self.lemma_cached_is_answer(terms);
        }
    }

    proof fn lemma_cached_is_answer(&self, terms: Seq<Seq<char>>)
        requires
            self.wf(),
            all_terms(terms),
            self.cache.lookup(query_key(terms)).is_some(),
        ensures
            self.cache.lookup(query_key(terms)) == Some(answer(self.index@, terms)),
            is_answer(self.index@, terms, answer(self.index@, terms)),
    {
        let entries = self.cache.entries();
        let key = query_key(terms);
        let i = key_index(entries, key);
        assert(entries[i].0 == key);
        assert(coherent(self.index@, entries[i]));
        let held = choose|held: Seq<Seq<char>>| #[trigger]
            all_terms(held) && entries[i].0 == query_key(held) && is_answer(
                self.index@,
                held,
                entries[i].1,
            );
        lemma_key_tells_terms(held, terms);
        lemma_answer_unique(self.index@, terms, entries[i].1);
    }

    /// The records of the catalog.
    pub fn records(&self) -> (records: &Vec<Product>)
        ensures
            records@ == self.products(),
    {
        &self.products
    }

    /// An engine for the catalog `products`: every record is indexed under
    /// the terms of its name, its category, its brand and its tags, and no
    /// answer is cached yet.
    pub fn new(products: Vec<Product>) -> (engine: Self)
        ensures
            engine.wf(),
            engine.products() == products@,
            engine.index() == index_of(products@),
            engine.cache_entries() == Seq::<(Seq<char>, Seq<ProductId>)>::empty(),
            engine.cache_capacity() == CACHE_CAPACITY,
    {
        let mut index = InvertedIndex::new();
        let mut i: usize = 0;
        proof {
            assert(products@.take(0) =~= Seq::<Product>::empty());
        }
        while i < products.len()
            invariant
                i <= products.len(),
                index.wf(),
                index@ == index_of(products@.take(i as int)),
            decreases products.len() - i,
        {
            let p = &products[i];
            let ghost texts = texts_of(*p);
            let ghost start = index@;
            let ghost head = seq![p.name@, p.category@, p.brand@];
            proof {
                assert(products@.take(i + 1).drop_last() =~= products@.take(i as int));
                assert(products@.take(i + 1).last() == *p);
                assert(head.take(0) =~= Seq::<Seq<char>>::empty());
                assert(head.take(1).drop_last() =~= head.take(0));
                assert(head.take(2).drop_last() =~= head.take(1));
                assert(head.take(3).drop_last() =~= head.take(2));
                assert(head.take(3) =~= head);
                assert(head.take(1).last() == p.name@);
                assert(head.take(2).last() == p.category@);
                assert(head.take(3).last() == p.brand@);
                assert(index_texts(start, head.take(0), p.id) == start);
            }
            index.insert_text(p.name.as_str(), p.id);
            assert(index@ == index_texts(start, head.take(1), p.id));
            index.insert_text(p.category.as_str(), p.id);
            assert(index@ == index_texts(start, head.take(2), p.id));
            index.insert_text(p.brand.as_str(), p.id);
            assert(index@ == index_texts(start, head, p.id));
            let mut t: usize = 0;
            proof {
                assert(head + term_seq(p.tags@).take(0) =~= head);
            }
            while t < p.tags.len()
                invariant
                    t <= p.tags.len(),
                    index.wf(),
                    head.len() == 3,
                    index@ == index_texts(start, head + term_seq(p.tags@).take(t as int), p.id),
                decreases p.tags.len() - t,
            {
                proof {
                    let now = head + term_seq(p.tags@).take(t + 1);
                    assert(now.drop_last() =~= head + term_seq(p.tags@).take(t as int));
                    assert(now.last() == p.tags@[t as int]@);
                }
                index.insert_text(p.tags[t].as_str(), p.id);
                t += 1;
            }
            proof {
                assert(term_seq(p.tags@).take(p.tags.len() as int) =~= term_seq(p.tags@));
            }
            i += 1;
        }
        proof {
            assert(products@.take(products.len() as int) =~= products@);
        }
        SearchEngine { products, index, cache: QueryCache::new() }
    }

    /// The answer to the query `tokens`, which must be terms: from the cache
    /// where it holds the query's key, else from the index, and then into
    /// the cache.  The flag says whether the cache held the key.  Either way
    /// the answer is the index's answer.
    pub fn answer_terms(&mut self, tokens: &Vec<String>) -> (found: (Vec<ProductId>, bool))
        requires
            old(self).wf(),
            all_terms(term_seq(tokens@)),
        ensures
            final(self).wf(),
            final(self).products() == old(self).products(),
            final(self).index() == old(self).index(),
            found.0@ == answer(old(self).index(), term_seq(tokens@)),
            is_answer(old(self).index(), term_seq(tokens@), found.0@),
            found.1 == old(self).cached(query_key(term_seq(tokens@))).is_some(),
            found.1 ==> old(self).cached(query_key(term_seq(tokens@))) == Some(found.0@),
            final(self).cached(query_key(term_seq(tokens@))) == Some(found.0@),
            final(self).cache_capacity() == old(self).cache_capacity(),
            final(self).cache_entries() == after_query(
                old(self).cache_entries(),
                old(self).cache_capacity(),
                query_key(term_seq(tokens@)),
                found.0@,
            ),
    {
        let ghost terms = term_seq(tokens@);
        let ghost before = self.cache.entries();
        let key = join_terms(tokens);
        proof {
            if self.cache.lookup(key@).is_some() {
                self.lemma_cached_is_answer(terms);
            }
        }
        match self.cache.get(&key) {
            Some(hit) => {
                proof {
                    let i = key_index(before, key@);
                    lemma_promoted_coherent(self.index@, before, i);
                }
                (hit, true)
            },
            None => {
                let fresh = self.index.query(tokens.as_slice());
                let stored = copy_list(&fresh);
                self.cache.put(key, stored);
                proof {
                    assert(coherent(self.index@, (query_key(terms), fresh@))) by {
                        assert(all_terms(terms) && query_key(terms) == query_key(terms)
                            && is_answer(self.index@, terms, fresh@));
                    }
                    lemma_admitted_coherent(
                        self.index@,
                        before,
                        self.cache.capacity(),
                        query_key(terms),
                        fresh@,
                    );
                }
                (fresh, false)
            },
        }
    }

    /// Searches the catalog.
    ///
    /// The query text is split into terms; the answer to the query of those
    /// terms is taken from the cache or, where the cache does not hold it,
    /// from the index, and is cached; the identifiers of the answer whose
    /// record passes the filters are returned, in ascending order.
    pub fn search(&mut self, query_text: &str, filters: &SearchFilters) -> (result: Vec<ProductId>)
        requires
            old(self).wf(),
        ensures
            final(self).wf(),
            final(self).products() == old(self).products(),
            final(self).index() == old(self).index(),
            result@ == kept(
                old(self).products(),
                answer(old(self).index(), terms_of(nfd(query_text@))),
                *filters,
            ),
            strictly_ascending(result@),
            final(self).cached(query_key(terms_of(nfd(query_text@)))) == Some(
                answer(old(self).index(), terms_of(nfd(query_text@))),
            ),
            final(self).cache_capacity() == old(self).cache_capacity(),
            final(self).cache_entries() == after_query(
                old(self).cache_entries(),
                old(self).cache_capacity(),
                query_key(terms_of(nfd(query_text@))),
                answer(old(self).index(), terms_of(nfd(query_text@))),
            ),
    {
        let tokens = tokenize(query_text);
        proof {
            lemma_terms_are_terms(nfd(query_text@));
        }
        let (raw, _) = self.answer_terms(&tokens);
        proof {
            lemma_filter_keeps_order(raw@, keeps(self.products@, *filters));
        }
        apply_filters(&self.products, &raw, filters)
    }
}

proof fn lemma_promoted_coherent(
    m: Map<Seq<char>, Seq<ProductId>>,
    entries: Seq<(Seq<char>, Seq<ProductId>)>,
    i: int,
)
    requires
        all_coherent(m, entries),
        0 <= i < entries.len(),
    ensures
        all_coherent(m, promoted(entries, i)),
{
    let after = promoted(entries, i);
    assert forall|a: int| 0 <= a < after.len() implies coherent(m, #[trigger] after[a]) by {
        let s = if a == 0 {
            i
        } else if a <= i {
            a - 1
        } else {
            a
        };
        assert(after[a] == entries[s]);
    }
}

proof fn lemma_admitted_coherent(
    m: Map<Seq<char>, Seq<ProductId>>,
    entries: Seq<(Seq<char>, Seq<ProductId>)>,
    cap: nat,
    key: Seq<char>,
    value: Seq<ProductId>,
)
    requires
        all_coherent(m, entries),
        coherent(m, (key, value)),
        entries.len() <= cap,
    ensures
        all_coherent(m, admitted(entries, cap, key, value)),
{
    let after = admitted(entries, cap, key, value);
    assert forall|a: int| 0 <= a < after.len() implies coherent(m, #[trigger] after[a]) by {
        if cap != 0 {
            if a == 0 {
                assert(after[a] == (key, value));
            } else {
                assert(after[a] == entries[a - 1]);
            }
        }
    }
}

/// Whether every identifier in the postings of `m` names a record.
pub open spec fn names_records(m: Map<Seq<char>, Seq<ProductId>>, products: Seq<Product>) -> bool {
    forall|t: Seq<char>, k: int|
        m.contains_key(t) && 0 <= k < m[t].len() ==> has_record(products, #[trigger] m[t][k])
}

proof fn lemma_insert_all_names_records(
    m: Map<Seq<char>, Seq<ProductId>>,
    terms: Seq<Seq<char>>,
    id: ProductId,
    products: Seq<Product>,
)
    requires
        names_records(m, products),
        has_record(products, id),
    ensures
        names_records(insert_all(m, terms, id), products),
    decreases terms.len(),
{
    if terms.len() > 0 {
        let mid = insert_all(m, terms.drop_last(), id);
        lemma_insert_all_names_records(m, terms.drop_last(), id, products);
        let after = insert_term(mid, terms.last(), id);
        assert forall|t: Seq<char>, k: int|
            after.contains_key(t) && 0 <= k < after[t].len() implies has_record(
            products,
            #[trigger] after[t][k],
        ) by {
            if t == terms.last() {
                if k < postings_in(mid, t).len() {
                    assert(mid.contains_key(t));
                    assert(after[t][k] == mid[t][k]);
                }
            } else {
                assert(after[t][k] == mid[t][k]);
            }
        }
    }
}

proof fn lemma_index_texts_names_records(
    m: Map<Seq<char>, Seq<ProductId>>,
    texts: Seq<Seq<char>>,
    id: ProductId,
    products: Seq<Product>,
)
    requires
        names_records(m, products),
        has_record(products, id),
    ensures
        names_records(index_texts(m, texts, id), products),
    decreases texts.len(),
{
    if texts.len() > 0 {
        lemma_index_texts_names_records(m, texts.drop_last(), id, products);
        lemma_insert_all_names_records(
            index_texts(m, texts.drop_last(), id),
            terms_of(nfd(texts.last())),
            id,
            products,
        );
    }
}

proof fn lemma_index_of_prefix_names_records(products: Seq<Product>, n: nat)
    requires
        n <= products.len(),
    ensures
        names_records(index_of(products.take(n as int)), products),
    decreases n,
{
    let front = products.take(n as int);
    if n > 0 {
        lemma_index_of_prefix_names_records(products, (n - 1) as nat);
        assert(front.drop_last() =~= products.take(n - 1));
        assert(front.last() == products[n - 1]);
        assert(has_record(products, products[n - 1].id));
        lemma_index_texts_names_records(
            index_of(front.drop_last()),
            texts_of(front.last()),
            front.last().id,
            products,
        );
    }
}

/// Every identifier in the index of a catalog names a record of the
/// catalog, so every identifier that answers a query has a record to hold
/// against the filters.
pub proof fn lemma_answers_name_records(
    products: Seq<Product>,
    terms: Seq<Seq<char>>,
    id: ProductId,
)
    requires
        is_match(index_of(products), terms, id),
    ensures
        has_record(products, id),
{
    lemma_index_of_prefix_names_records(products, products.len());
    assert(products.take(products.len() as int) =~= products);
    let m = index_of(products);
    let j = choose|j: int| 0 <= j < terms.len() && m.contains_key(#[trigger] terms[j]);
    assert(m[terms[j]].contains(id));
    let k = choose|k: int| 0 <= k < m[terms[j]].len() && m[terms[j]][k] == id;
    assert(has_record(products, m[terms[j]][k]));
}

} // verus!
