//! The inverted index: for each term the identifiers recorded against it,
//! queried by boolean AND over the terms that the index knows.

use crate::lists::{
    copy_list, dedup_adjacent, lemma_strictly_ascending_unique, member_of, retain_common,
    sort_ascending, strictly_ascending,
};
use crate::model::ProductId;
use crate::tokenizer::{nfd, term_seq, terms_of, tokenize};
use std::collections::HashMap;
use vstd::prelude::*;
use vstd::seq_lib::*;
use vstd::string::*;

verus! {

broadcast use vstd::std_specs::hash::group_hash_axioms;

/// The postings of one term: the identifiers recorded against it, in the
/// order of their insertion and with repetitions.
struct Postings {
    term: String,
    ids: Vec<ProductId>,
}

/// An in-memory inverted index.
///
/// Its view is the map from each known term to its postings list.  The
/// postings are kept in buckets, one for each hash value that a known term
/// has.
pub struct InvertedIndex {
    buckets: HashMap<u64, Vec<Postings>>,
}

/// The hash value of a text given by its bytes.
spec fn hash_bytes(bytes: Seq<u8>) -> u64
    decreases bytes.len(),
{
    if bytes.len() == 0 {
        HASH_SEED
    } else {
        hash_bytes(bytes.drop_last()).wrapping_mul(HASH_FACTOR).wrapping_add(bytes.last() as u64)
    }
}

/// The hash value of a term: that of its UTF-8 bytes.
spec fn term_hash(t: Seq<char>) -> u64 {
    hash_bytes(vstd::utf8::encode_utf8(t))
}

/// The hash value of the empty text.
const HASH_SEED: u64 = 5381;

/// The factor by which a hash value grows with each byte.
const HASH_FACTOR: u64 = 33;

fn hash_of(term: &str) -> (h: u64)
    ensures
        h == term_hash(term@),
{
    let bytes = term.as_bytes();
    let mut h: u64 = HASH_SEED;
    let mut i: usize = 0;
    proof {
        assert(bytes@.take(0) =~= Seq::<u8>::empty());
    }
    while i < bytes.len()
        invariant
            i <= bytes.len(),
            h == hash_bytes(bytes@.take(i as int)),
        decreases bytes.len() - i,
    {
        proof {
            assert(bytes@.take(i + 1).drop_last() =~= bytes@.take(i as int));
        }
        h = h.wrapping_mul(HASH_FACTOR).wrapping_add(bytes[i] as u64);
        i += 1;
    }
    proof {
        assert(bytes@.take(bytes.len() as int) =~= bytes@);
    }
    h
}

/// Whether a bucket holds postings for `t`.
spec fn bucket_holds(bucket: Seq<Postings>, t: Seq<char>) -> bool {
    exists|i: int| 0 <= i < bucket.len() && (#[trigger] bucket[i]).term@ == t
}

/// The place of the postings for `t` in a bucket.
spec fn bucket_slot(bucket: Seq<Postings>, t: Seq<char>) -> int {
    choose|i: int| 0 <= i < bucket.len() && (#[trigger] bucket[i]).term@ == t
}

/// No term has two postings lists in a bucket.
spec fn bucket_distinct(bucket: Seq<Postings>) -> bool {
    forall|i: int, j: int|
        0 <= i < j < bucket.len() ==> (#[trigger] bucket[i]).term@ != (#[trigger] bucket[j]).term@
}

proof fn lemma_bucket_slot_is(bucket: Seq<Postings>, t: Seq<char>, i: int)
    requires
        bucket_distinct(bucket),
        0 <= i < bucket.len(),
        bucket[i].term@ == t,
    ensures
        bucket_holds(bucket, t),
        bucket_slot(bucket, t) == i,
{
    let c = bucket_slot(bucket, t);
    assert(bucket[c].term@ == t);
    if c < i {
        assert(bucket[c].term@ != bucket[i].term@);
    }
    if i < c {
        assert(bucket[i].term@ != bucket[c].term@);
    }
}

/// The place of the postings for `term` in a bucket, if it holds any.
fn find_in(bucket: &Vec<Postings>, term: &String) -> (at: Option<usize>)
    requires
        bucket_distinct(bucket@),
    ensures
        match at {
            Some(i) => i < bucket.len() && bucket@[i as int].term@ == term@ && bucket_holds(
                bucket@,
                term@,
            ) && bucket_slot(bucket@, term@) == i,
            None => !bucket_holds(bucket@, term@),
        },
{
    let mut i: usize = 0;
    while i < bucket.len()
        invariant
            i <= bucket.len(),
            bucket_distinct(bucket@),
            forall|k: int| 0 <= k < i ==> (#[trigger] bucket@[k]).term@ != term@,
        decreases bucket.len() - i,
    {
        if bucket[i].term == *term {
            proof {
                lemma_bucket_slot_is(bucket@, term@, i as int);
            }
            return Some(i);
        }
        i += 1;
    }
    None
}

/// The postings of `t` in `m`, empty where `m` does not know `t`.
pub open spec fn postings_in(m: Map<Seq<char>, Seq<ProductId>>, t: Seq<char>) -> Seq<ProductId> {
    if m.contains_key(t) {
        m[t]
    } else {
        Seq::empty()
    }
}

/// `m` after `id` is recorded against `t`.
pub open spec fn insert_term(m: Map<Seq<char>, Seq<ProductId>>, t: Seq<char>, id: ProductId) -> Map<
    Seq<char>,
    Seq<ProductId>,
> {
    m.insert(t, postings_in(m, t).push(id))
}

/// `m` after `id` is recorded against each of `terms`, first to last.
pub open spec fn insert_all(
    m: Map<Seq<char>, Seq<ProductId>>,
    terms: Seq<Seq<char>>,
    id: ProductId,
) -> Map<Seq<char>, Seq<ProductId>>
    decreases terms.len(),
{
    if terms.len() == 0 {
        m
    } else {
        insert_term(insert_all(m, terms.drop_last(), id), terms.last(), id)
    }
}

/// Whether some term of `terms` is known to `m`.
pub open spec fn any_known(m: Map<Seq<char>, Seq<ProductId>>, terms: Seq<Seq<char>>) -> bool {
    exists|j: int| 0 <= j < terms.len() && m.contains_key(#[trigger] terms[j])
}

/// Whether `id` is in the postings of every term of `terms` that `m` knows.
pub open spec fn in_all_known(
    m: Map<Seq<char>, Seq<ProductId>>,
    terms: Seq<Seq<char>>,
    id: ProductId,
) -> bool {
    forall|j: int|
        0 <= j < terms.len() && m.contains_key(#[trigger] terms[j]) ==> m[terms[j]].contains(id)
}

/// Whether `id` answers the query `terms` on `m`: at least one term is known,
/// and `id` is in the postings of every known term.  Unknown terms are
/// ignored.
pub open spec fn is_match(m: Map<Seq<char>, Seq<ProductId>>, terms: Seq<Seq<char>>, id: ProductId) -> bool {
    any_known(m, terms) && in_all_known(m, terms, id)
}

/// Whether `s` is the answer to the query `terms` on `m`: the identifiers
/// that match, in ascending order and each once.
pub open spec fn is_answer(
    m: Map<Seq<char>, Seq<ProductId>>,
    terms: Seq<Seq<char>>,
    s: Seq<ProductId>,
) -> bool {
    strictly_ascending(s) && forall|id: ProductId| s.contains(id) <==> is_match(m, terms, id)
}

/// The answer to the query `terms` on `m`.  There is exactly one: see
/// `lemma_answer_unique`.
pub open spec fn answer(m: Map<Seq<char>, Seq<ProductId>>, terms: Seq<Seq<char>>) -> Seq<ProductId> {
    choose|s: Seq<ProductId>| is_answer(m, terms, s)
}

/// A query has at most one answer, so a sequence that is an answer is the
/// answer.
pub proof fn lemma_answer_unique(
    m: Map<Seq<char>, Seq<ProductId>>,
    terms: Seq<Seq<char>>,
    s: Seq<ProductId>,
)
    requires
        is_answer(m, terms, s),
    ensures
        s == answer(m, terms),
{
    lemma_strictly_ascending_unique(s, answer(m, terms));
}

impl View for InvertedIndex {
    type V = Map<Seq<char>, Seq<ProductId>>;

    closed spec fn view(&self) -> Map<Seq<char>, Seq<ProductId>> {
        Map::new(
            |t: Seq<char>| bucket_holds(self.bucket_of(t), t),
            |t: Seq<char>| self.bucket_of(t)[bucket_slot(self.bucket_of(t), t)].ids@,
        )
    }
}

impl InvertedIndex {
    /// The bucket in which the postings of `t` are kept if `t` is known.
    spec fn bucket_of(&self, t: Seq<char>) -> Seq<Postings> {
        if self.buckets@.contains_key(term_hash(t)) {
            self.buckets@[term_hash(t)]@
        } else {
            Seq::empty()
        }
    }

    /// The index's invariant: every postings list lies in the bucket of its
    /// term's hash value, and no term has two postings lists.
    pub closed spec fn wf(&self) -> bool {
        forall|h: u64| #[trigger]
            self.buckets@.contains_key(h) ==> bucket_distinct(self.buckets@[h]@) && forall|i: int|
                0 <= i < self.buckets@[h]@.len() ==> term_hash(
                    (#[trigger] self.buckets@[h]@[i]).term@,
                ) == h
    }

    /// The postings of `t`, empty where the index does not know `t`.
    pub open spec fn postings(&self, t: Seq<char>) -> Seq<ProductId> {
        postings_in(self@, t)
    }

    /// An index that knows no term.
    pub fn new() -> (index: Self)
        ensures
            index.wf(),
            index@ == Map::<Seq<char>, Seq<ProductId>>::empty(),
    {
        let index = InvertedIndex { buckets: HashMap::new() };
        assert(index@ =~= Map::<Seq<char>, Seq<ProductId>>::empty());
        index
    }

    /// The postings of `term`, if the index knows the term.
    fn lookup(&self, term: &String) -> (found: Option<&Vec<ProductId>>)
        requires
            self.wf(),
        ensures
            match found {
                Some(list) => self@.contains_key(term@) && self@[term@] == list@,
                None => !self@.contains_key(term@),
            },
    {
        let h = hash_of(term.as_str());
        match self.buckets.get(&h) {
            None => None,
            Some(bucket) => {
                assert(self.bucket_of(term@) == bucket@);
                match find_in(bucket, term) {
                    None => None,
                    Some(i) => Some(&bucket[i].ids),
                }
            },
        }
    }

    /// Records `id` against `token`: `id` is appended to the postings of
    /// `token`, which are created if the index did not know the term.  No
    /// other postings list changes.
    pub fn insert(&mut self, token: String, id: ProductId)
        requires
            old(self).wf(),
        ensures
            final(self).wf(),
            final(self)@ == insert_term(old(self)@, token@, id),
    {
        let ghost before = *self;
        let ghost term = token@;
        let h = hash_of(token.as_str());
        let mut bucket = match self.buckets.remove(&h) {
            Some(held) => held,
            None => Vec::new(),
        };
        let ghost was = bucket@;
        proof {
            assert(before.bucket_of(term) == was);
            assert(bucket_distinct(was));
            assert forall|i: int| 0 <= i < was.len() implies term_hash((#[trigger] was[i]).term@)
                == h by {
                assert(before.buckets@.contains_key(h));
            }
        }
        match find_in(&bucket, &token) {
            Some(i) => {
                bucket[i].ids.push(id);
                proof {
                    assert(bucket@.len() == was.len());
                    assert forall|k: int| 0 <= k < was.len() implies (#[trigger] bucket@[k]).term@
                        == was[k].term@ by {}
                }
            },
            None => {
                let mut ids: Vec<ProductId> = Vec::new();
                ids.push(id);
                proof {
                    assert(ids@ =~= Seq::<ProductId>::empty().push(id));
                }
                bucket.push(Postings { term: token, ids });
            },
        }
        let ghost now = bucket@;
        proof {
            assert(bucket_distinct(now));
            assert forall|i: int| 0 <= i < now.len() implies term_hash((#[trigger] now[i]).term@)
                == h by {
                if i < was.len() {
                    assert(now[i].term@ == was[i].term@);
                }
            }
        }
        self.buckets.insert(h, bucket);
        proof {
            assert(self.buckets@ == before.buckets@.insert(h, bucket));
            assert forall|k: u64| #[trigger] self.buckets@.contains_key(k) implies bucket_distinct(
                self.buckets@[k]@,
            ) && forall|i: int|
                0 <= i < self.buckets@[k]@.len() ==> term_hash(
                    (#[trigger] self.buckets@[k]@[i]).term@,
                ) == k by {
                if k != h {
                    assert(before.buckets@.contains_key(k));
                }
            }
            let want = insert_term(before@, term, id);
            assert forall|t: Seq<char>| self@.contains_key(t) == want.contains_key(t) by {
                if term_hash(t) == h {
                    assert(self.bucket_of(t) == now);
                    assert(before.bucket_of(t) == was);
                    if bucket_holds(now, t) {
                        let k = bucket_slot(now, t);
                        if k < was.len() {
                            assert(was[k].term@ == t);
                        }
                    }
                    if bucket_holds(was, t) {
                        let k = bucket_slot(was, t);
                        assert(now[k].term@ == t);
                    }
                    if t == term {
                        if bucket_holds(was, term) {
                            assert(now[bucket_slot(was, term)].term@ == term);
                        } else {
                            assert(now[was.len() as int].term@ == term);
                        }
                    }
                } else {
                    assert(self.bucket_of(t) == before.bucket_of(t));
                }
            }
            assert forall|t: Seq<char>| self@.contains_key(t) implies self@[t] == want[t] by {
                if term_hash(t) == h {
                    assert(self.bucket_of(t) == now);
                    assert(before.bucket_of(t) == was);
                    let k = bucket_slot(now, t);
                    assert(now[k].term@ == t);
                    if bucket_holds(was, term) {
                        let i = bucket_slot(was, term);
                        assert(was[i].term@ == term);
                        assert(was[k].term@ == t);
                        lemma_bucket_slot_is(was, t, k);
                        if t == term {
                            assert(k == i);
                        } else {
                            assert(k != i);
                            assert(now[k].ids@ == was[k].ids@);
                        }
                    } else {
                        if t == term {
                            lemma_bucket_slot_is(now, term, was.len() as int);
                        } else {
                            assert(k < was.len());
                            assert(was[k].term@ == t);
                            lemma_bucket_slot_is(was, t, k);
                        }
                    }
                } else {
                    assert(self.bucket_of(t) == before.bucket_of(t));
                }
            }
            assert(self@ =~= want);
        }
    }

    /// Records `id` against every term of `terms`, first to last.  A term
    /// that occurs twice gets `id` twice.
    pub fn insert_terms(&mut self, terms: &[String], id: ProductId)
        requires
            old(self).wf(),
        ensures
            final(self).wf(),
            final(self)@ == insert_all(old(self)@, term_seq(terms@), id),
            forall|t: Seq<char>|
                term_seq(terms@).contains(t) ==> #[trigger] final(self).postings(t).contains(id),
    {
        let ghost all = term_seq(terms@);
        proof {
            assert(all.take(0) =~= Seq::<Seq<char>>::empty());
        }
        let mut i: usize = 0;
        while i < terms.len()
            invariant
                i <= terms.len(),
                all == term_seq(terms@),
                self.wf(),
                self@ == insert_all(old(self)@, all.take(i as int), id),
            decreases terms.len() - i,
        {
            let term = terms[i].clone();
            proof {
                assert(term@ == all[i as int]);
                assert(all.take(i + 1).drop_last() =~= all.take(i as int));
                assert(all.take(i + 1).last() == all[i as int]);
            }
            self.insert(term, id);
            i += 1;
        }
        proof {
            assert(all.take(terms.len() as int) =~= all);
            lemma_inserted_terms_hold(old(self)@, all, id);
        }
    }

    /// Tokenizes `text` and records `id` against every term of it.
    /// Afterwards `id` is in the postings of each of those terms.
    pub fn insert_text(&mut self, text: &str, id: ProductId)
        requires
            old(self).wf(),
        ensures
            final(self).wf(),
            final(self)@ == insert_all(old(self)@, terms_of(nfd(text@)), id),
            forall|t: Seq<char>|
                terms_of(nfd(text@)).contains(t) ==> #[trigger] final(self).postings(t).contains(
                    id,
                ),
    {
        let terms = tokenize(text);
        self.insert_terms(terms.as_slice(), id);
    }

    /// Answers a query by boolean AND over the terms that the index knows.
    ///
    /// The answer holds exactly the identifiers that are in the postings of
    /// every known term of `tokens`, in ascending order and each once.  A
    /// term that the index does not know is ignored; where it knows none of
    /// them, or `tokens` is empty, the answer is empty.
    pub fn query(&self, tokens: &[String]) -> (result: Vec<ProductId>)
        requires
            self.wf(),
        ensures
            strictly_ascending(result@),
            forall|id: ProductId| result@.contains(id) <==> is_match(self@, term_seq(tokens@), id),
            result@ == answer(self@, term_seq(tokens@)),
            !any_known(self@, term_seq(tokens@)) ==> result@ == Seq::<ProductId>::empty(),
            (forall|j: int| 0 <= j < tokens.len() ==> self@.contains_key(#[trigger] tokens[j]@))
                ==> (forall|id: ProductId|
                result@.contains(id) <==> tokens.len() > 0 && (forall|j: int|
                    0 <= j < tokens.len() ==> self.postings(#[trigger] tokens[j]@).contains(id))),
    {
        let ghost terms = term_seq(tokens@);
        let mut acc: Option<Vec<ProductId>> = None;
        let mut i: usize = 0;
        while i < tokens.len()
            invariant
                i <= tokens.len(),
                self.wf(),
                terms == term_seq(tokens@),
                acc.is_some() <==> any_known(self@, terms.take(i as int)),
                acc.is_some() ==> (forall|id: ProductId|
                    acc.unwrap()@.contains(id) <==> in_all_known(self@, terms.take(i as int), id)),
            decreases tokens.len() - i,
        {
            let ghost seen = terms.take(i as int);
            let ghost next = terms.take(i + 1);
            proof {
                assert(next =~= seen.push(terms[i as int]));
                assert(terms[i as int] == tokens[i as int]@);
                assert forall|j: int| 0 <= j < seen.len() implies seen[j] == next[j] by {}
            }
            match self.lookup(&tokens[i]) {
                None => {
                    proof {
                        let t = terms[i as int];
                        assert(!self@.contains_key(t));
                        if any_known(self@, next) {
                            let j = choose|j: int|
                                0 <= j < next.len() && self@.contains_key(#[trigger] next[j]);
                            assert(self@.contains_key(seen[j]));
                        }
                        if any_known(self@, seen) {
                            let j = choose|j: int|
                                0 <= j < seen.len() && self@.contains_key(#[trigger] seen[j]);
                            assert(self@.contains_key(next[j]));
                        }
                        assert forall|id: ProductId|
                            in_all_known(self@, next, id) == in_all_known(self@, seen, id) by {
                            if in_all_known(self@, seen, id) {
                                assert forall|j: int|
                                    0 <= j < next.len() && self@.contains_key(
                                        #[trigger] next[j],
                                    ) implies self@[next[j]].contains(id) by {
                                    assert(next[j] == seen[j]);
                                }
                            }
                            if in_all_known(self@, next, id) {
                                assert forall|j: int|
                                    0 <= j < seen.len() && self@.contains_key(
                                        #[trigger] seen[j],
                                    ) implies self@[seen[j]].contains(id) by {
                                    assert(next[j] == seen[j]);
                                }
                            }
                        }
                    }
                },
                Some(list) => {
                    let ghost t = terms[i as int];
                    proof {
                        assert(self@.contains_key(t));
                        assert(self@[t] == list@);
                        assert(next[i as int] == t);
                    }
                    let merged = match acc {
                        None => {
                            let first = copy_list(list);
                            proof {
                                assert forall|id: ProductId|
                                    first@.contains(id) <==> in_all_known(self@, next, id) by {
                                    if first@.contains(id) {
                                        assert forall|j: int|
                                            0 <= j < next.len() && self@.contains_key(
                                                #[trigger] next[j],
                                            ) implies self@[next[j]].contains(id) by {
                                            if j < i {
                                                assert(self@.contains_key(seen[j]));
                                            }
                                        }
                                    }
                                }
                            }
                            first
                        },
                        Some(prev) => {
                            let kept = retain_common(&prev, list);
                            proof {
                                let pred = member_of(list@);
                                assert forall|id: ProductId|
                                    kept@.contains(id) <==> in_all_known(self@, next, id) by {
                                    if kept@.contains(id) {
                                        let k = choose|k: int|
                                            0 <= k < kept@.len() && kept@[k] == id;
                                        prev@.lemma_filter_pred(pred, k);
                                        prev@.lemma_filter_contains_rev(pred, id);
                                        assert(list@.contains(id));
                                        assert(prev@.contains(id));
                                        assert(in_all_known(self@, seen, id));
                                        assert forall|j: int|
                                            0 <= j < next.len() && self@.contains_key(
                                                #[trigger] next[j],
                                            ) implies self@[next[j]].contains(id) by {
                                            if j < i {
                                                assert(next[j] == seen[j]);
                                            }
                                        }
                                    }
                                    if in_all_known(self@, next, id) {
                                        assert(list@.contains(id));
                                        assert forall|j: int|
                                            0 <= j < seen.len() && self@.contains_key(
                                                #[trigger] seen[j],
                                            ) implies self@[seen[j]].contains(id) by {
                                            assert(next[j] == seen[j]);
                                        }
                                        assert(prev@.contains(id));
                                        let k = choose|k: int|
                                            0 <= k < prev@.len() && prev@[k] == id;
                                        prev@.lemma_filter_contains(pred, k);
                                    }
                                }
                            }
                            kept
                        },
                    };
                    acc = Some(merged);
                    proof {
                        assert(self@.contains_key(next[i as int]));
                    }
                },
            }
            i += 1;
        }
        proof {
            assert(terms.take(tokens.len() as int) =~= terms);
        }
        let raw = match acc {
            Some(found) => found,
            None => Vec::new(),
        };
        let sorted = sort_ascending(&raw);
        let result = dedup_adjacent(&sorted);
        proof {
            assert forall|id: ProductId| result@.contains(id) <==> is_match(self@, terms, id) by {
                sorted@.to_multiset_ensures();
                raw@.to_multiset_ensures();
                assert(sorted@.contains(id) <==> sorted@.to_multiset().count(id) > 0);
                assert(raw@.contains(id) <==> raw@.to_multiset().count(id) > 0);
                assert(sorted@.contains(id) <==> raw@.contains(id));
            }
            lemma_answer_unique(self@, terms, result@);
            if !any_known(self@, terms) {
                if result@.len() > 0 {
                    assert(result@.contains(result@[0]));
                }
                assert(result@ =~= Seq::<ProductId>::empty());
            }
            if forall|j: int| 0 <= j < tokens.len() ==> self@.contains_key(#[trigger] tokens[j]@) {
                assert forall|id: ProductId|
                    result@.contains(id) <==> tokens.len() > 0 && (forall|j: int|
                        0 <= j < tokens.len() ==> self.postings(#[trigger] tokens[j]@).contains(
                            id,
                        )) by {
                    assert forall|j: int| 0 <= j < tokens.len() implies terms[j]
                        == #[trigger] tokens[j]@ by {}
                    if result@.contains(id) {
                        let w = choose|j: int|
                            0 <= j < terms.len() && self@.contains_key(#[trigger] terms[j]);
                        assert forall|j: int| 0 <= j < tokens.len() implies self.postings(
                            #[trigger] tokens[j]@,
                        ).contains(id) by {
                            assert(self@.contains_key(terms[j]));
                        }
                    }
                    if tokens.len() > 0 && (forall|j: int|
                        0 <= j < tokens.len() ==> self.postings(#[trigger] tokens[j]@).contains(
                            id,
                        )) {
                        assert(self@.contains_key(terms[0]));
                        assert forall|j: int|
                            0 <= j < terms.len() && self@.contains_key(
                                #[trigger] terms[j],
                            ) implies self@[terms[j]].contains(id) by {
                            assert(self.postings(tokens[j]@).contains(id));
                        }
                    }
                }
            }
        }
        result
    }
}

/// After `id` is recorded against each of `terms`, it is in the postings of
/// each of them.
pub proof fn lemma_inserted_terms_hold(
    m: Map<Seq<char>, Seq<ProductId>>,
    terms: Seq<Seq<char>>,
    id: ProductId,
)
    ensures
        forall|t: Seq<char>|
            terms.contains(t) ==> #[trigger] postings_in(insert_all(m, terms, id), t).contains(id),
        forall|t: Seq<char>, x: ProductId|
            postings_in(m, t).contains(x) ==> #[trigger] postings_in(
                insert_all(m, terms, id),
                t,
            ).contains(x),
    decreases terms.len(),
{
    if terms.len() > 0 {
        let front = terms.drop_last();
        let last = terms.last();
        let mid = insert_all(m, front, id);
        lemma_inserted_terms_hold(m, front, id);
        let after = insert_all(m, terms, id);
        assert(after == insert_term(mid, last, id));
        assert forall|t: Seq<char>, x: ProductId| postings_in(mid, t).contains(x) implies postings_in(
            after,
            t,
        ).contains(x) by {
            if t == last {
                let k = choose|k: int|
                    0 <= k < postings_in(mid, t).len() && postings_in(mid, t)[k] == x;
                assert(postings_in(after, t)[k] == x);
            }
        }
        assert forall|t: Seq<char>| terms.contains(t) implies #[trigger] postings_in(
            after,
            t,
        ).contains(id) by {
            if t == last {
                let p = postings_in(mid, last);
                assert(postings_in(after, t)[p.len() as int] == id);
            } else {
                let k = choose|k: int| 0 <= k < terms.len() && terms[k] == t;
                assert(front[k] == t);
                assert(front.contains(t));
                assert(postings_in(mid, t).contains(id));
            }
        }
        assert forall|t: Seq<char>, x: ProductId| postings_in(m, t).contains(x) implies postings_in(
            after,
            t,
        ).contains(x) by {
            assert(postings_in(mid, t).contains(x));
        }
    }
}

/// What is recorded under the terms of one text can be found again by each
/// of them: after `id` is recorded against each of `terms`, it answers the
/// query of any single one of these terms.
pub proof fn lemma_inserted_is_retrievable(
    m: Map<Seq<char>, Seq<ProductId>>,
    terms: Seq<Seq<char>>,
    id: ProductId,
    t: Seq<char>,
)
    requires
        terms.contains(t),
    ensures
        is_match(insert_all(m, terms, id), seq![t], id),
{
    lemma_inserted_terms_hold(m, terms, id);
    let after = insert_all(m, terms, id);
    assert(postings_in(after, t).contains(id));
    assert(after.contains_key(t));
    assert(seq![t][0] == t);
}

/// Where every term of a query is known, the query is answered by the
/// identifiers that are in the postings of all its terms; where none is
/// known, or there is no term, by nothing.
pub proof fn lemma_match_of_known_terms(
    m: Map<Seq<char>, Seq<ProductId>>,
    terms: Seq<Seq<char>>,
    id: ProductId,
)
    ensures
        (terms.len() > 0 && forall|j: int| 0 <= j < terms.len() ==> m.contains_key(#[trigger] terms[j]))
            ==> (is_match(m, terms, id) <==> forall|j: int|
            0 <= j < terms.len() ==> m[#[trigger] terms[j]].contains(id)),
        (forall|j: int| 0 <= j < terms.len() ==> !m.contains_key(#[trigger] terms[j])) ==> !is_match(
            m,
            terms,
            id,
        ),
{
    if terms.len() > 0 && forall|j: int| 0 <= j < terms.len() ==> m.contains_key(#[trigger] terms[j]) {
        assert(m.contains_key(terms[0]));
    }
}

} // verus!
