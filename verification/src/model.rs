//! The trained model: for every context of the corpus, its frequency table.

use std::collections::HashMap;
use vstd::prelude::*;
use vstd::utf8::encode_utf8;
use crate::assoc::{
    distinct_keys, has_key, key_index, lemma_key_found, lemma_push_new_key, lemma_update_value,
};
use crate::table::{
    lemma_observe, lemma_tally_push, observe, sum_counts, tally, well_formed, FreqTable,
};
use crate::text::{context_at, join_strs};

verus! {

/// The table that `model` holds for `context`, empty when it holds none.
pub open spec fn table_of(
    model: Seq<(Seq<char>, Seq<(Seq<char>, nat)>)>,
    context: Seq<char>,
) -> Seq<(Seq<char>, nat)> {
    if has_key(model, context) {
        model[key_index(model, context)].1
    } else {
        Seq::empty()
    }
}

/// The number of observations that all tables of `model` hold together.
pub open spec fn total_observations(model: Seq<(Seq<char>, Seq<(Seq<char>, nat)>)>) -> nat
    decreases model.len(),
{
    if model.len() == 0 {
        0
    } else {
        total_observations(model.drop_last()) + sum_counts(model.last().1)
    }
}

/// What a model holds at every observable point: no context twice, and a well
/// formed table under each.
pub open spec fn model_well_formed(model: Seq<(Seq<char>, Seq<(Seq<char>, nat)>)>) -> bool {
    &&& distinct_keys(model)
    &&& forall|i: int| 0 <= i < model.len() ==> well_formed((#[trigger] model[i]).1)
}

/// The model after it has seen `word` follow `context`: the table of a known
/// context observes the word, a new context joins the end with a table of
/// that one observation.
pub open spec fn record(
    model: Seq<(Seq<char>, Seq<(Seq<char>, nat)>)>,
    context: Seq<char>,
    word: Seq<char>,
) -> Seq<(Seq<char>, Seq<(Seq<char>, nat)>)> {
    if has_key(model, context) {
        let i = key_index(model, context);
        model.update(i, (context, observe(model[i].1, word)))
    } else {
        model.push((context, seq![(word, 1nat)]))
    }
}

/// The model of a corpus for contexts of `n` words: one scan in corpus order
/// that records, for every position from `n` on, the word there after the `n`
/// words in front of it.
pub open spec fn trained(words: Seq<Seq<char>>, n: nat) -> Seq<(Seq<char>, Seq<(Seq<char>, nat)>)>
    decreases words.len(),
{
    if words.len() <= n {
        Seq::empty()
    } else {
        record(
            trained(words.drop_last(), n),
            context_at(words, n, words.len() - 1),
            words.last(),
        )
    }
}

pub proof fn lemma_total_push(
    model: Seq<(Seq<char>, Seq<(Seq<char>, nat)>)>,
    entry: (Seq<char>, Seq<(Seq<char>, nat)>),
)
    ensures
        total_observations(model.push(entry)) == total_observations(model) + sum_counts(entry.1),
{
    assert(model.push(entry).drop_last() =~= model);
}

pub proof fn lemma_total_update(
    model: Seq<(Seq<char>, Seq<(Seq<char>, nat)>)>,
    i: int,
    entry: (Seq<char>, Seq<(Seq<char>, nat)>),
)
    requires
        0 <= i < model.len(),
    ensures
        total_observations(model.update(i, entry)) + sum_counts(model[i].1) == total_observations(
            model,
        ) + sum_counts(entry.1),
    decreases model.len(),
{
    let changed = model.update(i, entry);
    if i == model.len() - 1 {
        assert(changed.drop_last() =~= model.drop_last());
    } else {
        assert(changed.drop_last() =~= model.drop_last().update(i, entry));
        lemma_total_update(model.drop_last(), i, entry);
    }
}

pub proof fn lemma_table_within_total(model: Seq<(Seq<char>, Seq<(Seq<char>, nat)>)>, i: int)
    requires
        0 <= i < model.len(),
    ensures
        sum_counts(model[i].1) <= total_observations(model),
    decreases model.len(),
{
    if i < model.len() - 1 {
        lemma_table_within_total(model.drop_last(), i);
    }
}

/// Recording one observation adds exactly one to the observations of the
/// model, lets the table of that context observe the word, leaves every other
/// context and its table as they were, and keeps the model well formed.
pub proof fn lemma_record(
    model: Seq<(Seq<char>, Seq<(Seq<char>, nat)>)>,
    context: Seq<char>,
    word: Seq<char>,
)
    requires
        model_well_formed(model),
    ensures
        model_well_formed(record(model, context, word)),
        total_observations(record(model, context, word)) == total_observations(model) + 1,
        has_key(record(model, context, word), context),
        table_of(record(model, context, word), context) == observe(table_of(model, context), word),
        forall|other: Seq<char>|
            other != context ==> has_key(record(model, context, word), other) == has_key(
                model,
                other,
            ) && table_of(record(model, context, word), other) == table_of(model, other),
{
    let after = record(model, context, word);
    if has_key(model, context) {
        let i = key_index(model, context);
        let table = observe(model[i].1, word);
        assert(well_formed(model[i].1));
        lemma_observe(model[i].1, word);
        lemma_update_value(model, context, table);
        lemma_total_update(model, i, (context, table));
        assert(after[i].0 == context);
        lemma_key_found(after, context, i);
        assert forall|k: int| 0 <= k < after.len() implies well_formed((#[trigger] after[k]).1) by {
            assert(well_formed(model[k].1));
        }
        assert forall|other: Seq<char>| other != context implies has_key(after, other) == has_key(
            model,
            other,
        ) && table_of(after, other) == table_of(model, other) by {
            if has_key(model, other) {
                let j = key_index(model, other);
                assert(key_index(after, other) == j);
                assert(j != i);
            }
        }
    } else {
        let table = seq![(word, 1nat)];
        assert(table =~= observe(Seq::empty(), word));
        lemma_observe(Seq::empty(), word);
        lemma_push_new_key(model, context, table);
        lemma_total_push(model, (context, table));
        assert(after[model.len() as int].1 == table);
        assert forall|k: int| 0 <= k < after.len() implies well_formed((#[trigger] after[k]).1) by {
            if k < model.len() {
                assert(well_formed(model[k].1));
            }
        }
        assert forall|other: Seq<char>| other != context implies has_key(after, other) == has_key(
            model,
            other,
        ) && table_of(after, other) == table_of(model, other) by {
            if has_key(model, other) {
                let j = key_index(model, other);
                assert(key_index(after, other) == j);
            }
        }
    }
}

/// A trained model is well formed and holds one observation for every
/// position of the corpus from `n` on: the length less `n`, or none where the
/// corpus is no longer than `n`.
pub proof fn lemma_trained(words: Seq<Seq<char>>, n: nat)
    ensures
        model_well_formed(trained(words, n)),
        total_observations(trained(words, n)) == if words.len() >= n {
            words.len() - n
        } else {
            0
        },
    decreases words.len(),
{
    if words.len() > n {
        lemma_trained(words.drop_last(), n);
        lemma_record(
            trained(words.drop_last(), n),
            context_at(words, n, words.len() - 1),
            words.last(),
        );
    }
}

/// The words that follow `context` in the corpus, in corpus order.
pub open spec fn followers(words: Seq<Seq<char>>, n: nat, context: Seq<char>) -> Seq<Seq<char>>
    decreases words.len(),
{
    if words.len() <= n {
        Seq::empty()
    } else {
        let front = followers(words.drop_last(), n, context);
        if context_at(words, n, words.len() - 1) == context {
            front.push(words.last())
        } else {
            front
        }
    }
}

/// A trained model holds a table for exactly the contexts that some word of
/// the corpus follows, and the table of a context is the tally of the words
/// that follow it.
pub proof fn lemma_trained_tables(words: Seq<Seq<char>>, n: nat, context: Seq<char>)
    ensures
        has_key(trained(words, n), context) <==> followers(words, n, context).len() > 0,
        table_of(trained(words, n), context) == tally(followers(words, n, context)),
    decreases words.len(),
{
    if words.len() > n {
        let front = words.drop_last();
        let here = context_at(words, n, words.len() - 1);
        lemma_trained(front, n);
        lemma_trained_tables(front, n, context);
        lemma_record(trained(front, n), here, words.last());
        if here == context {
            lemma_tally_push(followers(front, n, context), words.last());
        }
    } else {
        assert(!has_key(trained(words, n), context));
    }
}

/// The modulus of the hash by which the model finds its contexts.
const HASH_MODULUS: u64 = 4294967291;

/// The multiplier of that hash.
const HASH_FACTOR: u64 = 1000003;

/// A polynomial hash of a run of bytes.
spec fn bytes_hash(bytes: Seq<u8>) -> u64
    decreases bytes.len(),
{
    if bytes.len() == 0 {
        0
    } else {
        ((bytes_hash(bytes.drop_last()) * HASH_FACTOR + bytes.last()) % (
        HASH_MODULUS as int)) as u64
    }
}

/// The hash of a text: that of its bytes in UTF-8.
spec fn text_hash(text: Seq<char>) -> u64 {
    bytes_hash(encode_utf8(text))
}

proof fn lemma_hash_bounded(bytes: Seq<u8>)
    ensures
        bytes_hash(bytes) < HASH_MODULUS,
    decreases bytes.len(),
{
    if bytes.len() > 0 {
        lemma_hash_bounded(bytes.drop_last());
    }
}

fn hash_text(text: &str) -> (hash: u64)
    ensures
        hash == text_hash(text@),
{
    let bytes = text.as_bytes();
    let mut hash: u64 = 0;
    let mut i: usize = 0;
    proof {
        assert(bytes@.take(0) =~= Seq::empty());
    }
    while i < bytes.len()
        invariant
            i <= bytes.len(),
            bytes@ == encode_utf8(text@),
            hash == bytes_hash(bytes@.take(i as int)),
            hash < HASH_MODULUS,
        decreases bytes.len() - i,
    {
        proof {
            assert(bytes@.take(i + 1).drop_last() =~= bytes@.take(i as int));
            lemma_hash_bounded(bytes@.take(i + 1));
        }
        hash = (hash * HASH_FACTOR + bytes[i] as u64) % HASH_MODULUS;
        i = i + 1;
    }
    proof {
        assert(bytes@.take(bytes.len() as int) =~= bytes@);
    }
    hash
}

/// A context with the table of the words that followed it.
#[derive(Debug)]
struct ContextEntry {
    context: String,
    table: FreqTable,
}

/// The contexts of a corpus in the order in which they were first seen, each
/// with its frequency table.
#[derive(Debug)]
pub struct NGramModel {
    entries: Vec<ContextEntry>,
    /// For the hash of every context, the positions of the contexts with that
    /// hash: where `find` looks.
    index: HashMap<u64, Vec<usize>>,
}

impl View for NGramModel {
    type V = Seq<(Seq<char>, Seq<(Seq<char>, nat)>)>;

    closed spec fn view(&self) -> Seq<(Seq<char>, Seq<(Seq<char>, nat)>)> {
        Seq::new(
            self.entries.len() as nat,
            |i: int| (self.entries[i].context@, self.entries[i].table@),
        )
    }
}

impl NGramModel {
    /// Every table keeps its own invariant.
    spec fn tables_wf(&self) -> bool {
        forall|i: int| 0 <= i < self.entries.len() ==> (#[trigger] self.entries[i]).table.wf()
    }

    /// The index names every context under its hash, and names nothing else.
    spec fn indexed(&self) -> bool {
        &&& forall|i: int|
            0 <= i < self.entries.len() ==> {
                let hash = text_hash((#[trigger] self.entries[i]).context@);
                self.index@.contains_key(hash) && self.index@[hash]@.contains(i as usize)
            }
        &&& forall|hash: u64, j: int|
            self.index@.contains_key(hash) && 0 <= j < self.index@[hash]@.len() ==> (
            #[trigger] self.index@[hash]@[j]) < self.entries.len()
    }

    /// The parts of the model agree: every table keeps its own invariant, and
    /// the index by which contexts are found is complete.
    pub closed spec fn coherent(&self) -> bool {
        self.tables_wf() && self.indexed()
    }

    /// The model's invariant.
    pub open spec fn wf(&self) -> bool {
        &&& self.coherent()
        &&& model_well_formed(self@)
    }

    /// A model without contexts.
    pub fn new() -> (model: NGramModel)
        ensures
            model.wf(),
            model@ == Seq::<(Seq<char>, Seq<(Seq<char>, nat)>)>::empty(),
    {
        let model = NGramModel { entries: Vec::new(), index: HashMap::new() };
        proof {
            assert(model@ =~= Seq::empty());
        }
        model
    }

    /// The number of contexts.
    pub fn len(&self) -> (n: usize)
        ensures
            n == self@.len(),
    {
        self.entries.len()
    }

    /// The position of `context` among the contexts.
    fn find(&self, context: &String) -> (found: Option<usize>)
        requires
            distinct_keys(self@),
            self.indexed(),
        ensures
            match found {
                Some(i) => has_key(self@, context@) && i == key_index(self@, context@) && i
                    < self@.len(),
                None => !has_key(self@, context@),
            },
    {
        let hash = hash_text(context.as_str());
        match self.index.get(&hash) {
            Some(bucket) => {
                let mut j: usize = 0;
                while j < bucket.len()
                    invariant
                        j <= bucket.len(),
                        distinct_keys(self@),
                        self.indexed(),
                        self.index@.contains_key(hash),
                        *bucket == self.index@[hash],
                        forall|k: int|
                            0 <= k < j ==> self@[#[trigger] bucket@[k] as int].0 != context@,
                    decreases bucket.len() - j,
                {
                    let at = bucket[j];
                    assert(self.index@[hash]@[j as int] < self.entries.len());
                    if self.entries[at].context == *context {
                        proof {
                            lemma_key_found(self@, context@, at as int);
                        }
                        return Some(at);
                    }
                    j = j + 1;
                }
                proof {
                    if has_key(self@, context@) {
                        let i = key_index(self@, context@);
                        assert(self.entries[i].context@ == context@);
                        assert(bucket@.contains(i as usize));
                        let k = choose|k: int| 0 <= k < bucket@.len() && bucket@[k] == i as usize;
                        assert(self@[bucket@[k] as int].0 != context@);
                    }
                }
                None
            },
            None => {
                proof {
                    if has_key(self@, context@) {
                        let i = key_index(self@, context@);
                        assert(self.entries[i].context@ == context@);
                    }
                }
                None
            },
        }
    }

    /// The table of `context`, if the model holds one.
    pub fn get(&self, context: &str) -> (found: Option<&FreqTable>)
        requires
            self.wf(),
        ensures
            match found {
                Some(table) => has_key(self@, context@) && table.wf() && table@ == table_of(
                    self@,
                    context@,
                ),
                None => !has_key(self@, context@),
            },
    {
        let key = String::from_str(context);
        match self.find(&key) {
            Some(i) => {
                assert(self.entries[i as int].table.wf());
                assert(self@[i as int].1 == self.entries[i as int].table@);
                Some(&self.entries[i].table)
            },
            None => None,
        }
    }

    /// The `i`-th context in order of first appearance.
    pub fn context(&self, i: usize) -> (found: Option<String>)
        ensures
            i < self@.len() ==> found is Some && found->Some_0@ == self@[i as int].0,
            i >= self@.len() ==> found is None,
    {
        if i < self.entries.len() {
            Some(self.entries[i].context.clone())
        } else {
            None
        }
    }

    /// Records that `word` followed `context`.
    pub fn record(&mut self, context: String, word: String)
        requires
            old(self).wf(),
            total_observations(old(self)@) < u64::MAX,
        ensures
            final(self).wf(),
            final(self)@ == record(old(self)@, context@, word@),
            total_observations(final(self)@) == total_observations(old(self)@) + 1,
    {
        proof {
            lemma_record(self@, context@, word@);
        }
        match self.find(&context) {
            Some(i) => {
                proof {
                    lemma_table_within_total(self@, i as int);
                    assert(self.entries[i as int].table.wf());
                    assert(self@[i as int].1 == self.entries[i as int].table@);
                }
                self.entries[i].table.observed(word);
                proof {
                    assert(self@ =~= record(old(self)@, context@, word@));
                    assert forall|k: int| 0 <= k < self.entries.len() implies (
                    #[trigger] self.entries[k]).table.wf() by {
                        if k != i {
                            assert(old(self).entries[k].table.wf());
                        }
                    }
                    assert forall|k: int| 0 <= k < self.entries.len() implies {
                        let h = text_hash((#[trigger] self.entries[k]).context@);
                        self.index@.contains_key(h) && self.index@[h]@.contains(k as usize)
                    } by {
                        assert(old(self).entries[k].context@ == self.entries[k].context@);
                    }
                }
            },
            None => {
                let table = FreqTable::new(word);
                let at = self.entries.len();
                let hash = hash_text(context.as_str());
                let mut bucket = match self.index.remove(&hash) {
                    Some(bucket) => bucket,
                    None => Vec::new(),
                };
                let ghost before = bucket@;
                bucket.push(at);
                self.index.insert(hash, bucket);
                self.entries.push(ContextEntry { context, table });
                proof {
                    assert(self@ =~= record(old(self)@, context@, word@));
                    assert forall|k: int| 0 <= k < self.entries.len() implies (
                    #[trigger] self.entries[k]).table.wf() by {
                        if k < old(self).entries.len() {
                            assert(old(self).entries[k].table.wf());
                        }
                    }
                    assert(self.index@[hash]@ == before.push(at));
                    assert(self.index@[hash]@[before.len() as int] == at);
                    assert forall|k: int| 0 <= k < self.entries.len() implies {
                        let h = text_hash((#[trigger] self.entries[k]).context@);
                        self.index@.contains_key(h) && self.index@[h]@.contains(k as usize)
                    } by {
                        let h = text_hash(self.entries[k].context@);
                        if k < at {
                            assert(old(self).entries[k].context@ == self.entries[k].context@);
                            assert(old(self).index@.contains_key(h));
                            assert(old(self).index@[h]@.contains(k as usize));
                            if h == hash {
                                let j = choose|j: int|
                                    0 <= j < before.len() && before[j] == k as usize;
                                assert(self.index@[hash]@[j] == k as usize);
                            }
                        }
                    }
                    assert forall|h: u64, j: int|
                        self.index@.contains_key(h) && 0 <= j < self.index@[h]@.len() implies (
                    #[trigger] self.index@[h]@[j]) < self.entries.len() by {
                        if h == hash {
                            if j < before.len() {
                                assert(old(self).index@.contains_key(hash));
                                assert(old(self).index@[hash]@[j] < old(self).entries.len());
                            }
                        } else {
                            assert(old(self).index@.contains_key(h));
                            assert(old(self).index@[h]@[j] < old(self).entries.len());
                        }
                    }
                }
            },
        }
    }
}

/// Trains a model on `text_corpus` for contexts of `n` words.
///
/// For every position from `n` on, the `n` words in front of it are joined
/// with single spaces into a context, and the word at the position is recorded
/// as a follower of that context. A corpus of no more than `n` words gives a
/// model without contexts.
pub fn train_n_gram_model(text_corpus: &Vec<&str>, n: usize) -> (model: NGramModel)
    ensures
        model.wf(),
        model@ == trained(text_corpus.deep_view(), n as nat),
        total_observations(model@) == if text_corpus.len() >= n {
            text_corpus.len() - n
        } else {
            0
        },
{
    let mut model = NGramModel::new();
    let ghost words = text_corpus.deep_view();
    proof {
        lemma_trained(words, n as nat);
    }
    if text_corpus.len() <= n {
        return model;
    }
    let mut i: usize = n;
    while i < text_corpus.len()
        invariant
            n <= i <= text_corpus.len(),
            words == text_corpus.deep_view(),
            model.wf(),
            model@ == trained(words.take(i as int), n as nat),
        decreases text_corpus.len() - i,
    {
        proof {
            lemma_trained(words.take(i as int), n as nat);
        }
        let ngram = join_strs(text_corpus, i - n, i);
        let next_word = String::from_str(text_corpus[i]);
        model.record(ngram, next_word);
        proof {
            let grown = words.take(i + 1);
            assert(grown.drop_last() =~= words.take(i as int));
            assert(grown.subrange(i - n, i as int) =~= words.subrange(i - n, i as int));
            assert(grown.last() == words[i as int]);
            assert(text_corpus[i as int]@ == words[i as int]);
        }
        i = i + 1;
    }
    proof {
        assert(words.take(i as int) =~= words);
    }
    model
}

} // verus!
