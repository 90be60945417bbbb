//! Frequency tables: for one context, the words seen after it and how often.

use vstd::prelude::*;
use crate::assoc::{
    distinct_keys, has_key, key_index, lemma_key_found, lemma_push_new_key, lemma_update_value,
};
use crate::error::ModelError;
use crate::random::{RandomSource, ThreadSource};

verus! {

/// The sum of all counts of a table.
pub open spec fn sum_counts(table: Seq<(Seq<char>, nat)>) -> nat
    decreases table.len(),
{
    if table.len() == 0 {
        0
    } else {
        sum_counts(table.drop_last()) + table.last().1
    }
}

/// The count recorded for `word`, zero when the table does not hold it.
pub open spec fn count_of(table: Seq<(Seq<char>, nat)>, word: Seq<char>) -> nat {
    if has_key(table, word) {
        table[key_index(table, word)].1
    } else {
        0
    }
}

/// What a table holds at every observable point: at least one word, no word
/// twice, and no count below one.
pub open spec fn well_formed(table: Seq<(Seq<char>, nat)>) -> bool {
    &&& table.len() > 0
    &&& distinct_keys(table)
    &&& forall|i: int| 0 <= i < table.len() ==> (#[trigger] table[i]).1 >= 1
}

/// The table after one more observation of `word`: its count goes up by one
/// where the table holds it, else it joins the end with count one.
pub open spec fn observe(table: Seq<(Seq<char>, nat)>, word: Seq<char>) -> Seq<(Seq<char>, nat)> {
    if has_key(table, word) {
        let i = key_index(table, word);
        table.update(i, (word, table[i].1 + 1))
    } else {
        table.push((word, 1nat))
    }
}

pub proof fn lemma_sum_push(table: Seq<(Seq<char>, nat)>, entry: (Seq<char>, nat))
    ensures
        sum_counts(table.push(entry)) == sum_counts(table) + entry.1,
{
    assert(table.push(entry).drop_last() =~= table);
}

pub proof fn lemma_sum_update(table: Seq<(Seq<char>, nat)>, i: int, entry: (Seq<char>, nat))
    requires
        0 <= i < table.len(),
    ensures
        sum_counts(table.update(i, entry)) + table[i].1 == sum_counts(table) + entry.1,
    decreases table.len(),
{
    let changed = table.update(i, entry);
    if i == table.len() - 1 {
        assert(changed.drop_last() =~= table.drop_last());
    } else {
        assert(changed.drop_last() =~= table.drop_last().update(i, entry));
        lemma_sum_update(table.drop_last(), i, entry);
    }
}

pub proof fn lemma_count_within_sum(table: Seq<(Seq<char>, nat)>, i: int)
    requires
        0 <= i < table.len(),
    ensures
        table[i].1 <= sum_counts(table),
    decreases table.len(),
{
    if i < table.len() - 1 {
        lemma_count_within_sum(table.drop_last(), i);
    }
}

/// One observation adds exactly one to the total and to the count of the
/// observed word, leaves every other count as it was, and keeps the table
/// well formed.
pub proof fn lemma_observe(table: Seq<(Seq<char>, nat)>, word: Seq<char>)
    requires
        table.len() == 0 || well_formed(table),
    ensures
        well_formed(observe(table, word)),
        sum_counts(observe(table, word)) == sum_counts(table) + 1,
        count_of(observe(table, word), word) == count_of(table, word) + 1,
        forall|other: Seq<char>|
            other != word ==> count_of(observe(table, word), other) == count_of(table, other),
{
    let after = observe(table, word);
    assert(distinct_keys(table));
    if has_key(table, word) {
        let i = key_index(table, word);
        lemma_update_value(table, word, table[i].1 + 1);
        lemma_sum_update(table, i, (word, table[i].1 + 1));
        assert(after[i].0 == word);
        lemma_key_found(after, word, i);
        assert forall|other: Seq<char>| other != word implies count_of(after, other) == count_of(
            table,
            other,
        ) by {
            if has_key(table, other) {
                let j = key_index(table, other);
                assert(key_index(after, other) == j);
                assert(j != i);
            }
        }
        assert forall|k: int| 0 <= k < after.len() implies (#[trigger] after[k]).1 >= 1 by {
            assert(table[k].1 >= 1);
        }
    } else {
        lemma_push_new_key(table, word, 1nat);
        lemma_sum_push(table, (word, 1nat));
        assert forall|other: Seq<char>| other != word implies count_of(after, other) == count_of(
            table,
            other,
        ) by {
            if has_key(table, other) {
                let j = key_index(table, other);
                assert(key_index(after, other) == j);
            }
        }
        assert forall|k: int| 0 <= k < after.len() implies (#[trigger] after[k]).1 >= 1 by {
            if k < table.len() {
                assert(table[k].1 >= 1);
            }
        }
    }
}

/// The table that a run of observations leaves: the words in the order in
/// which they were first observed, each with the number of its observations.
pub open spec fn tally(words: Seq<Seq<char>>) -> Seq<(Seq<char>, nat)>
    decreases words.len(),
{
    if words.len() == 0 {
        Seq::empty()
    } else {
        observe(tally(words.drop_last()), words.last())
    }
}

/// How often `word` occurs in `words`.
pub open spec fn occurrences(words: Seq<Seq<char>>, word: Seq<char>) -> nat
    decreases words.len(),
{
    if words.len() == 0 {
        0
    } else {
        occurrences(words.drop_last(), word) + if words.last() == word {
            1nat
        } else {
            0nat
        }
    }
}

/// After any run of observations the table is well formed, its counts add up
/// to the number of observations, and the count of every word is the number
/// of times it was observed.
pub proof fn lemma_tally(words: Seq<Seq<char>>)
    ensures
        words.len() > 0 ==> well_formed(tally(words)),
        words.len() == 0 ==> tally(words).len() == 0,
        sum_counts(tally(words)) == words.len(),
        forall|word: Seq<char>| count_of(tally(words), word) == occurrences(words, word),
    decreases words.len(),
{
    if words.len() > 0 {
        let front = words.drop_last();
        lemma_tally(front);
        lemma_observe(tally(front), words.last());
        assert forall|word: Seq<char>| count_of(tally(words), word) == occurrences(
            words,
            word,
        ) by {
            assert(count_of(tally(front), word) == occurrences(front, word));
        }
    } else {
        assert forall|word: Seq<char>| count_of(tally(words), word) == occurrences(
            words,
            word,
        ) by {
            assert(!has_key(tally(words), word));
        }
    }
}

/// One observation more is one step of the tally.
pub proof fn lemma_tally_push(words: Seq<Seq<char>>, word: Seq<char>)
    ensures
        tally(words.push(word)) == observe(tally(words), word),
{
    assert(words.push(word).drop_last() =~= words);
}

/// The sum of the counts of the first `k` entries.
pub open spec fn weight_before(table: Seq<(Seq<char>, nat)>, k: int) -> nat {
    sum_counts(table.take(k))
}

/// The draw `r` falls on entry `k`: walking the entries in order with a running
/// sum of counts, `k` is the first at which the sum exceeds `r`.
pub open spec fn selects(table: Seq<(Seq<char>, nat)>, r: nat, k: int) -> bool {
    0 <= k < table.len() && weight_before(table, k) <= r < weight_before(table, k + 1)
}

/// The entry on which the draw `r` falls; meaningful for `r` below the sum of
/// the counts.
pub open spec fn selected(table: Seq<(Seq<char>, nat)>, r: nat) -> int {
    choose|k: int| selects(table, r, k)
}

/// The word on which the draw `r` falls; meaningful for `r` below the sum of
/// the counts.
pub open spec fn drawn_word(table: Seq<(Seq<char>, nat)>, r: u64) -> Seq<char> {
    table[selected(table, r as nat)].0
}

pub proof fn lemma_weight_step(table: Seq<(Seq<char>, nat)>, k: int)
    requires
        0 <= k < table.len(),
    ensures
        weight_before(table, k + 1) == weight_before(table, k) + table[k].1,
{
    assert(table.take(k + 1).drop_last() =~= table.take(k));
}

pub proof fn lemma_weight_full(table: Seq<(Seq<char>, nat)>)
    ensures
        weight_before(table, table.len() as int) == sum_counts(table),
        weight_before(table, 0) == 0,
{
    assert(table.take(table.len() as int) =~= table);
}

pub proof fn lemma_weight_monotone(table: Seq<(Seq<char>, nat)>, j: int, k: int)
    requires
        0 <= j <= k <= table.len(),
    ensures
        weight_before(table, j) <= weight_before(table, k),
    decreases k - j,
{
    if j < k {
        lemma_weight_monotone(table, j, k - 1);
        lemma_weight_step(table, k - 1);
    }
}

/// A draw falls on at most one entry.
pub proof fn lemma_selection_unique(table: Seq<(Seq<char>, nat)>, r: nat, j: int, k: int)
    requires
        selects(table, r, j),
        selects(table, r, k),
    ensures
        j == k,
{
    if j < k {
        lemma_weight_monotone(table, j + 1, k);
    } else if k < j {
        lemma_weight_monotone(table, k + 1, j);
    }
}

/// Every draw below the sum of the counts falls on an entry, and no other draw
/// does.
pub proof fn lemma_selection_exists(table: Seq<(Seq<char>, nat)>, r: nat)
    ensures
        r < sum_counts(table) <==> selects(table, r, selected(table, r)),
    decreases table.len(),
{
    lemma_weight_full(table);
    if r < sum_counts(table) {
        let head = table.drop_last();
        let last = table.len() - 1;
        assert(table.take(last) =~= head);
        lemma_weight_step(table, last);
        if r < sum_counts(head) {
            lemma_selection_exists(head, r);
            let k = selected(head, r);
            assert(head.take(k) =~= table.take(k));
            assert(head.take(k + 1) =~= table.take(k + 1));
            assert(selects(table, r, k));
        } else {
            assert(selects(table, r, last));
        }
    } else if selects(table, r, selected(table, r)) {
        lemma_weight_monotone(table, selected(table, r) + 1, table.len() as int);
    }
}

/// The draws that fall on one entry are as many as its count: under a uniform
/// draw below the total, a word comes out with probability count over total.
pub proof fn lemma_selection_weight(table: Seq<(Seq<char>, nat)>, k: int)
    requires
        0 <= k < table.len(),
    ensures
        Set::new(|r: int| 0 <= r && selects(table, r as nat, k)).finite(),
        Set::new(|r: int| 0 <= r && selects(table, r as nat, k)).len() == table[k].1,
{
    let lo = weight_before(table, k) as int;
    let hi = weight_before(table, k + 1) as int;
    lemma_weight_step(table, k);
    vstd::set_lib::lemma_int_range(lo, hi);
    assert(Set::new(|r: int| 0 <= r && selects(table, r as nat, k))
        =~= vstd::set_lib::set_int_range(lo, hi));
}

/// A candidate word with the number of times it was observed.
#[derive(Debug)]
struct Entry {
    word: String,
    count: u64,
}

/// The words observed after one context, in the order in which they were first
/// seen, each with its count, and the number of observations in all.
#[derive(Debug)]
pub struct FreqTable {
    entries: Vec<Entry>,
    n_observations: u64,
}

impl View for FreqTable {
    type V = Seq<(Seq<char>, nat)>;

    closed spec fn view(&self) -> Seq<(Seq<char>, nat)> {
        Seq::new(
            self.entries.len() as nat,
            |i: int| (self.entries[i].word@, self.entries[i].count as nat),
        )
    }
}

impl FreqTable {
    /// The number of observations that the table has recorded.
    pub closed spec fn total(&self) -> nat {
        self.n_observations as nat
    }

    /// The table's invariant: its view is well formed and its total is the sum
    /// of its counts.
    pub open spec fn wf(&self) -> bool {
        &&& well_formed(self@)
        &&& self.total() == sum_counts(self@)
    }

    /// A table with one observation of `word`.
    pub fn new(word: String) -> (table: FreqTable)
        ensures
            table.wf(),
            table@ == seq![(word@, 1nat)],
            table@ == observe(Seq::empty(), word@),
            table.total() == 1,
    {
        let mut entries: Vec<Entry> = Vec::new();
        entries.push(Entry { word, count: 1 });
        let table = FreqTable { entries, n_observations: 1 };
        proof {
            assert(table@ =~= seq![(word@, 1nat)]);
            assert(table@ =~= observe(Seq::empty(), word@));
            lemma_observe(Seq::empty(), word@);
        }
        table
    }

    /// The position of `word` among the candidates.
    fn find(&self, word: &String) -> (found: Option<usize>)
        requires
            distinct_keys(self@),
        ensures
            match found {
                Some(i) => has_key(self@, word@) && i == key_index(self@, word@) && i
                    < self@.len(),
                None => !has_key(self@, word@),
            },
    {
        let mut i: usize = 0;
        while i < self.entries.len()
            invariant
                i <= self.entries.len(),
                distinct_keys(self@),
                forall|j: int| 0 <= j < i ==> (#[trigger] self@[j]).0 != word@,
            decreases self.entries.len() - i,
        {
            if self.entries[i].word == *word {
                proof {
                    lemma_key_found(self@, word@, i as int);
                }
                return Some(i);
            }
            i = i + 1;
        }
        None
    }

    /// Records one more observation of `word`.
    pub fn observed(&mut self, word: String)
        requires
            old(self).wf(),
            old(self).total() < u64::MAX,
        ensures
            final(self).wf(),
            final(self)@ == observe(old(self)@, word@),
            final(self).total() == old(self).total() + 1,
    {
        proof {
            lemma_observe(self@, word@);
        }
        match self.find(&word) {
            Some(i) => {
                proof {
                    lemma_count_within_sum(self@, i as int);
                }
                self.entries[i].count = self.entries[i].count + 1;
            },
            None => {
                self.entries.push(Entry { word, count: 1 });
            },
        }
        self.n_observations = self.n_observations + 1;
        proof {
            assert(self@ =~= observe(old(self)@, word@));
        }
    }

    /// The number of observations recorded.
    pub fn n_observations(&self) -> (n: u64)
        ensures
            n == self.total(),
    {
        self.n_observations
    }

    /// The number of distinct words.
    pub fn len(&self) -> (n: usize)
        ensures
            n == self@.len(),
    {
        self.entries.len()
    }

    /// The count recorded for `word`, zero when the table does not hold it.
    pub fn count(&self, word: &str) -> (n: u64)
        requires
            self.wf(),
        ensures
            n == count_of(self@, word@),
    {
        let key = String::from_str(word);
        match self.find(&key) {
            Some(i) => self.entries[i].count,
            None => 0,
        }
    }

    /// The `i`-th word in order of first observation.
    pub fn word_at(&self, i: usize) -> (word: Option<String>)
        ensures
            i < self@.len() ==> word is Some && word->Some_0@ == self@[i as int].0,
            i >= self@.len() ==> word is None,
    {
        if i < self.entries.len() {
            Some(self.entries[i].word.clone())
        } else {
            None
        }
    }

    /// The word on which the draw `r` falls: the entries are walked in order of
    /// first observation with a running sum of counts, and the first entry at
    /// which the sum exceeds `r` gives its word. A draw at or above the total
    /// falls on no entry.
    pub fn pick(&self, r: u64) -> (choice: Result<String, ModelError>)
        requires
            self.wf(),
        ensures
            r < self.total() ==> choice is Ok && selects(
                self@,
                r as nat,
                selected(self@, r as nat),
            ) && choice->Ok_0@ == drawn_word(self@, r),
            r >= self.total() ==> choice == Err::<String, ModelError>(
                ModelError::InvariantViolation,
            ),
    {
        let mut cumul: u64 = 0;
        let mut i: usize = 0;
        proof {
            lemma_weight_full(self@);
        }
        while i < self.entries.len()
            invariant
                i <= self.entries.len(),
                self.wf(),
                cumul == weight_before(self@, i as int),
                cumul <= r,
            decreases self.entries.len() - i,
        {
            proof {
                lemma_weight_step(self@, i as int);
                lemma_weight_monotone(self@, i + 1, self@.len() as int);
                lemma_weight_full(self@);
            }
            cumul = cumul + self.entries[i].count;
            if r < cumul {
                proof {
                    assert(selects(self@, r as nat, i as int));
                    lemma_selection_unique(self@, r as nat, i as int, selected(self@, r as nat));
                }
                return Ok(self.entries[i].word.clone());
            }
            i = i + 1;
        }
        proof {
            lemma_weight_full(self@);
        }
        Err(ModelError::InvariantViolation)
    }

    /// A word of the table, drawn with `rng`. A table with a single word gives
    /// it without touching `rng`; otherwise one number below the total is
    /// drawn and the word on which it falls is given.
    pub fn get_random_word_with<R: RandomSource>(&self, rng: &mut R) -> (word: String)
        requires
            self.wf(),
        ensures
            has_key(self@, word@),
            self@.len() == 1 ==> *final(rng) == *old(rng) && word@ == self@[0].0,
            self@.len() > 1 ==> {
                let r = final(rng).drawn().last();
                &&& final(rng).drawn() == old(rng).drawn().push(r)
                &&& r < self.total()
                &&& word@ == drawn_word(self@, r)
            },
    {
        if self.entries.len() == 1 {
            proof {
                assert(self@[0].0 == self.entries[0].word@);
            }
            return self.entries[0].word.clone();
        }
        proof {
            lemma_count_within_sum(self@, 0);
        }
        let r = rng.below(self.n_observations);
        proof {
            lemma_selection_exists(self@, r as nat);
        }
        match self.pick(r) {
            Ok(word) => word,
            // A draw below the total falls on a word: this arm is never taken.
            Err(_) => String::from_str("."),
        }
    }

    /// A word of the table, drawn with the thread-local generator.
    pub fn get_random_word(&self) -> (word: String)
        requires
            self.wf(),
        ensures
            has_key(self@, word@),
            self@.len() == 1 ==> word@ == self@[0].0,
            self@.len() > 1 ==> exists|r: u64|
                r < self.total() && word@ == #[trigger] drawn_word(self@, r),
    {
        let mut rng = ThreadSource::new();
        self.get_random_word_with(&mut rng)
    }
}

} // verus!
