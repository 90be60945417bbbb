//! The generation walk: a seed extended word by word from the model.

use vstd::prelude::*;
use crate::assoc::has_key;
use crate::model::{NGramModel, table_of};
use crate::table::drawn_word;
use crate::random::{RandomSource, ThreadSource};
use crate::text::{context_at, join_strings, join_words, terminal};

verus! {

/// The most words that a generated sentence has, its seed included; a seed
/// that is longer stays as it is.
pub const MAX_TOKENS: usize = 100;

/// `next` may follow the words of `prefix`: it is a word of the table that the
/// model holds for the last `n` words of `prefix`, or, where the model holds
/// none, the terminal word.
pub open spec fn follows(
    model: Seq<(Seq<char>, Seq<(Seq<char>, nat)>)>,
    n: nat,
    prefix: Seq<Seq<char>>,
    next: Seq<char>,
) -> bool {
    let context = context_at(prefix, n, prefix.len() as int);
    if has_key(model, context) {
        has_key(table_of(model, context), next)
    } else {
        next == terminal()
    }
}

/// `sentence` is a walk from `seed`: it starts with the seed; every later word
/// follows the words in front of it; no word added before the last is the
/// terminal word; and a seed of fewer than `MAX_TOKENS` words is extended by at
/// least one word, to at most `MAX_TOKENS`, ending short of that only with the
/// terminal word.
pub open spec fn is_walk(
    model: Seq<(Seq<char>, Seq<(Seq<char>, nat)>)>,
    n: nat,
    seed: Seq<Seq<char>>,
    sentence: Seq<Seq<char>>,
) -> bool {
    &&& seed.len() <= sentence.len()
    &&& sentence.take(seed.len() as int) == seed
    &&& forall|i: int|
        #![trigger sentence.take(i)]
        seed.len() <= i < sentence.len() ==> follows(model, n, sentence.take(i), sentence[i])
    &&& forall|i: int|
        seed.len() <= i < sentence.len() - 1 ==> #[trigger] sentence[i] != terminal()
    &&& if seed.len() >= MAX_TOKENS {
        sentence.len() == seed.len()
    } else {
        &&& seed.len() < sentence.len() <= MAX_TOKENS
        &&& sentence.len() < MAX_TOKENS ==> sentence.last() == terminal()
    }
}

/// The sentence that grows from `sentence` when the numbers drawn are `draws`,
/// in that order.
///
/// A sentence of `MAX_TOKENS` words or more stays as it is. Else the next
/// word is the terminal word where the model holds no table for the last `n`
/// words, the only word of their table where it has one word (no number is
/// used up), and else the word on which the next number falls. Past the
/// terminal word the sentence ends; past another it grows on.
pub open spec fn grown(
    model: Seq<(Seq<char>, Seq<(Seq<char>, nat)>)>,
    n: nat,
    sentence: Seq<Seq<char>>,
    draws: Seq<u64>,
) -> Seq<Seq<char>>
    decreases MAX_TOKENS - sentence.len(),
{
    if sentence.len() >= MAX_TOKENS {
        sentence
    } else {
        let context = context_at(sentence, n, sentence.len() as int);
        if !has_key(model, context) {
            sentence.push(terminal())
        } else {
            let table = table_of(model, context);
            let word = if table.len() == 1 {
                table[0].0
            } else {
                drawn_word(table, draws[0])
            };
            let rest = if table.len() == 1 {
                draws
            } else {
                draws.drop_first()
            };
            if word == terminal() {
                sentence.push(word)
            } else {
                grown(model, n, sentence.push(word), rest)
            }
        }
    }
}

/// The loop of `generate_words_with` is on course: whatever numbers `rest` are
/// still to come, the seed grows with `drawn` and then `rest` into what
/// `sentence` grows into with `rest`.
spec fn on_course(
    model: Seq<(Seq<char>, Seq<(Seq<char>, nat)>)>,
    n: nat,
    seed: Seq<Seq<char>>,
    drawn: Seq<u64>,
    sentence: Seq<Seq<char>>,
    done: bool,
    rest: Seq<u64>,
) -> bool {
    grown(model, n, seed, drawn + rest) == if done {
        sentence
    } else {
        grown(model, n, sentence, rest)
    }
}

/// A walk from a seed of at most `MAX_TOKENS` words has at most `MAX_TOKENS`
/// words. It ends short of that only with the terminal word, and wherever the
/// terminal word was added, or the model held no table for the words in
/// front, the walk ended.
pub proof fn lemma_walk_stops(
    model: Seq<(Seq<char>, Seq<(Seq<char>, nat)>)>,
    n: nat,
    seed: Seq<Seq<char>>,
    sentence: Seq<Seq<char>>,
)
    requires
        is_walk(model, n, seed, sentence),
        seed.len() <= MAX_TOKENS,
    ensures
        sentence.len() <= MAX_TOKENS,
        seed.len() < MAX_TOKENS && sentence.len() < MAX_TOKENS ==> sentence.last() == terminal(),
        forall|i: int|
            seed.len() <= i < sentence.len() && #[trigger] sentence[i] == terminal() ==> i
                == sentence.len() - 1,
        forall|i: int|
            seed.len() <= i < sentence.len() && !has_key(
                model,
                context_at(#[trigger] sentence.take(i), n, i),
            ) ==> i == sentence.len() - 1,
{
    assert forall|i: int|
        seed.len() <= i < sentence.len() && !has_key(
            model,
            context_at(#[trigger] sentence.take(i), n, i),
        ) implies i == sentence.len() - 1 by {
        assert(follows(model, n, sentence.take(i), sentence[i]));
        assert(sentence[i] == terminal());
    }
}

/// Extends `seed_words` into a sentence, word by word.
///
/// While the sentence has fewer than `MAX_TOKENS` words and the word added
/// last is not the terminal word, its last `n` words are joined into a context;
/// the table of that context gives the next word by a draw from `rng`, and a
/// context without a table gives the terminal word.
pub fn generate_words_with<R: RandomSource>(
    n_gram_model: &NGramModel,
    n: usize,
    seed_words: &Vec<String>,
    rng: &mut R,
) -> (sentence: Vec<String>)
    requires
        n_gram_model.wf(),
        n <= seed_words.len(),
    ensures
        is_walk(n_gram_model@, n as nat, seed_words.deep_view(), sentence.deep_view()),
        old(rng).drawn().len() <= final(rng).drawn().len(),
        final(rng).drawn().take(old(rng).drawn().len() as int) == old(rng).drawn(),
        sentence.deep_view() == grown(
            n_gram_model@,
            n as nat,
            seed_words.deep_view(),
            final(rng).drawn().skip(old(rng).drawn().len() as int),
        ),
{
    let ghost seed = seed_words.deep_view();
    let ghost model = n_gram_model@;
    let ghost earlier = rng.drawn();
    let mut sentence: Vec<String> = Vec::new();
    let mut k: usize = 0;
    while k < seed_words.len()
        invariant
            k <= seed_words.len(),
            seed == seed_words.deep_view(),
            sentence.deep_view() == seed.take(k as int),
        decreases seed_words.len() - k,
    {
        let ghost before = sentence.deep_view();
        sentence.push(seed_words[k].clone());
        proof {
            assert(sentence.deep_view() =~= before.push(seed[k as int]));
            assert(seed.take(k + 1) =~= seed.take(k as int).push(seed[k as int]));
        }
        k = k + 1;
    }
    proof {
        assert(seed.take(seed.len() as int) =~= seed);
        assert(sentence.deep_view().take(seed.len() as int) =~= seed);
        reveal_strlit(".");
        assert("."@ =~= terminal());
        assert(rng.drawn().take(earlier.len() as int) =~= earlier);
        assert forall|rest: Seq<u64>| #[trigger]
            on_course(
                model,
                n as nat,
                seed,
                rng.drawn().skip(earlier.len() as int),
                sentence.deep_view(),
                false,
                rest,
            ) by {
            assert(rng.drawn().skip(earlier.len() as int) + rest =~= rest);
        }
    }
    let terminal_word = String::from_str(".");
    let mut done = false;
    while !done && sentence.len() < MAX_TOKENS
        invariant
            n_gram_model.wf(),
            model == n_gram_model@,
            seed == seed_words.deep_view(),
            n <= seed.len() <= sentence.len(),
            terminal_word@ == terminal(),
            sentence.deep_view().take(seed.len() as int) == seed,
            forall|i: int|
                #![trigger sentence.deep_view().take(i)]
                seed.len() <= i < sentence.len() ==> follows(
                    model,
                    n as nat,
                    sentence.deep_view().take(i),
                    sentence.deep_view()[i],
                ),
            forall|i: int|
                seed.len() <= i < sentence.len() - 1 ==> #[trigger] sentence.deep_view()[i]
                    != terminal(),
            !done ==> forall|i: int|
                seed.len() <= i < sentence.len() ==> #[trigger] sentence.deep_view()[i]
                    != terminal(),
            done ==> seed.len() < sentence.len() && sentence.deep_view().last() == terminal(),
            seed.len() >= MAX_TOKENS ==> sentence.len() == seed.len() && !done,
            seed.len() < MAX_TOKENS ==> sentence.len() <= MAX_TOKENS,
            earlier.len() <= rng.drawn().len(),
            rng.drawn().take(earlier.len() as int) == earlier,
            forall|rest: Seq<u64>| #[trigger]
                on_course(
                    model,
                    n as nat,
                    seed,
                    rng.drawn().skip(earlier.len() as int),
                    sentence.deep_view(),
                    done,
                    rest,
                ),
        decreases MAX_TOKENS - sentence.len() + (if done { 0int } else { 1int }),
    {
        let ghost before = sentence.deep_view();
        let ghost drawn_before = rng.drawn();
        let len = sentence.len();
        let ngram = join_strings(&sentence, len - n, len);
        proof {
            reveal_strlit(".");
            assert("."@ =~= terminal());
            assert(before.len() == len);
            assert(ngram@ == context_at(before, n as nat, before.len() as int));
        }
        let next_word = match n_gram_model.get(ngram.as_str()) {
            Some(table) => table.get_random_word_with(rng),
            None => String::from_str("."),
        };
        done = next_word == terminal_word;
        let ghost next = next_word@;
        sentence.push(next_word);
        proof {
            let after = sentence.deep_view();
            let segment = drawn_before.skip(earlier.len() as int);
            let segment_now = rng.drawn().skip(earlier.len() as int);
            assert(after =~= before.push(next));
            assert(after.take(seed.len() as int) =~= before.take(seed.len() as int));
            assert(after.take(len as int) =~= before);
            assert(follows(model, n as nat, before, next));
            assert forall|i: int|
                #![trigger after.take(i)]
                seed.len() <= i < after.len() implies follows(
                model,
                n as nat,
                after.take(i),
                after[i],
            ) by {
                if i < len {
                    assert(after.take(i) =~= before.take(i));
                    assert(after[i] == before[i]);
                }
            }
            assert forall|i: int| seed.len() <= i < after.len() - 1 implies #[trigger] after[i]
                != terminal() by {
                assert(after[i] == before[i]);
            }
            assert(rng.drawn().take(earlier.len() as int) =~= earlier);
            let table = table_of(model, ngram@);
            let used = has_key(model, ngram@) && table.len() != 1;
            if used {
                assert(segment_now =~= segment.push(rng.drawn().last()));
            } else {
                assert(segment_now =~= segment);
            }
            assert forall|rest: Seq<u64>| #[trigger]
                on_course(model, n as nat, seed, segment_now, after, done, rest) by {
                let incoming = if used {
                    seq![rng.drawn().last()] + rest
                } else {
                    rest
                };
                assert(on_course(model, n as nat, seed, segment, before, false, incoming));
                assert(segment + incoming =~= segment_now + rest);
                if used {
                    assert(incoming[0] == rng.drawn().last());
                    assert(incoming.drop_first() =~= rest);
                }
            }
        }
    }
    proof {
        let segment = rng.drawn().skip(earlier.len() as int);
        assert(on_course(
            model,
            n as nat,
            seed,
            segment,
            sentence.deep_view(),
            done,
            Seq::<u64>::empty(),
        ));
        assert(segment + Seq::<u64>::empty() =~= segment);
    }
    sentence
}

/// Extends `seed_words` into a sentence with draws from `rng` and joins its
/// words with single spaces.
pub fn generate_sentence_with<R: RandomSource>(
    n_gram_model: &NGramModel,
    n: usize,
    seed_words: &Vec<String>,
    rng: &mut R,
) -> (text: String)
    requires
        n_gram_model.wf(),
        n <= seed_words.len(),
    ensures
        old(rng).drawn().len() <= final(rng).drawn().len(),
        final(rng).drawn().take(old(rng).drawn().len() as int) == old(rng).drawn(),
        ({
            let sentence = grown(
                n_gram_model@,
                n as nat,
                seed_words.deep_view(),
                final(rng).drawn().skip(old(rng).drawn().len() as int),
            );
            is_walk(n_gram_model@, n as nat, seed_words.deep_view(), sentence) && text@
                == join_words(sentence)
        }),
{
    let sentence = generate_words_with(n_gram_model, n, seed_words, rng);
    proof {
        assert(sentence.deep_view().subrange(0, sentence.len() as int) =~= sentence.deep_view());
    }
    join_strings(&sentence, 0, sentence.len())
}

/// Extends `seed_words` into a sentence with draws from the thread-local
/// generator and joins its words with single spaces.
pub fn generate_sentence(n_gram_model: &NGramModel, n: usize, seed_words: &Vec<String>) -> (text:
    String)
    requires
        n_gram_model.wf(),
        n <= seed_words.len(),
    ensures
        exists|draws: Seq<u64>|
            is_walk(
                n_gram_model@,
                n as nat,
                seed_words.deep_view(),
                #[trigger] grown(n_gram_model@, n as nat, seed_words.deep_view(), draws),
            ) && text@ == join_words(
                grown(n_gram_model@, n as nat, seed_words.deep_view(), draws),
            ),
{
    let mut rng = ThreadSource::new();
    let text = generate_sentence_with(n_gram_model, n, seed_words, &mut rng);
    proof {
        assert(rng.drawn().skip(0) =~= rng.drawn());
    }
    text
}

} // verus!
