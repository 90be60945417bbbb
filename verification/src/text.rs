//! Words and the contexts that runs of words spell.

use vstd::prelude::*;

verus! {

/// The words joined into one text, a single space between neighbours.
pub open spec fn join_words(words: Seq<Seq<char>>) -> Seq<char>
    decreases words.len(),
{
    if words.len() == 0 {
        Seq::empty()
    } else if words.len() == 1 {
        words[0]
    } else {
        join_words(words.drop_last()) + seq![' '] + words.last()
    }
}

/// The context that ends just before position `i`: the `n` words in front of
/// it, joined.
pub open spec fn context_at(words: Seq<Seq<char>>, n: nat, i: int) -> Seq<char> {
    join_words(words.subrange(i - n, i))
}

/// The word that ends a sentence.
pub open spec fn terminal() -> Seq<char> {
    seq!['.']
}

/// Joining one word more: the step by which the joining loops go.
pub proof fn lemma_join_step(words: Seq<Seq<char>>, from: int, i: int)
    requires
        0 <= from <= i < words.len(),
    ensures
        join_words(words.subrange(from, i + 1)) == if i == from {
            words[i]
        } else {
            join_words(words.subrange(from, i)) + seq![' '] + words[i]
        },
{
    let grown = words.subrange(from, i + 1);
    assert(grown.last() == words[i]);
    assert(grown.drop_last() =~= words.subrange(from, i));
    if i == from {
        assert(grown[0] == words[i]);
    }
}

/// The words of `words[from..to]` joined with single spaces.
pub fn join_strs(words: &Vec<&str>, from: usize, to: usize) -> (text: String)
    requires
        from <= to <= words.len(),
    ensures
        text@ == join_words(words.deep_view().subrange(from as int, to as int)),
{
    let mut text = String::new();
    let mut i: usize = from;
    proof {
        assert(words.deep_view().subrange(from as int, from as int) =~= Seq::empty());
    }
    while i < to
        invariant
            from <= i <= to <= words.len(),
            text@ == join_words(words.deep_view().subrange(from as int, i as int)),
        decreases to - i,
    {
        proof {
            lemma_join_step(words.deep_view(), from as int, i as int);
            reveal_strlit(" ");
            assert(" "@ =~= seq![' ']);
        }
        if i > from {
            text.append(" ");
        }
        text.append(words[i]);
        proof {
            assert(words[i as int]@ == words.deep_view()[i as int]);
            if i == from {
                assert(text@ =~= words.deep_view()[i as int]);
            }
        }
        i = i + 1;
    }
    text
}

/// The words of `words[from..to]` joined with single spaces.
pub fn join_strings(words: &Vec<String>, from: usize, to: usize) -> (text: String)
    requires
        from <= to <= words.len(),
    ensures
        text@ == join_words(words.deep_view().subrange(from as int, to as int)),
{
    let mut text = String::new();
    let mut i: usize = from;
    proof {
        assert(words.deep_view().subrange(from as int, from as int) =~= Seq::empty());
    }
    while i < to
        invariant
            from <= i <= to <= words.len(),
            text@ == join_words(words.deep_view().subrange(from as int, i as int)),
        decreases to - i,
    {
        proof {
            lemma_join_step(words.deep_view(), from as int, i as int);
            reveal_strlit(" ");
            assert(" "@ =~= seq![' ']);
        }
        if i > from {
            text.append(" ");
        }
        text.append(words[i].as_str());
        proof {
            assert(words[i as int]@ == words.deep_view()[i as int]);
            if i == from {
                assert(text@ =~= words.deep_view()[i as int]);
            }
        }
        i = i + 1;
    }
    text
}

/// The characters that part words: those with the Unicode property
/// `White_Space`.
pub open spec fn is_whitespace(c: char) -> bool {
    ||| '\u{9}' <= c <= '\u{d}'
    ||| c == ' '
    ||| c == '\u{85}'
    ||| c == '\u{a0}'
    ||| c == '\u{1680}'
    ||| '\u{2000}' <= c <= '\u{200a}'
    ||| c == '\u{2028}'
    ||| c == '\u{2029}'
    ||| c == '\u{202f}'
    ||| c == '\u{205f}'
    ||| c == '\u{3000}'
}

/// The words of a text: its longest runs of characters that are not
/// whitespace, in order.
///
/// Read from the end: a whitespace character adds nothing; another character
/// starts a word where the text in front is empty or ends in whitespace, and
/// else lengthens the last word.
pub open spec fn split_words(text: Seq<char>) -> Seq<Seq<char>>
    decreases text.len(),
{
    if text.len() == 0 {
        Seq::empty()
    } else {
        let front = text.drop_last();
        let words = split_words(front);
        let c = text.last();
        if is_whitespace(c) {
            words
        } else if front.len() == 0 || is_whitespace(front.last()) {
            words.push(seq![c])
        } else {
            words.drop_last().push(words.last().push(c))
        }
    }
}

/// Whether `c` parts words.
pub fn char_is_whitespace(c: char) -> (b: bool)
    ensures
        b == is_whitespace(c),
{
    ('\u{9}' <= c && c <= '\u{d}') || c == ' ' || c == '\u{85}' || c == '\u{a0}' || c
        == '\u{1680}' || ('\u{2000}' <= c && c <= '\u{200a}') || c == '\u{2028}' || c
        == '\u{2029}' || c == '\u{202f}' || c == '\u{205f}' || c == '\u{3000}'
}

/// The words of `text`, parted by whitespace.
///
/// Made for phrases: every character is reached from the start of the text,
/// so the time taken grows with the square of the length.
pub fn split_whitespace(text: &str) -> (words: Vec<String>)
    ensures
        words.deep_view() == split_words(text@),
{
    let mut words: Vec<String> = Vec::new();
    let len = text.unicode_len();
    let mut start: usize = 0;
    let mut in_word = false;
    let mut i: usize = 0;
    while i < len
        invariant
            len == text@.len(),
            i <= len,
            in_word ==> start < i && !is_whitespace(text@[i - 1]),
            !in_word ==> i == 0 || is_whitespace(text@[i - 1]),
            split_words(text@.take(i as int)) == if in_word {
                words.deep_view().push(text@.subrange(start as int, i as int))
            } else {
                words.deep_view()
            },
        decreases len - i,
    {
        let c = text.get_char(i);
        let ghost before = words.deep_view();
        proof {
            let grown = text@.take(i + 1);
            assert(grown.drop_last() =~= text@.take(i as int));
            assert(grown.last() == c);
            if i > 0 {
                assert(text@.take(i as int).last() == text@[i - 1]);
            }
        }
        if char_is_whitespace(c) {
            if in_word {
                let word = String::from_str(text.substring_char(start, i));
                words.push(word);
                proof {
                    assert(words.deep_view() =~= before.push(
                        text@.subrange(start as int, i as int),
                    ));
                }
                in_word = false;
            }
        } else {
            if !in_word {
                start = i;
                in_word = true;
                proof {
                    assert(text@.subrange(i as int, i + 1) =~= seq![c]);
                }
            } else {
                proof {
                    let run = text@.subrange(start as int, i as int);
                    assert(before.push(run).drop_last() =~= before);
                    assert(run.push(c) =~= text@.subrange(start as int, i + 1));
                }
            }
        }
        i = i + 1;
    }
    proof {
        assert(text@.take(len as int) =~= text@);
    }
    if in_word {
        let ghost before = words.deep_view();
        let word = String::from_str(text.substring_char(start, len));
        words.push(word);
        proof {
            assert(words.deep_view() =~= before.push(text@.subrange(start as int, len as int)));
        }
    }
    words
}

} // verus!
