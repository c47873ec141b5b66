//! How generated documents are laid out: sentences of words, the first word
//! of each sentence capitalized, sentences ended by a random mark, lengths
//! kept within bounds and sampled word ranks turned into vocabulary indices.
//! The random draws are made by the caller; this module decides when a draw
//! is needed and what each outcome does.
use vstd::prelude::*;

verus! {

/// The average number of words in a sentence.
pub const AVG_SENTENCE_LENGTH: usize = 15;

/// A document length sampled from a distribution, kept within the
/// configured bounds.
pub fn clamp_length(length: usize, min_length: usize, max_length: usize) -> (r: usize)
    requires
        min_length <= max_length,
    ensures
        r == if length < min_length {
            min_length
        } else if length > max_length {
            max_length
        } else {
            length
        },
{
    if length < min_length {
        min_length
    } else if length > max_length {
        max_length
    } else {
        length
    }
}

/// The vocabulary index of a sampled word rank (ranks count from 1; ranks
/// past the end of the vocabulary pick its last word).
pub fn word_index(rank: usize, vocab_size: usize) -> (r: usize)
    requires
        vocab_size >= 1,
    ensures
        r == if rank == 0 {
            0
        } else if rank - 1 < vocab_size - 1 {
            rank - 1
        } else {
            vocab_size - 1
        },
        r < vocab_size,
{
    let i = if rank == 0 {
        0
    } else {
        rank - 1
    };
    if i < vocab_size - 1 {
        i
    } else {
        vocab_size - 1
    }
}

/// The odds, as numerator and denominator, that a sentence that has
/// reached half the average length ends after the current word: one in
/// half the average sentence length.
pub fn sentence_end_odds() -> (r: (u32, u32))
    ensures
        r == (2u32, AVG_SENTENCE_LENGTH as u32),
{
    (2, 15)
}

/// `c` with an ASCII lowercase letter turned uppercase; any other character
/// unchanged.
pub open spec fn ascii_upper(c: char) -> char {
    if 'a' <= c && c <= 'z' {
        ((c as u32) - 32) as char
    } else {
        c
    }
}

/// `c` with an ASCII lowercase letter turned uppercase.
fn to_ascii_uppercase(c: char) -> (u: char)
    ensures
        u == ascii_upper(c),
{
    if 'a' <= c && c <= 'z' {
        let b: u8 = c as u8;
        assert(b == c as u32);
        (b - 32) as char
    } else {
        c
    }
}

/// A word with its first character made uppercase (ASCII letters only).
pub open spec fn capitalized(word: Seq<char>) -> Seq<char> {
    if word.len() == 0 {
        word
    } else {
        seq![ascii_upper(word[0])] + word.drop_first()
    }
}

/// The mark that ends a sentence for a roll of a ten-sided die: a question
/// mark for 0, an exclamation mark for 1, a full stop otherwise.
pub open spec fn sentence_mark(roll: u32) -> char {
    if roll == 0 {
        '?'
    } else if roll == 1 {
        '!'
    } else {
        '.'
    }
}

/// One of the marks that end a sentence.
pub open spec fn is_sentence_mark(c: char) -> bool {
    c == '.' || c == '!' || c == '?'
}

/// What the caller does after a word is added.
#[derive(Debug, Clone, Copy, PartialEq, Eq, Structural)]
pub enum WordStep {
    /// The sentence goes on without a draw.
    Continue,
    /// Draw with the odds of `sentence_end_odds`; on success end the
    /// sentence.
    MayEnd,
    /// That was the last word: end the sentence.
    MustEnd,
}

/// The number of maximal runs of characters other than a space in `s`.
pub open spec fn word_runs(s: Seq<char>) -> nat
    decreases s.len(),
{
    if s.len() == 0 {
        0
    } else {
        word_runs(s.drop_last()) + if s.last() != ' ' && (s.len() == 1 || s[s.len() - 2] == ' ') {
            1nat
        } else {
            0nat
        }
    }
}

/// A word that lays out as one run: not empty, and without a space.
pub open spec fn plain_word(w: Seq<char>) -> bool {
    w.len() > 0 && !w.contains(' ')
}

/// A document being laid out from a known number of words.
pub struct DocumentFormatter {
    text: Vec<char>,
    sentence_length: usize,
    words_done: usize,
    word_count: usize,
    plain: Ghost<bool>,
}

impl DocumentFormatter {
    /// The text laid out so far.
    pub closed spec fn text(&self) -> Seq<char> {
        self.text@
    }

    /// Words in the current sentence (0 between sentences).
    pub closed spec fn sentence_length(&self) -> nat {
        self.sentence_length as nat
    }

    /// Words added so far.
    pub closed spec fn words_done(&self) -> nat {
        self.words_done as nat
    }

    /// Words the document will have.
    pub closed spec fn word_count(&self) -> nat {
        self.word_count as nat
    }

    /// Every word added so far was a `plain_word`.
    pub closed spec fn all_plain(&self) -> bool {
        self.plain@
    }

    /// Every word is in and the last sentence is ended.
    pub open spec fn finished(&self) -> bool {
        self.words_done() == self.word_count() && self.sentence_length() == 0
    }

    /// The state's invariant: no more words than announced; between
    /// sentences the text ends with a space, or with a sentence mark after
    /// the last word; and while every word is plain, the text holds one run
    /// of non-space characters per word, inside a sentence it does not end
    /// with a space, and it is empty only before the first word.
    pub closed spec fn wf(&self) -> bool {
        &&& self.words_done <= self.word_count
        &&& self.sentence_length <= self.words_done
        &&& (self.sentence_length == 0 && self.words_done > 0) ==> self.text@.len() > 0 && if self.words_done
            == self.word_count {
            is_sentence_mark(self.text@.last())
        } else {
            self.text@.last() == ' '
        }
        &&& self.plain@ ==> {
            &&& word_runs(self.text@) == self.words_done
            &&& (self.text@.len() == 0 <==> self.words_done == 0)
            &&& self.sentence_length > 0 ==> self.text@.last() != ' '
        }
    }

    /// A formatter for a document of `word_count` words.
    pub fn new(word_count: usize) -> (f: Self)
        ensures
            f.wf(),
            f.text() == Seq::<char>::empty(),
            f.sentence_length() == 0,
            f.words_done() == 0,
            f.word_count() == word_count,
            f.all_plain(),
    {
        DocumentFormatter { text: Vec::new(), sentence_length: 0, words_done: 0, word_count, plain: Ghost(true) }
    }

    /// Add the next word: capitalized when it starts a sentence, else after
    /// a space. Says whether the sentence must end, may end (after a draw),
    /// or goes on.
    pub fn push_word(&mut self, word: &Vec<char>) -> (step: WordStep)
        requires
            old(self).wf(),
            old(self).words_done() < old(self).word_count(),
            old(self).text().len() + word@.len() + 1 <= usize::MAX,
        ensures
            final(self).wf(),
            final(self).text() == old(self).text() + if old(self).sentence_length() == 0 {
                capitalized(word@)
            } else {
                seq![' '] + word@
            },
            final(self).sentence_length() == old(self).sentence_length() + 1,
            final(self).words_done() == old(self).words_done() + 1,
            final(self).word_count() == old(self).word_count(),
            final(self).all_plain() == (old(self).all_plain() && plain_word(word@)),
            step == if final(self).words_done() == final(self).word_count() {
                WordStep::MustEnd
            } else if final(self).sentence_length() >= AVG_SENTENCE_LENGTH / 2 {
                WordStep::MayEnd
            } else {
                WordStep::Continue
            },
    {
        let ghost before = self.text@;
        let ghost sl0 = self.sentence_length;
        let ghost wd0 = self.words_done;
        let ghost wc0 = self.word_count;
        let ghost plain0 = self.plain@;
        let ghost now_plain = plain0 && plain_word(word@);
        if self.sentence_length == 0 {
            if word.len() > 0 {
                let first = to_ascii_uppercase(word[0]);
                self.text.push(first);
                proof {
                    if now_plain {
                        assert(word@[0] != ' ') by {
                            assert(word@.contains(word@[0]));
                        }
                        assert(self.text@.drop_last() == before);
                    }
                }
                let mut k: usize = 1;
                while k < word.len()
                    invariant
                        1 <= k <= word.len(),
                        self.text@ == before + seq![ascii_upper(word@[0])] + word@.subrange(1, k as int),
                        self.words_done < self.word_count,
                        self.sentence_length <= self.words_done,
                        self.sentence_length == sl0 && self.words_done == wd0 && self.word_count == wc0,
                        now_plain == (plain0 && plain_word(word@)),
                        now_plain ==> word_runs(self.text@) == wd0 + 1 && self.text@.last() != ' ',
                    decreases word.len() - k,
                {
                    let ghost prev = self.text@;
                    self.text.push(word[k]);
                    proof {
                        if now_plain {
                            assert(word@[k as int] != ' ') by {
                                assert(word@.contains(word@[k as int]));
                            }
                            assert(self.text@.drop_last() == prev);
                        }
                    }
                    k += 1;
                    assert(self.text@ =~= before + seq![ascii_upper(word@[0])] + word@.subrange(1, k as int));
                }
                assert(word@.drop_first() =~= word@.subrange(1, word.len() as int));
            }
            assert(self.text@ =~= before + capitalized(word@));
        } else {
            self.text.push(' ');
            proof {
                if now_plain {
                    assert(self.text@.drop_last() == before);
                }
            }
            let mut k: usize = 0;
            while k < word.len()
                invariant
                    k <= word.len(),
                    self.text@ == before + seq![' '] + word@.subrange(0, k as int),
                    self.words_done < self.word_count,
                    self.sentence_length <= self.words_done,
                    self.sentence_length == sl0 && self.words_done == wd0 && self.word_count == wc0,
                    now_plain == (plain0 && plain_word(word@)),
                    now_plain && k == 0 ==> word_runs(self.text@) == wd0 && self.text@.last() == ' ',
                    now_plain && k > 0 ==> word_runs(self.text@) == wd0 + 1 && self.text@.last() != ' ',
                decreases word.len() - k,
            {
                let ghost prev = self.text@;
                self.text.push(word[k]);
                proof {
                    if now_plain {
                        assert(word@[k as int] != ' ') by {
                            assert(word@.contains(word@[k as int]));
                        }
                        assert(self.text@.drop_last() == prev);
                    }
                }
                k += 1;
                assert(self.text@ =~= before + seq![' '] + word@.subrange(0, k as int));
            }
            assert(word@.subrange(0, word.len() as int) =~= word@);
            assert(self.text@ =~= before + (seq![' '] + word@));
        }
        self.sentence_length = self.sentence_length + 1;
        self.words_done = self.words_done + 1;
        self.plain = Ghost(now_plain);
        if self.words_done == self.word_count {
            WordStep::MustEnd
        } else if self.sentence_length >= AVG_SENTENCE_LENGTH / 2 {
            WordStep::MayEnd
        } else {
            WordStep::Continue
        }
    }

    /// End the current sentence with the mark that the roll (0 to 9)
    /// selects, and a space unless that was the last word.
    pub fn end_sentence(&mut self, roll: u32)
        requires
            old(self).wf(),
            old(self).sentence_length() > 0,
            roll < 10,
            old(self).text().len() + 2 <= usize::MAX,
        ensures
            final(self).wf(),
            final(self).text() == old(self).text() + if old(self).words_done() < old(self).word_count() {
                seq![sentence_mark(roll), ' ']
            } else {
                seq![sentence_mark(roll)]
            },
            final(self).sentence_length() == 0,
            final(self).words_done() == old(self).words_done(),
            final(self).word_count() == old(self).word_count(),
            final(self).all_plain() == old(self).all_plain(),
    {
        let mark = if roll == 0 {
            '?'
        } else if roll == 1 {
            '!'
        } else {
            '.'
        };
        let ghost t0 = self.text@;
        self.text.push(mark);
        let ghost t1 = self.text@;
        assert(t1.drop_last() == t0);
        assert(mark != ' ' && is_sentence_mark(mark));
        assert(self.plain@ ==> word_runs(t1) == word_runs(t0));
        if self.words_done < self.word_count {
            self.text.push(' ');
            assert(self.text@.drop_last() == t1);
            assert(word_runs(self.text@) == word_runs(t1));
        }
        self.sentence_length = 0;
    }

    /// The laid-out text.
    pub fn into_text(self) -> (t: Vec<char>)
        ensures
            t@ == self.text(),
    {
        self.text
    }
}

/// A document laid out from at least one word ends with a sentence mark
/// once every word is in and the last sentence is ended.
pub proof fn lemma_document_ends_with_mark(f: DocumentFormatter)
    requires
        f.wf(),
        f.finished(),
        f.word_count() > 0,
    ensures
        f.text().len() > 0,
        is_sentence_mark(f.text().last()),
{
}

/// A document laid out from plain words (non-empty, without spaces) has
/// one space-separated word per word it was given.
pub proof fn lemma_document_word_count(f: DocumentFormatter)
    requires
        f.wf(),
        f.finished(),
        f.all_plain(),
    ensures
        word_runs(f.text()) == f.word_count(),
{
}

/// Capitalizing turns every ASCII lowercase letter, `a` through `z`, into
/// its uppercase letter (32 code points lower, `A` through `Z`) and leaves
/// every other character as it is; so a word starting a sentence starts
/// with an uppercase letter whenever it starts with an ASCII letter, and
/// keeps its other characters.
pub proof fn lemma_capitalize(c: char, word: Seq<char>)
    ensures
        'a' <= c <= 'z' ==> ascii_upper(c) as u32 + 32 == c as u32 && 'A' <= ascii_upper(c) <= 'Z',
        !('a' <= c <= 'z') ==> ascii_upper(c) == c,
        word.len() > 0 && 'a' <= word[0] <= 'z' ==> 'A' <= capitalized(word)[0] <= 'Z'
            && capitalized(word)[0] as u32 + 32 == word[0] as u32,
        capitalized(word).len() == word.len(),
        forall|i: int| 1 <= i < word.len() ==> #[trigger] capitalized(word)[i] == word[i],
{
}

} // verus!
