use crate::clue::{
    clue_code, clue_of, get_clue_by_word, lemma_correct_marks, lemma_decode_encode, Clue, CluePart,
};
use crate::sets::{
    intersect, lemma_filter_sorted, lemma_sorted_canonical, lemma_sorted_len_bound,
    lemma_sorted_no_duplicates, lemma_sorted_subset_len, lemma_subset_same_len_equal, set_contains,
    sorted,
};
use crate::words::{get_word_bytes, Dictionary};
use vstd::prelude::*;

verus! {

/// Failure of a solver call: the observed clues contradict the dictionary,
/// leaving no candidate answer at all.
#[derive(Clone, Copy, Debug, PartialEq, Eq, Structural)]
pub enum SolverError {
    ContradictoryClue,
}

/// Greedy one-step-lookahead solver for the guessing game. It owns a
/// precomputed table mapping every (guess, clue code) pair to the bucket of
/// still-possible answers that would yield that clue, destructively pruned
/// on every turn.
#[derive(Clone)]
pub struct WordleSolver {
    /// Table row per guess word, 243 buckets per row: bucket `c` of row `g`
    /// holds exactly the current candidates whose clue against guess `g`
    /// encodes to `c`. Buckets are strictly increasing index lists.
    pub game_state: Vec<Vec<Vec<u16>>>,
    /// Answer-pool members still consistent with every clue seen so far,
    /// as a strictly increasing index list.
    pub possible_answers: Vec<u16>,
    /// Guesses to play first, consumed in the order supplied.
    pub forced_guesses: Vec<usize>,
    /// When set, scored guesses are drawn from the current candidates only.
    pub hard_mode: bool,
    /// The dictionary the table was built against, kept for specification.
    pub dict_words: Ghost<Seq<[u8; 5]>>,
}

impl WordleSolver {
    /// Number of words in the dictionary this solver was built against.
    pub open spec fn word_count(self) -> int {
        self.dict_words@.len() as int
    }

    /// The bucket of row `w` for clue code `c`.
    pub open spec fn bucket(self, w: int, c: int) -> Seq<u16> {
        self.game_state@[w]@[c]@
    }

    /// Code of the clue that answer `a` would give to guess `g`.
    pub open spec fn code_of(self, g: int, a: int) -> int {
        clue_code(clue_of(self.dict_words@[g]@, self.dict_words@[a]@))
    }

    /// Structural well-formedness plus the table's defining property: every
    /// bucket holds exactly the current candidates giving its clue code.
    pub open spec fn wf(self) -> bool {
        &&& self.word_count() <= 0x10000
        &&& self.game_state@.len() == self.word_count()
        &&& forall|w: int|
            0 <= w < self.word_count() ==> (#[trigger] self.game_state@[w])@.len() == 243
        &&& forall|w: int, c: int|
            0 <= w < self.word_count() && 0 <= c < 243 ==> sorted(#[trigger] self.bucket(w, c))
        &&& sorted(self.possible_answers@)
        &&& forall|x: u16|
            self.possible_answers@.contains(x) ==> (x as int) < self.word_count()
        &&& forall|w: int, c: int, x: u16|
            0 <= w < self.word_count() && 0 <= c < 243 ==> (#[trigger] self.bucket(w, c).contains(
                x,
            ) <==> (self.possible_answers@.contains(x) && self.code_of(w, x as int) == c))
        &&& forall|g: int|
            0 <= g < self.forced_guesses@.len() ==> #[trigger] self.forced_guesses@[g]
                < self.word_count()
    }

    /// Sum of the first `c` bucket lengths of row `w`.
    pub open spec fn row_sum(self, w: int, c: int) -> int
        decreases c,
    {
        if c <= 0 {
            0
        } else {
            self.row_sum(w, c - 1) + self.bucket(w, c - 1).len()
        }
    }

    /// Sum of the squares of the first `c` bucket lengths of row `w`.
    pub open spec fn row_sq(self, w: int, c: int) -> int
        decreases c,
    {
        if c <= 0 {
            0
        } else {
            self.row_sq(w, c - 1) + self.bucket(w, c - 1).len() * self.bucket(w, c - 1).len()
        }
    }

    /// Ranking key of guess `w`, lower is better. With n candidates, S the
    /// row's bucket-length sum and Q the sum of squared bucket lengths, the
    /// expected remaining candidates after guessing `w` is n - S + Q/n;
    /// multiplying by n and doubling keeps the comparison in integers, and
    /// the final bit prefers a guess that could itself be the answer,
    /// playing the role of the documented epsilon tie-break.
    pub open spec fn score_key(self, w: int) -> int {
        let n = self.possible_answers@.len() as int;
        2 * (n * n - self.row_sum(w, 243) * n + self.row_sq(w, 243)) + (
        if self.possible_answers@.contains(w as u16) {
            0int
        } else {
            1int
        })
    }

    /// The words scored when picking a guess: every dictionary word, or in
    /// hard mode only the current candidates.
    pub open spec fn search_space(self) -> Seq<usize> {
        if self.hard_mode {
            self.possible_answers@.map_values(|x: u16| x as usize)
        } else {
            Seq::new(self.word_count() as nat, |i: int| i as usize)
        }
    }

    /// Position of the best guess among the first `i` entries of `space`,
    /// scanning left to right and replacing the held best on a tie, so the
    /// last of several equally scored words wins.
    pub open spec fn best_upto(self, space: Seq<usize>, i: int) -> int
        decreases i,
    {
        if i <= 1 {
            0
        } else {
            let prev = self.best_upto(space, i - 1);
            if self.score_key(space[i - 1] as int) <= self.score_key(space[prev] as int) {
                i - 1
            } else {
                prev
            }
        }
    }

    /// The guess a scoring scan returns: the minimal-key word, ties going
    /// to the last one scanned.
    pub open spec fn chosen_of(self, space: Seq<usize>) -> usize {
        space[self.best_upto(space, space.len() as int)]
    }

    /// The full decision of `get_guess` as a function of the state: the
    /// lone candidate when only one remains, else the next forced guess,
    /// else the best-scoring word of the search space; an error when no
    /// candidate is left.
    pub open spec fn next_guess_spec(self) -> Result<usize, SolverError> {
        if self.possible_answers@.len() == 0 {
            Err(SolverError::ContradictoryClue)
        } else if self.possible_answers@.len() == 1 {
            Ok(self.possible_answers@[0] as usize)
        } else if self.forced_guesses@.len() > 0 {
            Ok(self.forced_guesses@[0])
        } else {
            Ok(self.chosen_of(self.search_space()))
        }
    }
}

/// Code of the clue that the word at `a` would give to the word at `g`.
pub open spec fn code_of_words(dict: Seq<[u8; 5]>, g: int, a: int) -> int {
    clue_code(clue_of(dict[g]@, dict[a]@))
}

/// The clue the word at `target_index` gives to the word at `guess_index`.
pub fn get_clue(dict: &Dictionary, guess_index: usize, target_index: usize) -> (r: Clue)
    requires
        guess_index < dict@.len(),
        target_index < dict@.len(),
    ensures
        r@ == clue_of(dict@[guess_index as int]@, dict@[target_index as int]@),
{
    get_clue_by_word(get_word_bytes(dict, guess_index), get_word_bytes(dict, target_index))
}

/// Every bucket element of a row under construction came from the first
/// `k` pool entries and sits in the bucket of its own clue code.
spec fn row_sound(dict: Seq<[u8; 5]>, pool: Seq<u16>, k: int, g: int, row: Seq<Vec<u16>>) -> bool {
    forall|c: int, i: int|
        0 <= c < 243 && 0 <= i < row[c]@.len() ==> exists|j: int|
            0 <= j < k && pool[j] == #[trigger] row[c]@[i] && code_of_words(
                dict,
                g,
                pool[j] as int,
            ) == c
}

/// Each of the first `k` pool entries already sits in the bucket of its
/// clue code.
spec fn row_complete(dict: Seq<[u8; 5]>, pool: Seq<u16>, k: int, g: int, row: Seq<Vec<u16>>) -> bool {
    forall|j: int|
        0 <= j < k ==> {
            let c = code_of_words(dict, g, #[trigger] pool[j] as int);
            0 <= c < 243 && row[c]@.contains(pool[j])
        }
}

impl WordleSolver {
    /// Builds a solver: one table row per dictionary word, each row
    /// bucketing the whole answer pool by clue code; the candidate set
    /// starts as the whole pool and the forced guesses are stored to be
    /// played first, in the order supplied.
    pub fn create_with_guesses(
        hard_mode: bool,
        dict: &Dictionary,
        pool: Vec<u16>,
        guesses: Vec<usize>,
    ) -> (r: WordleSolver)
        requires
            dict.wf(),
            sorted(pool@),
            forall|x: u16| pool@.contains(x) ==> (x as int) < dict@.len(),
            forall|g: int| 0 <= g < guesses@.len() ==> #[trigger] guesses@[g] < dict@.len(),
        ensures
            r.wf(),
            r.dict_words@ == dict@,
            r.possible_answers@ == pool@,
            r.forced_guesses@ == guesses@,
            r.hard_mode == hard_mode,
    {
        let word_count = dict.word_count();
        let mut game_state: Vec<Vec<Vec<u16>>> = Vec::new();
        let mut guess_ix: usize = 0;
        while guess_ix < word_count
            invariant
                0 <= guess_ix <= word_count,
                word_count == dict@.len(),
                dict.wf(),
                sorted(pool@),
                forall|x: u16| pool@.contains(x) ==> (x as int) < dict@.len(),
                game_state@.len() == guess_ix,
                forall|w: int|
                    0 <= w < guess_ix ==> (#[trigger] game_state@[w])@.len() == 243,
                forall|w: int, c: int|
                    0 <= w < guess_ix && 0 <= c < 243 ==> sorted(
                        (#[trigger] game_state@[w]@[c])@,
                    ),
                forall|w: int, c: int, x: u16|
                    0 <= w < guess_ix && 0 <= c < 243 ==> (#[trigger] game_state@[w]@[c]@.contains(
                        x,
                    ) <==> (pool@.contains(x) && code_of_words(dict@, w, x as int) == c)),
            decreases word_count - guess_ix,
        {
            let mut row: Vec<Vec<u16>> = Vec::new();
            let mut c: usize = 0;
            while c < 243
                invariant
                    0 <= c <= 243,
                    row@.len() == c,
                    forall|d: int| 0 <= d < c ==> (#[trigger] row@[d])@.len() == 0,
                decreases 243 - c,
            {
                row.push(Vec::new());
                c += 1;
            }
            let guess_bytes = get_word_bytes(dict, guess_ix);
            let mut k: usize = 0;
            while k < pool.len()
                invariant
                    0 <= k <= pool@.len(),
                    word_count == dict@.len(),
                    dict.wf(),
                    sorted(pool@),
                    forall|x: u16| pool@.contains(x) ==> (x as int) < dict@.len(),
                    guess_ix < word_count,
                    guess_bytes == dict@[guess_ix as int],
                    row@.len() == 243,
                    forall|d: int| 0 <= d < 243 ==> sorted((#[trigger] row@[d])@),
                    row_sound(dict@, pool@, k as int, guess_ix as int, row@),
                    row_complete(dict@, pool@, k as int, guess_ix as int, row@),
                decreases pool@.len() - k,
            {
                let a = pool[k];
                proof {
                    assert(pool@.contains(pool@[k as int]));
                }
                let target_bytes = get_word_bytes(dict, a as usize);
                let clue = get_clue_by_word(guess_bytes, target_bytes);
                let cd = clue.index();
                let ghost row0 = row@;
                proof {
                    assert(code_of_words(dict@, guess_ix as int, a as int) == cd as int);
                    assert forall|i: int| 0 <= i < row0[cd as int]@.len() implies row0[cd as int]@[i]
                        < a by {
                        let j = choose|j: int|
                            0 <= j < k && pool@[j] == row0[cd as int]@[i] && code_of_words(
                                dict@,
                                guess_ix as int,
                                pool@[j] as int,
                            ) == cd as int;
                        assert(pool@[j] < pool@[k as int]);
                    }
                }
                row[cd].push(a);
                proof {
                    assert(row@[cd as int]@ == row0[cd as int]@.push(a));
                    assert forall|d: int| 0 <= d < 243 implies sorted((#[trigger] row@[d])@) by {
                        if d != cd as int {
                            assert(row@[d] == row0[d]);
                        }
                    }
                    assert(row_sound(dict@, pool@, k + 1, guess_ix as int, row@)) by {
                        assert forall|c2: int, i: int|
                            0 <= c2 < 243 && 0 <= i < row@[c2]@.len() implies exists|j: int|
                            0 <= j < k + 1 && pool@[j] == #[trigger] row@[c2]@[i] && code_of_words(
                                dict@,
                                guess_ix as int,
                                pool@[j] as int,
                            ) == c2 by {
                            if c2 == cd as int && i == row@[c2]@.len() - 1 {
                                assert(row@[c2]@[i] == a);
                                assert(0 <= k < k + 1 && pool@[k as int] == row@[c2]@[i]
                                    && code_of_words(dict@, guess_ix as int, pool@[k as int] as int)
                                    == c2);
                            } else {
                                assert(row@[c2]@[i] == row0[c2]@[i]);
                                let j = choose|j: int|
                                    0 <= j < k && pool@[j] == row0[c2]@[i] && code_of_words(
                                        dict@,
                                        guess_ix as int,
                                        pool@[j] as int,
                                    ) == c2;
                                assert(0 <= j < k + 1 && pool@[j] == row@[c2]@[i] && code_of_words(
                                    dict@,
                                    guess_ix as int,
                                    pool@[j] as int,
                                ) == c2);
                            }
                        }
                    }
                    assert(row_complete(dict@, pool@, k + 1, guess_ix as int, row@)) by {
                        assert forall|j: int| 0 <= j < k + 1 implies 0 <= code_of_words(
                            dict@,
                            guess_ix as int,
                            #[trigger] pool@[j] as int,
                        ) < 243 && row@[code_of_words(dict@, guess_ix as int, pool@[j] as int)]@.contains(
                            pool@[j],
                        ) by {
                            let c2 = code_of_words(dict@, guess_ix as int, pool@[j] as int);
                            if j == k as int {
                                assert(row@[cd as int]@[row@[cd as int]@.len() - 1] == a);
                                assert(row@[c2]@.contains(pool@[j]));
                            } else {
                                assert(0 <= c2 < 243 && row0[c2]@.contains(pool@[j]));
                                let i = choose|i: int|
                                    0 <= i < row0[c2]@.len() && row0[c2]@[i] == pool@[j];
                                if c2 == cd as int {
                                    assert(row@[c2]@[i] == pool@[j]);
                                } else {
                                    assert(row@[c2] == row0[c2]);
                                }
                                assert(row@[c2]@.contains(pool@[j]));
                            }
                        }
                    }
                }
                k += 1;
            }
            game_state.push(row);
            proof {
                let w = guess_ix as int;
                assert forall|c2: int, x: u16| 0 <= c2 < 243 implies (#[trigger] game_state@[w]@[c2]@.contains(
                    x,
                ) <==> (pool@.contains(x) && code_of_words(dict@, w, x as int) == c2)) by {
                    let rw = game_state@[w]@;
                    if rw[c2]@.contains(x) {
                        let i = choose|i: int| 0 <= i < rw[c2]@.len() && rw[c2]@[i] == x;
                        let j = choose|j: int|
                            0 <= j < pool@.len() && pool@[j] == rw[c2]@[i] && code_of_words(
                                dict@,
                                w,
                                pool@[j] as int,
                            ) == c2;
                        assert(pool@.contains(pool@[j]));
                    }
                    if pool@.contains(x) && code_of_words(dict@, w, x as int) == c2 {
                        let j = choose|j: int| 0 <= j < pool@.len() && pool@[j] == x;
                        assert(rw[code_of_words(dict@, w, pool@[j] as int)]@.contains(pool@[j]));
                    }
                }
            }
            guess_ix += 1;
        }
        let r = WordleSolver {
            game_state,
            possible_answers: pool,
            forced_guesses: guesses,
            hard_mode,
            dict_words: Ghost(dict@),
        };
        r
    }

    /// Records the clue observed for a guess: the candidate set becomes
    /// the guess's bucket for that clue — exactly the old candidates
    /// consistent with the observation — and every bucket of the table is
    /// intersected with it, so the whole table again reflects all history.
    /// The candidate set never grows: it is a subset of the old one.
    pub fn update(&mut self, word_ix: usize, result: Clue)
        requires
            old(self).wf(),
            word_ix < old(self).word_count(),
        ensures
            final(self).wf(),
            final(self).dict_words == old(self).dict_words,
            final(self).hard_mode == old(self).hard_mode,
            final(self).forced_guesses == old(self).forced_guesses,
            final(self).possible_answers@ == old(self).bucket(word_ix as int, clue_code(result@)),
            forall|x: u16|
                final(self).possible_answers@.contains(x) <==> (old(self).possible_answers@.contains(x)
                    && old(self).code_of(word_ix as int, x as int) == clue_code(result@)),
            forall|x: u16|
                final(self).possible_answers@.contains(x) ==> old(self).possible_answers@.contains(x),
            final(self).possible_answers@.len() <= old(self).possible_answers@.len(),
    {
        let cd = result.index();
        let new_pa = self.game_state[word_ix][cd].clone();
        proof {
            assert(new_pa@ == old(self).bucket(word_ix as int, cd as int));
            lemma_sorted_subset_len(new_pa@, self.possible_answers@);
        }
        self.possible_answers = new_pa;
        let ghost pruned = self.possible_answers@;
        let word_count = self.game_state.len();
        let mut wx: usize = 0;
        while wx < word_count
            invariant
                0 <= wx <= word_count,
                word_count == old(self).word_count(),
                self.dict_words == old(self).dict_words,
                self.hard_mode == old(self).hard_mode,
                self.forced_guesses == old(self).forced_guesses,
                self.possible_answers@ == pruned,
                pruned == old(self).bucket(word_ix as int, clue_code(result@)),
                old(self).wf(),
                word_ix < old(self).word_count(),
                clue_code(result@) == cd as int,
                0 <= cd < 243,
                self.game_state@.len() == word_count,
                forall|w: int|
                    0 <= w < word_count ==> (#[trigger] self.game_state@[w])@.len() == 243,
                forall|w: int, c: int|
                    wx <= w < word_count && 0 <= c < 243 ==> #[trigger] self.bucket(w, c) == old(
                        self,
                    ).bucket(w, c),
                forall|w: int, c: int|
                    0 <= w < wx && 0 <= c < 243 ==> sorted(#[trigger] self.bucket(w, c)),
                forall|w: int, c: int, x: u16|
                    0 <= w < wx && 0 <= c < 243 ==> (#[trigger] self.bucket(w, c).contains(x) <==> (
                    old(self).bucket(w, c).contains(x) && pruned.contains(x))),
            decreases word_count - wx,
        {
            let mut new_row: Vec<Vec<u16>> = Vec::new();
            let mut ox: usize = 0;
            while ox < 243
                invariant
                    0 <= ox <= 243,
                    0 <= wx < word_count,
                    self.game_state@.len() == word_count,
                    (#[trigger] self.game_state@[wx as int])@.len() == 243,
                    self.possible_answers@ == pruned,
                    new_row@.len() == ox,
                    forall|c: int|
                        0 <= c < 243 ==> #[trigger] self.bucket(wx as int, c) == old(self).bucket(
                            wx as int,
                            c,
                        ),
                    forall|c: int| 0 <= c < 243 ==> sorted(#[trigger] old(self).bucket(wx as int, c)),
                    forall|c: int|
                        0 <= c < ox ==> sorted((#[trigger] new_row@[c])@),
                    forall|c: int, x: u16|
                        0 <= c < ox ==> (#[trigger] new_row@[c]@.contains(x) <==> (old(self).bucket(
                            wx as int,
                            c,
                        ).contains(x) && pruned.contains(x))),
                decreases 243 - ox,
            {
                let nb = intersect(&self.game_state[wx][ox], &self.possible_answers);
                proof {
                    assert(self.bucket(wx as int, ox as int) == old(self).bucket(
                        wx as int,
                        ox as int,
                    ));
                    assert(sorted(self.game_state@[wx as int]@[ox as int]@));
                }
                let ghost nr0 = new_row@;
                new_row.push(nb);
                proof {
                    assert(new_row@ == nr0.push(nb));
                    assert(new_row@[ox as int] == nb);
                    assert forall|c: int| 0 <= c < ox + 1 implies sorted(
                        (#[trigger] new_row@[c])@,
                    ) by {
                        if c < ox {
                            assert(new_row@[c] == nr0[c]);
                        }
                    }
                    assert forall|c: int, x: u16| 0 <= c < ox + 1 implies (
                    #[trigger] new_row@[c]@.contains(x) <==> (old(self).bucket(wx as int, c).contains(
                        x,
                    ) && pruned.contains(x))) by {
                        if c < ox {
                            assert(new_row@[c] == nr0[c]);
                        }
                    }
                }
                ox += 1;
            }
            let ghost s0 = *self;
            self.game_state[wx] = new_row;
            proof {
                assert(self.game_state@ == s0.game_state@.update(wx as int, new_row));
                assert forall|w: int, c: int|
                    wx + 1 <= w < word_count && 0 <= c < 243 implies #[trigger] self.bucket(w, c)
                    == old(self).bucket(w, c) by {
                    assert(self.game_state@[w] == s0.game_state@[w]);
                    assert(self.bucket(w, c) == s0.bucket(w, c));
                    assert(s0.bucket(w, c) == old(self).bucket(w, c));
                }
                assert forall|w: int, c: int|
                    0 <= w < wx + 1 && 0 <= c < 243 implies sorted(#[trigger] self.bucket(w, c)) by {
                    if w < wx {
                        assert(self.game_state@[w] == s0.game_state@[w]);
                        assert(self.bucket(w, c) == s0.bucket(w, c));
                        assert(sorted(s0.bucket(w, c)));
                    } else {
                        assert(self.game_state@[w] == new_row);
                        assert(self.bucket(w, c) == new_row@[c]@);
                    }
                }
                assert forall|w: int, c: int, x: u16|
                    0 <= w < wx + 1 && 0 <= c < 243 implies (#[trigger] self.bucket(w, c).contains(
                    x,
                ) <==> (old(self).bucket(w, c).contains(x) && pruned.contains(x))) by {
                    if w < wx {
                        assert(self.game_state@[w] == s0.game_state@[w]);
                        assert(self.bucket(w, c) == s0.bucket(w, c));
                        assert(s0.bucket(w, c).contains(x) <==> (old(self).bucket(w, c).contains(x)
                            && pruned.contains(x)));
                    } else {
                        assert(self.game_state@[w] == new_row);
                        assert(self.bucket(w, c) == new_row@[c]@);
                    }
                }
            }
            wx += 1;
        }
        proof {
            assert forall|x: u16| self.possible_answers@.contains(x) implies (old(
                self,
            ).possible_answers@.contains(x) && old(self).code_of(word_ix as int, x as int)
                == clue_code(result@)) by {}
            assert(self.wf()) by {
                assert forall|w: int, c: int, x: u16|
                    0 <= w < self.word_count() && 0 <= c < 243 implies (#[trigger] self.bucket(
                    w,
                    c,
                ).contains(x) <==> (self.possible_answers@.contains(x) && self.code_of(
                    w,
                    x as int,
                ) == c)) by {
                    assert(self.bucket(w, c).contains(x) <==> (old(self).bucket(w, c).contains(x)
                        && pruned.contains(x)));
                }
            }
        }
    }

    /// Ranking key of one word, computed exactly in integers: see
    /// `score_key` for its reading as expected remaining candidates.
    fn get_score(&self, word: usize) -> (score: i64)
        requires
            self.wf(),
            word < self.word_count(),
        ensures
            score == self.score_key(word as int),
    {
        proof {
            lemma_sorted_len_bound(self.possible_answers@);
        }
        let n = self.possible_answers.len();
        let mut s: u64 = 0;
        let mut q: u64 = 0;
        let mut c: usize = 0;
        while c < 243
            invariant
                0 <= c <= 243,
                self.wf(),
                word < self.word_count(),
                s == self.row_sum(word as int, c as int),
                q == self.row_sq(word as int, c as int),
                s <= c * 0x10000,
                q <= c * 0x100000000,
            decreases 243 - c,
        {
            let bl = self.game_state[word][c].len();
            proof {
                lemma_sorted_len_bound(self.bucket(word as int, c as int));
                assert((bl as u64) * (bl as u64) <= 0x100000000) by (nonlinear_arith)
                    requires
                        bl <= 0x10000,
                ;
            }
            s = s + (bl as u64);
            q = q + (bl as u64) * (bl as u64);
            c += 1;
        }
        let n64 = n as i64;
        let s64 = s as i64;
        let q64 = q as i64;
        proof {
            assert(n64 * n64 <= 0x100000000) by (nonlinear_arith)
                requires
                    0 <= n64 <= 0x10000,
            ;
            assert(0 <= s64 * n64 <= 0x10000000000) by (nonlinear_arith)
                requires
                    0 <= s64 <= 0x1000000,
                    0 <= n64 <= 0x10000,
            ;
        }
        let key = 2 * ((n64 * n64) - (s64 * n64) + q64);
        if set_contains(&self.possible_answers, word as u16) {
            key
        } else {
            key + 1
        }
    }

    /// Scans `space` left to right and returns the word with the lowest
    /// ranking key, a tie going to the last word scanned, as documented.
    fn pick_best(&self, space: &Vec<usize>) -> (r: usize)
        requires
            self.wf(),
            space@.len() >= 1,
            forall|i: int| 0 <= i < space@.len() ==> #[trigger] space@[i] < self.word_count(),
        ensures
            r == self.chosen_of(space@),
            space@.contains(r),
    {
        let mut bp: usize = 0;
        let mut bs: i64 = self.get_score(space[0]);
        let mut i: usize = 1;
        while i < space.len()
            invariant
                1 <= i <= space@.len(),
                self.wf(),
                forall|k: int| 0 <= k < space@.len() ==> #[trigger] space@[k] < self.word_count(),
                0 <= bp < i,
                bp == self.best_upto(space@, i as int),
                bs == self.score_key(space@[bp as int] as int),
            decreases space@.len() - i,
        {
            let sc = self.get_score(space[i]);
            if sc <= bs {
                bp = i;
                bs = sc;
            }
            i += 1;
        }
        proof {
            assert(space@.contains(space@[bp as int]));
        }
        space[bp]
    }

    /// The next guess: the lone remaining candidate when only one is left;
    /// else the oldest forced guess, consumed from the queue; else the
    /// best-scoring word of the search space (the whole dictionary, or the
    /// candidates alone in hard mode). Fails — reporting a contradiction —
    /// exactly when no candidate is left.
    pub fn get_guess(&mut self) -> (r: Result<usize, SolverError>)
        requires
            old(self).wf(),
        ensures
            final(self).wf(),
            r == old(self).next_guess_spec(),
            final(self).game_state == old(self).game_state,
            final(self).possible_answers == old(self).possible_answers,
            final(self).hard_mode == old(self).hard_mode,
            final(self).dict_words == old(self).dict_words,
            if old(self).possible_answers@.len() > 1 && old(self).forced_guesses@.len() > 0 {
                final(self).forced_guesses@ == old(self).forced_guesses@.drop_first()
            } else {
                final(self).forced_guesses == old(self).forced_guesses
            },
            match r {
                Ok(g) => g < old(self).word_count(),
                Err(_) => old(self).possible_answers@.len() == 0,
            },
            old(self).hard_mode && old(self).possible_answers@.len() >= 1 && old(
                self,
            ).forced_guesses@.len() == 0 ==> old(self).possible_answers@.contains(
                r.unwrap() as u16,
            ),
    {
        if self.possible_answers.len() == 0 {
            return Err(SolverError::ContradictoryClue);
        }
        if self.possible_answers.len() == 1 {
            let g = self.possible_answers[0] as usize;
            proof {
                assert(self.possible_answers@.contains(self.possible_answers@[0]));
            }
            return Ok(g);
        }
        if self.forced_guesses.len() > 0 {
            proof {
                assert(self.forced_guesses@[0] < self.word_count());
            }
            let g = self.forced_guesses.remove(0);
            proof {
                assert(self.forced_guesses@ =~= old(self).forced_guesses@.drop_first());
                assert forall|g2: int|
                    0 <= g2 < self.forced_guesses@.len() implies #[trigger] self.forced_guesses@[g2]
                    < self.word_count() by {
                    assert(self.forced_guesses@[g2] == old(self).forced_guesses@[g2 + 1]);
                }
                assert(self.wf()) by {
                    assert forall|w: int, c: int|
                        0 <= w < self.word_count() && 0 <= c < 243 implies sorted(
                        #[trigger] self.bucket(w, c),
                    ) by {
                        assert(self.bucket(w, c) == old(self).bucket(w, c));
                        assert(sorted(old(self).bucket(w, c)));
                    }
                    assert forall|w: int, c: int, x: u16|
                        0 <= w < self.word_count() && 0 <= c < 243 implies (
                    #[trigger] self.bucket(w, c).contains(x) <==> (self.possible_answers@.contains(
                        x,
                    ) && self.code_of(w, x as int) == c)) by {
                        assert(self.bucket(w, c) == old(self).bucket(w, c));
                        assert(old(self).bucket(w, c).contains(x) <==> (old(
                            self,
                        ).possible_answers@.contains(x) && old(self).code_of(w, x as int) == c));
                    }
                }
            }
            return Ok(g);
        }
        let mut space: Vec<usize> = Vec::new();
        if self.hard_mode {
            let mut k: usize = 0;
            while k < self.possible_answers.len()
                invariant
                    *self == *old(self),
                    old(self).wf(),
                    0 <= k <= self.possible_answers@.len(),
                    space@.len() == k,
                    forall|i: int|
                        0 <= i < k ==> #[trigger] space@[i] == self.possible_answers@[i] as usize,
                decreases self.possible_answers@.len() - k,
            {
                let x = self.possible_answers[k];
                proof {
                    assert(self.possible_answers@.contains(self.possible_answers@[k as int]));
                }
                space.push(x as usize);
                k += 1;
            }
            proof {
                assert(space@ =~= old(self).search_space());
                assert forall|i: int|
                    0 <= i < space@.len() implies #[trigger] space@[i] < self.word_count() by {
                    assert(self.possible_answers@.contains(self.possible_answers@[i]));
                }
            }
            let g = self.pick_best(&space);
            proof {
                let sp = old(self).search_space();
                let i = choose|i: int| 0 <= i < sp.len() && sp[i] == g;
                assert(old(self).possible_answers@[i] == g as u16);
                assert(old(self).possible_answers@.contains(old(self).possible_answers@[i]));
            }
            Ok(g)
        } else {
            let wc = self.game_state.len();
            let mut k: usize = 0;
            while k < wc
                invariant
                    *self == *old(self),
                    old(self).wf(),
                    wc == self.word_count(),
                    0 <= k <= wc,
                    space@.len() == k,
                    forall|i: int| 0 <= i < k ==> #[trigger] space@[i] == i,
                decreases wc - k,
            {
                space.push(k);
                k += 1;
            }
            proof {
                assert(space@ =~= old(self).search_space());
                assert(self.possible_answers@.contains(self.possible_answers@[0]));
                assert(space@.len() >= 1);
            }
            let g = self.pick_best(&space);
            Ok(g)
        }
    }

    /// Builds a solver with no forced guesses.
    pub fn create(hard_mode: bool, dict: &Dictionary, pool: Vec<u16>) -> (r: WordleSolver)
        requires
            dict.wf(),
            sorted(pool@),
            forall|x: u16| pool@.contains(x) ==> (x as int) < dict@.len(),
        ensures
            r.wf(),
            r.dict_words@ == dict@,
            r.possible_answers@ == pool@,
            r.forced_guesses@.len() == 0,
            r.hard_mode == hard_mode,
    {
        Self::create_with_guesses(hard_mode, dict, pool, Vec::new())
    }
}

proof fn lemma_best_upto_range(s: WordleSolver, space: Seq<usize>, i: int)
    requires
        i >= 1,
    ensures
        0 <= s.best_upto(space, i) < i,
    decreases i,
{
    if i > 1 {
        lemma_best_upto_range(s, space, i - 1);
    }
}

/// The scan's held best really is minimal: no scanned word scores lower.
pub proof fn lemma_best_upto_minimal(s: WordleSolver, space: Seq<usize>, i: int, j: int)
    requires
        0 <= j < i,
    ensures
        s.score_key(space[s.best_upto(space, i)] as int) <= s.score_key(space[j] as int),
    decreases i,
{
    lemma_best_upto_range(s, space, i);
    if i <= 1 {
    } else {
        if j < i - 1 {
            lemma_best_upto_minimal(s, space, i - 1, j);
        }
    }
}

/// Equal words give the all-correct clue, and a word unequal to the guess
/// never encodes to the same clue code as one equal to it.
proof fn lemma_codes_differ(dict: Seq<[u8; 5]>, g: int, x: int, t: int)
    requires
        0 <= g < dict.len(),
        0 <= x < dict.len(),
        0 <= t < dict.len(),
        dict[x]@ == dict[g]@,
        dict[t]@ != dict[g]@,
    ensures
        code_of_words(dict, g, x) != code_of_words(dict, g, t),
{
    let cx = clue_of(dict[g]@, dict[x]@);
    let ct2 = clue_of(dict[g]@, dict[t]@);
    assert(dict[g]@.len() == 5 && dict[t]@.len() == 5 && dict[x]@.len() == 5);
    lemma_correct_marks(dict[g]@, dict[x]@);
    lemma_correct_marks(dict[g]@, dict[t]@);
    if forall|i: int| 0 <= i < 5 ==> dict[g]@[i] == dict[t]@[i] {
        assert(dict[g]@ =~= dict[t]@);
    }
    let i = choose|i: int| 0 <= i < 5 && dict[g]@[i] != dict[t]@[i];
    assert(cx[i] == CluePart::G);
    assert(ct2[i] != CluePart::G);
    if clue_code(cx) == clue_code(ct2) {
        lemma_decode_encode(cx);
        lemma_decode_encode(ct2);
    }
}

/// The candidates whose clue code against row `w` lies below `c`.
spec fn coded_below(s: WordleSolver, w: int, c: int) -> Set<u16> {
    Set::new(|x: u16| s.possible_answers@.contains(x) && s.code_of(w, x as int) < c)
}

proof fn lemma_row_sum_partition(s: WordleSolver, w: int, c: int)
    requires
        s.wf(),
        0 <= w < s.word_count(),
        0 <= c <= 243,
    ensures
        coded_below(s, w, c).finite(),
        s.row_sum(w, c) == coded_below(s, w, c).len(),
    decreases c,
{
    if c == 0 {
        assert(coded_below(s, w, 0) =~= Set::<u16>::empty());
    } else {
        lemma_row_sum_partition(s, w, c - 1);
        let b = s.bucket(w, c - 1);
        lemma_sorted_no_duplicates(b);
        b.unique_seq_to_set();
        vstd::seq_lib::seq_to_set_is_finite(b);
        assert(coded_below(s, w, c) =~= coded_below(s, w, c - 1) + b.to_set()) by {
            assert forall|x: u16| #[trigger] b.to_set().contains(x) implies s.possible_answers@.contains(
                x,
            ) && s.code_of(w, x as int) == c - 1 by {
                assert(b.contains(x));
            }
            assert forall|x: u16|
                s.possible_answers@.contains(x) && s.code_of(w, x as int) == c
                    - 1 implies #[trigger] b.to_set().contains(x) by {
                assert(b.contains(x));
            }
        }
        assert(coded_below(s, w, c - 1).disjoint(b.to_set())) by {
            assert forall|x: u16|
                #[trigger] coded_below(s, w, c - 1).contains(x) implies !b.to_set().contains(x) by {
                if b.to_set().contains(x) {
                    assert(b.contains(x));
                }
            }
        }
        vstd::set_lib::lemma_set_disjoint_lens(coded_below(s, w, c - 1), b.to_set());
    }
}

/// The buckets of any row partition the candidate set: they are pairwise
/// disjoint, they cover every candidate, and their sizes sum to the
/// candidate count — immediately after a build, the whole answer pool.
pub proof fn lemma_buckets_partition(s: WordleSolver, w: int)
    requires
        s.wf(),
        0 <= w < s.word_count(),
    ensures
        s.row_sum(w, 243) == s.possible_answers@.len(),
        forall|c1: int, c2: int, x: u16|
            #![trigger s.bucket(w, c1).contains(x), s.bucket(w, c2).contains(x)]
            0 <= c1 < c2 < 243 ==> !(s.bucket(w, c1).contains(x) && s.bucket(w, c2).contains(x)),
        forall|x: u16|
            s.possible_answers@.contains(x) ==> s.bucket(w, s.code_of(w, x as int)).contains(x)
                && 0 <= s.code_of(w, x as int) < 243,
{
    assert forall|x: u16| s.possible_answers@.contains(x) implies s.bucket(
        w,
        s.code_of(w, x as int),
    ).contains(x) && 0 <= s.code_of(w, x as int) < 243 by {
        lemma_correct_marks(s.dict_words@[w]@, s.dict_words@[x as int]@);
        lemma_decode_encode(clue_of(s.dict_words@[w]@, s.dict_words@[x as int]@));
    }
    lemma_row_sum_partition(s, w, 243);
    let pa = s.possible_answers@;
    lemma_sorted_no_duplicates(pa);
    pa.unique_seq_to_set();
    assert(coded_below(s, w, 243) =~= pa.to_set()) by {
        assert forall|x: u16| #[trigger] pa.to_set().contains(x) implies coded_below(
            s,
            w,
            243,
        ).contains(x) by {
            assert(pa.contains(x));
            lemma_correct_marks(s.dict_words@[w]@, s.dict_words@[x as int]@);
            lemma_decode_encode(clue_of(s.dict_words@[w]@, s.dict_words@[x as int]@));
        }
        assert forall|x: u16| #[trigger] coded_below(s, w, 243).contains(x) implies pa.to_set().contains(
            x,
        ) by {
            assert(pa.contains(x));
        }
    }
}

proof fn lemma_row_sums_single(s: WordleSolver, w: int, ct: int, c: int)
    requires
        0 <= ct < 243,
        0 <= c <= 243,
        forall|c2: int| 0 <= c2 < 243 && c2 != ct ==> #[trigger] s.bucket(w, c2).len() == 0,
    ensures
        s.row_sum(w, c) == if ct < c {
            s.bucket(w, ct).len() as int
        } else {
            0int
        },
        s.row_sq(w, c) == if ct < c {
            (s.bucket(w, ct).len() * s.bucket(w, ct).len()) as int
        } else {
            0int
        },
    decreases c,
{
    if c > 0 {
        lemma_row_sums_single(s, w, ct, c - 1);
    }
}

proof fn lemma_row_sq_bound(s: WordleSolver, w: int, c: int)
    requires
        0 <= c <= 243,
    ensures
        0 <= s.row_sum(w, c),
        s.row_sq(w, c) <= s.row_sum(w, c) * s.row_sum(w, c),
        forall|c1: int| 0 <= c1 < c ==> s.row_sum(w, c) >= #[trigger] s.bucket(w, c1).len(),
        (exists|c1: int, c2: int|
            #![trigger s.bucket(w, c1).len(), s.bucket(w, c2).len()]
            0 <= c1 < c2 < c && s.bucket(w, c1).len() > 0 && s.bucket(w, c2).len() > 0) ==> s.row_sq(
            w,
            c,
        ) + 2 <= s.row_sum(w, c) * s.row_sum(w, c),
    decreases c,
{
    if c > 0 {
        lemma_row_sq_bound(s, w, c - 1);
        let l = s.bucket(w, c - 1).len() as int;
        let sp = s.row_sum(w, c - 1);
        let qp = s.row_sq(w, c - 1);
        assert(qp + l * l <= (sp + l) * (sp + l)) by (nonlinear_arith)
            requires
                qp <= sp * sp,
                0 <= sp,
                0 <= l,
        ;
        if exists|c1: int, c2: int|
            #![trigger s.bucket(w, c1).len(), s.bucket(w, c2).len()]
            0 <= c1 < c2 < c && s.bucket(w, c1).len() > 0 && s.bucket(w, c2).len() > 0 {
            let (c1, c2) = choose|c1: int, c2: int|
                #![trigger s.bucket(w, c1).len(), s.bucket(w, c2).len()]
                0 <= c1 < c2 < c && s.bucket(w, c1).len() > 0 && s.bucket(w, c2).len() > 0;
            if c2 < c - 1 {
                assert(qp + 2 <= sp * sp);
                assert(qp + l * l + 2 <= (sp + l) * (sp + l)) by (nonlinear_arith)
                    requires
                        qp + 2 <= sp * sp,
                        0 <= sp,
                        0 <= l,
                ;
            } else {
                assert(c2 == c - 1 && l >= 1);
                assert(sp >= s.bucket(w, c1).len());
                assert(qp + l * l + 2 <= (sp + l) * (sp + l)) by (nonlinear_arith)
                    requires
                        qp <= sp * sp,
                        1 <= sp,
                        1 <= l,
                ;
            }
        }
    }
}

/// The progress guarantee behind every session's termination: when more
/// than one candidate remains and the scan-chosen guess does not read as
/// the target's word, the candidates consistent with the observed clue
/// are strictly fewer than before. A guess whose row leaves the
/// candidates whole would score no better than any candidate's own row,
/// which always splits off the words equal to that candidate.
pub proof fn lemma_scored_guess_shrinks(s: WordleSolver, g: usize, t: u16)
    requires
        s.wf(),
        s.possible_answers@.len() > 1,
        s.possible_answers@.contains(t),
        g == s.chosen_of(s.search_space()),
        s.dict_words@[g as int]@ != s.dict_words@[t as int]@,
    ensures
        s.bucket(g as int, s.code_of(g as int, t as int)).len() < s.possible_answers@.len(),
{
    let pa = s.possible_answers@;
    let n = pa.len() as int;
    let dict = s.dict_words@;
    let space = s.search_space();
    let ct = s.code_of(g as int, t as int);
    assert((g as int) < s.word_count()) by {
        assert(space.len() >= 1) by {
            if s.hard_mode {
            } else {
                assert((t as int) < s.word_count());
            }
        }
        lemma_best_upto_range(s, space, space.len() as int);
        let idx = s.best_upto(space, space.len() as int);
        if s.hard_mode {
            assert(space[idx] == pa[idx] as usize);
            assert(pa.contains(pa[idx]));
        } else {
            assert(space[idx] == idx as usize);
        }
    }
    lemma_buckets_partition(s, g as int);
    assert(0 <= ct < 243);
    let b = s.bucket(g as int, ct);
    assert(forall|x: u16| b.contains(x) ==> pa.contains(x));
    lemma_sorted_subset_len(b, pa);
    if b.len() == n {
        lemma_subset_same_len_equal(b, pa);
        assert(forall|x: u16| pa.contains(x) ==> s.code_of(g as int, x as int) == ct);
        assert forall|c2: int| 0 <= c2 < 243 && c2 != ct implies #[trigger] s.bucket(
            g as int,
            c2,
        ).len() == 0 by {
            let b2 = s.bucket(g as int, c2);
            if b2.len() > 0 {
                assert(b2.contains(b2[0]));
            }
        }
        lemma_row_sums_single(s, g as int, ct, 243);
        assert(s.row_sum(g as int, 243) == n && s.row_sq(g as int, 243) == n * n);
        assert(s.score_key(g as int) == 2 * (n * n) + (if pa.contains(g as u16) {
            0int
        } else {
            1int
        }));
        lemma_space_covers(s);
        if exists|a: u16| pa.contains(a) && dict[a as int]@ != dict[t as int]@ {
            // some candidate's word differs from the target's: that
            // candidate's own row separates itself from the target
            let a = choose|a: u16| pa.contains(a) && dict[a as int]@ != dict[t as int]@;
            lemma_buckets_partition(s, a as int);
            lemma_codes_differ(dict, a as int, a as int, t as int);
            assert(s.bucket(a as int, s.code_of(a as int, a as int)).contains(a));
            assert(s.bucket(a as int, s.code_of(a as int, t as int)).contains(t));
            let ca = s.code_of(a as int, a as int);
            let cb = s.code_of(a as int, t as int);
            assert(s.bucket(a as int, ca).len() > 0) by {
                assert(s.bucket(a as int, ca).contains(a));
                if s.bucket(a as int, ca).len() == 0 {
                    assert(!s.bucket(a as int, ca).contains(a));
                }
            }
            assert(s.bucket(a as int, cb).len() > 0) by {
                if s.bucket(a as int, cb).len() == 0 {
                    assert(!s.bucket(a as int, cb).contains(t));
                }
            }
            lemma_row_sq_bound(s, a as int, 243);
            assert(s.row_sq(a as int, 243) + 2 <= n * n) by {
                if ca < cb {
                    assert(0 <= ca < cb < 243 && s.bucket(a as int, ca).len() > 0 && s.bucket(
                        a as int,
                        cb,
                    ).len() > 0);
                } else {
                    assert(0 <= cb < ca < 243 && s.bucket(a as int, cb).len() > 0 && s.bucket(
                        a as int,
                        ca,
                    ).len() > 0);
                }
            }
            assert(s.score_key(a as int) <= 2 * (n * n) - 3);
            let j = choose|j: int| 0 <= j < space.len() && space[j] == a as usize;
            lemma_best_upto_minimal(s, space, space.len() as int, j);
            assert(s.score_key(g as int) <= s.score_key(a as usize as int));
            assert(false);
        } else {
            // every candidate reads as the target's word, so the target's
            // own row keeps them together and scores no worse, tie-break
            // included; the chosen guess must then be a candidate itself,
            // yet its word differs from the target's
            assert(forall|x: u16| pa.contains(x) ==> dict[x as int]@ == dict[t as int]@);
            assert forall|x: u16| pa.contains(x) implies s.code_of(t as int, x as int) == s.code_of(
                t as int,
                t as int,
            ) by {
                assert(dict[x as int]@ == dict[t as int]@);
            }
            let ctt = s.code_of(t as int, t as int);
            lemma_buckets_partition(s, t as int);
            assert forall|c2: int| 0 <= c2 < 243 && c2 != ctt implies #[trigger] s.bucket(
                t as int,
                c2,
            ).len() == 0 by {
                let b2 = s.bucket(t as int, c2);
                if b2.len() > 0 {
                    assert(b2.contains(b2[0]));
                }
            }
            lemma_row_sums_single(s, t as int, ctt, 243);
            assert(s.score_key(t as int) == 2 * (n * n));
            let j = choose|j: int| 0 <= j < space.len() && space[j] == t as usize;
            lemma_best_upto_minimal(s, space, space.len() as int, j);
            assert(s.score_key(g as int) <= s.score_key(t as usize as int));
            assert(pa.contains(g as u16));
            assert(dict[g as u16 as int]@ == dict[t as int]@);
            assert((g as u16) < 0x10000 && g == g as u16 as usize);
            assert(false);
        }
    }
}

/// Forced guesses override scoring: with more than one candidate left, a
/// solver holding the forced queue [x, y] yields x; one whose queue is
/// that queue after the first consumption yields y; and one whose queue
/// is spent falls back to the scored choice. Scoring resumes only when
/// the queue is empty.
pub proof fn lemma_forced_guess_override(
    s1: WordleSolver,
    s2: WordleSolver,
    s3: WordleSolver,
    x: usize,
    y: usize,
)
    requires
        s1.possible_answers@.len() > 1,
        s1.forced_guesses@ == seq![x, y],
        s2.possible_answers@.len() > 1,
        s2.forced_guesses@ == s1.forced_guesses@.drop_first(),
        s3.possible_answers@.len() > 1,
        s3.forced_guesses@.len() == 0,
    ensures
        s1.next_guess_spec() == Ok::<usize, SolverError>(x),
        s2.next_guess_spec() == Ok::<usize, SolverError>(y),
        s3.next_guess_spec() == Ok::<usize, SolverError>(s3.chosen_of(s3.search_space())),
{
    assert(s1.forced_guesses@[0] == x);
    assert(s2.forced_guesses@[0] == y);
}

proof fn lemma_row_sums_equal(s1: WordleSolver, s2: WordleSolver, w: int, c: int)
    requires
        forall|c2: int| 0 <= c2 < 243 ==> #[trigger] s1.bucket(w, c2) == s2.bucket(w, c2),
        0 <= c <= 243,
    ensures
        s1.row_sum(w, c) == s2.row_sum(w, c),
        s1.row_sq(w, c) == s2.row_sq(w, c),
    decreases c,
{
    if c > 0 {
        lemma_row_sums_equal(s1, s2, w, c - 1);
    }
}

proof fn lemma_best_upto_equal(s1: WordleSolver, s2: WordleSolver, space: Seq<usize>, i: int)
    requires
        forall|j: int|
            0 <= j < space.len() ==> s1.score_key(#[trigger] space[j] as int) == s2.score_key(
                space[j] as int,
            ),
        1 <= i <= space.len(),
    ensures
        s1.best_upto(space, i) == s2.best_upto(space, i),
    decreases i,
{
    if i > 1 {
        lemma_best_upto_equal(s1, s2, space, i - 1);
        lemma_best_upto_range(s1, space, i - 1);
    }
}

/// Determinism: the next guess is a function of the solver's sets alone.
/// Two well-formed solvers over the same dictionary, mode and forced
/// queue whose candidate sets hold the same members — however each was
/// reached — hold equal candidate lists, equal buckets, and decide on the
/// same next guess, so repeated runs from equal configurations coincide
/// turn by turn.
pub proof fn lemma_deterministic_choice(s1: WordleSolver, s2: WordleSolver)
    requires
        s1.wf(),
        s2.wf(),
        s1.dict_words == s2.dict_words,
        s1.hard_mode == s2.hard_mode,
        s1.forced_guesses@ == s2.forced_guesses@,
        forall|x: u16| s1.possible_answers@.contains(x) <==> s2.possible_answers@.contains(x),
    ensures
        s1.possible_answers@ == s2.possible_answers@,
        forall|w: int, c: int|
            0 <= w < s1.word_count() && 0 <= c < 243 ==> #[trigger] s1.bucket(w, c) == s2.bucket(
                w,
                c,
            ),
        s1.next_guess_spec() == s2.next_guess_spec(),
{
    lemma_sorted_canonical(s1.possible_answers@, s2.possible_answers@);
    assert forall|w: int, c: int|
        0 <= w < s1.word_count() && 0 <= c < 243 implies #[trigger] s1.bucket(w, c) == s2.bucket(
        w,
        c,
    ) by {
        assert forall|x: u16| s1.bucket(w, c).contains(x) <==> s2.bucket(w, c).contains(x) by {
            assert(s1.code_of(w, x as int) == s2.code_of(w, x as int));
        }
        lemma_sorted_canonical(s1.bucket(w, c), s2.bucket(w, c));
    }
    let pa = s1.possible_answers@;
    if pa.len() > 1 && s1.forced_guesses@.len() == 0 {
        assert(s1.search_space() =~= s2.search_space()) by {
            if !s1.hard_mode {
                assert(s1.word_count() == s2.word_count());
            }
        }
        let space = s1.search_space();
        assert(space.len() >= 1) by {
            if !s1.hard_mode {
                assert(pa.contains(pa[0]));
            }
        }
        assert forall|j: int|
            0 <= j < space.len() implies s1.score_key(#[trigger] space[j] as int) == s2.score_key(
            space[j] as int,
        ) by {
            assert(space[j] < s1.word_count()) by {
                if s1.hard_mode {
                    assert(space[j] == pa[j] as usize);
                    assert(pa.contains(pa[j]));
                } else {
                    assert(space[j] == j as usize);
                }
            }
            lemma_row_sums_equal(s1, s2, space[j] as int, 243);
        }
        lemma_best_upto_equal(s1, s2, space, space.len() as int);
    }
}

/// The bucket of guess `g` for code `c` as a function of the candidate
/// list alone: the candidates whose clue against `g` encodes to `c`, in
/// candidate order. Because candidate lists are strictly increasing, this
/// is the exact value a well-formed solver's bucket holds.
pub open spec fn model_bucket(dict: Seq<[u8; 5]>, cands: Seq<u16>, g: int, c: int) -> Seq<u16> {
    cands.filter(|x: u16| code_of_words(dict, g, x as int) == c)
}

/// Sum of the first `c` model bucket lengths of guess `g`.
pub open spec fn model_row_sum(dict: Seq<[u8; 5]>, cands: Seq<u16>, g: int, c: int) -> int
    decreases c,
{
    if c <= 0 {
        0
    } else {
        model_row_sum(dict, cands, g, c - 1) + model_bucket(dict, cands, g, c - 1).len()
    }
}

/// Sum of the squares of the first `c` model bucket lengths of guess `g`.
pub open spec fn model_row_sq(dict: Seq<[u8; 5]>, cands: Seq<u16>, g: int, c: int) -> int
    decreases c,
{
    if c <= 0 {
        0
    } else {
        model_row_sq(dict, cands, g, c - 1) + model_bucket(dict, cands, g, c - 1).len()
            * model_bucket(dict, cands, g, c - 1).len()
    }
}

/// The ranking key of guess `g` as a function of the candidate list
/// alone, mirroring `score_key`.
pub open spec fn model_score_key(dict: Seq<[u8; 5]>, cands: Seq<u16>, g: int) -> int {
    let n = cands.len() as int;
    2 * (n * n - model_row_sum(dict, cands, g, 243) * n + model_row_sq(dict, cands, g, 243)) + (
    if cands.contains(g as u16) {
        0int
    } else {
        1int
    })
}

/// The words scored from a model state, mirroring `search_space`.
pub open spec fn model_space(dict: Seq<[u8; 5]>, hard: bool, cands: Seq<u16>) -> Seq<usize> {
    if hard {
        cands.map_values(|x: u16| x as usize)
    } else {
        Seq::new(dict.len(), |i: int| i as usize)
    }
}

/// The scan position of the best guess among the first `i` entries, over
/// the model score, mirroring `best_upto` tie-break included.
pub open spec fn model_best_upto(dict: Seq<[u8; 5]>, cands: Seq<u16>, space: Seq<usize>, i: int) -> int
    decreases i,
{
    if i <= 1 {
        0
    } else {
        let prev = model_best_upto(dict, cands, space, i - 1);
        if model_score_key(dict, cands, space[i - 1] as int) <= model_score_key(
            dict,
            cands,
            space[prev] as int,
        ) {
            i - 1
        } else {
            prev
        }
    }
}

/// The guess a model state with at least one candidate decides: the lone
/// candidate, else the oldest forced guess, else the best-scoring word of
/// the search space.
pub open spec fn model_guess(
    dict: Seq<[u8; 5]>,
    hard: bool,
    cands: Seq<u16>,
    forced: Seq<usize>,
) -> usize {
    if cands.len() == 1 {
        cands[0] as usize
    } else if forced.len() > 0 {
        forced[0]
    } else {
        let space = model_space(dict, hard, cands);
        space[model_best_upto(dict, cands, space, space.len() as int)]
    }
}

/// A well-formed solver's bucket is exactly the model bucket of its
/// candidate list: same members, both canonical.
pub proof fn lemma_bucket_is_model(s: WordleSolver, w: int, c: int)
    requires
        s.wf(),
        0 <= w < s.word_count(),
        0 <= c < 243,
    ensures
        s.bucket(w, c) == model_bucket(s.dict_words@, s.possible_answers@, w, c),
{
    let dict = s.dict_words@;
    let pa = s.possible_answers@;
    let p = |x: u16| code_of_words(dict, w, x as int) == c;
    lemma_filter_sorted(pa, p);
    assert forall|x: u16| s.bucket(w, c).contains(x) <==> pa.filter(p).contains(x) by {
        assert(s.code_of(w, x as int) == code_of_words(dict, w, x as int));
    }
    lemma_sorted_canonical(s.bucket(w, c), pa.filter(p));
}

proof fn lemma_row_sums_are_model(s: WordleSolver, w: int, c: int)
    requires
        s.wf(),
        0 <= w < s.word_count(),
        0 <= c <= 243,
    ensures
        s.row_sum(w, c) == model_row_sum(s.dict_words@, s.possible_answers@, w, c),
        s.row_sq(w, c) == model_row_sq(s.dict_words@, s.possible_answers@, w, c),
    decreases c,
{
    if c > 0 {
        lemma_row_sums_are_model(s, w, c - 1);
        lemma_bucket_is_model(s, w, c - 1);
    }
}

proof fn lemma_best_upto_is_model(s: WordleSolver, space: Seq<usize>, i: int)
    requires
        s.wf(),
        forall|j: int| 0 <= j < space.len() ==> #[trigger] space[j] < s.word_count(),
        1 <= i <= space.len(),
    ensures
        s.best_upto(space, i) == model_best_upto(s.dict_words@, s.possible_answers@, space, i),
    decreases i,
{
    if i > 1 {
        lemma_best_upto_is_model(s, space, i - 1);
        lemma_best_upto_range(s, space, i - 1);
        let prev = s.best_upto(space, i - 1);
        lemma_row_sums_are_model(s, space[i - 1] as int, 243);
        lemma_row_sums_are_model(s, space[prev] as int, 243);
    }
}

/// A well-formed solver's decision is the model decision of its candidate
/// list, forced queue and mode: the choice is a function of the abstract
/// state alone.
pub proof fn lemma_next_guess_is_model(s: WordleSolver)
    requires
        s.wf(),
        s.possible_answers@.len() > 0,
    ensures
        s.next_guess_spec() == Ok::<usize, SolverError>(
            model_guess(s.dict_words@, s.hard_mode, s.possible_answers@, s.forced_guesses@),
        ),
{
    let pa = s.possible_answers@;
    if pa.len() > 1 && s.forced_guesses@.len() == 0 {
        let space = s.search_space();
        assert(space =~= model_space(s.dict_words@, s.hard_mode, pa));
        assert(space.len() >= 1) by {
            if !s.hard_mode {
                assert(pa.contains(pa[0]));
            }
        }
        assert forall|j: int| 0 <= j < space.len() implies #[trigger] space[j] < s.word_count() by {
            if s.hard_mode {
                assert(space[j] == pa[j] as usize);
                assert(pa.contains(pa[j]));
            } else {
                assert(space[j] == j as usize);
            }
        }
        lemma_best_upto_is_model(s, space, space.len() as int);
    }
}

/// Every candidate appears in the search space, in either mode.
proof fn lemma_space_covers(s: WordleSolver)
    requires
        s.wf(),
    ensures
        forall|a: u16|
            s.possible_answers@.contains(a) ==> exists|j: int|
                0 <= j < s.search_space().len() && s.search_space()[j] == a as usize,
{
    let space = s.search_space();
    assert forall|a: u16| s.possible_answers@.contains(a) implies exists|j: int|
        0 <= j < space.len() && space[j] == a as usize by {
        if s.hard_mode {
            let i = choose|i: int|
                0 <= i < s.possible_answers@.len() && s.possible_answers@[i] == a;
            assert(space[i] == a as usize);
        } else {
            assert((a as int) < s.word_count());
            assert(space[a as int] == a as usize);
        }
    }
}

} // verus!
