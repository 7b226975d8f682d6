use crate::clue::{clue_code, get_clue_by_word};
use crate::sets::{set_contains, sorted};
use crate::solver::{
    code_of_words, lemma_next_guess_is_model, lemma_scored_guess_shrinks, model_bucket,
    model_guess, WordleSolver,
};
use crate::words::{
    get_word_bytes, get_word_index, get_word_string, word_chars, words_equal, Dictionary,
};
use vstd::prelude::*;

verus! {

/// The transcript of a session played from the given abstract state —
/// candidate list, forced queue and mode — against `target`: the guess
/// that state decides, then, unless that guess already reads as the
/// target's word, the session continued from the candidates consistent
/// with the guess's true clue, the forced queue consumed by one where it
/// was drawn from. `fuel` bounds the recursion; candidate count plus
/// queue length always suffices, since every turn either consumes a
/// forced guess or strictly splits the candidates.
pub open spec fn solve_trace(
    dict: Seq<[u8; 5]>,
    hard: bool,
    cands: Seq<u16>,
    forced: Seq<usize>,
    target: int,
    fuel: nat,
) -> Seq<usize>
    decreases fuel,
{
    if fuel == 0 || cands.len() == 0 {
        Seq::empty()
    } else {
        let g = model_guess(dict, hard, cands, forced);
        if dict[g as int]@ == dict[target]@ {
            seq![g]
        } else {
            let next_forced = if cands.len() > 1 && forced.len() > 0 {
                forced.drop_first()
            } else {
                forced
            };
            let next_cands = model_bucket(dict, cands, g as int, code_of_words(
                dict,
                g as int,
                target,
            ));
            seq![g] + solve_trace(dict, hard, next_cands, next_forced, target, (fuel - 1) as nat)
        }
    }
}

/// Drives one solver session to completion against a known target drawn
/// from the current candidate set: repeatedly asks for a guess, stops when
/// the guess is the target, else feeds the target's clue back. Returns the
/// guesses in play order: exactly the transcript `solve_trace` gives for
/// the starting state, so the sequence is a function of pool, forced
/// queue, mode, dictionary and target alone — solving the same target
/// twice from equal configurations gives the same sequence. The last
/// guess, and only the last, reads as the target; the target is a
/// candidate throughout, so no turn can report a contradiction.
pub fn solve_for_target(dict: &Dictionary, target_ix: u16, solver: WordleSolver) -> (r: Vec<usize>)
    requires
        dict.wf(),
        solver.wf(),
        solver.dict_words@ == dict@,
        solver.possible_answers@.contains(target_ix),
    ensures
        r@ == solve_trace(
            dict@,
            solver.hard_mode,
            solver.possible_answers@,
            solver.forced_guesses@,
            target_ix as int,
            (solver.forced_guesses@.len() + solver.possible_answers@.len()) as nat,
        ),
        r@.len() > 0,
        r@.len() <= solver.forced_guesses@.len() + solver.possible_answers@.len(),
        forall|i: int| 0 <= i < r@.len() ==> #[trigger] r@[i] < dict@.len(),
        dict@[r@.last() as int]@ == dict@[target_ix as int]@,
        forall|i: int|
            0 <= i < r@.len() - 1 ==> dict@[#[trigger] r@[i] as int]@ != dict@[target_ix as int]@,
{
    let ghost f0 = solver.forced_guesses@.len();
    let ghost n0 = solver.possible_answers@.len();
    let ghost hard0 = solver.hard_mode;
    let ghost full = solve_trace(
        dict@,
        hard0,
        solver.possible_answers@,
        solver.forced_guesses@,
        target_ix as int,
        (f0 + n0) as nat,
    );
    let mut solver = solver;
    let mut res: Vec<usize> = Vec::new();
    proof {
        assert((target_ix as int) < solver.word_count());
    }
    let tb = get_word_bytes(dict, target_ix as usize);
    loop
        invariant_except_break
            dict.wf(),
            solver.wf(),
            solver.dict_words@ == dict@,
            solver.hard_mode == hard0,
            solver.possible_answers@.contains(target_ix),
            tb == dict@[target_ix as int],
            forall|i: int| 0 <= i < res@.len() ==> #[trigger] res@[i] < dict@.len(),
            forall|i: int|
                0 <= i < res@.len() ==> dict@[#[trigger] res@[i] as int]@ != dict@[target_ix as int]@,
            res@.len() + solver.forced_guesses@.len() + solver.possible_answers@.len() <= f0 + n0,
            res@ + solve_trace(
                dict@,
                hard0,
                solver.possible_answers@,
                solver.forced_guesses@,
                target_ix as int,
                (f0 + n0 - res@.len()) as nat,
            ) == full,
        ensures
            res@ == full,
            res@.len() > 0,
            res@.len() <= f0 + n0,
            forall|i: int| 0 <= i < res@.len() ==> #[trigger] res@[i] < dict@.len(),
            dict@[res@.last() as int]@ == dict@[target_ix as int]@,
            forall|i: int|
                0 <= i < res@.len() - 1 ==> dict@[#[trigger] res@[i] as int]@ != dict@[target_ix
                    as int]@,
        decreases solver.forced_guesses@.len() + solver.possible_answers@.len(),
    {
        let ghost s_at = solver;
        let ghost res0 = res@;
        let ghost fuel_at = (f0 + n0 - res@.len()) as nat;
        let g = match solver.get_guess() {
            Ok(g) => g,
            Err(_) => {
                proof {
                    assert(false);
                }
                0
            },
        };
        proof {
            lemma_next_guess_is_model(s_at);
            assert(g == model_guess(dict@, hard0, s_at.possible_answers@, s_at.forced_guesses@));
            assert(fuel_at >= 1) by {
                assert(s_at.possible_answers@.len() >= 1);
            }
        }
        res.push(g);
        let gb = get_word_bytes(dict, g);
        if words_equal(gb, tb) {
            proof {
                assert(solve_trace(
                    dict@,
                    hard0,
                    s_at.possible_answers@,
                    s_at.forced_guesses@,
                    target_ix as int,
                    fuel_at,
                ) == seq![g]);
                assert(res@ =~= res0 + seq![g]);
            }
            break ;
        }
        let clue = get_clue_by_word(gb, tb);
        proof {
            assert(clue_code(clue@) == s_at.code_of(g as int, target_ix as int));
            if s_at.possible_answers@.len() == 1 {
                // the lone candidate is the target, so the guess would have
                // matched and broken out
                let i = choose|i: int|
                    0 <= i < s_at.possible_answers@.len() && s_at.possible_answers@[i] == target_ix;
                assert(s_at.possible_answers@[0] == target_ix);
                assert(false);
            } else if s_at.forced_guesses@.len() == 0 {
                lemma_scored_guess_shrinks(s_at, g, target_ix);
            }
        }
        let ghost s_mid = solver;
        solver.update(g, clue);
        proof {
            assert(solver.possible_answers@.contains(target_ix));
            assert(solver.forced_guesses@.len() + solver.possible_answers@.len()
                < s_at.forced_guesses@.len() + s_at.possible_answers@.len());
            let ct = code_of_words(dict@, g as int, target_ix as int);
            assert(solver.possible_answers@ == s_at.bucket(g as int, ct)) by {
                assert(s_mid.game_state == s_at.game_state);
                assert(s_mid.bucket(g as int, ct) == s_at.bucket(g as int, ct));
            }
            assert(solver.possible_answers@ == model_bucket(
                dict@,
                s_at.possible_answers@,
                g as int,
                ct,
            )) by {
                crate::clue::lemma_correct_marks(dict@[g as int]@, dict@[target_ix as int]@);
                crate::clue::lemma_decode_encode(crate::clue::clue_of(
                    dict@[g as int]@,
                    dict@[target_ix as int]@,
                ));
                crate::solver::lemma_bucket_is_model(s_at, g as int, ct);
            }
            assert(solve_trace(
                dict@,
                hard0,
                s_at.possible_answers@,
                s_at.forced_guesses@,
                target_ix as int,
                fuel_at,
            ) == seq![g] + solve_trace(
                dict@,
                hard0,
                solver.possible_answers@,
                solver.forced_guesses@,
                target_ix as int,
                (fuel_at - 1) as nat,
            ));
            assert(res@ =~= res0 + seq![g]);
            assert(res@ + solve_trace(
                dict@,
                hard0,
                solver.possible_answers@,
                solver.forced_guesses@,
                target_ix as int,
                (f0 + n0 - res@.len()) as nat,
            ) =~= full);
        }
    }
    res
}

/// Resolves a target word, checks that it can be an answer, then builds a
/// fresh solver over the pool and solves for it, returning the guesses as
/// text. `None` — never a made-up run — exactly when the target does not
/// resolve to a pool member. A returned run renders `solve_trace` for the
/// resolved target word by word, so it too is a function of pool, mode
/// and target alone.
pub fn run_solver_with_target(
    hard_mode: bool,
    dict: &Dictionary,
    pool: Vec<u16>,
    target_str: String,
) -> (r: Option<Vec<String>>)
    requires
        dict.wf(),
        sorted(pool@),
        forall|x: u16| pool@.contains(x) ==> (x as int) < dict@.len(),
    ensures
        r is Some <==> exists|ix: int|
            0 <= ix < dict@.len() && word_chars(#[trigger] dict@[ix]@) == target_str@ && (
            forall|j: int| 0 <= j < ix ==> word_chars(dict@[j]@) != target_str@)
                && pool@.contains(ix as u16),
        match r {
            Some(gs) => gs@.len() > 0 && gs@.last()@ == target_str@,
            None => true,
        },
        r is Some ==> forall|ix: int|
            (0 <= ix < dict@.len() && word_chars(#[trigger] dict@[ix]@) == target_str@ && (
            forall|j: int| 0 <= j < ix ==> word_chars(dict@[j]@) != target_str@)
                && pool@.contains(ix as u16)) ==> r.unwrap()@.len() == solve_trace(
                dict@,
                hard_mode,
                pool@,
                Seq::<usize>::empty(),
                ix,
                pool@.len() as nat,
            ).len() && (forall|k: int|
                0 <= k < r.unwrap()@.len() ==> (#[trigger] r.unwrap()@[k])@ == word_chars(
                    dict@[solve_trace(
                        dict@,
                        hard_mode,
                        pool@,
                        Seq::<usize>::empty(),
                        ix,
                        pool@.len() as nat,
                    )[k] as int]@,
                )),
{
    match get_word_index(dict, target_str) {
        Some(ix) => {
            if set_contains(&pool, ix as u16) {
                let solver = WordleSolver::create(hard_mode, dict, pool);
                let ghost s0 = solver;
                let guesses = solve_for_target(dict, ix as u16, solver);
                let mut out: Vec<String> = Vec::new();
                let mut k: usize = 0;
                while k < guesses.len()
                    invariant
                        dict.wf(),
                        0 <= k <= guesses@.len(),
                        out@.len() == k,
                        forall|i: int|
                            0 <= i < guesses@.len() ==> #[trigger] guesses@[i] < dict@.len(),
                        forall|i: int|
                            0 <= i < k ==> (#[trigger] out@[i])@ == word_chars(
                                dict@[guesses@[i] as int]@,
                            ),
                    decreases guesses@.len() - k,
                {
                    out.push(get_word_string(dict, guesses[k]));
                    k += 1;
                }
                proof {
                    assert(out@.last()@ == word_chars(dict@[guesses@.last() as int]@));
                    assert(word_chars(dict@[guesses@.last() as int]@) == word_chars(
                        dict@[ix as int]@,
                    ));
                    assert(0 <= ix < dict@.len() && word_chars(dict@[ix as int]@) == target_str@
                        && (forall|j: int| 0 <= j < ix ==> word_chars(dict@[j]@) != target_str@)
                        && pool@.contains(ix as u16));
                    let tr = solve_trace(
                        dict@,
                        hard_mode,
                        pool@,
                        Seq::<usize>::empty(),
                        ix as int,
                        pool@.len() as nat,
                    );
                    assert(guesses@ == tr) by {
                        assert(s0.forced_guesses@ =~= Seq::<usize>::empty());
                        assert(s0.possible_answers@ == pool@ && s0.hard_mode == hard_mode);
                        assert((s0.forced_guesses@.len() + s0.possible_answers@.len()) as nat
                            == pool@.len() as nat);
                    }
                    assert forall|ix2: int|
                        (0 <= ix2 < dict@.len() && word_chars(#[trigger] dict@[ix2]@)
                            == target_str@ && (forall|j: int|
                            0 <= j < ix2 ==> word_chars(dict@[j]@) != target_str@)
                            && pool@.contains(ix2 as u16)) implies out@.len() == solve_trace(
                        dict@,
                        hard_mode,
                        pool@,
                        Seq::<usize>::empty(),
                        ix2,
                        pool@.len() as nat,
                    ).len() && (forall|k: int|
                        0 <= k < out@.len() ==> (#[trigger] out@[k])@ == word_chars(
                            dict@[solve_trace(
                                dict@,
                                hard_mode,
                                pool@,
                                Seq::<usize>::empty(),
                                ix2,
                                pool@.len() as nat,
                            )[k] as int]@,
                        )) by {
                        assert(ix2 == ix);
                    }
                }
                Some(out)
            } else {
                proof {
                    assert forall|k: int|
                        !(0 <= k < dict@.len() && word_chars(#[trigger] dict@[k]@) == target_str@
                            && (forall|j: int| 0 <= j < k ==> word_chars(dict@[j]@) != target_str@)
                            && pool@.contains(k as u16)) by {
                        if 0 <= k < dict@.len() && word_chars(dict@[k]@) == target_str@ && (
                        forall|j: int| 0 <= j < k ==> word_chars(dict@[j]@) != target_str@) {
                            assert(k == ix);
                        }
                    }
                }
                None
            }
        },
        None => None,
    }
}

} // verus!
