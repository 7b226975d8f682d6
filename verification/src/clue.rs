use vstd::arithmetic::div_mod::{
    lemma_fundamental_div_mod, lemma_fundamental_div_mod_converse, lemma_mod_bound,
};
use vstd::prelude::*;

verus! {

/// One position's feedback tag: `B` (absent), `Y` (present elsewhere),
/// `G` (correct position).
#[derive(Clone, Copy, Debug, PartialEq, Eq, Structural)]
pub enum CluePart {
    B,
    Y,
    G,
}

/// Base-3 digit of a tag in the integer encoding of a clue.
pub open spec fn tag_value(p: CluePart) -> int {
    match p {
        CluePart::B => 0,
        CluePart::Y => 1,
        CluePart::G => 2,
    }
}

/// The tag whose base-3 digit is `d` (digits outside 0..3 give `G`).
pub open spec fn tag_of_digit(d: int) -> CluePart {
    if d == 0 {
        CluePart::B
    } else if d == 1 {
        CluePart::Y
    } else {
        CluePart::G
    }
}

/// Integer encoding of a five-tag clue: positional base 3, position 0 least
/// significant. Range [0, 243) when the clue has five tags.
pub open spec fn clue_code(c: Seq<CluePart>) -> int
    recommends
        c.len() == 5,
{
    tag_value(c[0]) + 3 * tag_value(c[1]) + 9 * tag_value(c[2]) + 27 * tag_value(c[3]) + 81
        * tag_value(c[4])
}

/// Inverse of `clue_code` on [0, 243): successive base-3 digits.
pub open spec fn clue_decode(code: int) -> Seq<CluePart> {
    let r1 = code / 3;
    let r2 = r1 / 3;
    let r3 = r2 / 3;
    let r4 = r3 / 3;
    seq![
        tag_of_digit(code % 3),
        tag_of_digit(r1 % 3),
        tag_of_digit(r2 % 3),
        tag_of_digit(r3 % 3),
        tag_of_digit(r4 % 3),
    ]
}

/// Tags after the first pass: `G` exactly where guess and target agree.
pub open spec fn pass1_outcome(g: Seq<u8>, t: Seq<u8>) -> Seq<CluePart> {
    Seq::new(5, |i: int| if g[i] == t[i] { CluePart::G } else { CluePart::B })
}

/// Target letters consumed by the first pass: the positions marked `G`.
pub open spec fn pass1_used(g: Seq<u8>, t: Seq<u8>) -> Seq<bool> {
    Seq::new(5, |i: int| g[i] == t[i])
}

/// First position at or after `j` holding an unconsumed copy of letter `c`
/// in the target, or 5 when there is none.
pub open spec fn find_avail(t: Seq<u8>, used: Seq<bool>, c: u8, j: int) -> int
    decreases 5 - j,
{
    if j < 0 || j >= 5 {
        5
    } else if !used[j] && t[j] == c {
        j
    } else {
        find_avail(t, used, c, j + 1)
    }
}

/// Second pass from position `ix` on: each position not yet `G` is marked
/// `Y` if an unconsumed copy of its guessed letter remains in the target,
/// consuming the first such copy, else left `B`.
pub open spec fn pass2(
    g: Seq<u8>,
    t: Seq<u8>,
    o: Seq<CluePart>,
    u: Seq<bool>,
    ix: int,
) -> (Seq<CluePart>, Seq<bool>)
    decreases 5 - ix,
{
    if ix < 0 || ix >= 5 {
        (o, u)
    } else if o[ix] == CluePart::G {
        pass2(g, t, o, u, ix + 1)
    } else {
        let j = find_avail(t, u, g[ix], 0);
        if j < 5 {
            pass2(g, t, o.update(ix, CluePart::Y), u.update(j, true), ix + 1)
        } else {
            pass2(g, t, o, u, ix + 1)
        }
    }
}

/// The full feedback for a guess against a target: first pass marks exact
/// matches, second pass marks letters present elsewhere, never consuming
/// any target letter twice.
pub open spec fn clue_of(g: Seq<u8>, t: Seq<u8>) -> Seq<CluePart> {
    pass2(g, t, pass1_outcome(g, t), pass1_used(g, t), 0).0
}

/// The tag a feedback symbol denotes: 'y' is `Y`, 'g' is `G`, anything
/// else (leniently) `B`.
pub open spec fn tag_of_char(c: char) -> CluePart {
    if c == 'y' {
        CluePart::Y
    } else if c == 'g' {
        CluePart::G
    } else {
        CluePart::B
    }
}

/// Per-position feedback for one guess word against one hidden target.
pub struct Clue(pub [CluePart; 5]);

impl View for Clue {
    type V = Seq<CluePart>;

    open spec fn view(&self) -> Seq<CluePart> {
        self.0@
    }
}

impl CluePart {
    /// Base-3 digit of this tag, as an executable value.
    pub fn value(self) -> (r: usize)
        ensures
            r == tag_value(self),
    {
        match self {
            CluePart::B => 0,
            CluePart::Y => 1,
            CluePart::G => 2,
        }
    }

    /// Tag for one base-3 digit.
    pub fn of_digit(d: usize) -> (r: CluePart)
        ensures
            r == tag_of_digit(d as int),
    {
        if d == 0 {
            CluePart::B
        } else if d == 1 {
            CluePart::Y
        } else {
            CluePart::G
        }
    }

    /// Tag for one feedback symbol, unknown symbols leniently read as `B`.
    pub fn of_char(c: char) -> (r: CluePart)
        ensures
            r == tag_of_char(c),
    {
        if c == 'y' {
            CluePart::Y
        } else if c == 'g' {
            CluePart::G
        } else {
            CluePart::B
        }
    }
}

impl Clue {
    /// Integer code of this clue: positional base 3, in [0, 243).
    pub fn index(&self) -> (r: usize)
        ensures
            r == clue_code(self@),
            r < 243,
    {
        let v0 = self.0[0].value();
        let v1 = self.0[1].value();
        let v2 = self.0[2].value();
        let v3 = self.0[3].value();
        let v4 = self.0[4].value();
        v0 + 3 * v1 + 9 * v2 + 27 * v3 + 81 * v4
    }

    /// The clue whose integer code is `code`.
    pub fn from_index(code: usize) -> (r: Clue)
        requires
            code < 243,
        ensures
            r@ == clue_decode(code as int),
    {
        let r1 = code / 3;
        let r2 = r1 / 3;
        let r3 = r2 / 3;
        let r4 = r3 / 3;
        let parts = [
            CluePart::of_digit(code % 3),
            CluePart::of_digit(r1 % 3),
            CluePart::of_digit(r2 % 3),
            CluePart::of_digit(r3 % 3),
            CluePart::of_digit(r4 % 3),
        ];
        let r = Clue(parts);
        proof {
            assert(r@ =~= clue_decode(code as int));
        }
        r
    }

    /// Clue read from the first five symbols of a feedback line, each symbol
    /// interpreted by `tag_of_char`.
    pub fn parse(s: &str) -> (r: Clue)
        requires
            s@.len() >= 5,
        ensures
            r@ == Seq::new(5, |i: int| tag_of_char(s@[i])),
    {
        let parts = [
            CluePart::of_char(s.get_char(0)),
            CluePart::of_char(s.get_char(1)),
            CluePart::of_char(s.get_char(2)),
            CluePart::of_char(s.get_char(3)),
            CluePart::of_char(s.get_char(4)),
        ];
        let r = Clue(parts);
        proof {
            assert(r@ =~= Seq::new(5, |i: int| tag_of_char(s@[i])));
        }
        r
    }
}

/// Feedback for `guess` against `target`, with exact duplicate-letter
/// semantics: exact matches are marked first and consume their target
/// letter; remaining positions are marked present only while unconsumed
/// copies of the letter remain, left to right.
pub fn get_clue_by_word(guess: [u8; 5], target: [u8; 5]) -> (r: Clue)
    ensures
        r@ == clue_of(guess@, target@),
{
    let ghost g = guess@;
    let ghost t = target@;
    let mut outcome: [CluePart; 5] = [CluePart::B; 5];
    let mut used: [bool; 5] = [false; 5];
    let mut ix: usize = 0;
    while ix < 5
        invariant
            0 <= ix <= 5,
            g == guess@,
            t == target@,
            outcome@.len() == 5,
            used@.len() == 5,
            forall|i: int|
                0 <= i < ix ==> outcome@[i] == (if g[i] == t[i] {
                    CluePart::G
                } else {
                    CluePart::B
                }),
            forall|i: int| 0 <= i < ix ==> used@[i] == (g[i] == t[i]),
            forall|i: int| ix <= i < 5 ==> outcome@[i] == CluePart::B,
            forall|i: int| ix <= i < 5 ==> used@[i] == false,
        decreases 5 - ix,
    {
        if guess[ix] == target[ix] {
            outcome[ix] = CluePart::G;
            used[ix] = true;
        }
        ix += 1;
    }
    proof {
        assert(outcome@ =~= pass1_outcome(g, t));
        assert(used@ =~= pass1_used(g, t));
    }
    let mut ix: usize = 0;
    while ix < 5
        invariant
            0 <= ix <= 5,
            g == guess@,
            t == target@,
            outcome@.len() == 5,
            used@.len() == 5,
            pass2(g, t, pass1_outcome(g, t), pass1_used(g, t), 0) == pass2(
                g,
                t,
                outcome@,
                used@,
                ix as int,
            ),
        decreases 5 - ix,
    {
        if !(outcome[ix] == CluePart::G) {
            let c = guess[ix];
            let mut j: usize = 0;
            let mut hit: usize = 5;
            while j < 5
                invariant
                    0 <= j <= 5,
                    hit <= 5,
                    0 <= ix < 5,
                    g == guess@,
                    t == target@,
                    used@.len() == 5,
                    c == g[ix as int],
                    if hit < 5 {
                        find_avail(t, used@, c, 0) == hit as int
                    } else {
                        find_avail(t, used@, c, 0) == find_avail(t, used@, c, j as int)
                    },
                    hit < 5 ==> !used@[hit as int] && t[hit as int] == c,
                decreases 5 - j,
            {
                if hit == 5 && !used[j] && target[j] == c {
                    proof {
                        assert(find_avail(t, used@, c, j as int) == j as int);
                    }
                    hit = j;
                } else {
                    proof {
                        if hit == 5 {
                            assert(find_avail(t, used@, c, j as int) == find_avail(
                                t,
                                used@,
                                c,
                                j + 1,
                            ));
                        }
                    }
                }
                j += 1;
            }
            if hit < 5 {
                outcome[ix] = CluePart::Y;
                used[hit] = true;
            }
        }
        ix += 1;
    }
    Clue(outcome)
}

/// Decoding a clue's code gives the clue back: one direction of the
/// bijection between five-tag clues and codes in [0, 243).
pub proof fn lemma_decode_encode(c: Seq<CluePart>)
    requires
        c.len() == 5,
    ensures
        0 <= clue_code(c) < 243,
        clue_decode(clue_code(c)) == c,
{
    let d0 = tag_value(c[0]);
    let d1 = tag_value(c[1]);
    let d2 = tag_value(c[2]);
    let d3 = tag_value(c[3]);
    let d4 = tag_value(c[4]);
    let code = clue_code(c);
    lemma_fundamental_div_mod_converse(code, 3, d1 + 3 * d2 + 9 * d3 + 27 * d4, d0);
    let r1 = code / 3;
    lemma_fundamental_div_mod_converse(r1, 3, d2 + 3 * d3 + 9 * d4, d1);
    let r2 = r1 / 3;
    lemma_fundamental_div_mod_converse(r2, 3, d3 + 3 * d4, d2);
    let r3 = r2 / 3;
    lemma_fundamental_div_mod_converse(r3, 3, d4, d3);
    let r4 = r3 / 3;
    lemma_fundamental_div_mod_converse(r4, 3, 0, d4);
    assert(clue_decode(code) =~= c);
}

/// Encoding the clue decoded from a code gives the code back: the other
/// direction of the bijection over [0, 243).
pub proof fn lemma_encode_decode(code: int)
    requires
        0 <= code < 243,
    ensures
        clue_decode(code).len() == 5,
        clue_code(clue_decode(code)) == code,
{
    let r1 = code / 3;
    let r2 = r1 / 3;
    let r3 = r2 / 3;
    let r4 = r3 / 3;
    lemma_fundamental_div_mod(code, 3);
    lemma_mod_bound(code, 3);
    lemma_fundamental_div_mod(r1, 3);
    lemma_mod_bound(r1, 3);
    lemma_fundamental_div_mod(r2, 3);
    lemma_mod_bound(r2, 3);
    lemma_fundamental_div_mod(r3, 3);
    lemma_mod_bound(r3, 3);
    lemma_fundamental_div_mod(r4, 3);
    lemma_mod_bound(r4, 3);
}

/// Number of positions i < n whose tag in `m` is not `B` and whose guessed
/// letter is `c`: the present-or-correct marks charged to letter `c`.
pub open spec fn marked_count(g: Seq<u8>, m: Seq<CluePart>, c: u8, n: int) -> int
    decreases n,
{
    if n <= 0 {
        0
    } else {
        marked_count(g, m, c, n - 1) + if m[n - 1] != CluePart::B && g[n - 1] == c {
            1int
        } else {
            0int
        }
    }
}

/// Number of positions j < n consumed in `u` whose target letter is `c`.
pub open spec fn used_count(t: Seq<u8>, u: Seq<bool>, c: u8, n: int) -> int
    decreases n,
{
    if n <= 0 {
        0
    } else {
        used_count(t, u, c, n - 1) + if u[n - 1] && t[n - 1] == c {
            1int
        } else {
            0int
        }
    }
}

/// Number of positions j < n where the target holds letter `c`.
pub open spec fn letter_count(t: Seq<u8>, c: u8, n: int) -> int
    decreases n,
{
    if n <= 0 {
        0
    } else {
        letter_count(t, c, n - 1) + if t[n - 1] == c {
            1int
        } else {
            0int
        }
    }
}

proof fn lemma_used_le_letter(t: Seq<u8>, u: Seq<bool>, c: u8, n: int)
    ensures
        used_count(t, u, c, n) <= letter_count(t, c, n),
    decreases n,
{
    if n > 0 {
        lemma_used_le_letter(t, u, c, n - 1);
    }
}

proof fn lemma_pass1_counts(g: Seq<u8>, t: Seq<u8>, c: u8, n: int)
    requires
        n <= 5,
    ensures
        marked_count(g, pass1_outcome(g, t), c, n) == used_count(t, pass1_used(g, t), c, n),
    decreases n,
{
    if n > 0 {
        lemma_pass1_counts(g, t, c, n - 1);
    }
}

proof fn lemma_marked_update(g: Seq<u8>, m: Seq<CluePart>, c: u8, n: int, ix: int)
    requires
        0 <= ix < m.len(),
        n <= m.len(),
        m[ix] == CluePart::B,
    ensures
        marked_count(g, m.update(ix, CluePart::Y), c, n) == marked_count(g, m, c, n) + if ix < n
            && g[ix] == c {
            1int
        } else {
            0int
        },
    decreases n,
{
    if n > 0 {
        lemma_marked_update(g, m, c, n - 1, ix);
    }
}

proof fn lemma_used_update(t: Seq<u8>, u: Seq<bool>, c: u8, n: int, j: int)
    requires
        0 <= j < u.len(),
        n <= u.len(),
        !u[j],
    ensures
        used_count(t, u.update(j, true), c, n) == used_count(t, u, c, n) + if j < n && t[j] == c {
            1int
        } else {
            0int
        },
    decreases n,
{
    if n > 0 {
        lemma_used_update(t, u, c, n - 1, j);
    }
}

proof fn lemma_find_avail_hit(t: Seq<u8>, u: Seq<bool>, c: u8, j: int)
    requires
        0 <= j <= 5,
    ensures
        j <= find_avail(t, u, c, j) <= 5,
        find_avail(t, u, c, j) < 5 ==> !u[find_avail(t, u, c, j)] && t[find_avail(t, u, c, j)]
            == c,
    decreases 5 - j,
{
    if j < 5 {
        if !(!u[j] && t[j] == c) {
            lemma_find_avail_hit(t, u, c, j + 1);
        }
    }
}

proof fn lemma_pass2_counts(g: Seq<u8>, t: Seq<u8>, o: Seq<CluePart>, u: Seq<bool>, ix: int, c: u8)
    requires
        o.len() == 5,
        u.len() == 5,
        0 <= ix <= 5,
        forall|i: int| ix <= i < 5 ==> o[i] != CluePart::Y,
    ensures
        pass2(g, t, o, u, ix).0.len() == 5,
        pass2(g, t, o, u, ix).1.len() == 5,
        marked_count(g, pass2(g, t, o, u, ix).0, c, 5) - marked_count(g, o, c, 5) == used_count(
            t,
            pass2(g, t, o, u, ix).1,
            c,
            5,
        ) - used_count(t, u, c, 5),
    decreases 5 - ix,
{
    if ix < 5 {
        if o[ix] == CluePart::G {
            lemma_pass2_counts(g, t, o, u, ix + 1, c);
        } else {
            let j = find_avail(t, u, g[ix], 0);
            lemma_find_avail_hit(t, u, g[ix], 0);
            if j < 5 {
                let o2 = o.update(ix, CluePart::Y);
                let u2 = u.update(j, true);
                lemma_marked_update(g, o, c, 5, ix);
                lemma_used_update(t, u, c, 5, j);
                lemma_pass2_counts(g, t, o2, u2, ix + 1, c);
            } else {
                lemma_pass2_counts(g, t, o, u, ix + 1, c);
            }
        }
    }
}

proof fn lemma_pass2_preserves_g(g: Seq<u8>, t: Seq<u8>, o: Seq<CluePart>, u: Seq<bool>, ix: int)
    requires
        o.len() == 5,
        u.len() == 5,
        0 <= ix <= 5,
    ensures
        pass2(g, t, o, u, ix).0.len() == 5,
        forall|i: int|
            0 <= i < 5 ==> ((pass2(g, t, o, u, ix).0[i] == CluePart::G) <==> o[i] == CluePart::G),
    decreases 5 - ix,
{
    if ix < 5 {
        if o[ix] == CluePart::G {
            lemma_pass2_preserves_g(g, t, o, u, ix + 1);
            assert(pass2(g, t, o, u, ix) == pass2(g, t, o, u, ix + 1));
        } else {
            let j = find_avail(t, u, g[ix], 0);
            lemma_find_avail_hit(t, u, g[ix], 0);
            if j < 5 {
                let o2 = o.update(ix, CluePart::Y);
                let u2 = u.update(j, true);
                lemma_pass2_preserves_g(g, t, o2, u2, ix + 1);
                assert(pass2(g, t, o, u, ix) == pass2(g, t, o2, u2, ix + 1));
                assert forall|i: int|
                    0 <= i < 5 implies ((pass2(g, t, o, u, ix).0[i] == CluePart::G) <==> o[i]
                    == CluePart::G) by {
                    assert((pass2(g, t, o2, u2, ix + 1).0[i] == CluePart::G) <==> o2[i]
                        == CluePart::G);
                    if i == ix {
                        assert(o2[i] != CluePart::G && o[i] != CluePart::G);
                    } else {
                        assert(o2[i] == o[i]);
                    }
                }
            } else {
                lemma_pass2_preserves_g(g, t, o, u, ix + 1);
                assert(pass2(g, t, o, u, ix) == pass2(g, t, o, u, ix + 1));
            }
        }
    }
}

/// A clue holds a `G` exactly at the positions where the guessed letter
/// equals the target's letter.
pub proof fn lemma_correct_marks(g: Seq<u8>, t: Seq<u8>)
    requires
        g.len() == 5,
        t.len() == 5,
    ensures
        clue_of(g, t).len() == 5,
        forall|i: int| 0 <= i < 5 ==> ((clue_of(g, t)[i] == CluePart::G) <==> g[i] == t[i]),
{
    let o0 = pass1_outcome(g, t);
    let u0 = pass1_used(g, t);
    lemma_pass2_preserves_g(g, t, o0, u0, 0);
    assert forall|i: int|
        0 <= i < 5 implies ((clue_of(g, t)[i] == CluePart::G) <==> g[i] == t[i]) by {
        assert((pass2(g, t, o0, u0, 0).0[i] == CluePart::G) <==> o0[i] == CluePart::G);
        assert(o0[i] == (if g[i] == t[i] {
            CluePart::G
        } else {
            CluePart::B
        }));
    }
}

/// For every letter, the number of positions marked present or correct for
/// that letter never exceeds the letter's count in the target: each mark
/// consumes a distinct copy of the letter.
pub proof fn lemma_letter_budget(g: Seq<u8>, t: Seq<u8>, c: u8)
    requires
        g.len() == 5,
        t.len() == 5,
    ensures
        marked_count(g, clue_of(g, t), c, 5) <= letter_count(t, c, 5),
{
    let o0 = pass1_outcome(g, t);
    let u0 = pass1_used(g, t);
    assert(forall|i: int| 0 <= i < 5 ==> o0[i] != CluePart::Y);
    lemma_pass2_counts(g, t, o0, u0, 0, c);
    lemma_pass1_counts(g, t, c, 5);
    lemma_used_le_letter(t, pass2(g, t, o0, u0, 0).1, c, 5);
}

} // verus!
