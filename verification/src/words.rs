use vstd::prelude::*;

verus! {

/// The chars a five-letter word's ASCII bytes denote, one char per byte.
pub open spec fn word_chars(w: Seq<u8>) -> Seq<char> {
    Seq::new(w.len(), |i: int| w[i] as char)
}

/// An immutable, densely indexed list of fixed-length words, supplied by
/// the collaborator that loads it. Indexes must fit in sixteen bits so a
/// word index can live in a `u16` candidate set.
pub struct Dictionary {
    words: Vec<[u8; 5]>,
}

impl View for Dictionary {
    type V = Seq<[u8; 5]>;

    closed spec fn view(&self) -> Seq<[u8; 5]> {
        self.words@
    }
}

impl Dictionary {
    /// Every byte is ASCII and every index fits in sixteen bits.
    pub open spec fn wf(&self) -> bool {
        &&& self@.len() <= 0x10000
        &&& forall|w: int, i: int| 0 <= w < self@.len() && 0 <= i < 5 ==> self@[w]@[i] < 128
    }

    /// Wraps a word list. Rejected (construction failure) when the list is
    /// too long for sixteen-bit indexes or some byte is not ASCII.
    pub fn new(words: Vec<[u8; 5]>) -> (r: Option<Dictionary>)
        ensures
            match r {
                Some(d) => d.wf() && d@ == words@,
                None => !(words@.len() <= 0x10000 && forall|w: int, i: int|
                    0 <= w < words@.len() && 0 <= i < 5 ==> words@[w]@[i] < 128),
            },
    {
        if words.len() > 0x10000 {
            return None;
        }
        let mut w: usize = 0;
        while w < words.len()
            invariant
                0 <= w <= words@.len(),
                forall|k: int, i: int| 0 <= k < w && 0 <= i < 5 ==> words@[k]@[i] < 128,
            decreases words@.len() - w,
        {
            let word = words[w];
            let mut i: usize = 0;
            while i < 5
                invariant
                    0 <= i <= 5,
                    word == words@[w as int],
                    w < words@.len(),
                    forall|k: int| 0 <= k < i ==> word@[k] < 128,
                decreases 5 - i,
            {
                if word[i] >= 128 {
                    return None;
                }
                i += 1;
            }
            w += 1;
        }
        Some(Dictionary { words })
    }

    /// Number of words.
    pub fn word_count(&self) -> (n: usize)
        ensures
            n == self@.len(),
    {
        self.words.len()
    }
}

/// The bytes of the word at `word_index`.
pub fn get_word_bytes(dict: &Dictionary, word_index: usize) -> (r: [u8; 5])
    requires
        word_index < dict@.len(),
    ensures
        r == dict@[word_index as int],
{
    dict.words[word_index]
}

/// Relies on String::from_utf8: a vector of ASCII bytes is valid UTF-8 and
/// decodes to one char per byte.
#[verifier::external_body]
fn ascii_bytes_to_string(b: &[u8; 5]) -> (r: String)
    requires
        forall|i: int| 0 <= i < 5 ==> b@[i] < 128,
    ensures
        r@ == word_chars(b@),
{
    String::from_utf8(b.to_vec()).unwrap()
}

/// The word at `word_index` as text.
pub fn get_word_string(dict: &Dictionary, word_index: usize) -> (r: String)
    requires
        dict.wf(),
        word_index < dict@.len(),
    ensures
        r@ == word_chars(dict@[word_index as int]@),
{
    let b = get_word_bytes(dict, word_index);
    ascii_bytes_to_string(&b)
}

/// The unrestricted answer pool: every index of a dictionary of
/// `word_count` words, in increasing order.
pub fn full_pool(word_count: usize) -> (r: Vec<u16>)
    requires
        word_count <= 0x10000,
    ensures
        crate::sets::sorted(r@),
        r@.len() == word_count,
        forall|i: int| 0 <= i < word_count ==> #[trigger] r@[i] == i as u16,
{
    let mut r: Vec<u16> = Vec::new();
    let mut k: usize = 0;
    while k < word_count
        invariant
            0 <= k <= word_count,
            word_count <= 0x10000,
            r@.len() == k,
            forall|i: int| 0 <= i < k ==> #[trigger] r@[i] == i as u16,
        decreases word_count - k,
    {
        r.push(k as u16);
        k += 1;
    }
    proof {
        assert forall|i: int, j: int| 0 <= i < j < r@.len() implies r@[i] < r@[j] by {
            assert(r@[i] == i as u16 && r@[j] == j as u16);
        }
    }
    r
}

/// Whether two words hold the same letters.
pub fn words_equal(a: [u8; 5], b: [u8; 5]) -> (r: bool)
    ensures
        r == (a@ == b@),
{
    let r = a[0] == b[0] && a[1] == b[1] && a[2] == b[2] && a[3] == b[3] && a[4] == b[4];
    proof {
        if r {
            assert(a@ =~= b@);
        }
    }
    r
}

/// The first index whose word reads as `w`, or `None` when no word does:
/// an unknown word is reported, never guessed around.
pub fn get_word_index(dict: &Dictionary, w: String) -> (r: Option<usize>)
    requires
        dict.wf(),
    ensures
        match r {
            Some(ix) => ix < dict@.len() && word_chars(dict@[ix as int]@) == w@ && forall|j: int|
                0 <= j < ix ==> word_chars(dict@[j]@) != w@,
            None => forall|j: int| 0 <= j < dict@.len() ==> word_chars(dict@[j]@) != w@,
        },
{
    let s = w.as_str();
    let n = s.unicode_len();
    if n != 5 {
        proof {
            assert forall|j: int| 0 <= j < dict@.len() implies word_chars(dict@[j]@) != w@ by {
                assert(word_chars(dict@[j]@).len() == 5);
            }
        }
        return None;
    }
    let c0 = s.get_char(0);
    let c1 = s.get_char(1);
    let c2 = s.get_char(2);
    let c3 = s.get_char(3);
    let c4 = s.get_char(4);
    let mut ix: usize = 0;
    while ix < dict.word_count()
        invariant
            dict.wf(),
            0 <= ix <= dict@.len(),
            w@.len() == 5,
            c0 == w@[0] && c1 == w@[1] && c2 == w@[2] && c3 == w@[3] && c4 == w@[4],
            forall|j: int| 0 <= j < ix ==> word_chars(dict@[j]@) != w@,
        decreases dict@.len() - ix,
    {
        let b = get_word_bytes(dict, ix);
        if b[0] as char == c0 && b[1] as char == c1 && b[2] as char == c2 && b[3] as char == c3
            && b[4] as char == c4 {
            proof {
                assert(word_chars(dict@[ix as int]@) =~= w@);
            }
            return Some(ix);
        }
        proof {
            assert(word_chars(dict@[ix as int]@) != w@) by {
                if word_chars(dict@[ix as int]@) == w@ {
                    assert(word_chars(dict@[ix as int]@)[0] == dict@[ix as int]@[0] as char);
                    assert(word_chars(dict@[ix as int]@)[1] == dict@[ix as int]@[1] as char);
                    assert(word_chars(dict@[ix as int]@)[2] == dict@[ix as int]@[2] as char);
                    assert(word_chars(dict@[ix as int]@)[3] == dict@[ix as int]@[3] as char);
                    assert(word_chars(dict@[ix as int]@)[4] == dict@[ix as int]@[4] as char);
                }
            }
        }
        ix += 1;
    }
    None
}

/// Whether `w` resolves to a dictionary word whose index the answer pool
/// holds: only such a word can be a hidden target.
pub fn is_valid_word(dict: &Dictionary, pool: &Vec<u16>, w: String) -> (r: bool)
    requires
        dict.wf(),
    ensures
        r == exists|ix: int|
            0 <= ix < dict@.len() && word_chars(#[trigger] dict@[ix]@) == w@ && (forall|j: int|
                0 <= j < ix ==> word_chars(dict@[j]@) != w@) && pool@.contains(ix as u16),
{
    match get_word_index(dict, w) {
        Some(ix) => {
            let hit = crate::sets::set_contains(pool, ix as u16);
            proof {
                if hit {
                    assert(0 <= ix < dict@.len() && word_chars(dict@[ix as int]@) == w@ && (
                    forall|j: int| 0 <= j < ix ==> word_chars(dict@[j]@) != w@) && pool@.contains(
                        ix as u16,
                    ));
                } else {
                    assert forall|k: int|
                        !(0 <= k < dict@.len() && word_chars(#[trigger] dict@[k]@) == w@ && (
                        forall|j: int| 0 <= j < k ==> word_chars(dict@[j]@) != w@)
                            && pool@.contains(k as u16)) by {
                        if 0 <= k < dict@.len() && word_chars(dict@[k]@) == w@ && (forall|j: int|
                            0 <= j < k ==> word_chars(dict@[j]@) != w@) {
                            assert(k == ix);
                        }
                    }
                }
            }
            hit
        },
        None => false,
    }
}

} // verus!
