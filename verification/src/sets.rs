use vstd::prelude::*;
use vstd::seq_lib::lemma_seq_contains;
use vstd::set_lib::lemma_len_subset;

verus! {

/// A strictly increasing sequence of word indexes: the canonical
/// representation of a finite set, unique per set of elements.
pub open spec fn sorted(s: Seq<u16>) -> bool {
    forall|i: int, j: int| 0 <= i < j < s.len() ==> s[i] < s[j]
}

/// Whether `v` holds `x`, by linear scan.
pub fn set_contains(v: &Vec<u16>, x: u16) -> (r: bool)
    ensures
        r == v@.contains(x),
{
    let mut k: usize = 0;
    while k < v.len()
        invariant
            0 <= k <= v@.len(),
            forall|i: int| 0 <= i < k ==> v@[i] != x,
        decreases v@.len() - k,
    {
        if v[k] == x {
            return true;
        }
        k += 1;
    }
    false
}

/// The elements of `a` that `b` also holds, in `a`'s order. Keeps `a`'s
/// sortedness, so on canonical sets it returns the canonical intersection.
pub fn intersect(a: &Vec<u16>, b: &Vec<u16>) -> (r: Vec<u16>)
    ensures
        forall|x: u16| r@.contains(x) <==> (a@.contains(x) && b@.contains(x)),
        sorted(a@) ==> sorted(r@),
        r@.len() <= a@.len(),
{
    let mut r: Vec<u16> = Vec::new();
    let mut k: usize = 0;
    while k < a.len()
        invariant
            0 <= k <= a@.len(),
            r@.len() <= k,
            forall|i: int|
                0 <= i < r@.len() ==> b@.contains(#[trigger] r@[i]) && exists|j: int|
                    0 <= j < k && a@[j] == r@[i],
            forall|j: int| 0 <= j < k && b@.contains(#[trigger] a@[j]) ==> r@.contains(a@[j]),
            sorted(a@) ==> sorted(r@),
        decreases a@.len() - k,
    {
        let x = a[k];
        if set_contains(b, x) {
            proof {
                if sorted(a@) {
                    assert forall|i: int| 0 <= i < r@.len() implies r@[i] < x by {
                        let j = choose|j: int| 0 <= j < k && a@[j] == r@[i];
                        assert(a@[j] < a@[k as int]);
                    }
                }
            }
            let ghost r0 = r@;
            r.push(x);
            proof {
                assert forall|j: int|
                    0 <= j < k + 1 && b@.contains(#[trigger] a@[j]) implies r@.contains(a@[j]) by {
                    if j < k {
                        lemma_seq_contains(r0, a@[j]);
                        let i = choose|i: int| 0 <= i < r0.len() && r0[i] == a@[j];
                        assert(r@[i] == a@[j]);
                    } else {
                        assert(r@[r@.len() - 1] == x);
                    }
                }
            }
        }
        k += 1;
    }
    proof {
        assert forall|x: u16| a@.contains(x) && b@.contains(x) implies r@.contains(x) by {
            lemma_seq_contains(a@, x);
            let j = choose|j: int| 0 <= j < a@.len() && a@[j] == x;
            assert(r@.contains(a@[j]));
        }
        assert forall|x: u16| r@.contains(x) implies a@.contains(x) && b@.contains(x) by {
            lemma_seq_contains(r@, x);
            let i = choose|i: int| 0 <= i < r@.len() && r@[i] == x;
            let j = choose|j: int| 0 <= j < a@.len() && a@[j] == r@[i];
            assert(a@[j] == x);
        }
    }
    r
}

/// A strictly increasing sequence has no repeated elements.
pub proof fn lemma_sorted_no_duplicates(s: Seq<u16>)
    requires
        sorted(s),
    ensures
        s.no_duplicates(),
{
}

/// Among strictly increasing sequences, containment of elements bounds the
/// length: a set never outgrows a superset.
pub proof fn lemma_sorted_subset_len(a: Seq<u16>, b: Seq<u16>)
    requires
        sorted(a),
        sorted(b),
        forall|x: u16| a.contains(x) ==> b.contains(x),
    ensures
        a.len() <= b.len(),
{
    lemma_sorted_no_duplicates(a);
    lemma_sorted_no_duplicates(b);
    a.unique_seq_to_set();
    b.unique_seq_to_set();
    assert(a.to_set().subset_of(b.to_set()));
    vstd::seq_lib::seq_to_set_is_finite(b);
    lemma_len_subset(a.to_set(), b.to_set());
}

proof fn lemma_sorted_index_lb(s: Seq<u16>, i: int)
    requires
        sorted(s),
        0 <= i < s.len(),
    ensures
        s[i] >= i,
    decreases i,
{
    if i > 0 {
        lemma_sorted_index_lb(s, i - 1);
        assert(s[i - 1] < s[i]);
    }
}

/// A strictly increasing sequence of sixteen-bit values cannot hold more
/// than 2^16 elements.
pub proof fn lemma_sorted_len_bound(s: Seq<u16>)
    requires
        sorted(s),
    ensures
        s.len() <= 0x10000,
{
    if s.len() > 0x10000 {
        lemma_sorted_index_lb(s, 0x10000);
    }
}

/// Filtering a strictly increasing sequence keeps it strictly increasing,
/// and keeps exactly the elements that pass the test.
pub proof fn lemma_filter_sorted(s: Seq<u16>, p: spec_fn(u16) -> bool)
    requires
        sorted(s),
    ensures
        sorted(s.filter(p)),
        forall|x: u16| s.filter(p).contains(x) <==> (s.contains(x) && p(x)),
    decreases s.len(),
{
    reveal(Seq::filter);
    assert forall|x: u16| s.filter(p).contains(x) implies s.contains(x) && p(x) by {
        s.lemma_filter_contains_rev(p, x);
        let i = choose|i: int| 0 <= i < s.filter(p).len() && s.filter(p)[i] == x;
        s.lemma_filter_pred(p, i);
    }
    assert forall|x: u16| s.contains(x) && p(x) implies s.filter(p).contains(x) by {
        let i = choose|i: int| 0 <= i < s.len() && s[i] == x;
        s.lemma_filter_contains(p, i);
    }
    if s.len() > 0 {
        let rest = s.drop_last();
        assert(sorted(rest)) by {
            assert forall|i: int, j: int| 0 <= i < j < rest.len() implies rest[i] < rest[j] by {
                assert(rest[i] == s[i] && rest[j] == s[j]);
            }
        }
        lemma_filter_sorted(rest, p);
        let fr = rest.filter(p);
        if p(s.last()) {
            assert(s.filter(p) == fr.push(s.last()));
            assert forall|i: int| 0 <= i < fr.len() implies fr[i] < s.last() by {
                assert(fr.contains(fr[i]));
                assert(rest.contains(fr[i]));
                let j = choose|j: int| 0 <= j < rest.len() && rest[j] == fr[i];
                assert(s[j] == rest[j]);
                assert(s[j] < s[s.len() - 1]);
            }
            assert forall|i: int, j: int|
                0 <= i < j < s.filter(p).len() implies s.filter(p)[i] < s.filter(p)[j] by {
                if j < fr.len() {
                    assert(s.filter(p)[i] == fr[i] && s.filter(p)[j] == fr[j]);
                } else {
                    assert(s.filter(p)[i] == fr[i] && s.filter(p)[j] == s.last());
                }
            }
        } else {
            assert(s.filter(p) == fr);
        }
    }
}

/// A set that fits inside another of the same size is that set: the two
/// strictly increasing sequences are equal.
pub proof fn lemma_subset_same_len_equal(a: Seq<u16>, b: Seq<u16>)
    requires
        sorted(a),
        sorted(b),
        forall|x: u16| a.contains(x) ==> b.contains(x),
        a.len() == b.len(),
    ensures
        a == b,
{
    lemma_sorted_no_duplicates(a);
    lemma_sorted_no_duplicates(b);
    a.unique_seq_to_set();
    b.unique_seq_to_set();
    vstd::seq_lib::seq_to_set_is_finite(b);
    assert forall|x: u16| b.contains(x) implies a.contains(x) by {
        if !a.contains(x) {
            assert(a.to_set().subset_of(b.to_set().remove(x)));
            assert(b.to_set().contains(x));
            assert(b.to_set().remove(x).len() == b.to_set().len() - 1);
            lemma_len_subset(a.to_set(), b.to_set().remove(x));
        }
    }
    lemma_sorted_canonical(a, b);
}

/// Strictly increasing sequences are canonical: two of them holding the
/// same elements are the same sequence.
pub proof fn lemma_sorted_canonical(a: Seq<u16>, b: Seq<u16>)
    requires
        sorted(a),
        sorted(b),
        forall|x: u16| a.contains(x) <==> b.contains(x),
    ensures
        a == b,
    decreases a.len(),
{
    if a.len() == 0 {
        if b.len() > 0 {
            assert(b.contains(b[0]));
            assert(a.contains(b[0]));
        }
        assert(a =~= b);
    } else {
        assert(a.contains(a[0]));
        assert(b.contains(a[0]));
        lemma_seq_contains(b, a[0]);
        let jb = choose|j: int| 0 <= j < b.len() && b[j] == a[0];
        assert(b.contains(b[0]));
        assert(a.contains(b[0]));
        lemma_seq_contains(a, b[0]);
        let ja = choose|j: int| 0 <= j < a.len() && a[j] == b[0];
        assert(a[0] == b[0]) by {
            if jb > 0 {
                assert(b[0] < b[jb]);
            }
            if ja > 0 {
                assert(a[0] < a[ja]);
            }
        }
        let a1 = a.drop_first();
        let b1 = b.drop_first();
        assert forall|x: u16| a1.contains(x) implies b1.contains(x) by {
            lemma_seq_contains(a1, x);
            let i = choose|i: int| 0 <= i < a1.len() && a1[i] == x;
            assert(a[i + 1] == x);
            assert(a.contains(x));
            assert(b.contains(x));
            lemma_seq_contains(b, x);
            let j = choose|j: int| 0 <= j < b.len() && b[j] == x;
            assert(a[0] < a[i + 1]);
            assert(j != 0);
            assert(b1[j - 1] == x);
            assert(b1.contains(x));
        }
        assert forall|x: u16| b1.contains(x) implies a1.contains(x) by {
            lemma_seq_contains(b1, x);
            let i = choose|i: int| 0 <= i < b1.len() && b1[i] == x;
            assert(b[i + 1] == x);
            assert(b.contains(x));
            assert(a.contains(x));
            lemma_seq_contains(a, x);
            let j = choose|j: int| 0 <= j < a.len() && a[j] == x;
            assert(b[0] < b[i + 1]);
            assert(j != 0);
            assert(a1[j - 1] == x);
            assert(a1.contains(x));
        }
        lemma_sorted_canonical(a1, b1);
        assert(a.len() == b.len());
        assert forall|i: int| 0 <= i < a.len() implies a[i] == b[i] by {
            if i > 0 {
                assert(a1[i - 1] == a[i]);
                assert(b1[i - 1] == b[i]);
            }
        }
        assert(a =~= b);
    }
}

} // verus!
