//! Device identities and the sorted roster that indexes a ceremony.
use vstd::prelude::*;
use vstd::slice::slice_to_vec;

verus! {

/// The identities held by a list of byte vectors.
pub open spec fn ids_view(s: Seq<Vec<u8>>) -> Seq<Seq<u8>> {
    s.map_values(|v: Vec<u8>| v@)
}

/// Lexicographic order on byte strings, the order of `Ord` on `Vec<u8>`.
pub open spec fn lex_le(a: Seq<u8>, b: Seq<u8>) -> bool
    decreases a.len(),
{
    if a.len() == 0 {
        true
    } else if b.len() == 0 {
        false
    } else if a[0] != b[0] {
        a[0] < b[0]
    } else {
        lex_le(a.drop_first(), b.drop_first())
    }
}

/// `s` is in ascending lexicographic order.
pub open spec fn sorted(s: Seq<Seq<u8>>) -> bool {
    forall|i: int, j: int| 0 <= i < j < s.len() ==> lex_le(#[trigger] s[i], #[trigger] s[j])
}

/// Relies on `<[Vec<u8>]>::sort` of std: the slice is permuted into
/// ascending order of `Ord`, which for `Vec<u8>` is lexicographic.
#[verifier::external_body]
fn sort_ids(v: &mut Vec<Vec<u8>>)
    ensures
        final(v).deep_view().to_multiset() == old(v).deep_view().to_multiset(),
        sorted(final(v).deep_view()),
{
    v.sort()
}

/// Whether two byte strings are equal.
pub fn bytes_eq(a: &[u8], b: &[u8]) -> (r: bool)
    ensures
        r == (a@ == b@),
{
    if a.len() != b.len() {
        return false;
    }
    for i in 0..a.len()
        invariant
            a@.len() == b@.len(),
            forall|j: int| 0 <= j < i ==> a@[j] == b@[j],
    {
        if a[i] != b[i] {
            return false;
        }
    }
    assert(a@ =~= b@);
    true
}

/// The position of the first occurrence of `d` in `ids`.
pub fn index_of(ids: &Vec<Vec<u8>>, d: &[u8]) -> (r: Option<usize>)
    ensures
        match r {
            Some(i) => i < ids@.len() && ids.deep_view()[i as int] == d@ && forall|j: int|
                0 <= j < i ==> ids.deep_view()[j] != d@,
            None => !ids.deep_view().contains(d@),
        },
{
    for i in 0..ids.len()
        invariant
            forall|j: int| 0 <= j < i ==> ids.deep_view()[j] != d@,
    {
        assert(ids.deep_view()[i as int] =~= ids[i as int]@);
        if bytes_eq(ids[i].as_slice(), d) {
            return Some(i);
        }
    }
    None
}

/// Whether `d` occurs in `ids`.
pub fn contains_id(ids: &Vec<Vec<u8>>, d: &[u8]) -> (r: bool)
    ensures
        r == ids.deep_view().contains(d@),
{
    index_of(ids, d).is_some()
}

/// A copy of `ids` in ascending order: the same identities, as many times.
pub fn sorted_copy(ids: &[Vec<u8>]) -> (r: Vec<Vec<u8>>)
    ensures
        r.deep_view().to_multiset() == ids_view(ids@).to_multiset(),
        sorted(r.deep_view()),
{
    let mut out: Vec<Vec<u8>> = Vec::new();
    for i in 0..ids.len()
        invariant
            out@.len() == i,
            out.deep_view() == ids_view(ids@).take(i as int),
    {
        let v: Vec<u8> = slice_to_vec(ids[i].as_slice());
        assert(v@ == ids@[i as int]@);
        out.push(v);
        assert(out.deep_view()[i as int] =~= ids@[i as int]@);
        assert(out.deep_view() =~= ids_view(ids@).take(i + 1));
    }
    assert(ids_view(ids@).take(ids@.len() as int) =~= ids_view(ids@));
    sort_ids(&mut out);
    out
}

/// The same identities, as many times each, occur in both lists: so the
/// one is free of repeats exactly when the other is.
pub proof fn lemma_same_multiset_no_duplicates(a: Seq<Seq<u8>>, b: Seq<Seq<u8>>)
    requires
        a.to_multiset() == b.to_multiset(),
        a.no_duplicates(),
    ensures
        b.no_duplicates(),
{
    a.lemma_multiset_has_no_duplicates();
    b.lemma_multiset_has_no_duplicates_conv();
}

/// Lists with the same identities hold the same members.
pub proof fn lemma_same_multiset_contains(a: Seq<Seq<u8>>, b: Seq<Seq<u8>>, d: Seq<u8>)
    requires
        a.to_multiset() == b.to_multiset(),
    ensures
        a.contains(d) == b.contains(d),
{
    vstd::seq_lib::to_multiset_contains(a, d);
    vstd::seq_lib::to_multiset_contains(b, d);
}

} // verus!
