//! Identifier lists: ordering, canonical (sorted, unique) form and membership.
use vstd::prelude::*;

verus! {

/// Lexicographic order on identifiers, by code point; this is the order of
/// `String`'s `Ord` (UTF-8 keeps code point order byte by byte).
pub open spec fn id_le(a: Seq<char>, b: Seq<char>) -> bool
    decreases a.len(),
{
    if a.len() == 0 {
        true
    } else if b.len() == 0 {
        false
    } else if a[0] != b[0] {
        (a[0] as u32) < (b[0] as u32)
    } else {
        id_le(a.drop_first(), b.drop_first())
    }
}

/// Strictly increasing identifiers: sorted, and no identifier twice.
pub open spec fn strictly_sorted(v: Seq<String>) -> bool {
    forall|i: int, j: int|
        0 <= i < j < v.len() ==> #[trigger] id_le(v[i]@, v[j]@) && v[i]@ != v[j]@
}

/// Sorted, duplicates allowed.
pub open spec fn sorted(v: Seq<String>) -> bool {
    forall|i: int, j: int| 0 <= i < j < v.len() ==> #[trigger] id_le(v[i]@, v[j]@)
}

/// The identifiers that a list holds.
pub open spec fn id_set(v: Seq<String>) -> Set<Seq<char>> {
    Set::new(|x: Seq<char>| exists|i: int| 0 <= i < v.len() && v[i]@ == x)
}

/// The identifiers held by a list, in the canonical form used for every
/// identifier list this library returns: strictly sorted.
pub open spec fn canonical(v: Seq<String>, s: Set<Seq<char>>) -> bool {
    strictly_sorted(v) && id_set(v) == s
}

pub proof fn lemma_id_le_antisymmetric(a: Seq<char>, b: Seq<char>)
    requires
        id_le(a, b),
        id_le(b, a),
    ensures
        a == b,
    decreases a.len(),
{
    if a.len() > 0 && b.len() > 0 && a[0] == b[0] {
        lemma_id_le_antisymmetric(a.drop_first(), b.drop_first());
        assert(a =~= seq![a[0]] + a.drop_first());
        assert(b =~= seq![b[0]] + b.drop_first());
    } else if a.len() == 0 {
        assert(b.len() == 0);
        assert(a =~= b);
    }
}

/// Relies on `slice::sort`: it permutes the elements into `Ord` order.
#[verifier::external_body]
fn sort_strings(v: &mut Vec<String>)
    ensures
        final(v)@.to_multiset() == old(v)@.to_multiset(),
        sorted(final(v)@),
{
    v.sort();
}

/// Relies on `char::to_string`: the one-character string of `c`.
#[verifier::external_body]
pub(crate) fn char_string(c: char) -> (r: String)
    ensures
        r@ == seq![c],
{
    c.to_string()
}

/// Whether `v` holds `id`.
pub fn contains_id(v: &Vec<String>, id: &String) -> (r: bool)
    ensures
        r == id_set(v@).contains(id@),
{
    let mut i: usize = 0;
    while i < v.len()
        invariant
            i <= v@.len(),
            forall|j: int| 0 <= j < i ==> v@[j]@ != id@,
        decreases v@.len() - i,
    {
        if v[i] == *id {
            assert(id_set(v@).contains(id@)) by {
                assert(v@[i as int]@ == id@);
            }
            return true;
        }
        i = i + 1;
    }
    false
}

proof fn lemma_multiset_member<T>(a: Seq<T>, b: Seq<T>, x: T)
    requires
        a.to_multiset() == b.to_multiset(),
    ensures
        a.contains(x) <==> b.contains(x),
{
    vstd::seq_lib::to_multiset_contains(a, x);
    vstd::seq_lib::to_multiset_contains(b, x);
}

/// Drops adjacent repetitions from a sorted list.
fn dedup_sorted(v: &Vec<String>) -> (r: Vec<String>)
    requires
        sorted(v@),
    ensures
        canonical(r@, id_set(v@)),
{
    let mut out: Vec<String> = Vec::new();
    let mut i: usize = 0;
    while i < v.len()
        invariant
            i <= v@.len(),
            sorted(v@),
            strictly_sorted(out@),
            forall|k: int|
                0 <= k < out@.len() ==> exists|j: int| 0 <= j < i && v@[j]@ == #[trigger] out@[k]@,
            forall|j: int| 0 <= j < i ==> id_set(out@).contains(#[trigger] v@[j]@),
            id_set(out@).subset_of(id_set(v@)),
            i > 0 ==> out@.len() > 0 && out@.last()@ == v@[i - 1]@,
        decreases v@.len() - i,
    {
        let x = &v[i];
        let fresh = out.len() == 0 || out[out.len() - 1] != *x;
        if fresh {
            proof {
                assert forall|k: int| 0 <= k < out@.len() implies id_le(out@[k]@, x@) && out@[k]@
                    != x@ by {
                    let j = choose|j: int| 0 <= j < i && v@[j]@ == out@[k]@;
                    assert(id_le(v@[j]@, v@[i as int]@));
                    if out@[k]@ == x@ {
                        let last = out@.len() - 1;
                        if k < last {
                            assert(id_le(out@[k]@, out@[last]@));
                            assert(id_le(out@[last]@, v@[i as int]@)) by {
                                assert(id_le(v@[i - 1]@, v@[i as int]@));
                            }
                            lemma_id_le_antisymmetric(out@[k]@, out@[last]@);
                        }
                    }
                }
            }
            let ghost prev = out@;
            out.push(x.clone());
            proof {
                assert forall|k: int|
                    0 <= k < out@.len() implies exists|j: int|
                    0 <= j < i + 1 && v@[j]@ == #[trigger] out@[k]@ by {
                    if k < out@.len() - 1 {
                        let j = choose|j: int| 0 <= j < i && v@[j]@ == out@[k]@;
                        assert(v@[j]@ == out@[k]@);
                    } else {
                        assert(v@[i as int]@ == out@[k]@);
                    }
                }
                assert forall|j: int| 0 <= j < i + 1 implies id_set(out@).contains(
                    #[trigger] v@[j]@,
                ) by {
                    if j < i {
                        assert(id_set(prev).contains(v@[j]@));
                        let k = choose|k: int| 0 <= k < prev.len() && prev[k]@ == v@[j]@;
                        assert(out@[k]@ == v@[j]@);
                    } else {
                        assert(out@[out@.len() - 1]@ == v@[j]@);
                    }
                }
                assert(id_set(v@).contains(x@)) by {
                    assert(v@[i as int]@ == x@);
                }
                assert forall|y| id_set(out@).contains(y) implies id_set(v@).contains(y) by {
                    let k = choose|k: int| 0 <= k < out@.len() && out@[k]@ == y;
                    if k < out@.len() - 1 {
                        assert(id_set(prev).contains(y)) by {
                            assert(prev[k]@ == y);
                        }
                    }
                }
            }
        } else {
            proof {
                assert forall|j: int| 0 <= j < i + 1 implies id_set(out@).contains(
                    #[trigger] v@[j]@,
                ) by {
                    if j == i {
                        assert(out@[out@.len() - 1]@ == v@[j]@);
                    }
                }
            }
        }
        i = i + 1;
    }
    proof {
        assert(id_set(out@) =~= id_set(v@)) by {
            assert forall|y| id_set(v@).contains(y) implies id_set(out@).contains(y) by {
                let j = choose|j: int| 0 <= j < v@.len() && v@[j]@ == y;
                assert(id_set(out@).contains(v@[j]@));
            }
        }
    }
    out
}

/// The identifiers of `v`, sorted, each once.
pub fn canonicalize(v: Vec<String>) -> (r: Vec<String>)
    ensures
        canonical(r@, id_set(v@)),
{
    let ghost before = v@;
    let mut v = v;
    sort_strings(&mut v);
    proof {
        assert(id_set(v@) =~= id_set(before)) by {
            assert forall|y| id_set(v@).contains(y) <==> id_set(before).contains(y) by {
                if id_set(v@).contains(y) {
                    let i = choose|i: int| 0 <= i < v@.len() && v@[i]@ == y;
                    lemma_multiset_member(v@, before, v@[i]);
                    let j = choose|j: int| 0 <= j < before.len() && before[j] == v@[i];
                    assert(before[j]@ == y);
                }
                if id_set(before).contains(y) {
                    let i = choose|i: int| 0 <= i < before.len() && before[i]@ == y;
                    lemma_multiset_member(v@, before, before[i]);
                    let j = choose|j: int| 0 <= j < v@.len() && v@[j] == before[i];
                    assert(v@[j]@ == y);
                }
            }
        }
    }
    dedup_sorted(&v)
}

} // verus!
