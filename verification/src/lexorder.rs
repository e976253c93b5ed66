use vstd::prelude::*;
use vstd::relations::{sorted_by, total_ordering};
use vstd::multiset::Multiset;
use vstd::seq_lib::lemma_sorted_unique;

verus! {

/// Lexicographic order on character sequences, by code point: the canonical
/// order in which a node's dependencies enter its digest.
pub open spec fn lex_leq(a: Seq<char>, b: Seq<char>) -> bool
    decreases a.len(),
{
    if a.len() == 0 {
        true
    } else if b.len() == 0 {
        false
    } else if (a[0] as u32) < (b[0] as u32) {
        true
    } else if (b[0] as u32) < (a[0] as u32) {
        false
    } else {
        lex_leq(a.drop_first(), b.drop_first())
    }
}

/// `lex_leq` as a relation value, for the sequence-sorting functions.
pub open spec fn lexf() -> spec_fn(Seq<char>, Seq<char>) -> bool {
    |a: Seq<char>, b: Seq<char>| lex_leq(a, b)
}

pub proof fn lemma_lex_refl(a: Seq<char>)
    ensures
        lex_leq(a, a),
    decreases a.len(),
{
    if a.len() > 0 {
        lemma_lex_refl(a.drop_first());
    }
}

/// Two characters neither of which precedes the other are equal.
pub proof fn lemma_char_order_eq(c: char, d: char)
    requires
        !((c as u32) < (d as u32)),
        !((d as u32) < (c as u32)),
    ensures
        c == d,
{
}

pub proof fn lemma_lex_antisym(a: Seq<char>, b: Seq<char>)
    requires
        lex_leq(a, b),
        lex_leq(b, a),
    ensures
        a == b,
    decreases a.len(),
{
    if a.len() == 0 {
        assert(b.len() == 0);
        assert(a =~= b);
    } else {
        assert(b.len() > 0);
        if (a[0] as u32) < (b[0] as u32) {
            assert(!lex_leq(b, a));
        } else if (b[0] as u32) < (a[0] as u32) {
            assert(!lex_leq(a, b));
        } else {
            lemma_char_order_eq(a[0], b[0]);
            assert(a[0] == b[0]);
            lemma_lex_antisym(a.drop_first(), b.drop_first());
            assert(a =~= seq![a[0]] + a.drop_first());
            assert(b =~= seq![b[0]] + b.drop_first());
        }
    }
}

pub proof fn lemma_lex_connected(a: Seq<char>, b: Seq<char>)
    ensures
        lex_leq(a, b) || lex_leq(b, a),
    decreases a.len(),
{
    if a.len() > 0 && b.len() > 0 {
        lemma_lex_connected(a.drop_first(), b.drop_first());
    }
}

pub proof fn lemma_lex_trans(a: Seq<char>, b: Seq<char>, c: Seq<char>)
    requires
        lex_leq(a, b),
        lex_leq(b, c),
    ensures
        lex_leq(a, c),
    decreases a.len(),
{
    if a.len() > 0 && b.len() > 0 && c.len() > 0 {
        if (a[0] as u32) == (b[0] as u32) && (b[0] as u32) == (c[0] as u32) {
            lemma_lex_trans(a.drop_first(), b.drop_first(), c.drop_first());
        }
    }
}

/// Lexicographic order is a total order, so sorting by it has a unique result.
pub proof fn lemma_lex_total_ordering()
    ensures
        total_ordering(lexf()),
{
    assert forall|a: Seq<char>| #[trigger] lexf()(a, a) by {
        lemma_lex_refl(a);
    }
    assert forall|a: Seq<char>, b: Seq<char>| #[trigger] lexf()(a, b) && #[trigger] lexf()(b, a)
        implies a == b by {
        lemma_lex_antisym(a, b);
    }
    assert forall|a: Seq<char>, b: Seq<char>, c: Seq<char>|
        #[trigger] lexf()(a, b) && #[trigger] lexf()(b, c) implies lexf()(a, c) by {
        lemma_lex_trans(a, b, c);
    }
    assert forall|a: Seq<char>, b: Seq<char>| #[trigger] lexf()(a, b) || #[trigger] lexf()(b, a) by {
        lemma_lex_connected(a, b);
    }
}

/// If the first `i` characters agree, the order is decided by the suffixes.
proof fn lemma_lex_skip(a: Seq<char>, b: Seq<char>, i: int)
    requires
        0 <= i <= a.len(),
        0 <= i <= b.len(),
        forall|j: int| 0 <= j < i ==> a[j] == b[j],
    ensures
        lex_leq(a, b) == lex_leq(a.skip(i), b.skip(i)),
    decreases i,
{
    if i > 0 {
        assert(a.len() > 0 && b.len() > 0);
        assert(a[0] == b[0]);
        lemma_lex_skip(a.drop_first(), b.drop_first(), i - 1);
        assert(a.drop_first().skip(i - 1) =~= a.skip(i));
        assert(b.drop_first().skip(i - 1) =~= b.skip(i));
    } else {
        assert(a.skip(0) =~= a);
        assert(b.skip(0) =~= b);
    }
}

/// Executable lexicographic comparison of two ids.
pub fn str_lex_leq(a: &String, b: &String) -> (r: bool)
    ensures
        r == lex_leq(a@, b@),
{
    let alen = a.as_str().unicode_len();
    let blen = b.as_str().unicode_len();
    let mut i: usize = 0;
    loop
        invariant
            i <= alen,
            i <= blen,
            alen == a@.len(),
            blen == b@.len(),
            forall|j: int| 0 <= j < i ==> a@[j] == b@[j],
        decreases alen - i,
    {
        proof {
            lemma_lex_skip(a@, b@, i as int);
        }
        if i >= alen {
            assert(a@.skip(i as int).len() == 0);
            return true;
        }
        if i >= blen {
            assert(b@.skip(i as int).len() == 0);
            assert(a@.skip(i as int).len() > 0);
            return false;
        }
        let ca = a.as_str().get_char(i);
        let cb = b.as_str().get_char(i);
        assert(a@.skip(i as int)[0] == a@[i as int]);
        assert(b@.skip(i as int)[0] == b@[i as int]);
        if (ca as u32) < (cb as u32) {
            return true;
        }
        if (cb as u32) < (ca as u32) {
            return false;
        }
        proof {
            lemma_char_order_eq(ca, cb);
        }
        assert(ca == cb);
        i = i + 1;
    }
}

/// Sorts ids into the canonical lexicographic order; the unique sorted
/// permutation of the input.
pub fn sort_ids(v: &Vec<String>) -> (r: Vec<String>)
    ensures
        r.deep_view() == v.deep_view().sort_by(lexf()),
        r.deep_view().to_multiset() == v.deep_view().to_multiset(),
        sorted_by(r.deep_view(), lexf()),
{
    broadcast use vstd::seq_lib::group_to_multiset_ensures;

    let mut rem: Vec<String> = Vec::new();
    let mut k: usize = 0;
    while k < v.len()
        invariant
            k <= v.len(),
            rem.deep_view() == v.deep_view().take(k as int),
        decreases v.len() - k,
    {
        let ghost pre = rem.deep_view();
        rem.push(v[k].clone());
        proof {
            assert(rem.deep_view() =~= pre.push(v@[k as int]@));
            assert(v.deep_view()[k as int] == v@[k as int]@);
            assert(rem.deep_view() =~= v.deep_view().take(k as int + 1));
        }
        k = k + 1;
    }
    proof {
        assert(rem.deep_view() =~= v.deep_view());
    }
    let ghost full = v.deep_view();
    let mut out: Vec<String> = Vec::new();
    while rem.len() > 0
        invariant
            sorted_by(out.deep_view(), lexf()),
            out.deep_view().to_multiset().add(rem.deep_view().to_multiset())
                == full.to_multiset(),
            forall|x: int, y: int|
                0 <= x < out.deep_view().len() && 0 <= y < rem.deep_view().len() ==> lex_leq(
                    #[trigger] out.deep_view()[x],
                    #[trigger] rem.deep_view()[y],
                ),
        decreases rem.len(),
    {
        let mut m: usize = 0;
        let mut j: usize = 1;
        proof {
            lemma_lex_refl(rem.deep_view()[0]);
        }
        while j < rem.len()
            invariant
                m < j <= rem.len(),
                rem.len() > 0,
                forall|y: int| 0 <= y < j ==> lex_leq(rem.deep_view()[m as int], #[trigger] rem.deep_view()[y]),
            decreases rem.len() - j,
        {
            if !str_lex_leq(&rem[m], &rem[j]) {
                proof {
                    lemma_lex_connected(rem@[m as int]@, rem@[j as int]@);
                    assert forall|y: int| 0 <= y < j + 1 implies lex_leq(
                        rem.deep_view()[j as int],
                        #[trigger] rem.deep_view()[y],
                    ) by {
                        if y < j {
                            lemma_lex_trans(
                                rem.deep_view()[j as int],
                                rem.deep_view()[m as int],
                                rem.deep_view()[y],
                            );
                        } else {
                            lemma_lex_refl(rem.deep_view()[j as int]);
                        }
                    }
                }
                m = j;
            } else {
                proof {
                    lemma_lex_refl(rem.deep_view()[m as int]);
                }
            }
            j = j + 1;
        }
        proof {
            lemma_lex_refl(rem.deep_view()[m as int]);
        }
        let ghost old_out = out.deep_view();
        let ghost old_rem = rem.deep_view();
        let x = rem.remove(m);
        out.push(x);
        proof {
            broadcast use vstd::seq_lib::group_to_multiset_ensures;
            broadcast use vstd::multiset::group_multiset_axioms;

            assert(out.deep_view() =~= old_out.push(x@));
            assert(rem.deep_view() =~= old_rem.remove(m as int));
            assert(old_rem[m as int] == x@);
            assert(old_rem.contains(x@));
            assert(old_rem.to_multiset().count(x@) > 0);
            assert(old_out.push(x@).to_multiset() =~= old_out.to_multiset().insert(x@));
            assert(old_rem.remove(m as int).to_multiset() =~= old_rem.to_multiset().remove(x@));
            assert(out.deep_view().to_multiset() == old_out.to_multiset().insert(x@));
            assert(rem.deep_view().to_multiset() == old_rem.to_multiset().remove(x@));
            assert(out.deep_view().to_multiset().add(rem.deep_view().to_multiset()) =~= full.to_multiset());
            assert forall|p: int, q: int|
                0 <= p < q < out.deep_view().len() implies lexf()(
                #[trigger] out.deep_view()[p],
                #[trigger] out.deep_view()[q],
            ) by {
                if q < out.deep_view().len() - 1 {
                    assert(lexf()(old_out[p], old_out[q]));
                } else {
                    assert(out.deep_view()[q] == x@);
                    assert(lex_leq(old_out[p], old_rem[m as int]));
                    assert(lexf()(old_out[p], x@));
                }
            }
            assert forall|p: int, y: int|
                0 <= p < out.deep_view().len() && 0 <= y < rem.deep_view().len() implies lex_leq(
                #[trigger] out.deep_view()[p],
                #[trigger] rem.deep_view()[y],
            ) by {
                let z = rem.deep_view()[y];
                if y < m {
                    assert(old_rem[y] == z);
                } else {
                    assert(old_rem[y + 1] == z);
                }
                if p == out.deep_view().len() - 1 {
                    assert(lex_leq(x@, z));
                } else {
                    assert(lex_leq(old_out[p], z));
                }
            }
        }
    }
    proof {
        lemma_lex_total_ordering();
        full.lemma_sort_by_ensures(lexf());
        assert(rem.deep_view().to_multiset() =~= Multiset::<Seq<char>>::empty());
        assert(out.deep_view().to_multiset() =~= full.to_multiset());
        lemma_sorted_unique(out.deep_view(), full.sort_by(lexf()), lexf());
    }
    out
}

} // verus!
