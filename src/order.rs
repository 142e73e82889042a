//! Byte-wise lexicographic order on file names, and the ascending listing of
//! a set of names.
use vstd::prelude::*;
use vstd::seq_lib::seq_to_set_is_finite;

verus! {

/// `a` comes no later than `b` in byte-wise lexicographic order, the order
/// in which paths of one directory sort.
pub open spec fn lex_le(a: Seq<u8>, b: Seq<u8>) -> bool
    decreases a.len(),
{
    if a.len() == 0 {
        true
    } else if b.len() == 0 {
        false
    } else if a[0] != b[0] {
        a[0] < b[0]
    } else {
        lex_le(a.drop_first(), b.drop_first())
    }
}

pub proof fn lemma_lex_total(a: Seq<u8>, b: Seq<u8>)
    ensures
        lex_le(a, b) || lex_le(b, a),
    decreases a.len(),
{
    if a.len() > 0 && b.len() > 0 && a[0] == b[0] {
        lemma_lex_total(a.drop_first(), b.drop_first());
    }
}

pub proof fn lemma_lex_antisymmetric(a: Seq<u8>, b: Seq<u8>)
    requires
        lex_le(a, b),
        lex_le(b, a),
    ensures
        a == b,
    decreases a.len(),
{
    if a.len() == 0 {
        assert(a =~= b);
    } else {
        lemma_lex_antisymmetric(a.drop_first(), b.drop_first());
        assert(a =~= seq![a[0]] + a.drop_first());
        assert(b =~= seq![b[0]] + b.drop_first());
    }
}

pub proof fn lemma_lex_transitive(a: Seq<u8>, b: Seq<u8>, c: Seq<u8>)
    requires
        lex_le(a, b),
        lex_le(b, c),
    ensures
        lex_le(a, c),
    decreases a.len(),
{
    if a.len() > 0 && b.len() > 0 && c.len() > 0 && a[0] == b[0] && b[0] == c[0] {
        lemma_lex_transitive(a.drop_first(), b.drop_first(), c.drop_first());
    }
}

/// The first element of `s` in lexicographic order.
pub open spec fn least(s: Set<Seq<u8>>) -> Seq<u8> {
    choose|x: Seq<u8>| s.contains(x) && forall|y: Seq<u8>| s.contains(y) ==> lex_le(x, y)
}

/// The elements of a finite set of names in ascending lexicographic order.
pub open spec fn in_order(s: Set<Seq<u8>>) -> Seq<Seq<u8>>
    decreases s.len(),
{
    if s.finite() && s.contains(least(s)) {
        seq![least(s)] + in_order(s.remove(least(s)))
    } else {
        seq![]
    }
}

/// The listing of a set holds elements of the set, each once.
pub proof fn lemma_in_order(s: Set<Seq<u8>>)
    ensures
        in_order(s).no_duplicates(),
        forall|k: int| 0 <= k < in_order(s).len() ==> s.contains(#[trigger] in_order(s)[k]),
    decreases s.len(),
{
    if s.finite() && s.contains(least(s)) {
        let l = least(s);
        let t = s.remove(l);
        lemma_in_order(t);
        let r = in_order(s);
        assert(r == seq![l] + in_order(t));
        assert forall|k: int| 0 <= k < r.len() implies s.contains(#[trigger] r[k]) by {
            if k > 0 {
                assert(r[k] == in_order(t)[k - 1]);
            }
        }
        assert forall|a: int, b: int| 0 <= a < r.len() && 0 <= b < r.len() && a != b implies r[a]
            != r[b] by {
            if a > 0 {
                assert(r[a] == in_order(t)[a - 1]);
                assert(t.contains(r[a]));
            }
            if b > 0 {
                assert(r[b] == in_order(t)[b - 1]);
                assert(t.contains(r[b]));
            }
        }
    }
}

/// A name that no other element of `s` precedes is the least of `s`.
pub proof fn lemma_least_is(s: Set<Seq<u8>>, m: Seq<u8>)
    requires
        s.contains(m),
        forall|y: Seq<u8>| s.contains(y) ==> lex_le(m, y),
    ensures
        least(s) == m,
        s.contains(least(s)),
{
    let l = least(s);
    assert(s.contains(l) && forall|y: Seq<u8>| s.contains(y) ==> lex_le(l, y));
    lemma_lex_antisymmetric(l, m);
}

/// Compares two names byte-wise.
pub fn bytes_le(a: &[u8], b: &[u8]) -> (r: bool)
    ensures
        r == lex_le(a@, b@),
{
    let mut i: usize = 0;
    assert(a@.subrange(0, a@.len() as int) =~= a@);
    assert(b@.subrange(0, b@.len() as int) =~= b@);
    while i < a.len() && i < b.len()
        invariant
            i <= a@.len(),
            i <= b@.len(),
            lex_le(a@, b@) == lex_le(
                a@.subrange(i as int, a@.len() as int),
                b@.subrange(i as int, b@.len() as int),
            ),
        decreases a@.len() - i,
    {
        let ghost sa = a@.subrange(i as int, a@.len() as int);
        let ghost sb = b@.subrange(i as int, b@.len() as int);
        if a[i] != b[i] {
            return a[i] < b[i];
        }
        assert(sa.drop_first() =~= a@.subrange(i + 1, a@.len() as int));
        assert(sb.drop_first() =~= b@.subrange(i + 1, b@.len() as int));
        i = i + 1;
    }
    i == a.len()
}

/// The views of a sequence of byte vectors.
pub open spec fn views(v: Seq<Vec<u8>>) -> Seq<Seq<u8>> {
    v.map_values(|x: Vec<u8>| x@)
}

/// Lists distinct names in ascending lexicographic order.
pub fn sort_names(names: Vec<Vec<u8>>) -> (r: Vec<Vec<u8>>)
    requires
        views(names@).no_duplicates(),
    ensures
        views(r@) == in_order(views(names@).to_set()),
{
    let ghost all = views(names@).to_set();
    let mut rest = names;
    let mut out: Vec<Vec<u8>> = Vec::new();
    proof {
        seq_to_set_is_finite(views(rest@));
    }
    while rest.len() > 0
        invariant
            views(rest@).no_duplicates(),
            views(rest@).to_set().finite(),
            views(out@) + in_order(views(rest@).to_set()) == in_order(all),
        decreases rest@.len(),
    {
        let ghost rv = views(rest@);
        let mut j: usize = 0;
        let mut k: usize = 1;
        proof {
            lemma_lex_total(rv[0], rv[0]);
        }
        while k < rest.len()
            invariant
                0 <= j < k <= rest@.len(),
                rv == views(rest@),
                forall|t: int| 0 <= t < k ==> lex_le(rv[j as int], #[trigger] rv[t]),
            decreases rest@.len() - k,
        {
            if !bytes_le(rest[j].as_slice(), rest[k].as_slice()) {
                proof {
                    lemma_lex_total(rv[j as int], rv[k as int]);
                    lemma_lex_total(rv[k as int], rv[k as int]);
                    assert forall|t: int| 0 <= t < k + 1 implies lex_le(rv[k as int], #[trigger] rv[t]) by {
                        if t < k {
                            lemma_lex_transitive(rv[k as int], rv[j as int], rv[t]);
                        }
                    }
                }
                j = k;
            }
            k = k + 1;
        }
        let ghost m = rv[j as int];
        let ghost set = rv.to_set();
        proof {
            assert(set.contains(m));
            assert forall|y: Seq<u8>| set.contains(y) implies lex_le(m, y) by {
                let t = choose|t: int| 0 <= t < rv.len() && rv[t] == y;
                assert(lex_le(m, rv[t]));
            }
            lemma_least_is(set, m);
        }
        let first = rest.remove(j);
        proof {
            assert(views(rest@) =~= rv.remove(j as int));
            assert(views(rest@).to_set() =~= set.remove(m)) by {
                assert forall|y: Seq<u8>| views(rest@).to_set().contains(y) implies set.remove(m).contains(y) by {
                    let t = choose|t: int| 0 <= t < views(rest@).len() && views(rest@)[t] == y;
                    if t < j {
                        assert(rv[t] == y);
                    } else {
                        assert(rv[t + 1] == y);
                    }
                }
                assert forall|y: Seq<u8>| set.remove(m).contains(y) implies views(rest@).to_set().contains(y) by {
                    let t = choose|t: int| 0 <= t < rv.len() && rv[t] == y;
                    if t < j {
                        assert(views(rest@)[t] == y);
                    } else {
                        assert(views(rest@)[t - 1] == y);
                    }
                }
            }
            seq_to_set_is_finite(views(rest@));
            assert(views(rest@).no_duplicates()) by {
                assert forall|a: int, b: int|
                    0 <= a < views(rest@).len() && 0 <= b < views(rest@).len() && a != b
                    implies views(rest@)[a] != views(rest@)[b] by {
                    let a1 = if a < j { a } else { a + 1 };
                    let b1 = if b < j { b } else { b + 1 };
                    assert(views(rest@)[a] == rv[a1]);
                    assert(views(rest@)[b] == rv[b1]);
                }
            }
            assert(in_order(set) == seq![m] + in_order(set.remove(m)));
        }
        let ghost out_before = views(out@);
        out.push(first);
        proof {
            assert(views(out@) =~= out_before + seq![m]);
            assert(views(out@) + in_order(views(rest@).to_set()) =~= out_before + (seq![m]
                + in_order(set.remove(m))));
        }
    }
    proof {
        assert(views(rest@).to_set() =~= Set::<Seq<u8>>::empty());
    }
    out
}

} // verus!
