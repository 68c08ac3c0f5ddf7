//! The 13-card hands between a fixed part and a pool, enumerated card by card.

use vstd::prelude::*;
use crate::card::Card;
use vstd::arithmetic::power2::pow2;

verus! {

/// The sets that add `n` of the cards of `l` to `a`, deciding on the cards of `l` from the
/// last one back.
pub open spec fn hands_from(a: Set<int>, l: Seq<int>, n: nat) -> Set<Set<int>>
    decreases l.len(),
{
    if n == 0 {
        set![a]
    } else if l.len() == 0 {
        Set::empty()
    } else {
        hands_from(a, l.drop_last(), n).union(hands_from(a.insert(l.last()), l.drop_last(), (n - 1) as nat))
    }
}

/// The 13-card hands that hold every card of `fixed` and otherwise only cards of `pool`.
pub open spec fn hands_between(fixed: Set<int>, pool: Set<int>) -> Set<Set<int>> {
    Set::new(|h: Set<int>| fixed.subset_of(h) && h.subset_of(fixed.union(pool)) && h.finite() && h.len() == 13)
}

/// The indices of a list of cards.
pub open spec fn card_seq(cs: Seq<Card>) -> Seq<int> {
    cs.map_values(|c: Card| c@)
}

/// `2^m` doubles from `2^(m − 1)` and stays within `2^52` up to `m == 52`.
pub proof fn lemma_pow2_step(m: nat)
    requires
        0 < m <= 52,
    ensures
        pow2(m) == 2 * pow2((m - 1) as nat),
        pow2(m) <= 0x10_0000_0000_0000,
{
    vstd::arithmetic::power2::lemma_pow2_unfold(m);
    vstd::arithmetic::power2::lemma2_to64_rest();
    if m < 52 {
        vstd::arithmetic::power2::lemma_pow2_strictly_increases(m, 52);
    }
}

/// Too few cards left give no set.
pub proof fn lemma_hands_from_short(a: Set<int>, l: Seq<int>, n: nat)
    requires
        l.len() < n,
    ensures
        hands_from(a, l, n) == Set::<Set<int>>::empty(),
    decreases l.len(),
{
    if l.len() > 0 {
        lemma_hands_from_short(a, l.drop_last(), n);
        lemma_hands_from_short(a.insert(l.last()), l.drop_last(), (n - 1) as nat);
        assert(hands_from(a, l, n) =~= Set::<Set<int>>::empty());
    }
}

/// The sets enumerated from `a` and `l` are exactly the sets of `|a| + n` cards between `a`
/// and `a ∪ l`, and there are finitely many.
pub proof fn lemma_hands_from(a: Set<int>, l: Seq<int>, n: nat)
    requires
        a.finite(),
        l.no_duplicates(),
        forall|i: int| 0 <= i < l.len() ==> !a.contains(#[trigger] l[i]),
    ensures
        hands_from(a, l, n).finite(),
        forall|h: Set<int>| #[trigger] hands_from(a, l, n).contains(h) <==> (a.subset_of(h) && h.subset_of(a.union(l.to_set())) && h.finite() && h.len() == a.len() + n),
    decreases l.len(),
{
    if n == 0 {
        assert forall|h: Set<int>| #[trigger] hands_from(a, l, n).contains(h) <==> (a.subset_of(h) && h.subset_of(a.union(l.to_set())) && h.finite() && h.len() == a.len() + n) by {
            if a.subset_of(h) && h.finite() && h.len() == a.len() {
                vstd::set_lib::lemma_subset_equality(a, h);
            }
        }
    } else if l.len() == 0 {
        assert forall|h: Set<int>| #[trigger] hands_from(a, l, n).contains(h) <==> (a.subset_of(h) && h.subset_of(a.union(l.to_set())) && h.finite() && h.len() == a.len() + n) by {
            if a.subset_of(h) && h.subset_of(a.union(l.to_set())) {
                assert(h =~= a);
            }
        }
    } else {
        let x = l.last();
        let k = l.drop_last();
        let ax = a.insert(x);
        assert forall|i: int| 0 <= i < k.len() implies !ax.contains(#[trigger] k[i]) by {
            assert(k[i] == l[i]);
            assert(l[i] != l[l.len() - 1]);
        }
        assert forall|i: int| 0 <= i < k.len() implies !a.contains(#[trigger] k[i]) by {
            assert(k[i] == l[i]);
        }
        assert(!k.contains(x)) by {
            if k.contains(x) {
                let i = choose|i: int| 0 <= i < k.len() && k[i] == x;
                assert(l[i] == l[l.len() - 1]);
            }
        }
        assert(!a.contains(x)) by {
            assert(!a.contains(l[l.len() - 1]));
        }
        lemma_hands_from(a, k, n);
        lemma_hands_from(ax, k, (n - 1) as nat);
        assert(l.to_set() =~= k.to_set().insert(x)) by {
            assert(l == k.push(x));
            assert forall|y: int| l.to_set().contains(y) implies k.to_set().insert(x).contains(y) by {
                let i = choose|i: int| 0 <= i < l.len() && l[i] == y;
                if i < k.len() {
                    assert(k[i] == y);
                }
            }
            assert forall|y: int| k.to_set().insert(x).contains(y) implies l.to_set().contains(y) by {
                if y == x {
                    assert(l[l.len() - 1] == y);
                } else {
                    let i = choose|i: int| 0 <= i < k.len() && k[i] == y;
                    assert(l[i] == y);
                }
            }
        }
        assert(ax.len() == a.len() + 1);
        assert forall|h: Set<int>| #[trigger] hands_from(a, l, n).contains(h) <==> (a.subset_of(h) && h.subset_of(a.union(l.to_set())) && h.finite() && h.len() == a.len() + n) by {
            if a.subset_of(h) && h.subset_of(a.union(l.to_set())) && h.finite() && h.len() == a.len() + n {
                if h.contains(x) {
                    assert(ax.subset_of(h));
                    assert(h.subset_of(ax.union(k.to_set())));
                    assert(hands_from(ax, k, (n - 1) as nat).contains(h));
                } else {
                    assert(h.subset_of(a.union(k.to_set())));
                    assert(hands_from(a, k, n).contains(h));
                }
            }
        }
    }
}

/// The enumeration from `fixed` over the cards of `pool` gives the hands between them.
pub proof fn lemma_hands_between(fixed: Set<int>, pool: Set<int>, l: Seq<int>)
    requires
        fixed.finite(),
        fixed.len() <= 13,
        l.no_duplicates(),
        l.to_set() == pool,
        pool.disjoint(fixed),
    ensures
        hands_from(fixed, l, (13 - fixed.len()) as nat) == hands_between(fixed, pool),
{
    assert forall|i: int| 0 <= i < l.len() implies !fixed.contains(#[trigger] l[i]) by {
        assert(pool.contains(l[i]));
    }
    lemma_hands_from(fixed, l, (13 - fixed.len()) as nat);
    assert(hands_from(fixed, l, (13 - fixed.len()) as nat) =~= hands_between(fixed, pool));
}

/// Splitting on the last card: the sets without it and the sets with it are disjoint and
/// together make up the enumeration; so do those of them that satisfy `p`.
pub proof fn lemma_split(a: Set<int>, l: Seq<int>, n: nat, p: spec_fn(Set<int>) -> bool)
    requires
        a.finite(),
        l.no_duplicates(),
        forall|i: int| 0 <= i < l.len() ==> !a.contains(#[trigger] l[i]),
        n > 0,
        l.len() > 0,
    ensures
        hands_from(a, l, n).filter(p).len() == hands_from(a, l.drop_last(), n).filter(p).len()
            + hands_from(a.insert(l.last()), l.drop_last(), (n - 1) as nat).filter(p).len(),
{
    let x = l.last();
    let k = l.drop_last();
    let ax = a.insert(x);
    assert forall|i: int| 0 <= i < k.len() implies !ax.contains(#[trigger] k[i]) by {
        assert(k[i] == l[i]);
        assert(l[i] != l[l.len() - 1]);
    }
    assert forall|i: int| 0 <= i < k.len() implies !a.contains(#[trigger] k[i]) by {
        assert(k[i] == l[i]);
    }
    assert(!k.contains(x)) by {
        if k.contains(x) {
            let i = choose|i: int| 0 <= i < k.len() && k[i] == x;
            assert(l[i] == l[l.len() - 1]);
        }
    }
    assert(!a.contains(x)) by {
        assert(!a.contains(l[l.len() - 1]));
    }
    lemma_hands_from(a, k, n);
    lemma_hands_from(ax, k, (n - 1) as nat);
    let s1 = hands_from(a, k, n).filter(p);
    let s2 = hands_from(ax, k, (n - 1) as nat).filter(p);
    hands_from(a, k, n).lemma_len_filter(p);
    hands_from(ax, k, (n - 1) as nat).lemma_len_filter(p);
    assert(s1.disjoint(s2)) by {
        assert forall|h: Set<int>| s1.contains(h) implies !s2.contains(h) by {
            assert(hands_from(a, k, n).contains(h));
            if s2.contains(h) {
                assert(hands_from(ax, k, (n - 1) as nat).contains(h));
                assert(h.contains(x));
                assert(h.subset_of(a.union(k.to_set())));
            }
        }
    }
    vstd::set_lib::lemma_set_disjoint_lens(s1, s2);
    assert(hands_from(a, l, n).filter(p) =~= s1.union(s2));
}

} // verus!
