use crate::models::{deck_cmp_spec, deck_key_eq, Deck, DeckData};
use crate::utils::{lemma_lex_cmp_equal, lemma_lex_cmp_flip, lemma_lex_cmp_trans_less};
use core::cmp::Ordering;
use vstd::prelude::*;
use vstd::multiset::Multiset;
use vstd::seq_lib::lemma_multiset_commutative;

verus! {

/// `a` is at or before `b` in the canonical deck order.
pub open spec fn deck_le(a: Deck, b: Deck) -> bool {
    deck_cmp_spec(a, b) != Ordering::Greater
}

/// `a` is strictly before `b` in the canonical deck order.
pub open spec fn deck_lt(a: Deck, b: Deck) -> bool {
    deck_cmp_spec(a, b) == Ordering::Less
}

/// Comparing equal is the same as having one composite key.
pub proof fn lemma_deck_cmp_eq(a: Deck, b: Deck)
    ensures
        deck_cmp_spec(a, b) == Ordering::Equal <==> deck_key_eq(a, b),
{
    lemma_lex_cmp_equal(a.uid@, b.uid@);
    lemma_lex_cmp_equal(a.deck_code@, b.deck_code@);
}

/// The canonical order is antisymmetric: `a` before `b` means `b` after `a`.
pub proof fn lemma_deck_cmp_flip(a: Deck, b: Deck)
    ensures
        deck_cmp_spec(a, b) == Ordering::Less <==> deck_cmp_spec(b, a) == Ordering::Greater,
{
    lemma_lex_cmp_flip(a.uid@, b.uid@);
    lemma_lex_cmp_flip(b.uid@, a.uid@);
    lemma_lex_cmp_equal(a.uid@, b.uid@);
    lemma_lex_cmp_equal(b.uid@, a.uid@);
    lemma_lex_cmp_flip(a.deck_code@, b.deck_code@);
    lemma_lex_cmp_flip(b.deck_code@, a.deck_code@);
}

/// The canonical order is total.
pub proof fn lemma_deck_le_total(a: Deck, b: Deck)
    ensures
        deck_le(a, b) || deck_le(b, a),
{
    lemma_deck_cmp_flip(a, b);
    lemma_deck_cmp_flip(b, a);
}

/// Strict order is transitive.
pub proof fn lemma_deck_lt_trans(a: Deck, b: Deck, c: Deck)
    requires
        deck_lt(a, b),
        deck_lt(b, c),
    ensures
        deck_lt(a, c),
{
    lemma_lex_cmp_equal(a.uid@, b.uid@);
    lemma_lex_cmp_equal(b.uid@, c.uid@);
    if lex_uid(a, b) == Ordering::Less && lex_uid(b, c) == Ordering::Less {
        lemma_lex_cmp_trans_less(a.uid@, b.uid@, c.uid@);
    } else if lex_uid(a, b) == Ordering::Equal && lex_uid(b, c) == Ordering::Equal {
        lemma_lex_cmp_trans_less(a.deck_code@, b.deck_code@, c.deck_code@);
    }
}

/// The `uid` part of the comparison, named for the proofs here.
spec fn lex_uid(a: Deck, b: Deck) -> Ordering {
    crate::utils::lex_cmp_chars(a.uid@, b.uid@)
}

/// The order with equality allowed is transitive.
pub proof fn lemma_deck_le_trans(a: Deck, b: Deck, c: Deck)
    requires
        deck_le(a, b),
        deck_le(b, c),
    ensures
        deck_le(a, c),
{
    lemma_deck_cmp_eq(a, b);
    lemma_deck_cmp_eq(b, c);
    lemma_deck_cmp_eq(a, c);
    lemma_deck_cmp_flip(a, c);
    if deck_cmp_spec(a, b) == Ordering::Equal {
        // the key of a equals the key of b: the comparison with c agrees
        assert(deck_cmp_spec(a, c) == deck_cmp_spec(b, c));
    } else if deck_cmp_spec(b, c) == Ordering::Equal {
        assert(deck_cmp_spec(a, c) == deck_cmp_spec(a, b));
    } else {
        lemma_deck_lt_trans(a, b, c);
    }
}

/// Every pair of positions is ordered.
pub open spec fn decks_sorted(s: Seq<Deck>) -> bool {
    forall|i: int, j: int| 0 <= i < j < s.len() ==> deck_le(#[trigger] s[i], #[trigger] s[j])
}

/// Every pair of positions is strictly ordered.
pub open spec fn decks_strictly_sorted(s: Seq<Deck>) -> bool {
    forall|i: int, j: int| 0 <= i < j < s.len() ==> deck_lt(#[trigger] s[i], #[trigger] s[j])
}

/// Insert `d` into `s` behind every element at or before it, so that a deck
/// inserted later never overtakes an equal key.
pub open spec fn insert_sorted(d: Deck, s: Seq<Deck>) -> Seq<Deck>
    decreases s.len(),
{
    if s.len() == 0 {
        seq![d]
    } else if deck_lt(d, s[0]) {
        seq![d] + s
    } else {
        seq![s[0]] + insert_sorted(d, s.skip(1))
    }
}

/// Stable insertion sort by the canonical deck order, processing the
/// input left to right.
pub open spec fn sort_decks_spec(s: Seq<Deck>) -> Seq<Deck>
    decreases s.len(),
{
    if s.len() == 0 {
        Seq::empty()
    } else {
        insert_sorted(s.last(), sort_decks_spec(s.drop_last()))
    }
}

proof fn lemma_insert_sorted(d: Deck, s: Seq<Deck>)
    requires
        decks_sorted(s),
    ensures
        insert_sorted(d, s).len() == s.len() + 1,
        decks_sorted(insert_sorted(d, s)),
        insert_sorted(d, s).to_multiset() == s.to_multiset().insert(d),
        forall|j: int|
            0 <= j < insert_sorted(d, s).len() ==> (#[trigger] insert_sorted(d, s)[j] == d
                || s.contains(insert_sorted(d, s)[j])),
    decreases s.len(),
{
    broadcast use vstd::seq_lib::group_to_multiset_ensures;

    let r = insert_sorted(d, s);
    if s.len() == 0 {
        assert(seq![d] =~= Seq::<Deck>::empty().push(d));
        assert(r.to_multiset() == s.to_multiset().insert(d));
    } else if deck_lt(d, s[0]) {
        // d goes in front: it is at or before everything in s
        assert forall|i: int, j: int| 0 <= i < j < r.len() implies deck_le(r[i], r[j]) by {
            if i == 0 {
                assert(r[j] == s[j - 1]);
                if j == 1 {
                    assert(deck_le(d, s[0]));
                } else {
                    lemma_deck_le_trans(d, s[0], s[j - 1]);
                }
            } else {
                assert(r[i] == s[i - 1] && r[j] == s[j - 1]);
            }
        }
        assert(seq![d] + s =~= (seq![d] + s.drop_last()).push(s.last()));
        lemma_insert_front_multiset(d, s);
    } else {
        // d goes behind s[0]
        assert(decks_sorted(s.skip(1))) by {
            assert forall|i: int, j: int| 0 <= i < j < s.skip(1).len() implies deck_le(
                s.skip(1)[i],
                s.skip(1)[j],
            ) by {
                assert(s.skip(1)[i] == s[i + 1] && s.skip(1)[j] == s[j + 1]);
            }
        }
        lemma_insert_sorted(d, s.skip(1));
        let rest = insert_sorted(d, s.skip(1));
        assert(r =~= seq![s[0]] + rest);
        // s[0] is at or before d, and at or before everything in s.skip(1)
        assert(deck_le(s[0], d)) by {
            lemma_deck_cmp_eq(d, s[0]);
            lemma_deck_cmp_eq(s[0], d);
            lemma_deck_cmp_flip(s[0], d);
        }
        assert forall|i: int, j: int| 0 <= i < j < r.len() implies deck_le(r[i], r[j]) by {
            if i == 0 {
                assert(r[j] == rest[j - 1]);
                if rest[j - 1] == d {
                    assert(deck_le(s[0], d));
                } else {
                    assert(s.skip(1).contains(rest[j - 1]));
                    let k = choose|k: int| 0 <= k < s.skip(1).len() && s.skip(1)[k] == rest[j - 1];
                    assert(s[k + 1] == rest[j - 1]);
                    assert(deck_le(s[0], rest[j - 1]));
                }
            } else {
                assert(r[i] == rest[i - 1] && r[j] == rest[j - 1]);
            }
        }
        // multiset: [s0] + rest adds s0 to rest's multiset
        lemma_insert_front_multiset(s[0], rest);
        assert(s =~= seq![s[0]] + s.skip(1));
        lemma_insert_front_multiset(s[0], s.skip(1));
        assert(r.to_multiset() =~= s.to_multiset().insert(d)) by {
            assert(r.to_multiset() == s.skip(1).to_multiset().insert(d).insert(s[0]));
            assert(s.to_multiset() == s.skip(1).to_multiset().insert(s[0]));
        }
        assert forall|j: int| 0 <= j < r.len() implies (#[trigger] r[j] == d || s.contains(
            r[j],
        )) by {
            if j == 0 {
                assert(s.contains(s[0]));
            } else {
                assert(r[j] == rest[j - 1]);
                if rest[j - 1] != d {
                    assert(s.skip(1).contains(rest[j - 1]));
                    let k = choose|k: int| 0 <= k < s.skip(1).len() && s.skip(1)[k] == rest[j - 1];
                    assert(s[k + 1] == rest[j - 1]);
                }
            }
        }
    }
}

/// Prepending one element inserts it into the multiset.
proof fn lemma_insert_front_multiset(d: Deck, s: Seq<Deck>)
    ensures
        (seq![d] + s).to_multiset() == s.to_multiset().insert(d),
{
    broadcast use vstd::seq_lib::group_to_multiset_ensures;

    lemma_multiset_commutative(seq![d], s);
    assert(seq![d] =~= Seq::<Deck>::empty().push(d));
    assert(seq![d].to_multiset() =~= Multiset::<Deck>::empty().insert(d));
    assert((seq![d] + s).to_multiset() =~= s.to_multiset().insert(d));
}

/// Sorting keeps exactly the input decks and orders them.
pub proof fn lemma_sort_decks_spec(s: Seq<Deck>)
    ensures
        sort_decks_spec(s).len() == s.len(),
        decks_sorted(sort_decks_spec(s)),
        sort_decks_spec(s).to_multiset() == s.to_multiset(),
    decreases s.len(),
{
    broadcast use vstd::seq_lib::group_to_multiset_ensures;

    if s.len() > 0 {
        lemma_sort_decks_spec(s.drop_last());
        lemma_insert_sorted(s.last(), sort_decks_spec(s.drop_last()));
        assert(s =~= s.drop_last().push(s.last()));
        assert(s.to_multiset() == s.drop_last().to_multiset().insert(s.last()));
    }
}

/// Where `d` belongs: `insert_sorted` places `d` at the first position
/// whose element is strictly after it.
proof fn lemma_insert_sorted_at(d: Deck, s: Seq<Deck>, j: int)
    requires
        0 <= j <= s.len(),
        forall|k: int| 0 <= k < j ==> !deck_lt(d, #[trigger] s[k]),
        j < s.len() ==> deck_lt(d, s[j]),
    ensures
        insert_sorted(d, s) == s.subrange(0, j).push(d) + s.subrange(j, s.len() as int),
    decreases j,
{
    if j == 0 {
        if s.len() == 0 {
            assert(insert_sorted(d, s) =~= s.subrange(0, 0).push(d) + s.subrange(0, 0));
        } else {
            assert(insert_sorted(d, s) == seq![d] + s);
            assert(seq![d] + s =~= s.subrange(0, 0).push(d) + s.subrange(0, s.len() as int));
        }
    } else {
        assert(!deck_lt(d, s[0]));
        assert forall|k: int| 0 <= k < j - 1 implies !deck_lt(d, #[trigger] s.skip(1)[k]) by {
            assert(s.skip(1)[k] == s[k + 1]);
        }
        assert(j - 1 < s.skip(1).len() ==> deck_lt(d, s.skip(1)[j - 1]));
        lemma_insert_sorted_at(d, s.skip(1), j - 1);
        assert(insert_sorted(d, s) == seq![s[0]] + insert_sorted(d, s.skip(1)));
        assert(seq![s[0]] + (s.skip(1).subrange(0, j - 1).push(d) + s.skip(1).subrange(
            j - 1,
            s.skip(1).len() as int,
        )) =~= s.subrange(0, j).push(d) + s.subrange(j, s.len() as int));
    }
}

/// `d` is strictly before `other` in the canonical order.
fn deck_lt_exec(d: &Deck, other: &Deck) -> (r: bool)
    ensures
        r == deck_lt(*d, *other),
{
    let o = d.cmp(other);
    match o {
        Ordering::Less => true,
        _ => false,
    }
}

/// Insert `d` into the sorted vector `r`, behind every element at or
/// before it.
fn insert_deck(r: &mut Vec<Deck>, d: Deck)
    requires
        decks_sorted(old(r)@),
    ensures
        final(r)@ == insert_sorted(d, old(r)@),
{
    let mut j: usize = 0;
    loop
        invariant
            j <= r@.len(),
            *r == *old(r),
            decks_sorted(r@),
            forall|k: int| 0 <= k < j ==> !deck_lt(d, #[trigger] r@[k]),
        ensures
            j <= r@.len(),
            *r == *old(r),
            forall|k: int| 0 <= k < j ==> !deck_lt(d, #[trigger] r@[k]),
            j < r@.len() ==> deck_lt(d, r@[j as int]),
        decreases r@.len() - j,
    {
        if j == r.len() {
            break ;
        }
        if deck_lt_exec(&d, &r[j]) {
            break ;
        }
        j = j + 1;
    }
    proof {
        lemma_insert_sorted_at(d, r@, j as int);
    }
    r.insert(j, d);
    proof {
        assert(r@ =~= insert_sorted(d, old(r)@));
    }
}

/// Sort decks by the composite key, keeping equal keys in arrival order.
pub fn sort_decks(v: Vec<Deck>) -> (r: Vec<Deck>)
    ensures
        r@ == sort_decks_spec(v@),
{
    let ghost orig = v@;
    let mut v = v;
    let mut r: Vec<Deck> = Vec::new();
    let ghost mut done = Seq::<Deck>::empty();
    while v.len() > 0
        invariant
            orig == done + v@,
            r@ == sort_decks_spec(done),
        decreases v@.len(),
    {
        proof {
            lemma_sort_decks_spec(done);
        }
        let d = v.remove(0);
        proof {
            assert((done.push(d)).drop_last() =~= done);
        }
        insert_deck(&mut r, d);
        proof {
            done = done.push(d);
            assert(orig =~= done + v@);
        }
    }
    proof {
        assert(done =~= orig);
    }
    r
}

/// Drop every deck whose key equals the last kept deck's, walking `s` with
/// `prev` as the last kept deck.
pub open spec fn dedup_keep_first(prev: Deck, s: Seq<Deck>) -> Seq<Deck>
    decreases s.len(),
{
    if s.len() == 0 {
        Seq::empty()
    } else if deck_key_eq(s[0], prev) {
        dedup_keep_first(prev, s.skip(1))
    } else {
        seq![s[0]] + dedup_keep_first(s[0], s.skip(1))
    }
}

/// Remove consecutive decks with equal keys, keeping the first of each run.
pub open spec fn dedup_decks_spec(s: Seq<Deck>) -> Seq<Deck> {
    if s.len() == 0 {
        Seq::empty()
    } else {
        seq![s[0]] + dedup_keep_first(s[0], s.skip(1))
    }
}

proof fn lemma_dedup_keep_first_sorted(prev: Deck, s: Seq<Deck>)
    requires
        decks_sorted(s),
        forall|k: int| 0 <= k < s.len() ==> deck_le(prev, #[trigger] s[k]),
    ensures
        forall|j: int|
            0 <= j < dedup_keep_first(prev, s).len() ==> s.contains(
                #[trigger] dedup_keep_first(prev, s)[j],
            ),
        forall|j: int|
            0 <= j < dedup_keep_first(prev, s).len() ==> deck_lt(
                prev,
                #[trigger] dedup_keep_first(prev, s)[j],
            ),
        decks_strictly_sorted(dedup_keep_first(prev, s)),
        forall|k: int|
            0 <= k < s.len() ==> deck_key_eq(#[trigger] s[k], prev) || (exists|j: int|
                0 <= j < dedup_keep_first(prev, s).len() && deck_key_eq(
                    s[k],
                    dedup_keep_first(prev, s)[j],
                )),
    decreases s.len(),
{
    let r = dedup_keep_first(prev, s);
    if s.len() == 0 {
    } else {
        assert(decks_sorted(s.skip(1))) by {
            assert forall|i: int, j: int| 0 <= i < j < s.skip(1).len() implies deck_le(
                s.skip(1)[i],
                s.skip(1)[j],
            ) by {
                assert(s.skip(1)[i] == s[i + 1] && s.skip(1)[j] == s[j + 1]);
            }
        }
        if deck_key_eq(s[0], prev) {
            assert forall|k: int| 0 <= k < s.skip(1).len() implies deck_le(
                prev,
                #[trigger] s.skip(1)[k],
            ) by {
                assert(s.skip(1)[k] == s[k + 1]);
            }
            lemma_dedup_keep_first_sorted(prev, s.skip(1));
            assert forall|j: int| 0 <= j < r.len() implies s.contains(#[trigger] r[j]) by {
                assert(s.skip(1).contains(r[j]));
                let k = choose|k: int| 0 <= k < s.skip(1).len() && s.skip(1)[k] == r[j];
                assert(s[k + 1] == r[j]);
            }
            assert forall|k: int| 0 <= k < s.len() implies deck_key_eq(#[trigger] s[k], prev) || (
            exists|j: int| 0 <= j < r.len() && deck_key_eq(s[k], r[j])) by {
                if k > 0 {
                    assert(s.skip(1)[k - 1] == s[k]);
                }
            }
        } else {
            assert forall|k: int| 0 <= k < s.skip(1).len() implies deck_le(
                s[0],
                #[trigger] s.skip(1)[k],
            ) by {
                assert(s.skip(1)[k] == s[k + 1]);
            }
            lemma_dedup_keep_first_sorted(s[0], s.skip(1));
            let rest = dedup_keep_first(s[0], s.skip(1));
            assert(r == seq![s[0]] + rest);
            assert(deck_lt(prev, s[0])) by {
                lemma_deck_cmp_eq(s[0], prev);
                lemma_deck_cmp_eq(prev, s[0]);
                lemma_deck_cmp_flip(prev, s[0]);
            }
            assert forall|j: int| 0 <= j < r.len() implies s.contains(#[trigger] r[j]) by {
                if j == 0 {
                    assert(s[0] == r[0]);
                } else {
                    assert(rest[j - 1] == r[j]);
                    assert(s.skip(1).contains(r[j]));
                    let k = choose|k: int| 0 <= k < s.skip(1).len() && s.skip(1)[k] == r[j];
                    assert(s[k + 1] == r[j]);
                }
            }
            assert forall|j: int| 0 <= j < r.len() implies deck_lt(prev, #[trigger] r[j]) by {
                if j > 0 {
                    assert(deck_lt(s[0], rest[j - 1]));
                    lemma_deck_lt_trans(prev, s[0], r[j]);
                }
            }
            assert forall|i: int, j: int| 0 <= i < j < r.len() implies deck_lt(r[i], r[j]) by {
                if i == 0 {
                    assert(deck_lt(s[0], rest[j - 1]));
                } else {
                    assert(r[i] == rest[i - 1] && r[j] == rest[j - 1]);
                    assert(deck_lt(rest[i - 1], rest[j - 1]));
                }
            }
            assert forall|k: int| 0 <= k < s.len() implies deck_key_eq(#[trigger] s[k], prev) || (
            exists|j: int| 0 <= j < r.len() && deck_key_eq(s[k], r[j])) by {
                if k == 0 {
                    assert(deck_key_eq(s[0], r[0]));
                } else {
                    assert(s.skip(1)[k - 1] == s[k]);
                    if deck_key_eq(s[k], s[0]) {
                        assert(deck_key_eq(s[k], r[0]));
                    } else {
                        let j = choose|j: int|
                            0 <= j < rest.len() && deck_key_eq(s[k], rest[j]);
                        assert(r[j + 1] == rest[j]);
                        assert(deck_key_eq(s[k], r[j + 1]));
                    }
                }
            }
        }
    }
}

/// On a sorted input, dedup leaves a strictly ordered sequence in which no
/// two decks share a key, every member comes from the input, and every
/// input deck's key is represented.
pub proof fn lemma_dedup_decks_sorted(s: Seq<Deck>)
    requires
        decks_sorted(s),
    ensures
        decks_strictly_sorted(dedup_decks_spec(s)),
        forall|i: int, j: int|
            0 <= i < j < dedup_decks_spec(s).len() ==> !deck_key_eq(
                #[trigger] dedup_decks_spec(s)[i],
                #[trigger] dedup_decks_spec(s)[j],
            ),
        forall|j: int|
            0 <= j < dedup_decks_spec(s).len() ==> s.contains(#[trigger] dedup_decks_spec(s)[j]),
        forall|k: int|
            0 <= k < s.len() ==> exists|j: int|
                0 <= j < dedup_decks_spec(s).len() && deck_key_eq(
                    #[trigger] s[k],
                    dedup_decks_spec(s)[j],
                ),
        dedup_decks_spec(s).len() <= s.len(),
{
    let r = dedup_decks_spec(s);
    if s.len() > 0 {
        assert(decks_sorted(s.skip(1))) by {
            assert forall|i: int, j: int| 0 <= i < j < s.skip(1).len() implies deck_le(
                s.skip(1)[i],
                s.skip(1)[j],
            ) by {
                assert(s.skip(1)[i] == s[i + 1] && s.skip(1)[j] == s[j + 1]);
            }
        }
        assert forall|k: int| 0 <= k < s.skip(1).len() implies deck_le(
            s[0],
            #[trigger] s.skip(1)[k],
        ) by {
            assert(s.skip(1)[k] == s[k + 1]);
        }
        lemma_dedup_keep_first_sorted(s[0], s.skip(1));
        let rest = dedup_keep_first(s[0], s.skip(1));
        assert(r == seq![s[0]] + rest);
        assert forall|i: int, j: int| 0 <= i < j < r.len() implies deck_lt(r[i], r[j]) by {
            if i == 0 {
                assert(deck_lt(s[0], rest[j - 1]));
            } else {
                assert(r[i] == rest[i - 1] && r[j] == rest[j - 1]);
                assert(deck_lt(rest[i - 1], rest[j - 1]));
            }
        }
        assert forall|i: int, j: int| 0 <= i < j < r.len() implies !deck_key_eq(
            #[trigger] r[i],
            #[trigger] r[j],
        ) by {
            assert(deck_lt(r[i], r[j]));
            lemma_deck_cmp_eq(r[i], r[j]);
        }
        assert forall|j: int| 0 <= j < r.len() implies s.contains(#[trigger] r[j]) by {
            if j == 0 {
                assert(s[0] == r[0]);
            } else {
                assert(rest[j - 1] == r[j]);
                assert(s.skip(1).contains(r[j]));
                let k = choose|k: int| 0 <= k < s.skip(1).len() && s.skip(1)[k] == r[j];
                assert(s[k + 1] == r[j]);
            }
        }
        assert forall|k: int| 0 <= k < s.len() implies exists|j: int|
            0 <= j < r.len() && deck_key_eq(#[trigger] s[k], r[j]) by {
            if k == 0 {
                assert(deck_key_eq(s[0], r[0]));
            } else {
                assert(s.skip(1)[k - 1] == s[k]);
                if deck_key_eq(s[k], s[0]) {
                    assert(deck_key_eq(s[k], r[0]));
                } else {
                    let j = choose|j: int| 0 <= j < rest.len() && deck_key_eq(s[k], rest[j]);
                    assert(r[j + 1] == rest[j]);
                    assert(deck_key_eq(s[k], r[j + 1]));
                }
            }
        }
        lemma_dedup_len(s[0], s.skip(1));
    }
}

proof fn lemma_dedup_len(prev: Deck, s: Seq<Deck>)
    ensures
        dedup_keep_first(prev, s).len() <= s.len(),
    decreases s.len(),
{
    if s.len() > 0 {
        if deck_key_eq(s[0], prev) {
            lemma_dedup_len(prev, s.skip(1));
        } else {
            lemma_dedup_len(s[0], s.skip(1));
        }
    }
}

/// `d` has the same composite key as `other`.
fn deck_key_eq_exec(d: &Deck, other: &Deck) -> (r: bool)
    ensures
        r == deck_key_eq(*d, *other),
{
    proof {
        lemma_deck_cmp_eq(*d, *other);
    }
    let o = d.cmp(other);
    match o {
        Ordering::Equal => true,
        _ => false,
    }
}

/// Remove consecutive decks with equal composite keys, keeping the first
/// of each run.
pub fn dedup_decks(v: Vec<Deck>) -> (r: Vec<Deck>)
    ensures
        r@ == dedup_decks_spec(v@),
{
    let ghost orig = v@;
    let mut v = v;
    let mut r: Vec<Deck> = Vec::new();
    while v.len() > 0
        invariant
            r@.len() == 0 ==> v@ == orig,
            r@.len() > 0 ==> dedup_decks_spec(orig) == r@ + dedup_keep_first(r@.last(), v@),
        decreases v@.len(),
    {
        let ghost v_old = v@;
        let d = v.remove(0);
        let n = r.len();
        if n == 0 {
            r.push(d);
            proof {
                assert(r@ =~= seq![d]);
                assert(dedup_decks_spec(orig) =~= r@ + dedup_keep_first(r@.last(), v@));
            }
        } else {
            let keep = !deck_key_eq_exec(&d, &r[n - 1]);
            let ghost r_old = r@;
            if keep {
                r.push(d);
                proof {
                    assert(dedup_keep_first(r_old.last(), v_old) == seq![d] + dedup_keep_first(
                        d,
                        v@,
                    ));
                    assert(r_old + (seq![d] + dedup_keep_first(d, v@)) =~= r@ + dedup_keep_first(
                        r@.last(),
                        v@,
                    ));
                }
            } else {
                proof {
                    assert(dedup_keep_first(r@.last(), v_old) == dedup_keep_first(r@.last(), v@));
                }
            }
        }
    }
    proof {
        if r@.len() == 0 {
            assert(dedup_decks_spec(orig) =~= r@);
        } else {
            assert(dedup_keep_first(r@.last(), v@) =~= Seq::<Deck>::empty());
            assert(dedup_decks_spec(orig) =~= r@);
        }
    }
    r
}

/// The decks of one fetched page; an absent page holds none.
pub open spec fn page_decks(p: Option<DeckData>) -> Seq<Deck> {
    match p {
        Some(dd) => dd.decks@,
        None => Seq::<Deck>::empty(),
    }
}

/// The decks of the fetched pages, in page order, an absent page
/// contributing nothing.
pub open spec fn flatten_pages(pages: Seq<Option<DeckData>>) -> Seq<Deck>
    decreases pages.len(),
{
    if pages.len() == 0 {
        Seq::empty()
    } else {
        page_decks(pages[0]) + flatten_pages(pages.skip(1))
    }
}

/// The canonical merged collection: flatten, sort, drop duplicate keys.
pub open spec fn merge_decks_spec(pages: Seq<Option<DeckData>>) -> Seq<Deck> {
    dedup_decks_spec(sort_decks_spec(flatten_pages(pages)))
}

/// Combine fetched pages into one canonical collection: an absent page
/// counts as empty, the decks of the present pages are sorted by the
/// composite key, and of each run of equal keys only the first survives.
pub fn merge_deck_pages(pages: Vec<Option<DeckData>>) -> (r: Vec<Deck>)
    ensures
        r@ == merge_decks_spec(pages@),
{
    let ghost orig = pages@;
    let mut pages = pages;
    let mut flat: Vec<Deck> = Vec::new();
    while pages.len() > 0
        invariant
            flatten_pages(orig) == flat@ + flatten_pages(pages@),
        decreases pages@.len(),
    {
        let ghost pages_old = pages@;
        let ghost flat_old = flat@;
        let p = pages.remove(0);
        match p {
            Some(dd) => {
                let mut ds = dd.decks;
                flat.append(&mut ds);
            },
            None => {},
        }
        proof {
            assert(flatten_pages(pages_old) == page_decks(pages_old[0]) + flatten_pages(pages@));
            assert(flat_old + (page_decks(pages_old[0]) + flatten_pages(pages@)) =~= flat@
                + flatten_pages(pages@));
        }
    }
    proof {
        assert(flat@ + flatten_pages(pages@) =~= flat@);
    }
    let sorted = sort_decks(flat);
    let r = dedup_decks(sorted);
    r
}

/// Removing an absent page does not change what the pages flatten to.
pub proof fn lemma_flatten_drops_absent(pages: Seq<Option<DeckData>>, i: int)
    requires
        0 <= i < pages.len(),
        pages[i] is None,
    ensures
        flatten_pages(pages.remove(i)) == flatten_pages(pages),
    decreases pages.len(),
{
    if i == 0 {
        assert(pages.remove(0) =~= pages.skip(1));
        assert(page_decks(pages[0]) + flatten_pages(pages.skip(1)) =~= flatten_pages(
            pages.skip(1),
        ));
    } else {
        assert(pages.skip(1)[i - 1] == pages[i]);
        lemma_flatten_drops_absent(pages.skip(1), i - 1);
        assert(pages.remove(i)[0] == pages[0]);
        assert(pages.remove(i).skip(1) =~= pages.skip(1).remove(i - 1));
    }
}

/// An absent page does not change the merged collection.
pub proof fn lemma_merge_ignores_absent(pages: Seq<Option<DeckData>>, i: int)
    requires
        0 <= i < pages.len(),
        pages[i] is None,
    ensures
        merge_decks_spec(pages.remove(i)) == merge_decks_spec(pages),
{
    lemma_flatten_drops_absent(pages, i);
}

/// The merged collection is canonical: strictly ordered by the composite
/// key, no key twice, every member drawn from some present page, and every
/// deck of every present page represented by its key.
pub proof fn lemma_merge_canonical(pages: Seq<Option<DeckData>>)
    ensures
        decks_strictly_sorted(merge_decks_spec(pages)),
        forall|i: int, j: int|
            0 <= i < j < merge_decks_spec(pages).len() ==> !deck_key_eq(
                #[trigger] merge_decks_spec(pages)[i],
                #[trigger] merge_decks_spec(pages)[j],
            ),
        forall|j: int|
            0 <= j < merge_decks_spec(pages).len() ==> flatten_pages(pages).contains(
                #[trigger] merge_decks_spec(pages)[j],
            ),
        forall|k: int|
            0 <= k < flatten_pages(pages).len() ==> exists|j: int|
                0 <= j < merge_decks_spec(pages).len() && deck_key_eq(
                    #[trigger] flatten_pages(pages)[k],
                    merge_decks_spec(pages)[j],
                ),
{
    broadcast use vstd::seq_lib::group_to_multiset_ensures;

    let f = flatten_pages(pages);
    let s = sort_decks_spec(f);
    let r = merge_decks_spec(pages);
    lemma_sort_decks_spec(f);
    lemma_dedup_decks_sorted(s);
    assert forall|j: int| 0 <= j < r.len() implies f.contains(#[trigger] r[j]) by {
        assert(s.contains(r[j]));
        assert(s.to_multiset().count(r[j]) > 0);
        assert(f.to_multiset().count(r[j]) > 0);
    }
    assert forall|k: int| 0 <= k < f.len() implies exists|j: int|
        0 <= j < r.len() && deck_key_eq(#[trigger] f[k], r[j]) by {
        assert(f.contains(f[k]));
        assert(f.to_multiset().count(f[k]) > 0);
        assert(s.to_multiset().count(f[k]) > 0);
        assert(s.contains(f[k]));
        let k2 = choose|k2: int| 0 <= k2 < s.len() && s[k2] == f[k];
        assert(exists|j: int| 0 <= j < r.len() && deck_key_eq(s[k2], r[j]));
        let j = choose|j: int| 0 <= j < r.len() && deck_key_eq(s[k2], r[j]);
        assert(deck_key_eq(f[k], r[j]));
    }
}

} // verus!
