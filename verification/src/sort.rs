//! Sorting with duplicate removal for names and identifiers, giving the
//! deterministic orderings the schema pipeline relies on.

use vstd::prelude::*;

use crate::identifier::{PropertyName, SchemaId};
use crate::text::{lemma_text_lt_total, lemma_text_lt_transitive, text_lt};

verus! {

/// The texts of a sequence of property names.
pub open spec fn name_texts(s: Seq<PropertyName>) -> Seq<Seq<char>> {
    s.map_values(|n: PropertyName| n@)
}

/// Texts in strictly increasing order (hence without duplicates).
pub open spec fn strictly_sorted_texts(s: Seq<Seq<char>>) -> bool {
    forall|a: int, b: int| 0 <= a < b < s.len() ==> #[trigger] text_lt(s[a], s[b])
}

/// `k` is the text of some name in `s`.
pub open spec fn has_text(s: Seq<PropertyName>, k: Seq<char>) -> bool {
    exists|i: int| 0 <= i < s.len() && #[trigger] s[i]@ == k
}

/// Sorts names by text order and removes duplicate names.
pub fn sort_dedup_names(v: &Vec<PropertyName>) -> (r: Vec<PropertyName>)
    ensures
        strictly_sorted_texts(name_texts(r@)),
        forall|k: Seq<char>| has_text(r@, k) <==> has_text(v@, k),
{
    let mut out: Vec<PropertyName> = Vec::new();
    let mut i: usize = 0;
    while i < v.len()
        invariant
            0 <= i <= v@.len(),
            strictly_sorted_texts(name_texts(out@)),
            forall|k: Seq<char>| has_text(out@, k) <==> has_text(v@.take(i as int), k),
        decreases v@.len() - i,
    {
        let x = &v[i];
        let mut p: usize = 0;
        while p < out.len() && out[p].less(x)
            invariant
                0 <= p <= out@.len(),
                forall|j: int| 0 <= j < p ==> #[trigger] text_lt(out@[j]@, x@),
            decreases out@.len() - p,
        {
            p = p + 1;
        }
        let ghost before = out@;
        if p < out.len() && out[p].same(x) {
            proof {
                assert forall|k: Seq<char>| has_text(out@, k) <==> has_text(v@.take(i + 1), k) by {
                    assert(v@.take(i + 1) =~= v@.take(i as int).push(v@[i as int]));
                    if has_text(v@.take(i + 1), k) {
                        let j = choose|j: int| 0 <= j < i + 1 && #[trigger] v@.take(i + 1)[j]@ == k;
                        if j == i {
                            assert(out@[p as int]@ == k);
                        } else {
                            assert(v@.take(i as int)[j]@ == k);
                        }
                    }
                    if has_text(out@, k) {
                        let j = choose|j: int| 0 <= j < out@.len() && #[trigger] out@[j]@ == k;
                        assert(has_text(v@.take(i as int), k));
                        let m = choose|m: int| 0 <= m < i && #[trigger] v@.take(i as int)[m]@ == k;
                        assert(v@.take(i + 1)[m]@ == k);
                    }
                }
            }
        } else {
            let y = x.clone();
            out.insert(p, y);
            proof {
                assert(out@ =~= before.insert(p as int, y));
                if p < before.len() {
                    lemma_text_lt_total(before[p as int]@, x@);
                }
                assert forall|a: int, b: int| 0 <= a < b < out@.len() implies #[trigger] text_lt(
                    name_texts(out@)[a],
                    name_texts(out@)[b],
                ) by {
                    if b < p {
                        assert(text_lt(name_texts(before)[a], name_texts(before)[b]));
                    } else if a > p {
                        assert(text_lt(name_texts(before)[a - 1], name_texts(before)[b - 1]));
                    } else if a == p {
                        // x < before[b - 1]
                        if b - 1 > p {
                            assert(text_lt(name_texts(before)[p as int], name_texts(before)[b - 1]));
                            lemma_text_lt_transitive(x@, before[p as int]@, before[b - 1]@);
                        }
                    } else if b == p {
                        assert(text_lt(before[a]@, x@));
                    } else {
                        // a < p < b
                        assert(text_lt(before[a]@, x@));
                        if b - 1 > p {
                            assert(text_lt(name_texts(before)[p as int], name_texts(before)[b - 1]));
                            lemma_text_lt_transitive(x@, before[p as int]@, before[b - 1]@);
                        }
                        lemma_text_lt_transitive(before[a]@, x@, before[b - 1]@);
                    }
                }
                assert forall|k: Seq<char>| has_text(out@, k) <==> has_text(v@.take(i + 1), k) by {
                    assert(v@.take(i + 1) =~= v@.take(i as int).push(v@[i as int]));
                    if has_text(v@.take(i + 1), k) {
                        let j = choose|j: int| 0 <= j < i + 1 && #[trigger] v@.take(i + 1)[j]@ == k;
                        if j == i {
                            assert(out@[p as int]@ == k);
                        } else {
                            assert(v@.take(i as int)[j]@ == k);
                            assert(has_text(before, k));
                            let m = choose|m: int| 0 <= m < before.len() && #[trigger] before[m]@ == k;
                            if m < p {
                                assert(out@[m]@ == k);
                            } else {
                                assert(out@[m + 1]@ == k);
                            }
                        }
                    }
                    if has_text(out@, k) {
                        let j = choose|j: int| 0 <= j < out@.len() && #[trigger] out@[j]@ == k;
                        if j == p {
                            assert(v@.take(i + 1)[i as int]@ == k);
                        } else {
                            let m = if j < p { j } else { j - 1 };
                            assert(before[m]@ == k);
                            assert(has_text(before, k));
                            let q = choose|q: int| 0 <= q < i && #[trigger] v@.take(i as int)[q]@ == k;
                            assert(v@.take(i + 1)[q]@ == k);
                        }
                    }
                }
            }
        }
        i = i + 1;
    }
    proof {
        assert(v@.take(v@.len() as int) =~= v@);
    }
    out
}

/// Identifiers in strictly increasing order of their values.
pub open spec fn strictly_increasing_ids(s: Seq<SchemaId>) -> bool {
    forall|a: int, b: int| 0 <= a < b < s.len() ==> #[trigger] s[a].value() < #[trigger] s[b].value()
}

/// Sorts identifiers by value and removes duplicates.
pub fn sort_dedup_ids(v: &Vec<SchemaId>) -> (r: Vec<SchemaId>)
    ensures
        strictly_increasing_ids(r@),
        forall|y: SchemaId| r@.contains(y) <==> v@.contains(y),
{
    let mut out: Vec<SchemaId> = Vec::new();
    let mut i: usize = 0;
    while i < v.len()
        invariant
            0 <= i <= v@.len(),
            strictly_increasing_ids(out@),
            forall|y: SchemaId| out@.contains(y) <==> v@.take(i as int).contains(y),
        decreases v@.len() - i,
    {
        let x = v[i];
        let mut p: usize = 0;
        while p < out.len() && out[p].as_u128() < x.as_u128()
            invariant
                0 <= p <= out@.len(),
                forall|j: int| 0 <= j < p ==> #[trigger] out@[j].value() < x.value(),
            decreases out@.len() - p,
        {
            p = p + 1;
        }
        let ghost before = out@;
        proof {
            assert(v@.take(i + 1) =~= v@.take(i as int).push(x));
        }
        if p < out.len() && out[p].as_u128() == x.as_u128() {
            proof {
                SchemaId::lemma_value_injective(out@[p as int], x);
                assert forall|y: SchemaId| out@.contains(y) <==> v@.take(i + 1).contains(y) by {
                    if y == x {
                        assert(out@[p as int] == y);
                    }
                    if v@.take(i + 1).contains(y) && y != x {
                        let j = choose|j: int| 0 <= j < i + 1 && #[trigger] v@.take(i + 1)[j] == y;
                        assert(v@.take(i as int)[j] == y);
                    }
                    if out@.contains(y) {
                        assert(v@.take(i as int).contains(y));
                        let j = choose|j: int| 0 <= j < i && #[trigger] v@.take(i as int)[j] == y;
                        assert(v@.take(i + 1)[j] == y);
                    }
                }
            }
        } else {
            out.insert(p, x);
            proof {
                assert(out@ =~= before.insert(p as int, x));
                assert forall|a: int, b: int| 0 <= a < b < out@.len() implies #[trigger] out@[a].value()
                    < #[trigger] out@[b].value() by {
                    if b < p {
                        assert(before[a].value() < before[b].value());
                    } else if a > p {
                        assert(before[a - 1].value() < before[b - 1].value());
                    } else if a == p {
                        if b - 1 > p {
                            assert(before[p as int].value() < before[b - 1].value());
                        }
                    } else if b == p {
                    } else {
                        if b - 1 > p {
                            assert(before[p as int].value() < before[b - 1].value());
                        }
                    }
                }
                assert forall|y: SchemaId| out@.contains(y) <==> v@.take(i + 1).contains(y) by {
                    if y == x {
                        assert(out@[p as int] == y);
                        assert(v@.take(i + 1)[i as int] == y);
                    } else {
                        if out@.contains(y) {
                            let j = choose|j: int| 0 <= j < out@.len() && #[trigger] out@[j] == y;
                            let m = if j < p { j } else { j - 1 };
                            assert(before[m] == y);
                            assert(before.contains(y));
                            let q = choose|q: int| 0 <= q < i && #[trigger] v@.take(i as int)[q] == y;
                            assert(v@.take(i + 1)[q] == y);
                        }
                        if v@.take(i + 1).contains(y) {
                            let q = choose|q: int| 0 <= q < i + 1 && #[trigger] v@.take(i + 1)[q] == y;
                            assert(v@.take(i as int)[q] == y);
                            assert(v@.take(i as int).contains(y));
                            assert(before.contains(y));
                            let m = choose|m: int| 0 <= m < before.len() && #[trigger] before[m] == y;
                            if m < p {
                                assert(out@[m] == y);
                            } else {
                                assert(out@[m + 1] == y);
                            }
                        }
                    }
                }
            }
        }
        i = i + 1;
    }
    proof {
        assert(v@.take(v@.len() as int) =~= v@);
    }
    out
}

/// Whether `x` occurs in `v`.
pub fn contains_id(v: &[SchemaId], x: SchemaId) -> (r: bool)
    ensures
        r == v@.contains(x),
{
    let mut i: usize = 0;
    while i < v.len()
        invariant
            0 <= i <= v@.len(),
            forall|j: int| 0 <= j < i ==> v@[j] != x,
        decreases v@.len() - i,
    {
        if v[i] == x {
            assert(v@[i as int] == x);
            return true;
        }
        i = i + 1;
    }
    false
}

/// A sequence without duplicates whose elements all occur in `c` is no
/// longer than `c`.
pub proof fn lemma_distinct_within<A>(s: Seq<A>, c: Seq<A>)
    requires
        s.no_duplicates(),
        forall|x: A| s.contains(x) ==> c.contains(x),
    ensures
        s.len() <= c.len(),
{
    broadcast use vstd::seq_lib::group_seq_properties;
    s.unique_seq_to_set();
    c.lemma_cardinality_of_set();
    assert(s.to_set().subset_of(c.to_set()));
    vstd::set_lib::lemma_len_subset(s.to_set(), c.to_set());
}

/// Strictly sorted texts are distinct, so they are as many as the set they
/// form.
pub proof fn lemma_sorted_texts_set_len(s: Seq<Seq<char>>)
    requires
        strictly_sorted_texts(s),
    ensures
        s.no_duplicates(),
        s.to_set().finite(),
        s.to_set().len() == s.len(),
{
    assert forall|a: int, b: int| 0 <= a < b < s.len() implies s[a] != s[b] by {
        assert(text_lt(s[a], s[b]));
        crate::text::lemma_text_lt_irreflexive(s[a]);
    }
    s.unique_seq_to_set();
    vstd::seq_lib::seq_to_set_is_finite(s);
}

/// The texts of names, as a set, are the texts some name carries.
pub proof fn lemma_name_text_set(s: Seq<PropertyName>)
    ensures
        forall|k: Seq<char>| #[trigger] name_texts(s).to_set().contains(k) <==> has_text(s, k),
{
    assert forall|k: Seq<char>| #[trigger] name_texts(s).to_set().contains(k) <==> has_text(s, k) by {
        if name_texts(s).to_set().contains(k) {
            let j = choose|j: int| 0 <= j < name_texts(s).len() && name_texts(s)[j] == k;
            assert(s[j]@ == k);
        }
        if has_text(s, k) {
            let j = choose|j: int| 0 <= j < s.len() && #[trigger] s[j]@ == k;
            assert(name_texts(s)[j] == k);
        }
    }
}

/// Two strictly sorted lists of texts with the same members are the same
/// list.
pub proof fn lemma_sorted_texts_unique(a: Seq<Seq<char>>, b: Seq<Seq<char>>)
    requires
        strictly_sorted_texts(a),
        strictly_sorted_texts(b),
        forall|k: Seq<char>| a.contains(k) <==> b.contains(k),
    ensures
        a == b,
    decreases a.len(),
{
    if a.len() == 0 {
        if b.len() > 0 {
            assert(b.contains(b[0]));
        }
        assert(a =~= b);
    } else {
        assert(a.contains(a[0]));
        assert(b.len() > 0);
        assert(b.contains(b[0]));
        let j = choose|j: int| 0 <= j < b.len() && b[j] == a[0];
        let i = choose|i: int| 0 <= i < a.len() && a[i] == b[0];
        assert(a[0] == b[0]) by {
            if a[0] != b[0] {
                assert(j != 0);
                assert(i != 0);
                assert(text_lt(b[0], b[j]));
                assert(text_lt(a[0], a[i]));
                crate::text::lemma_text_lt_asymmetric(a[0], b[0]);
            }
        }
        let a1 = a.drop_first();
        let b1 = b.drop_first();
        assert(strictly_sorted_texts(a1)) by {
            assert forall|x: int, y: int| 0 <= x < y < a1.len() implies #[trigger] text_lt(a1[x], a1[y]) by {
                assert(text_lt(a[x + 1], a[y + 1]));
            }
        }
        assert(strictly_sorted_texts(b1)) by {
            assert forall|x: int, y: int| 0 <= x < y < b1.len() implies #[trigger] text_lt(b1[x], b1[y]) by {
                assert(text_lt(b[x + 1], b[y + 1]));
            }
        }
        assert forall|k: Seq<char>| a1.contains(k) <==> b1.contains(k) by {
            if a1.contains(k) {
                let x = choose|x: int| 0 <= x < a1.len() && a1[x] == k;
                assert(text_lt(a[0], a[x + 1]));
                crate::text::lemma_text_lt_irreflexive(k);
                assert(a.contains(k));
                let y = choose|y: int| 0 <= y < b.len() && b[y] == k;
                assert(y != 0);
                assert(b1[y - 1] == k);
            }
            if b1.contains(k) {
                let x = choose|x: int| 0 <= x < b1.len() && b1[x] == k;
                assert(text_lt(b[0], b[x + 1]));
                crate::text::lemma_text_lt_irreflexive(k);
                assert(b.contains(k));
                let y = choose|y: int| 0 <= y < a.len() && a[y] == k;
                assert(y != 0);
                assert(a1[y - 1] == k);
            }
        }
        lemma_sorted_texts_unique(a1, b1);
        assert(a =~= seq![a[0]] + a1);
        assert(b =~= seq![b[0]] + b1);
    }
}

} // verus!
