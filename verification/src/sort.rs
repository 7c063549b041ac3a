//! Sorting strings in the order of `String` comparison, and parsed flags
//! by their fully qualified names.

use vstd::prelude::*;
use crate::flags::{flags_view, fully_qualified_name, ParsedFlag, ParsedFlagView};
use crate::text::{chars_le, chars_of, lemma_chars_le_antisymmetric, lemma_chars_le_reflexive,
    lemma_chars_le_total, lemma_chars_le_transitive, strings_view, chars_less_eq};

verus! {

broadcast use vstd::multiset::group_multiset_axioms;

/// `s` is in ascending order.
pub open spec fn is_sorted(s: Seq<Seq<char>>) -> bool {
    forall|i: int, j: int| 0 <= i < j < s.len() ==> chars_le(#[trigger] s[i], #[trigger] s[j])
}

proof fn lemma_insert_multiset<A>(s: Seq<A>, i: int, a: A)
    requires
        0 <= i <= s.len(),
    ensures
        s.insert(i, a).to_multiset() == s.to_multiset().insert(a),
{
    broadcast use vstd::seq_lib::group_to_multiset_ensures;
    let t = s.insert(i, a);
    assert(t.remove(i) =~= s);
    assert(t[i] == a);
    assert(t.contains(a));
    assert(t.to_multiset().count(a) > 0);
    assert(t.to_multiset() =~= t.to_multiset().remove(a).insert(a));
}

/// Sorts `v` in place: afterwards it is in ascending order and holds the
/// same strings as before.
pub fn sort_strings(v: &mut Vec<String>)
    ensures
        is_sorted(strings_view(final(v)@)),
        strings_view(final(v)@).to_multiset() == strings_view(old(v)@).to_multiset(),
        strings_view(final(v)@) == sorted_strings(strings_view(old(v)@)),
{
    broadcast use vstd::seq_lib::group_to_multiset_ensures;
    let mut sorted: Vec<String> = Vec::new();
    let ghost total = strings_view(v@).to_multiset();
    assert(strings_view(sorted@) =~= Seq::<Seq<char>>::empty());
    assert(strings_view(v@).to_multiset().add(strings_view(sorted@).to_multiset()) =~= total);
    while v.len() > 0
        invariant
            is_sorted(strings_view(sorted@)),
            strings_view(v@).to_multiset().add(strings_view(sorted@).to_multiset()) == total,
        decreases v.len(),
    {
        let ghost v0 = v@;
        let x = v.pop().unwrap();
        assert(v0 == v@.push(x));
        assert(strings_view(v0) == strings_view(v@).push(x@));
        let xc = chars_of(x.as_str());
        let ghost sv = strings_view(sorted@);
        let mut j: usize = 0;
        while j < sorted.len() && chars_less_eq(&chars_of(sorted[j].as_str()), &xc)
            invariant
                j <= sorted.len(),
                sv == strings_view(sorted@),
                xc@ == x@,
                forall|k: int| 0 <= k < j ==> chars_le(#[trigger] sv[k], x@),
            decreases sorted.len() - j,
        {
            j = j + 1;
        }
        proof {
            if j < sorted.len() {
                lemma_chars_le_total(sv[j as int], x@);
                assert forall|k: int| j <= k < sv.len() implies chars_le(x@, #[trigger] sv[k]) by {
                    if k > j {
                        lemma_chars_le_transitive(x@, sv[j as int], sv[k]);
                    }
                }
            }
            lemma_insert_multiset(sv, j as int, x@);
        }
        let ghost s0 = sorted@;
        sorted.insert(j, x);
        assert(strings_view(sorted@) =~= sv.insert(j as int, x@)) by {
            assert(sorted@ == s0.insert(j as int, x));
        }
        let ghost nv = sv.insert(j as int, x@);
        assert forall|a: int, b: int| 0 <= a < b < nv.len() implies chars_le(
            #[trigger] nv[a],
            #[trigger] nv[b],
        ) by {
            if a < j && b < j {
            } else if a < j && b == j {
            } else if a < j && b > j {
                lemma_chars_le_transitive(nv[a], x@, nv[b]);
            } else if a == j {
            } else {
            }
        }
        proof {
            strings_view(v@).to_multiset_ensures();
        }
        assert(strings_view(v0).to_multiset() =~= strings_view(v@).to_multiset().insert(x@));
        assert(strings_view(sorted@).to_multiset() =~= sv.to_multiset().insert(x@));
        assert(strings_view(v@).to_multiset().add(strings_view(sorted@).to_multiset()) =~= total);
    }
    assert(strings_view(v@) =~= Seq::<Seq<char>>::empty());
    assert(strings_view(sorted@).to_multiset() =~= total);
    proof {
        lemma_sorted_is_sorted_strings(strings_view(sorted@), strings_view(old(v)@));
    }
    *v = sorted;
}

/// Two sorted sequences with the same elements are equal.
pub proof fn lemma_sorted_unique(a: Seq<Seq<char>>, b: Seq<Seq<char>>)
    requires
        is_sorted(a),
        is_sorted(b),
        a.to_multiset() == b.to_multiset(),
    ensures
        a == b,
    decreases a.len(),
{
    broadcast use vstd::seq_lib::group_to_multiset_ensures;
    assert(a.len() == a.to_multiset().len());
    assert(b.len() == b.to_multiset().len());
    if a.len() > 0 {
        assert(a.contains(a[0]));
        assert(b.to_multiset().count(a[0]) > 0);
        assert(b.contains(a[0]));
        assert(a.to_multiset().count(b[0]) > 0);
        assert(a.contains(b[0]));
        let ia = choose|k: int| 0 <= k < a.len() && a[k] == b[0];
        let ib = choose|k: int| 0 <= k < b.len() && b[k] == a[0];
        if ia > 0 {
            assert(chars_le(a[0], a[ia]));
        } else {
            lemma_chars_le_reflexive(a[0]);
        }
        if ib > 0 {
            assert(chars_le(b[0], b[ib]));
        } else {
            lemma_chars_le_reflexive(b[0]);
        }
        lemma_chars_le_antisymmetric(a[0], b[0]);
        assert(a.remove(0) =~= a.drop_first());
        assert(b.remove(0) =~= b.drop_first());
        assert(a.drop_first().to_multiset() =~= b.drop_first().to_multiset());
        lemma_sorted_unique(a.drop_first(), b.drop_first());
        assert(a =~= b) by {
            assert forall|k: int| 0 <= k < a.len() implies a[k] == b[k] by {
                if k > 0 {
                    assert(a[k] == a.drop_first()[k - 1]);
                    assert(b[k] == b.drop_first()[k - 1]);
                }
            }
        }
    }
}


/// The order of `String` comparison, as a relation.
pub open spec fn string_order() -> spec_fn(Seq<char>, Seq<char>) -> bool {
    |a: Seq<char>, b: Seq<char>| chars_le(a, b)
}

/// `s` sorted in the order of `String` comparison.
pub open spec fn sorted_strings(s: Seq<Seq<char>>) -> Seq<Seq<char>> {
    s.sort_by(string_order())
}

pub proof fn lemma_string_order_total()
    ensures
        vstd::relations::total_ordering(string_order()),
{
    let r = string_order();
    assert forall|x: Seq<char>| #[trigger] r(x, x) by {
        lemma_chars_le_reflexive(x);
    }
    assert forall|x: Seq<char>, y: Seq<char>| #[trigger] r(x, y) && #[trigger] r(y, x) implies x
        == y by {
        lemma_chars_le_antisymmetric(x, y);
    }
    assert forall|x: Seq<char>, y: Seq<char>, z: Seq<char>| #[trigger] r(x, y) && #[trigger] r(
        y,
        z,
    ) implies r(x, z) by {
        lemma_chars_le_transitive(x, y, z);
    }
    assert forall|x: Seq<char>, y: Seq<char>| #[trigger] r(x, y) || #[trigger] r(y, x) by {
        lemma_chars_le_total(x, y);
    }
}

/// A sorted arrangement of the elements of `s` is `sorted_strings(s)`.
pub proof fn lemma_sorted_is_sorted_strings(x: Seq<Seq<char>>, s: Seq<Seq<char>>)
    requires
        is_sorted(x),
        x.to_multiset() == s.to_multiset(),
    ensures
        x == sorted_strings(s),
{
    lemma_string_order_total();
    s.lemma_sort_by_ensures(string_order());
    let y = sorted_strings(s);
    assert(is_sorted(y)) by {
        assert forall|i: int, j: int| 0 <= i < j < y.len() implies chars_le(
            #[trigger] y[i],
            #[trigger] y[j],
        ) by {
            assert(string_order()(y[i], y[j]));
        }
    }
    lemma_sorted_unique(x, y);
}

/// Sorting ignores the order of the input: sequences with the same
/// elements sort alike.
pub proof fn lemma_sorted_strings_ignore_order(a: Seq<Seq<char>>, b: Seq<Seq<char>>)
    requires
        a.to_multiset() == b.to_multiset(),
    ensures
        sorted_strings(a) == sorted_strings(b),
{
    lemma_string_order_total();
    a.lemma_sort_by_ensures(string_order());
    b.lemma_sort_by_ensures(string_order());
    let x = sorted_strings(a);
    assert(is_sorted(x)) by {
        assert forall|i: int, j: int| 0 <= i < j < x.len() implies chars_le(
            #[trigger] x[i],
            #[trigger] x[j],
        ) by {
            assert(string_order()(x[i], x[j]));
        }
    }
    lemma_sorted_is_sorted_strings(x, b);
}

/// `a` comes no later than `b` in the order of parsed flags: by fully
/// qualified name.
pub open spec fn flag_le(a: ParsedFlagView, b: ParsedFlagView) -> bool {
    chars_le(fully_qualified_name(a), fully_qualified_name(b))
}

/// The flags are in ascending order of fully qualified name.
pub open spec fn flags_sorted(s: Seq<ParsedFlagView>) -> bool {
    forall|i: int, j: int| 0 <= i < j < s.len() ==> flag_le(#[trigger] s[i], #[trigger] s[j])
}

/// `s` with `f` placed after the last flag that does not come after it.
pub open spec fn insert_flag(s: Seq<ParsedFlagView>, f: ParsedFlagView) -> Seq<ParsedFlagView>
    decreases s.len(),
{
    if s.len() == 0 {
        seq![f]
    } else if flag_le(s.last(), f) {
        s.push(f)
    } else {
        insert_flag(s.drop_last(), f).push(s.last())
    }
}

/// `s` sorted by fully qualified name; flags with equal names keep their
/// order.
pub open spec fn sorted_flags(s: Seq<ParsedFlagView>) -> Seq<ParsedFlagView>
    decreases s.len(),
{
    if s.len() == 0 {
        Seq::empty()
    } else {
        insert_flag(sorted_flags(s.drop_last()), s.last())
    }
}

proof fn lemma_insert_flag(s: Seq<ParsedFlagView>, f: ParsedFlagView)
    ensures
        insert_flag(s, f).to_multiset() == s.to_multiset().insert(f),
        insert_flag(s, f).len() == s.len() + 1,
        flags_sorted(s) ==> flags_sorted(insert_flag(s, f)),
    decreases s.len(),
{
    broadcast use vstd::seq_lib::group_to_multiset_ensures;
    if s.len() == 0 {
        assert(seq![f] =~= Seq::<ParsedFlagView>::empty().push(f));
        assert(s =~= Seq::<ParsedFlagView>::empty());
    } else if flag_le(s.last(), f) {
        if flags_sorted(s) {
            let t = s.push(f);
            assert forall|i: int, j: int| 0 <= i < j < t.len() implies flag_le(
                #[trigger] t[i],
                #[trigger] t[j],
            ) by {
                if j == s.len() && i < s.len() - 1 {
                    lemma_chars_le_transitive(
                        fully_qualified_name(s[i]),
                        fully_qualified_name(s.last()),
                        fully_qualified_name(f),
                    );
                }
            }
        }
    } else {
        let d = s.drop_last();
        let l = s.last();
        lemma_insert_flag(d, f);
        assert(s =~= d.push(l));
        let u = insert_flag(d, f);
        assert(u.push(l).to_multiset() =~= u.to_multiset().insert(l));
        assert(s.to_multiset() =~= d.to_multiset().insert(l));
        assert(u.push(l).to_multiset() =~= s.to_multiset().insert(f));
        if flags_sorted(s) {
            lemma_chars_le_total(fully_qualified_name(l), fully_qualified_name(f));
            assert(flags_sorted(d));
            let t = u.push(l);
            assert forall|k: int| 0 <= k < u.len() implies flag_le(#[trigger] u[k], l) by {
                assert(u.to_multiset().count(u[k]) > 0);
                assert(u.contains(u[k]));
                if u[k] != f {
                    assert(d.to_multiset().count(u[k]) > 0);
                    assert(d.contains(u[k]));
                    let m = choose|m: int| 0 <= m < d.len() && d[m] == u[k];
                    assert(s[m] == d[m]);
                    assert(flag_le(s[m], s[s.len() - 1]));
                }
            }
            assert forall|i: int, j: int| 0 <= i < j < t.len() implies flag_le(
                #[trigger] t[i],
                #[trigger] t[j],
            ) by {
                if j == u.len() {
                    assert(t[i] == u[i]);
                } else {
                    assert(t[i] == u[i] && t[j] == u[j]);
                }
            }
        }
    }
}

/// A flag of `insert_flag(s, f)` is `f` or a flag of `s`.
pub proof fn lemma_insert_flag_elements(s: Seq<ParsedFlagView>, f: ParsedFlagView)
    ensures
        forall|x: ParsedFlagView| #[trigger] insert_flag(s, f).contains(x) ==> x == f || s.contains(x),
{
    broadcast use vstd::seq_lib::group_to_multiset_ensures;
    lemma_insert_flag(s, f);
    assert forall|x: ParsedFlagView| #[trigger] insert_flag(s, f).contains(x) implies x == f
        || s.contains(x) by {
        assert(insert_flag(s, f).to_multiset().count(x) > 0);
        if x != f {
            assert(s.to_multiset().count(x) > 0);
        }
    }
}

/// `sorted_flags(s)` is in order and holds the flags of `s`.
pub proof fn lemma_sorted_flags(s: Seq<ParsedFlagView>)
    ensures
        flags_sorted(sorted_flags(s)),
        sorted_flags(s).to_multiset() == s.to_multiset(),
        sorted_flags(s).len() == s.len(),
    decreases s.len(),
{
    broadcast use vstd::seq_lib::group_to_multiset_ensures;
    if s.len() > 0 {
        lemma_sorted_flags(s.drop_last());
        lemma_insert_flag(sorted_flags(s.drop_last()), s.last());
        assert(s =~= s.drop_last().push(s.last()));
        assert(s.to_multiset() =~= s.drop_last().to_multiset().insert(s.last()));
    } else {
        assert(sorted_flags(s) =~= s);
    }
}

/// Sorts parsed flags by fully qualified name; flags with equal names keep
/// their order.
pub fn sort_parsed_flags(flags: &mut Vec<ParsedFlag>)
    ensures
        flags_view(final(flags)@) == sorted_flags(flags_view(old(flags)@)),
        flags_sorted(flags_view(final(flags)@)),
        flags_view(final(flags)@).to_multiset() == flags_view(old(flags)@).to_multiset(),
{
    let ghost fv = flags_view(flags@);
    let n = flags.len();
    let mut rev: Vec<ParsedFlag> = Vec::new();
    while flags.len() > 0
        invariant
            rev.len() + flags.len() == n,
            n == fv.len(),
            forall|j: int| 0 <= j < flags.len() ==> (#[trigger] flags@[j])@ == fv[j],
            forall|j: int| 0 <= j < rev.len() ==> (#[trigger] rev@[j])@ == fv[n - 1 - j],
        decreases flags.len(),
    {
        let f = flags.pop().unwrap();
        rev.push(f);
    }
    let mut sorted: Vec<ParsedFlag> = Vec::new();
    assert(fv.take(0) =~= Seq::<ParsedFlagView>::empty());
    assert(flags_view(sorted@) =~= Seq::<ParsedFlagView>::empty());
    while rev.len() > 0
        invariant
            rev.len() <= n,
            n == fv.len(),
            forall|j: int| 0 <= j < rev.len() ==> (#[trigger] rev@[j])@ == fv[n - 1 - j],
            flags_view(sorted@) == sorted_flags(fv.take(n - rev.len())),
        decreases rev.len(),
    {
        let ghost k = n - rev.len();
        assert(fv.take(k + 1).drop_last() =~= fv.take(k));
        let f = rev.pop().unwrap();
        assert(f@ == fv[k]);
        let ghost sv = flags_view(sorted@);
        let key = chars_of(f.fully_qualified_name().as_str());
        let mut j: usize = sorted.len();
        assert(sv.take(j as int) =~= sv);
        assert(insert_flag(sv, f@) + sv.skip(j as int) =~= insert_flag(sv, f@));
        while j > 0 && !chars_less_eq(&chars_of(sorted[j - 1].fully_qualified_name().as_str()), &key)
            invariant
                j <= sorted.len(),
                sv == flags_view(sorted@),
                key@ == fully_qualified_name(f@),
                insert_flag(sv, f@) == insert_flag(sv.take(j as int), f@) + sv.skip(j as int),
            decreases j,
        {
            let ghost t = sv.take(j as int);
            assert(t.drop_last() =~= sv.take(j - 1));
            assert(t.last() == sv[j - 1]);
            assert(sv.skip(j - 1) =~= seq![sv[j - 1]] + sv.skip(j as int));
            assert(insert_flag(t, f@) == insert_flag(sv.take(j - 1), f@).push(sv[j - 1]));
            assert(insert_flag(sv.take(j - 1), f@).push(sv[j - 1]) + sv.skip(j as int)
                =~= insert_flag(sv.take(j - 1), f@) + sv.skip(j - 1));
            j = j - 1;
        }
        let ghost s0 = sorted@;
        sorted.insert(j, f);
        assert(flags_view(sorted@) =~= sv.take(j as int).push(f@) + sv.skip(j as int)) by {
            assert(sorted@ == s0.insert(j as int, f));
        }
        assert(insert_flag(sv.take(j as int), f@) == sv.take(j as int).push(f@)) by {
            if j == 0 {
                assert(sv.take(0) =~= Seq::<ParsedFlagView>::empty());
                assert(seq![f@] =~= Seq::<ParsedFlagView>::empty().push(f@));
            } else {
                assert(sv.take(j as int).last() == sv[j - 1]);
            }
        }
        assert(sv.take(j as int) + sv.skip(j as int) =~= sv);
        assert(fv.take(k + 1).last() == fv[k]);
    }
    assert(fv.take(n as int) =~= fv);
    proof {
        lemma_sorted_flags(fv);
    }
    *flags = sorted;
}

} // verus!
