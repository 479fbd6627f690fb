//! Tables from player names to signed points, modelled as association
//! sequences with unique keys.

use vstd::prelude::*;

use crate::text::str_eq;

verus! {

/// The value of the magnitude of `x`.
pub open spec fn abs_val(x: int) -> int {
    if x < 0 {
        -x
    } else {
        x
    }
}

/// The value bound to `k`, reading the first matching entry.
pub open spec fn lookup(s: Seq<(Seq<char>, int)>, k: Seq<char>) -> Option<int>
    decreases s.len(),
{
    if s.len() == 0 {
        None
    } else if s[0].0 == k {
        Some(s[0].1)
    } else {
        lookup(s.drop_first(), k)
    }
}

/// The value bound to `k`, or zero when `k` is absent.
pub open spec fn lookup0(s: Seq<(Seq<char>, int)>, k: Seq<char>) -> int {
    match lookup(s, k) {
        Some(v) => v,
        None => 0,
    }
}

/// Binds `k` to `v`: replaces the first entry with key `k`, or appends one.
pub open spec fn put(s: Seq<(Seq<char>, int)>, k: Seq<char>, v: int) -> Seq<(Seq<char>, int)>
    decreases s.len(),
{
    if s.len() == 0 {
        seq![(k, v)]
    } else if s[0].0 == k {
        seq![(k, v)] + s.drop_first()
    } else {
        seq![s[0]] + put(s.drop_first(), k, v)
    }
}

/// Adds `v` to what `k` is bound to, binding `k` to `v` when it is absent.
pub open spec fn add_put(s: Seq<(Seq<char>, int)>, k: Seq<char>, v: int) -> Seq<(Seq<char>, int)>
    decreases s.len(),
{
    if s.len() == 0 {
        seq![(k, v)]
    } else if s[0].0 == k {
        seq![(k, s[0].1 + v)] + s.drop_first()
    } else {
        seq![s[0]] + add_put(s.drop_first(), k, v)
    }
}

/// Binds every name of `names` to `v`, first name first.
pub open spec fn put_all(s: Seq<(Seq<char>, int)>, names: Seq<Seq<char>>, v: int) -> Seq<
    (Seq<char>, int),
>
    decreases names.len(),
{
    if names.len() == 0 {
        s
    } else {
        put_all(put(s, names[0], v), names.drop_first(), v)
    }
}

/// Adds every entry of `es` into `acc`, first entry first.
pub open spec fn add_entries(acc: Seq<(Seq<char>, int)>, es: Seq<(Seq<char>, int)>) -> Seq<
    (Seq<char>, int),
>
    decreases es.len(),
{
    if es.len() == 0 {
        acc
    } else {
        add_entries(add_put(acc, es[0].0, es[0].1), es.drop_first())
    }
}

/// Adds one point under every name of `names`, first name first.
pub open spec fn add_names(acc: Seq<(Seq<char>, int)>, names: Seq<Seq<char>>) -> Seq<
    (Seq<char>, int),
>
    decreases names.len(),
{
    if names.len() == 0 {
        acc
    } else {
        add_names(add_put(acc, names[0], 1), names.drop_first())
    }
}

/// The sum of all bound values.
pub open spec fn sum_values(s: Seq<(Seq<char>, int)>) -> int
    decreases s.len(),
{
    if s.len() == 0 {
        0
    } else {
        s[0].1 + sum_values(s.drop_first())
    }
}

/// The sum of the magnitudes of all bound values.
pub open spec fn sum_abs(s: Seq<(Seq<char>, int)>) -> int
    decreases s.len(),
{
    if s.len() == 0 {
        0
    } else {
        abs_val(s[0].1) + sum_abs(s.drop_first())
    }
}

/// No key occurs twice.
pub open spec fn keys_distinct(s: Seq<(Seq<char>, int)>) -> bool
    decreases s.len(),
{
    s.len() == 0 || (lookup(s.drop_first(), s[0].0) is None && keys_distinct(s.drop_first()))
}

/// Every bound value has magnitude at most `b`.
pub open spec fn values_bounded(s: Seq<(Seq<char>, int)>, b: int) -> bool {
    forall|i: int| 0 <= i < s.len() ==> abs_val((#[trigger] s[i]).1) <= b
}

/// The table read as a mathematical map.
pub open spec fn as_map(s: Seq<(Seq<char>, int)>) -> Map<Seq<char>, int> {
    Map::new(|k: Seq<char>| lookup(s, k) is Some, |k: Seq<char>| lookup0(s, k))
}

/// What holds of the empty table.
pub proof fn lemma_empty_table(q: Seq<char>)
    ensures
        lookup(Seq::<(Seq<char>, int)>::empty(), q) is None,
        sum_values(Seq::<(Seq<char>, int)>::empty()) == 0,
        sum_abs(Seq::<(Seq<char>, int)>::empty()) == 0,
        keys_distinct(Seq::<(Seq<char>, int)>::empty()),
{
}

/// `lookup` fails exactly when no entry has the key.
pub proof fn lemma_lookup_none(s: Seq<(Seq<char>, int)>, k: Seq<char>)
    ensures
        (lookup(s, k) is None) <==> (forall|i: int| 0 <= i < s.len() ==> (#[trigger] s[i]).0 != k),
    decreases s.len(),
{
    if s.len() > 0 {
        lemma_lookup_none(s.drop_first(), k);
        if lookup(s, k) is None {
            assert forall|i: int| 0 <= i < s.len() implies (#[trigger] s[i]).0 != k by {
                if i > 0 {
                    assert(s.drop_first()[i - 1] == s[i]);
                }
            }
        } else {
            if s[0].0 != k {
                let d = s.drop_first();
                assert(exists|i: int| 0 <= i < d.len() && (#[trigger] d[i]).0 == k);
                let i = choose|i: int| 0 <= i < d.len() && (#[trigger] d[i]).0 == k;
                assert(s[i + 1].0 == k);
            }
        }
    }
}

/// `lookup` reads the first entry with the key.
pub proof fn lemma_lookup_first(s: Seq<(Seq<char>, int)>, k: Seq<char>, i: int)
    requires
        0 <= i < s.len(),
        s[i].0 == k,
        forall|j: int| 0 <= j < i ==> (#[trigger] s[j]).0 != k,
    ensures
        lookup(s, k) == Some(s[i].1),
    decreases i,
{
    if i > 0 {
        let d = s.drop_first();
        assert forall|j: int| 0 <= j < i - 1 implies (#[trigger] d[j]).0 != k by {
            assert(d[j] == s[j + 1]);
        }
        assert(d[i - 1] == s[i]);
        lemma_lookup_first(d, k, i - 1);
    }
}

/// What `put` leaves readable: the new binding, and every other key as it was.
pub proof fn lemma_put_lookup(s: Seq<(Seq<char>, int)>, k: Seq<char>, v: int, q: Seq<char>)
    ensures
        lookup(put(s, k, v), q) == if q == k {
            Some(v)
        } else {
            lookup(s, q)
        },
    decreases s.len(),
{
    let t = put(s, k, v);
    if s.len() == 0 {
        assert(t.drop_first() =~= Seq::<(Seq<char>, int)>::empty());
        lemma_empty_table(q);
    } else if s[0].0 == k {
        assert(t.drop_first() =~= s.drop_first());
    } else {
        lemma_put_lookup(s.drop_first(), k, v, q);
        assert(t.drop_first() =~= put(s.drop_first(), k, v));
    }
}

/// `put` on an absent key appends the binding.
pub proof fn lemma_put_fresh(s: Seq<(Seq<char>, int)>, k: Seq<char>, v: int)
    requires
        lookup(s, k) is None,
    ensures
        put(s, k, v) =~= s.push((k, v)),
    decreases s.len(),
{
    if s.len() > 0 {
        lemma_put_fresh(s.drop_first(), k, v);
        assert(put(s, k, v) =~= seq![s[0]] + put(s.drop_first(), k, v));
    }
}

/// `put` on a present key updates the first entry that holds it.
pub proof fn lemma_put_update_at(s: Seq<(Seq<char>, int)>, k: Seq<char>, v: int, i: int)
    requires
        0 <= i < s.len(),
        s[i].0 == k,
        forall|j: int| 0 <= j < i ==> (#[trigger] s[j]).0 != k,
    ensures
        put(s, k, v) =~= s.update(i, (k, v)),
    decreases i,
{
    if i == 0 {
        assert(put(s, k, v) =~= s.update(0, (k, v)));
    } else {
        let d = s.drop_first();
        assert forall|j: int| 0 <= j < i - 1 implies (#[trigger] d[j]).0 != k by {
            assert(d[j] == s[j + 1]);
        }
        assert(d[i - 1] == s[i]);
        lemma_put_update_at(d, k, v, i - 1);
        assert(put(s, k, v) =~= seq![s[0]] + put(d, k, v));
        assert(seq![s[0]] + d.update(i - 1, (k, v)) =~= s.update(i, (k, v)));
    }
}

/// `put` keeps keys unique.
pub proof fn lemma_put_distinct(s: Seq<(Seq<char>, int)>, k: Seq<char>, v: int)
    requires
        keys_distinct(s),
    ensures
        keys_distinct(put(s, k, v)),
    decreases s.len(),
{
    let t = put(s, k, v);
    if s.len() == 0 {
        assert(t.drop_first() =~= Seq::<(Seq<char>, int)>::empty());
        lemma_empty_table(k);
    } else if s[0].0 == k {
        assert(t.drop_first() =~= s.drop_first());
        assert(t[0].0 == s[0].0);
    } else {
        lemma_put_distinct(s.drop_first(), k, v);
        assert(t.drop_first() =~= put(s.drop_first(), k, v));
        lemma_put_lookup(s.drop_first(), k, v, s[0].0);
        assert(t[0].0 == s[0].0);
    }
}

/// How `put` moves the sum of the values.
pub proof fn lemma_put_sum(s: Seq<(Seq<char>, int)>, k: Seq<char>, v: int)
    ensures
        sum_values(put(s, k, v)) == sum_values(s) + v - lookup0(s, k),
        sum_abs(put(s, k, v)) <= sum_abs(s) + abs_val(v),
    decreases s.len(),
{
    let t = put(s, k, v);
    if s.len() == 0 {
        assert(t.drop_first() =~= Seq::<(Seq<char>, int)>::empty());
        lemma_empty_table(k);
    } else if s[0].0 == k {
        assert(t.drop_first() =~= s.drop_first());
    } else {
        lemma_put_sum(s.drop_first(), k, v);
        assert(t.drop_first() =~= put(s.drop_first(), k, v));
    }
}

/// What `add_put` leaves readable.
pub proof fn lemma_add_put_lookup(s: Seq<(Seq<char>, int)>, k: Seq<char>, v: int, q: Seq<char>)
    ensures
        lookup(add_put(s, k, v), q) == if q == k {
            Some(lookup0(s, k) + v)
        } else {
            lookup(s, q)
        },
    decreases s.len(),
{
    let t = add_put(s, k, v);
    if s.len() == 0 {
        assert(t.drop_first() =~= Seq::<(Seq<char>, int)>::empty());
        lemma_empty_table(q);
    } else if s[0].0 == k {
        assert(t.drop_first() =~= s.drop_first());
    } else {
        lemma_add_put_lookup(s.drop_first(), k, v, q);
        assert(t.drop_first() =~= add_put(s.drop_first(), k, v));
    }
}

/// `add_put` on an absent key appends the binding.
pub proof fn lemma_add_put_fresh(s: Seq<(Seq<char>, int)>, k: Seq<char>, v: int)
    requires
        lookup(s, k) is None,
    ensures
        add_put(s, k, v) =~= s.push((k, v)),
    decreases s.len(),
{
    if s.len() > 0 {
        lemma_add_put_fresh(s.drop_first(), k, v);
        assert(add_put(s, k, v) =~= seq![s[0]] + add_put(s.drop_first(), k, v));
    }
}

/// `add_put` on a present key adds into the first entry that holds it.
pub proof fn lemma_add_put_update_at(s: Seq<(Seq<char>, int)>, k: Seq<char>, v: int, i: int)
    requires
        0 <= i < s.len(),
        s[i].0 == k,
        forall|j: int| 0 <= j < i ==> (#[trigger] s[j]).0 != k,
    ensures
        add_put(s, k, v) =~= s.update(i, (k, s[i].1 + v)),
    decreases i,
{
    if i == 0 {
        assert(add_put(s, k, v) =~= s.update(0, (k, s[0].1 + v)));
    } else {
        let d = s.drop_first();
        assert forall|j: int| 0 <= j < i - 1 implies (#[trigger] d[j]).0 != k by {
            assert(d[j] == s[j + 1]);
        }
        assert(d[i - 1] == s[i]);
        lemma_add_put_update_at(d, k, v, i - 1);
        assert(add_put(s, k, v) =~= seq![s[0]] + add_put(d, k, v));
        assert(seq![s[0]] + d.update(i - 1, (k, s[i].1 + v)) =~= s.update(i, (k, s[i].1 + v)));
    }
}

/// `add_put` keeps keys unique.
pub proof fn lemma_add_put_distinct(s: Seq<(Seq<char>, int)>, k: Seq<char>, v: int)
    requires
        keys_distinct(s),
    ensures
        keys_distinct(add_put(s, k, v)),
    decreases s.len(),
{
    let t = add_put(s, k, v);
    if s.len() == 0 {
        assert(t.drop_first() =~= Seq::<(Seq<char>, int)>::empty());
        lemma_empty_table(k);
    } else if s[0].0 == k {
        assert(t.drop_first() =~= s.drop_first());
        assert(t[0].0 == s[0].0);
    } else {
        lemma_add_put_distinct(s.drop_first(), k, v);
        assert(t.drop_first() =~= add_put(s.drop_first(), k, v));
        lemma_add_put_lookup(s.drop_first(), k, v, s[0].0);
        assert(t[0].0 == s[0].0);
    }
}

/// `add_put` of a value of magnitude at most `c` keeps every value within
/// the old bound plus `c`.
pub proof fn lemma_add_put_bounded(s: Seq<(Seq<char>, int)>, k: Seq<char>, v: int, b: int, c: int)
    requires
        values_bounded(s, b),
        abs_val(v) <= c,
        0 <= b,
        0 <= c,
    ensures
        values_bounded(add_put(s, k, v), b + c),
    decreases s.len(),
{
    let t = add_put(s, k, v);
    if s.len() == 0 {
        assert(t[0].1 == v);
    } else if s[0].0 == k {
        assert forall|i: int| 0 <= i < t.len() implies abs_val((#[trigger] t[i]).1) <= b + c by {
            if i > 0 {
                assert(t[i] == s[i]);
            } else {
                assert(abs_val(s[0].1) <= b);
            }
        }
    } else {
        assert(values_bounded(s.drop_first(), b)) by {
            assert forall|i: int|
                0 <= i < s.drop_first().len() implies abs_val(
                (#[trigger] s.drop_first()[i]).1,
            ) <= b by {
                assert(s.drop_first()[i] == s[i + 1]);
            }
        }
        lemma_add_put_bounded(s.drop_first(), k, v, b, c);
        assert(t =~= seq![s[0]] + add_put(s.drop_first(), k, v));
        assert forall|i: int| 0 <= i < t.len() implies abs_val((#[trigger] t[i]).1) <= b + c by {
            if i > 0 {
                assert(t[i] == add_put(s.drop_first(), k, v)[i - 1]);
            } else {
                assert(abs_val(s[0].1) <= b);
            }
        }
    }
}

/// `put_all` peels names off from the right as well.
pub proof fn lemma_put_all_push(
    s: Seq<(Seq<char>, int)>,
    names: Seq<Seq<char>>,
    v: int,
    n: Seq<char>,
)
    ensures
        put_all(s, names.push(n), v) == put(put_all(s, names, v), n, v),
    decreases names.len(),
{
    if names.len() == 0 {
        assert(names.push(n)[0] == n);
        assert(names.push(n).drop_first() =~= Seq::<Seq<char>>::empty());
        assert(put_all(put(s, n, v), names.push(n).drop_first(), v) == put(s, n, v));
        assert(put_all(s, names, v) == s);
    } else {
        assert(names.push(n)[0] == names[0]);
        assert(names.push(n).drop_first() =~= names.drop_first().push(n));
        lemma_put_all_push(put(s, names[0], v), names.drop_first(), v, n);
    }
}

/// What `put_all` leaves readable: `v` under every name of the list, and
/// every other key as it was.
pub proof fn lemma_put_all_lookup(
    s: Seq<(Seq<char>, int)>,
    names: Seq<Seq<char>>,
    v: int,
    q: Seq<char>,
)
    ensures
        lookup(put_all(s, names, v), q) == if names.contains(q) {
            Some(v)
        } else {
            lookup(s, q)
        },
    decreases names.len(),
{
    if names.len() == 0 {
        assert(!names.contains(q));
    } else {
        lemma_put_all_lookup(put(s, names[0], v), names.drop_first(), v, q);
        lemma_put_lookup(s, names[0], v, q);
        if names.contains(q) {
            let i = choose|i: int| 0 <= i < names.len() && names[i] == q;
            if i > 0 {
                assert(names.drop_first()[i - 1] == q);
                assert(names.drop_first().contains(q));
            }
        } else {
            assert(!names.drop_first().contains(q)) by {
                if names.drop_first().contains(q) {
                    let i = choose|i: int|
                        0 <= i < names.drop_first().len() && names.drop_first()[i] == q;
                    assert(names[i + 1] == q);
                }
            }
            assert(names[0] != q);
        }
    }
}

/// `put_all` keeps keys unique.
pub proof fn lemma_put_all_distinct(s: Seq<(Seq<char>, int)>, names: Seq<Seq<char>>, v: int)
    requires
        keys_distinct(s),
    ensures
        keys_distinct(put_all(s, names, v)),
    decreases names.len(),
{
    if names.len() > 0 {
        lemma_put_distinct(s, names[0], v);
        lemma_put_all_distinct(put(s, names[0], v), names.drop_first(), v);
    }
}

/// `put_all` grows the sum of magnitudes by at most one `v` per name.
pub proof fn lemma_put_all_sum_abs(s: Seq<(Seq<char>, int)>, names: Seq<Seq<char>>, v: int)
    ensures
        sum_abs(put_all(s, names, v)) <= sum_abs(s) + names.len() * abs_val(v),
    decreases names.len(),
{
    if names.len() == 0 {
        assert(names.len() * abs_val(v) == 0);
    } else {
        lemma_put_sum(s, names[0], v);
        lemma_put_all_sum_abs(put(s, names[0], v), names.drop_first(), v);
        assert(names.drop_first().len() * abs_val(v) + abs_val(v) == names.len() * abs_val(v))
            by (nonlinear_arith)
            requires
                names.len() >= 1,
                names.drop_first().len() == names.len() - 1,
        ;
    }
}

/// Binding distinct fresh names adds exactly one `v` per name to the sum.
pub proof fn lemma_put_all_fresh_sum(s: Seq<(Seq<char>, int)>, names: Seq<Seq<char>>, v: int)
    requires
        names.no_duplicates(),
        forall|i: int| 0 <= i < names.len() ==> lookup(s, #[trigger] names[i]) is None,
    ensures
        sum_values(put_all(s, names, v)) == sum_values(s) + names.len() * v,
    decreases names.len(),
{
    if names.len() == 0 {
        assert(names.len() * v == 0);
    } else {
        assert(lookup(s, names[0]) is None);
        lemma_put_sum(s, names[0], v);
        let s1 = put(s, names[0], v);
        assert forall|i: int|
            0 <= i < names.drop_first().len() implies lookup(
            s1,
            #[trigger] names.drop_first()[i],
        ) is None by {
            assert(names.drop_first()[i] == names[i + 1]);
            lemma_put_lookup(s, names[0], v, names[i + 1]);
            assert(names[i + 1] != names[0]);
            assert(lookup(s, names[i + 1]) is None);
        }
        assert(names.drop_first().no_duplicates()) by {
            assert forall|i: int, j: int|
                0 <= i < j < names.drop_first().len() implies names.drop_first()[i]
                != names.drop_first()[j] by {
                assert(names.drop_first()[i] == names[i + 1]);
                assert(names.drop_first()[j] == names[j + 1]);
            }
        }
        lemma_put_all_fresh_sum(s1, names.drop_first(), v);
        assert(names.drop_first().len() * v + v == names.len() * v) by (nonlinear_arith)
            requires
                names.len() >= 1,
                names.drop_first().len() == names.len() - 1,
        ;
    }
}

/// Appending one entry extends the sums by that entry.
pub proof fn lemma_sum_push(s: Seq<(Seq<char>, int)>, e: (Seq<char>, int))
    ensures
        sum_values(s.push(e)) == sum_values(s) + e.1,
        sum_abs(s.push(e)) == sum_abs(s) + abs_val(e.1),
    decreases s.len(),
{
    if s.len() == 0 {
        assert(s.push(e)[0] == e);
        assert(s.push(e).drop_first() =~= Seq::<(Seq<char>, int)>::empty());
        lemma_empty_table(e.0);
    } else {
        assert(s.push(e)[0] == s[0]);
        assert(s.push(e).drop_first() =~= s.drop_first().push(e));
        lemma_sum_push(s.drop_first(), e);
    }
}

/// The sums split at any position.
pub proof fn lemma_sum_split(s: Seq<(Seq<char>, int)>, i: int)
    requires
        0 <= i <= s.len(),
    ensures
        sum_values(s) == sum_values(s.take(i)) + sum_values(s.skip(i)),
        sum_abs(s) == sum_abs(s.take(i)) + sum_abs(s.skip(i)),
    decreases i,
{
    if i == 0 {
        assert(s.take(0) =~= Seq::<(Seq<char>, int)>::empty());
        assert(s.skip(0) =~= s);
        lemma_empty_table(Seq::<char>::empty());
    } else {
        lemma_sum_split(s.drop_first(), i - 1);
        assert(s.take(i).drop_first() =~= s.drop_first().take(i - 1));
        assert(s.take(i)[0] == s[0]);
        assert(s.skip(i) =~= s.drop_first().skip(i - 1));
    }
}

/// The sum of magnitudes is never negative.
pub proof fn lemma_sum_abs_nonneg(s: Seq<(Seq<char>, int)>)
    ensures
        sum_abs(s) >= 0,
    decreases s.len(),
{
    if s.len() > 0 {
        lemma_sum_abs_nonneg(s.drop_first());
    }
}

/// `add_entries` peels entries off from the right as well.
pub proof fn lemma_add_entries_push(
    acc: Seq<(Seq<char>, int)>,
    es: Seq<(Seq<char>, int)>,
    e: (Seq<char>, int),
)
    ensures
        add_entries(acc, es.push(e)) == add_put(add_entries(acc, es), e.0, e.1),
    decreases es.len(),
{
    if es.len() == 0 {
        assert(es.push(e)[0] == e);
        assert(es.push(e).drop_first() =~= Seq::<(Seq<char>, int)>::empty());
        assert(add_entries(add_put(acc, e.0, e.1), es.push(e).drop_first()) == add_put(
            acc,
            e.0,
            e.1,
        ));
        assert(add_entries(acc, es) == acc);
    } else {
        assert(es.push(e)[0] == es[0]);
        assert(es.push(e).drop_first() =~= es.drop_first().push(e));
        lemma_add_entries_push(add_put(acc, es[0].0, es[0].1), es.drop_first(), e);
    }
}

/// `add_names` peels names off from the right as well.
pub proof fn lemma_add_names_push(acc: Seq<(Seq<char>, int)>, names: Seq<Seq<char>>, n: Seq<char>)
    ensures
        add_names(acc, names.push(n)) == add_put(add_names(acc, names), n, 1),
    decreases names.len(),
{
    if names.len() == 0 {
        assert(names.push(n)[0] == n);
        assert(names.push(n).drop_first() =~= Seq::<Seq<char>>::empty());
        assert(add_names(add_put(acc, n, 1), names.push(n).drop_first()) == add_put(acc, n, 1));
        assert(add_names(acc, names) == acc);
    } else {
        assert(names.push(n)[0] == names[0]);
        assert(names.push(n).drop_first() =~= names.drop_first().push(n));
        lemma_add_names_push(add_put(acc, names[0], 1), names.drop_first(), n);
    }
}

/// A bound on every value bounds whatever `lookup0` reads.
pub proof fn lemma_lookup0_bounded(s: Seq<(Seq<char>, int)>, k: Seq<char>, b: int)
    requires
        values_bounded(s, b),
        0 <= b,
    ensures
        abs_val(lookup0(s, k)) <= b,
    decreases s.len(),
{
    if s.len() > 0 && s[0].0 != k {
        assert(values_bounded(s.drop_first(), b)) by {
            assert forall|i: int|
                0 <= i < s.drop_first().len() implies abs_val(
                (#[trigger] s.drop_first()[i]).1,
            ) <= b by {
                assert(s.drop_first()[i] == s[i + 1]);
            }
        }
        lemma_lookup0_bounded(s.drop_first(), k, b);
    }
}

/// The sum of the values that `es` binds to `q`, over every entry.
pub open spec fn key_sum(es: Seq<(Seq<char>, int)>, q: Seq<char>) -> int
    decreases es.len(),
{
    if es.len() == 0 {
        0
    } else {
        (if es[0].0 == q {
            es[0].1
        } else {
            0
        }) + key_sum(es.drop_first(), q)
    }
}

/// How often `q` occurs in a list of names.
pub open spec fn occ(names: Seq<Seq<char>>, q: Seq<char>) -> int
    decreases names.len(),
{
    if names.len() == 0 {
        0
    } else {
        (if names[0] == q {
            1int
        } else {
            0int
        }) + occ(names.drop_first(), q)
    }
}

/// A key that no entry holds contributes nothing.
pub proof fn lemma_key_sum_absent(es: Seq<(Seq<char>, int)>, q: Seq<char>)
    requires
        lookup(es, q) is None,
    ensures
        key_sum(es, q) == 0,
    decreases es.len(),
{
    if es.len() > 0 {
        lemma_key_sum_absent(es.drop_first(), q);
    }
}

/// A name that does not occur counts zero occurrences.
pub proof fn lemma_occ_absent(names: Seq<Seq<char>>, q: Seq<char>)
    requires
        !names.contains(q),
    ensures
        occ(names, q) == 0,
    decreases names.len(),
{
    if names.len() > 0 {
        assert(names[0] != q);
        assert(!names.drop_first().contains(q)) by {
            if names.drop_first().contains(q) {
                let i = choose|i: int|
                    0 <= i < names.drop_first().len() && names.drop_first()[i] == q;
                assert(names[i + 1] == q);
            }
        }
        lemma_occ_absent(names.drop_first(), q);
    }
}

/// What `add_entries` leaves under `q`: whatever `acc` held plus everything
/// `es` binds to `q`; nothing when neither mentions `q`.
pub proof fn lemma_add_entries_lookup(
    acc: Seq<(Seq<char>, int)>,
    es: Seq<(Seq<char>, int)>,
    q: Seq<char>,
)
    ensures
        lookup(add_entries(acc, es), q) == if lookup(es, q) is Some || lookup(acc, q) is Some {
            Some(lookup0(acc, q) + key_sum(es, q))
        } else {
            None::<int>
        },
    decreases es.len(),
{
    if es.len() == 0 {
        assert(key_sum(es, q) == 0);
        assert(add_entries(acc, es) == acc);
    } else {
        let acc1 = add_put(acc, es[0].0, es[0].1);
        lemma_add_entries_lookup(acc1, es.drop_first(), q);
        lemma_add_put_lookup(acc, es[0].0, es[0].1, q);
        assert(add_entries(acc, es) == add_entries(acc1, es.drop_first()));
    }
}

/// What `add_names` leaves under `q`: whatever `acc` held plus one point per
/// occurrence; nothing when neither mentions `q`.
pub proof fn lemma_add_names_lookup(
    acc: Seq<(Seq<char>, int)>,
    names: Seq<Seq<char>>,
    q: Seq<char>,
)
    ensures
        lookup(add_names(acc, names), q) == if names.contains(q) || lookup(acc, q) is Some {
            Some(lookup0(acc, q) + occ(names, q))
        } else {
            None::<int>
        },
    decreases names.len(),
{
    if names.len() == 0 {
        assert(occ(names, q) == 0);
        assert(!names.contains(q));
        assert(add_names(acc, names) == acc);
    } else {
        let acc1 = add_put(acc, names[0], 1);
        lemma_add_names_lookup(acc1, names.drop_first(), q);
        lemma_add_put_lookup(acc, names[0], 1, q);
        assert(add_names(acc, names) == add_names(acc1, names.drop_first()));
        if names.contains(q) {
            let i = choose|i: int| 0 <= i < names.len() && names[i] == q;
            if i > 0 {
                assert(names.drop_first()[i - 1] == q);
                assert(names.drop_first().contains(q));
            }
        } else {
            assert(names[0] != q);
            assert(!names.drop_first().contains(q)) by {
                if names.drop_first().contains(q) {
                    let i = choose|i: int|
                        0 <= i < names.drop_first().len() && names.drop_first()[i] == q;
                    assert(names[i + 1] == q);
                }
            }
        }
    }
}

/// A table from player names to signed points, in insertion order. It plays
/// the part of a hash map keyed by the player's name; keys stay unique.
#[derive(Debug)]
pub struct Scores {
    entries: Vec<(String, i32)>,
}

impl View for Scores {
    type V = Seq<(Seq<char>, int)>;

    closed spec fn view(&self) -> Seq<(Seq<char>, int)> {
        Seq::new(self.entries@.len(), |i: int| (self.entries@[i].0@, self.entries@[i].1 as int))
    }
}

impl Scores {
    /// Keys are unique: the table reads as a map.
    pub open spec fn wf(self) -> bool {
        keys_distinct(self@)
    }

    /// An empty table.
    pub fn new() -> (r: Scores)
        ensures
            r@ == Seq::<(Seq<char>, int)>::empty(),
            r.wf(),
    {
        let r = Scores { entries: Vec::new() };
        proof {
            assert(r@ =~= Seq::<(Seq<char>, int)>::empty());
            lemma_empty_table(Seq::<char>::empty());
        }
        r
    }

    /// How many players hold a value.
    pub fn len(&self) -> (r: usize)
        ensures
            r == self@.len(),
    {
        self.entries.len()
    }

    /// The name and value at one position, in insertion order.
    pub fn pair_at(&self, i: usize) -> (r: (String, i32))
        requires
            i < self@.len(),
        ensures
            r.0@ == self@[i as int].0,
            r.1 as int == self@[i as int].1,
    {
        let p = &self.entries[i];
        (p.0.clone(), p.1)
    }

    /// The position of the first entry for `name`, if any.
    #[verifier::loop_isolation(false)]
    fn find_idx(&self, name: &str) -> (r: Option<usize>)
        ensures
            match r {
                Some(i) => {
                    &&& i < self@.len()
                    &&& self@[i as int].0 == name@
                    &&& forall|j: int| 0 <= j < i ==> (#[trigger] self@[j]).0 != name@
                },
                None => forall|j: int| 0 <= j < self@.len() ==> (#[trigger] self@[j]).0 != name@,
            },
    {
        let n = self.entries.len();
        let mut i: usize = 0;
        while i < n
            invariant
                0 <= i <= n,
                forall|j: int| 0 <= j < i ==> (#[trigger] self@[j]).0 != name@,
            decreases n - i,
        {
            if str_eq(self.entries[i].0.as_str(), name) {
                return Some(i);
            }
            i = i + 1;
        }
        None
    }

    /// The value bound to `name`, if any.
    pub fn get(&self, name: &str) -> (r: Option<i32>)
        ensures
            match r {
                Some(v) => lookup(self@, name@) == Some(v as int),
                None => lookup(self@, name@) is None,
            },
    {
        match self.find_idx(name) {
            Some(i) => {
                proof {
                    lemma_lookup_first(self@, name@, i as int);
                }
                Some(self.entries[i].1)
            },
            None => {
                proof {
                    lemma_lookup_none(self@, name@);
                }
                None
            },
        }
    }

    /// Binds `name` to `v`, replacing any earlier binding.
    pub fn put(&mut self, name: String, v: i32)
        ensures
            final(self)@ == put(old(self)@, name@, v as int),
            old(self).wf() ==> final(self).wf(),
    {
        proof {
            if old(self).wf() {
                lemma_put_distinct(old(self)@, name@, v as int);
            }
        }
        match self.find_idx(name.as_str()) {
            Some(i) => {
                proof {
                    lemma_put_update_at(self@, name@, v as int, i as int);
                }
                self.entries[i] = (name, v);
                proof {
                    assert(self@ =~= put(old(self)@, name@, v as int));
                }
            },
            None => {
                proof {
                    lemma_lookup_none(self@, name@);
                    lemma_put_fresh(self@, name@, v as int);
                }
                self.entries.push((name, v));
                proof {
                    assert(self@ =~= put(old(self)@, name@, v as int));
                }
            },
        }
    }

    /// Adds `v` to what `name` holds, starting from zero when absent.
    pub fn add_to(&mut self, name: String, v: i32)
        requires
            i32::MIN <= lookup0(old(self)@, name@) + v <= i32::MAX,
        ensures
            final(self)@ == add_put(old(self)@, name@, v as int),
            old(self).wf() ==> final(self).wf(),
    {
        proof {
            if old(self).wf() {
                lemma_add_put_distinct(old(self)@, name@, v as int);
            }
        }
        match self.find_idx(name.as_str()) {
            Some(i) => {
                proof {
                    lemma_lookup_first(self@, name@, i as int);
                    lemma_add_put_update_at(self@, name@, v as int, i as int);
                }
                let cur = self.entries[i].1;
                self.entries[i] = (name, cur + v);
                proof {
                    assert(self@ =~= add_put(old(self)@, name@, v as int));
                }
            },
            None => {
                proof {
                    lemma_lookup_none(self@, name@);
                    lemma_add_put_fresh(self@, name@, v as int);
                }
                self.entries.push((name, v));
                proof {
                    assert(self@ =~= add_put(old(self)@, name@, v as int));
                }
            },
        }
    }

    /// The sum of every value in the table.
    #[verifier::loop_isolation(false)]
    pub fn sum(&self) -> (r: i32)
        requires
            sum_abs(self@) <= i32::MAX,
        ensures
            r as int == sum_values(self@),
    {
        let n = self.entries.len();
        let mut acc: i32 = 0;
        let mut i: usize = 0;
        proof {
            assert(self@.take(0) =~= Seq::<(Seq<char>, int)>::empty());
            lemma_empty_table(Seq::<char>::empty());
        }
        while i < n
            invariant
                0 <= i <= n,
                acc as int == sum_values(self@.take(i as int)),
                abs_val(acc as int) <= sum_abs(self@.take(i as int)),
            decreases n - i,
        {
            proof {
                lemma_sum_split(self@, i as int + 1);
                lemma_sum_abs_nonneg(self@.skip(i as int + 1));
                lemma_sum_push(self@.take(i as int), self@[i as int]);
                assert(self@.take(i as int).push(self@[i as int]) =~= self@.take(i as int + 1));
            }
            acc = acc + self.entries[i].1;
            i = i + 1;
        }
        proof {
            assert(self@.take(n as int) =~= self@);
        }
        acc
    }
}

} // verus!
