//! Sequence helpers: removing duplicates, filtering, and summing lengths.

use vstd::prelude::*;

verus! {

/// `s` without its repeated items: of equal items the first one stays, and
/// the items that stay keep their order.
pub open spec fn dedup<T>(s: Seq<T>) -> Seq<T>
    decreases s.len(),
{
    if s.len() == 0 {
        s
    } else {
        let d = dedup(s.drop_last());
        if d.contains(s.last()) {
            d
        } else {
            d.push(s.last())
        }
    }
}

/// Removing duplicates neither adds nor loses a value, never lengthens the
/// sequence, and leaves no value twice.
pub proof fn lemma_dedup<T>(s: Seq<T>)
    ensures
        dedup(s).len() <= s.len(),
        dedup(s).no_duplicates(),
        forall|v: T| #[trigger] dedup(s).contains(v) ==> s.contains(v),
        forall|v: T| #[trigger] s.contains(v) ==> dedup(s).contains(v),
    decreases s.len(),
{
    if s.len() > 0 {
        let front = s.drop_last();
        let d = dedup(front);
        lemma_dedup(front);
        assert forall|v: T| dedup(s).contains(v) <==> s.contains(v) by {
            assert(d.contains(v) <==> front.contains(v));
            if s.contains(v) {
                let i = choose|i: int| 0 <= i < s.len() && s[i] == v;
                if i < s.len() - 1 {
                    assert(front[i] == v);
                    assert(front.contains(v));
                    let j = choose|j: int| 0 <= j < d.len() && d[j] == v;
                    assert(dedup(s)[j] == v);
                } else {
                    if !d.contains(v) {
                        assert(dedup(s)[d.len() as int] == v);
                    }
                }
            }
            if dedup(s).contains(v) {
                let j = choose|j: int| 0 <= j < dedup(s).len() && dedup(s)[j] == v;
                if j < d.len() {
                    assert(d[j] == v);
                    assert(d.contains(v));
                    let i = choose|i: int| 0 <= i < front.len() && front[i] == v;
                    assert(s[i] == v);
                } else {
                    assert(s[s.len() - 1] == v);
                }
            }
        }
    }
}

/// Filters that agree on every item of a sequence select the same items.
pub proof fn lemma_filter_agree<T>(s: Seq<T>, f: spec_fn(T) -> bool, g: spec_fn(T) -> bool)
    requires
        forall|i: int| 0 <= i < s.len() ==> f(#[trigger] s[i]) == g(s[i]),
    ensures
        s.filter(f) == s.filter(g),
    decreases s.len(),
{
    reveal(Seq::filter);
    if s.len() > 0 {
        let front = s.drop_last();
        assert forall|i: int| 0 <= i < front.len() implies f(#[trigger] front[i]) == g(
            front[i],
        ) by {
            assert(front[i] == s[i]);
        }
        lemma_filter_agree(front, f, g);
        assert(f(s[s.len() - 1]) == g(s[s.len() - 1]));
    }
}

/// A filter that keeps every item changes nothing, and one that returns a
/// sequence of the same length has kept every item.
pub proof fn lemma_filter_all<T>(s: Seq<T>, f: spec_fn(T) -> bool)
    ensures
        (forall|i: int| 0 <= i < s.len() ==> f(#[trigger] s[i])) <==> s.filter(f) == s,
        s.filter(f).len() == s.len() ==> s.filter(f) == s,
        s.filter(f).len() <= s.len(),
    decreases s.len(),
{
    reveal(Seq::filter);
    if s.len() > 0 {
        let front = s.drop_last();
        lemma_filter_all(front, f);
        let last = s[s.len() - 1];
        if s.filter(f) == s {
            assert(f(last));
            assert(front.filter(f).push(last) == front.push(last));
            assert(front.filter(f) =~= front.push(last).drop_last());
            assert(front.push(last).drop_last() =~= front);
            assert forall|i: int| 0 <= i < s.len() implies f(#[trigger] s[i]) by {
                if i < s.len() - 1 {
                    assert(front[i] == s[i]);
                }
            }
        }
        if forall|i: int| 0 <= i < s.len() ==> f(#[trigger] s[i]) {
            assert forall|i: int| 0 <= i < front.len() implies f(#[trigger] front[i]) by {
                assert(front[i] == s[i]);
            }
            assert(f(last));
            assert(front.push(last) =~= s);
        }
        if s.filter(f).len() == s.len() {
            assert(f(last));
            assert(front.push(last) =~= s);
        }
    }
}

/// Every item of a filtered sequence is an item of the sequence and
/// satisfies the filter.
pub proof fn lemma_filter_members<T>(s: Seq<T>, f: spec_fn(T) -> bool)
    ensures
        forall|v: T| #[trigger] s.filter(f).contains(v) ==> s.contains(v) && f(v),
        forall|v: T| #[trigger] s.contains(v) && f(v) ==> s.filter(f).contains(v),
    decreases s.len(),
{
    reveal(Seq::filter);
    if s.len() > 0 {
        let front = s.drop_last();
        lemma_filter_members(front, f);
        let last = s[s.len() - 1];
        assert forall|v: T| s.filter(f).contains(v) <==> (s.contains(v) && f(v)) by {
            assert(front.filter(f).contains(v) <==> (front.contains(v) && f(v)));
            if s.filter(f).contains(v) {
                let j = choose|j: int| 0 <= j < s.filter(f).len() && s.filter(f)[j] == v;
                if j < front.filter(f).len() {
                    assert(front.filter(f)[j] == v);
                    assert(front.filter(f).contains(v));
                    let i = choose|i: int| 0 <= i < front.len() && front[i] == v;
                    assert(s[i] == v);
                } else {
                    assert(v == last);
                }
            }
            if s.contains(v) && f(v) {
                let i = choose|i: int| 0 <= i < s.len() && s[i] == v;
                if i < s.len() - 1 {
                    assert(front[i] == v);
                    assert(front.contains(v));
                    let j = choose|j: int| 0 <= j < front.filter(f).len() && front.filter(f)[j]
                        == v;
                    assert(s.filter(f)[j] == v);
                } else {
                    assert(s.filter(f)[front.filter(f).len() as int] == v);
                }
            }
        }
    }
}

/// The sum of the lengths of the sequences in `row`.
pub open spec fn sum_lens<T>(row: Seq<Seq<T>>) -> nat
    decreases row.len(),
{
    if row.len() == 0 {
        0
    } else {
        sum_lens(row.drop_last()) + row.last().len()
    }
}

/// Replacing one sequence of a row changes the sum by the difference of the
/// two lengths.
pub proof fn lemma_sum_lens_update<T>(row: Seq<Seq<T>>, i: int, v: Seq<T>)
    requires
        0 <= i < row.len(),
    ensures
        sum_lens(row.update(i, v)) + row[i].len() == sum_lens(row) + v.len(),
    decreases row.len(),
{
    let changed = row.update(i, v);
    if i == row.len() - 1 {
        assert(changed.drop_last() =~= row.drop_last());
    } else {
        lemma_sum_lens_update(row.drop_last(), i, v);
        assert(changed.drop_last() =~= row.drop_last().update(i, v));
    }
}

/// The sum of the lengths of all sequences in all rows.
pub open spec fn sum_rows<T>(rows: Seq<Seq<Seq<T>>>) -> nat
    decreases rows.len(),
{
    if rows.len() == 0 {
        0
    } else {
        sum_rows(rows.drop_last()) + sum_lens(rows.last())
    }
}

/// Replacing one row changes the sum by the difference of the two row sums.
pub proof fn lemma_sum_rows_update<T>(rows: Seq<Seq<Seq<T>>>, y: int, row: Seq<Seq<T>>)
    requires
        0 <= y < rows.len(),
    ensures
        sum_rows(rows.update(y, row)) + sum_lens(rows[y]) == sum_rows(rows) + sum_lens(row),
    decreases rows.len(),
{
    let changed = rows.update(y, row);
    if y == rows.len() - 1 {
        assert(changed.drop_last() =~= rows.drop_last());
    } else {
        lemma_sum_rows_update(rows.drop_last(), y, row);
        assert(changed.drop_last() =~= rows.drop_last().update(y, row));
    }
}

/// Whether `a` can be had from `b` by leaving items out: the items of `a`
/// are items of `b`, in the same order.
pub open spec fn is_sublist<T>(a: Seq<T>, b: Seq<T>) -> bool
    decreases b.len(),
{
    if a.len() == 0 {
        true
    } else if b.len() == 0 {
        false
    } else {
        ||| (a.last() == b.last() && is_sublist(a.drop_last(), b.drop_last()))
        ||| is_sublist(a, b.drop_last())
    }
}

/// A sequence is a sublist of itself.
pub proof fn lemma_sublist_refl<T>(a: Seq<T>)
    ensures
        is_sublist(a, a),
    decreases a.len(),
{
    if a.len() > 0 {
        lemma_sublist_refl(a.drop_last());
    }
}

/// A sublist of a sublist is a sublist.
pub proof fn lemma_sublist_trans<T>(a: Seq<T>, b: Seq<T>, c: Seq<T>)
    requires
        is_sublist(a, b),
        is_sublist(b, c),
    ensures
        is_sublist(a, c),
    decreases c.len(),
{
    if a.len() > 0 {
        if is_sublist(b, c.drop_last()) {
            lemma_sublist_trans(a, b, c.drop_last());
        } else if a.last() == b.last() && is_sublist(a.drop_last(), b.drop_last()) {
            lemma_sublist_trans(a.drop_last(), b.drop_last(), c.drop_last());
        } else {
            lemma_sublist_trans(a, b.drop_last(), c.drop_last());
        }
    }
}

/// What a filter selects is a sublist.
pub proof fn lemma_filter_sublist<T>(s: Seq<T>, f: spec_fn(T) -> bool)
    ensures
        is_sublist(s.filter(f), s),
    decreases s.len(),
{
    reveal(Seq::filter);
    if s.len() > 0 {
        let front = s.drop_last();
        lemma_filter_sublist(front, f);
        if f(s.last()) {
            assert(s.filter(f).drop_last() =~= front.filter(f));
        }
    }
}

/// Every item of a sublist is an item of the list.
pub proof fn lemma_sublist_members<T>(a: Seq<T>, b: Seq<T>)
    requires
        is_sublist(a, b),
    ensures
        forall|i: int| 0 <= i < a.len() ==> b.contains(#[trigger] a[i]),
    decreases b.len(),
{
    if a.len() > 0 {
        let front = b.drop_last();
        if is_sublist(a, front) {
            lemma_sublist_members(a, front);
            assert forall|i: int| 0 <= i < a.len() implies b.contains(#[trigger] a[i]) by {
                let k = choose|k: int| 0 <= k < front.len() && front[k] == a[i];
                assert(b[k] == a[i]);
            }
        } else {
            lemma_sublist_members(a.drop_last(), front);
            assert forall|i: int| 0 <= i < a.len() implies b.contains(#[trigger] a[i]) by {
                if i < a.len() - 1 {
                    assert(a.drop_last()[i] == a[i]);
                    let k = choose|k: int| 0 <= k < front.len() && front[k] == a[i];
                    assert(b[k] == a[i]);
                } else {
                    assert(b[b.len() - 1] == a[i]);
                }
            }
        }
    }
}

/// A sublist of a list without repeated items has no repeated items.
pub proof fn lemma_sublist_no_duplicates<T>(a: Seq<T>, b: Seq<T>)
    requires
        is_sublist(a, b),
        b.no_duplicates(),
    ensures
        a.no_duplicates(),
    decreases b.len(),
{
    if a.len() > 0 {
        let front = b.drop_last();
        assert forall|i: int, j: int|
            0 <= i < front.len() && 0 <= j < front.len() && i != j implies front[i]
            != front[j] by {
            assert(b[i] != b[j]);
        }
        if is_sublist(a, front) {
            lemma_sublist_no_duplicates(a, front);
        } else {
            lemma_sublist_no_duplicates(a.drop_last(), front);
            lemma_sublist_members(a.drop_last(), front);
            assert forall|i: int, j: int|
                0 <= i < a.len() && 0 <= j < a.len() && i != j implies a[i] != a[j] by {
                if i < a.len() - 1 && j < a.len() - 1 {
                    assert(a.drop_last()[i] != a.drop_last()[j]);
                } else {
                    let m = if i < j {
                        i
                    } else {
                        j
                    };
                    assert(front.contains(a.drop_last()[m]));
                    let k = choose|k: int| 0 <= k < front.len() && front[k] == a[m];
                    assert(b[k] != b[b.len() - 1]);
                }
            }
        }
    }
}

/// A list of one item of a list is a sublist of it.
pub proof fn lemma_single_sublist<T>(v: T, b: Seq<T>)
    requires
        b.contains(v),
    ensures
        is_sublist(seq![v], b),
    decreases b.len(),
{
    let one = seq![v];
    let k = choose|k: int| 0 <= k < b.len() && b[k] == v;
    assert(one.len() == 1 && one.last() == v);
    if b.last() == v {
        assert(one.drop_last().len() == 0);
        assert(is_sublist(one.drop_last(), b.drop_last()));
    } else {
        assert(b.drop_last()[k] == v);
        lemma_single_sublist(v, b.drop_last());
    }
}

} // verus!
