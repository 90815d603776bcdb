//! Putting things in order, keeping the order that level things came in.

use vstd::prelude::*;

verus! {

/// Things that can be told apart by rank.
pub trait Ranked: Sized {
    /// Whether `self` may stand before `other`.
    spec fn le(self, other: Self) -> bool;

    proof fn le_total(a: Self, b: Self)
        ensures
            a.le(b) || b.le(a),
    ;

    proof fn le_trans(a: Self, b: Self, c: Self)
        requires
            a.le(b),
            b.le(c),
        ensures
            a.le(c),
    ;

    fn may_precede(&self, other: &Self) -> (yes: bool)
        ensures
            yes == self.le(*other),
    ;
}

impl Ranked for u128 {
    open spec fn le(self, other: Self) -> bool {
        self <= other
    }

    proof fn le_total(a: Self, b: Self) {
    }

    proof fn le_trans(a: Self, b: Self, c: Self) {
    }

    fn may_precede(&self, other: &Self) -> (yes: bool) {
        *self <= *other
    }
}

impl Ranked for usize {
    open spec fn le(self, other: Self) -> bool {
        self <= other
    }

    proof fn le_total(a: Self, b: Self) {
    }

    proof fn le_trans(a: Self, b: Self, c: Self) {
    }

    fn may_precede(&self, other: &Self) -> (yes: bool) {
        *self <= *other
    }
}

/// Where `x` goes in an ordered row: behind everything that may precede it.
pub open spec fn place<T: Ranked>(s: Seq<T>, x: T) -> int
    decreases s.len(),
{
    if s.len() == 0 {
        0
    } else if s.last().le(x) {
        s.len() as int
    } else {
        place(s.drop_last(), x)
    }
}

/// The row in order, level things in the order they came in.
pub open spec fn arranged<T: Ranked>(s: Seq<T>) -> Seq<T>
    decreases s.len(),
{
    if s.len() == 0 {
        s
    } else {
        let rest = arranged(s.drop_last());
        rest.insert(place(rest, s.last()), s.last())
    }
}

/// Whether nothing stands before what it may not precede.
pub open spec fn in_order<T: Ranked>(s: Seq<T>) -> bool {
    forall|i: int, j: int| 0 <= i < j < s.len() ==> #[trigger] s[i].le(#[trigger] s[j])
}

pub proof fn lemma_place<T: Ranked>(s: Seq<T>, x: T)
    ensures
        0 <= place(s, x) <= s.len(),
        place(s, x) > 0 ==> s[place(s, x) - 1].le(x),
        forall|i: int| place(s, x) <= i < s.len() ==> !(#[trigger] s[i]).le(x),
    decreases s.len(),
{
    if s.len() == 0 || s.last().le(x) {
    } else {
        let rest = s.drop_last();
        lemma_place(rest, x);
        assert forall|i: int| place(s, x) <= i < s.len() implies !(#[trigger] s[i]).le(x) by {
            if i < s.len() - 1 {
                assert(rest[i] == s[i]);
            }
        }
        if place(s, x) > 0 {
            assert(rest[place(s, x) - 1] == s[place(s, x) - 1]);
        }
    }
}

/// Arranging a row puts it in order.
pub proof fn arranging_puts_in_order<T: Ranked>(s: Seq<T>)
    ensures
        in_order(arranged(s)),
        arranged(s).len() == s.len(),
    decreases s.len(),
{
    if s.len() > 0 {
        let rest = arranged(s.drop_last());
        let x = s.last();
        arranging_puts_in_order(s.drop_last());
        lemma_place(rest, x);
        let k = place(rest, x);
        let out = arranged(s);
        assert forall|i: int, j: int| 0 <= i < j < out.len() implies #[trigger] out[i].le(
            #[trigger] out[j],
        ) by {
            if j < k {
                assert(rest[i].le(rest[j]));
            } else if j == k {
                if i < k - 1 {
                    assert(rest[i].le(rest[k - 1]));
                    T::le_trans(rest[i], rest[k - 1], x);
                }
            } else if i == k {
                T::le_total(x, rest[j - 1]);
            } else if i < k {
                assert(rest[i].le(rest[j - 1]));
            } else {
                assert(rest[i - 1].le(rest[j - 1]));
            }
        }
    }
}

/// Arranging a row neither loses nor makes up anything.
pub proof fn arranging_keeps_everything<T: Ranked>(s: Seq<T>)
    ensures
        arranged(s).to_multiset() == s.to_multiset(),
    decreases s.len(),
{
    if s.len() > 0 {
        let rest = arranged(s.drop_last());
        let x = s.last();
        arranging_keeps_everything(s.drop_last());
        lemma_place(rest, x);
        vstd::seq_lib::to_multiset_insert(rest, place(rest, x), x);
        assert(s =~= s.drop_last().push(x));
        s.drop_last().to_multiset_ensures();
        assert(s.drop_last().push(x).to_multiset() =~= s.drop_last().to_multiset().insert(x));
    }
}

pub proof fn lemma_arranged_contains<T: Ranked>(s: Seq<T>, x: T)
    ensures
        arranged(s).contains(x) <==> s.contains(x),
{
    arranging_keeps_everything(s);
    s.to_multiset_ensures();
    arranged(s).to_multiset_ensures();
    assert(s.contains(x) <==> s.to_multiset().count(x) > 0);
    assert(arranged(s).contains(x) <==> arranged(s).to_multiset().count(x) > 0);
}

/// Whether only equal things are level among those of the row.
pub open spec fn never_level<T: Ranked>(s: Seq<T>) -> bool {
    forall|i: int, j: int|
        0 <= i < s.len() && 0 <= j < s.len() && #[trigger] s[i].le(#[trigger] s[j]) && s[j].le(
            s[i],
        ) ==> s[i] == s[j]
}

/// There is one way to put a row in order, if only equal things are level: two
/// rows of the same things in order are the same row.
pub proof fn order_is_settled<T: Ranked>(s: Seq<T>, t: Seq<T>)
    requires
        s.to_multiset() == t.to_multiset(),
        in_order(s),
        in_order(t),
        never_level(s),
    ensures
        s == t,
    decreases s.len(),
{
    s.to_multiset_ensures();
    t.to_multiset_ensures();
    assert(s.len() == t.len());
    if s.len() == 0 {
        assert(s =~= t);
    } else {
        let a = s[0];
        let b = t[0];
        assert(s.contains(a));
        assert(t.contains(b));
        assert(t.contains(a)) by {
            assert(s.to_multiset().count(a) > 0);
            assert(t.to_multiset().count(a) > 0);
        }
        assert(s.contains(b)) by {
            assert(t.to_multiset().count(b) > 0);
            assert(s.to_multiset().count(b) > 0);
        }
        let i = choose|i: int| 0 <= i < s.len() && s[i] == b;
        let j = choose|j: int| 0 <= j < t.len() && t[j] == a;
        T::le_total(a, a);
        if i > 0 {
            assert(s[0].le(s[i]));
        }
        if j > 0 {
            assert(t[0].le(t[j]));
        }
        assert(a.le(b));
        assert(b.le(a));
        assert(s[0].le(s[i]) && s[i].le(s[0]));
        assert(a == b);
        let rest_s = s.drop_first();
        let rest_t = t.drop_first();
        vstd::seq_lib::to_multiset_remove(s, 0);
        vstd::seq_lib::to_multiset_remove(t, 0);
        assert(s.remove(0) =~= rest_s);
        assert(t.remove(0) =~= rest_t);
        assert forall|k: int, l: int| 0 <= k < l < rest_s.len() implies #[trigger] rest_s[k].le(
            #[trigger] rest_s[l],
        ) by {
            assert(s[k + 1].le(s[l + 1]));
        }
        assert forall|k: int, l: int| 0 <= k < l < rest_t.len() implies #[trigger] rest_t[k].le(
            #[trigger] rest_t[l],
        ) by {
            assert(t[k + 1].le(t[l + 1]));
        }
        assert forall|k: int, l: int|
            0 <= k < rest_s.len() && 0 <= l < rest_s.len() && #[trigger] rest_s[k].le(
                #[trigger] rest_s[l],
            ) && rest_s[l].le(rest_s[k]) implies rest_s[k] == rest_s[l] by {
            assert(s[k + 1].le(s[l + 1]) && s[l + 1].le(s[k + 1]));
        }
        order_is_settled(rest_s, rest_t);
        assert(s =~= seq![a] + rest_s);
        assert(t =~= seq![a] + rest_t);
    }
}

/// Two rows of the same things come out the same, if only equal things are level.
pub proof fn arranging_forgets_the_order_of_arrival<T: Ranked>(s: Seq<T>, t: Seq<T>)
    requires
        s.to_multiset() == t.to_multiset(),
        never_level(s),
    ensures
        arranged(s) == arranged(t),
{
    arranging_keeps_everything(s);
    arranging_keeps_everything(t);
    arranging_puts_in_order(s);
    arranging_puts_in_order(t);
    let a = arranged(s);
    assert forall|i: int, j: int|
        0 <= i < a.len() && 0 <= j < a.len() && #[trigger] a[i].le(#[trigger] a[j]) && a[j].le(
            a[i],
        ) implies a[i] == a[j] by {
        lemma_arranged_contains(s, a[i]);
        lemma_arranged_contains(s, a[j]);
        assert(a.contains(a[i]) && a.contains(a[j]));
        let k = choose|k: int| 0 <= k < s.len() && s[k] == a[i];
        let l = choose|l: int| 0 <= l < s.len() && s[l] == a[j];
        assert(s[k].le(s[l]) && s[l].le(s[k]));
    }
    order_is_settled(a, arranged(t));
}

/// Puts a row in order.
pub fn arrange<T: Ranked + Copy>(items: &Vec<T>) -> (out: Vec<T>)
    ensures
        out@ == arranged(items@),
{
    let mut out: Vec<T> = Vec::new();
    let mut i: usize = 0;
    while i < items.len()
        invariant
            i <= items.len(),
            out@ == arranged(items@.take(i as int)),
            out.len() == i,
        decreases items.len() - i,
    {
        let x = items[i];
        let ghost row = out@;
        let mut k: usize = out.len();
        assert(row.take(k as int) =~= row);
        while k > 0 && !out[k - 1].may_precede(&x)
            invariant
                k <= out.len(),
                out@ == row,
                place(row, x) == place(row.take(k as int), x),
            decreases k,
        {
            assert(row.take(k as int).drop_last() =~= row.take(k - 1));
            k = k - 1;
        }
        proof {
            if k > 0 {
                assert(row.take(k as int).last() == row[k - 1]);
            }
            assert(place(row, x) == k);
        }
        out.insert(k, x);
        i = i + 1;
        assert(items@.take(i as int).drop_last() =~= items@.take(i - 1));
        assert(items@.take(i as int).last() == x);
    }
    assert(items@.take(i as int) =~= items@);
    out
}

/// What a filter keeps of a row is what it keeps of all but the last, and the last
/// if it passes.
pub proof fn lemma_filter_last<A>(s: Seq<A>, keep: spec_fn(A) -> bool)
    ensures
        s.len() == 0 ==> s.filter(keep) == Seq::<A>::empty(),
        s.len() > 0 ==> s.filter(keep) == (if keep(s.last()) {
            s.drop_last().filter(keep).push(s.last())
        } else {
            s.drop_last().filter(keep)
        }),
{
    reveal(Seq::filter);
}

/// Whatever comes last goes behind everything that may precede it and before
/// everything that may not: level things stay in the order they came in.
pub proof fn level_things_keep_their_order<T: Ranked>(s: Seq<T>, x: T)
    ensures
        exists|k: int|
            #![trigger arranged(s).insert(k, x)]
            {
                &&& 0 <= k <= s.len()
                &&& arranged(s.push(x)) == arranged(s).insert(k, x)
                &&& forall|i: int| 0 <= i < k ==> (#[trigger] arranged(s)[i]).le(x)
                &&& forall|i: int| k <= i < s.len() ==> !(#[trigger] arranged(s)[i]).le(x)
            },
{
    let rest = arranged(s);
    let k = place(rest, x);
    lemma_place(rest, x);
    arranging_puts_in_order(s);
    assert(s.push(x).drop_last() =~= s);
    assert forall|i: int| 0 <= i < k implies (#[trigger] rest[i]).le(x) by {
        if i < k - 1 {
            assert(rest[i].le(rest[k - 1]));
            T::le_trans(rest[i], rest[k - 1], x);
        }
    }
    assert(arranged(s.push(x)) == rest.insert(k, x));
}

/// Numbers are put in order from the lowest up.
pub proof fn numbers_go_up(s: Seq<u128>, t: Seq<usize>, i: int, j: int)
    requires
        0 <= i <= j,
    ensures
        j < s.len() ==> arranged(s)[i] <= arranged(s)[j],
        j < t.len() ==> arranged(t)[i] <= arranged(t)[j],
{
    arranging_puts_in_order(s);
    arranging_puts_in_order(t);
    if i < j && j < s.len() {
        assert(arranged(s)[i].le(arranged(s)[j]));
    }
    if i < j && j < t.len() {
        assert(arranged(t)[i].le(arranged(t)[j]));
    }
}

} // verus!
