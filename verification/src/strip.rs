//! Measuring a row of ground: how much of it is grass, and how wide the bare parts
//! are.

use vstd::prelude::*;

use crate::order;

verus! {

/// How many places of the row have grass.
pub open spec fn grass_in(row: Seq<i32>) -> nat
    decreases row.len(),
{
    if row.len() == 0 {
        0
    } else {
        grass_in(row.drop_last()) + (if row.last() > 0 {
            1nat
        } else {
            0
        })
    }
}

/// How many bare places the row ends with.
pub open spec fn bare_tail(row: Seq<i32>) -> nat
    decreases row.len(),
{
    if row.len() == 0 || row.last() > 0 {
        0
    } else {
        bare_tail(row.drop_last()) + 1
    }
}

/// The widest bare run of the row.
pub open spec fn widest_gap(row: Seq<i32>) -> nat
    decreases row.len(),
{
    if row.len() == 0 {
        0
    } else {
        let before = widest_gap(row.drop_last());
        if bare_tail(row) > before {
            bare_tail(row)
        } else {
            before
        }
    }
}

/// Whether all places from `i` up to `j` are bare.
pub open spec fn bare(row: Seq<i32>, i: int, j: int) -> bool {
    forall|k: int| i <= k < j ==> row[k] <= 0
}

proof fn lemma_bare_tail(row: Seq<i32>, i: int)
    requires
        0 <= i <= row.len(),
        bare(row, i, row.len() as int),
    ensures
        row.len() - i <= bare_tail(row) <= row.len(),
        bare(row, row.len() - bare_tail(row), row.len() as int),
    decreases row.len(),
{
    if row.len() > 0 && row.last() <= 0 {
        let rest = row.drop_last();
        if i < row.len() {
            assert forall|k: int| i <= k < rest.len() implies rest[k] <= 0 by {
                assert(row[k] <= 0);
            }
            lemma_bare_tail(rest, i);
        } else {
            lemma_bare_tail(rest, rest.len() as int);
        }
        assert forall|k: int| row.len() - bare_tail(row) <= k < row.len() implies row[k]
            <= 0 by {
            if k < rest.len() {
                assert(rest[k] == row[k]);
            }
        }
    } else if i < row.len() {
        assert(row[row.len() - 1] <= 0);
    }
}

/// The widest gap is as wide as some bare run of the row, and no bare run of the
/// row is wider.
pub proof fn the_widest_gap_is_the_widest(row: Seq<i32>, i: int, j: int)
    requires
        0 <= i <= j <= row.len(),
        bare(row, i, j),
    ensures
        j - i <= widest_gap(row),
        exists|a: int|
            0 <= a <= a + widest_gap(row) <= row.len() && #[trigger] bare(
                row,
                a,
                a + widest_gap(row),
            ),
    decreases row.len(),
{
    if row.len() == 0 {
        assert(bare(row, 0, 0int + widest_gap(row)));
    } else {
        let rest = row.drop_last();
        lemma_bare_tail(row, row.len() as int);
        if j < row.len() {
            assert forall|k: int| i <= k < j implies rest[k] <= 0 by {
                assert(row[k] <= 0);
            }
            the_widest_gap_is_the_widest(rest, i, j);
        } else {
            lemma_bare_tail(row, i);
            the_widest_gap_is_the_widest(rest, 0, 0);
        }
        if bare_tail(row) > widest_gap(rest) {
            let a = row.len() - bare_tail(row);
            assert(bare(row, a, a + widest_gap(row)));
        } else {
            let a = choose|a: int|
                0 <= a <= a + widest_gap(rest) <= rest.len() && #[trigger] bare(
                    rest,
                    a,
                    a + widest_gap(rest),
                );
            assert forall|k: int| a <= k < a + widest_gap(row) implies row[k] <= 0 by {
                assert(rest[k] == row[k]);
                assert(rest[k] <= 0);
            }
            assert(bare(row, a, a + widest_gap(row)));
        }
    }
}

proof fn lemma_bounds(row: Seq<i32>)
    ensures
        grass_in(row) <= row.len(),
        bare_tail(row) <= row.len(),
        widest_gap(row) <= row.len(),
    decreases row.len(),
{
    if row.len() > 0 {
        lemma_bounds(row.drop_last());
    }
}

/// Measures a row of depths: how many of its places have grass, and the widest
/// bare run.
pub fn measure_row(row: &Vec<i32>) -> (out: (i32, i32))
    requires
        row.len() <= i32::MAX,
    ensures
        out.0 == grass_in(row@),
        out.1 == widest_gap(row@),
{
    let mut grass: i32 = 0;
    let mut gap: i32 = 0;
    let mut run: i32 = 0;
    let mut i: usize = 0;
    assert(row@.take(0) =~= Seq::empty());
    while i < row.len()
        invariant
            i <= row.len() <= i32::MAX,
            0 <= grass <= i,
            0 <= run <= i,
            0 <= gap <= i,
            grass == grass_in(row@.take(i as int)),
            run == bare_tail(row@.take(i as int)),
            (if gap > run {
                gap
            } else {
                run
            }) == widest_gap(row@.take(i as int)),
        decreases row.len() - i,
    {
        proof {
            assert(row@.take(i + 1).drop_last() =~= row@.take(i as int));
            lemma_bounds(row@.take(i as int));
        }
        if row[i] > 0 {
            grass = grass + 1;
            if run > gap {
                gap = run;
            }
            run = 0;
        } else {
            run = run + 1;
        }
        i = i + 1;
    }
    assert(row@.take(i as int) =~= row@);
    (
        grass,
        if run > gap {
            run
        } else {
            gap
        },
    )
}

/// A place has grass where its depth is above nothing: the first number counts those.
pub proof fn every_place_with_grass_counts(row: Seq<i32>)
    ensures
        grass_in(row) == row.filter(|depth: i32| depth > 0).len(),
    decreases row.len(),
{
    order::lemma_filter_last(row, |depth: i32| depth > 0);
    if row.len() > 0 {
        every_place_with_grass_counts(row.drop_last());
    }
}

/// No run of places without grass is wider than the widest gap, and the widest gap is
/// one.
pub proof fn a_gap_holds_no_grass(row: Seq<i32>, i: int, j: int)
    requires
        0 <= i <= j <= row.len(),
        forall|k: int| i <= k < j ==> #[trigger] row[k] <= 0,
    ensures
        j - i <= widest_gap(row),
        exists|a: int|
            0 <= a <= a + widest_gap(row) <= row.len() && #[trigger] holds_no_grass(
                row,
                a,
                a + widest_gap(row),
            ),
{
    assert(bare(row, i, j));
    the_widest_gap_is_the_widest(row, i, j);
    let a = choose|a: int|
        0 <= a <= a + widest_gap(row) <= row.len() && #[trigger] bare(
            row,
            a,
            a + widest_gap(row),
        );
    assert(holds_no_grass(row, a, a + widest_gap(row)));
}

/// Whether no place from `i` up to `j` has grass.
pub open spec fn holds_no_grass(row: Seq<i32>, i: int, j: int) -> bool {
    forall|k: int| i <= k < j ==> #[trigger] row[k] <= 0
}

} // verus!
