//! Aiming down the sights.

use vstd::prelude::*;

verus! {

/// Whether the sights are up after a frame: a tap on the button or a press of
/// either key moves them the other way, and all at once count as one.
pub fn toggle_ads(active: bool, taps: &Vec<bool>, left_key: bool, right_key: bool) -> (out: bool)
    ensures
        out == (active != (taps@.contains(true) || left_key || right_key)),
{
    let mut tapped: bool = false;
    let mut i: usize = 0;
    while i < taps.len()
        invariant
            i <= taps.len(),
            tapped == taps@.take(i as int).contains(true),
        decreases taps.len() - i,
    {
        proof {
            let seen = taps@.take(i as int);
            let more = taps@.take(i + 1);
            assert(more =~= seen.push(taps@[i as int]));
            if seen.contains(true) {
                let k = choose|k: int| 0 <= k < seen.len() && seen[k];
                assert(more[k]);
            }
            if taps@[i as int] {
                assert(more[i as int]);
            }
        }
        tapped = tapped || taps[i];
        i = i + 1;
    }
    assert(taps@.take(i as int) =~= taps@);
    if tapped || left_key || right_key {
        !active
    } else {
        active
    }
}

} // verus!
