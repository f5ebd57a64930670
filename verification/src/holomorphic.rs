use vstd::prelude::*;

verus! {

/// Scans the grid points (i, j) with 0 <= i, j <= steps row by row, stopping
/// at the first point that fails `check`: true when every point passes.
pub fn scan_grid<F: Fn(usize, usize) -> bool>(steps: usize, check: F) -> (all_pass: bool)
    requires
        forall|i: usize, j: usize| i <= steps && j <= steps ==> #[trigger] check.requires((i, j)),
    ensures
        all_pass ==> forall|i: usize, j: usize|
            i <= steps && j <= steps ==> #[trigger] check.ensures((i, j), true),
        !all_pass ==> exists|i: usize, j: usize|
            i <= steps && j <= steps && #[trigger] check.ensures((i, j), false),
{
    let mut i: usize = 0;
    loop
        invariant
            i <= steps,
            forall|i: usize, j: usize| i <= steps && j <= steps ==> #[trigger] check.requires((i, j)),
            forall|a: usize, b: usize| a < i && b <= steps ==> #[trigger] check.ensures((a, b), true),
        decreases steps - i,
    {
        let mut j: usize = 0;
        loop
            invariant
                i <= steps,
                j <= steps,
                forall|i: usize, j: usize| i <= steps && j <= steps ==> #[trigger] check.requires((i, j)),
                forall|a: usize, b: usize| a < i && b <= steps ==> #[trigger] check.ensures((a, b), true),
                forall|b: usize| b < j ==> #[trigger] check.ensures((i, b), true),
            ensures
                forall|a: usize, b: usize| a < i && b <= steps ==> #[trigger] check.ensures((a, b), true),
                forall|b: usize| b <= steps ==> #[trigger] check.ensures((i, b), true),
            decreases steps - j,
        {
            let ok = check(i, j);
            if !ok {
                return false;
            }
            if j == steps {
                assert forall|b: usize| b <= steps implies #[trigger] check.ensures((i, b), true) by {
                    if b == j {
                        assert(check.ensures((i, j), ok));
                    }
                }
                break;
            }
            j = j + 1;
        }
        assert forall|a: usize, b: usize| a <= i && b <= steps implies #[trigger] check.ensures((a, b), true) by {
            if a == i {
                assert(check.ensures((i, b), true));
            }
        }
        if i == steps {
            return true;
        }
        i = i + 1;
    }
}

} // verus!
