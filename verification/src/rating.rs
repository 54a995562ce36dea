//! A rating of states by whole-number weights.
use crate::features::{minimal_measure, minimal_measures};
use crate::game::{Game, PlacementInfo};
use crate::search::Eval;
use vstd::prelude::*;

verus! {

/// A rating that weighs the measures of the plain rating with whole numbers.
pub struct LinearEval {
    pub weights: [i32; 13],
}

/// The sum of the first `n` measures of a state, each times its weight.
pub open spec fn weighted(weights: Seq<i32>, game: Game, info: PlacementInfo, n: int) -> int
    decreases n,
{
    if n <= 0 {
        0
    } else {
        weighted(weights, game, info, n - 1) + weights[n - 1] * minimal_measure(game, info, n - 1)
    }
}

impl Eval for LinearEval {
    open spec fn rate(&self, game: Game, info: PlacementInfo) -> i64 {
        weighted(self.weights@, game, info, 13) as i64
    }

    fn value(&self, game: &Game, info: &PlacementInfo) -> (score: i64) {
        let measures = minimal_measures(game, info);
        let mut sum: i64 = 0;
        let mut i: usize = 0;
        while i < 13
            invariant
                i <= 13,
                forall|k: int| 0 <= k < 13 ==> #[trigger] measures[k] == minimal_measure(*game, *info, k),
                forall|k: int| 0 <= k < 13 ==> -65535 <= #[trigger] measures[k] <= 65535,
                sum == weighted(self.weights@, *game, *info, i as int),
                -140735340871680 * i <= sum <= 140735340871680 * i,
            decreases 13 - i,
        {
            let w: i64 = self.weights[i] as i64;
            let m: i64 = measures[i] as i64;
            assert(-140735340871680 <= w * m <= 140735340871680) by (nonlinear_arith)
                requires
                    -2147483648 <= w <= 2147483648,
                    -65535 <= m <= 65535,
            ;
            sum = sum + w * m;
            i += 1;
        }
        sum
    }
}

} // verus!
