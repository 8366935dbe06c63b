use vstd::prelude::*;

use crate::error::ConfigError;

verus! {

/// A square table of non-negative integer costs; `matrix[i][j]` is the cost of
/// travelling from city `i` to city `j`.
#[derive(Debug, Clone)]
pub struct DistanceMatrix {
    pub matrix: Vec<Vec<u64>>,
    pub size: usize,
}

/// Every row of `rows` has one entry per row.
pub open spec fn is_square(rows: Seq<Vec<u64>>) -> bool {
    forall|i: int| 0 <= i < rows.len() ==> #[trigger] rows[i]@.len() == rows.len()
}

/// Every weight is small enough that a sum of `rows.len()` of them fits a `u64`.
pub open spec fn weights_bounded(rows: Seq<Vec<u64>>) -> bool {
    forall|i: int, j: int|
        0 <= i < rows.len() && 0 <= j < rows[i]@.len() ==> #[trigger] rows[i]@[j] as int
            <= u64::MAX as int / rows.len() as int
}

impl DistanceMatrix {
    pub open spec fn wf(&self) -> bool {
        &&& self.size == self.matrix@.len()
        &&& self.size > 0
        &&& is_square(self.matrix@)
        &&& weights_bounded(self.matrix@)
    }

    /// The cost of the edge from `i` to `j`.
    pub open spec fn weight(&self, i: int, j: int) -> int {
        self.matrix@[i]@[j] as int
    }

    /// Validates a table of weights: it must be non-empty and square, and its
    /// weights small enough that the cost of every tour fits a `u64`.
    pub fn new(matrix: Vec<Vec<u64>>) -> (r: Result<DistanceMatrix, ConfigError>)
        ensures
            matrix@.len() == 0 ==> r == Err::<DistanceMatrix, ConfigError>(
                ConfigError::EmptyMatrix,
            ),
            matrix@.len() > 0 && !is_square(matrix@) ==> r == Err::<DistanceMatrix, ConfigError>(
                ConfigError::NotSquare,
            ),
            matrix@.len() > 0 && is_square(matrix@) && !weights_bounded(matrix@) ==> r == Err::<
                DistanceMatrix,
                ConfigError,
            >(ConfigError::WeightTooLarge),
            matrix@.len() > 0 && is_square(matrix@) && weights_bounded(matrix@) ==> r is Ok,
            r matches Ok(d) ==> d.wf() && d.matrix@ == matrix@,
    {
        let size = matrix.len();
        if size == 0 {
            return Err(ConfigError::EmptyMatrix);
        }
        let mut i: usize = 0;
        while i < size
            invariant
                size == matrix@.len(),
                i <= size,
                forall|k: int| 0 <= k < i ==> #[trigger] matrix@[k]@.len() == size,
            decreases size - i,
        {
            if matrix[i].len() != size {
                return Err(ConfigError::NotSquare);
            }
            i = i + 1;
        }
        let limit: u64 = u64::MAX / (size as u64);
        let mut i: usize = 0;
        while i < size
            invariant
                size == matrix@.len(),
                size > 0,
                is_square(matrix@),
                limit as int == u64::MAX as int / size as int,
                i <= size,
                forall|k: int, j: int|
                    0 <= k < i && 0 <= j < size ==> #[trigger] matrix@[k]@[j] as int <= limit,
            decreases size - i,
        {
            let mut j: usize = 0;
            while j < size
                invariant
                    size == matrix@.len(),
                    size > 0,
                    is_square(matrix@),
                    limit as int == u64::MAX as int / size as int,
                    i < size,
                    j <= size,
                    forall|l: int| 0 <= l < j ==> #[trigger] matrix@[i as int]@[l] as int <= limit,
                decreases size - j,
            {
                assert(matrix@[i as int]@.len() == size);
                if matrix[i][j] > limit {
                    assert(matrix@[i as int]@[j as int] as int > limit);
                    return Err(ConfigError::WeightTooLarge);
                }
                j = j + 1;
            }
            i = i + 1;
        }
        Ok(DistanceMatrix { matrix, size })
    }
}

} // verus!
