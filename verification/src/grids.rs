//! Element-wise conjunction of boolean vectors and matrices.
use vstd::prelude::*;

verus! {

/// Element-wise `&&` of two boolean vectors of equal length.
pub fn and_1d(vector1: &Vec<bool>, vector2: &Vec<bool>) -> (result: Vec<bool>)
    requires
        vector1@.len() == vector2@.len(),
    ensures
        result@.len() == vector1@.len(),
        forall|i: int| 0 <= i < result@.len() ==> result@[i] == (vector1@[i] && vector2@[i]),
{
    let mut result: Vec<bool> = Vec::new();
    let n = vector1.len();
    for k in 0..n
        invariant
            n == vector1@.len(),
            n == vector2@.len(),
            result@.len() == k,
            forall|i: int| 0 <= i < k ==> result@[i] == (vector1@[i] && vector2@[i]),
    {
        result.push(vector1[k] && vector2[k]);
    }
    result
}

/// Element-wise `&&` of two boolean matrices of equal dimensions.
pub fn and_2d(matrix1: &Vec<Vec<bool>>, matrix2: &Vec<Vec<bool>>) -> (result: Vec<Vec<bool>>)
    requires
        matrix1@.len() == matrix2@.len(),
        forall|i: int| 0 <= i < matrix1@.len() ==> matrix1@[i]@.len() == matrix2@[i]@.len(),
    ensures
        result@.len() == matrix1@.len(),
        forall|i: int| 0 <= i < result@.len() ==> result@[i]@.len() == matrix1@[i]@.len(),
        forall|i: int, j: int|
            0 <= i < result@.len() && 0 <= j < result@[i]@.len() ==> result@[i]@[j] == (
            matrix1@[i]@[j] && matrix2@[i]@[j]),
{
    let mut result: Vec<Vec<bool>> = Vec::new();
    let n = matrix1.len();
    for k in 0..n
        invariant
            n == matrix1@.len(),
            n == matrix2@.len(),
            forall|i: int| 0 <= i < n ==> matrix1@[i]@.len() == matrix2@[i]@.len(),
            result@.len() == k,
            forall|i: int| 0 <= i < k ==> result@[i]@.len() == matrix1@[i]@.len(),
            forall|i: int, j: int|
                0 <= i < k && 0 <= j < result@[i]@.len() ==> result@[i]@[j] == (matrix1@[i]@[j]
                && matrix2@[i]@[j]),
    {
        result.push(and_1d(&matrix1[k], &matrix2[k]));
    }
    result
}

} // verus!
