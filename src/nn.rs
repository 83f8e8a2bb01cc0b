use vstd::prelude::*;

verus! {

/// Inputs and outputs of layer `i` of a perceptron with `nin` inputs and
/// layer widths `nout`: layer 0 reads the inputs, each later layer reads the
/// outputs of the one before it.
pub open spec fn layer_shape(nin: usize, nout: Seq<usize>, i: int) -> (usize, usize) {
    (if i == 0 { nin } else { nout[i - 1] }, nout[i])
}

/// The (inputs, outputs) pair of each layer of a perceptron with `nin`
/// inputs and one layer per entry of `nout`.
pub fn layer_shapes(nin: usize, nout: &Vec<usize>) -> (r: Vec<(usize, usize)>)
    ensures
        r.len() == nout.len(),
        forall|i: int| 0 <= i < r.len() ==> #[trigger] r[i] == layer_shape(nin, nout@, i),
{
    let mut r: Vec<(usize, usize)> = Vec::new();
    let mut prev: usize = nin;
    let mut i: usize = 0;
    while i < nout.len()
        invariant
            i <= nout.len(),
            r.len() == i,
            prev == (if i == 0 { nin } else { nout@[i - 1] }),
            forall|j: int| 0 <= j < i ==> #[trigger] r[j] == layer_shape(nin, nout@, j),
        decreases nout.len() - i,
    {
        r.push((prev, nout[i]));
        prev = nout[i];
        i += 1;
    }
    r
}

} // verus!
