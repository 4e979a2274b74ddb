//! The shape of a network: the layer widths, and how many values the
//! tensors between the layers hold.

use vstd::prelude::*;

verus! {

/// A network has at least an input and an output layer, and one activation
/// for every layer but the input.
pub open spec fn valid_shape(layers: Seq<usize>, activations: nat) -> bool {
    layers.len() >= 2 && activations == layers.len() - 1
}

/// The number of weights in the first `i` matrices: matrix `m` holds
/// `layers[m + 1]` rows of `layers[m]` weights each.
pub open spec fn weights_before(layers: Seq<usize>, i: int) -> nat
    decreases i,
{
    if i <= 0 {
        0
    } else {
        weights_before(layers, i - 1) + (layers[i - 1] * layers[i]) as nat
    }
}

/// The number of biases in the first `i` vectors: vector `m` holds
/// `layers[m + 1]` biases.
pub open spec fn biases_before(layers: Seq<usize>, i: int) -> nat
    decreases i,
{
    if i <= 0 {
        0
    } else {
        biases_before(layers, i - 1) + layers[i] as nat
    }
}

/// The number of weights of a whole network.
pub open spec fn weight_count(layers: Seq<usize>) -> nat {
    weights_before(layers, layers.len() - 1)
}

/// The number of biases of a whole network.
pub open spec fn bias_count(layers: Seq<usize>) -> nat {
    biases_before(layers, layers.len() - 1)
}

pub proof fn lemma_weights_before_grows(layers: Seq<usize>, i: int, j: int)
    requires
        i <= j,
    ensures
        weights_before(layers, i) <= weights_before(layers, j),
    decreases j - i,
{
    if i < j {
        lemma_weights_before_grows(layers, i, j - 1);
    }
}

pub proof fn lemma_biases_before_grows(layers: Seq<usize>, i: int, j: int)
    requires
        i <= j,
    ensures
        biases_before(layers, i) <= biases_before(layers, j),
    decreases j - i,
{
    if i < j {
        lemma_biases_before_grows(layers, i, j - 1);
    }
}

/// Counts the weights of a network with the given layer widths; `None`
/// where the count does not fit the machine's word.
pub fn count_weights(layers: &[usize]) -> (r: Option<usize>)
    ensures
        match r {
            Some(n) => n == weight_count(layers@),
            None => weight_count(layers@) > usize::MAX,
        },
{
    if layers.len() == 0 {
        return Some(0);
    }
    let mut total: usize = 0;
    let mut i: usize = 1;
    while i < layers.len()
        invariant
            1 <= i <= layers@.len(),
            total == weights_before(layers@, i - 1),
        decreases layers.len() - i,
    {
        let next: Option<usize> = match layers[i - 1].checked_mul(layers[i]) {
            Some(cells) => total.checked_add(cells),
            None => None,
        };
        match next {
            Some(sum) => {
                total = sum;
            },
            None => {
                proof {
                    lemma_weights_before_grows(layers@, i as int, layers@.len() - 1);
                }
                return None;
            },
        }
        i += 1;
    }
    Some(total)
}

/// Counts the biases of a network with the given layer widths; `None`
/// where the count does not fit the machine's word.
pub fn count_biases(layers: &[usize]) -> (r: Option<usize>)
    ensures
        match r {
            Some(n) => n == bias_count(layers@),
            None => bias_count(layers@) > usize::MAX,
        },
{
    if layers.len() == 0 {
        return Some(0);
    }
    let mut total: usize = 0;
    let mut i: usize = 1;
    while i < layers.len()
        invariant
            1 <= i <= layers@.len(),
            total == biases_before(layers@, i - 1),
        decreases layers.len() - i,
    {
        match total.checked_add(layers[i]) {
            Some(sum) => {
                total = sum;
            },
            None => {
                proof {
                    lemma_biases_before_grows(layers@, i as int, layers@.len() - 1);
                }
                return None;
            },
        }
        i += 1;
    }
    Some(total)
}

} // verus!
