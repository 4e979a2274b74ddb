//! The state of a network: its layers and activations, its weight and bias
//! tensors and the values of its neurons.
//!
//! The scalar type is the caller's. Nothing here computes with a scalar:
//! these functions build the tensors in the shape that the layers call for,
//! and move scalars in and out of them in a fixed order.

use crate::activations::Activations;
use crate::format::LoadError;
use crate::shape::bias_count;
use crate::shape::biases_before;
use crate::shape::count_biases;
use crate::shape::count_weights;
use crate::shape::lemma_biases_before_grows;
use crate::shape::lemma_weights_before_grows;
use crate::shape::valid_shape;
use crate::shape::weight_count;
use crate::shape::weights_before;
use crate::tensor::copy_range;
use crate::tensor::cut_at;
use crate::tensor::extend;
use crate::tensor::joined;
use crate::tensor::lemma_cut_joined;
use crate::tensor::lemma_joined_cut;
use crate::tensor::lemma_joined_push;
use crate::tensor::starts_at;
use vstd::prelude::*;

verus! {

/// A feed-forward network of fully connected layers.
pub struct Athenna<T> {
    /// The value of every neuron after the last forward pass, layer by
    /// layer.
    pub neurons: Vec<Vec<T>>,
    /// One matrix between each layer and the next; row `j` of matrix `i`
    /// holds the weights into neuron `j` of layer `i + 1`.
    pub weights: Vec<Vec<Vec<T>>>,
    /// One vector for each layer but the first.
    pub biases: Vec<Vec<T>>,
    /// The activation of each layer but the first.
    pub activations: Vec<Activations>,
    /// The width of each layer, the input layer first.
    pub layers: Vec<usize>,
    pub learning_rate: T,
    /// The cost of the last training step.
    pub cost: T,
}

/// What a network holds.
pub struct Network<T> {
    pub neurons: Seq<Seq<T>>,
    pub weights: Seq<Seq<Seq<T>>>,
    pub biases: Seq<Seq<T>>,
    pub activations: Seq<Activations>,
    pub layers: Seq<usize>,
    pub learning_rate: T,
    pub cost: T,
}

/// The rows of a matrix.
pub open spec fn rows<T>(matrix: Vec<Vec<T>>) -> Seq<Seq<T>> {
    matrix@.map_values(|row: Vec<T>| row@)
}

/// The matrices of a tensor.
pub open spec fn matrices<T>(tensor: Vec<Vec<Vec<T>>>) -> Seq<Seq<Seq<T>>> {
    tensor@.map_values(|matrix: Vec<Vec<T>>| rows(matrix))
}

impl<T> View for Athenna<T> {
    type V = Network<T>;

    open spec fn view(&self) -> Network<T> {
        Network {
            neurons: rows(self.neurons),
            weights: matrices(self.weights),
            biases: rows(self.biases),
            activations: self.activations@,
            layers: self.layers@,
            learning_rate: self.learning_rate,
            cost: self.cost,
        }
    }
}

/// The number of layers after the first: as many as there are weight
/// matrices and bias vectors.
pub open spec fn links(layers: Seq<usize>) -> nat {
    if layers.len() == 0 {
        0
    } else {
        (layers.len() - 1) as nat
    }
}

/// One vector per layer, each as wide as its layer.
pub open spec fn neurons_shaped<T>(layers: Seq<usize>, neurons: Seq<Seq<T>>) -> bool {
    &&& neurons.len() == layers.len()
    &&& forall|i: int| 0 <= i < layers.len() ==> (#[trigger] neurons[i]).len() == layers[i]
}

/// One vector per layer after the first, each as wide as its layer.
pub open spec fn biases_shaped<T>(layers: Seq<usize>, biases: Seq<Seq<T>>) -> bool {
    &&& biases.len() == links(layers)
    &&& forall|i: int| 0 <= i < links(layers) ==> (#[trigger] biases[i]).len() == layers[i + 1]
}

/// One matrix per layer after the first, with a row for each neuron of the
/// layer and a column for each neuron of the layer before.
pub open spec fn weights_shaped<T>(layers: Seq<usize>, weights: Seq<Seq<Seq<T>>>) -> bool {
    &&& weights.len() == links(layers)
    &&& forall|i: int|
        0 <= i < links(layers) ==> (#[trigger] weights[i]).len() == layers[i + 1]
    &&& forall|i: int, j: int|
        0 <= i < links(layers) && 0 <= j < layers[i + 1] ==> (#[trigger] weights[i][j]).len()
            == layers[i]
}

impl<T> Network<T> {
    /// The tensors have the shape that the layers call for, and there is
    /// one activation for every layer but the first.
    pub open spec fn well_formed(self) -> bool {
        &&& valid_shape(self.layers, self.activations.len())
        &&& neurons_shaped(self.layers, self.neurons)
        &&& weights_shaped(self.layers, self.weights)
        &&& biases_shaped(self.layers, self.biases)
    }
}

/// A vector of `n` copies of one value.
pub open spec fn filled_row<T>(n: nat, fill: T) -> Seq<T> {
    Seq::new(n, |k: int| fill)
}

/// The neurons of a network with every value at `fill`.
pub open spec fn filled_neurons<T>(layers: Seq<usize>, fill: T) -> Seq<Seq<T>> {
    Seq::new(layers.len(), |i: int| filled_row(layers[i] as nat, fill))
}

/// The biases of a network with every bias at `fill`.
pub open spec fn filled_biases<T>(layers: Seq<usize>, fill: T) -> Seq<Seq<T>> {
    Seq::new(links(layers), |i: int| filled_row(layers[i + 1] as nat, fill))
}

/// The weights of a network with every weight at `fill`.
pub open spec fn filled_weights<T>(layers: Seq<usize>, fill: T) -> Seq<Seq<Seq<T>>> {
    Seq::new(
        links(layers),
        |i: int| Seq::new(layers[i + 1] as nat, |j: int| filled_row(layers[i] as nat, fill)),
    )
}

/// The biases in storage order: vector by vector.
pub open spec fn flattened_biases<T>(biases: Seq<Seq<T>>) -> Seq<T> {
    joined(biases)
}

/// The weights in storage order: matrix by matrix, and row by row in each.
pub open spec fn flattened_weights<T>(weights: Seq<Seq<Seq<T>>>) -> Seq<T> {
    joined(weights.map_values(|matrix: Seq<Seq<T>>| joined(matrix)))
}

/// The bias vectors that hold `values` in storage order: vector `i` is the
/// next `layers[i + 1]` values.
pub open spec fn shaped_biases<T>(layers: Seq<usize>, values: Seq<T>) -> Seq<Seq<T>> {
    Seq::new(
        links(layers),
        |i: int|
            values.subrange(biases_before(layers, i) as int, biases_before(layers, i + 1) as int),
    )
}

/// The matrix of `height` rows of `width` values each that holds the part
/// of `values` from `start` on, row by row.
pub open spec fn shaped_matrix<T>(values: Seq<T>, start: int, height: nat, width: nat) -> Seq<
    Seq<T>,
> {
    Seq::new(height, |j: int| values.subrange(start + j * width, start + (j + 1) * width))
}

/// The weight matrices that hold `values` in storage order: matrix `i` is
/// the next `layers[i + 1]` rows of `layers[i]` values each.
pub open spec fn shaped_weights<T>(layers: Seq<usize>, values: Seq<T>) -> Seq<Seq<Seq<T>>> {
    Seq::new(
        links(layers),
        |i: int|
            shaped_matrix(
                values,
                weights_before(layers, i) as int,
                layers[i + 1] as nat,
                layers[i] as nat,
            ),
    )
}

/// A vector of `n` copies of `fill`.
pub fn filled<T: Copy>(n: usize, fill: T) -> (r: Vec<T>)
    ensures
        r@ == filled_row(n as nat, fill),
{
    let mut row: Vec<T> = Vec::new();
    let mut k: usize = 0;
    while k < n
        invariant
            k <= n,
            row@ == filled_row(k as nat, fill),
        decreases n - k,
    {
        row.push(fill);
        assert(row@ =~= filled_row((k + 1) as nat, fill));
        k += 1;
    }
    row
}

impl<T: Copy> Athenna<T> {
    /// A network of the given layers and activations. Every neuron, weight
    /// and bias starts at `zero`, and so does the cost. Whether there are
    /// two layers or more, and one activation for each layer but the
    /// first, is not looked at: the network is well formed where there
    /// are.
    pub fn new(layers: Vec<usize>, activations: Vec<Activations>, zero: T, learning_rate: T) -> (r:
        Athenna<T>)
        ensures
            r@ == (Network {
                neurons: filled_neurons(layers@, zero),
                weights: filled_weights(layers@, zero),
                biases: filled_biases(layers@, zero),
                activations: activations@,
                layers: layers@,
                learning_rate,
                cost: zero,
            }),
            valid_shape(layers@, activations@.len()) ==> r@.well_formed(),
    {
        let mut nn = Athenna {
            neurons: Vec::new(),
            weights: Vec::new(),
            activations,
            layers,
            biases: Vec::new(),
            learning_rate,
            cost: zero,
        };
        nn.init_neurons(zero);
        nn.init_biases(zero);
        nn.init_weights(zero);
        nn
    }

    /// Sets the value of every neuron to `zero`, with one vector per layer
    /// as wide as the layer.
    pub fn init_neurons(&mut self, zero: T)
        ensures
            final(self)@ == (Network {
                neurons: filled_neurons(old(self)@.layers, zero),
                ..old(self)@
            }),
            neurons_shaped(final(self)@.layers, final(self)@.neurons),
    {
        let mut neurons: Vec<Vec<T>> = Vec::new();
        let mut i: usize = 0;
        assert(rows(neurons) =~= filled_neurons(self.layers@, zero).take(0));
        while i < self.layers.len()
            invariant
                i <= self.layers.len(),
                rows(neurons) == filled_neurons(self.layers@, zero).take(i as int),
            decreases self.layers.len() - i,
        {
            let ghost before = rows(neurons);
            let row = filled(self.layers[i], zero);
            neurons.push(row);
            assert(rows(neurons) =~= before.push(row@));
            assert(before.push(row@) =~= filled_neurons(self.layers@, zero).take(i + 1));
            i += 1;
        }
        assert(rows(neurons) =~= filled_neurons(self.layers@, zero));
        self.neurons = neurons;
    }

    /// Sets every bias to `fill`, with one vector for each layer but the
    /// first, as wide as the layer.
    pub fn init_biases(&mut self, fill: T)
        ensures
            final(self)@ == (Network {
                biases: filled_biases(old(self)@.layers, fill),
                ..old(self)@
            }),
            biases_shaped(final(self)@.layers, final(self)@.biases),
    {
        let mut biases: Vec<Vec<T>> = Vec::new();
        let mut i: usize = 1;
        let ghost all = filled_biases(self.layers@, fill);
        assert(rows(biases) =~= all.take(0));
        while i < self.layers.len()
            invariant
                1 <= i,
                i <= self.layers.len() || (self.layers.len() == 0 && i == 1),
                all == filled_biases(self.layers@, fill),
                rows(biases) == all.take(i - 1),
            decreases self.layers.len() - i,
        {
            let ghost before = rows(biases);
            let row = filled(self.layers[i], fill);
            biases.push(row);
            assert(rows(biases) =~= before.push(row@));
            assert(before.push(row@) =~= all.take(i as int));
            i += 1;
        }
        assert(all.take(links(self.layers@) as int) =~= all);
        self.biases = biases;
    }

    /// Sets every weight to `fill`, with one matrix for each layer but the
    /// first: a row for each of its neurons, as wide as the layer before.
    pub fn init_weights(&mut self, fill: T)
        ensures
            final(self)@ == (Network {
                weights: filled_weights(old(self)@.layers, fill),
                ..old(self)@
            }),
            weights_shaped(final(self)@.layers, final(self)@.weights),
    {
        let mut weights: Vec<Vec<Vec<T>>> = Vec::new();
        let mut i: usize = 1;
        let ghost all = filled_weights(self.layers@, fill);
        assert(matrices(weights) =~= all.take(0));
        while i < self.layers.len()
            invariant
                1 <= i,
                i <= self.layers.len() || (self.layers.len() == 0 && i == 1),
                all == filled_weights(self.layers@, fill),
                matrices(weights) == all.take(i - 1),
            decreases self.layers.len() - i,
        {
            let width: usize = self.layers[i - 1];
            let height: usize = self.layers[i];
            let mut matrix: Vec<Vec<T>> = Vec::new();
            let mut j: usize = 0;
            let ghost wanted = all[i - 1];
            assert(rows(matrix) =~= wanted.take(0));
            while j < height
                invariant
                    j <= height,
                    wanted == Seq::new(height as nat, |x: int| filled_row(width as nat, fill)),
                    rows(matrix) == wanted.take(j as int),
                decreases height - j,
            {
                let ghost before = rows(matrix);
                let row = filled(width, fill);
                matrix.push(row);
                assert(rows(matrix) =~= before.push(row@));
                assert(before.push(row@) =~= wanted.take(j + 1));
                j += 1;
            }
            assert(wanted.take(height as int) =~= wanted);
            let ghost before = matrices(weights);
            weights.push(matrix);
            assert(matrices(weights) =~= before.push(rows(matrix)));
            assert(before.push(wanted) =~= all.take(i as int));
            i += 1;
        }
        assert(all.take(links(self.layers@) as int) =~= all);
        self.weights = weights;
    }

    /// Puts `values` into the biases, in storage order. There must be one
    /// value for every bias that the layers call for; otherwise nothing
    /// changes.
    pub fn set_biases(&mut self, values: &Vec<T>) -> (r: Result<(), LoadError>)
        ensures
            match r {
                Ok(()) => {
                    &&& values@.len() == bias_count(old(self)@.layers)
                    &&& final(self)@ == (Network {
                        biases: shaped_biases(old(self)@.layers, values@),
                        ..old(self)@
                    })
                    &&& biases_shaped(final(self)@.layers, final(self)@.biases)
                },
                Err(e) => {
                    &&& e == LoadError::CountMismatch
                    &&& values@.len() != bias_count(old(self)@.layers)
                    &&& *final(self) == *old(self)
                },
            },
    {
        let given: usize = values.len();
        let fits: bool = match count_biases(self.layers.as_slice()) {
            Some(n) => n == given,
            None => false,
        };
        if !fits {
            return Err(LoadError::CountMismatch);
        }
        let mut biases: Vec<Vec<T>> = Vec::new();
        let mut at: usize = 0;
        let mut i: usize = 1;
        let ghost all = shaped_biases(self.layers@, values@);
        assert(rows(biases) =~= all.take(0));
        while i < self.layers.len()
            invariant
                1 <= i,
                i <= self.layers.len() || (self.layers.len() == 0 && i == 1),
                values@.len() == bias_count(self.layers@),
                values@.len() <= usize::MAX,
                at == biases_before(self.layers@, i - 1),
                all == shaped_biases(self.layers@, values@),
                rows(biases) == all.take(i - 1),
            decreases self.layers.len() - i,
        {
            let width: usize = self.layers[i];
            proof {
                lemma_biases_before_grows(self.layers@, i as int, self.layers@.len() - 1);
                assert(biases_before(self.layers@, i as int) == at + width);
            }
            let ghost before = rows(biases);
            let row = copy_range(values, at, at + width);
            biases.push(row);
            assert(rows(biases) =~= before.push(row@));
            assert(before.push(row@) =~= all.take(i as int));
            at = at + width;
            i += 1;
        }
        assert(all.take(links(self.layers@) as int) =~= all);
        proof {
            lemma_flattened_shaped_biases(self.layers@, values@);
        }
        self.biases = biases;
        Ok(())
    }

    /// Puts `values` into the weights, in storage order. There must be one
    /// value for every weight that the layers call for; otherwise nothing
    /// changes.
    pub fn set_weights(&mut self, values: &Vec<T>) -> (r: Result<(), LoadError>)
        ensures
            match r {
                Ok(()) => {
                    &&& values@.len() == weight_count(old(self)@.layers)
                    &&& final(self)@ == (Network {
                        weights: shaped_weights(old(self)@.layers, values@),
                        ..old(self)@
                    })
                    &&& weights_shaped(final(self)@.layers, final(self)@.weights)
                },
                Err(e) => {
                    &&& e == LoadError::CountMismatch
                    &&& values@.len() != weight_count(old(self)@.layers)
                    &&& *final(self) == *old(self)
                },
            },
    {
        let given: usize = values.len();
        let fits: bool = match count_weights(self.layers.as_slice()) {
            Some(n) => n == given,
            None => false,
        };
        if !fits {
            return Err(LoadError::CountMismatch);
        }
        let mut weights: Vec<Vec<Vec<T>>> = Vec::new();
        let mut at: usize = 0;
        let mut i: usize = 1;
        let ghost all = shaped_weights(self.layers@, values@);
        assert(matrices(weights) =~= all.take(0));
        while i < self.layers.len()
            invariant
                1 <= i,
                i <= self.layers.len() || (self.layers.len() == 0 && i == 1),
                values@.len() == weight_count(self.layers@),
                values@.len() <= usize::MAX,
                at == weights_before(self.layers@, i - 1),
                all == shaped_weights(self.layers@, values@),
                matrices(weights) == all.take(i - 1),
            decreases self.layers.len() - i,
        {
            let width: usize = self.layers[i - 1];
            let height: usize = self.layers[i];
            let ghost wanted = shaped_matrix(values@, at as int, height as nat, width as nat);
            proof {
                lemma_weights_before_grows(self.layers@, i as int, self.layers@.len() - 1);
                assert(weights_before(self.layers@, i as int) == at + height * width);
                assert(all[i - 1] == wanted);
            }
            let mut matrix: Vec<Vec<T>> = Vec::new();
            let mut start: usize = at;
            let mut j: usize = 0;
            assert(rows(matrix) =~= wanted.take(0));
            while j < height
                invariant
                    j <= height,
                    start == at + j * width,
                    at + height * width <= values@.len(),
                    values@.len() <= usize::MAX,
                    wanted == shaped_matrix(values@, at as int, height as nat, width as nat),
                    rows(matrix) == wanted.take(j as int),
                decreases height - j,
            {
                proof {
                    assert((j + 1) * width == j * width + width) by (nonlinear_arith);
                    assert((j + 1) * width <= height * width) by (nonlinear_arith)
                        requires
                            j + 1 <= height,
                            0 <= width,
                    ;
                }
                let ghost before = rows(matrix);
                let row = copy_range(values, start, start + width);
                matrix.push(row);
                assert(rows(matrix) =~= before.push(row@));
                assert(before.push(row@) =~= wanted.take(j + 1));
                start = start + width;
                j += 1;
            }
            assert(wanted.take(height as int) =~= wanted);
            let ghost before = matrices(weights);
            weights.push(matrix);
            assert(matrices(weights) =~= before.push(rows(matrix)));
            assert(before.push(wanted) =~= all.take(i as int));
            at = start;
            i += 1;
        }
        assert(all.take(links(self.layers@) as int) =~= all);
        proof {
            lemma_flattened_shaped_weights(self.layers@, values@);
        }
        self.weights = weights;
        Ok(())
    }

    /// The biases in storage order.
    pub fn flat_biases(&self) -> (r: Vec<T>)
        ensures
            r@ == flattened_biases(self@.biases),
    {
        let mut out: Vec<T> = Vec::new();
        let mut i: usize = 0;
        let ghost all = rows(self.biases);
        assert(all.take(0) =~= Seq::<Seq<T>>::empty());
        while i < self.biases.len()
            invariant
                i <= self.biases.len(),
                all == rows(self.biases),
                out@ == joined(all.take(i as int)),
            decreases self.biases.len() - i,
        {
            extend(&mut out, &self.biases[i]);
            proof {
                lemma_joined_push(all.take(i as int), all[i as int]);
                assert(all.take(i as int).push(all[i as int]) =~= all.take(i + 1));
            }
            i += 1;
        }
        assert(all.take(all.len() as int) =~= all);
        out
    }

    /// The weights in storage order.
    pub fn flat_weights(&self) -> (r: Vec<T>)
        ensures
            r@ == flattened_weights(self@.weights),
    {
        let mut out: Vec<T> = Vec::new();
        let mut i: usize = 0;
        let ghost all = matrices(self.weights).map_values(|matrix: Seq<Seq<T>>| joined(matrix));
        assert(all.take(0) =~= Seq::<Seq<T>>::empty());
        while i < self.weights.len()
            invariant
                i <= self.weights.len(),
                all == matrices(self.weights).map_values(|matrix: Seq<Seq<T>>| joined(matrix)),
                out@ == joined(all.take(i as int)),
            decreases self.weights.len() - i,
        {
            let matrix = &self.weights[i];
            let ghost done = out@;
            let ghost lines = rows(*matrix);
            let mut j: usize = 0;
            assert(lines.take(0) =~= Seq::<Seq<T>>::empty());
            assert(out@ =~= done + joined(lines.take(0)));
            while j < matrix.len()
                invariant
                    j <= matrix.len(),
                    lines == rows(*matrix),
                    out@ == done + joined(lines.take(j as int)),
                decreases matrix.len() - j,
            {
                extend(&mut out, &matrix[j]);
                proof {
                    lemma_joined_push(lines.take(j as int), lines[j as int]);
                    assert(lines.take(j as int).push(lines[j as int]) =~= lines.take(j + 1));
                    assert(out@ =~= done + joined(lines.take(j + 1)));
                }
                j += 1;
            }
            proof {
                assert(lines.take(lines.len() as int) =~= lines);
                assert(all[i as int] == joined(lines));
                lemma_joined_push(all.take(i as int), all[i as int]);
                assert(all.take(i as int).push(all[i as int]) =~= all.take(i + 1));
            }
            i += 1;
        }
        assert(all.take(all.len() as int) =~= all);
        out
    }

    /// Copies `inputs` into the neurons of the first layer.
    pub fn set_inputs(&mut self, inputs: &Vec<T>)
        requires
            old(self)@.well_formed(),
            inputs@.len() == old(self)@.layers[0],
        ensures
            final(self)@ == (Network {
                neurons: old(self)@.neurons.update(0, inputs@),
                ..old(self)@
            }),
            final(self)@.well_formed(),
    {
        let ghost before = rows(self.neurons);
        let row = copy_range(inputs, 0, inputs.len());
        assert(row@ =~= inputs@);
        self.neurons[0] = row;
        assert(rows(self.neurons) =~= before.update(0, inputs@));
        assert(neurons_shaped(self.layers@, rows(self.neurons))) by {
            assert forall|i: int| 0 <= i < self.layers@.len() implies (#[trigger] rows(
                self.neurons,
            )[i]).len() == self.layers@[i] by {
                if i > 0 {
                    assert(rows(self.neurons)[i] == before[i]);
                }
            }
        }
    }

    /// A copy of the neurons of the last layer: as many values as the
    /// layer is wide.
    pub fn outputs(&self) -> (r: Vec<T>)
        requires
            self@.well_formed(),
        ensures
            r@ == self@.neurons.last(),
            r@.len() == self@.layers.last(),
    {
        let last: usize = self.neurons.len() - 1;
        let row = &self.neurons[last];
        assert(row@ == rows(self.neurons)[last as int]);
        let out = copy_range(row, 0, row.len());
        assert(out@ =~= row@);
        out
    }

    /// Whether the tensors have the shape that the layers call for, and
    /// there is one activation for every layer but the first.
    pub fn is_well_formed(&self) -> (r: bool)
        ensures
            r == self@.well_formed(),
    {
        let n: usize = self.layers.len();
        if n < 2 || self.activations.len() != n - 1 || self.neurons.len() != n
            || self.weights.len() != n - 1 || self.biases.len() != n - 1 {
            return false;
        }
        let ghost neurons = rows(self.neurons);
        let ghost biases = rows(self.biases);
        let ghost weights = matrices(self.weights);
        let mut i: usize = 0;
        while i < n
            invariant
                i <= n,
                n == self.layers@.len(),
                n == self.neurons@.len(),
                neurons == rows(self.neurons),
                forall|k: int| 0 <= k < i ==> (#[trigger] neurons[k]).len() == self.layers@[k],
            decreases n - i,
        {
            if self.neurons[i].len() != self.layers[i] {
                assert(neurons[i as int].len() != self.layers@[i as int]);
                return false;
            }
            i += 1;
        }
        let mut i: usize = 0;
        while i < n - 1
            invariant
                i <= n - 1,
                2 <= n,
                n == self.layers@.len(),
                n - 1 == self.biases@.len(),
                n - 1 == self.weights@.len(),
                biases == rows(self.biases),
                weights == matrices(self.weights),
                forall|k: int| 0 <= k < i ==> (#[trigger] biases[k]).len() == self.layers@[k + 1],
                forall|k: int| 0 <= k < i ==> (#[trigger] weights[k]).len() == self.layers@[k + 1],
                forall|k: int, j: int|
                    0 <= k < i && 0 <= j < self.layers@[k + 1] ==> (#[trigger] weights[k][j]).len()
                        == self.layers@[k],
            decreases n - 1 - i,
        {
            let height: usize = self.layers[i + 1];
            let width: usize = self.layers[i];
            if self.biases[i].len() != height {
                assert(biases[i as int].len() != self.layers@[i + 1]);
                return false;
            }
            let matrix = &self.weights[i];
            if matrix.len() != height {
                assert(weights[i as int].len() != self.layers@[i + 1]);
                return false;
            }
            let mut j: usize = 0;
            while j < height
                invariant
                    j <= height,
                    2 <= n,
                    i < n - 1,
                    n == self.layers@.len(),
                    n - 1 == weights.len(),
                    height == self.layers@[i + 1],
                    width == self.layers@[i as int],
                    height == matrix@.len(),
                    weights == matrices(self.weights),
                    weights[i as int] == rows(*matrix),
                    forall|x: int| 0 <= x < j ==> (#[trigger] weights[i as int][x]).len() == width,
                decreases height - j,
            {
                if matrix[j].len() != width {
                    assert(weights[i as int][j as int].len() != self.layers@[i as int]);
                    return false;
                }
                j += 1;
            }
            i += 1;
        }
        true
    }
}

/// Bias vectors of the right shape can be cut back out of their values in
/// storage order, and there are as many values as the layers call for.
pub proof fn lemma_shaped_flattened_biases<T>(layers: Seq<usize>, biases: Seq<Seq<T>>)
    requires
        biases_shaped(layers, biases),
    ensures
        flattened_biases(biases).len() == bias_count(layers),
        shaped_biases(layers, flattened_biases(biases)) == biases,
{
    let offset = |i: int| biases_before(layers, i) as int;
    assert(starts_at(biases, offset)) by {
        assert forall|i: int| 0 <= i < biases.len() implies #[trigger] offset(i + 1) == offset(i)
            + biases[i].len() by {
            assert(biases[i].len() == layers[i + 1]);
        }
    }
    lemma_joined_cut(biases, offset);
    let values = joined(biases);
    assert(shaped_biases(layers, values) =~= biases) by {
        assert forall|i: int| 0 <= i < biases.len() implies shaped_biases(layers, values)[i]
            == biases[i] by {
            assert(biases[i] == values.subrange(offset(i), offset(i + 1)));
        }
    }
}

/// Values cut into bias vectors come back, in storage order, as they were,
/// and the vectors have the right shape.
pub proof fn lemma_flattened_shaped_biases<T>(layers: Seq<usize>, values: Seq<T>)
    requires
        values.len() == bias_count(layers),
    ensures
        biases_shaped(layers, shaped_biases(layers, values)),
        flattened_biases(shaped_biases(layers, values)) == values,
{
    let offset = |i: int| biases_before(layers, i) as int;
    let biases = shaped_biases(layers, values);
    assert forall|i: int| 0 <= i < biases.len() implies offset(i) <= #[trigger] offset(i + 1)
        <= values.len() by {
        lemma_biases_before_grows(layers, i + 1, layers.len() - 1);
    }
    assert(cut_at(biases, values, offset));
    lemma_cut_joined(biases, values, offset);
    assert forall|i: int| 0 <= i < links(layers) implies (#[trigger] biases[i]).len() == layers[i
        + 1] by {
        assert(offset(i) <= offset(i + 1) <= values.len());
    }
}

/// Where row `j` of a matrix starts and ends among the values of the
/// matrix.
pub proof fn lemma_row_bounds(j: int, height: nat, width: nat)
    requires
        0 <= j < height,
    ensures
        0 <= j * width,
        (j + 1) * width == j * width + width,
        (j + 1) * width <= height * width,
{
    assert(0 <= j * width) by (nonlinear_arith)
        requires
            0 <= j,
            0 <= width,
    ;
    assert((j + 1) * width == j * width + width) by (nonlinear_arith);
    assert((j + 1) * width <= height * width) by (nonlinear_arith)
        requires
            j + 1 <= height,
            0 <= width,
    ;
}

/// A matrix of the right shape can be cut back out of its values laid row
/// by row.
pub proof fn lemma_shaped_joined_matrix<T>(matrix: Seq<Seq<T>>, width: nat)
    requires
        forall|j: int| 0 <= j < matrix.len() ==> (#[trigger] matrix[j]).len() == width,
    ensures
        joined(matrix).len() == matrix.len() * width,
        shaped_matrix(joined(matrix), 0, matrix.len(), width) == matrix,
{
    let offset = |j: int| j * width;
    assert(starts_at(matrix, offset)) by {
        assert forall|j: int| 0 <= j < matrix.len() implies #[trigger] offset(j + 1) == offset(j)
            + matrix[j].len() by {
            assert((j + 1) * width == j * width + width) by (nonlinear_arith);
        }
    }
    lemma_joined_cut(matrix, offset);
    let values = joined(matrix);
    assert(shaped_matrix(values, 0, matrix.len(), width) =~= matrix) by {
        assert forall|j: int| 0 <= j < matrix.len() implies shaped_matrix(
            values,
            0,
            matrix.len(),
            width,
        )[j] == matrix[j] by {
            assert(matrix[j] == values.subrange(offset(j), offset(j + 1)));
        }
    }
}

/// Values cut into the rows of a matrix come back, row by row, as they
/// were.
pub proof fn lemma_joined_shaped_matrix<T>(values: Seq<T>, start: int, height: nat, width: nat)
    requires
        0 <= start,
        start + height * width <= values.len(),
    ensures
        joined(shaped_matrix(values, start, height, width)) == values.subrange(
            start,
            start + height * width,
        ),
{
    let matrix = shaped_matrix(values, start, height, width);
    let part = values.subrange(start, start + height * width);
    let offset = |j: int| j * width;
    assert forall|j: int| 0 <= j < matrix.len() implies offset(j) <= #[trigger] offset(j + 1)
        <= part.len() by {
        lemma_row_bounds(j, height, width);
    }
    assert forall|j: int| 0 <= j < matrix.len() implies #[trigger] matrix[j] == part.subrange(
        offset(j),
        offset(j + 1),
    ) by {
        lemma_row_bounds(j, height, width);
        assert(matrix[j] =~= part.subrange(offset(j), offset(j + 1)));
    }
    assert(offset(0) == 0);
    assert(cut_at(matrix, part, offset));
    lemma_cut_joined(matrix, part, offset);
}

/// Weight matrices of the right shape can be cut back out of their values
/// in storage order, and there are as many values as the layers call for.
pub proof fn lemma_shaped_flattened_weights<T>(layers: Seq<usize>, weights: Seq<Seq<Seq<T>>>)
    requires
        weights_shaped(layers, weights),
    ensures
        flattened_weights(weights).len() == weight_count(layers),
        shaped_weights(layers, flattened_weights(weights)) == weights,
{
    let blocks = weights.map_values(|matrix: Seq<Seq<T>>| joined(matrix));
    let values = joined(blocks);
    let offset = |i: int| weights_before(layers, i) as int;
    assert forall|i: int| 0 <= i < weights.len() implies (#[trigger] blocks[i]).len() == layers[i
        + 1] * layers[i] && shaped_matrix(blocks[i], 0, layers[i + 1] as nat, layers[i] as nat)
        == weights[i] by {
        assert(weights[i].len() == layers[i + 1]);
        assert forall|j: int| 0 <= j < weights[i].len() implies (#[trigger] weights[i][j]).len()
            == layers[i] by {}
        lemma_shaped_joined_matrix(weights[i], layers[i] as nat);
    }
    assert(starts_at(blocks, offset)) by {
        assert forall|i: int| 0 <= i < blocks.len() implies #[trigger] offset(i + 1) == offset(i)
            + blocks[i].len() by {
            assert(blocks[i].len() == layers[i + 1] * layers[i]);
            assert(layers[i + 1] * layers[i] == layers[i] * layers[i + 1]) by (nonlinear_arith);
        }
    }
    lemma_joined_cut(blocks, offset);
    let again = shaped_weights(layers, values);
    assert forall|i: int| 0 <= i < weights.len() implies #[trigger] again[i] == weights[i] by {
        let height = layers[i + 1] as nat;
        let width = layers[i] as nat;
        assert(blocks[i] == values.subrange(offset(i), offset(i + 1)));
        assert(offset(i) <= offset(i + 1) <= values.len());
        let here = shaped_matrix(values, offset(i), height, width);
        let there = shaped_matrix(blocks[i], 0, height, width);
        assert(blocks[i].len() == height * width);
        assert forall|j: int| 0 <= j < height implies #[trigger] here[j] == there[j] by {
            lemma_row_bounds(j, height, width);
            assert(here[j] =~= there[j]);
        }
        assert(here =~= there);
    }
    assert(again =~= weights);
}

/// Values cut into weight matrices come back, in storage order, as they
/// were, and the matrices have the right shape.
pub proof fn lemma_flattened_shaped_weights<T>(layers: Seq<usize>, values: Seq<T>)
    requires
        values.len() == weight_count(layers),
    ensures
        weights_shaped(layers, shaped_weights(layers, values)),
        flattened_weights(shaped_weights(layers, values)) == values,
{
    let weights = shaped_weights(layers, values);
    let blocks = weights.map_values(|matrix: Seq<Seq<T>>| joined(matrix));
    let offset = |i: int| weights_before(layers, i) as int;
    assert forall|i: int| 0 <= i < blocks.len() implies offset(i) <= #[trigger] offset(i + 1)
        <= values.len() by {
        lemma_weights_before_grows(layers, i + 1, layers.len() - 1);
    }
    assert forall|i: int| 0 <= i < blocks.len() implies #[trigger] blocks[i] == values.subrange(
        offset(i),
        offset(i + 1),
    ) by {
        lemma_weights_before_grows(layers, i + 1, layers.len() - 1);
        assert(layers[i + 1] * layers[i] == layers[i] * layers[i + 1]) by (nonlinear_arith);
        lemma_joined_shaped_matrix(values, offset(i), layers[i + 1] as nat, layers[i] as nat);
    }
    assert(offset(0) == 0);
    assert(cut_at(blocks, values, offset));
    lemma_cut_joined(blocks, values, offset);
    assert forall|i: int, j: int|
        0 <= i < links(layers) && 0 <= j < layers[i + 1] implies (#[trigger] weights[i][j]).len()
        == layers[i] by {
        let height = layers[i + 1] as nat;
        let width = layers[i] as nat;
        lemma_weights_before_grows(layers, i + 1, layers.len() - 1);
        assert(layers[i + 1] * layers[i] == layers[i] * layers[i + 1]) by (nonlinear_arith);
        lemma_row_bounds(j, height, width);
    }
}

} // verus!
