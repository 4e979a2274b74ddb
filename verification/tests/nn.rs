use athenna::activations::Activations;
use athenna::format::LoadError;
use athenna::nn::filled;
use athenna::nn::Athenna;
use athenna::tensor::copy_range;
use athenna::tensor::extend;

fn sample() -> Athenna<i32> {
    Athenna::new(vec![3, 2, 1], vec![Activations::TanH, Activations::Linear], 0, 7)
}

#[test]
fn new_builds_tensors_of_the_right_shape() {
    let nn = sample();
    assert_eq!(nn.layers, vec![3, 2, 1]);
    assert_eq!(nn.activations, vec![Activations::TanH, Activations::Linear]);
    assert_eq!(nn.neurons, vec![vec![0, 0, 0], vec![0, 0], vec![0]]);
    assert_eq!(nn.weights, vec![vec![vec![0, 0, 0], vec![0, 0, 0]], vec![vec![0, 0]]]);
    assert_eq!(nn.biases, vec![vec![0, 0], vec![0]]);
    assert_eq!(nn.learning_rate, 7);
    assert_eq!(nn.cost, 0);
    assert!(nn.is_well_formed());
}

#[test]
fn new_of_the_usual_example_has_thirty_weights() {
    let nn: Athenna<f32> =
        Athenna::new(vec![3, 5, 3], vec![Activations::TanH, Activations::Linear], 0.0, 0.01);
    assert!(nn.is_well_formed());
    assert_eq!(nn.weights.len(), 2);
    assert_eq!(nn.weights[0].len(), 5);
    assert_eq!(nn.weights[0][4].len(), 3);
    assert_eq!(nn.weights[1].len(), 3);
    assert_eq!(nn.weights[1][2].len(), 5);
    assert_eq!(nn.flat_weights().len(), 30);
    assert_eq!(nn.flat_biases().len(), 8);
    assert_eq!(nn.learning_rate, 0.01);
    assert_eq!(nn.cost, 0.0);
}

#[test]
fn new_does_not_look_at_the_shape() {
    let nn: Athenna<u8> = Athenna::new(vec![4], vec![Activations::ReLU, Activations::ReLU], 1, 2);
    assert_eq!(nn.neurons, vec![vec![1, 1, 1, 1]]);
    assert!(nn.weights.is_empty());
    assert!(nn.biases.is_empty());
    assert!(!nn.is_well_formed());
    let empty: Athenna<u8> = Athenna::new(Vec::new(), Vec::new(), 1, 2);
    assert!(empty.neurons.is_empty());
    assert!(empty.weights.is_empty());
    assert!(empty.biases.is_empty());
    assert!(!empty.is_well_formed());
}

#[test]
fn init_functions_rebuild_one_tensor_each() {
    let mut nn = sample();
    nn.neurons = Vec::new();
    nn.weights = vec![vec![vec![5]]];
    nn.biases = vec![vec![1, 2, 3]];
    nn.init_neurons(9);
    assert_eq!(nn.neurons, vec![vec![9, 9, 9], vec![9, 9], vec![9]]);
    assert_eq!(nn.weights, vec![vec![vec![5]]]);
    assert_eq!(nn.biases, vec![vec![1, 2, 3]]);
    nn.init_biases(8);
    assert_eq!(nn.biases, vec![vec![8, 8], vec![8]]);
    assert_eq!(nn.weights, vec![vec![vec![5]]]);
    nn.init_weights(6);
    assert_eq!(nn.weights, vec![vec![vec![6, 6, 6], vec![6, 6, 6]], vec![vec![6, 6]]]);
    assert_eq!(nn.neurons, vec![vec![9, 9, 9], vec![9, 9], vec![9]]);
    assert!(nn.is_well_formed());
}

#[test]
fn set_weights_fills_matrix_by_matrix_and_row_by_row() {
    let mut nn = sample();
    assert_eq!(nn.set_weights(&vec![1, 2, 3, 4, 5, 6, 7, 8]), Ok(()));
    assert_eq!(nn.weights, vec![vec![vec![1, 2, 3], vec![4, 5, 6]], vec![vec![7, 8]]]);
    assert_eq!(nn.biases, vec![vec![0, 0], vec![0]]);
    assert_eq!(nn.flat_weights(), vec![1, 2, 3, 4, 5, 6, 7, 8]);
}

#[test]
fn set_biases_fills_vector_by_vector() {
    let mut nn = sample();
    assert_eq!(nn.set_biases(&vec![10, 20, 30]), Ok(()));
    assert_eq!(nn.biases, vec![vec![10, 20], vec![30]]);
    assert_eq!(nn.weights, vec![vec![vec![0, 0, 0], vec![0, 0, 0]], vec![vec![0, 0]]]);
    assert_eq!(nn.flat_biases(), vec![10, 20, 30]);
}

#[test]
fn set_weights_refuses_a_wrong_count() {
    let mut nn = sample();
    nn.set_weights(&vec![1, 2, 3, 4, 5, 6, 7, 8]).unwrap();
    assert_eq!(nn.set_weights(&vec![1, 2, 3, 4, 5, 6, 7]), Err(LoadError::CountMismatch));
    assert_eq!(nn.set_weights(&vec![1, 2, 3, 4, 5, 6, 7, 8, 9]), Err(LoadError::CountMismatch));
    assert_eq!(nn.set_weights(&Vec::new()), Err(LoadError::CountMismatch));
    assert_eq!(nn.weights, vec![vec![vec![1, 2, 3], vec![4, 5, 6]], vec![vec![7, 8]]]);
}

#[test]
fn set_biases_refuses_a_wrong_count() {
    let mut nn = sample();
    nn.set_biases(&vec![1, 2, 3]).unwrap();
    assert_eq!(nn.set_biases(&vec![1, 2]), Err(LoadError::CountMismatch));
    assert_eq!(nn.set_biases(&vec![1, 2, 3, 4]), Err(LoadError::CountMismatch));
    assert_eq!(nn.biases, vec![vec![1, 2], vec![3]]);
}

#[test]
fn setters_follow_the_layers_not_the_old_tensors() {
    let mut nn = sample();
    nn.weights = Vec::new();
    nn.biases = vec![vec![1]];
    assert_eq!(nn.set_weights(&vec![1, 2, 3, 4, 5, 6, 7, 8]), Ok(()));
    assert_eq!(nn.set_biases(&vec![1, 2, 3]), Ok(()));
    assert!(nn.is_well_formed());
}

#[test]
fn flat_values_put_back_give_the_same_tensors() {
    let mut nn = sample();
    nn.set_weights(&vec![8, 7, 6, 5, 4, 3, 2, 1]).unwrap();
    nn.set_biases(&vec![3, 1, 2]).unwrap();
    let weights = nn.weights.clone();
    let biases = nn.biases.clone();
    let flat_w = nn.flat_weights();
    let flat_b = nn.flat_biases();
    nn.init_weights(0);
    nn.init_biases(0);
    nn.set_weights(&flat_w).unwrap();
    nn.set_biases(&flat_b).unwrap();
    assert_eq!(nn.weights, weights);
    assert_eq!(nn.biases, biases);
}

#[test]
fn flat_values_of_ragged_tensors_keep_their_order() {
    let mut nn = sample();
    nn.weights = vec![vec![vec![1], vec![], vec![2, 3]], vec![], vec![vec![4]]];
    nn.biases = vec![vec![], vec![5, 6], vec![7]];
    assert_eq!(nn.flat_weights(), vec![1, 2, 3, 4]);
    assert_eq!(nn.flat_biases(), vec![5, 6, 7]);
}

#[test]
fn outputs_are_as_wide_as_the_last_layer() {
    let mut nn: Athenna<f32> =
        Athenna::new(vec![3, 5, 4], vec![Activations::TanH, Activations::SoftMax], 0.0, 0.01);
    nn.set_inputs(&vec![0.2, 0.8, 0.4]);
    let out = nn.outputs();
    assert_eq!(out.len(), 4);
    assert_eq!(out.len(), nn.layers[nn.layers.len() - 1]);
    assert_eq!(out, vec![0.0; 4]);
}

#[test]
fn outputs_copy_the_last_layer_of_neurons() {
    let mut nn = sample();
    nn.neurons[2][0] = 42;
    assert_eq!(nn.outputs(), vec![42]);
}

#[test]
fn set_inputs_writes_the_first_layer_only() {
    let mut nn = sample();
    nn.neurons[1][1] = 5;
    nn.set_inputs(&vec![1, 2, 3]);
    assert_eq!(nn.neurons, vec![vec![1, 2, 3], vec![0, 5], vec![0]]);
    assert_eq!(nn.weights, vec![vec![vec![0, 0, 0], vec![0, 0, 0]], vec![vec![0, 0]]]);
    assert_eq!(nn.biases, vec![vec![0, 0], vec![0]]);
    assert!(nn.is_well_formed());
}

#[test]
fn is_well_formed_sees_every_kind_of_damage() {
    assert!(sample().is_well_formed());
    let mut nn = sample();
    nn.activations.pop();
    assert!(!nn.is_well_formed());
    let mut nn = sample();
    nn.neurons[1].push(0);
    assert!(!nn.is_well_formed());
    let mut nn = sample();
    nn.neurons.pop();
    assert!(!nn.is_well_formed());
    let mut nn = sample();
    nn.biases[1].pop();
    assert!(!nn.is_well_formed());
    let mut nn = sample();
    nn.biases.push(Vec::new());
    assert!(!nn.is_well_formed());
    let mut nn = sample();
    nn.weights[0].pop();
    assert!(!nn.is_well_formed());
    let mut nn = sample();
    nn.weights[1][0].push(0);
    assert!(!nn.is_well_formed());
    let mut nn = sample();
    nn.weights.pop();
    assert!(!nn.is_well_formed());
    let mut nn = sample();
    nn.layers[0] = 4;
    assert!(!nn.is_well_formed());
}

#[test]
fn helpers_copy_and_fill() {
    assert_eq!(filled(3, 'x'), vec!['x', 'x', 'x']);
    assert_eq!(filled(0, 1u8), Vec::<u8>::new());
    let values = vec![1, 2, 3, 4, 5];
    assert_eq!(copy_range(&values, 1, 4), vec![2, 3, 4]);
    assert_eq!(copy_range(&values, 5, 5), Vec::<i32>::new());
    let mut out = vec![9];
    extend(&mut out, &values);
    assert_eq!(out, vec![9, 1, 2, 3, 4, 5]);
}
