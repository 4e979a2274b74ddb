use athenna::activations::Activations;
use athenna::format::parse;
use athenna::format::render;
use athenna::format::Document;
use athenna::nn::Athenna;

fn show(values: &[f32]) -> Vec<Vec<u8>> {
    values.iter().map(|x| x.to_string().into_bytes()).collect()
}

fn read(tokens: &[Vec<u8>]) -> Vec<f32> {
    tokens.iter().map(|t| std::str::from_utf8(t).unwrap().parse::<f32>().unwrap()).collect()
}

fn store(nn: &Athenna<f32>) -> Vec<u8> {
    let doc = Document {
        layers: nn.layers.clone(),
        activations: nn.activations.clone(),
        weights: show(&nn.flat_weights()),
        biases: show(&nn.flat_biases()),
        learning_rate: Some(nn.learning_rate.to_string().into_bytes()),
    };
    render(&doc)
}

fn restore(text: &[u8]) -> Athenna<f32> {
    let doc = parse(text).unwrap();
    let rate = match &doc.learning_rate {
        Some(token) => read(&[token.clone()])[0],
        None => 0.01,
    };
    let mut nn = Athenna::new(doc.layers.clone(), doc.activations.clone(), 0.0, rate);
    nn.set_weights(&read(&doc.weights)).unwrap();
    nn.set_biases(&read(&doc.biases)).unwrap();
    nn
}

fn trained_looking_network() -> Athenna<f32> {
    let mut nn = Athenna::new(vec![3, 5, 3], vec![Activations::TanH, Activations::Linear], 0.0, 0.02);
    let mut weights = Vec::new();
    for i in 0..30 {
        weights.push((i as f32 - 14.5) / 97.0);
    }
    let mut biases = Vec::new();
    for i in 0..8 {
        biases.push(1.0 / (i as f32 + 3.0) - 0.2);
    }
    nn.set_weights(&weights).unwrap();
    nn.set_biases(&biases).unwrap();
    nn
}

#[test]
fn a_stored_network_comes_back_with_the_same_parameters() {
    let nn = trained_looking_network();
    let back = restore(&store(&nn));
    assert_eq!(back.layers, nn.layers);
    assert_eq!(back.activations, nn.activations);
    assert_eq!(back.learning_rate, nn.learning_rate);
    assert_eq!(back.weights, nn.weights);
    assert_eq!(back.biases, nn.biases);
    assert!(back.is_well_formed());
}

#[test]
fn a_stored_network_starts_with_a_cleared_cache() {
    let mut nn = trained_looking_network();
    nn.set_inputs(&vec![0.2, 0.8, 0.4]);
    nn.cost = 3.5;
    let back = restore(&store(&nn));
    assert_eq!(back.neurons, vec![vec![0.0; 3], vec![0.0; 5], vec![0.0; 3]]);
    assert_eq!(back.cost, 0.0);
}

#[test]
fn storing_twice_gives_the_same_text() {
    let nn = trained_looking_network();
    let text = store(&nn);
    assert_eq!(store(&restore(&text)), text);
}

#[test]
fn a_stored_network_lists_its_values_in_storage_order() {
    let mut nn = Athenna::new(vec![2, 2], vec![Activations::Sigmoid], 0.0, 0.5);
    nn.weights = vec![vec![vec![1.0, 2.0], vec![3.0, 4.5]]];
    nn.biases = vec![vec![-1.0, 0.25]];
    let text = String::from_utf8(store(&nn)).unwrap();
    assert_eq!(
        text,
        "[network.type]\nathenna.v2\n\n[dims]\n2\n2\n\n[layer.total]\n2\n\n[layer.neurons]\n2\n2\n\n[layer.activations]\nsigmoid\n\n[layer.weights]\n1\n2\n3\n4.5\n\n[layer.biases]\n-1\n0.25\n\n[network.learning_rate]\n0.5"
    );
}

#[test]
fn a_text_without_a_learning_rate_leaves_the_default() {
    let text = "[layer.neurons]\n1\n1\n\n[layer.activations]\nlinear\n\n[layer.weights]\n2\n\n[layer.biases]\n3\n";
    let nn = restore(text.as_bytes());
    assert_eq!(nn.learning_rate, 0.01);
    assert_eq!(nn.weights, vec![vec![vec![2.0]]]);
    assert_eq!(nn.biases, vec![vec![3.0]]);
}
