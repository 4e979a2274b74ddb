use athenna::activations::activation_from_bytes;
use athenna::activations::activation_name_bytes;
use athenna::activations::activation_to_string;
use athenna::activations::string_to_activation;
use athenna::activations::Activations;

fn all_kinds() -> Vec<Activations> {
    vec![
        Activations::Sigmoid,
        Activations::TanH,
        Activations::ReLU,
        Activations::LeakyRelu,
        Activations::SoftMax,
        Activations::Linear,
    ]
}

#[test]
fn names_are_lowercase_words() {
    assert_eq!(activation_to_string(&Activations::Sigmoid), "sigmoid");
    assert_eq!(activation_to_string(&Activations::TanH), "tanh");
    assert_eq!(activation_to_string(&Activations::ReLU), "relu");
    assert_eq!(activation_to_string(&Activations::LeakyRelu), "leakyrelu");
    assert_eq!(activation_to_string(&Activations::SoftMax), "softmax");
    assert_eq!(activation_to_string(&Activations::Linear), "linear");
}

#[test]
fn names_are_read_back() {
    assert_eq!(string_to_activation("sigmoid"), Activations::Sigmoid);
    assert_eq!(string_to_activation("tanh"), Activations::TanH);
    assert_eq!(string_to_activation("relu"), Activations::ReLU);
    assert_eq!(string_to_activation("leakyrelu"), Activations::LeakyRelu);
    assert_eq!(string_to_activation("softmax"), Activations::SoftMax);
    assert_eq!(string_to_activation("linear"), Activations::Linear);
}

#[test]
fn every_kind_survives_its_name() {
    for kind in all_kinds() {
        assert_eq!(string_to_activation(&activation_to_string(&kind)), kind);
        assert_eq!(activation_from_bytes(activation_name_bytes(&kind)), kind);
    }
}

#[test]
fn unknown_names_fall_back_to_leaky_relu() {
    assert_eq!(string_to_activation(""), Activations::LeakyRelu);
    assert_eq!(string_to_activation("Sigmoid"), Activations::LeakyRelu);
    assert_eq!(string_to_activation(" tanh"), Activations::LeakyRelu);
    assert_eq!(string_to_activation("tanh "), Activations::LeakyRelu);
    assert_eq!(string_to_activation("swish"), Activations::LeakyRelu);
    assert_eq!(string_to_activation("rel\u{fc}"), Activations::LeakyRelu);
    assert_eq!(activation_from_bytes(b"softma"), Activations::LeakyRelu);
    assert_eq!(activation_from_bytes(&[0xff, 0xfe]), Activations::LeakyRelu);
}

#[test]
fn name_bytes_match_the_names() {
    for kind in all_kinds() {
        assert_eq!(activation_name_bytes(&kind), activation_to_string(&kind).as_bytes());
    }
}
