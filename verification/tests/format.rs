use athenna::activations::Activations;
use athenna::format::all_proper_tokens;
use athenna::format::is_proper_token;
use athenna::format::parse;
use athenna::format::render;
use athenna::format::section_label;
use athenna::format::section_of;
use athenna::format::Document;
use athenna::format::LoadError;
use athenna::format::Reader;
use athenna::format::Section;

fn tokens(words: &[&str]) -> Vec<Vec<u8>> {
    words.iter().map(|w| w.as_bytes().to_vec()).collect()
}

fn small_document() -> Document {
    Document {
        layers: vec![2, 1],
        activations: vec![Activations::Sigmoid],
        weights: tokens(&["0.5", "-1"]),
        biases: tokens(&["0.25"]),
        learning_rate: Some(b"0.01".to_vec()),
    }
}

const SMALL_TEXT: &str = "[network.type]\nathenna.v2\n\n[dims]\n2\n1\n\n[layer.total]\n2\n\n[layer.neurons]\n2\n1\n\n[layer.activations]\nsigmoid\n\n[layer.weights]\n0.5\n-1\n\n[layer.biases]\n0.25\n\n[network.learning_rate]\n0.01";

fn same(a: &Document, b: &Document) -> bool {
    a.layers == b.layers
        && a.activations == b.activations
        && a.weights == b.weights
        && a.biases == b.biases
        && a.learning_rate == b.learning_rate
}

#[test]
fn render_writes_the_sections_in_order() {
    let text = render(&small_document());
    assert_eq!(String::from_utf8(text).unwrap(), SMALL_TEXT);
}

#[test]
fn render_of_three_layers() {
    let doc = Document {
        layers: vec![3, 5, 3],
        activations: vec![Activations::TanH, Activations::Linear],
        weights: tokens(&["1"; 30]),
        biases: tokens(&["2"; 8]),
        learning_rate: Some(b"0.02".to_vec()),
    };
    let text = String::from_utf8(render(&doc)).unwrap();
    assert!(text.starts_with(
        "[network.type]\nathenna.v2\n\n[dims]\n3\n3\n\n[layer.total]\n3\n\n[layer.neurons]\n3\n5\n3\n\n[layer.activations]\ntanh\nlinear\n\n[layer.weights]\n1\n"
    ));
    assert!(text.ends_with("\n\n[layer.biases]\n2\n2\n2\n2\n2\n2\n2\n2\n\n[network.learning_rate]\n0.02"));
    assert_eq!(text.lines().count(), 11 + 3 + 2 + 2 + 2 + 30 + 2 + 8 + 3);
}

#[test]
fn render_without_a_learning_rate_ends_with_the_biases() {
    let mut doc = small_document();
    doc.learning_rate = None;
    let text = String::from_utf8(render(&doc)).unwrap();
    assert!(text.ends_with("\n\n[layer.biases]\n0.25"));
    assert!(!text.contains("learning_rate"));
}

#[test]
fn parse_reads_what_render_wrote() {
    let doc = small_document();
    let back = parse(&render(&doc)).unwrap();
    assert!(same(&doc, &back));
}

#[test]
fn parse_reads_the_sections() {
    let doc = parse(SMALL_TEXT.as_bytes()).unwrap();
    assert_eq!(doc.layers, vec![2, 1]);
    assert_eq!(doc.activations, vec![Activations::Sigmoid]);
    assert_eq!(doc.weights, tokens(&["0.5", "-1"]));
    assert_eq!(doc.biases, tokens(&["0.25"]));
    assert_eq!(doc.learning_rate, Some(b"0.01".to_vec()));
}

#[test]
fn parse_round_trips_without_a_learning_rate() {
    let mut doc = small_document();
    doc.learning_rate = None;
    let back = parse(&render(&doc)).unwrap();
    assert!(same(&doc, &back));
    assert_eq!(back.learning_rate, None);
}

#[test]
fn parse_round_trips_a_network_with_an_empty_layer() {
    let doc = Document {
        layers: vec![2, 0, 3],
        activations: vec![Activations::ReLU, Activations::SoftMax],
        weights: Vec::new(),
        biases: tokens(&["1", "2", "3"]),
        learning_rate: Some(b"1".to_vec()),
    };
    let back = parse(&render(&doc)).unwrap();
    assert!(same(&doc, &back));
}

#[test]
fn parse_accepts_carriage_returns_and_a_final_line_feed() {
    let text = SMALL_TEXT.replace('\n', "\r\n") + "\r\n";
    let doc = parse(text.as_bytes()).unwrap();
    assert!(same(&doc, &small_document()));
}

#[test]
fn parse_takes_an_unknown_activation_for_leaky_relu() {
    let text = SMALL_TEXT.replace("sigmoid", "swish");
    let doc = parse(text.as_bytes()).unwrap();
    assert_eq!(doc.activations, vec![Activations::LeakyRelu]);
}

#[test]
fn parse_ignores_the_redundant_sections() {
    let text = SMALL_TEXT
        .replace("athenna.v2", "something else")
        .replace("[dims]\n2\n1", "[dims]\nseven\n")
        .replace("[layer.total]\n2", "[layer.total]\n99");
    let doc = parse(text.as_bytes()).unwrap();
    assert!(same(&doc, &small_document()));
}

#[test]
fn parse_fails_on_a_bad_layer_width() {
    let text = SMALL_TEXT.replace("[layer.neurons]\n2\n1", "[layer.neurons]\n2\none");
    assert_eq!(parse(text.as_bytes()).err(), Some(LoadError::BadNumber));
    let negative = SMALL_TEXT.replace("[layer.neurons]\n2\n1", "[layer.neurons]\n2\n-1");
    assert_eq!(parse(negative.as_bytes()).err(), Some(LoadError::BadNumber));
    let spaced = SMALL_TEXT.replace("[layer.neurons]\n2\n1", "[layer.neurons]\n2\n 1");
    assert_eq!(parse(spaced.as_bytes()).err(), Some(LoadError::BadNumber));
}

#[test]
fn parse_fails_without_a_network() {
    assert_eq!(parse(b"").err(), Some(LoadError::NoNetwork));
    assert_eq!(parse(b"[network.type]\nathenna.v2\n").err(), Some(LoadError::NoNetwork));
    let no_blank = "[layer.neurons]\n2\n1\n[layer.activations]\nsigmoid\n[layer.weights]\n1\n2\n[layer.biases]\n3";
    assert_eq!(parse(no_blank.as_bytes()).err(), Some(LoadError::NoNetwork));
    let one_layer = "[layer.neurons]\n2\n\n[layer.activations]\n\n[layer.weights]\n";
    assert_eq!(parse(one_layer.as_bytes()).err(), Some(LoadError::NoNetwork));
}

#[test]
fn parse_fails_on_a_wrong_number_of_values() {
    let short = SMALL_TEXT.replace("0.5\n-1", "0.5");
    assert_eq!(parse(short.as_bytes()).err(), Some(LoadError::CountMismatch));
    let long = SMALL_TEXT.replace("0.5\n-1", "0.5\n-1\n3");
    assert_eq!(parse(long.as_bytes()).err(), Some(LoadError::CountMismatch));
    let no_bias = SMALL_TEXT.replace("[layer.biases]\n0.25", "[layer.biases]");
    assert_eq!(parse(no_bias.as_bytes()).err(), Some(LoadError::CountMismatch));
    let more_bias = SMALL_TEXT.replace("[layer.biases]\n0.25", "[layer.biases]\n0.25\n0.5");
    assert_eq!(parse(more_bias.as_bytes()).err(), Some(LoadError::CountMismatch));
}

#[test]
fn parse_fixes_the_network_at_the_empty_line() {
    let text = "[layer.neurons]\n2\n1\n[layer.activations]\nsigmoid\n\nstray\n[layer.neurons]\n4\n[layer.weights]\na\nb\n\n[layer.biases]\nc";
    let doc = parse(text.as_bytes()).unwrap();
    assert_eq!(doc.layers, vec![2, 1]);
    assert_eq!(doc.activations, vec![Activations::Sigmoid]);
    assert_eq!(doc.weights, tokens(&["a", "b"]));
    assert_eq!(doc.biases, tokens(&["c"]));
}

#[test]
fn parse_forgets_a_learning_rate_given_before_the_network() {
    let text = "[network.learning_rate]\n0.5\n[layer.neurons]\n1\n1\n[layer.activations]\nrelu\n\n[layer.weights]\n1\n[layer.biases]\n2";
    let doc = parse(text.as_bytes()).unwrap();
    assert_eq!(doc.learning_rate, None);
    let later = "[layer.neurons]\n1\n1\n[layer.activations]\nrelu\n\n[network.learning_rate]\n0.5\n0.75\n[layer.weights]\n1\n[layer.biases]\n2";
    let doc = parse(later.as_bytes()).unwrap();
    assert_eq!(doc.learning_rate, Some(b"0.75".to_vec()));
}

#[test]
fn labels_open_their_sections() {
    let all = vec![
        (Section::NetworkType, "[network.type]"),
        (Section::Dims, "[dims]"),
        (Section::LayerTotal, "[layer.total]"),
        (Section::Neurons, "[layer.neurons]"),
        (Section::Activations, "[layer.activations]"),
        (Section::Weights, "[layer.weights]"),
        (Section::Biases, "[layer.biases]"),
        (Section::LearningRate, "[network.learning_rate]"),
    ];
    for (section, label) in all {
        assert_eq!(section_label(section), label.as_bytes());
        assert_eq!(section_of(label.as_bytes()), Some(section));
    }
    assert_eq!(section_of(b""), None);
    assert_eq!(section_of(b"[dims"), None);
    assert_eq!(section_of(b"[dims] "), None);
    assert_eq!(section_of(b"[Dims]"), None);
    assert_eq!(section_of(b"dims"), None);
}

#[test]
fn reader_takes_lines_one_by_one() {
    let mut reader = Reader::new();
    assert_eq!(reader.section, None);
    for line in ["[layer.neurons]", "3", "2"] {
        assert_eq!(reader.feed(line.as_bytes()), Ok(()));
    }
    assert_eq!(reader.section, Some(Section::Neurons));
    assert_eq!(reader.layers, vec![3, 2]);
    assert_eq!(reader.feed(b""), Ok(()));
    assert_eq!(reader.section, Some(Section::Neurons));
    assert!(reader.network.is_none());
    for line in ["[layer.activations]", "tanh", ""] {
        assert_eq!(reader.feed(line.as_bytes()), Ok(()));
    }
    assert_eq!(reader.section, None);
    assert_eq!(reader.network, Some((vec![3, 2], vec![Activations::TanH])));
    assert_eq!(reader.feed(b"passed over"), Ok(()));
    assert!(reader.weights.is_empty());
    assert_eq!(reader.finish().err(), Some(LoadError::CountMismatch));
}

#[test]
fn reader_is_unchanged_by_a_line_that_fails() {
    let mut reader = Reader::new();
    assert_eq!(reader.feed(b"[layer.neurons]"), Ok(()));
    assert_eq!(reader.feed(b"4"), Ok(()));
    assert_eq!(reader.feed(b"four"), Err(LoadError::BadNumber));
    assert_eq!(reader.layers, vec![4]);
    assert_eq!(reader.section, Some(Section::Neurons));
}

#[test]
fn proper_tokens_are_plain_and_no_labels() {
    assert!(is_proper_token(b"0.5"));
    assert!(is_proper_token(b"-1e-3"));
    assert!(is_proper_token(b"NaN"));
    assert!(is_proper_token(b"[dims"));
    assert!(is_proper_token(b"two words"));
    assert!(!is_proper_token(b""));
    assert!(!is_proper_token(b"1\n2"));
    assert!(!is_proper_token(b"1\r"));
    assert!(!is_proper_token(b"[dims]"));
    assert!(!is_proper_token(b"[layer.weights]"));
    assert!(is_proper_token(b"\r1"));
}

#[test]
fn all_proper_tokens_needs_every_token_proper() {
    assert!(all_proper_tokens(&Vec::new()));
    assert!(all_proper_tokens(&tokens(&["1", "2", "inf"])));
    assert!(!all_proper_tokens(&tokens(&["1", "", "3"])));
    assert!(!all_proper_tokens(&tokens(&["1", "2", "[layer.biases]"])));
}

#[test]
fn well_formed_documents_read_back() {
    let doc = small_document();
    assert!(doc.is_well_formed());
    assert!(same(&doc, &parse(&render(&doc)).unwrap()));
}

#[test]
fn documents_that_are_not_well_formed() {
    let mut doc = small_document();
    doc.weights.pop();
    assert!(!doc.is_well_formed());
    let mut doc = small_document();
    doc.biases.push(b"1".to_vec());
    assert!(!doc.is_well_formed());
    let mut doc = small_document();
    doc.activations.push(Activations::ReLU);
    assert!(!doc.is_well_formed());
    let mut doc = small_document();
    doc.layers = vec![2];
    doc.activations = Vec::new();
    doc.weights = Vec::new();
    doc.biases = Vec::new();
    assert!(!doc.is_well_formed());
    let mut doc = small_document();
    doc.weights[1] = b"[layer.biases]".to_vec();
    assert!(!doc.is_well_formed());
    let mut doc = small_document();
    doc.biases[0] = b"".to_vec();
    assert!(!doc.is_well_formed());
    let mut doc = small_document();
    doc.learning_rate = Some(b"0.1\n0.2".to_vec());
    assert!(!doc.is_well_formed());
    let mut doc = small_document();
    doc.learning_rate = None;
    assert!(doc.is_well_formed());
}

#[test]
fn a_label_among_the_weights_does_not_read_back() {
    let mut doc = small_document();
    doc.weights[1] = b"[layer.biases]".to_vec();
    assert!(!doc.is_well_formed());
    assert_eq!(parse(&render(&doc)).err(), Some(LoadError::CountMismatch));
}

#[test]
fn what_parse_returns_is_shaped() {
    let doc = parse(SMALL_TEXT.as_bytes()).unwrap();
    assert!(doc.is_well_formed());
    let returned = SMALL_TEXT.replace("0.25", "0.25\r\r");
    let doc = parse(returned.as_bytes()).unwrap();
    assert_eq!(doc.layers.len(), doc.activations.len() + 1);
    assert_eq!(doc.weights.len(), 2);
    assert_eq!(doc.biases, tokens(&["0.25\r"]));
    assert!(!doc.is_well_formed());
}
