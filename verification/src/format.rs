//! The text format of a stored network: sections of lines, each section
//! introduced by a bracketed label and closed by an empty line.
//!
//! Scalars are carried as the text that stands in the file, one token per
//! line; turning a token into a number is left to the caller.

use crate::activations::activation_from_bytes;
use crate::activations::activation_name_bytes;
use crate::activations::Activations;
use crate::shape::bias_count;
use crate::shape::count_biases;
use crate::shape::count_weights;
use crate::shape::valid_shape;
use crate::shape::weight_count;
use crate::text::append_lines;
use crate::text::ascii;
use crate::text::bytes_eq;
use crate::text::bytes_of;
use crate::text::decimal;
use crate::text::is_plain_line;
use crate::text::join_lines;
use crate::text::lemma_append_append;
use crate::text::lemma_ascii_encoding;
use crate::text::lemma_join_append;
use crate::text::line_at;
use crate::text::line_end;
use crate::text::lines_of;
use crate::text::parse_size;
use crate::text::parse_usize;
use crate::text::plain_line;
use crate::text::push_bytes;
use crate::text::push_line;
use crate::text::push_number_line;
use vstd::prelude::*;
use vstd::slice::slice_to_vec;

verus! {

/// The sections of a stored network.
#[derive(Copy, Clone, Debug, PartialEq, Eq, Structural)]
pub enum Section {
    NetworkType,
    Dims,
    LayerTotal,
    Neurons,
    Activations,
    Weights,
    Biases,
    LearningRate,
}

impl Section {
    /// The label line that opens a section.
    pub open spec fn label(self) -> Seq<char> {
        match self {
            Section::NetworkType => "[network.type]"@,
            Section::Dims => "[dims]"@,
            Section::LayerTotal => "[layer.total]"@,
            Section::Neurons => "[layer.neurons]"@,
            Section::Activations => "[layer.activations]"@,
            Section::Weights => "[layer.weights]"@,
            Section::Biases => "[layer.biases]"@,
            Section::LearningRate => "[network.learning_rate]"@,
        }
    }

    /// The bytes of a section's label.
    pub open spec fn label_bytes(self) -> Seq<u8> {
        ascii(self.label())
    }

    /// The section that a line opens, if the line is a label.
    pub open spec fn of_label(line: Seq<u8>) -> Option<Section> {
        if line == Section::NetworkType.label_bytes() {
            Some(Section::NetworkType)
        } else if line == Section::Dims.label_bytes() {
            Some(Section::Dims)
        } else if line == Section::LayerTotal.label_bytes() {
            Some(Section::LayerTotal)
        } else if line == Section::Neurons.label_bytes() {
            Some(Section::Neurons)
        } else if line == Section::Activations.label_bytes() {
            Some(Section::Activations)
        } else if line == Section::Weights.label_bytes() {
            Some(Section::Weights)
        } else if line == Section::Biases.label_bytes() {
            Some(Section::Biases)
        } else if line == Section::LearningRate.label_bytes() {
            Some(Section::LearningRate)
        } else {
            None
        }
    }
}

/// Why a text is not a stored network.
#[derive(Copy, Clone, Debug, PartialEq, Eq, Structural)]
pub enum LoadError {
    /// A line of the neurons section is not a layer width.
    BadNumber,
    /// The text never completes a list of layers and activations.
    NoNetwork,
    /// The number of weight or bias lines is not the number that the layers
    /// call for.
    CountMismatch,
}

/// What a stored network holds.
pub struct Document {
    pub layers: Vec<usize>,
    pub activations: Vec<Activations>,
    /// One token per weight: layer by layer, row by row.
    pub weights: Vec<Vec<u8>>,
    /// One token per bias: layer by layer.
    pub biases: Vec<Vec<u8>>,
    /// The learning rate's token, where the text gives one.
    pub learning_rate: Option<Vec<u8>>,
}

pub struct DocumentView {
    pub layers: Seq<usize>,
    pub activations: Seq<Activations>,
    pub weights: Seq<Seq<u8>>,
    pub biases: Seq<Seq<u8>>,
    pub learning_rate: Option<Seq<u8>>,
}

impl DocumentView {
    /// A token that reads back as itself from a line of its own: it is not
    /// empty, holds no line feed, does not end in a carriage return and is
    /// no label.
    pub open spec fn proper_token(token: Seq<u8>) -> bool {
        token.len() > 0 && plain_line(token) && Section::of_label(token) is None
    }

    pub open spec fn all_proper(tokens: Seq<Seq<u8>>) -> bool {
        forall|i: int| 0 <= i < tokens.len() ==> Self::proper_token(#[trigger] tokens[i])
    }

    /// The layers and activations have a valid shape, and there is one
    /// token for every weight and bias.
    pub open spec fn shaped(self) -> bool {
        &&& valid_shape(self.layers, self.activations.len())
        &&& self.weights.len() == weight_count(self.layers)
        &&& self.biases.len() == bias_count(self.layers)
    }

    /// A document that reads back as itself once written: it is shaped,
    /// and every token is proper.
    pub open spec fn well_formed(self) -> bool {
        &&& self.shaped()
        &&& Self::all_proper(self.weights)
        &&& Self::all_proper(self.biases)
        &&& match self.learning_rate {
            Some(token) => Self::proper_token(token),
            None => true,
        }
    }
}

/// The contents of a list of tokens.
pub open spec fn texts(tokens: Seq<Vec<u8>>) -> Seq<Seq<u8>> {
    tokens.map_values(|t: Vec<u8>| t@)
}

/// The contents of a token that may be absent.
pub open spec fn text_of(token: Option<Vec<u8>>) -> Option<Seq<u8>> {
    match token {
        Some(t) => Some(t@),
        None => None,
    }
}

impl View for Document {
    type V = DocumentView;

    open spec fn view(&self) -> DocumentView {
        DocumentView {
            layers: self.layers@,
            activations: self.activations@,
            weights: texts(self.weights@),
            biases: texts(self.biases@),
            learning_rate: text_of(self.learning_rate),
        }
    }
}

/// Whether a token is not empty, is a plain line and is no label.
pub fn is_proper_token(token: &[u8]) -> (r: bool)
    ensures
        r == DocumentView::proper_token(token@),
{
    token.len() > 0 && is_plain_line(token) && section_of(token).is_none()
}

/// Whether every token of a list is proper.
pub fn all_proper_tokens(tokens: &Vec<Vec<u8>>) -> (r: bool)
    ensures
        r == DocumentView::all_proper(texts(tokens@)),
{
    let mut i: usize = 0;
    while i < tokens.len()
        invariant
            i <= tokens.len(),
            forall|k: int| 0 <= k < i ==> DocumentView::proper_token(#[trigger] texts(tokens@)[k]),
        decreases tokens.len() - i,
    {
        if !is_proper_token(tokens[i].as_slice()) {
            assert(!DocumentView::proper_token(texts(tokens@)[i as int]));
            return false;
        }
        i += 1;
    }
    true
}

impl Document {
    /// Whether the document stores a network and reads back as itself
    /// once written.
    pub fn is_well_formed(&self) -> (r: bool)
        ensures
            r == self@.well_formed(),
    {
        let n: usize = self.layers.len();
        if n < 2 || self.activations.len() != n - 1 {
            return false;
        }
        let weights: usize = self.weights.len();
        let biases: usize = self.biases.len();
        let weights_fit: bool = match count_weights(self.layers.as_slice()) {
            Some(count) => weights == count,
            None => false,
        };
        let biases_fit: bool = match count_biases(self.layers.as_slice()) {
            Some(count) => biases == count,
            None => false,
        };
        if !weights_fit || !biases_fit {
            return false;
        }
        let rate_fits: bool = match &self.learning_rate {
            Some(token) => is_proper_token(token.as_slice()),
            None => true,
        };
        rate_fits && all_proper_tokens(&self.weights) && all_proper_tokens(&self.biases)
    }
}

/// What a reader has gathered from the lines it was fed.
pub struct ReaderState {
    /// The section that the last label opened; `None` before the first
    /// label and after a network was fixed.
    pub section: Option<Section>,
    pub layers: Seq<usize>,
    pub activations: Seq<Activations>,
    pub weights: Seq<Seq<u8>>,
    pub biases: Seq<Seq<u8>>,
    pub learning_rate: Option<Seq<u8>>,
    /// The layers and activations of the network, once an empty line has
    /// fixed them.
    pub network: Option<(Seq<usize>, Seq<Activations>)>,
}

impl ReaderState {
    pub open spec fn start() -> ReaderState {
        ReaderState {
            section: None,
            layers: Seq::empty(),
            activations: Seq::empty(),
            weights: Seq::empty(),
            biases: Seq::empty(),
            learning_rate: None,
            network: None,
        }
    }

    /// An empty line fixes the network where it closes the neurons or the
    /// activations section and there is one activation for every layer but
    /// the first.
    pub open spec fn completes_network(self) -> bool {
        &&& self.section == Some(Section::Neurons) || self.section == Some(Section::Activations)
        &&& self.activations.len() == self.layers.len() - 1
        &&& self.activations.len() > 0
    }

    /// The network, once fixed, has a valid shape.
    pub open spec fn network_shaped(self) -> bool {
        match self.network {
            Some((layers, activations)) => valid_shape(layers, activations.len()),
            None => true,
        }
    }

    /// The state after one more line. A label opens its section. An empty
    /// line that completes the network fixes it, with the learning rate back
    /// at its default, and leaves the section. Any other line belongs to the
    /// open section: a layer width, an activation name, a weight, a bias or
    /// the learning rate; elsewhere it is passed over.
    pub open spec fn step(self, line: Seq<u8>) -> Result<ReaderState, LoadError> {
        match Section::of_label(line) {
            Some(section) => Ok(ReaderState { section: Some(section), ..self }),
            None => if line.len() == 0 {
                if self.completes_network() {
                    Ok(
                        ReaderState {
                            section: None,
                            learning_rate: None,
                            network: Some((self.layers, self.activations)),
                            ..self
                        },
                    )
                } else {
                    Ok(self)
                }
            } else {
                match self.section {
                    Some(Section::Neurons) => match parse_size(line) {
                        Some(width) => Ok(
                            ReaderState { layers: self.layers.push(width), ..self },
                        ),
                        None => Err(LoadError::BadNumber),
                    },
                    Some(Section::Activations) => Ok(
                        ReaderState {
                            activations: self.activations.push(Activations::named_bytes(line)),
                            ..self
                        },
                    ),
                    Some(Section::Weights) => Ok(
                        ReaderState { weights: self.weights.push(line), ..self },
                    ),
                    Some(Section::Biases) => Ok(
                        ReaderState { biases: self.biases.push(line), ..self },
                    ),
                    Some(Section::LearningRate) => Ok(
                        ReaderState { learning_rate: Some(line), ..self },
                    ),
                    _ => Ok(self),
                }
            },
        }
    }

    /// The document that the lines read so far make up: the network that
    /// was fixed, with every weight and bias line read, provided there are
    /// as many of each as the layers call for.
    pub open spec fn finish(self) -> Result<DocumentView, LoadError> {
        match self.network {
            None => Err(LoadError::NoNetwork),
            Some((layers, activations)) => if self.biases.len() != bias_count(layers)
                || self.weights.len() != weight_count(layers) {
                Err(LoadError::CountMismatch)
            } else {
                Ok(
                    DocumentView {
                        layers,
                        activations,
                        weights: self.weights,
                        biases: self.biases,
                        learning_rate: self.learning_rate,
                    },
                )
            },
        }
    }
}

/// The state after a run of lines; the first line that fails ends the run.
pub open spec fn read_lines(state: Result<ReaderState, LoadError>, lines: Seq<Seq<u8>>) -> Result<
    ReaderState,
    LoadError,
>
    decreases lines.len(),
{
    match state {
        Err(e) => Err(e),
        Ok(s) => if lines.len() == 0 {
            Ok(s)
        } else {
            read_lines(s.step(lines.first()), lines.drop_first())
        },
    }
}

/// The document that a text stores.
pub open spec fn parsed(text: Seq<u8>) -> Result<DocumentView, LoadError> {
    match read_lines(Ok(ReaderState::start()), lines_of(text)) {
        Err(e) => Err(e),
        Ok(s) => s.finish(),
    }
}

/// A network that was fixed with a valid shape keeps one through every
/// further line.
pub proof fn lemma_read_lines_shaped(state: Result<ReaderState, LoadError>, lines: Seq<Seq<u8>>)
    requires
        state matches Ok(s) ==> s.network_shaped(),
    ensures
        read_lines(state, lines) matches Ok(s) ==> s.network_shaped(),
    decreases lines.len(),
{
    match state {
        Err(e) => {},
        Ok(s) => {
            if lines.len() > 0 {
                lemma_read_lines_shaped(s.step(lines.first()), lines.drop_first());
            }
        },
    }
}

/// Every document that is read from a text is shaped: it has two layers or
/// more, one activation for each layer but the first, and one token for
/// every weight and bias.
pub proof fn lemma_parsed_shaped(text: Seq<u8>)
    ensures
        parsed(text) matches Ok(d) ==> d.shaped(),
{
    lemma_read_lines_shaped(Ok(ReaderState::start()), lines_of(text));
}

/// The label that opens a section.
pub fn section_label(section: Section) -> (r: &'static [u8])
    ensures
        r@ == section.label_bytes(),
{
    proof {
        reveal_strlit("[network.type]");
        reveal_strlit("[dims]");
        reveal_strlit("[layer.total]");
        reveal_strlit("[layer.neurons]");
        reveal_strlit("[layer.activations]");
        reveal_strlit("[layer.weights]");
        reveal_strlit("[layer.biases]");
        reveal_strlit("[network.learning_rate]");
        lemma_ascii_encoding(section.label());
    }
    match section {
        Section::NetworkType => bytes_of("[network.type]"),
        Section::Dims => bytes_of("[dims]"),
        Section::LayerTotal => bytes_of("[layer.total]"),
        Section::Neurons => bytes_of("[layer.neurons]"),
        Section::Activations => bytes_of("[layer.activations]"),
        Section::Weights => bytes_of("[layer.weights]"),
        Section::Biases => bytes_of("[layer.biases]"),
        Section::LearningRate => bytes_of("[network.learning_rate]"),
    }
}

/// The section that a line opens, if the line is a label.
pub fn section_of(line: &[u8]) -> (r: Option<Section>)
    ensures
        r == Section::of_label(line@),
{
    if bytes_eq(line, section_label(Section::NetworkType)) {
        Some(Section::NetworkType)
    } else if bytes_eq(line, section_label(Section::Dims)) {
        Some(Section::Dims)
    } else if bytes_eq(line, section_label(Section::LayerTotal)) {
        Some(Section::LayerTotal)
    } else if bytes_eq(line, section_label(Section::Neurons)) {
        Some(Section::Neurons)
    } else if bytes_eq(line, section_label(Section::Activations)) {
        Some(Section::Activations)
    } else if bytes_eq(line, section_label(Section::Weights)) {
        Some(Section::Weights)
    } else if bytes_eq(line, section_label(Section::Biases)) {
        Some(Section::Biases)
    } else if bytes_eq(line, section_label(Section::LearningRate)) {
        Some(Section::LearningRate)
    } else {
        None
    }
}

/// Reads a stored network line by line.
pub struct Reader {
    pub section: Option<Section>,
    pub layers: Vec<usize>,
    pub activations: Vec<Activations>,
    pub weights: Vec<Vec<u8>>,
    pub biases: Vec<Vec<u8>>,
    pub learning_rate: Option<Vec<u8>>,
    pub network: Option<(Vec<usize>, Vec<Activations>)>,
}

impl View for Reader {
    type V = ReaderState;

    open spec fn view(&self) -> ReaderState {
        ReaderState {
            section: self.section,
            layers: self.layers@,
            activations: self.activations@,
            weights: texts(self.weights@),
            biases: texts(self.biases@),
            learning_rate: text_of(self.learning_rate),
            network: match self.network {
                Some((layers, activations)) => Some((layers@, activations@)),
                None => None,
            },
        }
    }
}

impl Reader {
    /// A reader that has seen no line.
    pub fn new() -> (r: Reader)
        ensures
            r@ == ReaderState::start(),
    {
        let r = Reader {
            section: None,
            layers: Vec::new(),
            activations: Vec::new(),
            weights: Vec::new(),
            biases: Vec::new(),
            learning_rate: None,
            network: None,
        };
        assert(texts(r.weights@) =~= Seq::<Seq<u8>>::empty());
        assert(texts(r.biases@) =~= Seq::<Seq<u8>>::empty());
        r
    }

    /// Whether an empty line would fix the network now.
    fn completes_network(&self) -> (r: bool)
        ensures
            r == self@.completes_network(),
    {
        let in_lists: bool = match self.section {
            Some(Section::Neurons) => true,
            Some(Section::Activations) => true,
            _ => false,
        };
        in_lists && self.activations.len() > 0 && self.layers.len() > 0 && self.activations.len()
            == self.layers.len() - 1
    }

    /// Takes in the next line. On an error the reader is left as it was.
    pub fn feed(&mut self, line: &[u8]) -> (r: Result<(), LoadError>)
        ensures
            match r {
                Ok(()) => old(self)@.step(line@) == Ok::<ReaderState, LoadError>(final(self)@),
                Err(e) => old(self)@.step(line@) == Err::<ReaderState, LoadError>(e) && *final(self)
                    == *old(self),
            },
    {
        match section_of(line) {
            Some(section) => {
                self.section = Some(section);
            },
            None => {
                if line.len() == 0 {
                    if self.completes_network() {
                        let layers = slice_to_vec(self.layers.as_slice());
                        let activations = slice_to_vec(self.activations.as_slice());
                        self.network = Some((layers, activations));
                        self.learning_rate = None;
                        self.section = None;
                    }
                } else {
                    match self.section {
                        Some(Section::Neurons) => match parse_usize(line) {
                            Some(width) => {
                                self.layers.push(width);
                            },
                            None => {
                                return Err(LoadError::BadNumber);
                            },
                        },
                        Some(Section::Activations) => {
                            self.activations.push(activation_from_bytes(line));
                        },
                        Some(Section::Weights) => {
                            let token = slice_to_vec(line);
                            self.weights.push(token);
                            assert(texts(self.weights@) =~= texts(old(self).weights@).push(line@));
                        },
                        Some(Section::Biases) => {
                            let token = slice_to_vec(line);
                            self.biases.push(token);
                            assert(texts(self.biases@) =~= texts(old(self).biases@).push(line@));
                        },
                        Some(Section::LearningRate) => {
                            self.learning_rate = Some(slice_to_vec(line));
                        },
                        _ => {},
                    }
                }
            },
        }
        Ok(())
    }

    /// The document that the lines fed so far make up.
    pub fn finish(self) -> (r: Result<Document, LoadError>)
        ensures
            match r {
                Ok(d) => self@.finish() == Ok::<DocumentView, LoadError>(d@),
                Err(e) => self@.finish() == Err::<DocumentView, LoadError>(e),
            },
    {
        let Reader { section: _, layers: _, activations: _, weights, biases, learning_rate, network } =
            self;
        let bias_lines: usize = biases.len();
        let weight_lines: usize = weights.len();
        match network {
            None => Err(LoadError::NoNetwork),
            Some((layers, activations)) => {
                let biases_fit: bool = match count_biases(layers.as_slice()) {
                    Some(n) => bias_lines == n,
                    None => false,
                };
                let weights_fit: bool = match count_weights(layers.as_slice()) {
                    Some(n) => weight_lines == n,
                    None => false,
                };
                if !biases_fit || !weights_fit {
                    Err(LoadError::CountMismatch)
                } else {
                    Ok(Document { layers, activations, weights, biases, learning_rate })
                }
            },
        }
    }
}

/// Reads a stored network from its text.
pub fn parse(text: &[u8]) -> (r: Result<Document, LoadError>)
    ensures
        match r {
            Ok(d) => parsed(text@) == Ok::<DocumentView, LoadError>(d@) && d@.shaped(),
            Err(e) => parsed(text@) == Err::<DocumentView, LoadError>(e),
        },
{
    proof {
        lemma_parsed_shaped(text@);
    }
    let mut reader = Reader::new();
    let mut pos: usize = 0;
    assert(text@.skip(0) =~= text@);
    while pos < text.len()
        invariant
            pos <= text@.len(),
            read_lines(Ok(ReaderState::start()), lines_of(text@)) == read_lines(
                Ok(reader@),
                lines_of(text@.skip(pos as int)),
            ),
        decreases text.len() - pos,
    {
        let end = line_end(text, pos);
        let line = line_at(text, pos, end);
        let next: usize = if end < text.len() {
            end + 1
        } else {
            end
        };
        proof {
            let rest = text@.skip(pos as int);
            let tail = lines_of(text@.skip(next as int));
            assert(rest.take(end - pos) =~= text@.subrange(pos as int, end as int));
            if end < text.len() {
                assert(rest.skip(end - pos + 1) =~= text@.skip(next as int));
            } else {
                assert(rest =~= text@.subrange(pos as int, end as int));
                assert(tail =~= Seq::<Seq<u8>>::empty());
            }
            assert(lines_of(rest) =~= seq![line@] + tail);
            assert(lines_of(rest).first() == line@);
            assert(lines_of(rest).drop_first() =~= tail);
        }
        let ghost before = reader@;
        let ghost tail = lines_of(text@.skip(next as int));
        match reader.feed(line) {
            Ok(()) => {},
            Err(e) => {
                assert(read_lines(before.step(line@), tail) == Err::<ReaderState, LoadError>(e));
                return Err(e);
            },
        }
        pos = next;
    }
    assert(lines_of(text@.skip(pos as int)) =~= Seq::<Seq<u8>>::empty());
    reader.finish()
}

/// The line that names the format, in the section that opens every stored
/// network.
pub open spec fn format_name() -> Seq<u8> {
    ascii("athenna.v2"@)
}

/// The decimal texts of a list of layer widths.
pub open spec fn width_lines(layers: Seq<usize>) -> Seq<Seq<u8>> {
    layers.map_values(|n: usize| decimal(n as nat))
}

/// The names of a list of activations.
pub open spec fn name_lines(activations: Seq<Activations>) -> Seq<Seq<u8>> {
    activations.map_values(|a: Activations| a.name_bytes())
}

/// The lines before the list of layer widths: the format's name, the input
/// and output widths, the number of layers, and the label of the list.
pub open spec fn heading_lines(layers: Seq<usize>) -> Seq<Seq<u8>> {
    seq![
        Section::NetworkType.label_bytes(),
        format_name(),
        Seq::empty(),
        Section::Dims.label_bytes(),
        decimal(layers.first() as nat),
        decimal(layers.last() as nat),
        Seq::empty(),
        Section::LayerTotal.label_bytes(),
        decimal(layers.len()),
        Seq::empty(),
        Section::Neurons.label_bytes(),
    ]
}

/// The lines that close one section and open the next.
pub open spec fn opening_lines(section: Section) -> Seq<Seq<u8>> {
    seq![Seq::empty(), section.label_bytes()]
}

/// The lines of the learning rate's section, where there is a learning
/// rate.
pub open spec fn rate_lines(learning_rate: Option<Seq<u8>>) -> Seq<Seq<u8>> {
    match learning_rate {
        Some(token) => opening_lines(Section::LearningRate).push(token),
        None => Seq::empty(),
    }
}

/// The lines of a stored network, in the order of the file.
pub open spec fn document_lines(d: DocumentView) -> Seq<Seq<u8>> {
    heading_lines(d.layers) + width_lines(d.layers) + opening_lines(Section::Activations)
        + name_lines(d.activations) + opening_lines(Section::Weights) + d.weights + opening_lines(
        Section::Biases,
    ) + d.biases + rate_lines(d.learning_rate)
}

/// The text that stores a document.
pub open spec fn rendered(d: DocumentView) -> Seq<u8> {
    join_lines(document_lines(d))
}

/// The bytes of the format's name.
fn format_name_bytes() -> (r: &'static [u8])
    ensures
        r@ == format_name(),
{
    proof {
        reveal_strlit("athenna.v2");
        lemma_ascii_encoding("athenna.v2"@);
    }
    bytes_of("athenna.v2")
}

/// Appends an empty line and the label of `section`.
fn push_opening(out: &mut Vec<u8>, section: Section)
    ensures
        final(out)@ == append_lines(old(out)@, opening_lines(section)),
{
    let ghost blank = Seq::<u8>::empty();
    let nothing: Vec<u8> = Vec::new();
    push_line(out, nothing.as_slice());
    push_line(out, section_label(section));
    proof {
        assert(nothing@ =~= blank);
        lemma_append_append(old(out)@, seq![blank], seq![section.label_bytes()]);
        assert(seq![blank] + seq![section.label_bytes()] =~= opening_lines(section));
    }
}

/// Appends one line for each layer width.
fn push_width_lines(out: &mut Vec<u8>, layers: &Vec<usize>)
    ensures
        final(out)@ == append_lines(old(out)@, width_lines(layers@)),
{
    let mut i: usize = 0;
    assert(width_lines(layers@).take(0) =~= Seq::<Seq<u8>>::empty());
    while i < layers.len()
        invariant
            i <= layers.len(),
            out@ == append_lines(old(out)@, width_lines(layers@).take(i as int)),
        decreases layers.len() - i,
    {
        let ghost lines = width_lines(layers@);
        push_number_line(out, layers[i]);
        proof {
            lemma_append_append(old(out)@, lines.take(i as int), seq![lines[i as int]]);
            assert(lines.take(i as int) + seq![lines[i as int]] =~= lines.take(i + 1));
        }
        i += 1;
    }
    assert(width_lines(layers@).take(i as int) =~= width_lines(layers@));
}

/// Appends one line for each activation.
fn push_name_lines(out: &mut Vec<u8>, activations: &Vec<Activations>)
    ensures
        final(out)@ == append_lines(old(out)@, name_lines(activations@)),
{
    let mut i: usize = 0;
    assert(name_lines(activations@).take(0) =~= Seq::<Seq<u8>>::empty());
    while i < activations.len()
        invariant
            i <= activations.len(),
            out@ == append_lines(old(out)@, name_lines(activations@).take(i as int)),
        decreases activations.len() - i,
    {
        let ghost lines = name_lines(activations@);
        push_line(out, activation_name_bytes(&activations[i]));
        proof {
            lemma_append_append(old(out)@, lines.take(i as int), seq![lines[i as int]]);
            assert(lines.take(i as int) + seq![lines[i as int]] =~= lines.take(i + 1));
        }
        i += 1;
    }
    assert(name_lines(activations@).take(i as int) =~= name_lines(activations@));
}

/// Appends one line for each token.
fn push_token_lines(out: &mut Vec<u8>, tokens: &Vec<Vec<u8>>)
    ensures
        final(out)@ == append_lines(old(out)@, texts(tokens@)),
{
    let mut i: usize = 0;
    assert(texts(tokens@).take(0) =~= Seq::<Seq<u8>>::empty());
    while i < tokens.len()
        invariant
            i <= tokens.len(),
            out@ == append_lines(old(out)@, texts(tokens@).take(i as int)),
        decreases tokens.len() - i,
    {
        let ghost lines = texts(tokens@);
        push_line(out, tokens[i].as_slice());
        proof {
            lemma_append_append(old(out)@, lines.take(i as int), seq![lines[i as int]]);
            assert(lines.take(i as int) + seq![lines[i as int]] =~= lines.take(i + 1));
        }
        i += 1;
    }
    assert(texts(tokens@).take(i as int) =~= texts(tokens@));
}

/// Appends the lines before the list of layer widths to an empty text.
fn push_heading(out: &mut Vec<u8>, layers: &Vec<usize>)
    requires
        old(out)@.len() == 0,
        layers@.len() > 0,
    ensures
        final(out)@ == join_lines(heading_lines(layers@)),
{
    let ghost blank = Seq::<u8>::empty();
    let nothing: Vec<u8> = Vec::new();
    assert(nothing@ =~= blank);
    let ghost all = heading_lines(layers@);
    push_bytes(out, section_label(Section::NetworkType));
    assert(out@ =~= join_lines(all.take(1)));
    push_line(out, format_name_bytes());
    proof {
        lemma_join_append(all.take(1), seq![all[1]]);
        assert(all.take(1) + seq![all[1]] =~= all.take(2));
    }
    push_line(out, nothing.as_slice());
    proof {
        lemma_join_append(all.take(2), seq![all[2]]);
        assert(all.take(2) + seq![all[2]] =~= all.take(3));
    }
    push_line(out, section_label(Section::Dims));
    proof {
        lemma_join_append(all.take(3), seq![all[3]]);
        assert(all.take(3) + seq![all[3]] =~= all.take(4));
    }
    push_number_line(out, layers[0]);
    proof {
        lemma_join_append(all.take(4), seq![all[4]]);
        assert(all.take(4) + seq![all[4]] =~= all.take(5));
    }
    push_number_line(out, layers[layers.len() - 1]);
    proof {
        lemma_join_append(all.take(5), seq![all[5]]);
        assert(all.take(5) + seq![all[5]] =~= all.take(6));
    }
    push_line(out, nothing.as_slice());
    proof {
        lemma_join_append(all.take(6), seq![all[6]]);
        assert(all.take(6) + seq![all[6]] =~= all.take(7));
    }
    push_line(out, section_label(Section::LayerTotal));
    proof {
        lemma_join_append(all.take(7), seq![all[7]]);
        assert(all.take(7) + seq![all[7]] =~= all.take(8));
    }
    push_number_line(out, layers.len());
    proof {
        lemma_join_append(all.take(8), seq![all[8]]);
        assert(all.take(8) + seq![all[8]] =~= all.take(9));
    }
    push_line(out, nothing.as_slice());
    proof {
        lemma_join_append(all.take(9), seq![all[9]]);
        assert(all.take(9) + seq![all[9]] =~= all.take(10));
    }
    push_line(out, section_label(Section::Neurons));
    proof {
        lemma_join_append(all.take(10), seq![all[10]]);
        assert(all.take(10) + seq![all[10]] =~= all.take(11));
        assert(all.take(11) =~= all);
    }
}

/// Writes a document as text: the sections in their fixed order, joined
/// by line feeds, with none after the last line.
pub fn render(doc: &Document) -> (r: Vec<u8>)
    requires
        valid_shape(doc@.layers, doc@.activations.len()),
    ensures
        r@ == rendered(doc@),
{
    let mut out: Vec<u8> = Vec::new();
    let ghost d = doc@;
    push_heading(&mut out, &doc.layers);
    let ghost mut lines = heading_lines(d.layers);
    push_width_lines(&mut out, &doc.layers);
    proof {
        lemma_join_append(lines, width_lines(d.layers));
        lines = lines + width_lines(d.layers);
    }
    push_opening(&mut out, Section::Activations);
    proof {
        lemma_join_append(lines, opening_lines(Section::Activations));
        lines = lines + opening_lines(Section::Activations);
    }
    push_name_lines(&mut out, &doc.activations);
    proof {
        lemma_join_append(lines, name_lines(d.activations));
        lines = lines + name_lines(d.activations);
    }
    push_opening(&mut out, Section::Weights);
    proof {
        lemma_join_append(lines, opening_lines(Section::Weights));
        lines = lines + opening_lines(Section::Weights);
    }
    push_token_lines(&mut out, &doc.weights);
    proof {
        lemma_join_append(lines, d.weights);
        lines = lines + d.weights;
    }
    push_opening(&mut out, Section::Biases);
    proof {
        lemma_join_append(lines, opening_lines(Section::Biases));
        lines = lines + opening_lines(Section::Biases);
    }
    push_token_lines(&mut out, &doc.biases);
    proof {
        lemma_join_append(lines, d.biases);
        lines = lines + d.biases;
    }
    match &doc.learning_rate {
        Some(token) => {
            push_opening(&mut out, Section::LearningRate);
            push_line(&mut out, token.as_slice());
            proof {
                lemma_join_append(lines, opening_lines(Section::LearningRate));
                lemma_join_append(lines + opening_lines(Section::LearningRate), seq![token@]);
                assert(lines + opening_lines(Section::LearningRate) + seq![token@] =~= lines
                    + rate_lines(d.learning_rate));
                lines = lines + rate_lines(d.learning_rate);
            }
        },
        None => {
            proof {
                assert(lines + rate_lines(d.learning_rate) =~= lines);
                lines = lines + rate_lines(d.learning_rate);
            }
        },
    }
    assert(lines == document_lines(d));
    out
}

} // verus!
