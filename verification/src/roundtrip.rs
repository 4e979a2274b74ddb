//! A document that is written and read again comes back unchanged.

use crate::activations::lemma_name_shape;
use crate::activations::lemma_named_of_name;
use crate::activations::Activations;
use crate::format::document_lines;
use crate::format::format_name;
use crate::format::heading_lines;
use crate::format::name_lines;
use crate::format::opening_lines;
use crate::format::parsed;
use crate::format::rate_lines;
use crate::format::read_lines;
use crate::format::rendered;
use crate::format::width_lines;
use crate::format::DocumentView;
use crate::format::LoadError;
use crate::format::ReaderState;
use crate::format::Section;
use crate::nn::flattened_biases;
use crate::nn::flattened_weights;
use crate::nn::lemma_shaped_flattened_biases;
use crate::nn::lemma_shaped_flattened_weights;
use crate::nn::shaped_biases;
use crate::nn::shaped_weights;
use crate::nn::Network;
use crate::text::decimal;
use crate::text::is_digit;
use crate::text::lemma_decimal_digits;
use crate::text::lemma_lines_of_join;
use crate::text::lemma_parse_decimal_of_decimal;
use crate::text::parse_size;
use crate::text::plain_line;
use vstd::prelude::*;

verus! {

pub open spec fn all_plain(lines: Seq<Seq<u8>>) -> bool {
    forall|i: int| 0 <= i < lines.len() ==> plain_line(#[trigger] lines[i])
}

/// Every label is read as the label of its own section, starts with an
/// opening bracket and is a plain line.
pub proof fn lemma_label(section: Section)
    ensures
        Section::of_label(section.label_bytes()) == Some(section),
        section.label_bytes().len() > 0,
        section.label_bytes()[0] == 91u8,
        plain_line(section.label_bytes()),
{
    reveal_strlit("[network.type]");
    reveal_strlit("[dims]");
    reveal_strlit("[layer.total]");
    reveal_strlit("[layer.neurons]");
    reveal_strlit("[layer.activations]");
    reveal_strlit("[layer.weights]");
    reveal_strlit("[layer.biases]");
    reveal_strlit("[network.learning_rate]");
    assert(Section::NetworkType.label_bytes().len() == 14);
    assert(Section::Dims.label_bytes().len() == 6);
    assert(Section::LayerTotal.label_bytes().len() == 13);
    assert(Section::Neurons.label_bytes().len() == 15);
    assert(Section::Activations.label_bytes().len() == 19);
    assert(Section::Weights.label_bytes().len() == 15);
    assert(Section::Biases.label_bytes().len() == 14);
    assert(Section::LearningRate.label_bytes().len() == 23);
    assert(Section::NetworkType.label_bytes()[1] == 110u8);
    assert(Section::Biases.label_bytes()[1] == 108u8);
    assert(Section::Neurons.label_bytes()[7] == 110u8);
    assert(Section::Weights.label_bytes()[7] == 119u8);
}

/// A line that is empty, or does not start with an opening bracket, is no
/// label.
pub proof fn lemma_not_label(line: Seq<u8>)
    requires
        line.len() == 0 || line[0] != 91u8,
    ensures
        Section::of_label(line) is None,
{
    lemma_label(Section::NetworkType);
    lemma_label(Section::Dims);
    lemma_label(Section::LayerTotal);
    lemma_label(Section::Neurons);
    lemma_label(Section::Activations);
    lemma_label(Section::Weights);
    lemma_label(Section::Biases);
    lemma_label(Section::LearningRate);
}

/// The decimal text of a number is a plain line and no label.
pub proof fn lemma_decimal_line(n: nat)
    ensures
        decimal(n).len() > 0,
        plain_line(decimal(n)),
        Section::of_label(decimal(n)) is None,
{
    let line = decimal(n);
    lemma_decimal_digits(n);
    assert(is_digit(line[0]));
    assert(is_digit(line.last()));
    assert forall|i: int| 0 <= i < line.len() implies #[trigger] line[i] != 10u8 by {
        assert(is_digit(line[i]));
    }
    lemma_not_label(line);
}

/// The decimal text of a width reads as the width.
pub proof fn lemma_width_line(n: usize)
    ensures
        decimal(n as nat).len() > 0,
        plain_line(decimal(n as nat)),
        Section::of_label(decimal(n as nat)) is None,
        parse_size(decimal(n as nat)) == Some(n),
{
    lemma_decimal_line(n as nat);
    lemma_parse_decimal_of_decimal(n as nat);
}

/// The name of the format is a plain line and no label.
pub proof fn lemma_format_name()
    ensures
        format_name().len() > 0,
        plain_line(format_name()),
        Section::of_label(format_name()) is None,
{
    reveal_strlit("athenna.v2");
    assert(format_name()[0] == 97u8);
    lemma_not_label(format_name());
}

/// The lines read first and the lines read after them can be read in one
/// run.
pub proof fn lemma_read_concat(
    state: Result<ReaderState, LoadError>,
    a: Seq<Seq<u8>>,
    b: Seq<Seq<u8>>,
)
    ensures
        read_lines(state, a + b) == read_lines(read_lines(state, a), b),
    decreases a.len(),
{
    match state {
        Err(e) => {},
        Ok(s) => {
            if a.len() == 0 {
                assert(a + b =~= b);
            } else {
                assert((a + b).first() == a.first());
                assert((a + b).drop_first() =~= a.drop_first() + b);
                lemma_read_concat(s.step(a.first()), a.drop_first(), b);
            }
        },
    }
}

/// Reading one more line is one more step.
pub proof fn lemma_read_push(state: Result<ReaderState, LoadError>, lines: Seq<Seq<u8>>, line: Seq<u8>)
    ensures
        read_lines(state, lines.push(line)) == match read_lines(state, lines) {
            Ok(s) => s.step(line),
            Err(e) => Err(e),
        },
{
    lemma_read_concat(state, lines, seq![line]);
    assert(lines + seq![line] =~= lines.push(line));
    match read_lines(state, lines) {
        Ok(s) => {
            let one = seq![line];
            assert(one.first() == line);
            assert(one.drop_first() =~= Seq::<Seq<u8>>::empty());
            assert(read_lines(Ok(s), one) == read_lines(s.step(line), one.drop_first()));
        },
        Err(e) => {},
    }
}

/// The heading opens the list of layer widths and leaves everything else
/// as it was at the start.
pub proof fn lemma_read_heading(layers: Seq<usize>)
    requires
        layers.len() > 0,
    ensures
        read_lines(Ok(ReaderState::start()), heading_lines(layers)) == Ok::<
            ReaderState,
            LoadError,
        >(ReaderState { section: Some(Section::Neurons), ..ReaderState::start() }),
{
    let all = heading_lines(layers);
    let start = ReaderState::start();
    let first: Result<ReaderState, LoadError> = Ok(start);
    let blank = Seq::<u8>::empty();
    lemma_label(Section::NetworkType);
    lemma_label(Section::Dims);
    lemma_label(Section::LayerTotal);
    lemma_label(Section::Neurons);
    lemma_format_name();
    lemma_not_label(blank);
    lemma_width_line(layers.first());
    lemma_width_line(layers.last());
    lemma_decimal_line(layers.len());
    let in_type = ReaderState { section: Some(Section::NetworkType), ..start };
    let in_dims = ReaderState { section: Some(Section::Dims), ..start };
    let in_total = ReaderState { section: Some(Section::LayerTotal), ..start };
    let in_neurons = ReaderState { section: Some(Section::Neurons), ..start };
    assert(all.take(0) =~= Seq::<Seq<u8>>::empty());
    assert(read_lines(first, all.take(0)) == first);
    assert(all.take(1) =~= all.take(0).push(all[0]));
    lemma_read_push(first, all.take(0), all[0]);
    assert(read_lines(first, all.take(1)) == Ok::<ReaderState, LoadError>(in_type));
    assert(all.take(2) =~= all.take(1).push(all[1]));
    lemma_read_push(first, all.take(1), all[1]);
    assert(read_lines(first, all.take(2)) == Ok::<ReaderState, LoadError>(in_type));
    assert(all.take(3) =~= all.take(2).push(all[2]));
    lemma_read_push(first, all.take(2), all[2]);
    assert(read_lines(first, all.take(3)) == Ok::<ReaderState, LoadError>(in_type));
    assert(all.take(4) =~= all.take(3).push(all[3]));
    lemma_read_push(first, all.take(3), all[3]);
    assert(read_lines(first, all.take(4)) == Ok::<ReaderState, LoadError>(in_dims));
    assert(all.take(5) =~= all.take(4).push(all[4]));
    lemma_read_push(first, all.take(4), all[4]);
    assert(read_lines(first, all.take(5)) == Ok::<ReaderState, LoadError>(in_dims));
    assert(all.take(6) =~= all.take(5).push(all[5]));
    lemma_read_push(first, all.take(5), all[5]);
    assert(read_lines(first, all.take(6)) == Ok::<ReaderState, LoadError>(in_dims));
    assert(all.take(7) =~= all.take(6).push(all[6]));
    lemma_read_push(first, all.take(6), all[6]);
    assert(read_lines(first, all.take(7)) == Ok::<ReaderState, LoadError>(in_dims));
    assert(all.take(8) =~= all.take(7).push(all[7]));
    lemma_read_push(first, all.take(7), all[7]);
    assert(read_lines(first, all.take(8)) == Ok::<ReaderState, LoadError>(in_total));
    assert(all.take(9) =~= all.take(8).push(all[8]));
    lemma_read_push(first, all.take(8), all[8]);
    assert(read_lines(first, all.take(9)) == Ok::<ReaderState, LoadError>(in_total));
    assert(all.take(10) =~= all.take(9).push(all[9]));
    lemma_read_push(first, all.take(9), all[9]);
    assert(read_lines(first, all.take(10)) == Ok::<ReaderState, LoadError>(in_total));
    assert(all.take(11) =~= all.take(10).push(all[10]));
    lemma_read_push(first, all.take(10), all[10]);
    assert(read_lines(first, all.take(11)) == Ok::<ReaderState, LoadError>(in_neurons));
    assert(all.take(11) =~= all);
}

/// In the neurons section, width lines add their widths to the layers.
pub proof fn lemma_read_widths(s: ReaderState, run: Seq<usize>)
    requires
        s.section == Some(Section::Neurons),
    ensures
        read_lines(Ok(s), width_lines(run)) == Ok::<ReaderState, LoadError>(
            ReaderState { layers: s.layers + run, ..s },
        ),
    decreases run.len(),
{
    let lines = width_lines(run);
    if run.len() == 0 {
        assert(s.layers + run =~= s.layers);
    } else {
        lemma_width_line(run.first());
        let next = ReaderState { layers: s.layers.push(run.first()), ..s };
        assert(lines.first() == decimal(run.first() as nat));
        assert(s.step(lines.first()) == Ok::<ReaderState, LoadError>(next));
        assert(lines.drop_first() =~= width_lines(run.drop_first()));
        lemma_read_widths(next, run.drop_first());
        assert(next.layers + run.drop_first() =~= s.layers + run);
    }
}

/// In the activations section, name lines add their kinds to the
/// activations.
pub proof fn lemma_read_names(s: ReaderState, run: Seq<Activations>)
    requires
        s.section == Some(Section::Activations),
    ensures
        read_lines(Ok(s), name_lines(run)) == Ok::<ReaderState, LoadError>(
            ReaderState { activations: s.activations + run, ..s },
        ),
    decreases run.len(),
{
    let lines = name_lines(run);
    if run.len() == 0 {
        assert(s.activations + run =~= s.activations);
    } else {
        lemma_name_shape(run.first());
        lemma_named_of_name(run.first());
        lemma_not_label(run.first().name_bytes());
        let next = ReaderState { activations: s.activations.push(run.first()), ..s };
        assert(lines.first() == run.first().name_bytes());
        assert(s.step(lines.first()) == Ok::<ReaderState, LoadError>(next));
        assert(lines.drop_first() =~= name_lines(run.drop_first()));
        lemma_read_names(next, run.drop_first());
        assert(next.activations + run.drop_first() =~= s.activations + run);
    }
}

/// In the weights section, proper tokens are added to the weights.
pub proof fn lemma_read_weights(s: ReaderState, run: Seq<Seq<u8>>)
    requires
        s.section == Some(Section::Weights),
        DocumentView::all_proper(run),
    ensures
        read_lines(Ok(s), run) == Ok::<ReaderState, LoadError>(
            ReaderState { weights: s.weights + run, ..s },
        ),
    decreases run.len(),
{
    if run.len() == 0 {
        assert(s.weights + run =~= s.weights);
    } else {
        assert(DocumentView::proper_token(run.first()));
        let next = ReaderState { weights: s.weights.push(run.first()), ..s };
        assert(s.step(run.first()) == Ok::<ReaderState, LoadError>(next));
        let rest = run.drop_first();
        assert forall|i: int| 0 <= i < rest.len() implies DocumentView::proper_token(
            #[trigger] rest[i],
        ) by {
            assert(rest[i] == run[i + 1]);
        }
        lemma_read_weights(next, rest);
        assert(next.weights + rest =~= s.weights + run);
    }
}

/// In the biases section, proper tokens are added to the biases.
pub proof fn lemma_read_biases(s: ReaderState, run: Seq<Seq<u8>>)
    requires
        s.section == Some(Section::Biases),
        DocumentView::all_proper(run),
    ensures
        read_lines(Ok(s), run) == Ok::<ReaderState, LoadError>(
            ReaderState { biases: s.biases + run, ..s },
        ),
    decreases run.len(),
{
    if run.len() == 0 {
        assert(s.biases + run =~= s.biases);
    } else {
        assert(DocumentView::proper_token(run.first()));
        let next = ReaderState { biases: s.biases.push(run.first()), ..s };
        assert(s.step(run.first()) == Ok::<ReaderState, LoadError>(next));
        let rest = run.drop_first();
        assert forall|i: int| 0 <= i < rest.len() implies DocumentView::proper_token(
            #[trigger] rest[i],
        ) by {
            assert(rest[i] == run[i + 1]);
        }
        lemma_read_biases(next, rest);
        assert(next.biases + rest =~= s.biases + run);
    }
}

/// The state after the empty line that closes a section.
pub open spec fn closed(s: ReaderState) -> ReaderState {
    if s.completes_network() {
        ReaderState {
            section: None,
            learning_rate: None,
            network: Some((s.layers, s.activations)),
            ..s
        }
    } else {
        s
    }
}

/// An empty line and a label close the open section and open the next.
pub proof fn lemma_read_opening(s: ReaderState, section: Section)
    ensures
        read_lines(Ok(s), opening_lines(section)) == Ok::<ReaderState, LoadError>(
            ReaderState { section: Some(section), ..closed(s) },
        ),
{
    let blank = Seq::<u8>::empty();
    let lines = opening_lines(section);
    lemma_not_label(blank);
    lemma_label(section);
    assert(lines =~= Seq::<Seq<u8>>::empty().push(blank).push(section.label_bytes()));
    lemma_read_push(Ok(s), Seq::<Seq<u8>>::empty(), blank);
    lemma_read_push(Ok(s), Seq::<Seq<u8>>::empty().push(blank), section.label_bytes());
    assert(s.step(blank) == Ok::<ReaderState, LoadError>(closed(s)));
}

/// The learning rate's section sets the learning rate.
pub proof fn lemma_read_rate(s: ReaderState, learning_rate: Option<Seq<u8>>)
    requires
        !s.completes_network(),
        s.learning_rate is None,
        match learning_rate {
            Some(token) => DocumentView::proper_token(token),
            None => true,
        },
    ensures
        read_lines(Ok(s), rate_lines(learning_rate)) matches Ok(after) && after.finish() == (
        ReaderState { learning_rate, ..s }).finish(),
{
    match learning_rate {
        Some(token) => {
            lemma_read_opening(s, Section::LearningRate);
            lemma_read_push(Ok(s), opening_lines(Section::LearningRate), token);
        },
        None => {},
    }
}

pub proof fn lemma_all_plain_concat(a: Seq<Seq<u8>>, b: Seq<Seq<u8>>)
    requires
        all_plain(a),
        all_plain(b),
    ensures
        all_plain(a + b),
{
    assert forall|i: int| 0 <= i < (a + b).len() implies plain_line(#[trigger] (a + b)[i]) by {
        if i < a.len() {
            assert((a + b)[i] == a[i]);
        } else {
            assert((a + b)[i] == b[i - a.len()]);
        }
    }
}

pub proof fn lemma_opening_plain(section: Section)
    ensures
        all_plain(opening_lines(section)),
{
    lemma_label(section);
}

pub proof fn lemma_tokens_plain(tokens: Seq<Seq<u8>>)
    requires
        DocumentView::all_proper(tokens),
    ensures
        all_plain(tokens),
{
    assert forall|i: int| 0 <= i < tokens.len() implies plain_line(#[trigger] tokens[i]) by {
        assert(DocumentView::proper_token(tokens[i]));
    }
}

/// Every line of a well-formed document is a plain line, and the last one
/// is not empty.
pub proof fn lemma_document_lines_plain(d: DocumentView)
    requires
        d.well_formed(),
    ensures
        all_plain(document_lines(d)),
        document_lines(d).len() > 0,
        document_lines(d).last().len() > 0,
{
    let blank = Seq::<u8>::empty();
    let heading = heading_lines(d.layers);
    lemma_label(Section::NetworkType);
    lemma_label(Section::Dims);
    lemma_label(Section::LayerTotal);
    lemma_label(Section::Neurons);
    lemma_label(Section::Biases);
    lemma_label(Section::LearningRate);
    lemma_format_name();
    lemma_width_line(d.layers.first());
    lemma_width_line(d.layers.last());
    lemma_decimal_line(d.layers.len());
    assert(all_plain(heading));
    let widths = width_lines(d.layers);
    assert forall|i: int| 0 <= i < widths.len() implies plain_line(#[trigger] widths[i]) by {
        lemma_width_line(d.layers[i]);
    }
    let names = name_lines(d.activations);
    assert forall|i: int| 0 <= i < names.len() implies plain_line(#[trigger] names[i]) by {
        lemma_name_shape(d.activations[i]);
    }
    lemma_opening_plain(Section::Activations);
    lemma_opening_plain(Section::Weights);
    lemma_opening_plain(Section::Biases);
    lemma_opening_plain(Section::LearningRate);
    lemma_tokens_plain(d.weights);
    lemma_tokens_plain(d.biases);
    let rate = rate_lines(d.learning_rate);
    assert(all_plain(rate));
    let l1 = heading + widths;
    lemma_all_plain_concat(heading, widths);
    let l2 = l1 + opening_lines(Section::Activations);
    lemma_all_plain_concat(l1, opening_lines(Section::Activations));
    let l3 = l2 + names;
    lemma_all_plain_concat(l2, names);
    let l4 = l3 + opening_lines(Section::Weights);
    lemma_all_plain_concat(l3, opening_lines(Section::Weights));
    let l5 = l4 + d.weights;
    lemma_all_plain_concat(l4, d.weights);
    let l6 = l5 + opening_lines(Section::Biases);
    lemma_all_plain_concat(l5, opening_lines(Section::Biases));
    let l7 = l6 + d.biases;
    lemma_all_plain_concat(l6, d.biases);
    let l8 = l7 + rate;
    lemma_all_plain_concat(l7, rate);
    assert(l8 == document_lines(d));
    assert(l6.last() == Section::Biases.label_bytes());
    if d.biases.len() > 0 {
        assert(l7.last() == d.biases.last());
        assert(DocumentView::proper_token(d.biases.last()));
    } else {
        assert(l7 =~= l6);
    }
    match d.learning_rate {
        Some(token) => {
            assert(l8.last() == token);
        },
        None => {
            assert(l8 =~= l7);
        },
    }
}

/// Reading the lines of a well-formed document gives a state that
/// finishes as the document.
pub proof fn lemma_read_document_lines(d: DocumentView)
    requires
        d.well_formed(),
    ensures
        read_lines(Ok(ReaderState::start()), document_lines(d)) matches Ok(s) && s.finish() == Ok::<
            DocumentView,
            LoadError,
        >(d),
{
    let start = ReaderState::start();
    let first: Result<ReaderState, LoadError> = Ok(start);
    let none = Seq::<Seq<u8>>::empty();
    let heading = heading_lines(d.layers);
    let widths = width_lines(d.layers);
    let names = name_lines(d.activations);
    let rate = rate_lines(d.learning_rate);
    let l1 = heading + widths;
    let l2 = l1 + opening_lines(Section::Activations);
    let l3 = l2 + names;
    let l4 = l3 + opening_lines(Section::Weights);
    let l5 = l4 + d.weights;
    let l6 = l5 + opening_lines(Section::Biases);
    let l7 = l6 + d.biases;
    let l8 = l7 + rate;
    assert(l8 == document_lines(d));

    let s0 = ReaderState { section: Some(Section::Neurons), ..start };
    lemma_read_heading(d.layers);
    assert(read_lines(first, heading) == Ok::<ReaderState, LoadError>(s0));

    let s1 = ReaderState { layers: d.layers, ..s0 };
    lemma_read_concat(first, heading, widths);
    lemma_read_widths(s0, d.layers);
    assert(s0.layers + d.layers =~= d.layers);
    assert(read_lines(first, l1) == Ok::<ReaderState, LoadError>(s1));

    let s2 = ReaderState { section: Some(Section::Activations), ..s1 };
    lemma_read_concat(first, l1, opening_lines(Section::Activations));
    lemma_read_opening(s1, Section::Activations);
    assert(!s1.completes_network());
    assert(read_lines(first, l2) == Ok::<ReaderState, LoadError>(s2));

    let s3 = ReaderState { activations: d.activations, ..s2 };
    lemma_read_concat(first, l2, names);
    lemma_read_names(s2, d.activations);
    assert(s2.activations + d.activations =~= d.activations);
    assert(read_lines(first, l3) == Ok::<ReaderState, LoadError>(s3));

    let s4 = ReaderState {
        section: Some(Section::Weights),
        learning_rate: None,
        network: Some((d.layers, d.activations)),
        ..s3
    };
    lemma_read_concat(first, l3, opening_lines(Section::Weights));
    lemma_read_opening(s3, Section::Weights);
    assert(s3.completes_network());
    assert(read_lines(first, l4) == Ok::<ReaderState, LoadError>(s4));

    let s5 = ReaderState { weights: d.weights, ..s4 };
    lemma_read_concat(first, l4, d.weights);
    lemma_read_weights(s4, d.weights);
    assert(s4.weights + d.weights =~= d.weights);
    assert(read_lines(first, l5) == Ok::<ReaderState, LoadError>(s5));

    let s6 = ReaderState { section: Some(Section::Biases), ..s5 };
    lemma_read_concat(first, l5, opening_lines(Section::Biases));
    lemma_read_opening(s5, Section::Biases);
    assert(!s5.completes_network());
    assert(read_lines(first, l6) == Ok::<ReaderState, LoadError>(s6));

    let s7 = ReaderState { biases: d.biases, ..s6 };
    lemma_read_concat(first, l6, d.biases);
    lemma_read_biases(s6, d.biases);
    assert(s6.biases + d.biases =~= d.biases);
    assert(read_lines(first, l7) == Ok::<ReaderState, LoadError>(s7));

    lemma_read_concat(first, l7, rate);
    lemma_read_rate(s7, d.learning_rate);
    let last = ReaderState { learning_rate: d.learning_rate, ..s7 };
    assert(last.finish() == Ok::<DocumentView, LoadError>(d));
}

/// Reading what was written gives the document that was written: the same
/// layers, activations, weight and bias tokens, and learning rate.
pub proof fn lemma_parse_render(d: DocumentView)
    requires
        d.well_formed(),
    ensures
        parsed(rendered(d)) == Ok::<DocumentView, LoadError>(d),
{
    lemma_document_lines_plain(d);
    lemma_lines_of_join(document_lines(d));
    lemma_read_document_lines(d);
}

/// `show` writes `x` as a proper token, and `read` gets `x` back from it.
pub open spec fn reads_back<T>(x: T, show: spec_fn(T) -> Seq<u8>, read: spec_fn(Seq<u8>) -> T) -> bool {
    DocumentView::proper_token(show(x)) && read(show(x)) == x
}

/// The document that stores a network, with every scalar written by
/// `show`.
pub open spec fn document_of<T>(n: Network<T>, show: spec_fn(T) -> Seq<u8>) -> DocumentView {
    DocumentView {
        layers: n.layers,
        activations: n.activations,
        weights: flattened_weights(n.weights).map_values(show),
        biases: flattened_biases(n.biases).map_values(show),
        learning_rate: Some(show(n.learning_rate)),
    }
}

/// A well-formed network that is stored and read again comes back with the
/// same layers, activations, weights, biases and learning rate, provided
/// that each of its scalars is written as a proper token from which it can
/// be read back.
pub proof fn lemma_store_restore<T>(
    n: Network<T>,
    show: spec_fn(T) -> Seq<u8>,
    read: spec_fn(Seq<u8>) -> T,
)
    requires
        n.well_formed(),
        forall|i: int|
            0 <= i < flattened_weights(n.weights).len() ==> reads_back(
                #[trigger] flattened_weights(n.weights)[i],
                show,
                read,
            ),
        forall|i: int|
            0 <= i < flattened_biases(n.biases).len() ==> reads_back(
                #[trigger] flattened_biases(n.biases)[i],
                show,
                read,
            ),
        reads_back(n.learning_rate, show, read),
    ensures
        parsed(rendered(document_of(n, show))) matches Ok(d) && {
            &&& d.layers == n.layers
            &&& d.activations == n.activations
            &&& shaped_weights(d.layers, d.weights.map_values(read)) == n.weights
            &&& shaped_biases(d.layers, d.biases.map_values(read)) == n.biases
            &&& d.learning_rate matches Some(token) && read(token) == n.learning_rate
        },
{
    let d = document_of(n, show);
    let weights = flattened_weights(n.weights);
    let biases = flattened_biases(n.biases);
    lemma_shaped_flattened_weights(n.layers, n.weights);
    lemma_shaped_flattened_biases(n.layers, n.biases);
    assert forall|i: int| 0 <= i < d.weights.len() implies DocumentView::proper_token(
        #[trigger] d.weights[i],
    ) by {
        assert(reads_back(weights[i], show, read));
    }
    assert forall|i: int| 0 <= i < d.biases.len() implies DocumentView::proper_token(
        #[trigger] d.biases[i],
    ) by {
        assert(reads_back(biases[i], show, read));
    }
    assert(d.well_formed());
    lemma_parse_render(d);
    assert(d.weights.map_values(read) =~= weights) by {
        assert forall|i: int| 0 <= i < weights.len() implies d.weights.map_values(read)[i]
            == weights[i] by {
            assert(reads_back(weights[i], show, read));
        }
    }
    assert(d.biases.map_values(read) =~= biases) by {
        assert forall|i: int| 0 <= i < biases.len() implies d.biases.map_values(read)[i]
            == biases[i] by {
            assert(reads_back(biases[i], show, read));
        }
    }
}

} // verus!
