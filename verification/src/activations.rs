//! Activation kinds and their canonical names.

use crate::text::ascii;
use crate::text::bytes_eq;
use crate::text::bytes_of;
use crate::text::lemma_ascii_encoding;
use crate::text::plain_line;
use vstd::prelude::*;
use vstd::utf8::encode_utf8;
use vstd::utf8::encode_utf8_decode_utf8;
use vstd::utf8::is_ascii_chars;

verus! {

/// The activation applied by one layer.
#[derive(Copy, Clone, Debug, PartialEq, Eq, Structural)]
pub enum Activations {
    Sigmoid,
    TanH,
    ReLU,
    LeakyRelu,
    SoftMax,
    Linear,
}

impl Activations {
    /// The canonical lowercase name of a kind.
    pub open spec fn name(self) -> Seq<char> {
        match self {
            Activations::Sigmoid => "sigmoid"@,
            Activations::TanH => "tanh"@,
            Activations::ReLU => "relu"@,
            Activations::LeakyRelu => "leakyrelu"@,
            Activations::Linear => "linear"@,
            Activations::SoftMax => "softmax"@,
        }
    }

    /// The kind that a name stands for. Every text that is not the name of
    /// another kind stands for `LeakyRelu`.
    pub open spec fn named(text: Seq<char>) -> Activations {
        if text == "sigmoid"@ {
            Activations::Sigmoid
        } else if text == "tanh"@ {
            Activations::TanH
        } else if text == "relu"@ {
            Activations::ReLU
        } else if text == "linear"@ {
            Activations::Linear
        } else if text == "softmax"@ {
            Activations::SoftMax
        } else {
            Activations::LeakyRelu
        }
    }

    /// The bytes of a kind's name.
    pub open spec fn name_bytes(self) -> Seq<u8> {
        ascii(self.name())
    }

    /// The kind that the bytes of a name stand for: `named`, on bytes.
    pub open spec fn named_bytes(line: Seq<u8>) -> Activations {
        if line == ascii("sigmoid"@) {
            Activations::Sigmoid
        } else if line == ascii("tanh"@) {
            Activations::TanH
        } else if line == ascii("relu"@) {
            Activations::ReLU
        } else if line == ascii("linear"@) {
            Activations::Linear
        } else if line == ascii("softmax"@) {
            Activations::SoftMax
        } else {
            Activations::LeakyRelu
        }
    }
}

/// The names are ASCII, so each is encoded as its own characters.
pub proof fn lemma_names_are_ascii()
    ensures
        forall|a: Activations| is_ascii_chars(#[trigger] a.name()),
        forall|a: Activations| encode_utf8(#[trigger] a.name()) == a.name_bytes(),
{
    reveal_strlit("sigmoid");
    reveal_strlit("tanh");
    reveal_strlit("relu");
    reveal_strlit("leakyrelu");
    reveal_strlit("linear");
    reveal_strlit("softmax");
    assert forall|a: Activations| is_ascii_chars(#[trigger] a.name()) by {}
    assert forall|a: Activations| encode_utf8(#[trigger] a.name()) == a.name_bytes() by {
        lemma_ascii_encoding(a.name());
    }
}

/// A text is encoded as the bytes of an ASCII text only where it is that
/// text.
pub proof fn lemma_encoding_matches(text: Seq<char>, literal: Seq<char>)
    requires
        is_ascii_chars(literal),
    ensures
        (encode_utf8(text) == ascii(literal)) <==> (text == literal),
{
    lemma_ascii_encoding(literal);
    encode_utf8_decode_utf8(text);
    encode_utf8_decode_utf8(literal);
}

/// Reading a name as bytes and as text gives the same kind.
pub proof fn lemma_named_bytes_of_encoding(text: Seq<char>)
    ensures
        Activations::named_bytes(encode_utf8(text)) == Activations::named(text),
{
    lemma_names_are_ascii();
    assert(is_ascii_chars(Activations::Sigmoid.name()));
    assert(is_ascii_chars(Activations::TanH.name()));
    assert(is_ascii_chars(Activations::ReLU.name()));
    assert(is_ascii_chars(Activations::Linear.name()));
    assert(is_ascii_chars(Activations::SoftMax.name()));
    lemma_encoding_matches(text, "sigmoid"@);
    lemma_encoding_matches(text, "tanh"@);
    lemma_encoding_matches(text, "relu"@);
    lemma_encoding_matches(text, "linear"@);
    lemma_encoding_matches(text, "softmax"@);
}

/// Every kind is the kind that its own name stands for.
pub proof fn lemma_named_of_name(a: Activations)
    ensures
        Activations::named(a.name()) == a,
        Activations::named_bytes(a.name_bytes()) == a,
{
    reveal_strlit("sigmoid");
    reveal_strlit("tanh");
    reveal_strlit("relu");
    reveal_strlit("leakyrelu");
    reveal_strlit("linear");
    reveal_strlit("softmax");
    let n = a.name();
    assert("sigmoid"@.len() == 7 && "tanh"@.len() == 4 && "relu"@.len() == 4);
    assert("leakyrelu"@.len() == 9 && "linear"@.len() == 6 && "softmax"@.len() == 7);
    assert("sigmoid"@[1] == 'i' && "softmax"@[1] == 'o');
    assert("tanh"@[0] == 't' && "relu"@[0] == 'r');
    assert(ascii("sigmoid"@)[1] == 105u8 && ascii("softmax"@)[1] == 111u8);
    assert(ascii("tanh"@)[0] == 116u8 && ascii("relu"@)[0] == 114u8);
    assert(ascii("sigmoid"@).len() == 7 && ascii("tanh"@).len() == 4 && ascii("relu"@).len() == 4);
    assert(ascii("leakyrelu"@).len() == 9 && ascii("linear"@).len() == 6 && ascii(
        "softmax"@,
    ).len() == 7);
}

/// A name is a plain line of lowercase letters.
pub proof fn lemma_name_shape(a: Activations)
    ensures
        a.name_bytes().len() > 0,
        97u8 <= a.name_bytes()[0] <= 122u8,
        plain_line(a.name_bytes()),
{
    reveal_strlit("sigmoid");
    reveal_strlit("tanh");
    reveal_strlit("relu");
    reveal_strlit("leakyrelu");
    reveal_strlit("linear");
    reveal_strlit("softmax");
}

/// The bytes of a kind's name.
pub fn activation_name_bytes(act: &Activations) -> (r: &'static [u8])
    ensures
        r@ == act.name_bytes(),
{
    proof {
        lemma_names_are_ascii();
    }
    match act {
        Activations::Sigmoid => bytes_of("sigmoid"),
        Activations::TanH => bytes_of("tanh"),
        Activations::ReLU => bytes_of("relu"),
        Activations::LeakyRelu => bytes_of("leakyrelu"),
        Activations::Linear => bytes_of("linear"),
        Activations::SoftMax => bytes_of("softmax"),
    }
}

/// The kind that the bytes of a name stand for; `LeakyRelu` where they are
/// the name of no kind.
pub fn activation_from_bytes(line: &[u8]) -> (r: Activations)
    ensures
        r == Activations::named_bytes(line@),
{
    if bytes_eq(line, activation_name_bytes(&Activations::Sigmoid)) {
        Activations::Sigmoid
    } else if bytes_eq(line, activation_name_bytes(&Activations::TanH)) {
        Activations::TanH
    } else if bytes_eq(line, activation_name_bytes(&Activations::ReLU)) {
        Activations::ReLU
    } else if bytes_eq(line, activation_name_bytes(&Activations::Linear)) {
        Activations::Linear
    } else if bytes_eq(line, activation_name_bytes(&Activations::SoftMax)) {
        Activations::SoftMax
    } else {
        Activations::LeakyRelu
    }
}

/// The canonical name of a kind.
pub fn activation_to_string(act: &Activations) -> (r: String)
    ensures
        r@ == act.name(),
{
    match act {
        Activations::Sigmoid => "sigmoid".to_string(),
        Activations::TanH => "tanh".to_string(),
        Activations::ReLU => "relu".to_string(),
        Activations::LeakyRelu => "leakyrelu".to_string(),
        Activations::Linear => "linear".to_string(),
        Activations::SoftMax => "softmax".to_string(),
    }
}

/// The kind that a name stands for; `LeakyRelu` where the text is the name
/// of no kind.
pub fn string_to_activation(val: &str) -> (r: Activations)
    ensures
        r == Activations::named(val@),
{
    proof {
        lemma_named_bytes_of_encoding(val@);
    }
    activation_from_bytes(bytes_of(val))
}

} // verus!
