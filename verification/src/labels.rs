//! The labels under which the levels of a startup tree are scheduled.

use crate::parse::{ParseError, ParseErrorKind};
use crate::tokens::{
    join_streams, join_with_commas, new_stream, push_group, push_string_literal, stream_tokens,
    streams_tokens, string_literal_text, Delim, TokenTree,
};
use vstd::prelude::*;
use vstd::string::StringExecFns;

verus! {

/// The character of a decimal digit.
pub open spec fn digit_char(digit: nat) -> char {
    if digit == 0 {
        '0'
    } else if digit == 1 {
        '1'
    } else if digit == 2 {
        '2'
    } else if digit == 3 {
        '3'
    } else if digit == 4 {
        '4'
    } else if digit == 5 {
        '5'
    } else if digit == 6 {
        '6'
    } else if digit == 7 {
        '7'
    } else if digit == 8 {
        '8'
    } else {
        '9'
    }
}

/// A number written in decimal, without leading zeros.
pub open spec fn decimal_text(number: nat) -> Seq<char>
    decreases number,
{
    if number < 10 {
        seq![digit_char(number)]
    } else {
        decimal_text(number / 10).push(digit_char(number % 10))
    }
}

/// The text of one decimal digit.
fn digit_text(digit: u64) -> (text: &'static str)
    requires
        digit < 10,
    ensures
        text@ == seq![digit_char(digit as nat)],
{
    proof {
        reveal_strlit("0");
        reveal_strlit("1");
        reveal_strlit("2");
        reveal_strlit("3");
        reveal_strlit("4");
        reveal_strlit("5");
        reveal_strlit("6");
        reveal_strlit("7");
        reveal_strlit("8");
        reveal_strlit("9");
    }
    let text = if digit == 0 {
        "0"
    } else if digit == 1 {
        "1"
    } else if digit == 2 {
        "2"
    } else if digit == 3 {
        "3"
    } else if digit == 4 {
        "4"
    } else if digit == 5 {
        "5"
    } else if digit == 6 {
        "6"
    } else if digit == 7 {
        "7"
    } else if digit == 8 {
        "8"
    } else {
        "9"
    };
    assert(text@ =~= seq![digit_char(digit as nat)]);
    text
}

/// Writes a number in decimal.
pub fn decimal(number: u64) -> (text: String)
    ensures
        text@ == decimal_text(number as nat),
    decreases number,
{
    if number < 10 {
        digit_text(number).to_owned()
    } else {
        let mut text = decimal(number / 10);
        text.append(digit_text(number % 10));
        assert(text@ =~= decimal_text(number as nat));
        text
    }
}

/// The label of stage `index`: `__startup_tree_stage_` and the index.
pub open spec fn stage_label_text(index: nat) -> Seq<char> {
    "__startup_tree_stage_"@ + decimal_text(index)
}

/// The label of layer `index` of the tree that was given `namespace`:
/// `__startup_tree_`, the namespace, `_layer_` and the index.
pub open spec fn layer_label_text(namespace: Seq<char>, index: nat) -> Seq<char> {
    "__startup_tree_"@ + namespace + "_layer_"@ + decimal_text(index)
}

/// The label of layer `index` of the tree that was given `namespace`.
pub fn layer_label(namespace: &str, index: usize) -> (label: String)
    ensures
        label@ == layer_label_text(namespace@, index as nat),
{
    let mut label = "__startup_tree_".to_owned();
    label.append(namespace);
    label.append("_layer_");
    let number = decimal(index as u64);
    label.append(number.as_str());
    label
}

/// The labels of the layers of a tree: one for each of `count` layers, in
/// order, all with the same namespace.
pub open spec fn layer_labels_text(namespace: Seq<char>, count: nat) -> Seq<Seq<char>> {
    Seq::new(count, |index: int| layer_label_text(namespace, index as nat))
}

/// The labels of the `count` layers of the tree that was given `namespace`,
/// layer 0 first.
pub fn layer_labels(namespace: &str, count: usize) -> (labels: Vec<String>)
    ensures
        strings_text(labels@) == layer_labels_text(namespace@, count as nat),
{
    let mut labels: Vec<String> = Vec::new();
    let mut index: usize = 0;
    while index < count
        invariant
            index <= count,
            labels.len() == index,
            forall|i: int|
                0 <= i < index ==> (#[trigger] labels@[i])@ == layer_label_text(
                    namespace@,
                    i as nat,
                ),
        decreases count - index,
    {
        labels.push(layer_label(namespace, index));
        index += 1;
    }
    assert(strings_text(labels@) =~= layer_labels_text(namespace@, count as nat));
    labels
}

/// The set that the systems of one layer of a startup tree run in, named by
/// the layer's label.
#[derive(Clone, Copy, Debug, Hash, PartialEq, Eq)]
pub struct StartupTreeLayer(pub &'static str);

impl StartupTreeLayer {
    /// The layer's label.
    pub fn label(&self) -> (label: &'static str)
        ensures
            label@ == self.0@,
    {
        self.0
    }
}

/// Generates the labels of a number of stages.
#[derive(Clone, Copy, Debug, PartialEq, Eq, Structural)]
pub struct StageLabelGenerator(pub u32);

/// What `syn` reads when it parses `tokens` as one integer literal and the
/// literal as a `u32` in base 10: the number, or the message of its error.
pub uninterp spec fn u32_literal(tokens: Seq<TokenTree>) -> Result<u32, Seq<char>>;

/// `read` is what [`u32_literal`] named: the number, or an error of kind
/// `Value` with the message.
pub open spec fn number_read(read: Result<u32, ParseError>, named: Result<u32, Seq<char>>) -> bool {
    match read {
        Ok(number) => named == Ok::<u32, Seq<char>>(number),
        Err(error) => error.kind matches ParseErrorKind::Value(message) && named == Err::<
            u32,
            Seq<char>,
        >(message@),
    }
}

/// Has `syn` parse the whole of `input` as a `LitInt` (`syn::parse2`) and
/// the literal as a `u32` (`LitInt::base10_parse`). The result is what
/// [`u32_literal`] names; an error keeps its message and its span.
#[verifier::external_body]
fn parse_u32_literal(input: &proc_macro2::TokenStream) -> (read: Result<u32, ParseError>)
    ensures
        number_read(read, u32_literal(stream_tokens(*input))),
{
    let literal = syn::parse2::<syn::LitInt>(input.clone());
    match literal.and_then(|literal| literal.base10_parse::<u32>()) {
        Ok(number) => Ok(number),
        Err(error) => Err(
            ParseError { kind: ParseErrorKind::Value(error.to_string()), span: error.span() },
        ),
    }
}

/// The labels of the first `count` stages, in order.
pub open spec fn stage_labels(count: nat) -> Seq<Seq<char>> {
    Seq::new(count, |index: int| stage_label_text(index as nat))
}

/// The string literals of `labels`.
pub open spec fn label_literals(labels: Seq<Seq<char>>) -> Seq<Seq<TokenTree>> {
    labels.map_values(|label: Seq<char>| seq![TokenTree::Literal(string_literal_text(label))])
}

/// The text of each of the strings.
pub open spec fn strings_text(strings: Seq<String>) -> Seq<Seq<char>> {
    strings.map_values(|string: String| string@)
}

impl StageLabelGenerator {
    /// Parses the number of stages: one integer literal that fits a `u32`.
    pub fn parse(input: &proc_macro2::TokenStream) -> (read: Result<StageLabelGenerator, ParseError>)
        ensures
            match read {
                Ok(generator) => u32_literal(stream_tokens(*input)) == Ok::<u32, Seq<char>>(
                    generator.0,
                ),
                Err(error) => number_read(
                    Err::<u32, ParseError>(error),
                    u32_literal(stream_tokens(*input)),
                ),
            },
    {
        match parse_u32_literal(input) {
            Ok(number) => Ok(StageLabelGenerator(number)),
            Err(error) => Err(error),
        }
    }

    /// The labels of the stages, stage 0 first.
    pub fn labels(&self) -> (labels: Vec<String>)
        ensures
            strings_text(labels@) == stage_labels(self.0 as nat),
    {
        let mut labels: Vec<String> = Vec::new();
        let mut index: u32 = 0;
        while index < self.0
            invariant
                index <= self.0,
                labels.len() == index,
                forall|i: int| 0 <= i < index ==> (#[trigger] labels@[i])@ == stage_label_text(i as nat),
            decreases self.0 - index,
        {
            let mut label = "__startup_tree_stage_".to_owned();
            let number = decimal(index as u64);
            label.append(number.as_str());
            labels.push(label);
            index += 1;
        }
        assert(strings_text(labels@) =~= stage_labels(self.0 as nat));
        labels
    }

    /// Writes the labels as an array of string literals: `["label", ...]`.
    pub fn to_tokens(&self) -> (stream: proc_macro2::TokenStream)
        ensures
            stream_tokens(stream) == seq![
                TokenTree::Group(
                    Delim::Bracket,
                    join_with_commas(label_literals(stage_labels(self.0 as nat))),
                ),
            ],
    {
        let labels = self.labels();
        let ghost literals = label_literals(stage_labels(self.0 as nat));
        let mut rendered: Vec<proc_macro2::TokenStream> = Vec::new();
        let mut index: usize = 0;
        while index < labels.len()
            invariant
                index <= labels.len(),
                labels.len() == self.0,
                strings_text(labels@) == stage_labels(self.0 as nat),
                literals == label_literals(stage_labels(self.0 as nat)),
                rendered.len() == index,
                forall|i: int|
                    0 <= i < index ==> stream_tokens(#[trigger] rendered@[i]) == literals[i],
            decreases labels.len() - index,
        {
            let mut literal = new_stream();
            push_string_literal(&mut literal, labels[index].as_str());
            proof {
                assert(strings_text(labels@)[index as int] == labels@[index as int]@);
                assert(stream_tokens(literal) =~= literals[index as int]);
            }
            rendered.push(literal);
            index += 1;
        }
        proof {
            assert(strings_text(labels@).len() == labels.len());
            assert(streams_tokens(rendered@) =~= literals);
        }
        let mut stream = new_stream();
        push_group(&mut stream, Delim::Bracket, join_streams(&rendered));
        assert(stream_tokens(stream) =~= seq![
            TokenTree::Group(Delim::Bracket, join_with_commas(literals)),
        ]);
        stream
    }
}

} // verus!
