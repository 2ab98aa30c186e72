//! Token streams, their mathematical model, and the few operations on them
//! that the grammar and the code generators are built from.
//!
//! A `proc_macro2::TokenStream` is opaque to the verifier. Its contents are
//! named by [`stream_tokens`], a sequence of [`TokenTree`] values, and every
//! operation below states what it does over that sequence.

use vstd::prelude::*;
use vstd::string::StrSliceExecFns;

verus! {

/// The delimiter of a token group.
#[derive(Clone, Copy, Debug, PartialEq, Eq, Structural)]
pub enum Delim {
    Paren,
    Brace,
    Bracket,
    /// A group without visible delimiters.
    Invisible,
}

/// Whether a punctuation character is directly followed by another one.
#[derive(Clone, Copy, Debug, PartialEq, Eq, Structural)]
pub enum Spacing {
    Alone,
    Joint,
}

/// The model of one token: what a token stream holds, without spans.
pub ghost enum TokenTree {
    /// An identifier, by its text.
    Ident(Seq<char>),
    /// One punctuation character.
    Punct(char, Spacing),
    /// A literal, by its source text.
    Literal(Seq<char>),
    /// A delimited group and the tokens inside it.
    Group(Delim, Seq<TokenTree>),
}

#[verifier::external_type_specification]
#[verifier::external_body]
pub struct ExTokenStream(proc_macro2::TokenStream);

#[verifier::external_type_specification]
#[verifier::external_body]
pub struct ExSpan(proc_macro2::Span);

/// The tokens that a stream holds, in order.
pub uninterp spec fn stream_tokens(stream: proc_macro2::TokenStream) -> Seq<TokenTree>;

/// The source text of the string literal that stands for `text`.
pub uninterp spec fn string_literal_text(text: Seq<char>) -> Seq<char>;

/// The text that a sequence of tokens is printed as.
pub uninterp spec fn tokens_text(tokens: Seq<TokenTree>) -> Seq<char>;

/// One token taken out of a stream. A group carries its inner stream.
#[derive(Clone, Debug)]
pub enum Lexeme {
    Ident(String),
    Punct(char, Spacing),
    Literal(String),
    Group(Delim, proc_macro2::TokenStream),
}

impl Lexeme {
    /// The token that this lexeme stands for.
    pub open spec fn model(self) -> TokenTree {
        match self {
            Lexeme::Ident(name) => TokenTree::Ident(name@),
            Lexeme::Punct(ch, spacing) => TokenTree::Punct(ch, spacing),
            Lexeme::Literal(text) => TokenTree::Literal(text@),
            Lexeme::Group(delim, inner) => TokenTree::Group(delim, stream_tokens(inner)),
        }
    }
}

/// The characters that can stand in a punctuation token.
pub open spec fn is_punct_char(ch: char) -> bool {
    ||| ch == '!' ||| ch == '#' ||| ch == '$' ||| ch == '%' ||| ch == '&'
    ||| ch == '\'' ||| ch == '*' ||| ch == '+' ||| ch == ',' ||| ch == '-'
    ||| ch == '.' ||| ch == '/' ||| ch == ':' ||| ch == ';' ||| ch == '<'
    ||| ch == '=' ||| ch == '>' ||| ch == '?' ||| ch == '@' ||| ch == '^'
    ||| ch == '|' ||| ch == '~'
}

/// An ASCII letter or an underscore.
pub open spec fn is_ident_start(ch: char) -> bool {
    ('a' <= ch && ch <= 'z') || ('A' <= ch && ch <= 'Z') || ch == '_'
}

/// An ASCII letter, an ASCII digit or an underscore.
pub open spec fn is_ident_continue(ch: char) -> bool {
    is_ident_start(ch) || ('0' <= ch && ch <= '9')
}

/// A non-empty ASCII identifier: a letter or underscore, then letters,
/// digits and underscores.
pub open spec fn is_plain_ident(name: Seq<char>) -> bool {
    &&& name.len() > 0
    &&& is_ident_start(name[0])
    &&& forall|i: int| 0 < i < name.len() ==> is_ident_continue(#[trigger] name[i])
}

/// The two tokens of `=>`.
pub open spec fn fat_arrow() -> Seq<TokenTree> {
    seq![TokenTree::Punct('=', Spacing::Joint), TokenTree::Punct('>', Spacing::Alone)]
}

/// The token of `,`.
pub open spec fn comma() -> TokenTree {
    TokenTree::Punct(',', Spacing::Alone)
}

/// The two tokens of `::`.
pub open spec fn path_sep() -> Seq<TokenTree> {
    seq![TokenTree::Punct(':', Spacing::Joint), TokenTree::Punct(':', Spacing::Alone)]
}

/// The token sequences of `items` with a comma between each two.
pub open spec fn join_with_commas(items: Seq<Seq<TokenTree>>) -> Seq<TokenTree>
    decreases items.len(),
{
    if items.len() == 0 {
        Seq::empty()
    } else if items.len() == 1 {
        items[0]
    } else {
        join_with_commas(items.drop_last()).push(comma())
            + items.last()
    }
}

/// The tokens of each of the streams.
pub open spec fn streams_tokens(items: Seq<proc_macro2::TokenStream>) -> Seq<Seq<TokenTree>> {
    items.map_values(|item: proc_macro2::TokenStream| stream_tokens(item))
}

/// `TokenStream::new`: a stream without tokens.
#[verifier::external_body]
pub(crate) fn new_stream() -> (stream: proc_macro2::TokenStream)
    ensures
        stream_tokens(stream) == Seq::<TokenTree>::empty(),
{
    proc_macro2::TokenStream::new()
}

/// `TokenStream::clone`: a second stream of the same tokens.
pub assume_specification[ <proc_macro2::TokenStream as Clone>::clone ](
    stream: &proc_macro2::TokenStream,
) -> (copy: proc_macro2::TokenStream)
    ensures
        stream_tokens(copy) == stream_tokens(*stream),
;

/// Counts what `TokenStream::into_iter` yields: the number of tokens at the
/// top level of the stream.
#[verifier::external_body]
pub(crate) fn token_count(stream: &proc_macro2::TokenStream) -> (count: usize)
    ensures
        count == stream_tokens(*stream).len(),
{
    stream.clone().into_iter().count()
}

/// The token that `TokenStream::into_iter` yields at `index`, as plain
/// values, or nothing when the stream is shorter.
#[verifier::external_body]
pub(crate) fn token_at(stream: &proc_macro2::TokenStream, index: usize) -> (token: Option<Lexeme>)
    ensures
        index < stream_tokens(*stream).len() ==> token.is_some() && token.unwrap().model()
            == stream_tokens(*stream)[index as int],
        index >= stream_tokens(*stream).len() ==> token.is_none(),
{
    Some(match stream.clone().into_iter().nth(index)? {
        proc_macro2::TokenTree::Ident(ident) => Lexeme::Ident(ident.to_string()),
        proc_macro2::TokenTree::Literal(literal) => Lexeme::Literal(literal.to_string()),
        proc_macro2::TokenTree::Punct(punct) => match punct.spacing() {
            proc_macro2::Spacing::Alone => Lexeme::Punct(punct.as_char(), Spacing::Alone),
            proc_macro2::Spacing::Joint => Lexeme::Punct(punct.as_char(), Spacing::Joint),
        },
        proc_macro2::TokenTree::Group(group) => Lexeme::Group(match group.delimiter() {
            proc_macro2::Delimiter::Parenthesis => Delim::Paren,
            proc_macro2::Delimiter::Brace => Delim::Brace,
            proc_macro2::Delimiter::Bracket => Delim::Bracket,
            proc_macro2::Delimiter::None => Delim::Invisible,
        }, group.stream()),
    })
}

/// The span of the token that `TokenStream::into_iter` yields at `index`
/// (`TokenTree::span`), or nothing when the stream is shorter. A span is
/// carried to the caller's diagnostics and nothing more is claimed of it.
#[verifier::external_body]
pub(crate) fn span_at(stream: &proc_macro2::TokenStream, index: usize) -> (span: Option<
    proc_macro2::Span,
>)
    ensures
        span is Some <==> index < stream_tokens(*stream).len(),
{
    stream.clone().into_iter().nth(index).map(|token| token.span())
}

/// The tokens that `TokenStream::into_iter` yields after the first `count`,
/// collected into a stream again.
#[verifier::external_body]
pub(crate) fn skip_tokens(stream: &proc_macro2::TokenStream, count: usize) -> (rest:
    proc_macro2::TokenStream)
    requires
        count <= stream_tokens(*stream).len(),
    ensures
        stream_tokens(rest) == stream_tokens(*stream).skip(count as int),
{
    stream.clone().into_iter().skip(count).collect()
}

/// Appends an identifier made by `Ident::new`, which accepts every
/// identifier of the language; it is called on plain ASCII ones only.
#[verifier::external_body]
pub(crate) fn push_ident(stream: &mut proc_macro2::TokenStream, name: &str)
    requires
        is_plain_ident(name@),
    ensures
        stream_tokens(*final(stream)) == stream_tokens(*old(stream)).push(TokenTree::Ident(name@)),
{
    let ident = proc_macro2::Ident::new(name, proc_macro2::Span::call_site());
    stream.extend([proc_macro2::TokenTree::Ident(ident)]);
}

/// Appends a punctuation token made by `Punct::new`, which accepts the
/// characters of [`is_punct_char`].
#[verifier::external_body]
pub(crate) fn push_punct(stream: &mut proc_macro2::TokenStream, ch: char, spacing: Spacing)
    requires
        is_punct_char(ch),
    ensures
        stream_tokens(*final(stream)) == stream_tokens(*old(stream)).push(
            TokenTree::Punct(ch, spacing),
        ),
{
    let punct = match spacing {
        Spacing::Alone => proc_macro2::Punct::new(ch, proc_macro2::Spacing::Alone),
        Spacing::Joint => proc_macro2::Punct::new(ch, proc_macro2::Spacing::Joint),
    };
    stream.extend([proc_macro2::TokenTree::Punct(punct)]);
}

/// Appends the string literal that `Literal::string` makes of `text`.
#[verifier::external_body]
pub(crate) fn push_string_literal(stream: &mut proc_macro2::TokenStream, text: &str)
    ensures
        stream_tokens(*final(stream)) == stream_tokens(*old(stream)).push(
            TokenTree::Literal(string_literal_text(text@)),
        ),
{
    let literal = proc_macro2::Literal::string(text);
    stream.extend([proc_macro2::TokenTree::Literal(literal)]);
}

/// Appends a group made by `Group::new` around the tokens of `inner`.
#[verifier::external_body]
pub(crate) fn push_group(
    stream: &mut proc_macro2::TokenStream,
    delim: Delim,
    inner: proc_macro2::TokenStream,
)
    ensures
        stream_tokens(*final(stream)) == stream_tokens(*old(stream)).push(
            TokenTree::Group(delim, stream_tokens(inner)),
        ),
{
    let delimiter = match delim {
        Delim::Paren => proc_macro2::Delimiter::Parenthesis,
        Delim::Brace => proc_macro2::Delimiter::Brace,
        Delim::Bracket => proc_macro2::Delimiter::Bracket,
        Delim::Invisible => proc_macro2::Delimiter::None,
    };
    stream.extend([proc_macro2::TokenTree::Group(proc_macro2::Group::new(delimiter, inner))]);
}

/// `TokenStream::extend` with another stream: appends its tokens.
#[verifier::external_body]
pub(crate) fn append_stream(stream: &mut proc_macro2::TokenStream, other: proc_macro2::TokenStream)
    ensures
        stream_tokens(*final(stream)) == stream_tokens(*old(stream)) + stream_tokens(other),
{
    stream.extend(other);
}

/// `TokenStream::to_string`: the text that the stream is printed as.
#[verifier::external_body]
pub(crate) fn stream_text(stream: &proc_macro2::TokenStream) -> (text: String)
    ensures
        text@ == tokens_text(stream_tokens(*stream)),
{
    stream.to_string()
}

/// Appends `::` and the identifier `name`.
pub fn push_path_segment(stream: &mut proc_macro2::TokenStream, name: &str)
    requires
        is_plain_ident(name@),
    ensures
        stream_tokens(*final(stream)) == stream_tokens(*old(stream)) + path_sep().push(
            TokenTree::Ident(name@),
        ),
{
    push_punct(stream, ':', Spacing::Joint);
    push_punct(stream, ':', Spacing::Alone);
    push_ident(stream, name);
    assert(stream_tokens(*stream) =~= stream_tokens(*old(stream)) + path_sep().push(
        TokenTree::Ident(name@),
    ));
}

/// Whether two lexemes stand for the same token.
pub fn lexemes_equal(left: &Lexeme, right: &Lexeme) -> (same: bool)
    ensures
        same == (left.model() == right.model()),
    decreases left.model(), 0nat,
{
    match (left, right) {
        (Lexeme::Ident(left_name), Lexeme::Ident(right_name)) => *left_name == *right_name,
        (Lexeme::Punct(left_ch, left_spacing), Lexeme::Punct(right_ch, right_spacing)) => {
            *left_ch == *right_ch && *left_spacing == *right_spacing
        },
        (Lexeme::Literal(left_text), Lexeme::Literal(right_text)) => *left_text == *right_text,
        (Lexeme::Group(left_delim, left_inner), Lexeme::Group(right_delim, right_inner)) => {
            assert(decreases_to!(left.model() => left.model()->Group_1));
            *left_delim == *right_delim && streams_equal(left_inner, right_inner)
        },
        _ => false,
    }
}

/// Whether two streams hold the same tokens, groups compared by what is
/// inside them. Spans play no part.
pub fn streams_equal(left: &proc_macro2::TokenStream, right: &proc_macro2::TokenStream) -> (same:
    bool)
    ensures
        same == (stream_tokens(*left) == stream_tokens(*right)),
    decreases stream_tokens(*left), 1nat,
{
    let count = token_count(left);
    if token_count(right) != count {
        return false;
    }
    let mut index: usize = 0;
    while index < count
        invariant
            index <= count,
            count == stream_tokens(*left).len(),
            count == stream_tokens(*right).len(),
            forall|i: int| 0 <= i < index ==> stream_tokens(*left)[i] == stream_tokens(*right)[i],
        decreases count - index,
    {
        match (token_at(left, index), token_at(right, index)) {
            (Some(left_token), Some(right_token)) => {
                if !lexemes_equal(&left_token, &right_token) {
                    return false;
                }
            },
            _ => {
                return false;
            },
        }
        index += 1;
    }
    assert(stream_tokens(*left) =~= stream_tokens(*right));
    true
}

/// Whether `name` is a non-empty ASCII identifier.
pub fn is_plain_ident_text(name: &str) -> (plain: bool)
    ensures
        plain == is_plain_ident(name@),
{
    let len = name.unicode_len();
    if len == 0 {
        return false;
    }
    let first = name.get_char(0);
    if !(('a' <= first && first <= 'z') || ('A' <= first && first <= 'Z') || first == '_') {
        return false;
    }
    let mut index: usize = 1;
    while index < len
        invariant
            1 <= index <= len,
            len == name@.len(),
            forall|i: int| 0 < i < index ==> is_ident_continue(#[trigger] name@[i]),
        decreases len - index,
    {
        let ch = name.get_char(index);
        if !(('a' <= ch && ch <= 'z') || ('A' <= ch && ch <= 'Z') || ch == '_' || ('0' <= ch && ch
            <= '9')) {
            return false;
        }
        index += 1;
    }
    true
}

/// The streams of `items` in one stream, a comma between each two.
pub fn join_streams(items: &Vec<proc_macro2::TokenStream>) -> (joined: proc_macro2::TokenStream)
    ensures
        stream_tokens(joined) == join_with_commas(streams_tokens(items@)),
{
    let ghost models = streams_tokens(items@);
    let mut joined = new_stream();
    let mut index: usize = 0;
    while index < items.len()
        invariant
            index <= items.len(),
            models == streams_tokens(items@),
            stream_tokens(joined) == join_with_commas(models.take(index as int)),
        decreases items.len() - index,
    {
        proof {
            assert(models.take(index + 1).drop_last() =~= models.take(index as int));
            assert(models.take(index + 1).last() == stream_tokens(items@[index as int]));
        }
        if index > 0 {
            push_punct(&mut joined, ',', Spacing::Alone);
        }
        append_stream(&mut joined, items[index].clone());
        proof {
            if index == 0 {
                assert(stream_tokens(joined) =~= models.take(index + 1)[0]);
            }
        }
        index += 1;
    }
    proof {
        assert(models.take(index as int) =~= models);
    }
    joined
}

} // verus!
