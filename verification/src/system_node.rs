//! The value of a branch in a tree of systems: the path of a system, and
//! the name that holds what the system gives back.

use crate::rng::{is_slug, NodeRng};
use crate::tokens::{
    is_ident_continue, is_plain_ident, is_plain_ident_text, stream_text, stream_tokens,
    tokens_text, TokenTree,
};
use vstd::prelude::*;
use vstd::string::StringExecFns;

verus! {

/// What `syn` reads as the segments of the path that `tokens` are: the
/// text of each segment's identifier, or nothing where the tokens are no
/// path.
pub uninterp spec fn path_segments(tokens: Seq<TokenTree>) -> Option<Seq<Seq<char>>>;

/// The text of each of the strings.
pub open spec fn names_text(names: Seq<String>) -> Seq<Seq<char>> {
    names.map_values(|name: String| name@)
}

/// Has `syn` parse the whole of `path` as a `Path` (`syn::parse2`) and
/// gives the text of the identifier of each of its segments. The result is
/// what [`path_segments`] names.
#[verifier::external_body]
fn path_segment_names(path: &proc_macro2::TokenStream) -> (names: Option<Vec<String>>)
    ensures
        match names {
            Some(names) => path_segments(stream_tokens(*path)) == Some(names_text(names@)),
            None => path_segments(stream_tokens(*path)) is None,
        },
{
    let path = syn::parse2::<syn::Path>(path.clone()).ok()?;
    Some(path.segments.iter().map(|segment| segment.ident.to_string()).collect())
}

/// The segments of a path, each behind an underscore: `_a_b` for `a::b`.
pub open spec fn segments_suffix(segments: Seq<Seq<char>>) -> Seq<char>
    decreases segments.len(),
{
    if segments.len() == 0 {
        Seq::empty()
    } else {
        segments_suffix(segments.drop_last()).push('_') + segments.last()
    }
}

/// The name that holds the output of a system: `__sysout__`, the slug, an
/// underscore, and the segments of the system's path, each behind an
/// underscore. For the path `a::b` and the slug `x1y2z3` it is
/// `__sysout__x1y2z3__a_b`.
pub open spec fn binding_name(slug: Seq<char>, segments: Seq<Seq<char>>) -> Seq<char> {
    ("__sysout__"@ + slug).push('_') + segments_suffix(segments)
}

/// One value of a tree of systems: the path of a system and the name that
/// holds the system's output.
#[derive(Debug)]
pub struct SystemNode {
    system_path: proc_macro2::TokenStream,
    system_output_ident: String,
}

/// Whether `node` is what the path `path` and the slug `slug` give: a
/// node with the binding name made of the two where the tokens are a path
/// and the name is an identifier, and no node otherwise.
pub open spec fn node_made(node: Option<SystemNode>, path: Seq<TokenTree>, slug: Seq<char>) -> bool {
    match path_segments(path) {
        Some(segments) => if is_plain_ident(binding_name(slug, segments)) {
            &&& node is Some
            &&& node->Some_0.path_tokens() == path
            &&& node->Some_0.output_name() == binding_name(slug, segments)
        } else {
            node is None
        },
        None => node is None,
    }
}

impl SystemNode {
    /// The binding name is an identifier.
    #[verifier::type_invariant]
    spec fn holds_an_identifier(self) -> bool {
        is_plain_ident(self.system_output_ident@)
    }

    /// The tokens of the system's path.
    pub closed spec fn path_tokens(self) -> Seq<TokenTree> {
        stream_tokens(self.system_path)
    }

    /// The name that holds the system's output.
    pub closed spec fn output_name(self) -> Seq<char> {
        self.system_output_ident@
    }

    /// The node of the system at `path`, its binding name made with `slug`.
    pub fn with_slug(path: proc_macro2::TokenStream, slug: &str) -> (node: Option<SystemNode>)
        ensures
            node_made(node, stream_tokens(path), slug@),
    {
        let names = match path_segment_names(&path) {
            Some(names) => names,
            None => {
                return None;
            },
        };
        let ghost segments = names_text(names@);
        let mut output = "__sysout__".to_owned();
        output.append(slug);
        output.append("_");
        proof {
            reveal_strlit("_");
            assert(output@ =~= ("__sysout__"@ + slug@).push('_') + segments_suffix(
                segments.take(0),
            ));
        }
        let mut index: usize = 0;
        while index < names.len()
            invariant
                index <= names.len(),
                segments == names_text(names@),
                output@ == ("__sysout__"@ + slug@).push('_') + segments_suffix(
                    segments.take(index as int),
                ),
            decreases names.len() - index,
        {
            proof {
                reveal_strlit("_");
                assert(segments.take(index + 1).drop_last() =~= segments.take(index as int));
                assert(segments.take(index + 1).last() == names@[index as int]@);
            }
            let ghost before = output@;
            output.append("_");
            output.append(names[index].as_str());
            proof {
                assert(output@ =~= ("__sysout__"@ + slug@).push('_') + segments_suffix(
                    segments.take(index + 1),
                ));
            }
            index += 1;
        }
        proof {
            assert(segments.take(index as int) =~= segments);
        }
        if !is_plain_ident_text(output.as_str()) {
            return None;
        }
        Some(SystemNode { system_path: path, system_output_ident: output })
    }

    /// The node of the system at `path`, its binding name made with six
    /// characters drawn from `rng`.
    pub fn new(path: proc_macro2::TokenStream, rng: &mut NodeRng) -> (node: Option<SystemNode>)
        ensures
            exists|slug: Seq<char>| is_slug(slug) && node_made(node, stream_tokens(path), slug),
    {
        let slug = rng.slug();
        SystemNode::with_slug(path, slug.as_str())
    }

    /// The tokens of the system's path.
    pub fn system_path(&self) -> (path: &proc_macro2::TokenStream)
        ensures
            stream_tokens(*path) == self.path_tokens(),
    {
        &self.system_path
    }

    /// The node as it is written out for reading: the binding name, and
    /// directly behind it the path.
    pub fn display_text(&self) -> (text: String)
        ensures
            text@ == self.output_name() + tokens_text(self.path_tokens()),
    {
        let mut text = self.system_output_ident.clone();
        let path = stream_text(&self.system_path);
        text.append(path.as_str());
        text
    }

    /// The name that holds the system's output, which is an identifier.
    pub fn system_output_ident(&self) -> (name: &str)
        ensures
            name@ == self.output_name(),
            is_plain_ident(name@),
    {
        proof {
            use_type_invariant(self);
        }
        self.system_output_ident.as_str()
    }
}

impl Clone for SystemNode {
    /// A node with the same path and the same binding name.
    fn clone(&self) -> (copy: Self)
        ensures
            copy.path_tokens() == self.path_tokens(),
            copy.output_name() == self.output_name(),
    {
        proof {
            use_type_invariant(self);
        }
        SystemNode {
            system_path: self.system_path.clone(),
            system_output_ident: self.system_output_ident.clone(),
        }
    }
}

/// `String::hash`: feeds the text to the hasher. Nothing is claimed of what
/// the hasher makes of it.
pub assume_specification<H: std::hash::Hasher>[ <String as std::hash::Hash>::hash ](
    text: &String,
    state: &mut H,
);

impl std::hash::Hash for SystemNode {
    /// A node is hashed by its binding name alone, as it is compared.
    fn hash<H: std::hash::Hasher>(&self, state: &mut H) {
        self.system_output_ident.hash(state);
    }
}

impl PartialEq for SystemNode {
    /// Two nodes are equal when they have the same binding name, whatever
    /// their paths: two nodes made apart for one path are two nodes.
    fn eq(&self, other: &Self) -> (same: bool) {
        self.system_output_ident == other.system_output_ident
    }
}

impl Eq for SystemNode {

}

impl vstd::std_specs::cmp::PartialEqSpecImpl for SystemNode {
    open spec fn obeys_eq_spec() -> bool {
        true
    }

    open spec fn eq_spec(&self, other: &Self) -> bool {
        self.output_name() == other.output_name()
    }
}

/// Whether every character of every segment can stand inside an
/// identifier.
pub open spec fn plain_segments(segments: Seq<Seq<char>>) -> bool {
    forall|i: int, k: int|
        0 <= i < segments.len() && 0 <= k < segments[i].len() ==> is_ident_continue(
            #[trigger] segments[i][k],
        )
}

/// Whether the tokens are a path that a binding name can be made of.
pub open spec fn bindable(path: Seq<TokenTree>) -> bool {
    match path_segments(path) {
        Some(segments) => plain_segments(segments),
        None => false,
    }
}

/// Whether the node has the binding name that its path and some slug give.
pub open spec fn named(node: SystemNode) -> bool {
    exists|slug: Seq<char>| is_slug(slug) && node_made(Some(node), node.path_tokens(), slug)
}

proof fn lemma_suffix_plain(segments: Seq<Seq<char>>)
    ensures
        plain_segments(segments) <==> (forall|k: int|
            0 <= k < segments_suffix(segments).len() ==> is_ident_continue(
                #[trigger] segments_suffix(segments)[k],
            )),
    decreases segments.len(),
{
    let suffix = segments_suffix(segments);
    if segments.len() > 0 {
        let shorter = segments.drop_last();
        let before = segments_suffix(shorter);
        let last = segments.last();
        lemma_suffix_plain(shorter);
        assert(suffix =~= before.push('_') + last);
        if plain_segments(segments) {
            assert forall|i: int, k: int|
                0 <= i < shorter.len() && 0 <= k < shorter[i].len() implies is_ident_continue(
                #[trigger] shorter[i][k],
            ) by {
                assert(shorter[i][k] == segments[i][k]);
            }
            assert forall|k: int| 0 <= k < suffix.len() implies is_ident_continue(
                #[trigger] suffix[k],
            ) by {
                if k < before.len() {
                    assert(suffix[k] == before[k]);
                } else if k > before.len() {
                    assert(suffix[k] == last[k - before.len() - 1]);
                    assert(is_ident_continue(segments[segments.len() - 1][k - before.len() - 1]));
                }
            }
        }
        if forall|k: int| 0 <= k < suffix.len() ==> is_ident_continue(#[trigger] suffix[k]) {
            assert forall|k: int| 0 <= k < before.len() implies is_ident_continue(
                #[trigger] before[k],
            ) by {
                assert(suffix[k] == before[k]);
            }
            assert forall|i: int, k: int|
                0 <= i < segments.len() && 0 <= k < segments[i].len() implies is_ident_continue(
                #[trigger] segments[i][k],
            ) by {
                if i < shorter.len() {
                    assert(segments[i][k] == shorter[i][k]);
                } else {
                    assert(suffix[before.len() + 1 + k] == last[k]);
                }
            }
        }
    }
}

/// With a slug of letters and digits, the binding name is an identifier
/// exactly when the segments of the path are made of characters that can
/// stand inside one.
pub proof fn lemma_binding_name_plain(slug: Seq<char>, segments: Seq<Seq<char>>)
    requires
        is_slug(slug),
    ensures
        is_plain_ident(binding_name(slug, segments)) <==> plain_segments(segments),
{
    reveal_strlit("__sysout__");
    let head = ("__sysout__"@ + slug).push('_');
    let suffix = segments_suffix(segments);
    let name = binding_name(slug, segments);
    lemma_suffix_plain(segments);
    assert(head.len() == 17);
    assert(name[0] == '_');
    assert forall|k: int| 0 <= k < head.len() implies is_ident_continue(#[trigger] head[k]) by {
        if 10 <= k < 16 {
            assert(head[k] == slug[k - 10]);
        }
    }
    if plain_segments(segments) {
        assert forall|k: int| 0 < k < name.len() implies is_ident_continue(#[trigger] name[k]) by {
            if k < head.len() {
                assert(name[k] == head[k]);
            } else {
                assert(name[k] == suffix[k - head.len()]);
            }
        }
    }
    if is_plain_ident(name) {
        assert forall|k: int| 0 <= k < suffix.len() implies is_ident_continue(
            #[trigger] suffix[k],
        ) by {
            assert(name[k + head.len()] == suffix[k]);
        }
    }
}

} // verus!
