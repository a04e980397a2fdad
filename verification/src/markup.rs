//! The answer list of a puzzle page: the words that stand, as text, inside
//! the element that is marked as the answer list.

use crate::text::{same_text, texts, to_chars, to_string, trim, trimmed};
use vstd::prelude::*;

verus! {

/// An attribute of an element.
pub struct Attribute {
    pub name: String,
    pub value: String,
}

/// What a node of a page is.
pub enum NodeData {
    /// A piece of text.
    Text(String),
    /// An element with its name and attributes.
    Element { name: String, attrs: Vec<Attribute> },
    /// Any other node: the document itself, a comment, a doctype.
    Other,
}

/// A node of a page, with the nodes below it.
pub struct Node {
    pub data: NodeData,
    pub children: Vec<Node>,
}

/// The attribute that marks the answer list.
pub open spec fn marks_list(attr: Attribute) -> bool {
    attr.name@ == "id"@ && attr.value@ == "main-answer-list"@
}

/// One of `attrs` marks the answer list.
pub open spec fn opens_list(attrs: Seq<Attribute>) -> bool {
    exists|i: int| 0 <= i < attrs.len() && marks_list(#[trigger] attrs[i])
}

/// `words` after the text `content` was met: inside the list, the text
/// without the white space around it is a word, unless nothing is left of
/// it; a pangram goes to the front, any other word to the end.
pub open spec fn taken(words: Seq<Seq<char>>, content: Seq<char>, in_list: bool, pangram: bool) -> Seq<
    Seq<char>,
> {
    let word = trimmed(content);
    if in_list && word.len() > 0 {
        if pangram {
            seq![word] + words
        } else {
            words.push(word)
        }
    } else {
        words
    }
}

/// `words` after the walk through the first `n` children of `node`.
pub open spec fn walked_children(
    node: Node,
    n: nat,
    words: Seq<Seq<char>>,
    in_list: bool,
    pangram: bool,
) -> Seq<Seq<char>>
    decreases node, n,
{
    if n == 0 || n > node.children.len() {
        words
    } else {
        walked(
            node.children[n - 1],
            walked_children(node, (n - 1) as nat, words, in_list, pangram),
            in_list,
            pangram,
        )
    }
}

/// `words` after the walk through `node` and all below it, in document
/// order. `in_list` says that the node is inside the answer list, `pangram`
/// that it is inside an emphasized part of it. An element with the
/// attribute that marks the list puts all below it inside the list; inside
/// the list, a `strong` element puts all below it inside a pangram.
pub open spec fn walked(node: Node, words: Seq<Seq<char>>, in_list: bool, pangram: bool) -> Seq<
    Seq<char>,
>
    decreases node, node.children.len() + 1,
{
    match node.data {
        NodeData::Text(content) => walked_children(
            node,
            node.children.len() as nat,
            taken(words, content@, in_list, pangram),
            in_list,
            pangram,
        ),
        NodeData::Element { name, attrs } => walked_children(
            node,
            node.children.len() as nat,
            words,
            in_list || opens_list(attrs@),
            pangram || (in_list && name@ == "strong"@),
        ),
        NodeData::Other => walked_children(
            node,
            node.children.len() as nat,
            words,
            in_list,
            pangram,
        ),
    }
}

/// Whether one of `attrs` marks the answer list.
fn has_list_mark(attrs: &Vec<Attribute>) -> (r: bool)
    ensures
        r == opens_list(attrs@),
{
    let mut i: usize = 0;
    while i < attrs.len()
        invariant
            i <= attrs.len(),
            forall|k: int| 0 <= k < i ==> !marks_list(#[trigger] attrs@[k]),
        decreases attrs.len() - i,
    {
        if same_text(attrs[i].name.as_str(), "id") && same_text(
            attrs[i].value.as_str(),
            "main-answer-list",
        ) {
            return true;
        }
        i += 1;
    }
    false
}

/// Walks through `node` and all below it and adds the words of the answer
/// list to `words`.
pub fn walk(node: &Node, words: &mut Vec<String>, in_list: bool, pangram: bool)
    ensures
        texts(final(words)@) == walked(*node, texts(old(words)@), in_list, pangram),
    decreases node,
{
    let mut inside = in_list;
    let mut whole = pangram;
    match &node.data {
        NodeData::Text(content) => {
            if in_list {
                let word = trim(&to_chars(content.as_str()));
                if word.len() > 0 {
                    let ghost before = words@;
                    let text = to_string(&word);
                    if pangram {
                        words.insert(0, text);
                        proof {
                            assert(texts(words@) =~= seq![word@] + texts(before));
                        }
                    } else {
                        words.push(text);
                        proof {
                            assert(texts(words@) =~= texts(before).push(word@));
                        }
                    }
                }
            }
        },
        NodeData::Element { name, attrs } => {
            if in_list && same_text(name.as_str(), "strong") {
                whole = true;
            }
            if has_list_mark(attrs) {
                inside = true;
            }
        },
        NodeData::Other => {},
    }
    let ghost start = texts(words@);
    let mut i: usize = 0;
    while i < node.children.len()
        invariant
            i <= node.children.len(),
            texts(words@) == walked_children(*node, i as nat, start, inside, whole),
        decreases node.children.len() - i,
    {
        walk(&node.children[i], words, inside, whole);
        i += 1;
    }
}

} // verus!
