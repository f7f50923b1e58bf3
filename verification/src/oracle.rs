//! The syntax oracle: the parsers and the highlight queries of tree-sitter.
//!
//! Everything here is taken on trust. For each language that is highlighted
//! there is one function from the bytes of a piece of code to what
//! tree-sitter finds in it, and a name for that result: tree-sitter reads
//! nothing but the code, the grammar and the query, so the same code always
//! gives the same result. What the result is for a given piece of code is
//! said nowhere.

use crate::highlight::{capture_views, Capture};
use streaming_iterator::StreamingIterator;
use tree_sitter::{Language, Parser, Query, QueryCursor};
use vstd::prelude::*;

verus! {

/// What the oracle gives for a piece of code, as plain values.
///
/// - `Ok(Some(captures))`: the captures of the highlight query, in the order
///   in which they were found, each as its name and the byte range of its
///   node.
/// - `Ok(None)`: the parser gave no tree.
/// - `Err(None)`: the parser refused the grammar.
/// - `Err(Some(message))`: the highlight query did not compile.
pub open spec fn found_view(found: Result<Option<Vec<Capture>>, Option<String>>) -> Result<
    Option<Seq<(Seq<u8>, usize, usize)>>,
    Option<Seq<char>>,
> {
    match found {
        Ok(Some(captures)) => Ok(Some(capture_views(captures@))),
        Ok(None) => Ok(None),
        Err(Some(message)) => Err(Some(message@)),
        Err(None) => Err(None),
    }
}

/// What `query_rust` gives for `content`.
pub uninterp spec fn rust_highlights(content: Seq<u8>) -> Result<
    Option<Seq<(Seq<u8>, usize, usize)>>,
    Option<Seq<char>>,
>;

/// What `query_java` gives for `content`.
pub uninterp spec fn java_highlights(content: Seq<u8>) -> Result<
    Option<Seq<(Seq<u8>, usize, usize)>>,
    Option<Seq<char>>,
>;

/// What `query_python` gives for `content`.
pub uninterp spec fn python_highlights(content: Seq<u8>) -> Result<
    Option<Seq<(Seq<u8>, usize, usize)>>,
    Option<Seq<char>>,
>;

/// Highlights Rust code with tree-sitter. A parser (`Parser::new`) is given
/// the grammar `tree_sitter_rust::LANGUAGE` (`Parser::set_language`) and
/// parses `content` (`Parser::parse`); the query
/// `tree_sitter_rust::HIGHLIGHTS_QUERY` is compiled for the grammar
/// (`Query::new`) and its matches are walked over the tree from its root
/// (`QueryCursor::new`, `QueryCursor::matches`, `Tree::root_node`, `next` of
/// the streaming iterator). Each capture of each match
/// (`QueryMatch::captures`) is handed out as its name in the query
/// (`Query::capture_names`) and the byte range of its node
/// (`Node::byte_range`). The errors are `None` for a grammar that the parser
/// refuses and the field `message` of the `QueryError` for a query that does
/// not compile. The one claim: the result depends on `content` alone.
#[verifier::external_body]
pub(crate) fn query_rust(content: &[u8]) -> (found: Result<Option<Vec<Capture>>, Option<String>>)
    ensures
        found_view(found) == rust_highlights(content@),
{
    let grammar = Language::new(tree_sitter_rust::LANGUAGE);
    let mut parser = Parser::new();
    parser.set_language(&grammar).or(Err(None))?;
    let Some(tree) = parser.parse(content, None) else { return Ok(None) };
    let query = Query::new(&grammar, tree_sitter_rust::HIGHLIGHTS_QUERY).map_err(|e| e.message)?;
    let mut cursor = QueryCursor::new();
    let mut matches = cursor.matches(&query, tree.root_node(), content);
    let mut captures = vec![];
    while let Some(found) = matches.next() {
        for capture in found.captures() {
            let name = query.capture_names()[capture.index as usize].into();
            captures.push(Capture(name, capture.node.byte_range()));
        }
    }
    Ok(Some(captures))
}

/// Highlights Java code with tree-sitter, as `query_rust` does Rust code,
/// with the grammar `tree_sitter_java::LANGUAGE` and the query
/// `tree_sitter_java::HIGHLIGHTS_QUERY`. The one claim: the result depends on
/// `content` alone.
#[verifier::external_body]
pub(crate) fn query_java(content: &[u8]) -> (found: Result<Option<Vec<Capture>>, Option<String>>)
    ensures
        found_view(found) == java_highlights(content@),
{
    let grammar = Language::new(tree_sitter_java::LANGUAGE);
    let mut parser = Parser::new();
    parser.set_language(&grammar).or(Err(None))?;
    let Some(tree) = parser.parse(content, None) else { return Ok(None) };
    let query = Query::new(&grammar, tree_sitter_java::HIGHLIGHTS_QUERY).map_err(|e| e.message)?;
    let mut cursor = QueryCursor::new();
    let mut matches = cursor.matches(&query, tree.root_node(), content);
    let mut captures = vec![];
    while let Some(found) = matches.next() {
        for capture in found.captures() {
            let name = query.capture_names()[capture.index as usize].into();
            captures.push(Capture(name, capture.node.byte_range()));
        }
    }
    Ok(Some(captures))
}

/// Highlights Python code with tree-sitter, as `query_rust` does Rust code,
/// with the grammar `tree_sitter_python::LANGUAGE` and the query
/// `tree_sitter_python::HIGHLIGHTS_QUERY`. The one claim: the result depends
/// on `content` alone.
#[verifier::external_body]
pub(crate) fn query_python(content: &[u8]) -> (found: Result<Option<Vec<Capture>>, Option<String>>)
    ensures
        found_view(found) == python_highlights(content@),
{
    let grammar = Language::new(tree_sitter_python::LANGUAGE);
    let mut parser = Parser::new();
    parser.set_language(&grammar).or(Err(None))?;
    let Some(tree) = parser.parse(content, None) else { return Ok(None) };
    let query = Query::new(&grammar, tree_sitter_python::HIGHLIGHTS_QUERY).map_err(|e| e.message)?;
    let mut cursor = QueryCursor::new();
    let mut matches = cursor.matches(&query, tree.root_node(), content);
    let mut captures = vec![];
    while let Some(found) = matches.next() {
        for capture in found.captures() {
            let name = query.capture_names()[capture.index as usize].into();
            captures.push(Capture(name, capture.node.byte_range()));
        }
    }
    Ok(Some(captures))
}

} // verus!
