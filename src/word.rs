//! The words of the markup and the errors that compiling it can end in.
use vstd::prelude::*;

verus! {

/// Why compiling markup stopped. The first error met ends the compilation.
#[derive(Debug, Clone, Copy, PartialEq, Eq, Structural)]
pub enum CompileError {
    /// A word began like a text or a tag but was malformed.
    Grammar,
    /// A closing tag came while no tag was open.
    UnstartedTag,
    /// A closing tag named another tag than the innermost open one.
    MismatchedTag,
    /// The input ended while a tag was still open.
    UnclosedTag,
    /// Input remained that is no word at all.
    UnterminatedInput,
}

/// One classified unit of markup.
#[derive(Debug)]
pub enum Word {
    /// A literal text to display.
    Text(String),
    /// An opening tag with its `name = value` pairs in written order.
    TagOpen(String, Vec<(String, String)>),
    /// A closing tag.
    TagClose(String),
}

/// A word as a mathematical value.
pub enum WordView {
    Text(Seq<char>),
    TagOpen(Seq<char>, Seq<(Seq<char>, Seq<char>)>),
    TagClose(Seq<char>),
}

pub open spec fn strings_view(ss: Seq<String>) -> Seq<Seq<char>> {
    ss.map_values(|s: String| s@)
}

pub open spec fn pairs_view(ps: Seq<(String, String)>) -> Seq<(Seq<char>, Seq<char>)> {
    ps.map_values(|p: (String, String)| (p.0@, p.1@))
}

impl View for Word {
    type V = WordView;

    open spec fn view(&self) -> WordView {
        match self {
            Word::Text(t) => WordView::Text(t@),
            Word::TagOpen(n, attrs) => WordView::TagOpen(n@, pairs_view(attrs@)),
            Word::TagClose(n) => WordView::TagClose(n@),
        }
    }
}

pub open spec fn words_view(ws: Seq<Word>) -> Seq<WordView> {
    ws.map_values(|w: Word| w@)
}

/// A copy of a list of strings.
pub fn clone_strings(ss: &Vec<String>) -> (r: Vec<String>)
    ensures
        strings_view(r@) == strings_view(ss@),
{
    let mut r: Vec<String> = Vec::new();
    for i in 0..ss.len()
        invariant
            strings_view(r@) == strings_view(ss@.take(i as int)),
    {
        r.push(ss[i].clone());
        assert(strings_view(ss@.take(i + 1)) =~= strings_view(ss@.take(i as int)).push(ss@[i as int]@));
    }
    assert(ss@.take(ss.len() as int) =~= ss@);
    r
}

/// A copy of a list of `name = value` pairs.
pub fn clone_pairs(ps: &Vec<(String, String)>) -> (r: Vec<(String, String)>)
    ensures
        pairs_view(r@) == pairs_view(ps@),
{
    let mut r: Vec<(String, String)> = Vec::new();
    for i in 0..ps.len()
        invariant
            pairs_view(r@) == pairs_view(ps@.take(i as int)),
    {
        let p = &ps[i];
        r.push((p.0.clone(), p.1.clone()));
        assert(pairs_view(ps@.take(i + 1)) =~= pairs_view(ps@.take(i as int)).push(
            (ps@[i as int].0@, ps@[i as int].1@),
        ));
    }
    assert(ps@.take(ps.len() as int) =~= ps@);
    r
}

} // verus!
