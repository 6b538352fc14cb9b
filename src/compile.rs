//! Turns a stream of words into the flat list of spans that it displays.
use vstd::prelude::*;

use crate::assoc::{assoc, unique_keys};
use crate::grammar::{tokenize, tokenize_chars};
use crate::scope::{flatten, scope_names, ScopeStack, ScopeView};
use crate::word::{clone_pairs, pairs_view, strings_view, words_view, CompileError, Word, WordView};

verus! {

/// A text with the tags that enclose it and the attributes it inherits.
#[derive(Debug)]
pub struct CompiledSpan {
    pub text: String,
    /// The enclosing tags, outermost first.
    pub tags: Vec<String>,
    /// One pair per attribute name in force.
    pub attributes: Vec<(String, String)>,
}

/// A compiled span as a mathematical value.
pub struct SpanView {
    pub text: Seq<char>,
    pub tags: Seq<Seq<char>>,
    pub attributes: Map<Seq<char>, Seq<char>>,
}

impl View for CompiledSpan {
    type V = SpanView;

    open spec fn view(&self) -> SpanView {
        SpanView {
            text: self.text@,
            tags: strings_view(self.tags@),
            attributes: assoc(pairs_view(self.attributes@)),
        }
    }
}

pub open spec fn spans_view(ss: Seq<CompiledSpan>) -> Seq<SpanView> {
    ss.map_values(|s: CompiledSpan| s@)
}

/// The span that a text gets under the open tags `frames`.
pub open spec fn emit(text: Seq<char>, frames: Seq<ScopeView>) -> SpanView {
    SpanView { text, tags: scope_names(frames), attributes: flatten(frames) }
}

/// Compiling the words from index `i` on, with `frames` open and `out`
/// emitted so far.
pub open spec fn run(
    ws: Seq<WordView>,
    i: int,
    frames: Seq<ScopeView>,
    out: Seq<SpanView>,
) -> Result<Seq<SpanView>, CompileError>
    decreases ws.len() - i,
{
    if i >= ws.len() {
        if frames.len() == 0 {
            Ok(out)
        } else {
            Err(CompileError::UnclosedTag)
        }
    } else {
        match ws[i] {
            WordView::Text(t) => run(ws, i + 1, frames, out.push(emit(t, frames))),
            WordView::TagOpen(n, attrs) => run(ws, i + 1, frames.push((n, attrs)), out),
            WordView::TagClose(n) => {
                if frames.len() == 0 {
                    Err(CompileError::UnstartedTag)
                } else if frames.last().0 != n {
                    Err(CompileError::MismatchedTag)
                } else {
                    run(ws, i + 1, frames.drop_last(), out)
                }
            },
        }
    }
}

/// The result of compiling a whole word stream from an empty stack.
pub open spec fn compile_words(ws: Seq<WordView>) -> Result<Seq<SpanView>, CompileError> {
    run(ws, 0, Seq::empty(), Seq::empty())
}

/// Compiles `words` into spans, stopping at the first error.
pub fn compile(words: &Vec<Word>) -> (r: Result<Vec<CompiledSpan>, CompileError>)
    ensures
        match r {
            Ok(spans) => compile_words(words_view(words@)) == Ok::<Seq<SpanView>, CompileError>(
                spans_view(spans@),
            ),
            Err(e) => compile_words(words_view(words@)) == Err::<Seq<SpanView>, CompileError>(e),
        },
        r is Ok ==> forall|k: int|
            0 <= k < r->Ok_0@.len() ==> unique_keys(#[trigger] pairs_view(r->Ok_0@[k].attributes@)),
{
    let ghost ws = words_view(words@);
    let mut stack = ScopeStack::new();
    let mut out: Vec<CompiledSpan> = Vec::new();
    assert(spans_view(out@) =~= Seq::<SpanView>::empty());
    for i in 0..words.len()
        invariant
            ws == words_view(words@),
            run(ws, i as int, stack@, spans_view(out@)) == compile_words(ws),
            forall|k: int| 0 <= k < out@.len() ==> unique_keys(#[trigger] pairs_view(out@[k].attributes@)),
    {
        match &words[i] {
            Word::Text(t) => {
                let span = CompiledSpan {
                    text: t.clone(),
                    tags: stack.snapshot_tags(),
                    attributes: stack.snapshot_attributes(),
                };
                let ghost old_out = out@;
                out.push(span);
                assert(spans_view(out@) =~= spans_view(old_out).push(emit(t@, stack@)));
            },
            Word::TagOpen(n, attrs) => {
                stack.push(n.clone(), clone_pairs(attrs));
            },
            Word::TagClose(n) => {
                match stack.pop(n) {
                    Ok(()) => {},
                    Err(e) => {
                        return Err(e);
                    },
                }
            },
        }
    }
    if stack.depth() != 0 {
        return Err(CompileError::UnclosedTag);
    }
    Ok(out)
}

/// The names of the tags left open after the words `ws`, outermost first.
pub open spec fn open_tags(ws: Seq<WordView>) -> Seq<Seq<char>>
    decreases ws.len(),
{
    if ws.len() == 0 {
        Seq::empty()
    } else {
        let before = open_tags(ws.drop_last());
        match ws.last() {
            WordView::TagOpen(n, _) => before.push(n),
            WordView::TagClose(_) => before.drop_last(),
            WordView::Text(_) => before,
        }
    }
}

/// Each text of `ws`, in order, with the names of the tags enclosing it.
pub open spec fn text_tags(ws: Seq<WordView>) -> Seq<(Seq<char>, Seq<Seq<char>>)>
    decreases ws.len(),
{
    if ws.len() == 0 {
        Seq::empty()
    } else {
        let before = text_tags(ws.drop_last());
        match ws.last() {
            WordView::Text(t) => before.push((t, open_tags(ws.drop_last()))),
            _ => before,
        }
    }
}

/// Every closing tag names the innermost tag open before it, and no tag is
/// left open at the end.
pub open spec fn well_nested(ws: Seq<WordView>) -> bool {
    &&& forall|i: int|
        0 <= i < ws.len() && (#[trigger] ws[i]) is TagClose ==> {
            let open = open_tags(ws.take(i));
            open.len() > 0 && open.last() == ws[i]->TagClose_0
        }
    &&& open_tags(ws).len() == 0
}

/// The text and tags of each span.
pub open spec fn texts_and_tags(spans: Seq<SpanView>) -> Seq<(Seq<char>, Seq<Seq<char>>)> {
    spans.map_values(|s: SpanView| (s.text, s.tags))
}

proof fn lemma_run_nested(
    ws: Seq<WordView>,
    i: int,
    frames: Seq<ScopeView>,
    out: Seq<SpanView>,
)
    requires
        well_nested(ws),
        0 <= i <= ws.len(),
        scope_names(frames) == open_tags(ws.take(i)),
        texts_and_tags(out) == text_tags(ws.take(i)),
    ensures
        run(ws, i, frames, out) is Ok,
        texts_and_tags(run(ws, i, frames, out)->Ok_0) == text_tags(ws),
    decreases ws.len() - i,
{
    if i == ws.len() {
        assert(ws.take(i) =~= ws);
        assert(frames.len() == scope_names(frames).len());
    } else {
        let p = ws.take(i + 1);
        assert(p.drop_last() =~= ws.take(i));
        assert(p.last() == ws[i]);
        match ws[i] {
            WordView::Text(t) => {
                let next = out.push(emit(t, frames));
                assert(texts_and_tags(next) =~= texts_and_tags(out).push((t, scope_names(frames))));
                lemma_run_nested(ws, i + 1, frames, next);
            },
            WordView::TagOpen(n, attrs) => {
                let next = frames.push((n, attrs));
                assert(scope_names(next) =~= scope_names(frames).push(n));
                lemma_run_nested(ws, i + 1, next, out);
            },
            WordView::TagClose(n) => {
                assert(frames.len() == scope_names(frames).len());
                assert(scope_names(frames).last() == frames.last().0);
                let next = frames.drop_last();
                assert(scope_names(next) =~= scope_names(frames).drop_last());
                lemma_run_nested(ws, i + 1, next, out);
            },
        }
    }
}

/// A well-nested word stream always compiles, into one span per text word,
/// in order, each holding that text and the names of every tag enclosing it,
/// outermost first.
pub proof fn lemma_well_nested_compiles(ws: Seq<WordView>)
    requires
        well_nested(ws),
    ensures
        compile_words(ws) is Ok,
        compile_words(ws)->Ok_0.len() == text_tags(ws).len(),
        forall|k: int|
            0 <= k < text_tags(ws).len() ==> (#[trigger] compile_words(ws)->Ok_0[k]).text
                == text_tags(ws)[k].0 && compile_words(ws)->Ok_0[k].tags == text_tags(ws)[k].1,
{
    let frames = Seq::<ScopeView>::empty();
    let out = Seq::<SpanView>::empty();
    assert(scope_names(frames) =~= open_tags(ws.take(0)));
    assert(texts_and_tags(out) =~= text_tags(ws.take(0)));
    lemma_run_nested(ws, 0, frames, out);
    let spans = compile_words(ws)->Ok_0;
    assert forall|k: int| 0 <= k < text_tags(ws).len() implies (#[trigger] spans[k]).text
        == text_tags(ws)[k].0 && spans[k].tags == text_tags(ws)[k].1 by {
        assert(texts_and_tags(spans)[k] == (spans[k].text, spans[k].tags));
    }
}

/// The result of compiling markup text.
pub open spec fn compile_text(s: Seq<char>) -> Result<Seq<SpanView>, CompileError> {
    match tokenize_chars(s) {
        Ok(ws) => compile_words(ws),
        Err(e) => Err(e),
    }
}

/// Reads markup text and compiles its words into spans.
pub fn sections(input: &str) -> (r: Result<Vec<CompiledSpan>, CompileError>)
    ensures
        match r {
            Ok(spans) => compile_text(input@) == Ok::<Seq<SpanView>, CompileError>(
                spans_view(spans@),
            ),
            Err(e) => compile_text(input@) == Err::<Seq<SpanView>, CompileError>(e),
        },
{
    let words = tokenize(input)?;
    compile(&words)
}

} // verus!
