//! The grammar of the markup and a tokenizer that reads words by it.
//!
//! A text is a string literal in braces, `{"hello"}`, with no escapes. An
//! opening tag is `<name key={value} ...>`, where each value runs to the brace
//! that balances its opening one and is kept as written. A closing tag is
//! `</name>`. Names are ASCII identifiers; whitespace may stand between any two
//! tokens.
use vstd::prelude::*;
use vstd::std_specs::iter::IteratorSpec;

use crate::word::{pairs_view, words_view, CompileError, Word, WordView};

verus! {

pub open spec fn is_space(c: char) -> bool {
    c == ' ' || c == '\t' || c == '\n' || c == '\r'
}

pub open spec fn is_ident_start(c: char) -> bool {
    ('a' <= c && c <= 'z') || ('A' <= c && c <= 'Z') || c == '_'
}

pub open spec fn is_ident_char(c: char) -> bool {
    is_ident_start(c) || ('0' <= c && c <= '9')
}

/// The first position at or after `i` that holds no whitespace.
pub open spec fn space_end(s: Seq<char>, i: int) -> int
    decreases s.len() - i,
{
    if 0 <= i < s.len() && is_space(s[i]) {
        space_end(s, i + 1)
    } else {
        i
    }
}

/// The first position at or after `i` that holds no identifier character.
pub open spec fn ident_end(s: Seq<char>, i: int) -> int
    decreases s.len() - i,
{
    if 0 <= i < s.len() && is_ident_char(s[i]) {
        ident_end(s, i + 1)
    } else {
        i
    }
}

/// The first position at or after `i` that holds a double quote, or the end.
pub open spec fn quote_end(s: Seq<char>, i: int) -> int
    decreases s.len() - i,
{
    if 0 <= i < s.len() && s[i] != '"' {
        quote_end(s, i + 1)
    } else {
        i
    }
}

/// The position of the closing brace that balances `depth` open braces
/// before `i`, if the input has one.
pub open spec fn brace_close(s: Seq<char>, i: int, depth: nat) -> Option<int>
    decreases s.len() - i,
{
    if i < 0 || i >= s.len() {
        None
    } else if s[i] == '}' {
        if depth == 0 {
            Some(i)
        } else {
            brace_close(s, i + 1, (depth - 1) as nat)
        }
    } else if s[i] == '{' {
        brace_close(s, i + 1, depth + 1)
    } else {
        brace_close(s, i + 1, depth)
    }
}

/// A text word whose opening brace is at `i`: its contents and the position
/// after it.
pub open spec fn parse_text(s: Seq<char>, i: int) -> Option<(Seq<char>, int)> {
    let j = space_end(s, i + 1);
    if 0 <= j < s.len() && s[j] == '"' {
        let k = quote_end(s, j + 1);
        if k < s.len() {
            let m = space_end(s, k + 1);
            if m < s.len() && s[m] == '}' {
                Some((s.subrange(j + 1, k), m + 1))
            } else {
                None
            }
        } else {
            None
        }
    } else {
        None
    }
}

/// The attribute pairs of an opening tag from `i` up to and with its `>`:
/// the pairs in written order and the position after the `>`.
pub open spec fn parse_attrs(s: Seq<char>, i: int) -> Option<(Seq<(Seq<char>, Seq<char>)>, int)>
    decreases s.len() - i,
    via parse_attrs_decreases
{
    let j = space_end(s, i);
    if j < 0 || j >= s.len() {
        None
    } else if s[j] == '>' {
        Some((Seq::empty(), j + 1))
    } else if is_ident_start(s[j]) {
        let e = ident_end(s, j + 1);
        let k = space_end(s, e);
        if k < s.len() && s[k] == '=' {
            let m = space_end(s, k + 1);
            if m < s.len() && s[m] == '{' {
                match brace_close(s, m + 1, 0) {
                    Some(b) => match parse_attrs(s, b + 1) {
                        Some(rest) => Some(
                            (seq![(s.subrange(j, e), s.subrange(m + 1, b))] + rest.0, rest.1),
                        ),
                        None => None,
                    },
                    None => None,
                }
            } else {
                None
            }
        } else {
            None
        }
    } else {
        None
    }
}

#[via_fn]
proof fn parse_attrs_decreases(s: Seq<char>, i: int) {
    let j = space_end(s, i);
    lemma_space_end(s, i);
    if 0 <= j < s.len() && s[j] != '>' && is_ident_start(s[j]) {
        let e = ident_end(s, j + 1);
        lemma_ident_end(s, j + 1);
        let k = space_end(s, e);
        lemma_space_end(s, e);
        if k < s.len() && s[k] == '=' {
            let m = space_end(s, k + 1);
            lemma_space_end(s, k + 1);
            if m < s.len() && s[m] == '{' {
                lemma_brace_close(s, m + 1, 0);
            }
        }
    }
}

/// A tag whose `<` is at `i`: the word and the position after it.
pub open spec fn parse_tag(s: Seq<char>, i: int) -> Option<(WordView, int)> {
    let j = space_end(s, i + 1);
    if 0 <= j < s.len() && s[j] == '/' {
        let k = space_end(s, j + 1);
        if k < s.len() && is_ident_start(s[k]) {
            let e = ident_end(s, k + 1);
            let m = space_end(s, e);
            if m < s.len() && s[m] == '>' {
                Some((WordView::TagClose(s.subrange(k, e)), m + 1))
            } else {
                None
            }
        } else {
            None
        }
    } else if 0 <= j < s.len() && is_ident_start(s[j]) {
        let e = ident_end(s, j + 1);
        match parse_attrs(s, e) {
            Some(rest) => Some((WordView::TagOpen(s.subrange(j, e), rest.0), rest.1)),
            None => None,
        }
    } else {
        None
    }
}

/// The words of the input from position `i` on. Input that begins no word is
/// an error unless `trailing` allows it, in which case reading stops there.
pub open spec fn tokenize_from(s: Seq<char>, i: int, trailing: bool) -> Result<
    Seq<WordView>,
    CompileError,
>
    decreases s.len() - i,
    via tokenize_from_decreases
{
    let j = space_end(s, i);
    if j < 0 || j >= s.len() {
        Ok(Seq::empty())
    } else {
        let step = if s[j] == '{' {
            match parse_text(s, j) {
                Some(p) => Some((WordView::Text(p.0), p.1)),
                None => None,
            }
        } else if s[j] == '<' {
            parse_tag(s, j)
        } else {
            None
        };
        match step {
            Some(p) => match tokenize_from(s, p.1, trailing) {
                Ok(rest) => Ok(seq![p.0] + rest),
                Err(e) => Err(e),
            },
            None => if s[j] == '{' || s[j] == '<' {
                Err(CompileError::Grammar)
            } else if trailing {
                Ok(Seq::empty())
            } else {
                Err(CompileError::UnterminatedInput)
            },
        }
    }
}

#[via_fn]
proof fn tokenize_from_decreases(s: Seq<char>, i: int, trailing: bool) {
    let j = space_end(s, i);
    lemma_space_end(s, i);
    if 0 <= j < s.len() {
        lemma_parse_text_end(s, j);
        lemma_parse_tag_end(s, j);
    }
}

/// The words of a whole input, every part of which must belong to a word.
pub open spec fn tokenize_chars(s: Seq<char>) -> Result<Seq<WordView>, CompileError> {
    tokenize_from(s, 0, false)
}

/// The words at the start of an input, up to the first part that begins no
/// word.
pub open spec fn tokenize_prefix_chars(s: Seq<char>) -> Result<Seq<WordView>, CompileError> {
    tokenize_from(s, 0, true)
}

pub proof fn lemma_space_end(s: Seq<char>, i: int)
    ensures
        i <= space_end(s, i),
        0 <= i <= s.len() ==> space_end(s, i) <= s.len(),
        forall|p: int| i <= p < space_end(s, i) ==> is_space(#[trigger] s[p]),
    decreases s.len() - i,
{
    if 0 <= i < s.len() && is_space(s[i]) {
        lemma_space_end(s, i + 1);
    }
}

pub proof fn lemma_ident_end(s: Seq<char>, i: int)
    ensures
        i <= ident_end(s, i),
        0 <= i <= s.len() ==> ident_end(s, i) <= s.len(),
    decreases s.len() - i,
{
    if 0 <= i < s.len() && is_ident_char(s[i]) {
        lemma_ident_end(s, i + 1);
    }
}

pub proof fn lemma_quote_end(s: Seq<char>, i: int)
    ensures
        i <= quote_end(s, i),
        0 <= i <= s.len() ==> quote_end(s, i) <= s.len(),
    decreases s.len() - i,
{
    if 0 <= i < s.len() && s[i] != '"' {
        lemma_quote_end(s, i + 1);
    }
}

pub proof fn lemma_brace_close(s: Seq<char>, i: int, depth: nat)
    ensures
        brace_close(s, i, depth) is Some ==> i <= brace_close(s, i, depth)->Some_0 < s.len(),
    decreases s.len() - i,
{
    if 0 <= i < s.len() {
        if s[i] == '}' {
            if depth > 0 {
                lemma_brace_close(s, i + 1, (depth - 1) as nat);
            }
        } else if s[i] == '{' {
            lemma_brace_close(s, i + 1, depth + 1);
        } else {
            lemma_brace_close(s, i + 1, depth);
        }
    }
}

pub proof fn lemma_parse_text_end(s: Seq<char>, i: int)
    ensures
        parse_text(s, i) is Some ==> i < parse_text(s, i)->Some_0.1 <= s.len(),
{
    lemma_space_end(s, i + 1);
    let j = space_end(s, i + 1);
    lemma_quote_end(s, j + 1);
    let k = quote_end(s, j + 1);
    lemma_space_end(s, k + 1);
}

pub proof fn lemma_parse_attrs_end(s: Seq<char>, i: int)
    ensures
        parse_attrs(s, i) is Some ==> i < parse_attrs(s, i)->Some_0.1 <= s.len(),
    decreases s.len() - i,
{
    let j = space_end(s, i);
    lemma_space_end(s, i);
    if 0 <= j < s.len() && s[j] != '>' && is_ident_start(s[j]) {
        let e = ident_end(s, j + 1);
        lemma_ident_end(s, j + 1);
        let k = space_end(s, e);
        lemma_space_end(s, e);
        if k < s.len() && s[k] == '=' {
            let m = space_end(s, k + 1);
            lemma_space_end(s, k + 1);
            if m < s.len() && s[m] == '{' {
                lemma_brace_close(s, m + 1, 0);
                if let Some(b) = brace_close(s, m + 1, 0) {
                    lemma_parse_attrs_end(s, b + 1);
                }
            }
        }
    }
}

pub proof fn lemma_parse_tag_end(s: Seq<char>, i: int)
    ensures
        parse_tag(s, i) is Some ==> i < parse_tag(s, i)->Some_0.1 <= s.len(),
{
    let j = space_end(s, i + 1);
    lemma_space_end(s, i + 1);
    if 0 <= j < s.len() && s[j] == '/' {
        lemma_space_end(s, j + 1);
        let k = space_end(s, j + 1);
        lemma_ident_end(s, k + 1);
        let e = ident_end(s, k + 1);
        lemma_space_end(s, e);
    } else if 0 <= j < s.len() && is_ident_start(s[j]) {
        lemma_ident_end(s, j + 1);
        lemma_parse_attrs_end(s, ident_end(s, j + 1));
    }
}

/// `r` with the pairs `a` put before its own.
pub open spec fn pairs_after(
    a: Seq<(Seq<char>, Seq<char>)>,
    r: Option<(Seq<(Seq<char>, Seq<char>)>, int)>,
) -> Option<(Seq<(Seq<char>, Seq<char>)>, int)> {
    match r {
        Some(p) => Some((a + p.0, p.1)),
        None => None,
    }
}

/// `r` with the words `a` put before its own.
pub open spec fn words_after(
    a: Seq<WordView>,
    r: Result<Seq<WordView>, CompileError>,
) -> Result<Seq<WordView>, CompileError> {
    match r {
        Ok(ws) => Ok(a + ws),
        Err(e) => Err(e),
    }
}

fn is_space_char(c: char) -> (r: bool)
    ensures
        r == is_space(c),
{
    c == ' ' || c == '\t' || c == '\n' || c == '\r'
}

fn is_ident_start_char(c: char) -> (r: bool)
    ensures
        r == is_ident_start(c),
{
    ('a' <= c && c <= 'z') || ('A' <= c && c <= 'Z') || c == '_'
}

fn is_ident_char_char(c: char) -> (r: bool)
    ensures
        r == is_ident_char(c),
{
    is_ident_start_char(c) || ('0' <= c && c <= '9')
}

fn chars_of(input: &str) -> (r: Vec<char>)
    ensures
        r@ == input@,
{
    broadcast use vstd::string::group_string_axioms;

    let mut r: Vec<char> = Vec::new();
    let mut it = input.chars();
    assert(IteratorSpec::remaining(&it) == input@);
    loop
        invariant
            r@ + IteratorSpec::remaining(&it) == input@,
            it.obeys_prophetic_iter_laws(),
            IteratorSpec::decrease(&it) is Some,
        decreases IteratorSpec::decrease(&it)->Some_0,
    {
        match it.next() {
            Some(c) => {
                r.push(c);
                assert(r@ + IteratorSpec::remaining(&it) =~= input@);
            },
            None => {
                assert(r@ =~= input@);
                return r;
            },
        }
    }
}

fn skip_space(cs: &Vec<char>, i: usize) -> (r: usize)
    requires
        i <= cs@.len(),
    ensures
        r == space_end(cs@, i as int),
{
    let mut j = i;
    while j < cs.len() && is_space_char(cs[j])
        invariant
            i <= j <= cs@.len(),
            space_end(cs@, i as int) == space_end(cs@, j as int),
        decreases cs@.len() - j,
    {
        j += 1;
    }
    j
}

fn skip_ident(cs: &Vec<char>, i: usize) -> (r: usize)
    requires
        i <= cs@.len(),
    ensures
        r == ident_end(cs@, i as int),
{
    let mut j = i;
    while j < cs.len() && is_ident_char_char(cs[j])
        invariant
            i <= j <= cs@.len(),
            ident_end(cs@, i as int) == ident_end(cs@, j as int),
        decreases cs@.len() - j,
    {
        j += 1;
    }
    j
}

fn find_quote(cs: &Vec<char>, i: usize) -> (r: usize)
    requires
        i <= cs@.len(),
    ensures
        r == quote_end(cs@, i as int),
{
    let mut j = i;
    while j < cs.len() && cs[j] != '"'
        invariant
            i <= j <= cs@.len(),
            quote_end(cs@, i as int) == quote_end(cs@, j as int),
        decreases cs@.len() - j,
    {
        j += 1;
    }
    j
}

fn find_brace_close(cs: &Vec<char>, i: usize) -> (r: Option<usize>)
    requires
        i <= cs@.len(),
    ensures
        match r {
            Some(b) => brace_close(cs@, i as int, 0) == Some(b as int),
            None => brace_close(cs@, i as int, 0) is None,
        },
{
    let mut j = i;
    let mut depth: usize = 0;
    while j < cs.len()
        invariant
            i <= j <= cs@.len(),
            depth <= j - i,
            brace_close(cs@, i as int, 0) == brace_close(cs@, j as int, depth as nat),
        decreases cs@.len() - j,
    {
        let c = cs[j];
        if c == '}' {
            if depth == 0 {
                return Some(j);
            }
            depth -= 1;
        } else if c == '{' {
            depth += 1;
        }
        j += 1;
    }
    None
}

fn substring(input: &str, from: usize, to: usize) -> (r: String)
    requires
        from <= to <= input@.len(),
    ensures
        r@ == input@.subrange(from as int, to as int),
{
    input.substring_char(from, to).to_owned()
}

fn read_text(input: &str, cs: &Vec<char>, i: usize) -> (r: Option<(String, usize)>)
    requires
        cs@ == input@,
        i < cs@.len(),
    ensures
        match r {
            Some(p) => parse_text(cs@, i as int) == Some((p.0@, p.1 as int)),
            None => parse_text(cs@, i as int) is None,
        },
{
    let ghost s = cs@;
    let n = cs.len();
    let j = skip_space(cs, i + 1);
    if j >= n || cs[j] != '"' {
        return None;
    }
    let k = find_quote(cs, j + 1);
    proof {
        lemma_quote_end(s, j + 1);
    }
    if k >= cs.len() {
        return None;
    }
    let m = skip_space(cs, k + 1);
    if m >= cs.len() || cs[m] != '}' {
        return None;
    }
    Some((substring(input, j + 1, k), m + 1))
}

fn read_attrs(input: &str, cs: &Vec<char>, i: usize) -> (r: Option<(Vec<(String, String)>, usize)>)
    requires
        cs@ == input@,
        i <= cs@.len(),
    ensures
        match r {
            Some(p) => parse_attrs(cs@, i as int) == Some((pairs_view(p.0@), p.1 as int)),
            None => parse_attrs(cs@, i as int) is None,
        },
{
    let ghost s = cs@;
    let mut acc: Vec<(String, String)> = Vec::new();
    let mut pos = i;
    assert(pairs_after(pairs_view(acc@), parse_attrs(s, i as int)) =~= parse_attrs(s, i as int)) by {
        assert(pairs_view(acc@) =~= Seq::<(Seq<char>, Seq<char>)>::empty());
        if let Some(p) = parse_attrs(s, i as int) {
            assert(pairs_view(acc@) + p.0 =~= p.0);
        }
    }
    loop
        invariant
            cs@ == input@,
            s == cs@,
            pos <= cs@.len(),
            parse_attrs(s, i as int) == pairs_after(pairs_view(acc@), parse_attrs(s, pos as int)),
        decreases cs@.len() - pos,
    {
        let j = skip_space(cs, pos);
        proof {
            lemma_space_end(s, pos as int);
        }
        if j >= cs.len() {
            return None;
        }
        if cs[j] == '>' {
            assert(pairs_view(acc@) + Seq::<(Seq<char>, Seq<char>)>::empty() =~= pairs_view(acc@));
            return Some((acc, j + 1));
        }
        if !is_ident_start_char(cs[j]) {
            return None;
        }
        let e = skip_ident(cs, j + 1);
        proof {
            lemma_ident_end(s, j + 1);
        }
        let k = skip_space(cs, e);
        proof {
            lemma_space_end(s, e as int);
        }
        if k >= cs.len() || cs[k] != '=' {
            return None;
        }
        let m = skip_space(cs, k + 1);
        proof {
            lemma_space_end(s, k + 1);
        }
        if m >= cs.len() || cs[m] != '{' {
            return None;
        }
        let b = match find_brace_close(cs, m + 1) {
            Some(b) => b,
            None => {
                return None;
            },
        };
        proof {
            lemma_brace_close(s, m + 1, 0);
        }
        let ghost before = pairs_view(acc@);
        let pair = (substring(input, j, e), substring(input, m + 1, b));
        let ghost pv = (pair.0@, pair.1@);
        acc.push(pair);
        assert(pairs_view(acc@) =~= before.push(pv));
        proof {
            if let Some(rest) = parse_attrs(s, b + 1) {
                assert(before.push(pv) + rest.0 =~= before + (seq![pv] + rest.0));
            }
        }
        pos = b + 1;
    }
}

fn read_tag(input: &str, cs: &Vec<char>, i: usize) -> (r: Option<(Word, usize)>)
    requires
        cs@ == input@,
        i < cs@.len(),
    ensures
        match r {
            Some(p) => parse_tag(cs@, i as int) == Some((p.0@, p.1 as int)),
            None => parse_tag(cs@, i as int) is None,
        },
{
    let ghost s = cs@;
    let n = cs.len();
    let j = skip_space(cs, i + 1);
    proof {
        lemma_space_end(s, i + 1);
    }
    if j >= n {
        return None;
    }
    if cs[j] == '/' {
        let k = skip_space(cs, j + 1);
        proof {
            lemma_space_end(s, j + 1);
        }
        if k >= cs.len() || !is_ident_start_char(cs[k]) {
            return None;
        }
        let e = skip_ident(cs, k + 1);
        proof {
            lemma_ident_end(s, k + 1);
        }
        let m = skip_space(cs, e);
        if m >= cs.len() || cs[m] != '>' {
            return None;
        }
        Some((Word::TagClose(substring(input, k, e)), m + 1))
    } else if is_ident_start_char(cs[j]) {
        let e = skip_ident(cs, j + 1);
        proof {
            lemma_ident_end(s, j + 1);
        }
        match read_attrs(input, cs, e) {
            Some((attrs, end)) => Some((Word::TagOpen(substring(input, j, e), attrs), end)),
            None => None,
        }
    } else {
        None
    }
}

/// Reads the words of `input`, stopping at the first malformed word. Input
/// left over that begins no word is an error.
pub fn tokenize(input: &str) -> (r: Result<Vec<Word>, CompileError>)
    ensures
        match r {
            Ok(ws) => tokenize_chars(input@) == Ok::<Seq<WordView>, CompileError>(words_view(ws@)),
            Err(e) => tokenize_chars(input@) == Err::<Seq<WordView>, CompileError>(e),
        },
{
    read_words(input, false)
}

/// Reads the words at the start of `input`, stopping at the first malformed
/// word; input left over that begins no word is ignored.
pub fn tokenize_lenient(input: &str) -> (r: Result<Vec<Word>, CompileError>)
    ensures
        match r {
            Ok(ws) => tokenize_prefix_chars(input@) == Ok::<Seq<WordView>, CompileError>(
                words_view(ws@),
            ),
            Err(e) => tokenize_prefix_chars(input@) == Err::<Seq<WordView>, CompileError>(e),
        },
{
    read_words(input, true)
}

fn read_words(input: &str, trailing: bool) -> (r: Result<Vec<Word>, CompileError>)
    ensures
        match r {
            Ok(ws) => tokenize_from(input@, 0, trailing) == Ok::<Seq<WordView>, CompileError>(
                words_view(ws@),
            ),
            Err(e) => tokenize_from(input@, 0, trailing) == Err::<Seq<WordView>, CompileError>(e),
        },
{
    let cs = chars_of(input);
    let ghost s = cs@;
    let mut out: Vec<Word> = Vec::new();
    let mut pos: usize = 0;
    assert(words_after(words_view(out@), tokenize_from(s, 0, trailing)) =~= tokenize_from(
        s,
        0,
        trailing,
    )) by {
        assert(words_view(out@) =~= Seq::<WordView>::empty());
        if let Ok(ws) = tokenize_from(s, 0, trailing) {
            assert(words_view(out@) + ws =~= ws);
        }
    }
    loop
        invariant
            cs@ == input@,
            s == cs@,
            pos <= cs@.len(),
            tokenize_from(s, 0, trailing) == words_after(
                words_view(out@),
                tokenize_from(s, pos as int, trailing),
            ),
        decreases cs@.len() - pos,
    {
        let j = skip_space(&cs, pos);
        proof {
            lemma_space_end(s, pos as int);
        }
        if j >= cs.len() {
            assert(words_view(out@) + Seq::<WordView>::empty() =~= words_view(out@));
            return Ok(out);
        }
        let c = cs[j];
        let step = if c == '{' {
            match read_text(input, &cs, j) {
                Some((t, k)) => Some((Word::Text(t), k)),
                None => None,
            }
        } else if c == '<' {
            read_tag(input, &cs, j)
        } else {
            None
        };
        let (w, k) = match step {
            Some(p) => p,
            None => {
                if c == '{' || c == '<' {
                    return Err(CompileError::Grammar);
                } else if trailing {
                    assert(words_view(out@) + Seq::<WordView>::empty() =~= words_view(out@));
                    return Ok(out);
                } else {
                    return Err(CompileError::UnterminatedInput);
                }
            },
        };
        proof {
            lemma_parse_text_end(s, j as int);
            lemma_parse_tag_end(s, j as int);
        }
        let ghost before = words_view(out@);
        let ghost wv = w@;
        out.push(w);
        assert(words_view(out@) =~= before.push(wv));
        proof {
            if let Ok(rest) = tokenize_from(s, k as int, trailing) {
                assert(before.push(wv) + rest =~= before + (seq![wv] + rest));
            }
        }
        pos = k;
    }
}

} // verus!
