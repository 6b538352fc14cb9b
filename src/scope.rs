//! The stack of open tags, each with the attributes it defines.
use vstd::prelude::*;

use crate::assoc::{assoc, lemma_assoc_concat, lemma_assoc_update, unique_keys};
use crate::word::{pairs_view, strings_view, CompileError};

verus! {

/// An open tag as a mathematical value: its name and its attribute pairs.
pub type ScopeView = (Seq<char>, Seq<(Seq<char>, Seq<char>)>);

/// The names of the open tags, outermost first.
pub open spec fn scope_names(frames: Seq<ScopeView>) -> Seq<Seq<char>> {
    frames.map_values(|f: ScopeView| f.0)
}

/// Every attribute pair of the open tags, outermost tag first and each tag's
/// pairs in written order.
pub open spec fn all_pairs(frames: Seq<ScopeView>) -> Seq<(Seq<char>, Seq<char>)>
    decreases frames.len(),
{
    if frames.len() == 0 {
        Seq::empty()
    } else {
        all_pairs(frames.drop_last()) + frames.last().1
    }
}

/// The attributes in force under the open tags: for each name, the value
/// given by the innermost tag that defines it.
pub open spec fn flatten(frames: Seq<ScopeView>) -> Map<Seq<char>, Seq<char>> {
    assoc(all_pairs(frames))
}

/// Innermost wins: opening a tag lays its attributes over those in force, so
/// a name it defines takes its value and every other name keeps the value it
/// had; closing the tag again restores exactly what was in force before it.
pub proof fn lemma_innermost_wins(frames: Seq<ScopeView>, tag: ScopeView)
    ensures
        flatten(frames.push(tag)) == flatten(frames).union_prefer_right(assoc(tag.1)),
        forall|k: Seq<char>| #[trigger]
            assoc(tag.1).contains_key(k) ==> flatten(frames.push(tag))[k] == assoc(tag.1)[k],
        forall|k: Seq<char>|
            !assoc(tag.1).contains_key(k) ==> (#[trigger] flatten(frames.push(tag)).contains_key(k)
                == flatten(frames).contains_key(k)),
        forall|k: Seq<char>|
            !assoc(tag.1).contains_key(k) && #[trigger] flatten(frames).contains_key(k) ==> flatten(
                frames.push(tag),
            )[k] == flatten(frames)[k],
        flatten(frames.push(tag).drop_last()) == flatten(frames),
{
    assert(frames.push(tag).drop_last() =~= frames);
    lemma_assoc_concat(all_pairs(frames), tag.1);
}

/// One open tag.
pub struct Scope {
    pub name: String,
    pub attributes: Vec<(String, String)>,
}

impl View for Scope {
    type V = ScopeView;

    open spec fn view(&self) -> ScopeView {
        (self.name@, pairs_view(self.attributes@))
    }
}

/// The open tags, outermost first.
pub struct ScopeStack {
    scopes: Vec<Scope>,
}

impl View for ScopeStack {
    type V = Seq<ScopeView>;

    closed spec fn view(&self) -> Seq<ScopeView> {
        self.scopes@.map_values(|s: Scope| s@)
    }
}

/// Sets `name` to `value` in a list of pairs without repeated names.
pub fn insert_pair(acc: &mut Vec<(String, String)>, name: &String, value: &String)
    requires
        unique_keys(pairs_view(old(acc)@)),
    ensures
        unique_keys(pairs_view(final(acc)@)),
        assoc(pairs_view(final(acc)@)) == assoc(pairs_view(old(acc)@)).insert(name@, value@),
{
    let ghost before = pairs_view(acc@);
    let mut j: usize = 0;
    while j < acc.len()
        invariant
            j <= acc.len(),
            acc@ == old(acc)@,
            before == pairs_view(acc@),
            unique_keys(before),
            forall|i: int| 0 <= i < j ==> #[trigger] before[i].0 != name@,
        decreases acc.len() - j,
    {
        if acc[j].0 == *name {
            acc[j] = (name.clone(), value.clone());
            proof {
                assert(before[j as int].0 == name@);
                lemma_assoc_update(before, j as int, value@);
                assert(pairs_view(acc@) =~= before.update(j as int, (name@, value@)));
            }
            return;
        }
        j += 1;
    }
    acc.push((name.clone(), value.clone()));
    proof {
        assert(pairs_view(acc@) =~= before.push((name@, value@)));
        assert(pairs_view(acc@).drop_last() =~= before);
        assert forall|a: int, b: int| 0 <= a < b < pairs_view(acc@).len() implies
            #[trigger] pairs_view(acc@)[a].0 != #[trigger] pairs_view(acc@)[b].0 by {
            if b == before.len() {
                assert(before[a].0 != name@);
            } else {
                assert(before[a].0 != before[b].0);
            }
        }
    }
}

impl ScopeStack {
    /// An empty stack: no tag is open.
    pub fn new() -> (r: ScopeStack)
        ensures
            r@ == Seq::<ScopeView>::empty(),
    {
        let r = ScopeStack { scopes: Vec::new() };
        assert(r@ =~= Seq::<ScopeView>::empty());
        r
    }

    /// How many tags are open.
    pub fn depth(&self) -> (r: usize)
        ensures
            r == self@.len(),
    {
        self.scopes.len()
    }

    /// Opens a tag.
    pub fn push(&mut self, name: String, attributes: Vec<(String, String)>)
        ensures
            final(self)@ == old(self)@.push((name@, pairs_view(attributes@))),
    {
        self.scopes.push(Scope { name, attributes });
        assert(self@ =~= old(self)@.push((name@, pairs_view(attributes@))));
    }

    /// Closes the innermost tag, which must be named `name`. On an error the
    /// stack is left as it was.
    pub fn pop(&mut self, name: &String) -> (r: Result<(), CompileError>)
        ensures
            old(self)@.len() == 0 ==> r == Err::<(), CompileError>(CompileError::UnstartedTag),
            old(self)@.len() > 0 && old(self)@.last().0 != name@ ==> r == Err::<(), CompileError>(
                CompileError::MismatchedTag,
            ),
            old(self)@.len() > 0 && old(self)@.last().0 == name@ ==> r is Ok,
            r is Ok ==> final(self)@ == old(self)@.drop_last(),
            r is Err ==> final(self)@ == old(self)@,
    {
        let n = self.scopes.len();
        if n == 0 {
            return Err(CompileError::UnstartedTag);
        }
        if self.scopes[n - 1].name != *name {
            return Err(CompileError::MismatchedTag);
        }
        self.scopes.pop();
        assert(self@ =~= old(self)@.drop_last());
        Ok(())
    }

    /// The names of the open tags, outermost first.
    pub fn snapshot_tags(&self) -> (r: Vec<String>)
        ensures
            strings_view(r@) == scope_names(self@),
    {
        let mut r: Vec<String> = Vec::new();
        for i in 0..self.scopes.len()
            invariant
                strings_view(r@) == scope_names(self@.take(i as int)),
        {
            r.push(self.scopes[i].name.clone());
            assert(scope_names(self@.take(i + 1)) =~= scope_names(self@.take(i as int)).push(
                self@[i as int].0,
            ));
        }
        assert(self@.take(self.scopes.len() as int) =~= self@);
        r
    }

    /// The attributes in force, one pair per name, innermost definition first
    /// to win.
    pub fn snapshot_attributes(&self) -> (r: Vec<(String, String)>)
        ensures
            unique_keys(pairs_view(r@)),
            assoc(pairs_view(r@)) == flatten(self@),
    {
        let mut r: Vec<(String, String)> = Vec::new();
        assert(pairs_view(r@) =~= Seq::<(Seq<char>, Seq<char>)>::empty());
        for i in 0..self.scopes.len()
            invariant
                unique_keys(pairs_view(r@)),
                assoc(pairs_view(r@)) == flatten(self@.take(i as int)),
        {
            let attrs = &self.scopes[i].attributes;
            let ghost done = all_pairs(self@.take(i as int));
            let ghost mine = pairs_view(attrs@);
            for j in 0..attrs.len()
                invariant
                    mine == pairs_view(attrs@),
                    unique_keys(pairs_view(r@)),
                    assoc(pairs_view(r@)) == assoc(done + mine.take(j as int)),
            {
                insert_pair(&mut r, &attrs[j].0, &attrs[j].1);
                let ghost prev = done + mine.take(j as int);
                assert(done + mine.take(j + 1) =~= prev.push(mine[j as int]));
                assert(prev.push(mine[j as int]).drop_last() =~= prev);
            }
            assert(self@.take(i + 1).drop_last() =~= self@.take(i as int));
            assert(mine.take(attrs.len() as int) =~= mine);
        }
        assert(self@.take(self.scopes.len() as int) =~= self@);
        r
    }
}

} // verus!
