//! Spans ready for display, each with its own bag of attribute values.
use vstd::prelude::*;

use crate::assoc::{
    assoc, lemma_assoc_absent, lemma_assoc_index, lemma_assoc_remove, lemma_assoc_update,
    unique_keys,
};
use crate::compile::CompiledSpan;
use crate::word::{clone_strings, pairs_view, strings_view};

verus! {

/// Declares bevy's `Observer`, a one-shot event handler of the engine, so
/// that a bag can hold one and hand it out by move. Nothing inside it is read
/// here; it cannot be cloned, which is why the bag offers `take_observer`.
#[verifier::external_type_specification]
#[verifier::external_body]
pub struct ExObserver(bevy::ecs::observer::Observer);

/// A value held in a span's attribute bag: a tagged union of the kinds of
/// value that markup can attach.
pub enum Attribute {
    Observer(bevy::ecs::observer::Observer),
    String(String),
}

/// A span as a mathematical value.
pub struct SectionView {
    pub text: Seq<char>,
    pub tags: Seq<Seq<char>>,
    pub attributes: Map<Seq<char>, Attribute>,
}

impl SectionView {
    /// The value stored under `name`, if any.
    pub open spec fn lookup(self, name: Seq<char>) -> Option<Attribute> {
        if self.attributes.contains_key(name) {
            Some(self.attributes[name])
        } else {
            None
        }
    }

    /// The span with `name` set to `value`.
    pub open spec fn with(self, name: Seq<char>, value: Attribute) -> SectionView {
        SectionView { attributes: self.attributes.insert(name, value), ..self }
    }

    /// The span with no value under `name`.
    pub open spec fn without(self, name: Seq<char>) -> SectionView {
        SectionView { attributes: self.attributes.remove(name), ..self }
    }
}

/// The bag `m` holds, under each name of `src`, that name's text as a string
/// value, and nothing else.
pub open spec fn holds_text_of(m: Map<Seq<char>, Attribute>, src: Map<Seq<char>, Seq<char>>) -> bool {
    &&& m.dom() == src.dom()
    &&& forall|k: Seq<char>| #[trigger]
        src.contains_key(k) ==> m[k] is String && m[k]->String_0@ == src[k]
}

pub open spec fn bag_view(ps: Seq<(String, Attribute)>) -> Seq<(Seq<char>, Attribute)> {
    ps.map_values(|p: (String, Attribute)| (p.0@, p.1))
}

/// A text to display, the tags that enclose it, and a bag of attribute
/// values from which each value can be read or moved out by name.
pub struct Section {
    text: String,
    tags: Vec<String>,
    attributes: Vec<(String, Attribute)>,
}

impl View for Section {
    type V = SectionView;

    closed spec fn view(&self) -> SectionView {
        SectionView {
            text: self.text@,
            tags: strings_view(self.tags@),
            attributes: assoc(bag_view(self.attributes@)),
        }
    }
}

/// Copies a string slice into a `String`.
fn owned(s: &str) -> (r: String)
    ensures
        r@ == s@,
{
    s.to_owned()
}

impl Section {
    #[verifier::type_invariant]
    closed spec fn names_unique(&self) -> bool {
        unique_keys(bag_view(self.attributes@))
    }

    /// A span of `text` with no tags and an empty bag.
    pub fn new(text: &str) -> (r: Section)
        ensures
            r@.text == text@,
            r@.tags == Seq::<Seq<char>>::empty(),
            r@.attributes == Map::<Seq<char>, Attribute>::empty(),
    {
        let r = Section { text: owned(text), tags: Vec::new(), attributes: Vec::new() };
        assert(strings_view(r.tags@) =~= Seq::<Seq<char>>::empty());
        assert(bag_view(r.attributes@) =~= Seq::<(Seq<char>, Attribute)>::empty());
        r
    }

    /// The span with `tag` added as its innermost enclosing tag.
    pub fn with_tag(self, tag: &str) -> (r: Section)
        ensures
            r@ == (SectionView { tags: self@.tags.push(tag@), ..self@ }),
    {
        proof {
            use_type_invariant(&self);
        }
        let Section { text, mut tags, attributes } = self;
        tags.push(owned(tag));
        let r = Section { text, tags, attributes };
        assert(strings_view(r.tags@) =~= self@.tags.push(tag@));
        r
    }

    /// The span with `name` set to `value`.
    pub fn with_attribute(self, name: &str, value: Attribute) -> (r: Section)
        ensures
            r@ == self@.with(name@, value),
    {
        let mut r = self;
        r.set_attribute(name, value);
        r
    }

    /// Index of the entry named `name`, if there is one.
    fn find(&self, name: &String) -> (r: Option<usize>)
        ensures
            match r {
                Some(j) => j < self.attributes@.len() && self.attributes@[j as int].0@ == name@,
                None => forall|j: int|
                    0 <= j < self.attributes@.len() ==> #[trigger] bag_view(self.attributes@)[j].0
                        != name@,
            },
    {
        let mut j: usize = 0;
        while j < self.attributes.len()
            invariant
                j <= self.attributes@.len(),
                forall|i: int|
                    0 <= i < j ==> #[trigger] bag_view(self.attributes@)[i].0 != name@,
            decreases self.attributes@.len() - j,
        {
            if self.attributes[j].0 == *name {
                return Some(j);
            }
            j += 1;
        }
        None
    }

    /// Sets `name` to `value`, replacing any value it had.
    pub fn set_attribute(&mut self, name: &str, value: Attribute)
        ensures
            final(self)@ == old(self)@.with(name@, value),
    {
        proof {
            use_type_invariant(&*self);
        }
        let key = owned(name);
        let found = self.find(&key);
        let mut attrs: Vec<(String, Attribute)> = Vec::new();
        std::mem::swap(&mut attrs, &mut self.attributes);
        let ghost before = bag_view(attrs@);
        match found {
            Some(j) => {
                attrs.set(j, (key, value));
                proof {
                    lemma_assoc_update(before, j as int, value);
                    assert(bag_view(attrs@) =~= before.update(j as int, (name@, value)));
                }
            },
            None => {
                attrs.push((key, value));
                proof {
                    assert(bag_view(attrs@) =~= before.push((name@, value)));
                    assert(bag_view(attrs@).drop_last() =~= before);
                    assert forall|a: int, b: int|
                        0 <= a < b < bag_view(attrs@).len() implies #[trigger] bag_view(
                        attrs@,
                    )[a].0 != #[trigger] bag_view(attrs@)[b].0 by {
                        if b < before.len() {
                            assert(before[a].0 != before[b].0);
                        }
                    }
                }
            },
        }
        std::mem::swap(&mut attrs, &mut self.attributes);
        assert(self@.attributes =~= old(self)@.attributes.insert(name@, value));
    }

    /// The text to display.
    pub fn text(&self) -> (r: &str)
        ensures
            r@ == self@.text,
    {
        self.text.as_str()
    }

    /// The names of the enclosing tags, outermost first.
    pub fn tags(&self) -> (r: &Vec<String>)
        ensures
            strings_view(r@) == self@.tags,
    {
        &self.tags
    }

    /// Whether a tag named `tag` encloses the span.
    pub fn has_tag(&self, tag: &str) -> (r: bool)
        ensures
            r == self@.tags.contains(tag@),
    {
        let key = owned(tag);
        let mut j: usize = 0;
        while j < self.tags.len()
            invariant
                j <= self.tags@.len(),
                key@ == tag@,
                forall|i: int| 0 <= i < j ==> #[trigger] strings_view(self.tags@)[i] != tag@,
            decreases self.tags@.len() - j,
        {
            if self.tags[j] == key {
                assert(strings_view(self.tags@)[j as int] == tag@);
                return true;
            }
            j += 1;
        }
        proof {
            if self@.tags.contains(tag@) {
                let i = choose|i: int| 0 <= i < self@.tags.len() && self@.tags[i] == tag@;
                assert(strings_view(self.tags@)[i] == tag@);
            }
        }
        false
    }

    /// Reads the value under `name`, leaving it in the bag.
    pub fn get_attribute(&self, name: &str) -> (r: Option<&Attribute>)
        ensures
            match r {
                Some(a) => self@.lookup(name@) == Some(*a),
                None => self@.lookup(name@) is None,
            },
    {
        proof {
            use_type_invariant(self);
        }
        let key = owned(name);
        match self.find(&key) {
            Some(j) => {
                proof {
                    lemma_assoc_index(bag_view(self.attributes@), j as int);
                }
                Some(&self.attributes[j].1)
            },
            None => {
                proof {
                    lemma_assoc_absent(bag_view(self.attributes@), name@);
                }
                None
            },
        }
    }

    /// Reads the value under `name` if it is a string; any other value, or
    /// none, is a miss.
    pub fn get_string(&self, name: &str) -> (r: Option<&String>)
        ensures
            match r {
                Some(s) => self@.lookup(name@) == Some(Attribute::String(*s)),
                None => !(self@.lookup(name@) matches Some(Attribute::String(_))),
            },
    {
        match self.get_attribute(name) {
            Some(Attribute::String(s)) => Some(s),
            _ => None,
        }
    }

    /// Moves the value under `name` out of the bag; afterwards the bag holds
    /// nothing under that name.
    pub fn take_attribute(&mut self, name: &str) -> (r: Option<Attribute>)
        ensures
            r == old(self)@.lookup(name@),
            final(self)@ == old(self)@.without(name@),
    {
        proof {
            use_type_invariant(&*self);
        }
        let key = owned(name);
        match self.find(&key) {
            Some(j) => {
                let mut attrs: Vec<(String, Attribute)> = Vec::new();
                std::mem::swap(&mut attrs, &mut self.attributes);
                let ghost before = bag_view(attrs@);
                proof {
                    lemma_assoc_index(before, j as int);
                    lemma_assoc_remove(before, j as int);
                }
                let (_, value) = attrs.remove(j);
                assert(bag_view(attrs@) =~= before.remove(j as int));
                std::mem::swap(&mut attrs, &mut self.attributes);
                assert(self@.attributes =~= old(self)@.attributes.remove(name@));
                Some(value)
            },
            None => {
                proof {
                    lemma_assoc_absent(bag_view(self.attributes@), name@);
                    assert(self@.attributes =~= old(self)@.attributes.remove(name@));
                }
                None
            },
        }
    }

    /// Moves the value under `name` out of the bag if it is an event handler;
    /// otherwise returns nothing and leaves the bag as it was.
    pub fn take_observer(&mut self, name: &str) -> (r: Option<bevy::ecs::observer::Observer>)
        ensures
            match old(self)@.lookup(name@) {
                Some(Attribute::Observer(o)) => r == Some(o) && final(self)@ == old(self)@.without(
                    name@,
                ),
                _ => r is None && final(self)@ == old(self)@,
            },
    {
        match self.get_attribute(name) {
            Some(Attribute::Observer(_)) => {},
            _ => {
                return None;
            },
        }
        match self.take_attribute(name) {
            Some(Attribute::Observer(o)) => Some(o),
            _ => None,
        }
    }

    /// Moves the value under `name` out of the bag if it is a string;
    /// otherwise returns nothing and leaves the bag as it was.
    pub fn take_string(&mut self, name: &str) -> (r: Option<String>)
        ensures
            match old(self)@.lookup(name@) {
                Some(Attribute::String(s)) => r == Some(s) && final(self)@ == old(self)@.without(
                    name@,
                ),
                _ => r is None && final(self)@ == old(self)@,
            },
    {
        match self.get_attribute(name) {
            Some(Attribute::String(_)) => {},
            _ => {
                return None;
            },
        }
        match self.take_attribute(name) {
            Some(Attribute::String(s)) => Some(s),
            _ => None,
        }
    }

    /// The span for a compiled span, each attribute kept as its written text.
    pub fn from_span(span: &CompiledSpan) -> (r: Section)
        ensures
            r@.text == span@.text,
            r@.tags == span@.tags,
            holds_text_of(r@.attributes, span@.attributes),
    {
        let mut r = Section { text: span.text.clone(), tags: clone_strings(&span.tags), attributes: Vec::new() };
        assert(bag_view(r.attributes@) =~= Seq::<(Seq<char>, Attribute)>::empty());
        let ghost ps = pairs_view(span.attributes@);
        for i in 0..span.attributes.len()
            invariant
                ps == pairs_view(span.attributes@),
                r@.text == span@.text,
                r@.tags == span@.tags,
                holds_text_of(r@.attributes, assoc(ps.take(i as int))),
        {
            let p = &span.attributes[i];
            let ghost before = r@.attributes;
            r.set_attribute(p.0.as_str(), Attribute::String(p.1.clone()));
            assert(ps.take(i + 1).drop_last() =~= ps.take(i as int));
            let ghost src = assoc(ps.take(i + 1));
            assert(r@.attributes.dom() =~= src.dom());
            assert forall|k: Seq<char>| #[trigger] src.contains_key(k) implies r@.attributes[k] is String
                && r@.attributes[k]->String_0@ == src[k] by {
                if k != ps[i as int].0 {
                    assert(before.contains_key(k));
                }
            }
        }
        assert(ps.take(span.attributes.len() as int) =~= ps);
        r
    }
}

/// Take-once: after a value is set under `name`, the first take hands out
/// exactly that value; a second take under the same name hands out nothing,
/// and so does a read.
pub proof fn lemma_take_once(v: SectionView, name: Seq<char>, value: Attribute)
    ensures
        v.with(name, value).lookup(name) == Some(value),
        v.with(name, value).without(name).lookup(name) is None,
        v.with(name, value).without(name).without(name) == v.with(name, value).without(name),
{
    let once = v.with(name, value).without(name);
    assert(once.attributes.remove(name) =~= once.attributes);
}

/// An ordered list of spans, handed to a display as one unit.
pub struct Sections {
    sections: Vec<Section>,
}

impl View for Sections {
    type V = Seq<Section>;

    closed spec fn view(&self) -> Seq<Section> {
        self.sections@
    }
}

impl Sections {
    /// The spans, in order.
    pub fn new(sections: Vec<Section>) -> (r: Sections)
        ensures
            r@ == sections@,
    {
        Sections { sections }
    }

    /// A list of one span.
    pub fn new_single(section: Section) -> (r: Sections)
        ensures
            r@ == seq![section],
    {
        let r = Sections { sections: vec![section] };
        assert(r@ =~= seq![section]);
        r
    }

    /// How many spans there are.
    pub fn len(&self) -> (r: usize)
        ensures
            r == self@.len(),
    {
        self.sections.len()
    }

    /// The spans, in order, to read.
    pub fn iter(&self) -> (r: &[Section])
        ensures
            r@ == self@,
    {
        self.sections.as_slice()
    }

    /// The spans, in order, to change in place (to take values out of their
    /// bags).
    pub fn iter_mut(&mut self) -> (r: &mut Vec<Section>)
        ensures
            r@ == old(self)@,
            final(self)@ == final(r)@,
    {
        &mut self.sections
    }
}

} // verus!
