use vstd::prelude::*;
use crate::config::manager::Element;
use crate::config::model::ElemModel;
use crate::config::names::str_eq;

verus! {

/// One test of an `ElemLookup`, as plain values.
pub enum LookupModel {
    /// The element is named so.
    Name(Seq<char>),
    /// The element has metadata under this name.
    HasMeta(Seq<char>),
    /// Metadata under this name, if present, has this value.
    Meta(Seq<char>, Seq<char>),
}

/// Whether an element passes one test.
pub open spec fn test_passes(t: LookupModel, em: ElemModel) -> bool {
    match t {
        LookupModel::Name(n) => em.name == n,
        LookupModel::HasMeta(n) => em.meta.contains_key(n),
        LookupModel::Meta(n, v) => em.meta.contains_key(n) ==> em.meta[n] == v,
    }
}

/// Whether an element passes every test of a lookup; an empty lookup
/// matches every element.
pub open spec fn lookup_matches(ts: Seq<LookupModel>, em: ElemModel) -> bool {
    forall|i: int| 0 <= i < ts.len() ==> test_passes(#[trigger] ts[i], em)
}

enum Lookup<'a> {
    Name(&'a str),
    HasMeta(&'a str),
    Meta { name: &'a str, value: &'a str },
}

spec fn lookup_model(l: Lookup) -> LookupModel {
    match l {
        Lookup::Name(n) => LookupModel::Name(n@),
        Lookup::HasMeta(n) => LookupModel::HasMeta(n@),
        Lookup::Meta { name, value } => LookupModel::Meta(name@, value@),
    }
}

/// A predicate over elements, built from tests that must all pass.
pub struct ElemLookup<'a> {
    lookups: Vec<Lookup<'a>>,
}

impl<'a> View for ElemLookup<'a> {
    type V = Seq<LookupModel>;

    closed spec fn view(&self) -> Seq<LookupModel> {
        self.lookups@.map_values(|l: Lookup<'a>| lookup_model(l))
    }
}

impl<'a> ElemLookup<'a> {
    /// A lookup with no tests, which matches every element.
    pub fn new() -> (r: Self)
        ensures
            r@ == Seq::<LookupModel>::empty(),
    {
        let r = ElemLookup { lookups: Vec::new() };
        proof {
            assert(r@ =~= Seq::<LookupModel>::empty());
        }
        r
    }

    /// Adds the test that the element is named `name`.
    pub fn match_name(self, name: &'a str) -> (r: Self)
        ensures
            r@ == self@.push(LookupModel::Name(name@)),
    {
        let mut s = self;
        s.lookups.push(Lookup::Name(name));
        proof {
            assert(s@ =~= self@.push(LookupModel::Name(name@)));
        }
        s
    }

    /// Adds the test that the element has metadata under `name`.
    pub fn match_has_meta(self, name: &'a str) -> (r: Self)
        ensures
            r@ == self@.push(LookupModel::HasMeta(name@)),
    {
        let mut s = self;
        s.lookups.push(Lookup::HasMeta(name));
        proof {
            assert(s@ =~= self@.push(LookupModel::HasMeta(name@)));
        }
        s
    }

    /// Adds the test that metadata under `name`, where the element has any,
    /// equals `value`.
    pub fn match_meta(self, name: &'a str, value: &'a str) -> (r: Self)
        ensures
            r@ == self@.push(LookupModel::Meta(name@, value@)),
    {
        let mut s = self;
        s.lookups.push(Lookup::Meta { name, value });
        proof {
            assert(s@ =~= self@.push(LookupModel::Meta(name@, value@)));
        }
        s
    }

    /// Whether element `e` passes every test.
    pub fn matches(&self, e: &Element) -> (r: bool)
        ensures
            r == lookup_matches(self@, e@),
            r <==> forall|i: int|
                0 <= i < self@.len() ==> match #[trigger] self@[i] {
                    LookupModel::Name(n) => e@.name == n,
                    LookupModel::HasMeta(n) => e@.meta.contains_key(n),
                    LookupModel::Meta(n, v) => e@.meta.contains_key(n) ==> e@.meta[n] == v,
                },
    {
        let mut i: usize = 0;
        while i < self.lookups.len()
            invariant
                i <= self.lookups@.len(),
                forall|j: int| 0 <= j < i ==> test_passes(#[trigger] self@[j], e@),
            decreases self.lookups@.len() - i,
        {
            let ok = match &self.lookups[i] {
                Lookup::Name(name) => str_eq(e.name(), name),
                Lookup::HasMeta(name) => e.has_meta(name),
                Lookup::Meta { name, value } => match e.get_meta(name) {
                    Some(v) => str_eq(v.as_str(), value),
                    None => true,
                },
            };
            assert(self@[i as int] == lookup_model(self.lookups@[i as int]));
            if !ok {
                return false;
            }
            i = i + 1;
        }
        true
    }
}

/// What a lookup tests, test by test: a name test holds when the element's
/// name equals the given name exactly (not a prefix of it); a metadata test
/// holds when the element has that key; a metadata-value test holds when
/// the element has no such key or stores exactly the given value under it.
/// A lookup matches when every one of its tests holds.
pub proof fn lemma_lookup_meaning(ls: Seq<LookupModel>, em: ElemModel)
    ensures
        lookup_matches(ls, em) <==> forall|i: int|
            0 <= i < ls.len() ==> match #[trigger] ls[i] {
                LookupModel::Name(n) => n == em.name,
                LookupModel::HasMeta(n) => em.meta.contains_key(n),
                LookupModel::Meta(n, v) => em.meta.contains_key(n) ==> em.meta[n] == v,
            },
{
    assert forall|i: int| 0 <= i < ls.len() implies (test_passes(#[trigger] ls[i], em) <==> match ls[i] {
        LookupModel::Name(n) => n == em.name,
        LookupModel::HasMeta(n) => em.meta.contains_key(n),
        LookupModel::Meta(n, v) => em.meta.contains_key(n) ==> em.meta[n] == v,
    }) by {}
}

/// A lookup made of one name test matches exactly the elements of that
/// name, character for character.
pub proof fn lemma_name_lookup(n: Seq<char>, em: ElemModel)
    ensures
        lookup_matches(seq![LookupModel::Name(n)], em) <==> em.name == n,
{
    assert(seq![LookupModel::Name(n)][0] == LookupModel::Name(n));
}

/// A lookup with no tests matches every element.
pub proof fn lemma_empty_lookup(em: ElemModel)
    ensures
        lookup_matches(Seq::empty(), em),
{
}

} // verus!
