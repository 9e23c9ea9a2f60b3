//! The debug text of elements: `VACANT` for a freed slot, otherwise the
//! element's name, value, parent and children as a field list.
use vstd::prelude::*;
use vstd::string::StringExecFns;
use crate::config::value::ElemVal;
use crate::config::model::ElemModel;
use crate::config::manager::{Element, string_views};
use crate::config::text::decimal;

verus! {

/// The text std's `Debug` gives a string slice: the characters in double
/// quotes, with quotes, backslashes and control characters escaped.
pub uninterp spec fn debug_quoted(s: Seq<char>) -> Seq<char>;

/// `format!("{:?}", s)`. Trusted: the result is what `debug_quoted` names
/// for the characters of `s`.
#[verifier::external_body]
fn quote_debug(s: &str) -> (r: String)
    ensures
        r@ == debug_quoted(s@),
{
    format!("{:?}", s)
}

/// Texts joined with `, ` between them.
pub open spec fn joined(parts: Seq<Seq<char>>) -> Seq<char>
    decreases parts.len(),
{
    if parts.len() == 0 {
        Seq::empty()
    } else if parts.len() == 1 {
        parts[0]
    } else {
        joined(parts.drop_last()) + ", "@ + parts.last()
    }
}

/// The slots `cs` in decimal.
pub open spec fn index_texts(cs: Seq<usize>) -> Seq<Seq<char>> {
    Seq::new(cs.len(), |j: int| decimal(cs[j] as nat))
}

/// The fields an element shows, in order: a named element shows its name,
/// its value (as `value_text`) and its parent if it has one; an element
/// with children shows them.
pub open spec fn element_fields(em: ElemModel, value_text: Seq<char>) -> Seq<Seq<char>> {
    let own = if em.name.len() > 0 {
        let base = seq!["name: "@ + debug_quoted(em.name), "value: "@ + value_text];
        match em.parent {
            Some(p) => base.push("parent: "@ + decimal(p as nat)),
            None => base,
        }
    } else {
        Seq::empty()
    };
    if em.children.len() > 0 {
        own.push("children: ["@ + joined(index_texts(em.children)) + "]"@)
    } else {
        own
    }
}

/// The debug text of an element whose value reads as `value_text`:
/// `VACANT` for a freed slot, nothing when there is no field to show, else
/// its fields in braces.
pub open spec fn element_text_of(em: ElemModel, value_text: Seq<char>) -> Seq<char> {
    if em.value is Vacant {
        "VACANT"@
    } else if element_fields(em, value_text).len() == 0 {
        Seq::empty()
    } else {
        " { "@ + joined(element_fields(em, value_text)) + " }"@
    }
}

/// `parts` joined with `, ` between them.
fn joined_text(parts: &Vec<String>) -> (r: String)
    ensures
        r@ == joined(string_views(parts@)),
{
    let ghost ps = string_views(parts@);
    let mut r = String::new();
    let mut i: usize = 0;
    proof {
        assert(ps.take(0) =~= Seq::<Seq<char>>::empty());
    }
    while i < parts.len()
        invariant
            i <= parts@.len(),
            ps == string_views(parts@),
            r@ == joined(ps.take(i as int)),
        decreases parts@.len() - i,
    {
        let ghost before = r@;
        if i > 0 {
            r.append(", ");
        }
        r.append(parts[i].as_str());
        proof {
            assert(ps.take(i + 1).drop_last() =~= ps.take(i as int));
            assert(ps.take(i + 1).last() == parts@[i as int]@);
            if i == 0 {
                assert(ps.take(1).len() == 1);
                assert(r@ =~= ps.take(1)[0]);
            } else {
                assert(r@ =~= before + ", "@ + parts@[i as int]@);
            }
        }
        i = i + 1;
    }
    proof {
        assert(ps.take(i as int) =~= ps);
    }
    r
}

impl Element {
    /// The element's debug text, its value shown as `value_text`: `VACANT`
    /// for a freed slot; otherwise, in braces, its name (quoted as `Debug`
    /// quotes it), value and parent slot when it is named, and its child
    /// slots when it has children; nothing at all when neither applies.
    pub fn debug_text(&self, value_text: &str) -> (r: String)
        ensures
            r@ == element_text_of(self@, value_text@),
    {
        let ghost em = self@;
        if self.value_is_vacant() {
            return String::from_str("VACANT");
        }
        let mut fields: Vec<String> = Vec::new();
        if !self.name().is_empty() {
            let mut f = String::from_str("name: ");
            let q = quote_debug(self.name());
            f.append(q.as_str());
            fields.push(f);
            let mut g = String::from_str("value: ");
            g.append(value_text);
            fields.push(g);
            match self.parent_handle() {
                Some(p) => {
                    let mut h = String::from_str("parent: ");
                    let t = p.debug_text();
                    h.append(t.as_str());
                    fields.push(h);
                },
                None => {},
            }
        }
        proof {
            let own = if em.name.len() > 0 {
                let base = seq!["name: "@ + debug_quoted(em.name), "value: "@ + value_text@];
                match em.parent {
                    Some(p) => base.push("parent: "@ + decimal(p as nat)),
                    None => base,
                }
            } else {
                Seq::empty()
            };
            assert(string_views(fields@) =~= own);
        }
        let cs = self.child_handles();
        if cs.len() > 0 {
            let mut texts: Vec<String> = Vec::new();
            let mut i: usize = 0;
            while i < cs.len()
                invariant
                    i <= cs@.len(),
                    cs@.len() == em.children.len(),
                    forall|j: int| 0 <= j < cs@.len() ==> cs@[j]@ == em.children[j],
                    string_views(texts@) =~= index_texts(em.children).take(i as int),
                decreases cs@.len() - i,
            {
                let ghost before = texts@;
                let t = cs[i].debug_text();
                texts.push(t);
                proof {
                    assert(cs@[i as int]@ == em.children[i as int]);
                    assert(texts@ == before.push(t));
                    assert(string_views(texts@) =~= string_views(before).push(t@));
                    assert(string_views(texts@) =~= index_texts(em.children).take(i + 1));
                }
                i = i + 1;
            }
            proof {
                assert(index_texts(em.children).take(i as int) =~= index_texts(em.children));
            }
            let mut f = String::from_str("children: [");
            let j = joined_text(&texts);
            f.append(j.as_str());
            f.append("]");
            fields.push(f);
        }
        proof {
            assert(string_views(fields@) =~= element_fields(em, value_text@));
        }
        if fields.len() == 0 {
            String::new()
        } else {
            let mut r = String::from_str(" { ");
            let j = joined_text(&fields);
            r.append(j.as_str());
            r.append(" }");
            r
        }
    }
}

} // verus!
