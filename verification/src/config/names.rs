use vstd::prelude::*;
use vstd::string::StringExecFns;

verus! {

/// A name an element may carry: not empty, and neither of the reserved words
/// `Meta` (which introduces metadata in JSON) nor `Value`.
pub open spec fn valid_elem_name(name: Seq<char>) -> bool {
    &&& name.len() > 0
    &&& name != "Meta"@
    &&& name != "Value"@
}

/// The message that rejects an invalid element name.
pub open spec fn invalid_name_message(name: Seq<char>) -> Seq<char> {
    "Element name '"@ + name + "' cannot be empty or the reserved strings 'Meta' or 'Value'."@
}

/// Whether two string slices hold the same characters.
pub(crate) fn str_eq(a: &str, b: &str) -> (r: bool)
    ensures
        r == (a@ == b@),
{
    let x: String = a.to_owned();
    let y: String = b.to_owned();
    x == y
}

/// Checks that `name` may be used for an element.
pub fn validate_elem_name(name: &str) -> (r: Result<(), String>)
    ensures
        r is Ok <==> valid_elem_name(name@),
        r is Ok <==> (name@.len() > 0 && name@ != "Meta"@ && name@ != "Value"@),
        r matches Err(msg) ==> msg@ == invalid_name_message(name@),
{
    if name.is_empty() || str_eq(name, "Meta") || str_eq(name, "Value") {
        let mut msg = String::from_str("Element name '");
        msg.append(name);
        msg.append("' cannot be empty or the reserved strings 'Meta' or 'Value'.");
        Err(msg)
    } else {
        Ok(())
    }
}

/// The names an element may carry are exactly the non-empty ones other
/// than `Meta` and `Value`: any other character, spaces included, is
/// allowed, and a name is compared whole, not by prefix.
pub proof fn lemma_valid_names(name: Seq<char>)
    ensures
        valid_elem_name(name) <==> (name.len() > 0 && name != "Meta"@ && name != "Value"@),
{
}

} // verus!
