//! Candidate lists as text.

use itertools::Itertools;
use vstd::prelude::*;
use vstd::string::StringExecFns;
use crate::tile::{views, Field, FieldView};

verus! {

/// The parts in their order, with `sep` between each two.
pub open spec fn joined(parts: Seq<Seq<char>>, sep: Seq<char>) -> Seq<char>
    decreases parts.len(),
{
    if parts.len() == 0 {
        Seq::empty()
    } else if parts.len() == 1 {
        parts[0]
    } else {
        joined(parts.drop_last(), sep) + sep + parts.last()
    }
}

/// The names of the artwork of the tiles of a list.
pub open spec fn names(list: Seq<FieldView>) -> Seq<Seq<char>> {
    Seq::new(list.len(), |i: int| list[i].img_name)
}

/// The text of a candidate list: the names of its tiles between square
/// brackets, separated by a comma and a space.
pub open spec fn entry_text(list: Seq<FieldView>) -> Seq<char> {
    seq!['['] + joined(names(list), seq![',', ' ']) + seq![']']
}

/// `Itertools::join` on the items of a vector of strings: the strings in
/// their order, with `sep` between each two, and the empty string for no
/// strings.
#[verifier::external_body]
fn join_strs(parts: &Vec<&str>, sep: &str) -> (r: String)
    ensures
        r@ == joined(views(parts@), sep@),
{
    parts.iter().join(sep)
}

/// The text of a candidate list: the names of its tiles between square
/// brackets, separated by a comma and a space.
pub fn entry_string(entry: &Vec<&Field>) -> (r: String)
    ensures
        r@ == entry_text(views(entry@)),
{
    let mut parts: Vec<&str> = Vec::new();
    let mut i: usize = 0;
    while i < entry.len()
        invariant
            i <= entry.len(),
            parts@.len() == i,
            forall|k: int| 0 <= k < i ==> (#[trigger] parts@[k])@ == entry@[k]@.img_name,
        decreases entry.len() - i,
    {
        parts.push(entry[i].img_name.as_str());
        i += 1;
    }
    assert(views(parts@) =~= names(views(entry@)));
    let inner = join_strs(&parts, ", ");
    let mut out = String::from_str("[");
    out.append(inner.as_str());
    out.append("]");
    proof {
        reveal_strlit("[");
        reveal_strlit("]");
        reveal_strlit(", ");
        assert("["@ =~= seq!['[']);
        assert("]"@ =~= seq![']']);
        assert(", "@ =~= seq![',', ' ']);
    }
    out
}

} // verus!
