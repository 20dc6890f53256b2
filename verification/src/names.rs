//! Column names: shared strings, compared by their characters.

use std::sync::Arc;
use vstd::prelude::*;

verus! {

/// `str::eq`: two string slices are equal exactly if they hold the same characters.
pub assume_specification[ <str as PartialEq>::eq ](a: &str, b: &str) -> (equal: bool)
    ensures
        equal == (a@ == b@),
;

/// `Arc::<str>::from`: a shared string with the characters of `text`.
#[verifier::external_body]
fn shared_str(text: &str) -> (name: Arc<str>)
    ensures
        name@ == text@,
{
    Arc::from(text)
}

/// A column name that reads `text`.
pub fn new_name(text: &str) -> (name: Arc<str>)
    ensures
        name@ == text@,
{
    shared_str(text)
}

/// Whether two names read the same.
pub fn same_name(a: &Arc<str>, b: &str) -> (same: bool)
    ensures
        same == (a@ == b@),
{
    let text: &str = &**a;
    *text == *b
}

/// The texts of a list of names.
pub open spec fn texts(names: Seq<Arc<str>>) -> Seq<Seq<char>> {
    names.map_values(|name: Arc<str>| name@)
}

/// Whether `text` is one of `names`.
pub fn name_in(names: &Vec<Arc<str>>, text: &str) -> (found: bool)
    ensures
        found == texts(names@).contains(text@),
{
    let mut i: usize = 0;
    while i < names.len()
        invariant
            i <= names@.len(),
            forall|j: int| 0 <= j < i ==> #[trigger] names@[j]@ != text@,
        decreases names@.len() - i,
    {
        if same_name(&names[i], text) {
            assert(texts(names@)[i as int] == text@);
            return true;
        }
        i += 1;
    }
    assert(!texts(names@).contains(text@)) by {
        if texts(names@).contains(text@) {
            let j = choose|j: int| 0 <= j < texts(names@).len() && texts(names@)[j] == text@;
            assert(names@[j]@ == text@);
        }
    }
    false
}

} // verus!
