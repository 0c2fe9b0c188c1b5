use vstd::prelude::*;

verus! {

/// A placeholder key that has no values registered in the pool.
#[derive(Debug, Clone, PartialEq, Eq)]
pub struct KeyLookUpError {
    key: String,
}

impl KeyLookUpError {
    pub closed spec fn key_view(&self) -> Seq<char> {
        self.key@
    }

    pub fn new(key: String) -> (r: Self)
        ensures
            r.key_view() == key@,
    {
        KeyLookUpError { key }
    }

    /// The key that was not found.
    pub fn key(&self) -> (r: &String)
        ensures
            r@ == self.key_view(),
    {
        &self.key
    }
}

} // verus!
