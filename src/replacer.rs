use crate::template::{apply_entries, pairs_view, set_all, Template};
use vstd::prelude::*;
use vstd::string::StringExecFns;

verus! {

/// `key` between double braces: `{{key}}`.
pub open spec fn braced(key: Seq<char>) -> Seq<char> {
    seq!['{', '{'] + key + seq!['}', '}']
}

/// The pair with its key between double braces.
pub fn surround_key_with_braces(item: (String, String)) -> (r: (String, String))
    ensures
        r.0@ == braced(item.0@),
        r.1 == item.1,
{
    let (key, value) = item;
    let open_brace = String::from_str("{{");
    let key = open_brace.concat(key.as_str()).concat("}}");
    proof {
        reveal_strlit("{{");
        reveal_strlit("}}");
    }
    assert(key@ =~= braced(item.0@));
    (key, value)
}

/// The pairs with their keys between double braces.
pub open spec fn braced_pairs(p: Seq<(Seq<char>, Seq<char>)>) -> Seq<(Seq<char>, Seq<char>)> {
    p.map_values(|x: (Seq<char>, Seq<char>)| (braced(x.0), x.1))
}

/// A binding of `{{key}}` placeholders, as keys written without braces in a
/// configuration are meant.
#[derive(Debug)]
pub struct Replacer {
    keys: Template,
}

impl Replacer {
    /// The binding of the braced keys.
    pub closed spec fn binding(&self) -> Template {
        self.keys
    }

    pub open spec fn wf(&self) -> bool {
        self.binding().wf()
    }

    pub fn new() -> (r: Self)
        ensures
            r.wf(),
            r.binding()@.len() == 0,
    {
        Replacer { keys: Template::empty() }
    }

    /// A replacer of the given pairs, each key put between double braces.
    pub fn from_config(keys: Vec<(String, String)>) -> (r: Self)
        ensures
            r.wf(),
            r.binding()@ == set_all(Seq::empty(), braced_pairs(pairs_view(keys@))),
    {
        let mut r = Replacer::new();
        let ghost all = braced_pairs(pairs_view(keys@));
        let mut i: usize = 0;
        while i < keys.len()
            invariant
                i <= keys@.len(),
                all == braced_pairs(pairs_view(keys@)),
                r.wf(),
                r.binding()@ == set_all(Seq::empty(), all.take(i as int)),
            decreases keys@.len() - i,
        {
            let k = keys[i].0.clone();
            let v = keys[i].1.clone();
            let (key, value) = surround_key_with_braces((k, v));
            assert(all.take(i + 1).drop_last() =~= all.take(i as int));
            r.keys.set(key, value);
            i = i + 1;
        }
        assert(all.take(i as int) =~= all);
        r
    }

    /// The braced keys and their values, in insertion order.
    pub fn keys(&self) -> (r: Vec<(String, String)>)
        ensures
            pairs_view(r@) == self.binding()@,
    {
        self.keys.entries()
    }

    /// Applies the replacer to a handle.
    pub fn apply(&self, handle: Handle) -> (r: Handle)
        ensures
            r.0@ == apply_entries(self.binding()@, handle.0@),
    {
        handle.apply(self)
    }

    /// Binds `{{key}}` to `value`; answers with the value it had before.
    pub fn insert(&mut self, key: String, value: String) -> (r: Option<String>)
        requires
            old(self).wf(),
        ensures
            final(self).wf(),
            final(self).binding().map() == old(self).binding().map().insert(braced(key@), value@),
            match r {
                Some(v) => old(self).binding().map().contains_key(braced(key@)) && v@ == old(
                    self,
                ).binding().map()[braced(key@)],
                None => !old(self).binding().map().contains_key(braced(key@)),
            },
    {
        let (key, value) = surround_key_with_braces((key, value));
        let previous = match self.keys.get(&key) {
            Some(v) => Some(v.clone()),
            None => None,
        };
        self.keys.set(key, value);
        previous
    }
}

/// A piece of text that replacers apply to.
#[derive(Debug, Clone, PartialEq, Eq, Default)]
pub struct Handle(pub String);

impl Handle {
    pub fn inner(&self) -> (r: &str)
        ensures
            r@ == self.0@,
    {
        self.0.as_str()
    }

    /// The text with the replacer applied, as a path.
    pub fn into_path(self, replacer: &Replacer) -> (r: String)
        ensures
            r@ == apply_entries(replacer.binding()@, self.0@),
    {
        self.apply(replacer).into_string()
    }

    pub fn into_string(self) -> (r: String)
        ensures
            r == self.0,
    {
        self.0
    }

    /// The text with every braced key of the replacer, in insertion order,
    /// replaced by its value.
    pub fn apply(self, replacer: &Replacer) -> (r: Self)
        ensures
            r.0@ == apply_entries(replacer.binding()@, self.0@),
    {
        let content = replacer.keys.replace(self.0.as_str());
        Handle(content)
    }
}

} // verus!
