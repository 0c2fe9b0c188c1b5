use crate::template::{set_all, Template};
use crate::variant::Variant;
use vstd::prelude::*;

verus! {

/// The pairs that bind each key to the value at the same position.
pub open spec fn zip_pairs(keys: Seq<Seq<char>>, values: Seq<Seq<char>>) -> Seq<
    (Seq<char>, Seq<char>),
> {
    Seq::new(keys.len(), |i: int| (keys[i], values[i]))
}

/// The binding entries that result from binding each key, in order, to the
/// value at the same position.
pub open spec fn bind(keys: Seq<Seq<char>>, values: Seq<Seq<char>>) -> Seq<(Seq<char>, Seq<char>)> {
    set_all(Seq::empty(), zip_pairs(keys, values))
}

pub open spec fn strings_view(s: Seq<String>) -> Seq<Seq<char>> {
    s.map_values(|x: String| x@)
}

/// Binds a list of keys to each combination of their value lists in turn.
pub struct Solver<'a> {
    inner: Variant<'a, String>,
    keys: Vec<String>,
}

impl<'a> Solver<'a> {
    pub closed spec fn key_list(&self) -> Seq<Seq<char>> {
        strings_view(self.keys@)
    }

    /// The enumerator of value combinations.
    pub closed spec fn combinations(&self) -> Variant<'a, String> {
        self.inner
    }

    pub open spec fn total(&self) -> int {
        self.combinations().total()
    }

    pub open spec fn produced(&self) -> int {
        self.combinations().produced()
    }

    /// The binding at position `k` of the enumeration.
    pub open spec fn binding_at(&self, k: int) -> Seq<(Seq<char>, Seq<char>)> {
        bind(self.key_list(), strings_view(self.combinations().combination(k)))
    }

    pub open spec fn wf(&self) -> bool {
        &&& self.combinations().wf()
        &&& self.key_list().len() == self.combinations().items().len()
    }

    /// A solver for `keys`, the key at each position taking its values from
    /// the list at the same position.
    pub fn new(list: Vec<&'a [String]>, keys: Vec<String>) -> (r: Self)
        requires
            list@.len() == keys@.len(),
        ensures
            r.wf(),
            r.key_list() == strings_view(keys@),
            r.combinations().items() == list@.map_values(|s: &'a [String]| s@),
            r.produced() == 0,
    {
        let inner = Variant::new(list);
        Solver { inner, keys }
    }

    /// The binding for the next combination, or `None` once all are done.
    pub fn next(&mut self) -> (r: Option<Template>)
        requires
            old(self).wf(),
        ensures
            final(self).wf(),
            final(self).key_list() == old(self).key_list(),
            final(self).combinations().items() == old(self).combinations().items(),
            old(self).produced() < old(self).total() ==> {
                &&& r matches Some(t)
                &&& t.wf()
                &&& t@ == old(self).binding_at(old(self).produced())
                &&& final(self).produced() == old(self).produced() + 1
            },
            old(self).produced() >= old(self).total() ==> {
                &&& r is None
                &&& final(self).produced() == old(self).produced()
            },
    {
        let combo = match self.inner.next() {
            Some(c) => c,
            None => {
                return None;
            },
        };
        let ghost values = strings_view(old(self).combinations().combination(old(self).produced()));
        let ghost keys = self.key_list();
        assert(combo@.len() == keys.len()) by {
            assert(combo@.map_values(|x: &'a String| *x).len() == combo@.len());
        }
        let mut t = Template::empty();
        let mut i: usize = 0;
        while i < self.keys.len()
            invariant
                i <= keys.len(),
                keys == strings_view(self.keys@),
                combo@.len() == keys.len(),
                forall|j: int| 0 <= j < combo@.len() ==> #[trigger] (*combo@[j])@ == values[j],
                values.len() == keys.len(),
                t.wf(),
                t@ == set_all(Seq::empty(), zip_pairs(keys, values).take(i as int)),
            decreases keys.len() - i,
        {
            let k = self.keys[i].clone();
            let v = combo[i].clone();
            assert(zip_pairs(keys, values).take(i + 1).drop_last() =~= zip_pairs(keys, values).take(
                i as int,
            ));
            t.set(k, v);
            i = i + 1;
        }
        proof {
            assert(zip_pairs(keys, values).take(i as int) =~= zip_pairs(keys, values));
        }
        Some(t)
    }
}

} // verus!
