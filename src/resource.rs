use crate::solver::Solver;
use crate::template::{apply_entries, set_entry, Template};
use crate::text::{decimal, decimal_string};
use vstd::prelude::*;

verus! {

/// The key that each resource binds to its 0-based position in the sequence.
pub const NTH_TEMPLATE: &'static str = "[nth]";

pub open spec fn nth_key() -> Seq<char> {
    seq!['[', 'n', 't', 'h', ']']
}

/// The destination path of a resource: the pattern with its binding applied.
pub open spec fn resource_path(pattern: Seq<char>, binding: Seq<(Seq<char>, Seq<char>)>) -> Seq<
    char,
> {
    apply_entries(binding, pattern)
}

/// The binding of the resource at position `k`: the solver's binding with the
/// position key merged in.
pub open spec fn resource_binding(binding: Seq<(Seq<char>, Seq<char>)>, k: int) -> Seq<
    (Seq<char>, Seq<char>),
> {
    set_entry(binding, nth_key(), decimal(k as nat))
}

/// One concrete output: a destination path and the binding that produced it.
#[derive(Debug)]
pub struct Resource {
    pub path: String,
    pub template: Template,
}

impl Resource {
    pub fn new(path: String, template: Template) -> (r: Self)
        ensures
            r.path == path,
            r.template == template,
    {
        Resource { path, template }
    }

    /// Applies the resource's binding to `content`.
    pub fn replace(&self, content: &str) -> (r: String)
        ensures
            r@ == apply_entries(self.template@, content@),
    {
        self.template.replace(content)
    }
}

/// The resources of one destination pattern, one per combination of the
/// values of its keys.
pub struct Resources<'a> {
    path: String,
    inner: Solver<'a>,
    index: usize,
}

impl<'a> Resources<'a> {
    pub closed spec fn pattern(&self) -> Seq<char> {
        self.path@
    }

    pub closed spec fn solver(&self) -> Solver<'a> {
        self.inner
    }

    /// Number of resources in the sequence.
    pub open spec fn total(&self) -> int {
        self.solver().total()
    }

    /// How many resources have been handed out.
    pub open spec fn produced(&self) -> int {
        self.solver().produced()
    }

    pub closed spec fn wf(&self) -> bool {
        &&& self.inner.wf()
        &&& self.index == self.inner.produced()
    }

    /// The resource at position `k`: its path and its binding.
    pub open spec fn resource_at(&self, k: int) -> (Seq<char>, Seq<(Seq<char>, Seq<char>)>) {
        let b = self.solver().binding_at(k);
        (resource_path(self.pattern(), b), resource_binding(b, k))
    }

    pub fn new(path: String, inner: Solver<'a>) -> (r: Self)
        requires
            inner.wf(),
            inner.produced() == 0,
        ensures
            r.wf(),
            r.pattern() == path@,
            r.solver() == inner,
            r.produced() == 0,
    {
        Resources { path, inner, index: 0 }
    }

    /// The next resource, or `None` once every combination has been used (or
    /// once `usize::MAX` resources, the most whose position fits, were handed
    /// out).
    pub fn next(&mut self) -> (r: Option<Resource>)
        requires
            old(self).wf(),
        ensures
            final(self).wf(),
            final(self).pattern() == old(self).pattern(),
            final(self).solver().key_list() == old(self).solver().key_list(),
            final(self).solver().combinations().items() == old(
                self,
            ).solver().combinations().items(),
            (old(self).produced() < old(self).total() && old(self).produced() < usize::MAX) ==> {
                &&& r matches Some(res)
                &&& res.path@ == old(self).resource_at(old(self).produced()).0
                &&& res.template@ == old(self).resource_at(old(self).produced()).1
                &&& res.template.wf()
                &&& final(self).produced() == old(self).produced() + 1
            },
            old(self).produced() >= old(self).total() ==> r is None,
    {
        if self.index == usize::MAX {
            return None;
        }
        let template = match self.inner.next() {
            Some(t) => t,
            None => {
                return None;
            },
        };
        let path = template.replace(self.path.as_str());
        let mut template = template;
        let key = NTH_TEMPLATE.to_owned();
        proof {
            reveal_strlit("[nth]");
        }
        assert(key@ == nth_key());
        template.set(key, decimal_string(self.index));
        self.index = self.index + 1;
        Some(Resource::new(path, template))
    }
}

/// A pattern without placeholders gives exactly one resource: the pattern
/// itself as path, bound only to the position key, with value `0`.
pub proof fn lemma_no_placeholder<'a>(res: &Resources<'a>)
    requires
        res.solver().wf(),
        res.solver().key_list().len() == 0,
    ensures
        res.total() == 1,
        res.resource_at(0).0 == res.pattern(),
        res.resource_at(0).1 == seq![(nth_key(), seq!['0'])],
{
    let items = res.solver().combinations().items();
    let lens = res.solver().combinations().lens();
    assert(lens.len() == 0);
    let b = res.solver().binding_at(0);
    assert(crate::solver::zip_pairs(res.solver().key_list(), crate::solver::strings_view(
        res.solver().combinations().combination(0),
    )) =~= Seq::empty());
    assert(b == Seq::<(Seq<char>, Seq<char>)>::empty());
    assert(crate::template::key_index(b, nth_key()) is None);
    assert(decimal(0) =~= seq!['0']);
    assert(res.resource_at(0).1 =~= seq![(nth_key(), seq!['0'])]);
}

} // verus!
