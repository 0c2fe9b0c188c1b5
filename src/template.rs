use crate::text::{contains, lemma_replaced_absent, replace_str, replaced};
use vstd::prelude::*;

verus! {

/// The keys of the entries are pairwise distinct.
pub open spec fn distinct_keys(e: Seq<(Seq<char>, Seq<char>)>) -> bool {
    forall|i: int, j: int| 0 <= i < j < e.len() ==> #[trigger] e[i].0 != #[trigger] e[j].0
}

/// The key-to-value mapping that the entries describe; of two entries with
/// one key, the later one counts.
pub open spec fn entries_map(e: Seq<(Seq<char>, Seq<char>)>) -> Map<Seq<char>, Seq<char>>
    decreases e.len(),
{
    if e.len() == 0 {
        Map::empty()
    } else {
        entries_map(e.drop_last()).insert(e.last().0, e.last().1)
    }
}

/// Where `k` sits among the entries, if it does.
pub open spec fn key_index(e: Seq<(Seq<char>, Seq<char>)>, k: Seq<char>) -> Option<int> {
    if exists|i: int| 0 <= i < e.len() && e[i].0 == k {
        Some(choose|i: int| 0 <= i < e.len() && e[i].0 == k)
    } else {
        None
    }
}

/// The entries after binding `k` to `v`: an existing entry of `k` takes the
/// new value in place, a new key goes last.
pub open spec fn set_entry(e: Seq<(Seq<char>, Seq<char>)>, k: Seq<char>, v: Seq<char>) -> Seq<
    (Seq<char>, Seq<char>),
> {
    match key_index(e, k) {
        Some(i) => e.update(i, (k, v)),
        None => e.push((k, v)),
    }
}

/// The entries after binding each pair in turn.
pub open spec fn set_all(e: Seq<(Seq<char>, Seq<char>)>, pairs: Seq<(Seq<char>, Seq<char>)>) -> Seq<
    (Seq<char>, Seq<char>),
>
    decreases pairs.len(),
{
    if pairs.len() == 0 {
        e
    } else {
        let before = set_all(e, pairs.drop_last());
        set_entry(before, pairs.last().0, pairs.last().1)
    }
}

/// `text` after each entry, in order, has had every occurrence of its key
/// replaced by its value.
pub open spec fn apply_entries(e: Seq<(Seq<char>, Seq<char>)>, text: Seq<char>) -> Seq<char>
    decreases e.len(),
{
    if e.len() == 0 {
        text
    } else {
        replaced(apply_entries(e.drop_last(), text), e.last().0, e.last().1)
    }
}

pub open spec fn pairs_view(p: Seq<(String, String)>) -> Seq<(Seq<char>, Seq<char>)> {
    p.map_values(|x: (String, String)| (x.0@, x.1@))
}

/// What the entries map a key to: the value of the last entry of that key.
pub proof fn lemma_entries_map_last(e: Seq<(Seq<char>, Seq<char>)>, k: Seq<char>, i: int)
    requires
        0 <= i < e.len(),
        e[i].0 == k,
        forall|j: int| i < j < e.len() ==> #[trigger] e[j].0 != k,
    ensures
        entries_map(e).contains_key(k),
        entries_map(e)[k] == e[i].1,
    decreases e.len(),
{
    if i < e.len() - 1 {
        lemma_entries_map_last(e.drop_last(), k, i);
        assert(e[e.len() - 1].0 != k);
    }
}

pub proof fn lemma_entries_map_absent(e: Seq<(Seq<char>, Seq<char>)>, k: Seq<char>)
    requires
        forall|j: int| 0 <= j < e.len() ==> #[trigger] e[j].0 != k,
    ensures
        !entries_map(e).contains_key(k),
    decreases e.len(),
{
    if e.len() > 0 {
        lemma_entries_map_absent(e.drop_last(), k);
        assert(e[e.len() - 1].0 != k);
    }
}

/// Binding a key keeps the keys distinct and updates the mapping as a map
/// insert does.
pub proof fn lemma_set_entry(e: Seq<(Seq<char>, Seq<char>)>, k: Seq<char>, v: Seq<char>)
    requires
        distinct_keys(e),
    ensures
        distinct_keys(set_entry(e, k, v)),
        entries_map(set_entry(e, k, v)) == entries_map(e).insert(k, v),
{
    let r = set_entry(e, k, v);
    match key_index(e, k) {
        Some(i) => {
            assert(distinct_keys(r));
            assert forall|q: Seq<char>| #[trigger]
                entries_map(r).contains_key(q) == entries_map(e).insert(k, v).contains_key(q)
                    && (entries_map(r).contains_key(q) ==> entries_map(r)[q] == entries_map(
                    e,
                ).insert(k, v)[q]) by {
                if q == k {
                    lemma_entries_map_last(r, k, i);
                } else if exists|j: int| 0 <= j < e.len() && e[j].0 == q {
                    let j = choose|j: int| 0 <= j < e.len() && e[j].0 == q;
                    lemma_entries_map_last(e, q, j);
                    lemma_entries_map_last(r, q, j);
                } else {
                    lemma_entries_map_absent(e, q);
                    lemma_entries_map_absent(r, q);
                }
            }
            assert(entries_map(r) =~= entries_map(e).insert(k, v));
        },
        None => {
            assert(distinct_keys(r));
            assert(r.drop_last() =~= e);
        },
    }
}

/// A binding of placeholder keys to values: entries in insertion order, each
/// key at most once.
#[derive(Debug)]
pub struct Template {
    keys: Vec<(String, String)>,
}

impl View for Template {
    type V = Seq<(Seq<char>, Seq<char>)>;

    closed spec fn view(&self) -> Seq<(Seq<char>, Seq<char>)> {
        pairs_view(self.keys@)
    }
}

impl Template {
    /// The binding as a mapping from key to value.
    pub open spec fn map(&self) -> Map<Seq<char>, Seq<char>> {
        entries_map(self@)
    }

    pub open spec fn wf(&self) -> bool {
        distinct_keys(self@)
    }

    pub fn empty() -> (r: Self)
        ensures
            r.wf(),
            r@ == Seq::<(Seq<char>, Seq<char>)>::empty(),
    {
        let r = Template { keys: Vec::new() };
        assert(r@ =~= Seq::<(Seq<char>, Seq<char>)>::empty());
        r
    }

    /// A binding of the given pairs, bound in turn.
    pub fn new(keys: Vec<(String, String)>) -> (r: Self)
        ensures
            r.wf(),
            r@ == set_all(Seq::empty(), pairs_view(keys@)),
    {
        let mut t = Template::empty();
        let mut i: usize = 0;
        while i < keys.len()
            invariant
                i <= keys@.len(),
                t.wf(),
                t@ == set_all(Seq::empty(), pairs_view(keys@).take(i as int)),
            decreases keys@.len() - i,
        {
            let k = keys[i].0.clone();
            let v = keys[i].1.clone();
            t.set(k, v);
            assert(pairs_view(keys@).take(i + 1).drop_last() =~= pairs_view(keys@).take(i as int));
            i = i + 1;
        }
        assert(pairs_view(keys@).take(i as int) =~= pairs_view(keys@));
        t
    }

    /// Where `key` sits among the entries.
    fn find(&self, key: &String) -> (r: Option<usize>)
        ensures
            match r {
                Some(i) => i < self@.len() && self@[i as int].0 == key@ && forall|j: int|
                    i < j < self@.len() ==> #[trigger] self@[j].0 != key@,
                None => forall|j: int| 0 <= j < self@.len() ==> #[trigger] self@[j].0 != key@,
            },
    {
        let mut i: usize = self.keys.len();
        while i > 0
            invariant
                i <= self@.len(),
                self@.len() == self.keys@.len(),
                forall|j: int| i <= j < self@.len() ==> #[trigger] self@[j].0 != key@,
            decreases i,
        {
            i = i - 1;
            if self.keys[i].0 == *key {
                return Some(i);
            }
        }
        None
    }

    /// The value bound to `key`.
    pub fn get(&self, key: &String) -> (r: Option<&String>)
        ensures
            r is Some <==> self.map().contains_key(key@),
            r matches Some(v) ==> v@ == self.map()[key@],
    {
        match self.find(key) {
            Some(i) => {
                proof {
                    lemma_entries_map_last(self@, key@, i as int);
                }
                Some(&self.keys[i].1)
            },
            None => {
                proof {
                    lemma_entries_map_absent(self@, key@);
                }
                None
            },
        }
    }

    /// The entries, in insertion order.
    pub fn entries(&self) -> (r: Vec<(String, String)>)
        ensures
            pairs_view(r@) == self@,
    {
        self.clone().keys
    }

    /// Number of keys bound.
    pub fn len(&self) -> (r: usize)
        ensures
            r == self@.len(),
    {
        self.keys.len()
    }

    /// Replaces, for each entry in insertion order, every occurrence of its
    /// key in `content` by its value.
    pub fn replace(&self, content: &str) -> (r: String)
        ensures
            r@ == apply_entries(self@, content@),
    {
        let mut acc = content.to_owned();
        let mut i: usize = 0;
        while i < self.keys.len()
            invariant
                i <= self@.len(),
                self@.len() == self.keys@.len(),
                acc@ == apply_entries(self@.take(i as int), content@),
            decreases self@.len() - i,
        {
            let next = replace_str(acc.as_str(), self.keys[i].0.as_str(), self.keys[i].1.as_str());
            assert(self@.take(i + 1).drop_last() =~= self@.take(i as int));
            acc = next;
            i = i + 1;
        }
        assert(self@.take(i as int) =~= self@);
        acc
    }

    /// Binds `key` to `value` and hands the binding back.
    pub fn insert(self, key: String, value: String) -> (r: Self)
        requires
            self.wf(),
        ensures
            r.wf(),
            r@ == set_entry(self@, key@, value@),
            r.map() == self.map().insert(key@, value@),
    {
        let mut t = self;
        t.set(key, value);
        t
    }

    /// Binds `key` to `value`: an existing entry of `key` takes the new value,
    /// a new key goes last.
    pub fn set(&mut self, key: String, value: String)
        requires
            old(self).wf(),
        ensures
            final(self).wf(),
            final(self)@ == set_entry(old(self)@, key@, value@),
            final(self).map() == old(self).map().insert(key@, value@),
    {
        proof {
            lemma_set_entry(self@, key@, value@);
        }
        let ghost e = self@;
        match self.find(&key) {
            Some(i) => {
                proof {
                    let j = choose|j: int| 0 <= j < e.len() && e[j].0 == key@;
                    if j != i {
                        if j < i {
                            assert(e[j].0 != e[i as int].0);
                        } else {
                            assert(e[j].0 != e[i as int].0);
                        }
                    }
                }
                self.keys.set(i, (key, value));
                assert(self@ =~= set_entry(e, key@, value@));
            },
            None => {
                self.keys.push((key, value));
                assert(self@ =~= set_entry(e, key@, value@));
            },
        }
    }
}

/// Applying a binding to a text that holds none of its keys gives the text
/// back; an empty binding leaves every text as it is.
pub proof fn lemma_apply_without_keys(e: Seq<(Seq<char>, Seq<char>)>, text: Seq<char>)
    requires
        forall|i: int| 0 <= i < e.len() ==> !contains(text, #[trigger] e[i].0),
    ensures
        apply_entries(e, text) == text,
        e.len() == 0 ==> apply_entries(e, text) == text,
    decreases e.len(),
{
    if e.len() > 0 {
        let p = e.drop_last();
        assert forall|i: int| 0 <= i < p.len() implies !contains(text, #[trigger] p[i].0) by {
            assert(p[i] == e[i]);
        }
        lemma_apply_without_keys(p, text);
        assert(!contains(text, e[e.len() - 1].0));
        lemma_replaced_absent(text, e.last().0, e.last().1);
    }
}

impl Default for Template {
    fn default() -> (r: Self)
        ensures
            r.wf(),
            r@ == Seq::<(Seq<char>, Seq<char>)>::empty(),
    {
        Template::empty()
    }
}

impl Clone for Template {
    fn clone(&self) -> (r: Self)
        ensures
            r@ == self@,
    {
        let mut keys: Vec<(String, String)> = Vec::new();
        let mut i: usize = 0;
        while i < self.keys.len()
            invariant
                i <= self.keys@.len(),
                keys@.len() == i,
                pairs_view(keys@) == pairs_view(self.keys@).take(i as int),
            decreases self.keys@.len() - i,
        {
            let k = self.keys[i].0.clone();
            let v = self.keys[i].1.clone();
            let ghost before = keys@;
            keys.push((k, v));
            assert forall|j: int| 0 <= j < i + 1 implies #[trigger] pairs_view(keys@)[j]
                == pairs_view(self.keys@)[j] by {
                if j < i {
                    assert(keys@[j] == before[j]);
                    assert(pairs_view(before)[j] == pairs_view(self.keys@).take(i as int)[j]);
                }
            }
            assert(pairs_view(keys@) =~= pairs_view(self.keys@).take(i + 1));
            i = i + 1;
        }
        assert(pairs_view(self.keys@).take(i as int) =~= pairs_view(self.keys@));
        Template { keys }
    }
}

impl PartialEq for Template {
    fn eq(&self, other: &Self) -> (r: bool) {
        let r = self.covered_by(other) && other.covered_by(self);
        proof {
            if r {
                assert(self.map() =~= other.map());
            }
        }
        r
    }
}

impl vstd::std_specs::cmp::PartialEqSpecImpl for Template {
    open spec fn obeys_eq_spec() -> bool {
        true
    }

    open spec fn eq_spec(&self, other: &Template) -> bool {
        self.map() == other.map()
    }
}

impl Eq for Template {

}

impl Template {
    /// Every key of `self` is bound in `other` to the same value.
    fn covered_by(&self, other: &Template) -> (r: bool)
        ensures
            r <==> forall|k: Seq<char>| #[trigger]
                self.map().contains_key(k) ==> other.map().contains_key(k) && other.map()[k]
                    == self.map()[k],
    {
        let mut i: usize = 0;
        while i < self.keys.len()
            invariant
                i <= self@.len(),
                self@.len() == self.keys@.len(),
                forall|j: int|
                    0 <= j < i ==> #[trigger] other.map().contains_key(self@[j].0)
                        && other.map()[self@[j].0] == self.map()[self@[j].0],
            decreases self@.len() - i,
        {
            assert(self.keys@[i as int].0@ == self@[i as int].0);
            let key = &self.keys[i].0;
            proof {
                lemma_entries_map_last_exists(self@, self@[i as int].0, i as int);
            }
            let mine = self.get(key);
            let theirs = other.get(key);
            if mine.is_none() || theirs.is_none() {
                return false;
            }
            let a = mine.unwrap();
            let b = theirs.unwrap();
            let same = *a == *b;
            if !same {
                return false;
            }
            assert(a@ == b@);
            assert(other.map().contains_key(self@[i as int].0) && other.map()[self@[i as int].0]
                == self.map()[self@[i as int].0]);
            assert forall|j: int| 0 <= j < i + 1 implies #[trigger] other.map().contains_key(self@[j].0)
                && other.map()[self@[j].0] == self.map()[self@[j].0] by {
                if j < i {
                    assert(other.map().contains_key(self@[j].0));
                }
            }
            i = i + 1;
        }
        proof {
            assert forall|k: Seq<char>| #[trigger] self.map().contains_key(k) implies other.map().contains_key(
                k,
            ) && other.map()[k] == self.map()[k] by {
                if forall|j: int| 0 <= j < self@.len() ==> #[trigger] self@[j].0 != k {
                    lemma_entries_map_absent(self@, k);
                } else {
                    let j = choose|j: int| 0 <= j < self@.len() && self@[j].0 == k;
                    assert(other.map().contains_key(self@[j].0));
                }
            }
        }
        true
    }
}

/// A key of some entry is bound in the mapping.
pub proof fn lemma_entries_map_last_exists(e: Seq<(Seq<char>, Seq<char>)>, k: Seq<char>, i: int)
    requires
        0 <= i < e.len(),
        e[i].0 == k,
    ensures
        entries_map(e).contains_key(k),
    decreases e.len(),
{
    if i < e.len() - 1 {
        lemma_entries_map_last_exists(e.drop_last(), k, i);
    }
}

} // verus!
