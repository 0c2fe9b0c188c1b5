use crate::error::KeyLookUpError;
use crate::resource::{nth_key, Resources};
use crate::solver::{strings_view, Solver};
use vstd::prelude::*;

verus! {

/// Whether `regex::Regex::new` accepts the rule.
pub uninterp spec fn rule_compiles(rule: Seq<char>) -> bool;

/// For each successive match of the compiled rule in `text`, the text of its
/// first group, if that group took part in the match.
pub uninterp spec fn rule_captures(rule: Seq<char>, text: Seq<char>) -> Seq<Option<Seq<char>>>;

pub open spec fn optional_strings_view(s: Seq<Option<String>>) -> Seq<Option<Seq<char>>> {
    s.map_values(
        |x: Option<String>|
            match x {
                Some(t) => Some(t@),
                None => None,
            },
    )
}

/// Relies on `regex::Regex::new`, which accepts or refuses a rule by its text
/// alone, and on `Regex::captures_iter`: for each successive non-overlapping
/// match, in order, its first group (`Captures::get(1)`).
#[verifier::external_body]
fn first_groups(rule: &str, text: &str) -> (r: Option<Vec<Option<String>>>)
    ensures
        r is Some <==> rule_compiles(rule@),
        r matches Some(v) ==> optional_strings_view(v@) == rule_captures(rule@, text@),
{
    match regex::Regex::new(rule) {
        Ok(re) => Some(
            re.captures_iter(text).map(|c| c.get(1).map(|m| m.as_str().to_string())).collect(),
        ),
        Err(_) => None,
    }
}

/// The texts that are present, in order.
pub open spec fn present(s: Seq<Option<Seq<char>>>) -> Seq<Seq<char>>
    decreases s.len(),
{
    if s.len() == 0 {
        Seq::empty()
    } else {
        match s.last() {
            Some(t) => present(s.drop_last()).push(t),
            None => present(s.drop_last()),
        }
    }
}

/// The groups that took part in their match, in order.
pub fn present_groups(groups: &Vec<Option<String>>) -> (r: Vec<String>)
    ensures
        strings_view(r@) == present(optional_strings_view(groups@)),
{
    let mut result: Vec<String> = Vec::new();
    let mut i: usize = 0;
    while i < groups.len()
        invariant
            i <= groups@.len(),
            strings_view(result@) == present(optional_strings_view(groups@).take(i as int)),
        decreases groups@.len() - i,
    {
        let ghost s = optional_strings_view(groups@).take(i + 1);
        assert(s.drop_last() =~= optional_strings_view(groups@).take(i as int));
        match &groups[i] {
            Some(t) => {
                let t = t.clone();
                result.push(t);
                assert(strings_view(result@) =~= present(s));
            },
            None => {},
        }
        i = i + 1;
    }
    assert(optional_strings_view(groups@).take(i as int) =~= optional_strings_view(groups@));
    result
}

/// `s` with each item kept only where it first occurs.
pub open spec fn first_occurrences(s: Seq<Seq<char>>) -> Seq<Seq<char>>
    decreases s.len(),
{
    if s.len() == 0 {
        s
    } else {
        let d = first_occurrences(s.drop_last());
        if d.contains(s.last()) {
            d
        } else {
            d.push(s.last())
        }
    }
}

/// The keys that `rule` recognises in `text`, each once, in order of first
/// occurrence; none for a rule that does not compile.
pub open spec fn captured_keys(rule: Seq<char>, text: Seq<char>) -> Seq<Seq<char>> {
    if rule_compiles(rule) {
        first_occurrences(present(rule_captures(rule, text)))
    } else {
        Seq::empty()
    }
}

pub open spec fn pool_entries(p: Seq<(String, Vec<String>)>) -> Seq<(Seq<char>, Seq<Seq<char>>)> {
    p.map_values(|x: (String, Vec<String>)| (x.0@, strings_view(x.1@)))
}

pub open spec fn distinct_pool_keys(e: Seq<(Seq<char>, Seq<Seq<char>>)>) -> bool {
    forall|i: int, j: int| 0 <= i < j < e.len() ==> #[trigger] e[i].0 != #[trigger] e[j].0
}

/// The values registered for `k`, if any.
pub open spec fn lookup(e: Seq<(Seq<char>, Seq<Seq<char>>)>, k: Seq<char>) -> Option<
    Seq<Seq<char>>,
> {
    if exists|i: int| 0 <= i < e.len() && e[i].0 == k {
        Some(e[choose|i: int| 0 <= i < e.len() && e[i].0 == k].1)
    } else {
        None
    }
}

pub proof fn lemma_lookup_at(e: Seq<(Seq<char>, Seq<Seq<char>>)>, i: int)
    requires
        distinct_pool_keys(e),
        0 <= i < e.len(),
    ensures
        lookup(e, e[i].0) == Some(e[i].1),
{
    let k = e[i].0;
    let j = choose|j: int| 0 <= j < e.len() && e[j].0 == k;
    if j != i {
        if j < i {
            assert(e[j].0 != e[i].0);
        } else {
            assert(e[i].0 != e[j].0);
        }
    }
}

/// Whether `v` holds `s`.
fn holds(v: &Vec<String>, s: &String) -> (r: bool)
    ensures
        r == strings_view(v@).contains(s@),
{
    let mut i: usize = 0;
    while i < v.len()
        invariant
            i <= v@.len(),
            forall|j: int| 0 <= j < i ==> #[trigger] strings_view(v@)[j] != s@,
        decreases v@.len() - i,
    {
        if v[i] == *s {
            assert(strings_view(v@)[i as int] == s@);
            return true;
        }
        i = i + 1;
    }
    false
}

/// The keys found, each kept only at its first occurrence.
pub fn dedup_keys(found: &Vec<String>) -> (r: Vec<String>)
    ensures
        strings_view(r@) == first_occurrences(strings_view(found@)),
{
    let mut result: Vec<String> = Vec::new();
    let mut i: usize = 0;
    while i < found.len()
        invariant
            i <= found@.len(),
            strings_view(result@) == first_occurrences(strings_view(found@).take(i as int)),
        decreases found@.len() - i,
    {
        let ghost s = strings_view(found@).take(i + 1);
        assert(s.drop_last() =~= strings_view(found@).take(i as int));
        if !holds(&result, &found[i]) {
            let k = found[i].clone();
            result.push(k);
            assert(strings_view(result@) =~= first_occurrences(s));
        }
        i = i + 1;
    }
    assert(strings_view(found@).take(i as int) =~= strings_view(found@));
    result
}

/// The rule that recognises placeholder keys: a bracketed word such as
/// `[color]`.
pub const DEFAULT_RULE: &'static str = r"(\[[\w\d_\-]+?\])";

/// A registry of placeholder keys, each with its ordered list of values, and
/// the rule that recognises keys in text.
#[derive(Debug)]
pub struct Pool {
    pool: Vec<(String, Vec<String>)>,
    capture_rule: String,
}

impl View for Pool {
    type V = Seq<(Seq<char>, Seq<Seq<char>>)>;

    closed spec fn view(&self) -> Seq<(Seq<char>, Seq<Seq<char>>)> {
        pool_entries(self.pool@)
    }
}

impl Pool {
    /// The rule's text.
    pub closed spec fn rule(&self) -> Seq<char> {
        self.capture_rule@
    }

    pub open spec fn wf(&self) -> bool {
        distinct_pool_keys(self@)
    }

    /// The values registered for `k`, if any.
    pub open spec fn values(&self, k: Seq<char>) -> Option<Seq<Seq<char>>> {
        lookup(self@, k)
    }

    /// An empty pool that recognises keys by the given regular expression,
    /// whose first group is the key; `None` when the expression does not
    /// compile.
    pub fn new(capture_rule: String) -> (r: Option<Self>)
        ensures
            r is Some <==> rule_compiles(capture_rule@),
            r matches Some(p) ==> p.wf() && p@.len() == 0 && p.rule() == capture_rule@,
    {
        match first_groups(capture_rule.as_str(), "") {
            Some(_) => Some(Pool { pool: Vec::new(), capture_rule }),
            None => None,
        }
    }

    /// An empty pool with the bracketed-word rule.
    pub fn default_rule() -> (r: Self)
        ensures
            r.wf(),
            r@.len() == 0,
            r.rule() == DEFAULT_RULE@,
    {
        Pool { pool: Vec::new(), capture_rule: DEFAULT_RULE.to_owned() }
    }

    fn find(&self, key: &String) -> (r: Option<usize>)
        ensures
            match r {
                Some(i) => i < self@.len() && self@[i as int].0 == key@,
                None => forall|j: int| 0 <= j < self@.len() ==> #[trigger] self@[j].0 != key@,
            },
    {
        let mut i: usize = 0;
        while i < self.pool.len()
            invariant
                i <= self@.len(),
                self@.len() == self.pool@.len(),
                forall|j: int| 0 <= j < i ==> #[trigger] self@[j].0 != key@,
            decreases self@.len() - i,
        {
            if self.pool[i].0 == *key {
                return Some(i);
            }
            i = i + 1;
        }
        None
    }

    /// The values registered for `key`.
    pub fn get(&self, key: &String) -> (r: Option<&[String]>)
        requires
            self.wf(),
        ensures
            match r {
                Some(s) => self.values(key@) == Some(strings_view(s@)),
                None => self.values(key@) is None,
            },
    {
        match self.find(key) {
            Some(i) => {
                proof {
                    lemma_lookup_at(self@, i as int);
                }
                Some(self.pool[i].1.as_slice())
            },
            None => None,
        }
    }

    /// Registers `value` as the whole value list of `key`.
    pub fn insert(&mut self, key: String, value: Vec<String>)
        requires
            old(self).wf(),
            key@ != nth_key(),
        ensures
            final(self).wf(),
            final(self).rule() == old(self).rule(),
            final(self).values(key@) == Some(strings_view(value@)),
            forall|k: Seq<char>| k != key@ ==> final(self).values(k) == old(self).values(k),
    {
        let ghost e = self@;
        match self.find(&key) {
            Some(i) => {
                self.pool.set(i, (key, value));
                proof {
                    let f = self@;
                    assert(f =~= e.update(i as int, (key@, strings_view(value@))));
                    assert(distinct_pool_keys(f));
                    lemma_lookup_at(f, i as int);
                    self.lemma_values_unchanged(e, i as int);
                }
            },
            None => {
                self.pool.push((key, value));
                proof {
                    let f = self@;
                    assert(f =~= e.push((key@, strings_view(value@))));
                    assert(distinct_pool_keys(f));
                    lemma_lookup_at(f, e.len() as int);
                    self.lemma_values_unchanged(e, e.len() as int);
                }
            },
        }
    }

    /// Adds `value` at the end of the value list of `key`.
    pub fn append(&mut self, key: String, value: String)
        requires
            old(self).wf(),
            key@ != nth_key(),
        ensures
            final(self).wf(),
            final(self).rule() == old(self).rule(),
            final(self).values(key@) == Some(
                match old(self).values(key@) {
                    Some(vs) => vs,
                    None => Seq::empty(),
                }.push(value@),
            ),
            forall|k: Seq<char>| k != key@ ==> final(self).values(k) == old(self).values(k),
    {
        let ghost e = self@;
        match self.find(&key) {
            Some(i) => {
                proof {
                    lemma_lookup_at(e, i as int);
                }
                let (k, mut list) = self.pool.remove(i);
                let ghost old_list = list@;
                list.push(value);
                self.pool.insert(i, (k, list));
                proof {
                    let f = self@;
                    assert(strings_view(list@) =~= strings_view(old_list).push(value@));
                    assert(f =~= e.update(i as int, (key@, e[i as int].1.push(value@))));
                    assert(distinct_pool_keys(f));
                    lemma_lookup_at(f, i as int);
                    self.lemma_values_unchanged(e, i as int);
                }
            },
            None => {
                let mut list: Vec<String> = Vec::new();
                list.push(value);
                self.pool.push((key, list));
                proof {
                    let f = self@;
                    assert(strings_view(list@) =~= Seq::<Seq<char>>::empty().push(value@));
                    assert(f =~= e.push((key@, strings_view(list@))));
                    assert(distinct_pool_keys(f));
                    lemma_lookup_at(f, e.len() as int);
                    self.lemma_values_unchanged(e, e.len() as int);
                }
            },
        }
    }

    /// Replacing or adding the entry at `i` leaves the other keys' values as
    /// they were.
    proof fn lemma_values_unchanged(&self, e: Seq<(Seq<char>, Seq<Seq<char>>)>, i: int)
        requires
            distinct_pool_keys(e),
            distinct_pool_keys(self@),
            0 <= i <= e.len(),
            i == e.len() ==> self@.len() == e.len() + 1,
            i < e.len() ==> self@.len() == e.len(),
            forall|j: int| 0 <= j < e.len() && j != i ==> #[trigger] self@[j] == e[j],
            i < e.len() ==> self@[i].0 == e[i].0,
        ensures
            forall|k: Seq<char>| k != self@[i].0 ==> #[trigger] lookup(self@, k) == lookup(e, k),
    {
        assert forall|k: Seq<char>| k != self@[i].0 implies #[trigger] lookup(self@, k) == lookup(
            e,
            k,
        ) by {
            if exists|j: int| 0 <= j < e.len() && e[j].0 == k {
                let j = choose|j: int| 0 <= j < e.len() && e[j].0 == k;
                assert(j != i);
                lemma_lookup_at(e, j);
                assert(self@[j] == e[j]);
                lemma_lookup_at(self@, j);
            } else {
                assert forall|j: int| 0 <= j < self@.len() implies self@[j].0 != k by {
                    if j != i {
                        assert(self@[j] == e[j]);
                    }
                }
            }
        }
    }

    /// The value lists of `keys`, in order; fails on the first key that has
    /// none registered.
    pub fn intersect<'a>(&'a self, keys: &[String]) -> (r: Result<Vec<&'a [String]>, KeyLookUpError>)
        requires
            self.wf(),
        ensures
            match r {
                Ok(v) => {
                    &&& v@.len() == keys@.len()
                    &&& forall|i: int|
                        0 <= i < keys@.len() ==> self.values(#[trigger] keys@[i]@) == Some(
                            strings_view(v@[i]@),
                        )
                },
                Err(e) => exists|j: int|
                    0 <= j < keys@.len() && self.values(#[trigger] keys@[j]@) is None
                        && e.key_view() == keys@[j]@ && forall|i: int|
                        0 <= i < j ==> self.values(#[trigger] keys@[i]@) is Some,
            },
    {
        let mut result: Vec<&'a [String]> = Vec::new();
        let mut i: usize = 0;
        while i < keys.len()
            invariant
                self.wf(),
                i <= keys@.len(),
                result@.len() == i,
                forall|j: int|
                    0 <= j < i ==> self.values(#[trigger] keys@[j]@) == Some(
                        strings_view(result@[j]@),
                    ),
            decreases keys@.len() - i,
        {
            match self.get(&keys[i]) {
                Some(variants) => {
                    result.push(variants);
                },
                None => {
                    let key = keys[i].clone();
                    let e = KeyLookUpError::new(key);
                    assert(forall|j: int| 0 <= j < i ==> self.values(#[trigger] keys@[j]@) is Some);
                    return Err(e);
                },
            }
            i = i + 1;
        }
        Ok(result)
    }

    /// The keys that the rule finds in `content`, each once, in order of
    /// first occurrence.
    pub fn capture(&self, content: &str) -> (r: Vec<String>)
        ensures
            strings_view(r@) == captured_keys(self.rule(), content@),
    {
        match first_groups(self.capture_rule.as_str(), content) {
            Some(groups) => {
                let found = present_groups(&groups);
                dedup_keys(&found)
            },
            None => {
                let r: Vec<String> = Vec::new();
                assert(strings_view(r@) =~= Seq::<Seq<char>>::empty());
                r
            },
        }
    }

    /// The resources of the destination pattern `path`: one per combination
    /// of the values of the keys found in it. Fails, naming the key, when a
    /// key found has no values registered.
    pub fn template_resources<'a>(&'a self, path: String) -> (r: Result<
        Resources<'a>,
        KeyLookUpError,
    >)
        requires
            self.wf(),
        ensures
            ({
                let keys = captured_keys(self.rule(), path@);
                match r {
                    Ok(res) => {
                        &&& forall|i: int| 0 <= i < keys.len() ==> self.values(#[trigger] keys[i]) is Some
                        &&& res.pattern() == path@
                        &&& res.wf()
                        &&& res.produced() == 0
                        &&& res.solver().wf()
                        &&& res.solver().key_list() == keys
                        &&& res.solver().combinations().items().len() == keys.len()
                        &&& forall|i: int|
                            0 <= i < keys.len() ==> self.values(#[trigger] keys[i]) == Some(
                                strings_view(res.solver().combinations().items()[i]),
                            )
                    },
                    Err(e) => exists|j: int|
                        0 <= j < keys.len() && self.values(#[trigger] keys[j]) is None
                            && e.key_view() == keys[j] && forall|i: int|
                            0 <= i < j ==> self.values(#[trigger] keys[i]) is Some,
                }
            }),
    {
        let keys = self.capture(path.as_str());
        let ghost kv = strings_view(keys@);
        let list = match self.intersect(keys.as_slice()) {
            Ok(list) => list,
            Err(e) => {
                proof {
                    let j = choose|j: int|
                        0 <= j < keys@.len() && self.values(#[trigger] keys@[j]@) is None
                            && e.key_view() == keys@[j]@ && forall|i: int|
                            0 <= i < j ==> self.values(#[trigger] keys@[i]@) is Some;
                    assert(kv[j] == keys@[j]@);
                    assert forall|i: int| 0 <= i < j implies self.values(#[trigger] kv[i]) is Some by {
                        assert(kv[i] == keys@[i]@);
                    }
                }
                return Err(e);
            },
        };
        let ghost lv = list@;
        let inner = Solver::new(list, keys);
        let res = Resources::new(path, inner);
        proof {
            let items = res.solver().combinations().items();
            assert forall|i: int| 0 <= i < kv.len() implies self.values(#[trigger] kv[i]) == Some(
                strings_view(items[i]),
            ) by {
                assert(kv[i] == keys@[i]@);
                assert(items[i] == lv[i]@);
            }
        }
        Ok(res)
    }
}

} // verus!
