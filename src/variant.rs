use vstd::prelude::*;

verus! {

/// Number of combinations that take one item from each input, for inputs of
/// the given lengths: the product of the lengths (1 for no input).
pub open spec fn product(lens: Seq<int>) -> int
    decreases lens.len(),
{
    if lens.len() == 0 {
        1
    } else {
        product(lens.drop_last()) * lens.last()
    }
}

/// The index tuple found at position `k` of the enumeration: the digits of
/// `k` in the mixed radix given by `lens`, the last digit varying fastest.
pub open spec fn digits(lens: Seq<int>, k: int) -> Seq<int>
    decreases lens.len(),
{
    if lens.len() == 0 {
        seq![]
    } else {
        digits(lens.drop_last(), k / lens.last()).push(k % lens.last())
    }
}

/// The position of the index tuple `v` in the enumeration (inverse of `digits`).
pub open spec fn rank(lens: Seq<int>, v: Seq<int>) -> int
    decreases lens.len(),
{
    if lens.len() == 0 {
        0
    } else {
        rank(lens.drop_last(), v.drop_last()) * lens.last() + v.last()
    }
}

/// `v` picks one valid position in each input.
pub open spec fn in_bounds(lens: Seq<int>, v: Seq<int>) -> bool {
    &&& v.len() == lens.len()
    &&& forall|j: int| 0 <= j < v.len() ==> 0 <= #[trigger] v[j] < lens[j]
}

pub open spec fn all_positive(lens: Seq<int>) -> bool {
    forall|j: int| 0 <= j < lens.len() ==> #[trigger] lens[j] >= 1
}

pub open spec fn usize_ints(v: Seq<usize>) -> Seq<int> {
    v.map_values(|x: usize| x as int)
}

pub proof fn lemma_product_nonneg(lens: Seq<int>)
    requires
        forall|j: int| 0 <= j < lens.len() ==> #[trigger] lens[j] >= 0,
    ensures
        product(lens) >= 0,
    decreases lens.len(),
{
    if lens.len() > 0 {
        let p = lens.drop_last();
        assert forall|j: int| 0 <= j < p.len() implies #[trigger] p[j] >= 0 by {
            assert(p[j] == lens[j]);
        }
        lemma_product_nonneg(p);
        assert(product(p) * lens.last() >= 0) by (nonlinear_arith)
            requires
                product(p) >= 0,
                lens.last() >= 0,
        ;
    }
}

/// Some input is empty exactly when there is no combination.
pub proof fn lemma_product_zero(lens: Seq<int>)
    requires
        forall|j: int| 0 <= j < lens.len() ==> #[trigger] lens[j] >= 0,
    ensures
        product(lens) == 0 <==> exists|j: int| 0 <= j < lens.len() && lens[j] == 0,
        product(lens) >= 0,
    decreases lens.len(),
{
    lemma_product_nonneg(lens);
    if lens.len() > 0 {
        let p = lens.drop_last();
        assert forall|j: int| 0 <= j < p.len() implies #[trigger] p[j] >= 0 by {
            assert(p[j] == lens[j]);
        }
        lemma_product_zero(p);
        let a = product(p);
        let b = lens.last();
        assert(a * b == 0 <==> a == 0 || b == 0) by (nonlinear_arith)
            requires
                a >= 0,
                b >= 0,
        ;
        if product(lens) == 0 {
            if a == 0 {
                let j = choose|j: int| 0 <= j < p.len() && p[j] == 0;
                assert(lens[j] == 0);
            } else {
                assert(lens[lens.len() - 1] == 0);
            }
        } else {
            assert forall|j: int| 0 <= j < lens.len() implies lens[j] != 0 by {
                if j < lens.len() - 1 {
                    assert(p[j] == lens[j]);
                }
            }
        }
    }
}

/// With no empty input, a prefix of the inputs has at most as many combinations.
pub proof fn lemma_product_prefix_le(lens: Seq<int>, i: int)
    requires
        all_positive(lens),
        0 <= i <= lens.len(),
    ensures
        1 <= product(lens.take(i)) <= product(lens),
    decreases lens.len(),
{
    if lens.len() == 0 {
        assert(lens.take(i) =~= lens);
    } else {
        let p = lens.drop_last();
        assert(all_positive(p)) by {
            assert forall|j: int| 0 <= j < p.len() implies #[trigger] p[j] >= 1 by {
                assert(p[j] == lens[j]);
            }
        }
        let b = lens.last();
        assert(b >= 1) by {
            assert(lens[lens.len() - 1] >= 1);
        }
        if i == lens.len() {
            assert(lens.take(i) =~= lens);
            lemma_product_prefix_le(p, p.len() as int);
            assert(p.take(p.len() as int) =~= p);
            let a = product(p);
            assert(a <= a * b) by (nonlinear_arith)
                requires
                    a >= 1,
                    b >= 1,
            ;
        } else {
            lemma_product_prefix_le(p, i);
            assert(p.take(i) =~= lens.take(i));
            lemma_product_prefix_le(p, p.len() as int);
            assert(p.take(p.len() as int) =~= p);
            let a = product(p);
            assert(a <= a * b) by (nonlinear_arith)
                requires
                    a >= 1,
                    b >= 1,
            ;
        }
    }
}

/// Every in-bounds index tuple has a position below the number of combinations.
pub proof fn lemma_rank_bounds(lens: Seq<int>, v: Seq<int>)
    requires
        in_bounds(lens, v),
    ensures
        0 <= rank(lens, v) < product(lens),
    decreases lens.len(),
{
    if lens.len() > 0 {
        let p = lens.drop_last();
        let w = v.drop_last();
        assert(in_bounds(p, w)) by {
            assert forall|j: int| 0 <= j < w.len() implies 0 <= #[trigger] w[j] < p[j] by {
                assert(w[j] == v[j]);
                assert(p[j] == lens[j]);
            }
        }
        lemma_rank_bounds(p, w);
        let r = rank(p, w);
        let n = product(p);
        let b = lens.last();
        let d = v.last();
        assert(0 <= d < b) by {
            assert(v[v.len() - 1] == v.last());
        }
        assert(0 <= r * b + d < n * b) by (nonlinear_arith)
            requires
                0 <= r < n,
                0 <= d < b,
        ;
    }
}

/// The digits of a position in the tuple's rank give back the tuple.
pub proof fn lemma_digits_rank(lens: Seq<int>, v: Seq<int>)
    requires
        in_bounds(lens, v),
    ensures
        digits(lens, rank(lens, v)) =~= v,
    decreases lens.len(),
{
    if lens.len() > 0 {
        let p = lens.drop_last();
        let w = v.drop_last();
        assert(in_bounds(p, w)) by {
            assert forall|j: int| 0 <= j < w.len() implies 0 <= #[trigger] w[j] < p[j] by {
                assert(w[j] == v[j]);
                assert(p[j] == lens[j]);
            }
        }
        lemma_digits_rank(p, w);
        lemma_rank_bounds(p, w);
        let r = rank(p, w);
        let b = lens.last();
        let d = v.last();
        assert(0 <= d < b) by {
            assert(v[v.len() - 1] == v.last());
        }
        assert((r * b + d) / b == r && (r * b + d) % b == d) by (nonlinear_arith)
            requires
                0 <= r,
                0 <= d < b,
        ;
        assert(v =~= w.push(d));
    }
}

/// Each position below the number of combinations is the rank of exactly the
/// in-bounds tuple given by its digits.
pub proof fn lemma_rank_digits(lens: Seq<int>, k: int)
    requires
        0 <= k < product(lens),
        forall|j: int| 0 <= j < lens.len() ==> #[trigger] lens[j] >= 0,
    ensures
        in_bounds(lens, digits(lens, k)),
        rank(lens, digits(lens, k)) == k,
    decreases lens.len(),
{
    if lens.len() > 0 {
        let p = lens.drop_last();
        assert forall|j: int| 0 <= j < p.len() implies #[trigger] p[j] >= 0 by {
            assert(p[j] == lens[j]);
        }
        lemma_product_nonneg(p);
        let n = product(p);
        let b = lens.last();
        assert(b >= 0) by {
            assert(lens[lens.len() - 1] >= 0);
        }
        assert(b > 0 && 0 <= k / b < n && 0 <= k % b < b && (k / b) * b + k % b == k)
            by (nonlinear_arith)
            requires
                0 <= k < n * b,
                n >= 0,
                b >= 0,
        ;
        lemma_rank_digits(p, k / b);
        let w = digits(p, k / b);
        let v = digits(lens, k);
        assert(v =~= w.push(k % b));
        assert(v.drop_last() =~= w);
        assert(in_bounds(lens, v)) by {
            assert forall|j: int| 0 <= j < v.len() implies 0 <= #[trigger] v[j] < lens[j] by {
                if j < v.len() - 1 {
                    assert(v[j] == w[j]);
                    assert(p[j] == lens[j]);
                }
            }
        }
    }
}

pub proof fn lemma_rank_zeros(lens: Seq<int>, v: Seq<int>)
    requires
        v.len() == lens.len(),
        forall|j: int| 0 <= j < v.len() ==> #[trigger] v[j] == 0,
    ensures
        rank(lens, v) == 0,
    decreases lens.len(),
{
    if lens.len() > 0 {
        let w = v.drop_last();
        assert forall|j: int| 0 <= j < w.len() implies #[trigger] w[j] == 0 by {
            assert(w[j] == v[j]);
        }
        lemma_rank_zeros(lens.drop_last(), w);
        assert(v[v.len() - 1] == 0);
    }
}

/// The enumeration covers every combination exactly once: positions below
/// the number of combinations (the product of the lengths, 1 for no input)
/// and index tuples that pick one item from each input correspond one to one
/// through `digits` and `rank`. Each tuple has one index per input, and the
/// last index varies fastest: position `k` and `k + 1` share all but the last
/// index unless the last index wraps around.
pub proof fn lemma_enumeration_complete(lens: Seq<int>)
    requires
        forall|j: int| 0 <= j < lens.len() ==> #[trigger] lens[j] >= 0,
    ensures
        lens.len() == 0 ==> product(lens) == 1 && digits(lens, 0) == Seq::<int>::empty(),
        product(lens) >= 0,
        forall|k: int|
            0 <= k < product(lens) ==> in_bounds(lens, #[trigger] digits(lens, k)) && rank(
                lens,
                digits(lens, k),
            ) == k,
        forall|v: Seq<int>|
            in_bounds(lens, v) ==> 0 <= #[trigger] rank(lens, v) < product(lens) && digits(
                lens,
                rank(lens, v),
            ) == v,
        forall|k: int|
            0 <= k && k + 1 < product(lens) && lens.len() > 0 ==> (#[trigger] digits(lens, k + 1)).last()
                == (digits(lens, k).last() + 1) % lens.last(),
{
    lemma_product_nonneg(lens);
    assert forall|k: int| 0 <= k < product(lens) implies in_bounds(
        lens,
        #[trigger] digits(lens, k),
    ) && rank(lens, digits(lens, k)) == k by {
        lemma_rank_digits(lens, k);
    }
    assert forall|v: Seq<int>| in_bounds(lens, v) implies 0 <= #[trigger] rank(lens, v) < product(
        lens,
    ) && digits(lens, rank(lens, v)) == v by {
        lemma_rank_bounds(lens, v);
        lemma_digits_rank(lens, v);
    }
    assert forall|k: int|
        0 <= k && k + 1 < product(lens) && lens.len() > 0 implies (#[trigger] digits(
        lens,
        k + 1,
    )).last() == (digits(lens, k).last() + 1) % lens.last() by {
        let b = lens.last();
        assert(b == lens[lens.len() - 1]);
        assert(b > 0) by {
            lemma_product_zero(lens);
            if b == 0 {
                assert(lens[lens.len() - 1] == 0);
            }
        }
        assert((k + 1) % b == (k % b + 1) % b) by (nonlinear_arith)
            requires
                b > 0,
                k >= 0,
        ;
    }
}

/// Builds an enumerator over the given lists.
pub fn variant<'a, T>(list: &'a [Vec<T>]) -> (r: Variant<'a, T>)
    ensures
        r.wf(),
        r.produced() == 0,
        r.items() == list@.map_values(|v: Vec<T>| v@),
{
    let mut inputs: Vec<&'a [T]> = Vec::new();
    let mut i: usize = 0;
    while i < list.len()
        invariant
            i <= list@.len(),
            inputs@.len() == i,
            forall|j: int| 0 <= j < i ==> #[trigger] inputs@[j]@ == list@[j]@,
        decreases list@.len() - i,
    {
        inputs.push(list[i].as_slice());
        i = i + 1;
    }
    let r = Variant::new(inputs);
    assert(r.items() =~= list@.map_values(|v: Vec<T>| v@));
    r
}

/// An enumerator of the combinations that take one item from each input.
///
/// The combinations come in odometer order: the last input varies fastest.
/// No input gives a single empty combination; an empty input gives none.
pub struct Variant<'a, T> {
    indices: Vec<usize>,
    inputs: Vec<&'a [T]>,
    first: bool,
    done: bool,
}

impl<'a, T> Variant<'a, T> {
    /// The inputs, each as a sequence of items.
    pub closed spec fn items(&self) -> Seq<Seq<T>> {
        self.inputs@.map_values(|s: &'a [T]| s@)
    }

    /// Lengths of the inputs.
    pub open spec fn lens(&self) -> Seq<int> {
        self.items().map_values(|s: Seq<T>| s.len() as int)
    }

    /// Number of combinations in all.
    pub open spec fn total(&self) -> int {
        product(self.lens())
    }

    /// The combination at position `k` of the enumeration.
    pub open spec fn combination(&self, k: int) -> Seq<T> {
        Seq::new(self.items().len(), |j: int| self.items()[j][digits(self.lens(), k)[j]])
    }

    /// How many combinations have been handed out so far.
    pub closed spec fn produced(&self) -> int {
        if self.done {
            self.total()
        } else if self.first {
            0
        } else {
            rank(self.lens(), usize_ints(self.indices@)) + 1
        }
    }

    pub closed spec fn wf(&self) -> bool {
        &&& self.indices@.len() == self.inputs@.len()
        &&& self.first ==> forall|j: int|
            0 <= j < self.indices@.len() ==> #[trigger] self.indices@[j] == 0
        &&& (!self.done && !self.first) ==> in_bounds(self.lens(), usize_ints(self.indices@))
    }

    pub proof fn lemma_produced_bounds(&self)
        requires
            self.wf(),
        ensures
            0 <= self.produced() <= self.total(),
    {
        lemma_product_nonneg(self.lens());
        if !self.done && !self.first {
            lemma_rank_bounds(self.lens(), usize_ints(self.indices@));
        }
    }

    pub fn new(inputs: Vec<&'a [T]>) -> (r: Self)
        ensures
            r.wf(),
            r.items() == inputs@.map_values(|s: &'a [T]| s@),
            r.produced() == 0,
    {
        let size = inputs.len();
        let indices = vec![0; size];
        let first = true;
        Variant { indices, inputs, first, done: false }
    }

    /// Whether some input has no item.
    fn has_empty_input(&self) -> (r: bool)
        ensures
            r == exists|j: int| 0 <= j < self.lens().len() && self.lens()[j] == 0,
    {
        let mut i: usize = 0;
        while i < self.inputs.len()
            invariant
                i <= self.inputs@.len(),
                forall|j: int| 0 <= j < i ==> #[trigger] self.lens()[j] >= 1,
            decreases self.inputs@.len() - i,
        {
            if self.inputs[i].len() == 0 {
                assert(self.lens()[i as int] == 0);
                return true;
            }
            i = i + 1;
        }
        assert forall|j: int| 0 <= j < self.lens().len() implies self.lens()[j] != 0 by {
            assert(self.lens()[j] >= 1);
        }
        false
    }

    /// Number of combinations in all: the product of the input lengths.
    pub fn total_size(&self) -> (r: usize)
        requires
            self.total() <= usize::MAX,
        ensures
            r == self.total(),
    {
        let ghost lens = self.lens();
        proof {
            assert forall|j: int| 0 <= j < lens.len() implies #[trigger] lens[j] >= 0 by {}
            lemma_product_zero(lens);
        }
        if self.has_empty_input() {
            return 0;
        }
        proof {
            assert forall|j: int| 0 <= j < lens.len() implies #[trigger] lens[j] >= 1 by {
                assert(lens[j] != 0);
            }
        }
        let mut acc: usize = 1;
        let mut i: usize = 0;
        while i < self.inputs.len()
            invariant
                i <= self.inputs@.len(),
                lens == self.lens(),
                all_positive(lens),
                product(lens) <= usize::MAX,
                acc == product(lens.take(i as int)),
            decreases self.inputs@.len() - i,
        {
            proof {
                lemma_product_prefix_le(lens, i + 1);
                assert(lens.take(i + 1).drop_last() =~= lens.take(i as int));
            }
            acc = acc * self.inputs[i].len();
            i = i + 1;
        }
        proof {
            assert(lens.take(i as int) =~= lens);
        }
        acc
    }

    /// Advances the index tuple at `index` by one, carrying to the left.
    /// `None` when the carry runs past the first input.
    fn increment(&mut self, index: usize) -> (r: Option<()>)
        requires
            old(self).indices@.len() == old(self).inputs@.len(),
            index < old(self).inputs@.len(),
            in_bounds(old(self).lens(), usize_ints(old(self).indices@)),
        ensures
            final(self).inputs == old(self).inputs,
            final(self).first == old(self).first,
            final(self).done == old(self).done,
            final(self).indices@.len() == old(self).indices@.len(),
            forall|j: int|
                index < j < final(self).indices@.len() ==> #[trigger] final(self).indices@[j]
                    == old(self).indices@[j],
            ({
                let lens = old(self).lens().take(index + 1);
                let before = usize_ints(old(self).indices@).take(index + 1);
                let after = usize_ints(final(self).indices@).take(index + 1);
                match r {
                    Some(_) => in_bounds(lens, after) && rank(lens, after) == rank(lens, before)
                        + 1,
                    None => rank(lens, before) + 1 == product(lens),
                }
            }),
        decreases index,
    {
        let ghost lens = old(self).lens();
        let ghost v = usize_ints(old(self).indices@);
        let len = self.inputs[index].len();
        assert(self.indices@[index as int] < len) by {
            assert(v[index as int] < lens[index as int]);
        }
        let i = self.indices[index] + 1;
        let ghost p = lens.take(index + 1);
        let ghost q = lens.take(index as int);
        assert(p.drop_last() =~= q);
        assert(p.last() == len);
        assert(v.take(index + 1).drop_last() =~= v.take(index as int));
        if i < len {
            self.indices.set(index, i);
            let ghost w = usize_ints(self.indices@);
            assert(w.take(index + 1).drop_last() =~= v.take(index as int));
            assert(in_bounds(p, w.take(index + 1))) by {
                assert forall|j: int| 0 <= j < index + 1 implies 0 <= #[trigger] w.take(
                    index + 1,
                )[j] < p[j] by {
                    assert(lens[j] == p[j]);
                    if j < index {
                        assert(w[j] == v[j]);
                    }
                }
            }
            Some(())
        } else if index == 0 {
            assert(q.len() == 0);
            assert(v[0] == len - 1);
            assert(rank(q, v.take(0)) == 0);
            assert(product(q) == 1);
            assert(rank(p, v.take(1)) == 0 * len + v.take(1).last());
            assert(v.take(1).last() == v[0]);
            assert(product(p) == 1 * len);
            None
        } else {
            self.indices.set(index, 0);
            let ghost mid = usize_ints(self.indices@);
            assert(in_bounds(lens, mid)) by {
                assert forall|j: int| 0 <= j < mid.len() implies 0 <= #[trigger] mid[j]
                    < lens[j] by {
                    if j != index {
                        assert(mid[j] == v[j]);
                    }
                }
            }
            assert(mid.take(index as int) =~= v.take(index as int));
            let r = self.increment(index - 1);
            let ghost w = usize_ints(self.indices@);
            let ghost a = rank(q, v.take(index as int));
            assert(index - 1 + 1 == index);
            assert(w[index as int] == 0);
            assert(w.take(index + 1).drop_last() =~= w.take(index as int));
            assert(w.take(index + 1).last() == 0);
            match r {
                Some(_) => {
                    let ghost b = rank(q, w.take(index as int));
                    assert(b == a + 1);
                    assert(b * len + 0 == a * len + (len - 1) + 1) by (nonlinear_arith)
                        requires
                            b == a + 1,
                    ;
                    assert(in_bounds(p, w.take(index + 1))) by {
                        assert forall|j: int| 0 <= j < index + 1 implies 0 <= #[trigger] w.take(
                            index + 1,
                        )[j] < p[j] by {
                            assert(lens[j] == p[j]);
                            if j < index {
                                assert(w.take(index as int)[j] == w[j]);
                                assert(q[j] == p[j]);
                            }
                        }
                    }
                },
                None => {
                    assert(a + 1 == product(q));
                    assert(v[index as int] == len - 1);
                    assert(v.take(index + 1).last() == v[index as int]);
                    assert(rank(p, v.take(index + 1)) == a * len + v[index as int]);
                    assert(product(p) == product(q) * len);
                    assert(a * len + (len - 1) + 1 == (a + 1) * len) by (nonlinear_arith);
                },
            }
            r
        }
    }

    /// The items at the current index tuple.
    fn assemble(&self) -> (r: Vec<&'a T>)
        requires
            self.indices@.len() == self.inputs@.len(),
            in_bounds(self.lens(), usize_ints(self.indices@)),
        ensures
            r@.len() == self.inputs@.len(),
            forall|j: int|
                0 <= j < r@.len() ==> *#[trigger] r@[j] == self.inputs@[j]@[self.indices@[j] as int],
    {
        let mut result: Vec<&'a T> = Vec::new();
        let mut n: usize = 0;
        while n < self.indices.len()
            invariant
                n <= self.indices@.len(),
                self.indices@.len() == self.inputs@.len(),
                in_bounds(self.lens(), usize_ints(self.indices@)),
                result@.len() == n,
                forall|j: int|
                    0 <= j < n ==> *#[trigger] result@[j] == self.inputs@[j]@[self.indices@[j] as int],
            decreases self.indices@.len() - n,
        {
            let at = self.indices[n];
            assert(usize_ints(self.indices@)[n as int] < self.lens()[n as int]);
            let input: &'a [T] = self.inputs[n];
            result.push(&input[at]);
            n = n + 1;
        }
        result
    }

    /// The next combination, or `None` once all have been handed out.
    pub fn next(&mut self) -> (r: Option<Vec<&'a T>>)
        requires
            old(self).wf(),
        ensures
            final(self).wf(),
            final(self).items() == old(self).items(),
            old(self).produced() < old(self).total() ==> {
                &&& r matches Some(c)
                &&& c@.map_values(|x: &'a T| *x) == old(self).combination(old(self).produced())
                &&& final(self).produced() == old(self).produced() + 1
            },
            old(self).produced() >= old(self).total() ==> {
                &&& r is None
                &&& final(self).produced() == old(self).produced()
            },
    {
        let ghost lens = self.lens();
        proof {
            assert forall|j: int| 0 <= j < lens.len() implies #[trigger] lens[j] >= 0 by {}
            lemma_product_zero(lens);
            self.lemma_produced_bounds();
        }
        if self.done {
            return None;
        }
        if self.first {
            self.first = false;
            if self.has_empty_input() {
                self.done = true;
                return None;
            }
            proof {
                assert(lens == self.lens());
                let v = usize_ints(self.indices@);
                assert forall|i: int| 0 <= i < v.len() implies #[trigger] v[i] == 0 by {
                    assert(self.indices@[i] == 0);
                }
                lemma_rank_zeros(lens, v);
                assert forall|i: int| 0 <= i < v.len() implies 0 <= #[trigger] v[i] < lens[i] by {
                    assert(self.indices@[i] == 0);
                    assert(lens[i] != 0);
                }
            }
        } else {
            if self.inputs.len() == 0 {
                self.done = true;
                return None;
            }
            let last = self.inputs.len() - 1;
            let step = self.increment(last);
            proof {
                assert(lens.take(last + 1) =~= lens);
                assert(usize_ints(old(self).indices@).take(last + 1) =~= usize_ints(
                    old(self).indices@,
                ));
                assert(usize_ints(self.indices@).take(last + 1) =~= usize_ints(self.indices@));
            }
            if step.is_none() {
                self.done = true;
                return None;
            }
        }
        let ghost v = usize_ints(self.indices@);
        proof {
            lemma_digits_rank(lens, v);
            lemma_rank_bounds(lens, v);
        }
        let result = self.assemble();
        proof {
            let k = old(self).produced();
            assert(rank(lens, v) == k);
            let c = result@.map_values(|x: &'a T| *x);
            assert(c =~= self.combination(k)) by {
                assert forall|j: int| 0 <= j < c.len() implies c[j] == self.combination(k)[j] by {
                    assert(digits(lens, k)[j] == v[j]);
                }
            }
        }
        Some(result)
    }
}

} // verus!
