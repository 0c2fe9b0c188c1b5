use crate::solver::strings_view;
use vstd::prelude::*;
use vstd::slice::{slice_subrange, slice_to_vec};
use vstd::std_specs::iter::IteratorSpec;
use vstd::utf8::*;

verus! {

broadcast use vstd::string::group_string_axioms, encode_utf8_valid_utf8, decode_utf8_encode_utf8,
    encode_utf8_decode_utf8;

/// Every opening bracket of `s` has a closing bracket somewhere after it, so
/// `s` does not end inside a placeholder token.
pub open spec fn brackets_closed(s: Seq<char>) -> bool {
    forall|i: int|
        0 <= i < s.len() && s[i] == '[' ==> exists|j: int| i < j < s.len() && s[j] == ']'
}

/// Some opening bracket among the first `k` characters has no closing bracket
/// after it within them.
pub open spec fn open_within(s: Seq<char>, k: int) -> bool {
    exists|i: int|
        0 <= i < k && s[i] == '[' && forall|j: int| i < j < k ==> #[trigger] s[j] != ']'
}

/// Whether `input` does not end inside an unterminated `[...]` token.
pub fn check_expression_block(input: &str) -> (r: bool)
    ensures
        r == brackets_closed(input@),
{
    let ghost s = input@;
    let mut it = input.chars();
    let mut open = false;
    let ghost mut k: int = 0;
    loop
        invariant
            0 <= k <= s.len(),
            it.obeys_prophetic_iter_laws(),
            it.remaining() == s.subrange(k, s.len() as int),
            open == open_within(s, k),
        ensures
            k == s.len(),
            open == open_within(s, k),
        decreases s.len() - k,
    {
        match it.next() {
            Some(c) => {
                assert(c == s[k]);
                proof {
                    if c == '[' {
                        assert(open_within(s, k + 1)) by {
                            assert(s[k] == '[');
                        }
                    } else if c == ']' {
                        assert(!open_within(s, k + 1)) by {
                            if open_within(s, k + 1) {
                                let i = choose|i: int|
                                    0 <= i < k + 1 && s[i] == '[' && forall|j: int|
                                        i < j < k + 1 ==> #[trigger] s[j] != ']';
                                if i < k {
                                    assert(s[k] != ']');
                                }
                            }
                        }
                    } else {
                        if open_within(s, k) {
                            let i = choose|i: int|
                                0 <= i < k && s[i] == '[' && forall|j: int|
                                    i < j < k ==> #[trigger] s[j] != ']';
                            assert forall|j: int| i < j < k + 1 implies #[trigger] s[j] != ']' by {
                            }
                            assert(open_within(s, k + 1));
                        }
                        if open_within(s, k + 1) {
                            let i = choose|i: int|
                                0 <= i < k + 1 && s[i] == '[' && forall|j: int|
                                    i < j < k + 1 ==> #[trigger] s[j] != ']';
                            assert(i != k);
                            assert forall|j: int| i < j < k implies #[trigger] s[j] != ']' by {}
                            assert(open_within(s, k));
                        }
                    }
                }
                if c == '[' {
                    open = true;
                } else if c == ']' {
                    open = false;
                }
                proof {
                    assert(it.remaining() =~= s.subrange(k + 1, s.len() as int));
                    k = k + 1;
                }
            },
            None => {
                assert(k == s.len());
                break;
            },
        }
    }
    proof {
        if open {
            let i = choose|i: int|
                0 <= i < k && s[i] == '[' && forall|j: int| i < j < k ==> #[trigger] s[j] != ']';
            assert(!(exists|j: int| i < j < s.len() && s[j] == ']'));
        } else {
            assert forall|i: int| 0 <= i < s.len() && s[i] == '[' implies exists|j: int|
                i < j < s.len() && s[j] == ']' by {
                if !(exists|j: int| i < j < s.len() && s[j] == ']') {
                    assert forall|j: int| i < j < k implies #[trigger] s[j] != ']' by {}
                    assert(open_within(s, k));
                }
            }
        }
    }
    !open
}


/// `b` is the start of the UTF-8 encoding of one character, cut short.
pub open spec fn cut_short(b: Seq<u8>) -> bool {
    &&& b.len() > 0
    &&& exists|more: Seq<u8>|
        #[trigger] valid_first_scalar(b + more) && b.len() < length_of_first_scalar(b + more)
}

/// Relies on `std::str::from_utf8`: `Ok` with the decoded text exactly when
/// the bytes are valid UTF-8; otherwise the error's `valid_up_to()`, the
/// length of the longest valid prefix, and whether its `error_len()` is
/// `None`, which it is when the input ends inside a character.
#[verifier::external_body]
fn decode_bytes(bytes: &[u8]) -> (r: Result<String, (usize, bool)>)
    ensures
        match r {
            Ok(s) => valid_utf8(bytes@) && s@ == decode_utf8(bytes@),
            Err((at, cut)) => {
                &&& !valid_utf8(bytes@)
                &&& at <= bytes@.len()
                &&& valid_utf8(bytes@.take(at as int))
                &&& forall|i: int| at < i <= bytes@.len() ==> !valid_utf8(#[trigger] bytes@.take(i))
                &&& (cut <==> cut_short(bytes@.subrange(at as int, bytes@.len() as int)))
            },
        },
{
    match std::str::from_utf8(bytes) {
        Ok(s) => Ok(s.to_string()),
        Err(e) => Err((e.valid_up_to(), e.error_len().is_none())),
    }
}

/// Two byte sequences that agree on the encoding of the first character of
/// `a` begin with the same character.
pub proof fn lemma_scalar_agree(a: Seq<u8>, b: Seq<u8>, n: int)
    requires
        valid_first_scalar(a),
        length_of_first_scalar(a) <= n <= a.len(),
        n <= b.len(),
        forall|j: int| 0 <= j < n ==> #[trigger] a[j] == b[j],
    ensures
        valid_first_scalar(b),
        length_of_first_scalar(b) == length_of_first_scalar(a),
        decode_first_scalar(b) == decode_first_scalar(a),
{
    assert(a[0] == b[0]);
    if n > 1 {
        assert(a[1] == b[1]);
    }
    if n > 2 {
        assert(a[2] == b[2]);
    }
    if n > 3 {
        assert(a[3] == b[3]);
    }
}

/// What follows a valid prefix of a valid sequence is valid.
pub proof fn lemma_valid_suffix(x: Seq<u8>, y: Seq<u8>)
    requires
        valid_utf8(x),
        valid_utf8(x + y),
    ensures
        valid_utf8(y),
    decreases x.len(),
{
    if x.len() == 0 {
        assert(x + y =~= y);
    } else {
        let xy = x + y;
        lemma_scalar_agree(x, xy, length_of_first_scalar(x));
        let l = length_of_first_scalar(x);
        assert(pop_first_scalar(xy) =~= pop_first_scalar(x) + y);
        lemma_valid_suffix(pop_first_scalar(x), y);
    }
}

/// The first `m` bytes of a valid sequence are valid up to some `c`, the
/// longest valid prefix, after which at most three bytes of one character
/// cut short remain.
pub proof fn lemma_prefix_of_valid(y: Seq<u8>, m: int) -> (c: int)
    requires
        valid_utf8(y),
        0 <= m <= y.len(),
    ensures
        0 <= c <= m,
        m - c <= 3,
        valid_utf8(y.take(c)),
        forall|i: int| c < i <= m ==> !valid_utf8(#[trigger] y.take(i)),
        c < m ==> cut_short(y.subrange(c, m)),
    decreases y.len(),
{
    if m == 0 {
        assert(y.take(0) =~= Seq::<u8>::empty());
        0
    } else {
        let l = length_of_first_scalar(y);
        let rest = pop_first_scalar(y);
        if m < l {
            assert(y.take(0) =~= Seq::<u8>::empty());
            assert forall|i: int| 0 < i <= m implies !valid_utf8(#[trigger] y.take(i)) by {
                if valid_utf8(y.take(i)) {
                    lemma_scalar_agree(y.take(i), y, i);
                }
            }
            let more = y.subrange(m, l);
            lemma_scalar_agree(y, y.take(l), l);
            assert(y.subrange(0, m) + more =~= y.take(l));
            assert(valid_first_scalar(y.subrange(0, m) + more));
            0
        } else {
            let c1 = lemma_prefix_of_valid(rest, m - l);
            let c = c1 + l;
            lemma_scalar_agree(y, y.take(c), l);
            assert(pop_first_scalar(y.take(c)) =~= rest.take(c1));
            assert forall|i: int| c < i <= m implies !valid_utf8(#[trigger] y.take(i)) by {
                if valid_utf8(y.take(i)) {
                    lemma_scalar_agree(y, y.take(i), l);
                    assert(pop_first_scalar(y.take(i)) =~= rest.take(i - l));
                }
            }
            assert(y.subrange(c, m) =~= rest.subrange(c1, m - l));
            c
        }
    }
}

pub proof fn lemma_encode_concat(a: Seq<char>, b: Seq<char>)
    ensures
        encode_utf8(a + b) == encode_utf8(a) + encode_utf8(b),
    decreases a.len(),
{
    if a.len() == 0 {
        assert(a + b =~= b);
        assert(encode_utf8(a) + encode_utf8(b) =~= encode_utf8(b));
    } else {
        assert((a + b).drop_first() =~= a.drop_first() + b);
        lemma_encode_concat(a.drop_first(), b);
        assert(encode_utf8(a + b) =~= encode_utf8(a) + encode_utf8(b));
    }
}

/// `b` can be continued into valid UTF-8.
pub open spec fn extendable(b: Seq<u8>) -> bool {
    exists|rest: Seq<u8>| #[trigger] valid_utf8(b + rest)
}

/// `x` appears in `v` at some position.
pub open spec fn infix_of(x: Seq<u8>, v: Seq<u8>) -> bool {
    exists|i: int| 0 <= i && i + x.len() <= v.len() && #[trigger] v.subrange(i, i + x.len()) == x
}

/// Valid text followed by nothing or by one character cut short can be
/// continued into valid UTF-8.
pub proof fn lemma_cut_extendable(x: Seq<u8>, rest: Seq<u8>)
    requires
        valid_utf8(x),
        rest.len() == 0 || cut_short(rest),
    ensures
        extendable(x + rest),
{
    if rest.len() == 0 {
        assert(x + rest + Seq::<u8>::empty() =~= x);
    } else {
        let more = choose|more: Seq<u8>|
            #[trigger] valid_first_scalar(rest + more) && rest.len() < length_of_first_scalar(
                rest + more,
            );
        let y = rest + more;
        let l = length_of_first_scalar(y);
        let one = y.take(l);
        lemma_scalar_agree(y, one, l);
        assert(pop_first_scalar(one) =~= Seq::<u8>::empty());
        reveal_with_fuel(valid_utf8, 2);
        assert(valid_utf8(one));
        valid_utf8_concat(x, one);
        let m = more.take(l - rest.len());
        assert(x + rest + m =~= x + one);
    }
}

/// Multiples of `s` below `k`, itself a multiple, are at least `s` below it.
pub proof fn lemma_next_multiple(p: int, k: int, s: int)
    requires
        s > 0,
        0 <= p < k,
        p % s == 0,
        k % s == 0,
    ensures
        p + s <= k,
        (p + s) % s == 0,
{
    vstd::arithmetic::div_mod::lemma_fundamental_div_mod(p, s);
    vstd::arithmetic::div_mod::lemma_fundamental_div_mod(k, s);
    let a = p / s;
    let b = k / s;
    assert(a < b) by (nonlinear_arith)
        requires
            p == s * a,
            k == s * b,
            p < k,
            s > 0,
    ;
    assert(s * a + s <= s * b) by (nonlinear_arith)
        requires
            a < b,
            s > 0,
    ;
    vstd::arithmetic::div_mod::lemma_mod_multiples_vanish(1, p, s);
}

/// The first `k` bytes of `content`, a whole number of reads of `size`
/// bytes, are valid text that `g` accepts in any piece, and the read that
/// follows them cannot begin valid UTF-8.
pub open spec fn fails_after<G: Fn(&str) -> bool>(content: Seq<u8>, size: int, g: G, k: int) -> bool {
    &&& 0 <= k < content.len()
    &&& size > 0
    &&& k % size == 0
    &&& valid_utf8(content.take(k))
    &&& !extendable(
        content.subrange(
            k,
            if k + size <= content.len() {
                k + size
            } else {
                content.len() as int
            },
        ),
    )
    &&& forall|s: &str, b: bool|
        #[trigger] call_ensures(g, (s,), b) && infix_of(encode_utf8(s@), content.take(k)) ==> b
}

/// A read that ends within the first `k` bytes of a content that
/// `fails_after` `k` can be continued into valid text, fills the whole read,
/// and `g` accepts every text it begins with.
pub proof fn lemma_read_in_valid_part<G: Fn(&str) -> bool>(
    content: Seq<u8>,
    size: int,
    g: G,
    k: int,
    e: int,
    pos: int,
    n: int,
    input: Seq<u8>,
)
    requires
        fails_after(content, size, g, k),
        0 <= e <= pos < k,
        pos % size == 0,
        n == if pos + size <= content.len() {
            size
        } else {
            content.len() - pos
        },
        input == content.subrange(e, pos + n),
        valid_utf8(content.take(e)),
    ensures
        n == size,
        pos + size <= k,
        (pos + size) % size == 0,
        extendable(input),
        pos + size == k ==> valid_utf8(input),
        forall|s: &str, rest: Seq<u8>|
            #![trigger call_ensures(g, (s,), false), encode_utf8(s@) + rest]
            input == encode_utf8(s@) + rest ==> !call_ensures(g, (s,), false),
{
    lemma_next_multiple(pos, k, size);
    let v = content.take(k);
    let tail = content.subrange(pos + size, k);
    assert(content.take(e) + (input + tail) =~= v);
    lemma_valid_suffix(content.take(e), input + tail);
    if pos + size == k {
        assert(input + tail =~= input);
    }
    assert forall|s: &str, rest: Seq<u8>|
        #![trigger call_ensures(g, (s,), false), encode_utf8(s@) + rest]
        input == encode_utf8(s@) + rest implies !call_ensures(g, (s,), false) by {
        let x = encode_utf8(s@);
        assert(v.subrange(e, e + x.len()) =~= x);
        assert(infix_of(x, v));
    }
}

/// Before the read that fails, the stream never holds text back: the
/// predicate accepts it.
pub proof fn lemma_no_hold<G: Fn(&str) -> bool>(
    content: Seq<u8>,
    size: int,
    g: G,
    k: int,
    e: int,
    pos: int,
    n: int,
    input: Seq<u8>,
)
    requires
        fails_after(content, size, g, k),
        0 <= e <= pos <= k,
        pos == k ==> e == pos,
        pos % size == 0,
        n == if pos + size <= content.len() {
            size
        } else {
            content.len() - pos
        },
        input == content.subrange(e, pos + n),
        valid_utf8(content.take(e)),
    ensures
        !withheld(g, input),
{
    if withheld(g, input) {
    let (s, rest) = choose|s: &str, rest: Seq<u8>|
        #![trigger call_ensures(g, (s,), false), encode_utf8(s@) + rest]
        input == encode_utf8(s@) + rest && (rest.len() == 0 || cut_short(rest)) && call_ensures(
            g,
            (s,),
            false,
        );
    if pos < k {
        lemma_read_in_valid_part(content, size, g, k, e, pos, n, input);
    } else {
        lemma_cut_extendable(encode_utf8(s@), rest);
    }
    }
}

/// A chunk handed out before the read that fails comes from a whole read
/// inside the valid part, and the last such read leaves nothing pending.
pub proof fn lemma_emit<G: Fn(&str) -> bool>(
    content: Seq<u8>,
    size: int,
    g: G,
    k: int,
    e: int,
    pos: int,
    n: int,
    input: Seq<u8>,
    c: Seq<char>,
    pending: Seq<u8>,
)
    requires
        fails_after(content, size, g, k),
        0 <= e <= pos <= k,
        pos == k ==> e == pos,
        pos % size == 0,
        n == if pos + size <= content.len() {
            size
        } else {
            content.len() - pos
        },
        input == content.subrange(e, pos + n),
        valid_utf8(content.take(e)),
        encode_utf8(c) + pending == input,
        pending.len() == 0 || cut_short(pending),
    ensures
        pos < k,
        n == size,
        pos + n <= k,
        (pos + n) % size == 0,
        pos + n == k ==> valid_utf8(input),
{
    if pos < k {
        lemma_read_in_valid_part(content, size, g, k, e, pos, n, input);
    } else {
        lemma_cut_extendable(encode_utf8(c), pending);
    }
}

/// A read that cannot be continued into valid text is the one after the
/// valid part.
pub proof fn lemma_fail<G: Fn(&str) -> bool>(
    content: Seq<u8>,
    size: int,
    g: G,
    k: int,
    e: int,
    pos: int,
    n: int,
    input: Seq<u8>,
)
    requires
        fails_after(content, size, g, k),
        0 <= e <= pos <= k,
        pos % size == 0,
        n == if pos + size <= content.len() {
            size
        } else {
            content.len() - pos
        },
        input == content.subrange(e, pos + n),
        valid_utf8(content.take(e)),
        !extendable(input),
    ensures
        pos == k,
{
    if pos < k {
        lemma_read_in_valid_part(content, size, g, k, e, pos, n, input);
    }
}

/// How the bytes handed to a read sit in the content.
pub proof fn lemma_read_split(
    content: Seq<u8>,
    e: Seq<u8>,
    pending: Seq<u8>,
    pos: int,
    n: int,
    bytes: Seq<u8>,
)
    requires
        0 <= pos,
        0 <= n,
        pos + n <= content.len(),
        e + pending == content.take(pos),
        bytes == content.subrange(pos, pos + n),
    ensures
        pending + bytes == content.subrange(e.len() as int, pos + n),
        e + ((pending + bytes) + content.subrange(pos + n, content.len() as int)) == content,
        content.take(pos + n) == content.take(pos) + bytes,
{
    lemma_split_tail(e, pending, content.take(pos));
    assert(pending + bytes =~= content.subrange(e.len() as int, pos + n));
    let rest = content.subrange(pos + n, content.len() as int);
    assert(content =~= content.take(pos) + bytes + rest);
    assert(e + ((pending + bytes) + rest) =~= (e + pending) + bytes + rest);
    assert(content.take(pos + n) =~= content.take(pos) + bytes);
}

/// What follows a prefix is the rest of the sequence.
pub proof fn lemma_split_tail(x: Seq<u8>, p: Seq<u8>, t: Seq<u8>)
    requires
        x + p == t,
    ensures
        p == t.subrange(x.len() as int, t.len() as int),
{
    assert(p =~= t.subrange(x.len() as int, t.len() as int));
}

/// The characters of the chunks, one after another.
pub open spec fn concat(chunks: Seq<Seq<char>>) -> Seq<char>
    decreases chunks.len(),
{
    if chunks.len() == 0 {
        Seq::empty()
    } else {
        concat(chunks.drop_last()) + chunks.last()
    }
}

/// `f` may answer `true` for some text that reads as `chunk`.
pub open spec fn accepted<F: Fn(&str) -> bool>(f: F, chunk: Seq<char>) -> bool {
    exists|s: &str| s@ == chunk && #[trigger] call_ensures(f, (s,), true)
}

/// The predicate answered `false` for the text that `input` begins with, all
/// of it but for at most one character cut short at the end.
pub open spec fn withheld<F: Fn(&str) -> bool>(f: F, input: Seq<u8>) -> bool {
    exists|s: &str, rest: Seq<u8>|
        #![trigger call_ensures(f, (s,), false), encode_utf8(s@) + rest]
        input == encode_utf8(s@) + rest && (rest.len() == 0 || cut_short(rest))
            && call_ensures(f, (s,), false)
}

/// The chunk size used when none is given.
pub const DEFAULT_SIZE: usize = 128;

/// Why a stream stopped without finishing.
#[derive(Debug, Clone, Copy, PartialEq, Eq)]
pub enum Error {
    /// The source is not valid UTF-8; the number is how many bytes of the
    /// failing chunk were valid.
    InvalidString(usize),
}

/// A chunked UTF-8 text decoder. The caller reads up to `size_needed()`
/// bytes from its source and hands them to `feed`, which answers with the
/// next chunk of text, an error, or `None` to ask for more bytes. A chunk
/// never ends inside a character, and, until the source is exhausted, never
/// where the predicate says the text ends inside a placeholder token.
pub struct StringStream<F> {
    buffer: Vec<u8>,
    size: usize,
    ended: bool,
    failed: bool,
    f: F,
}

impl<F: Fn(&str) -> bool> StringStream<F> {
    /// Bytes read but not yet handed out.
    pub closed spec fn pending(&self) -> Seq<u8> {
        self.buffer@
    }

    pub closed spec fn chunk_size(&self) -> nat {
        self.size as nat
    }

    /// The source has been exhausted.
    pub closed spec fn ended(&self) -> bool {
        self.ended
    }

    /// The stream stopped on invalid input.
    pub closed spec fn failed(&self) -> bool {
        self.failed
    }

    /// The predicate that says whether a chunk may be handed out.
    pub closed spec fn predicate(&self) -> F {
        self.f
    }

    /// Nothing more will come out of the stream.
    pub open spec fn done(&self) -> bool {
        self.failed() || (self.ended() && self.pending().len() == 0)
    }

    pub open spec fn wf(&self) -> bool {
        &&& self.chunk_size() >= 4
        &&& forall|s: &str| #[trigger] call_requires(self.predicate(), (s,))
    }

    /// A stream with the default chunk size.
    pub fn new(f: F) -> (r: Self)
        requires
            forall|s: &str| call_requires(f, (s,)),
        ensures
            r.wf(),
            r.predicate() == f,
            r.chunk_size() == DEFAULT_SIZE,
            r.pending().len() == 0,
            !r.ended(),
            !r.failed(),
    {
        Self::with_size(f, DEFAULT_SIZE)
    }

    /// A stream that reads `buffer_size` bytes at a time; at least four, the
    /// longest encoding of one character.
    pub fn with_size(f: F, buffer_size: usize) -> (r: Self)
        requires
            buffer_size >= 4,
            forall|s: &str| call_requires(f, (s,)),
        ensures
            r.wf(),
            r.predicate() == f,
            r.chunk_size() == buffer_size,
            r.pending().len() == 0,
            !r.ended(),
            !r.failed(),
    {
        StringStream {
            buffer: Vec::with_capacity(buffer_size),
            size: buffer_size,
            ended: false,
            failed: false,
            f,
        }
    }

    /// Number of bytes read but not yet handed out.
    pub fn size(&self) -> (r: usize)
        ensures
            r == self.pending().len(),
    {
        self.buffer.len()
    }

    /// How many bytes to read for the next call of `feed`.
    pub fn size_needed(&self) -> (r: usize)
        ensures
            r == self.chunk_size(),
    {
        self.size
    }

    /// Whether nothing more will come out of the stream.
    pub fn is_done(&self) -> (r: bool)
        ensures
            r == self.done(),
    {
        self.failed || (self.ended && self.buffer.len() == 0)
    }

    /// Where the valid part may end when the buffer ends inside a character.
    fn possible_range(&self) -> (r: (usize, usize))
        ensures
            r.0 == if self.pending().len() >= 3 {
                self.pending().len() - 3
            } else {
                0
            },
            r.1 == self.pending().len(),
    {
        let max = self.buffer.len();
        let min = if max >= 3 {
            max - 3
        } else {
            0
        };
        (min, max)
    }

    /// Decodes the valid part of the buffer, leaving the bytes from `at` on in
    /// the buffer.
    fn unfinish_buffer(&mut self, at: usize) -> (r: String)
        requires
            at <= old(self).pending().len(),
            valid_utf8(old(self).pending().take(at as int)),
        ensures
            encode_utf8(r@) == old(self).pending().take(at as int),
            final(self).pending() == old(self).pending().subrange(
                at as int,
                old(self).pending().len() as int,
            ),
            final(self).size == old(self).size,
            final(self).ended == old(self).ended,
            final(self).failed == old(self).failed,
            final(self).f == old(self).f,
    {
        let len = self.buffer.len();
        let head = slice_subrange(self.buffer.as_slice(), 0, at);
        assert(head@ =~= old(self).pending().take(at as int));
        let result = match decode_bytes(head) {
            Ok(s) => s,
            Err(_) => String::new(),
        };
        let tail = slice_to_vec(slice_subrange(self.buffer.as_slice(), at, len));
        self.buffer = tail;
        result
    }

    /// Decodes the buffer: all of it when it is valid, its valid part when it
    /// ends inside a character, and an error otherwise.
    fn parse(&mut self) -> (r: Result<String, Error>)
        ensures
            final(self).size == old(self).size,
            final(self).ended == old(self).ended,
            final(self).f == old(self).f,
            match r {
                Ok(s) => {
                    &&& encode_utf8(s@) + final(self).pending() == old(self).pending()
                    &&& final(self).pending().len() <= 3
                    &&& final(self).pending().len() > 0 ==> cut_short(final(self).pending())
                    &&& final(self).failed == old(self).failed
                },
                Err(_) => {
                    &&& final(self).failed
                    &&& !valid_utf8(old(self).pending())
                    &&& final(self).pending().len() == 0
                },
            },
            valid_utf8(old(self).pending()) ==> r is Ok && final(self).pending().len() == 0,
            (exists|rest: Seq<u8>| #[trigger] valid_utf8(old(self).pending() + rest)) ==> r is Ok,
    {
        let ghost b = self.buffer@;
        let range = self.possible_range();
        match decode_bytes(self.buffer.as_slice()) {
            Ok(s) => {
                self.buffer.clear();
                assert(encode_utf8(s@) + self.buffer@ =~= b);
                Ok(s)
            },
            Err((at, cut)) => {
                proof {
                    if exists|rest: Seq<u8>| #[trigger] valid_utf8(b + rest) {
                        let rest = choose|rest: Seq<u8>| #[trigger] valid_utf8(b + rest);
                        let y = b + rest;
                        let c = lemma_prefix_of_valid(y, b.len() as int);
                        assert(y.take(b.len() as int) =~= b);
                        assert forall|i: int| 0 <= i <= b.len() implies #[trigger] y.take(i)
                            =~= b.take(i) by {}
                        assert(b.take(c) =~= y.take(c));
                        if at < c {
                            assert(!valid_utf8(b.take(c)));
                        }
                        if at > c {
                            assert(y.take(at as int) =~= b.take(at as int));
                        }
                        assert(at == c);
                        assert(y.subrange(c, b.len() as int) =~= b.subrange(c, b.len() as int));
                        assert(cut && range.0 <= at && at < range.1);
                    }
                }
                if cut && range.0 <= at && at < range.1 {
                    let s = self.unfinish_buffer(at);
                    assert(encode_utf8(s@) + self.buffer@ =~= b);
                    Ok(s)
                } else {
                    self.buffer.clear();
                    self.failed = true;
                    Err(Error::InvalidString(at))
                }
            },
        }
    }

    /// Puts a chunk back in front of the bytes not yet handed out.
    fn reinsert_content(&mut self, content: &str)
        ensures
            final(self).pending() == encode_utf8(content@) + old(self).pending(),
            final(self).size == old(self).size,
            final(self).ended == old(self).ended,
            final(self).failed == old(self).failed,
            final(self).f == old(self).f,
    {
        let mut front = slice_to_vec(content.as_bytes());
        front.append(&mut self.buffer);
        self.buffer = front;
    }

    /// Hands the stream the bytes read from the source: `size_needed()` of
    /// them, or fewer once the source is exhausted. Answers with the next
    /// chunk, with an error when the source is not valid UTF-8, or with `None`
    /// when more bytes are needed.
    pub fn feed(&mut self, bytes: &[u8]) -> (r: Option<Result<String, Error>>)
        requires
            old(self).wf(),
            !old(self).done(),
            bytes@.len() <= old(self).chunk_size(),
        ensures
            final(self).wf(),
            final(self).predicate() == old(self).predicate(),
            final(self).chunk_size() == old(self).chunk_size(),
            old(self).ended() ==> {
                &&& r matches Some(Err(_))
                &&& final(self).failed()
            },
            !old(self).ended() ==> {
                let input = old(self).pending() + bytes@;
                &&& final(self).ended() == (bytes@.len() < old(self).chunk_size())
                &&& match r {
                    None => {
                        &&& !final(self).ended()
                        &&& !final(self).failed()
                        &&& final(self).pending() == input
                        &&& withheld(old(self).predicate(), input)
                    },
                    Some(Ok(c)) => {
                        &&& !final(self).failed()
                        &&& encode_utf8(c@) + final(self).pending() == input
                        &&& (final(self).ended() || accepted(final(self).predicate(), c@))
                        &&& final(self).pending().len() > 0 ==> cut_short(final(self).pending())
                    },
                    Some(Err(_)) => {
                        &&& final(self).failed()
                        &&& !(exists|rest: Seq<u8>| #[trigger] valid_utf8(input + rest))
                    },
                }
                &&& (valid_utf8(input) && final(self).ended()) ==> (final(self).done()
                    && !final(self).failed())
                &&& valid_utf8(input) ==> {
                    &&& !(r matches Some(Err(_)))
                    &&& r matches Some(Ok(_)) ==> final(self).pending().len() == 0
                }
            },
    {
        if self.ended {
            self.failed = true;
            assert(self.predicate() == old(self).predicate());
            return Some(Err(Error::InvalidString(0)));
        }
        let ghost start = self.buffer@;
        let mut i: usize = 0;
        while i < bytes.len()
            invariant
                i <= bytes@.len(),
                self.buffer@ == start + bytes@.take(i as int),
                self.size == old(self).size,
                self.ended == old(self).ended,
                self.failed == old(self).failed,
                self.f == old(self).f,
            decreases bytes@.len() - i,
        {
            self.buffer.push(bytes[i]);
            assert(start + bytes@.take(i + 1) =~= (start + bytes@.take(i as int)).push(bytes@[i as int]));
            i = i + 1;
        }
        assert(bytes@.take(i as int) =~= bytes@);
        if bytes.len() < self.size {
            self.ended = true;
        }
        let result = self.parse();
        assert(self.predicate() == old(self).predicate());
        let ghost input = start + bytes@;
        let stop = match &result {
            Ok(s) => {
                if self.ended {
                    true
                } else {
                    let text = s.as_str();
                    assert(call_requires(self.predicate(), (text,)));
                    let ok = (self.f)(text);
                    proof {
                        if !ok {
                            assert(input == encode_utf8(text@) + self.buffer@);
                            assert(withheld(self.f, input));
                        }
                    }
                    ok
                }
            },
            Err(_) => true,
        };
        if stop {
            return Some(result);
        }
        match result {
            Ok(content) => {
                self.reinsert_content(content.as_str());
                proof {
                    assert(self.buffer@ =~= start + bytes@);
                }
            },
            Err(_) => {},
        }
        None
    }
}

/// Splits `content` into the chunks that a stream reading `size` bytes at a
/// time hands out, with `g` as the predicate on chunks, and reports whether
/// the content was valid UTF-8.
#[verifier::rlimit(100)]
#[verifier::spinoff_prover]
pub fn text_chunks<G: Fn(&str) -> bool>(content: &[u8], size: usize, g: G) -> (r: (
    Vec<String>,
    Result<(), Error>,
))
    requires
        size >= 4,
        forall|s: &str| call_requires(g, (s,)),
    ensures
        ({
            let chunks = strings_view(r.0@);
            let out = encode_utf8(concat(chunks));
            &&& r.1 is Ok <==> valid_utf8(content@)
            &&& r.1 is Ok ==> concat(chunks) == decode_utf8(content@)
            &&& out.len() <= content@.len()
            &&& content@.take(out.len() as int) == out
            &&& valid_utf8(out)
            &&& forall|i: int| 0 <= i < chunks.len() - 1 ==> accepted(g, #[trigger] chunks[i])
            &&& forall|k: int| #[trigger]
                fails_after(content@, size as int, g, k) ==> r.1 is Err && out == content@.take(k)
        }),
{
    let mut stream = StringStream::with_size(g, size);
    let mut chunks: Vec<String> = Vec::new();
    let mut pos: usize = 0;
    let mut outcome: Result<(), Error> = Ok(());
    let ghost len = content@.len();
    while !stream.is_done()
        invariant_except_break
            !stream.failed(),
            outcome is Ok,
            encode_utf8(concat(strings_view(chunks@))) + stream.pending()
                == content@.take(pos as int),
            stream.ended() ==> pos == len,
            valid_utf8(content@) && stream.ended() ==> stream.pending().len() == 0,
            chunks@.len() > 0 && !stream.ended() ==> accepted(g, strings_view(chunks@).last()),
            forall|k: int| #[trigger]
                fails_after(content@, size as int, g, k) ==> pos <= k && (pos as int) % (size as int) == 0
                    && !stream.ended() && (pos == k ==> stream.pending().len() == 0),
        invariant
            stream.wf(),
            stream.predicate() == g,
            stream.chunk_size() == size,
            pos <= len,
            len == content@.len(),
            encode_utf8(concat(strings_view(chunks@))).len() <= pos,
            content@.take(encode_utf8(concat(strings_view(chunks@))).len() as int) == encode_utf8(
                concat(strings_view(chunks@)),
            ),
            forall|i: int|
                0 <= i < chunks@.len() - 1 ==> accepted(g, #[trigger] strings_view(chunks@)[i]),
        ensures
            stream.failed() ==> outcome is Err && !valid_utf8(content@),
            !stream.failed() ==> {
                &&& outcome is Ok
                &&& stream.done()
                &&& encode_utf8(concat(strings_view(chunks@))) + stream.pending() == content@.take(
                    pos as int,
                )
                &&& pos == len
            },
            forall|k: int| #[trigger]
                fails_after(content@, size as int, g, k) ==> stream.failed() && encode_utf8(
                    concat(strings_view(chunks@)),
                ) == content@.take(k),
        decreases 2 * (len - pos) + if stream.ended() {
            0int
        } else {
            2int
        },
    {
        let n = if size <= content.len() - pos {
            size
        } else {
            content.len() - pos
        };
        let bytes = slice_subrange(content, pos, pos + n);
        let ghost was_ended = stream.ended();
        let ghost before = strings_view(chunks@);
        let ghost input = stream.pending() + bytes@;
        let ghost old_pending = stream.pending();
        let ghost e_len = encode_utf8(concat(before)).len() as int;
        proof {
            let e = encode_utf8(concat(before));
            let rest = content@.subrange(pos + n, len as int);
            lemma_read_split(content@, e, old_pending, pos as int, n as int, bytes@);
            if valid_utf8(content@) && !was_ended {
                lemma_valid_suffix(e, input + rest);
            }
        }
        match stream.feed(bytes) {
            None => {
                proof {
                    assert forall|k: int| #[trigger]
                        fails_after(content@, size as int, g, k) implies !withheld(g, input) by {
                        lemma_no_hold(content@, size as int, g, k, e_len, pos as int, n as int, input);
                    }
                }
            },
            Some(Ok(c)) => {
                let ghost cv = c@;
                chunks.push(c);
                proof {
                    let after = strings_view(chunks@);
                    assert(after.drop_last() =~= before);
                    assert(after.last() == cv);
                    lemma_encode_concat(concat(before), cv);
                    assert forall|i: int| 0 <= i < after.len() - 1 implies accepted(
                        g,
                        #[trigger] after[i],
                    ) by {
                        assert(after[i] == before[i]);
                    }
                    assert forall|k: int| #[trigger]
                        fails_after(content@, size as int, g, k) implies pos + n <= k && (pos + n) as int
                        % (size as int) == 0 && !stream.ended() && (pos + n == k
                        ==> stream.pending().len() == 0) by {
                        lemma_emit(
                            content@,
                            size as int,
                            g,
                            k,
                            e_len,
                            pos as int,
                            n as int,
                            input,
                            cv,
                            stream.pending(),
                        );
                    }
                }
            },
            Some(Err(e)) => {
                outcome = Err(e);
                proof {
                    if valid_utf8(content@) {
                        if !was_ended {
                            let rest = content@.subrange(pos + n, len as int);
                            assert(valid_utf8(input + rest));
                        }
                    }
                    assert forall|k: int| #[trigger]
                        fails_after(content@, size as int, g, k) implies encode_utf8(
                        concat(strings_view(chunks@)),
                    ) == content@.take(k) by {
                        lemma_fail(content@, size as int, g, k, e_len, pos as int, n as int, input);
                        assert(encode_utf8(concat(before)) + old_pending =~= encode_utf8(
                            concat(before),
                        ));
                    }
                }
                break;
            },
        }
        proof {
            let out = encode_utf8(concat(strings_view(chunks@)));
            assert(content@.take(pos + n).take(out.len() as int) =~= content@.take(out.len() as int));
        }
        pos = pos + n;
    }
    proof {
        let chunks_v = strings_view(chunks@);
        let out = encode_utf8(concat(chunks_v));
        if !stream.failed() {
            assert(out =~= content@.take(pos as int));
            assert(content@.take(pos as int) =~= content@);
        }
    }
    (chunks, outcome)
}

} // verus!
