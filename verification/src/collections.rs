//! Insertion-ordered map and set containers and their codec: the
//! decode side runs the full floor-claim protocol, so a declared length
//! is paid for — against the configured limit — before any storage
//! sized to it is allocated, and each element's floor share is handed
//! back just before that element's own reads claim its true cost.
//!
//! Both containers' decodes are tied to the wire grammar: a successful
//! decode holds exactly the parsed entries, re-inserted in wire order
//! (a repeated key replaces its value in place; a repeated set item is
//! dropped), and success is owed whenever the input parses and the
//! budget covers its bytes.

use vstd::prelude::*;

use crate::codec::{len_prefix_parse, BorrowDecode, Decode, Encode};
use crate::config::Config;
use crate::de::{lemma_remaining_advance, lemma_u64_outcome_parse, DecoderImpl};
use crate::enc::EncoderImpl;
use crate::error::DecodeError;
use crate::wire::{int_min_wire, int_min_wire_exec, lemma_u64_parse_len, u64_encoding, u64_parse,
    VarintParse};

verus! {

broadcast use vstd::seq::group_seq_axioms;

/// A map from 64-bit keys to values, keeping insertion order; inserting
/// an existing key replaces its value in place.
pub struct OrderedMap<V> {
    entries: Vec<(u64, V)>,
}

/// A set of 64-bit values, keeping insertion order.
pub struct OrderedSet {
    items: Vec<u64>,
}

/// The first position of key `k` in `s`, or the length of `s` when the
/// key is absent.
pub open spec fn first_key_index<P>(s: Seq<(u64, P)>, k: u64) -> int
    decreases s.len(),
{
    if s.len() == 0 {
        0
    } else if s[0].0 == k {
        0
    } else {
        1 + first_key_index(s.drop_first(), k)
    }
}

/// `acc` after one map insertion of `v` under `k`: the first entry with
/// key `k` is replaced in place, or the pair is appended.
pub open spec fn insert_entry<P>(acc: Seq<(u64, P)>, k: u64, v: P) -> Seq<(u64, P)> {
    let i = first_key_index(acc, k);
    if i < acc.len() {
        acc.update(i, (k, v))
    } else {
        acc.push((k, v))
    }
}

/// `acc` after map insertions of the run `xs`, left to right.
pub open spec fn run_insert<P>(acc: Seq<(u64, P)>, xs: Seq<(u64, P)>) -> Seq<(u64, P)>
    decreases xs.len(),
{
    if xs.len() == 0 {
        acc
    } else {
        run_insert(insert_entry(acc, xs[0].0, xs[0].1), xs.drop_first())
    }
}

/// Where `first_key_index` points: within bounds, past no entry with
/// the key, and at one when the key is present.
pub proof fn lemma_first_key_index<P>(s: Seq<(u64, P)>, k: u64)
    ensures
        0 <= first_key_index(s, k) <= s.len(),
        forall|j: int| 0 <= j < first_key_index(s, k) ==> s[j].0 != k,
        first_key_index(s, k) < s.len() ==> s[first_key_index(s, k)].0 == k,
    decreases s.len(),
{
    if s.len() > 0 && s[0].0 != k {
        lemma_first_key_index(s.drop_first(), k);
        assert forall|j: int| 0 <= j < first_key_index(s, k) implies s[j].0 != k by {
            if j > 0 {
                assert(s[j] == s.drop_first()[j - 1]);
            }
        }
    }
}

/// The deep views of a run of entries: each value replaced by its view,
/// keys untouched.
pub open spec fn entries_deep<V: DeepView>(s: Seq<(u64, V)>) -> Seq<(u64, <V as DeepView>::V)> {
    Seq::new(s.len(), |i: int| (s[i].0, s[i].1.deep_view()))
}

/// Taking deep views does not move the first position of a key.
proof fn lemma_first_key_index_deep<V: DeepView>(s: Seq<(u64, V)>, k: u64)
    ensures
        first_key_index(entries_deep(s), k) == first_key_index(s, k),
    decreases s.len(),
{
    if s.len() > 0 {
        assert(entries_deep(s)[0].0 == s[0].0);
        if s[0].0 != k {
            assert(entries_deep(s).drop_first() =~= entries_deep(s.drop_first()));
            lemma_first_key_index_deep(s.drop_first(), k);
        }
    }
}

/// Taking deep views commutes with one map insertion.
proof fn lemma_insert_entry_deep<V: DeepView>(s: Seq<(u64, V)>, k: u64, v: V)
    ensures
        entries_deep(insert_entry(s, k, v)) == insert_entry(entries_deep(s), k, v.deep_view()),
{
    lemma_first_key_index_deep(s, k);
    lemma_first_key_index(s, k);
    let i = first_key_index(s, k);
    if i < s.len() {
        assert(entries_deep(s.update(i, (k, v))) =~= entries_deep(s).update(
            i,
            (k, v.deep_view()),
        ));
    } else {
        assert(entries_deep(s.push((k, v))) =~= entries_deep(s).push((k, v.deep_view())));
    }
}

/// Inserting the run one entry longer inserts its last entry last.
proof fn lemma_run_insert_snoc<P>(acc: Seq<(u64, P)>, xs: Seq<(u64, P)>, x: (u64, P))
    ensures
        run_insert(acc, xs.push(x)) == insert_entry(run_insert(acc, xs), x.0, x.1),
    decreases xs.len(),
{
    if xs.len() == 0 {
        assert(xs.push(x)[0] == x);
        assert(xs.push(x).drop_first() =~= xs);
        assert(run_insert(acc, xs.push(x)) == run_insert(insert_entry(acc, x.0, x.1), xs));
        assert(run_insert(insert_entry(acc, x.0, x.1), xs) == insert_entry(acc, x.0, x.1));
        assert(run_insert(acc, xs) == acc);
    } else {
        assert(xs.push(x)[0] == xs[0]);
        assert(xs.push(x).drop_first() =~= xs.drop_first().push(x));
        assert(run_insert(acc, xs.push(x)) == run_insert(
            insert_entry(acc, xs[0].0, xs[0].1),
            xs.drop_first().push(x),
        ));
        lemma_run_insert_snoc(insert_entry(acc, xs[0].0, xs[0].1), xs.drop_first(), x);
        assert(run_insert(acc, xs) == run_insert(
            insert_entry(acc, xs[0].0, xs[0].1),
            xs.drop_first(),
        ));
    }
}

impl<V: DeepView> DeepView for OrderedMap<V> {
    type V = Seq<(u64, <V as DeepView>::V)>;

    open spec fn deep_view(&self) -> Seq<(u64, <V as DeepView>::V)> {
        entries_deep(self.entries_seq())
    }
}

impl DeepView for OrderedSet {
    type V = Seq<u64>;

    open spec fn deep_view(&self) -> Seq<u64> {
        self.items_seq()
    }
}

impl<V> OrderedMap<V> {
    /// The entries in insertion order.
    pub closed spec fn entries_seq(self) -> Seq<(u64, V)> {
        self.entries@
    }

    /// No key occurs twice.
    pub open spec fn wf(self) -> bool {
        forall|i: int, j: int|
            0 <= i < j < self.entries_seq().len() ==> self.entries_seq()[i].0
                != self.entries_seq()[j].0
    }

    /// Whether some entry has key `k`.
    pub open spec fn has_key(self, k: u64) -> bool {
        exists|i: int| 0 <= i < self.entries_seq().len() && self.entries_seq()[i].0 == k
    }

    /// An empty map.
    pub fn new() -> (r: OrderedMap<V>)
        ensures
            r.entries_seq() == Seq::<(u64, V)>::empty(),
            r.wf(),
    {
        let entries: Vec<(u64, V)> = Vec::new();
        proof {
            assert(entries@ =~= Seq::<(u64, V)>::empty());
        }
        OrderedMap { entries }
    }

    /// How many entries the map holds.
    pub fn len(&self) -> (n: usize)
        ensures
            n == self.entries_seq().len(),
    {
        self.entries.len()
    }

    /// The entries, in insertion order.
    pub fn entries(&self) -> (r: &Vec<(u64, V)>)
        ensures
            r@ == self.entries_seq(),
    {
        &self.entries
    }

    /// Whether the map holds key `k`.
    pub fn contains_key(&self, k: u64) -> (r: bool)
        ensures
            r == self.has_key(k),
    {
        let mut i: usize = 0;
        while i < self.entries.len()
            invariant
                i <= self.entries_seq().len(),
                forall|j: int| 0 <= j < i ==> self.entries_seq()[j].0 != k,
            decreases self.entries_seq().len() - i,
        {
            if self.entries[i].0 == k {
                return true;
            }
            i = i + 1;
        }
        false
    }

    /// Puts `v` under `k`: replaces the value at the key's first (and
    /// only) position, or appends the pair, keeping insertion order.
    #[verifier::loop_isolation(false)]
    pub fn insert(&mut self, k: u64, v: V)
        requires
            old(self).wf(),
        ensures
            final(self).wf(),
            final(self).entries_seq() == insert_entry(old(self).entries_seq(), k, v),
            final(self).entries_seq().len() <= old(self).entries_seq().len() + 1,
            old(self).has_key(k) ==> final(self).entries_seq().len() == old(
                self,
            ).entries_seq().len(),
            !old(self).has_key(k) ==> final(self).entries_seq() == old(self).entries_seq().push(
                (k, v),
            ),
            final(self).has_key(k),
    {
        proof {
            lemma_first_key_index(old(self).entries_seq(), k);
        }
        let mut i: usize = 0;
        while i < self.entries.len()
            invariant
                i <= self.entries_seq().len(),
                self.wf(),
                *self == *old(self),
                forall|j: int| 0 <= j < i ==> self.entries_seq()[j].0 != k,
            decreases self.entries_seq().len() - i,
        {
            if self.entries[i].0 == k {
                proof {
                    assert(first_key_index(old(self).entries_seq(), k) == i as int);
                }
                self.entries.set(i, (k, v));
                proof {
                    assert(self.entries@[i as int].0 == k);
                }
                return ;
            }
            i = i + 1;
        }
        proof {
            assert(first_key_index(old(self).entries_seq(), k) == old(
                self,
            ).entries_seq().len() as int);
        }
        self.entries.push((k, v));
        proof {
            assert(self.entries@[old(self).entries_seq().len() as int].0 == k);
        }
    }
}

impl OrderedSet {
    /// The items in insertion order.
    pub closed spec fn items_seq(self) -> Seq<u64> {
        self.items@
    }

    /// No item occurs twice.
    pub open spec fn wf(self) -> bool {
        forall|i: int, j: int|
            0 <= i < j < self.items_seq().len() ==> self.items_seq()[i] != self.items_seq()[j]
    }

    /// Whether `x` is in the set.
    pub open spec fn has_item(self, x: u64) -> bool {
        exists|i: int| 0 <= i < self.items_seq().len() && self.items_seq()[i] == x
    }

    /// An empty set.
    pub fn new() -> (r: OrderedSet)
        ensures
            r.items_seq() == Seq::<u64>::empty(),
            r.wf(),
    {
        let items: Vec<u64> = Vec::new();
        proof {
            assert(items@ =~= Seq::<u64>::empty());
        }
        OrderedSet { items }
    }

    /// How many items the set holds.
    pub fn len(&self) -> (n: usize)
        ensures
            n == self.items_seq().len(),
    {
        self.items.len()
    }

    /// The items, in insertion order.
    pub fn items(&self) -> (r: &Vec<u64>)
        ensures
            r@ == self.items_seq(),
    {
        &self.items
    }

    /// Whether the set holds `x`.
    pub fn contains(&self, x: u64) -> (r: bool)
        ensures
            r == self.has_item(x),
    {
        let mut i: usize = 0;
        while i < self.items.len()
            invariant
                i <= self.items_seq().len(),
                forall|j: int| 0 <= j < i ==> self.items_seq()[j] != x,
            decreases self.items_seq().len() - i,
        {
            if self.items[i] == x {
                return true;
            }
            i = i + 1;
        }
        false
    }

    /// Puts `x` in the set; a present item is left where it stands.
    pub fn insert(&mut self, x: u64)
        requires
            old(self).wf(),
        ensures
            final(self).wf(),
            final(self).items_seq() == insert_once(old(self).items_seq(), x),
            old(self).has_item(x) ==> final(self).items_seq() == old(self).items_seq(),
            !old(self).has_item(x) ==> final(self).items_seq() == old(self).items_seq().push(x),
            final(self).has_item(x),
    {
        if self.contains(x) {
            return ;
        }
        self.items.push(x);
        proof {
            assert(self.items@[old(self).items_seq().len() as int] == x);
        }
    }
}

/// Reading `n` integers off the head of `s`: the values in order and
/// their total byte count, or nothing when the run does not parse.
pub open spec fn items_parse(c: Config, s: Seq<u8>, n: nat) -> Option<(Seq<u64>, int)>
    decreases n,
{
    if n == 0 {
        Some((Seq::<u64>::empty(), 0int))
    } else {
        match u64_parse(c, s) {
            VarintParse::Value { x, len } => {
                match items_parse(c, s.subrange(len, s.len() as int), (n - 1) as nat) {
                    Some(p) => Some((seq![x] + p.0, len + p.1)),
                    None => None,
                }
            },
            _ => None,
        }
    }
}

/// `acc` after one set insertion of `x`.
pub open spec fn insert_once(acc: Seq<u64>, x: u64) -> Seq<u64> {
    if exists|i: int| 0 <= i < acc.len() && acc[i] == x {
        acc
    } else {
        acc.push(x)
    }
}

/// `acc` after set insertions of the run `xs`, left to right.
pub open spec fn run_dedup(acc: Seq<u64>, xs: Seq<u64>) -> Seq<u64>
    decreases xs.len(),
{
    if xs.len() == 0 {
        acc
    } else {
        run_dedup(insert_once(acc, xs[0]), xs.drop_first())
    }
}

/// A parsed integer run of `n` values occupies at least `n` integer
/// floors and at most the whole input.
pub proof fn lemma_items_parse_len(c: Config, s: Seq<u8>, n: nat)
    ensures
        items_parse(c, s, n) matches Some(p) ==> n * int_min_wire(c) <= p.1 <= s.len()
            && p.0.len() == n,
    decreases n,
{
    lemma_u64_parse_len(c, s);
    if n > 0 {
        match u64_parse(c, s) {
            VarintParse::Value { x, len } => {
                lemma_items_parse_len(c, s.subrange(len, s.len() as int), (n - 1) as nat);
                assert(n * int_min_wire(c) == (n - 1) * int_min_wire(c) + int_min_wire(c))
                    by (nonlinear_arith);
            },
            _ => {},
        }
    } else {
        assert(n * int_min_wire(c) == 0) by (nonlinear_arith)
            requires
                n == 0,
        ;
    }
}

/// Parsing `m` more integers from `rest` extends what `raw` integers,
/// over `used` bytes, already read from the head of `whole`.
pub open spec fn items_parse_extends(
    c: Config,
    whole: Seq<u8>,
    n: nat,
    raw: Seq<u64>,
    used: int,
    rest: Seq<u8>,
    m: nat,
) -> bool {
    match items_parse(c, rest, m) {
        Some(p) => items_parse(c, whole, n) == Some((raw + p.0, used + p.1)),
        None => items_parse(c, whole, n) is None,
    }
}

/// Reading `n` key/value pairs off the head of `s`: keys and the deep
/// views of values, in order, with their total byte count.
pub open spec fn pairs_parse<Ctx, V: Decode<Ctx>>(c: Config, s: Seq<u8>, n: nat) -> Option<
    (Seq<(u64, <V as DeepView>::V)>, int),
>
    decreases n,
{
    if n == 0 {
        Some((Seq::<(u64, <V as DeepView>::V)>::empty(), 0int))
    } else {
        match u64_parse(c, s) {
            VarintParse::Value { x: k0, len: kw } => {
                match V::parsed(c, s.subrange(kw, s.len() as int)) {
                    Some(pv) => {
                        match pairs_parse::<Ctx, V>(
                            c,
                            s.subrange(kw + pv.1, s.len() as int),
                            (n - 1) as nat,
                        ) {
                            Some(q) => Some((seq![(k0, pv.0)] + q.0, kw + pv.1 + q.1)),
                            None => None,
                        }
                    },
                    None => None,
                }
            },
            _ => None,
        }
    }
}

/// A parsed pair run of `n` pairs occupies at least `n` pair floors and
/// at most the whole input.
pub proof fn lemma_pairs_parse_len<Ctx, V: Decode<Ctx>>(c: Config, s: Seq<u8>, n: nat)
    ensures
        pairs_parse::<Ctx, V>(c, s, n) matches Some(q) ==> n * (int_min_wire(c) + V::min_wire(c))
            <= q.1 <= s.len() && q.0.len() == n,
    decreases n,
{
    lemma_u64_parse_len(c, s);
    if n > 0 {
        match u64_parse(c, s) {
            VarintParse::Value { x: k0, len: kw } => {
                V::lemma_parsed_len(c, s.subrange(kw, s.len() as int));
                match V::parsed(c, s.subrange(kw, s.len() as int)) {
                    Some(pv) => {
                        lemma_pairs_parse_len::<Ctx, V>(
                            c,
                            s.subrange(kw + pv.1, s.len() as int),
                            (n - 1) as nat,
                        );
                        assert(n * (int_min_wire(c) + V::min_wire(c)) == (n - 1) * (int_min_wire(
                            c,
                        ) + V::min_wire(c)) + (int_min_wire(c) + V::min_wire(c)))
                            by (nonlinear_arith);
                    },
                    None => {},
                }
            },
            _ => {},
        }
    } else {
        assert(n * (int_min_wire(c) + V::min_wire(c)) == 0) by (nonlinear_arith)
            requires
                n == 0,
        ;
    }
}

/// Parsing `m` more pairs from `rest` extends what `raw` pairs, over
/// `used` bytes, already read from the head of `whole`.
pub open spec fn pairs_parse_extends<Ctx, V: Decode<Ctx>>(
    c: Config,
    whole: Seq<u8>,
    n: nat,
    raw: Seq<(u64, <V as DeepView>::V)>,
    used: int,
    rest: Seq<u8>,
    m: nat,
) -> bool {
    match pairs_parse::<Ctx, V>(c, rest, m) {
        Some(q) => pairs_parse::<Ctx, V>(c, whole, n) == Some((raw + q.0, used + q.1)),
        None => pairs_parse::<Ctx, V>(c, whole, n) is None,
    }
}

/// The wire form of one map entry: key, then value.
pub open spec fn pair_encoding<V: Encode>(p: (u64, V), c: Config) -> Seq<u8> {
    u64_encoding(c, p.0) + p.1.encoding(c)
}

/// The wire form of a run of map entries, in order.
pub open spec fn entries_encoding<V: Encode>(s: Seq<(u64, V)>, c: Config) -> Seq<u8>
    decreases s.len(),
{
    if s.len() == 0 {
        Seq::<u8>::empty()
    } else {
        pair_encoding(s[0], c) + entries_encoding(s.drop_first(), c)
    }
}

/// The wire form of a run of set items, in order.
pub open spec fn items_encoding(s: Seq<u64>, c: Config) -> Seq<u8>
    decreases s.len(),
{
    if s.len() == 0 {
        Seq::<u8>::empty()
    } else {
        u64_encoding(c, s[0]) + items_encoding(s.drop_first(), c)
    }
}

/// Appending one entry appends its wire form.
proof fn lemma_entries_encoding_snoc<V: Encode>(s: Seq<(u64, V)>, x: (u64, V), c: Config)
    ensures
        entries_encoding(s.push(x), c) == entries_encoding(s, c) + pair_encoding(x, c),
    decreases s.len(),
{
    if s.len() == 0 {
        assert(s.push(x)[0] == x);
        assert(s.push(x).drop_first() =~= s);
        assert(entries_encoding(s.push(x), c) == pair_encoding(x, c) + entries_encoding(s, c));
        assert(entries_encoding(s, c) == Seq::<u8>::empty());
        assert(pair_encoding(x, c) + Seq::<u8>::empty() =~= Seq::<u8>::empty() + pair_encoding(
            x,
            c,
        ));
    } else {
        assert(s.push(x)[0] == s[0]);
        assert(s.push(x).drop_first() =~= s.drop_first().push(x));
        assert(entries_encoding(s.push(x), c) == pair_encoding(s[0], c) + entries_encoding(
            s.drop_first().push(x),
            c,
        ));
        lemma_entries_encoding_snoc(s.drop_first(), x, c);
        assert(pair_encoding(s[0], c) + (entries_encoding(s.drop_first(), c) + pair_encoding(
            x,
            c,
        )) =~= (pair_encoding(s[0], c) + entries_encoding(s.drop_first(), c)) + pair_encoding(
            x,
            c,
        ));
        assert(entries_encoding(s, c) == pair_encoding(s[0], c) + entries_encoding(
            s.drop_first(),
            c,
        ));
    }
}

/// Appending one item appends its wire form.
proof fn lemma_items_encoding_snoc(s: Seq<u64>, x: u64, c: Config)
    ensures
        items_encoding(s.push(x), c) == items_encoding(s, c) + u64_encoding(c, x),
    decreases s.len(),
{
    if s.len() == 0 {
        assert(s.push(x)[0] == x);
        assert(s.push(x).drop_first() =~= s);
        assert(items_encoding(s.push(x), c) == u64_encoding(c, x) + items_encoding(s, c));
        assert(items_encoding(s, c) == Seq::<u8>::empty());
        assert(u64_encoding(c, x) + Seq::<u8>::empty() =~= Seq::<u8>::empty() + u64_encoding(
            c,
            x,
        ));
    } else {
        assert(s.push(x)[0] == s[0]);
        assert(s.push(x).drop_first() =~= s.drop_first().push(x));
        assert(items_encoding(s.push(x), c) == u64_encoding(c, s[0]) + items_encoding(
            s.drop_first().push(x),
            c,
        ));
        lemma_items_encoding_snoc(s.drop_first(), x, c);
        assert(u64_encoding(c, s[0]) + (items_encoding(s.drop_first(), c) + u64_encoding(c, x))
            =~= (u64_encoding(c, s[0]) + items_encoding(s.drop_first(), c)) + u64_encoding(c, x));
        assert(items_encoding(s, c) == u64_encoding(c, s[0]) + items_encoding(s.drop_first(), c));
    }
}

impl<V: Encode> Encode for OrderedMap<V> {
    open spec fn encoding(&self, c: Config) -> Seq<u8> {
        u64_encoding(c, self.entries_seq().len() as u64) + entries_encoding(self.entries_seq(), c)
    }

    #[verifier::loop_isolation(false)]
    fn encode(&self, e: &mut EncoderImpl) {
        let ghost c = e.cfg();
        let n = self.entries.len();
        e.encode_slice_len(n);
        let mut i: usize = 0;
        while i < n
            invariant
                i <= n,
                e.cfg() == old(e).cfg(),
                e.written() =~= old(e).written() + u64_encoding(c, n as u64) + entries_encoding(
                    self.entries@.subrange(0, i as int),
                    c,
                ),
            decreases n - i,
        {
            let p = &self.entries[i];
            e.write_u64(p.0);
            p.1.encode(e);
            proof {
                assert(self.entries@.subrange(0, i + 1) =~= self.entries@.subrange(
                    0,
                    i as int,
                ).push(self.entries@[i as int]));
                lemma_entries_encoding_snoc(
                    self.entries@.subrange(0, i as int),
                    self.entries@[i as int],
                    c,
                );
                assert(e.written() =~= old(e).written() + u64_encoding(c, n as u64)
                    + entries_encoding(self.entries@.subrange(0, i + 1), c));
            }
            i = i + 1;
        }
        proof {
            assert(self.entries@.subrange(0, n as int) =~= self.entries@);
            assert(e.written() =~= old(e).written() + self.encoding(old(e).cfg()));
        }
    }
}

impl Encode for OrderedSet {
    open spec fn encoding(&self, c: Config) -> Seq<u8> {
        u64_encoding(c, self.items_seq().len() as u64) + items_encoding(self.items_seq(), c)
    }

    #[verifier::loop_isolation(false)]
    fn encode(&self, e: &mut EncoderImpl) {
        let ghost c = e.cfg();
        let n = self.items.len();
        e.encode_slice_len(n);
        let mut i: usize = 0;
        while i < n
            invariant
                i <= n,
                e.cfg() == old(e).cfg(),
                e.written() =~= old(e).written() + u64_encoding(c, n as u64) + items_encoding(
                    self.items@.subrange(0, i as int),
                    c,
                ),
            decreases n - i,
        {
            e.write_u64(self.items[i]);
            proof {
                assert(self.items@.subrange(0, i + 1) =~= self.items@.subrange(0, i as int).push(
                    self.items@[i as int],
                ));
                lemma_items_encoding_snoc(self.items@.subrange(0, i as int), self.items@[i as int], c);
                assert(e.written() =~= old(e).written() + u64_encoding(c, n as u64)
                    + items_encoding(self.items@.subrange(0, i + 1), c));
            }
            i = i + 1;
        }
        proof {
            assert(self.items@.subrange(0, n as int) =~= self.items@);
            assert(e.written() =~= old(e).written() + self.encoding(old(e).cfg()));
        }
    }
}

/// The wire form of an integer run, followed by anything, parses back
/// to exactly that run over exactly its own bytes.
pub proof fn lemma_items_parse_encoding(c: Config, xs: Seq<u64>, rest: Seq<u8>)
    ensures
        items_parse(c, items_encoding(xs, c) + rest, xs.len()) == Some(
            (xs, items_encoding(xs, c).len() as int),
        ),
    decreases xs.len(),
{
    if xs.len() == 0 {
        assert(items_encoding(xs, c) + rest =~= rest);
        assert(xs =~= Seq::<u64>::empty());
    } else {
        let head_enc = u64_encoding(c, xs[0]);
        let tail_enc = items_encoding(xs.drop_first(), c);
        let s = items_encoding(xs, c) + rest;
        assert(items_encoding(xs, c) == head_enc + tail_enc);
        assert(s =~= head_enc + (tail_enc + rest));
        crate::wire::lemma_u64_round_trip(c, xs[0], tail_enc + rest);
        crate::wire::lemma_u64_encoding_len(c, xs[0]);
        assert(s.subrange(head_enc.len() as int, s.len() as int) =~= tail_enc + rest);
        lemma_items_parse_encoding(c, xs.drop_first(), rest);
        assert(seq![xs[0]] + xs.drop_first() =~= xs);
    }
}

/// Inserting the run one value longer inserts its last value last.
proof fn lemma_run_dedup_snoc(acc: Seq<u64>, xs: Seq<u64>, x: u64)
    ensures
        run_dedup(acc, xs.push(x)) == insert_once(run_dedup(acc, xs), x),
    decreases xs.len(),
{
    if xs.len() == 0 {
        assert(xs.push(x)[0] == x);
        assert(xs.push(x).drop_first() =~= xs);
        assert(run_dedup(acc, xs.push(x)) == run_dedup(insert_once(acc, x), xs));
        assert(run_dedup(insert_once(acc, x), xs) == insert_once(acc, x));
        assert(run_dedup(acc, xs) == acc);
    } else {
        assert(xs.push(x)[0] == xs[0]);
        assert(xs.push(x).drop_first() =~= xs.drop_first().push(x));
        assert(run_dedup(acc, xs.push(x)) == run_dedup(
            insert_once(acc, xs[0]),
            xs.drop_first().push(x),
        ));
        lemma_run_dedup_snoc(insert_once(acc, xs[0]), xs.drop_first(), x);
        assert(run_dedup(acc, xs) == run_dedup(insert_once(acc, xs[0]), xs.drop_first()));
    }
}

/// Inserting a run of pairwise distinct values into a set that shares
/// none of them appends the run unchanged.
proof fn lemma_run_dedup_distinct(acc: Seq<u64>, xs: Seq<u64>)
    requires
        forall|i: int, j: int|
            0 <= i < j < (acc + xs).len() ==> (acc + xs)[i] != (acc + xs)[j],
    ensures
        run_dedup(acc, xs) == acc + xs,
    decreases xs.len(),
{
    if xs.len() == 0 {
        assert(acc + xs =~= acc);
    } else {
        let t = acc + xs;
        assert forall|i: int| 0 <= i < acc.len() implies acc[i] != xs[0] by {
            assert(t[i] == acc[i]);
            assert(t[acc.len() as int] == xs[0]);
        }
        assert(insert_once(acc, xs[0]) == acc.push(xs[0]));
        assert(acc.push(xs[0]) + xs.drop_first() =~= acc + xs);
        lemma_run_dedup_distinct(acc.push(xs[0]), xs.drop_first());
    }
}

/// The round-trip law for sets: the integer run of a set whose items
/// are pairwise distinct parses back from its own wire form, and
/// re-inserting it in order reproduces the set unchanged. Together with
/// the length-prefix law this pins `decode(encode(s)) == s`.
pub proof fn lemma_set_round_trip(c: Config, xs: Seq<u64>, rest: Seq<u8>)
    requires
        forall|i: int, j: int| 0 <= i < j < xs.len() ==> xs[i] != xs[j],
    ensures
        items_parse(c, items_encoding(xs, c) + rest, xs.len()) == Some(
            (xs, items_encoding(xs, c).len() as int),
        ),
        run_dedup(Seq::<u64>::empty(), xs) == xs,
{
    lemma_items_parse_encoding(c, xs, rest);
    assert(Seq::<u64>::empty() + xs =~= xs);
    lemma_run_dedup_distinct(Seq::<u64>::empty(), xs);
}

/// What the head of `s` holds when read as a set: the parsed integer
/// run re-inserted in order (repeats dropped) and its byte count,
/// prefix included.
pub open spec fn set_parse(c: Config, s: Seq<u8>) -> Option<(Seq<u64>, int)> {
    match len_prefix_parse(c, s) {
        Some(nk) => match items_parse(c, s.subrange(nk.1, s.len() as int), nk.0 as nat) {
            Some(q) => Some((run_dedup(Seq::<u64>::empty(), q.0), nk.1 + q.1)),
            None => None,
        },
        None => None,
    }
}

/// Reads a set: length, floor claim of `len` integer floors, then items
/// one at a time, each handing its floor share back just before its own
/// reads claim its true cost. A length whose floor passes the limit is
/// rejected before the set is allocated, even when the input ends right
/// after the prefix. A successful decode holds exactly the integers the
/// wire grammar names, inserted in wire order, and is owed whenever the
/// input parses and the budget covers its bytes.
#[verifier::loop_isolation(false)]
#[verifier::rlimit(60)]
pub fn decode_ordered_set<'a, Ctx>(d: &mut DecoderImpl<'a, Ctx>) -> (r: Result<
    OrderedSet,
    DecodeError,
>)
    requires
        old(d).wf(),
    ensures
        final(d).advanced_from(*old(d)),
        r.is_ok() && old(d).cfg().limit.is_some() ==> final(d).claimed() - old(d).claimed()
            == final(d).position() - old(d).position(),
        (match old(d).len_outcome() {
            Err(e) => r matches Err(e2) && e2 == e,
            Ok(n) => {
                &&& (!old(d).budget_ok(
                    old(d).u64_outcome_len() + n * int_min_wire(old(d).cfg()),
                ) ==> (r matches Err(e2) && e2 == DecodeError::LimitExceeded))
                &&& (r matches Ok(m) ==> m.wf() && m.items_seq().len() <= n)
            },
        }),
        (r matches Ok(m) ==> (set_parse(old(d).cfg(), old(d).remaining()) matches Some(p)
            && m.items_seq() == p.0 && final(d).position() == old(d).position() + p.1)),
        (set_parse(old(d).cfg(), old(d).remaining()) matches Some(p) ==> (old(d).budget_ok(p.1)
            ==> r.is_ok())),
{
    let ghost dorig = *d;
    let ghost c = old(d).cfg();
    proof {
        lemma_u64_outcome_parse(dorig);
        match len_prefix_parse(c, dorig.remaining()) {
            Some(nk) => {
                lemma_items_parse_len(
                    c,
                    dorig.remaining().subrange(nk.1, dorig.remaining().len() as int),
                    nk.0 as nat,
                );
                assert((nk.0 as int) * int_min_wire(c) >= 0) by (nonlinear_arith)
                    requires
                        nk.0 >= 0,
                        int_min_wire(c) >= 1,
                ;
            },
            None => {},
        }
    }
    let len = d.decode_slice_len()?;
    proof {
        assert(0 <= dorig.u64_outcome_len());
        lemma_remaining_advance(dorig, *d, dorig.u64_outcome_len());
        lemma_items_parse_len(c, d.remaining(), len as nat);
    }
    let elem: usize = int_min_wire_exec(d.config());
    d.claim_container_read(len, elem)?;
    let ghost dstart = *d;
    let ghost tail = dstart.remaining();
    let mut set = OrderedSet::new();
    let mut i: usize = 0;
    let ghost mut raw: Seq<u64> = Seq::<u64>::empty();
    proof {
        assert(raw + Seq::<u64>::empty() =~= raw);
    }
    while i < len
        invariant
            i <= len,
            d.wf(),
            set.wf(),
            set.items_seq().len() <= i as int,
            set.items_seq() == run_dedup(Seq::<u64>::empty(), raw),
            d.data() == dstart.data(),
            d.cfg() == dstart.cfg(),
            d.context() == dstart.context(),
            dstart.position() <= d.position() <= d.data().len(),
            dstart.cfg().limit.is_some() ==> d.claimed() == dstart.claimed() + (d.position()
                - dstart.position()) - (i as int) * (elem as int),
            dstart.cfg().limit.is_none() ==> d.claimed() == dstart.claimed(),
            items_parse_extends(
                c,
                tail,
                len as nat,
                raw,
                d.position() - dstart.position(),
                d.remaining(),
                (len - i) as nat,
            ),
        decreases len - i,
    {
        proof {
            assert((len as int) * (elem as int) >= (i as int) * (elem as int) + (elem as int))
                by (nonlinear_arith)
                requires
                    i < len,
                    elem >= 1,
            ;
            assert((i as int) * (elem as int) >= 0) by (nonlinear_arith)
                requires
                    i >= 0,
                    elem >= 1,
            ;
        }
        d.unclaim_bytes_read(elem);
        let ghost dmid = *d;
        proof {
            lemma_u64_outcome_parse(dmid);
            lemma_u64_parse_len(c, dmid.remaining());
            match items_parse(c, tail, len as nat) {
                Some(p) => {
                    if dorig.budget_ok(dorig.u64_outcome_len() + p.1) {
                        match items_parse(c, dmid.remaining(), (len - i) as nat) {
                            Some(qi) => {
                                match u64_parse(c, dmid.remaining()) {
                                    VarintParse::Value { x: x0, len: w } => {
                                        lemma_items_parse_len(
                                            c,
                                            dmid.remaining().subrange(
                                                w,
                                                dmid.remaining().len() as int,
                                            ),
                                            (len - i - 1) as nat,
                                        );
                                        assert((len as int - i - 1) * (elem as int) <= (len - i
                                            - 1) * int_min_wire(c)) by (nonlinear_arith)
                                            requires
                                                elem as int == int_min_wire(c),
                                                i < len,
                                        ;
                                        assert((len as int) * (elem as int) - (i as int) * (
                                        elem as int) - (elem as int) == (len as int - i - 1) * (
                                        elem as int)) by (nonlinear_arith);
                                        assert(dmid.budget_ok(w));
                                    },
                                    _ => {
                                        assert(false);
                                    },
                                }
                            },
                            None => {
                                assert(items_parse(c, tail, len as nat) is None);
                                assert(false);
                            },
                        }
                    }
                },
                None => {},
            }
        }
        let x = d.decode_u64()?;
        proof {
            match u64_parse(c, dmid.remaining()) {
                VarintParse::Value { x: x0, len: w } => {
                    lemma_remaining_advance(dmid, *d, w);
                    assert(raw.push(x) =~= raw + seq![x0]);
                    match items_parse(c, d.remaining(), (len - i - 1) as nat) {
                        Some(qr) => {
                            assert(items_parse(c, dmid.remaining(), (len - i) as nat) == Some(
                                (seq![x0] + qr.0, w + qr.1),
                            ));
                            assert(raw + (seq![x0] + qr.0) =~= (raw + seq![x0]) + qr.0);
                        },
                        None => {},
                    }
                },
                _ => {},
            }
            lemma_run_dedup_snoc(Seq::<u64>::empty(), raw, x);
            raw = raw.push(x);
        }
        set.insert(x);
        i = i + 1;
        proof {
            assert((i as int) * (elem as int) == (i as int - 1) * (elem as int) + (elem as int))
                by (nonlinear_arith);
        }
    }
    proof {
        assert(items_parse(c, d.remaining(), 0) == Some((Seq::<u64>::empty(), 0int)));
        assert(raw + Seq::<u64>::empty() =~= raw);
        assert((len as int) * (elem as int) >= 0) by (nonlinear_arith)
            requires
                len >= 0,
                elem >= 1,
        ;
    }
    Ok(set)
}

impl<Ctx> Decode<Ctx> for OrderedSet {
    open spec fn parsed(c: Config, s: Seq<u8>) -> Option<(Seq<u64>, int)> {
        set_parse(c, s)
    }

    open spec fn min_wire(c: Config) -> int {
        int_min_wire(c)
    }

    fn min_wire_bytes(c: Config) -> usize {
        int_min_wire_exec(c)
    }

    proof fn lemma_parsed_len(c: Config, s: Seq<u8>) {
        lemma_u64_parse_len(c, s);
        match len_prefix_parse(c, s) {
            Some(nk) => {
                lemma_items_parse_len(c, s.subrange(nk.1, s.len() as int), nk.0 as nat);
                assert((nk.0 as int) * int_min_wire(c) >= 0) by (nonlinear_arith)
                    requires
                        nk.0 >= 0,
                        int_min_wire(c) >= 1,
                ;
            },
            None => {},
        }
    }

    fn decode<'a>(d: &mut DecoderImpl<'a, Ctx>) -> Result<Self, DecodeError> {
        decode_ordered_set(d)
    }
}

impl<'de, Ctx> BorrowDecode<'de, Ctx> for OrderedSet {
    open spec fn parsed(c: Config, s: Seq<u8>) -> Option<(Seq<u64>, int)> {
        set_parse(c, s)
    }

    open spec fn min_wire(c: Config) -> int {
        int_min_wire(c)
    }

    fn min_wire_bytes(c: Config) -> usize {
        int_min_wire_exec(c)
    }

    proof fn lemma_parsed_len(c: Config, s: Seq<u8>) {
        <OrderedSet as Decode<Ctx>>::lemma_parsed_len(c, s);
    }

    fn borrow_decode(d: &mut DecoderImpl<'de, Ctx>) -> Result<Self, DecodeError> {
        decode_ordered_set(d)
    }
}

/// What the head of `s` holds when read as a map: the parsed key/value
/// run re-inserted in order (a repeated key replaces its value at its
/// first position) and its byte count, prefix included.
pub open spec fn map_parse<Ctx, V: Decode<Ctx>>(c: Config, s: Seq<u8>) -> Option<
    (Seq<(u64, <V as DeepView>::V)>, int),
> {
    match len_prefix_parse(c, s) {
        Some(nk) => match pairs_parse::<Ctx, V>(c, s.subrange(nk.1, s.len() as int), nk.0 as nat) {
            Some(q) => Some(
                (run_insert(Seq::<(u64, <V as DeepView>::V)>::empty(), q.0), nk.1 + q.1),
            ),
            None => None,
        },
        None => None,
    }
}

/// Reads a map: length, floor claim of `len` pair floors, then pairs —
/// key then value — one at a time, each handing its floor share back
/// just before its own reads claim its true cost. A length whose floor
/// passes the limit is rejected before the map is allocated, even when
/// the input ends right after the prefix. A successful decode holds
/// exactly the pairs the wire grammar names, inserted in wire order,
/// and is owed whenever the input parses and the budget covers its
/// bytes.
#[verifier::loop_isolation(false)]
#[verifier::rlimit(80)]
pub fn decode_ordered_map<'a, Ctx, V: Decode<Ctx>>(d: &mut DecoderImpl<'a, Ctx>) -> (r: Result<
    OrderedMap<V>,
    DecodeError,
>)
    requires
        old(d).wf(),
    ensures
        final(d).advanced_from(*old(d)),
        r.is_ok() && old(d).cfg().limit.is_some() ==> final(d).claimed() - old(d).claimed()
            == final(d).position() - old(d).position(),
        (match old(d).len_outcome() {
            Err(e) => r matches Err(e2) && e2 == e,
            Ok(n) => {
                &&& (!old(d).budget_ok(
                    old(d).u64_outcome_len() + n * (int_min_wire(old(d).cfg()) + V::min_wire(
                        old(d).cfg(),
                    )),
                ) ==> (r matches Err(e2) && e2 == DecodeError::LimitExceeded))
                &&& (r matches Ok(m) ==> m.wf() && m.entries_seq().len() <= n)
            },
        }),
        (r matches Ok(m) ==> (map_parse::<Ctx, V>(old(d).cfg(), old(d).remaining()) matches Some(
            p,
        ) && m.deep_view() == p.0 && final(d).position() == old(d).position() + p.1)),
        (map_parse::<Ctx, V>(old(d).cfg(), old(d).remaining()) matches Some(p) ==> (old(
            d,
        ).budget_ok(p.1) ==> r.is_ok())),
{
    let ghost dorig = *d;
    let ghost c = old(d).cfg();
    proof {
        lemma_u64_outcome_parse(dorig);
        match len_prefix_parse(c, dorig.remaining()) {
            Some(nk) => {
                lemma_pairs_parse_len::<Ctx, V>(
                    c,
                    dorig.remaining().subrange(nk.1, dorig.remaining().len() as int),
                    nk.0 as nat,
                );
                V::lemma_parsed_len(c, dorig.remaining());
                assert((nk.0 as int) * (int_min_wire(c) + V::min_wire(c)) >= 0)
                    by (nonlinear_arith)
                    requires
                        nk.0 >= 0,
                        int_min_wire(c) + V::min_wire(c) >= 1,
                ;
            },
            None => {},
        }
    }
    let len = d.decode_slice_len()?;
    proof {
        assert(0 <= dorig.u64_outcome_len());
        lemma_remaining_advance(dorig, *d, dorig.u64_outcome_len());
        lemma_pairs_parse_len::<Ctx, V>(c, d.remaining(), len as nat);
    }
    let vmin: usize = V::min_wire_bytes(d.config());
    let kmin: usize = int_min_wire_exec(d.config());
    let elem: usize = kmin + vmin;
    d.claim_container_read(len, elem)?;
    let ghost dstart = *d;
    let ghost tail = dstart.remaining();
    let mut map: OrderedMap<V> = OrderedMap::new();
    let mut i: usize = 0;
    let ghost mut raw: Seq<(u64, <V as DeepView>::V)> = Seq::<(u64, <V as DeepView>::V)>::empty();
    proof {
        assert(raw + Seq::<(u64, <V as DeepView>::V)>::empty() =~= raw);
        assert(map.deep_view() =~= run_insert(Seq::<(u64, <V as DeepView>::V)>::empty(), raw));
    }
    while i < len
        invariant
            i <= len,
            d.wf(),
            map.wf(),
            map.entries_seq().len() <= i as int,
            map.deep_view() == run_insert(Seq::<(u64, <V as DeepView>::V)>::empty(), raw),
            d.data() == dstart.data(),
            d.cfg() == dstart.cfg(),
            d.context() == dstart.context(),
            dstart.position() <= d.position() <= d.data().len(),
            dstart.cfg().limit.is_some() ==> d.claimed() == dstart.claimed() + (d.position()
                - dstart.position()) - (i as int) * (elem as int),
            dstart.cfg().limit.is_none() ==> d.claimed() == dstart.claimed(),
            pairs_parse_extends::<Ctx, V>(
                c,
                tail,
                len as nat,
                raw,
                d.position() - dstart.position(),
                d.remaining(),
                (len - i) as nat,
            ),
        decreases len - i,
    {
        proof {
            assert((len as int) * (elem as int) >= (i as int) * (elem as int) + (elem as int))
                by (nonlinear_arith)
                requires
                    i < len,
                    elem >= 1,
            ;
            assert((i as int) * (elem as int) >= 0) by (nonlinear_arith)
                requires
                    i >= 0,
                    elem >= 1,
            ;
        }
        d.unclaim_bytes_read(elem);
        let ghost dmid = *d;
        proof {
            lemma_u64_outcome_parse(dmid);
            lemma_u64_parse_len(c, dmid.remaining());
            match pairs_parse::<Ctx, V>(c, tail, len as nat) {
                Some(p) => {
                    if dorig.budget_ok(dorig.u64_outcome_len() + p.1) {
                        match pairs_parse::<Ctx, V>(c, dmid.remaining(), (len - i) as nat) {
                            Some(qi) => {
                                match u64_parse(c, dmid.remaining()) {
                                    VarintParse::Value { x: k0, len: kw } => {
                                        let vtail = dmid.remaining().subrange(
                                            kw,
                                            dmid.remaining().len() as int,
                                        );
                                        V::lemma_parsed_len(c, vtail);
                                        match V::parsed(c, vtail) {
                                            Some(pv) => {
                                                lemma_pairs_parse_len::<Ctx, V>(
                                                    c,
                                                    dmid.remaining().subrange(
                                                        kw + pv.1,
                                                        dmid.remaining().len() as int,
                                                    ),
                                                    (len - i - 1) as nat,
                                                );
                                                assert((len as int - i - 1) * (elem as int) <= (
                                                len - i - 1) * (int_min_wire(c) + V::min_wire(c)))
                                                    by (nonlinear_arith)
                                                    requires
                                                        elem as int == int_min_wire(c)
                                                            + V::min_wire(c),
                                                        i < len,
                                                ;
                                                assert((len as int) * (elem as int) - (i as int)
                                                    * (elem as int) - (elem as int) == (len as int
                                                    - i - 1) * (elem as int))
                                                    by (nonlinear_arith);
                                                assert(dmid.budget_ok(kw + pv.1));
                                            },
                                            None => {
                                                assert(false);
                                            },
                                        }
                                    },
                                    _ => {
                                        assert(false);
                                    },
                                }
                            },
                            None => {
                                assert(pairs_parse::<Ctx, V>(c, tail, len as nat) is None);
                                assert(false);
                            },
                        }
                    }
                },
                None => {},
            }
        }
        let k = d.decode_u64()?;
        let ghost dkey = *d;
        proof {
            match u64_parse(c, dmid.remaining()) {
                VarintParse::Value { x: k0, len: kw } => {
                    lemma_remaining_advance(dmid, dkey, kw);
                },
                _ => {},
            }
        }
        let v = V::decode(d)?;
        proof {
            match u64_parse(c, dmid.remaining()) {
                VarintParse::Value { x: k0, len: kw } => {
                    let vtail = dmid.remaining().subrange(kw, dmid.remaining().len() as int);
                    match V::parsed(c, vtail) {
                        Some(pv) => {
                            lemma_remaining_advance(dmid, *d, kw + pv.1);
                            assert(raw.push((k, v.deep_view())) =~= raw + seq![(k0, pv.0)]);
                            match pairs_parse::<Ctx, V>(c, d.remaining(), (len - i - 1) as nat) {
                                Some(qr) => {
                                    assert(pairs_parse::<Ctx, V>(
                                        c,
                                        dmid.remaining(),
                                        (len - i) as nat,
                                    ) == Some((seq![(k0, pv.0)] + qr.0, kw + pv.1 + qr.1)));
                                    assert(raw + (seq![(k0, pv.0)] + qr.0) =~= (raw + seq![
                                        (k0, pv.0),
                                    ]) + qr.0);
                                },
                                None => {},
                            }
                        },
                        None => {},
                    }
                },
                _ => {},
            }
            lemma_run_insert_snoc(
                Seq::<(u64, <V as DeepView>::V)>::empty(),
                raw,
                (k, v.deep_view()),
            );
            lemma_insert_entry_deep(map.entries_seq(), k, v);
            raw = raw.push((k, v.deep_view()));
        }
        map.insert(k, v);
        i = i + 1;
        proof {
            assert((i as int) * (elem as int) == (i as int - 1) * (elem as int) + (elem as int))
                by (nonlinear_arith);
        }
    }
    proof {
        assert(pairs_parse::<Ctx, V>(c, d.remaining(), 0) == Some(
            (Seq::<(u64, <V as DeepView>::V)>::empty(), 0int),
        ));
        assert(raw + Seq::<(u64, <V as DeepView>::V)>::empty() =~= raw);
        assert((len as int) * (elem as int) >= 0) by (nonlinear_arith)
            requires
                len >= 0,
                elem >= 1,
        ;
    }
    Ok(map)
}

impl<Ctx, V: Decode<Ctx>> Decode<Ctx> for OrderedMap<V> {
    open spec fn parsed(c: Config, s: Seq<u8>) -> Option<(Seq<(u64, <V as DeepView>::V)>, int)> {
        map_parse::<Ctx, V>(c, s)
    }

    open spec fn min_wire(c: Config) -> int {
        int_min_wire(c)
    }

    fn min_wire_bytes(c: Config) -> usize {
        int_min_wire_exec(c)
    }

    proof fn lemma_parsed_len(c: Config, s: Seq<u8>) {
        lemma_u64_parse_len(c, s);
        match len_prefix_parse(c, s) {
            Some(nk) => {
                lemma_pairs_parse_len::<Ctx, V>(c, s.subrange(nk.1, s.len() as int), nk.0 as nat);
                V::lemma_parsed_len(c, s);
                assert((nk.0 as int) * (int_min_wire(c) + V::min_wire(c)) >= 0)
                    by (nonlinear_arith)
                    requires
                        nk.0 >= 0,
                        int_min_wire(c) + V::min_wire(c) >= 1,
                ;
            },
            None => {},
        }
    }

    fn decode<'a>(d: &mut DecoderImpl<'a, Ctx>) -> Result<Self, DecodeError> {
        decode_ordered_map(d)
    }
}

/// Reading `n` key/value pairs off the head of `s`: keys and the deep
/// views of values, in order, with their total byte count.
pub open spec fn borrow_pairs_parse<'de, Ctx, V: BorrowDecode<'de, Ctx>>(c: Config, s: Seq<u8>, n: nat) -> Option<
    (Seq<(u64, <V as DeepView>::V)>, int),
>
    decreases n,
{
    if n == 0 {
        Some((Seq::<(u64, <V as DeepView>::V)>::empty(), 0int))
    } else {
        match u64_parse(c, s) {
            VarintParse::Value { x: k0, len: kw } => {
                match V::parsed(c, s.subrange(kw, s.len() as int)) {
                    Some(pv) => {
                        match borrow_pairs_parse::<'de, Ctx, V>(
                            c,
                            s.subrange(kw + pv.1, s.len() as int),
                            (n - 1) as nat,
                        ) {
                            Some(q) => Some((seq![(k0, pv.0)] + q.0, kw + pv.1 + q.1)),
                            None => None,
                        }
                    },
                    None => None,
                }
            },
            _ => None,
        }
    }
}

/// A parsed pair run of `n` pairs occupies at least `n` pair floors and
/// at most the whole input.
pub proof fn lemma_borrow_pairs_parse_len<'de, Ctx, V: BorrowDecode<'de, Ctx>>(c: Config, s: Seq<u8>, n: nat)
    ensures
        borrow_pairs_parse::<'de, Ctx, V>(c, s, n) matches Some(q) ==> n * (int_min_wire(c) + V::min_wire(c))
            <= q.1 <= s.len() && q.0.len() == n,
    decreases n,
{
    lemma_u64_parse_len(c, s);
    if n > 0 {
        match u64_parse(c, s) {
            VarintParse::Value { x: k0, len: kw } => {
                V::lemma_parsed_len(c, s.subrange(kw, s.len() as int));
                match V::parsed(c, s.subrange(kw, s.len() as int)) {
                    Some(pv) => {
                        lemma_borrow_pairs_parse_len::<'de, Ctx, V>(
                            c,
                            s.subrange(kw + pv.1, s.len() as int),
                            (n - 1) as nat,
                        );
                        assert(n * (int_min_wire(c) + V::min_wire(c)) == (n - 1) * (int_min_wire(
                            c,
                        ) + V::min_wire(c)) + (int_min_wire(c) + V::min_wire(c)))
                            by (nonlinear_arith);
                    },
                    None => {},
                }
            },
            _ => {},
        }
    } else {
        assert(n * (int_min_wire(c) + V::min_wire(c)) == 0) by (nonlinear_arith)
            requires
                n == 0,
        ;
    }
}

/// Parsing `m` more pairs from `rest` extends what `raw` pairs, over
/// `used` bytes, already read from the head of `whole`.
pub open spec fn borrow_pairs_parse_extends<'de, Ctx, V: BorrowDecode<'de, Ctx>>(
    c: Config,
    whole: Seq<u8>,
    n: nat,
    raw: Seq<(u64, <V as DeepView>::V)>,
    used: int,
    rest: Seq<u8>,
    m: nat,
) -> bool {
    match borrow_pairs_parse::<'de, Ctx, V>(c, rest, m) {
        Some(q) => borrow_pairs_parse::<'de, Ctx, V>(c, whole, n) == Some((raw + q.0, used + q.1)),
        None => borrow_pairs_parse::<'de, Ctx, V>(c, whole, n) is None,
    }
}


/// What the head of `s` holds when read as a map: the parsed key/value
/// run re-inserted in order (a repeated key replaces its value at its
/// first position) and its byte count, prefix included.
pub open spec fn borrow_map_parse<'de, Ctx, V: BorrowDecode<'de, Ctx>>(c: Config, s: Seq<u8>) -> Option<
    (Seq<(u64, <V as DeepView>::V)>, int),
> {
    match len_prefix_parse(c, s) {
        Some(nk) => match borrow_pairs_parse::<'de, Ctx, V>(c, s.subrange(nk.1, s.len() as int), nk.0 as nat) {
            Some(q) => Some(
                (run_insert(Seq::<(u64, <V as DeepView>::V)>::empty(), q.0), nk.1 + q.1),
            ),
            None => None,
        },
        None => None,
    }
}

/// Reads a map: length, floor claim of `len` pair floors, then pairs —
/// key then value — one at a time, each handing its floor share back
/// just before its own reads claim its true cost. A length whose floor
/// passes the limit is rejected before the map is allocated, even when
/// the input ends right after the prefix. A successful decode holds
/// exactly the pairs the wire grammar names, inserted in wire order,
/// and is owed whenever the input parses and the budget covers its
/// bytes.
#[verifier::loop_isolation(false)]
#[verifier::rlimit(80)]
pub fn decode_ordered_map_borrowed<'de, Ctx, V: BorrowDecode<'de, Ctx>>(d: &mut DecoderImpl<'de, Ctx>) -> (r: Result<
    OrderedMap<V>,
    DecodeError,
>)
    requires
        old(d).wf(),
    ensures
        final(d).advanced_from(*old(d)),
        r.is_ok() && old(d).cfg().limit.is_some() ==> final(d).claimed() - old(d).claimed()
            == final(d).position() - old(d).position(),
        (match old(d).len_outcome() {
            Err(e) => r matches Err(e2) && e2 == e,
            Ok(n) => {
                &&& (!old(d).budget_ok(
                    old(d).u64_outcome_len() + n * (int_min_wire(old(d).cfg()) + V::min_wire(
                        old(d).cfg(),
                    )),
                ) ==> (r matches Err(e2) && e2 == DecodeError::LimitExceeded))
                &&& (r matches Ok(m) ==> m.wf() && m.entries_seq().len() <= n)
            },
        }),
        (r matches Ok(m) ==> (borrow_map_parse::<'de, Ctx, V>(old(d).cfg(), old(d).remaining()) matches Some(
            p,
        ) && m.deep_view() == p.0 && final(d).position() == old(d).position() + p.1)),
        (borrow_map_parse::<'de, Ctx, V>(old(d).cfg(), old(d).remaining()) matches Some(p) ==> (old(
            d,
        ).budget_ok(p.1) ==> r.is_ok())),
{
    let ghost dorig = *d;
    let ghost c = old(d).cfg();
    proof {
        lemma_u64_outcome_parse(dorig);
        match len_prefix_parse(c, dorig.remaining()) {
            Some(nk) => {
                lemma_borrow_pairs_parse_len::<'de, Ctx, V>(
                    c,
                    dorig.remaining().subrange(nk.1, dorig.remaining().len() as int),
                    nk.0 as nat,
                );
                V::lemma_parsed_len(c, dorig.remaining());
                assert((nk.0 as int) * (int_min_wire(c) + V::min_wire(c)) >= 0)
                    by (nonlinear_arith)
                    requires
                        nk.0 >= 0,
                        int_min_wire(c) + V::min_wire(c) >= 1,
                ;
            },
            None => {},
        }
    }
    let len = d.decode_slice_len()?;
    proof {
        assert(0 <= dorig.u64_outcome_len());
        lemma_remaining_advance(dorig, *d, dorig.u64_outcome_len());
        lemma_borrow_pairs_parse_len::<'de, Ctx, V>(c, d.remaining(), len as nat);
    }
    let vmin: usize = V::min_wire_bytes(d.config());
    let kmin: usize = int_min_wire_exec(d.config());
    let elem: usize = kmin + vmin;
    d.claim_container_read(len, elem)?;
    let ghost dstart = *d;
    let ghost tail = dstart.remaining();
    let mut map: OrderedMap<V> = OrderedMap::new();
    let mut i: usize = 0;
    let ghost mut raw: Seq<(u64, <V as DeepView>::V)> = Seq::<(u64, <V as DeepView>::V)>::empty();
    proof {
        assert(raw + Seq::<(u64, <V as DeepView>::V)>::empty() =~= raw);
        assert(map.deep_view() =~= run_insert(Seq::<(u64, <V as DeepView>::V)>::empty(), raw));
    }
    while i < len
        invariant
            i <= len,
            d.wf(),
            map.wf(),
            map.entries_seq().len() <= i as int,
            map.deep_view() == run_insert(Seq::<(u64, <V as DeepView>::V)>::empty(), raw),
            d.data() == dstart.data(),
            d.cfg() == dstart.cfg(),
            d.context() == dstart.context(),
            dstart.position() <= d.position() <= d.data().len(),
            dstart.cfg().limit.is_some() ==> d.claimed() == dstart.claimed() + (d.position()
                - dstart.position()) - (i as int) * (elem as int),
            dstart.cfg().limit.is_none() ==> d.claimed() == dstart.claimed(),
            borrow_pairs_parse_extends::<'de, Ctx, V>(
                c,
                tail,
                len as nat,
                raw,
                d.position() - dstart.position(),
                d.remaining(),
                (len - i) as nat,
            ),
        decreases len - i,
    {
        proof {
            assert((len as int) * (elem as int) >= (i as int) * (elem as int) + (elem as int))
                by (nonlinear_arith)
                requires
                    i < len,
                    elem >= 1,
            ;
            assert((i as int) * (elem as int) >= 0) by (nonlinear_arith)
                requires
                    i >= 0,
                    elem >= 1,
            ;
        }
        d.unclaim_bytes_read(elem);
        let ghost dmid = *d;
        proof {
            lemma_u64_outcome_parse(dmid);
            lemma_u64_parse_len(c, dmid.remaining());
            match borrow_pairs_parse::<'de, Ctx, V>(c, tail, len as nat) {
                Some(p) => {
                    if dorig.budget_ok(dorig.u64_outcome_len() + p.1) {
                        match borrow_pairs_parse::<'de, Ctx, V>(c, dmid.remaining(), (len - i) as nat) {
                            Some(qi) => {
                                match u64_parse(c, dmid.remaining()) {
                                    VarintParse::Value { x: k0, len: kw } => {
                                        let vtail = dmid.remaining().subrange(
                                            kw,
                                            dmid.remaining().len() as int,
                                        );
                                        V::lemma_parsed_len(c, vtail);
                                        match V::parsed(c, vtail) {
                                            Some(pv) => {
                                                lemma_borrow_pairs_parse_len::<'de, Ctx, V>(
                                                    c,
                                                    dmid.remaining().subrange(
                                                        kw + pv.1,
                                                        dmid.remaining().len() as int,
                                                    ),
                                                    (len - i - 1) as nat,
                                                );
                                                assert((len as int - i - 1) * (elem as int) <= (
                                                len - i - 1) * (int_min_wire(c) + V::min_wire(c)))
                                                    by (nonlinear_arith)
                                                    requires
                                                        elem as int == int_min_wire(c)
                                                            + V::min_wire(c),
                                                        i < len,
                                                ;
                                                assert((len as int) * (elem as int) - (i as int)
                                                    * (elem as int) - (elem as int) == (len as int
                                                    - i - 1) * (elem as int))
                                                    by (nonlinear_arith);
                                                assert(dmid.budget_ok(kw + pv.1));
                                            },
                                            None => {
                                                assert(false);
                                            },
                                        }
                                    },
                                    _ => {
                                        assert(false);
                                    },
                                }
                            },
                            None => {
                                assert(borrow_pairs_parse::<'de, Ctx, V>(c, tail, len as nat) is None);
                                assert(false);
                            },
                        }
                    }
                },
                None => {},
            }
        }
        let k = d.decode_u64()?;
        let ghost dkey = *d;
        proof {
            match u64_parse(c, dmid.remaining()) {
                VarintParse::Value { x: k0, len: kw } => {
                    lemma_remaining_advance(dmid, dkey, kw);
                },
                _ => {},
            }
        }
        let v = V::borrow_decode(d)?;
        proof {
            match u64_parse(c, dmid.remaining()) {
                VarintParse::Value { x: k0, len: kw } => {
                    let vtail = dmid.remaining().subrange(kw, dmid.remaining().len() as int);
                    match V::parsed(c, vtail) {
                        Some(pv) => {
                            lemma_remaining_advance(dmid, *d, kw + pv.1);
                            assert(raw.push((k, v.deep_view())) =~= raw + seq![(k0, pv.0)]);
                            match borrow_pairs_parse::<'de, Ctx, V>(c, d.remaining(), (len - i - 1) as nat) {
                                Some(qr) => {
                                    assert(borrow_pairs_parse::<'de, Ctx, V>(
                                        c,
                                        dmid.remaining(),
                                        (len - i) as nat,
                                    ) == Some((seq![(k0, pv.0)] + qr.0, kw + pv.1 + qr.1)));
                                    assert(raw + (seq![(k0, pv.0)] + qr.0) =~= (raw + seq![
                                        (k0, pv.0),
                                    ]) + qr.0);
                                },
                                None => {},
                            }
                        },
                        None => {},
                    }
                },
                _ => {},
            }
            lemma_run_insert_snoc(
                Seq::<(u64, <V as DeepView>::V)>::empty(),
                raw,
                (k, v.deep_view()),
            );
            lemma_insert_entry_deep(map.entries_seq(), k, v);
            raw = raw.push((k, v.deep_view()));
        }
        map.insert(k, v);
        i = i + 1;
        proof {
            assert((i as int) * (elem as int) == (i as int - 1) * (elem as int) + (elem as int))
                by (nonlinear_arith);
        }
    }
    proof {
        assert(borrow_pairs_parse::<'de, Ctx, V>(c, d.remaining(), 0) == Some(
            (Seq::<(u64, <V as DeepView>::V)>::empty(), 0int),
        ));
        assert(raw + Seq::<(u64, <V as DeepView>::V)>::empty() =~= raw);
        assert((len as int) * (elem as int) >= 0) by (nonlinear_arith)
            requires
                len >= 0,
                elem >= 1,
        ;
    }
    Ok(map)
}

impl<'de, Ctx, V: BorrowDecode<'de, Ctx>> BorrowDecode<'de, Ctx> for OrderedMap<V> {
    open spec fn parsed(c: Config, s: Seq<u8>) -> Option<(Seq<(u64, <V as DeepView>::V)>, int)> {
        borrow_map_parse::<'de, Ctx, V>(c, s)
    }

    open spec fn min_wire(c: Config) -> int {
        int_min_wire(c)
    }

    fn min_wire_bytes(c: Config) -> usize {
        int_min_wire_exec(c)
    }

    proof fn lemma_parsed_len(c: Config, s: Seq<u8>) {
        lemma_u64_parse_len(c, s);
        match len_prefix_parse(c, s) {
            Some(nk) => {
                lemma_borrow_pairs_parse_len::<'de, Ctx, V>(c, s.subrange(nk.1, s.len() as int), nk.0 as nat);
                V::lemma_parsed_len(c, s);
                assert((nk.0 as int) * (int_min_wire(c) + V::min_wire(c)) >= 0)
                    by (nonlinear_arith)
                    requires
                        nk.0 >= 0,
                        int_min_wire(c) + V::min_wire(c) >= 1,
                ;
            },
            None => {},
        }
    }

    fn borrow_decode(d: &mut DecoderImpl<'de, Ctx>) -> Result<Self, DecodeError> {
        decode_ordered_map_borrowed(d)
    }
}


} // verus!
