//! Separate-chaining hash map whose two tables let a resize be spread over
//! many operations.
//!
//! A table is a power-of-two number of buckets; an entry lives in the bucket
//! that its hash selects through the table's mask, and the newest entry of a
//! bucket is its head (index 0).  The map keeps a `current` table, which
//! takes every insertion, and an `older` table that is being drained into
//! the current one a little at each operation after the current table has
//! grown past its load factor.
use vstd::prelude::*;
use vstd::multiset::Multiset;
use vstd::string::StringSliceAdditionalSpecFns;

verus! {

broadcast use {vstd::seq_lib::group_to_multiset_ensures, vstd::multiset::group_multiset_axioms};

/// Number of entries per bucket at which the current table is replaced by
/// one twice as large.
pub const MAX_LOAD_FACTOR: usize = 8;

/// Number of entries moved from the older table by one operation.
pub const REHASHING_WORK_SIZE: usize = 128;

/// Number of buckets of a table made without a capacity.
pub const DEFAULT_HASH_SIZE: usize = 2;

/// Largest number of buckets of a table, and of entries of a map: a bucket
/// takes at least three words of memory and an entry more, so no address
/// space holds more than this many of either.
pub const MAX_ENTRIES: usize = usize::MAX / 64;

/// FNV offset basis that every hash starts from.
pub const FNV_OFFSET: usize = 0x811C9DC5;

/// FNV prime that each step multiplies by.
pub const FNV_PRIME: usize = 0x01000193;

/// The hash of a byte string: start from the offset basis and, for each
/// byte, add it and multiply by the prime, both modulo the word size.
pub open spec fn fnv_hash(data: Seq<u8>) -> usize
    decreases data.len(),
{
    if data.len() == 0 {
        FNV_OFFSET
    } else {
        fnv_hash(data.drop_last()).wrapping_add(data.last() as usize).wrapping_mul(FNV_PRIME)
    }
}

/// Law: the hash folds the bytes first to last: the empty string hashes to
/// the offset basis, and a byte appended to a string is added to the hash
/// of the string and the sum multiplied by the prime, each modulo the word
/// size.
pub proof fn law_fnv_hash_steps(s: Seq<u8>, b: u8)
    ensures
        fnv_hash(Seq::empty()) == FNV_OFFSET,
        fnv_hash(s.push(b)) as int == ((fnv_hash(s) + b) % (usize::MAX + 1)) * FNV_PRIME % (
        usize::MAX + 1),
{
    let t = s.push(b);
    assert(t.drop_last() =~= s);
    let x = fnv_hash(s);
    let m = usize::MAX + 1;
    let sum = x.wrapping_add(b as usize);
    assert(sum as int == (x + b) % m) by {
        let y: int = x + b;
        if y > usize::MAX {
            assert(y % m == y - m) by (nonlinear_arith)
                requires
                    m <= y < 2 * m,
            ;
        } else {
            assert(y % m == y) by (nonlinear_arith)
                requires
                    0 <= y < m,
            ;
        }
    }
    assert(fnv_hash(t) == sum.wrapping_mul(FNV_PRIME));
}

/// Hashes `data` with the FNV scheme of [`fnv_hash`].
pub fn str_hash(data: &[u8]) -> (h: usize)
    ensures
        h == fnv_hash(data@),
{
    let mut h: usize = FNV_OFFSET;
    let mut i: usize = 0;
    while i < data.len()
        invariant
            i <= data@.len(),
            h == fnv_hash(data@.take(i as int)),
        decreases data@.len() - i,
    {
        assert(data@.take(i as int + 1).drop_last() == data@.take(i as int));
        h = h.wrapping_add(data[i] as usize).wrapping_mul(FNV_PRIME);
        i = i + 1;
    }
    assert(data@.take(data@.len() as int) == data@);
    h
}

/// The link of an entry into a table: the hash that places it.
#[derive(Clone, Copy, Debug)]
pub struct HNode {
    pub hcode: usize,
}

/// A key-value pair as the map stores it, with the hash of its key.
#[derive(Clone, Debug)]
pub struct Entry {
    pub key: String,
    pub val: String,
    pub node: HNode,
}

/// What a search compares the stored entries with: the hash, key and value
/// of the entry it was given.
pub struct Probe {
    pub hcode: usize,
    pub key: Seq<char>,
    pub val: Seq<char>,
}

/// The probe of an entry.
pub open spec fn probe_of(e: Entry) -> Probe {
    Probe { hcode: e.node.hcode, key: e.key@, val: e.val@ }
}

/// Which comparison a lookup uses to recognise the entry it looks for.
#[derive(Clone, Copy, Debug, PartialEq, Eq, Structural)]
pub enum LookUpFunction {
    /// Entries with equal keys match.
    EntryEq,
    /// Entries with equal keys and equal values match.
    EntryEqKv,
}

impl LookUpFunction {
    /// Whether the comparison accepts `lhs` against `rhs`.
    pub open spec fn accepts(self, lhs: Entry, rhs: Probe) -> bool {
        match self {
            LookUpFunction::EntryEq => lhs.key@ == rhs.key,
            LookUpFunction::EntryEqKv => lhs.key@ == rhs.key && lhs.val@ == rhs.val,
        }
    }

    /// Runs the comparison.
    pub fn call(&self, lhs: &Entry, rhs: &Entry) -> (r: bool)
        ensures
            r == self.accepts(*lhs, probe_of(*rhs)),
    {
        match self {
            LookUpFunction::EntryEq => entry_eq(lhs, rhs),
            LookUpFunction::EntryEqKv => entry_eq_kv(lhs, rhs),
        }
    }
}

/// Whether the two entries have equal keys.
pub fn entry_eq(lhs: &Entry, rhs: &Entry) -> (r: bool)
    ensures
        r == (lhs.key@ == rhs.key@),
{
    lhs.key == rhs.key
}

/// Whether the two entries have equal keys and equal values.
pub fn entry_eq_kv(lhs: &Entry, rhs: &Entry) -> (r: bool)
    ensures
        r == (lhs.key@ == rhs.key@ && lhs.val@ == rhs.val@),
{
    lhs.key == rhs.key && lhs.val == rhs.val
}

/// A stored entry `e` is the one that a search for `key` with `f` stops at:
/// the hashes agree and the comparison accepts it.
pub open spec fn is_hit(f: LookUpFunction, e: Entry, key: Probe) -> bool {
    e.node.hcode == key.hcode && f.accepts(e, key)
}

/// `i` is the position of the first hit of `chain`.
pub open spec fn is_first_hit(chain: Seq<Entry>, key: Probe, f: LookUpFunction, i: int) -> bool {
    &&& 0 <= i < chain.len()
    &&& is_hit(f, chain[i], key)
    &&& forall|j: int| 0 <= j < i ==> !is_hit(f, #[trigger] chain[j], key)
}

/// The position of the first hit of `chain`, if there is one.
pub open spec fn first_hit(chain: Seq<Entry>, key: Probe, f: LookUpFunction) -> Option<int> {
    if exists|i: int| is_first_hit(chain, key, f, i) {
        Some(choose|i: int| is_first_hit(chain, key, f, i))
    } else {
        None
    }
}

/// The first hit of a chain is where its search stops.
pub proof fn lemma_first_hit_at(chain: Seq<Entry>, key: Probe, f: LookUpFunction, i: int)
    requires
        is_first_hit(chain, key, f, i),
    ensures
        first_hit(chain, key, f) == Some(i),
{
    let k = choose|k: int| is_first_hit(chain, key, f, k);
    assert(is_first_hit(chain, key, f, k));
    if k < i {
        assert(!is_hit(f, chain[k], key));
    } else if i < k {
        assert(!is_hit(f, chain[i], key));
    }
}

/// A chain with some hit has a first one.
pub proof fn lemma_first_hit_exists(chain: Seq<Entry>, key: Probe, f: LookUpFunction, i: int)
    requires
        0 <= i < chain.len(),
        is_hit(f, chain[i], key),
    ensures
        first_hit(chain, key, f) is Some,
        is_first_hit(chain, key, f, first_hit(chain, key, f)->0),
    decreases i,
{
    if exists|j: int| 0 <= j < i && is_hit(f, #[trigger] chain[j], key) {
        let j = choose|j: int| 0 <= j < i && is_hit(f, #[trigger] chain[j], key);
        lemma_first_hit_exists(chain, key, f, j);
    } else {
        assert(is_first_hit(chain, key, f, i));
        lemma_first_hit_at(chain, key, f, i);
    }
}

/// Where an entry stands in a table: its bucket and its place in the chain.
#[derive(Clone, Copy, Debug, PartialEq, Eq, Structural)]
pub struct Slot {
    pub bucket: usize,
    pub index: usize,
}

/// Number of entries of a table.
pub open spec fn total(t: Seq<Seq<Entry>>) -> nat
    decreases t.len(),
{
    if t.len() == 0 {
        0
    } else {
        total(t.drop_last()) + t.last().len()
    }
}

/// The entries of a table, counted with multiplicity.
pub open spec fn table_contents(t: Seq<Seq<Entry>>) -> Multiset<Entry>
    decreases t.len(),
{
    if t.len() == 0 {
        Multiset::empty()
    } else {
        table_contents(t.drop_last()).add(t.last().to_multiset())
    }
}

/// The bucket that hash `h` selects in a table of `cap` buckets.
pub open spec fn bucket_of(h: usize, cap: nat) -> int {
    (h & ((cap - 1) as usize)) as int
}

/// `n` is a power of two.
pub open spec fn is_pow2(n: nat) -> bool
    decreases n,
{
    if n <= 1 {
        n == 1
    } else {
        n % 2 == 0 && is_pow2(n / 2)
    }
}

/// Every entry of the table stands in the bucket its hash selects.
pub open spec fn placed(t: Seq<Seq<Entry>>) -> bool {
    forall|i: int, j: int|
        0 <= i < t.len() && 0 <= j < t[i].len() ==> bucket_of(#[trigger] t[i][j].node.hcode, t.len())
            == i
}

/// The shape every table keeps: a power of two of buckets, within bounds,
/// each entry in its bucket.
pub open spec fn table_ok(t: Seq<Seq<Entry>>) -> bool {
    &&& 0 < t.len() <= MAX_ENTRIES
    &&& is_pow2(t.len())
    &&& placed(t)
    &&& total(t) <= usize::MAX
}

/// A table of `n` empty buckets.
pub open spec fn empty_table(n: nat) -> Seq<Seq<Entry>> {
    Seq::new(n, |i: int| Seq::<Entry>::empty())
}

/// `t` with `e` made the head of its bucket.
pub open spec fn table_insert(t: Seq<Seq<Entry>>, e: Entry) -> Seq<Seq<Entry>> {
    let b = bucket_of(e.node.hcode, t.len());
    t.update(b, seq![e] + t[b])
}

/// `t` without the entry at `s`.
pub open spec fn table_detach(t: Seq<Seq<Entry>>, s: Slot) -> Seq<Seq<Entry>> {
    t.update(s.bucket as int, t[s.bucket as int].remove(s.index as int))
}

/// `s` names an entry of `t`.
pub open spec fn valid_slot(t: Seq<Seq<Entry>>, s: Slot) -> bool {
    s.bucket < t.len() && s.index < t[s.bucket as int].len()
}

/// Where a search of `t` for `key` with `f` stops: the first hit in the
/// bucket that the key's hash selects.
pub open spec fn table_lookup(t: Seq<Seq<Entry>>, key: Probe, f: LookUpFunction) -> Option<Slot> {
    let b = bucket_of(key.hcode, t.len());
    match first_hit(t[b], key, f) {
        Some(i) => Some(Slot { bucket: b as usize, index: i as usize }),
        None => None,
    }
}

/// A search stops at an entry of the table that is a hit, and the first
/// one of its bucket.
pub proof fn lemma_table_lookup_some(t: Seq<Seq<Entry>>, key: Probe, f: LookUpFunction)
    requires
        table_ok(t),
        table_lookup(t, key, f) is Some,
    ensures
        valid_slot(t, table_lookup(t, key, f)->0),
        table_lookup(t, key, f)->0.bucket == bucket_of(key.hcode, t.len()),
        is_first_hit(
            t[bucket_of(key.hcode, t.len())],
            key,
            f,
            table_lookup(t, key, f)->0.index as int,
        ),
{
    let b = bucket_of(key.hcode, t.len());
    lemma_bucket_of_bounds(key.hcode, t.len());
    let i = choose|i: int| is_first_hit(t[b], key, f, i);
    assert(is_first_hit(t[b], key, f, i));
    lemma_bucket_le_total(t, b);
}

proof fn lemma_and_le(h: usize, m: usize)
    ensures
        h & m <= m,
{
    assert(h & m <= m) by (bit_vector);
}

/// The bucket a hash selects lies in the table.
pub proof fn lemma_bucket_of_bounds(h: usize, cap: nat)
    requires
        0 < cap <= usize::MAX,
    ensures
        0 <= bucket_of(h, cap) < cap,
{
    lemma_and_le(h, (cap - 1) as usize);
}

/// Replacing one bucket changes the count by the difference of lengths.
pub proof fn lemma_total_update(t: Seq<Seq<Entry>>, i: int, b: Seq<Entry>)
    requires
        0 <= i < t.len(),
    ensures
        total(t.update(i, b)) + t[i].len() == total(t) + b.len(),
    decreases t.len(),
{
    let u = t.update(i, b);
    if i == t.len() - 1 {
        assert(u.drop_last() == t.drop_last());
    } else {
        lemma_total_update(t.drop_last(), i, b);
        assert(u.drop_last() == t.drop_last().update(i, b));
    }
}

/// Replacing one bucket changes the contents by the difference of chains.
pub proof fn lemma_contents_update(t: Seq<Seq<Entry>>, i: int, b: Seq<Entry>)
    requires
        0 <= i < t.len(),
    ensures
        table_contents(t.update(i, b)).add(t[i].to_multiset()) == table_contents(t).add(
            b.to_multiset(),
        ),
    decreases t.len(),
{
    let u = t.update(i, b);
    if i == t.len() - 1 {
        assert(u.drop_last() == t.drop_last());
        assert(table_contents(u).add(t[i].to_multiset()) =~= table_contents(t).add(b.to_multiset()));
    } else {
        let t0 = t.drop_last();
        lemma_contents_update(t0, i, b);
        assert(u.drop_last() == t0.update(i, b));
        assert(u.last() == t.last());
        assert(table_contents(u) == table_contents(t0.update(i, b)).add(t.last().to_multiset()));
        assert(table_contents(t) == table_contents(t0).add(t.last().to_multiset()));
        assert(t0[i] == t[i]);
        assert forall|x: Entry|
            #[trigger] table_contents(u).add(t[i].to_multiset()).count(x) == table_contents(t).add(
                b.to_multiset(),
            ).count(x) by {
            assert(table_contents(t0.update(i, b)).add(t[i].to_multiset()).count(x)
                == table_contents(t0).add(b.to_multiset()).count(x));
        }
        assert(table_contents(u).add(t[i].to_multiset()) =~= table_contents(t).add(b.to_multiset()));
    }
}

/// A bucket holds no more entries than its table.
pub proof fn lemma_bucket_le_total(t: Seq<Seq<Entry>>, i: int)
    requires
        0 <= i < t.len(),
    ensures
        t[i].len() <= total(t),
    decreases t.len(),
{
    if i < t.len() - 1 {
        lemma_bucket_le_total(t.drop_last(), i);
    }
}

/// The number of entries of a table is the size of its contents.
pub proof fn lemma_total_is_len(t: Seq<Seq<Entry>>)
    ensures
        total(t) == table_contents(t).len(),
    decreases t.len(),
{
    if t.len() > 0 {
        lemma_total_is_len(t.drop_last());
    }
}

/// A table of empty buckets holds nothing.
pub proof fn lemma_empty_table(n: nat)
    ensures
        total(empty_table(n)) == 0,
        table_contents(empty_table(n)) == Multiset::<Entry>::empty(),
        placed(empty_table(n)),
    decreases n,
{
    if n > 0 {
        lemma_empty_table((n - 1) as nat);
        assert(empty_table(n).drop_last() == empty_table((n - 1) as nat));
        assert(table_contents(empty_table(n)) =~= Multiset::<Entry>::empty());
    }
}

/// Making `e` a bucket head adds it to the contents and keeps the shape.
pub proof fn lemma_table_insert(t: Seq<Seq<Entry>>, e: Entry)
    requires
        table_ok(t),
        total(t) < usize::MAX,
    ensures
        table_ok(table_insert(t, e)),
        total(table_insert(t, e)) == total(t) + 1,
        table_contents(table_insert(t, e)) == table_contents(t).insert(e),
        table_insert(t, e).len() == t.len(),
{
    let b = bucket_of(e.node.hcode, t.len());
    lemma_bucket_of_bounds(e.node.hcode, t.len());
    let c = seq![e] + t[b];
    lemma_total_update(t, b, c);
    lemma_contents_update(t, b, c);
    assert(c =~= t[b].insert(0, e));
    assert(c.to_multiset() == t[b].to_multiset().insert(e)) by {
        assert(t[b].insert(0, e).to_multiset() == t[b].to_multiset().insert(e));
    }
    let u = table_insert(t, e);
    assert forall|x: Entry| #[trigger] table_contents(u).count(x) == table_contents(t).insert(e).count(
        x,
    ) by {
        assert(table_contents(u).add(t[b].to_multiset()).count(x) == table_contents(t).add(
            c.to_multiset(),
        ).count(x));
    }
    assert(table_contents(u) =~= table_contents(t).insert(e));
    assert forall|i: int, j: int| 0 <= i < u.len() && 0 <= j < u[i].len() implies bucket_of(
        #[trigger] u[i][j].node.hcode,
        u.len(),
    ) == i by {
        if i == b && j > 0 {
            assert(u[i][j] == t[i][j - 1]);
        }
    }
}

/// Taking the entry at `s` out removes it from the contents and keeps the
/// shape.
pub proof fn lemma_table_detach(t: Seq<Seq<Entry>>, s: Slot)
    requires
        table_ok(t),
        valid_slot(t, s),
    ensures
        table_ok(table_detach(t, s)),
        total(table_detach(t, s)) + 1 == total(t),
        table_contents(table_detach(t, s)) == table_contents(t).remove(
            t[s.bucket as int][s.index as int],
        ),
        table_detach(t, s).len() == t.len(),
{
    let b = s.bucket as int;
    let c = t[b].remove(s.index as int);
    lemma_total_update(t, b, c);
    lemma_contents_update(t, b, c);
    let u = table_detach(t, s);
    let y = t[b][s.index as int];
    assert(t[b].to_multiset().count(y) > 0) by {
        assert(t[b].contains(y));
    }
    assert(table_contents(t).count(y) > 0) by {
        assert(table_contents(u).add(t[b].to_multiset()).count(y) == table_contents(t).add(
            c.to_multiset(),
        ).count(y));
    }
    assert forall|x: Entry| #[trigger] table_contents(u).count(x) == table_contents(t).remove(
        y,
    ).count(x) by {
        assert(table_contents(u).add(t[b].to_multiset()).count(x) == table_contents(t).add(
            c.to_multiset(),
        ).count(x));
    }
    assert(table_contents(u) =~= table_contents(t).remove(y));
    assert forall|i: int, j: int| 0 <= i < u.len() && 0 <= j < u[i].len() implies bucket_of(
        #[trigger] u[i][j].node.hcode,
        u.len(),
    ) == i by {
        if i == b && j >= s.index {
            assert(u[i][j] == t[i][j + 1]);
        }
    }
}

/// One table of the map: a power-of-two array of chains.
#[derive(Debug)]
pub struct HTable {
    buckets: Vec<Vec<Entry>>,
    mask: usize,
    size: usize,
}

/// A table is seen as its chains: its mask and its size are fixed by them
/// in a well-formed table (see [`HTable::mask`] and [`HTable::size`]).
impl View for HTable {
    type V = Seq<Seq<Entry>>;

    closed spec fn view(&self) -> Seq<Seq<Entry>> {
        self.buckets@.map_values(|b: Vec<Entry>| b@)
    }
}

impl HTable {
    /// The fields agree with the chains they describe.
    pub closed spec fn wf(&self) -> bool {
        &&& self.buckets@.len() == self.mask + 1
        &&& table_ok(self@)
        &&& self.size == total(self@)
    }

    /// A well-formed table has a power-of-two number of chains, and each
    /// entry stands in the chain that its hash selects.
    pub proof fn lemma_wf(&self)
        requires
            self.wf(),
        ensures
            table_ok(self@),
    {
    }

    /// A table of [`DEFAULT_HASH_SIZE`] empty buckets.
    pub fn new() -> (t: Self)
        ensures
            t.wf(),
            t@ == empty_table(DEFAULT_HASH_SIZE as nat),
    {
        assert(is_pow2(2)) by {
            reveal_with_fuel(is_pow2, 2);
        }
        Self::with_capacity(DEFAULT_HASH_SIZE)
    }

    /// A table of `size` empty buckets; `size` is a power of two.
    pub fn with_capacity(size: usize) -> (t: Self)
        requires
            is_pow2(size as nat),
            size <= MAX_ENTRIES,
        ensures
            t.wf(),
            t@ == empty_table(size as nat),
    {
        let mut buckets: Vec<Vec<Entry>> = Vec::new();
        let mut i: usize = 0;
        while i < size
            invariant
                i <= size,
                buckets@.len() == i,
                forall|j: int| 0 <= j < i ==> (#[trigger] buckets@[j])@.len() == 0,
            decreases size - i,
        {
            buckets.push(Vec::new());
            i = i + 1;
        }
        let t = HTable { buckets, mask: size - 1, size: 0 };
        assert forall|j: int| 0 <= j < size implies t@[j] == Seq::<Entry>::empty() by {
            assert(t@[j] =~= Seq::<Entry>::empty());
        }
        assert(t@ =~= empty_table(size as nat));
        proof {
            lemma_empty_table(size as nat);
        }
        t
    }

    /// Number of entries.
    pub fn size(&self) -> (n: usize)
        requires
            self.wf(),
        ensures
            n == total(self@),
    {
        self.size
    }

    /// The mask that selects a bucket: one less than the number of buckets.
    pub fn mask(&self) -> (m: usize)
        requires
            self.wf(),
        ensures
            m == self@.len() - 1,
    {
        self.mask
    }

    /// Makes `node` the head of the bucket its hash selects.
    pub fn insert(&mut self, node: Entry)
        requires
            old(self).wf(),
            total(old(self)@) < usize::MAX,
        ensures
            final(self).wf(),
            final(self)@ == table_insert(old(self)@, node),
    {
        let pos = node.node.hcode & self.mask;
        proof {
            lemma_and_le(node.node.hcode, self.mask);
            lemma_table_insert(self@, node);
        }
        let ghost e = node;
        self.buckets[pos].insert(0, node);
        self.size = self.size + 1;
        assert(self.buckets@[pos as int]@ =~= seq![e] + old(self)@[pos as int]);
        assert(self@ =~= table_insert(old(self)@, e));
    }

    /// The place of the first entry, in the bucket that `key`'s hash
    /// selects, whose hash equals `key`'s and that `f` accepts.
    pub fn lookup(&self, key: &Entry, f: LookUpFunction) -> (r: Option<Slot>)
        requires
            self.wf(),
        ensures
            r == table_lookup(self@, probe_of(*key), f),
    {
        let pos = key.node.hcode & self.mask;
        proof {
            lemma_and_le(key.node.hcode, self.mask);
            assert(self@.len() == self.mask + 1);
        }
        if self.size == 0 {
            proof {
                lemma_bucket_le_total(self@, pos as int);
            }
            return None;
        }
        let chain = &self.buckets[pos];
        let mut i: usize = 0;
        while i < chain.len()
            invariant
                i <= chain@.len(),
                self@.len() == self.mask + 1,
                pos == key.node.hcode & self.mask,
                chain@ == self@[pos as int],
                forall|j: int| 0 <= j < i ==> !is_hit(f, #[trigger] chain@[j], probe_of(*key)),
            decreases chain@.len() - i,
        {
            let cur = &chain[i];
            if cur.node.hcode == key.node.hcode && f.call(cur, key) {
                proof {
                    lemma_first_hit_at(chain@, probe_of(*key), f, i as int);
                    assert(bucket_of(key.node.hcode, self@.len()) == pos as int);
                }
                return Some(Slot { bucket: pos, index: i });
            }
            i = i + 1;
        }
        None
    }

    /// Takes the entry at `from` out of its chain and returns it.
    pub fn detach(&mut self, from: Slot) -> (e: Entry)
        requires
            old(self).wf(),
            valid_slot(old(self)@, from),
        ensures
            final(self).wf(),
            final(self)@ == table_detach(old(self)@, from),
            e == old(self)@[from.bucket as int][from.index as int],
    {
        proof {
            lemma_table_detach(self@, from);
        }
        let e = self.buckets[from.bucket].remove(from.index);
        self.size = self.size - 1;
        assert(self.buckets@[from.bucket as int]@ =~= old(self)@[from.bucket as int].remove(
            from.index as int,
        ));
        assert(self@ =~= table_detach(old(self)@, from));
        e
    }
}


impl HTable {
    /// The entry at `s`.
    pub fn get(&self, s: Slot) -> (e: &Entry)
        requires
            self.wf(),
            valid_slot(self@, s),
        ensures
            *e == self@[s.bucket as int][s.index as int],
    {
        &self.buckets[s.bucket][s.index]
    }

    /// Gives the entry at `s` the value `val`, in place.
    pub fn set_val(&mut self, s: Slot, val: String)
        requires
            old(self).wf(),
            valid_slot(old(self)@, s),
        ensures
            final(self).wf(),
            final(self)@ == table_set_val(old(self)@, s, val),
    {
        let ghost v = val;
        proof {
            lemma_table_set_val(self@, s, val);
        }
        self.buckets[s.bucket][s.index].val = val;
        assert(self.buckets@[s.bucket as int]@ =~= table_set_val(old(self)@, s, v)[s.bucket as int]);
        assert(self@ =~= table_set_val(old(self)@, s, v));
    }
}

/// `e` with the value `val`.
pub open spec fn with_val(e: Entry, val: String) -> Entry {
    Entry { key: e.key, val: val, node: e.node }
}

/// `t` with the entry at `s` given the value `val`.
pub open spec fn table_set_val(t: Seq<Seq<Entry>>, s: Slot, val: String) -> Seq<Seq<Entry>> {
    let b = s.bucket as int;
    let i = s.index as int;
    t.update(b, t[b].update(i, with_val(t[b][i], val)))
}

/// Changing a value keeps the shape and swaps the one entry in the
/// contents.
pub proof fn lemma_table_set_val(t: Seq<Seq<Entry>>, s: Slot, val: String)
    requires
        table_ok(t),
        valid_slot(t, s),
    ensures
        table_ok(table_set_val(t, s, val)),
        total(table_set_val(t, s, val)) == total(t),
        table_contents(table_set_val(t, s, val)) == table_contents(t).remove(
            t[s.bucket as int][s.index as int],
        ).insert(with_val(t[s.bucket as int][s.index as int], val)),
        table_set_val(t, s, val).len() == t.len(),
{
    let b = s.bucket as int;
    let i = s.index as int;
    let y = t[b][i];
    let e = with_val(y, val);
    let c = t[b].update(i, e);
    lemma_total_update(t, b, c);
    lemma_contents_update(t, b, c);
    let u = table_set_val(t, s, val);
    assert(t[b].to_multiset().count(y) > 0) by {
        assert(t[b].contains(y));
    }
    lemma_entry_in_contents(t, s);
    assert forall|x: Entry| #[trigger] table_contents(u).count(x) == table_contents(t).remove(
        y,
    ).insert(e).count(x) by {
        assert(table_contents(u).add(t[b].to_multiset()).count(x) == table_contents(t).add(
            c.to_multiset(),
        ).count(x));
    }
    assert(table_contents(u) =~= table_contents(t).remove(y).insert(e));
    assert forall|i2: int, j: int| 0 <= i2 < u.len() && 0 <= j < u[i2].len() implies bucket_of(
        #[trigger] u[i2][j].node.hcode,
        u.len(),
    ) == i2 by {
        if i2 == b && j == i {
            assert(u[i2][j].node == t[i2][j].node);
        }
    }
}

/// What a map holds: the table that takes insertions, the table being
/// drained into it, and the first bucket of the latter not yet known to be
/// empty.
pub struct HMapModel {
    pub current: Seq<Seq<Entry>>,
    pub older: Seq<Seq<Entry>>,
    pub migrate_pos: int,
}

/// Where an entry of a map stands: which table, and where in it.
#[derive(Clone, Copy, Debug, PartialEq, Eq, Structural)]
pub struct MapSlot {
    pub in_older: bool,
    pub slot: Slot,
}

/// Number of entries at which the table `t` is replaced by a larger one.
pub open spec fn threshold(t: Seq<Seq<Entry>>) -> int {
    (t.len() - 1) * MAX_LOAD_FACTOR
}

/// Number of operations still needed to drain `n` entries.
pub open spec fn work_left(n: int) -> int {
    (n + REHASHING_WORK_SIZE - 1) / REHASHING_WORK_SIZE as int
}

/// The entries of a map, counted with multiplicity.
pub open spec fn map_contents(m: HMapModel) -> Multiset<Entry> {
    table_contents(m.current).add(table_contents(m.older))
}

/// Number of entries of a map.
pub open spec fn map_len(m: HMapModel) -> int {
    (total(m.current) + total(m.older)) as int
}

/// The older table is drained before the current one reaches its
/// threshold: while entries remain in the older table, the current one,
/// even after taking every entry still to move and one new entry for each
/// operation that moving them takes, stays under its threshold.
pub open spec fn load_ok(m: HMapModel) -> bool {
    let c = total(m.current) as int;
    let o = total(m.older) as int;
    if o == 0 {
        c <= threshold(m.current)
    } else {
        c + o + work_left(o) < threshold(m.current)
    }
}

/// The buckets of the older table before `migrate_pos` are empty.
pub open spec fn drained_below(m: HMapModel) -> bool {
    forall|i: int| 0 <= i < m.migrate_pos && i < m.older.len() ==> (#[trigger] m.older[i]).len() == 0
}

/// The shape every map keeps.
pub open spec fn model_wf(m: HMapModel) -> bool {
    &&& table_ok(m.current)
    &&& table_ok(m.older)
    &&& 0 <= m.migrate_pos <= usize::MAX
    &&& drained_below(m)
    &&& map_len(m) <= MAX_ENTRIES
    &&& load_ok(m)
}

/// The state after at most `REHASHING_WORK_SIZE - nwork` more entries
/// have moved, each the head of the first non-empty bucket of the older
/// table, into the current table; an older table left empty is replaced by
/// a fresh small one.
pub open spec fn rehash_from(m: HMapModel, nwork: int) -> HMapModel
    decreases REHASHING_WORK_SIZE - nwork, m.older.len() - m.migrate_pos,
{
    if nwork < REHASHING_WORK_SIZE && total(m.older) > 0 && 0 <= m.migrate_pos < m.older.len() {
        if m.older[m.migrate_pos].len() == 0 {
            rehash_from(
                HMapModel { current: m.current, older: m.older, migrate_pos: m.migrate_pos + 1 },
                nwork,
            )
        } else {
            let from = Slot { bucket: m.migrate_pos as usize, index: 0 };
            rehash_from(
                HMapModel {
                    current: table_insert(m.current, m.older[m.migrate_pos][0]),
                    older: table_detach(m.older, from),
                    migrate_pos: m.migrate_pos,
                },
                nwork + 1,
            )
        }
    } else if total(m.older) == 0 {
        HMapModel {
            current: m.current,
            older: empty_table(DEFAULT_HASH_SIZE as nat),
            migrate_pos: m.migrate_pos,
        }
    } else {
        m
    }
}

/// One step of the migration that every operation starts with.
pub open spec fn help_rehashing(m: HMapModel) -> HMapModel {
    rehash_from(m, 0)
}

/// Where a search of the map stops: the current table first, then the
/// older one.
pub open spec fn map_lookup(m: HMapModel, key: Probe, f: LookUpFunction) -> Option<MapSlot> {
    match table_lookup(m.current, key, f) {
        Some(s) => Some(MapSlot { in_older: false, slot: s }),
        None => match table_lookup(m.older, key, f) {
            Some(s) => Some(MapSlot { in_older: true, slot: s }),
            None => None,
        },
    }
}

/// `s` names an entry of `m`.
pub open spec fn map_valid_slot(m: HMapModel, s: MapSlot) -> bool {
    if s.in_older {
        valid_slot(m.older, s.slot)
    } else {
        valid_slot(m.current, s.slot)
    }
}

/// The entry of `m` at `s`.
pub open spec fn map_entry(m: HMapModel, s: MapSlot) -> Entry {
    if s.in_older {
        m.older[s.slot.bucket as int][s.slot.index as int]
    } else {
        m.current[s.slot.bucket as int][s.slot.index as int]
    }
}

/// `m` without the entry at `s`.
pub open spec fn map_detach(m: HMapModel, s: MapSlot) -> HMapModel {
    if s.in_older {
        HMapModel { current: m.current, older: table_detach(m.older, s.slot), migrate_pos: m.migrate_pos }
    } else {
        HMapModel { current: table_detach(m.current, s.slot), older: m.older, migrate_pos: m.migrate_pos }
    }
}

/// `m` with the entry at `s` given the value `val`.
pub open spec fn map_set_val(m: HMapModel, s: MapSlot, val: String) -> HMapModel {
    if s.in_older {
        HMapModel { current: m.current, older: table_set_val(m.older, s.slot, val), migrate_pos: m.migrate_pos }
    } else {
        HMapModel { current: table_set_val(m.current, s.slot, val), older: m.older, migrate_pos: m.migrate_pos }
    }
}

/// `m` with `e` at the head of its bucket of the current table and, if the
/// current table has reached its threshold, that table become the older one
/// behind a new current table of twice as many buckets.
pub open spec fn grow(m: HMapModel, e: Entry) -> HMapModel {
    let c = table_insert(m.current, e);
    if total(c) >= threshold(c) {
        HMapModel { current: empty_table(2 * c.len()), older: c, migrate_pos: 0 }
    } else {
        HMapModel { current: c, older: m.older, migrate_pos: m.migrate_pos }
    }
}

/// The map after inserting `e`.
pub open spec fn map_insert(m: HMapModel, e: Entry) -> HMapModel {
    help_rehashing(grow(m, e))
}

/// The map after deleting the entry that a search for `key` with `f`
/// stops at, and that entry.
pub open spec fn map_delete(m: HMapModel, key: Probe, f: LookUpFunction) -> (HMapModel, Option<Entry>) {
    let h = help_rehashing(m);
    match map_lookup(h, key, f) {
        Some(s) => (map_detach(h, s), Some(map_entry(h, s))),
        None => (h, None),
    }
}

/// All buckets of a table before `n` being empty, with `n` past its end,
/// means it is empty.
proof fn lemma_drained_total(t: Seq<Seq<Entry>>)
    requires
        forall|i: int| 0 <= i < t.len() ==> (#[trigger] t[i]).len() == 0,
    ensures
        total(t) == 0,
    decreases t.len(),
{
    if t.len() > 0 {
        lemma_drained_total(t.drop_last());
    }
}

/// What the migration keeps: the entries, the shape, and the load bound,
/// which it makes strict.  `nwork` entries have moved already; the bound
/// counted them still in the older table.
proof fn lemma_rehash_from(m: HMapModel, nwork: int)
    requires
        table_ok(m.current),
        table_ok(m.older),
        0 <= m.migrate_pos <= usize::MAX,
        drained_below(m),
        map_len(m) <= MAX_ENTRIES,
        0 <= nwork <= REHASHING_WORK_SIZE,
        total(m.older) == 0 ==> total(m.current) <= threshold(m.current),
        total(m.older) > 0 ==> total(m.current) + total(m.older) + work_left(total(m.older) + nwork)
            <= threshold(m.current),
    ensures
        model_wf(rehash_from(m, nwork)),
        map_contents(rehash_from(m, nwork)) == map_contents(m),
        map_len(rehash_from(m, nwork)) == map_len(m),
        rehash_from(m, nwork).current.len() == m.current.len(),
    decreases REHASHING_WORK_SIZE - nwork, m.older.len() - m.migrate_pos,
{
    let r = rehash_from(m, nwork);
    if nwork < REHASHING_WORK_SIZE && total(m.older) > 0 && 0 <= m.migrate_pos < m.older.len() {
        if m.older[m.migrate_pos].len() == 0 {
            let m2 = HMapModel { current: m.current, older: m.older, migrate_pos: m.migrate_pos + 1 };
            lemma_rehash_from(m2, nwork);
        } else {
            let from = Slot { bucket: m.migrate_pos as usize, index: 0 };
            let e = m.older[m.migrate_pos][0];
            lemma_table_insert(m.current, e);
            lemma_table_detach(m.older, from);
            let m2 = HMapModel {
                current: table_insert(m.current, e),
                older: table_detach(m.older, from),
                migrate_pos: m.migrate_pos,
            };
            lemma_entry_in_contents(m.older, from);
            assert(map_contents(m2) =~= map_contents(m));
            assert(drained_below(m2)) by {
                assert forall|i: int| 0 <= i < m2.migrate_pos && i < m2.older.len() implies (
                #[trigger] m2.older[i]).len() == 0 by {
                    assert(m2.older[i] == m.older[i]);
                }
            }
            lemma_rehash_from(m2, nwork + 1);
        }
    } else if total(m.older) == 0 {
        lemma_empty_table(DEFAULT_HASH_SIZE as nat);
        assert(is_pow2(2)) by {
            reveal_with_fuel(is_pow2, 2);
        }
        lemma_total_is_len(m.older);
        assert(table_contents(m.older) =~= Multiset::<Entry>::empty());
        assert(map_contents(r) =~= map_contents(m));
    } else {
        if m.migrate_pos >= m.older.len() {
            lemma_drained_total(m.older);
        }
        assert(nwork == REHASHING_WORK_SIZE);
        let o = total(m.older) as int;
        assert(work_left(o + REHASHING_WORK_SIZE) == work_left(o) + 1);
    }
}

/// A hash map of [`Entry`] values that grows by moving its entries to a
/// larger table a few at a time.
#[derive(Debug)]
pub struct HMap {
    current: HTable,
    older: HTable,
    migrate_pos: usize,
}

impl View for HMap {
    type V = HMapModel;

    closed spec fn view(&self) -> HMapModel {
        HMapModel {
            current: self.current@,
            older: self.older@,
            migrate_pos: self.migrate_pos as int,
        }
    }
}

impl HMap {
    /// Both tables are well formed and the map keeps its shape.
    pub closed spec fn wf(&self) -> bool {
        &&& self.current.wf()
        &&& self.older.wf()
        &&& model_wf(self@)
    }

    /// A well-formed map has a model in shape.
    pub proof fn lemma_wf_model(&self)
        requires
            self.wf(),
        ensures
            model_wf(self@),
    {
    }

    /// An empty map of [`DEFAULT_HASH_SIZE`] buckets.
    pub fn new() -> (m: Self)
        ensures
            m.wf(),
            m@.current == empty_table(DEFAULT_HASH_SIZE as nat),
            m@.older == empty_table(DEFAULT_HASH_SIZE as nat),
            m@.migrate_pos == 0,
            map_contents(m@) == Multiset::<Entry>::empty(),
    {
        assert(is_pow2(2)) by {
            reveal_with_fuel(is_pow2, 2);
        }
        Self::with_capacity(DEFAULT_HASH_SIZE)
    }

    /// An empty map whose current table has `size` buckets; `size` is a
    /// power of two.
    pub fn with_capacity(size: usize) -> (m: Self)
        requires
            is_pow2(size as nat),
            size <= MAX_ENTRIES,
        ensures
            m.wf(),
            m@.current == empty_table(size as nat),
            m@.older == empty_table(DEFAULT_HASH_SIZE as nat),
            m@.migrate_pos == 0,
            map_contents(m@) == Multiset::<Entry>::empty(),
    {
        assert(is_pow2(2)) by {
            reveal_with_fuel(is_pow2, 2);
        }
        let m = Self {
            current: HTable::with_capacity(size),
            older: HTable::with_capacity(DEFAULT_HASH_SIZE),
            migrate_pos: 0,
        };
        proof {
            lemma_empty_table(size as nat);
            lemma_empty_table(DEFAULT_HASH_SIZE as nat);
            assert(map_contents(m@) =~= Multiset::<Entry>::empty());
        }
        m
    }

    /// The table that takes insertions.
    pub fn current(&self) -> (t: &HTable)
        requires
            self.wf(),
        ensures
            t.wf(),
            t@ == self@.current,
    {
        &self.current
    }

    /// The table being drained.
    pub fn older(&self) -> (t: &HTable)
        requires
            self.wf(),
        ensures
            t.wf(),
            t@ == self@.older,
    {
        &self.older
    }

    /// Number of entries.
    pub fn len(&self) -> (n: usize)
        requires
            self.wf(),
        ensures
            n == map_len(self@),
    {
        self.current.size + self.older.size
    }

    /// The search of `key` with `f`: after a step of migration, the first
    /// hit in the current table, else the first in the older one.
    pub fn lookup(&mut self, key: &Entry, f: LookUpFunction) -> (r: Option<MapSlot>)
        requires
            old(self).wf(),
        ensures
            final(self).wf(),
            final(self)@ == help_rehashing(old(self)@),
            r == map_lookup(final(self)@, probe_of(*key), f),
    {
        self.help_rehashing();
        let from = self.current.lookup(key, f);
        match from {
            Some(s) => Some(MapSlot { in_older: false, slot: s }),
            None => match self.older.lookup(key, f) {
                Some(s) => Some(MapSlot { in_older: true, slot: s }),
                None => None,
            },
        }
    }

    /// The entry at `s`.
    pub fn get(&self, s: MapSlot) -> (e: &Entry)
        requires
            self.wf(),
            map_valid_slot(self@, s),
        ensures
            *e == map_entry(self@, s),
    {
        if s.in_older {
            self.older.get(s.slot)
        } else {
            self.current.get(s.slot)
        }
    }

    /// The place of the entry that follows the one at `s` in its chain.
    pub fn next_of(&self, s: MapSlot) -> (r: Option<MapSlot>)
        requires
            self.wf(),
            map_valid_slot(self@, s),
        ensures
            r == (if map_valid_slot(self@, MapSlot { in_older: s.in_older, slot: Slot { bucket: s.slot.bucket, index: (s.slot.index + 1) as usize } }) {
                Some(MapSlot { in_older: s.in_older, slot: Slot { bucket: s.slot.bucket, index: (s.slot.index + 1) as usize } })
            } else {
                None
            }),
    {
        let t = if s.in_older { &self.older } else { &self.current };
        let chain_len = t.buckets[s.slot.bucket].len();
        if s.slot.index + 1 < chain_len {
            Some(MapSlot { in_older: s.in_older, slot: Slot { bucket: s.slot.bucket, index: s.slot.index + 1 } })
        } else {
            None
        }
    }

    /// Gives the entry at `s` the value `val`, in place.
    pub fn set_val(&mut self, s: MapSlot, val: String)
        requires
            old(self).wf(),
            map_valid_slot(old(self)@, s),
        ensures
            final(self).wf(),
            final(self)@ == map_set_val(old(self)@, s, val),
    {
        proof {
            if s.in_older {
                lemma_table_set_val(self@.older, s.slot, val);
            } else {
                lemma_table_set_val(self@.current, s.slot, val);
            }
        }
        if s.in_older {
            self.older.set_val(s.slot, val);
        } else {
            self.current.set_val(s.slot, val);
        }
        assert(drained_below(self@)) by {
            assert forall|i: int| 0 <= i < self@.migrate_pos && i < self@.older.len() implies (
            #[trigger] self@.older[i]).len() == 0 by {
                assert(self@.older[i].len() == old(self)@.older[i].len());
            }
        }
    }

    /// Makes `node` the head of its bucket in the current table, starts a
    /// migration to a table twice as large if the current one has reached
    /// its threshold, and moves a step of entries.
    pub fn insert(&mut self, node: Entry)
        requires
            old(self).wf(),
            map_len(old(self)@) < MAX_ENTRIES,
        ensures
            final(self).wf(),
            final(self)@ == map_insert(old(self)@, node),
    {
        let ghost m0 = self@;
        let ghost e = node;
        proof {
            lemma_table_insert(self@.current, node);
            lemma_grow(self@, node);
        }
        self.current.insert(node);
        let rehash_trashold = self.current.mask * MAX_LOAD_FACTOR;
        if self.current.size >= rehash_trashold {
            self.trigger_rehashing();
        }
        proof {
            let g = grow(m0, e);
            assert(self@ == g);
        }
        self.help_rehashing();
    }

    /// Turns the current table, which holds the whole map, into the older
    /// one behind an empty table of twice as many buckets.
    fn trigger_rehashing(&mut self)
        requires
            old(self).current.wf(),
            old(self).older.wf(),
            total(old(self)@.older) == 0,
            threshold(old(self)@.current) <= total(old(self)@.current) <= threshold(old(self)@.current) + 1,
            total(old(self)@.current) <= MAX_ENTRIES,
        ensures
            final(self).current.wf(),
            final(self).older.wf(),
            final(self)@ == (HMapModel {
                current: empty_table(2 * old(self)@.current.len()),
                older: old(self)@.current,
                migrate_pos: 0,
            }),
    {
        let cap = self.current.mask + 1;
        proof {
            lemma_pow2_double(cap as nat);
        }
        let mut new = HTable::with_capacity(cap * 2);
        std::mem::swap(&mut self.current, &mut new);
        self.older = new;
        self.migrate_pos = 0;
    }

    /// Moves up to [`REHASHING_WORK_SIZE`] entries from the older table to
    /// the current one, and replaces an older table left empty.
    fn help_rehashing(&mut self)
        requires
            old(self).current.wf(),
            old(self).older.wf(),
            table_ok(old(self)@.current),
            table_ok(old(self)@.older),
            0 <= old(self)@.migrate_pos <= usize::MAX,
            drained_below(old(self)@),
            map_len(old(self)@) <= MAX_ENTRIES,
            total(old(self)@.older) == 0 ==> total(old(self)@.current) <= threshold(
                old(self)@.current,
            ),
            total(old(self)@.older) > 0 ==> map_len(old(self)@) + work_left(total(old(self)@.older) as int)
                <= threshold(old(self)@.current),
        ensures
            final(self).wf(),
            final(self)@ == help_rehashing(old(self)@),
    {
        let ghost target = help_rehashing(self@);
        proof {
            lemma_rehash_from(self@, 0);
        }
        let mut nwork: usize = 0;
        while nwork < REHASHING_WORK_SIZE && self.older.size > 0
            invariant
                self.current.wf(),
                self.older.wf(),
                0 <= self@.migrate_pos <= usize::MAX,
                drained_below(self@),
                map_len(self@) <= MAX_ENTRIES,
                nwork <= REHASHING_WORK_SIZE,
                total(self@.older) == 0 ==> total(self@.current) <= threshold(self@.current),
                total(self@.older) > 0 ==> map_len(self@) + work_left(total(self@.older) + nwork)
                    <= threshold(self@.current),
                rehash_from(self@, nwork as int) == target,
            decreases REHASHING_WORK_SIZE - nwork, self@.older.len() - self@.migrate_pos,
        {
            proof {
                if self.migrate_pos >= self.older.buckets@.len() {
                    lemma_drained_total(self@.older);
                }
            }
            if self.older.buckets[self.migrate_pos].len() == 0 {
                self.migrate_pos = self.migrate_pos + 1;
                continue;
            }
            let from = Slot { bucket: self.migrate_pos, index: 0 };
            proof {
                lemma_table_insert(self@.current, self@.older[self.migrate_pos as int][0]);
                lemma_table_detach(self@.older, from);
            }
            let detached = self.older.detach(from);
            self.current.insert(detached);
            nwork = nwork + 1;
            assert(drained_below(self@));
        }
        if self.older.size == 0 {
            self.older = HTable::new();
        }
        proof {
            if self.migrate_pos >= self.older.buckets@.len() && total(self@.older) > 0 {
                lemma_drained_total(self@.older);
            }
        }
    }

    /// Takes out the entry that a search for `key` with `f` stops at, after a
    /// step of migration.
    pub fn delete(&mut self, key: &Entry, f: LookUpFunction) -> (r: Option<Entry>)
        requires
            old(self).wf(),
        ensures
            final(self).wf(),
            (final(self)@, r) == map_delete(old(self)@, probe_of(*key), f),
    {
        self.help_rehashing();
        let ghost h = self@;
        let from = self.current.lookup(key, f);
        if let Some(s) = from {
            proof {
                lemma_table_lookup_some(self@.current, probe_of(*key), f);
                lemma_table_detach(self@.current, s);
            }
            let e = self.current.detach(s);
            proof {
                lemma_delete_keeps(h, MapSlot { in_older: false, slot: s });
            }
            return Some(e);
        }
        let from_old = self.older.lookup(key, f);
        if let Some(s) = from_old {
            proof {
                lemma_table_lookup_some(self@.older, probe_of(*key), f);
                lemma_table_detach(self@.older, s);
            }
            let e = self.older.detach(s);
            proof {
                lemma_delete_keeps(h, MapSlot { in_older: true, slot: s });
            }
            return Some(e);
        }
        None
    }
}

/// Inserting into a map in shape leaves it ready for a step of migration,
/// with one entry more.
proof fn lemma_grow(m: HMapModel, e: Entry)
    requires
        model_wf(m),
        map_len(m) < MAX_ENTRIES,
    ensures
        ({
            let g = grow(m, e);
            &&& table_ok(g.current)
            &&& table_ok(g.older)
            &&& 0 <= g.migrate_pos <= usize::MAX
            &&& drained_below(g)
            &&& map_len(g) == map_len(m) + 1
            &&& total(g.older) == 0 ==> total(g.current) <= threshold(g.current)
            &&& total(g.older) > 0 ==> map_len(g) + work_left(total(g.older) as int) <= threshold(
                g.current,
            )
            &&& map_contents(g) == map_contents(m).insert(e)
        }),
{
    let c = table_insert(m.current, e);
    lemma_table_insert(m.current, e);
    let g = grow(m, e);
    let n = total(c) as int;
    let o = total(m.older) as int;
    if n >= threshold(c) {
        // the older table is empty: otherwise the bound would have kept the
        // current one under its threshold
        assert(o == 0) by {
            if o > 0 {
                assert(work_left(o) >= 1);
            }
        }
        let cap = m.current.len();
        lemma_pow2_double(cap);
        assert(n <= threshold(c) + 1);
        assert(2 * cap <= MAX_ENTRIES);
        lemma_empty_table(2 * cap);
        lemma_total_is_len(m.older);
        assert(table_contents(m.older) =~= Multiset::<Entry>::empty());
        assert(work_left(n) <= n);
        assert(map_contents(g) =~= map_contents(m).insert(e));
    } else {
        if o > 0 {
            assert(work_left(o) >= 1);
        }
        assert(map_contents(g) =~= map_contents(m).insert(e));
    }
}

/// Doubling a power of two within bounds gives a power of two.
proof fn lemma_pow2_double(n: nat)
    requires
        is_pow2(n),
    ensures
        is_pow2(2 * n),
{
    assert((2 * n) / 2 == n);
}

/// Taking an entry out keeps the shape of the map.
proof fn lemma_delete_keeps(m: HMapModel, s: MapSlot)
    requires
        model_wf(m),
        map_valid_slot(m, s),
    ensures
        model_wf(map_detach(m, s)),
        map_contents(map_detach(m, s)) == map_contents(m).remove(map_entry(m, s)),
        map_len(map_detach(m, s)) + 1 == map_len(m),
{
    let d = map_detach(m, s);
    let e = map_entry(m, s);
    if s.in_older {
        lemma_table_detach(m.older, s.slot);
        assert(table_contents(m.older).count(e) > 0) by {
            lemma_table_detach(m.older, s.slot);
            lemma_entry_in_contents(m.older, s.slot);
        }
        assert(map_contents(d) =~= map_contents(m).remove(e));
        assert(drained_below(d)) by {
            assert forall|i: int| 0 <= i < d.migrate_pos && i < d.older.len() implies (
            #[trigger] d.older[i]).len() == 0 by {
                if i == s.slot.bucket {
                    assert(m.older[i].len() == 0);
                }
            }
        }
        let o = total(m.older) as int;
        assert(work_left(o - 1) <= work_left(o));
    } else {
        lemma_table_detach(m.current, s.slot);
        lemma_entry_in_contents(m.current, s.slot);
        assert(map_contents(d) =~= map_contents(m).remove(e));
    }
}

/// The entry at a slot is among the contents.
pub proof fn lemma_entry_in_contents(t: Seq<Seq<Entry>>, s: Slot)
    requires
        valid_slot(t, s),
    ensures
        table_contents(t).count(t[s.bucket as int][s.index as int]) > 0,
    decreases t.len(),
{
    let b = s.bucket as int;
    if b == t.len() - 1 {
        assert(t.last().contains(t[b][s.index as int]));
    } else {
        lemma_entry_in_contents(t.drop_last(), s);
    }
}

/// An entry among the contents of a table stands at some slot of it.
pub proof fn lemma_contents_has_slot(t: Seq<Seq<Entry>>, e: Entry)
    requires
        table_ok(t),
        table_contents(t).count(e) > 0,
    ensures
        exists|s: Slot| valid_slot(t, s) && #[trigger] t[s.bucket as int][s.index as int] == e,
{
    lemma_contents_has_slot_in(t, t.len(), e);
}

/// The prefix form of [`lemma_contents_has_slot`]: the buckets are those of
/// a table of `cap` buckets.
proof fn lemma_contents_has_slot_in(t: Seq<Seq<Entry>>, cap: nat, e: Entry)
    requires
        t.len() <= cap <= usize::MAX,
        total(t) <= usize::MAX,
        table_contents(t).count(e) > 0,
    ensures
        exists|s: Slot| valid_slot(t, s) && #[trigger] t[s.bucket as int][s.index as int] == e,
    decreases t.len(),
{
    let t0 = t.drop_last();
    let b = t.len() - 1;
    if t.last().to_multiset().count(e) > 0 {
        assert(t.last().contains(e));
        let j = choose|j: int| 0 <= j < t.last().len() && t.last()[j] == e;
        lemma_bucket_le_total(t, b);
        let s = Slot { bucket: b as usize, index: j as usize };
        assert(valid_slot(t, s) && t[s.bucket as int][s.index as int] == e);
    } else {
        assert(table_contents(t0).count(e) > 0);
        lemma_contents_has_slot_in(t0, cap, e);
        let s = choose|s: Slot| valid_slot(t0, s) && #[trigger] t0[s.bucket as int][s.index as int] == e;
        assert(t[s.bucket as int][s.index as int] == e);
    }
}

/// A search of a table finds something exactly when the table holds a hit.
pub proof fn lemma_table_lookup_finds(t: Seq<Seq<Entry>>, key: Probe, f: LookUpFunction, e: Entry)
    requires
        table_ok(t),
        table_contents(t).count(e) > 0,
        is_hit(f, e, key),
    ensures
        table_lookup(t, key, f) is Some,
{
    lemma_contents_has_slot(t, e);
    let s = choose|s: Slot| valid_slot(t, s) && #[trigger] t[s.bucket as int][s.index as int] == e;
    assert(t[s.bucket as int][s.index as int] == e);
    assert(bucket_of(e.node.hcode, t.len()) == s.bucket);
    lemma_first_hit_exists(t[s.bucket as int], key, f, s.index as int);
}

/// Law: a search of the map stops at an entry exactly when the map holds
/// an entry with the key's hash that the comparison accepts, and what it
/// stops at is such an entry.
pub proof fn law_lookup_finds(m: HMapModel, key: Probe, f: LookUpFunction)
    requires
        model_wf(m),
    ensures
        map_lookup(m, key, f) is Some <==> exists|e: Entry|
            #[trigger] map_contents(m).count(e) > 0 && is_hit(f, e, key),
        map_lookup(m, key, f) is Some ==> map_valid_slot(m, map_lookup(m, key, f)->0) && is_hit(
            f,
            map_entry(m, map_lookup(m, key, f)->0),
            key,
        ) && map_contents(m).count(map_entry(m, map_lookup(m, key, f)->0)) > 0,
{
    if let Some(s) = map_lookup(m, key, f) {
        if s.in_older {
            lemma_table_lookup_some(m.older, key, f);
            lemma_entry_in_contents(m.older, s.slot);
        } else {
            lemma_table_lookup_some(m.current, key, f);
            lemma_entry_in_contents(m.current, s.slot);
        }
        let e = map_entry(m, s);
        assert(map_contents(m).count(e) > 0 && is_hit(f, e, key));
    } else {
        assert forall|e: Entry| #[trigger] map_contents(m).count(e) > 0 implies !is_hit(f, e, key) by {
            if is_hit(f, e, key) {
                if table_contents(m.current).count(e) > 0 {
                    lemma_table_lookup_finds(m.current, key, f, e);
                } else {
                    lemma_table_lookup_finds(m.older, key, f, e);
                }
            }
        }
    }
}

/// The number of entries of a map is the size of its contents.
pub proof fn lemma_len_is_contents(m: HMapModel)
    ensures
        map_len(m) == map_contents(m).len(),
{
    lemma_total_is_len(m.current);
    lemma_total_is_len(m.older);
}

/// Law: the migration step that every operation starts with keeps the map
/// in shape and keeps its entries.
pub proof fn law_help_rehashing_keeps(m: HMapModel)
    requires
        model_wf(m),
    ensures
        model_wf(help_rehashing(m)),
        map_contents(help_rehashing(m)) == map_contents(m),
        map_len(help_rehashing(m)) == map_len(m),
{
    lemma_rehash_from(m, 0);
}

/// Law: inserting adds exactly the new entry, and keeps the map in shape.
pub proof fn law_insert_adds(m: HMapModel, e: Entry)
    requires
        model_wf(m),
        map_len(m) < MAX_ENTRIES,
    ensures
        model_wf(map_insert(m, e)),
        map_contents(map_insert(m, e)) == map_contents(m).insert(e),
        map_len(map_insert(m, e)) == map_len(m) + 1,
{
    lemma_grow(m, e);
    lemma_rehash_from(grow(m, e), 0);
}

/// Law: deleting takes out an entry exactly when the map holds a hit, and
/// then takes out one hit and nothing else; otherwise the entries stay.
pub proof fn law_delete_removes(m: HMapModel, key: Probe, f: LookUpFunction)
    requires
        model_wf(m),
    ensures
        model_wf(map_delete(m, key, f).0),
        map_delete(m, key, f).1 is Some <==> exists|e: Entry|
            #[trigger] map_contents(m).count(e) > 0 && is_hit(f, e, key),
        map_delete(m, key, f).1 matches Some(e) ==> is_hit(f, e, key) && map_contents(m).count(e) > 0
            && map_contents(map_delete(m, key, f).0) == map_contents(m).remove(e),
        map_delete(m, key, f).1 is None ==> map_contents(map_delete(m, key, f).0) == map_contents(m),
{
    let h = help_rehashing(m);
    law_help_rehashing_keeps(m);
    law_lookup_finds(h, key, f);
    if let Some(s) = map_lookup(h, key, f) {
        lemma_delete_keeps(h, s);
    }
    assert((exists|e: Entry| #[trigger] map_contents(m).count(e) > 0 && is_hit(f, e, key)) <==> (
    exists|e: Entry| #[trigger] map_contents(h).count(e) > 0 && is_hit(f, e, key)));
}

/// Law: after inserting `e` into a map that holds no entry the comparison
/// would confuse with it, the next search for `e` finds `e` itself.
pub proof fn law_insert_then_lookup(m: HMapModel, e: Entry, f: LookUpFunction)
    requires
        model_wf(m),
        map_len(m) < MAX_ENTRIES,
        f.accepts(e, probe_of(e)),
        forall|x: Entry| #[trigger] map_contents(m).count(x) > 0 ==> !is_hit(f, x, probe_of(e)),
    ensures
        ({
            let l = help_rehashing(map_insert(m, e));
            &&& map_lookup(l, probe_of(e), f) is Some
            &&& map_entry(l, map_lookup(l, probe_of(e), f)->0) == e
        }),
{
    let i = map_insert(m, e);
    law_insert_adds(m, e);
    let l = help_rehashing(i);
    law_help_rehashing_keeps(i);
    assert(map_contents(l).count(e) > 0);
    law_lookup_finds(l, probe_of(e), f);
    let x = map_entry(l, map_lookup(l, probe_of(e), f)->0);
    if x != e {
        assert(map_contents(m).count(x) > 0);
    }
}

/// Law: while no migration is under way and the insertion does not start
/// one, the newest of several matching entries is the one a search finds.
pub proof fn law_newest_first(m: HMapModel, e: Entry, f: LookUpFunction)
    requires
        model_wf(m),
        map_len(m) < MAX_ENTRIES,
        f.accepts(e, probe_of(e)),
        total(m.older) == 0,
        total(m.current) + 1 < threshold(m.current),
    ensures
        ({
            let l = help_rehashing(map_insert(m, e));
            &&& map_lookup(l, probe_of(e), f) == Some(
                MapSlot {
                    in_older: false,
                    slot: Slot { bucket: bucket_of(e.node.hcode, m.current.len()) as usize, index: 0 },
                },
            )
            &&& map_entry(l, map_lookup(l, probe_of(e), f)->0) == e
        }),
{
    let c = table_insert(m.current, e);
    lemma_table_insert(m.current, e);
    lemma_empty_table(DEFAULT_HASH_SIZE as nat);
    let i = map_insert(m, e);
    assert(i.current == c);
    let l = help_rehashing(i);
    assert(l.current == c);
    let b = bucket_of(e.node.hcode, m.current.len());
    lemma_bucket_of_bounds(e.node.hcode, m.current.len());
    assert(c[b][0] == e);
    assert(is_first_hit(c[b], probe_of(e), f, 0));
    lemma_first_hit_at(c[b], probe_of(e), f, 0);
}

/// Law: giving an entry a new value swaps that one entry for the entry
/// with the new value, and keeps the map in shape.
pub proof fn law_set_val(m: HMapModel, s: MapSlot, val: String)
    requires
        model_wf(m),
        map_valid_slot(m, s),
    ensures
        model_wf(map_set_val(m, s, val)),
        map_contents(map_set_val(m, s, val)) == map_contents(m).remove(map_entry(m, s)).insert(
            with_val(map_entry(m, s), val),
        ),
        map_len(map_set_val(m, s, val)) == map_len(m),
{
    let e = map_entry(m, s);
    let u = map_set_val(m, s, val);
    if s.in_older {
        lemma_table_set_val(m.older, s.slot, val);
        lemma_entry_in_contents(m.older, s.slot);
        assert(drained_below(u)) by {
            assert forall|i: int| 0 <= i < u.migrate_pos && i < u.older.len() implies (
            #[trigger] u.older[i]).len() == 0 by {
                assert(u.older[i].len() == m.older[i].len());
            }
        }
    } else {
        lemma_table_set_val(m.current, s.slot, val);
        lemma_entry_in_contents(m.current, s.slot);
    }
    assert(map_contents(u) =~= map_contents(m).remove(e).insert(with_val(e, val)));
}

/// The map after inserting each entry of `es` in turn.
pub open spec fn insert_all(m: HMapModel, es: Seq<Entry>) -> HMapModel
    decreases es.len(),
{
    if es.len() == 0 {
        m
    } else {
        insert_all(map_insert(m, es[0]), es.drop_first())
    }
}

/// The map after deleting in turn, for each entry of `es`, what a search
/// with [`LookUpFunction::EntryEq`] for its key stops at; and what each of
/// these deletions took out.
pub open spec fn delete_all(m: HMapModel, es: Seq<Entry>) -> (HMapModel, Seq<Option<Entry>>)
    decreases es.len(),
{
    if es.len() == 0 {
        (m, Seq::empty())
    } else {
        let d = map_delete(m, probe_of(es[0]), LookUpFunction::EntryEq);
        let r = delete_all(d.0, es.drop_first());
        (r.0, seq![d.1] + r.1)
    }
}

/// No two entries of `es` have the same key.
pub open spec fn distinct_keys(es: Seq<Entry>) -> bool {
    forall|i: int, j: int|
        0 <= i < j < es.len() ==> (#[trigger] es[i]).key@ != (#[trigger] es[j]).key@
}

/// The entries that each insertion of a run adds.
proof fn lemma_insert_all(m: HMapModel, es: Seq<Entry>)
    requires
        model_wf(m),
        map_len(m) + es.len() <= MAX_ENTRIES,
    ensures
        model_wf(insert_all(m, es)),
        map_contents(insert_all(m, es)) == map_contents(m).add(es.to_multiset()),
        map_len(insert_all(m, es)) == map_len(m) + es.len(),
    decreases es.len(),
{
    if es.len() == 0 {
        assert(es.to_multiset() =~= Multiset::<Entry>::empty());
        assert(map_contents(m).add(es.to_multiset()) =~= map_contents(m));
    } else {
        law_insert_adds(m, es[0]);
        lemma_insert_all(map_insert(m, es[0]), es.drop_first());
        assert(es.remove(0) =~= es.drop_first());
        assert(es.contains(es[0]));
        assert(map_contents(m).insert(es[0]).add(es.drop_first().to_multiset()) =~= map_contents(
            m,
        ).add(es.to_multiset()));
    }
}

/// Deleting by the keys of entries that the map holds, with no other entry
/// of the map under those keys, takes out exactly those entries.
proof fn lemma_delete_all(m: HMapModel, rest: Multiset<Entry>, es: Seq<Entry>)
    requires
        model_wf(m),
        map_contents(m) == rest.add(es.to_multiset()),
        distinct_keys(es),
        forall|x: Entry, i: int|
            0 <= i < es.len() && #[trigger] rest.count(x) > 0 ==> !is_hit(
                LookUpFunction::EntryEq,
                x,
                probe_of(#[trigger] es[i]),
            ),
    ensures
        model_wf(delete_all(m, es).0),
        map_contents(delete_all(m, es).0) == rest,
        delete_all(m, es).1 == es.map_values(|e: Entry| Some(e)),
    decreases es.len(),
{
    if es.len() == 0 {
        assert(es.to_multiset() =~= Multiset::<Entry>::empty());
        assert(map_contents(m) =~= rest);
        assert(delete_all(m, es).1 =~= es.map_values(|e: Entry| Some(e)));
    } else {
        let f = LookUpFunction::EntryEq;
        let e0 = es[0];
        let key = probe_of(e0);
        let tail = es.drop_first();
        law_delete_removes(m, key, f);
        assert(es.contains(e0));
        assert(map_contents(m).count(e0) > 0 && is_hit(f, e0, key));
        let d = map_delete(m, key, f);
        let e = d.1->0;
        assert(e == e0) by {
            if rest.count(e) > 0 {
                assert(!is_hit(f, e, probe_of(es[0])));
            } else {
                assert(es.to_multiset().count(e) > 0);
                let j = choose|j: int| 0 <= j < es.len() && es[j] == e;
                if j != 0 {
                    assert(es[0].key@ != es[j].key@);
                }
            }
        }
        assert(es.remove(0) =~= tail);
        assert(d.0 == map_delete(m, key, f).0);
        assert(map_contents(d.0) =~= rest.add(tail.to_multiset()));
        assert forall|x: Entry, i: int|
            0 <= i < tail.len() && #[trigger] rest.count(x) > 0 implies !is_hit(
            f,
            x,
            probe_of(#[trigger] tail[i]),
        ) by {
            assert(tail[i] == es[i + 1]);
        }
        assert forall|i: int, j: int| 0 <= i < j < tail.len() implies (#[trigger] tail[i]).key@
            != (#[trigger] tail[j]).key@ by {
            assert(tail[i] == es[i + 1] && tail[j] == es[j + 1]);
        }
        lemma_delete_all(d.0, rest, tail);
        assert(delete_all(m, es).1 =~= es.map_values(|e: Entry| Some(e)));
    }
}

/// Law: inserting entries with distinct keys, none of which the map holds,
/// and then deleting each of them by its key takes out each of them in turn
/// and leaves the map with the entries it had before, in shape.
pub proof fn law_insert_then_delete_all(m: HMapModel, es: Seq<Entry>)
    requires
        model_wf(m),
        map_len(m) + es.len() <= MAX_ENTRIES,
        distinct_keys(es),
        forall|x: Entry, i: int|
            0 <= i < es.len() && #[trigger] map_contents(m).count(x) > 0 ==> x.key@ != (
            #[trigger] es[i]).key@,
    ensures
        ({
            let filled = insert_all(m, es);
            let emptied = delete_all(filled, es);
            &&& model_wf(filled)
            &&& map_contents(filled) == map_contents(m).add(es.to_multiset())
            &&& map_len(filled) == map_len(m) + es.len()
            &&& emptied.1 == es.map_values(|e: Entry| Some(e))
            &&& model_wf(emptied.0)
            &&& map_contents(emptied.0) == map_contents(m)
            &&& map_len(emptied.0) == map_len(m)
        }),
{
    lemma_insert_all(m, es);
    let filled = insert_all(m, es);
    assert forall|x: Entry, i: int|
        0 <= i < es.len() && #[trigger] map_contents(m).count(x) > 0 implies !is_hit(
        LookUpFunction::EntryEq,
        x,
        probe_of(#[trigger] es[i]),
    ) by {
        assert(x.key@ != es[i].key@);
    }
    lemma_delete_all(filled, map_contents(m), es);
    lemma_len_is_contents(delete_all(filled, es).0);
    lemma_len_is_contents(m);
}

/// An entry for `key` and `value`, with the hash of the key's UTF-8 bytes.
pub fn create_node(key: &str, value: &str) -> (e: Entry)
    ensures
        e.key@ == key@,
        e.val@ == value@,
        e.node.hcode == fnv_hash(key.spec_bytes()),
{
    let hash = str_hash(key.as_bytes());
    Entry { key: key.to_owned(), val: value.to_owned(), node: HNode { hcode: hash } }
}

/// Releases an entry taken out of a map: the entry is dropped here.
pub fn free_entry(node: Entry) {
    let _ = node;
}

/// The entry at `slot`, if there is one.
pub fn get_entry_from_dp(map: &HMap, slot: Option<MapSlot>) -> (e: Option<&Entry>)
    requires
        map.wf(),
        slot matches Some(s) ==> map_valid_slot(map@, s),
    ensures
        e == (match slot {
            Some(s) => Some(&map_entry(map@, s)),
            None => None,
        }),
{
    match slot {
        Some(s) => Some(map.get(s)),
        None => None,
    }
}

} // verus!
