use vstd::prelude::*;
use vstd::utf8::{encode_utf8, encode_utf8_decode_utf8};

verus! {

pub struct HNode {
    pub hcode: u64,
}

pub struct Entry {
    pub node: HNode,
    pub key: String,
    pub val: String,
}

impl Entry {
    /// An entry for `key` and `val`, carrying the hash of `key`.
    pub fn new(key: String, val: String) -> (res: Self)
        ensures
            res.key == key,
            res.val == val,
            res.node.hcode == string_hash(key@),
    {
        let hcode = str_hash(key.as_str());
        Entry { node: HNode { hcode }, key, val }
    }
}

pub struct ChainNode {
    pub entry: Entry,
    pub next: Option<Box<ChainNode>>,
}

/// The entries of a chain, from its head on.
pub open spec fn chain_entries(c: Option<Box<ChainNode>>) -> Seq<Entry>
    decreases c,
{
    match c {
        None => Seq::empty(),
        Some(n) => seq![n.entry] + chain_entries(n.next),
    }
}

pub open spec fn entry_matches(e: Entry, key: Seq<char>, hcode: u64) -> bool {
    e.node.hcode == hcode && e.key@ == key
}

/// Index of the first entry of `s` that matches, or `s.len()` if none does.
pub open spec fn find(s: Seq<Entry>, key: Seq<char>, hcode: u64) -> nat
    decreases s.len(),
{
    if s.len() == 0 {
        0
    } else if entry_matches(s[0], key, hcode) {
        0
    } else {
        1 + find(s.drop_first(), key, hcode)
    }
}

const K_RESIZING_WORK: usize = 128;  // nodes to migrate per operation

pub const K_MAX_LOAD_FACTOR: usize = 8;  // resize when size/buckets >= this

pub const FNV_OFFSET_BASIS: u64 = 14695981039346656037;

pub const FNV_PRIME: u64 = 1099511628211;

/// The 64-bit FNV-1a hash of a byte sequence.
pub open spec fn fnv1a(bytes: Seq<u8>) -> u64
    decreases bytes.len(),
{
    if bytes.len() == 0 {
        FNV_OFFSET_BASIS
    } else {
        vstd::wrapping::u64_specs::wrapping_mul(
            fnv1a(bytes.drop_last()) ^ (bytes.last() as u64),
            FNV_PRIME,
        )
    }
}

/// The hash of a string: FNV-1a over its UTF-8 bytes.
pub open spec fn string_hash(s: Seq<char>) -> u64 {
    fnv1a(vstd::utf8::encode_utf8(s))
}

/// The bucket that a hash code selects in a table of `mask + 1` buckets.
pub open spec fn bucket_index(hcode: u64, mask: usize) -> int {
    ((hcode as usize) & mask) as int
}

pub open spec fn is_pow2(n: int) -> bool
    decreases n,
{
    if n <= 0 {
        false
    } else if n == 1 {
        true
    } else {
        n % 2 == 0 && is_pow2(n / 2)
    }
}

/// Number of entries in a sequence of chains.
pub open spec fn chains_len(bs: Seq<Option<Box<ChainNode>>>) -> nat
    decreases bs.len(),
{
    if bs.len() == 0 {
        0
    } else {
        chains_len(bs.drop_last()) + chain_entries(bs.last()).len()
    }
}

proof fn lemma_chains_len_update(bs: Seq<Option<Box<ChainNode>>>, i: int, c: Option<Box<ChainNode>>)
    requires
        0 <= i < bs.len(),
    ensures
        chains_len(bs.update(i, c)) + chain_entries(bs[i]).len() == chains_len(bs) + chain_entries(c).len(),
    decreases bs.len(),
{
    if i < bs.len() - 1 {
        lemma_chains_len_update(bs.drop_last(), i, c);
        assert(bs.update(i, c).drop_last() =~= bs.drop_last().update(i, c));
    } else {
        assert(bs.update(i, c).drop_last() =~= bs.drop_last());
    }
}

proof fn lemma_chains_len_all_empty(bs: Seq<Option<Box<ChainNode>>>)
    requires
        forall|i: int| 0 <= i < bs.len() ==> #[trigger] bs[i] is None,
    ensures
        chains_len(bs) == 0,
    decreases bs.len(),
{
    if bs.len() > 0 {
        lemma_chains_len_all_empty(bs.drop_last());
    }
}

proof fn lemma_find(s: Seq<Entry>, key: Seq<char>, hcode: u64)
    ensures
        find(s, key, hcode) <= s.len(),
        find(s, key, hcode) < s.len() ==> entry_matches(s[find(s, key, hcode) as int], key, hcode),
        forall|i: int| 0 <= i < find(s, key, hcode) ==> !entry_matches(#[trigger] s[i], key, hcode),
    decreases s.len(),
{
    if s.len() > 0 && !entry_matches(s[0], key, hcode) {
        lemma_find(s.drop_first(), key, hcode);
        assert forall|i: int| 0 <= i < find(s, key, hcode) implies !entry_matches(#[trigger] s[i], key, hcode) by {
            if i > 0 {
                assert(s[i] == s.drop_first()[i - 1]);
            }
        }
    }
}

proof fn lemma_mask_bound(h: u64, mask: usize)
    ensures
        0 <= bucket_index(h, mask) <= mask,
{
    let x = h as usize;
    assert(x & mask <= mask) by (bit_vector);
}

/// Whether two strings hold the same characters, compared byte by byte:
/// their UTF-8 encodings are equal exactly when the strings are.
pub(crate) fn str_eq(a: &str, b: &str) -> (eq: bool)
    ensures
        eq == (a@ == b@),
{
    let x = a.as_bytes();
    let y = b.as_bytes();
    proof {
        encode_utf8_decode_utf8(a@);
        encode_utf8_decode_utf8(b@);
    }
    if x.len() != y.len() {
        return false;
    }
    let mut i: usize = 0;
    while i < x.len()
        invariant
            i <= x@.len(),
            x@.len() == y@.len(),
            x@ == encode_utf8(a@),
            y@ == encode_utf8(b@),
            forall|j: int| 0 <= j < i ==> x@[j] == y@[j],
        decreases x@.len() - i,
    {
        if x[i] != y[i] {
            proof {
                assert(x@ != y@);
                encode_utf8_decode_utf8(a@);
                encode_utf8_decode_utf8(b@);
            }
            return false;
        }
        i += 1;
    }
    proof {
        assert(x@ =~= y@);
    }
    true
}

fn chain_lookup_mut<'a>(c: &'a mut Option<Box<ChainNode>>, key: &str, hcode: u64) -> (res: Option<&'a mut Entry>)
    ensures
        ({
            let s = chain_entries(*old(c));
            let j = find(s, key@, hcode) as int;
            match res {
                None => j == s.len() && *final(c) == *old(c),
                Some(e) => j < s.len() && *e == s[j] && chain_entries(*final(c)) == s.update(j, *final(e)),
            }
        }),
    decreases *old(c),
{
    match c {
        None => {
            proof {
                assert(chain_entries(*old(c)) =~= Seq::<Entry>::empty());
                assert(find(chain_entries(*old(c)), key@, hcode) == 0);
            }
            None
        },
        Some(node) => {
            if node.entry.node.hcode == hcode && str_eq(node.entry.key.as_str(), key) {
                Some(&mut node.entry)
            } else {
                let ghost s = chain_entries(*old(c));
                proof {
                    assert(s.drop_first() =~= chain_entries(node.next));
                    assert(find(s, key@, hcode) == 1 + find(s.drop_first(), key@, hcode));
                }
                match chain_lookup_mut(&mut node.next, key, hcode) {
                    Some(e) => {
                        proof {
                            let j = find(s.drop_first(), key@, hcode) as int;
                            assert(j < s.drop_first().len());
                            assert(s[j + 1] == s.drop_first()[j]);
                            assert(*e == s[j + 1]);
                        }
                        Some(e)
                    },
                    None => None,
                }
            }
        },
    }
}

fn chain_lookup<'a>(c: &'a Option<Box<ChainNode>>, key: &str, hcode: u64) -> (res: Option<&'a Entry>)
    ensures
        ({
            let s = chain_entries(*c);
            let j = find(s, key@, hcode) as int;
            match res {
                None => j == s.len(),
                Some(e) => j < s.len() && *e == s[j],
            }
        }),
    decreases *c,
{
    match c {
        None => {
            proof {
                assert(chain_entries(*c) =~= Seq::<Entry>::empty());
            }
            None
        },
        Some(node) => {
            let ghost s = chain_entries(*c);
            if node.entry.node.hcode == hcode && str_eq(node.entry.key.as_str(), key) {
                Some(&node.entry)
            } else {
                proof {
                    assert(s.drop_first() =~= chain_entries(node.next));
                    lemma_find(s.drop_first(), key@, hcode);
                }
                chain_lookup(&node.next, key, hcode)
            }
        },
    }
}

/// Takes the first matching entry out of a chain, keeping the others in order.
fn chain_remove(c: Option<Box<ChainNode>>, key: &str, hcode: u64) -> (res: (Option<Box<ChainNode>>, Option<Entry>))
    ensures
        ({
            let s = chain_entries(c);
            let j = find(s, key@, hcode) as int;
            if j < s.len() {
                res.1 == Some(s[j]) && chain_entries(res.0) == s.remove(j)
            } else {
                res.1 is None && chain_entries(res.0) == s
            }
        }),
    decreases c,
{
    match c {
        None => {
            proof {
                assert(chain_entries(c) =~= Seq::<Entry>::empty());
            }
            (None, None)
        },
        Some(node) => {
            let ghost s = chain_entries(Some(node));
            let ChainNode { entry, next } = *node;
            proof {
                assert(s.drop_first() =~= chain_entries(next));
            }
            if entry.node.hcode == hcode && str_eq(entry.key.as_str(), key) {
                proof {
                    assert(s.remove(0) =~= chain_entries(next));
                }
                (next, Some(entry))
            } else {
                let (rest, found) = chain_remove(next, key, hcode);
                let rebuilt = Some(Box::new(ChainNode { entry, next: rest }));
                proof {
                    lemma_find(s.drop_first(), key@, hcode);
                    let j = find(s.drop_first(), key@, hcode) as int;
                    if j < s.drop_first().len() {
                        assert(s[j + 1] == s.drop_first()[j]);
                        assert(chain_entries(rebuilt) =~= s.remove(j + 1));
                    } else {
                        assert(chain_entries(rebuilt) =~= s);
                    }
                }
                (rebuilt, found)
            }
        },
    }
}

/// The 64-bit FNV-1a hash of the UTF-8 bytes of `key`.
pub fn str_hash(key: &str) -> (hash: u64)
    ensures
        hash == string_hash(key@),
{
    let bytes = key.as_bytes();
    let mut hash: u64 = FNV_OFFSET_BASIS;
    let mut i: usize = 0;
    proof {
        assert(bytes@.subrange(0, 0) =~= Seq::<u8>::empty());
    }
    while i < bytes.len()
        invariant
            i <= bytes@.len(),
            bytes@ == vstd::utf8::encode_utf8(key@),
            hash == fnv1a(bytes@.subrange(0, i as int)),
        decreases bytes@.len() - i,
    {
        let byte = bytes[i];
        hash ^= byte as u64;
        hash = hash.wrapping_mul(FNV_PRIME);
        proof {
            assert(bytes@.subrange(0, i + 1).drop_last() =~= bytes@.subrange(0, i as int));
        }
        i += 1;
    }
    proof {
        assert(bytes@.subrange(0, i as int) =~= bytes@);
    }
    hash
}

// fix size hashtable .. array of chains
pub struct HTab {
    pub buckets: Vec<Option<Box<ChainNode>>>,
    pub mask: usize,  // always size-1, for fast indexing
    pub size: usize,  // how many entries currently in here
}

impl HTab {
    /// The entries of bucket `i`, from the head of its chain on.
    pub open spec fn bucket(self, i: int) -> Seq<Entry> {
        chain_entries(self.buckets@[i])
    }

    pub open spec fn nbuckets(self) -> int {
        self.buckets@.len() as int
    }

    /// A table is either empty with no buckets, or has a power of two of
    /// buckets, `mask` one less than their number, and every entry in the
    /// bucket that its hash code selects; `size` counts the entries.
    pub open spec fn wf(self) -> bool {
        &&& self.size == chains_len(self.buckets@)
        &&& self.nbuckets() > 0 ==> {
            &&& self.nbuckets() == self.mask + 1
            &&& is_pow2(self.nbuckets())
            &&& forall|i: int, j: int|
                #![trigger self.bucket(i)[j]]
                0 <= i < self.nbuckets() && 0 <= j < self.bucket(i).len() ==> bucket_index(
                    self.bucket(i)[j].node.hcode,
                    self.mask,
                ) == i
        }
    }

    /// A table of `n` empty buckets.
    pub fn new(n: usize) -> (res: Self)
        requires
            n > 0 && is_pow2(n as int),
        ensures
            res.wf(),
            res.nbuckets() == n,
            res.mask == n - 1,
            res.size == 0,
            forall|i: int| 0 <= i < n ==> #[trigger] res.bucket(i) == Seq::<Entry>::empty(),
    {
        let mut buckets: Vec<Option<Box<ChainNode>>> = Vec::new();
        let mut i: usize = 0;
        while i < n
            invariant
                i <= n,
                buckets@.len() == i,
                forall|k: int| 0 <= k < i ==> #[trigger] buckets@[k] is None,
            decreases n - i,
        {
            buckets.push(None);
            i += 1;
        }
        proof {
            lemma_chains_len_all_empty(buckets@);
            assert forall|k: int| 0 <= k < n implies #[trigger] chain_entries(buckets@[k]) == Seq::<Entry>::empty() by {
                assert(chain_entries(buckets@[k]) =~= Seq::<Entry>::empty());
            }
        }
        HTab { buckets, mask: n - 1, size: 0 }
    }

    /// Appends the keys of every bucket, in bucket order, to `out`.
    fn keys_into(&self, out: &mut Vec<String>)
        ensures
            key_views(final(out)@) == key_views(old(out)@) + tab_keys(*self, self.nbuckets()),
    {
        let mut i: usize = 0;
        proof {
            assert(key_views(out@) =~= key_views(old(out)@) + tab_keys(*self, 0));
        }
        while i < self.buckets.len()
            invariant
                i <= self.nbuckets(),
                key_views(out@) == key_views(old(out)@) + tab_keys(*self, i as int),
            decreases self.nbuckets() - i,
        {
            chain_keys(&self.buckets[i], out);
            proof {
                assert(key_views(out@) =~= key_views(old(out)@) + tab_keys(*self, i + 1));
            }
            i += 1;
        }
    }

    fn idx(&self, hcode: u64) -> (i: usize)
        ensures
            i == bucket_index(hcode, self.mask),
            i <= self.mask,
    {
        proof {
            lemma_mask_bound(hcode, self.mask);
        }
        (hcode as usize) & self.mask
    }

    /// Puts `entry` at the front of the chain of the bucket its hash code
    /// selects.
    pub fn insert(&mut self, entry: Entry)
        requires
            old(self).wf(),
            old(self).nbuckets() > 0,
            old(self).size < usize::MAX,
        ensures
            final(self).wf(),
            final(self).nbuckets() == old(self).nbuckets(),
            final(self).mask == old(self).mask,
            final(self).size == old(self).size + 1,
            forall|i: int|
                0 <= i < old(self).nbuckets() ==> #[trigger] final(self).bucket(i) == if i
                    == bucket_index(entry.node.hcode, old(self).mask) {
                    seq![entry] + old(self).bucket(i)
                } else {
                    old(self).bucket(i)
                },
    {
        let idx = self.idx(entry.node.hcode);
        let ghost k = idx as int;
        let ghost old_bs = self.buckets@;

        // take ownership of whatever is currently at this bucket
        // put new node at the front of the chain
        // point new node's next at the old chain
        let old_chain = self.buckets[idx].take();
        let new_chain = Some(Box::new(ChainNode { next: old_chain, entry }));
        proof {
            assert(chain_entries(new_chain) =~= seq![entry] + chain_entries(old_bs[k]));
            lemma_chains_len_update(old_bs, k, new_chain);
        }
        self.buckets[idx] = new_chain;
        self.size += 1;
        proof {
            assert(self.buckets@ == old_bs.update(k, new_chain));
            assert forall|i: int, j: int|
                0 <= i < self.nbuckets() && 0 <= j < self.bucket(i).len() implies bucket_index(
                #[trigger] self.bucket(i)[j].node.hcode,
                self.mask,
            ) == i by {
                if i == k && j > 0 {
                    assert(self.bucket(i)[j] == old(self).bucket(i)[j - 1]);
                } else if i != k {
                    assert(self.bucket(i)[j] == old(self).bucket(i)[j]);
                } else {
                    assert(self.bucket(i)[j] == entry);
                }
            }
        }
    }

    // look up a key in this table
    // returns a reference to the first entry of its bucket that matches
    pub fn lookup(&self, key: &str, hcode: u64) -> (res: Option<&Entry>)
        requires
            self.nbuckets() == 0 || self.nbuckets() == self.mask + 1,
        ensures
            self.nbuckets() == 0 ==> res is None,
            self.nbuckets() > 0 ==> ({
                let b = self.bucket(bucket_index(hcode, self.mask));
                let j = find(b, key@, hcode) as int;
                match res {
                    None => j == b.len(),
                    Some(e) => j < b.len() && *e == b[j],
                }
            }),
    {
        if self.buckets.len() == 0 {
            return None;
        }
        let idx = self.idx(hcode);
        // walk the chain
        chain_lookup(&self.buckets[idx], key, hcode)
    }

    // look up a key and return mutable reference
    pub fn lookup_mut(&mut self, key: &str, hcode: u64) -> (res: Option<&mut Entry>)
        requires
            old(self).nbuckets() == 0 || old(self).nbuckets() == old(self).mask + 1,
        ensures
            old(self).nbuckets() == 0 ==> res is None,
            res is None ==> final(self).buckets@ == old(self).buckets@ && final(self).mask == old(
                self,
            ).mask && final(self).size == old(self).size,
            old(self).nbuckets() > 0 ==> ({
                let k = bucket_index(hcode, old(self).mask);
                let b = old(self).bucket(k);
                let j = find(b, key@, hcode) as int;
                match res {
                    None => j == b.len(),
                    Some(e) => {
                        &&& j < b.len()
                        &&& *e == b[j]
                        &&& final(self).nbuckets() == old(self).nbuckets()
                        &&& final(self).mask == old(self).mask
                        &&& final(self).size == old(self).size
                        &&& forall|i: int|
                            0 <= i < old(self).nbuckets() ==> #[trigger] final(self).bucket(i)
                                == if i == k {
                                b.update(j, *final(e))
                            } else {
                                old(self).bucket(i)
                            }
                    },
                }
            }),
    {
        if self.buckets.len() == 0 {
            return None;
        }
        let idx = self.idx(hcode);
        chain_lookup_mut(&mut self.buckets[idx], key, hcode)
    }

    // remove a key from this table
    // returns the first entry of its bucket that matches, if any
    pub fn remove(&mut self, key: &str, hcode: u64) -> (res: Option<Entry>)
        requires
            old(self).wf(),
        ensures
            final(self).wf(),
            final(self).nbuckets() == old(self).nbuckets(),
            final(self).mask == old(self).mask,
            old(self).nbuckets() == 0 ==> res is None && *final(self) == *old(self),
            old(self).nbuckets() > 0 ==> ({
                let k = bucket_index(hcode, old(self).mask);
                let b = old(self).bucket(k);
                let j = find(b, key@, hcode) as int;
                if j < b.len() {
                    &&& res == Some(b[j])
                    &&& final(self).size == old(self).size - 1
                    &&& forall|i: int|
                        0 <= i < old(self).nbuckets() ==> #[trigger] final(self).bucket(i) == if i
                            == k {
                            b.remove(j)
                        } else {
                            old(self).bucket(i)
                        }
                } else {
                    &&& res is None
                    &&& final(self).size == old(self).size
                    &&& forall|i: int|
                        0 <= i < old(self).nbuckets() ==> #[trigger] final(self).bucket(i)
                            == old(self).bucket(i)
                }
            }),
    {
        if self.buckets.len() == 0 {
            return None;
        }
        let idx = self.idx(hcode);
        let ghost k = idx as int;
        let ghost old_bs = self.buckets@;

        // take the chain out, drop the matching node from it, put it back
        let chain = self.buckets[idx].take();
        let (rebuilt, result) = chain_remove(chain, key, hcode);
        proof {
            lemma_chains_len_update(old_bs, k, rebuilt);
            lemma_find(old(self).bucket(k), key@, hcode);
        }
        self.buckets[idx] = rebuilt;
        if result.is_some() {
            self.size -= 1;
        }
        proof {
            assert(self.buckets@ == old_bs.update(k, rebuilt));
            let b = old(self).bucket(k);
            let j = find(b, key@, hcode) as int;
            assert forall|i: int, jj: int|
                0 <= i < self.nbuckets() && 0 <= jj < self.bucket(i).len() implies bucket_index(
                #[trigger] self.bucket(i)[jj].node.hcode,
                self.mask,
            ) == i by {
                if i == k && j < b.len() && jj >= j {
                    assert(self.bucket(i)[jj] == b[jj + 1]);
                } else {
                    assert(self.bucket(i)[jj] == old(self).bucket(i)[jj]);
                }
            }
        }
        result
    }

    // pop one entry from this table for migration
    // used during resizing — grabs the head of the first non-empty bucket
    // at or after *pos
    pub fn pop_one(&mut self, pos: &mut usize) -> (res: Option<Entry>)
        requires
            old(self).wf(),
            old(self).nbuckets() > 0,
        ensures
            final(self).wf(),
            final(self).nbuckets() == old(self).nbuckets(),
            final(self).mask == old(self).mask,
            *old(pos) <= *final(pos),
            forall|i: int| *old(pos) <= i < *final(pos) ==> #[trigger] old(self).bucket(i).len() == 0,
            match res {
                None => {
                    &&& *final(pos) == if *old(pos) <= old(self).mask + 1 {
                        old(self).mask + 1
                    } else {
                        *old(pos) as int
                    }
                    &&& *final(self) == *old(self)
                },
                Some(e) => {
                    let p = *final(pos) as int;
                    &&& p <= old(self).mask
                    &&& old(self).bucket(p).len() > 0
                    &&& e == old(self).bucket(p)[0]
                    &&& final(self).size == old(self).size - 1
                    &&& forall|i: int|
                        0 <= i < old(self).nbuckets() ==> #[trigger] final(self).bucket(i) == if i
                            == p {
                            old(self).bucket(i).drop_first()
                        } else {
                            old(self).bucket(i)
                        }
                },
            },
    {
        let ghost start = *pos;
        let nb = self.buckets.len();
        while *pos <= self.mask
            invariant
                self.wf(),
                self.nbuckets() > 0,
                nb == self.nbuckets(),
                *self == *old(self),
                start == *old(pos),
                *old(pos) <= *pos,
                *pos <= self.mask + 1 || *pos == *old(pos),
                forall|i: int| *old(pos) <= i < *pos ==> #[trigger] old(self).bucket(i).len() == 0,
            decreases self.mask + 1 - *pos,
        {
            if self.buckets[*pos].is_some() {
                let key = self.buckets[*pos].as_ref().unwrap().entry.key.clone();
                let hcode = self.buckets[*pos].as_ref().unwrap().entry.node.hcode;
                let ghost p = *pos as int;
                let ghost b = self.bucket(p);
                proof {
                    assert(self.buckets@[p] == Some(self.buckets@[p].unwrap()));
                    assert(b[0] == self.buckets@[p].unwrap().entry);
                    assert(bucket_index(b[0].node.hcode, self.mask) == p);
                    assert(find(b, key@, hcode) == 0);
                    assert(b.remove(0) =~= b.drop_first());
                }
                return self.remove(key.as_str(), hcode);
            }
            proof {
                assert(old(self).bucket(*pos as int) =~= Seq::<Entry>::empty());
            }
            *pos += 1;
        }
        None
    }
}

// ── the map over two tables ─────────────────────────────────────────────────

/// Some entry of `t` has key `k`.
pub open spec fn has_key(t: HTab, k: Seq<char>) -> bool {
    exists|i: int, j: int|
        0 <= i < t.nbuckets() && 0 <= j < t.bucket(i).len() && #[trigger] t.bucket(i)[j].key@ == k
}

/// Every entry of `t` carries the hash of its key, and `m` maps its key to
/// its value.
pub open spec fn tab_agrees(t: HTab, m: Map<Seq<char>, Seq<char>>) -> bool {
    forall|i: int, j: int|
        #![trigger t.bucket(i)[j]]
        0 <= i < t.nbuckets() && 0 <= j < t.bucket(i).len() ==> {
            let e = t.bucket(i)[j];
            &&& e.node.hcode == string_hash(e.key@)
            &&& m.contains_key(e.key@)
            &&& m[e.key@] == e.val@
        }
}

/// No two entries of a bucket of `t` have the same key.
pub open spec fn tab_unique(t: HTab) -> bool {
    forall|i: int, j1: int, j2: int|
        0 <= i < t.nbuckets() && 0 <= j1 < t.bucket(i).len() && 0 <= j2 < t.bucket(i).len()
            && #[trigger] t.bucket(i)[j1].key@ == #[trigger] t.bucket(i)[j2].key@ ==> j1 == j2
}

/// The bucket of `t` where key `k` belongs.
pub open spec fn home(t: HTab, k: Seq<char>) -> Seq<Entry> {
    t.bucket(bucket_index(string_hash(k), t.mask))
}

/// Looking a key up in its home bucket finds it exactly when the table
/// has it.
proof fn lemma_home_find(t: HTab, m: Map<Seq<char>, Seq<char>>, k: Seq<char>)
    requires
        t.wf(),
        tab_agrees(t, m),
    ensures
        t.nbuckets() > 0 ==> (has_key(t, k) <==> find(home(t, k), k, string_hash(k)) < home(t, k).len()),
        t.nbuckets() == 0 ==> !has_key(t, k),
{
    let h = string_hash(k);
    if t.nbuckets() > 0 {
        let ki = bucket_index(h, t.mask);
        let b = home(t, k);
        lemma_mask_bound(h, t.mask);
        lemma_find(b, k, h);
        if has_key(t, k) {
            let (i, j) = choose|i: int, j: int|
                0 <= i < t.nbuckets() && 0 <= j < t.bucket(i).len() && #[trigger] t.bucket(i)[j].key@ == k;
            assert(t.bucket(i)[j].node.hcode == h);
            assert(i == ki);
            assert(entry_matches(b[j], k, h));
        }
        if find(b, k, h) < b.len() {
            let f = find(b, k, h) as int;
            assert(t.bucket(ki)[f].key@ == k);
        }
    }
}

/// An entry found in its home bucket is the only one with its key.
proof fn lemma_unique_key(t: HTab, m: Map<Seq<char>, Seq<char>>, i: int, j: int, i2: int, j2: int)
    requires
        t.wf(),
        tab_agrees(t, m),
        tab_unique(t),
        0 <= i < t.nbuckets(),
        0 <= j < t.bucket(i).len(),
        0 <= i2 < t.nbuckets(),
        0 <= j2 < t.bucket(i2).len(),
        t.bucket(i)[j].key@ == t.bucket(i2)[j2].key@,
    ensures
        i == i2 && j == j2,
{
    assert(t.bucket(i)[j].node.hcode == t.bucket(i2)[j2].node.hcode);
}

/// `tn` is `t` with bucket `q` replaced by `nb`, all else equal.
pub open spec fn one_bucket_changed(t: HTab, tn: HTab, q: int, nb: Seq<Entry>) -> bool {
    &&& tn.wf()
    &&& tn.nbuckets() == t.nbuckets()
    &&& tn.mask == t.mask
    &&& 0 <= q < t.nbuckets()
    &&& forall|i: int|
        0 <= i < t.nbuckets() ==> #[trigger] tn.bucket(i) == if i == q {
            nb
        } else {
            t.bucket(i)
        }
}

proof fn lemma_agrees_insert(t: HTab, m: Map<Seq<char>, Seq<char>>, k: Seq<char>, v: Seq<char>)
    requires
        tab_agrees(t, m),
        !has_key(t, k),
    ensures
        tab_agrees(t, m.insert(k, v)),
{
    assert forall|i: int, j: int|
        #![trigger t.bucket(i)[j]]
        0 <= i < t.nbuckets() && 0 <= j < t.bucket(i).len() implies t.bucket(i)[j].key@ != k by {
        if t.bucket(i)[j].key@ == k {
            assert(has_key(t, k));
        }
    }
}

proof fn lemma_agrees_remove(t: HTab, m: Map<Seq<char>, Seq<char>>, k: Seq<char>)
    requires
        tab_agrees(t, m),
        !has_key(t, k),
    ensures
        tab_agrees(t, m.remove(k)),
{
    assert forall|i: int, j: int|
        #![trigger t.bucket(i)[j]]
        0 <= i < t.nbuckets() && 0 <= j < t.bucket(i).len() implies t.bucket(i)[j].key@ != k by {
        if t.bucket(i)[j].key@ == k {
            assert(has_key(t, k));
        }
    }
}

/// Putting an entry whose key the table lacks at the front of its home
/// bucket.
proof fn lemma_tab_prepend(t: HTab, tn: HTab, e: Entry, m: Map<Seq<char>, Seq<char>>)
    requires
        t.wf(),
        t.nbuckets() > 0,
        tab_agrees(t, m),
        tab_unique(t),
        !has_key(t, e.key@),
        e.node.hcode == string_hash(e.key@),
        m.contains_key(e.key@),
        m[e.key@] == e.val@,
        one_bucket_changed(
            t,
            tn,
            bucket_index(e.node.hcode, t.mask),
            seq![e] + t.bucket(bucket_index(e.node.hcode, t.mask)),
        ),
    ensures
        tab_agrees(tn, m),
        tab_unique(tn),
        forall|k: Seq<char>| #[trigger] has_key(tn, k) <==> (has_key(t, k) || k == e.key@),
{
    let q = bucket_index(e.node.hcode, t.mask);
    assert forall|i: int, j: int|
        #![trigger tn.bucket(i)[j]]
        0 <= i < tn.nbuckets() && 0 <= j < tn.bucket(i).len() implies (i == q && j == 0 && tn.bucket(i)[j] == e)
        || (i == q && j > 0 && tn.bucket(i)[j] == t.bucket(i)[j - 1])
        || (i != q && tn.bucket(i)[j] == t.bucket(i)[j]) by {
    }
    assert forall|i: int, j1: int, j2: int|
        0 <= i < tn.nbuckets() && 0 <= j1 < tn.bucket(i).len() && 0 <= j2 < tn.bucket(i).len()
            && #[trigger] tn.bucket(i)[j1].key@ == #[trigger] tn.bucket(i)[j2].key@ implies j1 == j2 by {
        if i == q && j1 == 0 && j2 > 0 {
            assert(t.bucket(i)[j2 - 1].key@ == e.key@);
        } else if i == q && j2 == 0 && j1 > 0 {
            assert(t.bucket(i)[j1 - 1].key@ == e.key@);
        } else if i == q && j1 > 0 && j2 > 0 {
            assert(t.bucket(i)[j1 - 1].key@ == t.bucket(i)[j2 - 1].key@);
        } else if i != q {
            assert(t.bucket(i)[j1].key@ == t.bucket(i)[j2].key@);
        }
    }
    assert forall|k: Seq<char>| #[trigger] has_key(tn, k) <==> (has_key(t, k) || k == e.key@) by {
        if has_key(tn, k) {
            let (i, j) = choose|i: int, j: int|
                0 <= i < tn.nbuckets() && 0 <= j < tn.bucket(i).len() && #[trigger] tn.bucket(i)[j].key@ == k;
            if i == q && j > 0 {
                assert(t.bucket(i)[j - 1].key@ == k);
            } else if i != q {
                assert(t.bucket(i)[j].key@ == k);
            }
        }
        if has_key(t, k) {
            let (i, j) = choose|i: int, j: int|
                0 <= i < t.nbuckets() && 0 <= j < t.bucket(i).len() && #[trigger] t.bucket(i)[j].key@ == k;
            if i == q {
                assert(tn.bucket(i)[j + 1].key@ == k);
            } else {
                assert(tn.bucket(i)[j].key@ == k);
            }
        }
        if k == e.key@ {
            assert(tn.bucket(q)[0].key@ == k);
        }
    }
}

/// Taking entry `r` out of bucket `p`.
proof fn lemma_tab_remove(t: HTab, tn: HTab, p: int, r: int, m: Map<Seq<char>, Seq<char>>)
    requires
        t.wf(),
        tab_agrees(t, m),
        tab_unique(t),
        0 <= p < t.nbuckets(),
        0 <= r < t.bucket(p).len(),
        one_bucket_changed(t, tn, p, t.bucket(p).remove(r)),
    ensures
        tab_agrees(tn, m),
        tab_unique(tn),
        forall|k: Seq<char>| #[trigger] has_key(tn, k) <==> (has_key(t, k) && k != t.bucket(p)[r].key@),
{
    let gone = t.bucket(p)[r];
    assert forall|i: int, j: int|
        #![trigger tn.bucket(i)[j]]
        0 <= i < tn.nbuckets() && 0 <= j < tn.bucket(i).len() implies (i == p && j < r && tn.bucket(i)[j] == t.bucket(i)[j])
        || (i == p && j >= r && tn.bucket(i)[j] == t.bucket(i)[j + 1])
        || (i != p && tn.bucket(i)[j] == t.bucket(i)[j]) by {
    }
    assert forall|i: int, j1: int, j2: int|
        0 <= i < tn.nbuckets() && 0 <= j1 < tn.bucket(i).len() && 0 <= j2 < tn.bucket(i).len()
            && #[trigger] tn.bucket(i)[j1].key@ == #[trigger] tn.bucket(i)[j2].key@ implies j1 == j2 by {
        let o1 = if i == p && j1 >= r { j1 + 1 } else { j1 };
        let o2 = if i == p && j2 >= r { j2 + 1 } else { j2 };
        assert(t.bucket(i)[o1].key@ == t.bucket(i)[o2].key@);
    }
    assert forall|k: Seq<char>| #[trigger] has_key(tn, k) <==> (has_key(t, k) && k != gone.key@) by {
        if has_key(tn, k) {
            let (i, j) = choose|i: int, j: int|
                0 <= i < tn.nbuckets() && 0 <= j < tn.bucket(i).len() && #[trigger] tn.bucket(i)[j].key@ == k;
            let o = if i == p && j >= r { j + 1 } else { j };
            assert(t.bucket(i)[o].key@ == k);
            if k == gone.key@ {
                lemma_unique_key(t, m, i, o, p, r);
            }
        }
        if has_key(t, k) && k != gone.key@ {
            let (i, j) = choose|i: int, j: int|
                0 <= i < t.nbuckets() && 0 <= j < t.bucket(i).len() && #[trigger] t.bucket(i)[j].key@ == k;
            if i == p && j > r {
                assert(tn.bucket(i)[j - 1].key@ == k);
            } else {
                assert(tn.bucket(i)[j].key@ == k);
            }
        }
    }
}

/// Replacing the value of entry `r` of bucket `p`.
proof fn lemma_tab_update(t: HTab, tn: HTab, p: int, r: int, e: Entry, m: Map<Seq<char>, Seq<char>>)
    requires
        t.wf(),
        tab_agrees(t, m),
        tab_unique(t),
        0 <= p < t.nbuckets(),
        0 <= r < t.bucket(p).len(),
        e.key@ == t.bucket(p)[r].key@,
        e.node.hcode == t.bucket(p)[r].node.hcode,
        one_bucket_changed(t, tn, p, t.bucket(p).update(r, e)),
    ensures
        tab_agrees(tn, m.insert(e.key@, e.val@)),
        tab_unique(tn),
        forall|k: Seq<char>| #[trigger] has_key(tn, k) <==> has_key(t, k),
{
    let m2 = m.insert(e.key@, e.val@);
    assert forall|i: int, j: int|
        #![trigger tn.bucket(i)[j]]
        0 <= i < tn.nbuckets() && 0 <= j < tn.bucket(i).len() implies {
            let x = tn.bucket(i)[j];
            &&& x.node.hcode == string_hash(x.key@)
            &&& m2.contains_key(x.key@)
            &&& m2[x.key@] == x.val@
        } by {
        if i == p && j == r {
            assert(tn.bucket(i)[j] == e);
            assert(t.bucket(p)[r].node.hcode == string_hash(t.bucket(p)[r].key@));
        } else {
            assert(tn.bucket(i)[j] == t.bucket(i)[j]);
            if t.bucket(i)[j].key@ == e.key@ {
                lemma_unique_key(t, m, i, j, p, r);
            }
        }
    }
    assert forall|i: int, j1: int, j2: int|
        0 <= i < tn.nbuckets() && 0 <= j1 < tn.bucket(i).len() && 0 <= j2 < tn.bucket(i).len()
            && #[trigger] tn.bucket(i)[j1].key@ == #[trigger] tn.bucket(i)[j2].key@ implies j1 == j2 by {
        assert(t.bucket(i)[j1].key@ == tn.bucket(i)[j1].key@);
        assert(t.bucket(i)[j2].key@ == tn.bucket(i)[j2].key@);
    }
    assert forall|k: Seq<char>| #[trigger] has_key(tn, k) <==> has_key(t, k) by {
        if has_key(tn, k) {
            let (i, j) = choose|i: int, j: int|
                0 <= i < tn.nbuckets() && 0 <= j < tn.bucket(i).len() && #[trigger] tn.bucket(i)[j].key@ == k;
            assert(t.bucket(i)[j].key@ == k);
        }
        if has_key(t, k) {
            let (i, j) = choose|i: int, j: int|
                0 <= i < t.nbuckets() && 0 <= j < t.bucket(i).len() && #[trigger] t.bucket(i)[j].key@ == k;
            assert(tn.bucket(i)[j].key@ == k);
        }
    }
}

/// `tn` has the same buckets as `t`.
pub open spec fn same_buckets(t: HTab, tn: HTab) -> bool {
    &&& tn.nbuckets() == t.nbuckets()
    &&& tn.mask == t.mask
    &&& tn.size == t.size
    &&& forall|i: int| 0 <= i < t.nbuckets() ==> #[trigger] tn.bucket(i) == t.bucket(i)
}

proof fn lemma_tab_same(t: HTab, tn: HTab, m: Map<Seq<char>, Seq<char>>)
    requires
        same_buckets(t, tn),
    ensures
        t.wf() ==> tn.wf(),
        tab_agrees(t, m) ==> tab_agrees(tn, m),
        tab_unique(t) ==> tab_unique(tn),
        forall|k: Seq<char>| #[trigger] has_key(tn, k) <==> has_key(t, k),
{
    assert forall|i: int| 0 <= i < t.buckets@.len() implies chain_entries(#[trigger] t.buckets@[i]).len()
        == chain_entries(tn.buckets@[i]).len() by {
        assert(tn.bucket(i) == t.bucket(i));
    }
    lemma_chains_len_same(t.buckets@, tn.buckets@);
    if t.wf() {
        assert forall|i: int, j: int|
            #![trigger tn.bucket(i)[j]]
            0 <= i < tn.nbuckets() && 0 <= j < tn.bucket(i).len() implies bucket_index(
            tn.bucket(i)[j].node.hcode,
            tn.mask,
        ) == i by {
            assert(tn.bucket(i)[j] == t.bucket(i)[j]);
        }
    }
    assert forall|k: Seq<char>| #[trigger] has_key(tn, k) <==> has_key(t, k) by {
        if has_key(tn, k) {
            let (i, j) = choose|i: int, j: int|
                0 <= i < tn.nbuckets() && 0 <= j < tn.bucket(i).len() && #[trigger] tn.bucket(i)[j].key@ == k;
            assert(t.bucket(i)[j].key@ == k);
        }
        if has_key(t, k) {
            let (i, j) = choose|i: int, j: int|
                0 <= i < t.nbuckets() && 0 <= j < t.bucket(i).len() && #[trigger] t.bucket(i)[j].key@ == k;
            assert(tn.bucket(i)[j].key@ == k);
        }
    }
    if tab_unique(t) {
        assert forall|i: int, j1: int, j2: int|
            0 <= i < tn.nbuckets() && 0 <= j1 < tn.bucket(i).len() && 0 <= j2 < tn.bucket(i).len()
                && #[trigger] tn.bucket(i)[j1].key@ == #[trigger] tn.bucket(i)[j2].key@ implies j1 == j2 by {
            assert(t.bucket(i)[j1].key@ == t.bucket(i)[j2].key@);
        }
    }
}

proof fn lemma_chains_len_same(bs1: Seq<Option<Box<ChainNode>>>, bs2: Seq<Option<Box<ChainNode>>>)
    requires
        bs1.len() == bs2.len(),
        forall|i: int| 0 <= i < bs1.len() ==> chain_entries(#[trigger] bs1[i]).len() == chain_entries(bs2[i]).len(),
    ensures
        chains_len(bs1) == chains_len(bs2),
    decreases bs1.len(),
{
    if bs1.len() > 0 {
        lemma_chains_len_same(bs1.drop_last(), bs2.drop_last());
    }
}

proof fn lemma_chains_len_none_left(bs: Seq<Option<Box<ChainNode>>>)
    requires
        forall|i: int| 0 <= i < bs.len() ==> chain_entries(#[trigger] bs[i]).len() == 0,
    ensures
        chains_len(bs) == 0,
    decreases bs.len(),
{
    if bs.len() > 0 {
        lemma_chains_len_none_left(bs.drop_last());
    }
}

proof fn lemma_chains_len_zero(bs: Seq<Option<Box<ChainNode>>>, i: int)
    requires
        chains_len(bs) == 0,
        0 <= i < bs.len(),
    ensures
        chain_entries(bs[i]).len() == 0,
    decreases bs.len(),
{
    if i < bs.len() - 1 {
        lemma_chains_len_zero(bs.drop_last(), i);
    }
}

/// Replacing an entry by one with the same hash code keeps the table
/// well formed.
proof fn lemma_update_wf(t: HTab, tn: HTab, p: int, r: int, e: Entry)
    requires
        t.wf(),
        tn.nbuckets() == t.nbuckets(),
        tn.mask == t.mask,
        tn.size == t.size,
        0 <= p < t.nbuckets(),
        0 <= r < t.bucket(p).len(),
        e.node.hcode == t.bucket(p)[r].node.hcode,
        forall|i: int|
            0 <= i < t.nbuckets() ==> #[trigger] tn.bucket(i) == if i == p {
                t.bucket(p).update(r, e)
            } else {
                t.bucket(i)
            },
    ensures
        tn.wf(),
{
    assert forall|i: int| 0 <= i < t.buckets@.len() implies chain_entries(#[trigger] t.buckets@[i]).len()
        == chain_entries(tn.buckets@[i]).len() by {
        assert(tn.bucket(i).len() == t.bucket(i).len());
    }
    lemma_chains_len_same(t.buckets@, tn.buckets@);
    assert forall|i: int, j: int|
        #![trigger tn.bucket(i)[j]]
        0 <= i < tn.nbuckets() && 0 <= j < tn.bucket(i).len() implies bucket_index(
        tn.bucket(i)[j].node.hcode,
        tn.mask,
    ) == i by {
        assert(tn.bucket(i)[j].node.hcode == t.bucket(i)[j].node.hcode);
    }
}

/// The invariant of a map held in two tables: every entry carries the hash
/// of its key and the map's value for it, each key is in at most one
/// bucket position of one table, every key of the map is in a table, and
/// the sizes add up to the number of keys.
pub open spec fn tables_ok(t1: HTab, t2: HTab, m: Map<Seq<char>, Seq<char>>) -> bool {
    &&& t1.wf()
    &&& t2.wf()
    &&& m.dom().finite()
    &&& t1.size + t2.size == m.len()
    &&& m.len() <= usize::MAX
    &&& tab_agrees(t1, m)
    &&& tab_agrees(t2, m)
    &&& tab_unique(t1)
    &&& tab_unique(t2)
    &&& forall|k: Seq<char>| #[trigger] m.contains_key(k) ==> has_key(t1, k) || has_key(t2, k)
    &&& forall|k: Seq<char>| !(#[trigger] has_key(t1, k) && has_key(t2, k))
}

/// Moving the head of bucket `p` of `t2` to the front of its home bucket
/// in `t1` keeps the invariant.
proof fn lemma_move_entry(t1: HTab, t2: HTab, t1n: HTab, t2n: HTab, m: Map<Seq<char>, Seq<char>>, p: int)
    requires
        tables_ok(t1, t2, m),
        t1.nbuckets() > 0,
        0 <= p < t2.nbuckets(),
        t2.bucket(p).len() > 0,
        t2n.size == t2.size - 1,
        one_bucket_changed(t2, t2n, p, t2.bucket(p).remove(0)),
        t1n.size == t1.size + 1,
        one_bucket_changed(
            t1,
            t1n,
            bucket_index(t2.bucket(p)[0].node.hcode, t1.mask),
            seq![t2.bucket(p)[0]] + t1.bucket(bucket_index(t2.bucket(p)[0].node.hcode, t1.mask)),
        ),
    ensures
        tables_ok(t1n, t2n, m),
{
    let e = t2.bucket(p)[0];
    assert(has_key(t2, e.key@)) by {
        assert(t2.bucket(p)[0].key@ == e.key@);
    }
    lemma_tab_remove(t2, t2n, p, 0, m);
    lemma_tab_prepend(t1, t1n, e, m);
}

proof fn lemma_tables_ok_swap(t1: HTab, t2: HTab, m: Map<Seq<char>, Seq<char>>)
    requires
        tables_ok(t1, t2, m),
    ensures
        tables_ok(t2, t1, m),
{
}

/// Giving a key that table `ta` holds a new value, in place, keeps the
/// invariant for the updated map.
proof fn lemma_set_existing(ta: HTab, tb: HTab, tan: HTab, m: Map<Seq<char>, Seq<char>>, kv: Seq<char>, v: Seq<char>)
    requires
        tables_ok(ta, tb, m),
        ta.nbuckets() > 0,
        find(home(ta, kv), kv, string_hash(kv)) < home(ta, kv).len(),
        tan.nbuckets() == ta.nbuckets(),
        tan.mask == ta.mask,
        tan.size == ta.size,
        ({
            let k = bucket_index(string_hash(kv), ta.mask);
            let b = ta.bucket(k);
            let j = find(b, kv, string_hash(kv)) as int;
            let e2 = tan.bucket(k)[j];
            &&& e2.key == b[j].key
            &&& e2.node == b[j].node
            &&& e2.val@ == v
            &&& forall|i: int|
                0 <= i < ta.nbuckets() ==> #[trigger] tan.bucket(i) == if i == k {
                    b.update(j, e2)
                } else {
                    ta.bucket(i)
                }
        }),
    ensures
        tables_ok(tan, tb, m.insert(kv, v)),
{
    let h = string_hash(kv);
    let k = bucket_index(h, ta.mask);
    let b = ta.bucket(k);
    lemma_mask_bound(h, ta.mask);
    lemma_find(b, kv, h);
    let j = find(b, kv, h) as int;
    let e2 = tan.bucket(k)[j];
    lemma_update_wf(ta, tan, k, j, e2);
    lemma_tab_update(ta, tan, k, j, e2, m);
    lemma_home_find(ta, m, kv);
    lemma_agrees_insert(tb, m, kv, v);
    assert(m.insert(kv, v).len() == m.len());
}

/// Putting an entry for a key that neither table holds at the front of its
/// home bucket in `t1` keeps the invariant for the extended map.
proof fn lemma_set_new(t1: HTab, t2: HTab, t1n: HTab, m: Map<Seq<char>, Seq<char>>, e: Entry)
    requires
        tables_ok(t1, t2, m),
        t1.nbuckets() > 0,
        !has_key(t1, e.key@),
        !has_key(t2, e.key@),
        e.node.hcode == string_hash(e.key@),
        m.len() < usize::MAX,
        t1n.size == t1.size + 1,
        one_bucket_changed(
            t1,
            t1n,
            bucket_index(e.node.hcode, t1.mask),
            seq![e] + t1.bucket(bucket_index(e.node.hcode, t1.mask)),
        ),
    ensures
        tables_ok(t1n, t2, m.insert(e.key@, e.val@)),
{
    let m2 = m.insert(e.key@, e.val@);
    lemma_agrees_insert(t1, m, e.key@, e.val@);
    lemma_agrees_insert(t2, m, e.key@, e.val@);
    lemma_tab_prepend(t1, t1n, e, m2);
}

/// Taking out of table `ta` the entry for a key it holds keeps the
/// invariant for the reduced map.
proof fn lemma_del_found(ta: HTab, tb: HTab, tan: HTab, m: Map<Seq<char>, Seq<char>>, kv: Seq<char>)
    requires
        tables_ok(ta, tb, m),
        ta.nbuckets() > 0,
        find(home(ta, kv), kv, string_hash(kv)) < home(ta, kv).len(),
        tan.size == ta.size - 1,
        one_bucket_changed(
            ta,
            tan,
            bucket_index(string_hash(kv), ta.mask),
            home(ta, kv).remove(find(home(ta, kv), kv, string_hash(kv)) as int),
        ),
    ensures
        tables_ok(tan, tb, m.remove(kv)),
        m.contains_key(kv),
{
    let h = string_hash(kv);
    let k = bucket_index(h, ta.mask);
    let b = ta.bucket(k);
    lemma_mask_bound(h, ta.mask);
    lemma_find(b, kv, h);
    let j = find(b, kv, h) as int;
    lemma_home_find(ta, m, kv);
    lemma_tab_remove(ta, tan, k, j, m);
    lemma_agrees_remove(tan, m, kv);
    lemma_agrees_remove(tb, m, kv);
}

/// The views of a sequence of strings.
pub open spec fn key_views(v: Seq<String>) -> Seq<Seq<char>> {
    v.map_values(|s: String| s@)
}

pub open spec fn entry_keys(s: Seq<Entry>) -> Seq<Seq<char>> {
    s.map_values(|e: Entry| e.key@)
}

/// The keys of buckets `0..n` of `t`, bucket after bucket, each from the
/// head of its chain on.
pub open spec fn tab_keys(t: HTab, n: int) -> Seq<Seq<char>>
    decreases n,
{
    if n <= 0 {
        Seq::empty()
    } else {
        tab_keys(t, n - 1) + entry_keys(t.bucket(n - 1))
    }
}

proof fn lemma_tab_keys(t: HTab, m: Map<Seq<char>, Seq<char>>, n: int)
    requires
        t.wf(),
        tab_agrees(t, m),
        tab_unique(t),
        0 <= n <= t.nbuckets(),
    ensures
        tab_keys(t, n).len() == chains_len(t.buckets@.subrange(0, n)),
        tab_keys(t, n).no_duplicates(),
        forall|k: Seq<char>|
            tab_keys(t, n).contains(k) <==> exists|i: int, j: int|
                0 <= i < n && 0 <= j < t.bucket(i).len() && #[trigger] t.bucket(i)[j].key@ == k,
    decreases n,
{
    if n > 0 {
        lemma_tab_keys(t, m, n - 1);
        let a = tab_keys(t, n - 1);
        let b = entry_keys(t.bucket(n - 1));
        let s = tab_keys(t, n);
        assert(s == a + b);
        assert(t.buckets@.subrange(0, n).drop_last() =~= t.buckets@.subrange(0, n - 1));
        // where each key of the new bucket comes from, and why it is new
        assert forall|x: int| 0 <= x < b.len() implies #[trigger] b[x] == t.bucket(n - 1)[x].key@ && !a.contains(b[x]) by {
            if a.contains(b[x]) {
                let (i, j) = choose|i: int, j: int|
                    0 <= i < n - 1 && 0 <= j < t.bucket(i).len() && #[trigger] t.bucket(i)[j].key@ == b[x];
                lemma_unique_key(t, m, i, j, n - 1, x);
            }
        }
        assert forall|x: int, y: int| 0 <= x < s.len() && 0 <= y < s.len() && x != y implies s[x] != s[y] by {
            if x < a.len() && y >= a.len() {
                assert(s[y] == b[y - a.len()]);
                assert(s[x] == a[x]);
            } else if y < a.len() && x >= a.len() {
                assert(s[x] == b[x - a.len()]);
                assert(s[y] == a[y]);
            } else if x >= a.len() && y >= a.len() {
                if s[x] == s[y] {
                    assert(s[x] == b[x - a.len()]);
                    assert(s[y] == b[y - a.len()]);
                    assert(t.bucket(n - 1)[x - a.len()].key@ == t.bucket(n - 1)[y - a.len()].key@);
                }
            } else {
                assert(s[x] == a[x] && s[y] == a[y]);
            }
        }
        assert forall|k: Seq<char>|
            s.contains(k) <==> exists|i: int, j: int|
                0 <= i < n && 0 <= j < t.bucket(i).len() && #[trigger] t.bucket(i)[j].key@ == k by {
            if s.contains(k) {
                let x = choose|x: int| 0 <= x < s.len() && s[x] == k;
                if x < a.len() {
                    assert(a[x] == k);
                    assert(a.contains(k));
                } else {
                    assert(b[x - a.len()] == k);
                    assert(t.bucket(n - 1)[x - a.len()].key@ == k);
                }
            }
            if exists|i: int, j: int|
                0 <= i < n && 0 <= j < t.bucket(i).len() && #[trigger] t.bucket(i)[j].key@ == k {
                let (i, j) = choose|i: int, j: int|
                    0 <= i < n && 0 <= j < t.bucket(i).len() && #[trigger] t.bucket(i)[j].key@ == k;
                if i < n - 1 {
                    assert(a.contains(k));
                    let x = choose|x: int| 0 <= x < a.len() && a[x] == k;
                    assert(s[x] == k);
                } else {
                    assert(b[j] == k);
                    assert(s[a.len() + j] == k);
                }
            }
        }
    } else {
        assert(t.buckets@.subrange(0, n) =~= Seq::<Option<Box<ChainNode>>>::empty());
    }
}

fn chain_keys(c: &Option<Box<ChainNode>>, out: &mut Vec<String>)
    ensures
        key_views(final(out)@) == key_views(old(out)@) + entry_keys(chain_entries(*c)),
    decreases *c,
{
    match c {
        None => {
            proof {
                assert(key_views(old(out)@) + entry_keys(chain_entries(*c)) =~= key_views(old(out)@));
            }
        },
        Some(node) => {
            out.push(node.entry.key.clone());
            chain_keys(&node.next, out);
            proof {
                assert(key_views(final(out)@) =~= key_views(old(out)@) + entry_keys(chain_entries(*c)));
            }
        },
    }
}

pub struct HMap {
    ht1: HTab,  // active table — all new inserts go here
    ht2: HTab,  // old table — being drained into ht1
    resizing_pos: usize,  // which bucket in ht2 we are currently draining
    contents: Ghost<Map<Seq<char>, Seq<char>>>,
}

impl View for HMap {
    type V = Map<Seq<char>, Seq<char>>;

    closed spec fn view(&self) -> Map<Seq<char>, Seq<char>> {
        self.contents@
    }
}

impl HMap {
    /// The two tables hold, between them, exactly one entry for each key of
    /// the map, with its value; new entries go to `ht1`, and `ht2` is either
    /// bucketless or being drained into `ht1`.
    pub closed spec fn wf(&self) -> bool {
        &&& tables_ok(self.ht1, self.ht2, self.contents@)
        &&& self.contents@.dom().finite()
        &&& self.ht1.nbuckets() > 0
        &&& self.ht2.nbuckets() == 0 ==> self.resizing_pos == 0
        &&& forall|i: int|
            0 <= i < self.resizing_pos && i < self.ht2.nbuckets() ==> #[trigger] self.ht2.bucket(i).len()
                == 0
    }

    /// The number of buckets of the table that new entries go to.
    pub closed spec fn active_buckets(&self) -> int {
        self.ht1.nbuckets()
    }

    /// The number of entries held by the table that new entries go to.
    pub closed spec fn active_len(&self) -> int {
        self.ht1.size as int
    }

    /// Whether an older table is still being drained into the active one.
    pub closed spec fn draining(&self) -> bool {
        self.ht2.nbuckets() > 0
    }

    /// An empty map: one table of four empty buckets, nothing being drained.
    pub fn new() -> (res: Self)
        ensures
            res.wf(),
            res@ == Map::<Seq<char>, Seq<char>>::empty(),
            res@.dom().finite(),
            res.active_buckets() == 4,
            res.active_len() == 0,
            !res.draining(),
    {
        proof {
            reveal_with_fuel(is_pow2, 3);
        }
        let ht1 = HTab::new(4);  // start small, 4 buckets
        let ht2 = HTab { buckets: Vec::new(), mask: 0, size: 0 };
        proof {
            assert(chains_len(ht2.buckets@) == 0);
        }
        HMap { ht1, ht2, resizing_pos: 0, contents: Ghost(Map::empty()) }
    }

    pub fn len(&self) -> (n: usize)
        requires
            self.wf(),
        ensures
            n == self@.len(),
    {
        self.ht1.size + self.ht2.size
    }

    // called on EVERY operation — moves a few nodes from ht2 to ht1
    fn help_resizing(&mut self)
        requires
            old(self).wf(),
        ensures
            final(self).wf(),
            final(self)@ == old(self)@,
            old(self).ht2.nbuckets() == 0 ==> *final(self) == *old(self),
            final(self).ht1.nbuckets() == old(self).ht1.nbuckets(),
            ({
                // the number of entries moved: all of ht2's, up to the work limit
                let moved = if old(self).ht2.nbuckets() == 0 {
                    0
                } else if old(self).ht2.size <= K_RESIZING_WORK {
                    old(self).ht2.size as int
                } else {
                    K_RESIZING_WORK as int
                };
                &&& final(self).ht1.size == old(self).ht1.size + moved
                &&& final(self).ht2.size == old(self).ht2.size - moved
            }),
            old(self).ht2.nbuckets() == 0 || old(self).ht2.size <= K_RESIZING_WORK
                ==> final(self).ht2.nbuckets() == 0 && final(self).resizing_pos == 0,
            old(self).ht2.nbuckets() > 0 && old(self).ht2.size > K_RESIZING_WORK
                ==> final(self).ht2.nbuckets() == old(self).ht2.nbuckets(),
    {
        if self.ht2.buckets.is_empty() {
            return;  // not resizing right now
        }
        let mut work: usize = 0;
        let ghost s1 = self.ht1.size;
        let ghost s2 = self.ht2.size;
        let ghost nb1 = self.ht1.nbuckets();
        let ghost nb2 = self.ht2.nbuckets();
        while work < K_RESIZING_WORK && self.ht2.size > 0
            invariant
                self.wf(),
                self@ == old(self)@,
                self.ht2.nbuckets() == nb2 > 0,
                self.ht1.nbuckets() == nb1,
                work <= K_RESIZING_WORK,
                self.ht1.size == s1 + work,
                self.ht2.size == s2 - work,
            ensures
                self.wf(),
                self@ == old(self)@,
                self.ht2.nbuckets() == nb2 > 0,
                self.ht1.nbuckets() == nb1,
                work <= K_RESIZING_WORK,
                self.ht1.size == s1 + work,
                self.ht2.size == s2 - work,
                work == K_RESIZING_WORK || self.ht2.size == 0,
            decreases K_RESIZING_WORK - work,
        {
            let ghost t1 = self.ht1;
            let ghost t2 = self.ht2;
            let ghost pos0 = self.resizing_pos;
            match self.ht2.pop_one(&mut self.resizing_pos) {
                Some(entry) => {
                    let ghost p = self.resizing_pos as int;
                    proof {
                        assert(t2.bucket(p).drop_first() =~= t2.bucket(p).remove(0));
                    }
                    self.ht1.insert(entry);  // move to ht1
                    proof {
                        lemma_mask_bound(t2.bucket(p)[0].node.hcode, t1.mask);
                        lemma_move_entry(t1, t2, self.ht1, self.ht2, self.contents@, p);
                    }
                    work += 1;
                },
                None => {
                    proof {
                        // every bucket is empty, yet ht2 has entries
                        assert forall|i: int| 0 <= i < t2.buckets@.len() implies chain_entries(
                            #[trigger] t2.buckets@[i],
                        ).len() == 0 by {
                            assert(t2.bucket(i).len() == 0);
                        }
                        lemma_chains_len_none_left(t2.buckets@);
                        assert(false);
                    }
                    break;
                },  // ht2 fully drained
            }
        }

        // if ht2 is empty resizing is done
        if self.ht2.size == 0 {
            let ghost t2 = self.ht2;
            self.ht2 = HTab { buckets: Vec::new(), mask: 0, size: 0 };
            self.resizing_pos = 0;
            proof {
                assert forall|k: Seq<char>| !has_key(t2, k) by {
                    if has_key(t2, k) {
                        let (i, j) = choose|i: int, j: int|
                            0 <= i < t2.nbuckets() && 0 <= j < t2.bucket(i).len() && #[trigger] t2.bucket(i)[j].key@ == k;
                        lemma_chains_len_zero(t2.buckets@, i);
                    }
                }
                assert(chains_len(self.ht2.buckets@) == 0);
            }
        }
    }

    fn start_resizing(&mut self)
        requires
            old(self).wf(),
            old(self).ht2.nbuckets() == 0,
            (old(self).ht1.mask + 1) * 2 <= usize::MAX,
        ensures
            final(self).wf(),
            final(self)@ == old(self)@,
            final(self).ht2 == old(self).ht1,
            final(self).ht1.nbuckets() == 2 * old(self).ht1.nbuckets(),
            final(self).ht1.size == 0,
            final(self).resizing_pos == 0,
    {
        // swap ht1 into ht2
        // make a fresh ht1 twice the size
        let new_size = (self.ht1.mask + 1) * 2;
        proof {
            assert(new_size / 2 == self.ht1.mask + 1);
        }
        let mut old_ht1 = HTab::new(new_size);
        std::mem::swap(&mut self.ht1, &mut old_ht1);
        let ghost t2 = self.ht2;
        self.ht2 = old_ht1;
        self.resizing_pos = 0;
        proof {
            assert(chains_len(t2.buckets@) == 0);
            assert forall|k: Seq<char>| !has_key(self.ht1, k) by {
                if has_key(self.ht1, k) {
                    let (i, j) = choose|i: int, j: int|
                        0 <= i < self.ht1.nbuckets() && 0 <= j < self.ht1.bucket(i).len() && #[trigger] self.ht1.bucket(i)[j].key@ == k;
                    assert(self.ht1.bucket(i).len() == 0);
                }
            }
        }
    }

    /// The value of `key`, if the map has it.
    pub fn get(&mut self, key: &str) -> (res: Option<String>)
        requires
            old(self).wf(),
        ensures
            final(self).wf(),
            final(self)@ == old(self)@,
            final(self)@.dom().finite(),
            match res {
                Some(v) => old(self)@.contains_key(key@) && v@ == old(self)@[key@],
                None => !old(self)@.contains_key(key@),
            },
    {
        self.help_resizing();
        let hcode = str_hash(key);
        proof {
            let m = self.contents@;
            lemma_home_find(self.ht1, m, key@);
            lemma_home_find(self.ht2, m, key@);
            lemma_find(home(self.ht1, key@), key@, hcode);
            lemma_find(home(self.ht2, key@), key@, hcode);
        }
        if let Some(e) = self.ht1.lookup(key, hcode) {
            proof {
                let k = bucket_index(hcode, self.ht1.mask);
                lemma_mask_bound(hcode, self.ht1.mask);
                let j = find(self.ht1.bucket(k), key@, hcode) as int;
                assert(self.ht1.bucket(k)[j] == *e);
            }
            return Some(e.val.clone());
        }
        match self.ht2.lookup(key, hcode) {
            Some(e) => {
                proof {
                    let k = bucket_index(hcode, self.ht2.mask);
                    lemma_mask_bound(hcode, self.ht2.mask);
                    let j = find(self.ht2.bucket(k), key@, hcode) as int;
                    assert(self.ht2.bucket(k)[j] == *e);
                }
                Some(e.val.clone())
            },
            None => None,
        }
    }

    /// Maps `key` to `val`, replacing any value it had.
    pub fn set(&mut self, key: String, val: String)
        requires
            old(self).wf(),
            old(self)@.contains_key(key@) || old(self)@.len() < usize::MAX,
        ensures
            final(self).wf(),
            final(self)@ == old(self)@.insert(key@, val@),
            final(self)@.dom().finite(),
            // when no table is being drained, a new key that brings the active
            // table's load to K_MAX_LOAD_FACTOR starts a resize: the active
            // table is set aside to be drained into one of twice its buckets
            !old(self).draining() && !old(self)@.contains_key(key@) && (old(self).active_len() + 1)
                / old(self).active_buckets() >= K_MAX_LOAD_FACTOR ==> {
                &&& final(self).draining()
                &&& final(self).active_buckets() == 2 * old(self).active_buckets()
                &&& final(self).active_len() == 0
            },
            // otherwise, with no table being drained, the layout stays
            !old(self).draining() && (old(self)@.contains_key(key@) || (old(self).active_len() + 1)
                / old(self).active_buckets() < K_MAX_LOAD_FACTOR) ==> {
                &&& !final(self).draining()
                &&& final(self).active_buckets() == old(self).active_buckets()
                &&& final(self).active_len() == old(self).active_len() + if old(self)@.contains_key(
                    key@,
                ) {
                    0int
                } else {
                    1int
                }
            },
    {
        self.help_resizing();
        let hcode = str_hash(key.as_str());
        let ghost m = self.contents@;
        let ghost kv = key@;
        let ghost v = val@;
        let ghost t1 = self.ht1;
        let ghost t2 = self.ht2;
        proof {
            lemma_home_find(t1, m, kv);
            lemma_home_find(t2, m, kv);
            lemma_find(home(t1, kv), kv, hcode);
            lemma_find(home(t2, kv), kv, hcode);
            lemma_mask_bound(hcode, t1.mask);
            lemma_mask_bound(hcode, t2.mask);
        }

        // if key already exists update it in place
        if let Some(entry) = self.ht1.lookup_mut(key.as_str(), hcode) {
            entry.val = val;
            proof {
                lemma_set_existing(t1, t2, self.ht1, m, kv, v);
            }
            self.contents = Ghost(m.insert(kv, v));
            return;
        }
        let ghost t1b = self.ht1;
        proof {
            lemma_tab_same(t1, t1b, m);
            lemma_tables_ok_swap(t1b, t2, m);
        }
        if let Some(entry) = self.ht2.lookup_mut(key.as_str(), hcode) {
            entry.val = val;
            proof {
                lemma_set_existing(t2, t1b, self.ht2, m, kv, v);
                lemma_tables_ok_swap(self.ht2, t1b, m.insert(kv, v));
                assert forall|i: int| 0 <= i < self.resizing_pos && i < self.ht2.nbuckets() implies #[trigger] self.ht2.bucket(i).len() == 0 by {
                    assert(self.ht2.bucket(i).len() == t2.bucket(i).len());
                }
            }
            self.contents = Ghost(m.insert(kv, v));
            return;
        }
        let ghost t2b = self.ht2;
        proof {
            lemma_tab_same(t2, t2b, m);
            assert forall|i: int| 0 <= i < self.resizing_pos && i < t2b.nbuckets() implies #[trigger] t2b.bucket(i).len() == 0 by {
                assert(t2b.bucket(i) == t2.bucket(i));
            }
        }

        // new key — insert into ht1
        let e = Entry::new(key, val);
        let ghost ge = e;
        self.ht1.insert(e);
        proof {
            lemma_mask_bound(hcode, t1.mask);
            lemma_set_new(t1b, t2b, self.ht1, m, ge);
        }
        self.contents = Ghost(m.insert(kv, v));

        // check if we need to start resizing
        proof {
            assert(self.ht1.buckets.len() == self.ht1.nbuckets());
        }
        let load = self.ht1.size / (self.ht1.mask + 1);
        if load >= K_MAX_LOAD_FACTOR && self.ht2.buckets.is_empty() {
            proof {
                let n: int = self.ht1.mask + 1;
                let sz: int = self.ht1.size as int;
                assert(sz / n == load);
                assert(sz >= 8 * n) by (nonlinear_arith)
                    requires
                        sz / n >= 8,
                        n > 0,
                ;
            }
            self.start_resizing();
        }
    }

    /// Removes `key`; returns whether the map had it.
    pub fn del(&mut self, key: &str) -> (deleted: bool)
        requires
            old(self).wf(),
        ensures
            final(self).wf(),
            deleted == old(self)@.contains_key(key@),
            final(self)@ == old(self)@.remove(key@),
            final(self)@.dom().finite(),
    {
        self.help_resizing();
        let hcode = str_hash(key);
        let ghost m = self.contents@;
        let ghost t1 = self.ht1;
        let ghost t2 = self.ht2;
        proof {
            lemma_home_find(t1, m, key@);
            lemma_home_find(t2, m, key@);
            lemma_find(home(t1, key@), key@, hcode);
            lemma_find(home(t2, key@), key@, hcode);
            lemma_mask_bound(hcode, t1.mask);
            lemma_mask_bound(hcode, t2.mask);
        }

        // try ht1 first then ht2
        if self.ht1.remove(key, hcode).is_some() {
            proof {
                lemma_del_found(t1, t2, self.ht1, m, key@);
            }
            self.contents = Ghost(m.remove(key@));
            return true;
        }
        let ghost t1b = self.ht1;
        proof {
            lemma_tab_same(t1, t1b, m);
            lemma_tables_ok_swap(t1b, t2, m);
        }
        if self.ht2.remove(key, hcode).is_some() {
            proof {
                lemma_del_found(t2, t1b, self.ht2, m, key@);
                lemma_tables_ok_swap(self.ht2, t1b, m.remove(key@));
            }
            self.contents = Ghost(m.remove(key@));
            return true;
        }
        proof {
            lemma_tab_same(t2, self.ht2, m);
            assert(m.remove(key@) =~= m);
        }
        false
    }

    /// The keys of the map, each once, in no particular order.
    pub fn all_keys(&self) -> (keys: Vec<String>)
        requires
            self.wf(),
        ensures
            key_views(keys@).no_duplicates(),
            key_views(keys@).to_set() == self@.dom(),
            keys@.len() == self@.len(),
    {
        let mut keys: Vec<String> = Vec::new();
        self.ht1.keys_into(&mut keys);
        self.ht2.keys_into(&mut keys);
        proof {
            let m = self.contents@;
            let t1 = self.ht1;
            let t2 = self.ht2;
            lemma_tab_keys(t1, m, t1.nbuckets());
            lemma_tab_keys(t2, m, t2.nbuckets());
            assert(t1.buckets@.subrange(0, t1.nbuckets()) =~= t1.buckets@);
            assert(t2.buckets@.subrange(0, t2.nbuckets()) =~= t2.buckets@);
            let a = tab_keys(t1, t1.nbuckets());
            let b = tab_keys(t2, t2.nbuckets());
            let s = key_views(keys@);
            assert(s =~= a + b);
            assert forall|k: Seq<char>| a.contains(k) <==> has_key(t1, k) by {
                if has_key(t1, k) {
                    let (i, j) = choose|i: int, j: int|
                        0 <= i < t1.nbuckets() && 0 <= j < t1.bucket(i).len() && #[trigger] t1.bucket(i)[j].key@ == k;
                }
            }
            assert forall|k: Seq<char>| b.contains(k) <==> has_key(t2, k) by {
                if has_key(t2, k) {
                    let (i, j) = choose|i: int, j: int|
                        0 <= i < t2.nbuckets() && 0 <= j < t2.bucket(i).len() && #[trigger] t2.bucket(i)[j].key@ == k;
                }
            }
            assert forall|k: Seq<char>| has_key(t1, k) ==> m.contains_key(k) by {
                if has_key(t1, k) {
                    let (i, j) = choose|i: int, j: int|
                        0 <= i < t1.nbuckets() && 0 <= j < t1.bucket(i).len() && #[trigger] t1.bucket(i)[j].key@ == k;
                }
            }
            assert forall|k: Seq<char>| has_key(t2, k) ==> m.contains_key(k) by {
                if has_key(t2, k) {
                    let (i, j) = choose|i: int, j: int|
                        0 <= i < t2.nbuckets() && 0 <= j < t2.bucket(i).len() && #[trigger] t2.bucket(i)[j].key@ == k;
                }
            }
            assert forall|x: int, y: int| 0 <= x < s.len() && 0 <= y < s.len() && x != y implies s[x] != s[y] by {
                if x < a.len() && y >= a.len() {
                    assert(s[x] == a[x] && s[y] == b[y - a.len()]);
                    assert(a.contains(s[x]));
                    assert(b.contains(s[y]));
                } else if y < a.len() && x >= a.len() {
                    assert(s[y] == a[y] && s[x] == b[x - a.len()]);
                    assert(a.contains(s[y]));
                    assert(b.contains(s[x]));
                } else if x >= a.len() && y >= a.len() {
                    assert(s[x] == b[x - a.len()] && s[y] == b[y - a.len()]);
                } else {
                    assert(s[x] == a[x] && s[y] == a[y]);
                }
            }
            assert forall|k: Seq<char>| s.to_set().contains(k) <==> m.dom().contains(k) by {
                if s.contains(k) {
                    let x = choose|x: int| 0 <= x < s.len() && s[x] == k;
                    if x < a.len() {
                        assert(a[x] == k);
                        assert(a.contains(k));
                    } else {
                        assert(b[x - a.len()] == k);
                        assert(b.contains(k));
                    }
                }
                if m.dom().contains(k) {
                    if a.contains(k) {
                        let x = choose|x: int| 0 <= x < a.len() && a[x] == k;
                        assert(s[x] == k);
                    } else {
                        assert(b.contains(k));
                        let x = choose|x: int| 0 <= x < b.len() && b[x] == k;
                        assert(s[a.len() + x] == k);
                    }
                }
            }
            assert(s.to_set() =~= m.dom());
            assert(a.len() == t1.size);
            assert(b.len() == t2.size);
            assert(keys@.len() == s.len());
            assert(t1.size + t2.size == m.len());
        }
        keys
    }
}

// ── laws ────────────────────────────────────────────────────────────────────

/// After `set(k, v)`, `get(k)` returns `v`, `del(k)` returns true, and every
/// other key keeps its value.
pub proof fn law_set_then_read(m: Map<Seq<char>, Seq<char>>, k: Seq<char>, v: Seq<char>, other: Seq<char>)
    requires
        other != k,
    ensures
        m.insert(k, v).contains_key(k),
        m.insert(k, v)[k] == v,
        m.insert(k, v).contains_key(other) == m.contains_key(other),
        m.contains_key(other) ==> m.insert(k, v)[other] == m[other],
{
}

/// After `del(k)`, `get(k)` returns nothing, a second `del(k)` returns
/// false, and every other key keeps its value.
pub proof fn law_del_then_read(m: Map<Seq<char>, Seq<char>>, k: Seq<char>, other: Seq<char>)
    requires
        other != k,
    ensures
        !m.remove(k).contains_key(k),
        m.remove(k).remove(k) == m.remove(k),
        m.remove(k).contains_key(other) == m.contains_key(other),
        m.contains_key(other) ==> m.remove(k)[other] == m[other],
{
    assert(m.remove(k).remove(k) =~= m.remove(k));
}

/// `len` counts keys: `set` of a new key adds one, `set` of a present key
/// adds none, `del` of a present key takes one away.
pub proof fn law_len(m: Map<Seq<char>, Seq<char>>, k: Seq<char>, v: Seq<char>)
    requires
        m.dom().finite(),
    ensures
        m.insert(k, v).len() == if m.contains_key(k) { m.len() } else { m.len() + 1 },
        m.remove(k).len() == if m.contains_key(k) { m.len() - 1 } else { m.len() as int },
{
    if m.contains_key(k) {
        assert(m.insert(k, v).dom() =~= m.dom());
    } else {
        assert(m.remove(k).dom() =~= m.dom());
    }
}

/// `set` of a key the map lacks, then `del` of it, gives back the map it
/// was: the first `del` returns true, a second returns false, and `len` is
/// what it was before the `set`.
pub proof fn law_set_then_del(m: Map<Seq<char>, Seq<char>>, k: Seq<char>, v: Seq<char>)
    requires
        m.dom().finite(),
        !m.contains_key(k),
    ensures
        m.insert(k, v).contains_key(k),
        m.insert(k, v).remove(k) == m,
        !m.insert(k, v).remove(k).contains_key(k),
        m.insert(k, v).remove(k).len() == m.len(),
{
    assert(m.insert(k, v).remove(k) =~= m);
}

} // verus!
