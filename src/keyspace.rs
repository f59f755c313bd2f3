//! The content of one state: entries kept sorted by trie key, so that the
//! root is a function of the key-value set alone.
use vstd::prelude::*;
use crate::bytes::{
    bytes_copy, bytes_eq, bytes_has_prefix, bytes_lt, is_prefix, lemma_lex_asymmetric,
    lemma_lex_irreflexive, lemma_lex_transitive, lemma_lex_trichotomy, lex_lt,
};
use crate::hash::{keccak_bytes, keccak_of};

verus! {

/// One stored pair: the trie key (digest of the storage key), the storage key
/// itself (kept for prefix deletion) and the value.
pub struct Entry {
    pub key_hash: Vec<u8>,
    pub key: Vec<u8>,
    pub value: Vec<u8>,
}

/// What a state holds: trie key to (storage key, value).
pub type Contents = Map<Seq<u8>, (Seq<u8>, Seq<u8>)>;

/// An entry as plain values.
pub type Row = (Seq<u8>, Seq<u8>, Seq<u8>);

pub open spec fn row_of(e: Entry) -> Row {
    (e.key_hash@, e.key@, e.value@)
}

pub open spec fn rows_of(s: Seq<Entry>) -> Seq<Row> {
    s.map_values(|e: Entry| row_of(e))
}

/// Rows strictly increasing by trie key.
pub open spec fn sorted(r: Seq<Row>) -> bool {
    forall|i: int, j: int| 0 <= i < j < r.len() ==> lex_lt(#[trigger] r[i].0, #[trigger] r[j].0)
}

/// The rows list exactly the pairs of `m`.
pub open spec fn represents(r: Seq<Row>, m: Contents) -> bool {
    &&& forall|i: int|
        0 <= i < r.len() ==> m.contains_key(#[trigger] r[i].0) && m[r[i].0] == (r[i].1, r[i].2)
    &&& forall|t: Seq<u8>| #[trigger] m.contains_key(t) ==> exists|i: int| 0 <= i < r.len() && r[i].0 == t
}

/// The sorted listing of a content map.
pub open spec fn canonical(m: Contents) -> Seq<Row> {
    choose|r: Seq<Row>| sorted(r) && represents(r, m)
}

/// Eight bytes, most significant first.
pub open spec fn be8(n: u64) -> Seq<u8> {
    seq![
        (n >> 56u64) as u8,
        (n >> 48u64) as u8,
        (n >> 40u64) as u8,
        (n >> 32u64) as u8,
        (n >> 24u64) as u8,
        (n >> 16u64) as u8,
        (n >> 8u64) as u8,
        n as u8,
    ]
}

/// The leaves of rows: (trie key, value), which is what the root covers.
pub open spec fn leaves(r: Seq<Row>) -> Seq<(Seq<u8>, Seq<u8>)> {
    r.map_values(|x: Row| (x.0, x.2))
}

/// Leaves strictly increasing by trie key.
pub open spec fn sorted_leaves(l: Seq<(Seq<u8>, Seq<u8>)>) -> bool {
    forall|i: int, j: int| 0 <= i < j < l.len() ==> lex_lt(#[trigger] l[i].0, #[trigger] l[j].0)
}

/// The value of the leaf with trie key `t`, if any.
pub open spec fn leaf_lookup(l: Seq<(Seq<u8>, Seq<u8>)>, t: Seq<u8>) -> Option<Seq<u8>> {
    if exists|i: int| 0 <= i < l.len() && l[i].0 == t {
        Some(l[choose|i: int| 0 <= i < l.len() && l[i].0 == t].1)
    } else {
        None
    }
}

/// A leaf as hashed into the root: trie key, value length, value.
pub open spec fn leaf_bytes(x: (Seq<u8>, Seq<u8>)) -> Seq<u8> {
    x.0 + be8(x.1.len() as u64) + x.1
}

pub open spec fn encode(l: Seq<(Seq<u8>, Seq<u8>)>) -> Seq<u8>
    decreases l.len(),
{
    if l.len() == 0 {
        Seq::empty()
    } else {
        encode(l.drop_last()) + leaf_bytes(l.last())
    }
}

/// The root of a content map: the digest of the encoding of its leaves in
/// trie-key order.
pub open spec fn root_of(m: Contents) -> Seq<u8> {
    keccak_of(encode(leaves(canonical(m))))
}

/// The trie key of a storage key.
pub open spec fn trie_key(key: Seq<u8>) -> Seq<u8> {
    keccak_of(key)
}

/// Content with the entries whose storage key starts with `p` taken out.
pub open spec fn without_prefix(m: Contents, p: Seq<u8>) -> Contents {
    Map::new(|t: Seq<u8>| m.contains_key(t) && !is_prefix(p, m[t].0), |t: Seq<u8>| m[t])
}

/// The (storage key, value) pairs of the rows whose storage key starts with `p`, in order.
pub open spec fn prefixed_pairs(r: Seq<Row>, p: Seq<u8>) -> Seq<(Seq<u8>, Seq<u8>)>
    decreases r.len(),
{
    if r.len() == 0 {
        Seq::empty()
    } else if is_prefix(p, r.last().1) {
        prefixed_pairs(r.drop_last(), p).push((r.last().1, r.last().2))
    } else {
        prefixed_pairs(r.drop_last(), p)
    }
}

pub open spec fn pairs_of(v: Seq<(Vec<u8>, Vec<u8>)>) -> Seq<(Seq<u8>, Seq<u8>)> {
    v.map_values(|x: (Vec<u8>, Vec<u8>)| (x.0@, x.1@))
}

pub open spec fn opt_bytes(o: Option<Vec<u8>>) -> Option<Seq<u8>> {
    match o {
        Some(v) => Some(v@),
        None => None,
    }
}

/// Two sorted listings of the same content are the same.
pub proof fn lemma_canonical_unique(r1: Seq<Row>, r2: Seq<Row>, m: Contents)
    requires
        sorted(r1),
        sorted(r2),
        represents(r1, m),
        represents(r2, m),
    ensures
        r1 == r2,
    decreases r1.len(),
{
    if r1.len() == 0 {
        if r2.len() > 0 {
            assert(m.contains_key(r2[0].0));
        }
        assert(r1 =~= r2);
    } else {
        if r2.len() == 0 {
            assert(m.contains_key(r1[0].0));
        }
        let k1 = r1[0].0;
        let k2 = r2[0].0;
        assert(m.contains_key(k1));
        assert(m.contains_key(k2));
        let j = choose|j: int| 0 <= j < r2.len() && r2[j].0 == k1;
        let i = choose|i: int| 0 <= i < r1.len() && r1[i].0 == k2;
        if k1 != k2 {
            assert(lex_lt(r2[0].0, r2[j].0));
            assert(lex_lt(r1[0].0, r1[i].0));
            lemma_lex_asymmetric(k1, k2);
        }
        let t1 = r1.drop_first();
        let t2 = r2.drop_first();
        let m2 = m.remove(k1);
        assert forall|a: int| 0 <= a < t1.len() implies m2.contains_key(#[trigger] t1[a].0) && m2[t1[a].0] == (t1[a].1, t1[a].2) by {
            assert(lex_lt(r1[0].0, r1[a + 1].0));
            lemma_lex_irreflexive(k1);
        }
        assert forall|a: int| 0 <= a < t2.len() implies m2.contains_key(#[trigger] t2[a].0) && m2[t2[a].0] == (t2[a].1, t2[a].2) by {
            assert(lex_lt(r2[0].0, r2[a + 1].0));
            lemma_lex_irreflexive(k1);
        }
        assert forall|t: Seq<u8>| #[trigger] m2.contains_key(t) implies exists|a: int| 0 <= a < t1.len() && t1[a].0 == t by {
            assert(m.contains_key(t));
            let a = choose|a: int| 0 <= a < r1.len() && r1[a].0 == t;
            assert(t1[a - 1].0 == t);
        }
        assert forall|t: Seq<u8>| #[trigger] m2.contains_key(t) implies exists|a: int| 0 <= a < t2.len() && t2[a].0 == t by {
            assert(m.contains_key(t));
            let a = choose|a: int| 0 <= a < r2.len() && r2[a].0 == t;
            assert(t2[a - 1].0 == t);
        }
        assert(sorted(t1)) by {
            assert forall|a: int, b: int| 0 <= a < b < t1.len() implies lex_lt(#[trigger] t1[a].0, #[trigger] t1[b].0) by {
                assert(lex_lt(r1[a + 1].0, r1[b + 1].0));
            }
        }
        assert(sorted(t2)) by {
            assert forall|a: int, b: int| 0 <= a < b < t2.len() implies lex_lt(#[trigger] t2[a].0, #[trigger] t2[b].0) by {
                assert(lex_lt(r2[a + 1].0, r2[b + 1].0));
            }
        }
        lemma_canonical_unique(t1, t2, m2);
        assert(r1[0] == r2[0]);
        assert forall|a: int| 0 <= a < r1.len() implies r1[a] == r2[a] by {
            if a > 0 {
                assert(r1[a] == t1[a - 1]);
            }
        }
        assert(r1 =~= r2);
    }
}

/// A sorted listing of `m` is its canonical one.
pub proof fn lemma_canonical_is(r: Seq<Row>, m: Contents)
    requires
        sorted(r),
        represents(r, m),
    ensures
        canonical(m) == r,
{
    let c = canonical(m);
    assert(sorted(c) && represents(c, m));
    lemma_canonical_unique(c, r, m);
}


fn entry_copy(e: &Entry) -> (r: Entry)
    ensures
        row_of(r) == row_of(*e),
{
    Entry { key_hash: bytes_copy(&e.key_hash), key: bytes_copy(&e.key), value: bytes_copy(&e.value) }
}

/// Appends `b` to `out`.
fn append_bytes(out: &mut Vec<u8>, b: &Vec<u8>)
    ensures
        final(out)@ == old(out)@ + b@,
{
    let mut i: usize = 0;
    while i < b.len()
        invariant
            i <= b.len(),
            out@ == old(out)@ + b@.subrange(0, i as int),
        decreases b.len() - i,
    {
        out.push(b[i]);
        i = i + 1;
        assert(out@ =~= old(out)@ + b@.subrange(0, i as int));
    }
    assert(b@.subrange(0, b@.len() as int) =~= b@);
}

/// The encoding of leaves that the root is the digest of.
pub fn encode_leaves(l: &Vec<(Vec<u8>, Vec<u8>)>) -> (r: Vec<u8>)
    ensures
        r@ == encode(pairs_of(l@)),
{
    let ghost p = pairs_of(l@);
    let mut out: Vec<u8> = Vec::new();
    let mut i: usize = 0;
    while i < l.len()
        invariant
            i <= l@.len(),
            p == pairs_of(l@),
            out@ == encode(p.take(i as int)),
        decreases l@.len() - i,
    {
        let leaf = &l[i];
        append_bytes(&mut out, &leaf.0);
        let n: u64 = leaf.1.len() as u64;
        out.push((n >> 56u64) as u8);
        out.push((n >> 48u64) as u8);
        out.push((n >> 40u64) as u8);
        out.push((n >> 32u64) as u8);
        out.push((n >> 24u64) as u8);
        out.push((n >> 16u64) as u8);
        out.push((n >> 8u64) as u8);
        out.push(n as u8);
        append_bytes(&mut out, &leaf.1);
        proof {
            assert(p.take(i + 1).drop_last() =~= p.take(i as int));
            assert(p.take(i + 1).last() == p[i as int]);
        }
        i = i + 1;
        assert(out@ =~= encode(p.take(i as int)));
    }
    assert(p.take(i as int) =~= p);
    out
}

/// The leaves of a sorted listing are sorted, and looking a trie key up in
/// them finds the value that the content holds.
pub proof fn lemma_leaves_of_canonical(r: Seq<Row>, m: Contents, t: Seq<u8>)
    requires
        sorted(r),
        represents(r, m),
    ensures
        sorted_leaves(leaves(r)),
        leaf_lookup(leaves(r), t) == (if m.contains_key(t) { Some(m[t].1) } else { None }),
{
    let l = leaves(r);
    assert forall|i: int, j: int| 0 <= i < j < l.len() implies lex_lt(#[trigger] l[i].0, #[trigger] l[j].0) by {
        assert(lex_lt(r[i].0, r[j].0));
    }
    if m.contains_key(t) {
        let a = choose|a: int| 0 <= a < r.len() && r[a].0 == t;
        assert(l[a].0 == t);
        let c = choose|i: int| 0 <= i < l.len() && l[i].0 == t;
        if c != a {
            lemma_lex_irreflexive(t);
            if c < a {
                assert(lex_lt(r[c].0, r[a].0));
            } else {
                assert(lex_lt(r[a].0, r[c].0));
            }
        }
    } else {
        if exists|i: int| 0 <= i < l.len() && l[i].0 == t {
            let c = choose|i: int| 0 <= i < l.len() && l[i].0 == t;
            assert(m.contains_key(r[c].0));
        }
    }
}

/// Where `key_hash` stands, or would stand, in sorted rows.
proof fn lemma_slot(r: Seq<Row>, m: Contents, kh: Seq<u8>, i: int)
    requires
        sorted(r),
        represents(r, m),
        0 <= i <= r.len(),
        forall|j: int| 0 <= j < i ==> lex_lt(#[trigger] r[j].0, kh),
        i < r.len() ==> !lex_lt(r[i].0, kh),
        i == r.len() || r[i].0 != kh,
    ensures
        !m.contains_key(kh),
        forall|j: int| i <= j < r.len() ==> lex_lt(kh, #[trigger] r[j].0),
{
    if i < r.len() {
        lemma_lex_trichotomy(kh, r[i].0);
        assert forall|j: int| i <= j < r.len() implies lex_lt(kh, #[trigger] r[j].0) by {
            if j > i {
                assert(lex_lt(r[i].0, r[j].0));
                lemma_lex_transitive(kh, r[i].0, r[j].0);
            }
        }
    }
    if m.contains_key(kh) {
        let a = choose|a: int| 0 <= a < r.len() && r[a].0 == kh;
        if a < i {
            lemma_lex_irreflexive(kh);
        } else {
            lemma_lex_irreflexive(kh);
        }
    }
}

/// `x` is one of the first `i` rows.
spec fn in_first(r: Seq<Row>, i: int, x: Row) -> bool {
    exists|j: int| 0 <= j < i && r[j] == x
}

/// What the prefix sweep has kept after looking at the first `i` rows: the
/// rows without the prefix, in their order.
spec fn kept_so_far(r: Seq<Row>, k: Seq<Row>, i: int, p: Seq<u8>) -> bool {
    &&& sorted(k)
    &&& forall|a: int| 0 <= a < k.len() ==> in_first(r, i, #[trigger] k[a]) && !is_prefix(p, k[a].1)
    &&& forall|j: int| 0 <= j < i && !is_prefix(p, #[trigger] r[j].1) ==> k.contains(r[j])
}

proof fn lemma_skip_step(r: Seq<Row>, k: Seq<Row>, i: int, p: Seq<u8>)
    requires
        0 <= i < r.len(),
        kept_so_far(r, k, i, p),
        is_prefix(p, r[i].1),
    ensures
        kept_so_far(r, k, i + 1, p),
{
    assert forall|a: int| 0 <= a < k.len() implies in_first(r, i + 1, #[trigger] k[a]) by {
        let j = choose|j: int| 0 <= j < i && r[j] == k[a];
        assert(r[j] == k[a]);
    }
}

proof fn lemma_keep_step(r: Seq<Row>, k: Seq<Row>, i: int, p: Seq<u8>)
    requires
        0 <= i < r.len(),
        sorted(r),
        kept_so_far(r, k, i, p),
        !is_prefix(p, r[i].1),
    ensures
        kept_so_far(r, k.push(r[i]), i + 1, p),
{
    let k1 = k.push(r[i]);
    assert forall|a: int, b: int| 0 <= a < b < k1.len() implies lex_lt(#[trigger] k1[a].0, #[trigger] k1[b].0) by {
        assert(k[a] == k1[a]);
        if b < k.len() {
            assert(k[b] == k1[b]);
        } else {
            assert(in_first(r, i, k[a]));
            let j = choose|j: int| 0 <= j < i && r[j] == k[a];
            assert(lex_lt(r[j].0, r[i].0));
        }
    }
    assert forall|a: int| 0 <= a < k1.len() implies in_first(r, i + 1, #[trigger] k1[a]) && !is_prefix(p, k1[a].1) by {
        if a < k.len() {
            assert(k[a] == k1[a]);
            assert(in_first(r, i, k[a]));
            let j = choose|j: int| 0 <= j < i && r[j] == k[a];
            assert(r[j] == k1[a]);
        } else {
            assert(r[i] == k1[a]);
        }
    }
    assert forall|j: int| 0 <= j < i + 1 && !is_prefix(p, #[trigger] r[j].1) implies k1.contains(r[j]) by {
        if j < i {
            assert(k.contains(r[j]));
            let a = choose|a: int| 0 <= a < k.len() && k[a] == r[j];
            assert(k1[a] == r[j]);
        } else {
            assert(k1[k.len() as int] == r[j]);
        }
    }
}

/// The entries of one state, sorted by trie key.
pub struct KeySpace {
    entries: Vec<Entry>,
    model: Ghost<Contents>,
}

impl View for KeySpace {
    type V = Contents;

    closed spec fn view(&self) -> Contents {
        self.model@
    }
}

impl KeySpace {
    pub closed spec fn wf(&self) -> bool {
        sorted(rows_of(self.entries@)) && represents(rows_of(self.entries@), self.model@)
    }

    pub fn new() -> (r: Self)
        ensures
            r.wf(),
            r@ == Map::<Seq<u8>, (Seq<u8>, Seq<u8>)>::empty(),
    {
        KeySpace { entries: Vec::new(), model: Ghost(Map::empty()) }
    }

    fn find_slot(&self, kh: &Vec<u8>) -> (i: usize)
        requires
            self.wf(),
        ensures
            i <= self.entries@.len(),
            forall|j: int| 0 <= j < i ==> lex_lt(#[trigger] rows_of(self.entries@)[j].0, kh@),
            i < self.entries@.len() ==> !lex_lt(rows_of(self.entries@)[i as int].0, kh@),
    {
        let ghost r = rows_of(self.entries@);
        let mut i: usize = 0;
        while i < self.entries.len()
            invariant
                i <= self.entries@.len(),
                r == rows_of(self.entries@),
                forall|j: int| 0 <= j < i ==> lex_lt(#[trigger] r[j].0, kh@),
            decreases self.entries@.len() - i,
        {
            if !bytes_lt(&self.entries[i].key_hash, kh) {
                return i;
            }
            i = i + 1;
        }
        i
    }

    /// The storage key and value stored under a trie key.
    pub fn lookup(&self, kh: &Vec<u8>) -> (r: Option<Vec<u8>>)
        requires
            self.wf(),
        ensures
            opt_bytes(r) == (if self@.contains_key(kh@) {
                Some(self@[kh@].1)
            } else {
                None
            }),
    {
        let ghost r = rows_of(self.entries@);
        let i = self.find_slot(kh);
        if i < self.entries.len() && bytes_eq(&self.entries[i].key_hash, kh) {
            assert(r[i as int].0 == kh@);
            Some(bytes_copy(&self.entries[i].value))
        } else {
            proof {
                lemma_slot(r, self.model@, kh@, i as int);
            }
            None
        }
    }

    /// Stores `value` under `key`, whose trie key is `kh`.
    pub fn insert(&mut self, kh: Vec<u8>, key: Vec<u8>, value: Vec<u8>)
        requires
            old(self).wf(),
        ensures
            final(self).wf(),
            final(self)@ == old(self)@.insert(kh@, (key@, value@)),
    {
        let ghost r = rows_of(self.entries@);
        let ghost m = self.model@;
        let ghost row: Row = (kh@, key@, value@);
        let i = self.find_slot(&kh);
        if i < self.entries.len() && bytes_eq(&self.entries[i].key_hash, &kh) {
            self.entries.set(i, Entry { key_hash: kh, key, value });
            self.model = Ghost(m.insert(row.0, (row.1, row.2)));
            proof {
                let r2 = rows_of(self.entries@);
                assert(r2 =~= r.update(i as int, row));
                assert forall|a: int| 0 <= a < r2.len() && a != i implies r2[a].0 != row.0 by {
                    if a < i {
                        assert(lex_lt(r[a].0, r[i as int].0));
                    } else {
                        assert(lex_lt(r[i as int].0, r[a].0));
                    }
                    lemma_lex_irreflexive(row.0);
                }
                assert forall|t: Seq<u8>| #[trigger] self.model@.contains_key(t) implies exists|a: int| 0 <= a < r2.len() && r2[a].0 == t by {
                    if t != row.0 {
                        let a = choose|a: int| 0 <= a < r.len() && r[a].0 == t;
                        assert(r2[a].0 == t);
                    } else {
                        assert(r2[i as int].0 == t);
                    }
                }
            }
        } else {
            proof {
                lemma_slot(r, m, kh@, i as int);
            }
            self.entries.insert(i, Entry { key_hash: kh, key, value });
            self.model = Ghost(m.insert(row.0, (row.1, row.2)));
            proof {
                let r2 = rows_of(self.entries@);
                assert(r2 =~= r.insert(i as int, row));
                assert forall|a: int, b: int| 0 <= a < b < r2.len() implies lex_lt(#[trigger] r2[a].0, #[trigger] r2[b].0) by {
                    if b < i {
                        assert(lex_lt(r[a].0, r[b].0));
                    } else if b == i {
                    } else if a < i {
                        assert(lex_lt(r[a].0, r[b - 1].0));
                    } else if a == i {
                        assert(lex_lt(row.0, r[b - 1].0));
                    } else {
                        assert(lex_lt(r[a - 1].0, r[b - 1].0));
                    }
                }
                assert forall|a: int| 0 <= a < r2.len() && a != i implies r2[a].0 != row.0 by {
                    if a < i {
                        assert(m.contains_key(r[a].0));
                    } else {
                        assert(m.contains_key(r[a - 1].0));
                    }
                }
                assert forall|a: int| 0 <= a < r2.len() implies self.model@.contains_key(#[trigger] r2[a].0)
                    && self.model@[r2[a].0] == (r2[a].1, r2[a].2) by {
                    if a < i {
                        assert(r2[a] == r[a]);
                    } else if a > i {
                        assert(r2[a] == r[a - 1]);
                    }
                }
                assert forall|t: Seq<u8>| #[trigger] self.model@.contains_key(t) implies exists|a: int| 0 <= a < r2.len() && r2[a].0 == t by {
                    if t != row.0 {
                        let a = choose|a: int| 0 <= a < r.len() && r[a].0 == t;
                        if a < i {
                            assert(r2[a].0 == t);
                        } else {
                            assert(r2[a + 1].0 == t);
                        }
                    } else {
                        assert(r2[i as int].0 == t);
                    }
                }
            }
        }
    }

    /// Removes the entry under trie key `kh`, if any.
    pub fn remove(&mut self, kh: &Vec<u8>)
        requires
            old(self).wf(),
        ensures
            final(self).wf(),
            final(self)@ == old(self)@.remove(kh@),
    {
        let ghost r = rows_of(self.entries@);
        let ghost m = self.model@;
        let i = self.find_slot(kh);
        if i < self.entries.len() && bytes_eq(&self.entries[i].key_hash, kh) {
            self.entries.remove(i);
            self.model = Ghost(m.remove(kh@));
            proof {
                let r2 = rows_of(self.entries@);
                assert(r2 =~= r.remove(i as int));
                assert forall|a: int, b: int| 0 <= a < b < r2.len() implies lex_lt(#[trigger] r2[a].0, #[trigger] r2[b].0) by {
                    if a < i && b < i {
                        assert(lex_lt(r[a].0, r[b].0));
                    } else if a < i {
                        assert(lex_lt(r[a].0, r[b + 1].0));
                    } else {
                        assert(lex_lt(r[a + 1].0, r[b + 1].0));
                    }
                }
                assert forall|a: int| 0 <= a < r2.len() implies self.model@.contains_key(#[trigger] r2[a].0)
                    && self.model@[r2[a].0] == (r2[a].1, r2[a].2) by {
                    lemma_lex_irreflexive(kh@);
                    if a < i {
                        assert(r2[a] == r[a]);
                        assert(lex_lt(r[a].0, r[i as int].0));
                    } else {
                        assert(r2[a] == r[a + 1]);
                        assert(lex_lt(r[i as int].0, r[a + 1].0));
                    }
                }
                assert forall|t: Seq<u8>| #[trigger] self.model@.contains_key(t) implies exists|a: int| 0 <= a < r2.len() && r2[a].0 == t by {
                    let a = choose|a: int| 0 <= a < r.len() && r[a].0 == t;
                    if a < i {
                        assert(r2[a].0 == t);
                    } else {
                        assert(r2[a - 1].0 == t);
                    }
                }
            }
        } else {
            proof {
                lemma_slot(r, m, kh@, i as int);
                assert(m.remove(kh@) =~= m);
            }
        }
    }

    /// Removes every entry whose storage key starts with `p`; hands back the
    /// removed (storage key, value) pairs in trie-key order.
    pub fn remove_prefix(&mut self, p: &Vec<u8>) -> (removed: Vec<(Vec<u8>, Vec<u8>)>)
        requires
            old(self).wf(),
        ensures
            final(self).wf(),
            final(self)@ == without_prefix(old(self)@, p@),
            pairs_of(removed@) == prefixed_pairs(canonical(old(self)@), p@),
    {
        let ghost r = rows_of(self.entries@);
        let ghost m = self.model@;
        proof {
            lemma_canonical_is(r, m);
        }
        assert(kept_so_far(r, rows_of(Seq::<Entry>::empty()), 0, p@)) by {
            assert(rows_of(Seq::<Entry>::empty()) =~= Seq::<Row>::empty());
        }
        let mut kept: Vec<Entry> = Vec::new();
        let mut removed: Vec<(Vec<u8>, Vec<u8>)> = Vec::new();
        let mut i: usize = 0;
        while i < self.entries.len()
            invariant
                i <= self.entries@.len(),
                r == rows_of(self.entries@),
                sorted(r),
                kept_so_far(r, rows_of(kept@), i as int, p@),
                pairs_of(removed@) == prefixed_pairs(r.take(i as int), p@),
            decreases self.entries@.len() - i,
        {
            let ghost k0 = rows_of(kept@);
            assert(r.take(i + 1).drop_last() =~= r.take(i as int));
            if bytes_has_prefix(p, &self.entries[i].key) {
                let pair = (bytes_copy(&self.entries[i].key), bytes_copy(&self.entries[i].value));
                removed.push(pair);
                assert(pairs_of(removed@) =~= prefixed_pairs(r.take(i as int), p@).push((r[i as int].1, r[i as int].2)));
                proof {
                    lemma_skip_step(r, k0, i as int, p@);
                }
            } else {
                let e = entry_copy(&self.entries[i]);
                kept.push(e);
                proof {
                    assert(rows_of(kept@) =~= k0.push(r[i as int]));
                    lemma_keep_step(r, k0, i as int, p@);
                }
            }
            i = i + 1;
        }
        assert(r.take(i as int) =~= r);
        let ghost m2 = without_prefix(m, p@);
        proof {
            let k = rows_of(kept@);
            assert(i == r.len());
            assert forall|a: int| 0 <= a < k.len() implies m2.contains_key(#[trigger] k[a].0) && m2[k[a].0] == (k[a].1, k[a].2) by {
                assert(in_first(r, i as int, k[a]));
                let j = choose|j: int| 0 <= j < i && r[j] == k[a];
                assert(m.contains_key(r[j].0));
            }
            assert forall|t: Seq<u8>| #[trigger] m2.contains_key(t) implies exists|a: int| 0 <= a < k.len() && k[a].0 == t by {
                assert(m.contains_key(t));
                let j = choose|j: int| 0 <= j < r.len() && r[j].0 == t;
                assert(!is_prefix(p@, r[j].1));
                assert(k.contains(r[j]));
                let a = choose|a: int| 0 <= a < k.len() && k[a] == r[j];
                assert(k[a].0 == t);
            }
        }
        self.entries = kept;
        self.model = Ghost(m2);
        removed
    }

    /// The leaves in trie-key order.
    pub fn export(&self) -> (r: Vec<(Vec<u8>, Vec<u8>)>)
        requires
            self.wf(),
        ensures
            pairs_of(r@) == leaves(canonical(self@)),
    {
        let ghost rs = rows_of(self.entries@);
        proof {
            lemma_canonical_is(rs, self.model@);
        }
        let mut out: Vec<(Vec<u8>, Vec<u8>)> = Vec::new();
        let mut i: usize = 0;
        while i < self.entries.len()
            invariant
                i <= self.entries@.len(),
                rs == rows_of(self.entries@),
                pairs_of(out@) == leaves(rs).take(i as int),
            decreases self.entries@.len() - i,
        {
            let ghost before = pairs_of(out@);
            out.push((bytes_copy(&self.entries[i].key_hash), bytes_copy(&self.entries[i].value)));
            assert(pairs_of(out@) =~= before.push(leaves(rs)[i as int]));
            assert(leaves(rs).take(i + 1) =~= leaves(rs).take(i as int).push(leaves(rs)[i as int]));
            i = i + 1;
        }
        assert(leaves(rs).take(i as int) =~= leaves(rs));
        out
    }

    /// The root of this content.
    pub fn root(&self) -> (r: Vec<u8>)
        requires
            self.wf(),
        ensures
            r@ == root_of(self@),
            r@.len() == 32,
    {
        let l = self.export();
        let bytes = encode_leaves(&l);
        keccak_bytes(&bytes)
    }

    /// The leaves of this content are sorted, and looking `t` up in them
    /// finds what the content holds under `t`.
    pub proof fn lemma_leaves(&self, t: Seq<u8>)
        requires
            self.wf(),
        ensures
            sorted_leaves(leaves(canonical(self@))),
            leaf_lookup(leaves(canonical(self@)), t) == (if self@.contains_key(t) {
                Some(self@[t].1)
            } else {
                None
            }),
    {
        lemma_canonical_is(rows_of(self.entries@), self.model@);
        lemma_leaves_of_canonical(rows_of(self.entries@), self.model@, t);
    }

    /// An independent copy with the same content.
    pub fn copy(&self) -> (r: Self)
        requires
            self.wf(),
        ensures
            r.wf(),
            r@ == self@,
    {
        let ghost rs = rows_of(self.entries@);
        let mut entries: Vec<Entry> = Vec::new();
        let mut i: usize = 0;
        while i < self.entries.len()
            invariant
                i <= self.entries@.len(),
                rs == rows_of(self.entries@),
                rows_of(entries@) == rs.take(i as int),
            decreases self.entries@.len() - i,
        {
            let ghost before = rows_of(entries@);
            entries.push(entry_copy(&self.entries[i]));
            assert(rows_of(entries@) =~= before.push(rs[i as int]));
            assert(rs.take(i + 1) =~= rs.take(i as int).push(rs[i as int]));
            i = i + 1;
        }
        assert(rs.take(i as int) =~= rs);
        KeySpace { entries, model: Ghost(self.model@) }
    }
} // impl KeySpace

} // verus!
