//! In-memory model of the store: an environment holding a distinguished main
//! collection and any number of named collections, each an ordered mapping
//! from byte-string key to byte-string value with unique keys, iterated in
//! lexicographic key order.

use vstd::prelude::*;

verus! {

/// Strict lexicographic order on byte strings.
pub open spec fn lex_lt(a: Seq<u8>, b: Seq<u8>) -> bool
    decreases a.len(),
{
    if b.len() == 0 {
        false
    } else if a.len() == 0 {
        true
    } else if a[0] < b[0] {
        true
    } else if a[0] > b[0] {
        false
    } else {
        lex_lt(a.skip(1), b.skip(1))
    }
}

/// Exactly one of `a < b`, `b < a`, `a == b` holds under `lex_lt`.
pub proof fn lemma_lex_trichotomy(a: Seq<u8>, b: Seq<u8>)
    ensures
        !(lex_lt(a, b) && lex_lt(b, a)),
        lex_lt(a, b) || lex_lt(b, a) || a == b,
        a == b ==> !lex_lt(a, b),
    decreases a.len(),
{
    if a.len() == 0 && b.len() == 0 {
        assert(a =~= b);
    } else if a.len() > 0 && b.len() > 0 {
        if a[0] == b[0] {
            lemma_lex_trichotomy(a.skip(1), b.skip(1));
            if a.skip(1) == b.skip(1) {
                assert forall|i: int| 0 <= i < a.len() implies a[i] == b[i] by {
                    if i > 0 {
                        assert(a[i] == a.skip(1)[i - 1]);
                        assert(b[i] == b.skip(1)[i - 1]);
                    }
                }
                assert(a =~= b);
            }
        }
    }
}

/// `lex_lt` is transitive.
pub proof fn lemma_lex_trans(a: Seq<u8>, b: Seq<u8>, c: Seq<u8>)
    requires
        lex_lt(a, b),
        lex_lt(b, c),
    ensures
        lex_lt(a, c),
    decreases a.len(),
{
    if a.len() > 0 {
        if a[0] == c[0] {
            lemma_lex_trans(a.skip(1), b.skip(1), c.skip(1));
        }
    }
}

/// One key/value pair of a collection.
pub struct Entry {
    pub key: Vec<u8>,
    pub value: Vec<u8>,
}

impl View for Entry {
    type V = (Seq<u8>, Seq<u8>);

    open spec fn view(&self) -> (Seq<u8>, Seq<u8>) {
        (self.key@, self.value@)
    }
}

/// The pairs a sequence of entries denotes.
pub open spec fn entries_view(s: Seq<Entry>) -> Seq<(Seq<u8>, Seq<u8>)> {
    Seq::new(s.len(), |i: int| (s[i].key@, s[i].value@))
}

/// Keys strictly increase along the sequence, so they are unique.
pub open spec fn coll_sorted(v: Seq<(Seq<u8>, Seq<u8>)>) -> bool {
    forall|i: int, j: int| 0 <= i < j < v.len() ==> lex_lt(#[trigger] v[i].0, #[trigger] v[j].0)
}

/// The value the first entry with the given key holds, if any.
pub open spec fn lookup(v: Seq<(Seq<u8>, Seq<u8>)>, k: Seq<u8>) -> Option<Seq<u8>>
    decreases v.len(),
{
    if v.len() == 0 {
        None
    } else if v[0].0 == k {
        Some(v[0].1)
    } else {
        lookup(v.skip(1), k)
    }
}

/// The collection after an insert or update, keeping the order.
pub open spec fn coll_put(v: Seq<(Seq<u8>, Seq<u8>)>, k: Seq<u8>, val: Seq<u8>) -> Seq<
    (Seq<u8>, Seq<u8>),
>
    decreases v.len(),
{
    if v.len() == 0 {
        seq![(k, val)]
    } else if lex_lt(v[0].0, k) {
        seq![v[0]] + coll_put(v.skip(1), k, val)
    } else if v[0].0 == k {
        seq![(k, val)] + v.skip(1)
    } else {
        seq![(k, val)] + v
    }
}

/// The collection after removing the first entry with the given key.
pub open spec fn coll_delete(v: Seq<(Seq<u8>, Seq<u8>)>, k: Seq<u8>) -> Seq<(Seq<u8>, Seq<u8>)>
    decreases v.len(),
{
    if v.len() == 0 {
        v
    } else if v[0].0 == k {
        v.skip(1)
    } else {
        seq![v[0]] + coll_delete(v.skip(1), k)
    }
}

/// A put stores its value under its key and touches no other key.
pub proof fn lemma_put_lookup(v: Seq<(Seq<u8>, Seq<u8>)>, k: Seq<u8>, val: Seq<u8>, q: Seq<u8>)
    ensures
        lookup(coll_put(v, k, val), q) == if q == k {
            Some(val)
        } else {
            lookup(v, q)
        },
    decreases v.len(),
{
    if v.len() == 0 {
        let r = seq![(k, val)];
        assert(coll_put(v, k, val) == r);
        assert(r.skip(1) =~= Seq::<(Seq<u8>, Seq<u8>)>::empty());
        assert(r[0].0 == k);
        if q != k {
            assert(lookup(r, q) == lookup(r.skip(1), q));
            assert(lookup(r, q) is None);
        }
    } else if lex_lt(v[0].0, k) {
        lemma_lex_trichotomy(v[0].0, k);
        lemma_put_lookup(v.skip(1), k, val, q);
        let r = seq![v[0]] + coll_put(v.skip(1), k, val);
        assert(coll_put(v, k, val) == r);
        assert(r.skip(1) =~= coll_put(v.skip(1), k, val));
        assert(r[0] == v[0]);
        if v[0].0 == q {
            assert(lookup(r, q) == Some(v[0].1));
            assert(lookup(v, q) == Some(v[0].1));
            assert(q != k);
        } else {
            assert(lookup(r, q) == lookup(coll_put(v.skip(1), k, val), q));
            assert(lookup(v, q) == lookup(v.skip(1), q));
        }
    } else if v[0].0 == k {
        let r = seq![(k, val)] + v.skip(1);
        assert(coll_put(v, k, val) == r);
        assert(r.skip(1) =~= v.skip(1));
        assert(r[0].0 == k);
        if q != k {
            assert(lookup(r, q) == lookup(v.skip(1), q));
            assert(lookup(v, q) == lookup(v.skip(1), q));
        }
    } else {
        let r = seq![(k, val)] + v;
        assert(coll_put(v, k, val) == r);
        assert(r.skip(1) =~= v);
        assert(r[0].0 == k);
        if q != k {
            assert(lookup(r, q) == lookup(v, q));
        }
    }
}

/// If no entry up to `idx` has the key, a search is decided at `idx`.
proof fn lemma_lookup_at(v: Seq<(Seq<u8>, Seq<u8>)>, q: Seq<u8>, idx: int)
    requires
        0 <= idx <= v.len(),
        forall|i: int| 0 <= i < idx ==> (#[trigger] v[i].0) != q,
        idx < v.len() ==> v[idx].0 == q,
    ensures
        idx < v.len() ==> lookup(v, q) == Some(v[idx].1),
        idx == v.len() ==> lookup(v, q) is None,
    decreases idx,
{
    if idx == 0 {
        if v.len() == 0 {
        }
    } else {
        let w = v.skip(1);
        assert forall|i: int| 0 <= i < idx - 1 implies (#[trigger] w[i].0) != q by {
            assert(w[i] == v[i + 1]);
        }
        lemma_lookup_at(w, q, idx - 1);
    }
}

/// If no entry up to `idx` has the key, deletion is decided at `idx`.
proof fn lemma_delete_at(v: Seq<(Seq<u8>, Seq<u8>)>, q: Seq<u8>, idx: int)
    requires
        0 <= idx <= v.len(),
        forall|i: int| 0 <= i < idx ==> (#[trigger] v[i].0) != q,
        idx < v.len() ==> v[idx].0 == q,
    ensures
        idx < v.len() ==> coll_delete(v, q) == v.remove(idx),
        idx == v.len() ==> coll_delete(v, q) == v,
    decreases idx,
{
    if idx == 0 {
        if v.len() == 0 {
            assert(coll_delete(v, q) =~= v);
        } else {
            assert(v.remove(0) =~= v.skip(1));
        }
    } else {
        let w = v.skip(1);
        assert forall|i: int| 0 <= i < idx - 1 implies (#[trigger] w[i].0) != q by {
            assert(w[i] == v[i + 1]);
        }
        lemma_delete_at(w, q, idx - 1);
        if idx < v.len() {
            assert(w[idx - 1] == v[idx]);
            assert(seq![v[0]] + w.remove(idx - 1) =~= v.remove(idx));
        } else {
            assert(seq![v[0]] + w =~= v);
        }
    }
}

/// A delete removes its key and touches no other key.
pub proof fn lemma_delete_lookup(v: Seq<(Seq<u8>, Seq<u8>)>, k: Seq<u8>, q: Seq<u8>)
    requires
        coll_sorted(v),
    ensures
        lookup(coll_delete(v, k), q) == if q == k {
            None::<Seq<u8>>
        } else {
            lookup(v, q)
        },
    decreases v.len(),
{
    if v.len() == 0 {
    } else if v[0].0 == k {
        let w = v.skip(1);
        assert forall|i: int| 0 <= i < w.len() implies (#[trigger] w[i].0) != k by {
            assert(w[i] == v[i + 1]);
            assert(lex_lt(v[0].0, v[i + 1].0));
            lemma_lex_trichotomy(v[i + 1].0, k);
        }
        lemma_lookup_at(w, k, w.len() as int);
    } else {
        let w = v.skip(1);
        assert forall|i: int, j: int| 0 <= i < j < w.len() implies lex_lt(
            #[trigger] w[i].0,
            #[trigger] w[j].0,
        ) by {
            assert(w[i] == v[i + 1]);
            assert(w[j] == v[j + 1]);
        }
        lemma_delete_lookup(w, k, q);
        let r = seq![v[0]] + coll_delete(w, k);
        assert(r.skip(1) =~= coll_delete(w, k));
    }
}

/// Deleting a key that is absent changes nothing.
pub proof fn lemma_delete_absent(v: Seq<(Seq<u8>, Seq<u8>)>, k: Seq<u8>)
    requires
        lookup(v, k) is None,
    ensures
        coll_delete(v, k) == v,
    decreases v.len(),
{
    if v.len() == 0 {
        assert(coll_delete(v, k) =~= v);
    } else {
        lemma_delete_absent(v.skip(1), k);
        assert(seq![v[0]] + v.skip(1) =~= v);
    }
}

proof fn lemma_lex_from_prefix(a: Seq<u8>, b: Seq<u8>, i: int)
    requires
        0 <= i,
        i < a.len(),
        i < b.len(),
        forall|j: int| 0 <= j < i ==> a[j] == b[j],
        a[i] < b[i],
    ensures
        lex_lt(a, b),
    decreases i,
{
    if i > 0 {
        let a1 = a.skip(1);
        let b1 = b.skip(1);
        assert forall|j: int| 0 <= j < i - 1 implies a1[j] == b1[j] by {
            assert(a1[j] == a[j + 1]);
            assert(b1[j] == b[j + 1]);
        }
        assert(a1[i - 1] == a[i]);
        assert(b1[i - 1] == b[i]);
        lemma_lex_from_prefix(a1, b1, i - 1);
    }
}

proof fn lemma_lex_proper_prefix(a: Seq<u8>, b: Seq<u8>)
    requires
        a.len() < b.len(),
        forall|j: int| 0 <= j < a.len() ==> a[j] == b[j],
    ensures
        lex_lt(a, b),
    decreases a.len(),
{
    if a.len() > 0 {
        let a1 = a.skip(1);
        let b1 = b.skip(1);
        assert forall|j: int| 0 <= j < a1.len() implies a1[j] == b1[j] by {
            assert(a1[j] == a[j + 1]);
            assert(b1[j] == b[j + 1]);
        }
        lemma_lex_proper_prefix(a1, b1);
    }
}

/// The relative order of two keys.
pub enum KeyOrder {
    Less,
    Equal,
    Greater,
}

/// Compares two byte strings in lexicographic order.
pub fn key_cmp(a: &Vec<u8>, b: &Vec<u8>) -> (r: KeyOrder)
    ensures
        r is Less <==> lex_lt(a@, b@),
        r is Equal <==> a@ == b@,
        r is Greater <==> lex_lt(b@, a@),
{
    let na: usize = a.len();
    let nb: usize = b.len();
    let shorter: usize = if na < nb {
        na
    } else {
        nb
    };
    let mut i: usize = 0;
    while i < shorter
        invariant
            i <= shorter,
            shorter <= na,
            shorter <= nb,
            na == a@.len(),
            nb == b@.len(),
            na < nb ==> shorter == na,
            na >= nb ==> shorter == nb,
            forall|j: int| 0 <= j < i ==> a@[j] == b@[j],
        decreases shorter - i,
    {
        let x = a[i];
        let y = b[i];
        if x < y {
            proof {
                lemma_lex_from_prefix(a@, b@, i as int);
                lemma_lex_trichotomy(a@, b@);
            }
            return KeyOrder::Less;
        } else if y < x {
            proof {
                lemma_lex_from_prefix(b@, a@, i as int);
                lemma_lex_trichotomy(a@, b@);
            }
            return KeyOrder::Greater;
        }
        i = i + 1;
    }
    if na == nb {
        proof {
            assert(a@ =~= b@);
            lemma_lex_trichotomy(a@, b@);
        }
        KeyOrder::Equal
    } else if na < nb {
        proof {
            lemma_lex_proper_prefix(a@, b@);
            lemma_lex_trichotomy(a@, b@);
        }
        KeyOrder::Less
    } else {
        proof {
            lemma_lex_proper_prefix(b@, a@);
            lemma_lex_trichotomy(a@, b@);
        }
        KeyOrder::Greater
    }
}

/// A copy of a byte string.
pub fn clone_bytes(v: &Vec<u8>) -> (r: Vec<u8>)
    ensures
        r@ == v@,
{
    let mut out: Vec<u8> = Vec::new();
    let mut i: usize = 0;
    let n: usize = v.len();
    while i < n
        invariant
            i <= n,
            n == v@.len(),
            out@ == v@.take(i as int),
        decreases n - i,
    {
        out.push(v[i]);
        proof {
            assert(out@ =~= v@.take(i + 1));
        }
        i = i + 1;
    }
    proof {
        assert(v@.take(n as int) =~= v@);
    }
    out
}

/// Where a put lands once every smaller key has been passed.
proof fn lemma_put_at(v: Seq<(Seq<u8>, Seq<u8>)>, k: Seq<u8>, val: Seq<u8>, idx: int)
    requires
        0 <= idx <= v.len(),
        forall|i: int| 0 <= i < idx ==> lex_lt(#[trigger] v[i].0, k),
        idx < v.len() ==> !lex_lt(v[idx].0, k),
    ensures
        idx < v.len() && v[idx].0 == k ==> coll_put(v, k, val) == v.update(idx, (k, val)),
        !(idx < v.len() && v[idx].0 == k) ==> coll_put(v, k, val) == v.take(idx) + seq![(k, val)]
            + v.skip(idx),
    decreases idx,
{
    if idx == 0 {
        if v.len() == 0 {
            assert(v.take(0) + seq![(k, val)] + v.skip(0) =~= seq![(k, val)]);
        } else if v[0].0 == k {
            lemma_lex_trichotomy(v[0].0, k);
            assert(coll_put(v, k, val) == seq![(k, val)] + v.skip(1));
            assert(v.update(0, (k, val)) =~= seq![(k, val)] + v.skip(1));
        } else {
            assert(coll_put(v, k, val) == seq![(k, val)] + v);
            assert(v.take(0) + seq![(k, val)] + v.skip(0) =~= seq![(k, val)] + v);
        }
    } else {
        lemma_lex_trichotomy(v[0].0, k);
        let w = v.skip(1);
        assert forall|i: int| 0 <= i < idx - 1 implies lex_lt(#[trigger] w[i].0, k) by {
            assert(w[i] == v[i + 1]);
        }
        if idx < v.len() {
            assert(w[idx - 1] == v[idx]);
        }
        lemma_put_at(w, k, val, idx - 1);
        assert(coll_put(v, k, val) == seq![v[0]] + coll_put(w, k, val));
        if idx < v.len() && v[idx].0 == k {
            assert(seq![v[0]] + w.update(idx - 1, (k, val)) =~= v.update(idx, (k, val)));
        } else {
            assert(seq![v[0]] + (w.take(idx - 1) + seq![(k, val)] + w.skip(idx - 1)) =~= v.take(idx)
                + seq![(k, val)] + v.skip(idx));
        }
    }
}

/// An ordered mapping from byte-string key to byte-string value; keys unique,
/// iteration in lexicographic key order.
pub struct Collection {
    entries: Vec<Entry>,
}

impl View for Collection {
    type V = Seq<(Seq<u8>, Seq<u8>)>;

    closed spec fn view(&self) -> Seq<(Seq<u8>, Seq<u8>)> {
        entries_view(self.entries@)
    }
}

impl Collection {
    /// Well-formed: keys strictly increase along the rows.
    pub open spec fn wf(&self) -> bool {
        coll_sorted(self@)
    }

    /// An empty collection.
    pub fn new() -> (r: Collection)
        ensures
            r.wf(),
            r@ == Seq::<(Seq<u8>, Seq<u8>)>::empty(),
    {
        let r = Collection { entries: Vec::new() };
        proof {
            assert(r@ =~= Seq::<(Seq<u8>, Seq<u8>)>::empty());
        }
        r
    }

    /// The number of entries.
    pub fn len(&self) -> (n: usize)
        ensures
            n == self@.len(),
    {
        self.entries.len()
    }

    /// The entry at a row index, copied out.
    pub fn row(&self, i: usize) -> (e: Entry)
        requires
            i < self@.len(),
        ensures
            e@ == self@[i as int],
    {
        let key = clone_bytes(&self.entries[i].key);
        let value = clone_bytes(&self.entries[i].value);
        Entry { key, value }
    }

    fn less_at(&self, idx: usize, key: &Vec<u8>) -> (r: bool)
        requires
            idx < self@.len(),
        ensures
            r == lex_lt(self@[idx as int].0, key@),
    {
        match key_cmp(&self.entries[idx].key, key) {
            KeyOrder::Less => true,
            _ => false,
        }
    }

    fn eq_at(&self, idx: usize, key: &Vec<u8>) -> (r: bool)
        requires
            idx < self@.len(),
        ensures
            r == (self@[idx as int].0 == key@),
    {
        match key_cmp(&self.entries[idx].key, key) {
            KeyOrder::Equal => true,
            _ => false,
        }
    }

    fn find_not_less(&self, key: &Vec<u8>) -> (idx: usize)
        ensures
            idx <= self@.len(),
            forall|i: int| 0 <= i < idx ==> lex_lt(#[trigger] self@[i].0, key@),
            idx < self@.len() ==> !lex_lt(self@[idx as int].0, key@),
    {
        let n = self.entries.len();
        let mut idx: usize = 0;
        while idx < n && self.less_at(idx, key)
            invariant
                idx <= n,
                n == self@.len(),
                forall|i: int| 0 <= i < idx ==> lex_lt(#[trigger] self@[i].0, key@),
            decreases n - idx,
        {
            idx = idx + 1;
        }
        idx
    }

    fn find_key(&self, key: &Vec<u8>) -> (idx: usize)
        ensures
            idx <= self@.len(),
            forall|i: int| 0 <= i < idx ==> (#[trigger] self@[i].0) != key@,
            idx < self@.len() ==> self@[idx as int].0 == key@,
    {
        let n = self.entries.len();
        let mut idx: usize = 0;
        while idx < n && !self.eq_at(idx, key)
            invariant
                idx <= n,
                n == self@.len(),
                forall|i: int| 0 <= i < idx ==> (#[trigger] self@[i].0) != key@,
            decreases n - idx,
        {
            idx = idx + 1;
        }
        idx
    }

    /// The value stored under a key, copied out, if the key is present.
    pub fn get(&self, key: &Vec<u8>) -> (r: Option<Vec<u8>>)
        ensures
            match r {
                Some(v) => lookup(self@, key@) == Some(v@),
                None => lookup(self@, key@) is None,
            },
    {
        let idx = self.find_key(key);
        proof {
            lemma_lookup_at(self@, key@, idx as int);
        }
        if idx < self.entries.len() {
            Some(clone_bytes(&self.entries[idx].value))
        } else {
            None
        }
    }

    /// Inserts or updates an entry, keeping order and key uniqueness.
    pub fn put(&mut self, key: Vec<u8>, value: Vec<u8>)
        requires
            old(self).wf(),
        ensures
            final(self).wf(),
            final(self)@ == coll_put(old(self)@, key@, value@),
    {
        let n = self.entries.len();
        let idx = self.find_not_less(&key);
        proof {
            lemma_put_at(self@, key@, value@, idx as int);
        }
        let is_eq = if idx < n {
            self.eq_at(idx, &key)
        } else {
            false
        };
        let ghost ov = self@;
        if is_eq {
            let _ = self.entries.remove(idx);
            self.entries.insert(idx, Entry { key, value });
            proof {
                assert forall|l: int| 0 <= l < self@.len() implies self@[l] == ov.update(
                    idx as int,
                    (key@, value@),
                )[l] by {}
                assert(self@ =~= ov.update(idx as int, (key@, value@)));
                assert forall|i: int, j: int| 0 <= i < j < self@.len() implies lex_lt(
                    #[trigger] self@[i].0,
                    #[trigger] self@[j].0,
                ) by {
                    assert(self@[i].0 == ov[i].0);
                    assert(self@[j].0 == ov[j].0);
                }
            }
        } else {
            self.entries.insert(idx, Entry { key, value });
            proof {
                let nv = self@;
                assert forall|l: int| 0 <= l < nv.len() implies nv[l] == (ov.take(idx as int)
                    + seq![(key@, value@)] + ov.skip(idx as int))[l] by {}
                assert(nv =~= ov.take(idx as int) + seq![(key@, value@)] + ov.skip(idx as int));
                if idx < n {
                    lemma_lex_trichotomy(ov[idx as int].0, key@);
                }
                assert forall|i: int, j: int| 0 <= i < j < nv.len() implies lex_lt(
                    #[trigger] nv[i].0,
                    #[trigger] nv[j].0,
                ) by {
                    let id = idx as int;
                    if j < id {
                        assert(nv[i] == ov[i] && nv[j] == ov[j]);
                    } else if j == id {
                        assert(nv[i] == ov[i]);
                        assert(lex_lt(ov[i].0, key@));
                    } else {
                        assert(nv[j] == ov[j - 1]);
                        if i < id {
                            assert(nv[i] == ov[i]);
                            assert(lex_lt(ov[i].0, ov[j - 1].0));
                        } else if i == id {
                            assert(lex_lt(key@, ov[id].0));
                            if j - 1 > id {
                                lemma_lex_trans(key@, ov[id].0, ov[j - 1].0);
                            }
                        } else {
                            assert(nv[i] == ov[i - 1]);
                            assert(lex_lt(ov[i - 1].0, ov[j - 1].0));
                        }
                    }
                }
            }
        }
    }

    /// Removes the entry under a key; absent keys are a silent no-op.
    pub fn delete(&mut self, key: &Vec<u8>) -> (found: bool)
        requires
            old(self).wf(),
        ensures
            final(self).wf(),
            final(self)@ == coll_delete(old(self)@, key@),
            found == (lookup(old(self)@, key@) is Some),
    {
        let idx = self.find_key(key);
        proof {
            lemma_lookup_at(self@, key@, idx as int);
            lemma_delete_at(self@, key@, idx as int);
        }
        let ghost ov = self@;
        if idx < self.entries.len() {
            let _ = self.entries.remove(idx);
            proof {
                assert forall|l: int| 0 <= l < self@.len() implies self@[l] == ov.remove(
                    idx as int,
                )[l] by {}
                assert(self@ =~= ov.remove(idx as int));
                assert forall|i: int, j: int| 0 <= i < j < self@.len() implies lex_lt(
                    #[trigger] self@[i].0,
                    #[trigger] self@[j].0,
                ) by {
                    let id = idx as int;
                    if j < id {
                        assert(self@[i] == ov[i] && self@[j] == ov[j]);
                    } else if i < id {
                        assert(self@[i] == ov[i] && self@[j] == ov[j + 1]);
                    } else {
                        assert(self@[i] == ov[i + 1] && self@[j] == ov[j + 1]);
                    }
                }
            }
            true
        } else {
            false
        }
    }
}

/// The mathematical content of a store: the names of the named collections
/// and the rows of every collection, the main one first.
#[verifier::ext_equal]
pub ghost struct StoreV {
    pub names: Seq<Seq<u8>>,
    pub colls: Seq<Seq<(Seq<u8>, Seq<u8>)>>,
}

impl StoreV {
    /// One collection per name plus the main one; every collection ordered;
    /// names unique.
    pub open spec fn wf(self) -> bool {
        &&& self.colls.len() == self.names.len() + 1
        &&& (forall|i: int| 0 <= i < self.colls.len() ==> coll_sorted(#[trigger] self.colls[i]))
        &&& (forall|i: int, j: int|
            0 <= i < j < self.names.len() ==> self.names[i] != self.names[j])
    }
}

/// The store environment: the main collection at handle zero, named
/// collections at the following handles, created lazily on first open.
pub struct Store {
    names: Vec<Vec<u8>>,
    colls: Vec<Collection>,
}

impl View for Store {
    type V = StoreV;

    closed spec fn view(&self) -> StoreV {
        StoreV {
            names: Seq::new(self.names@.len(), |i: int| self.names@[i]@),
            colls: Seq::new(self.colls@.len(), |i: int| self.colls@[i]@),
        }
    }
}

impl Store {
    /// A fresh environment holding only the empty main collection.
    pub fn new() -> (r: Store)
        ensures
            r@.wf(),
            r@.names.len() == 0,
            r@.colls.len() == 1,
            r@.colls[0].len() == 0,
    {
        let mut colls: Vec<Collection> = Vec::new();
        colls.push(Collection::new());
        Store { names: Vec::new(), colls }
    }

    /// How many collections exist, the main one included.
    pub fn collection_count(&self) -> (n: usize)
        ensures
            n == self@.colls.len(),
    {
        self.colls.len()
    }

    /// The number of entries of one collection.
    pub fn cardinality(&self, id: usize) -> (n: usize)
        requires
            id < self@.colls.len(),
        ensures
            n == self@.colls[id as int].len(),
    {
        self.colls[id].len()
    }

    /// The entry of one collection at a row index, copied out.
    pub fn row(&self, id: usize, i: usize) -> (e: Entry)
        requires
            id < self@.colls.len(),
            i < self@.colls[id as int].len(),
        ensures
            e@ == self@.colls[id as int][i as int],
    {
        self.colls[id].row(i)
    }

    /// The value one collection stores under a key, copied out.
    pub fn get(&self, id: usize, key: &Vec<u8>) -> (r: Option<Vec<u8>>)
        requires
            id < self@.colls.len(),
        ensures
            match r {
                Some(v) => lookup(self@.colls[id as int], key@) == Some(v@),
                None => lookup(self@.colls[id as int], key@) is None,
            },
    {
        self.colls[id].get(key)
    }

    /// Inserts or updates an entry of one collection.
    pub fn put(&mut self, id: usize, key: Vec<u8>, value: Vec<u8>)
        requires
            old(self)@.wf(),
            id < old(self)@.colls.len(),
        ensures
            final(self)@.wf(),
            final(self)@.names == old(self)@.names,
            final(self)@.colls == old(self)@.colls.update(
                id as int,
                coll_put(old(self)@.colls[id as int], key@, value@),
            ),
    {
        let mut c = self.colls.remove(id);
        proof {
            assert(c@ == old(self)@.colls[id as int]);
        }
        c.put(key, value);
        self.colls.insert(id, c);
        proof {
            assert(final(self)@.names =~= old(self)@.names);
            assert forall|l: int| 0 <= l < final(self)@.colls.len() implies final(self)@.colls[l]
                == old(self)@.colls.update(
                id as int,
                coll_put(old(self)@.colls[id as int], key@, value@),
            )[l] by {}
            assert(final(self)@.colls =~= old(self)@.colls.update(
                id as int,
                coll_put(old(self)@.colls[id as int], key@, value@),
            ));
        }
    }

    /// Removes the entry of one collection under a key; absent keys are a
    /// silent no-op.
    pub fn delete(&mut self, id: usize, key: &Vec<u8>) -> (found: bool)
        requires
            old(self)@.wf(),
            id < old(self)@.colls.len(),
        ensures
            final(self)@.wf(),
            final(self)@.names == old(self)@.names,
            final(self)@.colls == old(self)@.colls.update(
                id as int,
                coll_delete(old(self)@.colls[id as int], key@),
            ),
            found == (lookup(old(self)@.colls[id as int], key@) is Some),
    {
        let mut c = self.colls.remove(id);
        proof {
            assert(c@ == old(self)@.colls[id as int]);
        }
        let found = c.delete(key);
        self.colls.insert(id, c);
        proof {
            assert(final(self)@.names =~= old(self)@.names);
            assert forall|l: int| 0 <= l < final(self)@.colls.len() implies final(self)@.colls[l]
                == old(self)@.colls.update(
                id as int,
                coll_delete(old(self)@.colls[id as int], key@),
            )[l] by {}
            assert(final(self)@.colls =~= old(self)@.colls.update(
                id as int,
                coll_delete(old(self)@.colls[id as int], key@),
            ));
        }
        found
    }

    fn name_eq_at(&self, idx: usize, name: &Vec<u8>) -> (r: bool)
        requires
            idx < self@.names.len(),
        ensures
            r == (self@.names[idx as int] == name@),
    {
        match key_cmp(&self.names[idx], name) {
            KeyOrder::Equal => true,
            _ => false,
        }
    }

    /// The handle of a collection: zero for the main one, the handle of the
    /// named one if it exists, `None` otherwise (a normal outcome, no error).
    pub fn open(&self, name: Option<&Vec<u8>>) -> (r: Option<usize>)
        requires
            self@.wf(),
        ensures
            match name {
                None => r == Some(0usize),
                Some(n) => match r {
                    Some(id) => 1 <= id < self@.colls.len() && self@.names[id as int - 1] == n@,
                    None => forall|i: int|
                        0 <= i < self@.names.len() ==> (#[trigger] self@.names[i]) != n@,
                },
            },
    {
        match name {
            None => Some(0),
            Some(n) => {
                let count = self.names.len();
                let mut i: usize = 0;
                while i < count && !self.name_eq_at(i, n)
                    invariant
                        i <= count,
                        count == self@.names.len(),
                        forall|j: int| 0 <= j < i ==> (#[trigger] self@.names[j]) != n@,
                    decreases count - i,
                {
                    i = i + 1;
                }
                if i < count {
                    Some(i + 1)
                } else {
                    None
                }
            },
        }
    }

    /// Creates an empty named collection and hands back its handle.
    pub fn create(&mut self, name: Vec<u8>) -> (id: usize)
        requires
            old(self)@.wf(),
            forall|i: int|
                0 <= i < old(self)@.names.len() ==> (#[trigger] old(self)@.names[i]) != name@,
        ensures
            final(self)@.wf(),
            id == old(self)@.colls.len(),
            final(self)@.names == old(self)@.names.push(name@),
            final(self)@.colls == old(self)@.colls.push(Seq::<(Seq<u8>, Seq<u8>)>::empty()),
    {
        self.names.push(name);
        self.colls.push(Collection::new());
        proof {
            assert(final(self)@.names =~= old(self)@.names.push(name@));
            assert(final(self)@.colls =~= old(self)@.colls.push(Seq::<(Seq<u8>, Seq<u8>)>::empty()));
        }
        self.colls.len() - 1
    }
}

/// A deep copy of a store, used to give a write session its working snapshot.
pub fn clone_store(s: &Store) -> (r: Store)
    ensures
        r@ == s@,
{
    let mut names: Vec<Vec<u8>> = Vec::new();
    let mut colls: Vec<Collection> = Vec::new();
    let n = s.collection_count();
    let mut i: usize = 0;
    while i < n
        invariant
            i <= n,
            n == s@.colls.len(),
            colls@.len() == i,
            forall|j: int| 0 <= j < i ==> (#[trigger] colls@[j])@ == s@.colls[j],
        decreases n - i,
    {
        colls.push(s.clone_collection_at(i));
        i = i + 1;
    }
    let m = s.name_count();
    let mut j: usize = 0;
    while j < m
        invariant
            j <= m,
            m == s@.names.len(),
            names@.len() == j,
            forall|l: int| 0 <= l < j ==> (#[trigger] names@[l])@ == s@.names[l],
        decreases m - j,
    {
        names.push(s.clone_name_at(j));
        j = j + 1;
    }
    let r = Store { names, colls };
    proof {
        assert(r@ =~= s@);
    }
    r
}

impl Store {
    fn name_count(&self) -> (n: usize)
        ensures
            n == self@.names.len(),
    {
        self.names.len()
    }

    fn clone_name_at(&self, i: usize) -> (r: Vec<u8>)
        requires
            i < self@.names.len(),
        ensures
            r@ == self@.names[i as int],
    {
        clone_bytes(&self.names[i])
    }

    fn clone_collection_at(&self, i: usize) -> (r: Collection)
        requires
            i < self@.colls.len(),
        ensures
            r@ == self@.colls[i as int],
    {
        let src = &self.colls[i];
        let n = src.entries.len();
        let mut entries: Vec<Entry> = Vec::new();
        let mut j: usize = 0;
        while j < n
            invariant
                j <= n,
                n == src@.len(),
                entries@.len() == j,
                forall|l: int| 0 <= l < j ==> (#[trigger] entries@[l])@ == src@[l],
            decreases n - j,
        {
            entries.push(src.row(j));
            j = j + 1;
        }
        let r = Collection { entries };
        proof {
            assert(r@ =~= src@);
        }
        r
    }
}

} // verus!
