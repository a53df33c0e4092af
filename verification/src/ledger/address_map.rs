use vstd::prelude::*;

verus! {

/// Lexicographic order on byte strings: `a` precedes `b` when, at the first
/// position where they differ, `a` holds the smaller byte.
pub open spec fn bytes_lt(a: Seq<u8>, b: Seq<u8>) -> bool {
    exists|i: int|
        #![trigger a[i], b[i]]
        0 <= i < a.len() && i < b.len() && a[i] < b[i] && forall|j: int|
            0 <= j < i ==> a[j] == b[j]
}

/// No byte string precedes itself.
pub proof fn lemma_bytes_lt_irreflexive(a: Seq<u8>)
    ensures
        !bytes_lt(a, a),
{
}

/// The order is transitive on byte strings of one length.
pub proof fn lemma_bytes_lt_transitive(a: Seq<u8>, b: Seq<u8>, c: Seq<u8>)
    requires
        a.len() == b.len(),
        b.len() == c.len(),
        bytes_lt(a, b),
        bytes_lt(b, c),
    ensures
        bytes_lt(a, c),
{
    let i = choose|i: int|
        #![trigger a[i], b[i]]
        0 <= i < a.len() && i < b.len() && a[i] < b[i] && forall|j: int|
            0 <= j < i ==> a[j] == b[j];
    let j = choose|j: int|
        #![trigger b[j], c[j]]
        0 <= j < b.len() && j < c.len() && b[j] < c[j] && forall|k: int|
            0 <= k < j ==> b[k] == c[k];
    if i < j {
        assert(a[i] < c[i]);
        assert(forall|k: int| 0 <= k < i ==> a[k] == c[k]);
    } else if j < i {
        assert(a[j] < c[j]);
        assert(forall|k: int| 0 <= k < j ==> a[k] == c[k]);
    } else {
        assert(a[i] < c[i]);
        assert(forall|k: int| 0 <= k < i ==> a[k] == c[k]);
    }
}

/// The order is asymmetric.
pub proof fn lemma_bytes_lt_asymmetric(a: Seq<u8>, b: Seq<u8>)
    requires
        bytes_lt(a, b),
    ensures
        !bytes_lt(b, a),
{
    let i = choose|i: int|
        #![trigger a[i], b[i]]
        0 <= i < a.len() && i < b.len() && a[i] < b[i] && forall|j: int|
            0 <= j < i ==> a[j] == b[j];
    if bytes_lt(b, a) {
        let j = choose|j: int|
            #![trigger b[j], a[j]]
            0 <= j < b.len() && j < a.len() && b[j] < a[j] && forall|k: int|
                0 <= k < j ==> b[k] == a[k];
        if i < j {
            assert(b[i] == a[i]);
        } else if j < i {
            assert(a[j] == b[j]);
        }
    }
}

/// Two strictly ascending sequences of byte strings that hold the same
/// elements are equal.
pub proof fn lemma_sorted_unique(a: Seq<Seq<u8>>, b: Seq<Seq<u8>>)
    requires
        forall|i: int, j: int| 0 <= i < j < a.len() ==> bytes_lt(#[trigger] a[i], #[trigger] a[j]),
        forall|i: int, j: int| 0 <= i < j < b.len() ==> bytes_lt(#[trigger] b[i], #[trigger] b[j]),
        forall|x: Seq<u8>| a.contains(x) <==> b.contains(x),
    ensures
        a == b,
    decreases a.len(),
{
    if a.len() == 0 {
        if b.len() > 0 {
            assert(b.contains(b[0]));
        }
        assert(a =~= b);
    } else {
        assert(a.contains(a[0]));
        assert(b.contains(a[0]));
        assert(b.contains(b[0]));
        assert(a.contains(b[0]));
        let j = choose|j: int| 0 <= j < b.len() && b[j] == a[0];
        let i = choose|i: int| 0 <= i < a.len() && a[i] == b[0];
        if j > 0 {
            assert(bytes_lt(b[0], b[j]));
            if i > 0 {
                assert(bytes_lt(a[0], a[i]));
                lemma_bytes_lt_asymmetric(a[0], a[i]);
            } else {
                lemma_bytes_lt_irreflexive(a[0]);
            }
        }
        assert(a[0] == b[0]);
        let a1 = a.drop_first();
        let b1 = b.drop_first();
        assert forall|x: Seq<u8>| a1.contains(x) <==> b1.contains(x) by {
            if a1.contains(x) {
                let k = choose|k: int| 0 <= k < a1.len() && a1[k] == x;
                assert(a[k + 1] == x);
                assert(bytes_lt(a[0], a[k + 1]));
                lemma_bytes_lt_irreflexive(x);
                assert(a.contains(x));
                let m = choose|m: int| 0 <= m < b.len() && b[m] == x;
                assert(m != 0);
                assert(b1[m - 1] == x);
            }
            if b1.contains(x) {
                let k = choose|k: int| 0 <= k < b1.len() && b1[k] == x;
                assert(b[k + 1] == x);
                assert(bytes_lt(b[0], b[k + 1]));
                lemma_bytes_lt_irreflexive(x);
                assert(b.contains(x));
                let m = choose|m: int| 0 <= m < a.len() && a[m] == x;
                assert(m != 0);
                assert(a1[m - 1] == x);
            }
        }
        lemma_sorted_unique(a1, b1);
        assert forall|k: int| 0 <= k < a.len() implies a[k] == b[k] by {
            if k > 0 {
                assert(a[k] == a1[k - 1]);
                assert(b[k] == b1[k - 1]);
            }
        }
        assert(a =~= b);
    }
}

/// The result of comparing two 32-byte keys.
#[derive(Debug, Clone, Copy, PartialEq, Eq, Structural)]
pub enum KeyOrder {
    Less,
    Equal,
    Greater,
}

/// Compares two 32-byte keys lexicographically.
pub fn compare_keys(a: &[u8; 32], b: &[u8; 32]) -> (r: KeyOrder)
    ensures
        r is Less <==> bytes_lt(a@, b@),
        r is Equal <==> a@ == b@,
        r is Greater <==> bytes_lt(b@, a@),
{
    let mut i: usize = 0;
    while i < 32
        invariant
            0 <= i <= 32,
            a@.len() == 32,
            b@.len() == 32,
            forall|j: int| 0 <= j < i ==> a@[j] == b@[j],
        decreases 32 - i,
    {
        if a[i] < b[i] {
            assert(bytes_lt(a@, b@)) by {
                assert(a@[i as int] < b@[i as int]);
            }
            proof {
                lemma_bytes_lt_asymmetric(a@, b@);
                lemma_bytes_lt_irreflexive(a@);
            }
            return KeyOrder::Less;
        } else if b[i] < a[i] {
            assert(bytes_lt(b@, a@)) by {
                assert(b@[i as int] < a@[i as int]);
                assert(forall|j: int| 0 <= j < i ==> b@[j] == a@[j]);
            }
            proof {
                lemma_bytes_lt_asymmetric(b@, a@);
                lemma_bytes_lt_irreflexive(a@);
            }
            return KeyOrder::Greater;
        }
        i = i + 1;
    }
    assert(a@ =~= b@);
    proof {
        lemma_bytes_lt_irreflexive(a@);
    }
    KeyOrder::Equal
}

/// Whether two 32-byte values are equal.
pub fn keys_equal(a: &[u8; 32], b: &[u8; 32]) -> (r: bool)
    ensures
        r == (a@ == b@),
{
    match compare_keys(a, b) {
        KeyOrder::Equal => true,
        _ => false,
    }
}

/// Sum of a sequence of amounts, as a mathematical integer.
pub open spec fn seq_sum(s: Seq<u64>) -> int
    decreases s.len(),
{
    if s.len() == 0 {
        0
    } else {
        seq_sum(s.drop_last()) + s.last()
    }
}

/// Replacing one amount changes the sum by the difference.
pub proof fn lemma_seq_sum_update(s: Seq<u64>, i: int, v: u64)
    requires
        0 <= i < s.len(),
    ensures
        seq_sum(s.update(i, v)) == seq_sum(s) - s[i] + v,
    decreases s.len(),
{
    if i == s.len() - 1 {
        assert(s.update(i, v).drop_last() =~= s.drop_last());
    } else {
        assert(s.update(i, v).drop_last() =~= s.drop_last().update(i, v));
        lemma_seq_sum_update(s.drop_last(), i, v);
    }
}

/// Inserting an amount adds it to the sum.
pub proof fn lemma_seq_sum_insert(s: Seq<u64>, i: int, v: u64)
    requires
        0 <= i <= s.len(),
    ensures
        seq_sum(s.insert(i, v)) == seq_sum(s) + v,
    decreases s.len(),
{
    if i == s.len() {
        assert(s.insert(i, v).drop_last() =~= s);
    } else {
        assert(s.insert(i, v).drop_last() =~= s.drop_last().insert(i, v));
        lemma_seq_sum_insert(s.drop_last(), i, v);
    }
}

/// A finite map keyed by 32-byte values (addresses), kept sorted by key so
/// that walking it visits the keys in ascending lexicographic order.
pub struct AddressMap<V> {
    keys: Vec<[u8; 32]>,
    vals: Vec<V>,
}

impl<V> AddressMap<V> {
    /// The representation invariant: one value per key, keys strictly ascending.
    pub closed spec fn wf(&self) -> bool {
        &&& self.keys.len() == self.vals.len()
        &&& forall|i: int, j: int|
            0 <= i < j < self.keys.len() ==> bytes_lt(
                #[trigger] self.keys[i]@,
                #[trigger] self.keys[j]@,
            )
    }

    /// The keys in ascending order.
    pub closed spec fn key_seq(&self) -> Seq<Seq<u8>> {
        Seq::new(self.keys.len() as nat, |i: int| self.keys[i]@)
    }

    /// The values, in the order of their keys.
    pub closed spec fn val_seq(&self) -> Seq<V> {
        self.vals@
    }

    closed spec fn has_key(&self, k: Seq<u8>) -> bool {
        exists|i: int| 0 <= i < self.keys.len() && self.keys[i]@ == k
    }

    closed spec fn index_of(&self, k: Seq<u8>) -> int {
        choose|i: int| 0 <= i < self.keys.len() && self.keys[i]@ == k
    }

    proof fn lemma_index(&self, i: int)
        requires
            self.wf(),
            0 <= i < self.keys.len(),
        ensures
            self.has_key(self.keys[i]@),
            self.index_of(self.keys[i]@) == i,
            self@.contains_key(self.keys[i]@),
            self@[self.keys[i]@] == self.vals[i],
    {
        let k = self.keys[i]@;
        assert(self.has_key(k));
        let j = self.index_of(k);
        if j < i {
            assert(bytes_lt(self.keys[j]@, self.keys[i]@));
            lemma_bytes_lt_irreflexive(k);
        } else if i < j {
            assert(bytes_lt(self.keys[i]@, self.keys[j]@));
            lemma_bytes_lt_irreflexive(k);
        }
    }

    /// What the sorted sequences say about the map.
    pub proof fn lemma_seqs(&self)
        requires
            self.wf(),
        ensures
            self.key_seq().len() == self.val_seq().len(),
            forall|i: int, j: int|
                0 <= i < j < self.key_seq().len() ==> bytes_lt(
                    #[trigger] self.key_seq()[i],
                    #[trigger] self.key_seq()[j],
                ),
            forall|i: int|
                0 <= i < self.key_seq().len() ==> #[trigger] self@.contains_key(self.key_seq()[i])
                    && self@[self.key_seq()[i]] == self.val_seq()[i],
            forall|k: Seq<u8>|
                #[trigger] self@.contains_key(k) ==> exists|i: int|
                    0 <= i < self.key_seq().len() && self.key_seq()[i] == k,
    {
        assert forall|i: int|
            0 <= i < self.key_seq().len() implies #[trigger] self@.contains_key(self.key_seq()[i])
            && self@[self.key_seq()[i]] == self.val_seq()[i] by {
            self.lemma_index(i);
        }
        assert forall|k: Seq<u8>| #[trigger] self@.contains_key(k) implies exists|i: int|
            0 <= i < self.key_seq().len() && self.key_seq()[i] == k by {
            let i = self.index_of(k);
            assert(self.key_seq()[i] == k);
        }
    }

    /// The map determines its sorted sequences: two well-formed maps with
    /// the same keys hold them in the same order, and with the same contents
    /// they hold the same values in the same order.
    pub proof fn lemma_view_determines(&self, other: &Self)
        requires
            self.wf(),
            other.wf(),
            self@.dom() == other@.dom(),
        ensures
            self.key_seq() == other.key_seq(),
            self@ == other@ ==> self.val_seq() == other.val_seq(),
    {
        self.lemma_seqs();
        other.lemma_seqs();
        let (ka, kb) = (self.key_seq(), other.key_seq());
        assert forall|x: Seq<u8>| ka.contains(x) <==> kb.contains(x) by {
            if ka.contains(x) {
                let i = choose|i: int| 0 <= i < ka.len() && ka[i] == x;
                assert(self@.contains_key(ka[i]));
                assert(self@.dom().contains(x));
                assert(other@.contains_key(x));
            }
            if kb.contains(x) {
                let i = choose|i: int| 0 <= i < kb.len() && kb[i] == x;
                assert(other@.contains_key(kb[i]));
                assert(other@.dom().contains(x));
                assert(self@.contains_key(x));
            }
        }
        lemma_sorted_unique(ka, kb);
        if self@ == other@ {
            assert forall|i: int| 0 <= i < self.val_seq().len() implies self.val_seq()[i]
                == other.val_seq()[i] by {
                assert(self@.contains_key(ka[i]));
                assert(other@.contains_key(kb[i]));
            }
            assert(self.val_seq() =~= other.val_seq());
        }
    }

    /// A map holds at most `usize::MAX` values.
    pub proof fn lemma_len_fits(&self)
        ensures
            self.val_seq().len() <= usize::MAX,
    {
        assert(self.vals@.len() == self.vals.len());
    }

    /// An empty map.
    pub fn new() -> (m: Self)
        ensures
            m.wf(),
            m@ == Map::<Seq<u8>, V>::empty(),
            m.val_seq().len() == 0,
    {
        let m = AddressMap { keys: Vec::new(), vals: Vec::new() };
        assert(m@ =~= Map::<Seq<u8>, V>::empty());
        m
    }

    /// Number of keys.
    pub fn len(&self) -> (n: usize)
        requires
            self.wf(),
        ensures
            n == self.key_seq().len(),
            n == self.val_seq().len(),
    {
        self.keys.len()
    }

    /// The `i`-th key in ascending order.
    pub fn key_at(&self, i: usize) -> (k: &[u8; 32])
        requires
            self.wf(),
            i < self.key_seq().len(),
        ensures
            k@ == self.key_seq()[i as int],
    {
        &self.keys[i]
    }

    /// The value of the `i`-th key in ascending order.
    pub fn value_at(&self, i: usize) -> (v: &V)
        requires
            self.wf(),
            i < self.val_seq().len(),
        ensures
            *v == self.val_seq()[i as int],
    {
        &self.vals[i]
    }

    /// Position of the first key that does not precede `k`, and whether it is `k`.
    fn locate(&self, k: &[u8; 32]) -> (res: (bool, usize))
        requires
            self.wf(),
        ensures
            res.1 <= self.keys.len(),
            forall|j: int| 0 <= j < res.1 ==> bytes_lt(#[trigger] self.keys[j]@, k@),
            res.0 ==> res.1 < self.keys.len() && self.keys[res.1 as int]@ == k@,
            !res.0 ==> (res.1 < self.keys.len() ==> bytes_lt(k@, self.keys[res.1 as int]@)),
            res.0 <==> self@.contains_key(k@),
    {
        let mut i: usize = 0;
        while i < self.keys.len()
            invariant
                self.wf(),
                0 <= i <= self.keys.len(),
                forall|j: int| 0 <= j < i ==> bytes_lt(#[trigger] self.keys[j]@, k@),
            decreases self.keys.len() - i,
        {
            match compare_keys(&self.keys[i], k) {
                KeyOrder::Less => {
                    i = i + 1;
                },
                KeyOrder::Equal => {
                    proof {
                        self.lemma_index(i as int);
                    }
                    return (true, i);
                },
                KeyOrder::Greater => {
                    proof {
                        self.lemma_absent(k@, i as int);
                    }
                    return (false, i);
                },
            }
        }
        proof {
            self.lemma_absent(k@, i as int);
        }
        (false, i)
    }

    proof fn lemma_absent(&self, k: Seq<u8>, p: int)
        requires
            self.wf(),
            k.len() == 32,
            0 <= p <= self.keys.len(),
            forall|j: int| 0 <= j < p ==> bytes_lt(#[trigger] self.keys[j]@, k),
            p < self.keys.len() ==> bytes_lt(k, self.keys[p]@),
        ensures
            !self@.contains_key(k),
    {
        if self.has_key(k) {
            let j = self.index_of(k);
            if j < p {
                lemma_bytes_lt_irreflexive(k);
            } else {
                if j > p {
                    assert(bytes_lt(self.keys[p]@, self.keys[j]@));
                    lemma_bytes_lt_transitive(k, self.keys[p]@, self.keys[j]@);
                }
                lemma_bytes_lt_irreflexive(k);
            }
        }
    }

    /// Looks up the value stored under `k`.
    pub fn get(&self, k: &[u8; 32]) -> (r: Option<&V>)
        requires
            self.wf(),
        ensures
            r is Some <==> self@.contains_key(k@),
            r matches Some(v) ==> *v == self@[k@],
    {
        let (found, pos) = self.locate(k);
        if found {
            proof {
                self.lemma_index(pos as int);
            }
            Some(&self.vals[pos])
        } else {
            None
        }
    }

    /// Whether `k` is a key of the map.
    pub fn contains_key(&self, k: &[u8; 32]) -> (r: bool)
        requires
            self.wf(),
        ensures
            r == self@.contains_key(k@),
    {
        let (found, _pos) = self.locate(k);
        found
    }

    /// Stores `v` under `k`, replacing any earlier value.
    pub fn insert(&mut self, k: [u8; 32], v: V)
        requires
            old(self).wf(),
        ensures
            final(self).wf(),
            final(self)@ == old(self)@.insert(k@, v),
            old(self)@.contains_key(k@) ==> exists|p: int|
                0 <= p < old(self).val_seq().len() && old(self).val_seq()[p] == old(self)@[k@]
                    && final(self).val_seq() == old(self).val_seq().update(p, v),
            !old(self)@.contains_key(k@) ==> exists|p: int|
                0 <= p <= old(self).val_seq().len() && final(self).val_seq()
                    == old(self).val_seq().insert(p, v),
    {
        let ghost old_self = *self;
        let (found, pos) = self.locate(&k);
        if found {
            proof {
                old_self.lemma_index(pos as int);
            }
            self.vals.set(pos, v);
            proof {
                assert forall|q: Seq<u8>| #[trigger] self@.contains_key(q) == old_self@.insert(
                    k@,
                    v,
                ).contains_key(q) && (self@.contains_key(q) ==> self@[q] == old_self@.insert(
                    k@,
                    v,
                )[q]) by {
                    if old_self.has_key(q) {
                        let j = old_self.index_of(q);
                        old_self.lemma_index(j);
                        self.lemma_index(j);
                    }
                    if self.has_key(q) {
                        let j = self.index_of(q);
                        self.lemma_index(j);
                        old_self.lemma_index(j);
                    }
                }
                assert(self@ =~= old_self@.insert(k@, v));
                assert(self.val_seq() == old_self.val_seq().update(pos as int, v));
            }
        } else {
            self.keys.insert(pos, k);
            self.vals.insert(pos, v);
            proof {
                assert forall|i: int, j: int|
                    0 <= i < j < self.keys.len() implies bytes_lt(
                    #[trigger] self.keys[i]@,
                    #[trigger] self.keys[j]@,
                ) by {
                    let ok = old_self.keys;
                    if j < pos {
                    } else if j == pos {
                    } else if i < pos {
                        assert(bytes_lt(ok[i]@, k@));
                        if pos < ok.len() {
                            assert(bytes_lt(k@, ok[pos as int]@));
                            lemma_bytes_lt_transitive(ok[i]@, k@, ok[pos as int]@);
                            if j - 1 > pos {
                                assert(bytes_lt(ok[pos as int]@, ok[j - 1]@));
                                lemma_bytes_lt_transitive(ok[i]@, ok[pos as int]@, ok[j - 1]@);
                            }
                        }
                    } else if i == pos {
                        assert(bytes_lt(k@, ok[pos as int]@));
                        if j - 1 > pos {
                            assert(bytes_lt(ok[pos as int]@, ok[j - 1]@));
                            lemma_bytes_lt_transitive(k@, ok[pos as int]@, ok[j - 1]@);
                        }
                    } else {
                        assert(bytes_lt(ok[i - 1]@, ok[j - 1]@));
                    }
                }
                assert forall|q: Seq<u8>| #[trigger] self@.contains_key(q) == old_self@.insert(
                    k@,
                    v,
                ).contains_key(q) && (self@.contains_key(q) ==> self@[q] == old_self@.insert(
                    k@,
                    v,
                )[q]) by {
                    if old_self.has_key(q) {
                        let j = old_self.index_of(q);
                        old_self.lemma_index(j);
                        let j2 = if j < pos { j } else { j + 1 };
                        assert(self.keys[j2]@ == q);
                        self.lemma_index(j2);
                    }
                    if self.has_key(q) {
                        let j = self.index_of(q);
                        self.lemma_index(j);
                        if j < pos {
                            old_self.lemma_index(j);
                        } else if j > pos {
                            assert(self.keys[j]@ == old_self.keys[j - 1]@);
                            old_self.lemma_index(j - 1);
                        }
                    }
                    if q == k@ {
                        self.lemma_index(pos as int);
                    }
                }
                assert(self@ =~= old_self@.insert(k@, v));
                assert(self.val_seq() == old_self.val_seq().insert(pos as int, v));
            }
        }
    }

    /// Removes `k` and returns the value it held, if any.
    pub fn remove(&mut self, k: &[u8; 32]) -> (r: Option<V>)
        requires
            old(self).wf(),
        ensures
            final(self).wf(),
            final(self)@ == old(self)@.remove(k@),
            r is Some <==> old(self)@.contains_key(k@),
            r matches Some(v) ==> v == old(self)@[k@],
            old(self)@.contains_key(k@) ==> exists|p: int|
                0 <= p < old(self).val_seq().len() && old(self).val_seq()[p] == old(self)@[k@]
                    && final(self).val_seq() == old(self).val_seq().remove(p),
            !old(self)@.contains_key(k@) ==> final(self).val_seq() == old(self).val_seq(),
    {
        let ghost old_self = *self;
        let (found, pos) = self.locate(k);
        if found {
            proof {
                old_self.lemma_index(pos as int);
            }
            self.keys.remove(pos);
            let v = self.vals.remove(pos);
            proof {
                assert forall|i: int, j: int|
                    0 <= i < j < self.keys.len() implies bytes_lt(
                    #[trigger] self.keys[i]@,
                    #[trigger] self.keys[j]@,
                ) by {
                    let i2 = if i < pos { i } else { i + 1 };
                    let j2 = if j < pos { j } else { j + 1 };
                    assert(self.keys[i]@ == old_self.keys[i2]@);
                    assert(self.keys[j]@ == old_self.keys[j2]@);
                }
                assert forall|q: Seq<u8>| #[trigger] self@.contains_key(q) == old_self@.remove(
                    k@,
                ).contains_key(q) && (self@.contains_key(q) ==> self@[q] == old_self@.remove(
                    k@,
                )[q]) by {
                    if old_self.has_key(q) {
                        let j = old_self.index_of(q);
                        old_self.lemma_index(j);
                        if j < pos {
                            self.lemma_index(j);
                        } else if j > pos {
                            assert(self.keys[j - 1]@ == q);
                            self.lemma_index(j - 1);
                        }
                    }
                    if self.has_key(q) {
                        let j = self.index_of(q);
                        self.lemma_index(j);
                        let j2 = if j < pos { j } else { j + 1 };
                        assert(self.keys[j]@ == old_self.keys[j2]@);
                        old_self.lemma_index(j2);
                    }
                }
                assert(self@ =~= old_self@.remove(k@));
                assert(self.val_seq() =~= old_self.val_seq().remove(pos as int));
            }
            Some(v)
        } else {
            proof {
                assert(self@ =~= old_self@.remove(k@));
            }
            None
        }
    }
}

impl<V: Copy> Clone for AddressMap<V> {
    fn clone(&self) -> (r: Self)
        ensures
            r.key_seq() == self.key_seq(),
            r.val_seq() == self.val_seq(),
            self.wf() ==> r.wf(),
            r@ == self@,
    {
        let mut keys: Vec<[u8; 32]> = Vec::new();
        let mut vals: Vec<V> = Vec::new();
        let n = self.keys.len();
        let mut i: usize = 0;
        while i < n
            invariant
                n == self.keys.len(),
                0 <= i <= n,
                keys@ == self.keys@.take(i as int),
                vals@ == self.vals@.take(i as int),
                i <= self.vals.len(),
            decreases n - i,
        {
            if i >= self.vals.len() {
                break;
            }
            keys.push(self.keys[i]);
            vals.push(self.vals[i]);
            i = i + 1;
            assert(keys@ =~= self.keys@.take(i as int));
            assert(vals@ =~= self.vals@.take(i as int));
        }
        let mut j: usize = i;
        while j < self.vals.len()
            invariant
                i <= j <= self.vals.len(),
                vals@ == self.vals@.take(j as int),
            decreases self.vals.len() - j,
        {
            vals.push(self.vals[j]);
            j = j + 1;
            assert(vals@ =~= self.vals@.take(j as int));
        }
        let mut k: usize = i;
        while k < n
            invariant
                n == self.keys.len(),
                i <= k <= n,
                keys@ == self.keys@.take(k as int),
            decreases n - k,
        {
            keys.push(self.keys[k]);
            k = k + 1;
            assert(keys@ =~= self.keys@.take(k as int));
        }
        assert(keys@ =~= self.keys@);
        assert(vals@ =~= self.vals@);
        let r = AddressMap { keys, vals };
        assert(r.key_seq() =~= self.key_seq());
        assert(r@ =~= self@);
        r
    }
}

impl<V> View for AddressMap<V> {
    type V = Map<Seq<u8>, V>;

    closed spec fn view(&self) -> Map<Seq<u8>, V> {
        Map::new(|k: Seq<u8>| self.has_key(k), |k: Seq<u8>| self.vals[self.index_of(k)])
    }
}

impl AddressMap<u64> {
    /// The sum of all amounts held in the map.
    pub open spec fn total(&self) -> int {
        seq_sum(self.val_seq())
    }

    /// Stores the amount `v` under `k`; the total changes by the difference.
    pub fn set_amount(&mut self, k: [u8; 32], v: u64)
        requires
            old(self).wf(),
        ensures
            final(self).wf(),
            final(self)@ == old(self)@.insert(k@, v),
            final(self).total() == old(self).total() - (if old(self)@.contains_key(k@) {
                old(self)@[k@] as int
            } else {
                0
            }) + v,
    {
        let ghost old_self = *self;
        self.insert(k, v);
        proof {
            if old_self@.contains_key(k@) {
                let p = choose|p: int|
                    0 <= p < old_self.val_seq().len() && old_self.val_seq()[p] == old_self@[k@]
                        && self.val_seq() == old_self.val_seq().update(p, v);
                lemma_seq_sum_update(old_self.vals@, p, v);
            } else {
                let p = choose|p: int|
                    0 <= p <= old_self.val_seq().len() && self.val_seq()
                        == old_self.val_seq().insert(p, v);
                lemma_seq_sum_insert(old_self.vals@, p, v);
            }
        }
    }

}

} // verus!
