//! The key-value store: a mapping from byte-string keys to byte-string
//! values, shared by every connection of the server.

use vstd::prelude::*;

verus! {

/// Compare two byte slices for equality.
pub fn bytes_equal(a: &[u8], b: &[u8]) -> (r: bool)
    ensures
        r == (a@ == b@),
{
    if a.len() != b.len() {
        return false;
    }
    let n = a.len();
    let mut i: usize = 0;
    while i < n
        invariant
            i <= n,
            n == a@.len(),
            a@.len() == b@.len(),
            forall|k: int| 0 <= k < i ==> #[trigger] a@[k] == b@[k],
        decreases n - i,
    {
        if a[i] != b[i] {
            return false;
        }
        i = i + 1;
    }
    proof {
        assert(a@ =~= b@);
    }
    true
}

/// The mapping a sequence of entries spells, a later entry for a key
/// overriding any earlier one.
pub open spec fn entries_map(s: Seq<(Vec<u8>, Vec<u8>)>) -> Map<Seq<u8>, Seq<u8>>
    decreases s.len(),
{
    if s.len() == 0 {
        Map::empty()
    } else {
        entries_map(s.drop_last()).insert(s.last().0@, s.last().1@)
    }
}

/// Overwriting the entry that decides a key — the one no later entry
/// shadows — changes the mapping exactly as inserting that key would.
proof fn lemma_entries_map_update(s: Seq<(Vec<u8>, Vec<u8>)>, i: int, e: (Vec<u8>, Vec<u8>))
    requires
        0 <= i < s.len(),
        s[i].0@ == e.0@,
        forall|j: int| i < j < s.len() ==> #[trigger] s[j].0@ != e.0@,
    ensures
        entries_map(s.update(i, e)) == entries_map(s).insert(e.0@, e.1@),
    decreases s.len(),
{
    let t = s.update(i, e);
    if i == s.len() - 1 {
        assert(t.drop_last() =~= s.drop_last());
        assert(t.last() == e);
        assert(entries_map(s) == entries_map(s.drop_last()).insert(s.last().0@, s.last().1@));
        assert(entries_map(t) =~= entries_map(s).insert(e.0@, e.1@));
    } else {
        assert(t.drop_last() =~= s.drop_last().update(i, e));
        assert(t.last() == s.last());
        assert(forall|j: int| i < j < s.len() - 1 ==> #[trigger] s.drop_last()[j].0@ != e.0@);
        lemma_entries_map_update(s.drop_last(), i, e);
        assert(s[s.len() - 1].0@ != e.0@);
        assert(entries_map(t) =~= entries_map(s).insert(e.0@, e.1@));
    }
}

/// The store: owned byte-string keys mapped to owned byte-string values.
/// Its view is the mapping itself; reads and writes appear there atomically,
/// one whole entry at a time.
pub struct Storage {
    data: Vec<(Vec<u8>, Vec<u8>)>,
}

impl View for Storage {
    type V = Map<Seq<u8>, Seq<u8>>;

    closed spec fn view(&self) -> Map<Seq<u8>, Seq<u8>> {
        entries_map(self.data@)
    }
}

impl Storage {
    /// An empty store.
    pub fn new() -> (r: Storage)
        ensures
            r@ == Map::<Seq<u8>, Seq<u8>>::empty(),
    {
        Storage { data: Vec::new() }
    }

    /// Look a key up: its value where the store holds one, nothing where it
    /// does not.
    pub fn get(&self, key: &[u8]) -> (r: Option<&Vec<u8>>)
        ensures
            match r {
                Some(v) => self@.contains_key(key@) && v@ == self@[key@],
                None => !self@.contains_key(key@),
            },
    {
        let n = self.data.len();
        let mut j: usize = n;
        proof {
            assert(self.data@.take(n as int) =~= self.data@);
        }
        while j > 0
            invariant
                j <= n,
                n == self.data@.len(),
                entries_map(self.data@).contains_key(key@) == entries_map(
                    self.data@.take(j as int),
                ).contains_key(key@),
                entries_map(self.data@).contains_key(key@) ==> entries_map(self.data@)[key@]
                    == entries_map(self.data@.take(j as int))[key@],
            decreases j,
        {
            proof {
                assert(self.data@.take(j as int).drop_last() =~= self.data@.take(j - 1));
                assert(self.data@.take(j as int).last() == self.data@[j - 1]);
            }
            if bytes_equal(self.data[j - 1].0.as_slice(), key) {
                return Some(&self.data[j - 1].1);
            }
            j = j - 1;
        }
        proof {
            assert(self.data@.take(0) =~= Seq::<(Vec<u8>, Vec<u8>)>::empty());
        }
        None
    }

    /// Write a value under a key, discarding whatever the key held before.
    pub fn set(&mut self, key: Vec<u8>, value: Vec<u8>)
        ensures
            final(self)@ == old(self)@.insert(key@, value@),
    {
        let n = self.data.len();
        let mut j: usize = n;
        while j > 0
            invariant
                j <= n,
                n == self.data@.len(),
                *self == *old(self),
                forall|t: int| j <= t < n ==> #[trigger] self.data@[t].0@ != key@,
            decreases j,
        {
            if bytes_equal(self.data[j - 1].0.as_slice(), key.as_slice()) {
                proof {
                    lemma_entries_map_update(self.data@, j - 1, (key, value));
                }
                self.data[j - 1] = (key, value);
                return ;
            }
            j = j - 1;
        }
        proof {
            assert(self.data@.push((key, value)).drop_last() =~= self.data@);
        }
        self.data.push((key, value));
    }
}

/// A write to one key neither adds, removes, nor changes any other key: a
/// connection's write stays visible to its own later reads, however writes
/// to distinct keys from other connections interleave with it.
pub proof fn lemma_write_isolation(
    m: Map<Seq<u8>, Seq<u8>>,
    k: Seq<u8>,
    other: Seq<u8>,
    v: Seq<u8>,
)
    requires
        k != other,
    ensures
        m.insert(other, v).contains_key(k) == m.contains_key(k),
        m.contains_key(k) ==> m.insert(other, v)[k] == m[k],
{
}

/// Writes to distinct keys commute: however two connections' writes to
/// their own keys interleave, the store ends the same, and each key holds
/// the value its writer gave it.
pub proof fn lemma_distinct_writes_commute(
    m: Map<Seq<u8>, Seq<u8>>,
    k1: Seq<u8>,
    v1: Seq<u8>,
    k2: Seq<u8>,
    v2: Seq<u8>,
)
    requires
        k1 != k2,
    ensures
        m.insert(k1, v1).insert(k2, v2) == m.insert(k2, v2).insert(k1, v1),
        m.insert(k1, v1).insert(k2, v2)[k1] == v1,
        m.insert(k1, v1).insert(k2, v2)[k2] == v2,
{
    assert(m.insert(k1, v1).insert(k2, v2) =~= m.insert(k2, v2).insert(k1, v1));
}

} // verus!
