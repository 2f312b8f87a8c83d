use vstd::prelude::*;
use crate::data::{Key, Value};
use crate::error::BrittMarieError;

verus! {

/// Copies a byte string.
pub fn copy_bytes(v: &Vec<u8>) -> (r: Vec<u8>)
    ensures
        r@ == v@,
{
    let mut r: Vec<u8> = Vec::new();
    let mut i: usize = 0;
    while i < v.len()
        invariant
            i <= v@.len(),
            r@ == v@.subrange(0, i as int),
        decreases v@.len() - i,
    {
        r.push(v[i]);
        i = i + 1;
    }
    proof {
        assert(r@ =~= v@);
    }
    r
}

/// Compares two byte strings.
pub fn bytes_eq(a: &Vec<u8>, b: &Vec<u8>) -> (r: bool)
    ensures
        r == (a@ == b@),
{
    if a.len() != b.len() {
        proof {
            assert(a@.len() != b@.len());
        }
        return false;
    }
    let mut i: usize = 0;
    while i < a.len()
        invariant
            i <= a@.len(),
            a@.len() == b@.len(),
            forall|j: int| 0 <= j < i ==> a@[j] == b@[j],
        decreases a@.len() - i,
    {
        if a[i] != b[i] {
            return false;
        }
        i = i + 1;
    }
    proof {
        assert(a@ =~= b@);
    }
    true
}

/// The key/value map an association list denotes: later entries win.
pub open spec fn assoc_view(s: Seq<(Vec<u8>, Vec<u8>)>) -> Map<Seq<u8>, Seq<u8>>
    decreases s.len(),
{
    if s.len() == 0 {
        Map::empty()
    } else {
        assoc_view(s.drop_last()).insert(s.last().0@, s.last().1@)
    }
}

/// No key occurs twice in the list.
pub open spec fn distinct_keys(s: Seq<(Vec<u8>, Vec<u8>)>) -> bool {
    forall|i: int, j: int| 0 <= i < j < s.len() ==> s[i].0@ != s[j].0@
}

/// The denoted map holds a key exactly when some entry carries it.
pub proof fn lemma_assoc_contains(s: Seq<(Vec<u8>, Vec<u8>)>, k: Seq<u8>)
    ensures
        assoc_view(s).contains_key(k) <==> exists|i: int| 0 <= i < s.len() && s[i].0@ == k,
    decreases s.len(),
{
    if s.len() > 0 {
        lemma_assoc_contains(s.drop_last(), k);
        if s.last().0@ == k {
            assert(s[s.len() - 1].0@ == k);
        } else if assoc_view(s).contains_key(k) {
            let i = choose|i: int| 0 <= i < s.drop_last().len() && s.drop_last()[i].0@ == k;
            assert(s[i].0@ == k);
        } else if exists|i: int| 0 <= i < s.len() && s[i].0@ == k {
            let i = choose|i: int| 0 <= i < s.len() && s[i].0@ == k;
            assert(0 <= i < s.len() - 1);
            assert(s.drop_last()[i].0@ == k);
        }
    }
}

/// Under distinct keys, the entry holding a key gives its value in the map.
pub proof fn lemma_assoc_lookup(s: Seq<(Vec<u8>, Vec<u8>)>, i: int)
    requires
        distinct_keys(s),
        0 <= i < s.len(),
    ensures
        assoc_view(s).contains_key(s[i].0@),
        assoc_view(s)[s[i].0@] == s[i].1@,
    decreases s.len(),
{
    if i == s.len() - 1 {
    } else {
        assert(s.drop_last()[i] == s[i]);
        lemma_assoc_lookup(s.drop_last(), i);
        assert(s[i].0@ != s[s.len() - 1].0@);
    }
}

/// Two lists with the same key and value bytes denote the same map.
pub proof fn lemma_assoc_congruent(s1: Seq<(Vec<u8>, Vec<u8>)>, s2: Seq<(Vec<u8>, Vec<u8>)>)
    requires
        s1.len() == s2.len(),
        forall|i: int| 0 <= i < s1.len() ==> s1[i].0@ == s2[i].0@ && s1[i].1@ == s2[i].1@,
    ensures
        assoc_view(s1) == assoc_view(s2),
    decreases s1.len(),
{
    if s1.len() > 0 {
        assert(forall|i: int|
            0 <= i < s1.len() - 1 ==> s1.drop_last()[i].0@ == s2.drop_last()[i].0@
                && s1.drop_last()[i].1@ == s2.drop_last()[i].1@);
        lemma_assoc_congruent(s1.drop_last(), s2.drop_last());
        assert(s1[s1.len() - 1].0@ == s2[s2.len() - 1].0@);
        assert(s1[s1.len() - 1].1@ == s2[s2.len() - 1].1@);
    }
}

/// The durable key/value store behind the indexes.
///
/// It keeps the live contents in memory and takes checkpoints as full
/// snapshots, numbered in the order they were taken; writes are not durable
/// on their own, only a checkpoint is. Writing the bytes of a snapshot out
/// to disk, and reading them back, is left to the unverified rim around
/// this crate.
pub struct RawStore {
    live: Vec<(Vec<u8>, Vec<u8>)>,
    checkpoints: Vec<Vec<(Vec<u8>, Vec<u8>)>>,
}

impl RawStore {
    /// The live contents as a map from key bytes to value bytes.
    pub closed spec fn view(&self) -> Map<Seq<u8>, Seq<u8>> {
        assoc_view(self.live@)
    }

    /// The snapshots taken so far, oldest first.
    pub closed spec fn snapshots(&self) -> Seq<Map<Seq<u8>, Seq<u8>>> {
        Seq::new(self.checkpoints@.len(), |n: int| assoc_view(self.checkpoints@[n]@))
    }

    /// Keys never repeat in the backing lists.
    pub closed spec fn wf(&self) -> bool {
        &&& distinct_keys(self.live@)
        &&& forall|n: int|
            0 <= n < self.checkpoints@.len() ==> distinct_keys(#[trigger] self.checkpoints@[n]@)
    }

    /// Creates an empty store.
    pub fn new() -> (r: RawStore)
        ensures
            r.wf(),
            r@ == Map::<Seq<u8>, Seq<u8>>::empty(),
            r.snapshots() == Seq::<Map<Seq<u8>, Seq<u8>>>::empty(),
    {
        let r = RawStore { live: Vec::new(), checkpoints: Vec::new() };
        proof {
            assert(r.snapshots() =~= Seq::<Map<Seq<u8>, Seq<u8>>>::empty());
        }
        r
    }

    /// Position of the entry holding `key`, if any.
    fn find_key(&self, key: &Vec<u8>) -> (r: Option<usize>)
        ensures
            match r {
                Some(i) => i < self.live@.len() && self.live@[i as int].0@ == key@,
                None => forall|i: int| 0 <= i < self.live@.len() ==> self.live@[i].0@ != key@,
            },
    {
        let mut i: usize = 0;
        while i < self.live.len()
            invariant
                i <= self.live@.len(),
                forall|j: int| 0 <= j < i ==> self.live@[j].0@ != key@,
            decreases self.live@.len() - i,
        {
            if bytes_eq(&self.live[i].0, key) {
                return Some(i);
            }
            i = i + 1;
        }
        None
    }

    /// Inserts or replaces one entry, given as raw bytes.
    pub fn put_raw(&mut self, key: Vec<u8>, value: Vec<u8>) -> (r: Result<(), BrittMarieError>)
        requires
            old(self).wf(),
        ensures
            final(self).wf(),
            r is Ok,
            final(self)@ == old(self)@.insert(key@, value@),
            final(self).snapshots() == old(self).snapshots(),
    {
        let ghost pre = self.live@;
        match self.find_key(&key) {
            Some(i) => {
                self.live.set(i, (key, value));
                proof {
                    assert forall|a: int, b: int|
                        0 <= a < b < self.live@.len() implies self.live@[a].0@
                        != self.live@[b].0@ by {
                        assert(pre[a].0@ != pre[b].0@ || a == i || b == i);
                    }
                    lemma_assoc_update(pre, self.live@, i as int);
                }
            },
            None => {
                self.live.push((key, value));
                proof {
                    assert(self.live@.drop_last() =~= pre);
                }
            },
        }
        proof {
            assert(self.snapshots() =~= old(self).snapshots());
        }
        Ok(())
    }

    /// Reads the value bytes stored under `key`, if any.
    pub fn get_raw(&self, key: &Vec<u8>) -> (r: Option<Vec<u8>>)
        requires
            self.wf(),
        ensures
            match r {
                Some(v) => self@.contains_key(key@) && v@ == self@[key@],
                None => !self@.contains_key(key@),
            },
    {
        match self.find_key(key) {
            Some(i) => {
                proof {
                    lemma_assoc_lookup(self.live@, i as int);
                }
                Some(copy_bytes(&self.live[i].1))
            },
            None => {
                proof {
                    lemma_assoc_contains(self.live@, key@);
                }
                None
            },
        }
    }

    /// Inserts or replaces one typed entry: both sides are encoded, and an
    /// encoding failure aborts the write and surfaces as `Serde`.
    pub fn put<K: Key, V: Value>(&mut self, key: &K, value: &V) -> (r: Result<
        (),
        BrittMarieError,
    >)
        requires
            old(self).wf(),
        ensures
            final(self).wf(),
            r is Ok <==> key.enc_ok() && value.enc_ok(),
            r is Ok ==> final(self)@ == old(self)@.insert(key.enc(), value.enc()),
            r is Err ==> final(self)@ == old(self)@ && r->Err_0 is Serde,
            final(self).snapshots() == old(self).snapshots(),
    {
        let raw_key = match key.into_raw() {
            Ok(b) => b,
            Err(e) => {
                return Err(BrittMarieError::Serde(String::new()));
            },
        };
        let raw_value = match value.into_raw() {
            Ok(b) => b,
            Err(e) => {
                return Err(BrittMarieError::Serde(String::new()));
            },
        };
        self.put_raw(raw_key, raw_value)
    }

    /// Reads the typed value stored under `key`, if any.
    pub fn get<K: Key, V: Value>(&self, key: &K) -> (r: Result<Option<V>, BrittMarieError>)
        requires
            self.wf(),
            key.enc_ok(),
        ensures
            !self@.contains_key(key.enc()) ==> r == Ok::<Option<V>, BrittMarieError>(
                None::<V>,
            ),
            forall|v: V|
                self@.contains_key(key.enc()) && self@[key.enc()] == v.enc() && v.enc_ok()
                    ==> r == Ok::<Option<V>, BrittMarieError>(Some(v)),
    {
        let raw_key = match key.into_raw() {
            Ok(b) => b,
            Err(e) => {
                return Err(BrittMarieError::Serde(String::new()));
            },
        };
        match self.get_raw(&raw_key) {
            Some(bytes) => {
                match V::from_raw(bytes.as_slice()) {
                    Ok(v) => Ok(Some(v)),
                    Err(e) => Err(e),
                }
            },
            None => Ok(None),
        }
    }

    /// Writes a batch of typed entries in order; the first failure aborts
    /// the rest of the batch.
    pub fn put_batch<K: Key, V: Value>(&mut self, pairs: &Vec<(K, V)>) -> (r: Result<
        (),
        BrittMarieError,
    >)
        requires
            old(self).wf(),
        ensures
            final(self).wf(),
            final(self).snapshots() == old(self).snapshots(),
            (forall|i: int| 0 <= i < pairs@.len() ==> #[trigger] pairs@[i].0.enc_ok()
                && pairs@[i].1.enc_ok()) ==> r is Ok,
            r is Ok ==> forall|i: int|
                0 <= i < pairs@.len() && (forall|j: int|
                    i < j < pairs@.len() ==> pairs@[j].0.enc() != #[trigger] pairs@[i].0.enc())
                    ==> final(self)@.contains_key(#[trigger] pairs@[i].0.enc())
                    && final(self)@[pairs@[i].0.enc()] == pairs@[i].1.enc(),
    {
        let mut i: usize = 0;
        while i < pairs.len()
            invariant
                i <= pairs@.len(),
                self.wf(),
                self.snapshots() == old(self).snapshots(),
                forall|a: int|
                    0 <= a < i && (forall|j: int|
                        a < j < i ==> pairs@[j].0.enc() != #[trigger] pairs@[a].0.enc())
                        ==> self@.contains_key(#[trigger] pairs@[a].0.enc())
                        && self@[pairs@[a].0.enc()] == pairs@[a].1.enc(),
            decreases pairs@.len() - i,
        {
            match self.put(&pairs[i].0, &pairs[i].1) {
                Ok(_) => {},
                Err(e) => {
                    return Err(e);
                },
            }
            i = i + 1;
        }
        Ok(())
    }

    /// Takes a checkpoint: a snapshot of the live contents, appended to the
    /// numbered snapshot sequence.
    pub fn checkpoint(&mut self) -> (r: Result<(), BrittMarieError>)
        requires
            old(self).wf(),
        ensures
            final(self).wf(),
            r is Ok,
            final(self)@ == old(self)@,
            final(self).snapshots() == old(self).snapshots().push(old(self)@),
    {
        let mut snap: Vec<(Vec<u8>, Vec<u8>)> = Vec::new();
        let mut i: usize = 0;
        while i < self.live.len()
            invariant
                i <= self.live@.len(),
                snap@.len() == i,
                self.live@ == old(self).live@,
                self.checkpoints@ == old(self).checkpoints@,
                forall|j: int|
                    0 <= j < i ==> snap@[j].0@ == self.live@[j].0@ && snap@[j].1@
                        == self.live@[j].1@,
            decreases self.live@.len() - i,
        {
            let k = copy_bytes(&self.live[i].0);
            let v = copy_bytes(&self.live[i].1);
            snap.push((k, v));
            i = i + 1;
        }
        proof {
            lemma_assoc_congruent(snap@, self.live@);
        }
        self.checkpoints.push(snap);
        proof {
            assert(self.snapshots() =~= old(self).snapshots().push(old(self)@));
        }
        Ok(())
    }

    /// How many checkpoints this store has taken.
    pub fn checkpoint_counter(&self) -> (r: usize)
        ensures
            r == self.snapshots().len(),
    {
        self.checkpoints.len()
    }

    /// The raw entries of checkpoint `n`, for the rim to carry to disk.
    pub fn snapshot_pairs(&self, n: usize) -> (r: Vec<(Vec<u8>, Vec<u8>)>)
        requires
            self.wf(),
            n < self.snapshots().len(),
        ensures
            distinct_keys(r@),
            assoc_view(r@) == self.snapshots()[n as int],
    {
        let src = &self.checkpoints[n];
        let mut out: Vec<(Vec<u8>, Vec<u8>)> = Vec::new();
        let mut i: usize = 0;
        while i < src.len()
            invariant
                i <= src@.len(),
                out@.len() == i,
                src@ == self.checkpoints@[n as int]@,
                forall|j: int|
                    0 <= j < i ==> out@[j].0@ == src@[j].0@ && out@[j].1@ == src@[j].1@,
            decreases src@.len() - i,
        {
            let k = copy_bytes(&src[i].0);
            let v = copy_bytes(&src[i].1);
            out.push((k, v));
            i = i + 1;
        }
        proof {
            lemma_assoc_congruent(out@, self.checkpoints@[n as int]@);
        }
        out
    }

    /// Rebuilds a store from raw entries the rim read back from disk;
    /// later copies of a key win, as in the write order they came from.
    pub fn from_pairs(pairs: Vec<(Vec<u8>, Vec<u8>)>) -> (r: RawStore)
        ensures
            r.wf(),
            r@ == assoc_view(pairs@),
            r.snapshots() == Seq::<Map<Seq<u8>, Seq<u8>>>::empty(),
    {
        let mut r = RawStore::new();
        let mut i: usize = 0;
        proof {
            assert(assoc_view(pairs@.subrange(0, 0)) =~= Map::<Seq<u8>, Seq<u8>>::empty());
        }
        while i < pairs.len()
            invariant
                i <= pairs@.len(),
                r.wf(),
                r@ == assoc_view(pairs@.subrange(0, i as int)),
                r.snapshots() == Seq::<Map<Seq<u8>, Seq<u8>>>::empty(),
            decreases pairs@.len() - i,
        {
            let k = copy_bytes(&pairs[i].0);
            let v = copy_bytes(&pairs[i].1);
            let res = r.put_raw(k, v);
            proof {
                assert(res is Ok);
                assert(pairs@.subrange(0, i + 1).drop_last() =~= pairs@.subrange(0, i as int));
                assert(pairs@.subrange(0, i + 1).last() == pairs@[i as int]);
            }
            i = i + 1;
        }
        proof {
            assert(pairs@.subrange(0, pairs@.len() as int) =~= pairs@);
        }
        r
    }

    /// Opens a fresh store on the contents of checkpoint `n`, as reopening
    /// the engine against that snapshot directory would.
    pub fn from_checkpoint(&self, n: usize) -> (r: RawStore)
        requires
            self.wf(),
            n < self.snapshots().len(),
        ensures
            r.wf(),
            r@ == self.snapshots()[n as int],
            r.snapshots() == Seq::<Map<Seq<u8>, Seq<u8>>>::empty(),
    {
        let src = &self.checkpoints[n];
        let mut live: Vec<(Vec<u8>, Vec<u8>)> = Vec::new();
        let mut i: usize = 0;
        while i < src.len()
            invariant
                i <= src@.len(),
                live@.len() == i,
                src@ == self.checkpoints@[n as int]@,
                forall|j: int|
                    0 <= j < i ==> live@[j].0@ == src@[j].0@ && live@[j].1@ == src@[j].1@,
            decreases src@.len() - i,
        {
            let k = copy_bytes(&src[i].0);
            let v = copy_bytes(&src[i].1);
            live.push((k, v));
            i = i + 1;
        }
        proof {
            lemma_assoc_congruent(live@, self.checkpoints@[n as int]@);
        }
        let r = RawStore { live, checkpoints: Vec::new() };
        proof {
            assert(r.snapshots() =~= Seq::<Map<Seq<u8>, Seq<u8>>>::empty());
        }
        r
    }
}

/// Replacing the entry at `i` with one carrying the same key updates the
/// denoted map at that key alone.
proof fn lemma_assoc_update(pre: Seq<(Vec<u8>, Vec<u8>)>, post: Seq<(Vec<u8>, Vec<u8>)>, i: int)
    requires
        pre.len() == post.len(),
        0 <= i < pre.len(),
        distinct_keys(pre),
        post[i].0@ == pre[i].0@,
        forall|j: int| 0 <= j < pre.len() && j != i ==> post[j] == pre[j],
    ensures
        assoc_view(post) == assoc_view(pre).insert(post[i].0@, post[i].1@),
    decreases pre.len(),
{
    if i == pre.len() - 1 {
        assert(post.drop_last() =~= pre.drop_last());
        assert(assoc_view(post) == assoc_view(pre.drop_last()).insert(post[i].0@, post[i].1@));
        assert(assoc_view(pre).insert(post[i].0@, post[i].1@) =~= assoc_view(
            pre.drop_last(),
        ).insert(post[i].0@, post[i].1@));
    } else {
        assert(forall|a: int, b: int|
            0 <= a < b < pre.drop_last().len() ==> pre.drop_last()[a].0@
                != pre.drop_last()[b].0@);
        assert(post.drop_last()[i].0@ == pre.drop_last()[i].0@);
        lemma_assoc_update(pre.drop_last(), post.drop_last(), i);
        assert(post.last() == pre.last());
        assert(pre[i].0@ != pre.last().0@);
        assert(assoc_view(post) == assoc_view(post.drop_last()).insert(
            post.last().0@,
            post.last().1@,
        ));
        assert(assoc_view(pre.drop_last()).insert(pre[i].0@, post[i].1@).insert(
            pre.last().0@,
            pre.last().1@,
        ) =~= assoc_view(pre.drop_last()).insert(pre.last().0@, pre.last().1@).insert(
            pre[i].0@,
            post[i].1@,
        ));
    }
}

} // verus!
