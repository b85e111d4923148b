//! A snapshot of a directory tree: a bijection between file paths and the
//! digests of their contents, and the classified difference of two snapshots.
use bimap::BiHashMap;
use vstd::prelude::*;

verus! {

/// A content digest: a fixed-size fingerprint of a file's bytes.
pub type Digest = [u8; 32];

#[verifier::external_type_specification]
#[verifier::external_body]
#[verifier::reject_recursive_types(L)]
#[verifier::reject_recursive_types(R)]
#[verifier::reject_recursive_types(LS)]
#[verifier::reject_recursive_types(RS)]
pub struct ExBiHashMap<L, R, LS, RS>(BiHashMap<L, R, LS, RS>);

/// The pairs that a bimap of paths and digests holds, as a map from path to digest.
pub uninterp spec fn bimap_contents(m: BiHashMap<String, Digest>) -> Map<Seq<char>, Seq<u8>>;

/// Whether some key of `m` is mapped to `v`.
pub open spec fn has_value(m: Map<Seq<char>, Seq<u8>>, v: Seq<u8>) -> bool {
    exists|k: Seq<char>| #[trigger] m.contains_key(k) && m[k] == v
}

/// No two keys of `m` share a value.
pub open spec fn injective(m: Map<Seq<char>, Seq<u8>>) -> bool {
    forall|p: Seq<char>, q: Seq<char>|
        #[trigger] m.contains_key(p) && #[trigger] m.contains_key(q) && m[p] == m[q] ==> p == q
}

/// `m` with every pair whose value is `v` taken out.
pub open spec fn without_value(m: Map<Seq<char>, Seq<u8>>, v: Seq<u8>) -> Map<Seq<char>, Seq<u8>> {
    m.restrict(m.dom().filter(|k: Seq<char>| m[k] != v))
}

/// Insertion with eviction: any pair that shares the path or the digest goes,
/// then the new pair is added.
pub open spec fn insert_evicting(
    m: Map<Seq<char>, Seq<u8>>,
    path: Seq<char>,
    digest: Seq<u8>,
) -> Map<Seq<char>, Seq<u8>> {
    without_value(m.remove(path), digest).insert(path, digest)
}

/// The map obtained by inserting `records` in order, each with eviction.
pub open spec fn fold_records(records: Seq<(Seq<char>, Seq<u8>)>) -> Map<Seq<char>, Seq<u8>>
    decreases records.len(),
{
    if records.len() == 0 {
        Map::empty()
    } else {
        let last = records.last();
        insert_evicting(fold_records(records.drop_last()), last.0, last.1)
    }
}

/// The views of a sequence of records.
pub open spec fn record_views(records: Seq<(String, Digest)>) -> Seq<(Seq<char>, Seq<u8>)> {
    records.map_values(|r: (String, Digest)| (r.0@, r.1@))
}

/// The SHA-256 digest of a byte string.
pub uninterp spec fn sha256(data: Seq<u8>) -> Seq<u8>;

/// Relies on `ring::digest::digest` with `SHA256`: the 32-byte SHA-256
/// digest of the bytes.
#[verifier::external_body]
fn sha256_of(data: &[u8]) -> (r: Digest)
    ensures
        r@ == sha256(data@),
{
    let mut out = [0u8; 32];
    out.copy_from_slice(ring::digest::digest(&ring::digest::SHA256, data).as_ref());
    out
}

/// The content digest of a file's bytes: their SHA-256 digest, which depends
/// on the bytes alone.
pub fn content_digest(contents: &[u8]) -> (r: Digest)
    ensures
        r@ == sha256(contents@),
{
    sha256_of(contents)
}

/// Relies on `BiHashMap::new`: a new bimap is empty.
#[verifier::external_body]
fn bimap_new() -> (r: BiHashMap<String, Digest>)
    ensures
        bimap_contents(r).dom() == Set::<Seq<char>>::empty(),
{
    BiHashMap::new()
}

/// Relies on `BiHashMap::insert`: it removes the pair with the same left value
/// and the pair with the same right value, then adds the new pair.
#[verifier::external_body]
fn bimap_insert(m: &mut BiHashMap<String, Digest>, left: String, right: Digest)
    ensures
        bimap_contents(*final(m)) == insert_evicting(bimap_contents(*old(m)), left@, right@),
    no_unwind
{
    m.insert(left, right);
}

/// Relies on `BiHashMap::get_by_left`: the right value paired with `left`, if any.
#[verifier::external_body]
fn bimap_get_by_left(m: &BiHashMap<String, Digest>, left: &String) -> (r: Option<Digest>)
    ensures
        match r {
            Some(d) => bimap_contents(*m).contains_key(left@) && bimap_contents(*m)[left@] == d@,
            None => !bimap_contents(*m).contains_key(left@),
        },
{
    m.get_by_left(left).copied()
}

/// Relies on `BiHashMap::get_by_right`: the left value paired with `right`, if any.
#[verifier::external_body]
fn bimap_get_by_right(m: &BiHashMap<String, Digest>, right: &Digest) -> (r: Option<String>)
    ensures
        match r {
            Some(p) => bimap_contents(*m).contains_key(p@) && bimap_contents(*m)[p@] == right@,
            None => !has_value(bimap_contents(*m), right@),
        },
{
    m.get_by_right(right).cloned()
}

/// Relies on `BiHashMap::clone`: a bimap with the same pairs.
#[verifier::external_body]
fn bimap_clone(m: &BiHashMap<String, Digest>) -> (r: BiHashMap<String, Digest>)
    ensures
        bimap_contents(r) == bimap_contents(*m),
{
    m.clone()
}

/// Relies on `BiHashMap::iter`: it visits every pair once, in an order that
/// is left open.
#[verifier::external_body]
fn bimap_pairs(m: &BiHashMap<String, Digest>) -> (r: Vec<(String, Digest)>)
    ensures
        forall|k: Seq<char>| #[trigger] bimap_contents(*m).contains_key(k)
            ==> exists|i: int| 0 <= i < r@.len() && r@[i].0@ == k,
        forall|i: int| 0 <= i < r@.len() ==> bimap_contents(*m).contains_key(#[trigger] r@[i].0@)
            && bimap_contents(*m)[r@[i].0@] == r@[i].1@,
        forall|i: int, j: int| 0 <= i < j < r@.len() ==> #[trigger] r@[i].0@ != #[trigger] r@[j].0@,
{
    let mut v = Vec::new();
    for (l, r) in m.iter() {
        v.push((l.clone(), *r));
    }
    v
}

/// A snapshot: each path is paired with one digest and each digest with one path.
#[derive(Debug, PartialEq, Eq)]
pub struct Index {
    map: BiHashMap<String, Digest>,
}

impl View for Index {
    type V = Map<Seq<char>, Seq<u8>>;

    closed spec fn view(&self) -> Map<Seq<char>, Seq<u8>> {
        bimap_contents(self.map)
    }
}

impl Clone for Index {
    fn clone(&self) -> (r: Index)
        ensures
            r@ == self@,
    {
        proof {
            use_type_invariant(self);
        }
        Index { map: bimap_clone(&self.map) }
    }
}

impl Default for Index {
    fn default() -> (r: Index)
        ensures
            r@.dom() == Set::<Seq<char>>::empty(),
    {
        Index::new()
    }
}

impl Index {
    #[verifier::type_invariant]
    spec fn inv(self) -> bool {
        injective(self@)
    }

    /// An empty snapshot.
    pub fn new() -> (r: Index)
        ensures
            r@.dom() == Set::<Seq<char>>::empty(),
            injective(r@),
    {
        Index { map: bimap_new() }
    }

    /// Pairs `path` with `digest`, evicting any pair that shares either.
    pub fn insert(&mut self, path: String, digest: Digest)
        ensures
            final(self)@ == insert_evicting(old(self)@, path@, digest@),
            injective(final(self)@),
    {
        proof {
            use_type_invariant(&*self);
        }
        let ghost before = self@;
        bimap_insert(&mut self.map, path, digest);
        proof {
            let after = self@;
            assert forall|p: Seq<char>, q: Seq<char>|
                #[trigger] after.contains_key(p) && #[trigger] after.contains_key(q) && after[p]
                    == after[q] implies p == q by {
                if p != q {
                    if p != path@ && q != path@ {
                        assert(before.contains_key(p) && before.contains_key(q));
                    }
                }
            }
        }
    }

    /// The snapshot that folds `records` in order, each inserted with eviction,
    /// so that a later record wins over an earlier one on either axis.
    pub fn from_records(records: &Vec<(String, Digest)>) -> (r: Index)
        ensures
            r@ == fold_records(record_views(records@)),
            injective(r@),
    {
        let mut index = Index::new();
        proof {
            assert(index@ =~= fold_records(record_views(records@).take(0)));
        }
        let mut i: usize = 0;
        while i < records.len()
            invariant
                i <= records.len(),
                index@ == fold_records(record_views(records@).take(i as int)),
            decreases records.len() - i,
        {
            let ghost views = record_views(records@);
            proof {
                assert(views.take(i as int + 1).drop_last() == views.take(i as int));
            }
            let path = records[i].0.clone();
            index.insert(path, records[i].1);
            i = i + 1;
        }
        proof {
            assert(record_views(records@).take(i as int) == record_views(records@));
            use_type_invariant(&index);
        }
        index
    }

    /// The digest paired with `path`, if any.
    pub fn by_path(&self, path: &String) -> (r: Option<Digest>)
        ensures
            match r {
                Some(d) => self@.contains_key(path@) && self@[path@] == d@,
                None => !self@.contains_key(path@),
            },
    {
        bimap_get_by_left(&self.map, path)
    }

    /// The path paired with `digest`, if any.
    pub fn by_digest(&self, digest: &Digest) -> (r: Option<String>)
        ensures
            match r {
                Some(p) => self@.contains_key(p@) && self@[p@] == digest@,
                None => !has_value(self@, digest@),
            },
    {
        bimap_get_by_right(&self.map, digest)
    }

    /// Every pair of the snapshot, once each, in an unspecified order.
    pub fn records(&self) -> (r: Vec<(String, Digest)>)
        ensures
            is_walk(self@, r@),
            injective(self@),
            self@.dom().finite(),
            self@.len() == r@.len(),
    {
        proof {
            use_type_invariant(self);
        }
        let r = bimap_pairs(&self.map);
        proof {
            lemma_walk_len(self@, r@);
        }
        r
    }
}


/// One classified change between two snapshots.
#[derive(Clone, Debug, PartialEq, Eq, Hash)]
pub enum IndexDifference {
    /// A path whose content is new: neither the path nor its digest was there before.
    Add(String),
    /// A path that was there before with another digest.
    Edit(String),
    /// Content that was there before at `from` and is now at `to`, a new path.
    Rename { from: String, to: String },
    /// A path that was there before, whose path and digest are both gone.
    Delete(String),
}

/// The mathematical form of an [`IndexDifference`].
pub enum Change {
    Add(Seq<char>),
    Edit(Seq<char>),
    Rename(Seq<char>, Seq<char>),
    Delete(Seq<char>),
}

impl View for IndexDifference {
    type V = Change;

    open spec fn view(&self) -> Change {
        match self {
            IndexDifference::Add(p) => Change::Add(p@),
            IndexDifference::Edit(p) => Change::Edit(p@),
            IndexDifference::Rename { from, to } => Change::Rename(from@, to@),
            IndexDifference::Delete(p) => Change::Delete(p@),
        }
    }
}

/// The path a change is about: for a rename, the new one.
pub open spec fn target(c: Change) -> Seq<char> {
    match c {
        Change::Add(p) => p,
        Change::Edit(p) => p,
        Change::Rename(_, to) => to,
        Change::Delete(p) => p,
    }
}

/// Whether `c` is a change from `prev` to `cur`, classified by path and digest.
pub open spec fn is_change(cur: Map<Seq<char>, Seq<u8>>, prev: Map<Seq<char>, Seq<u8>>, c: Change) -> bool {
    match c {
        Change::Add(p) => cur.contains_key(p) && !prev.contains_key(p) && !has_value(prev, cur[p]),
        Change::Edit(p) => cur.contains_key(p) && prev.contains_key(p) && prev[p] != cur[p],
        Change::Rename(from, to) => cur.contains_key(to) && !prev.contains_key(to)
            && prev.contains_key(from) && prev[from] == cur[to],
        Change::Delete(p) => prev.contains_key(p) && !cur.contains_key(p) && !has_value(cur, prev[p]),
    }
}

/// Whether the pair at `p` in `cur` differs from what `prev` holds at `p`.
pub open spec fn changed_at(cur: Map<Seq<char>, Seq<u8>>, prev: Map<Seq<char>, Seq<u8>>, p: Seq<char>) -> bool {
    cur.contains_key(p) && !(prev.contains_key(p) && prev[p] == cur[p])
}

/// Two changes between the same snapshots that are about the same path are the same.
proof fn lemma_change_unique(cur: Map<Seq<char>, Seq<u8>>, prev: Map<Seq<char>, Seq<u8>>, c1: Change, c2: Change)
    requires
        injective(prev),
        is_change(cur, prev, c1),
        is_change(cur, prev, c2),
        c1 is Delete <==> c2 is Delete,
        target(c1) == target(c2),
    ensures
        c1 == c2,
{
    match (c1, c2) {
        (Change::Rename(f1, t1), Change::Add(_)) => {
            assert(prev.contains_key(f1) && prev[f1] == cur[t1]);
        },
        (Change::Add(_), Change::Rename(f2, t2)) => {
            assert(prev.contains_key(f2) && prev[f2] == cur[t2]);
        },
        _ => {},
    }
}

/// Whether two digests hold the same bytes.
fn digests_equal(a: &Digest, b: &Digest) -> (r: bool)
    ensures
        r == (a@ == b@),
{
    let mut i: usize = 0;
    while i < 32
        invariant
            i <= 32,
            forall|k: int| 0 <= k < i ==> a@[k] == b@[k],
        decreases 32 - i,
    {
        if a[i] != b[i] {
            return false;
        }
        i = i + 1;
    }
    proof {
        assert(a@ =~= b@);
    }
    true
}

impl Index {
    /// The changes that lead from `previous` to `self`: first every add, edit
    /// and rename, then every delete. Each change occurs once; within each
    /// group the order follows the walk of the snapshot.
    pub fn difference(&self, previous: &Index) -> (r: Vec<IndexDifference>)
        ensures
            forall|i: int| 0 <= i < r@.len() ==> is_change(self@, previous@, #[trigger] r@[i]@),
            forall|c: Change| #[trigger] is_change(self@, previous@, c)
                ==> exists|i: int| 0 <= i < r@.len() && r@[i]@ == c,
            forall|i: int, j: int| 0 <= i < j < r@.len() ==> #[trigger] r@[i]@ != #[trigger] r@[j]@,
            forall|i: int, j: int| 0 <= i < j < r@.len() && #[trigger] r@[i]@ is Delete
                ==> #[trigger] r@[j]@ is Delete,
            r@.len() <= self@.len() + previous@.len(),
    {
        proof {
            use_type_invariant(self);
            use_type_invariant(previous);
        }
        let cur = self.records();
        let prev = previous.records();
        let mut diff: Vec<IndexDifference> = Vec::new();
        let ghost mut owner: Seq<int> = Seq::empty();
        let mut i: usize = 0;
        while i < cur.len()
            invariant
                i <= cur.len(),
                diff@.len() <= i,
                injective(previous@),
                forall|m: int| 0 <= m < cur@.len() ==> self@.contains_key(#[trigger] cur@[m].0@)
                    && self@[cur@[m].0@] == cur@[m].1@,
                forall|m: int, n: int| 0 <= m < n < cur@.len() ==> #[trigger] cur@[m].0@ != #[trigger] cur@[n].0@,
                owner.len() == diff@.len(),
                forall|j: int| 0 <= j < diff@.len() ==> 0 <= #[trigger] owner[j] < i
                    && is_change(self@, previous@, diff@[j]@) && !(diff@[j]@ is Delete)
                    && target(diff@[j]@) == cur@[owner[j]].0@,
                forall|j: int, k: int| 0 <= j < k < diff@.len() ==> #[trigger] owner[j] < #[trigger] owner[k],
                forall|m: int| 0 <= m < i && changed_at(self@, previous@, #[trigger] cur@[m].0@)
                    ==> exists|j: int| 0 <= j < diff@.len() && owner[j] == m,
            decreases cur.len() - i,
        {
            let path = &cur[i].0;
            let digest = &cur[i].1;
            let ghost before = diff@;
            let ghost owner0 = owner;
            match previous.by_path(path) {
                Some(old_digest) => {
                    if !digests_equal(&old_digest, digest) {
                        diff.push(IndexDifference::Edit(path.clone()));
                        proof {
                            owner = owner.push(i as int);
                            assert(self@.contains_key(cur@[i as int].0@));
                            assert(is_change(self@, previous@, diff@[diff@.len() - 1]@));
                        }
                    }
                },
                None => {
                    match previous.by_digest(digest) {
                        Some(from) => {
                            diff.push(IndexDifference::Rename { from, to: path.clone() });
                            proof {
                                assert(self@.contains_key(cur@[i as int].0@));
                                assert(is_change(self@, previous@, diff@[diff@.len() - 1]@));
                            }
                        },
                        None => {
                            diff.push(IndexDifference::Add(path.clone()));
                            proof {
                                assert(self@.contains_key(cur@[i as int].0@));
                                assert(is_change(self@, previous@, diff@[diff@.len() - 1]@));
                            }
                        },
                    }
                    proof {
                        owner = owner.push(i as int);
                    }
                },
            }
            proof {
                assert forall|j: int| 0 <= j < diff@.len() implies 0 <= #[trigger] owner[j] < i + 1
                    && is_change(self@, previous@, diff@[j]@) && !(diff@[j]@ is Delete)
                    && target(diff@[j]@) == cur@[owner[j]].0@ by {
                    if j < before.len() {
                        assert(owner[j] == owner0[j]);
                        assert(diff@[j] == before[j]);
                    }
                }
                assert forall|m: int| 0 <= m < i + 1 && changed_at(self@, previous@, #[trigger] cur@[m].0@)
                    implies exists|j: int| 0 <= j < diff@.len() && owner[j] == m by {
                    if m < i {
                        assert(changed_at(self@, previous@, cur@[m].0@));
                        let j = choose|j: int| 0 <= j < owner0.len() && owner0[j] == m;
                        assert(owner[j] == owner0[j]);
                    } else {
                        assert(owner[diff@.len() - 1] == m);
                    }
                }
            }
            i = i + 1;
        }
        let ghost first = diff@.len();
        let mut i: usize = 0;
        while i < prev.len()
            invariant
                i <= prev.len(),
                first <= diff@.len(),
                first <= cur@.len(),
                diff@.len() <= first + i,
                injective(previous@),
                forall|m: int| 0 <= m < prev@.len() ==> previous@.contains_key(#[trigger] prev@[m].0@)
                    && previous@[prev@[m].0@] == prev@[m].1@,
                forall|m: int, n: int| 0 <= m < n < prev@.len() ==> #[trigger] prev@[m].0@ != #[trigger] prev@[n].0@,
                owner.len() == diff@.len(),
                forall|j: int| 0 <= j < first ==> 0 <= #[trigger] owner[j] < cur@.len()
                    && is_change(self@, previous@, diff@[j]@) && !(diff@[j]@ is Delete)
                    && target(diff@[j]@) == cur@[owner[j]].0@,
                forall|j: int, k: int| 0 <= j < k < first ==> #[trigger] owner[j] < #[trigger] owner[k],
                forall|k: Seq<char>| #[trigger] self@.contains_key(k)
                    ==> exists|m: int| 0 <= m < cur@.len() && cur@[m].0@ == k,
                forall|m: int| 0 <= m < cur@.len() && changed_at(self@, previous@, #[trigger] cur@[m].0@)
                    ==> exists|j: int| 0 <= j < first && owner[j] == m,
                forall|j: int| first <= j < diff@.len() ==> 0 <= #[trigger] owner[j] < i
                    && is_change(self@, previous@, diff@[j]@) && diff@[j]@ == Change::Delete(prev@[owner[j]].0@),
                forall|j: int, k: int| first <= j < k < diff@.len() ==> #[trigger] owner[j] < #[trigger] owner[k],
                forall|m: int| 0 <= m < i && #[trigger] is_change(self@, previous@, Change::Delete(prev@[m].0@))
                    ==> exists|j: int| first <= j < diff@.len() && owner[j] == m,
            decreases prev.len() - i,
        {
            let path = &prev[i].0;
            let digest = &prev[i].1;
            let ghost before = diff@;
            let ghost owner0 = owner;
            if self.by_path(path).is_none() && self.by_digest(digest).is_none() {
                diff.push(IndexDifference::Delete(path.clone()));
                proof {
                    owner = owner.push(i as int);
                    assert(previous@.contains_key(prev@[i as int].0@));
                    assert(is_change(self@, previous@, diff@[diff@.len() - 1]@));
                }
            }
            proof {
                assert forall|m: int| 0 <= m < cur@.len() && changed_at(self@, previous@, #[trigger] cur@[m].0@)
                    implies exists|j: int| 0 <= j < first && owner[j] == m by {
                    let j = choose|j: int| 0 <= j < first && owner0[j] == m;
                    assert(owner[j] == owner0[j]);
                }
                assert forall|j: int| 0 <= j < diff@.len() implies
                    (j < first ==> 0 <= #[trigger] owner[j] < cur@.len()
                        && is_change(self@, previous@, diff@[j]@) && !(diff@[j]@ is Delete)
                        && target(diff@[j]@) == cur@[owner[j]].0@)
                    && (first <= j ==> 0 <= owner[j] < i + 1
                        && is_change(self@, previous@, diff@[j]@) && diff@[j]@ == Change::Delete(prev@[owner[j]].0@)) by {
                    if j < before.len() {
                        assert(owner[j] == owner0[j]);
                        assert(diff@[j] == before[j]);
                    }
                }
                assert forall|m: int| 0 <= m < i + 1 && #[trigger] is_change(self@, previous@, Change::Delete(prev@[m].0@))
                    implies exists|j: int| first <= j < diff@.len() && owner[j] == m by {
                    if m < i {
                        let j = choose|j: int| first <= j < owner0.len() && owner0[j] == m;
                        assert(owner[j] == owner0[j]);
                    } else {
                        assert(owner[diff@.len() - 1] == m);
                    }
                }
            }
            i = i + 1;
        }
        proof {
            let r = diff@;
            assert forall|i: int| 0 <= i < r.len() implies is_change(self@, previous@, #[trigger] r[i]@)
                && (i < first <==> !(r[i]@ is Delete)) by {
                assert(0 <= owner[i]);
            }
            assert forall|c: Change| #[trigger] is_change(self@, previous@, c)
                implies exists|i: int| 0 <= i < r.len() && r[i]@ == c by {
                if c is Delete {
                    let p = target(c);
                    let m = choose|m: int| 0 <= m < prev@.len() && prev@[m].0@ == p;
                    assert(is_change(self@, previous@, Change::Delete(prev@[m].0@)));
                    let j = choose|j: int| first <= j < r.len() && owner[j] == m;
                    assert(r[j]@ == c);
                } else {
                    let t = target(c);
                    assert(changed_at(self@, previous@, t));
                    let m = choose|m: int| 0 <= m < cur@.len() && cur@[m].0@ == t;
                    assert(changed_at(self@, previous@, cur@[m].0@));
                    let j = choose|j: int| 0 <= j < first && owner[j] == m;
                    lemma_change_unique(self@, previous@, r[j]@, c);
                }
            }
            assert forall|i: int, j: int| 0 <= i < j < r.len() implies #[trigger] r[i]@ != #[trigger] r[j]@ by {
                if j < first {
                    assert(owner[i] < owner[j]);
                } else if i >= first {
                    assert(owner[i] < owner[j]);
                }
            }
        }
        diff
    }
}


/// Whether `records` lists the pairs of `m`: each pair once, and nothing else.
pub open spec fn is_walk(m: Map<Seq<char>, Seq<u8>>, records: Seq<(String, Digest)>) -> bool {
    &&& forall|i: int| 0 <= i < records.len() ==> m.contains_key(#[trigger] records[i].0@)
        && m[records[i].0@] == records[i].1@
    &&& forall|i: int, j: int| 0 <= i < j < records.len() ==> #[trigger] records[i].0@ != #[trigger] records[j].0@
    &&& forall|k: Seq<char>| #[trigger] m.contains_key(k)
        ==> exists|i: int| 0 <= i < records.len() && records[i].0@ == k
}

/// A map that a list walks is finite, with as many keys as the list has items.
proof fn lemma_walk_len(m: Map<Seq<char>, Seq<u8>>, records: Seq<(String, Digest)>)
    requires
        is_walk(m, records),
    ensures
        m.dom().finite(),
        m.len() == records.len(),
{
    let paths = Seq::new(records.len(), |i: int| records[i].0@);
    assert(paths.no_duplicates()) by {
        assert forall|i: int, j: int| 0 <= i < paths.len() && 0 <= j < paths.len() && i != j
            implies paths[i] != paths[j] by {
            if i < j {
                assert(records[i].0@ != records[j].0@);
            } else {
                assert(records[j].0@ != records[i].0@);
            }
        }
    }
    paths.unique_seq_to_set();
    assert(m.dom() =~= paths.to_set()) by {
        assert forall|k: Seq<char>| m.dom().contains(k) <==> paths.to_set().contains(k) by {
            if m.contains_key(k) {
                let i = choose|i: int| 0 <= i < records.len() && records[i].0@ == k;
                assert(paths[i] == k);
            }
            if paths.to_set().contains(k) {
                let i = choose|i: int| 0 <= i < paths.len() && paths[i] == k;
                assert(m.contains_key(records[i].0@));
            }
        }
    }
}

/// Folding records whose paths are distinct and whose digests are distinct
/// keeps every one of them.
proof fn lemma_fold_distinct(s: Seq<(Seq<char>, Seq<u8>)>)
    requires
        forall|i: int, j: int| 0 <= i < j < s.len() ==> #[trigger] s[i].0 != #[trigger] s[j].0
            && s[i].1 != s[j].1,
    ensures
        forall|k: Seq<char>| #[trigger] fold_records(s).contains_key(k)
            ==> exists|i: int| 0 <= i < s.len() && s[i].0 == k,
        forall|i: int| 0 <= i < s.len() ==> fold_records(s).contains_key(#[trigger] s[i].0)
            && fold_records(s)[s[i].0] == s[i].1,
    decreases s.len(),
{
    if s.len() > 0 {
        let init = s.drop_last();
        let last = s.last();
        lemma_fold_distinct(init);
        let before = fold_records(init);
        assert(!before.contains_key(last.0)) by {
            if before.contains_key(last.0) {
                let i = choose|i: int| 0 <= i < init.len() && init[i].0 == last.0;
                assert(s[i].0 == s[s.len() - 1].0);
            }
        }
        assert(!has_value(before, last.1)) by {
            if has_value(before, last.1) {
                let k = choose|k: Seq<char>| #[trigger] before.contains_key(k) && before[k] == last.1;
                let i = choose|i: int| 0 <= i < init.len() && init[i].0 == k;
                assert(init[i] == s[i]);
                assert(s[i].1 == s[s.len() - 1].1);
            }
        }
        assert(without_value(before.remove(last.0), last.1) =~= before);
        assert forall|i: int| 0 <= i < s.len() implies fold_records(s).contains_key(#[trigger] s[i].0)
            && fold_records(s)[s[i].0] == s[i].1 by {
            if i < s.len() - 1 {
                assert(init[i] == s[i]);
            }
        }
        assert forall|k: Seq<char>| #[trigger] fold_records(s).contains_key(k)
            implies exists|i: int| 0 <= i < s.len() && s[i].0 == k by {
            if k != last.0 {
                let i = choose|i: int| 0 <= i < init.len() && init[i].0 == k;
                assert(init[i] == s[i]);
            }
        }
    }
}

/// Writing a snapshot out as its list of records and folding that list back
/// gives the same snapshot.
pub proof fn lemma_round_trip(index: &Index, records: Seq<(String, Digest)>)
    requires
        injective(index@),
        is_walk(index@, records),
    ensures
        fold_records(record_views(records)) == index@,
{
    let m = index@;
    let s = record_views(records);
    assert forall|i: int, j: int| 0 <= i < j < s.len() implies #[trigger] s[i].0 != #[trigger] s[j].0
        && s[i].1 != s[j].1 by {
        assert(records[i].0@ != records[j].0@);
        assert(m.contains_key(records[i].0@) && m.contains_key(records[j].0@));
    }
    lemma_fold_distinct(s);
    let f = fold_records(s);
    assert forall|k: Seq<char>| #[trigger] f.contains_key(k) <==> m.contains_key(k) by {
        if f.contains_key(k) {
            let i = choose|i: int| 0 <= i < s.len() && s[i].0 == k;
            assert(m.contains_key(records[i].0@));
        }
        if m.contains_key(k) {
            let i = choose|i: int| 0 <= i < records.len() && records[i].0@ == k;
            assert(f.contains_key(s[i].0));
        }
    }
    assert forall|k: Seq<char>| #[trigger] f.contains_key(k) implies f[k] == m[k] by {
        let i = choose|i: int| 0 <= i < s.len() && s[i].0 == k;
        assert(m.contains_key(records[i].0@));
    }
    assert(f =~= m);
}

/// A snapshot has no change relative to itself.
pub proof fn lemma_difference_identity(index: &Index)
    ensures
        forall|c: Change| !#[trigger] is_change(index@, index@, c),
{
    assert forall|c: Change| !#[trigger] is_change(index@, index@, c) by {
        match c {
            Change::Add(p) => {
                if index@.contains_key(p) {
                    assert(index@.contains_key(p) && index@[p] == index@[p]);
                }
            },
            Change::Delete(p) => {
                if index@.contains_key(p) {
                    assert(index@.contains_key(p) && index@[p] == index@[p]);
                }
            },
            _ => {},
        }
    }
}

/// A file that moves and changes content at once, so that its old digest is
/// nowhere in the new snapshot and its new digest nowhere in the old one, is an
/// add at the new path and a delete at the old path, and never a rename.
pub proof fn lemma_move_and_edit(current: &Index, previous: &Index, from: Seq<char>, to: Seq<char>)
    requires
        previous@.contains_key(from),
        !current@.contains_key(from),
        current@.contains_key(to),
        !previous@.contains_key(to),
        !has_value(previous@, current@[to]),
        !has_value(current@, previous@[from]),
    ensures
        is_change(current@, previous@, Change::Add(to)),
        is_change(current@, previous@, Change::Delete(from)),
        forall|p: Seq<char>| !#[trigger] is_change(current@, previous@, Change::Rename(p, to)),
        forall|p: Seq<char>| !#[trigger] is_change(current@, previous@, Change::Rename(from, p)),
{
    assert forall|p: Seq<char>| !#[trigger] is_change(current@, previous@, Change::Rename(p, to)) by {
        if is_change(current@, previous@, Change::Rename(p, to)) {
            assert(previous@.contains_key(p) && previous@[p] == current@[to]);
        }
    }
    assert forall|p: Seq<char>| !#[trigger] is_change(current@, previous@, Change::Rename(from, p)) by {
        if is_change(current@, previous@, Change::Rename(from, p)) {
            assert(current@.contains_key(p) && current@[p] == previous@[from]);
        }
    }
}

} // verus!
