//! A hash map keyed by chunk coordinates.  Each coordinate is stored under a
//! 64-bit key that packs its two 32-bit components, so that the table is keyed
//! by an integer.

use vstd::prelude::*;
use std::collections::HashMap;
use std::collections::hash_map::RandomState;
use vstd::std_specs::hash::{builds_valid_hashers, obeys_key_model, spec_keys_iter};
use vstd::std_specs::iter::IteratorSpec;

verus! {

broadcast use vstd::std_specs::hash::group_hash_axioms;

/// Integer coordinate of a terrain chunk: (column along x, row along z).
pub type ChunkCoord = (i32, i32);

/// The map that a list of entries describes; a later entry for the same key wins.
pub open spec fn entries_map<V>(s: Seq<(ChunkCoord, V)>) -> Map<ChunkCoord, V>
    decreases s.len(),
{
    if s.len() == 0 {
        Map::empty()
    } else {
        entries_map(s.drop_last()).insert(s.last().0, s.last().1)
    }
}

/// No key occurs twice among the entries.
pub open spec fn keys_unique<V>(s: Seq<(ChunkCoord, V)>) -> bool {
    forall|i: int, j: int| 0 <= i < j < s.len() ==> #[trigger] s[i].0 != #[trigger] s[j].0
}

/// Chebyshev (chessboard) distance between two chunk coordinates.
pub open spec fn chebyshev(a: ChunkCoord, b: ChunkCoord) -> int {
    let dx = if a.0 >= b.0 { a.0 - b.0 } else { b.0 - a.0 };
    let dz = if a.1 >= b.1 { a.1 - b.1 } else { b.1 - a.1 };
    if dx >= dz { dx } else { dz }
}

/// Two chunks are at most `d` apart exactly when they are at most `d` apart along x
/// and along z.
pub proof fn lemma_chebyshev_bound(a: ChunkCoord, b: ChunkCoord, d: int)
    ensures
        chebyshev(a, b) <= d <==> (-d <= a.0 - b.0 <= d && -d <= a.1 - b.1 <= d),
        chebyshev(a, b) == chebyshev(b, a),
        chebyshev(a, a) == 0,
{
}

/// The coordinates at most `limit` chunks away from `center` along each axis.
pub open spec fn within(center: ChunkCoord, limit: int) -> Set<ChunkCoord> {
    Set::new(|k: ChunkCoord| chebyshev(k, center) <= limit)
}

/// The table key of a coordinate: x in the high 32 bits, z in the low 32 bits.
pub open spec fn coord_key(c: ChunkCoord) -> u64 {
    ((c.0 as u32 as u64) << 32u64) | (c.1 as u32 as u64)
}

/// The coordinate that a table key stands for.
pub open spec fn key_coord(k: u64) -> ChunkCoord {
    ((k >> 32u64) as u32 as i32, k as u32 as i32)
}

/// Packing and unpacking undo each other.
pub proof fn lemma_key_round_trip(c: ChunkCoord, k: u64)
    ensures
        key_coord(coord_key(c)) == c,
        coord_key(key_coord(k)) == k,
{
    let (x, z) = c;
    assert(((((x as u32 as u64) << 32u64) | (z as u32 as u64)) >> 32u64) as u32 as i32 == x)
        by (bit_vector);
    assert((((x as u32 as u64) << 32u64) | (z as u32 as u64)) as u32 as i32 == z) by (bit_vector);
    assert(((((k >> 32u64) as u32 as i32) as u32 as u64) << 32u64) | ((k as u32 as i32) as u32
        as u64) == k) by (bit_vector);
}

fn key_of(c: ChunkCoord) -> (k: u64)
    ensures
        k == coord_key(c),
{
    ((c.0 as u32 as u64) << 32u64) | (c.1 as u32 as u64)
}

fn coord_of(k: u64) -> (c: ChunkCoord)
    ensures
        c == key_coord(k),
{
    ((k >> 32u64) as u32 as i32, k as u32 as i32)
}

fn near(k: ChunkCoord, c: ChunkCoord, limit: i32) -> (r: bool)
    ensures
        r == (chebyshev(k, c) <= limit),
{
    let dx: i64 = if k.0 >= c.0 {
        k.0 as i64 - c.0 as i64
    } else {
        c.0 as i64 - k.0 as i64
    };
    let dz: i64 = if k.1 >= c.1 {
        k.1 as i64 - c.1 as i64
    } else {
        c.1 as i64 - k.1 as i64
    };
    dx <= limit as i64 && dz <= limit as i64
}

proof fn lemma_entries_map_push<V>(s: Seq<(ChunkCoord, V)>, e: (ChunkCoord, V))
    ensures
        entries_map(s.push(e)) == entries_map(s).insert(e.0, e.1),
{
    assert(s.push(e).drop_last() =~= s);
}

/// A key has a value exactly when some entry carries it.
pub proof fn lemma_entries_map_dom<V>(s: Seq<(ChunkCoord, V)>, k: ChunkCoord)
    ensures
        entries_map(s).contains_key(k) <==> exists|i: int| 0 <= i < s.len() && s[i].0 == k,
    decreases s.len(),
{
    if s.len() > 0 {
        lemma_entries_map_dom(s.drop_last(), k);
        if exists|i: int| 0 <= i < s.len() && s[i].0 == k {
            let i = choose|i: int| 0 <= i < s.len() && s[i].0 == k;
            if i < s.len() - 1 {
                assert(s.drop_last()[i].0 == k);
            }
        }
        if exists|i: int| 0 <= i < s.len() - 1 && s.drop_last()[i].0 == k {
            let i = choose|i: int| 0 <= i < s.len() - 1 && s.drop_last()[i].0 == k;
            assert(s[i].0 == k);
        }
    }
}

/// Whether one of the first `i` table keys is the key of `c`.
spec fn seen(raw: Seq<u64>, i: int, c: ChunkCoord) -> bool {
    exists|j: int| 0 <= j < i && raw[j] == coord_key(c)
}

/// A map from chunk coordinates to values.
pub struct CoordMap<V> {
    table: HashMap<u64, V>,
}

impl<V> View for CoordMap<V> {
    type V = Map<ChunkCoord, V>;

    closed spec fn view(&self) -> Map<ChunkCoord, V> {
        Map::new(
            |c: ChunkCoord| self.table@.contains_key(coord_key(c)),
            |c: ChunkCoord| self.table@[coord_key(c)],
        )
    }
}

impl<V> CoordMap<V> {
    /// The table hashes by the model that its specification assumes.
    pub closed spec fn wf(&self) -> bool {
        obeys_key_model::<u64>() && builds_valid_hashers::<RandomState>()
    }

    /// An empty map.
    pub fn new() -> (m: Self)
        ensures
            m.wf(),
            m@ == Map::<ChunkCoord, V>::empty(),
    {
        let m = CoordMap { table: HashMap::new() };
        assert(m@ =~= Map::<ChunkCoord, V>::empty());
        m
    }

    /// Number of keys.
    pub fn len(&self) -> (n: usize)
        requires
            self.wf(),
        ensures
            n == self@.len(),
    {
        let ks = self.keys();
        proof {
            ks@.unique_seq_to_set();
        }
        ks.len()
    }

    /// Whether `k` has a value.
    pub fn contains_key(&self, k: ChunkCoord) -> (r: bool)
        requires
            self.wf(),
        ensures
            r == self@.contains_key(k),
    {
        let key = key_of(k);
        self.table.contains_key(&key)
    }

    /// The value of `k`, if any.
    pub fn get(&self, k: ChunkCoord) -> (r: Option<&V>)
        requires
            self.wf(),
        ensures
            match r {
                Some(v) => self@.contains_key(k) && *v == self@[k],
                None => !self@.contains_key(k),
            },
    {
        let key = key_of(k);
        self.table.get(&key)
    }

    /// The table keys, each once.
    fn table_keys(&self) -> (ks: Vec<u64>)
        requires
            self.wf(),
        ensures
            ks@.to_set() == self.table@.dom(),
            ks@.no_duplicates(),
    {
        let mut ks: Vec<u64> = Vec::new();
        let keys = self.table.keys();
        let ghost rem = spec_keys_iter(&self.table).remaining();
        for k in it: keys
            invariant
                it.seq() == rem,
                ks@ == rem.take(it.index() as int).unref(),
        {
            ks.push(*k);
            assert(rem.take(it.index() + 1).unref() =~= rem.take(it.index() as int).unref().push(
                *k,
            ));
        }
        assert(rem.take(rem.len() as int) =~= rem);
        ks
    }

    /// The keys, each once, in the table's own order.
    pub fn keys(&self) -> (ks: Vec<ChunkCoord>)
        requires
            self.wf(),
        ensures
            ks@.len() == self@.len(),
            ks@.to_set() == self@.dom(),
            ks@.no_duplicates(),
    {
        let raw = self.table_keys();
        let n = raw.len();
        let mut ks: Vec<ChunkCoord> = Vec::new();
        let mut i: usize = 0;
        while i < n
            invariant
                n == raw@.len(),
                i <= n,
                ks@.len() == i,
                forall|j: int| 0 <= j < i ==> ks@[j] == key_coord(#[trigger] raw@[j]),
            decreases n - i,
        {
            ks.push(coord_of(raw[i]));
            i = i + 1;
        }
        proof {
            assert forall|c: ChunkCoord| ks@.to_set().contains(c) <==> self@.dom().contains(c) by {
                lemma_key_round_trip(c, 0);
                if self@.dom().contains(c) {
                    assert(raw@.to_set().contains(coord_key(c)));
                    let j = choose|j: int| 0 <= j < n && raw@[j] == coord_key(c);
                    assert(ks@[j] == c);
                }
                if ks@.to_set().contains(c) {
                    let j = choose|j: int| 0 <= j < n && ks@[j] == c;
                    lemma_key_round_trip(c, raw@[j]);
                    assert(raw@.to_set().contains(raw@[j]));
                }
            }
            assert(ks@.to_set() =~= self@.dom());
            assert forall|a: int, b: int| 0 <= a < ks@.len() && 0 <= b < ks@.len() && a != b implies ks@[a]
                != ks@[b] by {
                lemma_key_round_trip(ks@[a], raw@[a]);
                lemma_key_round_trip(ks@[b], raw@[b]);
                assert(raw@[a] != raw@[b]);
            }
            assert(ks@.no_duplicates());
            ks@.unique_seq_to_set();
        }
        ks
    }

    /// Sets the value of `k`, replacing any earlier one.
    pub fn insert(&mut self, k: ChunkCoord, v: V)
        requires
            old(self).wf(),
        ensures
            final(self).wf(),
            final(self)@ == old(self)@.insert(k, v),
    {
        let key = key_of(k);
        let _ = self.table.insert(key, v);
        proof {
            assert forall|c: ChunkCoord| c != k implies coord_key(c) != coord_key(k) by {
                lemma_key_round_trip(c, 0);
                lemma_key_round_trip(k, 0);
            }
            assert(self@ =~= old(self)@.insert(k, v));
        }
    }

    /// Removes `k` and hands back its value, if it had one.
    pub fn remove(&mut self, k: ChunkCoord) -> (r: Option<V>)
        requires
            old(self).wf(),
        ensures
            final(self).wf(),
            final(self)@ == old(self)@.remove(k),
            r == old(self)@.get(k),
    {
        let key = key_of(k);
        let r = self.table.remove(&key);
        proof {
            assert forall|c: ChunkCoord| c != k implies coord_key(c) != coord_key(k) by {
                lemma_key_round_trip(c, 0);
                lemma_key_round_trip(k, 0);
            }
            assert(self@ =~= old(self)@.remove(k));
        }
        r
    }

    /// Keeps the keys within `limit` of `center` and hands back the other entries,
    /// each key once.
    pub fn retain_within(&mut self, center: ChunkCoord, limit: i32) -> (removed: Vec<(ChunkCoord, V)>)
        requires
            old(self).wf(),
        ensures
            final(self).wf(),
            final(self)@ == old(self)@.restrict(within(center, limit as int)),
            keys_unique(removed@),
            entries_map(removed@) == old(self)@.remove_keys(within(center, limit as int)),
    {
        let ghost w = within(center, limit as int);
        let ghost before = self@;
        let raw = self.table_keys();
        let n = raw.len();
        let mut removed: Vec<(ChunkCoord, V)> = Vec::new();
        let mut i: usize = 0;
        while i < n
            invariant
                self.wf(),
                n == raw@.len(),
                i <= n,
                raw@.no_duplicates(),
                raw@.to_set() == old(self).table@.dom(),
                w == within(center, limit as int),
                before == old(self)@,
                forall|c: ChunkCoord| #[trigger]
                    self@.contains_key(c) <==> (before.contains_key(c) && !(!w.contains(c)
                        && seen(raw@, i as int, c))),
                forall|c: ChunkCoord| #[trigger] self@.contains_key(c) ==> self@[c] == before[c],
                keys_unique(removed@),
                forall|c: ChunkCoord| #[trigger]
                    entries_map(removed@).contains_key(c) <==> (before.contains_key(c) && !w.contains(
                        c,
                    ) && seen(raw@, i as int, c)),
                forall|c: ChunkCoord| #[trigger]
                    entries_map(removed@).contains_key(c) ==> entries_map(removed@)[c] == before[c],
            decreases n - i,
        {
            let key = raw[i];
            let c = coord_of(key);
            proof {
                lemma_key_round_trip(c, key);
                assert(raw@.to_set().contains(key));
            }
            if !near(c, center, limit) {
                let ghost prev = removed@;
                proof {
                    assert(self@.contains_key(c)) by {
                        if exists|j: int| 0 <= j < i && raw@[j] == coord_key(c) {
                            let j = choose|j: int| 0 <= j < i && raw@[j] == coord_key(c);
                            assert(raw@[j] == raw@[i as int]);
                        }
                    }
                    lemma_entries_map_dom(prev, c);
                    assert(!entries_map(prev).contains_key(c)) by {
                        if entries_map(prev).contains_key(c) {
                            let j = choose|j: int| 0 <= j < i && raw@[j] == coord_key(c);
                            assert(raw@[j] == raw@[i as int]);
                        }
                    }
                }
                let v = self.remove(c).unwrap();
                removed.push((c, v));
                proof {
                    lemma_entries_map_push(prev, (c, v));
                    assert forall|a: int, b: int| 0 <= a < b < removed@.len() implies
                        #[trigger] removed@[a].0 != #[trigger] removed@[b].0 by {
                        if b == prev.len() {
                            assert(removed@[a] == prev[a]);
                            lemma_entries_map_dom(prev, prev[a].0);
                        } else {
                            assert(removed@[a] == prev[a] && removed@[b] == prev[b]);
                        }
                    }
                }
            }
            proof {
                assert forall|c2: ChunkCoord| #[trigger]
                    seen(raw@, i + 1, c2) <==> (seen(raw@, i as int, c2) || c2 == c) by {
                    lemma_key_round_trip(c2, key);
                    if c2 == c {
                        assert(raw@[i as int] == coord_key(c2));
                    }
                    if exists|j: int| 0 <= j < i + 1 && raw@[j] == coord_key(c2) {
                        let j = choose|j: int| 0 <= j < i + 1 && raw@[j] == coord_key(c2);
                        if j == i {
                            assert(coord_key(c2) == key);
                        }
                    }
                }
            }
            i = i + 1;
        }
        proof {
            assert forall|c: ChunkCoord| before.contains_key(c) implies exists|j: int|
                0 <= j < n && raw@[j] == coord_key(c) by {
                assert(old(self).table@.dom().contains(coord_key(c)));
                assert(raw@.to_set().contains(coord_key(c)));
            }
            assert(self@ =~= before.restrict(w));
            assert(entries_map(removed@) =~= before.remove_keys(w));
        }
        removed
    }
}

} // verus!
