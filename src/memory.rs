//! An in-memory ordered key/value store: the storage engine under the
//! multi-version layer. Keys are kept sorted so that ranges and prefixes can be
//! walked in either direction.
use vstd::prelude::*;
use crate::order::{
    compare_bytes, lemma_lex_asymmetric, lemma_lex_extend, lemma_lex_irreflexive,
    lemma_lex_le_transitive, lemma_lex_proper_prefix, lemma_lex_transitive, lex_le, lex_lt,
};
use vstd::slice::slice_to_vec;

verus! {

/// A bound of a key range.
pub enum Bound {
    Included(Vec<u8>),
    Excluded(Vec<u8>),
    Unbounded,
}

/// `k` is not below the start bound `b`.
pub open spec fn above_start(b: Bound, k: Seq<u8>) -> bool {
    match b {
        Bound::Included(s) => lex_le(s@, k),
        Bound::Excluded(s) => lex_lt(s@, k),
        Bound::Unbounded => true,
    }
}

/// `k` is not above the end bound `b`.
pub open spec fn below_end(b: Bound, k: Seq<u8>) -> bool {
    match b {
        Bound::Included(e) => lex_le(k, e@),
        Bound::Excluded(e) => lex_lt(k, e@),
        Bound::Unbounded => true,
    }
}

/// Keys strictly increasing.
pub open spec fn sorted(es: Seq<(Seq<u8>, Seq<u8>)>) -> bool {
    forall|i: int, j: int| 0 <= i < j < es.len() ==> lex_lt(#[trigger] es[i].0, #[trigger] es[j].0)
}

pub open spec fn has_key(es: Seq<(Seq<u8>, Seq<u8>)>, k: Seq<u8>) -> bool {
    exists|i: int| 0 <= i < es.len() && es[i].0 == k
}

pub open spec fn index_of(es: Seq<(Seq<u8>, Seq<u8>)>, k: Seq<u8>) -> int {
    choose|i: int| 0 <= i < es.len() && es[i].0 == k
}

/// The map that a sequence of entries with distinct keys holds.
pub open spec fn entries_map(es: Seq<(Seq<u8>, Seq<u8>)>) -> Map<Seq<u8>, Seq<u8>> {
    Map::new(
        |k: Seq<u8>| has_key(es, k),
        |k: Seq<u8>| es[index_of(es, k)].1,
    )
}

pub proof fn lemma_sorted_index(es: Seq<(Seq<u8>, Seq<u8>)>, i: int, j: int)
    requires
        sorted(es),
        0 <= i < es.len(),
        0 <= j < es.len(),
        es[i].0 == es[j].0,
    ensures
        i == j,
{
    if i < j {
        assert(lex_lt(es[i].0, es[j].0));
        lemma_lex_irreflexive(es[i].0);
    } else if j < i {
        assert(lex_lt(es[j].0, es[i].0));
        lemma_lex_irreflexive(es[i].0);
    }
}

/// Keys in order sit at positions in order.
pub proof fn lemma_sorted_position(es: Seq<(Seq<u8>, Seq<u8>)>, x: int, t: int)
    requires
        sorted(es),
        0 <= x < es.len(),
        0 <= t < es.len(),
        lex_lt(es[x].0, es[t].0),
    ensures
        x < t,
{
    lemma_lex_irreflexive(es[x].0);
    if x > t {
        lemma_lex_asymmetric(es[t].0, es[x].0);
    }
}

/// The entry at `i` is what the map holds for its key.
pub proof fn lemma_entries_map_at(es: Seq<(Seq<u8>, Seq<u8>)>, i: int)
    requires
        sorted(es),
        0 <= i < es.len(),
    ensures
        entries_map(es).contains_key(es[i].0),
        entries_map(es)[es[i].0] == es[i].1,
{
    let k = es[i].0;
    assert(has_key(es, k));
    let j = index_of(es, k);
    lemma_sorted_index(es, i, j);
}

/// Every string that starts with `p` sorts at or after `p`.
pub proof fn lemma_prefix_le(p: Seq<u8>, z: Seq<u8>)
    requires
        p.is_prefix_of(z),
    ensures
        lex_le(p, z),
{
    if z.len() > p.len() {
        lemma_lex_proper_prefix(p, z.skip(p.len() as int));
        assert(p + z.skip(p.len() as int) =~= z);
    } else {
        assert(p =~= z);
    }
}

/// A string at or after `p` that does not start with `p` sorts after every
/// string that does.
pub proof fn lemma_prefix_block(p: Seq<u8>, z: Seq<u8>, x: Seq<u8>)
    requires
        p.is_prefix_of(z),
        lex_le(p, x),
        !p.is_prefix_of(x),
    ensures
        lex_lt(z, x),
{
    assert(p.is_prefix_of(p));
    lemma_lex_extend(p, x, z.skip(p.len() as int), Seq::<u8>::empty());
    assert(p + z.skip(p.len() as int) =~= z);
    assert(x + Seq::<u8>::empty() =~= x);
}

proof fn lemma_map_insert(es: Seq<(Seq<u8>, Seq<u8>)>, i: int, k: Seq<u8>, v: Seq<u8>)
    requires
        sorted(es),
        0 <= i <= es.len(),
        forall|t: int| 0 <= t < i ==> lex_lt(#[trigger] es[t].0, k),
        forall|t: int| i <= t < es.len() ==> lex_lt(k, #[trigger] es[t].0),
    ensures
        sorted(es.insert(i, (k, v))),
        entries_map(es.insert(i, (k, v))) == entries_map(es).insert(k, v),
{
    let es2 = es.insert(i, (k, v));
    assert forall|a: int, b: int| 0 <= a < b < es2.len() implies lex_lt(
        #[trigger] es2[a].0,
        #[trigger] es2[b].0,
    ) by {
        if a < i && b > i {
            lemma_lex_transitive(es[a].0, k, es[b - 1].0);
        }
    }
    assert forall|key: Seq<u8>| #[trigger]
        entries_map(es2).contains_key(key) == entries_map(es).insert(k, v).contains_key(key) by {
        if has_key(es2, key) {
            let t = choose|t: int| 0 <= t < es2.len() && es2[t].0 == key;
            if t < i {
                assert(es[t].0 == key);
            } else if t > i {
                assert(es[t - 1].0 == key);
            }
        }
        if has_key(es, key) {
            let t = choose|t: int| 0 <= t < es.len() && es[t].0 == key;
            if t < i {
                assert(es2[t].0 == key);
            } else {
                assert(es2[t + 1].0 == key);
            }
        }
        if key == k {
            assert(es2[i].0 == key);
        }
    }
    assert forall|key: Seq<u8>| #[trigger] entries_map(es2).contains_key(key) implies entries_map(
        es2,
    )[key] == entries_map(es).insert(k, v)[key] by {
        let t = choose|t: int| 0 <= t < es2.len() && es2[t].0 == key;
        lemma_entries_map_at(es2, t);
        if t < i {
            lemma_entries_map_at(es, t);
            lemma_lex_irreflexive(k);
        } else if t > i {
            lemma_entries_map_at(es, t - 1);
            lemma_lex_irreflexive(k);
        }
    }
    assert(entries_map(es2) =~= entries_map(es).insert(k, v));
}

proof fn lemma_map_update(es: Seq<(Seq<u8>, Seq<u8>)>, i: int, v: Seq<u8>)
    requires
        sorted(es),
        0 <= i < es.len(),
    ensures
        sorted(es.update(i, (es[i].0, v))),
        entries_map(es.update(i, (es[i].0, v))) == entries_map(es).insert(es[i].0, v),
{
    let k = es[i].0;
    let es2 = es.update(i, (k, v));
    assert forall|key: Seq<u8>| #[trigger]
        entries_map(es2).contains_key(key) == entries_map(es).insert(k, v).contains_key(key) by {
        if has_key(es2, key) {
            let t = choose|t: int| 0 <= t < es2.len() && es2[t].0 == key;
            assert(es[t].0 == key);
        }
        if has_key(es, key) {
            let t = choose|t: int| 0 <= t < es.len() && es[t].0 == key;
            assert(es2[t].0 == key);
        }
        if key == k {
            assert(es2[i].0 == key);
        }
    }
    assert forall|key: Seq<u8>| #[trigger] entries_map(es2).contains_key(key) implies entries_map(
        es2,
    )[key] == entries_map(es).insert(k, v)[key] by {
        let t = choose|t: int| 0 <= t < es2.len() && es2[t].0 == key;
        lemma_entries_map_at(es2, t);
        if t != i {
            lemma_entries_map_at(es, t);
            if key == k {
                lemma_sorted_index(es, t, i);
            }
        }
    }
    assert(entries_map(es2) =~= entries_map(es).insert(k, v));
}

proof fn lemma_map_remove(es: Seq<(Seq<u8>, Seq<u8>)>, i: int)
    requires
        sorted(es),
        0 <= i < es.len(),
    ensures
        sorted(es.remove(i)),
        entries_map(es.remove(i)) == entries_map(es).remove(es[i].0),
{
    let k = es[i].0;
    let es2 = es.remove(i);
    assert forall|a: int, b: int| 0 <= a < b < es2.len() implies lex_lt(
        #[trigger] es2[a].0,
        #[trigger] es2[b].0,
    ) by {
        if a < i && b >= i {
            assert(es2[b] == es[b + 1]);
        }
    }
    assert forall|key: Seq<u8>| #[trigger]
        entries_map(es2).contains_key(key) == entries_map(es).remove(k).contains_key(key) by {
        if has_key(es2, key) {
            let t = choose|t: int| 0 <= t < es2.len() && es2[t].0 == key;
            if t < i {
                assert(es[t].0 == key);
                if key == k {
                    lemma_sorted_index(es, t, i);
                }
            } else {
                assert(es[t + 1].0 == key);
                if key == k {
                    lemma_sorted_index(es, t + 1, i);
                }
            }
        }
        if has_key(es, key) && key != k {
            let t = choose|t: int| 0 <= t < es.len() && es[t].0 == key;
            if t < i {
                assert(es2[t].0 == key);
            } else {
                assert(t != i);
                assert(es2[t - 1].0 == key);
            }
        }
    }
    assert forall|key: Seq<u8>| #[trigger] entries_map(es2).contains_key(key) implies entries_map(
        es2,
    )[key] == entries_map(es).remove(k)[key] by {
        let t = choose|t: int| 0 <= t < es2.len() && es2[t].0 == key;
        lemma_entries_map_at(es2, t);
        if t < i {
            lemma_entries_map_at(es, t);
        } else {
            lemma_entries_map_at(es, t + 1);
        }
    }
    assert(entries_map(es2) =~= entries_map(es).remove(k));
}

/// Tests whether `p` is a prefix of `k`.
pub fn is_prefix(p: &[u8], k: &[u8]) -> (r: bool)
    ensures
        r == p@.is_prefix_of(k@),
{
    if p.len() > k.len() {
        return false;
    }
    let mut i: usize = 0;
    while i < p.len()
        invariant
            i <= p@.len() <= k@.len(),
            forall|t: int| 0 <= t < i ==> p@[t] == k@[t],
        decreases p@.len() - i,
    {
        if p[i] != k[i] {
            return false;
        }
        i = i + 1;
    }
    true
}

pub struct Memory {
    data: Vec<(Vec<u8>, Vec<u8>)>,
}

impl Memory {
    /// The entries in key order.
    pub closed spec fn entries(&self) -> Seq<(Seq<u8>, Seq<u8>)> {
        self.data@.map_values(|e: (Vec<u8>, Vec<u8>)| (e.0@, e.1@))
    }

    pub open spec fn view(&self) -> Map<Seq<u8>, Seq<u8>> {
        entries_map(self.entries())
    }

    /// Keys are kept in strictly increasing order.
    pub open spec fn wf(&self) -> bool {
        sorted(self.entries())
    }

    /// Creates an empty store.
    pub fn new() -> (r: Memory)
        ensures
            r.wf(),
            r.entries() == Seq::<(Seq<u8>, Seq<u8>)>::empty(),
            r@ == Map::<Seq<u8>, Seq<u8>>::empty(),
    {
        let r = Memory { data: Vec::new() };
        assert(r.entries() =~= Seq::<(Seq<u8>, Seq<u8>)>::empty());
        assert(r@ =~= Map::<Seq<u8>, Seq<u8>>::empty());
        r
    }

    /// A human-readable name of the engine.
    pub fn description(&self) -> (r: String)
        requires
            self.wf(),
        ensures
            r@ == "memory"@,
    {
        "memory".to_owned()
    }

    /// Number of entries.
    pub fn len(&self) -> (r: usize)
        requires
            self.wf(),
        ensures
            r == self.entries().len(),
    {
        self.data.len()
    }

    /// The key of the entry at `i`.
    pub fn key_at(&self, i: usize) -> (r: &Vec<u8>)
        requires
            self.wf(),
            i < self.entries().len(),
        ensures
            r@ == self.entries()[i as int].0,
    {
        &self.data[i].0
    }

    /// The value of the entry at `i`.
    pub fn value_at(&self, i: usize) -> (r: &Vec<u8>)
        requires
            self.wf(),
            i < self.entries().len(),
        ensures
            r@ == self.entries()[i as int].1,
    {
        &self.data[i].1
    }

    /// Index of the first entry whose key is not below `key`.
    pub fn lower_bound(&self, key: &[u8]) -> (r: usize)
        requires
            self.wf(),
        ensures
            r <= self.entries().len(),
            forall|t: int| 0 <= t < r ==> lex_lt(#[trigger] self.entries()[t].0, key@),
            forall|t: int| r <= t < self.entries().len() ==> lex_le(key@, #[trigger] self.entries()[t].0),
    {
        let ghost es = self.entries();
        let mut lo: usize = 0;
        let mut hi: usize = self.data.len();
        while lo < hi
            invariant
                es == self.entries(),
                sorted(es),
                lo <= hi <= es.len(),
                es.len() == self.data@.len(),
                forall|t: int| 0 <= t < lo ==> lex_lt(#[trigger] es[t].0, key@),
                forall|t: int| hi <= t < es.len() ==> lex_le(key@, #[trigger] es[t].0),
            decreases hi - lo,
        {
            let mid = lo + (hi - lo) / 2;
            let c = compare_bytes(self.data[mid].0.as_slice(), key);
            assert(es[mid as int].0 == self.data@[mid as int].0@);
            if c < 0 {
                assert forall|t: int| 0 <= t < mid + 1 implies lex_lt(#[trigger] es[t].0, key@) by {
                    if t < mid {
                        lemma_lex_transitive(es[t].0, es[mid as int].0, key@);
                    }
                }
                lo = mid + 1;
            } else {
                assert forall|t: int| mid <= t < es.len() implies lex_le(key@, #[trigger] es[t].0) by {
                    if t > mid {
                        lemma_lex_le_transitive(key@, es[mid as int].0, es[t].0);
                    }
                }
                hi = mid;
            }
        }
        lo
    }

    /// Index of the first entry whose key is above `key`.
    pub fn upper_bound(&self, key: &[u8]) -> (r: usize)
        requires
            self.wf(),
        ensures
            r <= self.entries().len(),
            forall|t: int| 0 <= t < r ==> lex_le(#[trigger] self.entries()[t].0, key@),
            forall|t: int| r <= t < self.entries().len() ==> lex_lt(key@, #[trigger] self.entries()[t].0),
    {
        let ghost es = self.entries();
        let mut lo: usize = 0;
        let mut hi: usize = self.data.len();
        while lo < hi
            invariant
                es == self.entries(),
                sorted(es),
                lo <= hi <= es.len(),
                es.len() == self.data@.len(),
                forall|t: int| 0 <= t < lo ==> lex_le(#[trigger] es[t].0, key@),
                forall|t: int| hi <= t < es.len() ==> lex_lt(key@, #[trigger] es[t].0),
            decreases hi - lo,
        {
            let mid = lo + (hi - lo) / 2;
            let c = compare_bytes(self.data[mid].0.as_slice(), key);
            assert(es[mid as int].0 == self.data@[mid as int].0@);
            if c <= 0 {
                assert forall|t: int| 0 <= t < mid + 1 implies lex_le(#[trigger] es[t].0, key@) by {
                    if t < mid {
                        lemma_lex_le_transitive(es[t].0, es[mid as int].0, key@);
                    }
                }
                lo = mid + 1;
            } else {
                assert forall|t: int| mid <= t < es.len() implies lex_lt(key@, #[trigger] es[t].0) by {
                    if t > mid {
                        lemma_lex_transitive(key@, es[mid as int].0, es[t].0);
                    }
                }
                hi = mid;
            }
        }
        lo
    }
    /// The value stored under `key`.
    pub fn get(&self, key: &[u8]) -> (r: Option<Vec<u8>>)
        requires
            self.wf(),
        ensures
            r is Some == self@.contains_key(key@),
            r matches Some(v) ==> v@ == self@[key@],
    {
        let i = self.lower_bound(key);
        if i < self.data.len() && compare_bytes(self.data[i].0.as_slice(), key) == 0 {
            proof {
                lemma_entries_map_at(self.entries(), i as int);
            }
            Some(slice_to_vec(self.data[i].1.as_slice()))
        } else {
            proof {
                let es = self.entries();
                if has_key(es, key@) {
                    let t = choose|t: int| 0 <= t < es.len() && es[t].0 == key@;
                    lemma_lex_irreflexive(key@);
                    if t > i {
                        assert(lex_lt(es[i as int].0, es[t].0));
                        lemma_lex_asymmetric(es[i as int].0, key@);
                    }
                }
            }
            None
        }
    }

    /// Stores `value` under `key`, replacing what was there.
    pub fn set(&mut self, key: &[u8], value: Vec<u8>)
        requires
            old(self).wf(),
        ensures
            final(self).wf(),
            final(self)@ == old(self)@.insert(key@, value@),
    {
        let ghost es = self.entries();
        let i = self.lower_bound(key);
        let k = slice_to_vec(key);
        let ghost v = value@;
        if i < self.data.len() && compare_bytes(self.data[i].0.as_slice(), key) == 0 {
            self.data.remove(i);
            self.data.insert(i, (k, value));
            proof {
                lemma_map_update(es, i as int, v);
                assert(self.entries() =~= es.update(i as int, (es[i as int].0, v)));
            }
        } else {
            proof {
                assert forall|t: int| i <= t < es.len() implies lex_lt(key@, #[trigger] es[t].0) by {
                    if t == i {
                        assert(es[t].0 != key@);
                    } else {
                        lemma_lex_le_transitive(key@, es[i as int].0, es[t].0);
                        if es[t].0 == key@ {
                            assert(lex_lt(es[i as int].0, es[t].0));
                            lemma_lex_asymmetric(key@, es[i as int].0);
                        }
                    }
                }
                lemma_map_insert(es, i as int, key@, v);
            }
            self.data.insert(i, (k, value));
            proof {
                assert(self.entries() =~= es.insert(i as int, (key@, v)));
            }
        }
    }

    /// Removes `key` and its value, if present.
    pub fn delete(&mut self, key: &[u8])
        requires
            old(self).wf(),
        ensures
            final(self).wf(),
            final(self)@ == old(self)@.remove(key@),
    {
        let ghost es = self.entries();
        let i = self.lower_bound(key);
        if i < self.data.len() && compare_bytes(self.data[i].0.as_slice(), key) == 0 {
            self.data.remove(i);
            proof {
                lemma_map_remove(es, i as int);
                assert(self.entries() =~= es.remove(i as int));
            }
        } else {
            proof {
                if has_key(es, key@) {
                    let t = choose|t: int| 0 <= t < es.len() && es[t].0 == key@;
                    lemma_lex_irreflexive(key@);
                    if t > i {
                        assert(lex_lt(es[i as int].0, es[t].0));
                        lemma_lex_asymmetric(es[i as int].0, key@);
                    }
                }
                assert(entries_map(es) =~= entries_map(es).remove(key@));
            }
        }
    }

    /// The positions `[i, j)` of the entries whose keys lie between `start`
    /// and `end`.
    pub fn range_positions(&self, start: &Bound, end: &Bound) -> (r: (usize, usize))
        requires
            self.wf(),
        ensures
            r.0 <= r.1 <= self.entries().len(),
            forall|t: int|
                0 <= t < self.entries().len() ==> ((r.0 <= t < r.1) == (above_start(
                    *start,
                    #[trigger] self.entries()[t].0,
                ) && below_end(*end, self.entries()[t].0))),
    {
        let ghost es = self.entries();
        let i = match start {
            Bound::Included(s) => self.lower_bound(s.as_slice()),
            Bound::Excluded(s) => self.upper_bound(s.as_slice()),
            Bound::Unbounded => 0,
        };
        let j = match end {
            Bound::Included(e) => self.upper_bound(e.as_slice()),
            Bound::Excluded(e) => self.lower_bound(e.as_slice()),
            Bound::Unbounded => self.data.len(),
        };
        assert forall|t: int| 0 <= t < es.len() implies (t >= i) == above_start(
            *start,
            #[trigger] es[t].0,
        ) by {
            match start {
                Bound::Included(s) => {
                    lemma_lex_irreflexive(s@);
                    lemma_lex_asymmetric(s@, es[t].0);
                },
                Bound::Excluded(s) => {
                    lemma_lex_irreflexive(s@);
                    lemma_lex_asymmetric(s@, es[t].0);
                },
                Bound::Unbounded => {},
            }
        }
        assert forall|t: int| 0 <= t < es.len() implies (t < j) == below_end(
            *end,
            #[trigger] es[t].0,
        ) by {
            match end {
                Bound::Included(e) => {
                    lemma_lex_irreflexive(e@);
                    lemma_lex_asymmetric(e@, es[t].0);
                },
                Bound::Excluded(e) => {
                    lemma_lex_irreflexive(e@);
                    lemma_lex_asymmetric(e@, es[t].0);
                },
                Bound::Unbounded => {},
            }
        }
        if j < i {
            (i, i)
        } else {
            (i, j)
        }
    }

    /// The positions `[i, j)` of the entries whose keys start with `prefix`.
    pub fn prefix_positions(&self, prefix: &[u8]) -> (r: (usize, usize))
        requires
            self.wf(),
        ensures
            r.0 <= r.1 <= self.entries().len(),
            forall|t: int|
                0 <= t < self.entries().len() ==> ((r.0 <= t < r.1) == prefix@.is_prefix_of(
                    #[trigger] self.entries()[t].0,
                )),
    {
        let ghost es = self.entries();
        let i = self.lower_bound(prefix);
        let mut j = i;
        while j < self.data.len() && is_prefix(prefix, self.data[j].0.as_slice())
            invariant
                es == self.entries(),
                es.len() == self.data@.len(),
                i <= j <= es.len(),
                forall|t: int| i <= t < j ==> prefix@.is_prefix_of(#[trigger] es[t].0),
            decreases es.len() - j,
        {
            assert(es[j as int].0 == self.data@[j as int].0@);
            j = j + 1;
        }
        proof {
            assert forall|t: int| 0 <= t < es.len() implies ((i <= t < j) == prefix@.is_prefix_of(
                #[trigger] es[t].0,
            )) by {
                if t < i && prefix@.is_prefix_of(es[t].0) {
                    lemma_prefix_le(prefix@, es[t].0);
                    lemma_lex_asymmetric(es[t].0, prefix@);
                    lemma_lex_irreflexive(prefix@);
                }
                if t > j && prefix@.is_prefix_of(es[t].0) {
                    assert(es[j as int].0 == self.data@[j as int].0@);
                    lemma_prefix_block(prefix@, es[t].0, es[j as int].0);
                    lemma_lex_asymmetric(es[t].0, es[j as int].0);
                }
                if t == j && j < es.len() {
                    assert(es[j as int].0 == self.data@[j as int].0@);
                }
            }
        }
        (i, j)
    }
}

} // verus!
