//! The model of versioned scans: the visible versions in a stretch of the
//! store, and the latest live value of each user key among them, taken from
//! the front or from the back.
use vstd::prelude::*;
use crate::encoding::{decode_value, opt_view, parse_value};
use crate::error::Error;
use crate::keycode::{Key, KeyView};
use crate::memory::{above_start, below_end, Bound, Memory};
use crate::mvcc::{decode_key, lemma_decode_key, TransactionState};
use crate::order::compare_bytes;
use vstd::slice::slice_to_vec;

verus! {

/// A version of a user key: the key, the version and the stored value.
pub type Item = (Seq<u8>, u64, Seq<u8>);

/// The version that a store entry holds, if it is a versioned key.
pub open spec fn entry_item(e: (Seq<u8>, Seq<u8>)) -> Option<Item> {
    match decode_key(e.0) {
        Some(KeyView::Version(k, v)) => Some((k, v, e.1)),
        _ => None,
    }
}

/// The entry holds a version that `st` sees.
pub open spec fn entry_visible(e: (Seq<u8>, Seq<u8>), st: TransactionState) -> bool {
    entry_item(e) matches Some(it) && st.visible(it.1)
}

/// The versions that `st` sees among the entries at positions `[i, j)`, in
/// order.
pub open spec fn visible_items(
    es: Seq<(Seq<u8>, Seq<u8>)>,
    i: int,
    j: int,
    st: TransactionState,
) -> Seq<Item>
    decreases j - i,
{
    if j <= i {
        Seq::empty()
    } else if entry_visible(es[j - 1], st) {
        visible_items(es, i, j - 1, st).push(entry_item(es[j - 1])->0)
    } else {
        visible_items(es, i, j - 1, st)
    }
}

/// Every entry at positions `[i, j)` is a versioned key with a stored value
/// of the right form.
pub open spec fn range_ok(es: Seq<(Seq<u8>, Seq<u8>)>, i: int, j: int) -> bool {
    forall|x: int|
        i <= x < j ==> (entry_item(#[trigger] es[x]) is Some && parse_value(es[x].1) is Some)
}

/// The pair that a version yields if it is live, not a tombstone.
pub open spec fn live(it: Item) -> Option<(Seq<u8>, Seq<u8>)> {
    match parse_value(it.2) {
        Some(Some(v)) => Some((it.0, v)),
        _ => None,
    }
}

/// What the last item yields, given the key that follows it.
pub open spec fn emit_last(rem: Seq<Item>, next: Option<Seq<u8>>) -> Seq<(Seq<u8>, Seq<u8>)> {
    let it = rem.last();
    if next != Some(it.0) && live(it) is Some {
        seq![live(it)->0]
    } else {
        Seq::empty()
    }
}

/// The latest live value of each user key, in key order: an item counts when
/// the item after it (or `next`, after the last) has another key.
pub open spec fn latest_live(rem: Seq<Item>, next: Option<Seq<u8>>) -> Seq<(Seq<u8>, Seq<u8>)>
    decreases rem.len(),
{
    if rem.len() == 0 {
        Seq::empty()
    } else {
        latest_live(rem.drop_last(), Some(rem.last().0)) + emit_last(rem, next)
    }
}

/// The same values taken from the back, `last` being the key taken last from
/// the back.
pub open spec fn latest_live_back(rem: Seq<Item>, last: Option<Seq<u8>>) -> Seq<
    (Seq<u8>, Seq<u8>),
>
    decreases rem.len(),
{
    if rem.len() == 0 {
        Seq::empty()
    } else {
        emit_last(rem, last) + latest_live_back(rem.drop_last(), Some(rem.last().0))
    }
}

/// The first item counts: it is live and the next item has another key.
pub open spec fn first_counts(rem: Seq<Item>, next: Option<Seq<u8>>) -> bool {
    &&& rem.len() > 0
    &&& live(rem[0]) is Some
    &&& if rem.len() == 1 {
        next != Some(rem[0].0)
    } else {
        rem[1].0 != rem[0].0
    }
}

/// What a forward step yields and how many items it consumes.
pub open spec fn next_step(rem: Seq<Item>) -> (Option<(Seq<u8>, Seq<u8>)>, nat)
    decreases rem.len(),
{
    if rem.len() == 0 {
        (None, 0)
    } else if first_counts(rem, None) {
        (live(rem[0]), 1)
    } else {
        let (o, c) = next_step(rem.drop_first());
        (o, c + 1)
    }
}

/// What a backward step yields, how many items it consumes, and the key it
/// took last.
pub open spec fn back_step(rem: Seq<Item>, last: Option<Seq<u8>>) -> (
    Option<(Seq<u8>, Seq<u8>)>,
    nat,
    Option<Seq<u8>>,
)
    decreases rem.len(),
{
    if rem.len() == 0 {
        (None, 0, last)
    } else if emit_last(rem, last).len() > 0 {
        (live(rem.last()), 1, Some(rem.last().0))
    } else {
        let (o, c, l) = back_step(rem.drop_last(), Some(rem.last().0));
        (o, c + 1, l)
    }
}

pub proof fn lemma_visible_items_front(es: Seq<(Seq<u8>, Seq<u8>)>, i: int, j: int, st: TransactionState)
    requires
        i < j,
    ensures
        visible_items(es, i, j, st) == (if entry_visible(es[i], st) {
            seq![entry_item(es[i])->0]
        } else {
            Seq::<Item>::empty()
        }) + visible_items(es, i + 1, j, st),
    decreases j - i,
{
    if j - 1 > i {
        lemma_visible_items_front(es, i, j - 1, st);
        let head = if entry_visible(es[i], st) {
            seq![entry_item(es[i])->0]
        } else {
            Seq::<Item>::empty()
        };
        if entry_visible(es[j - 1], st) {
            assert(head + visible_items(es, i + 1, j - 1, st).push(entry_item(es[j - 1])->0) =~= (
            head + visible_items(es, i + 1, j - 1, st)).push(entry_item(es[j - 1])->0));
        }
    } else {
        assert(visible_items(es, i, i, st) =~= Seq::<Item>::empty());
        assert(visible_items(es, i + 1, j, st) =~= Seq::<Item>::empty());
    }
}

/// Under `range_ok`, every visible version holds a well-formed value.
pub proof fn lemma_visible_items_ok(es: Seq<(Seq<u8>, Seq<u8>)>, i: int, j: int, st: TransactionState)
    requires
        range_ok(es, i, j),
    ensures
        forall|t: int|
            0 <= t < visible_items(es, i, j, st).len() ==> parse_value(
                (#[trigger] visible_items(es, i, j, st)[t]).2,
            ) is Some,
    decreases j - i,
{
    if j > i {
        lemma_visible_items_ok(es, i, j - 1, st);
    }
}

/// Taken from the back, the latest live values come in reverse order.
pub proof fn lemma_latest_live_back_reverse(rem: Seq<Item>, last: Option<Seq<u8>>)
    ensures
        latest_live_back(rem, last) == latest_live(rem, last).reverse(),
    decreases rem.len(),
{
    if rem.len() > 0 {
        let d = rem.drop_last();
        let l = Some(rem.last().0);
        lemma_latest_live_back_reverse(d, l);
        let a = latest_live(d, l);
        let b = emit_last(rem, last);
        assert((a + b).reverse() =~= b.reverse() + a.reverse());
        assert(b.reverse() =~= b);
    } else {
        assert(latest_live(rem, last).reverse() =~= Seq::<(Seq<u8>, Seq<u8>)>::empty());
    }
}

/// From the front, the first item counts or not, then the rest follow.
pub proof fn lemma_latest_live_front(rem: Seq<Item>, next: Option<Seq<u8>>)
    requires
        rem.len() > 0,
    ensures
        latest_live(rem, next) == (if first_counts(rem, next) {
            seq![live(rem[0])->0]
        } else {
            Seq::<(Seq<u8>, Seq<u8>)>::empty()
        }) + latest_live(rem.drop_first(), next),
    decreases rem.len(),
{
    let head = if first_counts(rem, next) {
        seq![live(rem[0])->0]
    } else {
        Seq::<(Seq<u8>, Seq<u8>)>::empty()
    };
    if rem.len() == 1 {
        assert(rem.drop_last() =~= Seq::<Item>::empty());
        assert(rem.drop_first() =~= Seq::<Item>::empty());
        assert(rem.last() == rem[0]);
        assert(latest_live(rem.drop_last(), Some(rem.last().0)) == Seq::<(Seq<u8>, Seq<u8>)>::empty());
        assert(latest_live(rem.drop_first(), next) == Seq::<(Seq<u8>, Seq<u8>)>::empty());
        assert(emit_last(rem, next) == head);
        assert(latest_live(rem, next) =~= head + latest_live(rem.drop_first(), next));
    } else {
        let d = rem.drop_last();
        let l = Some(rem.last().0);
        lemma_latest_live_front(d, l);
        assert(d.drop_first() =~= rem.drop_first().drop_last());
        assert(rem.drop_first().last() == rem.last());
        assert(d[0] == rem[0]);
        if d.len() > 1 {
            assert(d[1] == rem[1]);
        }
        assert(first_counts(d, l) == first_counts(rem, next));
        assert(emit_last(rem.drop_first(), next) == emit_last(rem, next));
        let f = rem.drop_first();
        assert(latest_live(f, next) == latest_live(f.drop_last(), Some(f.last().0)) + emit_last(
            f,
            next,
        ));
        assert(latest_live(rem, next) == latest_live(d, l) + emit_last(rem, next));
        assert(latest_live(rem, next) =~= head + latest_live(rem.drop_first(), next));
    }
}

/// A forward step takes the first value of `latest_live` and leaves the rest.
pub proof fn lemma_next_step(rem: Seq<Item>)
    ensures
        next_step(rem).1 <= rem.len(),
        next_step(rem).0 matches Some(x) ==> next_step(rem).1 > 0 && latest_live(rem, None) == seq![x]
            + latest_live(rem.skip(next_step(rem).1 as int), None),
        next_step(rem).0 is None ==> latest_live(rem, None) == Seq::<(Seq<u8>, Seq<u8>)>::empty()
            && next_step(rem).1 == rem.len(),
    decreases rem.len(),
{
    if rem.len() > 0 {
        lemma_latest_live_front(rem, None);
        if first_counts(rem, None) {
            assert(rem.skip(1) =~= rem.drop_first());
        } else {
            lemma_next_step(rem.drop_first());
            let c = next_step(rem.drop_first()).1;
            assert(rem.drop_first().skip(c as int) =~= rem.skip((c + 1) as int));
            assert(latest_live(rem, None) =~= latest_live(rem.drop_first(), None));
        }
    } else {
        assert(latest_live(rem, None) =~= Seq::<(Seq<u8>, Seq<u8>)>::empty());
    }
}

/// A backward step takes the first value of `latest_live_back` and leaves the
/// rest.
pub proof fn lemma_back_step(rem: Seq<Item>, last: Option<Seq<u8>>)
    ensures
        back_step(rem, last).1 <= rem.len(),
        back_step(rem, last).0 matches Some(x) ==> back_step(rem, last).1 > 0 && latest_live_back(
            rem,
            last,
        ) == seq![x] + latest_live_back(
            rem.take(rem.len() - back_step(rem, last).1),
            back_step(rem, last).2,
        ),
        back_step(rem, last).0 is None ==> latest_live_back(rem, last) == Seq::<
            (Seq<u8>, Seq<u8>),
        >::empty() && back_step(rem, last).1 == rem.len(),
    decreases rem.len(),
{
    if rem.len() > 0 {
        let d = rem.drop_last();
        let l = Some(rem.last().0);
        if emit_last(rem, last).len() > 0 {
            assert(rem.take(rem.len() - 1) =~= d);
            assert(emit_last(rem, last) =~= seq![live(rem.last())->0]);
        } else {
            lemma_back_step(d, l);
            let c = back_step(d, l).1;
            assert(d.take(d.len() - c) =~= rem.take(rem.len() - (c + 1) as int));
            assert(latest_live_back(rem, last) =~= latest_live_back(d, l));
        }
    } else {
        assert(latest_live_back(rem, last) =~= Seq::<(Seq<u8>, Seq<u8>)>::empty());
    }
}

/// Key/value pairs as byte strings.
pub open spec fn pairs_view(v: Seq<(Vec<u8>, Vec<u8>)>) -> Seq<(Seq<u8>, Seq<u8>)> {
    v.map_values(|p: (Vec<u8>, Vec<u8>)| (p.0@, p.1@))
}

/// Decodes the engine's entries at a stretch of positions into the versions
/// that a transaction sees, from either end.
pub struct VersionIterator<'a> {
    txn: &'a TransactionState,
    engine: &'a Memory,
    front: usize,
    back: usize,
}

impl<'a> VersionIterator<'a> {
    pub closed spec fn wf(&self) -> bool {
        self.engine.wf() && self.front <= self.back <= self.engine.entries().len()
    }

    pub closed spec fn entries(&self) -> Seq<(Seq<u8>, Seq<u8>)> {
        self.engine.entries()
    }

    pub closed spec fn st(&self) -> TransactionState {
        *self.txn
    }

    /// The number of entries not yet taken.
    pub closed spec fn span(&self) -> int {
        self.back - self.front
    }

    /// The versions not yet taken from either end.
    pub closed spec fn remaining(&self) -> Seq<Item> {
        visible_items(self.engine.entries(), self.front as int, self.back as int, *self.txn)
    }

    /// The entries not yet taken are versioned keys with well-formed values.
    pub closed spec fn ok(&self) -> bool {
        range_ok(self.engine.entries(), self.front as int, self.back as int)
    }

    fn new(txn: &'a TransactionState, engine: &'a Memory, front: usize, back: usize) -> (r: Self)
        requires
            engine.wf(),
            front <= back <= engine.entries().len(),
        ensures
            r.wf(),
            r.entries() == engine.entries(),
            r.st() == *txn,
            r.remaining() == visible_items(engine.entries(), front as int, back as int, *txn),
            r.ok() == range_ok(engine.entries(), front as int, back as int),
    {
        VersionIterator { txn, engine, front, back }
    }

    /// Decodes a versioned key, giving its user key and version if the
    /// transaction sees it.
    fn decode_visible(&self, key: &[u8]) -> (r: Result<Option<(Vec<u8>, u64)>, Error>)
        ensures
            r matches Err(e) ==> e is Internal,
            decode_key(key@) matches Some(KeyView::Version(k, v)) ==> (r matches Ok(o) && (if self.st().visible(v) {
                o matches Some((k2, v2)) && k2@ == k && v2 == v
            } else {
                o is None
            })),
    {
        match Key::decode(key) {
            Ok(Key::Version(k, v)) => {
                proof {
                    lemma_decode_key(KeyView::Version(k@, v));
                }
                if self.txn.is_visible(v) {
                    Ok(Some((k, v)))
                } else {
                    Ok(None)
                }
            },
            Ok(other) => {
                proof {
                    lemma_decode_key(other@);
                }
                Err(Error::Internal("expected a Version key".to_owned()))
            },
            Err(e) => Err(e),
        }
    }

    /// Takes the next visible version from the front.
    fn try_next(&mut self) -> (r: Result<Option<(Vec<u8>, u64, Vec<u8>)>, Error>)
        requires
            old(self).wf(),
        ensures
            final(self).wf(),
            r matches Err(e) ==> e is Internal,
            final(self).span() <= old(self).span(),
            r matches Ok(Some(_)) ==> final(self).span() < old(self).span(),
            final(self).entries() == old(self).entries(),
            final(self).st() == old(self).st(),
            final(self).back == old(self).back,
            old(self).ok() ==> final(self).ok() && (r matches Ok(o) && (if old(self).remaining().len() == 0 {
                o is None && final(self).remaining() == old(self).remaining()
            } else {
                o matches Some(it) && (it.0@, it.1, it.2@) == old(self).remaining()[0]
                    && final(self).remaining() == old(self).remaining().drop_first()
            })),
    {
        let ghost es = self.engine.entries();
        let ghost st = *self.txn;
        let ghost rem0 = self.remaining();
        while self.front < self.back
            invariant
                self.wf(),
                es == self.engine.entries(),
                st == *self.txn,
                self.back == old(self).back,
                self.engine == old(self).engine,
                self.txn == old(self).txn,
                old(self).front <= self.front,
                rem0 == old(self).remaining(),
                old(self).ok() ==> self.ok() && self.remaining() == rem0,
            decreases self.back - self.front,
        {
            let ghost f = self.front as int;
            let key = self.engine.key_at(self.front);
            let value = self.engine.value_at(self.front);
            proof {
                lemma_visible_items_front(es, f, self.back as int, st);
            }
            self.front = self.front + 1;
            match self.decode_visible(key.as_slice()) {
                Ok(Some((k, v))) => {
                    proof {
                        if old(self).ok() {
                            assert(entry_item(es[f]) == Some((k@, v, es[f].1)));
                            assert(st.visible(v));
                            assert(entry_visible(es[f], st));
                            let x = visible_items(es, f + 1, self.back as int, st);
                            assert((seq![entry_item(es[f])->0] + x).drop_first() =~= x);
                        }
                    }
                    return Ok(Some((k, v, slice_to_vec(value.as_slice()))));
                },
                Ok(None) => {},
                Err(e) => {
                    return Err(e);
                },
            }
        }
        proof {
            assert(visible_items(es, self.front as int, self.back as int, st) =~= Seq::<Item>::empty());
        }
        Ok(None)
    }

    /// Takes the next visible version from the back.
    fn try_next_back(&mut self) -> (r: Result<Option<(Vec<u8>, u64, Vec<u8>)>, Error>)
        requires
            old(self).wf(),
        ensures
            final(self).wf(),
            r matches Err(e) ==> e is Internal,
            final(self).span() <= old(self).span(),
            r matches Ok(Some(_)) ==> final(self).span() < old(self).span(),
            final(self).entries() == old(self).entries(),
            final(self).st() == old(self).st(),
            final(self).front == old(self).front,
            old(self).ok() ==> final(self).ok() && (r matches Ok(o) && (if old(self).remaining().len() == 0 {
                o is None && final(self).remaining() == old(self).remaining()
            } else {
                o matches Some(it) && (it.0@, it.1, it.2@) == old(self).remaining().last()
                    && final(self).remaining() == old(self).remaining().drop_last()
            })),
    {
        let ghost es = self.engine.entries();
        let ghost st = *self.txn;
        let ghost rem0 = self.remaining();
        while self.front < self.back
            invariant
                self.wf(),
                es == self.engine.entries(),
                st == *self.txn,
                self.front == old(self).front,
                self.engine == old(self).engine,
                self.txn == old(self).txn,
                self.back <= old(self).back,
                rem0 == old(self).remaining(),
                old(self).ok() ==> self.ok() && self.remaining() == rem0,
            decreases self.back - self.front,
        {
            let ghost b1 = self.back as int;
            assert(old(self).ok() ==> rem0 == visible_items(es, self.front as int, b1, st));
            self.back = self.back - 1;
            let key = self.engine.key_at(self.back);
            let value = self.engine.value_at(self.back);
            match self.decode_visible(key.as_slice()) {
                Ok(Some((k, v))) => {
                    proof {
                        if old(self).ok() {
                            let b = self.back as int;
                            assert(entry_item(es[b]) == Some((k@, v, es[b].1)));
                            assert(st.visible(v));
                            assert(entry_visible(es[b], st));
                            assert(b1 == b + 1);
                            assert(visible_items(es, self.front as int, b + 1, st) == visible_items(
                                es,
                                self.front as int,
                                b,
                                st,
                            ).push(entry_item(es[b])->0));
                            assert(visible_items(es, self.front as int, b + 1, st).drop_last()
                                =~= visible_items(es, self.front as int, b, st));
                        }
                    }
                    return Ok(Some((k, v, slice_to_vec(value.as_slice()))));
                },
                Ok(None) => {},
                Err(e) => {
                    return Err(e);
                },
            }
        }
        proof {
            assert(visible_items(es, self.front as int, self.back as int, st) =~= Seq::<Item>::empty());
        }
        Ok(None)
    }

    /// The user key of the next visible version from the front, without
    /// taking it.
    fn peek_key(&self) -> (r: Result<Option<Vec<u8>>, Error>)
        requires
            self.wf(),
        ensures
            r matches Err(e) ==> e is Internal,
            self.ok() ==> (r matches Ok(o) && opt_view(o) == (if self.remaining().len() > 0 {
                Some(self.remaining()[0].0)
            } else {
                None
            })),
    {
        let mut probe = VersionIterator {
            txn: self.txn,
            engine: self.engine,
            front: self.front,
            back: self.back,
        };
        match probe.try_next() {
            Ok(Some((k, _, _))) => Ok(Some(k)),
            Ok(None) => Ok(None),
            Err(e) => Err(e),
        }
    }
}

/// An iterator over the latest live value of each user key that a
/// transaction sees, from either end.
pub struct ScanIterator<'a> {
    inner: VersionIterator<'a>,
    /// The user key taken last from the back. Taking from the front does not
    /// change it: the two ends are consumed independently.
    last_back: Option<Vec<u8>>,
}

impl<'a> ScanIterator<'a> {
    pub closed spec fn wf(&self) -> bool {
        self.inner.wf()
    }

    pub closed spec fn ok(&self) -> bool {
        self.inner.ok()
    }

    /// The versions not yet taken from either end.
    pub closed spec fn remaining(&self) -> Seq<Item> {
        self.inner.remaining()
    }

    pub closed spec fn span(&self) -> int {
        self.inner.span()
    }

    /// The user key taken last from the back.
    pub closed spec fn last_back_key(&self) -> Option<Seq<u8>> {
        opt_view(self.last_back)
    }

    fn new(txn: &'a TransactionState, engine: &'a Memory, front: usize, back: usize) -> (r: Self)
        requires
            engine.wf(),
            front <= back <= engine.entries().len(),
        ensures
            r.wf(),
            r.remaining() == visible_items(engine.entries(), front as int, back as int, *txn),
            r.ok() == range_ok(engine.entries(), front as int, back as int),
            r.last_back_key() is None,
    {
        ScanIterator { inner: VersionIterator::new(txn, engine, front, back), last_back: None }
    }

    /// The next key and its latest live value from the front: a version
    /// counts when the version after it belongs to another key.
    pub fn next(&mut self) -> (r: Option<Result<(Vec<u8>, Vec<u8>), Error>>)
        requires
            old(self).wf(),
        ensures
            final(self).wf(),
            r matches Some(Err(e)) ==> e is Internal,
            final(self).span() <= old(self).span(),
            r matches Some(Ok(_)) ==> final(self).span() < old(self).span(),
            old(self).ok() ==> {
                &&& final(self).ok()
                &&& final(self).last_back_key() == old(self).last_back_key()
                &&& final(self).remaining() == old(self).remaining().skip(
                    next_step(old(self).remaining()).1 as int,
                )
                &&& match next_step(old(self).remaining()).0 {
                    None => r is None,
                    Some(x) => r matches Some(Ok(p)) && (p.0@, p.1@) == x,
                }
            },
    {
        let ghost rem0 = self.remaining();
        let ghost ok0 = self.ok();
        let ghost mut c: nat = 0;
        loop
            invariant
                self.wf(),
                self.span() <= old(self).span(),
                self.last_back == old(self).last_back,
                rem0 == old(self).remaining(),
                ok0 == old(self).ok(),
                ok0 ==> self.ok(),
                ok0 ==> c <= rem0.len() && self.remaining() == rem0.skip(c as int),
                ok0 ==> next_step(rem0) == (
                    next_step(rem0.skip(c as int)).0,
                    next_step(rem0.skip(c as int)).1 + c,
                ),
            decreases self.span(),
        {
            let ghost rem = self.remaining();
            proof {
                if ok0 {
                    lemma_visible_items_ok(
                        self.inner.entries(),
                        self.inner.front as int,
                        self.inner.back as int,
                        self.inner.st(),
                    );
                }
            }
            match self.inner.try_next() {
                Err(e) => {
                    return Some(Err(e));
                },
                Ok(None) => {
                    return None;
                },
                Ok(Some((key, _version, value))) => {
                    proof {
                        if ok0 {
                            assert(rem0.skip(c as int).drop_first() =~= rem0.skip((c + 1) as int));
                        }
                    }
                    match self.inner.peek_key() {
                        Err(e) => {
                            return Some(Err(e));
                        },
                        Ok(Some(next)) => {
                            if compare_bytes(next.as_slice(), key.as_slice()) == 0 {
                                proof {
                                    c = c + 1;
                                }
                                continue;
                            }
                        },
                        Ok(None) => {},
                    }
                    match decode_value(value.as_slice()) {
                        Err(e) => {
                            return Some(Err(e));
                        },
                        Ok(Some(v)) => {
                            proof {
                                if ok0 {
                                    assert(rem.skip(1) =~= rem.drop_first());
                                }
                            }
                            return Some(Ok((key, v)));
                        },
                        Ok(None) => {
                            proof {
                                c = c + 1;
                            }
                        },
                    }
                },
            }
        }
    }

    /// The next key and its latest live value from the back: the first
    /// version met of each key is its latest.
    pub fn next_back(&mut self) -> (r: Option<Result<(Vec<u8>, Vec<u8>), Error>>)
        requires
            old(self).wf(),
        ensures
            final(self).wf(),
            r matches Some(Err(e)) ==> e is Internal,
            final(self).span() <= old(self).span(),
            r matches Some(Ok(_)) ==> final(self).span() < old(self).span(),
            old(self).ok() ==> {
                let (o, c, l) = back_step(old(self).remaining(), old(self).last_back_key());
                &&& final(self).ok()
                &&& final(self).last_back_key() == l
                &&& final(self).remaining() == old(self).remaining().take(
                    old(self).remaining().len() - c,
                )
                &&& match o {
                    None => r is None,
                    Some(x) => r matches Some(Ok(p)) && (p.0@, p.1@) == x,
                }
            },
    {
        let ghost rem0 = self.remaining();
        let ghost last0 = self.last_back_key();
        let ghost ok0 = self.ok();
        let ghost mut c: nat = 0;
        loop
            invariant
                self.wf(),
                self.span() <= old(self).span(),
                rem0 == old(self).remaining(),
                last0 == old(self).last_back_key(),
                ok0 == old(self).ok(),
                ok0 ==> self.ok(),
                ok0 ==> c <= rem0.len() && self.remaining() == rem0.take(rem0.len() - c),
                ok0 ==> back_step(rem0, last0) == (
                    back_step(rem0.take(rem0.len() - c), self.last_back_key()).0,
                    back_step(rem0.take(rem0.len() - c), self.last_back_key()).1 + c,
                    back_step(rem0.take(rem0.len() - c), self.last_back_key()).2,
                ),
            decreases self.span(),
        {
            let ghost rem = self.remaining();
            let ghost last = self.last_back_key();
            proof {
                if ok0 {
                    lemma_visible_items_ok(
                        self.inner.entries(),
                        self.inner.front as int,
                        self.inner.back as int,
                        self.inner.st(),
                    );
                }
            }
            match self.inner.try_next_back() {
                Err(e) => {
                    return Some(Err(e));
                },
                Ok(None) => {
                    return None;
                },
                Ok(Some((key, _version, value))) => {
                    proof {
                        if ok0 {
                            assert(rem0.take(rem0.len() - c).drop_last() =~= rem0.take(rem0.len() - (c + 1) as int));
                        }
                    }
                    let mut same = false;
                    match &self.last_back {
                        Some(l) => {
                            same = compare_bytes(l.as_slice(), key.as_slice()) == 0;
                        },
                        None => {},
                    }
                    if same {
                        proof {
                            c = c + 1;
                        }
                        continue;
                    }
                    self.last_back = Some(slice_to_vec(key.as_slice()));
                    match decode_value(value.as_slice()) {
                        Err(e) => {
                            return Some(Err(e));
                        },
                        Ok(Some(v)) => {
                            proof {
                                if ok0 {
                                    assert(rem.take(rem.len() - 1) =~= rem.drop_last());
                                }
                            }
                            return Some(Ok((key, v)));
                        },
                        Ok(None) => {
                            proof {
                                c = c + 1;
                            }
                        },
                    }
                },
            }
        }
    }
}

/// A scan over the engine: the entries at a stretch of positions, read by a
/// transaction.
pub struct Scan<'a> {
    engine: &'a Memory,
    txn: &'a TransactionState,
    lo: usize,
    hi: usize,
}

impl<'a> Scan<'a> {
    pub closed spec fn wf(&self) -> bool {
        self.engine.wf() && self.lo <= self.hi <= self.engine.entries().len()
    }

    pub closed spec fn entries(&self) -> Seq<(Seq<u8>, Seq<u8>)> {
        self.engine.entries()
    }

    pub closed spec fn st(&self) -> TransactionState {
        *self.txn
    }

    /// The positions the scan covers, `[lo, hi)`.
    pub closed spec fn lo(&self) -> int {
        self.lo as int
    }

    pub closed spec fn hi(&self) -> int {
        self.hi as int
    }

    /// The versions the transaction sees in the scan.
    pub open spec fn items(&self) -> Seq<Item> {
        visible_items(self.entries(), self.lo(), self.hi(), self.st())
    }

    /// The scan covers only versioned keys with well-formed values.
    pub open spec fn ok(&self) -> bool {
        range_ok(self.entries(), self.lo(), self.hi())
    }

    /// A scan of the engine keys between two bounds.
    pub fn from_range(engine: &'a Memory, txn: &'a TransactionState, start: Bound, end: Bound) -> (r: Self)
        requires
            engine.wf(),
        ensures
            r.wf(),
            r.entries() == engine.entries(),
            r.st() == *txn,
            0 <= r.lo() <= r.hi() <= engine.entries().len(),
            forall|x: int|
                0 <= x < engine.entries().len() ==> ((r.lo() <= x < r.hi()) == (above_start(
                    start,
                    #[trigger] engine.entries()[x].0,
                ) && below_end(end, engine.entries()[x].0))),
    {
        let (lo, hi) = engine.range_positions(&start, &end);
        Scan { engine, txn, lo, hi }
    }

    /// A scan of the engine keys that start with a prefix.
    pub fn from_prefix(engine: &'a Memory, txn: &'a TransactionState, prefix: Vec<u8>) -> (r: Self)
        requires
            engine.wf(),
        ensures
            r.wf(),
            r.entries() == engine.entries(),
            r.st() == *txn,
            0 <= r.lo() <= r.hi() <= engine.entries().len(),
            forall|x: int|
                0 <= x < engine.entries().len() ==> ((r.lo() <= x < r.hi()) == prefix@.is_prefix_of(
                    #[trigger] engine.entries()[x].0,
                )),
    {
        let (lo, hi) = engine.prefix_positions(prefix.as_slice());
        Scan { engine, txn, lo, hi }
    }

    /// An iterator over the result.
    pub fn iter(&self) -> (r: ScanIterator<'a>)
        requires
            self.wf(),
        ensures
            r.wf(),
            r.remaining() == self.items(),
            r.ok() == self.ok(),
            r.last_back_key() is None,
    {
        ScanIterator::new(self.txn, self.engine, self.lo, self.hi)
    }

    /// The result in key order: the latest live value of each user key.
    pub fn to_vec(&self) -> (r: Result<Vec<(Vec<u8>, Vec<u8>)>, Error>)
        requires
            self.wf(),
        ensures
            self.ok() ==> (r matches Ok(v) && pairs_view(v@) == latest_live(self.items(), None)),
            r matches Err(e) ==> e is Internal,
    {
        let mut it = self.iter();
        let mut out: Vec<(Vec<u8>, Vec<u8>)> = Vec::new();
        let ghost all = latest_live(self.items(), None);
        loop
            invariant
                it.wf(),
                all == latest_live(self.items(), None),
                self.ok() ==> it.ok() && pairs_view(out@) + latest_live(it.remaining(), None) == all,
            decreases it.span(),
        {
            let ghost rem = it.remaining();
            proof {
                lemma_next_step(rem);
            }
            match it.next() {
                None => {
                    proof {
                        if self.ok() {
                            assert(pairs_view(out@) =~= all);
                        }
                    }
                    return Ok(out);
                },
                Some(Err(e)) => {
                    return Err(e);
                },
                Some(Ok(p)) => {
                    let ghost x = (p.0@, p.1@);
                    let ghost before = out@;
                    out.push(p);
                    proof {
                        if self.ok() {
                            assert(pairs_view(out@) =~= pairs_view(before) + seq![x]);
                        }
                    }
                },
            }
        }
    }
}

} // verus!
