//! An ordered map from byte-string keys of one length.
//!
//! The entries stand in ascending key order and no key occurs twice, so the
//! order of the entries depends on what the map holds and not on how it came
//! to hold it.

use vstd::prelude::*;
use crate::bytes;

verus! {

/// Whether keys ascend strictly.
pub open spec fn ascending<const N: usize, V>(s: Seq<([u8; N], V)>) -> bool {
    forall|i: int, j: int|
        0 <= i < j < s.len() ==> bytes::be_value(#[trigger] s[i].0@) < bytes::be_value(
            #[trigger] s[j].0@,
        )
}

/// How many entries have a key below `k`.
pub open spec fn rank<const N: usize, V>(s: Seq<([u8; N], V)>, k: [u8; N]) -> nat
    decreases s.len(),
{
    if s.len() == 0 {
        0
    } else {
        rank(s.drop_last(), k) + if bytes::be_value(s.last().0@) < bytes::be_value(k@) {
            1nat
        } else {
            0nat
        }
    }
}

/// Whether `k` is among the keys.
pub open spec fn holds<const N: usize, V>(s: Seq<([u8; N], V)>, k: [u8; N]) -> bool {
    exists|i: int| 0 <= i < s.len() && #[trigger] s[i].0 == k
}

/// The value under `k`, if there is one.
#[verifier::opaque]
pub open spec fn value_of<const N: usize, V>(s: Seq<([u8; N], V)>, k: [u8; N]) -> Option<V> {
    if holds(s, k) {
        Some(s[rank(s, k) as int].1)
    } else {
        None
    }
}

/// A value is there exactly for the keys that are held.
pub proof fn lemma_value_of<const N: usize, V>(s: Seq<([u8; N], V)>, k: [u8; N])
    ensures
        value_of(s, k) is Some <==> holds(s, k),
{
    reveal(value_of);
}

/// The entries with `v` under `k`.
#[verifier::opaque]
pub open spec fn put<const N: usize, V>(s: Seq<([u8; N], V)>, k: [u8; N], v: V) -> Seq<
    ([u8; N], V),
> {
    if holds(s, k) {
        s.update(rank(s, k) as int, (k, v))
    } else {
        s.insert(rank(s, k) as int, (k, v))
    }
}

/// The entries without `k`.
pub open spec fn without<const N: usize, V>(s: Seq<([u8; N], V)>, k: [u8; N]) -> Seq<
    ([u8; N], V),
> {
    if holds(s, k) {
        s.remove(rank(s, k) as int)
    } else {
        s
    }
}

pub proof fn lemma_rank<const N: usize, V>(s: Seq<([u8; N], V)>, k: [u8; N])
    requires
        ascending(s),
    ensures
        rank(s, k) <= s.len(),
        forall|i: int|
            0 <= i < rank(s, k) ==> bytes::be_value(#[trigger] s[i].0@) < bytes::be_value(k@),
        forall|i: int|
            rank(s, k) <= i < s.len() ==> bytes::be_value(#[trigger] s[i].0@) >= bytes::be_value(
                k@,
            ),
        holds(s, k) <==> rank(s, k) < s.len() && s[rank(s, k) as int].0 == k,
    decreases s.len(),
{
    if s.len() > 0 {
        let t = s.drop_last();
        assert(ascending(t)) by {
            assert forall|i: int, j: int| 0 <= i < j < t.len() implies bytes::be_value(
                #[trigger] t[i].0@,
            ) < bytes::be_value(#[trigger] t[j].0@) by {
                assert(s[i] == t[i] && s[j] == t[j]);
            }
        }
        lemma_rank(t, k);
        let r = rank(t, k) as int;
        let n = s.len() as int;
        assert forall|i: int| 0 <= i < rank(s, k) implies bytes::be_value(#[trigger] s[i].0@)
            < bytes::be_value(k@) by {
            if i < r {
                assert(t[i] == s[i]);
            }
        }
        assert forall|i: int| rank(s, k) <= i < n implies bytes::be_value(#[trigger] s[i].0@)
            >= bytes::be_value(k@) by {
            if i < n - 1 {
                assert(t[i] == s[i]);
            }
        }
        if bytes::be_value(s.last().0@) < bytes::be_value(k@) && r < n - 1 {
            assert(bytes::be_value(t[r].0@) >= bytes::be_value(k@));
            assert(bytes::be_value(s[r].0@) < bytes::be_value(s[n - 1].0@));
            assert(false);
        }
        if holds(s, k) {
            let i = choose|i: int| 0 <= i < s.len() && #[trigger] s[i].0 == k;
            let m = rank(s, k) as int;
            if i < m {
                assert(bytes::be_value(s[i].0@) < bytes::be_value(k@));
            }
            if m < i {
                assert(bytes::be_value(s[m].0@) < bytes::be_value(s[i].0@));
                assert(bytes::be_value(s[m].0@) >= bytes::be_value(k@));
            }
            assert(i == m);
        }
    }
}

/// The position that parts the smaller keys from the others is the rank.
proof fn lemma_rank_unique<const N: usize, V>(s: Seq<([u8; N], V)>, k: [u8; N], r: int)
    requires
        ascending(s),
        0 <= r <= s.len(),
        forall|i: int| 0 <= i < r ==> bytes::be_value(#[trigger] s[i].0@) < bytes::be_value(k@),
        forall|i: int|
            r <= i < s.len() ==> bytes::be_value(#[trigger] s[i].0@) >= bytes::be_value(k@),
    ensures
        rank(s, k) == r,
{
    lemma_rank(s, k);
    let m = rank(s, k) as int;
    if m < r {
        assert(bytes::be_value(s[m].0@) >= bytes::be_value(k@));
    }
    if r < m {
        assert(bytes::be_value(s[r].0@) < bytes::be_value(k@));
    }
}

/// Putting a value under a key keeps the order, and afterwards that key has
/// that value and the others what they had.
pub proof fn put_and_lookup<const N: usize, V>(s: Seq<([u8; N], V)>, k: [u8; N], v: V, q: [u8; N])
    requires
        ascending(s),
    ensures
        ascending(put(s, k, v)),
        value_of(put(s, k, v), q) == if q == k {
            Some(v)
        } else {
            value_of(s, q)
        },
{
    reveal(put);
    reveal(value_of);
    lemma_rank(s, k);
    lemma_rank(s, q);
    let t = put(s, k, v);
    let r = rank(s, k) as int;
    if holds(s, k) {
        assert forall|i: int, j: int| 0 <= i < j < t.len() implies bytes::be_value(
            #[trigger] t[i].0@,
        ) < bytes::be_value(#[trigger] t[j].0@) by {
            assert(s[i].0 == t[i].0 && s[j].0 == t[j].0);
        }
        let m = rank(s, q) as int;
        assert forall|i: int| 0 <= i < m implies bytes::be_value(#[trigger] t[i].0@)
            < bytes::be_value(q@) by {
            assert(s[i].0 == t[i].0);
        }
        assert forall|i: int| m <= i < t.len() implies bytes::be_value(#[trigger] t[i].0@)
            >= bytes::be_value(q@) by {
            assert(s[i].0 == t[i].0);
        }
        lemma_rank_unique(t, q, m);
        lemma_rank(t, q);
        if m < s.len() {
            assert(s[m].0 == t[m].0);
        }
    } else {
        lemma_fresh_key(s, k);
        assert forall|i: int, j: int| 0 <= i < j < t.len() implies bytes::be_value(
            #[trigger] t[i].0@,
        ) < bytes::be_value(#[trigger] t[j].0@) by {
            let a = if i < r { i } else { i - 1 };
            let b = if j < r { j } else { j - 1 };
            if i != r {
                assert(t[i] == s[a]);
            }
            if j != r {
                assert(t[j] == s[b]);
            }
        }
        let m0 = rank(s, q) as int;
        let m = if bytes::be_value(k@) < bytes::be_value(q@) { m0 + 1 } else { m0 };
        assert(m == m0 + 1 ==> r <= m0) by {
            if m == m0 + 1 && m0 < r {
                assert(bytes::be_value(s[m0].0@) >= bytes::be_value(q@));
                assert(bytes::be_value(s[m0].0@) < bytes::be_value(k@));
            }
        }
        assert(m == m0 ==> m0 <= r) by {
            if m == m0 && r < m0 {
                assert(bytes::be_value(s[r].0@) < bytes::be_value(q@));
                assert(bytes::be_value(s[r].0@) >= bytes::be_value(k@));
            }
        }
        assert forall|i: int| 0 <= i < m implies bytes::be_value(#[trigger] t[i].0@)
            < bytes::be_value(q@) by {
            if i < r {
                assert(t[i] == s[i]);
            } else if i > r {
                assert(t[i] == s[i - 1]);
            }
        }
        assert forall|i: int| m <= i < t.len() implies bytes::be_value(#[trigger] t[i].0@)
            >= bytes::be_value(q@) by {
            if i < r {
                assert(t[i] == s[i]);
            } else if i > r {
                assert(t[i] == s[i - 1]);
            }
        }
        lemma_rank_unique(t, q, m);
        lemma_rank(t, q);
        if q == k {
            assert(t[r] == (k, v));
        } else {
            if m < t.len() && m != r {
                assert(t[m] == s[m0]);
            }
            if m == r {
                assert(t[m].0 == k);
                if m0 < s.len() {
                    assert(bytes::be_value(s[m0].0@) > bytes::be_value(k@));
                    if s[m0].0 == q {
                        assert(m == m0 + 1);
                    }
                }
            }
        }
    }
}

/// A key that is not there lies strictly between its neighbours.
proof fn lemma_fresh_key<const N: usize, V>(s: Seq<([u8; N], V)>, k: [u8; N])
    requires
        ascending(s),
        !holds(s, k),
    ensures
        forall|i: int|
            rank(s, k) <= i < s.len() ==> bytes::be_value(#[trigger] s[i].0@) > bytes::be_value(k@),
{
    lemma_rank(s, k);
    assert forall|i: int| rank(s, k) <= i < s.len() implies bytes::be_value(#[trigger] s[i].0@)
        > bytes::be_value(k@) by {
        if bytes::be_value(s[i].0@) == bytes::be_value(k@) {
            bytes::lemma_be_value_injective(s[i].0@, k@);
            bytes::lemma_array_equal(s[i].0, k);
        }
    }
}

/// Taking a key out keeps the order, and the other keys keep their values.
pub proof fn without_and_lookup<const N: usize, V>(s: Seq<([u8; N], V)>, k: [u8; N], q: [u8; N])
    requires
        ascending(s),
    ensures
        ascending(without(s, k)),
        value_of(without(s, k), q) == if q == k {
            None
        } else {
            value_of(s, q)
        },
{
    reveal(put);
    reveal(value_of);
    lemma_rank(s, k);
    lemma_rank(s, q);
    let t = without(s, k);
    let r = rank(s, k) as int;
    if holds(s, k) {
        assert forall|i: int, j: int| 0 <= i < j < t.len() implies bytes::be_value(
            #[trigger] t[i].0@,
        ) < bytes::be_value(#[trigger] t[j].0@) by {
            let a = if i < r { i } else { i + 1 };
            let b = if j < r { j } else { j + 1 };
            assert(t[i] == s[a] && t[j] == s[b]);
        }
        let m0 = rank(s, q) as int;
        let m = if r < m0 { m0 - 1 } else { m0 };
        assert forall|i: int| 0 <= i < m implies bytes::be_value(#[trigger] t[i].0@)
            < bytes::be_value(q@) by {
            assert(t[i] == s[if i < r { i } else { i + 1 }]);
        }
        assert forall|i: int| m <= i < t.len() implies bytes::be_value(#[trigger] t[i].0@)
            >= bytes::be_value(q@) by {
            assert(t[i] == s[if i < r { i } else { i + 1 }]);
        }
        lemma_rank_unique(t, q, m);
        lemma_rank(t, q);
        if q == k {
            if m < t.len() {
                assert(t[m] == s[m + 1]);
                assert(bytes::be_value(s[m].0@) < bytes::be_value(s[m + 1].0@));
            }
        } else {
            if m < t.len() {
                assert(t[m] == s[if m < r { m } else { m + 1 }]);
            }
            if m0 < s.len() && m0 != r {
                assert(t[m] == s[m0]);
            }
            if m0 == r && m < t.len() {
                assert(bytes::be_value(s[r].0@) < bytes::be_value(s[r + 1].0@));
            }
        }
    }
}

/// What a map holds decides its entries: two maps that give every key the same
/// value are the same row of entries, however each was filled.
pub proof fn contents_decide_entries<const N: usize, V>(
    s: Seq<([u8; N], V)>,
    t: Seq<([u8; N], V)>,
)
    requires
        ascending(s),
        ascending(t),
        forall|k: [u8; N]| value_of(s, k) == value_of(t, k),
    ensures
        s == t,
    decreases s.len(),
{
    reveal(put);
    reveal(value_of);
    if s.len() == 0 {
        if t.len() > 0 {
            let k = t[0].0;
            assert(holds(t, k));
            assert(value_of(s, k) == value_of(t, k));
        }
        assert(s =~= t);
    } else {
        let k = s.last().0;
        let n = s.len() as int;
        assert(s[n - 1].0 == k);
        assert(holds(s, k));
        assert(value_of(s, k) == value_of(t, k));
        assert(holds(t, k));
        lemma_rank(s, k);
        lemma_rank(t, k);
        lemma_rank_unique(s, k, n - 1);
        let j = t.len() - 1;
        let kt = t[j].0;
        assert(holds(t, kt));
        assert(value_of(s, kt) == value_of(t, kt));
        assert(holds(s, kt));
        lemma_rank(s, kt);
        lemma_rank(t, kt);
        lemma_rank_unique(t, kt, j);
        let a = rank(s, kt) as int;
        let b = rank(t, k) as int;
        if a < n - 1 {
            assert(bytes::be_value(s[a].0@) < bytes::be_value(s[n - 1].0@));
            if b < j {
                assert(bytes::be_value(t[b].0@) < bytes::be_value(t[j].0@));
            }
            assert(false);
        }
        assert(kt == k);
        assert(s.last() == t.last());
        let s1 = s.drop_last();
        let t1 = t.drop_last();
        lemma_drop_last(s);
        lemma_drop_last(t);
        assert forall|q: [u8; N]| value_of(s1, q) == value_of(t1, q) by {
            assert(value_of(s, q) == value_of(t, q));
            without_and_lookup(s, k, q);
            without_and_lookup(t, k, q);
        }
        contents_decide_entries(s1, t1);
        assert(s =~= s1.push(s.last()));
        assert(t =~= t1.push(t.last()));
    }
}

proof fn lemma_drop_last<const N: usize, V>(s: Seq<([u8; N], V)>)
    requires
        ascending(s),
        s.len() > 0,
    ensures
        s.drop_last() == without(s, s.last().0),
        ascending(s.drop_last()),
{
    let n = s.len() as int;
    let k = s.last().0;
    assert(s[n - 1].0 == k);
    assert(holds(s, k));
    lemma_rank(s, k);
    lemma_rank_unique(s, k, n - 1);
    assert(s.drop_last() =~= s.remove(n - 1));
    without_and_lookup(s, k, k);
}

/// An ordered map from keys of `N` bytes.
pub struct KeyMap<const N: usize, V> {
    entries: Vec<([u8; N], V)>,
}

impl<const N: usize, V> View for KeyMap<N, V> {
    type V = Seq<([u8; N], V)>;

    closed spec fn view(&self) -> Seq<([u8; N], V)> {
        self.entries@
    }
}

impl<const N: usize, V> KeyMap<N, V> {
    #[verifier::type_invariant]
    spec fn inv(self) -> bool {
        ascending(self.entries@)
    }

    /// A map without entries.
    pub fn new() -> (r: Self)
        ensures
            r@ == Seq::<([u8; N], V)>::empty(),
    {
        KeyMap { entries: Vec::new() }
    }

    /// Number of entries.
    pub fn len(&self) -> (n: usize)
        ensures
            n == self@.len(),
            ascending(self@),
    {
        proof {
            use_type_invariant(self);
        }
        self.entries.len()
    }

    pub fn is_empty(&self) -> (r: bool)
        ensures
            r == (self@.len() == 0),
    {
        self.entries.len() == 0
    }

    /// Where a key stands or would stand.
    fn find(&self, key: &[u8; N]) -> (r: usize)
        ensures
            r == rank(self@, *key),
            r <= self@.len(),
            ascending(self@),
    {
        proof {
            use_type_invariant(self);
        }
        let mut lo: usize = 0;
        let mut hi: usize = self.entries.len();
        while lo < hi
            invariant
                ascending(self@),
                self@ == self.entries@,
                lo <= hi <= self@.len(),
                forall|i: int|
                    0 <= i < lo ==> bytes::be_value(#[trigger] self@[i].0@) < bytes::be_value(key@),
                forall|i: int|
                    hi <= i < self@.len() ==> bytes::be_value(#[trigger] self@[i].0@)
                        >= bytes::be_value(key@),
            decreases hi - lo,
        {
            let mid: usize = lo + (hi - lo) / 2;
            let below = bytes::bytes_less(&self.entries[mid].0, key);
            if below {
                assert forall|i: int| 0 <= i < mid + 1 implies bytes::be_value(
                    #[trigger] self@[i].0@,
                ) < bytes::be_value(key@) by {
                    if i < mid {
                        assert(bytes::be_value(self@[i].0@) < bytes::be_value(self@[mid as int].0@));
                    }
                }
                lo = mid + 1;
            } else {
                assert forall|i: int| mid <= i < self@.len() implies bytes::be_value(
                    #[trigger] self@[i].0@,
                ) >= bytes::be_value(key@) by {
                    if mid < i {
                        assert(bytes::be_value(self@[mid as int].0@) < bytes::be_value(self@[i].0@));
                    }
                }
                hi = mid;
            }
        }
        proof {
            lemma_rank_unique(self@, *key, lo as int);
        }
        lo
    }

    /// The position of a key that is there.
    pub fn position(&self, key: &[u8; N]) -> (r: Option<usize>)
        ensures
            ascending(self@),
            match r {
                Some(i) => holds(self@, *key) && i == rank(self@, *key) && i < self@.len()
                    && self@[i as int].0 == *key,
                None => !holds(self@, *key),
            },
    {
        let i = self.find(key);
        proof {
            lemma_rank(self@, *key);
        }
        if i < self.entries.len() && bytes::bytes_equal(&self.entries[i].0, key) {
            proof {
                bytes::lemma_array_equal(self@[i as int].0, *key);
            }
            Some(i)
        } else {
            None
        }
    }

    pub fn contains_key(&self, key: &[u8; N]) -> (r: bool)
        ensures
            r == holds(self@, *key),
    {
        self.position(key).is_some()
    }

    /// The value under a key.
    pub fn get(&self, key: &[u8; N]) -> (r: Option<&V>)
        ensures
            ascending(self@),
            match r {
                Some(v) => value_of(self@, *key) == Some(*v),
                None => value_of(self@, *key) is None,
            },
            r is Some <==> holds(self@, *key),
    {
        proof {
            reveal(put);
            reveal(value_of);
        }
        match self.position(key) {
            Some(i) => Some(&self.entries[i].1),
            None => None,
        }
    }

    /// The key at a position.
    pub fn key_at(&self, i: usize) -> (r: &[u8; N])
        requires
            i < self@.len(),
        ensures
            *r == self@[i as int].0,
    {
        &self.entries[i].0
    }

    /// The value at a position.
    pub fn value_at(&self, i: usize) -> (r: &V)
        requires
            i < self@.len(),
        ensures
            *r == self@[i as int].1,
    {
        &self.entries[i].1
    }

    /// Put a value under a key, in place of any that was there.
    pub fn insert(&mut self, key: [u8; N], value: V)
        ensures
            final(self)@ == put(old(self)@, key, value),
            ascending(old(self)@),
            ascending(final(self)@),
    {
        proof {
            reveal(put);
            reveal(value_of);
        }
        let found = self.position(&key);
        let at = self.find(&key);
        proof {
            put_and_lookup(self@, key, value, key);
            lemma_rank(self@, key);
        }
        let mut entries: Vec<([u8; N], V)> = Vec::new();
        std::mem::swap(&mut self.entries, &mut entries);
        match found {
            Some(i) => {
                entries[i] = (key, value);
            },
            None => {
                entries.insert(at, (key, value));
            },
        }
        self.entries = entries;
    }

    /// Take a key out, giving the value that was under it.
    pub fn remove(&mut self, key: &[u8; N]) -> (r: Option<V>)
        ensures
            final(self)@ == without(old(self)@, *key),
            r == value_of(old(self)@, *key),
            ascending(final(self)@),
    {
        proof {
            reveal(put);
            reveal(value_of);
        }
        let found = self.position(key);
        proof {
            without_and_lookup(self@, *key, *key);
        }
        match found {
            Some(i) => {
                let mut entries: Vec<([u8; N], V)> = Vec::new();
                std::mem::swap(&mut self.entries, &mut entries);
                let e = entries.remove(i);
                self.entries = entries;
                Some(e.1)
            },
            None => None,
        }
    }
}

impl<const N: usize, V: Copy> KeyMap<N, V> {
    /// A map with the same entries.
    pub fn copy(&self) -> (r: Self)
        ensures
            r@ == self@,
            ascending(r@),
    {
        proof {
            use_type_invariant(self);
        }
        let mut entries: Vec<([u8; N], V)> = Vec::new();
        let mut i: usize = 0;
        while i < self.entries.len()
            invariant
                i <= self.entries@.len(),
                entries@ == self.entries@.subrange(0, i as int),
            decreases self.entries@.len() - i,
        {
            entries.push(self.entries[i]);
            i = i + 1;
            assert(entries@ =~= self.entries@.subrange(0, i as int));
        }
        assert(entries@ =~= self.entries@);
        KeyMap { entries }
    }
}

/// Entries stand in the order of their keys as byte strings: where two keys first
/// differ, the one that stands first has the smaller byte.
pub proof fn entries_stand_in_key_order<const N: usize, V>(
    s: Seq<([u8; N], V)>,
    i: int,
    j: int,
    at: int,
)
    requires
        ascending(s),
        0 <= i < j < s.len(),
        0 <= at < N,
        forall|b: int| 0 <= b < at ==> s[i].0@[b] == s[j].0@[b],
        s[i].0@[at] != s[j].0@[at],
    ensures
        s[i].0@[at] < s[j].0@[at],
        s[i].0 != s[j].0,
{
    assert(bytes::be_value(s[i].0@) < bytes::be_value(s[j].0@));
    if s[i].0@[at] > s[j].0@[at] {
        assert(s[j].0@.subrange(0, at) =~= s[i].0@.subrange(0, at));
        bytes::lemma_be_value_order(s[j].0@, s[i].0@, at);
    }
}

/// The value under a key is the one that stands beside it.
pub proof fn value_stands_beside_its_key<const N: usize, V>(s: Seq<([u8; N], V)>, i: int)
    requires
        ascending(s),
        0 <= i < s.len(),
    ensures
        value_of(s, s[i].0) == Some(s[i].1),
{
    reveal(value_of);
    lemma_rank(s, s[i].0);
    let r = rank(s, s[i].0) as int;
    assert(holds(s, s[i].0));
    if r < i {
        assert(bytes::be_value(s[r].0@) < bytes::be_value(s[i].0@));
    } else if r > i {
        assert(bytes::be_value(s[i].0@) < bytes::be_value(s[i].0@));
    }
}

} // verus!
