//! Headers by height, and the median time that they give.

use vstd::prelude::*;
use std::collections::BTreeMap;
use crate::block::BlockHeader;
use crate::constants::MTP_WINDOW;

verus! {

/// Headers by height.
pub type Headers = Map<u32, BlockHeader>;

/// The header at a height.
pub fn header_at(headers: &BTreeMap<u32, BlockHeader>, height: u32) -> (r: Option<BlockHeader>)
    ensures
        match r {
            Some(h) => headers@.contains_key(height) && headers@[height] == h,
            None => !headers@.contains_key(height),
        },
{
    broadcast use vstd::laws_cmp::group_laws_cmp;

    match headers.get(&height) {
        Some(h) => Some(*h),
        None => None,
    }
}

/// Put a header at a height.
pub fn put_header(headers: &mut BTreeMap<u32, BlockHeader>, height: u32, header: BlockHeader)
    ensures
        final(headers)@ == old(headers)@.insert(height, header),
{
    broadcast use vstd::laws_cmp::group_laws_cmp;

    headers.insert(height, header);
}

/// The timestamps of those of the `n` headers below a height that are there.
pub open spec fn times_before(headers: Headers, height: u32, n: nat) -> Seq<u64>
    decreases n,
{
    if n == 0 {
        Seq::empty()
    } else {
        let prev = times_before(headers, height, (n - 1) as nat);
        let h = (height - n) as u32;
        if headers.contains_key(h) {
            prev.push(headers[h].timestamp)
        } else {
            prev
        }
    }
}

/// How many times are before `t`.
pub open spec fn count_before(s: Seq<u64>, t: u64) -> nat
    decreases s.len(),
{
    if s.len() == 0 {
        0
    } else {
        count_before(s.drop_last(), t) + if s.last() < t {
            1nat
        } else {
            0nat
        }
    }
}

/// How many times are not after `t`.
pub open spec fn count_upto(s: Seq<u64>, t: u64) -> nat
    decreases s.len(),
{
    if s.len() == 0 {
        0
    } else {
        count_upto(s.drop_last(), t) + if s.last() <= t {
            1nat
        } else {
            0nat
        }
    }
}

/// Whether `m` stands in the middle of the times, in the upper middle if their
/// number is even.
pub open spec fn is_median(s: Seq<u64>, m: u64) -> bool {
    count_before(s, m) <= s.len() / 2 < count_upto(s, m)
}

/// The median of some times, and zero of none.
pub open spec fn median(s: Seq<u64>) -> u64 {
    if s.len() == 0 {
        0
    } else {
        choose|m: u64| is_median(s, m)
    }
}

/// The median timestamp of the headers preceding `height`.
pub open spec fn median_before(headers: Headers, height: u32) -> u64 {
    let n = if height < MTP_WINDOW {
        height as nat
    } else {
        MTP_WINDOW as nat
    };
    median(times_before(headers, height, n))
}

proof fn lemma_counts_below(s: Seq<u64>, a: u64, b: u64)
    requires
        a < b,
    ensures
        count_upto(s, a) <= count_before(s, b),
    decreases s.len(),
{
    if s.len() > 0 {
        lemma_counts_below(s.drop_last(), a, b);
    }
}

/// There is one median.
pub proof fn median_is_unique(s: Seq<u64>, a: u64, b: u64)
    requires
        is_median(s, a),
        is_median(s, b),
    ensures
        a == b,
{
    if a < b {
        lemma_counts_below(s, a, b);
    } else if b < a {
        lemma_counts_below(s, b, a);
    }
}

/// Some times have a median, and it is what `median` gives.
pub proof fn median_exists(s: Seq<u64>)
    requires
        s.len() > 0,
    ensures
        is_median(s, median(s)),
{
    lemma_counts_all(s);
    lemma_median_below(s, u64::MAX);
}

proof fn lemma_counts_all(s: Seq<u64>)
    ensures
        count_upto(s, u64::MAX) == s.len(),
        count_before(s, 0) == 0,
    decreases s.len(),
{
    if s.len() > 0 {
        lemma_counts_all(s.drop_last());
    }
}

proof fn lemma_counts_step(s: Seq<u64>, t: u64)
    requires
        t > 0,
    ensures
        count_before(s, t) == count_upto(s, (t - 1) as u64),
    decreases s.len(),
{
    if s.len() > 0 {
        lemma_counts_step(s.drop_last(), t);
    }
}

proof fn lemma_median_below(s: Seq<u64>, t: u64)
    requires
        s.len() / 2 < count_upto(s, t),
    ensures
        exists|m: u64| is_median(s, m),
    decreases t,
{
    if count_before(s, t) <= s.len() / 2 {
        assert(is_median(s, t));
    } else {
        lemma_counts_all(s);
        lemma_counts_step(s, t);
        lemma_median_below(s, (t - 1) as u64);
    }
}

proof fn lemma_counts_insert(s: Seq<u64>, i: int, t: u64, m: u64)
    requires
        0 <= i <= s.len(),
    ensures
        count_before(s.insert(i, t), m) == count_before(s, m) + if t < m {
            1nat
        } else {
            0nat
        },
        count_upto(s.insert(i, t), m) == count_upto(s, m) + if t <= m {
            1nat
        } else {
            0nat
        },
    decreases s.len(),
{
    let u = s.insert(i, t);
    if i == s.len() {
        assert(u.drop_last() =~= s);
    } else {
        assert(u.drop_last() =~= s.drop_last().insert(i, t));
        assert(u.last() == s.last());
        lemma_counts_insert(s.drop_last(), i, t, m);
    }
}

pub open spec fn in_order(s: Seq<u64>) -> bool {
    forall|i: int, j: int| 0 <= i <= j < s.len() ==> s[i] <= s[j]
}

proof fn lemma_sorted_counts(s: Seq<u64>, i: int, n: int)
    requires
        in_order(s),
        0 <= i < s.len(),
        0 <= n <= s.len(),
    ensures
        count_before(s.subrange(0, n), s[i]) <= i,
        count_upto(s.subrange(0, n), s[i]) >= if n <= i {
            n
        } else {
            i + 1
        },
    decreases n,
{
    let t = s.subrange(0, n);
    if n > 0 {
        assert(t.drop_last() =~= s.subrange(0, n - 1));
        lemma_sorted_counts(s, i, n - 1);
        assert(t.last() == s[n - 1]);
        if n - 1 < i {
            lemma_count_before_len(t.drop_last(), s[i]);
        }
    }
}

proof fn lemma_count_before_len(s: Seq<u64>, m: u64)
    ensures
        count_before(s, m) <= s.len(),
    decreases s.len(),
{
    if s.len() > 0 {
        lemma_count_before_len(s.drop_last(), m);
    }
}

/// Insert into a sorted list.
fn insert_sorted(list: &mut Vec<u64>, t: u64)
    requires
        in_order(old(list)@),
    ensures
        in_order(final(list)@),
        exists|i: int| 0 <= i <= old(list)@.len() && final(list)@ == #[trigger] old(list)@.insert(i, t),
{
    let mut i: usize = 0;
    while i < list.len() && list[i] < t
        invariant
            i <= list@.len(),
            list@ == old(list)@,
            forall|j: int| 0 <= j < i ==> list@[j] < t,
        decreases list@.len() - i,
    {
        i = i + 1;
    }
    list.insert(i, t);
    assert(list@ == old(list)@.insert(i as int, t));
}

/// Median time past: the median timestamp of the headers preceding `height`,
/// and zero where there is none.
pub fn median_time_past(headers: &BTreeMap<u32, BlockHeader>, height: u32) -> (r: u64)
    ensures
        r == median_before(headers@, height),
{
    let count: u32 = if height < 7 { height } else { 7 };
    let mut list: Vec<u64> = Vec::new();
    let mut i: u32 = 0;
    while i < count
        invariant
            i <= count <= height,
            in_order(list@),
            list@.len() == times_before(headers@, height, i as nat).len(),
            forall|m: u64|
                #![trigger count_before(list@, m)]
                #![trigger count_upto(list@, m)]
                count_before(list@, m) == count_before(
                    times_before(headers@, height, i as nat),
                    m,
                ) && count_upto(list@, m) == count_upto(
                    times_before(headers@, height, i as nat),
                    m,
                ),
        decreases count - i,
    {
        let ghost times = times_before(headers@, height, i as nat);
        let ghost before = list@;
        match header_at(headers, height - 1 - i) {
            Some(h) => {
                insert_sorted(&mut list, h.timestamp);
                proof {
                    let at = choose|k: int|
                        0 <= k <= before.len() && list@ == #[trigger] before.insert(
                            k,
                            h.timestamp,
                        );
                    let next = times.push(h.timestamp);
                    assert(next.drop_last() =~= times);
                    assert forall|m: u64|
                        #![trigger count_before(list@, m)]
                        #![trigger count_upto(list@, m)]
                        count_before(list@, m) == count_before(next, m) && count_upto(list@, m)
                            == count_upto(next, m) by {
                        lemma_counts_insert(before, at, h.timestamp, m);
                        assert(count_before(before, m) == count_before(times, m));
                    }
                }
            },
            None => {},
        }
        i = i + 1;
    }
    if list.len() == 0 {
        return 0;
    }
    let mid: usize = list.len() / 2;
    let r = list[mid];
    proof {
        let times = times_before(headers@, height, count as nat);
        lemma_sorted_counts(list@, mid as int, list@.len() as int);
        assert(list@.subrange(0, list@.len() as int) =~= list@);
        assert(count_before(list@, r) == count_before(times, r));
        assert(is_median(times, r));
        median_is_unique(times, r, median(times));
    }
    r
}

/// The last seven headers below a height, or all of them if there are fewer.
pub open spec fn window_size(height: u32) -> nat {
    if height < 7 {
        height as nat
    } else {
        7
    }
}

proof fn lemma_times_are_timestamps(headers: Headers, height: u32, n: nat)
    requires
        n <= height,
        forall|k: u32| height <= k + n && k < height ==> #[trigger] headers.contains_key(k),
    ensures
        times_before(headers, height, n).len() == n,
        forall|i: int|
            0 <= i < n ==> #[trigger] times_before(headers, height, n)[i]
                == headers[(height - 1 - i) as u32].timestamp,
    decreases n,
{
    if n > 0 {
        lemma_times_are_timestamps(headers, height, (n - 1) as nat);
        assert(headers.contains_key((height - n) as u32));
    }
}

proof fn lemma_counts_are_filters(s: Seq<u64>, m: u64)
    ensures
        count_before(s, m) == s.filter(|t: u64| t < m).len(),
        count_upto(s, m) == s.filter(|t: u64| t <= m).len(),
    decreases s.len(),
{
    reveal(Seq::filter);
    if s.len() > 0 {
        lemma_counts_are_filters(s.drop_last(), m);
    }
}

/// The median time past of a height is the median of the timestamps of the last
/// seven headers below it: at most half of these are before it, and more than
/// half are not after it.
pub proof fn median_time_is_that_of_the_last_headers(headers: Headers, height: u32, s: Seq<u64>)
    requires
        height > 0,
        s.len() == window_size(height),
        forall|k: u32|
            height <= k + window_size(height) && k < height ==> #[trigger] headers.contains_key(k),
        forall|i: int|
            0 <= i < s.len() ==> #[trigger] s[i] == headers[(height - 1 - i) as u32].timestamp,
    ensures
        ({
            let m = median_before(headers, height);
            &&& s.filter(|t: u64| t < m).len() <= s.len() / 2
            &&& s.filter(|t: u64| t <= m).len() > s.len() / 2
        }),
{
    let n = window_size(height);
    lemma_times_are_timestamps(headers, height, n);
    assert(times_before(headers, height, n) =~= s);
    median_exists(s);
    lemma_counts_are_filters(s, median(s));
}

/// Only the last seven headers decide the median time past.
pub proof fn median_depends_on_the_window_alone(height: u32, a: Headers, b: Headers)
    requires
        forall|k: u32|
            height <= k + 7 && k < height ==> (#[trigger] a.contains_key(k) <==> b.contains_key(k))
                && a[k] == b[k],
    ensures
        median_before(a, height) == median_before(b, height),
{
    lemma_times_agree(height, a, b, window_size(height));
}

proof fn lemma_times_agree(height: u32, a: Headers, b: Headers, n: nat)
    requires
        n <= 7,
        n <= height,
        forall|k: u32|
            height <= k + 7 && k < height ==> (#[trigger] a.contains_key(k) <==> b.contains_key(k))
                && a[k] == b[k],
    ensures
        times_before(a, height, n) == times_before(b, height, n),
    decreases n,
{
    if n > 0 {
        lemma_times_agree(height, a, b, (n - 1) as nat);
        let k = (height - n) as u32;
        assert(a.contains_key(k) <==> b.contains_key(k));
    }
}

} // verus!
