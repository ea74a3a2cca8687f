//! The asset price database: timestamped prices, and the mean price over a
//! period.
use vstd::prelude::*;

use crate::assoc::{assoc_map, keys_unique};
use vstd::slice::slice_subrange;

verus! {

/// The big-endian two's-complement value of the first four bytes.
pub open spec fn be_i32(s: Seq<u8>) -> int {
    let u = s[0] as int * 16777216 + s[1] as int * 65536 + s[2] as int * 256 + s[3] as int;
    if u >= 2147483648 {
        u - 4294967296
    } else {
        u
    }
}

/// Reads a big-endian `i32` from the first four bytes.
pub fn read_be_i32(input: &[u8]) -> (v: i32)
    requires
        input@.len() >= 4,
    ensures
        v as int == be_i32(input@),
{
    let u: u32 = (input[0] as u32) * 16777216 + (input[1] as u32) * 65536 + (input[2] as u32)
        * 256 + (input[3] as u32);
    if u >= 2147483648 {
        let low: i32 = (u - 2147483648) as i32;
        low - 2147483647 - 1
    } else {
        u as i32
    }
}

/// The prices by timestamp, in increasing timestamp order.
pub struct PriceDb {
    entries: Vec<(i32, i32)>,
}

/// Timestamps strictly increase along the list.
pub open spec fn sorted_keys(s: Seq<(i32, i32)>) -> bool {
    forall|i: int, j: int| 0 <= i < j < s.len() ==> s[i].0 < s[j].0
}

/// The sum of the prices with a timestamp in `lo..=hi`.
pub open spec fn range_sum(s: Seq<(i32, i32)>, lo: i32, hi: i32) -> int
    decreases s.len(),
{
    if s.len() == 0 {
        0
    } else {
        range_sum(s.drop_last(), lo, hi) + if lo <= s.last().0 <= hi {
            s.last().1 as int
        } else {
            0
        }
    }
}

/// The number of prices with a timestamp in `lo..=hi`.
pub open spec fn range_count(s: Seq<(i32, i32)>, lo: i32, hi: i32) -> nat
    decreases s.len(),
{
    if s.len() == 0 {
        0
    } else {
        range_count(s.drop_last(), lo, hi) + if lo <= s.last().0 <= hi {
            1nat
        } else {
            0nat
        }
    }
}

/// Integer division rounding toward zero, as Rust's `/` does.
pub open spec fn div_toward_zero(a: int, b: int) -> int {
    if a >= 0 {
        a / b
    } else {
        -((-a) / b)
    }
}

/// The mean of the prices in `lo..=hi`: their total over their number,
/// rounded toward zero.
pub open spec fn mean_price(s: Seq<(i32, i32)>, lo: i32, hi: i32) -> int {
    div_toward_zero(range_sum(s, lo, hi), range_count(s, lo, hi) as int)
}

proof fn lemma_range_bounds(s: Seq<(i32, i32)>, lo: i32, hi: i32)
    ensures
        range_count(s, lo, hi) <= s.len(),
        -2147483648 * range_count(s, lo, hi) <= range_sum(s, lo, hi) <= 2147483647 * range_count(
            s,
            lo,
            hi,
        ),
    decreases s.len(),
{
    if s.len() > 0 {
        lemma_range_bounds(s.drop_last(), lo, hi);
    }
}

impl View for PriceDb {
    type V = Seq<(i32, i32)>;

    closed spec fn view(&self) -> Seq<(i32, i32)> {
        self.entries@
    }
}

proof fn lemma_sorted_unique(s: Seq<(i32, i32)>)
    requires
        sorted_keys(s),
    ensures
        keys_unique(s),
{
}

impl PriceDb {
    pub fn new() -> (db: Self)
        ensures
            db@ == Seq::<(i32, i32)>::empty(),
    {
        PriceDb { entries: Vec::new() }
    }

    /// The stored prices are sorted by timestamp, each timestamp once.
    pub closed spec fn wf(&self) -> bool {
        sorted_keys(self@)
    }

    /// The prices as a map from timestamp to price.
    pub open spec fn prices(&self) -> Map<i32, i32> {
        assoc_map(self@)
    }

    /// Stores `price` at `timestamp`, replacing the price stored there.
    pub fn insert(&mut self, timestamp: i32, price: i32)
        requires
            old(self).wf(),
        ensures
            final(self).wf(),
            final(self).prices() == old(self).prices().insert(timestamp, price),
    {
        let ghost s = self@;
        let n = self.entries.len();
        let mut i: usize = 0;
        while i < n && self.entries[i].0 < timestamp
            invariant
                n == self.entries@.len(),
                s == self@,
                i <= n,
                forall|k: int| 0 <= k < i ==> s[k].0 < timestamp,
            decreases n - i,
        {
            i = i + 1;
        }
        proof {
            lemma_sorted_unique(s);
        }
        if i < n && self.entries[i].0 == timestamp {
            self.entries.set(i, (timestamp, price));
            proof {
                crate::assoc::lemma_assoc_update(s, i as int, price);
                assert(self@ =~= s.update(i as int, (s[i as int].0, price)));
            }
        } else {
            self.entries.insert(i, (timestamp, price));
            proof {
                let t = s.insert(i as int, (timestamp, price));
                assert(self@ =~= t);
                assert forall|a: int, b: int| 0 <= a < b < t.len() implies t[a].0 < t[b].0 by {
                    if b < i {
                    } else if a > i {
                        assert(t[a] == s[a - 1] && t[b] == s[b - 1]);
                    } else if a == i {
                        assert(t[b] == s[b - 1]);
                        assert(s[i as int].0 >= timestamp);
                        if b - 1 > i {
                            assert(s[i as int].0 < s[b - 1].0);
                        }
                    } else {
                        assert(t[a] == s[a]);
                        if b == i {
                        } else {
                            assert(t[b] == s[b - 1]);
                        }
                    }
                }
                lemma_assoc_insert(s, i as int, timestamp, price);
            }
        }
    }

    /// The number of prices with a timestamp in `start..=end`.
    pub fn count_in_range(&self, start: i32, end: i32) -> (c: usize)
        ensures
            c == range_count(self@, start, end),
    {
        let n = self.entries.len();
        let mut c: usize = 0;
        let mut i: usize = 0;
        while i < n
            invariant
                n == self@.len(),
                i <= n,
                c == range_count(self@.subrange(0, i as int), start, end),
                c <= i,
            decreases n - i,
        {
            proof {
                assert(self@.subrange(0, i + 1).drop_last() =~= self@.subrange(0, i as int));
            }
            let k = self.entries[i].0;
            if start <= k && k <= end {
                c = c + 1;
            }
            i = i + 1;
        }
        proof {
            assert(self@.subrange(0, n as int) =~= self@);
        }
        c
    }
}

proof fn lemma_assoc_insert(s: Seq<(i32, i32)>, p: int, k: i32, v: i32)
    requires
        keys_unique(s),
        0 <= p <= s.len(),
        forall|i: int| 0 <= i < s.len() ==> s[i].0 != k,
    ensures
        assoc_map(s.insert(p, (k, v))) == assoc_map(s).insert(k, v),
{
    let t = s.insert(p, (k, v));
    assert forall|a: int, b: int| 0 <= a < b < t.len() implies t[a].0 != t[b].0 by {
        if a < p && b < p {
        } else if a < p && b == p {
        } else if a < p {
            assert(t[b] == s[b - 1]);
        } else if a == p {
            assert(t[b] == s[b - 1]);
        } else {
            assert(t[a] == s[a - 1] && t[b] == s[b - 1]);
        }
    }
    let m = assoc_map(s).insert(k, v);
    assert forall|key: i32| #[trigger] assoc_map(t).contains_key(key) <==> m.contains_key(key) by {
        if crate::assoc::has_key(t, key) {
            let j = choose|j: int| 0 <= j < t.len() && t[j].0 == key;
            if j < p {
                assert(s[j].0 == key);
            } else if j > p {
                assert(s[j - 1].0 == key);
            }
        }
        if crate::assoc::has_key(s, key) {
            let j = choose|j: int| 0 <= j < s.len() && s[j].0 == key;
            if j < p {
                assert(t[j].0 == key);
            } else {
                assert(t[j + 1].0 == key);
            }
        }
        if key == k {
            assert(t[p].0 == key);
        }
    }
    assert forall|key: i32| assoc_map(t).contains_key(key) implies #[trigger] assoc_map(t)[key]
        == m[key] by {
        let j = choose|j: int| 0 <= j < t.len() && t[j].0 == key;
        crate::assoc::lemma_assoc_index(t, j);
        if j < p {
            crate::assoc::lemma_assoc_index(s, j);
        } else if j > p {
            assert(t[j] == s[j - 1]);
            crate::assoc::lemma_assoc_index(s, j - 1);
        }
    }
    assert(assoc_map(t) =~= m);
}

/// The mean price over `start..=end`: the total of the prices stored for
/// timestamps in that period over their number, rounded toward zero. The
/// period must hold at least one price and must not end before it starts.
pub fn calculate_average(btree_db: &PriceDb, start: i32, end: i32) -> (avg: i32)
    requires
        start <= end,
        range_count(btree_db@, start, end) > 0,
    ensures
        avg as int == mean_price(btree_db@, start, end),
{
    let s = btree_db.entries.as_slice();
    let n = s.len();
    let mut total: i128 = 0;
    let mut count: u64 = 0;
    let mut i: usize = 0;
    while i < n
        invariant
            n == btree_db@.len(),
            s@ == btree_db@,
            i <= n,
            total == range_sum(btree_db@.subrange(0, i as int), start, end),
            count == range_count(btree_db@.subrange(0, i as int), start, end),
            count <= i,
            -2147483648 * count <= total <= 2147483647 * count,
        decreases n - i,
    {
        proof {
            assert(btree_db@.subrange(0, i + 1).drop_last() =~= btree_db@.subrange(0, i as int));
            lemma_range_bounds(btree_db@.subrange(0, i as int), start, end);
            assert(count <= 0xffff_ffff_ffff_ffffu64);
            assert(-2147483648 * (count as int) >= -2147483648 * 0x1_0000_0000_0000_0000int) by (nonlinear_arith)
                requires count <= 0x1_0000_0000_0000_0000int;
            assert(2147483647 * (count as int) <= 2147483647 * 0x1_0000_0000_0000_0000int) by (nonlinear_arith)
                requires count <= 0x1_0000_0000_0000_0000int;
        }
        let (k, v) = s[i];
        if start <= k && k <= end {
            total = total + v as i128;
            count = count + 1;
        }
        i = i + 1;
    }
    proof {
        assert(btree_db@.subrange(0, n as int) =~= btree_db@);
    }
    let c = count as i128;
    let avg: i128 = if total >= 0 {
        total / c
    } else {
        -((-total) / c)
    };
    proof {
        assert(avg as int == div_toward_zero(total as int, c as int));
        assert(-2147483648 <= avg <= 2147483647) by (nonlinear_arith)
            requires
                c >= 1,
                -2147483648 * c <= total <= 2147483647 * c,
                avg as int == div_toward_zero(total as int, c as int),
        ;
    }
    avg as i32
}

/// A message the server can act on: nine bytes, an `I` (insert) or a `Q`
/// (query) followed by two big-endian `i32`; a query's period must not end
/// before it starts and must hold at least one price.
pub open spec fn message_acceptable(db: Seq<(i32, i32)>, message: Seq<u8>) -> bool {
    &&& message.len() >= 9
    &&& message[0] == 73 || message[0] == 81
    &&& message[0] == 81 ==> {
        let start = be_i32(message.subrange(1, 5));
        let end = be_i32(message.subrange(5, 9));
        &&& start <= end
        &&& range_count(db, start as i32, end as i32) > 0
    }
}

/// Acts on one nine-byte message: `I` stores the price (second number) at
/// the timestamp (first number) and answers nothing; `Q` answers the mean
/// price between the two timestamps, inclusive.
pub fn handle_message(db: &mut PriceDb, message: &[u8]) -> (r: Option<i32>)
    requires
        old(db).wf(),
        message_acceptable(old(db)@, message@),
    ensures
        final(db).wf(),
        ({
            let first = be_i32(message@.subrange(1, 5));
            let second = be_i32(message@.subrange(5, 9));
            &&& message@[0] == 73 ==> r is None && final(db).prices() == old(db).prices().insert(
                first as i32,
                second as i32,
            )
            &&& message@[0] == 81 ==> r == Some(
                mean_price(old(db)@, first as i32, second as i32) as i32,
            ) && final(db)@ == old(db)@
        }),
{
    let msg_type = message[0];
    let first_half_decoded = read_be_i32(slice_subrange(message, 1, 5));
    let second_half_decoded = read_be_i32(slice_subrange(message, 5, 9));
    if msg_type == 73 {
        db.insert(first_half_decoded, second_half_decoded);
        None
    } else {
        Some(calculate_average(db, first_half_decoded, second_half_decoded))
    }
}

proof fn lemma_point_range(s: Seq<(i32, i32)>, t: i32)
    requires
        keys_unique(s),
    ensures
        assoc_map(s).contains_key(t) ==> range_count(s, t, t) == 1 && range_sum(s, t, t)
            == assoc_map(s)[t],
        !assoc_map(s).contains_key(t) ==> range_count(s, t, t) == 0 && range_sum(s, t, t) == 0,
    decreases s.len(),
{
    if s.len() > 0 {
        let u = s.drop_last();
        assert(keys_unique(u));
        lemma_point_range(u, t);
        let last = s.len() - 1;
        crate::assoc::lemma_assoc_index(s, last);
        if s.last().0 == t {
            assert(!assoc_map(u).contains_key(t)) by {
                if crate::assoc::has_key(u, t) {
                    let j = choose|j: int| 0 <= j < u.len() && u[j].0 == t;
                    assert(s[j].0 == s[last].0);
                }
            }
        } else {
            assert(assoc_map(u).contains_key(t) == assoc_map(s).contains_key(t)) by {
                if crate::assoc::has_key(s, t) {
                    let j = choose|j: int| 0 <= j < s.len() && s[j].0 == t;
                    assert(u[j].0 == t);
                }
                if crate::assoc::has_key(u, t) {
                    let j = choose|j: int| 0 <= j < u.len() && u[j].0 == t;
                    assert(s[j].0 == t);
                }
            }
            if assoc_map(s).contains_key(t) {
                let j = choose|j: int| 0 <= j < u.len() && u[j].0 == t;
                crate::assoc::lemma_assoc_index(u, j);
                crate::assoc::lemma_assoc_index(s, j);
            }
        }
    }
}

/// Whether some entry of `s` has timestamp `t`.
spec fn stored_at(s: Seq<(i32, i32)>, t: i32) -> bool {
    exists|i: int| 0 <= i < s.len() && s[i].0 == t
}

proof fn lemma_range_of_two(s: Seq<(i32, i32)>, lo: i32, hi: i32, t1: i32, p1: i32, t2: i32, p2: i32)
    requires
        keys_unique(s),
        t1 != t2,
        forall|i: int| 0 <= i < s.len() && s[i].0 == t1 ==> s[i].1 == p1,
        forall|i: int| 0 <= i < s.len() && s[i].0 == t2 ==> s[i].1 == p2,
        lo <= t1 <= hi,
        lo <= t2 <= hi,
        forall|i: int| 0 <= i < s.len() && lo <= #[trigger] s[i].0 <= hi ==> s[i].0 == t1 || s[i].0 == t2,
    ensures
        range_count(s, lo, hi) == (if stored_at(s, t1) { 1int } else { 0 }) + (if stored_at(s, t2) { 1int } else { 0 }),
        range_sum(s, lo, hi) == (if stored_at(s, t1) { p1 as int } else { 0 }) + (if stored_at(s, t2) { p2 as int } else { 0 }),
    decreases s.len(),
{
    if s.len() > 0 {
        let u = s.drop_last();
        let last = s.len() - 1;
        assert forall|i: int| 0 <= i < u.len() implies u[i] == s[i] by {}
        lemma_range_of_two(u, lo, hi, t1, p1, t2, p2);
        if s[last].0 == t1 {
            assert(!stored_at(u, t1)) by {
                if stored_at(u, t1) {
                    let j = choose|j: int| 0 <= j < u.len() && u[j].0 == t1;
                    assert(s[j].0 == s[last].0);
                }
            }
            assert(stored_at(s, t1));
            assert(stored_at(s, t2) == stored_at(u, t2)) by {
                if stored_at(s, t2) {
                    let j = choose|j: int| 0 <= j < s.len() && s[j].0 == t2;
                    assert(j != last);
                    assert(u[j].0 == t2);
                }
            }
        } else if s[last].0 == t2 {
            assert(!stored_at(u, t2)) by {
                if stored_at(u, t2) {
                    let j = choose|j: int| 0 <= j < u.len() && u[j].0 == t2;
                    assert(s[j].0 == s[last].0);
                }
            }
            assert(stored_at(s, t2));
            assert(stored_at(s, t1) == stored_at(u, t1)) by {
                if stored_at(s, t1) {
                    let j = choose|j: int| 0 <= j < s.len() && s[j].0 == t1;
                    assert(j != last);
                    assert(u[j].0 == t1);
                }
            }
        } else {
            assert(!(lo <= s[last].0 <= hi));
            assert(stored_at(s, t1) == stored_at(u, t1)) by {
                if stored_at(s, t1) {
                    let j = choose|j: int| 0 <= j < s.len() && s[j].0 == t1;
                    assert(u[j].0 == t1);
                }
            }
            assert(stored_at(s, t2) == stored_at(u, t2)) by {
                if stored_at(s, t2) {
                    let j = choose|j: int| 0 <= j < s.len() && s[j].0 == t2;
                    assert(u[j].0 == t2);
                }
            }
        }
    }
}

/// Law: when the only prices stored in a period are `p1` at `t1` and `p2` at
/// `t2`, the mean over the period is their mean, rounded toward zero.
pub proof fn law_mean_of_two(
    s: Seq<(i32, i32)>,
    lo: i32,
    hi: i32,
    i1: int,
    i2: int,
)
    requires
        sorted_keys(s),
        0 <= i1 < s.len(),
        0 <= i2 < s.len(),
        i1 != i2,
        lo <= s[i1].0 <= hi,
        lo <= s[i2].0 <= hi,
        forall|i: int| 0 <= i < s.len() && lo <= #[trigger] s[i].0 <= hi ==> i == i1 || i == i2,
    ensures
        range_count(s, lo, hi) == 2,
        mean_price(s, lo, hi) == if s[i1].1 + s[i2].1 >= 0 {
            (s[i1].1 + s[i2].1) / 2
        } else {
            -((-(s[i1].1 + s[i2].1)) / 2)
        },
{
    let t1 = s[i1].0;
    let t2 = s[i2].0;
    lemma_sorted_unique(s);
    assert(t1 != t2);
    assert forall|i: int| 0 <= i < s.len() && s[i].0 == t1 implies s[i].1 == s[i1].1 by {
        assert(i == i1);
    }
    assert forall|i: int| 0 <= i < s.len() && s[i].0 == t2 implies s[i].1 == s[i2].1 by {
        assert(i == i2);
    }
    lemma_range_of_two(s, lo, hi, t1, s[i1].1, t2, s[i2].1);
    assert(stored_at(s, t1) && stored_at(s, t2));
}

/// Law: after a price is stored at a timestamp, the mean over the period
/// made of that timestamp alone is that price.
pub proof fn law_query_after_insert(before: Seq<(i32, i32)>, after: Seq<(i32, i32)>, t: i32, p: i32)
    requires
        sorted_keys(before),
        sorted_keys(after),
        assoc_map(after) == assoc_map(before).insert(t, p),
    ensures
        range_count(after, t, t) == 1,
        mean_price(after, t, t) == p,
{
    lemma_sorted_unique(after);
    lemma_point_range(after, t);
    assert(assoc_map(after).contains_key(t));
}

} // verus!
