//! The session ledger: one connection's (timestamp, price) observations,
//! ordered by timestamp, with inclusive-range mean-price queries.

use vstd::prelude::*;

use crate::codec::{decoded_request, valid_tag, MalformedFrame, Request, Response};

verus! {

/// The entries are strictly ascending by timestamp, so every timestamp
/// appears at most once.
pub open spec fn entries_sorted(s: Seq<(i32, i32)>) -> bool {
    forall|i: int, j: int| 0 <= i < j < s.len() ==> s[i].0 < s[j].0
}

/// Whether an entry's timestamp lies in the inclusive window
/// `[min_time, max_time]`.
pub open spec fn in_range(e: (i32, i32), min_time: i32, max_time: i32) -> bool {
    min_time <= e.0 && e.0 <= max_time
}

/// How many entries lie in the inclusive window.
pub open spec fn range_count(s: Seq<(i32, i32)>, min_time: i32, max_time: i32) -> int
    decreases s.len(),
{
    if s.len() == 0 {
        0
    } else {
        (if in_range(s.first(), min_time, max_time) {
            1int
        } else {
            0int
        }) + range_count(s.drop_first(), min_time, max_time)
    }
}

/// The sum of the prices of the entries in the inclusive window.
pub open spec fn range_sum(s: Seq<(i32, i32)>, min_time: i32, max_time: i32) -> int
    decreases s.len(),
{
    if s.len() == 0 {
        0
    } else {
        (if in_range(s.first(), min_time, max_time) {
            s.first().1 as int
        } else {
            0int
        }) + range_sum(s.drop_first(), min_time, max_time)
    }
}

/// The sum of all prices.
pub open spec fn sum_prices(s: Seq<(i32, i32)>) -> int
    decreases s.len(),
{
    if s.len() == 0 {
        0
    } else {
        s.first().1 + sum_prices(s.drop_first())
    }
}

/// Integer division truncating toward zero, for a positive divisor.
pub open spec fn trunc_div(a: int, b: int) -> int
    recommends
        b > 0,
{
    if a >= 0 {
        a / b
    } else {
        -((-a) / b)
    }
}

/// What a query returns: 0 when no entry lies in the window, else the mean of
/// the matched prices, truncated toward zero.
pub open spec fn query_spec(s: Seq<(i32, i32)>, min_time: i32, max_time: i32) -> int {
    if range_count(s, min_time, max_time) == 0 {
        0
    } else {
        trunc_div(range_sum(s, min_time, max_time), range_count(s, min_time, max_time))
    }
}

/// The ledger after recording `p` at `t`: the entry is placed at its
/// timestamp's position, overwriting an entry already there.
pub open spec fn spec_insert(s: Seq<(i32, i32)>, t: i32, p: i32) -> Seq<(i32, i32)>
    decreases s.len(),
{
    if s.len() == 0 {
        seq![(t, p)]
    } else if s.first().0 < t {
        seq![s.first()] + spec_insert(s.drop_first(), t, p)
    } else if s.first().0 == t {
        seq![(t, p)] + s.drop_first()
    } else {
        seq![(t, p)] + s
    }
}

/// The price recorded at timestamp `t`, if any.
pub open spec fn lookup(s: Seq<(i32, i32)>, t: i32) -> Option<i32>
    decreases s.len(),
{
    if s.len() == 0 {
        None
    } else if s.first().0 == t {
        Some(s.first().1)
    } else {
        lookup(s.drop_first(), t)
    }
}

/// One connection's ledger: a chronologically ordered store of
/// (timestamp, price) observations with unique timestamps.
pub struct Ledger {
    entries: Vec<(i32, i32)>,
}

impl View for Ledger {
    type V = Seq<(i32, i32)>;

    closed spec fn view(&self) -> Seq<(i32, i32)> {
        self.entries@
    }
}

impl Ledger {
    #[verifier::type_invariant]
    spec fn wf(&self) -> bool {
        entries_sorted(self.entries@)
    }

    /// Create the empty ledger of a fresh connection.
    pub fn new() -> (l: Ledger)
        ensures
            l@ == Seq::<(i32, i32)>::empty(),
    {
        Ledger { entries: Vec::new() }
    }

    /// Record `price` at `timestamp`, overwriting any entry already there.
    /// Always succeeds; the entry order stays ascending by timestamp.
    pub fn insert(&mut self, timestamp: i32, price: i32)
        ensures
            final(self)@ == spec_insert(old(self)@, timestamp, price),
            entries_sorted(final(self)@),
    {
        proof {
            use_type_invariant(&*self);
        }
        let mut entries: Vec<(i32, i32)> = Vec::new();
        std::mem::swap(&mut entries, &mut self.entries);
        let ghost s = entries@;
        let mut i: usize = 0;
        while i < entries.len() && entries[i].0 < timestamp
            invariant
                entries@ == s,
                i <= s.len(),
                forall|j: int| 0 <= j < i ==> s[j].0 < timestamp,
            decreases entries.len() - i,
        {
            i += 1;
        }
        if i < entries.len() && entries[i].0 == timestamp {
            entries.remove(i);
            entries.insert(i, (timestamp, price));
            proof {
                lemma_spec_insert_at(s, timestamp, price, i as int);
                assert(entries@ =~= s.update(i as int, (timestamp, price)));
                assert forall|a: int, b: int| 0 <= a < b < entries@.len() implies entries@[a].0
                    < entries@[b].0 by {
                    assert(entries_sorted(s));
                }
            }
        } else {
            entries.insert(i, (timestamp, price));
            proof {
                lemma_spec_insert_at(s, timestamp, price, i as int);
                assert(entries@ =~= s.insert(i as int, (timestamp, price)));
                assert forall|a: int, b: int| 0 <= a < b < entries@.len() implies entries@[a].0
                    < entries@[b].0 by {
                    if b < i {
                        assert(entries@[a] == s[a] && entries@[b] == s[b]);
                    } else if b == i {
                        assert(entries@[a] == s[a]);
                    } else if a == i {
                        assert(entries@[b] == s[b - 1] && s[b - 1].0 >= s[i as int].0);
                    } else if a < i {
                        assert(entries@[a] == s[a] && entries@[b] == s[b - 1] && a < b - 1);
                    } else {
                        assert(entries@[a] == s[a - 1] && entries@[b] == s[b - 1]);
                    }
                }
            }
        }
        self.entries = entries;
    }

    /// The mean of the prices recorded in the inclusive window
    /// `[min_time, max_time]`, truncated toward zero; 0 when no entry lies in
    /// the window (in particular over an empty ledger or a reversed window).
    /// The running sum is kept in 128 bits, so it cannot overflow however
    /// many large-magnitude prices accumulate. The ledger is not changed.
    pub fn query(&self, min_time: i32, max_time: i32) -> (r: i32)
        ensures
            r as int == query_spec(self@, min_time, max_time),
            min_time > max_time ==> r == 0,
            self@.len() == 0 ==> r == 0,
            range_count(self@, min_time, max_time) == 0 ==> r == 0,
    {
        let ghost s = self@;
        proof {
            assert(s.skip(0) =~= s);
        }
        let mut total: i128 = 0;
        let mut count: u64 = 0;
        let mut idx: usize = 0;
        while idx < self.entries.len()
            invariant
                s == self.entries@,
                idx <= s.len(),
                count <= idx,
                total + range_sum(s.skip(idx as int), min_time, max_time) == range_sum(
                    s,
                    min_time,
                    max_time,
                ),
                count + range_count(s.skip(idx as int), min_time, max_time) == range_count(
                    s,
                    min_time,
                    max_time,
                ),
                -(count as int) * 0x8000_0000 <= total <= (count as int) * 0x7FFF_FFFF,
            decreases s.len() - idx,
        {
            let (t, p) = self.entries[idx];
            proof {
                assert(s.skip(idx as int).first() == s[idx as int]);
                assert(s.skip(idx as int).drop_first() =~= s.skip(idx as int + 1));
            }
            if min_time <= t && t <= max_time {
                total = total + (p as i128);
                count = count + 1;
            }
            idx += 1;
        }
        proof {
            assert(s.skip(s.len() as int) =~= Seq::<(i32, i32)>::empty());
            if min_time > max_time {
                lemma_range_none(s, min_time, max_time);
            }
        }
        if count == 0 {
            0
        } else {
            let c: i128 = count as i128;
            proof {
                lemma_trunc_div_in_i32_range(total as int, count as int);
            }
            let q: i128 = total.checked_div(c).unwrap();
            q as i32
        }
    }
}

/// Where the new entry lands: when `i` is the first position whose timestamp
/// is not below `t`, inserting `(t, p)` either overwrites position `i` or
/// opens a slot there.
proof fn lemma_spec_insert_at(s: Seq<(i32, i32)>, t: i32, p: i32, i: int)
    requires
        entries_sorted(s),
        0 <= i <= s.len(),
        forall|j: int| 0 <= j < i ==> s[j].0 < t,
        i < s.len() ==> s[i].0 >= t,
    ensures
        i < s.len() && s[i].0 == t ==> spec_insert(s, t, p) == s.update(i, (t, p)),
        !(i < s.len() && s[i].0 == t) ==> spec_insert(s, t, p) == s.insert(i, (t, p)),
    decreases s.len(),
{
    if s.len() == 0 {
        assert(spec_insert(s, t, p) =~= s.insert(0, (t, p)));
    } else if i == 0 {
        if s[0].0 == t {
            assert(spec_insert(s, t, p) =~= s.update(0, (t, p)));
        } else {
            assert(spec_insert(s, t, p) =~= s.insert(0, (t, p)));
        }
    } else {
        let rest = s.drop_first();
        assert(s[0].0 < t);
        assert(entries_sorted(rest)) by {
            assert forall|a: int, b: int| 0 <= a < b < rest.len() implies rest[a].0
                < rest[b].0 by {
                assert(rest[a] == s[a + 1] && rest[b] == s[b + 1]);
            }
        };
        assert(forall|j: int| 0 <= j < i - 1 ==> rest[j].0 == s[j + 1].0 && s[j + 1].0 < t);
        lemma_spec_insert_at(rest, t, p, i - 1);
        if i < s.len() && s[i].0 == t {
            assert(rest[i - 1] == s[i]);
            assert(spec_insert(s, t, p) =~= s.update(i, (t, p)));
        } else {
            assert(spec_insert(s, t, p) =~= s.insert(i, (t, p)));
        }
    }
}

/// A window that matches no entry counts and sums to nothing.
proof fn lemma_range_none(s: Seq<(i32, i32)>, min_time: i32, max_time: i32)
    requires
        forall|j: int| 0 <= j < s.len() ==> !in_range(s[j], min_time, max_time),
    ensures
        range_count(s, min_time, max_time) == 0,
        range_sum(s, min_time, max_time) == 0,
    decreases s.len(),
{
    if s.len() > 0 {
        assert(forall|j: int|
            0 <= j < s.drop_first().len() ==> s.drop_first()[j] == s[j + 1]);
        lemma_range_none(s.drop_first(), min_time, max_time);
    }
}

/// Apply one request frame to a connection's ledger and produce its reply:
/// the compute step of the connection loop. An insertion records the entry
/// and replies 0; a query leaves the ledger unchanged and replies the mean;
/// a frame with an unrecognized tag changes nothing and yields no reply.
pub fn process_frame(ledger: &mut Ledger, data: &[u8; 9]) -> (r: Result<Response, MalformedFrame>)
    ensures
        match r {
            Ok(resp) => valid_tag(data@[0]) && (match decoded_request(data@) {
                Request::Insert(t, p) => final(ledger)@ == spec_insert(old(ledger)@, t, p)
                    && resp.price == 0,
                Request::Query(lo, hi) => final(ledger)@ == old(ledger)@ && resp.price as int
                    == query_spec(old(ledger)@, lo, hi),
            }),
            Err(_) => !valid_tag(data@[0]) && final(ledger)@ == old(ledger)@,
        },
{
    match Request::from_bytes(data) {
        Ok(Request::Insert(timestamp, price)) => {
            ledger.insert(timestamp, price);
            Ok(Response::new(0))
        }
        Ok(Request::Query(min_time, max_time)) => Ok(
            Response::new(ledger.query(min_time, max_time)),
        ),
        Err(e) => Err(e),
    }
}

/// Recording `p` at `t` keeps the entries sorted, sets the price at `t` to
/// `p`, and leaves every other timestamp's price as it was.
pub proof fn lemma_spec_insert_props(s: Seq<(i32, i32)>, t: i32, p: i32)
    requires
        entries_sorted(s),
    ensures
        entries_sorted(spec_insert(s, t, p)),
        lookup(spec_insert(s, t, p), t) == Some(p),
        forall|u: i32| u != t ==> lookup(spec_insert(s, t, p), u) == lookup(s, u),
        forall|j: int|
            0 <= j < spec_insert(s, t, p).len() ==> spec_insert(s, t, p)[j].0 == t || (s.len() > 0
                && spec_insert(s, t, p)[j].0 >= s[0].0),
    decreases s.len(),
{
    let r = spec_insert(s, t, p);
    if s.len() == 0 {
        assert(r.drop_first() =~= Seq::<(i32, i32)>::empty());
        assert forall|u: i32| u != t implies lookup(r, u) == lookup(s, u) by {
            assert(lookup(r.drop_first(), u) == None::<i32>);
            assert(lookup(r, u) == lookup(r.drop_first(), u));
        }
    } else {
        let rest = s.drop_first();
        assert(entries_sorted(rest)) by {
            assert forall|a: int, b: int| 0 <= a < b < rest.len() implies rest[a].0
                < rest[b].0 by {
                assert(rest[a] == s[a + 1] && rest[b] == s[b + 1]);
            }
        };
        if s.first().0 < t {
            lemma_spec_insert_props(rest, t, p);
            let rr = spec_insert(rest, t, p);
            assert(r =~= seq![s.first()] + rr);
            assert(r.drop_first() =~= rr);
            assert forall|a: int, b: int| 0 <= a < b < r.len() implies r[a].0 < r[b].0 by {
                if a == 0 {
                    assert(r[b] == rr[b - 1]);
                    assert(rr[b - 1].0 == t || (rest.len() > 0 && rr[b - 1].0 >= rest[0].0));
                } else {
                    assert(r[a] == rr[a - 1] && r[b] == rr[b - 1]);
                }
            }
            assert forall|u: i32| u != t implies lookup(r, u) == lookup(s, u) by {
                assert(r.first() == s.first());
                if u != s.first().0 {
                    assert(lookup(r, u) == lookup(rr, u));
                    assert(lookup(s, u) == lookup(rest, u));
                }
            }
        } else if s.first().0 == t {
            assert(r.drop_first() =~= rest);
            assert forall|a: int, b: int| 0 <= a < b < r.len() implies r[a].0 < r[b].0 by {
                if a == 0 {
                    assert(r[b] == s[b]);
                } else {
                    assert(r[a] == s[a] && r[b] == s[b]);
                }
            }
            assert forall|u: i32| u != t implies lookup(r, u) == lookup(s, u) by {
                assert(lookup(r, u) == lookup(rest, u));
                assert(lookup(s, u) == lookup(rest, u));
            }
        } else {
            assert(r.drop_first() =~= s);
            assert forall|a: int, b: int| 0 <= a < b < r.len() implies r[a].0 < r[b].0 by {
                if a == 0 {
                    assert(r[b] == s[b - 1] && s[b - 1].0 >= s[0].0);
                } else {
                    assert(r[a] == s[a - 1] && r[b] == s[b - 1]);
                }
            }
            assert forall|u: i32| u != t implies lookup(r, u) == lookup(s, u) by {
                assert(lookup(r, u) == lookup(s, u));
            }
        }
    }
}

/// Over the point window `[t, t]`, a sorted ledger matches exactly its entry
/// at `t`, when there is one.
pub proof fn lemma_point_query(s: Seq<(i32, i32)>, t: i32)
    requires
        entries_sorted(s),
    ensures
        range_count(s, t, t) == (if lookup(s, t) is Some {
            1int
        } else {
            0int
        }),
        range_sum(s, t, t) == (match lookup(s, t) {
            Some(p) => p as int,
            None => 0,
        }),
    decreases s.len(),
{
    if s.len() > 0 {
        let rest = s.drop_first();
        assert(forall|j: int| 0 <= j < rest.len() ==> rest[j] == s[j + 1]);
        assert(entries_sorted(rest));
        if s.first().0 == t {
            lemma_range_none(rest, t, t);
        } else {
            lemma_point_query(rest, t);
        }
    }
}

/// Re-inserting at an existing timestamp replaces the prior price: after
/// recording `p1` and then `p2` at `t`, a query over the point window
/// `[t, t]` yields `p2`.
pub proof fn lemma_reinsert_replaces(s: Seq<(i32, i32)>, t: i32, p1: i32, p2: i32)
    requires
        entries_sorted(s),
    ensures
        query_spec(spec_insert(spec_insert(s, t, p1), t, p2), t, t) == p2 as int,
{
    let s1 = spec_insert(s, t, p1);
    let s2 = spec_insert(s1, t, p2);
    lemma_spec_insert_props(s, t, p1);
    lemma_spec_insert_props(s1, t, p2);
    lemma_point_query(s2, t);
    assert(trunc_div(p2 as int, 1) == p2 as int) by {
        vstd::arithmetic::div_mod::lemma_div_basics(p2 as int);
        vstd::arithmetic::div_mod::lemma_div_basics(-(p2 as int));
    };
}

/// Recording at a fresh timestamp adds one entry and adds its price to the
/// total of all recorded prices. With distinct-timestamp insertions this
/// accounts, step by step, for the whole sum a covering query averages.
pub proof fn lemma_insert_fresh_sum(s: Seq<(i32, i32)>, t: i32, p: i32)
    requires
        entries_sorted(s),
        lookup(s, t) is None,
    ensures
        spec_insert(s, t, p).len() == s.len() + 1,
        sum_prices(spec_insert(s, t, p)) == sum_prices(s) + p,
    decreases s.len(),
{
    let r = spec_insert(s, t, p);
    if s.len() == 0 {
        assert(r.drop_first() =~= Seq::<(i32, i32)>::empty());
        assert(sum_prices(r.drop_first()) == 0);
        assert(sum_prices(r) == p + sum_prices(r.drop_first()));
    } else if s.first().0 < t {
        let rest = s.drop_first();
        assert(entries_sorted(rest)) by {
            assert forall|a: int, b: int| 0 <= a < b < rest.len() implies rest[a].0
                < rest[b].0 by {
                assert(rest[a] == s[a + 1] && rest[b] == s[b + 1]);
            }
        };
        lemma_insert_fresh_sum(rest, t, p);
        assert(r.first() == s.first());
        assert(r.drop_first() =~= spec_insert(rest, t, p));
        assert(sum_prices(r) == s.first().1 + sum_prices(spec_insert(rest, t, p)));
    } else {
        assert(s.first().0 != t);
        assert(r.drop_first() =~= s);
        assert(r.first() == (t, p));
        assert(sum_prices(r) == p + sum_prices(s));
    }
}

/// A window that contains every entry matches every entry.
proof fn lemma_range_all(s: Seq<(i32, i32)>, min_time: i32, max_time: i32)
    requires
        forall|j: int| 0 <= j < s.len() ==> in_range(s[j], min_time, max_time),
    ensures
        range_count(s, min_time, max_time) == s.len(),
        range_sum(s, min_time, max_time) == sum_prices(s),
    decreases s.len(),
{
    if s.len() > 0 {
        assert(forall|j: int|
            0 <= j < s.drop_first().len() ==> s.drop_first()[j] == s[j + 1]);
        lemma_range_all(s.drop_first(), min_time, max_time);
    }
}

/// A query whose window contains every recorded timestamp returns the mean
/// of all recorded prices, truncated toward zero.
pub proof fn lemma_query_covers_all(s: Seq<(i32, i32)>, min_time: i32, max_time: i32)
    requires
        s.len() > 0,
        forall|j: int| 0 <= j < s.len() ==> min_time <= s[j].0 && s[j].0 <= max_time,
    ensures
        query_spec(s, min_time, max_time) == trunc_div(sum_prices(s), s.len() as int),
{
    lemma_range_all(s, min_time, max_time);
}

/// A truncating mean of 32-bit prices fits back into 32 bits.
proof fn lemma_trunc_div_in_i32_range(total: int, count: int)
    requires
        count > 0,
        -count * 0x8000_0000 <= total <= count * 0x7FFF_FFFF,
    ensures
        -0x8000_0000 <= trunc_div(total, count) <= 0x7FFF_FFFF,
        total >= 0 ==> trunc_div(total, count) == total / count,
        total < 0 ==> trunc_div(total, count) == -((-total) / count),
{
    if total >= 0 {
        vstd::arithmetic::div_mod::lemma_div_pos_is_pos(total, count);
        vstd::arithmetic::div_mod::lemma_div_is_ordered(total, count * 0x7FFF_FFFF, count);
        vstd::arithmetic::div_mod::lemma_div_multiples_vanish(0x7FFF_FFFF, count);
    } else {
        vstd::arithmetic::div_mod::lemma_div_pos_is_pos(-total, count);
        vstd::arithmetic::div_mod::lemma_div_is_ordered(-total, count * 0x8000_0000, count);
        vstd::arithmetic::div_mod::lemma_div_multiples_vanish(0x8000_0000, count);
    }
}

} // verus!
