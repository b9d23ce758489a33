//! A mapping from an ordered key domain to values, mutated by assigning
//! one value to every key of a half-open range at a time.
//!
//! The representation is a breakpoint table: a sequence of (key, value)
//! pairs with strictly increasing keys, where a pair `(k, v)` means that
//! every key from `k` up to (excluding) the next breakpoint key maps to
//! `v`, and the last breakpoint covers all keys from its key upward. The
//! first breakpoint always sits at the least key of the domain, so every
//! key is covered.

use vstd::prelude::*;
use core::cmp::Ordering;
use crate::order::{
    TotalOrder, Min, key_lt, in_range, lemma_key_lt_le, lemma_key_lt_trans, lemma_not_key_lt,
    lemma_empty_range,
};
use crate::value::ValEq;

verus! {

/// The keys of the breakpoint table are strictly increasing.
pub open spec fn keys_sorted<K: TotalOrder, V>(s: Seq<(K, V)>) -> bool {
    forall|i: int, j: int| 0 <= i < j < s.len() ==> #[trigger] key_lt(s[i].0, s[j].0)
}

/// Canonical form: no two adjacent breakpoints hold equal values, so
/// every breakpoint marks an actual change of value.
pub open spec fn canonical<K, V>(s: Seq<(K, V)>) -> bool {
    forall|i: int| #![trigger s[i]] 0 <= i < s.len() - 1 ==> s[i].1 != s[i + 1].1
}

/// The value covering `q`: the value of the last breakpoint whose key is
/// at or below `q`, scanning the table from the back.
spec fn value_at<K: TotalOrder, V>(s: Seq<(K, V)>, q: K) -> V
    decreases s.len(),
{
    if s.len() == 0 {
        arbitrary()
    } else if s.last().0.le(q) {
        s.last().1
    } else {
        value_at(s.drop_last(), q)
    }
}

/// How a range write turns the breakpoint table `old_s` into `new_s`:
/// `lo` counts the breakpoints strictly below `begin_key` and `hi` those
/// at or below `end_key`; the table keeps the `lo` breakpoints below the
/// range, writes a breakpoint `(begin_key, val)` unless the kept prefix
/// already ends in `val`, writes `(end_key, carry_val)` — the value that
/// covered `end_key` before — unless that value is `val`, and keeps the
/// breakpoints strictly above `end_key`.
spec fn splice_shape<K: TotalOrder, V>(
    old_s: Seq<(K, V)>,
    new_s: Seq<(K, V)>,
    begin_key: K,
    end_key: K,
    val: V,
    carry_val: V,
    lo: int,
    hi: int,
    push_begin: bool,
    push_end: bool,
) -> bool {
    let pb: int = if push_begin {
        1
    } else {
        0
    };
    let pe: int = if push_end {
        1
    } else {
        0
    };
    let mid_len = lo + pb + pe;
    &&& old_s.len() >= 1
    &&& forall|q: K| #[trigger] old_s[0].0.le(q)
    &&& keys_sorted(old_s)
    &&& canonical(old_s)
    &&& key_lt(begin_key, end_key)
    &&& 0 <= lo <= hi <= old_s.len()
    &&& 1 <= hi
    &&& forall|i: int| #![trigger old_s[i]] 0 <= i < lo ==> key_lt(old_s[i].0, begin_key)
    &&& forall|i: int| #![trigger old_s[i]] lo <= i < old_s.len() ==> begin_key.le(old_s[i].0)
    &&& forall|i: int| #![trigger old_s[i]] 0 <= i < hi ==> old_s[i].0.le(end_key)
    &&& forall|i: int| #![trigger old_s[i]] hi <= i < old_s.len() ==> key_lt(end_key, old_s[i].0)
    &&& carry_val == old_s[hi - 1].1
    &&& (push_begin <==> (lo == 0 || old_s[lo - 1].1 != val))
    &&& (push_end <==> carry_val != val)
    &&& new_s.len() == mid_len + (old_s.len() - hi)
    &&& forall|k: int| #![trigger new_s[k]] 0 <= k < lo ==> new_s[k] == old_s[k]
    &&& (push_begin ==> new_s[lo] == (begin_key, val))
    &&& (push_end ==> new_s[lo + pb] == (end_key, carry_val))
    &&& forall|k: int|
        #![trigger old_s[k]]
        hi <= k < old_s.len() ==> new_s[mid_len + (k - hi)] == old_s[k]
}

/// A spliced table is again a well-formed breakpoint table: non-empty,
/// anchored at the least key, strictly increasing, and canonical.
proof fn lemma_splice_wf<K: TotalOrder, V>(
    old_s: Seq<(K, V)>,
    new_s: Seq<(K, V)>,
    begin_key: K,
    end_key: K,
    val: V,
    carry_val: V,
    lo: int,
    hi: int,
    push_begin: bool,
    push_end: bool,
)
    requires
        splice_shape(old_s, new_s, begin_key, end_key, val, carry_val, lo, hi, push_begin, push_end),
    ensures
        new_s.len() >= 1,
        forall|q: K| #[trigger] new_s[0].0.le(q),
        keys_sorted(new_s),
        canonical(new_s),
{
    let pb: int = if push_begin {
        1
    } else {
        0
    };
    let pe: int = if push_end {
        1
    } else {
        0
    };
    let mid_len = lo + pb + pe;
    let new_len = new_s.len() as int;
    // The new table keeps a breakpoint at the least key.
    assert forall|q: K| #[trigger] new_s[0].0.le(q) by {
        if lo == 0 {
            // the old least key is at or above begin_key, hence equal to it
            assert(old_s[0].0.le(begin_key));
            K::lemma_le_antisymmetric(begin_key, old_s[0].0);
            assert(new_s[0].0 == begin_key);
            assert(old_s[0].0.le(q));
        } else {
            assert(new_s[0] == old_s[0]);
            assert(old_s[0].0.le(q));
        }
    }
    // The new table's keys are strictly increasing.
    assert forall|a: int, b: int| 0 <= a < b < new_len implies #[trigger] key_lt(
        new_s[a].0,
        new_s[b].0,
    ) by {
        if a < lo {
            assert(new_s[a] == old_s[a]);
            assert(key_lt(old_s[a].0, begin_key));
            if b < lo {
                assert(key_lt(old_s[a].0, old_s[b].0));
            } else if push_begin && b == lo {
                assert(new_s[b].0 == begin_key);
            } else if push_end && b == lo + pb {
                lemma_key_lt_trans(old_s[a].0, begin_key, end_key);
            } else {
                let ob = b - mid_len + hi;
                assert(new_s[b] == old_s[ob]);
                assert(key_lt(end_key, old_s[ob].0));
                lemma_key_lt_trans(old_s[a].0, begin_key, end_key);
                lemma_key_lt_trans(old_s[a].0, end_key, old_s[ob].0);
            }
        } else if push_begin && a == lo {
            if push_end && b == lo + pb {
                assert(key_lt(begin_key, end_key));
            } else {
                let ob = b - mid_len + hi;
                assert(new_s[b] == old_s[ob]);
                assert(key_lt(end_key, old_s[ob].0));
                lemma_key_lt_trans(begin_key, end_key, old_s[ob].0);
            }
        } else if push_end && a == lo + pb {
            let ob = b - mid_len + hi;
            assert(new_s[b] == old_s[ob]);
            assert(key_lt(end_key, old_s[ob].0));
        } else {
            let oa = a - mid_len + hi;
            let ob = b - mid_len + hi;
            assert(new_s[a] == old_s[oa]);
            assert(new_s[b] == old_s[ob]);
            assert(key_lt(old_s[oa].0, old_s[ob].0));
        }
    }
    // The new table stays canonical: each boundary breakpoint is written
    // only where the value actually changes, and where one is omitted the
    // kept neighbours still disagree.
    assert forall|a: int| #![trigger new_s[a]] 0 <= a < new_len - 1 implies new_s[a].1 != new_s[a
        + 1].1 by {
        if a + 1 < lo {
            assert(new_s[a] == old_s[a]);
            assert(new_s[a + 1] == old_s[a + 1]);
            assert(old_s[a].1 != old_s[a + 1].1);
        } else if a + 1 == lo {
            assert(new_s[a] == old_s[a]);
            if push_begin {
                assert(new_s[a + 1].1 == val);
            } else if push_end {
                assert(old_s[a].1 == val);
                assert(new_s[a + 1].1 == carry_val);
            } else {
                assert(old_s[a].1 == val && val == carry_val);
                assert(new_s[a + 1] == old_s[hi]);
                assert(old_s[hi - 1].1 != old_s[hi].1);
            }
        } else if push_begin && a == lo {
            if push_end {
                assert(new_s[a + 1].1 == carry_val);
            } else {
                assert(val == carry_val);
                assert(new_s[a + 1] == old_s[hi]);
                assert(old_s[hi - 1].1 != old_s[hi].1);
            }
        } else if push_end && a == lo + pb {
            assert(new_s[a].1 == carry_val);
            assert(new_s[a + 1] == old_s[hi]);
            assert(old_s[hi - 1].1 != old_s[hi].1);
        } else {
            let oa = a - mid_len + hi;
            assert(new_s[a] == old_s[oa]);
            assert(new_s[a + 1] == old_s[oa + 1]);
            assert(old_s[oa].1 != old_s[oa + 1].1);
        }
    }
}

/// The one point of the splice: the spliced table covers every key of
/// `[begin_key, end_key)` with `val` and covers every other key with
/// whatever value covered it in the old table.
proof fn lemma_splice_value_at<K: TotalOrder, V>(
    old_s: Seq<(K, V)>,
    new_s: Seq<(K, V)>,
    begin_key: K,
    end_key: K,
    val: V,
    carry_val: V,
    lo: int,
    hi: int,
    push_begin: bool,
    push_end: bool,
    q: K,
)
    requires
        splice_shape(old_s, new_s, begin_key, end_key, val, carry_val, lo, hi, push_begin, push_end),
        keys_sorted(new_s),
    ensures
        value_at(new_s, q) == (if in_range(q, begin_key, end_key) {
            val
        } else {
            value_at(old_s, q)
        }),
{
    let pb: int = if push_begin {
        1
    } else {
        0
    };
    let pe: int = if push_end {
        1
    } else {
        0
    };
    let mid_len = lo + pb + pe;
    let len = old_s.len() as int;
    let new_len = new_s.len() as int;
    let fe = hi - 1;
    // the value that covered end_key before the splice
    lemma_value_at_floor(old_s, end_key, fe);
    if in_range(q, begin_key, end_key) {
        // q is covered by the breakpoint written at begin_key, or by the
        // kept breakpoint just below it whose value already equals val.
        if push_begin {
            if lo + 1 < new_len {
                if !push_end {
                    let sk = new_s[lo + 1].0;
                    assert(key_lt(end_key, sk));
                    lemma_key_lt_trans(q, end_key, sk);
                }
            }
            lemma_value_at_floor(new_s, q, lo);
        } else {
            assert(new_s[lo - 1] == old_s[lo - 1]);
            lemma_key_lt_le(old_s[lo - 1].0, begin_key, q);
            if lo < new_len {
                if !push_end {
                    let sk = new_s[lo].0;
                    assert(key_lt(end_key, sk));
                    lemma_key_lt_trans(q, end_key, sk);
                }
            }
            lemma_value_at_floor(new_s, q, lo - 1);
        }
    } else if !begin_key.le(q) {
        // q lies strictly below begin_key: its floor breakpoint is in the
        // kept prefix, untouched.
        K::lemma_le_total(begin_key, q);
        K::lemma_le_reflexive(q);
        assert(key_lt(q, begin_key));
        let f = lemma_floor_exists(old_s, q);
        if f >= lo {
            K::lemma_le_transitive(begin_key, old_s[f].0, q);
            assert(false);
        }
        assert(new_s[f] == old_s[f]);
        if f + 1 < new_len && f + 1 >= lo {
            // the successor of the floor in the new table
            if push_begin {
                assert(new_s[f + 1].0 == begin_key);
            } else if push_end {
                lemma_key_lt_trans(q, begin_key, end_key);
            } else {
                let sk = new_s[f + 1].0;
                assert(sk == old_s[hi].0);
                lemma_key_lt_trans(q, begin_key, end_key);
                lemma_key_lt_trans(q, end_key, sk);
            }
        }
        lemma_value_at_floor(new_s, q, f);
    } else {
        // end_key is at or below q: the value covering q is the one that
        // covered it before, carried over at end_key if a breakpoint was
        // needed there.
        lemma_not_key_lt(q, end_key);
        let f = lemma_floor_exists(old_s, q);
        if f < fe {
            lemma_key_lt_le(q, old_s[f + 1].0, end_key);
            lemma_key_lt_le(q, end_key, q);
            assert(false);
        }
        if f >= hi {
            let nf = mid_len + (f - hi);
            assert(new_s[nf] == old_s[f]);
            if nf + 1 < new_len {
                assert(new_s[nf + 1] == old_s[f + 1]);
            }
            lemma_value_at_floor(new_s, q, nf);
        } else {
            assert(f == fe);
            if push_end {
                assert(new_s[lo + pb] == (end_key, carry_val));
                if lo + pb + 1 < new_len {
                    assert(new_s[lo + pb + 1] == old_s[hi]);
                }
                lemma_value_at_floor(new_s, q, lo + pb);
            } else {
                if push_begin {
                    lemma_key_lt_le(begin_key, end_key, q);
                    if lo + 1 < new_len {
                        assert(new_s[lo + 1] == old_s[hi]);
                    }
                    lemma_value_at_floor(new_s, q, lo);
                } else {
                    assert(new_s[lo - 1] == old_s[lo - 1]);
                    lemma_key_lt_trans(old_s[lo - 1].0, begin_key, end_key);
                    lemma_key_lt_le(old_s[lo - 1].0, end_key, q);
                    if lo < new_len {
                        assert(new_s[lo] == old_s[hi]);
                    }
                    lemma_value_at_floor(new_s, q, lo - 1);
                }
            }
        }
    }
}

/// An interval-keyed map: `insert(begin, end, v)` maps every key of
/// `[begin, end)` to `v`, and `get(q)` returns the value covering `q`.
/// Keys never covered by an insertion keep the initial value.
#[derive(Debug)]
pub struct IntervalMap<K: Min + Copy, V: ValEq + Copy> {
    table: Vec<(K, V)>,
}

impl<K: Min + Copy, V: ValEq + Copy> IntervalMap<K, V> {
    /// The breakpoint table is never empty, its first key is below every
    /// key of the domain, its keys are strictly increasing, and it is in
    /// canonical form: adjacent breakpoints never hold equal values.
    #[verifier::type_invariant]
    closed spec fn wf(self) -> bool {
        &&& self.table@.len() >= 1
        &&& forall|q: K| #[trigger] self.table@[0].0.le(q)
        &&& keys_sorted(self.table@)
        &&& canonical(self.table@)
    }

    /// The mapping this container denotes: the value covering key `q`.
    pub closed spec fn spec_get(self, q: K) -> V {
        value_at(self.table@, q)
    }

    /// Creates a map in which every key of the domain is covered by
    /// `init_val`.
    pub fn new(init_val: V) -> (m: Self)
        ensures
            forall|q: K| m.spec_get(q) == init_val,
    {
        let min_key = K::minimum();
        let mut table: Vec<(K, V)> = Vec::new();
        table.push((min_key, init_val));
        let m = IntervalMap { table };
        proof {
            assert forall|q: K| m.spec_get(q) == init_val by {
                assert(m.table@.last().0.le(q));
            }
        }
        m
    }

    /// Floor search: the index of the greatest breakpoint key at or below
    /// `key`. Defined for every `key` because the first breakpoint key is
    /// below every key of the domain.
    #[verifier::loop_isolation(false)]
    fn find_index(&self, key: &K) -> (r: usize)
        requires
            self.wf(),
        ensures
            r < self.table@.len(),
            self.table@[r as int].0.le(*key),
            r + 1 < self.table@.len() ==> key_lt(*key, self.table@[r as int + 1].0),
    {
        let mut low: usize = 0;
        let mut high: usize = self.table.len() - 1;
        while low < high
            invariant
                low <= high,
                high < self.table@.len(),
                self.table@[low as int].0.le(*key),
                high + 1 < self.table@.len() ==> key_lt(*key, self.table@[high as int + 1].0),
            decreases high - low,
        {
            let mid = low + (high - low + 1) / 2;
            let probe = self.table[mid];
            let c = probe.0.compare(key);
            match c {
                Ordering::Greater => {
                    high = mid - 1;
                }
                _ => {
                    proof {
                        if probe.0 == *key {
                            K::lemma_le_reflexive(*key);
                        }
                    }
                    low = mid;
                }
            }
        }
        low
    }

    /// Assigns `val` to every key of the half-open range
    /// `[begin_key, end_key)`. Every key outside the range, `end_key`
    /// itself included, keeps the value that covered it before the call;
    /// when `end_key` is at or below `begin_key` the range is empty and
    /// nothing changes.
    #[verifier::loop_isolation(false)]
    #[verifier::rlimit(60)]
    pub fn insert(&mut self, begin_key: K, end_key: K, val: V)
        ensures
            forall|q: K|
                #[trigger] final(self).spec_get(q) == (if in_range(q, begin_key, end_key) {
                    val
                } else {
                    old(self).spec_get(q)
                }),
    {
        proof {
            use_type_invariant(&*self);
        }
        let ghost old_s = self.table@;
        let ghost len: int = old_s.len() as int;
        let c = begin_key.compare(&end_key);
        if !matches!(c, Ordering::Less) {
            proof {
                match c {
                    Ordering::Less => {
                        assert(false);
                    },
                    Ordering::Equal => {},
                    Ordering::Greater => {
                        if key_lt(begin_key, end_key) {
                            K::lemma_le_antisymmetric(begin_key, end_key);
                            assert(false);
                        }
                    },
                }
                lemma_empty_range::<K>(begin_key, end_key);
            }
            return;
        }
        // From here on: begin_key is strictly below end_key.
        let n = self.table.len();
        let fb = self.find_index(&begin_key);
        let fe = self.find_index(&end_key);
        let carry_val = self.table[fe].1;
        // lo: the number of breakpoints strictly below begin_key.
        let probe_b = self.table[fb];
        let cb = probe_b.0.compare(&begin_key);
        let at_begin = matches!(cb, Ordering::Equal);
        proof {
            match cb {
                Ordering::Less => {},
                Ordering::Equal => {},
                Ordering::Greater => {
                    // impossible: the floor key is at or below begin_key
                    K::lemma_le_antisymmetric(begin_key, old_s[fb as int].0);
                    assert(false);
                },
            }
        }
        let lo: usize = if at_begin {
            fb
        } else {
            fb + 1
        };
        // hi: the first index whose key is strictly above end_key.
        let hi: usize = fe + 1;
        proof {
            // Everything below lo is strictly below begin_key.
            assert forall|i: int| 0 <= i < lo implies key_lt(old_s[i].0, begin_key) by {
                if i < fb {
                    assert(key_lt(old_s[i].0, old_s[fb as int].0));
                    if !at_begin {
                        lemma_key_lt_le(old_s[i].0, old_s[fb as int].0, begin_key);
                    }
                } else {
                    assert(i == fb && !at_begin);
                    assert(key_lt(old_s[fb as int].0, begin_key));
                }
            }
            // Everything at or past lo is at or above begin_key.
            assert forall|i: int| lo <= i < len implies begin_key.le(old_s[i].0) by {
                if at_begin {
                    if i == lo {
                        K::lemma_le_reflexive(begin_key);
                    } else {
                        assert(key_lt(old_s[lo as int].0, old_s[i].0));
                    }
                } else {
                    assert(key_lt(begin_key, old_s[fb as int + 1].0));
                    if i > lo {
                        assert(key_lt(old_s[lo as int].0, old_s[i].0));
                        lemma_key_lt_trans(begin_key, old_s[lo as int].0, old_s[i].0);
                    }
                }
            }
            // Everything below hi is at or below end_key.
            assert forall|i: int| 0 <= i < hi implies old_s[i].0.le(end_key) by {
                if i < fe {
                    assert(key_lt(old_s[i].0, old_s[fe as int].0));
                    lemma_key_lt_le(old_s[i].0, old_s[fe as int].0, end_key);
                }
            }
            // Everything at or past hi is strictly above end_key.
            assert forall|i: int| hi <= i < len implies key_lt(end_key, old_s[i].0) by {
                assert(key_lt(end_key, old_s[fe as int + 1].0));
                if i > hi {
                    assert(key_lt(old_s[hi as int].0, old_s[i].0));
                    lemma_key_lt_trans(end_key, old_s[hi as int].0, old_s[i].0);
                }
            }
            // The two cut points are ordered.
            if hi < lo {
                lemma_key_lt_trans(end_key, old_s[hi as int].0, begin_key);
                K::lemma_le_antisymmetric(begin_key, end_key);
                assert(false);
            }
        }
        // Splice: keep the breakpoints strictly below begin_key, write the
        // two boundary breakpoints where they change anything, and keep
        // the breakpoints strictly above end_key.
        let mut t: Vec<(K, V)> = Vec::new();
        let mut i: usize = 0;
        while i < lo
            invariant
                i <= lo,
                t@.len() == i as int,
                forall|k: int| 0 <= k < i ==> t@[k] == old_s[k],
            decreases lo - i,
        {
            let pair = self.table[i];
            t.push(pair);
            i += 1;
        }
        let push_begin: bool = if lo == 0 {
            true
        } else {
            let prev = self.table[lo - 1];
            !prev.1.eq_val(&val)
        };
        if push_begin {
            t.push((begin_key, val));
        }
        let push_end: bool = !carry_val.eq_val(&val);
        if push_end {
            t.push((end_key, carry_val));
        }
        let ghost pb: int = if push_begin {
            1int
        } else {
            0int
        };
        let ghost pe: int = if push_end {
            1int
        } else {
            0int
        };
        let ghost mid_len: int = lo as int + pb + pe;
        let mut j: usize = hi;
        while j < n
            invariant
                hi <= j <= len,
                t@.len() == mid_len + (j as int - hi as int),
                forall|k: int| 0 <= k < lo ==> t@[k] == old_s[k],
                push_begin ==> t@[lo as int] == (begin_key, val),
                push_end ==> t@[lo as int + pb] == (end_key, carry_val),
                forall|k: int| hi <= k < j ==> t@[mid_len + (k - hi)] == old_s[k],
            decreases len - j,
        {
            let pair = self.table[j];
            t.push(pair);
            j += 1;
        }
        proof {
            assert(splice_shape(
                old_s,
                t@,
                begin_key,
                end_key,
                val,
                carry_val,
                lo as int,
                hi as int,
                push_begin,
                push_end,
            ));
            lemma_splice_wf(
                old_s,
                t@,
                begin_key,
                end_key,
                val,
                carry_val,
                lo as int,
                hi as int,
                push_begin,
                push_end,
            );
        }
        self.table = t;
        proof {
            assert forall|q: K|
                #[trigger] self.spec_get(q) == (if in_range(q, begin_key, end_key) {
                    val
                } else {
                    value_at(old_s, q)
                }) by {
                lemma_splice_value_at(
                    old_s,
                    self.table@,
                    begin_key,
                    end_key,
                    val,
                    carry_val,
                    lo as int,
                    hi as int,
                    push_begin,
                    push_end,
                    q,
                );
            }
        }
    }

    /// Point lookup: the value currently covering `key`. Total: every key
    /// is covered, either by an inserted range or by the initial value.
    pub fn get(&self, key: &K) -> (r: &V)
        ensures
            *r == self.spec_get(*key),
    {
        proof {
            use_type_invariant(&*self);
        }
        let idx = self.find_index(key);
        proof {
            lemma_value_at_floor(self.table@, *key, idx as int);
        }
        &self.table[idx].1
    }
}

/// The upper bound of a range write is never included: a call of
/// `insert` taking `before` to `after` leaves the value covering
/// `end_key` exactly as it was.
pub proof fn lemma_upper_bound_excluded<K: Min + Copy, V: ValEq + Copy>(
    before: IntervalMap<K, V>,
    after: IntervalMap<K, V>,
    begin_key: K,
    end_key: K,
    val: V,
)
    requires
        forall|q: K|
            #[trigger] after.spec_get(q) == (if in_range(q, begin_key, end_key) {
                val
            } else {
                before.spec_get(q)
            }),
    ensures
        after.spec_get(end_key) == before.spec_get(end_key),
{
    assert(!in_range(end_key, begin_key, end_key));
}

/// Writing an empty range — `end_key` at or below `begin_key` — leaves
/// every lookup unchanged, whatever the value written.
pub proof fn lemma_insert_empty_range_no_op<K: Min + Copy, V: ValEq + Copy>(
    before: IntervalMap<K, V>,
    after: IntervalMap<K, V>,
    begin_key: K,
    end_key: K,
    val: V,
)
    requires
        !key_lt(begin_key, end_key),
        forall|q: K|
            #[trigger] after.spec_get(q) == (if in_range(q, begin_key, end_key) {
                val
            } else {
                before.spec_get(q)
            }),
    ensures
        forall|q: K| #[trigger] after.spec_get(q) == before.spec_get(q),
{
    lemma_empty_range::<K>(begin_key, end_key);
}

/// Writing one range twice in succession yields the same mapping as
/// writing it once: the hypotheses are the contract of `insert` for a
/// first call taking `before` to `once` and a second call taking `once`
/// to `twice`, and the conclusion is that `twice` and `once` agree on
/// every key.
pub proof fn lemma_insert_idempotent<K: Min + Copy, V: ValEq + Copy>(
    before: IntervalMap<K, V>,
    once: IntervalMap<K, V>,
    twice: IntervalMap<K, V>,
    begin_key: K,
    end_key: K,
    val: V,
)
    requires
        forall|q: K|
            #[trigger] once.spec_get(q) == (if in_range(q, begin_key, end_key) {
                val
            } else {
                before.spec_get(q)
            }),
        forall|q: K|
            #[trigger] twice.spec_get(q) == (if in_range(q, begin_key, end_key) {
                val
            } else {
                once.spec_get(q)
            }),
    ensures
        forall|q: K| #[trigger] twice.spec_get(q) == once.spec_get(q),
{
}

/// A later range write fully overrides an earlier one on their overlap:
/// the hypotheses are the contract of `insert` for a first call taking
/// `before` to `mid` and a second call taking `mid` to `after`. A key in
/// the second range holds the second value, a key only in the first range
/// holds the first value, and a key in neither keeps the value it had before both writes.
pub proof fn lemma_later_insert_overrides<K: Min + Copy, V: ValEq + Copy>(
    before: IntervalMap<K, V>,
    mid: IntervalMap<K, V>,
    after: IntervalMap<K, V>,
    b1: K,
    e1: K,
    v1: V,
    b2: K,
    e2: K,
    v2: V,
)
    requires
        forall|q: K|
            #[trigger] mid.spec_get(q) == (if in_range(q, b1, e1) {
                v1
            } else {
                before.spec_get(q)
            }),
        forall|q: K|
            #[trigger] after.spec_get(q) == (if in_range(q, b2, e2) {
                v2
            } else {
                mid.spec_get(q)
            }),
    ensures
        forall|q: K| in_range(q, b2, e2) ==> #[trigger] after.spec_get(q) == v2,
        forall|q: K|
            !in_range(q, b2, e2) && in_range(q, b1, e1) ==> #[trigger] after.spec_get(q) == v1,
        forall|q: K|
            !in_range(q, b2, e2) && !in_range(q, b1, e1) ==> #[trigger] after.spec_get(q)
                == before.spec_get(q),
{
}

/// The value that a sequence of range writes assigns to `q`, on paper:
/// the value of the most recent write whose range contains `q`, or the
/// initial value when no write's range ever contained it.
pub open spec fn written_value<K: TotalOrder, V>(init: V, writes: Seq<(K, K, V)>, q: K) -> V
    decreases writes.len(),
{
    if writes.len() == 0 {
        init
    } else if in_range(q, writes.last().0, writes.last().1) {
        writes.last().2
    } else {
        written_value(init, writes.drop_last(), q)
    }
}

/// The override law in full generality: start from `new(init)` and apply
/// any sequence of range writes in order — `maps[0]` fresh, and each
/// `maps[t]` obtained from `maps[t - 1]` by the contract of `insert` for
/// the write `writes[t - 1]`. Then every lookup in the final map returns
/// the value of the most recent write containing the key, or `init`.
pub proof fn lemma_override_semantics<K: Min + Copy, V: ValEq + Copy>(
    maps: Seq<IntervalMap<K, V>>,
    init: V,
    writes: Seq<(K, K, V)>,
)
    requires
        maps.len() == writes.len() + 1,
        forall|q: K| #[trigger] maps[0].spec_get(q) == init,
        forall|t: int, q: K|
            1 <= t <= writes.len() ==> #[trigger] maps[t].spec_get(q) == (if in_range(
                q,
                writes[t - 1].0,
                writes[t - 1].1,
            ) {
                writes[t - 1].2
            } else {
                maps[t - 1].spec_get(q)
            }),
    ensures
        forall|q: K| #[trigger] maps.last().spec_get(q) == written_value(init, writes, q),
    decreases writes.len(),
{
    if writes.len() == 0 {
        assert(maps.last() == maps[0]);
    } else {
        let shorter = maps.drop_last();
        let earlier = writes.drop_last();
        assert forall|t: int, q: K| 1 <= t <= earlier.len() implies #[trigger] shorter[t].spec_get(
            q,
        ) == (if in_range(q, earlier[t - 1].0, earlier[t - 1].1) {
            earlier[t - 1].2
        } else {
            shorter[t - 1].spec_get(q)
        }) by {
            assert(shorter[t] == maps[t]);
            assert(shorter[t - 1] == maps[t - 1]);
            assert(earlier[t - 1] == writes[t - 1]);
            assert(maps[t].spec_get(q) == (if in_range(q, writes[t - 1].0, writes[t - 1].1) {
                writes[t - 1].2
            } else {
                maps[t - 1].spec_get(q)
            }));
        }
        lemma_override_semantics(shorter, init, earlier);
        let t = writes.len() as int;
        assert forall|q: K| #[trigger] maps.last().spec_get(q) == written_value(init, writes, q) by {
            assert(maps[t].spec_get(q) == (if in_range(q, writes[t - 1].0, writes[t - 1].1) {
                writes[t - 1].2
            } else {
                maps[t - 1].spec_get(q)
            }));
            assert(maps.last() == maps[t]);
            assert(shorter.last() == maps[t - 1]);
            assert(shorter.last().spec_get(q) == written_value(init, earlier, q));
            assert(writes.last() == writes[t - 1]);
        }
    }
}

/// `value_at` returns the value of the floor breakpoint: the breakpoint
/// at index `f` covers `q` when its key is at or below `q` and the next
/// breakpoint key (if any) is above `q`.
proof fn lemma_value_at_floor<K: TotalOrder, V>(s: Seq<(K, V)>, q: K, f: int)
    requires
        keys_sorted(s),
        0 <= f < s.len(),
        s[f].0.le(q),
        f == s.len() - 1 || key_lt(q, s[f + 1].0),
    ensures
        value_at(s, q) == s[f].1,
    decreases s.len(),
{
    if f == s.len() - 1 {
        assert(s.last().0.le(q));
    } else {
        if s.last().0.le(q) {
            if f + 1 < s.len() - 1 {
                assert(key_lt(s[f + 1].0, s[s.len() - 1].0));
                lemma_key_lt_le(s[f + 1].0, s.last().0, q);
                K::lemma_le_antisymmetric(q, s[f + 1].0);
            } else {
                K::lemma_le_antisymmetric(q, s.last().0);
            }
            assert(false);
        }
        let s2 = s.drop_last();
        assert forall|i: int, j: int| 0 <= i < j < s2.len() implies #[trigger] key_lt(
            s2[i].0,
            s2[j].0,
        ) by {
            assert(key_lt(s[i].0, s[j].0));
        }
        lemma_value_at_floor(s2, q, f);
    }
}

/// Every key has a floor breakpoint once the first breakpoint key is at
/// or below it; `value_at` returns that breakpoint's value.
proof fn lemma_floor_exists<K: TotalOrder, V>(s: Seq<(K, V)>, q: K) -> (f: int)
    requires
        keys_sorted(s),
        s.len() >= 1,
        s[0].0.le(q),
    ensures
        0 <= f < s.len(),
        s[f].0.le(q),
        f == s.len() - 1 || key_lt(q, s[f + 1].0),
        value_at(s, q) == s[f].1,
    decreases s.len(),
{
    if s.last().0.le(q) {
        s.len() - 1
    } else {
        lemma_not_key_lt(s.last().0, q);
        K::lemma_le_reflexive(q);
        assert(key_lt(q, s.last().0));
        assert(s.len() >= 2);
        let s2 = s.drop_last();
        assert forall|i: int, j: int| 0 <= i < j < s2.len() implies #[trigger] key_lt(
            s2[i].0,
            s2[j].0,
        ) by {
            assert(key_lt(s[i].0, s[j].0));
        }
        let f = lemma_floor_exists(s2, q);
        f
    }
}

} // verus!
