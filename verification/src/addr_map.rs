use vstd::prelude::*;

verus! {

/// An ordered mapping from instruction address to some value, kept as a
/// plain sorted vector. Intervals are implicit: an entry's validity
/// extends from its own address up to the next entry's address.
#[derive(Debug)]
pub struct AddrMap<V> {
    entries: Vec<(u32, V)>,
}

/// Keys are strictly increasing.
pub open spec fn wf_entries<V>(s: Seq<(u32, V)>) -> bool {
    forall|i: int, j: int| 0 <= i < j < s.len() ==> s[i].0 < s[j].0
}

/// The first index whose key is at least `key`, or the length when all
/// keys are smaller.
pub open spec fn spec_lb<V>(s: Seq<(u32, V)>, key: u32) -> int
    decreases s.len(),
{
    if s.len() == 0 {
        0
    } else if s[0].0 < key {
        1 + spec_lb(s.drop_first(), key)
    } else {
        0
    }
}

/// The entries after writing `v` at `key`: an existing entry at `key`
/// is overwritten, otherwise a new entry is placed in key order.
pub open spec fn spec_upsert<V>(s: Seq<(u32, V)>, key: u32, v: V) -> Seq<(u32, V)>
    decreases s.len(),
{
    if s.len() == 0 {
        seq![(key, v)]
    } else if s.last().0 < key {
        s.push((key, v))
    } else if s.last().0 == key {
        s.update(s.len() - 1, (key, v))
    } else {
        spec_upsert(s.drop_last(), key, v).push(s.last())
    }
}

/// The entries after inserting `v` at `key` only if no entry with that
/// key exists yet; an occupied key leaves the entries unchanged.
pub open spec fn spec_insert_if_vacant<V>(s: Seq<(u32, V)>, key: u32, v: V) -> Seq<(u32, V)>
    decreases s.len(),
{
    if s.len() == 0 {
        seq![(key, v)]
    } else if s.last().0 < key {
        s.push((key, v))
    } else if s.last().0 == key {
        s
    } else {
        spec_insert_if_vacant(s.drop_last(), key, v).push(s.last())
    }
}

/// The index of the entry with the greatest key at most `addr`, or -1
/// when every key is greater.
pub open spec fn spec_floor_idx<V>(s: Seq<(u32, V)>, addr: u32) -> int
    decreases s.len(),
{
    if s.len() == 0 {
        -1
    } else if s.last().0 <= addr {
        s.len() - 1
    } else {
        spec_floor_idx(s.drop_last(), addr)
    }
}

/// `spec_lb` returns the position of the first key reaching `key`.
pub proof fn lemma_spec_lb_props<V>(s: Seq<(u32, V)>, key: u32)
    ensures
        0 <= spec_lb(s, key) <= s.len(),
        forall|j: int| 0 <= j < spec_lb(s, key) ==> s[j].0 < key,
        spec_lb(s, key) < s.len() ==> s[spec_lb(s, key)].0 >= key,
    decreases s.len(),
{
    if s.len() > 0 && s[0].0 < key {
        lemma_spec_lb_props(s.drop_first(), key);
        assert forall|j: int| 0 <= j < spec_lb(s, key) implies s[j].0 < key by {
            if j > 0 {
                assert(s.drop_first()[j - 1] == s[j]);
            }
        }
        if spec_lb(s, key) < s.len() {
            assert(s.drop_first()[spec_lb(s, key) - 1] == s[spec_lb(s, key)]);
        }
    }
}

/// `spec_floor_idx` returns the position of the last key not past
/// `addr`.
pub proof fn lemma_spec_floor_idx_props<V>(s: Seq<(u32, V)>, addr: u32)
    ensures
        -1 <= spec_floor_idx(s, addr) < s.len(),
        spec_floor_idx(s, addr) == -1 ==> forall|j: int| 0 <= j < s.len() ==> s[j].0 > addr,
        spec_floor_idx(s, addr) >= 0 ==> s[spec_floor_idx(s, addr)].0 <= addr,
        spec_floor_idx(s, addr) >= 0 ==> forall|j: int|
            spec_floor_idx(s, addr) < j < s.len() ==> s[j].0 > addr,
    decreases s.len(),
{
    if s.len() > 0 && !(s.last().0 <= addr) {
        lemma_spec_floor_idx_props(s.drop_last(), addr);
        assert(forall|j: int| 0 <= j < s.len() - 1 ==> s.drop_last()[j] == s[j]);
    }
}

/// An upsert at a position computed by `spec_lb` matches `spec_upsert`.
pub proof fn lemma_upsert_at<V>(s: Seq<(u32, V)>, key: u32, v: V, i: int)
    requires
        wf_entries(s),
        0 <= i <= s.len(),
        forall|j: int| 0 <= j < i ==> s[j].0 < key,
        i < s.len() ==> s[i].0 >= key,
    ensures
        spec_upsert(s, key, v) == if i < s.len() && s[i].0 == key {
            s.update(i, (key, v))
        } else {
            s.insert(i, (key, v))
        },
    decreases s.len(),
{
    if s.len() == 0 {
        assert(spec_upsert(s, key, v) =~= s.insert(0, (key, v)));
    } else if s.last().0 < key {
        // all keys are below `key`, so i == s.len()
        assert(i == s.len());
        assert(spec_upsert(s, key, v) =~= s.insert(i, (key, v)));
    } else if s.last().0 == key {
        assert(i == s.len() - 1);
    } else {
        assert(i < s.len());
        let d = s.drop_last();
        lemma_upsert_at(d, key, v, i);
        if i < d.len() && d[i].0 == key {
            assert(spec_upsert(s, key, v) =~= s.update(i, (key, v)));
        } else {
            assert(spec_upsert(s, key, v) =~= s.insert(i, (key, v)));
        }
    }
}

/// An insert-if-vacant at a position computed by `spec_lb` matches
/// `spec_insert_if_vacant`.
pub proof fn lemma_insert_if_vacant_at<V>(s: Seq<(u32, V)>, key: u32, v: V, i: int)
    requires
        wf_entries(s),
        0 <= i <= s.len(),
        forall|j: int| 0 <= j < i ==> s[j].0 < key,
        i < s.len() ==> s[i].0 >= key,
    ensures
        spec_insert_if_vacant(s, key, v) == if i < s.len() && s[i].0 == key {
            s
        } else {
            s.insert(i, (key, v))
        },
    decreases s.len(),
{
    if s.len() == 0 {
        assert(spec_insert_if_vacant(s, key, v) =~= s.insert(0, (key, v)));
    } else if s.last().0 < key {
        assert(i == s.len());
        assert(spec_insert_if_vacant(s, key, v) =~= s.insert(i, (key, v)));
    } else if s.last().0 == key {
        assert(i == s.len() - 1);
    } else {
        assert(i < s.len());
        let d = s.drop_last();
        lemma_insert_if_vacant_at(d, key, v, i);
        if i < d.len() && d[i].0 == key {
            assert(spec_insert_if_vacant(s, key, v) =~= s);
        } else {
            assert(spec_insert_if_vacant(s, key, v) =~= s.insert(i, (key, v)));
        }
    }
}

/// Writing a value preserves strictly increasing keys.
pub proof fn lemma_upsert_wf<V>(s: Seq<(u32, V)>, key: u32, v: V)
    requires
        wf_entries(s),
    ensures
        wf_entries(spec_upsert(s, key, v)),
{
    lemma_spec_lb_props(s, key);
    let i = spec_lb(s, key);
    lemma_upsert_at(s, key, v, i);
    if i < s.len() && s[i].0 == key {
        assert(wf_entries(s.update(i, (key, v))));
    } else {
        let t = s.insert(i, (key, v));
        assert forall|p: int, q: int| 0 <= p < q < t.len() implies t[p].0 < t[q].0 by {
            if p < i && q == i {
                assert(t[p] == s[p]);
            } else if p == i && q > i {
                assert(t[q] == s[q - 1]);
                assert(s[q - 1].0 >= key);
                if q - 1 == i {
                    assert(s[i].0 != key);
                } else {
                    assert(s[i].0 < s[q - 1].0);
                }
            } else if p < i && q < i {
                assert(t[p] == s[p] && t[q] == s[q]);
            } else if p > i && q > i {
                assert(t[p] == s[p - 1] && t[q] == s[q - 1]);
            } else if p < i && q > i {
                assert(t[p] == s[p] && t[q] == s[q - 1]);
            }
        }
    }
}

/// Conditional insertion preserves strictly increasing keys.
pub proof fn lemma_insert_if_vacant_wf<V>(s: Seq<(u32, V)>, key: u32, v: V)
    requires
        wf_entries(s),
    ensures
        wf_entries(spec_insert_if_vacant(s, key, v)),
{
    lemma_spec_lb_props(s, key);
    let i = spec_lb(s, key);
    lemma_insert_if_vacant_at(s, key, v, i);
    if !(i < s.len() && s[i].0 == key) {
        let t = s.insert(i, (key, v));
        assert forall|p: int, q: int| 0 <= p < q < t.len() implies t[p].0 < t[q].0 by {
            if p < i && q == i {
                assert(t[p] == s[p]);
            } else if p == i && q > i {
                assert(t[q] == s[q - 1]);
                if q - 1 == i {
                    assert(s[i].0 != key);
                } else {
                    assert(s[i].0 < s[q - 1].0);
                }
            } else if p < i && q < i {
                assert(t[p] == s[p] && t[q] == s[q]);
            } else if p > i && q > i {
                assert(t[p] == s[p - 1] && t[q] == s[q - 1]);
            } else if p < i && q > i {
                assert(t[p] == s[p] && t[q] == s[q - 1]);
            }
        }
    }
}

/// The half-open slice `[spec_lb(begin), spec_lb(end))` holds exactly
/// the entries whose key lies in `[begin, end)`: the boundary rule of
/// the range-splitting primitive. In particular an entry at `end`
/// itself is excluded, and when no key reaches `end` the slice extends
/// to the last entry.
pub proof fn lemma_sub_range_keys<V>(s: Seq<(u32, V)>, begin: u32, end: u32)
    requires
        wf_entries(s),
    ensures
        forall|i: int| 0 <= i < s.len() ==>
            ((spec_lb(s, begin) <= i < spec_lb(s, end)) <==> (begin <= #[trigger] s[i].0 < end)),
{
    let lo = spec_lb(s, begin);
    let hi = spec_lb(s, end);
    lemma_spec_lb_props(s, begin);
    lemma_spec_lb_props(s, end);
    assert forall|i: int| 0 <= i < s.len() && lo <= i < hi implies begin <= #[trigger] s[i].0 < end by {
        if i > lo {
            assert(s[lo].0 < s[i].0);
        }
    }
    assert forall|i: int| 0 <= i < s.len() && begin <= #[trigger] s[i].0 < end implies lo <= i < hi by {
        if i >= hi {
            if hi < s.len() && i > hi {
                assert(s[hi].0 < s[i].0);
            }
        }
    }
}

impl<V> View for AddrMap<V> {
    type V = Seq<(u32, V)>;

    closed spec fn view(&self) -> Seq<(u32, V)> {
        self.entries@
    }
}

impl<V> AddrMap<V> {
    /// An empty map.
    pub fn new() -> (r: AddrMap<V>)
        ensures
            r@ == Seq::<(u32, V)>::empty(),
    {
        AddrMap { entries: Vec::new() }
    }

    /// Number of entries.
    pub fn len(&self) -> (r: usize)
        ensures
            r == self@.len(),
    {
        self.entries.len()
    }

    /// The address of the entry at position `i`.
    pub fn key_at(&self, i: usize) -> (r: u32)
        requires
            i < self@.len(),
        ensures
            r == self@[i as int].0,
    {
        self.entries[i].0
    }

    /// The value of the entry at position `i`.
    pub fn value_at(&self, i: usize) -> (r: &V)
        requires
            i < self@.len(),
        ensures
            *r == self@[i as int].1,
    {
        &self.entries[i].1
    }

    /// Replaces the value of the entry at position `i`, leaving its
    /// address unchanged.
    pub fn set_value_at(&mut self, i: usize, v: V)
        requires
            i < old(self)@.len(),
        ensures
            final(self)@ == old(self)@.update(i as int, (old(self)@[i as int].0, v)),
    {
        let k = self.entries[i].0;
        self.entries[i] = (k, v);
    }

    /// The position of the first entry whose address is at least `key`.
    pub fn lower_bound(&self, key: u32) -> (r: usize)
        requires
            wf_entries(self@),
        ensures
            r == spec_lb(self@, key),
    {
        let mut lo: usize = 0;
        let mut hi: usize = self.entries.len();
        while lo < hi
            invariant
                0 <= lo <= hi <= self@.len(),
                wf_entries(self@),
                forall|j: int| 0 <= j < lo ==> self@[j].0 < key,
                forall|j: int| hi <= j < self@.len() ==> self@[j].0 >= key,
            decreases hi - lo,
        {
            let mid = lo + (hi - lo) / 2;
            if self.entries[mid].0 < key {
                assert forall|j: int| 0 <= j < mid + 1 implies self@[j].0 < key by {
                    if j < mid {
                        assert(self@[j].0 < self@[mid as int].0);
                    }
                }
                lo = mid + 1;
            } else {
                assert forall|j: int| mid <= j < self@.len() implies self@[j].0 >= key by {
                    if j > mid {
                        assert(self@[mid as int].0 < self@[j].0);
                    }
                }
                hi = mid;
            }
        }
        proof {
            lemma_spec_lb_props(self@, key);
            let l = spec_lb(self@, key);
            if l < lo {
                assert(self@[l].0 < key);
            }
            if lo < l {
                assert(self@[lo as int].0 < key);
            }
        }
        lo
    }

    /// Writes `v` at `key`: overwrites an entry already at that exact
    /// address, otherwise inserts a new entry in address order.
    pub fn upsert(&mut self, key: u32, v: V)
        requires
            wf_entries(old(self)@),
        ensures
            final(self)@ == spec_upsert(old(self)@, key, v),
            wf_entries(final(self)@),
    {
        proof {
            lemma_spec_lb_props(self@, key);
            lemma_upsert_at(self@, key, v, spec_lb(self@, key));
            lemma_upsert_wf(self@, key, v);
        }
        let i = self.lower_bound(key);
        if i < self.entries.len() && self.entries[i].0 == key {
            self.entries[i] = (key, v);
            assert(final(self)@ =~= spec_upsert(old(self)@, key, v));
        } else {
            self.entries.insert(i, (key, v));
        }
    }

    /// Inserts `v` at `key` only when that address is still vacant; an
    /// occupied address is left untouched.
    pub fn insert_if_vacant(&mut self, key: u32, v: V)
        requires
            wf_entries(old(self)@),
        ensures
            final(self)@ == spec_insert_if_vacant(old(self)@, key, v),
            wf_entries(final(self)@),
    {
        proof {
            lemma_spec_lb_props(self@, key);
            lemma_insert_if_vacant_at(self@, key, v, spec_lb(self@, key));
            lemma_insert_if_vacant_wf(self@, key, v);
        }
        let i = self.lower_bound(key);
        if i < self.entries.len() && self.entries[i].0 == key {
            // occupied: drop the new value
        } else {
            self.entries.insert(i, (key, v));
        }
    }

    /// The range-splitting primitive: the positions `[lo, hi)` of the
    /// entries covered by the half-open address range `[begin, end)`.
    /// The upper position is that of the first entry at address >=
    /// `end`, so an entry exactly at `end` falls outside while entries
    /// straddling `end` from below fall inside; when no entry reaches
    /// `end` the slice runs to the last entry.
    pub fn sub_range(&self, begin: u32, end: u32) -> (r: (usize, usize))
        requires
            wf_entries(self@),
        ensures
            r.0 == spec_lb(self@, begin),
            r.1 == spec_lb(self@, end),
            r.0 <= self@.len(),
            r.1 <= self@.len(),
    {
        proof {
            lemma_spec_lb_props(self@, begin);
            lemma_spec_lb_props(self@, end);
        }
        (self.lower_bound(begin), self.lower_bound(end))
    }

    /// The entry with the greatest address at most `addr`, if any.
    pub fn floor(&self, addr: u32) -> (r: Option<&V>)
        requires
            wf_entries(self@),
        ensures
            ({
                let fi = spec_floor_idx(self@, addr);
                match r {
                    None => fi == -1,
                    Some(v) => fi >= 0 && *v == self@[fi].1,
                }
            }),
    {
        proof {
            lemma_spec_lb_props(self@, addr);
            lemma_spec_floor_idx_props(self@, addr);
        }
        let i = self.lower_bound(addr);
        let ghost fi = spec_floor_idx(self@, addr);
        if i < self.entries.len() && self.entries[i].0 == addr {
            proof {
                if fi < i {
                    assert(self@[i as int].0 > addr);
                } else if fi > i {
                    assert(self@[i as int].0 < self@[fi].0);
                }
            }
            Some(&self.entries[i].1)
        } else if i > 0 {
            proof {
                assert(self@[i - 1].0 <= addr);
                if fi < i - 1 {
                    assert(self@[i - 1].0 > addr);
                }
                if fi > i - 1 {
                    if fi == i {
                        assert(self@[fi].0 >= addr);
                        assert(self@[fi].0 <= addr);
                    } else {
                        assert(self@[i as int].0 < self@[fi].0);
                        assert(self@[fi].0 >= addr + 1);
                    }
                }
            }
            Some(&self.entries[i - 1].1)
        } else {
            proof {
                if fi >= 0 {
                    assert(self@[fi].0 >= self@[0].0);
                    if fi > 0 {
                        assert(self@[0].0 < self@[fi].0);
                    }
                }
            }
            None
        }
    }
}

} // verus!
