//! The tile dashboard's layout: where tiles go in the grid, and the tile order the
//! user arranges by dragging.
pub mod drag;
pub mod grid;
pub mod tiles;

use vstd::prelude::*;

use self::grid::{clamp, clamp_span, ONE_CELL};

verus! {

/// Tile key -> `[columns, rows]` it spans in the grid, for the tiles the user has
/// resized; tiles not listed are one cell. No key occurs twice.
pub struct Spans {
    entries: Vec<(String, [u8; 2])>,
}

impl View for Spans {
    type V = Map<Seq<char>, [u8; 2]>;

    closed spec fn view(&self) -> Map<Seq<char>, [u8; 2]> {
        Map::new(
            |k: Seq<char>| exists|i: int| 0 <= i < self.entries@.len() && #[trigger] self.entries@[i].0@ == k,
            |k: Seq<char>|
                self.entries@[choose|i: int| 0 <= i < self.entries@.len() && #[trigger] self.entries@[i].0@ == k].1,
        )
    }
}

impl Spans {
    pub closed spec fn wf(&self) -> bool {
        forall|i: int, j: int|
            0 <= i < j < self.entries@.len() ==> #[trigger] self.entries@[i].0@ != #[trigger] self.entries@[j].0@
    }

    proof fn lemma_at(&self, i: int)
        requires
            self.wf(),
            0 <= i < self.entries@.len(),
        ensures
            self@.contains_key(self.entries@[i].0@),
            self@[self.entries@[i].0@] == self.entries@[i].1,
    {
        let k = self.entries@[i].0@;
        assert(exists|j: int| 0 <= j < self.entries@.len() && #[trigger] self.entries@[j].0@ == k);
        let j = choose|j: int| 0 <= j < self.entries@.len() && #[trigger] self.entries@[j].0@ == k;
        if i != j {
            if i < j {
                assert(self.entries@[i].0@ != self.entries@[j].0@);
            } else {
                assert(self.entries@[j].0@ != self.entries@[i].0@);
            }
        }
    }

    pub fn new() -> (s: Self)
        ensures
            s.wf(),
            s@ == Map::<Seq<char>, [u8; 2]>::empty(),
    {
        let s = Spans { entries: Vec::new() };
        assert(s@ =~= Map::<Seq<char>, [u8; 2]>::empty());
        s
    }

    fn find(&self, key: &str) -> (i: Option<usize>)
        requires
            self.wf(),
        ensures
            match i {
                Some(j) => j < self.entries@.len() && self.entries@[j as int].0@ == key@,
                None => !self@.contains_key(key@),
            },
    {
        let k = key.to_owned();
        let mut i: usize = 0;
        while i < self.entries.len()
            invariant
                i <= self.entries@.len(),
                k@ == key@,
                forall|j: int| 0 <= j < i ==> self.entries@[j].0@ != key@,
            decreases self.entries@.len() - i,
        {
            if self.entries[i].0 == k {
                return Some(i);
            }
            i = i + 1;
        }
        None
    }

    /// The saved span of `key`, if it has one.
    pub fn get(&self, key: &str) -> (v: Option<[u8; 2]>)
        requires
            self.wf(),
        ensures
            v == (if self@.contains_key(key@) { Some(self@[key@]) } else { None::<[u8; 2]> }),
    {
        match self.find(key) {
            Some(i) => {
                proof {
                    self.lemma_at(i as int);
                }
                Some(self.entries[i].1)
            },
            None => None,
        }
    }

    pub fn insert(&mut self, key: &str, v: [u8; 2])
        requires
            old(self).wf(),
        ensures
            final(self).wf(),
            final(self)@ == old(self)@.insert(key@, v),
    {
        let ghost before = self@;
        match self.find(key) {
            Some(i) => {
                let ghost old_entries = self.entries@;
                self.entries.set(i, (key.to_owned(), v));
                proof {
                    assert forall|k: Seq<char>| #[trigger] self@.contains_key(k) == before.insert(key@, v).contains_key(k) by {
                        if exists|j: int| 0 <= j < old_entries.len() && #[trigger] old_entries[j].0@ == k {
                            let j = choose|j: int| 0 <= j < old_entries.len() && #[trigger] old_entries[j].0@ == k;
                            assert(self.entries@[j].0@ == k);
                        }
                        if exists|j: int| 0 <= j < self.entries@.len() && #[trigger] self.entries@[j].0@ == k {
                            let j = choose|j: int| 0 <= j < self.entries@.len() && #[trigger] self.entries@[j].0@ == k;
                            assert(old_entries[j].0@ == k);
                        }
                    }
                    assert forall|k: Seq<char>| #[trigger] self@.contains_key(k) implies self@[k] == before.insert(key@, v)[k] by {
                        let j = choose|j: int| 0 <= j < self.entries@.len() && #[trigger] self.entries@[j].0@ == k;
                        self.lemma_at(j);
                        if j != i {
                            assert(old_entries[j] == self.entries@[j]);
                            assert(old_entries[j].0@ == k);
                            assert(old_entries[j].0@ != key@) by {
                                if j < i {
                                    assert(old_entries[j].0@ != old_entries[i as int].0@);
                                } else {
                                    assert(old_entries[i as int].0@ != old_entries[j].0@);
                                }
                            }
                            assert(before[k] == old_entries[j].1) by {
                                let jj = choose|jj: int| 0 <= jj < old_entries.len() && #[trigger] old_entries[jj].0@ == k;
                                if jj != j {
                                    if jj < j {
                                        assert(old_entries[jj].0@ != old_entries[j].0@);
                                    } else {
                                        assert(old_entries[j].0@ != old_entries[jj].0@);
                                    }
                                }
                            }
                        }
                    }
                    assert(self@ =~= before.insert(key@, v));
                }
            },
            None => {
                let ghost old_entries = self.entries@;
                self.entries.push((key.to_owned(), v));
                proof {
                    let n = old_entries.len() as int;
                    assert forall|j: int| 0 <= j < n implies old_entries[j].0@ != key@ by {
                        if old_entries[j].0@ == key@ {
                            assert(exists|jj: int| 0 <= jj < old_entries.len() && #[trigger] old_entries[jj].0@ == key@);
                        }
                    }
                    assert forall|k: Seq<char>| #[trigger] self@.contains_key(k) == before.insert(key@, v).contains_key(k) by {
                        if exists|j: int| 0 <= j < old_entries.len() && #[trigger] old_entries[j].0@ == k {
                            let j = choose|j: int| 0 <= j < old_entries.len() && #[trigger] old_entries[j].0@ == k;
                            assert(self.entries@[j].0@ == k);
                        }
                        if k == key@ {
                            assert(self.entries@[n].0@ == k);
                        }
                        if exists|j: int| 0 <= j < self.entries@.len() && #[trigger] self.entries@[j].0@ == k {
                            let j = choose|j: int| 0 <= j < self.entries@.len() && #[trigger] self.entries@[j].0@ == k;
                            if j < n {
                                assert(old_entries[j].0@ == k);
                            }
                        }
                    }
                    assert forall|k: Seq<char>| #[trigger] self@.contains_key(k) implies self@[k] == before.insert(key@, v)[k] by {
                        let j = choose|j: int| 0 <= j < self.entries@.len() && #[trigger] self.entries@[j].0@ == k;
                        self.lemma_at(j);
                        if j < n {
                            assert(old_entries[j].0@ == k);
                            assert(before[k] == old_entries[j].1) by {
                                let jj = choose|jj: int| 0 <= jj < old_entries.len() && #[trigger] old_entries[jj].0@ == k;
                                if jj != j {
                                    if jj < j {
                                        assert(old_entries[jj].0@ != old_entries[j].0@);
                                    } else {
                                        assert(old_entries[j].0@ != old_entries[jj].0@);
                                    }
                                }
                            }
                        }
                    }
                    assert(self@ =~= before.insert(key@, v));
                }
            },
        }
    }

    pub fn remove(&mut self, key: &str)
        requires
            old(self).wf(),
        ensures
            final(self).wf(),
            final(self)@ == old(self)@.remove(key@),
    {
        let ghost before = self@;
        match self.find(key) {
            None => {
                assert(self@ =~= before.remove(key@));
            },
            Some(i) => {
                let ghost old_entries = self.entries@;
                self.entries.remove(i);
                proof {
                    let e = self.entries@;
                    assert forall|j: int| 0 <= j < e.len() implies e[j] == old_entries[if j < i { j } else { j + 1 }] by {}
                    assert forall|a: int, b: int| 0 <= a < b < e.len() implies #[trigger] e[a].0@ != #[trigger] e[b].0@ by {
                        let oa = if a < i { a } else { a + 1 };
                        let ob = if b < i { b } else { b + 1 };
                        assert(old_entries[oa].0@ != old_entries[ob].0@);
                    }
                    assert forall|k: Seq<char>| #[trigger] self@.contains_key(k) == before.remove(key@).contains_key(k) by {
                        if exists|j: int| 0 <= j < e.len() && #[trigger] e[j].0@ == k {
                            let j = choose|j: int| 0 <= j < e.len() && #[trigger] e[j].0@ == k;
                            let oj = if j < i { j } else { j + 1 };
                            assert(old_entries[oj].0@ == k);
                            assert(k != key@) by {
                                if oj < i {
                                    assert(old_entries[oj].0@ != old_entries[i as int].0@);
                                } else {
                                    assert(old_entries[i as int].0@ != old_entries[oj].0@);
                                }
                            }
                        }
                        if k != key@ && exists|j: int| 0 <= j < old_entries.len() && #[trigger] old_entries[j].0@ == k {
                            let j = choose|j: int| 0 <= j < old_entries.len() && #[trigger] old_entries[j].0@ == k;
                            assert(j != i);
                            let nj = if j < i { j } else { j - 1 };
                            assert(e[nj].0@ == k);
                        }
                    }
                    assert forall|k: Seq<char>| #[trigger] self@.contains_key(k) implies self@[k] == before[k] by {
                        let j = choose|j: int| 0 <= j < e.len() && #[trigger] e[j].0@ == k;
                        self.lemma_at(j);
                        let oj = if j < i { j } else { j + 1 };
                        assert(old_entries[oj] == e[j]);
                        assert(before[k] == old_entries[oj].1) by {
                            let jj = choose|jj: int| 0 <= jj < old_entries.len() && #[trigger] old_entries[jj].0@ == k;
                            if jj != oj {
                                if jj < oj {
                                    assert(old_entries[jj].0@ != old_entries[oj].0@);
                                } else {
                                    assert(old_entries[oj].0@ != old_entries[jj].0@);
                                }
                            }
                        }
                    }
                    assert(self@ =~= before.remove(key@));
                }
            },
        }
    }

    /// Every `(key, span)`, each key once.
    pub fn entries(&self) -> (v: Vec<(String, [u8; 2])>)
        requires
            self.wf(),
        ensures
            v@.len() == self@.len(),
            forall|i: int| 0 <= i < v@.len() ==> self@.contains_key((#[trigger] v@[i]).0@) && self@[v@[i].0@] == v@[i].1,
            forall|i: int, j: int| 0 <= i < j < v@.len() ==> (#[trigger] v@[i]).0@ != (#[trigger] v@[j]).0@,
    {
        let mut v: Vec<(String, [u8; 2])> = Vec::new();
        let mut i: usize = 0;
        while i < self.entries.len()
            invariant
                self.wf(),
                i <= self.entries@.len(),
                v@.len() == i,
                forall|j: int| 0 <= j < i ==> #[trigger] v@[j] == self.entries@[j],
            decreases self.entries@.len() - i,
        {
            v.push((self.entries[i].0.clone(), self.entries[i].1));
            i = i + 1;
        }
        proof {
            assert forall|j: int| 0 <= j < v@.len() implies self@.contains_key((#[trigger] v@[j]).0@) && self@[v@[j].0@] == v@[j].1 by {
                self.lemma_at(j);
            }
            assert forall|a: int, b: int| 0 <= a < b < v@.len() implies (#[trigger] v@[a]).0@ != (#[trigger] v@[b]).0@ by {
                assert(v@[a] == self.entries@[a] && v@[b] == self.entries@[b]);
            }
            self.lemma_len();
        }
        v
    }

    proof fn lemma_len(&self)
        requires
            self.wf(),
        ensures
            self@.len() == self.entries@.len(),
    {
        let ks = self.entries@.map_values(|e: (String, [u8; 2])| e.0@);
        assert forall|a: int, b: int| 0 <= a < b < ks.len() implies ks[a] != ks[b] by {
            assert(self.entries@[a].0@ != self.entries@[b].0@);
        }
        assert(ks.no_duplicates());
        ks.unique_seq_to_set();
        assert(self@.dom() =~= ks.to_set()) by {
            assert forall|k: Seq<char>| self@.dom().contains(k) <==> ks.to_set().contains(k) by {
                if self@.dom().contains(k) {
                    let j = choose|j: int| 0 <= j < self.entries@.len() && #[trigger] self.entries@[j].0@ == k;
                    assert(ks[j] == k);
                }
                if ks.to_set().contains(k) {
                    let j = choose|j: int| 0 <= j < ks.len() && ks[j] == k;
                    assert(self.entries@[j].0@ == k);
                }
            }
        }
    }
}

/// The span a tile is drawn with: its saved span limited to what the grid supports,
/// or one cell.
pub open spec fn span_view(spans: Map<Seq<char>, [u8; 2]>, key: Seq<char>) -> (int, int) {
    if spans.contains_key(key) {
        (
            clamp(spans[key][0] as int, 1, grid::MAX_COLUMNS as int),
            clamp(spans[key][1] as int, 1, grid::MAX_ROWS as int),
        )
    } else {
        (1, 1)
    }
}

/// The saved spans after setting `key` to `span`: one cell is the default, so it is
/// not stored.
pub open spec fn stored(spans: Map<Seq<char>, [u8; 2]>, key: Seq<char>, span: [usize; 2]) -> Map<Seq<char>, [u8; 2]> {
    if span[0] == 1 && span[1] == 1 {
        spans.remove(key)
    } else {
        spans.insert(key, [span[0] as u8, span[1] as u8])
    }
}

pub fn span_of(spans: &Spans, key: &str) -> (s: [usize; 2])
    requires
        spans.wf(),
    ensures
        (s[0] as int, s[1] as int) == span_view(spans@, key@),
{
    match spans.get(key) {
        Some(saved) => clamp_span(saved),
        None => ONE_CELL,
    }
}

pub fn set_span(spans: &mut Spans, key: &str, span: [usize; 2])
    requires
        old(spans).wf(),
        span[0] <= 255,
        span[1] <= 255,
    ensures
        final(spans).wf(),
        final(spans)@ == stored(old(spans)@, key@, span),
{
    if span[0] == 1 && span[1] == 1 {
        spans.remove(key);
    } else {
        spans.insert(key, [span[0] as u8, span[1] as u8]);
    }
}

/// A span the grid supports reads back as it was set, and setting one tile's span
/// leaves every other tile's span as it was.
pub proof fn lemma_span_reads_back(
    spans: Map<Seq<char>, [u8; 2]>,
    key: Seq<char>,
    span: [usize; 2],
    other: Seq<char>,
)
    requires
        1 <= span[0] <= grid::MAX_COLUMNS,
        1 <= span[1] <= grid::MAX_ROWS,
        other != key,
    ensures
        span_view(stored(spans, key, span), key) == (span[0] as int, span[1] as int),
        span_view(stored(spans, key, span), other) == span_view(spans, other),
{
}

/// The texts of `v`, in order.
pub open spec fn keys(v: Seq<String>) -> Seq<Seq<char>> {
    v.map_values(|s: String| s@)
}

/// `s` without any entry equal to `k`.
pub open spec fn without(s: Seq<Seq<char>>, k: Seq<char>) -> Seq<Seq<char>>
    decreases s.len(),
{
    if s.len() == 0 {
        s
    } else if s.last() == k {
        without(s.drop_last(), k)
    } else {
        without(s.drop_last(), k).push(s.last())
    }
}

/// Index of the first entry of `s` equal to `k`, or -1.
pub open spec fn first_index(s: Seq<Seq<char>>, k: Seq<char>) -> int
    decreases s.len(),
{
    if s.len() == 0 {
        -1
    } else if s[0] == k {
        0
    } else if first_index(s.drop_first(), k) < 0 {
        -1
    } else {
        1 + first_index(s.drop_first(), k)
    }
}

/// The order after dropping `key` at `slot`, counted among the other tiles.
pub open spec fn dropped_at(order: Seq<Seq<char>>, key: Seq<char>, slot: int) -> Seq<Seq<char>> {
    let rest = without(order, key);
    rest.insert(if slot < rest.len() { slot } else { rest.len() as int }, key)
}

/// The entries of `order` still among `live` and not in `detached`, then each key of
/// `live` that is in neither the order nor `detached`, in `live`'s order.
pub open spec fn reconciled(order: Seq<Seq<char>>, detached: Seq<Seq<char>>, live: Seq<Seq<char>>) -> Seq<Seq<char>> {
    appended(kept(order, detached, live), detached, live)
}

pub open spec fn kept(order: Seq<Seq<char>>, detached: Seq<Seq<char>>, live: Seq<Seq<char>>) -> Seq<Seq<char>>
    decreases order.len(),
{
    if order.len() == 0 {
        order
    } else {
        let k = order.last();
        let rest = kept(order.drop_last(), detached, live);
        if live.contains(k) && !detached.contains(k) {
            rest.push(k)
        } else {
            rest
        }
    }
}

pub open spec fn appended(acc: Seq<Seq<char>>, detached: Seq<Seq<char>>, live: Seq<Seq<char>>) -> Seq<Seq<char>>
    decreases live.len(),
{
    if live.len() == 0 {
        acc
    } else {
        let k = live.last();
        let a = appended(acc, detached, live.drop_last());
        if !a.contains(k) && !detached.contains(k) {
            a.push(k)
        } else {
            a
        }
    }
}

/// The order after moving `from` into the slot `to` occupies.
pub open spec fn moved(order: Seq<Seq<char>>, from: Seq<char>, to: Seq<char>) -> Seq<Seq<char>> {
    let f = first_index(order, from);
    let t = first_index(order, to);
    if f < 0 || t < 0 || f == t {
        order
    } else {
        order.remove(f).insert(t, order[f])
    }
}

fn eq_at(order: &Vec<String>, i: usize, key: &String) -> (b: bool)
    requires
        i < order@.len(),
    ensures
        b == (order@[i as int]@ == key@),
{
    order[i] == *key
}

/// Puts `key` at `slot`, counted among the other tiles (as shown while it was lifted).
pub fn drop_at(order: &mut Vec<String>, key: &str, slot: usize)
    ensures
        keys(final(order)@) == dropped_at(keys(old(order)@), key@, slot as int),
{
    let k = key.to_owned();
    let mut rest: Vec<String> = Vec::new();
    let mut i: usize = 0;
    while i < order.len()
        invariant
            i <= order@.len(),
            k@ == key@,
            keys(rest@) == without(keys(order@.take(i as int)), key@),
        decreases order@.len() - i,
    {
        proof {
            assert(keys(order@.take(i + 1)).drop_last() =~= keys(order@.take(i as int)));
            assert(keys(order@.take(i + 1)).last() == order@[i as int]@);
        }
        if !eq_at(order, i, &k) {
            let ghost prev = rest@;
            rest.push(order[i].clone());
            proof {
                assert(keys(rest@) =~= keys(prev).push(order@[i as int]@));
            }
        }
        i = i + 1;
    }
    proof {
        assert(order@.take(i as int) =~= order@);
    }
    let at = if slot < rest.len() {
        slot
    } else {
        rest.len()
    };
    let ghost prev = rest@;
    rest.insert(at, k);
    proof {
        assert(keys(rest@) =~= keys(prev).insert(at as int, key@));
    }
    *order = rest;
}

/// Takes `key` out of the order (a tile popped out into a window of its own).
pub fn remove_key(order: &mut Vec<String>, key: &str)
    ensures
        keys(final(order)@) == without(keys(old(order)@), key@),
{
    let k = key.to_owned();
    let mut rest: Vec<String> = Vec::new();
    let mut i: usize = 0;
    while i < order.len()
        invariant
            i <= order@.len(),
            k@ == key@,
            keys(rest@) == without(keys(order@.take(i as int)), key@),
        decreases order@.len() - i,
    {
        proof {
            assert(keys(order@.take(i + 1)).drop_last() =~= keys(order@.take(i as int)));
            assert(keys(order@.take(i + 1)).last() == order@[i as int]@);
        }
        if !eq_at(order, i, &k) {
            let ghost prev = rest@;
            rest.push(order[i].clone());
            proof {
                assert(keys(rest@) =~= keys(prev).push(order@[i as int]@));
            }
        }
        i = i + 1;
    }
    proof {
        assert(order@.take(i as int) =~= order@);
    }
    *order = rest;
}

fn contains_key(v: &[String], k: &String) -> (b: bool)
    ensures
        b == keys(v@).contains(k@),
{
    let mut i: usize = 0;
    while i < v.len()
        invariant
            i <= v@.len(),
            forall|j: int| 0 <= j < i ==> v@[j]@ != k@,
        decreases v@.len() - i,
    {
        if v[i] == *k {
            proof {
                assert(keys(v@)[i as int] == k@);
            }
            return true;
        }
        i = i + 1;
    }
    proof {
        if keys(v@).contains(k@) {
            let j = choose|j: int| 0 <= j < keys(v@).len() && keys(v@)[j] == k@;
            assert(v@[j]@ == k@);
        }
    }
    false
}

/// Drops keys for tiles that no longer exist and appends any new, not-detached ones at
/// the end, keeping the rest of the user's saved order intact. `detached` holds the
/// keys of the tiles popped out into their own windows.
pub fn reconcile_order(order: &mut Vec<String>, detached: &[String], live: &[String])
    ensures
        keys(final(order)@) == reconciled(keys(old(order)@), keys(detached@), keys(live@)),
{
    let mut out: Vec<String> = Vec::new();
    let mut i: usize = 0;
    while i < order.len()
        invariant
            i <= order@.len(),
            keys(out@) == kept(keys(order@.take(i as int)), keys(detached@), keys(live@)),
        decreases order@.len() - i,
    {
        proof {
            assert(keys(order@.take(i + 1)).drop_last() =~= keys(order@.take(i as int)));
            assert(keys(order@.take(i + 1)).last() == order@[i as int]@);
        }
        if contains_key(live, &order[i]) && !contains_key(detached, &order[i]) {
            let ghost prev = out@;
            out.push(order[i].clone());
            proof {
                assert(keys(out@) =~= keys(prev).push(order@[i as int]@));
            }
        }
        i = i + 1;
    }
    proof {
        assert(order@.take(i as int) =~= order@);
    }
    let ghost base = keys(out@);
    let mut i: usize = 0;
    proof {
        assert(keys(live@.take(0)) =~= Seq::<Seq<char>>::empty());
    }
    while i < live.len()
        invariant
            i <= live@.len(),
            keys(out@) == appended(base, keys(detached@), keys(live@.take(i as int))),
        decreases live@.len() - i,
    {
        proof {
            assert(keys(live@.take(i + 1)).drop_last() =~= keys(live@.take(i as int)));
            assert(keys(live@.take(i + 1)).last() == live@[i as int]@);
        }
        if !contains_key(out.as_slice(), &live[i]) && !contains_key(detached, &live[i]) {
            let ghost prev = out@;
            out.push(live[i].clone());
            proof {
                assert(keys(out@) =~= keys(prev).push(live@[i as int]@));
            }
        }
        i = i + 1;
    }
    proof {
        assert(live@.take(i as int) =~= live@);
    }
    *order = out;
}

/// Puts a popped-out tile back into the grid: into the slot it was dropped on, else
/// `home` (where it was torn off from), else at the end.
pub fn return_to_grid(order: &mut Vec<String>, key: &str, slot: Option<usize>, home: Option<usize>)
    ensures
        keys(final(order)@) == dropped_at(
            keys(old(order)@),
            key@,
            match slot {
                Some(s) => s as int,
                None => match home {
                    Some(h) => h as int,
                    None => usize::MAX as int,
                },
            },
        ),
{
    let at = match slot {
        Some(s) => s,
        None => match home {
            Some(h) => h,
            None => usize::MAX,
        },
    };
    drop_at(order, key, at);
}

fn position(order: &Vec<String>, key: &String) -> (i: Option<usize>)
    ensures
        match i {
            Some(j) => first_index(keys(order@), key@) == j as int,
            None => first_index(keys(order@), key@) == -1,
        },
{
    let ghost ks = keys(order@);
    let mut i: usize = 0;
    proof {
        assert(ks.skip(0) =~= ks);
    }
    while i < order.len()
        invariant
            i <= order@.len(),
            ks == keys(order@),
            forall|j: int| 0 <= j < i ==> ks[j] != key@,
            first_index(ks, key@) == if first_index(ks.skip(i as int), key@) < 0 {
                -1
            } else {
                i + first_index(ks.skip(i as int), key@)
            },
        decreases order@.len() - i,
    {
        if order[i] == *key {
            return Some(i);
        }
        proof {
            assert(ks.skip(i as int).drop_first() =~= ks.skip(i + 1));
        }
        i = i + 1;
    }
    None
}

/// Moves `from` into the slot `to` currently occupies; the tiles in between shift one
/// step toward `from`'s old slot (a plain swap when they're neighbours).
pub fn move_in_order(order: &mut Vec<String>, from: &str, to: &str)
    ensures
        keys(final(order)@) == moved(keys(old(order)@), from@, to@),
{
    let f = from.to_owned();
    let t = to.to_owned();
    let fi = position(order, &f);
    let ti = position(order, &t);
    match (fi, ti) {
        (Some(fi), Some(ti)) => {
            if fi != ti {
                let ghost before = order@;
                proof {
                    lemma_first_index(keys(before), from@);
                    lemma_first_index(keys(before), to@);
                }
                let item = order.remove(fi);
                order.insert(ti, item);
                proof {
                    assert(keys(order@) =~= keys(before).remove(fi as int).insert(
                        ti as int,
                        keys(before)[fi as int],
                    ));
                }
            }
        },
        _ => {},
    }
}

proof fn lemma_contains_last(s: Seq<Seq<char>>, x: Seq<char>)
    requires
        s.len() > 0,
    ensures
        s.contains(x) <==> s.drop_last().contains(x) || x == s.last(),
{
    if s.contains(x) && x != s.last() {
        let j = choose|j: int| 0 <= j < s.len() && s[j] == x;
        assert(j != s.len() - 1);
        assert(s.drop_last()[j] == x);
    }
    if s.drop_last().contains(x) {
        let j = choose|j: int| 0 <= j < s.drop_last().len() && s.drop_last()[j] == x;
        assert(s[j] == x);
    }
    if x == s.last() {
        assert(s[s.len() - 1] == x);
    }
}

proof fn lemma_without(s: Seq<Seq<char>>, k: Seq<char>)
    ensures
        !without(s, k).contains(k),
        without(s, k).len() <= s.len(),
        forall|x: Seq<char>| x != k ==> (without(s, k).contains(x) <==> s.contains(x)),
    decreases s.len(),
{
    if s.len() > 0 {
        lemma_without(s.drop_last(), k);
        let w = without(s.drop_last(), k);
        assert forall|x: Seq<char>| x != k implies (without(s, k).contains(x) <==> s.contains(x)) by {
            lemma_contains_last(s, x);
            if s.last() != k {
                lemma_contains_last(w.push(s.last()), x);
                assert(w.push(s.last()).drop_last() =~= w);
            }
        }
        if s.last() != k {
            lemma_contains_last(w.push(s.last()), k);
            assert(w.push(s.last()).drop_last() =~= w);
        }
    }
}

/// Dropping a tile leaves it in the order exactly once, at the slot asked for (or the
/// end), with the other tiles in their order as before.
pub proof fn lemma_drop_at_places_the_tile_once(order: Seq<Seq<char>>, key: Seq<char>, slot: int)
    requires
        0 <= slot,
    ensures
        ({
            let r = dropped_at(order, key, slot);
            let n = without(order, key).len();
            &&& r.len() == n + 1
            &&& without(r, key) == without(order, key)
            &&& r[if slot < n { slot } else { n as int }] == key
            &&& forall|i: int| 0 <= i < r.len() && r[i] == key ==> i == (if slot < n { slot } else { n as int })
            &&& forall|x: Seq<char>| #[trigger] r.contains(x) <==> x == key || order.contains(x)
        }),
{
    let rest = without(order, key);
    let n = rest.len();
    let at: int = if slot < n { slot } else { n as int };
    let r = dropped_at(order, key, slot);
    lemma_without(order, key);
    lemma_without_of_insert(rest, key, at);
    assert forall|i: int| 0 <= i < r.len() && r[i] == key implies i == at by {
        if i < at {
            assert(r[i] == rest[i]);
        } else if i > at {
            assert(r[i] == rest[i - 1]);
        }
    }
    assert forall|x: Seq<char>| #[trigger] r.contains(x) <==> x == key || order.contains(x) by {
        if x == key {
            assert(r[at] == key);
        } else {
            if r.contains(x) {
                let i = choose|i: int| 0 <= i < r.len() && r[i] == x;
                if i < at {
                    assert(rest[i] == x);
                } else {
                    assert(rest[i - 1] == x);
                }
            }
            if rest.contains(x) {
                let i = choose|i: int| 0 <= i < rest.len() && rest[i] == x;
                if i < at {
                    assert(r[i] == x);
                } else {
                    assert(r[i + 1] == x);
                }
            }
        }
    }
}

proof fn lemma_without_of_insert(rest: Seq<Seq<char>>, key: Seq<char>, at: int)
    requires
        !rest.contains(key),
        0 <= at <= rest.len(),
    ensures
        without(rest.insert(at, key), key) == rest,
    decreases rest.len(),
{
    let r = rest.insert(at, key);
    if at == rest.len() {
        assert(r.drop_last() =~= rest);
        lemma_without_absent(rest, key);
    } else {
        assert(r.drop_last() =~= rest.drop_last().insert(at, key));
        assert(!rest.drop_last().contains(key)) by {
            if rest.drop_last().contains(key) {
                let j = choose|j: int| 0 <= j < rest.drop_last().len() && rest.drop_last()[j] == key;
                assert(rest[j] == key);
            }
        }
        lemma_without_of_insert(rest.drop_last(), key, at);
        assert(r.last() == rest.last());
        assert(rest.last() != key) by {
            assert(rest[rest.len() - 1] == rest.last());
        }
        assert(rest.drop_last().push(rest.last()) =~= rest);
    }
}

proof fn lemma_without_absent(s: Seq<Seq<char>>, k: Seq<char>)
    requires
        !s.contains(k),
    ensures
        without(s, k) == s,
    decreases s.len(),
{
    if s.len() > 0 {
        assert(!s.drop_last().contains(k)) by {
            if s.drop_last().contains(k) {
                let j = choose|j: int| 0 <= j < s.drop_last().len() && s.drop_last()[j] == k;
                assert(s[j] == k);
            }
        }
        lemma_without_absent(s.drop_last(), k);
        assert(s.last() != k) by {
            assert(s[s.len() - 1] == s.last());
        }
        assert(s.drop_last().push(s.last()) =~= s);
    }
}

/// After reconciling, the grid holds exactly the tiles that exist and are not popped
/// out.
pub proof fn lemma_reconciled_members(
    order: Seq<Seq<char>>,
    detached: Seq<Seq<char>>,
    live: Seq<Seq<char>>,
    k: Seq<char>,
)
    ensures
        reconciled(order, detached, live).contains(k) <==> live.contains(k) && !detached.contains(k),
{
    lemma_kept_members(order, detached, live, k);
    lemma_appended_members(kept(order, detached, live), detached, live, k);
}

proof fn lemma_kept_members(order: Seq<Seq<char>>, detached: Seq<Seq<char>>, live: Seq<Seq<char>>, k: Seq<char>)
    ensures
        kept(order, detached, live).contains(k) ==> live.contains(k) && !detached.contains(k),
    decreases order.len(),
{
    if order.len() > 0 {
        lemma_kept_members(order.drop_last(), detached, live, k);
        let rest = kept(order.drop_last(), detached, live);
        if kept(order, detached, live).contains(k) {
            let j = choose|j: int| 0 <= j < kept(order, detached, live).len() && kept(order, detached, live)[j] == k;
            if j < rest.len() {
                assert(rest[j] == k);
            }
        }
    }
}

proof fn lemma_appended_members(acc: Seq<Seq<char>>, detached: Seq<Seq<char>>, live: Seq<Seq<char>>, k: Seq<char>)
    ensures
        appended(acc, detached, live).contains(k) <==> acc.contains(k) || (live.contains(k)
            && !detached.contains(k)),
    decreases live.len(),
{
    if live.len() > 0 {
        lemma_appended_members(acc, detached, live.drop_last(), k);
        let a = appended(acc, detached, live.drop_last());
        let r = appended(acc, detached, live);
        if r.contains(k) {
            let j = choose|j: int| 0 <= j < r.len() && r[j] == k;
            if j < a.len() {
                assert(a[j] == k);
            } else {
                assert(live[live.len() - 1] == k);
            }
        }
        if a.contains(k) {
            let j = choose|j: int| 0 <= j < a.len() && a[j] == k;
            assert(r[j] == k);
        }
        if live.contains(k) && !detached.contains(k) {
            let j = choose|j: int| 0 <= j < live.len() && live[j] == k;
            if j < live.len() - 1 {
                assert(live.drop_last()[j] == k);
            } else if !a.contains(k) {
                assert(r[r.len() - 1] == k);
            }
        }
    }
}

/// Reconciling never lists a tile twice, when the saved order did not.
pub proof fn lemma_reconciled_has_no_repeats(
    order: Seq<Seq<char>>,
    detached: Seq<Seq<char>>,
    live: Seq<Seq<char>>,
)
    requires
        order.no_duplicates(),
    ensures
        reconciled(order, detached, live).no_duplicates(),
{
    lemma_kept_no_repeats(order, detached, live);
    lemma_appended_no_repeats(kept(order, detached, live), detached, live);
}

proof fn lemma_kept_within(order: Seq<Seq<char>>, detached: Seq<Seq<char>>, live: Seq<Seq<char>>, k: Seq<char>)
    ensures
        kept(order, detached, live).contains(k) ==> order.contains(k),
    decreases order.len(),
{
    if order.len() > 0 {
        lemma_kept_within(order.drop_last(), detached, live, k);
        let rest = kept(order.drop_last(), detached, live);
        let r = kept(order, detached, live);
        if r.contains(k) {
            let j = choose|j: int| 0 <= j < r.len() && r[j] == k;
            if j < rest.len() {
                assert(rest[j] == k);
                let m = choose|m: int| 0 <= m < order.drop_last().len() && order.drop_last()[m] == k;
                assert(order[m] == k);
            } else {
                assert(order[order.len() - 1] == k);
            }
        }
    }
}

proof fn lemma_kept_no_repeats(order: Seq<Seq<char>>, detached: Seq<Seq<char>>, live: Seq<Seq<char>>)
    requires
        order.no_duplicates(),
    ensures
        kept(order, detached, live).no_duplicates(),
    decreases order.len(),
{
    if order.len() > 0 {
        let front = order.drop_last();
        assert(front.no_duplicates()) by {
            assert forall|a: int, b: int| 0 <= a < front.len() && 0 <= b < front.len() && a != b implies front[a]
                != front[b] by {
                assert(front[a] == order[a] && front[b] == order[b]);
            }
        }
        lemma_kept_no_repeats(front, detached, live);
        let k = order.last();
        lemma_kept_within(front, detached, live, k);
        if front.contains(k) {
            let m = choose|m: int| 0 <= m < front.len() && front[m] == k;
            assert(order[m] == order[order.len() - 1]);
        }
    }
}

proof fn lemma_appended_no_repeats(acc: Seq<Seq<char>>, detached: Seq<Seq<char>>, live: Seq<Seq<char>>)
    requires
        acc.no_duplicates(),
    ensures
        appended(acc, detached, live).no_duplicates(),
    decreases live.len(),
{
    if live.len() > 0 {
        lemma_appended_no_repeats(acc, detached, live.drop_last());
    }
}

/// The layout is sound: the grid order holds each tile once, and no popped-out tile is
/// also in it.
pub open spec fn layout_ok(order: Seq<Seq<char>>, detached: Set<Seq<char>>) -> bool {
    &&& order.no_duplicates()
    &&& forall|k: Seq<char>| #[trigger] order.contains(k) ==> !detached.contains(k)
}

pub proof fn lemma_without_no_repeats(s: Seq<Seq<char>>, k: Seq<char>)
    requires
        s.no_duplicates(),
    ensures
        without(s, k).no_duplicates(),
    decreases s.len(),
{
    if s.len() > 0 {
        let front = s.drop_last();
        assert(front.no_duplicates()) by {
            assert forall|a: int, b: int| 0 <= a < front.len() && 0 <= b < front.len() && a != b implies front[a]
                != front[b] by {
                assert(front[a] == s[a] && front[b] == s[b]);
            }
        }
        lemma_without_no_repeats(front, k);
        lemma_without(front, k);
        let x = s.last();
        if front.contains(x) {
            let m = choose|m: int| 0 <= m < front.len() && front[m] == x;
            assert(s[m] == s[s.len() - 1]);
        }
    }
}

/// A tile dropped into a sound order is in it once, and the others stay once each.
pub proof fn lemma_dropped_no_repeats(order: Seq<Seq<char>>, key: Seq<char>, slot: int)
    requires
        order.no_duplicates(),
        0 <= slot,
    ensures
        dropped_at(order, key, slot).no_duplicates(),
        forall|x: Seq<char>| #[trigger] dropped_at(order, key, slot).contains(x) <==> x == key || order.contains(x),
{
    let rest = without(order, key);
    lemma_without_no_repeats(order, key);
    lemma_without(order, key);
    lemma_drop_at_places_the_tile_once(order, key, slot);
    let at: int = if slot < rest.len() { slot } else { rest.len() as int };
    let r = dropped_at(order, key, slot);
    assert forall|a: int, b: int| 0 <= a < r.len() && 0 <= b < r.len() && a != b implies r[a] != r[b] by {
        if r[a] == key || r[b] == key {
        } else {
            let ia = if a < at { a } else { a - 1 };
            let ib = if b < at { b } else { b - 1 };
            assert(r[a] == rest[ia]);
            assert(r[b] == rest[ib]);
        }
    }
}

/// Reconciling gives a sound layout: each tile once, and none that is popped out.
pub proof fn lemma_reconciled_layout(order: Seq<Seq<char>>, detached: Seq<Seq<char>>, live: Seq<Seq<char>>)
    requires
        order.no_duplicates(),
    ensures
        layout_ok(reconciled(order, detached, live), detached.to_set()),
{
    lemma_reconciled_has_no_repeats(order, detached, live);
    assert forall|k: Seq<char>| #[trigger] reconciled(order, detached, live).contains(k) implies !detached.to_set().contains(k) by {
        lemma_reconciled_members(order, detached, live, k);
    }
}

/// Bringing a popped-out tile back into the grid keeps the layout sound.
pub proof fn lemma_return_keeps_the_layout(order: Seq<Seq<char>>, detached: Set<Seq<char>>, key: Seq<char>, slot: int)
    requires
        layout_ok(order, detached),
        0 <= slot,
    ensures
        layout_ok(dropped_at(order, key, slot), detached.remove(key)),
{
    lemma_dropped_no_repeats(order, key, slot);
}

/// Moving a tile only rearranges the order, and puts `from` where `to` was.
pub proof fn lemma_moved_is_a_rearrangement(order: Seq<Seq<char>>, from: Seq<char>, to: Seq<char>)
    ensures
        moved(order, from, to).to_multiset() == order.to_multiset(),
        first_index(order, from) >= 0 && first_index(order, to) >= 0 ==> moved(order, from, to)[first_index(order, to)] == from,
{
    lemma_first_index(order, from);
    lemma_first_index(order, to);
    let f = first_index(order, from);
    let t = first_index(order, to);
    if f >= 0 && t >= 0 && f != t {
        let x = order[f];
        let rem = order.remove(f);
        vstd::seq_lib::to_multiset_remove(order, f);
        vstd::seq_lib::to_multiset_insert(rem, t, x);
        broadcast use vstd::multiset::group_multiset_axioms;
        assert(order.to_multiset().remove(x).insert(x) =~= order.to_multiset()) by {
            vstd::seq_lib::to_multiset_contains(order, x);
        }
    }
}

proof fn lemma_first_index(s: Seq<Seq<char>>, k: Seq<char>)
    ensures
        -1 <= first_index(s, k) < s.len(),
        first_index(s, k) >= 0 ==> s[first_index(s, k)] == k,
    decreases s.len(),
{
    if s.len() > 0 {
        lemma_first_index(s.drop_first(), k);
    }
}

} // verus!
