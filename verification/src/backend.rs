//! The in-memory store: a string map and a hash map, both association
//! lists with unique keys, viewed as maps of ghost frames.
use crate::frame::entry_views;
use crate::frame::frame_view;
use crate::frame::lemma_entry_views;
use crate::frame::FrameV;
use crate::frame::RespFrame;
use vstd::map::*;
use vstd::prelude::*;

verus! {

/// A field map entry sequence viewed as a map, later entries winning.
pub open spec fn entries_map(es: Seq<(Seq<char>, FrameV)>) -> Map<Seq<char>, FrameV>
    decreases es.len(),
{
    if es.len() == 0 {
        Map::empty()
    } else {
        entries_map(es.drop_last()).insert(es.last().0, es.last().1)
    }
}

/// Pairwise distinct keys.
pub open spec fn distinct_keys(es: Seq<(Seq<char>, FrameV)>) -> bool {
    forall|i: int, j: int| 0 <= i < j < es.len() ==> (#[trigger] es[i]).0 != (#[trigger] es[j]).0
}

/// Replaces the first entry with this key in place, or appends a new one.
pub open spec fn upsert_entry(es: Seq<(Seq<char>, FrameV)>, k: Seq<char>, v: FrameV) -> Seq<
    (Seq<char>, FrameV),
>
    decreases es.len(),
{
    if es.len() == 0 {
        seq![(k, v)]
    } else if es[0].0 == k {
        seq![(k, v)] + es.drop_first()
    } else {
        seq![es[0]] + upsert_entry(es.drop_first(), k, v)
    }
}

pub proof fn lemma_entries_map_index(es: Seq<(Seq<char>, FrameV)>, i: int)
    requires
        distinct_keys(es),
        0 <= i < es.len(),
    ensures
        entries_map(es).contains_key(es[i].0),
        entries_map(es)[es[i].0] == es[i].1,
    decreases es.len(),
{
    if i < es.len() - 1 {
        assert(distinct_keys(es.drop_last())) by {
            assert(forall|m: int|
                0 <= m < es.len() - 1 ==> es.drop_last()[m] == #[trigger] es[m]);
        }
        lemma_entries_map_index(es.drop_last(), i);
        assert(es[i].0 != es.last().0);
    }
}

pub proof fn lemma_entries_map_absent(es: Seq<(Seq<char>, FrameV)>, k: Seq<char>)
    requires
        forall|i: int| 0 <= i < es.len() ==> (#[trigger] es[i]).0 != k,
    ensures
        !entries_map(es).contains_key(k),
    decreases es.len(),
{
    if es.len() > 0 {
        assert(forall|i: int|
            0 <= i < es.len() - 1 ==> es.drop_last()[i] == #[trigger] es[i]);
        lemma_entries_map_absent(es.drop_last(), k);
    }
}

/// Updating in place at the unique position of `k` is the in-place upsert.
pub proof fn lemma_upsert_update(es: Seq<(Seq<char>, FrameV)>, k: Seq<char>, v: FrameV, j: int)
    requires
        distinct_keys(es),
        0 <= j < es.len(),
        es[j].0 == k,
    ensures
        upsert_entry(es, k, v) == es.update(j, (k, v)),
    decreases es.len(),
{
    if j == 0 {
        assert(upsert_entry(es, k, v) =~= es.update(0, (k, v)));
    } else {
        assert(es[0].0 != k);
        let d = es.drop_first();
        assert(distinct_keys(d)) by {
            assert(forall|m: int| 0 <= m < d.len() ==> d[m] == #[trigger] es[m + 1]);
        }
        assert(d[j - 1] == es[j]);
        lemma_upsert_update(d, k, v, j - 1);
        assert(upsert_entry(es, k, v) =~= es.update(j, (k, v))) by {
            assert(forall|m: int|
                0 <= m < d.len() ==> d.update(j - 1, (k, v))[m] == #[trigger] (seq![es[0]]
                    + d.update(j - 1, (k, v)))[m + 1]);
        }
    }
}

/// Appending a fresh key is the upsert.
pub proof fn lemma_upsert_append(es: Seq<(Seq<char>, FrameV)>, k: Seq<char>, v: FrameV)
    requires
        forall|i: int| 0 <= i < es.len() ==> (#[trigger] es[i]).0 != k,
    ensures
        upsert_entry(es, k, v) == es.push((k, v)),
    decreases es.len(),
{
    if es.len() == 0 {
        assert(upsert_entry(es, k, v) =~= es.push((k, v)));
    } else {
        let d = es.drop_first();
        assert(forall|m: int| 0 <= m < d.len() ==> d[m] == #[trigger] es[m + 1]);
        lemma_upsert_append(d, k, v);
        assert(upsert_entry(es, k, v) =~= es.push((k, v)));
    }
}

/// The upsert keeps keys distinct and maps to the inserted value.
pub proof fn lemma_upsert_entry_props(es: Seq<(Seq<char>, FrameV)>, k: Seq<char>, v: FrameV)
    requires
        distinct_keys(es),
    ensures
        distinct_keys(upsert_entry(es, k, v)),
        entries_map(upsert_entry(es, k, v)) == entries_map(es).insert(k, v),
    decreases es.len(),
{
    let r = upsert_entry(es, k, v);
    if exists|j: int| 0 <= j < es.len() && (#[trigger] es[j]).0 == k {
        let j = choose|j: int| 0 <= j < es.len() && (#[trigger] es[j]).0 == k;
        lemma_upsert_update(es, k, v, j);
        assert(distinct_keys(r)) by {
            assert(forall|m: int| 0 <= m < es.len() && m != j ==> r[m] == #[trigger] es[m]);
            assert(r[j].0 == k && k == es[j].0);
        }
        lemma_entries_map_update(es, j, (k, v));
    } else {
        assert(forall|i: int| 0 <= i < es.len() ==> (#[trigger] es[i]).0 != k);
        lemma_upsert_append(es, k, v);
        assert(distinct_keys(r)) by {
            assert(forall|m: int| 0 <= m < es.len() ==> r[m] == #[trigger] es[m]);
        }
        assert(r.drop_last() =~= es);
        assert(entries_map(r) == entries_map(es).insert(k, v));
    }
}

/// Updating one entry updates the map at that key.
pub proof fn lemma_entries_map_update(es: Seq<(Seq<char>, FrameV)>, j: int, p: (Seq<char>, FrameV))
    requires
        distinct_keys(es),
        0 <= j < es.len(),
        p.0 == es[j].0,
    ensures
        entries_map(es.update(j, p)) == entries_map(es).insert(p.0, p.1),
    decreases es.len(),
{
    let r = es.update(j, p);
    if j == es.len() - 1 {
        assert(r.drop_last() =~= es.drop_last());
        assert(r.last() == p);
        assert(entries_map(r) == entries_map(es.drop_last()).insert(p.0, p.1));
        assert(entries_map(es) == entries_map(es.drop_last()).insert(es.last().0, es.last().1));
        assert(entries_map(es.drop_last()).insert(es.last().0, es.last().1).insert(p.0, p.1)
            =~= entries_map(es.drop_last()).insert(p.0, p.1));
    } else {
        assert(distinct_keys(es.drop_last())) by {
            assert(forall|m: int|
                0 <= m < es.len() - 1 ==> es.drop_last()[m] == #[trigger] es[m]);
        }
        assert(r.drop_last() =~= es.drop_last().update(j, p));
        lemma_entries_map_update(es.drop_last(), j, p);
        assert(r.last() == es.last());
        assert(p.0 != es.last().0);
        assert(entries_map(es.drop_last()).insert(p.0, p.1).insert(es.last().0, es.last().1)
            =~= entries_map(es.drop_last()).insert(es.last().0, es.last().1).insert(p.0, p.1));
    }
}

/// The store itself: built once, handed to every connection by the caller.
pub struct Backend {
    strings: Vec<(String, RespFrame)>,
    hashes: Vec<(String, Vec<(String, RespFrame)>)>,
}

/// View of the hash table: key to its ordered field entries.
pub open spec fn hash_views(l: Seq<(String, Vec<(String, RespFrame)>)>) -> Seq<
    (Seq<char>, Seq<(Seq<char>, FrameV)>),
>
    decreases l,
{
    if l.len() == 0 {
        Seq::empty()
    } else {
        seq![(l[0].0@, entry_views(l[0].1@))] + hash_views(l.drop_first())
    }
}

pub proof fn lemma_hash_views(l: Seq<(String, Vec<(String, RespFrame)>)>)
    ensures
        hash_views(l).len() == l.len(),
        forall|i: int|
            0 <= i < l.len() ==> hash_views(l)[i] == (l[i].0@, entry_views(l[i].1@)),
    decreases l.len(),
{
    if l.len() > 0 {
        lemma_hash_views(l.drop_first());
    }
}

/// A map over hash entries, analogous to `entries_map`.
pub open spec fn hmap_of(es: Seq<(Seq<char>, Seq<(Seq<char>, FrameV)>)>) -> Map<
    Seq<char>,
    Seq<(Seq<char>, FrameV)>,
>
    decreases es.len(),
{
    if es.len() == 0 {
        Map::empty()
    } else {
        hmap_of(es.drop_last()).insert(es.last().0, es.last().1)
    }
}

pub open spec fn distinct_hash_keys(es: Seq<(Seq<char>, Seq<(Seq<char>, FrameV)>)>) -> bool {
    forall|i: int, j: int| 0 <= i < j < es.len() ==> (#[trigger] es[i]).0 != (#[trigger] es[j]).0
}

pub proof fn lemma_hmap_index(es: Seq<(Seq<char>, Seq<(Seq<char>, FrameV)>)>, i: int)
    requires
        distinct_hash_keys(es),
        0 <= i < es.len(),
    ensures
        hmap_of(es).contains_key(es[i].0),
        hmap_of(es)[es[i].0] == es[i].1,
    decreases es.len(),
{
    if i < es.len() - 1 {
        assert(distinct_hash_keys(es.drop_last())) by {
            assert(forall|m: int|
                0 <= m < es.len() - 1 ==> es.drop_last()[m] == #[trigger] es[m]);
        }
        lemma_hmap_index(es.drop_last(), i);
        assert(es[i].0 != es.last().0);
    }
}

pub proof fn lemma_hmap_absent(es: Seq<(Seq<char>, Seq<(Seq<char>, FrameV)>)>, k: Seq<char>)
    requires
        forall|i: int| 0 <= i < es.len() ==> (#[trigger] es[i]).0 != k,
    ensures
        !hmap_of(es).contains_key(k),
    decreases es.len(),
{
    if es.len() > 0 {
        assert(forall|i: int|
            0 <= i < es.len() - 1 ==> es.drop_last()[i] == #[trigger] es[i]);
        lemma_hmap_absent(es.drop_last(), k);
    }
}

pub proof fn lemma_hmap_update(
    es: Seq<(Seq<char>, Seq<(Seq<char>, FrameV)>)>,
    j: int,
    p: (Seq<char>, Seq<(Seq<char>, FrameV)>),
)
    requires
        distinct_hash_keys(es),
        0 <= j < es.len(),
        p.0 == es[j].0,
    ensures
        hmap_of(es.update(j, p)) == hmap_of(es).insert(p.0, p.1),
    decreases es.len(),
{
    let r = es.update(j, p);
    if j == es.len() - 1 {
        assert(r.drop_last() =~= es.drop_last());
        assert(r.last() == p);
        assert(hmap_of(es.drop_last()).insert(es.last().0, es.last().1).insert(p.0, p.1)
            =~= hmap_of(es.drop_last()).insert(p.0, p.1));
    } else {
        assert(distinct_hash_keys(es.drop_last())) by {
            assert(forall|m: int|
                0 <= m < es.len() - 1 ==> es.drop_last()[m] == #[trigger] es[m]);
        }
        assert(r.drop_last() =~= es.drop_last().update(j, p));
        lemma_hmap_update(es.drop_last(), j, p);
        assert(r.last() == es.last());
        assert(p.0 != es.last().0);
        assert(hmap_of(es.drop_last()).insert(p.0, p.1).insert(es.last().0, es.last().1)
            =~= hmap_of(es.drop_last()).insert(es.last().0, es.last().1).insert(p.0, p.1));
    }
}

pub proof fn lemma_hmap_push(
    es: Seq<(Seq<char>, Seq<(Seq<char>, FrameV)>)>,
    p: (Seq<char>, Seq<(Seq<char>, FrameV)>),
)
    ensures
        hmap_of(es.push(p)) == hmap_of(es).insert(p.0, p.1),
{
    assert(es.push(p).drop_last() =~= es);
}

impl Backend {
    /// Every key is held once, at both levels.
    pub closed spec fn wf(&self) -> bool {
        &&& distinct_keys(entry_views(self.strings@))
        &&& distinct_hash_keys(hash_views(self.hashes@))
        &&& forall|i: int|
            0 <= i < self.hashes@.len() ==> distinct_keys(
                entry_views((#[trigger] self.hashes@[i]).1@),
            )
    }

    /// The string store as a map.
    pub closed spec fn strings_view(&self) -> Map<Seq<char>, FrameV> {
        entries_map(entry_views(self.strings@))
    }

    /// The hash store as a map of ordered field entries.
    pub closed spec fn hashes_view(&self) -> Map<Seq<char>, Seq<(Seq<char>, FrameV)>> {
        hmap_of(hash_views(self.hashes@))
    }

    pub fn new() -> (r: Backend)
        ensures
            r.wf(),
            r.strings_view() == Map::<Seq<char>, FrameV>::empty(),
            r.hashes_view() == Map::<Seq<char>, Seq<(Seq<char>, FrameV)>>::empty(),
    {
        let b = Backend { strings: Vec::new(), hashes: Vec::new() };
        proof {
            assert(entry_views(b.strings@) =~= Seq::<(Seq<char>, FrameV)>::empty());
            assert(hash_views(b.hashes@) =~= Seq::<(Seq<char>, Seq<(Seq<char>, FrameV)>)>::empty());
        }
        b
    }

    /// Returns a copy of the stored frame, if any.
    pub fn get(&self, key: &String) -> (r: Option<RespFrame>)
        requires
            self.wf(),
        ensures
            match r {
                Some(v) => self.strings_view().contains_key(key@) && v@ == self.strings_view()[key@],
                None => !self.strings_view().contains_key(key@),
            },
    {
        proof {
            lemma_entry_views(self.strings@);
        }
        let mut i: usize = 0;
        while i < self.strings.len()
            invariant
                self.wf(),
                0 <= i <= self.strings@.len(),
                entry_views(self.strings@).len() == self.strings@.len(),
                forall|j: int|
                    0 <= j < self.strings@.len() ==> entry_views(self.strings@)[j] == ((
                    #[trigger] self.strings@[j]).0@, frame_view(self.strings@[j].1)),
                forall|j: int| 0 <= j < i ==> (#[trigger] self.strings@[j]).0@ != key@,
            decreases self.strings@.len() - i,
        {
            if self.strings[i].0 == *key {
                proof {
                    lemma_entries_map_index(entry_views(self.strings@), i as int);
                }
                return Some(self.strings[i].1.clone());
            }
            i += 1;
        }
        proof {
            lemma_entries_map_absent(entry_views(self.strings@), key@);
        }
        None
    }

    /// Stores a frame under a key, replacing any previous one.
    pub fn set(&mut self, key: String, value: RespFrame)
        requires
            old(self).wf(),
        ensures
            final(self).wf(),
            final(self).strings_view() == old(self).strings_view().insert(
                key@,
                frame_view(value),
            ),
            final(self).hashes_view() == old(self).hashes_view(),
    {
        proof {
            lemma_entry_views(self.strings@);
        }
        let ghost es0 = entry_views(self.strings@);
        let mut i: usize = 0;
        while i < self.strings.len()
            invariant
                self.wf(),
                self.strings@ == old(self).strings@,
                self.hashes@ == old(self).hashes@,
                es0 == entry_views(self.strings@),
                0 <= i <= self.strings@.len(),
                es0.len() == self.strings@.len(),
                forall|j: int|
                    0 <= j < self.strings@.len() ==> es0[j] == ((
                    #[trigger] self.strings@[j]).0@, frame_view(self.strings@[j].1)),
                forall|j: int| 0 <= j < i ==> (#[trigger] self.strings@[j]).0@ != key@,
            decreases self.strings@.len() - i,
        {
            if self.strings[i].0 == *(&key) {
                let ghost before = self.strings@;
                let slot = vstd::std_specs::vec::vec_index_mut(&mut self.strings, i);
                *slot = (key, value);
                proof {
                    lemma_entry_views(self.strings@);
                    assert(self.strings@ == before.update(i as int, self.strings@[i as int]));
                    assert(entry_views(self.strings@) =~= es0.update(
                        i as int,
                        (es0[i as int].0, frame_view(value)),
                    ));
                    lemma_entries_map_update(es0, i as int, (es0[i as int].0, frame_view(value)));
                    lemma_upsert_entry_props(es0, es0[i as int].0, frame_view(value));
                    assert(distinct_keys(entry_views(self.strings@)));
                }
                return ;
            }
            i += 1;
        }
        let ghost before = self.strings@;
        self.strings.push((key, value));
        proof {
            lemma_entry_views(self.strings@);
            assert(entry_views(self.strings@) =~= es0.push((key@, frame_view(value))));
            assert(entry_views(self.strings@).drop_last() =~= es0);
            lemma_entries_map_absent(es0, key@);
            assert(distinct_keys(entry_views(self.strings@))) by {
                assert(forall|m: int|
                    0 <= m < es0.len() ==> entry_views(self.strings@)[m] == #[trigger] es0[m]);
            }
        }
    }

    /// Returns a copy of the stored field frame, if any; a missing hash and
    /// a missing field are alike.
    pub fn hget(&self, key: &String, field: &String) -> (r: Option<RespFrame>)
        requires
            self.wf(),
        ensures
            match r {
                Some(v) => self.hashes_view().contains_key(key@) && entries_map(
                    self.hashes_view()[key@],
                ).contains_key(field@) && v@ == entries_map(self.hashes_view()[key@])[field@],
                None => !self.hashes_view().contains_key(key@) || !entries_map(
                    self.hashes_view()[key@],
                ).contains_key(field@),
            },
    {
        match self.hash_index(key) {
            Some(i) => {
                proof {
                    lemma_hash_views(self.hashes@);
                    lemma_hmap_index(hash_views(self.hashes@), i as int);
                    lemma_entry_views(self.hashes@[i as int].1@);
                }
                let inner = &self.hashes[i].1;
                let mut j: usize = 0;
                while j < inner.len()
                    invariant
                        self.wf(),
                        0 <= j <= inner@.len(),
                        inner == &self.hashes@[i as int].1,
                        0 <= i < self.hashes@.len(),
                        self.hashes_view().contains_key(key@),
                        self.hashes_view()[key@] == entry_views(inner@),
                        entry_views(inner@).len() == inner@.len(),
                        distinct_keys(entry_views(inner@)),
                        forall|m: int|
                            0 <= m < inner@.len() ==> entry_views(inner@)[m] == ((
                            #[trigger] inner@[m]).0@, frame_view(inner@[m].1)),
                        forall|m: int| 0 <= m < j ==> (#[trigger] inner@[m]).0@ != field@,
                    decreases inner@.len() - j,
                {
                    if inner[j].0 == *field {
                        proof {
                            lemma_entries_map_index(entry_views(inner@), j as int);
                        }
                        return Some(inner[j].1.clone());
                    }
                    j += 1;
                }
                proof {
                    lemma_entries_map_absent(entry_views(inner@), field@);
                }
                None
            },
            None => None,
        }
    }

    /// Index of a hash key, if present.
    fn hash_index(&self, key: &String) -> (r: Option<usize>)
        requires
            self.wf(),
        ensures
            match r {
                Some(i) => 0 <= i < self.hashes@.len() && self.hashes@[i as int].0@ == key@
                    && self.hashes_view().contains_key(key@) && self.hashes_view()[key@]
                    == entry_views(self.hashes@[i as int].1@),
                None => !self.hashes_view().contains_key(key@),
            },
    {
        proof {
            lemma_hash_views(self.hashes@);
        }
        let mut i: usize = 0;
        while i < self.hashes.len()
            invariant
                self.wf(),
                0 <= i <= self.hashes@.len(),
                hash_views(self.hashes@).len() == self.hashes@.len(),
                forall|j: int|
                    0 <= j < self.hashes@.len() ==> hash_views(self.hashes@)[j] == ((
                    #[trigger] self.hashes@[j]).0@, entry_views(self.hashes@[j].1@)),
                forall|j: int| 0 <= j < i ==> (#[trigger] self.hashes@[j]).0@ != key@,
            decreases self.hashes@.len() - i,
        {
            if self.hashes[i].0 == *key {
                proof {
                    lemma_hmap_index(hash_views(self.hashes@), i as int);
                }
                return Some(i);
            }
            i += 1;
        }
        proof {
            lemma_hmap_absent(hash_views(self.hashes@), key@);
        }
        None
    }

    /// Stores a field frame under a hash key, creating the hash if absent.
    pub fn hset(&mut self, key: String, field: String, value: RespFrame)
        requires
            old(self).wf(),
        ensures
            final(self).wf(),
            final(self).strings_view() == old(self).strings_view(),
            final(self).hashes_view() == old(self).hashes_view().insert(
                key@,
                upsert_entry(
                    if old(self).hashes_view().contains_key(key@) {
                        old(self).hashes_view()[key@]
                    } else {
                        Seq::empty()
                    },
                    field@,
                    frame_view(value),
                ),
            ),
    {
        let ghost hv0 = hash_views(self.hashes@);
        proof {
            lemma_hash_views(self.hashes@);
        }
        let idx = self.hash_index(&key);
        match idx {
            Some(i) => {
                let ghost es0 = entry_views(self.hashes@[i as int].1@);
                let mut pair = self.hashes.remove(i);
                proof {
                    assert(hash_views(self.hashes@) =~= hv0.remove(i as int)) by {
                        lemma_hash_views(self.hashes@);
                        assert(forall|m: int|
                            0 <= m < self.hashes@.len() ==> #[trigger] self.hashes@[m] == (
                            if m < i as int {
                                old(self).hashes@[m]
                            } else {
                                old(self).hashes@[m + 1]
                            }));
                    }
                }
                upsert_pair_list(&mut pair.1, field, value);
                self.hashes.push(pair);
                proof {
                    lemma_hash_views(old(self).hashes@);
                    lemma_hash_views(self.hashes@);
                    assert(hash_views(self.hashes@) =~= hv0.remove(i as int).push(
                        (key@, upsert_entry(es0, field@, frame_view(value))))) by {
                        assert(forall|m: int|
                            0 <= m < self.hashes@.len() - 1 ==> #[trigger] self.hashes@[m] == (
                            if m < i as int {
                                old(self).hashes@[m]
                            } else {
                                old(self).hashes@[m + 1]
                            }));
                    }
                    lemma_upsert_entry_props(es0, field@, frame_view(value));
                    lemma_hmap_remove_then_insert(hv0, i as int, upsert_entry(
                        es0,
                        field@,
                        frame_view(value),
                    ));
                }
            },
            None => {
                let mut inner: Vec<(String, RespFrame)> = Vec::new();
                inner.push((field, value));
                let ghost inner_view = entry_views(inner@);
                proof {
                    lemma_entry_views(inner@);
                    assert(inner_view =~= seq![(inner@[0].0@, frame_view(inner@[0].1))]);
                    assert(upsert_entry(Seq::empty(), field@, frame_view(value)) =~= inner_view);
                }
                self.hashes.push((key, inner));
                proof {
                    lemma_hash_views(old(self).hashes@);
                    lemma_hash_views(self.hashes@);
                    assert(hash_views(self.hashes@) =~= hv0.push((key@, inner_view))) by {
                        assert(forall|m: int|
                            0 <= m < self.hashes@.len() - 1 ==> #[trigger] self.hashes@[m]
                                == old(self).hashes@[m]);
                    }
                    lemma_hmap_push(hv0, (key@, inner_view));
                    assert(distinct_hash_keys(hv0.push((key@, inner_view)))) by {
                        assert forall|j: int| 0 <= j < hv0.len() implies (#[trigger] hv0[j]).0
                            != key@ by {
                            lemma_hmap_index(hv0, j);
                        }
                        assert(forall|m: int|
                            0 <= m < hv0.len() ==> hv0.push((key@, inner_view))[m]
                                == #[trigger] hv0[m]);
                    }
                    assert(distinct_keys(inner_view));
                }
            },
        }
    }

    /// A copy of a hash's entries in stored order, if the hash exists.
    pub fn hmap_snapshot(&self, key: &String) -> (r: Option<Vec<(String, RespFrame)>>)
        requires
            self.wf(),
        ensures
            match r {
                Some(v) => self.hashes_view().contains_key(key@) && entry_views(v@)
                    == self.hashes_view()[key@] && distinct_keys(entry_views(v@)),
                None => !self.hashes_view().contains_key(key@),
            },
    {
        match self.hash_index(key) {
            Some(i) => {
                proof {
                    lemma_hash_views(self.hashes@);
                }
                Some(crate::frame::clone_entry_list(&self.hashes[i].1))
            },
            None => None,
        }
    }
}

/// Replaces the first pair with this key, or appends a new one.
fn upsert_pair_list(v: &mut Vec<(String, RespFrame)>, field: String, value: RespFrame)
    requires
        distinct_keys(entry_views(old(v)@)),
    ensures
        entry_views(final(v)@) == upsert_entry(
            entry_views(old(v)@),
            field@,
            frame_view(value),
        ),
        distinct_keys(entry_views(final(v)@)),
{
    let ghost es0 = entry_views(v@);
    proof {
        lemma_entry_views(v@);
    }
    let mut i: usize = 0;
    while i < v.len()
        invariant
            distinct_keys(es0),
            v@ == old(v)@,
            es0 == entry_views(v@),
            0 <= i <= v@.len(),
            es0.len() == v@.len(),
            forall|j: int|
                0 <= j < v@.len() ==> es0[j] == ((#[trigger] v@[j]).0@, frame_view(v@[j].1)),
            forall|j: int| 0 <= j < i ==> (#[trigger] v@[j]).0@ != field@,
        decreases v@.len() - i,
    {
        if v[i].0 == *(&field) {
            let slot = vstd::std_specs::vec::vec_index_mut(v, i);
            *slot = (field, value);
            proof {
                lemma_entry_views(v@);
                assert(entry_views(v@) =~= es0.update(
                    i as int,
                    (es0[i as int].0, frame_view(value)),
                ));
                lemma_upsert_update(es0, es0[i as int].0, frame_view(value), i as int);
                lemma_upsert_entry_props(es0, es0[i as int].0, frame_view(value));
            }
            return ;
        }
        i += 1;
    }
    self_push(v, field, value);
    proof {
        lemma_entry_views(v@);
        assert(entry_views(v@) =~= es0.push((field@, frame_view(value))));
        lemma_upsert_append(es0, field@, frame_view(value));
        lemma_upsert_entry_props(es0, field@, frame_view(value));
    }
}

/// Push helper so the ghost bookkeeping above stays readable.
fn self_push(v: &mut Vec<(String, RespFrame)>, field: String, value: RespFrame)
    ensures
        final(v)@ == old(v)@.push((field, value)),
{
    v.push((field, value));
}

/// Removing a hash entry and pushing it back updated only moves it; as a
/// map, that is one insertion.
proof fn lemma_hmap_remove_then_insert(
    es: Seq<(Seq<char>, Seq<(Seq<char>, FrameV)>)>,
    i: int,
    newv: Seq<(Seq<char>, FrameV)>,
)
    requires
        distinct_hash_keys(es),
        0 <= i < es.len(),
    ensures
        hmap_of(es.remove(i).push((es[i].0, newv))) == hmap_of(es).insert(es[i].0, newv),
        distinct_hash_keys(es.remove(i).push((es[i].0, newv))),
{
    let k = es[i].0;
    let mid = es.remove(i);
    assert(mid.len() == es.len() - 1);
    assert(forall|m: int|
        0 <= m < mid.len() ==> #[trigger] mid[m] == (if m < i {
            es[m]
        } else {
            es[m + 1]
        }));
    assert(distinct_hash_keys(mid));
    lemma_hmap_push(mid, (k, newv));
    let whole = mid.push((k, newv));
    assert(distinct_hash_keys(whole)) by {
        assert(forall|m: int| 0 <= m < mid.len() ==> whole[m] == #[trigger] mid[m]);
        assert(whole[mid.len() as int].0 == k);
        assert forall|m: int| 0 <= m < mid.len() implies (#[trigger] mid[m]).0 != k by {
            if m < i {
                assert(mid[m] == es[m]);
            } else {
                assert(mid[m] == es[m + 1]);
            }
        }
    }
    let lhs = hmap_of(mid).insert(k, newv);
    let rhs = hmap_of(es).insert(k, newv);
    assert forall|kk: Seq<char>| #[trigger] lhs.contains_key(kk) implies rhs.contains_key(kk)
        && lhs[kk] == rhs[kk] by {
        if kk != k {
            assert(hmap_of(mid).contains_key(kk));
            if !(exists|m: int| 0 <= m < mid.len() && (#[trigger] mid[m]).0 == kk) {
                lemma_hmap_absent(mid, kk);
            }
            let m = choose|m: int| 0 <= m < mid.len() && (#[trigger] mid[m]).0 == kk;
            lemma_hmap_index(mid, m);
            if m < i {
                lemma_hmap_index(es, m);
            } else {
                lemma_hmap_index(es, m + 1);
            }
        }
    }
    assert forall|kk: Seq<char>| #[trigger] rhs.contains_key(kk) implies lhs.contains_key(kk) by {
        if kk != k {
            assert(hmap_of(es).contains_key(kk));
            if !(exists|m: int| 0 <= m < es.len() && (#[trigger] es[m]).0 == kk) {
                lemma_hmap_absent(es, kk);
            }
            let m = choose|m: int| 0 <= m < es.len() && (#[trigger] es[m]).0 == kk;
            lemma_hmap_index(es, m);
            assert(m != i);
            if m < i {
                assert(mid[m] == es[m]);
                lemma_hmap_index(mid, m);
            } else {
                assert(mid[m - 1] == es[m]);
                lemma_hmap_index(mid, m - 1);
            }
        }
    }
    assert(lhs =~~= rhs);
}

/// A well-formed store holds each hash's fields once.
pub proof fn lemma_wf_entries_distinct(b: &Backend, key: Seq<char>)
    requires
        b.wf(),
        b.hashes_view().contains_key(key),
    ensures
        distinct_keys(b.hashes_view()[key]),
{
    let hv = hash_views(b.hashes@);
    lemma_hash_views(b.hashes@);
    if !(exists|m: int| 0 <= m < hv.len() && (#[trigger] hv[m]).0 == key) {
        lemma_hmap_absent(hv, key);
    }
    let m = choose|m: int| 0 <= m < hv.len() && (#[trigger] hv[m]).0 == key;
    lemma_hmap_index(hv, m);
}

} // verus!
