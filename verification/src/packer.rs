//! The encoder: walks a JSON value, memoises scalars in a bounded circular
//! dictionary, and emits the compact wire form with a sequence id.
//!
//! Every payload is emitted elementwise. Collapsing a whole small object to
//! a single index on repetition would compress further, but the decoder
//! never stores anything for a payload made of backreferences alone, so the
//! two dictionaries would fall out of step; this encoder does not do it.

use crate::text::int_text;
use crate::text::needs_escape;
use crate::text::needs_escape_str;
use crate::text::print_i64;
use crate::text::split_lines;
use crate::text::split_to_lines;
use crate::text::tilde_prefixed;
use crate::value::JVal;
use crate::value::JsonValue;
use crate::value::lemma_model_elems;
use crate::value::lemma_model_entries;
use crate::value::model_elems;
use crate::value::model_entries;
use vstd::map::*;
use vstd::prelude::*;

verus! {

/// The first dictionary slot; `0`, `1` and `2` are the structural type tags.
pub const MIN_DICT_INDEX: u64 = 3;

/// Options recognised by a single `pack` call.
pub struct PackOptions {
    /// How many levels of nested string-valued fields are opened for
    /// line-splitting; negative disables it.
    pub pack_string_depth: i32,
    /// When true, omit the envelope and sequence id.
    pub no_sequence_id: bool,
}

impl PackOptions {
    pub fn new() -> (r: PackOptions)
        ensures
            r.pack_string_depth == -1,
            !r.no_sequence_id,
    {
        PackOptions { pack_string_depth: -1, no_sequence_id: false }
    }
}

/// What one dictionary slot remembers: the lookup key and the literal text.
#[derive(Debug)]
pub struct MemoObject {
    pub key: String,
    pub value: String,
}

/// The encoder's whole state, mathematically: the forward map from lookup
/// keys to slots, the slot table, the next slot to fill, the sequence
/// counter, and the dictionary bound.
pub struct PackState {
    pub fwd: Map<Seq<char>, int>,
    pub slots: Map<int, (Seq<char>, Seq<char>)>,
    pub idx: int,
    pub sequence_id: int,
    pub max_dict_size: int,
}

/// A slot number the dictionary bound `m` can reach: the first slot is
/// always usable (the pointer parks there even when the bound is zero),
/// every other slot must lie below `3 + m`.
pub open spec fn in_slot_range(i: int, m: int) -> bool {
    i == 3 || (3 <= i && i < 3 + m)
}

impl PackState {
    /// The two maps are inverse views of the same slot table, and the slot
    /// pointer and every slot number stay inside the slot range, so every
    /// backreference the encoder can emit lies in `[3, 3 + max_dict_size)`.
    pub open spec fn wf(self) -> bool {
        &&& 0 <= self.max_dict_size <= i64::MAX - 3
        &&& in_slot_range(self.idx, self.max_dict_size)
        &&& -1 <= self.sequence_id <= i64::MAX
        &&& forall|k: Seq<char>| #[trigger]
            self.fwd.contains_key(k) ==> self.slots.contains_key(self.fwd[k])
                && self.slots[self.fwd[k]].0 == k
        &&& forall|i: int| #[trigger]
            self.slots.contains_key(i) ==> in_slot_range(i, self.max_dict_size)
                && self.fwd.contains_key(self.slots[i].0) && self.fwd[self.slots[i].0] == i
    }

    /// Changing the dictionary bound: slots the new bound cannot reach are
    /// forgotten, and a pointer stranded beyond the new range is rewound to
    /// the first slot. With the bound set before any packing — as the
    /// protocol intends — nothing is forgotten and nothing moves.
    pub open spec fn set_bound(self, m: int) -> PackState {
        PackState {
            fwd: Map::new(
                |k: Seq<char>| self.fwd.contains_key(k) && in_slot_range(self.fwd[k], m),
                |k: Seq<char>| self.fwd[k],
            ),
            slots: Map::new(
                |i: int| self.slots.contains_key(i) && in_slot_range(i, m),
                |i: int| self.slots[i],
            ),
            idx: if in_slot_range(self.idx, m) {
                self.idx
            } else {
                3
            },
            max_dict_size: m,
            ..self
        }
    }

    /// Filling the slot under the pointer: whatever lived there loses its
    /// forward entry, the new key and literal take the slot, and the pointer
    /// advances, wrapping back to the first slot at the end of the range.
    pub open spec fn dict_insert(self, key: Seq<char>, lit: Seq<char>) -> PackState {
        let fwd1 = if self.slots.contains_key(self.idx) {
            self.fwd.remove(self.slots[self.idx].0)
        } else {
            self.fwd
        };
        PackState {
            fwd: fwd1.insert(key, self.idx),
            slots: self.slots.insert(self.idx, (key, lit)),
            idx: if self.idx + 1 >= 3 + self.max_dict_size {
                3
            } else {
                self.idx + 1
            },
            ..self
        }
    }
}

pub proof fn lemma_dict_insert_wf(st: PackState, key: Seq<char>, lit: Seq<char>)
    requires
        st.wf(),
        !st.fwd.contains_key(key),
    ensures
        st.dict_insert(key, lit).wf(),
{
    let st2 = st.dict_insert(key, lit);
    assert forall|k: Seq<char>| #[trigger] st2.fwd.contains_key(k) implies st2.slots.contains_key(
        st2.fwd[k],
    ) && st2.slots[st2.fwd[k]].0 == k by {
        if k != key {
            assert(st.fwd.contains_key(k));
            assert(st.fwd[k] != st.idx) by {
                if st.slots.contains_key(st.idx) {
                    if st.fwd[k] == st.idx {
                        assert(st.slots[st.idx].0 == k);
                    }
                }
            }
        }
    }
}

/// Restricting to a new bound preserves well-formedness.
pub proof fn lemma_set_bound_wf(st: PackState, m: int)
    requires
        st.wf(),
        0 <= m <= i64::MAX - 3,
    ensures
        st.set_bound(m).wf(),
{
}

/// The encoder. Keeps one slot table; the forward map and the slot map of
/// the specification are both read off it.
#[derive(Debug)]
pub struct Packer {
    memoised: Vec<(u64, MemoObject)>,
    memoised_index: u64,
    sequence_id: i64,
    max_dict_size: u64,
}

/// A `pack` call in this encoder never fails; the type records the cause
/// for the callers that look at one.
#[derive(Debug, Clone)]
pub struct PackerError {
    cause: String,
}

impl PackerError {
    /// The cause, as the contracts speak of it.
    pub closed spec fn cause_view(&self) -> Seq<char> {
        self.cause@
    }

    /// What went wrong, in words.
    pub fn cause_text(&self) -> (r: String)
        ensures
            r@ == self.cause_view(),
    {
        self.cause.clone()
    }
}

/// The forward map read off the slot table: each entry's key points at its
/// slot.
pub open spec fn fwd_of(entries: Seq<(u64, MemoObject)>) -> Map<Seq<char>, int>
    decreases entries.len(),
{
    if entries.len() == 0 {
        Map::empty()
    } else {
        fwd_of(entries.drop_last()).insert(entries.last().1.key@, entries.last().0 as int)
    }
}

/// The slot map read off the slot table: each slot holds its key and its
/// literal.
pub open spec fn slots_of(entries: Seq<(u64, MemoObject)>) -> Map<int, (Seq<char>, Seq<char>)>
    decreases entries.len(),
{
    if entries.len() == 0 {
        Map::empty()
    } else {
        slots_of(entries.drop_last()).insert(
            entries.last().0 as int,
            (entries.last().1.key@, entries.last().1.value@),
        )
    }
}

/// No two entries share a slot, and no two entries share a key.
pub open spec fn entries_distinct(entries: Seq<(u64, MemoObject)>) -> bool {
    forall|i: int, j: int|
        0 <= i < j < entries.len() ==> (#[trigger] entries[i]).0 != (#[trigger] entries[j]).0
            && entries[i].1.key@ != entries[j].1.key@
}

/// With distinct entries, the forward map holds exactly the keys of the
/// table, each at its own slot, and the slot map exactly the slots.
pub proof fn lemma_entry_maps(entries: Seq<(u64, MemoObject)>)
    requires
        entries_distinct(entries),
    ensures
        forall|k: Seq<char>| #[trigger]
            fwd_of(entries).contains_key(k) <==> exists|i: int|
                0 <= i < entries.len() && (#[trigger] entries[i]).1.key@ == k,
        forall|i: int|
            0 <= i < entries.len() ==> fwd_of(entries).contains_key(
                (#[trigger] entries[i]).1.key@,
            ) && fwd_of(entries)[entries[i].1.key@] == entries[i].0 as int,
        forall|s: int| #[trigger]
            slots_of(entries).contains_key(s) <==> exists|i: int|
                0 <= i < entries.len() && (#[trigger] entries[i]).0 as int == s,
        forall|i: int|
            0 <= i < entries.len() ==> slots_of(entries).contains_key(
                (#[trigger] entries[i]).0 as int,
            ) && slots_of(entries)[entries[i].0 as int] == (
                entries[i].1.key@,
                entries[i].1.value@,
            ),
    decreases entries.len(),
{
    if entries.len() > 0 {
        let pre = entries.drop_last();
        let n = entries.len() - 1;
        assert(entries_distinct(pre));
        lemma_entry_maps(pre);
        assert(forall|i: int| 0 <= i < n ==> pre[i] == #[trigger] entries[i]);
        assert(entries.last() == entries[n]);
        assert forall|k: Seq<char>| #[trigger] fwd_of(entries).contains_key(k) implies exists|i: int|
            0 <= i < entries.len() && (#[trigger] entries[i]).1.key@ == k by {
            if k == entries[n].1.key@ {
                assert(entries[n].1.key@ == k);
            } else {
                assert(fwd_of(pre).contains_key(k));
                let i = choose|i: int| 0 <= i < pre.len() && (#[trigger] pre[i]).1.key@ == k;
                assert(entries[i].1.key@ == k);
            }
        }
        assert forall|s: int| #[trigger] slots_of(entries).contains_key(s) implies exists|i: int|
            0 <= i < entries.len() && (#[trigger] entries[i]).0 as int == s by {
            if s == entries[n].0 as int {
                assert(entries[n].0 as int == s);
            } else {
                assert(slots_of(pre).contains_key(s));
                let i = choose|i: int| 0 <= i < pre.len() && (#[trigger] pre[i]).0 as int == s;
                assert(entries[i].0 as int == s);
            }
        }
    }
}

impl View for Packer {
    type V = PackState;

    closed spec fn view(&self) -> PackState {
        PackState {
            fwd: fwd_of(self.memoised@),
            slots: slots_of(self.memoised@),
            idx: self.memoised_index as int,
            sequence_id: self.sequence_id as int,
            max_dict_size: self.max_dict_size as int,
        }
    }
}

impl Packer {
    /// The slot table never repeats a slot or a key, and the state it
    /// denotes is well-formed.
    pub closed spec fn inv(self) -> bool {
        entries_distinct(self.memoised@) && self@.wf()
    }

    /// A fresh encoder: empty dictionary, slot pointer at the first slot,
    /// sequence counter one before the first message, default bound.
    pub fn new() -> (r: Packer)
        ensures
            r.inv(),
            r@.fwd == Map::<Seq<char>, int>::empty(),
            r@.slots == Map::<int, (Seq<char>, Seq<char>)>::empty(),
            r@.idx == 3,
            r@.sequence_id == -1,
            r@.max_dict_size == 2000,
    {
        Packer {
            memoised: Vec::new(),
            memoised_index: MIN_DICT_INDEX,
            sequence_id: -1,
            max_dict_size: 2000,
        }
    }

    /// Forget every memoised value and restart the sequence; the next
    /// message will carry id `0` and resynchronise a listening decoder.
    pub fn reset(&mut self)
        requires
            old(self).inv(),
        ensures
            final(self).inv(),
            final(self)@ == (PackState {
                fwd: Map::<Seq<char>, int>::empty(),
                slots: Map::<int, (Seq<char>, Seq<char>)>::empty(),
                idx: 3,
                sequence_id: -1,
                max_dict_size: old(self)@.max_dict_size,
            }),
    {
        self.memoised = Vec::new();
        self.memoised_index = MIN_DICT_INDEX;
        self.sequence_id = -1;
    }

    /// Set the dictionary bound. It must match the decoder's, and it is
    /// meant to be set before any packing; set later, it forgets the slots
    /// the new bound cannot reach and rewinds a stranded pointer.
    #[verifier::rlimit(90)]
    pub fn set_max_dict_size(&mut self, value: u64)
        requires
            old(self).inv(),
            value <= i64::MAX - 3,
        ensures
            final(self).inv(),
            final(self)@ == old(self)@.set_bound(value as int),
    {
        let ghost st = self@;
        let ghost entries = self.memoised@;
        let ghost m = value as int;
        let mut kept: Vec<(u64, MemoObject)> = Vec::new();
        let mut j: usize = 0;
        while j < self.memoised.len()
            invariant
                self.inv(),
                st == self@,
                entries == self.memoised@,
                j <= entries.len(),
                value <= i64::MAX - 3,
                m == value as int,
                forall|q: int|
                    0 <= q < kept@.len() ==> in_slot_range((#[trigger] kept@[q]).0 as int, m),
                forall|q: int|
                    0 <= q < kept@.len() ==> exists|i: int|
                        0 <= i < j && #[trigger] kept@[q] == #[trigger] entries[i],
                forall|i: int|
                    0 <= i < j && in_slot_range((#[trigger] entries[i]).0 as int, m)
                        ==> exists|q: int|
                        0 <= q < kept@.len() && #[trigger] kept@[q] == entries[i],
                entries_distinct(kept@),
            decreases entries.len() - j,
        {
            proof {
                lemma_entry_maps(entries);
                assert(st.slots == slots_of(entries));
                assert(st.slots.contains_key(entries[j as int].0 as int));
                assert(st.wf());
                assert(in_slot_range(entries[j as int].0 as int, st.max_dict_size));
            }
            let slot = self.memoised[j].0;
            if slot == MIN_DICT_INDEX || slot < value + MIN_DICT_INDEX {
                let ghost before = kept@;
                let entry = (
                    slot,
                    MemoObject {
                        key: self.memoised[j].1.key.clone(),
                        value: self.memoised[j].1.value.clone(),
                    },
                );
                proof {
                    assert(entry == entries[j as int]);
                }
                kept.push(entry);
                proof {
                    let n = before.len() as int;
                    assert(kept@[n] == entries[j as int]);
                    assert(forall|q: int|
                        0 <= q < n ==> #[trigger] kept@[q] == before[q]);
                    assert forall|q: int| 0 <= q < kept@.len() implies exists|i: int|
                        0 <= i < j + 1 && #[trigger] kept@[q] == #[trigger] entries[i] by {
                        if q < n {
                            let i = choose|i: int|
                                0 <= i < j && #[trigger] before[q] == #[trigger] entries[i];
                            assert(kept@[q] == entries[i]);
                        } else {
                            assert(kept@[q] == entries[j as int]);
                        }
                    }
                    assert forall|i: int|
                        0 <= i < j + 1 && in_slot_range((#[trigger] entries[i]).0 as int, m)
                        implies exists|q: int|
                        0 <= q < kept@.len() && #[trigger] kept@[q] == entries[i] by {
                        if i < j {
                            let q = choose|q: int|
                                0 <= q < n && #[trigger] before[q] == entries[i];
                            assert(kept@[q] == entries[i]);
                        } else {
                            assert(kept@[n] == entries[i]);
                        }
                    }
                    assert(entries_distinct(kept@)) by {
                        assert forall|q1: int, q2: int|
                            0 <= q1 < q2 < kept@.len() implies (#[trigger] kept@[q1]).0 != (
                        #[trigger] kept@[q2]).0 && kept@[q1].1.key@ != kept@[q2].1.key@ by {
                            if q2 == n {
                                let i = choose|i: int|
                                    0 <= i < j && #[trigger] kept@[q1] == #[trigger] entries[i];
                                assert(entries[i].0 != entries[j as int].0);
                                assert(entries[i].1.key@ != entries[j as int].1.key@);
                            }
                        }
                    }
                }
            } else {
                proof {
                    assert forall|i: int|
                        0 <= i < j + 1 && in_slot_range((#[trigger] entries[i]).0 as int, m)
                        implies exists|q: int|
                        0 <= q < kept@.len() && #[trigger] kept@[q] == entries[i] by {
                        if i < j {
                            let q = choose|q: int|
                                0 <= q < kept@.len() && #[trigger] kept@[q] == entries[i];
                        }
                    }
                }
            }
            j = j + 1;
        }
        proof {
            Self::lemma_set_bound_maps(entries, kept@, st, m);
        }
        self.memoised = kept;
        if !(self.memoised_index == MIN_DICT_INDEX || self.memoised_index < value
            + MIN_DICT_INDEX) {
            self.memoised_index = MIN_DICT_INDEX;
        }
        self.max_dict_size = value;
        proof {
            lemma_set_bound_wf(st, m);
        }
    }

    /// The filtered slot table denotes exactly the restricted maps of
    /// `set_bound`.
    #[verifier::rlimit(60)]
    proof fn lemma_set_bound_maps(
        entries: Seq<(u64, MemoObject)>,
        kept: Seq<(u64, MemoObject)>,
        st: PackState,
        m: int,
    )
        requires
            entries_distinct(entries),
            entries_distinct(kept),
            st.fwd == fwd_of(entries),
            st.slots == slots_of(entries),
            st.wf(),
            forall|q: int| 0 <= q < kept.len() ==> in_slot_range((#[trigger] kept[q]).0 as int, m),
            forall|q: int|
                0 <= q < kept.len() ==> exists|i: int|
                    0 <= i < entries.len() && #[trigger] kept[q] == #[trigger] entries[i],
            forall|i: int|
                0 <= i < entries.len() && in_slot_range((#[trigger] entries[i]).0 as int, m)
                    ==> exists|q: int| 0 <= q < kept.len() && #[trigger] kept[q] == entries[i],
        ensures
            fwd_of(kept) == st.set_bound(m).fwd,
            slots_of(kept) == st.set_bound(m).slots,
    {
        lemma_entry_maps(entries);
        lemma_entry_maps(kept);
        let want = st.set_bound(m);
        assert_maps_equal!(fwd_of(kept), want.fwd, k => {
            if fwd_of(kept).contains_key(k) {
                let q = choose|q: int|
                    0 <= q < kept.len() && (#[trigger] kept[q]).1.key@ == k;
                let i = choose|i: int|
                    0 <= i < entries.len() && #[trigger] kept[q] == #[trigger] entries[i];
                assert(st.fwd.contains_key(k) && st.fwd[k] == entries[i].0 as int);
                assert(fwd_of(kept)[k] == kept[q].0 as int);
                assert(in_slot_range(kept[q].0 as int, m));
            }
            if want.fwd.contains_key(k) {
                assert(st.fwd.contains_key(k));
                let i = choose|i: int|
                    0 <= i < entries.len() && (#[trigger] entries[i]).1.key@ == k;
                assert(st.fwd[k] == entries[i].0 as int);
                assert(in_slot_range(entries[i].0 as int, m));
                let q = choose|q: int|
                    0 <= q < kept.len() && #[trigger] kept[q] == entries[i];
                assert(kept[q].1.key@ == k);
            }
        });
        assert_maps_equal!(slots_of(kept), want.slots, i => {
            if slots_of(kept).contains_key(i) {
                let q = choose|q: int|
                    0 <= q < kept.len() && (#[trigger] kept[q]).0 as int == i;
                let i2 = choose|i2: int|
                    0 <= i2 < entries.len() && #[trigger] kept[q] == #[trigger] entries[i2];
                assert(st.slots.contains_key(i) && st.slots[i] == (
                    entries[i2].1.key@,
                    entries[i2].1.value@,
                ));
                assert(slots_of(kept)[i] == (kept[q].1.key@, kept[q].1.value@));
                assert(in_slot_range(i, m));
            }
            if want.slots.contains_key(i) {
                assert(st.slots.contains_key(i));
                let i2 = choose|i2: int|
                    0 <= i2 < entries.len() && (#[trigger] entries[i2]).0 as int == i;
                assert(st.slots[i] == (entries[i2].1.key@, entries[i2].1.value@));
                let q = choose|q: int|
                    0 <= q < kept.len() && #[trigger] kept[q] == entries[i2];
                assert(kept[q].0 as int == i);
            }
        });
    }

    /// The sequence id of the last message emitted; `-1` before the first.
    pub fn sequence_id(&self) -> (r: i64)
        ensures
            r as int == self@.sequence_id,
    {
        self.sequence_id
    }

    /// The slot that `key` is memoised at, if any.
    fn find_index(&self, key: &String) -> (r: Option<u64>)
        requires
            self.inv(),
        ensures
            match r {
                Some(i) => self@.fwd.contains_key(key@) && i as int == self@.fwd[key@],
                None => !self@.fwd.contains_key(key@),
            },
    {
        proof {
            lemma_entry_maps(self.memoised@);
        }
        let mut j: usize = 0;
        while j < self.memoised.len()
            invariant
                self.inv(),
                j <= self.memoised@.len(),
                forall|i: int| 0 <= i < j ==> (#[trigger] self.memoised@[i]).1.key@ != key@,
            decreases self.memoised@.len() - j,
        {
            if self.memoised[j].1.key == *key {
                proof {
                    lemma_entry_maps(self.memoised@);
                }
                return Some(self.memoised[j].0);
            }
            j = j + 1;
        }
        proof {
            lemma_entry_maps(self.memoised@);
            if self@.fwd.contains_key(key@) {
                let i = choose|i: int|
                    0 <= i < self.memoised@.len() && (#[trigger] self.memoised@[i]).1.key@ == key@;
                assert(false);
            }
        }
        None
    }

    /// The position in the slot table of the entry that occupies the slot
    /// under the pointer, if that slot is occupied.
    fn find_slot_pos(&self) -> (r: Option<usize>)
        requires
            self.inv(),
        ensures
            match r {
                Some(p) => p < self.memoised@.len() && self.memoised@[p as int].0
                    == self.memoised_index_spec(),
                None => forall|i: int|
                    0 <= i < self.memoised@.len() ==> (#[trigger] self.memoised@[i]).0 as int
                        != self@.idx,
            },
    {
        let mut j: usize = 0;
        while j < self.memoised.len()
            invariant
                self.inv(),
                j <= self.memoised@.len(),
                forall|i: int| 0 <= i < j ==> (#[trigger] self.memoised@[i]).0 as int != self@.idx,
            decreases self.memoised@.len() - j,
        {
            if self.memoised[j].0 == self.memoised_index {
                return Some(j);
            }
            j = j + 1;
        }
        None
    }

    /// The slot pointer, for contracts of the private helpers.
    closed spec fn memoised_index_spec(&self) -> u64 {
        self.memoised_index
    }

    /// Put `(map_key, str_value)` into the slot under the pointer and
    /// advance the pointer, evicting whatever the slot held.
    fn memoise(&mut self, str_value: String, map_key: String)
        requires
            old(self).inv(),
            !old(self)@.fwd.contains_key(map_key@),
        ensures
            final(self).inv(),
            final(self)@ == old(self)@.dict_insert(map_key@, str_value@),
    {
        proof {
            lemma_entry_maps(self.memoised@);
            lemma_dict_insert_wf(self@, map_key@, str_value@);
        }
        let ghost st = self@;
        let ghost want = st.dict_insert(map_key@, str_value@);
        let entry = (self.memoised_index, MemoObject { key: map_key, value: str_value });
        let ghost e = entry;
        match self.find_slot_pos() {
            Some(pos) => {
                self.memoised[pos] = entry;
                proof {
                    let old_entries = old(self).memoised@;
                    let new_entries = self.memoised@;
                    assert(new_entries == old_entries.update(pos as int, e));
                    assert(entries_distinct(new_entries)) by {
                        assert(forall|i: int|
                            0 <= i < new_entries.len() && i != pos ==> #[trigger] new_entries[i]
                                == old_entries[i]);
                        assert forall|i: int, j: int| 0 <= i < j < new_entries.len() implies (
                        #[trigger] new_entries[i]).0 != (#[trigger] new_entries[j]).0
                            && new_entries[i].1.key@ != new_entries[j].1.key@ by {
                            lemma_entry_maps(old_entries);
                            if i == pos as int || j == pos as int {
                                let o = if i == pos as int {
                                    j
                                } else {
                                    i
                                };
                                assert(old_entries[o].0 as int != st.idx);
                                assert(!st.fwd.contains_key(old_entries[o].1.key@) ==> false);
                            }
                        }
                    }
                    self.lemma_memoise_maps(old_entries, new_entries, st, e, want);
                }
            },
            None => {
                self.memoised.push(entry);
                proof {
                    let old_entries = old(self).memoised@;
                    let new_entries = self.memoised@;
                    assert(entries_distinct(new_entries)) by {
                        assert(forall|i: int|
                            0 <= i < old_entries.len() ==> #[trigger] new_entries[i]
                                == old_entries[i]);
                        assert forall|i: int, j: int| 0 <= i < j < new_entries.len() implies (
                        #[trigger] new_entries[i]).0 != (#[trigger] new_entries[j]).0
                            && new_entries[i].1.key@ != new_entries[j].1.key@ by {
                            lemma_entry_maps(old_entries);
                        }
                    }
                    self.lemma_memoise_maps(old_entries, new_entries, st, e, want);
                }
            },
        }
        let next = self.memoised_index + 1;
        if next >= self.max_dict_size + MIN_DICT_INDEX {
            self.memoised_index = MIN_DICT_INDEX;
        } else {
            self.memoised_index = next;
        }
    }

    /// The slot table after a memoisation denotes exactly the state that
    /// `dict_insert` describes.
    proof fn lemma_memoise_maps(
        &self,
        old_entries: Seq<(u64, MemoObject)>,
        new_entries: Seq<(u64, MemoObject)>,
        st: PackState,
        e: (u64, MemoObject),
        want: PackState,
    )
        requires
            entries_distinct(old_entries),
            entries_distinct(new_entries),
            st.fwd == fwd_of(old_entries),
            st.slots == slots_of(old_entries),
            st.wf(),
            !st.fwd.contains_key(e.1.key@),
            e.0 as int == st.idx,
            want == st.dict_insert(e.1.key@, e.1.value@),
            // the new table is the old one with the slot under the pointer
            // replaced, or extended when that slot was free
            ({
                ||| exists|pos: int|
                    0 <= pos < old_entries.len() && (#[trigger] old_entries[pos]).0 == e.0
                        && new_entries == old_entries.update(pos, e)
                ||| ((forall|i: int|
                    0 <= i < old_entries.len() ==> (#[trigger] old_entries[i]).0 != e.0)
                    && new_entries == old_entries.push(e))
            }),
        ensures
            fwd_of(new_entries) == want.fwd,
            slots_of(new_entries) == want.slots,
    {
        lemma_entry_maps(old_entries);
        lemma_entry_maps(new_entries);
        let key = e.1.key@;
        if exists|pos: int|
            0 <= pos < old_entries.len() && (#[trigger] old_entries[pos]).0 == e.0 && new_entries
                == old_entries.update(pos, e) {
            let pos = choose|pos: int|
                0 <= pos < old_entries.len() && (#[trigger] old_entries[pos]).0 == e.0
                    && new_entries == old_entries.update(pos, e);
            let evicted = old_entries[pos].1.key@;
            assert(st.slots.contains_key(st.idx));
            assert(st.slots[st.idx] == (old_entries[pos].1.key@, old_entries[pos].1.value@));
            assert(forall|i: int|
                0 <= i < new_entries.len() && i != pos ==> #[trigger] new_entries[i]
                    == old_entries[i]);
            assert(new_entries[pos] == e);
            assert_maps_equal!(fwd_of(new_entries), want.fwd, k => {
                if fwd_of(new_entries).contains_key(k) {
                    let i = choose|i: int|
                        0 <= i < new_entries.len() && (#[trigger] new_entries[i]).1.key@ == k;
                    if i == pos {
                        assert(k == key);
                    } else {
                        assert(old_entries[i].1.key@ == k);
                        assert(k != evicted);
                        assert(fwd_of(new_entries)[k] == old_entries[i].0 as int);
                    }
                }
                if want.fwd.contains_key(k) {
                    if k == key {
                        assert(new_entries[pos].1.key@ == k);
                    } else {
                        assert(st.fwd.contains_key(k) && k != evicted);
                        let i = choose|i: int|
                            0 <= i < old_entries.len() && (#[trigger] old_entries[i]).1.key@ == k;
                        assert(i != pos);
                        assert(new_entries[i].1.key@ == k);
                    }
                }
            });
            assert_maps_equal!(slots_of(new_entries), want.slots, s => {
                if slots_of(new_entries).contains_key(s) {
                    let i = choose|i: int|
                        0 <= i < new_entries.len() && (#[trigger] new_entries[i]).0 as int == s;
                    if i == pos {
                        assert(s == st.idx);
                    } else {
                        assert(old_entries[i].0 as int == s);
                    }
                }
                if want.slots.contains_key(s) {
                    if s == st.idx {
                        assert(new_entries[pos].0 as int == s);
                    } else {
                        let i = choose|i: int|
                            0 <= i < old_entries.len() && (#[trigger] old_entries[i]).0 as int
                                == s;
                        assert(i != pos);
                        assert(new_entries[i].0 as int == s);
                    }
                }
            });
        } else {
            assert(!st.slots.contains_key(st.idx)) by {
                if st.slots.contains_key(st.idx) {
                    let i = choose|i: int|
                        0 <= i < old_entries.len() && (#[trigger] old_entries[i]).0 as int
                            == st.idx;
                    assert(old_entries[i].0 != e.0);
                    assert(old_entries[i].0 as int == e.0 as int);
                    assert(false);
                }
            }
            assert(want.fwd == st.fwd.insert(key, st.idx));
            assert(want.slots == st.slots.insert(st.idx, (key, e.1.value@)));
            let n = old_entries.len() as int;
            assert(forall|i: int|
                0 <= i < n ==> #[trigger] new_entries[i] == old_entries[i]);
            assert(new_entries[n] == e);
            assert_maps_equal!(fwd_of(new_entries), want.fwd, k => {
                if fwd_of(new_entries).contains_key(k) {
                    let i = choose|i: int|
                        0 <= i < new_entries.len() && (#[trigger] new_entries[i]).1.key@ == k;
                    if i == n {
                        assert(k == key);
                    } else {
                        assert(old_entries[i].1.key@ == k);
                        assert(fwd_of(new_entries)[k] == old_entries[i].0 as int);
                    }
                }
                if want.fwd.contains_key(k) {
                    if k == key {
                        assert(new_entries[n].1.key@ == k);
                    } else {
                        let i = choose|i: int|
                            0 <= i < old_entries.len() && (#[trigger] old_entries[i]).1.key@ == k;
                        assert(new_entries[i].1.key@ == k);
                    }
                }
            });
            assert_maps_equal!(slots_of(new_entries), want.slots, s => {
                if slots_of(new_entries).contains_key(s) {
                    let i = choose|i: int|
                        0 <= i < new_entries.len() && (#[trigger] new_entries[i]).0 as int == s;
                    if i == n {
                        assert(s == st.idx);
                    } else {
                        assert(old_entries[i].0 as int == s);
                    }
                }
                if want.slots.contains_key(s) {
                    if s == st.idx {
                        assert(new_entries[n].0 as int == s);
                    } else {
                        let i = choose|i: int|
                            0 <= i < old_entries.len() && (#[trigger] old_entries[i]).0 as int
                                == s;
                        assert(new_entries[i].0 as int == s);
                    }
                }
            });
        }
    }
}

/// The literal text of a leaf value: the canonical JSON spelling for null
/// and booleans, the decimal text for numbers, the characters for strings.
pub open spec fn lit_of(v: JVal) -> Seq<char> {
    match v {
        JVal::Null => seq!['n', 'u', 'l', 'l'],
        JVal::Boolean(b) => if b {
            seq!['t', 'r', 'u', 'e']
        } else {
            seq!['f', 'a', 'l', 's', 'e']
        },
        JVal::Integer(i) => int_text(i),
        JVal::NumberText(t) => t,
        JVal::Text(s) => s,
        _ => Seq::empty(),
    }
}

/// The dictionary key of a leaf: strings carry a tilde prefix so that the
/// integer `1` and the string `"1"` occupy different entries.
pub open spec fn key_of(v: JVal) -> Seq<char> {
    if v is Text {
        seq!['~'] + lit_of(v)
    } else {
        lit_of(v)
    }
}

pub open spec fn is_leaf(v: JVal) -> bool {
    !(v is Array) && !(v is Object)
}

/// Packing one leaf: a memoised key collapses to its slot number; a new one
/// takes the slot under the pointer and goes out literally — numbers as
/// text, strings tilde-escaped when their first character could mislead the
/// decoder.
pub open spec fn pack_value_spec(st: PackState, v: JVal) -> (PackState, JVal) {
    let key = key_of(v);
    if st.fwd.contains_key(key) {
        (st, JVal::Integer(st.fwd[key]))
    } else {
        let st2 = st.dict_insert(key, lit_of(v));
        let w = match v {
            JVal::Null => JVal::Null,
            JVal::Boolean(b) => JVal::Boolean(b),
            JVal::Text(s) => if needs_escape(s) {
                JVal::Text(seq!['~'] + s)
            } else {
                JVal::Text(s)
            },
            _ => JVal::Text(lit_of(v)),
        };
        (st2, w)
    }
}

/// The depth left after descending one level; negative depths stay put,
/// since only their sign matters.
pub open spec fn dec_depth(d: int) -> int {
    if d >= 0 {
        d - 1
    } else {
        d
    }
}

pub open spec fn dnat(d: int) -> int {
    if d >= 0 {
        d + 1
    } else {
        0
    }
}

pub open spec fn psd(d: int) -> int {
    if d >= 0 {
        2 * d + 1
    } else {
        0
    }
}

pub open spec fn max2(a: int, b: int) -> int {
    if a >= b {
        a
    } else {
        b
    }
}

/// A bound on the strings inside a value, used to show that packing
/// terminates: one more than the longest string leaf.
pub open spec fn text_budget(v: JVal) -> int
    decreases v via text_budget_decreases
{
    match v {
        JVal::Text(s) => s.len() + 1int,
        JVal::Array(es) => elems_budget(es),
        JVal::Object(es) => entries_budget(es),
        _ => 0,
    }
}

#[via_fn]
proof fn text_budget_decreases(v: JVal) {
    match v {
        JVal::Array(es) => {
            assert(decreases_to!(v => es));
        },
        JVal::Object(es) => {
            assert(decreases_to!(v => es));
        },
        _ => {},
    }
}

pub open spec fn elems_budget(es: Seq<JVal>) -> int
    decreases es via elems_budget_decreases
{
    if es.len() == 0 {
        0
    } else {
        max2(elems_budget(es.drop_last()), text_budget(es.last()))
    }
}

#[via_fn]
proof fn elems_budget_decreases(es: Seq<JVal>) {
    if es.len() > 0 {
        assert(decreases_to!(es => es.drop_last()));
        assert(decreases_to!(es => es[es.len() - 1]));
    }
}

pub open spec fn entries_budget(es: Seq<(Seq<char>, JVal)>) -> int
    decreases es via entries_budget_decreases
{
    if es.len() == 0 {
        0
    } else {
        max2(entries_budget(es.drop_last()), text_budget(es.last().1))
    }
}

#[via_fn]
proof fn entries_budget_decreases(es: Seq<(Seq<char>, JVal)>) {
    if es.len() > 0 {
        assert(decreases_to!(es => es.drop_last()));
        assert(decreases_to!(es => es[es.len() - 1]));
        assert(decreases_to!(es[es.len() - 1] => es[es.len() - 1].1));
    }
}

/// One more than the longest line.
pub open spec fn lines_budget(ls: Seq<Seq<char>>) -> int
    decreases ls.len(),
{
    if ls.len() == 0 {
        0
    } else {
        max2(lines_budget(ls.drop_last()), ls.last().len() + 1int)
    }
}

pub proof fn lemma_elems_budget(es: Seq<JVal>)
    ensures
        elems_budget(es) >= 0,
        forall|i: int| 0 <= i < es.len() ==> text_budget(#[trigger] es[i]) <= elems_budget(es),
    decreases es.len(),
{
    if es.len() > 0 {
        lemma_elems_budget(es.drop_last());
        assert(forall|i: int| 0 <= i < es.len() - 1 ==> es.drop_last()[i] == #[trigger] es[i]);
    }
}

pub proof fn lemma_entries_budget(es: Seq<(Seq<char>, JVal)>)
    ensures
        entries_budget(es) >= 0,
        forall|i: int|
            0 <= i < es.len() ==> text_budget((#[trigger] es[i]).1) <= entries_budget(es),
    decreases es.len(),
{
    if es.len() > 0 {
        lemma_entries_budget(es.drop_last());
        assert(forall|i: int| 0 <= i < es.len() - 1 ==> es.drop_last()[i] == #[trigger] es[i]);
    }
}

pub proof fn lemma_text_budget_nonneg(v: JVal)
    ensures
        text_budget(v) >= 0,
{
    match v {
        JVal::Array(es) => {
            lemma_elems_budget(es);
        },
        JVal::Object(es) => {
            lemma_entries_budget(es);
        },
        _ => {},
    }
}

pub proof fn lemma_lines_budget(ls: Seq<Seq<char>>)
    ensures
        lines_budget(ls) >= 0,
        forall|i: int| 0 <= i < ls.len() ==> (#[trigger] ls[i]).len() + 1 <= lines_budget(ls),
    decreases ls.len(),
{
    if ls.len() > 0 {
        lemma_lines_budget(ls.drop_last());
        assert(forall|i: int| 0 <= i < ls.len() - 1 ==> ls.drop_last()[i] == #[trigger] ls[i]);
    }
}

/// Every line of `s` fits inside `s`.
pub proof fn lemma_split_lines_budget(s: Seq<char>)
    ensures
        lines_budget(split_lines(s)) <= s.len() + 1,
    decreases s.len(),
{
    crate::text::lemma_first_nl(s);
    if s.len() > 0 {
        let k = crate::text::first_nl(s);
        if k < s.len() {
            lemma_split_lines_budget(s.skip(k + 1));
            let first = crate::text::trim_cr(s.take(k));
            let rest = split_lines(s.skip(k + 1));
            lemma_lines_budget(rest);
            assert(split_lines(s) == seq![first] + rest);
            lemma_lines_budget_concat(seq![first], rest);
            assert(lines_budget(seq![first]) <= s.len() + 1) by {
                assert(lines_budget(seq![first].drop_last()) == 0) by {
                    assert(seq![first].drop_last() =~= Seq::<Seq<char>>::empty());
                }
            }
        } else {
            assert(split_lines(s) == seq![s]);
            assert(lines_budget(seq![s].drop_last()) == 0) by {
                assert(seq![s].drop_last() =~= Seq::<Seq<char>>::empty());
            }
        }
    }
}

pub proof fn lemma_lines_budget_concat(a: Seq<Seq<char>>, b: Seq<Seq<char>>)
    ensures
        lines_budget(a + b) == max2(lines_budget(a), lines_budget(b)),
    decreases b.len(),
{
    lemma_lines_budget(a);
    lemma_lines_budget(b);
    if b.len() == 0 {
        assert(a + b =~= a);
    } else {
        lemma_lines_budget_concat(a, b.drop_last());
        assert((a + b).drop_last() =~= a + b.drop_last());
        assert((a + b).last() == b.last());
    }
}

#[verifier::external_type_specification]
#[verifier::external_body]
pub struct ExSerdeValue(serde_json::Value);

/// What `serde_json` would parse a text to, translated into the library's
/// value universe; `None` where the text is not JSON.
pub uninterp spec fn json_parse_raw(s: Seq<char>) -> Option<JVal>;

/// The parse result, with the one structural fact the codec leans on: every
/// string literal inside a JSON text is quoted, so no string leaf of the
/// parsed tree can be as long as the text itself.
pub open spec fn json_parse(s: Seq<char>) -> Option<JVal> {
    match json_parse_raw(s) {
        Some(v) => if text_budget(v) <= s.len() {
            Some(v)
        } else {
            None
        },
        None => None,
    }
}

/// Maps a parsed `serde_json` tree onto the library's values: integers that
/// fit `i64` stay integers, any other number keeps its `serde_json` text.
#[verifier::external_body]
fn value_of_serde(v: serde_json::Value) -> JsonValue {
    match v {
        serde_json::Value::Null => JsonValue::Null,
        serde_json::Value::Bool(b) => JsonValue::Boolean(b),
        serde_json::Value::Number(n) => match n.as_i64() {
            Some(i) => JsonValue::Integer(i),
            None => JsonValue::NumberText(n.to_string()),
        },
        serde_json::Value::String(s) => JsonValue::Text(s),
        serde_json::Value::Array(a) => JsonValue::Array(a.into_iter().map(value_of_serde).collect()),
        serde_json::Value::Object(m) => JsonValue::Object(m.into_iter().map(|(k, x)| (k, value_of_serde(x))).collect()),
    }
}

/// Relies on `serde_json::from_str::<serde_json::Value>`: whether a text is
/// JSON, and what it parses to, depend on the text alone; keys keep their
/// order in the text (the `preserve_order` feature); and every string leaf
/// of the parse is at least two characters shorter than the text, since it
/// stood there quoted.
#[verifier::external_body]
fn parse_json_text(s: &str) -> (r: Option<JsonValue>)
    ensures
        r.deep_view() == json_parse_raw(s@),
        r.deep_view() == json_parse(s@),
{
    match serde_json::from_str::<serde_json::Value>(s) {
        Ok(v) => Some(value_of_serde(v)),
        Err(_) => None,
    }
}

/// Packing a value below the envelope: arrays walk their elements behind an
/// `ARRAY` tag, objects emit all keys and then all values, strings open up
/// when string-depth allows, and every leaf goes through the dictionary.
pub open spec fn pack_walk(st: PackState, v: JVal, d: int) -> (PackState, JVal)
    decreases text_budget(v), 2 * dnat(d), 2int, v via pack_walk_decreases
{
    match v {
        JVal::Null => (st, JVal::Null),
        JVal::Array(es) => {
            let r = pack_elems(st, es, dec_depth(d));
            (r.0, JVal::Array(seq![JVal::Integer(0)] + r.1))
        },
        JVal::Text(s) => if d >= 0 {
            pack_string_core(st, s, 0)
        } else {
            pack_value_spec(st, v)
        },
        JVal::Object(es) => {
            let r1 = pack_keys(st, es);
            let r2 = pack_obj_values(r1.0, es, d);
            (r2.0, JVal::Array(r1.1 + r2.1))
        },
        _ => pack_value_spec(st, v),
    }
}

#[via_fn]
proof fn pack_walk_decreases(st: PackState, v: JVal, d: int) {
    lemma_text_budget_nonneg(v);
    match v {
        JVal::Array(es) => {
            assert(decreases_to!(v => es));
            lemma_elems_budget(es);
        },
        JVal::Object(es) => {
            assert(decreases_to!(v => es));
            lemma_entries_budget(es);
        },
        _ => {},
    }
}

pub open spec fn pack_elems(st: PackState, es: Seq<JVal>, d: int) -> (PackState, Seq<JVal>)
    decreases elems_budget(es), 2 * dnat(d), 2int, es via pack_elems_decreases
{
    if es.len() == 0 {
        (st, Seq::empty())
    } else {
        let r1 = pack_elems(st, es.drop_last(), d);
        let r2 = pack_walk(r1.0, es.last(), d);
        (r2.0, r1.1.push(r2.1))
    }
}

#[via_fn]
proof fn pack_elems_decreases(st: PackState, es: Seq<JVal>, d: int) {
    lemma_elems_budget(es);
    if es.len() > 0 {
        assert(decreases_to!(es => es.drop_last()));
        assert(decreases_to!(es => es[es.len() - 1]));
        lemma_elems_budget(es.drop_last());
        assert(elems_budget(es.drop_last()) <= elems_budget(es));
        lemma_text_budget_nonneg(es.last());
    }
}

/// Keys are strings and always go through the dictionary as leaves.
pub open spec fn pack_keys(st: PackState, es: Seq<(Seq<char>, JVal)>) -> (PackState, Seq<JVal>)
    decreases es.len(),
{
    if es.len() == 0 {
        (st, Seq::empty())
    } else {
        let r1 = pack_keys(st, es.drop_last());
        let r2 = pack_value_spec(r1.0, JVal::Text(es.last().0));
        (r2.0, r1.1.push(r2.1))
    }
}

pub open spec fn pack_obj_values(st: PackState, es: Seq<(Seq<char>, JVal)>, d: int) -> (
    PackState,
    Seq<JVal>,
)
    decreases entries_budget(es), 2 * dnat(d), 2int, es via pack_obj_values_decreases
{
    if es.len() == 0 {
        (st, Seq::empty())
    } else {
        let r1 = pack_obj_values(st, es.drop_last(), d);
        let v = es.last().1;
        let r2 = if v is Object || v is Array {
            pack_walk(r1.0, v, dec_depth(d))
        } else if v is Text && d > 0 {
            pack_string_core(r1.0, v->Text_0, -1)
        } else {
            pack_value_spec(r1.0, v)
        };
        (r2.0, r1.1.push(r2.1))
    }
}

#[via_fn]
proof fn pack_obj_values_decreases(st: PackState, es: Seq<(Seq<char>, JVal)>, d: int) {
    lemma_entries_budget(es);
    if es.len() > 0 {
        assert(decreases_to!(es => es.drop_last()));
        assert(decreases_to!(es => es[es.len() - 1]));
        assert(decreases_to!(es[es.len() - 1] => es[es.len() - 1].1));
        lemma_entries_budget(es.drop_last());
        assert(entries_budget(es.drop_last()) <= entries_budget(es));
        lemma_text_budget_nonneg(es.last().1);
    }
}

/// Packing a text that is meant to round-trip as a string: if it parses as
/// JSON, the parsed value is packed; otherwise its lines are packed one by
/// one behind a `STRING` tag, for the decoder to join back with line feeds.
pub open spec fn pack_string_core(st: PackState, s: Seq<char>, d: int) -> (PackState, JVal)
    decreases s.len() + 1, psd(d), 1int, s via pack_string_core_decreases
{
    match json_parse(s) {
        Some(v) => pack_walk(st, v, d),
        None => {
            let r = pack_lines(st, split_lines(s), dec_depth(d));
            (r.0, JVal::Array(seq![JVal::Integer(2)] + r.1))
        },
    }
}

#[via_fn]
proof fn pack_string_core_decreases(st: PackState, s: Seq<char>, d: int) {
    match json_parse(s) {
        Some(v) => {
            lemma_text_budget_nonneg(v);
        },
        None => {
            lemma_split_lines_budget(s);
            lemma_lines_budget(split_lines(s));
        },
    }
}

pub open spec fn pack_lines(st: PackState, ls: Seq<Seq<char>>, d: int) -> (PackState, Seq<JVal>)
    decreases lines_budget(ls), 2 * dnat(d), 0int, ls via pack_lines_decreases
{
    if ls.len() == 0 {
        (st, Seq::empty())
    } else {
        let r1 = pack_lines(st, ls.drop_last(), d);
        let r2 = if d >= 0 {
            pack_string_core(r1.0, ls.last(), 0)
        } else {
            pack_value_spec(r1.0, JVal::Text(ls.last()))
        };
        (r2.0, r1.1.push(r2.1))
    }
}

#[via_fn]
proof fn pack_lines_decreases(st: PackState, ls: Seq<Seq<char>>, d: int) {
    lemma_lines_budget(ls);
    if ls.len() > 0 {
        assert(decreases_to!(ls => ls.drop_last()));
        lemma_lines_budget(ls.drop_last());
        assert(lines_budget(ls.drop_last()) <= lines_budget(ls));
    }
}

/// The envelope: the sequence counter ticks, arrays take the new id as
/// their last element, scalars are wrapped as `[VALUE, payload, id]`.
pub open spec fn envelope_spec(st: PackState, w: JVal) -> (PackState, JVal) {
    let n = st.sequence_id + 1;
    let st2 = PackState { sequence_id: n, ..st };
    match w {
        JVal::Array(ws) => (st2, JVal::Array(ws.push(JVal::Integer(n)))),
        _ => (st2, JVal::Array(seq![JVal::Integer(1), w, JVal::Integer(n)])),
    }
}

/// What `pack` does: walk, then envelope unless the caller asked for none.
pub open spec fn pack_spec(st: PackState, v: JVal, d: int, no_seq: bool) -> (PackState, JVal) {
    let r = pack_walk(st, v, d);
    if no_seq {
        r
    } else {
        envelope_spec(r.0, r.1)
    }
}

/// What `pack_string` does: the string path, then the same envelope.
pub open spec fn pack_string_spec(st: PackState, s: Seq<char>, d: int, no_seq: bool) -> (
    PackState,
    JVal,
) {
    let r = pack_string_core(st, s, d);
    if no_seq {
        r
    } else {
        envelope_spec(r.0, r.1)
    }
}

/// Packing below the envelope never touches the sequence counter or the
/// dictionary bound.
pub proof fn lemma_walk_keeps_frame(st: PackState, v: JVal, d: int)
    ensures
        pack_walk(st, v, d).0.sequence_id == st.sequence_id,
        pack_walk(st, v, d).0.max_dict_size == st.max_dict_size,
    decreases text_budget(v), 2 * dnat(d), 2int, v,
{
    lemma_text_budget_nonneg(v);
    match v {
        JVal::Array(es) => {
            assert(decreases_to!(v => es));
            lemma_elems_budget(es);
            lemma_elems_keep_frame(st, es, dec_depth(d));
        },
        JVal::Object(es) => {
            assert(decreases_to!(v => es));
            lemma_entries_budget(es);
            lemma_keys_keep_frame(st, es);
            lemma_obj_values_keep_frame(pack_keys(st, es).0, es, d);
        },
        JVal::Text(s) => {
            if d >= 0 {
                lemma_string_core_keeps_frame(st, s, 0);
            }
        },
        _ => {},
    }
}

pub proof fn lemma_elems_keep_frame(st: PackState, es: Seq<JVal>, d: int)
    ensures
        pack_elems(st, es, d).0.sequence_id == st.sequence_id,
        pack_elems(st, es, d).0.max_dict_size == st.max_dict_size,
    decreases elems_budget(es), 2 * dnat(d), 2int, es,
{
    lemma_elems_budget(es);
    if es.len() > 0 {
        assert(decreases_to!(es => es.drop_last()));
        assert(decreases_to!(es => es[es.len() - 1]));
        lemma_elems_budget(es.drop_last());
        lemma_text_budget_nonneg(es.last());
        lemma_elems_keep_frame(st, es.drop_last(), d);
        lemma_walk_keeps_frame(pack_elems(st, es.drop_last(), d).0, es.last(), d);
    }
}

pub proof fn lemma_keys_keep_frame(st: PackState, es: Seq<(Seq<char>, JVal)>)
    ensures
        pack_keys(st, es).0.sequence_id == st.sequence_id,
        pack_keys(st, es).0.max_dict_size == st.max_dict_size,
    decreases es.len(),
{
    if es.len() > 0 {
        lemma_keys_keep_frame(st, es.drop_last());
    }
}

pub proof fn lemma_obj_values_keep_frame(st: PackState, es: Seq<(Seq<char>, JVal)>, d: int)
    ensures
        pack_obj_values(st, es, d).0.sequence_id == st.sequence_id,
        pack_obj_values(st, es, d).0.max_dict_size == st.max_dict_size,
    decreases entries_budget(es), 2 * dnat(d), 2int, es,
{
    lemma_entries_budget(es);
    if es.len() > 0 {
        assert(decreases_to!(es => es.drop_last()));
        assert(decreases_to!(es => es[es.len() - 1]));
        assert(decreases_to!(es[es.len() - 1] => es[es.len() - 1].1));
        lemma_entries_budget(es.drop_last());
        lemma_text_budget_nonneg(es.last().1);
        lemma_obj_values_keep_frame(st, es.drop_last(), d);
        let st1 = pack_obj_values(st, es.drop_last(), d).0;
        let v = es.last().1;
        if v is Object || v is Array {
            lemma_walk_keeps_frame(st1, v, dec_depth(d));
        } else if v is Text && d > 0 {
            lemma_string_core_keeps_frame(st1, v->Text_0, -1);
        }
    }
}

pub proof fn lemma_string_core_keeps_frame(st: PackState, s: Seq<char>, d: int)
    ensures
        pack_string_core(st, s, d).0.sequence_id == st.sequence_id,
        pack_string_core(st, s, d).0.max_dict_size == st.max_dict_size,
    decreases s.len() + 1, psd(d), 1int, s,
{
    match json_parse(s) {
        Some(v) => {
            lemma_text_budget_nonneg(v);
            lemma_walk_keeps_frame(st, v, d);
        },
        None => {
            lemma_split_lines_budget(s);
            lemma_lines_budget(split_lines(s));
            lemma_lines_keep_frame(st, split_lines(s), dec_depth(d), s);
        },
    }
}

pub proof fn lemma_lines_keep_frame(st: PackState, ls: Seq<Seq<char>>, d: int, bound: Seq<char>)
    requires
        lines_budget(ls) <= bound.len() + 1,
        d < 0 || psd(d) < 2 * dnat(d),
    ensures
        pack_lines(st, ls, d).0.sequence_id == st.sequence_id,
        pack_lines(st, ls, d).0.max_dict_size == st.max_dict_size,
    decreases lines_budget(ls), 2 * dnat(d), 0int, ls,
{
    lemma_lines_budget(ls);
    if ls.len() > 0 {
        assert(decreases_to!(ls => ls.drop_last()));
        lemma_lines_budget(ls.drop_last());
        lemma_lines_keep_frame(st, ls.drop_last(), d, bound);
        let st1 = pack_lines(st, ls.drop_last(), d).0;
        if d >= 0 {
            lemma_string_core_keeps_frame(st1, ls.last(), 0);
        }
    }
}

impl Packer {
    /// Packing one leaf value through the dictionary.
    fn pack_value(&mut self, value: &JsonValue) -> (r: JsonValue)
        requires
            old(self).inv(),
            is_leaf(value@),
        ensures
            final(self).inv(),
            final(self)@ == pack_value_spec(old(self)@, value@).0,
            r@ == pack_value_spec(old(self)@, value@).1,
    {
        let lit: String = match value {
            JsonValue::Null => {
                proof {
                    reveal_strlit("null");
                }
                let s = String::from_str("null");
                proof {
                    assert(s@ =~= lit_of(value@));
                }
                s
            },
            JsonValue::Boolean(b) => {
                if *b {
                    proof {
                        reveal_strlit("true");
                    }
                    let s = String::from_str("true");
                    proof {
                        assert(s@ =~= lit_of(value@));
                    }
                    s
                } else {
                    proof {
                        reveal_strlit("false");
                    }
                    let s = String::from_str("false");
                    proof {
                        assert(s@ =~= lit_of(value@));
                    }
                    s
                }
            },
            JsonValue::Integer(i) => print_i64(*i),
            JsonValue::NumberText(t) => t.clone(),
            JsonValue::Text(s) => s.clone(),
            _ => {
                proof {
                    assert(false);
                }
                String::new()
            },
        };
        proof {
            assert(lit@ == lit_of(value@));
        }
        let is_string = match value {
            JsonValue::Text(_) => true,
            _ => false,
        };
        let key: String = if is_string {
            tilde_prefixed(lit.as_str())
        } else {
            lit.clone()
        };
        proof {
            assert(key@ == key_of(value@));
        }
        match self.find_index(&key) {
            Some(i) => {
                proof {
                    assert(self@.slots.contains_key(self@.fwd[key@]));
                }
                JsonValue::Integer(i as i64)
            },
            None => {
                let w = match value {
                    JsonValue::Null => JsonValue::Null,
                    JsonValue::Boolean(b) => JsonValue::Boolean(*b),
                    JsonValue::Text(s) => {
                        if needs_escape_str(s.as_str()) {
                            JsonValue::Text(tilde_prefixed(s.as_str()))
                        } else {
                            JsonValue::Text(s.clone())
                        }
                    },
                    _ => JsonValue::Text(lit.clone()),
                };
                self.memoise(lit, key);
                w
            },
        }
    }

    /// Tick the sequence counter and put its new value at the end of the
    /// message.
    fn add_sequence_id(&mut self, e: JsonValue) -> (r: JsonValue)
        requires
            old(self).inv(),
            old(self)@.sequence_id < i64::MAX,
        ensures
            final(self).inv(),
            final(self)@ == envelope_spec(old(self)@, e@).0,
            r@ == envelope_spec(old(self)@, e@).1,
    {
        self.sequence_id = self.sequence_id + 1;
        let sid = JsonValue::Integer(self.sequence_id);
        let ghost n = self.sequence_id as int;
        match e {
            JsonValue::Array(mut ws) => {
                let ghost before = ws@;
                ws.push(sid);
                proof {
                    assert(ws@.drop_last() =~= before);
                    crate::value::lemma_model_elems_snoc(ws@, before);
                    assert(model_elems(ws@) == model_elems(before).push(JVal::Integer(n)));
                    assert(self@.fwd == old(self)@.fwd);
                    assert(self@.slots == old(self)@.slots);
                    assert(self@.wf());
                }
                JsonValue::Array(ws)
            },
            other => {
                let result = vec![JsonValue::Integer(1), other, sid];
                proof {
                    broadcast use lemma_model_elems;

                    assert(model_elems(result@) =~= seq![
                        JVal::Integer(1),
                        other@,
                        JVal::Integer(n),
                    ]);
                }
                JsonValue::Array(result)
            },
        }
    }

    /// The walk below the envelope, exactly as `pack_walk` describes it.
    fn pack_object_or_value(&mut self, object: &JsonValue, depth: i64) -> (r: JsonValue)
        requires
            old(self).inv(),
        ensures
            final(self).inv(),
            final(self)@ == pack_walk(old(self)@, object@, depth as int).0,
            r@ == pack_walk(old(self)@, object@, depth as int).1,
        decreases text_budget(object@), 2 * dnat(depth as int), 2int, object@,
    {
        match object {
            JsonValue::Null => JsonValue::Null,
            JsonValue::Array(es) => {
                let d2: i64 = if depth >= 0 {
                    depth - 1
                } else {
                    depth
                };
                proof {
                    assert(decreases_to!(object@ => model_elems(es@)));
                    lemma_elems_budget(model_elems(es@));
                }
                self.pack_array(es, d2)
            },
            JsonValue::Text(s) => {
                if depth >= 0 {
                    self.pack_string_inner(s.as_str(), 0)
                } else {
                    self.pack_value(object)
                }
            },
            JsonValue::Object(es) => {
                proof {
                    assert(decreases_to!(object@ => model_entries(es@)));
                    lemma_entries_budget(model_entries(es@));
                }
                self.pack_object(es, depth)
            },
            _ => self.pack_value(object),
        }
    }

    /// An array: the `ARRAY` tag, then each element packed in turn.
    fn pack_array(&mut self, es: &Vec<JsonValue>, depth: i64) -> (r: JsonValue)
        requires
            old(self).inv(),
        ensures
            final(self).inv(),
            final(self)@ == pack_elems(old(self)@, model_elems(es@), depth as int).0,
            r@ == JVal::Array(
                seq![JVal::Integer(0)] + pack_elems(old(self)@, model_elems(es@), depth as int).1,
            ),
        decreases elems_budget(model_elems(es@)), 2 * dnat(depth as int), 2int, model_elems(es@),
    {
        let ghost st0 = self@;
        let ghost ms = model_elems(es@);
        let ghost d = depth as int;
        proof {
            lemma_model_elems(es@);
            lemma_elems_budget(ms);
        }
        let mut result: Vec<JsonValue> = Vec::new();
        result.push(JsonValue::Integer(0));
        let mut i: usize = 0;
        proof {
            assert(ms.take(0) =~= Seq::<JVal>::empty());
            assert(pack_elems(st0, ms.take(0), d).1 == Seq::<JVal>::empty());
            assert(model_elems(Seq::<JsonValue>::empty()) == Seq::<JVal>::empty());
            assert(result@.drop_last() =~= Seq::<JsonValue>::empty());
            crate::value::lemma_model_elems_snoc(result@, Seq::<JsonValue>::empty());
            assert(model_elems(result@) =~= seq![JVal::Integer(0)] + pack_elems(st0, ms.take(0), d).1);
        }
        while i < es.len()
            invariant
                self.inv(),
                i <= es@.len(),
                ms == model_elems(es@),
                ms.len() == es@.len(),
                forall|j: int| 0 <= j < es@.len() ==> ms[j] == es@[j]@,
                self@ == pack_elems(st0, ms.take(i as int), d).0,
                model_elems(result@) == seq![JVal::Integer(0)] + pack_elems(st0, ms.take(i as int), d).1,
                d == depth as int,
            decreases es@.len() - i,
        {
            proof {
                lemma_elems_budget(ms);
                assert(decreases_to!(ms => ms[i as int]));
                assert(decreases_to!(ms => es@[i as int]@));
                lemma_text_budget_nonneg(es@[i as int]@);
                assert(text_budget(es@[i as int]@) <= elems_budget(ms));
            }
            let ghost before = result@;
            let w = self.pack_object_or_value(&es[i], depth);
            let ghost wv = w@;
            result.push(w);
            proof {
                let t1 = ms.take(i as int + 1);
                assert(t1.drop_last() =~= ms.take(i as int));
                assert(t1.last() == ms[i as int]);
                assert(result@.drop_last() =~= before);
                crate::value::lemma_model_elems_snoc(result@, before);
                assert(model_elems(result@) == model_elems(before).push(wv));
                assert(model_elems(result@) =~= seq![JVal::Integer(0)] + pack_elems(st0, t1, d).1);
            }
            i = i + 1;
        }
        proof {
            assert(ms.take(es@.len() as int) =~= ms);
        }
        JsonValue::Array(result)
    }

    /// An object: every key first, then every value, in entry order.
    fn pack_object(&mut self, es: &Vec<(String, JsonValue)>, depth: i64) -> (r: JsonValue)
        requires
            old(self).inv(),
        ensures
            final(self).inv(),
            final(self)@ == pack_obj_values(
                pack_keys(old(self)@, model_entries(es@)).0,
                model_entries(es@),
                depth as int,
            ).0,
            r@ == JVal::Array(
                pack_keys(old(self)@, model_entries(es@)).1 + pack_obj_values(
                    pack_keys(old(self)@, model_entries(es@)).0,
                    model_entries(es@),
                    depth as int,
                ).1,
            ),
        decreases entries_budget(model_entries(es@)), 2 * dnat(depth as int), 2int, model_entries(
            es@,
        ),
    {
        let ghost st0 = self@;
        let ghost mes = model_entries(es@);
        let ghost d = depth as int;
        proof {
            lemma_model_entries(es@);
            lemma_entries_budget(mes);
        }
        let mut result: Vec<JsonValue> = Vec::new();
        let mut i: usize = 0;
        proof {
            assert(mes.take(0) =~= Seq::<(Seq<char>, JVal)>::empty());
            assert(pack_keys(st0, mes.take(0)).1 == Seq::<JVal>::empty());
            assert(model_elems(result@) == Seq::<JVal>::empty());
            assert(model_elems(result@) =~= pack_keys(st0, mes.take(0)).1);
        }
        while i < es.len()
            invariant
                self.inv(),
                i <= es@.len(),
                mes == model_entries(es@),
                mes.len() == es@.len(),
                forall|j: int|
                    0 <= j < es@.len() ==> mes[j] == ((#[trigger] es@[j]).0@, es@[j].1@),
                self@ == pack_keys(st0, mes.take(i as int)).0,
                model_elems(result@) == pack_keys(st0, mes.take(i as int)).1,
            decreases es@.len() - i,
        {
            let ghost before = result@;
            let tv = JsonValue::Text(es[i].0.clone());
            let w = self.pack_value(&tv);
            let ghost wv = w@;
            result.push(w);
            proof {
                let t1 = mes.take(i as int + 1);
                assert(t1.drop_last() =~= mes.take(i as int));
                assert(t1.last() == mes[i as int]);
                assert(result@.drop_last() =~= before);
                crate::value::lemma_model_elems_snoc(result@, before);
                assert(model_elems(result@) == model_elems(before).push(wv));
                assert(model_elems(result@) =~= pack_keys(st0, t1).1);
            }
            i = i + 1;
        }
        proof {
            assert(mes.take(es@.len() as int) =~= mes);
        }
        let ghost stk = pack_keys(st0, mes).0;
        let ghost keys_out = model_elems(result@);
        let mut j: usize = 0;
        while j < es.len()
            invariant
                self.inv(),
                j <= es@.len(),
                mes == model_entries(es@),
                mes.len() == es@.len(),
                forall|k: int|
                    0 <= k < es@.len() ==> mes[k] == ((#[trigger] es@[k]).0@, es@[k].1@),
                self@ == pack_obj_values(stk, mes.take(j as int), d).0,
                model_elems(result@) == keys_out + pack_obj_values(stk, mes.take(j as int), d).1,
                d == depth as int,
            decreases es@.len() - j,
        {
            proof {
                lemma_entries_budget(mes);
                assert(decreases_to!(mes => mes[j as int]));
                assert(decreases_to!(mes[j as int] => mes[j as int].1));
                assert(decreases_to!(mes => es@[j as int].1@));
                lemma_text_budget_nonneg(es@[j as int].1@);
                assert(text_budget(es@[j as int].1@) <= entries_budget(mes));
            }
            let ghost before = result@;
            let value = &es[j].1;
            let w = match value {
                JsonValue::Object(_) => {
                    let d2: i64 = if depth >= 0 {
                        depth - 1
                    } else {
                        depth
                    };
                    self.pack_object_or_value(value, d2)
                },
                JsonValue::Array(_) => {
                    let d2: i64 = if depth >= 0 {
                        depth - 1
                    } else {
                        depth
                    };
                    self.pack_object_or_value(value, d2)
                },
                JsonValue::Text(s) => {
                    if depth > 0 {
                        self.pack_string_inner(s.as_str(), -1)
                    } else {
                        self.pack_value(value)
                    }
                },
                _ => self.pack_value(value),
            };
            let ghost wv = w@;
            result.push(w);
            proof {
                let t1 = mes.take(j as int + 1);
                assert(t1.drop_last() =~= mes.take(j as int));
                assert(t1.last() == mes[j as int]);
                assert(result@.drop_last() =~= before);
                crate::value::lemma_model_elems_snoc(result@, before);
                assert(model_elems(result@) == model_elems(before).push(wv));
                assert(model_elems(result@) =~= keys_out + pack_obj_values(stk, t1, d).1);
            }
            j = j + 1;
        }
        proof {
            assert(mes.take(es@.len() as int) =~= mes);
        }
        JsonValue::Array(result)
    }

    /// The string path below the envelope: parse as JSON and pack the value,
    /// or pack the lines behind the `STRING` tag.
    fn pack_string_inner(&mut self, s: &str, depth: i64) -> (r: JsonValue)
        requires
            old(self).inv(),
        ensures
            final(self).inv(),
            final(self)@ == pack_string_core(old(self)@, s@, depth as int).0,
            r@ == pack_string_core(old(self)@, s@, depth as int).1,
        decreases s@.len() + 1, psd(depth as int), 1int, s@,
    {
        match parse_json_text(s) {
            Some(v) => {
                proof {
                    lemma_text_budget_nonneg(v@);
                    assert(json_parse(s@) == Some(v@));
                    assert(text_budget(v@) <= s@.len());
                }
                self.pack_object_or_value(&v, depth)
            },
            None => {
                proof {
                    assert(json_parse(s@) is None);
                }
                let ghost st0 = self@;
                let ghost d = dec_depth(depth as int);
                let lines = split_to_lines(s);
                let ghost ls = split_lines(s@);
                proof {
                    assert(lines.deep_view() == ls);
                    assert(lines@.len() == ls.len());
                    assert(forall|k: int| 0 <= k < lines@.len() ==> (#[trigger] lines@[k])@ == ls[k]);
                    lemma_split_lines_budget(s@);
                    lemma_lines_budget(ls);
                }
                let d2: i64 = if depth >= 0 {
                    depth - 1
                } else {
                    depth
                };
                let mut result: Vec<JsonValue> = Vec::new();
                result.push(JsonValue::Integer(2));
                let mut i: usize = 0;
                proof {
                    assert(ls.take(0) =~= Seq::<Seq<char>>::empty());
                    assert(pack_lines(st0, ls.take(0), d).1 == Seq::<JVal>::empty());
                    assert(model_elems(Seq::<JsonValue>::empty()) == Seq::<JVal>::empty());
                    assert(result@.drop_last() =~= Seq::<JsonValue>::empty());
                    crate::value::lemma_model_elems_snoc(result@, Seq::<JsonValue>::empty());
                    assert(model_elems(result@) =~= seq![JVal::Integer(2)] + pack_lines(st0, ls.take(0), d).1);
                }
                while i < lines.len()
                    invariant
                        self.inv(),
                        i <= lines@.len(),
                        ls == split_lines(s@),
                        lines.deep_view() == ls,
                        lines@.len() == ls.len(),
                        forall|k: int|
                            0 <= k < lines@.len() ==> (#[trigger] lines@[k])@ == ls[k],
                        lines_budget(ls) <= s@.len() + 1,
                        self@ == pack_lines(st0, ls.take(i as int), d).0,
                        model_elems(result@) == seq![JVal::Integer(2)] + pack_lines(st0, ls.take(i as int), d).1,
                        d == dec_depth(depth as int),
                        d2 as int == d,
                        depth >= 0 ==> d2 as int == depth as int - 1,
                        depth < 0 ==> d2 == depth,
                    decreases lines@.len() - i,
                {
                    proof {
                        lemma_lines_budget(ls);
                        assert(ls[i as int].len() + 1 <= lines_budget(ls));
                    }
                    let ghost before = result@;
                    let w = if d2 >= 0 {
                        self.pack_string_inner(lines[i].as_str(), 0)
                    } else {
                        let tv = JsonValue::Text(lines[i].clone());
                        self.pack_value(&tv)
                    };
                    let ghost wv = w@;
                    result.push(w);
                    proof {
                        let t1 = ls.take(i as int + 1);
                        assert(t1.drop_last() =~= ls.take(i as int));
                        assert(t1.last() == ls[i as int]);
                        assert(result@.drop_last() =~= before);
                        crate::value::lemma_model_elems_snoc(result@, before);
                        assert(model_elems(result@) == model_elems(before).push(wv));
                        assert(model_elems(result@) =~= seq![JVal::Integer(2)] + pack_lines(st0, t1, d).1);
                    }
                    i = i + 1;
                }
                proof {
                    assert(ls.take(ls.len() as int) =~= ls);
                }
                JsonValue::Array(result)
            },
        }
    }

    /// Pack a value: the full walk, then — unless the caller asked for a
    /// bare payload — the envelope with the next sequence id. Never fails.
    pub fn pack(&mut self, object: &JsonValue, options: &PackOptions) -> (r: Result<
        JsonValue,
        PackerError,
    >)
        requires
            old(self).inv(),
            options.no_sequence_id || old(self)@.sequence_id < i64::MAX,
        ensures
            final(self).inv(),
            r is Ok,
            final(self)@ == pack_spec(
                old(self)@,
                object@,
                options.pack_string_depth as int,
                options.no_sequence_id,
            ).0,
            r matches Ok(w) ==> w@ == pack_spec(
                old(self)@,
                object@,
                options.pack_string_depth as int,
                options.no_sequence_id,
            ).1,
    {
        let e = self.pack_object_or_value(object, options.pack_string_depth as i64);
        if options.no_sequence_id {
            return Ok(e);
        }
        proof {
            lemma_walk_keeps_frame(old(self)@, object@, options.pack_string_depth as int);
        }
        Ok(self.add_sequence_id(e))
    }

    /// Pack a text so that it comes back as a string: multi-line texts are
    /// split into packed line fragments, JSON texts are packed as the value
    /// they spell. Never fails.
    pub fn pack_string(&mut self, string_to_pack: &str, options: &PackOptions) -> (r: Result<
        JsonValue,
        PackerError,
    >)
        requires
            old(self).inv(),
            options.no_sequence_id || old(self)@.sequence_id < i64::MAX,
        ensures
            final(self).inv(),
            r is Ok,
            final(self)@ == pack_string_spec(
                old(self)@,
                string_to_pack@,
                options.pack_string_depth as int,
                options.no_sequence_id,
            ).0,
            r matches Ok(w) ==> w@ == pack_string_spec(
                old(self)@,
                string_to_pack@,
                options.pack_string_depth as int,
                options.no_sequence_id,
            ).1,
    {
        let e = self.pack_string_inner(string_to_pack, options.pack_string_depth as i64);
        if options.no_sequence_id {
            return Ok(e);
        }
        proof {
            lemma_string_core_keeps_frame(
                old(self)@,
                string_to_pack@,
                options.pack_string_depth as int,
            );
        }
        Ok(self.add_sequence_id(e))
    }
}

} // verus!
