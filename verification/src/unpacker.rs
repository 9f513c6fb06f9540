//! The decoder: reads the compact wire form back, rebuilding the same
//! bounded dictionary that the encoder keeps, in lock-step from the traffic
//! alone.

use crate::text::decode_lit;
use crate::text::decode_literal;
use crate::text::is_float_lit;
use crate::text::is_float_text;
use crate::text::is_int_lit;
use crate::text::int_lit_val;
use crate::text::join_lines;
use crate::text::json_text;
use crate::text::parse_int_lit;
use crate::text::strip_tilde;
use crate::text::strip_tilde_str;
use crate::text::to_json_text;
use crate::value::JVal;
use crate::value::JsonValue;
use crate::value::lemma_model_elems;
use crate::value::lemma_model_elems_snoc;
use crate::value::lemma_model_entries;
use crate::value::model_elems;
use crate::value::model_entries;
use vstd::map::*;
use vstd::prelude::*;
use vstd::string::StringExecFns;

verus! {

/// The first dictionary slot; `0`, `1` and `2` are the structural type tags.
pub const MIN_DICT_INDEX: u64 = 3;

/// The reason an `unpack` call failed. The cause is one of a fixed set of
/// sentences that the contracts name exactly.
#[derive(Debug, Clone)]
pub struct UnpackerError {
    pub cause: String,
}

/// The decoder's whole state, mathematically: the slot map from indices to
/// stored literals, the slot pointer, the sequence counter, and the
/// dictionary bound.
pub struct UnpackState {
    pub dict: Map<int, Seq<char>>,
    pub idx: int,
    pub sequence_id: int,
    pub max_dict_size: int,
}

impl UnpackState {
    pub open spec fn wf(self) -> bool {
        &&& 0 <= self.max_dict_size <= i64::MAX - 3
        &&& crate::packer::in_slot_range(self.idx, self.max_dict_size)
        &&& -1 <= self.sequence_id <= i64::MAX
        &&& forall|i: int| #[trigger] self.dict.contains_key(i) ==> 3 <= i <= i64::MAX
    }

    /// Changing the dictionary bound: stored literals are kept — a stale
    /// slot is simply never referenced by a compliant encoder — but a
    /// pointer stranded beyond the new range is rewound to the first slot,
    /// exactly as the encoder rewinds its own.
    pub open spec fn set_bound(self, m: int) -> UnpackState {
        UnpackState {
            max_dict_size: m,
            idx: if crate::packer::in_slot_range(self.idx, m) {
                self.idx
            } else {
                3
            },
            ..self
        }
    }

    /// Storing one literal at the slot under the pointer, advancing and
    /// wrapping exactly as the encoder does.
    pub open spec fn dict_set(self, lit: Seq<char>) -> UnpackState {
        UnpackState {
            dict: self.dict.insert(self.idx, lit),
            idx: if self.idx + 1 >= 3 + self.max_dict_size {
                3
            } else {
                self.idx + 1
            },
            ..self
        }
    }
}

/// The slot map read off the table.
pub open spec fn dict_of(entries: Seq<(u64, String)>) -> Map<int, Seq<char>>
    decreases entries.len(),
{
    if entries.len() == 0 {
        Map::empty()
    } else {
        dict_of(entries.drop_last()).insert(entries.last().0 as int, entries.last().1@)
    }
}

/// No two entries share a slot.
pub open spec fn dict_entries_distinct(entries: Seq<(u64, String)>) -> bool {
    forall|i: int, j: int|
        0 <= i < j < entries.len() ==> (#[trigger] entries[i]).0 != (#[trigger] entries[j]).0
}

/// With distinct slots the map holds exactly the table's entries.
pub proof fn lemma_dict_map(entries: Seq<(u64, String)>)
    requires
        dict_entries_distinct(entries),
    ensures
        forall|s: int| #[trigger]
            dict_of(entries).contains_key(s) <==> exists|i: int|
                0 <= i < entries.len() && (#[trigger] entries[i]).0 as int == s,
        forall|i: int|
            0 <= i < entries.len() ==> dict_of(entries).contains_key(
                (#[trigger] entries[i]).0 as int,
            ) && dict_of(entries)[entries[i].0 as int] == entries[i].1@,
    decreases entries.len(),
{
    if entries.len() > 0 {
        let pre = entries.drop_last();
        let n = entries.len() - 1;
        assert(dict_entries_distinct(pre));
        lemma_dict_map(pre);
        assert(forall|i: int| 0 <= i < n ==> pre[i] == #[trigger] entries[i]);
        assert(entries.last() == entries[n]);
        assert forall|s: int| #[trigger] dict_of(entries).contains_key(s) implies exists|i: int|
            0 <= i < entries.len() && (#[trigger] entries[i]).0 as int == s by {
            if s == entries[n].0 as int {
                assert(entries[n].0 as int == s);
            } else {
                assert(dict_of(pre).contains_key(s));
                let i = choose|i: int| 0 <= i < pre.len() && (#[trigger] pre[i]).0 as int == s;
                assert(entries[i].0 as int == s);
            }
        }
    }
}

/// The decoder. One slot table, the slot pointer, the sequence counter and
/// the bound.
#[derive(Debug)]
pub struct Unpacker {
    dict: Vec<(u64, String)>,
    dict_index: u64,
    sequence_id: i64,
    max_dict_size: u64,
}

impl View for Unpacker {
    type V = UnpackState;

    closed spec fn view(&self) -> UnpackState {
        UnpackState {
            dict: dict_of(self.dict@),
            idx: self.dict_index as int,
            sequence_id: self.sequence_id as int,
            max_dict_size: self.max_dict_size as int,
        }
    }
}

impl Unpacker {
    /// The slot table never repeats a slot, and the state it denotes is
    /// well-formed.
    pub closed spec fn inv(self) -> bool {
        dict_entries_distinct(self.dict@) && self@.wf()
    }

    /// A fresh decoder: empty dictionary, pointer at the first slot,
    /// counter one before the first message, default bound.
    pub fn new() -> (r: Unpacker)
        ensures
            r.inv(),
            r@.dict == Map::<int, Seq<char>>::empty(),
            r@.idx == 3,
            r@.sequence_id == -1,
            r@.max_dict_size == 2000,
    {
        Unpacker { dict: Vec::new(), dict_index: MIN_DICT_INDEX, sequence_id: -1, max_dict_size: 2000 }
    }

    /// Set the dictionary bound. It must match the encoder's, and it is
    /// meant to be set before any decoding; set later, it rewinds a
    /// stranded pointer exactly as the encoder does.
    pub fn set_max_dict_size(&mut self, value: u64)
        requires
            old(self).inv(),
            value <= i64::MAX - 3,
        ensures
            final(self).inv(),
            final(self)@ == old(self)@.set_bound(value as int),
    {
        proof {
            assert(old(self)@.wf());
            assert(crate::packer::in_slot_range(old(self)@.idx, old(self)@.max_dict_size));
        }
        if !(self.dict_index == MIN_DICT_INDEX || self.dict_index < value + MIN_DICT_INDEX) {
            self.dict_index = MIN_DICT_INDEX;
        }
        self.max_dict_size = value;
        proof {
            assert(crate::packer::in_slot_range(self@.idx, value as int));
            assert(self@.dict == old(self)@.dict);
            assert(self@.sequence_id == old(self)@.sequence_id);
            assert(self@.wf());
            assert(self@ == old(self)@.set_bound(value as int));
        }
    }

    /// The literal stored at `slot`, if any.
    fn find_slot(&self, slot: u64) -> (r: Option<&String>)
        requires
            self.inv(),
        ensures
            match r {
                Some(lit) => self@.dict.contains_key(slot as int) && lit@ == self@.dict[slot as int],
                None => !self@.dict.contains_key(slot as int),
            },
    {
        proof {
            lemma_dict_map(self.dict@);
        }
        let mut j: usize = 0;
        while j < self.dict.len()
            invariant
                self.inv(),
                j <= self.dict@.len(),
                forall|i: int| 0 <= i < j ==> (#[trigger] self.dict@[i]).0 != slot,
            decreases self.dict@.len() - j,
        {
            if self.dict[j].0 == slot {
                proof {
                    lemma_dict_map(self.dict@);
                }
                return Some(&self.dict[j].1);
            }
            j = j + 1;
        }
        proof {
            lemma_dict_map(self.dict@);
            if self@.dict.contains_key(slot as int) {
                let i = choose|i: int|
                    0 <= i < self.dict@.len() && (#[trigger] self.dict@[i]).0 as int
                        == slot as int;
                assert(false);
            }
        }
        None
    }

    /// Store `lit` at the slot under the pointer and advance it, exactly as
    /// the encoder advances its own.
    fn add_to_dict(&mut self, str_value: String)
        requires
            old(self).inv(),
        ensures
            final(self).inv(),
            final(self)@ == old(self)@.dict_set(str_value@),
    {
        let ghost st = self@;
        let ghost want = st.dict_set(str_value@);
        let entry = (self.dict_index, str_value);
        let ghost e = entry;
        let mut pos: usize = 0;
        let mut found = false;
        while pos < self.dict.len() && !found
            invariant
                self.inv(),
                pos <= self.dict@.len(),
                !found ==> forall|i: int|
                    0 <= i < pos ==> (#[trigger] self.dict@[i]).0 != self.dict_index_spec(),
                found ==> pos < self.dict@.len() && self.dict@[pos as int].0
                    == self.dict_index_spec(),
            decreases self.dict@.len() - pos + (if found { 0int } else { 1int }),
        {
            if self.dict[pos].0 == self.dict_index {
                found = true;
            } else {
                pos = pos + 1;
            }
        }
        if found {
            self.dict[pos] = entry;
            proof {
                let old_entries = old(self).dict@;
                let new_entries = self.dict@;
                assert(new_entries == old_entries.update(pos as int, e));
                assert(forall|i: int|
                    0 <= i < new_entries.len() && i != pos ==> #[trigger] new_entries[i]
                        == old_entries[i]);
                assert(dict_entries_distinct(new_entries)) by {
                    assert forall|i: int, j: int| 0 <= i < j < new_entries.len() implies (
                    #[trigger] new_entries[i]).0 != (#[trigger] new_entries[j]).0 by {}
                }
                lemma_dict_map(old_entries);
                lemma_dict_map(new_entries);
                assert_maps_equal!(dict_of(new_entries), want.dict, s => {
                    if dict_of(new_entries).contains_key(s) {
                        let i = choose|i: int|
                            0 <= i < new_entries.len() && (#[trigger] new_entries[i]).0 as int == s;
                        if i == pos as int {
                            assert(s == st.idx);
                        } else {
                            assert(old_entries[i].0 as int == s);
                        }
                    }
                    if want.dict.contains_key(s) {
                        if s == st.idx {
                            assert(new_entries[pos as int].0 as int == s);
                        } else {
                            let i = choose|i: int|
                                0 <= i < old_entries.len() && (#[trigger] old_entries[i]).0 as int
                                    == s;
                            assert(i != pos as int);
                            assert(new_entries[i].0 as int == s);
                        }
                    }
                });
            }
        } else {
            self.dict.push(entry);
            proof {
                let old_entries = old(self).dict@;
                let new_entries = self.dict@;
                let n = old_entries.len() as int;
                assert(forall|i: int|
                    0 <= i < n ==> #[trigger] new_entries[i] == old_entries[i]);
                assert(new_entries[n] == e);
                assert(dict_entries_distinct(new_entries)) by {
                    assert forall|i: int, j: int| 0 <= i < j < new_entries.len() implies (
                    #[trigger] new_entries[i]).0 != (#[trigger] new_entries[j]).0 by {}
                }
                lemma_dict_map(old_entries);
                lemma_dict_map(new_entries);
                assert_maps_equal!(dict_of(new_entries), want.dict, s => {
                    if dict_of(new_entries).contains_key(s) {
                        let i = choose|i: int|
                            0 <= i < new_entries.len() && (#[trigger] new_entries[i]).0 as int == s;
                        if i == n {
                            assert(s == st.idx);
                        } else {
                            assert(old_entries[i].0 as int == s);
                        }
                    }
                    if want.dict.contains_key(s) {
                        if s == st.idx {
                            assert(new_entries[n].0 as int == s);
                        } else {
                            let i = choose|i: int|
                                0 <= i < old_entries.len() && (#[trigger] old_entries[i]).0 as int
                                    == s;
                            assert(new_entries[i].0 as int == s);
                        }
                    }
                });
            }
        }
        let next = self.dict_index + 1;
        if next >= self.max_dict_size + MIN_DICT_INDEX {
            self.dict_index = MIN_DICT_INDEX;
        } else {
            self.dict_index = next;
        }
    }

    /// The slot pointer, for contracts of the private helpers.
    closed spec fn dict_index_spec(&self) -> u64 {
        self.dict_index
    }
}

pub open spec fn msg_packed_value_expected() -> Seq<char> {
    "packed value expected"@
}

pub open spec fn msg_out_of_sequence() -> Seq<char> {
    "message unpacked out of sequence or already unpacked"@
}

pub open spec fn msg_no_stored_value() -> Seq<char> {
    "no stored value"@
}

pub open spec fn msg_unknown() -> Seq<char> {
    "unknown"@
}

pub open spec fn msg_wrong_packed_object() -> Seq<char> {
    "wrong packed object"@
}

pub open spec fn msg_unable_to_unpack() -> Seq<char> {
    "unable to unpack to specific type"@
}

/// An executable result agrees with the specification's: the same case,
/// the same decoded value or the same cause.
pub open spec fn matches_result<T: View>(r: Result<T, UnpackerError>, s: Result<
    T::V,
    Seq<char>,
>) -> bool {
    match r {
        Ok(v) => s matches Ok(d) && v@ == d,
        Err(e) => s matches Err(m) && e.cause@ == m,
    }
}

/// Decoding one scalar: a non-negative number is a backreference to a
/// stored literal, which is reparsed under the full number grammars; text
/// that spells a number on first sight is that number, and is stored; any
/// other text loses one leading tilde and is stored; booleans and nulls
/// pass through and store nothing.
pub open spec fn unpack_value_spec(st: UnpackState, w: JVal) -> (UnpackState, Result<
    JVal,
    Seq<char>,
>) {
    match w {
        JVal::Integer(i) => if i < 0 {
            (st, Err(msg_unknown()))
        } else if st.dict.contains_key(i) {
            (st, Ok(decode_lit(st.dict[i])))
        } else {
            (st, Err(msg_no_stored_value()))
        },
        JVal::NumberText(t) => (st, Err(msg_unknown())),
        JVal::Text(s) => if is_float_lit(s) {
            (st.dict_set(s), Ok(JVal::NumberText(s)))
        } else if is_int_lit(s) {
            (st.dict_set(s), Ok(JVal::Integer(int_lit_val(s))))
        } else {
            (st.dict_set(strip_tilde(s)), Ok(JVal::Text(strip_tilde(s))))
        },
        _ => (st, Ok(w)),
    }
}

/// The strings of a decoded fragment list, if every fragment is a string.
pub open spec fn texts_of(ds: Seq<JVal>) -> Option<Seq<Seq<char>>>
    decreases ds.len(),
{
    if ds.len() == 0 {
        Some(Seq::empty())
    } else {
        match texts_of(ds.drop_last()) {
            Some(ls) => match ds.last() {
                JVal::Text(s) => Some(ls.push(s)),
                _ => None,
            },
            None => None,
        }
    }
}

/// The key a decoded element contributes: its characters when it is a
/// string, its JSON text otherwise.
pub open spec fn key_text_of(v: JVal) -> Seq<char> {
    match v {
        JVal::Text(s) => s,
        _ => json_text(v),
    }
}

/// Putting one pair into an object: an existing key keeps its place and
/// takes the new value; a new key goes to the end.
pub open spec fn obj_insert(es: Seq<(Seq<char>, JVal)>, k: Seq<char>, v: JVal) -> Seq<
    (Seq<char>, JVal),
>
    decreases es.len(),
{
    if es.len() == 0 {
        seq![(k, v)]
    } else if es[0].0 == k {
        seq![(k, v)] + es.drop_first()
    } else {
        seq![es[0]] + obj_insert(es.drop_first(), k, v)
    }
}

/// The first `i` key/value pairs of a decoded object payload: the payload
/// splits in the middle, keys pair with the value the same distance into
/// the second half.
pub open spec fn pairs_upto(ds: Seq<JVal>, i: int) -> Seq<(Seq<char>, JVal)>
    decreases i,
{
    if i <= 0 {
        Seq::empty()
    } else {
        obj_insert(pairs_upto(ds, i - 1), key_text_of(ds[i - 1]), ds[i - 1 + ds.len() / 2])
    }
}

pub open spec fn pair_object(ds: Seq<JVal>) -> Seq<(Seq<char>, JVal)> {
    pairs_upto(ds, ds.len() as int / 2)
}

/// Decoding one encoded value: a leading `0` tag is an array, `2` a string
/// whose fragments join with line feeds, `1` a wrapped scalar; any other
/// array is an object payload, split in the middle; anything else is a
/// scalar.
pub open spec fn unpack_object_spec(st: UnpackState, w: JVal) -> (UnpackState, Result<
    JVal,
    Seq<char>,
>)
    decreases w via unpack_object_spec_decreases
{
    match w {
        JVal::Null => (st, Ok(JVal::Null)),
        JVal::Array(es) => {
            if es.len() == 0 {
                (st, Ok(JVal::Object(Seq::empty())))
            } else {
                let tag: int = match es[0] {
                    JVal::Integer(i) => i,
                    _ => -1,
                };
                if tag == 0 {
                    let r = unpack_seq_spec(st, es.drop_first());
                    match r.1 {
                        Ok(ds) => (r.0, Ok(JVal::Array(ds))),
                        Err(e) => (r.0, Err(e)),
                    }
                } else if tag == 2 {
                    let r = unpack_seq_spec(st, es.drop_first());
                    match r.1 {
                        Ok(ds) => match texts_of(ds) {
                            Some(ls) => (r.0, Ok(JVal::Text(join_lines(ls)))),
                            None => (r.0, Err(msg_wrong_packed_object())),
                        },
                        Err(e) => (r.0, Err(e)),
                    }
                } else if tag == 1 {
                    if es.len() < 2 {
                        (st, Err(msg_wrong_packed_object()))
                    } else {
                        unpack_value_spec(st, es[1])
                    }
                } else {
                    let r = unpack_seq_spec(st, es);
                    match r.1 {
                        Ok(ds) => (r.0, Ok(JVal::Object(pair_object(ds)))),
                        Err(e) => (r.0, Err(e)),
                    }
                }
            }
        },
        _ => unpack_value_spec(st, w),
    }
}

#[via_fn]
proof fn unpack_object_spec_decreases(st: UnpackState, w: JVal) {
    match w {
        JVal::Array(es) => {
            assert(decreases_to!(w => es));
            if es.len() > 0 {
                assert(decreases_to!(es => es.drop_first()));
            }
        },
        _ => {},
    }
}

/// Decoding a run of encoded elements in order, stopping at the first
/// failure with the state it left behind.
pub open spec fn unpack_seq_spec(st: UnpackState, es: Seq<JVal>) -> (UnpackState, Result<
    Seq<JVal>,
    Seq<char>,
>)
    decreases es via unpack_seq_spec_decreases
{
    if es.len() == 0 {
        (st, Ok(Seq::empty()))
    } else {
        let r1 = unpack_seq_spec(st, es.drop_last());
        match r1.1 {
            Err(e) => (r1.0, Err(e)),
            Ok(ds) => {
                let r2 = unpack_object_spec(r1.0, es.last());
                match r2.1 {
                    Err(e) => (r2.0, Err(e)),
                    Ok(d) => (r2.0, Ok(ds.push(d))),
                }
            },
        }
    }
}

#[via_fn]
proof fn unpack_seq_spec_decreases(st: UnpackState, es: Seq<JVal>) {
    if es.len() > 0 {
        assert(decreases_to!(es => es.drop_last()));
        assert(decreases_to!(es => es[es.len() - 1]));
    }
}

/// An error anywhere in a prefix is the result of the whole run.
pub proof fn lemma_seq_spec_error_persists(st: UnpackState, es: Seq<JVal>, j: int)
    requires
        0 <= j <= es.len(),
        unpack_seq_spec(st, es.take(j)).1 is Err,
    ensures
        unpack_seq_spec(st, es) == (unpack_seq_spec(st, es.take(j)).0, unpack_seq_spec(st, es.take(j)).1),
    decreases es.len(),
{
    if j == es.len() {
        assert(es.take(j) =~= es);
    } else {
        assert(es.drop_last().take(j) =~= es.take(j));
        lemma_seq_spec_error_persists(st, es.drop_last(), j);
    }
}

/// The whole message: strip the trailing sequence id, honour `0` as the
/// reset marker or demand the successor of the current counter, decode the
/// rest, and advance the counter only when decoding succeeded.
pub open spec fn unpack_spec(st: UnpackState, w: JVal) -> (UnpackState, Result<JVal, Seq<char>>) {
    match w {
        JVal::Null => (st, Ok(JVal::Null)),
        JVal::Array(es) => {
            if es.len() == 0 {
                (st, Err(msg_packed_value_expected()))
            } else {
                match es.last() {
                    JVal::Integer(remote) => {
                        if remote != 0 && remote != st.sequence_id + 1 {
                            (st, Err(msg_out_of_sequence()))
                        } else {
                            let st1 = if remote == 0 {
                                UnpackState { idx: 3, ..st }
                            } else {
                                st
                            };
                            let r = unpack_object_spec(st1, JVal::Array(es.drop_last()));
                            match r.1 {
                                Ok(v) => (UnpackState { sequence_id: remote, ..r.0 }, Ok(v)),
                                Err(e) => (r.0, Err(e)),
                            }
                        }
                    },
                    _ => (st, Err(msg_packed_value_expected())),
                }
            }
        },
        _ => (st, Err(msg_packed_value_expected())),
    }
}

/// A fragment that is not a string spoils the whole fragment list.
pub proof fn lemma_texts_of_none(ds: Seq<JVal>, k: int)
    requires
        0 <= k < ds.len(),
        !(ds[k] is Text),
    ensures
        texts_of(ds) is None,
    decreases ds.len(),
{
    if k < ds.len() - 1 {
        lemma_texts_of_none(ds.drop_last(), k);
    }
}

/// Where the key already stands, `obj_insert` replaces that pair in place.
pub proof fn lemma_obj_insert_found(es: Seq<(Seq<char>, JVal)>, pos: int, k: Seq<char>, v: JVal)
    requires
        0 <= pos < es.len(),
        es[pos].0 == k,
        forall|i: int| 0 <= i < pos ==> (#[trigger] es[i]).0 != k,
    ensures
        obj_insert(es, k, v) == es.update(pos, (k, v)),
    decreases pos,
{
    if pos == 0 {
        assert(seq![(k, v)] + es.drop_first() =~= es.update(0, (k, v)));
    } else {
        assert(forall|i: int| 0 <= i < es.len() - 1 ==> es.drop_first()[i] == #[trigger] es[i + 1]);
        assert(es.drop_first()[pos - 1].0 == k);
        assert(forall|i: int| 0 <= i < pos - 1 ==> (#[trigger] es.drop_first()[i]).0 != k);
        lemma_obj_insert_found(es.drop_first(), pos - 1, k, v);
        assert(seq![es[0]] + es.drop_first().update(pos - 1, (k, v)) =~= es.update(pos, (k, v)));
    }
}

/// Where the key is new, `obj_insert` appends the pair.
pub proof fn lemma_obj_insert_missing(es: Seq<(Seq<char>, JVal)>, k: Seq<char>, v: JVal)
    requires
        forall|i: int| 0 <= i < es.len() ==> (#[trigger] es[i]).0 != k,
    ensures
        obj_insert(es, k, v) == es.push((k, v)),
    decreases es.len(),
{
    if es.len() == 0 {
        assert(seq![(k, v)] =~= es.push((k, v)));
    } else {
        assert(forall|i: int| 0 <= i < es.len() - 1 ==> es.drop_first()[i] == #[trigger] es[i + 1]);
        lemma_obj_insert_missing(es.drop_first(), k, v);
        assert(seq![es[0]] + es.drop_first().push((k, v)) =~= es.push((k, v)));
    }
}

/// Joins decoded string fragments with line feeds; fails when a fragment
/// is not a string.
fn join_fragments(ds: &Vec<JsonValue>) -> (r: Result<String, UnpackerError>)
    ensures
        match texts_of(model_elems(ds@)) {
            Some(ls) => r matches Ok(s) && s@ == join_lines(ls),
            None => r matches Err(e) && e.cause@ == msg_wrong_packed_object(),
        },
{
    broadcast use lemma_model_elems;

    let ghost dsm = model_elems(ds@);
    let mut out = String::new();
    let mut k: usize = 0;
    proof {
        assert(dsm.take(0) =~= Seq::<JVal>::empty());
        assert(texts_of(dsm.take(0)) == Some(Seq::<Seq<char>>::empty()));
    }
    while k < ds.len()
        invariant
            k <= ds@.len(),
            dsm == model_elems(ds@),
            dsm.len() == ds@.len(),
            forall|j: int| 0 <= j < ds@.len() ==> dsm[j] == ds@[j]@,
            texts_of(dsm.take(k as int)) matches Some(ls) && out@ == join_lines(ls),
        decreases ds@.len() - k,
    {
        let ghost ls = texts_of(dsm.take(k as int))->Some_0;
        match &ds[k] {
            JsonValue::Text(s) => {
                if k > 0 {
                    out.append("\n");
                    proof {
                        reveal_strlit("\n");
                    }
                }
                out.append(s.as_str());
                proof {
                    let t1 = dsm.take(k as int + 1);
                    assert(t1.drop_last() =~= dsm.take(k as int));
                    assert(t1.last() == dsm[k as int]);
                    assert(texts_of(t1) == Some(ls.push(s@)));
                    assert(ls.push(s@).drop_last() =~= ls);
                    assert(ls.push(s@).last() == s@);
                    if k == 0 {
                        assert(ls.len() == 0);
                        assert(dsm.take(0) =~= Seq::<JVal>::empty());
                        assert(join_lines(ls.push(s@)) == s@);
                        assert(out@ =~= s@);
                    } else {
                        assert(ls.len() > 0);
                        assert(join_lines(ls.push(s@)) == join_lines(ls) + seq!['\n'] + s@);
                        assert(out@ =~= join_lines(ls) + seq!['\n'] + s@);
                    }
                }
            },
            _ => {
                proof {
                    lemma_texts_of_none(dsm, k as int);
                }
                return Err(UnpackerError { cause: "wrong packed object".to_owned() });
            },
        }
        k = k + 1;
    }
    proof {
        assert(dsm.take(ds@.len() as int) =~= dsm);
    }
    Ok(out)
}

/// Pairs a decoded object payload up: the first half are the keys, the
/// second half the values, a repeated key keeps its place and takes the
/// later value.
#[verifier::loop_isolation(false)]
fn pair_up(ds: &Vec<JsonValue>) -> (r: Vec<(String, JsonValue)>)
    ensures
        model_entries(r@) == pair_object(model_elems(ds@)),
{
    broadcast use lemma_model_elems;

    let ghost dsm = model_elems(ds@);
    let key_count = ds.len() / 2;
    let mut obj: Vec<(String, JsonValue)> = Vec::new();
    let mut i: usize = 0;
    proof {
        assert(model_entries(obj@) =~= pairs_upto(dsm, 0));
    }
    while i < key_count
        invariant
            i <= key_count,
            key_count == ds@.len() / 2,
            dsm == model_elems(ds@),
            dsm.len() == ds@.len(),
            forall|j: int| 0 <= j < ds@.len() ==> dsm[j] == ds@[j]@,
            model_entries(obj@) == pairs_upto(dsm, i as int),
        decreases key_count - i,
    {
        let ghost before = model_entries(obj@);
        let key: String = match &ds[i] {
            JsonValue::Text(s) => s.clone(),
            other => to_json_text(other),
        };
        proof {
            assert(key@ == key_text_of(dsm[i as int]));
        }
        proof {
            assert(key_count + key_count <= ds@.len()) by (nonlinear_arith)
                requires
                    key_count == ds@.len() / 2,
            ;
            assert(i + key_count < ds@.len());
        }
        let value = ds[i + key_count].duplicate();
        let ghost vv = value@;
        let mut p: usize = 0;
        let mut found = false;
        while p < obj.len() && !found
            invariant
                p <= obj@.len(),
                forall|q: int| 0 <= q < p ==> (#[trigger] obj@[q]).0@ != key@,
                found ==> p < obj@.len() && obj@[p as int].0@ == key@,
            decreases obj@.len() - p + (if found { 0int } else { 1int }),
        {
            if obj[p].0 == key {
                found = true;
            } else {
                p = p + 1;
            }
        }
        if found {
            proof {
                lemma_model_entries(obj@);
                assert forall|q: int| 0 <= q < p implies (#[trigger] before[q]).0 != key@ by {
                    assert(before[q] == (obj@[q].0@, obj@[q].1.model()));
                    assert(obj@[q].0@ != key@);
                }
                assert(before[p as int].0 == key@);
                lemma_obj_insert_found(before, p as int, key@, vv);
            }
            obj[p] = (key, value);
            proof {
                lemma_model_entries(obj@);
                assert(model_entries(obj@) =~= before.update(p as int, (key@, vv)));
            }
        } else {
            proof {
                lemma_model_entries(obj@);
                assert forall|q: int| 0 <= q < before.len() implies (#[trigger] before[q]).0
                    != key@ by {
                    assert(before[q] == (obj@[q].0@, obj@[q].1.model()));
                    assert(obj@[q].0@ != key@);
                }
                lemma_obj_insert_missing(before, key@, vv);
            }
            obj.push((key, value));
            proof {
                lemma_model_entries(obj@);
                assert(model_entries(obj@) =~= before.push((key@, vv)));
            }
        }
        proof {
            assert(model_entries(obj@) == obj_insert(before, key_text_of(dsm[i as int]), dsm[i as int + dsm.len() as int / 2]));
        }
        i = i + 1;
    }
    obj
}

impl Unpacker {
    /// Decoding one scalar, exactly as `unpack_value_spec` describes it.
    fn unpack_value(&mut self, packed_object: &JsonValue) -> (r: Result<JsonValue, UnpackerError>)
        requires
            old(self).inv(),
        ensures
            final(self).inv(),
            final(self)@ == unpack_value_spec(old(self)@, packed_object@).0,
            matches_result(r, unpack_value_spec(old(self)@, packed_object@).1),
    {
        match packed_object {
            JsonValue::Integer(i) => {
                if *i < 0 {
                    return Err(UnpackerError { cause: "unknown".to_owned() });
                }
                let looked = self.find_slot(*i as u64);
                match looked {
                    Some(lit) => {
                        let decoded = decode_literal(lit.as_str());
                        Ok(decoded)
                    },
                    None => Err(UnpackerError { cause: "no stored value".to_owned() }),
                }
            },
            JsonValue::NumberText(_) => Err(UnpackerError { cause: "unknown".to_owned() }),
            JsonValue::Text(s) => {
                if is_float_text(s.as_str()) {
                    let out = s.clone();
                    self.add_to_dict(s.clone());
                    Ok(JsonValue::NumberText(out))
                } else {
                    match parse_int_lit(s.as_str()) {
                        Some(v) => {
                            self.add_to_dict(s.clone());
                            Ok(JsonValue::Integer(v))
                        },
                        None => {
                            let stripped = strip_tilde_str(s.as_str());
                            let out = stripped.clone();
                            self.add_to_dict(stripped);
                            Ok(JsonValue::Text(out))
                        },
                    }
                }
            },
            other => Ok(other.duplicate()),
        }
    }

    /// Decoding the elements of `es` from position `from` on, in order,
    /// stopping at the first failure.
    #[verifier::loop_isolation(false)]
    fn unpack_elements(&mut self, es: &Vec<JsonValue>, from: usize) -> (r: Result<
        Vec<JsonValue>,
        UnpackerError,
    >)
        requires
            old(self).inv(),
            from <= es@.len(),
        ensures
            final(self).inv(),
            final(self)@ == unpack_seq_spec(old(self)@, model_elems(es@).skip(from as int)).0,
            match r {
                Ok(ds) => unpack_seq_spec(old(self)@, model_elems(es@).skip(from as int)).1
                    matches Ok(dsm) && model_elems(ds@) == dsm,
                Err(e) => unpack_seq_spec(old(self)@, model_elems(es@).skip(from as int)).1
                    matches Err(m) && e.cause@ == m,
            },
        decreases model_elems(es@),
    {
        broadcast use lemma_model_elems;

        let ghost st0 = self@;
        let ghost ms = model_elems(es@);
        let ghost sub = ms.skip(from as int);
        let mut out: Vec<JsonValue> = Vec::new();
        let mut i: usize = from;
        proof {
            assert(sub.take(0) =~= Seq::<JVal>::empty());
            assert(model_elems(out@) =~= Seq::<JVal>::empty());
        }
        while i < es.len()
            invariant
                from <= i <= es@.len(),
                self.inv(),
                self@ == unpack_seq_spec(st0, sub.take(i - from)).0,
                unpack_seq_spec(st0, sub.take(i - from)).1 matches Ok(dsm) && model_elems(out@)
                    == dsm,
            decreases es@.len() - i,
        {
            proof {
                assert(decreases_to!(ms => ms[i as int]));
                assert(decreases_to!(ms => es@[i as int]@));
            }
            let ghost before = model_elems(out@);
            let dr = self.unpack_object(&es[i]);
            proof {
                let t1 = sub.take(i - from + 1);
                assert(t1.drop_last() =~= sub.take(i - from));
                assert(t1.last() == sub[i - from]);
                assert(sub[i - from] == ms[i as int]);
            }
            match dr {
                Ok(d) => {
                    let ghost dv = d@;
                    out.push(d);
                    proof {
                        assert(out@.drop_last() =~= out@.subrange(0, out@.len() - 1));
                        crate::value::lemma_model_elems_snoc(out@, out@.drop_last());
                        assert(model_elems(out@) == before.push(dv));
                    }
                },
                Err(e) => {
                    proof {
                        let t1 = sub.take(i - from + 1);
                        assert(unpack_seq_spec(st0, t1).1 is Err);
                        lemma_seq_spec_error_persists(st0, sub, i - from + 1);
                    }
                    return Err(e);
                },
            }
            i = i + 1;
        }
        proof {
            assert(sub.take(es@.len() - from) =~= sub);
        }
        Ok(out)
    }

    /// Decoding one encoded value, exactly as `unpack_object_spec`
    /// describes it.
    #[verifier::loop_isolation(false)]
    fn unpack_object(&mut self, packed_object: &JsonValue) -> (r: Result<JsonValue, UnpackerError>)
        requires
            old(self).inv(),
        ensures
            final(self).inv(),
            final(self)@ == unpack_object_spec(old(self)@, packed_object@).0,
            matches_result(r, unpack_object_spec(old(self)@, packed_object@).1),
        decreases packed_object@,
    {
        broadcast use lemma_model_elems;

        match packed_object {
            JsonValue::Null => Ok(JsonValue::Null),
            JsonValue::Array(es) => {
                let ghost ms = model_elems(es@);
                proof {
                    match packed_object@ {
                        JVal::Array(inner) => {
                            assert(decreases_to!(packed_object@ => inner));
                            assert(inner == ms);
                        },
                        _ => {
                            assert(false);
                        },
                    }
                }
                if es.len() == 0 {
                    let empty_entries: Vec<(String, JsonValue)> = Vec::new();
                    proof {
                        assert(model_entries(empty_entries@) =~= Seq::<(Seq<char>, JVal)>::empty());
                    }
                    return Ok(JsonValue::Object(empty_entries));
                }
                let tag: i64 = match &es[0] {
                    JsonValue::Integer(i) => *i,
                    _ => -1,
                };
                proof {
                    assert(ms.drop_first() =~= ms.skip(1));
                }
                if tag == 0 {
                    match self.unpack_elements(es, 1) {
                        Ok(ds) => Ok(JsonValue::Array(ds)),
                        Err(e) => Err(e),
                    }
                } else if tag == 2 {
                    match self.unpack_elements(es, 1) {
                        Ok(ds) => match join_fragments(&ds) {
                            Ok(s) => Ok(JsonValue::Text(s)),
                            Err(e) => Err(e),
                        },
                        Err(e) => Err(e),
                    }
                } else if tag == 1 {
                    if es.len() < 2 {
                        Err(UnpackerError { cause: "wrong packed object".to_owned() })
                    } else {
                        self.unpack_value(&es[1])
                    }
                } else {
                    proof {
                        assert(ms.skip(0) =~= ms);
                    }
                    match self.unpack_elements(es, 0) {
                        Ok(ds) => Ok(JsonValue::Object(pair_up(&ds))),
                        Err(e) => Err(e),
                    }
                }
            },
            _ => self.unpack_value(packed_object),
        }
    }

    /// Decode a message: the last element is the declared sequence id; `0`
    /// rewinds the slot pointer, anything else must be the successor of the
    /// current counter; the counter advances only when decoding succeeds.
    /// Null decodes to null without touching any state.
    pub fn unpack(&mut self, packed_object: &JsonValue) -> (r: Result<JsonValue, UnpackerError>)
        requires
            old(self).inv(),
        ensures
            final(self).inv(),
            final(self)@ == unpack_spec(old(self)@, packed_object@).0,
            matches_result(r, unpack_spec(old(self)@, packed_object@).1),
    {
        broadcast use lemma_model_elems;

        match packed_object {
            JsonValue::Null => Ok(JsonValue::Null),
            JsonValue::Array(es) => {
                let ghost ms = model_elems(es@);
                if es.len() == 0 {
                    return Err(UnpackerError { cause: "packed value expected".to_owned() });
                }
                let remote: i64 = match &es[es.len() - 1] {
                    JsonValue::Integer(i) => *i,
                    _ => {
                        return Err(UnpackerError { cause: "packed value expected".to_owned() });
                    },
                };
                proof {
                    assert(ms.last() == es@[es@.len() - 1]@);
                }
                if remote != 0 && (self.sequence_id == i64::MAX || remote != self.sequence_id
                    + 1) {
                    return Err(
                        UnpackerError {
                            cause: "message unpacked out of sequence or already unpacked".to_owned(),
                        },
                    );
                }
                if remote == 0 {
                    self.dict_index = MIN_DICT_INDEX;
                }
                let mut payload: Vec<JsonValue> = Vec::new();
                let mut i: usize = 0;
                while i < es.len() - 1
                    invariant
                        i <= es@.len() - 1,
                        payload@.len() == i as int,
                        forall|j: int| 0 <= j < i as int ==> payload@[j]@ == es@[j]@,
                    decreases es@.len() - 1 - i,
                {
                    payload.push(es[i].duplicate());
                    i = i + 1;
                }
                let pv = JsonValue::Array(payload);
                proof {
                    lemma_model_elems(payload@);
                    assert(model_elems(payload@) =~= ms.drop_last());
                    assert(pv@ == JVal::Array(ms.drop_last()));
                }
                let dr = self.unpack_object(&pv);
                match dr {
                    Ok(v) => {
                        self.sequence_id = remote;
                        Ok(v)
                    },
                    Err(e) => Err(e),
                }
            },
            _ => Err(UnpackerError { cause: "packed value expected".to_owned() }),
        }
    }

    /// Decode a message to a string: a `STRING`-tagged message gives the
    /// joined string itself; any other decoded value is re-serialised to
    /// its JSON text.
    pub fn unpack_string(&mut self, packed_object: &JsonValue) -> (r: Result<
        String,
        UnpackerError,
    >)
        requires
            old(self).inv(),
        ensures
            final(self).inv(),
            final(self)@ == unpack_string_spec(old(self)@, packed_object@).0,
            match r {
                Ok(s) => unpack_string_spec(old(self)@, packed_object@).1 matches Ok(t) && s@
                    == t,
                Err(e) => unpack_string_spec(old(self)@, packed_object@).1 matches Err(m)
                    && e.cause@ == m,
            },
    {
        broadcast use lemma_model_elems;

        let tagged: bool = match packed_object {
            JsonValue::Array(es) => {
                proof {
                    lemma_model_elems(es@);
                }
                if es.len() > 0 {
                    match &es[0] {
                        JsonValue::Integer(i) => *i == 2,
                        _ => false,
                    }
                } else {
                    false
                }
            },
            _ => false,
        };
        proof {
            assert(tagged == (packed_object@ matches JVal::Array(ses) && ses.len() > 0 && ses[0]
                == JVal::Integer(2)));
        }
        let decoded = self.unpack(packed_object);
        match decoded {
            Ok(v) => {
                if tagged {
                    match v {
                        JsonValue::Text(s) => Ok(s),
                        _ => Err(
                            UnpackerError { cause: "unable to unpack to specific type".to_owned() },
                        ),
                    }
                } else {
                    Ok(to_json_text(&v))
                }
            },
            Err(e) => Err(e),
        }
    }
}

/// What `unpack_string` returns: the joined string for a `STRING`-tagged
/// message, the JSON text of the decoded value for any other.
pub open spec fn unpack_string_spec(st: UnpackState, w: JVal) -> (UnpackState, Result<
    Seq<char>,
    Seq<char>,
>) {
    let tagged = w matches JVal::Array(es) && es.len() > 0 && es[0] == JVal::Integer(2);
    let r = unpack_spec(st, w);
    match r.1 {
        Err(e) => (r.0, Err(e)),
        Ok(v) => if tagged {
            match v {
                JVal::Text(s) => (r.0, Ok(s)),
                _ => (r.0, Err(msg_unable_to_unpack())),
            }
        } else {
            (r.0, Ok(json_text(v)))
        },
    }
}

} // verus!
