//! The codec's guarantees, stated and proved over the specification that
//! the executable code refines: the two peers keep identical dictionaries,
//! decoding inverts encoding, sequence ids count up and are enforced, and
//! strings never collide with numbers.

use crate::packer::PackState;
use crate::packer::dec_depth;
use crate::packer::key_of;
use crate::packer::lit_of;
use crate::packer::pack_elems;
use crate::packer::pack_keys;
use crate::packer::pack_obj_values;
use crate::packer::pack_spec;
use crate::packer::pack_value_spec;
use crate::packer::pack_walk;
use crate::packer::lemma_dict_insert_wf;
use crate::packer::lemma_walk_keeps_frame;
use crate::text::decode_lit;
use crate::text::int_lit_val;
use crate::text::int_text;
use crate::text::is_digit;
use crate::text::is_float_lit;
use crate::text::is_int_lit;
use crate::text::is_nonfinite_lit;
use crate::text::lemma_float_lit_first_char;
use crate::text::lemma_float_lit_parses;
use crate::text::lemma_int_lit_first_char;
use crate::text::lemma_int_lit_parses;
use crate::text::lemma_int_text;
use crate::text::lemma_int_text_not_float;
use crate::text::lemma_nat_text;
use crate::text::lemma_parses_as_float_first_char;
use crate::text::lemma_parses_as_int_first_char;
use crate::text::parsed_int_val;
use crate::text::parses_as_float;
use crate::text::parses_as_int;
use crate::text::needs_escape;
use crate::text::strip_tilde;
use crate::unpacker::UnpackState;
use crate::unpacker::msg_out_of_sequence;
use crate::unpacker::unpack_object_spec;
use crate::unpacker::unpack_seq_spec;
use crate::unpacker::unpack_spec;
use crate::unpacker::unpack_value_spec;
use crate::value::JVal;
use vstd::prelude::*;

verus! {

/// A stored pair of key and literal is coherent: reading the literal back
/// gives the one leaf value whose key and literal they are.
pub open spec fn entry_ok(k: Seq<char>, l: Seq<char>) -> bool {
    key_of(decode_lit(l)) == k && lit_of(decode_lit(l)) == l
}

/// The heart of the protocol: the decoder's dictionary mirrors the
/// encoder's, slot for slot, with the same pointer, bound and sequence
/// counter, and every stored entry is coherent.
pub open spec fn synced(p: PackState, u: UnpackState) -> bool {
    &&& p.wf()
    &&& u.wf()
    &&& p.max_dict_size == u.max_dict_size
    &&& p.idx == u.idx
    &&& p.sequence_id == u.sequence_id
    &&& forall|i: int| #[trigger]
        p.slots.contains_key(i) ==> u.dict.contains_key(i) && u.dict[i] == p.slots[i].1
            && entry_ok(p.slots[i].0, p.slots[i].1)
}

/// The values whose encoding survives the trip, however often they are
/// repeated: booleans never (the decoder does not mirror their dictionary
/// entry), nulls everywhere but as an object value, numbers held as text
/// only in the shape the decoder reads back as such, and strings only when
/// their text reads as no number at all — neither on first sight nor under
/// the laxer reparse a backreference applies. Object keys must not
/// collide.
pub open spec fn wire_safe(v: JVal) -> bool
    decreases v, 0int via wire_safe_decreases
{
    match v {
        JVal::Null => true,
        JVal::Boolean(b) => false,
        JVal::Integer(i) => i64::MIN <= i <= i64::MAX,
        JVal::NumberText(t) => !is_int_lit(t) && is_float_lit(t),
        JVal::Text(s) => !parses_as_int(s) && !parses_as_float(s) && !is_nonfinite_lit(s),
        JVal::Array(es) => wire_safe_elems(es),
        JVal::Object(es) => wire_safe_entries(es),
    }
}

#[via_fn]
proof fn wire_safe_decreases(v: JVal) {
    match v {
        JVal::Array(es) => {
            assert(decreases_to!(v => es));
        },
        JVal::Object(es) => {
            assert(decreases_to!(v => es));
        },
        _ => {},
    }
}

pub open spec fn wire_safe_elems(es: Seq<JVal>) -> bool
    decreases es, 0int via wire_safe_elems_decreases
{
    if es.len() == 0 {
        true
    } else {
        wire_safe_elems(es.drop_last()) && wire_safe(es.last())
    }
}

#[via_fn]
proof fn wire_safe_elems_decreases(es: Seq<JVal>) {
    if es.len() > 0 {
        assert(decreases_to!(es => es.drop_last()));
        assert(decreases_to!(es => es[es.len() - 1]));
    }
}

/// Object entries: keys that stay strings on the wire and never collide,
/// values that are neither null nor boolean and are themselves safe.
pub open spec fn wire_safe_entries(es: Seq<(Seq<char>, JVal)>) -> bool
    decreases es, 1int via wire_safe_entries_decreases
{
    &&& (forall|i: int, j: int|
        0 <= i < j < es.len() ==> (#[trigger] es[i]).0 != (#[trigger] es[j]).0)
    &&& wire_safe_entries_rec(es)
}

pub open spec fn wire_safe_entries_rec(es: Seq<(Seq<char>, JVal)>) -> bool
    decreases es, 0int via wire_safe_entries_rec_decreases
{
    if es.len() == 0 {
        true
    } else {
        &&& wire_safe_entries_rec(es.drop_last())
        &&& !parses_as_int(es.last().0) && !parses_as_float(es.last().0) && !is_nonfinite_lit(
            es.last().0,
        )
        &&& !(es.last().1 is Null) && !(es.last().1 is Boolean)
        &&& wire_safe(es.last().1)
    }
}

#[via_fn]
proof fn wire_safe_entries_decreases(es: Seq<(Seq<char>, JVal)>) {
}

#[via_fn]
proof fn wire_safe_entries_rec_decreases(es: Seq<(Seq<char>, JVal)>) {
    if es.len() > 0 {
        assert(decreases_to!(es => es.drop_last()));
        assert(decreases_to!(es => es[es.len() - 1]));
        assert(decreases_to!(es[es.len() - 1] => es[es.len() - 1].1));
    }
}

/// A coherent leaf: reading its literal back gives the leaf itself.
pub open spec fn leaf_coherent(v: JVal) -> bool {
    decode_lit(lit_of(v)) == v
}

/// Safe non-null leaves are coherent.
pub proof fn lemma_safe_leaf_coherent(v: JVal)
    requires
        wire_safe(v),
        v is Integer || v is NumberText || v is Text,
    ensures
        leaf_coherent(v),
{
    match v {
        JVal::Integer(i) => {
            lemma_int_text(i);
            lemma_int_lit_parses(int_text(i));
            assert(parsed_int_val(int_text(i)) == i);
        },
        JVal::NumberText(t) => {
            lemma_float_lit_parses(t);
        },
        JVal::Text(s) => {
        },
        _ => {},
    }
}

/// Two coherent leaves with the same key are the same leaf.
pub proof fn lemma_key_determines_leaf(a: JVal, b: JVal)
    requires
        leaf_coherent(a),
        leaf_coherent(b),
        a is Integer || a is NumberText || a is Text,
        b is Integer || b is NumberText || b is Text,
        key_of(a) == key_of(b),
    ensures
        a == b,
{
    lemma_leaf_key_shape(a);
    lemma_leaf_key_shape(b);
    if a is Text && b is Text {
        assert(key_of(a) == seq!['~'] + lit_of(a));
        assert(key_of(b) == seq!['~'] + lit_of(b));
        assert(lit_of(a) =~= lit_of(b)) by {
            assert(forall|i: int|
                0 <= i < lit_of(a).len() ==> lit_of(a)[i] == (seq!['~'] + lit_of(a))[i + 1]);
            assert(forall|i: int|
                0 <= i < lit_of(b).len() ==> lit_of(b)[i] == (seq!['~'] + lit_of(b))[i + 1]);
        }
        assert(a == decode_lit(lit_of(a)));
    } else if a is Text || b is Text {
        let t = if a is Text {
            a
        } else {
            b
        };
        let o = if a is Text {
            b
        } else {
            a
        };
        assert(key_of(t)[0] == '~');
        assert(key_of(o)[0] != '~');
        assert(false);
    } else {
        assert(key_of(a) == lit_of(a));
        assert(key_of(b) == lit_of(b));
        assert(a == decode_lit(lit_of(a)));
        assert(b == decode_lit(lit_of(b)));
    }
}

/// One insertion keeps the two dictionaries in lock-step: both sides fill
/// the same slot, advance the same pointer, and the new entry is coherent.
pub proof fn lemma_sync_insert(p: PackState, u: UnpackState, key: Seq<char>, lit: Seq<char>)
    requires
        synced(p, u),
        !p.fwd.contains_key(key),
        entry_ok(key, lit),
    ensures
        synced(p.dict_insert(key, lit), u.dict_set(lit)),
{
    lemma_dict_insert_wf(p, key, lit);
    let p2 = p.dict_insert(key, lit);
    let u2 = u.dict_set(lit);
    assert(p2.idx == u2.idx);
    assert forall|i: int| #[trigger] p2.slots.contains_key(i) implies u2.dict.contains_key(i)
        && u2.dict[i] == p2.slots[i].1 && entry_ok(p2.slots[i].0, p2.slots[i].1) by {
        if i == p.idx {
            assert(p2.slots[i] == (key, lit));
            assert(u2.dict[i] == lit);
        } else {
            assert(p.slots.contains_key(i));
        }
    }
}

/// Packing one safe leaf and decoding what came out gives the leaf back,
/// and leaves the two peers synchronised — whether the leaf was served from
/// the dictionary or freshly memoised.
pub proof fn lemma_leaf_round_trip(p: PackState, u: UnpackState, v: JVal)
    requires
        synced(p, u),
        wire_safe(v),
        v is Integer || v is NumberText || v is Text,
    ensures
        ({
            let pr = pack_value_spec(p, v);
            let ur = unpack_value_spec(u, pr.1);
            ur.1 == Ok::<JVal, Seq<char>>(v) && synced(pr.0, ur.0)
        }),
{
    lemma_safe_leaf_coherent(v);
    let key = key_of(v);
    let lit = lit_of(v);
    if p.fwd.contains_key(key) {
        let i = p.fwd[key];
        assert(p.slots.contains_key(i) && p.slots[i].0 == key);
        assert(3 <= i <= i64::MAX);
        let l = p.slots[i].1;
        assert(u.dict.contains_key(i) && u.dict[i] == l && entry_ok(key, l));
        let d = decode_lit(l);
        assert(d is Integer || d is NumberText || d is Text);
        assert(leaf_coherent(d)) by {
            assert(lit_of(d) == l);
        }
        lemma_key_determines_leaf(d, v);
        assert(pack_value_spec(p, v) == (p, JVal::Integer(i)));
        assert(unpack_value_spec(u, JVal::Integer(i)).1 == Ok::<JVal, Seq<char>>(d));
    } else {
        assert(entry_ok(key, lit));
        lemma_sync_insert(p, u, key, lit);
        let pr = pack_value_spec(p, v);
        assert(pr.0 == p.dict_insert(key, lit));
        match v {
            JVal::Integer(i) => {
                lemma_int_text(i);
                lemma_int_text_not_float(i);
                assert(pr.1 == JVal::Text(int_text(i)));
                assert(unpack_value_spec(u, pr.1) == (
                    u.dict_set(int_text(i)),
                    Ok::<JVal, Seq<char>>(JVal::Integer(int_lit_val(int_text(i)))),
                ));
            },
            JVal::NumberText(t) => {
                assert(pr.1 == JVal::Text(t));
                assert(unpack_value_spec(u, pr.1) == (
                    u.dict_set(t),
                    Ok::<JVal, Seq<char>>(JVal::NumberText(t)),
                ));
            },
            JVal::Text(s) => {
                if needs_escape(s) {
                    let esc = seq!['~'] + s;
                    assert(pr.1 == JVal::Text(esc));
                    assert(esc[0] == '~');
                    assert(!is_int_lit(esc)) by {
                        if is_int_lit(esc) {
                            lemma_int_lit_first_char(esc);
                        }
                    }
                    assert(!is_float_lit(esc)) by {
                        if is_float_lit(esc) {
                            lemma_float_lit_first_char(esc);
                        }
                    }
                    assert(strip_tilde(esc) =~= s);
                } else {
                    assert(pr.1 == JVal::Text(s));
                    assert(strip_tilde(s) =~= s);
                }
            },
            _ => {},
        }
    }
}

/// Decoding a concatenation decodes the first part, then the second from
/// where the first left off.
pub proof fn lemma_seq_spec_append(u: UnpackState, a: Seq<JVal>, b: Seq<JVal>)
    requires
        unpack_seq_spec(u, a).1 is Ok,
    ensures
        ({
            let r1 = unpack_seq_spec(u, a);
            let r2 = unpack_seq_spec(r1.0, b);
            unpack_seq_spec(u, a + b) == (
                r2.0,
                match r2.1 {
                    Ok(db) => Ok::<Seq<JVal>, Seq<char>>(r1.1->Ok_0 + db),
                    Err(e) => Err::<Seq<JVal>, Seq<char>>(e),
                },
            )
        }),
    decreases b.len(),
{
    let r1 = unpack_seq_spec(u, a);
    if b.len() == 0 {
        assert(a + b =~= a);
        assert(r1.1->Ok_0 + Seq::<JVal>::empty() =~= r1.1->Ok_0);
    } else {
        assert((a + b).drop_last() =~= a + b.drop_last());
        assert((a + b).last() == b.last());
        lemma_seq_spec_append(u, a, b.drop_last());
        let rp = unpack_seq_spec(r1.0, b.drop_last());
        match rp.1 {
            Ok(dp) => {
                let r2 = unpack_object_spec(rp.0, b.last());
                match r2.1 {
                    Ok(d) => {
                        assert(r1.1->Ok_0 + dp.push(d) =~= (r1.1->Ok_0 + dp).push(d));
                    },
                    Err(_) => {},
                }
            },
            Err(_) => {},
        }
    }
}

/// Packing the elements of an array and decoding what came out gives the
/// elements back, keeping the peers synchronised.
pub proof fn lemma_elems_round_trip(p: PackState, u: UnpackState, es: Seq<JVal>, d: int)
    requires
        synced(p, u),
        wire_safe_elems(es),
        d < 0,
    ensures
        ({
            let pr = pack_elems(p, es, d);
            let ur = unpack_seq_spec(u, pr.1);
            ur.1 == Ok::<Seq<JVal>, Seq<char>>(es) && synced(pr.0, ur.0) && pr.1.len()
                == es.len()
        }),
    decreases es, 0int,
{
    if es.len() == 0 {
        assert(pack_elems(p, es, d).1 =~= Seq::<JVal>::empty());
        assert(unpack_seq_spec(u, Seq::<JVal>::empty()).1 == Ok::<Seq<JVal>, Seq<char>>(
            Seq::empty(),
        ));
        assert(Seq::<JVal>::empty() =~= es);
    } else {
        assert(decreases_to!(es => es.drop_last()));
        assert(decreases_to!(es => es[es.len() - 1]));
        lemma_elems_round_trip(p, u, es.drop_last(), d);
        let pr1 = pack_elems(p, es.drop_last(), d);
        let ur1 = unpack_seq_spec(u, pr1.1);
        lemma_walk_round_trip(pr1.0, ur1.0, es.last(), d);
        let pr2 = pack_walk(pr1.0, es.last(), d);
        let ws = pr1.1.push(pr2.1);
        assert(ws.drop_last() =~= pr1.1);
        assert(ws.last() == pr2.1);
        let ur = unpack_seq_spec(u, ws);
        assert(ur.1 == Ok::<Seq<JVal>, Seq<char>>(es.drop_last().push(es.last())));
        assert(es.drop_last().push(es.last()) =~= es);
    }
}

/// Packing the keys of an object and decoding what came out gives every
/// key back as a string, and no key's wire form can be mistaken for a
/// structural tag.
pub proof fn lemma_keys_round_trip(p: PackState, u: UnpackState, es: Seq<(Seq<char>, JVal)>)
    requires
        synced(p, u),
        wire_safe_entries_rec(es),
    ensures
        ({
            let pr = pack_keys(p, es);
            let ur = unpack_seq_spec(u, pr.1);
            &&& ur.1 matches Ok(ds) && ds.len() == es.len() && (forall|i: int|
                0 <= i < es.len() ==> ds[i] == JVal::Text((#[trigger] es[i]).0))
            &&& synced(pr.0, ur.0)
            &&& pr.1.len() == es.len()
            &&& forall|i: int|
                0 <= i < es.len() ==> (#[trigger] pr.1[i]) is Text || (pr.1[i] matches
                JVal::Integer(s) && s >= 3)
        }),
    decreases es.len(),
{
    if es.len() > 0 {
        lemma_keys_round_trip(p, u, es.drop_last());
        assert(forall|i: int| 0 <= i < es.len() - 1 ==> es.drop_last()[i] == #[trigger] es[i]);
        let pr1 = pack_keys(p, es.drop_last());
        let ur1 = unpack_seq_spec(u, pr1.1);
        let k = es.last().0;
        let kv = JVal::Text(k);
        assert(wire_safe(kv));
        lemma_leaf_round_trip(pr1.0, ur1.0, kv);
        let pr2 = pack_value_spec(pr1.0, kv);
        assert(pr2.1 is Text || (pr2.1 matches JVal::Integer(s) && s >= 3)) by {
            if pr1.0.fwd.contains_key(key_of(kv)) {
                let i = pr1.0.fwd[key_of(kv)];
                assert(pr1.0.slots.contains_key(i));
            }
        }
        let ws = pr1.1.push(pr2.1);
        assert(ws.drop_last() =~= pr1.1);
        assert(ws.last() == pr2.1);
        assert(unpack_object_spec(ur1.0, pr2.1) == unpack_value_spec(ur1.0, pr2.1));
    }
}

/// Packing the values of an object and decoding what came out gives every
/// value back.
pub proof fn lemma_obj_values_round_trip(
    p: PackState,
    u: UnpackState,
    es: Seq<(Seq<char>, JVal)>,
    d: int,
)
    requires
        synced(p, u),
        wire_safe_entries_rec(es),
        d < 0,
    ensures
        ({
            let pr = pack_obj_values(p, es, d);
            let ur = unpack_seq_spec(u, pr.1);
            &&& ur.1 matches Ok(ds) && ds.len() == es.len() && (forall|i: int|
                0 <= i < es.len() ==> ds[i] == (#[trigger] es[i]).1)
            &&& synced(pr.0, ur.0)
            &&& pr.1.len() == es.len()
        }),
    decreases es, 0int,
{
    if es.len() > 0 {
        assert(decreases_to!(es => es.drop_last()));
        assert(decreases_to!(es => es[es.len() - 1]));
        assert(decreases_to!(es[es.len() - 1] => es[es.len() - 1].1));
        lemma_obj_values_round_trip(p, u, es.drop_last(), d);
        assert(forall|i: int| 0 <= i < es.len() - 1 ==> es.drop_last()[i] == #[trigger] es[i]);
        let pr1 = pack_obj_values(p, es.drop_last(), d);
        let ur1 = unpack_seq_spec(u, pr1.1);
        let v = es.last().1;
        if v is Object || v is Array {
            lemma_walk_round_trip(pr1.0, ur1.0, v, dec_depth(d));
        } else {
            lemma_leaf_round_trip(pr1.0, ur1.0, v);
        }
        let pr2 = if v is Object || v is Array {
            pack_walk(pr1.0, v, dec_depth(d))
        } else {
            pack_value_spec(pr1.0, v)
        };
        let ws = pr1.1.push(pr2.1);
        assert(ws.drop_last() =~= pr1.1);
        assert(ws.last() == pr2.1);
        if !(v is Object || v is Array) {
            assert(unpack_object_spec(ur1.0, pr2.1) == unpack_value_spec(ur1.0, pr2.1)) by {
                lemma_leaf_wire_not_array(pr1.0, v);
            }
        }
    }
}

/// The wire form of a leaf is never an array, so the decoder reads it as a
/// scalar.
pub proof fn lemma_leaf_wire_not_array(p: PackState, v: JVal)
    requires
        v is Integer || v is NumberText || v is Text,
    ensures
        !(pack_value_spec(p, v).1 is Array),
        !(pack_value_spec(p, v).1 is Null),
{
}

/// Pairing the decoded halves of an object payload with distinct keys
/// rebuilds the entries in order.
pub proof fn lemma_pairing(es: Seq<(Seq<char>, JVal)>, ds: Seq<JVal>, i: int)
    requires
        ds.len() == 2 * es.len(),
        forall|j: int| 0 <= j < es.len() ==> ds[j] == JVal::Text((#[trigger] es[j]).0),
        forall|j: int| 0 <= j < es.len() ==> ds[j + es.len()] == (#[trigger] es[j]).1,
        forall|j: int, j2: int|
            0 <= j < j2 < es.len() ==> (#[trigger] es[j]).0 != (#[trigger] es[j2]).0,
        0 <= i <= es.len(),
    ensures
        crate::unpacker::pairs_upto(ds, i) == es.take(i),
    decreases i,
{
    if i == 0 {
        assert(crate::unpacker::pairs_upto(ds, 0) =~= es.take(0));
    } else {
        lemma_pairing(es, ds, i - 1);
        assert(ds.len() as int / 2 == es.len()) by {
            assert(ds.len() == 2 * es.len());
        }
        assert(crate::unpacker::key_text_of(ds[i - 1]) == es[i - 1].0);
        assert(ds[i - 1 + es.len()] == es[i - 1].1);
        assert(forall|q: int|
            0 <= q < i - 1 ==> (#[trigger] es.take(i - 1)[q]).0 != es[i - 1].0);
        crate::unpacker::lemma_obj_insert_missing(es.take(i - 1), es[i - 1].0, es[i - 1].1);
        assert(es.take(i - 1).push((es[i - 1].0, es[i - 1].1)) =~= es.take(i));
        assert((es[i - 1].0, es[i - 1].1) == es[i - 1]);
    }
}

/// Packing a value below the envelope with string packing disabled and
/// decoding what came out gives the value back, and keeps the two peers
/// synchronised.
pub proof fn lemma_walk_round_trip(p: PackState, u: UnpackState, v: JVal, d: int)
    requires
        synced(p, u),
        wire_safe(v),
        d < 0,
    ensures
        ({
            let pr = pack_walk(p, v, d);
            let ur = unpack_object_spec(u, pr.1);
            ur.1 == Ok::<JVal, Seq<char>>(v) && synced(pr.0, ur.0)
        }),
    decreases v, 1int,
{
    match v {
        JVal::Null => {},
        JVal::Boolean(_) => {
            assert(false);
        },
        JVal::Array(es) => {
            assert(decreases_to!(v => es));
            lemma_elems_round_trip(p, u, es, dec_depth(d));
            let pr = pack_elems(p, es, dec_depth(d));
            let wire = seq![JVal::Integer(0)] + pr.1;
            assert(wire.len() > 0);
            assert(wire[0] == JVal::Integer(0));
            assert(wire.drop_first() =~= pr.1);
            assert(pack_walk(p, v, d) == (pr.0, JVal::Array(wire)));
        },
        JVal::Object(es) => {
            assert(decreases_to!(v => es));
            lemma_keys_round_trip(p, u, es);
            let kr = pack_keys(p, es);
            let uk = unpack_seq_spec(u, kr.1);
            lemma_obj_values_round_trip(kr.0, uk.0, es, d);
            let vr = pack_obj_values(kr.0, es, d);
            let uv = unpack_seq_spec(uk.0, vr.1);
            let wire = kr.1 + vr.1;
            assert(pack_walk(p, v, d) == (vr.0, JVal::Array(wire)));
            lemma_seq_spec_append(u, kr.1, vr.1);
            let ur = unpack_seq_spec(u, wire);
            assert(ur.0 == uv.0);
            let kd = uk.1->Ok_0;
            let vd = uv.1->Ok_0;
            let ds = kd + vd;
            assert(ur.1 == Ok::<Seq<JVal>, Seq<char>>(ds));
            if es.len() == 0 {
                assert(wire =~= Seq::<JVal>::empty());
                assert(unpack_object_spec(u, JVal::Array(wire)).1 == Ok::<JVal, Seq<char>>(
                    JVal::Object(Seq::empty()),
                ));
                assert(es =~= Seq::<(Seq<char>, JVal)>::empty());
                assert(JVal::Object(Seq::<(Seq<char>, JVal)>::empty()) == v);
            } else {
                assert(wire.len() > 0);
                assert(wire[0] == kr.1[0]);
                let tag: int = match wire[0] {
                    JVal::Integer(t) => t,
                    _ => -1,
                };
                assert(tag != 0 && tag != 1 && tag != 2);
                assert(ds.len() == 2 * es.len());
                assert(forall|j: int|
                    0 <= j < es.len() ==> ds[j] == JVal::Text((#[trigger] es[j]).0));
                assert(forall|j: int|
                    0 <= j < es.len() ==> ds[j + es.len()] == (#[trigger] es[j]).1);
                lemma_pairing(es, ds, es.len() as int);
                assert(es.take(es.len() as int) =~= es);
                assert(ds.len() as int / 2 == es.len());
                assert(crate::unpacker::pair_object(ds) == es);
                assert(unpack_object_spec(u, JVal::Array(wire)).1 == Ok::<JVal, Seq<char>>(
                    JVal::Object(es),
                ));
            }
        },
        JVal::Text(_) => {
            lemma_leaf_round_trip(p, u, v);
            lemma_leaf_wire_not_array(p, v);
        },
        _ => {
            lemma_leaf_round_trip(p, u, v);
            lemma_leaf_wire_not_array(p, v);
        },
    }
}

/// Round-trip: packing a safe value as a message with the default options
/// and decoding it through a synchronised decoder gives the value back and
/// leaves the two peers synchronised — so the next message round-trips too.
pub proof fn lemma_round_trip(p: PackState, u: UnpackState, v: JVal)
    requires
        synced(p, u),
        wire_safe(v),
        p.max_dict_size >= 3,
        p.sequence_id < i64::MAX,
        p.sequence_id == -1 ==> p.idx == 3,
    ensures
        ({
            let pr = pack_spec(p, v, -1, false);
            let ur = unpack_spec(u, pr.1);
            ur.1 == Ok::<JVal, Seq<char>>(v) && synced(pr.0, ur.0)
        }),
{
    lemma_walk_round_trip(p, u, v, -1);
    lemma_walk_keeps_frame(p, v, -1);
    let wr = pack_walk(p, v, -1);
    let uo = unpack_object_spec(u, wr.1);
    let n = p.sequence_id + 1;
    match wr.1 {
        JVal::Array(ws) => {
            let es = ws.push(JVal::Integer(n));
            assert(pack_spec(p, v, -1, false).1 == JVal::Array(es));
            assert(es.len() > 0);
            assert(es.last() == JVal::Integer(n));
            assert(es.drop_last() =~= ws);
            if n == 0 {
                assert(u.idx == 3);
                assert(UnpackState { idx: 3, ..u } == u);
            }
        },
        _ => {
            let es = seq![JVal::Integer(1), wr.1, JVal::Integer(n)];
            assert(pack_spec(p, v, -1, false).1 == JVal::Array(es));
            assert(es.last() == JVal::Integer(n));
            let payload = es.drop_last();
            assert(payload =~= seq![JVal::Integer(1), wr.1]);
            assert(payload[0] == JVal::Integer(1));
            assert(payload.len() == 2);
            assert(payload[1] == wr.1);
            if n == 0 {
                assert(u.idx == 3);
                assert(UnpackState { idx: 3, ..u } == u);
            }
            assert(unpack_object_spec(u, JVal::Array(payload)) == unpack_value_spec(u, wr.1));
            assert(unpack_object_spec(u, wr.1) == unpack_value_spec(u, wr.1));
        },
    }
}

/// Decoding a run of messages in emission order, keeping every result.
pub open spec fn unpack_stream(u: UnpackState, msgs: Seq<JVal>) -> (
    UnpackState,
    Seq<Result<JVal, Seq<char>>>,
)
    decreases msgs.len(),
{
    if msgs.len() == 0 {
        (u, Seq::empty())
    } else {
        let r1 = unpack_stream(u, msgs.drop_last());
        let r2 = unpack_spec(r1.0, msgs.last());
        (r2.0, r1.1.push(r2.1))
    }
}

/// Round-trip over a whole session: from a synchronised pair, a run of
/// safe values of any length — with as many distinct scalars as it likes,
/// through any number of evictions and wraps of the bounded dictionary —
/// decodes back value for value, because every message leaves the pair
/// synchronised for the next.
pub proof fn lemma_session_round_trip(p: PackState, u: UnpackState, vs: Seq<JVal>)
    requires
        synced(p, u),
        forall|k: int| 0 <= k < vs.len() ==> wire_safe(#[trigger] vs[k]),
        p.max_dict_size >= 3,
        p.sequence_id + vs.len() <= i64::MAX,
        p.sequence_id == -1 ==> p.idx == 3,
    ensures
        ({
            let pr = pack_stream(p, vs);
            let ur = unpack_stream(u, pr.1);
            &&& ur.1.len() == vs.len()
            &&& forall|k: int|
                0 <= k < vs.len() ==> ur.1[k] == Ok::<JVal, Seq<char>>(#[trigger] vs[k])
            &&& synced(pr.0, ur.0)
        }),
    decreases vs.len(),
{
    if vs.len() > 0 {
        let pre = vs.drop_last();
        assert(forall|k: int| 0 <= k < pre.len() ==> pre[k] == #[trigger] vs[k]);
        lemma_session_round_trip(p, u, pre);
        let pr1 = pack_stream(p, pre);
        let ur1 = unpack_stream(u, pr1.1);
        lemma_stream_counts(p, pre);
        assert(pr1.0.sequence_id == p.sequence_id + pre.len());
        assert(pr1.0.sequence_id == -1 ==> pr1.0.idx == 3) by {
            if pr1.0.sequence_id == -1 {
                assert(pre.len() == 0);
                assert(pack_stream(p, pre).0 == p);
            }
        }
        lemma_round_trip(pr1.0, ur1.0, vs.last());
        let pr2 = pack_spec(pr1.0, vs.last(), -1, false);
        let msgs = pr1.1.push(pr2.1);
        assert(msgs.drop_last() =~= pr1.1);
        assert(msgs.last() == pr2.1);
        assert(pack_stream(p, vs).1 == msgs);
        let ur = unpack_stream(u, msgs);
        assert(ur.1 =~= ur1.1.push(unpack_spec(ur1.0, pr2.1).1));
        assert(forall|k: int|
            0 <= k < vs.len() - 1 ==> ur.1[k] == #[trigger] ur1.1[k]);
    }
}

/// Sequence monotonicity, one step: every enveloped message advances the
/// counter by one and carries the new value as its last element.
pub proof fn lemma_sequence_monotonic(p: PackState, v: JVal, d: int)
    ensures
        ({
            let pr = pack_spec(p, v, d, false);
            &&& pr.0.sequence_id == p.sequence_id + 1
            &&& pr.1 matches JVal::Array(es) && es.len() > 0 && es.last() == JVal::Integer(
                p.sequence_id + 1,
            )
        }),
{
    lemma_walk_keeps_frame(p, v, d);
    let wr = pack_walk(p, v, d);
    match wr.1 {
        JVal::Array(ws) => {},
        _ => {},
    }
}

/// The states and messages of a whole run of `pack` calls.
pub open spec fn pack_stream(st: PackState, vs: Seq<JVal>) -> (PackState, Seq<JVal>)
    decreases vs.len(),
{
    if vs.len() == 0 {
        (st, Seq::empty())
    } else {
        let r1 = pack_stream(st, vs.drop_last());
        let r2 = pack_spec(r1.0, vs.last(), -1, false);
        (r2.0, r1.1.push(r2.1))
    }
}

/// Sequence monotonicity: the `k`-th message of a run bears sequence id
/// `start + 1 + k`; on a fresh encoder, whose counter starts at `-1`, the
/// `k`-th `pack` call therefore emits id `k`.
pub proof fn lemma_kth_message_id(st: PackState, vs: Seq<JVal>, k: int)
    requires
        0 <= k < vs.len(),
    ensures
        pack_stream(st, vs).0.sequence_id == st.sequence_id + vs.len(),
        pack_stream(st, vs).1[k] matches JVal::Array(es) && es.len() > 0 && es.last()
            == JVal::Integer(st.sequence_id + 1 + k),
    decreases vs.len(),
{
    lemma_stream_counts(st, vs);
    let r1 = pack_stream(st, vs.drop_last());
    lemma_stream_counts(st, vs.drop_last());
    lemma_sequence_monotonic(r1.0, vs.last(), -1);
    if k < vs.len() - 1 {
        lemma_kth_message_id(st, vs.drop_last(), k);
        assert(pack_stream(st, vs).1[k] == r1.1[k]);
    } else {
        assert(pack_stream(st, vs).1[k] == pack_spec(r1.0, vs.last(), -1, false).1);
    }
}

pub proof fn lemma_stream_counts(st: PackState, vs: Seq<JVal>)
    ensures
        pack_stream(st, vs).0.sequence_id == st.sequence_id + vs.len(),
        pack_stream(st, vs).0.max_dict_size == st.max_dict_size,
        pack_stream(st, vs).1.len() == vs.len(),
    decreases vs.len(),
{
    if vs.len() > 0 {
        lemma_stream_counts(st, vs.drop_last());
        lemma_sequence_monotonic(pack_stream(st, vs.drop_last()).0, vs.last(), -1);
        lemma_walk_keeps_frame(pack_stream(st, vs.drop_last()).0, vs.last(), -1);
    }
}

/// A memoisation hit emits a backreference inside the slot range: a number
/// in `[3, 3 + max_dict_size)`, never a structural tag. The well-formed
/// state keeps every live slot in that range, so the emitted index is the
/// slot the decoder holds the literal at.
pub proof fn lemma_hit_in_range(st: PackState, v: JVal)
    requires
        st.wf(),
        st.max_dict_size >= 1,
        st.fwd.contains_key(key_of(v)),
    ensures
        pack_value_spec(st, v) == (st, JVal::Integer(st.fwd[key_of(v)])),
        3 <= st.fwd[key_of(v)] < 3 + st.max_dict_size,
{
    assert(st.slots.contains_key(st.fwd[key_of(v)]));
}

/// Eviction: reusing the slot under the pointer removes the key that lived
/// there from the forward map.
pub proof fn lemma_eviction_clears(p: PackState, key: Seq<char>, lit: Seq<char>)
    requires
        p.wf(),
        !p.fwd.contains_key(key),
        p.slots.contains_key(p.idx),
    ensures
        !p.dict_insert(key, lit).fwd.contains_key(p.slots[p.idx].0),
{
    assert(p.fwd.contains_key(p.slots[p.idx].0));
}

/// Eviction correctness, the emission side: a scalar that is no longer
/// memoised goes out as a literal again, not as a backreference.
pub proof fn lemma_evicted_repacks_literally(p: PackState, v: JVal)
    requires
        !p.fwd.contains_key(key_of(v)),
        v is Integer || v is NumberText || v is Text,
    ensures
        pack_value_spec(p, v).1 is Text,
{
}

/// Sequence enforcement: a declared id that is neither `0` nor the
/// successor of the decoder's counter is rejected, and nothing changes.
pub proof fn lemma_sequence_enforcement(u: UnpackState, w: JVal)
    requires
        w matches JVal::Array(es) && es.len() > 0 && (es.last() matches JVal::Integer(r) && r != 0
            && r != u.sequence_id + 1),
    ensures
        unpack_spec(u, w) == (u, Err::<JVal, Seq<char>>(msg_out_of_sequence())),
{
}

/// Escape correctness: the first-time encoding of any string comes back
/// from the decoder as exactly that string, never as a number. A string
/// that starts with a digit, a dot, a minus sign or a tilde goes out
/// behind a tilde; any other string spells no number, so its bare text
/// already reads back as itself.
pub proof fn lemma_escape_round_trip(p: PackState, u: UnpackState, s: Seq<char>)
    requires
        synced(p, u),
        !p.fwd.contains_key(key_of(JVal::Text(s))),
    ensures
        ({
            let pr = pack_value_spec(p, JVal::Text(s));
            unpack_value_spec(u, pr.1).1 == Ok::<JVal, Seq<char>>(JVal::Text(s))
        }),
{
    let pr = pack_value_spec(p, JVal::Text(s));
    if needs_escape(s) {
        let esc = seq!['~'] + s;
        assert(pr.1 == JVal::Text(esc));
        assert(esc[0] == '~');
        assert(!is_int_lit(esc)) by {
            if is_int_lit(esc) {
                lemma_int_lit_first_char(esc);
            }
        }
        assert(!is_float_lit(esc)) by {
            if is_float_lit(esc) {
                lemma_float_lit_first_char(esc);
            }
        }
        assert(strip_tilde(esc) =~= s);
    } else {
        assert(pr.1 == JVal::Text(s));
        assert(!is_int_lit(s)) by {
            if is_int_lit(s) {
                lemma_int_lit_first_char(s);
            }
        }
        assert(!is_float_lit(s)) by {
            if is_float_lit(s) {
                lemma_float_lit_first_char(s);
            }
        }
        assert(strip_tilde(s) =~= s);
    }
}

/// String/number disjointness: an integer and a string never share a
/// dictionary key, whatever their texts, because a string's key carries
/// the tilde prefix and an integer's never does.
pub proof fn lemma_string_number_distinct(i: int, s: Seq<char>)
    ensures
        key_of(JVal::Integer(i)) != key_of(JVal::Text(s)),
{
    let ki = key_of(JVal::Integer(i));
    let ks = key_of(JVal::Text(s));
    assert(ks[0] == '~');
    if i < 0 {
        assert(ki[0] == '-');
    } else {
        crate::text::lemma_nat_text(i);
        assert(is_digit(ki[0]));
    }
}

/// A freshly built encoder and decoder that agree on the bound start out
/// synchronised.
pub proof fn lemma_fresh_synced(m: int)
    requires
        0 <= m <= i64::MAX - 3,
    ensures
        synced(
            PackState {
                fwd: Map::empty(),
                slots: Map::empty(),
                idx: 3,
                sequence_id: -1,
                max_dict_size: m,
            },
            UnpackState { dict: Map::empty(), idx: 3, sequence_id: -1, max_dict_size: m },
        ),
{
}

/// Memoisation yield, for one scalar on a fresh encoder: packing the same
/// non-null scalar twice in a row produces a second message whose JSON
/// text is strictly shorter than the first's, because the scalar collapses
/// to the one-digit index of the first dictionary slot.
pub proof fn lemma_memoisation_yield(p: PackState, v: JVal)
    requires
        p.wf(),
        p.fwd == Map::<Seq<char>, int>::empty(),
        p.slots == Map::<int, (Seq<char>, Seq<char>)>::empty(),
        p.idx == 3,
        p.sequence_id == -1,
        p.max_dict_size >= 3,
        v is Boolean || v is Integer || v is NumberText || v is Text,
    ensures
        ({
            let first = pack_spec(p, v, -1, false);
            let second = pack_spec(first.0, v, -1, false);
            crate::text::json_text(second.1).len() < crate::text::json_text(first.1).len()
        }),
{
    let key = key_of(v);
    let lit = lit_of(v);
    let pr = pack_value_spec(p, v);
    let w = pr.1;
    assert(pack_walk(p, v, -1) == pr);
    assert(!(w is Array) && !(w is Null));
    let first = pack_spec(p, v, -1, false);
    assert(first.1 == JVal::Array(seq![JVal::Integer(1), w, JVal::Integer(0)]));
    let p2 = first.0;
    assert(p2.fwd.contains_key(key) && p2.fwd[key] == 3);
    let second = pack_spec(p2, v, -1, false);
    assert(pack_value_spec(p2, v) == (p2, JVal::Integer(3)));
    assert(second.1 == JVal::Array(
        seq![JVal::Integer(1), JVal::Integer(3), JVal::Integer(1)],
    ));
    lemma_scalar_wire_text_len(w);
    lemma_envelope_text_len(w, 0);
    lemma_envelope_text_len(JVal::Integer(3), 1);
    assert(crate::text::json_text(JVal::Integer(3)).len() == 1) by {
        assert(int_text(3) =~= seq![crate::text::digit_char(3)]);
    }
}

/// The JSON text of a scalar wire form is at least two characters long.
proof fn lemma_scalar_wire_text_len(w: JVal)
    requires
        w is Boolean || w is Text,
    ensures
        crate::text::json_text(w).len() >= 2,
{
    match w {
        JVal::Text(s) => {
            lemma_escape_text_len(s);
        },
        _ => {},
    }
}

proof fn lemma_escape_text_len(s: Seq<char>)
    ensures
        crate::text::escape_text(s).len() >= 0,
    decreases s.len(),
{
    if s.len() > 0 {
        lemma_escape_text_len(s.drop_last());
    }
}

/// The JSON text of a wrapped scalar message `[1, w, n]` with a one-digit
/// sequence id is six characters more than the text of `w`.
proof fn lemma_envelope_text_len(w: JVal, n: int)
    requires
        0 <= n <= 9,
    ensures
        crate::text::json_text(JVal::Array(seq![JVal::Integer(1), w, JVal::Integer(n)])).len()
            == crate::text::json_text(w).len() + 6,
{
    reveal_with_fuel(crate::text::elems_text, 4);
    reveal_with_fuel(crate::text::json_text, 2);
    let es = seq![JVal::Integer(1), w, JVal::Integer(n)];
    assert(int_text(1) =~= seq![crate::text::digit_char(1)]);
    assert(int_text(n) =~= seq![crate::text::digit_char(n)]);
    assert(es.last() == JVal::Integer(n));
    assert(es.drop_last() =~= seq![JVal::Integer(1), w]);
    assert(es.drop_last().last() == w);
    assert(es.drop_last().drop_last() =~= seq![JVal::Integer(1)]);
    assert(seq![JVal::Integer(1)].last() == JVal::Integer(1));
    assert(crate::text::elems_text(seq![JVal::Integer(1)]) == int_text(1));
    assert(crate::text::elems_text(es.drop_last()) == int_text(1) + seq![',']
        + crate::text::json_text(w));
    assert(crate::text::elems_text(es) == crate::text::elems_text(es.drop_last()) + seq![',']
        + int_text(n));
}

/// The key of a non-string coherent leaf never starts with a tilde; a
/// string's key always does.
pub proof fn lemma_leaf_key_shape(v: JVal)
    requires
        leaf_coherent(v),
        v is Integer || v is NumberText || v is Text,
    ensures
        v is Text ==> key_of(v).len() > 0 && key_of(v)[0] == '~',
        !(v is Text) ==> key_of(v) == lit_of(v) && key_of(v).len() > 0 && key_of(v)[0] != '~',
{
    match v {
        JVal::Integer(i) => {
            assert(lit_of(v) == int_text(i));
            if i < 0 {
                assert(int_text(i)[0] == '-');
            } else {
                lemma_nat_text(i);
                assert(is_digit(int_text(i)[0]));
            }
        },
        JVal::NumberText(t) => {
            // coherence forces the literal to read back as this number, so
            // it parses as a finite float and not as an integer
            assert(decode_lit(t) == v);
            assert(!parses_as_int(t));
            assert(parses_as_float(t));
            lemma_parses_as_float_first_char(t);
        },
        JVal::Text(s) => {
            assert(key_of(v) == seq!['~'] + s);
        },
        _ => {},
    }
}

} // verus!
