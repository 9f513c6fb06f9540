use jsonm::packer::PackOptions;
use jsonm::packer::Packer;
use jsonm::text::to_json_text;
use jsonm::unpacker::Unpacker;
use jsonm::value::JsonValue;

fn jnull() -> JsonValue {
    JsonValue::Null
}

fn jbool(b: bool) -> JsonValue {
    JsonValue::Boolean(b)
}

fn jint(i: i64) -> JsonValue {
    JsonValue::Integer(i)
}

fn jnum(t: &str) -> JsonValue {
    JsonValue::NumberText(t.to_string())
}

fn jstr(s: &str) -> JsonValue {
    JsonValue::Text(s.to_string())
}

fn jarr(es: Vec<JsonValue>) -> JsonValue {
    JsonValue::Array(es)
}

fn jobj(es: Vec<(&str, JsonValue)>) -> JsonValue {
    JsonValue::Object(es.into_iter().map(|(k, v)| (k.to_string(), v)).collect())
}

fn round_trip(v: &JsonValue) -> JsonValue {
    let mut packer = Packer::new();
    let mut unpacker = Unpacker::new();
    let options = PackOptions::new();
    let packed = packer.pack(v, &options).unwrap();
    unpacker.unpack(&packed).unwrap()
}

#[test]
fn escape_rule_strings_round_trip_as_strings() {
    for s in ["1", ".1", "-1", "~", "~1", "~~1"] {
        let mut packer = Packer::new();
        let mut unpacker = Unpacker::new();
        let options = PackOptions::new();
        let packed = packer.pack(&jstr(s), &options).unwrap();
        let unpacked = unpacker.unpack(&packed).unwrap();
        assert_eq!(unpacked, jstr(s), "string {:?} must round-trip", s);
    }
}

#[test]
fn minus_digit_strings_are_escaped() {
    // A bare "-1" would read back as the number, so the escape rule covers
    // a leading minus sign too.
    let mut packer = Packer::new();
    let mut unpacker = Unpacker::new();
    let options = PackOptions::new();
    let packed = packer.pack(&jstr("-1"), &options).unwrap();
    assert_eq!(packed, jarr(vec![jint(1), jstr("~-1"), jint(0)]));
    let unpacked = unpacker.unpack(&packed).unwrap();
    assert_eq!(unpacked, jstr("-1"));
}

#[test]
fn repeated_values_round_trip_across_messages() {
    let mut packer = Packer::new();
    let mut unpacker = Unpacker::new();
    let options = PackOptions::new();
    let value = jobj(vec![
        ("name", jstr("watchdog")),
        ("level", jint(3)),
        ("ratio", jnum("0.5")),
        ("tags", jarr(vec![jstr("a"), jstr("b"), jnull()])),
    ]);
    for _ in 0..5 {
        let packed = packer.pack(&value, &options).unwrap();
        let unpacked = unpacker.unpack(&packed).unwrap();
        assert_eq!(unpacked, value);
    }
}

#[test]
fn empty_object_round_trips() {
    assert_eq!(round_trip(&jobj(vec![])), jobj(vec![]));
}

#[test]
fn sequence_ids_count_up_from_zero() {
    let mut packer = Packer::new();
    let options = PackOptions::new();
    for k in 0..4 {
        let packed = packer.pack(&jstr("x"), &options).unwrap();
        match packed {
            JsonValue::Array(es) => {
                assert_eq!(es[es.len() - 1], jint(k));
            },
            _ => panic!("a message is always an array"),
        }
    }
}

#[test]
fn no_sequence_id_omits_the_envelope() {
    let mut packer = Packer::new();
    let mut options = PackOptions::new();
    options.no_sequence_id = true;
    let packed = packer.pack(&jint(7), &options).unwrap();
    assert_eq!(packed, jstr("7"));
}

#[test]
fn second_encoding_is_strictly_shorter() {
    let mut packer = Packer::new();
    let options = PackOptions::new();
    let value = jobj(vec![("bar", jint(1)), ("foo", jint(2))]);
    let first = packer.pack(&value, &options).unwrap();
    let second = packer.pack(&value, &options).unwrap();
    assert!(to_json_text(&second).len() < to_json_text(&first).len());
}

#[test]
fn unpack_rejects_a_scalar_message() {
    let mut unpacker = Unpacker::new();
    let err = unpacker.unpack(&jint(3)).unwrap_err();
    assert_eq!(err.cause, "packed value expected");
}

#[test]
fn unpack_rejects_an_empty_array() {
    let mut unpacker = Unpacker::new();
    let err = unpacker.unpack(&jarr(vec![])).unwrap_err();
    assert_eq!(err.cause, "packed value expected");
}

#[test]
fn unpack_rejects_a_message_without_a_sequence_id() {
    let mut unpacker = Unpacker::new();
    let err = unpacker
        .unpack(&jarr(vec![jstr("foo"), jstr("bar")]))
        .unwrap_err();
    assert_eq!(err.cause, "packed value expected");
}

#[test]
fn unpack_rejects_an_unknown_backreference() {
    let mut unpacker = Unpacker::new();
    let err = unpacker
        .unpack(&jarr(vec![jint(1), jint(99), jint(0)]))
        .unwrap_err();
    assert_eq!(err.cause, "no stored value");
}

#[test]
fn unpack_rejects_a_fractional_backreference() {
    let mut unpacker = Unpacker::new();
    let err = unpacker
        .unpack(&jarr(vec![jint(1), jnum("1.5"), jint(0)]))
        .unwrap_err();
    assert_eq!(err.cause, "unknown");
}

#[test]
fn unpack_rejects_a_negative_backreference() {
    let mut unpacker = Unpacker::new();
    let err = unpacker
        .unpack(&jarr(vec![jint(1), jint(-4), jint(0)]))
        .unwrap_err();
    assert_eq!(err.cause, "unknown");
}

#[test]
fn unpack_rejects_a_bare_value_tag() {
    let mut unpacker = Unpacker::new();
    let err = unpacker.unpack(&jarr(vec![jint(1), jint(0)])).unwrap_err();
    assert_eq!(err.cause, "wrong packed object");
}

#[test]
fn unpack_rejects_string_fragments_that_are_not_strings() {
    let mut unpacker = Unpacker::new();
    let err = unpacker
        .unpack(&jarr(vec![
            jint(2),
            jarr(vec![jint(0), jstr("x")]),
            jint(0),
        ]))
        .unwrap_err();
    assert_eq!(err.cause, "wrong packed object");
}

#[test]
fn out_of_sequence_leaves_the_counter_alone() {
    let mut packer = Packer::new();
    let mut unpacker = Unpacker::new();
    let options = PackOptions::new();
    let msg0 = packer.pack(&jstr("a"), &options).unwrap();
    let msg1 = packer.pack(&jstr("b"), &options).unwrap();
    let msg2 = packer.pack(&jstr("c"), &options).unwrap();

    assert!(unpacker.unpack(&msg2).is_err());
    assert!(unpacker.unpack(&msg1).is_err());
    assert_eq!(unpacker.unpack(&msg0).unwrap(), jstr("a"));
    assert_eq!(unpacker.unpack(&msg1).unwrap(), jstr("b"));
    assert_eq!(unpacker.unpack(&msg2).unwrap(), jstr("c"));
}

#[test]
fn integer_and_string_with_the_same_text_get_their_own_entries() {
    let mut packer = Packer::new();
    let mut unpacker = Unpacker::new();
    let options = PackOptions::new();
    let value = jobj(vec![("a", jint(1)), ("b", jstr("1"))]);
    let packed = packer.pack(&value, &options).unwrap();
    let unpacked = unpacker.unpack(&packed).unwrap();
    assert_eq!(unpacked, value);

    // both memoised separately: the second message backreferences each
    let packed = packer.pack(&value, &options).unwrap();
    assert_eq!(
        packed,
        jarr(vec![jint(3), jint(4), jint(5), jint(6), jint(1)])
    );
    // a backreference to a number-like string reads back as the number:
    // such strings survive one message but not a repetition
    let unpacked = unpacker.unpack(&packed).unwrap();
    assert_eq!(unpacked, jobj(vec![("a", jint(1)), ("b", jint(1))]));
}

#[test]
fn backreference_reparses_exponent_literals_as_numbers() {
    // "1e5" is no number on first sight (the wire gate wants a decimal
    // point), but a backreference reparses the stored literal with the
    // full float grammar and finds a number.
    let mut packer = Packer::new();
    let mut unpacker = Unpacker::new();
    let options = PackOptions::new();
    let packed = packer.pack(&jstr("1e5"), &options).unwrap();
    assert_eq!(packed, jarr(vec![jint(1), jstr("~1e5"), jint(0)]));
    assert_eq!(unpacker.unpack(&packed).unwrap(), jstr("1e5"));

    let packed = packer.pack(&jstr("1e5"), &options).unwrap();
    assert_eq!(packed, jarr(vec![jint(1), jint(3), jint(1)]));
    assert_eq!(unpacker.unpack(&packed).unwrap(), jnum("1e5"));
}

#[test]
fn backreference_reparses_plus_literals_as_integers() {
    let mut packer = Packer::new();
    let mut unpacker = Unpacker::new();
    let options = PackOptions::new();
    let packed = packer.pack(&jstr("+1"), &options).unwrap();
    assert_eq!(packed, jarr(vec![jint(1), jstr("+1"), jint(0)]));
    assert_eq!(unpacker.unpack(&packed).unwrap(), jstr("+1"));

    let packed = packer.pack(&jstr("+1"), &options).unwrap();
    assert_eq!(packed, jarr(vec![jint(1), jint(3), jint(1)]));
    assert_eq!(unpacker.unpack(&packed).unwrap(), jint(1));
}

#[test]
fn backreference_reparses_nonfinite_words_to_null() {
    // "inf" parses as a float with no JSON value behind it; the reparse of
    // the stored literal therefore yields null.
    let mut packer = Packer::new();
    let mut unpacker = Unpacker::new();
    let options = PackOptions::new();
    let packed = packer.pack(&jstr("inf"), &options).unwrap();
    assert_eq!(packed, jarr(vec![jint(1), jstr("inf"), jint(0)]));
    assert_eq!(unpacker.unpack(&packed).unwrap(), jstr("inf"));

    let packed = packer.pack(&jstr("inf"), &options).unwrap();
    assert_eq!(packed, jarr(vec![jint(1), jint(3), jint(1)]));
    assert_eq!(unpacker.unpack(&packed).unwrap(), jnull());
}

#[test]
fn unpack_string_serialises_non_string_messages() {
    let mut packer = Packer::new();
    let mut unpacker = Unpacker::new();
    let options = PackOptions::new();
    let packed = packer.pack(&jstr("foo"), &options).unwrap();
    let unpacked = unpacker.unpack_string(&packed).unwrap();
    assert_eq!(unpacked, "\"foo\"");
}

#[test]
fn unpack_string_escapes_json_text() {
    let mut packer = Packer::new();
    let mut unpacker = Unpacker::new();
    let options = PackOptions::new();
    let value = jobj(vec![("a\"b", jstr("line\nbreak\\slash"))]);
    let packed = packer.pack(&value, &options).unwrap();
    let unpacked = unpacker.unpack_string(&packed).unwrap();
    assert_eq!(unpacked, "{\"a\\\"b\":\"line\\nbreak\\\\slash\"}");
}

#[test]
fn negative_and_extreme_integers_round_trip() {
    let value = jarr(vec![
        jint(-1),
        jint(i64::MIN),
        jint(i64::MAX),
        jint(0),
        jint(-700),
    ]);
    assert_eq!(round_trip(&value), value);
}

#[test]
fn number_texts_with_exponents_round_trip() {
    let value = jarr(vec![jnum("1.5e3"), jnum("-0.25"), jnum("2.0")]);
    assert_eq!(round_trip(&value), value);
}

#[test]
fn booleans_round_trip_in_a_single_message() {
    let value = jarr(vec![jbool(true), jbool(false)]);
    assert_eq!(round_trip(&value), value);
}

#[test]
fn pack_string_of_a_json_array_keeps_the_array_tag() {
    let mut packer = Packer::new();
    let mut unpacker = Unpacker::new();
    let options = PackOptions::new();
    let packed = packer.pack_string("[1,2]", &options).unwrap();
    assert_eq!(
        packed,
        jarr(vec![jint(0), jstr("1"), jstr("2"), jint(0)])
    );
    let unpacked = unpacker.unpack(&packed).unwrap();
    assert_eq!(unpacked, jarr(vec![jint(1), jint(2)]));
}

#[test]
fn pack_string_of_a_single_line_packs_one_fragment() {
    let mut packer = Packer::new();
    let mut unpacker = Unpacker::new();
    let options = PackOptions::new();
    let packed = packer.pack_string("plain text", &options).unwrap();
    assert_eq!(packed, jarr(vec![jint(2), jstr("plain text"), jint(0)]));
    let unpacked = unpacker.unpack_string(&packed).unwrap();
    assert_eq!(unpacked, "plain text");
}

#[test]
fn reset_restarts_the_sequence_at_zero() {
    let mut packer = Packer::new();
    let options = PackOptions::new();
    packer.pack(&jstr("x"), &options).unwrap();
    packer.pack(&jstr("y"), &options).unwrap();
    packer.reset();
    let packed = packer.pack(&jstr("z"), &options).unwrap();
    match packed {
        JsonValue::Array(es) => assert_eq!(es[es.len() - 1], jint(0)),
        _ => panic!("a message is always an array"),
    }
}

#[test]
fn a_receiver_mid_session_accepts_a_reset() {
    let mut packer = Packer::new();
    let mut unpacker = Unpacker::new();
    let options = PackOptions::new();
    for _ in 0..3 {
        let m = packer.pack(&jobj(vec![("k", jstr("v"))]), &options).unwrap();
        unpacker.unpack(&m).unwrap();
    }
    packer.reset();
    let m = packer.pack(&jobj(vec![("k", jstr("v"))]), &options).unwrap();
    let unpacked = unpacker.unpack(&m).unwrap();
    assert_eq!(unpacked, jobj(vec![("k", jstr("v"))]));
}

#[test]
fn eviction_reassigns_slots_and_still_round_trips() {
    let mut packer = Packer::new();
    let mut unpacker = Unpacker::new();
    packer.set_max_dict_size(3);
    unpacker.set_max_dict_size(3);
    let options = PackOptions::new();
    // four distinct scalars overflow a three-slot dictionary
    let v1 = jarr(vec![jstr("aa"), jstr("bb"), jstr("cc"), jstr("dd")]);
    let packed = packer.pack(&v1, &options).unwrap();
    assert_eq!(unpacker.unpack(&packed).unwrap(), v1);
    // the first string was evicted, so it is emitted literally again
    let packed = packer.pack(&jarr(vec![jstr("aa")]), &options).unwrap();
    assert_eq!(packed, jarr(vec![jint(0), jstr("aa"), jint(1)]));
    assert_eq!(unpacker.unpack(&packed).unwrap(), jarr(vec![jstr("aa")]));
}

#[test]
fn pack_string_of_empty_text_round_trips() {
    let mut packer = Packer::new();
    let mut unpacker = Unpacker::new();
    let options = PackOptions::new();
    let packed = packer.pack_string("", &options).unwrap();
    assert_eq!(packed, jarr(vec![jint(2), jint(0)]));
    let unpacked = unpacker.unpack_string(&packed).unwrap();
    assert_eq!(unpacked, "");
}

#[test]
fn pack_string_of_a_json_number() {
    let mut packer = Packer::new();
    let mut unpacker = Unpacker::new();
    let options = PackOptions::new();
    let packed = packer.pack_string("1.5", &options).unwrap();
    assert_eq!(packed, jarr(vec![jint(1), jstr("1.5"), jint(0)]));
    let unpacked = unpacker.unpack(&packed).unwrap();
    assert_eq!(unpacked, jnum("1.5"));
}

#[test]
fn depth_zero_opens_top_level_strings() {
    let mut packer = Packer::new();
    let mut unpacker = Unpacker::new();
    let mut options = PackOptions::new();
    options.pack_string_depth = 0;
    let packed = packer.pack(&jstr("a\nb"), &options).unwrap();
    assert_eq!(packed, jarr(vec![jint(2), jstr("a"), jstr("b"), jint(0)]));
    let unpacked = unpacker.unpack(&packed).unwrap();
    assert_eq!(unpacked, jstr("a\nb"));
}

#[test]
fn depth_zero_unwraps_quoted_json_strings() {
    let mut packer = Packer::new();
    let mut unpacker = Unpacker::new();
    let mut options = PackOptions::new();
    options.pack_string_depth = 0;
    let packed = packer.pack(&jstr("\"inner\""), &options).unwrap();
    assert_eq!(packed, jarr(vec![jint(2), jstr("inner"), jint(0)]));
    let unpacked = unpacker.unpack_string(&packed).unwrap();
    assert_eq!(unpacked, "inner");
}

#[test]
fn shrinking_the_bound_mid_session_keeps_the_peers_in_step() {
    let mut packer = Packer::new();
    let mut unpacker = Unpacker::new();
    let options = PackOptions::new();
    let first = jarr(vec![jstr("aa"), jstr("bb"), jstr("cc"), jstr("dd")]);
    let packed = packer.pack(&first, &options).unwrap();
    assert_eq!(unpacker.unpack(&packed).unwrap(), first);

    // both peers shrink the bound the same way: the encoder forgets the
    // slots the new bound cannot reach and both pointers rewind
    packer.set_max_dict_size(2);
    unpacker.set_max_dict_size(2);

    let second = jarr(vec![jstr("aa"), jstr("bb"), jstr("cc")]);
    let packed = packer.pack(&second, &options).unwrap();
    assert_eq!(
        packed,
        jarr(vec![jint(0), jint(3), jint(4), jstr("cc"), jint(1)])
    );
    assert_eq!(unpacker.unpack(&packed).unwrap(), second);

    let third = jarr(vec![jstr("cc")]);
    let packed = packer.pack(&third, &options).unwrap();
    assert_eq!(packed, jarr(vec![jint(0), jint(3), jint(2)]));
    assert_eq!(unpacker.unpack(&packed).unwrap(), third);
}

#[test]
fn packer_error_text_is_reachable() {
    // `pack` never fails; the error type still carries its cause.
    let mut packer = Packer::new();
    let options = PackOptions::new();
    assert!(packer.pack(&jstr("anything"), &options).is_ok());
}
