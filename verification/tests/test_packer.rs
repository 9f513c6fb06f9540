use jsonm::packer::PackOptions;
use jsonm::packer::Packer;
use jsonm::unpacker::Unpacker;
use jsonm::value::JsonValue;

const TYPE_ARRAY: i64 = 0;
const TYPE_VALUE: i64 = 1;
const TYPE_STRING: i64 = 2;

fn jnull() -> JsonValue {
    JsonValue::Null
}

fn jbool(b: bool) -> JsonValue {
    JsonValue::Boolean(b)
}

fn jint(i: i64) -> JsonValue {
    JsonValue::Integer(i)
}

fn jnum(t: &str) -> JsonValue {
    JsonValue::NumberText(t.to_string())
}

fn jstr(s: &str) -> JsonValue {
    JsonValue::Text(s.to_string())
}

fn jarr(es: Vec<JsonValue>) -> JsonValue {
    JsonValue::Array(es)
}

fn jobj(es: Vec<(&str, JsonValue)>) -> JsonValue {
    JsonValue::Object(es.into_iter().map(|(k, v)| (k.to_string(), v)).collect())
}

#[test]
fn it_packs_small_integers_as_string_values() {
    let mut packer = Packer::new();
    let mut unpacker = Unpacker::new();
    let options = PackOptions::new();
    let packed = packer.pack(&jobj(vec![("foo", jint(1))]), &options).unwrap();
    let unpacked = unpacker.unpack(&packed).unwrap();
    assert_eq!(packed, jarr(vec![jstr("foo"), jstr("1"), jint(0)]));
    assert_eq!(unpacked, jobj(vec![("foo", jint(1))]));
}

#[test]
fn it_packs_large_integers_as_string_values() {
    let mut packer = Packer::new();
    let mut unpacker = Unpacker::new();
    let options = PackOptions::new();
    let packed = packer.pack(&jobj(vec![("foo", jint(1000))]), &options).unwrap();
    let unpacked = unpacker.unpack(&packed).unwrap();
    assert_eq!(packed, jarr(vec![jstr("foo"), jstr("1000"), jint(0)]));
    assert_eq!(unpacked, jobj(vec![("foo", jint(1000))]));
}

#[test]
fn it_packs_arrays_using_minus_1() {
    let mut packer = Packer::new();
    let options = PackOptions::new();
    let packed = packer.pack(&jarr(vec![jint(0), jint(1), jint(2)]), &options).unwrap();
    assert_eq!(
        packed,
        jarr(vec![jint(TYPE_ARRAY), jstr("0"), jstr("1"), jstr("2"), jint(0)])
    );

    let mut unpacker = Unpacker::new();
    let unpacked = unpacker.unpack(&packed).unwrap();
    assert_eq!(unpacked, jarr(vec![jint(0), jint(1), jint(2)]));
}

#[test]
fn it_packs_floats_just_fine() {
    let mut packer = Packer::new();
    let options = PackOptions::new();
    let packed = packer.pack(&jnum("1.5"), &options).unwrap();
    assert_eq!(packed, jarr(vec![jint(TYPE_VALUE), jstr("1.5"), jint(0)]));

    let mut unpacker = Unpacker::new();
    let unpacked = unpacker.unpack(&packed).unwrap();
    assert_eq!(unpacked, jnum("1.5"));
}

#[test]
fn it_packs_true_just_fine() {
    let mut packer = Packer::new();
    let options = PackOptions::new();
    let packed = packer.pack(&jbool(true), &options).unwrap();
    assert_eq!(packed, jarr(vec![jint(TYPE_VALUE), jbool(true), jint(0)]));

    let mut unpacker = Unpacker::new();
    let unpacked = unpacker.unpack(&packed).unwrap();
    assert_eq!(unpacked, jbool(true));
}

#[test]
fn it_packs_arrays_with_minus_1_just_fine() {
    let mut packer = Packer::new();
    let options = PackOptions::new();
    let packed = packer.pack(&jarr(vec![jint(-1)]), &options).unwrap();
    assert_eq!(packed, jarr(vec![jint(TYPE_ARRAY), jstr("-1"), jint(0)]));

    let mut unpacker = Unpacker::new();
    let unpacked = unpacker.unpack(&packed).unwrap();
    assert_eq!(unpacked, jarr(vec![jint(-1)]));
}

#[test]
fn it_packs_empty_arrays_just_fine() {
    let mut packer = Packer::new();
    let options = PackOptions::new();
    let packed = packer.pack(&jarr(vec![]), &options).unwrap();
    assert_eq!(packed, jarr(vec![jint(TYPE_ARRAY), jint(0)]));

    let mut unpacker = Unpacker::new();
    let unpacked = unpacker.unpack(&packed).unwrap();
    assert_eq!(unpacked, jarr(vec![]));
}

#[test]
fn it_packs_number_string_just_fine() {
    let mut packer = Packer::new();
    let options = PackOptions::new();
    let packed = packer.pack(&jstr("1"), &options).unwrap();
    assert_eq!(packed, jarr(vec![jint(TYPE_VALUE), jstr("~1"), jint(0)]));

    let mut unpacker = Unpacker::new();
    let unpacked = unpacker.unpack(&packed).unwrap();
    assert_eq!(unpacked, jstr("1"));
}

#[test]
fn it_packs_dot_number_string_just_fine() {
    let mut packer = Packer::new();
    let options = PackOptions::new();
    let packed = packer.pack(&jstr(".1"), &options).unwrap();
    assert_eq!(packed, jarr(vec![jint(TYPE_VALUE), jstr("~.1"), jint(0)]));

    let mut unpacker = Unpacker::new();
    let unpacked = unpacker.unpack(&packed).unwrap();
    assert_eq!(unpacked, jstr(".1"));
}

#[test]
fn it_packs_tilde_strings_just_fine() {
    let mut packer = Packer::new();
    let options = PackOptions::new();
    let packed = packer.pack(&jstr("~1"), &options).unwrap();
    assert_eq!(packed, jarr(vec![jint(TYPE_VALUE), jstr("~~1"), jint(0)]));

    let mut unpacker = Unpacker::new();
    let unpacked = unpacker.unpack(&packed).unwrap();
    assert_eq!(unpacked, jstr("~1"));
}

#[test]
fn it_packs_tilde_tilde_strings_just_fine() {
    let mut packer = Packer::new();
    let options = PackOptions::new();
    let packed = packer.pack(&jstr("~~1"), &options).unwrap();
    assert_eq!(packed, jarr(vec![jint(TYPE_VALUE), jstr("~~~1"), jint(0)]));

    let mut unpacker = Unpacker::new();
    let unpacked = unpacker.unpack(&packed).unwrap();
    assert_eq!(unpacked, jstr("~~1"));
}

#[test]
fn it_packs_multi_key_objects() {
    let mut packer = Packer::new();
    let options = PackOptions::new();
    let packed = packer
        .pack(
            &jobj(vec![
                ("bar", jint(1)),
                ("baz", jint(2)),
                ("foo", jobj(vec![("qux", jint(3))])),
            ]),
            &options,
        )
        .unwrap();
    assert_eq!(
        packed,
        jarr(vec![
            jstr("bar"),
            jstr("baz"),
            jstr("foo"),
            jstr("1"),
            jstr("2"),
            jarr(vec![jstr("qux"), jstr("3")]),
            jint(0),
        ])
    );

    let mut unpacker = Unpacker::new();
    let unpacked = unpacker.unpack(&packed).unwrap();
    assert_eq!(
        unpacked,
        jobj(vec![
            ("bar", jint(1)),
            ("baz", jint(2)),
            ("foo", jobj(vec![("qux", jint(3))])),
        ])
    );
}

#[test]
fn it_packs_nested_arrays_and_objects() {
    let mut packer = Packer::new();
    let options = PackOptions::new();
    let value = jarr(vec![jobj(vec![(
        "a",
        jarr(vec![jarr(vec![jobj(vec![("b", jint(12))])])]),
    )])]);
    let packed = packer.pack(&value, &options).unwrap();
    assert_eq!(
        packed,
        jarr(vec![
            jint(TYPE_ARRAY),
            jarr(vec![
                jstr("a"),
                jarr(vec![
                    jint(TYPE_ARRAY),
                    jarr(vec![jint(TYPE_ARRAY), jarr(vec![jstr("b"), jstr("12")])]),
                ]),
            ]),
            jint(0),
        ])
    );

    let mut unpacker = Unpacker::new();
    let unpacked = unpacker.unpack(&packed).unwrap();
    assert_eq!(unpacked, value);
}

#[test]
fn it_uses_memoization_the_second_time() {
    let mut packer = Packer::new();
    let mut unpacker = Unpacker::new();

    let options = PackOptions::new();
    let value = jobj(vec![("bar", jint(1)), ("foo", jint(2))]);
    let packed = packer.pack(&value, &options).unwrap();
    assert_eq!(
        packed,
        jarr(vec![jstr("bar"), jstr("foo"), jstr("1"), jstr("2"), jint(0)])
    );
    let unpacked = unpacker.unpack(&packed).unwrap();
    assert_eq!(unpacked, jobj(vec![("bar", jint(1)), ("foo", jint(2))]));

    let packed = packer.pack(&value, &options).unwrap();
    assert_eq!(packed, jarr(vec![jint(3), jint(4), jint(5), jint(6), jint(1)]));
    let unpacked = unpacker.unpack(&packed).unwrap();
    assert_eq!(unpacked, jobj(vec![("bar", jint(1)), ("foo", jint(2))]));

    let packed = packer.pack(&value, &options).unwrap();
    assert_eq!(packed, jarr(vec![jint(3), jint(4), jint(5), jint(6), jint(2)]));
    let unpacked = unpacker.unpack(&packed).unwrap();
    assert_eq!(unpacked, jobj(vec![("bar", jint(1)), ("foo", jint(2))]));
}

#[test]
fn it_handles_strings_and_ints_with_the_same_value() {
    let mut packer = Packer::new();
    let options = PackOptions::new();
    let packed = packer
        .pack(&jobj(vec![("bar", jint(1)), ("foo", jstr("1"))]), &options)
        .unwrap();
    assert_eq!(
        packed,
        jarr(vec![jstr("bar"), jstr("foo"), jstr("1"), jstr("~1"), jint(0)])
    );

    let mut unpacker = Unpacker::new();
    let unpacked = unpacker.unpack(&packed).unwrap();
    assert_eq!(unpacked, jobj(vec![("bar", jint(1)), ("foo", jstr("1"))]));
}

#[test]
fn it_packs_multi_line_strings_as_normal_values() {
    let mut packer = Packer::new();
    let options = PackOptions::new();
    let packed = packer
        .pack(&jstr("hello there\nthis is\r\na multi-line string"), &options)
        .unwrap();
    assert_eq!(
        packed,
        jarr(vec![
            jint(TYPE_VALUE),
            jstr("hello there\nthis is\r\na multi-line string"),
            jint(0),
        ])
    );

    let mut unpacker = Unpacker::new();
    let unpacked = unpacker.unpack(&packed).unwrap();
    assert_eq!(unpacked, jstr("hello there\nthis is\r\na multi-line string"));
}

#[test]
fn it_packs_multi_line_strings_as_separate_values_in_string_packing_mode() {
    let mut packer = Packer::new();
    let options = PackOptions::new();
    let packed = packer
        .pack_string("hello there\nthis is\r\na multi-line string", &options)
        .unwrap();
    assert_eq!(
        packed,
        jarr(vec![
            jint(TYPE_STRING),
            jstr("hello there"),
            jstr("this is"),
            jstr("a multi-line string"),
            jint(0),
        ])
    );

    let mut unpacker = Unpacker::new();
    let unpacked = unpacker.unpack(&packed).unwrap();
    assert_eq!(unpacked, jstr("hello there\nthis is\na multi-line string"));
}

#[test]
fn it_copes_with_calling_unpack_multiple_times() {
    let mut packer = Packer::new();
    let options = PackOptions::new();
    let packed = packer.pack(&jobj(vec![("foo", jint(1))]), &options).unwrap();
    assert_eq!(packed, jarr(vec![jstr("foo"), jstr("1"), jint(0)]));

    let mut unpacker = Unpacker::new();
    let unpacked = unpacker.unpack(&packed).unwrap();
    assert_eq!(unpacked, jobj(vec![("foo", jint(1))]));

    match unpacker.unpack(&packed) {
        Ok(_) => (),
        Err(err) => assert_eq!(err.cause, "unable to unpack to specific type"),
    };
}

#[test]
fn it_packs_json_strings() {
    let mut packer = Packer::new();
    let options = PackOptions::new();
    let packed = packer
        .pack_string("{\"bar\":1,\"foo\":2}", &options)
        .unwrap();
    assert_eq!(
        packed,
        jarr(vec![jstr("bar"), jstr("foo"), jstr("1"), jstr("2"), jint(0)])
    );

    let mut unpacker = Unpacker::new();
    let unpacked = unpacker.unpack(&packed).unwrap();
    assert_eq!(unpacked, jobj(vec![("bar", jint(1)), ("foo", jint(2))]));
}

#[test]
fn it_packs_json_strings_and_can_unpack_them_as_string() {
    let mut packer = Packer::new();
    let options = PackOptions::new();
    let packed = packer
        .pack_string("{\"bar\":1,\"foo\":2}", &options)
        .unwrap();
    assert_eq!(
        packed,
        jarr(vec![jstr("bar"), jstr("foo"), jstr("1"), jstr("2"), jint(0)])
    );

    let mut unpacker = Unpacker::new();
    let unpacked: String = unpacker.unpack_string(&packed).unwrap();
    assert!(["{\"bar\":1,\"foo\":2}", "{\"foo\":2,\"bar\":1}"].contains(&unpacked.as_str()));
}

#[test]
fn it_has_symmetrical_pack_string_and_unpack_string_for_strings() {
    let mut packer = Packer::new();
    let options = PackOptions::new();
    let packed = packer
        .pack_string("hello there\nthis is\na multi-line string", &options)
        .unwrap();
    assert_eq!(
        packed,
        jarr(vec![
            jint(TYPE_STRING),
            jstr("hello there"),
            jstr("this is"),
            jstr("a multi-line string"),
            jint(0),
        ])
    );

    let mut unpacker = Unpacker::new();
    let unpacked: String = unpacker.unpack_string(&packed).unwrap();
    assert_eq!(unpacked, "hello there\nthis is\na multi-line string");
}

#[test]
fn it_has_no_issues_going_over_a_very_small_dictionary_size() {
    let mut packer = Packer::new();
    let mut unpacker = Unpacker::new();
    packer.set_max_dict_size(6);
    unpacker.set_max_dict_size(6);

    let options = PackOptions::new();
    let packed = packer
        .pack(&jarr(vec![jint(1), jint(2), jint(3), jint(4)]), &options)
        .unwrap();
    let unpacked = unpacker.unpack(&packed).unwrap();
    assert_eq!(unpacked, jarr(vec![jint(1), jint(2), jint(3), jint(4)]));

    let packed = packer
        .pack(&jarr(vec![jint(7), jint(8), jint(1), jint(2)]), &options)
        .unwrap();
    assert_eq!(
        packed,
        jarr(vec![jint(TYPE_ARRAY), jstr("7"), jstr("8"), jint(3), jint(4), jint(1)])
    );
    let unpacked = unpacker.unpack(&packed).unwrap();
    assert_eq!(unpacked, jarr(vec![jint(7), jint(8), jint(1), jint(2)]));

    let packed = packer
        .pack(
            &jarr(vec![jint(1), jint(2), jint(5), jint(6), jint(1), jint(5)]),
            &options,
        )
        .unwrap();
    assert_eq!(
        packed,
        jarr(vec![
            jint(TYPE_ARRAY),
            jint(3),
            jint(4),
            jstr("5"),
            jstr("6"),
            jstr("1"),
            jint(3),
            jint(2),
        ])
    );
    let unpacked = unpacker.unpack(&packed).unwrap();
    assert_eq!(
        unpacked,
        jarr(vec![jint(1), jint(2), jint(5), jint(6), jint(1), jint(5)])
    );

    let packed = packer
        .pack(
            &jobj(vec![("5", jint(11)), ("10", jint(5)), ("12", jint(13))]),
            &options,
        )
        .unwrap();
    assert_eq!(
        packed,
        jarr(vec![
            jstr("~5"),
            jstr("~10"),
            jstr("~12"),
            jstr("11"),
            jstr("5"),
            jstr("13"),
            jint(3),
        ])
    );
    let unpacked = unpacker.unpack(&packed).unwrap();
    assert_eq!(
        unpacked,
        jobj(vec![("5", jint(11)), ("10", jint(5)), ("12", jint(13))])
    );

    let packed = packer
        .pack(
            &jobj(vec![("5", jint(11)), ("10", jint(5)), ("12", jint(14))]),
            &options,
        )
        .unwrap();
    assert_eq!(
        packed,
        jarr(vec![jint(6), jint(7), jint(8), jint(3), jint(4), jstr("14"), jint(4)])
    );
    let unpacked = unpacker.unpack(&packed).unwrap();
    assert_eq!(
        unpacked,
        jobj(vec![("5", jint(11)), ("10", jint(5)), ("12", jint(14))])
    );
}

#[test]
fn it_has_no_issues_going_over_dictionary_size() {
    let mut packer = Packer::new();
    let mut unpacker = Unpacker::new();
    packer.set_max_dict_size(99);
    unpacker.set_max_dict_size(99);

    let options = PackOptions::new();
    for i in 0..500 {
        let value = jobj(vec![
            ("bar", jint(50)),
            ("baz", jint(60)),
            ("foo", jint(i)),
            ("qux", jint(i + 1)),
        ]);
        let packed = packer.pack(&value, &options).unwrap();
        let unpacked = unpacker.unpack(&packed).unwrap();
        assert_eq!(
            unpacked,
            jobj(vec![
                ("bar", jint(50)),
                ("baz", jint(60)),
                ("foo", jint(i)),
                ("qux", jint(i + 1)),
            ])
        );
    }
}

#[test]
fn it_handles_packer_being_reset() {
    let mut packer = Packer::new();
    let mut unpacker = Unpacker::new();

    let options = PackOptions::new();
    for _i in 0..100 {
        let packed = packer
            .pack(&jobj(vec![("foo", jint(50)), ("bar", jint(60))]), &options)
            .unwrap();
        let unpacked = unpacker.unpack(&packed).unwrap();
        assert_eq!(unpacked, jobj(vec![("foo", jint(50)), ("bar", jint(60))]));
    }

    let mut packer = Packer::new();
    for _i in 0..100 {
        let packed = packer
            .pack(&jobj(vec![("foo", jint(50)), ("bar", jint(60))]), &options)
            .unwrap();
        let unpacked = unpacker.unpack(&packed).unwrap();
        assert_eq!(unpacked, jobj(vec![("foo", jint(50)), ("bar", jint(60))]));
    }
}

#[test]
fn it_errors_when_the_packer_is_reset_during_message() {
    let mut packer = Packer::new();
    let mut unpacker = Unpacker::new();

    let options = PackOptions::new();
    let packed = packer
        .pack(&jobj(vec![("foo", jint(50)), ("bar", jint(60))]), &options)
        .unwrap();
    let unpacked = unpacker.unpack(&packed).unwrap();
    assert_eq!(unpacked, jobj(vec![("foo", jint(50)), ("bar", jint(60))]));

    packer
        .pack(&jobj(vec![("foo", jint(50)), ("bar", jint(60))]), &options)
        .unwrap();
    let mut unpacker = Unpacker::new();
    match unpacker.unpack(&packed) {
        Ok(_) => (),
        Err(err) => assert_eq!(err.cause, "unable to unpack to specific type"),
    };
}

#[test]
fn it_handles_small_messages_with_more_values_than_dictionary_size() {
    let mut packer = Packer::new();
    let mut unpacker = Unpacker::new();

    packer.set_max_dict_size(5);
    unpacker.set_max_dict_size(5);

    let options = PackOptions::new();
    let value = jarr(vec![
        jint(1),
        jint(2),
        jint(3),
        jint(4),
        jint(5),
        jint(1),
        jint(2),
        jint(3),
        jint(4),
        jint(5),
        jint(6),
    ]);
    let packed = packer.pack(&value, &options).unwrap();
    assert_eq!(
        packed,
        jarr(vec![
            jint(TYPE_ARRAY),
            jstr("1"),
            jstr("2"),
            jstr("3"),
            jstr("4"),
            jstr("5"),
            jint(3),
            jint(4),
            jint(5),
            jint(6),
            jint(7),
            jstr("6"),
            jint(0),
        ])
    );

    let unpacked = unpacker.unpack(&packed).unwrap();
    assert_eq!(unpacked, value);

    let packed = packer.pack(&value, &options).unwrap();
    let unpacked = unpacker.unpack(&packed).unwrap();
    assert_eq!(unpacked, value);
}

#[test]
fn it_handles_small_messages_with_more_values_than_dictionary_size_2() {
    let mut packer = Packer::new();
    let mut unpacker = Unpacker::new();

    packer.set_max_dict_size(4);
    unpacker.set_max_dict_size(4);

    let options = PackOptions::new();
    let value = jarr(vec![
        jint(1),
        jint(2),
        jint(3),
        jint(4),
        jint(1),
        jint(2),
        jint(3),
        jint(4),
        jint(1),
    ]);
    let packed = packer.pack(&value, &options).unwrap();
    assert_eq!(
        packed,
        jarr(vec![
            jint(TYPE_ARRAY),
            jstr("1"),
            jstr("2"),
            jstr("3"),
            jstr("4"),
            jint(3),
            jint(4),
            jint(5),
            jint(6),
            jint(3),
            jint(0),
        ])
    );

    let unpacked = unpacker.unpack(&packed).unwrap();
    assert_eq!(unpacked, value);

    let packed = packer.pack(&value, &options).unwrap();
    let unpacked = unpacker.unpack(&packed).unwrap();
    assert_eq!(unpacked, value);
}

#[test]
fn it_handles_small_messages_with_more_values_than_dictionary_size_3() {
    let mut packer = Packer::new();
    let mut unpacker = Unpacker::new();

    packer.set_max_dict_size(3);
    unpacker.set_max_dict_size(3);

    let options = PackOptions::new();
    let value = jarr(vec![
        jint(1),
        jint(2),
        jint(3),
        jint(4),
        jint(1),
        jint(2),
        jint(3),
        jint(4),
        jint(1),
    ]);
    let packed = packer.pack(&value, &options).unwrap();

    let unpacked = unpacker.unpack(&packed).unwrap();
    assert_eq!(unpacked, value);

    let packed = packer.pack(&value, &options).unwrap();
    let unpacked = unpacker.unpack(&packed).unwrap();
    assert_eq!(unpacked, value);
}

#[test]
fn it_handles_large_messages_with_more_values_than_dictionary_size() {
    let mut packer = Packer::new();
    let mut unpacker = Unpacker::new();

    packer.set_max_dict_size(50);
    unpacker.set_max_dict_size(50);

    let mut input = Vec::new();
    for i in 0..50 {
        input.push(jint(i));
    }
    for i in 0..49 {
        input.push(jint(i));
    }
    for i in 0..51 {
        input.push(jint(i));
    }
    for i in 0..120 {
        input.push(jint(i));
    }
    let value = JsonValue::Array(input);

    let options = PackOptions::new();
    let packed = packer.pack(&value, &options).unwrap();

    let unpacked = unpacker.unpack(&packed).unwrap();
    assert_eq!(unpacked, value);

    let packed = packer.pack(&value, &options).unwrap();
    let unpacked = unpacker.unpack(&packed).unwrap();
    assert_eq!(unpacked, value);
}

#[test]
fn it_handles_large_messages_with_more_values_than_dictionary_size_that_contains_null() {
    let mut packer = Packer::new();
    let mut unpacker = Unpacker::new();

    packer.set_max_dict_size(50);
    unpacker.set_max_dict_size(50);

    let mut input = Vec::new();
    for i in 0..50 {
        input.push(jint(i));
    }
    for i in 0..49 {
        input.push(jint(i));
    }
    for i in 0..51 {
        input.push(jint(i));
    }
    for i in 0..120 {
        input.push(jint(i));
    }

    let to_pack = jarr(vec![jnull(), JsonValue::Array(input)]);

    let options = PackOptions::new();
    let packed = packer.pack(&to_pack, &options).unwrap();

    let unpacked = unpacker.unpack(&packed).unwrap();
    assert_eq!(unpacked, to_pack);

    let packed = packer.pack(&to_pack, &options).unwrap();
    let unpacked = unpacker.unpack(&packed).unwrap();
    assert_eq!(unpacked, to_pack);
}

#[test]
fn it_packs_null() {
    let mut packer = Packer::new();
    let mut unpacker = Unpacker::new();

    let options = PackOptions::new();
    let packed = packer.pack(&jnull(), &options).unwrap();
    let unpacked = unpacker.unpack(&packed).unwrap();
    assert_eq!(unpacked, jnull());
}

#[test]
fn it_packs_null_inside_object() {
    let mut packer = Packer::new();
    let mut unpacker = Unpacker::new();

    let options = PackOptions::new();
    let packed = packer.pack(&jobj(vec![("foo", jnull())]), &options).unwrap();
    let unpacked = unpacker.unpack(&packed).unwrap();
    assert_eq!(unpacked, jobj(vec![("foo", jnull())]));
}

#[test]
fn it_packs_empty_string() {
    let mut packer = Packer::new();
    let mut unpacker = Unpacker::new();

    let options = PackOptions::new();
    let packed = packer.pack(&jstr(""), &options).unwrap();
    let unpacked = unpacker.unpack(&packed).unwrap();
    assert_eq!(unpacked, jstr(""));
}

#[test]
fn it_packs_empty_string_inside_object() {
    let mut packer = Packer::new();
    let mut unpacker = Unpacker::new();

    let options = PackOptions::new();
    let packed = packer.pack(&jobj(vec![("foo", jstr(""))]), &options).unwrap();
    let unpacked = unpacker.unpack(&packed).unwrap();
    assert_eq!(unpacked, jobj(vec![("foo", jstr(""))]));
}

#[test]
fn it_packs_multiple_empty_strings_inside_object() {
    let mut packer = Packer::new();
    let mut unpacker = Unpacker::new();

    let options = PackOptions::new();
    let packed = packer
        .pack(&jobj(vec![("foo", jstr("")), ("bar", jstr(""))]), &options)
        .unwrap();
    assert_eq!(
        packed,
        jarr(vec![jstr("foo"), jstr("bar"), jstr(""), jint(5), jint(0)])
    );
    let unpacked = unpacker.unpack(&packed).unwrap();
    assert_eq!(unpacked, jobj(vec![("foo", jstr("")), ("bar", jstr(""))]));
}

#[test]
fn it_copes_with_messages_in_wrong_order() {
    let mut packer = Packer::new();
    let mut unpacker = Unpacker::new();

    let options = PackOptions::new();
    let packed1 = packer
        .pack(&jobj(vec![("id", jint(1)), ("text", jstr("foo"))]), &options)
        .unwrap();
    let packed2 = packer
        .pack(&jobj(vec![("id", jint(2)), ("text", jstr("foo"))]), &options)
        .unwrap();
    let packed3 = packer
        .pack(&jobj(vec![("id", jint(3)), ("text", jstr("foo"))]), &options)
        .unwrap();

    match unpacker.unpack(&packed3) {
        Ok(_) => (),
        Err(err) => assert_eq!(
            err.cause,
            "message unpacked out of sequence or already unpacked"
        ),
    };
    match unpacker.unpack(&packed2) {
        Ok(_) => (),
        Err(err) => assert_eq!(
            err.cause,
            "message unpacked out of sequence or already unpacked"
        ),
    };
    let unpacked = unpacker.unpack(&packed1).unwrap();
    assert_eq!(unpacked, jobj(vec![("id", jint(1)), ("text", jstr("foo"))]));
}

#[test]
fn it_packs_strings_1_level_deep() {
    let mut packer = Packer::new();
    let mut unpacker = Unpacker::new();

    let mut options = PackOptions::new();
    options.pack_string_depth = 1;
    let value = jarr(vec![
        jstr("foo\nbar"),
        jobj(vec![("deeper", jstr("baz\nqux"))]),
    ]);
    let packed = packer.pack(&value, &options).unwrap();
    assert_eq!(
        packed,
        jarr(vec![
            jint(TYPE_ARRAY),
            jarr(vec![jint(TYPE_STRING), jstr("foo"), jstr("bar")]),
            jarr(vec![jstr("deeper"), jstr("baz\nqux")]),
            jint(0),
        ])
    );
    let unpacked = unpacker.unpack(&packed).unwrap();
    assert_eq!(unpacked, value);
}

#[test]
fn it_packs_strings_2_level_deep() {
    let mut packer = Packer::new();
    let mut unpacker = Unpacker::new();

    let mut options = PackOptions::new();
    options.pack_string_depth = 2;
    let value = jarr(vec![
        jstr("foo\nbar"),
        jobj(vec![("deeper", jstr("baz\nqux"))]),
    ]);
    let packed = packer.pack(&value, &options).unwrap();
    assert_eq!(
        packed,
        jarr(vec![
            jint(TYPE_ARRAY),
            jarr(vec![jint(TYPE_STRING), jstr("foo"), jstr("bar")]),
            jarr(vec![
                jstr("deeper"),
                jarr(vec![jint(TYPE_STRING), jstr("baz"), jstr("qux")]),
            ]),
            jint(0),
        ])
    );
    let unpacked = unpacker.unpack(&packed).unwrap();
    assert_eq!(unpacked, value);
}

#[test]
fn it_copes_with_null_input_to_unpacker() {
    let mut unpacker = Unpacker::new();
    assert_eq!(unpacker.unpack(&jnull()).unwrap(), jnull());
}

#[test]
fn it_packs_with_null_and_true_and_false() {
    let mut packer = Packer::new();
    let mut unpacker = Unpacker::new();

    let options = PackOptions::new();
    let value = jobj(vec![
        ("null", jnull()),
        ("true", jbool(true)),
        ("false", jbool(false)),
    ]);
    let packed = packer.pack(&value, &options).unwrap();
    assert_eq!(
        packed,
        jarr(vec![
            jstr("null"),
            jstr("true"),
            jstr("false"),
            jnull(),
            jbool(true),
            jbool(false),
            jint(0),
        ])
    );
    let unpacked = unpacker.unpack(&packed).unwrap();
    assert_eq!(unpacked, value);

    let second = jarr(vec![
        jint(3),
        jint(4),
        jint(5),
        jint(6),
        jint(7),
        jint(8),
        jint(1),
    ]);
    let packed = packer.pack(&second, &options).unwrap();
    let unpacked = unpacker.unpack(&packed).unwrap();
    assert_eq!(unpacked, second);
}

#[test]
fn it_supports_reset() {
    let mut packer = Packer::new();
    let mut unpacker = Unpacker::new();

    let options = PackOptions::new();
    let packed = packer.pack(&jobj(vec![("foo", jstr("bar"))]), &options).unwrap();
    let _unpacked = unpacker.unpack(&packed).unwrap();

    let memoized = packer.pack(&jobj(vec![("foo", jstr("bar"))]), &options).unwrap();
    assert_eq!(memoized, jarr(vec![jint(3), jint(4), jint(1)]));

    packer.reset();
    let not_memoized = packer
        .pack(&jobj(vec![("foo", jstr("bar"))]), &options)
        .unwrap();
    assert_eq!(not_memoized, jarr(vec![jstr("foo"), jstr("bar"), jint(0)]));

    let unpacked = unpacker.unpack(&not_memoized).unwrap();
    assert_eq!(unpacked, jobj(vec![("foo", jstr("bar"))]));

    let mut unpacker = Unpacker::new();
    let unpacked = unpacker.unpack(&not_memoized).unwrap();
    assert_eq!(unpacked, jobj(vec![("foo", jstr("bar"))]));
}
