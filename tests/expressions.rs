use aerospike::expressions::{
    and, bin_exists, bin_type, blob_bin, blob_val, bool_val, device_size, digest_modulo, eq,
    float_bin, ge, geo_bin, geo_compare, geo_val, gt, hll_bin, int_bin, int_val, is_tombstone,
    key, key_exists, last_update, le, list_bin, list_val, lt, map_bin, map_val, module_call,
    module_call_value, ne, nil, not, or, pack_context, regex_compare, set_name, since_update,
    string_bin, string_val, ttl, void_time, CdtContext, ExpNode, ExpOp, ExpType,
    ExpressionArgument, FilterExpression, MODIFY,
};
use aerospike::{Buffer, Value};

fn encoded(e: &FilterExpression) -> Vec<u8> {
    e.encode().unwrap()
}

fn probe(e: &FilterExpression) -> usize {
    let mut sink: Option<Buffer> = None;
    let n = e.pack(&mut sink).unwrap();
    assert!(sink.is_none());
    n
}

fn bin_a_int() -> Vec<u8> {
    vec![0x93, 81, 2, 0xa1, b'a']
}

#[test]
fn eq_int_bin_with_literal() {
    let e = eq(int_bin("a".to_string()), int_val(11));
    let mut want = vec![0x93, 1];
    want.extend(bin_a_int());
    want.push(11);
    assert_eq!(encoded(&e), want);
}

#[test]
fn not_of_or_of_comparisons() {
    let e = not(or(vec![
        eq(int_bin("a".to_string()), int_val(0)),
        eq(int_bin("a".to_string()), int_val(10)),
    ]));
    let mut want = vec![0x92, 18, 0x93, 17];
    for v in [0u8, 10u8] {
        want.extend([0x93, 1]);
        want.extend(bin_a_int());
        want.push(v);
    }
    assert_eq!(encoded(&e), want);
}

#[test]
fn list_call_with_context() {
    let ctx = vec![CdtContext { id: 0x10, value: Value::Int(0) }];
    let e = module_call(
        ExpType::INT,
        0,
        vec![ExpressionArgument::Context(ctx), ExpressionArgument::FilterExpression(int_val(2))],
        list_bin("a".to_string()),
    );
    let want = vec![
        0x95, 0x7f, 2, 0, // call head
        0x93, 0xcc, 0xff, 0x92, 0x10, 0, // context block
        0x91, 2, // counted arguments: the index alone
        0x93, 81, 4, 0xa1, b'a', // the bin
    ];
    assert_eq!(encoded(&e), want);
    assert_eq!(probe(&e), want.len());
}

#[test]
fn quoted_list_and_bare_map() {
    assert_eq!(encoded(&list_val(vec![Value::Int(1)])), vec![0x92, 126, 0x91, 1]);
    let m = map_val(vec![(Value::Int(1), Value::Int(2))]);
    assert_eq!(encoded(&m), vec![0x81, 1, 2]);
}

#[test]
fn digest_modulo_layout() {
    assert_eq!(encoded(&digest_modulo(3)), vec![0x92, 64, 3]);
}

#[test]
fn probe_count_equals_written_bytes() {
    let exps = vec![
        eq(int_bin("a".to_string()), int_val(11)),
        regex_compare("prefix.*suffix".to_string(), 3, string_bin("s".to_string())),
        list_val(vec![Value::Int(1), Value::String("x".to_string())]),
        bin_exists("bin".to_string()),
        module_call_value(ExpType::MAP, MODIFY, Value::Nil, map_bin("m".to_string())),
        and(vec![]),
    ];
    for e in &exps {
        let n = probe(e);
        let mut sink = Some(Buffer::new());
        let written = e.pack(&mut sink).unwrap();
        let bytes = sink.unwrap().to_vec();
        assert_eq!(n, written);
        assert_eq!(n, bytes.len());
    }
}

#[test]
fn pack_appends_to_existing_buffer() {
    let mut b = Buffer::with_capacity(8);
    b.write_u8(0xaa);
    let mut sink = Some(b);
    let n = digest_modulo(3).pack(&mut sink).unwrap();
    assert_eq!(n, 3);
    assert_eq!(sink.unwrap().to_vec(), vec![0xaa, 0x92, 64, 3]);
}

#[test]
fn encoding_twice_is_identical() {
    let e = and(vec![
        gt(int_bin("a".to_string()), int_val(5)),
        lt(float_bin("f".to_string()), int_val(-3)),
    ]);
    assert_eq!(encoded(&e), encoded(&e));
    let mut s1 = Some(Buffer::new());
    let mut s2 = Some(Buffer::new());
    e.pack(&mut s1).unwrap();
    e.pack(&mut s2).unwrap();
    assert_eq!(s1.unwrap().to_vec(), s2.unwrap().to_vec());
}

#[test]
fn list_literal_is_quoted_and_scalars_are_bare() {
    let l = encoded(&list_val(vec![Value::Int(1), Value::Int(2), Value::Int(3)]));
    assert_eq!(&l[..2], &[0x92, 126]);
    let scalars = vec![
        int_val(7),
        int_val(-7),
        bool_val(true),
        string_val("s".to_string()),
        blob_val(vec![1, 2]),
        geo_val("{}".to_string()),
        nil(),
        map_val(vec![]),
    ];
    for s in &scalars {
        let b = encoded(s);
        assert!(!(0x90..=0x9f).contains(&b[0]) && b[0] != 0xdc && b[0] != 0xdd);
    }
}

#[test]
fn compound_arity_is_children_plus_one() {
    let a = and(vec![int_val(1), int_val(2)]);
    assert_eq!(encoded(&a)[0], 0x93);
    let n = not(bool_val(true));
    assert_eq!(encoded(&n), vec![0x92, 18, 0xc3]);
    let o = or(vec![bool_val(true), bool_val(false), nil()]);
    assert_eq!(encoded(&o), vec![0x94, 17, 0xc3, 0xc2, 0xc0]);
}

#[test]
fn empty_context_is_omitted() {
    let with_empty = module_call(
        ExpType::INT,
        0,
        vec![
            ExpressionArgument::Value(Value::Int(19)),
            ExpressionArgument::Context(vec![]),
            ExpressionArgument::FilterExpression(int_val(2)),
        ],
        list_bin("a".to_string()),
    );
    let without = module_call(
        ExpType::INT,
        0,
        vec![
            ExpressionArgument::Value(Value::Int(19)),
            ExpressionArgument::FilterExpression(int_val(2)),
        ],
        list_bin("a".to_string()),
    );
    let b = encoded(&with_empty);
    assert_eq!(b, encoded(&without));
    assert_eq!(&b[..6], &[0x95, 0x7f, 2, 0, 0x92, 19]);
    assert_eq!(pack_context(&mut None, &vec![]).unwrap(), 0);
}

#[test]
fn context_block_of_two_steps() {
    let steps = vec![
        CdtContext { id: 0x10, value: Value::Int(-1) },
        CdtContext { id: 0x22, value: Value::String("k".to_string()) },
    ];
    let mut sink = Some(Buffer::new());
    let n = pack_context(&mut sink, &steps).unwrap();
    let want = vec![0x93, 0xcc, 0xff, 0x94, 0x10, 0xff, 0x22, 0xa2, 3, b'k'];
    assert_eq!(sink.unwrap().to_vec(), want);
    assert_eq!(n, want.len());
}

#[test]
fn context_blocks_come_before_counted_arguments() {
    let e = module_call(
        ExpType::LIST,
        0,
        vec![
            ExpressionArgument::Value(Value::Int(5)),
            ExpressionArgument::Context(vec![CdtContext { id: 1, value: Value::Int(2) }]),
        ],
        list_bin("l".to_string()),
    );
    let want = vec![
        0x95, 0x7f, 4, 0, 0x93, 0xcc, 0xff, 0x92, 1, 2, 0x91, 5, 0x93, 81, 4, 0xa1, b'l',
    ];
    assert_eq!(encoded(&e), want);
}

#[test]
fn call_with_single_value() {
    let e = module_call_value(ExpType::HLL, MODIFY, Value::Int(1), hll_bin("h".to_string()));
    assert_eq!(encoded(&e), vec![0x95, 0x7f, 9, 0x40, 1, 0x93, 81, 9, 0xa1, b'h']);
}

#[test]
fn regex_compare_layout() {
    let e = regex_compare("ab".to_string(), 2, string_bin("s".to_string()));
    assert_eq!(encoded(&e), vec![0x94, 7, 2, 0xa2, b'a', b'b', 0x93, 81, 3, 0xa1, b's']);
}

#[test]
fn bin_accessors_carry_their_types() {
    let cases = vec![
        (int_bin("b".to_string()), 2u8),
        (string_bin("b".to_string()), 3),
        (list_bin("b".to_string()), 4),
        (map_bin("b".to_string()), 5),
        (blob_bin("b".to_string()), 6),
        (float_bin("b".to_string()), 7),
        (geo_bin("b".to_string()), 8),
        (hll_bin("b".to_string()), 9),
    ];
    for (e, t) in &cases {
        assert_eq!(encoded(e), vec![0x93, 81, *t, 0xa1, b'b']);
    }
}

#[test]
fn bin_type_and_bin_exists() {
    assert_eq!(encoded(&bin_type("x".to_string())), vec![0x92, 82, 0xa1, b'x']);
    assert_eq!(
        encoded(&bin_exists("x".to_string())),
        vec![0x93, 2, 0x92, 82, 0xa1, b'x', 0]
    );
}

#[test]
fn metadata_accessors() {
    assert_eq!(encoded(&key(ExpType::INT)), vec![0x92, 80, 2]);
    assert_eq!(encoded(&key_exists()), vec![0x91, 71]);
    assert_eq!(encoded(&set_name()), vec![0x91, 70]);
    assert_eq!(encoded(&device_size()), vec![0x91, 65]);
    assert_eq!(encoded(&last_update()), vec![0x91, 66]);
    assert_eq!(encoded(&since_update()), vec![0x91, 67]);
    assert_eq!(encoded(&void_time()), vec![0x91, 68]);
    assert_eq!(encoded(&ttl()), vec![0x91, 69]);
    assert_eq!(encoded(&is_tombstone()), vec![0x91, 72]);
}

#[test]
fn comparators_have_their_codes() {
    let pairs = vec![
        (eq(nil(), nil()), 1u8),
        (ne(nil(), nil()), 2),
        (gt(nil(), nil()), 3),
        (ge(nil(), nil()), 4),
        (lt(nil(), nil()), 5),
        (le(nil(), nil()), 6),
        (geo_compare(nil(), nil()), 8),
    ];
    for (e, c) in &pairs {
        assert_eq!(encoded(e), vec![0x93, *c, 0xc0, 0xc0]);
    }
}

#[test]
fn integer_forms() {
    let cases: Vec<(i64, Vec<u8>)> = vec![
        (0, vec![0]),
        (127, vec![0x7f]),
        (200, vec![0xcc, 0xc8]),
        (1000, vec![0xcd, 0x03, 0xe8]),
        (70000, vec![0xce, 0x00, 0x01, 0x11, 0x70]),
        (1 << 32, vec![0xcf, 0, 0, 0, 1, 0, 0, 0, 0]),
        (-1, vec![0xff]),
        (-32, vec![0xe0]),
        (-33, vec![0xd0, 0xdf]),
        (-200, vec![0xd1, 0xff, 0x38]),
        (-40000, vec![0xd2, 0xff, 0xff, 0x63, 0xc0]),
        (-(1 << 40), vec![0xd3, 0xff, 0xff, 0xff, 0, 0, 0, 0, 0]),
        (i64::MIN, vec![0xd3, 0x80, 0, 0, 0, 0, 0, 0, 0]),
        (i64::MAX, vec![0xcf, 0x7f, 0xff, 0xff, 0xff, 0xff, 0xff, 0xff, 0xff]),
    ];
    for (v, want) in &cases {
        assert_eq!(&encoded(&int_val(*v)), want, "value {}", v);
    }
}

#[test]
fn value_forms() {
    assert_eq!(encoded(&string_val("views".to_string())), vec![0xa6, 3, b'v', b'i', b'e', b'w', b's']);
    assert_eq!(encoded(&blob_val(vec![1, 2, 3])), vec![0xa4, 4, 1, 2, 3]);
    assert_eq!(encoded(&geo_val("g".to_string())), vec![0xa2, 23, b'g']);
    assert_eq!(encoded(&bool_val(false)), vec![0xc2]);
    let f = FilterExpression { node: ExpNode::Literal { value: Value::Float(1.5f64.to_bits()) } };
    assert_eq!(encoded(&f), vec![0xcb, 0x3f, 0xf8, 0, 0, 0, 0, 0, 0]);
}

#[test]
fn long_strings_use_wider_headers() {
    let s = "x".repeat(40);
    let b = encoded(&string_val(s));
    assert_eq!(&b[..4], &[0xda, 0, 41, 3]);
    assert_eq!(b.len(), 44);
    let name = "n".repeat(32);
    let b = encoded(&bin_type(name));
    assert_eq!(&b[..5], &[0x92, 82, 0xda, 0, 32]);
}

#[test]
fn long_lists_use_wider_headers() {
    let items: Vec<Value> = (0..20).map(Value::Int).collect();
    let b = encoded(&list_val(items));
    assert_eq!(&b[..5], &[0x92, 126, 0xdc, 0, 20]);
    let children: Vec<FilterExpression> = (0..15).map(int_val).collect();
    let b = encoded(&and(children));
    assert_eq!(&b[..4], &[0xdc, 0, 16, 16]);
}

#[test]
fn nested_values() {
    let v = Value::List(vec![
        Value::Dictionary(vec![(Value::String("k".to_string()), Value::Bool(true))]),
        Value::Nil,
    ]);
    let e = FilterExpression { node: ExpNode::Op { op: ExpOp::Quoted, operand: Some(v) } };
    assert_eq!(encoded(&e), vec![0x92, 126, 0x92, 0x81, 0xa2, 3, b'k', 0xc3, 0xc0]);
}

#[test]
fn operator_codes() {
    assert_eq!(ExpOp::Call.code(), 127);
    assert_eq!(ExpOp::Quoted.code(), 126);
    assert_eq!(ExpOp::And.code(), 16);
    assert_eq!(ExpType::HLL.code(), 9);
    assert_eq!(ExpType::NIL.code(), 0);
}
