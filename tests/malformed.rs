use aerospike::expressions::{
    int_bin, int_val, list_val, map_val, module_call, pack_context, CdtContext, ExpNode, ExpOp,
    ExpType, ExpressionArgument, FilterExpression,
};
use aerospike::msgpack::{pack_value, same_value};
use aerospike::{Buffer, EncodeError, Value};

fn generic(op: ExpOp, operand: Option<Value>) -> FilterExpression {
    FilterExpression { node: ExpNode::Op { op, operand } }
}

fn dup_map() -> Value {
    Value::Dictionary(vec![(Value::Int(1), Value::Int(2)), (Value::Int(1), Value::Int(3))])
}

#[test]
fn special_operators_in_generic_shape_are_refused() {
    for op in [ExpOp::Regex, ExpOp::Call, ExpOp::Bin, ExpOp::BinType] {
        let none = generic(op, None);
        assert!(!none.is_well_formed());
        assert_eq!(none.encode(), Err(EncodeError::Malformed));
        let some = generic(op, Some(Value::String("a".to_string())));
        assert_eq!(some.encode(), Err(EncodeError::Malformed));
    }
    assert!(generic(ExpOp::TTL, None).is_well_formed());
}

#[test]
fn malformed_leaves_the_sink_untouched() {
    let mut b = Buffer::new();
    b.write_u8(7);
    let mut sink = Some(b);
    let r = generic(ExpOp::Regex, None).pack(&mut sink);
    assert_eq!(r, Err(EncodeError::Malformed));
    assert_eq!(sink.unwrap().to_vec(), vec![7]);
    let mut probe: Option<Buffer> = None;
    assert_eq!(generic(ExpOp::Bin, None).pack(&mut probe), Err(EncodeError::Malformed));
}

#[test]
fn bare_list_literal_is_refused() {
    let e = FilterExpression { node: ExpNode::Literal { value: Value::List(vec![Value::Int(1)]) } };
    assert_eq!(e.encode(), Err(EncodeError::Malformed));
    assert_eq!(list_val(vec![Value::Int(1)]).encode(), Ok(vec![0x92, 126, 0x91, 1]));
}

#[test]
fn repeated_map_keys_are_refused_at_any_depth() {
    assert_eq!(map_val(vec![(Value::Int(1), Value::Int(2)), (Value::Int(1), Value::Int(3))]).encode(), Err(EncodeError::Malformed));
    assert_eq!(list_val(vec![dup_map()]).encode(), Err(EncodeError::Malformed));
    let call = module_call(
        ExpType::INT,
        0,
        vec![ExpressionArgument::Value(dup_map())],
        int_bin("a".to_string()),
    );
    assert_eq!(call.encode(), Err(EncodeError::Malformed));
    let nested = module_call(
        ExpType::INT,
        0,
        vec![ExpressionArgument::FilterExpression(list_val(vec![dup_map()]))],
        int_bin("a".to_string()),
    );
    assert_eq!(nested.encode(), Err(EncodeError::Malformed));
    let distinct = map_val(vec![(Value::Int(1), Value::Int(2)), (Value::Int(2), Value::Int(2))]);
    assert_eq!(distinct.encode(), Ok(vec![0x82, 1, 2, 2, 2]));
}

#[test]
fn pack_value_and_pack_context_refuse_repeated_keys() {
    let mut sink = Some(Buffer::new());
    assert_eq!(pack_value(&mut sink, &dup_map()), Err(EncodeError::Malformed));
    assert_eq!(sink.unwrap().to_vec(), Vec::<u8>::new());
    let steps = vec![CdtContext { id: 0x22, value: dup_map() }];
    assert_eq!(pack_context(&mut None, &steps), Err(EncodeError::Malformed));
    let mut sink = Some(Buffer::new());
    assert_eq!(pack_value(&mut sink, &Value::Int(-1)), Ok(1));
    assert_eq!(sink.unwrap().to_vec(), vec![0xff]);
}

#[test]
fn same_value_compares_contents() {
    let a = Value::List(vec![Value::String("x".to_string()), Value::Blob(vec![1, 2])]);
    let b = Value::List(vec![Value::String("x".to_string()), Value::Blob(vec![1, 2])]);
    let c = Value::List(vec![Value::String("x".to_string()), Value::Blob(vec![1, 3])]);
    assert!(same_value(&a, &b));
    assert!(!same_value(&a, &c));
    assert!(!same_value(&Value::Int(1), &Value::Float(1)));
    assert!(same_value(&dup_map(), &dup_map()));
}

#[test]
fn constructed_trees_are_well_formed() {
    let e = aerospike::expressions::and(vec![
        aerospike::expressions::eq(int_bin("a".to_string()), int_val(1)),
        list_val(vec![Value::Int(1)]),
    ]);
    assert!(e.is_well_formed());
}
