use interp::combinational::{BinaryOp, CombPrim, StdConst, StdMux, eval_pass};
use interp::port::{PortMap, RuntimeError, UpdateStatus};
use interp::primitive_traits::{Named, Primitive, StdAdd};
use interp::value::Value;

#[test]
fn const_writes_once() {
    let mut map = PortMap::new(1);
    let c = StdConst::new(Value::from_u64(5, 8), 0);
    assert_eq!(c.exec_comb(&mut map), Ok(UpdateStatus::Changed));
    assert_eq!(map.read(0).val().unwrap().as_u64(), 5);
    assert_eq!(c.exec_comb(&mut map), Ok(UpdateStatus::Unchanged));
    assert_eq!(map.read(0).val().unwrap().as_u64(), 5);
}

#[test]
fn mux_selects_true_branch() {
    let mut map = PortMap::new(4);
    map.insert_val(0, Value::from_bool(true));
    map.insert_val(1, Value::from_u64(7, 8));
    map.insert_val(2, Value::from_u64(9, 8));
    let m = StdMux::new(0);
    assert_eq!(m.exec_comb(&mut map), Ok(UpdateStatus::Changed));
    assert_eq!(map.read(3).val().unwrap().as_u64(), 7);
    // re-running with unchanged inputs is idempotent
    assert_eq!(m.exec_comb(&mut map), Ok(UpdateStatus::Unchanged));
}

#[test]
fn mux_selects_false_branch() {
    let mut map = PortMap::new(4);
    map.insert_val(0, Value::from_bool(false));
    map.insert_val(1, Value::from_u64(7, 8));
    map.insert_val(2, Value::from_u64(9, 8));
    let m = StdMux::new(0);
    assert_eq!(m.exec_comb(&mut map), Ok(UpdateStatus::Changed));
    assert_eq!(map.read(3).val().unwrap().as_u64(), 9);
}

#[test]
fn mux_undefined_condition() {
    let mut map = PortMap::new(4);
    map.insert_val(1, Value::from_u64(7, 8));
    map.insert_val(2, Value::from_u64(9, 8));
    let m = StdMux::new(0);
    // output already undefined: writing undefined again is a no-op
    assert_eq!(m.exec_comb(&mut map), Ok(UpdateStatus::Unchanged));
    assert!(map.read(3).is_undef());
    // once the output was defined, the transition into undefined is a change
    map.insert_val(3, Value::from_u64(1, 8));
    assert_eq!(m.exec_comb(&mut map), Ok(UpdateStatus::Changed));
    assert!(map.read(3).is_undef());
}

#[test]
fn mux_selected_branch_undefined() {
    let mut map = PortMap::new(4);
    map.insert_val(0, Value::from_bool(true));
    map.insert_val(2, Value::from_u64(9, 8));
    let m = StdMux::new(0);
    assert_eq!(m.exec_comb(&mut map), Ok(UpdateStatus::Unchanged));
    assert!(map.read(3).is_undef());
}

#[test]
fn binary_add_on_map() {
    let mut map = PortMap::new(3);
    map.insert_val(0, Value::from_u64(250, 8));
    map.insert_val(1, Value::from_u64(10, 8));
    let p = CombPrim::Binary { op: BinaryOp::Add, base: 0 };
    assert_eq!(p.exec_comb(&mut map), Ok(UpdateStatus::Changed));
    assert_eq!(map.read(2).val().unwrap().as_u64(), 4);
}

#[test]
fn binary_width_mismatch_is_error() {
    let mut map = PortMap::new(3);
    map.insert_val(0, Value::from_u64(3, 4));
    map.insert_val(1, Value::from_u64(3, 8));
    let p = CombPrim::Binary { op: BinaryOp::Add, base: 0 };
    assert_eq!(p.exec_comb(&mut map), Err(RuntimeError::WidthMismatch));
    // the map is left untouched on a hard error
    assert!(map.read(2).is_undef());
}

#[test]
fn binary_undefined_input_withdraws_output() {
    let mut map = PortMap::new(3);
    map.insert_val(0, Value::from_u64(3, 4));
    let p = CombPrim::Binary { op: BinaryOp::Add, base: 0 };
    assert_eq!(p.exec_comb(&mut map), Ok(UpdateStatus::Unchanged));
    assert!(map.read(2).is_undef());
}

#[test]
fn comparison_primitives() {
    let mut map = PortMap::new(3);
    map.insert_val(0, Value::from_u64(200, 8));
    map.insert_val(1, Value::from_u64(3, 8));
    let gt = CombPrim::Binary { op: BinaryOp::Gt, base: 0 };
    gt.exec_comb(&mut map).unwrap();
    assert_eq!(map.read(2).val().unwrap().as_u64(), 1);
    let sgt = CombPrim::Binary { op: BinaryOp::SignedGt, base: 0 };
    sgt.exec_comb(&mut map).unwrap();
    // 200 reads as -56 signed, so the signed comparison flips
    assert_eq!(map.read(2).val().unwrap().as_u64(), 0);
}

#[test]
fn slice_pad_cat() {
    let mut map = PortMap::new(2);
    map.insert_val(0, Value::from_u64(0b101101, 6));
    let slice = CombPrim::Slice { base: 0, out_width: 4 };
    slice.exec_comb(&mut map).unwrap();
    assert_eq!(map.read(1).val().unwrap().as_u64(), 0b1101);
    let pad = CombPrim::Pad { base: 0, out_width: 12 };
    pad.exec_comb(&mut map).unwrap();
    let padded = map.read(1).val().unwrap();
    assert_eq!(padded.width(), 12);
    assert_eq!(padded.as_u64(), 0b101101);
    // slicing wider than the input is a width violation
    let bad = CombPrim::Slice { base: 0, out_width: 9 };
    assert_eq!(bad.exec_comb(&mut map), Err(RuntimeError::WidthMismatch));

    let mut map2 = PortMap::new(3);
    map2.insert_val(0, Value::from_u64(0b10, 2));
    map2.insert_val(1, Value::from_u64(0b01, 2));
    let cat = CombPrim::Binary { op: BinaryOp::Cat, base: 0 };
    cat.exec_comb(&mut map2).unwrap();
    assert_eq!(map2.read(2).val().unwrap().as_u64(), 0b1001);
    // concat takes operands of different widths: that is its normal case
    map2.insert_val(0, Value::from_u64(0b10, 2));
    map2.insert_val(1, Value::from_u64(0b011, 3));
    assert_eq!(cat.exec_comb(&mut map2), Ok(UpdateStatus::Changed));
    let joined = map2.read(2).val().unwrap();
    assert_eq!(joined.width(), 5);
    assert_eq!(joined.as_u64(), 0b10011);
}

#[test]
fn unsynthesizable_ops_on_map() {
    let mut map = PortMap::new(3);
    map.insert_val(0, Value::from_i128(-7, 8));
    map.insert_val(1, Value::from_i128(3, 8));
    let smod = CombPrim::Binary { op: BinaryOp::UnsynSmod, base: 0 };
    smod.exec_comb(&mut map).unwrap();
    // the floored remainder, not the truncating one
    assert_eq!(map.read(2).val().unwrap().as_u64(), 2);
    let sdiv = CombPrim::Binary { op: BinaryOp::UnsynSdiv, base: 0 };
    sdiv.exec_comb(&mut map).unwrap();
    assert_eq!(map.read(2).val().unwrap().as_i64(), -2);

    let mut map2 = PortMap::new(3);
    map2.insert_val(0, Value::from_u64(23, 8));
    map2.insert_val(1, Value::from_u64(5, 8));
    let mult = CombPrim::Binary { op: BinaryOp::UnsynMult, base: 0 };
    mult.exec_comb(&mut map2).unwrap();
    assert_eq!(map2.read(2).val().unwrap().as_u64(), 115);
    let div = CombPrim::Binary { op: BinaryOp::UnsynDiv, base: 0 };
    div.exec_comb(&mut map2).unwrap();
    assert_eq!(map2.read(2).val().unwrap().as_u64(), 4);
    let md = CombPrim::Binary { op: BinaryOp::UnsynMod, base: 0 };
    md.exec_comb(&mut map2).unwrap();
    assert_eq!(map2.read(2).val().unwrap().as_u64(), 3);
}

#[test]
fn wire_passes_undefined_through() {
    let mut map = PortMap::new(2);
    let w = CombPrim::Wire { base: 0 };
    assert_eq!(w.exec_comb(&mut map), Ok(UpdateStatus::Unchanged));
    assert!(map.read(1).is_undef());
    map.insert_val(0, Value::from_u64(9, 4));
    assert_eq!(w.exec_comb(&mut map), Ok(UpdateStatus::Changed));
    assert_eq!(map.read(1).val().unwrap().as_u64(), 9);
}

#[test]
fn chain_settles_in_one_pass() {
    // an acyclic chain of three wires with a freshly-defined input:
    // the first full pass defines every port, the second changes nothing
    let prims = vec![
        CombPrim::Wire { base: 0 },
        CombPrim::Wire { base: 1 },
        CombPrim::Wire { base: 2 },
    ];
    let mut map = PortMap::new(4);
    map.insert_val(0, Value::from_u64(11, 8));
    assert_eq!(eval_pass(&prims, &mut map), Ok(UpdateStatus::Changed));
    for i in 0..4 {
        assert_eq!(map.read(i).val().unwrap().as_u64(), 11);
    }
    assert_eq!(eval_pass(&prims, &mut map), Ok(UpdateStatus::Unchanged));
}

#[test]
fn read_defined_refuses_undefined() {
    let map = PortMap::new(1);
    assert!(matches!(map.read_defined(0), Err(RuntimeError::UndefinedInput)));
}

#[test]
fn validate_and_execute_halts_on_bad_arity() {
    let mut adder = StdAdd::new(String::from("add0"), 8);
    assert_eq!(adder.get_full_name(), "add0");
    assert!(adder.is_comb());
    let good = vec![Value::from_u64(13, 8), Value::from_u64(29, 8)];
    let out = adder.validate_and_execute(&good).unwrap();
    assert_eq!(out.len(), 1);
    assert_eq!(out[0].as_u64(), 42);
    let bad = vec![Value::from_u64(13, 8)];
    assert!(matches!(
        adder.validate_and_execute(&bad),
        Err(RuntimeError::ValidationFailed)
    ));
    let mismatched = vec![Value::from_u64(13, 8), Value::from_u64(1, 4)];
    assert!(matches!(
        adder.validate_and_execute(&mismatched),
        Err(RuntimeError::ValidationFailed)
    ));
}
