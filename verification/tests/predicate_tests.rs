use shape_router::compile::PredicateCompiler;
use shape_router::predicate::{CompiledPredicate, Constant, Instruction};

fn int_row(col: u16, v: i64) -> Vec<u8> {
    let mut row = Vec::new();
    row.extend_from_slice(&1u16.to_le_bytes());
    row.extend_from_slice(&col.to_le_bytes());
    row.push(1);
    row.extend_from_slice(&(v as u64).to_le_bytes());
    row
}

fn text_row(col: u16, s: &str) -> Vec<u8> {
    let mut row = Vec::new();
    row.extend_from_slice(&1u16.to_le_bytes());
    row.extend_from_slice(&col.to_le_bytes());
    row.push(3);
    row.extend_from_slice(&(s.len() as u16).to_le_bytes());
    row.extend_from_slice(s.as_bytes());
    row
}

#[test]
fn test_simple_predicate() {
    let compiler = PredicateCompiler::new(vec![(b"user_id".to_vec(), 0)]);

    let predicate = compiler.compile_simple("user_id = 42").unwrap();

    let result = predicate.evaluate(None, Some(&[]));
    println!("Predicate result: {}", result);
}

#[test]
fn test_in_predicate() {
    let compiler = PredicateCompiler::new(vec![(b"status".to_vec(), 1)]);

    let predicate = compiler.compile_simple("status IN (1, 2, 3)").unwrap();

    let result = predicate.evaluate(None, Some(&[]));
    println!("IN predicate result: {}", result);
}

#[test]
fn test_equality_predicate_on_rows() {
    let compiler = PredicateCompiler::new(vec![(b"user_id".to_vec(), 0)]);
    let predicate = compiler.compile_simple("user_id = 42").unwrap();

    assert!(predicate.evaluate(None, Some(&int_row(0, 42))));
    assert!(!predicate.evaluate(None, Some(&int_row(0, 41))));
    assert!(!predicate.evaluate(None, Some(&int_row(5, 42))));
    assert!(!predicate.evaluate(None, None));
}

#[test]
fn test_in_predicate_on_rows() {
    let compiler = PredicateCompiler::new(vec![(b"status".to_vec(), 0)]);
    let predicate = compiler.compile_simple("status IN (1,2,3)").unwrap();

    assert!(predicate.evaluate(None, Some(&int_row(0, 2))));
    assert!(!predicate.evaluate(None, Some(&int_row(0, 4))));
}

#[test]
fn test_compile_rejects_garbage() {
    let compiler = PredicateCompiler::new(vec![(b"a".to_vec(), 0)]);
    assert!(compiler.compile_simple("a < 3").is_err());
    assert!(compiler.compile_simple("b = 3").is_err());
    assert!(compiler.compile_simple("a = x").is_err());
    assert!(compiler.compile_simple("a IN (1, x)").is_err());
    assert!(compiler.compile_simple("a = 99999999999999999999").is_err());
}

#[test]
fn test_columns_intersect() {
    let compiler = PredicateCompiler::new(vec![(b"status".to_vec(), 3)]);
    let predicate = compiler.compile_simple("status = 1").unwrap();
    assert!(predicate.columns_intersect(&[1, 3]));
    assert!(!predicate.columns_intersect(&[1, 2]));
    assert!(!predicate.columns_intersect(&[]));

    let always = CompiledPredicate::new(
        vec![Instruction::PushTrue, Instruction::Return],
        Vec::new(),
        Vec::new(),
    );
    assert!(always.columns_intersect(&[]));
    assert!(always.columns_intersect(&[9]));
}

#[test]
fn test_vm_operators() {
    let lt = CompiledPredicate::new(
        vec![
            Instruction::LoadColumn(0),
            Instruction::PushConst(0),
            Instruction::Lt,
            Instruction::Return,
        ],
        vec![0],
        vec![Constant::Integer(10)],
    );
    assert!(lt.evaluate(None, Some(&int_row(0, 9))));
    assert!(!lt.evaluate(None, Some(&int_row(0, 10))));

    let between = CompiledPredicate::new(
        vec![
            Instruction::LoadColumn(0),
            Instruction::PushConst(0),
            Instruction::PushConst(1),
            Instruction::Between,
            Instruction::Return,
        ],
        vec![0],
        vec![Constant::Integer(3), Constant::Integer(7)],
    );
    assert!(between.evaluate(None, Some(&int_row(0, 5))));
    assert!(between.evaluate(None, Some(&int_row(0, 3))));
    assert!(!between.evaluate(None, Some(&int_row(0, 8))));

    let is_null = CompiledPredicate::new(
        vec![Instruction::LoadColumn(0), Instruction::IsNull, Instruction::Return],
        vec![0],
        Vec::new(),
    );
    assert!(is_null.evaluate(None, None));
    assert!(!is_null.evaluate(None, Some(&int_row(0, 1))));

    let prefix = CompiledPredicate::new(
        vec![
            Instruction::LoadColumn(0),
            Instruction::LikePrefix(0),
            Instruction::Return,
        ],
        vec![0],
        vec![Constant::Text(b"abc".to_vec())],
    );
    assert!(prefix.evaluate(None, Some(&text_row(0, "abcdef"))));
    assert!(!prefix.evaluate(None, Some(&text_row(0, "abd"))));

    let null_eq = CompiledPredicate::new(
        vec![
            Instruction::PushNull,
            Instruction::PushNull,
            Instruction::Eq,
            Instruction::Return,
        ],
        Vec::new(),
        Vec::new(),
    );
    assert!(!null_eq.evaluate(None, None));
}

#[test]
fn test_vm_old_row_and_jumps() {
    let old_col = CompiledPredicate::new(
        vec![
            Instruction::LoadOldColumn(0),
            Instruction::PushConst(0),
            Instruction::Eq,
            Instruction::Return,
        ],
        vec![0],
        vec![Constant::Integer(7)],
    );
    assert!(old_col.evaluate(Some(&int_row(0, 7)), None));
    assert!(!old_col.evaluate(None, Some(&int_row(0, 7))));

    let jumped = CompiledPredicate::new(
        vec![
            Instruction::PushFalse,
            Instruction::JumpIfFalse(1),
            Instruction::PushTrue,
            Instruction::PushTrue,
            Instruction::Return,
        ],
        Vec::new(),
        Vec::new(),
    );
    assert!(jumped.evaluate(None, None));

    let empty = CompiledPredicate::default();
    assert!(!empty.evaluate(None, Some(&int_row(0, 1))));
}

#[test]
fn test_predicate_serialize_round_trip() {
    let compiler = PredicateCompiler::new(vec![(b"status".to_vec(), 2)]);
    let p = compiler.compile_simple("status IN (5, -6, 7)").unwrap();
    let bytes = p.serialize();
    let q = CompiledPredicate::deserialize(&bytes).unwrap();
    assert_eq!(q.serialize(), bytes);
    assert!(q.evaluate(None, Some(&int_row(2, -6))));
    assert!(!q.evaluate(None, Some(&int_row(2, 8))));

    let eq = PredicateCompiler::new(vec![(b"a".to_vec(), 0)])
        .compile_simple("a = -12")
        .unwrap();
    let eq_bytes = eq.serialize();
    let eq2 = CompiledPredicate::deserialize(&eq_bytes).unwrap();
    assert_eq!(eq2.serialize(), eq_bytes);
    assert!(eq2.evaluate(None, Some(&int_row(0, -12))));
}

#[test]
fn test_predicate_deserialize_rejects_malformed() {
    assert!(CompiledPredicate::deserialize(&[]).is_err());
    assert!(CompiledPredicate::deserialize(&[2, 0, 0, 0, 0, 0, 0]).is_err());
    assert!(CompiledPredicate::deserialize(&[1, 1, 0, 99, 0, 0, 0, 0]).is_err());
    let compiler = PredicateCompiler::new(vec![(b"a".to_vec(), 0)]);
    let mut bytes = compiler.compile_simple("a = 1").unwrap().serialize();
    bytes.push(0);
    assert!(CompiledPredicate::deserialize(&bytes).is_err());
}

#[test]
fn test_in_bitmap_constant() {
    let mut raw = Vec::new();
    let bitmap: roaring::RoaringBitmap = [2u32, 4, 6].into_iter().collect();
    bitmap.serialize_into(&mut raw).unwrap();

    let p = CompiledPredicate::new(
        vec![Instruction::LoadColumn(0), Instruction::In(0), Instruction::Return],
        vec![0],
        vec![Constant::IntBitmap(raw)],
    );
    assert!(p.evaluate(None, Some(&int_row(0, 4))));
    assert!(!p.evaluate(None, Some(&int_row(0, 5))));
    assert!(!p.evaluate(None, Some(&int_row(0, -4))));

    let broken = CompiledPredicate::new(
        vec![Instruction::LoadColumn(0), Instruction::In(0), Instruction::Return],
        vec![0],
        vec![Constant::IntBitmap(vec![1, 2, 3])],
    );
    assert!(!broken.evaluate(None, Some(&int_row(0, 4))));
}
