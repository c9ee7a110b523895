use gpu_compute::{
    adapter_outcome, apply_word, combine, compile, evaluate, is_well_formed, Component, Context, Depth, Element,
    ElementKind, Error, Identity, Op, Operand, Registry, Shader, Step,
};

fn words_i32(values: &[i32]) -> Vec<u64> {
    values.iter().map(|v| *v as u32 as u64).collect()
}

fn lift_new(reg: &mut Registry, kind: ElementKind, data: Vec<u64>) -> Component {
    let id = reg.store(kind, data);
    reg.lift(id)
}

fn add() -> Shader {
    Shader::Builtin(Op::Add)
}

#[test]
fn add_two_int_arrays() {
    let mut reg = Registry::new();
    let a = lift_new(&mut reg, ElementKind::I32, words_i32(&[1, 2, 3]));
    let b = lift_new(&mut reg, ElementKind::I32, words_i32(&[4, 5, 6]));
    let c = combine(Operand::Leaf(a), Operand::Leaf(b), add()).unwrap();
    assert_eq!(c.depth, Depth::Entry);
    let r = evaluate(&Operand::Node(Box::new(c))).unwrap();
    assert_eq!(r, words_i32(&[5, 7, 9]));
}

#[test]
fn add_is_commutative_and_wraps() {
    let mut reg = Registry::new();
    let a = lift_new(&mut reg, ElementKind::U8, vec![200, 1, 255]);
    let b = lift_new(&mut reg, ElementKind::U8, vec![100, 2, 1]);
    let a2 = reg.lift(0);
    let b2 = reg.lift(1);
    let ab = combine(Operand::Leaf(a), Operand::Leaf(b), add()).unwrap();
    let ba = combine(Operand::Leaf(b2), Operand::Leaf(a2), add()).unwrap();
    let r1 = evaluate(&Operand::Node(Box::new(ab))).unwrap();
    let r2 = evaluate(&Operand::Node(Box::new(ba))).unwrap();
    assert_eq!(r1, vec![44, 3, 0]);
    assert_eq!(r1, r2);
}

#[test]
fn leaf_resolves_to_itself() {
    let mut reg = Registry::new();
    let a = lift_new(&mut reg, ElementKind::I64, vec![7, u64::MAX, 0]);
    let r = evaluate(&Operand::Leaf(a)).unwrap();
    assert_eq!(r, vec![7, u64::MAX, 0]);
}

#[test]
fn mismatched_kinds_fail() {
    let mut reg = Registry::new();
    let a = lift_new(&mut reg, ElementKind::I32, words_i32(&[1, 2]));
    let b = lift_new(&mut reg, ElementKind::U32, vec![1, 2]);
    let r = combine(Operand::Leaf(a), Operand::Leaf(b), add());
    assert!(matches!(r, Err(Error::TypeMismatch)));
}

#[test]
fn mismatched_kinds_fail_before_lengths() {
    let mut reg = Registry::new();
    let a = lift_new(&mut reg, ElementKind::I32, words_i32(&[1, 2]));
    let b = lift_new(&mut reg, ElementKind::U32, vec![1]);
    let r = combine(Operand::Leaf(a), Operand::Leaf(b), add());
    assert!(matches!(r, Err(Error::TypeMismatch)));
}

#[test]
fn mismatched_lengths_fail() {
    let mut reg = Registry::new();
    let a = lift_new(&mut reg, ElementKind::I32, words_i32(&[1, 2, 3]));
    let b = lift_new(&mut reg, ElementKind::I32, words_i32(&[1, 2]));
    let r = combine(Operand::Leaf(a), Operand::Leaf(b), add());
    assert!(matches!(r, Err(Error::ShapeMismatch)));
}

#[test]
fn second_lift_is_shared() {
    let mut reg = Registry::new();
    let id = reg.store(ElementKind::U16, vec![1, 2]);
    let other = reg.store(ElementKind::U16, vec![3, 4]);
    let a = reg.lift(id);
    let b = reg.lift(id);
    let c = reg.lift(id);
    let d = reg.lift(other);
    assert_eq!(a.identity, Identity::Unique);
    assert_eq!(b.identity, Identity::Shared(2));
    assert_eq!(c.identity, Identity::Shared(3));
    assert_eq!(d.identity, Identity::Unique);
    assert_eq!(a.data, b.data);
    assert_eq!(reg.count(id), 3);
    reg.release(id);
    assert_eq!(reg.count(id), 2);
    assert_eq!(reg.count(other), 1);
}

#[test]
fn release_stops_at_zero() {
    let mut reg = Registry::new();
    let id = reg.store(ElementKind::U8, vec![1]);
    reg.release(id);
    assert_eq!(reg.count(id), 0);
}

#[test]
fn nested_tree_is_a_bridge() {
    let mut reg = Registry::new();
    let a = lift_new(&mut reg, ElementKind::I32, words_i32(&[1, 2]));
    let b = lift_new(&mut reg, ElementKind::I32, words_i32(&[1, 1]));
    let c = lift_new(&mut reg, ElementKind::I32, words_i32(&[2, 3]));
    let inner = combine(Operand::Leaf(b), Operand::Leaf(c), Shader::Builtin(Op::Mul)).unwrap();
    assert_eq!(inner.depth, Depth::Entry);
    let outer = combine(Operand::Leaf(a), Operand::Node(Box::new(inner)), add()).unwrap();
    assert_eq!(outer.depth, Depth::Bridge(2));
    let r = evaluate(&Operand::Node(Box::new(outer))).unwrap();
    assert_eq!(r, words_i32(&[3, 5]));
}

#[test]
fn arithmetic_words() {
    assert_eq!(apply_word(Op::Sub, ElementKind::U8, 3, 5), 254);
    assert_eq!(apply_word(Op::Mul, ElementKind::U16, 300, 300), 90000 % 65536);
    assert_eq!(apply_word(Op::Mul, ElementKind::U64, u64::MAX, u64::MAX), 1);
    assert_eq!(apply_word(Op::Div, ElementKind::U32, 7, 2), 3);
    assert_eq!(apply_word(Op::Div, ElementKind::U32, 7, 0), 7);
    let minus7 = -7i32 as u32 as u64;
    let minus3 = -3i32 as u32 as u64;
    assert_eq!(apply_word(Op::Div, ElementKind::I32, minus7, 2), minus3);
    assert_eq!(apply_word(Op::Div, ElementKind::I32, minus7, minus3), 2);
    let min = i32::MIN as u32 as u64;
    let minus1 = -1i32 as u32 as u64;
    assert_eq!(apply_word(Op::Div, ElementKind::I32, min, minus1), min);
    assert_eq!(apply_word(Op::Add, ElementKind::I8, 0x7f, 1), 0x80);
}

#[test]
fn host_rejects_floats_and_imported_kernels() {
    let mut reg = Registry::new();
    let a = lift_new(&mut reg, ElementKind::F32, vec![0x3f80_0000]);
    let b = lift_new(&mut reg, ElementKind::F32, vec![0x3f80_0000]);
    let c = combine(Operand::Leaf(a), Operand::Leaf(b), add()).unwrap();
    assert!(matches!(evaluate(&Operand::Node(Box::new(c))), Err(Error::DeviceError)));
    let x = lift_new(&mut reg, ElementKind::U32, vec![1]);
    let y = lift_new(&mut reg, ElementKind::U32, vec![2]);
    let d = combine(Operand::Leaf(x), Operand::Leaf(y), Shader::Imported("k.wgsl".to_string()))
        .unwrap();
    assert!(matches!(evaluate(&Operand::Node(Box::new(d))), Err(Error::DeviceError)));
}

#[test]
fn compile_single_node() {
    let mut reg = Registry::new();
    let a = lift_new(&mut reg, ElementKind::I32, words_i32(&[1, 2, 3]));
    let b = lift_new(&mut reg, ElementKind::I32, words_i32(&[4, 5, 6]));
    let c = combine(Operand::Leaf(a), Operand::Leaf(b), add()).unwrap();
    let steps = compile(c.into_result());
    assert_eq!(
        steps,
        vec![
            Step::Upload {
                buffer: 0,
                kind: ElementKind::I32,
                storage: 0,
                data: words_i32(&[1, 2, 3]),
                shared: false,
            },
            Step::Upload {
                buffer: 1,
                kind: ElementKind::I32,
                storage: 1,
                data: words_i32(&[4, 5, 6]),
                shared: false,
            },
            Step::Dispatch {
                shader: add(),
                kind: ElementKind::I32,
                len: 3,
                depth: Depth::Result,
                lhs: 0,
                rhs: 1,
                out: 2,
            },
            Step::Readback { buffer: 2, kind: ElementKind::I32, len: 3 },
            Step::Release { buffer: 0 },
            Step::Release { buffer: 1 },
            Step::Release { buffer: 2 },
        ]
    );
}

#[test]
fn compile_reuses_shared_buffer() {
    let mut reg = Registry::new();
    let id = reg.store(ElementKind::U32, vec![1, 2]);
    let first = reg.lift(id);
    let a = reg.lift(id);
    let b = reg.lift(id);
    assert_eq!(first.identity, Identity::Unique);
    let inner = combine(Operand::Leaf(a), Operand::Leaf(b), add()).unwrap();
    let c = lift_new(&mut reg, ElementKind::U32, vec![5, 5]);
    let root = Context {
        depth: Depth::Result,
        shader: Shader::Builtin(Op::Sub),
        lhs: Operand::Node(Box::new(inner)),
        rhs: Operand::Leaf(c),
    };
    let steps = compile(root);
    let uploads = steps.iter().filter(|s| matches!(s, Step::Upload { .. })).count();
    let dispatches = steps.iter().filter(|s| matches!(s, Step::Dispatch { .. })).count();
    assert_eq!(uploads, 2);
    assert_eq!(dispatches, 2);
    assert!(matches!(steps[0], Step::Upload { buffer: 0, storage: 0, shared: true, .. }));
    assert!(matches!(steps[1], Step::Dispatch { lhs: 0, rhs: 0, out: 1, depth: Depth::Entry, .. }));
    assert!(matches!(steps[steps.len() - 1], Step::Release { buffer: 0 }));
}

#[test]
fn no_adapter_means_gpu_not_found() {
    assert_eq!(adapter_outcome(false, false), Err(Error::GpuNotFound));
    assert_eq!(adapter_outcome(false, true), Err(Error::GpuNotFound));
    assert_eq!(adapter_outcome(true, true), Ok(true));
    assert_eq!(adapter_outcome(true, false), Ok(false));
}

#[test]
fn element_types_report_their_kind() {
    assert_eq!(<i32 as Element>::kind(), ElementKind::I32);
    assert_eq!(<u8 as Element>::kind(), ElementKind::U8);
    assert_eq!(<usize as Element>::kind(), ElementKind::Usize);
    assert_eq!(ElementKind::I16.size_in_bytes(), 2);
    assert_eq!(ElementKind::F64.bits(), 64);
    assert!(ElementKind::I8.is_signed());
    assert!(!ElementKind::U64.is_signed());
    assert!(ElementKind::F32.is_float());
}

#[test]
fn depth_grows_with_the_tree() {
    let mut reg = Registry::new();
    let a = lift_new(&mut reg, ElementKind::U32, vec![10, 20]);
    let b = lift_new(&mut reg, ElementKind::U32, vec![1, 2]);
    let c = lift_new(&mut reg, ElementKind::U32, vec![3, 4]);
    let d = lift_new(&mut reg, ElementKind::U32, vec![5, 6]);
    let ab = combine(Operand::Leaf(a), Operand::Leaf(b), add()).unwrap();
    assert_eq!(ab.depth, Depth::Entry);
    let abc = combine(Operand::Node(Box::new(ab)), Operand::Leaf(c), Shader::Builtin(Op::Mul))
        .unwrap();
    assert_eq!(abc.depth, Depth::Bridge(2));
    let all = combine(Operand::Node(Box::new(abc)), Operand::Leaf(d), Shader::Builtin(Op::Sub))
        .unwrap();
    assert_eq!(all.depth, Depth::Bridge(3));
    let r = evaluate(&Operand::Node(Box::new(all))).unwrap();
    assert_eq!(r, vec![28, 82]);
}

#[test]
fn compile_nested_tree_in_post_order() {
    let mut reg = Registry::new();
    let a = lift_new(&mut reg, ElementKind::I32, words_i32(&[1, 2]));
    let b = lift_new(&mut reg, ElementKind::I32, words_i32(&[1, 1]));
    let c = lift_new(&mut reg, ElementKind::I32, words_i32(&[2, 3]));
    let mul = Shader::Builtin(Op::Mul);
    let inner = combine(Operand::Leaf(b), Operand::Leaf(c), mul.duplicate()).unwrap();
    let root = combine(Operand::Leaf(a), Operand::Node(Box::new(inner)), add()).unwrap();
    let root = root.into_result();
    assert_eq!(root.depth, Depth::Result);
    let steps = compile(root);
    assert_eq!(
        steps,
        vec![
            Step::Upload {
                buffer: 0,
                kind: ElementKind::I32,
                storage: 0,
                data: words_i32(&[1, 2]),
                shared: false,
            },
            Step::Upload {
                buffer: 1,
                kind: ElementKind::I32,
                storage: 1,
                data: words_i32(&[1, 1]),
                shared: false,
            },
            Step::Upload {
                buffer: 2,
                kind: ElementKind::I32,
                storage: 2,
                data: words_i32(&[2, 3]),
                shared: false,
            },
            Step::Dispatch {
                shader: mul,
                kind: ElementKind::I32,
                len: 2,
                depth: Depth::Entry,
                lhs: 1,
                rhs: 2,
                out: 3,
            },
            Step::Release { buffer: 1 },
            Step::Release { buffer: 2 },
            Step::Dispatch {
                shader: add(),
                kind: ElementKind::I32,
                len: 2,
                depth: Depth::Result,
                lhs: 0,
                rhs: 3,
                out: 4,
            },
            Step::Readback { buffer: 4, kind: ElementKind::I32, len: 2 },
            Step::Release { buffer: 0 },
            Step::Release { buffer: 3 },
            Step::Release { buffer: 4 },
        ]
    );
}

#[test]
fn shared_storage_with_other_words_is_not_reused() {
    let mut reg = Registry::new();
    let id = reg.store(ElementKind::U32, vec![1, 2]);
    let _first = reg.lift(id);
    let a = reg.lift(id);
    let mut b = reg.lift(id);
    b.data = vec![7, 7];
    let root = combine(Operand::Leaf(a), Operand::Leaf(b), add()).unwrap();
    let steps = compile(root);
    let uploads = steps.iter().filter(|s| matches!(s, Step::Upload { .. })).count();
    assert_eq!(uploads, 2);
}

#[test]
fn well_formed_trees_are_recognised() {
    let mut reg = Registry::new();
    let a = lift_new(&mut reg, ElementKind::U8, vec![1, 2]);
    let b = lift_new(&mut reg, ElementKind::U8, vec![3, 4]);
    let c = lift_new(&mut reg, ElementKind::U8, vec![5, 6]);
    let inner = combine(Operand::Leaf(a), Operand::Leaf(b), add()).unwrap();
    let root = combine(Operand::Node(Box::new(inner)), Operand::Leaf(c), add()).unwrap();
    assert!(is_well_formed(&root));
    let mut bad = root;
    if let Operand::Node(n) = &mut bad.lhs {
        n.depth = Depth::Bridge(7);
    }
    assert!(!is_well_formed(&bad));
    let d = lift_new(&mut reg, ElementKind::U8, vec![1]);
    let mut e = lift_new(&mut reg, ElementKind::U8, vec![1]);
    e.data = vec![300];
    let wrong_word = Context {
        depth: Depth::Result,
        shader: add(),
        lhs: Operand::Leaf(d),
        rhs: Operand::Leaf(e),
    };
    assert!(!is_well_formed(&wrong_word));
}

#[test]
fn dispatches_follow_tree_kernels_in_post_order() {
    let mut reg = Registry::new();
    let a = lift_new(&mut reg, ElementKind::I16, vec![9, 8]);
    let b = lift_new(&mut reg, ElementKind::I16, vec![1, 2]);
    let c = lift_new(&mut reg, ElementKind::I16, vec![3, 3]);
    let d = lift_new(&mut reg, ElementKind::I16, vec![4, 4]);
    let left = combine(Operand::Leaf(a), Operand::Leaf(b), Shader::Builtin(Op::Sub)).unwrap();
    let right =
        combine(Operand::Leaf(c), Operand::Leaf(d), Shader::Imported("k.wgsl".to_string()))
            .unwrap();
    let root = combine(
        Operand::Node(Box::new(left)),
        Operand::Node(Box::new(right)),
        Shader::Builtin(Op::Div),
    )
    .unwrap();
    let shaders: Vec<Shader> = compile(root)
        .into_iter()
        .filter_map(|s| match s {
            Step::Dispatch { shader, .. } => Some(shader),
            _ => None,
        })
        .collect();
    assert_eq!(
        shaders,
        vec![
            Shader::Builtin(Op::Sub),
            Shader::Imported("k.wgsl".to_string()),
            Shader::Builtin(Op::Div),
        ]
    );
}

#[test]
fn float_leaf_resolves_to_itself() {
    let mut reg = Registry::new();
    let one = 1.0f32.to_bits() as u64;
    let neg_zero = (-0.0f32).to_bits() as u64;
    let nan = 0x7fc0_0001u64;
    let a = lift_new(&mut reg, ElementKind::F32, vec![one, neg_zero, nan]);
    assert_eq!(evaluate(&Operand::Leaf(a)).unwrap(), vec![one, neg_zero, nan]);
    let b = lift_new(&mut reg, ElementKind::F64, vec![2.5f64.to_bits()]);
    assert_eq!(evaluate(&Operand::Leaf(b)).unwrap(), vec![2.5f64.to_bits()]);
}

#[test]
fn compile_float_tree_uploads_leaf_words() {
    let mut reg = Registry::new();
    let w = |x: f32| x.to_bits() as u64;
    let a = lift_new(&mut reg, ElementKind::F32, vec![w(1.0), w(2.0)]);
    let b = lift_new(&mut reg, ElementKind::F32, vec![w(1.0), w(1.0)]);
    let c = lift_new(&mut reg, ElementKind::F32, vec![w(2.0), w(3.0)]);
    let inner = combine(Operand::Leaf(b), Operand::Leaf(c), Shader::Builtin(Op::Mul)).unwrap();
    assert_eq!(inner.depth, Depth::Entry);
    let root = combine(Operand::Leaf(a), Operand::Node(Box::new(inner)), add()).unwrap();
    assert_eq!(root.depth, Depth::Bridge(2));
    let steps = compile(root);
    let uploaded: Vec<Vec<u64>> = steps
        .iter()
        .filter_map(|s| match s {
            Step::Upload { data, kind, .. } if *kind == ElementKind::F32 => Some(data.clone()),
            _ => None,
        })
        .collect();
    assert_eq!(
        uploaded,
        vec![vec![w(1.0), w(2.0)], vec![w(1.0), w(1.0)], vec![w(2.0), w(3.0)]]
    );
    assert!(matches!(
        steps[6],
        Step::Dispatch { lhs: 0, rhs: 3, out: 4, depth: Depth::Result, kind: ElementKind::F32, .. }
    ));
}
