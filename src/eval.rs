use vstd::prelude::*;
use crate::element::{is_float, is_signed, modulus, ElementKind};
use crate::tree::{kind_of, len_of, operand_wf, Error, Op, Operand, Shader};

verus! {

/// Whether word `a` of kind `k` stands for a negative number.
pub open spec fn negative(k: ElementKind, a: u64) -> bool {
    is_signed(k) && a >= modulus(k) / 2
}

/// Absolute value of the number that word `a` of kind `k` stands for.
pub open spec fn magnitude(k: ElementKind, a: u64) -> nat {
    if negative(k, a) {
        (modulus(k) - a) as nat
    } else {
        a as nat
    }
}

/// The word that a built-in kernel computes from words `a` and `b` of an
/// integer kind `k`. Addition, subtraction and multiplication wrap around;
/// division truncates toward zero, and division by zero yields `a`.
/// Float kinds are not described: for `F32` and `F64` the value is of no
/// meaning, and no contract of this library relies on it.
pub open spec fn apply(op: Op, k: ElementKind, a: u64, b: u64) -> u64 {
    match op {
        Op::Add => ((a + b) % (modulus(k) as int)) as u64,
        Op::Sub => ((a + modulus(k) - b) % (modulus(k) as int)) as u64,
        Op::Mul => ((a * b) % (modulus(k) as int)) as u64,
        Op::Div => if b == 0 {
            a
        } else {
            let q = magnitude(k, a) / magnitude(k, b);
            if negative(k, a) != negative(k, b) && q > 0 {
                (modulus(k) - q) as u64
            } else {
                q as u64
            }
        },
    }
}

/// Element `i` of what operand `op` resolves to, for integer kinds and
/// built-in kernels. Float kinds and imported kernels are not described:
/// there the value is of no meaning, and every contract that uses it
/// excludes them.
pub open spec fn eval_at(op: Operand, i: int) -> u64
    decreases op,
{
    match op {
        Operand::Leaf(c) => c.data@[i],
        Operand::Node(c) => match c.shader {
            Shader::Builtin(o) => apply(o, kind_of(c.lhs), eval_at(c.lhs, i), eval_at(c.rhs, i)),
            Shader::Imported(_) => 0,
        },
    }
}

/// What operand `op` resolves to.
pub open spec fn eval(op: Operand) -> Seq<u64> {
    Seq::new(len_of(op), |i: int| eval_at(op, i))
}

/// Whether every node of `op` runs a built-in kernel.
pub open spec fn builtin_only(op: Operand) -> bool
    decreases op,
{
    match op {
        Operand::Leaf(_) => true,
        Operand::Node(c) => c.shader is Builtin && builtin_only(c.lhs) && builtin_only(c.rhs),
    }
}

/// Whether the host can resolve `op`: a leaf of any kind always, a node when
/// its kind is an integer kind and every node beneath runs a built-in kernel.
pub open spec fn host_supported(op: Operand) -> bool
    decreases op,
{
    match op {
        Operand::Leaf(_) => true,
        Operand::Node(c) => c.shader is Builtin && !is_float(kind_of(c.lhs)) && host_supported(
            c.lhs,
        ) && host_supported(c.rhs),
    }
}

/// `2^bits(k)` as an integer.
pub(crate) fn modulus_of(k: ElementKind) -> (r: u128)
    ensures
        r == modulus(k),
{
    match k {
        ElementKind::I8 | ElementKind::U8 => 0x100,
        ElementKind::I16 | ElementKind::U16 => 0x1_0000,
        ElementKind::F32 | ElementKind::I32 | ElementKind::U32 => 0x1_0000_0000,
        _ => 0x1_0000_0000_0000_0000,
    }
}

proof fn lemma_apply_fits(op: Op, k: ElementKind, a: u64, b: u64)
    requires
        a < modulus(k),
        b < modulus(k),
    ensures
        apply(op, k, a, b) < modulus(k),
{
    if op == Op::Div && b != 0 {
        let ma = magnitude(k, a);
        let mb = magnitude(k, b);
        assert(mb >= 1);
        assert(ma / mb <= ma) by (nonlinear_arith)
            requires
                mb >= 1,
        ;
    }
}

/// Applies a built-in kernel to one pair of words.
pub fn apply_word(op: Op, k: ElementKind, a: u64, b: u64) -> (r: u64)
    requires
        a < modulus(k),
        b < modulus(k),
    ensures
        r == apply(op, k, a, b),
        r < modulus(k),
{
    proof {
        lemma_apply_fits(op, k, a, b);
    }
    let m = modulus_of(k);
    let x = a as u128;
    let y = b as u128;
    match op {
        Op::Add => ((x + y) % m) as u64,
        Op::Sub => ((x + m - y) % m) as u64,
        Op::Mul => {
            assert(x * y < 0x1_0000_0000_0000_0000_0000_0000_0000_0000) by (nonlinear_arith)
                requires
                    x < 0x1_0000_0000_0000_0000,
                    y < 0x1_0000_0000_0000_0000,
            ;
            ((x * y) % m) as u64
        },
        Op::Div => {
            if b == 0 {
                a
            } else {
                let signed = k.is_signed();
                let neg_x = signed && x >= m / 2;
                let neg_y = signed && y >= m / 2;
                let mag_x: u128 = if neg_x { m - x } else { x };
                let mag_y: u128 = if neg_y { m - y } else { y };
                let q = mag_x / mag_y;
                if neg_x != neg_y && q > 0 {
                    (m - q) as u64
                } else {
                    q as u64
                }
            }
        },
    }
}

/// Every element that a well-formed operand resolves to is a valid word of
/// its kind.
pub proof fn lemma_eval_fits(op: Operand, i: int)
    requires
        operand_wf(op),
        0 <= i < len_of(op),
    ensures
        eval_at(op, i) < modulus(kind_of(op)),
    decreases op,
{
    match op {
        Operand::Leaf(c) => {
            assert(c.data@[i] < modulus(c.kind));
        },
        Operand::Node(c) => {
            lemma_eval_fits(c.lhs, i);
            lemma_eval_fits(c.rhs, i);
            if let Shader::Builtin(o) = c.shader {
                lemma_apply_fits(o, kind_of(c.lhs), eval_at(c.lhs, i), eval_at(c.rhs, i));
            }
        },
    }
}

/// Whether every node of `op` runs a built-in kernel and its kind is an
/// integer kind.
pub fn supported_on_host(op: &Operand) -> (r: bool)
    requires
        operand_wf(*op),
    ensures
        r == host_supported(*op),
    decreases *op,
{
    match op {
        Operand::Leaf(_) => true,
        Operand::Node(c) => {
            let builtin = match &c.shader {
                Shader::Builtin(_) => true,
                Shader::Imported(_) => false,
            };
            builtin && !c.lhs.kind().is_float() && supported_on_host(&c.lhs) && supported_on_host(
                &c.rhs,
            )
        },
    }
}

/// Resolves a well-formed operand on the host, elementwise.
fn eval_words(op: &Operand) -> (r: Vec<u64>)
    requires
        operand_wf(*op),
        host_supported(*op),
    ensures
        r@ == eval(*op),
    decreases *op,
{
    match op {
        Operand::Leaf(c) => {
            let r = c.data.clone();
            assert(r@ =~= eval(*op));
            r
        },
        Operand::Node(c) => {
            let o = match &c.shader {
                Shader::Builtin(o) => *o,
                Shader::Imported(_) => Op::Add,
            };
            let k = c.lhs.kind();
            let l = eval_words(&c.lhs);
            let r = eval_words(&c.rhs);
            let n = l.len();
            let mut out: Vec<u64> = Vec::new();
            let mut i: usize = 0;
            while i < n
                invariant
                    n == l@.len(),
                    l@ == eval(c.lhs),
                    r@ == eval(c.rhs),
                    len_of(c.lhs) == len_of(c.rhs),
                    operand_wf(c.lhs),
                    operand_wf(c.rhs),
                    kind_of(c.lhs) == kind_of(c.rhs),
                    k == kind_of(c.lhs),
                    c.shader == Shader::Builtin(o),
                    i <= n,
                    *op == Operand::Node(*c),
                    out@.len() == i,
                    forall|j: int| 0 <= j < i ==> #[trigger] out@[j] == eval_at(*op, j),
                decreases n - i,
            {
                proof {
                    lemma_eval_fits(c.lhs, i as int);
                    lemma_eval_fits(c.rhs, i as int);
                    assert(l@[i as int] == eval_at(c.lhs, i as int));
                    assert(r@[i as int] == eval_at(c.rhs, i as int));
                }
                out.push(apply_word(o, k, l[i], r[i]));
                i = i + 1;
            }
            assert(out@ =~= eval(*op));
            out
        },
    }
}

/// Resolves `op` on the host.
///
/// A lone leaf of any kind resolves to its own words. A tree fails with
/// `DeviceError` when the host cannot run it: its kind is a float kind or a
/// node runs an imported kernel.
pub fn evaluate(op: &Operand) -> (r: Result<Vec<u64>, Error>)
    requires
        operand_wf(*op),
    ensures
        host_supported(*op) ==> (r matches Ok(v) && v@ == eval(*op)),
        !host_supported(*op) ==> r == Err::<Vec<u64>, Error>(Error::DeviceError),
        op is Leaf ==> (r matches Ok(v) && v@ == op->Leaf_0.data@),
{
    if supported_on_host(op) {
        Ok(eval_words(op))
    } else {
        Err(Error::DeviceError)
    }
}

} // verus!
