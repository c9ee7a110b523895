use vstd::prelude::*;
use crate::element::{is_float, modulus};
use crate::eval::{eval, eval_at};
use crate::operand::{Component, Registry};
use crate::tree::{kind_of, len_of, node, operand_wf, Op, Operand, Shader};

verus! {

/// A lifted array, resolved as a tree of one leaf, gives back exactly the
/// words it was lifted from.
pub proof fn lemma_leaf_resolves_to_its_data(c: Component)
    requires
        c.wf(),
    ensures
        eval(Operand::Leaf(c)) == c.data@,
{
    assert(eval(Operand::Leaf(c)) =~= c.data@);
}

/// Adding two operands of one integer kind and one length gives, at every
/// index, the sum of their elements (wrapping around the kind's width), and
/// adding them in the other order gives the same array.
pub proof fn lemma_add_elementwise_commutes(x: Operand, y: Operand)
    requires
        operand_wf(x),
        operand_wf(y),
        kind_of(x) == kind_of(y),
        len_of(x) == len_of(y),
        !is_float(kind_of(x)),
    ensures
        eval(node(x, y, Shader::Builtin(Op::Add))).len() == len_of(x),
        forall|i: int|
            0 <= i < len_of(x) ==> #[trigger] eval(node(x, y, Shader::Builtin(Op::Add)))[i] == (
            eval(x)[i] + eval(y)[i]) % (modulus(kind_of(x)) as int),
        eval(node(x, y, Shader::Builtin(Op::Add))) == eval(node(y, x, Shader::Builtin(Op::Add))),
{
    let xy = node(x, y, Shader::Builtin(Op::Add));
    let yx = node(y, x, Shader::Builtin(Op::Add));
    assert forall|i: int| 0 <= i < len_of(x) implies #[trigger] eval(xy)[i] == (eval(x)[i]
        + eval(y)[i]) % (modulus(kind_of(x)) as int) by {
        assert(eval(xy)[i] == eval_at(xy, i));
        assert(eval(x)[i] == eval_at(x, i));
        assert(eval(y)[i] == eval_at(y, i));
    }
    assert(eval(xy) =~= eval(yx));
}

/// Wrapping one storage twice: the second wrapper is `Shared`, both hold the
/// same words, and the registry's copy of them is left as it was.
pub proof fn lemma_second_wrapper_is_shared(
    r0: Registry,
    r1: Registry,
    r2: Registry,
    id: int,
    a: Component,
    b: Component,
)
    requires
        r0.wf(),
        0 <= id < r0.len_spec(),
        r1.same_but_count(&r0, id),
        r1.count_spec(id) == r0.count_spec(id) + 1,
        a.data@ == r0.contents(id),
        r2.same_but_count(&r1, id),
        r2.count_spec(id) == r1.count_spec(id) + 1,
        b.data@ == r1.contents(id),
        b.identity == crate::operand::identity_after(r1.count_spec(id)),
    ensures
        b.identity is Shared,
        a.data@ == b.data@,
        r2.contents(id) == r0.contents(id),
{
}

} // verus!
