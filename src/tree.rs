use vstd::prelude::*;
use crate::element::ElementKind;
use crate::operand::Component;

verus! {

/// Failures of this library.
#[derive(Clone, Copy, Debug, PartialEq, Eq, Structural)]
pub enum Error {
    /// No usable device was found.
    GpuNotFound,
    /// The two sides of an operation hold different element kinds.
    TypeMismatch,
    /// The two sides of an operation hold different numbers of elements.
    ShapeMismatch,
    /// The backend rejected an allocation, a dispatch or a readback.
    DeviceError,
    /// A tree built by hand that is not well formed.
    Malformed,
}

/// A node's position in its tree.
#[derive(Clone, Copy, Debug, PartialEq, Eq, Structural)]
pub enum Depth {
    /// Both operands are leaf components.
    Entry,
    /// An interior node; the level is the height of its subtree.
    Bridge(u32),
    /// The root, whose output goes back to host memory.
    Result,
}

/// The fixed arithmetic kernels.
#[derive(Clone, Copy, Debug, PartialEq, Eq, Structural)]
pub enum Op {
    Add,
    Sub,
    Mul,
    Div,
}

/// Which compute program a node runs.
#[derive(Clone, Debug, PartialEq, Eq)]
pub enum Shader {
    Builtin(Op),
    /// A kernel supplied from outside, by location.
    Imported(String),
}

/// One side of an operation: a leaf array or the output of another node.
#[derive(Debug)]
pub enum Operand {
    Leaf(Component),
    Node(Box<Context>),
}

/// A pending binary operation.
#[derive(Debug)]
pub struct Context {
    pub depth: Depth,
    pub shader: Shader,
    pub lhs: Operand,
    pub rhs: Operand,
}

pub open spec fn max_nat(a: nat, b: nat) -> nat {
    if a >= b { a } else { b }
}

/// Height of an operand: 0 for a leaf, one more than the higher side for a node.
pub open spec fn height(op: Operand) -> nat
    decreases op,
{
    match op {
        Operand::Leaf(_) => 0,
        Operand::Node(c) => 1 + max_nat(height(c.lhs), height(c.rhs)),
    }
}

/// Element kind of an operand, read down its left spine.
pub open spec fn kind_of(op: Operand) -> ElementKind
    decreases op,
{
    match op {
        Operand::Leaf(c) => c.kind,
        Operand::Node(c) => kind_of(c.lhs),
    }
}

/// Number of elements of an operand, read down its left spine.
pub open spec fn len_of(op: Operand) -> nat
    decreases op,
{
    match op {
        Operand::Leaf(c) => c.data@.len(),
        Operand::Node(c) => len_of(c.lhs),
    }
}

/// The marker that a node over `lhs` and `rhs` carries below the root.
pub open spec fn depth_for(lhs: Operand, rhs: Operand) -> Depth {
    if lhs is Leaf && rhs is Leaf {
        Depth::Entry
    } else {
        Depth::Bridge((1 + max_nat(height(lhs), height(rhs))) as u32)
    }
}

/// The operand that `combine(lhs, rhs, shader)` builds.
pub open spec fn node(lhs: Operand, rhs: Operand, shader: Shader) -> Operand {
    Operand::Node(Box::new(Context { depth: depth_for(lhs, rhs), shader, lhs, rhs }))
}

/// A well-formed operand: leaves hold valid words, every node joins two
/// sides of one kind and one length, carries the marker `depth_for` of its
/// sides, and no height exceeds `u32::MAX`.
pub open spec fn operand_wf(op: Operand) -> bool
    decreases op,
{
    match op {
        Operand::Leaf(c) => c.wf(),
        Operand::Node(c) => {
            &&& operand_wf(c.lhs)
            &&& operand_wf(c.rhs)
            &&& kind_of(c.lhs) == kind_of(c.rhs)
            &&& len_of(c.lhs) == len_of(c.rhs)
            &&& height(op) <= u32::MAX
            &&& c.depth == depth_for(c.lhs, c.rhs)
        },
    }
}

impl Context {
    /// A well-formed root: both sides are well formed and agree in kind and
    /// length. Its own marker is not constrained, since resolution treats the
    /// root as the `Result` node.
    pub open spec fn root_wf(&self) -> bool {
        &&& operand_wf(self.lhs)
        &&& operand_wf(self.rhs)
        &&& kind_of(self.lhs) == kind_of(self.rhs)
        &&& len_of(self.lhs) == len_of(self.rhs)
    }

    /// Marks this node as the root of its tree.
    pub fn into_result(self) -> (r: Context)
        ensures
            r.depth == Depth::Result,
            r.shader == self.shader,
            r.lhs == self.lhs,
            r.rhs == self.rhs,
    {
        Context { depth: Depth::Result, ..self }
    }
}

impl Shader {
    /// An equal copy of this selector.
    pub fn duplicate(&self) -> (r: Shader)
        ensures
            r == *self,
    {
        match self {
            Shader::Builtin(o) => Shader::Builtin(*o),
            Shader::Imported(path) => Shader::Imported(path.clone()),
        }
    }
}

impl Operand {
    /// Element kind of this operand.
    pub fn kind(&self) -> (r: ElementKind)
        ensures
            r == kind_of(*self),
        decreases *self,
    {
        match self {
            Operand::Leaf(c) => c.kind,
            Operand::Node(c) => c.lhs.kind(),
        }
    }

    /// Number of elements of this operand.
    pub fn len(&self) -> (r: usize)
        ensures
            r == len_of(*self),
        decreases *self,
    {
        match self {
            Operand::Leaf(c) => c.data.len(),
            Operand::Node(c) => c.lhs.len(),
        }
    }

    /// Height of this operand, read from the node's marker.
    pub fn height(&self) -> (r: u32)
        requires
            operand_wf(*self),
        ensures
            r == height(*self),
    {
        match self {
            Operand::Leaf(_) => 0,
            Operand::Node(c) => match c.depth {
                Depth::Entry => 1,
                Depth::Bridge(n) => n,
                Depth::Result => 0,
            },
        }
    }
}

/// Joins two operands under `shader`.
///
/// Fails with `TypeMismatch` when the element kinds differ, else with
/// `ShapeMismatch` when the lengths differ (lengths must be equal; there is
/// no broadcasting). The node is `Entry` over two leaves and otherwise
/// `Bridge` at one more than the higher side.
pub fn combine(lhs: Operand, rhs: Operand, shader: Shader) -> (r: Result<Context, Error>)
    requires
        operand_wf(lhs),
        operand_wf(rhs),
        max_nat(height(lhs), height(rhs)) < u32::MAX,
    ensures
        kind_of(lhs) != kind_of(rhs) <==> r == Err::<Context, Error>(Error::TypeMismatch),
        kind_of(lhs) == kind_of(rhs) && len_of(lhs) != len_of(rhs) <==> r == Err::<
            Context,
            Error,
        >(Error::ShapeMismatch),
        kind_of(lhs) == kind_of(rhs) && len_of(lhs) == len_of(rhs) <==> r is Ok,
        r matches Ok(c) ==> {
            &&& c.lhs == lhs
            &&& c.rhs == rhs
            &&& c.shader == shader
            &&& c.depth == depth_for(lhs, rhs)
            &&& c.root_wf()
            &&& Operand::Node(Box::new(c)) == node(lhs, rhs, shader)
            &&& operand_wf(node(lhs, rhs, shader))
        },
{
    if lhs.kind() != rhs.kind() {
        return Err(Error::TypeMismatch);
    }
    if lhs.len() != rhs.len() {
        return Err(Error::ShapeMismatch);
    }
    let depth = match (&lhs, &rhs) {
        (Operand::Leaf(_), Operand::Leaf(_)) => Depth::Entry,
        _ => {
            let hl = lhs.height();
            let hr = rhs.height();
            let h = if hl >= hr { hl } else { hr };
            Depth::Bridge(h + 1)
        },
    };
    Ok(Context { depth, shader, lhs, rhs })
}

} // verus!
