use vstd::prelude::*;
use crate::element::{is_float, modulus, words_fit, ElementKind};
use crate::eval::modulus_of;
use crate::eval::{apply, builtin_only, eval};
use crate::operand::Identity;
use crate::tree::{depth_for, kind_of, len_of, operand_wf, Context, Depth, Operand, Shader};

verus! {

/// One device step of a resolution. Buffers are numbered in order of
/// creation, from zero.
#[derive(Debug, PartialEq, Eq)]
pub enum Step {
    /// Creates buffer `buffer` and uploads `data`, words of kind `kind` of
    /// the storage numbered `storage`;
    /// `shared` when the buffer serves every leaf of a shared storage and is
    /// kept until the end.
    Upload { buffer: usize, kind: ElementKind, storage: usize, data: Vec<u64>, shared: bool },
    /// Creates buffer `out` and runs `shader` over buffers `lhs` and `rhs`,
    /// `len` elements of kind `kind`, for a node marked `depth`.
    Dispatch {
        shader: Shader,
        kind: ElementKind,
        len: usize,
        depth: Depth,
        lhs: usize,
        rhs: usize,
        out: usize,
    },
    /// Copies buffer `buffer` back to host memory: the final array.
    Readback { buffer: usize, kind: ElementKind, len: usize },
    /// Frees buffer `buffer`.
    Release { buffer: usize },
}

/// The live buffers and the next buffer number after one more step, or
/// `None` when the step reads or frees a buffer that is not live, or creates
/// one out of order.
pub open spec fn advance(state: (Set<int>, int), s: Step) -> Option<(Set<int>, int)> {
    let (live, next) = state;
    match s {
        Step::Upload { buffer, .. } => if buffer == next {
            Some((live.insert(next), next + 1))
        } else {
            None
        },
        Step::Dispatch { lhs, rhs, out, .. } => if live.contains(lhs as int) && live.contains(
            rhs as int,
        ) && out == next {
            Some((live.insert(next), next + 1))
        } else {
            None
        },
        Step::Readback { buffer, .. } => if live.contains(buffer as int) {
            Some((live, next))
        } else {
            None
        },
        Step::Release { buffer } => if live.contains(buffer as int) {
            Some((live.remove(buffer as int), next))
        } else {
            None
        },
    }
}

/// Runs the buffer bookkeeping of `steps` from no buffers at all.
pub open spec fn run(steps: Seq<Step>) -> Option<(Set<int>, int)>
    decreases steps.len(),
{
    if steps.len() == 0 {
        Some((Set::empty(), 0))
    } else {
        match run(steps.drop_last()) {
            Some(state) => advance(state, steps.last()),
            None => None,
        }
    }
}

/// What a dispatch of `shader` over `len` words of kind `kind` writes, given
/// the words of its two inputs, for integer kinds and built-in kernels.
/// Float kinds and imported kernels are not described: there the value is
/// of no meaning, and every contract that uses it excludes them.
pub open spec fn dispatch_result(
    shader: Shader,
    kind: ElementKind,
    len: nat,
    a: Seq<u64>,
    b: Seq<u64>,
) -> Seq<u64> {
    match shader {
        Shader::Builtin(o) => Seq::new(len, |i: int| apply(o, kind, a[i], b[i])),
        Shader::Imported(_) => Seq::empty(),
    }
}

/// The words each buffer was given by `steps`: an upload writes its data, a
/// dispatch writes what its kernel computes. A freed buffer keeps its last
/// words here; buffer numbers are never reused.
pub open spec fn memory(steps: Seq<Step>) -> Map<int, Seq<u64>>
    decreases steps.len(),
{
    if steps.len() == 0 {
        Map::empty()
    } else {
        let m = memory(steps.drop_last());
        match steps.last() {
            Step::Upload { buffer, data, .. } => m.insert(buffer as int, data@),
            Step::Dispatch { shader, kind, len, lhs, rhs, out, .. } => m.insert(
                out as int,
                dispatch_result(shader, kind, len as nat, m[lhs as int], m[rhs as int]),
            ),
            _ => m,
        }
    }
}

/// The kernels of the nodes of `op`, in post-order: left side, right side,
/// then the node itself.
pub open spec fn tree_shaders(op: Operand) -> Seq<Shader>
    decreases op,
{
    match op {
        Operand::Leaf(_) => Seq::empty(),
        Operand::Node(c) => tree_shaders(c.lhs) + tree_shaders(c.rhs) + seq![c.shader],
    }
}

/// The kernels of the dispatch steps of `steps`, in order.
pub open spec fn step_shaders(steps: Seq<Step>) -> Seq<Shader>
    decreases steps.len(),
{
    if steps.len() == 0 {
        Seq::empty()
    } else {
        match steps.last() {
            Step::Dispatch { shader, .. } => step_shaders(steps.drop_last()).push(shader),
            _ => step_shaders(steps.drop_last()),
        }
    }
}

/// Step `s` is the upload of a shared storage into buffer `b`.
pub open spec fn shared_upload_of(s: Step, b: usize) -> bool {
    match s {
        Step::Upload { buffer, shared, .. } => shared && buffer == b,
        _ => false,
    }
}

/// Buffer `b` holds a shared storage.
pub open spec fn kept(steps: Seq<Step>, b: usize) -> bool {
    exists|i: int| 0 <= i < steps.len() && #[trigger] shared_upload_of(steps[i], b)
}

/// The storage and words that step `s` uploads, if it uploads a shared
/// storage.
pub open spec fn shared_upload(s: Step) -> Option<(usize, Seq<u64>, ElementKind)> {
    match s {
        Step::Upload { storage, data, shared, kind, .. } => if shared {
            Some((storage, data@, kind))
        } else {
            None
        },
        _ => None,
    }
}

/// No shared storage is uploaded twice with the same words.
pub open spec fn uploads_once(steps: Seq<Step>) -> bool {
    forall|i: int, j: int|
        0 <= i < j < steps.len() && (#[trigger] shared_upload(steps[i])) is Some ==> shared_upload(
            steps[i],
        ) != #[trigger] shared_upload(steps[j])
}

pub open spec fn in_cache(
    cache: Seq<(usize, usize, Vec<u64>, ElementKind)>,
    x: (usize, Seq<u64>, ElementKind),
) -> bool {
    exists|j: int|
        0 <= j < cache.len() && cache[j].0 == x.0 && #[trigger] cache[j].2@ == x.1 && cache[j].3
            == x.2
}

/// Step `i` frees buffer `b`.
pub open spec fn released_at(steps: Seq<Step>, i: int, b: usize) -> bool {
    0 <= i < steps.len() && steps[i] == (Step::Release { buffer: b })
}

/// Input `b` of the dispatch at step `k` is a shared storage's buffer, or is
/// freed by one of the three steps right after that dispatch (the root's
/// readback may come between).
pub open spec fn input_freed(steps: Seq<Step>, k: int, b: usize) -> bool {
    kept(steps, b) || released_at(steps, k + 1, b) || released_at(steps, k + 2, b) || released_at(
        steps,
        k + 3,
        b,
    )
}

/// If step `k` is a dispatch, both of its inputs are freed right after it
/// unless they hold a shared storage.
pub open spec fn frees_inputs(steps: Seq<Step>, k: int) -> bool {
    match steps[k] {
        Step::Dispatch { lhs, rhs, .. } => input_freed(steps, k, lhs) && input_freed(steps, k, rhs),
        _ => true,
    }
}

/// `frees_inputs` holds of the first `n` steps.
pub open spec fn frees_upto(steps: Seq<Step>, n: int) -> bool {
    forall|k: int| 0 <= k < n ==> #[trigger] frees_inputs(steps, k)
}

proof fn lemma_extend(s: Seq<Step>, x: Step)
    ensures
        forall|b: usize| kept(s, b) ==> kept(s.push(x), b),
        forall|i: int, b: usize| released_at(s, i, b) ==> released_at(s.push(x), i, b),
        forall|n: int|
            0 <= n <= s.len() && #[trigger] frees_upto(s, n) ==> frees_upto(s.push(x), n),
        !(x is Upload) ==> (uploads_once(s) ==> uploads_once(s.push(x))),
        producers_kept(s, s.push(x)),
{
    let t = s.push(x);
    assert(t.drop_last() =~= s);
    if !(x is Upload) && uploads_once(s) {
        assert forall|i: int, j: int|
            0 <= i < j < t.len() && (#[trigger] shared_upload(t[i])) is Some implies shared_upload(
                t[i],
            ) != #[trigger] shared_upload(t[j]) by {
            assert(t[i] == s[i]);
            if j < s.len() {
                assert(t[j] == s[j]);
            }
        }
    }
    assert forall|b: usize| kept(s, b) implies kept(t, b) by {
        let i = choose|i: int| 0 <= i < s.len() && #[trigger] shared_upload_of(s[i], b);
        assert(t[i] == s[i]);
    }
    assert forall|i: int, b: usize| released_at(s, i, b) implies released_at(t, i, b) by {
        assert(t[i] == s[i]);
    }
    assert forall|n: int| 0 <= n <= s.len() && #[trigger] frees_upto(s, n) implies frees_upto(t, n) by {
        assert forall|k: int| 0 <= k < n implies #[trigger] frees_inputs(t, k) by {
            assert(frees_inputs(s, k));
            assert(t[k] == s[k]);
        }
    }
}

/// Whether step `s` creates buffer `b`.
pub open spec fn creates(s: Step, b: int) -> bool {
    match s {
        Step::Upload { buffer, .. } => buffer == b,
        Step::Dispatch { out, .. } => out == b,
        _ => false,
    }
}

/// The first step of `steps` that creates buffer `b`.
pub open spec fn producer(steps: Seq<Step>, b: int) -> Option<Step>
    decreases steps.len(),
{
    if steps.len() == 0 {
        None
    } else {
        let earlier = producer(steps.drop_last(), b);
        if earlier is Some {
            earlier
        } else if creates(steps.last(), b) {
            Some(steps.last())
        } else {
            None
        }
    }
}

/// Buffer `b` was created by an upload of `data`, words of kind `kind`.
pub open spec fn uploaded_as(steps: Seq<Step>, b: int, kind: ElementKind, data: Seq<u64>) -> bool {
    match producer(steps, b) {
        Some(Step::Upload { kind: k, data: d, .. }) => k == kind && d@ == data,
        _ => false,
    }
}

/// Buffer `b` holds operand `op` as the steps build it: a leaf's buffer is
/// an upload of its kind and words, and a node's buffer is made by one
/// dispatch of the node's kernel, kind and length over buffers that hold its
/// two sides.
pub open spec fn flows(steps: Seq<Step>, b: int, op: Operand) -> bool
    decreases op,
{
    match op {
        Operand::Leaf(c) => uploaded_as(steps, b, c.kind, c.data@),
        Operand::Node(c) => match producer(steps, b) {
            Some(Step::Dispatch { shader, kind, len, lhs, rhs, .. }) => {
                &&& shader == c.shader
                &&& kind == kind_of(c.lhs)
                &&& len == len_of(c.lhs)
                &&& flows(steps, lhs as int, c.lhs)
                &&& flows(steps, rhs as int, c.rhs)
            },
            _ => false,
        },
    }
}

/// Whether every buffer created in `s` was created by the same step in `t`.
pub open spec fn producers_kept(s: Seq<Step>, t: Seq<Step>) -> bool {
    forall|b: int| (#[trigger] producer(s, b)) is Some ==> producer(t, b) == producer(s, b)
}

proof fn lemma_flows_stable(s: Seq<Step>, t: Seq<Step>, b: int, op: Operand)
    requires
        flows(s, b, op),
        producers_kept(s, t),
    ensures
        flows(t, b, op),
    decreases op,
{
    assert(producer(s, b) is Some);
    match op {
        Operand::Leaf(_) => {},
        Operand::Node(c) => {
            if let Some(Step::Dispatch { lhs, rhs, .. }) = producer(s, b) {
                lemma_flows_stable(s, t, lhs as int, c.lhs);
                lemma_flows_stable(s, t, rhs as int, c.rhs);
            }
        },
    }
}

/// Number of dispatch steps in `steps`.
pub open spec fn dispatches(steps: Seq<Step>) -> nat
    decreases steps.len(),
{
    if steps.len() == 0 {
        0
    } else {
        dispatches(steps.drop_last()) + if steps.last() is Dispatch {
            1nat
        } else {
            0nat
        }
    }
}

/// Number of nodes and leaves of an operand.
pub open spec fn size(op: Operand) -> nat
    decreases op,
{
    match op {
        Operand::Leaf(_) => 1,
        Operand::Node(c) => 1 + size(c.lhs) + size(c.rhs),
    }
}

/// Number of nodes of an operand.
pub open spec fn nodes(op: Operand) -> nat
    decreases op,
{
    match op {
        Operand::Leaf(_) => 0,
        Operand::Node(c) => 1 + nodes(c.lhs) + nodes(c.rhs),
    }
}

pub open spec fn cached(cache: Seq<(usize, usize, Vec<u64>, ElementKind)>, b: int) -> bool {
    exists|j: int| 0 <= j < cache.len() && cache[j].1 == b
}

/// Whether two arrays hold the same words.
fn same_words(a: &Vec<u64>, b: &Vec<u64>) -> (r: bool)
    ensures
        r == (a@ == b@),
{
    if a.len() != b.len() {
        return false;
    }
    let mut i: usize = 0;
    while i < a.len()
        invariant
            a@.len() == b@.len(),
            i <= a@.len(),
            forall|j: int| 0 <= j < i ==> a@[j] == b@[j],
        decreases a@.len() - i,
    {
        if a[i] != b[i] {
            return false;
        }
        i = i + 1;
    }
    assert(a@ =~= b@);
    true
}

struct Planner {
    steps: Vec<Step>,
    next: usize,
    /// Buffers of shared storages: storage number, buffer, and the words
    /// uploaded into it.
    cache: Vec<(usize, usize, Vec<u64>, ElementKind)>,
    live: Ghost<Set<int>>,
    /// Live buffers that are not in the cache.
    pending: Ghost<Set<int>>,
}

impl Planner {
    spec fn inv(&self) -> bool {
        &&& run(self.steps@) == Some((self.live@, self.next as int))
        &&& frees_upto(self.steps@, self.steps@.len() as int)
        &&& uploads_once(self.steps@)
        &&& forall|b: int| (#[trigger] producer(self.steps@, b)) is Some ==> 0 <= b < self.next
        &&& forall|j: int|
            0 <= j < self.cache@.len() ==> uploaded_as(
                self.steps@,
                (#[trigger] self.cache@[j]).1 as int,
                self.cache@[j].3,
                self.cache@[j].2@,
            )
        &&& forall|i: int|
            0 <= i < self.steps@.len() && (#[trigger] shared_upload(self.steps@[i])) is Some
                ==> in_cache(self.cache@, shared_upload(self.steps@[i])->0)
        &&& forall|j: int| 0 <= j < self.cache@.len() ==> kept(self.steps@, (#[trigger] self.cache@[j]).1)
        &&& forall|b: int| 0 <= b < self.next ==> #[trigger] memory(self.steps@).dom().contains(b)
        &&& forall|j: int|
            0 <= j < self.cache@.len() ==> memory(self.steps@)[(#[trigger] self.cache@[j]).1 as int]
                == self.cache@[j].2@
        &&& forall|b: int| self.live@.contains(b) ==> 0 <= b < self.next
        &&& forall|b: int|
            #![trigger self.live@.contains(b)]
            self.live@.contains(b) <==> (cached(self.cache@, b) || self.pending@.contains(b))
        &&& forall|j: int|
            0 <= j < self.cache@.len() ==> (#[trigger] self.cache@[j]).1 < self.next
        &&& forall|i: int, j: int|
            0 <= i < j < self.cache@.len() ==> (#[trigger] self.cache@[i]).1
                != (#[trigger] self.cache@[j]).1
    }

    proof fn lemma_cached_live(&self, j: int)
        requires
            self.inv(),
            0 <= j < self.cache@.len(),
        ensures
            self.live@.contains(self.cache@[j].1 as int),
    {
        assert(cached(self.cache@, self.cache@[j].1 as int));
    }

    fn push(&mut self, s: Step)
        requires
            advance((old(self).live@, old(self).next as int), s) is Some,
        ensures
            final(self).steps@ == old(self).steps@.push(s),
            final(self).next == old(self).next,
            final(self).cache == old(self).cache,
            final(self).live == old(self).live,
            final(self).pending == old(self).pending,
            memory(final(self).steps@) == match s {
                Step::Upload { buffer, data, .. } => memory(old(self).steps@).insert(
                    buffer as int,
                    data@,
                ),
                Step::Dispatch { shader, kind, len, lhs, rhs, out, .. } => memory(
                    old(self).steps@,
                ).insert(
                    out as int,
                    dispatch_result(
                        shader,
                        kind,
                        len as nat,
                        memory(old(self).steps@)[lhs as int],
                        memory(old(self).steps@)[rhs as int],
                    ),
                ),
                _ => memory(old(self).steps@),
            },
            forall|b: usize| kept(old(self).steps@, b) ==> kept(final(self).steps@, b),
            !(s is Upload) ==> (uploads_once(old(self).steps@) ==> uploads_once(final(self).steps@)),
            producers_kept(old(self).steps@, final(self).steps@),
            forall|b: int|
                producer(old(self).steps@, b) is None ==> #[trigger] producer(final(self).steps@, b)
                    == if creates(s, b) {
                    Some(s)
                } else {
                    None
                },
            forall|i: int, b: usize|
                released_at(old(self).steps@, i, b) ==> released_at(final(self).steps@, i, b),
            forall|n: int|
                0 <= n <= old(self).steps@.len() && #[trigger] frees_upto(old(self).steps@, n)
                    ==> frees_upto(final(self).steps@, n),
            step_shaders(final(self).steps@) == match s {
                Step::Dispatch { shader, .. } => step_shaders(old(self).steps@).push(shader),
                _ => step_shaders(old(self).steps@),
            },
            run(final(self).steps@) == match run(old(self).steps@) {
                Some(state) => advance(state, s),
                None => None,
            },
            dispatches(final(self).steps@) == dispatches(old(self).steps@) + if s is Dispatch {
                1nat
            } else {
                0nat
            },
    {
        let ghost before = self.steps@;
        self.steps.push(s);
        assert(self.steps@.drop_last() =~= before);
        assert(self.steps@.last() == s);
        proof {
            lemma_extend(before, s);
        }
    }
}


impl Planner {
    /// Appends the steps that make the output of `op` live; returns its
    /// buffer and whether that buffer is transient (freed by its reader)
    /// rather than a cached buffer of a shared storage.
    #[verifier::rlimit(60)]
    fn emit(&mut self, op: &Operand) -> (res: (usize, bool))
        requires
            old(self).inv(),
            operand_wf(*op),
            old(self).next + size(*op) <= usize::MAX,
        ensures
            final(self).inv(),
            old(self).next <= final(self).next <= old(self).next + size(*op),
            final(self).live@.contains(res.0 as int),
            res.1 ==> {
                &&& res.0 >= old(self).next
                &&& !cached(final(self).cache@, res.0 as int)
                &&& final(self).pending@ == old(self).pending@.insert(res.0 as int)
            },
            !res.1 ==> final(self).pending@ == old(self).pending@,
            !res.1 ==> cached(final(self).cache@, res.0 as int),
            old(self).cache@.len() <= final(self).cache@.len(),
            forall|j: int|
                0 <= j < old(self).cache@.len() ==> #[trigger] final(self).cache@[j]
                    == old(self).cache@[j],
            forall|j: int|
                old(self).cache@.len() <= j < final(self).cache@.len() ==> (
                #[trigger] final(self).cache@[j]).1 >= old(self).next,
            dispatches(final(self).steps@) == dispatches(old(self).steps@) + nodes(*op),
            forall|b: int|
                0 <= b < old(self).next ==> #[trigger] memory(final(self).steps@)[b] == memory(
                    old(self).steps@,
                )[b],
            builtin_only(*op) && !is_float(kind_of(*op)) ==> memory(final(self).steps@)[res.0 as int]
                == eval(*op),
            step_shaders(final(self).steps@) == step_shaders(old(self).steps@) + tree_shaders(*op),
            producers_kept(old(self).steps@, final(self).steps@),
            flows(final(self).steps@, res.0 as int, *op),
        decreases *op,
    {
        match op {
            Operand::Leaf(c) => {
                assert(nodes(*op) == 0);
                assert(eval(*op) =~= c.data@);
                assert(step_shaders(self.steps@) + tree_shaders(*op) =~= step_shaders(self.steps@));
                if let Identity::Shared(_) = c.identity {
                    let mut j: usize = 0;
                    while j < self.cache.len()
                        invariant
                            self.inv(),
                            0 <= j <= self.cache@.len(),
                            *self == *old(self),
                            nodes(*op) == 0,
                            eval(*op) == c.data@,
                            *op == Operand::Leaf(*c),
                            step_shaders(self.steps@) + tree_shaders(*op) == step_shaders(self.steps@),
                            forall|w: int|
                                0 <= w < j ==> !((#[trigger] self.cache@[w]).0 == c.storage
                                    && self.cache@[w].2@ == c.data@ && self.cache@[w].3 == c.kind),
                        decreases self.cache@.len() - j,
                    {
                        if self.cache[j].0 == c.storage && self.cache[j].3 == c.kind && same_words(
                            &self.cache[j].2,
                            &c.data,
                        ) {
                            let b = self.cache[j].1;
                            proof {
                                self.lemma_cached_live(j as int);
                                assert(uploaded_as(
                                    self.steps@,
                                    self.cache@[j as int].1 as int,
                                    self.cache@[j as int].3,
                                    self.cache@[j as int].2@,
                                ));
                                assert(flows(self.steps@, b as int, *op));
                                assert(cached(self.cache@, b as int));
                            }
                            return (b, false);
                        }
                        j = j + 1;
                    }
                }
                let n = self.next;
                let shared = match c.identity {
                    Identity::Shared(_) => true,
                    Identity::Unique => false,
                };
                let ghost before = self.steps@;
                proof {
                    if shared {
                        assert(!in_cache(self.cache@, (c.storage, c.data@, c.kind)));
                    }
                }
                let data = c.data.clone();
                self.push(Step::Upload { buffer: n, kind: c.kind, storage: c.storage, data, shared });
                self.next = n + 1;
                proof {
                    assert(producer(before, n as int) is None);
                    assert(data@ == c.data@);
                    assert(uploaded_as(self.steps@, n as int, c.kind, c.data@));
                    assert(flows(self.steps@, n as int, *op));
                    assert forall|i: int, j: int|
                        0 <= i < j < self.steps@.len() && (#[trigger] shared_upload(
                            self.steps@[i],
                        )) is Some implies shared_upload(self.steps@[i]) != #[trigger] shared_upload(
                        self.steps@[j],
                    ) by {
                        assert(self.steps@[i] == before[i]);
                        if j < before.len() {
                            assert(self.steps@[j] == before[j]);
                        } else if shared {
                            let x = shared_upload(before[i])->0;
                            assert(in_cache(self.cache@, x));
                            if x == (c.storage, c.data@, c.kind) {
                                let w = choose|w: int|
                                    0 <= w < self.cache@.len() && self.cache@[w].0 == x.0
                                        && #[trigger] self.cache@[w].2@ == x.1 && self.cache@[w].3 == x.2;
                                assert(!((self.cache@[w]).0 == c.storage && self.cache@[w].2@
                                    == c.data@ && self.cache@[w].3 == c.kind));
                            }
                        }
                    }
                    assert(uploads_once(self.steps@));
                    self.live@ = self.live@.insert(n as int);
                    assert(frees_inputs(self.steps@, before.len() as int));
                    assert forall|k: int| 0 <= k < self.steps@.len() implies #[trigger] frees_inputs(
                        self.steps@,
                        k,
                    ) by {
                        if k < before.len() {
                            assert(frees_upto(self.steps@, before.len() as int));
                        }
                    }
                    assert(shared ==> shared_upload_of(self.steps@[before.len() as int], n));
                    assert forall|j: int| 0 <= j < self.cache@.len() implies kept(
                        self.steps@,
                        (#[trigger] self.cache@[j]).1,
                    ) by {
                        assert(kept(before, self.cache@[j].1));
                    }
                }
                if shared {
                    self.cache.push((c.storage, n, c.data.clone(), c.kind));
                    proof {
                        assert(kept(self.steps@, n));
                        assert forall|j: int| 0 <= j < self.cache@.len() implies kept(
                            self.steps@,
                            (#[trigger] self.cache@[j]).1,
                        ) by {
                            if j < self.cache@.len() - 1 {
                                assert(self.cache@[j] == old(self).cache@[j]);
                            }
                        }
                        let last = self.cache@.len() - 1;
                        assert(self.cache@[last].1 == n);
                        assert forall|b: int|
                            #![trigger self.live@.contains(b)]
                            self.live@.contains(b) <==> (cached(self.cache@, b)
                                || self.pending@.contains(b)) by {
                            if cached(old(self).cache@, b) {
                                let w = choose|w: int|
                                    0 <= w < old(self).cache@.len() && old(self).cache@[w].1 == b;
                                assert(self.cache@[w] == old(self).cache@[w]);
                            }
                            if cached(self.cache@, b) && b != n {
                                let w = choose|w: int|
                                    0 <= w < self.cache@.len() && self.cache@[w].1 == b;
                                assert(w < old(self).cache@.len());
                                assert(old(self).cache@[w] == self.cache@[w]);
                            }
                        }
                    }
                    proof {
                        let last = self.cache@.len() - 1;
                        assert forall|i: int|
                            0 <= i < self.steps@.len() && (#[trigger] shared_upload(
                                self.steps@[i],
                            )) is Some implies in_cache(
                            self.cache@,
                            shared_upload(self.steps@[i])->0,
                        ) by {
                            if i < before.len() {
                                assert(self.steps@[i] == before[i]);
                                let x = shared_upload(before[i])->0;
                                assert(in_cache(old(self).cache@, x));
                                let w = choose|w: int|
                                    0 <= w < old(self).cache@.len() && old(self).cache@[w].0 == x.0
                                        && #[trigger] old(self).cache@[w].2@ == x.1
                                        && old(self).cache@[w].3 == x.2;
                                assert(self.cache@[w] == old(self).cache@[w]);
                            } else {
                                assert(self.cache@[last].2@ == c.data@ && self.cache@[last].3 == c.kind);
                            }
                        }
                    }
                    assert(flows(self.steps@, n as int, *op));
                    (n, false)
                } else {
                    proof {
                        self.pending@ = self.pending@.insert(n as int);
                        if cached(self.cache@, n as int) {
                            let w = choose|w: int|
                                0 <= w < self.cache@.len() && self.cache@[w].1 == n;
                        }
                    }
                    proof {
                        assert forall|i: int|
                            0 <= i < self.steps@.len() && (#[trigger] shared_upload(
                                self.steps@[i],
                            )) is Some implies in_cache(
                            self.cache@,
                            shared_upload(self.steps@[i])->0,
                        ) by {
                            if i < before.len() {
                                assert(self.steps@[i] == before[i]);
                            }
                        }
                    }
                    assert(flows(self.steps@, n as int, *op));
                    (n, true)
                }
            },
            Operand::Node(c) => {
                let ghost at_start = *self;
                let (bl, tl) = self.emit(&c.lhs);
                let ghost after_lhs = *self;
                let (br, tr) = self.emit(&c.rhs);
                let ghost after_rhs = *self;
                let out = self.next;
                proof {
                    if tl {
                        assert(after_rhs.pending@.contains(bl as int));
                    } else {
                        let w = choose|w: int|
                            0 <= w < after_lhs.cache@.len() && after_lhs.cache@[w].1 == bl;
                        assert(after_rhs.cache@[w] == after_lhs.cache@[w]);
                        assert(cached(after_rhs.cache@, bl as int));
                    }
                    assert(after_rhs.live@.contains(bl as int));
                }
                self.push(
                    Step::Dispatch {
                        shader: c.shader.duplicate(),
                        kind: c.lhs.kind(),
                        len: c.lhs.len(),
                        depth: c.depth,
                        lhs: bl,
                        rhs: br,
                        out,
                    },
                );
                self.next = out + 1;
                let ghost kd = after_rhs.steps@.len() as int;
                proof {
                    self.live@ = self.live@.insert(out as int);
                    self.pending@ = self.pending@.insert(out as int);
                    if cached(self.cache@, out as int) {
                        let w = choose|w: int|
                            0 <= w < self.cache@.len() && self.cache@[w].1 == out;
                    }
                    assert(frees_upto(after_rhs.steps@, kd));
                    assert(frees_upto(self.steps@, kd));
                    if !tl {
                        let w = choose|w: int|
                            0 <= w < after_rhs.cache@.len() && after_rhs.cache@[w].1 == bl;
                        assert(kept(after_rhs.steps@, after_rhs.cache@[w].1));
                        assert(kept(self.steps@, bl));
                    }
                    if !tr {
                        let w = choose|w: int|
                            0 <= w < after_rhs.cache@.len() && after_rhs.cache@[w].1 == br;
                        assert(kept(after_rhs.steps@, after_rhs.cache@[w].1));
                        assert(kept(self.steps@, br));
                    }
                    assert(self.steps@[kd] matches Step::Dispatch { lhs, rhs, .. } && lhs == bl
                        && rhs == br);
                }
                let ghost at_dispatch = self.steps@;
                proof {
                    lemma_flows_stable(after_lhs.steps@, after_rhs.steps@, bl as int, c.lhs);
                    assert(producer(after_rhs.steps@, out as int) is None);
                    lemma_flows_stable(after_rhs.steps@, at_dispatch, bl as int, c.lhs);
                    lemma_flows_stable(after_rhs.steps@, at_dispatch, br as int, c.rhs);
                    assert(flows(at_dispatch, out as int, *op));
                }
                if tl {
                    proof {
                        if cached(self.cache@, bl as int) {
                            let w = choose|w: int|
                                0 <= w < self.cache@.len() && self.cache@[w].1 == bl;
                            if w < after_lhs.cache@.len() {
                                assert(after_lhs.cache@[w] == self.cache@[w]);
                            }
                        }
                    }
                    self.push(Step::Release { buffer: bl });
                    proof {
                        self.live@ = self.live@.remove(bl as int);
                        self.pending@ = self.pending@.remove(bl as int);
                        assert(frees_upto(at_dispatch, kd));
                        assert(frees_upto(self.steps@, kd));
                        assert(released_at(self.steps@, kd + 1, bl));
                        if !tr {
                            assert(kept(at_dispatch, br));
                        }
                    }
                }
                let ghost at_first = self.steps@;
                if tr {
                    self.push(Step::Release { buffer: br });
                    proof {
                        self.live@ = self.live@.remove(br as int);
                        self.pending@ = self.pending@.remove(br as int);
                        assert(frees_upto(at_first, kd));
                        assert(frees_upto(self.steps@, kd));
                        assert(released_at(self.steps@, at_first.len() as int, br));
                        if tl {
                            assert(released_at(at_first, kd + 1, bl));
                        } else {
                            assert(kept(at_first, bl));
                        }
                    }
                }
                proof {
                    assert(self.steps@[kd] == at_dispatch[kd]);
                    assert(frees_inputs(self.steps@, kd));
                    assert forall|k: int| 0 <= k < self.steps@.len() implies #[trigger] frees_inputs(
                        self.steps@,
                        k,
                    ) by {
                        if k < kd {
                            assert(frees_upto(self.steps@, kd));
                        }
                    }
                    if tl {
                        assert(!at_start.live@.contains(bl as int));
                        assert(!at_start.pending@.contains(bl as int));
                    }
                    if tr {
                        assert(!after_lhs.live@.contains(br as int));
                        assert(!after_lhs.pending@.contains(br as int));
                        assert(bl != br);
                    }
                    assert(self.pending@ =~= at_start.pending@.insert(out as int));
                    assert(step_shaders(self.steps@) =~= step_shaders(at_start.steps@) + tree_shaders(
                        *op,
                    ));
                    assert(producers_kept(at_dispatch, self.steps@));
                    lemma_flows_stable(at_dispatch, self.steps@, out as int, *op);
                }
                (out, true)
            },
        }
    }
}

/// Step `k` is the root's dispatch, of `len` words of kind `kind`, and step
/// `k + 1` reads its output back.
pub open spec fn reads_back_result(steps: Seq<Step>, k: int, kind: ElementKind, len: nat) -> bool {
    &&& 0 <= k < steps.len() - 1
    &&& match (steps[k], steps[k + 1]) {
        (
            Step::Dispatch { depth, out, kind: dk, len: dl, .. },
            Step::Readback { buffer, kind: rk, len: rl },
        ) => depth == Depth::Result && dk == kind && dl == len && buffer == out && rk == kind
            && rl == len,
        _ => false,
    }
}

/// The words that step `k` reads back, as `memory` holds them after all of
/// `steps`.
pub open spec fn read_words(steps: Seq<Step>, k: int) -> Seq<u64> {
    match steps[k] {
        Step::Readback { buffer, .. } => memory(steps)[buffer as int],
        _ => Seq::empty(),
    }
}

/// The buffer that step `k` reads back.
pub open spec fn read_buffer(steps: Seq<Step>, k: int) -> int {
    match steps[k] {
        Step::Readback { buffer, .. } => buffer as int,
        _ => -1,
    }
}

/// Compiles a tree rooted at `root` into device steps, bottom-up: each
/// side's steps come before the node's dispatch, a leaf of a shared storage
/// is uploaded once and its buffer reused, a transient buffer is freed right
/// after the dispatch that reads it, and the root's output is read back to
/// the host.
///
/// The dispatches run the tree's kernels in post-order. Every input of a
/// dispatch is either the buffer of a shared storage, uploaded once and kept
/// until the end, or freed within the three steps after that dispatch; no
/// shared storage is uploaded twice with the same words. Whatever the kinds
/// and kernels, the buffer read back is built from the steps exactly as the
/// tree is: each leaf an upload of its kind and words, each node one dispatch
/// of its kernel over the buffers of its two sides (`flows`).
///
/// The tree is consumed: a resolved tree cannot be resolved again.
///
/// The steps read and free only live buffers, create buffers in order, and
/// leave none live at the end; there is one dispatch per node, and the
/// root's dispatch, marked `Result`, is followed by the readback of its
/// output: `len_of(root.lhs)` words of kind `kind_of(root.lhs)`. Where the
/// kind is an integer kind and every node runs a built-in kernel, the words
/// read back are what the tree evaluates to.
pub fn compile(root: Context) -> (steps: Vec<Step>)
    requires
        root.root_wf(),
        size(root.lhs) + size(root.rhs) < usize::MAX,
    ensures
        run(steps@) matches Some((live, _)) && live == Set::<int>::empty(),
        dispatches(steps@) == nodes(root.lhs) + nodes(root.rhs) + 1,
        frees_upto(steps@, steps@.len() as int),
        uploads_once(steps@),
        step_shaders(steps@) == tree_shaders(root.lhs) + tree_shaders(root.rhs) + seq![root.shader],
        exists|k: int|
            #[trigger] reads_back_result(steps@, k, kind_of(root.lhs), len_of(root.lhs)) && flows(
                steps@,
                read_buffer(steps@, k + 1),
                Operand::Node(Box::new(root)),
            ) && (
            builtin_only(Operand::Node(Box::new(root))) && !is_float(kind_of(root.lhs))
                ==> read_words(steps@, k + 1) == eval(
                Operand::Node(Box::new(root)),
            )),
{
    let mut p = Planner {
        steps: Vec::new(),
        next: 0,
        cache: Vec::new(),
        live: Ghost(Set::empty()),
        pending: Ghost(Set::empty()),
    };
    proof {
        assert(p.live@ =~= Set::empty());
    }
    let ghost at_start = p;
    let (bl, tl) = p.emit(&root.lhs);
    let ghost after_lhs = p;
    let (br, tr) = p.emit(&root.rhs);
    let ghost after_rhs = p;
    let out = p.next;
    let kind = root.lhs.kind();
    let len = root.lhs.len();
    proof {
        if tl {
            assert(after_rhs.pending@.contains(bl as int));
        } else {
            let w = choose|w: int| 0 <= w < after_lhs.cache@.len() && after_lhs.cache@[w].1 == bl;
            assert(after_rhs.cache@[w] == after_lhs.cache@[w]);
            assert(cached(after_rhs.cache@, bl as int));
        }
        assert(after_rhs.live@.contains(bl as int));
    }
    p.push(
        Step::Dispatch {
            shader: root.shader.duplicate(),
            kind,
            len,
            depth: Depth::Result,
            lhs: bl,
            rhs: br,
            out,
        },
    );
    p.next = out + 1;
    proof {
        p.live@ = p.live@.insert(out as int);
    }
    let ghost k = p.steps@.len() - 1;
    proof {
        assert(frees_upto(after_rhs.steps@, k));
        assert(frees_upto(p.steps@, k));
        if !tl {
            let w = choose|w: int| 0 <= w < after_rhs.cache@.len() && after_rhs.cache@[w].1 == bl;
            assert(kept(after_rhs.steps@, after_rhs.cache@[w].1));
            assert(kept(p.steps@, bl));
        }
        if !tr {
            let w = choose|w: int| 0 <= w < after_rhs.cache@.len() && after_rhs.cache@[w].1 == br;
            assert(kept(after_rhs.steps@, after_rhs.cache@[w].1));
            assert(kept(p.steps@, br));
        }
    }
    let ghost at_dispatch = p.steps@;
    proof {
        lemma_flows_stable(after_lhs.steps@, after_rhs.steps@, bl as int, root.lhs);
        assert(producer(after_rhs.steps@, out as int) is None);
        lemma_flows_stable(after_rhs.steps@, at_dispatch, bl as int, root.lhs);
        lemma_flows_stable(after_rhs.steps@, at_dispatch, br as int, root.rhs);
        assert(flows(at_dispatch, out as int, Operand::Node(Box::new(root))));
    }
    p.push(Step::Readback { buffer: out, kind, len });
    proof {
        assert(frees_upto(at_dispatch, k));
        assert(frees_upto(p.steps@, k));
        if !tl {
            assert(kept(at_dispatch, bl));
        }
        if !tr {
            assert(kept(at_dispatch, br));
        }
        if cached(p.cache@, out as int) {
            let w = choose|w: int| 0 <= w < p.cache@.len() && p.cache@[w].1 == out;
        }
        if tl {
            assert(!at_start.live@.contains(bl as int));
            if cached(p.cache@, bl as int) {
                let w = choose|w: int| 0 <= w < p.cache@.len() && p.cache@[w].1 == bl;
                if w < after_lhs.cache@.len() {
                    assert(after_lhs.cache@[w] == p.cache@[w]);
                }
            }
        }
        if tr {
            assert(!after_lhs.live@.contains(br as int));
            assert(bl != br);
        }
    }
    let ghost at_readback = p.steps@;
    if tl {
        p.push(Step::Release { buffer: bl });
        proof {
            p.live@ = p.live@.remove(bl as int);
            assert(frees_upto(at_readback, k));
            assert(frees_upto(p.steps@, k));
            assert(released_at(p.steps@, k + 2, bl));
            if !tr {
                assert(kept(at_readback, br));
            }
        }
    }
    let ghost at_first = p.steps@;
    if tr {
        p.push(Step::Release { buffer: br });
        proof {
            p.live@ = p.live@.remove(br as int);
            assert(frees_upto(at_first, k));
            assert(frees_upto(p.steps@, k));
            assert(released_at(p.steps@, at_first.len() as int, br));
            if tl {
                assert(released_at(at_first, k + 2, bl));
            } else {
                assert(kept(at_first, bl));
            }
        }
    }
    let ghost at_second = p.steps@;
    p.push(Step::Release { buffer: out });
    proof {
        assert(frees_upto(at_second, k));
        assert(frees_upto(p.steps@, k));
        if tl {
            assert(released_at(at_second, k + 2, bl));
        } else {
            assert(kept(at_second, bl));
        }
        if tr {
            assert(released_at(at_second, at_first.len() as int, br));
        } else {
            assert(kept(at_second, br));
        }
        assert(p.steps@[k] == at_dispatch[k]);
        assert(frees_inputs(p.steps@, k));
        assert(producers_kept(at_dispatch, p.steps@));
        lemma_flows_stable(at_dispatch, p.steps@, out as int, Operand::Node(Box::new(root)));
        assert forall|j: int| 0 <= j < p.steps@.len() implies #[trigger] frees_inputs(p.steps@, j) by {
            if j < k {
                assert(frees_upto(p.steps@, k));
            }
        }
        p.live@ = p.live@.remove(out as int);
        assert forall|b: int| p.live@.contains(b) <==> cached(p.cache@, b) by {
            if p.live@.contains(b) {
                assert(b != out && b != bl || !tl);
                assert(after_rhs.live@.contains(b));
            }
            if cached(p.cache@, b) {
                assert(after_rhs.live@.contains(b));
            }
        }
        assert(reads_back_result(p.steps@, k, kind, len as nat));
    }
    let n = p.cache.len();
    let mut i: usize = 0;
    while i < n
        invariant
            n == p.cache@.len(),
            i <= n,
            run(p.steps@) == Some((p.live@, p.next as int)),
            forall|b: int|
                p.live@.contains(b) <==> exists|j: int|
                    i <= j < n && (#[trigger] p.cache@[j]).1 == b,
            forall|a: int, j: int|
                0 <= a < j < p.cache@.len() ==> (#[trigger] p.cache@[a]).1
                    != (#[trigger] p.cache@[j]).1,
            reads_back_result(p.steps@, k, kind, len as nat),
            frees_upto(p.steps@, p.steps@.len() as int),
            uploads_once(p.steps@),
            flows(p.steps@, out as int, Operand::Node(Box::new(root))),
            kind == kind_of(root.lhs),
            len == len_of(root.lhs),
            dispatches(p.steps@) == nodes(root.lhs) + nodes(root.rhs) + 1,
            builtin_only(Operand::Node(Box::new(root))) && !is_float(kind_of(root.lhs))
                ==> memory(p.steps@)[out as int] == eval(
                Operand::Node(Box::new(root)),
            ),
            p.steps@[k + 1] == (Step::Readback { buffer: out, kind, len }),
            step_shaders(p.steps@) == tree_shaders(root.lhs) + tree_shaders(root.rhs) + seq![
                root.shader,
            ],
        decreases n - i,
    {
        let b = p.cache[i].1;
        proof {
            assert(p.live@.contains(b as int));
        }
        let ghost before = p.steps@;
        p.push(Step::Release { buffer: b });
        proof {
            lemma_flows_stable(before, p.steps@, out as int, Operand::Node(Box::new(root)));
            assert(frees_upto(before, before.len() as int));
            assert(frees_upto(p.steps@, before.len() as int));
            assert forall|j: int| 0 <= j < p.steps@.len() implies #[trigger] frees_inputs(
                p.steps@,
                j,
            ) by {
                if j < before.len() {
                    assert(frees_upto(p.steps@, before.len() as int));
                }
            }
            assert(p.steps@.drop_last() =~= before);
            assert(p.steps@[k] == before[k]);
            assert(p.steps@[k + 1] == before[k + 1]);
        }
        let ghost live0 = p.live@;
        proof {
            p.live@ = p.live@.remove(b as int);
        }
        i = i + 1;
        proof {
            assert forall|x: int|
                p.live@.contains(x) <==> exists|j: int|
                    i <= j < n && (#[trigger] p.cache@[j]).1 == x by {
                if p.live@.contains(x) {
                    assert(live0.contains(x));
                    let w = choose|w: int| i - 1 <= w < n && (#[trigger] p.cache@[w]).1 == x;
                    assert(w != i - 1);
                    assert(i <= w < n && p.cache@[w].1 == x);
                }
                if exists|j: int| i <= j < n && (#[trigger] p.cache@[j]).1 == x {
                    let w = choose|w: int| i <= w < n && (#[trigger] p.cache@[w]).1 == x;
                    assert(p.cache@[i - 1].1 != p.cache@[w].1);
                    assert(live0.contains(x));
                }
            }
        }
    }
    proof {
        assert(p.live@ =~= Set::empty());
        assert(reads_back_result(p.steps@, k, kind, len as nat));
    }
    p.steps
}

/// Whether every word of `data` is a valid bit pattern of kind `k`.
fn words_valid(k: ElementKind, data: &Vec<u64>) -> (r: bool)
    ensures
        r == words_fit(k, data@),
{
    let m = modulus_of(k);
    let mut i: usize = 0;
    while i < data.len()
        invariant
            i <= data@.len(),
            m == modulus(k),
            forall|j: int| 0 <= j < i ==> (#[trigger] data@[j]) < modulus(k),
        decreases data@.len() - i,
    {
        if data[i] as u128 >= m {
            return false;
        }
        i = i + 1;
    }
    true
}

/// Whether `op` is well formed.
fn operand_is_wf(op: &Operand) -> (r: bool)
    ensures
        r == operand_wf(*op),
    decreases *op,
{
    match op {
        Operand::Leaf(c) => words_valid(c.kind, &c.data),
        Operand::Node(c) => {
            if !operand_is_wf(&c.lhs) || !operand_is_wf(&c.rhs) {
                return false;
            }
            if c.lhs.kind() != c.rhs.kind() || c.lhs.len() != c.rhs.len() {
                return false;
            }
            let hl = c.lhs.height();
            let hr = c.rhs.height();
            let h = if hl >= hr { hl } else { hr };
            if h == u32::MAX {
                return false;
            }
            let expected = match (&c.lhs, &c.rhs) {
                (Operand::Leaf(_), Operand::Leaf(_)) => Depth::Entry,
                _ => Depth::Bridge(h + 1),
            };
            assert(expected == depth_for(c.lhs, c.rhs));
            c.depth == expected
        },
    }
}

/// `size(op)`, or `usize::MAX` where it is not below that.
fn size_capped(op: &Operand) -> (r: usize)
    ensures
        r == if size(*op) < usize::MAX { size(*op) } else { usize::MAX as nat },
    decreases *op,
{
    match op {
        Operand::Leaf(_) => 1,
        Operand::Node(c) => {
            let a = size_capped(&c.lhs);
            let b = size_capped(&c.rhs);
            if a == usize::MAX || b == usize::MAX || a >= usize::MAX - 1 - b {
                usize::MAX
            } else {
                1 + a + b
            }
        },
    }
}

/// Whether `compile` accepts `root`: both sides are well formed and agree in
/// kind and length, and the tree's size leaves room for its buffer numbers.
pub fn is_well_formed(root: &Context) -> (r: bool)
    ensures
        r == (root.root_wf() && size(root.lhs) + size(root.rhs) < usize::MAX),
{
    if !operand_is_wf(&root.lhs) || !operand_is_wf(&root.rhs) {
        return false;
    }
    if root.lhs.kind() != root.rhs.kind() || root.lhs.len() != root.rhs.len() {
        return false;
    }
    let a = size_capped(&root.lhs);
    let b = size_capped(&root.rhs);
    a < usize::MAX && b < usize::MAX && a < usize::MAX - b
}

} // verus!
