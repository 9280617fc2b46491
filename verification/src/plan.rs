//! The decode plan: what a kernel returns instead of an array.
//!
//! Most compressed encodings are not computing new values at all: run-end repeats a child, dict
//! gathers one, sparse overlays exceptions on a constant. So a kernel returns a plan, a small tree
//! of operations over the node's children, and the host evaluates it.
//!
//! The plan is a flat, postorder array of fixed-size nodes, not a nested tree:
//!
//! ```text
//! [u32 n_nodes][u32 root][u32 aux_len][u32 reserved]
//! [node x n_nodes]          node = [u8 op][u8 flags][u16 pad][u32 a][u32 b][u32 c]
//! [aux bytes]
//! ```
//!
//! A node may only reference nodes at a lower index, which makes the plan acyclic and lets the
//! host evaluate it in a single forward pass.

use vstd::prelude::*;

use crate::abi::dtype_kind;
use crate::abi::plan_frame;
use crate::abi::plan_op;
use crate::abi::shape;
use crate::abi::PType;
use crate::data::Validity;
use crate::decoded::Decoded;
use crate::decoded::DecodedPrimitive;
use crate::dtype::literal_tag;
use crate::dtype::DTypeExpr;
use crate::error::GuestError;
use crate::error::GuestResult;
use crate::frame::encode_buffers;
use crate::frame::encode_validity;
use crate::frame::lemma_buffer_entry;
use crate::frame::lemma_encode_buffers_keeps;
use crate::frame::lemma_encode_validity_keeps;
use crate::frame::lemma_load_kept;
use crate::frame::Frame;
use crate::frame::ValidityModel;
use crate::host::alloc_bytes;
use crate::host::alloc_bytes_spec;
use crate::host::lemma_alloc_bytes;
use crate::le::group_le_len;
use crate::le::lemma_split;
use crate::le::lemma_u32_round_trip;
use crate::le::lemma_u64_round_trip;
use crate::le::push_bytes;
use crate::le::push_u32;
use crate::le::push_u64;
use crate::le::stands_at;
use crate::le::u32_at;
use crate::le::u32_le;
use crate::le::u64_at;
use crate::le::u64_le;
use crate::runtime::LinearMemory;
use crate::runtime::Memory;
use crate::varint::varint_bytes;
use crate::varint::write_varint;

verus! {

broadcast use group_le_len;

/// Size of one encoded plan node.
pub const NODE_SIZE: usize = 16;

/// A node in a [`PlanBuilder`], and the only way to reference one.
#[derive(Debug, Clone, Copy, PartialEq, Eq, Structural)]
pub struct NodeId(u32);

impl NodeId {
    /// The position of the node in its plan.
    pub closed spec fn index(self) -> u32 {
        self.0
    }
}

/// One operation of a plan: its opcode and its two operands.
#[verifier::ext_equal]
pub struct PlanNode {
    /// The opcode.
    pub op: u8,
    /// The first operand.
    pub a: u32,
    /// The second operand.
    pub b: u32,
}

impl PlanNode {
    /// The encoded node.
    pub open spec fn encode(self) -> Seq<u8> {
        seq![self.op, 0u8, 0u8, 0u8] + u32_le(self.a) + u32_le(self.b) + u32_le(0)
    }

    /// Whether the node, at position `i`, refers to lower positions only.
    pub open spec fn looks_back(self, i: int, aux: Seq<u8>) -> bool {
        if self.op == plan_op::TAKE || self.op == plan_op::SET_VALIDITY {
            self.a < i && self.b < i
        } else if self.op == plan_op::SLICE {
            self.a < i
        } else if self.op == plan_op::CONCAT {
            let n = u32_at(aux, self.a as int);
            &&& self.a + 4 + 4 * n <= aux.len()
            &&& forall|j: int| 0 <= j < n ==> #[trigger] concat_part(aux, self.a as int, j) < i
        } else {
            true
        }
    }
}

/// Part `j` of the node list at `offset` of the aux blob.
pub open spec fn concat_part(aux: Seq<u8>, offset: int, j: int) -> u32 {
    u32_at(aux, offset + 4 + 4 * j)
}

/// The encoded nodes, one after the other.
pub open spec fn encode_nodes(nodes: Seq<PlanNode>) -> Seq<u8>
    decreases nodes.len(),
{
    if nodes.len() == 0 {
        Seq::empty()
    } else {
        encode_nodes(nodes.drop_last()) + nodes.last().encode()
    }
}

/// A plan: its nodes in postorder and the blob their larger payloads are in.
#[verifier::ext_equal]
pub struct PlanModel {
    /// The nodes.
    pub nodes: Seq<PlanNode>,
    /// The payloads.
    pub aux: Seq<u8>,
}

impl PlanModel {
    /// The plan with `payload` appended to its blob and then a node to its nodes.
    pub open spec fn with(self, payload: Seq<u8>, node: PlanNode) -> PlanModel {
        PlanModel { nodes: self.nodes.push(node), aux: self.aux + payload }
    }

    /// Whether every node refers to lower positions only, so that the plan has no cycle and can
    /// be evaluated in one forward pass.
    pub open spec fn acyclic(self) -> bool {
        forall|i: int| 0 <= i < self.nodes.len() ==> (#[trigger] self.nodes[i]).looks_back(i, self.aux)
    }

    /// The encoded plan.
    pub open spec fn encode(self, root: u32) -> Seq<u8> {
        u32_le(self.nodes.len() as u32) + u32_le(root) + u32_le(self.aux.len() as u32) + u32_le(0)
            + encode_nodes(self.nodes) + self.aux
    }
}

/// What stands in a blob stands there still when more is appended.
proof fn lemma_u32_prefix(aux: Seq<u8>, more: Seq<u8>, at: int)
    requires
        0 <= at,
        at + 4 <= aux.len(),
    ensures
        u32_at(aux + more, at) == u32_at(aux, at),
{
    reveal(u32_at);
}

/// Appending to the blob does not change what the nodes refer to.
proof fn lemma_looks_back_prefix(node: PlanNode, i: int, aux: Seq<u8>, more: Seq<u8>)
    requires
        node.looks_back(i, aux),
    ensures
        node.looks_back(i, aux + more),
{
    if node.op == plan_op::CONCAT {
        let n = u32_at(aux, node.a as int);
        lemma_u32_prefix(aux, more, node.a as int);
        assert forall|j: int| 0 <= j < n implies #[trigger] concat_part(
            aux + more,
            node.a as int,
            j,
        ) < i by {
            lemma_u32_prefix(aux, more, node.a + 4 + 4 * j);
            assert(concat_part(aux, node.a as int, j) < i);
        }
    }
}

/// A plan stays acyclic when a node that looks back is appended.
pub proof fn law_acyclic(plan: PlanModel, payload: Seq<u8>, node: PlanNode)
    requires
        plan.acyclic(),
        node.looks_back(plan.nodes.len() as int, plan.aux + payload),
    ensures
        plan.with(payload, node).acyclic(),
{
    let longer = plan.with(payload, node);
    assert forall|i: int| 0 <= i < longer.nodes.len() implies (
    #[trigger] longer.nodes[i]).looks_back(i, longer.aux) by {
        if i < plan.nodes.len() {
            assert(longer.nodes[i] == plan.nodes[i]);
            lemma_looks_back_prefix(plan.nodes[i], i, plan.aux, payload);
        }
    }
}

/// The ids of `parts` as a node list: their number, then each one.
pub open spec fn concat_list(parts: Seq<NodeId>) -> Seq<u8> {
    u32_le(parts.len() as u32) + concat_ids(parts)
}

/// The ids of `parts`, one after the other.
pub open spec fn concat_ids(parts: Seq<NodeId>) -> Seq<u8>
    decreases parts.len(),
{
    if parts.len() == 0 {
        Seq::empty()
    } else {
        concat_ids(parts.drop_last()) + u32_le(parts.last().index())
    }
}

proof fn lemma_concat_ids(parts: Seq<NodeId>, bytes: Seq<u8>, start: int, j: int)
    requires
        0 <= j < parts.len(),
        stands_at(bytes, start, concat_ids(parts)),
    ensures
        concat_ids(parts).len() == 4 * parts.len(),
        u32_at(bytes, start + 4 * j) == parts[j].index(),
    decreases parts.len(),
{
    let front = parts.drop_last();
    lemma_split(bytes, start, concat_ids(front), u32_le(parts.last().index()));
    if front.len() > 0 {
        lemma_concat_ids(front, bytes, start, if j < front.len() { j } else { 0 });
    }
    if j == front.len() {
        lemma_u32_round_trip(bytes, start + 4 * j, parts.last().index());
    } else {
        assert(front[j] == parts[j]);
    }
}

/// A node list of earlier nodes looks back.
proof fn lemma_concat_looks_back(plan: PlanModel, parts: Seq<NodeId>)
    requires
        parts.len() <= u32::MAX,
        plan.aux.len() <= u32::MAX,
        forall|j: int| 0 <= j < parts.len() ==> (#[trigger] parts[j]).index() < plan.nodes.len(),
    ensures
        (PlanNode { op: plan_op::CONCAT, a: plan.aux.len() as u32, b: 0 }).looks_back(
            plan.nodes.len() as int,
            plan.aux + concat_list(parts),
        ),
{
    let aux = plan.aux + concat_list(parts);
    let at = plan.aux.len() as int;
    assert(aux.subrange(at, aux.len() as int) =~= concat_list(parts));
    lemma_split(aux, at, u32_le(parts.len() as u32), concat_ids(parts));
    lemma_u32_round_trip(aux, at, parts.len() as u32);
    if parts.len() > 0 {
        lemma_concat_ids(parts, aux, at + 4, 0);
    }
    assert forall|j: int| 0 <= j < parts.len() implies #[trigger] concat_part(aux, at, j)
        < plan.nodes.len() by {
        lemma_concat_ids(parts, aux, at + 4, j);
        assert(parts[j].index() < plan.nodes.len());
    }
}

/// The descriptor of a materialized array and the memory its bitmap and buffers are in; `None`
/// for a trap.
pub open spec fn array_descriptor_spec(frame: Frame, memory: Memory) -> Option<
    (Seq<u8>, Memory),
> {
    match encode_validity(frame.validity, memory) {
        None => None,
        Some((ptr, with_validity)) => match encode_buffers(frame.buffers, with_validity) {
            None => None,
            Some((table, after)) => Some(
                (
                    seq![
                        frame.shape,
                        frame.param,
                        frame.validity.tag(),
                        frame.buffers.len() as u8,
                    ] + u32_le(frame.len as u32) + u32_le(ptr) + table,
                    after,
                ),
            ),
        },
    }
}

/// The index a patched row takes in the concatenation of the base and the patch values.
pub open spec fn patch_index(row: int, position: Option<u32>, base_len: int) -> int {
    match position {
        None => row,
        Some(j) => base_len + j,
    }
}

/// The little-endian indices of the patched rows, or the first error among them.
pub open spec fn patch_indices(positions: Seq<Option<u32>>, base_len: int) -> Result<
    Seq<u8>,
    GuestError,
>
    decreases positions.len(),
{
    if positions.len() == 0 {
        Ok(Seq::empty())
    } else {
        match patch_indices(positions.drop_last(), base_len) {
            Err(e) => Err(e),
            Ok(before) => {
                let index = patch_index(positions.len() - 1, positions.last(), base_len);
                if index > u32::MAX {
                    Err(
                        GuestError::of(
                            match positions.last() {
                                None => "row index overflow",
                                Some(_) => "patch index overflow",
                            },
                        ),
                    )
                } else {
                    Ok(before + u32_le(index as u32))
                }
            },
        }
    }
}

/// An error among the first rows is the error of all of them.
proof fn lemma_patch_indices_prefix(positions: Seq<Option<u32>>, base_len: int, k: int)
    requires
        0 <= k <= positions.len(),
    ensures
        patch_indices(positions.take(k), base_len) matches Err(e) ==> patch_indices(
            positions,
            base_len,
        ) == Err::<Seq<u8>, _>(e),
    decreases positions.len() - k,
{
    if k < positions.len() {
        assert(positions.take(k + 1).drop_last() =~= positions.take(k));
        lemma_patch_indices_prefix(positions, base_len, k + 1);
    } else {
        assert(positions.take(k) =~= positions);
    }
}

/// The frame of a non-nullable `u32` array of `n` elements.
pub open spec fn index_frame(n: nat, values: Seq<u8>) -> Frame {
    Frame {
        shape: shape::PRIMITIVE,
        param: PType::U32.tag(),
        validity: ValidityModel::NonNullable,
        len: n,
        buffers: seq![values],
        children: seq![],
    }
}

/// The plan with `base` patched by `values` appended: their concatenation, the indices, and the
/// gather.
pub open spec fn patched_plan(
    plan: PlanModel,
    base: NodeId,
    values: NodeId,
    descriptor: Seq<u8>,
) -> PlanModel {
    let n = plan.nodes.len();
    let combined = plan.with(
        concat_list(seq![base, values]),
        PlanNode { op: plan_op::CONCAT, a: plan.aux.len() as u32, b: 0 },
    );
    let dtype = seq![literal_tag(dtype_kind::PRIMITIVE, false), PType::U32.tag()];
    combined.with(
        dtype + descriptor,
        PlanNode { op: plan_op::MATERIALIZED, a: combined.aux.len() as u32, b: 0 },
    ).with(Seq::empty(), PlanNode { op: plan_op::TAKE, a: n as u32, b: (n + 1) as u32 })
}

/// The index of a patched row selects, out of the base followed by the patch values, the base
/// value of a row that is kept and the patch value of a row that is replaced.
pub proof fn law_patch_selects<T>(base: Seq<T>, values: Seq<T>, row: int, position: Option<u32>)
    requires
        0 <= row < base.len(),
        position matches Some(j) ==> j < values.len(),
    ensures
        (base + values)[patch_index(row, position, base.len() as int)] == (match position {
            None => base[row],
            Some(j) => values[j as int],
        }),
{
}

impl PlanModel {
    /// Whether this is another plan with one more node, and the blob with more appended.
    pub open spec fn extends(self, before: PlanModel) -> bool {
        &&& self.nodes.len() == before.nodes.len() + 1
        &&& before.aux.len() <= self.aux.len()
        &&& forall|i: int|
            0 <= i < before.nodes.len() ==> #[trigger] self.nodes[i] == before.nodes[i]
        &&& forall|i: int| 0 <= i < before.aux.len() ==> #[trigger] self.aux[i] == before.aux[i]
    }

    /// Whether a host finds at node `n` the child in `slot`.
    pub open spec fn reads_child(self, n: int, slot: u16) -> bool {
        self.nodes[n].op == plan_op::CHILD && self.nodes[n].a == slot
    }

    /// Whether a host finds at node `n` the rows of node `base` at the indices in node `indices`.
    pub open spec fn reads_take(self, n: int, base: u32, indices: u32) -> bool {
        &&& self.nodes[n].op == plan_op::TAKE
        &&& self.nodes[n].a == base
        &&& self.nodes[n].b == indices
    }

    /// Whether a host finds at node `n` the rows `start..stop` of node `base`.
    pub open spec fn reads_slice(self, n: int, base: u32, start: u64, stop: u64) -> bool {
        &&& self.nodes[n].op == plan_op::SLICE
        &&& self.nodes[n].a == base
        &&& self.nodes[n].b + 16 <= self.aux.len()
        &&& u64_at(self.aux, self.nodes[n].b as int) == start
        &&& u64_at(self.aux, self.nodes[n].b + 8) == stop
    }

    /// Whether a host finds at node `n` the listed nodes, in this order.
    pub open spec fn reads_concat(self, n: int, parts: Seq<u32>) -> bool {
        &&& self.nodes[n].op == plan_op::CONCAT
        &&& self.nodes[n].a + 4 + 4 * parts.len() <= self.aux.len()
        &&& u32_at(self.aux, self.nodes[n].a as int) == parts.len()
        &&& forall|j: int|
            0 <= j < parts.len() ==> u32_at(self.aux, self.nodes[n].a + 4 + 4 * j)
                == #[trigger] parts[j]
    }

    /// Whether a host finds at node `n` so many copies of an encoded scalar.
    pub open spec fn reads_constant(self, n: int, scalar: Seq<u8>, len: u64) -> bool {
        &&& self.nodes[n].op == plan_op::CONSTANT
        &&& stands_at(self.aux, self.nodes[n].a as int, scalar)
        &&& self.nodes[n].b == self.nodes[n].a + scalar.len()
        &&& self.nodes[n].b + 8 <= self.aux.len()
        &&& u64_at(self.aux, self.nodes[n].b as int) == len
    }

    /// Whether a host finds at node `n` the rows of node `base`, with the validity in node `mask`.
    pub open spec fn reads_set_validity(self, n: int, base: u32, mask: u32) -> bool {
        &&& self.nodes[n].op == plan_op::SET_VALIDITY
        &&& self.nodes[n].a == base
        &&& self.nodes[n].b == mask
    }

    /// How many values the array has that is described at `offset` of the blob, after a type of two
    /// bytes.
    pub open spec fn stored_len(self, offset: int) -> int {
        u32_at(self.aux, offset + 2 + 4) as int
    }

    /// Value `k` of the `u32` array that is described at `offset` of the blob.
    pub open spec fn stored_u32(self, memory: Memory, offset: int, k: int) -> int {
        u32_at(memory.bytes, u32_at(self.aux, offset + 2 + 12) + 4 * k) as int
    }

    /// Whether a host finds at node `n` a non-nullable array of the `u32` values.
    pub open spec fn reads_indices(self, memory: Memory, n: int, values: Seq<int>) -> bool {
        let at = self.nodes[n].a as int;
        &&& self.nodes[n].op == plan_op::MATERIALIZED
        &&& at + 2 + 20 <= self.aux.len()
        &&& self.aux[at] == dtype_kind::PRIMITIVE
        &&& self.aux[at + 1] == PType::U32.tag()
        &&& self.aux[at + 2] == shape::PRIMITIVE
        &&& self.aux[at + 3] == PType::U32.tag()
        &&& self.stored_len(at) == values.len()
        &&& memory.holds(u32_at(self.aux, at + 2 + 12) as int, 4 * values.len() as int)
        &&& forall|k: int|
            0 <= k < values.len() ==> self.stored_u32(memory, at, k) == #[trigger] values[k]
    }

    /// Whether a host finds, from node `n` on, the base followed by the patch values, the index of
    /// every row in them, and the rows at those indices.
    pub open spec fn reads_patch(
        self,
        memory: Memory,
        n: int,
        base: u32,
        base_len: int,
        values: u32,
        positions: Seq<Option<u32>>,
    ) -> bool {
        &&& self.nodes.len() == n + 3
        &&& self.reads_concat(n, seq![base, values])
        &&& self.reads_indices(
            memory,
            n + 1,
            Seq::new(
                positions.len(),
                |k: int|
                    match positions[k] {
                        None => k,
                        Some(j) => base_len + j,
                    },
            ),
        )
        &&& self.reads_take(n + 2, n as u32, (n + 1) as u32)
    }
}

/// What a host makes of the leaves of a plan, and of the values in it.
#[verifier::reject_recursive_types(T)]
pub struct Host<T> {
    /// The rows of the child in a slot.
    pub child: spec_fn(u32) -> Seq<T>,
    /// The rows of the array described at an offset of the blob.
    pub array: spec_fn(u32) -> Seq<T>,
    /// The value of an encoded scalar.
    pub scalar: spec_fn(Seq<u8>) -> T,
    /// A value with the validity that a mask value gives it.
    pub masked: spec_fn(T, T) -> T,
    /// A value as an index.
    pub index: spec_fn(T) -> int,
}

impl<T> Host<T> {
    /// The rows of node `n` of a plan, in one forward pass.
    pub open spec fn rows(self, plan: PlanModel, n: int) -> Seq<T>
        decreases n, 1nat, 0int,
    {
        let node = plan.nodes[n];
        if n < 0 {
            Seq::empty()
        } else if node.op == plan_op::MATERIALIZED {
            (self.array)(node.a)
        } else if node.op == plan_op::CHILD {
            (self.child)(node.a)
        } else if node.op == plan_op::TAKE {
            if node.a < n && node.b < n {
                let from = self.rows(plan, node.a as int);
                let at = self.rows(plan, node.b as int);
                Seq::new(at.len(), |k: int| from[(self.index)(at[k])])
            } else {
                Seq::empty()
            }
        } else if node.op == plan_op::SLICE {
            if node.a < n {
                self.rows(plan, node.a as int).subrange(
                    u64_at(plan.aux, node.b as int) as int,
                    u64_at(plan.aux, node.b + 8) as int,
                )
            } else {
                Seq::empty()
            }
        } else if node.op == plan_op::CONCAT {
            self.listed(plan, n, u32_at(plan.aux, node.a as int) as int)
        } else if node.op == plan_op::CONSTANT {
            Seq::new(
                u64_at(plan.aux, node.b as int) as nat,
                |k: int| (self.scalar)(plan.aux.subrange(node.a as int, node.b as int)),
            )
        } else {
            if node.a < n && node.b < n {
                let from = self.rows(plan, node.a as int);
                let mask = self.rows(plan, node.b as int);
                Seq::new(from.len(), |k: int| (self.masked)(from[k], mask[k]))
            } else {
                Seq::empty()
            }
        }
    }

    /// The rows of the first `j` nodes that node `n` lists, one node after the other.
    pub open spec fn listed(self, plan: PlanModel, n: int, j: int) -> Seq<T>
        decreases n, 0nat, j,
    {
        if n < 0 || j <= 0 {
            Seq::empty()
        } else {
            let part = u32_at(plan.aux, plan.nodes[n].a + 4 + 4 * (j - 1)) as int;
            self.listed(plan, n, j - 1) + if part < n {
                self.rows(plan, part)
            } else {
                Seq::empty()
            }
        }
    }
}

/// A concatenation has the rows of its parts, one part after the other.
pub proof fn law_concat_rows<T>(host: Host<T>, plan: PlanModel, n: int, parts: Seq<u32>)
    requires
        0 <= n,
        plan.reads_concat(n, parts),
        forall|j: int| 0 <= j < parts.len() ==> #[trigger] parts[j] < n,
    ensures
        host.rows(plan, n) == Seq::new(
            parts.len(),
            |j: int| host.rows(plan, parts[j] as int),
        ).flatten_alt(),
{
    lemma_listed_rows(host, plan, n, parts, parts.len() as int);
    assert(parts.take(parts.len() as int) =~= parts);
}

proof fn lemma_listed_rows<T>(host: Host<T>, plan: PlanModel, n: int, parts: Seq<u32>, j: int)
    requires
        0 <= n,
        plan.reads_concat(n, parts),
        forall|i: int| 0 <= i < parts.len() ==> #[trigger] parts[i] < n,
        0 <= j <= parts.len(),
    ensures
        host.listed(plan, n, j) == Seq::new(
            j as nat,
            |i: int| host.rows(plan, parts[i] as int),
        ).flatten_alt(),
    decreases j,
{
    let rows = Seq::new(j as nat, |i: int| host.rows(plan, parts[i] as int));
    if j > 0 {
        lemma_listed_rows(host, plan, n, parts, j - 1);
        assert(parts[j - 1] < n);
        assert(rows.drop_last() =~= Seq::new(
            (j - 1) as nat,
            |i: int| host.rows(plan, parts[i] as int),
        ));
        assert(rows.last() == host.rows(plan, parts[j - 1] as int));
    }
}

/// The other operations: a gather has one row per index, a slice the rows of its range, a constant
/// its copies, and a mask gives each row its validity.
pub proof fn law_operation_rows<T>(
    host: Host<T>,
    plan: PlanModel,
    n: int,
    base: u32,
    other: u32,
    start: u64,
    stop: u64,
    scalar: Seq<u8>,
    slot: u16,
)
    requires
        0 <= n,
        base < n,
        other < n,
    ensures
        ({
            let rows = host.rows(plan, n);
            let from = host.rows(plan, base as int);
            let with = host.rows(plan, other as int);
            &&& plan.reads_child(n, slot) ==> rows == (host.child)(slot as u32)
            &&& plan.reads_take(n, base, other) ==> rows.len() == with.len() && (forall|k: int|
                0 <= k < with.len() ==> #[trigger] rows[k] == from[(host.index)(with[k])])
            &&& plan.reads_slice(n, base, start, stop) && start <= stop <= from.len() ==> {
                &&& rows.len() == stop - start
                &&& forall|k: int|
                    0 <= k < stop - start ==> #[trigger] rows[k] == from[start + k]
            }
            &&& plan.reads_constant(n, scalar, stop) ==> rows.len() == stop && (forall|k: int|
                0 <= k < stop ==> #[trigger] rows[k] == (host.scalar)(scalar))
            &&& plan.reads_set_validity(n, base, other) ==> rows.len() == from.len() && (forall|
                k: int,
            |
                0 <= k < from.len() ==> #[trigger] rows[k] == (host.masked)(from[k], with[k]))
        }),
{
}

/// A patched array has the rows of its base, but where a row is replaced, the patch value that
/// replaces it.
pub proof fn law_patch_rows<T>(
    host: Host<T>,
    plan: PlanModel,
    memory: Memory,
    n: int,
    base: u32,
    base_len: int,
    values: u32,
    positions: Seq<Option<u32>>,
    row: int,
)
    requires
        0 <= n <= u32::MAX - 3,
        base < n,
        values < n,
        plan.reads_patch(memory, n, base, base_len, values, positions),
        host.rows(plan, base as int).len() == base_len,
        (host.array)(plan.nodes[n + 1].a).len() == plan.stored_len(plan.nodes[n + 1].a as int),
        forall|k: int|
            0 <= k < positions.len() ==> (host.index)(
                #[trigger] (host.array)(plan.nodes[n + 1].a)[k],
            ) == plan.stored_u32(memory, plan.nodes[n + 1].a as int, k),
        0 <= row < positions.len(),
        match positions[row] {
            None => row < base_len,
            Some(j) => j < host.rows(plan, values as int).len(),
        },
    ensures
        host.rows(plan, n + 2).len() == positions.len(),
        host.rows(plan, n + 2)[row] == (match positions[row] {
            None => host.rows(plan, base as int)[row],
            Some(j) => host.rows(plan, values as int)[j as int],
        }),
{
    let parts = seq![base, values];
    let from = host.rows(plan, base as int);
    let with = host.rows(plan, values as int);
    assert forall|j: int| 0 <= j < parts.len() implies #[trigger] parts[j] < n by {}
    law_concat_rows(host, plan, n, parts);
    let both = Seq::new(2, |j: int| host.rows(plan, parts[j] as int));
    assert(both.flatten_alt() =~= from + with) by {
        reveal_with_fuel(Seq::<_>::flatten_alt, 3);
        assert(both.drop_last().drop_last() =~= Seq::empty());
        assert(both.drop_last().last() == from);
        assert(both.last() == with);
    }
    assert(host.rows(plan, n) == from + with);
    let indices = Seq::new(
        positions.len(),
        |k: int|
            match positions[k] {
                None => k,
                Some(j) => base_len + j,
            },
    );
    assert(plan.reads_indices(memory, n + 1, indices));
    assert(plan.stored_u32(memory, plan.nodes[n + 1].a as int, row) == indices[row]);
    assert(host.rows(plan, n + 1) == (host.array)(plan.nodes[n + 1].a));
    assert((host.index)((host.array)(plan.nodes[n + 1].a)[row]) == indices[row]);
}

impl PlanModel {
    /// Whether what the nodes refer to in the blob is inside it.
    pub open spec fn readable(self) -> bool {
        forall|i: int|
            0 <= i < self.nodes.len() ==> {
                let node = #[trigger] self.nodes[i];
                &&& node.op == plan_op::SLICE ==> node.b + 16 <= self.aux.len()
                &&& node.op == plan_op::CONSTANT ==> node.a <= node.b && node.b + 8
                    <= self.aux.len()
                &&& node.op == plan_op::CONCAT ==> node.a + 4 + 4 * u32_at(
                    self.aux,
                    node.a as int,
                ) <= self.aux.len()
            }
    }
}

/// What a node evaluates to stays, whatever is appended to its plan.
pub proof fn law_rows_stay<T>(host: Host<T>, plan: PlanModel, longer: PlanModel, n: int)
    requires
        0 <= n < plan.nodes.len() <= longer.nodes.len(),
        plan.readable(),
        plan.aux.len() <= longer.aux.len(),
        forall|i: int| 0 <= i < plan.nodes.len() ==> #[trigger] longer.nodes[i] == plan.nodes[i],
        forall|i: int| 0 <= i < plan.aux.len() ==> #[trigger] longer.aux[i] == plan.aux[i],
    ensures
        host.rows(longer, n) == host.rows(plan, n),
    decreases n, 1nat, 0int,
{
    let node = plan.nodes[n];
    assert(longer.nodes[n] == node);
    if node.op == plan_op::TAKE || node.op == plan_op::SLICE || (node.op != plan_op::MATERIALIZED
        && node.op != plan_op::CHILD && node.op != plan_op::CONCAT && node.op
        != plan_op::CONSTANT) {
        if node.a < n {
            law_rows_stay(host, plan, longer, node.a as int);
        }
        if node.b < n {
            law_rows_stay(host, plan, longer, node.b as int);
        }
    }
    if node.op == plan_op::SLICE {
        lemma_u64_kept(plan.aux, longer.aux, node.b as int);
        lemma_u64_kept(plan.aux, longer.aux, node.b + 8);
    } else if node.op == plan_op::CONSTANT {
        lemma_u64_kept(plan.aux, longer.aux, node.b as int);
        assert(longer.aux.subrange(node.a as int, node.b as int) =~= plan.aux.subrange(
            node.a as int,
            node.b as int,
        ));
    } else if node.op == plan_op::CONCAT {
        let count = u32_at(plan.aux, node.a as int) as int;
        lemma_u32_kept(plan.aux, longer.aux, node.a as int);
        lemma_listed_stay(host, plan, longer, n, count);
    }
    assert(host.rows(longer, n) =~= host.rows(plan, n));
}

proof fn lemma_listed_stay<T>(host: Host<T>, plan: PlanModel, longer: PlanModel, n: int, j: int)
    requires
        0 <= n < plan.nodes.len() <= longer.nodes.len(),
        plan.readable(),
        plan.aux.len() <= longer.aux.len(),
        forall|i: int| 0 <= i < plan.nodes.len() ==> #[trigger] longer.nodes[i] == plan.nodes[i],
        forall|i: int| 0 <= i < plan.aux.len() ==> #[trigger] longer.aux[i] == plan.aux[i],
        plan.nodes[n].op == plan_op::CONCAT,
        0 <= j <= u32_at(plan.aux, plan.nodes[n].a as int),
    ensures
        host.listed(longer, n, j) == host.listed(plan, n, j),
    decreases n, 0nat, j,
{
    if j > 0 {
        let at = plan.nodes[n].a + 4 + 4 * (j - 1);
        assert(longer.nodes[n] == plan.nodes[n]);
        lemma_listed_stay(host, plan, longer, n, j - 1);
        lemma_u32_kept(plan.aux, longer.aux, at);
        let part = u32_at(plan.aux, at) as int;
        if part < n {
            law_rows_stay(host, plan, longer, part);
        }
    }
}

/// A number of a blob is read alike in a longer one.
proof fn lemma_u32_kept(aux: Seq<u8>, longer: Seq<u8>, at: int)
    requires
        0 <= at,
        at + 4 <= aux.len() <= longer.len(),
        forall|i: int| 0 <= i < aux.len() ==> #[trigger] longer[i] == aux[i],
    ensures
        u32_at(longer, at) == u32_at(aux, at),
{
    reveal(u32_at);
}

proof fn lemma_u64_kept(aux: Seq<u8>, longer: Seq<u8>, at: int)
    requires
        0 <= at,
        at + 8 <= aux.len() <= longer.len(),
        forall|i: int| 0 <= i < aux.len() ==> #[trigger] longer[i] == aux[i],
    ensures
        u64_at(longer, at) == u64_at(aux, at),
{
    reveal(u64_at);
    lemma_u32_kept(aux, longer, at);
    lemma_u32_kept(aux, longer, at + 4);
}

/// The positions of nodes in their plan.
pub open spec fn node_indices(nodes: Seq<NodeId>) -> Seq<u32> {
    Seq::new(nodes.len(), |j: int| nodes[j].index())
}

/// Appending a node leaves the nodes and the blob before it as they are.
proof fn lemma_extends(plan: PlanModel, payload: Seq<u8>, node: PlanNode)
    ensures
        plan.with(payload, node).extends(plan),
{
}

/// A slice is read as it was appended.
proof fn lemma_reads_slice(plan: PlanModel, base: u32, start: u64, stop: u64)
    requires
        plan.aux.len() <= u32::MAX,
    ensures
        plan.with(
            u64_le(start) + u64_le(stop),
            PlanNode { op: plan_op::SLICE, a: base, b: plan.aux.len() as u32 },
        ).reads_slice(plan.nodes.len() as int, base, start, stop),
{
    let at = plan.aux.len() as int;
    let aux = plan.aux + (u64_le(start) + u64_le(stop));
    assert(aux.subrange(at, at + 8) =~= u64_le(start));
    assert(aux.subrange(at + 8, at + 16) =~= u64_le(stop));
    lemma_u64_round_trip(aux, at, start);
    lemma_u64_round_trip(aux, at + 8, stop);
}

/// A node list is read as it was appended.
proof fn lemma_reads_concat(plan: PlanModel, parts: Seq<NodeId>)
    requires
        plan.aux.len() <= u32::MAX,
        parts.len() <= u32::MAX,
    ensures
        concat_list(parts).len() == 4 + 4 * parts.len(),
        plan.with(
            concat_list(parts),
            PlanNode { op: plan_op::CONCAT, a: plan.aux.len() as u32, b: 0 },
        ).reads_concat(plan.nodes.len() as int, node_indices(parts)),
{
    let at = plan.aux.len() as int;
    let aux = plan.aux + concat_list(parts);
    assert(aux.subrange(at, aux.len() as int) =~= concat_list(parts));
    lemma_split(aux, at, u32_le(parts.len() as u32), concat_ids(parts));
    lemma_u32_round_trip(aux, at, parts.len() as u32);
    if parts.len() > 0 {
        lemma_concat_ids(parts, aux, at + 4, 0);
    }
    let read = node_indices(parts);
    assert forall|j: int| 0 <= j < read.len() implies u32_at(aux, at + 4 + 4 * j)
        == #[trigger] read[j] by {
        lemma_concat_ids(parts, aux, at + 4, j);
    }
}

/// A constant is read as it was appended.
proof fn lemma_reads_constant(plan: PlanModel, scalar: Seq<u8>, len: u64)
    requires
        plan.aux.len() + scalar.len() <= u32::MAX,
    ensures
        plan.with(
            scalar + u64_le(len),
            PlanNode {
                op: plan_op::CONSTANT,
                a: plan.aux.len() as u32,
                b: (plan.aux.len() + scalar.len()) as u32,
            },
        ).reads_constant(plan.nodes.len() as int, scalar, len),
{
    let at = plan.aux.len() as int;
    let aux = plan.aux + (scalar + u64_le(len));
    let end = at + scalar.len();
    assert(aux.subrange(at, end) =~= scalar);
    assert(aux.subrange(end, end + 8) =~= u64_le(len));
    lemma_u64_round_trip(aux, end, len);
}

/// The encoded indices of patched rows are read as what they index.
proof fn lemma_patch_indices_read(positions: Seq<Option<u32>>, base_len: int, k: int)
    requires
        0 <= base_len,
        patch_indices(positions, base_len) is Ok,
        0 <= k < positions.len(),
    ensures
        patch_indices(positions, base_len)->Ok_0.len() == 4 * positions.len(),
        u32_at(patch_indices(positions, base_len)->Ok_0, 4 * k) == (match positions[k] {
            None => k,
            Some(j) => base_len + j,
        }),
    decreases positions.len(),
{
    let front = positions.drop_last();
    let bytes = patch_indices(positions, base_len)->Ok_0;
    let before = patch_indices(front, base_len)->Ok_0;
    let n = front.len() as int;
    if n > 0 {
        lemma_patch_indices_read(front, base_len, if k < n { k } else { 0 });
    }
    assert(before.len() == 4 * n);
    let index = patch_index(n, positions.last(), base_len) as u32;
    assert(bytes == before + u32_le(index));
    if k < n {
        lemma_u32_prefix(before, u32_le(index), 4 * k);
        assert(front[k] == positions[k]);
    } else {
        assert(bytes.subrange(4 * n, 4 * n + 4) =~= u32_le(index));
        lemma_u32_round_trip(bytes, 4 * n, index);
    }
}

/// A materialized array of indices is read as it was appended.
proof fn lemma_reads_indices(
    plan: PlanModel,
    memory: Memory,
    bytes: Seq<u8>,
    values: Seq<int>,
    node: PlanNode,
)
    requires
        memory.wf(),
        plan.aux.len() <= u32::MAX,
        values.len() <= u32::MAX,
        bytes.len() == 4 * values.len(),
        forall|k: int| 0 <= k < values.len() ==> u32_at(bytes, 4 * k) == #[trigger] values[k],
        node == (PlanNode { op: plan_op::MATERIALIZED, a: plan.aux.len() as u32, b: 0 }),
    ensures
        array_descriptor_spec(index_frame(values.len(), bytes), memory) matches Some(
            (descriptor, after),
        ) ==> plan.with(
            seq![literal_tag(dtype_kind::PRIMITIVE, false), PType::U32.tag()] + descriptor,
            node,
        ).reads_indices(after, plan.nodes.len() as int, values),
{
    let frame = index_frame(values.len(), bytes);
    if let Some((descriptor, after)) = array_descriptor_spec(frame, memory) {
        assert(encode_validity(frame.validity, memory) == Some((0u32, memory)));
        assert(frame.buffers.drop_last() =~= Seq::empty());
        assert(encode_buffers(frame.buffers.drop_last(), memory) == Some(
            (Seq::<u8>::empty(), memory),
        ));
        lemma_alloc_bytes(memory, bytes);
        let (ptr, later) = alloc_bytes_spec(memory, bytes)->0;
        let table = Seq::<u8>::empty() + u32_le(ptr) + u32_le(bytes.len() as u32);
        assert(encode_buffers(frame.buffers, memory) == Some((table, later)));
        let head = seq![shape::PRIMITIVE, PType::U32.tag(), frame.validity.tag(), 1u8];
        assert(descriptor == head + u32_le(values.len() as u32) + u32_le(0) + table);
        assert(after == later);
        let dtype = seq![literal_tag(dtype_kind::PRIMITIVE, false), PType::U32.tag()];
        let at = plan.aux.len() as int;
        let longer = plan.with(dtype + descriptor, node);
        let aux = longer.aux;
        assert(aux.subrange(at + 6, at + 10) =~= u32_le(values.len() as u32));
        lemma_u32_round_trip(aux, at + 6, values.len() as u32);
        assert(aux.subrange(at + 14, at + 18) =~= u32_le(ptr));
        lemma_u32_round_trip(aux, at + 14, ptr);
        assert(aux[at] == dtype[0] && aux[at + 1] == dtype[1]);
        assert(aux[at + 2] == head[0] && aux[at + 3] == head[1]);
        assert forall|k: int| 0 <= k < values.len() implies longer.stored_u32(after, at, k)
            == #[trigger] values[k] by {
            let loaded = after.load(ptr as int, bytes.len() as int);
            assert(loaded == bytes);
            reveal(u32_at);
            assert(after.bytes[ptr + 4 * k] == loaded[4 * k]);
            assert(after.bytes[ptr + 4 * k + 1] == loaded[4 * k + 1]);
            assert(after.bytes[ptr + 4 * k + 2] == loaded[4 * k + 2]);
            assert(after.bytes[ptr + 4 * k + 3] == loaded[4 * k + 3]);
            assert(u32_at(after.bytes, ptr + 4 * k) == u32_at(bytes, 4 * k));
        }
    }
}

/// What stands in the blob is read there still when a node without a payload is appended.
proof fn lemma_reads_kept(plan: PlanModel, payload: Seq<u8>, node: PlanNode, n: int)
    requires
        0 <= n < plan.nodes.len(),
    ensures
        forall|parts: Seq<u32>| #[trigger]
            plan.reads_concat(n, parts) ==> plan.with(payload, node).reads_concat(n, parts),
        forall|memory: Memory, values: Seq<int>| #[trigger]
            plan.reads_indices(memory, n, values) ==> plan.with(payload, node).reads_indices(
                memory,
                n,
                values,
            ),
{
    let longer = plan.with(payload, node);
    assert(longer.nodes[n] == plan.nodes[n]);
    let at = plan.nodes[n].a as int;
    assert forall|parts: Seq<u32>| #[trigger] plan.reads_concat(n, parts) implies longer.reads_concat(
        n,
        parts,
    ) by {
        lemma_u32_prefix(plan.aux, payload, at);
        assert forall|j: int| 0 <= j < parts.len() implies u32_at(longer.aux, at + 4 + 4 * j)
            == #[trigger] parts[j] by {
            lemma_u32_prefix(plan.aux, payload, at + 4 + 4 * j);
        }
    }
    assert forall|memory: Memory, values: Seq<int>| #[trigger]
        plan.reads_indices(memory, n, values) implies longer.reads_indices(memory, n, values) by {
        lemma_u32_prefix(plan.aux, payload, at + 6);
        lemma_u32_prefix(plan.aux, payload, at + 14);
        assert forall|k: int| 0 <= k < values.len() implies longer.stored_u32(memory, at, k)
            == #[trigger] values[k] by {
            assert(plan.stored_u32(memory, at, k) == values[k]);
        }
    }
}

/// A patched array is read as what it is made of.
proof fn lemma_reads_patch(
    plan: PlanModel,
    memory: Memory,
    base: NodeId,
    base_len: int,
    values: NodeId,
    positions: Seq<Option<u32>>,
)
    requires
        memory.wf(),
        0 <= base_len,
        plan.aux.len() + 12 <= u32::MAX,
        plan.nodes.len() + 3 <= u32::MAX,
        positions.len() <= u32::MAX,
    ensures
        match patch_indices(positions, base_len) {
            Ok(indices) => array_descriptor_spec(
                index_frame(positions.len(), indices),
                memory,
            ) matches Some((descriptor, after)) ==> patched_plan(
                plan,
                base,
                values,
                descriptor,
            ).reads_patch(
                after,
                plan.nodes.len() as int,
                base.index(),
                base_len,
                values.index(),
                positions,
            ),
            Err(_) => true,
        },
{
    if let Ok(indices) = patch_indices(positions, base_len) {
        let read = Seq::new(
            positions.len(),
            |k: int|
                match positions[k] {
                    None => k,
                    Some(j) => base_len + j,
                },
        );
        if positions.len() > 0 {
            lemma_patch_indices_read(positions, base_len, 0);
        }
        assert forall|k: int| 0 <= k < read.len() implies u32_at(indices, 4 * k)
            == #[trigger] read[k] by {
            lemma_patch_indices_read(positions, base_len, k);
        }
        if let Some((descriptor, after)) = array_descriptor_spec(
            index_frame(positions.len(), indices),
            memory,
        ) {
            let n = plan.nodes.len() as int;
            let parts = seq![base, values];
            lemma_reads_concat(plan, parts);
            assert(node_indices(parts) =~= seq![base.index(), values.index()]);
            let combined = plan.with(
                concat_list(parts),
                PlanNode { op: plan_op::CONCAT, a: plan.aux.len() as u32, b: 0 },
            );
            let node = PlanNode { op: plan_op::MATERIALIZED, a: combined.aux.len() as u32, b: 0 };
            let payload = seq![literal_tag(dtype_kind::PRIMITIVE, false), PType::U32.tag()]
                + descriptor;
            lemma_reads_indices(combined, memory, indices, read, node);
            lemma_reads_kept(combined, payload, node, n);
            let gathered = combined.with(payload, node);
            let take = PlanNode { op: plan_op::TAKE, a: n as u32, b: (n + 1) as u32 };
            lemma_reads_kept(gathered, Seq::empty(), take, n);
            lemma_reads_kept(gathered, Seq::empty(), take, n + 1);
            assert(patched_plan(plan, base, values, descriptor) == gathered.with(
                Seq::empty(),
                take,
            ));
        }
    }
}

/// Builds a decode plan.
///
/// Nodes are appended in postorder: an operand must be built before the operation that consumes
/// it.
pub struct PlanBuilder {
    nodes: Vec<u8>,
    aux: Vec<u8>,
    count: u32,
    model: Ghost<Seq<PlanNode>>,
}

impl View for PlanBuilder {
    type V = PlanModel;

    closed spec fn view(&self) -> PlanModel {
        PlanModel { nodes: self.model@, aux: self.aux@ }
    }
}

impl Default for PlanBuilder {
    fn default() -> (plan: Self)
        ensures
            plan.wf(),
            plan@ == (PlanModel { nodes: Seq::empty(), aux: Seq::empty() }),
            plan@.acyclic(),
    {
        Self::new()
    }
}

impl PlanBuilder {
    /// The encoded nodes are those of the plan, and their count is right.
    pub closed spec fn wf(self) -> bool {
        &&& self.nodes@ == encode_nodes(self.model@)
        &&& self.count == self.model@.len()
    }

    /// An empty plan.
    pub fn new() -> (plan: Self)
        ensures
            plan.wf(),
            plan@ == (PlanModel { nodes: Seq::empty(), aux: Seq::empty() }),
            plan@.acyclic(),
    {
        let plan = PlanBuilder {
            nodes: Vec::new(),
            aux: Vec::new(),
            count: 0,
            model: Ghost(Seq::empty()),
        };
        assert(plan.nodes@ =~= encode_nodes(Seq::empty()));
        assert(plan@.aux =~= Seq::empty());
        plan
    }

    fn push(&mut self, op: u8, arg0: u32, arg1: u32) -> (id: NodeId)
        requires
            old(self).wf(),
            old(self)@.nodes.len() < u32::MAX,
        ensures
            final(self).wf(),
            final(self)@ == old(self)@.with(
                Seq::empty(),
                PlanNode { op, a: arg0, b: arg1 },
            ),
            id.index() == old(self)@.nodes.len(),
    {
        let ghost node = PlanNode { op, a: arg0, b: arg1 };
        self.nodes.push(op);
        self.nodes.push(0);
        self.nodes.push(0);
        self.nodes.push(0);
        push_u32(&mut self.nodes, arg0);
        push_u32(&mut self.nodes, arg1);
        push_u32(&mut self.nodes, 0);
        let id = NodeId(self.count);
        self.count = self.count + 1;
        self.model = Ghost(self.model@.push(node));
        proof {
            assert(self.nodes@ =~= old(self).nodes@ + node.encode());
            assert(self.model@.drop_last() =~= old(self).model@);
            assert(self@.aux =~= old(self)@.aux + Seq::empty());
        }
        id
    }

    fn push_aux(&mut self, bytes: &[u8]) -> (offset: u32)
        requires
            old(self).wf(),
        ensures
            final(self).wf(),
            final(self)@ == (PlanModel { aux: old(self)@.aux + bytes@, ..old(self)@ }),
            offset == old(self)@.aux.len() as u32,
    {
        let offset: u32 = self.aux.len() as u32;
        push_bytes(&mut self.aux, bytes);
        offset
    }

    /// The node's serialized child at `slot`, in its own encoding.
    ///
    /// The host resolves it lazily and never canonicalizes or copies it, so the child may have any
    /// dtype. The slot must have been declared a reference.
    pub fn child(&mut self, slot: u16) -> (id: NodeId)
        requires
            old(self).wf(),
            old(self)@.nodes.len() < u32::MAX,
        ensures
            final(self).wf(),
            final(self)@ == old(self)@.with(
                Seq::empty(),
                PlanNode { op: plan_op::CHILD, a: slot as u32, b: 0 },
            ),
            final(self)@.extends(old(self)@),
            final(self)@.reads_child(id.index() as int, slot),
            id.index() == old(self)@.nodes.len(),
            old(self)@.acyclic() ==> final(self)@.acyclic(),
    {
        proof {
            if self@.acyclic() {
                law_acyclic(
                    self@,
                    Seq::empty(),
                    PlanNode { op: plan_op::CHILD, a: slot as u32, b: 0 },
                );
            }
        }
        self.push(plan_op::CHILD, slot as u32, 0)
    }

    /// An array the kernel built itself, of the given dtype. `None` when the memory is exhausted.
    ///
    /// The only node that moves bytes: for encodings that genuinely compute new values. `dtype` is
    /// required because the buffer layout alone does not determine the type. The descriptor holds
    /// a flat array: one without children, in at most 255 buffers.
    pub fn materialized(
        &mut self,
        memory: &mut LinearMemory,
        dtype: DTypeExpr,
        array: Decoded,
    ) -> (id: Option<NodeId>)
        requires
            old(self).wf(),
            old(memory)@.wf(),
            old(self)@.nodes.len() < u32::MAX,
            array.frame().children.len() == 0,
            array.frame().buffers.len() <= 255,
        ensures
            final(self).wf(),
            final(memory)@.wf(),
            match array_descriptor_spec(array.frame(), old(memory)@) {
                Some((descriptor, after)) => {
                    &&& id matches Some(node) && node.index() == old(self)@.nodes.len()
                    &&& final(self)@ == old(self)@.with(
                        dtype@ + descriptor,
                        PlanNode {
                            op: plan_op::MATERIALIZED,
                            a: old(self)@.aux.len() as u32,
                            b: 0,
                        },
                    )
                    &&& final(memory)@ == after
                },
                None => id is None && final(self)@ == old(self)@,
            },
            old(self)@.acyclic() ==> final(self)@.acyclic(),
    {
        let mut payload: Vec<u8> = Vec::new();
        push_bytes(&mut payload, dtype.as_bytes());
        if !array.write_array_into(memory, &mut payload) {
            return None;
        }
        let ghost descriptor = array_descriptor_spec(array.frame(), old(memory)@).unwrap().0;
        assert(payload@ =~= dtype@ + descriptor);
        let ghost before = self@;
        let offset: u32 = self.push_aux(payload.as_slice());
        let id = self.push(plan_op::MATERIALIZED, offset, 0);
        proof {
            let node = PlanNode { op: plan_op::MATERIALIZED, a: offset, b: 0 };
            assert(self@ =~= before.with(payload@, node));
            if before.acyclic() {
                law_acyclic(before, payload@, node);
            }
        }
        Some(id)
    }

    /// `base` gathered by `indices`, one output element per index.
    pub fn take(&mut self, base: NodeId, indices: NodeId) -> (id: NodeId)
        requires
            old(self).wf(),
            old(self)@.nodes.len() < u32::MAX,
        ensures
            final(self).wf(),
            final(self)@ == old(self)@.with(
                Seq::empty(),
                PlanNode { op: plan_op::TAKE, a: base.index(), b: indices.index() },
            ),
            final(self)@.extends(old(self)@),
            final(self)@.reads_take(id.index() as int, base.index(), indices.index()),
            id.index() == old(self)@.nodes.len(),
            old(self)@.acyclic() && base.index() < old(self)@.nodes.len() && indices.index()
                < old(self)@.nodes.len() ==> final(self)@.acyclic(),
    {
        proof {
            let node = PlanNode { op: plan_op::TAKE, a: base.index(), b: indices.index() };
            if self@.acyclic() && base.index() < self@.nodes.len() && indices.index()
                < self@.nodes.len() {
                law_acyclic(self@, Seq::empty(), node);
            }
        }
        self.push(plan_op::TAKE, base.0, indices.0)
    }

    /// The half-open row range `start..stop` of `base`.
    pub fn slice(&mut self, base: NodeId, start: u64, stop: u64) -> (id: NodeId)
        requires
            old(self).wf(),
            old(self)@.nodes.len() < u32::MAX,
        ensures
            final(self).wf(),
            final(self)@ == old(self)@.with(
                u64_le(start) + u64_le(stop),
                PlanNode {
                    op: plan_op::SLICE,
                    a: base.index(),
                    b: old(self)@.aux.len() as u32,
                },
            ),
            final(self)@.extends(old(self)@),
            old(self)@.aux.len() <= u32::MAX ==> final(self)@.reads_slice(
                id.index() as int,
                base.index(),
                start,
                stop,
            ),
            id.index() == old(self)@.nodes.len(),
            old(self)@.acyclic() && base.index() < old(self)@.nodes.len() ==> final(self)@.acyclic(),
    {
        let mut range: Vec<u8> = Vec::new();
        push_u64(&mut range, start);
        push_u64(&mut range, stop);
        assert(range@ =~= u64_le(start) + u64_le(stop));
        let ghost before = self@;
        let offset: u32 = self.push_aux(range.as_slice());
        let id = self.push(plan_op::SLICE, base.0, offset);
        proof {
            let node = PlanNode { op: plan_op::SLICE, a: base.index(), b: offset };
            assert(self@ =~= before.with(range@, node));
            if before.aux.len() <= u32::MAX {
                lemma_reads_slice(before, base.index(), start, stop);
            }
            if before.acyclic() && base.index() < before.nodes.len() {
                law_acyclic(before, range@, node);
            }
        }
        id
    }

    /// The concatenation of `parts`, in order.
    ///
    /// All parts must share a dtype.
    pub fn concat(&mut self, parts: &[NodeId]) -> (id: NodeId)
        requires
            old(self).wf(),
            old(self)@.nodes.len() < u32::MAX,
        ensures
            final(self).wf(),
            final(self)@ == old(self)@.with(
                concat_list(parts@),
                PlanNode { op: plan_op::CONCAT, a: old(self)@.aux.len() as u32, b: 0 },
            ),
            final(self)@.extends(old(self)@),
            old(self)@.aux.len() <= u32::MAX && parts@.len() <= u32::MAX ==> final(
                self)@.reads_concat(id.index() as int, node_indices(parts@)),
            id.index() == old(self)@.nodes.len(),
            old(self)@.acyclic() && old(self)@.aux.len() <= u32::MAX && parts@.len() <= u32::MAX
                && (forall|j: int|
                0 <= j < parts@.len() ==> (#[trigger] parts@[j]).index() < old(self)@.nodes.len())
                ==> final(self)@.acyclic(),
    {
        let mut encoded: Vec<u8> = Vec::new();
        push_u32(&mut encoded, parts.len() as u32);
        let mut i: usize = 0;
        assert(parts@.take(0) =~= Seq::empty());
        assert(encoded@ =~= u32_le(parts@.len() as u32) + concat_ids(parts@.take(0)));
        while i < parts.len()
            invariant
                i <= parts@.len(),
                encoded@ == u32_le(parts@.len() as u32) + concat_ids(parts@.take(i as int)),
            decreases parts@.len() - i,
        {
            push_u32(&mut encoded, parts[i].0);
            assert(parts@.take(i + 1).drop_last() =~= parts@.take(i as int));
            i = i + 1;
            assert(encoded@ =~= u32_le(parts@.len() as u32) + concat_ids(parts@.take(i as int)));
        }
        assert(parts@.take(i as int) =~= parts@);
        let ghost before = self@;
        let offset: u32 = self.push_aux(encoded.as_slice());
        let id = self.push(plan_op::CONCAT, offset, 0);
        proof {
            let node = PlanNode { op: plan_op::CONCAT, a: offset, b: 0 };
            assert(self@ =~= before.with(encoded@, node));
            if before.aux.len() <= u32::MAX && parts@.len() <= u32::MAX {
                lemma_reads_concat(before, parts@);
            }
            if before.acyclic() && before.aux.len() <= u32::MAX && parts@.len() <= u32::MAX && (
            forall|j: int|
                0 <= j < parts@.len() ==> (#[trigger] parts@[j]).index() < before.nodes.len()) {
                lemma_concat_looks_back(before, parts@);
                law_acyclic(before, encoded@, node);
            }
        }
        id
    }

    /// `len` copies of a scalar.
    pub fn constant(&mut self, scalar: Scalar, len: u64) -> (id: NodeId)
        requires
            old(self).wf(),
            old(self)@.nodes.len() < u32::MAX,
        ensures
            final(self).wf(),
            final(self)@ == old(self)@.with(
                scalar@ + u64_le(len),
                PlanNode {
                    op: plan_op::CONSTANT,
                    a: old(self)@.aux.len() as u32,
                    b: (old(self)@.aux.len() + scalar@.len()) as u32,
                },
            ),
            final(self)@.extends(old(self)@),
            old(self)@.aux.len() + scalar@.len() <= u32::MAX ==> final(self)@.reads_constant(
                id.index() as int,
                scalar@,
                len,
            ),
            id.index() == old(self)@.nodes.len(),
            old(self)@.acyclic() ==> final(self)@.acyclic(),
    {
        let ghost before = self@;
        let offset: u32 = self.push_aux(scalar.bytes.as_slice());
        let mut len_bytes: Vec<u8> = Vec::new();
        push_u64(&mut len_bytes, len);
        let len_offset: u32 = self.push_aux(len_bytes.as_slice());
        let id = self.push(plan_op::CONSTANT, offset, len_offset);
        proof {
            let node = PlanNode { op: plan_op::CONSTANT, a: offset, b: len_offset };
            assert(len_bytes@ =~= u64_le(len));
            assert(self@.aux =~= before.aux + (scalar@ + u64_le(len)));
            assert(self@ =~= before.with(scalar@ + u64_le(len), node));
            if before.aux.len() + scalar@.len() <= u32::MAX {
                lemma_reads_constant(before, scalar@, len);
            }
            if before.acyclic() {
                law_acyclic(before, scalar@ + u64_le(len), node);
            }
        }
        id
    }

    /// `base` with its validity replaced by `mask`, a non-nullable boolean array of the same
    /// length where `true` means valid.
    pub fn set_validity(&mut self, base: NodeId, mask: NodeId) -> (id: NodeId)
        requires
            old(self).wf(),
            old(self)@.nodes.len() < u32::MAX,
        ensures
            final(self).wf(),
            final(self)@ == old(self)@.with(
                Seq::empty(),
                PlanNode { op: plan_op::SET_VALIDITY, a: base.index(), b: mask.index() },
            ),
            final(self)@.extends(old(self)@),
            final(self)@.reads_set_validity(id.index() as int, base.index(), mask.index()),
            id.index() == old(self)@.nodes.len(),
            old(self)@.acyclic() && base.index() < old(self)@.nodes.len() && mask.index() < old(self)@.nodes.len() ==> final(self)@.acyclic(),
    {
        proof {
            let node = PlanNode { op: plan_op::SET_VALIDITY, a: base.index(), b: mask.index() };
            if self@.acyclic() && base.index() < self@.nodes.len() && mask.index()
                < self@.nodes.len() {
                law_acyclic(self@, Seq::empty(), node);
            }
        }
        self.push(plan_op::SET_VALIDITY, base.0, mask.0)
    }

    /// `base` with some of its rows replaced by elements of `values`.
    ///
    /// Not a primitive: this is `take` over the concatenation of `base` and `values`. `positions`
    /// gives, for each output row, either `None` for "keep the base value" or `Some(j)` for "use
    /// `values[j]`". The outer `None` is for exhausted memory.
    pub fn patch(
        &mut self,
        memory: &mut LinearMemory,
        base: NodeId,
        base_len: usize,
        values: NodeId,
        positions: &[Option<u32>],
    ) -> (result: Option<GuestResult<NodeId>>)
        requires
            old(self).wf(),
            old(memory)@.wf(),
            old(self)@.nodes.len() + 3 <= u32::MAX,
        ensures
            final(self).wf(),
            final(memory)@.wf(),
            if base_len > u32::MAX {
                &&& result == Some(
                    Err::<NodeId, _>(GuestError::of("patched array too long")),
                )
                &&& final(self)@ == old(self)@
                &&& final(memory)@ == old(memory)@
            } else {
                match patch_indices(positions@, base_len as int) {
                    Err(e) => {
                        &&& result == Some(Err::<NodeId, _>(e))
                        &&& final(self)@ == old(self)@
                        &&& final(memory)@ == old(memory)@
                    },
                    Ok(indices) => match array_descriptor_spec(
                        index_frame(positions@.len(), indices),
                        old(memory)@,
                    ) {
                        None => result is None,
                        Some((descriptor, after)) => {
                            &&& result matches Some(Ok(id)) && id.index() == old(
                                self)@.nodes.len() + 2
                            &&& final(self)@ == patched_plan(
                                old(self)@,
                                base,
                                values,
                                descriptor,
                            )
                            &&& final(memory)@ == after
                        },
                    },
                }
            },
            old(self)@.aux.len() + 12 <= u32::MAX && positions@.len() <= u32::MAX ==> (match result {
                Some(Ok(id)) => {
                    &&& id.index() == old(self)@.nodes.len() + 2
                    &&& final(self)@.reads_patch(
                        final(memory)@,
                        old(self)@.nodes.len() as int,
                        base.index(),
                        base_len as int,
                        values.index(),
                        positions@,
                    )
                },
                _ => true,
            }),
            old(self)@.acyclic() && old(self)@.aux.len() <= u32::MAX && base.index() < old(
                self)@.nodes.len() && values.index() < old(self)@.nodes.len() ==> final(
                self)@.acyclic(),
    {
        if base_len > u32::MAX as usize {
            return Some(Err(GuestError::new("patched array too long")));
        }
        let base_len_u32: u32 = base_len as u32;
        let mut indices: Vec<u8> = Vec::new();
        let mut row: usize = 0;
        assert(positions@.take(0) =~= Seq::empty());
        while row < positions.len()
            invariant
                row <= positions@.len(),
                base_len_u32 == base_len,
                base_len <= u32::MAX,
                self@ == old(self)@,
                self.wf(),
                memory@ == old(memory)@,
                memory@.wf(),
                patch_indices(positions@.take(row as int), base_len as int) == Ok::<
                    _,
                    GuestError,
                >(indices@),
            decreases positions@.len() - row,
        {
            proof {
                assert(positions@.take(row + 1).drop_last() =~= positions@.take(row as int));
                lemma_patch_indices_prefix(positions@, base_len as int, row + 1);
            }
            let index: u32 = match positions[row] {
                None => {
                    if row > u32::MAX as usize {
                        return Some(Err(GuestError::new("row index overflow")));
                    }
                    row as u32
                },
                Some(j) => match base_len_u32.checked_add(j) {
                    Some(index) => index,
                    None => {
                        return Some(Err(GuestError::new("patch index overflow")));
                    },
                },
            };
            push_u32(&mut indices, index);
            row = row + 1;
        }
        assert(positions@.take(row as int) =~= positions@);
        let ghost encoded = indices@;
        let mut parts: Vec<NodeId> = Vec::new();
        parts.push(base);
        parts.push(values);
        assert(parts@ =~= seq![base, values]);
        let combined = self.concat(parts.as_slice());
        let array = Decoded::Primitive(
            DecodedPrimitive {
                ptype: PType::U32,
                len: positions.len(),
                values: indices,
                validity: Validity::NonNullable,
            },
        );
        assert(array.frame() =~= index_frame(positions@.len(), encoded));
        let dtype = DTypeExpr::primitive(PType::U32, false);
        let indices = match self.materialized(memory, dtype, array) {
            Some(indices) => indices,
            None => {
                return None;
            },
        };
        proof {
            if old(self)@.aux.len() + 12 <= u32::MAX && positions@.len() <= u32::MAX {
                lemma_reads_patch(
                    old(self)@,
                    old(memory)@,
                    base,
                    base_len as int,
                    values,
                    positions@,
                );
            }
        }
        Some(Ok(self.take(combined, indices)))
    }

    /// Finish the plan, returning a pointer to the encoded frame. `None` when the memory is
    /// exhausted.
    pub fn finish(self, memory: &mut LinearMemory, root: NodeId) -> (ptr: Option<i32>)
        requires
            self.wf(),
            old(memory)@.wf(),
        ensures
            final(memory)@.wf(),
            match alloc_bytes_spec(old(memory)@, self@.encode(root.index())) {
                Some((address, after)) => ptr == Some(address as i32) && final(memory)@ == after,
                None => ptr is None && final(memory)@ == old(memory)@,
            },
    {
        let mut frame: Vec<u8> = Vec::new();
        push_u32(&mut frame, self.count);
        push_u32(&mut frame, root.0);
        push_u32(&mut frame, self.aux.len() as u32);
        push_u32(&mut frame, 0);
        push_bytes(&mut frame, self.nodes.as_slice());
        push_bytes(&mut frame, self.aux.as_slice());
        assert(frame@ =~= self@.encode(root.index()));
        match alloc_bytes(memory, frame.as_slice()) {
            Some(address) => Some(address as i32),
            None => None,
        }
    }
}

/// A scalar value for [`PlanBuilder::constant`], encoded as `[dtype][is_valid][value bytes]`.
pub struct Scalar {
    bytes: Vec<u8>,
}

impl View for Scalar {
    type V = Seq<u8>;

    closed spec fn view(&self) -> Seq<u8> {
        self.bytes@
    }
}

impl Scalar {
    /// A null of the given type expression.
    pub fn null(dtype: DTypeExpr) -> (scalar: Self)
        ensures
            scalar@ == dtype@ + seq![0u8],
    {
        let mut bytes: Vec<u8> = Vec::new();
        push_bytes(&mut bytes, dtype.as_bytes());
        bytes.push(0);
        let scalar = Scalar { bytes };
        assert(scalar@ =~= dtype@ + seq![0u8]);
        scalar
    }

    /// A boolean.
    pub fn bool(value: bool, nullable: bool) -> (scalar: Self)
        ensures
            scalar@ == seq![
                literal_tag(dtype_kind::BOOL, nullable),
                1u8,
                if value {
                    1u8
                } else {
                    0u8
                },
            ],
    {
        let mut bytes: Vec<u8> = Vec::new();
        let dtype = DTypeExpr::bool(nullable);
        push_bytes(&mut bytes, dtype.as_bytes());
        bytes.push(1);
        bytes.push(
            if value {
                1
            } else {
                0
            },
        );
        let scalar = Scalar { bytes };
        assert(scalar@ =~= seq![
            literal_tag(dtype_kind::BOOL, nullable),
            1u8,
            if value { 1u8 } else { 0u8 },
        ]);
        scalar
    }

    /// A primitive, given its little-endian value bytes.
    pub fn primitive(ptype: PType, value: &[u8], nullable: bool) -> (result: GuestResult<Self>)
        ensures
            match result {
                Ok(scalar) => {
                    &&& value@.len() == ptype.width()
                    &&& scalar@ == seq![
                        literal_tag(dtype_kind::PRIMITIVE, nullable),
                        ptype.tag(),
                        1u8,
                    ] + varint_bytes(value@.len()) + value@
                    &&& scalar@.len() == 4 + value@.len()
                    &&& scalar@[3] == value@.len()
                    &&& scalar@.subrange(4, scalar@.len() as int) == value@
                },
                Err(e) => value@.len() != ptype.width() && e == GuestError::of(
                    "scalar value width does not match its ptype",
                ),
            },
    {
        if value.len() != ptype.byte_width() {
            return Err(GuestError::new("scalar value width does not match its ptype"));
        }
        let mut bytes: Vec<u8> = Vec::new();
        let dtype = DTypeExpr::primitive(ptype, nullable);
        push_bytes(&mut bytes, dtype.as_bytes());
        bytes.push(1);
        write_varint(&mut bytes, value.len() as u64);
        push_bytes(&mut bytes, value);
        let scalar = Scalar { bytes };
        assert(scalar@ =~= seq![
            literal_tag(dtype_kind::PRIMITIVE, nullable),
            ptype.tag(),
            1u8,
        ] + varint_bytes(value@.len()) + value@);
        assert(varint_bytes(value@.len()) =~= seq![value@.len() as u8]);
        assert(scalar@.subrange(4, scalar@.len() as int) =~= value@);
        Ok(scalar)
    }
}

/// The host finds node `i` of a finished plan at its place in the node array, and the blob right
/// after the nodes.
pub proof fn law_plan_layout(plan: PlanModel, root: u32, i: int)
    requires
        0 <= i < plan.nodes.len(),
        plan.nodes.len() <= u32::MAX,
        plan.aux.len() <= u32::MAX,
    ensures
        ({
            let frame = plan.encode(root);
            let at = plan_frame::HEADER + plan_frame::NODE_SIZE * i;
            &&& u32_at(frame, plan_frame::N_NODES as int) == plan.nodes.len()
            &&& u32_at(frame, plan_frame::ROOT as int) == root
            &&& u32_at(frame, plan_frame::AUX_LEN as int) == plan.aux.len()
            &&& frame[at] == plan.nodes[i].op
            &&& u32_at(frame, at + 4) == plan.nodes[i].a
            &&& u32_at(frame, at + 8) == plan.nodes[i].b
            &&& stands_at(
                frame,
                plan_frame::HEADER + plan_frame::NODE_SIZE * plan.nodes.len(),
                plan.aux,
            )
        }),
{
    let frame = plan.encode(root);
    let counts = u32_le(plan.nodes.len() as u32) + u32_le(root) + u32_le(plan.aux.len() as u32);
    let nodes = encode_nodes(plan.nodes);
    assert(frame.subrange(0, frame.len() as int) =~= frame);
    lemma_split(frame, 0, counts + u32_le(0) + nodes, plan.aux);
    lemma_split(frame, 0, counts + u32_le(0), nodes);
    lemma_split(frame, 0, counts, u32_le(0));
    lemma_split(
        frame,
        0,
        u32_le(plan.nodes.len() as u32) + u32_le(root),
        u32_le(plan.aux.len() as u32),
    );
    lemma_split(frame, 0, u32_le(plan.nodes.len() as u32), u32_le(root));
    lemma_u32_round_trip(frame, 0, plan.nodes.len() as u32);
    lemma_u32_round_trip(frame, 4, root);
    lemma_u32_round_trip(frame, 8, plan.aux.len() as u32);
    lemma_node_at(plan.nodes, frame, 16, i);
}

proof fn lemma_node_at(nodes: Seq<PlanNode>, bytes: Seq<u8>, start: int, i: int)
    requires
        0 <= i < nodes.len(),
        stands_at(bytes, start, encode_nodes(nodes)),
    ensures
        encode_nodes(nodes).len() == 16 * nodes.len(),
        bytes[start + 16 * i] == nodes[i].op,
        u32_at(bytes, start + 16 * i + 4) == nodes[i].a,
        u32_at(bytes, start + 16 * i + 8) == nodes[i].b,
    decreases nodes.len(),
{
    let front = nodes.drop_last();
    lemma_split(bytes, start, encode_nodes(front), nodes.last().encode());
    if front.len() > 0 {
        lemma_node_at(front, bytes, start, if i < front.len() { i } else { 0 });
    }
    if i == front.len() {
        let node = nodes.last();
        let at = start + 16 * i;
        let tags = seq![node.op, 0u8, 0u8, 0u8];
        lemma_split(bytes, at, tags + u32_le(node.a) + u32_le(node.b), u32_le(0));
        lemma_split(bytes, at, tags + u32_le(node.a), u32_le(node.b));
        lemma_split(bytes, at, tags, u32_le(node.a));
        assert(bytes[at] == bytes.subrange(at, at + 4)[0]);
        lemma_u32_round_trip(bytes, at + 4, node.a);
        lemma_u32_round_trip(bytes, at + 8, node.b);
    } else {
        assert(front[i] == nodes[i]);
    }
}

/// What a host finds in the descriptor of a materialized array, byte by byte: the tags, the number
/// of buffers, the length, the bitmap where there is one, and every buffer by its entry.
pub proof fn law_descriptor_layout(frame: Frame, memory: Memory, i: int)
    requires
        memory.wf(),
        frame.len <= u32::MAX,
        frame.buffers.len() <= 255,
        forall|k: int|
            0 <= k < frame.buffers.len() ==> (#[trigger] frame.buffers[k]).len() <= u32::MAX,
    ensures
        array_descriptor_spec(frame, memory) matches Some((bytes, after)) ==> {
            let n = frame.buffers.len();
            &&& bytes.len() == 12 + 8 * n
            &&& bytes[0] == frame.shape
            &&& bytes[1] == frame.param
            &&& bytes[3] == n
            &&& u32_at(bytes, 4) == frame.len
            &&& match frame.validity {
                ValidityModel::NonNullable => bytes[2] == 0,
                ValidityModel::AllValid => bytes[2] == 1,
                ValidityModel::AllInvalid => bytes[2] == 2,
                ValidityModel::Bitmap(bits) => bytes[2] == 3 && after.load(
                    u32_at(bytes, 8) as int,
                    bits.len() as int,
                ) == bits,
            }
            &&& 0 <= i < n ==> {
                let (ptr, len) = (u32_at(bytes, 12 + 8 * i), u32_at(bytes, 12 + 8 * i + 4));
                after.holds(ptr as int, len as int) && after.load(ptr as int, len as int)
                    == frame.buffers[i]
            }
        },
{
    if let Some((bytes, after)) = array_descriptor_spec(frame, memory) {
        let (ptr, with_validity) = encode_validity(frame.validity, memory).unwrap();
        let (table, _) = encode_buffers(frame.buffers, with_validity).unwrap();
        lemma_encode_validity_keeps(frame.validity, memory);
        lemma_encode_buffers_keeps(frame.buffers, with_validity);
        let tags = seq![
            frame.shape,
            frame.param,
            frame.validity.tag(),
            frame.buffers.len() as u8,
        ];
        assert(bytes.subrange(0, 4) =~= tags);
        assert(bytes.subrange(0, 4)[0] == bytes[0] && bytes.subrange(0, 4)[1] == bytes[1]
            && bytes.subrange(0, 4)[2] == bytes[2] && bytes.subrange(0, 4)[3] == bytes[3]);
        assert(bytes.subrange(4, 8) =~= u32_le(frame.len as u32));
        assert(bytes.subrange(8, 12) =~= u32_le(ptr));
        assert(bytes.subrange(12, bytes.len() as int) =~= table);
        lemma_u32_round_trip(bytes, 4, frame.len as u32);
        lemma_u32_round_trip(bytes, 8, ptr);
        if let ValidityModel::Bitmap(bits) = frame.validity {
            lemma_alloc_bytes(memory, bits);
            lemma_load_kept(with_validity, after, ptr as int, bits.len() as int);
        }
        if 0 <= i < frame.buffers.len() {
            lemma_buffer_entry(frame.buffers, with_validity, after, bytes, 12, i);
        }
    }
}

/// The indices of patched rows are refused exactly if one of them does not fit 32 bits.
pub proof fn law_patch_indices_fit(positions: Seq<Option<u32>>, base_len: int)
    requires
        0 <= base_len,
    ensures
        patch_indices(positions, base_len) is Err <==> exists|k: int|
            0 <= k < positions.len() && (match #[trigger] positions[k] {
                None => k,
                Some(j) => base_len + j,
            }) > u32::MAX,
    decreases positions.len(),
{
    if positions.len() > 0 {
        let front = positions.drop_last();
        let last = positions.len() - 1;
        law_patch_indices_fit(front, base_len);
        if patch_indices(front, base_len) is Err {
            let k = choose|k: int|
                0 <= k < front.len() && (match #[trigger] front[k] {
                    None => k,
                    Some(j) => base_len + j,
                }) > u32::MAX;
            assert(positions[k] == front[k]);
        } else if patch_indices(positions, base_len) is Err {
            assert(positions[last] == positions.last());
        }
        if exists|k: int|
            0 <= k < positions.len() && (match #[trigger] positions[k] {
                None => k,
                Some(j) => base_len + j,
            }) > u32::MAX {
            let k = choose|k: int|
                0 <= k < positions.len() && (match #[trigger] positions[k] {
                    None => k,
                    Some(j) => base_len + j,
                }) > u32::MAX;
            if k < last {
                assert(front[k] == positions[k]);
            }
        }
    }
}

} // verus!
