//! What a query over a blob yields, stated as a walk over the structure
//! block: the regions handed out, in order, and how the walk ends.
use vstd::prelude::*;
use vstd::utf8::valid_utf8;
use vstd::string::StringSliceAdditionalSpecFns;
use crate::bytes::{be32, align4, cstr_len, lemma_cstr_len_bounds};
use crate::error::DtbError;
use crate::header::{spec_off_dt_struct, spec_size_dt_struct, spec_off_dt_strings};
use crate::node::{SimpleDeviceNode, node_under};

verus! {

pub const FDT_BEGIN_NODE: u32 = 1;
pub const FDT_END_NODE: u32 = 2;
pub const FDT_PROP: u32 = 3;
pub const FDT_NOP: u32 = 4;
pub const FDT_END: u32 = 9;

pub const PROP_ADDRESS_CELLS: &'static str = "#address-cells";
pub const PROP_SIZE_CELLS: &'static str = "#size-cells";
pub const PROP_COMPATIBLE: &'static str = "compatible";
pub const PROP_DEVICE_TYPE: &'static str = "device_type";
pub const PROP_REG: &'static str = "reg";
pub const PROP_RANGES: &'static str = "ranges";

/// The regions a walk hands out, in order, and how it ends.
pub struct Trace {
    pub regions: Seq<(usize, usize)>,
    pub outcome: Result<(), DtbError>,
}

pub open spec fn fail(e: DtbError) -> Trace {
    Trace { regions: Seq::empty(), outcome: Err(e) }
}

/// `rs` handed out before whatever `t` hands out.
pub open spec fn prepend(rs: Seq<(usize, usize)>, t: Trace) -> Trace {
    Trace { regions: rs + t.regions, outcome: t.outcome }
}

/// Where the structure block ends.
pub open spec fn struct_end(b: Seq<u8>) -> int {
    spec_off_dt_struct(b) + spec_size_dt_struct(b)
}

/// The token word at `p`; `None` where fewer than four bytes of the
/// structure block remain.
pub open spec fn token_at(b: Seq<u8>, p: int) -> Option<int> {
    if 0 <= p && p + 4 <= b.len() && p + 4 <= struct_end(b) {
        Some(be32(b, p))
    } else {
        None
    }
}

/// A query: a `compatible` entry or a `device_type` value to look for.
pub struct Query {
    pub compatible: bool,
    pub target: Seq<u8>,
}

/// Most cells a machine word can hold.
pub open spec fn max_cells() -> int {
    usize::BITS as int / 32
}

/// The number held by `n` big-endian cells at `p`, most significant first.
pub open spec fn cells_value(b: Seq<u8>, p: int, n: nat) -> int
    decreases n,
{
    if n == 0 {
        0
    } else {
        cells_value(b, p, (n - 1) as nat) * 0x1_0000_0000 + be32(b, p + 4 * (n - 1))
    }
}

/// Whether the NUL-terminated strings in `[p, end)` include `target`; every
/// string must end inside the range and be valid UTF-8.
pub open spec fn compat_scan(b: Seq<u8>, target: Seq<u8>, p: int, end: int) -> Result<
    bool,
    DtbError,
>
    decreases end - p,
{
    if p >= end {
        Ok(false)
    } else {
        match cstr_len(b, p, end) {
            None => Err(DtbError::InvalidPropertySize),
            Some(k) => if !valid_utf8(b.subrange(p, p + k)) {
                Err(DtbError::Utf8DecodeError)
            } else {
                proof {
                    lemma_cstr_len_bounds(b, p, end);
                }
                match compat_scan(b, target, p + k + 1, end) {
                    Err(e) => Err(e),
                    Ok(m) => Ok(m || b.subrange(p, p + k) == target),
                }
            },
        }
    }
}

/// What the value of a `device_type` property says of the query.
pub open spec fn device_type_match(b: Seq<u8>, target: Seq<u8>, p: int, end: int) -> Result<
    bool,
    DtbError,
> {
    match cstr_len(b, p, end) {
        None => Err(DtbError::InvalidPropertySize),
        Some(k) => if !valid_utf8(b.subrange(p, p + k)) {
            Err(DtbError::Utf8DecodeError)
        } else {
            Ok(b.subrange(p, p + k) == target)
        },
    }
}

/// The parent of the innermost node of `stack`, if it has one.
pub open spec fn parent_of(stack: Seq<SimpleDeviceNode>) -> Option<SimpleDeviceNode> {
    if stack.len() >= 2 {
        Some(stack[stack.len() - 2])
    } else {
        None
    }
}

/// The effect of a property named `name`, with its payload at `[p, p + len)`,
/// on `node`, whose parent is `parent`.
pub open spec fn prop_effect(
    b: Seq<u8>,
    q: Query,
    name: Seq<u8>,
    p: int,
    len: int,
    node: SimpleDeviceNode,
    parent: Option<SimpleDeviceNode>,
) -> Result<SimpleDeviceNode, DtbError> {
    if name == PROP_ADDRESS_CELLS.spec_bytes() {
        if len < 4 {
            Err(DtbError::InvalidPropertySize)
        } else {
            Ok(SimpleDeviceNode { address_cells: be32(b, p) as u32, ..node })
        }
    } else if name == PROP_SIZE_CELLS.spec_bytes() {
        if len < 4 {
            Err(DtbError::InvalidPropertySize)
        } else {
            Ok(SimpleDeviceNode { size_cells: be32(b, p) as u32, ..node })
        }
    } else if name == PROP_COMPATIBLE.spec_bytes() {
        if q.compatible {
            match compat_scan(b, q.target, p, p + len) {
                Err(e) => Err(e),
                Ok(m) => Ok(SimpleDeviceNode { matched: node.matched || m, ..node }),
            }
        } else {
            Ok(node)
        }
    } else if name == PROP_DEVICE_TYPE.spec_bytes() {
        if !q.compatible {
            match device_type_match(b, q.target, p, p + len) {
                Err(e) => Err(e),
                Ok(m) => Ok(SimpleDeviceNode { matched: node.matched || m, ..node }),
            }
        } else {
            Ok(node)
        }
    } else if name == PROP_REG.spec_bytes() {
        if parent is None {
            Err(DtbError::RegAtRoot)
        } else if entry_size(parent.unwrap()) > len {
            Err(DtbError::InvalidPropertySize)
        } else {
            Ok(SimpleDeviceNode { reg: Some((p as usize, len as usize)), ..node })
        }
    } else if name == PROP_RANGES.spec_bytes() {
        Ok(SimpleDeviceNode { ranges: Some((p as usize, len as usize)), ..node })
    } else {
        Ok(node)
    }
}

/// The property record whose token is at `pos`: `node` as the record leaves
/// it, and the position after the record's padded payload.
pub open spec fn prop_step(
    b: Seq<u8>,
    strings: int,
    q: Query,
    pos: int,
    node: SimpleDeviceNode,
    parent: Option<SimpleDeviceNode>,
) -> Result<(SimpleDeviceNode, int), DtbError> {
    let hdr = pos + 4;
    if hdr + 8 > b.len() {
        Err(DtbError::OutOfBounds)
    } else {
        let len = be32(b, hdr);
        let payload = hdr + 8;
        let next = payload + align4(len);
        if next > b.len() {
            Err(DtbError::OutOfBounds)
        } else {
            let at = strings + be32(b, hdr + 4);
            match cstr_len(b, at, b.len() as int) {
                None => Err(DtbError::OutOfBounds),
                Some(k) => if !valid_utf8(b.subrange(at, at + k)) {
                    Err(DtbError::Utf8DecodeError)
                } else {
                    match prop_effect(b, q, b.subrange(at, at + k), payload, len, node, parent) {
                        Err(e) => Err(e),
                        Ok(node) => Ok((node, next)),
                    }
                },
            }
        }
    }
}

/// Entering the node whose begin token is at `pos`: the position after its
/// padded name.
pub open spec fn enter_node(b: Seq<u8>, pos: int) -> Result<int, DtbError> {
    match cstr_len(b, pos + 4, b.len() as int) {
        None => Err(DtbError::OutOfBounds),
        Some(k) => if !valid_utf8(b.subrange(pos + 4, pos + 4 + k)) {
            Err(DtbError::Utf8DecodeError)
        } else if pos + 4 + align4(k + 1int) > b.len() {
            Err(DtbError::OutOfBounds)
        } else {
            Ok(pos + 4 + align4(k + 1int))
        },
    }
}

/// Bytes of one `reg` entry of a child of `parent`.
pub open spec fn entry_size(parent: SimpleDeviceNode) -> int {
    (parent.address_cells + parent.size_cells) * 4
}

/// `n` cells at `p`, where a machine word can hold them.
pub open spec fn read_cells(b: Seq<u8>, p: int, n: int) -> Result<int, DtbError> {
    if n > max_cells() {
        Err(DtbError::CellsOverflow)
    } else {
        Ok(cells_value(b, p, n as nat))
    }
}

/// The `(address, length)` entry at `p` of a `reg` decoded with the cell
/// counts of `parent`.
pub open spec fn read_entry(b: Seq<u8>, parent: SimpleDeviceNode, p: int) -> Result<
    (int, int),
    DtbError,
> {
    if parent.address_cells > max_cells() || parent.size_cells > max_cells() {
        Err(DtbError::CellsOverflow)
    } else {
        Ok(
            (
                cells_value(b, p, parent.address_cells as nat),
                cells_value(b, p + 4 * parent.address_cells, parent.size_cells as nat),
            ),
        )
    }
}

/// One level of translation: a region `(a, l)` in the bus space of `node`'s
/// children, carried through the first window of `node`'s `ranges` into the
/// space of `parent`. Without `ranges`, or with an empty one, the two spaces
/// coincide.
pub open spec fn window_step(
    b: Seq<u8>,
    node: SimpleDeviceNode,
    parent: SimpleDeviceNode,
    a: int,
    l: int,
) -> Result<int, DtbError> {
    match node.ranges {
        None => Ok(a),
        Some((p, len)) => if len == 0 {
            Ok(a)
        } else if node.address_cells > max_cells() || parent.address_cells > max_cells()
            || node.size_cells > max_cells() {
            Err(DtbError::CellsOverflow)
        } else if (node.address_cells + parent.address_cells + node.size_cells) * 4 > len {
            Err(DtbError::InvalidPropertySize)
        } else {
            let child_bus = cells_value(b, p as int, node.address_cells as nat);
            let parent_bus = cells_value(
                b,
                p + 4 * node.address_cells,
                parent.address_cells as nat,
            );
            let window = cells_value(
                b,
                p + 4 * (node.address_cells + parent.address_cells),
                node.size_cells as nat,
            );
            if a < child_bus || a + l > child_bus + window {
                Err(DtbError::RangesOverflow)
            } else if a - child_bus + parent_bus > usize::MAX {
                Err(DtbError::RangesOverflow)
            } else {
                Ok(a - child_bus + parent_bus)
            }
        },
    }
}

/// The address `a` of a region of length `l`, carried through the `ranges`
/// of node `k` of `stack` and of each of its ancestors below the root, up to
/// the root's space.
pub open spec fn translate(b: Seq<u8>, stack: Seq<SimpleDeviceNode>, k: int, a: int, l: int) -> Result<
    int,
    DtbError,
>
    decreases k,
{
    if k <= 0 || k >= stack.len() {
        Ok(a)
    } else {
        match window_step(b, stack[k], stack[k - 1], a, l) {
            Err(e) => Err(e),
            Ok(a2) => translate(b, stack, k - 1, a2, l),
        }
    }
}

/// Whether the innermost node of `stack` has regions to hand out.
pub open spec fn emits(stack: Seq<SimpleDeviceNode>) -> bool {
    stack.len() >= 2 && stack.last().matched && stack.last().reg is Some
}

/// The regions of the innermost node from the `reg` entry at byte `off` of
/// its payload on, and the error that cut them short, if any. A payload that
/// ends inside an entry is too short for it.
pub open spec fn regions_at(b: Seq<u8>, stack: Seq<SimpleDeviceNode>, off: int) -> (
    Seq<(usize, usize)>,
    Option<DtbError>,
)
    decreases (if emits(stack) {
        stack.last().reg.unwrap().1 as int
    } else {
        0
    }) - off,
{
    if !emits(stack) {
        (Seq::empty(), None)
    } else {
        let parent = stack[stack.len() - 2];
        let (p, len) = stack.last().reg.unwrap();
        let esz = entry_size(parent);
        if esz == 0 || off < 0 || off >= len {
            (Seq::empty(), None)
        } else if off + esz > len {
            (Seq::empty(), Some(DtbError::InvalidPropertySize))
        } else {
            match read_entry(b, parent, p + off) {
                Err(e) => (Seq::empty(), Some(e)),
                Ok((a, l)) => match translate(b, stack, stack.len() - 1, a, l) {
                    Err(e) => (Seq::empty(), Some(e)),
                    Ok(pa) => {
                        let rest = regions_at(b, stack, off + esz);
                        (seq![(pa as usize, l as usize)] + rest.0, rest.1)
                    },
                },
            }
        }
    }
}

/// The regions of the innermost node, then the walk from `pos` among its
/// children.
pub open spec fn emit_then(
    b: Seq<u8>,
    strings: int,
    q: Query,
    pos: int,
    stack: Seq<SimpleDeviceNode>,
    off: int,
) -> Trace
    decreases b.len() - pos, 1int, (if emits(stack) {
        stack.last().reg.unwrap().1 as int
    } else {
        0
    }) - off,
{
    let (rs, err) = regions_at(b, stack, off);
    match err {
        Some(e) => Trace { regions: rs, outcome: Err(e) },
        None => prepend(rs, run(b, strings, q, pos, stack, false)),
    }
}

/// The walk from `pos`: reading the properties of the innermost node of
/// `stack` when `in_props`, else among its children.
pub open spec fn run(
    b: Seq<u8>,
    strings: int,
    q: Query,
    pos: int,
    stack: Seq<SimpleDeviceNode>,
    in_props: bool,
) -> Trace
    decreases b.len() - pos, (if in_props {
        2int
    } else {
        0int
    }), 0int,
{
    if stack.len() == 0 || pos < 0 || pos > b.len() {
        fail(DtbError::UnexpectedToken)
    } else if in_props {
        match token_at(b, pos) {
            Some(t) => if t == FDT_NOP {
                run(b, strings, q, pos + 4, stack, true)
            } else if t == FDT_PROP {
                match prop_step(b, strings, q, pos, stack.last(), parent_of(stack)) {
                    Err(e) => fail(e),
                    Ok((node, next)) => run(
                        b,
                        strings,
                        q,
                        next,
                        stack.update(stack.len() - 1, node),
                        true,
                    ),
                }
            } else if t == FDT_BEGIN_NODE || t == FDT_END_NODE {
                emit_then(b, strings, q, pos, stack, 0)
            } else {
                fail(DtbError::UnexpectedToken)
            },
            None => fail(DtbError::UnexpectedToken),
        }
    } else {
        match token_at(b, pos) {
            Some(t) => if t == FDT_NOP {
                run(b, strings, q, pos + 4, stack, false)
            } else if t == FDT_BEGIN_NODE {
                match enter_node(b, pos) {
                    Err(e) => fail(e),
                    Ok(next) => run(b, strings, q, next, stack.push(node_under(Some(stack.last()))), true),
                }
            } else if t == FDT_END_NODE {
                if stack.len() == 1 {
                    if token_at(b, pos + 4) == Some(FDT_END as int) {
                        Trace { regions: Seq::empty(), outcome: Ok(()) }
                    } else {
                        fail(DtbError::TrailingGarbage)
                    }
                } else {
                    run(b, strings, q, pos + 4, stack.drop_last(), false)
                }
            } else {
                fail(DtbError::UnexpectedToken)
            },
            None => fail(DtbError::UnexpectedToken),
        }
    }
}

/// The first position at or after `pos` that is not a NOP token, looking no
/// further than `end`.
pub open spec fn skip_nops(b: Seq<u8>, pos: int, end: int) -> int
    decreases b.len() - pos,
{
    if pos < end && token_at(b, pos) == Some(FDT_NOP as int) {
        skip_nops(b, pos + 4, end)
    } else {
        pos
    }
}

/// Everything a query over blob `b` yields.
pub open spec fn search(b: Seq<u8>, q: Query) -> Trace {
    let start = skip_nops(b, spec_off_dt_struct(b), struct_end(b));
    if token_at(b, start) != Some(FDT_BEGIN_NODE as int) {
        fail(DtbError::ExpectedBeginNode)
    } else {
        match enter_node(b, start) {
            Err(e) => fail(e),
            Ok(next) => run(b, spec_off_dt_strings(b), q, next, seq![node_under(None)], true),
        }
    }
}

} // verus!
