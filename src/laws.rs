//! Properties of the header check and of queries, proved over the model
//! that the public functions' contracts speak of.
use vstd::prelude::*;
use vstd::string::StringSliceAdditionalSpecFns;
use core::ops::ControlFlow;
use crate::error::DtbError;
use crate::header::{
    header_check, blocks_inside, spec_magic, spec_last_comp_version, HEADER_SIZE,
    DTB_HEADER_MAGIC, DTB_VERSION,
};
use crate::model::{
    Trace, Query, prop_effect, regions_at, read_entry, emits, run, fail, token_at, enter_node,
    window_step, cells_value, max_cells, PROP_ADDRESS_CELLS, PROP_SIZE_CELLS, FDT_BEGIN_NODE,
    FDT_END_NODE, FDT_END,
};
use crate::node::{SimpleDeviceNode, node_under};
use crate::parser::{answered, visit_at, visit_outcome};

verus! {

/// Whether every answer `f` can give is to go on.
pub open spec fn always_continues<F: FnMut((usize, usize)) -> ControlFlow<()>>(f: F) -> bool {
    forall|r: (usize, usize), c: ControlFlow<()>| #[trigger] call_ensures(f, (r,), c) ==> c is Continue
}

/// Whether every answer `f` can give is to stop.
pub open spec fn always_stops<F: FnMut((usize, usize)) -> ControlFlow<()>>(f: F) -> bool {
    forall|r: (usize, usize), c: ControlFlow<()>| #[trigger] call_ensures(f, (r,), c) ==> c is Break
}

/// A blob that holds a whole header, with its declared blocks inside it, is
/// accepted exactly when its magic is right and its last compatible version
/// is at most the supported one; a wrong magic is reported before a version
/// that is too new.
pub proof fn lemma_header_accepted(b: Seq<u8>)
    requires
        b.len() >= HEADER_SIZE,
        blocks_inside(b),
    ensures
        header_check(b) is Ok <==> (spec_magic(b) == DTB_HEADER_MAGIC
            && spec_last_comp_version(b) <= DTB_VERSION),
        spec_magic(b) != DTB_HEADER_MAGIC ==> header_check(b) == Err::<(), DtbError>(
            DtbError::InvalidMagic,
        ),
        spec_magic(b) == DTB_HEADER_MAGIC && spec_last_comp_version(b) > DTB_VERSION
            ==> header_check(b) == Err::<(), DtbError>(DtbError::UnsupportedVersion),
{
}

/// Two queries with the same key over the same blob, each with a visitor
/// that always goes on, hand both visitors every region of the walk in the
/// walk's order, and end alike.
pub proof fn lemma_find_repeatable<
    F1: FnMut((usize, usize)) -> ControlFlow<()>,
    F2: FnMut((usize, usize)) -> ControlFlow<()>,
>(f1: F1, f2: F2, t: Trace, r1: Result<(), DtbError>, r2: Result<(), DtbError>)
    requires
        always_continues(f1),
        always_continues(f2),
        visit_outcome(f1, t, r1),
        visit_outcome(f2, t, r2),
    ensures
        r1 == t.outcome,
        r2 == t.outcome,
        visit_at(f1, t, r1, t.regions.len() as int),
        visit_at(f2, t, r2, t.regions.len() as int),
{
    lemma_continuing_visits_all(f1, t, r1);
    lemma_continuing_visits_all(f2, t, r2);
}

/// Whether `f`'s answer to a region depends on the region alone.
pub open spec fn answers_by_region<F: FnMut((usize, usize)) -> ControlFlow<()>>(f: F) -> bool {
    forall|r: (usize, usize), c1: ControlFlow<()>, c2: ControlFlow<()>|
        #[trigger] call_ensures(f, (r,), c1) && #[trigger] call_ensures(f, (r,), c2) ==> (c1
            is Break) == (c2 is Break)
}

/// Repeating a query with a visitor whose answers depend on the region alone
/// hands it the same regions, in the same order, and ends alike: the
/// visitor is handed exactly the first `k` regions of the walk, plus the
/// one it stopped at, for one `k` that both runs share.
pub proof fn lemma_find_repeatable_by_region<F: FnMut((usize, usize)) -> ControlFlow<()>>(
    f: F,
    t: Trace,
    r1: Result<(), DtbError>,
    r2: Result<(), DtbError>,
    k1: int,
    k2: int,
)
    requires
        answers_by_region(f),
        visit_at(f, t, r1, k1),
        visit_at(f, t, r2, k2),
    ensures
        k1 == k2,
        r1 is Ok <==> r2 is Ok,
        r1 is Err ==> r1 == r2,
{
    if k1 < k2 {
        lemma_answers_differ(f, t.regions[k1]);
    } else if k2 < k1 {
        lemma_answers_differ(f, t.regions[k2]);
    }
}

/// A visitor whose answers depend on the region alone cannot both stop and
/// go on at one region.
proof fn lemma_answers_differ<F: FnMut((usize, usize)) -> ControlFlow<()>>(
    f: F,
    region: (usize, usize),
)
    requires
        answers_by_region(f),
    ensures
        !(answered(f, region, true) && answered(f, region, false)),
{
    if answered(f, region, true) && answered(f, region, false) {
        let c1 = choose|c: ControlFlow<()>| #[trigger] call_ensures(f, (region,), c) && (c is Break)
            == true;
        let c2 = choose|c: ControlFlow<()>| #[trigger] call_ensures(f, (region,), c) && (c is Break)
            == false;
        assert(call_ensures(f, (region,), c1) && call_ensures(f, (region,), c2));
    }
}

/// A visitor that always goes on is handed every region and the query ends
/// as the walk does.
proof fn lemma_continuing_visits_all<F: FnMut((usize, usize)) -> ControlFlow<()>>(
    f: F,
    t: Trace,
    r: Result<(), DtbError>,
)
    requires
        always_continues(f),
        visit_outcome(f, t, r),
    ensures
        r == t.outcome,
        visit_at(f, t, r, t.regions.len() as int),
{
    let k = choose|k: int| #[trigger] visit_at(f, t, r, k);
    if k < t.regions.len() {
        let c = choose|c: ControlFlow<()>| #[trigger] call_ensures(f, (t.regions[k],), c) && (c is Break)
            == true;
        assert(c is Continue);
    }
}

/// A visitor that stops at its first region ends the query there: the query
/// succeeds whatever the rest of the blob holds, and only the first region
/// reaches the visitor.
pub proof fn lemma_stop_ends_query<F: FnMut((usize, usize)) -> ControlFlow<()>>(
    f: F,
    t: Trace,
    r: Result<(), DtbError>,
)
    requires
        always_stops(f),
        t.regions.len() > 0,
        visit_outcome(f, t, r),
    ensures
        r is Ok,
        forall|k: int| #[trigger] visit_at(f, t, r, k) ==> k == 0,
{
    assert forall|k: int| #[trigger] visit_at(f, t, r, k) implies k == 0 by {
        if k > 0 {
            assert(answered(f, t.regions[0], false));
            let c = choose|c: ControlFlow<()>| #[trigger] call_ensures(f, (t.regions[0],), c) && (c
                is Break) == false;
            assert(c is Break);
        }
    }
}

/// Cell counts are inherited: the root starts with two address cells and
/// one size cell, every other node starts with its parent's counts, and only
/// `#address-cells` and `#size-cells` change them. So a node that declares
/// neither uses its parent's counts, and hands them on to its children.
pub proof fn lemma_cells_inherited(
    b: Seq<u8>,
    q: Query,
    name: Seq<u8>,
    p: int,
    len: int,
    node: SimpleDeviceNode,
    parent: Option<SimpleDeviceNode>,
)
    requires
        name != PROP_ADDRESS_CELLS.spec_bytes(),
        name != PROP_SIZE_CELLS.spec_bytes(),
    ensures
        node_under(None).address_cells == 2,
        node_under(None).size_cells == 1,
        parent matches Some(up) ==> node_under(parent).address_cells == up.address_cells
            && node_under(parent).size_cells == up.size_cells,
        prop_effect(b, q, name, p, len, node, parent) matches Ok(n) ==> n.address_cells
            == node.address_cells && n.size_cells == node.size_cells,
{
}

/// Entering a child node pushes a node that starts with the counts of the
/// node it is entered under.
pub proof fn lemma_child_starts_with_parent_cells(
    b: Seq<u8>,
    strings: int,
    q: Query,
    pos: int,
    stack: Seq<SimpleDeviceNode>,
)
    requires
        stack.len() >= 1,
        0 <= pos <= b.len(),
        token_at(b, pos) == Some(FDT_BEGIN_NODE as int),
        enter_node(b, pos) is Ok,
    ensures
        run(b, strings, q, pos, stack, false) == run(
            b,
            strings,
            q,
            enter_node(b, pos)->Ok_0,
            stack.push(node_under(Some(stack.last()))),
            true,
        ),
{
}

/// After the root's end token the walk is over: it succeeds where the next
/// word of the structure block is the end token, and fails with
/// `TrailingGarbage` where it is anything else or the block has no room for
/// another token.
pub proof fn lemma_root_end(
    b: Seq<u8>,
    strings: int,
    q: Query,
    pos: int,
    stack: Seq<SimpleDeviceNode>,
)
    requires
        stack.len() == 1,
        0 <= pos <= b.len(),
        token_at(b, pos) == Some(FDT_END_NODE as int),
    ensures
        token_at(b, pos + 4) != Some(FDT_END as int) ==> run(b, strings, q, pos, stack, false)
            == fail(DtbError::TrailingGarbage),
        token_at(b, pos + 4) == Some(FDT_END as int) ==> run(
            b,
            strings,
            q,
            pos,
            stack,
            false,
        ).outcome is Ok && run(b, strings, q, pos, stack, false).regions.len() == 0,
{
}

/// A region that reaches past the end of a `ranges` window is refused: where
/// the cell counts fit a machine word and the payload holds a whole window,
/// a region whose end lies beyond the window's end yields `RangesOverflow`.
pub proof fn lemma_window_overflow(
    b: Seq<u8>,
    node: SimpleDeviceNode,
    parent: SimpleDeviceNode,
    a: int,
    l: int,
)
    requires
        node.ranges matches Some((p, len)) && len != 0 && (node.address_cells
            + parent.address_cells + node.size_cells) * 4 <= len && a + l > cells_value(
            b,
            p as int,
            node.address_cells as nat,
        ) + cells_value(
            b,
            p + 4 * (node.address_cells + parent.address_cells),
            node.size_cells as nat,
        ),
        node.address_cells <= max_cells(),
        parent.address_cells <= max_cells(),
        node.size_cells <= max_cells(),
    ensures
        window_step(b, node, parent, a, l) == Err::<int, DtbError>(DtbError::RangesOverflow),
{
}

/// The regions a matching node hands out are read from its `reg` with the
/// cell counts of its parent: the first region's length is the size field of
/// the entry that those counts delimit.
pub proof fn lemma_reg_read_with_parent_cells(b: Seq<u8>, stack: Seq<SimpleDeviceNode>, off: int)
    requires
        emits(stack),
        regions_at(b, stack, off).0.len() > 0,
    ensures
        read_entry(b, stack[stack.len() - 2], stack.last().reg.unwrap().0 + off) matches Ok((a, l))
            && regions_at(b, stack, off).0[0].1 == l as usize,
{
}

} // verus!
