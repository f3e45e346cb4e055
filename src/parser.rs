//! The two queries of the boot path: find the nodes whose `device_type` or
//! `compatible` matches, and hand each of their regions, translated to
//! physical addresses, to a visitor.
use vstd::prelude::*;
use vstd::string::StringSliceAdditionalSpecFns;
use core::ops::ControlFlow;
use crate::bytes::{read_be32, align_up4, find_nul, text_of};
use crate::error::DtbError;
use crate::header::{
    Dtb, header_check, spec_off_dt_struct, spec_size_dt_struct,
    spec_off_dt_strings,
};
use crate::model::{
    Trace, Query, search, run, emit_then, regions_at, token_at, skip_nops, enter_node, prepend, fail,
    emits, parent_of, FDT_BEGIN_NODE, FDT_END_NODE, FDT_PROP, FDT_NOP, FDT_END,
};
use crate::node::{SimpleDeviceNode, node_in, node_under, calculate_address_internal};

verus! {

/// Whether the visitor `f` may answer `region` with a stop (`stop`) or with
/// a continue (`!stop`).
pub open spec fn answered<F: FnMut((usize, usize)) -> ControlFlow<()>>(
    f: F,
    region: (usize, usize),
    stop: bool,
) -> bool {
    exists|c: ControlFlow<()>| #[trigger] call_ensures(f, (region,), c) && (c is Break) == stop
}

/// The visitor went on after each of the first `k` regions of `t`; then it
/// stopped at region `k`, and the query succeeded, or there was no region
/// `k` and the query ended as the walk does.
pub open spec fn visit_at<F: FnMut((usize, usize)) -> ControlFlow<()>>(
    f: F,
    t: Trace,
    r: Result<(), DtbError>,
    k: int,
) -> bool {
    &&& 0 <= k <= t.regions.len()
    &&& forall|i: int| 0 <= i < k ==> answered(f, #[trigger] t.regions[i], false)
    &&& if k < t.regions.len() {
        answered(f, t.regions[k], true) && r is Ok
    } else {
        r == t.outcome
    }
}

/// How a query that hands the regions of `t` to `f` may end with `r`.
pub open spec fn visit_outcome<F: FnMut((usize, usize)) -> ControlFlow<()>>(
    f: F,
    t: Trace,
    r: Result<(), DtbError>,
) -> bool {
    exists|k: int| #[trigger] visit_at(f, t, r, k)
}

/// Whether a query names both or neither of its two keys.
pub open spec fn ambiguous(device_name: Option<&str>, compatible_name: Option<&str>) -> bool {
    (device_name is Some) == (compatible_name is Some)
}

/// The query that a `device_type` or a `compatible` key stands for.
pub open spec fn query_of(device_name: Option<&str>, compatible_name: Option<&str>) -> Query {
    match compatible_name {
        Some(c) => Query { compatible: true, target: c.spec_bytes() },
        None => Query { compatible: false, target: device_name.unwrap().spec_bytes() },
    }
}

proof fn lemma_prepend_empty(t: Trace)
    ensures
        prepend(Seq::empty(), t) == t,
{
    assert(Seq::<(usize, usize)>::empty() + t.regions =~= t.regions);
}

proof fn lemma_prepend_push(handed: Seq<(usize, usize)>, region: (usize, usize), t: Trace)
    ensures
        prepend(handed, prepend(seq![region], t)) == prepend(handed.push(region), t),
{
    assert(handed + (seq![region] + t.regions) =~= handed.push(region) + t.regions);
}

/// A query that ends after the visitor went on past every region handed out.
proof fn lemma_end_with<F: FnMut((usize, usize)) -> ControlFlow<()>>(
    f: F,
    t: Trace,
    handed: Seq<(usize, usize)>,
    tail: Trace,
    r: Result<(), DtbError>,
)
    requires
        t == prepend(handed, tail),
        tail.regions.len() == 0,
        r == tail.outcome,
        forall|i: int| 0 <= i < handed.len() ==> answered(f, #[trigger] handed[i], false),
    ensures
        visit_outcome(f, t, r),
{
    assert(t.regions =~= handed);
    assert(visit_at(f, t, r, handed.len() as int));
}

/// A query that ends because the visitor stopped at `region`.
proof fn lemma_stop_at<F: FnMut((usize, usize)) -> ControlFlow<()>>(
    f: F,
    t: Trace,
    handed: Seq<(usize, usize)>,
    region: (usize, usize),
    tail: Trace,
)
    requires
        t == prepend(handed, prepend(seq![region], tail)),
        answered(f, region, true),
        forall|i: int| 0 <= i < handed.len() ==> answered(f, #[trigger] handed[i], false),
    ensures
        visit_outcome(f, t, Ok(())),
{
    assert(t.regions[handed.len() as int] == region);
    assert forall|i: int| 0 <= i < handed.len() implies answered(f, #[trigger] t.regions[i], false) by {
        assert(t.regions[i] == handed[i]);
    }
    assert(visit_at(f, t, Ok(()), handed.len() as int));
}

/// Where the walk stands inside the innermost open node.
enum Phase {
    Props,
    Emit(usize),
    Children,
}

/// What the walk still yields from a position, a stack of open nodes and a
/// phase.
spec fn rest(b: Seq<u8>, q: Query, pos: int, stack: Seq<SimpleDeviceNode>, phase: Phase) -> Trace {
    match phase {
        Phase::Props => run(b, spec_off_dt_strings(b), q, pos, stack, true),
        Phase::Children => run(b, spec_off_dt_strings(b), q, pos, stack, false),
        Phase::Emit(off) => emit_then(b, spec_off_dt_strings(b), q, pos, stack, off as int),
    }
}

/// What one step of the walk did.
enum Step {
    /// Moved on, handing nothing out.
    Moved,
    /// Moved on past a region to hand out.
    Region((usize, usize)),
    /// Ended the walk.
    Finished(Result<(), DtbError>),
}

/// A state of the walk that fits the blob.
spec fn walk_state(b: Seq<u8>, pos: int, stack: Seq<SimpleDeviceNode>, phase: Phase) -> bool {
    &&& 0 <= pos <= b.len()
    &&& stack.len() >= 1
    &&& forall|i: int| 0 <= i < stack.len() ==> node_in(b, #[trigger] stack[i])
    &&& phase matches Phase::Emit(off) ==> emits(stack) && off <= stack.last().reg.unwrap().1
}

/// The second state is closer to the end of the walk than the first.
spec fn closer(
    b: Seq<u8>,
    pos0: int,
    stack0: Seq<SimpleDeviceNode>,
    phase0: Phase,
    pos1: int,
    stack1: Seq<SimpleDeviceNode>,
    phase1: Phase,
) -> bool {
    ||| pos0 < pos1
    ||| pos0 == pos1 && phase_rank(phase1) < phase_rank(phase0)
    ||| pos0 == pos1 && phase_rank(phase1) == phase_rank(phase0) && 0 <= emit_left(stack1, phase1)
        < emit_left(stack0, phase0)
}

/// What a step that went from one state to another, with outcome `s`,
/// keeps of the walk.
spec fn step_ok(
    b: Seq<u8>,
    q: Query,
    pos0: int,
    stack0: Seq<SimpleDeviceNode>,
    phase0: Phase,
    pos1: int,
    stack1: Seq<SimpleDeviceNode>,
    phase1: Phase,
    s: Step,
) -> bool {
    match s {
        Step::Moved => {
            &&& walk_state(b, pos1, stack1, phase1)
            &&& closer(b, pos0, stack0, phase0, pos1, stack1, phase1)
            &&& rest(b, q, pos0, stack0, phase0) == rest(b, q, pos1, stack1, phase1)
        },
        Step::Region(region) => {
            &&& walk_state(b, pos1, stack1, phase1)
            &&& closer(b, pos0, stack0, phase0, pos1, stack1, phase1)
            &&& rest(b, q, pos0, stack0, phase0) == prepend(
                seq![region],
                rest(b, q, pos1, stack1, phase1),
            )
        },
        Step::Finished(r) => {
            &&& rest(b, q, pos0, stack0, phase0).regions.len() == 0
            &&& rest(b, q, pos0, stack0, phase0).outcome == r
        },
    }
}

spec fn phase_rank(phase: Phase) -> int {
    match phase {
        Phase::Props => 2,
        Phase::Emit(_) => 1,
        Phase::Children => 0,
    }
}

spec fn emit_left(stack: Seq<SimpleDeviceNode>, phase: Phase) -> int {
    match phase {
        Phase::Emit(off) => if emits(stack) {
            stack.last().reg.unwrap().1 - off
        } else {
            0
        },
        _ => 0,
    }
}

/// A reader of one devicetree blob.
pub struct DtbParser<'a> {
    dtb_header: Dtb<'a>,
}

impl<'a> DtbParser<'a> {
    #[verifier::type_invariant]
    spec fn inv(&self) -> bool {
        self.dtb_header.wf()
    }

    /// The blob this parser reads.
    pub closed spec fn bytes(&self) -> Seq<u8> {
        self.dtb_header.bytes()
    }

    /// Checks the blob's header; a parser exists only for a blob that passes.
    pub fn init(blob: &'a [u8]) -> (r: Result<DtbParser<'a>, DtbError>)
        ensures
            match header_check(blob@) {
                Ok(()) => r matches Ok(p) && p.bytes() == blob@,
                Err(e) => r == Err::<DtbParser<'a>, DtbError>(e),
            },
    {
        let dtb = Dtb::new(blob)?;
        Ok(DtbParser { dtb_header: dtb })
    }

    /// The header accessor of the blob.
    pub fn header(&self) -> (r: &Dtb<'a>)
        ensures
            r.wf(),
            r.bytes() == self.bytes(),
    {
        proof {
            use_type_invariant(self);
        }
        &self.dtb_header
    }

    /// The token word at `pos`, where four bytes of the structure block
    /// remain there.
    fn get_types(&self, pos: usize) -> (r: Option<u32>)
        ensures
            match token_at(self.bytes(), pos as int) {
                Some(t) => r matches Some(x) && x == t,
                None => r is None,
            },
    {
        proof {
            use_type_invariant(self);
        }
        let b = self.dtb_header.blob();
        let end = self.dtb_header.get_struct_end_address();
        if pos > end || end - pos < 4 {
            None
        } else {
            Some(read_be32(b, pos))
        }
    }

    /// Moves `*address` past NOP tokens, staying below the structure block's end.
    fn skip_nop(&self, address: &mut usize)
        requires
            *old(address) <= self.bytes().len(),
        ensures
            *final(address) == skip_nops(
                self.bytes(),
                *old(address) as int,
                spec_off_dt_struct(self.bytes()) + spec_size_dt_struct(self.bytes()),
            ),
            *final(address) <= self.bytes().len(),
    {
        proof {
            use_type_invariant(self);
            self.dtb_header.lemma_len_fits();
        }
        let end = self.dtb_header.get_struct_end_address();
        let ghost end_i = end as int;
        let mut pos = *address;
        let mut more = true;
        while more && pos < end
            invariant
                pos <= self.bytes().len(),
                self.bytes().len() <= usize::MAX,
                end_i == end,
                end == spec_off_dt_struct(self.bytes()) + spec_size_dt_struct(self.bytes()),
                skip_nops(self.bytes(), *old(address) as int, end_i) == skip_nops(
                    self.bytes(),
                    pos as int,
                    end_i,
                ),
                !more ==> skip_nops(self.bytes(), pos as int, end_i) == pos,
            decreases self.bytes().len() - pos, if more { 1int } else { 0int },
        {
            match self.get_types(pos) {
                Some(t) if t == FDT_NOP => {
                    pos = pos + 4;
                },
                _ => {
                    more = false;
                },
            }
        }
        *address = pos;
    }

    /// Walks the blob in document order and hands each region of each node
    /// that matches the query, translated to a physical address, to `f`,
    /// until `f` answers with a break. Exactly one of `device_name` and
    /// `compatible_name` must be given.
    pub fn find_node<F>(
        &self,
        device_name: Option<&str>,
        compatible_name: Option<&str>,
        f: &mut F,
    ) -> (r: Result<(), DtbError>) where F: FnMut((usize, usize)) -> ControlFlow<()>
        requires
            forall|a: (usize, usize)| call_requires(*old(f), (a,)),
        ensures
            *final(f) == *old(f),
            ambiguous(device_name, compatible_name) ==> r == Err::<(), DtbError>(
                DtbError::AmbiguousOrEmptyPredicate,
            ),
            !ambiguous(device_name, compatible_name) ==> visit_outcome(
                *old(f),
                search(self.bytes(), query_of(device_name, compatible_name)),
                r,
            ),
    {
        if device_name.is_some() && compatible_name.is_some() || device_name.is_none()
            && compatible_name.is_none() {
            return Err(DtbError::AmbiguousOrEmptyPredicate);
        }
        let compatible = compatible_name.is_some();
        let target: &[u8] = match compatible_name {
            Some(c) => c.as_bytes(),
            None => match device_name {
                Some(d) => d.as_bytes(),
                None => {
                    return Err(DtbError::AmbiguousOrEmptyPredicate);
                },
            },
        };
        self.walk(compatible, target, f)
    }

    /// Finds the root node: the position after its padded name.
    fn open_root(&self) -> (r: Result<usize, DtbError>)
        ensures
            match r {
                Ok(pos) => pos <= self.bytes().len() && forall|q: Query|
                    #[trigger] search(self.bytes(), q) == run(
                        self.bytes(),
                        spec_off_dt_strings(self.bytes()),
                        q,
                        pos as int,
                        seq![node_under(None)],
                        true,
                    ),
                Err(e) => forall|q: Query| #[trigger] search(self.bytes(), q) == fail(e),
            },
    {
        proof {
            use_type_invariant(self);
        }
        let mut pos = self.dtb_header.get_struct_start_address();
        self.skip_nop(&mut pos);
        match self.get_types(pos) {
            Some(tk) if tk == FDT_BEGIN_NODE => {},
            _ => {
                return Err(DtbError::ExpectedBeginNode);
            },
        }
        self.enter_node(pos)
    }

    /// Runs the query for `target` (a `compatible` entry when `compatible`,
    /// else a `device_type` value), handing regions to `f`.
    fn walk<F>(&self, compatible: bool, target: &[u8], f: &mut F) -> (r: Result<(), DtbError>) where
        F: FnMut((usize, usize)) -> ControlFlow<()>,
        requires
            forall|a: (usize, usize)| call_requires(*old(f), (a,)),
        ensures
            *final(f) == *old(f),
            visit_outcome(
                *old(f),
                search(self.bytes(), Query { compatible, target: target@ }),
                r,
            ),
    {
        broadcast use vstd::function::group_function_axioms;

        let ghost q = Query { compatible, target: target@ };
        let ghost b = self.bytes();
        let ghost t = search(b, q);
        let ghost f0 = *f;
        let mut pos = match self.open_root() {
            Ok(pos) => pos,
            Err(e) => {
                proof {
                    assert(t == fail(e));
                    lemma_prepend_empty(t);
                    lemma_end_with(f0, t, Seq::empty(), t, Err(e));
                }
                return Err(e);
            },
        };
        let mut stack: Vec<SimpleDeviceNode> = Vec::new();
        stack.push(SimpleDeviceNode::new(None));
        let mut phase = Phase::Props;
        let ghost mut handed: Seq<(usize, usize)> = Seq::empty();
        proof {
            assert(stack@ =~= seq![node_under(None)]);
            assert(t == run(b, spec_off_dt_strings(b), q, pos as int, stack@, true));
            lemma_prepend_empty(t);
        }
        loop
            invariant
                self.bytes() == b,
                f0 == *old(f),
                q == (Query { compatible, target: target@ }),
                t == search(b, q),
                walk_state(b, pos as int, stack@, phase),
                t == prepend(handed, rest(b, q, pos as int, stack@, phase)),
                *f == f0,
                forall|a: (usize, usize)| call_requires(f0, (a,)),
                forall|i: int| 0 <= i < handed.len() ==> answered(f0, #[trigger] handed[i], false),
            decreases b.len() - pos, phase_rank(phase), emit_left(stack@, phase),
        {
            let ghost tail = rest(b, q, pos as int, stack@, phase);
            match self.step(&mut pos, &mut stack, &mut phase, compatible, target) {
                Step::Moved => {},
                Step::Finished(r) => {
                    proof {
                        lemma_end_with(f0, t, handed, tail, r);
                    }
                    return r;
                },
                Step::Region(region) => {
                    let ghost after = rest(b, q, pos as int, stack@, phase);
                    let c = f(region);
                    match c {
                        ControlFlow::Break(_) => {
                            proof {
                                assert(answered(f0, region, true));
                                lemma_stop_at(f0, t, handed, region, after);
                            }
                            return Ok(());
                        },
                        ControlFlow::Continue(_) => {
                            proof {
                                assert(answered(f0, region, false));
                                lemma_prepend_push(handed, region, after);
                                handed = handed.push(region);
                            }
                        },
                    }
                },
            }
        }
    }

    /// One step of the walk.
    fn step(
        &self,
        pos: &mut usize,
        stack: &mut Vec<SimpleDeviceNode>,
        phase: &mut Phase,
        compatible: bool,
        target: &[u8],
    ) -> (s: Step)
        requires
            walk_state(self.bytes(), *old(pos) as int, old(stack)@, *old(phase)),
        ensures
            step_ok(
                self.bytes(),
                Query { compatible, target: target@ },
                *old(pos) as int,
                old(stack)@,
                *old(phase),
                *final(pos) as int,
                final(stack)@,
                *final(phase),
                s,
            ),
    {
        match *phase {
            Phase::Props => self.step_props(pos, stack, phase, compatible, target),
            Phase::Emit(off) => self.step_emit(pos, stack, phase, off, compatible, target),
            Phase::Children => self.step_children(pos, stack, phase, compatible, target),
        }
    }

    /// One step among the properties of the innermost node.
    fn step_props(
        &self,
        pos: &mut usize,
        stack: &mut Vec<SimpleDeviceNode>,
        phase: &mut Phase,
        compatible: bool,
        target: &[u8],
    ) -> (s: Step)
        requires
            walk_state(self.bytes(), *old(pos) as int, old(stack)@, *old(phase)),
            *old(phase) is Props,
        ensures
            step_ok(
                self.bytes(),
                Query { compatible, target: target@ },
                *old(pos) as int,
                old(stack)@,
                *old(phase),
                *final(pos) as int,
                final(stack)@,
                *final(phase),
                s,
            ),
    {
        proof {
            use_type_invariant(self);
            self.dtb_header.lemma_len_fits();
        }
        let ghost b = self.bytes();
        let ghost q = Query { compatible, target: target@ };
        let ghost pos0 = *pos as int;
        let ghost stack0 = stack@;
        let last = stack.len() - 1;
        match self.get_types(*pos) {
            Some(tk) if tk == FDT_NOP => {
                *pos = *pos + 4;
                assert(step_ok(b, q, pos0, stack0, Phase::Props, *pos as int, stack@, *phase, Step::Moved));
                Step::Moved
            },
            Some(tk) if tk == FDT_PROP => {
                let mut node = stack[last];
                let parent = if last >= 1 {
                    Some(stack[last - 1])
                } else {
                    None
                };
                assert(parent == parent_of(stack@));
                match node.parse_prop(&self.dtb_header, pos, parent, compatible, target) {
                    Ok(()) => {},
                    Err(e) => {
                        return Step::Finished(Err(e));
                    },
                }
                stack.set(last, node);
                assert forall|i: int| 0 <= i < stack@.len() implies node_in(b, #[trigger] stack@[i]) by {
                    if i != last {
                        assert(stack@[i] == old(stack)@[i]);
                    }
                }
                assert(stack@ == stack0.update(last as int, node));
                assert(rest(b, q, pos0, stack0, Phase::Props) == rest(b, q, *pos as int, stack@, Phase::Props));
                assert(step_ok(b, q, pos0, stack0, Phase::Props, *pos as int, stack@, *phase, Step::Moved));
                Step::Moved
            },
            Some(tk) if tk == FDT_BEGIN_NODE || tk == FDT_END_NODE => {
                let node = stack[last];
                if last >= 1 && node.matched && node.reg.is_some() {
                    *phase = Phase::Emit(0);
                    assert(step_ok(b, q, pos0, stack0, Phase::Props, *pos as int, stack@, *phase, Step::Moved));
                } else {
                    proof {
                        lemma_prepend_empty(
                            run(b, spec_off_dt_strings(b), q, *pos as int, stack@, false),
                        );
                    }
                    *phase = Phase::Children;
                    assert(step_ok(b, q, pos0, stack0, Phase::Props, *pos as int, stack@, *phase, Step::Moved));
                }
                Step::Moved
            },
            _ => Step::Finished(Err(DtbError::UnexpectedToken)),
        }
    }

    /// One step handing out the regions of the innermost node.
    fn step_emit(
        &self,
        pos: &mut usize,
        stack: &mut Vec<SimpleDeviceNode>,
        phase: &mut Phase,
        off: usize,
        compatible: bool,
        target: &[u8],
    ) -> (s: Step)
        requires
            walk_state(self.bytes(), *old(pos) as int, old(stack)@, *old(phase)),
            *old(phase) == Phase::Emit(off),
        ensures
            step_ok(
                self.bytes(),
                Query { compatible, target: target@ },
                *old(pos) as int,
                old(stack)@,
                *old(phase),
                *final(pos) as int,
                final(stack)@,
                *final(phase),
                s,
            ),
    {
        proof {
            use_type_invariant(self);
            self.dtb_header.lemma_len_fits();
        }
        let ghost b = self.bytes();
        let ghost q = Query { compatible, target: target@ };
        let ghost strings = spec_off_dt_strings(b);
        let last = stack.len() - 1;
        let node = stack[last];
        let parent = stack[last - 1];
        let (_p, len) = node.reg.unwrap();
        let esz = (parent.address_cells as u64 + parent.size_cells as u64) * 4;
        if esz == 0 || off == len {
            proof {
                lemma_prepend_empty(run(b, strings, q, *pos as int, stack@, false));
            }
            *phase = Phase::Children;
            return Step::Moved;
        }
        if esz > (len - off) as u64 {
            return Step::Finished(Err(DtbError::InvalidPropertySize));
        }
        let entry = match node.read_reg_internal(&self.dtb_header, &parent, off) {
            Ok(entry) => entry,
            Err(e) => {
                return Step::Finished(Err(e));
            },
        };
        let address = match calculate_address_internal(&self.dtb_header, stack, entry.0, entry.1) {
            Ok(address) => address,
            Err(e) => {
                return Step::Finished(Err(e));
            },
        };
        let region = (address, entry.1);
        let next_off = off + esz as usize;
        proof {
            let rs = regions_at(b, stack@, next_off as int);
            let tail = run(b, strings, q, *pos as int, stack@, false);
            assert(seq![region] + (rs.0 + tail.regions) =~= (seq![region] + rs.0) + tail.regions);
        }
        *phase = Phase::Emit(next_off);
        Step::Region(region)
    }

    /// One step among the children of the innermost node.
    fn step_children(
        &self,
        pos: &mut usize,
        stack: &mut Vec<SimpleDeviceNode>,
        phase: &mut Phase,
        compatible: bool,
        target: &[u8],
    ) -> (s: Step)
        requires
            walk_state(self.bytes(), *old(pos) as int, old(stack)@, *old(phase)),
            *old(phase) is Children,
        ensures
            step_ok(
                self.bytes(),
                Query { compatible, target: target@ },
                *old(pos) as int,
                old(stack)@,
                *old(phase),
                *final(pos) as int,
                final(stack)@,
                *final(phase),
                s,
            ),
    {
        proof {
            use_type_invariant(self);
            self.dtb_header.lemma_len_fits();
        }
        let ghost b = self.bytes();
        let last = stack.len() - 1;
        match self.get_types(*pos) {
            Some(tk) if tk == FDT_NOP => {
                *pos = *pos + 4;
                Step::Moved
            },
            Some(tk) if tk == FDT_BEGIN_NODE => {
                *pos = match self.enter_node(*pos) {
                    Ok(next) => next,
                    Err(e) => {
                        return Step::Finished(Err(e));
                    },
                };
                let child = SimpleDeviceNode::new(Some(&stack[last]));
                stack.push(child);
                *phase = Phase::Props;
                assert forall|i: int| 0 <= i < stack@.len() implies node_in(b, #[trigger] stack@[i]) by {
                    if i < last + 1 {
                        assert(stack@[i] == old(stack)@[i]);
                    }
                }
                Step::Moved
            },
            Some(tk) if tk == FDT_END_NODE => {
                if last == 0 {
                    return match self.get_types(*pos + 4) {
                        Some(tk) if tk == FDT_END => Step::Finished(Ok(())),
                        _ => Step::Finished(Err(DtbError::TrailingGarbage)),
                    };
                }
                stack.pop();
                *pos = *pos + 4;
                assert(stack@ =~= old(stack)@.drop_last());
                assert forall|i: int| 0 <= i < stack@.len() implies node_in(b, #[trigger] stack@[i]) by {
                    assert(stack@[i] == old(stack)@[i]);
                }
                Step::Moved
            },
            _ => Step::Finished(Err(DtbError::UnexpectedToken)),
        }
    }

    /// Enters the node whose begin token is at `pos`: the position after its
    /// padded name.
    fn enter_node(&self, pos: usize) -> (r: Result<usize, DtbError>)
        requires
            token_at(self.bytes(), pos as int) is Some,
        ensures
            match enter_node(self.bytes(), pos as int) {
                Ok(next) => r matches Ok(x) && x == next,
                Err(e) => r == Err::<usize, DtbError>(e),
            },
    {
        let b = self.dtb_header.blob();
        proof {
            self.dtb_header.lemma_len_fits();
        }
        let name = pos + 4;
        match find_nul(b, name, b.len()) {
            None => Err(DtbError::OutOfBounds),
            Some(n) => {
                if text_of(vstd::slice::slice_subrange(b, name, n)).is_none() {
                    return Err(DtbError::Utf8DecodeError);
                }
                let padded = align_up4(n - name + 1);
                if padded > b.len() - name {
                    return Err(DtbError::OutOfBounds);
                }
                Ok(name + padded)
            },
        }
    }
}

} // verus!
