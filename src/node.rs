//! The addressing context of one node of the walk.
use vstd::prelude::*;
use crate::error::DtbError;
use crate::header::Dtb;
use crate::model::{
    read_entry, entry_size, window_step, translate, max_cells, cells_value, compat_scan,
    device_type_match, prop_step, Query, PROP_ADDRESS_CELLS, PROP_SIZE_CELLS, PROP_COMPATIBLE,
    PROP_DEVICE_TYPE, PROP_REG, PROP_RANGES,
};
use crate::bytes::{read_be32, align_up4, find_nul, text_of, bytes_eq};
use crate::header::{FdtProperty, lemma_be32_bound, spec_off_dt_strings};
use crate::strings::CharStringIter;
use vstd::string::StringSliceAdditionalSpecFns;

verus! {

/// What the walk knows of a node while inside it: the cell counts its
/// children use, where its `reg` and `ranges` payloads lie (offset and
/// length), and whether one of its properties matched the query.
#[derive(Clone, Copy)]
pub struct SimpleDeviceNode {
    pub address_cells: u32,
    pub size_cells: u32,
    pub reg: Option<(usize, usize)>,
    pub ranges: Option<(usize, usize)>,
    pub matched: bool,
}

/// Whether the payloads that `node` records lie inside the blob `b`.
pub open spec fn node_in(b: Seq<u8>, node: SimpleDeviceNode) -> bool {
    &&& (node.reg matches Some((p, len)) ==> p + len <= b.len())
    &&& (node.ranges matches Some((p, len)) ==> p + len <= b.len())
}

/// `found`, or what the rest of a string list says, unless that failed.
pub open spec fn or_found(found: bool, r: Result<bool, DtbError>) -> Result<bool, DtbError> {
    match r {
        Ok(m) => Ok(found || m),
        Err(e) => Err(e),
    }
}

/// Whether the string list at `[p, p + len)` holds `target`.
pub fn compatible_matches(blob: &[u8], target: &[u8], p: usize, len: usize) -> (r: Result<
    bool,
    DtbError,
>)
    requires
        p + len <= blob@.len(),
    ensures
        r == compat_scan(blob@, target@, p as int, p + len),
{
    let mut it = CharStringIter::new(blob, p, len);
    let mut found = false;
    loop
        invariant
            it.wf(),
            it.bytes() == blob@,
            it.end() == p + len,
            p <= it.pos(),
            compat_scan(blob@, target@, p as int, p + len) == or_found(
                found,
                compat_scan(blob@, target@, it.pos(), it.end()),
            ),
        decreases it.end() - it.pos(),
    {
        let ghost before = it;
        match it.next_str() {
            None => {
                return Ok(found);
            },
            Some(Err(e)) => {
                return Err(e);
            },
            Some(Ok(s)) => {
                proof {
                    crate::bytes::lemma_cstr_len_bounds(blob@, before.pos(), before.end());
                }
                if bytes_eq(s.as_bytes(), target) {
                    found = true;
                }
            },
        }
    }
}

/// What the `device_type` value at `[p, p + len)` says of `target`.
pub fn device_type_matches(blob: &[u8], target: &[u8], p: usize, len: usize) -> (r: Result<
    bool,
    DtbError,
>)
    requires
        p + len <= blob@.len(),
    ensures
        r == device_type_match(blob@, target@, p as int, p + len),
{
    assert(blob@.len() == blob.len());
    match find_nul(blob, p, p + len) {
        None => Err(DtbError::InvalidPropertySize),
        Some(n) => match text_of(vstd::slice::slice_subrange(blob, p, n)) {
            None => Err(DtbError::Utf8DecodeError),
            Some(s) => Ok(bytes_eq(s.as_bytes(), target)),
        },
    }
}

/// A node as it is entered under `parent`: with the parent's cell counts
/// until it declares its own, or, for the root, two address cells and one
/// size cell.
pub open spec fn node_under(parent: Option<SimpleDeviceNode>) -> SimpleDeviceNode {
    match parent {
        Some(p) => SimpleDeviceNode {
            address_cells: p.address_cells,
            size_cells: p.size_cells,
            reg: None,
            ranges: None,
            matched: false,
        },
        None => SimpleDeviceNode {
            address_cells: 2,
            size_cells: 1,
            reg: None,
            ranges: None,
            matched: false,
        },
    }
}

impl SimpleDeviceNode {
    pub fn new(parent: Option<&SimpleDeviceNode>) -> (r: SimpleDeviceNode)
        ensures
            r == node_under(
                match parent {
                    Some(p) => Some(*p),
                    None => None,
                },
            ),
    {
        match parent {
            Some(p) => SimpleDeviceNode {
                address_cells: p.address_cells,
                size_cells: p.size_cells,
                reg: None,
                ranges: None,
                matched: false,
            },
            None => SimpleDeviceNode {
                address_cells: 2,
                size_cells: 1,
                reg: None,
                ranges: None,
                matched: false,
            },
        }
    }

    /// Interprets the property record whose token is at `*address`, updating
    /// this node and moving `*address` past the record's padded payload.
    pub fn parse_prop(
        &mut self,
        dtb: &Dtb,
        address: &mut usize,
        parent: Option<SimpleDeviceNode>,
        compatible: bool,
        target: &[u8],
    ) -> (r: Result<(), DtbError>)
        requires
            dtb.wf(),
            node_in(dtb.bytes(), *old(self)),
            *old(address) <= dtb.bytes().len(),
        ensures
            node_in(dtb.bytes(), *final(self)),
            match prop_step(
                dtb.bytes(),
                spec_off_dt_strings(dtb.bytes()),
                Query { compatible, target: target@ },
                *old(address) as int,
                *old(self),
                parent,
            ) {
                Ok((node, next)) => r is Ok && *final(self) == node && *final(address) == next,
                Err(e) => r == Err::<(), DtbError>(e),
            },
    {
        proof {
            dtb.lemma_len_fits();
        }
        let b = dtb.blob();
        if b.len() - *address < 12 {
            return Err(DtbError::OutOfBounds);
        }
        let hdr = *address + 4;
        let property = match FdtProperty::read(b, hdr) {
            Some(property) => property,
            None => {
                return Err(DtbError::OutOfBounds);
            },
        };
        let len = property.get_property_len() as usize;
        let payload = hdr + 8;
        if len > b.len() - payload {
            return Err(DtbError::OutOfBounds);
        }
        let padded = align_up4(len);
        if padded > b.len() - payload {
            return Err(DtbError::OutOfBounds);
        }
        let next = payload + padded;
        let strings = dtb.get_string_start_address();
        let name_offset = property.get_name_offset() as usize;
        if name_offset >= b.len() - strings {
            return Err(DtbError::OutOfBounds);
        }
        let name = dtb.read_char_str(strings + name_offset)?;
        let name = name.as_bytes();
        let mut node = *self;
        if bytes_eq(name, PROP_ADDRESS_CELLS.as_bytes()) {
            if len < 4 {
                return Err(DtbError::InvalidPropertySize);
            }
            proof {
                lemma_be32_bound(b@, payload as int);
            }
            node.address_cells = read_be32(b, payload);
        } else if bytes_eq(name, PROP_SIZE_CELLS.as_bytes()) {
            if len < 4 {
                return Err(DtbError::InvalidPropertySize);
            }
            proof {
                lemma_be32_bound(b@, payload as int);
            }
            node.size_cells = read_be32(b, payload);
        } else if bytes_eq(name, PROP_COMPATIBLE.as_bytes()) {
            if compatible {
                let m = compatible_matches(b, target, payload, len)?;
                node.matched = node.matched || m;
            }
        } else if bytes_eq(name, PROP_DEVICE_TYPE.as_bytes()) {
            if !compatible {
                let m = device_type_matches(b, target, payload, len)?;
                node.matched = node.matched || m;
            }
        } else if bytes_eq(name, PROP_REG.as_bytes()) {
            match parent {
                None => {
                    return Err(DtbError::RegAtRoot);
                },
                Some(parent) => {
                    if (parent.address_cells as u64 + parent.size_cells as u64) * 4 > len as u64 {
                        return Err(DtbError::InvalidPropertySize);
                    }
                },
            }
            node.reg = Some((payload, len));
        } else if bytes_eq(name, PROP_RANGES.as_bytes()) {
            node.ranges = Some((payload, len));
        }
        *self = node;
        *address = next;
        Ok(())
    }

    /// The `reg` entry at byte `offset` of this node's payload, decoded with
    /// the cell counts of `parent`.
    pub fn read_reg_internal(&self, dtb: &Dtb, parent: &SimpleDeviceNode, offset: usize) -> (r:
        Result<(usize, usize), DtbError>)
        requires
            node_in(dtb.bytes(), *self),
            self.reg matches Some((p, len)) && offset + entry_size(*parent) <= len,
        ensures
            match read_entry(dtb.bytes(), *parent, self.reg.unwrap().0 + offset) {
                Ok((a, l)) => r matches Ok((x, y)) && x == a && y == l,
                Err(e) => r == Err::<(usize, usize), DtbError>(e),
            },
    {
        proof {
            dtb.lemma_len_fits();
        }
        let (p, _len) = self.reg.unwrap();
        let at = p + offset;
        let address = dtb.read_regs(at, parent.address_cells)?;
        let size = dtb.read_regs(at + address.1, parent.size_cells)?;
        Ok((address.0, size.0))
    }

    /// The first window of this node's non-empty `ranges`: child-bus
    /// address, parent-bus address and window length.
    pub fn read_round_internal(&self, dtb: &Dtb, parent: &SimpleDeviceNode) -> (r: Result<
        Option<(usize, usize, usize)>,
        DtbError,
    >)
        requires
            node_in(dtb.bytes(), *self),
        ensures
            match self.ranges {
                None => r == Ok::<Option<(usize, usize, usize)>, DtbError>(None),
                Some((p, len)) => if len == 0 {
                    r == Ok::<Option<(usize, usize, usize)>, DtbError>(None)
                } else if self.address_cells > max_cells() || parent.address_cells > max_cells()
                    || self.size_cells > max_cells() {
                    r == Err::<Option<(usize, usize, usize)>, DtbError>(DtbError::CellsOverflow)
                } else if (self.address_cells + parent.address_cells + self.size_cells) * 4
                    > len {
                    r == Err::<Option<(usize, usize, usize)>, DtbError>(
                        DtbError::InvalidPropertySize,
                    )
                } else {
                    r matches Ok(Some((c, pb, w))) && c == cells_value(
                        dtb.bytes(),
                        p as int,
                        self.address_cells as nat,
                    ) && pb == cells_value(
                        dtb.bytes(),
                        p + 4 * self.address_cells,
                        parent.address_cells as nat,
                    ) && w == cells_value(
                        dtb.bytes(),
                        p + 4 * (self.address_cells + parent.address_cells),
                        self.size_cells as nat,
                    )
                },
            },
    {
        proof {
            dtb.lemma_len_fits();
        }
        match self.ranges {
            None => Ok(None),
            Some((p, len)) => {
                if len == 0 {
                    return Ok(None);
                }
                let max = (usize::BITS / 32) as u64;
                if self.address_cells as u64 > max || parent.address_cells as u64 > max
                    || self.size_cells as u64 > max {
                    return Err(DtbError::CellsOverflow);
                }
                let need = (self.address_cells as u64 + parent.address_cells as u64
                    + self.size_cells as u64) * 4;
                if need > len as u64 {
                    return Err(DtbError::InvalidPropertySize);
                }
                let child_address = dtb.read_regs(p, self.address_cells)?;
                let parent_address = dtb.read_regs(p + child_address.1, parent.address_cells)?;
                let parent_len = dtb.read_regs(
                    p + child_address.1 + parent_address.1,
                    self.size_cells,
                )?;
                Ok(Some((child_address.0, parent_address.0, parent_len.0)))
            },
        }
    }

    /// Carries the region `(address, length)`, given in the space of this
    /// node's children, through this node's `ranges` into `parent`'s space.
    pub fn calculate_address_step(
        &self,
        dtb: &Dtb,
        parent: &SimpleDeviceNode,
        address: usize,
        length: usize,
    ) -> (r: Result<usize, DtbError>)
        requires
            node_in(dtb.bytes(), *self),
        ensures
            match window_step(dtb.bytes(), *self, *parent, address as int, length as int) {
                Ok(a) => r matches Ok(x) && x == a,
                Err(e) => r == Err::<usize, DtbError>(e),
            },
    {
        match self.read_round_internal(dtb, parent)? {
            None => Ok(address),
            Some((child_bus, parent_bus, window)) => {
                if address < child_bus || length > window || address - child_bus > window
                    - length {
                    return Err(DtbError::RangesOverflow);
                }
                if address - child_bus > usize::MAX - parent_bus {
                    return Err(DtbError::RangesOverflow);
                }
                Ok(address - child_bus + parent_bus)
            },
        }
    }
}

/// Carries the region `(address, length)` of the innermost node of `stack`
/// through the `ranges` of that node and of each of its ancestors below the
/// root, up to the root's space.
pub fn calculate_address_internal(
    dtb: &Dtb,
    stack: &Vec<SimpleDeviceNode>,
    address: usize,
    length: usize,
) -> (r: Result<usize, DtbError>)
    requires
        stack@.len() >= 1,
        forall|i: int| 0 <= i < stack@.len() ==> node_in(dtb.bytes(), #[trigger] stack@[i]),
    ensures
        match translate(dtb.bytes(), stack@, stack@.len() - 1, address as int, length as int) {
            Ok(a) => r matches Ok(x) && x == a,
            Err(e) => r == Err::<usize, DtbError>(e),
        },
{
    let mut k: usize = stack.len() - 1;
    let mut a: usize = address;
    while k > 0
        invariant
            k < stack@.len(),
            forall|i: int| 0 <= i < stack@.len() ==> node_in(dtb.bytes(), #[trigger] stack@[i]),
            translate(dtb.bytes(), stack@, stack@.len() - 1, address as int, length as int)
                == translate(dtb.bytes(), stack@, k as int, a as int, length as int),
        decreases k,
    {
        a = stack[k].calculate_address_step(dtb, &stack[k - 1], a, length)?;
        k = k - 1;
    }
    Ok(a)
}

} // verus!
