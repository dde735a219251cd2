//! The address codec: how a node location is packed into the six bytes that
//! a node stores for each child and for its parent.
//!
//! Byte 0 is the file tag (zero marks the null pointer), byte 1 the info
//! byte (size class in the two high bits, edge-skip distance in the six low
//! bits), bytes 2..6 the address, big-endian. An address is a page
//! identifier in its twenty high bits and a byte offset in its twelve low
//! bits.
use vstd::prelude::*;

verus! {

/// Bytes in a page.
pub const PAGE_SIZE: u16 = 4096;

/// Bytes at the front of each page that hold no slot.
pub const PAGE_META_SIZE: u16 = 128;

/// Pages that a twenty-bit page identifier can name; identifier zero is
/// kept for the null address.
pub const MAX_PAGES: u32 = 0xF_FFFF;

/// Bytes of a packed pointer.
pub const POINTER_SIZE: u16 = 6;

/// Tag byte of the null pointer.
pub const NULL_PTR: u8 = 0;

/// Tag byte of a pointer into an index page.
pub const INDEX_TYPE: u8 = 1;

/// Tag byte of a pointer into a data page.
pub const DATA_TYPE: u8 = 2;

/// Wire size of a node of the smallest class.
pub const NODE4_SIZE: u16 = 64;

/// Wire size of a node with sixteen child slots.
pub const NODE16_SIZE: u16 = 192;

/// Wire size of a node with forty-eight child slots.
pub const NODE48_SIZE: u16 = 576;

/// Wire size of a node with one child slot per byte value.
pub const NODE256_SIZE: u16 = 1600;

/// Largest edge-skip distance that the info byte can hold.
pub const MAX_DISTANCE: u8 = 63;

/// Offset of the info byte inside a packed pointer.
pub const NODE_INFO_OFFSET: usize = 1;

/// Offset of the address inside a packed pointer.
pub const ADDR_OFFSET: usize = 2;

/// The four node size classes.
#[derive(Clone, Copy, Debug, PartialEq, Eq, Structural)]
pub enum NodeType {
    N4,
    N16,
    N48,
    N256,
}

impl NodeType {
    /// The two-bit number that stands for the class in an info byte.
    pub open spec fn spec_code(self) -> u8 {
        match self {
            NodeType::N4 => 0,
            NodeType::N16 => 1,
            NodeType::N48 => 2,
            NodeType::N256 => 3,
        }
    }

    /// Bytes that a node of the class takes in a page.
    pub open spec fn spec_size(self) -> u16 {
        match self {
            NodeType::N4 => NODE4_SIZE,
            NodeType::N16 => NODE16_SIZE,
            NodeType::N48 => NODE48_SIZE,
            NodeType::N256 => NODE256_SIZE,
        }
    }

    /// Number of children that a node of the class can hold.
    pub open spec fn spec_capacity(self) -> nat {
        match self {
            NodeType::N4 => 4,
            NodeType::N16 => 16,
            NodeType::N48 => 48,
            NodeType::N256 => 256,
        }
    }

    /// The class that stands for a two-bit number; numbers above three
    /// count as the smallest class.
    pub open spec fn spec_from_code(code: u8) -> NodeType {
        if code == 1 {
            NodeType::N16
        } else if code == 2 {
            NodeType::N48
        } else if code == 3 {
            NodeType::N256
        } else {
            NodeType::N4
        }
    }

    /// The two-bit number that stands for the class in an info byte.
    pub fn code(self) -> (c: u8)
        ensures
            c == self.spec_code(),
            c < 4,
    {
        match self {
            NodeType::N4 => 0,
            NodeType::N16 => 1,
            NodeType::N48 => 2,
            NodeType::N256 => 3,
        }
    }

    /// Bytes that a node of the class takes in a page.
    pub fn size(self) -> (s: u16)
        ensures
            s == self.spec_size(),
            s == 64 || s == 192 || s == 576 || s == 1600,
    {
        match self {
            NodeType::N4 => NODE4_SIZE,
            NodeType::N16 => NODE16_SIZE,
            NodeType::N48 => NODE48_SIZE,
            NodeType::N256 => NODE256_SIZE,
        }
    }

    /// Number of children that a node of the class can hold.
    pub fn capacity(self) -> (n: usize)
        ensures
            n == self.spec_capacity(),
    {
        match self {
            NodeType::N4 => 4,
            NodeType::N16 => 16,
            NodeType::N48 => 48,
            NodeType::N256 => 256,
        }
    }

    /// The class that stands for a two-bit number; numbers above three
    /// count as the smallest class.
    pub fn from_code(code: u8) -> (t: NodeType)
        ensures
            t == NodeType::spec_from_code(code),
    {
        if code == 1 {
            NodeType::N16
        } else if code == 2 {
            NodeType::N48
        } else if code == 3 {
            NodeType::N256
        } else {
            NodeType::N4
        }
    }
}

/// The edge-skip distance of an info byte: its six low bits.
pub open spec fn spec_distance(info: u8) -> u8 {
    (info % 64) as u8
}

/// The class number of an info byte: its two high bits.
pub open spec fn spec_type_code(info: u8) -> u8 {
    (info / 64) as u8
}

/// The info byte of a distance below 64 and a class number below 4.
pub open spec fn spec_node_info(distance: u8, tp: u8) -> u8 {
    (tp * 64 + distance) as u8
}

/// The address of a page identifier and an offset inside the page.
pub open spec fn spec_pointer_addr(idx: u32, offset: u32) -> u32 {
    (idx * 4096 + offset) as u32
}

/// The page identifier of an address.
pub open spec fn spec_page_of(addr: u32) -> u32 {
    addr / 4096
}

/// The offset of an address inside its page.
pub open spec fn spec_offset_of(addr: u32) -> u32 {
    addr % 4096
}

/// The number that four bytes spell, most significant byte first.
pub open spec fn spec_be_u32(b0: u8, b1: u8, b2: u8, b3: u8) -> u32 {
    (b0 * 0x100_0000 + b1 * 0x1_0000 + b2 * 0x100 + b3) as u32
}

/// The edge-skip distance of an info byte: its six low bits.
pub fn get_distance_from_info(info: u8) -> (d: u8)
    ensures
        d == spec_distance(info),
        d <= MAX_DISTANCE,
{
    let d: u8 = info & 0x3F;
    assert(info & 0x3F == info % 64) by (bit_vector);
    d
}

/// The class of an info byte: its two high bits.
pub fn get_type_from_info(info: u8) -> (t: NodeType)
    ensures
        t == NodeType::spec_from_code(spec_type_code(info)),
{
    let code: u8 = (info & 0xC0) >> 6;
    assert((info & 0xC0) >> 6 == info / 64) by (bit_vector);
    NodeType::from_code(code)
}

/// Packs a distance and a class number into an info byte. Bits of
/// `distance` above the sixth and bits of `tp` above the second do not fit
/// and are dropped.
pub fn gen_node_info(distance: u8, tp: u8) -> (info: u8)
    ensures
        info == spec_node_info(distance % 64, tp % 4),
        distance < 64 && tp < 4 ==> info == tp * 64 + distance,
{
    let info: u8 = ((tp & 0x03) << 6) | (distance & 0x3F);
    assert((((tp & 0x03) << 6) | (distance & 0x3F)) == (tp % 4) * 64 + (distance % 64))
        by (bit_vector);
    info
}

/// Packs a page identifier and an in-page offset into an address. Bits of
/// `idx` above the twentieth and bits of `offset` above the twelfth do not
/// fit and are dropped.
pub fn make_pointer_addr(idx: u32, offset: u32) -> (addr: u32)
    ensures
        addr == spec_pointer_addr(idx % 0x10_0000, offset % 4096),
        idx < 0x10_0000 && offset < 4096 ==> addr == idx * 4096 + offset,
{
    let addr: u32 = ((idx & 0xF_FFFF) << 12) | (offset & 0xFFF);
    assert((((idx & 0xF_FFFF) << 12) | (offset & 0xFFF)) == (idx % 0x10_0000) * 4096 + (offset
        % 4096)) by (bit_vector);
    addr
}

/// Reads the address of a packed pointer: the four bytes from offset 2,
/// most significant first. A slice shorter than a pointer holds none.
pub fn get_child_space(space: &[u8]) -> (addr: Option<u32>)
    ensures
        space@.len() < 6 ==> addr is None,
        space@.len() >= 6 ==> addr == Some(spec_be_u32(space@[2], space@[3], space@[4], space@[5])),
{
    if space.len() < 6 {
        return None;
    }
    Some(be_u32(space[2], space[3], space[4], space[5]))
}

/// The number that four bytes spell, most significant byte first.
pub fn be_u32(b0: u8, b1: u8, b2: u8, b3: u8) -> (v: u32)
    ensures
        v == spec_be_u32(b0, b1, b2, b3),
{
    let v: u32 = ((b0 as u32) << 24) | ((b1 as u32) << 16) | ((b2 as u32) << 8) | (b3 as u32);
    assert((((b0 as u32) << 24) | ((b1 as u32) << 16) | ((b2 as u32) << 8) | (b3 as u32)) == (b0 as u32)
        * 0x100_0000 + (b1 as u32) * 0x1_0000 + (b2 as u32) * 0x100 + (b3 as u32)) by (bit_vector);
    v
}

/// The byte of `v` at place `i`, counting from the most significant.
pub open spec fn spec_be_byte(v: u32, i: int) -> u8 {
    if i == 0 {
        (v / 0x100_0000) as u8
    } else if i == 1 {
        (v / 0x1_0000 % 256) as u8
    } else if i == 2 {
        (v / 0x100 % 256) as u8
    } else {
        (v % 256) as u8
    }
}

/// A decoded pointer: what the six bytes of a packed pointer say.
#[derive(Clone, Copy, Debug, PartialEq, Eq, Structural)]
pub struct Pointer {
    /// File tag; zero in the null pointer.
    pub tag: u8,
    /// Size class and edge-skip distance of the node pointed to.
    pub info: u8,
    /// Page identifier and offset of the node pointed to.
    pub addr: u32,
}

impl Pointer {
    /// The six bytes that spell the pointer.
    pub open spec fn spec_bytes(self) -> Seq<u8> {
        seq![
            self.tag,
            self.info,
            spec_be_byte(self.addr, 0),
            spec_be_byte(self.addr, 1),
            spec_be_byte(self.addr, 2),
            spec_be_byte(self.addr, 3),
        ]
    }

    /// The pointer that the first six bytes of `b` spell.
    pub open spec fn spec_from_bytes(b: Seq<u8>) -> Pointer {
        Pointer { tag: b[0], info: b[1], addr: spec_be_u32(b[2], b[3], b[4], b[5]) }
    }

    /// The pointer points nowhere.
    pub open spec fn spec_is_null(self) -> bool {
        self.tag == NULL_PTR
    }

    /// The class of the node pointed to.
    pub open spec fn spec_node_type(self) -> NodeType {
        NodeType::spec_from_code(spec_type_code(self.info))
    }

    /// The edge-skip distance: the length of the edge of the node pointed to.
    pub open spec fn spec_distance(self) -> u8 {
        spec_distance(self.info)
    }

    /// The pointer that points nowhere.
    pub fn null() -> (p: Pointer)
        ensures
            p == (Pointer { tag: NULL_PTR, info: 0, addr: 0 }),
            p.spec_is_null(),
    {
        Pointer { tag: NULL_PTR, info: 0, addr: 0 }
    }

    /// The pointer to a node of class `tp` at `addr` in an index page,
    /// whose edge is `distance` bytes long.
    pub fn new(tp: NodeType, distance: u8, addr: u32) -> (p: Pointer)
        ensures
            p.tag == INDEX_TYPE,
            p.info == spec_node_info(distance % 64, tp.spec_code()),
            p.addr == addr,
            !p.spec_is_null(),
            p.spec_node_type() == tp,
            p.spec_distance() == distance % 64,
    {
        let info = gen_node_info(distance, tp.code());
        Pointer { tag: INDEX_TYPE, info, addr }
    }

    /// The pointer points nowhere.
    pub fn is_null(&self) -> (b: bool)
        ensures
            b == self.spec_is_null(),
    {
        self.tag == NULL_PTR
    }

    /// The class of the node pointed to.
    pub fn node_type(&self) -> (t: NodeType)
        ensures
            t == self.spec_node_type(),
    {
        get_type_from_info(self.info)
    }

    /// The edge-skip distance: the length of the edge of the node pointed to.
    pub fn distance(&self) -> (d: u8)
        ensures
            d == self.spec_distance(),
            d <= MAX_DISTANCE,
    {
        get_distance_from_info(self.info)
    }

    /// Page identifier of the node pointed to.
    pub fn page(&self) -> (idx: u32)
        ensures
            idx == spec_page_of(self.addr),
            idx < 0x10_0000,
    {
        self.addr / 4096
    }

    /// Offset of the node pointed to inside its page.
    pub fn offset(&self) -> (off: u16)
        ensures
            off == spec_offset_of(self.addr),
            off < PAGE_SIZE,
    {
        (self.addr % 4096) as u16
    }

    /// Writes the pointer as six bytes.
    pub fn to_bytes(&self) -> (b: [u8; 6])
        ensures
            b@ == self.spec_bytes(),
    {
        let a: u32 = self.addr;
        let b: [u8; 6] = [
            self.tag,
            self.info,
            (a / 0x100_0000) as u8,
            (a / 0x1_0000 % 256) as u8,
            (a / 0x100 % 256) as u8,
            (a % 256) as u8,
        ];
        assert(b@ =~= self.spec_bytes());
        b
    }

    /// Reads a pointer from the first six bytes of `b`; a shorter slice
    /// holds none.
    pub fn from_bytes(b: &[u8]) -> (p: Option<Pointer>)
        ensures
            b@.len() < 6 ==> p is None,
            b@.len() >= 6 ==> p == Some(Pointer::spec_from_bytes(b@)),
    {
        if b.len() < 6 {
            return None;
        }
        Some(Pointer { tag: b[0], info: b[1], addr: be_u32(b[2], b[3], b[4], b[5]) })
    }
}

/// Unpacking an info byte gives back the distance and the class that were
/// packed into it.
pub proof fn lemma_info_round_trip(distance: u8, tp: NodeType)
    requires
        distance <= MAX_DISTANCE,
    ensures
        spec_distance(spec_node_info(distance, tp.spec_code())) == distance,
        NodeType::spec_from_code(spec_type_code(spec_node_info(distance, tp.spec_code()))) == tp,
{
}

/// Splitting an address gives back the page identifier and the offset that
/// were packed into it.
pub proof fn lemma_addr_round_trip(idx: u32, offset: u32)
    requires
        idx < 0x10_0000,
        offset < 4096,
    ensures
        spec_page_of(spec_pointer_addr(idx, offset)) == idx,
        spec_offset_of(spec_pointer_addr(idx, offset)) == offset,
{
}

/// Reading the six bytes of a pointer gives back the pointer.
pub proof fn lemma_pointer_round_trip(p: Pointer)
    ensures
        Pointer::spec_from_bytes(p.spec_bytes()) == p,
{
    let a = p.addr;
    assert(spec_be_u32(
        spec_be_byte(a, 0),
        spec_be_byte(a, 1),
        spec_be_byte(a, 2),
        spec_be_byte(a, 3),
    ) == a);
}

} // verus!
