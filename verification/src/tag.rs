//! Links that carry a tag in their two highest bits.
use vstd::prelude::*;

verus! {

/// How many bits a tag takes.
pub const TAG_WIDTH: u32 = 2;

/// How many bits are left for an index.
pub const TAG_SHIFT: u32 = usize::BITS - TAG_WIDTH;

/// The bits of a tag.
pub const TAG_MASK: usize = usize::MAX << TAG_SHIFT;

/// The tag of a slot that is handed out.
pub const TAG_ALLOCED: usize = 0b00 << TAG_SHIFT;

/// The tag of a free slot.
pub const TAG_FREE: usize = 0b01 << TAG_SHIFT;

/// The tag of a slot on the garbage list.
pub const TAG_GARBAGE: usize = 0b10 << TAG_SHIFT;

/// What a slot is used for.
#[derive(Debug, Clone, Copy, PartialEq, Eq, Structural)]
pub enum NodeTag {
    Alloced,
    Garbage,
    Free,
}

/// The value of the lowest bit of a tag.
pub open spec fn tag_unit() -> int {
    if usize::BITS == 32 {
        0x4000_0000
    } else {
        0x4000_0000_0000_0000
    }
}

impl NodeTag {
    /// The number that stands for the tag.
    pub open spec fn code(self) -> int {
        match self {
            NodeTag::Alloced => 0,
            NodeTag::Free => 1,
            NodeTag::Garbage => 2,
        }
    }

    /// The bits that stand for the tag.
    pub open spec fn bits(self) -> int {
        self.code() * tag_unit()
    }

    /// The bits that stand for the tag.
    pub fn encode(self) -> (bits: usize)
        ensures
            bits == self.bits(),
    {
        proof {
            lemma_tag_constants();
        }
        match self {
            NodeTag::Alloced => TAG_ALLOCED,
            NodeTag::Free => TAG_FREE,
            NodeTag::Garbage => TAG_GARBAGE,
        }
    }

    /// The tag that the bits stand for.
    pub fn decode(bits: usize) -> (tag: Self)
        requires
            exists|tag: NodeTag| bits == #[trigger] tag.bits(),
        ensures
            tag.bits() == bits,
    {
        match Self::try_decode(bits) {
            Some(tag) => tag,
            None => {
                assert(false);
                NodeTag::Alloced
            },
        }
    }

    /// The tag that the bits stand for, if they stand for one and nothing else.
    pub fn try_decode(bits: usize) -> (tag: Option<Self>)
        ensures
            match tag {
                Some(tag) => tag.bits() == bits,
                None => forall|tag: NodeTag| bits != #[trigger] tag.bits(),
            },
    {
        proof {
            lemma_tag_constants();
        }
        if bits == TAG_ALLOCED {
            Some(NodeTag::Alloced)
        } else if bits == TAG_FREE {
            Some(NodeTag::Free)
        } else if bits == TAG_GARBAGE {
            Some(NodeTag::Garbage)
        } else {
            None
        }
    }
}

/// The tag constants as numbers.
proof fn lemma_tag_constants()
    ensures
        TAG_ALLOCED == 0,
        TAG_FREE == tag_unit(),
        TAG_GARBAGE == 2 * tag_unit(),
        TAG_MASK == 3 * tag_unit(),
        usize::MAX == 4 * tag_unit() - 1,
{
    let all = usize::MAX;
    let shift = TAG_SHIFT;
    if usize::BITS == 32 {
        assert(0usize << shift == 0 && 1usize << shift == 0x4000_0000 && 2usize << shift
            == 0x8000_0000 && all << shift == 0xc000_0000) by (bit_vector)
            requires
                usize::BITS == 32,
                shift == 30,
                all == 0xffff_ffff,
        ;
    } else {
        assert(0usize << shift == 0 && 1usize << shift == 0x4000_0000_0000_0000 && 2usize << shift
            == 0x8000_0000_0000_0000 && all << shift == 0xc000_0000_0000_0000) by (bit_vector)
            requires
                usize::BITS == 64,
                shift == 62,
                all == 0xffff_ffff_ffff_ffff,
        ;
    }
}

/// Splits a word into its tag bits and the rest.
proof fn lemma_split(index: usize, tag: usize)
    requires
        tag == 0 || tag == TAG_FREE || tag == TAG_GARBAGE,
    ensures
        index & !TAG_MASK == index as int % tag_unit(),
        (index & !TAG_MASK) | tag == (index as int % tag_unit()) + tag,
{
    lemma_tag_constants();
    let mask = TAG_MASK;
    let unit = TAG_FREE;
    assert(index & !mask == index % unit && (index & !mask) | tag == (index % unit) + tag)
        by (bit_vector)
        requires
            usize::BITS == 32 && unit == 0x4000_0000 && mask == 0xc000_0000 || usize::BITS == 64
                && unit == 0x4000_0000_0000_0000 && mask == 0xc000_0000_0000_0000,
            tag == 0 || tag == unit || tag == 2 * unit,
    ;
}

/// A link: the slot that follows, and what the slot that holds the link is used for.
#[derive(Debug, Clone, Copy, PartialEq, Eq, Structural)]
pub struct NodeNext {
    pub tag: NodeTag,
    pub index: usize,
}

impl NodeNext {
    /// The bits that stand for the link: the tag above, and below it as much of the index as there
    /// is room for.
    pub open spec fn bits(self) -> int {
        self.tag.bits() + self.index as int % tag_unit()
    }

    /// The link that the bits stand for, if they are read as a tag alone.
    pub open spec fn from_bits(bits: usize) -> Option<NodeNext> {
        if bits == NodeTag::Alloced.bits() {
            Some(NodeNext { tag: NodeTag::Alloced, index: 0 })
        } else if bits == NodeTag::Free.bits() {
            Some(NodeNext { tag: NodeTag::Free, index: 0 })
        } else if bits == NodeTag::Garbage.bits() {
            Some(NodeNext { tag: NodeTag::Garbage, index: 0 })
        } else {
            None
        }
    }

    /// The bits that stand for the link.
    pub fn encode(self) -> (bits: usize)
        ensures
            bits == self.bits(),
    {
        let tag: usize = self.tag.encode();
        proof {
            lemma_tag_constants();
            lemma_split(self.index, tag);
        }
        (self.index & !TAG_MASK) | tag
    }

    /// The link that the bits stand for.
    pub fn decode(bits: usize) -> (next: Self)
        requires
            NodeNext::from_bits(bits) is Some,
        ensures
            NodeNext::from_bits(bits) == Some(next),
    {
        match Self::try_decode(bits) {
            Some(next) => next,
            None => {
                assert(false);
                NodeNext { tag: NodeTag::Alloced, index: 0 }
            },
        }
    }

    /// The link that the bits stand for, if they are those of a tag. Bits that hold anything
    /// beside a tag are not taken apart.
    pub fn try_decode(bits: usize) -> (next: Option<Self>)
        ensures
            next == NodeNext::from_bits(bits),
    {
        let index: usize = bits & !TAG_MASK;
        proof {
            lemma_tag_constants();
            lemma_split(bits, 0);
        }
        match NodeTag::try_decode(bits) {
            Some(tag) => {
                Some(NodeNext { tag, index })
            },
            None => {
                assert(bits != NodeTag::Alloced.bits());
                assert(bits != NodeTag::Free.bits());
                assert(bits != NodeTag::Garbage.bits());
                None
            },
        }
    }
}

/// Different tags have different bits, and the bits of every tag fit in a word.
pub proof fn law_tags_are_distinct(a: NodeTag, b: NodeTag)
    ensures
        a.bits() == b.bits() ==> a == b,
        0 <= a.bits() <= usize::MAX,
{
    lemma_tag_constants();
}

/// Decoding undoes encoding of a tag.
pub proof fn law_tag_decode_undoes_encode(tag: NodeTag, bits: usize)
    requires
        bits == tag.bits(),
    ensures
        forall|t: NodeTag| bits == #[trigger] t.bits() ==> t == tag,
{
    lemma_tag_constants();
}

/// The bits of a link tell its tag and the part of its index that there is room for.
pub proof fn law_link_bits_are_faithful(a: NodeNext, b: NodeNext)
    ensures
        a.bits() == b.bits() <==> a.tag == b.tag && a.index as int % tag_unit() == b.index as int
            % tag_unit(),
        0 <= a.bits() <= usize::MAX,
{
    lemma_tag_constants();
}

/// Decoding undoes encoding of a link whose index is zero, and refuses every link whose index
/// leaves something in the lower bits.
pub proof fn law_link_decode_undoes_encode(next: NodeNext, bits: usize)
    requires
        bits == next.bits(),
    ensures
        next.index == 0 ==> NodeNext::from_bits(bits) == Some(next),
        next.index as int % tag_unit() == 0 ==> NodeNext::from_bits(bits) == Some(
            NodeNext { tag: next.tag, index: 0 },
        ),
        next.index as int % tag_unit() != 0 ==> NodeNext::from_bits(bits) is None,
{
    lemma_tag_constants();
}

/// The tags are the numbers 0, 1 and 2 in the two highest bits of a word: handed out, free and
/// garbage, in this order.
pub proof fn law_tags_are_the_highest_bits()
    ensures
        4 * tag_unit() == usize::MAX + 1,
        NodeTag::Alloced.bits() == 0,
        NodeTag::Free.bits() * 4 == usize::MAX + 1,
        NodeTag::Garbage.bits() * 2 == usize::MAX + 1,
        TAG_MASK + tag_unit() == usize::MAX + 1,
        TAG_ALLOCED == 0,
        TAG_FREE * 4 == usize::MAX + 1,
        TAG_GARBAGE * 2 == usize::MAX + 1,
{
    lemma_tag_constants();
}

/// A link is its tag's bits and below them its index, as far as there is room.
pub proof fn law_link_is_tag_and_index(next: NodeNext)
    ensures
        next.bits() % tag_unit() == next.index as int % tag_unit(),
        next.bits() - next.bits() % tag_unit() == next.tag.bits(),
        next.index < tag_unit() ==> next.bits() == next.tag.bits() + next.index,
{
    lemma_tag_constants();
}

/// Only the bare bits of a tag are decoded, to that tag and index 0.
pub proof fn law_only_bare_tags_decode(bits: usize)
    ensures
        NodeNext::from_bits(bits) matches Some(next) ==> next.index == 0 && next.tag.bits()
            == bits,
        NodeNext::from_bits(bits) is None <==> bits != NodeTag::Alloced.bits() && bits
            != NodeTag::Free.bits() && bits != NodeTag::Garbage.bits(),
{
}

} // verus!
