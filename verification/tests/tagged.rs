use allockator::tag::{NodeNext, NodeTag, TAG_FREE, TAG_GARBAGE, TAG_MASK};
use allockator::{AllocError, SlabAlloc};

const UNIT: usize = 1 << (usize::BITS - 2);

#[test]
fn tags_have_their_bits() {
    assert_eq!(NodeTag::Alloced.encode(), 0);
    assert_eq!(NodeTag::Free.encode(), UNIT);
    assert_eq!(NodeTag::Garbage.encode(), 2 * UNIT);
    assert_eq!(TAG_FREE, UNIT);
    assert_eq!(TAG_GARBAGE, 2 * UNIT);
    assert_eq!(TAG_MASK, 3 * UNIT);
}

#[test]
fn tags_decode_to_themselves() {
    for tag in [NodeTag::Alloced, NodeTag::Free, NodeTag::Garbage] {
        assert_eq!(NodeTag::decode(tag.encode()), tag);
        assert_eq!(NodeTag::try_decode(tag.encode()), Some(tag));
    }
    assert_eq!(NodeTag::try_decode(3 * UNIT), None);
    assert_eq!(NodeTag::try_decode(1), None);
    assert_eq!(NodeTag::try_decode(UNIT + 1), None);
    assert_eq!(NodeTag::try_decode(usize::MAX), None);
}

#[test]
fn links_encode_tag_and_index() {
    let link = NodeNext { tag: NodeTag::Free, index: 5 };
    assert_eq!(link.encode(), UNIT + 5);
    let link = NodeNext { tag: NodeTag::Garbage, index: UNIT + 7 };
    assert_eq!(link.encode(), 2 * UNIT + 7);
    let link = NodeNext { tag: NodeTag::Alloced, index: usize::MAX };
    assert_eq!(link.encode(), UNIT - 1);
}

#[test]
fn links_decode_only_as_bare_tags() {
    let bare = NodeNext { tag: NodeTag::Garbage, index: 0 };
    assert_eq!(NodeNext::try_decode(bare.encode()), Some(bare));
    assert_eq!(NodeNext::decode(bare.encode()), bare);
    let truncated = NodeNext { tag: NodeTag::Free, index: UNIT };
    let decoded = NodeNext { tag: NodeTag::Free, index: 0 };
    assert_eq!(NodeNext::try_decode(truncated.encode()), Some(decoded));
    let link = NodeNext { tag: NodeTag::Free, index: 1 };
    assert_eq!(NodeNext::try_decode(link.encode()), None);
}

#[test]
fn a_tagged_slab_without_slots_refuses() {
    let mut slab = SlabAlloc::<u8>::new(0);
    let error: AllocError = slab.allocate().unwrap_err();
    assert_eq!(format!("{:?}", error.clone()), "AllocError { _priv: () }");
    assert!(slab.try_flush_deallocs());
    slab.flush_deallocs();
    let deferral = slab.defer_deallocs();
    assert!(!slab.try_flush_deallocs());
    assert!(slab.allocate().is_err());
    deferral.release(&mut slab);
    assert!(slab.try_flush_deallocs());
}

#[test]
fn a_tagged_slab_links_each_slot_to_the_next() {
    let slab = SlabAlloc::<u8>::new(2);
    let expected = format!(
        "SlabAlloc {{ defer_count: 0, garbage_list: 2, free_list: 0, nodes: [Node {{ next_bits: \
         {}, data: None }}, Node {{ next_bits: {}, data: None }}] }}",
        UNIT + 1,
        UNIT + 2,
    );
    assert_eq!(format!("{:?}", slab), expected);
}

#[test]
fn sweeping_a_tagged_slab_moves_the_garbage_head() {
    let mut slab = SlabAlloc::<u8>::new(2);
    let deferral = slab.defer_deallocs();
    let second = slab.defer_deallocs();
    assert!(!slab.try_flush_deallocs());
    assert!(format!("{:?}", slab).contains("defer_count: 2, garbage_list: 2"));
    second.release(&mut slab);
    assert!(format!("{:?}", slab).contains("defer_count: 1, garbage_list: 2"));
    deferral.release(&mut slab);
    assert!(format!("{:?}", slab).contains("defer_count: 0, garbage_list: 0"));
    assert!(slab.try_flush_deallocs());
}

#[test]
fn flushing_a_tagged_slab_moves_the_garbage_head() {
    let mut slab = SlabAlloc::<u8>::new(1);
    slab.flush_deallocs();
    assert!(format!("{:?}", slab).contains("garbage_list: 0, free_list: 0"));
}
