use poulpy_blck_ecd::error::Error;
use poulpy_blck_ecd::layout::{PackedLayout, PackedSlots, SplitLayout, SplitSlots};

#[test]
fn interleaved_layout_pads_lanes_to_powers_of_two() {
    let layout = PackedLayout::new(8, 3).unwrap();
    assert_eq!(layout.slots(), 8);
    assert_eq!(layout.block_width(), 3);
    assert_eq!(layout.lane_width(), 4);
    assert!(layout.is_interleaved());
    assert_eq!(layout.block_count(), 2);
    assert_eq!(layout.used_slots(), 6);
    assert_eq!(layout.slot(0, 0), 0);
    assert_eq!(layout.slot(1, 0), 1);
    assert_eq!(layout.slot(1, 2), 5);
    assert_eq!(layout, PackedLayout::interleaved(8, 3).unwrap());
}

#[test]
fn contiguous_layout_packs_blocks_back_to_back() {
    let layout = PackedLayout::contiguous(8, 3).unwrap();
    assert_eq!(layout.lane_width(), 3);
    assert!(!layout.is_interleaved());
    assert_eq!(layout.block_count(), 2);
    assert_eq!(layout.used_slots(), 6);
    assert_eq!(layout.slot(1, 0), 3);
    assert_eq!(layout.slot(1, 2), 5);
}

#[test]
fn packed_layouts_reject_bad_shapes() {
    assert_eq!(PackedLayout::new(6, 2), Err(Error::SlotsNotPowerOfTwo));
    assert_eq!(PackedLayout::new(0, 1), Err(Error::SlotsNotPowerOfTwo));
    assert_eq!(PackedLayout::new(8, 0), Err(Error::ZeroBlockWidth));
    assert_eq!(PackedLayout::new(8, 9), Err(Error::BlockWidthExceedsSlots));
    assert_eq!(PackedLayout::contiguous(12, 2), Err(Error::SlotsNotPowerOfTwo));
    assert_eq!(PackedLayout::contiguous(8, 0), Err(Error::ZeroBlockWidth));
    assert_eq!(PackedLayout::contiguous(4, 5), Err(Error::BlockWidthExceedsSlots));
    assert_eq!(PackedLayout::for_widths(8, 0, 1), Err(Error::ZeroBlockWidth));
    assert_eq!(PackedLayout::for_widths(8, 2, 3).unwrap().block_width(), 3);
    assert_eq!(PackedLayout::for_widths(8, 5, 3).unwrap().block_width(), 5);
}

#[test]
fn every_slot_holds_at_most_one_coordinate() {
    for layout in [
        PackedLayout::new(16, 3).unwrap(),
        PackedLayout::contiguous(16, 3).unwrap(),
        PackedLayout::new(16, 5).unwrap(),
    ] {
        let mut seen = vec![false; layout.slots()];
        for block in 0..layout.block_count() {
            for coordinate in 0..layout.block_width() {
                let slot = layout.slot(block, coordinate);
                assert!(slot < layout.slots());
                assert!(!seen[slot]);
                seen[slot] = true;
            }
        }
        assert_eq!(seen.iter().filter(|used| **used).count(), layout.used_slots());
    }
}

#[test]
fn packed_placement_reads_back() {
    let layout = PackedLayout::new(8, 3).unwrap();
    let re = vec![vec![1, 2, 3], vec![4, 5, 6]];
    let im = vec![vec![-1, -2, -3], vec![-4, -5, -6]];
    let mut slots = PackedSlots { re: vec![9; 8], im: vec![9; 8] };
    layout.place_into(&re, &im, 3, 0, &mut slots).unwrap();
    assert_eq!(slots.re, vec![1, 4, 2, 5, 3, 6, 0, 0]);
    assert_eq!(slots.im, vec![-1, -4, -2, -5, -3, -6, 0, 0]);
    assert_eq!(layout.read_block(&slots, 1, 3), (vec![4, 5, 6], vec![-4, -5, -6]));
    assert_eq!(layout.read_block(&slots, 0, 2), (vec![1, 2], vec![-1, -2]));

    let contiguous = PackedLayout::contiguous(8, 3).unwrap();
    contiguous.place_into(&re, &im, 3, 0, &mut slots).unwrap();
    assert_eq!(slots.re, vec![1, 2, 3, 4, 5, 6, 0, 0]);
    assert_eq!(contiguous.read_block(&slots, 1, 3).0, vec![4, 5, 6]);
}

#[test]
fn packed_placement_checks_its_inputs() {
    let layout = PackedLayout::new(8, 2).unwrap();
    let words = vec![vec![1, 2]; 5];
    let mut slots = PackedSlots { re: vec![7; 8], im: vec![7; 8] };
    assert_eq!(layout.place_into(&words, &words, 2, 0, &mut slots), Err(Error::CapacityExceeded));
    let wide = vec![vec![1, 2, 3]];
    assert_eq!(layout.place_into(&wide, &wide, 3, 0, &mut slots), Err(Error::EncodingTooWide));
    let mut short = PackedSlots { re: vec![7; 4], im: vec![7; 8] };
    let one = vec![vec![1, 2]];
    assert_eq!(layout.place_into(&one, &one, 2, 0, &mut short), Err(Error::SlotLengthMismatch));
    assert_eq!(slots.re, vec![7; 8]);
    assert_eq!(layout.check_blocks(2, 4), Ok(()));
    assert_eq!(layout.check_blocks(2, 5), Err(Error::CapacityExceeded));
    assert_eq!(layout.check_decode(&slots, 5, 2), Err(Error::CapacityExceeded));
    assert_eq!(layout.check_decode(&slots, 4, 3), Err(Error::EncodingTooWide));
    assert_eq!(layout.check_decode(&short, 1, 1), Err(Error::SlotLengthMismatch));
}

#[test]
fn split_layout_places_one_coordinate_per_row() {
    let layout = SplitLayout::new(4).unwrap();
    assert_eq!(layout.slots(), 4);
    let re = vec![vec![1, 2], vec![3, 4], vec![5, 6]];
    let im = vec![vec![0, 1], vec![0, 1], vec![0, 1]];
    let mut slots = SplitSlots { re: vec![vec![9; 4]; 2], im: vec![vec![9; 4]; 2] };
    layout.place_into(&re, &im, 2, 0, &mut slots).unwrap();
    assert_eq!(slots.re, vec![vec![1, 3, 5, 0], vec![2, 4, 6, 0]]);
    assert_eq!(slots.im, vec![vec![0, 0, 0, 0], vec![1, 1, 1, 0]]);
    assert_eq!(layout.read_symbol(&slots, 2, 2), (vec![5, 6], vec![0, 1]));
}

#[test]
fn split_layout_checks_its_inputs() {
    assert_eq!(SplitLayout::new(3), Err(Error::SlotsNotPowerOfTwo));
    let layout = SplitLayout::new(4).unwrap();
    assert_eq!(layout.check_capacity(5), Err(Error::CapacityExceeded));
    assert_eq!(layout.check_capacity(4), Ok(()));
    let words = vec![vec![1, 2]; 5];
    let mut slots = SplitSlots { re: vec![vec![9; 4]; 2], im: vec![vec![9; 4]; 2] };
    assert_eq!(layout.place_into(&words, &words, 2, 0, &mut slots), Err(Error::CapacityExceeded));
    let one = vec![vec![1, 2, 3]];
    assert_eq!(layout.place_into(&one, &one, 3, 0, &mut slots), Err(Error::CoordinateCountMismatch));
    let mut ragged = SplitSlots { re: vec![vec![9; 4], vec![9; 3]], im: vec![vec![9; 4]; 2] };
    let two = vec![vec![1, 2]];
    assert_eq!(layout.place_into(&two, &two, 2, 0, &mut ragged), Err(Error::SlotLengthMismatch));
    assert_eq!(ragged.re[0], vec![9; 4]);
}

#[test]
fn diagonals_list_their_cells_block_by_block() {
    let layout = PackedLayout::contiguous(8, 2).unwrap();
    assert_eq!(layout.diagonal_cells(2, 2, 1), vec![(0, 1), (2, 1), (4, 1), (6, 1)]);
    assert_eq!(
        layout.diagonal_cells(2, 2, 0),
        vec![(0, 0), (1, 3), (2, 0), (3, 3), (4, 0), (5, 3), (6, 0), (7, 3)]
    );
    assert_eq!(layout.diagonal_cells(2, 2, -1), vec![(1, 2), (3, 2), (5, 2), (7, 2)]);
    let wide = PackedLayout::contiguous(8, 4).unwrap();
    assert_eq!(wide.diagonal_cells(1, 3, 2), vec![(0, 2), (4, 2)]);
}
