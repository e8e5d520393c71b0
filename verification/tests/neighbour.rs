use lite_encoder::codec::h264::neighbour::{BlockRef, Neighbourhood, SampleRef, chroma_4x4_index, chroma_4x4_origin, luma_4x4_index, luma_4x4_origin, luma_8x8_index, luma_8x8_origin};

fn full() -> Neighbourhood {
    let mut n = Neighbourhood::new(4, 3);
    for addr in 0..n.len() {
        n.begin_macroblock(addr, 0);
    }
    n
}

#[test]
fn the_scan_order_of_4x4_luma_blocks_round_trips() {
    for blk in 0..16u8 {
        let (x, y) = luma_4x4_origin(blk);
        assert_eq!(luma_4x4_index(x, y), blk, "block {blk} at ({x}, {y})");
        for (dx, dy) in [(0, 0), (3, 0), (0, 3), (3, 3), (2, 1)] {
            assert_eq!(luma_4x4_index(x + dx, y + dy), blk);
        }
    }
}

#[test]
fn the_4x4_luma_scan_is_grouped_into_8x8_quadrants() {
    let corners: Vec<(usize, usize)> = (0..16).map(luma_4x4_origin).collect();
    assert_eq!(corners[0], (0, 0));
    assert_eq!(corners[1], (4, 0));
    assert_eq!(corners[2], (0, 4));
    assert_eq!(corners[3], (4, 4));
    assert_eq!(corners[4], (8, 0));
    assert_eq!(corners[8], (0, 8));
    assert_eq!(corners[15], (12, 12));
}

#[test]
fn the_8x8_and_chroma_scans_round_trip() {
    for blk in 0..4u8 {
        let (x, y) = luma_8x8_origin(blk);
        assert_eq!(luma_8x8_index(x, y), blk);
        assert_eq!(luma_8x8_index(x + 7, y + 7), blk);

        let (x, y) = chroma_4x4_origin(blk);
        assert_eq!(chroma_4x4_index(x, y), blk);
        assert_eq!(chroma_4x4_index(x + 3, y + 3), blk);
    }
}

#[test]
fn an_interior_macroblock_has_all_four_neighbours() {
    let n = full();
    assert_eq!(n.mb_a(5), Some(4));
    assert_eq!(n.mb_b(5), Some(1));
    assert_eq!(n.mb_c(5), Some(2));
    assert_eq!(n.mb_d(5), Some(0));
}

#[test]
fn the_left_edge_has_no_left_or_above_left_neighbour() {
    let n = full();
    assert_eq!(n.mb_a(4), None);
    assert_eq!(n.mb_d(4), None);
    assert_eq!(n.mb_b(4), Some(0));
    assert_eq!(n.mb_c(4), Some(1));
}

#[test]
fn the_right_edge_has_no_above_right_neighbour() {
    let n = full();
    assert_eq!(n.mb_c(7), None);
    assert_eq!(n.mb_b(7), Some(3));
    assert_eq!(n.mb_a(7), Some(6));
}

#[test]
fn the_first_macroblock_of_a_picture_has_no_neighbours() {
    let mut n = Neighbourhood::new(4, 3);
    n.begin_macroblock(0, 0);
    assert_eq!(
        (n.mb_a(0), n.mb_b(0), n.mb_c(0), n.mb_d(0)),
        (None, None, None, None)
    );
}

#[test]
fn undecoded_macroblocks_are_unavailable() {
    let mut n = Neighbourhood::new(4, 3);
    for addr in 0..=4 {
        n.begin_macroblock(addr, 0);
    }
    n.begin_macroblock(5, 0);
    assert_eq!(n.mb_a(5), Some(4));
    assert_eq!(n.mb_a(7), None);
}

#[test]
fn neighbours_in_another_slice_are_unavailable() {
    let mut n = Neighbourhood::new(4, 3);
    for addr in 0..4 {
        n.begin_macroblock(addr, 0);
    }
    for addr in 4..8 {
        n.begin_macroblock(addr, 1);
    }
    assert_eq!(n.mb_a(5), Some(4));
    assert_eq!(n.mb_b(5), None);
    assert_eq!(n.mb_c(5), None);
    assert_eq!(n.mb_d(5), None);
}

#[test]
fn a_new_picture_forgets_every_macroblock() {
    let mut n = full();
    n.begin_picture();
    n.begin_macroblock(5, 0);
    assert_eq!((n.mb_a(5), n.mb_b(5)), (None, None));
}

#[test]
fn a_location_inside_the_macroblock_stays_there() {
    let n = full();
    assert_eq!(
        n.luma_location(5, 7, 9),
        Some(SampleRef { mb: 5, x: 7, y: 9 })
    );
}

#[test]
fn locations_outside_the_macroblock_land_in_the_right_neighbour() {
    let n = full();
    assert_eq!(
        n.luma_location(5, -1, 3),
        Some(SampleRef { mb: 4, x: 15, y: 3 })
    );
    assert_eq!(
        n.luma_location(5, 3, -1),
        Some(SampleRef { mb: 1, x: 3, y: 15 })
    );
    assert_eq!(
        n.luma_location(5, 16, -1),
        Some(SampleRef { mb: 2, x: 0, y: 15 })
    );
    assert_eq!(
        n.luma_location(5, -1, -1),
        Some(SampleRef {
            mb: 0,
            x: 15,
            y: 15
        })
    );
}

#[test]
fn locations_below_or_right_of_the_macroblock_are_unavailable() {
    let n = full();
    assert_eq!(n.luma_location(5, 3, 16), None);
    assert_eq!(n.luma_location(5, 16, 3), None);
    assert_eq!(n.luma_location(5, 16, 16), None);
    assert_eq!(n.luma_location(5, -1, 16), None);
}

#[test]
fn chroma_locations_use_the_8x8_macroblock_size() {
    let n = full();
    assert_eq!(
        n.chroma_location(5, -1, 2),
        Some(SampleRef { mb: 4, x: 7, y: 2 })
    );
    assert_eq!(
        n.chroma_location(5, 2, -1),
        Some(SampleRef { mb: 1, x: 2, y: 7 })
    );
    assert_eq!(n.chroma_location(5, 8, 2), None);
    assert_eq!(
        n.chroma_location(5, 7, 7),
        Some(SampleRef { mb: 5, x: 7, y: 7 })
    );
}

#[test]
fn interior_4x4_blocks_neighbour_each_other_within_the_macroblock() {
    let n = full();
    assert_eq!(n.luma_4x4_a(5, 3), Some(BlockRef { mb: 5, blk: 2 }));
    assert_eq!(n.luma_4x4_b(5, 3), Some(BlockRef { mb: 5, blk: 1 }));
    assert_eq!(n.luma_4x4_d(5, 3), Some(BlockRef { mb: 5, blk: 0 }));
}

#[test]
fn a_block_later_in_scan_order_is_not_available_as_a_neighbour() {
    let n = full();
    assert_eq!(n.luma_4x4_c(5, 3), None);
    assert_eq!(n.luma_4x4_c(5, 5), Some(BlockRef { mb: 2, blk: 10 }));
}

#[test]
fn blocks_on_the_macroblock_edge_neighbour_the_adjacent_macroblock() {
    let n = full();
    assert_eq!(n.luma_4x4_a(5, 0), Some(BlockRef { mb: 4, blk: 5 }));
    assert_eq!(n.luma_4x4_b(5, 0), Some(BlockRef { mb: 1, blk: 10 }));
    assert_eq!(n.luma_4x4_d(5, 0), Some(BlockRef { mb: 0, blk: 15 }));
    assert_eq!(n.luma_4x4_c(5, 0), Some(BlockRef { mb: 1, blk: 11 }));
}

#[test]
fn block_neighbours_inherit_macroblock_unavailability() {
    let mut n = Neighbourhood::new(4, 3);
    n.begin_macroblock(0, 0);
    assert_eq!(n.luma_4x4_a(0, 0), None);
    assert_eq!(n.luma_4x4_b(0, 0), None);
    assert_eq!(n.chroma_4x4_neighbour(0, 0, -1, 0), None);
    assert_eq!(n.luma_4x4_a(0, 1), Some(BlockRef { mb: 0, blk: 0 }));
}

#[test]
fn eight_by_eight_and_chroma_blocks_cross_macroblocks_the_same_way() {
    let n = full();
    assert_eq!(
        n.luma_8x8_neighbour(5, 0, -1, 0),
        Some(BlockRef { mb: 4, blk: 1 })
    );
    assert_eq!(
        n.luma_8x8_neighbour(5, 0, 0, -1),
        Some(BlockRef { mb: 1, blk: 2 })
    );
    assert_eq!(
        n.luma_8x8_neighbour(5, 2, -1, 0),
        Some(BlockRef { mb: 4, blk: 3 })
    );
    assert_eq!(
        n.luma_8x8_neighbour(5, 1, 8, -1),
        Some(BlockRef { mb: 2, blk: 2 })
    );
    assert_eq!(n.luma_8x8_neighbour(5, 3, 8, -1), None);

    assert_eq!(
        n.chroma_4x4_neighbour(5, 0, -1, 0),
        Some(BlockRef { mb: 4, blk: 1 })
    );
    assert_eq!(
        n.chroma_4x4_neighbour(5, 0, 0, -1),
        Some(BlockRef { mb: 1, blk: 2 })
    );
    assert_eq!(
        n.chroma_4x4_neighbour(5, 3, -1, 0),
        Some(BlockRef { mb: 5, blk: 2 })
    );
}

#[test]
fn macroblock_origins_tile_the_picture() {
    let n = full();
    assert_eq!(n.origin(0), (0, 0));
    assert_eq!(n.origin(3), (48, 0));
    assert_eq!(n.origin(4), (0, 16));
    assert_eq!(n.origin(11), (48, 32));
}

#[test]
fn locations_name_the_sample_asked_for() {
    let mut n = full();
    n.begin_macroblock(2, 7);
    for curr in 0..n.len() {
        let (cx, cy) = n.origin(curr);
        for y in -16..32i32 {
            for x in -16..32i32 {
                let (px, py) = (cx as i32 + x, cy as i32 + y);
                let inside = px >= 0 && px < 64 && py >= 0 && py < 48;
                let holder = (py.div_euclid(16) * 4 + px.div_euclid(16)) as usize;
                let later = y >= 16 || (x >= 16 && y >= 0);
                let found = n.luma_location(curr, x, y);
                let readable = inside && (holder == curr || n.available(holder, curr));
                assert_eq!(found.is_some(), !later && readable, "{curr} ({x}, {y})");
                if let Some(at) = found {
                    let (ox, oy) = n.origin(at.mb);
                    assert_eq!((ox + at.x, oy + at.y), (px as usize, py as usize));
                }
            }
        }
    }
}
