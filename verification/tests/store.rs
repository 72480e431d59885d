use step_perf::memory::checked_tile_addresses;
use step_perf::memory::hbm::next_request;
use step_perf::memory::offchip_store::{assemble_tensor, check_rows};
use step_perf::memory::TileLayout;
use step_perf::operator::eager_merge::{MergeDecision, Peek};
use step_perf::primitives::tile::Tile;

fn tile_of(first: u32) -> Tile<u32> {
    Tile::new(2, 2, (first..first + 4).collect(), 4, false).unwrap()
}

#[test]
fn tiles_are_assembled_row_by_row() {
    let tiles = vec![tile_of(0), tile_of(4), tile_of(8), tile_of(12)];
    assert_eq!(
        assemble_tensor(&tiles, 2, 2, 2),
        Some(vec![0, 1, 4, 5, 2, 3, 6, 7, 8, 9, 12, 13, 10, 11, 14, 15])
    );
    // All four tiles side by side.
    assert_eq!(
        assemble_tensor(&tiles, 4, 2, 2),
        Some(vec![0, 1, 4, 5, 8, 9, 12, 13, 2, 3, 6, 7, 10, 11, 14, 15])
    );
    // One tile to a row of tiles: the tiles one below the other.
    assert_eq!(assemble_tensor(&tiles, 1, 2, 2), Some((0..16).collect::<Vec<u32>>()));
    assert_eq!(assemble_tensor(&Vec::<Tile<u32>>::new(), 3, 2, 2), Some(vec![]));
}

#[test]
fn tiles_that_make_no_tensor() {
    let tiles = vec![tile_of(0), tile_of(4), tile_of(8)];
    assert_eq!(assemble_tensor(&tiles, 2, 2, 2), None);
    assert_eq!(assemble_tensor(&tiles, 0, 2, 2), None);
    // A tile of another size.
    assert_eq!(assemble_tensor(&tiles, 3, 2, 3), None);
    // A tile without values.
    let blank = vec![tile_of(0), Tile::<u32>::new_blank(vec![2, 2], 4, false)];
    assert_eq!(assemble_tensor(&blank, 2, 2, 2), None);
    assert_eq!(assemble_tensor(&tiles, 3, usize::MAX, usize::MAX), None);
}

#[test]
fn addresses_are_guarded_tile_by_tile() {
    assert_eq!(checked_tile_addresses(100, 3, 16, 2, 8, 16, 4), Some(vec![148, 152, 164, 168]));
    assert_eq!(checked_tile_addresses(u64::MAX - 4, 0, 16, 1, 8, 16, 4), Some(vec![u64::MAX - 4, u64::MAX]));
    assert_eq!(checked_tile_addresses(u64::MAX - 3, 0, 16, 1, 8, 16, 4), None);
    // The second row begins behind the last address.
    assert_eq!(checked_tile_addresses(u64::MAX - 8, 0, 16, 2, 4, 16, 4), None);
    // The tile itself begins behind the last address.
    assert_eq!(checked_tile_addresses(8, u64::MAX, 16, 2, 4, 16, 4), None);
    // A tile without rows has no addresses, wherever it lies.
    assert_eq!(checked_tile_addresses(u64::MAX, u64::MAX, 16, 0, 8, 16, 4), Some(vec![]));
    assert_eq!(checked_tile_addresses(u64::MAX, u64::MAX, 16, 2, 0, 16, 4), Some(vec![]));
    // A request that moves more than a row.
    assert_eq!(checked_tile_addresses(7, 0, 0, 2, 8, 3, u64::MAX), Some(vec![7, 10]));
}

#[test]
fn layouts_address_any_tile_number() {
    let layout = TileLayout {
        tensor_shape_tiled: vec![2, 2],
        tile_row: 2,
        tile_col: 4,
        n_byte: 2,
        base_addr_byte: 100,
        addr_offset: 4,
    };
    assert_eq!(layout.sizes(), Some((16, 8, 16)));
    assert_eq!(layout.tile_addresses_at(1), Some(vec![116, 120, 132, 136]));
    assert_eq!(layout.tile_addresses_at(1), Some(layout.generate_tile_addresses(1)));
    assert_eq!(layout.tile_addresses_at(40), Some(vec![740, 744, 756, 760]));
    assert_eq!(layout.tile_addresses_at(u64::MAX / 16), None);
    let no_axis = TileLayout { tensor_shape_tiled: vec![], ..layout.clone() };
    assert_eq!(no_axis.sizes(), None);
    assert_eq!(no_axis.tile_addresses_at(0), None);
    let wide = TileLayout { tile_col: usize::MAX, ..layout.clone() };
    assert_eq!(wide.sizes(), None);
}

#[test]
fn the_memory_serves_the_earliest_request() {
    let peeks = vec![Peek::Something(5), Peek::Something(3), Peek::Nothing];
    // A silent stream may still show an earlier request.
    assert_eq!(next_request(&peeks, 2), MergeDecision::Wait);
    assert_eq!(next_request(&peeks, 3), MergeDecision::Take(1));
    assert_eq!(next_request(&vec![Peek::Something(5), Peek::Something(3), Peek::Closed], 0), MergeDecision::Take(1));
    // On a tie the stream of the lower number.
    assert_eq!(next_request(&vec![Peek::Something(4), Peek::Something(4)], 9), MergeDecision::Take(0));
    assert_eq!(next_request(&vec![Peek::Closed, Peek::Something(4), Peek::Something(4)], 9), MergeDecision::Take(1));
    assert_eq!(next_request(&vec![Peek::Nothing, Peek::Closed], 9), MergeDecision::Wait);
    assert_eq!(next_request(&vec![Peek::Closed, Peek::Closed], 9), MergeDecision::Finished);
    assert_eq!(next_request(&vec![], 9), MergeDecision::Finished);
}

#[test]
fn stored_tiles_come_in_whole_rows() {
    assert!(check_rows(&vec![false, true, false, true], 2));
    assert!(check_rows(&vec![true, true, true], 1));
    assert!(check_rows(&vec![], 3));
    // A row of tiles that is still open.
    assert!(check_rows(&vec![false, false, true, false], 3));
    // A stop inside a row, and a row end without one.
    assert!(!check_rows(&vec![false, true, false, true], 4));
    assert!(!check_rows(&vec![false, false, false, true], 3));
    assert!(!check_rows(&vec![true], 0));
}
