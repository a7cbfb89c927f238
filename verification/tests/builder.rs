use depth_mask::builder;
use depth_mask::builder::Tile;
use depth_mask::depth_hasher::DepthChecker;
use depth_mask::depth_hasher::DepthHasher;
use depth_mask::geometry::Dimensions;
use depth_mask::geometry::Position;
use depth_mask::pixels;
use depth_mask::pixels::Pixel;
use depth_mask::preparations;

fn tile(x: u32, y: u32, height: u32, width: u32, value: u16) -> Tile<u16> {
    Tile {
        position: Position::new(x, y),
        size: Dimensions::new(height, width),
        value,
    }
}

fn target() -> Vec<Vec<u16>> {
    vec![vec![10, 0], vec![0, 50]]
}

#[test]
fn build_spreads_each_tile_over_its_cells() {
    let tiles = vec![tile(0, 0, 2, 1, 10), tile(1, 0, 2, 1, 50)];
    let field = builder::build(&tiles, Dimensions::new(2, 2), &target(), 5, 0);
    assert_eq!(
        field,
        vec![vec![Some(0), Some(1)], vec![Some(0), Some(1)]]
    );
}

#[test]
fn build_every_cell_written_by_its_one_tile() {
    // Four tiles that part a field of 4 by 4; each cell holds the distance
    // of the tile that covers it.
    let tiles = vec![
        tile(0, 0, 2, 2, 10),
        tile(2, 0, 2, 2, 50),
        tile(0, 2, 2, 4, 10),
        tile(3, 3, 0, 0, 77),
    ];
    let main = Dimensions::new(4, 4);
    let field = builder::build(&tiles, main, &target(), 5, 0);
    let d0 = builder::tile_distance(&tiles[0], main, &target(), 5, 0);
    let d1 = builder::tile_distance(&tiles[1], main, &target(), 5, 0);
    let d2 = builder::tile_distance(&tiles[2], main, &target(), 5, 0);
    assert_eq!(d0, Some(0));
    assert_eq!(d1, Some(1));
    assert_eq!(d2, Some(1));
    assert_eq!(
        field,
        vec![
            vec![d0, d0, d1, d1],
            vec![d0, d0, d1, d1],
            vec![d2, d2, d2, d2],
            vec![d2, d2, d2, d2],
        ]
    );
}

#[test]
fn build_leaves_failed_and_uncovered_cells_unresolved() {
    let tiles = vec![tile(0, 0, 1, 1, 99), tile(1, 1, 5, 5, 50)];
    let field = builder::build(&tiles, Dimensions::new(2, 3), &target(), 5, 0);
    assert_eq!(
        field,
        vec![vec![None, None, None], vec![None, Some(1), Some(1)]]
    );
    let none: Vec<Tile<u16>> = Vec::new();
    assert_eq!(
        builder::build(&none, Dimensions::new(1, 2), &target(), 5, 0),
        vec![vec![None, None]]
    );
    assert_eq!(
        builder::build(&tiles, Dimensions::new(0, 0), &target(), 5, 0),
        Vec::<Vec<Option<u32>>>::new()
    );
}

#[test]
fn build_later_tile_decides_where_tiles_overlap() {
    let tiles = vec![tile(0, 0, 1, 2, 10), tile(1, 0, 1, 1, 50)];
    let field = builder::build(&tiles, Dimensions::new(1, 2), &target(), 5, 0);
    assert_eq!(field, vec![vec![Some(0), Some(1)]]);
}

#[test]
fn size_of_rasters() {
    assert_eq!(builder::size_of(&target()), Dimensions::new(2, 2));
    let empty: Vec<Vec<u16>> = Vec::new();
    assert_eq!(builder::size_of(&empty), Dimensions::new(0, 0));
    let wide: Vec<Vec<u16>> = vec![vec![1, 2, 3]];
    assert_eq!(builder::size_of(&wide), Dimensions::new(1, 3));
}

#[test]
fn hasher_scores_by_distance() {
    let mut samples: Vec<u16> = vec![0; 40];
    samples[0] = 9;
    samples[1] = 5;
    let hasher = DepthHasher::from_luma(&samples, 40, 1, Dimensions::new(1, 1), 0);
    let data: Vec<Vec<u16>> = vec![vec![5]];
    assert_eq!(hasher.hash(&data, Position::new(0, 0), Dimensions::new(1, 1)), 1);
    let data: Vec<Vec<u16>> = vec![vec![9]];
    assert_eq!(hasher.hash(&data, Position::new(0, 0), Dimensions::new(1, 1)), 0);
    // No match within a twentieth of the longer side: the score is zero.
    let data: Vec<Vec<u16>> = vec![vec![77]];
    assert_eq!(hasher.hash(&data, Position::new(0, 0), Dimensions::new(1, 1)), 0);
}

#[test]
fn hasher_over_colour_samples() {
    let mut samples: Vec<u8> = vec![0; 120];
    samples[3] = 10;
    samples[4] = 20;
    samples[5] = 30;
    let hasher = DepthHasher::from_rgb(&samples, 40, 1, Dimensions::new(1, 1), [1, 1, 1]);
    let data: Vec<Vec<[u8; 3]>> = vec![vec![[11, 19, 30]]];
    assert_eq!(hasher.hash(&data, Position::new(0, 0), Dimensions::new(1, 1)), 1);
    let data: Vec<Vec<[u8; 3]>> = vec![vec![[12, 19, 30]]];
    assert_eq!(hasher.hash(&data, Position::new(0, 0), Dimensions::new(1, 1)), 0);
}

#[test]
fn checker_compares_scores() {
    let checker = DepthChecker { precision: 20u32 };
    assert!(checker.eq(0, 0));
    assert!(checker.eq(100, 120));
    assert!(checker.eq(120, 100));
    assert!(!checker.eq(100, 121));
    assert!(checker.eq(0, 20));
    assert!(!checker.eq(0, 21));
    assert!(!checker.eq(21, 0));
    let strict = DepthChecker { precision: 0u32 };
    assert!(strict.eq(0, 0));
    assert!(strict.eq(5, 5));
    assert!(!strict.eq(5, 6));
}

#[test]
fn pixels_within_tolerance() {
    assert!(5u8.is_within(&7, &2));
    assert!(!5u8.is_within(&8, &2));
    assert!(7u16.is_within(&7, &0));
    assert!(!0u32.is_within(&u32::MAX, &(u32::MAX - 1)));
    assert!(0u32.is_within(&u32::MAX, &u32::MAX));
    assert!([1u16, 2, 3].is_within(&[2, 2, 1], &[1, 0, 2]));
    assert!(![1u16, 2, 3].is_within(&[2, 3, 1], &[1, 0, 2]));
}

#[test]
fn rows_and_samples() {
    let samples: Vec<u8> = vec![1, 2, 3, 4, 5, 6];
    assert_eq!(pixels::to_rows(&samples, 3, 2), vec![vec![1, 2, 3], vec![4, 5, 6]]);
    assert_eq!(pixels::to_rows(&samples, 2, 3), vec![vec![1, 2], vec![3, 4], vec![5, 6]]);
    assert_eq!(pixels::to_rgb_rows(&samples, 2, 1), vec![vec![[1, 2, 3], [4, 5, 6]]]);
    assert_eq!(pixels::to_rgb_rows(&samples, 1, 2), vec![vec![[1, 2, 3]], vec![[4, 5, 6]]]);
    assert_eq!(pixels::flatten(&vec![vec![1u8, 2], vec![], vec![3]]), vec![1, 2, 3]);
    let rgba: Vec<u8> = vec![1, 2, 3, 4, 5, 6, 7, 8];
    let rows = pixels::to_rgba_rows(&rgba, 1, 2);
    assert_eq!(rows, vec![vec![[1, 2, 3, 4]], vec![[5, 6, 7, 8]]]);
    assert_eq!(pixels::to_rgba_samples(&rows), rgba);
    assert_eq!(pixels::copy_rows(&rows), rows);
    assert_eq!(pixels::filled(2, 1, 9u8), vec![vec![9, 9]]);
    let none: Vec<u8> = Vec::new();
    assert_eq!(pixels::to_rows(&none, 0, 0), Vec::<Vec<u8>>::new());
    assert_eq!(pixels::to_rows(&none, 0, 2), vec![Vec::<u8>::new(), Vec::new()]);
}

#[test]
fn sixteen_bits_to_eight() {
    let samples: Vec<u16> = vec![0x1234, 0xffff, 0x00ff, 0x0100];
    assert_eq!(preparations::luma16_to8(&samples), vec![0x12, 0xff, 0x00, 0x01]);
    assert_eq!(preparations::rgb16_to8(&samples), vec![0x12, 0xff, 0x00, 0x01]);
    assert_eq!(preparations::mean_brightness(&vec![1, 2, 4]), 2);
    assert_eq!(preparations::mean_brightness(&vec![65535, 65535]), 65535);
}

#[test]
fn complement_of_a_raster() {
    let rows: Vec<Vec<u8>> = vec![vec![0, 255], vec![], vec![100]];
    let once = pixels::complemented(&rows);
    assert_eq!(once, vec![vec![255, 0], vec![], vec![155]]);
    assert_eq!(pixels::complemented(&once), rows);
}

#[test]
fn spread_depths_over_the_field() {
    let tiles = vec![tile(0, 0, 1, 2, 10), tile(1, 0, 2, 1, 50)];
    let depths: Vec<Option<u32>> = vec![Some(7), None];
    assert_eq!(
        builder::spread_depths(&tiles, &depths, Dimensions::new(2, 2)),
        vec![vec![Some(7), None], vec![None, None]]
    );
}
