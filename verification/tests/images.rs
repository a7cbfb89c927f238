use depth_mask::builder::Tile;
use depth_mask::depth_image::DepthImage;
use depth_mask::geometry::Dimensions;
use depth_mask::geometry::Position;
use depth_mask::mask_image;
use depth_mask::mask_image::ImageError;
use depth_mask::mask_image::MaskImage;
use depth_mask::mask_image::MASK_FALSE;
use depth_mask::mask_image::MASK_TRUE;
use depth_mask::raster;

fn picture() -> Vec<u8> {
    vec![
        10, 200, 250, 77, 1, 2, 3, 4, //
        100, 100, 100, 100, 255, 0, 128, 9,
    ]
}

fn masked(mask: Vec<u8>) -> MaskImage {
    let mut m = MaskImage::from_image(2, 2, &picture());
    assert_eq!(m.load_mask(&mask, 2, 2), Ok(()));
    m
}

#[test]
fn mask_image_from_samples() {
    let m = MaskImage::from_image(2, 2, &picture());
    assert_eq!(m.width(), 2);
    assert_eq!(m.height(), 2);
    assert_eq!(m.dimensions(), Dimensions::new(2, 2));
    assert_eq!(
        m.image(),
        &vec![
            vec![[10, 200, 250, 77], [1, 2, 3, 4]],
            vec![[100, 100, 100, 100], [255, 0, 128, 9]],
        ]
    );
    assert_eq!(m.mask(), &vec![vec![MASK_TRUE, MASK_TRUE], vec![MASK_TRUE, MASK_TRUE]]);
}

#[test]
fn load_mask_of_the_same_size() {
    let m = masked(vec![255, 0, 7, 255]);
    assert_eq!(m.mask(), &vec![vec![255, 0], vec![7, 255]]);
}

#[test]
fn load_mask_of_another_size_is_resampled() {
    let mut m = MaskImage::from_image(2, 2, &picture());
    assert_eq!(m.load_mask(&vec![0], 1, 1), Ok(()));
    assert_eq!(m.mask(), &vec![vec![0, 0], vec![0, 0]]);
    assert_eq!(m.load_mask(&vec![200; 9], 3, 3), Ok(()));
    assert_eq!(m.mask(), &vec![vec![200, 200], vec![200, 200]]);
    // A mask whose left half is selected keeps its halves when halved.
    let wide: Vec<u8> = vec![
        255, 255, 255, 255, 0, 0, 0, 0, //
        255, 255, 255, 255, 0, 0, 0, 0, //
        255, 255, 255, 255, 0, 0, 0, 0, //
        255, 255, 255, 255, 0, 0, 0, 0,
    ];
    assert_eq!(m.load_mask(&wide, 8, 4), Ok(()));
    let mask = m.mask();
    assert_eq!(mask.len(), 2);
    assert_eq!(mask[0].len(), 2);
    assert!(mask[0][0] > 128 && mask[0][1] < 128);
    assert!(mask[1][0] > 128 && mask[1][1] < 128);
    assert_eq!(m.image().len(), 2);
}

#[test]
fn mask_algebra() {
    let mut a = masked(vec![255, 255, 0, 0]);
    let b = masked(vec![255, 0, 255, 0]);
    a.mask_and(&b);
    assert_eq!(a.mask(), &vec![vec![255, 0], vec![0, 0]]);
    let mut a = masked(vec![255, 255, 0, 0]);
    a.mask_or(&b);
    assert_eq!(a.mask(), &vec![vec![255, 255], vec![255, 0]]);
    let mut a = masked(vec![255, 254, 0, 1]);
    a.mask_and(&masked(vec![255, 255, 255, 255]));
    assert_eq!(a.mask(), &vec![vec![255, 0], vec![0, 0]]);
    let mut a = masked(vec![255, 100, 0, 1]);
    a.mask_not();
    assert_eq!(a.mask(), &vec![vec![0, 155], vec![255, 254]]);
    a.mask_reset();
    assert_eq!(a.mask(), &vec![vec![255, 255], vec![255, 255]]);
    a.mask_copy(&b);
    assert_eq!(a.mask(), b.mask());
}

#[test]
fn mask_algebra_with_another_size() {
    let mut a = masked(vec![255, 255, 0, 0]);
    let mut small = MaskImage::from_image(1, 1, &vec![0, 0, 0, 0]);
    a.mask_and(&small);
    assert_eq!(a.mask(), &vec![vec![255, 255], vec![0, 0]]);
    small.mask_not();
    a.mask_or(&small);
    assert_eq!(a.mask(), &vec![vec![255, 255], vec![0, 0]]);
    a.mask_and(&small);
    assert_eq!(a.mask(), &vec![vec![0, 0], vec![0, 0]]);
    a.mask_copy(&MaskImage::from_image(1, 1, &vec![0, 0, 0, 0]));
    assert_eq!(a.mask(), &vec![vec![255, 255], vec![255, 255]]);
}

#[test]
fn apply_mask_blacks_out_unselected_pixels() {
    let mut m = masked(vec![255, 0, 1, 0]);
    m.apply_mask();
    assert_eq!(
        m.image(),
        &vec![
            vec![[10, 200, 250, 77], [0, 0, 0, 0]],
            vec![[100, 100, 100, 100], [0, 0, 0, 0]],
        ]
    );
    assert_eq!(m.mask(), &vec![vec![255, 0], vec![1, 0]]);
}

#[test]
fn highlight_mask_marks_selected_pixels() {
    let m = masked(vec![255, 0, 255, 255]);
    assert_eq!(
        m.highlight_mask(),
        vec![
            vec![[20, 100, 125, 77], [1, 2, 3, 4]],
            vec![[200, 50, 50, 100], [255, 0, 64, 9]],
        ]
    );
}

#[test]
fn image_brightness_on_selected_pixels() {
    let mut m = masked(vec![255, 0, 255, 255]);
    m.image_brightness(10);
    assert_eq!(
        m.image(),
        &vec![
            vec![[20, 210, 255, 77], [1, 2, 3, 4]],
            vec![[110, 110, 110, 100], [255, 10, 138, 9]],
        ]
    );
    m.image_brightness(-120);
    assert_eq!(
        m.image(),
        &vec![
            vec![[0, 90, 135, 77], [1, 2, 3, 4]],
            vec![[0, 0, 0, 100], [135, 0, 18, 9]],
        ]
    );
    m.image_brightness(i32::MAX);
    assert_eq!(
        m.image(),
        &vec![
            vec![[255, 255, 255, 77], [1, 2, 3, 4]],
            vec![[255, 255, 255, 100], [255, 255, 255, 9]],
        ]
    );
    m.image_brightness(i32::MIN);
    assert_eq!(
        m.image(),
        &vec![
            vec![[0, 0, 0, 77], [1, 2, 3, 4]],
            vec![[0, 0, 0, 100], [0, 0, 0, 9]],
        ]
    );
}

#[test]
fn image_replace_copies_selected_pixels() {
    let mut m = masked(vec![255, 0, 255, 255]);
    let other = MaskImage::from_image(2, 2, &vec![9; 16]);
    m.image_replace(&other, Position::new(0, 0));
    assert_eq!(
        m.image(),
        &vec![
            vec![[9, 9, 9, 9], [1, 2, 3, 4]],
            vec![[9, 9, 9, 9], [9, 9, 9, 9]],
        ]
    );
    // A patch of one pixel laid down at the origin.
    let mut m = masked(vec![255, 255, 255, 255]);
    let patch = MaskImage::from_image(1, 1, &vec![8; 4]);
    m.image_replace(&patch, Position::new(0, 0));
    assert_eq!(
        m.image(),
        &vec![
            vec![[8, 8, 8, 8], [1, 2, 3, 4]],
            vec![[100, 100, 100, 100], [255, 0, 128, 9]],
        ]
    );
    // Laid down outside the picture, a patch covers nothing.
    m.image_replace(&patch, Position::new(2, 2));
    assert_eq!(m.image()[0][0], [8, 8, 8, 8]);
    assert_eq!(m.image()[1][1], [255, 0, 128, 9]);
}

#[test]
fn depth_image_from_samples() {
    let d = DepthImage::from_image(2, 2, &picture());
    assert_eq!(d.width(), 2);
    assert_eq!(d.height(), 2);
    assert_eq!(d.dimensions(), Dimensions::new(2, 2));
    assert_eq!(d.image()[1][1], [255, 0, 128, 9]);
    assert_eq!(d.depth(), &vec![vec![0, 0], vec![0, 0]]);
}

#[test]
fn load_depth_is_strict_about_size() {
    let mut d = DepthImage::from_image(2, 2, &picture());
    assert_eq!(d.load_depth(&vec![1, 2, 3, 4], 2, 2), Ok(()));
    assert_eq!(d.depth(), &vec![vec![1, 2], vec![3, 4]]);
    assert_eq!(d.load_depth(&vec![9, 9, 9, 9], 4, 1), Err(ImageError::SizeMismatch));
    assert_eq!(d.load_depth(&vec![9], 1, 1), Err(ImageError::SizeMismatch));
    assert_eq!(d.depth(), &vec![vec![1, 2], vec![3, 4]]);
}

#[test]
fn invert_depth_twice_gives_the_map_back() {
    let mut d = DepthImage::from_image(2, 2, &picture());
    assert_eq!(d.load_depth(&vec![0, 255, 100, 7], 2, 2), Ok(()));
    d.invert_depth();
    assert_eq!(d.depth(), &vec![vec![255, 0], vec![155, 248]]);
    d.invert_depth();
    assert_eq!(d.depth(), &vec![vec![0, 255], vec![100, 7]]);
}

#[test]
fn slice_selects_a_range_of_depth() {
    let mut d = DepthImage::from_image(2, 2, &picture());
    assert_eq!(d.load_depth(&vec![0, 255, 100, 7], 2, 2), Ok(()));
    let m = d.slice(Some(7), Some(100));
    assert_eq!(m.mask(), &vec![vec![MASK_FALSE, MASK_FALSE], vec![MASK_TRUE, MASK_TRUE]]);
    assert_eq!(m.image(), d.image());
    let m = d.slice(None, Some(7));
    assert_eq!(m.mask(), &vec![vec![MASK_TRUE, MASK_FALSE], vec![MASK_FALSE, MASK_TRUE]]);
    let m = d.slice(Some(100), None);
    assert_eq!(m.mask(), &vec![vec![MASK_FALSE, MASK_TRUE], vec![MASK_TRUE, MASK_FALSE]]);
    let m = d.slice(None, None);
    assert_eq!(m.mask(), &vec![vec![MASK_TRUE, MASK_TRUE], vec![MASK_TRUE, MASK_TRUE]]);
    let m = d.slice(Some(101), Some(100));
    assert_eq!(m.mask(), &vec![vec![MASK_FALSE, MASK_FALSE], vec![MASK_FALSE, MASK_FALSE]]);
}

#[test]
fn foreground_is_the_first_of_two_zones() {
    let mut d = DepthImage::from_image(2, 2, &picture());
    assert_eq!(d.load_depth(&vec![10, 200, 12, 210], 2, 2), Ok(()));
    assert_eq!(
        d.depth_split(2),
        vec![(Some(10), Some(12)), (Some(200), Some(210))]
    );
    assert_eq!(d.depth_split(1), vec![(None, None)]);
    let m = d.select_foreground();
    assert_eq!(m.mask(), &vec![vec![MASK_TRUE, MASK_FALSE], vec![MASK_TRUE, MASK_FALSE]]);
    assert_eq!(d.depth(), &vec![vec![10, 200], vec![12, 210]]);
}

fn colour_tile(x: u32, y: u32, height: u32, width: u32, v: u8) -> Tile<[u8; 3]> {
    Tile {
        position: Position::new(x, y),
        size: Dimensions::new(height, width),
        value: [v, v, v],
    }
}

#[test]
fn depth_from_tiles() {
    let target: Vec<Vec<[u8; 3]>> = vec![
        vec![[10, 10, 10], [0, 0, 0]],
        vec![[0, 0, 0], [50, 50, 50]],
    ];
    let mut d = DepthImage::from_image(2, 2, &picture());
    let tiles = vec![colour_tile(0, 0, 2, 1, 10), colour_tile(1, 0, 2, 1, 50)];
    assert_eq!(d.load_depth_from_additional(&tiles, &target, 5, [0, 0, 0]), Ok(()));
    assert_eq!(d.depth(), &vec![vec![0, 255], vec![0, 255]]);
    // One tile finds nothing: its cells are filled from their neighbours.
    let tiles = vec![colour_tile(0, 0, 2, 1, 50), colour_tile(1, 0, 2, 1, 99)];
    assert_eq!(d.load_depth_from_additional(&tiles, &target, 5, [0, 0, 0]), Ok(()));
    assert_eq!(d.depth(), &vec![vec![0, 0], vec![0, 0]]);
}

#[test]
fn depth_from_tiles_that_find_nothing() {
    let target: Vec<Vec<[u8; 3]>> = vec![vec![[10, 10, 10]]];
    let mut d = DepthImage::from_image(2, 2, &picture());
    assert_eq!(d.load_depth(&vec![1, 2, 3, 4], 2, 2), Ok(()));
    let tiles = vec![colour_tile(0, 0, 2, 2, 99)];
    assert_eq!(
        d.load_depth_from_additional(&tiles, &target, 5, [0, 0, 0]),
        Err(ImageError::Unresolved)
    );
    assert_eq!(d.depth(), &vec![vec![1, 2], vec![3, 4]]);
}

#[test]
fn load_depth_field_checks_size_and_gaps() {
    let mut d = DepthImage::from_image(2, 2, &picture());
    assert_eq!(d.load_depth(&vec![1, 2, 3, 4], 2, 2), Ok(()));
    let narrow: Vec<Vec<Option<u32>>> = vec![vec![Some(1)], vec![Some(2)]];
    assert_eq!(d.load_depth_field(&narrow), Err(ImageError::SizeMismatch));
    let ragged: Vec<Vec<Option<u32>>> = vec![vec![Some(1), Some(2)], vec![Some(2)]];
    assert_eq!(d.load_depth_field(&ragged), Err(ImageError::SizeMismatch));
    let empty: Vec<Vec<Option<u32>>> = vec![vec![None, None], vec![None, None]];
    assert_eq!(d.load_depth_field(&empty), Err(ImageError::Unresolved));
    assert_eq!(d.depth(), &vec![vec![1, 2], vec![3, 4]]);
    let field: Vec<Vec<Option<u32>>> = vec![vec![Some(10), None], vec![Some(30), Some(20)]];
    // The gap takes the lower median of 10, 20, 30; then 10 ..= 30 is
    // carried onto 0 ..= 255.
    assert_eq!(d.load_depth_field(&field), Ok(()));
    assert_eq!(d.depth(), &vec![vec![0, 127], vec![255, 127]]);
}

#[test]
fn load_mask_without_samples_never_fails() {
    let mut m = MaskImage::from_image(1, 1, &vec![1, 2, 3, 4]);
    assert_eq!(m.mask(), &vec![vec![255]]);
    assert_eq!(m.load_mask(&Vec::new(), 0, 0), Ok(()));
    assert_eq!(m.mask(), &vec![vec![0]]);
    assert_eq!(m.image(), &vec![vec![[1, 2, 3, 4]]]);
    assert_eq!(m.load_mask(&Vec::new(), 0, 5), Ok(()));
    assert_eq!(m.mask().len(), 1);
    assert_eq!(m.mask()[0].len(), 1);
    assert_eq!(m.load_mask(&Vec::new(), 7, 0), Ok(()));
    assert_eq!(m.mask().len(), 1);
    assert_eq!(m.mask()[0].len(), 1);
    // A picture without pixels takes any mask too.
    let mut none = MaskImage::from_image(0, 0, &Vec::new());
    assert_eq!(none.load_mask(&vec![255; 6], 3, 2), Ok(()));
    assert_eq!(none.mask().len(), 0);
    let mut flat = MaskImage::from_image(0, 2, &Vec::new());
    assert_eq!(flat.load_mask(&vec![255; 6], 3, 2), Ok(()));
    assert_eq!(flat.mask(), &vec![Vec::<u8>::new(), Vec::new()]);
}

#[test]
fn mask_algebra_with_a_mask_without_samples() {
    let empty = MaskImage::from_image(0, 0, &Vec::new());
    let mut a = masked(vec![255, 255, 0, 0]);
    a.mask_or(&empty);
    assert_eq!(a.mask().len(), 2);
    assert_eq!(a.mask()[0].len(), 2);
    assert_eq!(a.mask()[1].len(), 2);
    assert_eq!(a.mask()[0], vec![255, 255]);
    a.mask_and(&empty);
    assert_eq!(a.mask().len(), 2);
    assert_eq!(a.mask()[1], vec![0, 0]);
    a.mask_copy(&empty);
    assert_eq!(a.mask().len(), 2);
    assert_eq!(a.mask()[0].len(), 2);
}

#[test]
fn merge_of_two_masks() {
    let mine: Vec<Vec<u8>> = vec![vec![255, 255, 0, 0, 254]];
    let theirs: Vec<Vec<u8>> = vec![vec![255, 0, 255, 0, 255]];
    let size = Dimensions::new(1, 5);
    assert_eq!(
        mask_image::merge(&mine, &theirs, size, false),
        vec![vec![255, 0, 0, 0, 0]]
    );
    assert_eq!(
        mask_image::merge(&mine, &theirs, size, true),
        vec![vec![255, 255, 255, 0, 255]]
    );
    let none: Vec<Vec<u8>> = Vec::new();
    assert_eq!(
        mask_image::merge(&none, &none, Dimensions::new(0, 0), true),
        Vec::<Vec<u8>>::new()
    );
}

#[test]
fn take_mask_puts_the_mask_in_place() {
    let mut m = MaskImage::from_image(2, 2, &picture());
    m.take_mask(vec![vec![1, 2], vec![3, 4]]);
    assert_eq!(m.mask(), &vec![vec![1, 2], vec![3, 4]]);
    assert_eq!(m.image()[0][0], [10, 200, 250, 77]);
}

#[test]
fn default_and_clone_of_pictures() {
    let m = MaskImage::default();
    assert_eq!(m.dimensions(), Dimensions::new(0, 0));
    assert_eq!(m.image().len(), 0);
    assert_eq!(m.mask().len(), 0);
    let d = DepthImage::default();
    assert_eq!(d.dimensions(), Dimensions::new(0, 0));
    assert_eq!(d.image().len(), 0);
    assert_eq!(d.depth().len(), 0);
    assert_eq!(d.depth_split(2), vec![(None, None), (None, None)]);
    let m = masked(vec![255, 0, 7, 255]);
    let copy = m.clone();
    assert_eq!(copy.image(), m.image());
    assert_eq!(copy.mask(), m.mask());
    assert_eq!(copy.dimensions(), m.dimensions());
    assert_eq!(format!("{:?}", copy), format!("{:?}", m));
    let mut d = DepthImage::from_image(2, 2, &picture());
    assert_eq!(d.load_depth(&vec![1, 2, 3, 4], 2, 2), Ok(()));
    let copy = d.clone();
    assert_eq!(copy.depth(), d.depth());
    assert_eq!(copy.image(), d.image());
}

#[test]
fn a_mask_that_selects_nothing_resamples_to_one() {
    let mut m = MaskImage::from_image(2, 2, &picture());
    assert_eq!(m.load_mask(&vec![0; 12], 4, 3), Ok(()));
    assert_eq!(m.mask(), &vec![vec![0, 0], vec![0, 0]]);
    m.mask_reset();
    assert_eq!(m.load_mask(&Vec::new(), 0, 9), Ok(()));
    assert_eq!(m.mask(), &vec![vec![0, 0], vec![0, 0]]);
    let mut nothing = MaskImage::from_image(3, 1, &vec![7; 12]);
    nothing.mask_not();
    let mut a = masked(vec![255, 255, 0, 0]);
    a.mask_or(&nothing);
    assert_eq!(a.mask(), &vec![vec![255, 255], vec![0, 0]]);
    a.mask_and(&nothing);
    assert_eq!(a.mask(), &vec![vec![0, 0], vec![0, 0]]);
    a.mask_reset();
    a.mask_copy(&nothing);
    assert_eq!(a.mask(), &vec![vec![0, 0], vec![0, 0]]);
}

#[test]
fn what_can_be_resampled() {
    assert!(raster::can_resample(0, 0, 1, 1));
    assert!(raster::can_resample(3, 2, 0, 0));
    assert!(raster::can_resample(16_777_216, 1, 16_777_216, 1));
    assert!(!raster::can_resample(16_777_217, 1, 2, 1));
    assert!(!raster::can_resample(1, 16_777_217, 2, 1));
    assert!(!raster::can_resample(1, 1, 16_777_217, 1));
    assert!(!raster::can_resample(1, 1, 1, 16_777_217));
    assert!(!raster::can_resample(125_829_128, 1, 251_658_240, 1));
    assert!(mask_image::can_fit(
        Dimensions::new(1, u32::MAX),
        Dimensions::new(1, u32::MAX)
    ));
    assert!(!mask_image::can_fit(
        Dimensions::new(1, u32::MAX),
        Dimensions::new(1, 2)
    ));
    assert!(mask_image::can_fit(Dimensions::new(0, 0), Dimensions::new(7, 9)));
}
