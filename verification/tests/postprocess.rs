use depth_mask::median;
use depth_mask::postprocess;

fn uniform_field(value: u32) -> Vec<Vec<Option<u32>>> {
    vec![vec![Some(value); 3]; 3]
}

#[test]
fn sorted_and_lower_median() {
    assert_eq!(median::sorted(&vec![5, 1, 4, 1, 3]), vec![1, 1, 3, 4, 5]);
    assert_eq!(median::sorted(&Vec::new()), Vec::<u32>::new());
    assert_eq!(median::lower_median_of(&vec![5, 1, 4, 1, 3]), 3);
    assert_eq!(median::lower_median_of(&vec![7, 1, 9, 2]), 2);
    assert_eq!(median::lower_median_of(&vec![42]), 42);
}

#[test]
fn normalize_uniform_field_gives_zeros() {
    let field = uniform_field(5);
    assert_eq!(postprocess::normalize(&field, 255), uniform_field(0));
}

#[test]
fn normalize_spans_the_range() {
    let field: Vec<Vec<Option<u32>>> = vec![
        vec![Some(10), None, Some(20)],
        vec![Some(15), Some(12), Some(10)],
    ];
    let out = postprocess::normalize(&field, 255);
    assert_eq!(
        out,
        vec![
            vec![Some(0), None, Some(255)],
            vec![Some(127), Some(51), Some(0)],
        ]
    );
    let mut least: u32 = u32::MAX;
    let mut greatest: u32 = 0;
    for row in &out {
        for cell in row {
            if let Some(v) = cell {
                least = least.min(*v);
                greatest = greatest.max(*v);
            }
        }
    }
    assert_eq!(least, 0);
    assert_eq!(greatest, 255);
}

#[test]
fn normalize_keeps_an_empty_field() {
    let field: Vec<Vec<Option<u32>>> = vec![vec![None, None], vec![None, None]];
    assert_eq!(postprocess::normalize(&field, 255), field);
    let none: Vec<Vec<Option<u32>>> = Vec::new();
    assert_eq!(postprocess::normalize(&none, 255), none);
}

#[test]
fn normalize_to_full_range_of_u32() {
    let field: Vec<Vec<Option<u32>>> = vec![vec![Some(0), Some(u32::MAX), Some(1 << 31)]];
    assert_eq!(
        postprocess::normalize(&field, u32::MAX),
        vec![vec![Some(0), Some(u32::MAX), Some(1 << 31)]]
    );
}

#[test]
fn field_extremes_of_fields() {
    let field: Vec<Vec<Option<u32>>> = vec![vec![None, Some(9)], vec![Some(3), Some(4)]];
    assert_eq!(postprocess::field_extremes(&field), Some((3, 9)));
    let empty: Vec<Vec<Option<u32>>> = vec![vec![None, None]];
    assert_eq!(postprocess::field_extremes(&empty), None);
}

#[test]
fn invert_is_self_inverse() {
    let field: Vec<Vec<Option<u32>>> = vec![
        vec![Some(0), None, Some(255)],
        vec![Some(100), Some(12), Some(7)],
    ];
    let once = postprocess::invert(&field, 255);
    assert_eq!(
        once,
        vec![
            vec![Some(255), None, Some(0)],
            vec![Some(155), Some(243), Some(248)],
        ]
    );
    assert_eq!(postprocess::invert(&once, 255), field);
}

#[test]
fn gap_fill_takes_the_lower_median_of_the_nearest_ring() {
    let field: Vec<Vec<Option<u32>>> = vec![
        vec![Some(1), Some(9), Some(3)],
        vec![Some(7), None, Some(5)],
        vec![Some(2), Some(8), None],
    ];
    // Ring 1 about (1, 1) holds 1 9 3 7 5 2 8: sorted 1 2 3 5 7 8 9, index 3.
    // Ring 1 about (2, 2) holds 5 and 8 (the gap at (1, 1) is no value).
    let out = postprocess::gap_fill(&field);
    assert_eq!(
        out,
        vec![
            vec![Some(1), Some(9), Some(3)],
            vec![Some(7), Some(5), Some(5)],
            vec![Some(2), Some(8), Some(5)],
        ]
    );
}

#[test]
fn gap_fill_reads_the_field_as_given() {
    // The cell (1, 0) does not see the filling of (0, 0): its nearest ring
    // with a value is ring 2, as it is for (0, 0) ring 2 too.
    let field: Vec<Vec<Option<u32>>> = vec![
        vec![None, None, Some(4)],
        vec![None, None, None],
        vec![None, None, Some(6)],
    ];
    let out = postprocess::gap_fill(&field);
    assert_eq!(
        out,
        vec![
            vec![Some(4), Some(4), Some(4)],
            vec![Some(4), Some(4), Some(4)],
            vec![Some(4), Some(6), Some(6)],
        ]
    );
}

#[test]
fn gap_fill_leaves_an_empty_field() {
    let field: Vec<Vec<Option<u32>>> = vec![vec![None, None], vec![None, None]];
    assert_eq!(postprocess::gap_fill(&field), field);
}

#[test]
fn gap_fill_looks_no_further_than_the_lesser_side() {
    let field: Vec<Vec<Option<u32>>> = vec![vec![Some(3), None, None, None]];
    assert_eq!(
        postprocess::gap_fill(&field),
        vec![vec![Some(3), Some(3), None, None]]
    );
}

#[test]
fn gap_fill_twice_on_resolved_field_changes_nothing() {
    let field = uniform_field(5);
    let once = postprocess::gap_fill(&field);
    let twice = postprocess::gap_fill(&once);
    assert_eq!(once, field);
    assert_eq!(twice, field);
    let mixed: Vec<Vec<Option<u32>>> = vec![vec![Some(1), Some(2)], vec![Some(3), Some(4)]];
    assert_eq!(postprocess::gap_fill(&postprocess::gap_fill(&mixed)), mixed);
}

#[test]
fn smooth_row_takes_window_medians() {
    let row: Vec<Option<u32>> = vec![Some(10), Some(2), None, Some(7), Some(1)];
    // kernel 4: window of cell i is the cells i - 2 .. i + 2.
    assert_eq!(
        postprocess::smooth_row(&row, 4),
        vec![Some(2), Some(2), Some(7), Some(2), Some(1)]
    );
    // kernel 2: the cell before and the cell itself.
    assert_eq!(
        postprocess::smooth_row(&row, 2),
        vec![Some(10), Some(2), Some(2), Some(7), Some(1)]
    );
}

#[test]
fn smooth_keeps_cells_with_empty_windows() {
    let row: Vec<Option<u32>> = vec![Some(10), None, None, None, Some(1)];
    assert_eq!(postprocess::smooth_row(&row, 0), row);
    assert_eq!(postprocess::smooth_row(&row, 1), row);
    assert_eq!(
        postprocess::smooth_row(&row, 2),
        vec![Some(10), Some(10), None, None, Some(1)]
    );
    let field: Vec<Vec<Option<u32>>> = vec![row.clone(), vec![None, Some(4)]];
    assert_eq!(
        postprocess::smooth(&field, 2),
        vec![
            vec![Some(10), Some(10), None, None, Some(1)],
            vec![None, Some(4)],
        ]
    );
    assert_eq!(
        postprocess::smooth_row(&row, usize::MAX),
        vec![Some(1), Some(1), Some(1), Some(1), Some(1)]
    );
}

#[test]
fn resolve_wants_every_cell() {
    let whole: Vec<Vec<Option<u32>>> = vec![vec![Some(1), Some(2)], vec![Some(3)]];
    assert_eq!(postprocess::resolve(&whole), Some(vec![vec![1, 2], vec![3]]));
    let gap: Vec<Vec<Option<u32>>> = vec![vec![Some(1), None]];
    assert_eq!(postprocess::resolve(&gap), None);
}
