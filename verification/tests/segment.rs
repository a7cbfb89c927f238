use depth_mask::segment;

#[test]
fn split_two_groups() {
    let samples: Vec<u8> = vec![10, 10, 10, 200, 200, 200];
    assert_eq!(
        segment::split(&samples, 2),
        vec![(Some(10), Some(10)), (Some(200), Some(200))]
    );
}

#[test]
fn split_with_fewer_than_two_zones() {
    let samples: Vec<u8> = vec![10, 10, 10, 200, 200, 200];
    assert_eq!(segment::split(&samples, 0), vec![(None, None)]);
    assert_eq!(segment::split(&samples, 1), vec![(None, None)]);
}

#[test]
fn split_gives_as_many_zones_as_asked_and_covers_all_samples() {
    let samples: Vec<u8> = vec![0, 3, 5, 90, 100, 110, 250, 251, 12, 95, 255, 7];
    let zones = segment::split(&samples, 3);
    assert_eq!(
        zones,
        vec![(Some(0), Some(12)), (Some(90), Some(110)), (Some(250), Some(255))]
    );
    let mut covered: usize = 0;
    for v in &samples {
        let mut hits: usize = 0;
        for z in &zones {
            if let (Some(lo), Some(hi)) = z {
                if lo <= v && v <= hi {
                    hits += 1;
                }
            }
        }
        assert_eq!(hits, 1);
        covered += hits;
    }
    assert_eq!(covered, samples.len());
}

#[test]
fn split_of_uniform_and_empty_samples() {
    let uniform: Vec<u8> = vec![7, 7, 7];
    assert_eq!(
        segment::split(&uniform, 3),
        vec![(Some(7), Some(7)), (None, None), (None, None)]
    );
    let empty: Vec<u8> = Vec::new();
    assert_eq!(segment::split(&empty, 2), vec![(None, None), (None, None)]);
}

#[test]
fn split_with_the_most_zones() {
    let samples: Vec<u8> = (0..=255).collect();
    let zones = segment::split(&samples, 255);
    assert_eq!(zones.len(), 255);
    let mut count: usize = 0;
    for z in &zones {
        if let (Some(lo), Some(hi)) = z {
            count += (*hi as usize) - (*lo as usize) + 1;
        }
    }
    assert_eq!(count, 256);
}

#[test]
fn nearest_index_breaks_ties_to_the_first() {
    let centroids: Vec<u32> = vec![10, 20, 20, 40];
    assert_eq!(segment::nearest_index(&centroids, 15), 0);
    assert_eq!(segment::nearest_index(&centroids, 16), 1);
    assert_eq!(segment::nearest_index(&centroids, 30), 1);
    assert_eq!(segment::nearest_index(&centroids, 31), 3);
    assert_eq!(segment::nearest_index(&centroids, 0), 0);
}
