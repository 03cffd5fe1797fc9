use emote_splitter::image_processing::calculate_bounding_box;
use emote_splitter::image_processing::calculate_bounding_boxes;
use emote_splitter::image_processing::find_connected_groups;
use emote_splitter::image_processing::find_non_transparent_pixels;
use emote_splitter::image_processing::merge_contained_groups;
use emote_splitter::image_processing::segment_groups;
use emote_splitter::pixel::Image;
use emote_splitter::pixel::Rgba;

fn blank(width: usize, height: usize) -> Image {
    let data = vec![Rgba { r: 0, g: 0, b: 0, a: 0 }; width * height];
    Image { width, height, data }
}

fn set_alpha(img: &mut Image, x: usize, y: usize, a: u8) {
    let w = img.width;
    img.data[y * w + x] = Rgba { r: 10, g: 20, b: 30, a };
}

fn sorted(mut v: Vec<(usize, usize)>) -> Vec<(usize, usize)> {
    v.sort();
    v
}

#[test]
fn mask_is_exactly_above_threshold() {
    // alpha 32 is not foreground, alpha 33 is: the comparison is strict
    let mut img = blank(3, 1);
    set_alpha(&mut img, 0, 0, 32);
    set_alpha(&mut img, 1, 0, 33);
    set_alpha(&mut img, 2, 0, 255);
    let mask = find_non_transparent_pixels(&img);
    assert_eq!(mask, vec![(1, 0), (2, 0)]);
}

#[test]
fn mask_is_row_major() {
    let mut img = blank(3, 3);
    set_alpha(&mut img, 2, 0, 255);
    set_alpha(&mut img, 0, 1, 255);
    set_alpha(&mut img, 1, 2, 255);
    let mask = find_non_transparent_pixels(&img);
    assert_eq!(mask, vec![(2, 0), (0, 1), (1, 2)]);
}

#[test]
fn single_opaque_pixel_yields_single_group() {
    // a 4x4 image, fully transparent except one opaque pixel at (1, 1)
    let mut img = blank(4, 4);
    set_alpha(&mut img, 1, 1, 255);
    let mask = find_non_transparent_pixels(&img);
    assert_eq!(mask, vec![(1, 1)]);
    let groups = find_connected_groups(&mask, &img);
    assert_eq!(groups.len(), 1);
    assert_eq!(groups[0], vec![(1, 1)]);
    assert_eq!(calculate_bounding_box(&groups[0]), (1, 1, 1, 1));
}

#[test]
fn all_transparent_image_yields_no_groups() {
    let img = blank(5, 5);
    let mask = find_non_transparent_pixels(&img);
    assert!(mask.is_empty());
    let groups = find_connected_groups(&mask, &img);
    assert!(groups.is_empty());
}

#[test]
fn two_disjoint_blocks_stay_two_groups() {
    // two opaque 2x2 blocks separated by transparent pixels
    let mut img = blank(6, 2);
    for y in 0..2 {
        for x in 0..2 {
            set_alpha(&mut img, x, y, 255);
            set_alpha(&mut img, x + 4, y, 255);
        }
    }
    let mask = find_non_transparent_pixels(&img);
    let groups = find_connected_groups(&mask, &img);
    assert_eq!(groups.len(), 2);
    assert_eq!(groups[0].len(), 4);
    assert_eq!(groups[1].len(), 4);
    assert_eq!(sorted(groups[0].clone()), vec![(0, 0), (0, 1), (1, 0), (1, 1)]);
    assert_eq!(sorted(groups[1].clone()), vec![(4, 0), (4, 1), (5, 0), (5, 1)]);
}

#[test]
fn segmentation_partitions_the_foreground() {
    let mut img = blank(6, 2);
    for y in 0..2 {
        for x in 0..2 {
            set_alpha(&mut img, x, y, 255);
            set_alpha(&mut img, x + 4, y, 255);
        }
    }
    let mask = find_non_transparent_pixels(&img);
    let groups = segment_groups(&mask, &img);
    // the union of the groups is the mask and no pixel occurs twice
    let mut all: Vec<(usize, usize)> = groups.concat();
    all.sort();
    let mut mask_sorted = mask.clone();
    mask_sorted.sort();
    assert_eq!(all, mask_sorted);
    all.dedup();
    assert_eq!(all.len(), mask.len());
}

#[test]
fn ring_absorbs_contained_blob() {
    // an opaque ring around a separate opaque blob strictly inside it
    let mut img = blank(7, 7);
    for i in 1..6 {
        set_alpha(&mut img, i, 1, 255);
        set_alpha(&mut img, i, 5, 255);
        set_alpha(&mut img, 1, i, 255);
        set_alpha(&mut img, 5, i, 255);
    }
    set_alpha(&mut img, 3, 3, 255);
    let mask = find_non_transparent_pixels(&img);
    let pre_merge = segment_groups(&mask, &img);
    assert_eq!(pre_merge.len(), 2);
    let merged = find_connected_groups(&mask, &img);
    assert_eq!(merged.len(), 1);
    // the kept group now holds the ring and the blob
    assert_eq!(merged[0].len(), mask.len());
    assert!(merged[0].contains(&(3, 3)));
    assert_eq!(calculate_bounding_box(&merged[0]), (1, 1, 5, 5));
}

#[test]
fn identical_boxes_merge_into_earlier_group() {
    // two groups with the same bounding box: the later one is absorbed into
    // the earlier one, which keeps its pixel order and appends the other's
    let a = vec![(0, 0), (2, 2)];
    let b = vec![(0, 2), (2, 0)];
    let merged = merge_contained_groups(vec![a, b]);
    assert_eq!(merged.len(), 1);
    assert_eq!(merged[0], vec![(0, 0), (2, 2), (0, 2), (2, 0)]);
}

#[test]
fn disjoint_boxes_do_not_merge() {
    let a = vec![(0, 0), (1, 1)];
    let b = vec![(3, 3), (4, 4)];
    let merged = merge_contained_groups(vec![a.clone(), b.clone()]);
    assert_eq!(merged, vec![a, b]);
}

#[test]
fn merge_is_idempotent_on_its_output() {
    let mut img = blank(7, 7);
    for i in 1..6 {
        set_alpha(&mut img, i, 1, 255);
        set_alpha(&mut img, i, 5, 255);
        set_alpha(&mut img, 1, i, 255);
        set_alpha(&mut img, 5, i, 255);
    }
    set_alpha(&mut img, 3, 3, 255);
    set_alpha(&mut img, 0, 0, 0);
    let mask = find_non_transparent_pixels(&img);
    let once = find_connected_groups(&mask, &img);
    let twice = merge_contained_groups(once.clone());
    assert_eq!(once, twice);
}

#[test]
fn bounding_boxes_follow_groups() {
    let groups = vec![vec![(2, 3), (4, 1)], vec![(0, 0)]];
    let boxes = calculate_bounding_boxes(&groups);
    assert_eq!(boxes, vec![(2, 1, 4, 3), (0, 0, 0, 0)]);
}

#[test]
fn empty_group_bounding_box_is_fold_seed() {
    let empty: Vec<(usize, usize)> = Vec::new();
    assert_eq!(calculate_bounding_box(&empty), (usize::MAX, usize::MAX, 0, 0));
}
