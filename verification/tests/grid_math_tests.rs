use std::collections::HashSet;
use unholy_force::grid_math::{
    traverse_area_inward, traverse_area_outward, TraverseAreaInwardIterator,
    TraverseAreaOutwardIterator,
};

fn collect_inward(width: usize) -> Vec<[usize; 2]> {
    let mut it = traverse_area_inward(width);
    let mut res = Vec::new();
    while let Some(p) = it.next() {
        res.push(p);
    }
    res
}

fn collect_outward(width: usize) -> Vec<[usize; 2]> {
    let mut it = traverse_area_outward(width);
    let mut res = Vec::new();
    while let Some(p) = it.next() {
        res.push(p);
    }
    res
}

fn assert_yields_all_coords_once(coords: Vec<[usize; 2]>, width: usize) {
    let mut set = HashSet::new();
    for y in 0..width {
        for x in 0..width {
            set.insert([x, y]);
        }
    }
    let mut count = 0;
    for p in coords {
        assert!(set.remove(&p), "unexpected or duplicate coord: {:?}", p);
        count += 1;
    }
    assert_eq!(count, width * width);
    assert!(set.is_empty());
}

fn assert_inward_next_eq(it: &mut TraverseAreaInwardIterator, expected: [usize; 2]) {
    assert_eq!(it.next(), Some(expected));
}

fn assert_outward_next_eq(it: &mut TraverseAreaOutwardIterator, expected: [usize; 2]) {
    assert_eq!(it.next(), Some(expected));
}

fn assert_outward_is_inward_reversed(width: usize) {
    let inward = collect_inward(width);
    let mut outward = collect_outward(width);
    outward.reverse();
    assert_eq!(inward, outward)
}

#[test]
fn test_traverse_area_inward_iterator0() {
    let mut iterator = traverse_area_inward(0);
    assert_eq!(iterator.next(), None);
}

#[test]
fn test_traverse_area_inward_iterator1() {
    let mut iterator = traverse_area_inward(1);
    assert_inward_next_eq(&mut iterator, [0, 0]);
    assert_eq!(iterator.next(), None);
}

#[test]
fn test_traverse_area_inward_iterator2x2() {
    let mut iterator = traverse_area_inward(2);
    assert_inward_next_eq(&mut iterator, [0, 0]);
    assert_inward_next_eq(&mut iterator, [1, 0]);
    assert_inward_next_eq(&mut iterator, [0, 1]);
    assert_inward_next_eq(&mut iterator, [1, 1]);
    assert_eq!(iterator.next(), None);
}

#[test]
fn test_traverse_area_inward_iterator3x3() {
    let mut iterator = traverse_area_inward(3);
    assert_inward_next_eq(&mut iterator, [0, 0]);
    assert_inward_next_eq(&mut iterator, [2, 0]);
    assert_inward_next_eq(&mut iterator, [0, 2]);
    assert_inward_next_eq(&mut iterator, [2, 2]);
    assert_inward_next_eq(&mut iterator, [1, 0]);
    assert_inward_next_eq(&mut iterator, [1, 2]);
    assert_inward_next_eq(&mut iterator, [0, 1]);
    assert_inward_next_eq(&mut iterator, [2, 1]);
    assert_inward_next_eq(&mut iterator, [1, 1]);
    assert_eq!(iterator.next(), None);
}

#[test]
fn test_traverse_area_inward_iterator4x4_yields_all_coords_once() {
    assert_yields_all_coords_once(collect_inward(4), 4);
}

#[test]
fn test_traverse_area_inward_iterator5x5_yields_all_coords_once() {
    assert_yields_all_coords_once(collect_inward(5), 5);
}

#[test]
fn test_traverse_area_inward_iterator6x6_yields_all_coords_once() {
    assert_yields_all_coords_once(collect_inward(6), 6);
}

#[test]
fn test_traverse_area_inward_iterator8x8_yields_all_coords_once() {
    assert_yields_all_coords_once(collect_inward(8), 8);
}

#[test]
fn test_traverse_area_inward_iterator16x16_yields_all_coords_once() {
    assert_yields_all_coords_once(collect_inward(16), 16);
}

#[test]
fn test_traverse_area_outward_iterator0() {
    let mut iterator = traverse_area_outward(0);
    assert_eq!(iterator.next(), None);
}

#[test]
fn test_traverse_area_outward_iterator1() {
    let mut iterator = traverse_area_outward(1);
    assert_outward_next_eq(&mut iterator, [0, 0]);
    assert_eq!(iterator.next(), None);
}

#[test]
fn test_traverse_area_outward_iterator2x2() {
    let mut iterator = traverse_area_outward(2);
    assert_outward_next_eq(&mut iterator, [1, 1]);
    assert_outward_next_eq(&mut iterator, [0, 1]);
    assert_outward_next_eq(&mut iterator, [1, 0]);
    assert_outward_next_eq(&mut iterator, [0, 0]);
    assert_eq!(iterator.next(), None);
}

#[test]
fn test_traverse_area_outward_iterator3x3() {
    let mut iterator = traverse_area_outward(3);
    assert_outward_next_eq(&mut iterator, [1, 1]);
    assert_outward_next_eq(&mut iterator, [2, 1]);
    assert_outward_next_eq(&mut iterator, [0, 1]);
    assert_outward_next_eq(&mut iterator, [1, 2]);
    assert_outward_next_eq(&mut iterator, [1, 0]);
    assert_outward_next_eq(&mut iterator, [2, 2]);
    assert_outward_next_eq(&mut iterator, [0, 2]);
    assert_outward_next_eq(&mut iterator, [2, 0]);
    assert_outward_next_eq(&mut iterator, [0, 0]);
    assert_eq!(iterator.next(), None);
}

#[test]
fn test_traverse_area_outward_iterator_yields_all_coords_once() {
    for width in 0..=16 {
        assert_yields_all_coords_once(collect_outward(width), width);
    }
}

#[test]
fn test_traverse_area_outward_iterator_is_inward_reversed() {
    for width in 0..=16 {
        assert_outward_is_inward_reversed(width);
    }
}

#[test]
fn inward_iterator_stays_exhausted() {
    let mut iterator = traverse_area_inward(2);
    for _ in 0..4 {
        assert!(iterator.next().is_some());
    }
    assert_eq!(iterator.next(), None);
    assert_eq!(iterator.next(), None);
}

#[test]
fn inward_iterator_4x4_visits_corners_first() {
    let coords = collect_inward(4);
    assert_eq!(&coords[0..4], &[[0, 0], [3, 0], [0, 3], [3, 3]]);
    assert_eq!(coords[15].len(), 2);
    assert_eq!(coords.len(), 16);
}

#[test]
fn outward_iterator_4x4_ends_at_corners() {
    let coords = collect_outward(4);
    assert_eq!(&coords[12..16], &[[3, 3], [0, 3], [3, 0], [0, 0]]);
}

fn ring_of(width: usize, p: [usize; 2]) -> usize {
    let [x, y] = p;
    x.min(y).min(width - 1 - x).min(width - 1 - y)
}

fn corner_distance(width: usize, p: [usize; 2]) -> usize {
    let r = ring_of(width, p);
    let m = width - 2 * r;
    let t = if p[1] == r || p[1] == r + m - 1 { p[0] - r } else { p[1] - r };
    t.min(m - 1 - t)
}

#[test]
fn inward_walk_goes_ring_by_ring_from_the_corners() {
    for width in 1..12usize {
        let cells = collect_inward(width);
        for k in 1..cells.len() {
            let (a, b) = (cells[k - 1], cells[k]);
            assert!(ring_of(width, a) <= ring_of(width, b));
            if ring_of(width, a) == ring_of(width, b) {
                assert!(corner_distance(width, a) <= corner_distance(width, b));
            }
        }
        let mut r = 0;
        while width >= 2 * r + 2 {
            let m = width - 2 * r;
            let q = width * width - m * m;
            assert_eq!(cells[q], [r, r]);
            assert_eq!(cells[q + 1], [r + m - 1, r]);
            assert_eq!(cells[q + 2], [r, r + m - 1]);
            assert_eq!(cells[q + 3], [r + m - 1, r + m - 1]);
            r += 1;
        }
    }
    let cells = collect_inward(6);
    assert_eq!(&cells[4..12], &[[1, 0], [4, 0], [1, 5], [4, 5], [0, 1], [0, 4], [5, 1], [5, 4]]);
}
