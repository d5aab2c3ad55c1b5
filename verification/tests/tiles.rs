use wavefunction_collapse::tile::{has_label, overlaps};
use wavefunction_collapse::tile_model::Tile;

fn sample() -> Tile<&'static str, u8> {
    Tile::new("base", vec![1, 2], vec![3], vec![], vec![4, 4, 5])
}

fn sides(t: &Tile<&'static str, u8>) -> [Vec<u8>; 4] {
    [t.up().clone(), t.right().clone(), t.down().clone(), t.left().clone()]
}

#[test]
fn new_keeps_identity() {
    let t: Tile<u8, u8> = Tile::new(7, vec![1], vec![2], vec![3], vec![4]);
    assert_eq!(t.tile, 7);
}

#[test]
fn new_keeps_every_side_as_given() {
    let t = sample();
    assert_eq!(t.tile, "base");
    assert_eq!(sides(&t), [vec![1, 2], vec![3], vec![], vec![4, 4, 5]]);
}

#[test]
fn rotate_90_moves_left_to_up() {
    let r = sample().rotate_90("quarter");
    assert_eq!(r.tile, "quarter");
    assert_eq!(sides(&r), [vec![4, 4, 5], vec![1, 2], vec![3], vec![]]);
}

#[test]
fn rotate_180_swaps_opposite_sides() {
    let r = sample().rotate_180("half");
    assert_eq!(r.tile, "half");
    assert_eq!(sides(&r), [vec![], vec![4, 4, 5], vec![1, 2], vec![3]]);
}

#[test]
fn rotate_270_moves_right_to_up() {
    let r = sample().rotate_270("three");
    assert_eq!(r.tile, "three");
    assert_eq!(sides(&r), [vec![3], vec![], vec![4, 4, 5], vec![1, 2]]);
}

#[test]
fn rotation_leaves_the_tile_itself_alone() {
    let t = sample();
    let _ = t.rotate_90("a");
    let _ = t.rotate_180("b");
    let _ = t.rotate_270("c");
    assert_eq!(t.tile, "base");
    assert_eq!(sides(&t), [vec![1, 2], vec![3], vec![], vec![4, 4, 5]]);
}

#[test]
fn four_quarter_turns_come_back() {
    let t = sample();
    let r = t.rotate_90("1").rotate_90("2").rotate_90("3").rotate_90("4");
    assert_eq!(sides(&r), sides(&t));
    assert_eq!(r.tile, "4");
}

#[test]
fn two_quarter_turns_are_a_half_turn() {
    let t = sample();
    assert_eq!(sides(&t.rotate_90("1").rotate_90("2")), sides(&t.rotate_180("h")));
}

#[test]
fn three_quarter_turns_are_rotate_270() {
    let t = sample();
    let r = t.rotate_90("1").rotate_90("2").rotate_90("3");
    assert_eq!(sides(&r), sides(&t.rotate_270("t")));
}

#[test]
fn two_half_turns_come_back() {
    let t = sample();
    assert_eq!(sides(&t.rotate_180("1").rotate_180("2")), sides(&t));
}

#[test]
fn clone_keeps_identity_and_sides() {
    let t = sample();
    let c = t.clone();
    assert_eq!(c.tile, "base");
    assert_eq!(sides(&c), sides(&t));
}

#[test]
fn has_label_finds_equal_labels_only() {
    let theirs: Vec<u8> = vec![3, 5, 5, 8];
    assert!(has_label(&theirs, &3));
    assert!(has_label(&theirs, &5));
    assert!(has_label(&theirs, &8));
    assert!(!has_label(&theirs, &4));
    assert!(!has_label(&Vec::<u8>::new(), &3));
}

#[test]
fn overlaps_is_a_shared_label() {
    let a: Vec<u8> = vec![1, 2];
    let b: Vec<u8> = vec![3, 2];
    let c: Vec<u8> = vec![4];
    let none: Vec<u8> = Vec::new();
    assert!(overlaps(&a, &b));
    assert!(overlaps(&b, &a));
    assert!(!overlaps(&a, &c));
    assert!(!overlaps(&a, &none));
    assert!(!overlaps(&none, &a));
    assert!(!overlaps(&none, &none));
}

#[test]
fn overlaps_is_neither_subset_nor_equality() {
    let a: Vec<u8> = vec![1, 2, 3];
    let b: Vec<u8> = vec![3, 9];
    assert!(overlaps(&a, &b));
    let twice: Vec<u8> = vec![7, 7];
    let once: Vec<u8> = vec![7];
    assert!(overlaps(&twice, &once));
    assert!(overlaps(&once, &twice));
}
