use wavefunction_collapse::board::{holding, is_wanted, place_of, schedule_neighbours, survey};
use wavefunction_collapse::fill::{Around, Slot};
use wavefunction_collapse::rng::pick;
use wavefunction_collapse::tile_model::{Tile, TileModel};

fn free() -> Around {
    Around { up: None, right: None, down: None, left: None }
}

fn plain(a: &Around) -> [Option<usize>; 4] {
    [a.up, a.right, a.down, a.left]
}

fn states(slots: &Vec<Slot>) -> Vec<i64> {
    slots
        .iter()
        .map(|s| match s {
            Slot::Open => -1,
            Slot::Stuck => -2,
            Slot::Placed(k) => *k as i64,
        })
        .collect()
}

fn model() -> TileModel<char, u8> {
    let blank = Tile::new('b', vec![0], vec![0], vec![0], vec![0]);
    let url = Tile::new('u', vec![1], vec![1], vec![0], vec![1]);
    let urb = url.rotate_90('r');
    let rbl = url.rotate_180('d');
    let ubl = url.rotate_270('l');
    TileModel::new(vec![blank, url, urb, rbl, ubl])
}

#[test]
fn pick_is_the_remainder() {
    assert_eq!(pick(17, 5), 2);
    assert_eq!(pick(0, 1), 0);
    assert_eq!(pick(u64::MAX, 1), 0);
    assert_eq!(pick(u64::MAX, 10), 5);
    assert_eq!(pick(4, 5), 4);
    assert_eq!(pick(5, 5), 0);
}

#[test]
fn place_of_is_row_major() {
    assert_eq!(place_of(4, 3, 0, 0), 0);
    assert_eq!(place_of(4, 3, 3, 0), 3);
    assert_eq!(place_of(4, 3, 0, 1), 4);
    assert_eq!(place_of(4, 3, 3, 2), 11);
    assert_eq!(place_of(1, 1, 0, 0), 0);
}

#[test]
fn holding_reads_placed_cells_only() {
    assert_eq!(holding(Slot::Placed(3)), Some(3));
    assert_eq!(holding(Slot::Open), None);
    assert_eq!(holding(Slot::Stuck), None);
}

#[test]
fn is_wanted_by_state() {
    assert!(is_wanted(Slot::Open, false));
    assert!(is_wanted(Slot::Open, true));
    assert!(is_wanted(Slot::Stuck, false));
    assert!(!is_wanted(Slot::Stuck, true));
    assert!(!is_wanted(Slot::Placed(0), false));
    assert!(!is_wanted(Slot::Placed(0), true));
}

fn three_by_three() -> Vec<Slot> {
    // 0 1 2
    // 3 4 5
    // 6 7 8
    vec![
        Slot::Open,
        Slot::Placed(1),
        Slot::Open,
        Slot::Placed(2),
        Slot::Open,
        Slot::Stuck,
        Slot::Open,
        Slot::Placed(4),
        Slot::Placed(0),
    ]
}

#[test]
fn survey_reads_the_four_sides() {
    let slots = three_by_three();
    assert_eq!(plain(&survey(&slots, 3, 3, 1, 1)), [Some(1), None, Some(4), Some(2)]);
    assert_eq!(plain(&survey(&slots, 3, 3, 0, 0)), [None, Some(1), Some(2), None]);
    assert_eq!(plain(&survey(&slots, 3, 3, 2, 2)), [None, None, None, Some(4)]);
    assert_eq!(plain(&survey(&slots, 3, 3, 2, 0)), [None, None, None, Some(1)]);
    assert_eq!(plain(&survey(&slots, 3, 3, 0, 2)), [Some(2), Some(4), None, None]);
    let one = vec![Slot::Open];
    assert_eq!(plain(&survey(&one, 1, 1, 0, 0)), [None, None, None, None]);
}

#[test]
fn schedule_pushes_up_right_down_left() {
    let slots = vec![Slot::Open; 9];
    let mut frontier = vec![(9, 9)];
    schedule_neighbours(&mut frontier, &slots, 3, 3, 1, 1, false);
    assert_eq!(frontier, vec![(9, 9), (1, 0), (2, 1), (1, 2), (0, 1)]);
}

#[test]
fn schedule_stops_at_the_rim() {
    let slots = vec![Slot::Open; 9];
    let mut frontier = Vec::new();
    schedule_neighbours(&mut frontier, &slots, 3, 3, 0, 0, false);
    assert_eq!(frontier, vec![(1, 0), (0, 1)]);
    let mut frontier = Vec::new();
    schedule_neighbours(&mut frontier, &slots, 3, 3, 2, 2, false);
    assert_eq!(frontier, vec![(2, 1), (1, 2)]);
    let one = vec![Slot::Open];
    let mut frontier = Vec::new();
    schedule_neighbours(&mut frontier, &one, 1, 1, 0, 0, false);
    assert!(frontier.is_empty());
}

#[test]
fn schedule_passes_over_placed_neighbours() {
    let slots = three_by_three();
    let mut frontier = Vec::new();
    schedule_neighbours(&mut frontier, &slots, 3, 3, 1, 1, false);
    assert_eq!(frontier, vec![(2, 1)]);
    let mut frontier = Vec::new();
    schedule_neighbours(&mut frontier, &slots, 3, 3, 2, 0, false);
    assert_eq!(frontier, vec![(2, 1)]);
}

#[test]
fn stuck_cell_schedules_open_neighbours_only() {
    let slots = three_by_three();
    let mut frontier = Vec::new();
    schedule_neighbours(&mut frontier, &slots, 3, 3, 1, 1, true);
    assert!(frontier.is_empty());
    let mut frontier = Vec::new();
    schedule_neighbours(&mut frontier, &slots, 3, 3, 2, 1, true);
    assert_eq!(frontier, vec![(2, 0), (1, 1)]);
    assert_eq!(states(&slots), vec![-1, 1, -1, 2, -1, -2, -1, 4, 0]);
}

#[test]
fn fits_without_neighbours() {
    let m = model();
    for k in 0..5 {
        assert!(m.fits(k, &free()));
    }
}

#[test]
fn fits_looks_at_the_facing_sides() {
    let m = model();
    // blank above: its lower side shows 0
    let under_blank = Around { up: Some(0), right: None, down: None, left: None };
    assert!(m.fits(0, &under_blank));
    assert!(!m.fits(1, &under_blank));
    assert!(!m.fits(2, &under_blank));
    assert!(m.fits(3, &under_blank));
    assert!(!m.fits(4, &under_blank));
    // tile 1 to the left: its right side shows 1
    let right_of_one = Around { up: None, right: None, down: None, left: Some(1) };
    assert!(!m.fits(0, &right_of_one));
    assert!(m.fits(1, &right_of_one));
    assert!(!m.fits(2, &right_of_one));
    assert!(m.fits(3, &right_of_one));
    assert!(m.fits(4, &right_of_one));
}

#[test]
fn candidates_keep_catalog_order() {
    let m = model();
    assert_eq!(m.candidates(&free()), vec![0, 1, 2, 3, 4]);
    let under_blank = Around { up: Some(0), right: None, down: None, left: None };
    assert_eq!(m.candidates(&under_blank), vec![0, 3]);
    let right_of_one = Around { up: None, right: None, down: None, left: Some(1) };
    assert_eq!(m.candidates(&right_of_one), vec![1, 3, 4]);
    let both = Around { up: Some(0), right: None, down: None, left: Some(1) };
    assert_eq!(m.candidates(&both), vec![3]);
}

#[test]
fn candidates_may_be_none() {
    let m = model();
    // above: blank (shows 0 below); below: tile 1 (shows 1 above);
    // left: tile 1 (shows 1 to the right); right: blank (shows 0 to the left)
    let a = Around { up: Some(0), right: Some(0), down: Some(1), left: Some(0) };
    assert_eq!(m.candidates(&a), Vec::<usize>::new());
    let empty: TileModel<char, u8> = TileModel::new(Vec::new());
    assert_eq!(empty.candidates(&free()), Vec::<usize>::new());
}

#[test]
fn fill_leaves_no_cell_open_where_all_tiles_fit() {
    let t: Tile<u8, u8> = Tile::new(1, vec![0], vec![0], vec![0], vec![0]);
    let m = TileModel::new(vec![t]);
    for seed in 0..20u64 {
        let slots = m.fill(4, 3, seed);
        assert_eq!(states(&slots), vec![0; 12]);
    }
}

#[test]
fn fill_marks_cells_that_nothing_fits() {
    let t: Tile<u8, u8> = Tile::new(1, vec![], vec![], vec![], vec![]);
    let m = TileModel::new(vec![t]);
    for seed in 0..20u64 {
        let slots = m.fill(2, 3, seed);
        let s = states(&slots);
        assert_eq!(s.len(), 6);
        assert!(s.iter().all(|&c| c != -1), "an open cell is left: {:?}", s);
        assert!(s.iter().filter(|&&c| c == -2).count() >= 2);
    }
}
