use wfc::{Data, Image, Matrix, Rules, SeededRng, WfcError};

fn text_to_data(size: usize, text: &[u8]) -> Image {
    let mut idx = 0;
    let mut image = Image::new(size, vec![1; size * size]).unwrap();

    for x in 0..size {
        for y in 0..size {
            while text[idx] == b' ' || text[idx] == b'\n' {
                idx += 1;
            }

            *image.get_unchecked_mut(x, y) = (text[idx] - b'0') as u64;

            idx += 1;
        }
    }

    image
}

fn empty_state(size: usize) -> Data {
    Data::new(size, vec![None; size * size]).unwrap()
}

fn total_count(rules: &Rules) -> u64 {
    rules
        .chances()
        .iter()
        .map(|(_, row)| row.iter().map(|(_, w)| *w).sum::<u64>())
        .sum()
}

fn checkerboard() -> Image {
    text_to_data(
        4,
        b"1 2 1 2\
          2 1 2 1\
          1 2 1 2\
          2 1 2 1",
    )
}

fn assert_is_solution(rules: &Rules, seeds: &Data, out: &Image) {
    let n = out.size() as isize;
    assert_eq!(out.size(), seeds.size());
    for y in 0..n {
        for x in 0..n {
            let t = *out.get_isize(x, y).unwrap();
            assert!(rules.knows(t));
            if let Some(seed) = *seeds.get_isize(x, y).unwrap() {
                assert_eq!(seed, t);
            }
            for dx in -1..=1 {
                for dy in -1..=1 {
                    if dx == 0 && dy == 0 {
                        continue;
                    }
                    if let Some(u) = out.get_isize(x + dx, y + dy) {
                        assert!(rules.neighbor_weight(t, *u) > 0);
                    }
                }
            }
        }
    }
}

#[test]
fn produces_expected_ruleset_for_only_ones() {
    let rules = Rules::from_data(Image::new(2, vec![1; 4]).unwrap()).unwrap();
    assert_eq!(rules.chances(), vec![(1, vec![(1, 12)])]);
}

#[test]
fn produces_expected_ruleset_for_checkerboard() {
    let rules = Rules::from_data(checkerboard()).unwrap();
    assert_eq!(
        rules.chances(),
        vec![(1, vec![(1, 18), (2, 24)]), (2, vec![(1, 24), (2, 18)])]
    );
}

#[test]
fn total_count_equals_in_bounds_neighbours() {
    // 3x3: four corners with 3 neighbours, four edges with 5, one centre with 8.
    let rules =
        Rules::from_data(Image::new(3, vec![1, 2, 3, 4, 5, 6, 7, 8, 9]).unwrap()).unwrap();
    assert_eq!(total_count(&rules), 4 * 3 + 4 * 5 + 8);
    assert_eq!(rules.neighbor_weight(5, 1), 1);
    assert_eq!(rules.neighbor_weight(1, 9), 0);
    assert_eq!(rules.candidates_for(1), vec![(2, 1), (4, 1), (5, 1)]);

    let board = Rules::from_data(checkerboard()).unwrap();
    assert_eq!(total_count(&board), 4 * 3 + 8 * 5 + 4 * 8);
}

#[test]
fn sample_with_zero_tile_is_rejected() {
    let sample = Image::new(2, vec![1, 0, 1, 1]).unwrap();
    assert_eq!(Rules::from_data(sample).unwrap_err(), WfcError::InvalidInput);
}

#[test]
fn buffer_of_wrong_length_is_rejected() {
    assert_eq!(
        Matrix::new(3, vec![1u64; 8]).err(),
        Some(WfcError::InvalidInput)
    );
    assert!(Matrix::new(0, Vec::<u64>::new()).is_ok());
}

#[test]
fn signed_lookup_never_wraps() {
    let mut image = Image::new(2, vec![1, 2, 3, 4]).unwrap();
    assert_eq!(image.get_isize(1, 0), Some(&2));
    assert_eq!(image.get_isize(0, 1), Some(&3));
    assert_eq!(image.get_isize(-1, 0), None);
    assert_eq!(image.get_isize(0, 2), None);
    assert_eq!(image.get_isize(2, 1), None);
    assert_eq!(*image.get_unchecked(1, 1), 4);
    *image.get_isize_mut(1, 1).unwrap() = 7;
    assert!(image.get_isize_mut(2, 0).is_none());
    assert_eq!(image.cells(), &vec![1, 2, 3, 7]);
}

#[test]
fn merging_a_model_with_itself_doubles_every_count() {
    let a = Rules::from_data(checkerboard()).unwrap();
    let merged = a.merge(&a);
    assert_eq!(
        merged.chances(),
        vec![(1, vec![(1, 36), (2, 48)]), (2, vec![(1, 48), (2, 36)])]
    );
    assert_eq!(merged.tiles(), a.tiles());
}

#[test]
fn merge_unites_tiles_and_sums_counts() {
    let ones = Rules::from_data(Image::new(2, vec![1; 4]).unwrap()).unwrap();
    let board = Rules::from_data(checkerboard()).unwrap();
    let merged = ones.merge(&board);
    assert_eq!(merged.tiles(), vec![1, 2]);
    assert_eq!(merged.neighbor_weight(1, 1), 12 + 18);
    assert_eq!(merged.neighbor_weight(1, 2), 24);
    assert_eq!(merged.neighbor_weight(2, 2), 18);
}

#[test]
fn same_seed_gives_same_grid() {
    let rules = Rules::from_data(checkerboard()).unwrap();
    let state = empty_state(6);
    let a = rules.collapse(&state, &mut SeededRng::new(42));
    let b = rules.collapse(&state, &mut SeededRng::new(42));
    match (a, b) {
        (Ok(a), Ok(b)) => assert_eq!(a.cells(), b.cells()),
        (Err(a), Err(b)) => assert_eq!(a, b),
        _ => panic!("two runs with the same seed disagree"),
    }
}

#[test]
fn collapse_result_is_consistent() {
    let rules = Rules::from_data(checkerboard()).unwrap();
    for seed in 0..20 {
        let state = empty_state(5);
        match rules.collapse(&state, &mut SeededRng::new(seed)) {
            Ok(out) => assert_is_solution(&rules, &state, &out),
            Err(e) => assert_eq!(e, WfcError::Contradiction),
        }
    }
}

#[test]
fn uniform_sample_collapses_to_uniform_grid() {
    let rules = Rules::from_data(Image::new(3, vec![7; 9]).unwrap()).unwrap();
    let out = rules.collapse(&empty_state(4), &mut SeededRng::new(1)).unwrap();
    assert_eq!(out.cells(), &vec![7; 16]);
}

#[test]
fn collapse_keeps_seed_cells() {
    let rules = Rules::from_data(checkerboard()).unwrap();
    let mut state = empty_state(4);
    *state.get_unchecked_mut(1, 2) = Some(2);
    let out = rules.collapse(&state, &mut SeededRng::new(9)).unwrap();
    assert_is_solution(&rules, &state, &out);
    assert_eq!(*out.get_unchecked(1, 2), 2);
}

#[test]
fn checkerboard_seed_forces_checkerboard() {
    // In a checkerboard every tile has both tiles around it, so any 2x2
    // grid of them is consistent; a 2x2 seed of one tile is not.
    let rules = Rules::from_data(checkerboard()).unwrap();
    let state = Data::new(2, vec![Some(1), Some(2), Some(2), Some(1)]).unwrap();
    let out = rules.collapse(&state, &mut SeededRng::new(3)).unwrap();
    assert_eq!(out.cells(), &vec![1, 2, 2, 1]);
}

#[test]
fn degenerate_grid_is_invalid_input() {
    let rules = Rules::from_data(checkerboard()).unwrap();
    let state = Data::new(0, Vec::new()).unwrap();
    assert_eq!(
        rules.collapse(&state, &mut SeededRng::new(0)).err(),
        Some(WfcError::InvalidInput)
    );
}

#[test]
fn unknown_seed_tile_is_invalid_input() {
    let rules = Rules::from_data(checkerboard()).unwrap();
    let mut state = empty_state(3);
    *state.get_unchecked_mut(0, 0) = Some(5);
    assert_eq!(
        rules.collapse(&state, &mut SeededRng::new(0)).err(),
        Some(WfcError::InvalidInput)
    );
    *state.get_unchecked_mut(0, 0) = Some(0);
    assert_eq!(
        rules.collapse(&state, &mut SeededRng::new(0)).err(),
        Some(WfcError::InvalidInput)
    );
}

#[test]
fn incompatible_seeds_are_a_contradiction() {
    // 1s only ever sat next to 1s, and 2s next to 2s.
    let ones = Rules::from_data(Image::new(2, vec![1; 4]).unwrap()).unwrap();
    let twos = Rules::from_data(Image::new(2, vec![2; 4]).unwrap()).unwrap();
    let rules = ones.merge(&twos);
    let mut state = empty_state(3);
    *state.get_unchecked_mut(0, 0) = Some(1);
    *state.get_unchecked_mut(1, 1) = Some(2);
    let mut rng = SeededRng::new(0);
    assert_eq!(
        rules.collapse(&state, &mut rng).err(),
        Some(WfcError::Contradiction)
    );
}

#[test]
fn separated_seeds_leave_a_cell_without_candidate() {
    let ones = Rules::from_data(Image::new(2, vec![1; 4]).unwrap()).unwrap();
    let twos = Rules::from_data(Image::new(2, vec![2; 4]).unwrap()).unwrap();
    let rules = ones.merge(&twos);
    let mut state = empty_state(3);
    *state.get_unchecked_mut(0, 0) = Some(1);
    *state.get_unchecked_mut(2, 2) = Some(2);
    assert_eq!(
        rules.collapse(&state, &mut SeededRng::new(0)).err(),
        Some(WfcError::Contradiction)
    );
}

#[test]
fn single_cell_sample_has_empty_table() {
    let rules = Rules::from_data(Image::new(1, vec![3]).unwrap()).unwrap();
    assert_eq!(rules.chances(), vec![(3, vec![])]);
    assert_eq!(total_count(&rules), 0);
    for size in 2..5 {
        assert_eq!(
            rules.collapse(&empty_state(size), &mut SeededRng::new(11)).err(),
            Some(WfcError::Contradiction)
        );
    }
    let single = rules.collapse(&empty_state(1), &mut SeededRng::new(11)).unwrap();
    assert_eq!(single.cells(), &vec![3]);
}

#[test]
fn seeded_rng_follows_splitmix64() {
    let mut rng = SeededRng::new(0);
    assert_eq!(rng.next_u64(), 0xe220_a839_7b1d_cdaf);
    let mut other = SeededRng::new(0);
    other.next_u64();
    assert_eq!(rng.next_u64(), other.next_u64());
}
