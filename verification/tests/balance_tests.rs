use matchmaker::{select_team_mask, split_by_mask, team_masks};

#[test]
fn all_five_a_side_masks() {
    let masks = team_masks();
    assert_eq!(masks.len(), 252);
    assert!(masks.windows(2).all(|w| w[0] < w[1]));
    assert!(masks.iter().all(|m| *m < 1024 && m.count_ones() == 5));
    assert_eq!(masks[0], 0b00000_11111);
    assert_eq!(*masks.last().unwrap(), 0b11111_00000);
}

#[test]
fn split_by_mask_keeps_order() {
    let ids: Vec<u128> = (10..20).collect();
    let (a, b) = split_by_mask(&ids, 0b10101_01010);
    assert_eq!(a, vec![11, 13, 15, 17, 19]);
    assert_eq!(b, vec![10, 12, 14, 16, 18]);
    let (a, b) = split_by_mask(&ids, 0);
    assert!(a.is_empty());
    assert_eq!(b, ids);
}

#[test]
fn every_team_mask_splits_five_and_five() {
    let ids: Vec<u128> = (0..10).collect();
    for mask in team_masks() {
        let (a, b) = split_by_mask(&ids, mask);
        assert_eq!(a.len(), 5);
        assert_eq!(b.len(), 5);
        let mut all: Vec<u128> = a.iter().chain(b.iter()).copied().collect();
        all.sort();
        assert_eq!(all, ids);
    }
}

#[test]
fn selection_takes_the_first_smallest_key() {
    let masks = vec![3u16, 5, 6, 9];
    assert_eq!(select_team_mask(&masks, &vec![40, 20, 20, 30], 100), 5);
    assert_eq!(select_team_mask(&masks, &vec![100, 200, 150, 100], 100), 0);
    assert_eq!(select_team_mask(&masks, &vec![100, 99, 150, 100], 100), 5);
    assert_eq!(select_team_mask(&[].to_vec(), &[].to_vec(), 100), 0);
}

#[test]
fn equal_keys_choose_the_first_mask() {
    let ids: Vec<u128> = (0..10).collect();
    let masks = team_masks();
    let keys: Vec<u64> = vec![1500; masks.len()];
    let best = select_team_mask(&masks, &keys, u64::MAX);
    assert_eq!(best, masks[0]);
    let (a, b) = split_by_mask(&ids, best);
    assert_eq!(a, vec![0, 1, 2, 3, 4]);
    assert_eq!(b, vec![5, 6, 7, 8, 9]);
}

#[test]
fn the_smallest_key_over_all_masks_wins() {
    let masks = team_masks();
    let mut keys: Vec<u64> = (0..masks.len() as u64).map(|i| 1000 + (i % 7)).collect();
    keys[100] = 200;
    keys[180] = 200;
    let best = select_team_mask(&masks, &keys, u64::MAX);
    assert_eq!(best, masks[100]);
    // nothing under the ceiling: no split
    assert_eq!(select_team_mask(&masks, &keys, 200), 0);
    assert_eq!(select_team_mask(&masks, &keys, 201), masks[100]);
}
