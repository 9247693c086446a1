use sudoku::numset::NumSet;
use sudoku::spaceset::SpaceSet;

fn contains(s: &SpaceSet, item: usize) -> bool {
    s.iter().contains(&item)
}

#[test]
fn test_insert_appends_in_order() {
    let mut s = SpaceSet::empty();
    assert_eq!(s.len(), 0);
    s.insert(5);
    s.insert(7);
    s.insert(9);
    assert_eq!(s.iter(), vec![5, 7, 9]);
    assert_eq!(s.len(), 3);
    assert_eq!(s.get(1), 7);
}

#[test]
fn test_remove_swaps_in_last() {
    let mut s = SpaceSet::empty();
    s.insert(5);
    s.insert(7);
    s.insert(9);
    s.remove(0);
    assert_eq!(s.iter(), vec![9, 7]);
    assert_eq!(s.len(), 2);
}

#[test]
fn test_insert_then_remove_drops_member() {
    let mut s = SpaceSet::empty();
    s.insert(3);
    s.insert(11);
    s.insert(42);
    // 42 landed at position 2; removing that position drops it.
    s.remove(2);
    assert!(!contains(&s, 42));
    assert!(contains(&s, 3));
    assert!(contains(&s, 11));
}

#[test]
fn test_membership_matches_reference_set() {
    let mut s = SpaceSet::empty();
    let mut model: Vec<usize> = Vec::new();
    let inserts = [4usize, 80, 17, 0, 33];
    for &i in inserts.iter() {
        s.insert(i);
        model.push(i);
    }
    // Remove by position twice, mirroring the swap-remove in the model.
    for &p in [1usize, 2].iter() {
        let gone = s.get(p);
        s.remove(p);
        let last = model.pop().unwrap();
        if p < model.len() {
            model[p] = last;
        }
        assert!(!contains(&s, gone) || model.contains(&gone));
    }
    let mut held = s.iter();
    held.sort();
    model.sort();
    assert_eq!(held, model);
}

#[test]
fn test_find_all_collects_empty_cells_ascending() {
    let mut cells: Vec<NumSet> = Vec::new();
    for i in 0..81u8 {
        if i % 10 == 0 {
            cells.push(NumSet::empty());
        } else {
            cells.push(NumSet::one_hot(i % 9));
        }
    }
    let s = SpaceSet::find_all(&cells);
    assert_eq!(s.iter(), vec![0, 10, 20, 30, 40, 50, 60, 70, 80]);
}
