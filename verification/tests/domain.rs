use sudoku::numset::NumSet;

#[test]
fn test_difference_full_full_is_empty() {
    let full = NumSet::full();
    assert!(full.difference(full).is_empty());
    assert_eq!(full.difference(full), NumSet::empty());
}

#[test]
fn test_union_associative_commutative() {
    let a = NumSet::one_hot(0);
    let b = NumSet::one_hot(4);
    let c = NumSet::one_hot(8);
    assert_eq!(a.union(b).union(c), a.union(b.union(c)));
    assert_eq!(a.union(b), b.union(a));
    assert_eq!(a.union(NumSet::empty()), a);
    assert_eq!(NumSet::empty().union(c), c);
}

#[test]
fn test_one_hot_cardinality_and_value() {
    let mut d: u8 = 0;
    while d < 9 {
        let s = NumSet::one_hot(d);
        assert_eq!(s.len(), 1);
        assert_eq!(s.val(), d);
        assert!(s.has_digit(d));
        d += 1;
    }
}

#[test]
fn test_cardinality_counts_members() {
    assert_eq!(NumSet::empty().len(), 0);
    assert_eq!(NumSet::full().len(), 9);
    let s = NumSet::one_hot(1).union(NumSet::one_hot(5));
    assert_eq!(s.len(), 2);
}

#[test]
fn test_difference_removes_members() {
    let s = NumSet::one_hot(2).union(NumSet::one_hot(6)).union(NumSet::one_hot(7));
    let r = s.difference(NumSet::one_hot(6));
    assert_eq!(r.len(), 2);
    assert!(r.has_digit(2));
    assert!(!r.has_digit(6));
    assert!(r.has_digit(7));
}

#[test]
fn test_enumeration_ascending_singletons() {
    let s = NumSet::one_hot(7).union(NumSet::one_hot(0)).union(NumSet::one_hot(3));
    let ms = s.members();
    assert_eq!(ms.len() as u32, s.len());
    assert_eq!(ms.len(), 3);
    assert_eq!(ms[0], NumSet::one_hot(0));
    assert_eq!(ms[1], NumSet::one_hot(3));
    assert_eq!(ms[2], NumSet::one_hot(7));
    let mut prev: Option<u8> = None;
    for m in ms {
        assert_eq!(m.len(), 1);
        let v = m.val();
        if let Some(p) = prev {
            assert!(p < v);
        }
        prev = Some(v);
    }
}

#[test]
fn test_lazy_enumeration_restartable() {
    let s = NumSet::one_hot(2).union(NumSet::one_hot(5));
    let mut it = s.iter();
    assert_eq!(it.next(), Some(NumSet::one_hot(2)));
    assert_eq!(it.next(), Some(NumSet::one_hot(5)));
    assert_eq!(it.next(), None);
    assert_eq!(it.next(), None);
    // A fresh iterator walks the same members again.
    let mut it2 = s.iter();
    assert_eq!(it2.next(), Some(NumSet::one_hot(2)));
    let mut none = NumSet::empty().iter();
    assert_eq!(none.next(), None);
}

#[test]
fn test_enumeration_empty_and_full() {
    assert_eq!(NumSet::empty().members().len(), 0);
    let ms = NumSet::full().members();
    assert_eq!(ms.len(), 9);
    for (k, m) in ms.into_iter().enumerate() {
        assert_eq!(m, NumSet::one_hot(k as u8));
    }
}
