use arraydeque::{ArrayDeque, CapacityError};

fn contents<const N: usize>(d: &ArrayDeque<i32, N>) -> Vec<i32> {
    let mut out = Vec::new();
    let mut it = d.iter();
    while let Some(x) = it.next() {
        out.push(*x);
    }
    out
}

#[test]
fn push_back_then_pop_front_in_order() {
    let mut d: ArrayDeque<i32, 8> = ArrayDeque::new();
    assert_eq!(d.capacity(), 7);
    assert_eq!(d.len(), 0);
    d.push_back(1).unwrap();
    d.push_back(2).unwrap();
    assert_eq!(d.len(), 2);
    assert_eq!(d.pop_front(), Some(1));
    assert_eq!(d.pop_front(), Some(2));
    assert_eq!(d.pop_front(), None);
}

#[test]
fn insert_then_remove_front() {
    let mut d: ArrayDeque<i32, 8> = ArrayDeque::new();
    d.push_back(11).unwrap();
    d.push_back(13).unwrap();
    d.insert(1, 12).unwrap();
    assert_eq!(contents(&d), vec![11, 12, 13]);
    assert_eq!(d.remove(0), Some(11));
    assert_eq!(d.get(0), Some(&12));
    assert_eq!(d.get(1), Some(&13));
    assert_eq!(contents(&d), vec![12, 13]);
}

#[test]
fn extend_then_append() {
    let mut a: ArrayDeque<i32, 8> = ArrayDeque::new();
    let mut b: ArrayDeque<i32, 8> = ArrayDeque::new();
    a.extend((0..5).collect());
    b.extend((5..7).collect());
    assert_eq!(contents(&a), vec![0, 1, 2, 3, 4]);
    assert_eq!(contents(&b), vec![5, 6]);
    assert!(a.append(&mut b).is_ok());
    assert_eq!(contents(&a), vec![0, 1, 2, 3, 4, 5, 6]);
    assert_eq!(contents(&b), Vec::<i32>::new());
    assert!(b.is_empty());
}

#[test]
fn extend_drops_what_does_not_fit() {
    let mut d: ArrayDeque<i32, 8> = ArrayDeque::new();
    d.push_back(100).unwrap();
    d.extend((0..20).collect());
    assert_eq!(d.len(), d.capacity());
    assert!(d.is_full());
    assert_eq!(contents(&d), vec![100, 0, 1, 2, 3, 4, 5]);
}

#[test]
fn pushes_count_and_pop_orders() {
    let mut d: ArrayDeque<i32, 6> = ArrayDeque::new();
    for x in 0..5 {
        assert!(d.push_back(x).is_ok());
        assert_eq!(d.len(), (x + 1) as usize);
    }
    let mut e: ArrayDeque<i32, 6> = ArrayDeque::from_vec((0..5).collect()).ok().unwrap();
    for x in 0..5 {
        assert_eq!(d.pop_front(), Some(x));
    }
    for x in (0..5).rev() {
        assert_eq!(e.pop_back(), Some(x));
    }
    assert_eq!(d.pop_front(), None);
    assert_eq!(e.pop_back(), None);
}

#[test]
fn capacity_is_one_below_slot_count() {
    assert_eq!(ArrayDeque::<i32, 1>::new().capacity(), 0);
    assert_eq!(ArrayDeque::<i32, 2>::new().capacity(), 1);
    assert_eq!(ArrayDeque::<i32, 8>::new().capacity(), 7);
    assert_eq!(ArrayDeque::<i32, 41>::new().capacity(), 40);
    let mut z: ArrayDeque<i32, 1> = ArrayDeque::new();
    assert!(z.is_full());
    assert_eq!(z.push_back(3), Err(CapacityError::new(3)));
    assert_eq!(z.push_front(4), Err(CapacityError::new(4)));
}

#[test]
fn fill_and_drain_after_rotation() {
    let mut d: ArrayDeque<i32, 5> = ArrayDeque::new();
    for shift in 0..7 {
        for _ in 0..shift {
            d.push_back(-1).unwrap();
            assert_eq!(d.pop_front(), Some(-1));
        }
        for x in 0..4 {
            d.push_back(x).unwrap();
        }
        assert!(d.is_full());
        assert_eq!(d.push_back(9).unwrap_err().element(), 9);
        for x in 0..4 {
            assert_eq!(d.pop_front(), Some(x));
        }
        assert!(d.is_empty());
        assert_eq!(d.len(), 0);
    }
}

#[test]
fn get_past_the_end_is_absent() {
    let mut d: ArrayDeque<i32, 4> = ArrayDeque::new();
    d.push_back(1).unwrap();
    d.push_back(2).unwrap();
    d.push_back(3).unwrap();
    assert_eq!(d.pop_back(), Some(3));
    assert_eq!(d.get(2), None);
    assert_eq!(d.get(3), None);
    assert_eq!(d.get(100), None);
    assert_eq!(d.pop_front(), Some(1));
    assert_eq!(d.get(1), None);
    assert_eq!(d.get(0), Some(&2));
}

#[test]
fn insert_then_remove_restores() {
    let base: Vec<i32> = vec![10, 20, 30, 40];
    for shift in 0..5 {
        for i in 0..=base.len() {
            let mut d: ArrayDeque<i32, 7> = ArrayDeque::new();
            for _ in 0..shift {
                d.push_front(0).unwrap();
                d.pop_back().unwrap();
            }
            d.extend(base.clone());
            d.insert(i, 99).unwrap();
            assert_eq!(d.get(i), Some(&99));
            assert_eq!(d.len(), base.len() + 1);
            assert_eq!(d.remove(i), Some(99));
            assert_eq!(contents(&d), base);
        }
    }
}

#[test]
fn insert_into_full_hands_back() {
    let mut d: ArrayDeque<i32, 4> = ArrayDeque::from_vec(vec![1, 2, 3]).ok().unwrap();
    let err = d.insert(1, 7).unwrap_err();
    assert_eq!(err.element, 7);
    assert_eq!(contents(&d), vec![1, 2, 3]);
    assert_eq!(d.remove(3), None);
    assert_eq!(d.remove(1), Some(2));
    assert_eq!(contents(&d), vec![1, 3]);
}

#[test]
fn append_fails_whole_when_too_many() {
    let mut a: ArrayDeque<i32, 6> = ArrayDeque::from_vec(vec![1, 2, 3]).ok().unwrap();
    let mut b: ArrayDeque<i32, 6> = ArrayDeque::from_vec(vec![4, 5, 6]).ok().unwrap();
    assert!(a.append(&mut b).is_err());
    assert_eq!(contents(&a), vec![1, 2, 3]);
    assert_eq!(contents(&b), vec![4, 5, 6]);
    b.pop_back();
    assert!(a.append(&mut b).is_ok());
    assert_eq!(contents(&a), vec![1, 2, 3, 4, 5]);
    assert!(a.is_full());
    assert_eq!(b.len(), 0);
}

#[test]
fn from_vec_rejects_first_element_that_does_not_fit() {
    let r: Result<ArrayDeque<i32, 4>, CapacityError<i32>> = ArrayDeque::from_vec(vec![5, 6, 7, 8, 9]);
    match r {
        Err(e) => assert_eq!(e.element(), 8),
        Ok(_) => panic!("expected a capacity error"),
    }
    let ok: ArrayDeque<i32, 4> = ArrayDeque::from_vec(vec![5, 6, 7]).ok().unwrap();
    assert_eq!(ok.into_vec(), vec![5, 6, 7]);
}

#[test]
fn push_front_and_back_mix() {
    let mut d: ArrayDeque<i32, 5> = ArrayDeque::new();
    d.push_front(2).unwrap();
    d.push_back(3).unwrap();
    d.push_front(1).unwrap();
    d.push_back(4).unwrap();
    assert_eq!(d.push_front(0), Err(CapacityError::new(0)));
    assert_eq!(d.front(), Some(&1));
    assert_eq!(d.back(), Some(&4));
    assert_eq!(d.into_vec(), vec![1, 2, 3, 4]);
}

#[test]
fn swap_removes() {
    let mut d: ArrayDeque<i32, 8> = ArrayDeque::from_vec(vec![1, 2, 3, 4, 5]).ok().unwrap();
    assert_eq!(d.swap_remove_back(1), Some(2));
    assert_eq!(contents(&d), vec![1, 5, 3, 4]);
    assert_eq!(d.swap_remove_front(2), Some(3));
    assert_eq!(contents(&d), vec![5, 1, 4]);
    assert_eq!(d.swap_remove_back(3), None);
    assert_eq!(d.swap_remove_front(9), None);
}

#[test]
fn get_mut_and_swap_change_in_place() {
    let mut d: ArrayDeque<i32, 4> = ArrayDeque::new();
    d.push_back(1).unwrap();
    d.push_back(2).unwrap();
    d.pop_front();
    d.push_back(3).unwrap();
    d.push_back(4).unwrap();
    if let Some(x) = d.get_mut(1) {
        *x = 30;
    }
    assert!(d.get_mut(3).is_none());
    d.swap(0, 2);
    assert_eq!(contents(&d), vec![4, 30, 2]);
}

#[test]
fn equality_ignores_rotation() {
    let a: ArrayDeque<i32, 5> = ArrayDeque::from_vec(vec![1, 2, 3]).ok().unwrap();
    let mut b: ArrayDeque<i32, 5> = ArrayDeque::new();
    b.push_back(0).unwrap();
    b.push_back(0).unwrap();
    b.pop_front();
    b.pop_front();
    b.push_back(2).unwrap();
    b.push_back(3).unwrap();
    b.push_front(1).unwrap();
    assert!(a == b);
    b.pop_back();
    assert!(a != b);
    b.push_back(4).unwrap();
    assert!(a != b);
}

#[test]
fn iter_from_both_ends() {
    let d: ArrayDeque<i32, 8> = ArrayDeque::from_vec(vec![1, 2, 3, 4]).ok().unwrap();
    let mut it = d.iter();
    assert_eq!(it.next(), Some(&1));
    assert_eq!(it.next_back(), Some(&4));
    assert_eq!(it.next_back(), Some(&3));
    assert_eq!(it.next(), Some(&2));
    assert_eq!(it.next(), None);
    assert_eq!(it.next_back(), None);
    let mut back = Vec::new();
    let mut again = d.iter();
    while let Some(x) = again.next_back() {
        back.push(*x);
    }
    assert_eq!(back, vec![4, 3, 2, 1]);
}

#[test]
fn clear_empties() {
    let mut d: ArrayDeque<i32, 4> = ArrayDeque::from_vec(vec![1, 2]).ok().unwrap();
    d.clear();
    assert!(d.is_empty());
    assert_eq!(d.front(), None);
    assert_eq!(d.back(), None);
    assert_eq!(d.pop_back(), None);
}

#[test]
fn elements_need_not_be_copy() {
    let mut d: ArrayDeque<String, 4> = ArrayDeque::new();
    d.push_back(String::from("b")).unwrap();
    d.push_front(String::from("a")).unwrap();
    d.insert(1, String::from("x")).unwrap();
    assert_eq!(d.remove(1), Some(String::from("x")));
    assert_eq!(d.into_vec(), vec![String::from("a"), String::from("b")]);
}

#[test]
fn ordering_is_lexicographic() {
    let a: ArrayDeque<i32, 6> = ArrayDeque::from_vec(vec![1, 2, 3]).ok().unwrap();
    let b: ArrayDeque<i32, 6> = ArrayDeque::from_vec(vec![1, 2, 4]).ok().unwrap();
    let c: ArrayDeque<i32, 6> = ArrayDeque::from_vec(vec![1, 2]).ok().unwrap();
    let mut d: ArrayDeque<i32, 6> = ArrayDeque::new();
    for _ in 0..4 {
        d.push_back(0).unwrap();
        d.pop_front();
    }
    d.extend(vec![1, 2, 3]);
    assert_eq!(a.partial_cmp(&b), Some(std::cmp::Ordering::Less));
    assert_eq!(b.partial_cmp(&a), Some(std::cmp::Ordering::Greater));
    assert_eq!(c.partial_cmp(&a), Some(std::cmp::Ordering::Less));
    assert_eq!(a.partial_cmp(&d), Some(std::cmp::Ordering::Equal));
    assert!(c < a);
    assert!(b > d);
}
