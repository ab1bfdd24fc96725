use exercises::sort::{partition, sort};

#[test]
fn test_sort_1() {
    let mut vec = vec![37, 73, 57, 75, 91, 19, 46, 64];
    sort(&mut vec);
    assert_eq!(vec, vec![19, 37, 46, 57, 64, 73, 75, 91]);
}

#[test]
fn test_sort_2() {
    let mut vec = vec![1];
    sort(&mut vec);
    assert_eq!(vec, vec![1]);
}

#[test]
fn test_sort_3() {
    let mut vec = vec![99, 88, 77, 66, 55, 44, 33, 22, 11];
    sort(&mut vec);
    assert_eq!(vec, vec![11, 22, 33, 44, 55, 66, 77, 88, 99]);
}

#[test]
fn sort_empty_and_duplicates() {
    let mut empty: Vec<i32> = vec![];
    sort(&mut empty);
    assert_eq!(empty, Vec::<i32>::new());
    let mut dup = vec![3, -1, 3, 0, -1, 7, 3];
    sort(&mut dup);
    assert_eq!(dup, vec![-1, -1, 0, 3, 3, 3, 7]);
}

#[test]
fn partition_places_last_element() {
    let mut v = vec![1, 2];
    assert_eq!(partition(&mut v, 0, 2), 1);
    assert_eq!(v, vec![1, 2]);
    let mut w = vec![5, 9, 1, 7, 4];
    let p = partition(&mut w, 0, 5);
    assert_eq!(p, 1);
    assert_eq!(w[p], 4);
    assert!(w[..p].iter().all(|&x| x <= 4));
    assert!(w[p + 1..].iter().all(|&x| x > 4));
}
