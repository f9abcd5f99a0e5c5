use quicksort::partition;
use quicksort::quicksort;
use rand::Rng;

fn assert_split<T: Ord + std::fmt::Debug>(a: &[T], pivot: usize) {
    assert!(pivot < a.len());
    for (i, v) in a.iter().enumerate() {
        if i <= pivot {
            assert!(*v <= a[pivot], "{:?} at {} above pivot {}", a, i, pivot);
        } else {
            assert!(*v >= a[pivot], "{:?} at {} below pivot {}", a, i, pivot);
        }
    }
}

fn sorted_copy<T: Ord + Clone>(a: &[T]) -> Vec<T> {
    let mut v = a.to_vec();
    v.sort();
    v
}

#[test]
fn partition_random() {
    let n = rand::thread_rng().gen_range(100, 1000);
    let mut a = Vec::with_capacity(n);
    for _ in 0..n {
        a.push(rand::thread_rng().gen_range(-50, 50))
    }
    let pivot = partition(&mut a);
    let pivot_val = a[pivot];
    for (i, v) in a.into_iter().enumerate() {
        if i <= pivot {
            assert!(v <= pivot_val)
        } else {
            assert!(v >= pivot_val)
        }
    }
}

#[test]
fn quicksort_string() {
    let mut a: Vec<char> = "heabfdcg".chars().collect();
    quicksort(&mut a);
    assert_eq!(a.into_iter().collect::<String>(), "abcdefgh")
}

#[test]
fn quicksort_random() {
    let n = rand::thread_rng().gen_range(20, 51);
    let mut a = Vec::with_capacity(n);
    for _ in 0..n {
        a.push(rand::thread_rng().gen_range(0, 51))
    }
    quicksort(&mut a);
    for i in 1..n {
        if a[i - 1] > a[i] {
            panic!("quicksort fails: a={:?} i={} a[i-1]={} a[i]={}", a, i, a[i - 1], a[i])
        }
    }
}

#[test]
fn partition_doc_example() {
    let mut a = [5, 1, 0, 2, 2, 4, 3, 2];
    let before = sorted_copy(&a);
    let pivot = partition(&mut a);
    assert_split(&a, pivot);
    assert_eq!(sorted_copy(&a), before);
}

#[test]
fn quicksort_doc_example() {
    let mut a = [5, 1, 0, 4, 3, 2];
    quicksort(&mut a);
    assert_eq!(a, [0, 1, 2, 3, 4, 5]);
}

#[test]
fn quicksort_empty_and_single() {
    let mut e: [i32; 0] = [];
    quicksort(&mut e);
    assert_eq!(e, []);
    let mut one = [7];
    quicksort(&mut one);
    assert_eq!(one, [7]);
}

#[test]
fn quicksort_two_elements() {
    let mut a = [5, 1];
    quicksort(&mut a);
    assert_eq!(a, [1, 5]);
    let mut b = [1, 5];
    quicksort(&mut b);
    assert_eq!(b, [1, 5]);
}

#[test]
fn partition_two_elements() {
    let mut a = [5, 1];
    let pivot = partition(&mut a);
    assert_split(&a, pivot);
    assert_eq!(sorted_copy(&a), vec![1, 5]);
}

#[test]
fn all_equal_elements() {
    let mut a = [3u8; 37];
    quicksort(&mut a);
    assert_eq!(a, [3u8; 37]);
    let mut b = [3u8; 37];
    let pivot = partition(&mut b);
    assert_split(&b, pivot);
    assert_eq!(b, [3u8; 37]);
}

#[test]
fn sorting_twice_changes_nothing() {
    let mut a = vec![9, -2, 4, 4, 0, 17, -2, 8, 3, 3, 3, 1];
    quicksort(&mut a);
    let once = a.clone();
    quicksort(&mut a);
    assert_eq!(a, once);
    assert_eq!(once, vec![-2, -2, 0, 1, 3, 3, 3, 4, 4, 8, 9, 17]);
}

#[test]
fn sorted_and_reversed_inputs() {
    let mut up: Vec<u32> = (0..200).collect();
    quicksort(&mut up);
    assert_eq!(up, (0..200).collect::<Vec<u32>>());
    let mut down: Vec<u32> = (0..200).rev().collect();
    quicksort(&mut down);
    assert_eq!(down, (0..200).collect::<Vec<u32>>());
}

#[test]
fn partition_keeps_sides_close_on_sorted_input() {
    let mut a: Vec<u32> = (0..100).collect();
    let pivot = partition(&mut a);
    assert_split(&a, pivot);
    assert!(pivot > 10 && pivot < 90, "pivot {}", pivot);
}

#[test]
fn random_sorts_keep_elements() {
    let mut rng = rand::thread_rng();
    for _ in 0..200 {
        let n = rng.gen_range(0, 300);
        let mut a: Vec<i64> = (0..n).map(|_| rng.gen_range(-20, 20)).collect();
        let expected = sorted_copy(&a);
        quicksort(&mut a);
        assert_eq!(a, expected);
    }
}

#[test]
fn random_partitions_split() {
    let mut rng = rand::thread_rng();
    for _ in 0..200 {
        let n = rng.gen_range(2, 300);
        let mut a: Vec<i64> = (0..n).map(|_| rng.gen_range(-20, 20)).collect();
        let expected = sorted_copy(&a);
        let pivot = partition(&mut a);
        assert_split(&a, pivot);
        assert_eq!(sorted_copy(&a), expected);
    }
}

#[test]
fn small_gap_endings() {
    for n in 2..12usize {
        for seed in 0..50u64 {
            let mut a: Vec<u64> = (0..n as u64).map(|i| (i * 7 + seed * 13) % 5).collect();
            let expected = sorted_copy(&a);
            let pivot = partition(&mut a);
            assert_split(&a, pivot);
            assert_eq!(sorted_copy(&a), expected);
            quicksort(&mut a);
            assert_eq!(a, expected);
        }
    }
}
