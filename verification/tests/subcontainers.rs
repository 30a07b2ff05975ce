use algo_labs::containers::traits::ErasableContainer;
use algo_labs::containers::traits::FillableContainer;
use algo_labs::containers::traits::SearchableContainer;
use algo_labs::containers::traits::SizedContainer;
use algo_labs::subcontainers::array_based_deque::ArrayBasedDeque;
use algo_labs::subcontainers::list_based_deque::ListBasedDeque;
use algo_labs::subcontainers::resizable_array::ResizableArray;
use algo_labs::subcontainers::traits::BackOrientedContainer;
use algo_labs::subcontainers::traits::FrontOrientedContainer;

#[test]
fn basic_test() {
    let end = 10;
    let mut deque = ArrayBasedDeque::new();

    for i in 0..end {
        deque.push_back(i);
        assert_eq!(deque.size(), i + 1);
        assert!(deque.back().is_some());
        assert_eq!(*deque.back().unwrap(), i);
        assert!(deque.front().is_some());
        assert_eq!(*deque.front().unwrap(), 0);
    }

    for i in 0..(end / 2) {
        assert!(deque.pop_front().is_some());
        assert_eq!(deque.size(), end - i - 1);
        assert!(deque.back().is_some());
        assert_eq!(*deque.back().unwrap(), end - 1);
        assert!(deque.front().is_some());
        assert_eq!(*deque.front().unwrap(), i + 1);
    }

    for i in (0..(end / 2)).rev() {
        deque.push_front(i);
        assert_eq!(deque.size(), end - i);
        assert!(deque.back().is_some());
        assert_eq!(*deque.back().unwrap(), end - 1);
        assert!(deque.front().is_some());
        assert_eq!(*deque.front().unwrap(), i);
    }

    for i in 0..(end - 1) {
        let popped = deque.pop_back();
        assert!(popped.is_some());
        assert_eq!(popped.unwrap(), end - i - 1);
        assert_eq!(deque.size(), end - i - 1);
        assert!(deque.back().is_some());
        assert_eq!(*deque.back().unwrap(), end - i - 2);
        assert!(deque.front().is_some());
        assert_eq!(*deque.front().unwrap(), 0);
    }

    let popped = deque.pop_front();
    assert!(popped.is_some());
    assert_eq!(popped.unwrap(), 0);
    assert!(deque.back().is_none());
    assert!(deque.front().is_none());
    assert_eq!(deque.size(), 0);
}

#[test]
fn deque_test() {
    let mut deque = ListBasedDeque::new();

    for i in 0..10 {
        deque.push_front(i);
    }

    for i in -9..0 {
        deque.push_back(i);
    }

    let mut size = 19;
    while let Some(_) = deque.pop_back() {
        size -= 1;
        assert_eq!(deque.size(), size);
    }
}

#[test]
fn array_deque_starts_at_the_front() {
    let mut deque = ArrayBasedDeque::new();
    deque.push_front(7);
    assert_eq!(deque.back(), Some(&7));
    assert_eq!(deque.front(), Some(&7));
    deque.push_back(8);
    assert_eq!(deque.front(), Some(&7));
    assert_eq!(deque.back(), Some(&8));
    assert_eq!(deque.pop_back(), Some(8));
    assert_eq!(deque.pop_back(), Some(7));
    assert_eq!(deque.pop_back(), None);
    assert_eq!(deque.pop_front(), None);
}

#[test]
fn array_deque_grows_while_wrapped() {
    let mut deque = ArrayBasedDeque::new();
    deque.push_back(1);
    deque.push_back(2);
    assert_eq!(deque.pop_front(), Some(1));
    deque.push_back(3);
    deque.push_back(4);
    deque.push_back(5);
    deque.push_front(0);
    deque.push_front(-1);
    let mut seen = Vec::new();
    while let Some(x) = deque.pop_front() {
        seen.push(x);
    }
    assert_eq!(seen, vec![-1, 0, 2, 3, 4, 5]);
}

#[test]
fn array_deque_against_a_model() {
    let mut deque = ArrayBasedDeque::new();
    let mut model = std::collections::VecDeque::new();
    let mut seed: u32 = 12345;
    for step in 0..5000 {
        seed = seed.wrapping_mul(1103515245).wrapping_add(12345);
        match (seed >> 16) % 4 {
            0 => {
                deque.push_back(step);
                model.push_back(step);
            }
            1 => {
                deque.push_front(step);
                model.push_front(step);
            }
            2 => assert_eq!(deque.pop_back(), model.pop_back()),
            _ => assert_eq!(deque.pop_front(), model.pop_front()),
        }
        assert_eq!(deque.size(), model.len());
        assert_eq!(deque.front(), model.front());
        assert_eq!(deque.back(), model.back());
    }
}

#[test]
fn list_deque_against_a_model() {
    let mut deque = ListBasedDeque::new();
    let mut model = std::collections::VecDeque::new();
    let mut seed: u32 = 777;
    for step in 0..5000 {
        seed = seed.wrapping_mul(1103515245).wrapping_add(12345);
        match (seed >> 16) % 4 {
            0 => {
                deque.push_back(step);
                model.push_back(step);
            }
            1 => {
                deque.push_front(step);
                model.push_front(step);
            }
            2 => assert_eq!(deque.pop_back(), model.pop_back()),
            _ => assert_eq!(deque.pop_front(), model.pop_front()),
        }
        assert_eq!(deque.size(), model.len());
        assert_eq!(deque.front(), model.front());
        assert_eq!(deque.back(), model.back());
    }
}

#[test]
fn array_deque_push_returns_itself() {
    let mut deque = ArrayBasedDeque::new();
    deque.push(1).push(2).push(3);
    assert_eq!(deque.size(), 3);
    assert_eq!(deque.front(), Some(&1));
    assert_eq!(deque.back(), Some(&3));
}

#[test]
fn array_deque_finds_and_erases_in_its_ring() {
    let mut deque = ArrayBasedDeque::new();
    deque.push_back(4);
    deque.push_back(9);
    deque.push_back(6);
    assert_eq!(deque.find(|x| *x > 4), Some(&9));
    assert_eq!(deque.find(|x| *x > 100), None);
    if let Some(found) = deque.find_mut(|x| *x == 6) {
        *found = 60;
    }
    assert_eq!(deque.back(), Some(&60));
    assert_eq!(deque.erase_first(|x| *x == 9), Some(9));
    assert_eq!(deque.size(), 3);
    assert_eq!(deque.find(|x| *x == 9), None);
    assert_eq!(deque.erase_first(|x| *x == 1000), None);
    assert_eq!(deque.pop_front(), Some(4));
    assert_eq!(deque.pop_front(), Some(0));
    assert_eq!(deque.pop_front(), Some(60));
}

#[test]
fn resizable_array_keeps_elements_when_resized() {
    let mut array = ResizableArray::<i32>::new(3);
    assert_eq!(array.size(), 3);
    for i in 0..3 {
        assert_eq!(*array.index(i), 0);
    }
    *array.index_mut(0) = 5;
    *array.index_mut(2) = 7;
    array.resize(5);
    assert_eq!(array.size(), 5);
    assert_eq!(*array.index(0), 5);
    assert_eq!(*array.index(1), 0);
    assert_eq!(*array.index(2), 7);
    assert_eq!(*array.index(3), 0);
    assert_eq!(*array.index(4), 0);
    array.double_the_size();
    assert_eq!(array.size(), 10);
    assert_eq!(*array.index(2), 7);
    assert_eq!(*array.index(9), 0);
    assert_eq!(array.find(|x| *x > 5), Some(&7));
    assert_eq!(array.find(|x| *x > 7), None);
    if let Some(found) = array.find_mut(|x| *x == 5) {
        *found = 50;
    }
    assert_eq!(*array.index(0), 50);
}

#[test]
fn resizable_array_default_is_empty() {
    let array = ResizableArray::<u8>::default();
    assert_eq!(array.size(), 0);
    assert_eq!(array.find(|_| true), None);
}
