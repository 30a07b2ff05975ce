use algo_labs::algorithms::central_element;
use algo_labs::algorithms::evaluate_mins_and_maxs_triples;
use algo_labs::algorithms::sum;
use algo_labs::algorithms::sum_and_count;
use algo_labs::algorithms::MaxsTriple;
use algo_labs::algorithms::MinsTriple;
use algo_labs::algorithms::Triple;
use algo_labs::containers::traits::FillableContainer;
use algo_labs::containers::traits::ReadableContainer;
use algo_labs::containers::traits::SizedContainer;
use algo_labs::containers::ArrayBasedQueue;
use algo_labs::containers::ArrayBasedStack;
use algo_labs::containers::ListBasedQueue;
use algo_labs::containers::ListBasedStack;

const BIG_SIZE: usize = 1_000_000;

type Number = i32;

fn mean_of<Container>(container: Container) -> Option<f64>
where
    Container: ReadableContainer<Number>,
{
    let (sum, size) = sum_and_count(container);
    let sum: f64 = sum.into();
    (size > 0).then_some(sum / size as f64)
}

fn test_sum<Container>(numbers: &[Number])
where
    Container: Default + FillableContainer<Number> + ReadableContainer<Number>,
{
    let mut container = Container::default();

    for number in numbers {
        container.push(*number);
    }

    assert_eq!(sum(container), numbers.iter().sum())
}

fn test_mean<Container>(numbers: &[Number])
where
    Container: Default + FillableContainer<Number> + ReadableContainer<Number>,
{
    let mut container = Container::default();

    for number in numbers {
        container.push(*number);
    }

    let mean = mean_of(container);

    if numbers.len() == 0 && mean.is_none() {
        return;
    } else if numbers.len() > 0 && mean.is_none() {
        panic!("Mean must not be none for non-empty number input!");
    }

    let sum = numbers.iter().sum::<Number>() as f64;

    assert_eq!(mean.unwrap(), sum / numbers.len() as f64);
}

fn test_mins_and_maxs_evaluation<Container>(
    numbers: &[Number],
    expected_result: (MinsTriple<Number>, MaxsTriple<Number>),
) where
    Container: Default + FillableContainer<Number> + ReadableContainer<Number>,
{
    let mut container = Container::default();

    for number in numbers {
        container.push(*number);
    }

    let (expected_mins, expected_maxs) = expected_result;
    let (mins, maxs) = evaluate_mins_and_maxs_triples(container);
    assert_eq!(mins, expected_mins);
    assert_eq!(maxs, expected_maxs);
}

fn test_central_element<Container>(numbers: &[Number])
where
    Container: Default + FillableContainer<Number> + ReadableContainer<Number>,
{
    let mut container = Container::default();

    for number in numbers {
        container.push(*number);
    }

    let central_element = central_element(container);

    if numbers.len() == 0 && central_element.is_none() {
        return;
    } else if numbers.len() > 0 && central_element.is_none() {
        panic!("Central element must not be none for non-empty number input!");
    }

    assert_eq!(
        central_element.unwrap(),
        *numbers.iter().nth(numbers.len() / 2).unwrap()
    );
}

fn centered_array() -> Vec<Number> {
    [
        &[2; BIG_SIZE / 2][..],
        &[1][..], // 1 at the center
        &[2; BIG_SIZE / 2][..],
    ]
    .concat()
}

fn spiked_array() -> Vec<Number> {
    [
        &[9, -3][..],
        &[2; BIG_SIZE / 2][..],
        &[8, -2][..],
        &[2; BIG_SIZE / 2][..],
        &[7, -1][..],
    ]
    .concat()
}

fn expected_triples() -> (MinsTriple<Number>, MaxsTriple<Number>) {
    (
        MinsTriple {
            triple: Triple {
                first: Some(-3),
                second: Some(-2),
                third: Some(-1),
            },
        },
        MaxsTriple {
            triple: Triple {
                first: Some(9),
                second: Some(8),
                third: Some(7),
            },
        },
    )
}

#[test]
fn list_based_queue() {
    test_sum::<ListBasedQueue<Number>>(&[]);
    test_sum::<ListBasedQueue<Number>>(&vec![2; BIG_SIZE]);
    test_mean::<ListBasedQueue<Number>>(&[]);
    test_mean::<ListBasedQueue<Number>>(&vec![2; BIG_SIZE]);
    test_central_element::<ListBasedQueue<Number>>(&centered_array());
    test_mins_and_maxs_evaluation::<ListBasedQueue<Number>>(&spiked_array(), expected_triples());
}

#[test]
fn list_based_stack() {
    test_sum::<ListBasedStack<Number>>(&[]);
    test_sum::<ListBasedStack<Number>>(&vec![2; BIG_SIZE]);
    test_mean::<ListBasedStack<Number>>(&[]);
    test_mean::<ListBasedStack<Number>>(&vec![2; BIG_SIZE]);
    test_central_element::<ListBasedStack<Number>>(&centered_array());
    test_mins_and_maxs_evaluation::<ListBasedStack<Number>>(&spiked_array(), expected_triples());
}

#[test]
fn array_based_queue() {
    test_sum::<ArrayBasedQueue<Number>>(&[]);
    test_sum::<ArrayBasedQueue<Number>>(&vec![2; BIG_SIZE]);
    test_mean::<ArrayBasedQueue<Number>>(&[]);
    test_mean::<ArrayBasedQueue<Number>>(&vec![2; BIG_SIZE]);
    test_central_element::<ArrayBasedQueue<Number>>(&centered_array());
    test_mins_and_maxs_evaluation::<ArrayBasedQueue<Number>>(&spiked_array(), expected_triples());
}

#[test]
fn array_based_stack() {
    test_sum::<ArrayBasedStack<Number>>(&[]);
    test_sum::<ArrayBasedStack<Number>>(&vec![2; BIG_SIZE]);
    test_mean::<ArrayBasedStack<Number>>(&[]);
    test_mean::<ArrayBasedStack<Number>>(&vec![2; BIG_SIZE]);
    test_central_element::<ArrayBasedStack<Number>>(&centered_array());
    test_mins_and_maxs_evaluation::<ArrayBasedStack<Number>>(&spiked_array(), expected_triples());
}

#[test]
fn queue_hands_out_in_the_order_of_arrival() {
    let mut queue = ListBasedQueue::<Number>::new();
    queue.push(1).push(2).push(3);
    assert_eq!(queue.size(), 3);
    assert_eq!(queue.pivot(), Some(&1));
    assert_eq!(queue.pop(), Some(1));
    assert_eq!(queue.pop(), Some(2));
    assert_eq!(queue.pop(), Some(3));
    assert_eq!(queue.pop(), None);
    assert_eq!(queue.pivot(), None);
}

#[test]
fn stack_hands_out_the_latest_first() {
    let mut stack = ArrayBasedStack::<Number>::new();
    stack.push(1).push(2).push(3);
    assert_eq!(stack.size(), 3);
    assert_eq!(stack.pivot(), Some(&3));
    assert_eq!(stack.pop(), Some(3));
    assert_eq!(stack.pop(), Some(2));
    assert_eq!(stack.pop(), Some(1));
    assert_eq!(stack.pop(), None);
}

#[test]
fn sum_and_count_of_a_few_numbers() {
    let mut queue = ArrayBasedQueue::<Number>::new();
    queue.push(4).push(-1).push(10);
    assert_eq!(sum_and_count(queue), (13, 3));
    let empty = ListBasedStack::<Number>::new();
    assert_eq!(sum_and_count(empty), (0, 0));
}

#[test]
fn central_element_of_even_and_odd_counts() {
    let mut queue = ListBasedQueue::<Number>::new();
    queue.push(10).push(20).push(30).push(40);
    assert_eq!(central_element(queue), Some(30));
    let mut stack = ListBasedStack::<Number>::new();
    stack.push(10).push(20).push(30).push(40);
    assert_eq!(central_element(stack), Some(20));
    let mut one = ArrayBasedQueue::<Number>::new();
    one.push(5);
    assert_eq!(central_element(one), Some(5));
    assert_eq!(central_element(ArrayBasedQueue::<Number>::new()), None);
}

#[test]
fn triples_of_fewer_than_three_elements() {
    let mut queue = ListBasedQueue::<Number>::new();
    queue.push(5).push(5);
    let (mins, maxs) = evaluate_mins_and_maxs_triples(queue);
    assert_eq!(
        mins,
        MinsTriple {
            triple: Triple {
                first: Some(5),
                second: Some(5),
                third: None
            }
        }
    );
    assert_eq!(
        maxs,
        MaxsTriple {
            triple: Triple {
                first: Some(5),
                second: Some(5),
                third: None
            }
        }
    );
    let (mins, maxs) = evaluate_mins_and_maxs_triples(ListBasedQueue::<Number>::new());
    assert_eq!(mins, MinsTriple::default());
    assert_eq!(maxs, MaxsTriple::default());
}

#[test]
fn triples_keep_the_three_best_in_order() {
    let mut stack = ArrayBasedStack::<Number>::new();
    for x in [3, 9, -4, 9, 0, 12, -4, 7] {
        stack.push(x);
    }
    let (mins, maxs) = evaluate_mins_and_maxs_triples(stack);
    assert_eq!(mins.triple.first, Some(-4));
    assert_eq!(mins.triple.second, Some(-4));
    assert_eq!(mins.triple.third, Some(0));
    assert_eq!(maxs.triple.first, Some(12));
    assert_eq!(maxs.triple.second, Some(9));
    assert_eq!(maxs.triple.third, Some(9));
}
