use bankers::bankers_algorithm::BankersAlgorithm;
use bankers::error::BankError;
use bankers::matrix::Matrix;

fn textbook() -> BankersAlgorithm {
    let available = vec![3, 3, 2];
    let max = Matrix::from_vec(vec![
        vec![7, 5, 3],
        vec![3, 2, 2],
        vec![9, 0, 2],
        vec![2, 2, 2],
        vec![4, 3, 3],
    ])
    .unwrap();
    let allocation = Matrix::from_vec(vec![
        vec![0, 1, 0],
        vec![2, 0, 0],
        vec![3, 0, 2],
        vec![2, 1, 1],
        vec![0, 0, 2],
    ])
    .unwrap();
    BankersAlgorithm::new(available, max, allocation).unwrap()
}

fn two_processes() -> BankersAlgorithm {
    let available = vec![3, 3, 2];
    let max = Matrix::from_vec(vec![vec![7, 5, 3], vec![3, 2, 2]]).unwrap();
    let allocation = Matrix::from_vec(vec![vec![0, 1, 0], vec![2, 0, 0]]).unwrap();
    BankersAlgorithm::new(available, max, allocation).unwrap()
}

fn snapshot(b: &BankersAlgorithm) -> (Vec<i32>, Vec<Vec<i32>>, Vec<Vec<i32>>, Vec<Vec<i32>>) {
    (
        b.available().clone(),
        b.max().data.clone(),
        b.allocation().data.clone(),
        b.need().data.clone(),
    )
}

fn totals(b: &BankersAlgorithm) -> Vec<i64> {
    let mut t: Vec<i64> = b.available().iter().map(|&x| x as i64).collect();
    for row in &b.allocation().data {
        for (j, &a) in row.iter().enumerate() {
            t[j] += a as i64;
        }
    }
    t
}

fn assert_need_invariant(b: &BankersAlgorithm) {
    for i in 0..b.num_processes() {
        for j in 0..b.num_resources() {
            assert_eq!(
                b.need().data[i][j],
                b.max().data[i][j] - b.allocation().data[i][j]
            );
        }
    }
}

#[test]
fn test_basic_safe_state() {
    let available: Vec<i32> = vec![3, 3, 2];
    let max = Matrix::from_vec(vec![vec![5, 4, 2], vec![3, 2, 2], vec![8, 0, 2]]).unwrap();
    let allocation = Matrix::from_vec(vec![vec![0, 1, 0], vec![2, 0, 0], vec![3, 0, 2]]).unwrap();

    let banker = BankersAlgorithm::new(available.clone(), max.clone(), allocation.clone()).unwrap();

    let (is_safe, safe_sequence) = banker.is_safe();
    assert!(is_safe);
    // A pass keeps scanning after a completion: process 2 completes in the
    // first pass, right after process 1, and process 0 in the second.
    assert_eq!(safe_sequence, vec![1, 2, 0]);
}

#[test]
fn test_unsafe_state() {
    let available = vec![0, 1, 1];
    let max = Matrix::from_vec(vec![vec![7, 5, 3], vec![3, 2, 2]]).unwrap();
    let allocation = Matrix::from_vec(vec![vec![6, 4, 2], vec![2, 1, 1]]).unwrap();

    let banker = BankersAlgorithm::new(available.clone(), max.clone(), allocation.clone()).unwrap();

    let (is_safe, _) = banker.is_safe();
    assert!(!is_safe);
}

#[test]
fn test_valid_request() {
    let available = vec![3, 3, 2];
    let max = Matrix::from_vec(vec![vec![7, 5, 3], vec![3, 2, 2]]).unwrap();
    let allocation = Matrix::from_vec(vec![vec![5, 2, 2], vec![2, 0, 0]]).unwrap();

    let mut banker = BankersAlgorithm::new(available.clone(), max.clone(), allocation.clone()).unwrap();

    let request = vec![1, 0, 1];
    assert!(banker.request_resources(0, &request));

    let (is_safe, _) = banker.is_safe();
    assert!(is_safe);
}

#[test]
fn test_invalid_request() {
    let available = vec![3, 3, 2];
    let max = Matrix::from_vec(vec![vec![7, 5, 3], vec![3, 2, 2]]).unwrap();
    let allocation = Matrix::from_vec(vec![vec![0, 1, 0], vec![2, 0, 0]]).unwrap();

    let mut banker = BankersAlgorithm::new(available.clone(), max.clone(), allocation.clone()).unwrap();

    let request = vec![8, 0, 0];
    assert!(!banker.request_resources(0, &request));
}

#[test]
fn textbook_state_is_safe_in_lowest_index_order() {
    let b = textbook();
    assert_eq!(b.is_safe(), (true, vec![1, 3, 4, 0, 2]));
}

#[test]
fn unsafe_state_reports_empty_sequence() {
    let available = vec![0, 1, 1];
    let max = Matrix::from_vec(vec![vec![7, 5, 3], vec![3, 2, 2]]).unwrap();
    let allocation = Matrix::from_vec(vec![vec![6, 4, 2], vec![2, 1, 1]]).unwrap();
    let b = BankersAlgorithm::new(available, max, allocation).unwrap();
    assert_eq!(b.is_safe(), (false, vec![]));
}

#[test]
fn partial_sequence_when_some_processes_finish() {
    // Process 0 can finish, process 1 never can.
    let available = vec![1];
    let max = Matrix::from_vec(vec![vec![2], vec![9]]).unwrap();
    let allocation = Matrix::from_vec(vec![vec![1], vec![0]]).unwrap();
    let b = BankersAlgorithm::new(available, max, allocation).unwrap();
    assert_eq!(b.is_safe(), (false, vec![0]));
}

#[test]
fn safe_sequence_replays_within_need() {
    let b = textbook();
    let (safe, seq) = b.is_safe();
    assert!(safe);
    let mut sorted = seq.clone();
    sorted.sort();
    assert_eq!(sorted, vec![0, 1, 2, 3, 4]);
    let mut work = b.available().clone();
    for &i in &seq {
        for j in 0..b.num_resources() {
            assert!(b.need().data[i][j] <= work[j]);
        }
        for j in 0..b.num_resources() {
            work[j] += b.allocation().data[i][j];
        }
    }
}

#[test]
fn is_safe_twice_gives_same_answer() {
    let b = textbook();
    let first = b.is_safe();
    let second = b.is_safe();
    assert_eq!(first, second);
    let u = two_processes();
    assert_eq!(u.is_safe(), u.is_safe());
}

#[test]
fn granted_request_conserves_and_keeps_need() {
    let mut b = textbook();
    let before = totals(&b);
    assert_eq!(b.try_request(1, &vec![1, 0, 2]), Ok(()));
    assert_eq!(totals(&b), before);
    assert_need_invariant(&b);
    assert_eq!(b.available(), &vec![2, 3, 0]);
    assert_eq!(b.allocation().data[1], vec![3, 0, 2]);
    assert_eq!(b.need().data[1], vec![0, 2, 0]);
    assert!(b.is_safe().0);
}

#[test]
fn claim_exceeded_leaves_state_unchanged() {
    let mut b = textbook();
    let before = snapshot(&b);
    assert_eq!(b.try_request(0, &vec![8, 0, 0]), Err(BankError::ClaimExceeded));
    assert_eq!(snapshot(&b), before);
}

#[test]
fn insufficient_resources_leaves_state_unchanged() {
    let mut b = textbook();
    let before = snapshot(&b);
    assert_eq!(b.try_request(0, &vec![4, 0, 0]), Err(BankError::InsufficientResources));
    assert_eq!(snapshot(&b), before);
}

#[test]
fn unsafe_request_is_rolled_back_exactly() {
    let mut b = two_processes();
    let before = snapshot(&b);
    assert_eq!(b.try_request(0, &vec![3, 3, 2]), Err(BankError::UnsafeAllocation));
    assert_eq!(snapshot(&b), before);
    assert!(!b.request_resources(0, &vec![3, 3, 2]));
    assert_eq!(snapshot(&b), before);
    assert_need_invariant(&b);
}

#[test]
fn malformed_requests_are_refused() {
    let mut b = textbook();
    let before = snapshot(&b);
    assert_eq!(b.try_request(5, &vec![0, 0, 0]), Err(BankError::IndexOutOfRange));
    assert_eq!(b.try_request(0, &vec![1, 0]), Err(BankError::DimensionMismatch));
    assert_eq!(b.try_request(0, &vec![-1, 0, 0]), Err(BankError::InvalidQuantity));
    assert_eq!(snapshot(&b), before);
}

#[test]
fn checks_come_in_order() {
    let mut b = textbook();
    // Over both the need and the free units: the claim is checked first.
    assert_eq!(b.try_request(2, &vec![7, 0, 0]), Err(BankError::ClaimExceeded));
    // Within the need, over the free units.
    assert_eq!(b.try_request(2, &vec![6, 0, 0]), Err(BankError::InsufficientResources));
}

#[test]
fn zero_request_is_granted_in_safe_state() {
    let mut b = textbook();
    let before = snapshot(&b);
    assert!(b.request_resources(0, &vec![0, 0, 0]));
    assert_eq!(snapshot(&b), before);
}

#[test]
fn new_derives_need() {
    let b = textbook();
    assert_eq!(
        b.need().data,
        vec![vec![7, 4, 3], vec![1, 2, 2], vec![6, 0, 0], vec![0, 1, 1], vec![4, 3, 1]]
    );
    assert_eq!(b.num_processes(), 5);
    assert_eq!(b.num_resources(), 3);
    assert_need_invariant(&b);
}

#[test]
fn new_refuses_mismatched_shapes() {
    let max = Matrix::from_vec(vec![vec![7, 5, 3], vec![3, 2, 2]]).unwrap();
    let short = Matrix::from_vec(vec![vec![0, 1, 0]]).unwrap();
    let narrow = Matrix::from_vec(vec![vec![0, 1], vec![2, 0]]).unwrap();
    assert_eq!(
        BankersAlgorithm::new(vec![3, 3, 2], max.clone(), short).err(),
        Some(BankError::DimensionMismatch)
    );
    assert_eq!(
        BankersAlgorithm::new(vec![3, 3, 2], max.clone(), narrow).err(),
        Some(BankError::DimensionMismatch)
    );
    assert_eq!(
        BankersAlgorithm::new(vec![3, 3], max.clone(), max.clone()).err(),
        Some(BankError::DimensionMismatch)
    );
    let broken = Matrix { data: vec![vec![1, 2, 3]], rows: 2, cols: 3 };
    assert_eq!(
        BankersAlgorithm::new(vec![3, 3, 2], broken.clone(), broken).err(),
        Some(BankError::DimensionMismatch)
    );
}

#[test]
fn new_refuses_invalid_quantities() {
    let max = Matrix::from_vec(vec![vec![7, 5, 3]]).unwrap();
    let alloc = Matrix::from_vec(vec![vec![0, 1, 0]]).unwrap();
    assert_eq!(
        BankersAlgorithm::new(vec![3, -1, 2], max.clone(), alloc.clone()).err(),
        Some(BankError::InvalidQuantity)
    );
    let over = Matrix::from_vec(vec![vec![8, 0, 0]]).unwrap();
    assert_eq!(
        BankersAlgorithm::new(vec![3, 3, 2], max.clone(), over).err(),
        Some(BankError::InvalidQuantity)
    );
    let negative = Matrix::from_vec(vec![vec![-1, 0, 0]]).unwrap();
    assert_eq!(
        BankersAlgorithm::new(vec![3, 3, 2], max.clone(), negative).err(),
        Some(BankError::InvalidQuantity)
    );
    let big = Matrix::from_vec(vec![vec![1]]).unwrap();
    assert_eq!(
        BankersAlgorithm::new(vec![i32::MAX], big.clone(), big.clone()).err(),
        Some(BankError::InvalidQuantity)
    );
    assert!(BankersAlgorithm::new(vec![i32::MAX - 1], big.clone(), big).is_ok());
}

#[test]
fn unsafe_initial_state_is_constructible() {
    let available = vec![0];
    let max = Matrix::from_vec(vec![vec![2]]).unwrap();
    let allocation = Matrix::from_vec(vec![vec![1]]).unwrap();
    let b = BankersAlgorithm::new(available, max, allocation).unwrap();
    assert_eq!(b.is_safe(), (false, vec![]));
}

#[test]
fn no_processes_is_safe() {
    let b = BankersAlgorithm::new(vec![1, 2], Matrix::new(0, 2), Matrix::new(0, 2)).unwrap();
    assert_eq!(b.is_safe(), (true, vec![]));
}

#[test]
fn matrix_new_is_zero() {
    let m = Matrix::new(2, 3);
    assert_eq!(m.rows, 2);
    assert_eq!(m.cols, 3);
    assert_eq!(m.data, vec![vec![0, 0, 0], vec![0, 0, 0]]);
}

#[test]
fn matrix_from_vec_checks_shape() {
    assert_eq!(Matrix::from_vec(vec![]).err(), Some(BankError::DimensionMismatch));
    assert_eq!(
        Matrix::from_vec(vec![vec![1, 2], vec![3]]).err(),
        Some(BankError::DimensionMismatch)
    );
    let m = Matrix::from_vec(vec![vec![1, 2], vec![3, 4], vec![5, 6]]).unwrap();
    assert_eq!((m.rows, m.cols), (3, 2));
    assert!(m.is_well_formed());
}

#[test]
fn matrix_get_and_set() {
    let mut m = Matrix::from_vec(vec![vec![1, 2], vec![3, 4]]).unwrap();
    assert_eq!(m.get(1, 0), Ok(3));
    assert_eq!(m.get(2, 0), Err(BankError::IndexOutOfRange));
    assert_eq!(m.get(0, 2), Err(BankError::IndexOutOfRange));
    assert_eq!(m.set(0, 1, 9), Ok(()));
    assert_eq!(m.data, vec![vec![1, 9], vec![3, 4]]);
    assert_eq!(m.set(0, 5, 7), Err(BankError::IndexOutOfRange));
    assert_eq!(m.data, vec![vec![1, 9], vec![3, 4]]);
}
