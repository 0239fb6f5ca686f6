use pixmux::{cycle_index, step_index, AdjustDirection};

#[test]
fn adjust_index_test_forward_cycle() {
    let test_cases = [(0, 3, 1), (1, 3, 2), (2, 3, 0)];

    for test_case in test_cases {
        let (index, len, expected) = test_case;
        assert_eq!(cycle_index(index, len, AdjustDirection::Next), expected);
    }
}

#[test]
fn adjust_index_test_backward_cycle() {
    let test_cases = [(0, 3, 2), (1, 3, 0), (2, 3, 1)];

    for test_case in test_cases {
        let (index, len, expected) = test_case;
        assert_eq!(cycle_index(index, len, AdjustDirection::Previous), expected);
    }
}

#[test]
fn test_single_element_cycle() {
    let dirs = [AdjustDirection::Next, AdjustDirection::Previous];

    for dir in dirs {
        assert_eq!(cycle_index(0, 1, dir), 0);
    }
}

#[test]
fn adjust_index_test_forward_step() {
    let test_cases = [(0, 3, 1), (1, 3, 2), (2, 3, 2)];

    for test_case in test_cases {
        let (index, len, expected) = test_case;
        assert_eq!(step_index(index, len, AdjustDirection::Next), expected);
    }
}

#[test]
fn adjust_index_test_backward_step() {
    let test_cases = [(0, 3, 0), (1, 3, 0), (2, 3, 1)];

    for test_case in test_cases {
        let (index, len, expected) = test_case;
        assert_eq!(step_index(index, len, AdjustDirection::Previous), expected);
    }
}

#[test]
fn test_single_element_step() {
    let dirs = [AdjustDirection::Next, AdjustDirection::Previous];

    for dir in dirs {
        assert_eq!(step_index(0, 1, dir), 0);
    }
}

#[test]
fn cycle_index_past_the_ring_reduces_first() {
    assert_eq!(cycle_index(7, 3, AdjustDirection::Next), 2);
    assert_eq!(cycle_index(7, 3, AdjustDirection::Previous), 0);
    assert_eq!(cycle_index(usize::MAX, 1, AdjustDirection::Next), 0);
    assert_eq!(cycle_index(usize::MAX, usize::MAX, AdjustDirection::Next), 1);
    assert_eq!(cycle_index(usize::MAX, usize::MAX, AdjustDirection::Previous), usize::MAX - 1);
}

#[test]
fn step_index_past_the_row_comes_back_to_its_end() {
    assert_eq!(step_index(9, 3, AdjustDirection::Next), 2);
    assert_eq!(step_index(9, 3, AdjustDirection::Previous), 8);
    assert_eq!(step_index(0, 0, AdjustDirection::Previous), 0);
    assert_eq!(step_index(usize::MAX, usize::MAX, AdjustDirection::Next), usize::MAX - 1);
}
