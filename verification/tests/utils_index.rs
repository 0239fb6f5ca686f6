use pixmux::utils::{cycle_index, step_index, CycleDirection, StepDirection};

#[test]
fn cycle_index_test_forward_cycle() {
    let test_cases = [(0, 3, 1), (1, 3, 2), (2, 3, 0)];

    for test_case in test_cases {
        let (mut index, len, expected) = test_case;
        cycle_index(&mut index, len, CycleDirection::Forward);
        assert_eq!(index, expected);
    }
}

#[test]
fn cycle_index_test_backward_cycle() {
    let test_cases = [(0, 3, 2), (1, 3, 0), (2, 3, 1)];

    for test_case in test_cases {
        let (mut index, len, expected) = test_case;
        cycle_index(&mut index, len, CycleDirection::Backward);
        assert_eq!(index, expected);
    }
}

#[test]
fn cycle_index_test_single_element() {
    let dirs = [CycleDirection::Forward, CycleDirection::Backward];

    for dir in dirs {
        let mut index = 0;
        cycle_index(&mut index, 1, dir);
        assert_eq!(index, 0);
    }
}

#[test]
fn step_index_test_forward_step() {
    let test_cases = [(0, 3, 1), (1, 3, 2), (2, 3, 2)];

    for test_case in test_cases {
        let (index, len, expected) = test_case;
        assert_eq!(step_index(index, len, StepDirection::Forward), expected);
    }
}

#[test]
fn step_index_test_backward_step() {
    let test_cases = [(0, 3, 0), (1, 3, 0), (2, 3, 1)];

    for test_case in test_cases {
        let (index, len, expected) = test_case;
        assert_eq!(step_index(index, len, StepDirection::Backward), expected);
    }
}

#[test]
fn step_index_test_single_element() {
    let dirs = [StepDirection::Forward, StepDirection::Backward];

    for dir in dirs {
        assert_eq!(step_index(0, 1, dir), 0);
    }
}
