use keyed_list::fields::{Button, Fields};

fn sorted(mut values: [u8; 10]) -> [u8; 10] {
    values.sort();
    values
}

#[test]
fn starts_in_identity_order() {
    assert_eq!(Fields::new().fields(), [0, 1, 2, 3, 4, 5, 6, 7, 8, 9]);
}

#[test]
fn from_fields_keeps_the_given_order() {
    let order = [9, 3, 3, 0, 250, 7, 1, 1, 2, 8];
    assert_eq!(Fields::from_fields(order).fields(), order);
}

#[test]
fn swap_neighbors_exchanges_positions_two_and_three() {
    let mut state = Fields::new();
    state.swap_neighbors();
    assert_eq!(state.fields(), [0, 1, 3, 2, 4, 5, 6, 7, 8, 9]);
}

#[test]
fn swap_far_exchanges_positions_two_and_five() {
    let mut state = Fields::new();
    state.swap_far();
    assert_eq!(state.fields(), [0, 1, 5, 3, 4, 2, 6, 7, 8, 9]);
}

#[test]
fn swap_far_after_swap_neighbors() {
    let mut state = Fields::new();
    state.swap_neighbors();
    state.swap_far();
    assert_eq!(state.fields(), [0, 1, 5, 2, 4, 3, 6, 7, 8, 9]);
}

#[test]
fn swap_exchanges_any_two_positions() {
    let mut state = Fields::from_fields([10, 11, 12, 13, 14, 15, 16, 17, 18, 19]);
    state.swap(0, 9);
    assert_eq!(state.fields(), [19, 11, 12, 13, 14, 15, 16, 17, 18, 10]);
    state.swap(9, 4);
    assert_eq!(state.fields(), [19, 11, 12, 13, 10, 15, 16, 17, 18, 14]);
}

#[test]
fn swap_of_a_position_with_itself_changes_nothing() {
    let mut state = Fields::new();
    state.swap(7, 7);
    assert_eq!(state.fields(), [0, 1, 2, 3, 4, 5, 6, 7, 8, 9]);
}

#[test]
fn swap_neighbors_twice_restores() {
    for order in [
        [0, 1, 2, 3, 4, 5, 6, 7, 8, 9],
        [9, 8, 7, 6, 5, 4, 3, 2, 1, 0],
        [4, 4, 200, 17, 0, 4, 255, 1, 1, 3],
    ] {
        let mut state = Fields::from_fields(order);
        state.swap_neighbors();
        state.swap_neighbors();
        assert_eq!(state.fields(), order);
    }
}

#[test]
fn swap_far_twice_restores() {
    for order in [
        [0, 1, 2, 3, 4, 5, 6, 7, 8, 9],
        [9, 8, 7, 6, 5, 4, 3, 2, 1, 0],
        [4, 4, 200, 17, 0, 4, 255, 1, 1, 3],
    ] {
        let mut state = Fields::from_fields(order);
        state.swap_far();
        state.swap_far();
        assert_eq!(state.fields(), order);
    }
}

#[test]
fn press_does_what_the_button_says() {
    let mut state = Fields::new();
    state.press(Button::SwapNeighbors);
    assert_eq!(state.fields(), [0, 1, 3, 2, 4, 5, 6, 7, 8, 9]);
    let mut state = Fields::new();
    state.press(Button::SwapFar);
    assert_eq!(state.fields(), [0, 1, 5, 3, 4, 2, 6, 7, 8, 9]);
}

#[test]
fn press_all_replays_clicks_in_order() {
    let mut state = Fields::new();
    state.press_all(&vec![Button::SwapNeighbors, Button::SwapFar, Button::SwapNeighbors]);
    assert_eq!(state.fields(), [0, 1, 2, 5, 4, 3, 6, 7, 8, 9]);
    let mut untouched = Fields::new();
    untouched.press_all(&Vec::new());
    assert_eq!(untouched.fields(), [0, 1, 2, 3, 4, 5, 6, 7, 8, 9]);
}

#[test]
fn clicks_only_permute_the_values() {
    let clicks = vec![
        Button::SwapFar,
        Button::SwapNeighbors,
        Button::SwapNeighbors,
        Button::SwapFar,
        Button::SwapFar,
        Button::SwapNeighbors,
        Button::SwapFar,
    ];
    for order in [[0, 1, 2, 3, 4, 5, 6, 7, 8, 9], [7, 7, 1, 0, 9, 3, 3, 3, 2, 8]] {
        let mut state = Fields::from_fields(order);
        for upto in 0..clicks.len() {
            state.press(clicks[upto]);
            assert_eq!(sorted(state.fields()), sorted(order));
        }
        let mut replayed = Fields::from_fields(order);
        replayed.press_all(&clicks);
        assert_eq!(replayed.fields(), state.fields());
    }
}
