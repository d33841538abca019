use keyed_list::list::Node;
use keyed_list::style::append_decimal;

#[test]
fn style_places_the_node_in_rem() {
    let shown = Node { key: 3, left: 2, top: 2 };
    assert_eq!(
        shown.style(),
        "position: absolute; left: 2rem; top: 2rem; background: lightblue; transition: all 1s;"
    );
}

#[test]
fn style_writes_left_and_top_separately() {
    let shown = Node { key: 0, left: 120, top: 7 };
    assert_eq!(
        shown.style(),
        "position: absolute; left: 120rem; top: 7rem; background: lightblue; transition: all 1s;"
    );
}

#[test]
fn style_agrees_with_std_formatting() {
    for at in [0usize, 1, 9, 10, 11, 99, 100, 101, 4096, usize::MAX] {
        let shown = Node { key: 1, left: at, top: at / 3 };
        assert_eq!(
            shown.style(),
            format!(
                "position: absolute; left: {}rem; top: {}rem; background: lightblue; transition: all 1s;",
                at,
                at / 3
            )
        );
    }
}

#[test]
fn label_is_the_key_in_decimal() {
    assert_eq!(Node { key: 0, left: 0, top: 0 }.label(), "0");
    assert_eq!(Node { key: 7, left: 0, top: 0 }.label(), "7");
    assert_eq!(Node { key: 10, left: 0, top: 0 }.label(), "10");
    assert_eq!(Node { key: 255, left: 0, top: 0 }.label(), "255");
    for key in 0..=255u8 {
        assert_eq!(Node { key, left: 1, top: 1 }.label(), format!("{}", key));
    }
}

#[test]
fn append_decimal_adds_behind_what_is_there() {
    let mut text = String::from("left: ");
    append_decimal(&mut text, 0);
    assert_eq!(text, "left: 0");
    append_decimal(&mut text, 907);
    assert_eq!(text, "left: 0907");
    let mut large = String::new();
    append_decimal(&mut large, usize::MAX);
    assert_eq!(large, usize::MAX.to_string());
}
