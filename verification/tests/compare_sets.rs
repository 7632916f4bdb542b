use clubs_diamonds::compare::{compare_sets, compare_sets_owned};

#[test]
fn compare_sets_out_of_order() {
    assert_eq!(
        compare_sets(
            &mut ["hi", "hello"],
            &mut ["hello", "hi"]
        ),
        Ok(())
    );
}

#[test]
fn compare_sets_just_missing() {
    assert_eq!(
        compare_sets(
            &mut ["hi", "hello", "world"],
            &mut ["hi", "world"],
        ),
        Err(format!("Missing items: hello"))
    );
}

#[test]
fn compare_sets_just_unexpected() {
    assert_eq!(
        compare_sets(
            &mut ["3+2*(4>>a)%9", "2%(8/4/a)"],
            &mut ["2%(8/4/a)", "3+2*(4>>a)%9", "2/9+a/4>>1"]
        ),
        Err(format!("Unexpected items: 2/9+a/4>>1"))
    );
}

#[test]
fn compare_sets_just_duplicated() {
    assert_eq!(
        compare_sets(
            &mut ["hi", "there", "you", "friend"],
            &mut ["hi", "there", "you", "friend", "you", "you", "hi"],
        ),
        Err(format!("Duplicated items: you [3], hi [2]"))
    )
}

#[test]
fn compare_sets_three_errors() {
    assert_eq!(
        compare_sets(
            &mut ["hi", "there", "you", "friend", "pona"],
            &mut ["there", "you", "friend", "world", "lettuce", "there", "lettuce"],
        ),
        Err(
            format!("Missing items: pona, hi\n") +
           &format!("Unexpected items: world, lettuce\n") +
           &format!("Duplicated items: there [2], lettuce [2]")
        )
    );
}

#[test]
fn compare_sets_sorts_both_sides_largest_first() {
    let mut expected = ["b", "a", "c"];
    let mut actual = ["a", "c", "b"];
    assert_eq!(compare_sets(&mut expected, &mut actual), Ok(()));
    assert_eq!(expected, ["c", "b", "a"]);
    assert_eq!(actual, ["c", "b", "a"]);
}

#[test]
fn compare_sets_empty_sets_agree() {
    let mut expected: [&str; 0] = [];
    let mut actual: [&str; 0] = [];
    assert_eq!(compare_sets(&mut expected, &mut actual), Ok(()));
}

#[test]
fn compare_sets_long_line_is_cut_at_seventy_bytes() {
    let items = [
        "aaaaaaaaaa", "bbbbbbbbbb", "cccccccccc", "dddddddddd", "eeeeeeeeee", "ffffffffff",
    ];
    let mut expected = items;
    let mut actual: [&str; 0] = [];
    let line = "Missing items: ffffffffff, eeeeeeeeee, dddddddddd, cccccccccc, bbbbbbbbbb, aaaaaaaaaa\n";
    let cut = format!("{}...", &line[..70]);
    assert_eq!(compare_sets(&mut expected, &mut actual), Err(cut));
}

#[test]
fn compare_sets_missing_item_reported_once() {
    assert_eq!(
        compare_sets(&mut ["x", "x", "y"], &mut ["y"]),
        Err(format!("Missing items: x"))
    );
}

#[test]
fn compare_sets_owned_reads_strings() {
    let found = vec![String::from("a+1"), String::from("1+a"), String::from("a+1")];
    assert_eq!(
        compare_sets_owned(&mut ["1+a", "a+1"], &found),
        Err(format!("Duplicated items: a+1 [2]"))
    );
}
