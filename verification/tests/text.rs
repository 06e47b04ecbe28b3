use netalert::text::{decimal, place, Place};

#[test]
fn numbers_are_written_in_decimal() {
    for n in [0u64, 1, 9, 10, 11, 99, 100, 12345, 1_000_000, u64::MAX] {
        assert_eq!(decimal(n), n.to_string());
    }
}

#[test]
fn texts_are_sorted_as_the_standard_library_sorts_them() {
    let all = ["", "a", "ab", "abc", "b", "B", "zone", "\u{e9}", "\u{ffff}", "\u{10000}", "a\u{e9}"];
    for a in all {
        for b in all {
            let expected = if a < b {
                Place::Before
            } else if b < a {
                Place::After
            } else {
                Place::Same
            };
            assert_eq!(place(a, b), expected, "{a:?} {b:?}");
        }
    }
}
