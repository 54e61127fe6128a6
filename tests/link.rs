use quartz::{lt_to_string, str_to_lt};

#[test]
fn numeric_link_types() {
    assert_eq!(str_to_lt("3"), 3);
    assert_eq!(str_to_lt("-1"), -1);
    assert_eq!(str_to_lt("+7"), 7);
    assert_eq!(str_to_lt("127"), 127);
    assert_eq!(str_to_lt("-128"), -128);
    assert_eq!(str_to_lt("007"), 7);
}

#[test]
fn symbolic_link_types() {
    let letters = ["n", "r", "x", "y", "z", "h", "s", "l", "a", "v", "o", "A", "T"];
    let codes = [-1, -2, -3, -4, -5, -6, -7, -8, -9, -11, -12, -13, -14];
    for (l, c) in letters.iter().zip(codes.iter()) {
        assert_eq!(str_to_lt(l), *c);
        assert_eq!(lt_to_string(*c), *l);
    }
}

#[test]
fn unknown_link_types_are_zero() {
    assert_eq!(str_to_lt("200"), 0);
    assert_eq!(str_to_lt("-129"), 0);
    assert_eq!(str_to_lt("q"), 0);
    assert_eq!(str_to_lt(""), 0);
    assert_eq!(str_to_lt("xx"), 0);
    assert_eq!(str_to_lt("-"), 0);
}

#[test]
fn link_types_written_in_decimal() {
    assert_eq!(lt_to_string(0), "0");
    assert_eq!(lt_to_string(5), "5");
    assert_eq!(lt_to_string(42), "42");
    assert_eq!(lt_to_string(127), "127");
    assert_eq!(lt_to_string(-10), "-10");
    assert_eq!(lt_to_string(-15), "-15");
    assert_eq!(lt_to_string(-128), "-128");
}

#[test]
fn link_type_text_round_trip() {
    for n in i8::MIN..=i8::MAX {
        assert_eq!(str_to_lt(&lt_to_string(n)), n);
    }
}
