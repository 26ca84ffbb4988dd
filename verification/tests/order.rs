use algorithm_study::order::ToText;

#[test]
fn integers_render_in_decimal() {
    assert_eq!("0", 0i32.to_text());
    assert_eq!("7", 7i32.to_text());
    assert_eq!("10", 10i32.to_text());
    assert_eq!("12345", 12345i32.to_text());
    assert_eq!("-1", (-1i32).to_text());
    assert_eq!("-2147483648", i32::MIN.to_text());
    assert_eq!("2147483647", i32::MAX.to_text());
}

#[test]
fn characters_render_as_themselves() {
    assert_eq!("A", 'A'.to_text());
    assert_eq!("z", 'z'.to_text());
    assert_eq!("0", '0'.to_text());
}

#[test]
fn strings_render_as_themselves() {
    assert_eq!("hello", "hello".to_text());
    assert_eq!("", "".to_text());
}
