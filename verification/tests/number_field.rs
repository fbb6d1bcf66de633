use form_widgets::numberinput::has_number_shape;
use form_widgets::numberinput::parse_number;
use form_widgets::numberinput::parse_number_value;
use form_widgets::numberinput::shorten_to;
use form_widgets::numberinput::transform_number;
use form_widgets::numberinput::NumberState;
use form_widgets::numberinput::NumericField;

#[test]
fn shorten_to_cuts_decimals() {
    assert_eq!(shorten_to("1.2345", 2), "1.23");
    assert_eq!(shorten_to("1.2345", 0), "1.");
    assert_eq!(shorten_to("1.23", 2), "1.23");
    assert_eq!(shorten_to("1.2", 2), "1.2");
    assert_eq!(shorten_to("12345", 2), "12345");
    assert_eq!(shorten_to("", 2), "");
    assert_eq!(shorten_to(".5678", 3), ".567");
    assert_eq!(shorten_to("1.2.3.4", 3), "1.2.3");
    assert_eq!(shorten_to("1.2345", u16::MAX), "1.2345");
}

#[test]
fn shorten_to_counts_characters() {
    assert_eq!(shorten_to("1.éa", 1), "1.é");
}

#[test]
fn transform_number_drops_a_lone_minus() {
    assert_eq!(transform_number("-", 2), "");
}

#[test]
fn transform_number_applies_a_trailing_minus() {
    assert_eq!(transform_number("12-", 2), "-12");
    assert_eq!(transform_number("-12-", 2), "12");
    assert_eq!(transform_number("--", 2), "");
    assert_eq!(transform_number("1.5-", 2), "-1.5");
}

#[test]
fn transform_number_strips_one_leading_zero() {
    assert_eq!(transform_number("01", 2), "1");
    assert_eq!(transform_number("0.5", 2), "0.5");
    assert_eq!(transform_number("0", 2), "0");
    assert_eq!(transform_number("00", 2), "0");
    assert_eq!(transform_number("-01", 2), "-1");
    assert_eq!(transform_number("-0.5", 2), "-0.5");
    assert_eq!(transform_number("-0", 2), "-0");
    assert_eq!(transform_number("001", 2), "01");
}

#[test]
fn transform_number_combines_its_steps() {
    assert_eq!(transform_number("01.2345-", 2), "1.23");
    assert_eq!(transform_number("01.2-", 2), "-1.2");
    assert_eq!(transform_number("05-", 9), "-5");
    assert_eq!(transform_number("12.345", 2), "12.34");
    assert_eq!(transform_number("abc", 2), "abc");
    assert_eq!(transform_number("", 2), "");
}

#[test]
fn transform_number_is_idempotent_on_typed_numbers() {
    for text in ["", "0", "12", "-12", "12-", "0.50", "-0.5", "1.2345", "01", "-01", "-", "7."] {
        let once = transform_number(text, 2);
        assert_eq!(transform_number(&once, 2), once, "{text}");
    }
}

#[test]
fn transform_number_may_need_a_second_pass() {
    assert_eq!(transform_number("001", 2), "01");
    assert_eq!(transform_number("01", 2), "1");
    assert_eq!(transform_number("1--", 2), "-1-");
    assert_eq!(transform_number("-1-", 2), "1");
}

#[test]
fn parse_number_value_clamps() {
    assert_eq!(parse_number_value::<i32>("5", 0, 10), Some((5, false)));
    assert_eq!(parse_number_value::<i32>("0", 0, 10), Some((0, false)));
    assert_eq!(parse_number_value::<i32>("10", 0, 10), Some((10, false)));
    assert_eq!(parse_number_value::<i32>("-5", 0, 10), Some((0, true)));
    assert_eq!(parse_number_value::<i32>("11", 0, 10), Some((10, true)));
    assert_eq!(parse_number_value::<i32>("x", 0, 10), None);
    assert_eq!(parse_number_value::<i32>("", 0, 10), None);
    assert_eq!(parse_number_value::<u8>("256", 0, 255), None);
    assert_eq!(parse_number_value::<u8>("-1", 0, 255), None);
}

#[test]
fn parse_number_reads_an_empty_text_as_zero() {
    assert_eq!(parse_number::<i32>("", 0, 10), Some((0, true)));
    assert_eq!(parse_number::<i32>("", 5, 10), Some((0, true)));
    assert_eq!(parse_number::<u64>("", 0, 10), Some((0, true)));
}

#[test]
fn parse_number_of_an_integer_kind_rejects_a_point() {
    assert_eq!(parse_number::<i32>("5.", 0, 10), None);
    assert_eq!(parse_number::<i32>("5.0", 0, 10), None);
    assert_eq!(parse_number::<i32>(".", 0, 10), None);
}

#[test]
fn parse_number_stays_within_bounds() {
    for text in ["-1000", "-1", "0", "3", "7", "8", "99999", "4"] {
        let (value, _) = parse_number::<i64>(text, 3, 7).unwrap();
        assert!((3..=7).contains(&value), "{text}");
    }
}

#[test]
fn number_state_new_shows_the_value() {
    let state = NumberState::<i32>::new(42, 0, 99, 2);
    assert_eq!(state.state, "42");
    assert_eq!(state.min, 0);
    assert_eq!(state.max, 99);
    assert_eq!(state.decimals, 2);
    assert_eq!(state.get(), 42);
    assert_eq!(state.to_string(), "42");
}

#[test]
fn number_state_get_clamps() {
    let state = NumberState::<i32>::new(150, 0, 99, 2);
    assert_eq!(state.state, "150");
    assert_eq!(state.get(), 99);
}

#[test]
fn number_state_default_is_empty() {
    let state = NumberState::<i16>::default();
    assert_eq!(state.state, "");
    assert_eq!(state.min, i16::MIN);
    assert_eq!(state.max, i16::MAX);
    assert_eq!(state.decimals, u16::MAX);
    assert_eq!(state.get(), 0);
    assert_eq!(state.to_string(), "0");
}

#[test]
fn number_state_set_keeps_typed_text_in_range() {
    let mut state = NumberState::<i32>::new(1, -50, 50, 2);
    state.set("12");
    assert_eq!(state.state, "12");
    state.set("12-");
    assert_eq!(state.state, "-12");
    assert_eq!(state.get(), -12);
    state.set("-12-");
    assert_eq!(state.state, "12");
}

#[test]
fn number_state_set_ignores_unreadable_text() {
    let mut state = NumberState::<i32>::new(12, 0, 99, 2);
    state.set("12a");
    assert_eq!(state.state, "12");
    state.set("1.2");
    assert_eq!(state.state, "12");
    assert_eq!(state.get(), 12);
}

#[test]
fn number_state_set_replaces_text_out_of_range() {
    let mut state = NumberState::<i32>::new(12, 5, 99, 2);
    state.set("123");
    assert_eq!(state.state, "99");
    state.set("1");
    assert_eq!(state.state, "5");
    state.set("");
    assert_eq!(state.state, "0");
    assert_eq!(state.get(), 5);
}

#[test]
fn typing_into_an_empty_integer_field() {
    let mut field = NumericField::<i32>::empty(0, 99, u16::MAX);
    assert_eq!(field.render(), "0");
    field.on_keystroke("1");
    assert_eq!(field.display.state, "1");
    assert_eq!(field.value(), 1);
    field.on_keystroke("12");
    assert_eq!(field.display.state, "12");
    assert_eq!(field.render(), "12");
    assert_eq!(field.value(), 12);
    field.on_keystroke("123");
    assert_eq!(field.display.state, "99");
    assert_eq!(field.render(), "99");
    assert_eq!(field.value(), 99);
}

#[test]
fn a_stray_letter_changes_nothing() {
    let mut field = NumericField::<i32>::new(12, 0, 99, 0);
    field.on_keystroke("12x");
    assert_eq!(field.display.state, "12");
    assert_eq!(field.value(), 12);
    field.on_keystroke("12x");
    assert_eq!(field.display.state, "12");
    assert_eq!(field.value(), 12);
}

#[test]
fn a_repeated_keystroke_applies_once() {
    let mut field = NumericField::<i32>::new(1, -99, 99, 0);
    field.on_keystroke("15");
    field.on_keystroke("15");
    assert_eq!(field.display.state, "15");
    assert_eq!(field.value(), 15);
}

#[test]
fn an_emptied_field_shows_zero() {
    let mut field = NumericField::<u8>::new(7, 0, 20, 0);
    field.on_keystroke("");
    assert_eq!(field.value(), 0);
    assert_eq!(field.display.state, "0");
    assert_eq!(field.render(), "0");
}

#[test]
fn an_empty_text_shows_the_committed_value() {
    let mut field = NumericField::<u8>::new(7, 0, 20, 0);
    field.display.state = String::new();
    assert_eq!(field.render(), "7");
}

#[test]
fn a_negative_number_is_typed_with_a_trailing_minus() {
    let mut field = NumericField::<i64>::empty(-100, 100, 0);
    field.on_keystroke("4");
    field.on_keystroke("42");
    field.on_keystroke("42-");
    assert_eq!(field.display.state, "-42");
    assert_eq!(field.value(), -42);
    field.on_keystroke("-42-");
    assert_eq!(field.display.state, "42");
    assert_eq!(field.value(), 42);
}

#[test]
fn a_number_has_a_minus_digits_and_one_point_at_most() {
    for text in ["", "-", "5", "-5", "12.5", "-12.5", ".", "-.", "5.", ".5", "-0.50", "007"] {
        assert!(has_number_shape(text), "{text}");
    }
    for text in ["+5", "+", "5-", "--5", "1.2.3", "1e5", "inf", "NaN", " 5", "5 ", "1,5", "-+5", "5a", "a"] {
        assert!(!has_number_shape(text), "{text}");
    }
}

#[test]
fn parse_number_rejects_a_leading_plus() {
    assert_eq!(parse_number::<i32>("+5", 0, 10), None);
    assert_eq!(parse_number::<i32>("+", 0, 10), None);
    assert_eq!(parse_number::<i32>("5", 0, 10), Some((5, false)));
    assert_eq!(parse_number::<i32>("-5", -10, 10), Some((-5, false)));
    assert_eq!(parse_number_value::<i32>("+5", 0, 10), Some((5, false)));
}

#[test]
fn a_typed_plus_changes_nothing() {
    let mut field = NumericField::<i32>::new(3, 0, 99, 0);
    field.on_keystroke("+5");
    assert_eq!(field.display.state, "3");
    assert_eq!(field.value(), 3);
    let mut state = NumberState::<i32>::new(3, 0, 99, 0);
    state.set("+5");
    assert_eq!(state.state, "3");
    state.set("+500");
    assert_eq!(state.state, "3");
}

#[test]
fn the_display_text_keeps_the_shape_of_a_number() {
    let mut field = NumericField::<i32>::empty(-50, 50, 2);
    for text in ["1", "1-", "+1", "1e3", "12", "123", "-", "--", "0x10", "", "07", "-07", "7.", "4 2"] {
        field.on_keystroke(text);
        assert!(has_number_shape(&field.display.state), "{text}");
        assert!(!field.display.state.starts_with('+'));
    }
}
