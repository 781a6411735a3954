use traktor_n_rekords::cue::{convert_cue, convert_cues, cue_start_to_seconds};
use traktor_n_rekords::decimal::{ceiling_of_decimal, Whole};
use traktor_n_rekords::error::ConversionError;
use traktor_n_rekords::traktor_collection::CueV2;

fn seconds(start: &str) -> String {
    cue_start_to_seconds(start).unwrap()
}

fn cue(name: &str, start: &str, hotcue: i32) -> CueV2 {
    CueV2 { name: name.to_string(), start: start.to_string(), hotcue }
}

#[test]
fn cue_start_is_rounded_up_to_a_whole_millisecond() {
    assert_eq!(seconds("1355.211304"), "1.356");
    assert_eq!(seconds("16270.488686"), "16.271");
    assert_eq!(seconds("37965.437605"), "37.966");
    assert_eq!(seconds("59660.386524"), "59.661");
    assert_eq!(seconds("113897.758822"), "113.898");
    assert_eq!(seconds("135592.707741"), "135.593");
    assert_eq!(seconds("0.561628"), "0.001");
}

#[test]
fn whole_cue_start_is_not_rounded() {
    assert_eq!(seconds("0"), "0.000");
    assert_eq!(seconds("1"), "0.001");
    assert_eq!(seconds("12"), "0.012");
    assert_eq!(seconds("123"), "0.123");
    assert_eq!(seconds("1000"), "1.000");
    assert_eq!(seconds("999.0000"), "0.999");
    assert_eq!(seconds("60000.0"), "60.000");
    assert_eq!(seconds("1005"), "1.005");
    assert_eq!(seconds("1050"), "1.050");
}

#[test]
fn smallest_fraction_rounds_up() {
    assert_eq!(seconds("999.0001"), "1.000");
    assert_eq!(seconds("0.000000000000000000000000000000000000000000001"), "0.001");
    assert_eq!(seconds("1355.0000000001"), "1.356");
    assert_eq!(seconds("16777217"), "16777.217");
}

#[test]
fn cue_start_may_have_a_sign_a_bare_point_and_leading_zeros() {
    assert_eq!(seconds("+7"), "0.007");
    assert_eq!(seconds(".5"), "0.001");
    assert_eq!(seconds("5."), "0.005");
    assert_eq!(seconds("+.5"), "0.001");
    assert_eq!(seconds("00012.5"), "0.013");
    assert_eq!(seconds("0.000"), "0.000");
}

#[test]
fn cue_start_may_have_an_exponent() {
    assert_eq!(seconds("1e3"), "1.000");
    assert_eq!(seconds("1E3"), "1.000");
    assert_eq!(seconds("1.5e3"), "1.500");
    assert_eq!(seconds("1.5e+3"), "1.500");
    assert_eq!(seconds("15e-1"), "0.002");
    assert_eq!(seconds("1E2"), "0.100");
    assert_eq!(seconds("1.e2"), "0.100");
    assert_eq!(seconds(".1e2"), "0.010");
    assert_eq!(seconds("123456e-3"), "0.124");
    assert_eq!(seconds("123000e-3"), "0.123");
    assert_eq!(seconds("1.23456e2"), "0.124");
    assert_eq!(seconds("1e0"), "0.001");
    assert_eq!(seconds("1e-0"), "0.001");
    assert_eq!(seconds("0.000e5"), "0.000");
    assert_eq!(seconds("1e-5"), "0.001");
    assert_eq!(seconds("0e-5"), "0.000");
}

#[test]
fn negative_cue_start_is_rounded_towards_zero_and_keeps_its_sign() {
    assert_eq!(seconds("-1355.2"), "-1.355");
    assert_eq!(seconds("-1355"), "-1.355");
    assert_eq!(seconds("-0.5"), "-0.000");
    assert_eq!(seconds("-0"), "-0.000");
    assert_eq!(seconds("-15e-1"), "-0.001");
}

#[test]
fn very_large_and_very_small_exponents() {
    assert_eq!(seconds("1e38"), "100000000000000000000000000000000000.000");
    assert_eq!(seconds("0e999999999999999999999999999999999999999999"), "0.000");
    assert_eq!(seconds("1e-999999999999999999999999999999999999999999"), "0.001");
    assert_eq!(seconds("-1e-999999999999999999999999999999999999999999"), "-0.000");
    assert_eq!(seconds("0e-999999999999999999999999999999999999999999"), "0.000");
    assert_eq!(
        seconds("0.00000000000000000000000000000000000000000000000001e50"),
        "0.001"
    );
    assert_eq!(
        seconds("100000000000000000000000000000000000000000000000000e-50"),
        "0.001"
    );
}

#[test]
fn largest_cue_start() {
    assert_eq!(
        seconds("340282366920938463463374607431768211455"),
        "340282366920938463463374607431768211.455"
    );
    assert_eq!(
        seconds("-340282366920938463463374607431768211455.5"),
        "-340282366920938463463374607431768211.455"
    );
    assert_eq!(
        cue_start_to_seconds("340282366920938463463374607431768211456"),
        Err(ConversionError::UnparsableCueStart)
    );
    assert_eq!(
        cue_start_to_seconds("340282366920938463463374607431768211455.5"),
        Err(ConversionError::UnparsableCueStart)
    );
    assert_eq!(cue_start_to_seconds("1e39"), Err(ConversionError::UnparsableCueStart));
    assert_eq!(
        cue_start_to_seconds("1e999999999999999999999999999999999999999999"),
        Err(ConversionError::UnparsableCueStart)
    );
}

#[test]
fn cue_start_that_is_no_number_is_an_error() {
    for start in [
        "", "abc", ".", "+", "-", "e5", ".e5", "1e", "1e+", "1e-", "1e5.5", "1e5e5", "--1", "+-1",
        "1.2.3", " 1", "1 ", "1,5", "1_000", "0x10", "inf", "-inf", "infinity", "NaN", "nan",
        "١٢٣", "1.5f", "12a", "1e1.0",
    ] {
        assert_eq!(
            cue_start_to_seconds(start),
            Err(ConversionError::UnparsableCueStart),
            "{:?}",
            start
        );
    }
}

#[test]
fn ceiling_of_decimal_gives_sign_and_size() {
    assert_eq!(
        ceiling_of_decimal("1355.211304"),
        Some(Whole { negative: false, magnitude: 1356 })
    );
    assert_eq!(ceiling_of_decimal("-2.5"), Some(Whole { negative: true, magnitude: 2 }));
    assert_eq!(ceiling_of_decimal("-0.1"), Some(Whole { negative: true, magnitude: 0 }));
    assert_eq!(ceiling_of_decimal("2.5e1"), Some(Whole { negative: false, magnitude: 25 }));
    assert_eq!(
        ceiling_of_decimal("340282366920938463463374607431768211455"),
        Some(Whole { negative: false, magnitude: u128::MAX })
    );
    assert_eq!(ceiling_of_decimal("34028236692093846346337460743176821145.5e1"), Some(Whole {
        negative: false,
        magnitude: u128::MAX
    }));
    assert_eq!(ceiling_of_decimal("x"), None);
    assert_eq!(ceiling_of_decimal("1e40"), None);
}

#[test]
fn cue_named_auto_grid_becomes_the_first_bar() {
    let mark = convert_cue(&cue("AutoGrid", "1355.211304", 0)).unwrap();
    assert_eq!(mark.name, "1.1Bars");
    assert_eq!(mark.kind, "0");
    assert_eq!(mark.start, "1.356");
    assert_eq!(mark.num, 0);
}

#[test]
fn cue_with_any_other_name_loses_it() {
    for name in ["n.n.", "", "autogrid", "AutoGrid ", " AutoGrid", "Drop", "1.1Bars", "AutoGri"] {
        let mark = convert_cue(&cue(name, "16270.488686", 1)).unwrap();
        assert_eq!(mark.name, "", "{:?}", name);
        assert_eq!(mark.kind, "0");
        assert_eq!(mark.start, "16.271");
        assert_eq!(mark.num, 1);
    }
}

#[test]
fn hotcue_number_is_carried_over() {
    for hotcue in [0, 1, 7, -1, i32::MAX, i32::MIN] {
        assert_eq!(convert_cue(&cue("n.n.", "0", hotcue)).unwrap().num, hotcue);
    }
}

#[test]
fn cue_with_a_bad_start_is_an_error() {
    assert_eq!(
        convert_cue(&cue("AutoGrid", "soon", 0)),
        Err(ConversionError::UnparsableCueStart)
    );
}

#[test]
fn no_cue_list_gives_no_mark_list() {
    assert_eq!(convert_cues(&None), Ok(None));
}

#[test]
fn empty_cue_list_gives_empty_mark_list() {
    assert_eq!(convert_cues(&Some(vec![])), Ok(Some(vec![])));
}

#[test]
fn marks_come_in_the_order_of_the_cues() {
    let cues = vec![cue("c", "3000", 2), cue("AutoGrid", "1000.5", 0), cue("b", "2000", 1)];
    let marks = convert_cues(&Some(cues)).unwrap().unwrap();
    assert_eq!(marks.len(), 3);
    assert_eq!(marks[0].start, "3.000");
    assert_eq!(marks[0].num, 2);
    assert_eq!(marks[0].name, "");
    assert_eq!(marks[1].start, "1.001");
    assert_eq!(marks[1].num, 0);
    assert_eq!(marks[1].name, "1.1Bars");
    assert_eq!(marks[2].start, "2.000");
    assert_eq!(marks[2].num, 1);
}

#[test]
fn one_bad_start_fails_the_whole_list() {
    let cues = vec![cue("a", "1000", 0), cue("b", "", 1), cue("c", "3000", 2)];
    assert_eq!(convert_cues(&Some(cues)), Err(ConversionError::UnparsableCueStart));
}

#[test]
fn error_in_words() {
    assert_eq!(
        ConversionError::UnparsableCueStart.message(),
        "the start of a cue point is not a number"
    );
}
