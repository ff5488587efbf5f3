use asciify::cli::{parse_args, parse_crop, ArgError, Command, CropError, Opts, OptionName};
use asciify::text::{FloatErrorKind, IntErrorKind};

fn args(list: &[&str]) -> Vec<String> {
    list.iter().map(|s| s.to_string()).collect()
}

fn convert_opts(list: &[&str]) -> Opts {
    match parse_args(&args(list)) {
        Ok(Command::Convert(o)) => o,
        Ok(Command::Help) => panic!("unexpected help"),
        Err(e) => panic!("unexpected error {:?}", e),
    }
}

fn error_of(list: &[&str]) -> ArgError {
    match parse_args(&args(list)) {
        Err(e) => e,
        Ok(_) => panic!("expected an error"),
    }
}

#[test]
fn defaults_apply_when_only_input_is_given() {
    let o = convert_opts(&["photo.png"]);
    assert_eq!(o.input, "photo.png");
    assert_eq!(o.output, "ascii.png");
    assert_eq!(o.crop, None);
    assert_eq!(o.cols, 100);
    assert_eq!(o.gamma, None);
    assert_eq!(o.font_px, None);
    assert!(!o.soft_bg);
    assert!(!o.light);
}

#[test]
fn default_options() {
    let o = Opts::default();
    assert_eq!(o.input, "");
    assert_eq!(o.output, "ascii.png");
    assert_eq!(o.cols, 100);
}

#[test]
fn every_option_is_read() {
    let o = convert_opts(&[
        "photo.png", "-o", "out.png", "--crop", "120,80,520,640", "--cols", "140", "--gamma",
        "1.6", "--size", "24", "--soft-bg", "--light",
    ]);
    assert_eq!(o.input, "photo.png");
    assert_eq!(o.output, "out.png");
    assert_eq!(o.crop, Some((120, 80, 520, 640)));
    assert_eq!(o.cols, 140);
    assert_eq!(o.gamma.as_deref(), Some("1.6"));
    assert_eq!(o.font_px.as_deref(), Some("24"));
    assert!(o.soft_bg);
    assert!(o.light);
}

#[test]
fn long_and_short_names() {
    let o = convert_opts(&["--output", "a.png", "--width", "20", "in.jpg"]);
    assert_eq!(o.output, "a.png");
    assert_eq!(o.cols, 20);
    assert_eq!(o.input, "in.jpg");
}

#[test]
fn last_input_wins() {
    let o = convert_opts(&["first.png", "second.png"]);
    assert_eq!(o.input, "second.png");
}

#[test]
fn help_is_recognised_even_with_bad_options_after_it() {
    assert!(matches!(parse_args(&args(&["-h", "--nonsense"])), Ok(Command::Help)));
    assert!(matches!(parse_args(&args(&["photo.png", "--help"])), Ok(Command::Help)));
    // help comes before the column check that only runs at the end
    assert!(matches!(parse_args(&args(&["--cols", "5", "-h"])), Ok(Command::Help)));
}

#[test]
fn errors_before_help_win() {
    assert_eq!(error_of(&["--cols", "x", "-h"]), ArgError::Cols(IntErrorKind::InvalidDigit));
}

#[test]
fn missing_input() {
    assert_eq!(error_of(&[]), ArgError::NoInput);
    assert_eq!(error_of(&["--light"]), ArgError::NoInput);
}

#[test]
fn unknown_option_reports_its_position() {
    assert_eq!(error_of(&["photo.png", "--bogus"]), ArgError::UnknownOption(1));
    assert_eq!(error_of(&["-"]), ArgError::UnknownOption(0));
}

#[test]
fn missing_values() {
    assert_eq!(error_of(&["photo.png", "-o"]), ArgError::MissingValue(OptionName::Output));
    assert_eq!(error_of(&["photo.png", "--crop"]), ArgError::MissingValue(OptionName::Crop));
    assert_eq!(error_of(&["photo.png", "--width"]), ArgError::MissingValue(OptionName::Cols));
    assert_eq!(error_of(&["photo.png", "--gamma"]), ArgError::MissingValue(OptionName::Gamma));
    assert_eq!(error_of(&["photo.png", "--size"]), ArgError::MissingValue(OptionName::Size));
}

#[test]
fn a_value_may_start_with_a_dash() {
    let o = convert_opts(&["-o", "-weird.png", "in.png"]);
    assert_eq!(o.output, "-weird.png");
}

#[test]
fn too_few_columns() {
    assert_eq!(error_of(&["photo.png", "--cols", "9"]), ArgError::TooFewCols);
    assert_eq!(convert_opts(&["photo.png", "--cols", "10"]).cols, 10);
}

#[test]
fn column_parse_errors() {
    assert_eq!(error_of(&["p", "--cols", ""]), ArgError::Cols(IntErrorKind::Empty));
    assert_eq!(error_of(&["p", "--cols", "-5"]), ArgError::Cols(IntErrorKind::InvalidDigit));
    assert_eq!(error_of(&["p", "--cols", " 50"]), ArgError::Cols(IntErrorKind::InvalidDigit));
    assert_eq!(
        error_of(&["p", "--cols", "4294967296"]),
        ArgError::Cols(IntErrorKind::PosOverflow)
    );
    assert_eq!(convert_opts(&["p", "--cols", "+50"]).cols, 50);
}

#[test]
fn gamma_checks() {
    assert_eq!(error_of(&["p", "--gamma", "abc"]), ArgError::Gamma(FloatErrorKind::Invalid));
    assert_eq!(error_of(&["p", "--gamma", ""]), ArgError::Gamma(FloatErrorKind::Empty));
    assert_eq!(error_of(&["p", "--gamma", "NaN"]), ArgError::GammaNotANumber);
    assert_eq!(error_of(&["p", "--gamma", "-nan"]), ArgError::GammaNotANumber);
    assert_eq!(convert_opts(&["p", "--gamma", "inf"]).gamma.as_deref(), Some("inf"));
    assert_eq!(convert_opts(&["p", "--gamma", ".8"]).gamma.as_deref(), Some(".8"));
    assert_eq!(error_of(&["p", "--size", "1.2.3"]), ArgError::Size(FloatErrorKind::Invalid));
    // a NaN size is accepted: only gamma is checked for NaN
    assert_eq!(convert_opts(&["p", "--size", "nan"]).font_px.as_deref(), Some("nan"));
}

#[test]
fn crop_parsing() {
    assert_eq!(parse_crop("1,2,3,4"), Ok((1, 2, 3, 4)));
    assert_eq!(parse_crop(" 1 , 2,\t3 ,4\n"), Ok((1, 2, 3, 4)));
    assert_eq!(parse_crop("1,2,3"), Err(CropError::Format));
    assert_eq!(parse_crop("1,2,3,4,5"), Err(CropError::Format));
    assert_eq!(parse_crop("3,2,3,4"), Err(CropError::Format));
    assert_eq!(parse_crop("1,4,3,4"), Err(CropError::Format));
    assert_eq!(parse_crop("1,,3,4"), Err(CropError::Number(IntErrorKind::Empty)));
    assert_eq!(parse_crop(""), Err(CropError::Number(IntErrorKind::Empty)));
    assert_eq!(parse_crop("1,x,3,4,5"), Err(CropError::Number(IntErrorKind::InvalidDigit)));
    assert_eq!(
        parse_crop("1,99999999999,x,4"),
        Err(CropError::Number(IntErrorKind::PosOverflow))
    );
    assert_eq!(parse_crop("+1,2,3,4"), Ok((1, 2, 3, 4)));
    assert_eq!(parse_crop("1,2,3,4\u{3000}"), Ok((1, 2, 3, 4)));
}

#[test]
fn crop_errors_through_the_command_line() {
    assert_eq!(error_of(&["p", "--crop", "5,5,1,1"]), ArgError::Crop(CropError::Format));
}

#[test]
fn last_values_decide_acceptance() {
    // the last input, the last --cols and the last --gamma are the ones that count
    assert_eq!(convert_opts(&["a.png", "--cols", "5", "--cols", "12"]).cols, 12);
    assert_eq!(error_of(&["a.png", "--cols", "12", "--cols", "5"]), ArgError::TooFewCols);
    assert_eq!(error_of(&["a.png", "--gamma", "2", "--gamma", "nan"]), ArgError::GammaNotANumber);
    assert_eq!(convert_opts(&["a.png", "--gamma", "nan", "--gamma", "2"]).gamma.as_deref(), Some("2"));
    assert_eq!(error_of(&["a.png", ""]), ArgError::NoInput);
    assert_eq!(convert_opts(&["", "a.png"]).input, "a.png");
}
