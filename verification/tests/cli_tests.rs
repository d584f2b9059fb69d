use fabbula::artwork::ThresholdMode;
use fabbula::cli::{parse_ec_level, parse_layer_spec, parse_threshold, ParseError};
use fabbula::qr::EcLevel;

#[test]
fn threshold_words_and_numbers() {
    assert_eq!(parse_threshold("otsu"), Ok(ThresholdMode::Otsu));
    assert_eq!(parse_threshold("OTSU"), Ok(ThresholdMode::Otsu));
    assert_eq!(parse_threshold("Alpha"), Ok(ThresholdMode::Alpha(128)));
    assert_eq!(parse_threshold("128"), Ok(ThresholdMode::Luminance(128)));
    assert_eq!(parse_threshold("+7"), Ok(ThresholdMode::Luminance(7)));
    assert_eq!(parse_threshold("0255"), Ok(ThresholdMode::Luminance(255)));
    assert_eq!(parse_threshold("256"), Err(ParseError::InvalidThreshold));
    assert_eq!(parse_threshold("-1"), Err(ParseError::InvalidThreshold));
    assert_eq!(parse_threshold(""), Err(ParseError::InvalidThreshold));
    assert_eq!(parse_threshold("+"), Err(ParseError::InvalidThreshold));
    assert_eq!(parse_threshold(" 12"), Err(ParseError::InvalidThreshold));
    assert_eq!(parse_threshold("otsus"), Err(ParseError::InvalidThreshold));
}

#[test]
fn layer_specs() {
    assert_eq!(parse_layer_spec("81/0"), Ok((81, 0)));
    assert_eq!(parse_layer_spec("-3/+4"), Ok((-3, 4)));
    assert_eq!(parse_layer_spec("32767/-32768"), Ok((32767, -32768)));
    assert_eq!(parse_layer_spec("81"), Err(ParseError::MissingSlash));
    assert_eq!(parse_layer_spec("32768/0"), Err(ParseError::InvalidLayer));
    assert_eq!(parse_layer_spec("/0"), Err(ParseError::InvalidLayer));
    assert_eq!(parse_layer_spec("1/2/3"), Err(ParseError::InvalidDatatype));
    assert_eq!(parse_layer_spec("1/"), Err(ParseError::InvalidDatatype));
}

#[test]
fn ec_levels() {
    assert_eq!(parse_ec_level("l"), Some(EcLevel::L));
    assert_eq!(parse_ec_level("M"), Some(EcLevel::M));
    assert_eq!(parse_ec_level("q"), Some(EcLevel::Q));
    assert_eq!(parse_ec_level("H"), Some(EcLevel::H));
    assert_eq!(parse_ec_level("x"), None);
    assert_eq!(parse_ec_level("mm"), None);
    assert_eq!(parse_ec_level(""), None);
}
