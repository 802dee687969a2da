//! Tests of the cell value inference engine.

use str2table::tablecellcore::{Tablecellcore, FloatProbe, FloatWidth, CellError};

/// Gathers the float observations about a fragment with real float
/// arithmetic, as library callers do.
fn probe_of(s: &str) -> FloatProbe {
    match s.parse::<f64>() {
        Err(_) => FloatProbe {
            accepted: false,
            wide_text: String::new(),
            narrow_text: String::new(),
            narrow_infinite: false,
            narrow_nan: false,
            narrow_zero: false,
        },
        Ok(wide) => {
            let narrow = s.parse::<f32>().unwrap();
            FloatProbe {
                accepted: true,
                wide_text: wide.to_string(),
                narrow_text: narrow.to_string(),
                narrow_infinite: narrow.is_infinite(),
                narrow_nan: narrow.is_nan(),
                narrow_zero: narrow == 0.0,
            }
        },
    }
}

fn auto(s: &str) -> Tablecellcore {
    Tablecellcore::auto_from(&s.to_string(), &probe_of(s))
}

#[test]
fn test_auto_from() {
    let v = auto("123");
    assert_eq!(v.debug_string(), "123<int>");
    let v = auto("123456");
    assert_eq!(v.debug_string(), "123456<int>");
    let v = auto("123456789");
    assert_eq!(v.debug_string(), "123456789<int>");
    let v = auto("12345678901");
    assert_eq!(v.debug_string(), "12345678901<int>");
    let v = auto("123456789012345678901");
    assert_eq!(v.debug_string(), "123456789012345678901<int>");
    let v = auto("-123");
    assert_eq!(v.debug_string(), "-123<int>");
    let v = auto("-12345");
    assert_eq!(v.debug_string(), "-12345<int>");
    let v = auto("-123456789");
    assert_eq!(v.debug_string(), "-123456789<int>");
    let v = auto("-12345678901");
    assert_eq!(v.debug_string(), "-12345678901<int>");
    let v = auto("-123456789012345678901");
    assert_eq!(v.debug_string(), "-123456789012345678901<int>");
    let v = auto("123.456");
    assert_eq!(v.debug_string(), "123.456<float>");
    let v = auto("123.45678901234567890123456789");
    assert_eq!(v.debug_string(), "123.45678901234568<float>");
    let v = auto("Hello, world!");
    assert_eq!(v.debug_string(), "Hello, world!<str>");
}

#[test]
fn test_auto_from_special() {
    let v = auto("inf");
    assert_eq!(v.debug_string(), "inf<float>");
    let v = auto("-inf");
    assert_eq!(v.debug_string(), "-inf<float>");
    let v = auto("NAN");
    assert_eq!(v.debug_string(), "NaN<float>");
    let v = auto("-NaN");
    assert_eq!(v.debug_string(), "NaN<float>");
    let v = auto("1e400");
    assert_eq!(v.debug_string(), "inf<float>");
    let v = auto("-1e400");
    assert_eq!(v.debug_string(), "-inf<float>");
    let v = auto("0.00");
    assert_eq!(v.debug_string(), "0<float>");
    let v = auto("1e-400");
    assert_eq!(v.debug_string(), "0<float>");
    let v = auto("-1e-400");
    assert_eq!(v.debug_string(), "-0<float>");
    let v = auto("0.2e-400");
    assert_eq!(v.debug_string(), "0<float>");
    let v = auto("1.00");
    assert_eq!(v.debug_string(), "1<float>");
    let v = auto("0.2e-10");
    assert_eq!(v.debug_string(), "0.00000000002<float>");
    let v = auto("1.00");
    assert_eq!(v.debug_string(), "1<float>");
    let v = auto("10_0");
    assert_eq!(v.debug_string(), "10_0<str>");
}

#[test]
fn test_auto_from_narrow_and_wide() {
    // a short fraction keeps the narrow representation
    let v = auto("123.456");
    assert!(matches!(v, Tablecellcore::Float(_, FloatWidth::Narrow)));
    // a long fraction needs the wide representation
    let v = auto("123.45678901234567890123456789");
    assert!(matches!(v, Tablecellcore::Float(_, FloatWidth::Wide)));
    // an infinity from a huge literal stays wide
    let v = auto("1e400");
    assert!(matches!(v, Tablecellcore::Float(_, FloatWidth::Wide)));
    // NaN stays narrow
    let v = auto("NAN");
    assert!(matches!(v, Tablecellcore::Float(_, FloatWidth::Narrow)));
    // a zero with spurious precision is widened
    let v = auto("1e-400");
    assert!(matches!(v, Tablecellcore::Float(_, FloatWidth::Wide)));
    // a plain zero stays narrow
    let v = auto("0.00");
    assert!(matches!(v, Tablecellcore::Float(_, FloatWidth::Narrow)));
}

#[test]
fn test_to_string() {
    let v = Tablecellcore::Int("123".to_string());
    assert_eq!(v.to_string(), "123");
    let v = auto("123.456");
    assert_eq!(v.to_string(), "123.456");
    let v = Tablecellcore::Str("Hello, world!".to_string());
    assert_eq!(v.to_string(), "Hello, world!");
}

#[test]
fn test_force_as_int() {
    let v = Tablecellcore::force_as_int(&"123".to_string()).unwrap();
    assert_eq!(v.debug_string(), "123<int>");
    let v = Tablecellcore::force_as_int(&"123456".to_string()).unwrap();
    assert_eq!(v.debug_string(), "123456<int>");
    let v = Tablecellcore::force_as_int(&"123456789".to_string()).unwrap();
    assert_eq!(v.debug_string(), "123456789<int>");
    let v = Tablecellcore::force_as_int(&"12345678901".to_string()).unwrap();
    assert_eq!(v.debug_string(), "12345678901<int>");
    let v = Tablecellcore::force_as_int(&"123456789012345678901".to_string()).unwrap();
    assert_eq!(v.debug_string(), "123456789012345678901<int>");
    let v = Tablecellcore::force_as_int(&"-123".to_string()).unwrap();
    assert_eq!(v.debug_string(), "-123<int>");
    let v = Tablecellcore::force_as_int(&"-12345".to_string()).unwrap();
    assert_eq!(v.debug_string(), "-12345<int>");
    let v = Tablecellcore::force_as_int(&"-123456789".to_string()).unwrap();
    assert_eq!(v.debug_string(), "-123456789<int>");
    let v = Tablecellcore::force_as_int(&"-12345678901".to_string()).unwrap();
    assert_eq!(v.debug_string(), "-12345678901<int>");
    let v = Tablecellcore::force_as_int(&"-123456789012345678901".to_string()).unwrap();
    assert_eq!(v.debug_string(), "-123456789012345678901<int>");
    let v = Tablecellcore::force_as_int(&"123.456".to_string());
    assert!(v.is_err());
    let v = Tablecellcore::force_as_int(&"Hello".to_string());
    assert!(v.is_err());
}

#[test]
fn test_force_as_float() {
    let value = "123.456".to_string();
    let v = Tablecellcore::force_as_float(&value, &probe_of(&value)).unwrap();
    assert_eq!(v.debug_string(), "123.456<float>");
    let value = "123.45678901234567890123456789".to_string();
    let v = Tablecellcore::force_as_float(&value, &probe_of(&value)).unwrap();
    assert_eq!(v.debug_string(), "123.45678901234568<float>");
    let value = "Hello".to_string();
    let v = Tablecellcore::force_as_float(&value, &probe_of(&value));
    assert!(v.is_err());
}

#[test]
fn test_strict_force_fails_and_advisory_degrades() {
    // the strict conversion reports a descriptive failure
    let strict = Tablecellcore::force_as_int(&"abc".to_string());
    assert!(strict.is_err());
    let error = strict.unwrap_err();
    assert_eq!(error, CellError::NotAnInteger);
    assert!(!error.describe().is_empty());
    // the advisory conversion silently falls back to inference
    let probe = probe_of("abc");
    let advisory = str2table::tablecell::Tablecell::force_as_int("abc".to_string(), &probe);
    assert_eq!(advisory.core.debug_string(), "abc<str>");
}

#[test]
fn test_radix_prefixes() {
    // relies on the arbitrary-precision parser: the result is the
    // canonical decimal form, not the input text
    let v = Tablecellcore::force_as_int(&"0x1f".to_string()).unwrap();
    assert_eq!(v.to_string(), "31");
    let v = Tablecellcore::force_as_int(&"-0o17".to_string()).unwrap();
    assert_eq!(v.to_string(), "-15");
    let v = Tablecellcore::force_as_int(&"0b101".to_string()).unwrap();
    assert_eq!(v.to_string(), "5");
    let v = Tablecellcore::force_as_int(&"+007".to_string()).unwrap();
    assert_eq!(v.to_string(), "7");
    let v = Tablecellcore::force_as_int(&"0x".to_string());
    assert!(v.is_err());
}
