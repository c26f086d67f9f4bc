use preflop::tax_mode::{FloatTextError, IntTextError, TaxMode, TaxModeError};

fn texts(v: &[&str]) -> Vec<String> {
    v.iter().map(|s| s.to_string()).collect()
}

#[test]
fn plain_rule_names() {
    assert_eq!(TaxMode::from_name("none"), Ok(TaxMode::Off));
    assert_eq!(TaxMode::from_name("OFF"), Ok(TaxMode::Off));
    assert_eq!(TaxMode::from_name("0"), Ok(TaxMode::Off));
    assert_eq!(TaxMode::from_name("Flat"), Ok(TaxMode::Flat));
    assert_eq!(TaxMode::from_name("ORIGINAL"), Ok(TaxMode::Original));
    assert_eq!(TaxMode::from_name("orig"), Ok(TaxMode::Original));
    assert_eq!(TaxMode::from_name("gap5"), Ok(TaxMode::Original));
    assert_eq!(TaxMode::from_name("Quadratic"), Ok(TaxMode::Quadratic));
    assert_eq!(TaxMode::from_name("quad"), Ok(TaxMode::Quadratic));
    assert_eq!(TaxMode::from_name("SQRT"), Ok(TaxMode::Quadratic));
}

#[test]
fn capped_rules() {
    assert_eq!(TaxMode::from_name("capped"), Ok(TaxMode::Capped { cap: 2 }));
    assert_eq!(TaxMode::from_name("capped:3"), Ok(TaxMode::Capped { cap: 3 }));
    assert_eq!(TaxMode::from_name("CAPPED=4"), Ok(TaxMode::Capped { cap: 4 }));
    assert_eq!(TaxMode::from_name("capped3"), Ok(TaxMode::Capped { cap: 3 }));
    assert_eq!(TaxMode::from_name("capped0"), Ok(TaxMode::Capped { cap: 1 }));
    assert_eq!(TaxMode::from_name("capped::=5"), Ok(TaxMode::Capped { cap: 5 }));
    assert_eq!(TaxMode::from_name("capped:+7"), Ok(TaxMode::Capped { cap: 7 }));
    assert_eq!(TaxMode::from_name("capped:"), Ok(TaxMode::Capped { cap: 2 }));
    assert_eq!(TaxMode::from_name("capped=:5"), Err(TaxModeError::Cap(IntTextError::InvalidDigit)));
    assert_eq!(TaxMode::from_name("capped:x"), Err(TaxModeError::Cap(IntTextError::InvalidDigit)));
    assert_eq!(TaxMode::from_name("capped: 3"), Err(TaxModeError::Cap(IntTextError::InvalidDigit)));
    assert_eq!(TaxMode::from_name("capped:+"), Err(TaxModeError::Cap(IntTextError::InvalidDigit)));
    assert_eq!(TaxMode::from_name("capped:4294967295"), Ok(TaxMode::Capped { cap: 4294967295 }));
    assert_eq!(TaxMode::from_name("capped:4294967296"), Err(TaxModeError::Cap(IntTextError::TooLarge)));
    assert_eq!(TaxMode::from_name("capped:99999999999x"), Err(TaxModeError::Cap(IntTextError::TooLarge)));
    assert_eq!(TaxMode::from_name("cappedflat"), Err(TaxModeError::Cap(IntTextError::InvalidDigit)));
}

#[test]
fn shift_rules() {
    assert_eq!(TaxMode::from_name("shift"), Ok(TaxMode::Shift { shift: 1 }));
    assert_eq!(TaxMode::from_name("shift:4"), Ok(TaxMode::Shift { shift: 4 }));
    assert_eq!(TaxMode::from_name("Shift=0"), Ok(TaxMode::Shift { shift: 0 }));
    assert_eq!(TaxMode::from_name("shift:5"), Err(TaxModeError::ShiftTooLarge));
    assert_eq!(TaxMode::from_name("shift:40"), Err(TaxModeError::ShiftTooLarge));
    assert_eq!(TaxMode::from_name("shift:-1"), Err(TaxModeError::Shift(IntTextError::InvalidDigit)));
    assert_eq!(TaxMode::from_name("shifty"), Err(TaxModeError::Shift(IntTextError::InvalidDigit)));
}

#[test]
fn per_gap_rules() {
    assert_eq!(
        TaxMode::from_name("pergap:0,0.05,0.10,0.15,0.20,0.25"),
        Ok(TaxMode::PerGap { coeffs: texts(&["0", "0.05", "0.10", "0.15", "0.20", "0.25"]) })
    );
    assert_eq!(
        TaxMode::from_name("PerGap=1,-2.,+.3,4E-2,INF,nan"),
        Ok(TaxMode::PerGap { coeffs: texts(&["1", "-2.", "+.3", "4e-2", "inf", "nan"]) })
    );
    assert_eq!(
        TaxMode::from_name("pergap:1,2,3,4,infinity,1e+7"),
        Ok(TaxMode::PerGap { coeffs: texts(&["1", "2", "3", "4", "infinity", "1e+7"]) })
    );
    assert_eq!(TaxMode::from_name("PerGap=1,2,3,4,5,x"), Err(TaxModeError::PerGapCoeff(5, FloatTextError::Invalid)));
    assert_eq!(TaxMode::from_name("pergap:1,,3,4,5,6"), Err(TaxModeError::PerGapCoeff(1, FloatTextError::Empty)));
    assert_eq!(TaxMode::from_name("pergap:1,2, 3,x,5,6"), Err(TaxModeError::PerGapCoeff(2, FloatTextError::Invalid)));
    assert_eq!(TaxMode::from_name("pergap:.,2,3,4,5,6"), Err(TaxModeError::PerGapCoeff(0, FloatTextError::Invalid)));
    assert_eq!(TaxMode::from_name("pergap:1e,2,3,4,5,6"), Err(TaxModeError::PerGapCoeff(0, FloatTextError::Invalid)));
    assert_eq!(TaxMode::from_name("pergap:1,2e+,3,4,5,6"), Err(TaxModeError::PerGapCoeff(1, FloatTextError::Invalid)));
    assert_eq!(TaxMode::from_name("pergap:1,2,1.2.3,4,5,6"), Err(TaxModeError::PerGapCoeff(2, FloatTextError::Invalid)));
    assert_eq!(TaxMode::from_name("pergap:1,2,3,-,5,6"), Err(TaxModeError::PerGapCoeff(3, FloatTextError::Invalid)));
    assert_eq!(TaxMode::from_name("pergap:1,2"), Err(TaxModeError::PerGapCount(2)));
    assert_eq!(TaxMode::from_name("pergap"), Err(TaxModeError::PerGapCount(1)));
    assert_eq!(TaxMode::from_name("pergap:1,2,3,4,5,6,7"), Err(TaxModeError::PerGapCount(7)));
}

#[test]
fn unknown_rule_names() {
    assert_eq!(TaxMode::from_name("bogus"), Err(TaxModeError::Unknown("bogus".to_string())));
    assert_eq!(TaxMode::from_name("BoGus"), Err(TaxModeError::Unknown("bogus".to_string())));
    assert_eq!(TaxMode::from_name(""), Err(TaxModeError::Unknown(String::new())));
    assert_eq!(TaxMode::from_name("nonE "), Err(TaxModeError::Unknown("none ".to_string())));
}

#[test]
fn accepted_coefficients_read_as_f32() {
    let coeffs = ["0", "0.05", "-2.", "+.3", "4e-2", "inf", "-infinity", "nan", "1e+7", "007", "5.e3"];
    for c in coeffs.iter() {
        let name = format!("pergap:{},1,1,1,1,1", c);
        assert!(TaxMode::from_name(&name).is_ok(), "{}", name);
        assert!(c.parse::<f32>().is_ok(), "{}", c);
    }
    let refused = [".", "e5", "1e", "1.2.3", "-", "+", "1 ", "0x10", "1_0", "in", "nanx", "--1"];
    for c in refused.iter() {
        let name = format!("pergap:{},1,1,1,1,1", c);
        assert!(TaxMode::from_name(&name).is_err(), "{}", name);
        assert!(c.parse::<f32>().is_err(), "{}", c);
    }
}

#[test]
fn error_messages() {
    assert_eq!(TaxModeError::ShiftTooLarge.message(), "shift must be < 5");
    assert_eq!(TaxModeError::PerGapCount(2).message(), "pergap needs 6 comma-separated coefficients, got 2");
    assert_eq!(TaxModeError::Cap(IntTextError::InvalidDigit).message(), "capped cap: invalid digit found in string");
    assert_eq!(TaxModeError::Shift(IntTextError::TooLarge).message(), "shift amount: number too large to fit in target type");
    assert_eq!(TaxModeError::PerGapCoeff(3, FloatTextError::Invalid).message(), "pergap[3]: invalid float literal");
    assert_eq!(TaxModeError::PerGapCoeff(0, FloatTextError::Empty).message(), "pergap[0]: cannot parse float from empty string");
    assert_eq!(
        TaxModeError::Unknown("bogus".to_string()).message(),
        "unknown tax mode 'bogus' (expected: none | flat | original | capped:N | shift:N | quadratic | pergap:c0,c1,..,c5)"
    );
}

#[test]
fn parsed_as_from_str() {
    assert_eq!("capped:3".parse::<TaxMode>(), Ok(TaxMode::Capped { cap: 3 }));
    assert_eq!("Capped".parse::<TaxMode>(), Ok(TaxMode::Capped { cap: 2 }));
    assert_eq!("capped=0".parse::<TaxMode>(), Ok(TaxMode::Capped { cap: 1 }));
    assert_eq!("shift".parse::<TaxMode>(), Ok(TaxMode::Shift { shift: 1 }));
    assert_eq!("shift:5".parse::<TaxMode>(), Err("shift must be < 5".to_string()));
    assert_eq!(
        "pergap:1,2".parse::<TaxMode>(),
        Err("pergap needs 6 comma-separated coefficients, got 2".to_string())
    );
    assert_eq!("OFF".parse::<TaxMode>(), Ok(TaxMode::Off));
    assert!("bogus".parse::<TaxMode>().is_err());
    assert_eq!(
        TaxMode::from_text("capped:x"),
        Err("capped cap: invalid digit found in string".to_string())
    );
    assert_eq!(
        TaxMode::from_text("pergap:1,2,3,4,5,x"),
        Err("pergap[5]: invalid float literal".to_string())
    );
}
