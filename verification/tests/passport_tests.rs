use passport_processing::read_from_file;
use passport_processing::Passport;
use passport_processing::PassportField;
use passport_processing::PassportInvalid;
use passport_processing::PassportProcessError;
use passport_processing::ReadState;

fn lines_of(text: &[&str]) -> Vec<String> {
    text.iter().map(|s| s.to_string()).collect()
}

fn valid_passport() -> Passport {
    Passport::new()
        .process("ecl:gry pid:860033327 eyr:2020 hcl:#fffffd")
        .unwrap()
        .process("byr:1937 iyr:2017 cid:147 hgt:183cm")
        .unwrap()
}

#[test]
fn single_record_with_all_fields() {
    let lines = lines_of(&[
        "ecl:gry pid:860033327 eyr:2020 hcl:#fffffd",
        "byr:1937 iyr:2017 cid:147 hgt:183cm",
        "",
    ]);
    let passports = read_from_file(&lines).unwrap();
    assert_eq!(passports.len(), 1);
    let p = &passports[0];
    for key in ["byr", "eyr", "iyr", "ecl", "hcl", "hgt", "pid", "cid"] {
        assert!(p.get(key).is_some());
    }
    assert_eq!(p.get("byr"), Some(PassportField::Num(1937)));
    assert_eq!(p.get("hgt"), Some(PassportField::Str("183cm".to_string())));
    assert!(p.validate_simplified().is_ok());
    assert!(p.validate().is_ok());
}

#[test]
fn grouping_counts_maximal_runs() {
    let lines = lines_of(&[
        "",
        "byr:1937",
        "iyr:2017",
        "",
        "",
        "byr:1990",
        "",
        "byr:2000",
        "",
        "",
    ]);
    let passports = read_from_file(&lines).unwrap();
    assert_eq!(passports.len(), 3);
}

#[test]
fn no_trailing_blank_line_still_emits() {
    let lines = lines_of(&["byr:1937", "", "byr:1990"]);
    let passports = read_from_file(&lines).unwrap();
    assert_eq!(passports.len(), 2);
    assert_eq!(passports[1].get("byr"), Some(PassportField::Num(1990)));
}

#[test]
fn later_line_overwrites_earlier_value() {
    let p = Passport::new()
        .process("byr:1937 ecl:gry")
        .unwrap()
        .process("byr:2000")
        .unwrap();
    assert_eq!(p.get("byr"), Some(PassportField::Num(2000)));
    assert_eq!(p.get("ecl"), Some(PassportField::Str("gry".to_string())));
}

#[test]
fn later_token_overwrites_earlier_on_one_line() {
    let p = Passport::new().process("pid:111111111 pid:222222222").unwrap();
    assert_eq!(p.get("pid"), Some(PassportField::Str("222222222".to_string())));
}

#[test]
fn unknown_key_fails_processing() {
    let r = Passport::new().process("foo:bar");
    assert_eq!(r, Err(PassportProcessError::UnknownKey("foo".to_string())));
}

#[test]
fn unknown_key_fails_whole_read() {
    let lines = lines_of(&["byr:1937", "", "ecl:gry foo:bar byr:1990"]);
    let r = read_from_file(&lines);
    assert_eq!(r, Err(PassportProcessError::UnknownKey("foo".to_string())));
}

#[test]
fn unparsable_integer_fails_processing() {
    let r = Passport::new().process("byr:abc");
    assert_eq!(r, Err(PassportProcessError::UnparsableU32("abc".to_string())));
}

#[test]
fn integer_too_large_fails_processing() {
    let r = Passport::new().process("eyr:99999999999");
    assert_eq!(
        r,
        Err(PassportProcessError::UnparsableU32("99999999999".to_string()))
    );
}

#[test]
fn empty_input_gives_no_records() {
    let lines: Vec<String> = Vec::new();
    assert_eq!(read_from_file(&lines).unwrap().len(), 0);
}

#[test]
fn all_blank_input_gives_no_records() {
    let lines = lines_of(&["", "   ", "\t", ""]);
    assert_eq!(read_from_file(&lines).unwrap().len(), 0);
}

#[test]
fn full_ok_implies_simplified_ok() {
    let p = valid_passport();
    assert!(p.validate().is_ok());
    assert!(p.validate_simplified().is_ok());
}

#[test]
fn simplified_reports_every_missing_key() {
    let p = Passport::new();
    let v = p.validate_simplified().unwrap_err();
    let expected: Vec<PassportInvalid> = ["byr", "eyr", "iyr", "ecl", "hcl", "hgt", "pid"]
        .iter()
        .map(|k| PassportInvalid::MissingField(k.to_string()))
        .collect();
    assert_eq!(v, expected);
}

#[test]
fn simplified_ignores_cid_and_field_contents() {
    let p = Passport::new()
        .process("byr:9999 eyr:1 iyr:1 ecl:zzz hcl:zzz hgt:zzz pid:zzz")
        .unwrap();
    assert!(p.validate_simplified().is_ok());
    assert!(p.get("cid").is_none());
}

#[test]
fn collects_missing_and_out_of_range_together() {
    let p = Passport::new()
        .process("byr:1900 iyr:2017 ecl:gry hgt:183cm")
        .unwrap();
    let v = p.validate().unwrap_err();
    assert_eq!(
        v,
        vec![
            PassportInvalid::OutOfRange("byr".to_string(), "1900".to_string()),
            PassportInvalid::MissingField("eyr".to_string()),
            PassportInvalid::MissingField("hcl".to_string()),
            PassportInvalid::MissingField("pid".to_string()),
        ]
    );
}

#[test]
fn year_bounds_are_inclusive() {
    let low = valid_passport().process("byr:1920 iyr:2010 eyr:2020").unwrap();
    assert!(low.validate().is_ok());
    let high = valid_passport().process("byr:2002 iyr:2020 eyr:2030").unwrap();
    assert!(high.validate().is_ok());
    let off = valid_passport().process("byr:1919 iyr:2021 eyr:2031").unwrap();
    let v = off.validate().unwrap_err();
    assert_eq!(
        v,
        vec![
            PassportInvalid::OutOfRange("byr".to_string(), "1919".to_string()),
            PassportInvalid::OutOfRange("eyr".to_string(), "2031".to_string()),
            PassportInvalid::OutOfRange("iyr".to_string(), "2021".to_string()),
        ]
    );
}

#[test]
fn height_out_of_range_in_inches() {
    let p = valid_passport().process("hgt:190in").unwrap();
    let v = p.validate().unwrap_err();
    assert_eq!(
        v,
        vec![PassportInvalid::OutOfRange(
            "hgt".to_string(),
            "190in".to_string()
        )]
    );
}

#[test]
fn height_without_unit_is_invalid_format() {
    let p = valid_passport().process("hgt:190").unwrap();
    let v = p.validate().unwrap_err();
    assert_eq!(
        v,
        vec![PassportInvalid::InvalidFormat(
            "hgt".to_string(),
            "190".to_string()
        )]
    );
}

#[test]
fn height_unknown_unit_gives_single_violation() {
    let p = valid_passport().process("hgt:190xy").unwrap();
    let v = p.validate().unwrap_err();
    assert_eq!(
        v,
        vec![PassportInvalid::InvalidFormat(
            "hgt".to_string(),
            "190xy".to_string()
        )]
    );
}

#[test]
fn height_bounds_are_inclusive() {
    for ok in ["150cm", "193cm", "59in", "76in"] {
        let p = valid_passport().process(&format!("hgt:{}", ok)).unwrap();
        assert!(p.validate().is_ok());
    }
    for bad in ["149cm", "194cm", "58in", "77in"] {
        let p = valid_passport().process(&format!("hgt:{}", bad)).unwrap();
        let v = p.validate().unwrap_err();
        assert_eq!(
            v,
            vec![PassportInvalid::OutOfRange("hgt".to_string(), bad.to_string())]
        );
    }
}

#[test]
fn height_huge_number_with_bad_unit_fires_both_format_checks() {
    let p = valid_passport().process("hgt:99999999999xy").unwrap();
    let v = p.validate().unwrap_err();
    assert_eq!(
        v,
        vec![
            PassportInvalid::InvalidFormat("hgt".to_string(), "99999999999xy".to_string()),
            PassportInvalid::InvalidFormat("hgt".to_string(), "99999999999xy".to_string()),
        ]
    );
}

#[test]
fn hair_colour_shapes() {
    for ok in ["#123abc", "#000000", "#ffffff"] {
        let p = valid_passport().process(&format!("hcl:{}", ok)).unwrap();
        assert!(p.validate().is_ok());
    }
    for bad in ["#123abz", "123abc", "#123ab", "#123abcd", "#123ABC", ""] {
        let p = valid_passport().process(&format!("hcl:{}", bad)).unwrap();
        let v = p.validate().unwrap_err();
        assert_eq!(
            v,
            vec![PassportInvalid::InvalidFormat(
                "hcl".to_string(),
                bad.to_string()
            )]
        );
    }
}

#[test]
fn eye_colour_catalog() {
    for ok in ["amb", "blu", "brn", "gry", "grn", "hzl", "oth"] {
        let p = valid_passport().process(&format!("ecl:{}", ok)).unwrap();
        assert!(p.validate().is_ok());
    }
    for bad in ["wat", "grys", "am", ""] {
        let p = valid_passport().process(&format!("ecl:{}", bad)).unwrap();
        let v = p.validate().unwrap_err();
        assert_eq!(
            v,
            vec![PassportInvalid::InvalidFormat(
                "ecl".to_string(),
                bad.to_string()
            )]
        );
    }
}

#[test]
fn passport_id_must_be_nine_digits() {
    let ok = valid_passport().process("pid:012345678").unwrap();
    assert!(ok.validate().is_ok());
    for bad in ["12345678", "0123456789", "01234567a", ""] {
        let p = valid_passport().process(&format!("pid:{}", bad)).unwrap();
        let v = p.validate().unwrap_err();
        assert_eq!(
            v,
            vec![PassportInvalid::InvalidFormat(
                "pid".to_string(),
                bad.to_string()
            )]
        );
    }
}

#[test]
fn value_keeps_text_after_first_colon() {
    let p = Passport::new().process("cid:12:34").unwrap();
    assert_eq!(p.get("cid"), Some(PassportField::Str("12:34".to_string())));
}

#[test]
fn numeric_key_with_empty_value_is_unparsable() {
    let r = Passport::new().process("byr");
    assert_eq!(r, Err(PassportProcessError::UnparsableU32("".to_string())));
    let r2 = Passport::new().process("byr:");
    assert_eq!(r2, Err(PassportProcessError::UnparsableU32("".to_string())));
}

#[test]
fn extra_whitespace_between_tokens_is_ignored() {
    let p = Passport::new().process("  byr:1937\t  ecl:gry  ").unwrap();
    assert_eq!(p.get("byr"), Some(PassportField::Num(1937)));
    assert_eq!(p.get("ecl"), Some(PassportField::Str("gry".to_string())));
}

#[test]
fn violation_constructors_build_the_variants() {
    assert_eq!(
        PassportInvalid::out_of_range("hgt", "190in"),
        PassportInvalid::OutOfRange("hgt".to_string(), "190in".to_string())
    );
    assert_eq!(
        PassportInvalid::invalid_format("hcl", "zzz"),
        PassportInvalid::InvalidFormat("hcl".to_string(), "zzz".to_string())
    );
}

#[test]
fn field_and_violation_conversions() {
    assert_eq!(PassportField::from(1937u32), PassportField::Num(1937));
    assert_eq!(
        PassportField::from("gry"),
        PassportField::Str("gry".to_string())
    );
    assert_eq!(
        PassportInvalid::from("byr"),
        PassportInvalid::MissingField("byr".to_string())
    );
}

#[test]
fn numbers_render_in_decimal() {
    assert_eq!(passport_processing::u32_to_string(0), "0");
    assert_eq!(passport_processing::u32_to_string(42), "42");
    assert_eq!(passport_processing::u32_to_string(4294967295), "4294967295");
}

#[test]
fn read_state_starts_empty() {
    assert_eq!(ReadState::default(), ReadState::Empty);
}

#[test]
fn leading_zeros_parse_and_render_canonically() {
    let p = valid_passport().process("byr:0042").unwrap();
    let v = p.validate().unwrap_err();
    assert_eq!(
        v,
        vec![PassportInvalid::OutOfRange("byr".to_string(), "42".to_string())]
    );
}
