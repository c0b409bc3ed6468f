//! Two-tier validation of a record: presence of the seven required keys
//! (simplified mode), or presence plus per-field format and range rules
//! (full mode). Both collect every violation instead of stopping at the
//! first, in the catalog order `byr, eyr, iyr, ecl, hcl, hgt, pid`.

use vstd::prelude::*;
use vstd::string::StrSliceExecFns;

use crate::record::{Passport, PassportModel};
use crate::text::{
    all_digits, dec_str, dec_value, digit_char_test, hex_lower_char_test, is_digit_char,
    is_hex_lower_char, lemma_split_point_is, parse_u32_region, region_matches, split_point,
    u32_to_string,
};

verus! {

/// One validation finding: a required key that is absent, a value outside
/// its range, or a value of the wrong shape. The two value-carrying kinds
/// hold the key and the observed value text.
#[derive(Clone, PartialEq, Debug)]
pub enum PassportInvalid {
    MissingField(String),
    OutOfRange(String, String),
    InvalidFormat(String, String),
}

/// Mathematical model of a validation finding.
pub enum InvalidModel {
    MissingField(Seq<char>),
    OutOfRange(Seq<char>, Seq<char>),
    InvalidFormat(Seq<char>, Seq<char>),
}

impl View for PassportInvalid {
    type V = InvalidModel;

    open spec fn view(&self) -> InvalidModel {
        match self {
            PassportInvalid::MissingField(k) => InvalidModel::MissingField(k@),
            PassportInvalid::OutOfRange(k, v) => InvalidModel::OutOfRange(k@, v@),
            PassportInvalid::InvalidFormat(k, v) => InvalidModel::InvalidFormat(k@, v@),
        }
    }
}

impl DeepView for PassportInvalid {
    type V = InvalidModel;

    open spec fn deep_view(&self) -> InvalidModel {
        self.view()
    }
}

impl<'a> From<&'a str> for PassportInvalid {
    /// A missing-field finding for the given key.
    fn from(key: &'a str) -> (r: Self) {
        PassportInvalid::MissingField(key.to_owned())
    }
}

// `from_spec` cannot build a `String` with a given view, so nothing is
// promised of this conversion; `obeys_from_spec` is false and the spec
// value below is never relied on.
impl<'a> vstd::std_specs::convert::FromSpecImpl<&'a str> for PassportInvalid {
    open spec fn obeys_from_spec() -> bool {
        false
    }

    open spec fn from_spec(key: &'a str) -> Self {
        vstd::pervasive::arbitrary()
    }
}

impl PassportInvalid {
    /// An out-of-range finding for the given key and observed value text.
    pub fn out_of_range(key: &str, val: &str) -> (r: Self)
        ensures
            r@ == InvalidModel::OutOfRange(key@, val@),
    {
        PassportInvalid::OutOfRange(key.to_owned(), val.to_owned())
    }

    /// An invalid-format finding for the given key and observed value text.
    pub fn invalid_format(key: &str, val: &str) -> (r: Self)
        ensures
            r@ == InvalidModel::InvalidFormat(key@, val@),
    {
        PassportInvalid::InvalidFormat(key.to_owned(), val.to_owned())
    }
}

/// Findings for a numeric year field: absent, or outside `[lo, hi]`.
pub open spec fn year_violations(o: Option<u32>, key: Seq<char>, lo: u32, hi: u32) -> Seq<
    InvalidModel,
> {
    match o {
        None => seq![InvalidModel::MissingField(key)],
        Some(v) => if lo <= v && v <= hi {
            Seq::empty()
        } else {
            seq![InvalidModel::OutOfRange(key, dec_str(v as int))]
        },
    }
}

/// A valid eye colour: exactly one of the seven catalog words.
pub open spec fn is_valid_ecl(s: Seq<char>) -> bool {
    s == "amb"@ || s == "blu"@ || s == "brn"@ || s == "gry"@ || s == "grn"@ || s == "hzl"@ || s
        == "oth"@
}

/// A valid hair colour: `#` followed by exactly six lowercase hex digits.
pub open spec fn is_valid_hcl(s: Seq<char>) -> bool {
    s.len() == 7 && s[0] as u32 == 35 && forall|i: int|
        1 <= i < 7 ==> is_hex_lower_char(#[trigger] s[i])
}

/// A valid passport id: exactly nine decimal digits.
pub open spec fn is_valid_pid(s: Seq<char>) -> bool {
    s.len() == 9 && all_digits(s)
}

/// Length of the maximal decimal-digit prefix of a height value.
pub open spec fn digit_prefix_len(s: Seq<char>) -> int {
    split_point(s, |c: char| is_digit_char(c))
}

/// Findings for a text field validated by a single shape test.
pub open spec fn shape_violations(o: Option<Seq<char>>, key: Seq<char>, ok: bool) -> Seq<
    InvalidModel,
> {
    match o {
        None => seq![InvalidModel::MissingField(key)],
        Some(s) => if ok {
            Seq::empty()
        } else {
            seq![InvalidModel::InvalidFormat(key, s)]
        },
    }
}

/// Findings for the height field. The value must be a non-empty run of
/// digits followed by a non-empty unit; the unit must be `cm` or `in`; the
/// number must fit and lie in the unit's range. The unit test and the
/// numeric test are independent, but no range check fires for an
/// unrecognized unit.
pub open spec fn hgt_violations(o: Option<Seq<char>>) -> Seq<InvalidModel> {
    match o {
        None => seq![InvalidModel::MissingField("hgt"@)],
        Some(s) => {
            let d = digit_prefix_len(s);
            if d == 0 || d == s.len() {
                seq![InvalidModel::InvalidFormat("hgt"@, s)]
            } else {
                let unit = s.skip(d);
                let format_part = if unit == "cm"@ || unit == "in"@ {
                    Seq::<InvalidModel>::empty()
                } else {
                    seq![InvalidModel::InvalidFormat("hgt"@, s)]
                };
                let h = dec_value(s.take(d));
                let range_part = if h <= u32::MAX {
                    if (unit == "cm"@ && !(150 <= h && h <= 193)) || (unit == "in"@ && !(59 <= h
                        && h <= 76)) {
                        seq![InvalidModel::OutOfRange("hgt"@, s)]
                    } else {
                        Seq::<InvalidModel>::empty()
                    }
                } else {
                    seq![InvalidModel::InvalidFormat("hgt"@, s)]
                };
                format_part + range_part
            }
        },
    }
}

/// Everything full validation finds, in catalog order.
pub open spec fn full_violations(m: PassportModel) -> Seq<InvalidModel> {
    year_violations(m.byr, "byr"@, 1920, 2002) + year_violations(m.eyr, "eyr"@, 2020, 2030)
        + year_violations(m.iyr, "iyr"@, 2010, 2020) + shape_violations(
        m.ecl,
        "ecl"@,
        m.ecl is Some && is_valid_ecl(m.ecl->0),
    ) + shape_violations(m.hcl, "hcl"@, m.hcl is Some && is_valid_hcl(m.hcl->0))
        + hgt_violations(m.hgt) + shape_violations(
        m.pid,
        "pid"@,
        m.pid is Some && is_valid_pid(m.pid->0),
    )
}

/// A missing-field finding, or nothing.
pub open spec fn missing_only(absent: bool, key: Seq<char>) -> Seq<InvalidModel> {
    if absent {
        seq![InvalidModel::MissingField(key)]
    } else {
        Seq::empty()
    }
}

/// Everything simplified validation finds: one missing-field finding per
/// absent required key, in catalog order.
pub open spec fn simplified_violations(m: PassportModel) -> Seq<InvalidModel> {
    missing_only(m.byr is None, "byr"@) + missing_only(m.eyr is None, "eyr"@) + missing_only(
        m.iyr is None,
        "iyr"@,
    ) + missing_only(m.ecl is None, "ecl"@) + missing_only(m.hcl is None, "hcl"@) + missing_only(
        m.hgt is None,
        "hgt"@,
    ) + missing_only(m.pid is None, "pid"@)
}

/// If full validation finds nothing, neither does simplified validation:
/// the full rules include every presence check the simplified mode makes.
pub proof fn lemma_full_implies_simplified(m: PassportModel)
    ensures
        full_violations(m).len() == 0 ==> simplified_violations(m).len() == 0,
{
    if full_violations(m).len() == 0 {
        assert(year_violations(m.byr, "byr"@, 1920, 2002).len() == 0);
        assert(year_violations(m.eyr, "eyr"@, 2020, 2030).len() == 0);
        assert(year_violations(m.iyr, "iyr"@, 2010, 2020).len() == 0);
        assert(shape_violations(m.ecl, "ecl"@, m.ecl is Some && is_valid_ecl(m.ecl->0)).len()
            == 0);
        assert(shape_violations(m.hcl, "hcl"@, m.hcl is Some && is_valid_hcl(m.hcl->0)).len()
            == 0);
        assert(hgt_violations(m.hgt).len() == 0);
        assert(shape_violations(m.pid, "pid"@, m.pid is Some && is_valid_pid(m.pid->0)).len()
            == 0);
        assert(m.byr is Some && m.eyr is Some && m.iyr is Some && m.ecl is Some && m.hcl is Some
            && m.hgt is Some && m.pid is Some);
    }
}

/// End of the maximal digit prefix of `s`.
fn digit_end(s: &str) -> (d: usize)
    ensures
        d <= s@.len(),
        digit_prefix_len(s@) == d,
        forall|q: int| 0 <= q < d ==> is_digit_char(#[trigger] s@[q]),
        d < s@.len() ==> !is_digit_char(s@[d as int]),
{
    let n = s.unicode_len();
    let mut d: usize = 0;
    loop
        invariant
            d <= n,
            n == s@.len(),
            forall|q: int| 0 <= q < d ==> is_digit_char(#[trigger] s@[q]),
        ensures
            d <= n,
            forall|q: int| 0 <= q < d ==> is_digit_char(#[trigger] s@[q]),
            d < n ==> !is_digit_char(s@[d as int]),
        decreases n - d,
    {
        if d == n {
            break ;
        }
        if !digit_char_test(s.get_char(d)) {
            break ;
        }
        d = d + 1;
    }
    proof {
        lemma_split_point_is(s@, |c: char| is_digit_char(c), d as int);
    }
    d
}

fn ecl_ok(s: &str) -> (b: bool)
    ensures
        b == is_valid_ecl(s@),
{
    let n = s.unicode_len();
    proof {
        assert(s@.subrange(0, n as int) =~= s@);
    }
    region_matches(s, 0, n, "amb") || region_matches(s, 0, n, "blu") || region_matches(
        s,
        0,
        n,
        "brn",
    ) || region_matches(s, 0, n, "gry") || region_matches(s, 0, n, "grn") || region_matches(
        s,
        0,
        n,
        "hzl",
    ) || region_matches(s, 0, n, "oth")
}

fn hcl_ok(s: &str) -> (b: bool)
    ensures
        b == is_valid_hcl(s@),
{
    let n = s.unicode_len();
    if n != 7 {
        return false;
    }
    if s.get_char(0) as u32 != 35 {
        return false;
    }
    let mut i: usize = 1;
    while i < 7
        invariant
            1 <= i <= 7,
            s@.len() == 7,
            forall|q: int| 1 <= q < i ==> is_hex_lower_char(#[trigger] s@[q]),
        decreases 7 - i,
    {
        if !hex_lower_char_test(s.get_char(i)) {
            return false;
        }
        i = i + 1;
    }
    true
}

fn pid_ok(s: &str) -> (b: bool)
    ensures
        b == is_valid_pid(s@),
{
    let n = s.unicode_len();
    if n != 9 {
        return false;
    }
    let mut i: usize = 0;
    while i < 9
        invariant
            i <= 9,
            s@.len() == 9,
            forall|q: int| 0 <= q < i ==> is_digit_char(#[trigger] s@[q]),
        decreases 9 - i,
    {
        if !digit_char_test(s.get_char(i)) {
            return false;
        }
        i = i + 1;
    }
    true
}

impl Passport {
    /// Presence-only validation: one `MissingField` finding per required
    /// key that is absent, in catalog order; `Ok` exactly when all seven
    /// are present. Never stops at the first finding.
    #[verifier::rlimit(100)]
    pub fn validate_simplified(&self) -> (r: Result<(), Vec<PassportInvalid>>)
        ensures
            match r {
                Ok(u) => simplified_violations(self@).len() == 0,
                Err(v) => v.deep_view() == simplified_violations(self@) && v@.len() > 0,
            },
    {
        let mut invalids: Vec<PassportInvalid> = Vec::new();
        if self.byr.is_none() {
            invalids.push(PassportInvalid::MissingField("byr".to_owned()));
        }
        proof {
            assert(invalids.deep_view() =~= missing_only(self@.byr is None, "byr"@));
        }
        let ghost pre_eyr = invalids.deep_view();
        if self.eyr.is_none() {
            invalids.push(PassportInvalid::MissingField("eyr".to_owned()));
        }
        proof {
            assert(invalids.deep_view() =~= pre_eyr + missing_only(self@.eyr is None, "eyr"@));
        }
        let ghost pre_iyr = invalids.deep_view();
        if self.iyr.is_none() {
            invalids.push(PassportInvalid::MissingField("iyr".to_owned()));
        }
        proof {
            assert(invalids.deep_view() =~= pre_iyr + missing_only(self@.iyr is None, "iyr"@));
        }
        let ghost pre_ecl = invalids.deep_view();
        if self.ecl.is_none() {
            invalids.push(PassportInvalid::MissingField("ecl".to_owned()));
        }
        proof {
            assert(invalids.deep_view() =~= pre_ecl + missing_only(self@.ecl is None, "ecl"@));
        }
        let ghost pre_hcl = invalids.deep_view();
        if self.hcl.is_none() {
            invalids.push(PassportInvalid::MissingField("hcl".to_owned()));
        }
        proof {
            assert(invalids.deep_view() =~= pre_hcl + missing_only(self@.hcl is None, "hcl"@));
        }
        let ghost pre_hgt = invalids.deep_view();
        if self.hgt.is_none() {
            invalids.push(PassportInvalid::MissingField("hgt".to_owned()));
        }
        proof {
            assert(invalids.deep_view() =~= pre_hgt + missing_only(self@.hgt is None, "hgt"@));
        }
        let ghost pre_pid = invalids.deep_view();
        if self.pid.is_none() {
            invalids.push(PassportInvalid::MissingField("pid".to_owned()));
        }
        proof {
            assert(invalids.deep_view() =~= pre_pid + missing_only(self@.pid is None, "pid"@));
            assert(invalids.deep_view() == simplified_violations(self@));
        }
        if invalids.is_empty() {
            Ok(())
        } else {
            Err(invalids)
        }
    }

    /// Full validation: presence plus per-field format and range rules,
    /// evaluated independently per required key in catalog order; `Ok`
    /// exactly when nothing is found. Never stops at the first finding.
    pub fn validate(&self) -> (r: Result<(), Vec<PassportInvalid>>)
        ensures
            match r {
                Ok(u) => full_violations(self@).len() == 0,
                Err(v) => v.deep_view() == full_violations(self@) && v@.len() > 0,
            },
    {
        let mut invalids: Vec<PassportInvalid> = Vec::new();
        proof {
            assert(invalids.deep_view() =~= Seq::<InvalidModel>::empty());
        }
        check_year(self.byr, "byr", 1920, 2002, &mut invalids);
        proof {
            assert(Seq::<InvalidModel>::empty() + year_violations(self@.byr, "byr"@, 1920, 2002)
                =~= year_violations(self@.byr, "byr"@, 1920, 2002));
        }
        check_year(self.eyr, "eyr", 2020, 2030, &mut invalids);
        check_year(self.iyr, "iyr", 2010, 2020, &mut invalids);
        check_ecl(&self.ecl, &mut invalids);
        check_hcl(&self.hcl, &mut invalids);
        check_hgt(&self.hgt, &mut invalids);
        check_pid(&self.pid, &mut invalids);
        proof {
            assert(invalids.deep_view() == full_violations(self@));
        }
        if invalids.is_empty() {
            proof {
                assert(invalids.deep_view().len() == 0);
            }
            Ok(())
        } else {
            Err(invalids)
        }
    }
}

/// Append the findings for a numeric year field bounded by `[lo, hi]`.
fn check_year(o: Option<u32>, key: &str, lo: u32, hi: u32, invalids: &mut Vec<PassportInvalid>)
    ensures
        final(invalids).deep_view() == old(invalids).deep_view() + year_violations(
            o,
            key@,
            lo,
            hi,
        ),
{
    match o {
        None => {
            invalids.push(PassportInvalid::MissingField(key.to_owned()));
            proof {
                assert(invalids.deep_view() =~= old(invalids).deep_view() + year_violations(
                    o,
                    key@,
                    lo,
                    hi,
                ));
            }
        },
        Some(v) => {
            if v < lo || v > hi {
                let vs = u32_to_string(v);
                invalids.push(PassportInvalid::out_of_range(key, vs.as_str()));
            }
            proof {
                assert(invalids.deep_view() =~= old(invalids).deep_view() + year_violations(
                    o,
                    key@,
                    lo,
                    hi,
                ));
            }
        },
    }
}

/// Append the findings for the eye-colour field.
fn check_ecl(o: &Option<String>, invalids: &mut Vec<PassportInvalid>)
    ensures
        final(invalids).deep_view() == old(invalids).deep_view() + shape_violations(
            o.deep_view(),
            "ecl"@,
            o.deep_view() is Some && is_valid_ecl(o.deep_view()->0),
        ),
{
    match o {
        None => invalids.push(PassportInvalid::MissingField("ecl".to_owned())),
        Some(val) => {
            if !ecl_ok(val.as_str()) {
                invalids.push(PassportInvalid::invalid_format("ecl", val.as_str()));
            }
        },
    }
    proof {
        assert(invalids.deep_view() =~= old(invalids).deep_view() + shape_violations(
            o.deep_view(),
            "ecl"@,
            o.deep_view() is Some && is_valid_ecl(o.deep_view()->0),
        ));
    }
}

/// Append the findings for the hair-colour field.
fn check_hcl(o: &Option<String>, invalids: &mut Vec<PassportInvalid>)
    ensures
        final(invalids).deep_view() == old(invalids).deep_view() + shape_violations(
            o.deep_view(),
            "hcl"@,
            o.deep_view() is Some && is_valid_hcl(o.deep_view()->0),
        ),
{
    match o {
        None => invalids.push(PassportInvalid::MissingField("hcl".to_owned())),
        Some(val) => {
            if !hcl_ok(val.as_str()) {
                invalids.push(PassportInvalid::invalid_format("hcl", val.as_str()));
            }
        },
    }
    proof {
        assert(invalids.deep_view() =~= old(invalids).deep_view() + shape_violations(
            o.deep_view(),
            "hcl"@,
            o.deep_view() is Some && is_valid_hcl(o.deep_view()->0),
        ));
    }
}

/// Append the findings for the passport-id field.
fn check_pid(o: &Option<String>, invalids: &mut Vec<PassportInvalid>)
    ensures
        final(invalids).deep_view() == old(invalids).deep_view() + shape_violations(
            o.deep_view(),
            "pid"@,
            o.deep_view() is Some && is_valid_pid(o.deep_view()->0),
        ),
{
    match o {
        None => invalids.push(PassportInvalid::MissingField("pid".to_owned())),
        Some(val) => {
            if !pid_ok(val.as_str()) {
                invalids.push(PassportInvalid::invalid_format("pid", val.as_str()));
            }
        },
    }
    proof {
        assert(invalids.deep_view() =~= old(invalids).deep_view() + shape_violations(
            o.deep_view(),
            "pid"@,
            o.deep_view() is Some && is_valid_pid(o.deep_view()->0),
        ));
    }
}

/// Append the findings for the height field.
#[verifier::rlimit(60)]
fn check_hgt(o: &Option<String>, invalids: &mut Vec<PassportInvalid>)
    ensures
        final(invalids).deep_view() == old(invalids).deep_view() + hgt_violations(o.deep_view()),
{
    match o {
        None => invalids.push(PassportInvalid::MissingField("hgt".to_owned())),
        Some(val) => {
            let s = val.as_str();
            let n = s.unicode_len();
            let d = digit_end(s);
            if d == 0 || d == n {
                invalids.push(PassportInvalid::invalid_format("hgt", s));
            } else {
                proof {
                    assert(s@.skip(d as int) =~= s@.subrange(d as int, n as int));
                    assert(s@.take(d as int) =~= s@.subrange(0, d as int));
                }
                let is_cm = region_matches(s, d, n, "cm");
                let is_in = region_matches(s, d, n, "in");
                if !is_cm && !is_in {
                    invalids.push(PassportInvalid::invalid_format("hgt", s));
                }
                match parse_u32_region(s, 0, d) {
                    Some(h) => {
                        if (is_cm && (h < 150 || h > 193)) || (is_in && (h < 59 || h > 76)) {
                            invalids.push(PassportInvalid::out_of_range("hgt", s));
                        }
                    },
                    None => {
                        proof {
                            assert forall|q: int| 0 <= q < d implies is_digit_char(
                                #[trigger] s@.subrange(0, d as int)[q],
                            ) by {
                                assert(s@.subrange(0, d as int)[q] == s@[q]);
                            }
                        }
                        invalids.push(PassportInvalid::invalid_format("hgt", s));
                    },
                }
            }
        },
    }
    proof {
        assert(invalids.deep_view() =~= old(invalids).deep_view() + hgt_violations(
            o.deep_view(),
        ));
    }
}

} // verus!

