//! Passport records: the field catalog, the typed field values, and the
//! line processor that folds `key:value` tokens into a record.

use vstd::prelude::*;
use vstd::string::StrSliceExecFns;
use vstd::string::StringExecFns;

use crate::text::{
    dec_value, is_dec_u32, is_space_char, lemma_dec_value_nonneg, lemma_split_point_is,
    parse_u32_region, region_matches, space_char, split_point,
};

verus! {

/// A field value: numeric-valued keys (`byr`, `eyr`, `iyr`) hold an
/// unsigned integer, text-valued keys (`ecl`, `hcl`, `hgt`, `pid`, `cid`)
/// hold the value text verbatim.
#[derive(Clone, PartialEq, Debug)]
pub enum PassportField {
    Num(u32),
    Str(String),
}

/// Mathematical model of a field value.
pub enum FieldModel {
    Num(u32),
    Str(Seq<char>),
}

impl View for PassportField {
    type V = FieldModel;

    open spec fn view(&self) -> FieldModel {
        match self {
            PassportField::Num(v) => FieldModel::Num(*v),
            PassportField::Str(s) => FieldModel::Str(s@),
        }
    }
}

impl DeepView for PassportField {
    type V = FieldModel;

    open spec fn deep_view(&self) -> FieldModel {
        self.view()
    }
}

impl From<u32> for PassportField {
    /// A numeric field value.
    fn from(val: u32) -> (r: Self) {
        PassportField::Num(val)
    }
}

impl vstd::std_specs::convert::FromSpecImpl<u32> for PassportField {
    open spec fn obeys_from_spec() -> bool {
        true
    }

    open spec fn from_spec(val: u32) -> Self {
        PassportField::Num(val)
    }
}

impl<'a> From<&'a str> for PassportField {
    /// A text field value, stored verbatim.
    fn from(val: &'a str) -> (r: Self) {
        PassportField::Str(val.to_owned())
    }
}

// `from_spec` cannot build a `String` with a given view, so nothing is
// promised of this conversion; `obeys_from_spec` is false and the spec
// value below is never relied on.
impl<'a> vstd::std_specs::convert::FromSpecImpl<&'a str> for PassportField {
    open spec fn obeys_from_spec() -> bool {
        false
    }

    open spec fn from_spec(val: &'a str) -> Self {
        vstd::pervasive::arbitrary()
    }
}

/// A parse-time failure: a key outside the fixed catalog, or a numeric
/// key whose value text is not a non-negative integer that fits in `u32`.
/// Either one aborts the whole read.
#[derive(Clone, PartialEq, Debug)]
pub enum PassportProcessError {
    UnknownKey(String),
    UnparsableU32(String),
}

/// Mathematical model of a parse-time failure.
pub enum ProcessErrorModel {
    UnknownKey(Seq<char>),
    UnparsableU32(Seq<char>),
}

impl View for PassportProcessError {
    type V = ProcessErrorModel;

    open spec fn view(&self) -> ProcessErrorModel {
        match self {
            PassportProcessError::UnknownKey(s) => ProcessErrorModel::UnknownKey(s@),
            PassportProcessError::UnparsableU32(s) => ProcessErrorModel::UnparsableU32(s@),
        }
    }
}

impl DeepView for PassportProcessError {
    type V = ProcessErrorModel;

    open spec fn deep_view(&self) -> ProcessErrorModel {
        self.view()
    }
}

/// Mathematical model of a record: one optional slot per catalog key.
/// That every key of a record lies in the catalog holds by construction.
pub struct PassportModel {
    pub byr: Option<u32>,
    pub eyr: Option<u32>,
    pub iyr: Option<u32>,
    pub ecl: Option<Seq<char>>,
    pub hcl: Option<Seq<char>>,
    pub hgt: Option<Seq<char>>,
    pub pid: Option<Seq<char>>,
    pub cid: Option<Seq<char>>,
}

/// The record with no fields set.
pub open spec fn empty_model() -> PassportModel {
    PassportModel {
        byr: None,
        eyr: None,
        iyr: None,
        ecl: None,
        hcl: None,
        hgt: None,
        pid: None,
        cid: None,
    }
}

/// One passport record: a mapping from catalog keys to field values,
/// accumulated line by line and immutable once its group of lines ends.
#[derive(Clone, PartialEq, Debug)]
pub struct Passport {
    pub byr: Option<u32>,
    pub eyr: Option<u32>,
    pub iyr: Option<u32>,
    pub ecl: Option<String>,
    pub hcl: Option<String>,
    pub hgt: Option<String>,
    pub pid: Option<String>,
    pub cid: Option<String>,
}

impl View for Passport {
    type V = PassportModel;

    open spec fn view(&self) -> PassportModel {
        PassportModel {
            byr: self.byr,
            eyr: self.eyr,
            iyr: self.iyr,
            ecl: self.ecl.deep_view(),
            hcl: self.hcl.deep_view(),
            hgt: self.hgt.deep_view(),
            pid: self.pid.deep_view(),
            cid: self.cid.deep_view(),
        }
    }
}

impl DeepView for Passport {
    type V = PassportModel;

    open spec fn deep_view(&self) -> PassportModel {
        self.view()
    }
}

/// Looking a key up in a record model: `None` both for an absent catalog
/// key and for a key outside the catalog.
pub open spec fn field_at(m: PassportModel, k: Seq<char>) -> Option<FieldModel> {
    if k == "byr"@ {
        match m.byr {
            Some(v) => Some(FieldModel::Num(v)),
            None => None,
        }
    } else if k == "eyr"@ {
        match m.eyr {
            Some(v) => Some(FieldModel::Num(v)),
            None => None,
        }
    } else if k == "iyr"@ {
        match m.iyr {
            Some(v) => Some(FieldModel::Num(v)),
            None => None,
        }
    } else if k == "ecl"@ {
        match m.ecl {
            Some(s) => Some(FieldModel::Str(s)),
            None => None,
        }
    } else if k == "hcl"@ {
        match m.hcl {
            Some(s) => Some(FieldModel::Str(s)),
            None => None,
        }
    } else if k == "hgt"@ {
        match m.hgt {
            Some(s) => Some(FieldModel::Str(s)),
            None => None,
        }
    } else if k == "pid"@ {
        match m.pid {
            Some(s) => Some(FieldModel::Str(s)),
            None => None,
        }
    } else if k == "cid"@ {
        match m.cid {
            Some(s) => Some(FieldModel::Str(s)),
            None => None,
        }
    } else {
        None
    }
}

/// Where a token splits: the maximal run of non-colon characters is the
/// key; what follows the first colon (if any) is the value text.
pub open spec fn colon_split(t: Seq<char>) -> int {
    split_point(t, |c: char| c as u32 != 58)
}

pub open spec fn key_of(t: Seq<char>) -> Seq<char> {
    t.take(colon_split(t))
}

pub open spec fn val_of(t: Seq<char>) -> Seq<char> {
    if colon_split(t) == t.len() {
        Seq::empty()
    } else {
        t.skip(colon_split(t) + 1)
    }
}

/// Fold one `key:value` token into a record model: numeric keys parse
/// their value text, text keys store it verbatim, a later token for a key
/// overwrites the earlier value, and any key outside the catalog fails.
pub open spec fn token_apply(m: PassportModel, t: Seq<char>) -> Result<
    PassportModel,
    ProcessErrorModel,
> {
    let k = key_of(t);
    let v = val_of(t);
    if k == "byr"@ {
        if is_dec_u32(v) {
            Ok(PassportModel { byr: Some(dec_value(v) as u32), ..m })
        } else {
            Err(ProcessErrorModel::UnparsableU32(v))
        }
    } else if k == "eyr"@ {
        if is_dec_u32(v) {
            Ok(PassportModel { eyr: Some(dec_value(v) as u32), ..m })
        } else {
            Err(ProcessErrorModel::UnparsableU32(v))
        }
    } else if k == "iyr"@ {
        if is_dec_u32(v) {
            Ok(PassportModel { iyr: Some(dec_value(v) as u32), ..m })
        } else {
            Err(ProcessErrorModel::UnparsableU32(v))
        }
    } else if k == "ecl"@ {
        Ok(PassportModel { ecl: Some(v), ..m })
    } else if k == "hcl"@ {
        Ok(PassportModel { hcl: Some(v), ..m })
    } else if k == "hgt"@ {
        Ok(PassportModel { hgt: Some(v), ..m })
    } else if k == "pid"@ {
        Ok(PassportModel { pid: Some(v), ..m })
    } else if k == "cid"@ {
        Ok(PassportModel { cid: Some(v), ..m })
    } else {
        Err(ProcessErrorModel::UnknownKey(k))
    }
}

/// Fold a whole line into a record model: tokens are the maximal runs of
/// non-whitespace characters, applied left to right; the first failing
/// token aborts.
pub open spec fn line_result(m: PassportModel, s: Seq<char>) -> Result<
    PassportModel,
    ProcessErrorModel,
> decreases s.len() via line_result_decreases {
    if s.len() == 0 {
        Ok(m)
    } else if is_space_char(s[0]) {
        line_result(m, s.skip(1))
    } else {
        let n = token_len(s);
        match token_apply(m, s.take(n)) {
            Ok(m2) => line_result(m2, s.skip(n)),
            Err(e) => Err(e),
        }
    }
}

#[via_fn]
proof fn line_result_decreases(m: PassportModel, s: Seq<char>) {
    if s.len() > 0 && !is_space_char(s[0]) {
        crate::text::lemma_split_point(s, |c: char| !is_space_char(c));
    }
}

/// The eight keys of the fixed catalog.
pub open spec fn catalog_key(k: Seq<char>) -> bool {
    k == "byr"@ || k == "eyr"@ || k == "iyr"@ || k == "ecl"@ || k == "hcl"@ || k == "hgt"@ || k
        == "pid"@ || k == "cid"@
}

/// A key outside the catalog fails whatever the record held: the token
/// yields exactly `UnknownKey` with that key.
pub proof fn lemma_unknown_key(m: PassportModel, t: Seq<char>)
    requires
        !catalog_key(key_of(t)),
    ensures
        token_apply(m, t) == Err::<PassportModel, ProcessErrorModel>(
            ProcessErrorModel::UnknownKey(key_of(t)),
        ),
{
}

/// Does some token of the line have a key outside the catalog?
pub open spec fn line_has_bad_key(s: Seq<char>) -> bool
    decreases s.len() via line_has_bad_key_decreases
{
    if s.len() == 0 {
        false
    } else if is_space_char(s[0]) {
        line_has_bad_key(s.skip(1))
    } else {
        !catalog_key(key_of(s.take(token_len(s)))) || line_has_bad_key(s.skip(token_len(s)))
    }
}

#[via_fn]
proof fn line_has_bad_key_decreases(s: Seq<char>) {
    if s.len() > 0 && !is_space_char(s[0]) {
        crate::text::lemma_split_point(s, |c: char| !is_space_char(c));
    }
}

/// Does some token of the line have key `k`?
pub open spec fn line_sets_key(s: Seq<char>, k: Seq<char>) -> bool
    decreases s.len() via line_sets_key_decreases
{
    if s.len() == 0 {
        false
    } else if is_space_char(s[0]) {
        line_sets_key(s.skip(1), k)
    } else {
        key_of(s.take(token_len(s))) == k || line_sets_key(s.skip(token_len(s)), k)
    }
}

#[via_fn]
proof fn line_sets_key_decreases(s: Seq<char>, k: Seq<char>) {
    if s.len() > 0 && !is_space_char(s[0]) {
        crate::text::lemma_split_point(s, |c: char| !is_space_char(c));
    }
}

/// A line with a token whose key lies outside the catalog never processes
/// successfully, whatever the record held.
pub proof fn lemma_bad_key_line_fails(m: PassportModel, s: Seq<char>)
    requires
        line_has_bad_key(s),
    ensures
        line_result(m, s) is Err,
    decreases s.len(),
{
    if s.len() == 0 {
    } else if is_space_char(s[0]) {
        lemma_bad_key_line_fails(m, s.skip(1));
    } else {
        crate::text::lemma_split_point(s, |c: char| !is_space_char(c));
        let n = token_len(s);
        let t = s.take(n);
        if !catalog_key(key_of(t)) {
            lemma_unknown_key(m, t);
        } else {
            match token_apply(m, t) {
                Ok(m2) => lemma_bad_key_line_fails(m2, s.skip(n)),
                Err(e) => {},
            }
        }
    }
}

/// A blank line holds no token at all, so no key, bad or good.
pub proof fn lemma_blank_no_keys(s: Seq<char>)
    requires
        crate::text::blank_line(s),
    ensures
        !line_has_bad_key(s),
        forall|k: Seq<char>| !line_sets_key(s, k),
    decreases s.len(),
{
    if s.len() > 0 {
        assert(is_space_char(s[0]));
        assert forall|q: int| 0 <= q < s.skip(1).len() implies is_space_char(
            #[trigger] s.skip(1)[q],
        ) by {
            assert(s.skip(1)[q] == s[q + 1]);
        }
        lemma_blank_no_keys(s.skip(1));
        assert forall|k: Seq<char>| !line_sets_key(s, k) by {
            assert(!line_sets_key(s.skip(1), k));
        }
    }
}

proof fn lemma_token_other_key(m: PassportModel, t: Seq<char>, k: Seq<char>)
    requires
        key_of(t) != k,
        token_apply(m, t) is Ok,
    ensures
        field_at(token_apply(m, t)->Ok_0, k) == field_at(m, k),
{
}

proof fn lemma_token_same_key(m1: PassportModel, m2: PassportModel, t: Seq<char>)
    requires
        token_apply(m1, t) is Ok,
        token_apply(m2, t) is Ok,
    ensures
        field_at(token_apply(m1, t)->Ok_0, key_of(t)) == field_at(
            token_apply(m2, t)->Ok_0,
            key_of(t),
        ),
{
}

/// A line that never mentions key `k` leaves `k`'s value alone.
pub proof fn lemma_key_not_set_preserved(m: PassportModel, s: Seq<char>, k: Seq<char>)
    requires
        !line_sets_key(s, k),
        line_result(m, s) is Ok,
    ensures
        field_at(line_result(m, s)->Ok_0, k) == field_at(m, k),
    decreases s.len(),
{
    if s.len() == 0 {
    } else if is_space_char(s[0]) {
        lemma_key_not_set_preserved(m, s.skip(1), k);
    } else {
        crate::text::lemma_split_point(s, |c: char| !is_space_char(c));
        let n = token_len(s);
        let t = s.take(n);
        let m2 = token_apply(m, t)->Ok_0;
        lemma_token_other_key(m, t, k);
        lemma_key_not_set_preserved(m2, s.skip(n), k);
    }
}

/// Processing a line that sets key `k` gives `k` the same value whatever
/// the record held before: a later line's value for a key overwrites an
/// earlier line's.
pub proof fn lemma_overwrite(m1: PassportModel, m2: PassportModel, s: Seq<char>, k: Seq<char>)
    requires
        line_sets_key(s, k),
        line_result(m1, s) is Ok,
        line_result(m2, s) is Ok,
    ensures
        field_at(line_result(m1, s)->Ok_0, k) == field_at(line_result(m2, s)->Ok_0, k),
    decreases s.len(),
{
    if s.len() == 0 {
    } else if is_space_char(s[0]) {
        lemma_overwrite(m1, m2, s.skip(1), k);
    } else {
        crate::text::lemma_split_point(s, |c: char| !is_space_char(c));
        let n = token_len(s);
        let t = s.take(n);
        let m1n = token_apply(m1, t)->Ok_0;
        let m2n = token_apply(m2, t)->Ok_0;
        if line_sets_key(s.skip(n), k) {
            lemma_overwrite(m1n, m2n, s.skip(n), k);
        } else {
            lemma_token_same_key(m1, m2, t);
            lemma_key_not_set_preserved(m1n, s.skip(n), k);
            lemma_key_not_set_preserved(m2n, s.skip(n), k);
        }
    }
}

/// Length of the token starting at the head of `s`: its maximal run of
/// non-whitespace characters.
pub open spec fn token_len(s: Seq<char>) -> int {
    split_point(s, |c: char| !is_space_char(c))
}

/// The model a `process` call's outcome stands for.
pub open spec fn process_outcome(r: Result<Passport, PassportProcessError>) -> Result<
    PassportModel,
    ProcessErrorModel,
> {
    match r {
        Ok(p) => Ok(p@),
        Err(e) => Err(e@),
    }
}

/// End of the token that starts at `i`: the first whitespace position at
/// or after `i`, or the end of the line.
fn token_end(line: &str, i: usize) -> (j: usize)
    requires
        i <= line@.len(),
    ensures
        i <= j <= line@.len(),
        forall|q: int| i <= q < j ==> !is_space_char(#[trigger] line@[q]),
        j < line@.len() ==> is_space_char(line@[j as int]),
{
    let n = line.unicode_len();
    let mut j: usize = i;
    loop
        invariant
            i <= j <= n,
            n == line@.len(),
            forall|q: int| i <= q < j ==> !is_space_char(#[trigger] line@[q]),
        ensures
            i <= j <= n,
            forall|q: int| i <= q < j ==> !is_space_char(#[trigger] line@[q]),
            j < n ==> is_space_char(line@[j as int]),
        decreases n - j,
    {
        if j == n {
            break ;
        }
        if space_char(line.get_char(j)) {
            break ;
        }
        j = j + 1;
    }
    j
}

/// Position of the first colon in `tok`, or the token's length if it has
/// none.
fn colon_pos(tok: &str) -> (k: usize)
    ensures
        0 <= k <= tok@.len(),
        colon_split(tok@) == k,
{
    let n = tok.unicode_len();
    let mut k: usize = 0;
    loop
        invariant
            k <= n,
            n == tok@.len(),
            forall|q: int| 0 <= q < k ==> (#[trigger] tok@[q]) as u32 != 58,
        ensures
            k <= n,
            forall|q: int| 0 <= q < k ==> (#[trigger] tok@[q]) as u32 != 58,
            k < n ==> tok@[k as int] as u32 == 58,
        decreases n - k,
    {
        if k == n {
            break ;
        }
        if tok.get_char(k) as u32 == 58 {
            break ;
        }
        k = k + 1;
    }
    proof {
        lemma_split_point_is(tok@, |c: char| c as u32 != 58, k as int);
    }
    k
}

/// Copy `s[from..to]` out as an owned string.
fn region_to_string(s: &str, from: usize, to: usize) -> (r: String)
    requires
        from <= to <= s@.len(),
    ensures
        r@ == s@.subrange(from as int, to as int),
{
    s.substring_char(from, to).to_owned()
}

/// Fold one token into a record, the executable counterpart of
/// `token_apply`.
fn apply_token(p: Passport, tok: &str) -> (r: Result<Passport, PassportProcessError>)
    ensures
        process_outcome(r) == token_apply(p@, tok@),
{
    let ghost m = p@;
    let tn = tok.unicode_len();
    let k = colon_pos(tok);
    let vfrom = if k < tn {
        k + 1
    } else {
        tn
    };
    proof {
        assert(tok@.take(k as int) =~= tok@.subrange(0, k as int));
        if k < tn {
            assert(tok@.skip(k + 1) =~= tok@.subrange(vfrom as int, tn as int));
        } else {
            assert(Seq::<char>::empty() =~= tok@.subrange(vfrom as int, tn as int));
        }
        assert(val_of(tok@) == tok@.subrange(vfrom as int, tn as int));
    }
    if region_matches(tok, 0, k, "byr") {
        match parse_u32_region(tok, vfrom, tn) {
            Some(v) => {
                proof {
                    lemma_dec_value_nonneg(tok@.subrange(vfrom as int, tn as int));
                }
                let mut p2 = p;
                p2.byr = Some(v);
                Ok(p2)
            },
            None => Err(PassportProcessError::UnparsableU32(region_to_string(tok, vfrom, tn))),
        }
    } else if region_matches(tok, 0, k, "eyr") {
        match parse_u32_region(tok, vfrom, tn) {
            Some(v) => {
                proof {
                    lemma_dec_value_nonneg(tok@.subrange(vfrom as int, tn as int));
                }
                let mut p2 = p;
                p2.eyr = Some(v);
                Ok(p2)
            },
            None => Err(PassportProcessError::UnparsableU32(region_to_string(tok, vfrom, tn))),
        }
    } else if region_matches(tok, 0, k, "iyr") {
        match parse_u32_region(tok, vfrom, tn) {
            Some(v) => {
                proof {
                    lemma_dec_value_nonneg(tok@.subrange(vfrom as int, tn as int));
                }
                let mut p2 = p;
                p2.iyr = Some(v);
                Ok(p2)
            },
            None => Err(PassportProcessError::UnparsableU32(region_to_string(tok, vfrom, tn))),
        }
    } else if region_matches(tok, 0, k, "ecl") {
        let mut p2 = p;
        p2.ecl = Some(region_to_string(tok, vfrom, tn));
        Ok(p2)
    } else if region_matches(tok, 0, k, "hcl") {
        let mut p2 = p;
        p2.hcl = Some(region_to_string(tok, vfrom, tn));
        Ok(p2)
    } else if region_matches(tok, 0, k, "hgt") {
        let mut p2 = p;
        p2.hgt = Some(region_to_string(tok, vfrom, tn));
        Ok(p2)
    } else if region_matches(tok, 0, k, "pid") {
        let mut p2 = p;
        p2.pid = Some(region_to_string(tok, vfrom, tn));
        Ok(p2)
    } else if region_matches(tok, 0, k, "cid") {
        let mut p2 = p;
        p2.cid = Some(region_to_string(tok, vfrom, tn));
        Ok(p2)
    } else {
        Err(PassportProcessError::UnknownKey(region_to_string(tok, 0, k)))
    }
}

impl Passport {
    /// A record with no fields set.
    pub fn new() -> (p: Passport)
        ensures
            p@ == empty_model(),
    {
        Passport {
            byr: None,
            eyr: None,
            iyr: None,
            ecl: None,
            hcl: None,
            hgt: None,
            pid: None,
            cid: None,
        }
    }

    /// Look a key up, as text; keys outside the catalog are never present.
    pub fn get(&self, key: &str) -> (r: Option<PassportField>)
        ensures
            r.deep_view() == field_at(self@, key@),
    {
        let n = key.unicode_len();
        proof {
            assert(key@.subrange(0, n as int) =~= key@);
        }
        if region_matches(key, 0, n, "byr") {
            match self.byr {
                Some(v) => Some(PassportField::Num(v)),
                None => None,
            }
        } else if region_matches(key, 0, n, "eyr") {
            match self.eyr {
                Some(v) => Some(PassportField::Num(v)),
                None => None,
            }
        } else if region_matches(key, 0, n, "iyr") {
            match self.iyr {
                Some(v) => Some(PassportField::Num(v)),
                None => None,
            }
        } else if region_matches(key, 0, n, "ecl") {
            match &self.ecl {
                Some(s) => Some(PassportField::Str(s.clone())),
                None => None,
            }
        } else if region_matches(key, 0, n, "hcl") {
            match &self.hcl {
                Some(s) => Some(PassportField::Str(s.clone())),
                None => None,
            }
        } else if region_matches(key, 0, n, "hgt") {
            match &self.hgt {
                Some(s) => Some(PassportField::Str(s.clone())),
                None => None,
            }
        } else if region_matches(key, 0, n, "pid") {
            match &self.pid {
                Some(s) => Some(PassportField::Str(s.clone())),
                None => None,
            }
        } else if region_matches(key, 0, n, "cid") {
            match &self.cid {
                Some(s) => Some(PassportField::Str(s.clone())),
                None => None,
            }
        } else {
            None
        }
    }

    /// Fold one line's `key:value` tokens into this record, left to right.
    /// Returns the updated record, or the first token's failure: an
    /// `UnknownKey` for a key outside the catalog, an `UnparsableU32` for a
    /// numeric key whose value text is not an integer that fits.
    #[verifier::loop_isolation(false)]
    pub fn process(self, line: &str) -> (r: Result<Passport, PassportProcessError>)
        ensures
            process_outcome(r) == line_result(self@, line@),
    {
        let ghost m0 = self@;
        let mut p = self;
        let n = line.unicode_len();
        let mut i: usize = 0;
        proof {
            assert(line@.skip(0) =~= line@);
        }
        while i < n
            invariant
                i <= n,
                n == line@.len(),
                line_result(p@, line@.skip(i as int)) == line_result(m0, line@),
            decreases n - i,
        {
            if space_char(line.get_char(i)) {
                proof {
                    assert(line@.skip(i as int).skip(1) =~= line@.skip(i + 1));
                }
                i = i + 1;
            } else {
                let j = token_end(line, i);
                proof {
                    assert forall|q: int| 0 <= q < j - i implies !is_space_char(
                        #[trigger] line@.skip(i as int)[q],
                    ) by {
                        assert(line@.skip(i as int)[q] == line@[i + q]);
                    }
                    if j - i < line@.skip(i as int).len() {
                        assert(line@.skip(i as int)[j - i] == line@[j as int]);
                    }
                    lemma_split_point_is(
                        line@.skip(i as int),
                        |c: char| !is_space_char(c),
                        j - i,
                    );
                    assert(line@.skip(i as int).take(j - i) =~= line@.subrange(
                        i as int,
                        j as int,
                    ));
                }
                let tok = line.substring_char(i, j);
                proof {
                    assert(line@.skip(i as int)[0] == line@[i as int]);
                    assert(token_len(line@.skip(i as int)) == j - i);
                    assert(line@.skip(i as int).take(j - i) == tok@);
                }
                match apply_token(p, tok) {
                    Ok(p2) => {
                        proof {
                            assert(line@.skip(i as int).skip(j - i) =~= line@.skip(j as int));
                            assert(line_result(p@, line@.skip(i as int)) == line_result(
                                p2@,
                                line@.skip(j as int),
                            ));
                        }
                        p = p2;
                        i = j;
                    },
                    Err(e) => {
                        proof {
                            assert(line_result(p@, line@.skip(i as int)) == Err::<
                                PassportModel,
                                ProcessErrorModel,
                            >(e@));
                        }
                        return Err(e);
                    },
                }
            }
        }
        proof {
            assert(line@.skip(n as int) =~= Seq::<char>::empty());
        }
        Ok(p)
    }
}

} // verus!
