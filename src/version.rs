//! Maven-style versions: parsing, rendering, total order, and version
//! requirements (exact, bracket ranges, and the `LATEST` / `RELEASE` sentinels).
use vstd::prelude::*;
use crate::text::{
    all_digits, compare_text, contains_char, decimal, decimal_value, find_char, is_digit,
    lemma_decimal_digits, lemma_split_concat, lemma_split_nonempty, lemma_split_without_sep,
    parse_u32, push_decimal, same_text, split_char, split_on, text_cmp, trim_blanks, trim_text,
};

verus! {

/// Why a version string was refused.
#[derive(Debug, Clone, Copy, PartialEq, Eq, Structural)]
pub enum VersionParseError {
    /// More than three numeric fields, or an empty one.
    InvalidFormat,
    /// A numeric field that is not a decimal number fitting in 32 bits.
    InvalidNumber,
}

/// The mathematical value of a [`MavenVersion`].
pub struct VersionModel {
    pub major: u32,
    pub minor: u32,
    pub patch: u32,
    pub qualifier: Option<Seq<char>>,
}

/// A version `major.minor.patch[-qualifier]`.
#[derive(Debug)]
pub struct MavenVersion {
    pub major: u32,
    pub minor: u32,
    pub patch: u32,
    pub qualifier: Option<String>,
}

pub open spec fn opt_text(o: Option<String>) -> Option<Seq<char>> {
    match o {
        Some(s) => Some(s@),
        None => None,
    }
}

impl View for MavenVersion {
    type V = VersionModel;

    open spec fn view(&self) -> VersionModel {
        VersionModel {
            major: self.major,
            minor: self.minor,
            patch: self.patch,
            qualifier: opt_text(self.qualifier),
        }
    }
}

/// The text before the first `-`.
pub open spec fn numeric_part(s: Seq<char>) -> Seq<char> {
    split_on(s, '-')[0]
}

/// The text after the first `-`, if there is one.
pub open spec fn qualifier_part(s: Seq<char>) -> Option<Seq<char>> {
    if split_on(s, '-').len() > 1 {
        Some(s.skip(numeric_part(s).len() as int + 1))
    } else {
        None
    }
}

pub open spec fn field_fits(f: Seq<char>) -> bool {
    all_digits(f) && decimal_value(f) <= u32::MAX
}

pub open spec fn field_or_zero(fields: Seq<Seq<char>>, i: int) -> u32 {
    if i < fields.len() {
        decimal_value(fields[i]) as u32
    } else {
        0
    }
}

/// What parsing a version string yields.
pub open spec fn parse_version(s: Seq<char>) -> Result<VersionModel, VersionParseError> {
    let fields = split_on(numeric_part(s), '.');
    if fields.len() > 3 || exists|i: int| 0 <= i < fields.len() && #[trigger] fields[i].len() == 0 {
        Err(VersionParseError::InvalidFormat)
    } else if exists|i: int| 0 <= i < fields.len() && !field_fits(#[trigger] fields[i]) {
        Err(VersionParseError::InvalidNumber)
    } else {
        Ok(
            VersionModel {
                major: field_or_zero(fields, 0),
                minor: field_or_zero(fields, 1),
                patch: field_or_zero(fields, 2),
                qualifier: qualifier_part(s),
            },
        )
    }
}

/// The canonical rendering: three numeric fields, then `-qualifier` when present.
pub open spec fn display_version(v: VersionModel) -> Seq<char> {
    decimal(v.major as nat) + seq!['.'] + decimal(v.minor as nat) + seq!['.'] + decimal(
        v.patch as nat,
    ) + match v.qualifier {
        Some(q) => seq!['-'] + q,
        None => Seq::<char>::empty(),
    }
}

pub open spec fn cmp_u32(a: u32, b: u32) -> core::cmp::Ordering {
    if a < b {
        core::cmp::Ordering::Less
    } else if a > b {
        core::cmp::Ordering::Greater
    } else {
        core::cmp::Ordering::Equal
    }
}

/// The total order on versions: numeric fields first; on a tie a release
/// (no qualifier) comes after any qualified version, and two qualifiers
/// compare as text.
pub open spec fn version_cmp(a: VersionModel, b: VersionModel) -> core::cmp::Ordering {
    if a.major != b.major {
        cmp_u32(a.major, b.major)
    } else if a.minor != b.minor {
        cmp_u32(a.minor, b.minor)
    } else if a.patch != b.patch {
        cmp_u32(a.patch, b.patch)
    } else {
        match (a.qualifier, b.qualifier) {
            (None, None) => core::cmp::Ordering::Equal,
            (Some(_), None) => core::cmp::Ordering::Less,
            (None, Some(_)) => core::cmp::Ordering::Greater,
            (Some(x), Some(y)) => text_cmp(x, y),
        }
    }
}

/// The first `-` splits `s` into its numeric part and its qualifier.
proof fn lemma_first_dash(s: Seq<char>, k: int)
    requires
        0 <= k <= s.len(),
        k < s.len() ==> s[k] == '-',
        forall|j: int| 0 <= j < k ==> s[j] != '-',
    ensures
        numeric_part(s) == s.take(k),
        qualifier_part(s) == (if k < s.len() {
            Some(s.skip(k + 1))
        } else {
            None::<Seq<char>>
        }),
{
    assert(!contains_char(s.take(k), '-'));
    lemma_split_without_sep(s.take(k), '-');
    if k < s.len() {
        assert(s =~= s.take(k).push('-') + s.skip(k + 1));
        lemma_split_concat(s.take(k), '-', s.skip(k + 1));
        lemma_split_nonempty(s.skip(k + 1), '-');
    } else {
        assert(s.take(k) =~= s);
    }
}


proof fn lemma_contains_splits(s: Seq<char>, c: char)
    requires
        contains_char(s, c),
    ensures
        split_on(s, c).len() > 1,
    decreases s.len(),
{
    lemma_split_nonempty(s.drop_last(), c);
    if s.last() != c {
        let i = choose|i: int| 0 <= i < s.len() && s[i] == c;
        assert(i < s.len() - 1);
        assert(s.drop_last()[i] == c);
        lemma_contains_splits(s.drop_last(), c);
    }
}

proof fn lemma_no_dash_in_numbers(v: VersionModel)
    ensures
        !contains_char(
            decimal(v.major as nat) + seq!['.'] + decimal(v.minor as nat) + seq!['.'] + decimal(
                v.patch as nat,
            ),
            '-',
        ),
{
    let a = decimal(v.major as nat);
    let b = decimal(v.minor as nat);
    let c = decimal(v.patch as nat);
    lemma_decimal_digits(v.major as nat);
    lemma_decimal_digits(v.minor as nat);
    lemma_decimal_digits(v.patch as nat);
    let n = a + seq!['.'] + b + seq!['.'] + c;
    assert forall|i: int| 0 <= i < n.len() implies n[i] != '-' by {
        if i < a.len() {
            assert(n[i] == a[i]);
            assert(is_digit(a[i]));
        } else if i == a.len() {
        } else if i < a.len() + 1 + b.len() {
            assert(n[i] == b[i - a.len() - 1]);
            assert(is_digit(b[i - a.len() - 1]));
        } else if i == a.len() + 1 + b.len() {
        } else {
            assert(n[i] == c[i - a.len() - 2 - b.len()]);
            assert(is_digit(c[i - a.len() - 2 - b.len()]));
        }
    }
}

proof fn lemma_numbers_split(v: VersionModel)
    ensures
        split_on(
            decimal(v.major as nat) + seq!['.'] + decimal(v.minor as nat) + seq!['.'] + decimal(
                v.patch as nat,
            ),
            '.',
        ) == seq![decimal(v.major as nat), decimal(v.minor as nat), decimal(v.patch as nat)],
{
    let a = decimal(v.major as nat);
    let b = decimal(v.minor as nat);
    let c = decimal(v.patch as nat);
    lemma_decimal_digits(v.major as nat);
    lemma_decimal_digits(v.minor as nat);
    lemma_decimal_digits(v.patch as nat);
    assert(!contains_char(a, '.'));
    assert(!contains_char(b, '.'));
    assert(!contains_char(c, '.'));
    lemma_split_without_sep(a, '.');
    lemma_split_without_sep(b, '.');
    lemma_split_without_sep(c, '.');
    lemma_split_concat(b, '.', c);
    lemma_split_concat(a, '.', b.push('.') + c);
    assert(a + seq!['.'] + b + seq!['.'] + c =~= a.push('.') + (b.push('.') + c));
    assert(seq![a] + (seq![b] + seq![c]) =~= seq![a, b, c]);
}

/// Rendering a version and parsing the text gives the same version back.
pub proof fn lemma_display_parses_back(v: VersionModel)
    ensures
        parse_version(display_version(v)) == Ok::<VersionModel, VersionParseError>(v),
{
    let a = decimal(v.major as nat);
    let b = decimal(v.minor as nat);
    let c = decimal(v.patch as nat);
    let n = a + seq!['.'] + b + seq!['.'] + c;
    let d = display_version(v);
    lemma_no_dash_in_numbers(v);
    lemma_numbers_split(v);
    lemma_decimal_digits(v.major as nat);
    lemma_decimal_digits(v.minor as nat);
    lemma_decimal_digits(v.patch as nat);
    lemma_split_without_sep(n, '-');
    match v.qualifier {
        Some(q) => {
            assert(d =~= n.push('-') + q);
            lemma_split_concat(n, '-', q);
            lemma_split_nonempty(q, '-');
            assert(numeric_part(d) == n);
            assert(d.skip(n.len() as int + 1) =~= q);
        },
        None => {
            assert(d =~= n);
        },
    }
    let fields = split_on(numeric_part(d), '.');
    assert(fields == seq![a, b, c]);
    assert(fields[0] == a && fields[1] == b && fields[2] == c);
    assert(forall|i: int| 0 <= i < fields.len() ==> #[trigger] fields[i].len() != 0);
    assert(forall|i: int| 0 <= i < fields.len() ==> field_fits(#[trigger] fields[i]));
}

/// For every text that parses as a version, rendering the result and
/// parsing again gives the same value.
pub proof fn lemma_version_round_trip(s: Seq<char>)
    requires
        parse_version(s) is Ok,
    ensures
        parse_version(display_version(parse_version(s)->Ok_0)) == parse_version(s),
{
    lemma_display_parses_back(parse_version(s)->Ok_0);
}

/// A release sorts after every qualified version with the same numbers:
/// `s` parses without a qualifier, and `s-q` parses to a version below it.
pub proof fn lemma_release_after_prerelease(s: Seq<char>, q: Seq<char>)
    requires
        parse_version(s) is Ok,
        parse_version(s)->Ok_0.qualifier is None,
    ensures
        parse_version(s + seq!['-'] + q) is Ok,
        version_cmp(parse_version(s)->Ok_0, parse_version(s + seq!['-'] + q)->Ok_0)
            == core::cmp::Ordering::Greater,
{
    if contains_char(s, '-') {
        lemma_contains_splits(s, '-');
    }
    assert(!contains_char(s, '-'));
    lemma_split_without_sep(s, '-');
    let t = s + seq!['-'] + q;
    assert(forall|j: int| 0 <= j < s.len() ==> t[j] == s[j]);
    assert(t[s.len() as int] == '-');
    lemma_first_dash(t, s.len() as int);
    assert(t.take(s.len() as int) =~= s);
    assert(t.skip(s.len() as int + 1) =~= q);
}

impl MavenVersion {
    /// Parses `major[.minor[.patch]][-qualifier]`; missing fields are zero.
    pub fn parse(text: &str) -> (r: Result<MavenVersion, VersionParseError>)
        ensures
            match r {
                Ok(v) => parse_version(text@) == Ok::<VersionModel, VersionParseError>(v@),
                Err(e) => parse_version(text@) == Err::<VersionModel, VersionParseError>(e),
            },
    {
        let n = text.unicode_len();
        let k = find_char(text, '-');
        proof {
            lemma_first_dash(text@, k as int);
        }
        let numeric = text.substring_char(0, k);
        let qualifier = if k < n {
            Some(String::from_str(text.substring_char(k + 1, n)))
        } else {
            None
        };
        let fields = split_char(numeric, '.');
        let ghost spec_fields = split_on(numeric_part(text@), '.');
        assert(numeric@ == numeric_part(text@));
        if fields.len() > 3 {
            return Err(VersionParseError::InvalidFormat);
        }
        let mut i: usize = 0;
        while i < fields.len()
            invariant
                spec_fields == split_on(numeric_part(text@), '.'),
                fields@.len() == spec_fields.len(),
                forall|k: int| 0 <= k < fields@.len() ==> #[trigger] fields@[k]@ == spec_fields[k],
                i <= fields@.len(),
                forall|k: int| 0 <= k < i ==> #[trigger] spec_fields[k].len() != 0,
            decreases fields@.len() - i,
        {
            if fields[i].unicode_len() == 0 {
                assert(fields@[i as int]@ == spec_fields[i as int]);
                assert(spec_fields[i as int].len() == 0);
                return Err(VersionParseError::InvalidFormat);
            }
            i = i + 1;
        }
        let mut values: Vec<u32> = Vec::new();
        let mut i: usize = 0;
        while i < fields.len()
            invariant
                spec_fields == split_on(numeric_part(text@), '.'),
                fields@.len() == spec_fields.len(),
                fields@.len() <= 3,
                forall|k: int| 0 <= k < fields@.len() ==> #[trigger] fields@[k]@ == spec_fields[k],
                i <= fields@.len(),
                values@.len() == i,
                forall|k: int| 0 <= k < fields@.len() ==> #[trigger] spec_fields[k].len() != 0,
                forall|k: int| 0 <= k < i ==> field_fits(#[trigger] spec_fields[k]),
                forall|k: int| 0 <= k < i ==> #[trigger] values@[k] == decimal_value(spec_fields[k]),
            decreases fields@.len() - i,
        {
            match parse_u32(fields[i]) {
                Some(v) => {
                    values.push(v);
                },
                None => {
                    assert(fields@[i as int]@ == spec_fields[i as int]);
                    assert(spec_fields[i as int].len() != 0);
                    assert(!field_fits(spec_fields[i as int]));
                    return Err(VersionParseError::InvalidNumber);
                },
            }
            i = i + 1;
        }
        proof {
            lemma_split_nonempty(numeric_part(text@), '.');
        }
        let major = values[0];
        let minor = if values.len() > 1 {
            values[1]
        } else {
            0
        };
        let patch = if values.len() > 2 {
            values[2]
        } else {
            0
        };
        Ok(MavenVersion { major, minor, patch, qualifier })
    }

    /// The canonical text of this version.
    pub fn to_string(&self) -> (r: String)
        ensures
            r@ == display_version(self@),
    {
        let mut out = String::new();
        push_decimal(&mut out, self.major);
        out.append(".");
        push_decimal(&mut out, self.minor);
        out.append(".");
        push_decimal(&mut out, self.patch);
        proof {
            reveal_strlit(".");
            reveal_strlit("-");
        }
        match &self.qualifier {
            Some(q) => {
                out.append("-");
                out.append(q.as_str());
            },
            None => {},
        }
        assert(out@ =~= display_version(self@));
        out
    }

    /// Compares two versions under the version order.
    pub fn compare(&self, other: &MavenVersion) -> (r: core::cmp::Ordering)
        ensures
            r == version_cmp(self@, other@),
    {
        if self.major != other.major {
            if self.major < other.major {
                core::cmp::Ordering::Less
            } else {
                core::cmp::Ordering::Greater
            }
        } else if self.minor != other.minor {
            if self.minor < other.minor {
                core::cmp::Ordering::Less
            } else {
                core::cmp::Ordering::Greater
            }
        } else if self.patch != other.patch {
            if self.patch < other.patch {
                core::cmp::Ordering::Less
            } else {
                core::cmp::Ordering::Greater
            }
        } else {
            match (&self.qualifier, &other.qualifier) {
                (None, None) => core::cmp::Ordering::Equal,
                (Some(_), None) => core::cmp::Ordering::Less,
                (None, Some(_)) => core::cmp::Ordering::Greater,
                (Some(x), Some(y)) => compare_text(x.as_str(), y.as_str()),
            }
        }
    }

    /// Whether the two versions are the same.
    pub fn same_as(&self, other: &MavenVersion) -> (r: bool)
        ensures
            r == (self@ == other@),
    {
        if self.major != other.major || self.minor != other.minor || self.patch != other.patch {
            return false;
        }
        match (&self.qualifier, &other.qualifier) {
            (None, None) => true,
            (Some(x), Some(y)) => {
                *x == *y
            },
            _ => false,
        }
    }
}

impl Clone for MavenVersion {
    fn clone(&self) -> (r: Self)
        ensures
            r@ == self@,
    {
        let qualifier = match &self.qualifier {
            Some(q) => Some(q.clone()),
            None => None,
        };
        MavenVersion { major: self.major, minor: self.minor, patch: self.patch, qualifier }
    }
}

impl PartialEq for MavenVersion {
    fn eq(&self, other: &MavenVersion) -> (r: bool) {
        self.same_as(other)
    }
}

impl vstd::std_specs::cmp::PartialEqSpecImpl for MavenVersion {
    open spec fn obeys_eq_spec() -> bool {
        true
    }

    open spec fn eq_spec(&self, other: &MavenVersion) -> bool {
        self@ == other@
    }
}

impl PartialOrd for MavenVersion {
    fn partial_cmp(&self, other: &MavenVersion) -> (r: Option<core::cmp::Ordering>) {
        Some(self.compare(other))
    }
}

impl vstd::std_specs::cmp::PartialOrdSpecImpl for MavenVersion {
    open spec fn obeys_partial_cmp_spec() -> bool {
        true
    }

    open spec fn partial_cmp_spec(&self, other: &MavenVersion) -> Option<core::cmp::Ordering> {
        Some(version_cmp(self@, other@))
    }
}

/// Why a version requirement was refused.
#[derive(Debug, Clone, Copy, PartialEq, Eq, Structural)]
pub enum VersionReqError {
    /// A range opens with `[` or `(` but does not close with `]` or `)`.
    MissingClosingBracket,
    /// A range does not hold exactly two bounds separated by one comma.
    WrongBoundCount,
    /// A bound of a range is not a version.
    InvalidBound(VersionParseError),
    /// A requirement that is neither a sentinel nor a range is not a version.
    InvalidVersion(VersionParseError),
}

/// A constraint on the versions of one coordinate.
#[derive(Debug)]
pub enum VersionReq {
    Exact(MavenVersion),
    Range {
        min: Option<MavenVersion>,
        min_inclusive: bool,
        max: Option<MavenVersion>,
        max_inclusive: bool,
    },
    /// Any version, pre-releases included.
    Latest,
    /// Any version without a qualifier.
    Release,
}

/// The mathematical value of a [`VersionReq`].
pub enum ReqModel {
    Exact(VersionModel),
    Range {
        min: Option<VersionModel>,
        min_inclusive: bool,
        max: Option<VersionModel>,
        max_inclusive: bool,
    },
    Latest,
    Release,
}

pub open spec fn opt_version(o: Option<MavenVersion>) -> Option<VersionModel> {
    match o {
        Some(v) => Some(v@),
        None => None,
    }
}

impl View for VersionReq {
    type V = ReqModel;

    open spec fn view(&self) -> ReqModel {
        match self {
            VersionReq::Exact(v) => ReqModel::Exact(v@),
            VersionReq::Range { min, min_inclusive, max, max_inclusive } => ReqModel::Range {
                min: opt_version(*min),
                min_inclusive: *min_inclusive,
                max: opt_version(*max),
                max_inclusive: *max_inclusive,
            },
            VersionReq::Latest => ReqModel::Latest,
            VersionReq::Release => ReqModel::Release,
        }
    }
}

pub open spec fn latest_word() -> Seq<char> {
    seq!['L', 'A', 'T', 'E', 'S', 'T']
}

pub open spec fn release_word() -> Seq<char> {
    seq!['R', 'E', 'L', 'E', 'A', 'S', 'E']
}

/// What one bound of a range yields: absent when blank, else a version.
pub open spec fn parse_bound(p: Seq<char>) -> Result<Option<VersionModel>, VersionParseError> {
    let t = trim_blanks(p);
    if t.len() == 0 {
        Ok(None)
    } else {
        match parse_version(t) {
            Ok(v) => Ok(Some(v)),
            Err(e) => Err(e),
        }
    }
}

pub open spec fn opens_range(s: Seq<char>) -> bool {
    s.len() > 0 && (s[0] == '[' || s[0] == '(')
}

pub open spec fn closes_range(s: Seq<char>) -> bool {
    s.len() >= 2 && (s.last() == ']' || s.last() == ')')
}

/// What parsing a requirement yields: a sentinel word (after trimming
/// White_Space and upper-casing), a bracket range, or else an exact version.
pub open spec fn parse_req(s: Seq<char>) -> Result<ReqModel, VersionReqError> {
    parse_req_folded(s, upper_of(trim_blanks(s)))
}

/// The upper-case form of `s`, as `str::to_uppercase` gives it.
pub uninterp spec fn upper_of(s: Seq<char>) -> Seq<char>;

/// Relies on `str::to_uppercase`: the upper-case form, which depends on the
/// characters alone.
#[verifier::external_body]
fn to_upper(s: &str) -> (r: String)
    ensures
        r@ == upper_of(s@),
{
    s.to_uppercase()
}

/// What parsing `s` yields when its trimmed upper-case form is `folded`.
pub open spec fn parse_req_folded(s: Seq<char>, folded: Seq<char>) -> Result<ReqModel, VersionReqError> {
    if folded == latest_word() {
        Ok(ReqModel::Latest)
    } else if folded == release_word() {
        Ok(ReqModel::Release)
    } else if opens_range(s) {
        if !closes_range(s) {
            Err(VersionReqError::MissingClosingBracket)
        } else {
            let parts = split_on(s.subrange(1, s.len() - 1), ',');
            if parts.len() != 2 {
                Err(VersionReqError::WrongBoundCount)
            } else {
                match (parse_bound(parts[0]), parse_bound(parts[1])) {
                    (Err(e), _) => Err(VersionReqError::InvalidBound(e)),
                    (Ok(_), Err(e)) => Err(VersionReqError::InvalidBound(e)),
                    (Ok(lo), Ok(hi)) => Ok(
                        ReqModel::Range {
                            min: lo,
                            min_inclusive: s[0] == '[',
                            max: hi,
                            max_inclusive: s.last() == ']',
                        },
                    ),
                }
            }
        }
    } else {
        match parse_version(s) {
            Ok(v) => Ok(ReqModel::Exact(v)),
            Err(e) => Err(VersionReqError::InvalidVersion(e)),
        }
    }
}

/// Whether version `v` meets requirement `r`.
pub open spec fn req_matches(r: ReqModel, v: VersionModel) -> bool {
    match r {
        ReqModel::Exact(w) => v == w,
        ReqModel::Range { min, min_inclusive, max, max_inclusive } => {
            &&& match min {
                None => true,
                Some(m) => if min_inclusive {
                    version_cmp(v, m) != core::cmp::Ordering::Less
                } else {
                    version_cmp(v, m) == core::cmp::Ordering::Greater
                },
            }
            &&& match max {
                None => true,
                Some(m) => if max_inclusive {
                    version_cmp(v, m) != core::cmp::Ordering::Greater
                } else {
                    version_cmp(v, m) == core::cmp::Ordering::Less
                },
            }
        },
        ReqModel::Latest => true,
        ReqModel::Release => v.qualifier is None,
    }
}

fn parse_bound_text(p: &str) -> (r: Result<Option<MavenVersion>, VersionParseError>)
    ensures
        match r {
            Ok(b) => parse_bound(p@) == Ok::<Option<VersionModel>, VersionParseError>(
                opt_version(b),
            ),
            Err(e) => parse_bound(p@) == Err::<Option<VersionModel>, VersionParseError>(e),
        },
{
    let t = trim_text(p);
    if t.unicode_len() == 0 {
        return Ok(None);
    }
    match MavenVersion::parse(t) {
        Ok(v) => Ok(Some(v)),
        Err(e) => Err(e),
    }
}

impl VersionReq {
    /// Parses `LATEST`, `RELEASE` (in any case, with surrounding
    /// White_Space), a bracket range such as `[1.0,2.0)` or `[1.0,)`, or else
    /// an exact version.
    pub fn parse(input: &str) -> (r: Result<VersionReq, VersionReqError>)
        ensures
            match r {
                Ok(q) => parse_req(input@) == Ok::<ReqModel, VersionReqError>(q@),
                Err(e) => parse_req(input@) == Err::<ReqModel, VersionReqError>(e),
            },
    {
        let folded = to_upper(trim_text(input));
        VersionReq::parse_folded(input, folded.as_str())
    }

    /// Parses `input` given `folded`, the upper-case form of its trimmed text.
    pub fn parse_folded(input: &str, folded: &str) -> (r: Result<VersionReq, VersionReqError>)
        ensures
            match r {
                Ok(q) => parse_req_folded(input@, folded@) == Ok::<ReqModel, VersionReqError>(q@),
                Err(e) => parse_req_folded(input@, folded@) == Err::<ReqModel, VersionReqError>(e),
            },
    {
        proof {
            reveal_strlit("LATEST");
            reveal_strlit("RELEASE");
        }
        assert("LATEST"@ =~= latest_word());
        assert("RELEASE"@ =~= release_word());
        if same_text(folded, "LATEST") {
            return Ok(VersionReq::Latest);
        }
        if same_text(folded, "RELEASE") {
            return Ok(VersionReq::Release);
        }
        let n = input.unicode_len();
        if n > 0 && (input.get_char(0) == '[' || input.get_char(0) == '(') {
            let last = input.get_char(n - 1);
            if n < 2 || !(last == ']' || last == ')') {
                return Err(VersionReqError::MissingClosingBracket);
            }
            let min_inclusive = input.get_char(0) == '[';
            let max_inclusive = last == ']';
            let inner = input.substring_char(1, n - 1);
            let parts = split_char(inner, ',');
            if parts.len() != 2 {
                return Err(VersionReqError::WrongBoundCount);
            }
            let min = match parse_bound_text(parts[0]) {
                Ok(b) => b,
                Err(e) => {
                    return Err(VersionReqError::InvalidBound(e));
                },
            };
            let max = match parse_bound_text(parts[1]) {
                Ok(b) => b,
                Err(e) => {
                    return Err(VersionReqError::InvalidBound(e));
                },
            };
            return Ok(VersionReq::Range { min, min_inclusive, max, max_inclusive });
        }
        match MavenVersion::parse(input) {
            Ok(v) => Ok(VersionReq::Exact(v)),
            Err(e) => Err(VersionReqError::InvalidVersion(e)),
        }
    }

    /// Whether `version` meets this requirement.
    pub fn matches(&self, version: &MavenVersion) -> (r: bool)
        ensures
            r == req_matches(self@, version@),
    {
        match self {
            VersionReq::Exact(req) => req.same_as(version),
            VersionReq::Range { min, min_inclusive, max, max_inclusive } => {
                let meets_min = match min {
                    None => true,
                    Some(m) => {
                        let o = version.compare(m);
                        if *min_inclusive {
                            !matches!(o, core::cmp::Ordering::Less)
                        } else {
                            matches!(o, core::cmp::Ordering::Greater)
                        }
                    },
                };
                let meets_max = match max {
                    None => true,
                    Some(m) => {
                        let o = version.compare(m);
                        if *max_inclusive {
                            !matches!(o, core::cmp::Ordering::Greater)
                        } else {
                            matches!(o, core::cmp::Ordering::Less)
                        }
                    },
                };
                meets_min && meets_max
            },
            VersionReq::Latest => true,
            VersionReq::Release => version.qualifier.is_none(),
        }
    }
}

impl Clone for VersionReq {
    fn clone(&self) -> (r: Self)
        ensures
            r@ == self@,
    {
        match self {
            VersionReq::Exact(v) => VersionReq::Exact(v.clone()),
            VersionReq::Range { min, min_inclusive, max, max_inclusive } => {
                let lo = match min {
                    Some(m) => Some(m.clone()),
                    None => None,
                };
                let hi = match max {
                    Some(m) => Some(m.clone()),
                    None => None,
                };
                VersionReq::Range {
                    min: lo,
                    min_inclusive: *min_inclusive,
                    max: hi,
                    max_inclusive: *max_inclusive,
                }
            },
            VersionReq::Latest => VersionReq::Latest,
            VersionReq::Release => VersionReq::Release,
        }
    }
}

impl core::str::FromStr for MavenVersion {
    type Err = VersionParseError;

    fn from_str(s: &str) -> Result<MavenVersion, VersionParseError> {
        MavenVersion::parse(s)
    }
}

impl core::str::FromStr for VersionReq {
    type Err = VersionReqError;

    fn from_str(s: &str) -> Result<VersionReq, VersionReqError> {
        VersionReq::parse(s)
    }
}

} // verus!
