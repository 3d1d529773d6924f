//! The file name of a memo: its creation time and its suffix.
use vstd::prelude::*;
use crate::error::MemoError;
use chrono::{Datelike, Timelike};
use crate::text::{
    decimal, digit_char, find_last, last_index_of, lemma_last_index_absent, lemma_last_index_after,
    lemma_last_index_of, lemma_split_on_field, lemma_split_on_len, lemma_split_on_single,
    pad_zero, pad_zero_text, same_text, signed_decimal, signed_decimal_text, decimal_text,
    split_fields, split_on,
};

verus! {

/// What a `FileName` holds, as character sequences.
pub struct FileNameView {
    pub year: Seq<char>,
    pub month: Seq<char>,
    pub day: Seq<char>,
    pub hour: Seq<char>,
    pub minute: Seq<char>,
    pub second: Seq<char>,
    pub suffix: Seq<char>,
}

/// The creation time of a memo, field by field as text, and its suffix.
#[derive(Debug)]
pub struct FileName {
    year: String,
    month: String,
    day: String,
    hour: String,
    minute: String,
    second: String,
    suffix: String,
}

impl View for FileName {
    type V = FileNameView;

    closed spec fn view(&self) -> FileNameView {
        FileNameView {
            year: self.year@,
            month: self.month@,
            day: self.day@,
            hour: self.hour@,
            minute: self.minute@,
            second: self.second@,
            suffix: self.suffix@,
        }
    }
}

pub open spec fn txt_suffix() -> Seq<char> {
    seq!['t', 'x', 't']
}

pub open spec fn html_suffix() -> Seq<char> {
    seq!['h', 't', 'm', 'l']
}

/// The six time fields joined with `_`.
pub open spec fn encode_stem(v: FileNameView) -> Seq<char> {
    ((((v.year.push('_') + v.month).push('_') + v.day).push('_') + v.hour).push('_')
        + v.minute).push('_') + v.second
}

/// The file name of a memo: `year_month_day_hour_minute_second.suffix`.
pub open spec fn encode_name(v: FileNameView) -> Seq<char> {
    encode_stem(v).push('.') + v.suffix
}

/// `path` without the trailing `/` and the trailing `.` components that
/// follow a `/`: `x/.//` becomes `x`.
pub open spec fn strip_tail(path: Seq<char>) -> Seq<char>
    decreases path.len(),
{
    if path.len() > 0 && path.last() == '/' {
        strip_tail(path.drop_last())
    } else if path.len() >= 2 && path.last() == '.' && path[path.len() - 2] == '/' {
        strip_tail(path.drop_last())
    } else {
        path
    }
}

/// The last component of a path, as `Path::file_name` finds it: trailing
/// `/` and `.` components after a `/` are passed over; none for an empty
/// path, a root, `.` or `..`.
pub open spec fn base_name(path: Seq<char>) -> Option<Seq<char>> {
    let t = strip_tail(path);
    let b = t.subrange(last_index_of(t, '/') + 1, t.len() as int);
    if b.len() == 0 || b == seq!['.'] || b == seq!['.', '.'] {
        None
    } else {
        Some(b)
    }
}

/// A base name split at its last dot into stem and extension; a name whose
/// only dot leads it has no extension.
pub open spec fn split_extension(b: Seq<char>) -> (Seq<char>, Option<Seq<char>>) {
    let i = last_index_of(b, '.');
    if i <= 0 {
        (b, None)
    } else {
        (b.subrange(0, i), Some(b.subrange(i + 1, b.len() as int)))
    }
}

/// What a file name decodes to: the suffix defaults to `txt` and must be
/// `txt` or `html`; the last six `_`-separated pieces of the stem are the
/// time fields, and pieces before them are ignored.
pub open spec fn decode_name(name: Seq<char>) -> Option<FileNameView> {
    match base_name(name) {
        None => None,
        Some(b) => {
            let (stem, ext) = split_extension(b);
            let suffix = match ext {
                Some(e) => e,
                None => txt_suffix(),
            };
            let f = split_on(stem, '_');
            let k = f.len();
            if (suffix != txt_suffix() && suffix != html_suffix()) || k < 6 {
                None
            } else {
                Some(
                    FileNameView {
                        year: f[k - 6],
                        month: f[k - 5],
                        day: f[k - 4],
                        hour: f[k - 3],
                        minute: f[k - 2],
                        second: f[k - 1],
                        suffix,
                    },
                )
            }
        },
    }
}

/// A time field that survives encoding: no `_`, `.` or `/` in it.
pub open spec fn valid_field(f: Seq<char>) -> bool {
    !f.contains('_') && !f.contains('.') && !f.contains('/')
}

pub open spec fn valid_file_name(v: FileNameView) -> bool {
    &&& valid_field(v.year)
    &&& valid_field(v.month)
    &&& valid_field(v.day)
    &&& valid_field(v.hour)
    &&& valid_field(v.minute)
    &&& valid_field(v.second)
    &&& (v.suffix == txt_suffix() || v.suffix == html_suffix())
}

/// The display form `YYYY/MM/DD HH:MM:SS`, each field zero-padded.
pub open spec fn display_time(v: FileNameView) -> Seq<char> {
    pad_zero(v.year, 4) + seq!['/'] + pad_zero(v.month, 2) + seq!['/'] + pad_zero(v.day, 2)
        + seq![' '] + pad_zero(v.hour, 2) + seq![':'] + pad_zero(v.minute, 2) + seq![':']
        + pad_zero(v.second, 2)
}

proof fn lemma_absent_concat(a: Seq<char>, b: Seq<char>, c: char)
    requires
        !a.contains(c),
        !b.contains(c),
    ensures
        !(a + b).contains(c),
{
    if (a + b).contains(c) {
        let j = choose|j: int| 0 <= j < (a + b).len() && (a + b)[j] == c;
        if j < a.len() {
            assert(a[j] == c);
        } else {
            assert(b[j - a.len()] == c);
        }
    }
}

proof fn lemma_absent_push(a: Seq<char>, x: char, c: char)
    requires
        !a.contains(c),
        x != c,
    ensures
        !a.push(x).contains(c),
{
    if a.push(x).contains(c) {
        let j = choose|j: int| 0 <= j < a.push(x).len() && a.push(x)[j] == c;
        if j < a.len() {
            assert(a[j] == c);
        }
    }
}

proof fn lemma_stem_absent(v: FileNameView, c: char)
    requires
        c != '_',
        !v.year.contains(c),
        !v.month.contains(c),
        !v.day.contains(c),
        !v.hour.contains(c),
        !v.minute.contains(c),
        !v.second.contains(c),
    ensures
        !encode_stem(v).contains(c),
{
    lemma_absent_push(v.year, '_', c);
    let s1 = v.year.push('_') + v.month;
    lemma_absent_concat(v.year.push('_'), v.month, c);
    lemma_absent_push(s1, '_', c);
    let s2 = s1.push('_') + v.day;
    lemma_absent_concat(s1.push('_'), v.day, c);
    lemma_absent_push(s2, '_', c);
    let s3 = s2.push('_') + v.hour;
    lemma_absent_concat(s2.push('_'), v.hour, c);
    lemma_absent_push(s3, '_', c);
    let s4 = s3.push('_') + v.minute;
    lemma_absent_concat(s3.push('_'), v.minute, c);
    lemma_absent_push(s4, '_', c);
    lemma_absent_concat(s4.push('_'), v.second, c);
}

proof fn lemma_split_stem(v: FileNameView)
    requires
        valid_file_name(v),
    ensures
        split_on(encode_stem(v), '_') == seq![v.year, v.month, v.day, v.hour, v.minute, v.second],
{
    lemma_split_on_single(v.year, '_');
    let s1 = v.year.push('_') + v.month;
    lemma_split_on_field(v.year, '_', v.month);
    let s2 = s1.push('_') + v.day;
    lemma_split_on_field(s1, '_', v.day);
    let s3 = s2.push('_') + v.hour;
    lemma_split_on_field(s2, '_', v.hour);
    let s4 = s3.push('_') + v.minute;
    lemma_split_on_field(s3, '_', v.minute);
    lemma_split_on_field(s4, '_', v.second);
    assert(seq![v.year].push(v.month).push(v.day).push(v.hour).push(v.minute).push(v.second)
        =~= seq![v.year, v.month, v.day, v.hour, v.minute, v.second]);
}

/// Decoding the name that a valid file name encodes to gives it back, field
/// by field.
pub proof fn lemma_round_trip(v: FileNameView)
    requires
        valid_file_name(v),
    ensures
        decode_name(encode_name(v)) == Some(v),
{
    let stem = encode_stem(v);
    let e = encode_name(v);
    assert(stem.len() >= 5);
    // The name has no `/`, and does not end in one.
    lemma_stem_absent(v, '/');
    assert(!v.suffix.contains('/') && !v.suffix.contains('.')) by {
        if v.suffix == txt_suffix() {
            if v.suffix.contains('/') || v.suffix.contains('.') {
                let j = choose|j: int|
                    0 <= j < v.suffix.len() && (v.suffix[j] == '/' || v.suffix[j] == '.');
                assert(j < 3);
            }
        } else {
            if v.suffix.contains('/') || v.suffix.contains('.') {
                let j = choose|j: int|
                    0 <= j < v.suffix.len() && (v.suffix[j] == '/' || v.suffix[j] == '.');
                assert(j < 4);
            }
        }
    }
    lemma_absent_push(stem, '.', '/');
    lemma_absent_concat(stem.push('.'), v.suffix, '/');
    assert(e.last() == v.suffix.last());
    assert(e.last() != '/');
    assert(e.last() != '.') by {
        assert(v.suffix.len() > 0);
        assert(v.suffix[v.suffix.len() - 1] == e.last());
        if e.last() == '.' {
            assert(v.suffix.contains('.'));
        }
    }
    assert(strip_tail(e) == e);
    lemma_last_index_absent(e, '/');
    assert(e.subrange(0, e.len() as int) =~= e);
    assert(base_name(e) == Some(e));
    // The last dot is the one before the suffix.
    lemma_last_index_after(stem, '.', v.suffix);
    assert(e.subrange(0, stem.len() as int) =~= stem);
    assert(e.subrange(stem.len() as int + 1, e.len() as int) =~= v.suffix);
    assert(split_extension(e) == (stem, Some(v.suffix)));
    lemma_split_stem(v);
}

/// The last component of `path`, as `base_name` states it.
pub fn base_name_of(path: &str) -> (r: Option<&str>)
    ensures
        match base_name(path@) {
            Some(b) => r is Some && r->0@ == b,
            None => r is None,
        },
{
    let n = path.unicode_len();
    let mut end: usize = n;
    assert(path@.subrange(0, n as int) =~= path@);
    while end > 0 && (path.get_char(end - 1) == '/' || (end >= 2 && path.get_char(end - 1)
        == '.' && path.get_char(end - 2) == '/'))
        invariant
            end <= n,
            n == path@.len(),
            strip_tail(path@) == strip_tail(path@.subrange(0, end as int)),
        decreases end,
    {
        assert(path@.subrange(0, end as int).drop_last() =~= path@.subrange(0, end - 1));
        end -= 1;
    }
    let t = path.substring_char(0, end);
    assert(strip_tail(t@) == t@) by {
        if end > 0 {
            assert(t@.last() == path@[end - 1]);
        }
        if end >= 2 {
            assert(t@[t@.len() - 2] == path@[end - 2]);
        }
    }
    proof {
        lemma_last_index_of(t@, '/');
    }
    let start: usize = match find_last(t, '/') {
        Some(i) => i + 1,
        None => 0,
    };
    let b = t.substring_char(start, end);
    proof {
        reveal_strlit(".");
        reveal_strlit("..");
    }
    assert("."@ =~= seq!['.']);
    assert(".."@ =~= seq!['.', '.']);
    if end == start || same_text(b, ".") || same_text(b, "..") {
        None
    } else {
        Some(b)
    }
}

/// The view of a file name made at the given time.
pub open spec fn time_view(
    year: int,
    month: nat,
    day: nat,
    hour: nat,
    minute: nat,
    second: nat,
    html: bool,
) -> FileNameView {
    FileNameView {
        year: signed_decimal(year),
        month: decimal(month),
        day: decimal(day),
        hour: decimal(hour),
        minute: decimal(minute),
        second: decimal(second),
        suffix: if html {
            html_suffix()
        } else {
            txt_suffix()
        },
    }
}

proof fn lemma_decimal_field(n: nat)
    ensures
        valid_field(decimal(n)),
        !decimal(n).contains('-'),
    decreases n,
{
    if n >= 10 {
        lemma_decimal_field(n / 10);
        let d = digit_char(n % 10);
        assert(d != '_' && d != '.' && d != '/' && d != '-');
        lemma_absent_push(decimal(n / 10), d, '_');
        lemma_absent_push(decimal(n / 10), d, '.');
        lemma_absent_push(decimal(n / 10), d, '/');
        lemma_absent_push(decimal(n / 10), d, '-');
    } else {
        let d = digit_char(n);
        assert(d != '_' && d != '.' && d != '/' && d != '-');
        lemma_absent_push(Seq::empty(), d, '_');
        lemma_absent_push(Seq::empty(), d, '.');
        lemma_absent_push(Seq::empty(), d, '/');
        lemma_absent_push(Seq::empty(), d, '-');
        assert(Seq::<char>::empty().push(d) =~= decimal(n));
    }
}

proof fn lemma_signed_decimal_field(n: int)
    ensures
        valid_field(signed_decimal(n)),
{
    if n < 0 {
        lemma_decimal_field((-n) as nat);
        lemma_absent_push(Seq::empty(), '-', '_');
        lemma_absent_push(Seq::empty(), '-', '.');
        lemma_absent_push(Seq::empty(), '-', '/');
        assert(Seq::<char>::empty().push('-') =~= seq!['-']);
        lemma_absent_concat(seq!['-'], decimal((-n) as nat), '_');
        lemma_absent_concat(seq!['-'], decimal((-n) as nat), '.');
        lemma_absent_concat(seq!['-'], decimal((-n) as nat), '/');
    } else {
        lemma_decimal_field(n as nat);
    }
}

/// A file name made from a time has decimal fields, and so round-trips
/// through its encoding.
pub proof fn lemma_time_view_valid(
    year: int,
    month: nat,
    day: nat,
    hour: nat,
    minute: nat,
    second: nat,
    html: bool,
)
    ensures
        valid_file_name(time_view(year, month, day, hour, minute, second, html)),
{
    lemma_signed_decimal_field(year);
    lemma_decimal_field(month);
    lemma_decimal_field(day);
    lemma_decimal_field(hour);
    lemma_decimal_field(minute);
    lemma_decimal_field(second);
}

/// Relies on chrono's `Local::now` and the `Datelike` / `Timelike` getters:
/// the current local year, month (1 to 12), day (1 to 31), hour (0 to 23),
/// minute and second (0 to 59).
#[verifier::external_body]
fn local_now() -> (r: (i32, u32, u32, u32, u32, u32))
    ensures
        1 <= r.1 <= 12,
        1 <= r.2 <= 31,
        r.3 <= 23,
        r.4 <= 59,
        r.5 <= 59,
{
    let now = chrono::Local::now();
    (now.year(), now.month(), now.day(), now.hour(), now.minute(), now.second())
}

impl FileName {
    /// A file name for the given time, each field in decimal without
    /// padding, with suffix `html` or `txt`.
    pub fn from_time(
        year: i32,
        month: u32,
        day: u32,
        hour: u32,
        minute: u32,
        second: u32,
        html: bool,
    ) -> (r: FileName)
        ensures
            r@ == time_view(
                year as int,
                month as nat,
                day as nat,
                hour as nat,
                minute as nat,
                second as nat,
                html,
            ),
    {
        proof {
            reveal_strlit("txt");
            reveal_strlit("html");
        }
        assert("txt"@ =~= txt_suffix());
        assert("html"@ =~= html_suffix());
        let suffix = if html {
            String::from_str("html")
        } else {
            String::from_str("txt")
        };
        FileName {
            year: signed_decimal_text(year as i64),
            month: decimal_text(month as u64),
            day: decimal_text(day as u64),
            hour: decimal_text(hour as u64),
            minute: decimal_text(minute as u64),
            second: decimal_text(second as u64),
            suffix,
        }
    }

    /// A file name for the current local time.
    pub fn create(html: bool) -> (r: FileName)
        ensures
            exists|y: int, mo: nat, d: nat, h: nat, mi: nat, s: nat|
                1 <= mo <= 12 && 1 <= d <= 31 && h <= 23 && mi <= 59 && s <= 59 && r@ == time_view(
                    y,
                    mo,
                    d,
                    h,
                    mi,
                    s,
                    html,
                ),
            valid_file_name(r@),
    {
        let (y, mo, d, h, mi, s) = local_now();
        let r = FileName::from_time(y, mo, d, h, mi, s, html);
        proof {
            lemma_time_view_valid(
                y as int,
                mo as nat,
                d as nat,
                h as nat,
                mi as nat,
                s as nat,
                html,
            );
        }
        r
    }

    /// Decodes a memo's file name. Fails with `InvalidValue` exactly where
    /// `decode_name` has no value: no file name, a suffix other than `txt`
    /// or `html`, or fewer than six `_`-separated fields.
    pub fn from_file_name(name: &str) -> (r: Result<FileName, MemoError>)
        ensures
            match decode_name(name@) {
                Some(v) => r is Ok && r->Ok_0@ == v,
                None => r == Err::<FileName, MemoError>(MemoError::InvalidValue),
            },
    {
        let b = match base_name_of(name) {
            Some(b) => b,
            None => return Err(MemoError::InvalidValue),
        };
        let n = b.unicode_len();
        proof {
            lemma_last_index_of(b@, '.');
        }
        let (stem, ext) = match find_last(b, '.') {
            Some(i) if i > 0 => (b.substring_char(0, i), Some(b.substring_char(i + 1, n))),
            _ => (b, None),
        };
        assert(split_extension(b@) == (stem@, match ext {
            Some(e) => Some(e@),
            None => None::<Seq<char>>,
        }));
        proof {
            reveal_strlit("txt");
            reveal_strlit("html");
        }
        assert("txt"@ =~= txt_suffix());
        assert("html"@ =~= html_suffix());
        let suffix = match ext {
            Some(e) => {
                if !same_text(e, "txt") && !same_text(e, "html") {
                    return Err(MemoError::InvalidValue);
                }
                String::from_str(e)
            },
            None => String::from_str("txt"),
        };
        let fields = split_fields(stem, '_');
        let k = fields.len();
        proof {
            lemma_split_on_len(stem@, '_');
        }
        assert(fields@.map_values(|f: String| f@).len() == fields@.len());
        if k < 6 {
            return Err(MemoError::InvalidValue);
        }
        let r = FileName {
            year: fields[k - 6].clone(),
            month: fields[k - 5].clone(),
            day: fields[k - 4].clone(),
            hour: fields[k - 3].clone(),
            minute: fields[k - 2].clone(),
            second: fields[k - 1].clone(),
            suffix,
        };
        proof {
            let f = fields@.map_values(|f: String| f@);
            assert(f[k - 6] == fields@[k - 6]@);
            assert(f[k - 5] == fields@[k - 5]@);
            assert(f[k - 4] == fields@[k - 4]@);
            assert(f[k - 3] == fields@[k - 3]@);
            assert(f[k - 2] == fields@[k - 2]@);
            assert(f[k - 1] == fields@[k - 1]@);
        }
        Ok(r)
    }

    /// The memo's file name, `year_month_day_hour_minute_second.suffix`,
    /// each field as it stands.
    pub fn file_name(&self) -> (r: String)
        ensures
            r@ == encode_name(self@),
    {
        proof {
            reveal_strlit("_");
            reveal_strlit(".");
        }
        assert("_"@ =~= seq!['_']);
        assert("."@ =~= seq!['.']);
        let mut r = self.year.clone();
        r.append("_");
        r.append(self.month.as_str());
        r.append("_");
        r.append(self.day.as_str());
        r.append("_");
        r.append(self.hour.as_str());
        r.append("_");
        r.append(self.minute.as_str());
        r.append("_");
        r.append(self.second.as_str());
        r.append(".");
        r.append(self.suffix.as_str());
        assert(r@ =~= encode_name(self@));
        r
    }

    /// The creation time for display, `YYYY/MM/DD HH:MM:SS`, zero-padded.
    pub fn create_time(&self) -> (r: String)
        ensures
            r@ == display_time(self@),
    {
        proof {
            reveal_strlit("/");
            reveal_strlit(" ");
            reveal_strlit(":");
        }
        assert("/"@ =~= seq!['/']);
        assert(" "@ =~= seq![' ']);
        assert(":"@ =~= seq![':']);
        let mut r = pad_zero_text(self.year.as_str(), 4);
        r.append("/");
        r.append(pad_zero_text(self.month.as_str(), 2).as_str());
        r.append("/");
        r.append(pad_zero_text(self.day.as_str(), 2).as_str());
        r.append(" ");
        r.append(pad_zero_text(self.hour.as_str(), 2).as_str());
        r.append(":");
        r.append(pad_zero_text(self.minute.as_str(), 2).as_str());
        r.append(":");
        r.append(pad_zero_text(self.second.as_str(), 2).as_str());
        assert(r@ =~= display_time(self@));
        r
    }
}

impl PartialEq for FileName {
    fn eq(&self, other: &FileName) -> (r: bool) {
        self.year == other.year && self.month == other.month && self.day == other.day
            && self.hour == other.hour && self.minute == other.minute && self.second
            == other.second && self.suffix == other.suffix
    }
}

impl vstd::std_specs::cmp::PartialEqSpecImpl for FileName {
    open spec fn obeys_eq_spec() -> bool {
        true
    }

    open spec fn eq_spec(&self, other: &FileName) -> bool {
        self@ == other@
    }
}

} // verus!
