//! One memo: its title, tags, body, creation time and path.
use vstd::prelude::*;
use crate::error::MemoError;
use crate::filename::{decode_name, display_time, FileName, FileNameView};
use crate::pattern::{regex_compiles, regex_is_match, Pattern};
use crate::text::{join_text, join_with, trim_white, trim_white_text};

verus! {

/// How a search key is matched.
#[derive(Debug, Clone, Copy, PartialEq, Eq, Structural)]
pub struct MatchCondition {
    /// Match regardless of letter case.
    pub ignore_case: bool,
    /// Match the key as a whole word only.
    pub match_word: bool,
}

/// What a `MemoEntry` holds.
pub struct MemoEntryView {
    pub title: Seq<char>,
    pub body: Seq<char>,
    pub tags: Seq<Seq<char>>,
    pub name: FileNameView,
    pub full_path: Seq<char>,
}

/// One memo file, read into its parts.
#[derive(Debug)]
pub struct MemoEntry {
    title: String,
    body: String,
    tags: Vec<String>,
    name: FileName,
    full_path: String,
}

impl View for MemoEntry {
    type V = MemoEntryView;

    closed spec fn view(&self) -> MemoEntryView {
        MemoEntryView {
            title: self.title@,
            body: self.body@,
            tags: self.tags@.map_values(|t: String| t@),
            name: self.name@,
            full_path: self.full_path@,
        }
    }
}

/// A character allowed between the brackets of a tag.
pub open spec fn is_tag_char(c: char) -> bool {
    ('a' <= c && c <= 'z') || ('A' <= c && c <= 'Z') || ('0' <= c && c <= '9') || c == '_' || c
        == '-'
}

/// How many tag characters follow from position `i` on.
pub open spec fn tag_run(s: Seq<char>, i: int) -> int
    decreases s.len() - i,
{
    if 0 <= i < s.len() && is_tag_char(s[i]) {
        1 + tag_run(s, i + 1)
    } else {
        0
    }
}

/// Whether a tag `[...]` starts at position `i`.
pub open spec fn tag_at(s: Seq<char>, i: int) -> bool {
    let k = tag_run(s, i + 1);
    &&& 0 <= i < s.len()
    &&& s[i] == '['
    &&& k >= 1
    &&& i + 1 + k < s.len()
    &&& s[i + 1 + k] == ']'
}

/// The tags of `s` from position `i` on: each `[` followed by one or more tag
/// characters and `]`, leftmost first, brackets kept, none overlapping.
pub open spec fn tags_from(s: Seq<char>, i: int) -> Seq<Seq<char>>
    decreases s.len() - i,
{
    if i < 0 || i >= s.len() {
        Seq::empty()
    } else if tag_at(s, i) {
        let e = i + 2 + tag_run(s, i + 1);
        seq![s.subrange(i, e)] + tags_from(s, e)
    } else {
        tags_from(s, i + 1)
    }
}

/// The tags of a title.
pub open spec fn tags_in(title: Seq<char>) -> Seq<Seq<char>> {
    tags_from(title, 0)
}

/// Where the first line of `s` ends: its first `\n` at or after `i`, or its end.
pub open spec fn line_end(s: Seq<char>, i: int) -> int
    decreases s.len() - i,
{
    if i >= s.len() || s[i] == '\n' {
        i
    } else {
        line_end(s, i + 1)
    }
}

/// The title of a memo's text: its first line without the newline.
pub open spec fn title_of(text: Seq<char>) -> Seq<char> {
    text.subrange(0, line_end(text, 0))
}

/// The body of a memo's text: everything after the first line.
pub open spec fn body_of(text: Seq<char>) -> Seq<char> {
    let k = line_end(text, 0);
    if k < text.len() {
        text.subrange(k + 1, text.len() as int)
    } else {
        Seq::empty()
    }
}

/// What loading the memo file `path` with contents `text` and canonical path
/// `full_path` gives: `InvalidValue` for a name that does not decode,
/// `Unexpected` for a title that is blank once trimmed.
pub open spec fn parse_result(path: Seq<char>, text: Seq<char>, full_path: Seq<char>) -> Result<
    MemoEntryView,
    MemoError,
> {
    match decode_name(path) {
        None => Err(MemoError::InvalidValue),
        Some(name) => if trim_white(title_of(text)).len() == 0 {
            Err(MemoError::Unexpected)
        } else {
            Ok(
                MemoEntryView {
                    title: title_of(text),
                    body: body_of(text),
                    tags: tags_in(title_of(text)),
                    name,
                    full_path,
                },
            )
        },
    }
}

/// The regular expression a key stands for: bounded by `\b` on both sides
/// when whole words are asked for.
pub open spec fn key_pattern(key: Seq<char>, condition: MatchCondition) -> Seq<char> {
    if condition.match_word {
        seq!['\\', 'b'] + key + seq!['\\', 'b']
    } else {
        key
    }
}

/// The text of a tag without its brackets.
pub open spec fn tag_text(t: Seq<char>) -> Seq<char> {
    if t.len() >= 2 {
        t.subrange(1, t.len() - 1)
    } else {
        t
    }
}

/// Whether some tag of the entry matches the compiled pattern.
pub open spec fn tag_matches(e: MemoEntryView, pattern: Seq<char>, ignore_case: bool) -> bool {
    exists|i: int| 0 <= i < e.tags.len() && regex_is_match(pattern, ignore_case, tag_text(e.tags[i]))
}

/// Whether the title or the body of the entry matches the compiled pattern.
pub open spec fn content_matches(e: MemoEntryView, pattern: Seq<char>, ignore_case: bool) -> bool {
    regex_is_match(pattern, ignore_case, e.title) || regex_is_match(pattern, ignore_case, e.body)
}

/// Whether the entry is kept by a search for `key`: on tags only, or on tags,
/// title and body.
pub open spec fn entry_matches(
    e: MemoEntryView,
    key: Seq<char>,
    is_tag: bool,
    condition: MatchCondition,
) -> bool {
    let p = key_pattern(key, condition);
    if is_tag {
        tag_matches(e, p, condition.ignore_case)
    } else {
        tag_matches(e, p, condition.ignore_case) || content_matches(e, p, condition.ignore_case)
    }
}

/// Whether the key of a search compiles.
pub open spec fn key_compiles(key: Seq<char>, condition: MatchCondition) -> bool {
    regex_compiles(key_pattern(key, condition), condition.ignore_case)
}

pub fn is_tag_char_exec(c: char) -> (r: bool)
    ensures
        r == is_tag_char(c),
{
    ('a' <= c && c <= 'z') || ('A' <= c && c <= 'Z') || ('0' <= c && c <= '9') || c == '_' || c
        == '-'
}

/// The tags of `s`, in order, brackets kept.
pub fn scan_tags(s: &str) -> (r: Vec<String>)
    ensures
        r@.map_values(|t: String| t@) == tags_in(s@),
{
    let n = s.unicode_len();
    let mut out: Vec<String> = Vec::new();
    let mut i: usize = 0;
    assert(out@.map_values(|t: String| t@) + tags_from(s@, 0) =~= tags_from(s@, 0));
    while i < n
        invariant
            n == s@.len(),
            i <= n,
            out@.map_values(|t: String| t@) + tags_from(s@, i as int) == tags_from(s@, 0),
        decreases n - i,
    {
        let mut found = false;
        if s.get_char(i) == '[' {
            let mut j: usize = i + 1;
            while j < n && is_tag_char_exec(s.get_char(j))
                invariant
                    i < n,
                    i + 1 <= j <= n,
                    n == s@.len(),
                    tag_run(s@, i + 1) == (j - (i + 1)) + tag_run(s@, j as int),
                decreases n - j,
            {
                j += 1;
            }
            assert(tag_run(s@, j as int) == 0);
            if j > i + 1 && j < n && s.get_char(j) == ']' {
                let ghost before = out@.map_values(|t: String| t@);
                let t = s.substring_char(i, j + 1);
                out.push(String::from_str(t));
                assert(tag_at(s@, i as int));
                assert(out@.map_values(|t: String| t@) =~= before.push(t@));
                assert(before.push(t@) + tags_from(s@, j + 1) =~= before + (seq![t@] + tags_from(
                    s@,
                    j + 1,
                )));
                i = j + 1;
                found = true;
            } else {
                assert(!tag_at(s@, i as int));
            }
        }
        if !found {
            i += 1;
        }
    }
    assert(out@.map_values(|t: String| t@) + tags_from(s@, n as int) =~= out@.map_values(
        |t: String| t@,
    ));
    out
}

/// The regular expression for `key` under `condition`.
pub(crate) fn search_pattern(key: &str, condition: MatchCondition) -> (r: String)
    ensures
        r@ == key_pattern(key@, condition),
{
    if condition.match_word {
        proof {
            reveal_strlit("\\b");
        }
        assert("\\b"@ =~= seq!['\\', 'b']);
        let mut r = String::from_str("\\b");
        r.append(key);
        r.append("\\b");
        r
    } else {
        String::from_str(key)
    }
}

fn tag_text_of(t: &str) -> (r: &str)
    ensures
        r@ == tag_text(t@),
{
    let n = t.unicode_len();
    if n >= 2 {
        t.substring_char(1, n - 1)
    } else {
        t
    }
}

impl MemoEntry {
    /// Reads a memo from its path, its text and its canonical path: the first
    /// line is the title, from which the tags come; the rest is the body.
    pub fn parse(path: &str, text: &str, full_path: &str) -> (r: Result<MemoEntry, MemoError>)
        ensures
            match parse_result(path@, text@, full_path@) {
                Ok(v) => r is Ok && r->Ok_0@ == v,
                Err(e) => r == Err::<MemoEntry, MemoError>(e),
            },
    {
        let name = match FileName::from_file_name(path) {
            Ok(name) => name,
            Err(e) => return Err(e),
        };
        let n = text.unicode_len();
        let mut k: usize = 0;
        while k < n && text.get_char(k) != '\n'
            invariant
                k <= n,
                n == text@.len(),
                line_end(text@, 0) == line_end(text@, k as int),
            decreases n - k,
        {
            k += 1;
        }
        let title = text.substring_char(0, k);
        let body = if k < n {
            text.substring_char(k + 1, n)
        } else {
            text.substring_char(n, n)
        };
        assert(body@ =~= body_of(text@));
        if trim_white_text(title).unicode_len() == 0 {
            return Err(MemoError::Unexpected);
        }
        let tags = scan_tags(title);
        Ok(
            MemoEntry {
                title: String::from_str(title),
                body: String::from_str(body),
                tags,
                name,
                full_path: String::from_str(full_path),
            },
        )
    }

    /// The title line.
    pub fn title(&self) -> (r: &str)
        ensures
            r@ == self@.title,
    {
        self.title.as_str()
    }

    /// The tags joined with single spaces.
    pub fn tags(&self) -> (r: String)
        ensures
            r@ == join_with(self@.tags, seq![' ']),
    {
        proof {
            reveal_strlit(" ");
        }
        assert(" "@ =~= seq![' ']);
        join_text(&self.tags, " ")
    }

    /// The creation time for display, `YYYY/MM/DD HH:MM:SS`.
    pub fn create_time(&self) -> (r: String)
        ensures
            r@ == display_time(self@.name),
    {
        self.name.create_time()
    }

    /// The canonical path of the memo file.
    pub fn full_path(&self) -> (r: &str)
        ensures
            r@ == self@.full_path,
    {
        self.full_path.as_str()
    }

    /// Whether some tag, brackets stripped, matches `p`.
    pub(crate) fn tags_match(&self, p: &Pattern) -> (r: bool)
        ensures
            r == tag_matches(self@, p.source(), p.ignore_case()),
    {
        let mut i: usize = 0;
        while i < self.tags.len()
            invariant
                i <= self.tags@.len(),
                self@.tags == self.tags@.map_values(|t: String| t@),
                forall|j: int|
                    0 <= j < i ==> !regex_is_match(
                        p.source(),
                        p.ignore_case(),
                        tag_text(self@.tags[j]),
                    ),
            decreases self.tags@.len() - i,
        {
            assert(self@.tags[i as int] == self.tags@[i as int]@);
            if p.is_match(tag_text_of(self.tags[i].as_str())) {
                assert(regex_is_match(p.source(), p.ignore_case(), tag_text(self@.tags[i as int])));
                return true;
            }
            i += 1;
        }
        false
    }

    /// Whether the title or the body matches `p`.
    pub(crate) fn content_match(&self, p: &Pattern) -> (r: bool)
        ensures
            r == content_matches(self@, p.source(), p.ignore_case()),
    {
        p.is_match(self.title.as_str()) || p.is_match(self.body.as_str())
    }

    /// Whether the entry is kept by a search with `p`: on tags only, or on
    /// tags, title and body.
    pub(crate) fn pattern_match(&self, p: &Pattern, is_tag: bool) -> (r: bool)
        ensures
            r == if is_tag {
                tag_matches(self@, p.source(), p.ignore_case())
            } else {
                tag_matches(self@, p.source(), p.ignore_case()) || content_matches(
                    self@,
                    p.source(),
                    p.ignore_case(),
                )
            },
    {
        if is_tag {
            self.tags_match(p)
        } else {
            self.tags_match(p) || self.content_match(p)
        }
    }

    /// Whether some tag, brackets stripped, matches `tag` as a regular
    /// expression; fails with `InvalidValue` when it does not compile.
    pub fn match_tag(&self, tag: &str, condition: MatchCondition) -> (r: Result<bool, MemoError>)
        ensures
            r is Ok <==> key_compiles(tag@, condition),
            r matches Ok(b) ==> b == entry_matches(self@, tag@, true, condition),
            r matches Err(e) ==> e == MemoError::InvalidValue,
    {
        let source = search_pattern(tag, condition);
        let p = match Pattern::new(source.as_str(), condition.ignore_case) {
            Ok(p) => p,
            Err(e) => return Err(e),
        };
        Ok(self.tags_match(&p))
    }

    /// Whether the title or the body matches `key` as a regular expression;
    /// fails with `InvalidValue` when it does not compile.
    pub fn match_content(&self, key: &str, condition: MatchCondition) -> (r: Result<
        bool,
        MemoError,
    >)
        ensures
            r is Ok <==> key_compiles(key@, condition),
            r matches Ok(b) ==> b == content_matches(
                self@,
                key_pattern(key@, condition),
                condition.ignore_case,
            ),
            r matches Err(e) ==> e == MemoError::InvalidValue,
    {
        let source = search_pattern(key, condition);
        let p = match Pattern::new(source.as_str(), condition.ignore_case) {
            Ok(p) => p,
            Err(e) => return Err(e),
        };
        Ok(self.content_match(&p))
    }

    /// Whether a tag, the title or the body matches `key`.
    pub fn match_any(&self, key: &str, condition: MatchCondition) -> (r: Result<bool, MemoError>)
        ensures
            r is Ok <==> key_compiles(key@, condition),
            r matches Ok(b) ==> b == entry_matches(self@, key@, false, condition),
            r matches Err(e) ==> e == MemoError::InvalidValue,
    {
        match self.match_tag(key, condition) {
            Ok(true) => Ok(true),
            Ok(false) => self.match_content(key, condition),
            Err(e) => Err(e),
        }
    }
}

impl PartialEq for MemoEntry {
    fn eq(&self, other: &MemoEntry) -> (r: bool) {
        self.full_path == other.full_path
    }
}

impl vstd::std_specs::cmp::PartialEqSpecImpl for MemoEntry {
    open spec fn obeys_eq_spec() -> bool {
        true
    }

    open spec fn eq_spec(&self, other: &MemoEntry) -> bool {
        self@.full_path == other@.full_path
    }
}

} // verus!
