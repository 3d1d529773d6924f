//! The few HTML pieces that a listing of memos is built from.
use vstd::prelude::*;
use crate::error::MemoError;
use crate::pattern::{regex_compiles, regex_replace_all, Pattern};
use crate::text::{replace_char, replace_char_text, trim_white, trim_white_text};

verus! {

/// Builders of HTML text.
pub struct Html;

pub open spec fn h1_html(s: Seq<char>) -> Seq<char> {
    "<H1>"@ + s + "</H1>"@
}

pub open spec fn link_html(title: Seq<char>, link: Seq<char>) -> Seq<char> {
    "<a href="@ + link + ">"@ + title + "</a>"@
}

/// One list item, its line breaks turned into `<br>`.
pub open spec fn item_html(s: Seq<char>) -> Seq<char> {
    "<li>"@ + replace_char(s, '\n', "<br>"@) + "</li>\n"@
}

pub open spec fn items_html(items: Seq<Seq<char>>) -> Seq<char>
    decreases items.len(),
{
    if items.len() == 0 {
        Seq::empty()
    } else {
        items_html(items.drop_last()) + item_html(items.last())
    }
}

pub open spec fn list_html(items: Seq<Seq<char>>) -> Seq<char> {
    "<ul>\n"@ + items_html(items) + "</ul>\n"@
}

/// What an HTML tag looks like to `clear_html_tags`.
pub open spec fn html_tag_pattern() -> Seq<char> {
    "<[a-z|A-Z|0-9|/|:|_|^|-|%|&| |.|=]+>"@
}

pub open spec fn spaces_pattern() -> Seq<char> {
    " +"@
}

/// `s` with its HTML tags removed and trimmed, then each run of spaces made
/// one space and trimmed again.
pub open spec fn cleared(s: Seq<char>) -> Seq<char> {
    let bare = trim_white(regex_replace_all(html_tag_pattern(), false, s, ""@));
    trim_white(regex_replace_all(spaces_pattern(), false, bare, " "@))
}

impl Html {
    /// `<H1>s</H1>`
    pub fn h1(s: &str) -> (r: String)
        ensures
            r@ == h1_html(s@),
    {
        let mut r = String::from_str("<H1>");
        r.append(s);
        r.append("</H1>");
        r
    }

    /// `<a href=link>title</a>`
    pub fn link(title: &str, link: &str) -> (r: String)
        ensures
            r@ == link_html(title@, link@),
    {
        let mut r = String::from_str("<a href=");
        r.append(link);
        r.append(">");
        r.append(title);
        r.append("</a>");
        r
    }

    /// An unordered list with one item per entry, one line each.
    pub fn list(entries: Vec<&str>) -> (r: String)
        ensures
            r@ == list_html(entries@.map_values(|e: &str| e@)),
    {
        let ghost items = entries@.map_values(|e: &str| e@);
        let mut r = String::from_str("<ul>\n");
        let mut i: usize = 0;
        while i < entries.len()
            invariant
                i <= entries@.len(),
                items == entries@.map_values(|e: &str| e@),
                r@ == "<ul>\n"@ + items_html(items.subrange(0, i as int)),
            decreases entries@.len() - i,
        {
            let line = replace_char_text(entries[i], '\n', "<br>");
            r.append("<li>");
            r.append(line.as_str());
            r.append("</li>\n");
            assert(items.subrange(0, i + 1).drop_last() =~= items.subrange(0, i as int));
            assert(items.subrange(0, i + 1).last() == entries@[i as int]@);
            assert(r@ =~= "<ul>\n"@ + items_html(items.subrange(0, i + 1)));
            i += 1;
        }
        r.append("</ul>\n");
        assert(items.subrange(0, i as int) =~= items);
        r
    }

    /// `orig` without its HTML tags and with runs of spaces made single.
    /// Fails with `InvalidValue` only where one of its two fixed patterns
    /// would not compile.
    pub fn clear_html_tags(orig: &str) -> (r: Result<String, MemoError>)
        ensures
            r is Ok <==> (regex_compiles(html_tag_pattern(), false) && regex_compiles(
                spaces_pattern(),
                false,
            )),
            r matches Ok(s) ==> s@ == cleared(orig@),
            r matches Err(e) ==> e == MemoError::InvalidValue,
    {
        let tags = match Pattern::new("<[a-z|A-Z|0-9|/|:|_|^|-|%|&| |.|=]+>", false) {
            Ok(p) => p,
            Err(e) => return Err(e),
        };
        let spaces = match Pattern::new(" +", false) {
            Ok(p) => p,
            Err(e) => return Err(e),
        };
        let bare = tags.replace_all(orig, "");
        let bare = trim_white_text(bare.as_str());
        let single = spaces.replace_all(bare, " ");
        let single = trim_white_text(single.as_str());
        Ok(String::from_str(single))
    }
}

} // verus!
