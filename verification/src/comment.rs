//! Comment idioms by file extension, and the two line annotations built on them.

use crate::text::{
    chars_eq, find_last, last_index, lemma_last_index_bounds, lower, sub_vec, to_chars, to_lower,
};
use vstd::prelude::*;

verus! {

/// How a removed or an added line is marked in an annotated file.
#[derive(Debug)]
pub enum CommentStyle {
    LinePrefix { prefix: String, new_suffix: String },
    Block { open: String, close: String, new_block: String },
}

/// A comment style over plain character sequences.
pub enum StyleModel {
    LinePrefix { prefix: Seq<char>, new_suffix: Seq<char> },
    Block { open: Seq<char>, close: Seq<char>, new_block: Seq<char> },
}

impl View for CommentStyle {
    type V = StyleModel;

    open spec fn view(&self) -> StyleModel {
        match self {
            CommentStyle::LinePrefix { prefix, new_suffix } => StyleModel::LinePrefix {
                prefix: prefix@,
                new_suffix: new_suffix@,
            },
            CommentStyle::Block { open, close, new_block } => StyleModel::Block {
                open: open@,
                close: close@,
                new_block: new_block@,
            },
        }
    }
}

/// Whether `line` ends in a line feed.
pub open spec fn has_newline(line: Seq<char>) -> bool {
    line.len() > 0 && line.last() == '\n'
}

/// `line` without its final line feed, if it has one.
pub open spec fn line_content(line: Seq<char>) -> Seq<char> {
    if has_newline(line) {
        line.drop_last()
    } else {
        line
    }
}

/// The final line feed of `line`, or nothing.
pub open spec fn line_end(line: Seq<char>) -> Seq<char> {
    if has_newline(line) {
        seq!['\n']
    } else {
        Seq::empty()
    }
}

/// The annotated form of a line that was removed.
pub open spec fn deleted_form(style: StyleModel, line: Seq<char>) -> Seq<char> {
    match style {
        StyleModel::LinePrefix { prefix, .. } => prefix + "DELETED: "@ + line_content(line)
            + line_end(line),
        StyleModel::Block { open, close, .. } => open + " DELETED: "@ + line_content(line) + " "@
            + close + line_end(line),
    }
}

/// The annotated form of a line that was added.
pub open spec fn inserted_form(style: StyleModel, line: Seq<char>) -> Seq<char> {
    match style {
        StyleModel::LinePrefix { new_suffix, .. } => line_content(line) + new_suffix + line_end(
            line,
        ),
        StyleModel::Block { new_block, .. } => line_content(line) + new_block + line_end(line),
    }
}

/// Splits a line into its content and its final line feed (or nothing).
pub fn split_newline(s: &str) -> (parts: (&str, &str))
    ensures
        parts.0@ == line_content(s@),
        parts.1@ == line_end(s@),
{
    let n = s.unicode_len();
    if n > 0 && s.get_char(n - 1) == '\n' {
        proof {
            reveal_strlit("\n");
            assert("\n"@ =~= seq!['\n']);
            assert(s@.subrange(0, n - 1) =~= s@.drop_last());
        }
        (s.substring_char(0, n - 1), "\n")
    } else {
        proof {
            reveal_strlit("");
            assert(""@ =~= Seq::<char>::empty());
        }
        (s, "")
    }
}

impl CommentStyle {
    /// Marks `line` as removed, keeping its final line feed at the very end.
    pub fn deleted_line(&self, line: &str) -> (out: String)
        ensures
            out@ == deleted_form(self@, line@),
    {
        let (content, end) = split_newline(line);
        match self {
            CommentStyle::LinePrefix { prefix, .. } => {
                let mut out = prefix.clone();
                out.append("DELETED: ");
                out.append(content);
                out.append(end);
                out
            },
            CommentStyle::Block { open, close, .. } => {
                let mut out = open.clone();
                out.append(" DELETED: ");
                out.append(content);
                out.append(" ");
                out.append(close.as_str());
                out.append(end);
                out
            },
        }
    }

    /// Marks `line` as added, keeping its final line feed at the very end.
    pub fn append_new_suffix(&self, line: &str) -> (out: String)
        ensures
            out@ == inserted_form(self@, line@),
    {
        let (content, end) = split_newline(line);
        let mut out = String::from_str(content);
        match self {
            CommentStyle::LinePrefix { new_suffix, .. } => {
                out.append(new_suffix.as_str());
            },
            CommentStyle::Block { new_block, .. } => {
                out.append(new_block.as_str());
            },
        }
        out.append(end);
        out
    }
}

/// The last component of a `/`-separated path.
pub open spec fn file_name_of(path: Seq<char>) -> Seq<char> {
    path.subrange(last_index(path, '/') + 1, path.len() as int)
}

/// The extension of a file name: what follows its last dot, where that dot
/// is not the name's first character; nothing otherwise.
pub open spec fn extension_of(name: Seq<char>) -> Seq<char> {
    if last_index(name, '.') > 0 {
        name.subrange(last_index(name, '.') + 1, name.len() as int)
    } else {
        Seq::empty()
    }
}

/// The file name of a `/`-separated path, as characters.
pub fn file_name_chars(path: &Vec<char>) -> (name: Vec<char>)
    ensures
        name@ == file_name_of(path@),
{
    match find_last(path, '/') {
        Some(i) => {
            proof {
                lemma_last_index_bounds(path@, '/');
            }
            assert(i < path.len());
            sub_vec(path, i + 1, path.len())
        },
        None => sub_vec(path, 0, path.len()),
    }
}

/// The extension of a file name, as characters.
pub fn extension_chars(name: &Vec<char>) -> (ext: Vec<char>)
    ensures
        ext@ == extension_of(name@),
{
    match find_last(name, '.') {
        Some(i) => {
            proof {
                lemma_last_index_bounds(name@, '.');
            }
            assert(i < name.len());
            if i > 0 {
                sub_vec(name, i + 1, name.len())
            } else {
                Vec::new()
            }
        },
        None => Vec::new(),
    }
}

/// Extensions of languages with `//` line comments.
pub open spec fn is_slash_ext(e: Seq<char>) -> bool {
    e == "c"@ || e == "h"@ || e == "cpp"@ || e == "hpp"@ || e == "cc"@ || e == "java"@ || e
        == "js"@ || e == "ts"@ || e == "tsx"@ || e == "cs"@ || e == "swift"@ || e == "go"@ || e
        == "kt"@ || e == "kts"@ || e == "scala"@ || e == "dart"@ || e == "php"@ || e == "rs"@
}

/// Extensions of languages with `--` line comments.
pub open spec fn is_dash_ext(e: Seq<char>) -> bool {
    e == "sql"@ || e == "hs"@ || e == "lua"@
}

/// Extensions of languages with `%` line comments.
pub open spec fn is_percent_ext(e: Seq<char>) -> bool {
    e == "tex"@ || e == "m"@
}

/// Extensions of formats with `<!-- -->` block comments.
pub open spec fn is_markup_ext(e: Seq<char>) -> bool {
    e == "html"@ || e == "htm"@ || e == "xml"@ || e == "xhtml"@ || e == "svg"@
}

/// Extensions of formats with `/* */` block comments.
pub open spec fn is_cblock_ext(e: Seq<char>) -> bool {
    e == "css"@ || e == "scss"@ || e == "less"@ || e == "json"@
}

/// The comment style that belongs to a lower-case extension (without its
/// dot). Everything that no other row names, the empty extension included,
/// gets `#` line comments.
pub open spec fn style_of_extension(e: Seq<char>) -> StyleModel {
    if is_slash_ext(e) {
        StyleModel::LinePrefix { prefix: "// "@, new_suffix: " // NEW"@ }
    } else if is_dash_ext(e) {
        StyleModel::LinePrefix { prefix: "-- "@, new_suffix: " -- NEW"@ }
    } else if is_percent_ext(e) {
        StyleModel::LinePrefix { prefix: "% "@, new_suffix: " % NEW"@ }
    } else if e == "ini"@ {
        StyleModel::LinePrefix { prefix: "; "@, new_suffix: " ; NEW"@ }
    } else if is_markup_ext(e) {
        StyleModel::Block { open: "<!--"@, close: "-->"@, new_block: "<!-- NEW -->"@ }
    } else if is_cblock_ext(e) {
        StyleModel::Block { open: "/*"@, close: "*/"@, new_block: "/* NEW */"@ }
    } else {
        StyleModel::LinePrefix { prefix: "# "@, new_suffix: " # NEW"@ }
    }
}

/// The comment style of a path: that of the lower-cased extension of its
/// file name.
pub open spec fn style_of_path(path: Seq<char>) -> StyleModel {
    style_of_extension(lower(extension_of(file_name_of(path))))
}

fn line_style(prefix: &str, new_suffix: &str) -> (style: CommentStyle)
    ensures
        style@ == (StyleModel::LinePrefix { prefix: prefix@, new_suffix: new_suffix@ }),
{
    CommentStyle::LinePrefix {
        prefix: String::from_str(prefix),
        new_suffix: String::from_str(new_suffix),
    }
}

fn block_style(open: &str, close: &str, new_block: &str) -> (style: CommentStyle)
    ensures
        style@ == (StyleModel::Block { open: open@, close: close@, new_block: new_block@ }),
{
    CommentStyle::Block {
        open: String::from_str(open),
        close: String::from_str(close),
        new_block: String::from_str(new_block),
    }
}

/// The comment style for the file at `path` (components separated by `/`),
/// chosen by its extension without regard to case.
pub fn comment_style_for(path: &str) -> (style: CommentStyle)
    ensures
        style@ == style_of_path(path@),
{
    let chars = to_chars(path);
    let name = file_name_chars(&chars);
    let raw = extension_chars(&name);
    let e = to_lower(&raw);
    if chars_eq(&e, "c") || chars_eq(&e, "h") || chars_eq(&e, "cpp") || chars_eq(&e, "hpp")
        || chars_eq(&e, "cc") || chars_eq(&e, "java") || chars_eq(&e, "js") || chars_eq(&e, "ts")
        || chars_eq(&e, "tsx") || chars_eq(&e, "cs") || chars_eq(&e, "swift") || chars_eq(
        &e,
        "go",
    ) || chars_eq(&e, "kt") || chars_eq(&e, "kts") || chars_eq(&e, "scala") || chars_eq(
        &e,
        "dart",
    ) || chars_eq(&e, "php") || chars_eq(&e, "rs") {
        line_style("// ", " // NEW")
    } else if chars_eq(&e, "sql") || chars_eq(&e, "hs") || chars_eq(&e, "lua") {
        line_style("-- ", " -- NEW")
    } else if chars_eq(&e, "tex") || chars_eq(&e, "m") {
        line_style("% ", " % NEW")
    } else if chars_eq(&e, "ini") {
        line_style("; ", " ; NEW")
    } else if chars_eq(&e, "html") || chars_eq(&e, "htm") || chars_eq(&e, "xml") || chars_eq(
        &e,
        "xhtml",
    ) || chars_eq(&e, "svg") {
        block_style("<!--", "-->", "<!-- NEW -->")
    } else if chars_eq(&e, "css") || chars_eq(&e, "scss") || chars_eq(&e, "less") || chars_eq(
        &e,
        "json",
    ) {
        block_style("/*", "*/", "/* NEW */")
    } else {
        line_style("# ", " # NEW")
    }
}

} // verus!
