use bigdiff::comment::{comment_style_for, split_newline, CommentStyle};

fn line_style(prefix: &str, new_suffix: &str) -> CommentStyle {
    CommentStyle::LinePrefix { prefix: prefix.to_string(), new_suffix: new_suffix.to_string() }
}

fn block_style(open: &str, close: &str, new_block: &str) -> CommentStyle {
    CommentStyle::Block {
        open: open.to_string(),
        close: close.to_string(),
        new_block: new_block.to_string(),
    }
}

fn assert_line(style: &CommentStyle, prefix: &str, new_suffix: &str) {
    match style {
        CommentStyle::LinePrefix { prefix: p, new_suffix: s } => {
            assert_eq!(p, prefix);
            assert_eq!(s, new_suffix);
        }
        CommentStyle::Block { .. } => panic!("expected a line style"),
    }
}

fn assert_block(style: &CommentStyle, open: &str, close: &str, new_block: &str) {
    match style {
        CommentStyle::Block { open: o, close: c, new_block: n } => {
            assert_eq!(o, open);
            assert_eq!(c, close);
            assert_eq!(n, new_block);
        }
        CommentStyle::LinePrefix { .. } => panic!("expected a block style"),
    }
}

#[test]
fn split_newline_takes_one_line_feed() {
    assert_eq!(split_newline("abc\n"), ("abc", "\n"));
    assert_eq!(split_newline("abc"), ("abc", ""));
    assert_eq!(split_newline(""), ("", ""));
    assert_eq!(split_newline("\n"), ("", "\n"));
    assert_eq!(split_newline("a\n\n"), ("a\n", "\n"));
    assert_eq!(split_newline("a\r\n"), ("a\r", "\n"));
}

#[test]
fn deleted_line_with_line_prefix() {
    let style = line_style("// ", " // NEW");
    assert_eq!(style.deleted_line("let x = 1;\n"), "// DELETED: let x = 1;\n");
    assert_eq!(style.deleted_line("let x = 1;"), "// DELETED: let x = 1;");
    assert_eq!(style.deleted_line(""), "// DELETED: ");
}

#[test]
fn deleted_line_with_block() {
    let style = block_style("<!--", "-->", "<!-- NEW -->");
    assert_eq!(style.deleted_line("<p>\n"), "<!-- DELETED: <p> -->\n");
    assert_eq!(style.deleted_line("<p>"), "<!-- DELETED: <p> -->");
}

#[test]
fn new_suffix_with_line_prefix() {
    let style = line_style("# ", " # NEW");
    assert_eq!(style.append_new_suffix("world\n"), "world # NEW\n");
    assert_eq!(style.append_new_suffix("world"), "world # NEW");
    assert_eq!(style.append_new_suffix("héllo\n"), "héllo # NEW\n");
}

#[test]
fn new_suffix_with_block() {
    let style = block_style("/*", "*/", "/* NEW */");
    assert_eq!(style.append_new_suffix("a { }\n"), "a { }/* NEW */\n");
    assert_eq!(style.append_new_suffix("a { }"), "a { }/* NEW */");
}

#[test]
fn block_marker_follows_the_line_directly() {
    let style = block_style("<!--", "-->", "<!-- NEW -->");
    assert_eq!(style.append_new_suffix("<p>\n"), "<p><!-- NEW -->\n");
    assert_eq!(style.append_new_suffix("<p>"), "<p><!-- NEW -->");
    assert_eq!(style.append_new_suffix("\n"), "<!-- NEW -->\n");
    assert_eq!(comment_style_for("index.html").append_new_suffix("<p>\n"), "<p><!-- NEW -->\n");
    assert_eq!(comment_style_for("a.css").append_new_suffix("b {}\n"), "b {}/* NEW */\n");
}

#[test]
fn annotation_keeps_final_line_without_terminator() {
    let style = line_style("-- ", " -- NEW");
    assert!(!style.deleted_line("x").ends_with('\n'));
    assert!(!style.append_new_suffix("x").ends_with('\n'));
    assert!(style.deleted_line("x\n").ends_with('\n'));
}

#[test]
fn slash_styles() {
    for ext in [
        "c", "h", "cpp", "hpp", "cc", "java", "js", "ts", "tsx", "cs", "swift", "go", "kt", "kts",
        "scala", "dart", "php", "rs",
    ] {
        assert_line(&comment_style_for(&format!("src/main.{ext}")), "// ", " // NEW");
    }
}

#[test]
fn hash_styles() {
    for ext in [
        "py", "sh", "rb", "r", "ps1", "toml", "yaml", "yml", "cfg", "gitignore", "dockerignore",
        "txt", "log", "conf", "md", "csv", "tsv",
    ] {
        assert_line(&comment_style_for(&format!("a/b.{ext}")), "# ", " # NEW");
    }
}

#[test]
fn dash_percent_and_semicolon_styles() {
    for ext in ["sql", "hs", "lua"] {
        assert_line(&comment_style_for(&format!("q.{ext}")), "-- ", " -- NEW");
    }
    for ext in ["tex", "m"] {
        assert_line(&comment_style_for(&format!("q.{ext}")), "% ", " % NEW");
    }
    assert_line(&comment_style_for("setup.ini"), "; ", " ; NEW");
}

#[test]
fn block_styles() {
    for ext in ["html", "htm", "xml", "xhtml", "svg"] {
        assert_block(&comment_style_for(&format!("p.{ext}")), "<!--", "-->", "<!-- NEW -->");
    }
    for ext in ["css", "scss", "less", "json"] {
        assert_block(&comment_style_for(&format!("p.{ext}")), "/*", "*/", "/* NEW */");
    }
}

#[test]
fn style_ignores_case() {
    assert_line(&comment_style_for("Main.RS"), "// ", " // NEW");
    assert_block(&comment_style_for("INDEX.Html"), "<!--", "-->", "<!-- NEW -->");
    assert_line(&comment_style_for("Main.\u{212a}T"), "// ", " // NEW");
}

#[test]
fn default_style() {
    assert_line(&comment_style_for("Makefile"), "# ", " # NEW");
    assert_line(&comment_style_for("archive.xyz"), "# ", " # NEW");
    assert_line(&comment_style_for(""), "# ", " # NEW");
    assert_line(&comment_style_for("trailing."), "# ", " # NEW");
}

#[test]
fn style_goes_by_the_file_name_only() {
    assert_line(&comment_style_for("dir.rs/notes"), "# ", " # NEW");
    assert_line(&comment_style_for("dir.html/x.sql"), "-- ", " -- NEW");
    assert_line(&comment_style_for(".rs"), "# ", " # NEW");
    assert_line(&comment_style_for("a/.json"), "# ", " # NEW");
    assert_block(&comment_style_for("a.tar.json"), "/*", "*/", "/* NEW */");
}
