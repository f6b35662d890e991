use zinifier::error::Error;
use zinifier::frontmatter::{split_frontmatter, FrontMatter};
use zinifier::markup::MarkupNode;
use zinifier::path::BaseDir;
use zinifier::theme::Theme;
use zinifier::zine::ZineFile;

fn plain_frontmatter(settings: Vec<(String, String)>) -> FrontMatter {
    FrontMatter {
        title: "T".to_string(),
        subtitle: None,
        author: None,
        description: None,
        summary: None,
        themes: vec![("footheme".to_string(), settings)],
    }
}

#[test]
fn split_separates_metadata_and_body() {
    let (meta, body) = split_frontmatter("+++\ntitle = \"x\"\n+++\nbody text").unwrap();
    assert_eq!(meta, "\ntitle = \"x\"");
    assert_eq!(body, "\nbody text");
}

#[test]
fn split_without_closing_delimiter_fails() {
    assert!(matches!(
        split_frontmatter("+++\ntitle = \"x\"\nno end"),
        Err(Error::FrontMatterParse {})
    ));
}

#[test]
fn color_and_resource_settings() {
    let root = BaseDir::new("/root");
    let zine = ZineFile::from_relative(&root, "content/a/b.md");
    let theme = Theme::new(&root, "footheme");
    let fm = plain_frontmatter(vec![
        ("accent_color".to_string(), "ff0000".to_string()),
        ("logo_res".to_string(), "logo.png".to_string()),
    ]);
    let out = fm.to_typst(&zine, &theme);
    assert_eq!(
        out,
        "title: \"T\",\naccent_color: rgb(\"ff0000\"),\nlogo_res: \"../../content/a/logo.png\",\n",
    );
}

#[test]
fn raw_and_quoted_settings() {
    let root = BaseDir::new("/root");
    let zine = ZineFile::from_relative(&root, "content/a/b.md");
    let theme = Theme::new(&root, "footheme");
    let fm = plain_frontmatter(vec![
        ("body_size".to_string(), "12pt".to_string()),
        ("line_spacing".to_string(), "1.4".to_string()),
        ("tight_bool".to_string(), "true".to_string()),
        ("debug".to_string(), "false".to_string()),
        ("motto".to_string(), "hello".to_string()),
    ]);
    let out = fm.to_typst(&zine, &theme);
    let want = "title: \"T\",\nbody_size: 12pt,\nline_spacing: 1.4,\ntight_bool: true,\ndebug: false,\nmotto: \"hello\",\n";
    assert_eq!(out, want);
}

#[test]
fn scalar_fields_in_fixed_order() {
    let root = BaseDir::new("/root");
    let zine = ZineFile::from_relative(&root, "content/a/b.md");
    let theme = Theme::new(&root, "footheme");
    let fm = FrontMatter {
        title: "T@1".to_string(),
        subtitle: Some("S@2".to_string()),
        author: Some("a@b".to_string()),
        description: Some("d".to_string()),
        summary: Some("s".to_string()),
        themes: vec![("footheme".to_string(), vec![])],
    };
    let out = fm.to_typst(&zine, &theme);
    let want =
        "title: \"T\\@1\",\nsubtitle: \"S\\@2\",\nauthor: \"a\\@b\",\ndescription: [ d ],\nsummary: [ s ],\n";
    assert_eq!(out, want);
}

#[test]
fn unknown_theme_keeps_scalars_only() {
    let root = BaseDir::new("/root");
    let zine = ZineFile::from_relative(&root, "content/a/b.md");
    let theme = Theme::new(&root, "otheme");
    let fm = plain_frontmatter(vec![("accent_color".to_string(), "ff0000".to_string())]);
    assert_eq!(fm.to_typst(&zine, &theme), "title: \"T\",\n");
}

#[test]
fn header_imports_theme_and_indents() {
    let root = BaseDir::new("/root");
    let zine = ZineFile::from_relative(&root, "content/a/b.md");
    let theme = Theme::new(&root, "footheme");
    let fm = plain_frontmatter(vec![]);
    let out = fm.with_typst_header(&zine, &theme);
    let want =
        "#import \"../../themes/footheme/theme.typ\": *\n#show: zine.with(  title: \"T\",\n)\n\n";
    assert_eq!(out, want);
}

#[test]
fn typst_source_joins_header_and_body() {
    let root = BaseDir::new("/root");
    let zine = ZineFile::from_relative(&root, "content/a/b.md");
    let fm = plain_frontmatter(vec![]);
    let body = vec![MarkupNode::Heading {
        level: 1,
        children: vec![MarkupNode::Text { content: "H".to_string() }],
    }];
    let out = zine.typst_source(&fm, &body).unwrap();
    let want =
        "#import \"../../themes/footheme/theme.typ\": *\n#show: zine.with(  title: \"T\",\n)\n\n= H\n";
    assert_eq!(out, want);
}

#[test]
fn typst_source_propagates_footnote_fault() {
    let root = BaseDir::new("/root");
    let zine = ZineFile::from_relative(&root, "content/a/b.md");
    let fm = plain_frontmatter(vec![]);
    let body = vec![MarkupNode::FootnoteReference];
    assert!(matches!(
        zine.typst_source(&fm, &body),
        Err(Error::FootnoteConsistency { .. })
    ));
}

#[test]
fn error_messages_name_the_fault() {
    let e = Error::NoBaseDir { path: "/tmp/x".to_string() };
    assert_eq!(
        e.message(),
        "No basedir (containing content/themes folders) found in parent tree of /tmp/x",
    );
    let f = Error::FrontMatterParse {};
    assert_eq!(f.message(), "Front matter block is missing its closing delimiter");
    let g = Error::FootnoteConsistency { counted: 2, collected: 1 };
    assert_eq!(g.message(), "Footnote references and footnote definitions disagree");
}
