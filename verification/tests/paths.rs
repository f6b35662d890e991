use zinifier::cli::SourceType;
use zinifier::path::{ancestors, BaseDir, RootPath};
use zinifier::theme::Theme;
use zinifier::watch::{is_not_pdf, is_not_pdf_or_typ};
use zinifier::zine::ZineFile;

#[test]
fn to_theme() {
    let root = BaseDir::new("/root");
    let theme = Theme::new(&root, "footheme");

    assert_eq!(
        RootPath::new(&root, "content/a/c/d.png").relative_to_theme(&theme),
        "../../content/a/c/d.png",
    );
    assert_eq!(
        RootPath::new(&root, "content/a/c.png").relative_to_theme(&theme),
        "../../content/a/c.png",
    );
    assert_eq!(
        RootPath::new(&root, "content/c.png").relative_to_theme(&theme),
        "../../content/c.png",
    );
    assert_eq!(RootPath::new(&root, "c.png").relative_to_theme(&theme), "../../c.png");
    assert_eq!(RootPath::new(&root, "themes/a/c.png").relative_to_theme(&theme), "../a/c.png");
    assert_eq!(RootPath::new(&root, "themes/footheme/c.png").relative_to_theme(&theme), "c.png");
}

#[test]
fn to_zine() {
    let root = BaseDir::new("/root");
    let zine = ZineFile::from_relative(&root, "content/a/b.md");

    assert_eq!(RootPath::new(&root, "content/a/c/d.png").relative_to_zine(&zine), "c/d.png");
    assert_eq!(RootPath::new(&root, "content/a/c.png").relative_to_zine(&zine), "c.png");
    assert_eq!(RootPath::new(&root, "content/c.png").relative_to_zine(&zine), "../c.png");
    assert_eq!(RootPath::new(&root, "c.png").relative_to_zine(&zine), "../../c.png");
    assert_eq!(
        RootPath::new(&root, "themes/a/c.png").relative_to_zine(&zine),
        "../../themes/a/c.png",
    );

    let zine = ZineFile::from_relative(&root, "content/a/b/c.md");

    assert_eq!(RootPath::new(&root, "content/a/b/d/e.png").relative_to_zine(&zine), "d/e.png");
    assert_eq!(RootPath::new(&root, "content/a/c.png").relative_to_zine(&zine), "../c.png");
    assert_eq!(RootPath::new(&root, "content/c.png").relative_to_zine(&zine), "../../c.png");
    assert_eq!(RootPath::new(&root, "c.png").relative_to_zine(&zine), "../../../c.png");
    assert_eq!(
        RootPath::new(&root, "themes/a/c.png").relative_to_zine(&zine),
        "../../../themes/a/c.png",
    );
}

#[test]
fn to() {
    let root = BaseDir::new("/root");
    let path = RootPath::new(&root, "content/a/b.md");

    assert_eq!(path.relative_to(&RootPath::new(&root, "content/a/c.md")), "b.md");
    assert_eq!(path.relative_to(&RootPath::new(&root, "root_file.toml")), "content/a/b.md");
    assert_eq!(
        path.relative_to(&RootPath::new(&root, "themes/foo/bar.typ")),
        "../../content/a/b.md",
    );
}

#[test]
fn same_name() {
    let zine = ZineFile::from_absolute(&BaseDir::new("/"), "/content/a/a.md");
    assert_eq!(zine.relative_file().relative(), "content/a/a.md");
    assert_eq!(zine.zine_resource_relative_from_basedir("c.png"), "content/a/c.png");
}

#[test]
fn different_name() {
    let zine = ZineFile::from_absolute(&BaseDir::new("/"), "/content/a/b.md");
    assert_eq!(zine.relative_file().relative(), "content/a/b.md");
    assert_eq!(zine.zine_resource_relative_from_basedir("c.png"), "content/a/c.png");
}

#[test]
fn sibling_resource_in_subdir() {
    let root = BaseDir::new("/root");
    let zine = ZineFile::from_relative(&root, "content/a/b.md");
    assert_eq!(zine.zine_resource_relative_from_basedir("c/d.png"), "content/a/c/d.png");
}

#[test]
fn address_strips_base_prefix() {
    let root = BaseDir::new("/root");
    let p = root.join("/root/content/a/b.md");
    assert_eq!(p.relative(), "content/a/b.md");
    let q = root.join("content/a/b.md");
    assert_eq!(q.relative(), "content/a/b.md");
    let foreign = root.join("/other/c.png");
    assert_eq!(foreign.relative(), "/other/c.png");
}

#[test]
fn absolute_rebuilds_full_path() {
    let root = BaseDir::new("/root");
    let p = RootPath::new(&root, "content/a/b.md");
    assert_eq!(p.absolute(), "/root/content/a/b.md");
}

#[test]
fn with_extension_replaces_suffix() {
    let root = BaseDir::new("/root");
    let p = RootPath::new(&root, "content/a/b.md");
    assert_eq!(p.with_extension("typ").relative(), "content/a/b.typ");
    assert_eq!(p.with_extension("footheme.typ").relative(), "content/a/b.footheme.typ");
    let bare = RootPath::new(&root, "content/a/noext");
    assert_eq!(bare.with_extension("typ").relative(), "content/a/noext.typ");
}

#[test]
fn relative_dir_drops_file_name() {
    let root = BaseDir::new("/root");
    let zine = ZineFile::from_relative(&root, "content/a/b.md");
    assert_eq!(zine.relative_dir().relative(), "content/a");
}

#[test]
fn ancestors_walk_outward() {
    let got = ancestors("/root/content/a/b.md");
    let want = vec![
        "/root/content/a".to_string(),
        "/root/content".to_string(),
        "/root".to_string(),
        "/".to_string(),
    ];
    assert_eq!(got, want);
}

#[test]
fn source_type_from_extension() {
    assert_eq!(SourceType::from_ext("/root/content/a/b.md"), SourceType::Markdown);
    assert_eq!(SourceType::from_ext("b.typ"), SourceType::Typst);
}

#[test]
fn watch_filters_by_name() {
    assert!(is_not_pdf("a.md"));
    assert!(is_not_pdf("a.typ"));
    assert!(!is_not_pdf("a.pdf"));
    assert!(!is_not_pdf(".hidden"));
    assert!(is_not_pdf_or_typ("a.md"));
    assert!(!is_not_pdf_or_typ("a.typ"));
    assert!(!is_not_pdf_or_typ("a.pdf"));
    assert!(!is_not_pdf_or_typ(".hidden"));
}
