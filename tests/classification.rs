use epub_optimizer::classify::{class_of_path, classify, OptimizerClass};

#[test]
fn extension_table() {
    assert_eq!(class_of_path("a/content.opf"), Some(OptimizerClass::Markup));
    assert_eq!(class_of_path("toc.xml"), Some(OptimizerClass::Markup));
    assert_eq!(class_of_path("img/logo.svg"), Some(OptimizerClass::Markup));
    assert_eq!(class_of_path("c1.html"), Some(OptimizerClass::Html));
    assert_eq!(class_of_path("c1.htm"), Some(OptimizerClass::Html));
    assert_eq!(class_of_path("c1.xhtml"), Some(OptimizerClass::Html));
    assert_eq!(class_of_path("style.css"), Some(OptimizerClass::Stylesheet));
    assert_eq!(class_of_path("cover.jpg"), Some(OptimizerClass::Jpeg));
    assert_eq!(class_of_path("cover.jpeg"), Some(OptimizerClass::Jpeg));
    assert_eq!(class_of_path("pic.png"), Some(OptimizerClass::Png));
}

#[test]
fn extension_case_is_ignored() {
    assert_eq!(class_of_path("COVER.JPG"), Some(OptimizerClass::Jpeg));
    assert_eq!(class_of_path("x/Pic.PnG"), Some(OptimizerClass::Png));
    assert_eq!(class_of_path("C1.XHTML"), Some(OptimizerClass::Html));
}

#[test]
fn other_files_are_ignored() {
    assert_eq!(class_of_path("mimetype"), None);
    assert_eq!(class_of_path("font.ttf"), None);
    assert_eq!(class_of_path(".png"), None);
    assert_eq!(class_of_path("dir.png/file"), None);
    assert_eq!(class_of_path("archive.png.gz"), None);
    assert_eq!(class_of_path("trailing."), None);
    assert_eq!(class_of_path(""), None);
}

#[test]
fn buckets_keep_order_and_class() {
    let files = vec![
        "/w/b.png".to_string(),
        "/w/mimetype".to_string(),
        "/w/a.jpg".to_string(),
        "/w/c.PNG".to_string(),
        "/w/s.css".to_string(),
        "/w/content.opf".to_string(),
        "/w/ch.xhtml".to_string(),
    ];
    let b = classify(&files);
    assert_eq!(b.png, vec!["/w/b.png".to_string(), "/w/c.PNG".to_string()]);
    assert_eq!(b.jpeg, vec!["/w/a.jpg".to_string()]);
    assert_eq!(b.stylesheet, vec!["/w/s.css".to_string()]);
    assert_eq!(b.markup, vec!["/w/content.opf".to_string()]);
    assert_eq!(b.html, vec!["/w/ch.xhtml".to_string()]);
    assert_eq!(b.paths(OptimizerClass::Png).len(), 2);
    assert_eq!(
        b.jobs(),
        vec![
            OptimizerClass::Markup,
            OptimizerClass::Html,
            OptimizerClass::Stylesheet,
            OptimizerClass::Jpeg,
            OptimizerClass::Png
        ]
    );
}

#[test]
fn empty_buckets_are_no_jobs() {
    let files = vec!["/w/mimetype".to_string(), "/w/a.jpg".to_string()];
    let b = classify(&files);
    assert_eq!(b.jobs(), vec![OptimizerClass::Jpeg]);
    let none = classify(&Vec::new());
    assert!(none.jobs().is_empty());
}
