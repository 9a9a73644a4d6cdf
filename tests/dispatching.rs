use epub_optimizer::classify::OptimizerClass;
use epub_optimizer::dispatch::{failed_classes, keep_optimized, optimizer_succeeded, settle_sizes, BucketOutcome, FileSizes};

fn sizes(path: &str, before: u64, after: u64) -> FileSizes {
    FileSizes { path: path.to_string(), before, after }
}

#[test]
fn only_the_missing_jpeg_optimizer_is_reported() {
    let outcomes = vec![
        BucketOutcome { class: OptimizerClass::Markup, succeeded: true },
        BucketOutcome { class: OptimizerClass::Jpeg, succeeded: false },
        BucketOutcome { class: OptimizerClass::Png, succeeded: true },
    ];
    assert_eq!(failed_classes(&outcomes), vec![OptimizerClass::Jpeg]);
}

#[test]
fn no_failure_no_report() {
    let outcomes = vec![BucketOutcome { class: OptimizerClass::Png, succeeded: true }];
    assert!(failed_classes(&outcomes).is_empty());
    assert!(failed_classes(&Vec::new()).is_empty());
}

#[test]
fn guard_keeps_smaller_or_equal() {
    assert!(keep_optimized(100, 90));
    assert!(keep_optimized(100, 100));
    assert!(!keep_optimized(100, 101));
}

#[test]
fn grown_files_are_restored() {
    let files = vec![sizes("a.png", 1000, 700), sizes("b.png", 500, 650), sizes("c.png", 10, 10)];
    let r = settle_sizes(&files);
    assert_eq!(r.restore, vec!["b.png".to_string()]);
    assert_eq!(r.files[1].after, 500);
    assert_eq!(r.files[0].after, 700);
    assert_eq!(r.saved, 300);
}

#[test]
fn savings_are_the_sum_of_deltas() {
    let files = vec![sizes("content.opf", 500, 420), sizes("cover.jpg", 204800, 150000), sizes("chapter1.xhtml", 10240, 9000)];
    let r = settle_sizes(&files);
    let sum: u128 = r.files.iter().map(|f| (f.before - f.after) as u128).sum();
    assert_eq!(r.saved, sum);
    assert_eq!(r.saved, 80 + 54800 + 1240);
    assert!(r.restore.is_empty());
}

#[test]
fn largest_sizes_do_not_overflow() {
    let files = vec![sizes("a", u64::MAX, 0), sizes("b", u64::MAX, 0)];
    let r = settle_sizes(&files);
    assert_eq!(r.saved, 2 * (u64::MAX as u128));
}

#[test]
fn nothing_to_settle() {
    let r = settle_sizes(&Vec::new());
    assert_eq!(r.saved, 0);
    assert!(r.files.is_empty());
}

#[test]
fn exit_codes() {
    assert!(optimizer_succeeded(OptimizerClass::Jpeg, Some(0)));
    assert!(!optimizer_succeeded(OptimizerClass::Jpeg, Some(1)));
    assert!(!optimizer_succeeded(OptimizerClass::Jpeg, Some(98)));
    assert!(optimizer_succeeded(OptimizerClass::Png, Some(98)));
    assert!(optimizer_succeeded(OptimizerClass::Png, Some(99)));
    assert!(!optimizer_succeeded(OptimizerClass::Png, Some(2)));
    assert!(!optimizer_succeeded(OptimizerClass::Markup, None));
}
