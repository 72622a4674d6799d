use garou::natural::natural_compare;
use garou::paths::{is_image_path, natural_compare_paths_by_name, path_extension, path_file_name, path_parent};
use garou::sorting::{sort_image_files, ImageFile, SortField};
use std::cmp::Ordering;

fn exts(list: &[&str]) -> Vec<String> {
    list.iter().map(|s| s.to_string()).collect()
}

fn file(path: &str, modified_ms: u128, size: u64) -> ImageFile {
    ImageFile { path: path.to_string(), modified_ms, size }
}

fn paths(files: &[ImageFile]) -> Vec<&str> {
    files.iter().map(|f| f.path.as_str()).collect()
}

#[test]
fn natural_order_puts_numbers_by_value() {
    assert_eq!(natural_compare("file2", "file10"), Ordering::Less);
    assert_eq!(natural_compare("file10", "file2"), Ordering::Greater);
    assert_eq!(natural_compare("img", "img1"), Ordering::Less);
    assert_eq!(natural_compare("a", "a"), Ordering::Equal);
    assert_eq!(natural_compare("b", "a"), Ordering::Greater);
    assert_eq!(natural_compare("", ""), Ordering::Equal);
    assert_eq!(natural_compare("", "a"), Ordering::Less);
}

#[test]
fn natural_order_reads_leading_zeros_as_the_same_number() {
    assert_eq!(natural_compare("x01y", "x1y"), Ordering::Equal);
    assert_eq!(natural_compare("x01y", "x1z"), Ordering::Less);
}

#[test]
fn natural_order_is_antisymmetric_on_samples() {
    let samples = ["a1", "a10", "a2", "b", "1", "10", "a", "A", "z9z", "z10"];
    for x in samples.iter() {
        assert_eq!(natural_compare(x, x), Ordering::Equal);
        for y in samples.iter() {
            assert_eq!(natural_compare(x, y), natural_compare(y, x).reverse());
        }
    }
}

#[test]
fn paths_compare_by_file_name_only() {
    assert_eq!(natural_compare_paths_by_name("/z/file2.png", "/a/file10.png"), Ordering::Less);
    assert_eq!(natural_compare_paths_by_name("dir/b.png", "other/a.png"), Ordering::Greater);
}

#[test]
fn image_paths_match_configured_extensions() {
    let e = exts(&["png", "jpg"]);
    assert!(is_image_path("a/b.png", &e));
    assert!(is_image_path("a/b.PNG", &e));
    assert!(!is_image_path("a/b.gif", &e));
    assert!(!is_image_path("a/b", &e));
    assert!(!is_image_path("a/.png", &e));
}

#[test]
fn configured_extensions_are_normalised() {
    assert!(is_image_path("photo.jpeg", &exts(&["  .JPEG "])));
    assert!(is_image_path("photo.webp", &exts(&["..webp"])));
    assert!(!is_image_path("photo.png", &exts(&[""])));
    assert!(!is_image_path("photo.png", &exts(&[])));
}

#[test]
fn path_parts_follow_std() {
    assert_eq!(path_file_name("dir/pic.png"), Some("pic.png".to_string()));
    assert_eq!(path_file_name("dir/.."), None);
    assert_eq!(path_parent("dir/pic.png"), Some("dir".to_string()));
    assert_eq!(path_parent("/"), None);
    assert_eq!(path_extension("dir/pic.tar.gz"), Some(vec!['g', 'z']));
    assert_eq!(path_extension("dir/.hidden"), None);
}

#[test]
fn sort_by_name_ascending_and_descending() {
    let mut files = vec![file("d/b10.png", 0, 0), file("d/b2.png", 0, 0), file("d/a.png", 0, 0)];
    sort_image_files(&mut files, SortField::Natural, false);
    assert_eq!(paths(&files), vec!["d/a.png", "d/b2.png", "d/b10.png"]);
    sort_image_files(&mut files, SortField::Natural, true);
    assert_eq!(paths(&files), vec!["d/b10.png", "d/b2.png", "d/a.png"]);
}

#[test]
fn sort_by_size_breaks_ties_by_name() {
    let mut files = vec![file("d/c.png", 0, 5), file("d/b.png", 0, 1), file("d/a.png", 0, 5)];
    sort_image_files(&mut files, SortField::Size, false);
    assert_eq!(paths(&files), vec!["d/b.png", "d/a.png", "d/c.png"]);
    sort_image_files(&mut files, SortField::Size, true);
    assert_eq!(paths(&files), vec!["d/c.png", "d/a.png", "d/b.png"]);
}

#[test]
fn sort_by_time_is_stable_for_equal_keys() {
    let mut files = vec![file("x/p.png", 7, 0), file("y/p.png", 7, 0), file("z/o.png", 9, 0)];
    sort_image_files(&mut files, SortField::ModifiedTime, false);
    assert_eq!(paths(&files), vec!["x/p.png", "y/p.png", "z/o.png"]);
    sort_image_files(&mut files, SortField::ModifiedTime, true);
    assert_eq!(paths(&files), vec!["z/o.png", "x/p.png", "y/p.png"]);
}

#[test]
fn file_names_sort_one_two_three_ten_eleven_twelve() {
    let mut files = vec![
        file("/p/12.png", 0, 0),
        file("/p/3.png", 0, 0),
        file("/p/10.png", 0, 0),
        file("/p/1.png", 0, 0),
        file("/p/11.png", 0, 0),
        file("/p/2.png", 0, 0),
    ];
    sort_image_files(&mut files, SortField::Natural, false);
    assert_eq!(paths(&files), vec!["/p/1.png", "/p/2.png", "/p/3.png", "/p/10.png", "/p/11.png", "/p/12.png"]);
}

#[test]
fn long_digit_runs_compare_by_value() {
    assert_eq!(natural_compare("99999999999999999999", "1"), Ordering::Greater);
    assert_eq!(natural_compare("a18446744073709551616b", "a18446744073709551615b"), Ordering::Greater);
    assert_eq!(natural_compare("000123456789012345678901", "123456789012345678901"), Ordering::Equal);
    assert_eq!(natural_compare("x123456789012345678900", "x123456789012345678901"), Ordering::Less);
}

#[test]
fn names_without_digits_compare_by_code_point() {
    assert_eq!(natural_compare("abc", "abd"), Ordering::Less);
    assert_eq!(natural_compare("ab", "abc"), Ordering::Less);
    assert_eq!(natural_compare("B", "a"), Ordering::Less);
}
