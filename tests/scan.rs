use image_tagger::scan::{
    extension, images_from_listing, is_image_extension, order_images, scan_folder, ImageInfo,
    PathKind, RawEntry, ScanError,
};

fn file(name: &str) -> Option<RawEntry> {
    Some(RawEntry { path: format!("/pics/{}", name), name: name.to_string(), is_file: true })
}

fn dir(name: &str) -> Option<RawEntry> {
    Some(RawEntry { path: format!("/pics/{}", name), name: name.to_string(), is_file: false })
}

fn names(v: &[ImageInfo]) -> Vec<String> {
    v.iter().map(|i| i.name.clone()).collect()
}

fn ids(v: &[ImageInfo]) -> Vec<String> {
    v.iter().map(|i| i.id.clone()).collect()
}

#[test]
fn orders_names_without_regard_to_case() {
    let listing = vec![file("B.png"), file("a.jpg"), file("C.gif")];
    let r = images_from_listing(&listing);
    assert_eq!(names(&r), vec!["a.jpg", "B.png", "C.gif"]);
    assert_eq!(ids(&r), vec!["img_1", "img_0", "img_2"]);
    assert_eq!(r[0].path, "/pics/a.jpg");
}

#[test]
fn order_does_not_depend_on_listing_order() {
    let a = images_from_listing(&vec![file("C.gif"), file("a.jpg"), file("B.png")]);
    let b = images_from_listing(&vec![file("a.jpg"), file("B.png"), file("C.gif")]);
    assert_eq!(names(&a), names(&b));
    assert_eq!(names(&a), vec!["a.jpg", "B.png", "C.gif"]);
}

#[test]
fn keeps_exactly_the_supported_files() {
    let listing = vec![
        file("notes.txt"),
        file("photo.JPG"),
        file("README"),
        dir("album.png"),
        None,
        file(".png"),
        file("scan.TiFf"),
        file("archive.tar.gz"),
        file("logo.svg"),
        file("pic.jpeg"),
        file("x.webp"),
        file("y.bmp"),
        file("z.tif"),
        file("anim.gif"),
        file("trailing."),
    ];
    let r = images_from_listing(&listing);
    assert_eq!(
        names(&r),
        vec!["anim.gif", "logo.svg", "photo.JPG", "pic.jpeg", "scan.TiFf", "x.webp", "y.bmp", "z.tif"]
    );
    assert_eq!(
        ids(&r),
        vec!["img_13", "img_8", "img_1", "img_9", "img_6", "img_10", "img_11", "img_12"]
    );
}

#[test]
fn records_start_blank() {
    let r = images_from_listing(&vec![file("one.png"), file("Two.jpg")]);
    assert_eq!(r.len(), 2);
    for i in &r {
        assert!(i.tags.is_empty());
        assert!(i.description.is_empty());
    }
}

#[test]
fn equal_names_keep_listing_order() {
    let r = images_from_listing(&vec![file("x.PNG"), file("X.png"), file("a.png")]);
    assert_eq!(names(&r), vec!["a.png", "x.PNG", "X.png"]);
    assert_eq!(ids(&r), vec!["img_2", "img_0", "img_1"]);
}

#[test]
fn empty_listing_gives_nothing() {
    assert!(images_from_listing(&Vec::new()).is_empty());
}

#[test]
fn missing_folder_is_not_found() {
    let r = scan_folder(PathKind::Missing, Ok(Vec::new()));
    assert!(matches!(r, Err(ScanError::NotFound)));
    assert_eq!(ScanError::NotFound.message(), "Folder does not exist");
}

#[test]
fn file_path_is_not_a_directory() {
    let r = scan_folder(PathKind::NotDirectory, Ok(vec![file("a.png")]));
    assert!(matches!(r, Err(ScanError::NotADirectory)));
    assert_eq!(ScanError::NotADirectory.message(), "Path is not a directory");
}

#[test]
fn unreadable_folder_is_io_error() {
    let r = scan_folder(PathKind::Directory, Err("permission denied".to_string()));
    match r {
        Err(e) => {
            assert!(matches!(&e, ScanError::Io(m) if m == "permission denied"));
            assert_eq!(e.message(), "Failed to read directory: permission denied");
        }
        Ok(_) => panic!("expected an error"),
    }
}

#[test]
fn folder_scan_lists_images() {
    let r = scan_folder(PathKind::Directory, Ok(vec![file("b.gif"), file("a.txt"), file("A.png")]));
    match r {
        Ok(v) => {
            assert_eq!(names(&v), vec!["A.png", "b.gif"]);
            assert_eq!(ids(&v), vec!["img_2", "img_0"]);
        }
        Err(_) => panic!("expected images"),
    }
}

#[test]
fn extension_follows_last_dot() {
    assert_eq!(extension("a.b.png"), Some("png"));
    assert_eq!(extension("photo.JPG"), Some("JPG"));
    assert_eq!(extension(".png"), None);
    assert_eq!(extension("README"), None);
    assert_eq!(extension("trailing."), Some(""));
    assert_eq!(extension("..png"), Some("png"));
    assert_eq!(extension("été.png"), Some("png"));
}

#[test]
fn image_extensions_are_lower_case_names() {
    for e in ["jpg", "jpeg", "png", "gif", "webp", "bmp", "tiff", "tif", "svg"] {
        assert!(is_image_extension(e));
    }
    assert!(!is_image_extension("JPG"));
    assert!(!is_image_extension("txt"));
    assert!(!is_image_extension(""));
    assert!(!is_image_extension("pngx"));
}

#[test]
fn ordering_by_given_keys_is_stable() {
    let mk = |name: &str| ImageInfo {
        id: name.to_string(),
        path: String::new(),
        name: name.to_string(),
        tags: Vec::new(),
        description: String::new(),
    };
    let items = vec![
        ("m".chars().collect::<Vec<char>>(), mk("first m")),
        ("b".chars().collect(), mk("b")),
        ("m".chars().collect(), mk("second m")),
        ("ab".chars().collect(), mk("ab")),
        ("a".chars().collect(), mk("a")),
    ];
    let r = order_images(items);
    assert_eq!(names(&r), vec!["a", "ab", "b", "first m", "second m"]);
}
