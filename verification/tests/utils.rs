use web_client::utils::{get_filename_from_path, get_media_inside_html_file, present_sources};

#[test]
fn utils_filename_from_path() {
    let path = "a/b/c/d/e/ciao.txt".to_string();
    assert_eq!(get_filename_from_path(&path), "ciao.txt".to_string());

    let path = "ciao.txt".to_string();
    assert_eq!(get_filename_from_path(&path), "ciao.txt".to_string());
}

#[test]
fn test_filename_from_path() {
    let path = "a/b/c/d/e/ciao.txt".to_string();
    assert_eq!(get_filename_from_path(&path), "ciao.txt".to_string());

    let path = "ciao.txt".to_string();
    assert_eq!(get_filename_from_path(&path), "ciao.txt".to_string());
}

#[test]
fn utils_file_parsing() {
    assert_eq!(get_media_inside_html_file(&"suhbefuiwfbwob".to_string()), Vec::<String>::new());
    assert_eq!(
        get_media_inside_html_file(&"-----------<img src=\"youtube.com\"\\>".to_string()),
        vec!["youtube.com".to_string()]
    );
    assert_eq!(
        get_media_inside_html_file(&"-----------<img src=\"/usr/tmp/folder/subfolder/pic.jpg\"\\>".to_string()),
        vec!["/usr/tmp/folder/subfolder/pic.jpg".to_string()]
    );
}

#[test]
fn test_file_parsing() {
    assert_eq!(get_media_inside_html_file(&"suhbefuiwfbwob".to_string()), Vec::<String>::new());
    assert_eq!(
        get_media_inside_html_file(&"-----------<img src=\"youtube.com\"\\>".to_string()),
        vec!["youtube.com".to_string()]
    );
    assert_eq!(
        get_media_inside_html_file(&"-----------<img src=\"/usr/tmp/folder/subfolder/pic.jpg\"\\>".to_string()),
        vec!["/usr/tmp/folder/subfolder/pic.jpg".to_string()]
    );
}

#[test]
fn web_client_test_file_parsing() {
    assert_eq!(get_media_inside_html_file(&"suhbefuiwfbwob".to_string()), Vec::<String>::new());
    assert_eq!(
        get_media_inside_html_file(&"-----------<img src=\"youtube.com\"\\>".to_string()),
        vec!["youtube.com".to_string()]
    );
    assert_eq!(
        get_media_inside_html_file(&"-----------<img src=\"/usr/tmp/folder/subfolder/pic.jpg\"\\>".to_string()),
        vec!["/usr/tmp/folder/subfolder/pic.jpg".to_string()]
    );
}

#[test]
fn filename_edge_cases() {
    assert_eq!(get_filename_from_path(""), "");
    assert_eq!(get_filename_from_path("dir/"), "");
    assert_eq!(get_filename_from_path("/"), "");
    assert_eq!(get_filename_from_path("/root.html"), "root.html");
    assert_eq!(get_filename_from_path("a//b"), "b");
    assert_eq!(get_filename_from_path("città/caffè.jpg"), "caffè.jpg");
}

#[test]
fn media_of_html_keeps_document_order_and_skips_missing_src() {
    let html = "<html><img src=\"a.jpg\"/><p>x</p><img alt=\"no source\"/><img src=\"b/c.png\"/></html>";
    assert_eq!(get_media_inside_html_file(html), vec!["a.jpg".to_string(), "b/c.png".to_string()]);
}

#[test]
fn present_sources_keeps_present_values_in_order() {
    let srcs = vec![Some("a.jpg".to_string()), None, Some("b/c.png".to_string()), None];
    assert_eq!(present_sources(&srcs), vec!["a.jpg".to_string(), "b/c.png".to_string()]);
    assert!(present_sources(&Vec::new()).is_empty());
}
