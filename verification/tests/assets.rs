use premiere_hunter::assets::normalize_asset_path;
use premiere_hunter::xmlscan::extract_assets;

#[test]
fn normalize_converts_slashes() {
    assert_eq!(normalize_asset_path("C:/Media/clip1.mp4"), "C:\\Media\\clip1.mp4");
}

#[test]
fn normalize_strips_file_url_scheme() {
    assert_eq!(normalize_asset_path("file:///D:/assets/logo.PNG"), "D:\\assets\\logo.PNG");
    assert_eq!(normalize_asset_path("FILE://server/share/a.mov"), "server\\share\\a.mov");
}

#[test]
fn normalize_trims_whitespace() {
    assert_eq!(normalize_asset_path("  C:/a.wav \n"), "C:\\a.wav");
}

#[test]
fn normalize_unescapes_entities() {
    assert_eq!(normalize_asset_path("a&amp;b.mp4"), "a&b.mp4");
    assert_eq!(normalize_asset_path("&lt;x&gt;&quot;y&quot;&apos;z&apos;.gif"), "<x>\"y\"'z'.gif");
}

#[test]
fn normalize_is_idempotent_on_normalized_paths() {
    for raw in [
        "C:/Media/clip1.mp4",
        "file:///D:/assets/logo.PNG",
        "  server/share/sound.wav ",
        "a&amp;b.mp4",
    ] {
        let once = normalize_asset_path(raw);
        let twice = normalize_asset_path(&once);
        assert_eq!(twice, once);
    }
}

#[test]
fn extract_single_element_asset() {
    let xml = "<Clip><FilePath>C:/Media/clip1.mp4</FilePath></Clip>";
    assert_eq!(extract_assets(xml), vec!["C:\\Media\\clip1.mp4".to_string()]);
}

#[test]
fn extract_attribute_asset_deduplicated() {
    let xml = "<Media absolutePath=\"file:///D:/assets/logo.PNG\"/><Media absolutePath=\"file:///D:/assets/logo.PNG\"/>";
    assert_eq!(extract_assets(xml), vec!["D:\\assets\\logo.PNG".to_string()]);
}

#[test]
fn extract_dedup_is_case_insensitive() {
    let xml = "<Clip><FilePath>C:/Media/Clip1.MP4</FilePath></Clip><Clip><FilePath>c:/media/clip1.mp4</FilePath></Clip>";
    let assets = extract_assets(xml);
    assert_eq!(assets.len(), 1);
    assert_eq!(assets[0], "C:\\Media\\Clip1.MP4");
}

#[test]
fn extract_output_is_sorted() {
    let xml = "<a path=\"z/last.mp4\"/><a path=\"a/first.mp4\"/><a path=\"m/middle.mp4\"/>";
    let assets = extract_assets(xml);
    assert_eq!(
        assets,
        vec![
            "a\\first.mp4".to_string(),
            "m\\middle.mp4".to_string(),
            "z\\last.mp4".to_string(),
        ]
    );
    for w in assets.windows(2) {
        assert!(w[0] <= w[1]);
    }
}

#[test]
fn extract_ignores_unlisted_extensions() {
    let xml = "<a path=\"doc/readme.txt\"/><a path=\"doc/clip.mov\"/>";
    assert_eq!(extract_assets(xml), vec!["doc\\clip.mov".to_string()]);
}

#[test]
fn extract_ignores_values_without_extension() {
    let xml = "<a path=\"C:/folder/noext\"/><a path=\"C:/x.\"/>";
    assert_eq!(extract_assets(xml), Vec::<String>::new());
}

#[test]
fn extract_malformed_returns_partial() {
    let xml = "<Clip><FilePath>C:/Media/a.mp4</FilePath><Oops";
    assert_eq!(extract_assets(xml), vec!["C:\\Media\\a.mp4".to_string()]);
}

#[test]
fn extract_unterminated_attribute_keeps_earlier_assets() {
    let xml = "<a path=\"ok/a.mp4\"/><b path=\"broken";
    assert_eq!(extract_assets(xml), vec!["ok\\a.mp4".to_string()]);
}

#[test]
fn extract_skips_comments_and_declarations() {
    let xml = "<?xml version=\"1.0\"?><!-- path=\"not/me.mp4\" --><Clip><Path>real/one.mp4</Path></Clip>";
    assert_eq!(extract_assets(xml), vec!["real\\one.mp4".to_string()]);
}

#[test]
fn extract_text_only_counts_inside_path_elements() {
    let xml = "<Clip><Name>stray/text.mp4</Name><RelPath>kept/file.mxf</RelPath></Clip>";
    assert_eq!(extract_assets(xml), vec!["kept\\file.mxf".to_string()]);
}

#[test]
fn extract_recognizes_all_path_bearing_names() {
    let xml = "<a AbsolutePath=\"p1/a.mp4\"/><a FILEPATH=\"p2/b.mp4\"/><a path=\"p3/c.mp4\"/><a RelativePath=\"p4/d.mp4\"/><a relpath=\"p5/e.mp4\"/><a other=\"p6/f.mp4\"/>";
    let assets = extract_assets(xml);
    assert_eq!(assets.len(), 5);
}
