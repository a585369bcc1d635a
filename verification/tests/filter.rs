use oxide_seeker::indexer::filter::{
    contains_bytes, extract_all_rdf_li, extract_tag_content, extract_xmp_packet, find_bytes,
    links_external_pdf, pre_check_bytes, trim_ascii_start,
};

fn document(items: &str) -> Vec<u8> {
    format!(
        "%PDF-1.7 junk <?xpacket begin=\"x\"?><egExtFL:files><rdf:Bag>{}</rdf:Bag></egExtFL:files><?xpacket end=\"w\"?> tail",
        items
    )
    .into_bytes()
}

#[test]
fn test_find_bytes() {
    assert_eq!(find_bytes(b"hello world", b"world"), Some(6));
    assert_eq!(find_bytes(b"hello world", b"xyz"), None);
    assert_eq!(find_bytes(b"", b"a"), None);
}

#[test]
fn test_extract_tag_content() {
    let xml = b"<root><egExtFL:files><rdf:Bag><rdf:li>file:///server/test.pdf</rdf:li></rdf:Bag></egExtFL:files></root>";
    let content = extract_tag_content(xml, b"egExtFL:files").unwrap();
    assert!(contains_bytes(content, b".pdf"));
}

#[test]
fn test_extract_tag_content_with_attributes() {
    let xml = b"<egExtFL:files rdf:parseType=\"Bag\"><rdf:li>image.psd</rdf:li></egExtFL:files>";
    let content = extract_tag_content(xml, b"egExtFL:files").unwrap();
    assert!(contains_bytes(content, b".psd"));
    assert!(!contains_bytes(content, b".pdf"));
}

#[test]
fn test_no_tag_returns_none() {
    let xml = b"<root><other:tag>data</other:tag></root>";
    assert!(extract_tag_content(xml, b"egExtFL:files").is_none());
}

#[test]
fn test_pre_check_bytes_no_file() {
    // "/nonexistent/path.pdf" cannot be read.
    let result = pre_check_bytes(None);
    assert!(result.is_none());
}

#[test]
fn test_extract_all_rdf_li() {
    let xml = b"<rdf:li>file:./a.pdf</rdf:li><rdf:li>file:///b.pdf</rdf:li>";
    let items = extract_all_rdf_li(xml);
    assert_eq!(items.len(), 2);
    assert_eq!(items[0], b"file:./a.pdf");
    assert_eq!(items[1], b"file:///b.pdf");
}

#[test]
fn test_relative_pdf_links_not_excluded() {
    let items: Vec<&[u8]> = vec![b"file:./mark1.pdf", b"file:../mark2.PDF"];
    let has_non_relative = items.iter().any(|item| links_external_pdf(item));
    assert!(!has_non_relative);
}

#[test]
fn test_absolute_pdf_link_excluded() {
    let items: Vec<&[u8]> = vec![b"file:./local.pdf", b"file:///server/job/mark.pdf"];
    let has_non_relative = items.iter().any(|item| links_external_pdf(item));
    assert!(has_non_relative);
}

#[test]
fn test_rdf_li_with_attributes() {
    let xml = b"<rdf:li stRef:filePath=\"file:./x.pdf\">file:./x.pdf</rdf:li>";
    let items = extract_all_rdf_li(xml);
    assert_eq!(items.len(), 1);
    assert_eq!(items[0], b"file:./x.pdf");
}

#[test]
fn empty_needle_is_nowhere() {
    assert_eq!(find_bytes(b"abc", b""), None);
    assert_eq!(find_bytes(b"abc", b"abcd"), None);
    assert_eq!(find_bytes(b"aab", b"ab"), Some(1));
}

#[test]
fn packet_ends_before_its_end_marker() {
    let data = b"x<?xpacket begin=1?>body<?xpacket end=2?>";
    assert_eq!(extract_xmp_packet(data).unwrap(), b"<?xpacket begin=1?>body");
    assert!(extract_xmp_packet(b"<?xpacket begin=1?>").is_none());
    assert!(extract_xmp_packet(b"<?xpacket end=1?>").is_none());
}

#[test]
fn items_are_taken_in_the_order_of_the_document() {
    let xml = b"<rdf:li a=\"1\">one</rdf:li><rdf:li>two</rdf:li><rdf:li\n\tb=\"2\">three</rdf:li>";
    let items = extract_all_rdf_li(xml);
    assert_eq!(items, vec![&b"one"[..], &b"two"[..], &b"three"[..]]);
    assert_eq!(extract_all_rdf_li(b"<rdf:link>x</rdf:li><rdf:li>y</rdf:li>"), vec![&b"y"[..]]);
    let layout = document("<rdf:li a=\"1\">file:///x/a.pdf</rdf:li><rdf:li>file:./b.pdf</rdf:li>");
    assert!(pre_check_bytes(Some(&layout)).is_some());
}

#[test]
fn unclosed_items_end_the_list() {
    assert_eq!(extract_all_rdf_li(b"<rdf:li>a</rdf:li><rdf:li>b").len(), 1);
    assert_eq!(extract_all_rdf_li(b"<rdf:li attr").len(), 0);
    assert_eq!(extract_all_rdf_li(b"").len(), 0);
}

#[test]
fn leading_ascii_space_is_trimmed() {
    assert_eq!(trim_ascii_start(b" \t\r\n\x0cx "), b"x ");
    assert_eq!(trim_ascii_start(b"  "), b"");
    assert_eq!(trim_ascii_start(b"\x0bx"), b"\x0bx");
}

#[test]
fn imposition_layouts_are_excluded() {
    let reason = "XMP egExtFL:files contains external PDF file reference (non-relative)";
    let data = document("<rdf:li>file:./ok.pdf</rdf:li><rdf:li>file:mark.PDF</rdf:li>");
    assert_eq!(pre_check_bytes(Some(&data)), Some(reason.to_string()));
    let tagged = document("<rdf:li> <stRef:instanceID>file:../ok.pdf</rdf:li>");
    assert_eq!(pre_check_bytes(Some(&tagged)), None);
    let assets = document("<rdf:li>file:///x/photo.psd</rdf:li>");
    assert_eq!(pre_check_bytes(Some(&assets)), None);
    assert_eq!(pre_check_bytes(Some(b"no metadata at all")), None);
}
