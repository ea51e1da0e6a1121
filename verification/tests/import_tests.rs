use pingboard::import::{decode_bytes, import_route, is_zip, normalize_row, ImportRoute};

#[test]
fn qa_normalize_row_trims_and_skips_empty() {
    assert_eq!(
        normalize_row(vec!["a".into(), "b".into(), "".into(), "".into()]),
        Some(vec!["a".into(), "b".into()])
    );
    assert_eq!(normalize_row(vec!["".into(), "".into()]), None);
    assert_eq!(normalize_row(vec![]), None);
}

#[test]
fn qa_decode_utf8_bom_strips_bom() {
    let mut bytes = vec![0xEF, 0xBB, 0xBF];
    bytes.extend_from_slice("主机A 备注".as_bytes());
    assert_eq!(decode_bytes(&bytes), "主机A 备注");
}

#[test]
fn qa_decode_plain_utf8() {
    assert_eq!(decode_bytes("192.168.1.1 网关".as_bytes()), "192.168.1.1 网关");
}

#[test]
fn qa_decode_gbk_chinese_fallback() {
    let (gbk_bytes, _, had_err) = encoding_rs::GBK.encode("中文主机 备注");
    assert!(!had_err);
    assert!(std::str::from_utf8(&gbk_bytes).is_err());
    assert_eq!(decode_bytes(&gbk_bytes), "中文主机 备注");
}

#[test]
fn qa_v11_eol_variants_preserved() {
    assert_eq!(decode_bytes(b"a\r\nb"), "a\r\nb");
    assert_eq!(decode_bytes(b"a\nb"), "a\nb");
    assert_eq!(decode_bytes(b"a\rb"), "a\rb");
}

#[test]
fn qa_v11_empty_and_ascii() {
    assert_eq!(decode_bytes(b""), "");
    assert_eq!(decode_bytes(b"127.0.0.1 ok"), "127.0.0.1 ok");
}

#[test]
fn qa_v11_utf16_behavior_is_locked() {
    let s = "127.0.0.1 本机\n";
    let le_body: Vec<u8> = s.encode_utf16().flat_map(|u| u.to_le_bytes()).collect();
    let be_body: Vec<u8> = s.encode_utf16().flat_map(|u| u.to_be_bytes()).collect();
    let mut le_bom = vec![0xFF, 0xFE];
    le_bom.extend(&le_body);
    let mut be_bom = vec![0xFE, 0xFF];
    be_bom.extend(&be_body);
    assert_eq!(decode_bytes(&le_bom), s, "UTF-16LE（带 BOM）应能正确解码");
    assert_eq!(decode_bytes(&be_bom), s, "UTF-16BE（带 BOM）应能正确解码");
    let no_le = decode_bytes(&le_body);
    let no_be = decode_bytes(&be_body);
    assert!(
        !no_le.contains("本机") && (no_le.contains('\u{0}') || no_le.contains('\u{fffd}')),
        "UTF-16LE 无 BOM 应乱码"
    );
    assert!(
        !no_be.contains("本机") && (no_be.contains('\u{0}') || no_be.contains('\u{fffd}')),
        "UTF-16BE 无 BOM 应乱码"
    );
}

#[test]
fn qa_v11_valid_utf8_not_misdecoded_as_gbk() {
    let s = "阿里 DNS 192.168.1.1";
    assert_eq!(decode_bytes(s.as_bytes()), s);
}

#[test]
fn invalid_bytes_decode_lossily() {
    assert_eq!(decode_bytes(&[0xFF]), "\u{fffd}");
}

#[test]
fn routes_by_extension() {
    assert_eq!(import_route("TXT"), ImportRoute::Text);
    assert_eq!(import_route("csv"), ImportRoute::Text);
    assert_eq!(import_route("list"), ImportRoute::Text);
    assert_eq!(import_route("xlsx"), ImportRoute::Table);
    assert_eq!(import_route("Ods"), ImportRoute::Table);
    assert_eq!(import_route(""), ImportRoute::Sniff);
    assert_eq!(import_route("bin"), ImportRoute::Sniff);
    assert!(is_zip(&[0x50, 0x4B, 0x03, 0x04, 0x00]));
    assert!(!is_zip(&[0x50, 0x4B, 0x03]));
    assert!(!is_zip(b"text"));
}

#[test]
fn qa_v11_hard_4096_boundary_message() {
    assert_eq!(pingboard::control::HARD_MAX_THREADS, 4096);
}

#[test]
fn qa_read_import_file_utf8_txt_real() {
    // A `.txt` file is read as text and its bytes decoded.
    assert_eq!(import_route("txt"), ImportRoute::Text);
    let content = "# 头部注释\n223.5.5.5 阿里 DNS\n192.168.1.1-3 内网段\n";
    let text = decode_bytes(content.as_bytes());
    assert!(text.contains("阿里 DNS"));
    assert!(text.contains("192.168.1.1-3"));
    assert!(!text.starts_with('\u{feff}'), "不应残留 BOM");
}

#[test]
fn qa_read_import_file_gbk_txt_real() {
    assert_eq!(import_route("txt"), ImportRoute::Text);
    let (gbk_bytes, _, _) = encoding_rs::GBK.encode("114.114.114.114 电信DNS\n8.8.8.8 谷歌DNS\n");
    let text = decode_bytes(&gbk_bytes);
    assert!(text.contains("电信DNS"), "GBK 中文应正确还原：{}", text);
    assert!(text.contains("谷歌DNS"));
}
