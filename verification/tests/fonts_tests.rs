use pingboard::fonts::{font_value_to_family, is_font_file};

#[test]
fn qa_family_strips_paren_note_and_styles() {
    assert_eq!(font_value_to_family("Arial (TrueType)").as_deref(), Some("Arial"));
    assert_eq!(font_value_to_family("Arial Bold (TrueType)").as_deref(), Some("Arial"));
    assert_eq!(font_value_to_family("Arial Bold Italic (TrueType)").as_deref(), Some("Arial"));
    assert_eq!(font_value_to_family("Segoe UI Black (TrueType)").as_deref(), Some("Segoe UI"));
    assert_eq!(
        font_value_to_family("Microsoft YaHei Light (TrueType)").as_deref(),
        Some("Microsoft YaHei")
    );
}

#[test]
fn qa_family_keeps_cjk_and_family_words() {
    assert_eq!(font_value_to_family("宋体 (TrueType)").as_deref(), Some("宋体"));
    assert_eq!(font_value_to_family("微软雅黑 (TrueType)").as_deref(), Some("微软雅黑"));
    assert_eq!(font_value_to_family("Segoe UI (TrueType)").as_deref(), Some("Segoe UI"));
    assert_eq!(font_value_to_family("Cambria Math (TrueType)").as_deref(), Some("Cambria Math"));
}

#[test]
fn qa_family_none_cases() {
    assert!(font_value_to_family("").is_none(), "空串应返回 None");
    assert!(font_value_to_family("   ").is_none(), "纯空白应返回 None");
    assert!(font_value_to_family("(TrueType)").is_none(), "剥完为空应返回 None");
    assert_eq!(font_value_to_family("Bold (TrueType)").as_deref(), Some("Bold"));
}

#[test]
fn qa_font_file_filter() {
    assert!(is_font_file("arial.ttf"));
    assert!(is_font_file("MSYH.TTC"));
    assert!(is_font_file("SourceHanSansSC-Regular.otf"));
    assert!(!is_font_file("svgafix.fon"), "点阵字体必须被排除");
    assert!(!is_font_file(""));
}

#[test]
fn family_collapses_inner_whitespace_and_keeps_unnoted_names() {
    assert_eq!(font_value_to_family("  Noto   Sans   Regular  ").as_deref(), Some("Noto Sans"));
    assert_eq!(font_value_to_family("Foo(Bar)").as_deref(), Some("Foo"));
    assert_eq!(font_value_to_family("Consolas").as_deref(), Some("Consolas"));
}
