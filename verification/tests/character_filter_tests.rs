use lindera::character_filter::regex::{RegexCharacterFilter, RegexCharacterFilterConfig};
use lindera::character_filter::unicode_normalize::{
    UnicodeNormalizeCharacterFilter, UnicodeNormalizeCharacterFilterConfig, UnicodeNormalizeKind,
};
use lindera::character_filter::{add_offset_diff, correct_offset};

#[test]
fn test_regex_character_filter_config_from_slice() {
    let config_str = r#"
        {
            "pattern": "リンデラ",
            "replacement": "Lindera"
        }
        "#;
    let config = RegexCharacterFilterConfig::from_slice(config_str.as_bytes()).unwrap();
    assert_eq!("リンデラ", config.pattern);
    assert_eq!("Lindera", config.replacement);
}

#[test]
fn test_regex_character_filter_from_slice() {
    let config_str = r#"
        {
            "pattern": "リンデラ",
            "replacement": "Lindera"
        }
        "#;
    let result = RegexCharacterFilterConfig::from_slice(config_str.as_bytes());
    assert_eq!(true, result.is_ok());
}

#[test]
fn test_regex_character_filter_apply() {
    {
        let config_str = r#"
            {
                "pattern": "リンデラ",
                "replacement": "Lindera"
            }
            "#;
        let filter = RegexCharacterFilter::from_slice(config_str.as_bytes()).unwrap();
        let text = "リンデラは形態素解析器です。".to_string();
        let mut filterd_text = text.clone();
        let (offsets, diffs) = filter.apply(&mut filterd_text).unwrap();
        assert_eq!("Linderaは形態素解析器です。", filterd_text);
        assert_eq!(vec![7], offsets);
        assert_eq!(vec![5], diffs);
        let start = 0;
        let end = 7;
        assert_eq!("Lindera", &filterd_text[start..end]);
        let correct_start = correct_offset(start, &offsets, &diffs, filterd_text.len());
        let correct_end = correct_offset(end, &offsets, &diffs, filterd_text.len());
        assert_eq!(0, correct_start);
        assert_eq!(12, correct_end);
        assert_eq!("リンデラ", &text[correct_start..correct_end]);
    }

    {
        let config_str = r#"
            {
                "pattern": "\\s{2,}",
                "replacement": " "
            }
            "#;
        let filter = RegexCharacterFilter::from_slice(config_str.as_bytes()).unwrap();
        let text = "a     b     c".to_string();
        let mut filterd_text = text.clone();
        let (offsets, diffs) = filter.apply(&mut filterd_text).unwrap();
        assert_eq!("a b c", filterd_text);
        assert_eq!(vec![2, 4], offsets);
        assert_eq!(vec![4, 8], diffs);
        let start = 2;
        let end = 3;
        assert_eq!("b", &filterd_text[start..end]);
        let correct_start = correct_offset(start, &offsets, &diffs, filterd_text.len());
        let correct_end = correct_offset(end, &offsets, &diffs, filterd_text.len());
        assert_eq!(6, correct_start);
        assert_eq!(7, correct_end);
        assert_eq!("b", &text[correct_start..correct_end]);
    }
}

#[test]
fn test_unicode_normalize_character_filter_config_from_slice() {
    let config_str = r#"
        {
            "kind": "nfkc"
        }
        "#;
    let config = UnicodeNormalizeCharacterFilterConfig::from_slice(config_str.as_bytes()).unwrap();

    assert_eq!(config.kind, UnicodeNormalizeKind::NFKC);
}

#[test]
fn test_unicode_normalize_character_filter_from_slice() {
    let config_str = r#"
        {
            "kind": "nfkc"
        }
        "#;
    let result = UnicodeNormalizeCharacterFilter::from_slice(config_str.as_bytes());

    assert_eq!(true, result.is_ok());
}

#[test]
fn test_unicode_normalize_character_filter_apply_nfc() {
    let config_str = r#"
        {
            "kind": "nfc"
        }
        "#;
    let filter = UnicodeNormalizeCharacterFilter::from_slice(config_str.as_bytes()).unwrap();

    let mut text = "ＡＢＣＤＥ".to_string();
    let (offsets, diffs) = filter.apply(&mut text).unwrap();
    assert_eq!("ＡＢＣＤＥ", text);
    assert_eq!(Vec::<usize>::new(), offsets);
    assert_eq!(Vec::<i64>::new(), diffs);

    let mut text = "ABCDE".to_string();
    let (offsets, diffs) = filter.apply(&mut text).unwrap();
    assert_eq!("ABCDE", text);
    assert_eq!(Vec::<usize>::new(), offsets);
    assert_eq!(Vec::<i64>::new(), diffs);

    let mut text = "ｱｲｳｴｵ".to_string();
    let (offsets, diffs) = filter.apply(&mut text).unwrap();
    assert_eq!("ｱｲｳｴｵ", text);
    assert_eq!(Vec::<usize>::new(), offsets);
    assert_eq!(Vec::<i64>::new(), diffs);

    let mut text = "アイウエオ".to_string();
    let (offsets, diffs) = filter.apply(&mut text).unwrap();
    assert_eq!("アイウエオ", text);
    assert_eq!(Vec::<usize>::new(), offsets);
    assert_eq!(Vec::<i64>::new(), diffs);

    let mut text = "０１２３４５６７８９".to_string();
    let (offsets, diffs) = filter.apply(&mut text).unwrap();
    assert_eq!("０１２３４５６７８９", text);
    assert_eq!(Vec::<usize>::new(), offsets);
    assert_eq!(Vec::<i64>::new(), diffs);

    let mut text = "ﾘﾝﾃﾞﾗ".to_string();
    let (offsets, diffs) = filter.apply(&mut text).unwrap();
    assert_eq!("ﾘﾝﾃﾞﾗ", text);
    assert_eq!(Vec::<usize>::new(), offsets);
    assert_eq!(Vec::<i64>::new(), diffs);

    let mut text = "１０㌎".to_string();
    let (offsets, diffs) = filter.apply(&mut text).unwrap();
    assert_eq!("１０㌎", text);
    assert_eq!(Vec::<usize>::new(), offsets);
    assert_eq!(Vec::<i64>::new(), diffs);
}

#[test]
fn test_unicode_normalize_character_filter_apply_nfd() {
    let config_str = r#"
        {
            "kind": "nfd"
        }
        "#;
    let filter = UnicodeNormalizeCharacterFilter::from_slice(config_str.as_bytes()).unwrap();

    let mut text = "ＡＢＣＤＥ".to_string();
    let (offsets, diffs) = filter.apply(&mut text).unwrap();
    assert_eq!("ＡＢＣＤＥ", text);
    assert_eq!(Vec::<usize>::new(), offsets);
    assert_eq!(Vec::<i64>::new(), diffs);

    let mut text = "ABCDE".to_string();
    let (offsets, diffs) = filter.apply(&mut text).unwrap();
    assert_eq!("ABCDE", text);
    assert_eq!(Vec::<usize>::new(), offsets);
    assert_eq!(Vec::<i64>::new(), diffs);

    let mut text = "ｱｲｳｴｵ".to_string();
    let (offsets, diffs) = filter.apply(&mut text).unwrap();
    assert_eq!("ｱｲｳｴｵ", text);
    assert_eq!(Vec::<usize>::new(), offsets);
    assert_eq!(Vec::<i64>::new(), diffs);

    let mut text = "アイウエオ".to_string();
    let (offsets, diffs) = filter.apply(&mut text).unwrap();
    assert_eq!("アイウエオ", text);
    assert_eq!(Vec::<usize>::new(), offsets);
    assert_eq!(Vec::<i64>::new(), diffs);

    let mut text = "０１２３４５６７８９".to_string();
    let (offsets, diffs) = filter.apply(&mut text).unwrap();
    assert_eq!("０１２３４５６７８９", text);
    assert_eq!(Vec::<usize>::new(), offsets);
    assert_eq!(Vec::<i64>::new(), diffs);

    let mut text = "ﾘﾝﾃﾞﾗ".to_string();
    let (offsets, diffs) = filter.apply(&mut text).unwrap();
    assert_eq!("ﾘﾝﾃﾞﾗ", text);
    assert_eq!(Vec::<usize>::new(), offsets);
    assert_eq!(Vec::<i64>::new(), diffs);

    let mut text = "１０㌎".to_string();
    let (offsets, diffs) = filter.apply(&mut text).unwrap();
    assert_eq!("１０㌎", text);
    assert_eq!(Vec::<usize>::new(), offsets);
    assert_eq!(Vec::<i64>::new(), diffs);
}

#[test]
fn test_unicode_normalize_character_filter_apply_nfkc() {
    let config_str = r#"
        {
            "kind": "nfkc"
        }
        "#;
    let filter = UnicodeNormalizeCharacterFilter::from_slice(config_str.as_bytes()).unwrap();

    let mut text = "ＡＢＣＤＥ".to_string();
    let (offsets, diffs) = filter.apply(&mut text).unwrap();
    assert_eq!("ABCDE", text);
    assert_eq!(vec![1, 2, 3, 4, 5], offsets);
    assert_eq!(vec![2, 4, 6, 8, 10], diffs);

    let mut text = "ABCDE".to_string();
    let (offsets, diffs) = filter.apply(&mut text).unwrap();
    assert_eq!("ABCDE", text);
    assert_eq!(Vec::<usize>::new(), offsets);
    assert_eq!(Vec::<i64>::new(), diffs);

    let mut text = "ｱｲｳｴｵ".to_string();
    let (offsets, diffs) = filter.apply(&mut text).unwrap();
    assert_eq!("アイウエオ", text);
    assert_eq!(Vec::<usize>::new(), offsets);
    assert_eq!(Vec::<i64>::new(), diffs);

    let mut text = "アイウエオ".to_string();
    let (offsets, diffs) = filter.apply(&mut text).unwrap();
    assert_eq!("アイウエオ", text);
    assert_eq!(Vec::<usize>::new(), offsets);
    assert_eq!(Vec::<i64>::new(), diffs);

    let mut text = "０１２３４５６７８９".to_string();
    let (offsets, diffs) = filter.apply(&mut text).unwrap();
    assert_eq!("0123456789", text);
    assert_eq!(vec![1, 2, 3, 4, 5, 6, 7, 8, 9, 10], offsets);
    assert_eq!(vec![2, 4, 6, 8, 10, 12, 14, 16, 18, 20], diffs);

    let mut text = "ﾘﾝﾃﾞﾗ".to_string();
    let (offsets, diffs) = filter.apply(&mut text).unwrap();
    assert_eq!("リンデラ", text);
    assert_eq!(vec![9, 10, 11, 12], offsets);
    assert_eq!(vec![-1, -2, -3, 3], diffs);

    let mut text = "１０㌎".to_string();
    let (offsets, diffs) = filter.apply(&mut text).unwrap();
    assert_eq!("10ガロン", text);
    assert_eq!(vec![1, 2, 5, 6, 7, 8, 9, 10], offsets);
    assert_eq!(vec![2, 4, 3, 2, 1, 0, -1, -2], diffs);
}

#[test]
fn test_unicode_normalize_character_filter_apply_nfkd() {
    let config_str = r#"
        {
            "kind": "nfkd"
        }
        "#;
    let filter = UnicodeNormalizeCharacterFilter::from_slice(config_str.as_bytes()).unwrap();

    let mut text = "ＡＢＣＤＥ".to_string();
    let (offsets, diffs) = filter.apply(&mut text).unwrap();
    assert_eq!("ABCDE", text);
    assert_eq!(vec![1, 2, 3, 4, 5], offsets);
    assert_eq!(vec![2, 4, 6, 8, 10], diffs);

    let mut text = "ABCDE".to_string();
    let (offsets, diffs) = filter.apply(&mut text).unwrap();
    assert_eq!("ABCDE", text);
    assert_eq!(Vec::<usize>::new(), offsets);
    assert_eq!(Vec::<i64>::new(), diffs);

    let mut text = "ｱｲｳｴｵ".to_string();
    let (offsets, diffs) = filter.apply(&mut text).unwrap();
    assert_eq!("アイウエオ", text);
    assert_eq!(Vec::<usize>::new(), offsets);
    assert_eq!(Vec::<i64>::new(), diffs);

    let mut text = "アイウエオ".to_string();
    let (offsets, diffs) = filter.apply(&mut text).unwrap();
    assert_eq!("アイウエオ", text);
    assert_eq!(Vec::<usize>::new(), offsets);
    assert_eq!(Vec::<i64>::new(), diffs);

    let mut text = "０１２３４５６７８９".to_string();
    let (offsets, diffs) = filter.apply(&mut text).unwrap();
    assert_eq!("0123456789", text);
    assert_eq!(vec![1, 2, 3, 4, 5, 6, 7, 8, 9, 10], offsets);
    assert_eq!(vec![2, 4, 6, 8, 10, 12, 14, 16, 18, 20], diffs);

    let mut text = "ﾘﾝﾃﾞﾗ".to_string();
    let (offsets, diffs) = filter.apply(&mut text).unwrap();
    assert_eq!("リンテ\u{3099}ラ", text);
    assert_eq!(Vec::<usize>::new(), offsets);
    assert_eq!(Vec::<i64>::new(), diffs);

    let mut text = "１０㌎".to_string();
    let (offsets, diffs) = filter.apply(&mut text).unwrap();
    assert_eq!("10カ\u{3099}ロン", text);
    assert_eq!(vec![1, 2, 5, 6, 7, 8, 9, 10, 11, 12, 13], offsets);
    assert_eq!(vec![2, 4, 3, 2, 1, 0, -1, -2, -3, -4, -5], diffs);
}

#[test]
fn test_add_offset_diff_replaces_repeated_offset() {
    let mut offsets: Vec<usize> = Vec::new();
    let mut diffs: Vec<i64> = Vec::new();
    add_offset_diff(&mut offsets, &mut diffs, 3, 2);
    add_offset_diff(&mut offsets, &mut diffs, 3, 5);
    add_offset_diff(&mut offsets, &mut diffs, 7, 6);
    assert_eq!(vec![3, 7], offsets);
    assert_eq!(vec![5, 6], diffs);
}

#[test]
fn test_correct_offset_empty_table_is_identity() {
    let offsets: Vec<usize> = Vec::new();
    let diffs: Vec<i64> = Vec::new();
    assert_eq!(correct_offset(0, &offsets, &diffs, 10), 0);
    assert_eq!(correct_offset(5, &offsets, &diffs, 10), 5);
}

#[test]
fn test_regex_character_filter_rejects_invalid_pattern() {
    let config_str = r#"
        {
            "pattern": "(",
            "replacement": "x"
        }
        "#;
    let result = RegexCharacterFilter::from_slice(config_str.as_bytes());
    assert!(result.is_err());
}

#[test]
fn test_unicode_normalize_character_filter_config_rejects_unknown_kind() {
    let config_str = r#"
        {
            "kind": "nfx"
        }
        "#;
    let result = UnicodeNormalizeCharacterFilterConfig::from_slice(config_str.as_bytes());
    assert!(result.is_err());
}
