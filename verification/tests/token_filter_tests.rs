use lindera::token_filter::japanese_kana::{
    JapaneseKanaTokenFilter, JapaneseKanaTokenFilterConfig, KanaKind,
};
use lindera::token_filter::japanese_reading_form::{
    DictionaryKind, JapaneseReadingFormTokenFilter, JapaneseReadingFormTokenFilterConfig,
};
use lindera::token_filter::FilteredToken;
use lindera::word_entry::WordId;

fn token(
    text: &str,
    byte_start: usize,
    byte_end: usize,
    position: usize,
    word_id: WordId,
    details: Vec<String>,
) -> FilteredToken {
    FilteredToken {
        text: text.to_string(),
        byte_start,
        byte_end,
        position,
        position_length: 1,
        word_id,
        details,
    }
}

fn details(fields: &[&str]) -> Vec<String> {
    fields.iter().map(|s| s.to_string()).collect()
}

#[test]
fn test_japanese_kana_token_filter_config_from_slice_hiragana() {
    let config_str = r#"
        {
            "kind": "hiragana"
        }
        "#;
    let config = JapaneseKanaTokenFilterConfig::from_slice(config_str.as_bytes()).unwrap();

    assert_eq!(config.kind, KanaKind::Hiragana);
}

#[test]
fn test_japanese_kana_token_filter_config_from_slice_katakana() {
    let config_str = r#"
        {
            "kind": "katakana"
        }
        "#;
    let config = JapaneseKanaTokenFilterConfig::from_slice(config_str.as_bytes()).unwrap();

    assert_eq!(config.kind, KanaKind::Katakana);
}

#[test]
fn test_japanese_kana_token_filter_from_slice_hiragana() {
    let config_str = r#"
        {
            "kind": "hiragana"
        }
        "#;
    let result = JapaneseKanaTokenFilter::from_slice(config_str.as_bytes());

    assert_eq!(true, result.is_ok());
}

#[test]
fn test_japanese_kana_token_filter_from_slice_katakana() {
    let config_str = r#"
        {
            "kind": "katakana"
        }
        "#;
    let result = JapaneseKanaTokenFilter::from_slice(config_str.as_bytes());

    assert_eq!(true, result.is_ok());
}

#[test]
fn test_japanese_kana_token_filter_apply_katakana_to_hiragana_ipadic() {
    let config_str = r#"
            {
                "kind": "hiragana"
            }
            "#;
    let filter = JapaneseKanaTokenFilter::from_slice(config_str.as_bytes()).unwrap();

    let mut tokens: Vec<FilteredToken> = vec![
        token(
            "羽田空港",
            0,
            12,
            0,
            WordId(321702, true),
            details(&[
                "名詞",
                "固有名詞",
                "一般",
                "*",
                "*",
                "*",
                "羽田空港",
                "ハネダクウコウ",
                "ハネダクーコー",
            ]),
        ),
        token(
            "限定",
            12,
            18,
            1,
            WordId(374175, true),
            details(&["名詞", "サ変接続", "*", "*", "*", "*", "限定", "ゲンテイ", "ゲンテイ"]),
        ),
        token(
            "トートバッグ",
            18,
            36,
            2,
            WordId(4294967295, true),
            details(&["UNK"]),
        ),
    ];

    filter.apply(&mut tokens).unwrap();

    assert_eq!(tokens.len(), 3);
    assert_eq!(&tokens[0].text, "羽田空港");
    assert_eq!(&tokens[1].text, "限定");
    assert_eq!(&tokens[2].text, "とーとばっぐ");
}

#[test]
fn test_japanese_kana_token_filter_apply_hiragana_to_katakana_ipadic() {
    let config_str = r#"
            {
                "kind": "katakana"
            }
            "#;
    let filter = JapaneseKanaTokenFilter::from_slice(config_str.as_bytes()).unwrap();

    let mut tokens: Vec<FilteredToken> = vec![
        token(
            "埼玉",
            0,
            6,
            0,
            WordId(171030, true),
            details(&["名詞", "固有名詞", "地域", "一般", "*", "*", "埼玉", "サイタマ", "サイタマ"]),
        ),
        token(
            "県",
            6,
            9,
            1,
            WordId(298064, true),
            details(&["名詞", "接尾", "地域", "*", "*", "*", "県", "ケン", "ケン"]),
        ),
        token(
            "さいたま",
            9,
            21,
            2,
            WordId(28502, true),
            details(&[
                "名詞",
                "固有名詞",
                "一般",
                "*",
                "*",
                "*",
                "さいたま",
                "サイタマ",
                "サイタマ",
            ]),
        ),
        token(
            "市",
            21,
            24,
            3,
            WordId(202045, true),
            details(&["名詞", "接尾", "地域", "*", "*", "*", "市", "シ", "シ"]),
        ),
    ];

    filter.apply(&mut tokens).unwrap();

    assert_eq!(tokens.len(), 4);
    assert_eq!(&tokens[0].text, "埼玉");
    assert_eq!(&tokens[1].text, "県");
    assert_eq!(&tokens[2].text, "サイタマ");
    assert_eq!(&tokens[3].text, "市");
}

#[test]
fn test_japanese_kana_token_filter_apply_katakana_to_katakana_ipadic() {
    let config_str = r#"
            {
                "kind": "katakana"
            }
            "#;
    let filter = JapaneseKanaTokenFilter::from_slice(config_str.as_bytes()).unwrap();

    let mut tokens: Vec<FilteredToken> = vec![
        token(
            "羽田空港",
            0,
            12,
            0,
            WordId(321702, true),
            details(&[
                "名詞",
                "固有名詞",
                "一般",
                "*",
                "*",
                "*",
                "羽田空港",
                "ハネダクウコウ",
                "ハネダクーコー",
            ]),
        ),
        token(
            "限定",
            12,
            18,
            1,
            WordId(374175, true),
            details(&["名詞", "サ変接続", "*", "*", "*", "*", "限定", "ゲンテイ", "ゲンテイ"]),
        ),
        token(
            "トートバッグ",
            18,
            36,
            2,
            WordId(4294967295, true),
            details(&["UNK"]),
        ),
    ];

    filter.apply(&mut tokens).unwrap();

    assert_eq!(tokens.len(), 3);
    assert_eq!(&tokens[0].text, "羽田空港");
    assert_eq!(&tokens[1].text, "限定");
    assert_eq!(&tokens[2].text, "トートバッグ");
}

#[test]
fn test_japanese_kana_token_filter_apply_hiragana_to_hiragana_ipadic() {
    let config_str = r#"
            {
                "kind": "hiragana"
            }
            "#;
    let filter = JapaneseKanaTokenFilter::from_slice(config_str.as_bytes()).unwrap();

    let mut tokens: Vec<FilteredToken> = vec![
        token(
            "埼玉",
            0,
            6,
            0,
            WordId(171030, true),
            details(&["名詞", "固有名詞", "地域", "一般", "*", "*", "埼玉", "サイタマ", "サイタマ"]),
        ),
        token(
            "県",
            6,
            9,
            1,
            WordId(298064, true),
            details(&["名詞", "接尾", "地域", "*", "*", "*", "県", "ケン", "ケン"]),
        ),
        token(
            "さいたま",
            9,
            21,
            2,
            WordId(28502, true),
            details(&[
                "名詞",
                "固有名詞",
                "一般",
                "*",
                "*",
                "*",
                "さいたま",
                "サイタマ",
                "サイタマ",
            ]),
        ),
        token(
            "市",
            21,
            24,
            3,
            WordId(202045, true),
            details(&["名詞", "接尾", "地域", "*", "*", "*", "市", "シ", "シ"]),
        ),
    ];

    filter.apply(&mut tokens).unwrap();

    assert_eq!(tokens.len(), 4);
    assert_eq!(&tokens[0].text, "埼玉");
    assert_eq!(&tokens[1].text, "県");
    assert_eq!(&tokens[2].text, "さいたま");
    assert_eq!(&tokens[3].text, "市");
}

#[test]
fn test_japanese_kana_token_filter_apply_mixed_to_katakana_ipadic() {
    let config_str = r#"
            {
                "kind": "katakana"
            }
            "#;
    let filter = JapaneseKanaTokenFilter::from_slice(config_str.as_bytes()).unwrap();

    let mut tokens: Vec<FilteredToken> = vec![
        token(
            "東京",
            0,
            6,
            0,
            WordId(250023, true),
            details(&["名詞", "固有名詞", "地域", "一般", "*", "*", "東京", "トウキョウ", "トーキョー"]),
        ),
        token(
            "都",
            6,
            9,
            1,
            WordId(364736, true),
            details(&["名詞", "接尾", "地域", "*", "*", "*", "都", "ト", "ト"]),
        ),
        token(
            "あきる野",
            9,
            21,
            2,
            WordId(927, true),
            details(&[
                "名詞",
                "固有名詞",
                "地域",
                "一般",
                "*",
                "*",
                "あきる野",
                "アキルノ",
                "アキルノ",
            ]),
        ),
        token(
            "市",
            21,
            24,
            3,
            WordId(202045, true),
            details(&["名詞", "接尾", "地域", "*", "*", "*", "市", "シ", "シ"]),
        ),
    ];

    filter.apply(&mut tokens).unwrap();

    assert_eq!(tokens.len(), 4);
    assert_eq!(&tokens[0].text, "東京");
    assert_eq!(&tokens[1].text, "都");
    assert_eq!(&tokens[2].text, "アキル野");
    assert_eq!(&tokens[3].text, "市");
}

#[test]
fn test_japanese_kana_token_filter_applymixed_to_hiragana_ipadic() {
    let config_str = r#"
            {
                "kind": "hiragana"
            }
            "#;
    let filter = JapaneseKanaTokenFilter::from_slice(config_str.as_bytes()).unwrap();

    let mut tokens: Vec<FilteredToken> = vec![
        token(
            "南北線",
            0,
            9,
            0,
            WordId(151151, true),
            details(&[
                "名詞",
                "固有名詞",
                "一般",
                "*",
                "*",
                "*",
                "南北線",
                "ナンボクセン",
                "ナンボクセン",
            ]),
        ),
        token(
            "四ツ谷",
            9,
            18,
            1,
            WordId(166998, true),
            details(&["名詞", "固有名詞", "地域", "一般", "*", "*", "四ツ谷", "ヨツヤ", "ヨツヤ"]),
        ),
        token(
            "駅",
            18,
            21,
            2,
            WordId(383791, true),
            details(&["名詞", "接尾", "地域", "*", "*", "*", "駅", "エキ", "エキ"]),
        ),
    ];

    filter.apply(&mut tokens).unwrap();

    assert_eq!(tokens.len(), 3);
    assert_eq!(&tokens[0].text, "南北線");
    assert_eq!(&tokens[1].text, "四つ谷");
    assert_eq!(&tokens[2].text, "駅");
}

#[test]
fn test_japanese_reading_form_token_filter_config_from_slice_ipadic() {
    let config_str = r#"
        {
            "kind": "ipadic"
        }
        "#;
    let config = JapaneseReadingFormTokenFilterConfig::from_slice(config_str.as_bytes()).unwrap();

    assert_eq!(config.kind, DictionaryKind::IPADIC);
}

#[test]
fn test_japanese_reading_form_token_filter_config_from_slice_unidic() {
    let config_str = r#"
        {
            "kind": "unidic"
        }
        "#;
    let config = JapaneseReadingFormTokenFilterConfig::from_slice(config_str.as_bytes()).unwrap();

    assert_eq!(config.kind, DictionaryKind::UniDic);
}

#[test]
fn test_japanese_reading_form_token_filter_from_slice_ipadic() {
    let config_str = r#"
        {
            "kind": "ipadic"
        }
        "#;
    let result = JapaneseReadingFormTokenFilter::from_slice(config_str.as_bytes());

    assert_eq!(true, result.is_ok());
}

#[test]
fn test_japanese_reading_form_token_filter_from_slice_unidic() {
    let config_str = r#"
        {
            "kind": "unidic"
        }
        "#;
    let result = JapaneseReadingFormTokenFilter::from_slice(config_str.as_bytes());

    assert_eq!(true, result.is_ok());
}

#[test]
fn test_japanese_reading_form_token_filter_apply_ipadic() {
    let config_str = r#"
        {
            "kind": "ipadic"
        }
        "#;
    let filter = JapaneseReadingFormTokenFilter::from_slice(config_str.as_bytes()).unwrap();

    let mut tokens: Vec<FilteredToken> = vec![
        token(
            "羽田空港",
            0,
            12,
            0,
            WordId(0, true),
            details(&[
                "名詞",
                "固有名詞",
                "一般",
                "*",
                "*",
                "*",
                "羽田空港",
                "ハネダクウコウ",
                "ハネダクーコー",
            ]),
        ),
        token(
            "限定",
            12,
            18,
            1,
            WordId(0, true),
            details(&["名詞", "サ変接続", "*", "*", "*", "*", "限定", "ゲンテイ", "ゲンテイ"]),
        ),
        token(
            "トートバッグ",
            18,
            36,
            2,
            WordId(0, true),
            details(&["UNK"]),
        ),
    ];

    filter.apply(&mut tokens).unwrap();

    assert_eq!(tokens.len(), 3);
    assert_eq!(&tokens[0].text, "ハネダクウコウ");
    assert_eq!(&tokens[1].text, "ゲンテイ");
    assert_eq!(&tokens[2].text, "トートバッグ");
}

#[test]
fn test_japanese_reading_form_token_filter_apply_unidic() {
    let config_str = r#"
        {
            "kind": "unidic"
        }
        "#;
    let filter = JapaneseReadingFormTokenFilter::from_slice(config_str.as_bytes()).unwrap();

    let mut tokens: Vec<FilteredToken> = vec![
        token(
            "羽田",
            0,
            6,
            0,
            WordId(0, true),
            details(&[
                "名詞", "固有名詞", "人名", "姓", "*", "*", "ハタ", "ハタ", "羽田", "ハタ", "羽田", "ハタ", "固",
                "*", "*", "*", "*",
            ]),
        ),
        token(
            "空港",
            6,
            12,
            1,
            WordId(0, true),
            details(&[
                "名詞", "普通名詞", "一般", "*", "*", "*", "クウコウ", "空港", "空港", "クーコー", "空港", "クーコー",
                "漢", "*", "*", "*", "*",
            ]),
        ),
        token(
            "限定",
            12,
            18,
            2,
            WordId(0, true),
            details(&[
                "名詞", "普通名詞", "サ変可能", "*", "*", "*", "ゲンテイ", "限定", "限定", "ゲンテー", "限定",
                "ゲンテー", "漢", "*", "*", "*", "*",
            ]),
        ),
        token(
            "トート",
            18,
            27,
            3,
            WordId(0, true),
            details(&[
                "名詞", "普通名詞", "一般", "*", "*", "*", "トート", "トート", "トート", "トート", "トート", "トート",
                "外", "*", "*", "*", "*",
            ]),
        ),
        token(
            "バッグ",
            27,
            36,
            4,
            WordId(0, true),
            details(&[
                "名詞", "普通名詞", "一般", "*", "*", "*", "バッグ", "バッグ-bag", "バッグ", "バッグ", "バッグ",
                "バッグ", "外", "*", "*", "*", "*",
            ]),
        ),
    ];

    filter.apply(&mut tokens).unwrap();

    assert_eq!(tokens.len(), 5);
    assert_eq!(&tokens[0].text, "ハタ");
    assert_eq!(&tokens[1].text, "クウコウ");
    assert_eq!(&tokens[2].text, "ゲンテイ");
    assert_eq!(&tokens[3].text, "トート");
    assert_eq!(&tokens[4].text, "バッグ");
}

#[test]
fn test_japanese_reading_form_token_filter_unk_is_untouched() {
    let config_str = r#"
        {
            "kind": "ipadic"
        }
        "#;
    let filter = JapaneseReadingFormTokenFilter::from_slice(config_str.as_bytes()).unwrap();

    let mut tokens: Vec<FilteredToken> = vec![token(
        "トートバッグ",
        0,
        18,
        0,
        WordId(4294967295, true),
        details(&["UNK"]),
    )];

    filter.apply(&mut tokens).unwrap();

    assert_eq!(&tokens[0].text, "トートバッグ");
    assert_eq!(tokens[0].details, details(&["UNK"]));
    assert_eq!(tokens[0].byte_start, 0);
    assert_eq!(tokens[0].byte_end, 18);
}

#[test]
fn test_japanese_kana_token_filter_config_rejects_unknown_kind() {
    let config_str = r#"
        {
            "kind": "romaji"
        }
        "#;
    let result = JapaneseKanaTokenFilterConfig::from_slice(config_str.as_bytes());

    assert!(result.is_err());
}
