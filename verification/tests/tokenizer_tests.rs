use lindera::character_definition::{CategoryData, CategoryId, CharacterDefinitions};
use lindera::connection::ConnectionCostMatrix;
use lindera::dictionary::{Dictionary, UserDictionary};
use lindera::formatter::{is_unkown, Format};
use lindera::ko_dic;
use lindera::prefix_dict::PrefixDict;
use lindera::token_filter::FilteredToken;
use lindera::tokenizer::Tokenizer;
use lindera::unknown_dictionary::UnknownDictionary;
use lindera::viterbi::{Mode, Penalty};
use lindera::word_entry::{WordEntry, WordId};

fn entry(cost: i16) -> WordEntry {
    WordEntry {
        word_cost: cost,
        left_id: 0,
        right_id: 0,
    }
}

fn small_dictionary() -> Dictionary {
    let keys: Vec<(Vec<u8>, Vec<u32>)> = vec![
        ("東京".as_bytes().to_vec(), vec![0]),
        ("東京都".as_bytes().to_vec(), vec![1]),
        ("都".as_bytes().to_vec(), vec![2]),
    ];
    Dictionary {
        dict: PrefixDict { keys },
        entries: vec![entry(-100), entry(-300), entry(-80)],
        cost_matrix: ConnectionCostMatrix {
            forward_size: 1,
            backward_size: 1,
            costs: vec![10],
        },
        char_definitions: CharacterDefinitions {
            category_definitions: vec![CategoryData {
                invoke: false,
                group: true,
                max_length: 4,
            }],
            mapping: Vec::new(),
        },
        unknown_dictionary: UnknownDictionary {
            category_references: vec![vec![0]],
            costs: vec![entry(1000)],
        },
        words_idx_data: Vec::new(),
        words_data: Vec::new(),
    }
}

#[test]
fn test_tokenize_prefers_cheaper_segmentation() {
    let tokenizer = Tokenizer::new(small_dictionary(), None, Mode::Normal).unwrap();
    let tokens = tokenizer.tokenize("東京都").unwrap();
    let texts: Vec<&str> = tokens.iter().map(|t| t.text.as_str()).collect();
    // One word of cost -300 beats 東京 + 都 at -100 + 10 - 80.
    assert_eq!(texts, vec!["東京都"]);
    assert_eq!(tokens[0].byte_start, 0);
    assert_eq!(tokens[0].byte_end, 9);
    assert_eq!(tokens[0].word_id, WordId(1, true));
}

#[test]
fn test_tokenize_byte_ranges_tile_the_text() {
    let tokenizer = Tokenizer::new(small_dictionary(), None, Mode::Normal).unwrap();
    let text = "東京abc都x東京都";
    let tokens = tokenizer.tokenize(text).unwrap();
    assert!(!tokens.is_empty());
    assert_eq!(tokens[0].byte_start, 0);
    assert_eq!(tokens.last().unwrap().byte_end, text.len());
    for w in tokens.windows(2) {
        assert_eq!(w[0].byte_end, w[1].byte_start);
    }
    for t in &tokens {
        assert!(t.byte_start < t.byte_end);
        assert_eq!(&text[t.byte_start..t.byte_end], t.text.as_str());
    }
}

#[test]
fn test_tokenize_empty_text_yields_no_tokens() {
    let tokenizer = Tokenizer::new(small_dictionary(), None, Mode::Normal).unwrap();
    let tokens = tokenizer.tokenize("").unwrap();
    assert!(tokens.is_empty());
}

#[test]
fn test_tokenize_nonempty_text_yields_a_token() {
    let tokenizer = Tokenizer::new(small_dictionary(), None, Mode::Normal).unwrap();
    // Nothing in the dictionary matches; the unknown-word fallback must cover.
    let tokens = tokenizer.tokenize("xyz").unwrap();
    assert!(!tokens.is_empty());
}

#[test]
fn test_tokenize_is_deterministic() {
    let tokenizer = Tokenizer::new(small_dictionary(), None, Mode::Normal).unwrap();
    let text = "東京都x東京";
    let a = tokenizer.tokenize(text).unwrap();
    let b = tokenizer.tokenize(text).unwrap();
    assert_eq!(a.len(), b.len());
    for (x, y) in a.iter().zip(b.iter()) {
        assert_eq!(x.text, y.text);
        assert_eq!(x.byte_start, y.byte_start);
        assert_eq!(x.byte_end, y.byte_end);
        assert_eq!(x.word_id, y.word_id);
        assert_eq!(x.position, y.position);
    }
}

#[test]
fn test_tokenize_unknown_grouping_caps_run_length() {
    let mut dict = small_dictionary();
    dict.char_definitions.category_definitions[0].max_length = 2;
    let tokenizer = Tokenizer::new(dict, None, Mode::Normal).unwrap();
    let tokens = tokenizer.tokenize("abcde").unwrap();
    let texts: Vec<&str> = tokens.iter().map(|t| t.text.as_str()).collect();
    assert_eq!(texts, vec!["ab", "cd", "e"]);
}

#[test]
fn test_tokenize_unknown_token_details_are_the_sentinel() {
    let tokenizer = Tokenizer::new(small_dictionary(), None, Mode::Normal).unwrap();
    let mut tokens = tokenizer.tokenize("zz").unwrap();
    assert_eq!(tokens.len(), 1);
    assert!(tokens[0].word_id.is_unknown());
    let details = tokens[0].get_details().unwrap();
    assert_eq!(details, vec!["UNK".to_string()]);
    assert!(is_unkown(&tokens[0]));
}

#[test]
fn test_tokenize_with_user_dictionary_overlay() {
    let user = UserDictionary {
        dict: PrefixDict {
            keys: vec![("abc".as_bytes().to_vec(), vec![0])],
        },
        entries: vec![entry(-500)],
        words_idx_data: Vec::new(),
        words_data: Vec::new(),
    };
    let tokenizer = Tokenizer::new(small_dictionary(), Some(user), Mode::Normal).unwrap();
    let tokens = tokenizer.tokenize("abc東京").unwrap();
    let texts: Vec<&str> = tokens.iter().map(|t| t.text.as_str()).collect();
    assert_eq!(texts, vec!["abc", "東京"]);
    assert_eq!(tokens[0].word_id, WordId(0, false));
    assert_eq!(tokens[1].word_id, WordId(0, true));
}

#[test]
fn test_tokenize_decompose_mode_splits_long_compounds() {
    let penalty = Penalty {
        kanji_penalty_length_threshold: 2,
        kanji_penalty_length_penalty: 3000,
        other_penalty_length_threshold: 7,
        other_penalty_length_penalty: 1700,
    };
    let tokenizer =
        Tokenizer::new(small_dictionary(), None, Mode::Decompose(penalty)).unwrap();
    // 東京都 spans three kanji: the decompose penalty of 3000 outweighs its
    // cost advantage, so the two-word path wins.
    let tokens = tokenizer.tokenize("東京都").unwrap();
    let texts: Vec<&str> = tokens.iter().map(|t| t.text.as_str()).collect();
    assert_eq!(texts, vec!["東京", "都"]);
}

#[test]
fn test_tokenizer_new_rejects_inconsistent_tables() {
    let mut dict = small_dictionary();
    // A prefix key that points outside the entry array must be rejected.
    dict.dict.keys.push(("x".as_bytes().to_vec(), vec![99]));
    assert!(Tokenizer::new(dict, None, Mode::Normal).is_err());
}

#[test]
fn test_word_details_reads_the_word_blobs() {
    let mut dict = small_dictionary();
    // One word whose record holds two fields: "名詞" and "*".
    let mut words: Vec<u8> = Vec::new();
    words.extend_from_slice(&2u32.to_le_bytes());
    let f0 = "名詞".as_bytes();
    words.extend_from_slice(&(f0.len() as u32).to_le_bytes());
    words.extend_from_slice(f0);
    let f1 = "*".as_bytes();
    words.extend_from_slice(&(f1.len() as u32).to_le_bytes());
    words.extend_from_slice(f1);
    let idx = 0u32.to_le_bytes().to_vec();
    dict.words_idx_data = idx;
    dict.words_data = words;
    let details = dict.word_details(0).unwrap();
    assert_eq!(details, vec!["名詞".to_string(), "*".to_string()]);
    assert!(dict.word_details(1).is_none());
}

#[test]
fn test_token_get_details_resolves_and_caches() {
    let mut dict = small_dictionary();
    let mut words: Vec<u8> = Vec::new();
    words.extend_from_slice(&1u32.to_le_bytes());
    let f0 = "名詞".as_bytes();
    words.extend_from_slice(&(f0.len() as u32).to_le_bytes());
    words.extend_from_slice(f0);
    dict.words_idx_data = 0u32.to_le_bytes().to_vec();
    dict.words_data = words;
    let tokenizer = Tokenizer::new(dict, None, Mode::Normal).unwrap();
    let mut tokens = tokenizer.tokenize("東京").unwrap();
    assert_eq!(tokens[0].word_id, WordId(0, true));
    let details = tokens[0].get_details().unwrap();
    assert_eq!(details, vec!["名詞".to_string()]);
    // A second access reads the cache.
    let again = tokens[0].get_details().unwrap();
    assert_eq!(again, vec!["名詞".to_string()]);
}

#[test]
fn test_connection_cost_matrix_load_round_trip() {
    let mut blob: Vec<u8> = Vec::new();
    blob.extend_from_slice(&2u16.to_le_bytes());
    blob.extend_from_slice(&2u16.to_le_bytes());
    for c in [0i16, 5, -7, 100] {
        blob.extend_from_slice(&c.to_le_bytes());
    }
    let matrix = ConnectionCostMatrix::load(&blob).unwrap();
    assert_eq!(matrix.forward_size, 2);
    assert_eq!(matrix.backward_size, 2);
    assert_eq!(matrix.cost(0, 1), 5);
    assert_eq!(matrix.cost(1, 0), -7);
    assert_eq!(matrix.cost(1, 1), 100);
    assert!(ConnectionCostMatrix::load(&blob[..7].to_vec()).is_err());
}

#[test]
fn test_unknown_dictionary_load_round_trip() {
    let mut blob: Vec<u8> = Vec::new();
    blob.extend_from_slice(&1u32.to_le_bytes());
    blob.extend_from_slice(&1u32.to_le_bytes());
    blob.extend_from_slice(&0u32.to_le_bytes());
    blob.extend_from_slice(&1u32.to_le_bytes());
    blob.extend_from_slice(&(-10i16).to_le_bytes());
    blob.extend_from_slice(&3u16.to_le_bytes());
    blob.extend_from_slice(&4u16.to_le_bytes());
    let unk = UnknownDictionary::load(&blob).unwrap();
    assert_eq!(unk.lookup_word_ids(CategoryId(0)), &vec![0u32]);
    let e = unk.word_entry(0);
    assert_eq!(e.word_cost, -10);
    assert_eq!(e.left_id, 3);
    assert_eq!(e.right_id, 4);
    assert!(UnknownDictionary::load(&blob[..5].to_vec()).is_err());
}

#[test]
fn test_character_definitions_load_round_trip() {
    let mut blob: Vec<u8> = Vec::new();
    blob.extend_from_slice(&1u32.to_le_bytes());
    blob.push(1);
    blob.push(0);
    blob.extend_from_slice(&3u32.to_le_bytes());
    blob.extend_from_slice(&1u32.to_le_bytes());
    blob.extend_from_slice(&0x30u32.to_le_bytes());
    blob.extend_from_slice(&0x39u32.to_le_bytes());
    blob.extend_from_slice(&1u32.to_le_bytes());
    blob.extend_from_slice(&0u32.to_le_bytes());
    let defs = CharacterDefinitions::load(&blob).unwrap();
    assert_eq!(defs.category_count(), 1);
    let data = defs.lookup_definition(0);
    assert!(data.invoke);
    assert!(!data.group);
    assert_eq!(data.max_length, 3);
    assert_eq!(defs.lookup_categories('5'), vec![0u32]);
    assert_eq!(defs.lookup_categories('x'), vec![0u32]);
    assert!(CharacterDefinitions::load(&blob[..9].to_vec()).is_err());
}

#[test]
fn test_prefix_dict_from_static_slice_round_trip() {
    let mut index: Vec<u8> = Vec::new();
    index.extend_from_slice(&1u32.to_le_bytes());
    index.extend_from_slice(&3u32.to_le_bytes());
    index.extend_from_slice("abc".as_bytes());
    let mut vals: Vec<u8> = Vec::new();
    vals.extend_from_slice(&1u32.to_le_bytes());
    vals.extend_from_slice(&1u32.to_le_bytes());
    vals.extend_from_slice(&7u32.to_le_bytes());
    let dict = PrefixDict::from_static_slice(&index, &vals).unwrap();
    let text = "abcd".as_bytes().to_vec();
    assert_eq!(dict.prefix(&text, 0), vec![(3usize, 7u32)]);
    assert_eq!(dict.prefix(&text, 1), Vec::<(usize, u32)>::new());
}

#[test]
fn test_format_mecab_and_wakati() {
    let tokens = vec![
        FilteredToken {
            text: "東京".to_string(),
            byte_start: 0,
            byte_end: 6,
            position: 0,
            position_length: 1,
            word_id: WordId(0, true),
            details: vec!["名詞".to_string(), "固有名詞".to_string()],
        },
        FilteredToken {
            text: "都".to_string(),
            byte_start: 6,
            byte_end: 9,
            position: 1,
            position_length: 1,
            word_id: WordId(1, true),
            details: vec!["名詞".to_string()],
        },
    ];
    let mecab = lindera::formatter::format(tokens.clone(), Format::Mecab).unwrap();
    assert_eq!(mecab, "東京\t名詞,固有名詞\n都\t名詞\nEOS");
    let wakati = lindera::formatter::format(tokens.clone(), Format::Wakati).unwrap();
    assert_eq!(wakati, "東京 都");
    let json = lindera::formatter::format(tokens, Format::Json).unwrap();
    assert_eq!(
        json,
        "[{\"text\":\"東京\",\"details\":[\"名詞\",\"固有名詞\"],\"byte_start\":0,\"byte_end\":6},{\"text\":\"都\",\"details\":[\"名詞\"],\"byte_start\":6,\"byte_end\":9}]"
    );
}

#[test]
fn test_format_from_str_names() {
    assert_eq!(Format::from_str("mecab").unwrap(), Format::Mecab);
    assert_eq!(Format::from_str("wakati").unwrap(), Format::Wakati);
    assert_eq!(Format::from_str("json").unwrap(), Format::Json);
    assert!(Format::from_str("yaml").is_err());
}

#[test]
fn test_ko_dic_build_has_no_bundled_data() {
    assert!(ko_dic::load_dictionary().is_err());
    assert!(ko_dic::char_def().is_err());
    assert!(ko_dic::unknown_dict().is_err());
    assert_eq!(ko_dic::connection().forward_size, 0);
    assert_eq!(ko_dic::prefix_dict().keys.len(), 0);
    assert!(ko_dic::words_idx_data().is_empty());
    assert!(ko_dic::words_data().is_empty());
}

#[test]
fn test_json_configuration_rejects_malformed_documents() {
    assert!(lindera::json::parse_json(&b"{".to_vec()).is_err());
    assert!(lindera::json::parse_json(&b"{\"kind\": }".to_vec()).is_err());
    assert!(lindera::json::parse_json(&b"3.5".to_vec()).is_err());
    assert!(lindera::json::parse_json(&b"{\"a\": 1} trailing".to_vec()).is_err());
    assert!(lindera::json::parse_json(&b"{\"a\": 1}".to_vec()).is_ok());
    assert!(lindera::json::parse_json(&b"[true, false, null, \"s\\u0041\"]".to_vec()).is_ok());
}

#[test]
fn test_prefix_dict_load_rejects_trailing_bytes() {
    let mut index: Vec<u8> = Vec::new();
    index.extend_from_slice(&1u32.to_le_bytes());
    index.extend_from_slice(&3u32.to_le_bytes());
    index.extend_from_slice("abc".as_bytes());
    let mut vals: Vec<u8> = Vec::new();
    vals.extend_from_slice(&1u32.to_le_bytes());
    vals.extend_from_slice(&1u32.to_le_bytes());
    vals.extend_from_slice(&7u32.to_le_bytes());
    assert!(PrefixDict::from_static_slice(&index, &vals).is_ok());
    index.push(0);
    assert!(PrefixDict::from_static_slice(&index, &vals).is_err());
}

#[test]
fn test_word_entries_blob_round_trip() {
    let mut blob: Vec<u8> = Vec::new();
    blob.extend_from_slice(&2u32.to_le_bytes());
    for (c, l, r) in [(-5i16, 1u16, 2u16), (7i16, 3u16, 4u16)] {
        blob.extend_from_slice(&c.to_le_bytes());
        blob.extend_from_slice(&l.to_le_bytes());
        blob.extend_from_slice(&r.to_le_bytes());
    }
    let entries = lindera::word_entry::load_word_entries(&blob).unwrap();
    assert_eq!(entries.len(), 2);
    assert_eq!(entries[0].word_cost, -5);
    assert_eq!(entries[0].left_id, 1);
    assert_eq!(entries[1].right_id, 4);
    assert!(lindera::word_entry::load_word_entries(&blob[..10].to_vec()).is_err());
}

#[test]
fn test_format_from_str_rejects_other_names() {
    assert!(Format::from_str("").is_err());
    assert!(Format::from_str("mecab ").is_err());
}
