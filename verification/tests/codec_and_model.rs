use oxeylyzer::CharCodec;
use oxeylyzer::CodecError;
use oxeylyzer::DataError;
use oxeylyzer::FP;
use oxeylyzer::FastLayout;
use oxeylyzer::LanguageData;
use oxeylyzer::LayoutError;
use oxeylyzer::digits_of;
use oxeylyzer::get_char_data;

#[test]
fn codec_round_trip() {
    let mut codec = CharCodec::new();
    let chars = ['a', 'b', 'c', ';', '/', 'z'];
    for c in chars.iter() {
        codec.insert(*c).unwrap();
    }
    for c in chars.iter() {
        let id = codec.encode(*c).unwrap();
        assert_eq!(codec.decode(id), Some(*c));
    }
}

#[test]
fn codec_insert_is_idempotent() {
    let mut codec = CharCodec::new();
    let a1 = codec.insert('a').unwrap();
    let b = codec.insert('b').unwrap();
    let a2 = codec.insert('a').unwrap();
    assert_eq!(a1, a2);
    assert_eq!(a1, 0);
    assert_eq!(b, 1);
    assert_eq!(codec.len(), 2);
}

#[test]
fn codec_rejects_unknown_and_overflow() {
    let mut codec = CharCodec::new();
    assert_eq!(codec.encode('x'), Err(CodecError::UnknownCharacter));
    // fill all 60 slots with distinct characters
    for i in 0..60u32 {
        let c = char::from_u32('a' as u32 + i).unwrap();
        codec.insert(c).unwrap();
    }
    let overflow = char::from_u32('a' as u32 + 61).unwrap();
    assert_eq!(codec.insert(overflow), Err(CodecError::TooManyCharacters));
}

#[test]
fn encode_many_translates_in_order() {
    let mut codec = CharCodec::new();
    codec.insert('x').unwrap();
    codec.insert('y').unwrap();
    let ids = codec.encode_many(&vec!['y', 'x', 'y']).unwrap();
    assert_eq!(ids, vec![1, 0, 1]);
}

#[test]
fn char_table_last_value_wins() {
    let mut codec = CharCodec::new();
    let data = vec![('a', 5), ('b', 7), ('a', 9)];
    let table = get_char_data(&data, &mut codec).unwrap();
    assert_eq!(table[0], 9);
    assert_eq!(table[1], 7);
    assert_eq!(table[2], 0);
}

#[test]
fn char_table_rejects_bad_frequency() {
    let mut codec = CharCodec::new();
    let data = vec![('a', FP + 1)];
    assert_eq!(get_char_data(&data, &mut codec), Err(DataError::BadFrequency));
    let mut codec = CharCodec::new();
    let data = vec![('a', -1)];
    assert_eq!(get_char_data(&data, &mut codec), Err(DataError::BadFrequency));
}

#[test]
fn trigrams_with_repeats_are_dropped() {
    let characters = vec![('a', 100), ('b', 100), ('c', 100)];
    let empty_pairs: Vec<(char, char, i64)> = Vec::new();
    let trigrams = vec![
        ('a', 'a', 'b', 500),
        ('a', 'b', 'b', 400),
        ('a', 'b', 'c', 300),
        ('a', 'b', 'a', 200),
    ];
    let data = LanguageData::new(
        "testing".to_string(),
        &characters,
        &empty_pairs,
        &empty_pairs,
        &empty_pairs,
        &empty_pairs,
        &trigrams,
    )
    .unwrap();
    // only "abc" and "aba" survive: their consecutive ids differ
    assert_eq!(data.trigrams.len(), 2);
    assert_eq!(data.trigrams[0].freq, 300);
    assert_eq!(data.trigrams[1].freq, 200);
    // order of the input is kept
    assert!(data.trigrams[0].c0 != data.trigrams[0].c1);
    assert!(data.trigrams[0].c1 != data.trigrams[0].c2);
}

#[test]
fn bigram_table_is_keyed_by_id_pair() {
    let characters = vec![('a', 100), ('b', 200)];
    let bigrams = vec![('a', 'b', 111), ('b', 'a', 222), ('a', 'b', 333)];
    let empty_pairs: Vec<(char, char, i64)> = Vec::new();
    let empty_tris: Vec<(char, char, char, i64)> = Vec::new();
    let data = LanguageData::new(
        "testing".to_string(),
        &characters,
        &bigrams,
        &empty_pairs,
        &empty_pairs,
        &empty_pairs,
        &empty_tris,
    )
    .unwrap();
    // id of 'a' is 0, of 'b' is 1; the last value of a repeated pair wins
    assert_eq!(data.bigrams[0 * 60 + 1], 333);
    assert_eq!(data.bigrams[1 * 60 + 0], 222);
    assert_eq!(data.bigrams[0], 0);
}

#[test]
fn ngrams_extend_the_codec() {
    let characters = vec![('a', 100)];
    let bigrams = vec![('a', 'q', 50)];
    let empty_pairs: Vec<(char, char, i64)> = Vec::new();
    let empty_tris: Vec<(char, char, char, i64)> = Vec::new();
    let data = LanguageData::new(
        "testing".to_string(),
        &characters,
        &bigrams,
        &empty_pairs,
        &empty_pairs,
        &empty_pairs,
        &empty_tris,
    )
    .unwrap();
    // 'q' was inserted by the bigram pass, with no frequency mass of its own
    assert_eq!(data.convert_u8.len(), 2);
    assert_eq!(data.characters[1], 0);
    assert_eq!(data.bigrams[0 * 60 + 1], 50);
}

#[test]
fn decimal_suffixes() {
    let as_string = |v: Vec<char>| v.into_iter().collect::<String>();
    assert_eq!(as_string(digits_of(0)), "0");
    assert_eq!(as_string(digits_of(1)), "1");
    assert_eq!(as_string(digits_of(10)), "10");
    assert_eq!(as_string(digits_of(907)), "907");
}

#[test]
fn generation_needs_thirty_characters() {
    let characters = vec![('a', 100), ('b', 100)];
    let empty_pairs: Vec<(char, char, i64)> = Vec::new();
    let empty_tris: Vec<(char, char, char, i64)> = Vec::new();
    let data = LanguageData::new(
        "testing".to_string(),
        &characters,
        &empty_pairs,
        &empty_pairs,
        &empty_pairs,
        &empty_pairs,
        &empty_tris,
    )
    .unwrap();
    let r = oxeylyzer::LayoutGeneration::new(data, 1000, None);
    assert!(matches!(r, Err(DataError::TooFewCharacters)));
}

#[test]
fn from_ids_rejects_bad_input() {
    let short: Vec<u8> = vec![0, 1, 2];
    assert!(matches!(FastLayout::from_ids(&short), Err(LayoutError::TooShort)));
    let mut high: Vec<u8> = (0..30).collect();
    high[7] = 60;
    assert!(matches!(FastLayout::from_ids(&high), Err(LayoutError::OutOfRange)));
    let mut doubled: Vec<u8> = (0..30).collect();
    doubled[9] = 3;
    assert!(matches!(FastLayout::from_ids(&doubled), Err(LayoutError::DuplicateKey)));
}
