use vibrato_rkyv::dictionary::character::CharProperty;
use vibrato_rkyv::dictionary::unknown::UnkHandler;
use vibrato_rkyv::dictionary::lexicon::feature::WordFeatures;
use vibrato_rkyv::dictionary::mapper::ConnIdMapper;
use vibrato_rkyv::dictionary::model::{read_model, write_model};
use vibrato_rkyv::dictionary::{Dictionary, DictionaryInner, SystemDictionaryBuilder};
use vibrato_rkyv::errors::{Source, VibratoError};
use vibrato_rkyv::legacy::dictionary::connector::MatrixConnector as LegacyMatrixConnector;
use vibrato_rkyv::legacy::dictionary::lexicon::feature::WordFeatures as LegacyWordFeatures;
use vibrato_rkyv::legacy::dictionary::mapper::ConnIdMapper as LegacyConnIdMapper;
use vibrato_rkyv::mapping::{load_mapping, parse_mapping};
use vibrato_rkyv::Tokenizer;

const SMALL_LEX: &str = "a,0,0,2,a\nb,0,0,3,b\nab,0,0,9,ab\n";
const SMALL_MATRIX: &str = "1 1\n0 0 1\n";
const SMALL_CHAR: &str = "DEFAULT 0 1 0\nSPACE 0 1 0\n0x0020 SPACE\n";
const SMALL_UNK: &str = "DEFAULT,0,0,100,unknown\nSPACE,0,0,100,space\n";

fn small_inner() -> DictionaryInner {
    SystemDictionaryBuilder::from_readers(
        SMALL_LEX.as_bytes(),
        SMALL_MATRIX.as_bytes(),
        SMALL_CHAR.as_bytes(),
        SMALL_UNK.as_bytes(),
    )
    .unwrap()
}

fn small_tokenizer() -> Tokenizer {
    Tokenizer::from_inner(small_inner())
}

fn chars(s: &str) -> Vec<char> {
    s.chars().collect()
}

fn tokens_of(tokenizer: &Tokenizer, text: &str) -> Vec<(String, String, i16)> {
    let mut worker = tokenizer.new_worker();
    worker.reset_sentence(text);
    worker.tokenize();
    worker
        .token_iter()
        .into_iter()
        .map(|t| (t.surface().to_owned(), t.feature().to_owned(), t.word_cost()))
        .collect()
}

#[test]
fn image_roundtrip_keeps_tokenization() {
    let inner = small_inner();
    let mut bytes = Vec::new();
    let n = inner.write(&mut bytes).unwrap();
    assert_eq!(n, bytes.len());
    assert_eq!(n % 4, 0);
    let read = Tokenizer::new(Dictionary::from_bytes(&bytes).unwrap());
    let built = Tokenizer::from_inner(inner);
    for text in ["ab", "abab", "b a", "xyz", ""] {
        assert_eq!(tokens_of(&read, text), tokens_of(&built, text));
    }
}

#[test]
fn image_roundtrip_twice_gives_the_same_bytes() {
    let inner = small_inner();
    let mut first = Vec::new();
    inner.write(&mut first).unwrap();
    let read = Dictionary::from_bytes(&first).unwrap();
    let mut second = Vec::new();
    read.data().write(&mut second).unwrap();
    assert_eq!(first, second);
}

#[test]
fn write_appends_after_existing_bytes() {
    let inner = small_inner();
    let mut alone = Vec::new();
    inner.write(&mut alone).unwrap();
    let mut bytes = vec![7u8, 8, 9];
    let n = inner.write(&mut bytes).unwrap();
    assert_eq!(n, alone.len());
    assert_eq!(&bytes[..3], &[7u8, 8, 9]);
    assert_eq!(&bytes[3..], &alone[..]);
}

#[test]
fn from_bytes_rejects_what_is_no_image() {
    let inner = small_inner();
    let mut bytes = Vec::new();
    inner.write(&mut bytes).unwrap();
    let err = VibratoError::InvalidFormat(Source::Model);
    assert_eq!(Dictionary::from_bytes(&[]).err(), Some(err));
    assert_eq!(Dictionary::from_bytes(&bytes[..bytes.len() - 1]).err(), Some(err));
    assert_eq!(Dictionary::from_bytes(&bytes[..bytes.len() - 4]).err(), Some(err));
    let mut wrong_magic = bytes.clone();
    wrong_magic[4] ^= 1;
    assert_eq!(Dictionary::from_bytes(&wrong_magic).err(), Some(err));
    let mut extra = bytes.clone();
    extra.extend_from_slice(&[0, 0, 0, 0]);
    assert_eq!(Dictionary::from_bytes(&extra).err(), Some(err));
}

#[test]
fn from_bytes_reads_character_codes() {
    let inner = small_inner();
    let mut bytes = Vec::new();
    inner.write(&mut bytes).unwrap();
    // Words: the magic field (length, magic), the number of surfaces
    // (length, count), then the first surface (length, first code).
    assert_eq!(u32::from_le_bytes([bytes[20], bytes[21], bytes[22], bytes[23]]), 'a' as u32);
    let mut surrogate = bytes.clone();
    surrogate[20..24].copy_from_slice(&0xD800u32.to_le_bytes());
    assert_eq!(
        Dictionary::from_bytes(&surrogate).err(),
        Some(VibratoError::InvalidFormat(Source::Model))
    );
    let mut renamed = bytes.clone();
    renamed[20..24].copy_from_slice(&('c' as u32).to_le_bytes());
    let tokenizer = Tokenizer::new(Dictionary::from_bytes(&renamed).unwrap());
    assert_eq!(
        tokens_of(&tokenizer, "c"),
        vec![("c".to_owned(), "a".to_owned(), 2)]
    );
}

#[test]
fn from_bytes_rejects_inconsistent_ids() {
    let inner = small_inner();
    let mut bytes = Vec::new();
    inner.write(&mut bytes).unwrap();
    // Words 5.. hold the surfaces "a", "b", "ab" (each a length and codes),
    // then the column of left ids: its length, then the ids.
    let left_ids_at = 4 * (4 + 2 + 2 + 3 + 1);
    assert_eq!(bytes[left_ids_at], 0);
    let mut bad = bytes.clone();
    bad[left_ids_at] = 1;
    assert_eq!(
        Dictionary::from_bytes(&bad).err(),
        Some(VibratoError::InvalidFormat(Source::Model))
    );
}

#[test]
fn lattice_deltas_are_zero_on_the_best_path_and_never_negative() {
    let tokenizer = small_tokenizer();
    let mut worker = tokenizer.new_worker();
    assert!(worker.lattice_snapshot().is_none());
    assert_eq!(worker.total_cost(), None);
    worker.reset_sentence("abab");
    worker.tokenize();
    let snapshot = worker.lattice_snapshot().unwrap();
    assert_eq!(Some(snapshot.total_cost), worker.total_cost());
    // a + b + a + b costs 2 + 3 + 2 + 3 plus five transitions of 1.
    assert_eq!(snapshot.total_cost, 15);
    assert!(snapshot.nodes.iter().all(|n| n.delta >= 0));
    assert_eq!(snapshot.best_path.len(), worker.num_tokens());
    for (i, &k) in snapshot.best_path.iter().enumerate() {
        assert_eq!(snapshot.nodes[k].delta, 0);
        assert_eq!(snapshot.nodes[k].feature, worker.token(i).feature());
    }
    let ab = snapshot
        .nodes
        .iter()
        .find(|n| n.feature == "ab" && n.range_char == (0..2))
        .unwrap();
    // Through "ab" first: 9 + 2 + 3 plus four transitions, 3 more.
    assert_eq!(ab.delta, 3);
}

#[test]
fn nbest_costs_start_at_the_optimum_and_do_not_decrease() {
    let tokenizer = small_tokenizer();
    let mut worker = tokenizer.new_worker();
    worker.reset_sentence("ab");
    worker.tokenize();
    let best = worker.total_cost().unwrap();
    assert_eq!(best, 8);
    worker.tokenize_nbest(5);
    assert!(worker.lattice_snapshot().is_none());
    assert_eq!(worker.num_nbest_paths(), 2);
    assert_eq!(worker.path_cost(0), Some(8));
    assert_eq!(worker.path_cost(1), Some(11));
    assert_eq!(worker.path_cost(2), None);
    let first: Vec<String> = worker
        .nbest_token_iter(0)
        .unwrap()
        .into_iter()
        .map(|t| t.feature().to_owned())
        .collect();
    assert_eq!(first, vec!["a".to_owned(), "b".to_owned()]);
    assert!(worker.nbest_token_iter(2).is_none());
}

#[test]
fn connid_counts_count_every_pair_of_the_lattice() {
    let tokenizer = small_tokenizer();
    let mut worker = tokenizer.new_worker();
    worker.init_connid_counter();
    worker.reset_sentence("ab");
    worker.tokenize();
    worker.update_connid_counts();
    let (lid, rid) = worker.connid_counter().unwrap().counts();
    // "a" and "ab" follow BOS, "b" follows "a", EOS follows "ab" and "b".
    assert_eq!(lid, &vec![5u64]);
    assert_eq!(rid, &vec![5u64]);
}

#[test]
fn mapping_connection_ids_keeps_costs() {
    let lex = "a,1,1,2,a\nb,2,2,3,b\n";
    let matrix = "3 3\n0 0 1\n1 2 -7\n2 1 5\n";
    let inner = SystemDictionaryBuilder::from_readers(
        lex.as_bytes(),
        matrix.as_bytes(),
        SMALL_CHAR.as_bytes(),
        SMALL_UNK.as_bytes(),
    )
    .unwrap();
    let before = Tokenizer::from_inner(inner.clone());
    let mapped = inner.map_connection_ids_from_iter(vec![2, 1], vec![2, 1]).unwrap();
    let m = mapped.mapper().unwrap();
    assert_eq!(m.left_map(), &vec![0u16, 2, 1]);
    assert_eq!(m.right_map(), &vec![0u16, 2, 1]);
    let after = Tokenizer::from_inner(mapped);
    for text in ["ab", "ba", "abba", "b a"] {
        let mut w1 = before.new_worker();
        let mut w2 = after.new_worker();
        w1.reset_sentence(text);
        w2.reset_sentence(text);
        w1.tokenize();
        w2.tokenize();
        assert_eq!(w1.total_cost(), w2.total_cost());
        assert_eq!(tokens_of(&before, text), tokens_of(&after, text));
    }
}

#[test]
fn mapping_connection_ids_rejects_lists_that_are_no_permutation() {
    let inner = small_inner();
    assert_eq!(
        inner.map_connection_ids_from_iter(vec![1], vec![]).err(),
        Some(VibratoError::InvalidArgument(Source::Mapping))
    );
    assert_eq!(
        ConnIdMapper::from_iter(vec![1, 1], vec![1]).err(),
        Some(VibratoError::InvalidArgument(Source::Mapping))
    );
    assert_eq!(
        ConnIdMapper::from_iter(vec![0], vec![]).err(),
        Some(VibratoError::InvalidArgument(Source::Mapping))
    );
    let m = ConnIdMapper::from_iter(vec![3, 1, 2], vec![1]).unwrap();
    assert_eq!(m.left_map(), &vec![0u16, 2, 3, 1]);
    assert_eq!(m.right_map(), &vec![0u16, 1]);
}

#[test]
fn parse_mapping_reads_the_first_column() {
    assert_eq!(parse_mapping(&chars("3\tx\n1\n2\r\n")), Ok(vec![3, 1, 2]));
    assert_eq!(parse_mapping(&chars("")), Ok(vec![]));
    assert_eq!(
        parse_mapping(&chars("1\nx\t2\n")),
        Err(VibratoError::InvalidFormat(Source::Mapping))
    );
    assert_eq!(
        parse_mapping(&chars("70000\n")),
        Err(VibratoError::InvalidFormat(Source::Mapping))
    );
    assert_eq!(load_mapping("5\t0.5\n4\n".as_bytes()), Ok(vec![5, 4]));
    assert_eq!(load_mapping("5\r\n4\r\n".as_bytes()), Ok(vec![5, 4]));
    assert_eq!(
        load_mapping("5\r".as_bytes()),
        Err(VibratoError::InvalidFormat(Source::Mapping))
    );
    assert_eq!(
        load_mapping(&[0xff, 0xfe]),
        Err(VibratoError::InvalidFormat(Source::Mapping))
    );
}

#[test]
fn ignore_space_needs_the_space_category() {
    let inner = SystemDictionaryBuilder::from_readers(
        SMALL_LEX.as_bytes(),
        SMALL_MATRIX.as_bytes(),
        "DEFAULT 0 1 0\n".as_bytes(),
        "DEFAULT,0,0,100,unknown\n".as_bytes(),
    )
    .unwrap();
    let tokenizer = Tokenizer::from_inner(inner);
    assert_eq!(
        tokenizer.clone().ignore_space(true).err(),
        Some(VibratoError::InvalidArgument(Source::CharDef))
    );
    assert!(tokenizer.ignore_space(false).is_ok());
    assert!(small_tokenizer().ignore_space(true).is_ok());
}

#[test]
fn user_lexicon_with_undefined_ids_is_refused() {
    let tokenizer = small_tokenizer();
    assert_eq!(
        tokenizer.clone().with_user_lexicon("c,1,0,0,c\n".as_bytes()).err(),
        Some(VibratoError::InvalidArgument(Source::Lexicon))
    );
    assert_eq!(
        tokenizer.clone().with_user_lexicon(&[0xff]).err(),
        Some(VibratoError::InvalidFormat(Source::Lexicon))
    );
    let with_user = tokenizer.with_user_lexicon("c,0,0,1,custom\n".as_bytes()).unwrap();
    assert_eq!(
        tokens_of(&with_user, "c"),
        vec![("c".to_owned(), "custom".to_owned(), 1)]
    );
}

#[test]
fn builder_refuses_text_that_is_not_utf8() {
    let r = SystemDictionaryBuilder::from_readers(
        &[0xc3, 0x28],
        SMALL_MATRIX.as_bytes(),
        SMALL_CHAR.as_bytes(),
        SMALL_UNK.as_bytes(),
    );
    assert_eq!(r.err(), Some(VibratoError::InvalidFormat(Source::Lexicon)));
}

#[test]
fn legacy_matrix_converts_with_the_same_costs() {
    let m = LegacyMatrixConnector::new(vec![1, 2, 3, 4, 5, 6], 2, 3).into_current().unwrap();
    assert_eq!(m.num_right(), 2);
    assert_eq!(m.num_left(), 3);
    assert_eq!(m.cost(1, 2), 6);
    assert_eq!(m.cost(0, 1), 3);
    assert_eq!(
        LegacyMatrixConnector::new(vec![1, 2, 3], 2, 2).into_current().err(),
        Some(VibratoError::InvalidFormat(Source::Model))
    );
    assert_eq!(
        LegacyMatrixConnector::new(vec![], 0, 0).into_current().err(),
        Some(VibratoError::InvalidFormat(Source::Model))
    );
}

#[test]
fn legacy_mapper_converts_permutations_only() {
    let m = LegacyConnIdMapper::new(vec![0, 2, 1], vec![0, 1]).into_current(3, 2).unwrap();
    assert_eq!(m.left_map(), &vec![0u16, 2, 1]);
    assert_eq!(m.right_map(), &vec![0u16, 1]);
    assert_eq!(
        LegacyConnIdMapper::new(vec![0, 1, 1], vec![0, 1]).into_current(3, 2).err(),
        Some(VibratoError::InvalidFormat(Source::Mapping))
    );
    assert_eq!(
        LegacyConnIdMapper::new(vec![0, 1], vec![0, 1]).into_current(3, 2).err(),
        Some(VibratoError::InvalidFormat(Source::Mapping))
    );
}

#[test]
fn word_features_give_each_word_its_feature() {
    let f = WordFeatures::new(vec!["x".to_owned(), "y,z".to_owned()]);
    assert_eq!(f.len(), 2);
    assert_eq!(f.get(0), "x");
    assert_eq!(f.get(1), "y,z");
    let old = LegacyWordFeatures::new(vec!["p".to_owned(), "q".to_owned(), "r".to_owned()]);
    let new = WordFeatures::from(old);
    assert_eq!(new.len(), 3);
    assert_eq!(new.get(2), "r");
}

#[test]
fn char_def_is_read_into_ranges_and_categories() {
    let text = "# comment\nDEFAULT 0 1 0\nALPHA 1 1 0\nNUM 0 0 2\n0x0041..0x005A ALPHA\n0x0030..0x0039 NUM ALPHA # digits\n\n";
    let p = CharProperty::from_chars(&chars(text)).unwrap();
    let names: Vec<String> = p.categories().iter().map(|c| c.iter().collect()).collect();
    assert_eq!(names, vec!["DEFAULT", "ALPHA", "NUM"]);
    assert_eq!(p.ranges().len(), 2);
    assert_eq!((p.ranges()[0].start, p.ranges()[0].end), (0x41, 0x5B));
    let b = p.char_info('B');
    assert_eq!((b.base_id, b.cate_idset, b.invoke, b.group, b.length), (1, 2, true, true, 0));
    let five = p.char_info('5');
    assert_eq!((five.base_id, five.cate_idset, five.length), (2, 6, 2));
    let other = p.char_info('あ');
    assert_eq!((other.base_id, other.cate_idset, other.group), (0, 1, true));
    let err = Some(VibratoError::InvalidFormat(Source::CharDef));
    assert_eq!(CharProperty::from_chars(&chars("ALPHA 1 1 0\n")).err(), err);
    assert_eq!(CharProperty::from_chars(&chars("DEFAULT 0 1 0\n0x0041 KANJI\n")).err(), err);
    assert_eq!(CharProperty::from_chars(&chars("DEFAULT 2 1 0\n")).err(), err);
    assert_eq!(CharProperty::from_chars(&chars("DEFAULT 0 1 16\n")).err(), err);
    assert_eq!(CharProperty::from_chars(&chars("DEFAULT 0 1 0\n0x0042..0x0041 DEFAULT\n")).err(), err);
}

#[test]
fn unk_def_entries_are_grouped_by_category() {
    let p = CharProperty::from_chars(&chars("DEFAULT 0 1 0\nALPHA 1 1 0\n")).unwrap();
    let h = UnkHandler::from_chars(
        &chars("ALPHA,0,0,1,a1\nDEFAULT,0,0,2,d\nALPHA,0,0,3,a2\n"),
        &p,
    )
    .unwrap();
    assert_eq!(h.offsets(), &vec![0usize, 1, 3]);
    let (cates, params, feats) = h.entry_parts();
    assert_eq!(cates, vec![0u16, 1, 1]);
    assert_eq!(
        params.iter().map(|p| p.word_cost).collect::<Vec<_>>(),
        vec![2i16, 1, 3]
    );
    let feats: Vec<String> = feats.iter().map(|f| f.iter().collect()).collect();
    assert_eq!(feats, vec!["d", "a1", "a2"]);
    assert_eq!(
        UnkHandler::from_chars(&chars("KANJI,0,0,1,k\n"), &p).err(),
        Some(VibratoError::InvalidFormat(Source::UnkDef))
    );
}

#[test]
fn lattice_lists_words_by_kind_then_id() {
    let inner = SystemDictionaryBuilder::from_readers(
        "a,0,0,5,first\na,0,0,5,second\n".as_bytes(),
        SMALL_MATRIX.as_bytes(),
        "DEFAULT 1 1 0\n".as_bytes(),
        "DEFAULT,0,0,5,unknown\n".as_bytes(),
    )
    .unwrap();
    let tokenizer = Tokenizer::from_inner(inner)
        .with_user_lexicon("a,0,0,5,user\n".as_bytes())
        .unwrap();
    let mut worker = tokenizer.new_worker();
    worker.reset_sentence("a");
    worker.tokenize();
    let snapshot = worker.lattice_snapshot().unwrap();
    let features: Vec<&str> = snapshot
        .nodes
        .iter()
        .filter(|n| n.range_char == (0..1))
        .map(|n| n.feature.as_str())
        .collect();
    assert_eq!(features, vec!["user", "first", "second", "unknown"]);
}

#[test]
fn model_file_roundtrip_keeps_tokenization() {
    let inner = small_inner();
    let mut image = Vec::new();
    inner.write(&mut image).unwrap();
    let file = write_model(&inner).unwrap();
    assert_ne!(file, image);
    assert_eq!(zstd::decode_all(&file[..]).unwrap(), image);
    let read = Tokenizer::new(read_model(&file).unwrap());
    let built = Tokenizer::from_inner(inner);
    for text in ["ab", "abab", "b a", "xyz", ""] {
        assert_eq!(tokens_of(&read, text), tokens_of(&built, text));
    }
}

#[test]
fn read_model_rejects_what_is_no_compressed_image() {
    let inner = small_inner();
    let mut image = Vec::new();
    inner.write(&mut image).unwrap();
    let err = VibratoError::InvalidFormat(Source::Model);
    assert_eq!(read_model(&image).err(), Some(err));
    assert_eq!(read_model(&[]).err(), Some(err));
    let not_an_image = zstd::encode_all(&[1u8, 2, 3, 4][..], 3).unwrap();
    assert_eq!(read_model(&not_an_image).err(), Some(err));
}

#[test]
fn connid_counts_of_an_empty_sentence_are_none() {
    let tokenizer = small_tokenizer();
    let mut worker = tokenizer.new_worker();
    worker.init_connid_counter();
    worker.reset_sentence("ab");
    worker.tokenize();
    worker.update_connid_counts();
    worker.reset_sentence("");
    worker.tokenize();
    worker.update_connid_counts();
    let (lid, rid) = worker.connid_counter().unwrap().counts();
    assert_eq!(lid, &vec![5u64]);
    assert_eq!(rid, &vec![5u64]);
    worker.tokenize_nbest(2);
    worker.update_connid_counts();
    let (lid, rid) = worker.connid_counter().unwrap().counts();
    assert_eq!(lid, &vec![5u64]);
    assert_eq!(rid, &vec![5u64]);
}

#[test]
fn nbest_paths_show_different_tokens() {
    let tokenizer = small_tokenizer();
    let mut worker = tokenizer.new_worker();
    worker.reset_sentence("abab");
    worker.tokenize();
    let best = worker.total_cost().unwrap();
    worker.tokenize_nbest(10);
    assert_eq!(worker.path_cost(0), Some(best));
    let n = worker.num_nbest_paths();
    assert_eq!(n, 4);
    let keys: Vec<Vec<(std::ops::Range<usize>, String)>> = (0..n)
        .map(|i| {
            worker
                .nbest_token_iter(i)
                .unwrap()
                .into_iter()
                .map(|t| (t.range_char(), t.feature().to_owned()))
                .collect()
        })
        .collect();
    for i in 0..n {
        for j in i + 1..n {
            assert_ne!(keys[i], keys[j]);
        }
    }
}

#[test]
fn snapshot_deltas_give_the_best_cost_through_each_node() {
    let tokenizer = small_tokenizer();
    let mut worker = tokenizer.new_worker();
    worker.reset_sentence("ab");
    worker.tokenize();
    let snapshot = worker.lattice_snapshot().unwrap();
    // The paths are a-b (cost 8) and ab (cost 11); each node lies on one.
    let mut through: Vec<(String, i64)> = snapshot
        .nodes
        .iter()
        .map(|n| (n.feature.clone(), snapshot.total_cost + n.delta))
        .collect();
    through.sort();
    assert_eq!(
        through,
        vec![("a".to_owned(), 8), ("ab".to_owned(), 11), ("b".to_owned(), 8)]
    );
}
