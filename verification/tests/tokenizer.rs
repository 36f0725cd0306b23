use vibrato_rkyv::dictionary::{Dictionary, SystemDictionaryBuilder};
use vibrato_rkyv::Tokenizer;

const LEX_CSV: &str = r#"た,1,1,8729,た,助動詞,*,*,*,助動詞-タ,終止形-一般,タ,た,*,A,*,*,*,*
に,2,2,11406,に,助詞,接続助詞,*,*,*,*,ニ,に,*,A,*,*,*,*
に,3,3,4481,に,助詞,格助詞,*,*,*,*,ニ,に,*,A,*,*,*,*
京都,6,6,5293,京都,名詞,固有名詞,地名,一般,*,*,キョウト,京都,*,A,*,*,*,1/5
東,7,7,4675,東,名詞,普通名詞,一般,*,*,*,ヒガシ,東,*,A,*,*,*,*
東京,6,6,2816,東京,名詞,固有名詞,地名,一般,*,*,トウキョウ,東京,*,A,*,*,*,*
東京都,6,8,5320,東京都,名詞,固有名詞,地名,一般,*,*,トウキョウト,東京都,*,B,5/9,*,5/9,*
行く,4,4,5105,行く,動詞,非自立可能,*,*,五段-カ行,終止形-一般,イク,行く,*,A,*,*,*,*
行っ,5,5,5122,行っ,動詞,非自立可能,*,*,五段-カ行,連用形-促音便,イッ,行く,7,A,*,*,*,*
都,8,8,2914,都,名詞,普通名詞,一般,*,*,*,ト,都,*,A,*,*,*,*
アイ,7,7,4675,アイ,名詞,普通名詞,一般,*,*,*,アイ,アイ,*,A,*,*,*,*
アイウ,7,7,4675,アイウ,名詞,普通名詞,一般,*,*,*,アイウ,アイウ,*,A,*,*,*,*
アイアイウ,6,6,32766,アイウ,名詞,固有名詞,地名,一般,*,*,アイアイウ,アイアイウ,*,A,*,*,*,*
0,9,9,2478,0,名詞,数詞,*,*,*,*,ゼロ,0,*,A,*,*,*,*
1,9,9,2478,1,名詞,数詞,*,*,*,*,イチ,1,*,A,*,*,*,*
2,9,9,2478,2,名詞,数詞,*,*,*,*,ニ,2,*,A,*,*,*,*
3,9,9,2478,3,名詞,数詞,*,*,*,*,サン,3,*,A,*,*,*,*
4,9,9,2478,4,名詞,数詞,*,*,*,*,ヨン,4,*,A,*,*,*,*
5,9,9,2478,5,名詞,数詞,*,*,*,*,ゴ,5,*,A,*,*,*,*
6,9,9,2478,6,名詞,数詞,*,*,*,*,ロク,6,*,A,*,*,*,*
7,9,9,2478,7,名詞,数詞,*,*,*,*,ナナ,7,*,A,*,*,*,*
8,9,9,2478,8,名詞,数詞,*,*,*,*,ハチ,8,*,A,*,*,*,*
9,9,9,2478,9,名詞,数詞,*,*,*,*,キュウ,9,*,A,*,*,*,*
〇,9,9,2478,〇,名詞,数詞,*,*,*,*,ゼロ,〇,*,A,*,*,*,*
一,9,9,2478,一,名詞,数詞,*,*,*,*,イチ,一,*,A,*,*,*,*
二,9,9,2478,二,名詞,数詞,*,*,*,*,ニ,二,*,A,*,*,*,*
三,9,9,2478,三,名詞,数詞,*,*,*,*,サン,三,*,A,*,*,*,*
四,9,9,2478,四,名詞,数詞,*,*,*,*,ヨン,四,*,A,*,*,*,*
五,9,9,2478,五,名詞,数詞,*,*,*,*,ゴ,五,*,A,*,*,*,*
六,9,9,2478,六,名詞,数詞,*,*,*,*,ロク,六,*,A,*,*,*,*
七,9,9,2478,七,名詞,数詞,*,*,*,*,ナナ,七,*,A,*,*,*,*
八,9,9,2478,八,名詞,数詞,*,*,*,*,ハチ,八,*,A,*,*,*,*
九,9,9,2478,九,名詞,数詞,*,*,*,*,キュウ,九,*,A,*,*,*,*
六三四,6,6,0,六三四,名詞,固有名詞,地名,一般,*,*,ムサシ,六三四,*,A,*,*,*,*
いく,4,4,5105,いく,動詞,非自立可能,*,*,五段-カ行,終止形-一般,イク,行く,*,A,*,*,*,*
いっ,5,5,5122,いっ,動詞,非自立可能,*,*,五段-カ行,連用形-促音便,イッ,行く,34,A,*,*,*,*
012345678901234567890123456789012345678901234567890123456789012345678901234567890123456789012345678901234567890123456789012345678901234567890123456789012345678901234567890123456789012345678901234567890123456789012345678901234567890123456789012345678901234567890123456789012345678901234567890123456789,9,9,-20000,012345678901234567890123456789012345678901234567890123456789012345678901234567890123456789012345678901234567890123456789012345678901234567890123456789012345678901234567890123456789012345678901234567890123456789012345678901234567890123456789012345678901234567890123456789012345678901234567890123456789,名詞,数詞,*,*,*,*,ゼロイチニサンヨンゴロクナナハチキュウゼロイチニサンヨンゴロクナナハチキュウゼロイチニサンヨンゴロクナナハチキュウゼロイチニサンヨンゴロクナナハチキュウゼロイチニサンヨンゴロクナナハチキュウゼロイチニサンヨンゴロクナナハチキュウゼロイチニサンヨンゴロクナナハチキュウゼロイチニサンヨンゴロクナナハチキュウゼロイチニサンヨンゴロクナナハチキュウゼロイチニサンヨンゴロクナナハチキュウゼロイチニサンヨンゴロクナナハチキュウゼロイチニサンヨンゴロクナナハチキュウゼロイチニサンヨンゴロクナナハチキュウゼロイチニサンヨンゴロクナナハチキュウゼロイチニサンヨンゴロクナナハチキュウゼロイチニサンヨンゴロクナナハチキュウゼロイチニサンヨンゴロクナナハチキュウゼロイチニサンヨンゴロクナナハチキュウゼロイチニサンヨンゴロクナナハチキュウゼロイチニサンヨンゴロクナナハチキュウゼロイチニサンヨンゴロクナナハチキュウゼロイチニサンヨンゴロクナナハチキュウゼロイチニサンヨンゴロクナナハチキュウゼロイチニサンヨンゴロクナナハチキュウゼロイチニサンヨンゴロクナナハチキュウゼロイチニサンヨンゴロクナナハチキュウゼロイチニサンヨンゴロクナナハチキュウゼロイチニサンヨンゴロクナナハチキュウゼロイチニサンヨンゴロクナナハチキュウゼロイチニサンヨンゴロクナナハチキュウ,012345678901234567890123456789012345678901234567890123456789012345678901234567890123456789012345678901234567890123456789012345678901234567890123456789012345678901234567890123456789012345678901234567890123456789012345678901234567890123456789012345678901234567890123456789012345678901234567890123456789,*,A,*,*,*,*
特a,8,8,2914,特a,名詞,普通名詞,一般,*,*,*,トクエー,特a,*,A,*,*,*,*
な。な,8,8,2914,な。な,名詞,普通名詞,一般,*,*,*,ナナ,な。な,*,A,*,*,*,*
 ,8,8,-20000, ,空白,*,*,*,*,*, , ,*,A,*,*,*,*
X,8,8,-20000,X,補助記号,一般,*,*,*,*,X,X,*,A,*,*,*,*
X,8,8,-20000,X,感動詞,一般,*,*,*,*,X,X,*,A,*,*,*,*
X,8,8,-20000,X,名詞,普通名詞,サ変可能,*,*,*,X,X,*,A,*,*,*,*
X,8,8,-20000,X,名詞,固有名詞,一般,*,*,*,X,X,*,A,*,*,*,*
X,8,8,-20000,X,名詞,固有名詞,人名,一般,*,*,X,X,*,A,*,*,*,*
X,8,8,-20000,X,名詞,固有名詞,地名,一般,*,*,X,X,*,A,*,*,*,*"#;
const USER_CSV: &str = r#"京都東京都,6,8,-1000,カスタム名詞
kampersanda,7,7,-2000,カスタム名詞
ヴェネツィア,0,0,0,名詞,固有名詞,地名,一般
"#;
const MATRIX_DEF: &str = r#"10 10
0 0 0
0 1 863
0 2 2124
0 3 1032
0 4 591
0 5 -162
0 6 -79
0 7 887
0 8 447
0 9 -535
1 0 -3689
1 1 -3361
1 2 -7643
1 3 -3267
1 4 809
1 5 -1098
1 6 4606
1 7 4269
1 8 4567
1 9 1635
2 0 -1959
2 1 2457
2 2 811
2 3 840
2 4 903
2 5 -958
2 6 517
2 7 2037
2 8 1392
2 9 -193
3 0 -2288
3 1 1741
3 2 487
3 3 792
3 4 -1474
3 5 -3429
3 6 126
3 7 437
3 8 605
3 9 -547
4 0 -2809
4 1 -3584
4 2 -6743
4 3 -2869
4 4 -2805
4 5 -407
4 6 3422
4 7 5642
4 8 6382
4 9 2165
5 0 -509
5 1 -3665
5 2 -3882
5 3 -572
5 4 -1036
5 5 -54
5 6 2570
5 7 3319
5 8 4059
5 9 882
6 0 101
6 1 2933
6 2 2198
6 3 -2004
6 4 4392
6 5 4017
6 6 569
6 7 475
6 8 -390
6 9 852
7 0 -852
7 1 2079
7 2 1180
7 3 -3084
7 4 2010
7 5 1570
7 6 746
7 7 2341
7 8 2051
7 9 1393
8 0 -522
8 1 3354
8 2 2037
8 3 -2542
8 4 3071
8 5 2631
8 6 -352
8 7 2847
8 8 1134
8 9 1256
9 0 -975
9 1 2498
9 2 1690
9 3 -1523
9 4 3023
9 5 3139
9 6 2562
9 7 3962
9 8 418
9 9 -2490
"#;
const CHAR_DEF: &str = r#"DEFAULT	       0 1 0
SPACE	       0 1 0
KANJI	       0 0 2
SYMBOL	       1 1 0
NUMERIC	       1 1 0
ALPHA	       1 1 0
HIRAGANA       0 1 2
KATAKANA       1 1 2
KANJINUMERIC   1 1 0
GREEK	       1 1 0
CYRILLIC       1 1 0

0x0020 SPACE

0x0030..0x0039 NUMERIC
0xFF10..0xFF19 NUMERIC

0x0061..0x007A ALPHA
0xFF21..0xFF3A ALPHA
0xFF41..0xFF5A ALPHA

0x3040..0x3096 HIRAGANA

0x30A0..0x30FA KATAKANA
0x30FC..0x30FF KATAKANA
0xFF66..0xFF9F KATAKANA

0x3400..0x4DBF KANJI
0x4E00..0x9FFF KANJI
0xF900..0xFAFF KANJI

0x4E00 KANJINUMERIC KANJI
0x4E8C KANJINUMERIC KANJI
"#;
const UNK_DEF: &str = r#"DEFAULT,7,7,3857,補助記号,一般,*,*,*,*
ALPHA,7,7,11633,名詞,普通名詞,一般,*,*,*
KANJI,7,7,14657,名詞,普通名詞,一般,*,*,*
KANJINUMERIC,7,7,27473,名詞,数,*,*,*,*,*
"#;

fn build_test_dictionary(
    lexicon_csv: &[u8],
    matrix_def: &[u8],
    char_def: &[u8],
    unk_def: &[u8],
) -> Dictionary {
    let dict_inner =
        SystemDictionaryBuilder::from_readers(lexicon_csv, matrix_def, char_def, unk_def).unwrap();

    Dictionary::from_inner(dict_inner)
}

#[test]
fn test_tokenize_tokyo() {
    let dict = build_test_dictionary(
        LEX_CSV.as_bytes(),
        MATRIX_DEF.as_bytes(),
        CHAR_DEF.as_bytes(),
        UNK_DEF.as_bytes(),
    );

    let tokenizer = Tokenizer::new(dict);
    let mut worker = tokenizer.new_worker();
    worker.reset_sentence("東京都");
    worker.tokenize();
    assert_eq!(worker.num_tokens(), 1);

    {
        let t = worker.token(0);
        assert_eq!(t.surface(), "東京都");
        assert_eq!(t.range_char(), 0..3);
        assert_eq!(t.range_byte(), 0..9);
        assert_eq!(
            t.feature(),
            "東京都,名詞,固有名詞,地名,一般,*,*,トウキョウト,東京都,*,B,5/9,*,5/9,*"
        );
    }

    //   c=0      c=5320       c=0
    //  [BOS] -- [東京都] -- [EOS]
    //     r=0  l=6   r=8  l=0
    //      c=-79
    assert_eq!(worker.token(0).total_cost(), -79 + 5320);
}

#[test]
fn test_tokenize_kyotokyo() {
    let dict = build_test_dictionary(
        LEX_CSV.as_bytes(),
        MATRIX_DEF.as_bytes(),
        CHAR_DEF.as_bytes(),
        UNK_DEF.as_bytes(),
    );

    let tokenizer = Tokenizer::new(dict);
    let mut worker = tokenizer.new_worker();
    worker.reset_sentence("京都東京都京都");
    worker.tokenize();
    assert_eq!(worker.num_tokens(), 3);

    {
        let t = worker.token(0);
        assert_eq!(t.surface(), "京都");
        assert_eq!(t.range_char(), 0..2);
        assert_eq!(t.range_byte(), 0..6);
        assert_eq!(
            t.feature(),
            "京都,名詞,固有名詞,地名,一般,*,*,キョウト,京都,*,A,*,*,*,1/5"
        );
    }
    {
        let t = worker.token(1);
        assert_eq!(t.surface(), "東京都");
        assert_eq!(t.range_char(), 2..5);
        assert_eq!(t.range_byte(), 6..15);
        assert_eq!(
            t.feature(),
            "東京都,名詞,固有名詞,地名,一般,*,*,トウキョウト,東京都,*,B,5/9,*,5/9,*"
        );
    }
    {
        let t = worker.token(2);
        assert_eq!(t.surface(), "京都");
        assert_eq!(t.range_char(), 5..7);
        assert_eq!(t.range_byte(), 15..21);
        assert_eq!(
            t.feature(),
            "京都,名詞,固有名詞,地名,一般,*,*,キョウト,京都,*,A,*,*,*,1/5"
        );
    }

    //   c=0     c=5293    c=5320    c=5293    c=0
    //  [BOS] -- [京都] -- [東京都] -- [京都] -- [EOS]
    //     r=0  l=6  r=6  l=6  r=8  l=6  r=6  l=0
    //      c=-79     c=569     c=-352
    assert_eq!(worker.token(0).total_cost(), -79 + 5293);
    assert_eq!(
        worker.token(1).total_cost(),
        worker.token(0).total_cost() + 569 + 5320
    );
    assert_eq!(
        worker.token(2).total_cost(),
        worker.token(1).total_cost() - 352 + 5293
    );
}

#[test]
fn test_tokenize_kyotokyo_with_user() {
    let dict = {
        let lexicon_csv = LEX_CSV.as_bytes();
        let matrix_def = MATRIX_DEF.as_bytes();
        let char_def = CHAR_DEF.as_bytes();
        let unk_def = UNK_DEF.as_bytes();
        let dict_inner =
            SystemDictionaryBuilder::from_readers(lexicon_csv, matrix_def, char_def, unk_def)
                .unwrap();

        let dict_inner = dict_inner
            .reset_user_lexicon_from_reader(Some(USER_CSV.as_bytes()))
            .unwrap();

        Dictionary::from_inner(dict_inner)
    };

    let tokenizer = Tokenizer::new(dict);
    let mut worker = tokenizer.new_worker();
    worker.reset_sentence("京都東京都京都");
    worker.tokenize();
    assert_eq!(worker.num_tokens(), 2);

    {
        let t = worker.token(0);
        assert_eq!(t.surface(), "京都東京都");
        assert_eq!(t.range_char(), 0..5);
        assert_eq!(t.range_byte(), 0..15);
        assert_eq!(t.feature(), "カスタム名詞");
    }
    {
        let t = worker.token(1);
        assert_eq!(t.surface(), "京都");
        assert_eq!(t.range_char(), 5..7);
        assert_eq!(t.range_byte(), 15..21);
        assert_eq!(
            t.feature(),
            "京都,名詞,固有名詞,地名,一般,*,*,キョウト,京都,*,A,*,*,*,1/5"
        );
    }

    //   c=0      c=-1000      c=5293    c=0
    //  [BOS] -- [京都東京都] -- [京都] -- [EOS]
    //     r=0  l=6      r=8  l=6  r=6  l=0
    //      c=-79         c=-352
    assert_eq!(worker.token(0).total_cost(), -79 - 1000);
    assert_eq!(
        worker.token(1).total_cost(),
        worker.token(0).total_cost() - 352 + 5293
    );
}

#[test]
fn test_tokenize_tokyoto_with_space() {
    let dict = build_test_dictionary(
        LEX_CSV.as_bytes(),
        MATRIX_DEF.as_bytes(),
        CHAR_DEF.as_bytes(),
        UNK_DEF.as_bytes(),
    );

    let tokenizer = Tokenizer::new(dict);
    let mut worker = tokenizer.new_worker();
    worker.reset_sentence("東京 都");
    worker.tokenize();
    assert_eq!(worker.num_tokens(), 3);

    {
        let t = worker.token(0);
        assert_eq!(t.surface(), "東京");
        assert_eq!(t.range_char(), 0..2);
        assert_eq!(t.range_byte(), 0..6);
        assert_eq!(
            t.feature(),
            "東京,名詞,固有名詞,地名,一般,*,*,トウキョウ,東京,*,A,*,*,*,*"
        );
    }
    {
        let t = worker.token(1);
        assert_eq!(t.surface(), " ");
        assert_eq!(t.range_char(), 2..3);
        assert_eq!(t.range_byte(), 6..7);
        assert_eq!(t.feature(), " ,空白,*,*,*,*,*, , ,*,A,*,*,*,*");
    }
    {
        let t = worker.token(2);
        assert_eq!(t.surface(), "都");
        assert_eq!(t.range_char(), 3..4);
        assert_eq!(t.range_byte(), 7..10);
        assert_eq!(t.feature(), "都,名詞,普通名詞,一般,*,*,*,ト,都,*,A,*,*,*,*");
    }

    //   c=0     c=2816 c=-20000 c=2914   c=0
    //  [BOS] -- [東京] -- [ ] -- [都] -- [EOS]
    //     r=0  l=6 r=6 l=8 r=8 l=8 r=8 l=0
    //      c=-79    c=-390  c=1134  c=-522
    assert_eq!(worker.token(0).total_cost(), -79 + 2816);
    assert_eq!(
        worker.token(1).total_cost(),
        worker.token(0).total_cost() - 390 - 20000
    );
    assert_eq!(
        worker.token(2).total_cost(),
        worker.token(1).total_cost() + 1134 + 2914
    );
}

#[test]
fn test_tokenize_tokyoto_with_space_ignored() {
    let dict = build_test_dictionary(
        LEX_CSV.as_bytes(),
        MATRIX_DEF.as_bytes(),
        CHAR_DEF.as_bytes(),
        UNK_DEF.as_bytes(),
    );

    let tokenizer = Tokenizer::new(dict).ignore_space(true).unwrap();
    let mut worker = tokenizer.new_worker();
    worker.reset_sentence("東京 都");
    worker.tokenize();
    assert_eq!(worker.num_tokens(), 2);

    {
        let t = worker.token(0);
        assert_eq!(t.surface(), "東京");
        assert_eq!(t.range_char(), 0..2);
        assert_eq!(t.range_byte(), 0..6);
        assert_eq!(
            t.feature(),
            "東京,名詞,固有名詞,地名,一般,*,*,トウキョウ,東京,*,A,*,*,*,*"
        );
    }
    {
        let t = worker.token(1);
        assert_eq!(t.surface(), "都");
        assert_eq!(t.range_char(), 3..4);
        assert_eq!(t.range_byte(), 7..10);
        assert_eq!(t.feature(), "都,名詞,普通名詞,一般,*,*,*,ト,都,*,A,*,*,*,*");
    }

    //   c=0     c=2816   c=2914   c=0
    //  [BOS] -- [東京] -- [都] -- [EOS]
    //     r=0  l=6 r=6  l=8 r=8 l=0
    //      c=-79    c=-390  c=-522
    assert_eq!(worker.token(0).total_cost(), -79 + 2816);
    assert_eq!(
        worker.token(1).total_cost(),
        worker.token(0).total_cost() - 390 + 2914
    );
}

#[test]
fn test_tokenize_tokyoto_with_spaces_ignored() {
    let dict = build_test_dictionary(
        LEX_CSV.as_bytes(),
        MATRIX_DEF.as_bytes(),
        CHAR_DEF.as_bytes(),
        UNK_DEF.as_bytes(),
    );

    let tokenizer = Tokenizer::new(dict).ignore_space(true).unwrap();
    let mut worker = tokenizer.new_worker();
    worker.reset_sentence("東京   都");
    worker.tokenize();
    assert_eq!(worker.num_tokens(), 2);

    {
        let t = worker.token(0);
        assert_eq!(t.surface(), "東京");
        assert_eq!(t.range_char(), 0..2);
        assert_eq!(t.range_byte(), 0..6);
        assert_eq!(
            t.feature(),
            "東京,名詞,固有名詞,地名,一般,*,*,トウキョウ,東京,*,A,*,*,*,*"
        );
    }
    {
        let t = worker.token(1);
        assert_eq!(t.surface(), "都");
        assert_eq!(t.range_char(), 5..6);
        assert_eq!(t.range_byte(), 9..12);
        assert_eq!(t.feature(), "都,名詞,普通名詞,一般,*,*,*,ト,都,*,A,*,*,*,*");
    }

    //   c=0     c=2816   c=2914   c=0
    //  [BOS] -- [東京] -- [都] -- [EOS]
    //     r=0  l=6 r=6  l=8 r=8 l=0
    //      c=-79    c=-390  c=-522
    assert_eq!(worker.token(0).total_cost(), -79 + 2816);
    assert_eq!(
        worker.token(1).total_cost(),
        worker.token(0).total_cost() - 390 + 2914
    );
}

#[test]
fn test_tokenize_tokyoto_startswith_spaces_ignored() {
    let dict = build_test_dictionary(
        LEX_CSV.as_bytes(),
        MATRIX_DEF.as_bytes(),
        CHAR_DEF.as_bytes(),
        UNK_DEF.as_bytes(),
    );

    let tokenizer = Tokenizer::new(dict).ignore_space(true).unwrap();
    let mut worker = tokenizer.new_worker();
    worker.reset_sentence("   東京都");
    worker.tokenize();
    assert_eq!(worker.num_tokens(), 1);

    {
        let t = worker.token(0);
        assert_eq!(t.surface(), "東京都");
        assert_eq!(t.range_char(), 3..6);
        assert_eq!(t.range_byte(), 3..12);
        assert_eq!(
            t.feature(),
            "東京都,名詞,固有名詞,地名,一般,*,*,トウキョウト,東京都,*,B,5/9,*,5/9,*"
        );
    }

    //   c=0      c=5320       c=0
    //  [BOS] -- [東京都] -- [EOS]
    //     r=0  l=6   r=8  l=0
    //      c=-79
    assert_eq!(worker.token(0).total_cost(), -79 + 5320);
}

#[test]
fn test_tokenize_tokyoto_endswith_spaces_ignored() {
    let dict = build_test_dictionary(
        LEX_CSV.as_bytes(),
        MATRIX_DEF.as_bytes(),
        CHAR_DEF.as_bytes(),
        UNK_DEF.as_bytes(),
    );

    let tokenizer = Tokenizer::new(dict).ignore_space(true).unwrap();
    let mut worker = tokenizer.new_worker();
    worker.reset_sentence("東京都   ");
    worker.tokenize();
    assert_eq!(worker.num_tokens(), 1);

    {
        let t = worker.token(0);
        assert_eq!(t.surface(), "東京都");
        assert_eq!(t.range_char(), 0..3);
        assert_eq!(t.range_byte(), 0..9);
        assert_eq!(
            t.feature(),
            "東京都,名詞,固有名詞,地名,一般,*,*,トウキョウト,東京都,*,B,5/9,*,5/9,*"
        );
    }

    //   c=0      c=5320       c=0
    //  [BOS] -- [東京都] -- [EOS]
    //     r=0  l=6   r=8  l=0
    //      c=-79
    assert_eq!(worker.token(0).total_cost(), -79 + 5320);
}

#[test]
fn test_tokenize_kampersanda() {
    let dict = build_test_dictionary(
        LEX_CSV.as_bytes(),
        MATRIX_DEF.as_bytes(),
        CHAR_DEF.as_bytes(),
        UNK_DEF.as_bytes(),
    );

    let tokenizer = Tokenizer::new(dict);
    let mut worker = tokenizer.new_worker();
    worker.reset_sentence("kampersanda");
    worker.tokenize();
    assert_eq!(worker.num_tokens(), 1);

    {
        let t = worker.token(0);
        assert_eq!(t.surface(), "kampersanda");
        assert_eq!(t.range_char(), 0..11);
        assert_eq!(t.range_byte(), 0..11);
        assert_eq!(t.feature(), "名詞,普通名詞,一般,*,*,*");
    }

    //   c=0        c=11633         c=0
    //  [BOS] -- [kampersanda] -- [EOS]
    //     r=0  l=7         r=7  l=0
    //      c=887
    assert_eq!(worker.token(0).total_cost(), 887 + 11633);
}

#[test]
fn test_tokenize_kampersanda_with_user() {
    let dict = {
        let lexicon_csv = LEX_CSV.as_bytes();
        let matrix_def = MATRIX_DEF.as_bytes();
        let char_def = CHAR_DEF.as_bytes();
        let unk_def = UNK_DEF.as_bytes();
        let dict_inner =
            SystemDictionaryBuilder::from_readers(lexicon_csv, matrix_def, char_def, unk_def)
                .unwrap();

        let dict_inner = dict_inner
            .reset_user_lexicon_from_reader(Some(USER_CSV.as_bytes()))
            .unwrap();

        Dictionary::from_inner(dict_inner)
    };

    let tokenizer = Tokenizer::new(dict);
    let mut worker = tokenizer.new_worker();
    worker.reset_sentence("kampersanda");
    worker.tokenize();
    assert_eq!(worker.num_tokens(), 1);

    {
        let t = worker.token(0);
        assert_eq!(t.surface(), "kampersanda");
        assert_eq!(t.range_char(), 0..11);
        assert_eq!(t.range_byte(), 0..11);
        assert_eq!(t.feature(), "カスタム名詞");
    }

    //   c=0        c=-2000        c=0
    //  [BOS] -- [kampersanda] -- [EOS]
    //     r=0  l=7         r=7  l=0
    //      c=887
    assert_eq!(worker.token(0).total_cost(), 887 - 2000);
}

#[test]
fn test_tokenize_kampersanda_with_max_grouping() {
    let dict = build_test_dictionary(
        LEX_CSV.as_bytes(),
        MATRIX_DEF.as_bytes(),
        CHAR_DEF.as_bytes(),
        UNK_DEF.as_bytes(),
    );

    let tokenizer = Tokenizer::new(dict)
        .ignore_space(true)
        .unwrap()
        .max_grouping_len(9);
    let mut worker = tokenizer.new_worker();
    worker.reset_sentence("kampersanda");
    worker.tokenize();
    assert_eq!(worker.num_tokens(), 2);

    {
        let t = worker.token(0);
        assert_eq!(t.surface(), "k");
        assert_eq!(t.range_char(), 0..1);
        assert_eq!(t.range_byte(), 0..1);
        assert_eq!(t.feature(), "名詞,普通名詞,一般,*,*,*");
    }
    {
        let t = worker.token(1);
        assert_eq!(t.surface(), "ampersanda");
        assert_eq!(t.range_char(), 1..11);
        assert_eq!(t.range_byte(), 1..11);
        assert_eq!(t.feature(), "名詞,普通名詞,一般,*,*,*");
    }

    //   c=0   c=11633    c=11633        c=0
    //  [BOS] -- [k] -- [ampersanda] -- [EOS]
    //     r=0 l=7 r=7 l=7        r=7  l=0
    //      c=887   c=2341
    assert_eq!(worker.token(0).total_cost(), 887 + 11633);
    assert_eq!(
        worker.token(1).total_cost(),
        worker.token(0).total_cost() + 2341 + 11633
    );
}

#[test]
fn test_tokenize_tokyoken() {
    let dict = build_test_dictionary(
        LEX_CSV.as_bytes(),
        MATRIX_DEF.as_bytes(),
        CHAR_DEF.as_bytes(),
        UNK_DEF.as_bytes(),
    );

    let tokenizer = Tokenizer::new(dict);
    let mut worker = tokenizer.new_worker();
    worker.reset_sentence("東京県に行く");
    worker.tokenize();
    assert_eq!(worker.num_tokens(), 4);
}

/// This test is to check if the category order in char.def is preserved.
#[test]
fn test_tokenize_kanjinumeric() {
    let dict = build_test_dictionary(
        LEX_CSV.as_bytes(),
        MATRIX_DEF.as_bytes(),
        CHAR_DEF.as_bytes(),
        UNK_DEF.as_bytes(),
    );

    let tokenizer = Tokenizer::new(dict);
    let mut worker = tokenizer.new_worker();
    worker.reset_sentence("一橋大学大学院");
    worker.tokenize();
    assert_eq!(worker.num_tokens(), 1);

    {
        let t = worker.token(0);
        assert_eq!(t.surface(), "一橋大学大学院");
        assert_eq!(t.range_char(), 0..7);
        assert_eq!(t.range_byte(), 0..21);
        assert_eq!(t.feature(), "名詞,数,*,*,*,*,*");
    }
}

#[test]
fn test_tokenize_empty() {
    let dict = build_test_dictionary(
        LEX_CSV.as_bytes(),
        MATRIX_DEF.as_bytes(),
        CHAR_DEF.as_bytes(),
        UNK_DEF.as_bytes(),
    );

    let tokenizer = Tokenizer::new(dict);
    let mut worker = tokenizer.new_worker();
    worker.reset_sentence("");
    worker.tokenize();
    assert_eq!(worker.num_tokens(), 0);
}

#[test]
fn test_tokenize_repeat() {
    let dict = build_test_dictionary(
        LEX_CSV.as_bytes(),
        MATRIX_DEF.as_bytes(),
        CHAR_DEF.as_bytes(),
        UNK_DEF.as_bytes(),
    );

    let tokenizer = Tokenizer::new(dict);
    let mut worker = tokenizer.new_worker();

    worker.reset_sentence("東京に行く");
    worker.tokenize();
    assert_eq!(worker.num_tokens(), 3);

    worker.reset_sentence("一橋大学大学院");
    worker.tokenize();
    assert_eq!(worker.num_tokens(), 1);

    worker.reset_sentence("");
    worker.tokenize();
    assert_eq!(worker.num_tokens(), 0);

    worker.reset_sentence("kampersanda");
    worker.tokenize();
    assert_eq!(worker.num_tokens(), 1);
}

#[test]
fn reset_and_mode_switch_invalidate_previous_results() {
    let tokenizer = Tokenizer::new(build_test_dictionary(
        LEX_CSV.as_bytes(),
        MATRIX_DEF.as_bytes(),
        CHAR_DEF.as_bytes(),
        UNK_DEF.as_bytes(),
    ));
    let mut worker = tokenizer.new_worker();
    worker.reset_sentence("東京都");
    worker.tokenize_nbest(2);
    assert!(worker.num_nbest_paths() > 0);
    worker.reset_sentence("京都");
    assert_eq!(worker.num_nbest_paths(), 0);
    assert!(worker.nbest_token_iter(0).is_none());
    worker.tokenize_nbest(2);
    worker.tokenize();
    assert_eq!(worker.num_nbest_paths(), 0);
    assert!(worker.nbest_token_iter(0).is_none());
    assert_eq!(worker.num_tokens(), 1);
    worker.tokenize();
    assert_eq!(worker.num_tokens(), 1);
    assert!(worker.lattice_snapshot().is_some());
    worker.tokenize_nbest(1);
    assert_eq!(worker.num_tokens(), 0);
    assert!(worker.lattice_snapshot().is_none());
    worker.reset_sentence("");
    worker.tokenize();
    assert_eq!(worker.num_nbest_paths(), 0);
    assert!(worker.lattice_snapshot().is_none());
}

#[test]
fn nbest_spans_and_lattice_deltas_with_spaces() {
    let dict = build_test_dictionary(
        b"a,0,0,2,a\nb,0,0,3,b\nab,0,0,9,ab\n",
        b"1 1\n0 0 1\n",
        b"DEFAULT 0 1 0\nSPACE 0 1 0\n0x0020 SPACE\n",
        b"DEFAULT,0,0,100,unknown\nSPACE,0,0,100,space\n",
    );
    let tokenizer = Tokenizer::new(dict).ignore_space(true).unwrap();
    let mut w = tokenizer.new_worker();
    w.reset_sentence("a b ");
    w.tokenize();
    let expected: Vec<_> = w
        .token_iter()
        .into_iter()
        .map(|t| (t.surface().to_owned(), t.range_byte(), t.range_char()))
        .collect();
    w.tokenize_nbest(1);
    let actual: Vec<_> = w
        .nbest_token_iter(0)
        .unwrap()
        .into_iter()
        .map(|t| (t.surface().to_owned(), t.range_byte(), t.range_char()))
        .collect();
    assert_eq!(expected, actual);
    assert_eq!(actual[0].0, "a");
    assert_eq!(actual[1].0, "b");
    w.reset_sentence("ab");
    w.tokenize();
    let lattice = w.lattice_snapshot().unwrap();
    assert_eq!(lattice.total_cost, 8);
    assert_eq!(
        lattice
            .nodes
            .iter()
            .find(|n| n.feature == "ab")
            .unwrap()
            .delta,
        3
    );
    assert!(
        lattice
            .best_path
            .iter()
            .all(|&i| lattice.nodes[i].delta == 0)
    );
    w.reset_sentence("京都");
    assert!(w.lattice_snapshot().is_none());
    assert_eq!(lattice.total_cost, 8);
}

#[test]
fn dictionary_preference_is_opt_in_for_tied_costs() {
    for (prefer, feature) in [(false, "unknown"), (true, "known")] {
        let dict = build_test_dictionary(
            b"a,0,0,0,known\n",
            b"1 1\n0 0 0\n",
            b"DEFAULT 1 1 0\n",
            b"DEFAULT,0,0,0,unknown\n",
        );
        let tokenizer = Tokenizer::new(dict).prefer_dictionary_on_tie(prefer);
        let mut w = tokenizer.new_worker();
        w.reset_sentence("a");
        w.tokenize();
        assert_eq!(w.token(0).feature(), feature);
        let snapshot = w.lattice_snapshot().unwrap();
        assert_eq!(snapshot.nodes.len(), 2);
        assert!(snapshot.nodes.iter().all(|n| n.delta == 0));
    }
}

#[test]
fn archived_system_accepts_independent_user_lexicon() {
    let inner = SystemDictionaryBuilder::from_readers(
        LEX_CSV.as_bytes(),
        MATRIX_DEF.as_bytes(),
        CHAR_DEF.as_bytes(),
        UNK_DEF.as_bytes(),
    )
    .unwrap();
    let mut bytes = Vec::new();
    inner.write(&mut bytes).unwrap();
    let base = Tokenizer::new(Dictionary::from_bytes(&bytes).unwrap());
    let updated = base.clone().with_user_lexicon(USER_CSV.as_bytes()).unwrap();
    let reference = Tokenizer::from_inner(
        inner
            .reset_user_lexicon_from_reader(Some(USER_CSV.as_bytes()))
            .unwrap(),
    );
    let mut original = base.new_worker();
    original.reset_sentence("京都東京都京都");
    original.tokenize();
    assert_eq!(original.num_tokens(), 3);
    let mut actual = updated.new_worker();
    let mut expected = reference.new_worker();
    for worker in [&mut actual, &mut expected] {
        worker.reset_sentence("京都東京都京都");
        worker.tokenize();
    }
    assert_eq!(actual.num_tokens(), 2);
    assert_eq!(
        actual
            .token_iter()
            .into_iter()
            .map(|t| (t.feature().to_owned(), t.word_cost()))
            .collect::<Vec<_>>(),
        expected
            .token_iter()
            .into_iter()
            .map(|t| (t.feature().to_owned(), t.word_cost()))
            .collect::<Vec<_>>()
    );
    let snapshot = actual.lattice_snapshot().unwrap();
    assert!(
        snapshot
            .nodes
            .iter()
            .any(|n| n.feature == actual.token(0).feature())
    );
    actual.tokenize_nbest(3);
    expected.tokenize_nbest(3);
    assert_eq!(actual.num_nbest_paths(), expected.num_nbest_paths());
    for path in 0..actual.num_nbest_paths() {
        assert_eq!(
            actual
                .nbest_token_iter(path)
                .unwrap()
                .into_iter()
                .map(|t| (t.feature().to_owned(), t.word_cost()))
                .collect::<Vec<_>>(),
            expected
                .nbest_token_iter(path)
                .unwrap()
                .into_iter()
                .map(|t| (t.feature().to_owned(), t.word_cost()))
                .collect::<Vec<_>>()
        );
    }
    assert!(
        base.with_user_lexicon("a,65535,65535,0,invalid\n".as_bytes())
            .is_err()
    );
}
