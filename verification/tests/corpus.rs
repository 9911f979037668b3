use verse_corpus::{Verse, build_index};

fn verse(b: &str, c: u8, v: u8, jb: &str, t: &str) -> Verse {
    Verse { b: b.to_string(), c, v, jb: jb.to_string(), t: t.to_string() }
}

fn sample() -> Vec<Verse> {
    vec![
        verse("ge", 1, 1, "創世記", "はじめに神は天と地とを創造された。"),
        verse("ge", 1, 2, "創世記", "地は形なく、むなしく、やみが淵のおもてにあり、神の霊が水のおもてをおおっていた。"),
        verse("ge", 4, 13, "創世記", "カインは主に言った、「わたしの罰は重くて負いきれません。"),
        verse("ex", 1, 1, "出エジプト記", "さて、ヤコブと共に、おのおのその家族を伴って、エジプトへ行ったイスラエルの子らの名は次のとおりである。"),
        verse("ge", 4, 14, "創世記", "あなたは、きょう、わたしを地のおもてから追放されました。"),
    ]
}

#[test]
fn genesis() {
    let books = build_index(sample());
    assert!(books.book_names.contains(&"ge".to_string()));
    assert_eq!(
        books.get_verse("ge", 4, 13).unwrap().t,
        "カインは主に言った、「わたしの罰は重くて負いきれません。",
    );
}

#[test]
fn present_key_returns_matching_record() {
    let books = build_index(sample());
    for rec in sample() {
        let found = books.get_verse(&rec.b, rec.c, rec.v).unwrap();
        assert_eq!(found.b, rec.b);
        assert_eq!(found.c, rec.c);
        assert_eq!(found.v, rec.v);
    }
}

#[test]
fn unknown_book_is_absent() {
    let books = build_index(sample());
    assert!(books.get_verse("zz", 1, 1).is_none());
}

#[test]
fn chapter_beyond_content_is_absent() {
    let books = build_index(sample());
    assert!(books.get_verse("ge", 255, 1).is_none());
    assert!(books.get_verse("ge", 2, 1).is_none());
}

#[test]
fn unindexed_verse_is_absent() {
    let books = build_index(sample());
    assert!(books.get_verse("ge", 4, 99).is_none());
    assert!(books.get_verse("ex", 1, 2).is_none());
}

#[test]
fn duplicate_key_later_record_wins() {
    let mut records = sample();
    records.push(verse("ge", 4, 13, "創世記", "後から来た方"));
    let books = build_index(records);
    assert_eq!(books.get_verse("ge", 4, 13).unwrap().t, "後から来た方");
}

#[test]
fn book_names_distinct_in_first_seen_order() {
    let books = build_index(sample());
    assert_eq!(books.book_names, vec!["ge".to_string(), "ex".to_string()]);
}

#[test]
fn rebuilding_gives_identical_content() {
    let a = build_index(sample());
    let b = build_index(sample());
    assert_eq!(a.book_names, b.book_names);
    for rec in sample() {
        let x = a.get_verse(&rec.b, rec.c, rec.v).unwrap();
        let y = b.get_verse(&rec.b, rec.c, rec.v).unwrap();
        assert_eq!(x.t, y.t);
        assert_eq!(x.jb, y.jb);
    }
    assert!(a.get_verse("zz", 3, 3).is_none() && b.get_verse("zz", 3, 3).is_none());
}

#[test]
fn counts_are_maxima_seen() {
    let books = build_index(sample());
    let (_, ge) = books
        .book_indices
        .iter()
        .find(|e| e.0 == "ge")
        .expect("ge indexed");
    assert_eq!(ge.chapter_count, 4);
    let (_, ge4) = ge.indices.iter().find(|e| e.0 == 4).expect("ge 4 indexed");
    assert_eq!(ge4.verse_count, 14);
    let (_, ge1) = ge.indices.iter().find(|e| e.0 == 1).expect("ge 1 indexed");
    assert_eq!(ge1.verse_count, 2);
}

#[test]
fn empty_dataset_answers_nothing() {
    let books = build_index(Vec::new());
    assert!(books.book_names.is_empty());
    assert!(books.verses.is_empty());
    assert!(books.get_verse("ge", 1, 1).is_none());
}

#[test]
fn stored_positions_point_into_record_store() {
    let books = build_index(sample());
    for (_, bi) in &books.book_indices {
        for (c, ci) in &bi.indices {
            for (v, pos) in &ci.indices {
                let rec = &books.verses[*pos];
                assert_eq!(rec.c, *c);
                assert_eq!(rec.v, *v);
            }
        }
    }
}

#[test]
fn text_survives_byte_for_byte() {
    let text = "カインは主に言った、「わたしの罰は重くて負いきれません。";
    let books = build_index(sample());
    let got = books.get_verse("ge", 4, 13).unwrap();
    assert_eq!(got.t.as_bytes(), text.as_bytes());
    assert_eq!(got.jb, "創世記");
}
