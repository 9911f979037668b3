//! The nested book -> chapter -> verse index and the corpus it serves.
//!
//! Each level of the index is an association list with unique keys. A
//! [`Books`] value owns the record store (`verses`) and the index; the
//! index stores positions into the record store, never copies of the
//! records. [`build_index`] constructs the whole corpus in one pass and
//! [`Books::get_verse`] answers exact-key queries against it.

use vstd::prelude::*;

use crate::dataset::{
    Verse, book_known, chap_known, distinct_books, key_matches, last_match,
    lemma_unknown_book_max, lemma_unknown_chap_max, max_chapter, max_verse,
};

verus! {

/// Index of one chapter: the largest verse number seen and, per verse
/// number, the position of the winning record in the record store.
#[derive(Debug, Clone)]
pub struct ChapterIndex {
    /// largest verse number observed in this chapter
    pub verse_count: u8,
    /// verse number -> position in the record store
    pub indices: Vec<(u8, usize)>,
}

/// Index of one book: the largest chapter number seen and, per chapter
/// number, that chapter's index.
#[derive(Debug, Clone)]
pub struct BookIndex {
    /// largest chapter number observed in this book
    pub chapter_count: u8,
    /// chapter number -> chapter index
    pub indices: Vec<(u8, ChapterIndex)>,
}

/// The corpus: the record store, the book codes in first-occurrence
/// order, and the book -> chapter -> verse index.
#[derive(Debug, Clone)]
pub struct Books {
    /// raw verse records, in source order
    pub verses: Vec<Verse>,
    /// distinct book codes, in first-occurrence order
    pub book_names: Vec<String>,
    /// book code -> book index
    pub book_indices: Vec<(String, BookIndex)>,
}

/// First entry for verse number `v` in a chapter's list, if any.
pub open spec fn verse_entry(entries: Seq<(u8, usize)>, v: u8) -> Option<usize>
    decreases entries.len(),
{
    if entries.len() == 0 {
        None
    } else if entries.first().0 == v {
        Some(entries.first().1)
    } else {
        verse_entry(entries.drop_first(), v)
    }
}

/// First entry for chapter number `c` in a book's list, if any.
pub open spec fn chapter_entry(entries: Seq<(u8, ChapterIndex)>, c: u8) -> Option<ChapterIndex>
    decreases entries.len(),
{
    if entries.len() == 0 {
        None
    } else if entries.first().0 == c {
        Some(entries.first().1)
    } else {
        chapter_entry(entries.drop_first(), c)
    }
}

/// First entry for book code `bk` in the book list, if any.
pub open spec fn book_entry(entries: Seq<(String, BookIndex)>, bk: Seq<char>) -> Option<BookIndex>
    decreases entries.len(),
{
    if entries.len() == 0 {
        None
    } else if entries.first().0@ == bk {
        Some(entries.first().1)
    } else {
        book_entry(entries.drop_first(), bk)
    }
}

/// The chapter index reached by following `bk` then `c`.
pub open spec fn chap_of(bx: Seq<(String, BookIndex)>, bk: Seq<char>, c: u8) -> Option<ChapterIndex> {
    match book_entry(bx, bk) {
        Some(bi) => chapter_entry(bi.indices@, c),
        None => None,
    }
}

/// The stored position reached by following `bk`, `c`, then `v`.
pub open spec fn pos_of(bx: Seq<(String, BookIndex)>, bk: Seq<char>, c: u8, v: u8) -> Option<usize> {
    match chap_of(bx, bk, c) {
        Some(ci) => verse_entry(ci.indices@, v),
        None => None,
    }
}

/// The position `dataset_lookup` would name, as a stored position.
pub open spec fn last_pos(rs: Seq<Verse>, bk: Seq<char>, c: u8, v: u8) -> Option<usize> {
    let i = last_match(rs, bk, c, v);
    if i >= 0 {
        Some(i as usize)
    } else {
        None
    }
}

/// Keys of a chapter's verse list are unique.
pub open spec fn verse_keys_unique(entries: Seq<(u8, usize)>) -> bool {
    forall|p: int, q: int| 0 <= p < q < entries.len() ==> entries[p].0 != entries[q].0
}

/// Keys of a book's chapter list are unique, and every chapter's verse
/// list has unique keys.
pub open spec fn chapter_keys_unique(entries: Seq<(u8, ChapterIndex)>) -> bool {
    &&& forall|p: int, q: int| 0 <= p < q < entries.len() ==> entries[p].0 != entries[q].0
    &&& forall|p: int| 0 <= p < entries.len() ==> verse_keys_unique(#[trigger] entries[p].1.indices@)
}

/// Keys of the book list are unique, and every book's lists are too.
pub open spec fn book_keys_unique(entries: Seq<(String, BookIndex)>) -> bool {
    &&& forall|p: int, q: int| 0 <= p < q < entries.len() ==> entries[p].0@ != entries[q].0@
    &&& forall|p: int| 0 <= p < entries.len() ==> chapter_keys_unique(#[trigger] entries[p].1.indices@)
}

/// The nested index `bx` is exactly the index of the record sequence
/// `rs`: every key path is present exactly when `rs` holds it, the two
/// counts are the maxima seen in `rs`, and every stored position is the
/// position of the last record of `rs` with that key.
pub open spec fn index_maps(bx: Seq<(String, BookIndex)>, rs: Seq<Verse>) -> bool {
    &&& book_keys_unique(bx)
    &&& forall|bk: Seq<char>| (#[trigger] book_entry(bx, bk)) is Some <==> book_known(rs, bk)
    &&& forall|bk: Seq<char>| #[trigger] book_entry(bx, bk) matches Some(bi)
            ==> bi.chapter_count == max_chapter(rs, bk)
    &&& forall|bk: Seq<char>, c: u8| (#[trigger] chap_of(bx, bk, c)) is Some <==> chap_known(rs, bk, c)
    &&& forall|bk: Seq<char>, c: u8| #[trigger] chap_of(bx, bk, c) matches Some(ci)
            ==> ci.verse_count == max_verse(rs, bk, c)
    &&& forall|bk: Seq<char>, c: u8, v: u8| #[trigger] pos_of(bx, bk, c, v) == last_pos(rs, bk, c, v)
}

/// The index `(names, bx)` is exactly the index of the record sequence
/// `rs`, and the book-name list is the first-occurrence list of `rs`.
pub open spec fn indexes(names: Seq<String>, bx: Seq<(String, BookIndex)>, rs: Seq<Verse>) -> bool {
    &&& names.map_values(|s: String| s@) == distinct_books(rs)
    &&& index_maps(bx, rs)
}

/// Largest chapter recorded for book `bk`, `0` when the book is absent.
pub open spec fn book_chapter_count(bx: Seq<(String, BookIndex)>, bk: Seq<char>) -> u8 {
    match book_entry(bx, bk) {
        Some(bi) => bi.chapter_count,
        None => 0,
    }
}

/// Largest verse recorded under `(bk, c)`, `0` when that path is absent.
pub open spec fn chap_verse_count(bx: Seq<(String, BookIndex)>, bk: Seq<char>, c: u8) -> u8 {
    match chap_of(bx, bk, c) {
        Some(ci) => ci.verse_count,
        None => 0,
    }
}

impl Books {
    /// Position stored for key `(bk, c, v)`, if the whole path exists.
    pub open spec fn index_pos(self, bk: Seq<char>, c: u8, v: u8) -> Option<usize> {
        pos_of(self.book_indices@, bk, c, v)
    }

    /// What a lookup on this corpus returns: the record at the stored
    /// position, or nothing when the path or the position is absent.
    pub open spec fn spec_lookup(self, bk: Seq<char>, c: u8, v: u8) -> Option<Verse> {
        match self.index_pos(bk, c, v) {
            Some(p) => {
                if (p as int) < self.verses@.len() {
                    Some(self.verses@[p as int])
                } else {
                    None
                }
            },
            None => None,
        }
    }

    /// This corpus is exactly the one built from the record sequence
    /// `rs`: same records, and an index that answers by `rs`.
    pub open spec fn is_index_of(self, rs: Seq<Verse>) -> bool {
        &&& self.verses@ == rs
        &&& indexes(self.book_names@, self.book_indices@, rs)
    }

    /// Exact-key lookup. Returns a copy of the indexed record for
    /// `(book, chapter, verse)`, or `None` when any level of the key
    /// path is absent. Never mutates; the result is a pure function of
    /// the corpus and the key.
    pub fn get_verse(&self, book: &str, chapter: u8, verse: u8) -> (r: Option<Verse>)
        ensures
            r == self.spec_lookup(book@, chapter, verse),
    {
        let key: String = book.to_owned();
        match find_book(&self.book_indices, &key) {
            None => {
                proof {
                    lemma_book_entry_first(
                        self.book_indices@,
                        book@,
                        self.book_indices@.len() as int,
                    );
                }
                None
            },
            Some(bp) => {
                proof {
                    lemma_book_entry_first(self.book_indices@, book@, bp as int);
                }
                let bi = &self.book_indices[bp].1;
                match find_chapter(&bi.indices, chapter) {
                    None => {
                        proof {
                            lemma_chapter_entry_first(bi.indices@, chapter, bi.indices@.len() as int);
                        }
                        None
                    },
                    Some(cp) => {
                        proof {
                            lemma_chapter_entry_first(bi.indices@, chapter, cp as int);
                        }
                        let ci = &bi.indices[cp].1;
                        match find_verse(&ci.indices, verse) {
                            None => {
                                proof {
                                    lemma_verse_entry_first(ci.indices@, verse, ci.indices@.len() as int);
                                }
                                None
                            },
                            Some(vp) => {
                                proof {
                                    lemma_verse_entry_first(ci.indices@, verse, vp as int);
                                }
                                let pos = ci.indices[vp].1;
                                if pos < self.verses.len() {
                                    Some(self.verses[pos].clone())
                                } else {
                                    None
                                }
                            },
                        }
                    },
                }
            },
        }
    }
}

/// A first-match position determines `book_entry`: if nothing before
/// `p` matches, the entry is the one at `p`, or absent when `p` is the
/// length.
proof fn lemma_book_entry_first(entries: Seq<(String, BookIndex)>, bk: Seq<char>, p: int)
    requires
        0 <= p <= entries.len(),
        forall|q: int| 0 <= q < p ==> entries[q].0@ != bk,
        p < entries.len() ==> entries[p].0@ == bk,
    ensures
        p < entries.len() ==> book_entry(entries, bk) == Some(entries[p].1),
        p == entries.len() ==> book_entry(entries, bk) is None,
    decreases entries.len(),
{
    if entries.len() > 0 && p > 0 {
        if p < entries.len() {
            assert(entries.drop_first()[p - 1] == entries[p as int]);
        }
        assert forall|q: int| 0 <= q < p - 1 implies entries.drop_first()[q].0@ != bk by {
            assert(entries.drop_first()[q] == entries[q + 1]);
        }
        lemma_book_entry_first(entries.drop_first(), bk, p - 1);
    }
}

/// Same statement at the chapter level.
proof fn lemma_chapter_entry_first(entries: Seq<(u8, ChapterIndex)>, c: u8, p: int)
    requires
        0 <= p <= entries.len(),
        forall|q: int| 0 <= q < p ==> entries[q].0 != c,
        p < entries.len() ==> entries[p].0 == c,
    ensures
        p < entries.len() ==> chapter_entry(entries, c) == Some(entries[p].1),
        p == entries.len() ==> chapter_entry(entries, c) is None,
    decreases entries.len(),
{
    if entries.len() > 0 && p > 0 {
        if p < entries.len() {
            assert(entries.drop_first()[p - 1] == entries[p as int]);
        }
        assert forall|q: int| 0 <= q < p - 1 implies entries.drop_first()[q].0 != c by {
            assert(entries.drop_first()[q] == entries[q + 1]);
        }
        lemma_chapter_entry_first(entries.drop_first(), c, p - 1);
    }
}

/// Same statement at the verse level.
proof fn lemma_verse_entry_first(entries: Seq<(u8, usize)>, v: u8, p: int)
    requires
        0 <= p <= entries.len(),
        forall|q: int| 0 <= q < p ==> entries[q].0 != v,
        p < entries.len() ==> entries[p].0 == v,
    ensures
        p < entries.len() ==> verse_entry(entries, v) == Some(entries[p].1),
        p == entries.len() ==> verse_entry(entries, v) is None,
    decreases entries.len(),
{
    if entries.len() > 0 && p > 0 {
        if p < entries.len() {
            assert(entries.drop_first()[p - 1] == entries[p as int]);
        }
        assert forall|q: int| 0 <= q < p - 1 implies entries.drop_first()[q].0 != v by {
            assert(entries.drop_first()[q] == entries[q + 1]);
        }
        lemma_verse_entry_first(entries.drop_first(), v, p - 1);
    }
}

/// Position of the first entry for `key` in the book list.
fn find_book(entries: &Vec<(String, BookIndex)>, key: &String) -> (r: Option<usize>)
    ensures
        match r {
            Some(p) => p < entries@.len() && entries@[p as int].0@ == key@ && forall|q: int|
                0 <= q < p ==> entries@[q].0@ != key@,
            None => forall|q: int| 0 <= q < entries@.len() ==> entries@[q].0@ != key@,
        },
{
    let mut j: usize = 0;
    while j < entries.len()
        invariant
            j <= entries@.len(),
            forall|q: int| 0 <= q < j ==> entries@[q].0@ != key@,
        decreases entries@.len() - j,
    {
        if entries[j].0 == *key {
            return Some(j);
        }
        j += 1;
    }
    None
}

/// Position of the first entry for chapter `c` in a book's list.
fn find_chapter(entries: &Vec<(u8, ChapterIndex)>, c: u8) -> (r: Option<usize>)
    ensures
        match r {
            Some(p) => p < entries@.len() && entries@[p as int].0 == c && forall|q: int|
                0 <= q < p ==> entries@[q].0 != c,
            None => forall|q: int| 0 <= q < entries@.len() ==> entries@[q].0 != c,
        },
{
    let mut j: usize = 0;
    while j < entries.len()
        invariant
            j <= entries@.len(),
            forall|q: int| 0 <= q < j ==> entries@[q].0 != c,
        decreases entries@.len() - j,
    {
        if entries[j].0 == c {
            return Some(j);
        }
        j += 1;
    }
    None
}

/// Position of the first entry for verse `v` in a chapter's list.
fn find_verse(entries: &Vec<(u8, usize)>, v: u8) -> (r: Option<usize>)
    ensures
        match r {
            Some(p) => p < entries@.len() && entries@[p as int].0 == v && forall|q: int|
                0 <= q < p ==> entries@[q].0 != v,
            None => forall|q: int| 0 <= q < entries@.len() ==> entries@[q].0 != v,
        },
{
    let mut j: usize = 0;
    while j < entries.len()
        invariant
            j <= entries@.len(),
            forall|q: int| 0 <= q < j ==> entries@[q].0 != v,
        decreases entries@.len() - j,
    {
        if entries[j].0 == v {
            return Some(j);
        }
        j += 1;
    }
    None
}

/// Whether `key` already occurs in the book-name list.
fn contains_name(names: &Vec<String>, key: &String) -> (r: bool)
    ensures
        r == exists|q: int| 0 <= q < names@.len() && names@[q]@ == key@,
{
    let mut j: usize = 0;
    while j < names.len()
        invariant
            j <= names@.len(),
            forall|q: int| 0 <= q < j ==> names@[q]@ != key@,
        decreases names@.len() - j,
    {
        if names[j] == *key {
            return true;
        }
        j += 1;
    }
    false
}

/// Overwriting the unique entry that holds verse key `nv.0` changes
/// that key's entry and no other.
proof fn lemma_verse_entry_update(entries: Seq<(u8, usize)>, p: int, nv: (u8, usize))
    requires
        0 <= p < entries.len(),
        entries[p].0 == nv.0,
        forall|q: int| 0 <= q < entries.len() && q != p ==> entries[q].0 != nv.0,
    ensures
        forall|vv: u8| #[trigger] verse_entry(entries.update(p, nv), vv) == (if vv == nv.0 {
            Some(nv.1)
        } else {
            verse_entry(entries, vv)
        }),
    decreases entries.len(),
{
    let s1 = entries.update(p, nv);
    if p > 0 {
        assert(s1.drop_first() =~= entries.drop_first().update(p - 1, nv));
        assert forall|q: int|
            0 <= q < entries.drop_first().len() && q != p - 1 implies entries.drop_first()[q].0
            != nv.0 by {
            assert(entries.drop_first()[q] == entries[q + 1]);
        }
        lemma_verse_entry_update(entries.drop_first(), p - 1, nv);
    } else {
        assert(s1.drop_first() =~= entries.drop_first());
    }
    assert forall|vv: u8| #[trigger] verse_entry(s1, vv) == (if vv == nv.0 {
        Some(nv.1)
    } else {
        verse_entry(entries, vv)
    }) by {
        if p == 0 {
            assert(s1.first() == nv);
            if vv == nv.0 {
                assert(verse_entry(s1, vv) == Some(nv.1));
            } else {
                assert(verse_entry(s1, vv) == verse_entry(s1.drop_first(), vv));
                assert(verse_entry(entries, vv) == verse_entry(entries.drop_first(), vv));
            }
        } else {
            assert(s1.first() == entries.first());
            if entries.first().0 == vv {
                assert(vv != nv.0);
                assert(verse_entry(s1, vv) == Some(s1.first().1));
                assert(verse_entry(entries, vv) == Some(entries.first().1));
            } else {
                assert(verse_entry(s1, vv) == verse_entry(s1.drop_first(), vv));
                assert(verse_entry(entries, vv) == verse_entry(entries.drop_first(), vv));
            }
        }
    }
}

/// Appending an entry for a verse key not yet present adds that key's
/// entry and leaves every other key's entry unchanged.
proof fn lemma_verse_entry_push(entries: Seq<(u8, usize)>, nv: (u8, usize))
    requires
        forall|q: int| 0 <= q < entries.len() ==> entries[q].0 != nv.0,
    ensures
        forall|vv: u8| #[trigger] verse_entry(entries.push(nv), vv) == (if vv == nv.0 {
            Some(nv.1)
        } else {
            verse_entry(entries, vv)
        }),
    decreases entries.len(),
{
    let s1 = entries.push(nv);
    if entries.len() > 0 {
        assert(s1.drop_first() =~= entries.drop_first().push(nv));
        assert forall|q: int|
            0 <= q < entries.drop_first().len() implies entries.drop_first()[q].0 != nv.0 by {
            assert(entries.drop_first()[q] == entries[q + 1]);
        }
        lemma_verse_entry_push(entries.drop_first(), nv);
    } else {
        assert(s1.drop_first() =~= Seq::<(u8, usize)>::empty());
    }
    assert forall|vv: u8| #[trigger] verse_entry(s1, vv) == (if vv == nv.0 {
        Some(nv.1)
    } else {
        verse_entry(entries, vv)
    }) by {
        if entries.len() == 0 {
            assert(s1.first() == nv);
            if vv == nv.0 {
                assert(verse_entry(s1, vv) == Some(nv.1));
            } else {
                assert(verse_entry(s1, vv) == verse_entry(s1.drop_first(), vv));
            }
        } else {
            assert(s1.first() == entries.first());
            assert(entries.first().0 != nv.0);
            if entries.first().0 == vv {
                assert(verse_entry(s1, vv) == Some(s1.first().1));
                assert(verse_entry(entries, vv) == Some(entries.first().1));
            } else {
                assert(verse_entry(s1, vv) == verse_entry(s1.drop_first(), vv));
                assert(verse_entry(entries, vv) == verse_entry(entries.drop_first(), vv));
            }
        }
    }
}

/// Overwriting the unique entry that holds chapter key `nv.0` changes
/// that key's entry and no other.
proof fn lemma_chapter_entry_update(entries: Seq<(u8, ChapterIndex)>, p: int, nv: (u8, ChapterIndex))
    requires
        0 <= p < entries.len(),
        entries[p].0 == nv.0,
        forall|q: int| 0 <= q < entries.len() && q != p ==> entries[q].0 != nv.0,
    ensures
        forall|cc: u8| #[trigger] chapter_entry(entries.update(p, nv), cc) == (if cc == nv.0 {
            Some(nv.1)
        } else {
            chapter_entry(entries, cc)
        }),
    decreases entries.len(),
{
    let s1 = entries.update(p, nv);
    if p > 0 {
        assert(s1.drop_first() =~= entries.drop_first().update(p - 1, nv));
        assert forall|q: int|
            0 <= q < entries.drop_first().len() && q != p - 1 implies entries.drop_first()[q].0
            != nv.0 by {
            assert(entries.drop_first()[q] == entries[q + 1]);
        }
        lemma_chapter_entry_update(entries.drop_first(), p - 1, nv);
    } else {
        assert(s1.drop_first() =~= entries.drop_first());
    }
    assert forall|cc: u8| #[trigger] chapter_entry(s1, cc) == (if cc == nv.0 {
        Some(nv.1)
    } else {
        chapter_entry(entries, cc)
    }) by {
        if p == 0 {
            assert(s1.first() == nv);
            if cc == nv.0 {
                assert(chapter_entry(s1, cc) == Some(nv.1));
            } else {
                assert(chapter_entry(s1, cc) == chapter_entry(s1.drop_first(), cc));
                assert(chapter_entry(entries, cc) == chapter_entry(entries.drop_first(), cc));
            }
        } else {
            assert(s1.first() == entries.first());
            if entries.first().0 == cc {
                assert(cc != nv.0);
                assert(chapter_entry(s1, cc) == Some(s1.first().1));
                assert(chapter_entry(entries, cc) == Some(entries.first().1));
            } else {
                assert(chapter_entry(s1, cc) == chapter_entry(s1.drop_first(), cc));
                assert(chapter_entry(entries, cc) == chapter_entry(entries.drop_first(), cc));
            }
        }
    }
}

/// Appending an entry for a chapter key not yet present adds that key's
/// entry and leaves every other key's entry unchanged.
proof fn lemma_chapter_entry_push(entries: Seq<(u8, ChapterIndex)>, nv: (u8, ChapterIndex))
    requires
        forall|q: int| 0 <= q < entries.len() ==> entries[q].0 != nv.0,
    ensures
        forall|cc: u8| #[trigger] chapter_entry(entries.push(nv), cc) == (if cc == nv.0 {
            Some(nv.1)
        } else {
            chapter_entry(entries, cc)
        }),
    decreases entries.len(),
{
    let s1 = entries.push(nv);
    if entries.len() > 0 {
        assert(s1.drop_first() =~= entries.drop_first().push(nv));
        assert forall|q: int|
            0 <= q < entries.drop_first().len() implies entries.drop_first()[q].0 != nv.0 by {
            assert(entries.drop_first()[q] == entries[q + 1]);
        }
        lemma_chapter_entry_push(entries.drop_first(), nv);
    } else {
        assert(s1.drop_first() =~= Seq::<(u8, ChapterIndex)>::empty());
    }
    assert forall|cc: u8| #[trigger] chapter_entry(s1, cc) == (if cc == nv.0 {
        Some(nv.1)
    } else {
        chapter_entry(entries, cc)
    }) by {
        if entries.len() == 0 {
            assert(s1.first() == nv);
            if cc == nv.0 {
                assert(chapter_entry(s1, cc) == Some(nv.1));
            } else {
                assert(chapter_entry(s1, cc) == chapter_entry(s1.drop_first(), cc));
            }
        } else {
            assert(s1.first() == entries.first());
            assert(entries.first().0 != nv.0);
            if entries.first().0 == cc {
                assert(chapter_entry(s1, cc) == Some(s1.first().1));
                assert(chapter_entry(entries, cc) == Some(entries.first().1));
            } else {
                assert(chapter_entry(s1, cc) == chapter_entry(s1.drop_first(), cc));
                assert(chapter_entry(entries, cc) == chapter_entry(entries.drop_first(), cc));
            }
        }
    }
}

/// Overwriting the unique entry that holds book key `nv.0` changes that
/// key's entry and no other.
proof fn lemma_book_entry_update(entries: Seq<(String, BookIndex)>, p: int, nv: (String, BookIndex))
    requires
        0 <= p < entries.len(),
        entries[p].0@ == nv.0@,
        forall|q: int| 0 <= q < entries.len() && q != p ==> entries[q].0@ != nv.0@,
    ensures
        forall|bk: Seq<char>| #[trigger] book_entry(entries.update(p, nv), bk) == (if bk == nv.0@ {
            Some(nv.1)
        } else {
            book_entry(entries, bk)
        }),
    decreases entries.len(),
{
    let s1 = entries.update(p, nv);
    if p > 0 {
        assert(s1.drop_first() =~= entries.drop_first().update(p - 1, nv));
        assert forall|q: int|
            0 <= q < entries.drop_first().len() && q != p - 1 implies entries.drop_first()[q].0@
            != nv.0@ by {
            assert(entries.drop_first()[q] == entries[q + 1]);
        }
        lemma_book_entry_update(entries.drop_first(), p - 1, nv);
    } else {
        assert(s1.drop_first() =~= entries.drop_first());
    }
    assert forall|bk: Seq<char>| #[trigger] book_entry(s1, bk) == (if bk == nv.0@ {
        Some(nv.1)
    } else {
        book_entry(entries, bk)
    }) by {
        if p == 0 {
            assert(s1.first() == nv);
            if bk == nv.0@ {
                assert(book_entry(s1, bk) == Some(nv.1));
            } else {
                assert(book_entry(s1, bk) == book_entry(s1.drop_first(), bk));
                assert(book_entry(entries, bk) == book_entry(entries.drop_first(), bk));
            }
        } else {
            assert(s1.first() == entries.first());
            if entries.first().0@ == bk {
                assert(bk != nv.0@);
                assert(book_entry(s1, bk) == Some(s1.first().1));
                assert(book_entry(entries, bk) == Some(entries.first().1));
            } else {
                assert(book_entry(s1, bk) == book_entry(s1.drop_first(), bk));
                assert(book_entry(entries, bk) == book_entry(entries.drop_first(), bk));
            }
        }
    }
}

/// Appending an entry for a book key not yet present adds that key's
/// entry and leaves every other key's entry unchanged.
proof fn lemma_book_entry_push(entries: Seq<(String, BookIndex)>, nv: (String, BookIndex))
    requires
        forall|q: int| 0 <= q < entries.len() ==> entries[q].0@ != nv.0@,
    ensures
        forall|bk: Seq<char>| #[trigger] book_entry(entries.push(nv), bk) == (if bk == nv.0@ {
            Some(nv.1)
        } else {
            book_entry(entries, bk)
        }),
    decreases entries.len(),
{
    let s1 = entries.push(nv);
    if entries.len() > 0 {
        assert(s1.drop_first() =~= entries.drop_first().push(nv));
        assert forall|q: int|
            0 <= q < entries.drop_first().len() implies entries.drop_first()[q].0@ != nv.0@ by {
            assert(entries.drop_first()[q] == entries[q + 1]);
        }
        lemma_book_entry_push(entries.drop_first(), nv);
    } else {
        assert(s1.drop_first() =~= Seq::<(String, BookIndex)>::empty());
    }
    assert forall|bk: Seq<char>| #[trigger] book_entry(s1, bk) == (if bk == nv.0@ {
        Some(nv.1)
    } else {
        book_entry(entries, bk)
    }) by {
        if entries.len() == 0 {
            assert(s1.first() == nv);
            if bk == nv.0@ {
                assert(book_entry(s1, bk) == Some(nv.1));
            } else {
                assert(book_entry(s1, bk) == book_entry(s1.drop_first(), bk));
            }
        } else {
            assert(s1.first() == entries.first());
            assert(entries.first().0@ != nv.0@);
            if entries.first().0@ == bk {
                assert(book_entry(s1, bk) == Some(s1.first().1));
                assert(book_entry(entries, bk) == Some(entries.first().1));
            } else {
                assert(book_entry(s1, bk) == book_entry(s1.drop_first(), bk));
                assert(book_entry(entries, bk) == book_entry(entries.drop_first(), bk));
            }
        }
    }
}

/// Largest verse recorded in chapter `c` of this book, `0` when absent.
pub open spec fn book_verse_count(bi: BookIndex, c: u8) -> u8 {
    match chapter_entry(bi.indices@, c) {
        Some(ci) => ci.verse_count,
        None => 0,
    }
}

/// Position recorded under `(c, vv)` in this book, if the path exists.
pub open spec fn book_verse_entry(bi: BookIndex, c: u8, vv: u8) -> Option<usize> {
    match chapter_entry(bi.indices@, c) {
        Some(ci) => verse_entry(ci.indices@, vv),
        None => None,
    }
}

/// Fold one record with verse number `v` at store position `pos` into a
/// chapter's index: raise the verse maximum and let the new position
/// win the verse key.
fn fold_into_chapter(ci: &mut ChapterIndex, v: u8, pos: usize)
    requires
        verse_keys_unique(old(ci).indices@),
    ensures
        verse_keys_unique(final(ci).indices@),
        final(ci).verse_count == (if v > old(ci).verse_count {
            v
        } else {
            old(ci).verse_count
        }),
        forall|vv: u8| #[trigger] verse_entry(final(ci).indices@, vv) == (if vv == v {
            Some(pos)
        } else {
            verse_entry(old(ci).indices@, vv)
        }),
{
    if v > ci.verse_count {
        ci.verse_count = v;
    }
    let ghost s0 = ci.indices@;
    match find_verse(&ci.indices, v) {
        Some(vp) => {
            proof {
                assert forall|q: int| 0 <= q < s0.len() && q != vp implies s0[q].0 != v by {
                    if q < vp as int {
                        assert(s0[q].0 != s0[vp as int].0);
                    } else {
                        assert(s0[vp as int].0 != s0[q].0);
                    }
                }
                lemma_verse_entry_update(s0, vp as int, (v, pos));
            }
            ci.indices[vp] = (v, pos);
            proof {
                assert(ci.indices@ == s0.update(vp as int, (v, pos)));
                assert forall|p: int, q: int|
                    0 <= p < q < ci.indices@.len() implies ci.indices@[p].0 != ci.indices@[q].0 by {
                    assert(ci.indices@[p].0 == s0[p].0);
                    assert(ci.indices@[q].0 == s0[q].0);
                }
            }
        },
        None => {
            proof {
                lemma_verse_entry_push(s0, (v, pos));
            }
            ci.indices.push((v, pos));
            proof {
                assert(ci.indices@ == s0.push((v, pos)));
                assert forall|p: int, q: int|
                    0 <= p < q < ci.indices@.len() implies ci.indices@[p].0 != ci.indices@[q].0 by {
                    assert(ci.indices@[p] == s0[p]);
                    if q < s0.len() {
                        assert(ci.indices@[q] == s0[q]);
                    }
                }
            }
        },
    }
}

/// Fold one record with chapter `c`, verse `v` and store position `pos`
/// into a book's index: raise the chapter maximum and fold the record
/// into its chapter, creating the chapter first when absent.
fn fold_into_book(bi: &mut BookIndex, c: u8, v: u8, pos: usize)
    requires
        chapter_keys_unique(old(bi).indices@),
    ensures
        chapter_keys_unique(final(bi).indices@),
        final(bi).chapter_count == (if c > old(bi).chapter_count {
            c
        } else {
            old(bi).chapter_count
        }),
        forall|cc: u8|
            cc != c ==> #[trigger] chapter_entry(final(bi).indices@, cc) == chapter_entry(
                old(bi).indices@,
                cc,
            ),
        (chapter_entry(final(bi).indices@, c) matches Some(nci) && nci.verse_count == (if v
            > book_verse_count(*old(bi), c) {
            v
        } else {
            book_verse_count(*old(bi), c)
        }) && forall|vv: u8| #[trigger] verse_entry(nci.indices@, vv) == (if vv == v {
            Some(pos)
        } else {
            book_verse_entry(*old(bi), c, vv)
        })),
{
    if c > bi.chapter_count {
        bi.chapter_count = c;
    }
    let ghost s0 = bi.indices@;
    match find_chapter(&bi.indices, c) {
        Some(cp) => {
            proof {
                assert forall|q: int| 0 <= q < s0.len() && q != cp implies s0[q].0 != c by {
                    if q < cp as int {
                        assert(s0[q].0 != s0[cp as int].0);
                    } else {
                        assert(s0[cp as int].0 != s0[q].0);
                    }
                }
                lemma_chapter_entry_first(s0, c, cp as int);
                assert(verse_keys_unique(s0[cp as int].1.indices@));
            }
            fold_into_chapter(&mut bi.indices[cp].1, v, pos);
            proof {
                let ne = bi.indices@[cp as int];
                assert(ne.0 == c);
                assert(bi.indices@ == s0.update(cp as int, ne));
                lemma_chapter_entry_update(s0, cp as int, ne);
                assert forall|p: int, q: int|
                    0 <= p < q < bi.indices@.len() implies bi.indices@[p].0 != bi.indices@[q].0 by {
                    assert(bi.indices@[p].0 == s0[p].0);
                    assert(bi.indices@[q].0 == s0[q].0);
                }
                assert forall|p: int|
                    0 <= p < bi.indices@.len() implies verse_keys_unique(
                    #[trigger] bi.indices@[p].1.indices@,
                ) by {
                    if p != cp as int {
                        assert(bi.indices@[p] == s0[p]);
                    }
                }
            }
        },
        None => {
            let mut nci = ChapterIndex { verse_count: 0, indices: Vec::new() };
            fold_into_chapter(&mut nci, v, pos);
            let ghost ne = (c, nci);
            proof {
                lemma_chapter_entry_push(s0, ne);
                assert(chapter_entry(s0, c) is None) by {
                    lemma_chapter_entry_first(s0, c, s0.len() as int);
                }
                assert forall|vv: u8| verse_entry(Seq::<(u8, usize)>::empty(), vv) is None by {
                    assert(Seq::<(u8, usize)>::empty().len() == 0);
                }
            }
            bi.indices.push((c, nci));
            proof {
                assert(bi.indices@ == s0.push(ne));
                assert forall|p: int, q: int|
                    0 <= p < q < bi.indices@.len() implies bi.indices@[p].0 != bi.indices@[q].0 by {
                    assert(bi.indices@[p].0 == s0[p].0);
                    if q < s0.len() {
                        assert(bi.indices@[q].0 == s0[q].0);
                    }
                }
                assert forall|p: int|
                    0 <= p < bi.indices@.len() implies verse_keys_unique(
                    #[trigger] bi.indices@[p].1.indices@,
                ) by {
                    if p < s0.len() {
                        assert(bi.indices@[p] == s0[p]);
                    }
                }
            }
        },
    }
}

/// One record extends the first-occurrence book list by its book code
/// exactly when the code is new.
proof fn lemma_step_names(names0: Seq<String>, names1: Seq<String>, rs0: Seq<Verse>, rs1: Seq<Verse>)
    requires
        rs1.len() == rs0.len() + 1,
        rs1.drop_last() == rs0,
        names0.map_values(|s: String| s@) == distinct_books(rs0),
        (exists|q: int| 0 <= q < names0.len() && names0[q]@ == rs1.last().b@) ==> names1 == names0,
        !(exists|q: int| 0 <= q < names0.len() && names0[q]@ == rs1.last().b@) ==> names1
            == names0.push(rs1.last().b),
    ensures
        names1.map_values(|s: String| s@) == distinct_books(rs1),
{
    let f = |s: String| s@;
    let bk = rs1.last().b@;
    let d0 = distinct_books(rs0);
    assert(distinct_books(rs1) == (if d0.contains(bk) {
        d0
    } else {
        d0.push(bk)
    }));
    assert(names0.map_values(f).len() == names0.len());
    if exists|q: int| 0 <= q < names0.len() && names0[q]@ == bk {
        let q = choose|q: int| 0 <= q < names0.len() && names0[q]@ == bk;
        assert(names0.map_values(f)[q] == f(names0[q]));
        assert(d0[q] == bk);
        assert(d0.contains(bk));
    } else {
        assert(!d0.contains(bk)) by {
            if d0.contains(bk) {
                let q = choose|q: int| 0 <= q < d0.len() && d0[q] == bk;
                assert(names0.map_values(f)[q] == f(names0[q]));
            }
        }
        assert(names1.map_values(f) =~= d0.push(bk)) by {
            assert forall|k: int| 0 <= k < names1.len() implies names1.map_values(f)[k] == d0.push(
                bk,
            )[k] by {
                assert(names1.map_values(f)[k] == f(names1[k]));
                if k < names0.len() {
                    assert(names1[k] == names0[k]);
                    assert(names0.map_values(f)[k] == f(names0[k]));
                }
            }
        }
    }
}

/// One record folded into a correct index of `rs0` gives a correct
/// index of `rs1`, the same records followed by that record.
proof fn lemma_step_index(
    bx0: Seq<(String, BookIndex)>,
    bx1: Seq<(String, BookIndex)>,
    rs0: Seq<Verse>,
    rs1: Seq<Verse>,
    pos: usize,
)
    requires
        rs1.len() == rs0.len() + 1,
        rs1.drop_last() == rs0,
        pos as int == rs0.len(),
        index_maps(bx0, rs0),
        book_keys_unique(bx1),
        forall|bk: Seq<char>|
            bk != rs1.last().b@ ==> #[trigger] book_entry(bx1, bk) == book_entry(bx0, bk),
        (book_entry(bx1, rs1.last().b@) matches Some(nbi) && nbi.chapter_count == (if rs1.last().c
            > book_chapter_count(bx0, rs1.last().b@) {
            rs1.last().c
        } else {
            book_chapter_count(bx0, rs1.last().b@)
        }) && (forall|cc: u8|
            cc != rs1.last().c ==> #[trigger] chapter_entry(nbi.indices@, cc) == chap_of(
                bx0,
                rs1.last().b@,
                cc,
            )) && (chapter_entry(nbi.indices@, rs1.last().c) matches Some(nci) && nci.verse_count
            == (if rs1.last().v > chap_verse_count(bx0, rs1.last().b@, rs1.last().c) {
            rs1.last().v
        } else {
            chap_verse_count(bx0, rs1.last().b@, rs1.last().c)
        }) && (forall|vv: u8|
            #[trigger] verse_entry(nci.indices@, vv) == (if vv == rs1.last().v {
                Some(pos)
            } else {
                pos_of(bx0, rs1.last().b@, rs1.last().c, vv)
            })))),
    ensures
        index_maps(bx1, rs1),
{
    let rec = rs1.last();
    let b = rec.b@;
    let c = rec.c;
    let v = rec.v;
    let nbi = book_entry(bx1, b)->Some_0;
    let nci = chapter_entry(nbi.indices@, c)->Some_0;
    assert(book_entry(bx1, b) == Some(nbi));
    assert(chapter_entry(nbi.indices@, c) == Some(nci));

    assert forall|j: int| 0 <= j < rs0.len() implies rs1[j] == rs0[j] by {
        assert(rs1.drop_last()[j] == rs1[j]);
    }
    assert(rs1[rs1.len() - 1] == rec);

    assert forall|bk: Seq<char>| (#[trigger] book_entry(bx1, bk)) is Some <==> book_known(
        rs1,
        bk,
    ) by {
        if bk == b {
            assert(book_known(rs1, bk));
        } else {
            assert(book_entry(bx1, bk) == book_entry(bx0, bk));
            if book_known(rs0, bk) {
                let j = choose|j: int| 0 <= j < rs0.len() && rs0[j].b@ == bk;
                assert(rs1[j].b@ == bk);
            }
            if book_known(rs1, bk) {
                let j = choose|j: int| 0 <= j < rs1.len() && rs1[j].b@ == bk;
                assert(j < rs0.len());
                assert(rs0[j].b@ == bk);
            }
        }
    }

    assert forall|bk: Seq<char>|
        #[trigger] book_entry(bx1, bk) matches Some(bi) ==> bi.chapter_count == max_chapter(
            rs1,
            bk,
        ) by {
        assert(max_chapter(rs1, bk) == (if rec.b@ == bk && rec.c > max_chapter(rs0, bk) {
            rec.c
        } else {
            max_chapter(rs0, bk)
        }));
        if bk == b {
            if book_entry(bx0, b) is None {
                assert(!book_known(rs0, b));
                lemma_unknown_book_max(rs0, b);
            }
            assert(book_chapter_count(bx0, b) == max_chapter(rs0, b));
        } else {
            assert(book_entry(bx1, bk) == book_entry(bx0, bk));
        }
    }

    assert forall|bk: Seq<char>, cc: u8| (#[trigger] chap_of(bx1, bk, cc)) is Some <==> chap_known(
        rs1,
        bk,
        cc,
    ) by {
        if bk == b {
            if cc == c {
                assert(chap_of(bx1, bk, cc) == Some(nci));
                assert(chap_known(rs1, bk, cc));
            } else {
                assert(chap_of(bx1, bk, cc) == chapter_entry(nbi.indices@, cc));
                assert(chapter_entry(nbi.indices@, cc) == chap_of(bx0, b, cc));
                if chap_known(rs0, bk, cc) {
                    let j = choose|j: int|
                        0 <= j < rs0.len() && rs0[j].b@ == bk && rs0[j].c == cc;
                    assert(rs1[j].b@ == bk && rs1[j].c == cc);
                }
                if chap_known(rs1, bk, cc) {
                    let j = choose|j: int|
                        0 <= j < rs1.len() && rs1[j].b@ == bk && rs1[j].c == cc;
                    assert(j < rs0.len());
                    assert(rs0[j].b@ == bk && rs0[j].c == cc);
                }
            }
        } else {
            assert(book_entry(bx1, bk) == book_entry(bx0, bk));
            assert(chap_of(bx1, bk, cc) == chap_of(bx0, bk, cc));
            if chap_known(rs0, bk, cc) {
                let j = choose|j: int| 0 <= j < rs0.len() && rs0[j].b@ == bk && rs0[j].c == cc;
                assert(rs1[j].b@ == bk && rs1[j].c == cc);
            }
            if chap_known(rs1, bk, cc) {
                let j = choose|j: int| 0 <= j < rs1.len() && rs1[j].b@ == bk && rs1[j].c == cc;
                assert(j < rs0.len());
                assert(rs0[j].b@ == bk && rs0[j].c == cc);
            }
        }
    }

    assert forall|bk: Seq<char>, cc: u8|
        #[trigger] chap_of(bx1, bk, cc) matches Some(ci) ==> ci.verse_count == max_verse(
            rs1,
            bk,
            cc,
        ) by {
        assert(max_verse(rs1, bk, cc) == (if rec.b@ == bk && rec.c == cc && rec.v > max_verse(
            rs0,
            bk,
            cc,
        ) {
            rec.v
        } else {
            max_verse(rs0, bk, cc)
        }));
        if bk == b {
            if cc == c {
                assert(chap_of(bx1, bk, cc) == Some(nci));
                if chap_of(bx0, b, c) is None {
                    assert(!chap_known(rs0, b, c));
                    lemma_unknown_chap_max(rs0, b, c);
                }
                assert(chap_verse_count(bx0, b, c) == max_verse(rs0, b, c));
            } else {
                assert(chap_of(bx1, bk, cc) == chapter_entry(nbi.indices@, cc));
                assert(chap_of(bx1, bk, cc) == chap_of(bx0, bk, cc));
            }
        } else {
            assert(book_entry(bx1, bk) == book_entry(bx0, bk));
            assert(chap_of(bx1, bk, cc) == chap_of(bx0, bk, cc));
        }
    }

    assert forall|bk: Seq<char>, cc: u8, vv: u8|
        #[trigger] pos_of(bx1, bk, cc, vv) == last_pos(rs1, bk, cc, vv) by {
        assert(last_match(rs1, bk, cc, vv) == (if key_matches(rec, bk, cc, vv) {
            rs1.len() - 1
        } else {
            last_match(rs0, bk, cc, vv)
        }));
        if bk == b && cc == c && vv == v {
            assert(key_matches(rec, bk, cc, vv));
            assert(pos_of(bx1, bk, cc, vv) == verse_entry(nci.indices@, vv));
            assert(verse_entry(nci.indices@, vv) == Some(pos));
            assert(last_match(rs1, bk, cc, vv) == pos as int);
        } else {
            assert(!key_matches(rec, bk, cc, vv));
            if bk == b {
                if cc == c {
                    assert(pos_of(bx1, bk, cc, vv) == verse_entry(nci.indices@, vv));
                    assert(verse_entry(nci.indices@, vv) == pos_of(bx0, b, c, vv));
                } else {
                    assert(chap_of(bx1, bk, cc) == chapter_entry(nbi.indices@, cc));
                    assert(chapter_entry(nbi.indices@, cc) == chap_of(bx0, bk, cc));
                    assert(pos_of(bx1, bk, cc, vv) == pos_of(bx0, bk, cc, vv));
                }
            } else {
                assert(book_entry(bx1, bk) == book_entry(bx0, bk));
                assert(pos_of(bx1, bk, cc, vv) == pos_of(bx0, bk, cc, vv));
            }
        }
    }
}

/// Fold record `records[i]` into the index of the first `i` records,
/// yielding the index of the first `i + 1` records.
fn step_record(
    records: &Vec<Verse>,
    i: usize,
    book_names: &mut Vec<String>,
    book_indices: &mut Vec<(String, BookIndex)>,
)
    requires
        i < records@.len(),
        indexes(old(book_names)@, old(book_indices)@, records@.take(i as int)),
    ensures
        indexes(final(book_names)@, final(book_indices)@, records@.take(i + 1)),
{
    let ghost rs0: Seq<Verse> = records@.take(i as int);
    let ghost rs1: Seq<Verse> = records@.take(i + 1);
    proof {
        assert(rs1.drop_last() =~= rs0);
        assert(rs1.last() == records@[i as int]);
    }
    let rec = &records[i];

    // Book-name list: append the code on its first occurrence only.
    let ghost names0 = book_names@;
    if !contains_name(book_names, &rec.b) {
        book_names.push(rec.b.clone());
    }
    proof {
        lemma_step_names(names0, book_names@, rs0, rs1);
    }

    // Fold the record into its book's entry, creating it when absent.
    let ghost bx0 = book_indices@;
    match find_book(book_indices, &rec.b) {
        Some(bp) => {
            proof {
                assert forall|q: int| 0 <= q < bx0.len() && q != bp implies bx0[q].0@
                    != rec.b@ by {
                    if q < bp as int {
                        assert(bx0[q].0@ != bx0[bp as int].0@);
                    } else {
                        assert(bx0[bp as int].0@ != bx0[q].0@);
                    }
                }
                lemma_book_entry_first(bx0, rec.b@, bp as int);
                assert(chapter_keys_unique(bx0[bp as int].1.indices@));
            }
            fold_into_book(&mut book_indices[bp].1, rec.c, rec.v, i);
            proof {
                let ne = book_indices@[bp as int];
                assert(ne.0@ == rec.b@);
                assert(book_indices@ == bx0.update(bp as int, ne));
                lemma_book_entry_update(bx0, bp as int, ne);
                assert forall|p: int, q: int|
                    0 <= p < q < book_indices@.len() implies book_indices@[p].0@
                    != book_indices@[q].0@ by {
                    assert(book_indices@[p].0@ == bx0[p].0@);
                    assert(book_indices@[q].0@ == bx0[q].0@);
                }
                assert forall|p: int|
                    0 <= p < book_indices@.len() implies chapter_keys_unique(
                    #[trigger] book_indices@[p].1.indices@,
                ) by {
                    if p != bp as int {
                        assert(book_indices@[p] == bx0[p]);
                    }
                }
            }
        },
        None => {
            let mut nbi = BookIndex { chapter_count: 0, indices: Vec::new() };
            fold_into_book(&mut nbi, rec.c, rec.v, i);
            proof {
                lemma_book_entry_first(bx0, rec.b@, bx0.len() as int);
                assert forall|cc: u8|
                    chapter_entry(Seq::<(u8, ChapterIndex)>::empty(), cc) is None by {
                    assert(Seq::<(u8, ChapterIndex)>::empty().len() == 0);
                }
            }
            let key = rec.b.clone();
            book_indices.push((key, nbi));
            proof {
                let ne = book_indices@[bx0.len() as int];
                assert(ne.0@ == rec.b@);
                assert(book_indices@ == bx0.push(ne));
                lemma_book_entry_push(bx0, ne);
                assert forall|p: int, q: int|
                    0 <= p < q < book_indices@.len() implies book_indices@[p].0@
                    != book_indices@[q].0@ by {
                    assert(book_indices@[p].0@ == bx0[p].0@);
                    if q < bx0.len() {
                        assert(book_indices@[q].0@ == bx0[q].0@);
                    }
                }
                assert forall|p: int|
                    0 <= p < book_indices@.len() implies chapter_keys_unique(
                    #[trigger] book_indices@[p].1.indices@,
                ) by {
                    if p < bx0.len() {
                        assert(book_indices@[p] == bx0[p]);
                    }
                }
            }
        },
    }
    proof {
        lemma_step_index(bx0, book_indices@, rs0, rs1, i);
    }
}

/// Build the corpus from an ordered record sequence: one linear pass
/// that fills the book-name list and the nested index. The returned
/// corpus indexes exactly `records`; on duplicate keys the later record
/// wins, and the book-name list holds each distinct book code once, in
/// first-occurrence order.
pub fn build_index(records: Vec<Verse>) -> (r: Books)
    ensures
        r.is_index_of(records@),
{
    let ghost rs: Seq<Verse> = records@;
    let n = records.len();
    let mut book_names: Vec<String> = Vec::new();
    let mut book_indices: Vec<(String, BookIndex)> = Vec::new();
    proof {
        assert(rs.take(0) =~= Seq::<Verse>::empty());
        assert(book_names@.map_values(|s: String| s@) =~= distinct_books(rs.take(0)));
    }
    let mut i: usize = 0;
    while i < n
        invariant
            n == rs.len(),
            records@ == rs,
            i <= n,
            indexes(book_names@, book_indices@, rs.take(i as int)),
        decreases n - i,
    {
        step_record(&records, i, &mut book_names, &mut book_indices);
        i += 1;
    }
    proof {
        assert(rs.take(n as int) =~= rs);
    }
    Books { verses: records, book_names, book_indices }
}

} // verus!
