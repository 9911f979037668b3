//! Verse records and the mathematical semantics of a record sequence.
//!
//! The functions here say, over a `Seq<Verse>`, what a corpus built from
//! that sequence must answer: which keys are present, which record wins
//! when a key occurs more than once (the later one), and what the
//! first-occurrence list of book codes is.

use vstd::prelude::*;

verus! {

/// One verse record. Identity is the triple `(b, c, v)`; the display
/// name `jb` and the text `t` are payload, not identity.
#[derive(Debug)]
pub struct Verse {
    /// book short code
    pub b: String,
    /// chapter number
    pub c: u8,
    /// verse number
    pub v: u8,
    /// localized book display name
    pub jb: String,
    /// verse text
    pub t: String,
}

impl Clone for Verse {
    /// An exact copy: every field of the result equals the original's.
    fn clone(&self) -> (res: Self)
        ensures
            res == *self,
    {
        Verse {
            b: self.b.clone(),
            c: self.c,
            v: self.v,
            jb: self.jb.clone(),
            t: self.t.clone(),
        }
    }
}

/// The record's identity equals the queried key.
pub open spec fn key_matches(r: Verse, bk: Seq<char>, c: u8, v: u8) -> bool {
    r.b@ == bk && r.c == c && r.v == v
}

/// Largest position in `rs` holding a record with key `(bk, c, v)`,
/// or `-1` when no record has that key.
pub open spec fn last_match(rs: Seq<Verse>, bk: Seq<char>, c: u8, v: u8) -> int
    decreases rs.len(),
{
    if rs.len() == 0 {
        -1
    } else if key_matches(rs.last(), bk, c, v) {
        rs.len() - 1
    } else {
        last_match(rs.drop_last(), bk, c, v)
    }
}

/// What a lookup over the records `rs` must return for key `(bk, c, v)`:
/// the record at the last matching position, or nothing.
pub open spec fn dataset_lookup(rs: Seq<Verse>, bk: Seq<char>, c: u8, v: u8) -> Option<Verse> {
    let i = last_match(rs, bk, c, v);
    if i >= 0 {
        Some(rs[i])
    } else {
        None
    }
}

/// Some record in `rs` belongs to book `bk`.
pub open spec fn book_known(rs: Seq<Verse>, bk: Seq<char>) -> bool {
    exists|j: int| 0 <= j < rs.len() && rs[j].b@ == bk
}

/// Some record in `rs` belongs to book `bk`, chapter `c`.
pub open spec fn chap_known(rs: Seq<Verse>, bk: Seq<char>, c: u8) -> bool {
    exists|j: int| 0 <= j < rs.len() && rs[j].b@ == bk && rs[j].c == c
}

/// Largest chapter number among records of book `bk`, or `0` when the
/// book does not occur.
pub open spec fn max_chapter(rs: Seq<Verse>, bk: Seq<char>) -> u8
    decreases rs.len(),
{
    if rs.len() == 0 {
        0
    } else {
        let m = max_chapter(rs.drop_last(), bk);
        if rs.last().b@ == bk && rs.last().c > m {
            rs.last().c
        } else {
            m
        }
    }
}

/// Largest verse number among records of book `bk`, chapter `c`, or `0`
/// when that chapter does not occur.
pub open spec fn max_verse(rs: Seq<Verse>, bk: Seq<char>, c: u8) -> u8
    decreases rs.len(),
{
    if rs.len() == 0 {
        0
    } else {
        let m = max_verse(rs.drop_last(), bk, c);
        if rs.last().b@ == bk && rs.last().c == c && rs.last().v > m {
            rs.last().v
        } else {
            m
        }
    }
}

/// The distinct book codes of `rs` in first-occurrence order: a code is
/// appended exactly when the records before it never used it.
pub open spec fn distinct_books(rs: Seq<Verse>) -> Seq<Seq<char>>
    decreases rs.len(),
{
    if rs.len() == 0 {
        Seq::empty()
    } else {
        let d = distinct_books(rs.drop_last());
        if d.contains(rs.last().b@) {
            d
        } else {
            d.push(rs.last().b@)
        }
    }
}

/// Position of the first record of book `bk` in `rs`, or `rs.len()`
/// when the book never occurs.
pub open spec fn first_occ(rs: Seq<Verse>, bk: Seq<char>) -> int
    decreases rs.len(),
{
    if rs.len() == 0 {
        0
    } else if book_known(rs.drop_last(), bk) {
        first_occ(rs.drop_last(), bk)
    } else if rs.last().b@ == bk {
        rs.len() - 1
    } else {
        rs.len() as int
    }
}

/// `last_match` names the last matching position: it is in bounds, the
/// record there matches, no later record matches, and `-1` means that no
/// record matches at all.
pub proof fn lemma_last_match_props(rs: Seq<Verse>, bk: Seq<char>, c: u8, v: u8)
    ensures
        last_match(rs, bk, c, v) >= -1,
        last_match(rs, bk, c, v) >= 0 ==> last_match(rs, bk, c, v) < rs.len() && key_matches(
            rs[last_match(rs, bk, c, v)],
            bk,
            c,
            v,
        ) && (forall|j: int|
            last_match(rs, bk, c, v) < j < rs.len() ==> !key_matches(rs[j], bk, c, v)),
        last_match(rs, bk, c, v) == -1 ==> forall|j: int|
            0 <= j < rs.len() ==> !key_matches(rs[j], bk, c, v),
    decreases rs.len(),
{
    if rs.len() > 0 && !key_matches(rs.last(), bk, c, v) {
        lemma_last_match_props(rs.drop_last(), bk, c, v);
        let lm = last_match(rs, bk, c, v);
        assert(lm == last_match(rs.drop_last(), bk, c, v));
        if lm >= 0 {
            assert(rs.drop_last()[lm] == rs[lm]);
            assert forall|j: int| lm < j < rs.len() implies !key_matches(rs[j], bk, c, v) by {
                if j < rs.len() - 1 {
                    assert(rs.drop_last()[j] == rs[j]);
                }
            }
        } else {
            assert forall|j: int| 0 <= j < rs.len() implies !key_matches(rs[j], bk, c, v) by {
                if j < rs.len() - 1 {
                    assert(rs.drop_last()[j] == rs[j]);
                }
            }
        }
    }
}

/// No record of book `bk` has a chapter above `max_chapter`.
pub proof fn lemma_max_chapter_bound(rs: Seq<Verse>, bk: Seq<char>)
    ensures
        forall|j: int| 0 <= j < rs.len() && rs[j].b@ == bk ==> rs[j].c <= max_chapter(rs, bk),
    decreases rs.len(),
{
    if rs.len() > 0 {
        lemma_max_chapter_bound(rs.drop_last(), bk);
        assert forall|j: int|
            0 <= j < rs.len() && rs[j].b@ == bk implies rs[j].c <= max_chapter(rs, bk) by {
            if j < rs.len() - 1 {
                assert(rs.drop_last()[j] == rs[j]);
                assert(max_chapter(rs.drop_last(), bk) <= max_chapter(rs, bk));
            }
        }
    }
}

/// A book code stands in the first-occurrence list exactly when some
/// record uses it.
pub proof fn lemma_distinct_books_complete(rs: Seq<Verse>)
    ensures
        forall|bk: Seq<char>| #[trigger] distinct_books(rs).contains(bk) <==> book_known(rs, bk),
    decreases rs.len(),
{
    if rs.len() > 0 {
        lemma_distinct_books_complete(rs.drop_last());
        let d0 = distinct_books(rs.drop_last());
        let d1 = distinct_books(rs);
        assert forall|bk: Seq<char>| #[trigger] d1.contains(bk) <==> book_known(rs, bk) by {
            if d1.contains(bk) {
                let q = choose|q: int| 0 <= q < d1.len() && d1[q] == bk;
                if q < d0.len() {
                    assert(d0[q] == bk);
                    assert(d0.contains(bk));
                    let j = choose|j: int|
                        0 <= j < rs.drop_last().len() && rs.drop_last()[j].b@ == bk;
                    assert(rs[j].b@ == bk);
                } else {
                    assert(bk == rs.last().b@);
                    assert(rs[rs.len() - 1].b@ == bk);
                }
                assert(book_known(rs, bk));
            }
            if book_known(rs, bk) {
                let j = choose|j: int| 0 <= j < rs.len() && rs[j].b@ == bk;
                if j < rs.len() - 1 {
                    assert(rs.drop_last()[j] == rs[j]);
                    assert(book_known(rs.drop_last(), bk));
                    assert(d0.contains(bk));
                    let q = choose|q: int| 0 <= q < d0.len() && d0[q] == bk;
                    assert(d1[q] == bk);
                } else {
                    assert(bk == rs.last().b@);
                    if d0.contains(bk) {
                        let q = choose|q: int| 0 <= q < d0.len() && d0[q] == bk;
                        assert(d1[q] == bk);
                    } else {
                        assert(d1[d0.len() as int] == bk);
                    }
                }
                assert(d1.contains(bk));
            }
        }
    }
}

/// The first-occurrence list never repeats a book code.
pub proof fn lemma_distinct_books_unique(rs: Seq<Verse>)
    ensures
        forall|p: int, q: int|
            0 <= p < q < distinct_books(rs).len() ==> distinct_books(rs)[p] != distinct_books(
                rs,
            )[q],
    decreases rs.len(),
{
    if rs.len() > 0 {
        lemma_distinct_books_unique(rs.drop_last());
        let d0 = distinct_books(rs.drop_last());
        let d1 = distinct_books(rs);
        assert forall|p: int, q: int| 0 <= p < q < d1.len() implies d1[p] != d1[q] by {
            if q < d0.len() {
                assert(d1[p] == d0[p] && d1[q] == d0[q]);
            } else {
                assert(!d0.contains(rs.last().b@));
                assert(d1[q] == rs.last().b@);
                assert(d1[p] == d0[p]);
                if d0[p] == rs.last().b@ {
                    assert(d0.contains(rs.last().b@));
                }
            }
        }
    }
}

/// `first_occ` names the first record of a book: the record there has
/// the book's code, nothing before it does, and a book that never
/// occurs is sent to `rs.len()`.
pub proof fn lemma_first_occ_props(rs: Seq<Verse>, bk: Seq<char>)
    ensures
        book_known(rs, bk) ==> 0 <= first_occ(rs, bk) < rs.len() && rs[first_occ(rs, bk)].b@ == bk
            && (forall|j: int| 0 <= j < first_occ(rs, bk) ==> rs[j].b@ != bk),
        !book_known(rs, bk) ==> first_occ(rs, bk) == rs.len(),
    decreases rs.len(),
{
    if rs.len() > 0 {
        lemma_first_occ_props(rs.drop_last(), bk);
        if book_known(rs.drop_last(), bk) {
            let j = choose|j: int| 0 <= j < rs.drop_last().len() && rs.drop_last()[j].b@ == bk;
            assert(rs[j].b@ == bk);
            assert(book_known(rs, bk));
            assert(rs.drop_last()[first_occ(rs.drop_last(), bk)] == rs[first_occ(rs, bk)]);
            assert forall|k: int| 0 <= k < first_occ(rs, bk) implies rs[k].b@ != bk by {
                assert(rs.drop_last()[k] == rs[k]);
            }
        } else {
            assert forall|k: int| 0 <= k < rs.len() - 1 implies rs[k].b@ != bk by {
                assert(rs.drop_last()[k] == rs[k]);
                if rs[k].b@ == bk {
                    assert(book_known(rs.drop_last(), bk));
                }
            }
            if rs.last().b@ == bk {
                assert(rs[rs.len() - 1].b@ == bk);
                assert(book_known(rs, bk));
            } else {
                if book_known(rs, bk) {
                    let j = choose|j: int| 0 <= j < rs.len() && rs[j].b@ == bk;
                    assert(j == rs.len() - 1);
                }
            }
        }
    }
}

/// The first-occurrence list is ordered by where each book first
/// appears in the records.
pub proof fn lemma_distinct_books_order(rs: Seq<Verse>)
    ensures
        forall|p: int, q: int|
            0 <= p < q < distinct_books(rs).len() ==> first_occ(rs, distinct_books(rs)[p])
                < first_occ(rs, distinct_books(rs)[q]),
    decreases rs.len(),
{
    if rs.len() > 0 {
        lemma_distinct_books_order(rs.drop_last());
        lemma_distinct_books_complete(rs.drop_last());
        let d0 = distinct_books(rs.drop_last());
        let d1 = distinct_books(rs);
        assert forall|p: int, q: int|
            0 <= p < q < d1.len() implies first_occ(rs, d1[p]) < first_occ(rs, d1[q]) by {
            assert(d0.contains(d1[p]));
            assert(book_known(rs.drop_last(), d1[p]));
            assert(first_occ(rs, d1[p]) == first_occ(rs.drop_last(), d1[p]));
            lemma_first_occ_props(rs.drop_last(), d1[p]);
            if q < d0.len() {
                assert(d0.contains(d1[q]));
                assert(book_known(rs.drop_last(), d1[q]));
                assert(first_occ(rs, d1[q]) == first_occ(rs.drop_last(), d1[q]));
            } else {
                assert(!d0.contains(rs.last().b@));
                assert(d1[q] == rs.last().b@);
                assert(!book_known(rs.drop_last(), d1[q]));
                assert(first_occ(rs, d1[q]) == rs.len() - 1);
                assert(first_occ(rs.drop_last(), d1[p]) < rs.drop_last().len());
            }
        }
    }
}

/// A book never seen in `rs` has no chapters: its maximum is `0`.
pub proof fn lemma_unknown_book_max(rs: Seq<Verse>, bk: Seq<char>)
    requires
        !book_known(rs, bk),
    ensures
        max_chapter(rs, bk) == 0,
    decreases rs.len(),
{
    if rs.len() > 0 {
        assert(rs.last().b@ != bk);
        assert(!book_known(rs.drop_last(), bk)) by {
            if book_known(rs.drop_last(), bk) {
                let j = choose|j: int|
                    0 <= j < rs.drop_last().len() && rs.drop_last()[j].b@ == bk;
                assert(rs[j].b@ == bk);
            }
        }
        lemma_unknown_book_max(rs.drop_last(), bk);
    }
}

/// A chapter never seen in `rs` has no verses: its maximum is `0`.
pub proof fn lemma_unknown_chap_max(rs: Seq<Verse>, bk: Seq<char>, c: u8)
    requires
        !chap_known(rs, bk, c),
    ensures
        max_verse(rs, bk, c) == 0,
    decreases rs.len(),
{
    if rs.len() > 0 {
        assert(!(rs.last().b@ == bk && rs.last().c == c));
        assert(!chap_known(rs.drop_last(), bk, c)) by {
            if chap_known(rs.drop_last(), bk, c) {
                let j = choose|j: int|
                    0 <= j < rs.drop_last().len() && rs.drop_last()[j].b@ == bk
                        && rs.drop_last()[j].c == c;
                assert(rs[j].b@ == bk && rs[j].c == c);
            }
        }
        lemma_unknown_chap_max(rs.drop_last(), bk, c);
    }
}

} // verus!
