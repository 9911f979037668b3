//! The guarantees of a built corpus, stated over the record sequence it
//! was built from.
//!
//! Every lemma here takes a corpus `b` with `b.is_index_of(rs)` — what
//! [`crate::index::build_index`] establishes — and relates the lookup
//! observable through [`crate::index::Books::get_verse`] to the plain
//! semantics of the record sequence `rs`.

use vstd::prelude::*;

use crate::dataset::{
    Verse, book_known, chap_known, dataset_lookup, distinct_books, first_occ, key_matches,
    last_match, lemma_distinct_books_complete, lemma_distinct_books_order,
    lemma_distinct_books_unique, lemma_first_occ_props, lemma_last_match_props,
    lemma_max_chapter_bound, max_chapter,
};
use crate::index::Books;

verus! {

/// Lookup on a built corpus answers exactly by the records: the result
/// for any key is the record at the last matching position, or absent.
pub proof fn lemma_lookup_agrees(b: Books, rs: Seq<Verse>, bk: Seq<char>, c: u8, v: u8)
    requires
        b.is_index_of(rs),
    ensures
        b.spec_lookup(bk, c, v) == dataset_lookup(rs, bk, c, v),
{
    lemma_last_match_props(rs, bk, c, v);
    let lm = last_match(rs, bk, c, v);
    if lm >= 0 {
        assert(lm < rs.len());
        vstd::std_specs::vec::axiom_spec_len(&b.verses);
        assert(rs.len() == b.verses@.len());
        assert(b.index_pos(bk, c, v) == Some(lm as usize));
    }
}

/// Every position stored in the index is a valid index into the record
/// store, and the record there carries exactly the key it is filed
/// under.
pub proof fn lemma_positions_valid(b: Books, rs: Seq<Verse>)
    requires
        b.is_index_of(rs),
    ensures
        forall|bk: Seq<char>, c: u8, v: u8|
            #[trigger] b.index_pos(bk, c, v) matches Some(p) ==> p < rs.len() && key_matches(
                rs[p as int],
                bk,
                c,
                v,
            ),
{
    assert forall|bk: Seq<char>, c: u8, v: u8|
        #[trigger] b.index_pos(bk, c, v) matches Some(p) ==> p < rs.len() && key_matches(
            rs[p as int],
            bk,
            c,
            v,
        ) by {
        lemma_last_match_props(rs, bk, c, v);
        vstd::std_specs::vec::axiom_spec_len(&b.verses);
    }
}

/// Every key present in the records is found: lookup returns a record
/// whose identity equals the queried key.
pub proof fn lemma_lookup_present(b: Books, rs: Seq<Verse>, bk: Seq<char>, c: u8, v: u8)
    requires
        b.is_index_of(rs),
        exists|j: int| 0 <= j < rs.len() && key_matches(rs[j], bk, c, v),
    ensures
        b.spec_lookup(bk, c, v) matches Some(r) && key_matches(r, bk, c, v),
{
    lemma_lookup_agrees(b, rs, bk, c, v);
    lemma_last_match_props(rs, bk, c, v);
    let j = choose|j: int| 0 <= j < rs.len() && key_matches(rs[j], bk, c, v);
    assert(last_match(rs, bk, c, v) >= 0);
}

/// A book code no record uses is absent at the first level: lookup
/// returns nothing, whatever the chapter and verse.
pub proof fn lemma_unknown_book_absent(b: Books, rs: Seq<Verse>, bk: Seq<char>, c: u8, v: u8)
    requires
        b.is_index_of(rs),
        !book_known(rs, bk),
    ensures
        b.spec_lookup(bk, c, v) is None,
{
    assert(crate::index::book_entry(b.book_indices@, bk) is None);
}

/// A chapter above the book's maximum, or one no record of the book
/// uses, is absent: lookup returns nothing.
pub proof fn lemma_unknown_chapter_absent(b: Books, rs: Seq<Verse>, bk: Seq<char>, c: u8, v: u8)
    requires
        b.is_index_of(rs),
        c > max_chapter(rs, bk) || !chap_known(rs, bk, c),
    ensures
        b.spec_lookup(bk, c, v) is None,
{
    if c > max_chapter(rs, bk) {
        lemma_max_chapter_bound(rs, bk);
        assert(!chap_known(rs, bk, c)) by {
            if chap_known(rs, bk, c) {
                let j = choose|j: int| 0 <= j < rs.len() && rs[j].b@ == bk && rs[j].c == c;
                assert(rs[j].c <= max_chapter(rs, bk));
            }
        }
    }
    assert(crate::index::chap_of(b.book_indices@, bk, c) is None);
}

/// A verse no record holds under its book and chapter is absent:
/// lookup returns nothing.
pub proof fn lemma_unknown_verse_absent(b: Books, rs: Seq<Verse>, bk: Seq<char>, c: u8, v: u8)
    requires
        b.is_index_of(rs),
        forall|j: int| 0 <= j < rs.len() ==> !key_matches(rs[j], bk, c, v),
    ensures
        b.spec_lookup(bk, c, v) is None,
{
    lemma_lookup_agrees(b, rs, bk, c, v);
    lemma_last_match_props(rs, bk, c, v);
    assert(last_match(rs, bk, c, v) == -1) by {
        let lm = last_match(rs, bk, c, v);
        if lm >= 0 {
            assert(key_matches(rs[lm], bk, c, v));
        }
    }
}

/// Last writer wins: when two records share a key, lookup returns the
/// record at the last matching position, which lies at or after both.
pub proof fn lemma_last_writer_wins(
    b: Books,
    rs: Seq<Verse>,
    i: int,
    j: int,
    bk: Seq<char>,
    c: u8,
    v: u8,
)
    requires
        b.is_index_of(rs),
        0 <= i < j < rs.len(),
        key_matches(rs[i], bk, c, v),
        key_matches(rs[j], bk, c, v),
    ensures
        j <= last_match(rs, bk, c, v) < rs.len(),
        b.spec_lookup(bk, c, v) == Some(rs[last_match(rs, bk, c, v)]),
        key_matches(rs[last_match(rs, bk, c, v)], bk, c, v),
{
    lemma_lookup_agrees(b, rs, bk, c, v);
    lemma_last_match_props(rs, bk, c, v);
    let lm = last_match(rs, bk, c, v);
    assert(lm >= 0) by {
        if lm == -1 {
            assert(!key_matches(rs[j], bk, c, v));
        }
    }
    assert(j <= lm) by {
        if lm < j {
            assert(!key_matches(rs[j], bk, c, v));
        }
    }
}

/// Construction is deterministic in its observable content: two corpora
/// built over the same records answer every lookup alike and list the
/// same book codes in the same order.
pub proof fn lemma_index_deterministic(a: Books, b: Books, rs: Seq<Verse>)
    requires
        a.is_index_of(rs),
        b.is_index_of(rs),
    ensures
        forall|bk: Seq<char>, c: u8, v: u8|
            #[trigger] a.spec_lookup(bk, c, v) == #[trigger] b.spec_lookup(bk, c, v),
        a.book_names@.map_values(|s: String| s@) == b.book_names@.map_values(|s: String| s@),
{
    assert forall|bk: Seq<char>, c: u8, v: u8|
        #[trigger] a.spec_lookup(bk, c, v) == #[trigger] b.spec_lookup(bk, c, v) by {
        lemma_lookup_agrees(a, rs, bk, c, v);
        lemma_lookup_agrees(b, rs, bk, c, v);
    }
}

/// The book-name list of a built corpus holds each book code used by
/// some record exactly once, ordered by first occurrence.
pub proof fn lemma_book_names(b: Books, rs: Seq<Verse>)
    requires
        b.is_index_of(rs),
    ensures
        forall|bk: Seq<char>|
            (exists|q: int| 0 <= q < b.book_names@.len() && b.book_names@[q]@ == bk)
                <==> book_known(rs, bk),
        forall|p: int, q: int|
            0 <= p < q < b.book_names@.len() ==> b.book_names@[p]@ != b.book_names@[q]@,
        forall|p: int, q: int|
            0 <= p < q < b.book_names@.len() ==> first_occ(rs, b.book_names@[p]@) < first_occ(
                rs,
                b.book_names@[q]@,
            ),
        forall|p: int|
            0 <= p < b.book_names@.len() ==> book_known(rs, #[trigger] b.book_names@[p]@),
{
    lemma_distinct_books_complete(rs);
    lemma_distinct_books_unique(rs);
    lemma_distinct_books_order(rs);
    let f = |s: String| s@;
    let names = b.book_names@;
    let d = distinct_books(rs);
    assert(names.map_values(f) == d);
    assert(names.map_values(f).len() == names.len());
    assert forall|p: int| 0 <= p < names.len() implies names[p]@ == d[p] by {
        assert(names.map_values(f)[p] == f(names[p]));
    }
    assert forall|p: int, q: int| 0 <= p < q < names.len() implies names[p]@ != names[q]@ by {
        assert(names.map_values(f)[p] == f(names[p]));
        assert(names.map_values(f)[q] == f(names[q]));
        assert(names[p]@ == d[p]);
        assert(names[q]@ == d[q]);
    }
    assert forall|p: int, q: int|
        0 <= p < q < names.len() implies first_occ(rs, names[p]@) < first_occ(rs, names[q]@) by {
        assert(names.map_values(f)[p] == f(names[p]));
        assert(names.map_values(f)[q] == f(names[q]));
        assert(names[p]@ == d[p]);
        assert(names[q]@ == d[q]);
    }
    assert forall|bk: Seq<char>|
        (exists|q: int| 0 <= q < names.len() && names[q]@ == bk) <==> book_known(rs, bk) by {
        if exists|q: int| 0 <= q < names.len() && names[q]@ == bk {
            let q = choose|q: int| 0 <= q < names.len() && names[q]@ == bk;
            assert(d[q] == bk);
            assert(d.contains(bk));
        }
        if book_known(rs, bk) {
            assert(d.contains(bk));
            let q = choose|q: int| 0 <= q < d.len() && d[q] == bk;
            assert(names[q]@ == bk);
        }
    }
    assert forall|p: int| 0 <= p < names.len() implies book_known(rs, #[trigger] names[p]@) by {
        assert(d[p] == names[p]@);
        assert(d.contains(names[p]@));
    }
}

} // verus!
