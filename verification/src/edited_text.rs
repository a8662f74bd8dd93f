//! The piece-table buffer: backing buffers, piece sequence, and cache.

use vstd::prelude::*;
use vstd::string::StrSliceExecFns;

use crate::lines::split_lines;
use crate::lines::split_text;
use crate::lines::line_views;
use crate::lines::lemma_line_views_push;
use crate::piece::lemma_merged_content;
use crate::piece::Piece;
use crate::piece::Which;

verus! {

/// The characters denoted by a sequence of pieces, in order.
pub open spec fn cat(ps: Seq<Piece>, orig: Seq<char>, added: Seq<char>) -> Seq<char>
    decreases ps.len(),
{
    if ps.len() == 0 {
        Seq::<char>::empty()
    } else {
        ps[0].content(orig, added) + cat(ps.drop_first(), orig, added)
    }
}

proof fn lemma_cat_single(p: Piece, orig: Seq<char>, added: Seq<char>)
    ensures
        cat(seq![p], orig, added) == p.content(orig, added),
{
    assert(seq![p].drop_first() =~= Seq::<Piece>::empty());
    assert(cat(seq![p].drop_first(), orig, added) == Seq::<char>::empty());
    assert(cat(seq![p], orig, added) =~= p.content(orig, added));
}

proof fn lemma_cat_push(ps: Seq<Piece>, p: Piece, orig: Seq<char>, added: Seq<char>)
    ensures
        cat(ps.push(p), orig, added) == cat(ps, orig, added) + p.content(orig, added),
{
    assert(ps.push(p) =~= ps + seq![p]);
    lemma_cat_concat(ps, seq![p], orig, added);
    lemma_cat_single(p, orig, added);
}

proof fn lemma_cat_concat(ps: Seq<Piece>, qs: Seq<Piece>, orig: Seq<char>, added: Seq<char>)
    ensures
        cat(ps + qs, orig, added) == cat(ps, orig, added) + cat(qs, orig, added),
    decreases ps.len(),
{
    if ps.len() == 0 {
        assert(ps + qs =~= qs);
        assert(cat(ps + qs, orig, added) =~= cat(ps, orig, added) + cat(qs, orig, added));
    } else {
        assert((ps + qs).drop_first() =~= ps.drop_first() + qs);
        lemma_cat_concat(ps.drop_first(), qs, orig, added);
        assert(cat(ps + qs, orig, added) =~= cat(ps, orig, added) + cat(qs, orig, added));
    }
}

/// Splitting a piece sequence at `k` splits its content at the same point.
proof fn lemma_cat_split(ps: Seq<Piece>, k: int, orig: Seq<char>, added: Seq<char>)
    requires
        0 <= k <= ps.len(),
    ensures
        cat(ps, orig, added) == cat(ps.take(k), orig, added) + cat(ps.skip(k), orig, added),
{
    assert(ps =~= ps.take(k) + ps.skip(k));
    lemma_cat_concat(ps.take(k), ps.skip(k), orig, added);
}

/// Growing the `added` buffer does not change the content of pieces that lie
/// inside its old extent.
proof fn lemma_cat_added_grows(ps: Seq<Piece>, orig: Seq<char>, added: Seq<char>, c: char)
    requires
        forall|k: int| 0 <= k < ps.len() ==> (#[trigger] ps[k]).wf(orig.len(), added.len()),
    ensures
        cat(ps, orig, added.push(c)) == cat(ps, orig, added),
    decreases ps.len(),
{
    if ps.len() > 0 {
        assert(ps[0].content(orig, added.push(c)) =~= ps[0].content(orig, added));
        assert(forall|k: int| 0 <= k < ps.drop_first().len()
            ==> (#[trigger] ps.drop_first()[k]).wf(orig.len(), added.len()));
        lemma_cat_added_grows(ps.drop_first(), orig, added, c);
    }
}

/// The content of a piece sequence splits around any of its pieces.
proof fn lemma_cat_around(ps: Seq<Piece>, i: int, orig: Seq<char>, added: Seq<char>)
    requires
        0 <= i < ps.len(),
    ensures
        cat(ps, orig, added) == cat(ps.take(i), orig, added)
            + ps[i].content(orig, added) + cat(ps.skip(i + 1), orig, added),
{
    assert(ps =~= (ps.take(i) + seq![ps[i]]) + ps.skip(i + 1));
    lemma_cat_concat(ps.take(i) + seq![ps[i]], ps.skip(i + 1), orig, added);
    lemma_cat_concat(ps.take(i), seq![ps[i]], orig, added);
    lemma_cat_single(ps[i], orig, added);
    assert(cat(ps, orig, added) =~= cat(ps.take(i), orig, added)
        + ps[i].content(orig, added) + cat(ps.skip(i + 1), orig, added));
}

/// Taking or skipping at a point inside the middle section of a three-part
/// concatenation cuts only the middle section.
proof fn lemma_splice_mid(front: Seq<char>, pc: Seq<char>, back: Seq<char>, rel: int)
    requires
        0 <= rel <= pc.len(),
    ensures
        (front + pc + back).take(front.len() + rel) == front + pc.subrange(0, rel),
        (front + pc + back).skip(front.len() + rel)
            == pc.subrange(rel, pc.len() as int) + back,
{
    assert((front + pc + back).take(front.len() + rel) =~= front + pc.subrange(0, rel));
    assert((front + pc + back).skip(front.len() + rel)
        =~= pc.subrange(rel, pc.len() as int) + back);
}

/// Regrouping a five-part concatenation around its middle part.
proof fn lemma_regroup5(a: Seq<char>, b: Seq<char>, c: Seq<char>, d: Seq<char>, e: Seq<char>)
    ensures
        a + (b + c + d) + e == (a + b) + c + (d + e),
{
    assert(a + (b + c + d) + e =~= (a + b) + c + (d + e));
}

/// Regrouping a four-part concatenation around its middle seam.
proof fn lemma_regroup4(a: Seq<char>, b: Seq<char>, d: Seq<char>, e: Seq<char>)
    ensures
        a + (b + d) + e == (a + b) + (d + e),
{
    assert(a + (b + d) + e =~= (a + b) + (d + e));
}

/// Law: inserting a character at a valid offset of a text and then removing
/// the character at the same offset restores the text unchanged.
pub proof fn lemma_insert_then_remove(s: Seq<char>, i: int, c: char)
    requires
        0 <= i <= s.len(),
    ensures
        s.insert(i, c).remove(i) == s,
{
    assert(s.insert(i, c).remove(i) =~= s);
}

/// Relies on String::push: appends exactly the one given character.
#[verifier::external_body]
fn push_char(s: &mut String, c: char)
    ensures
        final(s)@ == old(s)@.push(c),
{
    s.push(c);
}

/// Every piece of the sequence is non-empty and in range.
spec fn all_wf(ps: Seq<Piece>, orig: Seq<char>, added: Seq<char>) -> bool {
    forall|k: int| 0 <= k < ps.len() ==> (#[trigger] ps[k]).wf(orig.len(), added.len())
}

/// No two adjacent pieces of the sequence are mergeable.
spec fn no_adj(ps: Seq<Piece>) -> bool {
    forall|k: int| 0 <= k < ps.len() - 1 ==> !(#[trigger] ps[k].mergeable(ps[k + 1]))
}

/// Append a piece to a compacted accumulator, folding it into the last piece
/// when the two are contiguous ranges of the same buffer. This is the one
/// place a merge ever happens, so the accumulator never holds a mergeable
/// adjacent pair.
fn push_merged(acc: &mut Vec<Piece>, p: Piece, Ghost(orig): Ghost<Seq<char>>, Ghost(added): Ghost<Seq<char>>)
    requires
        all_wf(old(acc)@, orig, added),
        no_adj(old(acc)@),
        p.wf(orig.len(), added.len()),
    ensures
        all_wf(final(acc)@, orig, added),
        no_adj(final(acc)@),
        cat(final(acc)@, orig, added) == cat(old(acc)@, orig, added) + p.content(orig, added),
        old(acc)@.len() == 0 ==> final(acc)@ == seq![p],
        (old(acc)@.len() > 0 && old(acc)@.last().mergeable(p))
            ==> final(acc)@ == old(acc)@.update(old(acc)@.len() - 1, old(acc)@.last().merged(p)),
        (old(acc)@.len() > 0 && !old(acc)@.last().mergeable(p))
            ==> final(acc)@ == old(acc)@.push(p),
        final(acc)@.len() > 0,
        final(acc)@.last().end == p.end && final(acc)@.last().which == p.which,
{
    let ghost b0 = acc@;
    let len = acc.len();
    if len > 0 {
        let last = acc[len - 1];
        match last.try_merge(&p) {
            Some(m) => {
                acc[len - 1] = m;
                proof {
                    lemma_merged_content(last, p, orig, added);
                    assert(acc@ =~= b0.take(len - 1) + seq![m]);
                    assert(b0 =~= b0.take(len - 1) + seq![last]);
                    lemma_cat_concat(b0.take(len - 1), seq![m], orig, added);
                    lemma_cat_concat(b0.take(len - 1), seq![last], orig, added);
                    lemma_cat_single(m, orig, added);
                    lemma_cat_single(last, orig, added);
                    assert(cat(acc@, orig, added)
                        =~= cat(b0, orig, added) + p.content(orig, added));
                    assert forall|k: int| 0 <= k < acc@.len() - 1
                        implies !(#[trigger] acc@[k].mergeable(acc@[k + 1])) by {
                        if k + 1 < len - 1 {
                            assert(acc@[k] == b0[k] && acc@[k + 1] == b0[k + 1]);
                            assert(!b0[k].mergeable(b0[k + 1]));
                        } else {
                            assert(acc@[k] == b0[k] && acc@[k + 1] == m);
                            assert(m.start == last.start && m.which == last.which);
                            assert(!b0[k].mergeable(last));
                        }
                    }
                }
                return;
            },
            None => {},
        }
    }
    acc.push(p);
    proof {
        lemma_cat_push(b0, p, orig, added);
        assert forall|k: int| 0 <= k < acc@.len() - 1
            implies !(#[trigger] acc@[k].mergeable(acc@[k + 1])) by {
            if k + 1 < b0.len() {
                assert(acc@[k] == b0[k] && acc@[k + 1] == b0[k + 1]);
                assert(!b0[k].mergeable(b0[k + 1]));
            } else {
                assert(acc@[k] == b0.last() && acc@[k + 1] == p);
            }
        }
    }
}

/// An editable document over two backing buffers: `original`, fixed at
/// construction, and `added`, which grows by one character per insertion.
/// `pieces` is the ordered list of ranges whose concatenation is the current
/// document; `cached` holds the materialized document and its lines when no
/// edit has happened since they were computed.
#[derive(Debug)]
pub struct EditedText {
    original: String,
    added: String,
    pieces: Vec<Piece>,
    cached: Option<(String, Vec<String>)>,
}

impl EditedText {
    /// The current document: the concatenation, in order, of the characters
    /// each piece denotes.
    pub closed spec fn doc(self) -> Seq<char> {
        cat(self.pieces@, self.original@, self.added@)
    }

    /// How many pieces the sequence currently holds.
    pub closed spec fn num_pieces(self) -> nat {
        self.pieces@.len()
    }

    /// Whether a materialized document is currently cached.
    pub closed spec fn cache_valid(self) -> bool {
        self.cached is Some
    }

    /// The number of characters ever inserted (the extent of the `added`
    /// buffer). Bounds how many more insertions the machine word allows.
    pub closed spec fn added_len(self) -> nat {
        self.added@.len()
    }

    /// The last piece ends exactly at the end of the `added` buffer, so an
    /// insertion at the end of the document will merge into it.
    pub closed spec fn tail_extendable(self) -> bool {
        &&& self.pieces@.len() > 0
        &&& self.pieces@.last().which is Added
        &&& self.pieces@.last().end == self.added@.len()
    }

    spec fn pieces_wf(self) -> bool {
        all_wf(self.pieces@, self.original@, self.added@)
    }

    /// No two adjacent pieces are mergeable: contiguous ranges of one buffer
    /// are always folded into a single piece.
    spec fn no_adjacent(self) -> bool {
        no_adj(self.pieces@)
    }

    spec fn cache_ok(self) -> bool {
        match self.cached {
            None => true,
            Some(c) => c.0@ == self.doc() && line_views(c.1@) == split_lines(self.doc()),
        }
    }

    /// The buffer's invariant: every piece is non-empty and in range, no two
    /// adjacent pieces are mergeable, and a cached materialization, if any,
    /// agrees with the piece sequence.
    pub closed spec fn wf(self) -> bool {
        self.pieces_wf() && self.no_adjacent() && self.cache_ok()
    }

    /// Build a buffer over an initial text. The document starts as one piece
    /// covering the whole original buffer, or no piece at all when the text
    /// is empty.
    pub fn new(original: &str) -> (t: EditedText)
        ensures
            t.wf(),
            t.doc() == original@,
            !t.cache_valid(),
            t.added_len() == 0,
            t.num_pieces() == (if original@.len() == 0 { 0int } else { 1int }),
    {
        let n = original.unicode_len();
        let mut pieces: Vec<Piece> = Vec::new();
        if n > 0 {
            pieces.push(Piece { which: Which::Original, start: 0, end: n });
        }
        let t = EditedText {
            original: original.to_owned(),
            added: String::new(),
            pieces,
            cached: None,
        };
        proof {
            if n > 0 {
                let p = t.pieces@[0];
                assert(t.pieces@ =~= seq![p]);
                lemma_cat_single(p, t.original@, t.added@);
                assert(p.content(t.original@, t.added@) =~= original@);
            } else {
                assert(t.pieces@ =~= Seq::<Piece>::empty());
                assert(t.doc() =~= original@);
            }
        }
        t
    }

    /// Find the piece holding the document offset `index`: the piece, the
    /// offset relative to the piece's start, and the piece's position in the
    /// sequence. `None` exactly when `index` is at or past the end of the
    /// document (the append position).
    fn get_piece(&self, index: usize) -> (r: Option<(Piece, usize, usize)>)
        requires
            self.pieces_wf(),
        ensures
            r is None ==> index >= self.doc().len(),
            r matches Some((p, rel, pi)) ==> {
                &&& pi < self.pieces@.len()
                &&& p == self.pieces@[pi as int]
                &&& rel < p.spec_len()
                &&& index == cat(self.pieces@.take(pi as int), self.original@, self.added@).len() + rel
                &&& index < self.doc().len()
            },
    {
        let ghost o = self.original@;
        let ghost a = self.added@;
        let mut rem = index;
        let mut i: usize = 0;
        while i < self.pieces.len()
            invariant
                self.pieces_wf(),
                i <= self.pieces@.len(),
                rem <= index,
                index == cat(self.pieces@.take(i as int), o, a).len() + rem,
                o == self.original@,
                a == self.added@,
            decreases self.pieces@.len() - i,
        {
            let p = self.pieces[i];
            assert(p.wf(o.len(), a.len()));
            let plen = p.len();
            proof {
                assert(self.pieces@.take(i + 1) =~= self.pieces@.take(i as int).push(p));
                lemma_cat_push(self.pieces@.take(i as int), p, o, a);
            }
            if rem < plen {
                proof {
                    lemma_cat_split(self.pieces@, i as int, o, a);
                    assert(cat(self.pieces@.skip(i as int), o, a).len() >= p.content(o, a).len()) by {
                        assert(self.pieces@.skip(i as int)[0] == p);
                        assert(cat(self.pieces@.skip(i as int), o, a)
                            == p.content(o, a) + cat(self.pieces@.skip(i as int).drop_first(), o, a));
                    }
                }
                return Some((p, rem, i));
            }
            rem = rem - plen;
            i = i + 1;
        }
        proof {
            assert(self.pieces@.take(i as int) =~= self.pieces@);
        }
        None
    }

    /// How many pieces the document is currently composed of.
    pub fn piece_count(&self) -> (n: usize)
        ensures
            n == self.num_pieces(),
    {
        self.pieces.len()
    }

    /// Splice one new piece in at document offset `index`: locate the owning
    /// piece, split it there, and replace it by the left remainder, the new
    /// piece, and the right remainder. An offset at or past the end appends.
    fn add_piece(&mut self, piece: Piece, index: usize)
        requires
            old(self).pieces_wf(),
            old(self).no_adjacent(),
            piece.wf(old(self).original@.len(), old(self).added@.len()),
        ensures
            final(self).wf(),
            !final(self).cache_valid(),
            final(self).original@ == old(self).original@,
            final(self).added@ == old(self).added@,
            index <= old(self).doc().len() ==> final(self).doc()
                == old(self).doc().take(index as int)
                + piece.content(old(self).original@, old(self).added@)
                + old(self).doc().skip(index as int),
            index > old(self).doc().len() ==> final(self).doc()
                == old(self).doc() + piece.content(old(self).original@, old(self).added@),
            final(self).num_pieces() <= old(self).num_pieces() + 2,
            index >= old(self).doc().len() ==> {
                &&& final(self).pieces@.len() > 0
                &&& final(self).pieces@.last().end == piece.end
                &&& final(self).pieces@.last().which == piece.which
                &&& ((old(self).num_pieces() > 0 && old(self).pieces@.last().mergeable(piece))
                        ==> final(self).num_pieces() == old(self).num_pieces())
                &&& (!(old(self).num_pieces() > 0 && old(self).pieces@.last().mergeable(piece))
                        ==> final(self).num_pieces() == old(self).num_pieces() + 1)
            },
    {
        let ghost o = self.original@;
        let ghost a = self.added@;
        let ghost ps0 = self.pieces@;
        let ghost d0 = self.doc();
        match self.get_piece(index) {
            None => {
                let n = self.pieces.len();
                let mut cands: Vec<Piece> = Vec::new();
                cands.push(piece);
                proof {
                    assert(cands@ =~= seq![piece]);
                    assert(all_wf(cands@, o, a));
                }
                self.replace_piece(n, cands);
                proof {
                    lemma_cat_single(piece, o, a);
                    if index <= d0.len() {
                        assert(index == d0.len());
                        assert(d0.take(index as int) =~= d0);
                        assert(d0.skip(index as int) =~= Seq::<char>::empty());
                        assert(d0 + piece.content(o, a)
                            =~= d0.take(index as int) + piece.content(o, a)
                            + d0.skip(index as int));
                    }
                }
            },
            Some((p, rel, pi)) => {
                let (left, right) = p.split(rel);
                let mut cands: Vec<Piece> = Vec::new();
                if let Some(l) = left {
                    cands.push(l);
                }
                cands.push(piece);
                if let Some(r) = right {
                    cands.push(r);
                }
                proof {
                    assert(p == ps0[pi as int] && p.wf(o.len(), a.len()));
                    assert(all_wf(cands@, o, a));
                }
                self.replace_piece(pi, cands);
                proof {
                    lemma_cat_around(ps0, pi as int, o, a);
                    let pc = p.content(o, a);
                    let front = cat(ps0.take(pi as int), o, a);
                    let back = cat(ps0.skip(pi + 1), o, a);
                    assert(index == front.len() + rel);
                    if rel == 0 {
                        assert(cands@ =~= seq![piece].push(p));
                        lemma_cat_push(seq![piece], p, o, a);
                        lemma_cat_single(piece, o, a);
                        assert(cat(cands@, o, a) =~= pc.subrange(0, 0)
                            + piece.content(o, a) + pc.subrange(0, pc.len() as int));
                    } else {
                        let pl = cands@[0];
                        let pr = cands@[2];
                        assert(cands@ =~= seq![pl, piece].push(pr));
                        assert(seq![pl, piece] =~= seq![pl].push(piece));
                        lemma_cat_push(seq![pl, piece], pr, o, a);
                        lemma_cat_push(seq![pl], piece, o, a);
                        lemma_cat_single(pl, o, a);
                        assert(pl.content(o, a) =~= pc.subrange(0, rel as int));
                        assert(pr.content(o, a) =~= pc.subrange(rel as int, pc.len() as int));
                        assert(cat(cands@, o, a) =~= pc.subrange(0, rel as int)
                            + piece.content(o, a) + pc.subrange(rel as int, pc.len() as int));
                    }
                    assert(cat(cands@, o, a) == pc.subrange(0, rel as int)
                        + piece.content(o, a) + pc.subrange(rel as int, pc.len() as int));
                    lemma_splice_mid(front, pc, back, rel as int);
                    lemma_regroup5(front, pc.subrange(0, rel as int), piece.content(o, a),
                        pc.subrange(rel as int, pc.len() as int), back);
                    assert(final(self).doc() == d0.take(index as int)
                        + piece.content(o, a) + d0.skip(index as int));
                }
            },
        }
    }

    /// Insert character `c` at document offset `index`: its encoding is
    /// appended to the `added` buffer and a one-character piece over that new
    /// range is spliced in. An offset past the end appends, and an insertion
    /// directly after the previous one extends the same piece.
    pub fn add_char(&mut self, c: char, index: usize)
        requires
            old(self).wf(),
            old(self).added_len() < usize::MAX,
        ensures
            final(self).wf(),
            !final(self).cache_valid(),
            index <= old(self).doc().len() ==> final(self).doc()
                == old(self).doc().insert(index as int, c),
            index > old(self).doc().len() ==> final(self).doc() == old(self).doc().push(c),
            final(self).num_pieces() <= old(self).num_pieces() + 2,
            final(self).added_len() == old(self).added_len() + 1,
            index >= old(self).doc().len() ==> final(self).tail_extendable(),
            (index >= old(self).doc().len() && old(self).tail_extendable())
                ==> final(self).num_pieces() == old(self).num_pieces(),
            (index >= old(self).doc().len() && old(self).num_pieces() == 0)
                ==> final(self).num_pieces() == 1,
    {
        let ghost o = self.original@;
        let ghost a0 = self.added@;
        let ghost d0 = self.doc();
        let a_len = self.added.unicode_len();
        let piece = Piece { which: Which::Added, start: a_len, end: a_len + 1 };
        push_char(&mut self.added, c);
        proof {
            lemma_cat_added_grows(self.pieces@, o, a0, c);
            assert(all_wf(self.pieces@, o, self.added@));
            assert(self.doc() == d0);
            assert(piece.wf(o.len(), self.added@.len()));
            assert(piece.content(o, self.added@) =~= seq![c]);
        }
        self.add_piece(piece, index);
        proof {
            if index <= d0.len() {
                assert(d0.take(index as int) + seq![c] + d0.skip(index as int)
                    =~= d0.insert(index as int, c));
            } else {
                assert(d0 + seq![c] =~= d0.push(c));
            }
        }
    }

    /// Delete the single character at document offset `index`. An offset at
    /// or past the end of the document deletes nothing and leaves the buffer,
    /// its cache included, exactly as it was.
    pub fn remove_char(&mut self, index: usize)
        requires
            old(self).wf(),
        ensures
            final(self).wf(),
            final(self).added_len() == old(self).added_len(),
            index < old(self).doc().len() ==> {
                &&& final(self).doc() == old(self).doc().remove(index as int)
                &&& !final(self).cache_valid()
                &&& final(self).num_pieces() <= old(self).num_pieces() + 1
            },
            index >= old(self).doc().len() ==> *final(self) == *old(self),
    {
        let ghost o = self.original@;
        let ghost a = self.added@;
        let ghost ps0 = self.pieces@;
        let ghost d0 = self.doc();
        match self.get_piece(index) {
            None => {},
            Some((p, rel, pi)) => {
                let (left, right) = p.remove_char(rel);
                let mut cands: Vec<Piece> = Vec::new();
                if let Some(l) = left {
                    cands.push(l);
                }
                if let Some(r) = right {
                    cands.push(r);
                }
                proof {
                    assert(p == ps0[pi as int] && p.wf(o.len(), a.len()));
                    assert(all_wf(cands@, o, a));
                }
                self.replace_piece(pi, cands);
                proof {
                    lemma_cat_around(ps0, pi as int, o, a);
                    let pc = p.content(o, a);
                    let front = cat(ps0.take(pi as int), o, a);
                    let back = cat(ps0.skip(pi + 1), o, a);
                    assert(index == front.len() + rel);
                    let lc = pc.subrange(0, rel as int);
                    let rc = pc.subrange(rel + 1, pc.len() as int);
                    if rel == 0 && rel + 1 == p.spec_len() {
                        assert(cands@ =~= Seq::<Piece>::empty());
                        assert(cat(cands@, o, a) =~= lc + rc);
                    } else if rel == 0 {
                        let pr = cands@[0];
                        assert(cands@ =~= seq![pr]);
                        lemma_cat_single(pr, o, a);
                        assert(pr.content(o, a) =~= rc);
                        assert(cat(cands@, o, a) =~= lc + rc);
                    } else if rel + 1 == p.spec_len() {
                        let pl = cands@[0];
                        assert(cands@ =~= seq![pl]);
                        lemma_cat_single(pl, o, a);
                        assert(pl.content(o, a) =~= lc);
                        assert(cat(cands@, o, a) =~= lc + rc);
                    } else {
                        let pl = cands@[0];
                        let pr = cands@[1];
                        assert(cands@ =~= seq![pl].push(pr));
                        lemma_cat_push(seq![pl], pr, o, a);
                        lemma_cat_single(pl, o, a);
                        assert(pl.content(o, a) =~= lc);
                        assert(pr.content(o, a) =~= rc);
                        assert(cat(cands@, o, a) =~= lc + rc);
                    }
                    lemma_splice_mid(front, pc, back, rel as int);
                    lemma_splice_mid(front, pc, back, rel + 1);
                    lemma_regroup4(front, lc, rc, back);
                    assert(d0.remove(index as int)
                        =~= d0.take(index as int) + d0.skip(index + 1));
                    assert(final(self).doc() == d0.remove(index as int));
                }
            },
        }
    }

    /// Concatenate every piece's range, in order: the current document.
    fn materialize(&self) -> (t: String)
        requires
            self.pieces_wf(),
        ensures
            t@ == self.doc(),
    {
        let ghost o = self.original@;
        let ghost a = self.added@;
        let mut t = String::new();
        let mut i: usize = 0;
        while i < self.pieces.len()
            invariant
                self.pieces_wf(),
                i <= self.pieces@.len(),
                t@ == cat(self.pieces@.take(i as int), o, a),
                o == self.original@,
                a == self.added@,
            decreases self.pieces@.len() - i,
        {
            let p = self.pieces[i];
            assert(p.wf(o.len(), a.len()));
            let part = match p.which {
                Which::Original => self.original.as_str().substring_char(p.start, p.end),
                Which::Added => self.added.as_str().substring_char(p.start, p.end),
            };
            t.append(part);
            proof {
                assert(self.pieces@.take(i + 1) =~= self.pieces@.take(i as int).push(p));
                lemma_cat_push(self.pieces@.take(i as int), p, o, a);
            }
            i = i + 1;
        }
        proof {
            assert(self.pieces@.take(i as int) =~= self.pieces@);
        }
        t
    }

    /// Replace the piece at `og_i` by the candidate list (the core primitive
    /// every edit reduces to): invalidate the cache, then rebuild the
    /// sequence from the pieces before `og_i`, the candidates, and the
    /// pieces after `og_i`, folding contiguous ranges of one buffer into a
    /// single piece at every seam. `og_i == pieces.len()` appends instead of
    /// replacing.
    fn replace_piece(&mut self, og_i: usize, cands: Vec<Piece>)
        requires
            old(self).pieces_wf(),
            old(self).no_adjacent(),
            og_i <= old(self).pieces@.len(),
            all_wf(cands@, old(self).original@, old(self).added@),
        ensures
            final(self).wf(),
            !final(self).cache_valid(),
            final(self).original@ == old(self).original@,
            final(self).added@ == old(self).added@,
            og_i < old(self).pieces@.len() ==> final(self).doc()
                == cat(old(self).pieces@.take(og_i as int), old(self).original@, old(self).added@)
                + cat(cands@, old(self).original@, old(self).added@)
                + cat(old(self).pieces@.skip(og_i + 1), old(self).original@, old(self).added@),
            og_i == old(self).pieces@.len() ==> final(self).doc()
                == old(self).doc() + cat(cands@, old(self).original@, old(self).added@),
            og_i < old(self).pieces@.len()
                ==> final(self).num_pieces() + 1 <= old(self).num_pieces() + cands@.len(),
            og_i == old(self).pieces@.len()
                ==> final(self).num_pieces() <= old(self).num_pieces() + cands@.len(),
            (og_i == old(self).pieces@.len() && cands@.len() == 1
                && old(self).pieces@.len() > 0
                && old(self).pieces@.last().mergeable(cands@[0]))
                ==> final(self).num_pieces() == old(self).num_pieces(),
            (og_i == old(self).pieces@.len() && cands@.len() == 1
                && !(old(self).pieces@.len() > 0
                    && old(self).pieces@.last().mergeable(cands@[0])))
                ==> final(self).num_pieces() == old(self).num_pieces() + 1,
            (og_i == old(self).pieces@.len() && cands@.len() == 1)
                ==> (final(self).num_pieces() > 0
                    && final(self).pieces@.last().which == cands@[0].which
                    && final(self).pieces@.last().end == cands@[0].end),
    {
        self.cached = None;
        let ghost o = self.original@;
        let ghost a = self.added@;
        let ghost ps0 = self.pieces@;
        let ghost n = ps0.len() as int;
        let mut result: Vec<Piece> = Vec::new();

        // The pieces before the replaced one. They are pairwise unmergeable
        // already, so each lands unchanged.
        let mut k: usize = 0;
        proof {
            assert(result@ =~= ps0.take(0));
        }
        while k < og_i
            invariant
                self.pieces@ == ps0,
                self.original@ == o,
                self.added@ == a,
                og_i <= ps0.len(),
                k <= og_i,
                all_wf(ps0, o, a),
                no_adj(ps0),
                result@ == ps0.take(k as int),
            decreases og_i - k,
        {
            let piece = self.pieces[k];
            let ghost before = result@;
            push_merged(&mut result, piece, Ghost(o), Ghost(a));
            proof {
                if k > 0 {
                    assert(before.last() == ps0[k - 1]);
                    assert(!ps0[k - 1].mergeable(ps0[(k - 1) + 1]));
                    assert(!ps0[k - 1].mergeable(ps0[k as int]));
                    assert(result@ =~= ps0.take(k + 1));
                } else {
                    assert(result@ =~= ps0.take(1));
                }
            }
            k = k + 1;
        }

        // The candidates that replace the old piece's span.
        let ghost pre_cat = cat(ps0.take(og_i as int), o, a);
        let mut j: usize = 0;
        proof {
            assert(cat(cands@.take(0), o, a) == Seq::<char>::empty());
            assert(pre_cat + cat(cands@.take(0), o, a) =~= pre_cat);
        }
        while j < cands.len()
            invariant
                self.pieces@ == ps0,
                self.original@ == o,
                self.added@ == a,
                og_i <= ps0.len(),
                j <= cands@.len(),
                all_wf(ps0, o, a),
                no_adj(ps0),
                all_wf(cands@, o, a),
                all_wf(result@, o, a),
                no_adj(result@),
                pre_cat == cat(ps0.take(og_i as int), o, a),
                cat(result@, o, a) == pre_cat + cat(cands@.take(j as int), o, a),
                result@.len() <= og_i + j,
                j == 0 ==> result@ == ps0.take(og_i as int),
                j > 0 ==> result@.len() > 0
                    && result@.last().end == cands@[j - 1].end
                    && result@.last().which == cands@[j - 1].which,
                (og_i == ps0.len() && cands@.len() == 1 && j == 1)
                    ==> result@.len() == (if ps0.len() > 0 && ps0.last().mergeable(cands@[0]) {
                        ps0.len() as int
                    } else {
                        ps0.len() + 1int
                    }),
            decreases cands@.len() - j,
        {
            let c = cands[j];
            let ghost before = result@;
            push_merged(&mut result, c, Ghost(o), Ghost(a));
            proof {
                assert(cands@.take(j + 1) =~= cands@.take(j as int).push(c));
                lemma_cat_push(cands@.take(j as int), c, o, a);
                assert(cat(result@, o, a)
                    =~= pre_cat + cat(cands@.take(j + 1), o, a));
                if og_i == ps0.len() && j == 0 {
                    assert(before =~= ps0);
                    assert(ps0.len() > 0 ==> before.last() == ps0.last());
                }
            }
            j = j + 1;
        }
        proof {
            assert(cands@.take(cands@.len() as int) =~= cands@);
        }

        // The pieces after the replaced one, if it exists.
        if og_i < self.pieces.len() {
            let ghost mid_cat = pre_cat + cat(cands@, o, a);
            let mut s: usize = og_i + 1;
            proof {
                assert(cat(ps0.subrange(og_i + 1, og_i + 1), o, a) == Seq::<char>::empty());
                assert(mid_cat + cat(ps0.subrange(og_i + 1, og_i + 1), o, a) =~= mid_cat);
            }
            while s < self.pieces.len()
                invariant
                    self.pieces@ == ps0,
                    self.original@ == o,
                    self.added@ == a,
                    og_i < ps0.len(),
                    og_i + 1 <= s <= ps0.len(),
                    all_wf(ps0, o, a),
                    no_adj(ps0),
                    all_wf(result@, o, a),
                    no_adj(result@),
                    mid_cat == pre_cat + cat(cands@, o, a),
                    cat(result@, o, a) == mid_cat + cat(ps0.subrange(og_i + 1, s as int), o, a),
                    result@.len() <= og_i + cands@.len() + s - og_i - 1,
                decreases ps0.len() - s,
            {
                let piece = self.pieces[s];
                push_merged(&mut result, piece, Ghost(o), Ghost(a));
                proof {
                    assert(ps0.subrange(og_i + 1, s + 1)
                        =~= ps0.subrange(og_i + 1, s as int).push(ps0[s as int]));
                    lemma_cat_push(ps0.subrange(og_i + 1, s as int), ps0[s as int], o, a);
                    assert(cat(result@, o, a)
                        =~= mid_cat + cat(ps0.subrange(og_i + 1, s + 1), o, a));
                }
                s = s + 1;
            }
            proof {
                assert(ps0.subrange(og_i + 1, ps0.len() as int) =~= ps0.skip(og_i + 1));
            }
        } else {
            proof {
                assert(ps0.take(og_i as int) =~= ps0);
            }
        }
        self.pieces = result;
    }

    /// The current document as one string, recomputed only when an edit has
    /// happened since the last read.
    pub fn read_text(&mut self) -> (r: String)
        requires
            old(self).wf(),
        ensures
            final(self).wf(),
            r@ == old(self).doc(),
            final(self).doc() == old(self).doc(),
            final(self).num_pieces() == old(self).num_pieces(),
            final(self).added_len() == old(self).added_len(),
            final(self).tail_extendable() == old(self).tail_extendable(),
            final(self).cache_valid(),
    {
        match &self.cached {
            Some(c) => {
                return c.0.clone();
            },
            None => {},
        }
        let text = self.materialize();
        let lines = split_text(text.as_str());
        let r = text.clone();
        self.cached = Some((text, lines));
        r
    }

    /// The current document split into lines on the newline character, in
    /// order; always equal to splitting `read_text()` on newlines.
    pub fn get_lines(&mut self) -> (r: Vec<String>)
        requires
            old(self).wf(),
        ensures
            final(self).wf(),
            line_views(r@) == split_lines(old(self).doc()),
            final(self).doc() == old(self).doc(),
            final(self).num_pieces() == old(self).num_pieces(),
            final(self).added_len() == old(self).added_len(),
            final(self).tail_extendable() == old(self).tail_extendable(),
            final(self).cache_valid(),
    {
        match &self.cached {
            Some(c) => {
                return clone_lines(&c.1);
            },
            None => {},
        }
        let text = self.materialize();
        let lines = split_text(text.as_str());
        let r = clone_lines(&lines);
        self.cached = Some((text, lines));
        r
    }
}

/// Copy a line list, line by line.
fn clone_lines(v: &Vec<String>) -> (r: Vec<String>)
    ensures
        line_views(r@) == line_views(v@),
{
    let mut r: Vec<String> = Vec::new();
    let mut i: usize = 0;
    proof {
        assert(line_views(r@) =~= line_views(v@.take(0)));
    }
    while i < v.len()
        invariant
            i <= v@.len(),
            line_views(r@) == line_views(v@.take(i as int)),
        decreases v@.len() - i,
    {
        let line = v[i].clone();
        proof {
            lemma_line_views_push(r@, line);
            assert(v@.take(i + 1) =~= v@.take(i as int).push(v@[i as int]));
            lemma_line_views_push(v@.take(i as int), v@[i as int]);
            assert(line@ == v@[i as int]@);
        }
        r.push(line);
        i = i + 1;
    }
    proof {
        assert(v@.take(i as int) =~= v@);
    }
    r
}

} // verus!
