//! How many bytes of the content have been verified.

use super::laws::lemma_all_pieces;
use super::layout::{block_layout, lemma_piece_partition, lemma_piece_size, Geometry};
use super::model::ManagerView;
use super::{payload_upto, PieceView, Status};
use vstd::prelude::*;
use vstd::set_lib::{lemma_int_range, lemma_subset_equality, set_int_range};

verus! {

/// The lengths of the first `n` of `pieces`, added up.
pub open spec fn sizes_of(g: Geometry, pieces: Seq<PieceView>, n: int) -> int
    decreases n,
{
    if n <= 0 {
        0
    } else {
        sizes_of(g, pieces, n - 1) + g.piece_size(pieces[n - 1].index as int)
    }
}

impl ManagerView {
    /// The number of bytes downloaded: the lengths of the verified pieces,
    /// added up.
    pub open spec fn downloaded(self) -> int {
        sizes_of(self.geometry, self.have, self.have.len() as int)
    }
}

/// Every piece has at least one byte and at most a piece length, and so the
/// lengths of `n` pieces add up to between `n` bytes and `n` piece lengths.
pub proof fn lemma_sizes_of_bounds(g: Geometry, pieces: Seq<PieceView>, n: int)
    requires
        g.wf(),
        0 <= n,
    ensures
        n <= sizes_of(g, pieces, n) <= n * g.piece_length,
    decreases n,
{
    if n > 0 {
        lemma_sizes_of_bounds(g, pieces, n - 1);
        lemma_piece_size(g, pieces[n - 1].index as int);
        assert((n - 1) * g.piece_length + g.piece_length == n * g.piece_length)
            by (nonlinear_arith);
    } else {
        assert(n * g.piece_length == 0) by (nonlinear_arith)
            requires
                n == 0,
        ;
    }
}

/// Lists that agree on their first `n` pieces agree on the lengths of
/// these.
pub proof fn lemma_sizes_of_same(g: Geometry, a: Seq<PieceView>, b: Seq<PieceView>, n: int)
    requires
        0 <= n <= a.len(),
        n <= b.len(),
        forall|k: int| 0 <= k < n ==> a[k] == b[k],
    ensures
        sizes_of(g, a, n) == sizes_of(g, b, n),
    decreases n,
{
    if n > 0 {
        lemma_sizes_of_same(g, a, b, n - 1);
    }
}

/// The lengths of two lists of pieces, one after the other, add up.
pub proof fn lemma_sizes_of_concat(g: Geometry, a: Seq<PieceView>, b: Seq<PieceView>, n: int)
    requires
        0 <= n <= b.len(),
    ensures
        sizes_of(g, a + b, a.len() + n) == sizes_of(g, a, a.len() as int) + sizes_of(g, b, n),
    decreases n,
{
    if n > 0 {
        lemma_sizes_of_concat(g, a, b, n - 1);
        assert((a + b)[a.len() + n - 1] == b[n - 1]);
    } else {
        lemma_sizes_of_same(g, a + b, a, a.len() as int);
    }
}

/// The lengths of a list of pieces from which one piece has been taken.
pub proof fn lemma_sizes_of_remove(g: Geometry, pieces: Seq<PieceView>, k: int, n: int)
    requires
        0 <= k < pieces.len(),
        0 <= n <= pieces.len() - 1,
    ensures
        sizes_of(g, pieces.remove(k), n) == if n <= k {
            sizes_of(g, pieces, n)
        } else {
            sizes_of(g, pieces, n + 1) - g.piece_size(pieces[k].index as int)
        },
    decreases n,
{
    if n > 0 {
        lemma_sizes_of_remove(g, pieces, k, n - 1);
        if n - 1 < k {
            assert(pieces.remove(k)[n - 1] == pieces[n - 1]);
        } else {
            assert(pieces.remove(k)[n - 1] == pieces[n]);
        }
    }
}

/// Whether the indexes of `pieces` lie below `n` and no two are the same.
pub open spec fn indexes_differ(pieces: Seq<PieceView>, n: int) -> bool {
    &&& forall|a: int| 0 <= a < pieces.len() ==> (#[trigger] pieces[a]).index < n
    &&& forall|a: int, b: int|
        0 <= a < b < pieces.len() ==> (#[trigger] pieces[a]).index != (#[trigger] pieces[b]).index
}

/// Among `n` pieces whose indexes lie below `n` and differ, every index
/// below `n` occurs.
pub proof fn lemma_index_occurs(pieces: Seq<PieceView>, n: int, i: int)
    requires
        pieces.len() == n,
        indexes_differ(pieces, n),
        0 <= i < n,
    ensures
        exists|a: int| 0 <= a < n && (#[trigger] pieces[a]).index == i,
{
    let indexes = Seq::new(pieces.len(), |a: int| pieces[a].index as int);
    assert(indexes.no_duplicates()) by {
        assert forall|a: int, b: int|
            0 <= a < indexes.len() && 0 <= b < indexes.len() && a != b implies indexes[a]
            != indexes[b] by {
            if a < b {
                assert(pieces[a].index != pieces[b].index);
            } else {
                assert(pieces[b].index != pieces[a].index);
            }
        }
    }
    indexes.unique_seq_to_set();
    lemma_int_range(0, n);
    assert(indexes.to_set().subset_of(set_int_range(0, n))) by {
        assert forall|x: int| indexes.to_set().contains(x) implies set_int_range(0, n).contains(
            x,
        ) by {
            let a = choose|a: int| 0 <= a < indexes.len() && indexes[a] == x;
            assert(pieces[a].index < n);
        }
    }
    vstd::seq_lib::seq_to_set_is_finite(indexes);
    lemma_subset_equality(indexes.to_set(), set_int_range(0, n));
    assert(set_int_range(0, n).contains(i));
    assert(indexes.to_set().contains(i));
    let a = choose|a: int| 0 <= a < indexes.len() && indexes[a] == i;
    assert(pieces[a].index == i);
}

/// The lengths of `n` pieces whose indexes lie below `n` and differ are the
/// lengths of the first `n` pieces of the content, in whatever order the
/// pieces stand.
pub proof fn lemma_sizes_of_all(g: Geometry, pieces: Seq<PieceView>, n: int)
    requires
        pieces.len() == n,
        indexes_differ(pieces, n),
    ensures
        sizes_of(g, pieces, n) == g.sizes_total(n),
    decreases n,
{
    if n > 0 {
        lemma_index_occurs(pieces, n, n - 1);
        let at = choose|a: int| 0 <= a < n && (#[trigger] pieces[a]).index == n - 1;
        let rest = pieces.remove(at);
        assert(indexes_differ(rest, n - 1)) by {
            assert forall|a: int| 0 <= a < rest.len() implies (#[trigger] rest[a]).index < n
                - 1 by {
                let was = if a < at {
                    a
                } else {
                    a + 1
                };
                assert(rest[a] == pieces[was]);
                if was < at {
                    assert(pieces[was].index != pieces[at].index);
                } else {
                    assert(pieces[at].index != pieces[was].index);
                }
            }
            assert forall|a: int, b: int| 0 <= a < b < rest.len() implies (
            #[trigger] rest[a]).index != (#[trigger] rest[b]).index by {
                let was_a = if a < at {
                    a
                } else {
                    a + 1
                };
                let was_b = if b < at {
                    b
                } else {
                    b + 1
                };
                assert(rest[a] == pieces[was_a]);
                assert(rest[b] == pieces[was_b]);
                assert(pieces[was_a].index != pieces[was_b].index);
            }
        }
        lemma_sizes_of_all(g, rest, n - 1);
        lemma_sizes_of_remove(g, pieces, at, n - 1);
    }
}

/// The bytes downloaded are at least one for each verified piece and at
/// most a piece length for each. Where there are as many pieces as the
/// total size asks for, they are never more than the total size, and they
/// are the total size exactly when every piece has been verified.
pub proof fn lemma_downloaded(m: ManagerView)
    requires
        m.wf(),
    ensures
        m.have.len() <= m.downloaded() <= m.have.len() * m.geometry.piece_length,
        m.have.len() <= m.geometry.piece_count(),
        m.geometry.consistent() ==> m.downloaded() <= m.geometry.total_size,
        m.geometry.consistent() ==> (m.downloaded() == m.geometry.total_size <==> m.complete()),
{
    let g = m.geometry;
    let count = g.piece_count();
    let all = m.all_pieces();
    lemma_all_pieces(m);
    lemma_sizes_of_bounds(g, m.have, m.have.len() as int);
    lemma_sizes_of_bounds(g, m.missing, m.missing.len() as int);
    lemma_sizes_of_bounds(g, m.ongoing, m.ongoing.len() as int);
    assert(all.len() == count && indexes_differ(all, count)) by {
        reveal(ManagerView::pieces_wf);
        assert forall|a: int| 0 <= a < all.len() implies (#[trigger] all[a]).index < count by {
            assert(all[a].laid_out(g));
        }
    }
    if g.consistent() {
        lemma_sizes_of_all(g, all, count);
        lemma_piece_partition(g);
        let front = m.missing + m.ongoing;
        lemma_sizes_of_concat(g, m.missing, m.ongoing, m.ongoing.len() as int);
        lemma_sizes_of_concat(g, front, m.have, m.have.len() as int);
        assert(sizes_of(g, all, count) == sizes_of(g, m.missing, m.missing.len() as int)
            + sizes_of(g, m.ongoing, m.ongoing.len() as int) + m.downloaded());
    }
}

/// The data of the first `n` blocks of a laid-out piece, when each of them
/// holds as many bytes as its length says: all blocks but the last of the
/// piece give 2^14 bytes, and all blocks together as many as the piece has.
pub proof fn lemma_payload_length(piece: PieceView, g: Geometry, n: int)
    requires
        g.wf(),
        piece.laid_out(g),
        0 <= n <= piece.blocks.len(),
        forall|b: int|
            0 <= b < n ==> (#[trigger] piece.blocks[b]).data is Some
                && piece.blocks[b].data->0.len() == piece.blocks[b].length,
    ensures
        payload_upto(piece.blocks, n) is Some,
        n < piece.blocks.len() ==> payload_upto(piece.blocks, n)->0.len() == n * 16384,
        n == piece.blocks.len() ==> payload_upto(piece.blocks, n)->0.len() == g.piece_size(
            piece.index as int,
        ),
    decreases n,
{
    lemma_piece_size(g, piece.index as int);
    if n > 0 {
        lemma_payload_length(piece, g, n - 1);
        assert(piece.blocks[n - 1].with(Status::Missing, None) == block_layout(
            piece.index as int,
            g.piece_size(piece.index as int),
            n - 1,
        ));
        assert(piece.blocks[n - 1].data is Some);
    }
}

} // verus!
