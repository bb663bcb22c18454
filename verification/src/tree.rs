//! The quadtree as a mathematical value, and what holds of every well-formed
//! tree: its leaves tile it, in index space and in world space.

use vstd::prelude::*;
use vstd::arithmetic::power::pow;
use crate::geometry::{monotone, Rectangle};
use crate::region::{
    aligned, lemma_aligned_transitive, lemma_mid_lines, lemma_pixel_within, lemma_aligned_pixel,
    lemma_quadrant_aligned, lemma_quadrant_valid, Region,
};

verus! {

/// A quadtree node as a mathematical value: the block it covers and, unless
/// it is a leaf, its four quarters.
pub struct TileView {
    pub region: Region,
    pub parts: Option<Seq<TileView>>,
}

impl TileView {
    /// The leaf that covers `region`.
    pub open spec fn leaf(region: Region) -> TileView {
        TileView { region, parts: None }
    }

    /// The node has no children.
    pub open spec fn is_leaf(self) -> bool {
        self.parts is None
    }

    /// The node has a valid block and is either a leaf or has exactly the
    /// four quarters of its block as children, none of them empty, each
    /// well formed itself.
    pub open spec fn wf(self) -> bool
        decreases self,
    {
        &&& self.region.valid()
        &&& match self.parts {
            None => true,
            Some(kids) => {
                &&& self.region.can_split()
                &&& kids.len() == 4
                &&& forall|i: int|
                    0 <= i < 4 ==> (#[trigger] kids[i]).region == self.region.quadrant(i)
                        && kids[i].wf()
            },
        }
    }

    /// The leaves below the node, depth first, children in the order
    /// north-west, north-east, south-west, south-east.
    pub open spec fn leaves(self) -> Seq<TileView>
        decreases self,
    {
        match self.parts {
            None => seq![self],
            Some(kids) => if kids.len() == 4 {
                kids[0].leaves() + kids[1].leaves() + kids[2].leaves() + kids[3].leaves()
            } else {
                Seq::empty()
            },
        }
    }

    /// Every node of the tree, a parent before its children.
    pub open spec fn nodes(self) -> Seq<TileView>
        decreases self,
    {
        match self.parts {
            None => seq![self],
            Some(kids) => if kids.len() == 4 {
                seq![self] + kids[0].nodes() + kids[1].nodes() + kids[2].nodes() + kids[3].nodes()
            } else {
                seq![self]
            },
        }
    }

    /// The tree with each of its leaves quartered, where the leaf can be
    /// quartered; a leaf of fewer than two rows or columns stays a leaf.
    pub open spec fn split_once(self) -> TileView
        decreases self,
    {
        match self.parts {
            None => if self.region.can_split() {
                TileView {
                    region: self.region,
                    parts: Some(Seq::new(4, |i: int| TileView::leaf(self.region.quadrant(i)))),
                }
            } else {
                self
            },
            Some(kids) => TileView {
                region: self.region,
                parts: Some(
                    Seq::new(
                        kids.len(),
                        |i: int|
                            if 0 <= i < kids.len() {
                                kids[i].split_once()
                            } else {
                                arbitrary()
                            },
                    ),
                ),
            },
        }
    }

    /// The tree after `n` rounds, each of which quarters every leaf.
    pub open spec fn split_by(self, n: nat) -> TileView
        decreases n,
    {
        if n == 0 {
            self
        } else {
            self.split_by((n - 1) as nat).split_once()
        }
    }

    /// The leaves that a search for `hit` emits: a subtree whose rectangle
    /// `hit` rejects contributes nothing; below an accepted node the search
    /// goes on in the order north-west, north-east, south-west, south-east.
    pub open spec fn query(self, hit: spec_fn(Rectangle) -> bool) -> Seq<TileView>
        decreases self,
    {
        if !hit(self.region.rectangle()) {
            Seq::empty()
        } else {
            match self.parts {
                None => seq![self],
                Some(kids) => if kids.len() == 4 {
                    kids[0].query(hit) + kids[1].query(hit) + kids[2].query(hit) + kids[3].query(
                        hit,
                    )
                } else {
                    Seq::empty()
                },
            }
        }
    }

    /// The leaf of the tree in which cell (`r`, `c`) lies.
    pub open spec fn leaf_of_cell(self, r: int, c: int) -> TileView
        decreases self,
    {
        match self.parts {
            None => self,
            Some(kids) => if kids.len() == 4 {
                kids[self.region.quadrant_of_cell(r, c)].leaf_of_cell(r, c)
            } else {
                self
            },
        }
    }

    /// The leaf of the tree in which the world point (`x`, `y`) lies.
    pub open spec fn leaf_of_point(self, x: int, y: int) -> TileView
        decreases self,
    {
        match self.parts {
            None => self,
            Some(kids) => if kids.len() == 4 {
                kids[self.region.quadrant_of_point(x, y)].leaf_of_point(x, y)
            } else {
                self
            },
        }
    }
}

/// The blocks of two tiles have no cell in common.
pub open spec fn cells_disjoint(a: Region, b: Region) -> bool {
    ||| a.origin.0 + a.rows() <= b.origin.0
    ||| b.origin.0 + b.rows() <= a.origin.0
    ||| a.origin.1 + a.cols() <= b.origin.1
    ||| b.origin.1 + b.cols() <= a.origin.1
}

/// The world rectangles of two tiles share no area: at most an edge.
pub open spec fn areas_disjoint(a: Region, b: Region) -> bool {
    ||| a.right() <= b.left()
    ||| b.right() <= a.left()
    ||| a.top() <= b.bottom()
    ||| b.top() <= a.bottom()
}

/// Every leaf of a well-formed tree is a well-formed leaf whose cells and
/// whose rectangle lie within the root's.
pub proof fn lemma_leaves_within(tree: TileView, i: int)
    requires
        tree.wf(),
        0 <= i < tree.leaves().len(),
    ensures
        tree.leaves()[i].wf(),
        tree.leaves()[i].is_leaf(),
        tree.leaves()[i].region.cells_within(tree.region),
        tree.leaves()[i].region.rectangle().within(tree.region.rectangle()),
        tree.leaves()[i].region.resolution == tree.region.resolution,
    decreases tree,
{
    match tree.parts {
        None => {},
        Some(kids) => {
            let (k, j) = lemma_locate(
                kids[0].leaves(),
                kids[1].leaves(),
                kids[2].leaves(),
                kids[3].leaves(),
                i,
            );
            lemma_quadrant_valid(tree.region, k);
            assert(kids[k].wf());
            lemma_leaves_within(kids[k], j);
        },
    }
}

/// Where element `i` of four sequences laid end to end comes from: the
/// number of the sequence and the place in it.
pub proof fn lemma_locate<A>(s0: Seq<A>, s1: Seq<A>, s2: Seq<A>, s3: Seq<A>, i: int) -> (at: (
    int,
    int,
))
    requires
        0 <= i < (s0 + s1 + s2 + s3).len(),
    ensures
        0 <= at.0 < 4,
        at.0 == 0 ==> 0 <= at.1 < s0.len() && (s0 + s1 + s2 + s3)[i] == s0[at.1] && i == at.1,
        at.0 == 1 ==> 0 <= at.1 < s1.len() && (s0 + s1 + s2 + s3)[i] == s1[at.1] && i == s0.len()
            + at.1,
        at.0 == 2 ==> 0 <= at.1 < s2.len() && (s0 + s1 + s2 + s3)[i] == s2[at.1] && i == s0.len()
            + s1.len() + at.1,
        at.0 == 3 ==> 0 <= at.1 < s3.len() && (s0 + s1 + s2 + s3)[i] == s3[at.1] && i == s0.len()
            + s1.len() + s2.len() + at.1,
{
    if i < s0.len() {
        (0, i)
    } else if i < s0.len() + s1.len() {
        (1, i - s0.len())
    } else if i < s0.len() + s1.len() + s2.len() {
        (2, i - s0.len() - s1.len())
    } else {
        (3, i - s0.len() - s1.len() - s2.len())
    }
}

/// Element `j` of the `k`-th of four sequences, once they are laid end to
/// end, stands at the place returned.
pub proof fn lemma_place<A>(s0: Seq<A>, s1: Seq<A>, s2: Seq<A>, s3: Seq<A>, k: int, j: int) -> (i:
    int)
    requires
        0 <= k < 4,
        0 <= j < (if k == 0 { s0 } else if k == 1 { s1 } else if k == 2 { s2 } else { s3 }).len(),
    ensures
        0 <= i < (s0 + s1 + s2 + s3).len(),
        (s0 + s1 + s2 + s3)[i] == (if k == 0 { s0 } else if k == 1 { s1 } else if k == 2 { s2 } else {
            s3
        })[j],
        i == j + (if k >= 1 { s0.len() } else { 0 }) + (if k >= 2 { s1.len() } else { 0 }) + (if k
            >= 3 { s2.len() } else { 0 }),
{
    j + (if k >= 1 { s0.len() as int } else { 0 }) + (if k >= 2 { s1.len() as int } else { 0 }) + (if k
        >= 3 { s2.len() as int } else { 0 })
}

/// Two different quarters of a block that can be quartered share neither a
/// cell nor any area.
pub proof fn lemma_quadrants_disjoint(region: Region, a: int, b: int)
    requires
        region.valid(),
        0 <= a < 4,
        0 <= b < 4,
        a != b,
    ensures
        cells_disjoint(region.quadrant(a), region.quadrant(b)),
        areas_disjoint(region.quadrant(a), region.quadrant(b)),
{
    lemma_mid_lines(region);
}

/// Blocks inside two disjoint blocks are disjoint.
pub proof fn lemma_disjoint_inside(a: Region, b: Region, outer_a: Region, outer_b: Region)
    requires
        a.cells_within(outer_a),
        b.cells_within(outer_b),
        a.rectangle().within(outer_a.rectangle()),
        b.rectangle().within(outer_b.rectangle()),
        cells_disjoint(outer_a, outer_b),
        areas_disjoint(outer_a, outer_b),
    ensures
        cells_disjoint(a, b),
        areas_disjoint(a, b),
{
}

/// Two different leaves of a well-formed tree share neither a cell nor any
/// area: no overlaps.
pub proof fn lemma_leaves_disjoint(tree: TileView, i: int, j: int)
    requires
        tree.wf(),
        0 <= i < tree.leaves().len(),
        0 <= j < tree.leaves().len(),
        i != j,
    ensures
        cells_disjoint(tree.leaves()[i].region, tree.leaves()[j].region),
        areas_disjoint(tree.leaves()[i].region, tree.leaves()[j].region),
    decreases tree,
{
    match tree.parts {
        None => {},
        Some(kids) => {
            let s0 = kids[0].leaves();
            let s1 = kids[1].leaves();
            let s2 = kids[2].leaves();
            let s3 = kids[3].leaves();
            let (ka, ja) = lemma_locate(s0, s1, s2, s3, i);
            let (kb, jb) = lemma_locate(s0, s1, s2, s3, j);
            assert(kids[ka].wf());
            assert(kids[kb].wf());
            if ka == kb {
                lemma_leaves_disjoint(kids[ka], ja, jb);
            } else {
                lemma_leaves_within(kids[ka], ja);
                lemma_leaves_within(kids[kb], jb);
                lemma_quadrants_disjoint(tree.region, ka, kb);
                lemma_disjoint_inside(
                    kids[ka].leaves()[ja].region,
                    kids[kb].leaves()[jb].region,
                    kids[ka].region,
                    kids[kb].region,
                );
            }
        },
    }
}

/// Every cell of a well-formed tree lies in one of its leaves: no gaps. The
/// leaf is `leaf_of_cell`, and it stands among the leaves at the place
/// returned.
pub proof fn lemma_cell_covered(tree: TileView, r: int, c: int) -> (i: int)
    requires
        tree.wf(),
        tree.region.contains_cell(r, c),
    ensures
        0 <= i < tree.leaves().len(),
        tree.leaves()[i] == tree.leaf_of_cell(r, c),
        tree.leaves()[i].region.contains_cell(r, c),
    decreases tree,
{
    match tree.parts {
        None => 0,
        Some(kids) => {
            let k = tree.region.quadrant_of_cell(r, c);
            lemma_quadrant_valid(tree.region, k);
            assert(kids[k].wf());
            assert(kids[k].region.contains_cell(r, c));
            let j = lemma_cell_covered(kids[k], r, c);
            lemma_place(kids[0].leaves(), kids[1].leaves(), kids[2].leaves(), kids[3].leaves(), k, j)
        },
    }
}

/// Every world point of a well-formed tree lies in one of its leaves: no
/// gaps. The leaf is `leaf_of_point`, and it stands among the leaves at the
/// place returned.
pub proof fn lemma_point_covered(tree: TileView, x: int, y: int) -> (i: int)
    requires
        tree.wf(),
        tree.region.contains_point(x, y),
    ensures
        0 <= i < tree.leaves().len(),
        tree.leaves()[i] == tree.leaf_of_point(x, y),
        tree.leaves()[i].region.contains_point(x, y),
    decreases tree,
{
    match tree.parts {
        None => 0,
        Some(kids) => {
            let k = tree.region.quadrant_of_point(x, y);
            lemma_mid_lines(tree.region);
            assert(kids[k].wf());
            assert(kids[k].region.contains_point(x, y));
            let j = lemma_point_covered(kids[k], x, y);
            lemma_place(kids[0].leaves(), kids[1].leaves(), kids[2].leaves(), kids[3].leaves(), k, j)
        },
    }
}

/// The leaves tile the tree exactly, in index space and in world space. Each
/// leaf lies within the root; every cell and every world point of the root
/// lies in a leaf; and two different leaves share neither a cell nor any
/// area.
pub open spec fn tiled_by_leaves(tree: TileView) -> bool {
    &&& forall|i: int|
        0 <= i < tree.leaves().len() ==> {
            &&& (#[trigger] tree.leaves()[i]).is_leaf()
            &&& tree.leaves()[i].region.cells_within(tree.region)
            &&& tree.leaves()[i].region.rectangle().within(tree.region.rectangle())
        }
    &&& forall|r: int, c: int| #[trigger]
        tree.region.contains_cell(r, c) ==> exists|i: int|
            0 <= i < tree.leaves().len() && (#[trigger] tree.leaves()[i]).region.contains_cell(r, c)
    &&& forall|x: int, y: int| #[trigger]
        tree.region.contains_point(x, y) ==> exists|i: int|
            0 <= i < tree.leaves().len() && (#[trigger] tree.leaves()[i]).region.contains_point(
                x,
                y,
            )
    &&& forall|i: int, j: int|
        0 <= i < tree.leaves().len() && 0 <= j < tree.leaves().len() && i != j ==> {
            &&& cells_disjoint(
                (#[trigger] tree.leaves()[i]).region,
                (#[trigger] tree.leaves()[j]).region,
            )
            &&& areas_disjoint(tree.leaves()[i].region, tree.leaves()[j].region)
        }
}

/// The leaves of a well-formed tree tile it exactly: no gaps, no overlaps.
pub proof fn lemma_leaves_tile(tree: TileView)
    requires
        tree.wf(),
    ensures
        tiled_by_leaves(tree),
{
    assert forall|i: int| 0 <= i < tree.leaves().len() implies {
        &&& (#[trigger] tree.leaves()[i]).is_leaf()
        &&& tree.leaves()[i].region.cells_within(tree.region)
        &&& tree.leaves()[i].region.rectangle().within(tree.region.rectangle())
    } by {
        lemma_leaves_within(tree, i);
    }
    assert forall|r: int, c: int| #[trigger] tree.region.contains_cell(r, c) implies exists|i: int|
        0 <= i < tree.leaves().len() && (#[trigger] tree.leaves()[i]).region.contains_cell(
            r,
            c,
        ) by {
        let i = lemma_cell_covered(tree, r, c);
        assert(tree.leaves()[i].region.contains_cell(r, c));
    }
    assert forall|x: int, y: int| #[trigger] tree.region.contains_point(x, y) implies exists|i: int|
        0 <= i < tree.leaves().len() && (#[trigger] tree.leaves()[i]).region.contains_point(
            x,
            y,
        ) by {
        let i = lemma_point_covered(tree, x, y);
        assert(tree.leaves()[i].region.contains_point(x, y));
    }
    assert forall|i: int, j: int|
        0 <= i < tree.leaves().len() && 0 <= j < tree.leaves().len() && i != j implies {
        &&& cells_disjoint(
            (#[trigger] tree.leaves()[i]).region,
            (#[trigger] tree.leaves()[j]).region,
        )
        &&& areas_disjoint(tree.leaves()[i].region, tree.leaves()[j].region)
    } by {
        lemma_leaves_disjoint(tree, i, j);
    }
}

/// Quartering every leaf of a well-formed tree leaves it well formed, with
/// the same block.
pub proof fn lemma_split_once_wf(tree: TileView)
    requires
        tree.wf(),
    ensures
        tree.split_once().wf(),
        tree.split_once().region == tree.region,
    decreases tree,
{
    match tree.parts {
        None => {
            if tree.region.can_split() {
                let kids = tree.split_once().parts->0;
                assert forall|i: int| 0 <= i < 4 implies (#[trigger] kids[i]).region
                    == tree.region.quadrant(i) && kids[i].wf() by {
                    lemma_quadrant_valid(tree.region, i);
                }
            }
        },
        Some(kids) => {
            let next = tree.split_once().parts->0;
            assert forall|i: int| 0 <= i < 4 implies (#[trigger] next[i]).region
                == tree.region.quadrant(i) && next[i].wf() by {
                assert(kids[i].wf());
                lemma_split_once_wf(kids[i]);
            }
        },
    }
}

/// Any number of rounds of quartering leave a well-formed tree well formed,
/// with the same block.
pub proof fn lemma_split_by_wf(tree: TileView, n: nat)
    requires
        tree.wf(),
    ensures
        tree.split_by(n).wf(),
        tree.split_by(n).region == tree.region,
    decreases n,
{
    if n > 0 {
        lemma_split_by_wf(tree, (n - 1) as nat);
        lemma_split_once_wf(tree.split_by((n - 1) as nat));
    }
}

/// The tree built over a valid block by `n` rounds of quartering covers the
/// block, and its leaves tile it exactly, whatever `n` is.
pub proof fn lemma_index_tiles(region: Region, n: nat)
    requires
        region.valid(),
    ensures
        TileView::leaf(region).split_by(n).wf(),
        TileView::leaf(region).split_by(n).region == region,
        tiled_by_leaves(TileView::leaf(region).split_by(n)),
{
    lemma_split_by_wf(TileView::leaf(region), n);
    lemma_leaves_tile(TileView::leaf(region).split_by(n));
}

/// If `hit` is monotone, as a test for intersection is, a search of a
/// well-formed tree emits exactly the leaves whose rectangle `hit` accepts,
/// in the order of the leaves: it is sound and complete.
pub proof fn lemma_query_exact(tree: TileView, hit: spec_fn(Rectangle) -> bool)
    requires
        tree.wf(),
        monotone(hit),
    ensures
        tree.query(hit) == tree.leaves().filter(|leaf: TileView| hit(leaf.region.rectangle())),
    decreases tree,
{
    let accepted = |leaf: TileView| hit(leaf.region.rectangle());
    reveal(Seq::filter);
    if !hit(tree.region.rectangle()) {
        assert forall|i: int| 0 <= i < tree.leaves().len() implies !accepted(
            #[trigger] tree.leaves()[i],
        ) by {
            lemma_leaves_within(tree, i);
        }
        assert(tree.leaves().all(|leaf: TileView| !accepted(leaf)));
        tree.leaves().lemma_all_neg_filter_empty(accepted);
        assert(tree.leaves().filter(accepted) =~= Seq::empty());
    } else {
        match tree.parts {
            None => {
                assert(seq![tree].drop_last() =~= Seq::<TileView>::empty());
                assert(seq![tree].filter(accepted) =~= seq![tree]);
            },
            Some(kids) => {
                assert(kids[0].wf() && kids[1].wf() && kids[2].wf() && kids[3].wf());
                lemma_query_exact(kids[0], hit);
                lemma_query_exact(kids[1], hit);
                lemma_query_exact(kids[2], hit);
                lemma_query_exact(kids[3], hit);
                let s0 = kids[0].leaves();
                let s1 = kids[1].leaves();
                let s2 = kids[2].leaves();
                let s3 = kids[3].leaves();
                Seq::filter_distributes_over_add(s0, s1, accepted);
                Seq::filter_distributes_over_add(s0 + s1, s2, accepted);
                Seq::filter_distributes_over_add(s0 + s1 + s2, s3, accepted);
            },
        }
    }
}

/// A search is sound whatever `hit` is: every tile that it emits is a leaf
/// of the tree, at the place returned among the leaves, and `hit` accepts
/// its rectangle and the rectangle of the root.
pub proof fn lemma_query_sound(tree: TileView, hit: spec_fn(Rectangle) -> bool, i: int) -> (j: int)
    requires
        tree.wf(),
        0 <= i < tree.query(hit).len(),
    ensures
        0 <= j < tree.leaves().len(),
        tree.leaves()[j] == tree.query(hit)[i],
        hit(tree.query(hit)[i].region.rectangle()),
        hit(tree.region.rectangle()),
    decreases tree,
{
    match tree.parts {
        None => 0,
        Some(kids) => {
            let (k, at) = lemma_locate(
                kids[0].query(hit),
                kids[1].query(hit),
                kids[2].query(hit),
                kids[3].query(hit),
                i,
            );
            assert(kids[k].wf());
            let inner = lemma_query_sound(kids[k], hit, at);
            lemma_place(
                kids[0].leaves(),
                kids[1].leaves(),
                kids[2].leaves(),
                kids[3].leaves(),
                k,
                inner,
            )
        },
    }
}

/// Every leaf of a well-formed tree lies on the cell raster of the root, so
/// that a cell has the same rectangle in its leaf as in the root, and that
/// rectangle lies within the leaf's.
pub proof fn lemma_leaves_aligned(tree: TileView, i: int)
    requires
        tree.wf(),
        0 <= i < tree.leaves().len(),
    ensures
        aligned(tree.leaves()[i].region, tree.region),
        forall|r: int, c: int| #[trigger]
            tree.leaves()[i].region.contains_cell(r, c) ==> tree.region.pixel(r, c).within(
                tree.leaves()[i].region.rectangle(),
            ),
    decreases tree,
{
    match tree.parts {
        None => {
            assert(tree.region.width() * 0 == 0 && tree.region.height() * 0 == 0);
        },
        Some(kids) => {
            let (k, j) = lemma_locate(
                kids[0].leaves(),
                kids[1].leaves(),
                kids[2].leaves(),
                kids[3].leaves(),
                i,
            );
            assert(kids[k].wf());
            lemma_leaves_aligned(kids[k], j);
            lemma_quadrant_aligned(tree.region, k);
            lemma_aligned_transitive(kids[k].leaves()[j].region, kids[k].region, tree.region);
        },
    }
    let leaf = tree.leaves()[i].region;
    lemma_leaves_within(tree, i);
    assert forall|r: int, c: int| #[trigger] leaf.contains_cell(r, c) implies tree.region.pixel(
        r,
        c,
    ).within(leaf.rectangle()) by {
        lemma_aligned_pixel(leaf, tree.region, r, c);
        lemma_pixel_within(leaf, r, c);
    }
}

/// Every leaf of the tree has `side` rows and `side` columns at least.
pub open spec fn sides_at_least(tree: TileView, side: int) -> bool {
    forall|i: int|
        0 <= i < tree.leaves().len() ==> (#[trigger] tree.leaves()[i]).region.rows() >= side
            && tree.leaves()[i].region.cols() >= side
}

/// A round of quartering makes at most four leaves of each leaf. It makes
/// exactly four of each where every leaf has two rows and two columns for
/// each row and column that its quarters are to have at least.
pub proof fn lemma_split_once_count(tree: TileView, side: int)
    requires
        tree.wf(),
        side >= 1,
    ensures
        tree.split_once().leaves().len() <= 4 * tree.leaves().len(),
        sides_at_least(tree, 2 * side) ==> tree.split_once().leaves().len() == 4
            * tree.leaves().len() && sides_at_least(tree.split_once(), side),
    decreases tree,
{
    let next = tree.split_once();
    match tree.parts {
        None => {
            if tree.region.can_split() {
                let kids = next.parts->0;
                assert(kids[0].leaves() =~= seq![kids[0]]);
                assert(kids[1].leaves() =~= seq![kids[1]]);
                assert(kids[2].leaves() =~= seq![kids[2]]);
                assert(kids[3].leaves() =~= seq![kids[3]]);
                assert(next.leaves() =~= seq![kids[0], kids[1], kids[2], kids[3]]);
            }
            if sides_at_least(tree, 2 * side) {
                assert(tree.leaves()[0] == tree);
                assert(tree.region.can_split());
            }
        },
        Some(kids) => {
            let after = next.parts->0;
            assert(kids[0].wf() && kids[1].wf() && kids[2].wf() && kids[3].wf());
            lemma_split_once_count(kids[0], side);
            lemma_split_once_count(kids[1], side);
            lemma_split_once_count(kids[2], side);
            lemma_split_once_count(kids[3], side);
            assert(after[0] == kids[0].split_once());
            assert(after[1] == kids[1].split_once());
            assert(after[2] == kids[2].split_once());
            assert(after[3] == kids[3].split_once());
            let l0 = kids[0].leaves();
            let l1 = kids[1].leaves();
            let l2 = kids[2].leaves();
            let l3 = kids[3].leaves();
            let m0 = after[0].leaves();
            let m1 = after[1].leaves();
            let m2 = after[2].leaves();
            let m3 = after[3].leaves();
            if sides_at_least(tree, 2 * side) {
                assert forall|k: int| 0 <= k < 4 implies sides_at_least(#[trigger] kids[k], 2 * side) by {
                    assert forall|j: int| 0 <= j < kids[k].leaves().len() implies (
                    #[trigger] kids[k].leaves()[j]).region.rows() >= 2 * side
                        && kids[k].leaves()[j].region.cols() >= 2 * side by {
                        let i = lemma_place(l0, l1, l2, l3, k, j);
                        assert(tree.leaves()[i] == kids[k].leaves()[j]);
                    }
                }
                assert(sides_at_least(kids[0], 2 * side));
                assert(sides_at_least(kids[1], 2 * side));
                assert(sides_at_least(kids[2], 2 * side));
                assert(sides_at_least(kids[3], 2 * side));
                assert forall|i: int| 0 <= i < next.leaves().len() implies (
                #[trigger] next.leaves()[i]).region.rows() >= side
                    && next.leaves()[i].region.cols() >= side by {
                    let (k, j) = lemma_locate(m0, m1, m2, m3, i);
                    assert(after[k].leaves()[j].region.rows() >= side);
                }
            }
        },
    }
}

/// `n` rounds of quartering make at most four to the `n` leaves of each
/// leaf, and exactly as many where every leaf has two to the `n` rows and
/// columns for each row and column that the leaves are to have in the end.
pub proof fn lemma_split_by_count(tree: TileView, n: nat, side: int)
    requires
        tree.wf(),
        side >= 1,
    ensures
        tree.split_by(n).leaves().len() <= pow(4, n) * tree.leaves().len(),
        sides_at_least(tree, side * pow(2, n)) ==> tree.split_by(n).leaves().len() == pow(4, n)
            * tree.leaves().len() && sides_at_least(tree.split_by(n), side),
    decreases n,
{
    reveal(pow);
    let count = tree.leaves().len() as int;
    if n == 0 {
        assert(pow(4, 0) == 1 && pow(2, 0) == 1);
        assert(side * 1 == side);
        assert(1 * count == count);
    } else {
        let m = (n - 1) as nat;
        let before = tree.split_by(m);
        lemma_split_by_wf(tree, m);
        lemma_split_by_count(tree, m, 2 * side);
        lemma_split_once_count(before, side);
        assert(pow(4, n) == 4 * pow(4, m));
        assert(pow(2, n) == 2 * pow(2, m));
        assert(4 * (pow(4, m) * count) == pow(4, n) * count) by (nonlinear_arith)
            requires
                pow(4, n) == 4 * pow(4, m),
        ;
        assert((2 * side) * pow(2, m) == side * pow(2, n)) by (nonlinear_arith)
            requires
                pow(2, n) == 2 * pow(2, m),
        ;
    }
}

/// The tree built over a valid block by `n` rounds of quartering has at
/// most four to the `n` leaves, and exactly as many where the block has two
/// to the `n` rows and columns at least.
pub proof fn lemma_index_count(region: Region, n: nat)
    requires
        region.valid(),
    ensures
        TileView::leaf(region).split_by(n).leaves().len() <= pow(4, n),
        region.rows() >= pow(2, n) && region.cols() >= pow(2, n) ==> TileView::leaf(
            region,
        ).split_by(n).leaves().len() == pow(4, n),
{
    let tree = TileView::leaf(region);
    lemma_split_by_count(tree, n, 1);
    assert(tree.leaves() =~= seq![tree]);
    assert(pow(4, n) * 1 == pow(4, n));
    assert(1 * pow(2, n) == pow(2, n));
    if region.rows() >= pow(2, n) && region.cols() >= pow(2, n) {
        assert(tree.leaves()[0] == tree);
        assert(sides_at_least(tree, 1 * pow(2, n)));
    }
}

} // verus!
