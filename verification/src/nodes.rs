//! From ranked peaks to typed nodes in the coordinates of the original image.

use vstd::prelude::*;
use crate::config::ModelConfig;
use crate::geometry::{
    lemma_identity_scale_keeps_position,
    lemma_scaled_back,
    AxisScale,
    PixelCoord,
};
use crate::grid::RawPeak;

verus! {

/// What kind of node a detection is.
#[derive(Clone, Copy, Debug, PartialEq, Eq, Structural)]
pub enum NodeType {
    Tip,
    Internal,
    Root,
}

/// A detection in the original image.
#[derive(Clone, Copy, Debug, PartialEq, Eq, Structural)]
pub struct PredictedNode {
    /// Horizontal position in pixels of the original image.
    pub x: PixelCoord,
    /// Vertical position in pixels of the original image.
    pub y: PixelCoord,
    pub node_type: NodeType,
    /// Confidence, as the bit pattern of a binary32 value.
    pub score: u32,
}

impl NodeType {
    /// The name under which `name` gives the type.
    pub open spec fn text(self) -> Seq<char> {
        match self {
            NodeType::Tip => "tip"@,
            NodeType::Internal => "internal"@,
            NodeType::Root => "root"@,
        }
    }

    /// The type's name in lower case.
    pub fn name(&self) -> (r: &'static str)
        ensures
            r@ == self.text(),
    {
        match self {
            NodeType::Tip => "tip",
            NodeType::Internal => "internal",
            NodeType::Root => "root",
        }
    }
}

/// The type that a channel stands for. With `internal_only` every channel is
/// internal. Else channel 0 is the tip; with `no_root_pred` every other
/// channel is internal, and without it channel 1 is internal and the rest are
/// roots.
pub open spec fn channel_type(channel: int, cfg: &ModelConfig) -> NodeType {
    if cfg.internal_only {
        NodeType::Internal
    } else if channel == 0 {
        NodeType::Tip
    } else if cfg.no_root_pred || channel == 1 {
        NodeType::Internal
    } else {
        NodeType::Root
    }
}

/// The peak lies inside the resized image.
pub open spec fn in_bounds(p: RawPeak, scale_x: AxisScale, scale_y: AxisScale) -> bool {
    p.x < scale_x.resized && p.y < scale_y.resized
}

/// The node that an in-bounds peak becomes.
pub open spec fn node_of(
    p: RawPeak,
    cfg: &ModelConfig,
    scale_x: AxisScale,
    scale_y: AxisScale,
    crop_x: u32,
    crop_y: u32,
) -> PredictedNode {
    PredictedNode {
        x: scale_x.image_coord(p.x as int, crop_x as int),
        y: scale_y.image_coord(p.y as int, crop_y as int),
        node_type: channel_type(p.channel as int, cfg),
        score: p.score,
    }
}

/// The nodes of the in-bounds peaks, in the order of the peaks.
pub open spec fn mapped(
    peaks: Seq<RawPeak>,
    cfg: &ModelConfig,
    scale_x: AxisScale,
    scale_y: AxisScale,
    crop_x: u32,
    crop_y: u32,
) -> Seq<PredictedNode>
    decreases peaks.len(),
{
    if peaks.len() == 0 {
        Seq::empty()
    } else {
        let rest = mapped(peaks.drop_last(), cfg, scale_x, scale_y, crop_x, crop_y);
        if in_bounds(peaks.last(), scale_x, scale_y) {
            rest.push(node_of(peaks.last(), cfg, scale_x, scale_y, crop_x, crop_y))
        } else {
            rest
        }
    }
}

/// Index of the leftmost node: the first one that no node lies left of.
/// Zero for an empty sequence.
pub open spec fn leftmost(nodes: Seq<PredictedNode>) -> int
    decreases nodes.len(),
{
    if nodes.len() <= 1 {
        0
    } else {
        let i = leftmost(nodes.drop_last());
        if nodes.last().x.lt(nodes[i].x) {
            nodes.len() - 1
        } else {
            i
        }
    }
}

/// The node with its type replaced by root.
pub open spec fn as_root(node: PredictedNode) -> PredictedNode {
    PredictedNode { node_type: NodeType::Root, ..node }
}

/// Whether the leftmost of `count` nodes is relabelled as the root: the model
/// has no root class, the configuration asks for it, and there is more than
/// one node.
pub open spec fn relabels_leftmost(cfg: &ModelConfig, count: int) -> bool {
    cfg.no_root_pred && cfg.decode.assign_root_leftmost_when_two_classes && count > 1
}

/// What `map_nodes_to_image_space` returns.
pub open spec fn placed(
    peaks: Seq<RawPeak>,
    cfg: &ModelConfig,
    scale_x: AxisScale,
    scale_y: AxisScale,
    crop_x: u32,
    crop_y: u32,
) -> Seq<PredictedNode> {
    let nodes = mapped(peaks, cfg, scale_x, scale_y, crop_x, crop_y);
    if relabels_leftmost(cfg, nodes.len() as int) {
        nodes.update(leftmost(nodes), as_root(nodes[leftmost(nodes)]))
    } else {
        nodes
    }
}

/// The nodes that are internal nodes or roots, in their order.
pub open spec fn internal_and_root(nodes: Seq<PredictedNode>) -> Seq<PredictedNode>
    decreases nodes.len(),
{
    if nodes.len() == 0 {
        nodes
    } else {
        let rest = internal_and_root(nodes.drop_last());
        if nodes.last().node_type != NodeType::Tip {
            rest.push(nodes.last())
        } else {
            rest
        }
    }
}

/// The leftmost node is a node, no node lies left of it, and every node
/// before it lies right of it.
pub proof fn lemma_leftmost(nodes: Seq<PredictedNode>)
    requires
        nodes.len() > 0,
        forall|i: int| 0 <= i < nodes.len() ==> (#[trigger] nodes[i]).x.wf(),
    ensures
        0 <= leftmost(nodes) < nodes.len(),
        forall|j: int|
            0 <= j < nodes.len() ==> !(#[trigger] nodes[j]).x.lt(nodes[leftmost(nodes)].x),
        forall|j: int|
            0 <= j < leftmost(nodes) ==> nodes[leftmost(nodes)].x.lt((#[trigger] nodes[j]).x),
    decreases nodes.len(),
{
    if nodes.len() > 1 {
        let rest = nodes.drop_last();
        lemma_leftmost(rest);
        let i = leftmost(rest);
        let best = rest[i].x;
        let last = nodes.last().x;
        if last.lt(best) {
            assert forall|j: int| 0 <= j < nodes.len() implies !(#[trigger] nodes[j]).x.lt(
                last,
            ) by {
                if j < rest.len() && nodes[j].x.lt(last) {
                    assert(!rest[j].x.lt(best));
                    lemma_lt_chain(nodes[j].x, last, best);
                }
            }
            assert forall|j: int| 0 <= j < nodes.len() - 1 implies last.lt(
                (#[trigger] nodes[j]).x,
            ) by {
                assert(!rest[j].x.lt(best));
                lemma_lt_or_not(last, best, nodes[j].x);
            }
        } else {
            assert forall|j: int| 0 <= j < nodes.len() implies !(#[trigger] nodes[j]).x.lt(
                nodes[i].x,
            ) by {
                if j < rest.len() {
                    assert(!rest[j].x.lt(best));
                }
            }
            assert forall|j: int| 0 <= j < i implies nodes[i].x.lt((#[trigger] nodes[j]).x) by {
                assert(best.lt(rest[j].x));
            }
        }
    }
}

/// Being left of is transitive.
pub proof fn lemma_lt_chain(a: PixelCoord, b: PixelCoord, c: PixelCoord)
    requires
        a.wf(),
        b.wf(),
        c.wf(),
        a.lt(b),
        b.lt(c),
    ensures
        a.lt(c),
{
    if a.whole == b.whole && b.whole == c.whole {
        assert(a.rem * c.den < c.rem * a.den) by (nonlinear_arith)
            requires
                a.rem * b.den < b.rem * a.den,
                b.rem * c.den < c.rem * b.den,
                0 <= a.rem < a.den,
                0 <= b.rem < b.den,
                0 <= c.rem < c.den,
        ;
    }
}

/// What lies left of a position lies left of whatever that position does not
/// lie right of.
pub proof fn lemma_lt_or_not(a: PixelCoord, b: PixelCoord, c: PixelCoord)
    requires
        a.wf(),
        b.wf(),
        c.wf(),
        a.lt(b),
        !c.lt(b),
    ensures
        a.lt(c),
{
    if a.whole == b.whole && b.whole == c.whole {
        assert(a.rem * c.den < c.rem * a.den) by (nonlinear_arith)
            requires
                a.rem * b.den < b.rem * a.den,
                c.rem * b.den >= b.rem * c.den,
                0 <= a.rem < a.den,
                0 <= b.rem < b.den,
                0 <= c.rem < c.den,
        ;
    }
}

/// The type that a channel stands for.
pub fn channel_to_type(channel: usize, cfg: &ModelConfig) -> (t: NodeType)
    ensures
        t == channel_type(channel as int, cfg),
{
    if cfg.internal_only {
        NodeType::Internal
    } else if cfg.no_root_pred {
        match channel {
            0 => NodeType::Tip,
            _ => NodeType::Internal,
        }
    } else {
        match channel {
            0 => NodeType::Tip,
            1 => NodeType::Internal,
            _ => NodeType::Root,
        }
    }
}

/// Finds the leftmost node.
pub fn leftmost_index(nodes: &Vec<PredictedNode>) -> (idx: usize)
    ensures
        idx == leftmost(nodes@),
        nodes@.len() > 0 ==> idx < nodes@.len(),
{
    if nodes.len() == 0 {
        return 0;
    }
    let mut idx: usize = 0;
    let mut i: usize = 1;
    assert(nodes@.take(1).len() == 1);
    while i < nodes.len()
        invariant
            1 <= i <= nodes.len(),
            idx < i,
            idx == leftmost(nodes@.take(i as int)),
        decreases nodes.len() - i,
    {
        assert(nodes@.take(i + 1).drop_last() =~= nodes@.take(i as int));
        if nodes[i].x.is_left_of(&nodes[idx].x) {
            idx = i;
        }
        i += 1;
    }
    assert(nodes@.take(i as int) =~= nodes@);
    idx
}

/// Turns peaks into nodes of the original image.
///
/// A peak outside the resized image is dropped. Every other peak becomes a
/// node at `peak / scale + crop`, typed by its channel. Where the model has no
/// root class and the configuration asks for it, the leftmost of two or more
/// nodes is relabelled as the root; of several leftmost nodes it is the first.
pub fn map_nodes_to_image_space(
    peaks: Vec<RawPeak>,
    cfg: &ModelConfig,
    scale_x: AxisScale,
    scale_y: AxisScale,
    crop_x: u32,
    crop_y: u32,
) -> (nodes: Vec<PredictedNode>)
    requires
        scale_x.wf(),
        scale_y.wf(),
    ensures
        nodes@ == placed(peaks@, cfg, scale_x, scale_y, crop_x, crop_y),
        forall|i: int|
            0 <= i < nodes@.len() ==> inside_crop(
                #[trigger] nodes@[i],
                scale_x,
                scale_y,
                crop_x,
                crop_y,
            ),
{
    let mut nodes: Vec<PredictedNode> = Vec::new();
    let mut i: usize = 0;
    while i < peaks.len()
        invariant
            scale_x.wf(),
            scale_y.wf(),
            i <= peaks.len(),
            nodes@ == mapped(peaks@.take(i as int), cfg, scale_x, scale_y, crop_x, crop_y),
            forall|j: int|
                0 <= j < nodes@.len() ==> inside_crop(
                    #[trigger] nodes@[j],
                    scale_x,
                    scale_y,
                    crop_x,
                    crop_y,
                ),
        decreases peaks.len() - i,
    {
        assert(peaks@.take(i + 1).drop_last() =~= peaks@.take(i as int));
        let p: RawPeak = peaks[i];
        if p.x < scale_x.resized as usize && p.y < scale_y.resized as usize {
            let node = PredictedNode {
                x: scale_x.to_image(p.x as u32, crop_x),
                y: scale_y.to_image(p.y as u32, crop_y),
                node_type: channel_to_type(p.channel, cfg),
                score: p.score,
            };
            nodes.push(node);
        }
        i += 1;
    }
    assert(peaks@.take(i as int) =~= peaks@);
    if cfg.no_root_pred && cfg.decode.assign_root_leftmost_when_two_classes && nodes.len() > 1 {
        let idx: usize = leftmost_index(&nodes);
        let node: PredictedNode = nodes[idx];
        nodes.set(
            idx,
            PredictedNode { x: node.x, y: node.y, node_type: NodeType::Root, score: node.score },
        );
    }
    nodes
}

/// Keeps the internal nodes and the roots.
pub fn retain_internal_and_root(nodes: Vec<PredictedNode>) -> (kept: Vec<PredictedNode>)
    ensures
        kept@ == internal_and_root(nodes@),
{
    let mut kept: Vec<PredictedNode> = Vec::new();
    let mut i: usize = 0;
    while i < nodes.len()
        invariant
            i <= nodes.len(),
            kept@ == internal_and_root(nodes@.take(i as int)),
        decreases nodes.len() - i,
    {
        assert(nodes@.take(i + 1).drop_last() =~= nodes@.take(i as int));
        let n: PredictedNode = nodes[i];
        match n.node_type {
            NodeType::Tip => {},
            _ => {
                kept.push(n);
            },
        }
        i += 1;
    }
    assert(nodes@.take(i as int) =~= nodes@);
    kept
}

/// A node of an in-bounds peak lies inside the crop, both fractions proper.
pub open spec fn inside_crop(
    n: PredictedNode,
    scale_x: AxisScale,
    scale_y: AxisScale,
    crop_x: u32,
    crop_y: u32,
) -> bool {
    &&& n.x.wf() && n.y.wf()
    &&& crop_x <= n.x.whole < crop_x + scale_x.original
    &&& crop_y <= n.y.whole < crop_y + scale_y.original
}

/// Each mapped node is the node of an in-bounds peak and lies inside the
/// crop.
pub proof fn lemma_mapped(
    peaks: Seq<RawPeak>,
    cfg: &ModelConfig,
    scale_x: AxisScale,
    scale_y: AxisScale,
    crop_x: u32,
    crop_y: u32,
)
    requires
        scale_x.wf(),
        scale_y.wf(),
    ensures
        mapped(peaks, cfg, scale_x, scale_y, crop_x, crop_y).len() <= peaks.len(),
        forall|i: int|
            0 <= i < mapped(peaks, cfg, scale_x, scale_y, crop_x, crop_y).len() ==> ({
                let n = #[trigger] mapped(peaks, cfg, scale_x, scale_y, crop_x, crop_y)[i];
                &&& inside_crop(n, scale_x, scale_y, crop_x, crop_y)
                &&& exists|j: int|
                    0 <= j < peaks.len() && in_bounds(peaks[j], scale_x, scale_y) && n == node_of(
                        peaks[j],
                        cfg,
                        scale_x,
                        scale_y,
                        crop_x,
                        crop_y,
                    )
            }),
    decreases peaks.len(),
{
    if peaks.len() > 0 {
        let rest = peaks.drop_last();
        lemma_mapped(rest, cfg, scale_x, scale_y, crop_x, crop_y);
        let before = mapped(rest, cfg, scale_x, scale_y, crop_x, crop_y);
        let now = mapped(peaks, cfg, scale_x, scale_y, crop_x, crop_y);
        assert forall|i: int| 0 <= i < now.len() implies {
            let n = #[trigger] now[i];
            &&& inside_crop(n, scale_x, scale_y, crop_x, crop_y)
            &&& exists|j: int|
                0 <= j < peaks.len() && in_bounds(peaks[j], scale_x, scale_y) && n == node_of(
                    peaks[j],
                    cfg,
                    scale_x,
                    scale_y,
                    crop_x,
                    crop_y,
                )
        } by {
            if i < before.len() {
                let n = before[i];
                let j = choose|j: int|
                    0 <= j < rest.len() && in_bounds(rest[j], scale_x, scale_y) && n == node_of(
                        rest[j],
                        cfg,
                        scale_x,
                        scale_y,
                        crop_x,
                        crop_y,
                    );
                assert(peaks[j] == rest[j]);
            } else {
                let p = peaks.last();
                assert(peaks[peaks.len() - 1] == p);
                lemma_scaled_back(p.x as int, scale_x.resized as int, scale_x.original as int);
                lemma_scaled_back(p.y as int, scale_y.resized as int, scale_y.original as int);
            }
        }
    }
}

/// Two peaks on one channel give nodes of one type, whatever they score and
/// wherever they lie.
pub proof fn lemma_type_follows_channel(
    p: RawPeak,
    q: RawPeak,
    cfg: &ModelConfig,
    scale_x: AxisScale,
    scale_y: AxisScale,
    crop_x: u32,
    crop_y: u32,
)
    requires
        p.channel == q.channel,
    ensures
        node_of(p, cfg, scale_x, scale_y, crop_x, crop_y).node_type == node_of(
            q,
            cfg,
            scale_x,
            scale_y,
            crop_x,
            crop_y,
        ).node_type,
{
}

/// With both scales the identity and the crop at the origin, a peak's node
/// lies exactly where the peak lies in the grid.
pub proof fn lemma_identity_mapping(
    p: RawPeak,
    cfg: &ModelConfig,
    scale_x: AxisScale,
    scale_y: AxisScale,
)
    requires
        scale_x.wf(),
        scale_y.wf(),
        scale_x.is_identity(),
        scale_y.is_identity(),
        in_bounds(p, scale_x, scale_y),
    ensures
        node_of(p, cfg, scale_x, scale_y, 0, 0).x.is_whole(p.x as int),
        node_of(p, cfg, scale_x, scale_y, 0, 0).y.is_whole(p.y as int),
{
    lemma_identity_scale_keeps_position(scale_x, p.x as int);
    lemma_identity_scale_keeps_position(scale_y, p.y as int);
}

/// The node lies at a whole number of pixels, where the peak lies in the
/// grid, and carries the peak's score.
pub open spec fn sits_on(n: PredictedNode, p: RawPeak) -> bool {
    n.x.is_whole(p.x as int) && n.y.is_whole(p.y as int) && n.score == p.score
}

/// The node sits on one of the peaks.
pub open spec fn sits_on_one_of(n: PredictedNode, peaks: Seq<RawPeak>) -> bool {
    exists|j: int| 0 <= j < peaks.len() && sits_on(n, #[trigger] peaks[j])
}

/// With both scales the identity and the crop at the origin, every node lies
/// exactly at the grid position of one of the peaks: mapping loses
/// nothing.
pub proof fn lemma_round_trip(
    peaks: Seq<RawPeak>,
    cfg: &ModelConfig,
    scale_x: AxisScale,
    scale_y: AxisScale,
)
    requires
        scale_x.wf(),
        scale_y.wf(),
        scale_x.is_identity(),
        scale_y.is_identity(),
    ensures
        forall|i: int|
            0 <= i < placed(peaks, cfg, scale_x, scale_y, 0, 0).len() ==> sits_on_one_of(
                #[trigger] placed(peaks, cfg, scale_x, scale_y, 0, 0)[i],
                peaks,
            ),
{
    let before = mapped(peaks, cfg, scale_x, scale_y, 0, 0);
    let nodes = placed(peaks, cfg, scale_x, scale_y, 0, 0);
    lemma_mapped(peaks, cfg, scale_x, scale_y, 0, 0);
    if relabels_leftmost(cfg, before.len() as int) {
        lemma_leftmost_becomes_root(peaks, cfg, scale_x, scale_y, 0, 0);
    }
    assert forall|i: int| 0 <= i < nodes.len() implies sits_on_one_of(
        #[trigger] nodes[i],
        peaks,
    ) by {
        let m = before[i];
        assert(inside_crop(m, scale_x, scale_y, 0, 0));
        let j = choose|j: int|
            0 <= j < peaks.len() && in_bounds(peaks[j], scale_x, scale_y) && m == node_of(
                peaks[j],
                cfg,
                scale_x,
                scale_y,
                0,
                0,
            );
        lemma_identity_mapping(peaks[j], cfg, scale_x, scale_y);
        assert(nodes[i].x == m.x && nodes[i].y == m.y && nodes[i].score == m.score);
        assert(sits_on(nodes[i], peaks[j]));
    }
}

/// Where the leftmost node is relabelled, it is the first node that no node
/// lies left of; it becomes a root and keeps the rest of what it is, and
/// every other node stays as it was.
pub proof fn lemma_leftmost_becomes_root(
    peaks: Seq<RawPeak>,
    cfg: &ModelConfig,
    scale_x: AxisScale,
    scale_y: AxisScale,
    crop_x: u32,
    crop_y: u32,
)
    requires
        scale_x.wf(),
        scale_y.wf(),
        relabels_leftmost(
            cfg,
            mapped(peaks, cfg, scale_x, scale_y, crop_x, crop_y).len() as int,
        ),
    ensures
        ({
            let before = mapped(peaks, cfg, scale_x, scale_y, crop_x, crop_y);
            let nodes = placed(peaks, cfg, scale_x, scale_y, crop_x, crop_y);
            let l = leftmost(before);
            &&& nodes.len() == before.len()
            &&& 0 <= l < before.len()
            &&& nodes[l] == as_root(before[l])
            &&& forall|i: int| 0 <= i < nodes.len() && i != l ==> #[trigger] nodes[i] == before[i]
            &&& forall|j: int| 0 <= j < before.len() ==> !(#[trigger] before[j]).x.lt(before[l].x)
            &&& forall|j: int| 0 <= j < l ==> before[l].x.lt((#[trigger] before[j]).x)
        }),
{
    let before = mapped(peaks, cfg, scale_x, scale_y, crop_x, crop_y);
    lemma_mapped(peaks, cfg, scale_x, scale_y, crop_x, crop_y);
    assert forall|i: int| 0 <= i < before.len() implies (#[trigger] before[i]).x.wf() by {
        assert(inside_crop(before[i], scale_x, scale_y, crop_x, crop_y));
    }
    lemma_leftmost(before);
}

/// With `internal_only` every node is an internal node, but for the one that
/// the leftmost rule makes the root.
pub proof fn lemma_internal_only(
    peaks: Seq<RawPeak>,
    cfg: &ModelConfig,
    scale_x: AxisScale,
    scale_y: AxisScale,
    crop_x: u32,
    crop_y: u32,
)
    requires
        scale_x.wf(),
        scale_y.wf(),
        cfg.internal_only,
    ensures
        ({
            let before = mapped(peaks, cfg, scale_x, scale_y, crop_x, crop_y);
            let nodes = placed(peaks, cfg, scale_x, scale_y, crop_x, crop_y);
            forall|i: int|
                0 <= i < nodes.len() ==> (#[trigger] nodes[i]).node_type == (if relabels_leftmost(
                    cfg,
                    before.len() as int,
                ) && i == leftmost(before) {
                    NodeType::Root
                } else {
                    NodeType::Internal
                })
        }),
{
    let before = mapped(peaks, cfg, scale_x, scale_y, crop_x, crop_y);
    let nodes = placed(peaks, cfg, scale_x, scale_y, crop_x, crop_y);
    lemma_mapped(peaks, cfg, scale_x, scale_y, crop_x, crop_y);
    assert forall|i: int| 0 <= i < before.len() implies (#[trigger] before[i]).node_type
        == NodeType::Internal by {
        assert(inside_crop(before[i], scale_x, scale_y, crop_x, crop_y));
    }
    if relabels_leftmost(cfg, before.len() as int) {
        lemma_leftmost_becomes_root(peaks, cfg, scale_x, scale_y, crop_x, crop_y);
        assert forall|i: int| 0 <= i < nodes.len() implies (#[trigger] nodes[i]).node_type == (
        if i == leftmost(before) {
            NodeType::Root
        } else {
            NodeType::Internal
        }) by {
            if i != leftmost(before) {
                assert(nodes[i] == before[i]);
            }
        }
    }
}

} // verus!
