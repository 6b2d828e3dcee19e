use vstd::arithmetic::div_mod::{lemma_div_is_ordered, lemma_div_pos_is_pos};
use vstd::prelude::*;

verus! {

/// The externally laid-out feed-forward model that the canvas visualizes,
/// reduced to the plain values the drawing code reads: the layer id of every
/// node, the inclusive node-index range of every layer, the flattened weight
/// magnitudes (fixed-point, indexed by `target * nodes + source`), the
/// magnitude bound used for normalization, and a 2D raster position per node.
pub struct Network {
    pub layer_list: Vec<usize>,
    pub layer_start: Vec<usize>,
    pub layer_stop: Vec<usize>,
    pub weight: Vec<u32>,
    pub weight_limit: u32,
    pub pos_x: Vec<i32>,
    pub pos_y: Vec<i32>,
}

/// The clamped linear grayscale of a weight magnitude: `m`, clamped to
/// `limit`, scaled to `0..=255` and truncated.
pub open spec fn spec_intensity(m: u32, limit: u32) -> int {
    ((if m <= limit {
        m as int
    } else {
        limit as int
    }) * 255) / (limit as int)
}

impl Network {
    /// The number of nodes: one entry of `layer_list` per node.
    pub open spec fn nodes(self) -> int {
        self.layer_list@.len() as int
    }

    /// The description is consistent: every array matches the node count, the
    /// layer ranges stay inside it, every non-final node has a following
    /// layer, and the positions stay where the raster primitives accept them.
    pub open spec fn wf(self) -> bool {
        let n = self.nodes();
        &&& n >= 1
        &&& self.pos_x@.len() == n
        &&& self.pos_y@.len() == n
        &&& self.weight@.len() == n * n
        &&& n * n <= usize::MAX
        &&& self.weight_limit >= 1
        &&& self.layer_stop@.len() == self.layer_start@.len()
        &&& forall|i: int| 0 <= i < n ==> -1048576 <= #[trigger] self.pos_x@[i] <= 1048576
        &&& forall|i: int| 0 <= i < n ==> -1048576 <= #[trigger] self.pos_y@[i] <= 1048576
        &&& forall|s: int|
            0 <= s < n - 1 ==> (#[trigger] self.layer_list@[s]) + 1 < self.layer_start@.len()
        &&& forall|l: int|
            0 <= l < self.layer_start@.len() ==> #[trigger] self.layer_start@[l]
                <= self.layer_stop@[l]
        &&& forall|l: int|
            0 <= l < self.layer_stop@.len() ==> #[trigger] self.layer_stop@[l] < n
    }
}

/// Weight magnitudes map to grayscale exactly as `spec_intensity` says.
pub fn edge_intensity(m: u32, limit: u32) -> (r: u8)
    requires
        limit >= 1,
    ensures
        r == spec_intensity(m, limit),
{
    let mm: u64 = if m > limit {
        limit as u64
    } else {
        m as u64
    };
    let v: u64 = (mm * 255) / (limit as u64);
    proof {
        assert((mm as int) * 255 < 256 * (limit as int)) by (nonlinear_arith)
            requires mm <= limit, limit >= 1;
        crate::mapper::lemma_div_below((mm as int) * 255, 256, limit as int);
    }
    v as u8
}

/// Edge intensity never passes 255, and it reaches 255 exactly when the
/// weight magnitude reaches the limit.
pub proof fn lemma_intensity_saturates(m: u32, limit: u32)
    requires
        limit >= 1,
    ensures
        0 <= spec_intensity(m, limit) <= 255,
        spec_intensity(m, limit) == 255 <==> m >= limit,
{
    let c = if m <= limit {
        m as int
    } else {
        limit as int
    };
    lemma_div_pos_is_pos(c * 255, limit as int);
    assert(c * 255 < 256 * (limit as int)) by (nonlinear_arith)
        requires c <= limit, limit >= 1;
    crate::mapper::lemma_div_below(c * 255, 256, limit as int);
    if m >= limit {
        assert((limit as int) * 255 / (limit as int) == 255) by (nonlinear_arith)
            requires limit >= 1;
    } else {
        assert(c * 255 < 255 * (limit as int)) by (nonlinear_arith)
            requires c < limit;
        crate::mapper::lemma_div_below(c * 255, 255, limit as int);
    }
}

/// Edge intensity is monotone: a larger weight magnitude never yields a
/// smaller grayscale value.
pub proof fn lemma_intensity_monotone(m1: u32, m2: u32, limit: u32)
    requires
        limit >= 1,
        m1 <= m2,
    ensures
        spec_intensity(m1, limit) <= spec_intensity(m2, limit),
{
    let c1 = if m1 <= limit {
        m1 as int
    } else {
        limit as int
    };
    let c2 = if m2 <= limit {
        m2 as int
    } else {
        limit as int
    };
    assert(c1 * 255 <= c2 * 255) by (nonlinear_arith)
        requires c1 <= c2;
    lemma_div_is_ordered(c1 * 255, c2 * 255, limit as int);
}

/// One weighted line segment of the visualized graph, in raster coordinates.
#[derive(Clone, Copy, PartialEq, Eq, Structural)]
pub struct Edge {
    pub x0: i32,
    pub y0: i32,
    pub x1: i32,
    pub y1: i32,
    pub hue: u8,
}

/// The segment drawn from node `s` to node `t`: their positions, colored by
/// the grayscale of the weight at `(target t, source s)`.
pub open spec fn spec_edge(net: Network, s: int, t: int) -> Edge {
    Edge {
        x0: net.pos_x@[s],
        y0: net.pos_y@[s],
        x1: net.pos_x@[t],
        y1: net.pos_y@[t],
        hue: spec_intensity(net.weight@[t * net.nodes() + s], net.weight_limit) as u8,
    }
}

/// The first `k` segments leaving node `s`: its targets are the nodes of the
/// layer after its own, counted from that layer's first node.
pub open spec fn spec_node_edges(net: Network, s: int, k: int) -> Seq<Edge>
    decreases k,
{
    if k <= 0 {
        Seq::empty()
    } else {
        let start = net.layer_start@[net.layer_list@[s] + 1] as int;
        spec_node_edges(net, s, k - 1).push(spec_edge(net, s, start + k - 1))
    }
}

/// Every segment leaving node `s`.
pub open spec fn spec_node_edges_all(net: Network, s: int) -> Seq<Edge> {
    let l = net.layer_list@[s] + 1;
    spec_node_edges(net, s, net.layer_stop@[l as int] - net.layer_start@[l as int] + 1)
}

/// The segments of all source nodes before `s`, in drawing order.
pub open spec fn spec_edges(net: Network, s: int) -> Seq<Edge>
    decreases s,
{
    if s <= 0 {
        Seq::empty()
    } else {
        spec_edges(net, s - 1) + spec_node_edges_all(net, s - 1)
    }
}

impl Network {
    /// The list of weighted segments that the graph visualizer draws: for
    /// every node but the last, one segment to each node of the following
    /// layer, its grayscale saturating at the weight-magnitude limit.
    pub fn edge_segments(&self) -> (r: Vec<Edge>)
        requires
            self.wf(),
        ensures
            r@ == spec_edges(*self, self.nodes() - 1),
    {
        let n = self.layer_list.len();
        let mut out: Vec<Edge> = Vec::new();
        for s in 0..n - 1
            invariant
                self.wf(),
                n == self.nodes(),
                out@ == spec_edges(*self, s as int),
        {
            let s_layer = self.layer_list[s];
            let _num_layers = self.layer_start.len();
            proof {
                assert(self.layer_list@[s as int] + 1 < self.layer_start@.len());
            }
            let start = self.layer_start[s_layer + 1];
            let stop = self.layer_stop[s_layer + 1];
            let mut t = start;
            while t <= stop
                invariant
                    self.wf(),
                    n == self.nodes(),
                    0 <= s < n - 1,
                    start == self.layer_start@[self.layer_list@[s as int] + 1],
                    stop == self.layer_stop@[self.layer_list@[s as int] + 1],
                    start <= t <= stop + 1,
                    stop < n,
                    out@ == spec_edges(*self, s as int) + spec_node_edges(
                        *self,
                        s as int,
                        t - start,
                    ),
                decreases stop + 1 - t,
            {
                proof {
                    assert((t as int) * (n as int) + (s as int) < (n as int) * (n as int))
                        by (nonlinear_arith)
                        requires 0 <= t < n, 0 <= s < n;
                    assert(0 <= (t as int) * (n as int)) by (nonlinear_arith)
                        requires 0 <= t, 0 <= n;
                }
                let hue = edge_intensity(self.weight[t * n + s], self.weight_limit);
                out.push(
                    Edge {
                        x0: self.pos_x[s],
                        y0: self.pos_y[s],
                        x1: self.pos_x[t],
                        y1: self.pos_y[t],
                        hue,
                    },
                );
                t += 1;
            }
            proof {
                assert(out@ == spec_edges(*self, s as int) + spec_node_edges_all(
                    *self,
                    s as int,
                ));
                assert(out@ == spec_edges(*self, s as int + 1));
            }
        }
        out
    }
}

} // verus!
