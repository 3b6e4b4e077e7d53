//! The layered broadcast ("avalanche") topology: partitioning a sorted node
//! list into layers and neighborhoods, and locating a node's neighborhood and
//! child peers inside that partition.

use vstd::prelude::*;
use vstd::arithmetic::div_mod::{
    lemma_add_mod_noop, lemma_div_by_multiple, lemma_fundamental_div_mod,
    lemma_fundamental_div_mod_converse, lemma_mod_multiples_basic, lemma_small_mod,
};

verus! {

/// Where a node index sits inside the broadcast partition: its layer, the
/// bounds of that layer, the bounds of its neighborhood, and the indices in
/// the next layer it is responsible for.
pub struct Locality {
    /// The bounds of the neighborhood represented by this locality.
    pub neighbor_bounds: (u64, u64),
    /// The broadcast layer this locality is in.
    pub layer_ix: u64,
    /// The bounds of the current layer.
    pub layer_bounds: (u64, u64),
    /// The bounds of the next layer, if one exists.
    pub child_layer_bounds: Option<(u64, u64)>,
    /// The indices of the nodes that should be contacted in the next layer.
    pub child_layer_peers: Vec<u64>,
}

/// The empty locality, returned for an index outside every layer.
pub open spec fn is_default_locality(l: Locality) -> bool {
    &&& l.neighbor_bounds == (0u64, 0u64)
    &&& l.layer_ix == 0
    &&& l.layer_bounds == (0u64, 0u64)
    &&& l.child_layer_bounds is None
    &&& l.child_layer_peers@.len() == 0
}

impl Default for Locality {
    fn default() -> (r: Self)
        ensures
            is_default_locality(r),
    {
        Locality {
            neighbor_bounds: (0, 0),
            layer_ix: 0,
            layer_bounds: (0, 0),
            child_layer_bounds: None,
            child_layer_peers: Vec::new(),
        }
    }
}

/// Ceiling on every layer boundary, low enough that neighborhood and child
/// peer arithmetic cannot overflow a `u64`.
pub const MAX_LAYER_INDEX: u64 = 0x8000_0000_0000_0000;

/// Ceiling on the node count, fanout and neighborhood size accepted by
/// `describe_data_plane`.
pub const MAX_PLANE_INPUT: u64 = 0x8000_0000;

/// A well-formed layer boundary list: strictly increasing, every layer span
/// beyond the first a multiple of the neighborhood size, all boundaries small
/// enough that locality arithmetic stays in range.
pub open spec fn indices_ok(ind: Seq<u64>, hood: u64) -> bool {
    &&& 1 <= hood <= MAX_PLANE_INPUT
    &&& forall|i: int| 0 <= i < ind.len() - 1 ==> #[trigger] ind[i] < ind[i + 1]
    &&& forall|i: int| 1 <= i < ind.len() - 1 ==> (ind[i + 1] - #[trigger] ind[i]) % (hood as int) == 0
    &&& forall|i: int| 0 <= i < ind.len() ==> #[trigger] ind[i] <= MAX_LAYER_INDEX
}

/// The boundaries appended after `end` while `remaining` nodes are left: one
/// layer of capacity `hood * nn` at a time, squaring `nn` per layer when
/// `grow` is set, with one final layer absorbing whatever remains.
pub open spec fn plane_tail(end: int, remaining: int, nn: int, hood: int, grow: bool) -> Seq<u64>
    decreases remaining,
    when remaining >= 0 && nn >= 1 && hood >= 1
    via plane_tail_decreases
{
    if remaining <= 0 {
        Seq::empty()
    } else {
        let cap = hood * nn;
        if remaining > cap {
            let nn2 = if grow {
                nn * nn
            } else {
                nn
            };
            seq![(end + cap) as u64] + plane_tail(end + cap, remaining - cap, nn2, hood, grow)
        } else {
            seq![(end + cap) as u64]
        }
    }
}

#[via_fn]
proof fn plane_tail_decreases(end: int, remaining: int, nn: int, hood: int, grow: bool) {
    assert(hood * nn >= 1) by (nonlinear_arith)
        requires
            hood >= 1,
            nn >= 1,
    ;
    assert(nn * nn >= 1) by (nonlinear_arith)
        requires
            nn >= 1,
    ;
}

/// The exact boundary list the partition produces: nothing for an empty
/// cluster, a single layer when everyone fits in the fanout, else the leader
/// boundary, the first-layer boundary at `fanout`, and one boundary per
/// further layer of capacity `hood * (fanout / 2)`, squared per layer under
/// `grow`.
pub open spec fn spec_layer_indices(nodes: int, fanout: int, hood: int, grow: bool) -> Seq<u64> {
    if nodes == 0 {
        Seq::empty()
    } else if nodes <= fanout {
        seq![0u64]
    } else {
        seq![0u64, fanout as u64] + plane_tail(fanout, nodes - fanout, fanout / 2, hood, grow)
    }
}

/// What `describe_data_plane(nodes, fanout, hood, _)` guarantees of its
/// boundary list when more than one layer is needed.
pub open spec fn plane_wf(ind: Seq<u64>, fanout: u64, hood: u64, nodes: u64) -> bool {
    &&& ind.len() >= 3
    &&& ind[0] == 0
    &&& ind[1] == fanout
    &&& indices_ok(ind, hood)
    &&& ind[ind.len() - 2] < nodes
    &&& nodes <= ind[ind.len() - 1]
}

/// Index `sel` falls in the layer that starts at boundary `i`.
pub open spec fn in_segment(ind: Seq<u64>, i: int, sel: u64) -> bool {
    &&& 0 <= i < ind.len() - 1
    &&& ind[i] <= sel < ind[i + 1]
}

/// Lower bound of the neighborhood of `sel` inside layer `i`.
pub open spec fn neighbor_lo(ind: Seq<u64>, hood: u64, i: int, sel: u64) -> int {
    if i == 0 {
        0
    } else {
        ind[i] + hood * ((sel - ind[i]) / (hood as int))
    }
}

/// The child peers of `sel` in layer `i`: one index per neighborhood of the
/// next layer, at offset `sel % hood` into each.
pub open spec fn child_peers_seq(ind: Seq<u64>, hood: u64, i: int, sel: u64) -> Seq<u64> {
    Seq::new(
        ((ind[i + 2] - ind[i + 1]) / (hood as int)) as nat,
        |k: int| (ind[i + 1] + k * hood + sel as int % hood as int) as u64,
    )
}

/// The locality fields `localize` owes for an index that falls in layer `i`.
pub open spec fn locality_matches(ind: Seq<u64>, hood: u64, i: int, sel: u64, l: Locality) -> bool {
    &&& l.layer_ix == i
    &&& if i == 0 {
        l.layer_bounds == (0u64, hood) && l.neighbor_bounds == (0u64, hood)
    } else {
        &&& l.layer_bounds.0 == ind[i]
        &&& l.layer_bounds.1 == ind[i + 1]
        &&& l.neighbor_bounds.0 == neighbor_lo(ind, hood, i, sel)
        &&& l.neighbor_bounds.1 == neighbor_lo(ind, hood, i, sel) + hood
    }
    &&& if i + 2 < ind.len() {
        &&& l.child_layer_bounds == Some((ind[i + 1], ind[i + 2]))
        &&& l.child_layer_peers@ == child_peers_seq(ind, hood, i, sel)
    } else {
        &&& l.child_layer_bounds is None
        &&& l.child_layer_peers@.len() == 0
    }
}

/// Strictly increasing adjacent boundaries give a monotone list.
pub proof fn lemma_sorted_mono(ind: Seq<u64>, i: int, j: int)
    requires
        forall|k: int| 0 <= k < ind.len() - 1 ==> #[trigger] ind[k] < ind[k + 1],
        0 <= i <= j < ind.len(),
    ensures
        ind[i] <= ind[j],
        i < j ==> ind[i] < ind[j],
    decreases j - i,
{
    if i < j {
        lemma_sorted_mono(ind, i, j - 1);
    }
}

/// An index below the last boundary falls in exactly one layer; this finds it.
pub proof fn lemma_segment_exists(ind: Seq<u64>, t: u64, k: int)
    requires
        forall|q: int| 0 <= q < ind.len() - 1 ==> #[trigger] ind[q] < ind[q + 1],
        0 <= k < ind.len(),
        ind[k] <= t,
        t < ind[ind.len() - 1],
    ensures
        exists|j: int| k <= j && in_segment(ind, j, t),
    decreases ind.len() - k,
{
    if k == ind.len() - 1 {
        assert(false);
    } else if t < ind[k + 1] {
        assert(in_segment(ind, k, t));
    } else {
        lemma_segment_exists(ind, t, k + 1);
    }
}

/// Two layers holding `a` and `a` itself are the same layer.
pub proof fn lemma_segment_unique(ind: Seq<u64>, i: int, j: int, a: u64)
    requires
        forall|k: int| 0 <= k < ind.len() - 1 ==> #[trigger] ind[k] < ind[k + 1],
        in_segment(ind, i, a),
        in_segment(ind, j, a),
    ensures
        i == j,
{
    if i < j {
        lemma_sorted_mono(ind, i + 1, j);
        assert(false);
    }
    if j < i {
        lemma_sorted_mono(ind, j + 1, i);
        assert(false);
    }
}

/// For `0 <= a < b` with `h` dividing `b`, the neighborhood of `a` ends at or
/// before `b`.
proof fn lemma_hood_fits(a: int, b: int, h: int)
    requires
        0 <= a < b,
        h >= 1,
        b % h == 0,
    ensures
        h * (a / h) + h <= b,
        0 <= h * (a / h) <= a,
{
    lemma_fundamental_div_mod(a, h);
    lemma_fundamental_div_mod(b, h);
    let q = a / h;
    let m = b / h;
    assert(b == h * m);
    assert(a == h * q + a % h);
    assert(h * q <= a);
    assert(q < m) by (nonlinear_arith)
        requires
            h >= 1,
            h * q <= a,
            a < b,
            b == h * m,
    ;
    assert(h * (q + 1) <= h * m) by (nonlinear_arith)
        requires
            h >= 1,
            q + 1 <= m,
    ;
    assert(h * (q + 1) == h * q + h) by (nonlinear_arith);
}

/// Child peers of layer `i` land inside the child layer's bounds.
pub proof fn lemma_child_peer_bounds(ind: Seq<u64>, hood: u64, i: int, sel: u64, k: int)
    requires
        indices_ok(ind, hood),
        0 <= i,
        i + 2 < ind.len(),
        0 <= k < child_peers_seq(ind, hood, i, sel).len(),
    ensures
        ind[i + 1] <= child_peers_seq(ind, hood, i, sel)[k] < ind[i + 2],
        child_peers_seq(ind, hood, i, sel)[k] as int == ind[i + 1] + k * hood + sel as int % (
        hood as int),
    decreases 0int,
{
    let h = hood as int;
    let lo = ind[i + 1] as int;
    let hi = ind[i + 2] as int;
    let span = hi - lo;
    let q = span / h;
    lemma_fundamental_div_mod(span, h);
    assert(span == h * q);
    let r = sel as int % h;
    lemma_fundamental_div_mod(sel as int, h);
    assert(0 <= r < h);
    assert(k * h + h <= q * h) by (nonlinear_arith)
        requires
            h >= 1,
            k + 1 <= q,
    ;
    assert(h * q == q * h) by (nonlinear_arith);
    assert(lo + k * h + r < hi);
    assert(0 <= k * h) by (nonlinear_arith)
        requires
            h >= 1,
            k >= 0,
    ;
    assert(lo + k * h + r <= MAX_LAYER_INDEX + 0);
    assert(child_peers_seq(ind, hood, i, sel)[k] == (lo + k * h + r) as u64);
}

/// The step from `a` to `a + 1` moves the residue modulo `h` by one, wrapping
/// to zero at `h - 1`.
proof fn lemma_mod_succ(a: int, h: int)
    requires
        a >= 0,
        h >= 1,
    ensures
        a % h == h - 1 ==> (a + 1) % h == 0,
        a % h < h - 1 ==> (a + 1) % h == a % h + 1,
{
    lemma_fundamental_div_mod(a, h);
    let q = a / h;
    let r = a % h;
    if r == h - 1 {
        assert(h * (q + 1) == h * q + h) by (nonlinear_arith);
        assert(a + 1 == h * (q + 1));
        lemma_mod_multiples_basic(q + 1, h);
        assert((h * (q + 1)) % h == 0);
    } else {
        assert(q * h == h * q) by (nonlinear_arith);
        assert(a + 1 == q * h + (r + 1));
        lemma_fundamental_div_mod_converse(a + 1, h, q, r + 1);
    }
}

/// Members of one neighborhood column differ from members of another when the
/// two columns' residues differ.
proof fn lemma_columns_disjoint(lo: int, h: int, r1: int, r2: int, k1: int, k2: int)
    requires
        h >= 1,
        0 <= r1 < h,
        0 <= r2 < h,
        r1 != r2,
        k1 >= 0,
        k2 >= 0,
    ensures
        lo + k1 * h + r1 != lo + k2 * h + r2,
{
    if lo + k1 * h + r1 == lo + k2 * h + r2 {
        assert((k1 - k2) * h == r2 - r1) by (nonlinear_arith)
            requires
                k1 * h + r1 == k2 * h + r2,
        ;
        if k1 == k2 {
            assert(false);
        } else if k1 > k2 {
            assert((k1 - k2) * h >= h) by (nonlinear_arith)
                requires
                    k1 - k2 >= 1,
                    h >= 1,
            ;
            assert(false);
        } else {
            assert((k1 - k2) * h <= -h) by (nonlinear_arith)
                requires
                    k1 - k2 <= -1,
                    h >= 1,
            ;
            assert(false);
        }
    }
}

/// Adjacent indices in non-terminal layers select disjoint child peers
/// (neighborhood size at least two; with neighborhoods of width one every
/// index selects the same column, so the claim fails there).
pub proof fn lemma_adjacent_child_peers_disjoint(ind: Seq<u64>, hood: u64, a: u64, i: int, j: int)
    requires
        indices_ok(ind, hood),
        hood >= 2,
        a < 0xffff_ffff_ffff_ffffu64,
        in_segment(ind, i, a),
        in_segment(ind, j, (a + 1) as u64),
        i + 2 < ind.len(),
        j + 2 < ind.len(),
    ensures
        forall|k1: int, k2: int|
            #![trigger child_peers_seq(ind, hood, i, a)[k1], child_peers_seq(ind, hood, j, (a + 1) as u64)[k2]]
            0 <= k1 < child_peers_seq(ind, hood, i, a).len() && 0 <= k2 < child_peers_seq(
                ind,
                hood,
                j,
                (a + 1) as u64,
            ).len() ==> child_peers_seq(ind, hood, i, a)[k1] != child_peers_seq(
                ind,
                hood,
                j,
                (a + 1) as u64,
            )[k2],
{
    let b = (a + 1) as u64;
    let h = hood as int;
    // `a + 1` lies in the same layer as `a` or in the next one.
    assert(i <= j) by {
        if j < i {
            lemma_sorted_mono(ind, j + 1, i);
            assert(false);
        }
    };
    assert(j <= i + 1) by {
        if j > i + 1 {
            lemma_sorted_mono(ind, i + 1, j);
            assert(false);
        }
    };
    assert forall|k1: int, k2: int|
        #![trigger child_peers_seq(ind, hood, i, a)[k1], child_peers_seq(ind, hood, j, b)[k2]]
        0 <= k1 < child_peers_seq(ind, hood, i, a).len() && 0 <= k2 < child_peers_seq(
            ind,
            hood,
            j,
            b,
        ).len() implies child_peers_seq(ind, hood, i, a)[k1] != child_peers_seq(
        ind,
        hood,
        j,
        b,
    )[k2] by {
        lemma_child_peer_bounds(ind, hood, i, a, k1);
        lemma_child_peer_bounds(ind, hood, j, b, k2);
        if j == i {
            let ra = a as int % h;
            let rb = b as int % h;
            lemma_mod_succ(a as int, h);
            lemma_fundamental_div_mod(a as int, h);
            assert(ra != rb);
            lemma_columns_disjoint(ind[i + 1] as int, h, ra, rb, k1, k2);
        } else {
            // Different layers: the peer values live in disjoint ranges.
            assert(child_peers_seq(ind, hood, i, a)[k1] < ind[i + 2]);
            assert(child_peers_seq(ind, hood, j, b)[k2] >= ind[j + 1]);
        }
    };
}

/// With fanout equal to the neighborhood size, every boundary is aligned to
/// the neighborhood size.
proof fn lemma_boundaries_aligned(ind: Seq<u64>, hood: u64, i: int)
    requires
        indices_ok(ind, hood),
        ind.len() >= 2,
        ind[0] == 0,
        ind[1] as int % (hood as int) == 0,
        0 <= i < ind.len(),
    ensures
        ind[i] as int % (hood as int) == 0,
    decreases i,
{
    let h = hood as int;
    if i <= 1 {
        lemma_small_mod(0, h as nat);
    } else {
        lemma_boundaries_aligned(ind, hood, i - 1);
        let prev = ind[i - 1] as int;
        let span = ind[i] as int - prev;
        assert(span % h == 0);
        lemma_add_mod_noop(prev, span, h);
        lemma_small_mod(0, h as nat);
        assert((prev + span) % h == 0);
    }
}

/// Whether the role-peer sets of index `x` in layer `i` reach index `t`:
/// either `t` is in `x`'s own neighborhood, or `t` is one of `x`'s child
/// peers.
pub open spec fn covers(ind: Seq<u64>, hood: u64, x: u64, i: int, t: u64) -> bool {
    &&& in_segment(ind, i, x)
    &&& {
        ||| neighbor_lo(ind, hood, i, x) <= t < neighbor_lo(ind, hood, i, x) + hood
        ||| (i + 2 < ind.len() && child_peers_seq(ind, hood, i, x).contains(t))
    }
}

/// Broadcast coverage: with fanout equal to the neighborhood size, every
/// index below the last boundary is reached by the neighborhood or child
/// peers of some real node index (one below `nodes`).
pub proof fn lemma_broadcast_coverage(ind: Seq<u64>, fanout: u64, hood: u64, nodes: u64, t: u64)
    requires
        plane_wf(ind, fanout, hood, nodes),
        fanout == hood,
        fanout >= 2,
        nodes > fanout,
        t < ind[ind.len() - 1],
    ensures
        exists|x: u64, i: int| x < nodes && covers(ind, hood, x, i, t),
{
    let h = hood as int;
    assert(ind[1] as int % h == 0) by {
        lemma_mod_multiples_basic(1, h);
    };
    lemma_segment_exists(ind, t, 0);
    let j = choose|j: int| 0 <= j && in_segment(ind, j, t);
    if j == 0 {
        // Layer zero: `t` sits in its own neighborhood `[0, hood)`.
        assert(ind[1] == hood);
        assert(covers(ind, hood, t, 0, t));
        assert(t < nodes);
        assert(exists|x: u64, i: int| x < nodes && covers(ind, hood, x, i, t));
    } else {
        // An interior or final layer: a parent in layer `j - 1` with the same
        // residue reaches `t` through its child peers.
        lemma_boundaries_aligned(ind, hood, j);
        lemma_boundaries_aligned(ind, hood, j - 1);
        let lo = ind[j] as int;
        let off = t as int - lo;
        let k = off / h;
        let rr = off % h;
        lemma_fundamental_div_mod(off, h);
        assert(0 <= rr < h);
        // The parent index.
        let x64 = (ind[j - 1] + rr) as u64;
        // Parent layer spans at least one neighborhood.
        assert(ind[j] as int - ind[j - 1] as int >= h) by {
            let span = ind[j] as int - ind[j - 1] as int;
            assert(span > 0);
            assert(span % h == 0) by {
                if j - 1 >= 1 {
                } else {
                    assert(ind[0] == 0 && ind[1] as int % h == 0);
                    lemma_small_mod(0, h as nat);
                }
            };
            lemma_fundamental_div_mod(span, h);
            let q = span / h;
            assert(span == h * q);
            assert(q >= 1) by (nonlinear_arith)
                requires
                    h >= 1,
                    span == h * q,
                    span > 0,
            ;
            assert(h * q >= h) by (nonlinear_arith)
                requires
                    h >= 1,
                    q >= 1,
            ;
        };
        assert(in_segment(ind, j - 1, x64));
        // The parent is a real node: every boundary before the last interior
        // one is below `nodes`.
        assert(x64 < nodes) by {
            assert(j < ind.len() - 1);
            lemma_sorted_mono(ind, j, ind.len() - 2);
            assert(ind[j] <= ind[ind.len() - 2]);
        };
        // Child peer `k` of the parent is exactly `t`.
        let cps = child_peers_seq(ind, hood, j - 1, x64);
        assert(x64 as int % h == rr) by {
            lemma_add_mod_noop(ind[j - 1] as int, rr, h);
            lemma_small_mod(rr as nat, h as nat);
            lemma_small_mod(0, h as nat);
        };
        assert(0 <= k < cps.len()) by {
            let span = ind[j + 1] as int - ind[j] as int;
            assert(span % h == 0);
            lemma_hood_fits(off, span, h);
            assert(h * (off / h) + h <= span);
            lemma_fundamental_div_mod(span, h);
            let q = span / h;
            assert(span == h * q);
            assert(k < q) by (nonlinear_arith)
                requires
                    h >= 1,
                    h * k + h <= h * q,
            ;
        };
        lemma_child_peer_bounds(ind, hood, j - 1, x64, k);
        assert(cps[k] as int == ind[j] + k * h + rr);
        assert(k * h == h * k) by (nonlinear_arith);
        assert(cps[k] as int == t as int);
        assert(cps[k] == t);
        assert(cps.contains(t));
        assert(covers(ind, hood, x64, j - 1, t));
        assert(exists|x: u64, i: int| x < nodes && covers(ind, hood, x, i, t));
    }
}

/// Given a node count, an initial fanout (leader into the first layer) and a
/// neighborhood size, computes how many layers are needed and the boundary
/// index where each layer begins. With `grow`, layer capacity is squared at
/// each new layer instead of staying constant.
pub fn describe_data_plane(nodes: u64, fanout: u64, hood_size: u64, grow: bool) -> (r: (
    u64,
    Vec<u64>,
))
    requires
        nodes <= MAX_PLANE_INPUT,
        fanout <= MAX_PLANE_INPUT,
        hood_size <= MAX_PLANE_INPUT,
        nodes > fanout ==> fanout >= 2 && hood_size >= 1,
    ensures
        r.1@ == spec_layer_indices(nodes as int, fanout as int, hood_size as int, grow),
        nodes == 0 ==> r.0 == 0 && r.1@ == Seq::<u64>::empty(),
        0 < nodes <= fanout ==> r.0 == 1 && r.1@ == seq![0u64],
        nodes > fanout ==> r.0 as int == r.1@.len() - 1 && plane_wf(r.1@, fanout, hood_size, nodes),
{
    let mut layer_indices: Vec<u64> = Vec::new();
    layer_indices.push(0);
    if nodes == 0 {
        let empty: Vec<u64> = Vec::new();
        proof {
            assert(empty@ =~= spec_layer_indices(0, fanout as int, hood_size as int, grow));
        }
        (0, empty)
    } else if nodes <= fanout {
        // A single layer holds everyone.
        proof {
            assert(layer_indices@ =~= seq![0u64]);
        }
        (1, layer_indices)
    } else {
        // The first layer takes the first `fanout` nodes.
        let mut remaining: u64 = nodes - fanout;
        layer_indices.push(fanout);
        let mut num_layers: u64 = 2;
        let mut num_neighborhoods: u64 = fanout / 2;
        proof {
            assert(hood_size * num_neighborhoods <= MAX_PLANE_INPUT * MAX_PLANE_INPUT)
                by (nonlinear_arith)
                requires
                    hood_size <= MAX_PLANE_INPUT,
                    num_neighborhoods <= MAX_PLANE_INPUT,
            ;
        }
        let mut layer_capacity: u64 = hood_size * num_neighborhoods;
        proof {
            assert(layer_capacity >= 1) by (nonlinear_arith)
                requires
                    layer_capacity == hood_size * num_neighborhoods,
                    hood_size >= 1,
                    num_neighborhoods >= 1,
            ;
            assert(spec_layer_indices(nodes as int, fanout as int, hood_size as int, grow)
                =~= layer_indices@ + plane_tail(
                fanout as int,
                nodes as int - fanout as int,
                (fanout / 2) as int,
                hood_size as int,
                grow,
            ));
        }
        loop
            invariant_except_break
                num_neighborhoods >= 1,
                layer_capacity as int == hood_size as int * num_neighborhoods as int,
                layer_capacity >= 1,
                layer_capacity <= 0x4000_0000_0000_0000,
                1 <= remaining <= nodes,
                fanout >= 2 && hood_size >= 1,
                hood_size <= MAX_PLANE_INPUT,
                fanout <= MAX_PLANE_INPUT,
                nodes <= MAX_PLANE_INPUT && fanout < nodes,
                layer_indices@.len() >= 2,
                layer_indices@[0] == 0,
                layer_indices@[1] == fanout,
                forall|i: int|
                    0 <= i < layer_indices@.len() - 1 ==> #[trigger] layer_indices@[i]
                        < layer_indices@[i + 1],
                forall|i: int|
                    1 <= i < layer_indices@.len() - 1 ==> (layer_indices@[i + 1]
                        - #[trigger] layer_indices@[i]) % (hood_size as int) == 0,
                layer_indices@.last() as int + remaining as int == nodes as int,
                num_layers as int == layer_indices@.len(),
                layer_indices@.len() - 2 + remaining <= nodes,
                spec_layer_indices(nodes as int, fanout as int, hood_size as int, grow)
                    == layer_indices@ + plane_tail(
                    layer_indices@.last() as int,
                    remaining as int,
                    num_neighborhoods as int,
                    hood_size as int,
                    grow,
                ),
            ensures
                num_layers as int == layer_indices@.len() - 1,
                plane_wf(layer_indices@, fanout, hood_size, nodes),
                layer_indices@ == spec_layer_indices(
                    nodes as int,
                    fanout as int,
                    hood_size as int,
                    grow,
                ),
            decreases remaining,
        {
            let end = layer_indices[layer_indices.len() - 1];
            proof {
                lemma_sorted_mono(layer_indices@, 0, layer_indices@.len() - 1);
                lemma_sorted_mono(layer_indices@, 1, layer_indices@.len() - 1);
            }
            if remaining > layer_capacity {
                // Another full layer is needed.
                proof {
                    assert(num_layers < 0xffff_ffff_ffff_ffffu64);
                }
                let ghost pre_remaining = remaining as int;
                let ghost pre_nn = num_neighborhoods as int;
                let ghost pre_cap = layer_capacity as int;
                num_layers = num_layers + 1;
                remaining = remaining - layer_capacity;
                let ghost pre = layer_indices@;
                layer_indices.push(layer_capacity + end);
                proof {
                    let ind = layer_indices@;
                    let h = hood_size as int;
                    assert forall|i: int| 1 <= i < ind.len() - 1 implies (ind[i + 1]
                        - #[trigger] ind[i]) % h == 0 by {
                        if i < pre.len() - 1 {
                            assert((pre[i + 1] - pre[i]) % h == 0);
                        } else {
                            assert(ind[i + 1] - ind[i] == layer_capacity);
                            lemma_mod_multiples_basic(num_neighborhoods as int, h);
                            assert((num_neighborhoods as int) * h == h * (num_neighborhoods as int))
                                by (nonlinear_arith);
                            assert(h * (num_neighborhoods as int) == layer_capacity as int);
                        }
                    };
                }
                proof {
                    // The recurrence takes one step: the appended boundary is
                    // the head of the remaining tail.
                    let h = hood_size as int;
                    let tail_nn = if grow {
                        pre_nn * pre_nn
                    } else {
                        pre_nn
                    };
                    assert(tail_nn >= 1) by (nonlinear_arith)
                        requires
                            pre_nn >= 1,
                            tail_nn == if grow {
                                pre_nn * pre_nn
                            } else {
                                pre_nn
                            },
                    ;
                    assert(pre_remaining - pre_cap >= 1);
                    assert(plane_tail(end as int, pre_remaining, pre_nn, h, grow) =~= seq![
                        (end as int + pre_cap) as u64,
                    ] + plane_tail(end as int + pre_cap, pre_remaining - pre_cap, tail_nn, h, grow));
                    assert(pre + plane_tail(end as int, pre_remaining, pre_nn, h, grow)
                        =~= layer_indices@ + plane_tail(
                        end as int + pre_cap,
                        pre_remaining - pre_cap,
                        tail_nn,
                        h,
                        grow,
                    ));
                }
                if grow {
                    proof {
                        assert(layer_capacity < nodes);
                        assert(num_neighborhoods as int <= layer_capacity as int)
                            by (nonlinear_arith)
                            requires
                                layer_capacity as int == hood_size as int
                                    * num_neighborhoods as int,
                                hood_size >= 1,
                                num_neighborhoods >= 0,
                        ;
                        assert(num_neighborhoods as int * num_neighborhoods as int
                            <= layer_capacity as int * layer_capacity as int) by (nonlinear_arith)
                            requires
                                num_neighborhoods as int <= layer_capacity as int,
                                num_neighborhoods >= 0,
                        ;
                        assert(hood_size as int * (num_neighborhoods as int
                            * num_neighborhoods as int) == layer_capacity as int
                            * num_neighborhoods as int) by (nonlinear_arith)
                            requires
                                layer_capacity as int == hood_size as int
                                    * num_neighborhoods as int,
                        ;
                        assert((layer_capacity as int) * (num_neighborhoods as int) < (
                        nodes as int) * (nodes as int)) by (nonlinear_arith)
                            requires
                                layer_capacity < nodes,
                                num_neighborhoods <= layer_capacity,
                                num_neighborhoods >= 1,
                                nodes >= 1,
                        ;
                        assert((num_neighborhoods as int) * (num_neighborhoods as int) <= (
                        layer_capacity as int) * (num_neighborhoods as int)) by (nonlinear_arith)
                            requires
                                num_neighborhoods <= layer_capacity,
                                num_neighborhoods >= 0,
                        ;
                        assert((num_neighborhoods as int) * (num_neighborhoods as int) >= 1)
                            by (nonlinear_arith)
                            requires
                                num_neighborhoods >= 1,
                        ;
                        assert((nodes as int) * (nodes as int) <= (MAX_PLANE_INPUT as int) * (
                        MAX_PLANE_INPUT as int)) by (nonlinear_arith)
                            requires
                                nodes <= MAX_PLANE_INPUT,
                        ;
                    }
                    num_neighborhoods = num_neighborhoods * num_neighborhoods;
                    layer_capacity = hood_size * num_neighborhoods;
                }
            } else {
                // Everything left fits in one more layer.
                let ghost pre = layer_indices@;
                layer_indices.push(layer_capacity + end);
                proof {
                    assert(plane_tail(
                        end as int,
                        remaining as int,
                        num_neighborhoods as int,
                        hood_size as int,
                        grow,
                    ) =~= seq![(end as int + layer_capacity as int) as u64]);
                    assert(layer_indices@ =~= pre + plane_tail(
                        end as int,
                        remaining as int,
                        num_neighborhoods as int,
                        hood_size as int,
                        grow,
                    ));
                    let ind = layer_indices@;
                    let h = hood_size as int;
                    assert(ind[ind.len() - 2] == end);
                    assert forall|i: int| 0 <= i < ind.len() - 1 implies #[trigger] ind[i] < ind[i
                        + 1] by {
                        if i < pre.len() - 1 {
                            assert(pre[i] < pre[i + 1]);
                        }
                    };
                    assert forall|i: int| 1 <= i < ind.len() - 1 implies (ind[i + 1]
                        - #[trigger] ind[i]) % h == 0 by {
                        if i < pre.len() - 1 {
                            assert((pre[i + 1] - pre[i]) % h == 0);
                        } else {
                            assert(ind[i + 1] - ind[i] == layer_capacity);
                            lemma_mod_multiples_basic(num_neighborhoods as int, h);
                            assert((num_neighborhoods as int) * h == h * (num_neighborhoods as int))
                                by (nonlinear_arith);
                            assert(h * (num_neighborhoods as int) == layer_capacity as int);
                        }
                    };
                    assert forall|i: int| 0 <= i < ind.len() implies #[trigger] ind[i]
                        <= MAX_LAYER_INDEX by {
                        lemma_sorted_mono(ind, i, ind.len() - 1);
                    };
                }
                break ;
            }
        }
        (num_layers, layer_indices)
    }
}

/// Tests whether `select_index` falls in the layer beginning at boundary
/// `curr_index`, and if so computes its locality: its layer and neighborhood
/// bounds, and its child peers in the next layer.
pub fn localize_item(
    layer_indices: &Vec<u64>,
    hood_size: u64,
    select_index: u64,
    curr_index: usize,
) -> (r: Option<Locality>)
    requires
        indices_ok(layer_indices@, hood_size),
        curr_index < layer_indices@.len(),
    ensures
        match r {
            Some(l) => in_segment(layer_indices@, curr_index as int, select_index)
                && locality_matches(
                layer_indices@,
                hood_size,
                curr_index as int,
                select_index,
                l,
            ),
            None => !in_segment(layer_indices@, curr_index as int, select_index),
        },
{
    let ghost ind = layer_indices@;
    let end = layer_indices.len() - 1;
    let next = if curr_index + 1 < end {
        curr_index + 1
    } else {
        end
    };
    let value = layer_indices[curr_index];
    let localized = select_index >= value && select_index < layer_indices[next];
    if !localized {
        return None;
    }
    proof {
        assert(next == curr_index + 1);
        assert(in_segment(ind, curr_index as int, select_index));
    }
    let child_bounds: Option<(u64, u64)>;
    let child_peers: Vec<u64>;
    if next + 1 <= end {
        // A child layer exists.
        let cs = layer_indices[next];
        let ce = layer_indices[next + 1];
        child_bounds = Some((cs, ce));
        child_peers = lower_layer_peers(select_index, cs, ce, hood_size);
        proof {
            assert(child_peers@ =~= child_peers_seq(ind, hood_size, curr_index as int,
            select_index));
        }
    } else {
        child_bounds = None;
        child_peers = Vec::new();
    }
    if curr_index == 0 {
        Some(
            Locality {
                layer_ix: 0,
                layer_bounds: (0, hood_size),
                neighbor_bounds: (0, hood_size),
                child_layer_bounds: child_bounds,
                child_layer_peers: child_peers,
            },
        )
    } else {
        let hood_ix = (select_index - value) / hood_size;
        proof {
            let h = hood_size as int;
            lemma_hood_fits(select_index as int - value as int, ind[curr_index as int + 1] - value,
            h);
            assert(hood_ix as int == (select_index as int - value as int) / h);
            assert(hood_ix as int * h == h * (hood_ix as int)) by (nonlinear_arith);
            assert(value + hood_ix as int * h <= select_index);
            assert(value + hood_ix as int * h + h <= ind[curr_index as int + 1]);
        }
        Some(
            Locality {
                layer_ix: curr_index as u64,
                layer_bounds: (value, layer_indices[next]),
                neighbor_bounds: (
                    value + hood_ix * hood_size,
                    value + hood_ix * hood_size + hood_size,
                ),
                child_layer_bounds: child_bounds,
                child_layer_peers: child_peers,
            },
        )
    }
}

/// The indices this node is responsible for in the child layer
/// `[start, end)`: one index per neighborhood, at this node's offset within
/// its own neighborhood.
pub fn lower_layer_peers(index: u64, start: u64, end: u64, hood_size: u64) -> (r: Vec<u64>)
    requires
        1 <= hood_size <= MAX_PLANE_INPUT,
        start <= end,
        (end - start) % (hood_size as int) == 0,
        end <= MAX_LAYER_INDEX,
    ensures
        r@ == Seq::new(
            ((end - start) / (hood_size as int)) as nat,
            |k: int| (start + k * hood_size + index as int % hood_size as int) as u64,
        ),
{
    let ghost target = Seq::new(
        ((end - start) / (hood_size as int)) as nat,
        |k: int| (start + k * hood_size + index as int % hood_size as int) as u64,
    );
    let rem = index % hood_size;
    let mut out: Vec<u64> = Vec::new();
    let mut x = start;
    while x < end
        invariant
            1 <= hood_size <= MAX_PLANE_INPUT,
            start <= x <= end,
            end <= MAX_LAYER_INDEX,
            rem == index as int % hood_size as int,
            rem < hood_size,
            (end - start) % (hood_size as int) == 0,
            x as int == start + out@.len() * hood_size,
            target == Seq::new(
                ((end - start) / (hood_size as int)) as nat,
                |k: int| (start + k * hood_size + index as int % hood_size as int) as u64,
            ),
            out@.len() <= target.len(),
            forall|k: int| 0 <= k < out@.len() ==> #[trigger] out@[k] == target[k],
        decreases end - x,
    {
        proof {
            let h = hood_size as int;
            let j = out@.len() as int;
            lemma_hood_fits(x as int - start as int, end as int - start as int, h);
            lemma_div_by_multiple(j, h);
            assert(h * j == j * h) by (nonlinear_arith);
            assert((x as int - start as int) / h == j);
            assert(j * h + h <= end as int - start as int);
            let q = (end as int - start as int) / h;
            lemma_fundamental_div_mod(end as int - start as int, h);
            assert(end as int - start as int == h * q);
            assert(j < q) by (nonlinear_arith)
                requires
                    h >= 1,
                    j * h + h <= h * q,
            ;
            assert(target[j] == (start + j * h + rem) as u64);
        }
        out.push(x + rem);
        x = x + hood_size;
        proof {
            assert(x as int == start + out@.len() * hood_size) by (nonlinear_arith)
                requires
                    x as int == start + (out@.len() - 1) * hood_size + hood_size,
            ;
        }
    }
    proof {
        let h = hood_size as int;
        let j = out@.len() as int;
        assert(x == end);
        assert(end as int - start as int == j * h);
        lemma_div_by_multiple(j, h);
        assert(h * j == j * h) by (nonlinear_arith);
        assert((end - start) / h == j);
        assert(out@ =~= target);
    }
    out
}

/// Finds the layer containing `select_index` in the boundary list and returns
/// its locality; an index outside every layer gets the default locality.
pub fn localize(layer_indices: &Vec<u64>, hood_size: u64, select_index: u64) -> (r: Locality)
    requires
        indices_ok(layer_indices@, hood_size),
    ensures
        forall|i: int|
            in_segment(layer_indices@, i, select_index) ==> locality_matches(
                layer_indices@,
                hood_size,
                i,
                select_index,
                r,
            ),
        (forall|i: int| !in_segment(layer_indices@, i, select_index)) ==> is_default_locality(r),
{
    let ghost ind = layer_indices@;
    let mut i: usize = 0;
    while i < layer_indices.len()
        invariant
            indices_ok(ind, hood_size),
            ind == layer_indices@,
            i <= ind.len(),
            forall|k: int| 0 <= k < i ==> !in_segment(ind, k, select_index),
        decreases ind.len() - i,
    {
        match localize_item(layer_indices, hood_size, select_index, i) {
            Some(l) => {
                proof {
                    assert forall|q: int| in_segment(ind, q, select_index) implies locality_matches(
                        ind,
                        hood_size,
                        q,
                        select_index,
                        l,
                    ) by {
                        lemma_segment_unique(ind, q, i as int, select_index);
                    };
                }
                return l;
            },
            None => {
                i = i + 1;
            },
        }
    }
    Locality::default()
}

} // verus!
