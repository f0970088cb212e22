//! `ImageLocality`: prefer nodes that already hold the pod's images.
//!
//! An image counts by the share of nodes that hold it, so that a rare image
//! does not draw every pod to the one node that has it.

use crate::cache::{clamp64, sum64, ImageState, NodeInfo, PodInfo};
use crate::framework::status::{success, Status, StatusView};
use crate::framework::{
    CycleState, NoHint, Plugin, PreScorePlugin, ScorePlugin,
    MAX_NODE_SCORE,
};
use crate::maps::{find_key_index, first_of, StrMap};
use crate::numbers::{divide, narrow, trunc_div};
use std::sync::Arc;
use vstd::prelude::*;

verus! {

pub const NAME: &'static str = "ImageLocality";

/// Below this an image is quick to pull and counts for nothing: 23 MiB.
pub const MIN_THRESHOLD: i64 = 24117248;

/// What counts at most per container: 1000 MiB.
pub const MAX_CONTAINER_THRESHOLD: i64 = 1048576000;

/// How many nodes there are, and how many hold each image.
pub struct PreScoreState {
    pub total_nodes: i64,
    pub image_node_counts: StrMap<i64>,
}

pub struct ImageLocality;

impl Plugin for ImageLocality {
    type Hint = NoHint;

    open spec fn name_view(&self) -> Seq<char> {
        NAME@
    }

    fn name(&self) -> (r: &'static str) {
        NAME
    }
}

/// How many nodes of a list hold an image.
pub open spec fn holders(nodes: Seq<Arc<NodeInfo>>, image: Seq<char>) -> nat
    decreases nodes.len(),
{
    if nodes.len() == 0 {
        0
    } else {
        holders(nodes.drop_last(), image) + if nodes.last().images.at(image) is Some {
            1nat
        } else {
            0nat
        }
    }
}

/// The count of a number of holders; none where there are none.
pub open spec fn holder_count(n: nat) -> Option<i64> {
    if n > 0 {
        Some(clamp64(n as int) as i64)
    } else {
        None
    }
}

/// The key stands among the first `n` pairs of a node's images.
pub open spec fn among(images: StrMap<ImageState>, n: int, image: Seq<char>) -> bool {
    exists|j: int| 0 <= j < n && (#[trigger] images.entries@[j]).0@ == image
}

fn count_node(counts: &mut StrMap<i64>, images: &StrMap<ImageState>)
    ensures
        forall|k: Seq<char>| #[trigger]
            final(counts).at(k) == if images.at(k) is Some {
                Some(
                    clamp64(
                        match old(counts).at(k) {
                            Some(n) => n as int,
                            None => 0,
                        } + 1,
                    ) as i64,
                )
            } else {
                old(counts).at(k)
            },
{
    let ghost before = *counts;
    let mut i: usize = 0;
    while i < images.entries.len()
        invariant
            i <= images.entries@.len(),
            forall|k: Seq<char>| #[trigger]
                counts.at(k) == if among(*images, i as int, k) {
                    Some(
                        clamp64(
                            match before.at(k) {
                                Some(n) => n as int,
                                None => 0,
                            } + 1,
                        ) as i64,
                    )
                } else {
                    before.at(k)
                },
        decreases images.entries@.len() - i,
    {
        let ghost prior = *counts;
        let first = images.is_first(i);
        if first {
            let key = images.entries[i].0.as_str();
            let n: i64 = match counts.get(key) {
                Some(n) => *n,
                None => 0,
            };
            counts.insert(key.to_owned(), sum64(n, 1));
        }
        i += 1;
        proof {
            assert forall|k: Seq<char>| #[trigger]
                counts.at(k) == if among(*images, i as int, k) {
                    Some(
                        clamp64(
                            match before.at(k) {
                                Some(n) => n as int,
                                None => 0,
                            } + 1,
                        ) as i64,
                    )
                } else {
                    before.at(k)
                } by {
                let was = prior.at(k);
                let here = images.entries@[i - 1].0@;
                assert(among(*images, i as int, k) == (among(*images, i - 1, k) || here == k)) by {
                    if among(*images, i as int, k) {
                        let j = choose|j: int|
                            0 <= j < i && (#[trigger] images.entries@[j]).0@ == k;
                        if j < i - 1 {
                            assert(images.entries@[j].0@ == k);
                        }
                    }
                    if among(*images, i - 1, k) {
                        let j = choose|j: int|
                            0 <= j < i - 1 && (#[trigger] images.entries@[j]).0@ == k;
                        assert(0 <= j < i && images.entries@[j].0@ == k);
                    }
                    if here == k {
                        assert(images.entries@[i - 1].0@ == k);
                    }
                }
            }
        }
    }
    proof {
        assert forall|k: Seq<char>| images.at(k) is Some <==> #[trigger] among(
            *images,
            images.entries@.len() as int,
            k,
        ) by {
            if images.at(k) is Some {
                let j = find_key_index(images.entries@, k);
                assert(images.entries@[j].0@ == k);
            }
            if among(*images, images.entries@.len() as int, k) {
                let j = choose|j: int|
                    0 <= j < images.entries@.len() && (#[trigger] images.entries@[j]).0@ == k;
                first_of(images.entries@, k, j);
            }
        }
    }
}

/// The number of nodes and the holders of each image.
pub open spec fn surveyed(s: PreScoreState, nodes: Seq<Arc<NodeInfo>>) -> bool {
    &&& s.total_nodes == clamp64(nodes.len() as int)
    &&& forall|k: Seq<char>| #[trigger]
        s.image_node_counts.at(k) == holder_count(holders(nodes, k))
}

impl PreScorePlugin for ImageLocality {
    open spec fn pre_score_view(
        &self,
        before: CycleState,
        pod: PodInfo,
        nodes: Seq<Arc<NodeInfo>>,
        after: CycleState,
        status: StatusView,
    ) -> bool {
        &&& status == success()
        &&& after.only_slot(&before, NAME@)
        &&& after.same_skips(&before)
        &&& after.value::<PreScoreState>(NAME@) matches Some(s) && surveyed(s, nodes)
    }

    fn pre_score(&self, state: &mut CycleState, pod: &PodInfo, nodes: &Vec<Arc<NodeInfo>>) -> (r:
        Status) {
        let mut counts: StrMap<i64> = StrMap::new();
        let mut i: usize = 0;
        while i < nodes.len()
            invariant
                i <= nodes@.len(),
                forall|k: Seq<char>| #[trigger]
                    counts.at(k) == holder_count(holders(nodes@.take(i as int), k)),
            decreases nodes@.len() - i,
        {
            let ghost prior = counts;
            count_node(&mut counts, &nodes[i].images);
            i += 1;
            proof {
                assert(nodes@.take(i as int).drop_last() =~= nodes@.take(i - 1));
                assert forall|k: Seq<char>| #[trigger]
                    counts.at(k) == holder_count(holders(nodes@.take(i as int), k)) by {
                    let was = prior.at(k);
                }
            }
        }
        assert(nodes@.take(i as int) =~= nodes@);
        let total_nodes: i64 = narrow(nodes.len() as i128);
        state.write(NAME, PreScoreState { total_nodes, image_node_counts: counts });
        Status::success()
    }
}

/// The number of nodes the share is of, at least one.
pub open spec fn cluster_size(state: CycleState) -> int {
    match state.value::<PreScoreState>(NAME@) {
        Some(s) => if s.total_nodes < 1 {
            1
        } else {
            s.total_nodes as int
        },
        None => 1,
    }
}

/// How many nodes an image is taken to be on: at least one, at most all.
pub open spec fn spread_of(state: CycleState, image: Seq<char>) -> int {
    let known = match state.value::<PreScoreState>(NAME@) {
        Some(s) => match s.image_node_counts.at(image) {
            Some(n) => n as int,
            None => 1,
        },
        None => 1,
    };
    if known < 1 {
        1
    } else if known > cluster_size(state) {
        cluster_size(state)
    } else {
        known
    }
}

/// The bytes of the images a node holds, each scaled by its share of nodes,
/// summed within `i64`.
pub open spec fn held_bytes(images: Seq<String>, state: CycleState, node: NodeInfo) -> int
    decreases images.len(),
{
    if images.len() == 0 {
        0
    } else {
        let rest = held_bytes(images.drop_last(), state, node);
        match node.images.at(images.last()@) {
            Some(present) => clamp64(
                rest + trunc_div(
                    present.size_bytes * spread_of(state, images.last()@),
                    cluster_size(state),
                ),
            ),
            None => rest,
        }
    }
}

/// Bytes on the common range, between the two thresholds.
pub open spec fn bytes_score(sum: int, containers: int) -> int {
    let max = MAX_CONTAINER_THRESHOLD * if containers < 1 {
        1
    } else {
        containers
    };
    if sum < MIN_THRESHOLD {
        0
    } else if sum >= max {
        MAX_NODE_SCORE as int
    } else {
        trunc_div(MAX_NODE_SCORE * (sum - MIN_THRESHOLD), max - MIN_THRESHOLD)
    }
}

/// Map total cached bytes onto the common range.
pub fn scaled_image_score(sum_bytes: i64, container_count: usize) -> (r: i64)
    ensures
        r == bytes_score(sum_bytes as int, container_count as int),
        0 <= r <= MAX_NODE_SCORE,
{
    let containers: i128 = if container_count < 1 {
        1
    } else {
        container_count as i128
    };
    assert(1 <= containers <= 0xffff_ffff_ffff_ffff);
    let max: i128 = 1048576000 * containers;
    if sum_bytes < MIN_THRESHOLD {
        return 0;
    }
    if sum_bytes as i128 >= max {
        return MAX_NODE_SCORE;
    }
    let above: i128 = (sum_bytes as i128) - (MIN_THRESHOLD as i128);
    let span: i128 = max - (MIN_THRESHOLD as i128);
    proof {
        let a = above as int;
        let b = span as int;
        assert(0 <= (100 * a) / b <= 100) by (nonlinear_arith)
            requires
                0 <= a <= b,
                b > 0,
        ;
    }
    divide((MAX_NODE_SCORE as i128) * above, span) as i64
}

impl ScorePlugin for ImageLocality {
    open spec fn score_view(&self, state: CycleState, pod: PodInfo, node: NodeInfo) -> int {
        bytes_score(held_bytes(pod.images@, state, node), pod.container_count as int)
    }

    fn score(&self, state: &CycleState, pod: &PodInfo, node: &NodeInfo) -> (r: Result<i64, Status>)
        ensures
            r is Ok,
    {
        let pre = state.read::<PreScoreState>(NAME);
        let total: i64 = match pre {
            Some(s) => if s.total_nodes < 1 {
                1
            } else {
                s.total_nodes
            },
            None => 1,
        };
        let images = &pod.images;
        let mut sum: i64 = 0;
        let mut i: usize = 0;
        while i < images.len()
            invariant
                i <= images@.len(),
                total == cluster_size(*state),
                total >= 1,
                match state.value::<PreScoreState>(NAME@) {
                    Some(s) => pre == Some(&s),
                    None => pre is None,
                },
                sum == held_bytes(images@.take(i as int), *state, *node),
            decreases images@.len() - i,
        {
            let image = images[i].as_str();
            match node.images.get(image) {
                Some(present) => {
                    let known: i64 = match pre {
                        Some(s) => match s.image_node_counts.get(image) {
                            Some(n) => *n,
                            None => 1,
                        },
                        None => 1,
                    };
                    let spread: i64 = if known < 1 {
                        1
                    } else if known > total {
                        total
                    } else {
                        known
                    };
                    assert(spread == spread_of(*state, image@));
                    let size: i64 = present.size_bytes;
                    proof {
                        let s = size as int;
                        let w = spread as int;
                        assert(-0x4000_0000_0000_0000_0000_0000_0000_0000 <= s * w
                            <= 0x4000_0000_0000_0000_0000_0000_0000_0000) by (nonlinear_arith)
                            requires
                                -0x8000_0000_0000_0000 <= s <= 0x7fff_ffff_ffff_ffff,
                                0 <= w <= 0x7fff_ffff_ffff_ffff,
                        ;
                        if s >= 0 {
                            assert((s * w) >= 0) by (nonlinear_arith)
                                requires
                                    s >= 0,
                                    w >= 0,
                            ;
                            crate::numbers::quotient_bound(s * w, total as int);
                        } else {
                            assert((-(s * w)) >= 0) by (nonlinear_arith)
                                requires
                                    s < 0,
                                    w >= 0,
                            ;
                            crate::numbers::quotient_bound(-(s * w), total as int);
                        }
                    }
                    let share: i128 = divide((size as i128) * (spread as i128), total as i128);
                    sum = narrow((sum as i128) + share);
                },
                None => {},
            }
            i += 1;
            assert(images@.take(i as int).drop_last() =~= images@.take(i - 1));
        }
        assert(images@.take(i as int) =~= images@);
        Ok(scaled_image_score(sum, pod.container_count))
    }
}

/// The score never leaves the common range, and does not fall as more bytes
/// are held.
pub proof fn more_bytes_score_no_less(less: int, more: int, containers: int)
    requires
        less <= more,
    ensures
        0 <= bytes_score(less, containers) <= MAX_NODE_SCORE,
        bytes_score(less, containers) <= bytes_score(more, containers),
{
    let n = if containers < 1 { 1 } else { containers };
    let max = MAX_CONTAINER_THRESHOLD * n;
    assert(max >= MAX_CONTAINER_THRESHOLD) by (nonlinear_arith)
        requires
            n >= 1,
            max == 1048576000 * n,
            MAX_CONTAINER_THRESHOLD == 1048576000,
    ;
    let b = max - MIN_THRESHOLD;
    if less >= MIN_THRESHOLD && less < max {
        let x = less - MIN_THRESHOLD;
        assert(0 <= (100 * x) / b <= 100) by (nonlinear_arith)
            requires
                0 <= x <= b,
                b > 0,
        ;
        if more < max {
            let y = more - MIN_THRESHOLD;
            assert((100 * x) / b <= (100 * y) / b) by (nonlinear_arith)
                requires
                    0 <= x <= y,
                    b > 0,
            ;
        }
    }
    if less < MIN_THRESHOLD && more >= MIN_THRESHOLD && more < max {
        let y = more - MIN_THRESHOLD;
        assert(0 <= (100 * y) / b) by (nonlinear_arith)
            requires
                0 <= y,
                b > 0,
        ;
    }
}

/// A widely held image counts for no less than a rare one of the same size.
pub proof fn common_counts_no_less(size: int, rare: int, common: int, total: int)
    requires
        size >= 0,
        0 <= rare <= common,
        total >= 1,
    ensures
        trunc_div(size * rare, total) <= trunc_div(size * common, total),
{
    assert(0 <= size * rare <= size * common) by (nonlinear_arith)
        requires
            size >= 0,
            0 <= rare <= common,
    ;
    let a = size * rare;
    let b = size * common;
    assert(a / total <= b / total) by (nonlinear_arith)
        requires
            0 <= a <= b,
            total >= 1,
    ;
}

/// Every node that holds an image counts once, wherever it stands.
pub proof fn every_holder_counts(nodes: Seq<Arc<NodeInfo>>, i: int, image: Seq<char>)
    requires
        0 <= i < nodes.len(),
    ensures
        holders(nodes, image) == holders(nodes.remove(i), image) + if nodes[i].images.at(image) is Some {
            1nat
        } else {
            0nat
        },
        1 <= holders(nodes, image) || nodes[i].images.at(image) is None,
    decreases nodes.len(),
{
    let t = nodes.drop_last();
    if i == nodes.len() - 1 {
        assert(nodes.remove(i) =~= t);
    } else {
        every_holder_counts(t, i, image);
        assert(nodes.remove(i).drop_last() =~= t.remove(i));
        assert(nodes.remove(i).last() == nodes.last());
    }
}

proof fn holders_are_nodes(nodes: Seq<Arc<NodeInfo>>, image: Seq<char>)
    ensures
        holders(nodes, image) <= nodes.len(),
    decreases nodes.len(),
{
    if nodes.len() > 0 {
        holders_are_nodes(nodes.drop_last(), image);
    }
}

/// After the survey, an image that a node of the list holds is taken to be on as
/// many nodes as hold it, of as many as there are.
pub proof fn shares_are_of_the_nodes(
    plugin: ImageLocality,
    before: CycleState,
    pod: PodInfo,
    nodes: Seq<Arc<NodeInfo>>,
    after: CycleState,
    status: StatusView,
    i: int,
    image: Seq<char>,
)
    requires
        plugin.pre_score_view(before, pod, nodes, after, status),
        nodes.len() <= i64::MAX,
        0 <= i < nodes.len(),
        nodes[i].images.at(image) is Some,
    ensures
        spread_of(after, image) == holders(nodes, image),
        cluster_size(after) == nodes.len(),
{
    every_holder_counts(nodes, i, image);
    holders_are_nodes(nodes, image);
    let s = after.value::<PreScoreState>(NAME@)->Some_0;
    assert(s.image_node_counts.at(image) == holder_count(holders(nodes, image)));
}

/// What an image on the node counts for.
pub open spec fn image_share(image: Seq<char>, state: CycleState, node: NodeInfo) -> int {
    match node.images.at(image) {
        Some(present) => trunc_div(
            present.size_bytes * spread_of(state, image),
            cluster_size(state),
        ),
        None => 0,
    }
}

proof fn shares_are_not_negative(image: Seq<char>, state: CycleState, node: NodeInfo)
    requires
        node.images.at(image) matches Some(p) ==> p.size_bytes >= 0,
    ensures
        image_share(image, state, node) >= 0,
{
    if let Some(p) = node.images.at(image) {
        let a = p.size_bytes as int;
        let b = spread_of(state, image);
        assert(a * b >= 0) by (nonlinear_arith)
            requires
                a >= 0,
                b >= 0,
        ;
        let c = cluster_size(state);
        let n = a * b;
        assert(n / c >= 0) by (nonlinear_arith)
            requires
                n >= 0,
                c >= 1,
        ;
    }
}

/// Every image counts: as long as the sum stays in range, dropping one from
/// anywhere lowers it by that image's share.
pub proof fn every_held_image_counts(images: Seq<String>, state: CycleState, node: NodeInfo, i: int)
    requires
        0 <= i < images.len(),
        forall|k: int|
            0 <= k < images.len() ==> (node.images.at((#[trigger] images[k])@) matches Some(p) ==> p.size_bytes
                >= 0),
        held_bytes(images, state, node) < i64::MAX,
    ensures
        held_bytes(images, state, node) == held_bytes(images.remove(i), state, node) + image_share(
            images[i]@,
            state,
            node,
        ),
        0 <= held_bytes(images.remove(i), state, node),
    decreases images.len(),
{
    let t = images.drop_last();
    let last = images.len() - 1;
    shares_are_not_negative(images[last]@, state, node);
    held_is_not_negative(t, state, node);
    if i == last {
        assert(images.remove(i) =~= t);
    } else {
        assert forall|k: int| 0 <= k < t.len() implies (node.images.at((#[trigger] t[k])@) matches Some(
            p,
        ) ==> p.size_bytes >= 0) by {
            assert(t[k] == images[k]);
        }
        every_held_image_counts(t, state, node, i);
        shares_are_not_negative(images[i]@, state, node);
        assert(images.remove(i).drop_last() =~= t.remove(i));
        assert(images.remove(i).last() == images.last());
    }
}

proof fn held_is_not_negative(images: Seq<String>, state: CycleState, node: NodeInfo)
    requires
        forall|k: int|
            0 <= k < images.len() ==> (node.images.at((#[trigger] images[k])@) matches Some(p) ==> p.size_bytes
                >= 0),
    ensures
        0 <= held_bytes(images, state, node) <= i64::MAX,
    decreases images.len(),
{
    if images.len() > 0 {
        let t = images.drop_last();
        assert forall|k: int| 0 <= k < t.len() implies (node.images.at((#[trigger] t[k])@) matches Some(
            p,
        ) ==> p.size_bytes >= 0) by {
            assert(t[k] == images[k]);
        }
        held_is_not_negative(t, state, node);
        assert(images[images.len() - 1] == images.last());
        shares_are_not_negative(images.last()@, state, node);
    }
}

} // verus!
