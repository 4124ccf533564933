//! Mathematical descriptions of the client's bookkeeping: packet counters
//! of the drones, what a flood response teaches about the topology, and how
//! text files wait for their media.
use vstd::prelude::*;

use crate::messages::{graph_type_of_node, graph_type_of_server, GraphNodeType, ServerType};
use crate::web_client::MediaSourceView;
use crate::wire::{NodeId, NodeType};

verus! {

/// Counters of one drone: packets sent through it, packets it lost.
pub type Counter = (u64, u64);

/// `x + 1`, saturating at `u64::MAX`.
pub open spec fn sat_inc(x: u64) -> u64 {
    if x == u64::MAX {
        x
    } else {
        (x + 1) as u64
    }
}

/// One more packet sent through `d`, if `d` has counters.
pub open spec fn count_sent(counters: Map<NodeId, Counter>, d: NodeId) -> Map<NodeId, Counter> {
    if counters.contains_key(d) {
        counters.insert(d, (sat_inc(counters[d].0), counters[d].1))
    } else {
        counters
    }
}

/// One more packet sent through, and lost by, `d`, if `d` has counters.
pub open spec fn count_lost(counters: Map<NodeId, Counter>, d: NodeId) -> Map<NodeId, Counter> {
    if counters.contains_key(d) {
        counters.insert(d, (sat_inc(counters[d].0), sat_inc(counters[d].1)))
    } else {
        counters
    }
}

/// One more packet sent through each of `hops`, in turn.
pub open spec fn count_sent_all(counters: Map<NodeId, Counter>, hops: Seq<NodeId>) -> Map<NodeId, Counter>
    decreases hops.len(),
{
    if hops.len() == 0 {
        counters
    } else {
        count_sent(count_sent_all(counters, hops.drop_last()), hops.last())
    }
}

/// The position of the first `p` in `hops`, or the length of `hops`.
pub open spec fn index_or_len(hops: Seq<NodeId>, p: NodeId) -> int
    decreases hops.len(),
{
    if hops.len() == 0 {
        0
    } else if hops[0] == p {
        0
    } else {
        1 + index_or_len(hops.drop_first(), p)
    }
}

pub proof fn lemma_index_or_len(hops: Seq<NodeId>, p: NodeId, k: int)
    requires
        0 <= k <= hops.len(),
        forall|j: int| 0 <= j < k ==> hops[j] != p,
        k == hops.len() || hops[k] == p,
    ensures
        index_or_len(hops, p) == k,
    decreases hops.len(),
{
    if hops.len() > 0 && k > 0 {
        assert forall|j: int| 0 <= j < k - 1 implies hops.drop_first()[j] != p by {
            assert(hops.drop_first()[j] == hops[j + 1]);
        }
        lemma_index_or_len(hops.drop_first(), p, k - 1);
    }
}

/// The counters after a packet that went along `hops` was dropped by `p`:
/// one more packet through each hop before `p`, and one more sent and lost by `p`.
pub open spec fn counters_after_drop(counters: Map<NodeId, Counter>, hops: Seq<NodeId>, p: NodeId) -> Map<
    NodeId,
    Counter,
> {
    count_lost(count_sent_all(counters, hops.take(index_or_len(hops, p))), p)
}

/// The edges that the client learns from two consecutive nodes of a flood's
/// path trace, `client` being the client itself. An edge that leaves a
/// client or a server (other than `client`) is not learned, so that no
/// route goes through one.
pub open spec fn pair_edges(client: NodeId, from: (NodeId, NodeType), to: (NodeId, NodeType)) -> Seq<
    (NodeId, NodeId),
> {
    if to.0 == client || from.0 == client {
        seq![(from.0, to.0), (to.0, from.0)]
    } else if from.1 == NodeType::Client || from.1 == NodeType::Server {
        seq![(to.0, from.0)]
    } else if to.1 == NodeType::Client || to.1 == NodeType::Server {
        seq![(from.0, to.0)]
    } else {
        seq![(from.0, to.0), (to.0, from.0)]
    }
}

/// The edges learned from a whole path trace, pair after pair.
pub open spec fn path_edges(client: NodeId, path: Seq<(NodeId, NodeType)>) -> Seq<(NodeId, NodeId)>
    decreases path.len(),
{
    if path.len() < 2 {
        Seq::empty()
    } else {
        path_edges(client, path.drop_last()) + pair_edges(client, path[path.len() - 2], path.last())
    }
}

/// Whether a node of this kind ends routes: a client or a server.
pub open spec fn is_endpoint(t: NodeType) -> bool {
    t == NodeType::Client || t == NodeType::Server
}

/// The edge `e` joins the consecutive nodes `k` and `k + 1` of `path`, in
/// either direction, and starts at a node that does not end routes.
pub open spec fn edge_from_drone(path: Seq<(NodeId, NodeType)>, k: int, e: (NodeId, NodeId)) -> bool {
    &&& 0 <= k < path.len() - 1
    &&& (e == (path[k].0, path[k + 1].0) && !is_endpoint(path[k].1)) || (e == (path[k + 1].0, path[k].0)
        && !is_endpoint(path[k + 1].1))
}

/// No route learned from a flood's path trace passes through a client or a
/// server: each learned edge that does not touch `client` itself joins two
/// consecutive nodes of the trace and starts at a drone. This holds when the
/// trace never puts two clients or servers next to each other away from
/// `client`.
pub proof fn lemma_learned_edges_start_at_drones(client: NodeId, path: Seq<(NodeId, NodeType)>)
    requires
        forall|k: int|
            0 <= k < path.len() - 1 && #[trigger] path[k].0 != client && path[k + 1].0 != client ==> !(is_endpoint(
                path[k].1,
            ) && is_endpoint(path[k + 1].1)),
    ensures
        forall|i: int|
            0 <= i < path_edges(client, path).len() && #[trigger] path_edges(client, path)[i].0 != client
                && path_edges(client, path)[i].1 != client ==> exists|k: int|
                edge_from_drone(path, k, #[trigger] path_edges(client, path)[i]),
    decreases path.len(),
{
    if path.len() >= 2 {
        let init = path.drop_last();
        assert forall|k: int|
            0 <= k < init.len() - 1 && #[trigger] init[k].0 != client && init[k + 1].0 != client implies !(
            is_endpoint(init[k].1) && is_endpoint(init[k + 1].1)) by {
            assert(init[k] == path[k] && init[k + 1] == path[k + 1]);
        }
        lemma_learned_edges_start_at_drones(client, init);
        let pre = path_edges(client, init);
        let last = pair_edges(client, path[path.len() - 2], path.last());
        let all = path_edges(client, path);
        assert(all == pre + last);
        assert forall|i: int| 0 <= i < all.len() && #[trigger] all[i].0 != client && all[i].1 != client implies exists|
            k: int,
        | edge_from_drone(path, k, #[trigger] all[i]) by {
            if i < pre.len() {
                assert(all[i] == pre[i]);
                let k = choose|k: int| edge_from_drone(init, k, #[trigger] pre[i]);
                assert(init[k] == path[k] && init[k + 1] == path[k + 1]);
                assert(edge_from_drone(path, k, all[i]));
            } else {
                let k = path.len() - 2;
                assert(all[i] == last[i - pre.len()]);
                assert(path.last() == path[k + 1]);
                assert(edge_from_drone(path, k, all[i]));
            }
        }
    }
}

/// The edges learned from two consecutive nodes `a` then `b`: `a -> b`
/// unless `a` is a client or server other than `client`, `b -> a` unless `b`
/// is one and `a` is not; both when `a` or `b` is `client`.
pub proof fn lemma_pair_edges(client: NodeId, a: (NodeId, NodeType), b: (NodeId, NodeType))
    ensures
        a.0 == client || b.0 == client || !is_endpoint(a.1) ==> pair_edges(client, a, b).contains((a.0, b.0)),
        a.0 == client || b.0 == client || is_endpoint(a.1) || !is_endpoint(b.1) ==> pair_edges(client, a, b).contains(
            (b.0, a.0),
        ),
{
    let e = pair_edges(client, a, b);
    if a.0 == client || b.0 == client {
        assert(e[0] == (a.0, b.0) && e[1] == (b.0, a.0));
    } else if is_endpoint(a.1) {
        assert(e[0] == (b.0, a.0));
    } else if is_endpoint(b.1) {
        assert(e[0] == (a.0, b.0));
    } else {
        assert(e[0] == (a.0, b.0) && e[1] == (b.0, a.0));
    }
}

/// An element of either part is an element of a concatenation.
proof fn lemma_concat_contains<T>(s: Seq<T>, t: Seq<T>, e: T)
    requires
        s.contains(e) || t.contains(e),
    ensures
        (s + t).contains(e),
{
    if s.contains(e) {
        let j = choose|j: int| 0 <= j < s.len() && s[j] == e;
        assert((s + t)[j] == e);
    } else {
        let j = choose|j: int| 0 <= j < t.len() && t[j] == e;
        assert((s + t)[s.len() + j] == e);
    }
}

/// Whether the client learns the edge `a -> b` from two consecutive nodes `a`
/// then `b` of a path trace.
pub open spec fn learns_forward(client: NodeId, a: (NodeId, NodeType), b: (NodeId, NodeType)) -> bool {
    a.0 == client || b.0 == client || !is_endpoint(a.1)
}

/// Whether the client learns the edge `b -> a` from two consecutive nodes `a`
/// then `b` of a path trace.
pub open spec fn learns_backward(client: NodeId, a: (NodeId, NodeType), b: (NodeId, NodeType)) -> bool {
    a.0 == client || b.0 == client || is_endpoint(a.1) || !is_endpoint(b.1)
}

/// For every two consecutive nodes `a` then `b` of a flood's path trace, the
/// client learns the edge `a -> b` unless `a` is a client or server other
/// than itself, and the edge `b -> a` unless `b` is one and `a` is not; both
/// when `a` or `b` is the client itself.
pub proof fn lemma_learned_edges_of_pairs(client: NodeId, path: Seq<(NodeId, NodeType)>)
    ensures
        forall|k: int|
            0 <= k < path.len() - 1 && learns_forward(client, #[trigger] path[k], path[k + 1]) ==> path_edges(
                client,
                path,
            ).contains((path[k].0, path[k + 1].0)),
        forall|k: int|
            0 <= k < path.len() - 1 && learns_backward(client, #[trigger] path[k], path[k + 1]) ==> path_edges(
                client,
                path,
            ).contains((path[k + 1].0, path[k].0)),
    decreases path.len(),
{
    if path.len() >= 2 {
        let init = path.drop_last();
        lemma_learned_edges_of_pairs(client, init);
        let pre = path_edges(client, init);
        let k0 = path.len() - 2;
        let last = pair_edges(client, path[k0], path.last());
        assert(path_edges(client, path) == pre + last);
        assert(path.last() == path[k0 + 1]);
        lemma_pair_edges(client, path[k0], path[k0 + 1]);
        assert forall|k: int|
            0 <= k < path.len() - 1 && learns_forward(client, #[trigger] path[k], path[k + 1]) implies path_edges(
                client,
                path,
            ).contains((path[k].0, path[k + 1].0)) by {
            if k < k0 {
                assert(init[k] == path[k] && init[k + 1] == path[k + 1]);
            }
            lemma_concat_contains(pre, last, (path[k].0, path[k + 1].0));
        }
        assert forall|k: int|
            0 <= k < path.len() - 1 && learns_backward(client, #[trigger] path[k], path[k + 1]) implies path_edges(
                client,
                path,
            ).contains((path[k + 1].0, path[k].0)) by {
            if k < k0 {
                assert(init[k] == path[k] && init[k + 1] == path[k + 1]);
            }
            lemma_concat_contains(pre, last, (path[k + 1].0, path[k].0));
        }
    }
}

/// After reading a path trace, each node of the trace after the first has
/// the kind it announces at its last occurrence, and a node that does not
/// occur there keeps what it had.
pub proof fn lemma_learned_kinds(
    nodes: Map<NodeId, GraphNodeType>,
    counters: Map<NodeId, Counter>,
    path: Seq<(NodeId, NodeType)>,
)
    ensures
        forall|k: int|
            1 <= k < path.len() && (forall|j: int| k < j < path.len() ==> path[j].0 != path[k].0) ==> {
                &&& learn_path(nodes, counters, path).0.contains_key(#[trigger] path[k].0)
                &&& learn_path(nodes, counters, path).0[path[k].0] == graph_type_of_node(path[k].1)
            },
        forall|n: NodeId|
            (forall|j: int| 1 <= j < path.len() ==> path[j].0 != n) ==> {
                &&& #[trigger] learn_path(nodes, counters, path).0.contains_key(n) == nodes.contains_key(n)
                &&& nodes.contains_key(n) ==> learn_path(nodes, counters, path).0[n] == nodes[n]
            },
    decreases path.len(),
{
    if path.len() >= 2 {
        let init = path.drop_last();
        lemma_learned_kinds(nodes, counters, init);
        let n0 = learn_path(nodes, counters, init).0;
        let res = learn_path(nodes, counters, path).0;
        let x = path.last();
        assert(res == n0.insert(x.0, graph_type_of_node(x.1)));
        assert forall|k: int|
            1 <= k < path.len() && (forall|j: int| k < j < path.len() ==> path[j].0 != path[k].0) implies {
                &&& res.contains_key(#[trigger] path[k].0)
                &&& res[path[k].0] == graph_type_of_node(path[k].1)
            } by {
            if k < path.len() - 1 {
                assert(path[path.len() - 1].0 != path[k].0);
                assert(init[k] == path[k]);
                assert forall|j: int| k < j < init.len() implies init[j].0 != init[k].0 by {
                    assert(init[j] == path[j]);
                }
            } else {
                assert(path[k] == x);
            }
        }
        assert forall|n: NodeId| (forall|j: int| 1 <= j < path.len() ==> path[j].0 != n) implies {
            &&& #[trigger] res.contains_key(n) == nodes.contains_key(n)
            &&& nodes.contains_key(n) ==> res[n] == nodes[n]
        } by {
            assert(path[path.len() - 1].0 != n);
            assert forall|j: int| 1 <= j < init.len() implies init[j].0 != n by {
                assert(init[j] == path[j]);
            }
        }
    }
}

/// Every drone known in `nodes` gets counters, starting at zero.
pub open spec fn with_drone_counters(nodes: Map<NodeId, GraphNodeType>, counters: Map<NodeId, Counter>) -> Map<
    NodeId,
    Counter,
> {
    Map::new(
        |k: NodeId| counters.contains_key(k) || (nodes.contains_key(k) && nodes[k] == GraphNodeType::Drone),
        |k: NodeId|
            if counters.contains_key(k) {
                counters[k]
            } else {
                (0u64, 0u64)
            },
    )
}

/// The node kinds and counters after reading a path trace: each node after
/// the first gets the kind it announces, and then every known drone gets
/// counters.
pub open spec fn learn_path(
    nodes: Map<NodeId, GraphNodeType>,
    counters: Map<NodeId, Counter>,
    path: Seq<(NodeId, NodeType)>,
) -> (Map<NodeId, GraphNodeType>, Map<NodeId, Counter>)
    decreases path.len(),
{
    if path.len() < 2 {
        (nodes, counters)
    } else {
        let (n0, c0) = learn_path(nodes, counters, path.drop_last());
        let n1 = n0.insert(path.last().0, graph_type_of_node(path.last().1));
        (n1, with_drone_counters(n1, c0))
    }
}

/// The kind of server that a node kind stands for, if it is a known server.
pub open spec fn server_kind(t: GraphNodeType) -> Option<ServerType> {
    match t {
        GraphNodeType::ChatServer => Some(ServerType::ChatServer),
        GraphNodeType::MediaServer => Some(ServerType::MediaServer),
        GraphNodeType::TextServer => Some(ServerType::FileServer),
        _ => None,
    }
}

/// The known servers of `nodes`, in order, with their kinds.
pub open spec fn typed_servers(nodes: Seq<(NodeId, GraphNodeType)>) -> Seq<(NodeId, ServerType)>
    decreases nodes.len(),
{
    if nodes.len() == 0 {
        Seq::empty()
    } else {
        let rest = typed_servers(nodes.drop_last());
        match server_kind(nodes.last().1) {
            Some(k) => rest.push((nodes.last().0, k)),
            None => rest,
        }
    }
}

/// The nodes of `nodes` of kind `kind`, in order.
pub open spec fn ids_of_kind(nodes: Seq<(NodeId, GraphNodeType)>, kind: GraphNodeType) -> Seq<NodeId>
    decreases nodes.len(),
{
    if nodes.len() == 0 {
        Seq::empty()
    } else {
        let rest = ids_of_kind(nodes.drop_last(), kind);
        if nodes.last().1 == kind {
            rest.push(nodes.last().0)
        } else {
            rest
        }
    }
}

/// Registers the media that a text file needs: each one that is neither
/// stored nor already tracked waits for the media servers `servers` to list
/// their files. Also tells whether any was registered.
pub open spec fn register_media(
    sources: Map<Seq<char>, MediaSourceView>,
    stored: Map<Seq<char>, Seq<u8>>,
    media: Seq<Seq<char>>,
    servers: Seq<NodeId>,
) -> (Map<Seq<char>, MediaSourceView>, bool)
    decreases media.len(),
{
    if media.len() == 0 {
        (sources, false)
    } else {
        let (m0, r0) = register_media(sources, stored, media.drop_last(), servers);
        let x = media.last();
        if stored.contains_key(x) || m0.contains_key(x) {
            (m0, r0)
        } else {
            (m0.insert(x, MediaSourceView::RequestsLeft(servers)), true)
        }
    }
}

/// The source of a media file after media server `s` listed its files: `s`
/// no longer has to answer, and when no server is left the media has no owner.
pub open spec fn strike_server(v: MediaSourceView, s: NodeId) -> MediaSourceView {
    match v {
        MediaSourceView::RequestsLeft(l) => {
            if index_or_len(l, s) < l.len() {
                let l2 = l.remove(index_or_len(l, s));
                if l2.len() == 0 {
                    MediaSourceView::Owner(None)
                } else {
                    MediaSourceView::RequestsLeft(l2)
                }
            } else {
                v
            }
        },
        MediaSourceView::Owner(o) => v,
    }
}

/// Whether the source of a media file names its owner.
pub open spec fn has_owner(sources: Map<Seq<char>, MediaSourceView>, f: Seq<char>) -> bool {
    sources.contains_key(f) && sources[f] matches MediaSourceView::Owner(Some(_))
}

/// Media server `server` owns each of `files` that a waiting text file
/// needs and that has no owner yet; those files are to be requested from it,
/// in order.
pub open spec fn assign_owners(
    sources: Map<Seq<char>, MediaSourceView>,
    needed: spec_fn(Seq<char>) -> bool,
    files: Seq<Seq<char>>,
    server: NodeId,
) -> (Map<Seq<char>, MediaSourceView>, Seq<Seq<char>>)
    decreases files.len(),
{
    if files.len() == 0 {
        (sources, Seq::empty())
    } else {
        let (m0, asked) = assign_owners(sources, needed, files.drop_last(), server);
        let f = files.last();
        if needed(f) && !has_owner(m0, f) {
            (m0.insert(f, MediaSourceView::Owner(Some(server))), asked.push(f))
        } else {
            (m0, asked)
        }
    }
}

/// Whether some waiting text file needs `f`.
pub open spec fn is_needed(text_media: Map<(NodeId, Seq<char>), Seq<Seq<char>>>, f: Seq<char>) -> bool {
    exists|k: (NodeId, Seq<char>)| #[trigger] text_media.contains_key(k) && text_media[k].contains(f)
}

/// A media file is settled when it is stored, or when its owner can no
/// longer be found (no source, or no server left to ask and none found).
pub open spec fn media_settled(
    stored: Map<Seq<char>, Seq<u8>>,
    sources: Map<Seq<char>, MediaSourceView>,
    m: Seq<char>,
) -> bool {
    stored.contains_key(m) || !sources.contains_key(m) || match sources[m] {
        MediaSourceView::RequestsLeft(l) => l.len() == 0,
        MediaSourceView::Owner(o) => o is None,
    }
}

/// Takes the media `list` out of the stored files (a missing one is
/// empty) and out of the media sources, giving their names and contents.
pub open spec fn collect_media(
    stored: Map<Seq<char>, Seq<u8>>,
    sources: Map<Seq<char>, MediaSourceView>,
    list: Seq<Seq<char>>,
) -> (Map<Seq<char>, Seq<u8>>, Map<Seq<char>, MediaSourceView>, Seq<(Seq<char>, Seq<u8>)>)
    decreases list.len(),
{
    if list.len() == 0 {
        (stored, sources, Seq::empty())
    } else {
        let (s0, m0, files) = collect_media(stored, sources, list.drop_last());
        let m = list.last();
        let content = if s0.contains_key(m) {
            s0[m]
        } else {
            Seq::empty()
        };
        (s0.remove(m), m0.remove(m), files.push((crate::utils::filename_of(m), content)))
    }
}

/// `index_or_len` finds the first occurrence of `p`, or runs off the end
/// when `p` does not occur.
pub proof fn lemma_index_or_len_found(hops: Seq<NodeId>, p: NodeId)
    ensures
        0 <= index_or_len(hops, p) <= hops.len(),
        index_or_len(hops, p) < hops.len() ==> hops[index_or_len(hops, p)] == p,
        forall|j: int| 0 <= j < index_or_len(hops, p) ==> hops[j] != p,
    decreases hops.len(),
{
    if hops.len() > 0 && hops[0] != p {
        lemma_index_or_len_found(hops.drop_first(), p);
        assert forall|j: int| 0 <= j < index_or_len(hops, p) implies hops[j] != p by {
            if j > 0 {
                assert(hops[j] == hops.drop_first()[j - 1]);
            }
        }
    }
}

/// A server struck off a list without repetitions no longer occurs in it.
pub proof fn lemma_strike_server_removes(v: MediaSourceView, s: NodeId)
    requires
        v matches MediaSourceView::RequestsLeft(l) ==> l.no_duplicates(),
    ensures
        strike_server(v, s) matches MediaSourceView::RequestsLeft(l2) ==> !l2.contains(s) && l2.no_duplicates(),
{
    if let MediaSourceView::RequestsLeft(l) = v {
        lemma_index_or_len_found(l, s);
        let i = index_or_len(l, s);
        if i < l.len() {
            let l2 = l.remove(i);
            assert forall|j: int| 0 <= j < l2.len() implies l2[j] != s by {
                let oj = if j < i { j } else { j + 1 };
                assert(l2[j] == l[oj]);
            }
            assert forall|a: int, b: int| 0 <= a < l2.len() && 0 <= b < l2.len() && a != b implies l2[a] != l2[b] by {
                let oa = if a < i { a } else { a + 1 };
                let ob = if b < i { b } else { b + 1 };
                assert(l2[a] == l[oa] && l2[b] == l[ob]);
            }
        }
    }
}

/// After `assign_owners`, each source is the one it had before or names
/// `server` as owner, and each file to be requested has `server` as owner.
pub proof fn lemma_assign_owners(
    sources: Map<Seq<char>, MediaSourceView>,
    needed: spec_fn(Seq<char>) -> bool,
    files: Seq<Seq<char>>,
    server: NodeId,
)
    ensures
        ({
            let (m, asked) = assign_owners(sources, needed, files, server);
            &&& forall|k: Seq<char>| #[trigger] m.contains_key(k) ==> (sources.contains_key(k) && m[k] == sources[k])
                || m[k] == MediaSourceView::Owner(Some(server))
            &&& forall|i: int| 0 <= i < asked.len() ==> #[trigger] m.contains_key(asked[i]) && m[asked[i]]
                == MediaSourceView::Owner(Some(server))
        }),
    decreases files.len(),
{
    if files.len() > 0 {
        lemma_assign_owners(sources, needed, files.drop_last(), server);
        let (m0, a0) = assign_owners(sources, needed, files.drop_last(), server);
        let f = files.last();
        if needed(f) && !has_owner(m0, f) {
            let m = m0.insert(f, MediaSourceView::Owner(Some(server)));
            let asked = a0.push(f);
            assert forall|i: int| 0 <= i < asked.len() implies #[trigger] m.contains_key(asked[i]) && m[asked[i]]
                == MediaSourceView::Owner(Some(server)) by {
                if i < a0.len() {
                    assert(asked[i] == a0[i]);
                }
            }
        }
    }
}

/// How many times `x` occurs in `s`.
pub open spec fn count_of(s: Seq<NodeId>, x: NodeId) -> nat
    decreases s.len(),
{
    if s.len() == 0 {
        0
    } else {
        count_of(s.drop_last(), x) + if s.last() == x {
            1nat
        } else {
            0nat
        }
    }
}

/// `a + n`, saturating at `u64::MAX`.
pub open spec fn sat_add(a: u64, n: nat) -> u64 {
    if a + n >= u64::MAX {
        u64::MAX
    } else {
        (a + n) as u64
    }
}

/// Counting the packets sent along `hops`: the drones with counters keep
/// them, each one's sent count grows by the number of times it occurs in
/// `hops` (saturating), and no lost count changes.
pub proof fn lemma_count_sent_all(counters: Map<NodeId, Counter>, hops: Seq<NodeId>)
    ensures
        forall|h: NodeId| #[trigger] count_sent_all(counters, hops).contains_key(h) == counters.contains_key(h),
        forall|h: NodeId|
            counters.contains_key(h) ==> #[trigger] count_sent_all(counters, hops)[h] == (
                sat_add(counters[h].0, count_of(hops, h)),
                counters[h].1,
            ),
    decreases hops.len(),
{
    if hops.len() > 0 {
        let init = hops.drop_last();
        let d = hops.last();
        lemma_count_sent_all(counters, init);
        let c0 = count_sent_all(counters, init);
        assert(count_sent_all(counters, hops) == count_sent(c0, d));
        assert forall|h: NodeId| #[trigger] count_sent_all(counters, hops).contains_key(h) == counters.contains_key(h) by {
            assert(c0.contains_key(h) == counters.contains_key(h));
        }
        assert forall|h: NodeId| counters.contains_key(h) implies #[trigger] count_sent_all(counters, hops)[h] == (
            sat_add(counters[h].0, count_of(hops, h)),
            counters[h].1,
        ) by {
            assert(c0.contains_key(h));
            assert(c0[h] == (sat_add(counters[h].0, count_of(init, h)), counters[h].1));
            if h == d {
                assert(count_of(hops, h) == count_of(init, h) + 1);
            } else {
                assert(count_of(hops, h) == count_of(init, h));
            }
        }
    }
}

/// After a packet that went along `hops` was dropped by `p`: the drones with
/// counters keep them; `p` counts one more packet sent and one more lost;
/// every other drone counts one more packet sent for each time it occurs
/// in `hops` before the first `p` (saturating), and no other lost count
/// changes.
pub proof fn lemma_counters_after_drop(counters: Map<NodeId, Counter>, hops: Seq<NodeId>, p: NodeId)
    ensures
        forall|h: NodeId| #[trigger] counters_after_drop(counters, hops, p).contains_key(h) == counters.contains_key(h),
        counters.contains_key(p) ==> counters_after_drop(counters, hops, p)[p] == (
            sat_inc(counters[p].0),
            sat_inc(counters[p].1),
        ),
        forall|h: NodeId|
            counters.contains_key(h) && h != p ==> #[trigger] counters_after_drop(counters, hops, p)[h] == (
                sat_add(counters[h].0, count_of(hops.take(index_or_len(hops, p)), h)),
                counters[h].1,
            ),
{
    let before = hops.take(index_or_len(hops, p));
    lemma_index_or_len_found(hops, p);
    lemma_count_sent_all(counters, before);
    lemma_count_absent(before, p);
}

/// A value that does not occur is counted zero times.
pub proof fn lemma_count_absent(s: Seq<NodeId>, x: NodeId)
    requires
        forall|j: int| 0 <= j < s.len() ==> s[j] != x,
    ensures
        count_of(s, x) == 0,
    decreases s.len(),
{
    if s.len() > 0 {
        assert(s.last() == s[s.len() - 1]);
        lemma_count_absent(s.drop_last(), x);
    }
}

/// When no media is listed twice, collecting them gives, in order, each
/// media's file name with its stored content (empty when it is not stored),
/// and takes exactly the listed media out of the stored files and the media
/// sources.
pub proof fn lemma_collect_media(
    stored: Map<Seq<char>, Seq<u8>>,
    sources: Map<Seq<char>, MediaSourceView>,
    list: Seq<Seq<char>>,
)
    requires
        list.no_duplicates(),
    ensures
        ({
            let (stored2, sources2, files) = collect_media(stored, sources, list);
            &&& files.len() == list.len()
            &&& forall|i: int| 0 <= i < list.len() ==> #[trigger] files[i] == (
                crate::utils::filename_of(list[i]),
                if stored.contains_key(list[i]) {
                    stored[list[i]]
                } else {
                    Seq::<u8>::empty()
                },
            )
            &&& forall|m: Seq<char>| #[trigger] stored2.contains_key(m) == (stored.contains_key(m) && !list.contains(m))
            &&& forall|m: Seq<char>| #[trigger] stored2.contains_key(m) ==> stored2[m] == stored[m]
            &&& forall|m: Seq<char>| #[trigger] sources2.contains_key(m) == (sources.contains_key(m) && !list.contains(m))
            &&& forall|m: Seq<char>| #[trigger] sources2.contains_key(m) ==> sources2[m] == sources[m]
        }),
    decreases list.len(),
{
    if list.len() > 0 {
        let init = list.drop_last();
        let m = list.last();
        assert(init.no_duplicates()) by {
            assert forall|a: int, b: int| 0 <= a < init.len() && 0 <= b < init.len() && a != b implies init[a] != init[b] by {
                assert(init[a] == list[a] && init[b] == list[b]);
            }
        }
        lemma_collect_media(stored, sources, init);
        let (s0, m0, files0) = collect_media(stored, sources, init);
        let (stored2, sources2, files) = collect_media(stored, sources, list);
        assert(!init.contains(m)) by {
            if init.contains(m) {
                let j = choose|j: int| 0 <= j < init.len() && init[j] == m;
                assert(list[j] == m && list[list.len() - 1] == m);
            }
        }
        assert forall|x: Seq<char>| #[trigger] list.contains(x) == (init.contains(x) || x == m) by {
            if list.contains(x) {
                let j = choose|j: int| 0 <= j < list.len() && list[j] == x;
                if j < init.len() {
                    assert(init[j] == x);
                }
            }
            if init.contains(x) {
                let j = choose|j: int| 0 <= j < init.len() && init[j] == x;
                assert(list[j] == x);
            }
            if x == m {
                assert(list[list.len() - 1] == x);
            }
        }
        assert forall|i: int| 0 <= i < list.len() implies #[trigger] files[i] == (
            crate::utils::filename_of(list[i]),
            if stored.contains_key(list[i]) {
                stored[list[i]]
            } else {
                Seq::<u8>::empty()
            },
        ) by {
            if i < init.len() {
                assert(files[i] == files0[i]);
                assert(list[i] == init[i]);
            } else {
                assert(list[i] == m);
                assert(s0.contains_key(m) == stored.contains_key(m));
            }
        }
    }
}

/// Registering the media of a text file asks the media servers for their
/// lists exactly when some media is neither stored nor already tracked;
/// each such media then waits for all of `servers`, and every other source
/// stays as it was.
pub proof fn lemma_register_media(
    sources: Map<Seq<char>, MediaSourceView>,
    stored: Map<Seq<char>, Seq<u8>>,
    media: Seq<Seq<char>>,
    servers: Seq<NodeId>,
)
    ensures
        register_media(sources, stored, media, servers).1 == exists|x: Seq<char>|
            #[trigger] media.contains(x) && !stored.contains_key(x) && !sources.contains_key(x),
        forall|x: Seq<char>|
            media.contains(x) && !stored.contains_key(x) && !sources.contains_key(x) ==> {
                &&& #[trigger] register_media(sources, stored, media, servers).0.contains_key(x)
                &&& register_media(sources, stored, media, servers).0[x] == MediaSourceView::RequestsLeft(servers)
            },
        forall|x: Seq<char>|
            !(media.contains(x) && !stored.contains_key(x) && !sources.contains_key(x)) ==> {
                &&& #[trigger] register_media(sources, stored, media, servers).0.contains_key(x) == sources.contains_key(x)
                &&& sources.contains_key(x) ==> register_media(sources, stored, media, servers).0[x] == sources[x]
            },
    decreases media.len(),
{
    if media.len() > 0 {
        let init = media.drop_last();
        let y = media.last();
        lemma_register_media(sources, stored, init, servers);
        let (m0, r0) = register_media(sources, stored, init, servers);
        assert forall|x: Seq<char>| #[trigger] media.contains(x) == (init.contains(x) || x == y) by {
            if media.contains(x) {
                let j = choose|j: int| 0 <= j < media.len() && media[j] == x;
                if j < init.len() {
                    assert(init[j] == x);
                }
            }
            if init.contains(x) {
                let j = choose|j: int| 0 <= j < init.len() && init[j] == x;
                assert(media[j] == x);
            }
            if x == y {
                assert(media[media.len() - 1] == x);
            }
        }
        let fresh = |x: Seq<char>| !stored.contains_key(x) && !sources.contains_key(x);
        if exists|x: Seq<char>| #[trigger] media.contains(x) && !stored.contains_key(x) && !sources.contains_key(x) {
            let x = choose|x: Seq<char>| #[trigger] media.contains(x) && !stored.contains_key(x) && !sources.contains_key(x);
            if !init.contains(x) {
                assert(x == y);
                assert(!m0.contains_key(y));
            } else {
                assert(init.contains(x) && !stored.contains_key(x) && !sources.contains_key(x));
            }
        }
        if register_media(sources, stored, media, servers).1 {
            if !r0 {
                assert(!stored.contains_key(y) && !m0.contains_key(y));
                assert(media.contains(y));
            } else {
                let x = choose|x: Seq<char>| #[trigger] init.contains(x) && !stored.contains_key(x) && !sources.contains_key(x);
                assert(media.contains(x));
            }
        }
    }
}

/// The edge `e` joins the consecutive nodes `k` and `k + 1` of `path`, in
/// one direction or the other.
pub open spec fn is_trace_link(path: Seq<(NodeId, NodeType)>, k: int, e: (NodeId, NodeId)) -> bool {
    &&& 0 <= k < path.len() - 1
    &&& e == (path[k].0, path[k + 1].0) || e == (path[k + 1].0, path[k].0)
}

/// The edge `e` joins two consecutive nodes of `path`.
pub open spec fn joins_trace_neighbours(path: Seq<(NodeId, NodeType)>, e: (NodeId, NodeId)) -> bool {
    exists|k: int| is_trace_link(path, k, e)
}

/// Every edge learned from a path trace joins two consecutive nodes of the
/// trace, in one direction or the other, also where it touches the client.
pub proof fn lemma_learned_edges_are_trace_links(client: NodeId, path: Seq<(NodeId, NodeType)>)
    ensures
        forall|i: int|
            0 <= i < path_edges(client, path).len() ==> joins_trace_neighbours(
                path,
                #[trigger] path_edges(client, path)[i],
            ),
    decreases path.len(),
{
    if path.len() >= 2 {
        let init = path.drop_last();
        lemma_learned_edges_are_trace_links(client, init);
        let pre = path_edges(client, init);
        let k0 = path.len() - 2;
        let a = path[k0];
        let b = path.last();
        let last = pair_edges(client, a, b);
        assert(path_edges(client, path) == pre + last);
        assert(b == path[k0 + 1]);
        assert forall|i: int| 0 <= i < path_edges(client, path).len() implies joins_trace_neighbours(
            path,
            #[trigger] path_edges(client, path)[i],
        ) by {
            let e = path_edges(client, path)[i];
            if i < pre.len() {
                assert(e == pre[i]);
                assert(joins_trace_neighbours(init, pre[i]));
                let k = choose|k: int| is_trace_link(init, k, pre[i]);
                assert(init[k] == path[k] && init[k + 1] == path[k + 1]);
                assert(is_trace_link(path, k, e));
            } else {
                let j = i - pre.len();
                assert(e == last[j]);
                if a.0 == client || b.0 == client {
                    assert(last == seq![(a.0, b.0), (b.0, a.0)]);
                } else if a.1 == NodeType::Client || a.1 == NodeType::Server {
                    assert(last == seq![(b.0, a.0)]);
                } else if b.1 == NodeType::Client || b.1 == NodeType::Server {
                    assert(last == seq![(a.0, b.0)]);
                } else {
                    assert(last == seq![(a.0, b.0), (b.0, a.0)]);
                }
                assert(is_trace_link(path, k0, e));
            }
        }
    }
}

/// The servers reported with their kinds are exactly the nodes of the table
/// whose server kind is known, each with that kind: a text server as a file
/// server, a media server as a media server, a chat server as a chat server.
pub proof fn lemma_typed_servers(nodes: Seq<(NodeId, GraphNodeType)>)
    ensures
        forall|i: int|
            0 <= i < typed_servers(nodes).len() ==> exists|q: int|
                0 <= q < nodes.len() && nodes[q].0 == (#[trigger] typed_servers(nodes)[i]).0 && nodes[q].1
                    == graph_type_of_server(typed_servers(nodes)[i].1),
        forall|q: int|
            0 <= q < nodes.len() && (#[trigger] nodes[q].1 == GraphNodeType::TextServer || nodes[q].1
                == GraphNodeType::MediaServer || nodes[q].1 == GraphNodeType::ChatServer) ==> exists|i: int|
                0 <= i < typed_servers(nodes).len() && typed_servers(nodes)[i].0 == nodes[q].0
                    && graph_type_of_server(typed_servers(nodes)[i].1) == nodes[q].1,
    decreases nodes.len(),
{
    if nodes.len() > 0 {
        let init = nodes.drop_last();
        lemma_typed_servers(init);
        let rest = typed_servers(init);
        let r = typed_servers(nodes);
        let l = nodes.last();
        assert(l == nodes[nodes.len() - 1]);
        assert forall|i: int| 0 <= i < r.len() implies exists|q: int|
            0 <= q < nodes.len() && nodes[q].0 == (#[trigger] r[i]).0 && nodes[q].1 == graph_type_of_server(r[i].1) by {
            if i < rest.len() {
                assert(r[i] == rest[i]);
                let q = choose|q: int|
                    0 <= q < init.len() && init[q].0 == (#[trigger] rest[i]).0 && init[q].1 == graph_type_of_server(
                        rest[i].1,
                    );
                assert(nodes[q] == init[q]);
            } else {
                assert(r[i].0 == l.0);
                assert(graph_type_of_server(r[i].1) == l.1);
            }
        }
        assert forall|q: int|
            0 <= q < nodes.len() && (#[trigger] nodes[q].1 == GraphNodeType::TextServer || nodes[q].1
                == GraphNodeType::MediaServer || nodes[q].1 == GraphNodeType::ChatServer) implies exists|i: int|
            0 <= i < r.len() && r[i].0 == nodes[q].0 && graph_type_of_server(r[i].1) == nodes[q].1 by {
            if q < init.len() {
                assert(init[q] == nodes[q]);
                let i = choose|i: int|
                    0 <= i < rest.len() && rest[i].0 == init[q].0 && graph_type_of_server(rest[i].1) == init[q].1;
                assert(r[i] == rest[i]);
            } else {
                let i = r.len() - 1;
                assert(r[i].0 == nodes[q].0);
            }
        }
    }
}

/// The nodes listed as being of kind `kind` are exactly the nodes of the
/// table recorded with that kind, in table order.
pub proof fn lemma_ids_of_kind(nodes: Seq<(NodeId, GraphNodeType)>, kind: GraphNodeType)
    ensures
        forall|i: int|
            0 <= i < ids_of_kind(nodes, kind).len() ==> exists|q: int|
                0 <= q < nodes.len() && nodes[q] == (#[trigger] ids_of_kind(nodes, kind)[i], kind),
        forall|q: int| 0 <= q < nodes.len() && (#[trigger] nodes[q]).1 == kind ==> ids_of_kind(nodes, kind).contains(nodes[q].0),
        ids_of_kind(nodes, kind).len() <= nodes.len(),
    decreases nodes.len(),
{
    if nodes.len() > 0 {
        let init = nodes.drop_last();
        lemma_ids_of_kind(init, kind);
        let rest = ids_of_kind(init, kind);
        let r = ids_of_kind(nodes, kind);
        assert(nodes.last() == nodes[nodes.len() - 1]);
        assert forall|i: int| 0 <= i < r.len() implies exists|q: int|
            0 <= q < nodes.len() && nodes[q] == (#[trigger] r[i], kind) by {
            if i < rest.len() {
                assert(r[i] == rest[i]);
                let q = choose|q: int| 0 <= q < init.len() && init[q] == (#[trigger] rest[i], kind);
                assert(nodes[q] == init[q]);
            } else {
                assert(nodes[nodes.len() - 1] == (r[i], kind));
            }
        }
        assert forall|q: int| 0 <= q < nodes.len() && (#[trigger] nodes[q]).1 == kind implies r.contains(nodes[q].0) by {
            if q < init.len() {
                assert(init[q] == nodes[q]);
                assert(rest.contains(init[q].0));
                let j = choose|j: int| 0 <= j < rest.len() && rest[j] == init[q].0;
                assert(r[j] == rest[j]);
            } else {
                assert(r[r.len() - 1] == nodes[q].0);
            }
        }
    }
}

/// Applying `f` to the values commutes with inserting.
pub proof fn lemma_map_values_insert<K, V, W>(m: Map<K, V>, k: K, v: V, f: spec_fn(V) -> W)
    ensures
        m.insert(k, v).map_values(f) == m.map_values(f).insert(k, f(v)),
{
    assert(m.insert(k, v).map_values(f) =~= m.map_values(f).insert(k, f(v)));
}

/// Applying `f` to the values commutes with removing.
pub proof fn lemma_map_values_remove<K, V, W>(m: Map<K, V>, k: K, f: spec_fn(V) -> W)
    ensures
        m.remove(k).map_values(f) == m.map_values(f).remove(k),
{
    assert(m.remove(k).map_values(f) =~= m.map_values(f).remove(k));
}

} // verus!
