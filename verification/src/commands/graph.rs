//! The commit graph: every commit that can be reached from a set of
//! starting addresses by following parents.

use crate::bytes::{bytes_eq, distinct_keys, lemma_found_bound, position_of};
use crate::commands::log::{
    addresses_of, load_commit, read_commit, records_view, CommitRecord, RecordView,
};
use crate::error::RitError;
use crate::objects::commit::CommitView;
use crate::store::ObjectStore;
use crate::text::texts_view;
use vstd::prelude::*;
use vstd::string::*;
use vstd::utf8::*;

verus! {

/// Whether the object at `address` reads as a commit.
pub open spec fn is_commit_at(store: Map<Seq<u8>, Seq<u8>>, address: Seq<u8>) -> bool {
    read_commit(store, address) matches Ok(Some(_))
}

/// The parents of the commit at `address`.
pub open spec fn parents_at(store: Map<Seq<u8>, Seq<u8>>, address: Seq<u8>) -> Seq<Seq<u8>> {
    match read_commit(store, address) {
        Ok(Some(c)) => c.parents,
        _ => Seq::empty(),
    }
}

/// Whether `a` is one of `list[from..]`.
pub open spec fn listed(list: Seq<Seq<u8>>, from: int, a: Seq<u8>) -> bool {
    exists|j: int| from <= j < list.len() && 0 <= j && #[trigger] list[j] == a
}

/// Whether `path` leads from one of `starts` along parent links: each
/// address but the last is a commit, and the next is one of its parents.
pub open spec fn is_path(
    store: Map<Seq<u8>, Seq<u8>>,
    starts: Seq<Seq<u8>>,
    path: Seq<Seq<u8>>,
) -> bool {
    &&& path.len() > 0
    &&& listed(starts, 0, path[0])
    &&& forall|i: int|
        0 <= i < path.len() - 1 ==> listed(parents_at(store, #[trigger] path[i]), 0, path[i + 1])
}

/// Whether `a` can be reached from one of `starts` by following parents.
pub open spec fn reachable(store: Map<Seq<u8>, Seq<u8>>, starts: Seq<Seq<u8>>, a: Seq<u8>) -> bool {
    exists|path: Seq<Seq<u8>>| #[trigger] is_path(store, starts, path) && path.last() == a
}

/// A start is reachable.
pub proof fn lemma_start_reachable(store: Map<Seq<u8>, Seq<u8>>, starts: Seq<Seq<u8>>, k: int)
    requires
        0 <= k < starts.len(),
    ensures
        reachable(store, starts, starts[k]),
{
    let path = seq![starts[k]];
    assert(path[0] == starts[k]);
    assert(is_path(store, starts, path));
    assert(path.last() == starts[k]);
}

/// A parent of a reachable commit is reachable.
pub proof fn lemma_parent_reachable(
    store: Map<Seq<u8>, Seq<u8>>,
    starts: Seq<Seq<u8>>,
    a: Seq<u8>,
    p: int,
)
    requires
        reachable(store, starts, a),
        0 <= p < parents_at(store, a).len(),
    ensures
        reachable(store, starts, parents_at(store, a)[p]),
{
    let path = choose|path: Seq<Seq<u8>>| #[trigger] is_path(store, starts, path) && path.last() == a;
    let parent = parents_at(store, a)[p];
    let longer = path.push(parent);
    assert(longer[0] == path[0]);
    assert forall|i: int| 0 <= i < longer.len() - 1 implies listed(
        parents_at(store, #[trigger] longer[i]),
        0,
        longer[i + 1],
    ) by {
        if i < path.len() - 1 {
            assert(longer[i] == path[i]);
            assert(longer[i + 1] == path[i + 1]);
        } else {
            assert(longer[i] == a);
            assert(parents_at(store, a)[p] == longer[i + 1]);
        }
    }
    assert(is_path(store, starts, longer));
    assert(longer.last() == parent);
}

/// Whether `nodes` is the commit graph of `starts`: each node is the commit
/// stored at its address and can be reached from a start; no address
/// occurs twice; every start that is a commit is a node; and every parent
/// of a node that is a commit is a node.
pub open spec fn is_graph(
    store: Map<Seq<u8>, Seq<u8>>,
    starts: Seq<Seq<u8>>,
    nodes: Seq<RecordView>,
) -> bool {
    &&& distinct_keys(addresses_of(nodes))
    &&& forall|i: int|
        0 <= i < nodes.len() ==> read_commit(store, (#[trigger] nodes[i]).address) == Ok::<
            Option<CommitView>,
            RitError,
        >(Some(nodes[i].commit))
    &&& forall|i: int| 0 <= i < nodes.len() ==> reachable(store, starts, (#[trigger] nodes[i]).address)
    &&& forall|k: int|
        0 <= k < starts.len() && is_commit_at(store, #[trigger] starts[k]) ==> listed(
            addresses_of(nodes),
            0,
            starts[k],
        )
    &&& forall|i: int, p: int|
        0 <= i < nodes.len() && 0 <= p < nodes[i].commit.parents.len() && is_commit_at(
            store,
            #[trigger] nodes[i].commit.parents[p],
        ) ==> listed(addresses_of(nodes), 0, nodes[i].commit.parents[p])
}

/// Whether `address` is one of `list`.
pub fn is_listed(list: &Vec<String>, address: &str) -> (yes: bool)
    ensures
        yes == listed(texts_view(list@), 0, address.spec_bytes()),
{
    let ghost views = texts_view(list@);
    let mut i: usize = 0;
    while i < list.len()
        invariant
            i <= list@.len(),
            views == texts_view(list@),
            forall|k: int| 0 <= k < i ==> #[trigger] views[k] != address.spec_bytes(),
        decreases list@.len() - i,
    {
        if bytes_eq(list[i].as_str().as_bytes(), address.as_bytes()) {
            assert(views[i as int] == address.spec_bytes());
            return true;
        }
        i += 1;
    }
    false
}

/// Collects every commit that can be reached from `starts` by following
/// all parents, each once. Addresses that do not read as a commit are
/// passed over.
pub fn collect_all_commits(store: &ObjectStore, starts: &Vec<String>) -> (nodes: Vec<CommitRecord>)
    ensures
        is_graph(store@, texts_view(starts@), records_view(nodes@)),
{
    let ghost map = store@;
    let ghost seeds = texts_view(starts@);
    let mut nodes: Vec<CommitRecord> = Vec::new();
    let mut seen: Vec<String> = Vec::new();
    let mut queue: Vec<String> = Vec::new();
    let mut s: usize = 0;
    while s < starts.len()
        invariant
            s <= starts@.len(),
            seeds == texts_view(starts@),
            texts_view(queue@) == seeds.take(s as int),
        decreases starts@.len() - s,
    {
        let ghost before = texts_view(queue@);
        queue.push(starts[s].clone());
        assert(texts_view(queue@) =~= before.push(seeds[s as int]));
        assert(before.push(seeds[s as int]) =~= seeds.take(s + 1));
        s += 1;
    }
    let mut head: usize = 0;
    proof {
        assert(seeds.take(s as int) =~= seeds);
        assert(records_view(nodes@) =~= Seq::<RecordView>::empty());
        assert forall|j: int| 0 <= j < queue@.len() implies reachable(
            map,
            seeds,
            #[trigger] texts_view(queue@)[j],
        ) by {
            lemma_start_reachable(map, seeds, j);
        }
    }
    loop
        invariant_except_break
            map == store@,
            seeds == texts_view(starts@),
            head <= queue@.len(),
            distinct_keys(addresses_of(records_view(nodes@))),
            forall|i: int|
                0 <= i < nodes@.len() ==> read_commit(
                    map,
                    (#[trigger] records_view(nodes@)[i]).address,
                ) == Ok::<Option<CommitView>, RitError>(Some(records_view(nodes@)[i].commit)),
            forall|i: int|
                0 <= i < nodes@.len() ==> reachable(
                    map,
                    seeds,
                    (#[trigger] records_view(nodes@)[i]).address,
                ),
            forall|i: int|
                0 <= i < nodes@.len() ==> listed(
                    texts_view(seen@),
                    0,
                    (#[trigger] records_view(nodes@)[i]).address,
                ),
            forall|j: int|
                0 <= j < seen@.len() && is_commit_at(map, #[trigger] texts_view(seen@)[j])
                    ==> listed(addresses_of(records_view(nodes@)), 0, texts_view(seen@)[j]),
            forall|k: int|
                0 <= k < seeds.len() ==> listed(texts_view(seen@), 0, #[trigger] seeds[k]) || listed(
                    texts_view(queue@),
                    head as int,
                    seeds[k],
                ),
            forall|i: int, p: int|
                0 <= i < nodes@.len() && 0 <= p < records_view(nodes@)[i].commit.parents.len()
                    ==> listed(
                    texts_view(seen@),
                    0,
                    #[trigger] records_view(nodes@)[i].commit.parents[p],
                ) || listed(
                    texts_view(queue@),
                    head as int,
                    records_view(nodes@)[i].commit.parents[p],
                ),
            forall|j: int|
                head <= j < queue@.len() ==> reachable(map, seeds, #[trigger] texts_view(queue@)[j]),
            nodes@.len() <= store.objects@.len(),
        ensures
            is_graph(map, seeds, records_view(nodes@)),
        decreases store.objects@.len() - nodes@.len(), queue@.len() - head,
    {
        let ghost views = records_view(nodes@);
        let ghost seen_before = texts_view(seen@);
        let ghost queue_before = texts_view(queue@);
        if head == queue.len() {
            proof {
                assert forall|k: int|
                    0 <= k < seeds.len() && is_commit_at(map, #[trigger] seeds[k]) implies listed(
                    addresses_of(views),
                    0,
                    seeds[k],
                ) by {
                    assert(listed(seen_before, 0, seeds[k]));
                    let j = choose|j: int| 0 <= j < seen_before.len() && seen_before[j] == seeds[k];
                    assert(is_commit_at(map, seen_before[j]));
                }
                assert forall|i: int, p: int|
                    0 <= i < views.len() && 0 <= p < views[i].commit.parents.len() && is_commit_at(
                        map,
                        #[trigger] views[i].commit.parents[p],
                    ) implies listed(addresses_of(views), 0, views[i].commit.parents[p]) by {
                    let parent = views[i].commit.parents[p];
                    assert(listed(seen_before, 0, parent));
                    let j = choose|j: int| 0 <= j < seen_before.len() && seen_before[j] == parent;
                    assert(is_commit_at(map, seen_before[j]));
                }
            }
            break;
        }
        let address = queue[head].clone();
        let ghost a = encode_utf8(address@);
        assert(a == queue_before[head as int]);
        head += 1;
        proof {
            assert forall|x: Seq<u8>| listed(queue_before, head - 1, x) implies listed(
                queue_before,
                head as int,
                x,
            ) || x == a by {
                let j = choose|j: int| head - 1 <= j < queue_before.len() && queue_before[j] == x;
                if j >= head {
                    assert(listed(queue_before, head as int, x));
                }
            }
        }
        if !is_listed(&seen, address.as_str()) {
            seen.push(address.clone());
            let ghost seen_now = texts_view(seen@);
            proof {
                assert(seen_now =~= seen_before.push(a));
                assert(seen_now[seen_before.len() as int] == a);
                assert forall|x: Seq<u8>| listed(seen_before, 0, x) implies listed(seen_now, 0, x) by {
                    let j = choose|j: int| 0 <= j < seen_before.len() && seen_before[j] == x;
                    assert(seen_now[j] == x);
                }
                assert(listed(seen_now, 0, a));
            }
            match load_commit(store, address.as_str()) {
                Ok(Some(commit)) => {
                    let ghost c = commit@;
                    assert(parents_at(map, a) == c.parents);
                    let mut p: usize = 0;
                    while p < commit.parents.len()
                        invariant
                            p <= commit.parents@.len(),
                            c == commit@,
                            head <= queue@.len(),
                            queue_before.len() <= queue@.len(),
                            forall|j: int|
                                0 <= j < queue_before.len() ==> #[trigger] texts_view(queue@)[j]
                                    == queue_before[j],
                            seen_now == texts_view(seen@),
                            parents_at(map, a) == c.parents,
                            reachable(map, seeds, a),
                            forall|j: int|
                                head <= j < queue@.len() ==> reachable(
                                    map,
                                    seeds,
                                    #[trigger] texts_view(queue@)[j],
                                ),
                            forall|q: int|
                                0 <= q < p ==> listed(seen_now, 0, #[trigger] c.parents[q]) || listed(
                                    texts_view(queue@),
                                    head as int,
                                    c.parents[q],
                                ),
                        decreases commit.parents@.len() - p,
                    {
                        let ghost parent = c.parents[p as int];
                        assert(parent == encode_utf8(commit.parents@[p as int]@));
                        let ghost queue_then = texts_view(queue@);
                        if !is_listed(&seen, commit.parents[p].as_str()) {
                            queue.push(commit.parents[p].clone());
                            proof {
                                let queue_now = texts_view(queue@);
                                assert(queue_now =~= queue_then.push(parent));
                                lemma_parent_reachable(map, seeds, a, p as int);
                                assert forall|x: Seq<u8>|
                                    listed(queue_then, head as int, x) implies listed(
                                    queue_now,
                                    head as int,
                                    x,
                                ) by {
                                    let j = choose|j: int|
                                        head <= j < queue_then.len() && queue_then[j] == x;
                                    assert(queue_now[j] == x);
                                }
                                assert(queue_now[queue_then.len() as int] == parent);
                                assert(listed(queue_now, head as int, parent));
                            }
                        }
                        p += 1;
                    }
                    let record = CommitRecord { address, commit };
                    let ghost longer = views.push(record@);
                    let ghost queue_now = texts_view(queue@);
                    proof {
                        assert forall|x: Seq<u8>| listed(queue_before, head as int, x) implies listed(
                            queue_now,
                            head as int,
                            x,
                        ) by {
                            let j = choose|j: int|
                                head <= j < queue_before.len() && queue_before[j] == x;
                            assert(queue_now[j] == x);
                        }
                        assert(!listed(addresses_of(views), 0, a)) by {
                            if listed(addresses_of(views), 0, a) {
                                let j = choose|j: int|
                                    0 <= j < views.len() && addresses_of(views)[j] == a;
                                assert(listed(seen_before, 0, views[j].address));
                            }
                        }
                        assert(addresses_of(longer) =~= addresses_of(views).push(a));
                        assert(distinct_keys(addresses_of(longer))) by {
                            assert forall|i: int, j: int|
                                0 <= i < j < longer.len() implies #[trigger] addresses_of(longer)[i]
                                != #[trigger] addresses_of(longer)[j] by {
                                if j < views.len() {
                                    assert(addresses_of(views)[i] != addresses_of(views)[j]);
                                } else {
                                    assert(addresses_of(views)[i] == views[i].address);
                                }
                            }
                        }
                        assert forall|i: int| 0 <= i < longer.len() implies position_of(
                            store.keys(),
                            #[trigger] addresses_of(longer)[i],
                        ) < store.keys().len() by {
                            if i < views.len() {
                                assert(longer[i] == views[i]);
                            }
                            assert(read_commit(map, longer[i].address) is Ok);
                            assert(map.contains_key(longer[i].address));
                        }
                        lemma_found_bound(store.keys(), addresses_of(longer));
                        assert forall|x: Seq<u8>|
                            listed(addresses_of(views), 0, x) implies listed(
                            addresses_of(longer),
                            0,
                            x,
                        ) by {
                            let j = choose|j: int|
                                0 <= j < views.len() && addresses_of(views)[j] == x;
                            assert(addresses_of(longer)[j] == x);
                        }
                        assert(addresses_of(longer)[views.len() as int] == a);
                        assert(listed(addresses_of(longer), 0, a));
                    }
                    nodes.push(record);
                    proof {
                        assert(records_view(nodes@) =~= longer);
                        assert forall|i: int, q: int|
                            0 <= i < longer.len() && 0 <= q < longer[i].commit.parents.len() implies listed(
                            seen_now,
                            0,
                            #[trigger] longer[i].commit.parents[q],
                        ) || listed(queue_now, head as int, longer[i].commit.parents[q]) by {
                            if i < views.len() {
                                assert(longer[i] == views[i]);
                                let parent = views[i].commit.parents[q];
                                if listed(seen_before, 0, parent) {
                                } else {
                                    assert(listed(queue_before, head - 1, parent));
                                }
                            }
                        }
                        assert forall|k: int| 0 <= k < seeds.len() implies listed(
                            seen_now,
                            0,
                            #[trigger] seeds[k],
                        ) || listed(queue_now, head as int, seeds[k]) by {
                            if listed(seen_before, 0, seeds[k]) {
                            } else {
                                assert(listed(queue_before, head - 1, seeds[k]));
                            }
                        }
                        assert forall|j: int|
                            0 <= j < seen_now.len() && is_commit_at(
                                map,
                                #[trigger] seen_now[j],
                            ) implies listed(addresses_of(longer), 0, seen_now[j]) by {
                            if j < seen_before.len() {
                                assert(seen_now[j] == seen_before[j]);
                                assert(listed(addresses_of(views), 0, seen_before[j]));
                            }
                        }
                        assert forall|i: int| 0 <= i < longer.len() implies listed(
                            seen_now,
                            0,
                            (#[trigger] longer[i]).address,
                        ) by {
                            if i < views.len() {
                                assert(longer[i] == views[i]);
                                assert(listed(seen_before, 0, views[i].address));
                            }
                        }
                        assert forall|i: int| 0 <= i < longer.len() implies reachable(
                            map,
                            seeds,
                            (#[trigger] longer[i]).address,
                        ) && read_commit(map, longer[i].address) == Ok::<Option<CommitView>, RitError>(
                            Some(longer[i].commit),
                        ) by {
                            if i < views.len() {
                                assert(longer[i] == views[i]);
                            }
                        }
                    }
                },
                _ => {
                    proof {
                        assert(!is_commit_at(map, a));
                        assert forall|i: int, q: int|
                            0 <= i < views.len() && 0 <= q < views[i].commit.parents.len() implies listed(
                            seen_now,
                            0,
                            #[trigger] views[i].commit.parents[q],
                        ) || listed(queue_before, head as int, views[i].commit.parents[q]) by {
                            let parent = views[i].commit.parents[q];
                            if listed(seen_before, 0, parent) {
                            } else {
                                assert(listed(queue_before, head - 1, parent));
                            }
                        }
                        assert forall|k: int| 0 <= k < seeds.len() implies listed(
                            seen_now,
                            0,
                            #[trigger] seeds[k],
                        ) || listed(queue_before, head as int, seeds[k]) by {
                            if listed(seen_before, 0, seeds[k]) {
                            } else {
                                assert(listed(queue_before, head - 1, seeds[k]));
                            }
                        }
                        assert forall|j: int|
                            0 <= j < seen_now.len() && is_commit_at(
                                map,
                                #[trigger] seen_now[j],
                            ) implies listed(addresses_of(views), 0, seen_now[j]) by {
                            if j < seen_before.len() {
                                assert(seen_now[j] == seen_before[j]);
                            }
                        }
                        assert forall|i: int| 0 <= i < views.len() implies listed(
                            seen_now,
                            0,
                            (#[trigger] views[i]).address,
                        ) by {
                            assert(listed(seen_before, 0, views[i].address));
                        }
                    }
                },
            }
        } else {
            proof {
                assert(listed(seen_before, 0, a));
                assert forall|i: int, q: int|
                    0 <= i < views.len() && 0 <= q < views[i].commit.parents.len() implies listed(
                    seen_before,
                    0,
                    #[trigger] views[i].commit.parents[q],
                ) || listed(queue_before, head as int, views[i].commit.parents[q]) by {
                    let parent = views[i].commit.parents[q];
                    if listed(seen_before, 0, parent) {
                    } else {
                        assert(listed(queue_before, head - 1, parent));
                    }
                }
                assert forall|k: int| 0 <= k < seeds.len() implies listed(
                    seen_before,
                    0,
                    #[trigger] seeds[k],
                ) || listed(queue_before, head as int, seeds[k]) by {
                    if listed(seen_before, 0, seeds[k]) {
                    } else {
                        assert(listed(queue_before, head - 1, seeds[k]));
                    }
                }
            }
        }
    }
    nodes
}

} // verus!
