//! Which nodes of the cluster own a key.
//!
//! Every node is scored against a key, and the `replication` best scored nodes
//! own it (rendezvous hashing). A node that joins is only inserted into a key's
//! ranking, and a node that leaves is only taken out of it.
use vstd::arithmetic::div_mod::lemma_mod_multiples_vanish;
use vstd::arithmetic::div_mod::lemma_mul_mod_noop_left;
use vstd::arithmetic::div_mod::lemma_small_mod;
use vstd::prelude::*;

use crate::key::Key;
use crate::key::KeyView;
use crate::text::bytes_sort_before;
use crate::text::contains_str;
use crate::text::contains_text;
use crate::text::copy_texts;
use crate::text::lemma_sorts_before_irreflexive;
use crate::text::lemma_sorts_before_total;
use crate::text::lemma_sorts_before_transitive;
use crate::text::lemma_text_bytes_injective;
use crate::text::same_members;
use crate::text::sorts_before;
use crate::text::str_views;
use crate::text::text_bytes;
use crate::text::text_views;

verus! {

pub const HASH_OFFSET: u64 = 0xcbf2_9ce4_8422_2325;

pub const HASH_PRIME: u64 = 0x0000_0100_0000_01b3;

pub const MIX_FIRST: u64 = 0xff51_afd7_ed55_8ccd;

pub const MIX_SECOND: u64 = 0xc4ce_b9fe_1a85_ec53;

/// The 64-bit FNV-1a hash of a byte string, continued from `seed`.
pub open spec fn fnv1a(seed: u64, bytes: Seq<u8>) -> u64
    decreases bytes.len(),
{
    if bytes.len() == 0 {
        seed
    } else {
        (fnv1a(seed, bytes.drop_last()) ^ (bytes.last() as u64)).wrapping_mul(HASH_PRIME)
    }
}

/// Spreads a hash over all 64 bits.
pub open spec fn mixed(hash: u64) -> u64 {
    let first = (hash ^ (hash >> 33u64)).wrapping_mul(MIX_FIRST);
    let second = (first ^ (first >> 33u64)).wrapping_mul(MIX_SECOND);
    second ^ (second >> 33u64)
}

/// The bytes that route a key: its name, behind its namespace and a zero byte
/// if it has one.
pub open spec fn routing_bytes(key: KeyView) -> Seq<u8> {
    if key.namespace.len() == 0 {
        key.name
    } else {
        key.namespace.push(0) + key.name
    }
}

/// How a node scores for a key.
pub open spec fn score(node: Seq<char>, key: KeyView) -> u64 {
    mixed(fnv1a(HASH_OFFSET, text_bytes(node)) ^ fnv1a(HASH_OFFSET, routing_bytes(key)))
}

/// Whether `a` ranks above `b` for a key: by score, and by name where the
/// scores are the same.
pub open spec fn above(a: Seq<char>, b: Seq<char>, key: KeyView) -> bool {
    score(a, key) > score(b, key) || (score(a, key) == score(b, key) && sorts_before(
        text_bytes(a),
        text_bytes(b),
    ))
}

pub proof fn lemma_above_irreflexive(a: Seq<char>, key: KeyView)
    ensures
        !above(a, a, key),
{
    lemma_sorts_before_irreflexive(text_bytes(a));
}

pub proof fn lemma_above_transitive(a: Seq<char>, b: Seq<char>, c: Seq<char>, key: KeyView)
    requires
        above(a, b, key),
        above(b, c, key),
    ensures
        above(a, c, key),
{
    if score(a, key) == score(b, key) && score(b, key) == score(c, key) {
        lemma_sorts_before_transitive(text_bytes(a), text_bytes(b), text_bytes(c));
    }
}

pub proof fn lemma_above_total(a: Seq<char>, b: Seq<char>, key: KeyView)
    requires
        a != b,
    ensures
        above(a, b, key) || above(b, a, key),
{
    if text_bytes(a) == text_bytes(b) {
        lemma_text_bytes_injective(a, b);
    }
    lemma_sorts_before_total(text_bytes(a), text_bytes(b));
}

/// `ranking` with `node` put in front of everything it ranks above.
pub open spec fn insert_ranked(
    ranking: Seq<Seq<char>>,
    node: Seq<char>,
    key: KeyView,
) -> Seq<Seq<char>>
    decreases ranking.len(),
{
    if ranking.len() == 0 || above(ranking.last(), node, key) {
        ranking.push(node)
    } else {
        insert_ranked(ranking.drop_last(), node, key).push(ranking.last())
    }
}

/// The nodes from the one that scores best for a key to the one that scores
/// worst.
pub open spec fn ranking(nodes: Seq<Seq<char>>, key: KeyView) -> Seq<Seq<char>>
    decreases nodes.len(),
{
    if nodes.len() == 0 {
        Seq::empty()
    } else {
        insert_ranked(ranking(nodes.drop_last(), key), nodes.last(), key)
    }
}

/// The owners of a key, best first: the `replication` best ranked nodes, or
/// all of them if there are fewer.
pub open spec fn owners_of(
    nodes: Seq<Seq<char>>,
    key: KeyView,
    replication: nat,
) -> Seq<Seq<char>> {
    let ranked = ranking(nodes, key);
    ranked.take(
        if replication < ranked.len() {
            replication as int
        } else {
            ranked.len() as int
        },
    )
}

/// Whether `node` owns a key.
pub open spec fn owns(
    nodes: Seq<Seq<char>>,
    key: KeyView,
    node: Seq<char>,
    replication: nat,
) -> bool {
    owners_of(nodes, key, replication).contains(node)
}

/// Every node ranks above those behind it.
pub open spec fn in_rank_order(ranked: Seq<Seq<char>>, key: KeyView) -> bool {
    forall|i: int, j: int|
        0 <= i < j < ranked.len() ==> #[trigger] above(ranked[i], ranked[j], key)
}

/// A sequence that holds the nodes and holds them in rank order.
pub open spec fn is_ranking(
    ranked: Seq<Seq<char>>,
    nodes: Seq<Seq<char>>,
    key: KeyView,
) -> bool {
    ranked.len() == nodes.len() && same_members(ranked, nodes) && in_rank_order(ranked, key)
}

proof fn lemma_insert_ranked(ranked: Seq<Seq<char>>, node: Seq<char>, key: KeyView)
    requires
        in_rank_order(ranked, key),
        !ranked.contains(node),
    ensures
        in_rank_order(insert_ranked(ranked, node, key), key),
        insert_ranked(ranked, node, key).len() == ranked.len() + 1,
        forall|other: Seq<char>| #[trigger]
            insert_ranked(ranked, node, key).contains(other) <==> (ranked.contains(other) || other
                == node),
    decreases ranked.len(),
{
    let result = insert_ranked(ranked, node, key);
    if ranked.len() == 0 || above(ranked.last(), node, key) {
        assert forall|i: int, j: int| 0 <= i < j < result.len() implies #[trigger] above(
            result[i],
            result[j],
            key,
        ) by {
            if j == ranked.len() && i < ranked.len() - 1 {
                assert(above(ranked[i], ranked[ranked.len() - 1], key));
                lemma_above_transitive(ranked[i], ranked.last(), node, key);
            }
        }
        assert forall|other: Seq<char>| #[trigger] result.contains(other) <==> (ranked.contains(
            other,
        ) || other == node) by {
            if ranked.contains(other) {
                let i = ranked.index_of(other);
                assert(result[i] == other);
            }
            if other == node {
                assert(result[ranked.len() as int] == other);
            }
        }
    } else {
        let rest = ranked.drop_last();
        let last = ranked.last();
        assert(ranked.contains(last));
        lemma_above_total(last, node, key);
        assert forall|other: Seq<char>| rest.contains(other) implies ranked.contains(other) by {
            let i = rest.index_of(other);
            assert(ranked[i] == other);
        }
        lemma_insert_ranked(rest, node, key);
        let inner = insert_ranked(rest, node, key);
        assert(result == inner.push(last));
        assert forall|i: int, j: int| 0 <= i < j < result.len() implies #[trigger] above(
            result[i],
            result[j],
            key,
        ) by {
            if j == inner.len() {
                assert(inner.contains(inner[i]));
                if inner[i] != node {
                    let k = rest.index_of(inner[i]);
                    assert(above(ranked[k], ranked[ranked.len() - 1], key));
                }
            } else {
                assert(above(inner[i], inner[j], key));
            }
        }
        assert forall|other: Seq<char>| #[trigger] result.contains(other) <==> (ranked.contains(
            other,
        ) || other == node) by {
            if ranked.contains(other) {
                let i = ranked.index_of(other);
                if i < rest.len() {
                    assert(rest[i] == other);
                    assert(inner.contains(other));
                    assert(result[inner.index_of(other)] == other);
                } else {
                    assert(result[inner.len() as int] == other);
                }
            }
            if other == node {
                assert(inner.contains(node));
                assert(result[inner.index_of(node)] == node);
            }
            if result.contains(other) {
                let i = result.index_of(other);
                if i < inner.len() {
                    assert(inner.contains(inner[i]));
                }
            }
        }
    }
}

proof fn lemma_insert_ranked_at(
    ranked: Seq<Seq<char>>,
    node: Seq<char>,
    key: KeyView,
    place: int,
)
    requires
        0 <= place <= ranked.len(),
        forall|i: int| place <= i < ranked.len() ==> !above(#[trigger] ranked[i], node, key),
        place > 0 ==> above(ranked[place - 1], node, key),
    ensures
        insert_ranked(ranked, node, key) == ranked.insert(place, node),
    decreases ranked.len(),
{
    if place == ranked.len() {
        assert(ranked.insert(place, node) =~= ranked.push(node));
    } else {
        assert(!above(ranked[ranked.len() - 1], node, key));
        let rest = ranked.drop_last();
        assert forall|i: int| place <= i < rest.len() implies !above(
            #[trigger] rest[i],
            node,
            key,
        ) by {
            assert(rest[i] == ranked[i]);
        }
        lemma_insert_ranked_at(rest, node, key, place);
        assert(ranked.insert(place, node) =~= rest.insert(place, node).push(ranked.last()));
    }
}

/// The ranking of distinct nodes holds just those nodes, in rank order.
pub proof fn lemma_ranking(nodes: Seq<Seq<char>>, key: KeyView)
    requires
        nodes.no_duplicates(),
    ensures
        is_ranking(ranking(nodes, key), nodes, key),
    decreases nodes.len(),
{
    if nodes.len() > 0 {
        let rest = nodes.drop_last();
        lemma_ranking(rest, key);
        let inner = ranking(rest, key);
        if inner.contains(nodes.last()) {
            assert(rest.contains(nodes.last()));
            let i = rest.index_of(nodes.last());
            assert(nodes[i] == nodes[nodes.len() - 1]);
        }
        lemma_insert_ranked(inner, nodes.last(), key);
        assert forall|node: Seq<char>| #[trigger]
            ranking(nodes, key).contains(node) <==> nodes.contains(node) by {
            if nodes.contains(node) {
                let i = nodes.index_of(node);
                if i < rest.len() {
                    assert(rest[i] == node);
                    assert(rest.contains(node));
                }
            }
            if rest.contains(node) {
                let i = rest.index_of(node);
                assert(nodes[i] == node);
            }
            assert(nodes.contains(nodes.last())) by {
                assert(nodes[nodes.len() - 1] == nodes.last());
            }
            assert(inner.contains(node) <==> rest.contains(node));
        }
    }
}

/// Two sequences in rank order that hold the same nodes are the same.
pub proof fn lemma_rank_order_unique(a: Seq<Seq<char>>, b: Seq<Seq<char>>, key: KeyView)
    requires
        in_rank_order(a, key),
        in_rank_order(b, key),
        same_members(a, b),
    ensures
        a == b,
    decreases a.len(),
{
    if a.len() == 0 {
        if b.len() > 0 {
            assert(b.contains(b[0]));
            assert(a.contains(b[0]));
        }
        assert(a =~= b);
    } else {
        assert(a.contains(a[0]));
        assert(b.contains(a[0]));
        assert(b.contains(b[0]));
        assert(a.contains(b[0]));
        let i = a.index_of(b[0]);
        let j = b.index_of(a[0]);
        if i > 0 && j > 0 {
            assert(above(a[0], a[i], key));
            assert(above(b[0], b[j], key));
            lemma_above_transitive(a[0], b[0], a[0], key);
            lemma_above_irreflexive(a[0], key);
        }
        assert(a[0] == b[0]);
        let x = a.drop_first();
        let y = b.drop_first();
        assert forall|node: Seq<char>| #[trigger] x.contains(node) <==> y.contains(node) by {
            if x.contains(node) {
                let k = x.index_of(node);
                assert(above(a[0], a[k + 1], key));
                lemma_above_irreflexive(a[0], key);
                assert(a.contains(a[k + 1]));
                assert(b.contains(node));
                let m = b.index_of(node);
                assert(y[m - 1] == node);
            }
            if y.contains(node) {
                let k = y.index_of(node);
                assert(above(b[0], b[k + 1], key));
                lemma_above_irreflexive(b[0], key);
                assert(b.contains(b[k + 1]));
                assert(a.contains(node));
                let m = a.index_of(node);
                assert(x[m - 1] == node);
            }
        }
        assert forall|p: int, q: int| 0 <= p < q < x.len() implies #[trigger] above(
            x[p],
            x[q],
            key,
        ) by {
            assert(above(a[p + 1], a[q + 1], key));
        }
        assert forall|p: int, q: int| 0 <= p < q < y.len() implies #[trigger] above(
            y[p],
            y[q],
            key,
        ) by {
            assert(above(b[p + 1], b[q + 1], key));
        }
        lemma_rank_order_unique(x, y, key);
        assert(a =~= seq![a[0]] + x);
        assert(b =~= seq![b[0]] + y);
    }
}

/// The ranking depends on which nodes there are, not on how they are listed.
pub proof fn law_ranking_ignores_listing_order(
    a: Seq<Seq<char>>,
    b: Seq<Seq<char>>,
    key: KeyView,
)
    requires
        a.no_duplicates(),
        b.no_duplicates(),
        same_members(a, b),
    ensures
        ranking(a, key) == ranking(b, key),
{
    lemma_ranking(a, key);
    lemma_ranking(b, key);
    assert forall|node: Seq<char>| #[trigger]
        ranking(a, key).contains(node) <==> ranking(b, key).contains(node) by {
        assert(ranking(a, key).contains(node) <==> a.contains(node));
        assert(a.contains(node) <==> b.contains(node));
    }
    lemma_rank_order_unique(ranking(a, key), ranking(b, key), key);
}

/// `after` has the nodes of `before` and one more.
pub open spec fn joined_by(
    before: Seq<Seq<char>>,
    after: Seq<Seq<char>>,
    joiner: Seq<char>,
) -> bool {
    &&& before.no_duplicates()
    &&& after.no_duplicates()
    &&& !before.contains(joiner)
    &&& forall|node: Seq<char>| #[trigger]
        after.contains(node) <==> (before.contains(node) || node == joiner)
}

/// A join only inserts the joiner into a key's ranking: the other nodes keep
/// their order. Read from `after` to `before`, the same holds of a leave.
pub proof fn law_join_only_inserts(
    before: Seq<Seq<char>>,
    after: Seq<Seq<char>>,
    joiner: Seq<char>,
    key: KeyView,
)
    requires
        joined_by(before, after, joiner),
    ensures
        ranking(after, key).contains(joiner),
        ranking(after, key).len() == ranking(before, key).len() + 1,
        ranking(before, key) == ranking(after, key).remove(
            ranking(after, key).index_of(joiner),
        ),
{
    lemma_ranking(before, key);
    lemma_ranking(after, key);
    let ranked = ranking(after, key);
    assert(after.contains(joiner));
    assert(ranked.contains(joiner));
    let p = ranked.index_of(joiner);
    let rest = ranked.remove(p);
    assert forall|i: int, j: int| 0 <= i < j < rest.len() implies #[trigger] above(
        rest[i],
        rest[j],
        key,
    ) by {
        let a = if i < p {
            i
        } else {
            i + 1
        };
        let b = if j < p {
            j
        } else {
            j + 1
        };
        assert(above(ranked[a], ranked[b], key));
    }
    assert forall|node: Seq<char>| #[trigger]
        rest.contains(node) <==> ranking(before, key).contains(node) by {
        assert(ranking(before, key).contains(node) <==> before.contains(node));
        assert(ranked.contains(node) <==> after.contains(node));
        if rest.contains(node) {
            let i = rest.index_of(node);
            let a = if i < p {
                i
            } else {
                i + 1
            };
            assert(ranked[a] == node);
            assert(ranked.contains(node));
            if node == joiner {
                if a < p {
                    assert(above(ranked[a], ranked[p], key));
                } else {
                    assert(above(ranked[p], ranked[a], key));
                }
                lemma_above_irreflexive(joiner, key);
            }
        }
        if before.contains(node) {
            assert(after.contains(node));
            assert(ranked.contains(node));
            let a = ranked.index_of(node);
            if a < p {
                assert(rest[a] == node);
            } else {
                assert(rest[a - 1] == node);
            }
        }
    }
    lemma_rank_order_unique(rest, ranking(before, key), key);
}

/// What a join does to a key's owners: nothing, if the joiner does not become
/// one; else the joiner comes in and the last of them goes out, if there were
/// `replication` of them.
pub proof fn law_join_displaces_at_most_the_last_owner(
    before: Seq<Seq<char>>,
    after: Seq<Seq<char>>,
    joiner: Seq<char>,
    key: KeyView,
    replication: nat,
)
    requires
        joined_by(before, after, joiner),
    ensures
        !owns(after, key, joiner, replication) ==> owners_of(after, key, replication) == owners_of(
            before,
            key,
            replication,
        ),
        forall|node: Seq<char>|
            node != joiner && #[trigger] owns(after, key, node, replication) ==> owns(
                before,
                key,
                node,
                replication,
            ),
        forall|node: Seq<char>| #[trigger]
            owns(before, key, node, replication) && !owns(after, key, node, replication) ==> {
                &&& owns(after, key, joiner, replication)
                &&& before.len() >= replication
                &&& node == owners_of(before, key, replication).last()
            },
{
    law_join_only_inserts(before, after, joiner, key);
    lemma_ranking(before, key);
    lemma_ranking(after, key);
    let old_ranked = ranking(before, key);
    let new_ranked = ranking(after, key);
    let p = new_ranked.index_of(joiner);
    let old_owners = owners_of(before, key, replication);
    let new_owners = owners_of(after, key, replication);
    assert forall|i: int| 0 <= i < old_ranked.len() implies #[trigger] old_ranked[i]
        == new_ranked[if i < p {
        i
    } else {
        i + 1
    }] by {}
    if p < replication {
        assert(new_owners[p] == joiner);
    } else {
        assert(old_owners =~= new_owners);
    }
    assert forall|node: Seq<char>|
        node != joiner && #[trigger] owns(after, key, node, replication) implies owns(
        before,
        key,
        node,
        replication,
    ) by {
        let i = new_owners.index_of(node);
        assert(new_ranked[i] == node);
        if i < p {
            assert(old_ranked[i] == node);
            assert(old_owners[i] == node);
        } else {
            assert(old_ranked[i - 1] == node);
            assert(old_owners[i - 1] == node);
        }
    }
    assert forall|node: Seq<char>| #[trigger]
        owns(before, key, node, replication) && !owns(after, key, node, replication) implies {
        &&& owns(after, key, joiner, replication)
        &&& before.len() >= replication
        &&& node == owners_of(before, key, replication).last()
    } by {
        let i = old_owners.index_of(node);
        assert(old_ranked[i] == node);
        if i < p {
            assert(new_owners[i] == node);
        } else if i + 1 < replication {
            assert(new_owners[i + 1] == node);
        }
    }
}

/// What a leave does to a key's owners: the others stay, in their order, and if
/// the leaver was one, the node ranked just behind them comes in at the end,
/// if there is one.
pub proof fn law_leave_promotes_only_the_next_node(
    before: Seq<Seq<char>>,
    after: Seq<Seq<char>>,
    leaver: Seq<char>,
    key: KeyView,
    replication: nat,
)
    requires
        joined_by(after, before, leaver),
    ensures
        !owns(before, key, leaver, replication) ==> owners_of(after, key, replication) == owners_of(
            before,
            key,
            replication,
        ),
        owns(before, key, leaver, replication) ==> {
            let stay = owners_of(before, key, replication).remove(
                owners_of(before, key, replication).index_of(leaver),
            );
            owners_of(after, key, replication) == if before.len() > replication {
                stay.push(ranking(before, key)[replication as int])
            } else {
                stay
            }
        },
{
    law_join_only_inserts(after, before, leaver, key);
    lemma_ranking(before, key);
    lemma_ranking(after, key);
    let old_ranked = ranking(before, key);
    let p = old_ranked.index_of(leaver);
    let old_owners = owners_of(before, key, replication);
    if p < old_owners.len() {
        assert(old_owners[p] == leaver);
        let q = old_owners.index_of(leaver);
        assert(old_ranked[q] == leaver);
        if q != p {
            if q < p {
                assert(above(old_ranked[q], old_ranked[p], key));
            } else {
                assert(above(old_ranked[p], old_ranked[q], key));
            }
            lemma_above_irreflexive(leaver, key);
        }
        let stay = old_owners.remove(p);
        if before.len() > replication {
            assert(owners_of(after, key, replication) =~= stay.push(
                old_ranked[replication as int],
            ));
        } else {
            assert(owners_of(after, key, replication) =~= stay);
        }
    } else {
        if owns(before, key, leaver, replication) {
            let q = old_owners.index_of(leaver);
            assert(old_ranked[q] == leaver);
            assert(above(old_ranked[q], old_ranked[p], key));
            lemma_above_irreflexive(leaver, key);
        }
        assert(owners_of(after, key, replication) =~= old_owners);
    }
}

/// How many of the nodes rank above `node`.
pub open spec fn nodes_above(nodes: Seq<Seq<char>>, node: Seq<char>, key: KeyView) -> nat
    decreases nodes.len(),
{
    if nodes.len() == 0 {
        0
    } else {
        nodes_above(nodes.drop_last(), node, key) + if above(nodes.last(), node, key) {
            1nat
        } else {
            0
        }
    }
}

proof fn lemma_nodes_above_insert(
    ranked: Seq<Seq<char>>,
    added: Seq<char>,
    node: Seq<char>,
    key: KeyView,
)
    ensures
        nodes_above(insert_ranked(ranked, added, key), node, key) == nodes_above(ranked, node, key)
            + if above(added, node, key) {
            1nat
        } else {
            0
        },
    decreases ranked.len(),
{
    if ranked.len() == 0 || above(ranked.last(), added, key) {
        assert(ranked.push(added).drop_last() =~= ranked);
    } else {
        lemma_nodes_above_insert(ranked.drop_last(), added, node, key);
        let inner = insert_ranked(ranked.drop_last(), added, key);
        assert(inner.push(ranked.last()).drop_last() =~= inner);
    }
}

proof fn lemma_nodes_above_ranking(nodes: Seq<Seq<char>>, node: Seq<char>, key: KeyView)
    ensures
        nodes_above(ranking(nodes, key), node, key) == nodes_above(nodes, node, key),
    decreases nodes.len(),
{
    if nodes.len() > 0 {
        lemma_nodes_above_ranking(nodes.drop_last(), node, key);
        lemma_nodes_above_insert(ranking(nodes.drop_last(), key), nodes.last(), node, key);
    }
}

proof fn lemma_nodes_above_in_order(ranked: Seq<Seq<char>>, index: int, upto: int, key: KeyView)
    requires
        in_rank_order(ranked, key),
        0 <= index < ranked.len(),
        0 <= upto <= ranked.len(),
    ensures
        nodes_above(ranked.take(upto), ranked[index], key) == if upto <= index {
            upto
        } else {
            index
        },
    decreases upto,
{
    if upto > 0 {
        lemma_nodes_above_in_order(ranked, index, upto - 1, key);
        assert(ranked.take(upto).drop_last() =~= ranked.take(upto - 1));
        assert(ranked.take(upto).last() == ranked[upto - 1]);
        if upto - 1 < index {
            assert(above(ranked[upto - 1], ranked[index], key));
        } else if upto - 1 == index {
            lemma_above_irreflexive(ranked[index], key);
        } else if above(ranked[upto - 1], ranked[index], key) {
            assert(above(ranked[index], ranked[upto - 1], key));
            lemma_above_transitive(ranked[index], ranked[upto - 1], ranked[index], key);
            lemma_above_irreflexive(ranked[index], key);
        }
    }
}

/// A node owns a key just when it is one of the nodes and fewer than
/// `replication` of them rank above it.
pub proof fn lemma_owns_by_rank(
    nodes: Seq<Seq<char>>,
    key: KeyView,
    node: Seq<char>,
    replication: nat,
)
    requires
        nodes.no_duplicates(),
    ensures
        owns(nodes, key, node, replication) <==> nodes.contains(node) && nodes_above(
            nodes,
            node,
            key,
        ) < replication,
{
    lemma_ranking(nodes, key);
    lemma_nodes_above_ranking(nodes, node, key);
    let ranked = ranking(nodes, key);
    let owners = owners_of(nodes, key, replication);
    assert(ranked.take(ranked.len() as int) =~= ranked);
    if nodes.contains(node) {
        assert(ranked.contains(node));
        let p = ranked.index_of(node);
        lemma_nodes_above_in_order(ranked, p, ranked.len() as int, key);
        if p < replication {
            assert(owners[p] == node);
        }
        if owners.contains(node) {
            let q = owners.index_of(node);
            assert(ranked[q] == node);
            lemma_nodes_above_in_order(ranked, q, ranked.len() as int, key);
        }
    }
    if owners.contains(node) {
        let q = owners.index_of(node);
        assert(ranked[q] == node);
        assert(ranked.contains(node));
    }
}

/// A key has `replication` distinct owners, or every node owns it.
pub proof fn law_owner_count(nodes: Seq<Seq<char>>, key: KeyView, replication: nat)
    requires
        nodes.no_duplicates(),
    ensures
        owners_of(nodes, key, replication).len() == if replication < nodes.len() {
            replication
        } else {
            nodes.len()
        },
        owners_of(nodes, key, replication).no_duplicates(),
        forall|node: Seq<char>| #[trigger]
            owns(nodes, key, node, replication) ==> nodes.contains(node),
        replication >= nodes.len() ==> forall|node: Seq<char>| #[trigger]
            nodes.contains(node) ==> owns(nodes, key, node, replication),
{
    lemma_ranking(nodes, key);
    let ranked = ranking(nodes, key);
    let owners = owners_of(nodes, key, replication);
    assert forall|i: int, j: int| 0 <= i < owners.len() && 0 <= j < owners.len() && i != j implies
        owners[i] != owners[j] by {
        if i < j {
            assert(above(ranked[i], ranked[j], key));
        } else {
            assert(above(ranked[j], ranked[i], key));
        }
        lemma_above_irreflexive(ranked[i], key);
    }
    assert forall|node: Seq<char>| #[trigger] owns(nodes, key, node, replication) implies
        nodes.contains(node) by {
        let q = owners.index_of(node);
        assert(ranked[q] == node);
        assert(ranked.contains(node));
    }
    if replication >= nodes.len() {
        assert(owners =~= ranked);
    }
}

/// Continues the hash of a byte string.
fn continue_hash(seed: u64, bytes: &[u8]) -> (hash: u64)
    ensures
        hash == fnv1a(seed, bytes@),
{
    let mut hash: u64 = seed;
    let mut index: usize = 0;
    while index < bytes.len()
        invariant
            index <= bytes.len(),
            hash == fnv1a(seed, bytes@.take(index as int)),
        decreases bytes.len() - index,
    {
        assert(bytes@.take(index + 1).drop_last() =~= bytes@.take(index as int));
        hash = (hash ^ (bytes[index] as u64)).wrapping_mul(HASH_PRIME);
        index += 1;
    }
    assert(bytes@.take(bytes@.len() as int) =~= bytes@);
    hash
}

proof fn lemma_fnv1a_concat(seed: u64, a: Seq<u8>, b: Seq<u8>)
    ensures
        fnv1a(seed, a + b) == fnv1a(fnv1a(seed, a), b),
    decreases b.len(),
{
    if b.len() == 0 {
        assert(a + b =~= a);
    } else {
        lemma_fnv1a_concat(seed, a, b.drop_last());
        assert((a + b).drop_last() =~= a + b.drop_last());
    }
}

/// The hash of the bytes that route a key.
fn routing_hash(key: &Key) -> (hash: u64)
    ensures
        hash == fnv1a(HASH_OFFSET, routing_bytes(key@)),
{
    if key.is_namespaced() {
        let prefix: u64 = continue_hash(HASH_OFFSET, key.namespace.as_slice());
        let separated: u64 = (prefix ^ 0u64).wrapping_mul(HASH_PRIME);
        proof {
            assert(key@.namespace.push(0).drop_last() =~= key@.namespace);
            lemma_fnv1a_concat(HASH_OFFSET, key@.namespace.push(0), key@.name);
        }
        continue_hash(separated, key.name.as_slice())
    } else {
        continue_hash(HASH_OFFSET, key.name.as_slice())
    }
}

fn mix(hash: u64) -> (spread: u64)
    ensures
        spread == mixed(hash),
{
    let first: u64 = (hash ^ (hash >> 33u64)).wrapping_mul(MIX_FIRST);
    let second: u64 = (first ^ (first >> 33u64)).wrapping_mul(MIX_SECOND);
    second ^ (second >> 33u64)
}

/// The score of a node for a key whose routing hash is `key_hash`.
fn node_score(node: &str, key_hash: u64, Ghost(key): Ghost<KeyView>) -> (result: u64)
    requires
        key_hash == fnv1a(HASH_OFFSET, routing_bytes(key)),
    ensures
        result == score(node@, key),
{
    mix(continue_hash(HASH_OFFSET, node.as_bytes()) ^ key_hash)
}

/// The nodes of the cluster, each once.
#[derive(Debug)]
pub struct HashRing {
    nodes: Vec<String>,
}

impl View for HashRing {
    type V = Seq<Seq<char>>;

    closed spec fn view(&self) -> Seq<Seq<char>> {
        text_views(self.nodes@)
    }
}

/// The texts of a list, each where it occurs first.
pub open spec fn without_repeats(texts: Seq<Seq<char>>) -> Seq<Seq<char>>
    decreases texts.len(),
{
    if texts.len() == 0 {
        Seq::empty()
    } else {
        let rest = without_repeats(texts.drop_last());
        if rest.contains(texts.last()) {
            rest
        } else {
            rest.push(texts.last())
        }
    }
}

/// Dropping repeats keeps every text, once.
pub proof fn lemma_without_repeats(texts: Seq<Seq<char>>)
    ensures
        without_repeats(texts).no_duplicates(),
        same_members(without_repeats(texts), texts),
        without_repeats(texts).len() <= texts.len(),
        texts.no_duplicates() ==> without_repeats(texts) == texts,
    decreases texts.len(),
{
    if texts.len() > 0 {
        lemma_without_repeats(texts.drop_last());
        let rest = without_repeats(texts.drop_last());
        let result = without_repeats(texts);
        assert forall|text: Seq<char>| #[trigger] result.contains(text) <==> texts.contains(
            text,
        ) by {
            assert(rest.contains(text) <==> texts.drop_last().contains(text));
            if texts.contains(text) {
                let i = texts.index_of(text);
                if i < texts.len() - 1 {
                    assert(texts.drop_last()[i] == text);
                    assert(rest.contains(text));
                    assert(result[rest.index_of(text)] == text);
                } else if !rest.contains(text) {
                    assert(result[rest.len() as int] == text);
                }
            }
            if texts.drop_last().contains(text) {
                assert(texts[texts.drop_last().index_of(text)] == text);
            }
            if result.contains(text) {
                let i = result.index_of(text);
                if i < rest.len() {
                    assert(rest.contains(rest[i]));
                } else {
                    assert(texts[texts.len() - 1] == text);
                }
            }
        }
        if texts.no_duplicates() {
            assert(texts.drop_last().no_duplicates());
            if rest.contains(texts.last()) {
                let i = texts.drop_last().index_of(texts.last());
                assert(texts[i] == texts[texts.len() - 1]);
            }
            assert(result =~= texts);
        }
    }
}

impl Clone for HashRing {
    fn clone(&self) -> (copy: HashRing)
        ensures
            copy@ == self@,
    {
        proof {
            use_type_invariant(self);
        }
        HashRing { nodes: copy_texts(&self.nodes) }
    }
}

impl HashRing {
    /// The nodes of a ring are distinct.
    #[verifier::type_invariant]
    pub open spec fn wf(self) -> bool {
        self@.no_duplicates()
    }

    /// A ring of the given nodes; a repeated name counts once.
    pub fn new(nodes: Vec<String>) -> (ring: HashRing)
        ensures
            ring@ == without_repeats(text_views(nodes@)),
            ring@.no_duplicates(),
            same_members(ring@, text_views(nodes@)),
    {
        let mut kept: Vec<String> = Vec::new();
        let mut index: usize = 0;
        while index < nodes.len()
            invariant
                index <= nodes.len(),
                text_views(kept@) == without_repeats(text_views(nodes@).take(index as int)),
            decreases nodes.len() - index,
        {
            proof {
                let seen = text_views(nodes@).take(index + 1);
                assert(seen.drop_last() =~= text_views(nodes@).take(index as int));
                assert(seen.last() == nodes@[index as int]@);
            }
            if !contains_text(&kept, nodes[index].as_str()) {
                let ghost before = kept@;
                kept.push(nodes[index].clone());
                assert(text_views(kept@) =~= text_views(before).push(nodes@[index as int]@));
            }
            index += 1;
        }
        assert(text_views(nodes@).take(nodes@.len() as int) =~= text_views(nodes@));
        proof {
            lemma_without_repeats(text_views(nodes@));
        }
        HashRing { nodes: kept }
    }

    /// The nodes, each once.
    pub fn nodes(&self) -> (nodes: &Vec<String>)
        ensures
            text_views(nodes@) == self@,
            self@.no_duplicates(),
    {
        proof {
            use_type_invariant(self);
        }
        &self.nodes
    }

    /// Whether `node` is one of the nodes.
    pub fn has(&self, node: &str) -> (found: bool)
        ensures
            found == self@.contains(node@),
    {
        contains_text(&self.nodes, node)
    }

    /// Whether `node` is one of the `replication` owners of a key.
    pub fn is_owner(&self, key: &Key, node: &str, replication: usize) -> (owner: bool)
        ensures
            owner == owns(self@, key@, node@, replication as nat),
    {
        proof {
            use_type_invariant(self);
            lemma_owns_by_rank(self@, key@, node@, replication as nat);
        }
        if !self.has(node) {
            return false;
        }
        let key_hash: u64 = routing_hash(key);
        let own: u64 = node_score(node, key_hash, Ghost(key@));
        let mut rank: usize = 0;
        let mut index: usize = 0;
        while index < self.nodes.len()
            invariant
                index <= self.nodes.len(),
                rank <= index,
                own == score(node@, key@),
                key_hash == fnv1a(HASH_OFFSET, routing_bytes(key@)),
                self@ == text_views(self.nodes@),
                rank == nodes_above(self@.take(index as int), node@, key@),
            decreases self.nodes.len() - index,
        {
            let other = self.nodes[index].as_str();
            let theirs: u64 = node_score(other, key_hash, Ghost(key@));
            assert(self@.take(index + 1).drop_last() =~= self@.take(index as int));
            assert(self@.take(index + 1).last() == other@);
            if theirs > own || (theirs == own && bytes_sort_before(
                other.as_bytes(),
                node.as_bytes(),
            )) {
                rank += 1;
            }
            index += 1;
        }
        assert(self@.take(self@.len() as int) =~= self@);
        rank < replication
    }

    /// The nodes from the best scored for a key to the worst.
    fn ranked<'a>(&'a self, key: &Key) -> (ranked: Vec<&'a str>)
        ensures
            str_views(ranked@) == ranking(self@, key@),
    {
        let key_hash: u64 = routing_hash(key);
        let mut ranked: Vec<&'a str> = Vec::new();
        let mut scores: Vec<u64> = Vec::new();
        let mut index: usize = 0;
        assert(str_views(ranked@) =~= Seq::empty());
        while index < self.nodes.len()
            invariant
                index <= self.nodes.len(),
                self@ == text_views(self.nodes@),
                key_hash == fnv1a(HASH_OFFSET, routing_bytes(key@)),
                scores.len() == ranked.len(),
                forall|i: int|
                    0 <= i < ranked.len() ==> scores@[i] == score(
                        (#[trigger] ranked@[i])@,
                        key@,
                    ),
                str_views(ranked@) == ranking(self@.take(index as int), key@),
            decreases self.nodes.len() - index,
        {
            let node = self.nodes[index].as_str();
            let own: u64 = node_score(node, key_hash, Ghost(key@));
            let mut place: usize = ranked.len();
            while place > 0 && !(scores[place - 1] > own || (scores[place - 1] == own
                && bytes_sort_before(ranked[place - 1].as_bytes(), node.as_bytes())))
                invariant
                    place <= ranked.len(),
                    own == score(node@, key@),
                    scores.len() == ranked.len(),
                    forall|i: int|
                        0 <= i < ranked.len() ==> scores@[i] == score(
                            (#[trigger] ranked@[i])@,
                            key@,
                        ),
                    forall|i: int|
                        place <= i < ranked.len() ==> !above(
                            #[trigger] str_views(ranked@)[i],
                            node@,
                            key@,
                        ),
                decreases place,
            {
                place -= 1;
            }
            proof {
                lemma_insert_ranked_at(str_views(ranked@), node@, key@, place as int);
                assert(self@.take(index + 1).drop_last() =~= self@.take(index as int));
                assert(self@.take(index + 1).last() == node@);
            }
            let ghost before = ranked@;
            ranked.insert(place, node);
            scores.insert(place, own);
            assert(str_views(ranked@) =~= str_views(before).insert(place as int, node@));
            index += 1;
        }
        assert(self@.take(self@.len() as int) =~= self@);
        ranked
    }

    /// The `replication` owners of a key, best first.
    pub fn owners<'a>(&'a self, key: &Key, replication: usize) -> (owners: Vec<&'a str>)
        ensures
            str_views(owners@) == owners_of(self@, key@, replication as nat),
    {
        let mut owners = self.ranked(key);
        let ghost ranked = owners@;
        if replication < owners.len() {
            owners.truncate(replication);
        }
        assert(str_views(owners@) =~= owners_of(self@, key@, replication as nat));
        owners
    }
}

/// The texts of `list` that are not in `others`, in order.
pub open spec fn not_among(list: Seq<Seq<char>>, others: Seq<Seq<char>>) -> Seq<Seq<char>>
    decreases list.len(),
{
    if list.len() == 0 {
        Seq::empty()
    } else {
        let rest = not_among(list.drop_last(), others);
        if others.contains(list.last()) {
            rest
        } else {
            rest.push(list.last())
        }
    }
}

pub proof fn lemma_not_among(list: Seq<Seq<char>>, others: Seq<Seq<char>>, text: Seq<char>)
    ensures
        not_among(list, others).contains(text) <==> list.contains(text) && !others.contains(text),
    decreases list.len(),
{
    if list.len() > 0 {
        lemma_not_among(list.drop_last(), others, text);
        let rest = not_among(list.drop_last(), others);
        let all = not_among(list, others);
        if list.contains(text) {
            let i = list.index_of(text);
            if i < list.len() - 1 {
                assert(list.drop_last()[i] == text);
            }
        }
        if list.drop_last().contains(text) {
            assert(list[list.drop_last().index_of(text)] == text);
        }
        assert(list[list.len() - 1] == list.last());
        if rest.contains(text) {
            assert(all[rest.index_of(text)] == text);
        }
        if !others.contains(list.last()) {
            assert(all[rest.len() as int] == list.last());
            if all.contains(text) {
                let i = all.index_of(text);
                if i < rest.len() {
                    assert(rest[i] == text);
                }
            }
        }
    }
}

/// The nodes that come to own a key when the nodes change, best first.
pub open spec fn promoted(
    before: Seq<Seq<char>>,
    after: Seq<Seq<char>>,
    key: KeyView,
    replication: nat,
) -> Seq<Seq<char>> {
    not_among(owners_of(after, key, replication), owners_of(before, key, replication))
}

proof fn lemma_not_among_none(list: Seq<Seq<char>>, others: Seq<Seq<char>>)
    requires
        forall|i: int| 0 <= i < list.len() ==> others.contains(#[trigger] list[i]),
    ensures
        not_among(list, others) == Seq::<Seq<char>>::empty(),
    decreases list.len(),
{
    if list.len() > 0 {
        assert(others.contains(list[list.len() - 1]));
        assert forall|i: int| 0 <= i < list.drop_last().len() implies others.contains(
            #[trigger] list.drop_last()[i],
        ) by {
            assert(list.drop_last()[i] == list[i]);
        }
        lemma_not_among_none(list.drop_last(), others);
    }
}

/// A leave promotes just the node ranked behind a key's owners, if the leaver
/// was one of them and there is such a node; otherwise none.
pub proof fn law_leave_promotes_one_node(
    before: Seq<Seq<char>>,
    after: Seq<Seq<char>>,
    leaver: Seq<char>,
    key: KeyView,
    replication: nat,
)
    requires
        joined_by(after, before, leaver),
    ensures
        promoted(before, after, key, replication) == if owns(before, key, leaver, replication)
            && before.len() > replication {
            seq![ranking(before, key)[replication as int]]
        } else {
            Seq::<Seq<char>>::empty()
        },
{
    law_leave_promotes_only_the_next_node(before, after, leaver, key, replication);
    lemma_ranking(before, key);
    let ranked = ranking(before, key);
    let old_owners = owners_of(before, key, replication);
    let new_owners = owners_of(after, key, replication);
    if !owns(before, key, leaver, replication) {
        assert forall|i: int| 0 <= i < new_owners.len() implies old_owners.contains(
            #[trigger] new_owners[i],
        ) by {
            assert(old_owners[i] == new_owners[i]);
        }
        lemma_not_among_none(new_owners, old_owners);
    } else {
        let q = old_owners.index_of(leaver);
        let stay = old_owners.remove(q);
        assert forall|i: int| 0 <= i < stay.len() implies old_owners.contains(
            #[trigger] stay[i],
        ) by {
            if i < q {
                assert(old_owners[i] == stay[i]);
            } else {
                assert(old_owners[i + 1] == stay[i]);
            }
        }
        lemma_not_among_none(stay, old_owners);
        if before.len() > replication {
            let next = ranked[replication as int];
            if old_owners.contains(next) {
                let i = old_owners.index_of(next);
                assert(above(ranked[i], ranked[replication as int], key));
                lemma_above_irreflexive(next, key);
            }
            assert(stay.push(next).drop_last() =~= stay);
            assert(promoted(before, after, key, replication) =~= seq![next]);
        }
    }
}

/// The texts of `list` that are not in `others`, in order.
fn texts_not_among(list: &Vec<&str>, others: &Vec<&str>) -> (kept: Vec<String>)
    ensures
        text_views(kept@) == not_among(str_views(list@), str_views(others@)),
{
    let mut kept: Vec<String> = Vec::new();
    let mut index: usize = 0;
    assert(text_views(kept@) =~= Seq::empty());
    while index < list.len()
        invariant
            index <= list.len(),
            text_views(kept@) == not_among(
                str_views(list@).take(index as int),
                str_views(others@),
            ),
        decreases list.len() - index,
    {
        let ghost seen = str_views(list@).take(index + 1);
        assert(seen.drop_last() =~= str_views(list@).take(index as int));
        assert(seen.last() == list@[index as int]@);
        if !contains_str(others, list[index]) {
            let ghost before = kept@;
            kept.push(list[index].to_owned());
            assert(text_views(kept@) =~= text_views(before).push(list@[index as int]@));
        }
        index += 1;
    }
    assert(str_views(list@).take(list@.len() as int) =~= str_views(list@));
    kept
}

/// The nodes that come to own a key when the nodes change, best first.
pub fn promoted_owners(
    before: &HashRing,
    after: &HashRing,
    key: &Key,
    replication: usize,
) -> (nodes: Vec<String>)
    ensures
        text_views(nodes@) == promoted(before@, after@, key@, replication as nat),
{
    texts_not_among(&after.owners(key, replication), &before.owners(key, replication))
}

/// What routes a key of a namespace is the namespace, a zero byte and the name,
/// one behind the other; a key of the default namespace is routed by its name
/// alone.
pub proof fn law_routing_bytes_hold_namespace_and_name(key: KeyView)
    ensures
        key.namespace.len() == 0 ==> routing_bytes(key) == key.name,
        key.namespace.len() > 0 ==> {
            let bytes = routing_bytes(key);
            let zero = key.namespace.len() as int;
            &&& bytes.len() == key.namespace.len() + 1 + key.name.len()
            &&& bytes.take(zero) == key.namespace
            &&& bytes[zero] == 0
            &&& bytes.skip(zero + 1) == key.name
        },
{
    if key.namespace.len() > 0 {
        let bytes = routing_bytes(key);
        let zero = key.namespace.len() as int;
        assert(bytes.take(zero) =~= key.namespace);
        assert(bytes.skip(zero + 1) =~= key.name);
    }
}

/// Within a namespace the bytes that route a key determine its name; and of
/// namespaces of one length they determine the namespace.
pub proof fn law_routing_bytes_tell_keys_apart(key: KeyView, other: KeyView)
    requires
        key.namespace.len() == other.namespace.len(),
        routing_bytes(key) == routing_bytes(other),
    ensures
        key.namespace == other.namespace,
        key.name == other.name,
{
    law_routing_bytes_hold_namespace_and_name(key);
    law_routing_bytes_hold_namespace_and_name(other);
    if key.namespace.len() == 0 {
        assert(key.namespace =~= other.namespace);
    }
}

/// Hashing goes on byte by byte: each is taken in by an exclusive or, and the
/// whole is multiplied by the prime of the 64-bit hash, modulo two to the 64th.
pub proof fn law_hash_takes_in_each_byte(seed: u64, bytes: Seq<u8>, byte: u8)
    ensures
        fnv1a(seed, Seq::empty()) == seed,
        fnv1a(seed, bytes.push(byte)) as int == ((fnv1a(seed, bytes) ^ (byte as u64)) as int
            * 1_099_511_628_211) % 18_446_744_073_709_551_616,
{
    assert(bytes.push(byte).drop_last() =~= bytes);
}

/// Multiplication by an odd number is undone by that by its inverse.
proof fn lemma_multiplication_undone(x: u64, factor: u64, inverse: u64, rounds: int)
    requires
        factor as int * inverse as int == 1 + rounds * 18_446_744_073_709_551_616,
    ensures
        x.wrapping_mul(factor).wrapping_mul(inverse) == x,
{
    let modulus: int = 18_446_744_073_709_551_616;
    let a: int = x as int;
    let b: int = factor as int;
    let c: int = inverse as int;
    lemma_mul_mod_noop_left(a * b, c, modulus);
    assert((a * b) * c == a * (b * c)) by (nonlinear_arith);
    assert(a * (1 + rounds * modulus) == modulus * (a * rounds) + a) by (nonlinear_arith);
    lemma_mod_multiples_vanish(a * rounds, a, modulus);
    lemma_small_mod(x as nat, modulus as nat);
}

proof fn lemma_shift_undone(x: u64)
    ensures
        ({
            let y = x ^ (x >> 33u64);
            y ^ (y >> 33u64) == x
        }),
{
    assert((x ^ (x >> 33u64)) ^ ((x ^ (x >> 33u64)) >> 33u64) == x) by (bit_vector);
}

/// What spreading a hash makes of it, undone.
pub open spec fn unmixed(hash: u64) -> u64 {
    let third = hash ^ (hash >> 33u64);
    let second = third.wrapping_mul(11_291_846_944_257_947_611);
    let first = (second ^ (second >> 33u64)).wrapping_mul(5_725_274_745_694_666_757);
    first ^ (first >> 33u64)
}

/// A score can be taken apart: undoing the mixing leaves the hash of the node's
/// name and that of what routes the key, joined by an exclusive or. Both begin
/// with the offset basis of the 64-bit hash.
pub proof fn law_score_can_be_taken_apart(node: Seq<char>, key: KeyView)
    ensures
        unmixed(score(node, key)) == fnv1a(14_695_981_039_346_656_037, text_bytes(node)) ^ fnv1a(
            14_695_981_039_346_656_037,
            routing_bytes(key),
        ),
{
    lemma_unmixed(fnv1a(HASH_OFFSET, text_bytes(node)) ^ fnv1a(HASH_OFFSET, routing_bytes(key)));
}

/// Mixing a hash loses nothing of it.
proof fn lemma_unmixed(hash: u64)
    ensures
        unmixed(mixed(hash)) == hash,
{
    let start = hash ^ (hash >> 33u64);
    let first = start.wrapping_mul(MIX_FIRST);
    let middle = first ^ (first >> 33u64);
    let second = middle.wrapping_mul(MIX_SECOND);
    lemma_shift_undone(second);
    lemma_multiplication_undone(
        middle,
        MIX_SECOND,
        11_291_846_944_257_947_611,
        8_680_939_279_959_119_233,
    );
    lemma_shift_undone(first);
    lemma_multiplication_undone(
        start,
        MIX_FIRST,
        5_725_274_745_694_666_757,
        5_710_046_619_856_821_070,
    );
    lemma_shift_undone(hash);
}

/// Whether two byte strings are the same but for one byte.
pub open spec fn differ_in_one_byte(a: Seq<u8>, b: Seq<u8>, place: int) -> bool {
    &&& a.len() == b.len()
    &&& 0 <= place < a.len()
    &&& a[place] != b[place]
    &&& forall|i: int| 0 <= i < a.len() && i != place ==> #[trigger] a[i] == b[i]
}

proof fn lemma_hash_feels_a_byte(seed: u64, a: Seq<u8>, b: Seq<u8>, place: int)
    requires
        differ_in_one_byte(a, b, place),
    ensures
        fnv1a(seed, a) != fnv1a(seed, b),
    decreases a.len(),
{
    let x = fnv1a(seed, a.drop_last());
    let y = fnv1a(seed, b.drop_last());
    let m = a.last() as u64;
    let n = b.last() as u64;
    if place == a.len() - 1 {
        assert(a.drop_last() =~= b.drop_last());
        assert(m != n);
        assert(x == y && m != n ==> x ^ m != y ^ n) by (bit_vector);
    } else {
        lemma_hash_feels_a_byte(seed, a.drop_last(), b.drop_last(), place);
        assert(a[a.len() - 1] == b[a.len() - 1]);
        assert(x != y && m == n ==> x ^ m != y ^ n) by (bit_vector);
    }
    lemma_multiplication_undone(
        x ^ m,
        HASH_PRIME,
        14_886_173_955_864_302_971,
        887_285_111_055,
    );
    lemma_multiplication_undone(
        y ^ n,
        HASH_PRIME,
        14_886_173_955_864_302_971,
        887_285_111_055,
    );
}

proof fn lemma_scores_differ(
    node: Seq<char>,
    key: KeyView,
    other_node: Seq<char>,
    other: KeyView,
)
    requires
        score(node, key) == score(other_node, other),
    ensures
        fnv1a(HASH_OFFSET, text_bytes(node)) ^ fnv1a(HASH_OFFSET, routing_bytes(key)) == fnv1a(
            HASH_OFFSET,
            text_bytes(other_node),
        ) ^ fnv1a(HASH_OFFSET, routing_bytes(other)),
{
    law_score_can_be_taken_apart(node, key);
    law_score_can_be_taken_apart(other_node, other);
}

/// Every byte of a key counts: keys of one namespace whose names differ in one
/// byte score differently at every node, and so do keys of one name whose
/// namespaces differ in one byte.
pub proof fn law_score_feels_each_byte_of_a_key(
    node: Seq<char>,
    key: KeyView,
    other: KeyView,
    place: int,
)
    requires
        key.namespace == other.namespace && differ_in_one_byte(key.name, other.name, place)
            || key.name == other.name && differ_in_one_byte(key.namespace, other.namespace, place),
    ensures
        score(node, key) != score(node, other),
{
    let a = routing_bytes(key);
    let b = routing_bytes(other);
    let at = if key.namespace == other.namespace && differ_in_one_byte(
        key.name,
        other.name,
        place,
    ) && key.namespace.len() > 0 {
        key.namespace.len() + 1 + place
    } else {
        place
    };
    assert(differ_in_one_byte(a, b, at)) by {
        if key.namespace == other.namespace && differ_in_one_byte(key.name, other.name, place) {
            if key.namespace.len() > 0 {
                let prefix = key.namespace.push(0);
                assert(a[at] == key.name[place]);
                assert(b[at] == other.name[place]);
                assert forall|i: int| 0 <= i < a.len() && i != at implies #[trigger] a[i]
                    == b[i] by {
                    if i < prefix.len() {
                        assert(a[i] == prefix[i]);
                    } else {
                        assert(a[i] == key.name[i - prefix.len()]);
                        assert(b[i] == other.name[i - prefix.len()]);
                    }
                }
            }
        } else {
            assert forall|i: int| 0 <= i < a.len() && i != at implies #[trigger] a[i] == b[i] by {
                if i < key.namespace.len() {
                    assert(a[i] == key.namespace[i]);
                    assert(b[i] == other.namespace[i]);
                }
            }
        }
    }
    lemma_hash_feels_a_byte(HASH_OFFSET, a, b, at);
    let h = fnv1a(HASH_OFFSET, text_bytes(node));
    let x = fnv1a(HASH_OFFSET, a);
    let y = fnv1a(HASH_OFFSET, b);
    assert(x != y ==> h ^ x != h ^ y) by (bit_vector);
    if score(node, key) == score(node, other) {
        lemma_scores_differ(node, key, node, other);
    }
}

/// Every byte of a node's name counts: nodes whose names differ in one byte
/// score differently for every key.
pub proof fn law_score_feels_each_byte_of_a_node(
    node: Seq<char>,
    other: Seq<char>,
    key: KeyView,
    place: int,
)
    requires
        differ_in_one_byte(text_bytes(node), text_bytes(other), place),
    ensures
        score(node, key) != score(other, key),
{
    lemma_hash_feels_a_byte(HASH_OFFSET, text_bytes(node), text_bytes(other), place);
    let h = fnv1a(HASH_OFFSET, routing_bytes(key));
    let x = fnv1a(HASH_OFFSET, text_bytes(node));
    let y = fnv1a(HASH_OFFSET, text_bytes(other));
    assert(x != y ==> x ^ h != y ^ h) by (bit_vector);
    if score(node, key) == score(other, key) {
        lemma_scores_differ(node, key, other, key);
    }
}

/// The owners of a key are the nodes that score best for it: no node that does
/// not own it scores higher than one that does, and where the two score the
/// same the owner is the one whose name comes first, byte by byte. Among the
/// owners the same order holds.
pub proof fn law_owners_score_best(
    nodes: Seq<Seq<char>>,
    key: KeyView,
    replication: nat,
    owner: Seq<char>,
    other: Seq<char>,
)
    requires
        nodes.no_duplicates(),
        owns(nodes, key, owner, replication),
        nodes.contains(other),
        !owns(nodes, key, other, replication),
    ensures
        nodes.contains(owner),
        score(owner, key) >= score(other, key),
        score(owner, key) == score(other, key) ==> sorts_before(
            text_bytes(owner),
            text_bytes(other),
        ),
{
    lemma_ranking(nodes, key);
    let ranked = ranking(nodes, key);
    let owners = owners_of(nodes, key, replication);
    let i = owners.index_of(owner);
    assert(ranked[i] == owner);
    assert(ranked.contains(owner));
    assert(ranked.contains(other));
    let j = ranked.index_of(other);
    if j < owners.len() {
        assert(owners[j] == other);
    }
    assert(above(ranked[i], ranked[j], key));
}

/// The owners of a key stand in the order of their scores, the best first, and
/// by name where the scores are the same; there are as many as the replication
/// factor asks for, or all nodes if there are not that many.
pub proof fn law_owners_stand_in_order(
    nodes: Seq<Seq<char>>,
    key: KeyView,
    replication: nat,
    i: int,
    j: int,
)
    requires
        nodes.no_duplicates(),
        0 <= i < j < owners_of(nodes, key, replication).len(),
    ensures
        ({
            let a = owners_of(nodes, key, replication)[i];
            let b = owners_of(nodes, key, replication)[j];
            &&& a != b
            &&& nodes.contains(a) && nodes.contains(b)
            &&& score(a, key) >= score(b, key)
            &&& score(a, key) == score(b, key) ==> sorts_before(text_bytes(a), text_bytes(b))
        }),
        owners_of(nodes, key, replication).len() == if replication <= nodes.len() {
            replication
        } else {
            nodes.len()
        },
{
    lemma_ranking(nodes, key);
    let ranked = ranking(nodes, key);
    assert(ranked.contains(ranked[i]));
    assert(ranked.contains(ranked[j]));
    assert(above(ranked[i], ranked[j], key));
    lemma_above_irreflexive(ranked[i], key);
}

/// The nodes promoted by a change are those that own the key after it and did
/// not before, and no others.
pub proof fn law_promoted_nodes_are_the_new_owners(
    before: Seq<Seq<char>>,
    after: Seq<Seq<char>>,
    key: KeyView,
    replication: nat,
    node: Seq<char>,
)
    ensures
        promoted(before, after, key, replication).contains(node) <==> owns(
            after,
            key,
            node,
            replication,
        ) && !owns(before, key, node, replication),
{
    lemma_not_among(
        owners_of(after, key, replication),
        owners_of(before, key, replication),
        node,
    );
}

/// What is left of a list keeps its order: what is left of a longer list is what
/// was left before, and behind it the added text unless that is to go.
pub proof fn law_what_is_left_keeps_its_order(
    list: Seq<Seq<char>>,
    others: Seq<Seq<char>>,
    text: Seq<char>,
)
    ensures
        not_among(Seq::empty(), others).len() == 0,
        not_among(list.push(text), others) == if others.contains(text) {
            not_among(list, others)
        } else {
            not_among(list, others).push(text)
        },
{
    assert(list.push(text).drop_last() =~= list);
}

/// The first node that a change promotes is the best ranked of those that come to
/// own the key: every owner ranked before it was one before.
pub proof fn law_best_ranked_node_is_promoted_first(
    before: Seq<Seq<char>>,
    after: Seq<Seq<char>>,
    key: KeyView,
    replication: nat,
)
    ensures
        promoted(before, after, key, replication).len() > 0 ==> exists|place: int|
            0 <= place < owners_of(after, key, replication).len() && #[trigger] owners_of(
                after,
                key,
                replication,
            )[place] == promoted(before, after, key, replication)[0] && !owns(
                before,
                key,
                owners_of(after, key, replication)[place],
                replication,
            ) && (forall|i: int|
                0 <= i < place ==> owns(
                    before,
                    key,
                    #[trigger] owners_of(after, key, replication)[i],
                    replication,
                )),
{
    if promoted(before, after, key, replication).len() > 0 {
        lemma_first_left(owners_of(after, key, replication), owners_of(before, key, replication));
    }
}

proof fn lemma_first_left(list: Seq<Seq<char>>, others: Seq<Seq<char>>)
    requires
        not_among(list, others).len() > 0,
    ensures
        exists|place: int|
            0 <= place < list.len() && #[trigger] list[place] == not_among(list, others)[0]
                && !others.contains(list[place]) && (forall|i: int|
                0 <= i < place ==> others.contains(#[trigger] list[i])),
    decreases list.len(),
{
    let rest = list.drop_last();
    if not_among(rest, others).len() > 0 {
        lemma_first_left(rest, others);
        let place = choose|place: int|
            0 <= place < rest.len() && #[trigger] rest[place] == not_among(rest, others)[0]
                && !others.contains(rest[place]) && (forall|i: int|
                0 <= i < place ==> others.contains(#[trigger] rest[i]));
        assert(list[place] == rest[place]);
        assert(not_among(list, others)[0] == not_among(rest, others)[0]);
        assert forall|i: int| 0 <= i < place implies others.contains(#[trigger] list[i]) by {
            assert(others.contains(rest[i]));
        }
    } else {
        let place = list.len() - 1;
        assert(list[place] == not_among(list, others)[0]);
        assert forall|i: int| 0 <= i < place implies others.contains(#[trigger] list[i]) by {
            assert(rest[i] == list[i]);
            lemma_not_among(rest, others, list[i]);
            assert(rest.contains(list[i]));
            if !others.contains(list[i]) {
                assert(not_among(rest, others).contains(list[i]));
            }
        }
    }
}

} // verus!
