//! The links between the entries of a transcript, and what a conversation is
//! in terms of them.
use vstd::prelude::*;

use crate::json::{lookup, Json, Members};
use crate::sessions::transcript::{
    ancestry, best, chain_leaf, chain_to, conversation, conversation_messages, first_conversation,
    is_aside, is_conversation, is_terminal, is_visible, last_conversation, leaves,
    lemma_ancestry_end, lemma_ancestry_links, lemma_ancestry_range, lemma_best, lemma_chain_leaf,
    lemma_few_uuids, lemma_leaves, lemma_place_of, main_only, message_of, parent_of, place_of, rank,
    subagent_conversation, uuid_of, uuids, visible_messages, Message, SessionMessageType,
};

verus! {

broadcast use vstd::string::group_string_axioms;

// ---------------------------------------------------------------------------
// Links
// ---------------------------------------------------------------------------

/// The text under a key, or the empty text.
pub open spec fn told(e: Members, k: Seq<char>) -> Seq<char> {
    match lookup(e, k) {
        Some(Json::Str(s)) => s,
        _ => Seq::empty(),
    }
}

/// Whether the entry at `i` names the entry at `k` as its parent: `k` is the
/// last entry that has the `uuid` which `i` has as its `parentUuid`.
pub open spec fn names(es: Seq<Members>, i: int, k: int) -> bool {
    &&& 0 <= i < es.len()
    &&& 0 <= k < es.len()
    &&& told(es[i], "parentUuid"@).len() > 0
    &&& told(es[k], "uuid"@) == told(es[i], "parentUuid"@)
    &&& forall|j: int|
        k < j < es.len() ==> told(#[trigger] es[j], "uuid"@) != told(es[i], "parentUuid"@)
}

/// Whether a path leads from entry to entry, each naming the next one as its
/// parent, without meeting a `uuid` twice.
pub open spec fn is_path(es: Seq<Members>, path: Seq<int>) -> bool {
    &&& path.len() > 0
    &&& forall|i: int| 0 <= i < path.len() ==> 0 <= #[trigger] path[i] < es.len()
    &&& forall|i: int| 0 <= i < path.len() - 1 ==> names(es, #[trigger] path[i], path[i + 1])
    &&& forall|i: int, j: int|
        0 <= i < j < path.len() ==> told(es[#[trigger] path[i]], "uuid"@) != told(
            es[#[trigger] path[j]],
            "uuid"@,
        )
}

/// Whether a path goes on as far as it can: the last entry names none as its
/// parent, but for one with a `uuid` that was met already.
pub open spec fn is_whole(es: Seq<Members>, path: Seq<int>) -> bool {
    forall|k: int| #[trigger]
        names(es, path.last(), k) ==> exists|i: int|
            0 <= i < path.len() && told(es[#[trigger] path[i]], "uuid"@) == told(es[k], "uuid"@)
}

/// Whether some entries are those of a path, from its end to its start.
pub open spec fn is_read_up(es: Seq<Members>, path: Seq<int>, chain: Seq<Members>) -> bool {
    &&& chain.len() == path.len()
    &&& forall|i: int|
        0 <= i < chain.len() ==> #[trigger] chain[i] == es[path[path.len() - 1 - i]]
}

/// Whether some entries lead from a root down to the entry at `leaf`.
pub open spec fn is_line_to(es: Seq<Members>, chain: Seq<Members>, leaf: int) -> bool {
    exists|path: Seq<int>|
        is_path(es, path) && path[0] == leaf && is_whole(es, path) && #[trigger] is_read_up(
            es,
            path,
            chain,
        )
}

/// Whether an entry is a message of the user or of the assistant.
pub open spec fn is_said(e: Members) -> bool {
    lookup(e, "type"@) == Some(Json::Str("user"@)) || lookup(e, "type"@) == Some(
        Json::Str("assistant"@),
    )
}

/// Whether an entry is kept out of a main conversation: it is of a side chain,
/// meta, or of a team.
pub open spec fn is_hidden(e: Members) -> bool {
    ||| lookup(e, "isSidechain"@) == Some(Json::Bool(true))
    ||| lookup(e, "isMeta"@) == Some(Json::Bool(true))
    ||| told(e, "teamName"@).len() > 0
}

/// The words above are those of the conversation.
proof fn lemma_words(e: Members)
    ensures
        told(e, "uuid"@) == uuid_of(e),
        told(e, "parentUuid"@).len() > 0 ==> parent_of(e) == Some(told(e, "parentUuid"@)),
        told(e, "parentUuid"@).len() == 0 ==> parent_of(e) is None,
        is_said(e) == is_conversation(e),
        is_hidden(e) == is_aside(e),
{
    reveal_strlit("");
    assert(""@ =~= Seq::<char>::empty());
}

/// An entry names the one at the place of its parent, and no other.
proof fn lemma_names(es: Seq<Members>, i: int, k: int)
    requires
        0 <= i < es.len(),
    ensures
        names(es, i, k) <==> parent_of(es[i]) is Some && place_of(es, parent_of(es[i])->0) == Some(
            k,
        ),
{
    lemma_words(es[i]);
    assert forall|j: int| 0 <= j < es.len() implies told(#[trigger] es[j], "uuid"@) == uuid_of(
        es[j],
    ) by {
        lemma_words(es[j]);
    }
    if let Some(p) = parent_of(es[i]) {
        lemma_place_of(es, p);
        if let Some(q) = place_of(es, p) {
            if names(es, i, k) && k != q {
                if k < q {
                    assert(told(es[q], "uuid"@) != p);
                } else {
                    assert(uuid_of(es[k]) != p);
                }
            }
            if k == q {
                assert forall|j: int| k < j < es.len() implies told(#[trigger] es[j], "uuid"@)
                    != told(es[i], "parentUuid"@) by {
                    assert(uuid_of(es[j]) != p);
                }
            }
        } else if names(es, i, k) {
            assert(uuid_of(es[k]) != p);
        }
    }
}

/// Each entry of an ancestry names the next one.
proof fn lemma_ancestry_names(es: Seq<Members>, at: int, seen: Seq<Seq<char>>)
    ensures
        forall|i: int|
            0 <= i < ancestry(es, at, seen).len() - 1 ==> names(
                es,
                #[trigger] ancestry(es, at, seen)[i],
                ancestry(es, at, seen)[i + 1],
            ),
    decreases es.len() - seen.len(),
{
    let up = ancestry(es, at, seen);
    if !(at < 0 || at >= es.len() || seen.len() >= es.len() || seen.contains(uuid_of(es[at]))) {
        if let Some(p) = parent_of(es[at]) {
            if let Some(k) = place_of(es, p) {
                let more = seen.push(uuid_of(es[at]));
                let rest = ancestry(es, k, more);
                lemma_ancestry_names(es, k, more);
                lemma_ancestry_range(es, k, more);
                lemma_names(es, at, k);
                assert(up =~= seq![at] + rest);
                assert forall|i: int| 0 <= i < up.len() - 1 implies names(
                    es,
                    #[trigger] up[i],
                    up[i + 1],
                ) by {
                    if i > 0 {
                        assert(up[i] == rest[i - 1] && up[i + 1] == rest[i]);
                    } else {
                        assert(up[1] == rest[0]);
                    }
                }
            }
        }
    }
}

/// An ancestry is a path that goes on as far as it can.
proof fn lemma_ancestry_path(es: Seq<Members>, at: int)
    requires
        0 <= at < es.len(),
    ensures
        is_path(es, ancestry(es, at, Seq::empty())),
        ancestry(es, at, Seq::empty())[0] == at,
        is_whole(es, ancestry(es, at, Seq::empty())),
{
    let up = ancestry(es, at, Seq::empty());
    lemma_ancestry_range(es, at, Seq::empty());
    lemma_ancestry_links(es, at, Seq::empty());
    lemma_ancestry_end(es, at, Seq::empty());
    lemma_ancestry_names(es, at, Seq::empty());
    assert forall|i: int| 0 <= i < es.len() implies told(#[trigger] es[i], "uuid"@) == uuid_of(
        es[i],
    ) by {
        lemma_words(es[i]);
    }
    assert forall|i: int, j: int| 0 <= i < j < up.len() implies told(
        es[#[trigger] up[i]],
        "uuid"@,
    ) != told(es[#[trigger] up[j]], "uuid"@) by {
        assert(uuid_of(es[up[i]]) != uuid_of(es[up[j]]));
    }
    assert forall|k: int| #[trigger] names(es, up.last(), k) implies exists|i: int|
        0 <= i < up.len() && told(es[#[trigger] up[i]], "uuid"@) == told(es[k], "uuid"@) by {
        lemma_names(es, up.last(), k);
        let p = parent_of(es[up.last()])->0;
        lemma_place_of(es, p);
        let i = choose|i: int| 0 <= i < up.len() && uuid_of(es[#[trigger] up[i]]) == p;
        assert(told(es[up[i]], "uuid"@) == told(es[k], "uuid"@));
    }
}

/// A chain leads from a root down to its leaf.
proof fn lemma_chain_line(es: Seq<Members>, leaf: int)
    requires
        0 <= leaf < es.len(),
    ensures
        is_line_to(es, chain_to(es, leaf), leaf),
        chain_to(es, leaf).len() > 0,
{
    let up = ancestry(es, leaf, Seq::empty());
    lemma_ancestry_path(es, leaf);
    assert(is_read_up(es, up, chain_to(es, leaf)));
}

/// A path whose `uuid`s were not seen is a start of the ancestry.
proof fn lemma_path_is_start(es: Seq<Members>, path: Seq<int>, seen: Seq<Seq<char>>)
    requires
        is_path(es, path),
        seen.no_duplicates(),
        forall|i: int| 0 <= i < seen.len() ==> uuids(es).contains(#[trigger] seen[i]),
        forall|i: int| 0 <= i < path.len() ==> !seen.contains(uuid_of(es[#[trigger] path[i]])),
    ensures
        path.len() <= ancestry(es, path[0], seen).len(),
        forall|i: int| 0 <= i < path.len() ==> #[trigger] ancestry(es, path[0], seen)[i] == path[i],
    decreases path.len(),
{
    let at = path[0];
    let u = uuid_of(es[at]);
    let next = seen.push(u);
    assert(uuids(es)[at] == u);
    assert(uuids(es).contains(u));
    assert forall|i: int| 0 <= i < next.len() implies uuids(es).contains(#[trigger] next[i]) by {
        if i < seen.len() {
            assert(next[i] == seen[i]);
        }
    }
    assert(!seen.contains(uuid_of(es[path[0]])));
    assert(next.no_duplicates()) by {
        assert forall|i: int, j: int|
            0 <= i < next.len() && 0 <= j < next.len() && i != j implies next[i] != next[j] by {
            if i < seen.len() {
                assert(seen.contains(seen[i]));
            }
            if j < seen.len() {
                assert(seen.contains(seen[j]));
            }
        }
    }
    lemma_few_uuids(es, next);
    let up = ancestry(es, at, seen);
    if path.len() > 1 {
        let rest = path.skip(1);
        let k = path[1];
        assert(names(es, path[0], path[1]));
        lemma_names(es, at, k);
        assert(rest[0] == k);
        assert forall|i: int| 0 <= i < rest.len() implies 0 <= #[trigger] rest[i] < es.len() by {
            assert(rest[i] == path[i + 1]);
        }
        assert forall|i: int| 0 <= i < rest.len() - 1 implies names(
            es,
            #[trigger] rest[i],
            rest[i + 1],
        ) by {
            assert(rest[i] == path[i + 1] && rest[i + 1] == path[i + 1 + 1]);
            assert(names(es, path[i + 1], path[i + 1 + 1]));
        }
        assert forall|i: int, j: int| 0 <= i < j < rest.len() implies told(
            es[#[trigger] rest[i]],
            "uuid"@,
        ) != told(es[#[trigger] rest[j]], "uuid"@) by {
            assert(rest[i] == path[i + 1] && rest[j] == path[j + 1]);
        }
        assert forall|i: int| 0 <= i < rest.len() implies !next.contains(
            uuid_of(es[#[trigger] rest[i]]),
        ) by {
            let r = path[i + 1];
            assert(rest[i] == r);
            lemma_words(es[r]);
            lemma_words(es[at]);
            assert(told(es[path[0]], "uuid"@) != told(es[path[i + 1]], "uuid"@));
            assert(!seen.contains(uuid_of(es[r])));
            if next.contains(uuid_of(es[r])) {
                let n = choose|n: int| 0 <= n < next.len() && next[n] == uuid_of(es[r]);
                if n < seen.len() {
                    assert(seen[n] == uuid_of(es[r]));
                }
            }
        }
        lemma_path_is_start(es, rest, next);
        let tail = ancestry(es, k, next);
        assert(up =~= seq![at] + tail);
        assert forall|i: int| 0 <= i < path.len() implies #[trigger] up[i] == path[i] by {
            if i > 0 {
                assert(up[i] == tail[i - 1]);
                assert(rest[i - 1] == path[i]);
            }
        }
    } else {
        lemma_ancestry_range(es, at, seen);
    }
}

// ---------------------------------------------------------------------------
// The leaf of a conversation
// ---------------------------------------------------------------------------

/// Whether no entry names the `uuid` of the entry at `i` as its parent.
pub open spec fn is_end(es: Seq<Members>, i: int) -> bool {
    forall|j: int|
        0 <= j < es.len() ==> told(#[trigger] es[j], "parentUuid"@).len() == 0 || told(
            es[j],
            "parentUuid"@,
        ) != told(es[i], "uuid"@)
}

/// Whether the entry at `leaf` is the first message that is met on the path
/// upwards from an entry which no other one names as its parent.
pub open spec fn is_leaf(es: Seq<Members>, leaf: int) -> bool {
    exists|path: Seq<int>| #[trigger]
        is_path(es, path) && is_end(es, path[0]) && path.last() == leaf && is_said(es[leaf])
            && forall|i: int| 0 <= i < path.len() - 1 ==> !is_said(es[#[trigger] path[i]])
}

/// Whether the entry at `a` does not stand behind the one at `b`, where an
/// entry stands where the last one with its `uuid` stands.
pub open spec fn not_behind(es: Seq<Members>, a: int, b: int) -> bool {
    exists|k: int|
        0 <= k < es.len() && told(#[trigger] es[k], "uuid"@) == told(es[b], "uuid"@) && forall|
            j: int,
        |
            0 <= j < es.len() && told(#[trigger] es[j], "uuid"@) == told(es[a], "uuid"@) ==> j <= k
}

/// The first message on an ancestry.
proof fn lemma_first_on(es: Seq<Members>, up: Seq<int>)
    requires
        forall|i: int| 0 <= i < up.len() ==> 0 <= #[trigger] up[i] < es.len(),
    ensures
        match first_conversation(es, up) {
            Some(leaf) => exists|n: int|
                0 <= n < up.len() && #[trigger] up[n] == leaf && is_said(es[leaf]) && forall|i: int|
                    0 <= i < n ==> !is_said(es[#[trigger] up[i]]),
            None => forall|i: int| 0 <= i < up.len() ==> !is_said(es[#[trigger] up[i]]),
        },
    decreases up.len(),
{
    if up.len() > 0 {
        lemma_words(es[up[0]]);
        if !is_conversation(es[up[0]]) {
            let rest = up.skip(1);
            assert forall|i: int| 0 <= i < rest.len() implies 0 <= #[trigger] rest[i] < es.len() by {
                assert(rest[i] == up[i + 1]);
            }
            lemma_first_on(es, rest);
            if let Some(leaf) = first_conversation(es, rest) {
                let n = choose|n: int|
                    0 <= n < rest.len() && #[trigger] rest[n] == leaf && is_said(es[leaf])
                        && forall|i: int| 0 <= i < n ==> !is_said(es[#[trigger] rest[i]]);
                assert(up[n + 1] == leaf);
                assert forall|i: int| 0 <= i < n + 1 implies !is_said(es[#[trigger] up[i]]) by {
                    if i > 0 {
                        assert(rest[i - 1] == up[i]);
                    }
                }
            } else {
                assert forall|i: int| 0 <= i < up.len() implies !is_said(es[#[trigger] up[i]]) by {
                    if i > 0 {
                        assert(rest[i - 1] == up[i]);
                    }
                }
            }
        } else {
            assert(up[0] == first_conversation(es, up)->0);
        }
    }
}

/// An end is a terminal entry.
proof fn lemma_end(es: Seq<Members>, i: int)
    requires
        0 <= i < es.len(),
    ensures
        is_end(es, i) == is_terminal(es, i),
{
    lemma_words(es[i]);
    assert forall|j: int| 0 <= j < es.len() implies (parent_of(#[trigger] es[j]) != Some(
        uuid_of(es[i]),
    )) == (told(es[j], "parentUuid"@).len() == 0 || told(es[j], "parentUuid"@) != told(
        es[i],
        "uuid"@,
    )) by {
        lemma_words(es[j]);
    }
    if is_end(es, i) {
        assert forall|j: int| 0 <= j < es.len() implies parent_of(#[trigger] es[j]) != Some(
            uuid_of(es[i]),
        ) by {
            assert(told(es[j], "parentUuid"@).len() == 0 || told(es[j], "parentUuid"@) != told(
                es[i],
                "uuid"@,
            ));
        }
    }
    if is_terminal(es, i) {
        assert forall|j: int| 0 <= j < es.len() implies told(
            #[trigger] es[j],
            "parentUuid"@,
        ).len() == 0 || told(es[j], "parentUuid"@) != told(es[i], "uuid"@) by {
            assert(parent_of(es[j]) != Some(uuid_of(es[i])));
        }
    }
}

/// The first message above a terminal entry is a leaf.
proof fn lemma_found_leaf(es: Seq<Members>, t: int)
    requires
        0 <= t < es.len(),
        is_terminal(es, t),
        first_conversation(es, ancestry(es, t, Seq::empty())) is Some,
    ensures
        is_leaf(es, first_conversation(es, ancestry(es, t, Seq::empty()))->0),
{
    let up = ancestry(es, t, Seq::empty());
    lemma_ancestry_path(es, t);
    lemma_first_on(es, up);
    lemma_end(es, t);
    let leaf = first_conversation(es, up)->0;
    let n = choose|n: int|
        0 <= n < up.len() && #[trigger] up[n] == leaf && is_said(es[leaf]) && forall|i: int|
            0 <= i < n ==> !is_said(es[#[trigger] up[i]]);
    let path = up.take(n + 1);
    assert(forall|i: int| 0 <= i < path.len() ==> #[trigger] path[i] == up[i]);
    assert forall|i: int| 0 <= i < path.len() - 1 implies names(
        es,
        #[trigger] path[i],
        path[i + 1],
    ) by {
        assert(names(es, up[i], up[i + 1]));
    }
    assert forall|i: int, j: int| 0 <= i < j < path.len() implies told(
        es[#[trigger] path[i]],
        "uuid"@,
    ) != told(es[#[trigger] path[j]], "uuid"@) by {
        assert(path[i] == up[i] && path[j] == up[j]);
    }
    assert(is_path(es, path));
    assert(path.last() == leaf);
    assert forall|i: int| 0 <= i < path.len() - 1 implies !is_said(es[#[trigger] path[i]]) by {
        assert(path[i] == up[i]);
    }
}

/// The leaves are those that the terminal entries lead up to.
proof fn lemma_leaves_are(es: Seq<Members>, n: int)
    requires
        n <= es.len(),
    ensures
        forall|i: int| 0 <= i < leaves(es, n).len() ==> is_leaf(es, #[trigger] leaves(es, n)[i]),
        forall|t: int|
            0 <= t < n && is_terminal(es, t) && (#[trigger] first_conversation(
                es,
                ancestry(es, t, Seq::empty()),
            )) is Some ==> leaves(es, n).contains(
                first_conversation(es, ancestry(es, t, Seq::empty()))->0,
            ),
    decreases n,
{
    if n > 0 {
        lemma_leaves_are(es, n - 1);
        let before = leaves(es, n - 1);
        let now = leaves(es, n);
        let up = ancestry(es, n - 1, Seq::empty());
        if is_terminal(es, n - 1) && first_conversation(es, up) is Some {
            lemma_found_leaf(es, n - 1);
            assert(now == before.push(first_conversation(es, up)->0));
            assert(now[before.len() as int] == first_conversation(es, up)->0);
        }
        assert forall|i: int| 0 <= i < now.len() implies is_leaf(es, #[trigger] now[i]) by {
            if i < before.len() {
                assert(now[i] == before[i]);
            }
        }
        assert forall|t: int|
            0 <= t < n && is_terminal(es, t) && (#[trigger] first_conversation(
                es,
                ancestry(es, t, Seq::empty()),
            )) is Some implies now.contains(
            first_conversation(es, ancestry(es, t, Seq::empty()))->0,
        ) by {
            if t < n - 1 {
                let leaf = first_conversation(es, ancestry(es, t, Seq::empty()))->0;
                assert(before.contains(leaf));
                let i = choose|i: int| 0 <= i < before.len() && before[i] == leaf;
                assert(now[i] == leaf);
            }
        }
    }
}

/// Every leaf is among the leaves.
proof fn lemma_every_leaf(es: Seq<Members>, leaf: int)
    requires
        is_leaf(es, leaf),
    ensures
        leaves(es, es.len() as int).contains(leaf),
        0 <= leaf < es.len(),
{
    let path = choose|path: Seq<int>| #[trigger]
        is_path(es, path) && is_end(es, path[0]) && path.last() == leaf && is_said(es[leaf])
            && forall|i: int| 0 <= i < path.len() - 1 ==> !is_said(es[#[trigger] path[i]]);
    let t = path[0];
    assert(0 <= path[0] < es.len());
    let n = path.len() - 1;
    assert(0 <= path[n] < es.len());
    let up = ancestry(es, t, Seq::empty());
    lemma_path_is_start(es, path, Seq::empty());
    lemma_ancestry_range(es, t, Seq::empty());
    lemma_first_on(es, up);
    lemma_end(es, t);
    assert(up[n] == path[n]);
    if let Some(f) = first_conversation(es, up) {
        let m = choose|m: int|
            0 <= m < up.len() && #[trigger] up[m] == f && is_said(es[f]) && forall|i: int|
                0 <= i < m ==> !is_said(es[#[trigger] up[i]]);
        if m < n {
            assert(up[m] == path[m]);
            assert(!is_said(es[path[m]]));
        }
        if n < m {
            assert(!is_said(es[up[n]]));
        }
        assert(f == leaf);
    } else {
        assert(!is_said(es[up[n]]));
    }
    lemma_leaves_are(es, es.len() as int);
    assert(first_conversation(es, ancestry(es, t, Seq::empty())) is Some);
}

/// No position ranks higher than the best.
proof fn lemma_best_ranks(es: Seq<Members>, places: Seq<int>, c: int)
    requires
        places.contains(c),
    ensures
        rank(es, c) <= rank(es, best(es, places)),
    decreases places.len(),
{
    let i = choose|i: int| 0 <= i < places.len() && places[i] == c;
    if places.len() > 1 {
        let init = places.drop_last();
        if i < init.len() {
            assert(init[i] == c);
            lemma_best_ranks(es, init, c);
        }
    }
}

/// Ranks tell which entry stands behind which.
proof fn lemma_ranks(es: Seq<Members>, a: int, b: int)
    requires
        0 <= a < es.len(),
        0 <= b < es.len(),
        rank(es, a) <= rank(es, b),
    ensures
        not_behind(es, a, b),
{
    assert forall|j: int| 0 <= j < es.len() implies told(#[trigger] es[j], "uuid"@) == uuid_of(
        es[j],
    ) by {
        lemma_words(es[j]);
    }
    lemma_place_of(es, uuid_of(es[a]));
    lemma_place_of(es, uuid_of(es[b]));
    let k = rank(es, b);
    assert(told(es[k], "uuid"@) == told(es[b], "uuid"@));
    assert forall|j: int|
        0 <= j < es.len() && told(#[trigger] es[j], "uuid"@) == told(es[a], "uuid"@) implies j
        <= k by {
        if j > rank(es, a) {
            assert(uuid_of(es[j]) != uuid_of(es[a]));
        }
    }
}

/// A conversation leads from a root down to a leaf, each entry naming the one
/// before it as its parent. The leaf is the first message above an entry that
/// none names as its parent. It is one that is not hidden, where there is such
/// a leaf, and of those the one that stands last. Without a leaf there is no
/// conversation.
pub proof fn law_conversation_ends_at_the_latest_leaf(es: Seq<Members>)
    ensures
        (exists|leaf: int| #[trigger] is_leaf(es, leaf)) <==> conversation(es).len() > 0,
        conversation(es).len() > 0 ==> exists|leaf: int| #[trigger]
            is_leaf(es, leaf) && is_line_to(es, conversation(es), leaf) && forall|other: int|
                #[trigger]
                is_leaf(es, other) ==> {
                    &&& is_hidden(es[leaf]) ==> is_hidden(es[other])
                    &&& is_hidden(es[leaf]) == is_hidden(es[other]) ==> not_behind(es, other, leaf)
                },
{
    let all = leaves(es, es.len() as int);
    let keep = |i: int| !is_aside(es[i]);
    let main = main_only(es, all);
    lemma_leaves(es, es.len() as int);
    lemma_leaves_are(es, es.len() as int);
    lemma_chain_leaf(es);
    assert forall|other: int| #[trigger] is_leaf(es, other) implies all.contains(other) by {
        lemma_every_leaf(es, other);
    }
    if all.len() > 0 {
        assert(is_leaf(es, all[0]));
        let leaf = chain_leaf(es)->0;
        lemma_chain_line(es, leaf);
        lemma_words(es[leaf]);
        lemma_best(es, all);
        broadcast use vstd::seq_lib::group_filter_ensures;

        if main.len() > 0 {
            lemma_best(es, main);
            let n = choose|n: int| 0 <= n < main.len() && main[n] == leaf;
            assert(keep(all.filter(keep)[n]));
            all.lemma_filter_contains_rev(keep, leaf);
        }
        assert(all.contains(leaf));
        let n = choose|n: int| 0 <= n < all.len() && all[n] == leaf;
        assert(is_leaf(es, all[n]));
        assert forall|other: int| #[trigger] is_leaf(es, other) implies {
            &&& is_hidden(es[leaf]) ==> is_hidden(es[other])
            &&& is_hidden(es[leaf]) == is_hidden(es[other]) ==> not_behind(es, other, leaf)
        } by {
            lemma_every_leaf(es, other);
            lemma_words(es[other]);
            let m = choose|m: int| 0 <= m < all.len() && all[m] == other;
            if !is_aside(es[other]) {
                assert(keep(all[m]));
                assert(main.contains(all[m]));
            }
            if is_aside(es[leaf]) == is_aside(es[other]) {
                if main.len() > 0 {
                    lemma_best_ranks(es, main, other);
                } else {
                    lemma_best_ranks(es, all, other);
                }
                lemma_ranks(es, other, leaf);
            }
        }
    }
}

/// The last message of a transcript.
proof fn lemma_last_conversation(es: Seq<Members>)
    ensures
        match last_conversation(es) {
            Some(k) => 0 <= k < es.len() && is_said(es[k]) && forall|j: int|
                k < j < es.len() ==> !is_said(#[trigger] es[j]),
            None => forall|j: int| 0 <= j < es.len() ==> !is_said(#[trigger] es[j]),
        },
    decreases es.len(),
{
    if es.len() > 0 {
        lemma_words(es.last());
        if !is_conversation(es.last()) {
            let init = es.drop_last();
            lemma_last_conversation(init);
            assert(forall|j: int| 0 <= j < init.len() ==> #[trigger] init[j] == es[j]);
            assert forall|j: int|
                (match last_conversation(es) {
                    Some(k) => k,
                    None => -1,
                }) < j < es.len() implies !is_said(#[trigger] es[j]) by {
                if j < init.len() {
                    assert(init[j] == es[j]);
                }
            }
        }
    }
}

/// The conversation of a subagent leads from a root down to the last message
/// of its transcript. Without a message there is none.
pub proof fn law_subagent_conversation_ends_at_the_last_message(es: Seq<Members>, leaf: int)
    requires
        -1 <= leaf < es.len(),
        leaf >= 0 ==> is_said(es[leaf]),
        forall|j: int| leaf < j < es.len() ==> !is_said(#[trigger] es[j]),
    ensures
        leaf >= 0 ==> is_line_to(es, subagent_conversation(es), leaf)
            && subagent_conversation(es).len() > 0,
        leaf < 0 ==> subagent_conversation(es).len() == 0,
{
    lemma_last_conversation(es);
    if let Some(k) = last_conversation(es) {
        if k < leaf {
            assert(!is_said(es[leaf]));
        }
        if leaf < k {
            assert(!is_said(es[k]));
        }
        lemma_chain_line(es, leaf);
    } else if leaf >= 0 {
        assert(!is_said(es[leaf]));
    }
}

// ---------------------------------------------------------------------------
// The messages of a conversation
// ---------------------------------------------------------------------------

/// Whether a message is that of an entry: who wrote it, its `uuid`, its
/// session and its payload are those of the entry.
pub open spec fn is_message_of(m: Message, e: Members) -> bool {
    &&& lookup(e, "type"@) == Some(Json::Str("user"@)) ==> m.message_type
        == SessionMessageType::User
    &&& lookup(e, "type"@) == Some(Json::Str("assistant"@)) ==> m.message_type
        == SessionMessageType::Assistant
    &&& m.uuid == told(e, "uuid"@)
    &&& m.session_id == told(e, "sessionId"@)
    &&& m.message == lookup(e, "message"@)
    &&& m.parent_tool_use_id is None
}

/// A message carries what its entry says.
proof fn lemma_message_of(e: Members)
    requires
        is_said(e),
    ensures
        is_message_of(message_of(e), e),
{
    reveal_strlit("");
    assert(""@ =~= Seq::<char>::empty());
    reveal_strlit("user");
    reveal_strlit("assistant");
    assert("user"@.len() == 4 && "assistant"@.len() == 9);
}

/// Messages are shown entry by entry, in order: one for each entry that is a
/// message of the user or of the assistant and is not hidden, with what that
/// entry says, and none for any other.
pub proof fn law_shown_messages(before: Seq<Members>, e: Members, behind: Seq<Members>)
    ensures
        visible_messages(before + behind) == visible_messages(before) + visible_messages(behind),
        visible_messages(Seq::empty()).len() == 0,
        is_said(e) && !is_hidden(e) ==> visible_messages(seq![e]).len() == 1 && is_message_of(
            visible_messages(seq![e])[0],
            e,
        ),
        !is_said(e) || is_hidden(e) ==> visible_messages(seq![e]).len() == 0,
{
    let keep = |x: Members| is_visible(x);
    Seq::filter_distributes_over_add(before, behind, keep);
    assert(visible_messages(before + behind) =~= visible_messages(before) + visible_messages(
        behind,
    ));
    lemma_words(e);
    reveal_with_fuel(Seq::filter, 2);
    assert(seq![e].drop_last() =~= Seq::<Members>::empty());
    assert(seq![e].last() == e);
    if is_said(e) && !is_hidden(e) {
        lemma_message_of(e);
        assert(seq![e].filter(keep) =~= seq![e]);
    } else {
        assert(seq![e].filter(keep) =~= Seq::<Members>::empty());
    }
}

/// The messages of a subagent are told entry by entry, in order: one for each
/// entry that is a message of the user or of the assistant, with what that
/// entry says, hidden or not, and none for any other.
pub proof fn law_subagent_messages(before: Seq<Members>, e: Members, behind: Seq<Members>)
    ensures
        conversation_messages(before + behind) == conversation_messages(before)
            + conversation_messages(behind),
        conversation_messages(Seq::empty()).len() == 0,
        is_said(e) ==> conversation_messages(seq![e]).len() == 1 && is_message_of(
            conversation_messages(seq![e])[0],
            e,
        ),
        !is_said(e) ==> conversation_messages(seq![e]).len() == 0,
{
    let keep = |x: Members| is_conversation(x);
    Seq::filter_distributes_over_add(before, behind, keep);
    assert(conversation_messages(before + behind) =~= conversation_messages(before)
        + conversation_messages(behind));
    lemma_words(e);
    reveal_with_fuel(Seq::filter, 2);
    assert(seq![e].drop_last() =~= Seq::<Members>::empty());
    assert(seq![e].last() == e);
    if is_said(e) {
        lemma_message_of(e);
        assert(seq![e].filter(keep) =~= seq![e]);
    } else {
        assert(seq![e].filter(keep) =~= Seq::<Members>::empty());
    }
}

/// Whether some messages are those of entries, one by one.
pub open spec fn are_messages_of(ms: Seq<Message>, es: Seq<Members>) -> bool {
    &&& ms.len() == es.len()
    &&& forall|i: int| 0 <= i < ms.len() ==> is_message_of(#[trigger] ms[i], es[i])
}

/// The messages that a read of a session returns are, one by one, those of the
/// entries of its conversation that are messages of the user or of the
/// assistant and are not hidden.
pub proof fn law_read_messages_are_those_of_the_conversation(es: Seq<Members>)
    ensures
        are_messages_of(
            visible_messages(conversation(es)),
            conversation(es).filter(|e: Members| is_said(e) && !is_hidden(e)),
        ),
{
    lemma_shown(conversation(es));
}

/// The messages that are shown of entries are those of the entries that are
/// said and not hidden.
proof fn lemma_shown(es: Seq<Members>)
    ensures
        are_messages_of(
            visible_messages(es),
            es.filter(|e: Members| is_said(e) && !is_hidden(e)),
        ),
    decreases es.len(),
{
    let keep = |e: Members| is_said(e) && !is_hidden(e);
    reveal(Seq::filter);
    if es.len() > 0 {
        let init = es.drop_last();
        let e = es.last();
        lemma_shown(init);
        law_shown_messages(init, e, seq![e]);
        assert(init + seq![e] =~= es);
        let ms = visible_messages(es);
        let were = visible_messages(init);
        assert forall|i: int| 0 <= i < ms.len() implies is_message_of(
            #[trigger] ms[i],
            es.filter(keep)[i],
        ) by {
            if i < were.len() {
                assert(ms[i] == were[i]);
                assert(is_message_of(were[i], init.filter(keep)[i]));
            }
        }
    }
}

/// The messages that a read of a subagent returns are, one by one, those of
/// the entries of its conversation that are messages of the user or of the
/// assistant, whatever else these entries say.
pub proof fn law_read_subagent_messages_are_those_of_its_conversation(es: Seq<Members>)
    ensures
        are_messages_of(
            conversation_messages(subagent_conversation(es)),
            subagent_conversation(es).filter(|e: Members| is_said(e)),
        ),
{
    lemma_told(subagent_conversation(es));
}

/// The messages that are told of entries are those of the entries that are
/// said.
proof fn lemma_told(es: Seq<Members>)
    ensures
        are_messages_of(conversation_messages(es), es.filter(|e: Members| is_said(e))),
    decreases es.len(),
{
    let keep = |e: Members| is_said(e);
    reveal(Seq::filter);
    if es.len() > 0 {
        let init = es.drop_last();
        let e = es.last();
        lemma_told(init);
        law_subagent_messages(init, e, seq![e]);
        assert(init + seq![e] =~= es);
        let ms = conversation_messages(es);
        let were = conversation_messages(init);
        assert forall|i: int| 0 <= i < ms.len() implies is_message_of(
            #[trigger] ms[i],
            es.filter(keep)[i],
        ) by {
            if i < were.len() {
                assert(ms[i] == were[i]);
                assert(is_message_of(were[i], init.filter(keep)[i]));
            }
        }
    }
}

/// Whether a message is that of an entry of a transcript which is a message of
/// the user or of the assistant, and with `main` not hidden either.
pub open spec fn is_told_in(m: Message, es: Seq<Members>, main: bool) -> bool {
    exists|k: int|
        0 <= k < es.len() && is_message_of(m, #[trigger] es[k]) && is_said(es[k]) && (main
            ==> !is_hidden(es[k]))
}

/// Every message that a read returns is told in the transcript.
pub proof fn law_read_messages_are_told(es: Seq<Members>)
    ensures
        forall|i: int|
            0 <= i < visible_messages(conversation(es)).len() ==> is_told_in(
                #[trigger] visible_messages(conversation(es))[i],
                es,
                true,
            ),
        forall|i: int|
            0 <= i < conversation_messages(subagent_conversation(es)).len() ==> is_told_in(
                #[trigger] conversation_messages(subagent_conversation(es))[i],
                es,
                false,
            ),
{
    let a = conversation(es);
    let b = subagent_conversation(es);
    let f = |e: Members| is_said(e) && !is_hidden(e);
    let g = |e: Members| is_said(e);
    lemma_shown(a);
    lemma_told(b);
    lemma_chain_leaf(es);
    lemma_last_conversation(es);
    assert forall|i: int| 0 <= i < visible_messages(a).len() implies is_told_in(
        #[trigger] visible_messages(a)[i],
        es,
        true,
    ) by {
        let e = a.filter(f)[i];
        assert(is_message_of(visible_messages(a)[i], e));
        a.lemma_filter_pred(f, i);
        assert(a.filter(f).contains(e));
        a.lemma_filter_contains_rev(f, e);
        lemma_chain_entries(es, chain_leaf(es)->0, e);
        let k = choose|k: int| 0 <= k < es.len() && es[k] == e;
        assert(is_message_of(visible_messages(a)[i], es[k]));
    }
    assert forall|i: int| 0 <= i < conversation_messages(b).len() implies is_told_in(
        #[trigger] conversation_messages(b)[i],
        es,
        false,
    ) by {
        let e = b.filter(g)[i];
        assert(is_message_of(conversation_messages(b)[i], e));
        b.lemma_filter_pred(g, i);
        assert(b.filter(g).contains(e));
        b.lemma_filter_contains_rev(g, e);
        lemma_chain_entries(es, last_conversation(es)->0, e);
        let k = choose|k: int| 0 <= k < es.len() && es[k] == e;
        assert(is_message_of(conversation_messages(b)[i], es[k]));
    }
}

/// The entries of a chain are entries of the transcript.
proof fn lemma_chain_entries(es: Seq<Members>, leaf: int, e: Members)
    requires
        chain_to(es, leaf).contains(e),
    ensures
        es.contains(e),
{
    let up = ancestry(es, leaf, Seq::empty());
    lemma_ancestry_range(es, leaf, Seq::empty());
    let chain = chain_to(es, leaf);
    let i = choose|i: int| 0 <= i < chain.len() && chain[i] == e;
    let k = up[up.len() - 1 - i];
    assert(es[k] == e);
}

// ---------------------------------------------------------------------------
// What a subagent's messages depend on
// ---------------------------------------------------------------------------

/// Whether two entries say the same about who they are, what they follow and
/// what their message is.
pub open spec fn say_the_same(a: Members, b: Members) -> bool {
    &&& lookup(a, "type"@) == lookup(b, "type"@)
    &&& lookup(a, "uuid"@) == lookup(b, "uuid"@)
    &&& lookup(a, "parentUuid"@) == lookup(b, "parentUuid"@)
    &&& lookup(a, "sessionId"@) == lookup(b, "sessionId"@)
    &&& lookup(a, "message"@) == lookup(b, "message"@)
}

/// Whether two transcripts say the same, entry by entry.
pub open spec fn are_alike(a: Seq<Members>, b: Seq<Members>) -> bool {
    a.len() == b.len() && forall|i: int| 0 <= i < a.len() ==> say_the_same(#[trigger] a[i], b[i])
}

/// Entries are found at the same positions.
proof fn lemma_alike_places(a: Seq<Members>, b: Seq<Members>, uuid: Seq<char>)
    requires
        are_alike(a, b),
    ensures
        place_of(a, uuid) == place_of(b, uuid),
    decreases a.len(),
{
    if a.len() > 0 {
        let n = a.len() - 1;
        assert(say_the_same(a[n], b[n]));
        let p = a.drop_last();
        let q = b.drop_last();
        assert forall|i: int| 0 <= i < p.len() implies say_the_same(#[trigger] p[i], q[i]) by {
            assert(say_the_same(a[i], b[i]));
        }
        lemma_alike_places(p, q, uuid);
    }
}

/// Parents are followed through the same positions.
proof fn lemma_alike_ancestry(a: Seq<Members>, b: Seq<Members>, at: int, seen: Seq<Seq<char>>)
    requires
        are_alike(a, b),
    ensures
        ancestry(a, at, seen) == ancestry(b, at, seen),
    decreases a.len() - seen.len(),
{
    if 0 <= at < a.len() {
        assert(say_the_same(a[at], b[at]));
        if seen.len() < a.len() {
            if let Some(p) = parent_of(a[at]) {
                lemma_alike_places(a, b, p);
                if let Some(k) = place_of(a, p) {
                    lemma_alike_ancestry(a, b, k, seen.push(uuid_of(a[at])));
                }
            }
        }
    }
}

/// The last message stands at the same position.
proof fn lemma_alike_last(a: Seq<Members>, b: Seq<Members>)
    requires
        are_alike(a, b),
    ensures
        last_conversation(a) == last_conversation(b),
        match last_conversation(a) {
            Some(k) => 0 <= k < a.len(),
            None => true,
        },
    decreases a.len(),
{
    if a.len() > 0 {
        let n = a.len() - 1;
        assert(say_the_same(a[n], b[n]));
        let p = a.drop_last();
        let q = b.drop_last();
        assert forall|i: int| 0 <= i < p.len() implies say_the_same(#[trigger] p[i], q[i]) by {
            assert(say_the_same(a[i], b[i]));
        }
        lemma_alike_last(p, q);
    }
}

/// The same messages are told.
proof fn lemma_alike_messages(a: Seq<Members>, b: Seq<Members>)
    requires
        are_alike(a, b),
    ensures
        conversation_messages(a) == conversation_messages(b),
    decreases a.len(),
{
    reveal(Seq::filter);
    let keep = |e: Members| is_conversation(e);
    if a.len() > 0 {
        let n = a.len() - 1;
        let p = a.drop_last();
        let q = b.drop_last();
        assert(say_the_same(a[n], b[n]));
        assert forall|i: int| 0 <= i < p.len() implies say_the_same(#[trigger] p[i], q[i]) by {
            assert(say_the_same(a[i], b[i]));
        }
        lemma_alike_messages(p, q);
        assert(message_of(a[n]) == message_of(b[n]));
        if is_conversation(a[n]) {
            assert(a.filter(keep) =~= p.filter(keep).push(a[n]));
            assert(b.filter(keep) =~= q.filter(keep).push(b[n]));
            assert(conversation_messages(a) =~= conversation_messages(p).push(message_of(a[n])));
            assert(conversation_messages(b) =~= conversation_messages(q).push(message_of(b[n])));
        } else {
            assert(a.filter(keep) =~= p.filter(keep));
            assert(b.filter(keep) =~= q.filter(keep));
        }
    } else {
        assert(a =~= b);
    }
}

/// The messages of a subagent depend on nothing but the type, the `uuid`, the
/// parent, the session and the message of its entries. Marking or unmarking
/// entries as a side chain, as meta or as a team's changes none of them.
pub proof fn law_marks_do_not_hide_subagent_messages(a: Seq<Members>, b: Seq<Members>)
    requires
        are_alike(a, b),
    ensures
        conversation_messages(subagent_conversation(a)) == conversation_messages(
            subagent_conversation(b),
        ),
{
    lemma_alike_last(a, b);
    let p = subagent_conversation(a);
    let q = subagent_conversation(b);
    if let Some(leaf) = last_conversation(a) {
        lemma_alike_ancestry(a, b, leaf, Seq::empty());
        lemma_ancestry_range(a, leaf, Seq::empty());
        let up = ancestry(a, leaf, Seq::empty());
        assert forall|i: int| 0 <= i < p.len() implies say_the_same(#[trigger] p[i], q[i]) by {
            let k = up[up.len() - 1 - i];
            assert(p[i] == a[k] && q[i] == b[k]);
            assert(say_the_same(a[k], b[k]));
        }
    }
    lemma_alike_messages(p, q);
}

} // verus!
