//! What a fork is in terms of the links between the entries it is made from.
use vstd::prelude::*;

use crate::json::{distinct_keys, lookup, text_field, Json, Members};
use crate::sessions::fork::{
    all_replacements, content_objects, content_source, entries_title, first_named, fork_entries,
    fork_source, fork_title, fork_title_members, forked, forked_loaded, forked_upto, fresh_uuid,
    is_progress, last_full_text, last_named, last_written, law_forked_fields, main_entries, origin,
    own_uuid, replacement_members, replacements_in, written_ancestor, Fresh,
};
use crate::sessions::lineage::{names, told};
use crate::sessions::mutations::no_messages_text;
use crate::sessions::transcript::{is_transcript_entry, parent_of, transcript_only};

verus! {

broadcast use vstd::string::group_string_axioms;

// ---------------------------------------------------------------------------
// Parents
// ---------------------------------------------------------------------------

/// Whether an entry is a link of the chain that a fork does not write.
pub open spec fn is_unwritten(e: Members) -> bool {
    lookup(e, "type"@) == Some(Json::Str("progress"@))
}

/// Whether a path leads from its first entry upwards, each entry naming the
/// next one as its parent. Behind the first one no entry comes twice, and all
/// before the last one are unwritten.
pub open spec fn is_way_up(ts: Seq<Members>, path: Seq<int>) -> bool {
    &&& path.len() > 0
    &&& 0 <= path[0] < ts.len()
    &&& forall|n: int| 0 <= n < path.len() - 1 ==> names(ts, #[trigger] path[n], path[n + 1])
    &&& forall|n: int| 0 < n < path.len() - 1 ==> is_unwritten(ts[#[trigger] path[n]])
    &&& forall|n: int, m: int|
        0 < n < m < path.len() ==> #[trigger] path[n] != #[trigger] path[m]
}

/// Whether a way up ends where no parent follows: at an entry that names none
/// which is kept, or at one that names an unwritten entry of the way again.
pub open spec fn is_dead_end(ts: Seq<Members>, path: Seq<int>) -> bool {
    &&& path.len() > 1 ==> is_unwritten(ts[path.last()])
    &&& forall|k: int| #[trigger]
        names(ts, path.last(), k) ==> exists|n: int| 0 < n < path.len() && #[trigger] path[n] == k
}

/// Where the last entry with a `uuid` stands.
proof fn lemma_named(ts: Seq<Members>, uuid: Seq<char>)
    ensures
        match last_named(ts, uuid) {
            Some(k) => 0 <= k < ts.len() && text_field(ts[k], "uuid"@) == Some(uuid) && forall|
                j: int,
            |
                k < j < ts.len() ==> text_field(#[trigger] ts[j], "uuid"@) != Some(uuid),
            None => forall|j: int|
                0 <= j < ts.len() ==> text_field(#[trigger] ts[j], "uuid"@) != Some(uuid),
        },
    decreases ts.len(),
{
    if ts.len() > 0 && text_field(ts.last(), "uuid"@) != Some(uuid) {
        lemma_named(ts.drop_last(), uuid);
        assert(forall|j: int| 0 <= j < ts.len() - 1 ==> ts.drop_last()[j] == ts[j]);
    }
}

/// An entry names the last one with the `uuid` of its parent, and no other.
proof fn lemma_names_last(ts: Seq<Members>, i: int, k: int)
    requires
        0 <= i < ts.len(),
    ensures
        names(ts, i, k) <==> parent_of(ts[i]) is Some && last_named(ts, parent_of(ts[i])->0)
            == Some(k),
{
    let p = told(ts[i], "parentUuid"@);
    assert(parent_of(ts[i]) == if p.len() > 0 {
        Some(p)
    } else {
        None
    });
    if p.len() > 0 {
        lemma_named(ts, p);
        assert forall|j: int| 0 <= j < ts.len() implies (told(#[trigger] ts[j], "uuid"@) == p) == (
        text_field(ts[j], "uuid"@) == Some(p)) by {}
        if let Some(q) = last_named(ts, p) {
            if names(ts, i, k) {
                if k < q {
                    assert(told(ts[q], "uuid"@) != p);
                }
                if q < k {
                    assert(text_field(ts[k], "uuid"@) != Some(p));
                }
            }
            if k == q {
                assert forall|j: int| k < j < ts.len() implies told(#[trigger] ts[j], "uuid"@)
                    != told(ts[i], "parentUuid"@) by {
                    assert(text_field(ts[j], "uuid"@) != Some(p));
                }
            }
        } else if names(ts, i, k) {
            assert(text_field(ts[k], "uuid"@) != Some(p));
        }
    }
}

/// Different positions are not more than the entries.
proof fn lemma_few_positions(path: Seq<int>, n: int)
    requires
        path.no_duplicates(),
        forall|i: int| 0 <= i < path.len() ==> 0 <= #[trigger] path[i] < n,
    ensures
        path.len() <= n || path.len() == 0,
{
    if path.len() > 0 {
        assert(0 <= path[0] < n);
        let all = vstd::set_lib::set_int_range(0, n);
        vstd::set_lib::lemma_int_range(0, n);
        path.unique_seq_to_set();
        assert(path.to_set().subset_of(all)) by {
            assert forall|x: int| path.to_set().contains(x) implies all.contains(x) by {
                let i = choose|i: int| 0 <= i < path.len() && path[i] == x;
                assert(0 <= path[i] < n);
            }
        }
        vstd::set_lib::lemma_len_subset(path.to_set(), all);
    }
}

/// A way up is not longer than the transcript, but for its first entry.
proof fn lemma_way_is_short(ts: Seq<Members>, path: Seq<int>)
    requires
        is_way_up(ts, path),
    ensures
        path.len() <= ts.len() + 1,
{
    let rest = path.skip(1);
    assert(rest.no_duplicates()) by {
        assert forall|n: int, m: int|
            0 <= n < rest.len() && 0 <= m < rest.len() && n != m implies rest[n] != rest[m] by {
            assert(rest[n] == path[n + 1] && rest[m] == path[m + 1]);
            if n < m {
                assert(path[n + 1] != path[m + 1]);
            } else {
                assert(path[m + 1] != path[n + 1]);
            }
        }
    }
    assert forall|n: int| 0 <= n < rest.len() implies 0 <= #[trigger] rest[n] < ts.len() by {
        assert(names(ts, path[n], path[n + 1]));
        assert(rest[n] == path[n + 1]);
    }
    lemma_few_positions(rest, ts.len() as int);
}

/// What is found from position `n` of a way up on.
proof fn lemma_way_found(ts: Seq<Members>, ids: Seq<Seq<char>>, path: Seq<int>, n: int, steps: nat)
    requires
        is_way_up(ts, path),
        0 <= n < path.len() - 1,
        !is_unwritten(ts[path.last()]),
        steps >= path.len() - 1 - n,
    ensures
        written_ancestor(ts, ids, parent_of(ts[path[n]]), steps) == Some(ids[path.last()]),
    decreases path.len() - n,
{
    let k = path[n + 1];
    assert(names(ts, path[n], path[n + 1]));
    lemma_names_last(ts, path[n], k);
    if n + 1 < path.len() - 1 {
        assert(is_unwritten(ts[path[n + 1]]));
        assert(is_progress(ts[k]));
        lemma_way_found(ts, ids, path, n + 1, (steps - 1) as nat);
    } else {
        assert(!is_progress(ts[k]));
    }
}

/// From a dead end nothing is found.
proof fn lemma_way_lost(ts: Seq<Members>, ids: Seq<Seq<char>>, path: Seq<int>, n: int, steps: nat)
    requires
        is_way_up(ts, path),
        is_dead_end(ts, path),
        0 <= n < path.len(),
    ensures
        written_ancestor(ts, ids, parent_of(ts[path[n]]), steps) is None,
    decreases steps,
{
    if n > 0 {
        assert(names(ts, path[n - 1], path[n - 1 + 1]));
    }
    let i = path[n];
    if let Some(p) = parent_of(ts[i]) {
        if let Some(k) = last_named(ts, p) {
            lemma_names_last(ts, i, k);
            let m = if n < path.len() - 1 {
                assert(names(ts, path[n], path[n + 1]));
                lemma_names_last(ts, i, path[n + 1]);
                n + 1
            } else {
                assert(names(ts, path.last(), k));
                choose|m: int| 0 < m < path.len() && #[trigger] path[m] == k
            };
            assert(path[m] == k);
            if m < path.len() - 1 {
                assert(is_unwritten(ts[path[m]]));
            }
            assert(is_progress(ts[k]));
            if steps > 0 {
                lemma_way_lost(ts, ids, path, m, (steps - 1) as nat);
            }
        }
    }
}

/// However many unwritten entries stand between a kept entry and the nearest
/// one above it that is written, the forked entry names that one as its
/// parent: by the `uuid` that the forked parent has.
pub proof fn law_fork_keeps_the_chain_past_unwritten_entries(
    ts: Seq<Members>,
    ids: Seq<Seq<char>>,
    path: Seq<int>,
    old_id: Seq<char>,
    new_id: Seq<char>,
    now: Seq<char>,
)
    requires
        is_way_up(ts, path),
        path.len() > 1,
        !is_unwritten(ts[path.last()]),
        distinct_keys(ts[path[0]]),
        distinct_keys(ts[path.last()]),
    ensures
        ({
            let child = forked(ts, ids, path[0], old_id, new_id, now);
            let parent = forked(ts, ids, path.last(), old_id, new_id, now);
            &&& lookup(child, "parentUuid"@) == lookup(parent, "uuid"@)
            &&& lookup(child, "parentUuid"@) == Some(Json::Str(ids[path.last()]))
        }),
{
    let i = path[0];
    let j = path.last();
    let n = path.len() - 2;
    assert(names(ts, path[n], path[n + 1]));
    lemma_way_is_short(ts, path);
    lemma_way_found(ts, ids, path, 0, ts.len());
    lemma_names_last(ts, path[n], j);
    law_forked_fields(ts, ids, i, old_id, new_id, now, "type"@);
    law_forked_fields(ts, ids, j, old_id, new_id, now, "type"@);
    let p = parent_of(ts[path[n]])->0;
    lemma_named(ts, p);
    assert(own_uuid(ts[j]) == p);
    assert(fresh_uuid(ts, ids, ts[j]) == ids[j]);
    let m = forked(ts, ids, j, old_id, new_id, now);
    assert(text_field(m, "uuid"@) == Some(ids[j]));
    assert(lookup(m, "uuid"@) == Some(Json::Str(ids[j])));
}

/// A forked entry has no parent where the way up from it ends at an entry
/// without a kept parent, or runs in a loop of unwritten entries.
pub proof fn law_fork_has_no_parent_at_a_dead_end(
    ts: Seq<Members>,
    ids: Seq<Seq<char>>,
    path: Seq<int>,
    old_id: Seq<char>,
    new_id: Seq<char>,
    now: Seq<char>,
)
    requires
        is_way_up(ts, path),
        is_dead_end(ts, path),
        distinct_keys(ts[path[0]]),
    ensures
        lookup(forked(ts, ids, path[0], old_id, new_id, now), "parentUuid"@) == Some(Json::Null),
{
    lemma_way_lost(ts, ids, path, 0, ts.len());
    law_forked_fields(ts, ids, path[0], old_id, new_id, now, "type"@);
}

/// Whether a way up from an entry ends at a written entry or at a dead end.
pub open spec fn is_settled(ts: Seq<Members>, path: Seq<int>, i: int) -> bool {
    &&& is_way_up(ts, path)
    &&& path[0] == i
    &&& path.len() > 1 && !is_unwritten(ts[path.last()]) || is_dead_end(ts, path)
}

/// From every entry there is a way up that ends at a written entry or at a
/// dead end.
pub proof fn law_every_way_up_is_settled(ts: Seq<Members>, i: int)
    requires
        0 <= i < ts.len(),
    ensures
        exists|path: Seq<int>| is_settled(ts, path, i),
{
    lemma_settle(ts, seq![i]);
}

/// A way up can be followed to its end.
proof fn lemma_settle(ts: Seq<Members>, path: Seq<int>)
    requires
        is_way_up(ts, path),
        path.len() > 1 ==> is_unwritten(ts[path.last()]),
    ensures
        exists|whole: Seq<int>| is_settled(ts, whole, path[0]),
    decreases ts.len() + 1 - path.len(),
{
    lemma_way_is_short(ts, path);
    if is_dead_end(ts, path) {
        assert(is_settled(ts, path, path[0]));
    } else {
        let k = choose|k: int| #[trigger]
            names(ts, path.last(), k) && !(exists|n: int|
                0 < n < path.len() && #[trigger] path[n] == k);
        let next = path.push(k);
        assert forall|n: int| 0 <= n < next.len() - 1 implies names(
            ts,
            #[trigger] next[n],
            next[n + 1],
        ) by {
            if n < path.len() - 1 {
                assert(names(ts, path[n], path[n + 1]));
            }
        }
        assert forall|n: int| 0 < n < next.len() - 1 implies is_unwritten(ts[#[trigger] next[n]]) by {
            if n < path.len() - 1 {
                assert(is_unwritten(ts[path[n]]));
            }
        }
        assert forall|n: int, m: int| 0 < n < m < next.len() implies #[trigger] next[n]
            != #[trigger] next[m] by {
            assert(next[n] == path[n]);
            if m < path.len() {
                assert(next[m] == path[m]);
            }
        }
        assert(is_way_up(ts, next));
        assert(next[0] == path[0]);
        if is_unwritten(ts[k]) {
            lemma_way_is_short(ts, next);
            lemma_settle(ts, next);
        } else {
            assert(is_settled(ts, next, path[0]));
        }
    }
}

// ---------------------------------------------------------------------------
// The other fields
// ---------------------------------------------------------------------------

/// Whether the entry at `k` is the last one with a `uuid`.
pub open spec fn is_last_with(ts: Seq<Members>, uuid: Seq<char>, k: int) -> bool {
    &&& 0 <= k < ts.len()
    &&& lookup(ts[k], "uuid"@) == Some(Json::Str(uuid))
    &&& forall|j: int|
        k < j < ts.len() ==> lookup(#[trigger] ts[j], "uuid"@) != Some(Json::Str(uuid))
}

/// The last entry with a `uuid` is the one that is renamed.
proof fn lemma_last_with(ts: Seq<Members>, uuid: Seq<char>, k: int)
    requires
        is_last_with(ts, uuid, k),
    ensures
        last_named(ts, uuid) == Some(k),
{
    lemma_named(ts, uuid);
    assert(text_field(ts[k], "uuid"@) == Some(uuid));
    if let Some(q) = last_named(ts, uuid) {
        if k < q {
            assert(lookup(ts[q], "uuid"@) == Some(Json::Str(uuid)));
        }
        if q < k {
            assert(text_field(ts[k], "uuid"@) != Some(uuid));
        }
    }
}

/// A forked entry has the fresh identifier of the last entry with its `uuid`,
/// the new session, `false` as its mark of a side chain, and the old session
/// and its old `uuid` as its origin. Of the old session it keeps no team, no
/// agent name, no slug and no tool's source. All fields that a fork does not
/// set are as they were.
pub proof fn law_fork_sets_and_drops_fields(
    ts: Seq<Members>,
    ids: Seq<Seq<char>>,
    i: int,
    uuid: Seq<char>,
    last: int,
    old_id: Seq<char>,
    new_id: Seq<char>,
    now: Seq<char>,
    k: Seq<char>,
)
    requires
        0 <= i < ts.len(),
        distinct_keys(ts[i]),
        lookup(ts[i], "uuid"@) == Some(Json::Str(uuid)),
        is_last_with(ts, uuid, last),
    ensures
        ({
            let m = forked(ts, ids, i, old_id, new_id, now);
            &&& lookup(m, "uuid"@) == Some(Json::Str(ids[last]))
            &&& lookup(m, "sessionId"@) == Some(Json::Str(new_id))
            &&& lookup(m, "isSidechain"@) == Some(Json::Bool(false))
            &&& lookup(m, "forkedFrom"@) matches Some(Json::Object(from)) && lookup(
                from,
                "sessionId"@,
            ) == Some(Json::Str(old_id)) && lookup(from, "messageUuid"@) == Some(Json::Str(uuid))
            &&& lookup(m, "teamName"@) is None
            &&& lookup(m, "agentName"@) is None
            &&& lookup(m, "slug"@) is None
            &&& lookup(m, "sourceToolAssistantUUID"@) is None
            &&& k != "uuid"@ && k != "parentUuid"@ && k != "logicalParentUuid"@ && k
                != "sessionId"@ && k != "timestamp"@ && k != "isSidechain"@ && k != "forkedFrom"@
                && k != "teamName"@ && k != "agentName"@ && k != "slug"@ && k
                != "sourceToolAssistantUUID"@ ==> lookup(m, k) == lookup(ts[i], k)
        }),
{
    let m = forked(ts, ids, i, old_id, new_id, now);
    lemma_last_with(ts, uuid, last);
    law_forked_fields(ts, ids, i, old_id, new_id, now, k);
    law_forked_fields(ts, ids, i, old_id, new_id, now, "teamName"@);
    law_forked_fields(ts, ids, i, old_id, new_id, now, "agentName"@);
    law_forked_fields(ts, ids, i, old_id, new_id, now, "slug"@);
    law_forked_fields(ts, ids, i, old_id, new_id, now, "sourceToolAssistantUUID"@);
    crate::sessions::fork::lemma_fork_side_mark(ts, ids, i, old_id, new_id, now);
    assert(own_uuid(ts[i]) == uuid);
    assert(text_field(m, "uuid"@) == Some(ids[last]));
    assert(text_field(m, "sessionId"@) == Some(new_id));
    let from = origin(old_id, uuid);
    reveal_strlit("sessionId");
    reveal_strlit("messageUuid");
    assert("sessionId"@.len() == 9 && "messageUuid"@.len() == 11);
    assert(from.skip(1)[0] == from[1]);
    reveal_with_fuel(crate::json::key_index, 3);
}

/// A forked entry keeps its time, but the last one that is written, and one
/// without a time, get that of the fork.
pub proof fn law_fork_times(
    ts: Seq<Members>,
    ids: Seq<Seq<char>>,
    i: int,
    old_id: Seq<char>,
    new_id: Seq<char>,
    now: Seq<char>,
)
    requires
        0 <= i < ts.len(),
        distinct_keys(ts[i]),
        !is_unwritten(ts[i]),
    ensures
        ({
            let last = forall|j: int| i < j < ts.len() ==> is_unwritten(#[trigger] ts[j]);
            let time = lookup(forked(ts, ids, i, old_id, new_id, now), "timestamp"@);
            match lookup(ts[i], "timestamp"@) {
                Some(Json::Str(own)) => time == Some(
                    Json::Str(
                        if last {
                            now
                        } else {
                            own
                        },
                    ),
                ),
                _ => time == Some(Json::Str(now)),
            }
        }),
{
    law_forked_fields(ts, ids, i, old_id, new_id, now, "type"@);
    lemma_last_written_is(ts, i);
    let m = forked(ts, ids, i, old_id, new_id, now);
    assert(text_field(m, "timestamp"@) is Some);
}

/// The last written entry has only unwritten ones behind it.
proof fn lemma_last_written_is(ts: Seq<Members>, i: int)
    requires
        0 <= i < ts.len(),
        !is_unwritten(ts[i]),
    ensures
        (last_written(ts) == Some(i)) == (forall|j: int|
            i < j < ts.len() ==> is_unwritten(#[trigger] ts[j])),
    decreases ts.len(),
{
    let n = ts.len() - 1;
    if is_progress(ts.last()) {
        let init = ts.drop_last();
        assert(ts[n] == ts.last());
        assert(is_unwritten(ts[n]));
        lemma_last_written_is(init, i);
        assert(forall|j: int| 0 <= j < n ==> #[trigger] init[j] == ts[j]);
        if forall|j: int| i < j < init.len() ==> is_unwritten(#[trigger] init[j]) {
            assert forall|j: int| i < j < ts.len() implies is_unwritten(#[trigger] ts[j]) by {
                if j < n {
                    assert(is_unwritten(init[j]));
                }
            }
        }
        if forall|j: int| i < j < ts.len() ==> is_unwritten(#[trigger] ts[j]) {
            assert forall|j: int| i < j < init.len() implies is_unwritten(#[trigger] init[j]) by {
                assert(is_unwritten(ts[j]));
            }
        }
    } else if i < n {
        assert(!is_unwritten(ts[n]));
    }
}

/// A logical parent that is kept is named by its fresh identifier in a fork,
/// one that is not kept becomes null, and what is no identifier stays.
pub proof fn law_fork_logical_parents(
    ts: Seq<Members>,
    ids: Seq<Seq<char>>,
    i: int,
    old_id: Seq<char>,
    new_id: Seq<char>,
    now: Seq<char>,
)
    requires
        0 <= i < ts.len(),
        distinct_keys(ts[i]),
    ensures
        ({
            let now_named = lookup(
                forked(ts, ids, i, old_id, new_id, now),
                "logicalParentUuid"@,
            );
            match lookup(ts[i], "logicalParentUuid"@) {
                Some(Json::Str(named)) => if named.len() > 0 {
                    &&& forall|k: int| #[trigger]
                        is_last_with(ts, named, k) ==> now_named == Some(Json::Str(ids[k]))
                    &&& (forall|k: int| !(#[trigger] is_last_with(ts, named, k)))
                        ==> now_named == Some(Json::Null)
                } else {
                    now_named == Some(Json::Str(named))
                },
                Some(v) => now_named == Some(v),
                None => now_named == Some(Json::Null),
            }
        }),
{
    law_forked_fields(ts, ids, i, old_id, new_id, now, "type"@);
    if let Some(Json::Str(named)) = lookup(ts[i], "logicalParentUuid"@) {
        if named.len() > 0 {
            lemma_named(ts, named);
            assert forall|k: int| #[trigger] is_last_with(ts, named, k) implies last_named(ts, named)
                == Some(k) by {
                lemma_last_with(ts, named, k);
            }
            if let Some(k) = last_named(ts, named) {
                assert forall|j: int| k < j < ts.len() implies lookup(#[trigger] ts[j], "uuid"@)
                    != Some(Json::Str(named)) by {
                    assert(text_field(ts[j], "uuid"@) != Some(named));
                }
                assert(is_last_with(ts, named, k));
            }
        }
    }
}

// ---------------------------------------------------------------------------
// The entries of a fork
// ---------------------------------------------------------------------------

/// A fork holds the forked entries in the order of those they are made from:
/// a kept entry stands behind as many as there are written ones before it. The
/// content replacements follow where there are any, and the title comes last.
pub proof fn law_fork_entries_are_in_order(
    kept: Seq<Members>,
    replacements: Seq<Json>,
    session_id: Seq<char>,
    title: Seq<char>,
    fresh: Fresh,
    now: Seq<char>,
    i: int,
)
    requires
        0 <= i < kept.len(),
    ensures
        ({
            let made = fork_entries(kept, replacements, session_id, title, fresh, now);
            let count = |n: int|
                kept.take(n).filter(
                    |e: Members| lookup(e, "type"@) != Some(Json::Str("progress"@)),
                ).len();
            let all = count(kept.len() as int);
            &&& lookup(kept[i], "type"@) != Some(Json::Str("progress"@)) ==> count(i) < all
                && made[count(i) as int] == forked(
                kept,
                fresh.entries,
                i,
                session_id,
                fresh.session_id,
                now,
            )
            &&& made.len() == all + if replacements.len() > 0 {
                2int
            } else {
                1int
            }
            &&& lookup(made.last(), "type"@) == Some(Json::Str("custom-title"@))
            &&& lookup(made.last(), "customTitle"@) == Some(Json::Str(title))
            &&& lookup(made.last(), "sessionId"@) == Some(Json::Str(fresh.session_id))
            &&& lookup(made.last(), "uuid"@) == Some(Json::Str(fresh.title))
            &&& lookup(made.last(), "timestamp"@) == Some(Json::Str(now))
            &&& replacements.len() > 0 ==> {
                let carried = made[made.len() - 2];
                &&& lookup(carried, "type"@) == Some(Json::Str("content-replacement"@))
                &&& lookup(carried, "replacements"@) == Some(Json::Array(replacements))
                &&& lookup(carried, "sessionId"@) == Some(Json::Str(fresh.session_id))
                &&& lookup(carried, "uuid"@) == Some(Json::Str(fresh.replacement))
                &&& lookup(carried, "timestamp"@) == Some(Json::Str(now))
            }
        }),
{
    let n = kept.len() as int;
    lemma_forked_place(kept, fresh.entries, n, i, session_id, fresh.session_id, now);
    lemma_last_members(fresh.session_id, title, fresh.title, now);
    lemma_carried_members(fresh.session_id, replacements, fresh.replacement, now);
}

/// Where the forked entry stands.
proof fn lemma_forked_place(
    ts: Seq<Members>,
    ids: Seq<Seq<char>>,
    n: int,
    i: int,
    old_id: Seq<char>,
    new_id: Seq<char>,
    now: Seq<char>,
)
    requires
        0 <= i < ts.len(),
        0 <= n <= ts.len(),
    ensures
        ({
            let out = forked_upto(ts, ids, n, old_id, new_id, now);
            let keep = |e: Members| lookup(e, "type"@) != Some(Json::Str("progress"@));
            let before = ts.take(i).filter(keep).len();
            &&& out.len() == ts.take(n).filter(keep).len()
            &&& i < n && keep(ts[i]) ==> before < out.len() && out[before as int] == forked(
                ts,
                ids,
                i,
                old_id,
                new_id,
                now,
            )
        }),
    decreases n,
{
    let keep = |e: Members| lookup(e, "type"@) != Some(Json::Str("progress"@));
    reveal(Seq::filter);
    if n > 0 {
        lemma_forked_place(ts, ids, n - 1, i, old_id, new_id, now);
        assert(ts.take(n).drop_last() =~= ts.take(n - 1));
        assert(ts.take(n).last() == ts[n - 1]);
        assert(keep(ts[n - 1]) == !is_progress(ts[n - 1]));
    } else {
        assert(ts.take(0) =~= Seq::<Members>::empty());
    }
}

/// What the entry with the title says.
proof fn lemma_last_members(
    new_id: Seq<char>,
    title: Seq<char>,
    uuid: Seq<char>,
    now: Seq<char>,
)
    ensures
        ({
            let m = fork_title_members(new_id, title, uuid, now);
            &&& lookup(m, "type"@) == Some(Json::Str("custom-title"@))
            &&& lookup(m, "sessionId"@) == Some(Json::Str(new_id))
            &&& lookup(m, "customTitle"@) == Some(Json::Str(title))
            &&& lookup(m, "uuid"@) == Some(Json::Str(uuid))
            &&& lookup(m, "timestamp"@) == Some(Json::Str(now))
        }),
{
    crate::sessions::fork::lemma_fork_keys();
    let m = fork_title_members(new_id, title, uuid, now);
    lemma_lookup_at(m, 0);
    lemma_lookup_at(m, 1);
    lemma_lookup_at(m, 2);
    lemma_lookup_at(m, 3);
    lemma_lookup_at(m, 4);
}

/// What the entry with the content replacements says.
proof fn lemma_carried_members(
    new_id: Seq<char>,
    replacements: Seq<Json>,
    uuid: Seq<char>,
    now: Seq<char>,
)
    ensures
        ({
            let m = replacement_members(new_id, replacements, uuid, now);
            &&& lookup(m, "type"@) == Some(Json::Str("content-replacement"@))
            &&& lookup(m, "sessionId"@) == Some(Json::Str(new_id))
            &&& lookup(m, "replacements"@) == Some(Json::Array(replacements))
            &&& lookup(m, "uuid"@) == Some(Json::Str(uuid))
            &&& lookup(m, "timestamp"@) == Some(Json::Str(now))
        }),
{
    crate::sessions::fork::lemma_fork_keys();
    let m = replacement_members(new_id, replacements, uuid, now);
    lemma_lookup_at(m, 0);
    lemma_lookup_at(m, 1);
    lemma_lookup_at(m, 2);
    lemma_lookup_at(m, 3);
    lemma_lookup_at(m, 4);
}

/// A member is found by its key where no member before it has the key.
proof fn lemma_lookup_at(m: Members, i: int)
    requires
        0 <= i < m.len(),
        forall|j: int| 0 <= j < i ==> (#[trigger] m[j]).0 != m[i].0,
    ensures
        lookup(m, m[i].0) == Some(m[i].1),
{
    let k = m[i].0;
    crate::json::lemma_key_index(m, k);
    let at = crate::json::key_index(m, k);
    if at > i {
        assert(m[i].0 != k);
    }
    if at < i {
        assert(m[at].0 != m[i].0);
    }
}

// ---------------------------------------------------------------------------
// What a fork is made of
// ---------------------------------------------------------------------------

/// An entry of a side chain makes no difference to a fork, wherever it stands.
pub proof fn law_fork_leaves_side_chains_out(
    before: Seq<Members>,
    aside: Members,
    behind: Seq<Members>,
    session_id: Seq<char>,
    up_to: Option<Seq<char>>,
)
    requires
        lookup(aside, "isSidechain"@) == Some(Json::Bool(true)),
    ensures
        fork_source(before + seq![aside] + behind, session_id, up_to) == fork_source(
            before + behind,
            session_id,
            up_to,
        ),
{
    let keep = |e: Members| !crate::json::flag_field(e, "isSidechain"@);
    Seq::filter_distributes_over_add(before, behind, keep);
    Seq::filter_distributes_over_add(before + seq![aside], behind, keep);
    Seq::filter_distributes_over_add(before, seq![aside], keep);
    reveal_with_fuel(Seq::filter, 2);
    assert(seq![aside].drop_last() =~= Seq::<Members>::empty());
    assert(seq![aside].last() == aside);
    assert(main_entries(before + seq![aside] + behind) =~= main_entries(before + behind));
}

/// Entries of which none is of a side chain are all kept, where one of them is
/// written. Without one there is nothing to fork.
pub proof fn law_fork_keeps_all_entries(ts: Seq<Members>, session_id: Seq<char>)
    requires
        forall|i: int|
            0 <= i < ts.len() ==> lookup(#[trigger] ts[i], "isSidechain"@) != Some(
                Json::Bool(true),
            ),
    ensures
        (exists|i: int| 0 <= i < ts.len() && !is_unwritten(#[trigger] ts[i])) ==> fork_source(
            ts,
            session_id,
            None,
        ) == Ok::<Seq<Members>, Seq<char>>(ts),
        (forall|i: int| 0 <= i < ts.len() ==> is_unwritten(#[trigger] ts[i])) ==> fork_source(
            ts,
            session_id,
            None,
        ) == Err::<Seq<Members>, Seq<char>>(
            "Session "@ + session_id + " has no messages to fork"@,
        ),
{
    lemma_all_main(ts);
    lemma_some_written(ts);
}

/// Entries without one of a side chain are all main entries.
proof fn lemma_all_main(ts: Seq<Members>)
    requires
        forall|i: int|
            0 <= i < ts.len() ==> lookup(#[trigger] ts[i], "isSidechain"@) != Some(
                Json::Bool(true),
            ),
    ensures
        main_entries(ts) == ts,
    decreases ts.len(),
{
    reveal(Seq::filter);
    if ts.len() > 0 {
        let init = ts.drop_last();
        assert(forall|i: int| 0 <= i < init.len() ==> #[trigger] init[i] == ts[i]);
        lemma_all_main(init);
        assert(ts.last() == ts[ts.len() - 1]);
        assert(init.push(ts.last()) =~= ts);
    } else {
        assert(main_entries(ts) =~= ts);
    }
}

/// There is a last written entry where there is a written one.
proof fn lemma_some_written(ts: Seq<Members>)
    ensures
        (last_written(ts) is Some) == (exists|i: int|
            0 <= i < ts.len() && !is_unwritten(#[trigger] ts[i])),
    decreases ts.len(),
{
    if ts.len() > 0 {
        let n = ts.len() - 1;
        let init = ts.drop_last();
        lemma_some_written(init);
        assert(ts.last() == ts[n]);
        assert(forall|i: int| 0 <= i < n ==> #[trigger] init[i] == ts[i]);
        if is_progress(ts[n]) {
            if exists|i: int| 0 <= i < ts.len() && !is_unwritten(#[trigger] ts[i]) {
                let i = choose|i: int| 0 <= i < ts.len() && !is_unwritten(#[trigger] ts[i]);
                assert(!is_unwritten(init[i]));
            }
            if exists|i: int| 0 <= i < init.len() && !is_unwritten(#[trigger] init[i]) {
                let i = choose|i: int| 0 <= i < init.len() && !is_unwritten(#[trigger] init[i]);
                assert(!is_unwritten(ts[i]));
            }
        } else {
            assert(!is_unwritten(ts[n]));
        }
    }
}

/// A fork up to a message is a fork of the entries up to and with the first
/// one that has its `uuid`. Where none has it, the error says so.
pub proof fn law_fork_is_cut_at_the_message(
    before: Seq<Members>,
    at: Members,
    behind: Seq<Members>,
    session_id: Seq<char>,
    uuid: Seq<char>,
)
    requires
        forall|i: int|
            0 <= i < before.len() ==> lookup(#[trigger] before[i], "isSidechain"@) != Some(
                Json::Bool(true),
            ) && lookup(before[i], "uuid"@) != Some(Json::Str(uuid)),
    ensures
        lookup(at, "isSidechain"@) != Some(Json::Bool(true)) && lookup(at, "uuid"@) == Some(
            Json::Str(uuid),
        ) ==> fork_source(before + seq![at] + behind, session_id, Some(uuid)) == fork_source(
            before + seq![at],
            session_id,
            None,
        ),
        before.len() > 0 ==> fork_source(before, session_id, Some(uuid)) == Err::<
            Seq<Members>,
            Seq<char>,
        >("Message "@ + uuid + " not found in session "@ + session_id),
{
    lemma_all_main(before);
    lemma_first_named(before, uuid);
    if lookup(at, "isSidechain"@) != Some(Json::Bool(true)) && lookup(at, "uuid"@) == Some(
        Json::Str(uuid),
    ) {
        let keep = |e: Members| !crate::json::flag_field(e, "isSidechain"@);
        let start = before + seq![at];
        assert forall|i: int| 0 <= i < start.len() implies lookup(#[trigger] start[i], "isSidechain"@)
            != Some(Json::Bool(true)) by {
            if i < before.len() {
                assert(start[i] == before[i]);
            }
        }
        lemma_all_main(start);
        Seq::filter_distributes_over_add(start, behind, keep);
        let main = main_entries(start + behind);
        let n = before.len() as int;
        assert(main =~= start + main_entries(behind));
        assert forall|i: int| 0 <= i < n implies text_field(#[trigger] main[i], "uuid"@) != Some(
            uuid,
        ) by {
            assert(main[i] == before[i]);
        }
        assert(start[n] == at);
        assert(main[n] == start[n]);
        assert(text_field(main[n], "uuid"@) == Some(uuid));
        lemma_first_named_at(main, uuid, n);
        assert(main.take(n + 1) =~= start);
    }
}

/// Where no entry has a `uuid`, none is the first.
proof fn lemma_first_named(ts: Seq<Members>, uuid: Seq<char>)
    requires
        forall|i: int| 0 <= i < ts.len() ==> lookup(#[trigger] ts[i], "uuid"@) != Some(Json::Str(uuid)),
    ensures
        first_named(ts, uuid) == ts.len(),
    decreases ts.len(),
{
    if ts.len() > 0 {
        assert(lookup(ts[0], "uuid"@) != Some(Json::Str(uuid)));
        let rest = ts.skip(1);
        assert(forall|i: int| 0 <= i < rest.len() ==> #[trigger] rest[i] == ts[i + 1]);
        lemma_first_named(rest, uuid);
    }
}

/// The first entry with a `uuid`.
proof fn lemma_first_named_at(ts: Seq<Members>, uuid: Seq<char>, n: int)
    requires
        0 <= n < ts.len(),
        text_field(ts[n], "uuid"@) == Some(uuid),
        forall|i: int| 0 <= i < n ==> text_field(#[trigger] ts[i], "uuid"@) != Some(uuid),
    ensures
        first_named(ts, uuid) == n,
    decreases ts.len(),
{
    if n > 0 {
        assert(text_field(ts[0], "uuid"@) != Some(uuid));
        let rest = ts.skip(1);
        assert(forall|i: int| 0 <= i < rest.len() ==> #[trigger] rest[i] == ts[i + 1]);
        lemma_first_named_at(rest, uuid, n - 1);
    }
}

/// A transcript is made of entries one by one, in order: of those of a linked
/// type that have a text as their `uuid`, and of no others.
pub proof fn law_transcript_entries(a: Seq<Members>, b: Seq<Members>, e: Members)
    ensures
        transcript_only(a + b) == transcript_only(a) + transcript_only(b),
        ({
            let linked = (lookup(e, "type"@) == Some(Json::Str("user"@)) || lookup(e, "type"@)
                == Some(Json::Str("assistant"@)) || lookup(e, "type"@) == Some(
                Json::Str("progress"@),
            ) || lookup(e, "type"@) == Some(Json::Str("system"@)) || lookup(e, "type"@) == Some(
                Json::Str("attachment"@),
            )) && lookup(e, "uuid"@) matches Some(Json::Str(_));
            transcript_only(seq![e]) == if linked {
                seq![e]
            } else {
                Seq::empty()
            }
        }),
        transcript_only(Seq::empty()).len() == 0,
{
    let keep = |x: Members| is_transcript_entry(x);
    Seq::filter_distributes_over_add(a, b, keep);
    reveal_with_fuel(Seq::filter, 2);
    assert(seq![e].drop_last() =~= Seq::<Members>::empty());
    assert(seq![e].last() == e);
    assert(transcript_only(seq![e]) =~= if is_transcript_entry(e) {
        seq![e]
    } else {
        Seq::empty()
    });
}

/// The content replacements of a session are those that its entries carry, one
/// after the other: an entry of that type for that session carries its list,
/// and no other entry carries any.
pub proof fn law_replacements_are_collected(
    a: Seq<Members>,
    b: Seq<Members>,
    e: Members,
    session_id: Seq<char>,
)
    ensures
        all_replacements(a + b, session_id) == all_replacements(a, session_id) + all_replacements(
            b,
            session_id,
        ),
        all_replacements(Seq::empty(), session_id).len() == 0,
        lookup(e, "type"@) == Some(Json::Str("content-replacement"@)) && lookup(e, "sessionId"@)
            == Some(Json::Str(session_id)) ==> (lookup(e, "replacements"@) matches Some(
            Json::Array(list),
        ) ==> all_replacements(seq![e], session_id) == list),
        !(lookup(e, "type"@) == Some(Json::Str("content-replacement"@)) && lookup(e, "sessionId"@)
            == Some(Json::Str(session_id)) && lookup(e, "replacements"@) matches Some(
            Json::Array(_),
        )) ==> all_replacements(seq![e], session_id).len() == 0,
    decreases b.len(),
{
    let none = Seq::<Json>::empty();
    assert(seq![e].drop_last() =~= Seq::<Members>::empty());
    assert(seq![e].last() == e);
    assert(all_replacements(seq![e].drop_last(), session_id) =~= none);
    assert(none + replacements_in(e, session_id) =~= replacements_in(e, session_id));
    if b.len() > 0 {
        let init = b.drop_last();
        law_replacements_are_collected(a, init, e, session_id);
        assert((a + b).drop_last() =~= a + init);
        assert((a + b).last() == b.last());
        assert(all_replacements(a + b, session_id) =~= all_replacements(a, session_id)
            + all_replacements(b, session_id));
    } else {
        assert(a + b =~= a);
        assert(all_replacements(a, session_id) + all_replacements(b, session_id)
            =~= all_replacements(a, session_id));
    }
}

/// A title that is given without being blank is the title of the fork, without
/// white space at its ends. Else it is that of the session, marked as a fork.
pub proof fn law_fork_titles(given: Option<Seq<char>>, derived: Option<Seq<char>>)
    ensures
        given matches Some(t) && crate::text::trimmed(t).len() > 0 ==> fork_title(given, derived)
            == crate::text::trimmed(given->0),
        (given matches Some(t) ==> crate::text::trimmed(t).len() == 0) ==> {
            &&& derived matches Some(d) ==> fork_title(given, derived) == d + " (fork)"@
            &&& derived is None ==> fork_title(given, derived) == "Forked session (fork)"@
        },
{
    reveal_strlit("Forked session (fork)");
    reveal_strlit("Forked session");
    reveal_strlit(" (fork)");
    assert("Forked session"@ + " (fork)"@ =~= "Forked session (fork)"@);
}

/// The title of a session to fork is the last one that a user set. Where there
/// is none it is the last one that was generated, and the first prompt only
/// where there is neither. A later title wins over an earlier one.
pub proof fn law_session_title_for_a_fork(es: Seq<Members>, i: int, k: Seq<char>)
    requires
        0 <= i < es.len(),
        k == "customTitle"@ || k == "aiTitle"@,
        told(es[i], k).len() > 0,
        forall|j: int| i < j < es.len() ==> told(#[trigger] es[j], k).len() == 0,
        k == "aiTitle"@ ==> forall|j: int|
            0 <= j < es.len() ==> told(#[trigger] es[j], "customTitle"@).len() == 0,
    ensures
        entries_title(es) == Some(told(es[i], k)),
{
    lemma_last_full_text(es, k, i);
    if k != "customTitle"@ {
        lemma_last_full_text(es, "customTitle"@, -1);
    }
}

/// A session to fork without a title is called by its first prompt, where it
/// has one.
pub proof fn law_untitled_session_is_called_by_its_prompt(es: Seq<Members>)
    requires
        forall|j: int|
            0 <= j < es.len() ==> told(#[trigger] es[j], "customTitle"@).len() == 0 && told(
                es[j],
                "aiTitle"@,
            ).len() == 0,
    ensures
        ({
            let prompt = crate::sessions::prompt::first_prompt_of(
                crate::text::split_on(crate::sessions::jsonl::entries_text(es), '\n'),
                Seq::empty(),
            );
            entries_title(es) == if prompt.len() > 0 {
                Some(prompt)
            } else {
                None
            }
        }),
{
    lemma_last_full_text(es, "customTitle"@, -1);
    lemma_last_full_text(es, "aiTitle"@, -1);
}

/// The last text under a key that is not empty.
proof fn lemma_last_full_text(es: Seq<Members>, k: Seq<char>, i: int)
    requires
        -1 <= i < es.len(),
        i >= 0 ==> told(es[i], k).len() > 0,
        forall|j: int| i < j < es.len() ==> told(#[trigger] es[j], k).len() == 0,
    ensures
        last_full_text(es, k) == if i >= 0 {
            Some(told(es[i], k))
        } else {
            None
        },
    decreases es.len(),
{
    if es.len() > 0 {
        let n = es.len() - 1;
        assert(es.last() == es[n]);
        if i < n {
            assert(told(es[n], k).len() == 0);
            let init = es.drop_last();
            assert(forall|j: int| 0 <= j < n ==> #[trigger] init[j] == es[j]);
            lemma_last_full_text(init, k, i);
        }
    }
}

/// A fork of a file is made of the objects on its lines, and a fork from a
/// store of the entries of the session: of the content replacements that these
/// carry for the session, and of the title that is given or that they tell.
pub proof fn law_forks_take_what_the_session_holds(
    content: Seq<u8>,
    loaded: Seq<Members>,
    kept: Seq<Members>,
    session_id: Seq<char>,
    title: Option<Seq<char>>,
    fresh: Fresh,
    now: Seq<char>,
    up_to: Option<Seq<char>>,
)
    ensures
        content_objects(content) == crate::sessions::jsonl::line_objects(
            crate::text::split_on(crate::unicode::lossy_text(content), '\n'),
        ),
        content.len() == 0 ==> content_source(content, session_id, up_to) == Err::<
            Seq<Members>,
            Seq<char>,
        >("Session "@ + session_id + " has no messages to fork"@),
        content.len() > 0 ==> content_source(content, session_id, up_to) == fork_source(
            transcript_only(content_objects(content)),
            session_id,
            up_to,
        ),
        ({
            let made = forked_loaded(loaded, kept, session_id, title, fresh, now);
            let carried = all_replacements(loaded, session_id);
            &&& lookup(made.last(), "customTitle"@) == Some(
                Json::Str(fork_title(title, entries_title(loaded))),
            )
            &&& carried.len() > 0 ==> lookup(made[made.len() - 2], "replacements"@) == Some(
                Json::Array(carried),
            )
            &&& made == fork_entries(
                kept,
                carried,
                session_id,
                fork_title(title, entries_title(loaded)),
                fresh,
                now,
            )
        }),
{
    let carried = all_replacements(loaded, session_id);
    lemma_last_members(
        fresh.session_id,
        fork_title(title, entries_title(loaded)),
        fresh.title,
        now,
    );
    lemma_carried_members(fresh.session_id, carried, fresh.replacement, now);
}

/// The lines of a fork are the compact texts of its entries, each with a line
/// break.
pub proof fn law_lines_of_a_fork(es: Seq<Members>, i: int)
    requires
        0 <= i < es.len(),
    ensures
        crate::sessions::fork::entry_lines(es).len() == es.len(),
        crate::sessions::fork::entry_lines(es)[i] == crate::json::printed(Json::Object(es[i]))
            + seq!['\n'],
{
    assert(crate::sessions::fork::entry_lines(es)[i] =~= crate::json::printed(Json::Object(es[i]))
        + seq!['\n']);
}

} // verus!
