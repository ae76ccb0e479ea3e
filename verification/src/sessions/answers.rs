//! What the answers of a store to queries on its sessions come from.
use vstd::prelude::*;

use crate::json::{lookup, parsed, Json};
use crate::sessions::lite::{head_text, tail_text};
use crate::sessions::store::Info;
use crate::sessions::store_queries::{
    completed, derived_infos, filled, first_subpath_of, gap_rows, gaps, info_for, is_current,
    is_summarised, known_mtime, last_component, list_rows, row_page, stored_info, subagent_at,
    subagent_subpath, subagents_at, summary_rows, tail_time, Outcome, Row,
};
use crate::sessions::sorting::{law_sorted_desc, sorted_desc};
use crate::sessions::summary::{summary_info, Summary};
use crate::text::{is_space, split_on, trimmed_end};
use crate::time::iso_ms;

verus! {

broadcast use vstd::string::group_string_axioms;

// ---------------------------------------------------------------------------
// Listings from summaries
// ---------------------------------------------------------------------------

/// Whether the store lists a session, with the time `mtime`: that of the last
/// line on the session.
pub open spec fn is_listed(
    listing: Seq<(Seq<char>, i64)>,
    session_id: Seq<char>,
    mtime: i64,
) -> bool {
    exists|i: int|
        0 <= i < listing.len() && #[trigger] listing[i] == (session_id, mtime) && forall|j: int|
            i < j < listing.len() ==> (#[trigger] listing[j]).0 != session_id
}

/// Whether a summary is not older than its session, where the store lists
/// sessions; a session that it does not list is gone.
pub open spec fn is_up_to_date(s: Summary, listing: Option<Seq<(Seq<char>, i64)>>) -> bool {
    match listing {
        Some(l) => exists|mtime: i64| #[trigger]
            is_listed(l, s.session_id, mtime) && s.mtime >= mtime,
        None => true,
    }
}

/// The time that a listing gives a session.
proof fn lemma_known(listing: Seq<(Seq<char>, i64)>, id: Seq<char>)
    ensures
        match known_mtime(listing, id) {
            Some(t) => is_listed(listing, id, t) && forall|u: i64| #[trigger]
                is_listed(listing, id, u) ==> u == t,
            None => forall|u: i64| !(#[trigger] is_listed(listing, id, u)),
        },
    decreases listing.len(),
{
    if listing.len() > 0 {
        let n = listing.len() - 1;
        let init = listing.drop_last();
        lemma_known(init, id);
        assert(listing.last() == listing[n]);
        if listing[n].0 == id {
            assert(listing[n] == (id, listing[n].1));
            assert(is_listed(listing, id, listing[n].1));
            assert forall|u: i64| #[trigger] is_listed(listing, id, u) implies u == listing[n].1 by {
                let i = choose|i: int|
                    0 <= i < listing.len() && #[trigger] listing[i] == (id, u) && forall|j: int|
                        i < j < listing.len() ==> (#[trigger] listing[j]).0 != id;
                if i < n {
                    assert(listing[n].0 != id);
                }
            }
        } else {
            assert forall|u: i64| #[trigger] is_listed(listing, id, u) == is_listed(init, id, u) by {
                if is_listed(listing, id, u) {
                    let i = choose|i: int|
                        0 <= i < listing.len() && #[trigger] listing[i] == (id, u) && forall|j: int|
                            i < j < listing.len() ==> (#[trigger] listing[j]).0 != id;
                    assert(init[i] == (id, u));
                    assert forall|j: int| i < j < init.len() implies (#[trigger] init[j]).0 != id by {
                        assert(listing[j].0 != id);
                    }
                }
                if is_listed(init, id, u) {
                    let i = choose|i: int|
                        0 <= i < init.len() && #[trigger] init[i] == (id, u) && forall|j: int|
                            i < j < init.len() ==> (#[trigger] init[j]).0 != id;
                    assert(listing[i] == (id, u));
                    assert forall|j: int| i < j < listing.len() implies (#[trigger] listing[j]).0
                        != id by {
                        if j < n {
                            assert(init[j].0 != id);
                        }
                    }
                }
            }
        }
    }
}

/// A summary counts where it is up to date.
proof fn lemma_current(s: Summary, listing: Option<Seq<(Seq<char>, i64)>>)
    ensures
        is_current(s, listing) == is_up_to_date(s, listing),
{
    if let Some(l) = listing {
        lemma_known(l, s.session_id);
    }
}

/// Whether some summary of a session is up to date.
pub open spec fn has_summary(
    summaries: Seq<Summary>,
    listing: Option<Seq<(Seq<char>, i64)>>,
    session_id: Seq<char>,
) -> bool {
    exists|i: int|
        0 <= i < summaries.len() && (#[trigger] summaries[i]).session_id == session_id
            && is_up_to_date(summaries[i], listing)
}

/// A session is summarised where it has a summary that is up to date.
proof fn lemma_summarised(
    summaries: Seq<Summary>,
    listing: Option<Seq<(Seq<char>, i64)>>,
    id: Seq<char>,
)
    ensures
        is_summarised(summaries, listing, id) == has_summary(summaries, listing, id),
{
    assert forall|i: int| 0 <= i < summaries.len() implies is_current(
        #[trigger] summaries[i],
        listing,
    ) == is_up_to_date(summaries[i], listing) by {
        lemma_current(summaries[i], listing);
    }
    if is_summarised(summaries, listing, id) {
        let i = choose|i: int|
            0 <= i < summaries.len() && (#[trigger] summaries[i]).session_id == id && is_current(
                summaries[i],
                listing,
            );
        assert(is_up_to_date(summaries[i], listing));
    }
    if has_summary(summaries, listing, id) {
        let i = choose|i: int|
            0 <= i < summaries.len() && (#[trigger] summaries[i]).session_id == id
                && is_up_to_date(summaries[i], listing);
        assert(is_current(summaries[i], listing));
    }
}

/// Whether a row is that of a summary.
pub open spec fn is_row_of(row: Row, s: Summary, project_path: Seq<char>) -> bool {
    &&& row.session_id == s.session_id
    &&& row.mtime == s.mtime
    &&& row.info is Some
    &&& row.info == summary_info(s, Some(project_path))
}

/// The rows of summaries.
proof fn lemma_rows_of_summaries(
    ss: Seq<Summary>,
    listing: Option<Seq<(Seq<char>, i64)>>,
    path: Seq<char>,
    row: Row,
)
    ensures
        summary_rows(ss, listing, path).contains(row) <==> exists|i: int|
            0 <= i < ss.len() && is_row_of(row, #[trigger] ss[i], path) && is_up_to_date(
                ss[i],
                listing,
            ),
    decreases ss.len(),
{
    if ss.len() > 0 {
        let n = ss.len() - 1;
        let init = ss.drop_last();
        let s = ss.last();
        lemma_rows_of_summaries(init, listing, path, row);
        lemma_current(s, listing);
        assert(s == ss[n]);
        let before = summary_rows(init, listing, path);
        let now = summary_rows(ss, listing, path);
        assert(forall|i: int| 0 <= i < n ==> #[trigger] init[i] == ss[i]);
        if now.contains(row) {
            let k = choose|k: int| 0 <= k < now.len() && now[k] == row;
            if k < before.len() {
                assert(before[k] == row);
                let i = choose|i: int|
                    0 <= i < init.len() && is_row_of(row, #[trigger] init[i], path)
                        && is_up_to_date(init[i], listing);
                assert(is_row_of(row, ss[i], path));
            } else {
                assert(is_row_of(row, ss[n], path));
            }
        }
        if exists|i: int|
            0 <= i < ss.len() && is_row_of(row, #[trigger] ss[i], path) && is_up_to_date(
                ss[i],
                listing,
            ) {
            let i = choose|i: int|
                0 <= i < ss.len() && is_row_of(row, #[trigger] ss[i], path) && is_up_to_date(
                    ss[i],
                    listing,
                );
            if i < n {
                assert(is_row_of(row, init[i], path));
                let k = choose|k: int| 0 <= k < before.len() && before[k] == row;
                assert(now[k] == row);
            } else {
                assert(now[now.len() - 1] == row);
            }
        }
    }
}

/// The rows of gaps.
proof fn lemma_rows_of_gaps(
    l: Seq<(Seq<char>, i64)>,
    ss: Seq<Summary>,
    all: Option<Seq<(Seq<char>, i64)>>,
    row: Row,
)
    ensures
        gap_rows(l, ss, all).contains(row) <==> row.info is None && l.contains(
            (row.session_id, row.mtime),
        ) && !has_summary(ss, all, row.session_id),
    decreases l.len(),
{
    if l.len() > 0 {
        let init = l.drop_last();
        lemma_rows_of_gaps(init, ss, all, row);
        lemma_summarised(ss, all, l.last().0);
        let before = gap_rows(init, ss, all);
        let now = gap_rows(l, ss, all);
        let pair = (row.session_id, row.mtime);
        if now.contains(row) {
            let k = choose|k: int| 0 <= k < now.len() && now[k] == row;
            if k < before.len() {
                assert(before[k] == row);
                let i = choose|i: int| 0 <= i < init.len() && init[i] == pair;
                assert(l[i] == pair);
            } else {
                assert(l[l.len() - 1] == pair);
            }
        }
        if row.info is None && l.contains(pair) && !has_summary(ss, all, row.session_id) {
            let i = choose|i: int| 0 <= i < l.len() && l[i] == pair;
            if i < init.len() {
                assert(init[i] == pair);
                let k = choose|k: int| 0 <= k < before.len() && before[k] == row;
                assert(now[k] == row);
            } else {
                assert(now[now.len() - 1] == row);
            }
        }
    }
}

/// A listing from summaries has a row for each summary that is up to date and
/// has something to show, with what it shows, and a gap for each listed
/// session without a summary that is up to date, with the time of the listing.
/// It has no other rows.
pub proof fn law_listed_rows(
    summaries: Seq<Summary>,
    listing: Option<Seq<(Seq<char>, i64)>>,
    project_path: Seq<char>,
    row: Row,
)
    ensures
        list_rows(summaries, listing, project_path).contains(row) <==> {
            ||| exists|i: int|
                0 <= i < summaries.len() && is_row_of(row, #[trigger] summaries[i], project_path)
                    && is_up_to_date(summaries[i], listing)
            ||| row.info is None && (listing matches Some(l) && l.contains(
                (row.session_id, row.mtime),
            )) && !has_summary(summaries, listing, row.session_id)
        },
{
    let a = summary_rows(summaries, listing, project_path);
    let b = match listing {
        Some(l) => gap_rows(l, summaries, listing),
        None => Seq::empty(),
    };
    lemma_rows_of_summaries(summaries, listing, project_path, row);
    if let Some(l) = listing {
        lemma_rows_of_gaps(l, summaries, listing, row);
    }
    let rows = list_rows(summaries, listing, project_path);
    assert(rows =~= a + b);
    if rows.contains(row) {
        let k = choose|k: int| 0 <= k < rows.len() && rows[k] == row;
        if k < a.len() {
            assert(a[k] == row);
        } else {
            assert(b[k - a.len()] == row);
        }
    }
    if a.contains(row) {
        let k = choose|k: int| 0 <= k < a.len() && a[k] == row;
        assert(rows[k] == row);
    }
    if b.contains(row) {
        let k = choose|k: int| 0 <= k < b.len() && b[k] == row;
        assert(rows[a.len() + k] == row);
    }
}

/// A page of rows goes from the newest to the oldest, and the pages hold no
/// rows but those that were listed.
pub proof fn law_row_pages_are_newest_first(
    rows: Seq<Row>,
    limit: Option<usize>,
    offset: usize,
)
    ensures
        ({
            let page = row_page(rows, limit, offset);
            &&& forall|i: int, j: int|
                0 <= i < j < page.len() ==> (#[trigger] page[i]).mtime >= (#[trigger] page[j]).mtime
            &&& forall|i: int| 0 <= i < page.len() ==> rows.contains(#[trigger] page[i])
            &&& limit is None && offset == 0 ==> page.to_multiset() == rows.to_multiset()
        }),
{
    let key = |x: Row| x.mtime as int;
    let sorted = sorted_desc(rows, key);
    law_sorted_desc(rows, key);
    let page = row_page(rows, limit, offset);
    rows.to_multiset_ensures();
    sorted.to_multiset_ensures();
    assert forall|i: int| 0 <= i < page.len() implies #[trigger] page[i] == sorted[offset + i] by {}
    assert forall|i: int, j: int| 0 <= i < j < page.len() implies (#[trigger] page[i]).mtime >= (
    #[trigger] page[j]).mtime by {
        assert(key(sorted[offset + i]) >= key(sorted[offset + j]));
    }
    assert forall|i: int| 0 <= i < page.len() implies rows.contains(#[trigger] page[i]) by {
        assert(sorted.contains(sorted[offset + i]));
        assert(sorted.to_multiset().count(page[i]) > 0);
    }
    if limit is None && offset == 0 {
        assert(page =~= sorted);
    }
}

/// A page shows its rows one by one, in order: what is known of a row, or for
/// a gap what was loaded for its session, and nothing where nothing was.
pub proof fn law_rows_are_shown_in_order(a: Seq<Row>, b: Seq<Row>, row: Row, loaded: Seq<Info>)
    ensures
        filled(a + b, loaded) == filled(a, loaded) + filled(b, loaded),
        filled(Seq::empty(), loaded).len() == 0,
        row.info matches Some(x) ==> filled(seq![row], loaded) == seq![x],
        row.info is None ==> {
            &&& filled(seq![row], loaded).len() <= 1
            &&& forall|i: int|
                0 <= i < loaded.len() && (#[trigger] loaded[i]).session_id == row.session_id && (
                forall|j: int|
                    i < j < loaded.len() ==> (#[trigger] loaded[j]).session_id != row.session_id)
                    ==> filled(seq![row], loaded) == seq![loaded[i]]
            &&& (forall|i: int|
                0 <= i < loaded.len() ==> (#[trigger] loaded[i]).session_id != row.session_id)
                ==> filled(seq![row], loaded).len() == 0
        },
    decreases b.len(),
{
    let none = Seq::<Info>::empty();
    assert(seq![row].drop_last() =~= Seq::<Row>::empty());
    assert(seq![row].last() == row);
    assert(filled(seq![row].drop_last(), loaded) =~= none);
    lemma_info_for(loaded, row.session_id);
    if let Some(x) = row.info {
        assert(none.push(x) =~= seq![x]);
    } else if let Some(x) = info_for(loaded, row.session_id) {
        assert(none.push(x) =~= seq![x]);
    }
    if b.len() > 0 {
        law_rows_are_shown_in_order(a, b.drop_last(), row, loaded);
        assert((a + b).drop_last() =~= a + b.drop_last());
        assert((a + b).last() == b.last());
        assert(filled(a + b, loaded) =~= filled(a, loaded) + filled(b, loaded));
    } else {
        assert(a + b =~= a);
        assert(filled(a, loaded) + filled(b, loaded) =~= filled(a, loaded));
    }
}

/// The last info on a session.
proof fn lemma_info_for(infos: Seq<Info>, id: Seq<char>)
    ensures
        forall|i: int|
            0 <= i < infos.len() && (#[trigger] infos[i]).session_id == id && (forall|j: int|
                i < j < infos.len() ==> (#[trigger] infos[j]).session_id != id) ==> info_for(
                infos,
                id,
            ) == Some(infos[i]),
        (forall|i: int| 0 <= i < infos.len() ==> (#[trigger] infos[i]).session_id != id)
            ==> info_for(infos, id) is None,
    decreases infos.len(),
{
    if infos.len() > 0 {
        let n = infos.len() - 1;
        let init = infos.drop_last();
        lemma_info_for(init, id);
        assert(infos.last() == infos[n]);
        assert(forall|i: int| 0 <= i < n ==> #[trigger] init[i] == infos[i]);
        assert forall|i: int|
            0 <= i < infos.len() && (#[trigger] infos[i]).session_id == id && (forall|j: int|
                i < j < infos.len() ==> (#[trigger] infos[j]).session_id != id) implies info_for(
            infos,
            id,
        ) == Some(infos[i]) by {
            if i < n {
                assert(infos[n].session_id != id);
                assert(init[i].session_id == id);
                assert forall|j: int| i < j < init.len() implies (#[trigger] init[j]).session_id
                    != id by {
                    assert(infos[j].session_id != id);
                }
            }
        }
        if forall|i: int| 0 <= i < infos.len() ==> (#[trigger] infos[i]).session_id != id {
            assert(infos[n].session_id != id);
            assert forall|i: int| 0 <= i < init.len() implies (#[trigger] init[i]).session_id
                != id by {
                assert(infos[i].session_id != id);
            }
        }
    }
}

/// The gaps of a page are its rows of which nothing is known, in order.
pub proof fn law_gaps_are_the_unknown_rows(a: Seq<Row>, b: Seq<Row>, row: Row)
    ensures
        gaps(a + b) == gaps(a) + gaps(b),
        gaps(Seq::empty()).len() == 0,
        row.info is Some ==> gaps(seq![row]).len() == 0,
        row.info is None ==> gaps(seq![row]) == seq![(row.session_id, row.mtime)],
    decreases b.len(),
{
    let none = Seq::<(Seq<char>, i64)>::empty();
    assert(seq![row].drop_last() =~= Seq::<Row>::empty());
    assert(seq![row].last() == row);
    assert(gaps(seq![row].drop_last()) =~= none);
    assert(none.push((row.session_id, row.mtime)) =~= seq![(row.session_id, row.mtime)]);
    if b.len() > 0 {
        law_gaps_are_the_unknown_rows(a, b.drop_last(), row);
        assert((a + b).drop_last() =~= a + b.drop_last());
        assert((a + b).last() == b.last());
        assert(gaps(a + b) =~= gaps(a) + gaps(b));
    } else {
        assert(a + b =~= a);
        assert(gaps(a) + gaps(b) =~= gaps(a));
    }
}

/// One more load tells one more thing, behind the others: a load that failed
/// tells the session and its time and nothing else, one that found nothing
/// tells nothing, and any other tells what the entries of the session tell.
pub proof fn law_one_more_load(
    listing: Seq<(Seq<char>, i64)>,
    outcomes: Seq<Outcome>,
    project_path: Seq<char>,
    n: int,
)
    requires
        0 <= n < listing.len(),
        outcomes.len() == listing.len(),
    ensures
        ({
            let (id, mtime) = listing[n];
            let before = derived_infos(listing, outcomes, project_path, n);
            let now = derived_infos(listing, outcomes, project_path, n + 1);
            match outcomes[n] {
                Outcome::Failed => now == before.push(
                    Info {
                        session_id: id,
                        summary: Seq::empty(),
                        last_modified: mtime,
                        file_size: None,
                        custom_title: None,
                        first_prompt: None,
                        git_branch: None,
                        cwd: None,
                        tag: None,
                        created_at: None,
                    },
                ),
                Outcome::Missing => now == before,
                Outcome::Loaded(es) => match stored_info(id, es, mtime, project_path) {
                    Some(info) => now == before.push(info),
                    None => now == before,
                },
            }
        }),
        derived_infos(listing, outcomes, project_path, 0).len() == 0,
{
}

// ---------------------------------------------------------------------------
// Heads, tails and times
// ---------------------------------------------------------------------------

/// Of a transcript the first and the last 65536 bytes are read; of a shorter
/// one all are read, as its head and as its tail.
pub proof fn law_heads_and_tails(bytes: Seq<u8>)
    ensures
        bytes.len() <= 65536 ==> head_text(bytes) == crate::unicode::lossy_text(bytes) && tail_text(
            bytes,
        ) == crate::unicode::lossy_text(bytes),
        bytes.len() > 65536 ==> head_text(bytes) == crate::unicode::lossy_text(bytes.take(65536))
            && tail_text(bytes) == crate::unicode::lossy_text(bytes.skip(bytes.len() - 65536)),
{
}

/// White space behind a text that does not end with white space is taken off.
proof fn lemma_space_behind(s: Seq<char>, spaces: Seq<char>)
    requires
        s.len() > 0,
        !is_space(s.last()),
        forall|i: int| 0 <= i < spaces.len() ==> is_space(#[trigger] spaces[i]),
    ensures
        trimmed_end(s + spaces) == s,
    decreases spaces.len(),
{
    if spaces.len() > 0 {
        let init = spaces.drop_last();
        assert((s + spaces).drop_last() =~= s + init);
        assert((s + spaces).last() == spaces[spaces.len() - 1]);
        assert(forall|i: int| 0 <= i < init.len() ==> #[trigger] init[i] == spaces[i]);
        lemma_space_behind(s, init);
    } else {
        assert(s + spaces =~= s);
    }
}

/// The time of a transcript is that in the `timestamp` of its last line that
/// is not blank, whatever stands on the lines before.
pub proof fn law_time_of_the_last_line(before: Seq<char>, line: Seq<char>, spaces: Seq<char>)
    requires
        before.len() == 0 || before.last() == '\n',
        !line.contains('\n'),
        line.len() > 0,
        !is_space(line.last()),
        forall|i: int| 0 <= i < spaces.len() ==> is_space(#[trigger] spaces[i]),
    ensures
        tail_time(before + line + spaces) == (match parsed(line) {
            Some(Json::Object(m)) => match lookup(m, "timestamp"@) {
                Some(Json::Str(time)) => iso_ms(time),
                _ => None,
            },
            _ => None,
        }),
{
    let s = before + line;
    assert(s.last() == line.last());
    lemma_space_behind(s, spaces);
    assert(split_on(before, '\n').last() =~= Seq::<char>::empty());
    crate::sessions::jsonl::lemma_split_line(before, line);
}

// ---------------------------------------------------------------------------
// Subagents
// ---------------------------------------------------------------------------

/// The last component of a path ends it.
proof fn lemma_component(front: Seq<char>, name: Seq<char>)
    requires
        front.len() == 0 || front.last() == '/',
        !name.contains('/'),
    ensures
        last_component(front + name) == name,
    decreases name.len(),
{
    crate::text::law_join_undoes_split(front, '/');
    if name.len() == 0 {
        assert(front + name =~= front);
        assert(split_on(front, '/').last() =~= name);
    } else {
        let init = name.drop_last();
        assert(!init.contains('/')) by {
            if init.contains('/') {
                let i = choose|i: int| 0 <= i < init.len() && init[i] == '/';
                assert(name[i] == '/');
            }
        }
        lemma_component(front, init);
        assert((front + name).drop_last() =~= front + init);
        assert((front + name).last() == name.last());
        assert(name[name.len() - 1] != '/');
        crate::text::law_join_undoes_split(front + init, '/');
        assert(split_on(front + name, '/').last() =~= init.push(name.last()));
        assert(init.push(name.last()) =~= name);
    }
}

/// The transcript of a subagent stands below `subagents/`, at any depth, and
/// its name is `agent-` and the subagent's. A subpath elsewhere, or with
/// another name, is that of no subagent.
pub proof fn law_subpaths_of_subagents(dirs: Seq<char>, name: Seq<char>, agent_id: Seq<char>)
    requires
        dirs.len() == 0 || dirs.last() == '/',
        !name.contains('/'),
        !agent_id.contains('/'),
    ensures
        subagent_at("subagents/"@ + dirs + "agent-"@ + agent_id) == Some(agent_id),
        !"agent-"@.is_prefix_of(name) ==> subagent_at("subagents/"@ + dirs + name) is None,
        !"subagents/"@.is_prefix_of(dirs + name) ==> subagent_at(dirs + name) is None,
        subagent_subpath(agent_id, None) == Some("subagents/agent-"@ + agent_id),
{
    reveal_strlit("subagents/");
    reveal_strlit("agent-");
    let root = "subagents/"@;
    let mark = "agent-"@;
    let front = root + dirs;
    assert(front.last() == '/') by {
        if dirs.len() == 0 {
            assert(front =~= root);
            assert(root[9] == '/');
        }
    }
    let file = mark + agent_id;
    assert(!file.contains('/')) by {
        if file.contains('/') {
            let i = choose|i: int| 0 <= i < file.len() && file[i] == '/';
            if i < mark.len() {
                assert(mark[i] == '/');
            } else {
                assert(agent_id[i - mark.len()] == '/');
            }
        }
    }
    lemma_component(front, file);
    lemma_component(front, name);
    assert(root + dirs + mark + agent_id =~= front + file);
    assert(root.is_prefix_of(front + file));
    assert(root.is_prefix_of(front + name));
    assert(file.skip(mark.len() as int) =~= agent_id);
    assert(mark.is_prefix_of(file));
}

/// A subagent is found at the first subkey that is one of its own, whatever
/// follows, and nowhere where none is.
pub proof fn law_first_subkey_counts(agent_id: Seq<char>, subkeys: Seq<Seq<char>>, i: int)
    requires
        0 <= i <= subkeys.len(),
        i < subkeys.len() ==> subagent_at(subkeys[i]) == Some(agent_id),
        forall|j: int| 0 <= j < i ==> subagent_at(#[trigger] subkeys[j]) != Some(agent_id),
    ensures
        subagent_subpath(agent_id, Some(subkeys)) == if i < subkeys.len() {
            Some(subkeys[i])
        } else {
            None
        },
    decreases subkeys.len(),
{
    if i > 0 {
        assert(subagent_at(subkeys[0]) != Some(agent_id));
        let rest = subkeys.skip(1);
        assert(forall|j: int| 0 <= j < rest.len() ==> #[trigger] rest[j] == subkeys[j + 1]);
        law_first_subkey_counts(agent_id, rest, i - 1);
        assert(first_subpath_of(agent_id, subkeys) == first_subpath_of(agent_id, rest));
    }
}

/// Subagents are listed in the order of their first subpaths: more subpaths
/// add subagents behind those that are listed, and one that is listed already
/// adds none.
pub proof fn law_more_subpaths(subpaths: Seq<Seq<char>>, more: Seq<char>)
    ensures
        match subagent_at(more) {
            Some(id) => subagents_at(subpaths.push(more)) == if subagents_at(subpaths).contains(
                id,
            ) {
                subagents_at(subpaths)
            } else {
                subagents_at(subpaths).push(id)
            },
            None => subagents_at(subpaths.push(more)) == subagents_at(subpaths),
        },
        subagents_at(Seq::empty()).len() == 0,
{
    assert(subpaths.push(more).drop_last() =~= subpaths);
}

/// A page without gaps shows what is known of its rows. A page whose gaps were
/// loaded shows what the loads told, in the places of the gaps.
pub proof fn law_completed_pages(
    rows: Seq<Row>,
    outcomes: Seq<Outcome>,
    project_path: Seq<char>,
    row: Row,
    outcome: Outcome,
)
    ensures
        completed(rows, outcomes, project_path) == filled(
            rows,
            derived_infos(gaps(rows), outcomes, project_path, gaps(rows).len() as int),
        ),
        (forall|i: int| 0 <= i < rows.len() ==> (#[trigger] rows[i]).info is Some) ==> completed(
            rows,
            outcomes,
            project_path,
        ) == Seq::new(rows.len(), |i: int| rows[i].info->0),
        row.info is None && outcome is Missing ==> completed(
            seq![row],
            seq![outcome],
            project_path,
        ).len() == 0,
        row.info is None && outcome is Failed ==> ({
            let shown = completed(seq![row], seq![outcome], project_path);
            shown.len() == 1 && shown[0].session_id == row.session_id && shown[0].last_modified
                == row.mtime
        }),
{
    if forall|i: int| 0 <= i < rows.len() ==> (#[trigger] rows[i]).info is Some {
        let loaded = derived_infos(gaps(rows), outcomes, project_path, gaps(rows).len() as int);
        lemma_known_rows(rows, loaded);
    }
    if row.info is None {
        law_gaps_are_the_unknown_rows(seq![row], Seq::empty(), row);
        let g = gaps(seq![row]);
        law_one_more_load(g, seq![outcome], project_path, 0);
        let loaded = derived_infos(g, seq![outcome], project_path, 1);
        law_rows_are_shown_in_order(seq![row], Seq::empty(), row, loaded);
        assert(derived_infos(g, seq![outcome], project_path, 0).len() == 0);
        if outcome is Failed {
            assert(loaded[0].session_id == row.session_id);
            assert(filled(seq![row], loaded) == seq![loaded[0]]);
        }
    }
}

/// Rows that are known are shown as they are.
proof fn lemma_known_rows(rows: Seq<Row>, loaded: Seq<Info>)
    requires
        forall|i: int| 0 <= i < rows.len() ==> (#[trigger] rows[i]).info is Some,
    ensures
        filled(rows, loaded) == Seq::new(rows.len(), |i: int| rows[i].info->0),
    decreases rows.len(),
{
    if rows.len() > 0 {
        let init = rows.drop_last();
        assert(forall|i: int| 0 <= i < init.len() ==> #[trigger] init[i] == rows[i]);
        lemma_known_rows(init, loaded);
        assert(rows.last() == rows[rows.len() - 1]);
        assert(filled(rows, loaded) =~= Seq::new(rows.len(), |i: int| rows[i].info->0));
    } else {
        assert(filled(rows, loaded) =~= Seq::new(rows.len(), |i: int| rows[i].info->0));
    }
}

} // verus!
