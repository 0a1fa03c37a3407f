//! What becomes of the matches of one query in one file: which are kept, and where they go.
use std::collections::HashSet;
use vstd::prelude::*;

use crate::text::{line_number, line_of, on_boundary, views};

verus! {

broadcast use vstd::std_specs::hash::group_hash_axioms;

/// A match, as far as the choice among matches looks at it.
pub struct QueryMatch<M> {
    /// Where the match begins.
    pub start_offset: usize,
    /// The values of the variables.
    pub values: Vec<String>,
    /// The match itself.
    pub inner: M,
}

/// Which matches are wanted.
#[derive(Clone, Copy, Debug)]
pub struct MatchRules {
    /// All variables have to have different values.
    pub unique: bool,
    /// Only the first match that begins at a place counts.
    pub limit: bool,
}

/// The match has different values for its variables, if it has to.
pub open spec fn passes_unique<M>(m: QueryMatch<M>, rules: MatchRules) -> bool {
    rules.unique ==> views(m.values@).no_duplicates()
}

/// An earlier match that passes the test for uniqueness begins where match `k` does.
pub open spec fn start_taken<M>(matches: Seq<QueryMatch<M>>, rules: MatchRules, k: int) -> bool {
    exists|j: int|
        0 <= j < k && (#[trigger] matches[j]).start_offset == matches[k].start_offset
            && passes_unique(matches[j], rules)
}

/// Match `k` is kept.
pub open spec fn is_kept<M>(matches: Seq<QueryMatch<M>>, rules: MatchRules, k: int) -> bool {
    &&& passes_unique(matches[k], rules)
    &&& rules.limit ==> !start_taken(matches, rules, k)
}

/// The matches that are kept, in order.
pub open spec fn selected<M>(matches: Seq<QueryMatch<M>>, rules: MatchRules) -> Seq<QueryMatch<M>>
    decreases matches.len(),
{
    if matches.len() == 0 {
        seq![]
    } else {
        let head = selected(matches.drop_last(), rules);
        if is_kept(matches, rules, matches.len() - 1) {
            head.push(matches.last())
        } else {
            head
        }
    }
}

/// Whether no two of the values are the same.
pub fn all_different(values: &Vec<String>) -> (yes: bool)
    ensures
        yes == views(values@).no_duplicates(),
{
    let mut seen = vstd::hash_set::StringHashSet::new();
    let mut i: usize = 0;
    while i < values.len()
        invariant
            i <= values@.len(),
            views(values@).take(i as int).no_duplicates(),
            forall|v: Seq<char>| #[trigger]
                seen@.contains(v) <==> views(values@).take(i as int).contains(v),
        decreases values@.len() - i,
    {
        let ghost all = views(values@);
        let ghost value = values@[i as int]@;
        assert(all.take(i + 1) == all.take(i as int).push(value));
        let new = seen.insert(values[i].clone());
        if !new {
            proof {
                let j = choose|j: int|
                    0 <= j < all.take(i as int).len() && all.take(i as int)[j] == value;
                assert(all[j] == all[i as int]);
            }
            return false;
        }
        proof {
            let head = all.take(i as int);
            let next = all.take(i + 1);
            assert forall|v: Seq<char>| #[trigger]
                seen@.contains(v) <==> next.contains(v) by {
                if next.contains(v) {
                    let j = choose|j: int| 0 <= j < next.len() && next[j] == v;
                    if j < i {
                        assert(head[j] == v);
                    }
                }
                if v == value {
                    assert(next[i as int] == v);
                } else if head.contains(v) {
                    let j = choose|j: int| 0 <= j < head.len() && head[j] == v;
                    assert(next[j] == v);
                }
            }
            assert forall|a: int, b: int|
                0 <= a < next.len() && 0 <= b < next.len() && a != b implies next[a] != next[b] by {
                if a < i && b < i {
                    assert(head[a] != head[b]);
                } else if a < i {
                    assert(head[a] == next[a]);
                } else {
                    assert(head[b] == next[b]);
                }
            }
        }
        i = i + 1;
    }
    assert(views(values@).take(i as int) == views(values@));
    true
}

/// Chooses among the matches of one query in one file. A match that fails the test for
/// uniqueness does not take up its place.
pub fn select_matches<M>(matches: Vec<QueryMatch<M>>, rules: MatchRules) -> (kept: Vec<
    QueryMatch<M>,
>)
    ensures
        kept@ == selected(matches@, rules),
{
    let ghost all = matches@;
    let mut kept: Vec<QueryMatch<M>> = Vec::new();
    let mut taken: HashSet<usize> = HashSet::new();
    for m in it: matches
        invariant
            it.seq() == all,
            kept@ == selected(all.take(it.index()), rules),
            rules.limit ==> forall|start: usize| #[trigger]
                taken@.contains(start) <==> exists|j: int|
                    0 <= j < it.index() && (#[trigger] all[j]).start_offset == start
                        && passes_unique(all[j], rules),
    {
        let ghost k = it.index();
        let ghost before = taken@;
        proof {
            assert(m == all[k]);
            assert(all.take(k + 1).drop_last() == all.take(k));
            assert(all.take(k + 1).last() == m);
            lemma_prefix_decides(all, rules, k);
        }
        if !rules.unique || all_different(&m.values) {
            if !rules.limit || taken.insert(m.start_offset) {
                kept.push(m);
            }
        }
        proof {
            if rules.limit {
                assert forall|start: usize| #[trigger]
                    taken@.contains(start) <==> exists|j: int|
                        0 <= j < k + 1 && (#[trigger] all[j]).start_offset == start
                            && passes_unique(all[j], rules) by {
                    if taken@.contains(start) {
                        if before.contains(start) {
                            let j = choose|j: int|
                                0 <= j < k && (#[trigger] all[j]).start_offset == start
                                    && passes_unique(all[j], rules);
                            assert(0 <= j < k + 1 && all[j].start_offset == start);
                        } else {
                            assert(all[k].start_offset == start && passes_unique(all[k], rules));
                        }
                    }
                    if exists|j: int|
                        0 <= j < k + 1 && (#[trigger] all[j]).start_offset == start
                            && passes_unique(all[j], rules) {
                        let j = choose|j: int|
                            0 <= j < k + 1 && (#[trigger] all[j]).start_offset == start
                                && passes_unique(all[j], rules);
                        if j < k {
                            assert(before.contains(start));
                        }
                    }
                }
            }
        }
    }
    assert(all.take(all.len() as int) == all);
    kept
}

/// Whether a match is kept does not depend on those behind it.
proof fn lemma_prefix_decides<M>(matches: Seq<QueryMatch<M>>, rules: MatchRules, k: int)
    requires
        0 <= k < matches.len(),
    ensures
        is_kept(matches.take(k + 1), rules, k) == is_kept(matches, rules, k),
{
    let head = matches.take(k + 1);
    if start_taken(matches, rules, k) {
        let j = choose|j: int|
            0 <= j < k && (#[trigger] matches[j]).start_offset == matches[k].start_offset
                && passes_unique(matches[j], rules);
        assert(head[j].start_offset == head[k].start_offset && passes_unique(head[j], rules));
    }
    if start_taken(head, rules, k) {
        let j = choose|j: int|
            0 <= j < k && (#[trigger] head[j]).start_offset == head[k].start_offset
                && passes_unique(head[j], rules);
        assert(matches[j].start_offset == matches[k].start_offset && passes_unique(
            matches[j],
            rules,
        ));
    }
}

/// Where a match goes.
pub enum Delivery<M> {
    /// It is shown at once, with the number of its line.
    Show { line: usize, found: QueryMatch<M> },
    /// It waits for the results of the other queries.
    Forward { query_index: usize, found: QueryMatch<M> },
}

/// Where a match of query `query_index` goes: with a single query it is shown, otherwise it
/// waits.
pub open spec fn delivered<M>(
    delivery: Delivery<M>,
    found: QueryMatch<M>,
    source: Seq<char>,
    query_index: usize,
    num_queries: usize,
) -> bool {
    match delivery {
        Delivery::Show { line, found: shown } => {
            &&& num_queries == 1
            &&& shown == found
            &&& line == line_of(source, found.start_offset as int)
        },
        Delivery::Forward { query_index: index, found: forwarded } => {
            &&& num_queries != 1
            &&& forwarded == found
            &&& index == query_index
        },
    }
}

/// Chooses among the matches of one query in one file and sends those that stay on their way.
pub fn deliver_matches<M>(
    matches: Vec<QueryMatch<M>>,
    rules: MatchRules,
    source: &str,
    query_index: usize,
    num_queries: usize,
) -> (deliveries: Vec<Delivery<M>>)
    requires
        num_queries == 1 ==> forall|k: int|
            0 <= k < selected(matches@, rules).len() ==> on_boundary(
                source@,
                (#[trigger] selected(matches@, rules)[k]).start_offset as int,
            ) && selected(matches@, rules)[k].start_offset < usize::MAX,
    ensures
        deliveries@.len() == selected(matches@, rules).len(),
        forall|k: int|
            0 <= k < deliveries@.len() ==> delivered(
                #[trigger] deliveries@[k],
                selected(matches@, rules)[k],
                source@,
                query_index,
                num_queries,
            ),
{
    let kept = select_matches(matches, rules);
    let ghost chosen = kept@;
    let mut deliveries: Vec<Delivery<M>> = Vec::new();
    for found in it: kept
        invariant
            it.seq() == chosen,
            num_queries == 1 ==> forall|k: int|
                0 <= k < chosen.len() ==> on_boundary(
                    source@,
                    (#[trigger] chosen[k]).start_offset as int,
                ) && chosen[k].start_offset < usize::MAX,
            deliveries@.len() == it.index(),
            forall|k: int|
                0 <= k < it.index() ==> delivered(
                    #[trigger] deliveries@[k],
                    chosen[k],
                    source@,
                    query_index,
                    num_queries,
                ),
    {
        assert(found == chosen[it.index()]);
        if num_queries == 1 {
            let line = line_number(source, found.start_offset);
            deliveries.push(Delivery::Show { line, found });
        } else {
            deliveries.push(Delivery::Forward { query_index, found });
        }
    }
    deliveries
}

/// Whether the matches of several queries have to be combined at the end.
pub fn needs_combining(num_queries: usize) -> (yes: bool)
    ensures
        yes == (num_queries > 1),
{
    num_queries > 1
}

/// Every match that is kept is one of the matches, and passes the test for uniqueness.
proof fn lemma_selected_members<M>(matches: Seq<QueryMatch<M>>, rules: MatchRules)
    ensures
        forall|x: int|
            0 <= x < selected(matches, rules).len() ==> matches.contains(
                #[trigger] selected(matches, rules)[x],
            ),
        forall|x: int|
            0 <= x < selected(matches, rules).len() ==> passes_unique(
                #[trigger] selected(matches, rules)[x],
                rules,
            ),
    decreases matches.len(),
{
    if matches.len() > 0 {
        let head = matches.drop_last();
        let n = matches.len() - 1;
        let kept = selected(matches, rules);
        lemma_selected_members(head, rules);
        assert forall|x: int| 0 <= x < kept.len() implies matches.contains(#[trigger] kept[x])
            && passes_unique(kept[x], rules) by {
            if x < selected(head, rules).len() {
                let m = selected(head, rules)[x];
                assert(head.contains(m));
                let y = choose|y: int| 0 <= y < head.len() && head[y] == m;
                assert(matches[y] == m);
            } else {
                assert(kept[x] == matches[n]);
            }
        }
    }
}

/// Without rules every match is kept.
pub proof fn no_rules_keep_all<M>(matches: Seq<QueryMatch<M>>, rules: MatchRules)
    requires
        !rules.unique,
        !rules.limit,
    ensures
        selected(matches, rules) == matches,
    decreases matches.len(),
{
    if matches.len() > 0 {
        no_rules_keep_all(matches.drop_last(), rules);
        assert(matches.drop_last().push(matches.last()) == matches);
    }
}

/// If values have to be unique, they are so in every match that is kept.
pub proof fn unique_matches_have_different_values<M>(
    matches: Seq<QueryMatch<M>>,
    rules: MatchRules,
    x: int,
)
    requires
        rules.unique,
        0 <= x < selected(matches, rules).len(),
    ensures
        views(selected(matches, rules)[x].values@).no_duplicates(),
        matches.contains(selected(matches, rules)[x]),
{
    lemma_selected_members(matches, rules);
    assert(passes_unique(selected(matches, rules)[x], rules));
}

/// If matches are limited, no two that are kept begin at the same place.
pub proof fn limited_matches_begin_apart<M>(
    matches: Seq<QueryMatch<M>>,
    rules: MatchRules,
    x: int,
    y: int,
)
    requires
        rules.limit,
        0 <= x < y < selected(matches, rules).len(),
    ensures
        selected(matches, rules)[x].start_offset != selected(matches, rules)[y].start_offset,
    decreases matches.len(),
{
    let head = matches.drop_last();
    let n = matches.len() - 1;
    let before = selected(head, rules);
    if y < before.len() {
        limited_matches_begin_apart(head, rules, x, y);
    } else {
        lemma_selected_members(head, rules);
        assert(head.contains(before[x]));
        assert(passes_unique(before[x], rules));
        let j = choose|j: int| 0 <= j < head.len() && head[j] == before[x];
        assert(matches[j] == before[x]);
        assert(selected(matches, rules)[x] == before[x]);
        assert(selected(matches, rules)[y] == matches[n]);
    }
}

/// Limiting matches loses no place: where a match passes the test for uniqueness, one is kept.
pub proof fn every_place_stays<M>(matches: Seq<QueryMatch<M>>, rules: MatchRules, k: int)
    requires
        0 <= k < matches.len(),
        passes_unique(matches[k], rules),
    ensures
        exists|x: int|
            0 <= x < selected(matches, rules).len() && (#[trigger] selected(
                matches,
                rules,
            )[x]).start_offset == matches[k].start_offset,
    decreases matches.len(),
{
    let head = matches.drop_last();
    let n = matches.len() - 1;
    let before = selected(head, rules);
    let kept = selected(matches, rules);
    if k < n {
        every_place_stays(head, rules, k);
        let x = choose|x: int|
            0 <= x < before.len() && (#[trigger] before[x]).start_offset == head[k].start_offset;
        assert(kept[x].start_offset == matches[k].start_offset);
    } else if is_kept(matches, rules, n) {
        assert(kept[kept.len() - 1].start_offset == matches[k].start_offset);
    } else {
        let j = choose|j: int|
            0 <= j < n && (#[trigger] matches[j]).start_offset == matches[n].start_offset
                && passes_unique(matches[j], rules);
        assert(head[j] == matches[j]);
        every_place_stays(head, rules, j);
        let x = choose|x: int|
            0 <= x < before.len() && (#[trigger] before[x]).start_offset == head[j].start_offset;
        assert(kept[x].start_offset == matches[k].start_offset);
    }
}

proof fn lemma_all_kept<M>(matches: Seq<QueryMatch<M>>, rules: MatchRules)
    requires
        forall|k: int| 0 <= k < matches.len() ==> #[trigger] is_kept(matches, rules, k),
    ensures
        selected(matches, rules) == matches,
    decreases matches.len(),
{
    if matches.len() > 0 {
        let head = matches.drop_last();
        assert forall|k: int| 0 <= k < head.len() implies #[trigger] is_kept(head, rules, k) by {
            assert(is_kept(matches, rules, k));
            lemma_prefix_decides(matches, rules, k);
            lemma_prefix_decides(head, rules, k);
            assert(head.take(k + 1) == matches.take(k + 1));
        }
        lemma_all_kept(head, rules);
        assert(is_kept(matches, rules, matches.len() - 1));
        assert(head.push(matches.last()) == matches);
    }
}

/// Choosing again among matches that were chosen changes nothing.
pub proof fn selecting_again_changes_nothing<M>(matches: Seq<QueryMatch<M>>, rules: MatchRules)
    ensures
        selected(selected(matches, rules), rules) == selected(matches, rules),
{
    let kept = selected(matches, rules);
    lemma_selected_members(matches, rules);
    assert forall|k: int| 0 <= k < kept.len() implies #[trigger] is_kept(kept, rules, k) by {
        assert(passes_unique(kept[k], rules));
        if rules.limit && start_taken(kept, rules, k) {
            let j = choose|j: int|
                0 <= j < k && (#[trigger] kept[j]).start_offset == kept[k].start_offset
                    && passes_unique(kept[j], rules);
            limited_matches_begin_apart(matches, rules, j, k);
        }
    }
    lemma_all_kept(kept, rules);
}

/// A further match is kept exactly if its values differ from one another, where they have to, and
/// no match that was kept begins where it does, where matches are limited. The others stay as they
/// are.
pub proof fn one_more_match<M>(matches: Seq<QueryMatch<M>>, rules: MatchRules, m: QueryMatch<M>)
    ensures
        selected(Seq::<QueryMatch<M>>::empty(), rules) == Seq::<QueryMatch<M>>::empty(),
        ({
            let kept = selected(matches, rules);
            let differ = forall|i: int, j: int|
                0 <= i < j < m.values@.len() ==> (#[trigger] m.values@[i])@ != (
                #[trigger] m.values@[j])@;
            let free = forall|x: int|
                0 <= x < kept.len() ==> (#[trigger] kept[x]).start_offset != m.start_offset;
            selected(matches.push(m), rules) == if (rules.unique ==> differ) && (rules.limit
                ==> free) {
                kept.push(m)
            } else {
                kept
            }
        }),
{
    let all = matches.push(m);
    let n = matches.len() as int;
    let kept = selected(matches, rules);
    assert(all.drop_last() =~= matches);
    lemma_selected_members(matches, rules);
    let differ = forall|i: int, j: int|
        0 <= i < j < m.values@.len() ==> (#[trigger] m.values@[i])@ != (#[trigger] m.values@[j])@;
    let free = forall|x: int|
        0 <= x < kept.len() ==> (#[trigger] kept[x]).start_offset != m.start_offset;
    assert(differ == views(m.values@).no_duplicates()) by {
        let texts = views(m.values@);
        if differ {
            assert forall|a: int, b: int|
                0 <= a < texts.len() && 0 <= b < texts.len() && a != b implies texts[a] != texts[b] by {
                if a < b {
                    assert(m.values@[a]@ != m.values@[b]@);
                } else {
                    assert(m.values@[b]@ != m.values@[a]@);
                }
            }
        }
        if texts.no_duplicates() {
            assert forall|i: int, j: int| 0 <= i < j < m.values@.len() implies (
            #[trigger] m.values@[i])@ != (#[trigger] m.values@[j])@ by {
                assert(texts[i] != texts[j]);
            }
        }
    }
    assert(free == !start_taken(all, rules, n)) by {
        if start_taken(all, rules, n) {
            let j = choose|j: int|
                0 <= j < n && (#[trigger] all[j]).start_offset == all[n].start_offset
                    && passes_unique(all[j], rules);
            every_place_stays(matches, rules, j);
            let x = choose|x: int|
                0 <= x < kept.len() && (#[trigger] kept[x]).start_offset == matches[j].start_offset;
            assert(kept[x].start_offset == m.start_offset);
        }
        if !free {
            let x = choose|x: int|
                0 <= x < kept.len() && (#[trigger] kept[x]).start_offset == m.start_offset;
            assert(matches.contains(kept[x]) && passes_unique(kept[x], rules));
            let j = choose|j: int| 0 <= j < matches.len() && matches[j] == kept[x];
            assert(all[j].start_offset == all[n].start_offset && passes_unique(all[j], rules));
        }
    }
}

/// If only different values are asked for, a match with different values is kept, however many
/// there are.
pub proof fn matches_with_different_values_stay<M>(
    matches: Seq<QueryMatch<M>>,
    rules: MatchRules,
    k: int,
)
    requires
        !rules.limit,
        0 <= k < matches.len(),
        forall|i: int, j: int|
            0 <= i < j < matches[k].values@.len() ==> (#[trigger] matches[k].values@[i])@ != (
            #[trigger] matches[k].values@[j])@,
    ensures
        selected(matches, rules).contains(matches[k]),
    decreases matches.len(),
{
    let head = matches.drop_last();
    let n = matches.len() - 1;
    let kept = selected(matches, rules);
    assert(head.push(matches[n]) =~= matches);
    one_more_match(head, rules, matches[n]);
    if k < n {
        assert(head[k] == matches[k]);
        matches_with_different_values_stay(head, rules, k);
        let x = choose|x: int|
            0 <= x < selected(head, rules).len() && selected(head, rules)[x] == matches[k];
        assert(kept[x] == matches[k]);
    } else {
        assert(kept[kept.len() - 1] == matches[k]);
    }
}

/// Where a match goes: with a single query it is shown with the number of its line, otherwise it
/// is sent on with the number of its query.
pub proof fn deliveries_are_settled<M>(
    delivery: Delivery<M>,
    found: QueryMatch<M>,
    source: Seq<char>,
    query_index: usize,
    num_queries: usize,
)
    requires
        delivered(delivery, found, source, query_index, num_queries),
    ensures
        num_queries == 1 ==> delivery is Show && delivery->Show_found == found
            && delivery->Show_line == line_of(source, found.start_offset as int),
        num_queries != 1 ==> delivery is Forward && delivery->Forward_found == found
            && delivery->Forward_query_index == query_index,
{
}

} // verus!
