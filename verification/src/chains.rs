//! Searches for several queries at once: results are kept only if they can be combined with
//! results of the other queries.
use vstd::prelude::*;

verus! {

/// Some element of `others` can be combined with `r`.
pub open spec fn supported<R>(linked: spec_fn(R, R) -> bool, r: R, others: Seq<R>) -> bool {
    exists|k: int| 0 <= k < others.len() && linked(r, #[trigger] others[k])
}

/// The elements of `group` that can be combined with an element of `others`.
pub open spec fn combinable<R>(
    linked: spec_fn(R, R) -> bool,
    group: Seq<R>,
    others: Seq<R>,
) -> Seq<R> {
    group.filter(|r: R| supported(linked, r, others))
}

/// Groups `i` and `j` after each was reduced to what can be combined with the other, `i` first.
pub open spec fn paired<R>(
    linked: spec_fn(R, R) -> bool,
    groups: Seq<Seq<R>>,
    i: int,
    j: int,
) -> Seq<Seq<R>> {
    let first = combinable(linked, groups[i], groups[j]);
    let second = combinable(linked, groups[j], first);
    groups.update(i, first).update(j, second)
}

/// All groups after group `i` was paired with each group from `j` on.
pub open spec fn paired_from<R>(
    linked: spec_fn(R, R) -> bool,
    groups: Seq<Seq<R>>,
    i: int,
    j: int,
) -> Seq<Seq<R>>
    decreases groups.len() - j,
    when 0 <= i < j
{
    if j >= groups.len() {
        groups
    } else {
        paired_from(linked, paired(linked, groups, i, j), i, j + 1)
    }
}

/// All groups after each group from `i` on was paired with each group behind it.
pub open spec fn chained_from<R>(
    linked: spec_fn(R, R) -> bool,
    groups: Seq<Seq<R>>,
    i: int,
) -> Seq<Seq<R>>
    decreases groups.len() - i,
    when 0 <= i
{
    if i >= groups.len() {
        groups
    } else {
        proof {
            pairing_keeps_group_count(linked, groups, i, i + 1);
        }
        chained_from(linked, paired_from(linked, groups, i, i + 1), i + 1)
    }
}

/// All groups after each was paired with each group behind it.
pub open spec fn chained<R>(linked: spec_fn(R, R) -> bool, groups: Seq<Seq<R>>) -> Seq<Seq<R>> {
    chained_from(linked, groups, 0)
}

/// Pairing keeps the number of groups.
pub proof fn pairing_keeps_group_count<R>(
    linked: spec_fn(R, R) -> bool,
    groups: Seq<Seq<R>>,
    i: int,
    j: int,
)
    requires
        0 <= i < j,
    ensures
        paired_from(linked, groups, i, j).len() == groups.len(),
    decreases groups.len() - j,
{
    if j < groups.len() {
        pairing_keeps_group_count(linked, paired(linked, groups, i, j), i, j + 1);
    }
}

/// The contents of a list of lists.
pub open spec fn group_views<R>(groups: Seq<Vec<R>>) -> Seq<Seq<R>> {
    Seq::new(groups.len(), |q: int| groups[q]@)
}

/// The relation that a predicate on two results computes.
pub open spec fn relation<R, F: Fn(&R, &R) -> bool>(chainable: F) -> spec_fn(R, R) -> bool {
    |a: R, b: R| chainable.ensures((&a, &b), true)
}

/// `chainable` can be asked of any two results, and has one answer.
pub open spec fn decides<R, F: Fn(&R, &R) -> bool>(chainable: F) -> bool {
    &&& forall|a: &R, b: &R| #[trigger] chainable.requires((a, b))
    &&& forall|a: &R, b: &R|
        !(#[trigger] chainable.ensures((a, b), true) && chainable.ensures((a, b), false))
}

fn is_supported<R, F: Fn(&R, &R) -> bool>(r: &R, others: &Vec<R>, chainable: &F) -> (yes: bool)
    requires
        decides::<R, F>(*chainable),
    ensures
        yes == supported(relation::<R, F>(*chainable), *r, others@),
{
    let mut k: usize = 0;
    while k < others.len()
        invariant
            k <= others@.len(),
            decides::<R, F>(*chainable),
            forall|m: int| 0 <= m < k ==> !relation::<R, F>(*chainable)(*r, #[trigger] others@[m]),
        decreases others@.len() - k,
    {
        let other = &others[k];
        if chainable(r, other) {
            assert(relation::<R, F>(*chainable)(*r, others@[k as int]));
            return true;
        }
        assert(!chainable.ensures((r, other), true));
        k = k + 1;
    }
    false
}

/// Keeps the elements of `group` that can be combined with an element of `others`.
pub fn retain_combinable<R, F: Fn(&R, &R) -> bool>(
    group: Vec<R>,
    others: &Vec<R>,
    chainable: &F,
) -> (kept: Vec<R>)
    requires
        decides::<R, F>(*chainable),
    ensures
        kept@ == combinable(relation::<R, F>(*chainable), group@, others@),
{
    let ghost all = group@;
    let ghost keep = |r: R| supported(relation::<R, F>(*chainable), r, others@);
    let mut kept: Vec<R> = Vec::new();
    proof {
        reveal(Seq::filter);
    }
    for r in it: group
        invariant
            it.seq() == all,
            decides::<R, F>(*chainable),
            keep == |r: R| supported(relation::<R, F>(*chainable), r, others@),
            kept@ == all.take(it.index()).filter(keep),
    {
        proof {
            reveal(Seq::filter);
            assert(all.take(it.index() + 1).drop_last() == all.take(it.index()));
        }
        if is_supported(&r, others, chainable) {
            kept.push(r);
        }
    }
    assert(all.take(all.len() as int) == all);
    kept
}

/// Takes a group out of a list and leaves an empty one.
fn take_group<R>(groups: &mut Vec<Vec<R>>, q: usize) -> (group: Vec<R>)
    requires
        q < old(groups)@.len(),
    ensures
        group == old(groups)@[q as int],
        final(groups)@.len() == old(groups)@.len(),
        forall|p: int|
            0 <= p < old(groups)@.len() && p != q ==> final(groups)@[p] == #[trigger] old(
                groups,
            )@[p],
{
    let mut group: Vec<R> = Vec::new();
    std::mem::swap(&mut groups[q], &mut group);
    group
}

/// Reduces the results of all queries to those that can be combined: each group is paired with
/// each group behind it, and of both only what can be combined with the other stays.
pub fn filter_chains<R, F: Fn(&R, &R) -> bool>(groups: Vec<Vec<R>>, chainable: F) -> (kept: Vec<
    Vec<R>,
>)
    requires
        decides::<R, F>(chainable),
    ensures
        group_views(kept@) == chained(relation::<R, F>(chainable), group_views(groups@)),
{
    let ghost linked = relation::<R, F>(chainable);
    let ghost goal = chained(linked, group_views(groups@));
    let mut kept = groups;
    let n = kept.len();
    let mut i: usize = 0;
    while i < n
        invariant
            i <= n == kept@.len(),
            decides::<R, F>(chainable),
            linked == relation::<R, F>(chainable),
            chained_from(linked, group_views(kept@), i as int) == goal,
        decreases n - i,
    {
        let ghost row = paired_from(linked, group_views(kept@), i as int, i + 1);
        assert(chained_from(linked, row, i + 1) == goal);
        let mut j: usize = i + 1;
        while j < n
            invariant
                i < j <= n == kept@.len(),
                decides::<R, F>(chainable),
                linked == relation::<R, F>(chainable),
                paired_from(linked, group_views(kept@), i as int, j as int) == row,
            decreases n - j,
        {
            let ghost before = group_views(kept@);
            let a = take_group(&mut kept, i);
            let b = take_group(&mut kept, j);
            let a = retain_combinable(a, &b, &chainable);
            let b = retain_combinable(b, &a, &chainable);
            kept[i] = a;
            kept[j] = b;
            assert(group_views(kept@) =~= paired(linked, before, i as int, j as int));
            j = j + 1;
        }
        assert(group_views(kept@) == row);
        i = i + 1;
    }
    kept
}

/// The results of query `q`, in the order in which they came in.
pub open spec fn of_query<R>(results: Seq<(usize, R)>, q: int) -> Seq<R>
    decreases results.len(),
{
    if results.len() == 0 {
        seq![]
    } else if results.last().0 == q {
        of_query(results.drop_last(), q).push(results.last().1)
    } else {
        of_query(results.drop_last(), q)
    }
}

/// Sorts results by the query that they belong to.
pub fn group_results<R>(results: Vec<(usize, R)>, num_queries: usize) -> (groups: Vec<Vec<R>>)
    requires
        forall|k: int| 0 <= k < results@.len() ==> (#[trigger] results@[k]).0 < num_queries,
    ensures
        groups@.len() == num_queries,
        forall|q: int| 0 <= q < num_queries ==> (#[trigger] groups@[q])@ == of_query(results@, q),
{
    let ghost all = results@;
    let mut groups: Vec<Vec<R>> = Vec::new();
    let mut q: usize = 0;
    while q < num_queries
        invariant
            q <= num_queries,
            groups@.len() == q,
            forall|p: int| 0 <= p < q ==> (#[trigger] groups@[p])@ == Seq::<R>::empty(),
        decreases num_queries - q,
    {
        groups.push(Vec::new());
        q = q + 1;
    }
    for result in it: results
        invariant
            it.seq() == all,
            groups@.len() == num_queries,
            forall|k: int| 0 <= k < all.len() ==> (#[trigger] all[k]).0 < num_queries,
            forall|p: int|
                0 <= p < num_queries ==> (#[trigger] groups@[p])@ == of_query(
                    all.take(it.index()),
                    p,
                ),
    {
        let ghost before = groups@;
        assert(result == all[it.index()]);
        assert(all.take(it.index() + 1).drop_last() == all.take(it.index()));
        let (index, value) = result;
        let mut group = take_group(&mut groups, index);
        group.push(value);
        groups[index] = group;
        assert forall|p: int| 0 <= p < num_queries implies (#[trigger] groups@[p])@ == of_query(
            all.take(it.index() + 1),
            p,
        ) by {
            assert(before[p]@ == of_query(all.take(it.index()), p));
        }
    }
    assert(all.take(all.len() as int) == all);
    groups
}

/// Sorts the results of several queries and reduces them to those that can be combined.
pub fn combine_results<R, F: Fn(&R, &R) -> bool>(
    results: Vec<(usize, R)>,
    num_queries: usize,
    chainable: F,
) -> (kept: Vec<Vec<R>>)
    requires
        decides::<R, F>(chainable),
        forall|k: int| 0 <= k < results@.len() ==> (#[trigger] results@[k]).0 < num_queries,
    ensures
        group_views(kept@) == chained(
            relation::<R, F>(chainable),
            Seq::new(num_queries as nat, |q: int| of_query(results@, q)),
        ),
{
    let ghost all = results@;
    let groups = group_results(results, num_queries);
    assert(group_views(groups@) =~= Seq::new(num_queries as nat, |q: int| of_query(all, q)));
    filter_chains(groups, chainable)
}

/// `few` is what a filter leaves of `many`.
pub open spec fn thinned<R>(few: Seq<R>, many: Seq<R>) -> bool {
    exists|keep: spec_fn(R) -> bool| few == #[trigger] many.filter(keep)
}

/// Each group of `few` is what a filter leaves of the same group of `many`.
pub open spec fn all_thinned<R>(few: Seq<Seq<R>>, many: Seq<Seq<R>>) -> bool {
    &&& few.len() == many.len()
    &&& forall|q: int| 0 <= q < many.len() ==> thinned(#[trigger] few[q], many[q])
}

proof fn lemma_filter_all<R>(group: Seq<R>)
    ensures
        group.filter(|r: R| true) == group,
    decreases group.len(),
{
    reveal(Seq::filter);
    if group.len() > 0 {
        lemma_filter_all(group.drop_last());
        assert(group.drop_last().push(group.last()) == group);
    }
}

proof fn lemma_filter_twice<R>(
    group: Seq<R>,
    first: spec_fn(R) -> bool,
    second: spec_fn(R) -> bool,
)
    ensures
        group.filter(first).filter(second) == group.filter(|r: R| first(r) && second(r)),
    decreases group.len(),
{
    reveal(Seq::filter);
    if group.len() > 0 {
        lemma_filter_twice(group.drop_last(), first, second);
        if first(group.last()) {
            let kept = group.drop_last().filter(first);
            assert(kept.push(group.last()).drop_last() == kept);
        }
    }
}

proof fn lemma_thinned_trans<R>(a: Seq<R>, b: Seq<R>, c: Seq<R>)
    requires
        thinned(a, b),
        thinned(b, c),
    ensures
        thinned(a, c),
{
    let first = choose|keep: spec_fn(R) -> bool| b == #[trigger] c.filter(keep);
    let second = choose|keep: spec_fn(R) -> bool| a == #[trigger] b.filter(keep);
    lemma_filter_twice(c, first, second);
}

proof fn lemma_all_thinned_refl<R>(groups: Seq<Seq<R>>)
    ensures
        all_thinned(groups, groups),
{
    assert forall|q: int| 0 <= q < groups.len() implies thinned(#[trigger] groups[q], groups[q]) by {
        lemma_filter_all(groups[q]);
    }
}

proof fn lemma_all_thinned_trans<R>(a: Seq<Seq<R>>, b: Seq<Seq<R>>, c: Seq<Seq<R>>)
    requires
        all_thinned(a, b),
        all_thinned(b, c),
    ensures
        all_thinned(a, c),
{
    assert forall|q: int| 0 <= q < c.len() implies thinned(#[trigger] a[q], c[q]) by {
        assert(thinned(b[q], c[q]));
        lemma_thinned_trans(a[q], b[q], c[q]);
    }
}

/// What a filter leaves was there before, and fulfils the condition; what fulfils the condition
/// is left.
proof fn lemma_filter_members<R>(group: Seq<R>, keep: spec_fn(R) -> bool)
    ensures
        forall|x: int|
            0 <= x < group.filter(keep).len() ==> {
                let r = #[trigger] group.filter(keep)[x];
                keep(r) && group.contains(r)
            },
        forall|x: int|
            0 <= x < group.len() && keep(#[trigger] group[x]) ==> group.filter(keep).contains(
                group[x],
            ),
    decreases group.len(),
{
    reveal(Seq::filter);
    if group.len() > 0 {
        let head = group.drop_last();
        let n = group.len() - 1;
        lemma_filter_members(head, keep);
        let kept = group.filter(keep);
        assert forall|x: int| 0 <= x < kept.len() implies keep(#[trigger] kept[x])
            && group.contains(kept[x]) by {
            if x < head.filter(keep).len() {
                let r = head.filter(keep)[x];
                assert(head.contains(r));
                let y = choose|y: int| 0 <= y < head.len() && head[y] == r;
                assert(group[y] == r);
            } else {
                assert(kept[x] == group[n]);
            }
        }
        assert forall|x: int| 0 <= x < group.len() && keep(#[trigger] group[x]) implies kept.contains(
            group[x],
        ) by {
            if x < n {
                assert(head[x] == group[x]);
                let y = choose|y: int|
                    0 <= y < head.filter(keep).len() && head.filter(keep)[y] == group[x];
                assert(kept[y] == group[x]);
            } else {
                assert(kept[kept.len() - 1] == group[x]);
            }
        }
    }
}

proof fn lemma_thinned_members<R>(few: Seq<R>, many: Seq<R>)
    requires
        thinned(few, many),
    ensures
        forall|x: int| 0 <= x < few.len() ==> many.contains(#[trigger] few[x]),
{
    let keep = choose|keep: spec_fn(R) -> bool| few == #[trigger] many.filter(keep);
    lemma_filter_members(many, keep);
}

proof fn lemma_support_grows<R>(linked: spec_fn(R, R) -> bool, r: R, few: Seq<R>, many: Seq<R>)
    requires
        thinned(few, many),
        supported(linked, r, few),
    ensures
        supported(linked, r, many),
{
    lemma_thinned_members(few, many);
    let k = choose|k: int| 0 <= k < few.len() && linked(r, #[trigger] few[k]);
    assert(many.contains(few[k]));
    let y = choose|y: int| 0 <= y < many.len() && many[y] == few[k];
    assert(linked(r, many[y]));
}

proof fn lemma_paired_thins<R>(linked: spec_fn(R, R) -> bool, groups: Seq<Seq<R>>, i: int, j: int)
    requires
        0 <= i < j < groups.len(),
    ensures
        all_thinned(paired(linked, groups, i, j), groups),
{
    let after = paired(linked, groups, i, j);
    assert forall|q: int| 0 <= q < groups.len() implies thinned(#[trigger] after[q], groups[q]) by {
        if q == i {
            assert(after[q] == groups[i].filter(|r: R| supported(linked, r, groups[j])));
        } else if q == j {
            let first = combinable(linked, groups[i], groups[j]);
            assert(after[q] == groups[j].filter(|r: R| supported(linked, r, first)));
        } else {
            lemma_filter_all(groups[q]);
        }
    }
}

proof fn lemma_paired_from_thins<R>(
    linked: spec_fn(R, R) -> bool,
    groups: Seq<Seq<R>>,
    i: int,
    j: int,
)
    requires
        0 <= i < j,
    ensures
        all_thinned(paired_from(linked, groups, i, j), groups),
    decreases groups.len() - j,
{
    if j >= groups.len() {
        lemma_all_thinned_refl(groups);
    } else {
        let next = paired(linked, groups, i, j);
        lemma_paired_thins(linked, groups, i, j);
        lemma_paired_from_thins(linked, next, i, j + 1);
        lemma_all_thinned_trans(paired_from(linked, next, i, j + 1), next, groups);
    }
}

proof fn lemma_chained_from_thins<R>(linked: spec_fn(R, R) -> bool, groups: Seq<Seq<R>>, i: int)
    requires
        0 <= i,
    ensures
        all_thinned(chained_from(linked, groups, i), groups),
    decreases groups.len() - i,
{
    if i >= groups.len() {
        lemma_all_thinned_refl(groups);
    } else {
        let next = paired_from(linked, groups, i, i + 1);
        lemma_paired_from_thins(linked, groups, i, i + 1);
        lemma_chained_from_thins(linked, next, i + 1);
        lemma_all_thinned_trans(chained_from(linked, next, i + 1), next, groups);
    }
}

/// Combining the results of several queries only drops results: nothing is added, nothing
/// changes its place among what stays.
pub proof fn chaining_only_drops<R>(linked: spec_fn(R, R) -> bool, groups: Seq<Seq<R>>, q: int)
    requires
        0 <= q < groups.len(),
    ensures
        chained(linked, groups).len() == groups.len(),
        thinned(chained(linked, groups)[q], groups[q]),
{
    lemma_chained_from_thins(linked, groups, 0);
    assert(thinned(chained(linked, groups)[q], groups[q]));
}

/// Each element of `group` can be combined with an element of `others`.
pub open spec fn all_supported<R>(
    linked: spec_fn(R, R) -> bool,
    group: Seq<R>,
    others: Seq<R>,
) -> bool {
    forall|x: int| 0 <= x < group.len() ==> supported(linked, #[trigger] group[x], others)
}

proof fn lemma_all_supported_stays<R>(
    linked: spec_fn(R, R) -> bool,
    few: Seq<R>,
    many: Seq<R>,
    others: Seq<R>,
)
    requires
        thinned(few, many),
        all_supported(linked, many, others),
    ensures
        all_supported(linked, few, others),
{
    lemma_thinned_members(few, many);
    assert forall|x: int| 0 <= x < few.len() implies supported(
        linked,
        #[trigger] few[x],
        others,
    ) by {
        assert(many.contains(few[x]));
        let y = choose|y: int| 0 <= y < many.len() && many[y] == few[x];
        assert(supported(linked, many[y], others));
    }
}

/// Pairing two groups leaves in each only what the other supports.
proof fn lemma_paired_supports<R>(
    linked: spec_fn(R, R) -> bool,
    groups: Seq<Seq<R>>,
    origin: Seq<Seq<R>>,
    i: int,
    j: int,
)
    requires
        0 <= i < j < groups.len(),
        all_thinned(groups, origin),
    ensures
        all_supported(linked, paired(linked, groups, i, j)[i], origin[j]),
        all_supported(linked, paired(linked, groups, i, j)[j], origin[i]),
{
    let after = paired(linked, groups, i, j);
    let first = combinable(linked, groups[i], groups[j]);
    let by_j = |r: R| supported(linked, r, groups[j]);
    let by_i = |r: R| supported(linked, r, first);
    assert(thinned(groups[i], origin[i]));
    assert(thinned(groups[j], origin[j]));
    assert(first == groups[i].filter(by_j));
    assert(thinned(first, groups[i]));
    lemma_thinned_trans(first, groups[i], origin[i]);
    lemma_filter_members(groups[i], by_j);
    lemma_filter_members(groups[j], by_i);
    assert(after[i] == groups[i].filter(by_j));
    assert(after[j] == groups[j].filter(by_i));
    assert forall|x: int| 0 <= x < after[i].len() implies supported(
        linked,
        #[trigger] after[i][x],
        origin[j],
    ) by {
        assert(by_j(groups[i].filter(by_j)[x]));
        lemma_support_grows(linked, after[i][x], groups[j], origin[j]);
    }
    assert forall|x: int| 0 <= x < after[j].len() implies supported(
        linked,
        #[trigger] after[j][x],
        origin[i],
    ) by {
        assert(by_i(groups[j].filter(by_i)[x]));
        lemma_support_grows(linked, after[j][x], first, origin[i]);
    }
}

proof fn lemma_paired_from_supports<R>(
    linked: spec_fn(R, R) -> bool,
    groups: Seq<Seq<R>>,
    origin: Seq<Seq<R>>,
    i: int,
    j: int,
    k: int,
)
    requires
        0 <= i < j <= k < groups.len(),
        all_thinned(groups, origin),
    ensures
        all_supported(linked, paired_from(linked, groups, i, j)[i], origin[k]),
        all_supported(linked, paired_from(linked, groups, i, j)[k], origin[i]),
    decreases groups.len() - j,
{
    let next = paired(linked, groups, i, j);
    let last = paired_from(linked, next, i, j + 1);
    lemma_paired_thins(linked, groups, i, j);
    lemma_all_thinned_trans(next, groups, origin);
    if j == k {
        lemma_paired_supports(linked, groups, origin, i, j);
        lemma_paired_from_thins(linked, next, i, j + 1);
        assert(thinned(last[i], next[i]));
        assert(thinned(last[k], next[k]));
        lemma_all_supported_stays(linked, last[i], next[i], origin[k]);
        lemma_all_supported_stays(linked, last[k], next[k], origin[i]);
    } else {
        lemma_paired_from_supports(linked, next, origin, i, j + 1, k);
    }
}

proof fn lemma_chained_from_supports<R>(
    linked: spec_fn(R, R) -> bool,
    groups: Seq<Seq<R>>,
    origin: Seq<Seq<R>>,
    i: int,
    p: int,
    q: int,
)
    requires
        0 <= i <= p < q < groups.len(),
        all_thinned(groups, origin),
    ensures
        all_supported(linked, chained_from(linked, groups, i)[p], origin[q]),
        all_supported(linked, chained_from(linked, groups, i)[q], origin[p]),
    decreases groups.len() - i,
{
    let next = paired_from(linked, groups, i, i + 1);
    let last = chained_from(linked, next, i + 1);
    lemma_paired_from_thins(linked, groups, i, i + 1);
    lemma_all_thinned_trans(next, groups, origin);
    if i == p {
        lemma_paired_from_supports(linked, groups, origin, i, i + 1, q);
        lemma_chained_from_thins(linked, next, i + 1);
        assert(thinned(last[p], next[p]));
        assert(thinned(last[q], next[q]));
        lemma_all_supported_stays(linked, last[p], next[p], origin[q]);
        lemma_all_supported_stays(linked, last[q], next[q], origin[p]);
    } else {
        lemma_chained_from_supports(linked, next, origin, i + 1, p, q);
    }
}

/// A result is shown only if it can be combined with at least one result of every other query.
pub proof fn shown_results_combine<R>(
    linked: spec_fn(R, R) -> bool,
    groups: Seq<Seq<R>>,
    p: int,
    q: int,
)
    requires
        0 <= p < groups.len(),
        0 <= q < groups.len(),
        p != q,
    ensures
        all_supported(linked, chained(linked, groups)[p], groups[q]),
{
    lemma_all_thinned_refl(groups);
    if p < q {
        lemma_chained_from_supports(linked, groups, groups, 0, p, q);
    } else {
        lemma_chained_from_supports(linked, groups, groups, 0, q, p);
    }
}

/// `family` picks results of which each can be combined with a picked result of every other
/// query.
pub open spec fn mutually_supported<R>(
    linked: spec_fn(R, R) -> bool,
    groups: Seq<Seq<R>>,
    family: spec_fn(int, R) -> bool,
) -> bool {
    forall|q: int, x: int, p: int|
        #![trigger groups[q][x], groups[p]]
        0 <= q < groups.len() && 0 <= p < groups.len() && p != q && 0 <= x < groups[q].len()
            && family(q, groups[q][x]) ==> picked_support(linked, groups[q][x], groups[p], family, p)
}

/// A picked element of group `p` can be combined with `r`.
pub open spec fn picked_support<R>(
    linked: spec_fn(R, R) -> bool,
    r: R,
    group: Seq<R>,
    family: spec_fn(int, R) -> bool,
    p: int,
) -> bool {
    exists|y: int|
        0 <= y < group.len() && linked(r, #[trigger] group[y]) && family(p, group[y])
}

/// Every picked element of `before` is in `after`.
pub open spec fn keeps_family<R>(
    before: Seq<Seq<R>>,
    after: Seq<Seq<R>>,
    family: spec_fn(int, R) -> bool,
) -> bool {
    forall|q: int, x: int|
        #![trigger before[q][x]]
        0 <= q < before.len() && 0 <= x < before[q].len() && family(q, before[q][x])
            ==> after[q].contains(before[q][x])
}

/// A family stays mutually supported when only others are dropped.
proof fn lemma_family_stays<R>(
    linked: spec_fn(R, R) -> bool,
    before: Seq<Seq<R>>,
    after: Seq<Seq<R>>,
    family: spec_fn(int, R) -> bool,
)
    requires
        mutually_supported(linked, before, family),
        all_thinned(after, before),
        keeps_family(before, after, family),
    ensures
        mutually_supported(linked, after, family),
{
    assert forall|q: int, x: int, p: int|
        #![trigger after[q][x], after[p]]
        0 <= q < after.len() && 0 <= p < after.len() && p != q && 0 <= x < after[q].len() && family(
            q,
            after[q][x],
        ) implies picked_support(linked, after[q][x], after[p], family, p) by {
        let r = after[q][x];
        assert(thinned(after[q], before[q]));
        lemma_thinned_members(after[q], before[q]);
        assert(before[q].contains(after[q][x]));
        let z = choose|z: int| 0 <= z < before[q].len() && before[q][z] == r;
        let partners = before[p];
        assert(picked_support(linked, before[q][z], partners, family, p));
        let y = choose|y: int|
            0 <= y < partners.len() && linked(r, #[trigger] partners[y]) && family(p, partners[y]);
        assert(after[p].contains(before[p][y]));
        let w = choose|w: int| 0 <= w < after[p].len() && after[p][w] == before[p][y];
        assert(linked(r, after[p][w]) && family(p, after[p][w]));
    }
}

proof fn lemma_keeps_family_trans<R>(
    a: Seq<Seq<R>>,
    b: Seq<Seq<R>>,
    c: Seq<Seq<R>>,
    family: spec_fn(int, R) -> bool,
)
    requires
        a.len() == b.len(),
        keeps_family(a, b, family),
        keeps_family(b, c, family),
    ensures
        keeps_family(a, c, family),
{
    assert forall|q: int, x: int|
        #![trigger a[q][x]]
        0 <= q < a.len() && 0 <= x < a[q].len() && family(q, a[q][x]) implies c[q].contains(
        a[q][x],
    ) by {
        assert(b[q].contains(a[q][x]));
        let y = choose|y: int| 0 <= y < b[q].len() && b[q][y] == a[q][x];
        assert(c[q].contains(b[q][y]));
    }
}

proof fn lemma_paired_keeps_family<R>(
    linked: spec_fn(R, R) -> bool,
    groups: Seq<Seq<R>>,
    family: spec_fn(int, R) -> bool,
    i: int,
    j: int,
)
    requires
        0 <= i < j < groups.len(),
        mutually_supported(linked, groups, family),
    ensures
        keeps_family(groups, paired(linked, groups, i, j), family),
{
    let after = paired(linked, groups, i, j);
    let first = combinable(linked, groups[i], groups[j]);
    let by_j = |r: R| supported(linked, r, groups[j]);
    let by_i = |r: R| supported(linked, r, first);
    lemma_filter_members(groups[i], by_j);
    lemma_filter_members(groups[j], by_i);
    assert(after[i] == groups[i].filter(by_j));
    assert(after[j] == groups[j].filter(by_i));
    assert forall|x: int| 0 <= x < groups[i].len() && family(
        i,
        #[trigger] groups[i][x],
    ) implies first.contains(groups[i][x]) by {
        let r = groups[i][x];
        let partners = groups[j];
        assert(picked_support(linked, groups[i][x], partners, family, j));
        let y = choose|y: int|
            0 <= y < partners.len() && linked(r, #[trigger] partners[y]) && family(j, partners[y]);
        assert(by_j(groups[i][x]));
    }
    assert forall|x: int| 0 <= x < groups[j].len() && family(
        j,
        #[trigger] groups[j][x],
    ) implies after[j].contains(groups[j][x]) by {
        let r = groups[j][x];
        let partners = groups[i];
        assert(picked_support(linked, groups[j][x], partners, family, i));
        let y = choose|y: int|
            0 <= y < partners.len() && linked(r, #[trigger] partners[y]) && family(i, partners[y]);
        assert(first.contains(groups[i][y]));
        let w = choose|w: int| 0 <= w < first.len() && first[w] == groups[i][y];
        assert(linked(r, first[w]));
        assert(by_i(groups[j][x]));
    }
    assert forall|q: int, x: int|
        #![trigger groups[q][x]]
        0 <= q < groups.len() && 0 <= x < groups[q].len() && family(
            q,
            groups[q][x],
        ) implies after[q].contains(groups[q][x]) by {
        if q != i && q != j {
            assert(after[q] == groups[q]);
        }
    }
}

proof fn lemma_paired_from_keeps_family<R>(
    linked: spec_fn(R, R) -> bool,
    groups: Seq<Seq<R>>,
    family: spec_fn(int, R) -> bool,
    i: int,
    j: int,
)
    requires
        0 <= i < j,
        mutually_supported(linked, groups, family),
    ensures
        keeps_family(groups, paired_from(linked, groups, i, j), family),
    decreases groups.len() - j,
{
    if j < groups.len() {
        let next = paired(linked, groups, i, j);
        lemma_paired_keeps_family(linked, groups, family, i, j);
        lemma_paired_thins(linked, groups, i, j);
        lemma_family_stays(linked, groups, next, family);
        lemma_paired_from_keeps_family(linked, next, family, i, j + 1);
        lemma_keeps_family_trans(groups, next, paired_from(linked, next, i, j + 1), family);
    }
}

proof fn lemma_chained_from_keeps_family<R>(
    linked: spec_fn(R, R) -> bool,
    groups: Seq<Seq<R>>,
    family: spec_fn(int, R) -> bool,
    i: int,
)
    requires
        0 <= i,
        mutually_supported(linked, groups, family),
    ensures
        keeps_family(groups, chained_from(linked, groups, i), family),
    decreases groups.len() - i,
{
    if i < groups.len() {
        let next = paired_from(linked, groups, i, i + 1);
        lemma_paired_from_keeps_family(linked, groups, family, i, i + 1);
        lemma_paired_from_thins(linked, groups, i, i + 1);
        lemma_family_stays(linked, groups, next, family);
        lemma_chained_from_keeps_family(linked, next, family, i + 1);
        lemma_keeps_family_trans(groups, next, chained_from(linked, next, i + 1), family);
    }
}

/// Results that can be combined with one another across all queries are all shown.
pub proof fn mutually_supported_results_stay<R>(
    linked: spec_fn(R, R) -> bool,
    groups: Seq<Seq<R>>,
    family: spec_fn(int, R) -> bool,
)
    requires
        mutually_supported(linked, groups, family),
    ensures
        keeps_family(groups, chained(linked, groups), family),
{
    lemma_chained_from_keeps_family(linked, groups, family, 0);
}

/// With two queries, and if combining goes both ways, what is shown of each can be combined with
/// something that is shown of the other.
pub proof fn two_queries_support_each_other<R>(
    linked: spec_fn(R, R) -> bool,
    groups: Seq<Seq<R>>,
)
    requires
        groups.len() == 2,
        forall|a: R, b: R| #[trigger] linked(a, b) ==> linked(b, a),
    ensures
        all_supported(linked, chained(linked, groups)[0], chained(linked, groups)[1]),
        all_supported(linked, chained(linked, groups)[1], chained(linked, groups)[0]),
{
    reveal_with_fuel(chained_from, 3);
    reveal_with_fuel(paired_from, 3);
    let after = paired(linked, groups, 0, 1);
    assert(chained(linked, groups) == after);
    let first = combinable(linked, groups[0], groups[1]);
    let by_1 = |r: R| supported(linked, r, groups[1]);
    let by_0 = |r: R| supported(linked, r, first);
    lemma_filter_members(groups[0], by_1);
    lemma_filter_members(groups[1], by_0);
    assert(after[0] == groups[0].filter(by_1));
    assert(after[1] == groups[1].filter(by_0));
    assert forall|x: int| 0 <= x < after[0].len() implies supported(
        linked,
        #[trigger] after[0][x],
        after[1],
    ) by {
        let r = after[0][x];
        assert(by_1(groups[0].filter(by_1)[x]));
        let k = choose|k: int| 0 <= k < groups[1].len() && linked(r, #[trigger] groups[1][k]);
        assert(linked(groups[1][k], first[x]));
        assert(by_0(groups[1][k]));
        assert(after[1].contains(groups[1][k]));
        let y = choose|y: int| 0 <= y < after[1].len() && after[1][y] == groups[1][k];
        assert(linked(r, after[1][y]));
    }
    assert forall|x: int| 0 <= x < after[1].len() implies supported(
        linked,
        #[trigger] after[1][x],
        after[0],
    ) by {
        assert(by_0(groups[1].filter(by_0)[x]));
    }
}

/// The group of a query holds the results of that query, all of them and in order.
pub proof fn groups_are_filtered_results<R>(results: Seq<(usize, R)>, q: int)
    ensures
        of_query(results, q) == results.filter(|r: (usize, R)| r.0 == q).map_values(
            |r: (usize, R)| r.1,
        ),
    decreases results.len(),
{
    reveal(Seq::filter);
    let mine = |r: (usize, R)| r.0 == q;
    let value = |r: (usize, R)| r.1;
    if results.len() == 0 {
        assert(results.filter(mine).map_values(value) =~= seq![]);
    } else {
        let head = results.drop_last();
        groups_are_filtered_results(head, q);
        if results.last().0 == q {
            assert(head.filter(mine).push(results.last()).map_values(value) =~= head.filter(
                mine,
            ).map_values(value).push(results.last().1));
        }
    }
}

/// Every result is in the group of its query.
pub proof fn grouping_loses_nothing<R>(results: Seq<(usize, R)>, k: int)
    requires
        0 <= k < results.len(),
    ensures
        of_query(results, results[k].0 as int).contains(results[k].1),
    decreases results.len(),
{
    let head = results.drop_last();
    let q = results[k].0 as int;
    let group = of_query(results, q);
    if k < results.len() - 1 {
        grouping_loses_nothing(head, k);
        let x = choose|x: int|
            0 <= x < of_query(head, q).len() && of_query(head, q)[x] == results[k].1;
        assert(group[x] == results[k].1);
    } else {
        assert(group[group.len() - 1] == results[k].1);
    }
}

/// How many elements all groups have together.
pub open spec fn total_len<R>(groups: Seq<Seq<R>>) -> nat
    decreases groups.len(),
{
    if groups.len() == 0 {
        0
    } else {
        total_len(groups.drop_last()) + groups.last().len()
    }
}

proof fn lemma_total_len_grows<R>(groups: Seq<Seq<R>>, q: int, r: R)
    requires
        0 <= q < groups.len(),
    ensures
        total_len(groups.update(q, groups[q].push(r))) == total_len(groups) + 1,
    decreases groups.len(),
{
    let after = groups.update(q, groups[q].push(r));
    if q < groups.len() - 1 {
        lemma_total_len_grows(groups.drop_last(), q, r);
        assert(after.drop_last() =~= groups.drop_last().update(q, groups[q].push(r)));
    } else {
        assert(after.drop_last() =~= groups.drop_last());
    }
}

proof fn lemma_total_len_empty<R>(groups: Seq<Seq<R>>)
    requires
        forall|q: int| 0 <= q < groups.len() ==> (#[trigger] groups[q]).len() == 0,
    ensures
        total_len(groups) == 0,
    decreases groups.len(),
{
    if groups.len() > 0 {
        assert forall|q: int| 0 <= q < groups.len() - 1 implies (
        #[trigger] groups.drop_last()[q]).len() == 0 by {
            assert(groups[q].len() == 0);
        }
        lemma_total_len_empty(groups.drop_last());
    }
}

/// The groups have as many elements together as there are results.
pub proof fn group_sizes_add_up<R>(results: Seq<(usize, R)>, num_queries: nat)
    requires
        forall|k: int| 0 <= k < results.len() ==> (#[trigger] results[k]).0 < num_queries,
    ensures
        total_len(Seq::new(num_queries, |q: int| of_query(results, q))) == results.len(),
    decreases results.len(),
{
    let groups = Seq::new(num_queries, |q: int| of_query(results, q));
    if results.len() == 0 {
        lemma_total_len_empty(groups);
    } else {
        let head = results.drop_last();
        let before = Seq::new(num_queries, |q: int| of_query(head, q));
        let (q, r) = results.last();
        assert(results[results.len() - 1].0 < num_queries);
        assert forall|k: int| 0 <= k < head.len() implies (#[trigger] head[k]).0 < num_queries by {
            assert(results[k].0 < num_queries);
        }
        group_sizes_add_up(head, num_queries);
        lemma_total_len_grows(before, q as int, r);
        assert(groups =~= before.update(q as int, before[q as int].push(r)));
    }
}

proof fn lemma_filter_keeps_all<R>(group: Seq<R>, keep: spec_fn(R) -> bool)
    requires
        forall|x: int| 0 <= x < group.len() ==> keep(#[trigger] group[x]),
    ensures
        group.filter(keep) == group,
    decreases group.len(),
{
    reveal(Seq::filter);
    if group.len() > 0 {
        let head = group.drop_last();
        assert forall|x: int| 0 <= x < head.len() implies keep(#[trigger] head[x]) by {
            assert(keep(group[x]));
        }
        lemma_filter_keeps_all(head, keep);
        assert(keep(group[group.len() - 1]));
        assert(head.push(group.last()) =~= group);
    }
}

/// Each query has a result, and every two results of different queries can be combined.
pub open spec fn all_combine<R>(linked: spec_fn(R, R) -> bool, groups: Seq<Seq<R>>) -> bool {
    &&& forall|q: int| 0 <= q < groups.len() ==> (#[trigger] groups[q]).len() > 0
    &&& forall|p: int, q: int, x: int, y: int|
        #![trigger groups[p][x], groups[q][y]]
        0 <= p < groups.len() && 0 <= q < groups.len() && p != q && 0 <= x < groups[p].len() && 0
            <= y < groups[q].len() ==> linked(groups[p][x], groups[q][y])
}

proof fn lemma_all_combine_pair<R>(
    linked: spec_fn(R, R) -> bool,
    groups: Seq<Seq<R>>,
    i: int,
    j: int,
)
    requires
        all_combine(linked, groups),
        0 <= i < j < groups.len(),
    ensures
        paired(linked, groups, i, j) == groups,
{
    assert(groups[i].len() > 0 && groups[j].len() > 0);
    let by_j = |r: R| supported(linked, r, groups[j]);
    assert forall|x: int| 0 <= x < groups[i].len() implies by_j(#[trigger] groups[i][x]) by {
        assert(linked(groups[i][x], groups[j][0]));
    }
    lemma_filter_keeps_all(groups[i], by_j);
    let by_i = |r: R| supported(linked, r, groups[i]);
    assert forall|y: int| 0 <= y < groups[j].len() implies by_i(#[trigger] groups[j][y]) by {
        assert(linked(groups[j][y], groups[i][0]));
    }
    lemma_filter_keeps_all(groups[j], by_i);
    assert(combinable(linked, groups[i], groups[j]) == groups[i]);
    assert(combinable(linked, groups[j], groups[i]) == groups[j]);
    assert(paired(linked, groups, i, j) =~= groups);
}

proof fn lemma_all_combine_row<R>(
    linked: spec_fn(R, R) -> bool,
    groups: Seq<Seq<R>>,
    i: int,
    j: int,
)
    requires
        all_combine(linked, groups),
        0 <= i < j,
    ensures
        paired_from(linked, groups, i, j) == groups,
    decreases groups.len() - j,
{
    if j < groups.len() {
        lemma_all_combine_pair(linked, groups, i, j);
        lemma_all_combine_row(linked, groups, i, j + 1);
    }
}

proof fn lemma_all_combine_from<R>(linked: spec_fn(R, R) -> bool, groups: Seq<Seq<R>>, i: int)
    requires
        all_combine(linked, groups),
        0 <= i,
    ensures
        chained_from(linked, groups, i) == groups,
    decreases groups.len() - i,
{
    if i < groups.len() {
        lemma_all_combine_row(linked, groups, i, i + 1);
        lemma_all_combine_from(linked, groups, i + 1);
    }
}

/// If each query has a result, and every two results of different queries can be combined, all
/// results are shown.
pub proof fn combinable_results_are_all_shown<R>(
    linked: spec_fn(R, R) -> bool,
    groups: Seq<Seq<R>>,
)
    requires
        forall|q: int| 0 <= q < groups.len() ==> (#[trigger] groups[q]).len() > 0,
        forall|p: int, q: int, x: int, y: int|
            #![trigger groups[p][x], groups[q][y]]
            0 <= p < groups.len() && 0 <= q < groups.len() && p != q && 0 <= x < groups[p].len()
                && 0 <= y < groups[q].len() ==> linked(groups[p][x], groups[q][y]),
    ensures
        chained(linked, groups) == groups,
{
    assert(all_combine(linked, groups));
    lemma_all_combine_from(linked, groups, 0);
}

/// Each result that is shown can be combined with a result of every other query.
pub proof fn shown_results_have_partners<R>(
    linked: spec_fn(R, R) -> bool,
    groups: Seq<Seq<R>>,
    p: int,
    q: int,
    x: int,
)
    requires
        0 <= p < groups.len(),
        0 <= q < groups.len(),
        p != q,
        0 <= x < chained(linked, groups)[p].len(),
    ensures
        exists|y: int|
            0 <= y < groups[q].len() && linked(
                chained(linked, groups)[p][x],
                #[trigger] groups[q][y],
            ),
{
    let shown = chained(linked, groups)[p];
    shown_results_combine(linked, groups, p, q);
    assert(supported(linked, shown[x], groups[q]));
}

/// `r` can be combined with a result of the group.
pub open spec fn has_partner<R>(linked: spec_fn(R, R) -> bool, r: R, group: Seq<R>) -> bool {
    exists|s: R| #[trigger] group.contains(s) && linked(r, s)
}

proof fn lemma_partner_supports<R>(linked: spec_fn(R, R) -> bool, r: R, group: Seq<R>)
    ensures
        has_partner(linked, r, group) == supported(linked, r, group),
{
    if has_partner(linked, r, group) {
        let s = choose|s: R| #[trigger] group.contains(s) && linked(r, s);
        let k = choose|k: int| 0 <= k < group.len() && group[k] == s;
        assert(linked(r, group[k]));
    }
    if supported(linked, r, group) {
        let k = choose|k: int| 0 <= k < group.len() && linked(r, #[trigger] group[k]);
        assert(group.contains(group[k]));
    }
}

/// `r` can be combined with a result of each of the groups from the second up to number `last`.
pub open spec fn has_partners<R>(
    linked: spec_fn(R, R) -> bool,
    r: R,
    groups: Seq<Seq<R>>,
    last: int,
) -> bool {
    forall|m: int| 1 <= m <= last ==> has_partner(linked, r, #[trigger] groups[m])
}

/// The elements of the first group that have partners up to group `last`.
pub open spec fn first_left<R>(
    linked: spec_fn(R, R) -> bool,
    groups: Seq<Seq<R>>,
    last: int,
) -> Seq<R> {
    groups[0].filter(|r: R| has_partners(linked, r, groups, last))
}

/// The elements of group `q` that can be combined with what is left of the first group when its
/// turn comes.
pub open spec fn other_left<R>(
    linked: spec_fn(R, R) -> bool,
    groups: Seq<Seq<R>>,
    q: int,
) -> Seq<R> {
    groups[q].filter(
        |s: R|
            exists|k: int|
                0 <= k < groups[0].len() && has_partners(linked, groups[0][k], groups, q) && linked(
                    s,
                    #[trigger] groups[0][k],
                ),
    )
}

proof fn lemma_filter_same<R>(group: Seq<R>, a: spec_fn(R) -> bool, b: spec_fn(R) -> bool)
    requires
        forall|r: R| #[trigger] a(r) == b(r),
    ensures
        group.filter(a) == group.filter(b),
    decreases group.len(),
{
    reveal(Seq::filter);
    if group.len() > 0 {
        lemma_filter_same(group.drop_last(), a, b);
        assert(a(group.last()) == b(group.last()));
    }
}

/// Pairing the first group with one more leaves what has partners up to there.
proof fn lemma_first_left<R>(linked: spec_fn(R, R) -> bool, groups: Seq<Seq<R>>, j: int)
    requires
        1 <= j < groups.len(),
    ensures
        combinable(linked, first_left(linked, groups, j - 1), groups[j]) == first_left(
            linked,
            groups,
            j,
        ),
        combinable(linked, groups[j], first_left(linked, groups, j)) == other_left(
            linked,
            groups,
            j,
        ),
{
    let before = |r: R| has_partners(linked, r, groups, j - 1);
    let here = |r: R| supported(linked, r, groups[j]);
    let both = |r: R| before(r) && here(r);
    let after = |r: R| has_partners(linked, r, groups, j);
    lemma_filter_twice(groups[0], before, here);
    assert forall|r: R| #[trigger] both(r) == after(r) by {
        lemma_partner_supports(linked, r, groups[j]);
        if both(r) {
            assert forall|m: int| 1 <= m <= j implies has_partner(linked, r, #[trigger] groups[m]) by {
                if m < j {
                    assert(before(r));
                }
            }
        }
        if after(r) {
            assert(has_partner(linked, r, groups[j]));
        }
    }
    lemma_filter_same(groups[0], both, after);
    assert(groups[0].filter(|r: R| before(r) && here(r)) == groups[0].filter(both)) by {
        lemma_filter_same(groups[0], |r: R| before(r) && here(r), both);
    }
    let left = first_left(linked, groups, j);
    let by_left = |s: R| supported(linked, s, left);
    let by_first = |s: R|
        exists|k: int|
            0 <= k < groups[0].len() && has_partners(linked, groups[0][k], groups, j) && linked(
                s,
                #[trigger] groups[0][k],
            );
    assert(left == groups[0].filter(after));
    lemma_filter_members(groups[0], after);
    assert forall|s: R| #[trigger] by_left(s) == by_first(s) by {
        if by_left(s) {
            let k = choose|k: int| 0 <= k < left.len() && linked(s, #[trigger] left[k]);
            let r = groups[0].filter(after)[k];
            assert(after(r) && groups[0].contains(r));
            let y = choose|y: int| 0 <= y < groups[0].len() && groups[0][y] == r;
            assert(has_partners(linked, groups[0][y], groups, j) && linked(s, groups[0][y]));
        }
        if by_first(s) {
            let k = choose|k: int|
                0 <= k < groups[0].len() && has_partners(linked, groups[0][k], groups, j) && linked(
                    s,
                    #[trigger] groups[0][k],
                );
            assert(after(groups[0][k]));
            assert(left.contains(groups[0][k]));
            let y = choose|y: int| 0 <= y < left.len() && left[y] == groups[0][k];
            assert(linked(s, left[y]));
        }
    }
    lemma_filter_same(groups[j], by_left, by_first);
}

/// All groups after the first was paired with those before number `j`.
spec fn first_row<R>(linked: spec_fn(R, R) -> bool, groups: Seq<Seq<R>>, j: int) -> Seq<Seq<R>> {
    Seq::new(
        groups.len(),
        |q: int|
            if q == 0 {
                first_left(linked, groups, j - 1)
            } else if q < j {
                other_left(linked, groups, q)
            } else {
                groups[q]
            },
    )
}

proof fn lemma_first_row<R>(linked: spec_fn(R, R) -> bool, groups: Seq<Seq<R>>, j: int)
    requires
        1 <= j <= groups.len(),
    ensures
        paired_from(linked, first_row(linked, groups, j), 0, j) == first_row(
            linked,
            groups,
            groups.len() as int,
        ),
    decreases groups.len() - j,
{
    if j < groups.len() {
        lemma_first_left(linked, groups, j);
        let row = first_row(linked, groups, j);
        assert(paired(linked, row, 0, j) =~= first_row(linked, groups, j + 1));
        lemma_first_row(linked, groups, j + 1);
    }
}

proof fn lemma_paired_shift<R>(
    linked: spec_fn(R, R) -> bool,
    first: Seq<R>,
    groups: Seq<Seq<R>>,
    i: int,
    j: int,
)
    requires
        0 <= i < j,
    ensures
        paired_from(linked, seq![first] + groups, i + 1, j + 1) == seq![first] + paired_from(
            linked,
            groups,
            i,
            j,
        ),
    decreases groups.len() - j,
{
    let all = seq![first] + groups;
    if j < groups.len() {
        let next = paired(linked, groups, i, j);
        assert(all[i + 1] == groups[i] && all[j + 1] == groups[j]);
        assert(paired(linked, all, i + 1, j + 1) =~= seq![first] + next);
        lemma_paired_shift(linked, first, next, i, j + 1);
    }
}

proof fn lemma_chained_shift<R>(
    linked: spec_fn(R, R) -> bool,
    first: Seq<R>,
    groups: Seq<Seq<R>>,
    i: int,
)
    requires
        0 <= i,
    ensures
        chained_from(linked, seq![first] + groups, i + 1) == seq![first] + chained_from(
            linked,
            groups,
            i,
        ),
    decreases groups.len() - i,
{
    if i < groups.len() {
        let next = paired_from(linked, groups, i, i + 1);
        pairing_keeps_group_count(linked, groups, i, i + 1);
        lemma_paired_shift(linked, first, groups, i, i + 1);
        lemma_chained_shift(linked, first, next, i + 1);
    }
}

/// What is shown, one query after the other. Of the first query, the results that can be combined
/// with a result of each other query. Of each other query, what is shown when the first is left
/// out, and from the beginning only those of its results count that can be combined with a result
/// of the first which has partners in all queries up to that one.
pub proof fn chaining_takes_one_query_after_the_other<R>(
    linked: spec_fn(R, R) -> bool,
    groups: Seq<Seq<R>>,
)
    ensures
        groups.len() <= 1 ==> chained(linked, groups) == groups,
        groups.len() > 0 ==> chained(linked, groups) == seq![
            groups[0].filter(|r: R| has_partners(linked, r, groups, groups.len() - 1)),
        ] + chained(
            linked,
            Seq::new((groups.len() - 1) as nat, |q: int| other_left(linked, groups, q + 1)),
        ),
{
    reveal_with_fuel(chained_from, 3);
    if groups.len() > 0 {
        let first = first_left(linked, groups, groups.len() - 1);
        let rest = Seq::new((groups.len() - 1) as nat, |q: int| other_left(linked, groups, q + 1));
        let start = first_row(linked, groups, 1);
        assert(first_left(linked, groups, 0) == groups[0]) by {
            lemma_filter_keeps_all(groups[0], |r: R| has_partners(linked, r, groups, 0));
        }
        assert(start =~= groups);
        lemma_first_row(linked, groups, 1);
        assert(first_row(linked, groups, groups.len() as int) =~= seq![first] + rest);
        lemma_chained_shift(linked, first, rest, 0);
        if groups.len() == 1 {
            assert(rest =~= seq![]);
            assert(seq![first] + rest =~= groups);
        }
    }
}

/// Two results are taken to combine exactly if that is the answer for them, asked in this order.
pub proof fn relation_is_the_answer<R, F: Fn(&R, &R) -> bool>(
    chainable: F,
    a: R,
    b: R,
    answer: bool,
)
    requires
        decides::<R, F>(chainable),
        chainable.ensures((&a, &b), answer),
    ensures
        relation::<R, F>(chainable)(a, b) == answer,
{
    if !answer {
        assert(!(chainable.ensures((&a, &b), true) && chainable.ensures((&a, &b), false)));
    }
}

/// The contents of a list of lists are those of its lists, one by one.
pub proof fn group_views_are_the_groups<R>(groups: Seq<Vec<R>>)
    ensures
        group_views(groups).len() == groups.len(),
        forall|q: int| 0 <= q < groups.len() ==> #[trigger] group_views(groups)[q] == groups[q]@,
{
}

proof fn lemma_group_members<R>(results: Seq<(usize, R)>, q: int, x: int) -> (k: int)
    requires
        0 <= x < of_query(results, q).len(),
    ensures
        0 <= k < results.len(),
        results[k].0 == q,
        results[k].1 == of_query(results, q)[x],
    decreases results.len(),
{
    let head = results.drop_last();
    if x < of_query(head, q).len() {
        lemma_group_members(head, q, x)
    } else {
        results.len() - 1
    }
}

/// If each query has a result, and every two results of different queries can be combined, each
/// result that comes in is shown.
pub proof fn every_combinable_result_is_shown<R>(
    linked: spec_fn(R, R) -> bool,
    results: Seq<(usize, R)>,
    num_queries: nat,
    witness: spec_fn(int) -> int,
    k: int,
)
    requires
        forall|i: int| 0 <= i < results.len() ==> (#[trigger] results[i]).0 < num_queries,
        forall|q: int|
            0 <= q < num_queries ==> 0 <= #[trigger] witness(q) < results.len()
                && results[witness(q)].0 == q,
        forall|i: int, j: int|
            0 <= i < results.len() && 0 <= j < results.len() && (#[trigger] results[i]).0 != (
            #[trigger] results[j]).0 ==> linked(results[i].1, results[j].1),
        0 <= k < results.len(),
    ensures
        chained(
            linked,
            Seq::new(num_queries, |q: int| of_query(results, q)),
        )[results[k].0 as int].contains(results[k].1),
{
    let groups = Seq::new(num_queries, |q: int| of_query(results, q));
    assert forall|q: int| 0 <= q < groups.len() implies (#[trigger] groups[q]).len() > 0 by {
        grouping_loses_nothing(results, witness(q));
    }
    assert forall|p: int, q: int, x: int, y: int|
        #![trigger groups[p][x], groups[q][y]]
        0 <= p < groups.len() && 0 <= q < groups.len() && p != q && 0 <= x < groups[p].len() && 0
            <= y < groups[q].len() implies linked(groups[p][x], groups[q][y]) by {
        let i = lemma_group_members(results, p, x);
        let j = lemma_group_members(results, q, y);
        assert(results[i].0 != results[j].0);
    }
    combinable_results_are_all_shown(linked, groups);
    assert(results[k].0 < num_queries);
    grouping_loses_nothing(results, k);
}

} // verus!
