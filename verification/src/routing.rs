//! Maps read off a pipeline's operator configurations, used to route the
//! changes of related tables to the operators that depend on them.
use vstd::prelude::*;

use crate::operators::{ExistsBranch, OperatorConfig};
use crate::ast_to_config::copy_sort;
use crate::text::copy_strings;

verus! {

// --- Grouping values by key ---

pub open spec fn groups_view<V: View>(m: Seq<(String, Vec<V>)>) -> Seq<(Seq<char>, Seq<V::V>)> {
    m.map_values(|e: (String, Vec<V>)| (e.0@, e.1@.map_values(|x: V| x@)))
}

/// The groups with `v` appended to the first group keyed `k`, or a new
/// group `[v]` for `k` at the end.
pub open spec fn group_add<A>(g: Seq<(Seq<char>, Seq<A>)>, k: Seq<char>, v: A) -> Seq<(Seq<char>, Seq<A>)>
    decreases g.len(),
{
    if g.len() == 0 {
        seq![(k, seq![v])]
    } else if g[0].0 == k {
        seq![(k, g[0].1.push(v))] + g.drop_first()
    } else {
        seq![g[0]] + group_add(g.drop_first(), k, v)
    }
}

/// The groups with each (key, value) pair added in turn.
pub open spec fn group_all<A>(g: Seq<(Seq<char>, Seq<A>)>, pairs: Seq<(Seq<char>, A)>) -> Seq<
    (Seq<char>, Seq<A>),
>
    decreases pairs.len(),
{
    if pairs.len() == 0 {
        g
    } else {
        group_add(group_all(g, pairs.drop_last()), pairs.last().0, pairs.last().1)
    }
}

pub proof fn lemma_group_all_concat<A>(
    g: Seq<(Seq<char>, Seq<A>)>,
    a: Seq<(Seq<char>, A)>,
    b: Seq<(Seq<char>, A)>,
)
    ensures
        group_all(g, a + b) == group_all(group_all(g, a), b),
    decreases b.len(),
{
    if b.len() == 0 {
        assert(a + b =~= a);
    } else {
        lemma_group_all_concat(g, a, b.drop_last());
        assert((a + b).drop_last() =~= a + b.drop_last());
        assert((a + b).last() == b.last());
    }
}

proof fn lemma_group_add_at<A>(g: Seq<(Seq<char>, Seq<A>)>, i: int, k: Seq<char>, v: A)
    requires
        0 <= i < g.len(),
        g[i].0 == k,
        forall|j: int| 0 <= j < i ==> g[j].0 != k,
    ensures
        group_add(g, k, v) == g.update(i, (k, g[i].1.push(v))),
    decreases i,
{
    if i == 0 {
        assert(group_add(g, k, v) =~= g.update(i, (k, g[i].1.push(v))));
    } else {
        lemma_group_add_at(g.drop_first(), i - 1, k, v);
        assert(group_add(g, k, v) =~= g.update(i, (k, g[i].1.push(v))));
    }
}

proof fn lemma_group_add_absent<A>(g: Seq<(Seq<char>, Seq<A>)>, k: Seq<char>, v: A)
    requires
        forall|j: int| 0 <= j < g.len() ==> g[j].0 != k,
    ensures
        group_add(g, k, v) == g.push((k, seq![v])),
    decreases g.len(),
{
    if g.len() == 0 {
        assert(group_add(g, k, v) =~= g.push((k, seq![v])));
    } else {
        lemma_group_add_absent(g.drop_first(), k, v);
        assert(group_add(g, k, v) =~= g.push((k, seq![v])));
    }
}

/// The values of the first group keyed `k`, none when there is no such group.
pub open spec fn group_of<A>(g: Seq<(Seq<char>, Seq<A>)>, k: Seq<char>) -> Seq<A>
    decreases g.len(),
{
    if g.len() == 0 {
        Seq::empty()
    } else if g[0].0 == k {
        g[0].1
    } else {
        group_of(g.drop_first(), k)
    }
}

/// The values paired with `k`, in order.
pub open spec fn values_for<A>(pairs: Seq<(Seq<char>, A)>, k: Seq<char>) -> Seq<A>
    decreases pairs.len(),
{
    if pairs.len() == 0 {
        Seq::empty()
    } else {
        values_for(pairs.drop_last(), k) + if pairs.last().0 == k {
            seq![pairs.last().1]
        } else {
            Seq::empty()
        }
    }
}

/// No key has two groups.
pub open spec fn unique_keys<A>(g: Seq<(Seq<char>, Seq<A>)>) -> bool {
    forall|i: int, j: int| 0 <= i < j < g.len() ==> (#[trigger] g[i]).0 != (#[trigger] g[j]).0
}

proof fn lemma_group_add_lookup<A>(g: Seq<(Seq<char>, Seq<A>)>, k: Seq<char>, v: A, q: Seq<char>)
    requires
        unique_keys(g),
    ensures
        unique_keys(group_add(g, k, v)),
        group_of(group_add(g, k, v), q) == if k == q {
            group_of(g, q).push(v)
        } else {
            group_of(g, q)
        },
        forall|i: int|
            0 <= i < group_add(g, k, v).len() ==> (#[trigger] group_add(g, k, v)[i]).0 == k || exists|j: int|
                0 <= j < g.len() && (#[trigger] g[j]).0 == group_add(g, k, v)[i].0,
    decreases g.len(),
{
    let out = group_add(g, k, v);
    if g.len() == 0 {
        assert(seq![v] =~= Seq::<A>::empty().push(v));
        assert(group_of(out.drop_first(), q) == Seq::<A>::empty());
    } else if g[0].0 == k {
        assert forall|i: int, j: int| 0 <= i < j < out.len() implies (#[trigger] out[i]).0 != (#[trigger] out[j]).0 by {
            assert(out[j] == g[j]);
            if i > 0 {
                assert(out[i] == g[i]);
            }
        }
        assert(out.drop_first() =~= g.drop_first());
        assert forall|i: int| 0 <= i < out.len() implies (#[trigger] out[i]).0 == k || exists|j: int|
            0 <= j < g.len() && (#[trigger] g[j]).0 == out[i].0 by {
            if i > 0 {
                assert(g[i] == out[i]);
            }
        }
    } else {
        let rest = g.drop_first();
        assert(unique_keys(rest)) by {
            assert forall|i: int, j: int| 0 <= i < j < rest.len() implies (#[trigger] rest[i]).0 != (#[trigger] rest[j]).0 by {
                assert(rest[i] == g[i + 1] && rest[j] == g[j + 1]);
            }
        }
        lemma_group_add_lookup(rest, k, v, q);
        let tail = group_add(rest, k, v);
        assert(out == seq![g[0]] + tail);
        assert(out.drop_first() =~= tail);
        assert(out[0] == g[0]);
        assert forall|i: int| 0 <= i < out.len() implies (#[trigger] out[i]).0 == k || exists|j: int|
            0 <= j < g.len() && (#[trigger] g[j]).0 == out[i].0 by {
            let x = out[i].0;
            if i > 0 {
                assert(tail[i - 1] == out[i]);
                if x != k {
                    let j = choose|j: int| 0 <= j < rest.len() && (#[trigger] rest[j]).0 == tail[i - 1].0;
                    assert(g[j + 1] == rest[j]);
                }
            } else {
                assert(g[0] == out[0]);
            }
        }
        assert forall|i: int, j: int| 0 <= i < j < out.len() implies (#[trigger] out[i]).0 != (#[trigger] out[j]).0 by {
            if i > 0 {
                assert(out[i] == tail[i - 1] && out[j] == tail[j - 1]);
            } else {
                let x = out[j].0;
                assert(tail[j - 1] == out[j]);
                if x == g[0].0 {
                    assert(x != k);
                    let jj = choose|jj: int| 0 <= jj < rest.len() && (#[trigger] rest[jj]).0 == tail[j - 1].0;
                    assert(g[jj + 1] == rest[jj]);
                }
            }
        }
    }
}

/// Grouping works as a map from key to list: each key keeps one group, and
/// a key's group holds the values it held, then the values added under it
/// in the order they were added.
pub proof fn lemma_group_all_lookup<A>(g: Seq<(Seq<char>, Seq<A>)>, pairs: Seq<(Seq<char>, A)>, k: Seq<char>)
    requires
        unique_keys(g),
    ensures
        unique_keys(group_all(g, pairs)),
        group_of(group_all(g, pairs), k) == group_of(g, k) + values_for(pairs, k),
    decreases pairs.len(),
{
    if pairs.len() == 0 {
        assert(group_of(g, k) + values_for(pairs, k) =~= group_of(g, k));
    } else {
        let prev = pairs.drop_last();
        lemma_group_all_lookup(g, prev, k);
        lemma_group_add_lookup(group_all(g, prev), pairs.last().0, pairs.last().1, k);
        assert(group_of(g, k) + values_for(pairs, k) =~= (group_of(g, k) + values_for(prev, k)) + (
        if pairs.last().0 == k {
            seq![pairs.last().1]
        } else {
            Seq::empty()
        }));
    }
}

/// Appends `v` to the group keyed `k` (`entry(k).or_default().push(v)`).
pub fn group_push<V: View>(m: &mut Vec<(String, Vec<V>)>, k: &str, v: V)
    ensures
        groups_view(final(m)@) == group_add(groups_view(old(m)@), k@, v@),
{
    let ghost g = groups_view(m@);
    let mut i: usize = 0;
    while i < m.len()
        invariant
            i <= m@.len(),
            m@ == old(m)@,
            g == groups_view(m@),
            forall|j: int| 0 <= j < i ==> g[j].0 != k@,
        decreases m@.len() - i,
    {
        if crate::json::str_eq(m[i].0.as_str(), k) {
            proof {
                lemma_group_add_at(g, i as int, k@, v@);
            }
            let ghost vv = v@;
            let mut entry = m.remove(i);
            let ghost ev = entry.1@;
            entry.1.push(v);
            assert(entry.1@.map_values(|x: V| x@) =~= ev.map_values(|x: V| x@).push(vv));
            m.insert(i, entry);
            assert(groups_view(m@) =~= g.update(i as int, (k@, g[i as int].1.push(vv))));
            return ;
        }
        i = i + 1;
    }
    proof {
        lemma_group_add_absent(g, k@, v@);
    }
    let ghost vv = v@;
    let mut vs: Vec<V> = Vec::new();
    vs.push(v);
    assert(vs@.map_values(|x: V| x@) =~= seq![vv]);
    m.push((String::from_str(k), vs));
    assert(groups_view(m@) =~= g.push((k@, seq![vv])));
}

// --- Child table map ---

/// How a related table hangs off its parent: the parent's table, the join
/// keys, the relationship and the related table's primary key.
pub struct ChildTableInfo {
    pub parent_table: String,
    pub parent_key: Vec<String>,
    pub child_key: Vec<String>,
    pub relationship_name: String,
    pub child_pk: Vec<String>,
}

pub struct ChildTableInfoView {
    pub parent_table: Seq<char>,
    pub parent_key: Seq<String>,
    pub child_key: Seq<String>,
    pub relationship_name: Seq<char>,
    pub child_pk: Seq<String>,
}

impl View for ChildTableInfo {
    type V = ChildTableInfoView;

    open spec fn view(&self) -> ChildTableInfoView {
        ChildTableInfoView {
            parent_table: self.parent_table@,
            parent_key: self.parent_key@,
            child_key: self.child_key@,
            relationship_name: self.relationship_name@,
            child_pk: self.child_pk@,
        }
    }
}

/// The table and primary key of a pipeline's leading `Source`, if any.
pub open spec fn lead_source(cs: Seq<OperatorConfig>) -> Option<(Seq<char>, Seq<String>)> {
    if cs.len() > 0 {
        match cs[0] {
            OperatorConfig::Source { table_name, primary_key, .. } => Some(
                (table_name@, primary_key@),
            ),
            _ => None,
        }
    } else {
        None
    }
}

/// The entry a sub-pipeline gives the child table map: keyed by the table
/// of its leading `Source`, none without one.
pub open spec fn info_entry(
    child: Seq<OperatorConfig>,
    parent: Seq<char>,
    parent_key: Seq<String>,
    child_key: Seq<String>,
    rel: Seq<char>,
) -> Seq<(Seq<char>, ChildTableInfoView)> {
    match lead_source(child) {
        Some((t, pk)) => seq![
            (
                t,
                ChildTableInfoView {
                    parent_table: parent,
                    parent_key,
                    child_key,
                    relationship_name: rel,
                    child_pk: pk,
                },
            ),
        ],
        None => Seq::empty(),
    }
}

/// The child table entries of a pipeline from position `i` on, under the
/// parent table `parent` (empty until a `Source` names one): a `Source`
/// restarts the scan after the pipeline's first configuration under its
/// own table; a `Join` or `Exists` gives an entry for its sub-pipeline, then
/// the entries inside it under the same parent; an `OrExists` does so for
/// each branch.
pub open spec fn ctm_scan(cs: Seq<OperatorConfig>, i: int, parent: Seq<char>) -> Seq<
    (Seq<char>, ChildTableInfoView),
>
    decreases cs, cs.len() - i,
{
    if i < 0 || i >= cs.len() {
        Seq::empty()
    } else {
        match cs[i] {
            OperatorConfig::Source { table_name, .. } => ctm_scan(cs.drop_first(), 0, table_name@),
            OperatorConfig::Join { parent_key, child_key, relationship_name, child } => info_entry(
                child@,
                parent,
                parent_key@,
                child_key@,
                relationship_name@,
            ) + ctm_scan(child@, 0, parent) + ctm_scan(cs, i + 1, parent),
            OperatorConfig::Exists { parent_key, child_key, relationship_name, child, .. } => info_entry(
                child@,
                parent,
                parent_key@,
                child_key@,
                relationship_name@,
            ) + ctm_scan(child@, 0, parent) + ctm_scan(cs, i + 1, parent),
            OperatorConfig::OrExists { branches, .. } => ctm_branches(branches@, parent) + ctm_scan(
                cs,
                i + 1,
                parent,
            ),
            _ => ctm_scan(cs, i + 1, parent),
        }
    }
}

pub open spec fn ctm_branches(bs: Seq<ExistsBranch>, parent: Seq<char>) -> Seq<
    (Seq<char>, ChildTableInfoView),
>
    decreases bs, 0int,
{
    if bs.len() == 0 {
        Seq::empty()
    } else {
        let b = bs.last();
        ctm_branches(bs.drop_last(), parent) + info_entry(
            b.child@,
            parent,
            b.parent_key@,
            b.child_key@,
            b.relationship_name@,
        ) + ctm_scan(b.child@, 0, parent)
    }
}

fn push_info(
    map: &mut Vec<(String, Vec<ChildTableInfo>)>,
    child: &Vec<OperatorConfig>,
    parent: &str,
    parent_key: &Vec<String>,
    child_key: &Vec<String>,
    rel: &String,
)
    ensures
        groups_view(final(map)@) == group_all(
            groups_view(old(map)@),
            info_entry(child@, parent@, parent_key@, child_key@, rel@),
        ),
{
    let ghost e = info_entry(child@, parent@, parent_key@, child_key@, rel@);
    let ghost g0 = groups_view(map@);
    if child.len() > 0 {
        match &child[0] {
            OperatorConfig::Source { table_name, primary_key, .. } => {
                let info = ChildTableInfo {
                    parent_table: String::from_str(parent),
                    parent_key: copy_strings(parent_key),
                    child_key: copy_strings(child_key),
                    relationship_name: rel.clone(),
                    child_pk: copy_strings(primary_key),
                };
                let ghost iv = info@;
                group_push(map, table_name.as_str(), info);
                assert(lead_source(child@) == Some((table_name@, primary_key@)));
                assert(e == seq![(table_name@, iv)]);
                assert(e.drop_last() =~= Seq::<(Seq<char>, ChildTableInfoView)>::empty());
                assert(group_all(g0, e.drop_last()) == g0);
                assert(e.last() == (table_name@, iv));
                assert(group_all(g0, e) == group_add(g0, table_name@, iv));
            },
            _ => {
                assert(e =~= Seq::<(Seq<char>, ChildTableInfoView)>::empty());
                assert(group_all(g0, e) == g0);
            },
        }
    } else {
        assert(e =~= Seq::<(Seq<char>, ChildTableInfoView)>::empty());
        assert(group_all(g0, e) == g0);
    }
}

fn ctm_scan_exec(
    cs: &[OperatorConfig],
    i: usize,
    parent: &str,
    map: &mut Vec<(String, Vec<ChildTableInfo>)>,
)
    requires
        i <= cs@.len(),
    ensures
        groups_view(final(map)@) == group_all(groups_view(old(map)@), ctm_scan(cs@, i as int, parent@)),
    decreases cs@, cs@.len() - i,
{
    if i >= cs.len() {
        return ;
    }
    let ghost g0 = groups_view(map@);
    proof {
        assert(decreases_to!(cs@ => cs@[i as int]));
    }
    match &cs[i] {
        OperatorConfig::Source { table_name, .. } => {
            let (_, rest) = cs.split_at(1);
            assert(rest@ =~= cs@.drop_first());
            proof {
                assert(decreases_to!(cs@ => cs@.subrange(1, cs@.len() as int)));
            }
            ctm_scan_exec(rest, 0, table_name.as_str(), map);
        },
        OperatorConfig::Join { parent_key, child_key, relationship_name, child } => {
            proof {
                assert(decreases_to!(cs@[i as int] => cs@[i as int]->Join_child));
                assert(decreases_to!(cs@[i as int]->Join_child => cs@[i as int]->Join_child@));
            }
            push_info(map, child, parent, parent_key, child_key, relationship_name);
            let ghost g1 = groups_view(map@);
            ctm_scan_exec(child.as_slice(), 0, parent, map);
            let ghost g2 = groups_view(map@);
            ctm_scan_exec(cs, i + 1, parent, map);
            proof {
                let e = info_entry(child@, parent@, parent_key@, child_key@, relationship_name@);
                let a = ctm_scan(child@, 0, parent@);
                let b = ctm_scan(cs@, i + 1, parent@);
                lemma_group_all_concat(g0, e, a);
                lemma_group_all_concat(g0, e + a, b);
            }
        },
        OperatorConfig::Exists { parent_key, child_key, relationship_name, child, .. } => {
            proof {
                assert(decreases_to!(cs@[i as int] => cs@[i as int]->Exists_child));
                assert(decreases_to!(cs@[i as int]->Exists_child => cs@[i as int]->Exists_child@));
            }
            push_info(map, child, parent, parent_key, child_key, relationship_name);
            ctm_scan_exec(child.as_slice(), 0, parent, map);
            ctm_scan_exec(cs, i + 1, parent, map);
            proof {
                let e = info_entry(child@, parent@, parent_key@, child_key@, relationship_name@);
                let a = ctm_scan(child@, 0, parent@);
                let b = ctm_scan(cs@, i + 1, parent@);
                lemma_group_all_concat(g0, e, a);
                lemma_group_all_concat(g0, e + a, b);
            }
        },
        OperatorConfig::OrExists { branches, .. } => {
            proof {
                assert(decreases_to!(cs@[i as int] => cs@[i as int]->OrExists_branches));
                assert(decreases_to!(cs@[i as int]->OrExists_branches => cs@[i as int]->OrExists_branches@));
            }
            ctm_branches_exec(branches, parent, map);
            ctm_scan_exec(cs, i + 1, parent, map);
            proof {
                lemma_group_all_concat(g0, ctm_branches(branches@, parent@), ctm_scan(cs@, i + 1, parent@));
            }
        },
        _ => {
            ctm_scan_exec(cs, i + 1, parent, map);
        },
    }
}

fn ctm_branches_exec(bs: &Vec<ExistsBranch>, parent: &str, map: &mut Vec<(String, Vec<ChildTableInfo>)>)
    ensures
        groups_view(final(map)@) == group_all(groups_view(old(map)@), ctm_branches(bs@, parent@)),
    decreases bs@, 0int,
{
    let mut k: usize = 0;
    assert(bs@.take(0) =~= Seq::<ExistsBranch>::empty());
    while k < bs.len()
        invariant
            k <= bs@.len(),
            groups_view(map@) == group_all(groups_view(old(map)@), ctm_branches(bs@.take(k as int), parent@)),
        decreases bs@.len() - k,
    {
        proof {
            assert(decreases_to!(bs@ => bs@[k as int]));
            assert(decreases_to!(bs@[k as int] => bs@[k as int].child));
            assert(decreases_to!(bs@[k as int].child => bs@[k as int].child@));
        }
        let b = &bs[k];
        assert(bs@.take(k + 1).drop_last() =~= bs@.take(k as int));
        assert(bs@.take(k + 1).last() == bs@[k as int]);
        let ghost g0 = groups_view(map@);
        push_info(map, &b.child, parent, &b.parent_key, &b.child_key, &b.relationship_name);
        ctm_scan_exec(b.child.as_slice(), 0, parent, map);
        proof {
            let e = info_entry(b.child@, parent@, b.parent_key@, b.child_key@, b.relationship_name@);
            let a = ctm_scan(b.child@, 0, parent@);
            lemma_group_all_concat(g0, e, a);
            lemma_group_all_concat(groups_view(old(map)@), ctm_branches(bs@.take(k as int), parent@), e + a);
            assert(ctm_branches(bs@.take(k + 1), parent@) =~= ctm_branches(bs@.take(k as int), parent@) + (e + a));
        }
        k = k + 1;
    }
    assert(bs@.take(bs@.len() as int) =~= bs@);
}

/// The related tables of a pipeline by table name, each with how it hangs
/// off its parent, in the order the pipeline holds them.
pub fn collect_child_table_map(configs: &[OperatorConfig]) -> (r: Vec<(String, Vec<ChildTableInfo>)>)
    ensures
        groups_view(r@) == group_all(Seq::empty(), ctm_scan(configs@, 0, Seq::empty())),
{
    let mut map: Vec<(String, Vec<ChildTableInfo>)> = Vec::new();
    assert(groups_view(map@) =~= Seq::<(Seq<char>, Seq<ChildTableInfoView>)>::empty());
    proof {
        reveal_strlit("");
    }
    collect_child_table_map_recursive(configs, None, &mut map);
    map
}

/// Adds the related tables of a pipeline under `current_parent_table`.
pub fn collect_child_table_map_recursive(
    configs: &[OperatorConfig],
    current_parent_table: Option<&str>,
    map: &mut Vec<(String, Vec<ChildTableInfo>)>,
)
    ensures
        groups_view(final(map)@) == group_all(
            groups_view(old(map)@),
            ctm_scan(
                configs@,
                0,
                match current_parent_table {
                    Some(p) => p@,
                    None => Seq::empty(),
                },
            ),
        ),
{
    let parent: &str = match current_parent_table {
        Some(p) => p,
        None => "",
    };
    proof {
        reveal_strlit("");
    }
    assert(current_parent_table is None ==> parent@ =~= Seq::<char>::empty());
    ctm_scan_exec(configs, 0, parent, map);
}


// --- Relationship name to table ---

pub open spec fn str_pairs_view(m: Seq<(String, String)>) -> Seq<(Seq<char>, Seq<char>)> {
    m.map_values(|e: (String, String)| (e.0@, e.1@))
}

/// The pairs with `k` set to `v`: in place where `k` is first keyed, else
/// appended.
pub open spec fn kv_put(g: Seq<(Seq<char>, Seq<char>)>, k: Seq<char>, v: Seq<char>) -> Seq<
    (Seq<char>, Seq<char>),
>
    decreases g.len(),
{
    if g.len() == 0 {
        seq![(k, v)]
    } else if g[0].0 == k {
        seq![(k, v)] + g.drop_first()
    } else {
        seq![g[0]] + kv_put(g.drop_first(), k, v)
    }
}

pub open spec fn kv_put_all(g: Seq<(Seq<char>, Seq<char>)>, pairs: Seq<(Seq<char>, Seq<char>)>) -> Seq<
    (Seq<char>, Seq<char>),
>
    decreases pairs.len(),
{
    if pairs.len() == 0 {
        g
    } else {
        kv_put(kv_put_all(g, pairs.drop_last()), pairs.last().0, pairs.last().1)
    }
}

pub proof fn lemma_kv_put_all_concat(
    g: Seq<(Seq<char>, Seq<char>)>,
    a: Seq<(Seq<char>, Seq<char>)>,
    b: Seq<(Seq<char>, Seq<char>)>,
)
    ensures
        kv_put_all(g, a + b) == kv_put_all(kv_put_all(g, a), b),
    decreases b.len(),
{
    if b.len() == 0 {
        assert(a + b =~= a);
    } else {
        lemma_kv_put_all_concat(g, a, b.drop_last());
        assert((a + b).drop_last() =~= a + b.drop_last());
        assert((a + b).last() == b.last());
    }
}

proof fn lemma_kv_put_at(g: Seq<(Seq<char>, Seq<char>)>, i: int, k: Seq<char>, v: Seq<char>)
    requires
        0 <= i < g.len(),
        g[i].0 == k,
        forall|j: int| 0 <= j < i ==> g[j].0 != k,
    ensures
        kv_put(g, k, v) == g.update(i, (k, v)),
    decreases i,
{
    if i == 0 {
        assert(kv_put(g, k, v) =~= g.update(i, (k, v)));
    } else {
        lemma_kv_put_at(g.drop_first(), i - 1, k, v);
        assert(kv_put(g, k, v) =~= g.update(i, (k, v)));
    }
}

proof fn lemma_kv_put_absent(g: Seq<(Seq<char>, Seq<char>)>, k: Seq<char>, v: Seq<char>)
    requires
        forall|j: int| 0 <= j < g.len() ==> g[j].0 != k,
    ensures
        kv_put(g, k, v) == g.push((k, v)),
    decreases g.len(),
{
    if g.len() == 0 {
        assert(kv_put(g, k, v) =~= g.push((k, v)));
    } else {
        lemma_kv_put_absent(g.drop_first(), k, v);
        assert(kv_put(g, k, v) =~= g.push((k, v)));
    }
}

/// Sets `k` to `v` (`HashMap::insert`).
pub fn kv_insert(m: &mut Vec<(String, String)>, k: &String, v: &String)
    ensures
        str_pairs_view(final(m)@) == kv_put(str_pairs_view(old(m)@), k@, v@),
{
    let ghost g = str_pairs_view(m@);
    let mut i: usize = 0;
    while i < m.len()
        invariant
            i <= m@.len(),
            m@ == old(m)@,
            g == str_pairs_view(m@),
            forall|j: int| 0 <= j < i ==> g[j].0 != k@,
        decreases m@.len() - i,
    {
        if crate::json::str_eq(m[i].0.as_str(), k.as_str()) {
            proof {
                lemma_kv_put_at(g, i as int, k@, v@);
            }
            m.set(i, (k.clone(), v.clone()));
            assert(str_pairs_view(m@) =~= g.update(i as int, (k@, v@)));
            return ;
        }
        i = i + 1;
    }
    proof {
        lemma_kv_put_absent(g, k@, v@);
    }
    m.push((k.clone(), v.clone()));
    assert(str_pairs_view(m@) =~= g.push((k@, v@)));
}

/// The pair a sub-pipeline gives: the relationship and the table of the
/// sub-pipeline's leading `Source`, none without one.
pub open spec fn rel_entry(rel: Seq<char>, child: Seq<OperatorConfig>) -> Seq<(Seq<char>, Seq<char>)> {
    match lead_source(child) {
        Some((t, _)) => seq![(rel, t)],
        None => Seq::empty(),
    }
}

/// The (relationship, table) pairs of a pipeline from position `i` on,
/// depth first: each `Join` and `Exists` (and each branch of an
/// `OrExists`) gives its pair and then those inside it; the sub-pipelines
/// of a `FanOut` give theirs.
pub open spec fn rtt_scan(cs: Seq<OperatorConfig>, i: int) -> Seq<(Seq<char>, Seq<char>)>
    decreases cs, cs.len() - i,
{
    if i < 0 || i >= cs.len() {
        Seq::empty()
    } else {
        match cs[i] {
            OperatorConfig::Join { relationship_name, child, .. } => rel_entry(relationship_name@, child@)
                + rtt_scan(child@, 0) + rtt_scan(cs, i + 1),
            OperatorConfig::Exists { relationship_name, child, .. } => rel_entry(
                relationship_name@,
                child@,
            ) + rtt_scan(child@, 0) + rtt_scan(cs, i + 1),
            OperatorConfig::OrExists { branches, .. } => rtt_branches(branches@) + rtt_scan(cs, i + 1),
            OperatorConfig::FanOut { sub_pipelines } => rtt_subs(sub_pipelines@) + rtt_scan(cs, i + 1),
            _ => rtt_scan(cs, i + 1),
        }
    }
}

pub open spec fn rtt_branches(bs: Seq<ExistsBranch>) -> Seq<(Seq<char>, Seq<char>)>
    decreases bs, 0int,
{
    if bs.len() == 0 {
        Seq::empty()
    } else {
        rtt_branches(bs.drop_last()) + rel_entry(bs.last().relationship_name@, bs.last().child@)
            + rtt_scan(bs.last().child@, 0)
    }
}

pub open spec fn rtt_subs(ps: Seq<Vec<OperatorConfig>>) -> Seq<(Seq<char>, Seq<char>)>
    decreases ps, 0int,
{
    if ps.len() == 0 {
        Seq::empty()
    } else {
        rtt_subs(ps.drop_last()) + rtt_scan(ps.last()@, 0)
    }
}

fn put_rel(map: &mut Vec<(String, String)>, rel: &String, child: &Vec<OperatorConfig>)
    ensures
        str_pairs_view(final(map)@) == kv_put_all(str_pairs_view(old(map)@), rel_entry(rel@, child@)),
{
    let ghost e = rel_entry(rel@, child@);
    let ghost g0 = str_pairs_view(map@);
    if child.len() > 0 {
        match &child[0] {
            OperatorConfig::Source { table_name, .. } => {
                kv_insert(map, rel, table_name);
                assert(e == seq![(rel@, table_name@)]);
                assert(e.drop_last() =~= Seq::<(Seq<char>, Seq<char>)>::empty());
                assert(kv_put_all(g0, e.drop_last()) == g0);
            },
            _ => {
                assert(e =~= Seq::<(Seq<char>, Seq<char>)>::empty());
                assert(kv_put_all(g0, e) == g0);
            },
        }
    } else {
        assert(e =~= Seq::<(Seq<char>, Seq<char>)>::empty());
        assert(kv_put_all(g0, e) == g0);
    }
}

fn rtt_scan_exec(cs: &[OperatorConfig], i: usize, map: &mut Vec<(String, String)>)
    requires
        i <= cs@.len(),
    ensures
        str_pairs_view(final(map)@) == kv_put_all(str_pairs_view(old(map)@), rtt_scan(cs@, i as int)),
    decreases cs@, cs@.len() - i,
{
    if i >= cs.len() {
        return ;
    }
    let ghost g0 = str_pairs_view(map@);
    proof {
        assert(decreases_to!(cs@ => cs@[i as int]));
    }
    match &cs[i] {
        OperatorConfig::Join { relationship_name, child, .. } => {
            proof {
                assert(decreases_to!(cs@[i as int] => cs@[i as int]->Join_child));
                assert(decreases_to!(cs@[i as int]->Join_child => cs@[i as int]->Join_child@));
            }
            put_rel(map, relationship_name, child);
            rtt_scan_exec(child.as_slice(), 0, map);
            rtt_scan_exec(cs, i + 1, map);
            proof {
                let e = rel_entry(relationship_name@, child@);
                let a = rtt_scan(child@, 0);
                lemma_kv_put_all_concat(g0, e, a);
                lemma_kv_put_all_concat(g0, e + a, rtt_scan(cs@, i + 1));
            }
        },
        OperatorConfig::Exists { relationship_name, child, .. } => {
            proof {
                assert(decreases_to!(cs@[i as int] => cs@[i as int]->Exists_child));
                assert(decreases_to!(cs@[i as int]->Exists_child => cs@[i as int]->Exists_child@));
            }
            put_rel(map, relationship_name, child);
            rtt_scan_exec(child.as_slice(), 0, map);
            rtt_scan_exec(cs, i + 1, map);
            proof {
                let e = rel_entry(relationship_name@, child@);
                let a = rtt_scan(child@, 0);
                lemma_kv_put_all_concat(g0, e, a);
                lemma_kv_put_all_concat(g0, e + a, rtt_scan(cs@, i + 1));
            }
        },
        OperatorConfig::OrExists { branches, .. } => {
            proof {
                assert(decreases_to!(cs@[i as int] => cs@[i as int]->OrExists_branches));
                assert(decreases_to!(cs@[i as int]->OrExists_branches => cs@[i as int]->OrExists_branches@));
            }
            rtt_branches_exec(branches, map);
            rtt_scan_exec(cs, i + 1, map);
            proof {
                lemma_kv_put_all_concat(g0, rtt_branches(branches@), rtt_scan(cs@, i + 1));
            }
        },
        OperatorConfig::FanOut { sub_pipelines } => {
            proof {
                assert(decreases_to!(cs@[i as int] => cs@[i as int]->FanOut_sub_pipelines));
                assert(decreases_to!(cs@[i as int]->FanOut_sub_pipelines => cs@[i as int]->FanOut_sub_pipelines@));
            }
            rtt_subs_exec(sub_pipelines, map);
            rtt_scan_exec(cs, i + 1, map);
            proof {
                lemma_kv_put_all_concat(g0, rtt_subs(sub_pipelines@), rtt_scan(cs@, i + 1));
            }
        },
        _ => {
            rtt_scan_exec(cs, i + 1, map);
        },
    }
}

fn rtt_branches_exec(bs: &Vec<ExistsBranch>, map: &mut Vec<(String, String)>)
    ensures
        str_pairs_view(final(map)@) == kv_put_all(str_pairs_view(old(map)@), rtt_branches(bs@)),
    decreases bs@, 0int,
{
    let mut k: usize = 0;
    assert(bs@.take(0) =~= Seq::<ExistsBranch>::empty());
    while k < bs.len()
        invariant
            k <= bs@.len(),
            str_pairs_view(map@) == kv_put_all(str_pairs_view(old(map)@), rtt_branches(bs@.take(k as int))),
        decreases bs@.len() - k,
    {
        proof {
            assert(decreases_to!(bs@ => bs@[k as int]));
            assert(decreases_to!(bs@[k as int] => bs@[k as int].child));
            assert(decreases_to!(bs@[k as int].child => bs@[k as int].child@));
        }
        let b = &bs[k];
        assert(bs@.take(k + 1).drop_last() =~= bs@.take(k as int));
        assert(bs@.take(k + 1).last() == bs@[k as int]);
        let ghost g0 = str_pairs_view(map@);
        put_rel(map, &b.relationship_name, &b.child);
        rtt_scan_exec(b.child.as_slice(), 0, map);
        proof {
            let e = rel_entry(b.relationship_name@, b.child@);
            let a = rtt_scan(b.child@, 0);
            lemma_kv_put_all_concat(g0, e, a);
            lemma_kv_put_all_concat(str_pairs_view(old(map)@), rtt_branches(bs@.take(k as int)), e + a);
            assert(rtt_branches(bs@.take(k + 1)) =~= rtt_branches(bs@.take(k as int)) + (e + a));
        }
        k = k + 1;
    }
    assert(bs@.take(bs@.len() as int) =~= bs@);
}

fn rtt_subs_exec(ps: &Vec<Vec<OperatorConfig>>, map: &mut Vec<(String, String)>)
    ensures
        str_pairs_view(final(map)@) == kv_put_all(str_pairs_view(old(map)@), rtt_subs(ps@)),
    decreases ps@, 0int,
{
    let mut k: usize = 0;
    assert(ps@.take(0) =~= Seq::<Vec<OperatorConfig>>::empty());
    while k < ps.len()
        invariant
            k <= ps@.len(),
            str_pairs_view(map@) == kv_put_all(str_pairs_view(old(map)@), rtt_subs(ps@.take(k as int))),
        decreases ps@.len() - k,
    {
        proof {
            assert(decreases_to!(ps@ => ps@[k as int]));
            assert(decreases_to!(ps@[k as int] => ps@[k as int]@));
        }
        assert(ps@.take(k + 1).drop_last() =~= ps@.take(k as int));
        assert(ps@.take(k + 1).last() == ps@[k as int]);
        rtt_scan_exec(ps[k].as_slice(), 0, map);
        proof {
            lemma_kv_put_all_concat(str_pairs_view(old(map)@), rtt_subs(ps@.take(k as int)), rtt_scan(ps@[k as int]@, 0));
        }
        k = k + 1;
    }
    assert(ps@.take(ps@.len() as int) =~= ps@);
}

/// Relationship name to the table it reads, from every sub-pipeline of a
/// pipeline (a later relationship of the same name wins).
pub fn collect_rel_to_table_from_configs(configs: &[OperatorConfig]) -> (r: Vec<(String, String)>)
    ensures
        str_pairs_view(r@) == kv_put_all(Seq::empty(), rtt_scan(configs@, 0)),
{
    let mut map: Vec<(String, String)> = Vec::new();
    assert(str_pairs_view(map@) =~= Seq::<(Seq<char>, Seq<char>)>::empty());
    collect_rel_to_table_recursive(configs, &mut map);
    map
}

/// Adds the (relationship, table) pairs of a pipeline.
pub fn collect_rel_to_table_recursive(configs: &[OperatorConfig], map: &mut Vec<(String, String)>)
    ensures
        str_pairs_view(final(map)@) == kv_put_all(str_pairs_view(old(map)@), rtt_scan(configs@, 0)),
{
    rtt_scan_exec(configs, 0, map);
}


// --- Children by parent table ---

/// A related table as seen from its parent: the join columns on both sides,
/// its primary key, the relationship, and the order and limit it is read
/// with.
pub struct ChildRelation {
    pub child_table: String,
    pub parent_join_col: Vec<String>,
    pub child_join_col: Vec<String>,
    pub child_pk: Vec<String>,
    pub relationship_name: String,
    pub child_order: Vec<(String, String)>,
    pub child_limit: Option<usize>,
}

pub struct ChildRelationView {
    pub child_table: Seq<char>,
    pub parent_join_col: Seq<String>,
    pub child_join_col: Seq<String>,
    pub child_pk: Seq<String>,
    pub relationship_name: Seq<char>,
    pub child_order: Seq<(String, String)>,
    pub child_limit: Option<usize>,
}

impl View for ChildRelation {
    type V = ChildRelationView;

    open spec fn view(&self) -> ChildRelationView {
        ChildRelationView {
            child_table: self.child_table@,
            parent_join_col: self.parent_join_col@,
            child_join_col: self.child_join_col@,
            child_pk: self.child_pk@,
            relationship_name: self.relationship_name@,
            child_order: self.child_order@,
            child_limit: self.child_limit,
        }
    }
}

/// The limit and order a sub-pipeline reads with: the last `Take` gives the
/// limit, and its sort (when not empty) the order, which is otherwise
/// `order`.
pub open spec fn take_info(cs: Seq<OperatorConfig>, order: Seq<(String, String)>) -> (
    Option<usize>,
    Seq<(String, String)>,
)
    decreases cs.len(),
{
    if cs.len() == 0 {
        (None, order)
    } else {
        let prev = take_info(cs.drop_last(), order);
        match cs.last() {
            OperatorConfig::Take { limit, sort, .. } => (
                Some(limit),
                if sort@.len() > 0 {
                    sort@
                } else {
                    prev.1
                },
            ),
            _ => prev,
        }
    }
}

/// The entry a `Join` gives the children map: under the parent table, when
/// there is one and the sub-pipeline starts with a `Source`.
pub open spec fn relation_entry(
    current: Option<Seq<char>>,
    child: Seq<OperatorConfig>,
    parent_key: Seq<String>,
    child_key: Seq<String>,
    rel: Seq<char>,
) -> Seq<(Seq<char>, ChildRelationView)> {
    match current {
        Some(p) => if child.len() > 0 {
            match child[0] {
                OperatorConfig::Source { table_name, primary_key, sort, .. } => {
                    let ti = take_info(child, sort@);
                    seq![
                        (
                            p,
                            ChildRelationView {
                                child_table: table_name@,
                                parent_join_col: parent_key,
                                child_join_col: child_key,
                                child_pk: primary_key@,
                                relationship_name: rel,
                                child_order: ti.1,
                                child_limit: ti.0,
                            },
                        ),
                    ]
                },
                _ => Seq::empty(),
            }
        } else {
            Seq::empty()
        },
        None => Seq::empty(),
    }
}

/// The (parent table, child relation) entries of a pipeline from position
/// `i` on: a `Source` restarts the scan after the pipeline's first
/// configuration under its table; a `Join` gives its entry, then those of
/// its sub-pipeline, which has no parent table until its own `Source`.
pub open spec fn cof_scan(cs: Seq<OperatorConfig>, i: int, current: Option<Seq<char>>) -> Seq<
    (Seq<char>, ChildRelationView),
>
    decreases cs, cs.len() - i,
{
    if i < 0 || i >= cs.len() {
        Seq::empty()
    } else {
        match cs[i] {
            OperatorConfig::Source { table_name, .. } => cof_scan(cs.drop_first(), 0, Some(table_name@)),
            OperatorConfig::Join { parent_key, child_key, relationship_name, child } => relation_entry(
                current,
                child@,
                parent_key@,
                child_key@,
                relationship_name@,
            ) + cof_scan(child@, 0, None) + cof_scan(cs, i + 1, current),
            _ => cof_scan(cs, i + 1, current),
        }
    }
}

fn take_info_exec(cs: &Vec<OperatorConfig>, order: &Vec<(String, String)>) -> (r: (
    Option<usize>,
    Vec<(String, String)>,
))
    ensures
        (r.0, r.1@) == take_info(cs@, order@),
{
    let mut limit: Option<usize> = None;
    let mut ord = copy_sort(order);
    let mut i: usize = 0;
    assert(cs@.take(0) =~= Seq::<OperatorConfig>::empty());
    while i < cs.len()
        invariant
            i <= cs@.len(),
            (limit, ord@) == take_info(cs@.take(i as int), order@),
        decreases cs@.len() - i,
    {
        assert(cs@.take(i + 1).drop_last() =~= cs@.take(i as int));
        assert(cs@.take(i + 1).last() == cs@[i as int]);
        match &cs[i] {
            OperatorConfig::Take { limit: l, sort, .. } => {
                limit = Some(*l);
                if sort.len() > 0 {
                    ord = copy_sort(sort);
                }
            },
            _ => {},
        }
        i = i + 1;
    }
    assert(cs@.take(cs@.len() as int) =~= cs@);
    (limit, ord)
}

fn push_relation(
    map: &mut Vec<(String, Vec<ChildRelation>)>,
    current: Option<&str>,
    child: &Vec<OperatorConfig>,
    parent_key: &Vec<String>,
    child_key: &Vec<String>,
    rel: &String,
)
    ensures
        groups_view(final(map)@) == group_all(
            groups_view(old(map)@),
            relation_entry(
                match current {
                    Some(p) => Some(p@),
                    None => None,
                },
                child@,
                parent_key@,
                child_key@,
                rel@,
            ),
        ),
{
    let ghost cur = match current {
        Some(p) => Some(p@),
        None => None::<Seq<char>>,
    };
    let ghost e = relation_entry(cur, child@, parent_key@, child_key@, rel@);
    let ghost g0 = groups_view(map@);
    match current {
        Some(parent) => {
            if child.len() > 0 {
                match &child[0] {
                    OperatorConfig::Source { table_name, primary_key, sort, .. } => {
                        let (child_limit, child_order) = take_info_exec(child, sort);
                        let cr = ChildRelation {
                            child_table: table_name.clone(),
                            parent_join_col: copy_strings(parent_key),
                            child_join_col: copy_strings(child_key),
                            child_pk: copy_strings(primary_key),
                            relationship_name: rel.clone(),
                            child_order,
                            child_limit,
                        };
                        let ghost cv = cr@;
                        group_push(map, parent, cr);
                        assert(e == seq![(parent@, cv)]);
                        assert(e.drop_last() =~= Seq::<(Seq<char>, ChildRelationView)>::empty());
                        assert(group_all(g0, e.drop_last()) == g0);
                        return ;
                    },
                    _ => {},
                }
            }
        },
        None => {},
    }
    assert(e =~= Seq::<(Seq<char>, ChildRelationView)>::empty());
    assert(group_all(g0, e) == g0);
}

fn cof_scan_exec(
    cs: &[OperatorConfig],
    i: usize,
    current: Option<&str>,
    map: &mut Vec<(String, Vec<ChildRelation>)>,
)
    requires
        i <= cs@.len(),
    ensures
        groups_view(final(map)@) == group_all(
            groups_view(old(map)@),
            cof_scan(
                cs@,
                i as int,
                match current {
                    Some(p) => Some(p@),
                    None => None,
                },
            ),
        ),
    decreases cs@, cs@.len() - i,
{
    if i >= cs.len() {
        return ;
    }
    let ghost cur = match current {
        Some(p) => Some(p@),
        None => None::<Seq<char>>,
    };
    let ghost g0 = groups_view(map@);
    proof {
        assert(decreases_to!(cs@ => cs@[i as int]));
    }
    match &cs[i] {
        OperatorConfig::Source { table_name, .. } => {
            let (_, rest) = cs.split_at(1);
            assert(rest@ =~= cs@.drop_first());
            proof {
                assert(decreases_to!(cs@ => cs@.subrange(1, cs@.len() as int)));
            }
            cof_scan_exec(rest, 0, Some(table_name.as_str()), map);
        },
        OperatorConfig::Join { parent_key, child_key, relationship_name, child } => {
            proof {
                assert(decreases_to!(cs@[i as int] => cs@[i as int]->Join_child));
                assert(decreases_to!(cs@[i as int]->Join_child => cs@[i as int]->Join_child@));
            }
            push_relation(map, current, child, parent_key, child_key, relationship_name);
            cof_scan_exec(child.as_slice(), 0, None, map);
            cof_scan_exec(cs, i + 1, current, map);
            proof {
                let e = relation_entry(cur, child@, parent_key@, child_key@, relationship_name@);
                let a = cof_scan(child@, 0, None);
                lemma_group_all_concat(g0, e, a);
                lemma_group_all_concat(g0, e + a, cof_scan(cs@, i + 1, cur));
            }
        },
        _ => {
            cof_scan_exec(cs, i + 1, current, map);
        },
    }
}

/// Parent table to the relations of its related tables, from every `Join`
/// of a pipeline, in order.
pub fn collect_children_of_map(configs: &[OperatorConfig]) -> (r: Vec<(String, Vec<ChildRelation>)>)
    ensures
        groups_view(r@) == group_all(Seq::empty(), cof_scan(configs@, 0, None)),
{
    let mut map: Vec<(String, Vec<ChildRelation>)> = Vec::new();
    assert(groups_view(map@) =~= Seq::<(Seq<char>, Seq<ChildRelationView>)>::empty());
    collect_children_of_recursive(configs, None, &mut map);
    map
}

/// Adds the relations of a pipeline under `current_table`.
pub fn collect_children_of_recursive(
    configs: &[OperatorConfig],
    current_table: Option<&str>,
    map: &mut Vec<(String, Vec<ChildRelation>)>,
)
    ensures
        groups_view(final(map)@) == group_all(
            groups_view(old(map)@),
            cof_scan(
                configs@,
                0,
                match current_table {
                    Some(p) => Some(p@),
                    None => None,
                },
            ),
        ),
{
    cof_scan_exec(configs, 0, current_table, map);
}

// --- Child table to operator position ---

/// The entry a sub-pipeline at operator position `i` gives: keyed by the
/// table of its leading `Source`, with `i` and that table's primary key.
pub open spec fn op_entry(i: usize, child: Seq<OperatorConfig>) -> Seq<(Seq<char>, (usize, Seq<String>))> {
    match lead_source(child) {
        Some((t, pk)) => seq![(t, (i, pk))],
        None => Seq::empty(),
    }
}

pub open spec fn op_branch_entries(i: usize, bs: Seq<ExistsBranch>) -> Seq<(Seq<char>, (usize, Seq<String>))>
    decreases bs.len(),
{
    if bs.len() == 0 {
        Seq::empty()
    } else {
        op_branch_entries(i, bs.drop_last()) + op_entry(i, bs.last().child@)
    }
}

/// The entries of the operators after a pipeline's `Source` (operator `i`
/// is the configuration at `i + 1`): an `Exists`, or each branch of an
/// `OrExists`, gives the table of its sub-pipeline.
pub open spec fn op_entries(rest: Seq<OperatorConfig>) -> Seq<(Seq<char>, (usize, Seq<String>))>
    decreases rest.len(),
{
    if rest.len() == 0 {
        Seq::empty()
    } else {
        let i = (rest.len() - 1) as usize;
        op_entries(rest.drop_last()) + match rest.last() {
            OperatorConfig::Exists { child, .. } => op_entry(i, child@),
            OperatorConfig::OrExists { branches, .. } => op_branch_entries(i, branches@),
            _ => Seq::empty(),
        }
    }
}

/// The entries of a pipeline: none unless it starts with a `Source`.
pub open spec fn op_index_entries(cs: Seq<OperatorConfig>) -> Seq<(Seq<char>, (usize, Seq<String>))> {
    if cs.len() > 0 && cs[0] is Source {
        op_entries(cs.drop_first())
    } else {
        Seq::empty()
    }
}

fn push_op(map: &mut Vec<(String, Vec<(usize, Vec<String>)>)>, i: usize, child: &Vec<OperatorConfig>)
    ensures
        groups_view(final(map)@) == group_all(groups_view(old(map)@), op_entry(i, child@)),
{
    let ghost e = op_entry(i, child@);
    let ghost g0 = groups_view(map@);
    if child.len() > 0 {
        match &child[0] {
            OperatorConfig::Source { table_name, primary_key, .. } => {
                let v = (i, copy_strings(primary_key));
                let ghost vv = v@;
                group_push(map, table_name.as_str(), v);
                assert(e == seq![(table_name@, vv)]);
                assert(e.drop_last() =~= Seq::<(Seq<char>, (usize, Seq<String>))>::empty());
                assert(group_all(g0, e.drop_last()) == g0);
                return ;
            },
            _ => {},
        }
    }
    assert(e =~= Seq::<(Seq<char>, (usize, Seq<String>))>::empty());
    assert(group_all(g0, e) == g0);
}

/// Child table to the operators (position after the `Source`, with the
/// child table's primary key) that exist checks route its changes to.
pub fn build_child_table_to_op_index(configs: &[OperatorConfig]) -> (r: Vec<(String, Vec<(usize, Vec<String>)>)>)
    ensures
        groups_view(r@) == group_all(Seq::empty(), op_index_entries(configs@)),
{
    let mut map: Vec<(String, Vec<(usize, Vec<String>)>)> = Vec::new();
    assert(groups_view(map@) =~= Seq::<(Seq<char>, Seq<(usize, Seq<String>)>)>::empty());
    if configs.len() == 0 {
        return map;
    }
    match &configs[0] {
        OperatorConfig::Source { .. } => {},
        _ => {
            return map;
        },
    }
    let (_, rest) = configs.split_at(1);
    assert(rest@ =~= configs@.drop_first());
    let mut i: usize = 0;
    assert(rest@.take(0) =~= Seq::<OperatorConfig>::empty());
    while i < rest.len()
        invariant
            i <= rest@.len(),
            groups_view(map@) == group_all(Seq::empty(), op_entries(rest@.take(i as int))),
        decreases rest@.len() - i,
    {
        assert(rest@.take(i + 1).drop_last() =~= rest@.take(i as int));
        assert(rest@.take(i + 1).last() == rest@[i as int]);
        let ghost g0 = groups_view(map@);
        match &rest[i] {
            OperatorConfig::Exists { child, .. } => {
                push_op(&mut map, i, child);
                proof {
                    lemma_group_all_concat(Seq::empty(), op_entries(rest@.take(i as int)), op_entry(i, child@));
                }
            },
            OperatorConfig::OrExists { branches, .. } => {
                let mut k: usize = 0;
                assert(branches@.take(0) =~= Seq::<ExistsBranch>::empty());
                while k < branches.len()
                    invariant
                        k <= branches@.len(),
                        groups_view(map@) == group_all(g0, op_branch_entries(i, branches@.take(k as int))),
                    decreases branches@.len() - k,
                {
                    assert(branches@.take(k + 1).drop_last() =~= branches@.take(k as int));
                    assert(branches@.take(k + 1).last() == branches@[k as int]);
                    let ghost g1 = groups_view(map@);
                    push_op(&mut map, i, &branches[k].child);
                    proof {
                        lemma_group_all_concat(g0, op_branch_entries(i, branches@.take(k as int)), op_entry(i, branches@[k as int].child@));
                    }
                    k = k + 1;
                }
                assert(branches@.take(branches@.len() as int) =~= branches@);
                proof {
                    lemma_group_all_concat(Seq::empty(), op_entries(rest@.take(i as int)), op_branch_entries(i, branches@));
                }
            },
            _ => {
                assert(op_entries(rest@.take(i as int)) + Seq::<(Seq<char>, (usize, Seq<String>))>::empty() =~= op_entries(rest@.take(i as int)));
            },
        }
        i = i + 1;
    }
    assert(rest@.take(rest@.len() as int) =~= rest@);
    map
}

} // verus!
