//! Bringing the schemas of several environments together, table by table.
use vstd::prelude::*;

use crate::dto::TableColumn;
use crate::str_map::{keys_of, lemma_map_of_prefix, map_of, sorted_keys, StrMap};

verus! {

/// A map of maps, each inner map taken by its view.
pub open spec fn nested<W>(m: StrMap<StrMap<W>>) -> Map<Seq<char>, Map<Seq<char>, W>> {
    Map::new(|k: Seq<char>| m@.contains_key(k), |k: Seq<char>| m@[k]@)
}

/// The inner map under `k`, or an empty one.
pub open spec fn inner_or_empty<W>(outer: Map<Seq<char>, Map<Seq<char>, W>>, k: Seq<char>) -> Map<
    Seq<char>,
    W,
> {
    if outer.contains_key(k) {
        outer[k]
    } else {
        Map::empty()
    }
}

/// `outer` with what one environment `env` has filed in: each key of `part` gets, in its
/// inner map (a new one where there was none), `env` mapped to the key's value in `part`.
pub open spec fn file_under<W>(
    outer: Map<Seq<char>, Map<Seq<char>, W>>,
    env: Seq<char>,
    part: Map<Seq<char>, W>,
) -> Map<Seq<char>, Map<Seq<char>, W>> {
    Map::new(
        |k: Seq<char>| outer.contains_key(k) || part.contains_key(k),
        |k: Seq<char>|
            if part.contains_key(k) {
                inner_or_empty(outer, k).insert(env, part[k])
            } else {
                outer[k]
            },
    )
}

/// What the environments' parts, filed in one after the other, add up to.
pub open spec fn merge_envs<W>(parts: Seq<(Seq<char>, Map<Seq<char>, W>)>) -> Map<
    Seq<char>,
    Map<Seq<char>, W>,
>
    decreases parts.len(),
{
    if parts.len() == 0 {
        Map::empty()
    } else {
        file_under(merge_envs(parts.drop_last()), parts.last().0, parts.last().1)
    }
}

/// No two parts come from environments of the same name.
pub open spec fn distinct_envs<W>(parts: Seq<(Seq<char>, Map<Seq<char>, W>)>) -> bool {
    forall|i: int, j: int| 0 <= i < j < parts.len() ==> #[trigger] parts[i].0 != #[trigger] parts[j].0
}

/// Merging files every key of every part under its environment and files nothing else:
/// where the environments' names are distinct, the merge holds, for each key and each
/// environment, exactly that environment's value for the key.
pub proof fn lemma_merge_envs_transposes<W>(parts: Seq<(Seq<char>, Map<Seq<char>, W>)>)
    requires
        distinct_envs(parts),
    ensures
        forall|k: Seq<char>|
            #[trigger] merge_envs(parts).contains_key(k) <==> exists|i: int|
                0 <= i < parts.len() && #[trigger] parts[i].1.contains_key(k),
        forall|k: Seq<char>, e: Seq<char>|
            #![trigger merge_envs(parts)[k].contains_key(e)]
            merge_envs(parts).contains_key(k) && merge_envs(parts)[k].contains_key(e)
                <==> exists|i: int|
                0 <= i < parts.len() && parts[i].0 == e && #[trigger] parts[i].1.contains_key(k),
        forall|i: int, k: Seq<char>|
            0 <= i < parts.len() && #[trigger] parts[i].1.contains_key(k) ==> {
                &&& merge_envs(parts).contains_key(k)
                &&& merge_envs(parts)[k].contains_key(parts[i].0)
                &&& merge_envs(parts)[k][parts[i].0] == parts[i].1[k]
            },
    decreases parts.len(),
{
    if parts.len() > 0 {
        let init = parts.drop_last();
        let n = parts.len() - 1;
        let (e_n, p_n) = parts[n];
        let m = merge_envs(init);
        let r = merge_envs(parts);
        assert(r == file_under(m, e_n, p_n));
        assert(distinct_envs(init)) by {
            assert forall|i: int, j: int| 0 <= i < j < init.len() implies #[trigger] init[i].0
                != #[trigger] init[j].0 by {
                assert(init[i] == parts[i] && init[j] == parts[j]);
            }
        }
        lemma_merge_envs_transposes(init);
        assert forall|k: Seq<char>| #[trigger] r.contains_key(k) <==> exists|i: int|
            0 <= i < parts.len() && #[trigger] parts[i].1.contains_key(k) by {
            if m.contains_key(k) {
                let i = choose|i: int| 0 <= i < init.len() && #[trigger] init[i].1.contains_key(k);
                assert(parts[i] == init[i]);
            }
            if exists|i: int| 0 <= i < parts.len() && #[trigger] parts[i].1.contains_key(k) {
                let i = choose|i: int| 0 <= i < parts.len() && #[trigger] parts[i].1.contains_key(k);
                if i < n {
                    assert(init[i] == parts[i]);
                }
            }
        }
        assert forall|k: Seq<char>, e: Seq<char>|
            #![trigger r[k].contains_key(e)]
            r.contains_key(k) && r[k].contains_key(e) <==> exists|i: int|
                0 <= i < parts.len() && parts[i].0 == e && #[trigger] parts[i].1.contains_key(k) by {
            if m.contains_key(k) && m[k].contains_key(e) {
                let i = choose|i: int|
                    0 <= i < init.len() && init[i].0 == e && #[trigger] init[i].1.contains_key(k);
                assert(parts[i] == init[i]);
            }
            if exists|i: int|
                0 <= i < parts.len() && parts[i].0 == e && #[trigger] parts[i].1.contains_key(k) {
                let i = choose|i: int|
                    0 <= i < parts.len() && parts[i].0 == e && #[trigger] parts[i].1.contains_key(k);
                if i < n {
                    assert(init[i] == parts[i]);
                    assert(m[k].contains_key(e));
                }
            }
        }
        assert forall|i: int, k: Seq<char>|
            0 <= i < parts.len() && #[trigger] parts[i].1.contains_key(k) implies {
                &&& r.contains_key(k)
                &&& r[k].contains_key(parts[i].0)
                &&& r[k][parts[i].0] == parts[i].1[k]
            } by {
            if i < n {
                assert(init[i] == parts[i]);
                assert(parts[i].0 != e_n);
                assert(m[k][parts[i].0] == parts[i].1[k]);
            }
        }
    }
}

/// Parts of the same shape (the same environments, each with the same keys) merge into
/// maps of the same shape.
pub proof fn lemma_merge_envs_same_shape<A, B>(
    pa: Seq<(Seq<char>, Map<Seq<char>, A>)>,
    pb: Seq<(Seq<char>, Map<Seq<char>, B>)>,
)
    requires
        pa.len() == pb.len(),
        forall|i: int| 0 <= i < pa.len() ==> #[trigger] pa[i].0 == pb[i].0 && pa[i].1.dom() == pb[i].1.dom(),
    ensures
        merge_envs(pa).dom() == merge_envs(pb).dom(),
        forall|k: Seq<char>|
            #[trigger] merge_envs(pa).contains_key(k) ==> merge_envs(pa)[k].dom() == merge_envs(pb)[k].dom(),
    decreases pa.len(),
{
    if pa.len() > 0 {
        let ia = pa.drop_last();
        let ib = pb.drop_last();
        assert forall|i: int| 0 <= i < ia.len() implies #[trigger] ia[i].0 == ib[i].0 && ia[i].1.dom()
            == ib[i].1.dom() by {
            assert(ia[i] == pa[i] && ib[i] == pb[i]);
        }
        lemma_merge_envs_same_shape(ia, ib);
        let n = pa.len() - 1;
        let ma = merge_envs(pa);
        let mb = merge_envs(pb);
        assert(pa[n].1.dom() == pb[n].1.dom());
        assert forall|k: Seq<char>| ma.contains_key(k) == mb.contains_key(k) by {
            assert(pa[n].1.contains_key(k) == pb[n].1.contains_key(k));
            assert(merge_envs(ia).contains_key(k) == merge_envs(ib).contains_key(k));
        }
        assert(ma.dom() =~= mb.dom());
        assert forall|k: Seq<char>| #[trigger] ma.contains_key(k) implies ma[k].dom() == mb[k].dom() by {
            assert(pa[n].1.contains_key(k) == pb[n].1.contains_key(k));
            if pa[n].1.contains_key(k) {
                assert(ma[k].dom() =~= mb[k].dom());
            }
        }
    }
}

/// Files the entries of `part` under `env`: each key of `part` gets, in its inner map of
/// `target`, `env` mapped to its value.
pub fn file_under_env<W>(target: &mut StrMap<StrMap<W>>, env: &String, part: StrMap<W>)
    ensures
        nested(*final(target)) == file_under(nested(*old(target)), env@, part@),
{
    let ghost start = nested(*target);
    let pairs = part.into_pairs();
    let ghost ps = pairs@;
    proof {
        assert(map_of(ps.take(0)) =~= Map::<Seq<char>, W>::empty());
        assert(file_under(start, env@, Map::<Seq<char>, W>::empty()) =~= start);
    }
    for pair in it: pairs.into_iter()
        invariant
            it.seq() == ps,
            sorted_keys(keys_of(ps)),
            nested(*target) == file_under(start, env@, map_of(ps.take(it.index()))),
    {
        let ghost i = it.index();
        let ghost done = map_of(ps.take(i));
        proof {
            lemma_map_of_prefix(ps, i);
        }
        let (key, value) = pair;
        let ghost before = *target;
        let mut inner = match target.remove(key.as_str()) {
            Some(m) => m,
            None => StrMap::new(),
        };
        let ghost prior = inner@;
        inner.insert(env.clone(), value);
        let ghost key_view = key@;
        let ghost filled = inner;
        target.insert(key, inner);
        proof {
            let next = map_of(ps.take(i + 1));
            assert(next == done.insert(key_view, ps[i].1));
            assert(target@ == before@.remove(key_view).insert(key_view, filled));
            assert(prior == inner_or_empty(nested(before), key_view));
            assert(nested(before) == file_under(start, env@, done));
            assert(!done.contains_key(key_view));
            assert(inner_or_empty(nested(before), key_view) == inner_or_empty(start, key_view));
            let goal = file_under(start, env@, next);
            assert forall|k: Seq<char>| #[trigger] nested(*target).contains_key(k) == goal.contains_key(k) by {
                if k != key_view {
                    assert(nested(*target).contains_key(k) == nested(before).contains_key(k));
                }
            }
            assert forall|k: Seq<char>| #[trigger] nested(*target).contains_key(k) implies nested(*target)[k] == goal[k] by {
                if k != key_view {
                    assert(nested(*target)[k] == nested(before)[k]);
                }
            }
            assert(nested(*target) =~= goal);
        }
    }
    proof {
        assert(ps.take(ps.len() as int) =~= ps);
    }
}

/// The columns and indexes of one table, environment by environment.
pub struct TableSchema {
    /// Column name, then environment, to the column as that environment describes it.
    pub columns: StrMap<StrMap<TableColumn>>,
    /// Index name, then environment, to the index definition in that environment.
    pub indexes: StrMap<StrMap<String>>,
}

impl TableSchema {
    /// A schema without columns or indexes.
    pub fn new() -> (r: Self)
        ensures
            r.columns@ == Map::<Seq<char>, StrMap<TableColumn>>::empty(),
            r.indexes@ == Map::<Seq<char>, StrMap<String>>::empty(),
    {
        Self { columns: StrMap::new(), indexes: StrMap::new() }
    }

    /// Files the columns and indexes that the environment `env` has for the table.
    pub fn add_env(&mut self, env: &String, columns: StrMap<TableColumn>, indexes: StrMap<String>)
        ensures
            nested(final(self).columns) == file_under(nested(old(self).columns), env@, columns@),
            nested(final(self).indexes) == file_under(nested(old(self).indexes), env@, indexes@),
    {
        file_under_env(&mut self.columns, env, columns);
        file_under_env(&mut self.indexes, env, indexes);
    }
}

/// What one environment has of one table: its name, its columns and its indexes.
pub type EnvSchema = (String, StrMap<TableColumn>, StrMap<String>);

/// The columns of the environments' parts, each under the environment's name.
pub open spec fn column_parts(parts: Seq<EnvSchema>) -> Seq<(Seq<char>, Map<Seq<char>, TableColumn>)> {
    parts.map_values(|p: EnvSchema| (p.0@, p.1@))
}

/// The indexes of the environments' parts, each under the environment's name.
pub open spec fn index_parts(parts: Seq<EnvSchema>) -> Seq<(Seq<char>, Map<Seq<char>, String>)> {
    parts.map_values(|p: EnvSchema| (p.0@, p.2@))
}

/// The schema of a table across environments, from what each environment has of it, in
/// the order of the environments.
pub fn table_schema_from(parts: Vec<EnvSchema>) -> (r: TableSchema)
    ensures
        nested(r.columns) == merge_envs(column_parts(parts@)),
        nested(r.indexes) == merge_envs(index_parts(parts@)),
{
    let ghost ps = parts@;
    let mut result = TableSchema::new();
    proof {
        assert(nested(result.columns) =~= merge_envs(column_parts(ps.take(0))));
        assert(nested(result.indexes) =~= merge_envs(index_parts(ps.take(0))));
    }
    for part in it: parts.into_iter()
        invariant
            it.seq() == ps,
            nested(result.columns) == merge_envs(column_parts(ps.take(it.index()))),
            nested(result.indexes) == merge_envs(index_parts(ps.take(it.index()))),
    {
        let ghost i = it.index();
        proof {
            assert(column_parts(ps.take(i + 1)).drop_last() =~= column_parts(ps.take(i)));
            assert(index_parts(ps.take(i + 1)).drop_last() =~= index_parts(ps.take(i)));
        }
        let (env, columns, indexes) = part;
        result.add_env(&env, columns, indexes);
    }
    proof {
        assert(ps.take(ps.len() as int) =~= ps);
    }
    result
}

/// The columns and indexes of one table, environment by environment, as the overview of
/// all tables holds them.
pub struct TableInfo {
    /// Environment to the table's columns there, by column name.
    pub columns: StrMap<StrMap<TableColumn>>,
    /// Environment to the table's index definitions there, by index name.
    pub indexes: StrMap<StrMap<String>>,
}

impl TableInfo {
    /// A table known in no environment yet.
    pub fn new() -> (r: Self)
        ensures
            r.columns@ == Map::<Seq<char>, StrMap<TableColumn>>::empty(),
            r.indexes@ == Map::<Seq<char>, StrMap<String>>::empty(),
    {
        Self { columns: StrMap::new(), indexes: StrMap::new() }
    }
}

/// What one environment has of one table: its columns by name and its index definitions
/// by name.
pub type EnvTable = (StrMap<TableColumn>, StrMap<String>);

/// For each table of the overview, environment to the table's columns there.
pub open spec fn info_columns(m: StrMap<TableInfo>) -> Map<
    Seq<char>,
    Map<Seq<char>, StrMap<TableColumn>>,
> {
    Map::new(|t: Seq<char>| m@.contains_key(t), |t: Seq<char>| m@[t].columns@)
}

/// For each table of the overview, environment to the table's index definitions there.
pub open spec fn info_indexes(m: StrMap<TableInfo>) -> Map<
    Seq<char>,
    Map<Seq<char>, StrMap<String>>,
> {
    Map::new(|t: Seq<char>| m@.contains_key(t), |t: Seq<char>| m@[t].indexes@)
}

/// The columns part of an environment's tables.
pub open spec fn tables_columns(tables: Map<Seq<char>, EnvTable>) -> Map<
    Seq<char>,
    StrMap<TableColumn>,
> {
    tables.map_values(|p: EnvTable| p.0)
}

/// The indexes part of an environment's tables.
pub open spec fn tables_indexes(tables: Map<Seq<char>, EnvTable>) -> Map<Seq<char>, StrMap<String>> {
    tables.map_values(|p: EnvTable| p.1)
}

/// Files the tables of the environment `env` into the overview: each table gets, under
/// `env`, its columns and its indexes there.
pub fn add_env_tables(result: &mut StrMap<TableInfo>, env: &String, tables: StrMap<EnvTable>)
    ensures
        info_columns(*final(result)) == file_under(
            info_columns(*old(result)),
            env@,
            tables_columns(tables@),
        ),
        info_indexes(*final(result)) == file_under(
            info_indexes(*old(result)),
            env@,
            tables_indexes(tables@),
        ),
{
    let ghost start_c = info_columns(*result);
    let ghost start_i = info_indexes(*result);
    let pairs = tables.into_pairs();
    let ghost ps = pairs@;
    proof {
        assert(map_of(ps.take(0)) =~= Map::<Seq<char>, EnvTable>::empty());
        assert(file_under(start_c, env@, tables_columns(map_of(ps.take(0)))) =~= start_c);
        assert(file_under(start_i, env@, tables_indexes(map_of(ps.take(0)))) =~= start_i);
    }
    for pair in it: pairs.into_iter()
        invariant
            it.seq() == ps,
            sorted_keys(keys_of(ps)),
            info_columns(*result) == file_under(start_c, env@, tables_columns(map_of(ps.take(it.index())))),
            info_indexes(*result) == file_under(start_i, env@, tables_indexes(map_of(ps.take(it.index())))),
    {
        let ghost i = it.index();
        let ghost done = map_of(ps.take(i));
        proof {
            lemma_map_of_prefix(ps, i);
        }
        let (table, (columns, indexes)) = pair;
        let ghost before = *result;
        let mut info = match result.remove(table.as_str()) {
            Some(info) => info,
            None => TableInfo::new(),
        };
        let ghost prior_c = info.columns@;
        let ghost prior_i = info.indexes@;
        let ghost cols = columns;
        let ghost idxs = indexes;
        info.columns.insert(env.clone(), columns);
        info.indexes.insert(env.clone(), indexes);
        let ghost key_view = table@;
        let ghost filled = info;
        result.insert(table, info);
        proof {
            let next = map_of(ps.take(i + 1));
            assert(next == done.insert(key_view, (cols, idxs)));
            assert(result@ == before@.remove(key_view).insert(key_view, filled));
            assert(!done.contains_key(key_view));
            assert(prior_c == inner_or_empty(info_columns(before), key_view));
            assert(prior_i == inner_or_empty(info_indexes(before), key_view));
            assert(!tables_columns(done).contains_key(key_view));
            assert(!tables_indexes(done).contains_key(key_view));
            assert(info_columns(before).contains_key(key_view) == start_c.contains_key(key_view));
            assert(info_indexes(before).contains_key(key_view) == start_i.contains_key(key_view));
            assert(prior_c == inner_or_empty(start_c, key_view));
            assert(prior_i == inner_or_empty(start_i, key_view));
            let goal_c = file_under(start_c, env@, tables_columns(next));
            let goal_i = file_under(start_i, env@, tables_indexes(next));
            assert forall|k: Seq<char>| #[trigger] info_columns(*result).contains_key(k)
                == goal_c.contains_key(k) by {
                if k != key_view {
                    assert(info_columns(*result).contains_key(k) == info_columns(before).contains_key(k));
                }
            }
            assert forall|k: Seq<char>| #[trigger] info_columns(*result).contains_key(k) implies info_columns(*result)[k]
                == goal_c[k] by {
                if k != key_view {
                    assert(info_columns(*result)[k] == info_columns(before)[k]);
                }
            }
            assert(info_columns(*result) =~= goal_c);
            assert forall|k: Seq<char>| #[trigger] info_indexes(*result).contains_key(k)
                == goal_i.contains_key(k) by {
                if k != key_view {
                    assert(info_indexes(*result).contains_key(k) == info_indexes(before).contains_key(k));
                }
            }
            assert forall|k: Seq<char>| #[trigger] info_indexes(*result).contains_key(k) implies info_indexes(*result)[k]
                == goal_i[k] by {
                if k != key_view {
                    assert(info_indexes(*result)[k] == info_indexes(before)[k]);
                }
            }
            assert(info_indexes(*result) =~= goal_i);
        }
    }
    proof {
        assert(ps.take(ps.len() as int) =~= ps);
    }
}

/// What one environment has: its name and its tables by name.
pub type EnvTables = (String, StrMap<EnvTable>);

/// The columns of the environments' tables, each under the environment's name.
pub open spec fn table_column_parts(parts: Seq<EnvTables>) -> Seq<
    (Seq<char>, Map<Seq<char>, StrMap<TableColumn>>),
> {
    parts.map_values(|p: EnvTables| (p.0@, tables_columns(p.1@)))
}

/// The indexes of the environments' tables, each under the environment's name.
pub open spec fn table_index_parts(parts: Seq<EnvTables>) -> Seq<
    (Seq<char>, Map<Seq<char>, StrMap<String>>),
> {
    parts.map_values(|p: EnvTables| (p.0@, tables_indexes(p.1@)))
}

/// The overview of all tables across environments, from the tables of each environment,
/// in the order of the environments.
pub fn tables_difference_from(parts: Vec<EnvTables>) -> (r: StrMap<TableInfo>)
    ensures
        info_columns(r) == merge_envs(table_column_parts(parts@)),
        info_indexes(r) == merge_envs(table_index_parts(parts@)),
        forall|t: Seq<char>| #[trigger] r@.contains_key(t) ==> r@[t].columns@.dom() == r@[t].indexes@.dom(),
{
    let ghost ps = parts@;
    let mut result: StrMap<TableInfo> = StrMap::new();
    proof {
        assert(info_columns(result) =~= merge_envs(table_column_parts(ps.take(0))));
        assert(info_indexes(result) =~= merge_envs(table_index_parts(ps.take(0))));
    }
    for part in it: parts.into_iter()
        invariant
            it.seq() == ps,
            info_columns(result) == merge_envs(table_column_parts(ps.take(it.index()))),
            info_indexes(result) == merge_envs(table_index_parts(ps.take(it.index()))),
    {
        let ghost i = it.index();
        proof {
            assert(table_column_parts(ps.take(i + 1)).drop_last() =~= table_column_parts(ps.take(i)));
            assert(table_index_parts(ps.take(i + 1)).drop_last() =~= table_index_parts(ps.take(i)));
        }
        let (env, tables) = part;
        add_env_tables(&mut result, &env, tables);
    }
    proof {
        assert(ps.take(ps.len() as int) =~= ps);
        let pa = table_column_parts(ps);
        let pb = table_index_parts(ps);
        assert forall|i: int| 0 <= i < pa.len() implies #[trigger] pa[i].0 == pb[i].0 && pa[i].1.dom()
            == pb[i].1.dom() by {
            assert(tables_columns(ps[i].1@).dom() =~= tables_indexes(ps[i].1@).dom());
        }
        lemma_merge_envs_same_shape(pa, pb);
        assert forall|t: Seq<char>| #[trigger] result@.contains_key(t) implies result@[t].columns@.dom()
            == result@[t].indexes@.dom() by {
            assert(info_columns(result).contains_key(t));
        }
    }
    result
}

} // verus!
