//! Ingesting batches of type records into a [MimeDB].
use vstd::prelude::*;
use vstd::pervasive::VecAdditionalExecFns;

use super::{
    MimeDBModel, entries_map, glob_model, info_model, lemma_entries_map, precedence_sorted, unique_names,
    CompiledGlobRule, GlobModel, MimeDB, TypeEntry, TypeInfo, TypeInfoModel,
};
use crate::fnmatch::{pattern_rule, FileMatcher};
use crate::record::{opt_string_view, strings_view, GlobRule, MimeTypeRecord};
use crate::runtime::{dir_batches, package_batches, SMIDir, SMIPackage, SharedMimeInfo};

verus! {

/// What the registry knows of a type after a record for it: the record's
/// description if it has one, else the earlier one; aliases and parents
/// appended.
pub open spec fn record_info(prev: Option<TypeInfoModel>, r: MimeTypeRecord) -> TypeInfoModel {
    let base = match prev {
        Some(i) => i,
        None => TypeInfoModel { description: None, aliases: seq![], parents: seq![] },
    };
    TypeInfoModel {
        description: if r.description is Some {
            opt_string_view(r.description)
        } else {
            base.description
        },
        aliases: base.aliases + strings_view(r.aliases@),
        parents: base.parents + strings_view(r.superclasses@),
    }
}

/// The type map after ingesting `rs` in order.
pub open spec fn ingest_types(
    types: Map<Seq<char>, TypeInfoModel>,
    rs: Seq<MimeTypeRecord>,
) -> Map<Seq<char>, TypeInfoModel>
    decreases rs.len(),
{
    if rs.len() == 0 {
        types
    } else {
        let m = ingest_types(types, rs.drop_last());
        let r = rs.last();
        m.insert(
            r.name@,
            record_info(
                if m.contains_key(r.name@) {
                    Some(m[r.name@])
                } else {
                    None
                },
                r,
            ),
        )
    }
}

/// The compiled rule of one glob spec of a record.
pub open spec fn glob_of(r: MimeTypeRecord, g: GlobRule, sequence: int) -> GlobModel {
    GlobModel {
        rule: pattern_rule(g.pattern@),
        case_sensitive: g.case_sensitive,
        sequence,
        weight: g.weight as int,
        mimetype: r.name@,
    }
}

/// The compiled rules of a record's glob specs, in order.
pub open spec fn record_globs(r: MimeTypeRecord, sequence: int) -> Seq<GlobModel> {
    r.globs@.map_values(|g: GlobRule| glob_of(r, g, sequence))
}

/// The compiled rules of a batch, record by record.
pub open spec fn batch_globs(rs: Seq<MimeTypeRecord>, sequence: int) -> Seq<GlobModel>
    decreases rs.len(),
{
    if rs.len() == 0 {
        seq![]
    } else {
        batch_globs(rs.drop_last(), sequence) + record_globs(rs.last(), sequence)
    }
}

/// Insert `g` into `s` after every rule whose weight is at least its own,
/// scanning from the end.
pub open spec fn insert_by_weight(s: Seq<GlobModel>, g: GlobModel) -> Seq<GlobModel>
    decreases s.len(),
{
    if s.len() == 0 || s.last().weight >= g.weight {
        s.push(g)
    } else {
        insert_by_weight(s.drop_last(), g).push(s.last())
    }
}

/// Stable ordering by weight, higher weights first: rules of equal weight
/// keep their order.
pub open spec fn sort_by_weight(s: Seq<GlobModel>) -> Seq<GlobModel>
    decreases s.len(),
{
    if s.len() == 0 {
        s
    } else {
        insert_by_weight(sort_by_weight(s.drop_last()), s.last())
    }
}

/// The registry after ingesting one batch.
pub open spec fn ingest_model(m: MimeDBModel, rs: Seq<MimeTypeRecord>) -> MimeDBModel {
    MimeDBModel {
        types: ingest_types(m.types, rs),
        sequence: m.sequence + 1,
        globs: sort_by_weight(batch_globs(rs, m.sequence + 1)) + m.globs,
    }
}

/// The registry after ingesting batches in order.
pub open spec fn ingest_batches(m: MimeDBModel, bs: Seq<Seq<MimeTypeRecord>>) -> MimeDBModel
    decreases bs.len(),
{
    if bs.len() == 0 {
        m
    } else {
        ingest_model(ingest_batches(m, bs.drop_last()), bs.last())
    }
}

proof fn lemma_ingest_concat(m: MimeDBModel, a: Seq<Seq<MimeTypeRecord>>, b: Seq<Seq<MimeTypeRecord>>)
    ensures
        ingest_batches(m, a + b) == ingest_batches(ingest_batches(m, a), b),
        ingest_batches(m, a).sequence == m.sequence + a.len(),
    decreases b.len(), a.len(),
{
    if a.len() > 0 {
        lemma_ingest_concat(m, a.drop_last(), seq![]);
    }
    if b.len() > 0 {
        lemma_ingest_concat(m, a, b.drop_last());
        assert((a + b).drop_last() =~= a + b.drop_last());
        assert((a + b).last() == b.last());
    } else {
        assert(a + b =~= a);
    }
}

pub proof fn lemma_dir_batches_split(ds: Seq<SMIDir>, k: int)
    requires
        0 <= k < ds.len(),
    ensures
        dir_batches(ds.take(k + 1)) == dir_batches(ds.take(k)) + package_batches(ds[k].packages@),
        dir_batches(ds.take(k)).len() <= dir_batches(ds).len(),
    decreases ds.len(),
{
    assert(ds.take(k + 1).drop_last() =~= ds.take(k));
    assert(ds.take(k + 1).last() == ds[k]);
    if k + 1 < ds.len() {
        lemma_dir_batches_split(ds.drop_last(), k);
        assert(ds.drop_last().take(k) =~= ds.take(k));
        assert(ds.drop_last().take(k + 1) =~= ds.take(k + 1));
    } else {
        assert(ds.take(k + 1) =~= ds);
    }
}

/// Weights never increase along `s`.
pub open spec fn weight_sorted(s: Seq<GlobModel>) -> bool {
    forall|i: int, j: int| 0 <= i < j < s.len() ==> s[i].weight >= s[j].weight
}

proof fn lemma_insert_at(s: Seq<GlobModel>, g: GlobModel, j: int)
    requires
        0 <= j <= s.len(),
        j == 0 || s[j - 1].weight >= g.weight,
        forall|k: int| j <= k < s.len() ==> s[k].weight < g.weight,
    ensures
        insert_by_weight(s, g) == s.insert(j, g),
    decreases s.len() - j,
{
    if j == s.len() {
        assert(s.push(g) =~= s.insert(j, g));
    } else {
        let init = s.drop_last();
        lemma_insert_at(init, g, j);
        assert(init.insert(j, g).push(s.last()) =~= s.insert(j, g));
    }
}

proof fn lemma_insert_sorted(s: Seq<GlobModel>, g: GlobModel)
    requires
        weight_sorted(s),
    ensures
        weight_sorted(insert_by_weight(s, g)),
        insert_by_weight(s, g).len() == s.len() + 1,
        forall|k: int|
            0 <= k < insert_by_weight(s, g).len() ==> (#[trigger] insert_by_weight(s, g)[k] == g
                || s.contains(insert_by_weight(s, g)[k])),
    decreases s.len(),
{
    if s.len() > 0 && s.last().weight < g.weight {
        let init = s.drop_last();
        lemma_insert_sorted(init, g);
        let t = insert_by_weight(init, g);
        assert forall|k: int| 0 <= k < t.len() implies #[trigger] t[k].weight >= s.last().weight by {
            if t[k] != g {
                let w = choose|w: int| 0 <= w < init.len() && init[w] == t[k];
                assert(s[w] == init[w]);
            }
        }
        assert forall|k: int|
            0 <= k < insert_by_weight(s, g).len() implies (#[trigger] insert_by_weight(s, g)[k]
            == g || s.contains(insert_by_weight(s, g)[k])) by {
            if k < t.len() && t[k] != g {
                let w = choose|w: int| 0 <= w < init.len() && init[w] == t[k];
                assert(s[w] == init[w]);
            } else if k == t.len() {
                assert(s[s.len() - 1] == s.last());
            }
        }
    }
}

proof fn lemma_sort_sorted(s: Seq<GlobModel>)
    ensures
        weight_sorted(sort_by_weight(s)),
        sort_by_weight(s).len() == s.len(),
        forall|k: int|
            0 <= k < sort_by_weight(s).len() ==> s.contains(#[trigger] sort_by_weight(s)[k]),
    decreases s.len(),
{
    if s.len() > 0 {
        let init = s.drop_last();
        lemma_sort_sorted(init);
        lemma_insert_sorted(sort_by_weight(init), s.last());
        let r = sort_by_weight(s);
        assert forall|k: int| 0 <= k < r.len() implies s.contains(#[trigger] r[k]) by {
            if r[k] == s.last() {
                assert(s[s.len() - 1] == r[k]);
            } else {
                assert(sort_by_weight(init).contains(r[k]));
                let w = choose|w: int| 0 <= w < sort_by_weight(init).len() && sort_by_weight(init)[w] == r[k];
                assert(init.contains(sort_by_weight(init)[w]));
                let v = choose|v: int| 0 <= v < init.len() && init[v] == r[k];
                assert(s[v] == init[v]);
            }
        }
    }
}

proof fn lemma_batch_sequence(rs: Seq<MimeTypeRecord>, sequence: int)
    ensures
        forall|k: int|
            0 <= k < batch_globs(rs, sequence).len() ==> #[trigger] batch_globs(rs, sequence)[k].sequence
                == sequence,
    decreases rs.len(),
{
    if rs.len() > 0 {
        lemma_batch_sequence(rs.drop_last(), sequence);
        let a = batch_globs(rs.drop_last(), sequence);
        let b = record_globs(rs.last(), sequence);
        assert forall|k: int| 0 <= k < batch_globs(rs, sequence).len() implies #[trigger] batch_globs(
            rs,
            sequence,
        )[k].sequence == sequence by {
            if k >= a.len() {
                assert(batch_globs(rs, sequence)[k] == b[k - a.len()]);
            } else {
                assert(batch_globs(rs, sequence)[k] == a[k]);
            }
        }
    }
}

proof fn lemma_insert_contains(s: Seq<GlobModel>, g: GlobModel)
    ensures
        insert_by_weight(s, g).contains(g),
        forall|x: GlobModel| s.contains(x) ==> #[trigger] insert_by_weight(s, g).contains(x),
    decreases s.len(),
{
    let r = insert_by_weight(s, g);
    if s.len() == 0 || s.last().weight >= g.weight {
        assert(r[r.len() - 1] == g);
        assert forall|x: GlobModel| s.contains(x) implies #[trigger] r.contains(x) by {
            let i = choose|i: int| 0 <= i < s.len() && s[i] == x;
            assert(r[i] == x);
        }
    } else {
        let init = s.drop_last();
        lemma_insert_contains(init, g);
        let t = insert_by_weight(init, g);
        let w = choose|w: int| 0 <= w < t.len() && t[w] == g;
        assert(r[w] == g);
        assert forall|x: GlobModel| s.contains(x) implies #[trigger] r.contains(x) by {
            let i = choose|i: int| 0 <= i < s.len() && s[i] == x;
            if i == s.len() - 1 {
                assert(r[r.len() - 1] == x);
            } else {
                assert(init[i] == x);
                assert(t.contains(x));
                let v = choose|v: int| 0 <= v < t.len() && t[v] == x;
                assert(r[v] == x);
            }
        }
    }
}

proof fn lemma_sort_contains(s: Seq<GlobModel>)
    ensures
        forall|x: GlobModel| s.contains(x) ==> #[trigger] sort_by_weight(s).contains(x),
    decreases s.len(),
{
    if s.len() > 0 {
        let init = s.drop_last();
        lemma_sort_contains(init);
        lemma_insert_contains(sort_by_weight(init), s.last());
        assert forall|x: GlobModel| s.contains(x) implies #[trigger] sort_by_weight(s).contains(x) by {
            let i = choose|i: int| 0 <= i < s.len() && s[i] == x;
            if i < s.len() - 1 {
                assert(init[i] == x);
                assert(sort_by_weight(init).contains(x));
            }
        }
    }
}

/// Ingesting a batch removes no rule: every earlier rule stays, in the same
/// order, behind every rule of the new batch. So a pattern ingested again in
/// a later batch keeps its earlier rule, and the later copy comes first.
pub proof fn lemma_ingest_keeps_rules(m: MimeDBModel, records: Seq<MimeTypeRecord>)
    ensures
        ({
            let after = ingest_model(m, records);
            let fresh = batch_globs(records, m.sequence + 1);
            &&& after.globs.len() == fresh.len() + m.globs.len()
            &&& forall|i: int|
                0 <= i < m.globs.len() ==> after.globs[fresh.len() + i] == #[trigger] m.globs[i]
            &&& forall|g: GlobModel|
                #[trigger] fresh.contains(g) ==> exists|i: int|
                    0 <= i < fresh.len() && after.globs[i] == g
        }),
{
    let fresh = batch_globs(records, m.sequence + 1);
    let sorted = sort_by_weight(fresh);
    lemma_sort_sorted(fresh);
    lemma_sort_contains(fresh);
    let after = ingest_model(m, records);
    assert forall|g: GlobModel| #[trigger] fresh.contains(g) implies exists|i: int|
        0 <= i < fresh.len() && after.globs[i] == g by {
        assert(sorted.contains(g));
        let i = choose|i: int| 0 <= i < sorted.len() && sorted[i] == g;
        assert(after.globs[i] == g);
    }
}

fn append_strings(into: &mut Vec<String>, from: &Vec<String>)
    ensures
        strings_view(final(into)@) == strings_view(old(into)@) + strings_view(from@),
{
    let ghost start = old(into)@;
    let n = from.len();
    let mut i: usize = 0;
    while i < n
        invariant
            n == from@.len(),
            i <= n,
            strings_view(into@) =~= strings_view(start) + strings_view(from@.take(i as int)),
        decreases n - i,
    {
        let ghost before = into@;
        let c = from[i].clone();
        into.push(c);
        assert(strings_view(into@) =~= strings_view(before).push(from@[i as int]@));
        assert(from@.take(i + 1) =~= from@.take(i as int).push(from@[i as int]));
        assert(strings_view(from@.take(i + 1)) =~= strings_view(from@.take(i as int)).push(
            from@[i as int]@,
        ));
        i += 1;
    }
    assert(from@.take(n as int) =~= from@);
}

fn clone_strings(from: &Vec<String>) -> (r: Vec<String>)
    ensures
        strings_view(r@) == strings_view(from@),
{
    let mut r: Vec<String> = Vec::new();
    append_strings(&mut r, from);
    assert(strings_view(Seq::<String>::empty()) + strings_view(from@) =~= strings_view(from@));
    r
}

fn clone_opt_string(s: &Option<String>) -> (r: Option<String>)
    ensures
        opt_string_view(r) == opt_string_view(*s),
{
    match s {
        Some(x) => Some(x.clone()),
        None => None,
    }
}

/// Insert a compiled rule into a batch kept in weight order.
fn insert_rule(batch: &mut Vec<CompiledGlobRule>, g: CompiledGlobRule)
    ensures
        final(batch)@.map_values(|x: CompiledGlobRule| glob_model(x)) == insert_by_weight(
            old(batch)@.map_values(|x: CompiledGlobRule| glob_model(x)),
            glob_model(g),
        ),
{
    let ghost s = batch@.map_values(|x: CompiledGlobRule| glob_model(x));
    let mut j = batch.len();
    while j > 0 && batch[j - 1].weight < g.weight
        invariant
            j <= batch@.len(),
            batch@ == old(batch)@,
            s == batch@.map_values(|x: CompiledGlobRule| glob_model(x)),
            forall|k: int| j <= k < s.len() ==> s[k].weight < g.weight,
        decreases j,
    {
        j -= 1;
    }
    proof {
        lemma_insert_at(s, glob_model(g), j as int);
    }
    batch.insert(j, g);
    assert(batch@.map_values(|x: CompiledGlobRule| glob_model(x)) =~= s.insert(
        j as int,
        glob_model(g),
    ));
}

impl MimeDB {
    /// Fold one record into the type map.
    fn merge_record(&mut self, rec: &MimeTypeRecord)
        requires
            old(self).wf(),
        ensures
            unique_names(final(self).types@),
            final(self).sequence == old(self).sequence,
            final(self).globs == old(self).globs,
            final(self)@.types == old(self)@.types.insert(
                rec.name@,
                record_info(
                    if old(self)@.types.contains_key(rec.name@) {
                        Some(old(self)@.types[rec.name@])
                    } else {
                        None
                    },
                    *rec,
                ),
            ),
    {
        proof {
            lemma_entries_map(self.types@);
        }
        let ghost es = self.types@;
        match self.find_type(&rec.name) {
            Some(idx) => {
                let mut entry = TypeEntry {
                    name: String::new(),
                    info: TypeInfo { description: None, aliases: Vec::new(), parents: Vec::new() },
                };
                self.types.set_and_swap(idx, &mut entry);
                if rec.description.is_some() {
                    entry.info.description = clone_opt_string(&rec.description);
                }
                append_strings(&mut entry.info.aliases, &rec.aliases);
                append_strings(&mut entry.info.parents, &rec.superclasses);
                let ghost e = entry;
                self.types.set_and_swap(idx, &mut entry);
                proof {
                    assert(self.types@ == es.update(idx as int, e));
                    assert(info_model(e.info) == record_info(Some(info_model(es[idx as int].info)), *rec));
                    lemma_update_entry(es, idx as int, e);
                }
            },
            None => {
                let entry = TypeEntry {
                    name: rec.name.clone(),
                    info: TypeInfo {
                        description: clone_opt_string(&rec.description),
                        aliases: clone_strings(&rec.aliases),
                        parents: clone_strings(&rec.superclasses),
                    },
                };
                let ghost e = entry;
                self.types.push(entry);
                proof {
                    assert(self.types@.drop_last() =~= es);
                    assert(info_model(e.info) =~= record_info(None, *rec));
                    assert forall|i: int, j: int| 0 <= i < j < self.types@.len() implies self.types@[i].name@ != self.types@[j].name@ by {
                        if j == es.len() {
                            assert(self.types@[i] == es[i]);
                            assert(entries_map(es).contains_key(es[i].name@));
                        } else {
                            assert(self.types@[i] == es[i] && self.types@[j] == es[j]);
                        }
                    }
                }
            },
        }
    }

    /// Ingest one batch of records.
    ///
    /// The batch gets the next sequence number. Each record creates its type
    /// if it is new, replaces the description if it supplies one, and appends
    /// its aliases and parents. Its globs are compiled and placed ahead of
    /// every earlier batch's, in stable order of weight, higher weights first.
    pub fn add_records(&mut self, records: Vec<MimeTypeRecord>)
        requires
            old(self).wf(),
            old(self)@.sequence < i32::MAX,
        ensures
            final(self).wf(),
            final(self)@.sequence == old(self)@.sequence + 1,
            final(self)@.types == ingest_types(old(self)@.types, records@),
            final(self)@.globs == sort_by_weight(batch_globs(records@, final(self)@.sequence))
                + old(self)@.globs,
            final(self)@ == ingest_model(old(self)@, records@),
    {
        let ghost old_globs = self@.globs;
        let ghost old_types = self@.types;
        self.sequence = self.sequence + 1;
        let seq = self.sequence;
        let mut batch: Vec<CompiledGlobRule> = Vec::new();
        let n = records.len();
        let mut i: usize = 0;
        assert(records@.take(0) =~= Seq::<MimeTypeRecord>::empty());
        while i < n
            invariant
                n == records@.len(),
                i <= n,
                seq == self.sequence,
                seq >= 1,
                unique_names(self.types@),
                self@.globs == old_globs,
                forall|k: int| 0 <= k < self.globs@.len() ==> 1 <= #[trigger] self.globs@[k].sequence < seq,
                precedence_sorted(old_globs),
                self@.types == ingest_types(old_types, records@.take(i as int)),
                batch@.map_values(|x: CompiledGlobRule| glob_model(x)) == sort_by_weight(
                    batch_globs(records@.take(i as int), seq as int),
                ),
            decreases n - i,
        {
            let rec = &records[i];
            proof {
                assert(records@.take(i + 1).drop_last() =~= records@.take(i as int));
                assert(records@.take(i + 1).last() == records@[i as int]);
            }
            self.merge_record(rec);
            let m = rec.globs.len();
            let mut j: usize = 0;
            let ghost prefix = batch_globs(records@.take(i as int), seq as int);
            proof {
                assert(record_globs(*rec, seq as int).take(0) =~= Seq::<GlobModel>::empty());
                assert(prefix + Seq::<GlobModel>::empty() =~= prefix);
            }
            while j < m
                invariant
                    m == rec.globs@.len(),
                    j <= m,
                    batch@.map_values(|x: CompiledGlobRule| glob_model(x)) == sort_by_weight(
                        prefix + record_globs(*rec, seq as int).take(j as int),
                    ),
                decreases m - j,
            {
                let g = &rec.globs[j];
                let mut matcher = FileMatcher::new(g.pattern.as_str());
                if g.case_sensitive {
                    matcher = matcher.case_sensitive();
                }
                let rule = CompiledGlobRule {
                    matcher,
                    sequence: seq,
                    weight: g.weight,
                    mimetype: rec.name.clone(),
                };
                let ghost before = prefix + record_globs(*rec, seq as int).take(j as int);
                proof {
                    assert(glob_model(rule) == glob_of(*rec, *g, seq as int));
                    assert((prefix + record_globs(*rec, seq as int).take(j + 1)).drop_last()
                        =~= before);
                    assert((prefix + record_globs(*rec, seq as int).take(j + 1)).last()
                        == glob_model(rule));
                }
                insert_rule(&mut batch, rule);
                j += 1;
            }
            proof {
                assert(record_globs(*rec, seq as int).take(m as int) =~= record_globs(*rec, seq as int));
            }
            i += 1;
        }
        proof {
            assert(records@.take(n as int) =~= records@);
            lemma_sort_sorted(batch_globs(records@, seq as int));
            lemma_batch_sequence(records@, seq as int);
        }
        let ghost new_models = batch@.map_values(|x: CompiledGlobRule| glob_model(x));
        let ghost old_rules = self.globs@;
        let ghost batch0 = batch@;
        batch.append(&mut self.globs);
        self.globs = batch;
        proof {
            assert(self.globs@ =~= batch0 + old_rules);
            assert(new_models.len() == batch0.len());
            assert(self@.globs =~= new_models + old_globs);
            let s = sort_by_weight(batch_globs(records@, seq as int));
            assert forall|k: int| 0 <= k < s.len() implies #[trigger] s[k].sequence == seq by {
                assert(batch_globs(records@, seq as int).contains(s[k]));
            }
            assert forall|k: int| 0 <= k < self.globs@.len() implies 1 <= #[trigger] self.globs@[k].sequence
                <= self.sequence by {
                if k >= s.len() {
                    assert(self.globs@[k] == old_rules[k - s.len()]);
                    assert(1 <= old_rules[k - s.len()].sequence < seq);
                } else {
                    assert(self.globs@[k] == batch0[k]);
                    assert(glob_model(batch0[k]) == new_models[k]);
                    assert(new_models[k] == s[k]);
                    assert(s[k].sequence == seq);
                    assert(batch0[k].sequence == seq);
                }
            }
            assert(precedence_sorted(self@.globs)) by {
                assert forall|a: int, b: int| 0 <= a < b < self@.globs.len() implies {
                    ||| self@.globs[a].sequence > self@.globs[b].sequence
                    ||| (self@.globs[a].sequence == self@.globs[b].sequence && self@.globs[a].weight
                        >= self@.globs[b].weight)
                } by {
                    if b < s.len() {
                        assert(self@.globs[a] == s[a] && self@.globs[b] == s[b]);
                    } else if a < s.len() {
                        assert(self@.globs[a] == s[a]);
                        assert(self@.globs[b] == old_globs[b - s.len()]);
                        assert(self@.globs[b] == glob_model(old_rules[b - s.len()]));
                    } else {
                        assert(self@.globs[a] == old_globs[a - s.len()]);
                        assert(self@.globs[b] == old_globs[b - s.len()]);
                    }
                }
            }
        }
    }
}

impl MimeDB {
    /// Ingest every package of every directory, in order, one batch each.
    pub fn add_shared_mime_info(&mut self, info: SharedMimeInfo)
        requires
            old(self).wf(),
            old(self)@.sequence + dir_batches(info.directories@).len() <= i32::MAX,
        ensures
            final(self).wf(),
            final(self)@ == ingest_batches(old(self)@, dir_batches(info.directories@)),
    {
        let ghost start = self@;
        let ghost all = info.directories@;
        let mut dirs = info.directories;
        let ndirs = dirs.len();
        let mut k: usize = 0;
        proof {
            assert(all.take(0) =~= Seq::<SMIDir>::empty());
            assert(all.skip(0) =~= all);
        }
        while dirs.len() > 0
            invariant
                self.wf(),
                k <= all.len(),
                all.len() == ndirs,
                dirs@ == all.skip(k as int),
                start.sequence + dir_batches(all).len() <= i32::MAX,
                self@ == ingest_batches(start, dir_batches(all.take(k as int))),
            decreases dirs@.len(),
        {
            let dir = dirs.remove(0);
            let ghost before = self@;
            proof {
                assert(dir == all[k as int]);
                lemma_dir_batches_split(all, k as int);
                if k + 1 < all.len() {
                    lemma_dir_batches_split(all, k + 1);
                } else {
                    assert(all.take(k + 1) =~= all);
                }
                lemma_ingest_concat(start, dir_batches(all.take(k as int)), seq![]);
            }
            let ghost pall = dir.packages@;
            let mut pkgs = dir.packages;
            let npkgs = pkgs.len();
            let mut j: usize = 0;
            proof {
                assert(pall.take(0) =~= Seq::<SMIPackage>::empty());
                assert(pall.skip(0) =~= pall);
                lemma_package_batches_len(pall);
                lemma_ingest_concat(start, dir_batches(all.take(k as int)), package_batches(pall));
            }
            while pkgs.len() > 0
                invariant
                    self.wf(),
                    j <= pall.len(),
                    pall.len() == npkgs,
                    package_batches(pall).len() == pall.len(),
                    pkgs@ == pall.skip(j as int),
                    before.sequence + package_batches(pall).len() <= i32::MAX,
                    self@ == ingest_batches(before, package_batches(pall.take(j as int))),
                decreases pkgs@.len(),
            {
                let pkg = pkgs.remove(0);
                proof {
                    assert(pkg == pall[j as int]);
                    assert(pall.take(j + 1).drop_last() =~= pall.take(j as int));
                    assert(pall.take(j + 1).last() == pall[j as int]);
                    lemma_ingest_concat(before, package_batches(pall.take(j as int)), seq![]);
                    lemma_package_batches_len(pall.take(j as int));
                    lemma_package_prefix_len(pall, j as int);
                    assert(pkgs@ =~= pall.skip(j + 1));
                    let pre = package_batches(pall.take(j as int));
                    assert(package_batches(pall.take(j + 1)) == pre.push(pall[j as int].types@));
                    assert(pre.push(pall[j as int].types@).drop_last() =~= pre);
                }
                self.add_records(pkg.types);
                j += 1;
            }
            proof {
                assert(pall.take(j as int) =~= pall);
                assert(dirs@ =~= all.skip(k + 1));
                assert(before == ingest_batches(start, dir_batches(all.take(k as int))));
            }
            k += 1;
        }
        proof {
            assert(all.take(k as int) =~= all);
        }
    }
}

pub proof fn lemma_package_batches_len(ps: Seq<SMIPackage>)
    ensures
        package_batches(ps).len() == ps.len(),
    decreases ps.len(),
{
    if ps.len() > 0 {
        lemma_package_batches_len(ps.drop_last());
    }
}

proof fn lemma_package_prefix_len(ps: Seq<SMIPackage>, j: int)
    requires
        0 <= j <= ps.len(),
    ensures
        package_batches(ps.take(j)).len() == j,
{
    lemma_package_batches_len(ps.take(j));
}

proof fn lemma_update_entry(es: Seq<TypeEntry>, idx: int, e: TypeEntry)
    requires
        unique_names(es),
        0 <= idx < es.len(),
        e.name@ == es[idx].name@,
    ensures
        unique_names(es.update(idx, e)),
        entries_map(es.update(idx, e)) == entries_map(es).insert(e.name@, info_model(e.info)),
    decreases es.len(),
{
    let t = es.update(idx, e);
    assert forall|i: int, j: int| 0 <= i < j < t.len() implies t[i].name@ != t[j].name@ by {
        assert(t[i].name@ == es[i].name@ && t[j].name@ == es[j].name@);
    }
    if idx == es.len() - 1 {
        assert(t.drop_last() =~= es.drop_last());
        assert(entries_map(t) =~= entries_map(es).insert(e.name@, info_model(e.info)));
    } else {
        lemma_update_entry(es.drop_last(), idx, e);
        assert(t.drop_last() =~= es.drop_last().update(idx, e));
        assert(es.last().name@ != e.name@);
        assert(entries_map(t) =~= entries_map(es).insert(e.name@, info_model(e.info)));
    }
}

} // verus!
