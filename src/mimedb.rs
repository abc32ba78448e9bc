//! The [MimeDB] type for file type lookup.
use vstd::prelude::*;
use vstd::set_lib::lemma_len_subset;

use crate::fnmatch::{FileMatcher, RuleModel};
use crate::names::{
    is_inode, is_inode_name, is_text, is_text_name, octet_stream, text_plain,
};
use crate::record::strings_view;
use crate::search_queue::SearchQueue;

pub mod ingest;
pub mod query;


verus! {

/// What the registry knows of one type.
pub struct TypeInfoModel {
    pub description: Option<Seq<char>>,
    pub aliases: Seq<Seq<char>>,
    pub parents: Seq<Seq<char>>,
}

/// One compiled glob rule of the index.
pub struct GlobModel {
    pub rule: RuleModel,
    pub case_sensitive: bool,
    pub sequence: int,
    pub weight: int,
    pub mimetype: Seq<char>,
}

/// The registry's contents: the types by name, the number of batches
/// ingested, and the glob rules in precedence order.
pub struct MimeDBModel {
    pub types: Map<Seq<char>, TypeInfoModel>,
    pub sequence: int,
    pub globs: Seq<GlobModel>,
}

/// Hold MIME data and facilitate file type guessing.
pub struct MimeDB {
    types: Vec<TypeEntry>,
    sequence: i32,
    globs: Vec<CompiledGlobRule>,
}

struct TypeInfo {
    description: Option<String>,
    aliases: Vec<String>,
    parents: Vec<String>,
}

struct TypeEntry {
    name: String,
    info: TypeInfo,
}

struct CompiledGlobRule {
    matcher: FileMatcher,
    sequence: i32,
    weight: i32,
    mimetype: String,
}

spec fn info_model(i: TypeInfo) -> TypeInfoModel {
    TypeInfoModel {
        description: match i.description {
            Some(d) => Some(d@),
            None => None,
        },
        aliases: strings_view(i.aliases@),
        parents: strings_view(i.parents@),
    }
}

spec fn glob_model(g: CompiledGlobRule) -> GlobModel {
    GlobModel {
        rule: g.matcher.rule@,
        case_sensitive: g.matcher.case_sensitive,
        sequence: g.sequence as int,
        weight: g.weight as int,
        mimetype: g.mimetype@,
    }
}

spec fn entries_map(es: Seq<TypeEntry>) -> Map<Seq<char>, TypeInfoModel>
    decreases es.len(),
{
    if es.len() == 0 {
        Map::empty()
    } else {
        entries_map(es.drop_last()).insert(es.last().name@, info_model(es.last().info))
    }
}

spec fn unique_names(es: Seq<TypeEntry>) -> bool {
    forall|i: int, j: int| 0 <= i < j < es.len() ==> es[i].name@ != es[j].name@
}

/// Every parent named by any entry, in entry order.
spec fn all_parents(es: Seq<TypeEntry>) -> Seq<Seq<char>>
    decreases es.len(),
{
    if es.len() == 0 {
        Seq::empty()
    } else {
        all_parents(es.drop_last()) + info_model(es.last().info).parents
    }
}

/// The globs are ordered by batch, later batches first, and within a batch
/// by weight, higher weights first.
pub open spec fn precedence_sorted(gs: Seq<GlobModel>) -> bool {
    forall|i: int, j: int|
        0 <= i < j < gs.len() ==> {
            ||| gs[i].sequence > gs[j].sequence
            ||| (gs[i].sequence == gs[j].sequence && gs[i].weight >= gs[j].weight)
        }
}

/// The declared parents of a type; none for a type the registry does not know.
pub open spec fn parents_of(m: MimeDBModel, t: Seq<char>) -> Seq<Seq<char>> {
    if m.types.contains_key(t) {
        m.types[t].parents
    } else {
        Seq::empty()
    }
}

/// Each type of `p` after the first is a declared parent of the one before.
pub open spec fn is_chain(m: MimeDBModel, p: Seq<Seq<char>>) -> bool {
    &&& p.len() >= 1
    &&& forall|i: int| 0 <= i < p.len() - 1 ==> parents_of(m, #[trigger] p[i]).contains(p[i + 1])
}

/// `a` is `t` or reached from `t` by declared parent edges.
pub open spec fn ancestor(m: MimeDBModel, t: Seq<char>, a: Seq<char>) -> bool {
    exists|p: Seq<Seq<char>>| is_chain(m, p) && p[0] == t && #[trigger] p.last() == a
}

/// `t` is a subtype of `sup`: `sup` is a declared ancestor of `t`; or `sup`
/// is the generic binary type and `t` is no inode type; or `sup` is the
/// generic text type and some declared ancestor of `t` is textual.
pub open spec fn is_subtype_of(m: MimeDBModel, t: Seq<char>, sup: Seq<char>) -> bool {
    ||| (sup == octet_stream() && !is_inode(t))
    ||| ancestor(m, t, sup)
    ||| (sup == text_plain() && exists|a: Seq<char>| ancestor(m, t, a) && #[trigger] is_text(a))
}

/// `seen` with each type of `ps` appended, in order, unless already present.
pub open spec fn add_new(seen: Seq<Seq<char>>, ps: Seq<Seq<char>>) -> Seq<Seq<char>>
    decreases ps.len(),
{
    if ps.len() == 0 {
        seen
    } else {
        let s = add_new(seen, ps.drop_last());
        if s.contains(ps.last()) {
            s
        } else {
            s.push(ps.last())
        }
    }
}

/// The types a breadth-first search from `t` over declared parent edges has
/// discovered once it has visited `n` of them: `t` first, then the parents of
/// each visited type, in order of visit and of declaration, each type once.
pub open spec fn bfs_discovered(m: MimeDBModel, t: Seq<char>, n: nat) -> Seq<Seq<char>>
    decreases n,
{
    if n == 0 {
        seq![t]
    } else {
        let s = bfs_discovered(m, t, (n - 1) as nat);
        if n - 1 < s.len() {
            add_new(s, parents_of(m, s[n - 1]))
        } else {
            s
        }
    }
}

/// The implicit supertypes that follow the declared ones: the generic text
/// type if a found type is textual, then the generic binary type unless `t`
/// is an inode type; each only if not found already.
pub open spec fn implicit_tail(t: Seq<char>, found: Seq<Seq<char>>) -> Seq<Seq<char>> {
    let text: Seq<Seq<char>> = if (exists|a: Seq<char>| found.contains(a) && #[trigger] is_text(a))
        && !found.contains(text_plain()) {
        seq![text_plain()]
    } else {
        seq![]
    };
    let binary: Seq<Seq<char>> = if !is_inode(t) && !found.contains(octet_stream()) {
        seq![octet_stream()]
    } else {
        seq![]
    };
    text + binary
}

/// Three-way comparison where a type is less than its supertypes.
pub open spec fn compare_spec(m: MimeDBModel, a: Seq<char>, b: Seq<char>) -> std::cmp::Ordering {
    if is_subtype_of(m, a, b) {
        std::cmp::Ordering::Less
    } else if is_subtype_of(m, b, a) {
        std::cmp::Ordering::Greater
    } else {
        std::cmp::Ordering::Equal
    }
}

impl View for MimeDB {
    type V = MimeDBModel;

    closed spec fn view(&self) -> MimeDBModel {
        MimeDBModel {
            types: entries_map(self.types@),
            sequence: self.sequence as int,
            globs: self.globs@.map_values(|g: CompiledGlobRule| glob_model(g)),
        }
    }
}

proof fn lemma_entries_map(es: Seq<TypeEntry>)
    requires
        unique_names(es),
    ensures
        forall|i: int|
            0 <= i < es.len() ==> #[trigger] entries_map(es).contains_key(es[i].name@)
                && entries_map(es)[es[i].name@] == info_model(es[i].info),
        forall|k: Seq<char>|
            #[trigger] entries_map(es).contains_key(k) ==> exists|i: int|
                0 <= i < es.len() && es[i].name@ == k,
    decreases es.len(),
{
    if es.len() > 0 {
        let init = es.drop_last();
        lemma_entries_map(init);
        assert forall|k: Seq<char>| #[trigger] entries_map(es).contains_key(k) implies exists|i: int|
            0 <= i < es.len() && es[i].name@ == k by {
            if k != es.last().name@ {
                let i = choose|i: int| 0 <= i < init.len() && init[i].name@ == k;
                assert(es[i] == init[i]);
            }
        }
        assert forall|i: int| 0 <= i < es.len() implies #[trigger] entries_map(es).contains_key(
            es[i].name@,
        ) && entries_map(es)[es[i].name@] == info_model(es[i].info) by {
            if i < es.len() - 1 {
                assert(es[i] == init[i]);
            }
        }
    }
}

proof fn lemma_all_parents(es: Seq<TypeEntry>, i: int)
    requires
        0 <= i < es.len(),
    ensures
        forall|p: Seq<char>|
            info_model(es[i].info).parents.contains(p) ==> #[trigger] all_parents(es).contains(p),
    decreases es.len(),
{
    let init = es.drop_last();
    assert forall|p: Seq<char>|
        info_model(es[i].info).parents.contains(p) implies #[trigger] all_parents(es).contains(
        p,
    ) by {
        let ps = info_model(es[i].info).parents;
        let k = choose|k: int| 0 <= k < ps.len() && ps[k] == p;
        if i == es.len() - 1 {
            assert(all_parents(es)[all_parents(init).len() + k] == p);
        } else {
            assert(es[i] == init[i]);
            assert(info_model(init[i].info).parents.contains(p));
            lemma_all_parents(init, i);
            assert(all_parents(init).contains(p));
            let j = choose|j: int| 0 <= j < all_parents(init).len() && all_parents(init)[j] == p;
            assert(all_parents(es)[j] == p);
        }
    }
}

proof fn lemma_ancestor_self(m: MimeDBModel, t: Seq<char>)
    ensures
        ancestor(m, t, t),
{
    let p = seq![t];
    assert(is_chain(m, p));
    assert(p.last() == t);
}

proof fn lemma_ancestor_step(m: MimeDBModel, t: Seq<char>, a: Seq<char>, b: Seq<char>)
    requires
        ancestor(m, t, a),
        parents_of(m, a).contains(b),
    ensures
        ancestor(m, t, b),
{
    let p = choose|p: Seq<Seq<char>>| is_chain(m, p) && p[0] == t && #[trigger] p.last() == a;
    let q = p.push(b);
    assert forall|i: int| 0 <= i < q.len() - 1 implies parents_of(m, #[trigger] q[i]).contains(
        q[i + 1],
    ) by {
        if i < p.len() - 1 {
            assert(q[i] == p[i] && q[i + 1] == p[i + 1]);
        }
    }
    assert(is_chain(m, q));
    assert(q.last() == b);
}

/// Along a chain that starts inside a set closed under parents, every type
/// up to `k` lies in the set.
proof fn lemma_closed_chain(m: MimeDBModel, s: Seq<Seq<char>>, p: Seq<Seq<char>>, k: int)
    requires
        is_chain(m, p),
        0 <= k < p.len(),
        s.contains(p[0]),
        forall|x: Seq<char>, y: Seq<char>|
            s.contains(x) && #[trigger] parents_of(m, x).contains(y) ==> s.contains(y),
    ensures
        s.contains(p[k]),
    decreases k,
{
    if k > 0 {
        lemma_closed_chain(m, s, p, k - 1);
        assert(parents_of(m, p[k - 1]).contains(p[k]));
    }
}

/// A set of types that holds `t` and every parent of its members holds every
/// declared ancestor of `t`.
proof fn lemma_closed_holds_ancestors(m: MimeDBModel, s: Seq<Seq<char>>, t: Seq<char>, a: Seq<char>)
    requires
        s.contains(t),
        forall|x: Seq<char>, y: Seq<char>|
            s.contains(x) && #[trigger] parents_of(m, x).contains(y) ==> s.contains(y),
        ancestor(m, t, a),
    ensures
        s.contains(a),
{
    let p = choose|p: Seq<Seq<char>>| is_chain(m, p) && p[0] == t && #[trigger] p.last() == a;
    lemma_closed_chain(m, s, p, p.len() - 1);
}

/// Distinct members of a sequence are no more than its length.
proof fn lemma_distinct_within(s: Seq<Seq<char>>, u: Seq<Seq<char>>)
    requires
        s.no_duplicates(),
        forall|i: int| 0 <= i < s.len() ==> u.contains(#[trigger] s[i]),
    ensures
        s.len() <= u.len(),
{
    s.unique_seq_to_set();
    u.lemma_cardinality_of_set();
    assert(s.to_set().subset_of(u.to_set()));
    lemma_len_subset(s.to_set(), u.to_set());
}

impl MimeDB {
    /// The representation is consistent: type names are unique keys, batch
    /// numbers are positive and no greater than the batch count, and the
    /// globs are in precedence order.
    pub closed spec fn wf(&self) -> bool {
        &&& unique_names(self.types@)
        &&& self.sequence >= 0
        &&& forall|i: int|
            0 <= i < self.globs@.len() ==> 1 <= #[trigger] self.globs@[i].sequence
                <= self.sequence
        &&& precedence_sorted(self@.globs)
    }

    /// Construct a new, empty MIME database.
    pub fn new() -> (db: MimeDB)
        ensures
            db.wf(),
            db@.types == Map::<Seq<char>, TypeInfoModel>::empty(),
            db@.sequence == 0,
            db@.globs == Seq::<GlobModel>::empty(),
    {
        let db = MimeDB { types: Vec::new(), sequence: 0, globs: Vec::new() };
        assert(db@.globs =~= Seq::<GlobModel>::empty());
        db
    }

    /// Get the number of known types.
    pub fn type_count(&self) -> (n: usize)
        requires
            self.wf(),
        ensures
            n == self@.types.dom().len(),
    {
        proof {
            self.lemma_type_count();
        }
        self.types.len()
    }

    proof fn lemma_type_count(&self)
        requires
            self.wf(),
        ensures
            self.types@.len() == self@.types.dom().len(),
    {
        let es = self.types@;
        let names = es.map_values(|e: TypeEntry| e.name@);
        lemma_entries_map(es);
        assert(names.no_duplicates()) by {
            assert forall|i: int, j: int|
                0 <= i < names.len() && 0 <= j < names.len() && i != j implies names[i]
                != names[j] by {
                if i < j {
                    assert(es[i].name@ != es[j].name@);
                } else {
                    assert(es[j].name@ != es[i].name@);
                }
            }
        }
        names.unique_seq_to_set();
        assert(names.to_set() =~= self@.types.dom()) by {
            assert forall|k: Seq<char>| names.to_set().contains(k) implies self@.types.dom().contains(
                k,
            ) by {
                let i = choose|i: int| 0 <= i < names.len() && names[i] == k;
                assert(entries_map(es).contains_key(es[i].name@));
            }
            assert forall|k: Seq<char>| self@.types.dom().contains(k) implies names.to_set().contains(
                k,
            ) by {
                assert(entries_map(es).contains_key(k));
                let i = choose|i: int| 0 <= i < es.len() && es[i].name@ == k;
                assert(names[i] == k);
            }
        }
    }

    /// Get the number of globs.
    pub fn glob_count(&self) -> (n: usize)
        ensures
            n == self@.globs.len(),
    {
        self.globs.len()
    }

    /// The index of the entry for `name`, if there is one.
    fn find_type(&self, name: &String) -> (r: Option<usize>)
        requires
            self.wf(),
        ensures
            r is Some ==> r->0 < self.types@.len() && self.types@[r->0 as int].name@ == name@,
            r is Some ==> self@.types.contains_key(name@) && self@.types[name@] == info_model(
                self.types@[r->0 as int].info,
            ),
            r is None ==> !self@.types.contains_key(name@),
    {
        proof {
            lemma_entries_map(self.types@);
        }
        let n = self.types.len();
        let mut i: usize = 0;
        while i < n
            invariant
                self.wf(),
                n == self.types@.len(),
                i <= n,
                forall|k: int| 0 <= k < i ==> self.types@[k].name@ != name@,
            decreases n - i,
        {
            if self.types[i].name == *name {
                proof {
                    lemma_entries_map(self.types@);
                    assert(self@.types.contains_key(self.types@[i as int].name@));
                }
                return Some(i);
            }
            i += 1;
        }
        proof {
            if self@.types.contains_key(name@) {
                let k = choose|k: int| 0 <= k < self.types@.len() && self.types@[k].name@ == name@;
            }
        }
        None
    }

    /// Add the parents of the entry for `q`, if any, to the search.
    fn queue_parents(&self, q: &String, queue: &mut SearchQueue<String>, Ghost(u): Ghost<
        Seq<Seq<char>>,
    >)
        requires
            self.wf(),
            old(queue).wf(),
            forall|i: int| 0 <= i < old(queue).seen().len() ==> u.contains(#[trigger] old(queue).seen()[i]),
            forall|p: Seq<char>| #[trigger] all_parents(self.types@).contains(p) ==> u.contains(p),
        ensures
            final(queue).wf(),
            final(queue).taken() == old(queue).taken(),
            old(queue).seen().len() <= final(queue).seen().len(),
            forall|i: int|
                0 <= i < old(queue).seen().len() ==> #[trigger] final(queue).seen()[i] == old(
                    queue,
                ).seen()[i],
            forall|i: int|
                0 <= i < final(queue).seen().len() ==> u.contains(#[trigger] final(queue).seen()[i]),
            forall|p: Seq<char>|
                #[trigger] parents_of(self@, q@).contains(p) ==> final(queue).seen().contains(p),
            forall|i: int|
                old(queue).seen().len() <= i < final(queue).seen().len() ==> #[trigger] parents_of(
                    self@,
                    q@,
                ).contains(final(queue).seen()[i]),
            final(queue).seen() == add_new(old(queue).seen(), parents_of(self@, q@)),
    {
        match self.find_type(q) {
            None => {
                assert(add_new(queue.seen(), parents_of(self@, q@)) == queue.seen());
            },
            Some(idx) => {
                let parents = &self.types[idx].info.parents;
                let ghost ps = strings_view(parents@);
                assert(parents_of(self@, q@) == ps);
                proof {
                    lemma_all_parents(self.types@, idx as int);
                }
                let ghost s0 = queue.seen();
                let n = parents.len();
                let mut k: usize = 0;
                assert(ps.take(0) =~= Seq::<Seq<char>>::empty());
                while k < n
                    invariant
                        n == parents@.len(),
                        ps == strings_view(parents@),
                        ps == parents_of(self@, q@),
                        k <= n,
                        queue.wf(),
                        queue.taken() == old(queue).taken(),
                        s0 == old(queue).seen(),
                        s0.len() <= queue.seen().len(),
                        forall|i: int| 0 <= i < s0.len() ==> #[trigger] queue.seen()[i] == s0[i],
                        forall|i: int| 0 <= i < queue.seen().len() ==> u.contains(#[trigger] queue.seen()[i]),
                        forall|j: int| 0 <= j < k ==> queue.seen().contains(#[trigger] ps[j]),
                        forall|i: int|
                            s0.len() <= i < queue.seen().len() ==> ps.contains(#[trigger] queue.seen()[i]),
                        forall|p: Seq<char>| ps.contains(p) ==> #[trigger] all_parents(self.types@).contains(p),
                        forall|p: Seq<char>| #[trigger] all_parents(self.types@).contains(p) ==> u.contains(p),
                        queue.seen() == add_new(s0, ps.take(k as int)),
                    decreases n - k,
                {
                    let ghost before = queue.seen();
                    assert(ps.take(k + 1).drop_last() =~= ps.take(k as int));
                    assert(ps.take(k + 1).last() == ps[k as int]);
                    assert(ps[k as int] == parents@[k as int]@);
                    assert(ps.contains(ps[k as int]));
                    assert(all_parents(self.types@).contains(ps[k as int]));
                    queue.maybe_add(parents[k].as_str());
                    assert forall|i: int| 0 <= i < queue.seen().len() implies u.contains(#[trigger] queue.seen()[i]) by {
                        if i >= before.len() {
                            assert(queue.seen()[i] == ps[k as int]);
                        } else {
                            assert(queue.seen()[i] == before[i]);
                        }
                    }
                    assert forall|i: int| s0.len() <= i < queue.seen().len() implies ps.contains(#[trigger] queue.seen()[i]) by {
                        if i >= before.len() {
                            assert(queue.seen()[i] == ps[k as int]);
                        } else {
                            assert(queue.seen()[i] == before[i]);
                        }
                    }
                    assert forall|j: int| 0 <= j <= k implies queue.seen().contains(#[trigger] ps[j]) by {
                        if j < k {
                            let w = choose|w: int| 0 <= w < before.len() && before[w] == ps[j];
                            assert(queue.seen()[w] == ps[j]);
                        } else if !before.contains(ps[j]) {
                            assert(queue.seen()[before.len() as int] == ps[j]);
                        } else {
                            let w = choose|w: int| 0 <= w < before.len() && before[w] == ps[j];
                            assert(queue.seen()[w] == ps[j]);
                        }
                    }
                    k += 1;
                }
                assert(ps.take(n as int) =~= ps);
                assert forall|p: Seq<char>| #[trigger] parents_of(self@, q@).contains(p) implies queue.seen().contains(p) by {
                    let j = choose|j: int| 0 <= j < ps.len() && ps[j] == p;
                }
            },
        }
    }

    /// Query whether one type is a subtype of another.
    pub fn is_subtype(&self, typ: &str, sup: &str) -> (r: bool)
        requires
            self.wf(),
        ensures
            r == is_subtype_of(self@, typ@, sup@),
    {
        let sup_s = sup.to_owned();
        let octet = "application/octet-stream".to_owned();
        let text = "text/plain".to_owned();
        // everything is an octet stream
        if sup_s == octet && !is_inode_name(typ) {
            return true;
        }
        let want_text = sup_s == text;
        let ghost m = self@;
        let ghost u = seq![typ@] + all_parents(self.types@);
        let mut queue: SearchQueue<String> = SearchQueue::new();
        queue.maybe_add(typ);
        proof {
            lemma_ancestor_self(m, typ@);
            assert(u[0] == typ@);
            assert forall|p: Seq<char>| #[trigger] all_parents(self.types@).contains(p) implies u.contains(p) by {
                let j = choose|j: int| 0 <= j < all_parents(self.types@).len() && all_parents(self.types@)[j] == p;
                assert(u[j + 1] == p);
            }
        }
        loop
            invariant
                self.wf(),
                m == self@,
                sup_s@ == sup@,
                want_text == (sup@ == text_plain()),
                !(sup@ == octet_stream() && !is_inode(typ@)),
                queue.wf(),
                queue.seen().len() >= 1,
                queue.seen()[0] == typ@,
                queue.taken() <= queue.seen().len(),
                forall|i: int| 0 <= i < queue.seen().len() ==> ancestor(m, typ@, #[trigger] queue.seen()[i]),
                forall|i: int| 0 <= i < queue.seen().len() ==> u.contains(#[trigger] queue.seen()[i]),
                forall|p: Seq<char>| #[trigger] all_parents(self.types@).contains(p) ==> u.contains(p),
                forall|i: int|
                    0 <= i < queue.taken() ==> #[trigger] queue.seen()[i] != sup@ && !(want_text
                        && is_text(queue.seen()[i])),
                forall|i: int, p: Seq<char>|
                    0 <= i < queue.taken() && #[trigger] parents_of(m, queue.seen()[i]).contains(p)
                        ==> queue.seen().contains(p),
            ensures
                queue.taken() == queue.seen().len(),
            decreases u.len() - queue.taken(),
        {
            proof {
                queue.lemma_distinct();
                lemma_distinct_within(queue.seen(), u);
            }
            let ghost t0 = queue.taken();
            let ghost s0 = queue.seen();
            match queue.get() {
                None => {
                    break ;
                },
                Some(q) => {
                    if q == sup_s {
                        return true;
                    } else if want_text && is_text_name(q.as_str()) {
                        proof {
                            assert(ancestor(m, typ@, q@) && is_text(q@));
                        }
                        return true;
                    }
                    self.queue_parents(&q, &mut queue, Ghost(u));
                    proof {
                        assert forall|i: int| 0 <= i < queue.seen().len() implies ancestor(
                            m,
                            typ@,
                            #[trigger] queue.seen()[i],
                        ) by {
                            if i < s0.len() {
                                assert(queue.seen()[i] == s0[i]);
                            } else {
                                lemma_ancestor_step(m, typ@, q@, queue.seen()[i]);
                            }
                        }
                        assert forall|i: int, p: Seq<char>|
                            0 <= i < queue.taken() && #[trigger] parents_of(m, queue.seen()[i]).contains(p)
                                implies queue.seen().contains(p) by {
                            assert(queue.seen()[i] == s0[i]);
                            if i < t0 {
                                let w = choose|w: int| 0 <= w < s0.len() && s0[w] == p;
                                assert(queue.seen()[w] == p);
                            }
                        }
                        assert forall|i: int| 0 <= i < queue.taken() implies #[trigger] queue.seen()[i] != sup@ && !(want_text
                            && is_text(queue.seen()[i])) by {
                            assert(queue.seen()[i] == s0[i]);
                        }
                    }
                },
            }
        }
        proof {
            let s = queue.seen();
            assert(s.contains(typ@)) by {
                assert(s[0] == typ@);
            }
            assert forall|x: Seq<char>, y: Seq<char>|
                s.contains(x) && #[trigger] parents_of(m, x).contains(y) implies s.contains(y) by {
                let i = choose|i: int| 0 <= i < s.len() && s[i] == x;
                assert(parents_of(m, queue.seen()[i]).contains(y));
            }
            if ancestor(m, typ@, sup@) {
                lemma_closed_holds_ancestors(m, s, typ@, sup@);
                let i = choose|i: int| 0 <= i < s.len() && s[i] == sup@;
                assert(s[i] != sup@);
            }
            if sup@ == text_plain() {
                assert forall|a: Seq<char>| ancestor(m, typ@, a) implies !#[trigger] is_text(a) by {
                    lemma_closed_holds_ancestors(m, s, typ@, a);
                    let i = choose|i: int| 0 <= i < s.len() && s[i] == a;
                    assert(s[i] != sup@ && !(want_text && is_text(s[i])));
                }
            }
        }
        false
    }

    /// Get all known supertypes of the specified type (including itself).
    ///
    /// Types are in discovery order, so closer supertypes come first; the
    /// implicit generic text and binary types, where they apply and were not
    /// declared, come last.
    pub fn supertypes(&self, typ: &str) -> (r: Vec<String>)
        requires
            self.wf(),
        ensures
            r@.len() >= 1,
            r@[0]@ == typ@,
            strings_view(r@).no_duplicates(),
            forall|a: Seq<char>| #[trigger] strings_view(r@).contains(a) <==> is_subtype_of(self@, typ@, a),
            forall|i: int, j: int|
                0 <= i < j < r@.len() && ancestor(self@, typ@, #[trigger] r@[j]@) ==> ancestor(
                    self@,
                    typ@,
                    #[trigger] r@[i]@,
                ),
            exists|k: nat|
                bfs_discovered(self@, typ@, k).len() == k && strings_view(r@) == bfs_discovered(
                    self@,
                    typ@,
                    k,
                ) + implicit_tail(typ@, bfs_discovered(self@, typ@, k)),
    {
        let ghost m = self@;
        let ghost u = seq![typ@] + all_parents(self.types@);
        let mut types: Vec<String> = Vec::new();
        let mut saw_text = false;
        let mut queue: SearchQueue<String> = SearchQueue::new();
        queue.maybe_add(typ);
        proof {
            lemma_ancestor_self(m, typ@);
            assert(u[0] == typ@);
            assert forall|p: Seq<char>| #[trigger] all_parents(self.types@).contains(p) implies u.contains(p) by {
                let j = choose|j: int| 0 <= j < all_parents(self.types@).len() && all_parents(self.types@)[j] == p;
                assert(u[j + 1] == p);
            }
            assert(strings_view(types@) =~= queue.seen().take(0));
            assert(queue.seen() =~= bfs_discovered(m, typ@, 0));
        }
        loop
            invariant
                self.wf(),
                m == self@,
                queue.wf(),
                queue.seen().len() >= 1,
                queue.seen()[0] == typ@,
                queue.taken() <= queue.seen().len(),
                strings_view(types@) == queue.seen().take(queue.taken() as int),
                queue.seen() == bfs_discovered(m, typ@, queue.taken()),
                saw_text == exists|i: int| 0 <= i < queue.taken() && #[trigger] is_text(queue.seen()[i]),
                forall|i: int| 0 <= i < queue.seen().len() ==> ancestor(m, typ@, #[trigger] queue.seen()[i]),
                forall|i: int| 0 <= i < queue.seen().len() ==> u.contains(#[trigger] queue.seen()[i]),
                forall|p: Seq<char>| #[trigger] all_parents(self.types@).contains(p) ==> u.contains(p),
                forall|i: int, p: Seq<char>|
                    0 <= i < queue.taken() && #[trigger] parents_of(m, queue.seen()[i]).contains(p)
                        ==> queue.seen().contains(p),
            ensures
                queue.taken() == queue.seen().len(),
            decreases u.len() - queue.taken(),
        {
            proof {
                queue.lemma_distinct();
                lemma_distinct_within(queue.seen(), u);
            }
            let ghost t0 = queue.taken();
            let ghost s0 = queue.seen();
            match queue.get() {
                None => {
                    break ;
                },
                Some(q) => {
                    if !saw_text && is_text_name(q.as_str()) {
                        saw_text = true;
                    }
                    self.queue_parents(&q, &mut queue, Ghost(u));
                    assert(queue.seen() == bfs_discovered(m, typ@, queue.taken()));
                    let ghost ty0 = types@;
                    let ghost qv = q@;
                    types.push(q);
                    proof {
                        assert(s0[t0 as int] == qv);
                        assert(strings_view(ty0) == s0.take(t0 as int));
                        assert(strings_view(ty0).len() == ty0.len());
                        assert(ty0.len() == t0);
                        assert(types@.len() == t0 + 1);
                        assert(forall|i: int| 0 <= i < t0 ==> types@[i] == ty0[i]);
                        assert(types@[t0 as int]@ == qv);
                        assert forall|i: int| 0 <= i < queue.taken() implies #[trigger] strings_view(types@)[i] == queue.seen().take(queue.taken() as int)[i] by {
                            assert(queue.seen()[i] == s0[i]);
                            if i < t0 {
                                assert(types@[i] == ty0[i]);
                                assert(strings_view(ty0)[i] == s0.take(t0 as int)[i]);
                            } else {
                                assert(types@[i]@ == qv);
                            }
                        }
                        assert(strings_view(types@) =~= queue.seen().take(queue.taken() as int));
                        assert(saw_text == exists|i: int| 0 <= i < queue.taken() && #[trigger] is_text(queue.seen()[i])) by {
                            assert(queue.seen()[t0 as int] == q@);
                            if saw_text {
                                if !is_text(q@) {
                                    let i = choose|i: int| 0 <= i < t0 && #[trigger] is_text(s0[i]);
                                    assert(queue.seen()[i] == s0[i]);
                                }
                            } else {
                                assert forall|i: int| 0 <= i < queue.taken() implies !#[trigger] is_text(queue.seen()[i]) by {
                                    assert(queue.seen()[i] == s0[i]);
                                }
                            }
                        }
                        assert forall|i: int| 0 <= i < queue.seen().len() implies ancestor(
                            m,
                            typ@,
                            #[trigger] queue.seen()[i],
                        ) by {
                            if i < s0.len() {
                                assert(queue.seen()[i] == s0[i]);
                            } else {
                                lemma_ancestor_step(m, typ@, q@, queue.seen()[i]);
                            }
                        }
                        assert forall|i: int, p: Seq<char>|
                            0 <= i < queue.taken() && #[trigger] parents_of(m, queue.seen()[i]).contains(p)
                                implies queue.seen().contains(p) by {
                            assert(queue.seen()[i] == s0[i]);
                            if i < t0 {
                                let w = choose|w: int| 0 <= w < s0.len() && s0[w] == p;
                                assert(queue.seen()[w] == p);
                            }
                        }
                    }
                },
            }
        }
        let ghost s = queue.seen();
        proof {
            queue.lemma_distinct();
            assert(strings_view(types@) =~= s);
            assert(s.contains(typ@)) by {
                assert(s[0] == typ@);
            }
            assert forall|x: Seq<char>, y: Seq<char>|
                s.contains(x) && #[trigger] parents_of(m, x).contains(y) implies s.contains(y) by {
                let i = choose|i: int| 0 <= i < s.len() && s[i] == x;
                assert(parents_of(m, queue.seen()[i]).contains(y));
            }
            assert forall|a: Seq<char>| ancestor(m, typ@, a) implies s.contains(a) by {
                lemma_closed_holds_ancestors(m, s, typ@, a);
            }
            assert forall|a: Seq<char>| s.contains(a) implies ancestor(m, typ@, a) by {
                let i = choose|i: int| 0 <= i < s.len() && s[i] == a;
            }
            reveal_strlit("text/plain");
            reveal_strlit("application/octet-stream");
            assert(text_plain() != octet_stream()) by {
                assert(text_plain().len() != octet_stream().len());
            }
            assert(saw_text == exists|a: Seq<char>| ancestor(m, typ@, a) && #[trigger] is_text(a)) by {
                if saw_text {
                    let i = choose|i: int| 0 <= i < s.len() && #[trigger] is_text(s[i]);
                    assert(ancestor(m, typ@, s[i]));
                }
                if exists|a: Seq<char>| ancestor(m, typ@, a) && #[trigger] is_text(a) {
                    let a = choose|a: Seq<char>| ancestor(m, typ@, a) && #[trigger] is_text(a);
                    assert(s.contains(a));
                    let i = choose|i: int| 0 <= i < s.len() && s[i] == a;
                    assert(is_text(s[i]));
                }
            }
        }
        let text = "text/plain".to_owned();
        if saw_text && !queue.saw(text.as_str()) {
            types.push(text);
        }
        let ghost s1 = strings_view(types@);
        let octet = "application/octet-stream".to_owned();
        if !is_inode_name(typ) && !queue.saw(octet.as_str()) {
            types.push(octet);
        }
        proof {
            assert(s1 =~= s || s1 =~= s.push(text_plain()));
            assert(strings_view(types@) =~= s1 || strings_view(types@) =~= s1.push(octet_stream()));
            assert(strings_view(types@)[0] == s[0]);
            assert forall|a: Seq<char>| #[trigger] strings_view(types@).contains(a) implies is_subtype_of(self@, typ@, a) by {
                let i = choose|i: int| 0 <= i < strings_view(types@).len() && strings_view(types@)[i] == a;
                if i < s.len() {
                    assert(s[i] == a);
                    assert(s.contains(a));
                }
            }
            assert forall|i: int, j: int|
                0 <= i < j < types@.len() && ancestor(self@, typ@, #[trigger] types@[j]@) implies ancestor(
                    self@,
                    typ@,
                    #[trigger] types@[i]@,
                ) by {
                assert(strings_view(types@)[j] == types@[j]@);
                assert(strings_view(types@)[i] == types@[i]@);
                if j >= s.len() {
                    assert(s.contains(types@[j]@));
                } else {
                    assert(s[i] == types@[i]@);
                }
            }
            assert forall|a: Seq<char>| is_subtype_of(self@, typ@, a) implies #[trigger] strings_view(types@).contains(a) by {
                if s.contains(a) {
                    let i = choose|i: int| 0 <= i < s.len() && s[i] == a;
                    assert(strings_view(types@)[i] == a);
                } else if a == text_plain() {
                    assert(s1[s.len() as int] == a);
                    assert(strings_view(types@)[s.len() as int] == a);
                } else {
                    assert(strings_view(types@)[strings_view(types@).len() - 1] == a);
                }
            }
            let k = s.len();
            assert(bfs_discovered(m, typ@, k) == s);
            let has_text = exists|a: Seq<char>| s.contains(a) && #[trigger] is_text(a);
            assert(saw_text == has_text) by {
                if saw_text {
                    let i = choose|i: int| 0 <= i < s.len() && #[trigger] is_text(s[i]);
                    assert(s.contains(s[i]));
                }
                if has_text {
                    let a = choose|a: Seq<char>| s.contains(a) && #[trigger] is_text(a);
                    let i = choose|i: int| 0 <= i < s.len() && s[i] == a;
                    assert(is_text(s[i]));
                }
            }
            assert(strings_view(types@) =~= s + implicit_tail(typ@, s));
        }
        types
    }

    /// Order two types, where a type is less than its supertypes.
    pub fn compare_types(&self, a: &str, b: &str) -> (r: std::cmp::Ordering)
        requires
            self.wf(),
        ensures
            r == compare_spec(self@, a@, b@),
    {
        if self.is_subtype(a, b) {
            std::cmp::Ordering::Less
        } else if self.is_subtype(b, a) {
            std::cmp::Ordering::Greater
        } else {
            std::cmp::Ordering::Equal
        }
    }
}

/// Every type is a subtype of itself.
pub proof fn lemma_subtype_reflexive(db: MimeDB, t: Seq<char>)
    ensures
        is_subtype_of(db@, t, t),
{
    lemma_ancestor_self(db@, t);
}

/// Every type that is no inode type is a subtype of the generic binary type.
pub proof fn lemma_binary_supertype(db: MimeDB, t: Seq<char>)
    requires
        !is_inode(t),
    ensures
        is_subtype_of(db@, t, octet_stream()),
{
}

/// Every `text/` type is a subtype of the generic text type, declared
/// parents or none.
pub proof fn lemma_text_supertype(db: MimeDB, t: Seq<char>)
    requires
        is_text(t),
    ensures
        is_subtype_of(db@, t, text_plain()),
{
    lemma_ancestor_self(db@, t);
}

/// An inode type with no declared parents is a subtype of neither the
/// generic text type nor the generic binary type.
pub proof fn lemma_inode_not_subtype(db: MimeDB, t: Seq<char>)
    requires
        is_inode(t),
        parents_of(db@, t).len() == 0,
    ensures
        !is_subtype_of(db@, t, text_plain()),
        !is_subtype_of(db@, t, octet_stream()),
{
    let m = db@;
    reveal_strlit("inode/");
    reveal_strlit("text/");
    reveal_strlit("text/plain");
    reveal_strlit("application/octet-stream");
    assert forall|a: Seq<char>| ancestor(m, t, a) implies a == t by {
        let p = choose|p: Seq<Seq<char>>| is_chain(m, p) && p[0] == t && #[trigger] p.last() == a;
        if p.len() > 1 {
            assert(parents_of(m, p[0]).contains(p[1]));
        }
    }
    assert("inode/"@[0] == 'i');
    assert(t.take(6)[0] == t[0]);
    assert(t[0] == 'i');
    assert(!is_text(t)) by {
        if is_text(t) {
            assert(t.take(5)[0] == 't');
        }
    }
    assert(t != text_plain()) by {
        if t == text_plain() {
            assert(text_plain()[0] == 't');
        }
    }
    assert(t != octet_stream()) by {
        if t == octet_stream() {
            assert(octet_stream()[0] == 'a');
        }
    }
}

} // verus!
