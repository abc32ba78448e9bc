//! Querying a [MimeDB].
use vstd::prelude::*;

use super::{compare_spec, glob_model, is_subtype_of, precedence_sorted, GlobModel, MimeDB, MimeDBModel};
use crate::answer::{definite_answer, Answer, AnswerModel};
use crate::fnmatch::rule_matches;
use crate::names::{octet_stream, zero_size};
use crate::query::{FileKind, FileMetadata, FileQuery};
use crate::record::strings_view;

verus! {

/// Whether a glob rule accepts a file name.
pub open spec fn glob_matches(g: GlobModel, name: Seq<u8>) -> bool {
    rule_matches(g.rule, name, g.case_sensitive)
}

/// The rules of `gs` that accept `name`, in order.
pub open spec fn matching(gs: Seq<GlobModel>, name: Seq<u8>) -> Seq<GlobModel>
    decreases gs.len(),
{
    if gs.len() == 0 {
        seq![]
    } else if glob_matches(gs.last(), name) {
        matching(gs.drop_last(), name).push(gs.last())
    } else {
        matching(gs.drop_last(), name)
    }
}

/// The types of the rules of `gs` with batch `sequence` and weight `weight`, in order.
pub open spec fn in_tier(gs: Seq<GlobModel>, sequence: int, weight: int) -> Seq<Seq<char>>
    decreases gs.len(),
{
    if gs.len() == 0 {
        seq![]
    } else if gs.last().sequence == sequence && gs.last().weight == weight {
        in_tier(gs.drop_last(), sequence, weight).push(gs.last().mimetype)
    } else {
        in_tier(gs.drop_last(), sequence, weight)
    }
}

/// The types of every rule that accepts `name` and shares the batch and
/// weight of the first rule that does, in rule order.
pub open spec fn glob_hits(gs: Seq<GlobModel>, name: Seq<u8>) -> Seq<Seq<char>> {
    let ms = matching(gs, name);
    if ms.len() == 0 {
        seq![]
    } else {
        in_tier(ms, ms[0].sequence, ms[0].weight)
    }
}

/// `a` sorts before `b` when the most general types go first: `b` is a
/// subtype of `a` and not the other way round.
pub open spec fn general_before(m: MimeDBModel, a: Seq<char>, b: Seq<char>) -> bool {
    compare_spec(m, a, b) == std::cmp::Ordering::Greater
}

/// Insert `x` into `s` after the types that do not sort after it, scanning
/// from the end.
pub open spec fn insert_general(m: MimeDBModel, s: Seq<Seq<char>>, x: Seq<char>) -> Seq<Seq<char>>
    decreases s.len(),
{
    if s.len() == 0 || !general_before(m, x, s.last()) {
        s.push(x)
    } else {
        insert_general(m, s.drop_last(), x).push(s.last())
    }
}

/// Insertion sort with the most general types first.
pub open spec fn sort_general(m: MimeDBModel, s: Seq<Seq<char>>) -> Seq<Seq<char>>
    decreases s.len(),
{
    if s.len() == 0 {
        s
    } else {
        insert_general(m, sort_general(m, s.drop_last()), s.last())
    }
}

/// Every type after the first is a subtype of the first.
pub open spec fn all_under_first(m: MimeDBModel, s: Seq<Seq<char>>) -> bool {
    forall|i: int| 1 <= i < s.len() ==> #[trigger] is_subtype_of(m, s[i], s[0])
}

/// The answer for a file name: the glob hits; when there are several, sorted
/// most general first and ambiguous unless all lie under the first.
pub open spec fn filename_answer(m: MimeDBModel, name: Seq<u8>) -> AnswerModel {
    let hits = glob_hits(m.globs, name);
    if hits.len() > 1 {
        let sorted = sort_general(m, hits);
        AnswerModel { types: sorted, ambiguous: !all_under_first(m, sorted) }
    } else {
        AnswerModel { types: hits, ambiguous: false }
    }
}

/// The type of a non-regular file-system entry.
pub open spec fn inode_type(k: FileKind) -> Seq<char> {
    match k {
        FileKind::Directory => "inode/directory"@,
        FileKind::Symlink => "inode/symlink"@,
        FileKind::BlockDevice => "inode/blockdevice"@,
        FileKind::CharDevice => "inode/chardevice"@,
        FileKind::Fifo => "inode/fifo"@,
        FileKind::Socket => "inode/socket"@,
        FileKind::Regular => "application/octet-stream"@,
    }
}

/// The answer for a whole query: metadata naming a special file decides;
/// otherwise the file name's answer, if it has types; otherwise the empty-file
/// type for a file of size zero, and the generic binary type for the rest.
pub open spec fn query_answer(m: MimeDBModel, q: FileQuery) -> AnswerModel {
    if q.metadata is Some && q.metadata->0.kind != FileKind::Regular {
        definite_answer(inode_type(q.metadata->0.kind))
    } else {
        let by_name = match q.filename {
            Some(name) => filename_answer(m, name@),
            None => AnswerModel { types: seq![], ambiguous: false },
        };
        if by_name.types.len() > 0 {
            by_name
        } else if q.metadata is Some && q.metadata->0.size == 0 {
            definite_answer(zero_size())
        } else {
            definite_answer(octet_stream())
        }
    }
}

proof fn lemma_below_tier_stays(gs: Seq<GlobModel>, name: Seq<u8>, i: int, k: int)
    requires
        precedence_sorted(gs),
        0 <= i <= k <= gs.len(),
        i < gs.len(),
        matching(gs.take(i), name).len() > 0,
        ({
            let top = matching(gs.take(i), name)[0];
            gs[i].sequence < top.sequence || (gs[i].sequence == top.sequence && gs[i].weight
                < top.weight)
        }),
    ensures
        matching(gs.take(k), name).len() > 0,
        matching(gs.take(k), name)[0] == matching(gs.take(i), name)[0],
        glob_hits(gs.take(k), name) == glob_hits(gs.take(i), name),
    decreases k - i,
{
    if k > i {
        lemma_below_tier_stays(gs, name, i, k - 1);
        let top = matching(gs.take(i), name)[0];
        assert(gs.take(k).drop_last() =~= gs.take(k - 1));
        assert(gs.take(k).last() == gs[k - 1]);
        if k - 1 > i {
            assert(gs[i].sequence > gs[k - 1].sequence || (gs[i].sequence == gs[k - 1].sequence
                && gs[i].weight >= gs[k - 1].weight));
        }
        let prev = matching(gs.take(k - 1), name);
        if glob_matches(gs[k - 1], name) {
            assert(matching(gs.take(k), name) == prev.push(gs[k - 1]));
            assert(matching(gs.take(k), name)[0] == prev[0]);
            assert(prev.push(gs[k - 1]).drop_last() =~= prev);
            assert(!(gs[k - 1].sequence == top.sequence && gs[k - 1].weight == top.weight));
        } else {
            assert(matching(gs.take(k), name) == prev);
        }
    }
}

proof fn lemma_matching_from(s: Seq<GlobModel>, name: Seq<u8>)
    ensures
        forall|k: int|
            0 <= k < matching(s, name).len() ==> exists|j: int|
                0 <= j < s.len() && s[j] == #[trigger] matching(s, name)[k],
    decreases s.len(),
{
    if s.len() > 0 {
        let init = s.drop_last();
        lemma_matching_from(init, name);
        assert forall|k: int| 0 <= k < matching(s, name).len() implies exists|j: int|
            0 <= j < s.len() && s[j] == #[trigger] matching(s, name)[k] by {
            if k < matching(init, name).len() {
                let j = choose|j: int| 0 <= j < init.len() && init[j] == matching(init, name)[k];
                assert(s[j] == init[j]);
            } else {
                assert(s[s.len() - 1] == matching(s, name)[k]);
            }
        }
    }
}

proof fn lemma_insert_general_at(m: MimeDBModel, s: Seq<Seq<char>>, x: Seq<char>, j: int)
    requires
        0 <= j <= s.len(),
        j == 0 || !general_before(m, x, s[j - 1]),
        forall|k: int| j <= k < s.len() ==> general_before(m, x, #[trigger] s[k]),
    ensures
        insert_general(m, s, x) == s.insert(j, x),
    decreases s.len() - j,
{
    if j == s.len() {
        assert(s.push(x) =~= s.insert(j, x));
    } else {
        let init = s.drop_last();
        assert(general_before(m, x, s[s.len() - 1]));
        lemma_insert_general_at(m, init, x, j);
        assert(init.insert(j, x).push(s.last()) =~= s.insert(j, x));
    }
}

impl MimeDB {
    fn general_before(&self, a: &String, b: &String) -> (r: bool)
        requires
            self.wf(),
        ensures
            r == general_before(self@, a@, b@),
    {
        match self.compare_types(a.as_str(), b.as_str()) {
            std::cmp::Ordering::Greater => true,
            _ => false,
        }
    }

    /// The types of the top tier of rules accepting `name`.
    fn glob_hits(&self, name: &[u8]) -> (r: Vec<String>)
        requires
            self.wf(),
        ensures
            strings_view(r@) == glob_hits(self@.globs, name@),
    {
        let ghost gs = self@.globs;
        let n = self.globs.len();
        let mut has_tier = false;
        let mut tier_seq: i32 = 0;
        let mut tier_weight: i32 = 0;
        let mut hits: Vec<String> = Vec::new();
        let mut i: usize = 0;
        assert(gs.take(0) =~= Seq::<GlobModel>::empty());
        assert(gs.take(n as int) =~= gs);
        assert(strings_view(hits@) =~= Seq::<Seq<char>>::empty());
        while i < n
            invariant
                self.wf(),
                gs == self@.globs,
                n == gs.len(),
                gs.take(n as int) == gs,
                i <= n,
                !has_tier <==> matching(gs.take(i as int), name@).len() == 0,
                has_tier ==> tier_seq == matching(gs.take(i as int), name@)[0].sequence
                    && tier_weight == matching(gs.take(i as int), name@)[0].weight,
                strings_view(hits@) == glob_hits(gs.take(i as int), name@),
            ensures
                strings_view(hits@) == glob_hits(gs, name@),
            decreases n - i,
        {
            let g = &self.globs[i];
            assert(glob_model(*g) == gs[i as int]);
            if has_tier {
                if tier_seq > g.sequence || tier_weight > g.weight {
                    proof {
                        let ms = matching(gs.take(i as int), name@);
                        lemma_matching_from(gs.take(i as int), name@);
                        let j = choose|j: int| 0 <= j < i && gs.take(i as int)[j] == #[trigger] ms[0];
                        assert(gs[j] == ms[0]);
                        lemma_below_tier_stays(gs, name@, i as int, n as int);
                        assert(gs.take(n as int) =~= gs);
                    }
                    break ;
                }
            }
            let ghost prev = matching(gs.take(i as int), name@);
            assert(gs.take(i + 1).drop_last() =~= gs.take(i as int));
            assert(gs.take(i + 1).last() == gs[i as int]);
            if g.matcher.matches(name) {
                let ghost hv = strings_view(hits@);
                let ghost ms = prev.push(gs[i as int]);
                assert(matching(gs.take(i + 1), name@) == ms);
                assert(ms.drop_last() =~= prev);
                if !has_tier {
                    hits.push(g.mimetype.clone());
                    has_tier = true;
                    tier_seq = g.sequence;
                    tier_weight = g.weight;
                    assert(ms[0] == gs[i as int]);
                    assert(prev =~= Seq::<GlobModel>::empty());
                    assert(in_tier(ms, gs[i as int].sequence, gs[i as int].weight) == in_tier(
                        prev,
                        gs[i as int].sequence,
                        gs[i as int].weight,
                    ).push(gs[i as int].mimetype));
                    assert(strings_view(hits@) =~= seq![gs[i as int].mimetype]);
                } else {
                    assert(ms[0] == prev[0]);
                    proof {
                        lemma_matching_from(gs.take(i as int), name@);
                        let j = choose|j: int|
                            0 <= j < i && gs.take(i as int)[j] == #[trigger] prev[0];
                        assert(gs[j] == prev[0]);
                    }
                    hits.push(g.mimetype.clone());
                    assert(strings_view(hits@) =~= hv.push(gs[i as int].mimetype));
                }
            } else {
                assert(matching(gs.take(i + 1), name@) == prev);
            }
            i += 1;
        }
        hits
    }

    /// Look up MIME type information based only on a file name.
    pub fn query_filename(&self, name: &[u8]) -> (a: Answer)
        requires
            self.wf(),
        ensures
            a@ == filename_answer(self@, name@),
    {
        let hits = self.glob_hits(name);
        let ghost hv = strings_view(hits@);
        if hits.len() <= 1 {
            return Answer::new(hits, false);
        }
        let ghost m = self@;
        // put the most general type first
        let mut sorted: Vec<String> = Vec::new();
        let n = hits.len();
        let mut i: usize = 0;
        assert(hv.take(0) =~= Seq::<Seq<char>>::empty());
        assert(strings_view(sorted@) =~= Seq::<Seq<char>>::empty());
        while i < n
            invariant
                self.wf(),
                m == self@,
                n == hits@.len(),
                hv == strings_view(hits@),
                i <= n,
                sorted@.len() == i,
                strings_view(sorted@) == sort_general(m, hv.take(i as int)),
            decreases n - i,
        {
            let x = hits[i].clone();
            let ghost sv = strings_view(sorted@);
            let mut j = sorted.len();
            while j > 0 && self.general_before(&x, &sorted[j - 1])
                invariant
                    self.wf(),
                    m == self@,
                    j <= sorted@.len(),
                    sorted@.len() == i,
                    sv == strings_view(sorted@),
                    forall|k: int| j <= k < sv.len() ==> general_before(m, x@, #[trigger] sv[k]),
                decreases j,
            {
                j -= 1;
            }
            proof {
                lemma_insert_general_at(m, sv, x@, j as int);
                assert(hv.take(i + 1).drop_last() =~= hv.take(i as int));
                assert(hv.take(i + 1).last() == x@);
            }
            sorted.insert(j, x);
            assert(strings_view(sorted@) =~= sv.insert(j as int, x@));
            i += 1;
        }
        assert(hv.take(n as int) =~= hv);
        let ghost sv = strings_view(sorted@);
        let mut ambiguous = false;
        let mut k: usize = 1;
        while k < sorted.len()
            invariant_except_break
                !ambiguous,
            invariant
                self.wf(),
                m == self@,
                sv == strings_view(sorted@),
                1 <= k <= sorted@.len(),
                sorted@.len() > 1,
                forall|t: int| 1 <= t < k ==> #[trigger] is_subtype_of(m, sv[t], sv[0]),
            ensures
                ambiguous == !all_under_first(m, sv),
            decreases sorted@.len() - k,
        {
            if !self.is_subtype(sorted[k].as_str(), sorted[0].as_str()) {
                assert(!is_subtype_of(m, sv[k as int], sv[0]));
                ambiguous = true;
                break ;
            }
            k += 1;
        }
        Answer::new(sorted, ambiguous)
    }

    /// Look up MIME type information based only on a file name.
    pub fn match_filename(&self, name: &[u8]) -> (a: Answer)
        requires
            self.wf(),
        ensures
            a@ == filename_answer(self@, name@),
    {
        self.query_filename(name)
    }

    /// Use metadata to detect file types: the `inode/` types, or the generic
    /// binary type for a regular file.
    pub fn query_meta(&self, meta: &FileMetadata) -> (a: Answer)
        ensures
            a@ == definite_answer(inode_type(meta.kind)),
    {
        Answer::definite(type_for_kind(meta.kind))
    }

    /// Query the MIME database.
    pub fn query(&self, query: &FileQuery) -> (r: Result<Answer, crate::error::QueryError>)
        requires
            self.wf(),
        ensures
            r is Ok && r->Ok_0@ == query_answer(self@, *query),
    {
        // first step: check for special files, if we have metadata
        let mut size: Option<u64> = None;
        if let Some(meta) = &query.metadata {
            match meta.kind {
                FileKind::Regular => {
                    size = Some(meta.size);
                },
                _ => {
                    return Ok(Answer::definite(type_for_kind(meta.kind)));
                },
            }
        }
        // next step: look up based on file name
        let mut ans = Answer::unknown();
        if let Some(name) = &query.filename {
            ans = self.query_filename(name.as_slice());
        }
        if ans.is_unknown() && size == Some(0u64) {
            ans = Answer::definite("application/x-zerosize");
        }
        if ans.is_unknown() {
            ans = Answer::definite("application/octet-stream");
        }
        Ok(ans)
    }
}

/// The type of a file-system entry of kind `k`.
fn type_for_kind(k: FileKind) -> (r: &'static str)
    ensures
        r@ == inode_type(k),
{
    match k {
        FileKind::Directory => "inode/directory",
        FileKind::Symlink => "inode/symlink",
        FileKind::BlockDevice => "inode/blockdevice",
        FileKind::CharDevice => "inode/chardevice",
        FileKind::Fifo => "inode/fifo",
        FileKind::Socket => "inode/socket",
        FileKind::Regular => "application/octet-stream",
    }
}

/// Metadata naming a directory decides the answer, whatever the file name.
pub proof fn lemma_directory_decides(db: MimeDB, q: FileQuery)
    requires
        q.metadata is Some,
        q.metadata->0.kind == FileKind::Directory,
    ensures
        query_answer(db@, q) == definite_answer("inode/directory"@),
{
}

/// An empty regular file whose name no glob accepts is the empty-file type.
pub proof fn lemma_empty_file_answer(db: MimeDB, q: FileQuery)
    requires
        q.metadata == Some(FileMetadata { size: 0, kind: FileKind::Regular }),
        q.filename is Some,
        matching(db@.globs, q.filename->0@).len() == 0,
    ensures
        query_answer(db@, q) == definite_answer(zero_size()),
{
}

} // verus!
