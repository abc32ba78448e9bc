//! Glob-based filename matching.
//!
//! This is like `fnmatch`, matching glob patterns against final file names
//! (a `/` is an ordinary byte here).  Case-insensitive matching folds ASCII
//! letters only; every other byte is compared verbatim.
use vstd::prelude::*;
use vstd::utf8::encode_utf8;

verus! {

/// Single elements of a compiled pattern.
#[derive(Debug, Clone, PartialEq, Eq, Hash)]
pub enum MatchElement {
    Star,
    Wildcard,
    Range(u8, u8),
    Literal(Vec<u8>),
}

/// A match rule for matching files.
#[derive(Debug, Clone, PartialEq, Eq, Hash)]
pub enum MatchRule {
    Literal(Vec<u8>),
    Suffix(Vec<u8>),
    Pattern(Vec<MatchElement>),
}

/// Match files against a pattern.
#[derive(Debug, Clone, PartialEq, Eq, Hash)]
pub struct FileMatcher {
    pub rule: MatchRule,
    pub case_sensitive: bool,
}

/// Mathematical value of a [MatchElement].
pub enum ElementModel {
    Star,
    Wildcard,
    Range(u8, u8),
    Literal(Seq<u8>),
}

/// Mathematical value of a [MatchRule].
pub enum RuleModel {
    Literal(Seq<u8>),
    Suffix(Seq<u8>),
    Pattern(Seq<ElementModel>),
}

impl View for MatchElement {
    type V = ElementModel;

    open spec fn view(&self) -> ElementModel {
        match self {
            MatchElement::Star => ElementModel::Star,
            MatchElement::Wildcard => ElementModel::Wildcard,
            MatchElement::Range(lo, hi) => ElementModel::Range(*lo, *hi),
            MatchElement::Literal(lit) => ElementModel::Literal(lit@),
        }
    }
}

impl View for MatchRule {
    type V = RuleModel;

    open spec fn view(&self) -> RuleModel {
        match self {
            MatchRule::Literal(lit) => RuleModel::Literal(lit@),
            MatchRule::Suffix(sfx) => RuleModel::Suffix(sfx@),
            MatchRule::Pattern(pat) => RuleModel::Pattern(elements_view(pat@)),
        }
    }
}

/// The models of a sequence of elements.
pub open spec fn elements_view(s: Seq<MatchElement>) -> Seq<ElementModel> {
    s.map_values(|e: MatchElement| e@)
}

/// ASCII lower-casing of one byte.
pub open spec fn fold_byte(b: u8) -> u8 {
    if 65 <= b <= 90 {
        (b + 32) as u8
    } else {
        b
    }
}

/// Two bytes are equal, under ASCII case folding unless `cs`.
pub open spec fn byte_eq(a: u8, b: u8, cs: bool) -> bool {
    if cs {
        a == b
    } else {
        fold_byte(a) == fold_byte(b)
    }
}

/// Two byte strings are equal, under ASCII case folding unless `cs`.
pub open spec fn bytes_eq(a: Seq<u8>, b: Seq<u8>, cs: bool) -> bool {
    &&& a.len() == b.len()
    &&& forall|i: int| 0 <= i < a.len() ==> byte_eq(#[trigger] a[i], b[i], cs)
}

/// A byte lies in the inclusive range `lo..=hi`, with all three folded unless `cs`.
pub open spec fn in_range(b: u8, lo: u8, hi: u8, cs: bool) -> bool {
    if cs {
        lo <= b <= hi
    } else {
        fold_byte(lo) <= fold_byte(b) <= fold_byte(hi)
    }
}

/// Whether an element sequence matches the whole of `path`.
///
/// A star takes any run of bytes, from none to the whole rest of `path`,
/// and the elements after it must match what it leaves.
pub open spec fn elements_match(pat: Seq<ElementModel>, path: Seq<u8>, cs: bool) -> bool
    decreases pat.len(), 0int,
{
    if pat.len() == 0 {
        path.len() == 0
    } else {
        let rest = pat.drop_first();
        match pat[0] {
            ElementModel::Star => rest.len() == 0 || star_match(rest, path, (path.len() + 1) as nat, cs),
            ElementModel::Wildcard => path.len() >= 1 && elements_match(rest, path.skip(1), cs),
            ElementModel::Range(lo, hi) => {
                &&& path.len() >= 1
                &&& in_range(path[0], lo, hi, cs)
                &&& elements_match(rest, path.skip(1), cs)
            },
            ElementModel::Literal(lit) => {
                &&& lit.len() <= path.len()
                &&& bytes_eq(lit, path.take(lit.len() as int), cs)
                &&& elements_match(rest, path.skip(lit.len() as int), cs)
            },
        }
    }
}

/// Whether `rest` matches what is left of `path` once a run of fewer than
/// `n` bytes is dropped from its front, the dropped run being what a star
/// takes.
pub open spec fn star_match(rest: Seq<ElementModel>, path: Seq<u8>, n: nat, cs: bool) -> bool
    decreases rest.len(), n,
{
    n > 0 && (elements_match(rest, path.skip(n - 1), cs) || star_match(
        rest,
        path,
        (n - 1) as nat,
        cs,
    ))
}

proof fn lemma_star_match_grows(rest: Seq<ElementModel>, path: Seq<u8>, a: nat, b: nat, cs: bool)
    requires
        a <= b,
        star_match(rest, path, a, cs),
    ensures
        star_match(rest, path, b, cs),
    decreases b - a,
{
    if a < b {
        lemma_star_match_grows(rest, path, a, (b - 1) as nat, cs);
    }
}

/// Whether a rule matches `path`.
pub open spec fn rule_matches(rule: RuleModel, path: Seq<u8>, cs: bool) -> bool {
    match rule {
        RuleModel::Literal(lit) => bytes_eq(lit, path, cs),
        RuleModel::Suffix(sfx) => sfx.len() <= path.len() && bytes_eq(
            sfx,
            path.skip(path.len() - sfx.len()),
            cs,
        ),
        RuleModel::Pattern(pat) => elements_match(pat, path, cs),
    }
}

/// `[x-y]` starts at `pos`: exactly five bytes, the third `-` and the fifth `]`.
pub open spec fn range_at(p: Seq<u8>, pos: int) -> bool {
    &&& p.len() > pos + 4
    &&& p[pos] == 91
    &&& p[pos + 2] == 45
    &&& p[pos + 4] == 93
}

/// Put literal bytes `cur` in front of `rest`, joining them to a leading literal.
pub open spec fn prepend_literal(cur: Seq<u8>, rest: Seq<ElementModel>) -> Seq<ElementModel> {
    if cur.len() == 0 {
        rest
    } else if rest.len() > 0 && rest[0] is Literal {
        seq![ElementModel::Literal(cur + rest[0]->Literal_0)] + rest.drop_first()
    } else {
        seq![ElementModel::Literal(cur)] + rest
    }
}

/// The elements a pattern compiles to: `*` is a star, `?` a wildcard,
/// `[x-y]` a range, and every run of other bytes one literal.
pub open spec fn pattern_elements(p: Seq<u8>) -> Seq<ElementModel>
    decreases p.len(),
{
    if p.len() == 0 {
        seq![]
    } else if p[0] == 42 {
        seq![ElementModel::Star] + pattern_elements(p.skip(1))
    } else if p[0] == 63 {
        seq![ElementModel::Wildcard] + pattern_elements(p.skip(1))
    } else if range_at(p, 0) {
        seq![ElementModel::Range(p[1], p[3])] + pattern_elements(p.skip(5))
    } else {
        prepend_literal(seq![p[0]], pattern_elements(p.skip(1)))
    }
}

/// The rule for compiled elements: a lone literal compares whole names, a
/// star and a literal compare suffixes, anything else stays a pattern.
pub open spec fn rule_for(elts: Seq<ElementModel>) -> RuleModel {
    if elts.len() == 1 && elts[0] is Literal {
        RuleModel::Literal(elts[0]->Literal_0)
    } else if elts.len() == 2 && elts[0] is Star && elts[1] is Literal {
        RuleModel::Suffix(elts[1]->Literal_0)
    } else {
        RuleModel::Pattern(elts)
    }
}

/// The rule the bytes of a pattern compile to.
pub open spec fn compiled_rule(pattern: Seq<u8>) -> RuleModel {
    rule_for(pattern_elements(pattern))
}

/// The rule a pattern string compiles to, from its UTF-8 bytes.
pub open spec fn pattern_rule(pattern: Seq<char>) -> RuleModel {
    compiled_rule(encode_utf8(pattern))
}

proof fn lemma_prepend_byte(cur: Seq<u8>, c: u8, rest: Seq<ElementModel>)
    ensures
        prepend_literal(cur, prepend_literal(seq![c], rest)) == prepend_literal(cur.push(c), rest),
{
    if rest.len() > 0 && rest[0] is Literal {
        let lit = rest[0]->Literal_0;
        assert(cur + (seq![c] + lit) =~= cur.push(c) + lit);
        assert(seq![ElementModel::Literal(seq![c] + lit)].add(rest.drop_first()).drop_first()
            =~= rest.drop_first());
    } else {
        assert(seq![ElementModel::Literal(seq![c])].add(rest).drop_first() =~= rest);
        assert(cur + seq![c] =~= cur.push(c));
    }
}

/// Every literal a pattern compiles to holds at least one byte.
proof fn lemma_literals_nonempty(p: Seq<u8>)
    ensures
        forall|k: int|
            0 <= k < pattern_elements(p).len() && #[trigger] pattern_elements(p)[k] is Literal
                ==> pattern_elements(p)[k]->Literal_0.len() > 0,
    decreases p.len(),
{
    if p.len() > 0 {
        if p[0] == 42 || p[0] == 63 {
            lemma_literals_nonempty(p.skip(1));
            let r = pattern_elements(p.skip(1));
            assert forall|k: int|
                0 <= k < pattern_elements(p).len() && #[trigger] pattern_elements(p)[k] is Literal
                    implies pattern_elements(p)[k]->Literal_0.len() > 0 by {
                assert(pattern_elements(p)[k] == r[k - 1]);
            }
        } else if range_at(p, 0) {
            lemma_literals_nonempty(p.skip(5));
            let r = pattern_elements(p.skip(5));
            assert forall|k: int|
                0 <= k < pattern_elements(p).len() && #[trigger] pattern_elements(p)[k] is Literal
                    implies pattern_elements(p)[k]->Literal_0.len() > 0 by {
                assert(pattern_elements(p)[k] == r[k - 1]);
            }
        } else {
            lemma_literals_nonempty(p.skip(1));
            let r = pattern_elements(p.skip(1));
            assert forall|k: int|
                0 <= k < pattern_elements(p).len() && #[trigger] pattern_elements(p)[k] is Literal
                    implies pattern_elements(p)[k]->Literal_0.len() > 0 by {
                if k > 0 {
                    if r.len() > 0 && r[0] is Literal {
                        assert(pattern_elements(p)[k] == r[k]);
                    } else {
                        assert(pattern_elements(p)[k] == r[k - 1]);
                    }
                }
            }
        }
    }
}

proof fn lemma_single_literal(lit: Seq<u8>, path: Seq<u8>, cs: bool)
    ensures
        elements_match(seq![ElementModel::Literal(lit)], path, cs) == bytes_eq(lit, path, cs),
{
    let pat = seq![ElementModel::Literal(lit)];
    assert(pat.drop_first() =~= Seq::<ElementModel>::empty());
    assert(pat[0] == ElementModel::Literal(lit));
    if lit.len() <= path.len() {
        assert(elements_match(pat.drop_first(), path.skip(lit.len() as int), cs) == (path.skip(
            lit.len() as int,
        ).len() == 0));
    }
    if lit.len() == path.len() {
        assert(path.take(lit.len() as int) =~= path);
    }
}

proof fn lemma_star_literal(lit: Seq<u8>, path: Seq<u8>, n: nat, cs: bool)
    requires
        n <= path.len() + 1,
    ensures
        star_match(seq![ElementModel::Literal(lit)], path, n, cs) == exists|i: int|
            0 <= i < n && #[trigger] bytes_eq(lit, path.skip(i), cs),
    decreases n,
{
    if n > 0 {
        lemma_star_literal(lit, path, (n - 1) as nat, cs);
        lemma_single_literal(lit, path.skip(n - 1), cs);
    }
}

/// Compiling a pattern to a whole-name literal or a suffix rule changes
/// nothing: the rule accepts exactly the names its element list accepts.
pub proof fn lemma_compiled_rule_matches(pattern: Seq<u8>, path: Seq<u8>, cs: bool)
    ensures
        rule_matches(compiled_rule(pattern), path, cs) == elements_match(
            pattern_elements(pattern),
            path,
            cs,
        ),
{
    let elts = pattern_elements(pattern);
    lemma_literals_nonempty(pattern);
    if elts.len() == 1 && elts[0] is Literal {
        assert(elts =~= seq![ElementModel::Literal(elts[0]->Literal_0)]);
        lemma_single_literal(elts[0]->Literal_0, path, cs);
    } else if elts.len() == 2 && elts[0] is Star && elts[1] is Literal {
        let sfx = elts[1]->Literal_0;
        let rest = elts.drop_first();
        assert(rest =~= seq![ElementModel::Literal(sfx)]);
        lemma_star_literal(sfx, path, (path.len() + 1) as nat, cs);
        if sfx.len() <= path.len() && bytes_eq(sfx, path.skip(path.len() - sfx.len()), cs) {
            assert(bytes_eq(sfx, path.skip(path.len() - sfx.len()), cs));
        }
        if exists|i: int| 0 <= i < path.len() + 1 && #[trigger] bytes_eq(sfx, path.skip(i), cs) {
            let i = choose|i: int| 0 <= i < path.len() + 1 && #[trigger] bytes_eq(sfx, path.skip(i), cs);
            assert(i == path.len() - sfx.len());
        }
    }
}

/// ASCII lower-casing of one byte.
fn fold(b: u8) -> (r: u8)
    ensures
        r == fold_byte(b),
{
    if 65 <= b && b <= 90 {
        b + 32
    } else {
        b
    }
}

fn same_byte(a: u8, b: u8, cs: bool) -> (r: bool)
    ensures
        r == byte_eq(a, b, cs),
{
    if cs {
        a == b
    } else {
        fold(a) == fold(b)
    }
}

/// Compare `lit` with `path[start..start + lit.len()]`.
fn literal_at(lit: &[u8], path: &[u8], start: usize, cs: bool) -> (r: bool)
    requires
        start + lit@.len() <= path@.len(),
    ensures
        r == bytes_eq(lit@, path@.subrange(start as int, start + lit@.len()), cs),
{
    let n = lit.len();
    let plen = path.len();
    let mut j: usize = 0;
    while j < n
        invariant
            n == lit@.len(),
            plen == path@.len(),
            start + n <= path@.len(),
            j <= n,
            forall|t: int| 0 <= t < j ==> byte_eq(lit@[t], path@[start + t], cs),
        decreases n - j,
    {
        if !same_byte(lit[j], path[start + j], cs) {
            assert(path@.subrange(start as int, start + n)[j as int] == path@[start + j]);
            return false;
        }
        j += 1;
    }
    true
}

/// Match `pat[pi..]` against `path[si..]`.
fn match_from(pat: &[MatchElement], pi: usize, path: &[u8], si: usize, cs: bool) -> (r: bool)
    requires
        pi <= pat@.len(),
        si <= path@.len(),
    ensures
        r == elements_match(elements_view(pat@).skip(pi as int), path@.skip(si as int), cs),
    decreases pat@.len() - pi,
{
    let ghost ep = elements_view(pat@).skip(pi as int);
    let ghost sp = path@.skip(si as int);
    if pi == pat.len() {
        return si == path.len();
    }
    let ghost rest = elements_view(pat@).skip(pi + 1);
    assert(ep.drop_first() =~= rest);
    assert(ep[0] == pat@[pi as int]@);
    match &pat[pi] {
        MatchElement::Star => {
            let next = pi + 1;
            if next == pat.len() {
                return true;
            }
            let mut i: usize = si;
            loop
                invariant
                    si <= i <= path@.len(),
                    next == pi + 1,
                    next < pat@.len(),
                    ep.len() == pat@.len() - pi,
                    ep == elements_view(pat@).skip(pi as int),
                    ep[0] is Star,
                    ep.drop_first() == rest,
                    rest == elements_view(pat@).skip(pi + 1),
                    sp == path@.skip(si as int),
                    !star_match(rest, sp, (i - si) as nat, cs),
                decreases path@.len() - i,
            {
                assert(sp.skip(i - si) =~= path@.skip(i as int));
                if match_from(pat, next, path, i, cs) {
                    proof {
                        assert(star_match(rest, sp, (i - si + 1) as nat, cs));
                        lemma_star_match_grows(rest, sp, (i - si + 1) as nat, (sp.len() + 1) as nat, cs);
                    }
                    return true;
                }
                if i == path.len() {
                    assert(!star_match(rest, sp, (sp.len() + 1) as nat, cs));
                    return false;
                }
                i += 1;
            }
        },
        MatchElement::Wildcard => {
            if si < path.len() {
                assert(sp.skip(1) =~= path@.skip(si + 1));
                match_from(pat, pi + 1, path, si + 1, cs)
            } else {
                false
            }
        },
        MatchElement::Range(lo, hi) => {
            if si < path.len() {
                let b = path[si];
                let inside = if cs {
                    *lo <= b && b <= *hi
                } else {
                    fold(*lo) <= fold(b) && fold(b) <= fold(*hi)
                };
                assert(sp.skip(1) =~= path@.skip(si + 1));
                inside && match_from(pat, pi + 1, path, si + 1, cs)
            } else {
                false
            }
        },
        MatchElement::Literal(lit) => {
            let n = lit.len();
            if n <= path.len() - si {
                assert(sp.take(n as int) =~= path@.subrange(si as int, si + n));
                assert(sp.skip(n as int) =~= path@.skip(si + n));
                literal_at(lit.as_slice(), path, si, cs) && match_from(pat, pi + 1, path, si + n, cs)
            } else {
                false
            }
        },
    }
}

/// Match a sequence of elements against a whole name, folding ASCII case.
pub fn seq_matches(pat: &[MatchElement], path: &[u8]) -> (r: bool)
    ensures
        r == elements_match(elements_view(pat@), path@, false),
{
    assert(elements_view(pat@).skip(0) =~= elements_view(pat@));
    assert(path@.skip(0) =~= path@);
    match_from(pat, 0, path, 0, false)
}

/// Match a sequence of elements against a whole name, comparing bytes exactly.
pub fn seq_matches_with_case(pat: &[MatchElement], path: &[u8]) -> (r: bool)
    ensures
        r == elements_match(elements_view(pat@), path@, true),
{
    assert(elements_view(pat@).skip(0) =~= elements_view(pat@));
    assert(path@.skip(0) =~= path@);
    match_from(pat, 0, path, 0, true)
}

/// Move a pending literal run, if there is one, to the element list.
pub fn maybe_push_literal(elts: &mut Vec<MatchElement>, current: &mut Vec<u8>, n: usize)
    ensures
        old(current)@.len() > 0 ==> final(elts)@ == old(elts)@.push(
            MatchElement::Literal(*old(current)),
        ),
        old(current)@.len() == 0 ==> final(elts)@ == old(elts)@,
        final(current)@.len() == 0,
{
    if current.len() > 0 {
        let mut lit: Vec<u8> = Vec::with_capacity(n);
        std::mem::swap(current, &mut lit);
        elts.push(MatchElement::Literal(lit));
    }
}

/// Compile a pattern into its elements.
pub fn parse_pattern(pattern: &[u8]) -> (elts: Vec<MatchElement>)
    ensures
        elements_view(elts@) == pattern_elements(pattern@),
{
    let n = pattern.len();
    let mut elts: Vec<MatchElement> = Vec::new();
    let mut current: Vec<u8> = Vec::with_capacity(n);
    let mut pos: usize = 0;
    assert(pattern@.skip(0) =~= pattern@);
    while pos < n
        invariant
            n == pattern@.len(),
            pos <= n,
            pattern_elements(pattern@) == elements_view(elts@) + prepend_literal(
                current@,
                pattern_elements(pattern@.skip(pos as int)),
            ),
        decreases n - pos,
    {
        let ghost p = pattern@.skip(pos as int);
        let ghost before = elements_view(elts@);
        let c = pattern[pos];
        if c == 42 || c == 63 || (n - pos > 4 && pattern[pos + 2] == 45 && pattern[pos + 4] == 93
            && c == 91) {
            let ghost cur = current@;
            let elt = if c == 42 {
                assert(p.skip(1) =~= pattern@.skip(pos + 1));
                MatchElement::Star
            } else if c == 63 {
                assert(p.skip(1) =~= pattern@.skip(pos + 1));
                MatchElement::Wildcard
            } else {
                let start = pattern[pos + 1];
                let end = pattern[pos + 3];
                assert(p.skip(5) =~= pattern@.skip(pos + 5));
                pos += 4;
                MatchElement::Range(start, end)
            };
            let ghost r = pattern_elements(pattern@.skip(pos + 1));
            assert(pattern_elements(p) == seq![elt@] + r);
            maybe_push_literal(&mut elts, &mut current, n - pos);
            elts.push(elt);
            proof {
                if cur.len() > 0 {
                    assert(prepend_literal(cur, seq![elt@] + r) == seq![ElementModel::Literal(cur)] + (
                    seq![elt@] + r));
                }
            }
            assert(elements_view(elts@) =~= if cur.len() > 0 {
                before + seq![ElementModel::Literal(cur)] + seq![elt@]
            } else {
                before + seq![elt@]
            });
            assert(pattern_elements(pattern@) =~= elements_view(elts@) + prepend_literal(
                current@,
                r,
            ));
        } else {
            assert(p.skip(1) =~= pattern@.skip(pos + 1));
            assert(!range_at(p, 0));
            proof {
                lemma_prepend_byte(current@, c, pattern_elements(pattern@.skip(pos + 1)));
            }
            current.push(c);
        }
        pos += 1;
    }
    let ghost fin = current@;
    assert(pattern@.skip(n as int) =~= Seq::<u8>::empty());
    maybe_push_literal(&mut elts, &mut current, 0);
    proof {
        if fin.len() > 0 {
            assert(elements_view(elts@) =~= elements_view(elts@).drop_last().push(
                ElementModel::Literal(fin),
            ));
        }
    }
    assert(elements_view(elts@) =~= pattern_elements(pattern@));
    elts
}

impl MatchRule {
    /// Compile a pattern string into a rule.
    pub fn compile(pattern: &str) -> (r: MatchRule)
        ensures
            r@ == pattern_rule(pattern@),
    {
        let elts = parse_pattern(pattern.as_bytes());
        let ghost ev = elements_view(elts@);
        if elts.len() == 1 {
            if let MatchElement::Literal(lit) = &elts[0] {
                return MatchRule::Literal(lit.clone());
            }
        } else if elts.len() == 2 {
            if let (MatchElement::Star, MatchElement::Literal(sfx)) = (&elts[0], &elts[1]) {
                return MatchRule::Suffix(sfx.clone());
            }
        }
        proof {
            if elts@.len() > 0 {
                assert(ev[0] == elts@[0]@);
            }
            if elts@.len() == 2 {
                assert(ev[1] == elts@[1]@);
            }
        }
        MatchRule::Pattern(elts)
    }

    /// Match a file name, folding ASCII case.
    pub fn matches(&self, path: &[u8]) -> (r: bool)
        ensures
            r == rule_matches(self@, path@, false),
    {
        self.matches_case(path, false)
    }

    /// Match a file name, comparing bytes exactly.
    pub fn matches_with_case(&self, path: &[u8]) -> (r: bool)
        ensures
            r == rule_matches(self@, path@, true),
    {
        self.matches_case(path, true)
    }

    fn matches_case(&self, path: &[u8], cs: bool) -> (r: bool)
        ensures
            r == rule_matches(self@, path@, cs),
    {
        match self {
            MatchRule::Literal(lit) => {
                if lit.len() == path.len() {
                    assert(path@.subrange(0, path@.len() as int) =~= path@);
                    literal_at(lit.as_slice(), path, 0, cs)
                } else {
                    false
                }
            },
            MatchRule::Suffix(sfx) => {
                if sfx.len() <= path.len() {
                    let start = path.len() - sfx.len();
                    assert(path@.subrange(start as int, path@.len() as int) =~= path@.skip(
                        start as int,
                    ));
                    literal_at(sfx.as_slice(), path, start, cs)
                } else {
                    false
                }
            },
            MatchRule::Pattern(pat) => {
                if cs {
                    seq_matches_with_case(pat.as_slice(), path)
                } else {
                    seq_matches(pat.as_slice(), path)
                }
            },
        }
    }
}

impl FileMatcher {
    /// Compile a pattern into a case-insensitive matcher.
    pub fn new(pattern: &str) -> (m: FileMatcher)
        ensures
            m.rule@ == pattern_rule(pattern@),
            !m.case_sensitive,
    {
        FileMatcher { rule: MatchRule::compile(pattern), case_sensitive: false }
    }

    /// The same matcher, comparing bytes exactly.
    pub fn case_sensitive(self) -> (m: FileMatcher)
        ensures
            m.rule == self.rule,
            m.case_sensitive,
    {
        FileMatcher { rule: self.rule, case_sensitive: true }
    }

    /// Whether this matcher accepts a file name.
    pub fn matches(&self, path: &[u8]) -> (r: bool)
        ensures
            r == rule_matches(self.rule@, path@, self.case_sensitive),
    {
        if self.case_sensitive {
            self.rule.matches_with_case(path)
        } else {
            self.rule.matches(path)
        }
    }
}

} // verus!
