//! Shared MIME info package data, as parsed from package files, and its
//! conversion into type records.
use vstd::prelude::*;

use crate::record::{opt_string_view, strings_view, GlobRule, MimeTypeRecord};

verus! {

/// A parsed shared MIME info package.
#[derive(Debug, Clone)]
pub struct MimeInfoPackage {
    pub types: Vec<MimeType>,
}

/// Single MIME type definition from a package.
#[derive(Debug, Clone)]
pub struct MimeType {
    pub name: String,
    pub elements: Vec<MimeTypeElement>,
}

/// Element in a MIME definition.
#[derive(Debug, Clone)]
pub enum MimeTypeElement {
    Comment(CommentElement),
    Glob(GlobElement),
    SubClassOf(TypeRefElement),
    Alias(TypeRefElement),
    Acronym(String),
    ExpandedAcronym(String),
    GenericIcon,
    Magic,
    Treemagic,
    RootXML,
}

/// Comment (description) from the MIME database.
#[derive(Debug, Clone)]
pub struct CommentElement {
    pub lang: Option<String>,
    pub value: String,
}

/// Glob element.
#[derive(Debug, Clone)]
pub struct GlobElement {
    pub pattern: String,
    pub weight: Option<i32>,
    pub case_sensitive: bool,
}

/// Element that references another type.
#[derive(Debug, Clone)]
pub struct TypeRefElement {
    pub mimetype: String,
}

/// A single package within the shared MIME database.
#[derive(Debug, Clone)]
pub struct SMIPackage {
    pub filename: String,
    pub types: Vec<MimeTypeRecord>,
}

/// A single directory in the shared MIME database.
#[derive(Debug, Clone)]
pub struct SMIDir {
    pub path: String,
    pub packages: Vec<SMIPackage>,
}

/// Container for the fully-parsed shared MIME info across search directories.
#[derive(Debug, Clone)]
pub struct SharedMimeInfo {
    /// The directories in processing order.
    pub directories: Vec<SMIDir>,
}

/// The weight of a glob that states none.
pub const DEFAULT_WEIGHT: i32 = 50;

/// A comment that describes the type: one with no language, or in English.
pub open spec fn is_description(e: MimeTypeElement) -> bool {
    e matches MimeTypeElement::Comment(c) && (c.lang is None || c.lang->0@ == "en"@)
}

/// The value of the first describing comment at or after `i`.
pub open spec fn description_from(es: Seq<MimeTypeElement>, i: int) -> Option<Seq<char>>
    decreases es.len() - i,
{
    if i < 0 || i >= es.len() {
        None
    } else if is_description(es[i]) {
        Some(es[i]->Comment_0.value@)
    } else {
        description_from(es, i + 1)
    }
}

/// The glob rule a glob element states.
pub open spec fn glob_rule_matches(r: GlobRule, g: GlobElement) -> bool {
    &&& r.pattern@ == g.pattern@
    &&& r.weight == (match g.weight {
        Some(w) => w,
        None => DEFAULT_WEIGHT,
    })
    &&& r.case_sensitive == g.case_sensitive
}

/// The glob elements of a definition, in order.
pub open spec fn glob_elements(es: Seq<MimeTypeElement>) -> Seq<GlobElement>
    decreases es.len(),
{
    if es.len() == 0 {
        seq![]
    } else if es.last() is Glob {
        glob_elements(es.drop_last()).push(es.last()->Glob_0)
    } else {
        glob_elements(es.drop_last())
    }
}

/// The types named by the superclass elements of a definition, in order.
pub open spec fn superclass_names(es: Seq<MimeTypeElement>) -> Seq<Seq<char>>
    decreases es.len(),
{
    if es.len() == 0 {
        seq![]
    } else if es.last() is SubClassOf {
        superclass_names(es.drop_last()).push(es.last()->SubClassOf_0.mimetype@)
    } else {
        superclass_names(es.drop_last())
    }
}

/// The types named by the alias elements of a definition, in order.
pub open spec fn alias_names(es: Seq<MimeTypeElement>) -> Seq<Seq<char>>
    decreases es.len(),
{
    if es.len() == 0 {
        seq![]
    } else if es.last() is Alias {
        alias_names(es.drop_last()).push(es.last()->Alias_0.mimetype@)
    } else {
        alias_names(es.drop_last())
    }
}

/// `r` is the record for definition `m`.
pub open spec fn record_of(r: MimeTypeRecord, m: MimeType) -> bool {
    let es = m.elements@;
    &&& r.name@ == m.name@
    &&& opt_string_view(r.description) == description_from(es, 0)
    &&& r.globs@.len() == glob_elements(es).len()
    &&& forall|i: int|
        0 <= i < r.globs@.len() ==> glob_rule_matches(#[trigger] r.globs@[i], glob_elements(es)[i])
    &&& strings_view(r.superclasses@) == superclass_names(es)
    &&& strings_view(r.aliases@) == alias_names(es)
}

impl GlobElement {
    /// The glob rule this element states, with the default weight where
    /// it states none.
    pub fn to_rule(&self) -> (r: GlobRule)
        ensures
            glob_rule_matches(r, *self),
    {
        GlobRule {
            pattern: self.pattern.clone(),
            weight: match self.weight {
                Some(w) => w,
                None => DEFAULT_WEIGHT,
            },
            case_sensitive: self.case_sensitive,
        }
    }
}

impl MimeType {
    /// The description of this definition: its first comment with no
    /// language or in English.
    fn description(&self) -> (d: Option<String>)
        ensures
            opt_string_view(d) == description_from(self.elements@, 0),
    {
        let es = &self.elements;
        let n = es.len();
        let en = "en".to_owned();
        let mut i: usize = 0;
        while i < n
            invariant
                n == es@.len(),
                es@ == self.elements@,
                i <= n,
                en@ == "en"@,
                description_from(es@, 0) == description_from(es@, i as int),
            decreases n - i,
        {
            if let MimeTypeElement::Comment(c) = &es[i] {
                let wanted = match &c.lang {
                    None => true,
                    Some(lang) => *lang == en,
                };
                if wanted {
                    assert(is_description(es@[i as int]));
                    return Some(c.value.clone());
                }
            }
            i += 1;
        }
        None
    }

    /// Convert this definition into a type record.
    pub fn to_record(&self) -> (r: MimeTypeRecord)
        ensures
            record_of(r, *self),
    {
        let es = &self.elements;
        let n = es.len();
        let mut globs: Vec<GlobRule> = Vec::new();
        let mut superclasses: Vec<String> = Vec::new();
        let mut aliases: Vec<String> = Vec::new();
        let mut i: usize = 0;
        assert(es@.take(0) =~= Seq::<MimeTypeElement>::empty());
        assert(strings_view(superclasses@) =~= Seq::<Seq<char>>::empty());
        assert(strings_view(aliases@) =~= Seq::<Seq<char>>::empty());
        while i < n
            invariant
                n == es@.len(),
                i <= n,
                globs@.len() == glob_elements(es@.take(i as int)).len(),
                forall|k: int|
                    0 <= k < globs@.len() ==> glob_rule_matches(
                        #[trigger] globs@[k],
                        glob_elements(es@.take(i as int))[k],
                    ),
                strings_view(superclasses@) == superclass_names(es@.take(i as int)),
                strings_view(aliases@) == alias_names(es@.take(i as int)),
            decreases n - i,
        {
            let ghost pre = es@.take(i as int);
            let ghost sv = strings_view(superclasses@);
            let ghost av = strings_view(aliases@);
            let ghost g0 = globs@;
            assert(es@.take(i + 1).drop_last() =~= pre);
            assert(es@.take(i + 1).last() == es@[i as int]);
            match &es[i] {
                MimeTypeElement::Glob(g) => {
                    globs.push(g.to_rule());
                    assert forall|k: int| 0 <= k < globs@.len() implies glob_rule_matches(
                        #[trigger] globs@[k],
                        glob_elements(es@.take(i + 1))[k],
                    ) by {
                        if k < g0.len() {
                            assert(globs@[k] == g0[k]);
                        }
                    }
                },
                MimeTypeElement::SubClassOf(t) => {
                    superclasses.push(t.mimetype.clone());
                    assert(strings_view(superclasses@) =~= sv.push(t.mimetype@));
                },
                MimeTypeElement::Alias(t) => {
                    aliases.push(t.mimetype.clone());
                    assert(strings_view(aliases@) =~= av.push(t.mimetype@));
                },
                _ => {},
            }
            i += 1;
        }
        assert(es@.take(n as int) =~= es@);
        MimeTypeRecord {
            name: self.name.clone(),
            description: self.description(),
            globs,
            superclasses,
            aliases,
        }
    }
}

impl MimeInfoPackage {
    /// Convert each definition of the package into a record, in order.
    pub fn into_records(self) -> (rs: Vec<MimeTypeRecord>)
        ensures
            rs@.len() == self.types@.len(),
            forall|i: int| 0 <= i < rs@.len() ==> record_of(#[trigger] rs@[i], self.types@[i]),
    {
        let mut rs: Vec<MimeTypeRecord> = Vec::new();
        let n = self.types.len();
        let mut i: usize = 0;
        while i < n
            invariant
                n == self.types@.len(),
                i <= n,
                rs@.len() == i,
                forall|k: int| 0 <= k < i ==> record_of(#[trigger] rs@[k], self.types@[k]),
            decreases n - i,
        {
            rs.push(self.types[i].to_record());
            i += 1;
        }
        rs
    }
}

/// The record batches of a directory's packages, in order.
pub open spec fn package_batches(ps: Seq<SMIPackage>) -> Seq<Seq<MimeTypeRecord>>
    decreases ps.len(),
{
    if ps.len() == 0 {
        seq![]
    } else {
        package_batches(ps.drop_last()).push(ps.last().types@)
    }
}

/// The record batches of every package of every directory, in order.
pub open spec fn dir_batches(ds: Seq<SMIDir>) -> Seq<Seq<MimeTypeRecord>>
    decreases ds.len(),
{
    if ds.len() == 0 {
        seq![]
    } else {
        dir_batches(ds.drop_last()) + package_batches(ds.last().packages@)
    }
}

} // verus!
