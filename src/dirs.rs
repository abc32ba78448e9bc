//! Where MIME data lives: the search directories of the XDG base directory
//! layout, and which of a directory's files are packages.
//!
//! Two environment variables locate the data: `XDG_DATA_DIRS` (default
//! `/usr/local/share:/usr/share`) and `XDG_DATA_HOME` (default
//! `$HOME/.local/share`). Directories are processed in reverse order of
//! precedence, so later ones override earlier ones. The functions here take
//! the variables' values; reading the environment is the caller's part.
use vstd::prelude::*;

use crate::record::strings_view;

verus! {

/// The pieces of `s` between `:` separators (one piece when there is none).
pub open spec fn split_colons(s: Seq<char>) -> Seq<Seq<char>>
    decreases s.len(),
{
    if s.len() == 0 {
        seq![seq![]]
    } else {
        let r = split_colons(s.drop_last());
        if s.last() == ':' {
            r.push(seq![])
        } else {
            r.update(r.len() - 1, r.last().push(s.last()))
        }
    }
}

/// `part` appended to `base` as a path component.
pub open spec fn join_path(base: Seq<char>, part: Seq<char>) -> Seq<char> {
    if base.len() == 0 {
        part
    } else if base.last() == '/' {
        base + part
    } else {
        base + seq!['/'] + part
    }
}

/// The search directories, in processing order: the `mime` directory of
/// each entry of the data path (or of the two system defaults), then the
/// user's data directory: the data-home value as given, else
/// `$HOME/.local/share/mime`, else none.
pub open spec fn search_dirs(
    data_dirs: Option<Seq<char>>,
    data_home: Option<Seq<char>>,
    home: Option<Seq<char>>,
) -> Seq<Seq<char>> {
    let system = match data_dirs {
        Some(d) => split_colons(d).map_values(|p: Seq<char>| join_path(p, "mime"@)),
        None => seq!["/usr/share/mime"@, "/usr/local/share/mime"@],
    };
    match data_home {
        Some(h) => system.push(h),
        None => match home {
            Some(h) => system.push(join_path(join_path(join_path(h, ".local"@), "share"@), "mime"@)),
            None => system,
        },
    }
}

/// Whether a directory entry named `name` is a package file: not hidden,
/// and ending in `.xml`.
pub open spec fn package_file_name(name: Seq<u8>) -> bool {
    &&& name.len() > 4
    &&& name[0] != 46
    &&& name.skip(name.len() - 4) == seq![46u8, 120u8, 109u8, 108u8]
}

/// Append `part` to `base` as a path component.
pub fn join(base: String, part: &str) -> (r: String)
    ensures
        r@ == join_path(base@, part@),
{
    let n = base.unicode_len();
    if n == 0 {
        part.to_owned()
    } else if base.get_char(n - 1) == '/' {
        base.concat(part)
    } else {
        let r = base.concat("/").concat(part);
        proof {
            reveal_strlit("/");
        }
        r
    }
}

/// Split a search path at its `:` separators.
pub fn split_path(s: &str) -> (r: Vec<String>)
    ensures
        strings_view(r@) == split_colons(s@),
{
    let n = s.unicode_len();
    let mut pieces: Vec<String> = Vec::new();
    let mut start: usize = 0;
    let mut i: usize = 0;
    assert(s@.take(0) =~= Seq::<char>::empty());
    assert(s@.subrange(0, 0) =~= Seq::<char>::empty());
    while i < n
        invariant
            n == s@.len(),
            start <= i <= n,
            split_colons(s@.take(i as int)) == strings_view(pieces@).push(
                s@.subrange(start as int, i as int),
            ),
        decreases n - i,
    {
        let ghost pv = strings_view(pieces@);
        let ghost cur = s@.subrange(start as int, i as int);
        assert(s@.take(i + 1).drop_last() =~= s@.take(i as int));
        assert(s@.take(i + 1).last() == s@[i as int]);
        if s.get_char(i) == ':' {
            pieces.push(s.substring_char(start, i).to_owned());
            start = i + 1;
            assert(strings_view(pieces@) =~= pv.push(cur));
            assert(s@.subrange(start as int, i + 1) =~= Seq::<char>::empty());
        } else {
            assert(cur.push(s@[i as int]) =~= s@.subrange(start as int, i + 1));
            assert(pv.push(cur).update(pv.len() as int, cur.push(s@[i as int])) =~= pv.push(
                s@.subrange(start as int, i + 1),
            ));
        }
        i += 1;
    }
    let ghost pv = strings_view(pieces@);
    pieces.push(s.substring_char(start, n).to_owned());
    assert(s@.take(n as int) =~= s@);
    assert(strings_view(pieces@) =~= pv.push(s@.subrange(start as int, n as int)));
    pieces
}

/// The directories to check for MIME data, in processing order, from the
/// values of `XDG_DATA_DIRS`, `XDG_DATA_HOME` and `HOME`.
pub fn mime_search_dirs(data_dirs: Option<&str>, data_home: Option<&str>, home: Option<&str>) -> (r:
    Vec<String>)
    ensures
        strings_view(r@) == search_dirs(
            match data_dirs {
                Some(d) => Some(d@),
                None => None,
            },
            match data_home {
                Some(h) => Some(h@),
                None => None,
            },
            match home {
                Some(h) => Some(h@),
                None => None,
            },
        ),
{
    let mut paths: Vec<String> = Vec::new();
    let ghost system: Seq<Seq<char>>;
    match data_dirs {
        Some(spec) => {
            let pieces = split_path(spec);
            let ghost ps = strings_view(pieces@);
            let n = pieces.len();
            let mut i: usize = 0;
            assert(strings_view(paths@) =~= Seq::<Seq<char>>::empty());
            while i < n
                invariant
                    n == pieces@.len(),
                    i <= n,
                    ps == strings_view(pieces@),
                    strings_view(paths@) =~= ps.take(i as int).map_values(
                        |p: Seq<char>| join_path(p, "mime"@),
                    ),
                decreases n - i,
            {
                let ghost before = strings_view(paths@);
                let piece = pieces[i].clone();
                paths.push(join(piece, "mime"));
                assert(ps.take(i + 1).map_values(|p: Seq<char>| join_path(p, "mime"@)) =~= before.push(
                    join_path(ps[i as int], "mime"@),
                ));
                i += 1;
            }
            assert(ps.take(n as int) =~= ps);
            proof {
                system = split_colons(spec@).map_values(|p: Seq<char>| join_path(p, "mime"@));
            }
        },
        None => {
            paths.push("/usr/share/mime".to_owned());
            paths.push("/usr/local/share/mime".to_owned());
            proof {
                system = seq!["/usr/share/mime"@, "/usr/local/share/mime"@];
            }
            assert(strings_view(paths@) =~= system);
        },
    }
    let ghost sv = strings_view(paths@);
    assert(sv == system);
    match data_home {
        Some(h) => {
            paths.push(h.to_owned());
            assert(strings_view(paths@) =~= sv.push(h@));
        },
        None => {
            if let Some(h) = home {
                let p = join(join(join(h.to_owned(), ".local"), "share"), "mime");
                paths.push(p);
                assert(strings_view(paths@) =~= sv.push(p@));
            }
        },
    }
    paths
}

/// Whether a directory entry named `name` is a package file: not hidden,
/// and ending in `.xml`.
pub fn is_package_file(name: &[u8]) -> (r: bool)
    ensures
        r == package_file_name(name@),
{
    let n = name.len();
    if n <= 4 || name[0] == 46 {
        return false;
    }
    let r = name[n - 4] == 46 && name[n - 3] == 120 && name[n - 2] == 109 && name[n - 1] == 108;
    assert(r == (name@.skip(n - 4) =~= seq![46u8, 120u8, 109u8, 108u8]));
    r
}

} // verus!
