//! Which folders the vault walk leaves out, and how a note's path is shown.

use vstd::prelude::*;
use vstd::string::*;
use crate::text::{has_prefix, occurs_at_exec};

verus! {

/// `.obsidian`
pub open spec fn dot_obsidian() -> Seq<u8> {
    seq![0x2eu8, 0x6f, 0x62, 0x73, 0x69, 0x64, 0x69, 0x61, 0x6e]
}

/// `.trash`
pub open spec fn dot_trash() -> Seq<u8> {
    seq![0x2eu8, 0x74, 0x72, 0x61, 0x73, 0x68]
}

/// `.git`
pub open spec fn dot_git() -> Seq<u8> {
    seq![0x2eu8, 0x67, 0x69, 0x74]
}

/// `node_modules`
pub open spec fn node_modules() -> Seq<u8> {
    seq![0x6eu8, 0x6f, 0x64, 0x65, 0x5f, 0x6d, 0x6f, 0x64, 0x75, 0x6c, 0x65, 0x73]
}

/// `.tag-replace-backup`, the prefix of the backup folders.
pub open spec fn backup_prefix() -> Seq<u8> {
    seq![
        0x2eu8, 0x74, 0x61, 0x67, 0x2d, 0x72, 0x65, 0x70, 0x6c, 0x61, 0x63, 0x65, 0x2d, 0x62, 0x61,
        0x63, 0x6b, 0x75, 0x70,
    ]
}

/// A folder of this name is not searched: the app's own settings, the
/// trash, version control, dependencies and earlier backups.
pub open spec fn skipped_dir_name(name: Seq<u8>) -> bool {
    ||| name == dot_obsidian()
    ||| name == dot_trash()
    ||| name == dot_git()
    ||| name == node_modules()
    ||| has_prefix(name, backup_prefix())
}

/// Whether `a` and `b` are the same bytes.
fn bytes_equal(a: &[u8], b: &[u8]) -> (r: bool)
    ensures
        r == (a@ == b@),
{
    if a.len() != b.len() {
        return false;
    }
    let r = occurs_at_exec(a, b, 0);
    proof {
        if r {
            assert(a@.subrange(0, b@.len() as int) =~= a@);
        } else {
            assert(a@.subrange(0, b@.len() as int) =~= a@);
        }
    }
    r
}

/// Whether the vault walk leaves out an entry: a directory whose name (when
/// it is valid UTF-8) is one of the skipped names.
pub fn should_skip_dir(is_dir: bool, file_name: Option<&str>) -> (r: bool)
    ensures
        r == (is_dir && (match file_name {
            Some(name) => skipped_dir_name(name.spec_bytes()),
            None => false,
        })),
{
    if !is_dir {
        return false;
    }
    match file_name {
        None => false,
        Some(name) => {
            let b = name.as_bytes();
            let obsidian: [u8; 9] = [0x2e, 0x6f, 0x62, 0x73, 0x69, 0x64, 0x69, 0x61, 0x6e];
            let trash: [u8; 6] = [0x2e, 0x74, 0x72, 0x61, 0x73, 0x68];
            let git: [u8; 4] = [0x2e, 0x67, 0x69, 0x74];
            let modules: [u8; 12] = [0x6e, 0x6f, 0x64, 0x65, 0x5f, 0x6d, 0x6f, 0x64, 0x75, 0x6c, 0x65, 0x73];
            let backup: [u8; 19] = [
                0x2e, 0x74, 0x61, 0x67, 0x2d, 0x72, 0x65, 0x70, 0x6c, 0x61, 0x63, 0x65, 0x2d, 0x62,
                0x61, 0x63, 0x6b, 0x75, 0x70,
            ];
            assert(obsidian@ =~= dot_obsidian());
            assert(trash@ =~= dot_trash());
            assert(git@ =~= dot_git());
            assert(modules@ =~= node_modules());
            assert(backup@ =~= backup_prefix());
            bytes_equal(b, &obsidian) || bytes_equal(b, &trash) || bytes_equal(b, &git)
                || bytes_equal(b, &modules) || occurs_at_exec(b, &backup, 0)
        },
    }
}

/// `md`, the extension of the notes that are searched.
pub open spec fn md() -> Seq<u8> {
    seq![0x6du8, 0x64]
}

/// Whether a file with this extension (when it is valid UTF-8) is a note.
pub fn is_note_extension(extension: Option<&str>) -> (r: bool)
    ensures
        r == (match extension {
            Some(e) => e.spec_bytes() == md(),
            None => false,
        }),
{
    match extension {
        Some(e) => {
            let md_bytes: [u8; 2] = [0x6d, 0x64];
            assert(md_bytes@ =~= md());
            bytes_equal(e.as_bytes(), &md_bytes)
        },
        None => false,
    }
}

/// The component of `p` that starts at `i` is `.` or `..`.
pub open spec fn dot_component(p: Seq<char>, i: int) -> bool {
    &&& i == 0 || p[i - 1] == '/'
    &&& p[i] == '.'
    &&& (i + 1 == p.len() || p[i + 1] == '/' || (p[i + 1] == '.' && (i + 2 == p.len() || p[i + 2]
        == '/')))
}

/// `p` is a plain path: names separated by single `/`, perhaps after a
/// leading `/`, none of them empty, `.` or `..`, with no `\` or `:` in
/// them, and no `/` at the end. Such a path splits into the same components
/// on every platform.
pub open spec fn plain_path(p: Seq<char>) -> bool {
    &&& p.len() > 0
    &&& p.last() != '/'
    &&& forall|i: int| 0 <= i < p.len() ==> #[trigger] p[i] != '\\' && p[i] != ':'
    &&& forall|i: int| 0 <= i < p.len() - 1 ==> !(#[trigger] p[i] == '/' && p[i + 1] == '/')
    &&& forall|i: int| 0 <= i < p.len() ==> !#[trigger] dot_component(p, i)
}

/// `p` lies under the folder `base`: it is `base`, a `/` and more.
pub open spec fn lies_under(p: Seq<char>, base: Seq<char>) -> bool {
    &&& p.len() > base.len() + 1
    &&& p.subrange(0, base.len() as int) == base
    &&& p[base.len() as int] == '/'
}

/// `base` without one `/` at its end, if it has one: the folder that
/// `base` names, since a trailing `/` adds no component.
pub open spec fn folder_of(base: Seq<char>) -> Seq<char> {
    if base.len() > 0 && base.last() == '/' {
        base.drop_last()
    } else {
        base
    }
}

/// `Path::strip_prefix` followed by a lossless conversion back to text:
/// the rest of `path` after the leading components that make up `base`, or
/// `None` when `base` is not such a prefix. As std documents it, a path
/// stripped of itself leaves the empty path, and a trailing `/` on `base`
/// does not change what is stripped (components normalize trailing
/// slashes away; std's own example strips `/test/` as it strips `/test`).
/// So for plain paths (see [`plain_path`]), whose components are their
/// names, with `base` a plain path or a plain path and a `/`: the folder
/// itself leaves the empty path, the rest of a path under the folder is
/// what follows the folder and its `/`, and any other path is refused.
/// What happens to other paths depends on how the platform splits them
/// into components, and is not stated.
#[verifier::external_body]
fn strip_path_prefix(path: &str, base: &str) -> (r: Option<String>)
    ensures
        path@ == base@ ==> r is Some && r->0@.len() == 0,
        plain_path(path@) && plain_path(folder_of(base@)) && path@ == folder_of(base@) ==> r is Some
            && r->0@.len() == 0,
        plain_path(path@) && plain_path(folder_of(base@)) && lies_under(path@, folder_of(base@))
            ==> r is Some && r->0@ == path@.subrange(folder_of(base@).len() + 1int, path@.len() as int),
        plain_path(path@) && plain_path(folder_of(base@)) && path@ != folder_of(base@) && !lies_under(
            path@,
            folder_of(base@),
        ) ==> r is None,
{
    match std::path::Path::new(path).strip_prefix(base) {
        Ok(rest) => Some(rest.to_string_lossy().into_owned()),
        Err(_) => None,
    }
}

/// The path shown for a note: what is left after the vault folder when
/// that could be stripped, else the full path.
pub fn relative_or_full(file_path: &str, stripped: Option<String>) -> (r: String)
    ensures
        match stripped {
            Some(s) => r == s,
            None => r@ == file_path@,
        },
{
    match stripped {
        Some(s) => s,
        None => String::from_str(file_path),
    }
}

/// The path of `file_path` relative to the vault folder `vault_path`, or the
/// full path when it does not lie under it. The vault folder itself is
/// shown as the empty path. For plain paths (see [`plain_path`]), the vault
/// folder written with or without a `/` at its end, a path under the vault
/// is shown without the vault folder and its `/`, and any other as it is;
/// for other paths the result depends on how the platform splits paths into
/// components, and is not stated.
pub fn make_relative(vault_path: &str, file_path: &str) -> (r: String)
    ensures
        file_path@ == vault_path@ ==> r@.len() == 0,
        plain_path(file_path@) && plain_path(folder_of(vault_path@)) && file_path@ == folder_of(
            vault_path@,
        ) ==> r@.len() == 0,
        plain_path(file_path@) && plain_path(folder_of(vault_path@)) && lies_under(
            file_path@,
            folder_of(vault_path@),
        ) ==> r@ == file_path@.subrange(folder_of(vault_path@).len() + 1int, file_path@.len() as int),
        plain_path(file_path@) && plain_path(folder_of(vault_path@)) && file_path@ != folder_of(
            vault_path@,
        ) && !lies_under(file_path@, folder_of(vault_path@)) ==> r@ == file_path@,
{
    let stripped = strip_path_prefix(file_path, vault_path);
    relative_or_full(file_path, stripped)
}

/// A note path built as a plain vault folder, `/` and a plain relative
/// path lies under the folder, whether the folder is written with a `/` at
/// its end or not, and what follows the folder and its `/` is the relative
/// path: so [`make_relative`] gives `rest` back for `v + "/" + rest`, with
/// the vault written as `v` or as `v + "/"`.
pub proof fn law_relative_path_of_joined(v: Seq<char>, rest: Seq<char>)
    requires
        plain_path(v),
        plain_path(rest),
        rest[0] != '/',
    ensures
        ({
            let p = v + seq!['/'] + rest;
            &&& folder_of(v) == v
            &&& folder_of(v + seq!['/']) == v
            &&& plain_path(p)
            &&& lies_under(p, v)
            &&& p.subrange(v.len() + 1int, p.len() as int) == rest
        }),
{
    let p = v + seq!['/'] + rest;
    let m = v.len() as int;
    assert((v + seq!['/']).drop_last() =~= v);
    assert(p.subrange(0, m) =~= v);
    assert(p.subrange(m + 1, p.len() as int) =~= rest);
    assert(p[m] == '/');
    assert forall|i: int| 0 <= i < p.len() implies #[trigger] p[i] != '\\' && p[i] != ':' by {
        if i < m {
            assert(p[i] == v[i]);
        } else if i > m {
            assert(p[i] == rest[i - m - 1]);
        }
    }
    assert forall|i: int| 0 <= i < p.len() - 1 implies !(#[trigger] p[i] == '/' && p[i + 1] == '/') by {
        if i < m - 1 {
            assert(p[i] == v[i] && p[i + 1] == v[i + 1]);
        } else if i == m - 1 {
            assert(p[i + 1] == '/' && p[i] == v.last());
        } else if i == m {
            assert(p[i + 1] == rest[0]);
        } else {
            assert(p[i] == rest[i - m - 1] && p[i + 1] == rest[i - m]);
        }
    }
    assert forall|i: int| 0 <= i < p.len() implies !#[trigger] dot_component(p, i) by {
        if i < m {
            assert(p[i] == v[i]);
            if i > 0 {
                assert(p[i - 1] == v[i - 1]);
            }
            if i + 1 < m {
                assert(p[i + 1] == v[i + 1]);
            }
            if i + 2 < m {
                assert(p[i + 2] == v[i + 2]);
            }
            if i + 2 == m {
                assert(p[i + 2] == '/');
            }
            if i + 1 == m {
                assert(p[i + 1] == '/');
            }
            assert(!dot_component(v, i));
        } else if i > m {
            let j = i - m - 1;
            assert(p[i] == rest[j]);
            if j > 0 {
                assert(p[i - 1] == rest[j - 1]);
            }
            if j + 1 < rest.len() {
                assert(p[i + 1] == rest[j + 1]);
            }
            if j + 2 < rest.len() {
                assert(p[i + 2] == rest[j + 2]);
            }
            assert(!dot_component(rest, j));
        }
    }
}

} // verus!
