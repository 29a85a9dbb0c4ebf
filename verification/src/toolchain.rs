//! Rules over installed toolchains: what a valid one holds, which releases
//! are listed, which may be removed.
use vstd::prelude::*;

use crate::archive::{components_eq, components_of, same_path, ArtifactManifest, ManifestView};
use crate::text::{
    chars_of, eq_str, lemma_split_concat, lemma_split_plain, split, split_chars, starts_with_str,
    string_views, views,
};

verus! {

/// What kind of file a toolchain must hold at a path.
#[derive(Clone, Copy, Debug, PartialEq, Eq, Structural)]
pub enum RequiredKind {
    /// A tool binary: must be a regular file.
    Binary,
    /// The library list: must be a regular file.
    LibList,
    /// A file that the manifest lists: must exist.
    File,
}

/// A path, relative to the toolchain directory, that must be present.
#[derive(Debug)]
pub struct RequiredPath {
    pub kind: RequiredKind,
    /// The pieces that, joined onto the toolchain directory, give the path.
    pub parts: Vec<String>,
}

/// Abstract value of a [`RequiredPath`].
pub struct RequiredView {
    pub kind: RequiredKind,
    pub parts: Seq<Seq<char>>,
}

impl View for RequiredPath {
    type V = RequiredView;

    open spec fn view(&self) -> RequiredView {
        RequiredView { kind: self.kind, parts: string_views(self.parts@) }
    }
}

/// Why a toolchain cannot be used or removed.
#[derive(Debug)]
pub enum ToolchainError {
    /// The toolchain directory has no name that is valid text.
    InvalidDirectory,
    /// The manifest names another version than the directory.
    VersionMismatch { manifest: String, directory: String },
    /// The toolchain to remove is the active one.
    UninstallCurrent(String),
}

/// The character views of a list of texts.
pub open spec fn str_views(v: Seq<&str>) -> Seq<Seq<char>> {
    v.map_values(|s: &str| s@)
}

/// What a toolchain with manifest `m` must hold, in the order in which it is
/// checked: each tool binary under `bin_dir`, the library list, then each
/// file of the manifest.
pub open spec fn requirements(m: ManifestView, binaries: Seq<Seq<char>>) -> Seq<RequiredView> {
    binaries.map_values(
        |b: Seq<char>| RequiredView { kind: RequiredKind::Binary, parts: seq![m.bin_dir, b] },
    ) + seq![RequiredView { kind: RequiredKind::LibList, parts: seq![m.lib_list] }]
        + m.files.map_values(|f: Seq<char>| RequiredView { kind: RequiredKind::File, parts: seq![f] })
}

/// Law: what a toolchain must hold is, in this order, each tool binary
/// under the manifest's own `bin_dir`, the manifest's library list, and each
/// file that the manifest lists; nothing else.
pub proof fn lemma_requirements_layout(m: ManifestView, binaries: Seq<Seq<char>>)
    ensures
        requirements(m, binaries).len() == binaries.len() + 1 + m.files.len(),
        forall|i: int|
            0 <= i < binaries.len() ==> #[trigger] requirements(m, binaries)[i] == (RequiredView {
                kind: RequiredKind::Binary,
                parts: seq![m.bin_dir, binaries[i]],
            }),
        requirements(m, binaries)[binaries.len() as int] == (RequiredView {
            kind: RequiredKind::LibList,
            parts: seq![m.lib_list],
        }),
        forall|j: int|
            0 <= j < m.files.len() ==> #[trigger] requirements(m, binaries)[binaries.len() + 1 + j]
                == (RequiredView { kind: RequiredKind::File, parts: seq![m.files[j]] }),
{
}

fn two_parts(a: &String, b: &str) -> (r: Vec<String>)
    ensures
        string_views(r@) == seq![a@, b@],
{
    let mut r: Vec<String> = Vec::new();
    r.push(a.clone());
    r.push(b.to_owned());
    assert(string_views(r@) =~= seq![a@, b@]);
    r
}

fn one_part(s: &String) -> (r: Vec<String>)
    ensures
        string_views(r@) == seq![s@],
{
    let mut r: Vec<String> = Vec::new();
    r.push(s.clone());
    assert(string_views(r@) =~= seq![s@]);
    r
}

/// Decides whether an unpacked toolchain in the directory named `dir_name`
/// (`None` when the name is not valid text) fits its manifest, and if so
/// lists what it must hold.
pub fn toolchain_requirements(
    manifest: &ArtifactManifest,
    dir_name: Option<&str>,
    tool_binaries: &[&str],
) -> (res: Result<Vec<RequiredPath>, ToolchainError>)
    ensures
        dir_name is None ==> (res matches Err(e) && e is InvalidDirectory),
        dir_name matches Some(d) ==> (d@ != manifest@.version <==> res is Err),
        dir_name is Some && dir_name->0@ != manifest@.version ==> (res matches Err(
            ToolchainError::VersionMismatch { manifest: mv, directory: dv },
        ) && mv@ == manifest@.version && dv@ == dir_name->0@),
        res matches Ok(r) ==> r@.map_values(|p: RequiredPath| p@) == requirements(
            manifest@,
            str_views(tool_binaries@),
        ),
        res matches Ok(r) ==> r@.len() == tool_binaries@.len() + 1 + manifest@.files.len(),
        res matches Ok(r) ==> forall|i: int|
            0 <= i < tool_binaries@.len() ==> (#[trigger] r@[i])@ == (RequiredView {
                kind: RequiredKind::Binary,
                parts: seq![manifest@.bin_dir, tool_binaries@[i]@],
            }),
        res matches Ok(r) ==> r@[tool_binaries@.len() as int]@ == (RequiredView {
            kind: RequiredKind::LibList,
            parts: seq![manifest@.lib_list],
        }),
        res matches Ok(r) ==> forall|j: int|
            0 <= j < manifest@.files.len() ==> (#[trigger] r@[tool_binaries@.len() + 1 + j])@ == (
            RequiredView { kind: RequiredKind::File, parts: seq![manifest@.files[j]] }),
{
    let dir = match dir_name {
        Some(d) => d,
        None => {
            return Err(ToolchainError::InvalidDirectory);
        },
    };
    let vc = chars_of(manifest.version.as_str());
    if !eq_str(vc.as_slice(), dir) {
        return Err(
            ToolchainError::VersionMismatch {
                manifest: manifest.version.clone(),
                directory: dir.to_owned(),
            },
        );
    }
    let ghost want = requirements(manifest@, str_views(tool_binaries@));
    let nb = tool_binaries.len();
    let nf = manifest.files.len();
    let mut out: Vec<RequiredPath> = Vec::new();
    for i in 0..nb
        invariant
            nb == tool_binaries@.len(),
            nf == manifest.files@.len(),
            want == requirements(manifest@, str_views(tool_binaries@)),
            out@.map_values(|p: RequiredPath| p@) == want.take(i as int),
    {
        let parts = two_parts(&manifest.bin_dir, tool_binaries[i]);
        let ghost before = out@;
        let req = RequiredPath { kind: RequiredKind::Binary, parts };
        assert(want[i as int] == req@);
        out.push(req);
        assert(out@.map_values(|p: RequiredPath| p@) =~= before.map_values(|p: RequiredPath| p@).push(req@));
        assert(want.take(i + 1) =~= want.take(i as int).push(want[i as int]));
        assert(out@.map_values(|p: RequiredPath| p@) =~= want.take(i + 1));
    }
    let ghost before = out@;
    let req = RequiredPath { kind: RequiredKind::LibList, parts: one_part(&manifest.lib_list) };
    assert(want[nb as int] == req@);
    out.push(req);
    assert(out@.map_values(|p: RequiredPath| p@) =~= before.map_values(|p: RequiredPath| p@).push(req@));
    assert(want.take(nb + 1) =~= want.take(nb as int).push(want[nb as int]));
    assert(out@.map_values(|p: RequiredPath| p@) =~= want.take(nb + 1));
    for j in 0..nf
        invariant
            nb == tool_binaries@.len(),
            nf == manifest.files@.len(),
            want == requirements(manifest@, str_views(tool_binaries@)),
            out@.map_values(|p: RequiredPath| p@) == want.take(nb + 1 + j),
    {
        let ghost before = out@;
        let req = RequiredPath { kind: RequiredKind::File, parts: one_part(&manifest.files[j]) };
        assert(want[nb + 1 + j] == req@);
        out.push(req);
        assert(out@.map_values(|p: RequiredPath| p@) =~= before.map_values(|p: RequiredPath| p@).push(req@));
        assert(want.take(nb + 1 + j + 1) =~= want.take(nb + 1 + j).push(want[nb + 1 + j]));
        assert(out@.map_values(|p: RequiredPath| p@) =~= want.take(nb + 1 + j + 1));
    }
    assert(want.take(nb + 1 + nf) =~= want);
    proof {
        lemma_requirements_layout(manifest@, str_views(tool_binaries@));
        assert forall|i: int| 0 <= i < out@.len() implies (#[trigger] out@[i])@ == want[i] by {
            assert(out@.map_values(|p: RequiredPath| p@)[i] == out@[i]@);
        }
    }
    Ok(out)
}

/// Whether an entry of the releases directory is an installed release:
/// not the `current` link and not hidden.
pub open spec fn listed_release(name: Seq<char>) -> bool {
    name != "current"@ && !"."@.is_prefix_of(name)
}

/// Whether the releases directory entry `name` is listed as a release.
pub fn is_listed_release(name: &str) -> (r: bool)
    ensures
        r == listed_release(name@),
{
    let cs = chars_of(name);
    !eq_str(cs.as_slice(), "current") && !starts_with_str(cs.as_slice(), ".")
}

/// How a release is listed: its name, marked when it is the current one.
pub open spec fn release_line(name: Seq<char>, current: Option<Seq<char>>) -> Seq<char> {
    if current == Some(name) {
        name + " (current)"@
    } else {
        name
    }
}

/// The line that lists the release `name`.
pub fn release_list_line(name: &str, current: Option<&str>) -> (res: String)
    ensures
        res@ == release_line(
            name@,
            match current {
                Some(c) => Some(c@),
                None => None,
            },
        ),
{
    let mut res = name.to_owned();
    match current {
        Some(c) => {
            let cc = chars_of(c);
            if eq_str(cc.as_slice(), name) {
                res.append(" (current)");
            }
        },
        None => {},
    }
    res
}

/// Refuses to remove the active toolchain.
pub fn check_uninstall(current: Option<&str>, version: &str) -> (res: Result<(), ToolchainError>)
    ensures
        (current matches Some(c) && c@ == version@) <==> res is Err,
        res matches Err(e) ==> (e matches ToolchainError::UninstallCurrent(v) && v@ == version@),
{
    match current {
        Some(c) => {
            let cc = chars_of(c);
            if eq_str(cc.as_slice(), version) {
                return Err(ToolchainError::UninstallCurrent(version.to_owned()));
            }
        },
        None => {},
    }
    Ok(())
}

/// The settings file written into a new installation root.
pub fn settings_toml(root: &str) -> (res: String)
    ensures
        res@ == "manifest_version = 1\nroot = \""@ + root@ + "\"\n"@,
{
    let mut res = "manifest_version = 1\nroot = \"".to_owned();
    res.append(root);
    res.append("\"\n");
    res
}

/// Whether the search path `path` (the value of `PATH`) names the
/// directory `dir`: one of its `:`-separated entries is the same path as
/// `dir` (as `std::env::split_paths` splits it and `Path` compares).
pub open spec fn path_lists(path: Seq<char>, dir: Seq<char>) -> bool {
    exists|i: int| 0 <= i < split(path, ':').len() && same_path(#[trigger] split(path, ':')[i], dir)
}

/// Law: a search path made of two parts joined by `:` holds a directory
/// exactly when one of the parts does; no entry counts for less because of
/// where it stands.
pub proof fn lemma_path_lists_concat(a: Seq<char>, b: Seq<char>, dir: Seq<char>)
    ensures
        path_lists(a + seq![':'] + b, dir) == (path_lists(a, dir) || path_lists(b, dir)),
{
    lemma_split_concat(a, b, ':');
    let pa = split(a, ':');
    let pb = split(b, ':');
    let p = split(a + seq![':'] + b, ':');
    assert(p == pa + pb);
    if path_lists(a + seq![':'] + b, dir) {
        let i = choose|i: int| 0 <= i < p.len() && same_path(#[trigger] p[i], dir);
        if i < pa.len() {
            assert(pa[i] == p[i]);
        } else {
            assert(pb[i - pa.len()] == p[i]);
        }
    }
    if path_lists(a, dir) {
        let i = choose|i: int| 0 <= i < pa.len() && same_path(#[trigger] pa[i], dir);
        assert(p[i] == pa[i]);
    }
    if path_lists(b, dir) {
        let i = choose|i: int| 0 <= i < pb.len() && same_path(#[trigger] pb[i], dir);
        assert(p[pa.len() + i] == pb[i]);
    }
}

/// Law: a search path of one entry (no `:`) holds a directory exactly when
/// that entry is the same path as the directory.
pub proof fn lemma_path_lists_single(e: Seq<char>, dir: Seq<char>)
    requires
        forall|i: int| 0 <= i < e.len() ==> e[i] != ':',
    ensures
        path_lists(e, dir) == same_path(e, dir),
{
    lemma_split_plain(e, ':');
    if same_path(e, dir) {
        assert(split(e, ':')[0] == e);
    }
}

/// Law: an entry that is the same path as the directory, at any position of
/// the search path, makes the search path hold it.
pub proof fn lemma_path_lists_any_position(a: Seq<char>, e: Seq<char>, b: Seq<char>, dir: Seq<char>)
    requires
        forall|i: int| 0 <= i < e.len() ==> e[i] != ':',
        same_path(e, dir),
    ensures
        path_lists(e, dir),
        path_lists(a + seq![':'] + e, dir),
        path_lists(e + seq![':'] + b, dir),
        path_lists(a + seq![':'] + e + seq![':'] + b, dir),
{
    lemma_path_lists_single(e, dir);
    lemma_path_lists_concat(a, e, dir);
    lemma_path_lists_concat(e, b, dir);
    lemma_path_lists_concat(a + seq![':'] + e, b, dir);
}

/// Whether the search path already holds the proxy directory, in which case
/// no hint to extend it is printed.
pub fn path_lists_dir(path_var: Option<&str>, dir: &str) -> (r: bool)
    ensures
        path_var is None ==> !r,
        path_var is Some ==> (r == path_lists(path_var->0@, dir@)),
{
    let p = match path_var {
        Some(p) => p,
        None => {
            return false;
        },
    };
    let pc = chars_of(p);
    let dc = chars_of(dir);
    let dir_comps = components_of(dc.as_slice());
    let pieces = split_chars(pc.as_slice(), ':');
    let ghost ps = views(pieces@);
    let n = pieces.len();
    for i in 0..n
        invariant
            n == pieces@.len(),
            ps == views(pieces@),
            ps == split(p@, ':'),
            path_var == Some(p),
            crate::archive::component_views(dir_comps@) == crate::archive::path_components(dir@),
            forall|j: int| 0 <= j < i ==> !same_path(#[trigger] ps[j], dir@),
    {
        assert(ps[i as int] == pieces@[i as int]@);
        let comps = components_of(pieces[i].as_slice());
        if components_eq(comps.as_slice(), dir_comps.as_slice()) {
            assert(same_path(split(p@, ':')[i as int], dir@));
            assert(0 <= i < split(p@, ':').len());
            return true;
        }
    }
    false
}

} // verus!
