//! Release archives: the entries they may hold and the manifest they carry.
use vstd::prelude::*;

use crate::text::{
    chars_eq, chars_lt, chars_of, lemma_split_concat, lemma_split_plain, copy_range, eq_str, index_of_char, lemma_lex_lt_order, lemma_lex_lt_total, lemma_prefix_before, lemma_split_len,
    lex_lt, lines, lines_of, split, split_chars, split_once, string_of, string_views, trim, trim_chars,
    views,
};

verus! {

/// A component of a Unix path, as `std::path::Path::components` yields it.
pub enum PathComponent {
    RootDir,
    CurDir,
    ParentDir,
    Normal(Seq<char>),
}

/// The component that one `/`-separated piece of a path contributes after
/// its first piece: none for an empty piece or `.`.
pub open spec fn piece_component(piece: Seq<char>) -> Option<PathComponent> {
    if piece.len() == 0 || piece == seq!['.'] {
        None
    } else if piece == seq!['.', '.'] {
        Some(PathComponent::ParentDir)
    } else {
        Some(PathComponent::Normal(piece))
    }
}

/// The components that a list of pieces contributes, in order.
pub open spec fn pieces_components(pieces: Seq<Seq<char>>) -> Seq<PathComponent>
    decreases pieces.len(),
{
    if pieces.len() == 0 {
        Seq::<PathComponent>::empty()
    } else {
        pieces_components(pieces.drop_last()) + match piece_component(pieces.last()) {
            Some(c) => seq![c],
            None => Seq::<PathComponent>::empty(),
        }
    }
}

/// `Path::components` on Unix: a leading `/` is the root; a leading `.`
/// piece of a relative path is the current directory; after that, empty and
/// `.` pieces vanish, `..` is the parent and any other piece is a name.
pub open spec fn path_components(p: Seq<char>) -> Seq<PathComponent> {
    let pieces = split(p, '/');
    if p.len() > 0 && p[0] == '/' {
        seq![PathComponent::RootDir] + pieces_components(pieces.drop_first())
    } else if pieces[0] == seq!['.'] {
        seq![PathComponent::CurDir] + pieces_components(pieces.drop_first())
    } else {
        pieces_components(pieces)
    }
}

/// A component of a path.
pub enum Component {
    RootDir,
    CurDir,
    ParentDir,
    Normal(Vec<char>),
}

impl View for Component {
    type V = PathComponent;

    open spec fn view(&self) -> PathComponent {
        match self {
            Component::RootDir => PathComponent::RootDir,
            Component::CurDir => PathComponent::CurDir,
            Component::ParentDir => PathComponent::ParentDir,
            Component::Normal(n) => PathComponent::Normal(n@),
        }
    }
}

/// The abstract components of a list of components.
pub open spec fn component_views(cs: Seq<Component>) -> Seq<PathComponent> {
    cs.map_values(|c: Component| c@)
}

fn is_dot(piece: &[char]) -> (r: bool)
    ensures
        r == (piece@ == seq!['.']),
{
    let r = piece.len() == 1 && piece[0] == '.';
    proof {
        if piece@.len() == 1 && piece@[0] == '.' {
            assert(piece@ =~= seq!['.']);
        }
    }
    r
}

fn is_dot_dot(piece: &[char]) -> (r: bool)
    ensures
        r == (piece@ == seq!['.', '.']),
{
    let r = piece.len() == 2 && piece[0] == '.' && piece[1] == '.';
    proof {
        if piece@.len() == 2 && piece@[0] == '.' && piece@[1] == '.' {
            assert(piece@ =~= seq!['.', '.']);
        }
    }
    r
}

/// Appends the components of `pieces[from..]` to `out`.
fn push_pieces_components(pieces: &Vec<Vec<char>>, from: usize, out: &mut Vec<Component>)
    requires
        from <= pieces@.len(),
    ensures
        component_views(final(out)@) == component_views(old(out)@) + pieces_components(
            views(pieces@).skip(from as int),
        ),
{
    let n = pieces.len();
    let ghost start = component_views(out@);
    let ghost ps = views(pieces@).skip(from as int);
    assert(ps.take(0) =~= Seq::<Seq<char>>::empty());
    assert(component_views(out@) =~= start + pieces_components(ps.take(0)));
    let mut i = from;
    while i < n
        invariant
            from <= i <= n,
            n == pieces@.len(),
            ps == views(pieces@).skip(from as int),
            component_views(out@) == start + pieces_components(ps.take(i - from)),
        decreases n - i,
    {
        let piece = &pieces[i];
        let ghost before = component_views(out@);
        assert(ps.take(i - from + 1).drop_last() =~= ps.take(i - from));
        assert(ps.take(i - from + 1).last() == piece@);
        if piece.len() == 0 || is_dot(piece.as_slice()) {
        } else if is_dot_dot(piece.as_slice()) {
            out.push(Component::ParentDir);
        } else {
            let copy = copy_range(piece.as_slice(), 0, piece.len());
            assert(copy@ =~= piece@);
            out.push(Component::Normal(copy));
        }
        assert(component_views(out@) =~= before + match piece_component(piece@) {
            Some(c) => seq![c],
            None => Seq::<PathComponent>::empty(),
        });
        assert(component_views(out@) =~= start + pieces_components(ps.take(i - from + 1)));
        i = i + 1;
    }
    assert(ps.take(n - from) =~= ps);
}

/// The components of the path `p`.
pub fn components_of(p: &[char]) -> (res: Vec<Component>)
    ensures
        component_views(res@) == path_components(p@),
{
    let pieces = split_chars(p, '/');
    proof {
        lemma_split_len(p@, '/');
    }
    let mut out: Vec<Component> = Vec::new();
    assert(component_views(out@) =~= Seq::<PathComponent>::empty());
    if p.len() > 0 && p[0] == '/' {
        out.push(Component::RootDir);
        push_pieces_components(&pieces, 1, &mut out);
        assert(views(pieces@).skip(1) =~= views(pieces@).drop_first());
        assert(component_views(out@) =~= path_components(p@));
    } else if is_dot(pieces[0].as_slice()) {
        out.push(Component::CurDir);
        push_pieces_components(&pieces, 1, &mut out);
        assert(views(pieces@).skip(1) =~= views(pieces@).drop_first());
        assert(component_views(out@) =~= path_components(p@));
    } else {
        push_pieces_components(&pieces, 0, &mut out);
        assert(views(pieces@).skip(0) =~= views(pieces@));
        assert(component_views(out@) =~= path_components(p@));
    }
    out
}

/// What the check of one archive entry comes to.
pub enum EntryCheck {
    Safe,
    EscapesRoot,
    Unsafe,
}

/// An archive entry is safe when its path starts with the component
/// `version` and every later component is a name: it is relative, holds no
/// `..` and stays below `version/`.
pub open spec fn check_entry(entry: Seq<char>, version: Seq<char>) -> EntryCheck {
    let cs = path_components(entry);
    if cs.len() == 0 || cs[0] != PathComponent::Normal(version) {
        EntryCheck::EscapesRoot
    } else if exists|i: int| 1 <= i < cs.len() && !(#[trigger] cs[i] is Normal) {
        EntryCheck::Unsafe
    } else {
        EntryCheck::Safe
    }
}

/// An archive entry that the installer refuses to extract.
#[derive(Debug)]
pub enum ArchivePathError {
    /// The entry does not lie below the directory named after the version.
    EscapesRoot(String),
    /// The entry leaves its directory through `..` (or a root).
    UnsafeEntry(String),
}

/// The error that refuses `entry` for the outcome `check`.
pub open spec fn refusal_matches(res: Result<(), ArchivePathError>, check: EntryCheck, entry: Seq<char>) -> bool {
    match check {
        EntryCheck::Safe => res is Ok,
        EntryCheck::EscapesRoot => res matches Err(ArchivePathError::EscapesRoot(e)) && e@ == entry,
        EntryCheck::Unsafe => res matches Err(ArchivePathError::UnsafeEntry(e)) && e@ == entry,
    }
}

fn check_entry_chars(entry: &[char], version: &[char]) -> (res: Result<(), ArchivePathError>)
    ensures
        refusal_matches(res, check_entry(entry@, version@), entry@),
{
    let comps = components_of(entry);
    let ghost cs = component_views(comps@);
    let n = comps.len();
    if n == 0 {
        return Err(ArchivePathError::EscapesRoot(string_of(entry)));
    }
    assert(cs[0] == comps@[0]@);
    let first_ok = match &comps[0] {
        Component::Normal(name) => chars_eq(name.as_slice(), version),
        _ => false,
    };
    if !first_ok {
        return Err(ArchivePathError::EscapesRoot(string_of(entry)));
    }
    assert(cs[0] == PathComponent::Normal(version@));
    for i in 1..n
        invariant
            n == comps@.len(),
            cs == component_views(comps@),
            cs == path_components(entry@),
            cs.len() > 0,
            cs[0] == PathComponent::Normal(version@),
            forall|j: int| 1 <= j < i ==> (#[trigger] cs[j]) is Normal,
    {
        assert(cs[i as int] == comps@[i as int]@);
        match &comps[i] {
            Component::Normal(_) => {},
            _ => {
                assert(!(cs[i as int] is Normal));
                return Err(ArchivePathError::UnsafeEntry(string_of(entry)));
            },
        }
    }
    Ok(())
}

/// Checks that an entry of the release archive of `version` stays below
/// the directory `version/`.
pub fn validate_relative_archive_path(entry: &str, version: &str) -> (res: Result<
    (),
    ArchivePathError,
>)
    ensures
        refusal_matches(res, check_entry(entry@, version@), entry@),
{
    let ec = chars_of(entry);
    let vc = chars_of(version);
    check_entry_chars(ec.as_slice(), vc.as_slice())
}

/// Index of the first entry of `entries` that is not safe; `entries.len()`
/// when all are.
pub open spec fn first_refused(entries: Seq<Seq<char>>, version: Seq<char>) -> nat
    decreases entries.len(),
{
    if entries.len() == 0 || !(check_entry(entries[0], version) is Safe) {
        0
    } else {
        1 + first_refused(entries.drop_first(), version)
    }
}

/// `first_refused` finds the first entry that is not safe.
pub proof fn lemma_first_refused(entries: Seq<Seq<char>>, version: Seq<char>)
    ensures
        first_refused(entries, version) <= entries.len(),
        first_refused(entries, version) < entries.len() ==> !(check_entry(
            entries[first_refused(entries, version) as int],
            version,
        ) is Safe),
        forall|j: int|
            0 <= j < first_refused(entries, version) ==> check_entry(#[trigger] entries[j], version) is Safe,
    decreases entries.len(),
{
    if entries.len() > 0 && check_entry(entries[0], version) is Safe {
        lemma_first_refused(entries.drop_first(), version);
        assert forall|j: int|
            0 <= j < first_refused(entries, version) implies check_entry(#[trigger] entries[j], version) is Safe by {
            if j > 0 {
                assert(entries[j] == entries.drop_first()[j - 1]);
            }
        }
    }
}

/// Checks every line of an archive listing (`tar -tzf`): the first entry
/// that is not safe is refused.
pub fn validate_archive_listing(listing: &str, version: &str) -> (res: Result<
    (),
    ArchivePathError,
>)
    ensures
        ({
            let es = lines(listing@);
            let k = first_refused(es, version@);
            &&& k == es.len() ==> res is Ok
            &&& k < es.len() ==> refusal_matches(res, check_entry(es[k as int], version@), es[k as int])
                && res is Err
        }),
{
    let cs = chars_of(listing);
    let vc = chars_of(version);
    let ls = lines_of(cs.as_slice());
    let ghost es = views(ls@);
    proof {
        lemma_first_refused(es, version@);
    }
    let n = ls.len();
    for i in 0..n
        invariant
            n == ls@.len(),
            es == views(ls@),
            es == lines(listing@),
            vc@ == version@,
            forall|j: int| 0 <= j < i ==> check_entry(#[trigger] es[j], version@) is Safe,
    {
        assert(es[i as int] == ls@[i as int]@);
        let r = check_entry_chars(ls[i].as_slice(), vc.as_slice());
        if r.is_err() {
            assert(first_refused(es, version@) == i) by {
                lemma_first_refused(es, version@);
                if first_refused(es, version@) < i {
                    let k = first_refused(es, version@) as int;
                    assert(check_entry(es[k], version@) is Safe);
                }
                if first_refused(es, version@) > i {
                    assert(check_entry(es[i as int], version@) is Safe);
                }
            }
            return r;
        }
    }
    assert(first_refused(es, version@) == n) by {
        lemma_first_refused(es, version@);
        if first_refused(es, version@) < n {
            let k = first_refused(es, version@) as int;
            assert(check_entry(es[k], version@) is Safe);
        }
    }
    Ok(())
}

/// A first piece of a path is empty only when the path is empty or begins
/// with the separator.
proof fn lemma_split_first_empty(s: Seq<char>, c: char)
    ensures
        split(s, c)[0].len() == 0 && s.len() > 0 ==> s[0] == c,
    decreases s.len(),
{
    if s.len() > 0 {
        let t = s.drop_last();
        lemma_split_len(t, c);
        lemma_split_first_empty(t, c);
        let p = split(t, c);
        if s.last() != c && p.len() == 1 {
            assert(split(s, c)[0] == p.last().push(s.last()));
        }
        if t.len() > 0 {
            assert(s[0] == t[0]);
        }
    }
}

/// The components of the pieces include the component of each piece.
proof fn lemma_pieces_components_has(pieces: Seq<Seq<char>>, k: int)
    requires
        0 <= k < pieces.len(),
        piece_component(pieces[k]) is Some,
    ensures
        pieces_components(pieces).contains(piece_component(pieces[k])->0),
    decreases pieces.len(),
{
    let rest = pieces_components(pieces.drop_last());
    if k == pieces.len() - 1 {
        assert(pieces_components(pieces)[rest.len() as int] == piece_component(pieces[k])->0);
    } else {
        lemma_pieces_components_has(pieces.drop_last(), k);
        let j = choose|j: int| 0 <= j < rest.len() && rest[j] == piece_component(pieces[k])->0;
        assert(pieces_components(pieces)[j] == rest[j]);
    }
}

/// The first piece, when it yields a component, yields the first component.
proof fn lemma_pieces_components_first(pieces: Seq<Seq<char>>)
    requires
        pieces.len() > 0,
        piece_component(pieces[0]) is Some,
    ensures
        pieces_components(pieces).len() > 0,
        pieces_components(pieces)[0] == piece_component(pieces[0])->0,
    decreases pieces.len(),
{
    let rest = pieces_components(pieces.drop_last());
    let tail = match piece_component(pieces.last()) {
        Some(c) => seq![c],
        None => Seq::<PathComponent>::empty(),
    };
    assert(pieces_components(pieces) == rest + tail);
    if pieces.len() > 1 {
        lemma_pieces_components_first(pieces.drop_last());
        assert(pieces.drop_last()[0] == pieces[0]);
        assert((rest + tail)[0] == rest[0]);
    } else {
        assert(pieces.drop_last() =~= Seq::<Seq<char>>::empty());
        assert(rest =~= Seq::<PathComponent>::empty());
        assert((rest + tail)[0] == tail[0]);
    }
}

/// Law: an archive entry that passes the check is a relative path whose
/// first piece is the version and which holds no `..` piece, so extracting
/// it writes below `version/`.
pub proof fn lemma_safe_entry_is_confined(entry: Seq<char>, version: Seq<char>)
    requires
        check_entry(entry, version) is Safe,
    ensures
        entry.len() > 0,
        entry[0] != '/',
        split(entry, '/')[0] == version,
        forall|k: int|
            0 <= k < split(entry, '/').len() ==> #[trigger] split(entry, '/')[k] != seq!['.', '.'],
{
    let pieces = split(entry, '/');
    let cs = path_components(entry);
    lemma_split_len(entry, '/');
    lemma_split_first_empty(entry, '/');
    assert(entry.len() > 0 && entry[0] == '/' ==> cs[0] == PathComponent::RootDir);
    assert(pieces[0] == seq!['.'] ==> cs[0] == PathComponent::CurDir);
    if entry.len() == 0 {
        assert(pieces =~= seq![Seq::<char>::empty()]);
        assert(pieces_components(pieces.drop_last()) =~= Seq::<PathComponent>::empty());
        assert(cs.len() == 0);
    }
    assert(entry.len() > 0);
    assert(entry[0] != '/');
    assert(pieces[0] != seq!['.']);
    assert(cs == pieces_components(pieces));
    assert(pieces[0].len() > 0);
    lemma_pieces_components_first(pieces);
    assert(cs[0] == piece_component(pieces[0])->0);
    assert(pieces[0] == version);
    assert forall|k: int| 0 <= k < pieces.len() implies #[trigger] pieces[k] != seq!['.', '.'] by {
        if pieces[k] == seq!['.', '.'] {
            assert(seq!['.', '.'] != seq!['.']) by {
                assert(seq!['.', '.'].len() != seq!['.'].len());
            }
            assert(seq!['.', '.'].len() != 0);
            lemma_pieces_components_has(pieces, k);
            let j = choose|j: int| 0 <= j < cs.len() && cs[j] == PathComponent::ParentDir;
            if j == 0 {
            } else {
                assert(!(cs[j] is Normal));
            }
        }
    }
}

/// Rank of a component in the order of `std::path::Component`.
pub open spec fn component_rank(c: PathComponent) -> int {
    match c {
        PathComponent::RootDir => 1,
        PathComponent::CurDir => 2,
        PathComponent::ParentDir => 3,
        PathComponent::Normal(_) => 4,
    }
}

/// The order of `std::path::Component`: by kind, then names by their text.
pub open spec fn component_lt(a: PathComponent, b: PathComponent) -> bool {
    if component_rank(a) != component_rank(b) {
        component_rank(a) < component_rank(b)
    } else {
        match (a, b) {
            (PathComponent::Normal(x), PathComponent::Normal(y)) => lex_lt(x, y),
            _ => false,
        }
    }
}

/// Lexicographic order on component lists: the order of `std::path::Path`.
pub open spec fn components_lt(a: Seq<PathComponent>, b: Seq<PathComponent>) -> bool
    decreases a.len(),
{
    if a.len() == 0 {
        b.len() > 0
    } else if b.len() == 0 {
        false
    } else if a[0] != b[0] {
        component_lt(a[0], b[0])
    } else {
        components_lt(a.drop_first(), b.drop_first())
    }
}

/// Two paths are equal as `std::path::Path`s: same components.
pub open spec fn same_path(a: Seq<char>, b: Seq<char>) -> bool {
    path_components(a) == path_components(b)
}

/// `a` sorts before `b` as `std::path::Path`s.
pub open spec fn path_lt(a: Seq<char>, b: Seq<char>) -> bool {
    components_lt(path_components(a), path_components(b))
}

fn component_eq(a: &Component, b: &Component) -> (r: bool)
    ensures
        r == (a@ == b@),
{
    match (a, b) {
        (Component::RootDir, Component::RootDir) => true,
        (Component::CurDir, Component::CurDir) => true,
        (Component::ParentDir, Component::ParentDir) => true,
        (Component::Normal(x), Component::Normal(y)) => chars_eq(x.as_slice(), y.as_slice()),
        _ => false,
    }
}

fn rank_of(c: &Component) -> (r: u8)
    ensures
        r == component_rank(c@),
{
    match c {
        Component::RootDir => 1,
        Component::CurDir => 2,
        Component::ParentDir => 3,
        Component::Normal(_) => 4,
    }
}

fn component_lt_exec(a: &Component, b: &Component) -> (r: bool)
    ensures
        r == component_lt(a@, b@),
{
    let ra = rank_of(a);
    let rb = rank_of(b);
    if ra != rb {
        return ra < rb;
    }
    match (a, b) {
        (Component::Normal(x), Component::Normal(y)) => chars_lt(x.as_slice(), y.as_slice()),
        _ => false,
    }
}

/// Whether two component lists are equal.
pub fn components_eq(a: &[Component], b: &[Component]) -> (r: bool)
    ensures
        r == (component_views(a@) == component_views(b@)),
{
    if a.len() != b.len() {
        assert(component_views(a@).len() != component_views(b@).len());
        return false;
    }
    let n = a.len();
    for i in 0..n
        invariant
            n == a@.len(),
            n == b@.len(),
            forall|j: int| 0 <= j < i ==> a@[j]@ == b@[j]@,
    {
        if !component_eq(&a[i], &b[i]) {
            assert(component_views(a@)[i as int] != component_views(b@)[i as int]);
            return false;
        }
    }
    assert(component_views(a@) =~= component_views(b@));
    true
}

/// Whether the component list `a` sorts before `b`.
fn components_lt_exec(a: &[Component], b: &[Component]) -> (r: bool)
    ensures
        r == components_lt(component_views(a@), component_views(b@)),
{
    let ghost av = component_views(a@);
    let ghost bv = component_views(b@);
    let n = a.len();
    let m = b.len();
    let mut i: usize = 0;
    assert(av.skip(0) =~= av);
    assert(bv.skip(0) =~= bv);
    while i < n && i < m
        invariant
            i <= n,
            i <= m,
            n == a@.len(),
            m == b@.len(),
            av == component_views(a@),
            bv == component_views(b@),
            components_lt(av, bv) == components_lt(av.skip(i as int), bv.skip(i as int)),
        decreases n - i,
    {
        assert(av.skip(i as int)[0] == a@[i as int]@);
        assert(bv.skip(i as int)[0] == b@[i as int]@);
        if !component_eq(&a[i], &b[i]) {
            return component_lt_exec(&a[i], &b[i]);
        }
        assert(av.skip(i as int).drop_first() =~= av.skip(i + 1));
        assert(bv.skip(i as int).drop_first() =~= bv.skip(i + 1));
        i = i + 1;
    }
    i < m
}

/// How many of `files` sort before `f`.
pub open spec fn count_before(files: Seq<Seq<char>>, f: Seq<char>) -> nat
    decreases files.len(),
{
    if files.len() == 0 {
        0
    } else {
        count_before(files.drop_last(), f) + if path_lt(files.last(), f) {
            1nat
        } else {
            0nat
        }
    }
}

/// `BTreeSet<PathBuf>::insert`: adds `f` at its place in path order, unless
/// an equal path is there already (which stays).
pub open spec fn insert_path(files: Seq<Seq<char>>, f: Seq<char>) -> Seq<Seq<char>> {
    if exists|i: int| 0 <= i < files.len() && same_path(#[trigger] files[i], f) {
        files
    } else {
        files.insert(count_before(files, f) as int, f)
    }
}

/// `count_before` never exceeds the number of files.
proof fn lemma_count_before_len(files: Seq<Seq<char>>, f: Seq<char>)
    ensures
        count_before(files, f) <= files.len(),
    decreases files.len(),
{
    if files.len() > 0 {
        lemma_count_before_len(files.drop_last(), f);
    }
}

/// The files held so far, each beside its components.
pub open spec fn files_match(files: Seq<Vec<char>>, comps: Seq<Vec<Component>>) -> bool {
    &&& files.len() == comps.len()
    &&& forall|i: int|
        0 <= i < files.len() ==> component_views(#[trigger] comps[i]@) == path_components(
            files[i]@,
        )
}

/// Adds the file `f` (with components `fc`) to the set of manifest files.
fn insert_file(
    files: &mut Vec<Vec<char>>,
    comps: &mut Vec<Vec<Component>>,
    f: Vec<char>,
    fc: Vec<Component>,
)
    requires
        files_match(old(files)@, old(comps)@),
        component_views(fc@) == path_components(f@),
    ensures
        files_match(final(files)@, final(comps)@),
        views(final(files)@) == insert_path(views(old(files)@), f@),
{
    let ghost fs = views(files@);
    let n = files.len();
    let mut count: usize = 0;
    assert(fs.take(0) =~= Seq::<Seq<char>>::empty());
    for i in 0..n
        invariant
            n == files@.len(),
            fs == views(files@),
            files_match(files@, comps@),
            component_views(fc@) == path_components(f@),
            count <= i,
            count == count_before(fs.take(i as int), f@),
            forall|j: int| 0 <= j < i ==> !same_path(#[trigger] fs[j], f@),
    {
        assert(fs.take(i + 1).drop_last() =~= fs.take(i as int));
        assert(fs[i as int] == files@[i as int]@);
        assert(component_views(comps@[i as int]@) == path_components(fs[i as int]));
        if components_eq(comps[i].as_slice(), fc.as_slice()) {
            assert(same_path(fs[i as int], f@));
            assert(insert_path(fs, f@) == fs);
            return ;
        }
        if components_lt_exec(comps[i].as_slice(), fc.as_slice()) {
            count = count + 1;
        }
    }
    assert(fs.take(n as int) =~= fs);
    let ghost old_comps = comps@;
    files.insert(count, f);
    comps.insert(count, fc);
    assert(views(files@) =~= fs.insert(count as int, f@));
    assert forall|i: int| 0 <= i < files@.len() implies component_views(
        #[trigger] comps@[i]@,
    ) == path_components(files@[i]@) by {
        if i < count {
            assert(comps@[i] == old_comps[i]);
        } else if i > count {
            assert(comps@[i] == old_comps[i - 1]);
        }
    }
}

/// Where the manifest parser stands after some lines.
pub struct ManifestState {
    pub version: Option<Seq<char>>,
    pub bin_dir: Option<Seq<char>>,
    pub lib_list: Option<Seq<char>>,
    pub files: Seq<Seq<char>>,
    pub in_files: bool,
}

/// The state before the first line.
pub open spec fn manifest_start() -> ManifestState {
    ManifestState {
        version: None,
        bin_dir: None,
        lib_list: None,
        files: Seq::<Seq<char>>::empty(),
        in_files: false,
    }
}

/// One line of `manifest.txt`: blank lines are skipped; `[files]` opens the
/// file list, whose lines are paths; before it, `key = value` lines set
/// `version`, `bin_dir` and `lib_list` (the last setting wins), and other
/// lines are ignored.
pub open spec fn manifest_step(st: ManifestState, raw: Seq<char>) -> ManifestState {
    let line = trim(raw);
    if line.len() == 0 {
        st
    } else if line == "[files]"@ {
        ManifestState { in_files: true, ..st }
    } else if st.in_files {
        ManifestState { files: insert_path(st.files, line), ..st }
    } else {
        match split_once(line, '=') {
            Some((k, v)) => {
                let key = trim(k);
                let value = trim(v);
                if key == "version"@ {
                    ManifestState { version: Some(value), ..st }
                } else if key == "bin_dir"@ {
                    ManifestState { bin_dir: Some(value), ..st }
                } else if key == "lib_list"@ {
                    ManifestState { lib_list: Some(value), ..st }
                } else {
                    st
                }
            },
            None => st,
        }
    }
}

/// The state after the lines `ls`.
pub open spec fn manifest_lines(ls: Seq<Seq<char>>) -> ManifestState
    decreases ls.len(),
{
    if ls.len() == 0 {
        manifest_start()
    } else {
        manifest_step(manifest_lines(ls.drop_last()), ls.last())
    }
}

/// What an artifact's `manifest.txt` declares.
#[derive(Debug)]
pub struct ArtifactManifest {
    pub version: String,
    pub bin_dir: String,
    pub lib_list: String,
    pub files: Vec<String>,
}

/// Abstract value of an [`ArtifactManifest`].
pub struct ManifestView {
    pub version: Seq<char>,
    pub bin_dir: Seq<char>,
    pub lib_list: Seq<char>,
    pub files: Seq<Seq<char>>,
}

impl View for ArtifactManifest {
    type V = ManifestView;

    open spec fn view(&self) -> ManifestView {
        ManifestView {
            version: self.version@,
            bin_dir: self.bin_dir@,
            lib_list: self.lib_list@,
            files: string_views(self.files@),
        }
    }
}

/// A manifest that cannot be used.
#[derive(Debug)]
pub enum ManifestError {
    MissingVersion,
}

/// The manifest that `text` declares: `None` when it names no version;
/// `bin_dir` defaults to `bin` and `lib_list` to `lib/lib-list.txt`.
pub open spec fn manifest_of(text: Seq<char>) -> Option<ManifestView> {
    let st = manifest_lines(lines(text));
    match st.version {
        Some(v) => Some(
            ManifestView {
                version: v,
                bin_dir: match st.bin_dir {
                    Some(b) => b,
                    None => "bin"@,
                },
                lib_list: match st.lib_list {
                    Some(l) => l,
                    None => "lib/lib-list.txt"@,
                },
                files: st.files,
            },
        ),
        None => None,
    }
}

/// The optional text of an optional character vector.
pub open spec fn opt_chars(o: Option<Vec<char>>) -> Option<Seq<char>> {
    match o {
        Some(v) => Some(v@),
        None => None,
    }
}

/// Parses the text of an artifact's `manifest.txt`.
pub fn parse_artifact_manifest(text: &str) -> (res: Result<ArtifactManifest, ManifestError>)
    ensures
        manifest_of(text@) matches Some(m) ==> (res matches Ok(r) && r@ == m),
        manifest_of(text@) is None ==> (res matches Err(e) && e is MissingVersion),
{
    let cs = chars_of(text);
    let ls = lines_of(cs.as_slice());
    let ghost lv = views(ls@);
    let n = ls.len();
    let mut version: Option<Vec<char>> = None;
    let mut bin_dir: Option<Vec<char>> = None;
    let mut lib_list: Option<Vec<char>> = None;
    let mut files: Vec<Vec<char>> = Vec::new();
    let mut comps: Vec<Vec<Component>> = Vec::new();
    let mut in_files = false;
    assert(lv.take(0) =~= Seq::<Seq<char>>::empty());
    assert(views(files@) =~= Seq::<Seq<char>>::empty());
    for i in 0..n
        invariant
            n == ls@.len(),
            lv == views(ls@),
            lv == lines(text@),
            files_match(files@, comps@),
            manifest_lines(lv.take(i as int)) == (ManifestState {
                version: opt_chars(version),
                bin_dir: opt_chars(bin_dir),
                lib_list: opt_chars(lib_list),
                files: views(files@),
                in_files: in_files,
            }),
    {
        assert(lv.take(i + 1).drop_last() =~= lv.take(i as int));
        assert(lv[i as int] == ls@[i as int]@);
        let line = trim_chars(ls[i].as_slice());
        if line.len() == 0 {
        } else if eq_str(line.as_slice(), "[files]") {
            in_files = true;
        } else if in_files {
            let fc = components_of(line.as_slice());
            insert_file(&mut files, &mut comps, line, fc);
        } else {
            let k = index_of_char(line.as_slice(), '=');
            proof {
                lemma_prefix_before(line@, '=');
            }
            if k < line.len() {
                let key_raw = copy_range(line.as_slice(), 0, k);
                let value_raw = copy_range(line.as_slice(), k + 1, line.len());
                assert(key_raw@ =~= line@.take(k as int));
                assert(value_raw@ =~= line@.skip(k + 1));
                let key = trim_chars(key_raw.as_slice());
                let value = trim_chars(value_raw.as_slice());
                if eq_str(key.as_slice(), "version") {
                    version = Some(value);
                } else if eq_str(key.as_slice(), "bin_dir") {
                    bin_dir = Some(value);
                } else if eq_str(key.as_slice(), "lib_list") {
                    lib_list = Some(value);
                }
            }
        }
    }
    assert(lv.take(n as int) =~= lv);
    match version {
        None => Err(ManifestError::MissingVersion),
        Some(v) => {
            let bin = match bin_dir {
                Some(b) => string_of(b.as_slice()),
                None => "bin".to_owned(),
            };
            let lib = match lib_list {
                Some(l) => string_of(l.as_slice()),
                None => "lib/lib-list.txt".to_owned(),
            };
            let mut out_files: Vec<String> = Vec::new();
            let m = files.len();
            for j in 0..m
                invariant
                    m == files@.len(),
                    string_views(out_files@) == views(files@).take(j as int),
            {
                let ghost before = out_files@;
                out_files.push(string_of(files[j].as_slice()));
                assert(string_views(out_files@) =~= string_views(before).push(files@[j as int]@));
                assert(views(files@).take(j + 1) =~= views(files@).take(j as int).push(files@[j as int]@));
                assert(string_views(out_files@) =~= views(files@).take(j + 1));
            }
            assert(views(files@).take(m as int) =~= views(files@));
            Ok(ArtifactManifest { version: string_of(v.as_slice()), bin_dir: bin, lib_list: lib, files: out_files })
        },
    }
}

/// `component_lt` is a strict order.
proof fn lemma_component_lt_order(a: PathComponent, b: PathComponent, c: PathComponent)
    ensures
        !component_lt(a, a),
        component_lt(a, b) && component_lt(b, c) ==> component_lt(a, c),
        component_lt(a, b) ==> !component_lt(b, a),
        a != b ==> component_lt(a, b) || component_lt(b, a),
{
    if let (PathComponent::Normal(x), PathComponent::Normal(y), PathComponent::Normal(z)) = (a, b, c) {
        lemma_lex_lt_order(x, y, z);
    }
    if let (PathComponent::Normal(x), PathComponent::Normal(y)) = (a, b) {
        lemma_lex_lt_order(x, y, y);
        lemma_lex_lt_total(x, y);
    }
    if let PathComponent::Normal(x) = a {
        lemma_lex_lt_order(x, x, x);
    }
}

/// `components_lt` is a strict order, total on different lists.
proof fn lemma_components_lt_order(a: Seq<PathComponent>, b: Seq<PathComponent>, c: Seq<PathComponent>)
    ensures
        !components_lt(a, a),
        components_lt(a, b) && components_lt(b, c) ==> components_lt(a, c),
        components_lt(a, b) ==> !components_lt(b, a),
        a != b ==> components_lt(a, b) || components_lt(b, a),
    decreases a.len(),
{
    if a.len() > 0 && b.len() > 0 && c.len() > 0 {
        lemma_components_lt_order(a.drop_first(), b.drop_first(), c.drop_first());
        lemma_component_lt_order(a[0], b[0], c[0]);
    }
    if a.len() > 0 && b.len() > 0 {
        lemma_components_lt_order(a.drop_first(), b.drop_first(), b.drop_first());
        lemma_component_lt_order(a[0], b[0], b[0]);
        if a[0] == b[0] && a.drop_first() == b.drop_first() {
            assert(a =~= seq![a[0]] + a.drop_first());
            assert(b =~= seq![b[0]] + b.drop_first());
        }
    }
    if a.len() > 0 {
        lemma_components_lt_order(a.drop_first(), a.drop_first(), a.drop_first());
    }
    if a.len() == 0 && b.len() == 0 {
        assert(a =~= b);
    }
}

/// Files in strictly ascending path order (so no two are the same path).
pub open spec fn paths_sorted(files: Seq<Seq<char>>) -> bool {
    forall|i: int, j: int| 0 <= i < j < files.len() ==> path_lt(#[trigger] files[i], #[trigger] files[j])
}

/// In a sorted list, the files before `f` are exactly the first ones.
proof fn lemma_count_before_sorted(files: Seq<Seq<char>>, f: Seq<char>)
    requires
        paths_sorted(files),
    ensures
        count_before(files, f) <= files.len(),
        forall|j: int| 0 <= j < files.len() ==> (j < count_before(files, f) <==> path_lt(#[trigger] files[j], f)),
    decreases files.len(),
{
    if files.len() > 0 {
        let t = files.drop_last();
        let x = files.last();
        assert(paths_sorted(t)) by {
            assert forall|i: int, j: int| 0 <= i < j < t.len() implies path_lt(#[trigger] t[i], #[trigger] t[j]) by {
                assert(t[i] == files[i] && t[j] == files[j]);
            }
        }
        lemma_count_before_sorted(t, f);
        lemma_count_before_len(t, f);
        if path_lt(x, f) {
            assert forall|j: int| 0 <= j < t.len() implies path_lt(#[trigger] t[j], f) by {
                assert(path_lt(files[j], files[files.len() - 1]));
                lemma_components_lt_order(path_components(t[j]), path_components(x), path_components(f));
            }
        }
        assert forall|j: int| 0 <= j < files.len() implies (j < count_before(files, f) <==> path_lt(#[trigger] files[j], f)) by {
            if j < t.len() {
                assert(files[j] == t[j]);
            }
        }
    }
}

/// Inserting a path keeps the files sorted and holds a path equal to it.
proof fn lemma_insert_path_sorted(files: Seq<Seq<char>>, f: Seq<char>)
    requires
        paths_sorted(files),
    ensures
        paths_sorted(insert_path(files, f)),
        exists|i: int| 0 <= i < insert_path(files, f).len() && same_path(#[trigger] insert_path(files, f)[i], f),
{
    if exists|i: int| 0 <= i < files.len() && same_path(#[trigger] files[i], f) {
    } else {
        let k = count_before(files, f) as int;
        lemma_count_before_sorted(files, f);
        let t = files.insert(k, f);
        assert(t[k] == f);
        assert forall|i: int, j: int| 0 <= i < j < t.len() implies path_lt(#[trigger] t[i], #[trigger] t[j]) by {
            if j < k {
                assert(t[i] == files[i] && t[j] == files[j]);
            } else if j == k {
                assert(t[i] == files[i]);
            } else if i < k {
                assert(t[i] == files[i] && t[j] == files[j - 1]);
            } else if i == k {
                assert(t[j] == files[j - 1]);
                assert(!path_lt(files[j - 1], f));
                assert(!same_path(files[j - 1], f));
                lemma_components_lt_order(path_components(f), path_components(files[j - 1]), path_components(files[j - 1]));
            } else {
                assert(t[i] == files[i - 1] && t[j] == files[j - 1]);
            }
        }
    }
}

/// Law: the files of a manifest are kept as a `BTreeSet<PathBuf>` keeps
/// them: in strictly ascending path order, no two of them the same path,
/// and every path listed after `[files]` is among them.
pub proof fn lemma_manifest_files_sorted(ls: Seq<Seq<char>>)
    ensures
        paths_sorted(manifest_lines(ls).files),
    decreases ls.len(),
{
    if ls.len() > 0 {
        let st = manifest_lines(ls.drop_last());
        lemma_manifest_files_sorted(ls.drop_last());
        lemma_insert_path_sorted(st.files, trim(ls.last()));
    }
}

/// Law: a path listed in the file section of a manifest is among its files
/// (as an equal path), and no listed path is lost by a later line.
pub proof fn lemma_manifest_keeps_files(ls: Seq<Seq<char>>, k: int)
    requires
        0 <= k < ls.len(),
        manifest_lines(ls.take(k)).in_files,
        trim(ls[k]).len() > 0,
        trim(ls[k]) != "[files]"@,
    ensures
        exists|i: int|
            0 <= i < manifest_lines(ls).files.len() && same_path(
                #[trigger] manifest_lines(ls).files[i],
                trim(ls[k]),
            ),
    decreases ls.len(),
{
    lemma_manifest_files_sorted(ls.take(k));
    if k == ls.len() - 1 {
        assert(ls.drop_last() =~= ls.take(k));
        assert(manifest_lines(ls) == manifest_step(manifest_lines(ls.take(k)), ls[k]));
        assert(manifest_lines(ls).files == insert_path(manifest_lines(ls.take(k)).files, trim(ls[k])));
        lemma_insert_path_sorted(manifest_lines(ls.take(k)).files, trim(ls[k]));
        let fs = manifest_lines(ls).files;
        let j = choose|j: int| 0 <= j < fs.len() && same_path(#[trigger] fs[j], trim(ls[k]));
        assert(same_path(fs[j], trim(ls[k])));
    } else {
        assert(ls.drop_last().take(k) =~= ls.take(k));
        assert(ls.drop_last()[k] == ls[k]);
        lemma_manifest_keeps_files(ls.drop_last(), k);
        let st = manifest_lines(ls.drop_last());
        let before = st.files;
        let i = choose|i: int| 0 <= i < before.len() && same_path(#[trigger] before[i], trim(ls[k]));
        assert(manifest_lines(ls) == manifest_step(st, ls.last()));
        let after = manifest_lines(ls).files;
        let f = trim(ls.last());
        if after == before {
            assert(after[i] == before[i]);
            assert(same_path(after[i], trim(ls[k])));
        } else {
            assert(after == insert_path(before, f));
            if exists|j: int| 0 <= j < before.len() && same_path(#[trigger] before[j], f) {
                assert(false);
            } else {
                lemma_count_before_len(before, f);
                let c = count_before(before, f) as int;
                if i < c {
                    assert(after[i] == before[i]);
                } else {
                    assert(after[i + 1] == before[i]);
                }
            }
        }
    }
}

/// The pieces `ps` written one after the other with `sep` between them.
pub open spec fn join_pieces(ps: Seq<Seq<char>>, sep: char) -> Seq<char>
    decreases ps.len(),
{
    if ps.len() == 0 {
        Seq::<char>::empty()
    } else if ps.len() == 1 {
        ps[0]
    } else {
        join_pieces(ps.drop_last(), sep) + seq![sep] + ps.last()
    }
}

/// A name that a path can hold as one component: not empty, without `/`,
/// and neither `.` nor `..`.
pub open spec fn plain_name(n: Seq<char>) -> bool {
    &&& n.len() > 0
    &&& forall|i: int| 0 <= i < n.len() ==> n[i] != '/'
    &&& n != seq!['.']
    &&& n != seq!['.', '.']
}

/// Splitting joined pieces that hold no separator gives the pieces back.
proof fn lemma_split_join(ps: Seq<Seq<char>>, sep: char)
    requires
        ps.len() > 0,
        forall|k: int, i: int| 0 <= k < ps.len() && 0 <= i < ps[k].len() ==> ps[k][i] != sep,
    ensures
        split(join_pieces(ps, sep), sep) == ps,
    decreases ps.len(),
{
    if ps.len() == 1 {
        lemma_split_plain(ps[0], sep);
        assert(ps =~= seq![ps[0]]);
    } else {
        lemma_split_join(ps.drop_last(), sep);
        lemma_split_concat(join_pieces(ps.drop_last(), sep), ps.last(), sep);
        lemma_split_plain(ps.last(), sep);
        assert(ps.drop_last() + seq![ps.last()] =~= ps);
    }
}

/// Pieces that are all plain names contribute one name component each.
proof fn lemma_pieces_components_plain(ps: Seq<Seq<char>>)
    requires
        forall|k: int| 0 <= k < ps.len() ==> plain_name(#[trigger] ps[k]),
    ensures
        pieces_components(ps) == ps.map_values(|p: Seq<char>| PathComponent::Normal(p)),
    decreases ps.len(),
{
    if ps.len() > 0 {
        lemma_pieces_components_plain(ps.drop_last());
        assert(plain_name(ps[ps.len() - 1]));
        assert(pieces_components(ps) =~= ps.map_values(|p: Seq<char>| PathComponent::Normal(p)));
    } else {
        assert(pieces_components(ps) =~= ps.map_values(|p: Seq<char>| PathComponent::Normal(p)));
    }
}

/// Law: every entry made of the version directory followed by plain names
/// (any text without `/` other than `.` and `..`, such as `manifest.txt`,
/// `lib`, `libssl.so.3`) is accepted, so a release archive of ordinary
/// files and directories can always be extracted.
pub proof fn lemma_plain_entry_accepted(version: Seq<char>, names: Seq<Seq<char>>)
    requires
        plain_name(version),
        forall|k: int| 0 <= k < names.len() ==> plain_name(#[trigger] names[k]),
    ensures
        check_entry(join_pieces(seq![version] + names, '/'), version) is Safe,
{
    let ps = seq![version] + names;
    assert forall|k: int| 0 <= k < ps.len() implies plain_name(#[trigger] ps[k]) by {
        if k > 0 {
            assert(ps[k] == names[k - 1]);
        }
    }
    let path = join_pieces(ps, '/');
    assert forall|k: int, i: int| 0 <= k < ps.len() && 0 <= i < ps[k].len() implies ps[k][i] != '/' by {
        assert(plain_name(ps[k]));
    }
    lemma_split_join(ps, '/');
    let pieces = split(path, '/');
    assert(pieces[0] == version);
    if path.len() == 0 {
        assert(pieces =~= seq![Seq::<char>::empty()]);
        assert(false);
    }
    if path[0] == '/' {
        let rest = path.drop_first();
        assert(path =~= Seq::<char>::empty() + seq!['/'] + rest);
        lemma_split_concat(Seq::<char>::empty(), rest, '/');
        assert(split(Seq::<char>::empty(), '/') =~= seq![Seq::<char>::empty()]);
        assert(pieces[0] == Seq::<char>::empty());
        assert(false);
    }
    lemma_pieces_components_plain(ps);
    let cs = path_components(path);
    assert(cs == pieces_components(ps));
    assert(cs[0] == PathComponent::Normal(version));
    assert(!exists|i: int| 1 <= i < cs.len() && !(#[trigger] cs[i] is Normal));
}

} // verus!
