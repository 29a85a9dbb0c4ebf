//! Which dynamic libraries a release needs from the system.
use vstd::prelude::*;

use crate::text::{
    chars_of, find_str, find_sub, first_token, first_token_chars, is_whitespace_char, lemma_split_plain,
    lemma_trim_ends, lines, lines_of, non_ws_prefix, split, starts_with_str, string_of, string_views,
    trim, trim_chars, views,
};

verus! {

/// The directories searched for a library before asking the library cache.
pub const SYSTEM_LIBRARY_DIRS: [&'static str; 6] = [
    "/lib",
    "/lib64",
    "/usr/lib",
    "/usr/lib64",
    "/lib/x86_64-linux-gnu",
    "/usr/lib/x86_64-linux-gnu",
];

/// A library that every Linux system provides with its C runtime.
pub open spec fn os_runtime_library(name: Seq<char>) -> bool {
    ||| "libc.so"@.is_prefix_of(name)
    ||| "libm.so"@.is_prefix_of(name)
    ||| "ld-linux"@.is_prefix_of(name)
    ||| "ld-musl"@.is_prefix_of(name)
}

fn is_os_runtime_library_chars(cs: &[char]) -> (r: bool)
    ensures
        r == os_runtime_library(cs@),
{
    starts_with_str(cs, "libc.so") || starts_with_str(cs, "libm.so") || starts_with_str(
        cs,
        "ld-linux",
    ) || starts_with_str(cs, "ld-musl")
}

/// Whether the library `name` belongs to the C runtime of the system.
pub fn is_os_runtime_library(name: &str) -> (r: bool)
    ensures
        r == os_runtime_library(name@),
{
    let cs = chars_of(name);
    is_os_runtime_library_chars(cs.as_slice())
}

/// The library that a line of `lib-list.txt` asks for: the first word of a
/// line that is neither blank nor a `#` comment, unless the C runtime
/// provides it.
pub open spec fn lib_list_entry(line: Seq<char>) -> Option<Seq<char>> {
    let t = trim(line);
    if t.len() == 0 || t[0] == '#' {
        None
    } else {
        match first_token(t) {
            Some(name) => if os_runtime_library(name) {
                None
            } else {
                Some(name)
            },
            None => None,
        }
    }
}

/// The libraries that the lines ask for, in order.
pub open spec fn lib_list_entries(ls: Seq<Seq<char>>) -> Seq<Seq<char>>
    decreases ls.len(),
{
    if ls.len() == 0 {
        Seq::<Seq<char>>::empty()
    } else {
        lib_list_entries(ls.drop_last()) + match lib_list_entry(ls.last()) {
            Some(name) => seq![name],
            None => Seq::<Seq<char>>::empty(),
        }
    }
}

/// The libraries that a `lib-list.txt` asks the system for, in order; each
/// must then be found on the system.
pub fn required_libraries(text: &str) -> (res: Vec<String>)
    ensures
        string_views(res@) == lib_list_entries(lines(text@)),
{
    let cs = chars_of(text);
    let ls = lines_of(cs.as_slice());
    let ghost lv = views(ls@);
    let n = ls.len();
    let mut out: Vec<String> = Vec::new();
    for i in 0..n
        invariant
            n == ls@.len(),
            lv == views(ls@),
            lv == lines(text@),
            string_views(out@) == lib_list_entries(lv.take(i as int)),
    {
        let ghost before = string_views(out@);
        assert(lv.take(i + 1).drop_last() =~= lv.take(i as int));
        assert(lv[i as int] == ls@[i as int]@);
        let t = trim_chars(ls[i].as_slice());
        if t.len() > 0 && t[0] != '#' {
            match first_token_chars(t.as_slice()) {
                Some(name) => {
                    if !is_os_runtime_library_chars(name.as_slice()) {
                        out.push(string_of(name.as_slice()));
                    }
                },
                None => {},
            }
        }
        assert(string_views(out@) =~= lib_list_entries(lv.take(i + 1)));
    }
    assert(lv.take(n as int) =~= lv);
    out
}

/// Whether the library cache listing (`ldconfig -p`) mentions `name`
/// anywhere: `str::contains`.
pub fn listing_mentions(listing: &str, name: &str) -> (r: bool)
    ensures
        r == find_sub(listing@, name@) is Some,
{
    let hs = chars_of(listing);
    let ns = chars_of(name);
    find_str(hs.as_slice(), ns.as_slice()).is_some()
}

/// Law: the libraries that a list of lines asks for are those of its first
/// part followed by those of the rest; no line depends on where it stands.
pub proof fn lemma_lib_list_entries_concat(a: Seq<Seq<char>>, b: Seq<Seq<char>>)
    ensures
        lib_list_entries(a + b) == lib_list_entries(a) + lib_list_entries(b),
    decreases b.len(),
{
    if b.len() == 0 {
        assert(a + b =~= a);
        assert(lib_list_entries(a) + lib_list_entries(b) =~= lib_list_entries(a));
    } else {
        lemma_lib_list_entries_concat(a, b.drop_last());
        assert((a + b).drop_last() =~= a + b.drop_last());
        assert((a + b).last() == b.last());
        let tail = match lib_list_entry(b.last()) {
            Some(name) => seq![name],
            None => Seq::<Seq<char>>::empty(),
        };
        assert(lib_list_entries(a) + lib_list_entries(b.drop_last()) + tail =~= lib_list_entries(a)
            + (lib_list_entries(b.drop_last()) + tail));
    }
}

/// Law: one line of `lib-list.txt` that is neither blank nor a `#` comment
/// asks for its first whitespace-separated word, unless the C runtime
/// provides that library; any other line asks for nothing.
pub proof fn lemma_lib_list_line(line: Seq<char>)
    ensures
        trim(line).len() > 0 && trim(line)[0] != '#' && !os_runtime_library(
            non_ws_prefix(trim(line)),
        ) ==> lib_list_entries(seq![line]) == seq![non_ws_prefix(trim(line))],
        trim(line).len() == 0 || trim(line)[0] == '#' || os_runtime_library(
            non_ws_prefix(trim(line)),
        ) ==> lib_list_entries(seq![line]) == Seq::<Seq<char>>::empty(),
{
    let ls = seq![line];
    lemma_trim_ends(line);
    assert(ls.drop_last() =~= Seq::<Seq<char>>::empty());
    assert(ls.last() == line);
    assert(lib_list_entries(Seq::<Seq<char>>::empty()) =~= Seq::<Seq<char>>::empty());
    if trim(line).len() > 0 {
        assert(first_token(trim(line)) == Some(non_ws_prefix(trim(line))));
    }
}

/// Law: a text made of one line (no line break) is that one line, so a
/// `lib-list.txt` holding only `libssl.so.3` asks for `libssl.so.3`.
pub proof fn lemma_single_line_text(line: Seq<char>)
    requires
        line.len() > 0,
        forall|i: int| 0 <= i < line.len() ==> line[i] != '\n',
    ensures
        lines(line) == seq![line],
{
    lemma_split_plain(line, '\n');
    let p = split(line, '\n');
    assert(p.drop_last() =~= Seq::<Seq<char>>::empty());
    assert(lines(line) =~= seq![line]);
}

} // verus!
