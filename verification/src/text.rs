//! Character-level text primitives shared by the parsers of this crate.
//!
//! Strings are modelled by their view, the sequence of their characters.
//! The spec functions here restate the parts of `str` that the parsers use
//! (`trim`, `lines`, `split`, `split_once`, ...) over `Seq<char>`.
use vstd::prelude::*;

verus! {

/// The characters of a slice of character vectors, each taken by its view.
pub open spec fn views(v: Seq<Vec<char>>) -> Seq<Seq<char>> {
    v.map_values(|x: Vec<char>| x@)
}

/// The characters of each string of a sequence.
pub open spec fn string_views(v: Seq<String>) -> Seq<Seq<char>> {
    v.map_values(|x: String| x@)
}

/// The characters of an optional string.
pub open spec fn opt_view(o: Option<String>) -> Option<Seq<char>> {
    match o {
        Some(s) => Some(s@),
        None => None,
    }
}

/// The characters of each optional string of a sequence.
pub open spec fn opt_views(v: Seq<Option<String>>) -> Seq<Option<Seq<char>>> {
    v.map_values(|o: Option<String>| opt_view(o))
}

/// Copies the characters of `s` into a vector.
pub fn chars_of(s: &str) -> (res: Vec<char>)
    ensures
        res@ == s@,
{
    let mut res: Vec<char> = Vec::new();
    for c in it: s.chars()
        invariant
            res@ == it.seq().take(it.index() as int),
            it.seq() == s@,
    {
        res.push(c);
    }
    res
}

/// `String::push`: appends one character at the end of the string.
#[verifier::external_body]
fn push_char(s: &mut String, c: char)
    ensures
        final(s)@ == old(s)@.push(c),
{
    s.push(c);
}

/// Builds a string holding exactly the characters of `cs`.
pub fn string_of(cs: &[char]) -> (res: String)
    ensures
        res@ == cs@,
{
    let mut res = String::new();
    let n = cs.len();
    for i in 0..n
        invariant
            n == cs@.len(),
            res@ == cs@.take(i as int),
    {
        push_char(&mut res, cs[i]);
        assert(cs@.take(i + 1) =~= cs@.take(i as int).push(cs@[i as int]));
    }
    assert(cs@.take(n as int) =~= cs@);
    res
}

/// Unicode `White_Space`, the property behind `char::is_whitespace`.
pub open spec fn is_whitespace_char(c: char) -> bool {
    let u = c as u32;
    ||| 0x09 <= u <= 0x0d
    ||| u == 0x20
    ||| u == 0x85
    ||| u == 0xa0
    ||| u == 0x1680
    ||| 0x2000 <= u <= 0x200a
    ||| u == 0x2028
    ||| u == 0x2029
    ||| u == 0x202f
    ||| u == 0x205f
    ||| u == 0x3000
}

/// Whether `c` is a Unicode whitespace character.
pub fn is_whitespace(c: char) -> (b: bool)
    ensures
        b == is_whitespace_char(c),
{
    let u = c as u32;
    (0x09 <= u && u <= 0x0d) || u == 0x20 || u == 0x85 || u == 0xa0 || u == 0x1680 || (0x2000
        <= u && u <= 0x200a) || u == 0x2028 || u == 0x2029 || u == 0x202f || u == 0x205f || u
        == 0x3000
}

/// `s` without its leading whitespace.
pub open spec fn trim_start(s: Seq<char>) -> Seq<char>
    decreases s.len(),
{
    if s.len() > 0 && is_whitespace_char(s[0]) {
        trim_start(s.drop_first())
    } else {
        s
    }
}

/// `s` without its trailing whitespace.
pub open spec fn trim_end(s: Seq<char>) -> Seq<char>
    decreases s.len(),
{
    if s.len() > 0 && is_whitespace_char(s.last()) {
        trim_end(s.drop_last())
    } else {
        s
    }
}

/// `str::trim`: `s` without leading and trailing whitespace.
pub open spec fn trim(s: Seq<char>) -> Seq<char> {
    trim_end(trim_start(s))
}

/// Leading whitespace is gone after `trim_start`, which keeps a suffix.
pub proof fn lemma_trim_start(s: Seq<char>)
    ensures
        trim_start(s).len() <= s.len(),
        trim_start(s) == s.skip(s.len() - trim_start(s).len()),
        trim_start(s).len() > 0 ==> !is_whitespace_char(trim_start(s)[0]),
    decreases s.len(),
{
    if s.len() > 0 && is_whitespace_char(s[0]) {
        lemma_trim_start(s.drop_first());
        assert(s.drop_first().skip(s.drop_first().len() - trim_start(s).len()) =~= s.skip(
            s.len() - trim_start(s).len(),
        ));
    } else {
        assert(s.skip(0) =~= s);
    }
}

/// Trailing whitespace is gone after `trim_end`, which keeps a prefix.
pub proof fn lemma_trim_end(s: Seq<char>)
    ensures
        trim_end(s).len() <= s.len(),
        trim_end(s) == s.take(trim_end(s).len() as int),
        trim_end(s).len() > 0 ==> !is_whitespace_char(trim_end(s).last()),
    decreases s.len(),
{
    if s.len() > 0 && is_whitespace_char(s.last()) {
        lemma_trim_end(s.drop_last());
        assert(s.drop_last().take(trim_end(s).len() as int) =~= s.take(trim_end(s).len() as int));
    } else {
        assert(s.take(s.len() as int) =~= s);
    }
}

/// A trimmed text starts and ends with a non-whitespace character.
pub proof fn lemma_trim_ends(s: Seq<char>)
    ensures
        trim(s).len() > 0 ==> !is_whitespace_char(trim(s)[0]) && !is_whitespace_char(
            trim(s).last(),
        ),
        trim_start(trim(s)) == trim(s),
{
    let t = trim_start(s);
    lemma_trim_start(s);
    lemma_trim_end(t);
    let u = trim_end(t);
    if u.len() > 0 {
        assert(u[0] == t[0]);
    }
}

/// Trimming leaves a text without whitespace at either end as it is.
pub proof fn lemma_trim_plain(s: Seq<char>)
    requires
        s.len() == 0 || (!is_whitespace_char(s[0]) && !is_whitespace_char(s.last())),
    ensures
        trim(s) == s,
{
}

/// Removes leading and trailing whitespace.
pub fn trim_chars(cs: &[char]) -> (res: Vec<char>)
    ensures
        res@ == trim(cs@),
{
    let n = cs.len();
    let mut lo: usize = 0;
    assert(cs@.subrange(0, n as int) =~= cs@);
    while lo < n && is_whitespace(cs[lo])
        invariant
            lo <= n,
            n == cs@.len(),
            trim_start(cs@) == trim_start(cs@.subrange(lo as int, n as int)),
        decreases n - lo,
    {
        assert(cs@.subrange(lo as int, n as int).drop_first() =~= cs@.subrange(lo + 1, n as int));
        lo = lo + 1;
    }
    let ghost start = cs@.subrange(lo as int, n as int);
    assert(trim_start(cs@) == start);
    let mut hi: usize = n;
    assert(start.subrange(0, (hi - lo) as int) =~= start);
    while hi > lo && is_whitespace(cs[hi - 1])
        invariant
            lo <= hi <= n,
            n == cs@.len(),
            start == cs@.subrange(lo as int, n as int),
            trim_end(start) == trim_end(cs@.subrange(lo as int, hi as int)),
        decreases hi - lo,
    {
        assert(cs@.subrange(lo as int, hi as int).drop_last() =~= cs@.subrange(
            lo as int,
            hi - 1,
        ));
        hi = hi - 1;
    }
    let mut res: Vec<char> = Vec::new();
    let mut i = lo;
    while i < hi
        invariant
            lo <= i <= hi <= n,
            n == cs@.len(),
            res@ == cs@.subrange(lo as int, i as int),
        decreases hi - i,
    {
        res.push(cs[i]);
        assert(cs@.subrange(lo as int, i + 1) =~= cs@.subrange(lo as int, i as int).push(
            cs@[i as int],
        ));
        i = i + 1;
    }
    res
}

/// `str::split` by one character: the pieces between the separators, in order.
/// There is always one more piece than separators; pieces may be empty.
pub open spec fn split(s: Seq<char>, sep: char) -> Seq<Seq<char>>
    decreases s.len(),
{
    if s.len() == 0 {
        seq![Seq::<char>::empty()]
    } else {
        let p = split(s.drop_last(), sep);
        if s.last() == sep {
            p.push(Seq::<char>::empty())
        } else {
            p.update(p.len() - 1, p.last().push(s.last()))
        }
    }
}

/// Splitting never yields an empty list of pieces.
pub proof fn lemma_split_len(s: Seq<char>, sep: char)
    ensures
        split(s, sep).len() >= 1,
    decreases s.len(),
{
    if s.len() > 0 {
        lemma_split_len(s.drop_last(), sep);
    }
}

/// A text without the separator is one piece.
pub proof fn lemma_split_plain(s: Seq<char>, sep: char)
    requires
        forall|i: int| 0 <= i < s.len() ==> s[i] != sep,
    ensures
        split(s, sep) == seq![s],
    decreases s.len(),
{
    if s.len() == 0 {
        assert(s =~= Seq::<char>::empty());
        assert(split(s, sep) =~= seq![s]);
    } else {
        lemma_split_plain(s.drop_last(), sep);
        assert(s.drop_last().push(s.last()) =~= s);
        assert(split(s, sep) =~= seq![s]);
    }
}

/// Splitting two texts joined by the separator yields the pieces of the
/// first followed by the pieces of the second.
pub proof fn lemma_split_concat(x: Seq<char>, y: Seq<char>, sep: char)
    ensures
        split(x + seq![sep] + y, sep) == split(x, sep) + split(y, sep),
    decreases y.len(),
{
    let s = x + seq![sep] + y;
    lemma_split_len(x, sep);
    if y.len() == 0 {
        assert(s =~= x.push(sep));
        assert(s.drop_last() =~= x);
        assert(split(x, sep) + split(y, sep) =~= split(x, sep).push(Seq::<char>::empty()));
    } else {
        lemma_split_concat(x, y.drop_last(), sep);
        lemma_split_len(y.drop_last(), sep);
        assert(s.drop_last() =~= x + seq![sep] + y.drop_last());
        assert(s.last() == y.last());
        let p = split(x, sep);
        let q = split(y.drop_last(), sep);
        if y.last() == sep {
            assert((p + q).push(Seq::<char>::empty()) =~= p + q.push(Seq::<char>::empty()));
        } else {
            assert((p + q).update((p + q).len() - 1, (p + q).last().push(y.last())) =~= p + q.update(
                q.len() - 1,
                q.last().push(y.last()),
            ));
        }
    }
}

/// Splits `cs` at every occurrence of `sep`.
pub fn split_chars(cs: &[char], sep: char) -> (res: Vec<Vec<char>>)
    ensures
        views(res@) == split(cs@, sep),
{
    let n = cs.len();
    let mut pieces: Vec<Vec<char>> = Vec::new();
    let mut cur: Vec<char> = Vec::new();
    assert(cs@.take(0) =~= Seq::<char>::empty());
    assert(views(pieces@).push(cur@) =~= split(cs@.take(0), sep));
    for i in 0..n
        invariant
            n == cs@.len(),
            views(pieces@).push(cur@) == split(cs@.take(i as int), sep),
    {
        let c = cs[i];
        let ghost prev = cs@.take(i as int);
        assert(cs@.take(i + 1).drop_last() =~= prev);
        assert(cs@.take(i + 1).last() == c);
        proof {
            lemma_split_len(prev, sep);
        }
        if c == sep {
            pieces.push(cur);
            cur = Vec::new();
            assert(views(pieces@).push(cur@) =~= split(prev, sep).push(Seq::<char>::empty()));
        } else {
            cur.push(c);
            let ghost p = split(prev, sep);
            assert(views(pieces@).push(cur@) =~= p.update(p.len() - 1, p.last().push(c)));
        }
    }
    assert(cs@.take(n as int) =~= cs@);
    pieces.push(cur);
    assert(views(pieces@) =~= split(cs@, sep));
    pieces
}

/// A line that was followed by `'\n'` loses one trailing `'\r'`.
pub open spec fn strip_cr(line: Seq<char>) -> Seq<char> {
    if line.len() > 0 && line.last() == '\r' {
        line.drop_last()
    } else {
        line
    }
}

/// `str::lines`: the text split at `'\n'`; a line ended by `"\r\n"` loses the
/// `'\r'`; a final empty piece (text empty or ending in `'\n'`) is no line.
pub open spec fn lines(s: Seq<char>) -> Seq<Seq<char>> {
    let p = split(s, '\n');
    let ended = p.drop_last().map_values(|l: Seq<char>| strip_cr(l));
    if p.last().len() == 0 {
        ended
    } else {
        ended.push(p.last())
    }
}

/// Splits a text into its lines.
pub fn lines_of(cs: &[char]) -> (res: Vec<Vec<char>>)
    ensures
        views(res@) == lines(cs@),
{
    let pieces = split_chars(cs, '\n');
    let ghost p = split(cs@, '\n');
    proof {
        lemma_split_len(cs@, '\n');
    }
    let count = pieces.len();
    let mut res: Vec<Vec<char>> = Vec::new();
    let mut i: usize = 0;
    while i + 1 < count
        invariant
            count == pieces@.len(),
            views(pieces@) == p,
            count >= 1,
            i + 1 <= count,
            views(res@) == p.take(i as int).map_values(|l: Seq<char>| strip_cr(l)),
        decreases count - i,
    {
        let piece = &pieces[i];
        let m = piece.len();
        let mut line: Vec<char> = Vec::new();
        let keep = if m > 0 && piece[m - 1] == '\r' { m - 1 } else { m };
        let mut j: usize = 0;
        while j < keep
            invariant
                j <= keep <= m,
                m == piece@.len(),
                line@ == piece@.take(j as int),
            decreases keep - j,
        {
            line.push(piece[j]);
            assert(piece@.take(j + 1) =~= piece@.take(j as int).push(piece@[j as int]));
            j = j + 1;
        }
        assert(p[i as int] == piece@);
        assert(line@ =~= strip_cr(piece@));
        let ghost before = res@;
        res.push(line);
        assert(views(res@) =~= views(before).push(strip_cr(p[i as int])));
        assert(p.take(i + 1) =~= p.take(i as int).push(p[i as int]));
        assert(views(res@) =~= p.take(i + 1).map_values(|l: Seq<char>| strip_cr(l)));
        i = i + 1;
    }
    assert(p.take(i as int) =~= p.drop_last());
    let last = &pieces[count - 1];
    assert(p.last() == last@);
    if last.len() > 0 {
        let mut line: Vec<char> = Vec::new();
        let m = last.len();
        for j in 0..m
            invariant
                m == last@.len(),
                line@ == last@.take(j as int),
        {
            line.push(last[j]);
            assert(last@.take(j + 1) =~= last@.take(j as int).push(last@[j as int]));
        }
        assert(last@.take(m as int) =~= last@);
        res.push(line);
        assert(views(res@) =~= lines(cs@));
    } else {
        assert(views(res@) =~= lines(cs@));
    }
    res
}

/// Copies `cs[lo..hi]` into a new vector.
pub fn copy_range(cs: &[char], lo: usize, hi: usize) -> (res: Vec<char>)
    requires
        lo <= hi <= cs@.len(),
    ensures
        res@ == cs@.subrange(lo as int, hi as int),
{
    let mut res: Vec<char> = Vec::new();
    let mut i = lo;
    while i < hi
        invariant
            lo <= i <= hi <= cs@.len(),
            res@ == cs@.subrange(lo as int, i as int),
        decreases hi - i,
    {
        res.push(cs[i]);
        assert(cs@.subrange(lo as int, i + 1) =~= cs@.subrange(lo as int, i as int).push(
            cs@[i as int],
        ));
        i = i + 1;
    }
    res
}

/// Whether two character sequences are equal.
pub fn chars_eq(a: &[char], b: &[char]) -> (r: bool)
    ensures
        r == (a@ == b@),
{
    if a.len() != b.len() {
        return false;
    }
    let n = a.len();
    for i in 0..n
        invariant
            n == a@.len(),
            n == b@.len(),
            forall|j: int| 0 <= j < i ==> a@[j] == b@[j],
    {
        if a[i] != b[i] {
            return false;
        }
    }
    assert(a@ =~= b@);
    true
}

/// Whether the characters `cs` spell out the text `lit`.
pub fn eq_str(cs: &[char], lit: &str) -> (r: bool)
    ensures
        r == (cs@ == lit@),
{
    let l = chars_of(lit);
    chars_eq(cs, l.as_slice())
}

/// Whether `cs` begins with the text `lit`.
pub fn starts_with_str(cs: &[char], lit: &str) -> (r: bool)
    ensures
        r == lit@.is_prefix_of(cs@),
{
    let l = chars_of(lit);
    let m = l.len();
    if m > cs.len() {
        return false;
    }
    for i in 0..m
        invariant
            m == l@.len(),
            l@ == lit@,
            m <= cs@.len(),
            forall|j: int| 0 <= j < i ==> l@[j] == cs@[j],
    {
        if l[i] != cs[i] {
            return false;
        }
    }
    assert(cs@.subrange(0, m as int) =~= l@);
    true
}

/// Whether `cs` ends with the text `lit`.
pub fn ends_with_str(cs: &[char], lit: &str) -> (r: bool)
    ensures
        r == lit@.is_suffix_of(cs@),
{
    let l = chars_of(lit);
    let m = l.len();
    let n = cs.len();
    if m > n {
        return false;
    }
    for i in 0..m
        invariant
            m == l@.len(),
            l@ == lit@,
            m <= n,
            n == cs@.len(),
            forall|j: int| 0 <= j < i ==> l@[j] == cs@[n - m + j],
    {
        if l[i] != cs[n - m + i] {
            return false;
        }
    }
    assert(cs@.subrange(n - m, n as int) =~= l@);
    true
}

/// The characters of `s` before its first `c`; all of `s` when it has none.
pub open spec fn prefix_before(s: Seq<char>, c: char) -> Seq<char>
    decreases s.len(),
{
    if s.len() == 0 || s[0] == c {
        Seq::<char>::empty()
    } else {
        seq![s[0]] + prefix_before(s.drop_first(), c)
    }
}

/// `prefix_before(s, c)` is the part of `s` before its first `c`.
pub proof fn lemma_prefix_before(s: Seq<char>, c: char)
    ensures
        prefix_before(s, c).len() <= s.len(),
        prefix_before(s, c) == s.take(prefix_before(s, c).len() as int),
        prefix_before(s, c).len() < s.len() ==> s[prefix_before(s, c).len() as int] == c,
        forall|j: int| 0 <= j < prefix_before(s, c).len() ==> s[j] != c,
    decreases s.len(),
{
    if s.len() > 0 && s[0] != c {
        lemma_prefix_before(s.drop_first(), c);
        assert(prefix_before(s, c) =~= s.take(prefix_before(s, c).len() as int));
        assert forall|j: int| 0 <= j < prefix_before(s, c).len() implies s[j] != c by {
            if j > 0 {
                assert(s[j] == s.drop_first()[j - 1]);
            }
        }
    }
}

/// Index of the first `c` in `cs`, or `cs.len()` when there is none.
pub fn index_of_char(cs: &[char], c: char) -> (k: usize)
    ensures
        k == prefix_before(cs@, c).len(),
{
    let n = cs.len();
    let mut i: usize = 0;
    assert(cs@.skip(0) =~= cs@);
    assert(cs@.take(0) =~= Seq::<char>::empty());
    while i < n && cs[i] != c
        invariant
            i <= n,
            n == cs@.len(),
            prefix_before(cs@, c) == cs@.take(i as int) + prefix_before(cs@.skip(i as int), c),
        decreases n - i,
    {
        assert(cs@.skip(i as int).drop_first() =~= cs@.skip(i + 1));
        assert(cs@.take(i + 1) =~= cs@.take(i as int) + seq![cs@[i as int]]);
        i = i + 1;
    }
    assert(prefix_before(cs@.skip(i as int), c) =~= Seq::<char>::empty());
    i
}

/// `str::split_once`: the parts before and after the first `c`, if any.
pub open spec fn split_once(s: Seq<char>, c: char) -> Option<(Seq<char>, Seq<char>)> {
    let k = prefix_before(s, c).len();
    if k < s.len() {
        Some((s.take(k as int), s.skip(k as int + 1)))
    } else {
        None
    }
}

/// The characters of `s` after its last `c`; all of `s` when it has none.
/// This is the first item of `str::rsplit(c)`.
pub open spec fn suffix_after_last(s: Seq<char>, c: char) -> Seq<char>
    decreases s.len(),
{
    if s.len() == 0 || s.last() == c {
        Seq::<char>::empty()
    } else {
        suffix_after_last(s.drop_last(), c).push(s.last())
    }
}

/// `suffix_after_last(s, c)` is the part of `s` after its last `c`.
pub proof fn lemma_suffix_after_last(s: Seq<char>, c: char)
    ensures
        suffix_after_last(s, c).len() <= s.len(),
        suffix_after_last(s, c) == s.skip(s.len() - suffix_after_last(s, c).len()),
        suffix_after_last(s, c).len() < s.len() ==> s[s.len() - suffix_after_last(s, c).len()
            - 1] == c,
        forall|j: int|
            s.len() - suffix_after_last(s, c).len() <= j < s.len() ==> s[j] != c,
    decreases s.len(),
{
    if s.len() > 0 && s.last() != c {
        lemma_suffix_after_last(s.drop_last(), c);
        assert(suffix_after_last(s, c) =~= s.skip(s.len() - suffix_after_last(s, c).len()));
        assert forall|j: int|
            s.len() - suffix_after_last(s, c).len() <= j < s.len() implies s[j] != c by {
            if j < s.len() - 1 {
                assert(s[j] == s.drop_last()[j]);
            }
        }
    }
}

/// Index just after the last `c` in `cs`, or `0` when there is none.
pub fn index_after_last_char(cs: &[char], c: char) -> (k: usize)
    ensures
        k == cs@.len() - suffix_after_last(cs@, c).len(),
        k <= cs@.len(),
{
    let n = cs.len();
    let mut i: usize = n;
    assert(cs@.take(n as int) =~= cs@);
    assert(cs@.skip(n as int) =~= Seq::<char>::empty());
    while i > 0 && cs[i - 1] != c
        invariant
            i <= n,
            n == cs@.len(),
            suffix_after_last(cs@, c) == suffix_after_last(cs@.take(i as int), c) + cs@.skip(
                i as int,
            ),
        decreases i,
    {
        assert(cs@.take(i as int).drop_last() =~= cs@.take(i - 1));
        assert(cs@.skip(i - 1) =~= seq![cs@[i - 1]] + cs@.skip(i as int));
        i = i - 1;
    }
    proof {
        lemma_suffix_after_last(cs@.take(i as int), c);
    }
    assert(suffix_after_last(cs@.take(i as int), c) =~= Seq::<char>::empty());
    i
}

/// Position of the first occurrence of `m` in `h`.
pub open spec fn find_sub(h: Seq<char>, m: Seq<char>) -> Option<int>
    decreases h.len(),
{
    if m.is_prefix_of(h) {
        Some(0)
    } else if h.len() == 0 {
        None
    } else {
        match find_sub(h.drop_first(), m) {
            Some(i) => Some(i + 1),
            None => None,
        }
    }
}

/// A text shorter than `m` does not hold it.
pub proof fn lemma_find_sub_short(h: Seq<char>, m: Seq<char>)
    requires
        h.len() < m.len(),
    ensures
        find_sub(h, m) is None,
    decreases h.len(),
{
    if h.len() > 0 {
        lemma_find_sub_short(h.drop_first(), m);
    }
}

/// An occurrence found by `find_sub` is an occurrence.
pub proof fn lemma_find_sub_found(h: Seq<char>, m: Seq<char>)
    ensures
        find_sub(h, m) matches Some(i) ==> 0 <= i && i + m.len() <= h.len()
            && h.subrange(i, i + m.len()) == m,
    decreases h.len(),
{
    if !m.is_prefix_of(h) && h.len() > 0 {
        lemma_find_sub_found(h.drop_first(), m);
        if let Some(i) = find_sub(h.drop_first(), m) {
            assert(h.subrange(i + 1, i + 1 + m.len()) =~= h.drop_first().subrange(
                i,
                i + m.len(),
            ));
        }
    }
}

/// Position of the first occurrence of `m` in `h`, if any.
pub fn find_str(h: &[char], m: &[char]) -> (r: Option<usize>)
    ensures
        r matches Some(i) ==> find_sub(h@, m@) == Some(i as int),
        r is None ==> find_sub(h@, m@) is None,
{
    let n = h.len();
    let k = m.len();
    let mut i: usize = 0;
    assert(h@.skip(0) =~= h@);
    while i < n && k <= n - i
        invariant
            i <= n,
            n == h@.len(),
            k == m@.len(),
            find_sub(h@, m@) == (match find_sub(h@.skip(i as int), m@) {
                Some(j) => Some(j + i),
                None => None,
            }),
        decreases n - i,
    {
        let mut j: usize = 0;
        let mut matched = true;
        while j < k
            invariant
                j <= k,
                i + k <= n,
                n == h@.len(),
                k == m@.len(),
                matched ==> forall|t: int| 0 <= t < j ==> h@[i + t] == m@[t],
                !matched ==> !m@.is_prefix_of(h@.skip(i as int)),
            decreases k - j,
        {
            if matched && h[i + j] != m[j] {
                matched = false;
                assert(h@.skip(i as int)[j as int] == h@[i + j]);
            }
            j = j + 1;
        }
        if matched {
            assert(h@.skip(i as int).subrange(0, k as int) =~= m@);
            return Some(i);
        }
        assert(h@.skip(i as int).drop_first() =~= h@.skip(i + 1));
        i = i + 1;
    }
    if i < n {
        proof {
            lemma_find_sub_short(h@.skip(i as int), m@);
        }
    } else {
        assert(h@.skip(i as int) =~= Seq::<char>::empty());
        if k == 0 {
            assert(m@.is_prefix_of(h@.skip(i as int)));
            return Some(i);
        }
    }
    None
}

/// The leading run of non-whitespace characters of `s`.
pub open spec fn non_ws_prefix(s: Seq<char>) -> Seq<char>
    decreases s.len(),
{
    if s.len() > 0 && !is_whitespace_char(s[0]) {
        seq![s[0]] + non_ws_prefix(s.drop_first())
    } else {
        Seq::<char>::empty()
    }
}

/// `str::split_whitespace().next()`: the first whitespace-separated token.
pub open spec fn first_token(s: Seq<char>) -> Option<Seq<char>> {
    let t = trim_start(s);
    if t.len() == 0 {
        None
    } else {
        Some(non_ws_prefix(t))
    }
}

/// The first whitespace-separated token of `cs`, if any.
pub fn first_token_chars(cs: &[char]) -> (r: Option<Vec<char>>)
    ensures
        r matches Some(v) ==> first_token(cs@) == Some(v@),
        r is None ==> first_token(cs@) is None,
{
    let n = cs.len();
    let mut lo: usize = 0;
    assert(cs@.subrange(0, n as int) =~= cs@);
    while lo < n && is_whitespace(cs[lo])
        invariant
            lo <= n,
            n == cs@.len(),
            trim_start(cs@) == trim_start(cs@.subrange(lo as int, n as int)),
        decreases n - lo,
    {
        assert(cs@.subrange(lo as int, n as int).drop_first() =~= cs@.subrange(lo + 1, n as int));
        lo = lo + 1;
    }
    if lo == n {
        assert(cs@.subrange(lo as int, n as int) =~= Seq::<char>::empty());
        return None;
    }
    let ghost t = cs@.subrange(lo as int, n as int);
    let mut hi = lo;
    let mut res: Vec<char> = Vec::new();
    assert(t.skip(0) =~= t);
    while hi < n && !is_whitespace(cs[hi])
        invariant
            lo <= hi <= n,
            n == cs@.len(),
            t == cs@.subrange(lo as int, n as int),
            res@ == cs@.subrange(lo as int, hi as int),
            non_ws_prefix(t) == res@ + non_ws_prefix(t.skip(hi - lo)),
        decreases n - hi,
    {
        assert(t.skip(hi - lo).drop_first() =~= t.skip(hi - lo + 1));
        res.push(cs[hi]);
        assert(cs@.subrange(lo as int, hi + 1) =~= cs@.subrange(lo as int, hi as int).push(
            cs@[hi as int],
        ));
        hi = hi + 1;
        assert(res@ + non_ws_prefix(t.skip(hi - lo)) =~= (res@.drop_last() + seq![res@.last()])
            + non_ws_prefix(t.skip(hi - lo)));
    }
    assert(non_ws_prefix(t.skip(hi - lo)) =~= Seq::<char>::empty());
    Some(res)
}

/// Strict lexicographic order on character sequences: the order of `String`
/// (UTF-8 preserves the order of code points).
pub open spec fn lex_lt(a: Seq<char>, b: Seq<char>) -> bool
    decreases a.len(),
{
    if a.len() == 0 {
        b.len() > 0
    } else if b.len() == 0 {
        false
    } else if a[0] != b[0] {
        (a[0] as int) < (b[0] as int)
    } else {
        lex_lt(a.drop_first(), b.drop_first())
    }
}

/// `lex_lt` is irreflexive and transitive.
pub proof fn lemma_lex_lt_order(a: Seq<char>, b: Seq<char>, c: Seq<char>)
    ensures
        !lex_lt(a, a),
        lex_lt(a, b) && lex_lt(b, c) ==> lex_lt(a, c),
        lex_lt(a, b) ==> !lex_lt(b, a),
    decreases a.len(),
{
    if a.len() > 0 && b.len() > 0 && c.len() > 0 {
        lemma_lex_lt_order(a.drop_first(), b.drop_first(), c.drop_first());
    }
    if a.len() > 0 && b.len() > 0 {
        lemma_lex_lt_order(a.drop_first(), b.drop_first(), b.drop_first());
    }
    if a.len() > 0 {
        lemma_lex_lt_order(a.drop_first(), a.drop_first(), a.drop_first());
    }
}

/// Two different sequences are ordered one way or the other.
pub proof fn lemma_lex_lt_total(a: Seq<char>, b: Seq<char>)
    ensures
        a != b ==> lex_lt(a, b) || lex_lt(b, a),
    decreases a.len(),
{
    if a.len() > 0 && b.len() > 0 {
        lemma_lex_lt_total(a.drop_first(), b.drop_first());
        if a[0] == b[0] && a.drop_first() == b.drop_first() {
            assert(a =~= seq![a[0]] + a.drop_first());
            assert(b =~= seq![b[0]] + b.drop_first());
        }
        if a[0] != b[0] {
            assert((a[0] as int) != (b[0] as int));
        }
    } else if a.len() == 0 && b.len() == 0 {
        assert(a =~= b);
    }
}

/// Whether `a` sorts strictly before `b`.
pub fn chars_lt(a: &[char], b: &[char]) -> (r: bool)
    ensures
        r == lex_lt(a@, b@),
{
    let n = a.len();
    let m = b.len();
    let mut i: usize = 0;
    assert(a@.skip(0) =~= a@);
    assert(b@.skip(0) =~= b@);
    while i < n && i < m
        invariant
            i <= n,
            i <= m,
            n == a@.len(),
            m == b@.len(),
            lex_lt(a@, b@) == lex_lt(a@.skip(i as int), b@.skip(i as int)),
        decreases n - i,
    {
        if a[i] != b[i] {
            return a[i] < b[i];
        }
        assert(a@.skip(i as int).drop_first() =~= a@.skip(i + 1));
        assert(b@.skip(i as int).drop_first() =~= b@.skip(i + 1));
        i = i + 1;
    }
    i < m
}

} // verus!
