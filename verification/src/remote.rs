//! Release tags, artifact URLs and the channel of published releases.
use vstd::prelude::*;

use crate::text::{
    chars_eq, chars_lt, chars_of, copy_range, find_str, find_sub, first_token, first_token_chars, lemma_find_sub_found,
    index_after_last_char, index_of_char, lemma_lex_lt_order, lemma_lex_lt_total,
    lemma_prefix_before, lemma_suffix_after_last, lex_lt, opt_view, opt_views, prefix_before,
    starts_with_str, ends_with_str, string_of, string_views, suffix_after_last,
};

verus! {

/// Page that lists the published tags of MuduDB.
pub const TAGS_URL: &'static str = "https://github.com/scuptio/mududb/tags";

/// Where the release artifacts are downloaded from.
pub const RELEASES_DOWNLOAD_URL_PREFIX: &'static str = "https://github.com/scuptio/mududb/releases/download";

/// What precedes a tag name in the links of the tags page.
pub const TAG_HREF_MARKER: &'static str = "/scuptio/mududb/releases/tag/";

/// A downloadable artifact of a release, built for one host.
#[derive(Clone, Debug)]
pub struct ReleaseArtifact {
    pub host: String,
    pub url: String,
}

/// A published release and its artifacts.
#[derive(Debug)]
pub struct Release {
    pub version: String,
    pub artifacts: Vec<ReleaseArtifact>,
}

/// The releases of the channel, with the latest one named.
#[derive(Debug)]
pub struct ChannelManifest {
    pub latest: String,
    pub releases: Vec<Release>,
}

/// Abstract value of a [`ReleaseArtifact`].
pub struct ArtifactView {
    pub host: Seq<char>,
    pub url: Seq<char>,
}

/// Abstract value of a [`Release`].
pub struct ReleaseView {
    pub version: Seq<char>,
    pub artifacts: Seq<ArtifactView>,
}

/// Abstract value of a [`ChannelManifest`].
pub struct ChannelView {
    pub latest: Seq<char>,
    pub releases: Seq<ReleaseView>,
}

impl View for ReleaseArtifact {
    type V = ArtifactView;

    open spec fn view(&self) -> ArtifactView {
        ArtifactView { host: self.host@, url: self.url@ }
    }
}

impl View for Release {
    type V = ReleaseView;

    open spec fn view(&self) -> ReleaseView {
        ReleaseView {
            version: self.version@,
            artifacts: self.artifacts@.map_values(|a: ReleaseArtifact| a@),
        }
    }
}

impl View for ChannelManifest {
    type V = ChannelView;

    open spec fn view(&self) -> ChannelView {
        ChannelView { latest: self.latest@, releases: self.releases@.map_values(|r: Release| r@) }
    }
}

/// Why a release could not be resolved.
#[derive(Debug)]
pub enum RemoteError {
    /// The requested version is not of the form `vYYYYMMDD.HHMM`.
    InvalidVersion(String),
    /// The tags page names no release tag.
    NoVersionFound,
    /// The channel's latest version has no release entry.
    LatestNotFound(String),
    /// The release has no artifact at all.
    NoArtifact(String),
}

/// Whether `c` is one of `'0'..='9'`.
pub open spec fn is_ascii_digit(c: char) -> bool {
    '0' <= c <= '9'
}

/// A release tag: `v`, eight digits, `.`, four digits (`vYYYYMMDD.HHMM`).
/// Such a text is ASCII, so counting characters and counting bytes agree.
pub open spec fn release_tag(s: Seq<char>) -> bool {
    &&& s.len() == 14
    &&& s[0] == 'v'
    &&& s[9] == '.'
    &&& forall|i: int| 1 <= i < 9 ==> is_ascii_digit(#[trigger] s[i])
    &&& forall|i: int| 10 <= i < 14 ==> is_ascii_digit(#[trigger] s[i])
}

/// Law: the release tags are exactly the texts of fourteen characters made
/// of `v`, eight characters from `'0'..='9'`, `.` and four characters from
/// `'0'..='9'` (every digit allowed at every place).
pub proof fn lemma_release_tag_shape(s: Seq<char>)
    ensures
        release_tag(s) <==> {
            &&& s.len() == 14
            &&& s[0] == 'v'
            &&& s[9] == '.'
            &&& forall|i: int| 1 <= i < 9 ==> '0' <= #[trigger] s[i] && s[i] <= '9'
            &&& forall|i: int| 10 <= i < 14 ==> '0' <= #[trigger] s[i] && s[i] <= '9'
        },
{
}

/// Law: `v`, any eight ASCII digits, `.` and any four ASCII digits form a
/// release tag, such as `v20260818.0800`.
pub proof fn lemma_digits_form_release_tag(date: Seq<char>, time: Seq<char>)
    requires
        date.len() == 8,
        time.len() == 4,
        forall|i: int| 0 <= i < 8 ==> '0' <= #[trigger] date[i] && date[i] <= '9',
        forall|i: int| 0 <= i < 4 ==> '0' <= #[trigger] time[i] && time[i] <= '9',
    ensures
        release_tag(seq!['v'] + date + seq!['.'] + time),
{
    let s = seq!['v'] + date + seq!['.'] + time;
    assert forall|i: int| 1 <= i < 9 implies is_ascii_digit(#[trigger] s[i]) by {
        assert(s[i] == date[i - 1]);
    }
    assert forall|i: int| 10 <= i < 14 implies is_ascii_digit(#[trigger] s[i]) by {
        assert(s[i] == time[i - 10]);
    }
}

/// Whether `cs` is a release tag.
pub fn is_release_tag_chars(cs: &[char]) -> (r: bool)
    ensures
        r == release_tag(cs@),
{
    if cs.len() != 14 || cs[0] != 'v' || cs[9] != '.' {
        return false;
    }
    let mut i: usize = 1;
    while i < 14
        invariant
            1 <= i <= 14,
            cs@.len() == 14,
            forall|j: int| 1 <= j < i && j != 9 ==> is_ascii_digit(#[trigger] cs@[j]),
        decreases 14 - i,
    {
        if i != 9 && !('0' <= cs[i] && cs[i] <= '9') {
            return false;
        }
        i = i + 1;
    }
    true
}

/// Whether `s` is a release tag such as `v20260514.1144`.
pub fn is_release_tag(s: &str) -> (r: bool)
    ensures
        r == release_tag(s@),
{
    let cs = chars_of(s);
    is_release_tag_chars(cs.as_slice())
}

/// The release tag that a link of the tags page points to: what follows the
/// first tag marker, when that is a release tag.
pub open spec fn version_in_href(href: Seq<char>) -> Option<Seq<char>> {
    match find_sub(href, TAG_HREF_MARKER@) {
        Some(i) => {
            let v = href.skip(i + TAG_HREF_MARKER@.len());
            if release_tag(v) {
                Some(v)
            } else {
                None
            }
        },
        None => None,
    }
}

/// The release tag in a link of the tags page, if it holds one.
pub fn extract_version_from_href(href: &str) -> (r: Option<&str>)
    ensures
        r matches Some(v) ==> version_in_href(href@) == Some(v@),
        r is None ==> version_in_href(href@) is None,
{
    let cs = chars_of(href);
    let marker = chars_of(TAG_HREF_MARKER);
    let n = cs.len();
    match find_str(cs.as_slice(), marker.as_slice()) {
        Some(idx) => {
            proof {
                lemma_find_sub_found(cs@, marker@);
                assert(find_sub(cs@, marker@) == Some(idx as int));
                assert(idx + marker@.len() <= n);
            }
            let start = idx + marker.len();
            let version = href.substring_char(start, n);
            if is_release_tag(version) {
                Some(version)
            } else {
                None
            }
        },
        None => None,
    }
}

/// The URL of the artifact of `version` built for `host`.
pub open spec fn artifact_url(version: Seq<char>, host: Seq<char>) -> Seq<char> {
    RELEASES_DOWNLOAD_URL_PREFIX@ + "/"@ + version + "/mududb-"@ + version + "-"@ + host
        + ".tar.gz"@
}

/// Builds the URL of the artifact of `version` for `host`.
pub fn artifact_url_for(version: &str, host: &str) -> (url: String)
    ensures
        url@ == artifact_url(version@, host@),
{
    let mut url = RELEASES_DOWNLOAD_URL_PREFIX.to_owned();
    url.append("/");
    url.append(version);
    url.append("/mududb-");
    url.append(version);
    url.append("-");
    url.append(host);
    url.append(".tar.gz");
    url
}

/// The artifact of a requested version, without asking the network: the
/// version must be a release tag.
pub fn release_artifact_for_version(version: &str, host: &str) -> (res: Result<
    ReleaseArtifact,
    RemoteError,
>)
    ensures
        release_tag(version@) <==> res is Ok,
        res matches Ok(a) ==> a@ == (ArtifactView {
            host: host@,
            url: artifact_url(version@, host@),
        }),
        res matches Err(e) ==> e matches RemoteError::InvalidVersion(v) && v@ == version@,
{
    if !is_release_tag(version) {
        return Err(RemoteError::InvalidVersion(version.to_owned()));
    }
    Ok(ReleaseArtifact { host: host.to_owned(), url: artifact_url_for(version, host) })
}

/// What an install request resolves to before the network is asked.
#[derive(Debug)]
pub enum InstallTarget {
    /// The latest release of the channel, to be read from the tags page.
    Latest,
    /// The artifact of the requested version.
    Artifact(ReleaseArtifact),
}

/// Resolves an install request: `latest` asks for the channel's newest
/// release; anything else must be a release tag.
pub fn install_target(requested: &str, host: &str) -> (res: Result<InstallTarget, RemoteError>)
    ensures
        requested@ == "latest"@ ==> (res matches Ok(t) && t is Latest),
        requested@ != "latest"@ ==> (release_tag(requested@) <==> res is Ok),
        requested@ != "latest"@ ==> (res matches Ok(InstallTarget::Artifact(a)) ==> a@ == (
        ArtifactView { host: host@, url: artifact_url(requested@, host@) })),
        requested@ != "latest"@ ==> (res matches Err(e) ==> e matches RemoteError::InvalidVersion(
            v,
        ) && v@ == requested@),
        res matches Ok(InstallTarget::Latest) ==> requested@ == "latest"@,
{
    let cs = chars_of(requested);
    if crate::text::eq_str(cs.as_slice(), "latest") {
        return Ok(InstallTarget::Latest);
    }
    match release_artifact_for_version(requested, host) {
        Ok(a) => Ok(InstallTarget::Artifact(a)),
        Err(e) => Err(e),
    }
}

/// The URL of the checksum file published beside an artifact.
pub fn sha256_url_for_artifact(url: &str) -> (res: String)
    ensures
        res@ == url@ + ".sha256"@,
{
    let mut res = url.to_owned();
    res.append(".sha256");
    res
}

/// The checksum named by the body of a checksum file: its first
/// whitespace-separated token.
pub fn checksum_from_response(text: &str) -> (res: Option<String>)
    ensures
        res matches Some(s) ==> first_token(text@) == Some(s@),
        res is None ==> first_token(text@) is None,
{
    let cs = chars_of(text);
    match first_token_chars(cs.as_slice()) {
        Some(tok) => Some(string_of(tok.as_slice())),
        None => None,
    }
}

/// The release tag that an optional link points to.
pub open spec fn href_version(href: Option<Seq<char>>) -> Option<Seq<char>> {
    match href {
        Some(h) => version_in_href(h),
        None => None,
    }
}

/// Each element sorts strictly before every later one (so none repeats).
pub open spec fn strictly_sorted(s: Seq<Seq<char>>) -> bool {
    forall|i: int, j: int| 0 <= i < j < s.len() ==> lex_lt(#[trigger] s[i], #[trigger] s[j])
}

/// `vs` is the set of release tags that the links `hrefs` point to, in
/// ascending order: what a `BTreeSet<String>` of them iterates.
pub open spec fn versions_of_hrefs(vs: Seq<Seq<char>>, hrefs: Seq<Option<Seq<char>>>) -> bool {
    &&& strictly_sorted(vs)
    &&& forall|x: Seq<char>|
        vs.contains(x) <==> exists|k: int|
            0 <= k < hrefs.len() && #[trigger] href_version(hrefs[k]) == Some(x)
}

/// Whether `a` sorts strictly before `b`.
fn str_lt(a: &str, b: &[char]) -> (r: bool)
    ensures
        r == lex_lt(a@, b@),
{
    let ac = chars_of(a);
    chars_lt(ac.as_slice(), b)
}

/// Adds `v` to a strictly sorted list of strings, unless it is there already.
fn insert_sorted(out: &mut Vec<String>, v: &str)
    requires
        strictly_sorted(string_views(old(out)@)),
    ensures
        strictly_sorted(string_views(final(out)@)),
        forall|x: Seq<char>|
            string_views(final(out)@).contains(x) <==> (string_views(old(out)@).contains(x) || x
                == v@),
{
    let ghost s = string_views(out@);
    let vc = chars_of(v);
    let n = out.len();
    let mut p: usize = 0;
    while p < n && str_lt(out[p].as_str(), vc.as_slice())
        invariant
            p <= n,
            n == out@.len(),
            vc@ == v@,
            s == string_views(out@),
            forall|j: int| 0 <= j < p ==> lex_lt(#[trigger] s[j], v@),
        decreases n - p,
    {
        p = p + 1;
    }
    if p < n {
        let cur = chars_of(out[p].as_str());
        if chars_eq(cur.as_slice(), vc.as_slice()) {
            assert forall|x: Seq<char>|
                string_views(out@).contains(x) <==> (s.contains(x) || x == v@) by {
                if x == v@ {
                    assert(s[p as int] == x);
                }
            }
            return ;
        }
    }
    out.insert(p, v.to_owned());
    let ghost t = string_views(out@);
    assert(t =~= s.insert(p as int, v@));
    assert forall|i: int, j: int| 0 <= i < j < t.len() implies lex_lt(#[trigger] t[i], #[trigger] t[j]) by {
        if i < p && j < p {
        } else if i < p && j == p {
        } else if i < p {
            assert(lex_lt(s[i], s[j - 1]));
        } else if i == p {
            lemma_lex_lt_total(s[p as int], v@);
            if j - 1 > p {
                assert(lex_lt(s[p as int], s[j - 1]));
                lemma_lex_lt_order(v@, s[p as int], s[j - 1]);
            }
        } else {
            assert(lex_lt(s[i - 1], s[j - 1]));
        }
    }
    assert forall|x: Seq<char>| t.contains(x) <==> (s.contains(x) || x == v@) by {
        if t.contains(x) {
            let k = choose|k: int| 0 <= k < t.len() && t[k] == x;
            if k < p {
                assert(s[k] == x);
            } else if k > p {
                assert(s[k - 1] == x);
            }
        }
        if s.contains(x) {
            let k = choose|k: int| 0 <= k < s.len() && s[k] == x;
            if k < p {
                assert(t[k] == x);
            } else {
                assert(t[k + 1] == x);
            }
        }
        if x == v@ {
            assert(t[p as int] == x);
        }
    }
}

/// The release tags that the links point to, ascending and without repeats.
pub fn versions_from_hrefs(hrefs: &[Option<String>]) -> (res: Vec<String>)
    ensures
        versions_of_hrefs(string_views(res@), opt_views(hrefs@)),
{
    let mut out: Vec<String> = Vec::new();
    let n = hrefs.len();
    let ghost hs = opt_views(hrefs@);
    assert(string_views(out@) =~= Seq::<Seq<char>>::empty());
    for i in 0..n
        invariant
            n == hrefs@.len(),
            hs == opt_views(hrefs@),
            versions_of_hrefs(string_views(out@), hs.take(i as int)),
    {
        let ghost before = string_views(out@);
        let ghost found: Option<Seq<char>> = None;
        match &hrefs[i] {
            Some(h) => {
                match extract_version_from_href(h.as_str()) {
                    Some(v) => {
                        insert_sorted(&mut out, v);
                        proof {
                            found = Some(v@);
                        }
                    },
                    None => {},
                }
            },
            None => {},
        }
        assert(hs[i as int] == opt_view(hrefs@[i as int]));
        assert(found == href_version(hs[i as int]));
        let ghost after = string_views(out@);
        assert(hs.take(i + 1) =~= hs.take(i as int).push(hs[i as int]));
        assert forall|x: Seq<char>|
            after.contains(x) <==> exists|k: int|
                0 <= k < hs.take(i + 1).len() && #[trigger] href_version(hs.take(i + 1)[k])
                    == Some(x) by {
            if after.contains(x) {
                if found == Some(x) {
                    assert(hs.take(i + 1)[i as int] == hs[i as int]);
                } else {
                    assert(before.contains(x));
                    let k = choose|k: int|
                        0 <= k < hs.take(i as int).len() && #[trigger] href_version(
                            hs.take(i as int)[k],
                        ) == Some(x);
                    assert(hs.take(i + 1)[k] == hs.take(i as int)[k]);
                }
            }
            if exists|k: int|
                0 <= k < hs.take(i + 1).len() && #[trigger] href_version(hs.take(i + 1)[k])
                    == Some(x) {
                let k = choose|k: int|
                    0 <= k < hs.take(i + 1).len() && #[trigger] href_version(hs.take(i + 1)[k])
                        == Some(x);
                if k < i {
                    assert(hs.take(i as int)[k] == hs.take(i + 1)[k]);
                    assert(before.contains(x));
                }
            }
        }
    }
    assert(hs.take(n as int) =~= hs);
    out
}

/// The values of the attribute `attr` of the elements that the CSS selector
/// `selector` matches in the HTML document `html`, in the order in which
/// `Html::select` yields them, which is the order in which the parser
/// created the nodes (`None` for an element without the attribute); `None`
/// when the selector does not parse. This is what `scraper` computes.
pub uninterp spec fn html_selected_attrs(
    html: Seq<char>,
    selector: Seq<char>,
    attr: Seq<char>,
) -> Option<Seq<Option<Seq<char>>>>;

/// The characters of each value that `select_attribute` returns.
pub open spec fn selection_view(r: Option<Vec<Option<String>>>) -> Option<Seq<Option<Seq<char>>>> {
    match r {
        Some(v) => Some(opt_views(v@)),
        None => None,
    }
}

/// Parses `html` with `scraper::Html::parse_document`, parses `selector` with
/// `scraper::Selector::parse` and reads the attribute `attr` of every element
/// that `Html::select` yields. Claimed: the result is `html_selected_attrs`
/// of the three arguments (parsing and selecting depend on them alone).
#[verifier::external_body]
fn select_attribute(html: &str, selector: &str, attr: &str) -> (res: Option<Vec<Option<String>>>)
    ensures
        selection_view(res) == html_selected_attrs(html@, selector@, attr@),
{
    let document = scraper::Html::parse_document(html);
    let selector = scraper::Selector::parse(selector).ok()?;
    Some(document.select(&selector).map(|node| node.value().attr(attr).map(str::to_string)).collect())
}

/// The links (`href` of `a[href]` elements) of an HTML page.
pub open spec fn page_links(text: Seq<char>) -> Option<Seq<Option<Seq<char>>>> {
    html_selected_attrs(text, "a[href]"@, "href"@)
}

/// The release tags that the tags page links to, ascending and without repeats.
pub fn collect_versions(text: &str) -> (res: Vec<String>)
    ensures
        page_links(text@) matches Some(hrefs) ==> versions_of_hrefs(string_views(res@), hrefs),
        page_links(text@) is None ==> res@.len() == 0,
{
    match select_attribute(text, "a[href]", "href") {
        Some(hrefs) => versions_from_hrefs(hrefs.as_slice()),
        None => Vec::new(),
    }
}

/// The release of `version` in a channel built for `host`: one artifact.
pub open spec fn release_for(version: Seq<char>, host: Seq<char>) -> ReleaseView {
    ReleaseView {
        version: version,
        artifacts: seq![ArtifactView { host: host, url: artifact_url(version, host) }],
    }
}

/// The channel of the versions `vs` (ascending) for `host`; the last is the latest.
pub open spec fn channel_from_versions(vs: Seq<Seq<char>>, host: Seq<char>) -> ChannelView {
    ChannelView {
        latest: vs.last(),
        releases: vs.map_values(|v: Seq<char>| release_for(v, host)),
    }
}

/// The channel of the given versions, listed in ascending order.
pub fn channel_manifest_from_versions(versions: Vec<String>, host: &str) -> (res: Result<
    ChannelManifest,
    RemoteError,
>)
    ensures
        versions@.len() > 0 <==> res is Ok,
        res matches Ok(m) ==> m@ == channel_from_versions(string_views(versions@), host@),
        res matches Err(e) ==> e is NoVersionFound,
{
    let n = versions.len();
    if n == 0 {
        return Err(RemoteError::NoVersionFound);
    }
    let latest = versions[n - 1].clone();
    let mut releases: Vec<Release> = Vec::new();
    let ghost vs = string_views(versions@);
    for i in 0..n
        invariant
            n == versions@.len(),
            vs == string_views(versions@),
            releases@.len() == i,
            forall|k: int|
                0 <= k < i ==> #[trigger] releases@[k]@ == release_for(vs[k], host@),
    {
        let version = versions[i].clone();
        let url = artifact_url_for(version.as_str(), host);
        let artifact = ReleaseArtifact { host: host.to_owned(), url };
        let mut artifacts: Vec<ReleaseArtifact> = Vec::new();
        artifacts.push(artifact);
        let release = Release { version, artifacts };
        assert(release@.artifacts =~= seq![ArtifactView { host: host@, url: artifact_url(vs[i as int], host@) }]);
        releases.push(release);
    }
    let m = ChannelManifest { latest, releases };
    assert(m@.releases =~= channel_from_versions(vs, host@).releases);
    Ok(m)
}

/// The channel that the tags page describes for `host`.
pub fn channel_manifest_from_tags_page(text: &str, host: &str) -> (res: Result<
    ChannelManifest,
    RemoteError,
>)
    ensures
        page_links(text@) is None ==> res is Err,
        page_links(text@) matches Some(hrefs) ==> (res is Ok <==> exists|k: int|
            0 <= k < hrefs.len() && (#[trigger] href_version(hrefs[k])) is Some),
        res matches Ok(m) ==> page_links(text@) is Some && exists|vs: Seq<Seq<char>>|
            #[trigger] versions_of_hrefs(vs, page_links(text@)->0) && m@ == channel_from_versions(
                vs,
                host@,
            ),
        res matches Err(e) ==> e is NoVersionFound,
{
    let versions = collect_versions(text);
    let ghost vs = string_views(versions@);
    proof {
        if let Some(hrefs) = page_links(text@) {
            if exists|k: int| 0 <= k < hrefs.len() && (#[trigger] href_version(hrefs[k])) is Some {
                let k = choose|k: int|
                    0 <= k < hrefs.len() && (#[trigger] href_version(hrefs[k])) is Some;
                assert(vs.contains(href_version(hrefs[k])->0));
            }
            if vs.len() > 0 {
                assert(vs.contains(vs[0]));
            }
        }
    }
    channel_manifest_from_versions(versions, host)
}

/// Index of the first release of `version` in `rs`; `rs.len()` when none.
pub open spec fn first_release_index(rs: Seq<ReleaseView>, version: Seq<char>) -> nat
    decreases rs.len(),
{
    if rs.len() == 0 || rs[0].version == version {
        0
    } else {
        1 + first_release_index(rs.drop_first(), version)
    }
}

/// Index of the first artifact for `host` in `arts`; `arts.len()` when none.
pub open spec fn first_artifact_index(arts: Seq<ArtifactView>, host: Seq<char>) -> nat
    decreases arts.len(),
{
    if arts.len() == 0 || arts[0].host == host {
        0
    } else {
        1 + first_artifact_index(arts.drop_first(), host)
    }
}

/// `first_release_index` finds the first release of the version.
pub proof fn lemma_first_release_index(rs: Seq<ReleaseView>, version: Seq<char>)
    ensures
        first_release_index(rs, version) <= rs.len(),
        first_release_index(rs, version) < rs.len() ==> rs[first_release_index(rs, version) as int].version == version,
        forall|j: int| 0 <= j < first_release_index(rs, version) ==> (#[trigger] rs[j]).version != version,
    decreases rs.len(),
{
    if rs.len() > 0 && rs[0].version != version {
        lemma_first_release_index(rs.drop_first(), version);
        assert forall|j: int| 0 <= j < first_release_index(rs, version) implies (#[trigger] rs[j]).version != version by {
            if j > 0 {
                assert(rs[j] == rs.drop_first()[j - 1]);
            }
        }
    }
}

/// `first_artifact_index` finds the first artifact for the host.
pub proof fn lemma_first_artifact_index(arts: Seq<ArtifactView>, host: Seq<char>)
    ensures
        first_artifact_index(arts, host) <= arts.len(),
        first_artifact_index(arts, host) < arts.len() ==> arts[first_artifact_index(arts, host) as int].host == host,
        forall|j: int| 0 <= j < first_artifact_index(arts, host) ==> (#[trigger] arts[j]).host != host,
    decreases arts.len(),
{
    if arts.len() > 0 && arts[0].host != host {
        lemma_first_artifact_index(arts.drop_first(), host);
        assert forall|j: int| 0 <= j < first_artifact_index(arts, host) implies (#[trigger] arts[j]).host != host by {
            if j > 0 {
                assert(arts[j] == arts.drop_first()[j - 1]);
            }
        }
    }
}

/// What selecting an artifact from a channel comes to.
pub enum Selection {
    /// This artifact is chosen.
    Found(ArtifactView),
    /// No release carries the latest version.
    LatestNotFound,
    /// The release of the latest version (this one) has no artifact.
    NoArtifact(Seq<char>),
}

/// The artifact that installing the latest release of channel `c` on `host`
/// takes: the first release of the latest version, its first artifact for
/// `host`, else its first artifact.
pub open spec fn select_artifact(c: ChannelView, host: Seq<char>) -> Selection {
    let i = first_release_index(c.releases, c.latest);
    if i >= c.releases.len() {
        Selection::LatestNotFound
    } else {
        let r = c.releases[i as int];
        let j = first_artifact_index(r.artifacts, host);
        if j < r.artifacts.len() {
            Selection::Found(r.artifacts[j as int])
        } else if r.artifacts.len() > 0 {
            Selection::Found(r.artifacts[0])
        } else {
            Selection::NoArtifact(r.version)
        }
    }
}

/// A copy of an artifact.
fn copy_artifact(a: &ReleaseArtifact) -> (r: ReleaseArtifact)
    ensures
        r@ == a@,
{
    ReleaseArtifact { host: a.host.clone(), url: a.url.clone() }
}

/// The artifact to install for the latest release of the channel on `host`.
pub fn select_channel_artifact(channel: &ChannelManifest, host: &str) -> (res: Result<
    ReleaseArtifact,
    RemoteError,
>)
    ensures
        select_artifact(channel@, host@) matches Selection::Found(a) ==> (res matches Ok(r) && r@
            == a),
        select_artifact(channel@, host@) is LatestNotFound ==> (res matches Err(
            RemoteError::LatestNotFound(l),
        ) && l@ == channel@.latest),
        select_artifact(channel@, host@) matches Selection::NoArtifact(v) ==> (res matches Err(
            RemoteError::NoArtifact(w),
        ) && w@ == v),
{
    let ghost c = channel@;
    proof {
        lemma_first_release_index(c.releases, c.latest);
    }
    let n = channel.releases.len();
    let mut i: usize = 0;
    while i < n && channel.releases[i].version != channel.latest
        invariant
            i <= n,
            n == channel.releases@.len(),
            c == channel@,
            forall|j: int| 0 <= j < i ==> (#[trigger] c.releases[j]).version != c.latest,
        decreases n - i,
    {
        assert(c.releases[i as int] == channel.releases@[i as int]@);
        i = i + 1;
    }
    if i == n {
        assert(first_release_index(c.releases, c.latest) == n) by {
            if first_release_index(c.releases, c.latest) < n {
                let k = first_release_index(c.releases, c.latest) as int;
                assert(c.releases[k].version != c.latest);
            }
        }
        return Err(RemoteError::LatestNotFound(channel.latest.clone()));
    }
    assert(c.releases[i as int] == channel.releases@[i as int]@);
    assert(first_release_index(c.releases, c.latest) == i) by {
        if first_release_index(c.releases, c.latest) < i {
            let k = first_release_index(c.releases, c.latest) as int;
            assert(c.releases[k].version == c.latest);
        }
    }
    let release = &channel.releases[i];
    let ghost r = c.releases[i as int];
    assert(r == release@);
    proof {
        lemma_first_artifact_index(r.artifacts, host@);
    }
    let host_owned = host.to_owned();
    let m = release.artifacts.len();
    let mut j: usize = 0;
    while j < m && release.artifacts[j].host != host_owned
        invariant
            j <= m,
            m == release.artifacts@.len(),
            r == release@,
            host_owned@ == host@,
            forall|t: int| 0 <= t < j ==> (#[trigger] r.artifacts[t]).host != host@,
        decreases m - j,
    {
        assert(r.artifacts[j as int] == release.artifacts@[j as int]@);
        j = j + 1;
    }
    if j < m {
        assert(r.artifacts[j as int] == release.artifacts@[j as int]@);
        assert(first_artifact_index(r.artifacts, host@) == j) by {
            if first_artifact_index(r.artifacts, host@) < j {
                let k = first_artifact_index(r.artifacts, host@) as int;
                assert(r.artifacts[k].host == host@);
            }
        }
        return Ok(copy_artifact(&release.artifacts[j]));
    }
    assert(first_artifact_index(r.artifacts, host@) == m) by {
        if first_artifact_index(r.artifacts, host@) < m {
            let k = first_artifact_index(r.artifacts, host@) as int;
            assert(r.artifacts[k].host != host@);
        }
    }
    if m > 0 {
        assert(r.artifacts[0] == release.artifacts@[0]@);
        return Ok(copy_artifact(&release.artifacts[0]));
    }
    Err(RemoteError::NoArtifact(release.version.clone()))
}

/// The file name at the end of an artifact URL, when it is not empty.
pub open spec fn url_filename(url: Seq<char>) -> Option<Seq<char>> {
    let f = suffix_after_last(url, '/');
    if f.len() > 0 {
        Some(f)
    } else {
        None
    }
}

/// The file name that a download of the artifact at `url` is saved under.
pub fn artifact_filename(url: &str) -> (res: Option<&str>)
    ensures
        res matches Some(f) ==> url_filename(url@) == Some(f@),
        res is None ==> url_filename(url@) is None,
{
    let cs = chars_of(url);
    let n = cs.len();
    let k = index_after_last_char(cs.as_slice(), '/');
    proof {
        lemma_suffix_after_last(cs@, '/');
    }
    if k == n {
        return None;
    }
    Some(url.substring_char(k, n))
}

/// The version that an artifact URL names: its file name must read
/// `mududb-<version>[-<rest>].tar.gz` with a release tag as `<version>`.
pub open spec fn url_version(url: Seq<char>) -> Option<Seq<char>> {
    let f = suffix_after_last(url, '/');
    if "mududb-v"@.is_prefix_of(f) && ".tar.gz"@.is_suffix_of(f) {
        let body = f.skip("mududb-"@.len() as int);
        if ".tar.gz"@.is_suffix_of(body) {
            let v = prefix_before(body.take(body.len() - ".tar.gz"@.len()), '-');
            if release_tag(v) {
                Some(v)
            } else {
                None
            }
        } else {
            None
        }
    } else {
        None
    }
}

/// The version named by an artifact URL, if it names one.
pub fn artifact_version(url: &str) -> (res: Option<String>)
    ensures
        res matches Some(v) ==> url_version(url@) == Some(v@),
        res is None ==> url_version(url@) is None,
{
    let cs = chars_of(url);
    let n = cs.len();
    let k = index_after_last_char(cs.as_slice(), '/');
    proof {
        lemma_suffix_after_last(cs@, '/');
    }
    let filename = copy_range(cs.as_slice(), k, n);
    assert(filename@ == suffix_after_last(url@, '/'));
    if !starts_with_str(filename.as_slice(), "mududb-v") || !ends_with_str(filename.as_slice(), ".tar.gz") {
        return None;
    }
    let prefix = chars_of("mududb-");
    let suffix = chars_of(".tar.gz");
    let f = filename.len();
    proof {
        reveal_strlit("mududb-v");
        reveal_strlit("mududb-");
    }
    if prefix.len() > f {
        return None;
    }
    let body = copy_range(filename.as_slice(), prefix.len(), f);
    assert(body@ =~= filename@.skip(prefix@.len() as int));
    if !ends_with_str(body.as_slice(), ".tar.gz") {
        return None;
    }
    let b = body.len();
    let core = copy_range(body.as_slice(), 0, b - suffix.len());
    assert(core@ =~= body@.take(body@.len() - ".tar.gz"@.len()));
    let cut = index_of_char(core.as_slice(), '-');
    proof {
        lemma_prefix_before(core@, '-');
    }
    let version = copy_range(core.as_slice(), 0, cut);
    if is_release_tag_chars(version.as_slice()) {
        Some(string_of(version.as_slice()))
    } else {
        None
    }
}

/// The version that an install of `requested` ends with: the one that the
/// artifact URL names, else the requested one.
pub fn resolve_install_version(url: &str, requested: &str) -> (res: String)
    ensures
        url_version(url@) matches Some(v) ==> res@ == v,
        url_version(url@) is None ==> res@ == requested@,
{
    match artifact_version(url) {
        Some(v) => v,
        None => requested.to_owned(),
    }
}

/// The piece after the last separator: a tail free of separators.
proof fn lemma_suffix_after_sep(a: Seq<char>, b: Seq<char>, c: char)
    requires
        forall|i: int| 0 <= i < b.len() ==> b[i] != c,
    ensures
        suffix_after_last(a.push(c) + b, c) == b,
    decreases b.len(),
{
    let s = a.push(c) + b;
    if b.len() == 0 {
        assert(s =~= a.push(c));
    } else {
        assert(s.drop_last() =~= a.push(c) + b.drop_last());
        assert(s.last() == b.last());
        lemma_suffix_after_sep(a, b.drop_last(), c);
        assert(b.drop_last().push(b.last()) =~= b);
    }
}

/// The piece before the first separator: a head free of separators.
proof fn lemma_prefix_before_sep(a: Seq<char>, b: Seq<char>, c: char)
    requires
        forall|i: int| 0 <= i < a.len() ==> a[i] != c,
    ensures
        prefix_before(a + seq![c] + b, c) == a,
    decreases a.len(),
{
    let s = a + seq![c] + b;
    if a.len() == 0 {
        assert(s[0] == c);
    } else {
        assert(s.drop_first() =~= a.drop_first() + seq![c] + b);
        lemma_prefix_before_sep(a.drop_first(), b, c);
        assert(seq![a[0]] + a.drop_first() =~= a);
    }
}

/// Law: the version that an artifact URL of this crate names is the version
/// it was built for (for a release tag and a host without `/`), so an
/// install records the version it asked for.
pub proof fn lemma_url_version_of_artifact_url(version: Seq<char>, host: Seq<char>)
    requires
        release_tag(version),
        forall|i: int| 0 <= i < host.len() ==> host[i] != '/',
    ensures
        url_version(artifact_url(version, host)) == Some(version),
        url_filename(artifact_url(version, host)) == Some(
            "mududb-"@ + version + "-"@ + host + ".tar.gz"@,
        ),
{
    reveal_strlit("/");
    reveal_strlit("/mududb-");
    reveal_strlit("mududb-");
    reveal_strlit("mududb-v");
    reveal_strlit("-");
    reveal_strlit(".tar.gz");
    let head = RELEASES_DOWNLOAD_URL_PREFIX@ + "/"@ + version;
    let file = "mududb-"@ + version + "-"@ + host + ".tar.gz"@;
    assert(artifact_url(version, host) =~= head.push('/') + file);
    assert forall|i: int| 0 <= i < file.len() implies file[i] != '/' by {
        let a = "mududb-"@.len() as int;
        let b = a + version.len();
        let c = b + 1;
        let d = c + host.len();
        if i < a {
        } else if i < b {
            assert(file[i] == version[i - a]);
            if i - a != 0 && i - a != 9 {
                assert(is_ascii_digit(version[i - a]));
            }
        } else if i < c {
        } else if i < d {
            assert(file[i] == host[i - c]);
        } else {
        }
    }
    lemma_suffix_after_sep(head, file, '/');
    let f = file;
    assert("mududb-v"@.is_prefix_of(f)) by {
        assert(f.subrange(0, 8) =~= "mududb-v"@);
    }
    assert(".tar.gz"@.is_suffix_of(f)) by {
        assert(f.subrange(f.len() - 7, f.len() as int) =~= ".tar.gz"@);
    }
    let body = f.skip("mududb-"@.len() as int);
    assert(body =~= version + "-"@ + host + ".tar.gz"@);
    assert(".tar.gz"@.is_suffix_of(body)) by {
        assert(body.subrange(body.len() - 7, body.len() as int) =~= ".tar.gz"@);
    }
    let core = body.take(body.len() - ".tar.gz"@.len());
    assert(core =~= version + seq!['-'] + host);
    assert forall|i: int| 0 <= i < version.len() implies version[i] != '-' by {
        if i != 0 && i != 9 {
            assert(is_ascii_digit(version[i]));
        }
    }
    lemma_prefix_before_sep(version, host, '-');
}

/// Law: in a channel built from versions for `host`, installing the latest
/// release on `host` takes the artifact of the last (greatest) version for
/// that host.
pub proof fn lemma_select_latest_of_channel(vs: Seq<Seq<char>>, host: Seq<char>)
    requires
        vs.len() > 0,
    ensures
        select_artifact(channel_from_versions(vs, host), host) == Selection::Found(
            ArtifactView { host: host, url: artifact_url(vs.last(), host) },
        ),
{
    let c = channel_from_versions(vs, host);
    lemma_first_release_index(c.releases, c.latest);
    let i = first_release_index(c.releases, c.latest);
    if i >= c.releases.len() {
        assert(c.releases[vs.len() - 1].version == c.latest);
        assert(false);
    }
    let r = c.releases[i as int];
    assert(r == release_for(vs[i as int], host));
    assert(r.version == vs.last());
    assert(first_artifact_index(r.artifacts, host) == 0);
}

/// Law: every version of the channel is a release tag, and the latest one
/// is the greatest.
pub proof fn lemma_versions_are_tags(vs: Seq<Seq<char>>, hrefs: Seq<Option<Seq<char>>>)
    requires
        versions_of_hrefs(vs, hrefs),
    ensures
        forall|i: int| 0 <= i < vs.len() ==> release_tag(#[trigger] vs[i]),
        vs.len() > 0 ==> forall|i: int|
            0 <= i < vs.len() - 1 ==> lex_lt(#[trigger] vs[i], vs.last()),
{
    assert forall|i: int| 0 <= i < vs.len() implies release_tag(#[trigger] vs[i]) by {
        assert(vs.contains(vs[i]));
        let k = choose|k: int| 0 <= k < hrefs.len() && #[trigger] href_version(hrefs[k]) == Some(vs[i]);
        match hrefs[k] {
            Some(h) => {
                assert(version_in_href(h) == Some(vs[i]));
            },
            None => {},
        }
    }
    if vs.len() > 0 {
        assert forall|i: int| 0 <= i < vs.len() - 1 implies lex_lt(#[trigger] vs[i], vs.last()) by {
            assert(lex_lt(vs[i], vs[vs.len() - 1]));
        }
    }
}

/// Law: installing the latest release from a tags page installs, and
/// records, the greatest release tag that the page links to.
pub proof fn lemma_latest_install_version(
    vs: Seq<Seq<char>>,
    hrefs: Seq<Option<Seq<char>>>,
    host: Seq<char>,
)
    requires
        versions_of_hrefs(vs, hrefs),
        vs.len() > 0,
        forall|i: int| 0 <= i < host.len() ==> host[i] != '/',
    ensures
        select_artifact(channel_from_versions(vs, host), host) matches Selection::Found(a) && url_version(
            a.url,
        ) == Some(vs.last()),
        forall|x: Seq<char>| #[trigger] vs.contains(x) ==> x == vs.last() || lex_lt(x, vs.last()),
{
    lemma_select_latest_of_channel(vs, host);
    lemma_versions_are_tags(vs, hrefs);
    assert(release_tag(vs[vs.len() - 1]));
    lemma_url_version_of_artifact_url(vs.last(), host);
    assert forall|x: Seq<char>| #[trigger] vs.contains(x) implies x == vs.last() || lex_lt(x, vs.last()) by {
        let k = choose|k: int| 0 <= k < vs.len() && vs[k] == x;
        if k < vs.len() - 1 {
            assert(lex_lt(vs[k], vs.last()));
        }
    }
}

} // verus!
