//! Updating the installer itself.
use vstd::prelude::*;

verus! {

/// Where the newest installer archives are published: the `latest`
/// release of the `scuptio/mudup` repository.
pub const LATEST_RELEASE_DOWNLOAD_URL: &'static str = "https://github.com/scuptio/mudup/releases/download/latest";

/// The names and URLs of the installer archive for one target.
#[derive(Debug)]
pub struct SelfUpdateUrls {
    pub archive_name: String,
    pub archive_url: String,
    pub checksum_url: String,
}

/// The installer archive for `target`, its URL and its checksum's URL.
pub fn self_update_urls(target: &str) -> (res: SelfUpdateUrls)
    ensures
        res.archive_name@ == "mudup-"@ + target@ + ".tar.gz"@,
        res.archive_url@ == LATEST_RELEASE_DOWNLOAD_URL@ + "/"@ + res.archive_name@,
        res.checksum_url@ == res.archive_url@ + ".sha256"@,
{
    let mut archive_name = "mudup-".to_owned();
    archive_name.append(target);
    archive_name.append(".tar.gz");
    let mut archive_url = LATEST_RELEASE_DOWNLOAD_URL.to_owned();
    archive_url.append("/");
    archive_url.append(archive_name.as_str());
    let mut checksum_url = archive_url.clone();
    checksum_url.append(".sha256");
    SelfUpdateUrls { archive_name, archive_url, checksum_url }
}

#[verifier::external_type_specification]
#[verifier::external_body]
pub struct ExSystemTime(std::time::SystemTime);

/// `std::time::SystemTime::now`: the current time of the system clock.
/// Nothing is claimed of it.
#[verifier::external_body]
fn system_time_now() -> std::time::SystemTime {
    std::time::SystemTime::now()
}

/// `std::time::SystemTime::duration_since` with `UNIX_EPOCH` as the earlier
/// time; `None` when `t` lies before it. Nothing is claimed of the duration.
#[verifier::external_body]
fn duration_since_unix_epoch(t: &std::time::SystemTime) -> Option<std::time::Duration> {
    t.duration_since(std::time::UNIX_EPOCH).ok()
}

/// `std::time::Duration::as_nanos`: the whole duration in nanoseconds.
/// Nothing is claimed of it.
#[verifier::external_body]
fn duration_as_nanos(d: &std::time::Duration) -> u128 {
    d.as_nanos()
}

/// The system clock lies before the Unix epoch.
#[derive(Debug)]
pub enum TimeError {
    BeforeEpoch,
}

/// Nanoseconds since the Unix epoch, to name a fresh scratch directory.
pub fn nanos_since_epoch() -> Result<u128, TimeError> {
    let now = system_time_now();
    match duration_since_unix_epoch(&now) {
        Some(d) => Ok(duration_as_nanos(&d)),
        None => Err(TimeError::BeforeEpoch),
    }
}

/// A depth-first search for the installer binary in an unpacked archive:
/// directories wait on a stack, the last one found is read first, and the
/// first file named `mudup` ends the search.
pub struct BinarySearch<T> {
    pub stack: Vec<T>,
}

impl<T> BinarySearch<T> {
    /// A search that starts at `root`.
    pub fn new(root: T) -> (s: Self)
        ensures
            s.stack@ == seq![root],
    {
        let mut stack: Vec<T> = Vec::new();
        stack.push(root);
        BinarySearch { stack }
    }

    /// The next directory to read, taken from the top of the stack; `None`
    /// when every directory has been read.
    pub fn next_dir(&mut self) -> (r: Option<T>)
        ensures
            old(self).stack@.len() == 0 ==> r is None && final(self).stack@ == old(self).stack@,
            old(self).stack@.len() > 0 ==> r == Some(old(self).stack@.last())
                && final(self).stack@ == old(self).stack@.drop_last(),
    {
        self.stack.pop()
    }

    /// Takes in one entry of the directory being read: a directory waits on
    /// the stack; a file named `mudup` is the binary sought.
    pub fn visit_entry(&mut self, path: T, is_dir: bool, name: Option<&str>) -> (found: Option<T>)
        ensures
            is_dir ==> found is None && final(self).stack@ == old(self).stack@.push(path),
            !is_dir ==> final(self).stack@ == old(self).stack@,
            !is_dir ==> (found == if name matches Some(n) && n@ == "mudup"@ {
                Some(path)
            } else {
                None
            }),
    {
        if is_dir {
            self.stack.push(path);
            return None;
        }
        match name {
            Some(n) => {
                let cs = crate::text::chars_of(n);
                if crate::text::eq_str(cs.as_slice(), "mudup") {
                    Some(path)
                } else {
                    None
                }
            },
            None => None,
        }
    }
}

} // verus!
