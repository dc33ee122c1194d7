//! Annotation persistence: where the file is, what a file is worth, and when to write it.
//!
//! Times are nanoseconds of a clock that does not go back.

use vstd::prelude::*;

use crate::canvas::AnnotationsView;
use crate::document::Doc;
use crate::text;
use crate::text::{joined, numeral};

verus! {

/// The file version that is written and understood.
pub const VERSION: u32 = 1;

/// How long a change may wait for others before it is written: 1 second.
pub const DEBOUNCE: u64 = 1_000_000_000;

/// How long to wait after a failed write: 1 second.
pub const RETRY_DELAY: u64 = 1_000_000_000;

/// The latest time a deadline can be counted from.
pub const LATEST: u64 = 0xffff_ffff_c465_35ff;

/// The path one level or more below another: with a `/` between them unless the upper one is
/// empty or ends in one.
pub open spec fn below(base: Seq<char>, rest: Seq<char>) -> Seq<char> {
    if base.len() == 0 || base.last() == '/' { base + rest } else { base + "/"@ + rest }
}

pub(crate) fn join(base: &str, rest: &str) -> (r: String)
    ensures
        r@ == below(base@, rest@),
{
    let n: usize = base.unicode_len();
    if n == 0 {
        return joined(base, rest);
    }
    if base.get_char(n - 1) == '/' {
        joined(base, rest)
    } else {
        joined(joined(base, "/").as_str(), rest)
    }
}

/// Resolve the annotation path: `$XDG_DATA_HOME/sgraffito/annotations.json`, falling back to
/// `$HOME/.local/share`.
pub fn path_in(xdg_data_home: Option<&str>, home: Option<&str>) -> (r: Option<String>)
    ensures
        xdg_data_home is Some && xdg_data_home->0@.len() > 0 ==> r is Some && r->0@ == below(
            xdg_data_home->0@,
            "sgraffito/annotations.json"@,
        ),
        (xdg_data_home is None || xdg_data_home->0@.len() == 0) && home is Some ==> r is Some
            && r->0@ == below(below(home->0@, ".local/share"@), "sgraffito/annotations.json"@),
        (xdg_data_home is None || xdg_data_home->0@.len() == 0) && home is None ==> r is None,
{
    if let Some(d) = xdg_data_home {
        if d.unicode_len() > 0 {
            return Some(join(d, "sgraffito/annotations.json"));
        }
    }
    match home {
        Some(h) => Some(join(join(h, ".local/share").as_str(), "sgraffito/annotations.json")),
        None => None,
    }
}

/// What reading the annotation file gave.
pub enum Source {
    /// There is no such file.
    Missing,
    /// The file is there but could not be read.
    Unreadable,
    /// The file holds annotations in the layout of some version.
    File { version: u32, doc: Doc },
    /// The file does not hold annotations; the parser's complaint.
    Corrupt(String),
}

/// What to start with.
pub struct Loaded {
    pub doc: Doc,
    /// Why the file has to be set aside as a backup, where it has to be.
    pub backup: Option<String>,
}

/// Load annotations. Missing means empty; corrupt or unsupported versions are backed up and
/// treated as empty.
pub fn load(source: Source) -> (r: Loaded)
    requires
        source is File ==> source->doc.wf(),
    ensures
        r.doc.wf(),
        source is File && source->version == VERSION ==> r.doc@ == source->doc@,
        !(source is File && source->version == VERSION) ==> r.doc@ == Map::<
            Seq<char>,
            AnnotationsView,
        >::empty(),
        r.backup is Some <==> source is Corrupt || (source is File && source->version != VERSION),
        source is Corrupt ==> r.backup->0@ == source->Corrupt_0@,
        source is File && source->version != VERSION ==> r.backup->0@
            == "unsupported file version "@ + text::decimal(source->version as nat),
{
    match source {
        Source::Missing => Loaded { doc: Doc::default(), backup: None },
        Source::Unreadable => Loaded { doc: Doc::default(), backup: None },
        Source::File { version, doc } => {
            if version == VERSION {
                Loaded { doc, backup: None }
            } else {
                Loaded {
                    doc: Doc::default(),
                    backup: Some(joined("unsupported file version ", numeral(version).as_str())),
                }
            }
        },
        Source::Corrupt(complaint) => Loaded { doc: Doc::default(), backup: Some(complaint) },
    }
}

/// Debounced writer.
#[derive(Debug)]
pub struct Store {
    pub path: String,
    pub deadline: Option<u64>,
}

/// The deadline once a change was made: a second from now, unless something is due before.
pub open spec fn deadline_after_change(deadline: Option<u64>, now: u64) -> Option<u64> {
    if deadline is Some && deadline->0 < now + DEBOUNCE {
        deadline
    } else {
        Some((now + DEBOUNCE) as u64)
    }
}

/// The deadline once a write was tried: none after a success, a second from now after a failure.
pub open spec fn deadline_after_flush(written: bool, now: u64) -> Option<u64> {
    if written { None } else { Some((now + RETRY_DELAY) as u64) }
}

/// Something has waited long enough to be written.
pub open spec fn is_due(deadline: Option<u64>, now: u64) -> bool {
    deadline is Some && now >= deadline->0
}

impl Store {
    pub fn new(path: String) -> (r: Store)
        ensures
            r.path == path,
            r.deadline is None,
    {
        Store { path, deadline: None }
    }

    /// Note a change. A deadline that is already set is not put off, so that a change lands on
    /// disk within a second however many follow it.
    pub fn mark_dirty(&mut self, now: u64)
        requires
            now <= LATEST,
        ensures
            final(self).path == old(self).path,
            final(self).deadline == deadline_after_change(old(self).deadline, now),
    {
        let by: u64 = now + DEBOUNCE;
        match self.deadline {
            Some(d) if d < by => {},
            _ => {
                self.deadline = Some(by);
            },
        }
    }

    pub fn due(&self, now: u64) -> (r: bool)
        ensures
            r == is_due(self.deadline, now),
    {
        match self.deadline {
            Some(d) => now >= d,
            None => false,
        }
    }

    /// Take note of what writing the annotations gave, and hand it on: after a failure the
    /// write stays pending and is tried again later.
    pub fn flush(&mut self, saved: Result<(), String>, now: u64) -> (r: Result<(), String>)
        requires
            now <= LATEST,
        ensures
            r == saved,
            final(self).path == old(self).path,
            final(self).deadline == deadline_after_flush(saved is Ok, now),
    {
        self.deadline = if saved.is_ok() { None } else { Some(now + RETRY_DELAY) };
        saved
    }
}

/// A change is due a second after it was made at the latest, whatever changes follow it within
/// that second.
pub proof fn a_change_is_due_within_a_second(
    deadline: Option<u64>,
    changed: u64,
    later: u64,
    even_later: u64,
)
    requires
        changed <= later <= even_later <= LATEST,
        changed + DEBOUNCE <= even_later,
    ensures
        is_due(deadline_after_change(deadline, changed), even_later),
        is_due(
            deadline_after_change(deadline_after_change(deadline, changed), later),
            even_later,
        ),
{
}

/// The first change after a write is held back for the whole second.
pub proof fn a_first_change_waits_a_second(changed: u64, now: u64)
    requires
        changed <= LATEST,
    ensures
        is_due(deadline_after_change(None, changed), now) == (now >= changed + DEBOUNCE),
{
}

/// Nothing is due after a write succeeded; after one failed, the next try is due a second later.
pub proof fn a_failed_write_is_retried(tried: u64, now: u64)
    requires
        tried <= LATEST,
    ensures
        !is_due(deadline_after_flush(true, tried), now),
        is_due(deadline_after_flush(false, tried), now) == (now >= tried + RETRY_DELAY),
{
}

/// A change waits for the second after it at most, and for no less unless something is due
/// before; a write that failed waits a second, and one that succeeded leaves nothing to wait for.
pub proof fn writes_wait_a_second(deadline: Option<u64>, now: u64, later: u64)
    requires
        now <= LATEST,
    ensures
        deadline_after_change(deadline, now) is Some,
        deadline is None ==> deadline_after_change(deadline, now)->0 == now + 1_000_000_000,
        deadline is Some ==> deadline_after_change(deadline, now)->0 == (if deadline->0 < now
            + 1_000_000_000 {
            deadline->0 as int
        } else {
            now + 1_000_000_000
        }),
        deadline_after_flush(true, now) is None,
        deadline_after_flush(false, now) is Some,
        deadline_after_flush(false, now)->0 == now + 1_000_000_000,
        is_due(deadline, later) <==> deadline is Some && deadline->0 <= later,
{
}

/// A path below a directory is the directory, a slash, and the rest; a slash at the directory's
/// end is not doubled.
pub proof fn paths_are_joined_by_one_slash(base: Seq<char>, rest: Seq<char>)
    ensures
        base.len() == 0 ==> below(base, rest) == rest,
        base.len() > 0 && base.last() != '/' ==> below(base, rest) == base.push('/') + rest,
        base.len() > 0 && base.last() == '/' ==> below(base, rest) == base + rest,
        below(base.push('/'), rest) == base.push('/') + rest,
{
    reveal_strlit("/");
    assert(base + "/"@ =~= base.push('/'));
    if base.len() == 0 {
        assert(base + rest =~= rest);
    }
}

} // verus!
