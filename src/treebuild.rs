use vstd::prelude::*;
use vstd::string::*;
use vstd::utf8::encode_utf8;
use chrono::TimeZone;

use crate::oid::ObjectId;
use crate::patchname::PatchName;
use crate::state::{StackState, StackView};
use crate::text::{append_hex, hex_of, utf8_bytes};

verus! {

/// Commit times up to this many seconds either side of the epoch, about
/// 34,000 years, are always representable.
pub const MAX_COMMIT_TIME: i64 = 1099511627776;

/// The text of a commit date, `YYYY-MM-DD HH:MM:SS ±HHMM`, for a time in
/// seconds since the epoch and an offset east of UTC in seconds.
pub uninterp spec fn commit_date_text(secs: i64, offset_secs: i32) -> Seq<char>;

/// Relies on chrono's `FixedOffset::east_opt`, `TimeZone::timestamp_opt`
/// and `DateTime::format` with `%Y-%m-%d %H:%M:%S %z`. `east_opt` refuses
/// offsets of a day or more; `DateTime::from_timestamp` accepts every time
/// whose day number fits an `i32` and a proleptic year within ±262,142, and
/// formatting these items cannot fail.
#[verifier::external_body]
fn format_commit_date(secs: i64, offset_secs: i32) -> (r: Option<String>)
    ensures
        r is Some ==> r->Some_0@ == commit_date_text(secs, offset_secs),
        r is Some ==> -86400 < offset_secs < 86400,
        -86400 < offset_secs < 86400 && -MAX_COMMIT_TIME <= secs <= MAX_COMMIT_TIME ==> r is Some,
{
    match chrono::FixedOffset::east_opt(offset_secs) {
        Some(tz) => match tz.timestamp_opt(secs, 0).single() {
            Some(d) => Some(d.format("%Y-%m-%d %H:%M:%S %z").to_string()),
            None => None,
        },
        None => None,
    }
}

/// The header of a patch's metadata blob.
pub open spec fn patch_meta_header(
    bottom: ObjectId,
    top: ObjectId,
    author: Seq<char>,
    date: Seq<char>,
) -> Seq<char> {
    "Bottom: "@ + hex_of(bottom.bytes@) + "\nTop:    "@ + hex_of(top.bytes@) + "\nAuthor: "@
        + author + "\nDate:   "@ + date + "\n\n"@
}

/// The metadata blob of a patch: the trees below and at the patch, its
/// author and date, then the commit message verbatim. `None` when the date
/// cannot be represented: always so for offsets of a day or more, never for
/// smaller offsets and times within `MAX_COMMIT_TIME` of the epoch.
pub fn patch_meta(
    bottom_tree: &ObjectId,
    top_tree: &ObjectId,
    author: &str,
    time_secs: i64,
    offset_minutes: i32,
    message: &[u8],
) -> (r: Option<Vec<u8>>)
    ensures
        r is Some ==> -1440 < offset_minutes < 1440 && r->Some_0@ == encode_utf8(
            patch_meta_header(
                *bottom_tree,
                *top_tree,
                author@,
                commit_date_text(time_secs, (offset_minutes * 60) as i32),
            ),
        ) + message@,
        offset_minutes <= -1440 || offset_minutes >= 1440 ==> r is None,
        -1440 < offset_minutes < 1440 && -MAX_COMMIT_TIME <= time_secs <= MAX_COMMIT_TIME ==> r is Some,
{
    if offset_minutes <= -1440 || offset_minutes >= 1440 {
        return None;
    }
    let date = match format_commit_date(time_secs, offset_minutes * 60) {
        Some(d) => d,
        None => return None,
    };
    let mut s = String::new();
    s.append("Bottom: ");
    append_hex(&mut s, bottom_tree);
    s.append("\nTop:    ");
    append_hex(&mut s, top_tree);
    s.append("\nAuthor: ");
    s.append(author);
    s.append("\nDate:   ");
    s.append(date.as_str());
    s.append("\n\n");
    proof {
        assert(s@ =~= patch_meta_header(
            *bottom_tree,
            *top_tree,
            author@,
            commit_date_text(time_secs, (offset_minutes * 60) as i32),
        ));
    }
    let mut bytes = utf8_bytes(s.as_str());
    bytes.extend_from_slice(message);
    Some(bytes)
}

/// An entry found under a patch's name in the previous `patches` tree.
#[derive(Clone, Copy, Debug)]
pub struct PrevEntry {
    pub id: ObjectId,
    pub is_blob: bool,
}

/// The blob kept from the previous log commit for a patch whose commit is
/// `commit`: kept only when the previous state had the same commit under
/// that name and the previous tree holds a blob for it.
pub open spec fn reused_blob(
    commit: ObjectId,
    prev_commit: Option<ObjectId>,
    prev_entry: Option<PrevEntry>,
) -> Option<ObjectId> {
    if prev_commit == Some(commit) && prev_entry is Some && prev_entry->Some_0.is_blob {
        Some(prev_entry->Some_0.id)
    } else {
        None
    }
}

/// The commit of patch `n` in an optional previous state.
pub open spec fn prev_commit_of(prev_state: Option<StackView>, n: Seq<char>) -> Option<ObjectId> {
    match prev_state {
        Some(p) => if p.has(n) {
            Some(p.patches[n].commit)
        } else {
            None
        },
        None => None,
    }
}

pub open spec fn view_of(prev_state: Option<&StackState>) -> Option<StackView> {
    match prev_state {
        Some(p) => Some(p@),
        None => None,
    }
}

/// The metadata blob of patch `name` that can be taken over from the
/// previous log commit unchanged, if any.
pub fn reusable_blob(
    state: &StackState,
    name: &PatchName,
    prev_state: Option<&StackState>,
    prev_entry: Option<PrevEntry>,
) -> (r: Option<ObjectId>)
    requires
        state.wf(),
        state@.has(name@),
        prev_state is Some ==> prev_state->Some_0.wf(),
    ensures
        r == reused_blob(
            state@.patches[name@].commit,
            prev_commit_of(view_of(prev_state), name@),
            prev_entry,
        ),
{
    let commit = match state.patch(name) {
        Some(d) => d.commit,
        None => return None,
    };
    let prev = match prev_state {
        Some(p) => match p.patch(name) {
            Some(d) => d.commit,
            None => return None,
        },
        None => return None,
    };
    match prev_entry {
        Some(e) => if e.is_blob && prev.same(&commit) {
            Some(e.id)
        } else {
            None
        },
        None => None,
    }
}

/// A patch whose name and commit are the same in two states keeps the
/// metadata blob the previous log commit holds for it.
pub proof fn lemma_unchanged_patch_keeps_blob(
    s1: StackView,
    s2: StackView,
    n: Seq<char>,
    e: PrevEntry,
)
    requires
        s1.has(n),
        s2.has(n),
        s1.patches[n].commit == s2.patches[n].commit,
        e.is_blob,
    ensures
        reused_blob(s2.patches[n].commit, prev_commit_of(Some(s1), n), Some(e)) == Some(e.id),
{
}

} // verus!
