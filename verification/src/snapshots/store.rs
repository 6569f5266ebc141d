//! The snapshot store: names of its files, and what to do when one is written or
//! deleted.
//!
//! Files are written to a temporary name and renamed over the destination. The
//! caller performs each action and reports back what came of it.

use crate::error::CoreError;
use crate::snapshots::SnapshotSummary;
use crate::text::{decimal, push_decimal};
use vstd::prelude::*;

verus! {

/// The file that holds a snapshot.
pub fn snapshot_file_name(id: &str) -> (name: String)
    ensures
        name@ == id@ + ".json"@,
{
    let mut name: String = id.to_owned();
    name.append(".json");
    name
}

/// The file to which a process writes before it renames it to `file_name`.
pub fn temp_file_name(file_name: Option<&str>, process: u32) -> (name: String)
    ensures
        name@ == (match file_name {
            Some(given) => given@,
            None => "snapshot"@,
        }) + "."@ + decimal(process as nat) + ".tmp"@,
{
    let mut name: String = match file_name {
        Some(given) => given.to_owned(),
        None => "snapshot".to_owned(),
    };
    name.append(".");
    push_decimal(&mut name, process as u64);
    name.append(".tmp");
    name
}

/// What failed, on which file, and why.
pub open spec fn failure_text(what: Seq<char>, path: Seq<char>, reason: Seq<char>) -> Seq<char> {
    what + " "@ + path + ": "@ + reason
}

/// The error for what failed on a file; the message names the file.
fn failure(what: &str, path: &str, reason: &str) -> (error: CoreError)
    ensures
        error matches CoreError::SnapshotParse(message) && message@ == failure_text(
            what@,
            path@,
            reason@,
        ),
{
    let mut message: String = what.to_owned();
    message.append(" ");
    message.append(path);
    message.append(": ");
    message.append(reason);
    CoreError::SnapshotParse(message)
}

/// The error for a snapshot file that could not be read.
pub fn read_failed(path: &str, reason: &str) -> (error: CoreError)
    ensures
        error matches CoreError::SnapshotParse(message) && message@ == failure_text(
            "read"@,
            path@,
            reason@,
        ),
{
    failure("read", path, reason)
}

/// The error for a snapshot file that does not hold a snapshot.
pub fn parse_failed(path: &str, reason: &str) -> (error: CoreError)
    ensures
        error matches CoreError::SnapshotParse(message) && message@ == failure_text(
            "parse"@,
            path@,
            reason@,
        ),
{
    failure("parse", path, reason)
}

/// What came of a step of writing a file.
#[derive(Debug)]
pub enum WriteEvent {
    /// The file is to be written; it may stand in no directory.
    Started {
        /// The path has a directory.
        has_parent: bool,
    },
    /// The value was turned into text.
    Serialized,
    /// The value could not be turned into text.
    SerializeFailed(String),
    /// The text was written to the temporary file and the file renamed.
    Renamed,
    /// Writing or renaming failed.
    WriteFailed(String),
}

/// What to do next when writing a file.
#[derive(Debug)]
pub enum WriteAction {
    /// Turn the value into text.
    Serialize,
    /// Write the text to the temporary file, and rename it over the file.
    WriteAndRename,
    /// Nothing is left to do.
    Done,
    /// Give up; nothing was written.
    Fail(CoreError),
    /// Remove the temporary file, then give up.
    RemoveTempAndFail(CoreError),
}

/// What an event leads to when `path` is written.
pub open spec fn writes(path: Seq<char>, event: WriteEvent, action: WriteAction) -> bool {
    match event {
        WriteEvent::Started { has_parent } => if has_parent {
            action is Serialize
        } else {
            action matches WriteAction::Fail(CoreError::SnapshotParse(message)) && message@
                == "snapshot path has no parent directory"@
        },
        WriteEvent::Serialized => action is WriteAndRename,
        WriteEvent::SerializeFailed(reason) => action matches WriteAction::Fail(
            CoreError::SnapshotParse(message),
        ) && message@ == failure_text("serialize"@, path, reason@),
        WriteEvent::Renamed => action is Done,
        WriteEvent::WriteFailed(reason) => action matches WriteAction::RemoveTempAndFail(
            CoreError::SnapshotParse(message),
        ) && message@ == failure_text("atomic write"@, path, reason@),
    }
}

/// The next step of writing `path`. The file itself is touched by the renaming
/// alone, and a failed attempt leaves no temporary file.
pub fn write_step(path: &str, event: WriteEvent) -> (action: WriteAction)
    ensures
        writes(path@, event, action),
{
    match event {
        WriteEvent::Started { has_parent } => if has_parent {
            WriteAction::Serialize
        } else {
            WriteAction::Fail(
                CoreError::SnapshotParse("snapshot path has no parent directory".to_owned()),
            )
        },
        WriteEvent::Serialized => WriteAction::WriteAndRename,
        WriteEvent::SerializeFailed(reason) => WriteAction::Fail(
            failure("serialize", path, reason.as_str()),
        ),
        WriteEvent::Renamed => WriteAction::Done,
        WriteEvent::WriteFailed(reason) => WriteAction::RemoveTempAndFail(
            failure("atomic write", path, reason.as_str()),
        ),
    }
}

/// What came of a step of deleting a snapshot.
#[derive(Debug)]
pub enum DeleteEvent {
    /// The snapshot's file was removed.
    FileRemoved,
    /// There was no such file.
    FileMissing,
    /// The file could not be removed.
    FileStuck(String),
    /// There is no list of snapshots that could be read.
    IndexUnreadable,
    /// The list of snapshots could not be parsed.
    IndexCorrupt,
    /// The list of snapshots.
    IndexRead(Vec<SnapshotSummary>),
    /// The list was written.
    IndexWritten,
    /// The list could not be written.
    IndexWriteFailed(CoreError),
}

/// What to do next when deleting a snapshot.
#[derive(Debug)]
pub enum DeleteAction {
    /// Read the list of snapshots.
    ReadIndex,
    /// Write this list of snapshots.
    WriteIndex(Vec<SnapshotSummary>),
    /// Nothing is left to do.
    Done,
    /// Give up.
    Fail(CoreError),
}

/// The rows of other snapshots, in their order.
pub open spec fn other_rows(rows: Seq<SnapshotSummary>, id: Seq<char>) -> Seq<SnapshotSummary> {
    rows.filter(|row: SnapshotSummary| row.id@ != id)
}

/// What an event leads to when the snapshot `id` in `file` is deleted.
pub open spec fn deletes(
    id: Seq<char>,
    file: Seq<char>,
    event: DeleteEvent,
    action: DeleteAction,
) -> bool {
    match event {
        DeleteEvent::FileRemoved => action is ReadIndex,
        DeleteEvent::FileMissing => action is ReadIndex,
        DeleteEvent::FileStuck(reason) => action matches DeleteAction::Fail(
            CoreError::SnapshotParse(message),
        ) && message@ == failure_text("delete"@, file, reason@),
        DeleteEvent::IndexUnreadable => action is Done,
        DeleteEvent::IndexCorrupt => action is Done,
        DeleteEvent::IndexRead(rows) => if other_rows(rows@, id).len() == rows@.len() {
            action is Done
        } else {
            action matches DeleteAction::WriteIndex(kept) && kept@ == other_rows(rows@, id)
        },
        DeleteEvent::IndexWritten => action is Done,
        DeleteEvent::IndexWriteFailed(error) => action == DeleteAction::Fail(error),
    }
}

/// Keep the rows of other snapshots.
fn keep_others(rows: Vec<SnapshotSummary>, id: &String) -> (kept: Vec<SnapshotSummary>)
    ensures
        kept@ == other_rows(rows@, id@),
{
    let ghost all = rows@;
    let mut kept: Vec<SnapshotSummary> = Vec::new();
    proof {
        reveal(Seq::filter);
        assert(other_rows(all.take(0), id@) =~= Seq::<SnapshotSummary>::empty());
    }
    for row in it: rows
        invariant
            it.seq() == all,
            kept@ == other_rows(all.take(it.index() as int), id@),
    {
        proof {
            reveal(Seq::filter);
            assert(all.take(it.index() + 1).drop_last() =~= all.take(it.index() as int));
        }
        if !(row.id == *id) {
            kept.push(row);
        }
        assert(kept@ =~= other_rows(all.take(it.index() + 1), id@));
    }
    assert(all.take(all.len() as int) =~= all);
    kept
}

/// The next step of deleting the snapshot `id` that is kept in `file`. A file
/// that is missing counts as deleted; a list of snapshots that is missing or
/// corrupt stays as it is.
pub fn delete_step(id: &str, file: &str, event: DeleteEvent) -> (action: DeleteAction)
    ensures
        deletes(id@, file@, event, action),
{
    match event {
        DeleteEvent::FileRemoved => DeleteAction::ReadIndex,
        DeleteEvent::FileMissing => DeleteAction::ReadIndex,
        DeleteEvent::FileStuck(reason) => DeleteAction::Fail(
            failure("delete", file, reason.as_str()),
        ),
        DeleteEvent::IndexUnreadable => DeleteAction::Done,
        DeleteEvent::IndexCorrupt => DeleteAction::Done,
        DeleteEvent::IndexRead(rows) => {
            let count: usize = rows.len();
            let kept: Vec<SnapshotSummary> = keep_others(rows, &id.to_owned());
            if kept.len() != count {
                DeleteAction::WriteIndex(kept)
            } else {
                DeleteAction::Done
            }
        },
        DeleteEvent::IndexWritten => DeleteAction::Done,
        DeleteEvent::IndexWriteFailed(error) => DeleteAction::Fail(error),
    }
}

/// Deleting a snapshot a second time finds nothing to do: the list without the
/// snapshot has no row of it, and stays as it is.
pub proof fn law_second_delete_is_noop(
    rows: Seq<SnapshotSummary>,
    id: Seq<char>,
    file: Seq<char>,
    again: Vec<SnapshotSummary>,
    action: DeleteAction,
)
    requires
        again@ == other_rows(rows, id),
        deletes(id, file, DeleteEvent::IndexRead(again), action),
    ensures
        forall|k: int| 0 <= k < again@.len() ==> (#[trigger] again@[k]).id@ != id,
        action is Done,
{
    lemma_other_rows(rows, id);
    lemma_others_stay(again@, id);
}

proof fn lemma_other_rows(rows: Seq<SnapshotSummary>, id: Seq<char>)
    ensures
        forall|k: int|
            0 <= k < other_rows(rows, id).len() ==> (#[trigger] other_rows(rows, id)[k]).id@ != id,
    decreases rows.len(),
{
    reveal(Seq::filter);
    if rows.len() > 0 {
        lemma_other_rows(rows.drop_last(), id);
    }
}

proof fn lemma_others_stay(rows: Seq<SnapshotSummary>, id: Seq<char>)
    requires
        forall|k: int| 0 <= k < rows.len() ==> (#[trigger] rows[k]).id@ != id,
    ensures
        other_rows(rows, id) == rows,
    decreases rows.len(),
{
    reveal(Seq::filter);
    if rows.len() > 0 {
        let front = rows.drop_last();
        assert forall|k: int| 0 <= k < front.len() implies (#[trigger] front[k]).id@ != id by {
            assert(front[k] == rows[k]);
        }
        lemma_others_stay(front, id);
        assert(rows[rows.len() - 1].id@ != id);
        assert(rows =~= front.push(rows.last()));
    }
}

/// A message says what failed, on which file, and why, in that order.
pub proof fn law_failures_name_the_file(what: Seq<char>, path: Seq<char>, reason: Seq<char>)
    ensures
        ({
            let text = failure_text(what, path, reason);
            let w = what.len() as int;
            let p = path.len() as int;
            &&& text.len() == w + p + reason.len() + 3
            &&& text.subrange(0, w) == what
            &&& text.subrange(w + 1, w + 1 + p) == path
            &&& text.subrange(w + p + 3, text.len() as int) == reason
            &&& text[w] == ' ' && text[w + 1 + p] == ':' && text[w + 2 + p] == ' '
        }),
{
    reveal_strlit(" ");
    reveal_strlit(": ");
    let text = failure_text(what, path, reason);
    let w = what.len() as int;
    let p = path.len() as int;
    assert(text.subrange(0, w) =~= what);
    assert(text.subrange(w + 1, w + 1 + p) =~= path);
    assert(text.subrange(w + p + 3, text.len() as int) =~= reason);
}

/// Writing goes on while all goes well: the value becomes text, the text is written
/// and renamed, and that is all. Whatever fails ends it with an error; the
/// temporary file is removed where it may have been written, and only there. The
/// text is written only once there is one, and without a directory nothing is done.
pub proof fn law_writing_goes_step_by_step(path: Seq<char>, event: WriteEvent, action: WriteAction)
    requires
        writes(path, event, action),
    ensures
        action is Serialize <==> event == (WriteEvent::Started { has_parent: true }),
        action is WriteAndRename <==> event is Serialized,
        action is Done <==> event is Renamed,
        action is RemoveTempAndFail <==> event is WriteFailed,
        action is Fail <==> event is SerializeFailed || event == (WriteEvent::Started {
            has_parent: false,
        }),
        event matches WriteEvent::WriteFailed(reason) ==> (action
            matches WriteAction::RemoveTempAndFail(CoreError::SnapshotParse(message)) && message@
            == "atomic write"@ + " "@ + path + ": "@ + reason@),
        event matches WriteEvent::SerializeFailed(reason) ==> (action matches WriteAction::Fail(
            CoreError::SnapshotParse(message),
        ) && message@ == "serialize"@ + " "@ + path + ": "@ + reason@),
{
}

/// Deleting goes on to the list of snapshots whether the file was removed or was
/// missing, and stops with an error, and an untouched list, where the file is
/// stuck. The list is written exactly when it has a row of the snapshot. A list
/// that cannot be read or parsed stays as it is.
pub proof fn law_deleting_goes_step_by_step(
    id: Seq<char>,
    file: Seq<char>,
    event: DeleteEvent,
    action: DeleteAction,
)
    requires
        deletes(id, file, event, action),
    ensures
        action is ReadIndex <==> event is FileRemoved || event is FileMissing,
        event is IndexUnreadable || event is IndexCorrupt || event is IndexWritten ==> action is Done,
        action is Fail <==> event is FileStuck || event is IndexWriteFailed,
        event matches DeleteEvent::FileStuck(reason) ==> (action matches DeleteAction::Fail(
            CoreError::SnapshotParse(message),
        ) && message@ == "delete"@ + " "@ + file + ": "@ + reason@),
        event matches DeleteEvent::IndexWriteFailed(error) ==> action == DeleteAction::Fail(error),
        action is WriteIndex ==> event is IndexRead,
        event matches DeleteEvent::IndexRead(rows) ==> (action is WriteIndex <==> exists|k: int|
            0 <= k < rows@.len() && (#[trigger] rows@[k]).id@ == id) && (action is WriteIndex
            || action is Done),
{
    if let DeleteEvent::IndexRead(rows) = event {
        if forall|k: int| 0 <= k < rows@.len() ==> (#[trigger] rows@[k]).id@ != id {
            lemma_others_stay(rows@, id);
        } else {
            let places = law_other_rows_stay_in_order(rows@, id);
            let k = choose|k: int| 0 <= k < rows@.len() && (#[trigger] rows@[k]).id@ == id;
            if places.len() == rows@.len() {
                lemma_all_places(places, rows@.len() as int, k);
                let j = choose|j: int| 0 <= j < places.len() && places[j] == k;
                assert(rows@[places[j]].id@ != id);
            }
        }
    }
}

/// Ascending places, as many as there are, are all of them.
proof fn lemma_all_places(places: Seq<int>, n: int, k: int)
    requires
        places.len() == n,
        forall|i: int| 0 <= i < places.len() ==> 0 <= #[trigger] places[i] < n,
        forall|i: int, j: int|
            0 <= i < j < places.len() ==> #[trigger] places[i] < #[trigger] places[j],
        0 <= k < n,
    ensures
        places.contains(k),
{
    lemma_place_above(places, k);
    lemma_place_below(places, n, k);
    assert(places[k] == k);
}

proof fn lemma_place_above(places: Seq<int>, k: int)
    requires
        0 <= k < places.len(),
        forall|i: int| 0 <= i < places.len() ==> 0 <= #[trigger] places[i],
        forall|i: int, j: int|
            0 <= i < j < places.len() ==> #[trigger] places[i] < #[trigger] places[j],
    ensures
        places[k] >= k,
    decreases k,
{
    if k > 0 {
        lemma_place_above(places, k - 1);
        assert(places[k - 1] < places[k]);
    }
}

proof fn lemma_place_below(places: Seq<int>, n: int, k: int)
    requires
        0 <= k < places.len(),
        places.len() == n,
        forall|i: int| 0 <= i < places.len() ==> #[trigger] places[i] < n,
        forall|i: int, j: int|
            0 <= i < j < places.len() ==> #[trigger] places[i] < #[trigger] places[j],
    ensures
        places[k] <= k,
    decreases n - k,
{
    if k < n - 1 {
        lemma_place_below(places, n, k + 1);
        assert(places[k] < places[k + 1]);
    }
}

/// The list without a snapshot holds the rows of all others, in their order: there
/// is a place for each in the list before, and the places ascend.
pub proof fn law_other_rows_stay_in_order(rows: Seq<SnapshotSummary>, id: Seq<char>) -> (places:
    Seq<int>)
    ensures
        places.len() == other_rows(rows, id).len(),
        forall|k: int|
            0 <= k < places.len() ==> 0 <= #[trigger] places[k] < rows.len() && other_rows(
                rows,
                id,
            )[k] == rows[places[k]] && rows[places[k]].id@ != id,
        forall|k: int, l: int|
            0 <= k < l < places.len() ==> #[trigger] places[k] < #[trigger] places[l],
        forall|j: int|
            0 <= j < rows.len() && (#[trigger] rows[j]).id@ != id ==> places.contains(j),
    decreases rows.len(),
{
    reveal(Seq::filter);
    if rows.len() == 0 {
        Seq::empty()
    } else {
        let front = rows.drop_last();
        let held = law_other_rows_stay_in_order(front, id);
        if rows.last().id@ != id {
            let places = held.push(rows.len() - 1);
            assert forall|j: int|
                0 <= j < rows.len() && (#[trigger] rows[j]).id@ != id implies places.contains(j) by {
                if j < front.len() {
                    assert(front[j].id@ != id);
                    let k = choose|k: int| 0 <= k < held.len() && held[k] == j;
                    assert(places[k] == j);
                } else {
                    assert(places[held.len() as int] == j);
                }
            }
            places
        } else {
            assert forall|j: int|
                0 <= j < rows.len() && (#[trigger] rows[j]).id@ != id implies held.contains(j) by {
                assert(front[j].id@ != id);
            }
            held
        }
    }
}

} // verus!
