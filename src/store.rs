use crate::asset::{parent_of, path_is_absolute, try_resolve_asset_path};
use crate::closure::{decided, initial_state, run, strs, ReferencedFiles, Step, Traversal};
use crate::note::{paths_of, unquoted, RoamFile};
use vstd::prelude::*;

verus! {

#[verifier::external_type_specification]
#[verifier::external_body]
pub struct ExConnection(rusqlite::Connection);

#[verifier::external_type_specification]
#[verifier::external_body]
pub struct ExError(rusqlite::Error);

/// The files of the notes that a note references through `id` links.
pub const REFERENCED_NOTES_QUERY: &'static str = r#"
    WITH source_file_node AS (SELECT nodes.id FROM nodes JOIN files ON nodes.file = files.file WHERE files.file = ?1),
         referenced_nodes AS (SELECT dest FROM links, source_file_node WHERE links.source = source_file_node.id AND links.type = '"id"')
    SELECT nodes.file FROM nodes, referenced_nodes WHERE nodes.id = referenced_nodes.dest;
"#;

/// The raw targets of a note's `file` links.
pub const REFERENCED_ASSETS_QUERY: &'static str = r#"
    WITH source_file_node AS (SELECT nodes.id, nodes.file FROM nodes JOIN files ON nodes.file = files.file WHERE files.file = ?1)
    SELECT dest FROM links, source_file_node WHERE links.source = source_file_node.id AND links.type = '"file"';
"#;

/// Why a closure computation failed.
pub enum ClosureError {
    /// The link database rejected or failed a query, or a row could not be read.
    StoreQuery(rusqlite::Error),
}

/// Relies on rusqlite's `Connection::prepare_cached`, `Statement::query_map`
/// and `Row::get`: runs `sql` with `param` bound to its single parameter and
/// reads the first column of every row as text. Any failure of these calls is
/// returned as the error. What the rows hold depends on the database, so
/// nothing is promised of them.
#[verifier::external_body]
fn query_text_column(conn: &rusqlite::Connection, sql: &str, param: &str) -> (r: Result<
    Vec<String>,
    rusqlite::Error,
>) {
    let mut stmt = conn.prepare_cached(sql)?;
    let rows = stmt.query_map([param], |row| row.get::<usize, String>(0))?;
    rows.collect()
}

/// The notes named by the rows of the referenced-notes query, in row order.
pub fn notes_from_rows(rows: &Vec<String>) -> (r: Vec<RoamFile>)
    ensures
        paths_of(r@) == strs(rows@).map_values(|s: Seq<char>| unquoted(s)),
{
    let mut notes: Vec<RoamFile> = Vec::new();
    let mut i: usize = 0;
    while i < rows.len()
        invariant
            i <= rows@.len(),
            paths_of(notes@) == strs(rows@).take(i as int).map_values(|s: Seq<char>| unquoted(s)),
        decreases rows@.len() - i,
    {
        let ghost before = notes@;
        let note = RoamFile::from_store_text(rows[i].as_str());
        notes.push(note);
        assert(paths_of(notes@) =~= paths_of(before).push(unquoted(rows@[i as int]@)));
        assert(strs(rows@).take(i as int + 1).map_values(|s: Seq<char>| unquoted(s))
            =~= strs(rows@).take(i as int).map_values(|s: Seq<char>| unquoted(s)).push(
            unquoted(rows@[i as int]@),
        ));
        i = i + 1;
    }
    assert(strs(rows@).take(rows@.len() as int) =~= strs(rows@));
    notes
}

/// The paths held by the outcomes that are `Some`, in order.
pub open spec fn flatten_outcomes(outcomes: Seq<Option<Seq<char>>>) -> Seq<Seq<char>>
    decreases outcomes.len(),
{
    if outcomes.len() == 0 {
        Seq::empty()
    } else {
        let prev = flatten_outcomes(outcomes.drop_last());
        match outcomes.last() {
            Some(p) => prev.push(p),
            None => prev,
        }
    }
}

/// Whether `outcome` is a possible resolution of the file-link row `row`
/// read for the note at `note`: an absolute target as it is, nothing for a
/// relative target of a note without a directory, and otherwise nothing or
/// an absolute path.
pub open spec fn row_outcome(note: Seq<char>, row: Seq<char>, outcome: Option<Seq<char>>) -> bool {
    let target = unquoted(row);
    &&& path_is_absolute(target) ==> outcome == Some(target)
    &&& !path_is_absolute(target) && parent_of(note) is None ==> outcome is None
    &&& outcome is Some ==> path_is_absolute(outcome->0)
}

/// Whether `assets` is what resolving each of `rows` in turn, for the note at
/// `note`, and keeping the targets that resolved gives.
pub open spec fn resolved_from_rows(note: Seq<char>, rows: Seq<Seq<char>>, assets: Seq<Seq<char>>) -> bool {
    exists|outcomes: Seq<Option<Seq<char>>>|
        {
            &&& #[trigger] flatten_outcomes(outcomes) == assets
            &&& outcomes.len() == rows.len()
            &&& forall|i: int| 0 <= i < rows.len() ==> row_outcome(note, rows[i], #[trigger] outcomes[i])
        }
}

/// Whether `notes` and `assets` are what a lookup of the note at `note`
/// gives where the store returned `note_rows` for its id links and
/// `asset_rows` for its file links: the notes named by the rows, in order,
/// and the targets that resolved, in row order.
pub open spec fn lookup_from_rows(
    note: Seq<char>,
    notes: Seq<Seq<char>>,
    assets: Seq<Seq<char>>,
    note_rows: Seq<Seq<char>>,
    asset_rows: Seq<Seq<char>>,
) -> bool {
    &&& notes == note_rows.map_values(|s: Seq<char>| unquoted(s))
    &&& resolved_from_rows(note, asset_rows, assets)
}

/// Whether some rows of the store give `notes` and `assets` as the lookup of
/// the note at `note`.
pub open spec fn looked_up(note: Seq<char>, notes: Seq<Seq<char>>, assets: Seq<Seq<char>>) -> bool {
    exists|note_rows: Seq<Seq<char>>, asset_rows: Seq<Seq<char>>|
        #[trigger] lookup_from_rows(note, notes, assets, note_rows, asset_rows)
}

/// The resolved paths of the file-link targets held by `rows`, which were
/// read for the note at `note`: each row is resolved in turn and the targets
/// that resolve are kept, in row order.
pub fn assets_from_rows(note: &RoamFile, rows: &Vec<String>) -> (r: Vec<String>)
    ensures
        resolved_from_rows(note.path@, strs(rows@), strs(r@)),
{
    let mut assets: Vec<String> = Vec::new();
    let ghost mut outcomes: Seq<Option<Seq<char>>> = Seq::empty();
    let mut i: usize = 0;
    while i < rows.len()
        invariant
            i <= rows@.len(),
            outcomes.len() == i,
            flatten_outcomes(outcomes) == strs(assets@),
            forall|k: int| 0 <= k < i ==> row_outcome(note.path@, rows@[k]@, #[trigger] outcomes[k]),
        decreases rows@.len() - i,
    {
        let ghost before = assets@;
        let target = RoamFile::from_store_text(rows[i].as_str());
        let resolved = try_resolve_asset_path(note.as_str(), target.as_str());
        let ghost outcome = if resolved is Some {
            Some(resolved->0@)
        } else {
            None::<Seq<char>>
        };
        proof {
            assert(outcomes.push(outcome).drop_last() =~= outcomes);
            outcomes = outcomes.push(outcome);
        }
        match resolved {
            Some(p) => {
                assets.push(p);
                assert(strs(assets@) =~= strs(before).push(assets@.last()@));
            },
            None => {},
        }
        i = i + 1;
    }
    assert(forall|k: int| 0 <= k < rows@.len() ==> strs(rows@)[k] == rows@[k]@);
    assert(flatten_outcomes(outcomes) == strs(assets@));
    assets
}

/// The lookup of the note at `path` from what its two queries returned:
/// the first failed query's error, passed on, or the notes named by the
/// id-link rows and the resolved file-link targets.
pub fn lookup_from_results(
    path: &RoamFile,
    note_rows: Result<Vec<String>, rusqlite::Error>,
    asset_rows: Result<Vec<String>, rusqlite::Error>,
) -> (r: Result<ReferencedFiles, ClosureError>)
    ensures
        note_rows is Err ==> r == Err::<ReferencedFiles, ClosureError>(
            ClosureError::StoreQuery(note_rows->Err_0),
        ),
        note_rows is Ok && asset_rows is Err ==> r == Err::<ReferencedFiles, ClosureError>(
            ClosureError::StoreQuery(asset_rows->Err_0),
        ),
        note_rows is Ok && asset_rows is Ok ==> r is Ok && lookup_from_rows(
            path.path@,
            paths_of(r->Ok_0.notes@),
            strs(r->Ok_0.assets@),
            strs(note_rows->Ok_0@),
            strs(asset_rows->Ok_0@),
        ),
{
    let note_rows = match note_rows {
        Ok(rows) => rows,
        Err(e) => return Err(ClosureError::StoreQuery(e)),
    };
    let asset_rows = match asset_rows {
        Ok(rows) => rows,
        Err(e) => return Err(ClosureError::StoreQuery(e)),
    };
    let notes = notes_from_rows(&note_rows);
    let assets = assets_from_rows(path, &asset_rows);
    Ok(ReferencedFiles { notes, assets })
}

/// Looks up what one note references: the notes it links by id, in the order
/// the database returns them, and the resolved paths of the targets of its
/// file links, in row order, leaving out the targets that do not resolve.
/// Both queries are run; where one fails, the lookup fails with its error.
pub fn find_files_referenced_by(conn: &rusqlite::Connection, path: &RoamFile) -> (r: Result<
    ReferencedFiles,
    ClosureError,
>)
    ensures
        r is Ok ==> looked_up(path.path@, paths_of(r->Ok_0.notes@), strs(r->Ok_0.assets@)),
{
    let key = path.to_store_text();
    let note_rows = query_text_column(conn, REFERENCED_NOTES_QUERY, key.as_str());
    let asset_rows = query_text_column(conn, REFERENCED_ASSETS_QUERY, key.as_str());
    let r = lookup_from_results(path, note_rows, asset_rows);
    r
}

/// Computes the closure of the notes `paths` in the link database: every note
/// reachable from them by id links, in breadth-first order of discovery, and
/// every asset linked from a reached note, each once.
///
/// A note for which `exclude` holds is kept among the notes but not expanded:
/// neither the notes it references nor its assets are taken from it. The first
/// failed query aborts the computation with its error.
///
/// On success the result is a completed run: every discovered note was taken
/// from the frontier once, in order, and expanded exactly where `exclude`
/// answered `false` for it. What each lookup returned depends on the database.
pub fn find_file_references_recursive<F: Fn(&RoamFile) -> bool>(
    conn: &rusqlite::Connection,
    paths: &[RoamFile],
    exclude: F,
) -> (r: Result<ReferencedFiles, ClosureError>)
    requires
        forall|f: &RoamFile| exclude.requires((f,)),
    ensures
        r is Ok ==> {
            let notes = paths_of(r->Ok_0.notes@);
            let seeds = initial_state(paths_of(paths@)).notes;
            &&& notes.no_duplicates()
            &&& strs(r->Ok_0.assets@).no_duplicates()
            &&& seeds.len() <= notes.len()
            &&& notes.subrange(0, seeds.len() as int) == seeds
        },
        r is Ok ==> exists|steps: Seq<Step>| {
            let s = #[trigger] run(initial_state(paths_of(paths@)), steps);
            &&& steps.len() == s.notes.len()
            &&& s.head == s.notes.len()
            &&& paths_of(r->Ok_0.notes@) == s.notes
            &&& strs(r->Ok_0.assets@) == s.assets
            &&& forall|k: int|
                0 <= k < steps.len() ==> decided(exclude, s.notes[k], #[trigger] steps[k].excluded)
            &&& forall|k: int|
                0 <= k < steps.len() && !#[trigger] steps[k].excluded ==> looked_up(
                    s.notes[k],
                    steps[k].refs,
                    steps[k].assets,
                )
        },
        r is Err ==> exists|steps: Seq<Step>| {
            let s = #[trigger] run(initial_state(paths_of(paths@)), steps);
            &&& steps.len() == s.head
            &&& s.head < s.notes.len()
            &&& decided(exclude, s.notes[s.head as int], false)
            &&& forall|k: int|
                0 <= k < steps.len() ==> decided(exclude, s.notes[k], #[trigger] steps[k].excluded)
            &&& forall|k: int|
                0 <= k < steps.len() && !#[trigger] steps[k].excluded ==> looked_up(
                    s.notes[k],
                    steps[k].refs,
                    steps[k].assets,
                )
        },
        (forall|f: &RoamFile, b: bool|
            paths_of(paths@).contains(f.path@) && #[trigger] exclude.ensures((f,), b) ==> b) ==> {
            &&& r is Ok
            &&& paths_of(r->Ok_0.notes@) == initial_state(paths_of(paths@)).notes
            &&& r->Ok_0.assets@.len() == 0
        },
        paths@.len() == 0 ==> {
            &&& r is Ok
            &&& r->Ok_0.notes@.len() == 0
            &&& r->Ok_0.assets@.len() == 0
        },
{
    let mut traversal = Traversal::new(paths);
    let ghost seeds = initial_state(paths_of(paths@)).notes;
    let ghost mut steps: Seq<Step> = Seq::empty();
    assert(traversal.view().notes.subrange(0, seeds.len() as int) =~= seeds);
    proof {
        crate::closure::lemma_seeds_deduplicated(paths_of(paths@));
        if paths@.len() == 0 {
            assert(paths_of(paths@) =~= Seq::<Seq<char>>::empty());
            assert(seeds =~= Seq::<Seq<char>>::empty());
        }
    }
    loop
        invariant
            traversal.wf(),
            traversal.view().head <= usize::MAX,
            forall|f: &RoamFile| exclude.requires((f,)),
            seeds.len() <= traversal.view().notes.len(),
            traversal.view().notes.subrange(0, seeds.len() as int) == seeds,
            forall|x: Seq<char>| #[trigger] seeds.contains(x) <==> paths_of(paths@).contains(x),
            (forall|f: &RoamFile, b: bool|
                paths_of(paths@).contains(f.path@) && #[trigger] exclude.ensures((f,), b) ==> b) ==> {
                &&& traversal.view().notes == seeds
                &&& traversal.view().assets.len() == 0
            },
            traversal.view() == run(initial_state(paths_of(paths@)), steps),
            steps.len() == traversal.view().head,
            forall|k: int|
                0 <= k < steps.len() ==> decided(
                    exclude,
                    traversal.view().notes[k],
                    #[trigger] steps[k].excluded,
                ),
            forall|k: int|
                0 <= k < steps.len() && !#[trigger] steps[k].excluded ==> looked_up(
                    traversal.view().notes[k],
                    steps[k].refs,
                    steps[k].assets,
                ),
        ensures
            traversal.view().head >= traversal.view().notes.len(),
        decreases usize::MAX - traversal.view().head,
    {
        let ghost before = traversal.view();
        let current = match traversal.next_note() {
            Some(note) => note,
            None => break,
        };
        let excluded = exclude(&current);
        proof {
            let step = Step { excluded, refs: Seq::empty(), assets: Seq::empty() };
            assert(steps.push(step).drop_last() =~= steps);
            assert(decided(exclude, current.path@, excluded));
            if excluded {
                steps = steps.push(step);
                assert(run(initial_state(paths_of(paths@)), steps) == traversal.view());
            }
        }
        if excluded {
            continue;
        }
        proof {
            if forall|f: &RoamFile, b: bool|
                paths_of(paths@).contains(f.path@) && #[trigger] exclude.ensures((f,), b) ==> b {
                assert(seeds[before.head as int] == current.path@);
                assert(seeds.contains(current.path@));
                assert(exclude.ensures((&current,), false));
            }
        }
        let found = match find_files_referenced_by(conn, &current) {
            Ok(found) => found,
            Err(e) => {
                assert(run(initial_state(paths_of(paths@)), steps) == before);
                return Err(e);
            },
        };
        traversal.expand(&found.notes, &found.assets);
        proof {
            let step = Step { excluded: false, refs: paths_of(found.notes@), assets: strs(found.assets@) };
            assert(steps.push(step).drop_last() =~= steps);
            steps = steps.push(step);
            crate::closure::lemma_visit_keeps_discovered(
                before,
                false,
                paths_of(found.notes@),
                strs(found.assets@),
            );
            let mid = crate::closure::ClosureState { head: before.head + 1, ..before };
            assert(crate::closure::ClosureState { head: (mid.head - 1) as nat, ..mid } == before);
            let now = traversal.view().notes;
            assert forall|i: int| 0 <= i < seeds.len() implies now[i] == seeds[i] by {
                assert(now.subrange(0, before.notes.len() as int)[i] == before.notes[i]);
                assert(before.notes.subrange(0, seeds.len() as int)[i] == seeds[i]);
            }
            assert(now.subrange(0, seeds.len() as int) =~= seeds);
            assert forall|k: int| 0 <= k < steps.len() implies now[k] == before.notes[k] by {
                assert(now.subrange(0, before.notes.len() as int)[k] == before.notes[k]);
            }
        }
    }
    let result = traversal.into_result();
    Ok(result)
}

} // verus!
