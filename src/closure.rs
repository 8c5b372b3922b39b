use crate::note::{paths_of, RoamFile};
use vstd::prelude::*;

verus! {

/// `acc` followed by each element of `items` that is not already present,
/// in the order of first appearance.
pub open spec fn append_new(acc: Seq<Seq<char>>, items: Seq<Seq<char>>) -> Seq<Seq<char>>
    decreases items.len(),
{
    if items.len() == 0 {
        acc
    } else {
        let prev = append_new(acc, items.drop_last());
        if prev.contains(items.last()) {
            prev
        } else {
            prev.push(items.last())
        }
    }
}

/// The abstract state of one closure computation.
///
/// `notes` lists every note discovered so far, in discovery order; the notes
/// from index `head` on form the frontier still to be processed. `assets`
/// lists the resolved asset paths collected so far, each once.
pub struct ClosureState {
    pub notes: Seq<Seq<char>>,
    pub head: nat,
    pub assets: Seq<Seq<char>>,
}

/// The state before any note is processed: the distinct seeds, in input order.
pub open spec fn initial_state(seeds: Seq<Seq<char>>) -> ClosureState {
    ClosureState { notes: append_new(Seq::empty(), seeds), head: 0, assets: Seq::empty() }
}

/// The state after the note at the front of the frontier has been processed.
/// An excluded note is consumed without expansion; otherwise the notes it
/// references are discovered and the assets it links are collected.
pub open spec fn visit(
    s: ClosureState,
    excluded: bool,
    refs: Seq<Seq<char>>,
    assets: Seq<Seq<char>>,
) -> ClosureState {
    if excluded {
        ClosureState { head: s.head + 1, ..s }
    } else {
        ClosureState {
            notes: append_new(s.notes, refs),
            head: s.head + 1,
            assets: append_new(s.assets, assets),
        }
    }
}

/// What happened to one note taken from the frontier: whether it was
/// excluded and, if not, what its lookup returned.
pub struct Step {
    pub excluded: bool,
    pub refs: Seq<Seq<char>>,
    pub assets: Seq<Seq<char>>,
}

/// The state after processing the notes of `steps`, one after the other, from `s`.
pub open spec fn run(s: ClosureState, steps: Seq<Step>) -> ClosureState
    decreases steps.len(),
{
    if steps.len() == 0 {
        s
    } else {
        let last = steps.last();
        visit(run(s, steps.drop_last()), last.excluded, last.refs, last.assets)
    }
}

/// Whether `excluded` is a possible answer of `exclude` for the note at `path`.
pub open spec fn decided<F: Fn(&RoamFile) -> bool>(exclude: F, path: Seq<char>, excluded: bool) -> bool {
    exists|f: &RoamFile| f.path@ == path && exclude.ensures((f,), excluded)
}

/// Every state reachable by `visit` from `initial_state` has these properties.
pub open spec fn state_wf(s: ClosureState) -> bool {
    &&& s.head <= s.notes.len()
    &&& s.notes.no_duplicates()
    &&& s.assets.no_duplicates()
}

/// Adding the new elements of `items` keeps `acc` as a prefix, adds exactly
/// the missing members of `items`, and never introduces a duplicate.
pub proof fn lemma_append_new(acc: Seq<Seq<char>>, items: Seq<Seq<char>>)
    ensures
        append_new(acc, items).len() >= acc.len(),
        append_new(acc, items).subrange(0, acc.len() as int) == acc,
        forall|x: Seq<char>| #[trigger]
            append_new(acc, items).contains(x) <==> (acc.contains(x) || items.contains(x)),
        acc.no_duplicates() ==> append_new(acc, items).no_duplicates(),
    decreases items.len(),
{
    if items.len() > 0 {
        let init = items.drop_last();
        lemma_append_new(acc, init);
        let prev = append_new(acc, init);
        assert forall|x: Seq<char>| items.contains(x) <==> (init.contains(x) || x == items.last()) by {
            if items.contains(x) {
                let i = choose|i: int| 0 <= i < items.len() && items[i] == x;
                if i < items.len() - 1 {
                    assert(init[i] == x);
                }
            }
            if init.contains(x) {
                let i = choose|i: int| 0 <= i < init.len() && init[i] == x;
                assert(items[i] == x);
            }
        }
        if !prev.contains(items.last()) {
            let r = prev.push(items.last());
            assert(r.subrange(0, acc.len() as int) =~= prev.subrange(0, acc.len() as int));
            assert forall|x: Seq<char>| r.contains(x) <==> (prev.contains(x) || x == items.last()) by {
                if r.contains(x) {
                    let i = choose|i: int| 0 <= i < r.len() && r[i] == x;
                    if i < prev.len() {
                        assert(prev[i] == x);
                    }
                }
                if prev.contains(x) {
                    let i = choose|i: int| 0 <= i < prev.len() && prev[i] == x;
                    assert(r[i] == x);
                }
                if x == items.last() {
                    assert(r[prev.len() as int] == x);
                }
            }
        }
    }
}

/// The seeds are deduplicated: each distinct seed appears exactly once among
/// the initial notes, and nothing else does.
pub proof fn lemma_seeds_deduplicated(seeds: Seq<Seq<char>>)
    ensures
        initial_state(seeds).notes.no_duplicates(),
        forall|x: Seq<char>| #[trigger]
            initial_state(seeds).notes.contains(x) <==> seeds.contains(x),
        state_wf(initial_state(seeds)),
{
    lemma_append_new(Seq::empty(), seeds);
}

/// The distinct seeds keep the order in which they first appear: where one
/// initial note comes before another, it occurs among the seeds before every
/// occurrence of the other.
pub proof fn lemma_seeds_first_seen_order(seeds: Seq<Seq<char>>)
    ensures
        forall|i: int, j: int, q: int|
            #![trigger initial_state(seeds).notes[i], initial_state(seeds).notes[j], seeds[q]]
            0 <= i < j < initial_state(seeds).notes.len() && 0 <= q < seeds.len()
                && seeds[q] == initial_state(seeds).notes[j] ==> seeds.take(q).contains(
                initial_state(seeds).notes[i],
            ),
    decreases seeds.len(),
{
    if seeds.len() > 0 {
        let init = seeds.drop_last();
        lemma_seeds_first_seen_order(init);
        lemma_append_new(Seq::empty(), init);
        let prev = append_new(Seq::empty(), init);
        let r = initial_state(seeds).notes;
        assert forall|i: int, j: int, q: int|
            0 <= i < j < r.len() && 0 <= q < seeds.len() && seeds[q] == r[j] implies seeds.take(
                q,
            ).contains(r[i]) by {
            assert(r[i] == prev[i]);
            assert(prev.contains(prev[i]));
            let p = choose|p: int| 0 <= p < init.len() && init[p] == r[i];
            if q < init.len() {
                assert(init[q] == seeds[q]);
                assert(init.take(q) =~= seeds.take(q));
                if j < prev.len() {
                    assert(r[j] == prev[j]);
                    assert(initial_state(init).notes[i] == prev[i]);
                    assert(initial_state(init).notes[j] == prev[j]);
                } else {
                    assert(init.contains(seeds[q]));
                }
            } else {
                assert(seeds.take(q)[p] == r[i]);
            }
        }
    }
}

/// Processing a note keeps every state property: no note and no asset is ever
/// recorded twice, and the frontier stays within the discovered notes.
pub proof fn lemma_visit_keeps_wf(
    s: ClosureState,
    excluded: bool,
    refs: Seq<Seq<char>>,
    assets: Seq<Seq<char>>,
)
    requires
        state_wf(s),
        s.head < s.notes.len(),
    ensures
        state_wf(visit(s, excluded, refs, assets)),
{
    lemma_append_new(s.notes, refs);
    lemma_append_new(s.assets, assets);
}

/// Whether each of `steps` took a note from a non-empty frontier.
pub open spec fn valid_run(s: ClosureState, steps: Seq<Step>) -> bool {
    forall|k: int|
        0 <= k < steps.len() ==> #[trigger] run(s, steps.take(k)).head < run(s, steps.take(k)).notes.len()
}

/// Every state of a traversal has the state properties: whatever the lookups
/// return and whichever notes are excluded, a note enters the frontier at
/// most once and an asset is collected at most once.
pub proof fn lemma_run_keeps_wf(seeds: Seq<Seq<char>>, steps: Seq<Step>)
    requires
        valid_run(initial_state(seeds), steps),
    ensures
        state_wf(run(initial_state(seeds), steps)),
    decreases steps.len(),
{
    let s0 = initial_state(seeds);
    if steps.len() == 0 {
        lemma_seeds_deduplicated(seeds);
    } else {
        let prev = steps.drop_last();
        assert forall|k: int| 0 <= k < prev.len() implies #[trigger] run(s0, prev.take(k)).head < run(
            s0,
            prev.take(k),
        ).notes.len() by {
            assert(prev.take(k) =~= steps.take(k));
            assert(run(s0, steps.take(k)).head < run(s0, steps.take(k)).notes.len());
        }
        lemma_run_keeps_wf(seeds, prev);
        assert(steps.take(prev.len() as int) =~= prev);
        assert(run(s0, steps.take(prev.len() as int)).head < run(s0, steps.take(prev.len() as int)).notes.len());
        let last = steps.last();
        lemma_visit_keeps_wf(run(s0, prev), last.excluded, last.refs, last.assets);
    }
}

/// Only expansion discovers notes: every note of a traversal is a seed or
/// was referenced by a note that was not excluded. A note that can be reached
/// only through excluded notes is never discovered.
pub proof fn lemma_run_discovers_through_expanded_notes(seeds: Seq<Seq<char>>, steps: Seq<Step>)
    ensures
        forall|x: Seq<char>| #[trigger]
            run(initial_state(seeds), steps).notes.contains(x) ==> seeds.contains(x) || exists|k: int|
                0 <= k < steps.len() && !steps[k].excluded && #[trigger] steps[k].refs.contains(x),
    decreases steps.len(),
{
    let s0 = initial_state(seeds);
    lemma_seeds_deduplicated(seeds);
    if steps.len() > 0 {
        let prev = steps.drop_last();
        let last = steps.last();
        lemma_run_discovers_through_expanded_notes(seeds, prev);
        lemma_append_new(run(s0, prev).notes, last.refs);
        assert forall|x: Seq<char>| #[trigger]
            run(s0, steps).notes.contains(x) implies seeds.contains(x) || exists|k: int|
                0 <= k < steps.len() && !steps[k].excluded && #[trigger] steps[k].refs.contains(x) by {
            if run(s0, prev).notes.contains(x) {
                if !seeds.contains(x) {
                    let k = choose|k: int|
                        0 <= k < prev.len() && !prev[k].excluded && #[trigger] prev[k].refs.contains(x);
                    assert(steps[k] == prev[k]);
                }
            } else {
                assert(steps[steps.len() - 1] == last);
            }
        }
    }
}

/// A discovered note is never removed: processing a note keeps every note
/// discovered before it, in place.
pub proof fn lemma_visit_keeps_discovered(
    s: ClosureState,
    excluded: bool,
    refs: Seq<Seq<char>>,
    assets: Seq<Seq<char>>,
)
    ensures
        visit(s, excluded, refs, assets).notes.len() >= s.notes.len(),
        visit(s, excluded, refs, assets).notes.subrange(0, s.notes.len() as int) == s.notes,
        visit(s, excluded, refs, assets).assets.subrange(0, s.assets.len() as int) == s.assets,
{
    lemma_append_new(s.notes, refs);
    lemma_append_new(s.assets, assets);
    if excluded {
        assert(s.notes.subrange(0, s.notes.len() as int) =~= s.notes);
        assert(s.assets.subrange(0, s.assets.len() as int) =~= s.assets);
    }
}

/// Excluding a note halts expansion through it: the note itself stays among
/// the discovered notes, but none of its references is discovered and none of
/// its assets is collected.
pub proof fn lemma_excluded_visit_expands_nothing(
    s: ClosureState,
    refs: Seq<Seq<char>>,
    assets: Seq<Seq<char>>,
)
    requires
        s.head < s.notes.len(),
    ensures
        visit(s, true, refs, assets).notes == s.notes,
        visit(s, true, refs, assets).assets == s.assets,
        visit(s, true, refs, assets).notes.contains(s.notes[s.head as int]),
        forall|x: Seq<char>|
            #![trigger visit(s, true, refs, assets).notes.contains(x)]
            !s.notes.contains(x) ==> !visit(s, true, refs, assets).notes.contains(x),
{
    assert(s.notes[s.head as int] == s.notes[s.head as int]);
}

/// The character sequences held by a sequence of strings.
pub open spec fn strs(v: Seq<String>) -> Seq<Seq<char>> {
    v.map_values(|s: String| s@)
}

/// Whether `v` holds a string equal to `x`.
fn contains_str(v: &Vec<String>, x: &String) -> (r: bool)
    ensures
        r == strs(v@).contains(x@),
{
    let mut i: usize = 0;
    while i < v.len()
        invariant
            i <= v@.len(),
            forall|j: int| 0 <= j < i ==> v@[j]@ != x@,
        decreases v@.len() - i,
    {
        if v[i] == *x {
            assert(strs(v@)[i as int] == x@);
            return true;
        }
        i = i + 1;
    }
    assert forall|j: int| 0 <= j < strs(v@).len() implies strs(v@)[j] != x@ by {
        assert(v@[j]@ != x@);
    }
    false
}

/// Appends to `v` each string of `items` that it does not hold yet.
fn push_new(v: &mut Vec<String>, items: &Vec<String>)
    ensures
        strs(final(v)@) == append_new(strs(old(v)@), strs(items@)),
{
    let ghost start = strs(v@);
    let mut i: usize = 0;
    while i < items.len()
        invariant
            i <= items@.len(),
            strs(v@) == append_new(start, strs(items@).take(i as int)),
        decreases items@.len() - i,
    {
        let ghost prefix = strs(items@).take(i as int);
        assert(strs(items@).take(i as int + 1).drop_last() =~= prefix);
        assert(strs(items@).take(i as int + 1).last() == items@[i as int]@);
        if !contains_str(v, &items[i]) {
            v.push(items[i].clone());
            assert(strs(v@) =~= append_new(start, prefix).push(items@[i as int]@));
        }
        i = i + 1;
    }
    assert(strs(items@).take(items@.len() as int) =~= strs(items@));
}

/// The notes and assets referenced, directly or transitively, from a set of notes.
pub struct ReferencedFiles {
    /// The notes reached, in the order of discovery.
    pub notes: Vec<RoamFile>,
    /// The resolved paths of the assets linked from the expanded notes, each once.
    pub assets: Vec<String>,
}

/// The breadth-first traversal that computes a closure, one note at a time.
///
/// The caller takes the next note with `next_note`, decides whether it is
/// excluded, and if not looks up its references and hands them to `expand`.
pub struct Traversal {
    notes: Vec<String>,
    head: usize,
    assets: Vec<String>,
}

impl Traversal {
    pub closed spec fn view(&self) -> ClosureState {
        ClosureState { notes: strs(self.notes@), head: self.head as nat, assets: strs(self.assets@) }
    }

    pub open spec fn wf(&self) -> bool {
        state_wf(self.view())
    }

    /// Starts a traversal from the given seeds; duplicate seeds count once.
    pub fn new(seeds: &[RoamFile]) -> (t: Traversal)
        ensures
            t.wf(),
            t.view() == initial_state(paths_of(seeds@)),
    {
        let mut paths: Vec<String> = Vec::new();
        let mut i: usize = 0;
        while i < seeds.len()
            invariant
                i <= seeds@.len(),
                strs(paths@) == paths_of(seeds@).take(i as int),
            decreases seeds@.len() - i,
        {
            let ghost before = paths@;
            paths.push(seeds[i].path.clone());
            assert(paths@ == before.push(seeds@[i as int].path));
            assert(strs(paths@) =~= strs(before).push(seeds@[i as int].path@));
            assert(paths_of(seeds@).take(i as int + 1) =~= paths_of(seeds@).take(i as int).push(
                seeds@[i as int].path@,
            ));
            i = i + 1;
        }
        assert(paths_of(seeds@).take(seeds@.len() as int) =~= paths_of(seeds@));
        let mut notes: Vec<String> = Vec::new();
        assert(strs(notes@) =~= Seq::<Seq<char>>::empty());
        push_new(&mut notes, &paths);
        let t = Traversal { notes, head: 0, assets: Vec::new() };
        proof {
            lemma_seeds_deduplicated(paths_of(seeds@));
            assert(strs(t.assets@) =~= Seq::<Seq<char>>::empty());
        }
        t
    }

    /// Takes the note at the front of the frontier, if any is left.
    pub fn next_note(&mut self) -> (r: Option<RoamFile>)
        requires
            old(self).wf(),
        ensures
            final(self).wf(),
            final(self).view().head <= usize::MAX,
            old(self).view().head < old(self).view().notes.len() ==> {
                &&& r is Some
                &&& r->0.path@ == old(self).view().notes[old(self).view().head as int]
                &&& final(self).view() == ClosureState {
                    head: old(self).view().head + 1,
                    ..old(self).view()
                }
            },
            old(self).view().head >= old(self).view().notes.len() ==> {
                &&& r is None
                &&& final(self).view() == old(self).view()
            },
    {
        if self.head < self.notes.len() {
            let note = RoamFile::new(self.notes[self.head].clone());
            self.head = self.head + 1;
            Some(note)
        } else {
            None
        }
    }

    /// Records what the note last taken with `next_note` references: the
    /// notes not yet discovered join the frontier and the assets not yet
    /// collected are collected.
    pub fn expand(&mut self, refs: &Vec<RoamFile>, assets: &Vec<String>)
        requires
            old(self).wf(),
            old(self).view().head >= 1,
        ensures
            final(self).wf(),
            final(self).view().head == old(self).view().head,
            visit(
                ClosureState { head: (old(self).view().head - 1) as nat, ..old(self).view() },
                false,
                paths_of(refs@),
                strs(assets@),
            ) == final(self).view(),
    {
        let mut paths: Vec<String> = Vec::new();
        let mut i: usize = 0;
        while i < refs.len()
            invariant
                i <= refs@.len(),
                strs(paths@) == paths_of(refs@).take(i as int),
            decreases refs@.len() - i,
        {
            let ghost before = paths@;
            paths.push(refs[i].path.clone());
            assert(paths@ == before.push(refs@[i as int].path));
            assert(strs(paths@) =~= strs(before).push(refs@[i as int].path@));
            assert(paths_of(refs@).take(i as int + 1) =~= paths_of(refs@).take(i as int).push(
                refs@[i as int].path@,
            ));
            i = i + 1;
        }
        assert(paths_of(refs@).take(refs@.len() as int) =~= paths_of(refs@));
        let ghost prev = self.view();
        push_new(&mut self.notes, &paths);
        push_new(&mut self.assets, assets);
        proof {
            let before = ClosureState { head: (prev.head - 1) as nat, ..prev };
            lemma_visit_keeps_wf(before, false, paths_of(refs@), strs(assets@));
        }
    }

    /// Whether the frontier is empty.
    pub fn is_done(&self) -> (r: bool)
        ensures
            r == (self.view().head >= self.view().notes.len()),
    {
        self.head >= self.notes.len()
    }

    /// The notes discovered and the assets collected.
    pub fn into_result(self) -> (r: ReferencedFiles)
        ensures
            paths_of(r.notes@) == self.view().notes,
            strs(r.assets@) == self.view().assets,
    {
        let Traversal { notes, head: _, assets } = self;
        let mut files: Vec<RoamFile> = Vec::new();
        let mut i: usize = 0;
        while i < notes.len()
            invariant
                i <= notes@.len(),
                paths_of(files@) == strs(notes@).take(i as int),
            decreases notes@.len() - i,
        {
            let ghost before = files@;
            let f = RoamFile::new(notes[i].clone());
            files.push(f);
            assert(paths_of(files@) =~= paths_of(before).push(notes@[i as int]@));
            assert(strs(notes@).take(i as int + 1) =~= strs(notes@).take(i as int).push(
                notes@[i as int]@,
            ));
            i = i + 1;
        }
        assert(strs(notes@).take(notes@.len() as int) =~= strs(notes@));
        ReferencedFiles { notes: files, assets }
    }
}

} // verus!
