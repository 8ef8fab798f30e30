//! The decisions of an ingest run: destination names for taken file names, the directories
//! left to clean up and their order, the steps of a move, and the row stored per file.

use vstd::prelude::*;
use vstd::relations::injective_on;
use vstd::set_lib::{lemma_int_range, lemma_len_subset, lemma_map_size, set_int_range};
use crate::path::{
    depth, is_same_path, law_numbered_names_distinct, numbered, numbered_name, path_depth,
    same_path, split_file_name, stem_and_extension,
};

verus! {

/// The destination name tried at a given attempt: the file's own name first, then
/// `stem (1).ext`, `stem (2).ext`, ...
pub open spec fn candidate_name(filename: Seq<char>, attempt: nat) -> Seq<char> {
    if attempt == 0 {
        filename
    } else {
        numbered_name(stem_and_extension(filename).0, stem_and_extension(filename).1, attempt)
    }
}

/// The search for a free destination name for one file. The caller asks for the current
/// candidate, checks whether it is taken, and advances while it is.
pub struct ConflictSearch {
    filename: String,
    stem: String,
    ext: String,
    attempt: i32,
}

impl ConflictSearch {
    #[verifier::type_invariant]
    spec fn parts_match(self) -> bool {
        &&& (self.stem@, self.ext@) == stem_and_extension(self.filename@)
        &&& self.attempt >= 0
    }

    /// The name of the file being placed.
    pub closed spec fn filename(self) -> Seq<char> {
        self.filename@
    }

    /// How many candidates were found taken so far.
    pub closed spec fn attempt(self) -> int {
        self.attempt as int
    }

    /// Starts with the file's own name as the first candidate.
    pub fn new(filename: &str) -> (s: Self)
        ensures
            s.filename() == filename@,
            s.attempt() == 0,
    {
        let (stem, ext) = split_file_name(filename);
        ConflictSearch { filename: filename.to_owned(), stem, ext, attempt: 0 }
    }

    /// The number of the current candidate (0 for the file's own name).
    pub fn current_attempt(&self) -> (a: i32)
        ensures
            a == self.attempt(),
            a >= 0,
    {
        proof {
            use_type_invariant(self);
        }
        self.attempt
    }

    /// The current candidate name.
    pub fn candidate(&self) -> (r: String)
        ensures
            r@ == candidate_name(self.filename(), self.attempt() as nat),
    {
        proof {
            use_type_invariant(self);
        }
        if self.attempt == 0 {
            self.filename.clone()
        } else {
            numbered(self.stem.as_str(), self.ext.as_str(), self.attempt as u64)
        }
    }

    /// Moves on to the next number after the current candidate was found taken. The counter
    /// is an `i32`, which the search may not carry past its maximum.
    pub fn advance(&mut self)
        requires
            old(self).attempt() < i32::MAX,
        ensures
            final(self).filename() == old(self).filename(),
            final(self).attempt() == old(self).attempt() + 1,
    {
        proof {
            use_type_invariant(&*self);
        }
        self.attempt = self.attempt + 1;
    }

    /// Decides on the current candidate once it is known whether that name is taken: a free
    /// candidate is chosen (and kept as the current one), a taken one makes the search move on
    /// to the next number. Returns whether the current candidate was chosen.
    pub fn settle(&mut self, taken: bool) -> (chosen: bool)
        requires
            taken ==> old(self).attempt() < i32::MAX,
        ensures
            chosen == !taken,
            final(self).filename() == old(self).filename(),
            final(self).attempt() == if taken {
                old(self).attempt() + 1
            } else {
                old(self).attempt()
            },
    {
        if taken {
            self.advance();
            false
        } else {
            true
        }
    }
}

/// The name a search settles on when it starts at `attempt` and `taken` tells which names are
/// taken: the first free candidate among this one and the next `fuel`, or `None` if all of them
/// are taken. Each call of `ConflictSearch::settle` is one step of this.
pub open spec fn settled_name(
    filename: Seq<char>,
    taken: spec_fn(Seq<char>) -> bool,
    attempt: nat,
    fuel: nat,
) -> Option<Seq<char>>
    decreases fuel,
{
    if !taken(candidate_name(filename, attempt)) {
        Some(candidate_name(filename, attempt))
    } else if fuel == 0 {
        None
    } else {
        settled_name(filename, taken, attempt + 1, (fuel - 1) as nat)
    }
}

proof fn lemma_settles_on_first_free(
    filename: Seq<char>,
    taken: spec_fn(Seq<char>) -> bool,
    attempt: nat,
    k: nat,
    fuel: nat,
)
    requires
        attempt <= k,
        k <= attempt + fuel,
        forall|j: nat| attempt <= j < k ==> taken(#[trigger] candidate_name(filename, j)),
        !taken(candidate_name(filename, k)),
    ensures
        settled_name(filename, taken, attempt, fuel) == Some(candidate_name(filename, k)),
    decreases k - attempt,
{
    if attempt < k {
        assert(taken(candidate_name(filename, attempt)));
        lemma_settles_on_first_free(filename, taken, attempt + 1, k, (fuel - 1) as nat);
    }
}

/// A destination is the first free candidate: the file's own name if it is free, else the
/// lowest-numbered free `stem (i).ext`.
pub proof fn law_search_settles_on_first_free_name(
    filename: Seq<char>,
    taken: spec_fn(Seq<char>) -> bool,
    k: nat,
    fuel: nat,
)
    requires
        forall|j: nat| j < k ==> taken(#[trigger] candidate_name(filename, j)),
        !taken(candidate_name(filename, k)),
        k <= fuel,
    ensures
        settled_name(filename, taken, 0, fuel) == Some(candidate_name(filename, k)),
{
    lemma_settles_on_first_free(filename, taken, 0, k, fuel);
}

/// The search always ends: when `taken_names` are the names taken (finitely many), a free name
/// is found within the file's own name and the next `taken_names.len() + 1` numbered ones.
pub proof fn law_search_ends(filename: Seq<char>, taken_names: Set<Seq<char>>)
    requires
        taken_names.finite(),
    ensures
        settled_name(filename, |n: Seq<char>| taken_names.contains(n), 0, taken_names.len() + 1)
            is Some,
{
    let n = taken_names.len();
    let taken = |x: Seq<char>| taken_names.contains(x);
    let f = |i: int| candidate_name(filename, i as nat);
    if forall|j: nat| j <= n + 1 ==> taken(#[trigger] candidate_name(filename, j)) {
        let range = set_int_range(1, (n + 2) as int);
        lemma_int_range(1, (n + 2) as int);
        assert(injective_on(f, range)) by {
            assert forall|x1: int, x2: int|
                range.contains(x1) && range.contains(x2) && #[trigger] f(x1) == #[trigger] f(
                    x2,
                ) implies x1 == x2 by {
                if x1 != x2 {
                    law_candidates_distinct(filename, x1 as nat, x2 as nat);
                }
            }
        }
        let image = range.map(f);
        lemma_map_size(range, image, f);
        assert(image.subset_of(taken_names)) by {
            assert forall|x: Seq<char>| image.contains(x) implies taken_names.contains(x) by {
                let i = choose|i: int| range.contains(i) && f(i) == x;
                assert(taken(candidate_name(filename, i as nat)));
            }
        }
        lemma_len_subset(image, taken_names);
        assert(false);
    } else {
        let k = choose|j: nat| j <= n + 1 && !taken(#[trigger] candidate_name(filename, j));
        lemma_first_free_exists(filename, taken, k, n + 1);
    }
}

proof fn lemma_first_free_exists(
    filename: Seq<char>,
    taken: spec_fn(Seq<char>) -> bool,
    k: nat,
    fuel: nat,
)
    requires
        k <= fuel,
        !taken(candidate_name(filename, k)),
    ensures
        settled_name(filename, taken, 0, fuel) is Some,
    decreases k,
{
    if exists|j: nat| j < k && !taken(#[trigger] candidate_name(filename, j)) {
        let j = choose|j: nat| j < k && !taken(#[trigger] candidate_name(filename, j));
        lemma_first_free_exists(filename, taken, j, fuel);
    } else {
        law_search_settles_on_first_free_name(filename, taken, k, fuel);
    }
}

/// Numbered candidates never repeat: each attempt past the first proposes a name that no
/// other attempt proposes.
pub proof fn law_candidates_distinct(filename: Seq<char>, i: nat, j: nat)
    requires
        1 <= i,
        1 <= j,
        i != j,
    ensures
        candidate_name(filename, i) != candidate_name(filename, j),
{
    let (s, e) = stem_and_extension(filename);
    law_numbered_names_distinct(s, e, i, j);
}

/// The directories below the incoming directory that held ingested files, each kept once
/// (in the sense of `Path`'s `==`), in the order they were first met.
pub struct DirSet {
    dirs: Vec<String>,
}

/// No two entries name the same directory.
pub open spec fn no_same_paths(dirs: Seq<Seq<char>>) -> bool {
    forall|i: int, j: int| 0 <= i < j < dirs.len() ==> !same_path(dirs[i], dirs[j])
}

impl View for DirSet {
    type V = Seq<Seq<char>>;

    closed spec fn view(&self) -> Seq<Seq<char>> {
        self.dirs.deep_view()
    }
}

impl DirSet {
    #[verifier::type_invariant]
    spec fn distinct(self) -> bool {
        no_same_paths(self.dirs.deep_view())
    }

    /// No directory yet.
    pub fn new() -> (s: Self)
        ensures
            s@ == Seq::<Seq<char>>::empty(),
    {
        let s = DirSet { dirs: Vec::new() };
        assert(s.dirs.deep_view() =~= Seq::<Seq<char>>::empty());
        s
    }

    /// The number of directories kept.
    pub fn len(&self) -> (n: usize)
        ensures
            n == self@.len(),
    {
        self.dirs.len()
    }

    /// The directory at `index`.
    pub fn get(&self, index: usize) -> (d: &str)
        requires
            index < self@.len(),
        ensures
            d@ == self@[index as int],
    {
        self.dirs[index].as_str()
    }

    /// Notes the parent directory of an ingested file: it is kept unless it is the incoming
    /// directory itself or a directory already kept. Returns whether it was added.
    pub fn note_parent(&mut self, parent: &str, incoming: &str) -> (added: bool)
        ensures
            added == (!same_path(parent@, incoming@) && forall|k: int|
                0 <= k < old(self)@.len() ==> !same_path(#[trigger] old(self)@[k], parent@)),
            final(self)@ == if added {
                old(self)@.push(parent@)
            } else {
                old(self)@
            },
            no_same_paths(final(self)@),
    {
        proof {
            use_type_invariant(&*self);
        }
        if is_same_path(parent, incoming) {
            return false;
        }
        let n = self.dirs.len();
        let mut k: usize = 0;
        while k < n
            invariant
                n == self.dirs.len(),
                k <= n,
                self.dirs.deep_view() == old(self)@,
                no_same_paths(self.dirs.deep_view()),
                forall|j: int| 0 <= j < k ==> !same_path(#[trigger] self.dirs.deep_view()[j], parent@),
            decreases n - k,
        {
            if is_same_path(self.dirs[k].as_str(), parent) {
                assert(self.dirs.deep_view()[k as int] == self.dirs@[k as int]@);
                return false;
            }
            assert(self.dirs.deep_view()[k as int] == self.dirs@[k as int]@);
            k = k + 1;
        }
        let ghost before = self.dirs.deep_view();
        let mut dirs = Vec::new();
        std::mem::swap(&mut dirs, &mut self.dirs);
        dirs.push(parent.to_owned());
        assert(dirs.deep_view() =~= before.push(parent@));
        self.dirs = dirs;
        true
    }

    /// The indices of the kept directories, deepest first (most path components first), so
    /// that children come before their parents. Directories of equal depth keep the order in
    /// which they were first met.
    pub fn deepest_first(&self) -> (order: Vec<usize>)
        ensures
            order@.len() == self@.len(),
            forall|i: int| 0 <= i < order@.len() ==> #[trigger] order@[i] < self@.len(),
            forall|i: int, j: int| 0 <= i < j < order@.len() ==> order@[i] != order@[j],
            forall|i: int, j: int|
                0 <= i < j < order@.len() ==> path_depth(self@[order@[i] as int]) >= path_depth(
                    self@[order@[j] as int],
                ),
            forall|i: int, j: int|
                0 <= i < j < order@.len() && path_depth(self@[order@[i] as int]) == path_depth(
                    self@[order@[j] as int],
                ) ==> order@[i] < order@[j],
    {
        let n = self.dirs.len();
        let mut depths: Vec<usize> = Vec::new();
        let mut k: usize = 0;
        while k < n
            invariant
                n == self.dirs.len(),
                k <= n,
                depths@.len() == k,
                forall|j: int| 0 <= j < k ==> #[trigger] depths@[j] == path_depth(self@[j]),
            decreases n - k,
        {
            assert(self@[k as int] == self.dirs@[k as int]@);
            depths.push(depth(self.dirs[k].as_str()));
            k = k + 1;
        }
        let order = sort_indices_by_depth(&depths);
        order
    }
}

/// Indices `0..depths.len()` ordered by non-increasing depth, equal depths in increasing
/// index order (a stable insertion sort).
fn sort_indices_by_depth(depths: &Vec<usize>) -> (order: Vec<usize>)
    ensures
        order@.len() == depths@.len(),
        forall|i: int| 0 <= i < order@.len() ==> #[trigger] order@[i] < depths@.len(),
        forall|i: int, j: int| 0 <= i < j < order@.len() ==> order@[i] != order@[j],
        forall|i: int, j: int|
            0 <= i < j < order@.len() ==> depths@[order@[i] as int] >= depths@[order@[j] as int],
        forall|i: int, j: int|
            0 <= i < j < order@.len() && depths@[order@[i] as int] == depths@[order@[j] as int]
                ==> order@[i] < order@[j],
{
    let n = depths.len();
    let mut order: Vec<usize> = Vec::new();
    let mut k: usize = 0;
    while k < n
        invariant
            n == depths@.len(),
            k <= n,
            order@.len() == k,
            forall|j: int| 0 <= j < k ==> #[trigger] order@[j] == j,
        decreases n - k,
    {
        order.push(k);
        k = k + 1;
    }
    if n == 0 {
        return order;
    }
    let mut i: usize = 1;
    while i < n
        invariant
            n == depths@.len(),
            order@.len() == n,
            1 <= i <= n,
            forall|a: int| 0 <= a < n ==> #[trigger] order@[a] < n,
            forall|a: int, b: int| 0 <= a < b < n ==> order@[a] != order@[b],
            forall|a: int| i <= a < n ==> #[trigger] order@[a] == a,
            forall|a: int| 0 <= a < i ==> #[trigger] order@[a] < i,
            forall|a: int, b: int|
                0 <= a < b < i ==> depths@[order@[a] as int] >= depths@[order@[b] as int],
            forall|a: int, b: int|
                0 <= a < b < i && depths@[order@[a] as int] == depths@[order@[b] as int]
                    ==> order@[a] < order@[b],
        decreases n - i,
    {
        let mut j: usize = i;
        while j > 0 && depths[order[j - 1]] < depths[order[j]]
            invariant
                n == depths@.len(),
                order@.len() == n,
                0 <= j <= i < n,
                order@[j as int] == i,
                forall|a: int| 0 <= a < n ==> #[trigger] order@[a] < n,
                forall|a: int, b: int| 0 <= a < b < n ==> order@[a] != order@[b],
                forall|a: int| i < a < n ==> #[trigger] order@[a] == a,
                forall|a: int| 0 <= a <= i && a != j ==> #[trigger] order@[a] < i,
                forall|b: int| j < b <= i ==> depths@[#[trigger] order@[b] as int] < depths@[i as int],
                forall|a: int, b: int|
                    0 <= a < b < j ==> depths@[order@[a] as int] >= depths@[order@[b] as int],
                forall|a: int, b: int|
                    j <= a < b <= i ==> depths@[order@[a] as int] >= depths@[order@[b] as int],
                forall|a: int, b: int|
                    0 <= a < j && j < b <= i ==> depths@[order@[a] as int] >= depths@[order@[b] as int],
                forall|a: int, b: int|
                    0 <= a < b <= i && a != j && b != j && depths@[order@[a] as int]
                        == depths@[order@[b] as int] ==> order@[a] < order@[b],
            decreases j,
        {
            let x = order[j - 1];
            let y = order[j];
            order.set(j - 1, y);
            order.set(j, x);
            j = j - 1;
        }
        i = i + 1;
    }
    order
}

/// One step of moving a file into the archive.
#[derive(PartialEq, Eq, Structural, Debug, Clone, Copy)]
pub enum MoveStep {
    /// Create the destination's parent directories.
    CreateParent,
    /// Rename the file (fast, and atomic within one filesystem).
    Rename,
    /// Copy the file (after a failed rename, e.g. across filesystems).
    CopyAcross,
    /// Remove the source after the copy.
    RemoveSource,
}

/// What to do after a step.
#[derive(PartialEq, Eq, Structural, Debug, Clone, Copy)]
pub enum MoveNext {
    /// Run this step.
    Run(MoveStep),
    /// The file is in place.
    Done,
    /// The move failed; the error of the last step is the move's error.
    Failed,
}

/// The first step of a move: create the parent directories when the destination has a
/// parent, else rename at once.
pub open spec fn first_move_step(dst_has_parent: bool) -> MoveStep {
    if dst_has_parent {
        MoveStep::CreateParent
    } else {
        MoveStep::Rename
    }
}

/// The step that follows `step` when it succeeded or failed.
pub open spec fn next_move_step(step: MoveStep, succeeded: bool) -> MoveNext {
    match step {
        MoveStep::CreateParent => if succeeded {
            MoveNext::Run(MoveStep::Rename)
        } else {
            MoveNext::Failed
        },
        MoveStep::Rename => if succeeded {
            MoveNext::Done
        } else {
            MoveNext::Run(MoveStep::CopyAcross)
        },
        MoveStep::CopyAcross => if succeeded {
            MoveNext::Run(MoveStep::RemoveSource)
        } else {
            MoveNext::Failed
        },
        MoveStep::RemoveSource => if succeeded {
            MoveNext::Done
        } else {
            MoveNext::Failed
        },
    }
}

/// The first step of moving a file to a destination.
pub fn move_start(dst_has_parent: bool) -> (s: MoveStep)
    ensures
        s == first_move_step(dst_has_parent),
{
    if dst_has_parent {
        MoveStep::CreateParent
    } else {
        MoveStep::Rename
    }
}

/// What follows a step of a move, given whether it succeeded.
pub fn move_next(step: MoveStep, succeeded: bool) -> (n: MoveNext)
    ensures
        n == next_move_step(step, succeeded),
{
    match step {
        MoveStep::CreateParent => if succeeded {
            MoveNext::Run(MoveStep::Rename)
        } else {
            MoveNext::Failed
        },
        MoveStep::Rename => if succeeded {
            MoveNext::Done
        } else {
            MoveNext::Run(MoveStep::CopyAcross)
        },
        MoveStep::CopyAcross => if succeeded {
            MoveNext::Run(MoveStep::RemoveSource)
        } else {
            MoveNext::Failed
        },
        MoveStep::RemoveSource => if succeeded {
            MoveNext::Done
        } else {
            MoveNext::Failed
        },
    }
}

/// Whether a step succeeds, given the outcome of each kind of step.
pub open spec fn step_succeeds(
    step: MoveStep,
    create_ok: bool,
    rename_ok: bool,
    copy_ok: bool,
    remove_ok: bool,
) -> bool {
    match step {
        MoveStep::CreateParent => create_ok,
        MoveStep::Rename => rename_ok,
        MoveStep::CopyAcross => copy_ok,
        MoveStep::RemoveSource => remove_ok,
    }
}

/// Runs a move from `step` for at most `fuel` steps with the given outcomes.
pub open spec fn run_move(
    step: MoveStep,
    create_ok: bool,
    rename_ok: bool,
    copy_ok: bool,
    remove_ok: bool,
    fuel: nat,
) -> MoveNext
    decreases fuel,
{
    if fuel == 0 {
        MoveNext::Run(step)
    } else {
        match next_move_step(
            step,
            step_succeeds(step, create_ok, rename_ok, copy_ok, remove_ok),
        ) {
            MoveNext::Run(s) => run_move(s, create_ok, rename_ok, copy_ok, remove_ok, (fuel - 1) as nat),
            other => other,
        }
    }
}

/// A move ends within four steps; it puts the file in place exactly when the parent
/// directories could be made (if needed) and either the rename or both the copy and the
/// removal of the source succeeded. Otherwise it fails.
pub proof fn law_move_outcome(
    dst_has_parent: bool,
    create_ok: bool,
    rename_ok: bool,
    copy_ok: bool,
    remove_ok: bool,
)
    ensures
        run_move(first_move_step(dst_has_parent), create_ok, rename_ok, copy_ok, remove_ok, 4) == if (!dst_has_parent || create_ok) && (rename_ok || (copy_ok && remove_ok)) {
            MoveNext::Done
        } else {
            MoveNext::Failed
        },
{
    reveal_with_fuel(run_move, 5);
}

/// The source is removed only right after a successful copy, and a copy only follows a
/// failed rename: a file is never deleted without a copy in place.
pub proof fn law_source_removed_only_after_copy(step: MoveStep, succeeded: bool)
    ensures
        next_move_step(step, succeeded) == MoveNext::Run(MoveStep::RemoveSource) ==> (step
            == MoveStep::CopyAcross && succeeded),
        next_move_step(step, succeeded) == MoveNext::Run(MoveStep::CopyAcross) ==> (step
            == MoveStep::Rename && !succeeded),
{
}

/// Seconds since the Unix epoch of a modification time: 0 for a time before the epoch (the
/// default duration), else the whole seconds converted to `i64` as `as i64` does.
pub fn unix_seconds(since_epoch: Option<u64>) -> (r: i64)
    ensures
        r == match since_epoch {
            None => 0i64,
            Some(s) => s as i64,
        },
{
    match since_epoch {
        None => 0,
        Some(s) => s as i64,
    }
}

/// The row stored for an archived file.
pub struct FileRecord {
    /// Where the file now lies in the archive.
    pub path: String,
    /// The file's original name, for searching.
    pub filename: String,
    /// Size in bytes.
    pub size_bytes: i64,
    /// Modification time, seconds since the Unix epoch.
    pub mtime_unix: i64,
    /// Hexadecimal SHA-256 of the content.
    pub sha256: String,
}

impl FileRecord {
    /// The row for a file of `size` bytes; the size is stored as `i64` (`as i64`).
    pub fn new(path: String, filename: String, size: u64, mtime_unix: i64, sha256: String) -> (r:
        FileRecord)
        ensures
            r.path@ == path@,
            r.filename@ == filename@,
            r.size_bytes == size as i64,
            r.mtime_unix == mtime_unix,
            r.sha256@ == sha256@,
    {
        FileRecord { path, filename, size_bytes: size as i64, mtime_unix, sha256 }
    }
}

} // verus!
