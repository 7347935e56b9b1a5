//! Where exported files go, and what happens to files that are already there.
use crate::paths::{
    components, extension, extension_start, file_name, is_last_dot, law_path_of_parts,
    law_stem_and_extension, name_or_empty, stem, stem_and_extension,
};
use crate::text::{
    chars_of, decimal, decimal_string, digit, holds, join, option_view, same, views,
};
use vstd::prelude::*;

verus! {

/// How to treat a note or attachment whose file name already exists in the
/// output directory.
#[derive(Clone, Copy, Debug, PartialEq, Eq, Structural)]
pub enum Mode {
    /// Never overwrite; write to a copy with a numerical suffix instead.
    Copy,
    /// Overwrite existing files in place, but leave any other files alone.
    Update,
    /// Overwrite existing files in place and delete notes and attachments that
    /// no longer correspond to anything in Bear.
    Mirror,
}

/// The name that is tried in the `attempt`-th place: the file name itself
/// first, then with ` (2)`, ` (3)`, … appended to the stem.
pub open spec fn candidate(name: Seq<char>, attempt: nat) -> Seq<char> {
    if attempt == 0 {
        name
    } else {
        stem(name) + " ("@ + decimal(attempt + 1) + ")"@ + extension(name)
    }
}

/// Whether a name cannot be used, given the identity of the file that has it
/// already, if there is one, and those of the files that this export wrote. A
/// file from before the export is in the way only if nothing is overwritten;
/// one that the export itself wrote always is.
pub open spec fn is_taken(
    mode: Mode,
    existing: Option<Seq<char>>,
    written: Seq<Seq<char>>,
) -> bool {
    existing is Some && (mode == Mode::Copy || written.contains(existing->0))
}

/// What is known about a search for a name.
pub enum Placement {
    /// The name to use.
    Use(String),
    /// Whether this name is in use has to be found out next.
    Probe(String),
}

/// What a [`Placement`] holds.
pub enum PlacementView {
    Use(Seq<char>),
    Probe(Seq<char>),
}

impl View for Placement {
    type V = PlacementView;

    open spec fn view(&self) -> PlacementView {
        match *self {
            Placement::Use(name) => PlacementView::Use(name@),
            Placement::Probe(name) => PlacementView::Probe(name@),
        }
    }
}

/// What the answers about the names tried so far hold.
pub open spec fn probe_views(probes: Seq<Option<String>>) -> Seq<Option<Seq<char>>> {
    probes.map_values(|existing: Option<String>| option_view(existing))
}

/// Whether the name tried in the `k`-th place is the first that is free.
pub open spec fn is_first_free(
    mode: Mode,
    probes: Seq<Option<Seq<char>>>,
    written: Seq<Seq<char>>,
    k: int,
) -> bool {
    &&& 0 <= k < probes.len()
    &&& !is_taken(mode, probes[k], written)
    &&& forall|j: int| 0 <= j < k ==> is_taken(mode, #[trigger] probes[j], written)
}

/// The first free name, or the next one to find out about if every name tried
/// so far is taken.
pub open spec fn placed(
    mode: Mode,
    name: Seq<char>,
    probes: Seq<Option<Seq<char>>>,
    written: Seq<Seq<char>>,
) -> PlacementView {
    if exists|k: int| is_first_free(mode, probes, written, k) {
        PlacementView::Use(
            candidate(name, (choose|k: int| is_first_free(mode, probes, written, k)) as nat),
        )
    } else {
        PlacementView::Probe(candidate(name, probes.len()))
    }
}

/// Whether a name cannot be used.
fn name_is_taken(mode: Mode, existing: &Option<String>, written: &Vec<String>) -> (res: bool)
    ensures
        res == is_taken(mode, option_view(*existing), views(written@)),
{
    match existing {
        Some(existing) => mode == Mode::Copy || holds(written, existing),
        None => false,
    }
}

/// The name that is tried in the `attempt`-th place.
fn candidate_name(name: &str, attempt: usize) -> (res: String)
    requires
        attempt < usize::MAX,
    ensures
        res@ == candidate(name@, attempt as nat),
{
    if attempt == 0 {
        return name.to_owned();
    }
    let (mut candidate, extension) = stem_and_extension(name);
    candidate.push_str(" (");
    candidate.push_str(decimal_string(attempt + 1).as_str());
    candidate.push_str(")");
    candidate.push_str(extension.as_str());
    candidate
}

/// A name like `file_name` that is not in use yet, with ` (2)`, ` (3)`, …
/// appended to the stem if the name is already taken.
///
/// `probes` holds, for each name tried so far, the identity of the file that
/// has it, if there is one; `written` holds the identities of the files that
/// this export has written.
pub fn unique_path(
    mode: Mode,
    file_name: &str,
    probes: &Vec<Option<String>>,
    written: &Vec<String>,
) -> (res: Placement)
    requires
        probes@.len() < usize::MAX,
    ensures
        res@ == placed(mode, file_name@, probe_views(probes@), views(written@)),
{
    let ghost answers = probe_views(probes@);
    for k in 0..probes.len()
        invariant
            probes@.len() < usize::MAX,
            answers == probe_views(probes@),
            forall|j: int| 0 <= j < k ==> is_taken(mode, #[trigger] answers[j], views(written@)),
    {
        assert(answers[k as int] == option_view(probes@[k as int]));
        if !name_is_taken(mode, &probes[k], written) {
            assert(is_first_free(mode, answers, views(written@), k as int));
            return Placement::Use(candidate_name(file_name, k));
        }
    }
    Placement::Probe(candidate_name(file_name, probes.len()))
}

proof fn lemma_decimal_length(n: nat)
    ensures
        decimal(n).len() > 0,
        n >= 10 ==> decimal(n).len() > 1,
    decreases n,
{
    if n >= 10 {
        lemma_decimal_length(n / 10);
    }
}

/// Different numbers are written differently.
proof fn lemma_decimal_injective(m: nat, n: nat)
    requires
        decimal(m) == decimal(n),
    ensures
        m == n,
    decreases m,
{
    lemma_decimal_length(m);
    lemma_decimal_length(n);
    if m < 10 {
        assert(decimal(m)[0] == digit(m));
        assert(decimal(n)[0] == digit(n));
    } else {
        assert(decimal(m).last() == digit(m % 10));
        assert(decimal(n).last() == digit(n % 10));
        assert(decimal(m).drop_last() == decimal(m / 10));
        assert(decimal(n).drop_last() == decimal(n / 10));
        lemma_decimal_injective(m / 10, n / 10);
    }
}

/// No name is tried twice.
pub proof fn law_candidates_differ(name: Seq<char>, j: nat, k: nat)
    requires
        file_name(name) == Some(name),
        j != k,
    ensures
        candidate(name, j) != candidate(name, k),
{
    reveal_strlit(" (");
    reveal_strlit(")");
    let prefix = stem(name).len() as int + 2;
    let suffix = extension(name).len() as int + 1;
    assert(stem(name).len() + extension(name).len() == name.len());
    if candidate(name, j) == candidate(name, k) {
        if j == 0 || k == 0 {
            lemma_decimal_length(j + 1);
            lemma_decimal_length(k + 1);
            assert(candidate(name, j).len() != candidate(name, k).len());
        } else {
            let a = candidate(name, j);
            let b = candidate(name, k);
            assert(a.subrange(prefix, a.len() - suffix) == decimal(j + 1));
            assert(b.subrange(prefix, b.len() - suffix) == decimal(k + 1));
            lemma_decimal_injective(j + 1, k + 1);
        }
    }
}

/// The first `n` names that are tried.
spec fn first_candidates(name: Seq<char>, n: nat) -> Set<Seq<char>>
    decreases n,
{
    if n == 0 {
        Set::empty()
    } else {
        first_candidates(name, (n - 1) as nat).insert(candidate(name, (n - 1) as nat))
    }
}

proof fn lemma_first_candidates(name: Seq<char>, n: nat)
    requires
        file_name(name) == Some(name),
    ensures
        first_candidates(name, n).finite(),
        first_candidates(name, n).len() == n,
        forall|c: Seq<char>|
            first_candidates(name, n).contains(c) ==> exists|k: nat| k < n && c == #[trigger] candidate(name, k),
    decreases n,
{
    if n > 0 {
        let before = first_candidates(name, (n - 1) as nat);
        let last = candidate(name, (n - 1) as nat);
        lemma_first_candidates(name, (n - 1) as nat);
        if before.contains(last) {
            let k = choose|k: nat| k < n - 1 && last == #[trigger] candidate(name, k);
            law_candidates_differ(name, k, (n - 1) as nat);
        }
    }
}

/// The search for a name ends: where `names` are in use, one of the first
/// `names.len() + 1` names tried is not.
pub proof fn law_search_ends(name: Seq<char>, names: Set<Seq<char>>)
    requires
        file_name(name) == Some(name),
        names.finite(),
    ensures
        exists|k: nat| k <= names.len() && !names.contains(#[trigger] candidate(name, k)),
{
    let n = names.len() + 1;
    lemma_first_candidates(name, n);
    if forall|k: nat| k <= names.len() ==> names.contains(#[trigger] candidate(name, k)) {
        assert(first_candidates(name, n).subset_of(names));
        vstd::set_lib::lemma_len_subset(first_candidates(name, n), names);
    }
}

/// In copy mode a file that already exists is never overwritten: the name that
/// is used is one that no file has.
pub proof fn law_copy_never_overwrites(
    name: Seq<char>,
    probes: Seq<Option<Seq<char>>>,
    written: Seq<Seq<char>>,
    used: Seq<char>,
)
    requires
        placed(Mode::Copy, name, probes, written) == PlacementView::Use(used),
    ensures
        exists|k: int| 0 <= k < probes.len() && used == #[trigger] candidate(name, k as nat) && probes[k] is None,
{
    let k = choose|k: int| is_first_free(Mode::Copy, probes, written, k);
    assert(is_first_free(Mode::Copy, probes, written, k));
    assert(used == candidate(name, k as nat));
}

/// In no mode does an export overwrite what it wrote itself: if a file has the
/// name that is used, it is none that this export wrote.
pub proof fn law_nothing_is_written_twice(
    mode: Mode,
    name: Seq<char>,
    probes: Seq<Option<Seq<char>>>,
    written: Seq<Seq<char>>,
    used: Seq<char>,
)
    requires
        placed(mode, name, probes, written) == PlacementView::Use(used),
    ensures
        exists|k: int|
            0 <= k < probes.len() && used == #[trigger] candidate(name, k as nat) && (probes[k] is Some
                ==> !written.contains(probes[k]->0)),
{
    let k = choose|k: int| is_first_free(mode, probes, written, k);
    assert(is_first_free(mode, probes, written, k));
    assert(used == candidate(name, k as nat));
}

/// In the modes that overwrite, a note or attachment keeps its name, and
/// replaces the file that has it, unless this export wrote that file.
pub proof fn law_existing_files_are_overwritten_in_place(
    mode: Mode,
    name: Seq<char>,
    probes: Seq<Option<Seq<char>>>,
    written: Seq<Seq<char>>,
)
    requires
        mode != Mode::Copy,
        probes.len() > 0,
        probes[0] is Some ==> !written.contains(probes[0]->0),
    ensures
        placed(mode, name, probes, written) == PlacementView::Use(name),
{
    assert(is_first_free(mode, probes, written, 0));
    let k = choose|k: int| is_first_free(mode, probes, written, k);
    assert(is_first_free(mode, probes, written, k));
    assert(k > 0 ==> is_taken(mode, probes[0], written));
}

proof fn lemma_all_taken(
    mode: Mode,
    probes: Seq<Option<Seq<char>>>,
    written: Seq<Seq<char>>,
    n: int,
)
    requires
        forall|k: int| !is_first_free(mode, probes, written, k),
        0 <= n <= probes.len(),
    ensures
        forall|j: int| 0 <= j < n ==> is_taken(mode, #[trigger] probes[j], written),
    decreases n,
{
    if n > 0 {
        lemma_all_taken(mode, probes, written, n - 1);
        assert(!is_first_free(mode, probes, written, n - 1));
    }
}

/// One more answer in a search for a name: the name that was asked about is
/// used if it is free, and else the next one is tried.
pub proof fn lemma_one_more_probe(
    mode: Mode,
    name: Seq<char>,
    probes: Seq<Option<Seq<char>>>,
    written: Seq<Seq<char>>,
    existing: Option<Seq<char>>,
)
    requires
        placed(mode, name, probes, written) is Probe,
    ensures
        placed(mode, name, probes, written) == PlacementView::Probe(candidate(name, probes.len())),
        is_taken(mode, existing, written) ==> placed(mode, name, probes.push(existing), written)
            == PlacementView::Probe(candidate(name, probes.len() + 1)),
        !is_taken(mode, existing, written) ==> placed(mode, name, probes.push(existing), written)
            == PlacementView::Use(candidate(name, probes.len())),
{
    let all = probes.push(existing);
    let n = probes.len() as int;
    assert forall|k: int| !is_first_free(mode, probes, written, k) by {}
    lemma_all_taken(mode, probes, written, n);
    assert(forall|j: int| 0 <= j < n ==> all[j] == #[trigger] probes[j]);
    assert forall|j: int| 0 <= j < n implies is_taken(mode, #[trigger] all[j], written) by {
        assert(is_taken(mode, probes[j], written));
    }
    if !is_taken(mode, existing, written) {
        assert(is_first_free(mode, all, written, n));
        let k = choose|k: int| is_first_free(mode, all, written, k);
        assert(is_first_free(mode, all, written, k));
        assert(k < n ==> is_taken(mode, all[k], written));
        assert(k > n ==> is_taken(mode, all[n], written));
    } else {
        assert forall|k: int| !is_first_free(mode, all, written, k) by {
            assert(0 <= k < n ==> is_taken(mode, all[k], written));
        }
    }
}

/// A file found in the output directory.
pub struct ListedFile {
    /// The directories that lead to it from the output directory, and its name.
    pub path: Vec<String>,
    /// What identifies the file on disk.
    pub identity: String,
}

/// What a [`ListedFile`] holds.
pub struct ListedFileView {
    pub path: Seq<Seq<char>>,
    pub identity: Seq<char>,
}

impl View for ListedFile {
    type V = ListedFileView;

    open spec fn view(&self) -> ListedFileView {
        ListedFileView { path: views(self.path@), identity: self.identity@ }
    }
}

/// Whether a name begins with a full stop, which no name made by the export does.
pub open spec fn is_hidden(name: Seq<char>) -> bool {
    name.len() > 0 && name[0] == '.'
}

/// Whether the directories of a path are such as the export makes.
pub open spec fn has_visible_directories(path: Seq<Seq<char>>) -> bool {
    forall|i: int| 0 <= i < path.len() - 1 ==> !is_hidden(#[trigger] path[i])
}

/// Whether a path in the output directory is that of a note: a Markdown file
/// that is not hidden.
pub open spec fn is_note_path(path: Seq<Seq<char>>) -> bool {
    &&& path.len() > 0
    &&& has_visible_directories(path)
    &&& !is_hidden(path.last())
    &&& extension(path.last()) == ".md"@
}

/// Whether a path in the output directory is that of an attachment: a file in
/// `assets/<note name>/`.
pub open spec fn is_attachment_path(path: Seq<Seq<char>>) -> bool {
    &&& path.len() >= 3
    &&& has_visible_directories(path)
    &&& path[path.len() - 3] == "assets"@
}

/// Whether a file is deleted at the end of an export: in mirror mode, a note
/// or attachment that the export did not write.
pub open spec fn is_stale(mode: Mode, file: ListedFileView, written: Seq<Seq<char>>) -> bool {
    &&& mode == Mode::Mirror
    &&& is_note_path(file.path) || is_attachment_path(file.path)
    &&& !written.contains(file.identity)
}

fn name_is_hidden(name: &String) -> (res: bool)
    ensures
        res == is_hidden(name@),
{
    let chars = chars_of(name.as_str());
    chars.len() > 0 && chars[0] == '.'
}

fn directories_are_visible(path: &Vec<String>) -> (res: bool)
    ensures
        res == has_visible_directories(views(path@)),
{
    let count: usize = path.len();
    let mut i: usize = 0;
    while i < count && i < count - 1
        invariant
            count == path@.len(),
            i <= count,
            forall|j: int| 0 <= j < i ==> !is_hidden(#[trigger] views(path@)[j]),
        decreases count - i,
    {
        assert(views(path@)[i as int] == path@[i as int]@);
        if name_is_hidden(&path[i]) {
            return false;
        }
        i = i + 1;
    }
    true
}

/// Whether a file is deleted at the end of an export.
pub fn file_is_stale(mode: Mode, file: &ListedFile, written: &Vec<String>) -> (res: bool)
    ensures
        res == is_stale(mode, file@, views(written@)),
{
    let count: usize = file.path.len();
    if mode != Mode::Mirror || count == 0 || !directories_are_visible(&file.path) {
        return false;
    }
    let name = &file.path[count - 1];
    assert(views(file.path@).last() == name@);
    let (_, extension) = stem_and_extension(name.as_str());
    let is_note = !name_is_hidden(name) && same(extension.as_str(), ".md");
    let is_attachment = count >= 3 && same(file.path[count - 3].as_str(), "assets");
    (is_note || is_attachment) && !holds(written, &file.identity)
}

/// The files that are to be deleted at the end of an export, as positions in
/// the list of all files in the output directory.
pub fn stale_files(mode: Mode, listing: &Vec<ListedFile>, written: &Vec<String>) -> (res: Vec<usize>)
    ensures
        forall|i: int|
            0 <= i < listing@.len() ==> (res@.contains(i as usize) <==> is_stale(
                mode,
                (#[trigger] listing@[i])@,
                views(written@),
            )),
        forall|k: int| 0 <= k < res@.len() ==> #[trigger] res@[k] < listing@.len(),
        forall|j: int, k: int| 0 <= j < k < res@.len() ==> #[trigger] res@[j] < #[trigger] res@[k],
{
    let mut stale: Vec<usize> = Vec::new();
    for i in 0..listing.len()
        invariant
            forall|j: int|
                0 <= j < i ==> (stale@.contains(j as usize) <==> is_stale(
                    mode,
                    (#[trigger] listing@[j])@,
                    views(written@),
                )),
            forall|k: int| 0 <= k < stale@.len() ==> #[trigger] stale@[k] < i,
            forall|j: int, k: int| 0 <= j < k < stale@.len() ==> #[trigger] stale@[j] < #[trigger] stale@[k],
    {
        let ghost before = stale@;
        if file_is_stale(mode, &listing[i], written) {
            stale.push(i);
            assert(stale@[before.len() as int] == i);
            assert forall|j: usize| j < i implies (stale@.contains(j) <==> #[trigger] before.contains(j)) by {
                if before.contains(j) {
                    let k = choose|k: int| 0 <= k < before.len() && before[k] == j;
                    assert(stale@[k] == j);
                }
            }
            assert forall|j: int| 0 <= j < i implies (stale@.contains(j as usize) <==> is_stale(
                mode,
                (#[trigger] listing@[j])@,
                views(written@),
            )) by {
                assert(stale@.contains(j as usize) <==> before.contains(j as usize));
            }
        }
    }
    stale
}

/// The files that are left when the stale ones have been deleted.
pub open spec fn remaining(
    mode: Mode,
    listing: Seq<ListedFileView>,
    written: Seq<Seq<char>>,
) -> Set<Seq<char>> {
    Set::new(
        |identity: Seq<char>|
            exists|i: int|
                0 <= i < listing.len() && (#[trigger] listing[i]).identity == identity && !is_stale(
                    mode,
                    listing[i],
                    written,
                ),
    )
}

/// The notes and attachments among the files that are left.
pub open spec fn remaining_exports(
    mode: Mode,
    listing: Seq<ListedFileView>,
    written: Seq<Seq<char>>,
) -> Set<Seq<char>> {
    Set::new(
        |identity: Seq<char>|
            exists|i: int|
                0 <= i < listing.len() && (#[trigger] listing[i]).identity == identity && (is_note_path(
                    listing[i].path,
                ) || is_attachment_path(listing[i].path)) && !is_stale(mode, listing[i], written),
    )
}

/// Whether a file with this identity is listed as a note or an attachment.
pub open spec fn is_listed_export(listing: Seq<ListedFileView>, identity: Seq<char>) -> bool {
    exists|i: int|
        0 <= i < listing.len() && (#[trigger] listing[i]).identity == identity && (is_note_path(
            listing[i].path,
        ) || is_attachment_path(listing[i].path))
}

/// Mirroring makes the output an exact replica of the export: the notes and
/// attachments that are left are those that the export wrote, all of them and
/// no others.
pub proof fn law_mirror_is_replica(listing: Seq<ListedFileView>, written: Seq<Seq<char>>)
    requires
        forall|w: int| 0 <= w < written.len() ==> is_listed_export(listing, #[trigger] written[w]),
    ensures
        remaining_exports(Mode::Mirror, listing, written) == written.to_set(),
{
    let left = remaining_exports(Mode::Mirror, listing, written);
    assert forall|identity: Seq<char>| left.contains(identity) <==> written.to_set().contains(identity) by {
        if written.contains(identity) {
            let w = choose|w: int| 0 <= w < written.len() && written[w] == identity;
            assert(is_listed_export(listing, written[w]));
            let i = choose|i: int|
                0 <= i < listing.len() && (#[trigger] listing[i]).identity == written[w] && (is_note_path(
                    listing[i].path,
                ) || is_attachment_path(listing[i].path));
            assert(!is_stale(Mode::Mirror, listing[i], written));
        }
    }
}

/// Everything else is left alone: only mirroring deletes files, and of those
/// neither what the export wrote nor what is no note or attachment.
pub proof fn law_other_files_are_left_alone(
    mode: Mode,
    listing: Seq<ListedFileView>,
    written: Seq<Seq<char>>,
    i: int,
)
    requires
        0 <= i < listing.len(),
        mode != Mode::Mirror || written.contains(listing[i].identity) || !(is_note_path(listing[i].path)
            || is_attachment_path(listing[i].path)),
    ensures
        remaining(mode, listing, written).contains(listing[i].identity),
{
    assert(!is_stale(mode, listing[i], written));
}

/// The names that are tried for a file: its own first, and then, with the number
/// of the attempt in decimal behind the stem, ` (2)`, ` (3)` and so on. The
/// extension stays at the end.
pub proof fn law_numbered_names(base: Seq<char>, suffix: Seq<char>, attempt: nat)
    requires
        base.len() > 0,
        !base.contains('/'),
        !suffix.contains('/'),
        !suffix.contains('.'),
        base != seq!['.'],
        attempt > 0,
    ensures
        candidate(base, 0) == base,
        candidate(base + seq!['.'] + suffix, 0) == base + seq!['.'] + suffix,
        candidate(base + seq!['.'] + suffix, attempt) == base + seq![' ', '('] + decimal(attempt + 1) + seq![
            ')',
            '.',
        ] + suffix,
        !base.skip(1).contains('.') ==> candidate(base, attempt) == base + seq![' ', '('] + decimal(attempt + 1)
            + seq![')'],
{
    reveal_strlit(" (");
    reveal_strlit(")");
    assert(" ("@ =~= seq![' ', '(']);
    assert(")"@ =~= seq![')']);
    law_stem_and_extension(base, suffix);
    assert(base + seq![' ', '('] + decimal(attempt + 1) + seq![')', '.'] + suffix =~= base + seq![' ', '(']
        + decimal(attempt + 1) + seq![')'] + (seq!['.'] + suffix));
    if !base.skip(1).contains('.') {
        assert(candidate(base, attempt) =~= base + seq![' ', '('] + decimal(attempt + 1) + seq![')']);
    }
}

/// The first free name is used. A name is free if no file has it, or if files may
/// be overwritten and the one that has it was not written by this export. While
/// every name tried so far is taken, the next one is asked about.
pub proof fn law_first_free_name_is_used(
    mode: Mode,
    name: Seq<char>,
    probes: Seq<Option<Seq<char>>>,
    written: Seq<Seq<char>>,
    k: nat,
)
    requires
        k <= probes.len(),
        forall|j: int|
            0 <= j < k ==> #[trigger] probes[j] is Some && (mode == Mode::Copy || written.contains(
                probes[j]->0,
            )),
    ensures
        k == probes.len() ==> placed(mode, name, probes, written) == PlacementView::Probe(
            candidate(name, k),
        ),
        k < probes.len() && (probes[k as int] is None || (mode != Mode::Copy && !written.contains(
            probes[k as int]->0,
        ))) ==> placed(mode, name, probes, written) == PlacementView::Use(candidate(name, k)),
{
    assert forall|j: int| 0 <= j < k implies is_taken(mode, #[trigger] probes[j], written) by {}
    if k == probes.len() {
        assert forall|j: int| !is_first_free(mode, probes, written, j) by {
            assert(0 <= j < k ==> is_taken(mode, probes[j], written));
        }
    } else if probes[k as int] is None || (mode != Mode::Copy && !written.contains(probes[k as int]->0)) {
        assert(is_first_free(mode, probes, written, k as int));
        let other = choose|other: int| is_first_free(mode, probes, written, other);
        assert(is_first_free(mode, probes, written, other));
        assert(other < k ==> is_taken(mode, probes[other], written));
        assert(other > k ==> is_taken(mode, probes[k as int], written));
    }
}

/// What is deleted: only by mirroring, only what the export did not write, and
/// only a file that no hidden directory leads to and that is a Markdown file that
/// is not hidden, or lies in a directory of a directory `assets`.
pub proof fn law_what_mirroring_deletes(mode: Mode, file: ListedFileView, written: Seq<Seq<char>>)
    requires
        file.path.len() > 0,
        !file.path.last().contains('/'),
    ensures
        is_stale(mode, file, written) <==> {
            let name = file.path.last();
            &&& mode == Mode::Mirror
            &&& !written.contains(file.identity)
            &&& forall|i: int|
                0 <= i < file.path.len() - 1 && (#[trigger] file.path[i]).len() > 0 ==> file.path[i][0] != '.'
            &&& (name.len() > 3 && name[0] != '.' && name.skip(name.len() - 3) == seq!['.', 'm', 'd']) || (
            file.path.len() >= 3 && file.path[file.path.len() - 3] == seq!['a', 's', 's', 'e', 't', 's'])
        },
{
    reveal_strlit(".md");
    reveal_strlit("assets");
    assert(".md"@ =~= seq!['.', 'm', 'd']);
    assert("assets"@ =~= seq!['a', 's', 's', 'e', 't', 's']);
    let name = file.path.last();
    let visible = forall|i: int|
        0 <= i < file.path.len() - 1 && (#[trigger] file.path[i]).len() > 0 ==> file.path[i][0] != '.';
    assert(has_visible_directories(file.path) == visible);
    if name.len() > 3 && name.skip(name.len() - 3) == ".md"@ {
        let base = name.take(name.len() - 3);
        let suffix = seq!['m', 'd'];
        assert forall|i: int| 0 <= i < base.len() implies #[trigger] base[i] != '/' by {
            assert(name.contains(name[i]));
        }
        assert(name =~= base + name.skip(name.len() - 3));
        assert(name =~= base + seq!['.'] + suffix);
        law_stem_and_extension(base, suffix);
        assert(extension(name) =~= ".md"@);
    }
    if extension(name) == ".md"@ {
        let own = name_or_empty(name);
        let at = extension_start(own);
        if !(exists|i: int| is_last_dot(own, i)) {
            assert(own.skip(at).len() == 0);
        }
        assert(is_last_dot(own, at));
        assert(own.skip(at).len() == own.len() - at);
        assert(!seq![name][0].contains('/'));
        law_path_of_parts(seq![name]);
        if name.len() == 0 || name == seq!['.'] || name == seq!['.', '.'] {
            lemma_no_name(name);
        }
        assert(own == name);
        assert(name.skip(at) =~= name.skip(name.len() - 3));
    }
}

proof fn lemma_no_name(name: Seq<char>)
    requires
        name.len() == 0 || name == seq!['.'] || name == seq!['.', '.'],
    ensures
        name_or_empty(name).len() == 0,
{
    reveal_strlit("..");
    reveal(Seq::filter);
    assert(".."@ =~= seq!['.', '.']);
    assert forall|i: int| 0 <= i < name.len() implies #[trigger] name[i] != '/' by {}
    assert(!seq![name][0].contains('/'));
    law_path_of_parts(seq![name]);
    let named = |part: Seq<char>| part != Seq::<char>::empty() && part != seq!['.'];
    assert(join(seq![name], "/"@) == name);
    assert(seq![name].drop_last() == Seq::<Seq<char>>::empty());
    assert(Seq::<Seq<char>>::empty().filter(named) == Seq::<Seq<char>>::empty());
    assert(name.len() == 0 ==> name == Seq::<char>::empty());
    if name == seq!['.', '.'] {
        assert(seq![name].filter(named) =~= seq![name]);
        assert(components(name).last() == ".."@);
    } else {
        assert(components(name).len() == 0);
    }
}

} // verus!
