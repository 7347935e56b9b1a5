//! Copying the attachments that a note references.
//!
//! An import alternates between work on disk, which the caller does, and
//! decisions, which are made here: the state of an [`Import`] says what has to
//! be done next, and [`AttachmentRewriter::resume`] takes the answer.
use crate::links::{
    encode_link, is_link_text, law_link_decodes_to_path, law_link_is_safe, link_to, percent_decode,
    percent_decoded, LinkEscapes,
};
use crate::paths::{
    components, descends_only, file_name, law_path_of_parts, path_components, path_descends_only,
    path_file_name,
};
use crate::patterns::lemma_ascii_byte_is_char;
use crate::placement::{
    candidate, is_first_free, is_taken, lemma_one_more_probe, placed, probe_views, unique_path, Mode,
    Placement, PlacementView,
};
use crate::rewriting::{outcome_view, Imported, ImportedView};
use crate::text::{chars_of, join, list_views, option_view, same, same_list, views};
use vstd::prelude::*;
use vstd::utf8::*;

verus! {

/// An attachment that has been copied.
pub struct CopiedFile {
    /// The names that lead to it: those of the attachment directory that it
    /// came from, and then those of its path in that directory.
    pub file: Vec<String>,
    /// The link to the copy.
    pub link: String,
}

/// What a [`CopiedFile`] holds.
pub struct CopiedFileView {
    pub file: Seq<Seq<char>>,
    pub link: Seq<char>,
}

impl View for CopiedFile {
    type V = CopiedFileView;

    open spec fn view(&self) -> CopiedFileView {
        CopiedFileView { file: views(self.file@), link: self.link@ }
    }
}

/// Imports the attachments of one note.
pub struct AttachmentRewriter {
    mode: Mode,
    /// The directories that attachments may come from.
    source_dirs: Vec<Vec<String>>,
    /// The directory of the copies as seen from the note file, used in links.
    assets_prefix: Vec<String>,
    /// The files copied so far, so a file referenced twice is copied once.
    copied: Vec<CopiedFile>,
    escapes: LinkEscapes,
}

/// What an [`AttachmentRewriter`] holds.
pub struct AttachmentRewriterView {
    pub mode: Mode,
    pub source_dirs: Seq<Seq<Seq<char>>>,
    pub assets_prefix: Seq<Seq<char>>,
    pub copied: Seq<CopiedFileView>,
}

/// How far the import of an attachment has come, and so what is to be done next.
pub enum Import {
    /// Find out whether attachment directory number `source` has a file at `path`.
    FindSource { source: usize, path: String },
    /// Make sure that the directory for the note's attachments exists.
    CreateDirectory { source: usize, path: String },
    /// Find out whether a file called `name` is in that directory.
    ProbeName { source: usize, path: String, probes: Vec<Option<String>>, name: String },
    /// Copy the file at `path` to `name` in that directory.
    CopyFile { source: usize, path: String, name: String },
    /// Nothing: this is what became of the reference, and `found` says whether
    /// an attachment directory has the file.
    Done { outcome: Option<Imported>, found: bool },
}

/// What an [`Import`] holds.
pub enum ImportView {
    FindSource { source: int, path: Seq<char> },
    CreateDirectory { source: int, path: Seq<char> },
    ProbeName { source: int, path: Seq<char>, probes: Seq<Option<Seq<char>>>, name: Seq<char> },
    CopyFile { source: int, path: Seq<char>, name: Seq<char> },
    Done { outcome: Option<ImportedView>, found: bool },
}

impl View for Import {
    type V = ImportView;

    open spec fn view(&self) -> ImportView {
        match *self {
            Import::FindSource { source, path } => ImportView::FindSource {
                source: source as int,
                path: path@,
            },
            Import::CreateDirectory { source, path } => ImportView::CreateDirectory {
                source: source as int,
                path: path@,
            },
            Import::ProbeName { source, path, probes, name } => ImportView::ProbeName {
                source: source as int,
                path: path@,
                probes: probe_views(probes@),
                name: name@,
            },
            Import::CopyFile { source, path, name } => ImportView::CopyFile {
                source: source as int,
                path: path@,
                name: name@,
            },
            Import::Done { outcome, found } => ImportView::Done {
                outcome: outcome_view(outcome),
                found,
            },
        }
    }
}

/// The answer to what an [`Import`] asks for.
pub enum ImportEvent {
    /// Whether the attachment directory has the file.
    Source(bool),
    /// Whether the directory exists now.
    Directory(bool),
    /// The identity of the file that has the name, if one does.
    Probed(Option<String>),
    /// The identity of the copy, unless copying failed.
    Copied(Option<String>),
}

/// What an [`ImportEvent`] holds.
pub enum ImportEventView {
    Source(bool),
    Directory(bool),
    Probed(Option<Seq<char>>),
    Copied(Option<Seq<char>>),
}

impl View for ImportEvent {
    type V = ImportEventView;

    open spec fn view(&self) -> ImportEventView {
        match *self {
            ImportEvent::Source(has_file) => ImportEventView::Source(has_file),
            ImportEvent::Directory(exists) => ImportEventView::Directory(exists),
            ImportEvent::Probed(existing) => ImportEventView::Probed(option_view(existing)),
            ImportEvent::Copied(identity) => ImportEventView::Copied(option_view(identity)),
        }
    }
}

/// The path inside Bear's attachment store that a reference leads to: its
/// target percent-decoded, if that is text, and a path that names a file and
/// descends only.
pub open spec fn attachment_path(target: Seq<char>) -> Option<Seq<char>> {
    let bytes = percent_decoded(encode_utf8(target));
    let path = decode_utf8(bytes);
    if valid_utf8(bytes) && descends_only(path) && components(path).len() > 0 {
        Some(path)
    } else {
        None
    }
}

/// The search for a file, from attachment directory number `source` on.
pub open spec fn searched_from(rewriter: AttachmentRewriterView, source: int, path: Seq<char>) -> ImportView {
    if source < rewriter.source_dirs.len() {
        ImportView::FindSource { source, path }
    } else {
        ImportView::Done { outcome: None, found: false }
    }
}

/// The start of the import of a reference.
pub open spec fn import_started(rewriter: AttachmentRewriterView, target: Seq<char>) -> ImportView {
    match attachment_path(target) {
        Some(path) => searched_from(rewriter, 0, path),
        None => ImportView::Done { outcome: None, found: false },
    }
}

/// The file at a path in attachment directory number `source`: the names that
/// lead to the directory, and then those of the path. Where one attachment
/// directory lies inside another, two paths may so lead to one file.
pub open spec fn file_at(rewriter: AttachmentRewriterView, source: int, path: Seq<char>) -> Seq<Seq<char>> {
    if 0 <= source < rewriter.source_dirs.len() {
        rewriter.source_dirs[source] + components(path)
    } else {
        components(path)
    }
}

/// The link to the copy of a file, if it has been copied.
pub open spec fn copied_link(copied: Seq<CopiedFileView>, file: Seq<Seq<char>>) -> Option<Seq<char>>
    decreases copied.len(),
{
    if copied.len() == 0 {
        None
    } else if copied_link(copied.drop_last(), file) is Some {
        copied_link(copied.drop_last(), file)
    } else if copied.last().file == file {
        Some(copied.last().link)
    } else {
        None
    }
}

/// The import once the attachment directory that has the file is known.
pub open spec fn source_found(
    rewriter: AttachmentRewriterView,
    source: int,
    path: Seq<char>,
) -> ImportView {
    match (file_name(path), copied_link(rewriter.copied, file_at(rewriter, source, path))) {
        (None, _) => ImportView::Done { outcome: None, found: true },
        (Some(name), Some(link)) => ImportView::Done {
            outcome: Some(ImportedView { link, name }),
            found: true,
        },
        (Some(name), None) => ImportView::CreateDirectory { source, path },
    }
}

/// The import once it is known which of the names tried so far are in use.
pub open spec fn names_probed(
    rewriter: AttachmentRewriterView,
    written: Seq<Seq<char>>,
    source: int,
    path: Seq<char>,
    probes: Seq<Option<Seq<char>>>,
) -> ImportView {
    match file_name(path) {
        None => ImportView::Done { outcome: None, found: true },
        Some(own_name) => match placed(rewriter.mode, own_name, probes, written) {
            PlacementView::Use(name) => ImportView::CopyFile { source, path, name },
            PlacementView::Probe(name) => ImportView::ProbeName { source, path, probes, name },
        },
    }
}

/// The import once the file has been copied to `name`.
pub open spec fn file_copied(
    rewriter: AttachmentRewriterView,
    path: Seq<char>,
    name: Seq<char>,
) -> ImportView {
    match file_name(path) {
        None => ImportView::Done { outcome: None, found: true },
        Some(own_name) => ImportView::Done {
            outcome: Some(
                ImportedView { link: link_to(rewriter.assets_prefix.push(name)), name: own_name },
            ),
            found: true,
        },
    }
}

/// The import after an event. An event that answers something else than what
/// was asked for changes nothing.
pub open spec fn import_resumed(
    rewriter: AttachmentRewriterView,
    written: Seq<Seq<char>>,
    import: ImportView,
    event: ImportEventView,
) -> ImportView {
    match (import, event) {
        (ImportView::FindSource { source, path }, ImportEventView::Source(true)) => source_found(
            rewriter,
            source,
            path,
        ),
        (ImportView::FindSource { source, path }, ImportEventView::Source(false)) => searched_from(
            rewriter,
            source + 1,
            path,
        ),
        (ImportView::CreateDirectory { source, path }, ImportEventView::Directory(true)) => names_probed(
            rewriter,
            written,
            source,
            path,
            Seq::empty(),
        ),
        (
            ImportView::CreateDirectory { source, path },
            ImportEventView::Directory(false),
        ) => ImportView::Done { outcome: None, found: true },
        (
            ImportView::ProbeName { source, path, probes, name },
            ImportEventView::Probed(existing),
        ) => names_probed(rewriter, written, source, path, probes.push(existing)),
        (
            ImportView::CopyFile { source, path, name },
            ImportEventView::Copied(Some(identity)),
        ) => file_copied(rewriter, path, name),
        (
            ImportView::CopyFile { source, path, name },
            ImportEventView::Copied(None),
        ) => ImportView::Done { outcome: None, found: true },
        _ => import,
    }
}

/// The files copied so far, after an event.
pub open spec fn copied_after(
    rewriter: AttachmentRewriterView,
    import: ImportView,
    event: ImportEventView,
) -> Seq<CopiedFileView> {
    match (import, event) {
        (
            ImportView::CopyFile { source, path, name },
            ImportEventView::Copied(Some(identity)),
        ) => rewriter.copied.push(
            CopiedFileView {
                file: file_at(rewriter, source, path),
                link: link_to(rewriter.assets_prefix.push(name)),
            },
        ),
        _ => rewriter.copied,
    }
}

/// The identities of the files that the export wrote, after an event.
pub open spec fn written_after(
    written: Seq<Seq<char>>,
    import: ImportView,
    event: ImportEventView,
) -> Seq<Seq<char>> {
    match (import, event) {
        (
            ImportView::CopyFile { source, path, name },
            ImportEventView::Copied(Some(identity)),
        ) => written.push(identity),
        _ => written,
    }
}

/// The path inside Bear's attachment store that a reference leads to.
fn path_of_target(target: &str) -> (res: Option<String>)
    ensures
        option_view(res) == attachment_path(target@),
{
    let path = match percent_decode(target) {
        Some(path) => path,
        None => {
            return None;
        },
    };
    proof {
        encode_utf8_decode_utf8(path@);
        encode_utf8_valid_utf8(path@);
    }
    if !path_descends_only(path.as_str()) {
        return None;
    }
    let parts = path_components(path.as_str());
    assert(views(parts@).len() == parts@.len());
    if parts.len() == 0 {
        None
    } else {
        Some(path)
    }
}

/// Whether a target has a scheme, as URLs do: a colon before the first slash.
pub open spec fn has_scheme(target: Seq<char>) -> bool {
    exists|i: int|
        0 <= i < target.len() && #[trigger] target[i] == ':' && forall|j: int|
            0 <= j < i ==> #[trigger] target[j] != '/'
}

/// Whether a target leads elsewhere than to a file next to the note: it is a
/// URL, the address of a web site, or a place in the note itself.
pub open spec fn leads_elsewhere(target: Seq<char>) -> bool {
    ||| has_scheme(target)
    ||| "www."@.is_prefix_of(target)
    ||| "#"@.is_prefix_of(target)
    ||| "?"@.is_prefix_of(target)
}

/// Whether a Markdown link whose file no attachment directory has refers to an
/// attachment: its target is a path inside Bear's attachment store, does not
/// lead elsewhere, and is not the link to a copy, which the first pass over the
/// text may have written.
pub open spec fn is_missing_link(rewriter: AttachmentRewriterView, target: Seq<char>) -> bool {
    &&& attachment_path(target) is Some
    &&& !leads_elsewhere(target)
    &&& forall|k: int| 0 <= k < rewriter.copied.len() ==> (#[trigger] rewriter.copied[k]).link != target
}

fn target_has_scheme(target: &str) -> (res: bool)
    ensures
        res == has_scheme(target@),
{
    let chars = chars_of(target);
    for i in 0..chars.len()
        invariant
            chars@ == target@,
            forall|j: int| 0 <= j < i ==> #[trigger] target@[j] != '/' && target@[j] != ':',
    {
        if chars[i] == ':' {
            assert(target@[i as int] == ':');
            return true;
        }
        if chars[i] == '/' {
            assert(target@[i as int] == '/');
            return false;
        }
    }
    false
}

fn target_leads_elsewhere(target: &str) -> (res: bool)
    ensures
        res == leads_elsewhere(target@),
{
    let chars = chars_of(target);
    proof {
        reveal_strlit("www.");
        reveal_strlit("#");
        reveal_strlit("?");
    }
    if chars.len() > 0 && (chars[0] == '#' || chars[0] == '?') {
        assert("#"@.is_prefix_of(target@) || "?"@.is_prefix_of(target@));
        return true;
    }
    if chars.len() > 3 && chars[0] == 'w' && chars[1] == 'w' && chars[2] == 'w' && chars[3] == '.' {
        assert("www."@.is_prefix_of(target@));
        return true;
    }
    proof {
        if "www."@.is_prefix_of(target@) {
            assert forall|i: int| 0 <= i < 4 implies #[trigger] target@[i] == "www."@[i] by {
                assert(target@[i] == target@.subrange(0, 4)[i]);
            }
        }
        assert(target@.len() > 0 ==> target@[0] == target@.subrange(0, 1)[0]);
    }
    target_has_scheme(target)
}

impl AttachmentRewriter {
    /// What the rewriter holds.
    pub closed spec fn view(&self) -> AttachmentRewriterView {
        AttachmentRewriterView {
            mode: self.mode,
            source_dirs: list_views(self.source_dirs@),
            assets_prefix: views(self.assets_prefix@),
            copied: self.copied@.map_values(|file: CopiedFile| file@),
        }
    }

    /// For a note whose attachments come from `source_dirs`, searched in that
    /// order, and go to `assets_prefix`, as seen from the note.
    pub fn new(
        mode: Mode,
        source_dirs: Vec<Vec<String>>,
        assets_prefix: Vec<String>,
        escapes: LinkEscapes,
    ) -> (res: AttachmentRewriter)
        ensures
            res@ == (AttachmentRewriterView {
                mode,
                source_dirs: list_views(source_dirs@),
                assets_prefix: views(assets_prefix@),
                copied: Seq::empty(),
            }),
    {
        let copied: Vec<CopiedFile> = Vec::new();
        assert(copied@.map_values(|file: CopiedFile| file@) == Seq::<CopiedFileView>::empty());
        AttachmentRewriter { mode, source_dirs, assets_prefix, copied, escapes }
    }

    /// The number of attachments copied.
    pub fn attachments(&self) -> (res: usize)
        ensures
            res == self@.copied.len(),
    {
        self.copied.len()
    }

    /// Starts to import the attachment at `target`, a path relative to Bear's
    /// attachment store, possibly percent-encoded.
    pub fn import(&self, target: &str) -> (res: Import)
        ensures
            res@ == import_started(self@, target@),
    {
        match path_of_target(target) {
            Some(path) => self.search_from(0, path),
            None => Import::Done { outcome: None, found: false },
        }
    }

    fn search_from(&self, source: usize, path: String) -> (res: Import)
        ensures
            res@ == searched_from(self@, source as int, path@),
    {
        if source < self.source_dirs.len() {
            Import::FindSource { source, path }
        } else {
            Import::Done { outcome: None, found: false }
        }
    }

    /// Whether to warn that the attachment behind a Markdown link is missing, if
    /// no attachment directory has its file: its target is a path inside Bear's
    /// attachment store, does not lead elsewhere, and is not the link to a copy
    /// that has just been made.
    pub fn is_missing(&self, target: &str) -> (res: bool)
        ensures
            res == is_missing_link(self@, target@),
    {
        if path_of_target(target).is_none() || target_leads_elsewhere(target) {
            return false;
        }
        let ghost copied = self@.copied;
        for i in 0..self.copied.len()
            invariant
                copied == self@.copied,
                copied == self.copied@.map_values(|file: CopiedFile| file@),
                forall|k: int| 0 <= k < i ==> (#[trigger] copied[k]).link != target@,
        {
            assert(copied[i as int] == self.copied@[i as int]@);
            if same(self.copied[i].link.as_str(), target) {
                return false;
            }
        }
        true
    }

    fn file(&self, source: usize, path: &str) -> (res: Vec<String>)
        ensures
            views(res@) == file_at(self@, source as int, path@),
    {
        let mut parts = path_components(path);
        if source < self.source_dirs.len() {
            let mut names = self.source_dirs[source].clone();
            let ghost directory = views(self.source_dirs@[source as int]@);
            let ghost components = views(parts@);
            assert(views(names@) == directory);
            names.append(&mut parts);
            assert(views(names@) == directory + components);
            assert(self@.source_dirs[source as int] == directory);
            names
        } else {
            parts
        }
    }

    fn link_of(&self, file: &Vec<String>) -> (res: Option<String>)
        ensures
            option_view(res) == copied_link(self@.copied, views(file@)),
    {
        let ghost copied = self@.copied;
        for i in 0..self.copied.len()
            invariant
                copied == self.copied@.map_values(|file: CopiedFile| file@),
                copied_link(copied.take(i as int), views(file@)) is None,
        {
            assert(copied.take(i + 1).drop_last() == copied.take(i as int));
            assert(copied[i as int] == self.copied@[i as int]@);
            if same_list(&self.copied[i].file, file) {
                proof {
                    lemma_first_copy_counts(copied, i + 1, views(file@));
                }
                return Some(self.copied[i].link.clone());
            }
        }
        assert(copied.take(copied.len() as int) == copied);
        None
    }

    fn search_after(&self, source: usize, path: String) -> (res: Import)
        ensures
            res@ == searched_from(self@, source + 1, path@),
    {
        if source < self.source_dirs.len() {
            self.search_from(source + 1, path)
        } else {
            Import::Done { outcome: None, found: false }
        }
    }

    fn source_known(&self, source: usize, path: String) -> (res: Import)
        ensures
            res@ == source_found(self@, source as int, path@),
    {
        let name = match path_file_name(path.as_str()) {
            Some(name) => name,
            None => {
                return Import::Done { outcome: None, found: true };
            },
        };
        match self.link_of(&self.file(source, path.as_str())) {
            Some(link) => Import::Done { outcome: Some(Imported { link, name }), found: true },
            None => Import::CreateDirectory { source, path },
        }
    }

    fn names_known(
        &self,
        written: &Vec<String>,
        source: usize,
        path: String,
        probes: Vec<Option<String>>,
    ) -> (res: Import)
        requires
            probes@.len() < usize::MAX,
        ensures
            res@ == names_probed(self@, views(written@), source as int, path@, probe_views(probes@)),
    {
        match path_file_name(path.as_str()) {
            None => Import::Done { outcome: None, found: true },
            Some(own_name) => match unique_path(self.mode, own_name.as_str(), &probes, written) {
                Placement::Use(name) => Import::CopyFile { source, path, name },
                Placement::Probe(name) => Import::ProbeName { source, path, probes, name },
            },
        }
    }

    fn copy_made(&mut self, source: usize, path: String, name: String) -> (res: Import)
        ensures
            res@ == file_copied(old(self)@, path@, name@),
            final(self)@ == (AttachmentRewriterView {
                copied: old(self)@.copied.push(
                    CopiedFileView {
                        file: file_at(old(self)@, source as int, path@),
                        link: link_to(old(self)@.assets_prefix.push(name@)),
                    },
                ),
                ..old(self)@
            }),
    {
        let mut destination = self.assets_prefix.clone();
        let ghost prefix = views(self.assets_prefix@);
        assert(views(destination@) == prefix);
        destination.push(name);
        assert(views(destination@) == prefix.push(name@));
        let link = encode_link(&destination, &self.escapes);
        let file = CopiedFile { file: self.file(source, path.as_str()), link: link.clone() };
        let ghost copied = self@.copied;
        let ghost file_view = file@;
        self.copied.push(file);
        assert(self@.copied == copied.push(file_view));
        match path_file_name(path.as_str()) {
            None => Import::Done { outcome: None, found: true },
            Some(name) => Import::Done { outcome: Some(Imported { link, name }), found: true },
        }
    }

    /// Goes on with an import. `written` are the identities of the files that
    /// the export has written, to which that of a copy is added.
    pub fn resume(&mut self, import: Import, event: ImportEvent, written: &mut Vec<String>) -> (res: Import)
        requires
            import matches Import::ProbeName { probes, .. } ==> probes@.len() < usize::MAX - 1,
        ensures
            res@ == import_resumed(old(self)@, views(old(written)@), import@, event@),
            final(self)@ == (AttachmentRewriterView {
                copied: copied_after(old(self)@, import@, event@),
                ..old(self)@
            }),
            views(final(written)@) == written_after(views(old(written)@), import@, event@),
    {
        match (import, event) {
            (Import::FindSource { source, path }, ImportEvent::Source(has_file)) => {
                if has_file {
                    self.source_known(source, path)
                } else {
                    self.search_after(source, path)
                }
            },
            (Import::CreateDirectory { source, path }, ImportEvent::Directory(exists)) => {
                if exists {
                    let none: Vec<Option<String>> = Vec::new();
                    assert(probe_views(none@) == Seq::<Option<Seq<char>>>::empty());
                    self.names_known(written, source, path, none)
                } else {
                    Import::Done { outcome: None, found: true }
                }
            },
            (Import::ProbeName { source, path, mut probes, name }, ImportEvent::Probed(existing)) => {
                let ghost before = probe_views(probes@);
                probes.push(existing);
                assert(probe_views(probes@) == before.push(option_view(existing)));
                self.names_known(written, source, path, probes)
            },
            (Import::CopyFile { source, path, name }, ImportEvent::Copied(Some(identity))) => {
                let ghost before = views(written@);
                written.push(identity);
                assert(views(written@) == before.push(identity@));
                self.copy_made(source, path, name)
            },
            (Import::CopyFile { source, path, name }, ImportEvent::Copied(None)) => Import::Done {
                outcome: None,
                found: true,
            },
            (import, _) => import,
        }
    }
}

proof fn lemma_first_copy_counts(copied: Seq<CopiedFileView>, n: int, file: Seq<Seq<char>>)
    requires
        0 <= n <= copied.len(),
        copied_link(copied.take(n), file) is Some,
    ensures
        copied_link(copied, file) == copied_link(copied.take(n), file),
    decreases copied.len() - n,
{
    if n < copied.len() {
        assert(copied.take(n + 1).drop_last() == copied.take(n));
        lemma_first_copy_counts(copied, n + 1, file);
    } else {
        assert(copied.take(n) == copied);
    }
}

/// Whether a reference to `target` leads to `path` in attachment directory
/// number `source`, and so to a file with a name.
pub open spec fn leads_to(
    rewriter: AttachmentRewriterView,
    target: Seq<char>,
    source: int,
    path: Seq<char>,
) -> bool {
    &&& attachment_path(target) == Some(path)
    &&& 0 <= source < rewriter.source_dirs.len()
    &&& file_name(path) is Some
}

/// Whether a reference leads to a file of which there is no copy yet.
pub open spec fn is_to_be_copied(
    rewriter: AttachmentRewriterView,
    target: Seq<char>,
    source: int,
    path: Seq<char>,
) -> bool {
    leads_to(rewriter, target, source, path) && copied_link(
        rewriter.copied,
        file_at(rewriter, source, path),
    ) is None
}

/// What holds of the import of `target` between two events.
pub open spec fn import_is_sound(
    rewriter: AttachmentRewriterView,
    target: Seq<char>,
    written: Seq<Seq<char>>,
    import: ImportView,
) -> bool {
    match import {
        ImportView::FindSource { source, path } => leads_to(rewriter, target, source, path),
        ImportView::CreateDirectory { source, path } => is_to_be_copied(rewriter, target, source, path),
        ImportView::ProbeName { source, path, probes, name } => is_to_be_copied(
            rewriter,
            target,
            source,
            path,
        ) && placed(rewriter.mode, file_name(path)->0, probes, written) == PlacementView::Probe(name),
        ImportView::CopyFile { source, path, name } => is_to_be_copied(rewriter, target, source, path),
        ImportView::Done { outcome, found } => outcome is Some ==> found && is_copy_of(
            rewriter,
            target,
            outcome->0,
        ),
    }
}

/// Whether an attachment is the `k`-th of the files that have been copied, and
/// this is the file that `target` leads to in attachment directory number
/// `source`: it has the link to the copy, and the name of the file.
pub open spec fn is_copy_from(
    rewriter: AttachmentRewriterView,
    target: Seq<char>,
    imported: ImportedView,
    k: int,
    source: int,
) -> bool {
    &&& 0 <= k < rewriter.copied.len()
    &&& attachment_path(target) is Some
    &&& leads_to(rewriter, target, source, attachment_path(target)->0)
    &&& rewriter.copied[k].file == rewriter.source_dirs[source] + components(attachment_path(target)->0)
    &&& rewriter.copied[k].link == imported.link
    &&& file_name(attachment_path(target)->0) == Some(imported.name)
}

/// Whether an attachment is the copy of the file that `target` leads to.
pub open spec fn is_copy_of(
    rewriter: AttachmentRewriterView,
    target: Seq<char>,
    imported: ImportedView,
) -> bool {
    exists|k: int, source: int| #[trigger] is_copy_from(rewriter, target, imported, k, source)
}

/// Whether a link leads to a file in the directory `prefix`.
pub open spec fn leads_into(prefix: Seq<Seq<char>>, link: Seq<char>) -> bool {
    exists|name: Seq<char>| link == #[trigger] link_to(prefix.push(name))
}

/// Whether every copy is linked to where the attachments of the note go.
pub open spec fn copies_are_in_assets(rewriter: AttachmentRewriterView) -> bool {
    forall|k: int|
        0 <= k < rewriter.copied.len() ==> leads_into(
            rewriter.assets_prefix,
            (#[trigger] rewriter.copied[k]).link,
        )
}

/// Whether no file has been copied twice.
pub open spec fn copies_are_distinct(copied: Seq<CopiedFileView>) -> bool {
    forall|i: int, j: int|
        0 <= i < j < copied.len() ==> (#[trigger] copied[i]).file != (#[trigger] copied[j]).file
}

proof fn lemma_filtered_are_among(parts: Seq<Seq<char>>, keep: spec_fn(Seq<char>) -> bool, i: int)
    requires
        0 <= i < parts.filter(keep).len(),
    ensures
        parts.contains(parts.filter(keep)[i]),
    decreases parts.len(),
{
    reveal(Seq::filter);
    if parts.len() > 0 {
        let before = parts.drop_last().filter(keep);
        if i < before.len() {
            lemma_filtered_are_among(parts.drop_last(), keep, i);
            let k = choose|k: int| 0 <= k < parts.len() - 1 && parts.drop_last()[k] == before[i];
            assert(parts[k] == before[i]);
        } else {
            assert(parts[parts.len() - 1] == parts.last());
        }
    }
}

/// Only files inside Bear's attachment store are imported: the path that is
/// looked for is relative and leads down, never up, and it names a file.
pub proof fn law_import_stays_inside_the_store(
    rewriter: AttachmentRewriterView,
    written: Seq<Seq<char>>,
    target: Seq<char>,
)
    ensures
        import_is_sound(rewriter, target, written, import_started(rewriter, target)),
        import_started(rewriter, target) matches ImportView::FindSource { source, path } ==> source == 0
            && descends_only(path) && !components(path).contains(".."@),
{
    if let Some(path) = attachment_path(target) {
        let parts = crate::text::split(path, crate::text::CharClass::One('/'));
        let keep = |part: Seq<char>| part.len() > 0 && part != "."@;
        assert(components(path) == parts.filter(keep));
        assert forall|i: int| 0 <= i < components(path).len() implies #[trigger] components(path)[i] != ".."@ by {
            lemma_filtered_are_among(parts, keep, i);
        }
        assert(components(path).last() != ".."@);
    }
}

proof fn lemma_no_copy_yet(copied: Seq<CopiedFileView>, file: Seq<Seq<char>>, i: int)
    requires
        copied_link(copied, file) is None,
        0 <= i < copied.len(),
    ensures
        copied[i].file != file,
    decreases copied.len(),
{
    if i < copied.len() - 1 {
        lemma_no_copy_yet(copied.drop_last(), file, i);
    }
}

proof fn lemma_copy_with_link(copied: Seq<CopiedFileView>, file: Seq<Seq<char>>) -> (k: int)
    requires
        copied_link(copied, file) is Some,
    ensures
        0 <= k < copied.len(),
        copied[k].file == file,
        copied[k].link == copied_link(copied, file)->0,
    decreases copied.len(),
{
    if copied_link(copied.drop_last(), file) is Some {
        lemma_copy_with_link(copied.drop_last(), file)
    } else {
        copied.len() - 1
    }
}

/// What is a copy stays one when more is copied.
pub proof fn lemma_copy_stays(
    rewriter: AttachmentRewriterView,
    target: Seq<char>,
    imported: ImportedView,
    import: ImportView,
    event: ImportEventView,
)
    requires
        is_copy_of(rewriter, target, imported),
    ensures
        is_copy_of(
            AttachmentRewriterView { copied: copied_after(rewriter, import, event), ..rewriter },
            target,
            imported,
        ),
{
    let (k, source) = choose|k: int, source: int|
        #[trigger] is_copy_from(rewriter, target, imported, k, source);
    let after = AttachmentRewriterView { copied: copied_after(rewriter, import, event), ..rewriter };
    assert(after.copied[k] == rewriter.copied[k]);
    assert(is_copy_from(after, target, imported, k, source));
}

/// No event makes an import unsound: no file is ever copied twice, every copy is
/// linked to where the attachments of the note go, and what an import ends with
/// is nothing or the copy of the very file that is imported.
pub proof fn law_import_step_is_sound(
    rewriter: AttachmentRewriterView,
    target: Seq<char>,
    written: Seq<Seq<char>>,
    import: ImportView,
    event: ImportEventView,
)
    requires
        import_is_sound(rewriter, target, written, import),
        copies_are_distinct(rewriter.copied),
        copies_are_in_assets(rewriter),
    ensures
        copies_are_distinct(copied_after(rewriter, import, event)),
        copies_are_in_assets(
            AttachmentRewriterView { copied: copied_after(rewriter, import, event), ..rewriter },
        ),
        import_is_sound(
            AttachmentRewriterView { copied: copied_after(rewriter, import, event), ..rewriter },
            target,
            written_after(written, import, event),
            import_resumed(rewriter, written, import, event),
        ),
{
    match (import, event) {
        (
            ImportView::CopyFile { source, path, name },
            ImportEventView::Copied(Some(identity)),
        ) => {
            let after = copied_after(rewriter, import, event);
            let last = rewriter.copied.len() as int;
            assert forall|i: int, j: int| 0 <= i < j < after.len() implies (#[trigger] after[i]).file != (
            #[trigger] after[j]).file by {
                if j == last {
                    lemma_no_copy_yet(rewriter.copied, file_at(rewriter, source, path), i);
                } else {
                    assert(after[i] == rewriter.copied[i] && after[j] == rewriter.copied[j]);
                }
            }
            let link = link_to(rewriter.assets_prefix.push(name));
            assert forall|k: int| 0 <= k < after.len() implies leads_into(
                rewriter.assets_prefix,
                (#[trigger] after[k]).link,
            ) by {
                if k < last {
                    assert(after[k] == rewriter.copied[k]);
                } else {
                    assert(after[k].link == link);
                }
            }
            let imported = ImportedView { link, name: file_name(path)->0 };
            let later = AttachmentRewriterView { copied: after, ..rewriter };
            assert(is_copy_from(later, target, imported, last, source));
        },
        (ImportView::FindSource { source, path }, ImportEventView::Source(true)) => {
            let file = file_at(rewriter, source, path);
            if copied_link(rewriter.copied, file) is Some {
                let imported = ImportedView {
                    link: copied_link(rewriter.copied, file)->0,
                    name: file_name(path)->0,
                };
                let k = lemma_copy_with_link(rewriter.copied, file);
                assert(is_copy_from(rewriter, target, imported, k, source));
            }
        },
        _ => {},
    }
}

/// Whether an event answers what an import asks for.
pub open spec fn is_answer(import: ImportView, event: ImportEventView) -> bool {
    match import {
        ImportView::FindSource { source, path } => event is Source,
        ImportView::CreateDirectory { source, path } => event is Directory,
        ImportView::ProbeName { source, path, probes, name } => event is Probed,
        ImportView::CopyFile { source, path, name } => event is Copied,
        ImportView::Done { outcome, found } => false,
    }
}

/// How many steps are still to come at most, if no name is taken.
pub open spec fn steps_left(rewriter: AttachmentRewriterView, import: ImportView) -> int {
    match import {
        ImportView::FindSource { source, path } => 3 + rewriter.source_dirs.len() - source,
        ImportView::CreateDirectory { source, path } => 3,
        ImportView::ProbeName { source, path, probes, name } => 2,
        ImportView::CopyFile { source, path, name } => 1,
        ImportView::Done { outcome, found } => 0,
    }
}

/// An import moves on: every answer brings it closer to its end, except that a
/// name that is taken makes it try the next one.
pub proof fn law_import_moves_on(
    rewriter: AttachmentRewriterView,
    target: Seq<char>,
    written: Seq<Seq<char>>,
    import: ImportView,
    event: ImportEventView,
)
    requires
        import_is_sound(rewriter, target, written, import),
        is_answer(import, event),
    ensures
        ({
            let after = import_resumed(rewriter, written, import, event);
            ||| 0 <= steps_left(rewriter, after) < steps_left(rewriter, import)
            ||| {
                &&& import matches ImportView::ProbeName { source, path, probes, name }
                &&& event matches ImportEventView::Probed(existing)
                &&& is_taken(rewriter.mode, existing, written)
                &&& after == (ImportView::ProbeName {
                    source,
                    path,
                    probes: probes.push(existing),
                    name: candidate(file_name(path)->0, probes.len() + 1),
                })
            }
        }),
{
    match (import, event) {
        (
            ImportView::ProbeName { source, path, probes, name },
            ImportEventView::Probed(existing),
        ) => {
            lemma_one_more_probe(rewriter.mode, file_name(path)->0, probes, written, existing);
        },
        (ImportView::CreateDirectory { source, path }, ImportEventView::Directory(true)) => {
            let none = Seq::<Option<Seq<char>>>::empty();
            assert(forall|k: int| !is_first_free(rewriter.mode, none, written, k));
        },
        _ => {},
    }
}

/// The search for a file after `n` attachment directories turned out not to
/// have it.
pub open spec fn refused(
    rewriter: AttachmentRewriterView,
    written: Seq<Seq<char>>,
    target: Seq<char>,
    n: nat,
) -> ImportView
    decreases n,
{
    if n == 0 {
        import_started(rewriter, target)
    } else {
        import_resumed(
            rewriter,
            written,
            refused(rewriter, written, target, (n - 1) as nat),
            ImportEventView::Source(false),
        )
    }
}

/// The first attachment directory that has a file supplies it: the directories
/// are asked in turn, the first that has the file is the source, and if none
/// has it the reference leads to no attachment.
pub proof fn law_first_directory_supplies_the_file(
    rewriter: AttachmentRewriterView,
    written: Seq<Seq<char>>,
    target: Seq<char>,
    n: nat,
)
    requires
        attachment_path(target) is Some,
        n <= rewriter.source_dirs.len(),
    ensures
        n < rewriter.source_dirs.len() ==> refused(rewriter, written, target, n) == (ImportView::FindSource {
            source: n as int,
            path: attachment_path(target)->0,
        }) && import_resumed(
            rewriter,
            written,
            refused(rewriter, written, target, n),
            ImportEventView::Source(true),
        ) == source_found(rewriter, n as int, attachment_path(target)->0),
        n == rewriter.source_dirs.len() ==> refused(rewriter, written, target, n) == (ImportView::Done {
            outcome: None,
            found: false,
        }),
    decreases n,
{
    if n > 0 {
        law_first_directory_supplies_the_file(rewriter, written, target, (n - 1) as nat);
    }
}

/// A file referenced twice is copied once: when a file has been copied, every
/// later reference to it ends at once, with the link to that copy, whatever
/// `more` has been copied since. This holds however the file is spelled, and
/// also if it is reached from another attachment directory.
pub proof fn law_referenced_twice_copied_once(
    rewriter: AttachmentRewriterView,
    target: Seq<char>,
    written: Seq<Seq<char>>,
    import: ImportView,
    identity: Seq<char>,
    more: Seq<CopiedFileView>,
    later_written: Seq<Seq<char>>,
    later_source: int,
    later_path: Seq<char>,
)
    requires
        import_is_sound(rewriter, target, written, import),
        file_name(later_path) is Some,
        import matches ImportView::CopyFile { source, path, name } && file_at(
            rewriter,
            later_source,
            later_path,
        ) == file_at(rewriter, source, path),
    ensures
        ({
            let copied = ImportEventView::Copied(Some(identity));
            let later = AttachmentRewriterView {
                copied: copied_after(rewriter, import, copied) + more,
                ..rewriter
            };
            import_resumed(
                later,
                later_written,
                ImportView::FindSource { source: later_source, path: later_path },
                ImportEventView::Source(true),
            ) == import_resumed(rewriter, written, import, copied)
        }),
{
    if let ImportView::CopyFile { source, path, name } = import {
        let event = ImportEventView::Copied(Some(identity));
        let file = file_at(rewriter, source, path);
        let after = copied_after(rewriter, import, event);
        let later = after + more;
        assert(after.drop_last() == rewriter.copied);
        assert(copied_link(after, file) == Some(after.last().link));
        assert(later.take(after.len() as int) == after);
        lemma_first_copy_counts(later, after.len() as int, file);
        assert(file.last() == components(path).last());
        assert(file_at(rewriter, later_source, later_path).last() == components(later_path).last());
    }
}

/// A copy replaces only what it may: the name it goes to is the one that was
/// asked about last, and by the answer that name is not taken. So in copy mode
/// no file had it, and in the other modes none that this export wrote.
pub proof fn law_copy_goes_to_a_free_name(
    rewriter: AttachmentRewriterView,
    target: Seq<char>,
    written: Seq<Seq<char>>,
    import: ImportView,
    existing: Option<Seq<char>>,
)
    requires
        import is ProbeName,
        import_is_sound(rewriter, target, written, import),
    ensures
        import_resumed(rewriter, written, import, ImportEventView::Probed(existing)) is CopyFile <==> !is_taken(
            rewriter.mode,
            existing,
            written,
        ),
        import_resumed(
            rewriter,
            written,
            import,
            ImportEventView::Probed(existing),
        ) matches ImportView::CopyFile { source, path, name } ==> {
            &&& name == import->ProbeName_name
            &&& path == import->ProbeName_path
            &&& source == import->ProbeName_source
            &&& rewriter.mode == Mode::Copy ==> existing is None
            &&& existing is Some ==> !written.contains(existing->0)
        },
{
    if let ImportView::ProbeName { source, path, probes, name } = import {
        lemma_one_more_probe(rewriter.mode, file_name(path)->0, probes, written, existing);
    }
}

/// The link to a copy leads to it: percent-decoded, it is the path of the copy
/// as seen from the note, and it holds no character that would end it.
pub proof fn law_link_leads_to_the_copy(
    rewriter: AttachmentRewriterView,
    target: Seq<char>,
    written: Seq<Seq<char>>,
    import: ImportView,
    identity: Seq<char>,
)
    requires
        import is CopyFile,
        import_is_sound(rewriter, target, written, import),
    ensures
        import_resumed(
            rewriter,
            written,
            import,
            ImportEventView::Copied(Some(identity)),
        ) matches ImportView::Done { outcome: Some(imported), .. } && percent_decoded(encode_utf8(imported.link))
            == encode_utf8(join(rewriter.assets_prefix.push(import->CopyFile_name), "/"@))
            && is_link_text(imported.link) && Some(imported.name) == file_name(import->CopyFile_path),
{
    if let ImportView::CopyFile { source, path, name } = import {
        law_link_decodes_to_path(rewriter.assets_prefix.push(name));
        law_link_is_safe(rewriter.assets_prefix.push(name));
    }
}

/// A file that is there is imported, whatever has been copied before: if the
/// `n`-th attachment directory is the first to have the file that a reference
/// leads to, and no copy has been made of it yet, the directory for the copies
/// is asked for, then the file's own name, and if that is free the file is copied
/// to it. The import ends with the link to that copy.
pub proof fn law_found_file_is_imported(
    rewriter: AttachmentRewriterView,
    written: Seq<Seq<char>>,
    target: Seq<char>,
    n: nat,
    identity: Seq<char>,
)
    requires
        attachment_path(target) is Some,
        n < rewriter.source_dirs.len(),
        forall|k: int|
            0 <= k < rewriter.copied.len() ==> (#[trigger] rewriter.copied[k]).file
                != rewriter.source_dirs[n as int] + components(attachment_path(target)->0),
    ensures
        ({
            let path = attachment_path(target)->0;
            let name = components(path).last();
            let link = link_to(rewriter.assets_prefix.push(name));
            let source = n as int;
            let found = import_resumed(
                rewriter,
                written,
                refused(rewriter, written, target, n),
                ImportEventView::Source(true),
            );
            let ready = import_resumed(rewriter, written, found, ImportEventView::Directory(true));
            let named = import_resumed(rewriter, written, ready, ImportEventView::Probed(None));
            let copied = ImportEventView::Copied(Some(identity));
            &&& components(path).len() > 0
            &&& found == (ImportView::CreateDirectory { source, path })
            &&& ready == (ImportView::ProbeName { source, path, probes: Seq::empty(), name })
            &&& named == (ImportView::CopyFile { source, path, name })
            &&& import_resumed(rewriter, written, named, copied) == (ImportView::Done {
                outcome: Some(ImportedView { link, name }),
                found: true,
            })
            &&& copied_after(rewriter, named, copied) == rewriter.copied.push(
                CopiedFileView { file: rewriter.source_dirs[source] + components(path), link },
            )
            &&& written_after(written, named, copied) == written.push(identity)
        }),
{
    let path = attachment_path(target)->0;
    let file = rewriter.source_dirs[n as int] + components(path);
    law_first_directory_supplies_the_file(rewriter, written, target, n);
    law_import_stays_inside_the_store(rewriter, written, target);
    lemma_not_copied(rewriter.copied, file);
    let none = Seq::<Option<Seq<char>>>::empty();
    let own_name = file_name(path)->0;
    assert(forall|k: int| !is_first_free(rewriter.mode, none, written, k));
    lemma_one_more_probe(rewriter.mode, own_name, none, written, None);
}

proof fn lemma_not_copied(copied: Seq<CopiedFileView>, file: Seq<Seq<char>>)
    requires
        forall|k: int| 0 <= k < copied.len() ==> (#[trigger] copied[k]).file != file,
    ensures
        copied_link(copied, file) is None,
    decreases copied.len(),
{
    if copied.len() > 0 {
        let before = copied.drop_last();
        assert forall|k: int| 0 <= k < before.len() implies (#[trigger] before[k]).file != file by {
            assert(before[k] == copied[k]);
        }
        lemma_not_copied(before, file);
        assert(copied[copied.len() - 1].file != file);
    }
}

/// A file that has been copied is not copied again: the import ends with the
/// link to the copy.
pub proof fn law_copied_file_is_linked_again(
    rewriter: AttachmentRewriterView,
    written: Seq<Seq<char>>,
    target: Seq<char>,
    n: nat,
    k: int,
)
    requires
        attachment_path(target) is Some,
        n < rewriter.source_dirs.len(),
        copies_are_distinct(rewriter.copied),
        0 <= k < rewriter.copied.len(),
        rewriter.copied[k].file == rewriter.source_dirs[n as int] + components(attachment_path(target)->0),
    ensures
        import_resumed(
            rewriter,
            written,
            refused(rewriter, written, target, n),
            ImportEventView::Source(true),
        ) == (ImportView::Done {
            outcome: Some(
                ImportedView {
                    link: rewriter.copied[k].link,
                    name: components(attachment_path(target)->0).last(),
                },
            ),
            found: true,
        }),
{
    let file = rewriter.copied[k].file;
    law_first_directory_supplies_the_file(rewriter, written, target, n);
    law_import_stays_inside_the_store(rewriter, written, target);
    if copied_link(rewriter.copied, file) is None {
        lemma_no_copy_yet(rewriter.copied, file, k);
    } else {
        let j = lemma_copy_with_link(rewriter.copied, file);
        assert(rewriter.copied[j].file == rewriter.copied[k].file);
        assert(j == k);
    }
}

/// An import begins with the first attachment directory, unless there is none or
/// the target is no path inside Bear's attachment store.
pub proof fn law_import_begins_with_first_directory(rewriter: AttachmentRewriterView, target: Seq<char>)
    ensures
        import_started(rewriter, target) == if rewriter.source_dirs.len() > 0 && attachment_path(
            target,
        ) is Some {
            ImportView::FindSource { source: 0, path: attachment_path(target)->0 }
        } else {
            ImportView::Done { outcome: None, found: false }
        },
{
}

/// Whether an event refuses what an import needs: the last attachment directory
/// does not have the file either, the directory for the copies cannot be made,
/// or copying fails.
pub open spec fn is_refusal(
    rewriter: AttachmentRewriterView,
    import: ImportView,
    event: ImportEventView,
) -> bool {
    match (import, event) {
        (ImportView::FindSource { source, path }, ImportEventView::Source(has_file)) => !has_file && source + 1
            == rewriter.source_dirs.len(),
        (ImportView::CreateDirectory { source, path }, ImportEventView::Directory(exists)) => !exists,
        (ImportView::CopyFile { source, path, name }, ImportEventView::Copied(identity)) => identity is None,
        _ => false,
    }
}

/// An import ends with nothing only if it has to: once it has begun, only if the
/// disk refuses what it needs.
pub proof fn law_import_ends_with_nothing_only_if_it_has_to(
    rewriter: AttachmentRewriterView,
    target: Seq<char>,
    written: Seq<Seq<char>>,
    import: ImportView,
    event: ImportEventView,
    found: bool,
)
    requires
        import_is_sound(rewriter, target, written, import),
        import !is Done,
        import_resumed(rewriter, written, import, event) == (ImportView::Done { outcome: None, found }),
    ensures
        is_refusal(rewriter, import, event),
{
}

proof fn lemma_plain_bytes_decode_to_themselves(bytes: Seq<u8>)
    requires
        forall|i: int| 0 <= i < bytes.len() ==> #[trigger] bytes[i] != '%' as u8,
    ensures
        percent_decoded(bytes) == bytes,
    decreases bytes.len(),
{
    if bytes.len() > 0 {
        let rest = bytes.drop_first();
        assert forall|i: int| 0 <= i < rest.len() implies #[trigger] rest[i] != '%' as u8 by {
            assert(rest[i] == bytes[i + 1]);
        }
        lemma_plain_bytes_decode_to_themselves(rest);
        assert(bytes[0] != '%' as u8);
        assert(percent_decoded(bytes) =~= bytes);
    } else {
        assert(percent_decoded(bytes) =~= bytes);
    }
}

/// A reference leads to the path that it names: as it stands, if it holds no
/// `%`, or percent-encoded, as links are. This is of paths made of names, each
/// neither empty, `.` nor `..`; nothing that begins with a slash or has a part
/// `..` leads anywhere.
pub proof fn law_reference_leads_to_its_path(parts: Seq<Seq<char>>)
    requires
        parts.len() > 0,
        forall|k: int| 0 <= k < parts.len() ==> !(#[trigger] parts[k]).contains('/'),
    ensures
        (forall|k: int|
            0 <= k < parts.len() ==> (#[trigger] parts[k]).len() > 0 && parts[k] != seq!['.'] && parts[k]
                != seq!['.', '.']) ==> {
            &&& attachment_path(link_to(parts)) == Some(join(parts, "/"@))
            &&& !join(parts, "/"@).contains('%') ==> attachment_path(join(parts, "/"@)) == Some(
                join(parts, "/"@),
            )
            &&& components(join(parts, "/"@)) == parts
        },
        parts.contains(seq!['.', '.']) || (parts.len() > 1 && parts[0].len() == 0) ==> {
            &&& attachment_path(link_to(parts)) is None
            &&& !join(parts, "/"@).contains('%') ==> attachment_path(join(parts, "/"@)) is None
        },
{
    let path = join(parts, "/"@);
    let bytes = encode_utf8(path);
    law_path_of_parts(parts);
    law_link_decodes_to_path(parts);
    encode_utf8_decode_utf8(path);
    encode_utf8_valid_utf8(path);
    if !path.contains('%') {
        assert forall|i: int| 0 <= i < bytes.len() implies #[trigger] bytes[i] != '%' as u8 by {
            if bytes[i] == '%' as u8 {
                lemma_ascii_byte_is_char(path, i, '%');
            }
        }
        lemma_plain_bytes_decode_to_themselves(bytes);
    }
    if forall|k: int|
        0 <= k < parts.len() ==> (#[trigger] parts[k]).len() > 0 && parts[k] != seq!['.'] && parts[k] != seq![
            '.',
            '.',
        ] {
        let named = |part: Seq<char>| part != Seq::<char>::empty() && part != seq!['.'];
        assert forall|k: int| 0 <= k < parts.len() implies named(#[trigger] parts[k]) by {
            assert(parts[k].len() > 0);
        }
        lemma_filter_keeps_all(parts, named);
    }
}

proof fn lemma_filter_keeps_all(parts: Seq<Seq<char>>, keep: spec_fn(Seq<char>) -> bool)
    requires
        forall|k: int| 0 <= k < parts.len() ==> keep(#[trigger] parts[k]),
    ensures
        parts.filter(keep) == parts,
    decreases parts.len(),
{
    reveal(Seq::filter);
    if parts.len() > 0 {
        let head = parts.drop_last();
        assert forall|k: int| 0 <= k < head.len() implies keep(#[trigger] head[k]) by {
            assert(head[k] == parts[k]);
        }
        lemma_filter_keeps_all(head, keep);
        assert(keep(parts[parts.len() - 1]));
        assert(head.push(parts.last()) == parts);
    } else {
        assert(parts.filter(keep) =~= parts);
    }
}

/// A link leads elsewhere if it has a scheme (something without a slash, and a
/// colon), or begins with `#`, `?` or `www.`. A link to a file whose first
/// directory, or own name, has no colon and begins otherwise does not.
pub proof fn law_links_that_lead_elsewhere(first: Seq<char>, rest: Seq<char>)
    requires
        !first.contains('/'),
    ensures
        leads_elsewhere(first + seq![':'] + rest),
        leads_elsewhere(seq!['#'] + rest),
        leads_elsewhere(seq!['?'] + rest),
        leads_elsewhere(seq!['w', 'w', 'w', '.'] + rest),
        first.len() > 0 && !first.contains(':') && first[0] != '#' && first[0] != '?' && !seq![
            'w',
            'w',
            'w',
            '.',
        ].is_prefix_of(first) ==> !leads_elsewhere(first) && !leads_elsewhere(first + seq!['/'] + rest),
{
    reveal_strlit("www.");
    reveal_strlit("#");
    reveal_strlit("?");
    assert("www."@ =~= seq!['w', 'w', 'w', '.']);
    assert("#"@ =~= seq!['#']);
    assert("?"@ =~= seq!['?']);
    let url = first + seq![':'] + rest;
    assert(url[first.len() as int] == ':');
    assert forall|j: int| 0 <= j < first.len() implies #[trigger] url[j] != '/' by {
        assert(first.contains(first[j]));
    }
    assert("#"@.is_prefix_of(seq!['#'] + rest));
    assert("?"@.is_prefix_of(seq!['?'] + rest));
    assert("www."@.is_prefix_of(seq!['w', 'w', 'w', '.'] + rest));
    if first.len() > 0 && !first.contains(':') && first[0] != '#' && first[0] != '?' && !"www."@.is_prefix_of(
        first,
    ) {
        lemma_does_not_lead_elsewhere(first, Seq::empty());
        assert(first + Seq::<char>::empty() == first);
        lemma_does_not_lead_elsewhere(first, seq!['/'] + rest);
        assert(first + (seq!['/'] + rest) == first + seq!['/'] + rest);
    }
}

proof fn lemma_does_not_lead_elsewhere(first: Seq<char>, rest: Seq<char>)
    requires
        !first.contains('/'),
        !first.contains(':'),
        first.len() > 0,
        first[0] != '#',
        first[0] != '?',
        !"www."@.is_prefix_of(first),
        rest.len() > 0 ==> rest[0] == '/',
    ensures
        !leads_elsewhere(first + rest),
{
    reveal_strlit("www.");
    reveal_strlit("#");
    reveal_strlit("?");
    let target = first + rest;
    assert(target[0] == first[0]);
    assert forall|i: int| 0 <= i < target.len() && #[trigger] target[i] == ':' implies exists|j: int|
        0 <= j < i && #[trigger] target[j] == '/' by {
        if i < first.len() {
            assert(first.contains(first[i]));
        } else {
            assert(target[first.len() as int] == '/');
        }
    }
    assert("#"@[0] == '#' && "?"@[0] == '?');
    assert(target.subrange(0, 1)[0] == target[0]);
    if "www."@.is_prefix_of(target) {
        assert forall|k: int| 0 <= k < 4 implies #[trigger] target[k] == "www."@[k] by {
            assert(target.subrange(0, 4)[k] == target[k]);
        }
        if first.len() < 4 {
            assert(target[first.len() as int] == '/');
        } else {
            assert("www."@ =~= first.subrange(0, 4));
        }
    }
}

/// Where a reference leads is fixed by what its target stands for: percent-decoded
/// it is a path, and that path is looked for if it descends only and has a
/// component, whatever else there is about it.
pub proof fn law_reference_is_decoded(target: Seq<char>, path: Seq<char>)
    requires
        percent_decoded(encode_utf8(target)) == encode_utf8(path),
    ensures
        attachment_path(target) == if descends_only(path) && components(path).len() > 0 {
            Some(path)
        } else {
            None
        },
{
    encode_utf8_decode_utf8(path);
    encode_utf8_valid_utf8(path);
}

/// A link whose file is nowhere is missed if and only if it looks like one to an
/// attachment: it leads inside Bear's attachment store and not elsewhere, and it
/// is not the link to a copy.
pub proof fn law_which_links_are_missed(rewriter: AttachmentRewriterView, target: Seq<char>)
    ensures
        is_missing_link(rewriter, target) ==> attachment_path(target) is Some && !leads_elsewhere(target),
        attachment_path(target) is Some && !leads_elsewhere(target) && !is_missing_link(rewriter, target)
            ==> exists|k: int| 0 <= k < rewriter.copied.len() && (#[trigger] rewriter.copied[k]).link == target,
        forall|k: int|
            0 <= k < rewriter.copied.len() ==> !is_missing_link(rewriter, (#[trigger] rewriter.copied[k]).link),
{
}

/// An answer to something else than what was asked for changes nothing, and
/// nothing but a copy that was made is added to what has been copied.
pub proof fn law_other_answers_change_nothing(
    rewriter: AttachmentRewriterView,
    written: Seq<Seq<char>>,
    import: ImportView,
    event: ImportEventView,
)
    ensures
        !is_answer(import, event) ==> {
            &&& import_resumed(rewriter, written, import, event) == import
            &&& copied_after(rewriter, import, event) == rewriter.copied
            &&& written_after(written, import, event) == written
        },
        event !is Copied || event == ImportEventView::Copied(None) ==> copied_after(rewriter, import, event)
            == rewriter.copied && written_after(written, import, event) == written,
{
}

} // verus!
