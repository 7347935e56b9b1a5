//! The export of one note, from its directory to the finished file.
//!
//! As with an [`Import`], the work on disk is done by the caller: the phase of
//! a [`NoteExport`] says what has to be done next, and [`NoteExport::resume`]
//! takes the answer.
use crate::export::{
    assets_of, assets_prefix, contents_of, directory_of, law_assets_are_called_like_the_note,
    note_contents, note_file_name, note_name, Exporter,
};
use crate::import::{
    attachment_path, copied_after, copies_are_distinct, copies_are_in_assets, import_is_sound,
    import_resumed, import_started, is_copy_of, is_missing_link, law_first_directory_supplies_the_file,
    law_found_file_is_imported, law_import_stays_inside_the_store, law_import_step_is_sound,
    leads_elsewhere, lemma_copy_stays, refused, written_after, AttachmentRewriter,
    AttachmentRewriterView, CopiedFileView, Import, ImportEvent, ImportEventView, ImportView,
};
use crate::links::{link_to, LinkEscapes};
use crate::notes::{Note, NoteView};
use crate::paths::{components, sanitized};
use crate::patterns::{matches_of, BEAR_TOKEN_PATTERN};
use crate::placement::{
    candidate, is_taken, law_first_free_name_is_used, lemma_one_more_probe, placed, probe_views,
    unique_path, Mode, Placement, PlacementView,
};
use crate::rewriting::{
    is_searched, link_targets, links_after, links_searched, next_target, rewriting_resumed,
    rewriting_started, rewritten, token_targets, tokens_pass, ImportedView, Rewriting, RewritingView,
};
use crate::text::{copied_lists, list_views, option_view, views};
use vstd::prelude::*;

verus! {

/// How far the export of a note has come, and so what is to be done next.
pub enum Phase {
    /// Make sure that the note's directory exists.
    Directory,
    /// Find out whether a file called `name` is in that directory.
    Naming { probes: Vec<Option<String>>, name: String },
    /// Do what `import` asks for, or go on if it is done.
    Importing { name: String, rewriter: AttachmentRewriter, rewriting: Rewriting, import: Import },
    /// Write `contents` to the file called `name` in the note's directory.
    Writing { name: String, contents: String, attachments: usize },
    /// Nothing: the note has been written and `attachments` have been copied.
    Done { attachments: usize },
}

/// What a [`Phase`] holds.
pub enum PhaseView {
    Directory,
    Naming { probes: Seq<Option<Seq<char>>>, name: Seq<char> },
    Importing {
        name: Seq<char>,
        rewriter: AttachmentRewriterView,
        rewriting: RewritingView,
        import: ImportView,
    },
    Writing { name: Seq<char>, contents: Seq<char>, attachments: nat },
    Done { attachments: nat },
}

impl View for Phase {
    type V = PhaseView;

    open spec fn view(&self) -> PhaseView {
        match *self {
            Phase::Directory => PhaseView::Directory,
            Phase::Naming { probes, name } => PhaseView::Naming {
                probes: probe_views(probes@),
                name: name@,
            },
            Phase::Importing { name, rewriter, rewriting, import } => PhaseView::Importing {
                name: name@,
                rewriter: rewriter@,
                rewriting: rewriting@,
                import: import@,
            },
            Phase::Writing { name, contents, attachments } => PhaseView::Writing {
                name: name@,
                contents: contents@,
                attachments: attachments as nat,
            },
            Phase::Done { attachments } => PhaseView::Done { attachments: attachments as nat },
        }
    }
}

/// The export of one note.
pub struct NoteExport {
    mode: Mode,
    /// The directories that attachments may come from.
    source_dirs: Vec<Vec<String>>,
    note: Note,
    directory: Vec<String>,
    escapes: LinkEscapes,
    phase: Phase,
}

/// What a [`NoteExport`] holds.
pub struct NoteExportView {
    pub mode: Mode,
    pub source_dirs: Seq<Seq<Seq<char>>>,
    pub note: NoteView,
    /// The directories from the output directory to the note.
    pub directory: Seq<Seq<char>>,
    pub phase: PhaseView,
}

/// The answer to what a [`NoteExport`] asks for.
pub enum ExportEvent {
    /// The note's directory exists now.
    DirectoryReady,
    /// The identity of the file that has the name, if one does.
    NameProbed(Option<String>),
    /// The answer to what the import asks for.
    Imported(ImportEvent),
    /// Go on: the import is done.
    Continue,
    /// The note has been written to a file with this identity.
    Written(String),
}

/// What an [`ExportEvent`] holds.
pub enum ExportEventView {
    DirectoryReady,
    NameProbed(Option<Seq<char>>),
    Imported(ImportEventView),
    Continue,
    Written(Seq<char>),
}

impl View for ExportEvent {
    type V = ExportEventView;

    open spec fn view(&self) -> ExportEventView {
        match *self {
            ExportEvent::DirectoryReady => ExportEventView::DirectoryReady,
            ExportEvent::NameProbed(existing) => ExportEventView::NameProbed(option_view(existing)),
            ExportEvent::Imported(event) => ExportEventView::Imported(event@),
            ExportEvent::Continue => ExportEventView::Continue,
            ExportEvent::Written(identity) => ExportEventView::Written(identity@),
        }
    }
}

/// The start of the export of a note.
pub open spec fn export_started(
    flat: bool,
    mode: Mode,
    source_dirs: Seq<Seq<Seq<char>>>,
    note: NoteView,
) -> NoteExportView {
    NoteExportView {
        mode,
        source_dirs,
        note,
        directory: directory_of(flat, note.tags),
        phase: PhaseView::Directory,
    }
}

/// The phase once the rewriting has come this far: the import of the next
/// reference, or the writing of the note if there is none.
pub open spec fn next_reference(
    note: NoteView,
    name: Seq<char>,
    rewriter: AttachmentRewriterView,
    rewriting: RewritingView,
) -> PhaseView {
    match rewriting {
        RewritingView::Done { text } => PhaseView::Writing {
            name,
            contents: contents_of(note, text),
            attachments: rewriter.copied.len(),
        },
        _ => PhaseView::Importing {
            name,
            rewriter,
            rewriting,
            import: import_started(rewriter, next_target(rewriting)->0),
        },
    }
}

/// The phase once it is known which of the names tried so far are in use: the
/// next name is tried, or the rewriting starts.
pub open spec fn note_named(
    mode: Mode,
    source_dirs: Seq<Seq<Seq<char>>>,
    note: NoteView,
    written: Seq<Seq<char>>,
    probes: Seq<Option<Seq<char>>>,
) -> PhaseView {
    match placed(mode, note_name(note.title), probes, written) {
        PlacementView::Probe(name) => PhaseView::Naming { probes, name },
        PlacementView::Use(name) => next_reference(
            note,
            name,
            AttachmentRewriterView {
                mode,
                source_dirs,
                assets_prefix: assets_of(name),
                copied: Seq::empty(),
            },
            rewriting_started(note.text),
        ),
    }
}

/// The phase after an event. An event that answers something else than what
/// was asked for changes nothing.
pub open spec fn phase_after(
    export: NoteExportView,
    written: Seq<Seq<char>>,
    event: ExportEventView,
) -> PhaseView {
    match (export.phase, event) {
        (PhaseView::Directory, ExportEventView::DirectoryReady) => note_named(
            export.mode,
            export.source_dirs,
            export.note,
            written,
            Seq::empty(),
        ),
        (PhaseView::Naming { probes, name }, ExportEventView::NameProbed(existing)) => note_named(
            export.mode,
            export.source_dirs,
            export.note,
            written,
            probes.push(existing),
        ),
        (
            PhaseView::Importing { name, rewriter, rewriting, import },
            ExportEventView::Imported(event),
        ) => PhaseView::Importing {
            name,
            rewriter: AttachmentRewriterView {
                copied: copied_after(rewriter, import, event),
                ..rewriter
            },
            rewriting,
            import: import_resumed(rewriter, written, import, event),
        },
        (
            PhaseView::Importing {
                name,
                rewriter,
                rewriting,
                import: ImportView::Done { outcome, found },
            },
            ExportEventView::Continue,
        ) => next_reference(export.note, name, rewriter, rewriting_resumed(rewriting, outcome)),
        (
            PhaseView::Writing { name, contents, attachments },
            ExportEventView::Written(identity),
        ) => PhaseView::Done { attachments },
        (phase, _) => phase,
    }
}

/// The export after an event.
pub open spec fn export_resumed(
    export: NoteExportView,
    written: Seq<Seq<char>>,
    event: ExportEventView,
) -> NoteExportView {
    NoteExportView { phase: phase_after(export, written, event), ..export }
}

/// The identities of the files that the export wrote, after an event.
pub open spec fn written_by(
    export: NoteExportView,
    written: Seq<Seq<char>>,
    event: ExportEventView,
) -> Seq<Seq<char>> {
    match (export.phase, event) {
        (
            PhaseView::Importing { name, rewriter, rewriting, import },
            ExportEventView::Imported(event),
        ) => written_after(written, import, event),
        (
            PhaseView::Writing { name, contents, attachments },
            ExportEventView::Written(identity),
        ) => written.push(identity),
        _ => written,
    }
}

/// How many names have been tried in the search that is going on.
pub open spec fn names_tried(phase: PhaseView) -> nat {
    match phase {
        PhaseView::Naming { probes, name } => probes.len(),
        PhaseView::Importing {
            name,
            rewriter,
            rewriting,
            import: ImportView::ProbeName { source, path, probes, name: probed },
        } => probes.len(),
        _ => 0,
    }
}

/// The target of the reference whose import is done and led to no attachment,
/// if it is to be warned about: every Bear token is a reference to an
/// attachment, a Markdown link only if its target looks like a path inside
/// Bear's attachment store, and then no attachment directory must have the file.
pub open spec fn missing_target(phase: PhaseView) -> Option<Seq<char>> {
    match phase {
        PhaseView::Importing {
            name,
            rewriter,
            rewriting,
            import: ImportView::Done { outcome: None, found },
        } => match rewriting {
            RewritingView::Tokens { tokens, outcomes } => next_target(rewriting),
            RewritingView::Links { links, outcomes } => if !found && is_missing_link(
                rewriter,
                next_target(rewriting)->0,
            ) {
                next_target(rewriting)
            } else {
                None
            },
            RewritingView::Done { text } => None,
        },
        _ => None,
    }
}

/// Whether a text has been searched for Bear tokens, and for Markdown links if
/// there are no tokens.
pub open spec fn text_is_searched(text: Seq<char>) -> bool {
    &&& is_searched(BEAR_TOKEN_PATTERN@, text)
    &&& links_searched(matches_of(BEAR_TOKEN_PATTERN@, text), Seq::empty())
}

/// What an event has searched: the note's text, once the note has its name, and
/// the text that the first pass makes, once that pass is complete.
pub open spec fn text_is_searched_in(
    export: NoteExportView,
    after: PhaseView,
    event: ExportEventView,
) -> bool {
    &&& (export.phase is Directory || export.phase is Naming) && (after is Importing || after is Writing)
        ==> text_is_searched(export.note.text)
    &&& match (export.phase, event) {
        (
            PhaseView::Importing {
                name,
                rewriter,
                rewriting: RewritingView::Tokens { tokens, outcomes },
                import: ImportView::Done { outcome, found },
            },
            ExportEventView::Continue,
        ) => links_searched(tokens, outcomes.push(outcome)),
        _ => true,
    }
}

impl Exporter {
    /// Starts to export a note.
    pub fn export(&self, note: Note, escapes: LinkEscapes) -> (res: NoteExport)
        ensures
            res@ == export_started(
                self.flat,
                self.mode,
                list_views(self.attachment_dirs@),
                note@,
            ),
            forall|written: Seq<Seq<char>>| export_is_sound(res@, written),
    {
        let directory = self.note_directory(&note);
        NoteExport {
            mode: self.mode,
            source_dirs: copied_lists(&self.attachment_dirs),
            note,
            directory,
            escapes,
            phase: Phase::Directory,
        }
    }
}

impl NoteExport {
    /// What the export holds.
    pub closed spec fn view(&self) -> NoteExportView {
        NoteExportView {
            mode: self.mode,
            source_dirs: list_views(self.source_dirs@),
            note: self.note@,
            directory: views(self.directory@),
            phase: self.phase@,
        }
    }

    /// What is to be done next.
    pub fn phase(&self) -> (res: &Phase)
        ensures
            res@ == self@.phase,
    {
        &self.phase
    }

    /// The directories from the output directory to the note.
    pub fn directory(&self) -> (res: &Vec<String>)
        ensures
            views(res@) == self@.directory,
    {
        &self.directory
    }

    /// The target to warn about: that of a reference to an attachment that was
    /// not found, once its import is done.
    pub fn missing(&self) -> (res: Option<String>)
        ensures
            option_view(res) == missing_target(self@.phase),
    {
        match &self.phase {
            Phase::Importing {
                name: _,
                rewriter,
                rewriting,
                import: Import::Done { outcome, found },
            } => {
                if outcome.is_some() {
                    return None;
                }
                match rewriting.missing(outcome) {
                    Some(target) => Some(target),
                    None => match rewriting.target() {
                        Some(target) => {
                            if !*found && rewriter.is_missing(target.as_str()) {
                                Some(target)
                            } else {
                                None
                            }
                        },
                        None => None,
                    },
                }
            },
            _ => None,
        }
    }

    fn reference(note: &Note, name: String, rewriter: AttachmentRewriter, rewriting: Rewriting) -> (res: Phase)
        ensures
            res@ == next_reference(note@, name@, rewriter@, rewriting@),
    {
        match rewriting.target() {
            Some(target) => {
                let import = rewriter.import(target.as_str());
                Phase::Importing { name, rewriter, rewriting, import }
            },
            None => {
                let text = match rewriting.text() {
                    Some(text) => text,
                    None => String::new(),
                };
                let contents = note_contents(note, text.as_str());
                Phase::Writing { name, contents, attachments: rewriter.attachments() }
            },
        }
    }

    fn name(
        mode: Mode,
        source_dirs: &Vec<Vec<String>>,
        note: &Note,
        escapes: LinkEscapes,
        probes: Vec<Option<String>>,
        written: &Vec<String>,
    ) -> (res: Phase)
        requires
            probes@.len() < usize::MAX,
        ensures
            res@ == note_named(
                mode,
                list_views(source_dirs@),
                note@,
                views(written@),
                probe_views(probes@),
            ),
            res@ !is Naming ==> text_is_searched(note@.text),
    {
        let file_name = note_file_name(note);
        match unique_path(mode, file_name.as_str(), &probes, written) {
            Placement::Probe(name) => Phase::Naming { probes, name },
            Placement::Use(name) => {
                let rewriter = AttachmentRewriter::new(
                    mode,
                    copied_lists(source_dirs),
                    assets_prefix(name.as_str()),
                    escapes,
                );
                NoteExport::reference(note, name, rewriter, Rewriting::start(note.text.as_str()))
            },
        }
    }

    /// Goes on with the export. `written` are the identities of the files that
    /// the export has written, to which those of the note and of its
    /// attachments are added.
    pub fn resume(self, event: ExportEvent, written: &mut Vec<String>) -> (res: NoteExport)
        requires
            names_tried(self@.phase) < usize::MAX - 1,
        ensures
            res@ == export_resumed(self@, views(old(written)@), event@),
            views(final(written)@) == written_by(self@, views(old(written)@), event@),
            text_is_searched_in(self@, res@.phase, event@),
            export_is_sound(self@, views(old(written)@)) ==> export_is_sound(
                res@,
                views(final(written)@),
            ),
    {
        proof {
            if export_is_sound(self@, views(written@)) {
                law_export_step_is_sound(self@, views(written@), event@);
            }
        }
        let NoteExport { mode, source_dirs, note, directory, escapes, phase } = self;
        let phase = match (phase, event) {
            (Phase::Directory, ExportEvent::DirectoryReady) => {
                let none: Vec<Option<String>> = Vec::new();
                assert(probe_views(none@) == Seq::<Option<Seq<char>>>::empty());
                NoteExport::name(mode, &source_dirs, &note, escapes, none, written)
            },
            (Phase::Naming { mut probes, name }, ExportEvent::NameProbed(existing)) => {
                let ghost before = probe_views(probes@);
                probes.push(existing);
                assert(probe_views(probes@) == before.push(option_view(existing)));
                NoteExport::name(mode, &source_dirs, &note, escapes, probes, written)
            },
            (Phase::Importing { name, mut rewriter, rewriting, import }, ExportEvent::Imported(event)) => {
                let import = rewriter.resume(import, event, written);
                Phase::Importing { name, rewriter, rewriting, import }
            },
            (
                Phase::Importing { name, rewriter, rewriting, import: Import::Done { outcome, found: _ } },
                ExportEvent::Continue,
            ) => { NoteExport::reference(&note, name, rewriter, rewriting.resume(outcome)) },
            (
                Phase::Writing { name, contents, attachments },
                ExportEvent::Written(identity),
            ) => {
                let ghost before = views(written@);
                written.push(identity);
                assert(views(written@) == before.push(identity@));
                Phase::Done { attachments }
            },
            (phase, _) => phase,
        };
        NoteExport { mode, source_dirs, note, directory, escapes, phase }
    }
}

/// Whether the outcomes known so far of references to these targets are nothing
/// or the copy of the very file that the target leads to.
pub open spec fn are_copies(
    rewriter: AttachmentRewriterView,
    targets: Seq<Seq<char>>,
    outcomes: Seq<Option<ImportedView>>,
) -> bool {
    &&& outcomes.len() <= targets.len()
    &&& forall|k: int|
        0 <= k < outcomes.len() && #[trigger] outcomes[k] is Some ==> is_copy_of(
            rewriter,
            targets[k],
            outcomes[k]->0,
        )
}

/// Whether these are outcomes for all Bear tokens of a text, each nothing or
/// the copy of the token's own file.
pub open spec fn are_token_outcomes(
    text: Seq<char>,
    rewriter: AttachmentRewriterView,
    outcomes: Seq<Option<ImportedView>>,
) -> bool {
    let tokens = matches_of(BEAR_TOKEN_PATTERN@, text);
    outcomes.len() == tokens.found.len() && are_copies(rewriter, token_targets(tokens), outcomes)
}

/// Whether these are outcomes for all references of a text, each nothing or the
/// copy of the reference's own file.
pub open spec fn are_outcomes(
    text: Seq<char>,
    rewriter: AttachmentRewriterView,
    token_outcomes: Seq<Option<ImportedView>>,
    link_outcomes: Seq<Option<ImportedView>>,
) -> bool {
    let links = links_after(text, token_outcomes);
    &&& are_token_outcomes(text, rewriter, token_outcomes)
    &&& link_outcomes.len() == links.found.len()
    &&& are_copies(rewriter, link_targets(links), link_outcomes)
}

/// Whether a rewriting is one of `text` that has come some way, and every
/// outcome is nothing or the copy of the reference's own file.
pub open spec fn is_rewriting_of(
    text: Seq<char>,
    rewriter: AttachmentRewriterView,
    rewriting: RewritingView,
) -> bool {
    match rewriting {
        RewritingView::Tokens { tokens, outcomes } => {
            &&& tokens == matches_of(BEAR_TOKEN_PATTERN@, text)
            &&& outcomes.len() < tokens.found.len()
            &&& are_copies(rewriter, token_targets(tokens), outcomes)
        },
        RewritingView::Links { links, outcomes } => {
            &&& exists|token_outcomes: Seq<Option<ImportedView>>|
                #[trigger] are_token_outcomes(text, rewriter, token_outcomes) && links == links_after(
                    text,
                    token_outcomes,
                )
            &&& outcomes.len() < links.found.len()
            &&& are_copies(rewriter, link_targets(links), outcomes)
        },
        RewritingView::Done { text: result } => exists|
            token_outcomes: Seq<Option<ImportedView>>,
            link_outcomes: Seq<Option<ImportedView>>,
        |
            #[trigger] are_outcomes(text, rewriter, token_outcomes, link_outcomes) && result == rewritten(
                text,
                token_outcomes,
                link_outcomes,
            ),
    }
}

/// Whether `contents` are those of a note: its front matter, and its text with
/// these outcomes for its references, each nothing or the copy of the
/// reference's own file. Every link to a copy leads into the directory of the
/// note's attachments, and no file has been copied twice.
pub open spec fn is_made_of(
    note: NoteView,
    rewriter: AttachmentRewriterView,
    contents: Seq<char>,
    token_outcomes: Seq<Option<ImportedView>>,
    link_outcomes: Seq<Option<ImportedView>>,
) -> bool {
    &&& contents == contents_of(note, rewritten(note.text, token_outcomes, link_outcomes))
    &&& are_outcomes(note.text, rewriter, token_outcomes, link_outcomes)
    &&& copies_are_in_assets(rewriter)
    &&& copies_are_distinct(rewriter.copied)
}

/// Whether `contents` are those of the file called `name` that is written for a
/// note with so many attachments, which came from these directories.
pub open spec fn are_contents_of(
    note: NoteView,
    source_dirs: Seq<Seq<Seq<char>>>,
    name: Seq<char>,
    contents: Seq<char>,
    attachments: nat,
) -> bool {
    exists|
        rewriter: AttachmentRewriterView,
        token_outcomes: Seq<Option<ImportedView>>,
        link_outcomes: Seq<Option<ImportedView>>,
    |
        #[trigger] is_made_of(note, rewriter, contents, token_outcomes, link_outcomes)
            && rewriter.source_dirs == source_dirs && rewriter.assets_prefix == assets_of(name)
            && rewriter.copied.len() == attachments
}

/// What holds of the import of a note's attachments.
pub open spec fn rewriter_is_sound(
    export: NoteExportView,
    name: Seq<char>,
    rewriter: AttachmentRewriterView,
) -> bool {
    &&& rewriter.mode == export.mode
    &&& rewriter.source_dirs == export.source_dirs
    &&& rewriter.assets_prefix == assets_of(name)
    &&& copies_are_distinct(rewriter.copied)
    &&& copies_are_in_assets(rewriter)
}

/// What holds of every export between two events.
pub open spec fn export_is_sound(export: NoteExportView, written: Seq<Seq<char>>) -> bool {
    match export.phase {
        PhaseView::Directory => true,
        PhaseView::Naming { probes, name } => placed(
            export.mode,
            note_name(export.note.title),
            probes,
            written,
        ) == PlacementView::Probe(name),
        PhaseView::Importing { name, rewriter, rewriting, import } => {
            &&& rewriter_is_sound(export, name, rewriter)
            &&& is_rewriting_of(export.note.text, rewriter, rewriting)
            &&& rewriting !is Done
            &&& import_is_sound(rewriter, next_target(rewriting)->0, written, import)
        },
        PhaseView::Writing { name, contents, attachments } => are_contents_of(
            export.note,
            export.source_dirs,
            name,
            contents,
            attachments,
        ),
        PhaseView::Done { attachments } => true,
    }
}

proof fn lemma_links_start_is_sound(
    text: Seq<char>,
    rewriter: AttachmentRewriterView,
    token_outcomes: Seq<Option<ImportedView>>,
)
    requires
        are_token_outcomes(text, rewriter, token_outcomes),
    ensures
        is_rewriting_of(
            text,
            rewriter,
            tokens_pass(matches_of(BEAR_TOKEN_PATTERN@, text), token_outcomes),
        ),
{
    let none = Seq::<Option<ImportedView>>::empty();
    let links = links_after(text, token_outcomes);
    if links.found.len() == 0 {
        assert(are_outcomes(text, rewriter, token_outcomes, none));
    }
}

proof fn lemma_start_is_sound(text: Seq<char>, rewriter: AttachmentRewriterView)
    ensures
        is_rewriting_of(text, rewriter, rewriting_started(text)),
{
    let none = Seq::<Option<ImportedView>>::empty();
    if matches_of(BEAR_TOKEN_PATTERN@, text).found.len() == 0 {
        assert(are_token_outcomes(text, rewriter, none));
        lemma_links_start_is_sound(text, rewriter, none);
    }
}

proof fn lemma_one_more_outcome(
    rewriter: AttachmentRewriterView,
    targets: Seq<Seq<char>>,
    outcomes: Seq<Option<ImportedView>>,
    outcome: Option<ImportedView>,
)
    requires
        are_copies(rewriter, targets, outcomes),
        outcomes.len() < targets.len(),
        outcome is Some ==> is_copy_of(rewriter, targets[outcomes.len() as int], outcome->0),
    ensures
        are_copies(rewriter, targets, outcomes.push(outcome)),
{
    let more = outcomes.push(outcome);
    assert forall|k: int| 0 <= k < more.len() && #[trigger] more[k] is Some implies is_copy_of(
        rewriter,
        targets[k],
        more[k]->0,
    ) by {
        if k < outcomes.len() {
            assert(more[k] == outcomes[k]);
        }
    }
}

proof fn lemma_rewriting_step_is_sound(
    text: Seq<char>,
    rewriter: AttachmentRewriterView,
    rewriting: RewritingView,
    outcome: Option<ImportedView>,
)
    requires
        is_rewriting_of(text, rewriter, rewriting),
        rewriting !is Done,
        outcome is Some ==> is_copy_of(rewriter, next_target(rewriting)->0, outcome->0),
    ensures
        is_rewriting_of(text, rewriter, rewriting_resumed(rewriting, outcome)),
{
    match rewriting {
        RewritingView::Tokens { tokens, outcomes } => {
            let more = outcomes.push(outcome);
            lemma_one_more_outcome(rewriter, token_targets(tokens), outcomes, outcome);
            if more.len() == tokens.found.len() {
                assert(are_token_outcomes(text, rewriter, more));
                lemma_links_start_is_sound(text, rewriter, more);
            }
        },
        RewritingView::Links { links, outcomes } => {
            let token_outcomes = choose|token_outcomes: Seq<Option<ImportedView>>|
                #[trigger] are_token_outcomes(text, rewriter, token_outcomes) && links == links_after(
                    text,
                    token_outcomes,
                );
            let more = outcomes.push(outcome);
            lemma_one_more_outcome(rewriter, link_targets(links), outcomes, outcome);
            if more.len() == links.found.len() {
                assert(are_outcomes(text, rewriter, token_outcomes, more));
            }
        },
        RewritingView::Done { text } => {},
    }
}

proof fn lemma_copies_stay(
    rewriter: AttachmentRewriterView,
    targets: Seq<Seq<char>>,
    outcomes: Seq<Option<ImportedView>>,
    import: ImportView,
    event: ImportEventView,
)
    requires
        are_copies(rewriter, targets, outcomes),
    ensures
        are_copies(
            AttachmentRewriterView { copied: copied_after(rewriter, import, event), ..rewriter },
            targets,
            outcomes,
        ),
{
    let after = AttachmentRewriterView { copied: copied_after(rewriter, import, event), ..rewriter };
    assert forall|k: int| 0 <= k < outcomes.len() && #[trigger] outcomes[k] is Some implies is_copy_of(
        after,
        targets[k],
        outcomes[k]->0,
    ) by {
        lemma_copy_stays(rewriter, targets[k], outcomes[k]->0, import, event);
    }
}

proof fn lemma_rewriting_stays_sound(
    text: Seq<char>,
    rewriter: AttachmentRewriterView,
    rewriting: RewritingView,
    import: ImportView,
    event: ImportEventView,
)
    requires
        is_rewriting_of(text, rewriter, rewriting),
        rewriting !is Done,
    ensures
        is_rewriting_of(
            text,
            AttachmentRewriterView { copied: copied_after(rewriter, import, event), ..rewriter },
            rewriting,
        ),
{
    let after = AttachmentRewriterView { copied: copied_after(rewriter, import, event), ..rewriter };
    match rewriting {
        RewritingView::Tokens { tokens, outcomes } => {
            lemma_copies_stay(rewriter, token_targets(tokens), outcomes, import, event);
        },
        RewritingView::Links { links, outcomes } => {
            let token_outcomes = choose|token_outcomes: Seq<Option<ImportedView>>|
                #[trigger] are_token_outcomes(text, rewriter, token_outcomes) && links == links_after(
                    text,
                    token_outcomes,
                );
            let tokens = matches_of(BEAR_TOKEN_PATTERN@, text);
            lemma_copies_stay(rewriter, token_targets(tokens), token_outcomes, import, event);
            assert(are_token_outcomes(text, after, token_outcomes));
            lemma_copies_stay(rewriter, link_targets(links), outcomes, import, event);
        },
        RewritingView::Done { text } => {},
    }
}

proof fn lemma_next_reference_is_sound(
    export: NoteExportView,
    written: Seq<Seq<char>>,
    name: Seq<char>,
    rewriter: AttachmentRewriterView,
    rewriting: RewritingView,
)
    requires
        rewriter_is_sound(export, name, rewriter),
        is_rewriting_of(export.note.text, rewriter, rewriting),
    ensures
        export_is_sound(
            NoteExportView { phase: next_reference(export.note, name, rewriter, rewriting), ..export },
            written,
        ),
{
    match rewriting {
        RewritingView::Done { text } => {
            let (token_outcomes, link_outcomes) = choose|
                token_outcomes: Seq<Option<ImportedView>>,
                link_outcomes: Seq<Option<ImportedView>>,
            |
                #[trigger] are_outcomes(export.note.text, rewriter, token_outcomes, link_outcomes) && text
                    == rewritten(export.note.text, token_outcomes, link_outcomes);
            assert(is_made_of(
                export.note,
                rewriter,
                contents_of(export.note, text),
                token_outcomes,
                link_outcomes,
            ));
        },
        _ => {
            law_import_stays_inside_the_store(rewriter, written, next_target(rewriting)->0);
        },
    }
}

proof fn lemma_named_is_sound(
    export: NoteExportView,
    written: Seq<Seq<char>>,
    probes: Seq<Option<Seq<char>>>,
)
    ensures
        export_is_sound(
            NoteExportView {
                phase: note_named(export.mode, export.source_dirs, export.note, written, probes),
                ..export
            },
            written,
        ),
{
    match placed(export.mode, note_name(export.note.title), probes, written) {
        PlacementView::Probe(name) => {},
        PlacementView::Use(name) => {
            let rewriter = AttachmentRewriterView {
                mode: export.mode,
                source_dirs: export.source_dirs,
                assets_prefix: assets_of(name),
                copied: Seq::empty(),
            };
            lemma_start_is_sound(export.note.text, rewriter);
            lemma_next_reference_is_sound(
                export,
                written,
                name,
                rewriter,
                rewriting_started(export.note.text),
            );
        },
    }
}

/// No event makes an export unsound. So whatever happens on disk, what is
/// written for a note are its front matter and its text, in which every
/// reference is left as it was or replaced by a link to the copy of the file
/// that the reference leads to; those links lead into the directory named after
/// the note's file, and no file is copied twice for the note.
pub proof fn law_export_step_is_sound(
    export: NoteExportView,
    written: Seq<Seq<char>>,
    event: ExportEventView,
)
    requires
        export_is_sound(export, written),
    ensures
        export_is_sound(export_resumed(export, written, event), written_by(export, written, event)),
{
    match (export.phase, event) {
        (PhaseView::Directory, ExportEventView::DirectoryReady) => {
            lemma_named_is_sound(export, written, Seq::empty());
        },
        (PhaseView::Naming { probes, name }, ExportEventView::NameProbed(existing)) => {
            lemma_named_is_sound(export, written, probes.push(existing));
        },
        (
            PhaseView::Importing { name, rewriter, rewriting, import },
            ExportEventView::Imported(event),
        ) => {
            law_import_step_is_sound(rewriter, next_target(rewriting)->0, written, import, event);
            lemma_rewriting_stays_sound(export.note.text, rewriter, rewriting, import, event);
        },
        (
            PhaseView::Importing {
                name,
                rewriter,
                rewriting,
                import: ImportView::Done { outcome, found },
            },
            ExportEventView::Continue,
        ) => {
            lemma_rewriting_step_is_sound(export.note.text, rewriter, rewriting, outcome);
            lemma_next_reference_is_sound(
                export,
                written,
                name,
                rewriter,
                rewriting_resumed(rewriting, outcome),
            );
        },
        _ => {},
    }
}

/// An export after `n` attachment directories turned out not to have the file
/// that is looked for.
pub open spec fn not_found(export: NoteExportView, written: Seq<Seq<char>>, n: nat) -> NoteExportView
    decreases n,
{
    if n == 0 {
        export
    } else {
        export_resumed(
            not_found(export, written, (n - 1) as nat),
            written,
            ExportEventView::Imported(ImportEventView::Source(false)),
        )
    }
}

proof fn lemma_not_found(
    export: NoteExportView,
    written: Seq<Seq<char>>,
    name: Seq<char>,
    rewriter: AttachmentRewriterView,
    rewriting: RewritingView,
    n: nat,
)
    requires
        rewriting !is Done,
        export.phase == next_reference(export.note, name, rewriter, rewriting),
    ensures
        not_found(export, written, n).phase == (PhaseView::Importing {
            name,
            rewriter,
            rewriting,
            import: refused(rewriter, written, next_target(rewriting)->0, n),
        }),
    decreases n,
{
    if n > 0 {
        lemma_not_found(export, written, name, rewriter, rewriting, (n - 1) as nat);
    }
}

proof fn lemma_refused_outside_the_store(
    rewriter: AttachmentRewriterView,
    written: Seq<Seq<char>>,
    target: Seq<char>,
    n: nat,
)
    requires
        attachment_path(target) is None,
    ensures
        refused(rewriter, written, target, n) == (ImportView::Done { outcome: None, found: false }),
    decreases n,
{
    if n > 0 {
        lemma_refused_outside_the_store(rewriter, written, target, (n - 1) as nat);
    }
}

/// Every attachment that is referenced but missing is warned about: if no
/// attachment directory has the file of a reference, its target is reported,
/// where the reference is a Bear token, or a Markdown link whose target looks
/// like a path inside Bear's attachment store. Of other links nothing is
/// reported.
pub proof fn law_missing_attachment_is_reported(
    export: NoteExportView,
    written: Seq<Seq<char>>,
    name: Seq<char>,
    rewriter: AttachmentRewriterView,
    rewriting: RewritingView,
)
    requires
        rewriting !is Done,
        export.phase == next_reference(export.note, name, rewriter, rewriting),
    ensures
        next_target(rewriting) is Some,
        missing_target(not_found(export, written, rewriter.source_dirs.len()).phase) == if rewriting is Tokens
            || is_missing_link(rewriter, next_target(rewriting)->0) {
            next_target(rewriting)
        } else {
            None
        },
{
    let target = next_target(rewriting)->0;
    lemma_not_found(export, written, name, rewriter, rewriting, rewriter.source_dirs.len());
    if attachment_path(target) is Some {
        law_first_directory_supplies_the_file(rewriter, written, target, rewriter.source_dirs.len());
    } else {
        lemma_refused_outside_the_store(rewriter, written, target, rewriter.source_dirs.len());
    }
}

/// A Markdown link is reported for nothing else: neither one that leads
/// elsewhere, nor one whose file an attachment directory has, whatever became
/// of the copy.
pub proof fn law_other_links_are_not_reported(phase: PhaseView)
    requires
        phase matches PhaseView::Importing { rewriting, .. } && rewriting is Links,
        missing_target(phase) is Some,
    ensures
        phase matches PhaseView::Importing {
            import: ImportView::Done { outcome: None, found: false },
            ..
        },
        attachment_path(missing_target(phase)->0) is Some,
        !leads_elsewhere(missing_target(phase)->0),
{
}

/// A note replaces only what it may: it goes to the name that was asked about
/// last, and by the answer that name is not taken. So in copy mode no file had
/// it, and in the other modes none that this export wrote.
pub proof fn law_note_goes_to_a_free_name(
    export: NoteExportView,
    written: Seq<Seq<char>>,
    existing: Option<Seq<char>>,
)
    requires
        export.phase is Naming,
        export_is_sound(export, written),
    ensures
        ({
            let after = phase_after(export, written, ExportEventView::NameProbed(existing));
            &&& after is Naming <==> is_taken(export.mode, existing, written)
            &&& after matches PhaseView::Importing { name, .. } ==> name == export.phase->Naming_name
            &&& after matches PhaseView::Writing { name, .. } ==> name == export.phase->Naming_name
            &&& after !is Naming ==> {
                &&& export.mode == Mode::Copy ==> existing is None
                &&& existing is Some ==> !written.contains(existing->0)
            }
        }),
{
    if let PhaseView::Naming { probes, name } = export.phase {
        lemma_one_more_probe(export.mode, note_name(export.note.title), probes, written, existing);
    }
}

/// A note goes to the directory of its tag and keeps its name if no file has it;
/// then the references of its text are taken one after the other, with nothing
/// copied yet, and if there are none it is written as it is.
pub proof fn law_note_keeps_a_free_name(
    flat: bool,
    mode: Mode,
    source_dirs: Seq<Seq<Seq<char>>>,
    note: NoteView,
    written: Seq<Seq<char>>,
)
    ensures
        ({
            let name = sanitized(note.title) + seq!['.', 'm', 'd'];
            let start = export_started(flat, mode, source_dirs, note);
            let ready = export_resumed(start, written, ExportEventView::DirectoryReady);
            let named = export_resumed(ready, written, ExportEventView::NameProbed(None));
            &&& start.directory == directory_of(flat, note.tags)
            &&& start.phase is Directory
            &&& ready.phase == (PhaseView::Naming { probes: Seq::empty(), name })
            &&& match rewriting_started(note.text) {
                RewritingView::Done { text } => named.phase == (PhaseView::Writing {
                    name,
                    contents: contents_of(note, text),
                    attachments: 0,
                }),
                rewriting => named.phase == (PhaseView::Importing {
                    name,
                    rewriter: AttachmentRewriterView {
                        mode,
                        source_dirs,
                        assets_prefix: assets_of(name),
                        copied: Seq::empty(),
                    },
                    rewriting,
                    import: named.phase->import,
                })
            }
        }),
{
    let none = Seq::<Option<Seq<char>>>::empty();
    let name = note_name(note.title);
    law_assets_are_called_like_the_note(note.title, seq!['x']);
    law_first_free_name_is_used(mode, name, none, written, 0);
    law_first_free_name_is_used(mode, name, none.push(None), written, 0);
    assert(candidate(name, 0) == name);
}

/// The export after a reference's file was found in attachment directory number
/// `n`, the first to have it, and was copied to its own name, which was free.
pub open spec fn attachment_copied(
    export: NoteExportView,
    written: Seq<Seq<char>>,
    n: nat,
    identity: Seq<char>,
) -> NoteExportView {
    let found = export_resumed(
        not_found(export, written, n),
        written,
        ExportEventView::Imported(ImportEventView::Source(true)),
    );
    let ready = export_resumed(
        found,
        written,
        ExportEventView::Imported(ImportEventView::Directory(true)),
    );
    let named = export_resumed(ready, written, ExportEventView::Imported(ImportEventView::Probed(None)));
    export_resumed(
        named,
        written,
        ExportEventView::Imported(ImportEventView::Copied(Some(identity))),
    )
}

/// An event of an import leads from one state of it to the next, and changes
/// nothing else but what has been copied.
proof fn lemma_import_goes_on(
    export: NoteExportView,
    written: Seq<Seq<char>>,
    import: ImportView,
    event: ImportEventView,
)
    requires
        export.phase is Importing,
        export.phase->import == import,
    ensures
        ({
            let rewriter = export.phase->rewriter;
            let after = export_resumed(export, written, ExportEventView::Imported(event));
            &&& after.note == export.note
            &&& after.phase == (PhaseView::Importing {
                name: export.phase->Importing_name,
                rewriter: AttachmentRewriterView {
                    copied: copied_after(rewriter, import, event),
                    ..rewriter
                },
                rewriting: export.phase->rewriting,
                import: import_resumed(rewriter, written, import, event),
            })
        }),
{
}

#[verifier::spinoff_prover]
proof fn lemma_attachment_copied(
    export: NoteExportView,
    written: Seq<Seq<char>>,
    name: Seq<char>,
    rewriter: AttachmentRewriterView,
    rewriting: RewritingView,
    n: nat,
    identity: Seq<char>,
)
    requires
        rewriting !is Done,
        export.phase == next_reference(export.note, name, rewriter, rewriting),
        attachment_path(next_target(rewriting)->0) is Some,
        n < rewriter.source_dirs.len(),
        forall|k: int|
            0 <= k < rewriter.copied.len() ==> (#[trigger] rewriter.copied[k]).file
                != rewriter.source_dirs[n as int] + components(attachment_path(next_target(rewriting)->0)->0),
    ensures
        ({
            let parts = components(attachment_path(next_target(rewriting)->0)->0);
            let link = link_to(rewriter.assets_prefix.push(parts.last()));
            let done = attachment_copied(export, written, n, identity);
            &&& done.note == export.note
            &&& done.phase == (PhaseView::Importing {
                name,
                rewriter: AttachmentRewriterView {
                    copied: rewriter.copied.push(
                        CopiedFileView { file: rewriter.source_dirs[n as int] + parts, link },
                    ),
                    ..rewriter
                },
                rewriting,
                import: ImportView::Done {
                    outcome: Some(ImportedView { link, name: parts.last() }),
                    found: true,
                },
            })
        }),
{
    let target = next_target(rewriting)->0;
    let path = attachment_path(target)->0;
    let own_name = components(path).last();
    let source = n as int;
    lemma_not_found(export, written, name, rewriter, rewriting, n);
    lemma_not_found_keeps_note(export, written, n);
    law_found_file_is_imported(rewriter, written, target, n, identity);
    let asked = not_found(export, written, n);
    let has_file = ImportEventView::Source(true);
    let has_directory = ImportEventView::Directory(true);
    let is_free = ImportEventView::Probed(None);
    let found = export_resumed(asked, written, ExportEventView::Imported(has_file));
    let ready = export_resumed(found, written, ExportEventView::Imported(has_directory));
    let named = export_resumed(ready, written, ExportEventView::Imported(is_free));
    lemma_import_goes_on(asked, written, refused(rewriter, written, target, n), has_file);
    assert(found.phase->rewriter == rewriter);
    lemma_import_goes_on(found, written, ImportView::CreateDirectory { source, path }, has_directory);
    assert(ready.phase->rewriter == rewriter);
    lemma_import_goes_on(
        ready,
        written,
        ImportView::ProbeName { source, path, probes: Seq::empty(), name: own_name },
        is_free,
    );
    assert(named.phase->rewriter == rewriter);
    lemma_import_goes_on(
        named,
        written,
        ImportView::CopyFile { source, path, name: own_name },
        ImportEventView::Copied(Some(identity)),
    );
}

proof fn lemma_not_found_keeps_note(export: NoteExportView, written: Seq<Seq<char>>, n: nat)
    ensures
        not_found(export, written, n).note == export.note,
    decreases n,
{
    if n > 0 {
        lemma_not_found_keeps_note(export, written, (n - 1) as nat);
    }
}

/// Every attachment that is there is copied and linked, however many were before
/// it: if a directory has the file of a reference, which has no copy yet, and the
/// disk refuses nothing, there is one more copy, nothing is reported as missing,
/// and the export goes on with a link to the copy for this reference. Once there
/// are no more references the note is written, with as many attachments as there
/// are copies.
pub proof fn law_found_attachment_is_copied_and_linked(
    export: NoteExportView,
    written: Seq<Seq<char>>,
    name: Seq<char>,
    rewriter: AttachmentRewriterView,
    rewriting: RewritingView,
    n: nat,
    identity: Seq<char>,
)
    requires
        rewriting !is Done,
        export.phase == next_reference(export.note, name, rewriter, rewriting),
        attachment_path(next_target(rewriting)->0) is Some,
        n < rewriter.source_dirs.len(),
        forall|k: int|
            0 <= k < rewriter.copied.len() ==> (#[trigger] rewriter.copied[k]).file
                != rewriter.source_dirs[n as int] + components(attachment_path(next_target(rewriting)->0)->0),
    ensures
        ({
            let parts = components(attachment_path(next_target(rewriting)->0)->0);
            let link = link_to(rewriter.assets_prefix.push(parts.last()));
            let outcome = Some(ImportedView { link, name: parts.last() });
            let more = AttachmentRewriterView {
                copied: rewriter.copied.push(
                    CopiedFileView { file: rewriter.source_dirs[n as int] + parts, link },
                ),
                ..rewriter
            };
            let done = attachment_copied(export, written, n, identity);
            let next = export_resumed(done, written, ExportEventView::Continue);
            &&& done.phase == (PhaseView::Importing {
                name,
                rewriter: more,
                rewriting,
                import: ImportView::Done { outcome, found: true },
            })
            &&& missing_target(done.phase) is None
            &&& match rewriting_resumed(rewriting, outcome) {
                RewritingView::Done { text } => next.phase == (PhaseView::Writing {
                    name,
                    contents: contents_of(export.note, text),
                    attachments: rewriter.copied.len() + 1,
                }),
                after => next.phase == (PhaseView::Importing {
                    name,
                    rewriter: more,
                    rewriting: after,
                    import: next.phase->import,
                })
            }
        }),
{
    lemma_attachment_copied(export, written, name, rewriter, rewriting, n, identity);
}

/// What an outcome does to a rewriting: it is added to those known so far, and the
/// pass goes on while there is a reference without one.
pub proof fn law_outcomes_are_kept(rewriting: RewritingView, outcome: Option<ImportedView>)
    ensures
        match rewriting {
            RewritingView::Tokens { tokens, outcomes } => outcomes.len() + 1 < tokens.found.len()
                ==> rewriting_resumed(rewriting, outcome) == (RewritingView::Tokens {
                tokens,
                outcomes: outcomes + seq![outcome],
            }),
            RewritingView::Links { links, outcomes } => outcomes.len() + 1 < links.found.len()
                ==> rewriting_resumed(rewriting, outcome) == (RewritingView::Links {
                links,
                outcomes: outcomes + seq![outcome],
            }),
            RewritingView::Done { text } => rewriting_resumed(rewriting, outcome) == rewriting,
        },
{
    match rewriting {
        RewritingView::Tokens { tokens, outcomes } => {
            assert(outcomes.push(outcome) =~= outcomes + seq![outcome]);
        },
        RewritingView::Links { links, outcomes } => {
            assert(outcomes.push(outcome) =~= outcomes + seq![outcome]);
        },
        RewritingView::Done { text } => {},
    }
}

/// Every file that the export writes is on record, the note and the copies of its
/// attachments, and nothing else is; and the note counts as written once it is.
pub proof fn law_what_is_written_is_on_record(
    export: NoteExportView,
    written: Seq<Seq<char>>,
    identity: Seq<char>,
    event: ExportEventView,
)
    ensures
        export.phase is Writing ==> {
            let event = ExportEventView::Written(identity);
            &&& written_by(export, written, event) == written.push(identity)
            &&& export_resumed(export, written, event).phase == (PhaseView::Done {
                attachments: export.phase->Writing_attachments,
            })
        },
        export.phase is Importing && export.phase->import is CopyFile ==> written_by(
            export,
            written,
            ExportEventView::Imported(ImportEventView::Copied(Some(identity))),
        ) == written.push(identity),
        written_by(export, written, event) == written || (event matches ExportEventView::Written(file)
            && written_by(export, written, event) == written.push(file)) || (
        event matches ExportEventView::Imported(ImportEventView::Copied(Some(file))) && written_by(
            export,
            written,
            event,
        ) == written.push(file)),
{
}

/// Once it is known what became of a reference, the export goes on with the next
/// one, or writes the note if there is none, with everything that was copied.
pub proof fn law_export_goes_on_after_a_reference(
    export: NoteExportView,
    written: Seq<Seq<char>>,
    name: Seq<char>,
    rewriter: AttachmentRewriterView,
    rewriting: RewritingView,
    outcome: Option<ImportedView>,
    found: bool,
)
    requires
        export.phase == (PhaseView::Importing {
            name,
            rewriter,
            rewriting,
            import: ImportView::Done { outcome, found },
        }),
    ensures
        match rewriting_resumed(rewriting, outcome) {
            RewritingView::Done { text } => export_resumed(export, written, ExportEventView::Continue).phase == (
            PhaseView::Writing {
                name,
                contents: contents_of(export.note, text),
                attachments: rewriter.copied.len(),
            }),
            after => export_resumed(export, written, ExportEventView::Continue).phase == (
            PhaseView::Importing {
                name,
                rewriter,
                rewriting: after,
                import: import_started(rewriter, next_target(after)->0),
            }),
        },
        rewriting is Tokens && outcome is None ==> missing_target(export.phase) == next_target(rewriting),
        outcome is Some ==> missing_target(export.phase) is None,
{
}

/// A note that has found a name is taken up from its start: its references are
/// taken one after the other, with nothing copied yet and no outcome known, and
/// its attachments go to the directory called like the file. So it is for every
/// name, whatever the attempt.
pub proof fn law_named_note_is_taken_up(
    export: NoteExportView,
    written: Seq<Seq<char>>,
    existing: Option<Seq<char>>,
)
    requires
        export.phase is Naming,
        export_is_sound(export, written),
        existing is None || (export.mode != Mode::Copy && !written.contains(existing->0)),
    ensures
        ({
            let name = export.phase->Naming_name;
            let after = export_resumed(export, written, ExportEventView::NameProbed(existing));
            match rewriting_started(export.note.text) {
                RewritingView::Done { text } => after.phase == (PhaseView::Writing {
                    name,
                    contents: contents_of(export.note, text),
                    attachments: 0,
                }),
                rewriting => after.phase == (PhaseView::Importing {
                    name,
                    rewriter: AttachmentRewriterView {
                        mode: export.mode,
                        source_dirs: export.source_dirs,
                        assets_prefix: assets_of(name),
                        copied: Seq::empty(),
                    },
                    rewriting,
                    import: after.phase->import,
                }),
            }
        }),
{
    if let PhaseView::Naming { probes, name } = export.phase {
        lemma_one_more_probe(export.mode, note_name(export.note.title), probes, written, existing);
    }
}

} // verus!
