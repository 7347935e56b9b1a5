//! Rewriting attachment references to standard Markdown links.
//!
//! A note's text is rewritten in two passes. Bear 1.x embeds attachments with
//! a proprietary `[image:…]`/`[file:…]` syntax; the first pass turns those
//! into standard Markdown. Bear 2.x already uses Markdown links whose targets
//! are paths inside its attachment store; the second pass re-targets those at
//! the copied files. Links to anything else are left untouched.
use crate::links::lemma_encode_concat;
use crate::patterns::{
    find, is_link, is_search, is_token, law_matches_rejoin, law_no_bracket_no_reference,
    lemma_ascii_byte_is_char, lemma_covering_match, lemma_link_determined, matches_of, regex_captures,
    replaced_matches, slice, taken_apart, well_placed, MatchView, Matches, MatchesView, TextMatch,
    BEAR_TOKEN_PATTERN, MARKDOWN_LINK_PATTERN,
};
use crate::text::{option_view, same};
use vstd::prelude::*;
use vstd::utf8::*;

verus! {

/// An attachment that was copied next to its note.
pub struct Imported {
    /// The link to use in Markdown.
    pub link: String,
    /// The attachment's file name.
    pub name: String,
}

/// What an [`Imported`] holds.
pub struct ImportedView {
    pub link: Seq<char>,
    pub name: Seq<char>,
}

impl View for Imported {
    type V = ImportedView;

    open spec fn view(&self) -> ImportedView {
        ImportedView { link: self.link@, name: self.name@ }
    }
}

/// What became of a reference: the attachment, or nothing if it leads to none.
pub open spec fn outcome_view(outcome: Option<Imported>) -> Option<ImportedView> {
    match outcome {
        Some(imported) => Some(imported@),
        None => None,
    }
}

/// What became of each reference.
pub open spec fn outcome_views(outcomes: Seq<Option<Imported>>) -> Seq<Option<ImportedView>> {
    outcomes.map_values(|outcome: Option<Imported>| outcome_view(outcome))
}

/// What becomes of the `k`-th reference; nothing where it was not said.
pub open spec fn outcome_of(outcomes: Seq<Option<ImportedView>>, k: int) -> Option<ImportedView> {
    if 0 <= k < outcomes.len() {
        outcomes[k]
    } else {
        None
    }
}

/// A Bear token as Markdown: an image or a link with the attachment's name,
/// or the token itself if its attachment was not found.
pub open spec fn rewritten_token(token: MatchView, outcome: Option<ImportedView>) -> Seq<char> {
    match outcome {
        Some(imported) => (if token.groups[1] == "image"@ {
            "!["@
        } else {
            "["@
        }) + imported.name + "]("@ + imported.link + ")"@,
        None => token.groups[0],
    }
}

/// A Markdown link that leads to the copied attachment: a link without a label
/// gets the attachment's name, every other label stays. The link itself if it
/// does not lead to an attachment.
pub open spec fn rewritten_link(link: MatchView, outcome: Option<ImportedView>) -> Seq<char> {
    match outcome {
        Some(imported) => link.groups[1] + "["@ + (if link.groups[2].len() == 0 && link.groups[1].len()
            == 0 {
            imported.name
        } else {
            link.groups[2]
        }) + "]("@ + imported.link + ")"@,
        None => link.groups[0],
    }
}

/// The text with its Bear tokens rewritten.
pub open spec fn tokens_rewritten(tokens: MatchesView, outcomes: Seq<Option<ImportedView>>) -> Seq<char> {
    tokens.replaced(
        Seq::new(tokens.found.len(), |k: int| rewritten_token(tokens.found[k], outcome_of(outcomes, k))),
    )
}

/// The text with its Markdown links rewritten.
pub open spec fn links_rewritten(links: MatchesView, outcomes: Seq<Option<ImportedView>>) -> Seq<char> {
    links.replaced(
        Seq::new(links.found.len(), |k: int| rewritten_link(links.found[k], outcome_of(outcomes, k))),
    )
}

/// A note's text after both passes, given what became of each Bear token, and
/// of each Markdown link in the text that the first pass leaves.
pub open spec fn rewritten(
    text: Seq<char>,
    token_outcomes: Seq<Option<ImportedView>>,
    link_outcomes: Seq<Option<ImportedView>>,
) -> Seq<char> {
    let tokens = matches_of(BEAR_TOKEN_PATTERN@, text);
    let links = matches_of(MARKDOWN_LINK_PATTERN@, tokens_rewritten(tokens, token_outcomes));
    links_rewritten(links, link_outcomes)
}

fn rewrite_token(token: &TextMatch, outcome: &Option<Imported>) -> (res: String)
    requires
        token@.groups.len() == 3,
    ensures
        res@ == rewritten_token(token@, outcome_view(*outcome)),
{
    assert(token@.groups[0] == token.groups@[0]@);
    assert(token@.groups[1] == token.groups@[1]@);
    match outcome {
        Some(imported) => {
            let mut result = if same(token.groups[1].as_str(), "image") {
                "![".to_owned()
            } else {
                "[".to_owned()
            };
            result.push_str(imported.name.as_str());
            result.push_str("](");
            result.push_str(imported.link.as_str());
            result.push_str(")");
            result
        },
        None => token.groups[0].clone(),
    }
}

fn rewrite_link(link: &TextMatch, outcome: &Option<Imported>) -> (res: String)
    requires
        link@.groups.len() == 4,
    ensures
        res@ == rewritten_link(link@, outcome_view(*outcome)),
{
    assert(link@.groups[0] == link.groups@[0]@);
    assert(link@.groups[1] == link.groups@[1]@);
    assert(link@.groups[2] == link.groups@[2]@);
    match outcome {
        Some(imported) => {
            let mut result = link.groups[1].clone();
            result.push_str("[");
            if link.groups[2].as_str().is_empty() && link.groups[1].as_str().is_empty() {
                result.push_str(imported.name.as_str());
            } else {
                result.push_str(link.groups[2].as_str());
            }
            result.push_str("](");
            result.push_str(imported.link.as_str());
            result.push_str(")");
            result
        },
        None => link.groups[0].clone(),
    }
}

proof fn lemma_one_more_replaced(found: Seq<MatchView>, replacements: Seq<Seq<char>>, k: int)
    requires
        0 <= k < found.len(),
    ensures
        replaced_matches(found.take(k + 1), replacements) == replaced_matches(found.take(k), replacements)
            + found[k].before + replacements[k],
{
    assert(found.take(k + 1).drop_last() == found.take(k));
}

/// Rewrites the Bear tokens of a text.
pub fn rewrite_tokens(tokens: &Matches, outcomes: &Vec<Option<Imported>>) -> (res: String)
    requires
        tokens@.has_groups(2),
    ensures
        res@ == tokens_rewritten(tokens@, outcome_views(outcomes@)),
{
    let ghost replacements = Seq::new(
        tokens@.found.len(),
        |k: int| rewritten_token(tokens@.found[k], outcome_of(outcome_views(outcomes@), k)),
    );
    let mut result = String::new();
    for k in 0..tokens.found.len()
        invariant
            tokens@.has_groups(2),
            replacements == Seq::new(
                tokens@.found.len(),
                |k: int| rewritten_token(tokens@.found[k], outcome_of(outcome_views(outcomes@), k)),
            ),
            result@ == replaced_matches(tokens@.found.take(k as int), replacements),
    {
        let token = &tokens.found[k];
        assert(token@ == tokens@.found[k as int]);
        proof {
            lemma_one_more_replaced(tokens@.found, replacements, k as int);
        }
        result.push_str(token.before.as_str());
        let replacement = if k < outcomes.len() {
            rewrite_token(token, &outcomes[k])
        } else {
            rewrite_token(token, &None)
        };
        assert(replacement@ == replacements[k as int]);
        result.push_str(replacement.as_str());
    }
    assert(tokens@.found.take(tokens@.found.len() as int) == tokens@.found);
    result.push_str(tokens.rest.as_str());
    result
}

/// Rewrites the Markdown links of a text.
pub fn rewrite_links(links: &Matches, outcomes: &Vec<Option<Imported>>) -> (res: String)
    requires
        links@.has_groups(3),
    ensures
        res@ == links_rewritten(links@, outcome_views(outcomes@)),
{
    let ghost replacements = Seq::new(
        links@.found.len(),
        |k: int| rewritten_link(links@.found[k], outcome_of(outcome_views(outcomes@), k)),
    );
    let mut result = String::new();
    for k in 0..links.found.len()
        invariant
            links@.has_groups(3),
            replacements == Seq::new(
                links@.found.len(),
                |k: int| rewritten_link(links@.found[k], outcome_of(outcome_views(outcomes@), k)),
            ),
            result@ == replaced_matches(links@.found.take(k as int), replacements),
    {
        let link = &links.found[k];
        assert(link@ == links@.found[k as int]);
        proof {
            lemma_one_more_replaced(links@.found, replacements, k as int);
        }
        result.push_str(link.before.as_str());
        let replacement = if k < outcomes.len() {
            rewrite_link(link, &outcomes[k])
        } else {
            rewrite_link(link, &None)
        };
        assert(replacement@ == replacements[k as int]);
        result.push_str(replacement.as_str());
    }
    assert(links@.found.take(links@.found.len() as int) == links@.found);
    result.push_str(links.rest.as_str());
    result
}

/// The rewriting of one note's text, which goes on as it is told what became
/// of each reference.
pub struct Rewriting {
    state: RewritingState,
}

enum RewritingState {
    Tokens { tokens: Matches, outcomes: Vec<Option<Imported>> },
    Links { links: Matches, outcomes: Vec<Option<Imported>> },
    Done { text: String },
}

/// How far a [`Rewriting`] has come.
pub enum RewritingView {
    /// The first pass, with the outcomes known so far.
    Tokens { tokens: MatchesView, outcomes: Seq<Option<ImportedView>> },
    /// The second pass, with the outcomes known so far.
    Links { links: MatchesView, outcomes: Seq<Option<ImportedView>> },
    /// The rewritten text.
    Done { text: Seq<char> },
}

/// The second pass with these outcomes: done once there is one for each link.
pub open spec fn links_pass(links: MatchesView, outcomes: Seq<Option<ImportedView>>) -> RewritingView {
    if outcomes.len() < links.found.len() {
        RewritingView::Links { links, outcomes }
    } else {
        RewritingView::Done { text: links_rewritten(links, outcomes) }
    }
}

/// The first pass with these outcomes: the second follows once there is one
/// for each token.
pub open spec fn tokens_pass(tokens: MatchesView, outcomes: Seq<Option<ImportedView>>) -> RewritingView {
    if outcomes.len() < tokens.found.len() {
        RewritingView::Tokens { tokens, outcomes }
    } else {
        links_pass(
            matches_of(MARKDOWN_LINK_PATTERN@, tokens_rewritten(tokens, outcomes)),
            Seq::empty(),
        )
    }
}

/// The start of the rewriting of a text.
pub open spec fn rewriting_started(text: Seq<char>) -> RewritingView {
    tokens_pass(matches_of(BEAR_TOKEN_PATTERN@, text), Seq::empty())
}

/// The rewriting once it is known what became of the next reference.
pub open spec fn rewriting_resumed(rewriting: RewritingView, outcome: Option<ImportedView>) -> RewritingView {
    match rewriting {
        RewritingView::Tokens { tokens, outcomes } => tokens_pass(tokens, outcomes.push(outcome)),
        RewritingView::Links { links, outcomes } => links_pass(links, outcomes.push(outcome)),
        RewritingView::Done { text } => rewriting,
    }
}

/// The targets of Bear tokens: group 2 of each.
pub open spec fn token_targets(tokens: MatchesView) -> Seq<Seq<char>> {
    tokens.found.map_values(|token: MatchView| token.groups[2])
}

/// The targets of Markdown links: group 3 of each.
pub open spec fn link_targets(links: MatchesView) -> Seq<Seq<char>> {
    links.found.map_values(|link: MatchView| link.groups[3])
}

/// The target of the reference whose outcome has to be found out next: group 2
/// of a token, group 3 of a link.
pub open spec fn next_target(rewriting: RewritingView) -> Option<Seq<char>> {
    match rewriting {
        RewritingView::Tokens { tokens, outcomes } => Some(tokens.found[outcomes.len() as int].groups[2]),
        RewritingView::Links { links, outcomes } => Some(links.found[outcomes.len() as int].groups[3]),
        RewritingView::Done { text } => None,
    }
}

impl Rewriting {
    #[verifier::type_invariant]
    spec fn well_formed(self) -> bool {
        match self.state {
            RewritingState::Tokens { tokens, outcomes } => tokens@.has_groups(2) && outcomes@.len()
                < tokens@.found.len(),
            RewritingState::Links { links, outcomes } => links@.has_groups(3) && outcomes@.len()
                < links@.found.len(),
            RewritingState::Done { text } => true,
        }
    }

    /// How far the rewriting has come.
    pub closed spec fn view(&self) -> RewritingView {
        match self.state {
            RewritingState::Tokens { tokens, outcomes } => RewritingView::Tokens {
                tokens: tokens@,
                outcomes: outcome_views(outcomes@),
            },
            RewritingState::Links { links, outcomes } => RewritingView::Links {
                links: links@,
                outcomes: outcome_views(outcomes@),
            },
            RewritingState::Done { text } => RewritingView::Done { text: text@ },
        }
    }

    fn links(links: Matches, outcomes: Vec<Option<Imported>>) -> (res: Rewriting)
        requires
            links@.has_groups(3),
        ensures
            res@ == links_pass(links@, outcome_views(outcomes@)),
    {
        if outcomes.len() < links.found.len() {
            Rewriting { state: RewritingState::Links { links, outcomes } }
        } else {
            Rewriting { state: RewritingState::Done { text: rewrite_links(&links, &outcomes) } }
        }
    }

    fn tokens(tokens: Matches, outcomes: Vec<Option<Imported>>) -> (res: Rewriting)
        requires
            tokens@.has_groups(2),
        ensures
            res@ == tokens_pass(tokens@, outcome_views(outcomes@)),
            links_searched(tokens@, outcome_views(outcomes@)),
    {
        if outcomes.len() < tokens.found.len() {
            Rewriting { state: RewritingState::Tokens { tokens, outcomes } }
        } else {
            let text = rewrite_tokens(&tokens, &outcomes);
            let none: Vec<Option<Imported>> = Vec::new();
            assert(outcome_views(none@) == Seq::<Option<ImportedView>>::empty());
            Rewriting::links(find(MARKDOWN_LINK_PATTERN, text.as_str()), none)
        }
    }

    /// Starts to rewrite a note's text. A text without `[` is rewritten at once,
    /// to itself.
    pub fn start(text: &str) -> (res: Rewriting)
        ensures
            res@ == rewriting_started(text@),
            is_searched(BEAR_TOKEN_PATTERN@, text@),
            links_searched(matches_of(BEAR_TOKEN_PATTERN@, text@), Seq::empty()),
            !text@.contains('[') ==> res@ == (RewritingView::Done { text: text@ }),
    {
        let none: Vec<Option<Imported>> = Vec::new();
        assert(outcome_views(none@) == Seq::<Option<ImportedView>>::empty());
        let tokens = find(BEAR_TOKEN_PATTERN, text);
        let rewriting = Rewriting::tokens(tokens, none);
        proof {
            if !text@.contains('[') {
                let spans = regex_captures(BEAR_TOKEN_PATTERN@, text@);
                law_no_bracket_no_reference(BEAR_TOKEN_PATTERN@, text@, spans);
                law_other_text_is_untouched(text@, spans, Seq::empty());
                law_text_without_references(text@);
            }
        }
        rewriting
    }

    /// The target of the next reference, unless the rewriting is done.
    pub fn target(&self) -> (res: Option<String>)
        ensures
            option_view(res) == next_target(self@),
    {
        proof {
            use_type_invariant(self);
        }
        match &self.state {
            RewritingState::Tokens { tokens, outcomes } => {
                let token = &tokens.found[outcomes.len()];
                assert(token@ == tokens@.found[outcomes@.len() as int]);
                assert(token@.groups[2] == token.groups@[2]@);
                Some(token.groups[2].clone())
            },
            RewritingState::Links { links, outcomes } => {
                let link = &links.found[outcomes.len()];
                assert(link@ == links@.found[outcomes@.len() as int]);
                assert(link@.groups[3] == link.groups@[3]@);
                Some(link.groups[3].clone())
            },
            RewritingState::Done { text } => None,
        }
    }

    /// Goes on with what became of the next reference.
    pub fn resume(self, outcome: Option<Imported>) -> (res: Rewriting)
        ensures
            res@ == rewriting_resumed(self@, outcome_view(outcome)),
            self@ matches RewritingView::Tokens { tokens, outcomes } ==> links_searched(
                tokens,
                outcomes.push(outcome_view(outcome)),
            ),
    {
        proof {
            use_type_invariant(&self);
        }
        match self.state {
            RewritingState::Tokens { tokens, mut outcomes } => {
                let ghost before = outcome_views(outcomes@);
                outcomes.push(outcome);
                assert(outcome_views(outcomes@) == before.push(outcome_view(outcome)));
                Rewriting::tokens(tokens, outcomes)
            },
            RewritingState::Links { links, mut outcomes } => {
                let ghost before = outcome_views(outcomes@);
                outcomes.push(outcome);
                assert(outcome_views(outcomes@) == before.push(outcome_view(outcome)));
                Rewriting::links(links, outcomes)
            },
            RewritingState::Done { text } => Rewriting { state: RewritingState::Done { text } },
        }
    }

    /// The target to warn about if this is what became of the next reference:
    /// that of a Bear token whose attachment was not found. A Markdown link may
    /// lead anywhere; whether it is an attachment's is not told by the text
    /// alone, but by what the import knows.
    pub fn missing(&self, outcome: &Option<Imported>) -> (res: Option<String>)
        ensures
            option_view(res) == if self@ is Tokens && outcome is None {
                next_target(self@)
            } else {
                None
            },
    {
        match (&self.state, outcome) {
            (RewritingState::Tokens { tokens: _, outcomes: _ }, None) => self.target(),
            _ => None,
        }
    }

    /// The rewritten text, once the rewriting is done.
    pub fn text(&self) -> (res: Option<String>)
        ensures
            option_view(res) == match self@ {
                RewritingView::Done { text } => Some(text),
                _ => None,
            },
    {
        match &self.state {
            RewritingState::Done { text } => Some(text.clone()),
            _ => None,
        }
    }
}

/// Whether what a search of a text found is as the pattern says.
pub open spec fn is_searched(pattern: Seq<char>, text: Seq<char>) -> bool {
    is_search(pattern, text, regex_captures(pattern, text))
}

/// Whether the text that the first pass makes has been searched for links, if
/// these outcomes complete that pass.
pub open spec fn links_searched(tokens: MatchesView, outcomes: Seq<Option<ImportedView>>) -> bool {
    outcomes.len() >= tokens.found.len() ==> is_searched(
        MARKDOWN_LINK_PATTERN@,
        tokens_rewritten(tokens, outcomes),
    )
}

/// A text without `[`, and so without references, is rewritten to itself
/// before anything has to be found out.
pub proof fn law_text_without_references(text: Seq<char>)
    requires
        is_searched(BEAR_TOKEN_PATTERN@, text),
        is_searched(MARKDOWN_LINK_PATTERN@, text),
        !text.contains('['),
    ensures
        rewriting_started(text) == (RewritingView::Done { text }),
{
    let tokens = regex_captures(BEAR_TOKEN_PATTERN@, text);
    let links = regex_captures(MARKDOWN_LINK_PATTERN@, text);
    law_no_bracket_no_reference(BEAR_TOKEN_PATTERN@, text, tokens);
    law_no_bracket_no_reference(MARKDOWN_LINK_PATTERN@, text, links);
    law_other_text_is_untouched(text, tokens, Seq::empty());
    law_other_text_is_untouched(text, links, Seq::empty());
}

/// The rewriting once it is known what became of several references in turn.
pub open spec fn rewriting_resumed_with(
    rewriting: RewritingView,
    outcomes: Seq<Option<ImportedView>>,
) -> RewritingView
    decreases outcomes.len(),
{
    if outcomes.len() == 0 {
        rewriting
    } else {
        rewriting_resumed(rewriting_resumed_with(rewriting, outcomes.drop_last()), outcomes.last())
    }
}

/// The links in a text once its tokens have been rewritten.
pub open spec fn links_after(text: Seq<char>, token_outcomes: Seq<Option<ImportedView>>) -> MatchesView {
    matches_of(
        MARKDOWN_LINK_PATTERN@,
        tokens_rewritten(matches_of(BEAR_TOKEN_PATTERN@, text), token_outcomes),
    )
}

proof fn lemma_rewriting_so_far(text: Seq<char>, outcomes: Seq<Option<ImportedView>>)
    ensures
        ({
            let tokens = matches_of(BEAR_TOKEN_PATTERN@, text);
            let for_tokens = outcomes.take(tokens.found.len() as int);
            let for_links = outcomes.skip(tokens.found.len() as int);
            let links = links_after(text, for_tokens);
            rewriting_resumed_with(rewriting_started(text), outcomes) == if outcomes.len()
                < tokens.found.len() {
                tokens_pass(tokens, outcomes)
            } else if for_links.len() <= links.found.len() {
                links_pass(links, for_links)
            } else {
                links_pass(links, for_links.take(links.found.len() as int))
            }
        }),
    decreases outcomes.len(),
{
    let tokens = matches_of(BEAR_TOKEN_PATTERN@, text);
    let n = tokens.found.len() as int;
    if outcomes.len() == 0 {
        assert(outcomes == Seq::<Option<ImportedView>>::empty());
        assert(n == 0 ==> outcomes.take(n) == outcomes && outcomes.skip(n) == outcomes);
    } else {
        let before = outcomes.drop_last();
        lemma_rewriting_so_far(text, before);
        assert(before.push(outcomes.last()) == outcomes);
        if outcomes.len() == n {
            assert(outcomes.take(n) == outcomes);
            assert(outcomes.skip(n) == Seq::<Option<ImportedView>>::empty());
        } else if outcomes.len() > n {
            let links = links_after(text, outcomes.take(n));
            let m = links.found.len() as int;
            assert(before.take(n) == outcomes.take(n));
            assert(before.skip(n).push(outcomes.last()) == outcomes.skip(n));
            if outcomes.skip(n).len() > m {
                assert(outcomes.skip(n).take(m) == before.skip(n).take(m));
                assert(before.skip(n).len() == m ==> before.skip(n).take(m) == before.skip(n));
            }
        }
    }
}

/// The rewriting is done once it knows what became of every reference, with
/// the text that the two passes make of the note's text.
pub proof fn law_rewriting_is_two_passes(
    text: Seq<char>,
    token_outcomes: Seq<Option<ImportedView>>,
    link_outcomes: Seq<Option<ImportedView>>,
)
    requires
        token_outcomes.len() == matches_of(BEAR_TOKEN_PATTERN@, text).found.len(),
        link_outcomes.len() == links_after(text, token_outcomes).found.len(),
    ensures
        rewriting_resumed_with(rewriting_started(text), token_outcomes + link_outcomes) == (
        RewritingView::Done { text: rewritten(text, token_outcomes, link_outcomes) }),
        rewritten(text, token_outcomes, link_outcomes) == links_rewritten(
            matches_of(
                MARKDOWN_LINK_PATTERN@,
                tokens_rewritten(matches_of(BEAR_TOKEN_PATTERN@, text), token_outcomes),
            ),
            link_outcomes,
        ),
{
    let all = token_outcomes + link_outcomes;
    lemma_rewriting_so_far(text, all);
    assert(all.take(token_outcomes.len() as int) == token_outcomes);
    assert(all.skip(token_outcomes.len() as int) == link_outcomes);
}

/// Whatever it is told, a rewriting ends with nothing else than the two passes:
/// the text that it ends with is the note's text with the first outcomes for
/// its tokens, and those that follow for its links.
pub proof fn law_rewriting_ends_with_two_passes(
    text: Seq<char>,
    outcomes: Seq<Option<ImportedView>>,
    result: Seq<char>,
)
    requires
        rewriting_resumed_with(rewriting_started(text), outcomes) == (RewritingView::Done {
            text: result,
        }),
    ensures
        ({
            let n = matches_of(BEAR_TOKEN_PATTERN@, text).found.len() as int;
            let m = links_after(text, outcomes.take(n)).found.len() as int;
            &&& n + m <= outcomes.len()
            &&& result == rewritten(text, outcomes.take(n), outcomes.skip(n).take(m))
        }),
{
    lemma_rewriting_so_far(text, outcomes);
    let n = matches_of(BEAR_TOKEN_PATTERN@, text).found.len() as int;
    let m = links_after(text, outcomes.take(n)).found.len() as int;
    let link_outcomes = outcomes.skip(n).take(m);
    assert(outcomes.skip(n).len() == m ==> link_outcomes == outcomes.skip(n));
}

/// References that lead to no attachment are left untouched, and so is
/// everything around them: where no token, or no link, leads to one, the pass
/// leaves the text as it is.
pub proof fn law_other_text_is_untouched(
    text: Seq<char>,
    captures: Seq<Seq<(int, int)>>,
    outcomes: Seq<Option<ImportedView>>,
)
    requires
        well_placed(captures, encode_utf8(text)),
        forall|k: int| 0 <= k < outcomes.len() ==> #[trigger] outcomes[k] is None,
    ensures
        tokens_rewritten(taken_apart(text, captures), outcomes) == text,
        links_rewritten(taken_apart(text, captures), outcomes) == text,
{
    let parts = taken_apart(text, captures);
    law_matches_rejoin(text, captures);
    assert(Seq::new(
        parts.found.len(),
        |k: int| rewritten_token(parts.found[k], outcome_of(outcomes, k)),
    ) == parts.wholes());
    assert(Seq::new(
        parts.found.len(),
        |k: int| rewritten_link(parts.found[k], outcome_of(outcomes, k)),
    ) == parts.wholes());
}

proof fn lemma_middle_slice(a: Seq<char>, b: Seq<char>, c: Seq<char>)
    ensures
        slice(
            a + b + c,
            encode_utf8(a).len() as int,
            (encode_utf8(a).len() + encode_utf8(b).len()) as int,
        ) == b,
{
    let start = encode_utf8(a).len() as int;
    lemma_encode_concat(a + b, c);
    lemma_encode_concat(a, b);
    assert(encode_utf8(a + b + c).subrange(start, start + encode_utf8(b).len()) =~= encode_utf8(b));
    encode_utf8_decode_utf8(b);
}

proof fn lemma_no_such_byte(text: Seq<char>, c: char)
    requires
        c < '\u{80}',
        !text.contains(c),
    ensures
        forall|i: int| 0 <= i < encode_utf8(text).len() ==> #[trigger] encode_utf8(text)[i] != c as u8,
{
    assert forall|i: int| 0 <= i < encode_utf8(text).len() implies #[trigger] encode_utf8(text)[i] != c as u8 by {
        if encode_utf8(text)[i] == c as u8 {
            lemma_ascii_byte_is_char(text, i, c);
        }
    }
}

/// What is written as a link or an image is found as one.
proof fn lemma_link_is_found(
    bang: Seq<char>,
    label: Seq<char>,
    target: Seq<char>,
    captures: Seq<Seq<(int, int)>>,
)
    requires
        bang == Seq::<char>::empty() || bang == seq!['!'],
        !label.contains(']') && !label.contains('\n'),
        target.len() > 0 && !target.contains(')') && !target.contains('\n'),
        is_search(
            MARKDOWN_LINK_PATTERN@,
            bang + seq!['['] + label + seq![']', '('] + target + seq![')'],
            captures,
        ),
    ensures
        ({
            let link = bang + seq!['['] + label + seq![']', '('] + target + seq![')'];
            let matches = taken_apart(link, captures);
            &&& matches.found.len() == 1
            &&& matches.found[0].before == Seq::<char>::empty()
            &&& matches.found[0].groups == seq![link, bang, label, target]
            &&& matches.rest == Seq::<char>::empty()
        }),
{
    let open = seq!['['];
    let middle = seq![']', '('];
    let close = seq![')'];
    let link = bang + open + label + middle + target + close;
    let bytes = encode_utf8(link);
    lemma_encode_concat(bang + open + label + middle + target, close);
    lemma_encode_concat(bang + open + label + middle, target);
    lemma_encode_concat(bang + open + label, middle);
    lemma_encode_concat(bang + open, label);
    lemma_encode_concat(bang, open);
    is_ascii_chars_encode_utf8(open);
    is_ascii_chars_encode_utf8(middle);
    is_ascii_chars_encode_utf8(close);
    is_ascii_chars_encode_utf8(bang);
    let b = encode_utf8(bang);
    let l = encode_utf8(label);
    let t = encode_utf8(target);
    let b_end = b.len() as int;
    let l_end = b_end + 1 + l.len();
    let t_end = l_end + 2 + t.len();
    assert(bytes == b + encode_utf8(open) + l + encode_utf8(middle) + t + encode_utf8(close));
    assert(bytes.len() == t_end + 1);
    lemma_no_such_byte(label, ']');
    lemma_no_such_byte(label, '\n');
    lemma_no_such_byte(target, ')');
    lemma_no_such_byte(target, '\n');
    lemma_text_has_bytes(target);
    let m = seq![(0int, t_end + 1), (0int, b_end), (b_end + 1, l_end), (l_end + 2, t_end)];
    assert(bytes[b_end] == '[' as u8);
    assert(bytes[l_end] == ']' as u8);
    assert(bytes[l_end + 1] == '(' as u8);
    assert(bytes[t_end] == ')' as u8);
    assert forall|i: int| m[2].0 <= i < m[2].1 implies #[trigger] bytes[i] != ']' as u8 && bytes[i]
        != '\n' as u8 by {
        assert(bytes[i] == l[i - b_end - 1]);
    }
    assert forall|i: int| m[3].0 <= i < m[3].1 implies #[trigger] bytes[i] != ')' as u8 && bytes[i]
        != '\n' as u8 by {
        assert(bytes[i] == t[i - l_end - 2]);
    }
    assert(is_link(bytes, m));
    let is_match = |found: Seq<(int, int)>| is_link(bytes, found);
    assert(is_match(m));
    let k = lemma_covering_match(captures, 0);
    assert(is_match(captures[k]));
    if k > 0 {
        assert(is_match(captures[0]));
        assert(captures[0][0].1 <= captures[k][0].0);
    }
    lemma_link_determined(bytes, captures[0], m);
    if captures.len() > 1 {
        assert(is_match(captures[1]));
        assert(captures[0][0].1 <= captures[1][0].0);
    }
    let none = Seq::<char>::empty();
    assert(none + link + none == link);
    lemma_middle_slice(none, link, none);
    assert(none + bang + (open + label + middle + target + close) == link);
    lemma_middle_slice(none, bang, open + label + middle + target + close);
    assert((bang + open) + label + (middle + target + close) == link);
    lemma_middle_slice(bang + open, label, middle + target + close);
    assert((bang + open + label + middle) + target + close == link);
    lemma_middle_slice(bang + open + label + middle, target, close);
    assert(encode_utf8(none) == Seq::<u8>::empty());
    let groups = captures[0].map_values(|span: (int, int)| slice(link, span.0, span.1));
    assert(groups =~= seq![link, bang, label, target]);
    assert(bytes.subrange(0, 0) == Seq::<u8>::empty());
    assert(bytes.subrange(t_end + 1, t_end + 1) == Seq::<u8>::empty());
    assert(decode_utf8(Seq::<u8>::empty()) == none) by {
        encode_utf8_decode_utf8(none);
    }
}

proof fn lemma_text_has_bytes(text: Seq<char>)
    requires
        text.len() > 0,
    ensures
        encode_utf8(text).len() > 0,
{
    if encode_utf8(text).len() == 0 {
        assert(encode_utf8(text) =~= encode_utf8(Seq::<char>::empty()));
        encode_utf8_decode_utf8(text);
        encode_utf8_decode_utf8(Seq::<char>::empty());
    }
}

/// A link that was rewritten is read as before, but for where it leads: searched
/// again it is one link, an image if and only if it was one, with the same label
/// (a link without one, that is no image, now has the name of the attachment),
/// and with the link to the copy as its target. A link that leads to no
/// attachment stays as it was.
pub proof fn law_rewritten_link_is_read_as_before(
    link: MatchView,
    imported: ImportedView,
    captures: Seq<Seq<(int, int)>>,
)
    requires
        link.groups.len() == 4,
        link.groups[1] == Seq::<char>::empty() || link.groups[1] == seq!['!'],
        !link.groups[2].contains(']') && !link.groups[2].contains('\n'),
        !imported.name.contains(']') && !imported.name.contains('\n'),
        imported.link.len() > 0 && !imported.link.contains(')') && !imported.link.contains('\n'),
        is_search(MARKDOWN_LINK_PATTERN@, rewritten_link(link, Some(imported)), captures),
    ensures
        ({
            let matches = taken_apart(rewritten_link(link, Some(imported)), captures);
            &&& matches.found.len() == 1
            &&& matches.found[0].before.len() == 0
            &&& matches.rest.len() == 0
            &&& matches.found[0].groups.len() == 4
            &&& matches.found[0].groups[1] == link.groups[1]
            &&& link.groups[2].len() > 0 || link.groups[1].len() > 0 ==> matches.found[0].groups[2]
                == link.groups[2]
            &&& link.groups[2].len() == 0 && link.groups[1].len() == 0 ==> matches.found[0].groups[2]
                == imported.name
            &&& matches.found[0].groups[3] == imported.link
        }),
        rewritten_link(link, None) == link.groups[0],
{
    reveal_strlit("[");
    reveal_strlit("](");
    reveal_strlit(")");
    assert("["@ =~= seq!['[']);
    assert("]("@ =~= seq![']', '(']);
    assert(")"@ =~= seq![')']);
    let label = if link.groups[2].len() == 0 && link.groups[1].len() == 0 {
        imported.name
    } else {
        link.groups[2]
    };
    lemma_link_is_found(link.groups[1], label, imported.link, captures);
}

/// The parts of a rewritten link, whatever they hold: it begins with what stood
/// before its bracket, its label stands behind the bracket, and it ends with the
/// link to the copy.
pub proof fn law_parts_of_rewritten_link(link: MatchView, imported: ImportedView)
    requires
        link.groups.len() == 4,
    ensures
        ({
            let text = rewritten_link(link, Some(imported));
            let start = link.groups[1].len() as int;
            let end = text.len() - imported.link.len() - 3;
            let label = text.subrange(start + 1, end);
            &&& start < end
            &&& text.take(start) == link.groups[1]
            &&& text[start] == '['
            &&& label == link.groups[2] || (label == imported.name && link.groups[2].len() == 0 && start == 0)
            &&& link.groups[2].len() == 0 && start == 0 ==> label == imported.name
            &&& text.skip(end) == seq![']', '('] + imported.link + seq![')']
        }),
{
    reveal_strlit("[");
    reveal_strlit("](");
    reveal_strlit(")");
    let text = rewritten_link(link, Some(imported));
    let start = link.groups[1].len() as int;
    let end = text.len() - imported.link.len() - 3;
    let label = if link.groups[2].len() == 0 && link.groups[1].len() == 0 {
        imported.name
    } else {
        link.groups[2]
    };
    assert(text.take(start) =~= link.groups[1]);
    assert(text.subrange(start + 1, end) =~= label);
    assert(text.skip(end) =~= seq![']', '('] + imported.link + seq![')']);
}

/// The parts of a rewritten token, whatever they hold: it begins with `!` if it is
/// that of an image, the name stands in brackets, and it ends with the link to
/// the copy.
pub proof fn law_parts_of_rewritten_token(token: MatchView, imported: ImportedView)
    requires
        token.groups.len() == 3,
    ensures
        ({
            let text = rewritten_token(token, Some(imported));
            let start = if token.groups[1] == seq!['i', 'm', 'a', 'g', 'e'] {
                1int
            } else {
                0
            };
            let end = text.len() - imported.link.len() - 3;
            &&& start < end
            &&& start == 1 ==> text[0] == '!'
            &&& text[start] == '['
            &&& text.subrange(start + 1, end) == imported.name
            &&& text.skip(end) == seq![']', '('] + imported.link + seq![')']
        }),
{
    reveal_strlit("[");
    reveal_strlit("![");
    reveal_strlit("](");
    reveal_strlit(")");
    reveal_strlit("image");
    assert("image"@ =~= seq!['i', 'm', 'a', 'g', 'e']);
    let text = rewritten_token(token, Some(imported));
    let start = if token.groups[1] == "image"@ {
        1int
    } else {
        0
    };
    let end = text.len() - imported.link.len() - 3;
    assert(text.subrange(start + 1, end) =~= imported.name);
    assert(text.skip(end) =~= seq![']', '('] + imported.link + seq![')']);
}

/// A Bear token that was rewritten is standard Markdown: searched for links it is
/// one, an image if and only if the token was that of an image, with the name of
/// the attachment as its label and the link to the copy as its target. A token
/// that leads to no attachment stays as it was.
pub proof fn law_rewritten_token_is_markdown(
    token: MatchView,
    imported: ImportedView,
    captures: Seq<Seq<(int, int)>>,
)
    requires
        token.groups.len() == 3,
        !imported.name.contains(']') && !imported.name.contains('\n'),
        imported.link.len() > 0 && !imported.link.contains(')') && !imported.link.contains('\n'),
        is_search(MARKDOWN_LINK_PATTERN@, rewritten_token(token, Some(imported)), captures),
    ensures
        ({
            let matches = taken_apart(rewritten_token(token, Some(imported)), captures);
            &&& matches.found.len() == 1
            &&& matches.found[0].before.len() == 0
            &&& matches.rest.len() == 0
            &&& matches.found[0].groups.len() == 4
            &&& matches.found[0].groups[1] == if token.groups[1] == seq!['i', 'm', 'a', 'g', 'e'] {
                seq!['!']
            } else {
                Seq::empty()
            }
            &&& matches.found[0].groups[2] == imported.name
            &&& matches.found[0].groups[3] == imported.link
        }),
        rewritten_token(token, None) == token.groups[0],
{
    reveal_strlit("[");
    reveal_strlit("![");
    reveal_strlit("](");
    reveal_strlit(")");
    reveal_strlit("image");
    assert("["@ =~= Seq::<char>::empty() + seq!['[']);
    assert("!["@ =~= seq!['!'] + seq!['[']);
    assert("]("@ =~= seq![']', '(']);
    assert(")"@ =~= seq![')']);
    assert("image"@ =~= seq!['i', 'm', 'a', 'g', 'e']);
    let bang = if token.groups[1] == "image"@ {
        seq!['!']
    } else {
        Seq::empty()
    };
    lemma_link_is_found(bang, imported.name, imported.link, captures);
}

proof fn lemma_replaced_same(found: Seq<MatchView>, a: Seq<Seq<char>>, b: Seq<Seq<char>>)
    requires
        forall|k: int| 0 <= k < found.len() ==> #[trigger] a[k] == b[k],
    ensures
        replaced_matches(found, a) == replaced_matches(found, b),
    decreases found.len(),
{
    if found.len() > 0 {
        lemma_replaced_same(found.drop_last(), a, b);
        assert(a[found.len() - 1] == b[found.len() - 1]);
    }
}

proof fn lemma_replaced_concat(a: Seq<MatchView>, b: Seq<MatchView>, replacements: Seq<Seq<char>>)
    requires
        replacements.len() == a.len() + b.len(),
    ensures
        replaced_matches(a + b, replacements) == replaced_matches(a, replacements) + replaced_matches(
            b,
            replacements.skip(a.len() as int),
        ),
    decreases b.len(),
{
    if b.len() == 0 {
        assert(a + b == a);
        assert(replaced_matches(a, replacements) + Seq::<char>::empty() == replaced_matches(a, replacements));
    } else {
        let fewer = b.drop_last();
        let shorter = replacements.drop_last();
        lemma_replaced_concat(a, fewer, shorter);
        assert((a + b).drop_last() == a + fewer);
        assert((a + b).last() == b.last());
        lemma_replaced_same(a + fewer, replacements, shorter);
        lemma_replaced_same(a, replacements, shorter);
        assert forall|k: int| 0 <= k < fewer.len() implies #[trigger] replacements.skip(a.len() as int)[k]
            == shorter.skip(a.len() as int)[k] by {}
        lemma_replaced_same(fewer, replacements.skip(a.len() as int), shorter.skip(a.len() as int));
        assert(replacements.skip(a.len() as int)[b.len() - 1] == replacements[a.len() + b.len() - 1]);
        assert(replaced_matches(a + b, replacements) =~= replaced_matches(a, replacements)
            + replaced_matches(b, replacements.skip(a.len() as int)));
    }
}

/// Every reference is rewritten, wherever it stands, and all else is kept: the
/// rewritten text is put together of what is made of its parts. Where the
/// references are `a` and then `b`, it is what is made of the text up to the end
/// of `a`, and then what is made of the rest; a single reference has what stands
/// before and behind it around its replacement.
pub proof fn law_every_reference_is_rewritten(
    a: Seq<MatchView>,
    b: Seq<MatchView>,
    rest: Seq<char>,
    outcomes: Seq<Option<ImportedView>>,
    reference: MatchView,
    outcome: Option<ImportedView>,
)
    requires
        outcomes.len() >= a.len(),
    ensures
        tokens_rewritten(MatchesView { found: a + b, rest }, outcomes) == tokens_rewritten(
            MatchesView { found: a, rest: Seq::empty() },
            outcomes.take(a.len() as int),
        ) + tokens_rewritten(MatchesView { found: b, rest }, outcomes.skip(a.len() as int)),
        links_rewritten(MatchesView { found: a + b, rest }, outcomes) == links_rewritten(
            MatchesView { found: a, rest: Seq::empty() },
            outcomes.take(a.len() as int),
        ) + links_rewritten(MatchesView { found: b, rest }, outcomes.skip(a.len() as int)),
        tokens_rewritten(MatchesView { found: seq![reference], rest }, seq![outcome]) == reference.before
            + rewritten_token(reference, outcome) + rest,
        links_rewritten(MatchesView { found: seq![reference], rest }, seq![outcome]) == reference.before
            + rewritten_link(reference, outcome) + rest,
        tokens_rewritten(MatchesView { found: Seq::empty(), rest }, outcomes) == rest,
        links_rewritten(MatchesView { found: Seq::empty(), rest }, outcomes) == rest,
{
    let n = a.len() as int;
    let tokens = |found: Seq<MatchView>, outcomes: Seq<Option<ImportedView>>|
        Seq::new(found.len(), |k: int| rewritten_token(found[k], outcome_of(outcomes, k)));
    let links = |found: Seq<MatchView>, outcomes: Seq<Option<ImportedView>>|
        Seq::new(found.len(), |k: int| rewritten_link(found[k], outcome_of(outcomes, k)));
    lemma_replaced_concat(a, b, tokens(a + b, outcomes));
    lemma_replaced_same(a, tokens(a + b, outcomes), tokens(a, outcomes.take(n)));
    assert(tokens(a + b, outcomes).skip(n) =~= tokens(b, outcomes.skip(n)));
    lemma_replaced_concat(a, b, links(a + b, outcomes));
    lemma_replaced_same(a, links(a + b, outcomes), links(a, outcomes.take(n)));
    assert(links(a + b, outcomes).skip(n) =~= links(b, outcomes.skip(n)));
    assert(tokens_rewritten(MatchesView { found: a + b, rest }, outcomes) =~= tokens_rewritten(
        MatchesView { found: a, rest: Seq::empty() },
        outcomes.take(n),
    ) + tokens_rewritten(MatchesView { found: b, rest }, outcomes.skip(n)));
    assert(links_rewritten(MatchesView { found: a + b, rest }, outcomes) =~= links_rewritten(
        MatchesView { found: a, rest: Seq::empty() },
        outcomes.take(n),
    ) + links_rewritten(MatchesView { found: b, rest }, outcomes.skip(n)));
    let one = seq![reference];
    assert(one.drop_last() == Seq::<MatchView>::empty());
    assert(replaced_matches(Seq::<MatchView>::empty(), tokens(one, seq![outcome])) == Seq::<char>::empty());
    assert(replaced_matches(Seq::<MatchView>::empty(), links(one, seq![outcome])) == Seq::<char>::empty());
    assert(tokens_rewritten(MatchesView { found: one, rest }, seq![outcome]) =~= reference.before
        + rewritten_token(reference, outcome) + rest);
    assert(links_rewritten(MatchesView { found: one, rest }, seq![outcome]) =~= reference.before
        + rewritten_link(reference, outcome) + rest);
    assert(tokens_rewritten(MatchesView { found: Seq::empty(), rest }, outcomes) =~= rest);
    assert(links_rewritten(MatchesView { found: Seq::empty(), rest }, outcomes) =~= rest);
}

/// The references of a note are asked for one after the other, none left out:
/// first the targets of the Bear tokens of its text, and then those of the
/// Markdown links of the text that the first pass makes.
pub proof fn law_references_are_asked_for_in_order(text: Seq<char>, outcomes: Seq<Option<ImportedView>>)
    requires
        is_searched(BEAR_TOKEN_PATTERN@, text),
        links_searched(
            matches_of(BEAR_TOKEN_PATTERN@, text),
            outcomes.take(regex_captures(BEAR_TOKEN_PATTERN@, text).len() as int),
        ),
    ensures
        ({
            let tokens = regex_captures(BEAR_TOKEN_PATTERN@, text);
            let n = tokens.len() as int;
            let k = outcomes.len() as int;
            let second = tokens_rewritten(matches_of(BEAR_TOKEN_PATTERN@, text), outcomes.take(n));
            let links = regex_captures(MARKDOWN_LINK_PATTERN@, second);
            next_target(rewriting_resumed_with(rewriting_started(text), outcomes)) == if k < n {
                Some(slice(text, tokens[k][2].0, tokens[k][2].1))
            } else if k - n < links.len() {
                Some(slice(second, links[k - n][3].0, links[k - n][3].1))
            } else {
                None
            }
        }),
{
    let tokens = regex_captures(BEAR_TOKEN_PATTERN@, text);
    let n = tokens.len() as int;
    let k = outcomes.len() as int;
    let second = tokens_rewritten(matches_of(BEAR_TOKEN_PATTERN@, text), outcomes.take(n));
    let links = regex_captures(MARKDOWN_LINK_PATTERN@, second);
    lemma_rewriting_so_far(text, outcomes);
    if k < n {
        assert(is_token(encode_utf8(text), tokens[k]));
    } else {
        assert(outcomes.take(n).len() == n);
        if k - n < links.len() {
            assert(is_link(encode_utf8(second), links[k - n]));
        }
    }
}

} // verus!
