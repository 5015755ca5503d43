//! Making one path a hard link of a file.
//!
//! The work alternates with the disk: [`ensure_hard_link`] says what to do once
//! the destination has been looked at, and each further function takes the
//! outcome of one operation and says what comes next. The source file is never
//! looked at here: its identity was captured when it was scanned.

use vstd::prelude::*;
use vstd::string::*;

use crate::path::{parent_of, shown_path, Components, TreePath};
use crate::walk::problem_line;

verus! {

/// The identity of one file.
#[derive(Debug, Clone, Copy, PartialEq, Eq, Structural)]
pub struct InodeRef {
    /// Device number.
    pub dev: u64,
    /// Inode number.
    pub ino: u64,
}

/// What looking at a path, without following a symbolic link, tells about it.
#[derive(Debug, Clone, Copy, PartialEq, Eq, Structural)]
pub struct FileMeta {
    /// True of a regular file.
    pub is_file: bool,
    /// Device number.
    pub dev: u64,
    /// Inode number.
    pub ino: u64,
}

impl InodeRef {
    /// Captures the identity of a file that has been looked at.
    pub fn stat(meta: Result<FileMeta, String>) -> (ino: Result<InodeRef, String>)
        ensures
            match meta {
                Ok(meta) => ino == Ok::<InodeRef, String>(
                    (InodeRef { dev: meta.dev, ino: meta.ino }),
                ),
                Err(cause) => ino == Err::<InodeRef, String>(cause),
            },
    {
        match meta {
            Ok(meta) => Ok(InodeRef { dev: meta.dev, ino: meta.ino }),
            Err(cause) => Err(cause),
        }
    }

    /// True when `meta` describes this file.
    pub fn matches(&self, meta: &FileMeta) -> (same: bool)
        ensures
            same == (*self == (InodeRef { dev: meta.dev, ino: meta.ino })),
    {
        meta.dev == self.dev && meta.ino == self.ino
    }
}

/// The outcome of ensuring one hard link.
#[derive(Debug, Clone, Copy, PartialEq, Eq, Structural)]
pub enum LinkAction {
    /// The destination already was the same file; nothing was done.
    UpToDate,
    /// A new hard link was created.
    Created,
    /// The destination was something else; it was removed and linked anew.
    Replaced,
}

/// A hard link that is wanted.
#[derive(Debug)]
pub struct Link {
    /// The file to link to.
    pub src: TreePath,
    /// Where the link stands.
    pub dest: TreePath,
    /// Identity of `src`.
    pub ino: InodeRef,
}

/// The contents of a [`Link`].
pub struct LinkView {
    pub src: Components,
    pub dest: Components,
    pub ino: InodeRef,
}

impl View for Link {
    type V = LinkView;

    open spec fn view(&self) -> LinkView {
        LinkView { src: self.src@, dest: self.dest@, ino: self.ino }
    }
}

/// The contents of each link in a list.
pub open spec fn link_views(links: Seq<Link>) -> Seq<LinkView> {
    Seq::new(links.len(), |i: int| links[i]@)
}

/// What may be done for a link, by where its destination leads.
#[derive(Debug, Clone, Copy, PartialEq, Eq, Structural)]
pub enum Permit {
    /// Anything: the destination lies in an output tree.
    Full,
    /// The link may be created, but nothing removed for it: the destination leads
    /// out of the output trees.
    Create,
    /// Nothing may be written: the destination leads into the source tree.
    Nothing,
}

/// True when an action may be taken.
pub open spec fn allows(permit: Permit, action: LinkAction) -> bool {
    match action {
        LinkAction::UpToDate => true,
        LinkAction::Created => permit != Permit::Nothing,
        LinkAction::Replaced => permit == Permit::Full,
    }
}

/// The line for a link that is refused.
pub open spec fn refusal_line(link: LinkView, permit: Permit) -> Seq<char> {
    "hard link "@ + shown_path(link.dest) + " -> "@ + shown_path(link.src) + match permit {
        Permit::Nothing => " refused: it leads into the source tree"@,
        _ => " refused: it leads out of the output trees, to another file"@,
    }
}

/// What looking at a destination gave.
#[derive(Debug)]
pub enum StatReply {
    /// Something is there.
    Found(FileMeta),
    /// Nothing is there.
    Missing,
    /// The destination could not be looked at.
    Failed(String),
}

/// What an attempt to link gave.
#[derive(Debug)]
pub enum LinkReply {
    /// The link stands.
    Linked,
    /// The source or a directory on the way to the destination is missing.
    NotFound(String),
    /// Any other failure.
    Failed(String),
}

/// What to do next for a link.
#[derive(Debug)]
pub enum LinkStep {
    /// Remove the destination.
    Remove(LinkAction),
    /// Link the source to the destination.
    Link(LinkAction),
    /// Create this directory and the missing ones above it.
    CreateParent(LinkAction, TreePath),
    /// Link once more.
    Retry(LinkAction),
    /// Nothing: this was done.
    Finished(LinkAction),
    /// Nothing: this went wrong.
    Failed(String),
}

/// The contents of a [`LinkStep`].
pub enum LinkStepView {
    Remove(LinkAction),
    Link(LinkAction),
    CreateParent(LinkAction, Components),
    Retry(LinkAction),
    Finished(LinkAction),
    Failed(Seq<char>),
}

impl View for LinkStep {
    type V = LinkStepView;

    open spec fn view(&self) -> LinkStepView {
        match *self {
            LinkStep::Remove(action) => LinkStepView::Remove(action),
            LinkStep::Link(action) => LinkStepView::Link(action),
            LinkStep::CreateParent(action, dir) => LinkStepView::CreateParent(action, dir@),
            LinkStep::Retry(action) => LinkStepView::Retry(action),
            LinkStep::Finished(action) => LinkStepView::Finished(action),
            LinkStep::Failed(line) => LinkStepView::Failed(line@),
        }
    }
}

/// What a destination calls for: nothing where it already is the file, a
/// replacement where it is anything else, a new link where nothing is there.
pub open spec fn action_for(ino: InodeRef, found: Option<FileMeta>) -> LinkAction {
    match found {
        Some(meta) => if meta.is_file && ino == (InodeRef { dev: meta.dev, ino: meta.ino }) {
            LinkAction::UpToDate
        } else {
            LinkAction::Replaced
        },
        None => LinkAction::Created,
    }
}

/// The first step of an action. A dry run has none.
pub open spec fn first_step(action: LinkAction, dry_run: bool) -> LinkStepView {
    match action {
        LinkAction::UpToDate => LinkStepView::Finished(action),
        LinkAction::Replaced => if dry_run {
            LinkStepView::Finished(action)
        } else {
            LinkStepView::Remove(action)
        },
        LinkAction::Created => if dry_run {
            LinkStepView::Finished(action)
        } else {
            LinkStepView::Link(action)
        },
    }
}

/// True when an action is announced: all are with `verbose`, and a dry run
/// announces each change that it foretells.
pub open spec fn is_announced(action: LinkAction, dry_run: bool, verbose: bool) -> bool {
    verbose || (dry_run && action != LinkAction::UpToDate)
}

/// The line that announces an action.
pub open spec fn announced(action: LinkAction, dry_run: bool, dest: Components) -> Seq<char> {
    match action {
        LinkAction::UpToDate => "ok      "@ + shown_path(dest),
        LinkAction::Replaced => if dry_run {
            "would replace "@ + shown_path(dest)
        } else {
            "replace "@ + shown_path(dest)
        },
        LinkAction::Created => if dry_run {
            "would create "@ + shown_path(dest)
        } else {
            "create "@ + shown_path(dest)
        },
    }
}

/// The description of a link that could not be made.
pub open spec fn failed_link(src: Components, dest: Components) -> Seq<char> {
    "hard link "@ + shown_path(dest) + " -> "@ + shown_path(src)
        + " failed (hard links may not be supported on this filesystem)"@
}

/// The directory to create when a link attempt finds something missing.
pub open spec fn missing_parent(dest: Components) -> Option<Components> {
    match parent_of(dest) {
        Some(parent) => if parent.len() > 0 {
            Some(parent)
        } else {
            None
        },
        None => None,
    }
}

/// The contents of the outcome of one operation.
pub open spec fn outcome_view(outcome: Result<(), String>) -> Result<(), Seq<char>> {
    match outcome {
        Ok(_) => Ok(()),
        Err(cause) => Err(cause@),
    }
}

/// The contents of a [`StatReply`].
pub open spec fn stat_view(found: StatReply) -> Result<Option<FileMeta>, Seq<char>> {
    match found {
        StatReply::Found(meta) => Ok(Some(meta)),
        StatReply::Missing => Ok(None),
        StatReply::Failed(cause) => Err(cause@),
    }
}

/// The contents of a [`LinkReply`].
pub enum LinkReplyView {
    Linked,
    NotFound(Seq<char>),
    Failed(Seq<char>),
}

impl View for LinkReply {
    type V = LinkReplyView;

    open spec fn view(&self) -> LinkReplyView {
        match *self {
            LinkReply::Linked => LinkReplyView::Linked,
            LinkReply::NotFound(cause) => LinkReplyView::NotFound(cause@),
            LinkReply::Failed(cause) => LinkReplyView::Failed(cause@),
        }
    }
}

/// The step after looking at the destination. What is not permitted is refused.
pub open spec fn step_after_stat(
    link: LinkView,
    permit: Permit,
    found: Result<Option<FileMeta>, Seq<char>>,
    dry_run: bool,
) -> LinkStepView {
    match found {
        Ok(found) => if allows(permit, action_for(link.ino, found)) {
            first_step(action_for(link.ino, found), dry_run)
        } else {
            LinkStepView::Failed(refusal_line(link, permit))
        },
        Err(cause) => LinkStepView::Failed(
            "stat destination "@ + shown_path(link.dest) + ": "@ + cause,
        ),
    }
}

/// The step after removing the destination.
pub open spec fn step_after_remove(
    link: LinkView,
    action: LinkAction,
    removed: Result<(), Seq<char>>,
) -> LinkStepView {
    match removed {
        Ok(_) => LinkStepView::Link(action),
        Err(cause) => LinkStepView::Failed(
            "remove stale link "@ + shown_path(link.dest) + ": "@ + cause,
        ),
    }
}

/// The step after the first attempt to link.
pub open spec fn step_after_link(
    link: LinkView,
    action: LinkAction,
    reply: LinkReplyView,
) -> LinkStepView {
    match reply {
        LinkReplyView::Linked => LinkStepView::Finished(action),
        LinkReplyView::NotFound(_) => match missing_parent(link.dest) {
            Some(parent) => LinkStepView::CreateParent(action, parent),
            None => LinkStepView::Retry(action),
        },
        LinkReplyView::Failed(cause) => LinkStepView::Failed(
            failed_link(link.src, link.dest) + ": "@ + cause,
        ),
    }
}

/// The step after creating the directory of the destination.
pub open spec fn step_after_parent(
    action: LinkAction,
    parent: Components,
    created: Result<(), Seq<char>>,
) -> LinkStepView {
    match created {
        Ok(_) => LinkStepView::Retry(action),
        Err(cause) => LinkStepView::Failed(
            "create directory "@ + shown_path(parent) + ": "@ + cause,
        ),
    }
}

/// The step after the second attempt to link.
pub open spec fn step_after_retry(
    link: LinkView,
    action: LinkAction,
    linked: Result<(), Seq<char>>,
) -> LinkStepView {
    match linked {
        Ok(_) => LinkStepView::Finished(action),
        Err(cause) => LinkStepView::Failed(failed_link(link.src, link.dest) + ": "@ + cause),
    }
}

/// Describes a link that could not be made.
pub fn link_context(src: &TreePath, dest: &TreePath) -> (text: String)
    ensures
        text@ == failed_link(src@, dest@),
{
    let mut text = "hard link ".to_owned();
    text.append(dest.display().as_str());
    text.append(" -> ");
    text.append(src.display().as_str());
    text.append(" failed (hard links may not be supported on this filesystem)");
    text
}

/// The failure of a link, with its cause.
fn link_failure(link: &Link, cause: &String) -> (step: LinkStep)
    ensures
        step@ == LinkStepView::Failed(failed_link(link.src@, link.dest@) + ": "@ + cause@),
{
    let mut line = link_context(&link.src, &link.dest);
    line.append(": ");
    line.append(cause.as_str());
    LinkStep::Failed(line)
}

/// The line that announces an action.
fn announcement(action: LinkAction, dry_run: bool, dest: &TreePath) -> (line: String)
    ensures
        line@ == announced(action, dry_run, dest@),
{
    let mut line = match action {
        LinkAction::UpToDate => "ok      ".to_owned(),
        LinkAction::Replaced => if dry_run {
            "would replace ".to_owned()
        } else {
            "replace ".to_owned()
        },
        LinkAction::Created => if dry_run {
            "would create ".to_owned()
        } else {
            "create ".to_owned()
        },
    };
    line.append(dest.display().as_str());
    line
}

/// True when an action may be taken.
fn is_allowed(permit: Permit, action: LinkAction) -> (allowed: bool)
    ensures
        allowed == allows(permit, action),
{
    match action {
        LinkAction::UpToDate => true,
        LinkAction::Created => permit != Permit::Nothing,
        LinkAction::Replaced => permit == Permit::Full,
    }
}

/// The line for a link that is refused.
fn refusal(link: &Link, permit: Permit) -> (line: String)
    ensures
        line@ == refusal_line(link@, permit),
{
    let mut line = "hard link ".to_owned();
    line.append(link.dest.display().as_str());
    line.append(" -> ");
    line.append(link.src.display().as_str());
    match permit {
        Permit::Nothing => line.append(" refused: it leads into the source tree"),
        _ => line.append(" refused: it leads out of the output trees, to another file"),
    }
    line
}

/// Decides how to make `link.dest` a hard link of `link.src`, from what is at
/// the destination. With `verbose` the decision comes with the line that announces
/// it, and so does every change that a dry run foretells. What is not permitted is
/// refused.
pub fn ensure_hard_link(
    link: &Link,
    permit: Permit,
    found: StatReply,
    dry_run: bool,
    verbose: bool,
) -> (decided: (Option<String>, LinkStep))
    ensures
        decided.1@ == step_after_stat(link@, permit, stat_view(found), dry_run),
        match stat_view(found) {
            Ok(found) => {
                &&& decided.0 is Some <==> allows(permit, action_for(link.ino, found))
                    && is_announced(action_for(link.ino, found), dry_run, verbose)
                &&& decided.0 matches Some(line) ==> line@ == announced(
                    action_for(link.ino, found),
                    dry_run,
                    link.dest@,
                )
            },
            Err(_) => decided.0 is None,
        },
{
    let action = match found {
        StatReply::Failed(cause) => {
            let line = problem_line("stat destination ", &link.dest, cause.as_str());
            return (None, LinkStep::Failed(line));
        },
        StatReply::Found(meta) => if meta.is_file && link.ino.matches(&meta) {
            LinkAction::UpToDate
        } else {
            LinkAction::Replaced
        },
        StatReply::Missing => LinkAction::Created,
    };
    if !is_allowed(permit, action) {
        return (None, LinkStep::Failed(refusal(link, permit)));
    }
    let line = if verbose || (dry_run && action != LinkAction::UpToDate) {
        Some(announcement(action, dry_run, &link.dest))
    } else {
        None
    };
    let step = if dry_run {
        LinkStep::Finished(action)
    } else {
        match action {
            LinkAction::UpToDate => LinkStep::Finished(action),
            LinkAction::Replaced => LinkStep::Remove(action),
            LinkAction::Created => LinkStep::Link(action),
        }
    };
    (line, step)
}

/// What comes after removing the destination.
pub fn after_remove(link: &Link, action: LinkAction, removed: Result<(), String>) -> (step: LinkStep)
    ensures
        step@ == step_after_remove(link@, action, outcome_view(removed)),
{
    match removed {
        Ok(_) => LinkStep::Link(action),
        Err(cause) => LinkStep::Failed(
            problem_line("remove stale link ", &link.dest, cause.as_str()),
        ),
    }
}

/// What comes after the first attempt to link.
///
/// Where something was missing, it may be the directory of the destination: that
/// is created and the link tried once more.
pub fn do_link(link: &Link, action: LinkAction, reply: LinkReply) -> (step: LinkStep)
    ensures
        step@ == step_after_link(link@, action, reply@),
{
    match reply {
        LinkReply::Linked => LinkStep::Finished(action),
        LinkReply::NotFound(_) => match link.dest.parent() {
            Some(parent) => if parent.depth() > 0 {
                LinkStep::CreateParent(action, parent)
            } else {
                LinkStep::Retry(action)
            },
            None => LinkStep::Retry(action),
        },
        LinkReply::Failed(cause) => link_failure(link, &cause),
    }
}

/// What comes after creating the directory of the destination.
pub fn after_parent(action: LinkAction, parent: &TreePath, created: Result<(), String>) -> (step:
    LinkStep)
    ensures
        step@ == step_after_parent(action, parent@, outcome_view(created)),
{
    match created {
        Ok(_) => LinkStep::Retry(action),
        Err(cause) => LinkStep::Failed(
            problem_line("create directory ", parent, cause.as_str()),
        ),
    }
}

/// What comes after the second attempt to link.
pub fn after_retry(link: &Link, action: LinkAction, linked: Result<(), String>) -> (step: LinkStep)
    ensures
        step@ == step_after_retry(link@, action, outcome_view(linked)),
{
    match linked {
        Ok(_) => LinkStep::Finished(action),
        Err(cause) => link_failure(link, &cause),
    }
}

} // verus!
