//! What the lines say that a run announces its actions with, and those that
//! report its problems.

use vstd::prelude::*;

use crate::clean::{
    ensure_stfolder, marker_line, removal_failure, removal_line, MarkerPlan, Removal, TreeScan,
};
use crate::link::{
    announced, ensure_hard_link, failed_link, refusal_line, step_after_link, step_after_parent,
    step_after_remove, step_after_retry, step_after_stat, FileMeta, InodeRef, Link, LinkAction,
    LinkReplyView, LinkStep, LinkStepView, LinkView, Permit, StatReply,
};
use crate::path::{root_component, shown_path, Components, TreePath};
use crate::prune::prune_line;
use crate::walk::{unknown_type, unreadable_dir, unreadable_item};

verus! {

/// A line that announces a link starts with the word of the action and ends with
/// the destination.
pub proof fn announcement_starts_with_the_word_of_the_action(dest: Components)
    ensures
        announced(LinkAction::Created, false, dest) == "create "@ + shown_path(dest),
        announced(LinkAction::Replaced, false, dest) == "replace "@ + shown_path(dest),
        "ok"@.is_prefix_of(announced(LinkAction::UpToDate, false, dest)),
        announced(LinkAction::UpToDate, false, dest) == "ok      "@ + shown_path(dest),
{
    reveal_strlit("ok");
    reveal_strlit("ok      ");
    let line = announced(LinkAction::UpToDate, false, dest);
    assert(line.subrange(0, 2) =~= "ok"@);
}

/// A dry run puts `would` before a change that it foretells, and says of a link
/// that stands what any run says.
pub proof fn dry_run_says_what_would_be_done(dest: Components, action: LinkAction)
    ensures
        announced(LinkAction::Created, true, dest) == "would "@ + announced(
            LinkAction::Created,
            false,
            dest,
        ),
        announced(LinkAction::Replaced, true, dest) == "would "@ + announced(
            LinkAction::Replaced,
            false,
            dest,
        ),
        announced(LinkAction::UpToDate, true, dest) == announced(LinkAction::UpToDate, false, dest),
        "would "@.is_prefix_of(announced(action, true, dest)) <==> action != LinkAction::UpToDate,
        !"would "@.is_prefix_of(announced(action, false, dest)),
{
    reveal_strlit("would ");
    reveal_strlit("would create ");
    reveal_strlit("would replace ");
    reveal_strlit("create ");
    reveal_strlit("replace ");
    reveal_strlit("ok      ");
    assert("would create "@ =~= "would "@ + "create "@);
    assert("would replace "@ =~= "would "@ + "replace "@);
    let create = announced(LinkAction::Created, false, dest);
    let replace = announced(LinkAction::Replaced, false, dest);
    assert(announced(LinkAction::Created, true, dest) =~= "would "@ + create);
    assert(announced(LinkAction::Replaced, true, dest) =~= "would "@ + replace);
    assert(("would "@ + create).subrange(0, 6) =~= "would "@);
    assert(("would "@ + replace).subrange(0, 6) =~= "would "@);
    assert("would "@[0] == 'w');
    assert(create[0] == 'c');
    assert(replace[0] == 'r');
    assert(announced(LinkAction::UpToDate, false, dest)[0] == 'o');
    assert(forall|line: Seq<char>| #[trigger]
        "would "@.is_prefix_of(line) ==> line.len() > 0 && line[0] == line.subrange(0, 6)[0]);
}

/// Lines for different actions on one destination differ.
pub proof fn announcements_tell_actions_apart(
    dest: Components,
    a: LinkAction,
    b: LinkAction,
    dry_run: bool,
)
    ensures
        announced(a, dry_run, dest) == announced(b, dry_run, dest) <==> a == b,
{
    reveal_strlit("would create ");
    reveal_strlit("would replace ");
    reveal_strlit("create ");
    reveal_strlit("replace ");
    reveal_strlit("ok      ");
    let at: int = if dry_run {
        6
    } else {
        0
    };
    assert(announced(LinkAction::Created, dry_run, dest)[at] == 'c');
    assert(announced(LinkAction::Replaced, dry_run, dest)[at] == 'r');
    assert(announced(LinkAction::UpToDate, dry_run, dest)[0] == 'o');
    assert(dry_run ==> announced(LinkAction::Created, dry_run, dest)[0] == 'w');
    assert(dry_run ==> announced(LinkAction::Replaced, dry_run, dest)[0] == 'w');
}

/// What looking at a destination leads to, in plain terms. Nothing there: a new
/// link, unless nothing may be written. The file itself there: nothing to do.
/// Anything else there: a replacement, where anything may be done. All else is
/// refused, and an unknown destination is a failure; neither is announced.
pub proof fn decision_follows_the_destination(
    link: Link,
    permit: Permit,
    found: StatReply,
    dry_run: bool,
    verbose: bool,
    decided: (Option<String>, LinkStep),
)
    requires
        call_ensures(ensure_hard_link, (&link, permit, found, dry_run, verbose), decided),
    ensures
        ({
            let would = if dry_run {
                "would "@
            } else {
                Seq::<char>::empty()
            };
            let place = shown_path(link.dest@);
            &&& found is Missing && permit != Permit::Nothing ==> {
                &&& decided.1@ == (if dry_run {
                    LinkStepView::Finished(LinkAction::Created)
                } else {
                    LinkStepView::Link(LinkAction::Created)
                })
                &&& decided.0 is Some <==> verbose || dry_run
                &&& decided.0 matches Some(line) ==> line@ == would + "create "@ + place
            }
            &&& found is Missing && permit == Permit::Nothing ==> decided.1@ is Failed
                && decided.0 is None
            &&& found matches StatReply::Found(meta) ==> {
                let stands = meta.is_file && meta.dev == link.ino.dev && meta.ino == link.ino.ino;
                &&& stands ==> {
                    &&& decided.1@ == LinkStepView::Finished(LinkAction::UpToDate)
                    &&& decided.0 is Some <==> verbose
                    &&& decided.0 matches Some(line) ==> line@ == "ok      "@ + place
                }
                &&& !stands && permit == Permit::Full ==> {
                    &&& decided.1@ == (if dry_run {
                        LinkStepView::Finished(LinkAction::Replaced)
                    } else {
                        LinkStepView::Remove(LinkAction::Replaced)
                    })
                    &&& decided.0 is Some <==> verbose || dry_run
                    &&& decided.0 matches Some(line) ==> line@ == would + "replace "@ + place
                }
                &&& !stands && permit != Permit::Full ==> decided.1@ is Failed && decided.0 is None
            }
            &&& found matches StatReply::Failed(cause) ==> {
                &&& decided.0 is None
                &&& decided.1@ == LinkStepView::Failed("stat destination "@ + place + ": "@ + cause@)
            }
        }),
{
    let dest = link.dest@;
    dry_run_says_what_would_be_done(dest, LinkAction::Created);
    announcement_starts_with_the_word_of_the_action(dest);
    let none = Seq::<char>::empty();
    assert(none + "create "@ =~= "create "@);
    assert(none + "replace "@ =~= "replace "@);
    assert("would "@ + ("create "@ + shown_path(dest)) =~= "would "@ + "create "@ + shown_path(
        dest,
    ));
    assert("would "@ + ("replace "@ + shown_path(dest)) =~= "would "@ + "replace "@ + shown_path(
        dest,
    ));
}

/// A refusal names both ends of the link, and the two reasons for one differ.
pub proof fn refusal_names_link_and_reason(link: LinkView, permit: Permit)
    ensures
        refusal_line(link, Permit::Nothing) == "hard link "@ + shown_path(link.dest) + " -> "@
            + shown_path(link.src) + " refused: it leads into the source tree"@,
        refusal_line(link, Permit::Create) == "hard link "@ + shown_path(link.dest) + " -> "@
            + shown_path(link.src) + " refused: it leads out of the output trees, to another file"@,
        refusal_line(link, Permit::Nothing) != refusal_line(link, Permit::Create),
{
    reveal_strlit(" refused: it leads into the source tree");
    reveal_strlit(" refused: it leads out of the output trees, to another file");
    assert(refusal_line(link, Permit::Nothing).len() != refusal_line(link, Permit::Create).len());
}

/// Looking at a destination is refused for exactly two reasons: something would be
/// written into the source tree, or something removed outside the output trees.
pub proof fn link_is_refused_for_two_reasons(
    link: LinkView,
    permit: Permit,
    found: Option<FileMeta>,
    dry_run: bool,
)
    ensures
        ({
            let step = step_after_stat(link, permit, Ok(found), dry_run);
            let stands = found matches Some(meta) && meta.is_file && meta.dev == link.ino.dev
                && meta.ino == link.ino.ino;
            &&& step is Failed <==> !stands && (permit == Permit::Nothing || (permit
                == Permit::Create && found is Some))
            &&& step matches LinkStepView::Failed(line) ==> line == refusal_line(link, permit)
            &&& stands <==> step == LinkStepView::Finished(LinkAction::UpToDate)
        }),
{
}

/// What the steps of a link go through in turn. After a removal the link is
/// tried; where something is missing on the way, the directory above the
/// destination is created and the link tried once more; an action once decided on
/// stays the same; every failure ends the link, with a line that names what
/// failed, where, and why.
pub proof fn link_goes_on_until_it_stands_or_fails(
    link: LinkView,
    action: LinkAction,
    dir: Components,
    name: Seq<u8>,
    cause: Seq<char>,
)
    ensures
        step_after_remove(link, action, Ok(())) == LinkStepView::Link(action),
        step_after_remove(link, action, Err(cause)) == LinkStepView::Failed(
            "remove stale link "@ + shown_path(link.dest) + ": "@ + cause,
        ),
        step_after_link(link, action, LinkReplyView::Linked) == LinkStepView::Finished(action),
        dir.len() > 0 && name != seq![0x2fu8] ==> step_after_link(
            LinkView { dest: dir.push(name), ..link },
            action,
            LinkReplyView::NotFound(cause),
        ) == LinkStepView::CreateParent(action, dir),
        link.dest.len() <= 1 ==> step_after_link(link, action, LinkReplyView::NotFound(cause))
            == LinkStepView::Retry(action),
        step_after_link(link, action, LinkReplyView::Failed(cause)) == LinkStepView::Failed(
            "hard link "@ + shown_path(link.dest) + " -> "@ + shown_path(link.src)
                + " failed (hard links may not be supported on this filesystem)"@ + ": "@ + cause,
        ),
        step_after_parent(action, dir, Ok(())) == LinkStepView::Retry(action),
        step_after_parent(action, dir, Err(cause)) == LinkStepView::Failed(
            "create directory "@ + shown_path(dir) + ": "@ + cause,
        ),
        step_after_retry(link, action, Ok(())) == LinkStepView::Finished(action),
        step_after_retry(link, action, Err(cause)) == step_after_link(
            link,
            action,
            LinkReplyView::Failed(cause),
        ),
{
    let deep = dir.push(name);
    assert(deep.drop_last() =~= dir);
    assert(seq![0x2fu8] =~= root_component());
}

/// The line for a link that could not be made names the destination first and the
/// source behind the arrow.
pub proof fn failed_link_names_both_ends(src: Components, dest: Components)
    ensures
        ("hard link "@ + shown_path(dest) + " -> "@ + shown_path(src)).is_prefix_of(
            failed_link(src, dest),
        ),
        failed_link(src, dest) == "hard link "@ + shown_path(dest) + " -> "@ + shown_path(src)
            + " failed (hard links may not be supported on this filesystem)"@,
{
    let front = "hard link "@ + shown_path(dest) + " -> "@ + shown_path(src);
    assert(failed_link(src, dest).subrange(0, front.len() as int) =~= front);
}

/// The lines that announce the clearing of a tree start with the word of what is
/// done, with `would` before it in a dry run, and end with the path.
pub proof fn clearing_says_what_it_does(path: Components)
    ensures
        removal_line(path, false) == "remove  "@ + shown_path(path),
        removal_line(path, true) == "would "@ + removal_line(path, false),
        prune_line(path, false) == "prune  "@ + shown_path(path),
        prune_line(path, true) == "would "@ + prune_line(path, false),
        marker_line(path, false) == "create  "@ + shown_path(path),
        marker_line(path, true) == "would "@ + marker_line(path, false),
{
    reveal_strlit("would ");
    reveal_strlit("would remove  ");
    reveal_strlit("remove  ");
    reveal_strlit("would prune  ");
    reveal_strlit("prune  ");
    reveal_strlit("would create  ");
    reveal_strlit("create  ");
    assert("would remove  "@ =~= "would "@ + "remove  "@);
    assert("would prune  "@ =~= "would "@ + "prune  "@);
    assert("would create  "@ =~= "would "@ + "create  "@);
    assert(removal_line(path, true) =~= "would "@ + removal_line(path, false));
    assert(prune_line(path, true) =~= "would "@ + prune_line(path, false));
    assert(marker_line(path, true) =~= "would "@ + marker_line(path, false));
}

/// The lines on removing a file, removing a directory and creating a marker at one
/// path differ.
pub proof fn clearing_lines_differ(path: Components, dry_run: bool)
    ensures
        removal_line(path, dry_run) != prune_line(path, dry_run),
        removal_line(path, dry_run) != marker_line(path, dry_run),
        prune_line(path, dry_run) != marker_line(path, dry_run),
{
    reveal_strlit("would remove  ");
    reveal_strlit("remove  ");
    reveal_strlit("would prune  ");
    reveal_strlit("prune  ");
    reveal_strlit("would create  ");
    reveal_strlit("create  ");
    let at: int = if dry_run {
        6
    } else {
        0
    };
    assert(removal_line(path, dry_run)[at] == 'r');
    assert(prune_line(path, dry_run)[at] == 'p');
    assert(marker_line(path, dry_run)[at] == 'c');
}

/// A file is deleted only in a run that is not dry, and its removal is announced
/// in a dry run and wherever lines are asked for.
pub proof fn removals_are_announced_or_done(
    tree: TreeScan,
    dry_run: bool,
    verbose: bool,
    removals: Vec<Removal>,
    i: int,
)
    requires
        call_ensures(TreeScan::removals, (&tree, dry_run, verbose), removals),
        0 <= i < removals@.len(),
    ensures
        removals@[i].delete <==> !dry_run,
        removals@[i].line is None <==> !verbose && !dry_run,
        removals@[i].line matches Some(line) ==> line@ == (if dry_run {
            "would "@ + ("remove  "@ + shown_path(removals@[i].path@))
        } else {
            "remove  "@ + shown_path(removals@[i].path@)
        }),
{
    clearing_says_what_it_does(removals@[i].path@);
}

/// A marker that is missing is created unless the run is dry, and announced in a
/// dry run and wherever lines are asked for; one that is there is left alone.
pub proof fn missing_marker_is_created(
    root: TreePath,
    is_dir: bool,
    dry_run: bool,
    verbose: bool,
    plan: MarkerPlan,
)
    requires
        call_ensures(ensure_stfolder, (&root, is_dir, dry_run, verbose), plan),
    ensures
        is_dir ==> !plan.create && plan.line is None,
        !is_dir ==> (plan.create <==> !dry_run),
        !is_dir ==> (plan.line is Some <==> verbose || dry_run),
        plan.line matches Some(line) ==> line@ == (if dry_run {
            "would "@
        } else {
            Seq::<char>::empty()
        }) + ("create  "@ + shown_path(root@.push(vstd::utf8::encode_utf8(".stfolder"@)))),
{
    let marker = root@.push(vstd::utf8::encode_utf8(".stfolder"@));
    clearing_says_what_it_does(marker);
    let none = Seq::<char>::empty();
    assert(none + ("create  "@ + shown_path(marker)) =~= "create  "@ + shown_path(marker));
}

/// The lines on what could not be read, told apart or removed say what was tried,
/// where, and why it failed, in this order.
pub proof fn problems_say_what_where_and_why(path: Components, cause: Seq<char>)
    ensures
        unreadable_dir(path, cause) == "read directory "@ + (shown_path(path) + (": "@ + cause)),
        unreadable_item(path, cause) == "read directory entry in "@ + (shown_path(path) + (": "@
            + cause)),
        unknown_type(path, cause) == "stat "@ + (shown_path(path) + (": "@ + cause)),
        removal_failure(path, cause) == "remove unwanted file "@ + (shown_path(path) + (": "@
            + cause)),
{
    assert(unreadable_dir(path, cause) =~= "read directory "@ + (shown_path(path) + (": "@
        + cause)));
    assert(unreadable_item(path, cause) =~= "read directory entry in "@ + (shown_path(path) + (
    ": "@ + cause)));
    assert(unknown_type(path, cause) =~= "stat "@ + (shown_path(path) + (": "@ + cause)));
    assert(removal_failure(path, cause) =~= "remove unwanted file "@ + (shown_path(path) + (": "@
        + cause)));
}

/// The identity of a file is the one that looking at it told, and a file that has
/// been looked at is the same one exactly when device and number agree.
pub proof fn identity_is_device_and_number(
    told: Result<FileMeta, String>,
    ino: Result<InodeRef, String>,
    meta: FileMeta,
    same: bool,
)
    requires
        call_ensures(InodeRef::stat, (told,), ino),
        ino is Ok,
        call_ensures(InodeRef::matches, (&ino->Ok_0, &meta), same),
    ensures
        told matches Ok(first) && (same <==> first.dev == meta.dev && first.ino == meta.ino),
{
}

/// A file that could not be looked at has no identity, for the same cause.
pub proof fn no_identity_without_looking(cause: String, ino: Result<InodeRef, String>)
    requires
        call_ensures(InodeRef::stat, (Err::<FileMeta, String>(cause),), ino),
    ensures
        ino matches Err(line) && line@ == cause@,
{
}

} // verus!
