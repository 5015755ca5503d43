//! What a configuration makes of what it was given.

use vstd::prelude::*;

use crate::config::{
    config_problem, layout_message, layout_problem, one_up, resolve_existing, without_repeats,
    Config, LayoutError, Resolve, ResolveView, SourceReply,
};
use crate::model::lemma_prefixes_nest;
use crate::path::{
    dot_component, dot_dot_component, is_name, root_component, shown_path, Components, TreePath,
};
use crate::scan::rank;
use crate::stats::texts;

verus! {

/// Dropping repetitions drops nothing else: the same formats are there, each
/// once.
pub proof fn each_format_stays_once(items: Seq<Seq<char>>)
    ensures
        without_repeats(items).no_duplicates(),
        forall|item: Seq<char>| #[trigger]
            without_repeats(items).contains(item) <==> items.contains(item),
    decreases items.len(),
{
    if items.len() > 0 {
        let before = items.drop_last();
        let last = items.last();
        each_format_stays_once(before);
        let kept = without_repeats(before);
        let all = without_repeats(items);
        assert forall|item: Seq<char>| #[trigger] all.contains(item) <==> items.contains(item) by {
            lemma_contains_last(items, item);
            if !kept.contains(last) {
                lemma_contains_last(all, item);
                assert(all.drop_last() =~= kept);
            }
        }
    }
}

/// What a list holds: its last item, and what stands before it.
proof fn lemma_contains_last(items: Seq<Seq<char>>, item: Seq<char>)
    requires
        items.len() > 0,
    ensures
        items.contains(item) <==> items.drop_last().contains(item) || items.last() == item,
{
    let before = items.drop_last();
    if items.contains(item) {
        let i = choose|i: int| 0 <= i < items.len() && items[i] == item;
        if i < before.len() {
            assert(before[i] == item);
        }
    }
    if before.contains(item) {
        let i = choose|i: int| 0 <= i < before.len() && before[i] == item;
        assert(items[i] == item);
    }
    assert(items[items.len() - 1] == items.last());
}

/// Where an item of a list with one more item is found.
proof fn lemma_rank_push(items: Seq<Seq<char>>, last: Seq<char>, item: Seq<char>)
    ensures
        items.contains(item) ==> rank(items.push(last), item) == rank(items, item),
        items.contains(item) ==> rank(items, item) < items.len(),
        !items.contains(item) && item == last ==> rank(items.push(last), item) == items.len(),
    decreases items.len(),
{
    let all = items.push(last);
    if items.len() == 0 {
        reveal_with_fuel(rank, 2);
    } else if items[0] == item {
        assert(all[0] == item);
    } else {
        let rest = items.drop_first();
        lemma_rank_push(rest, last, item);
        assert(all.drop_first() =~= rest.push(last));
        assert(all[0] == items[0]);
        if items.contains(item) {
            let i = choose|i: int| 0 <= i < items.len() && items[i] == item;
            assert(rest[i - 1] == item);
        }
        if rest.contains(item) {
            let i = choose|i: int| 0 <= i < rest.len() && rest[i] == item;
            assert(items[i + 1] == item);
        }
    }
}

/// Dropping repetitions keeps the formats in the order in which they first came.
pub proof fn formats_keep_their_order(items: Seq<Seq<char>>, a: Seq<char>, b: Seq<char>)
    requires
        items.contains(a),
        items.contains(b),
    ensures
        rank(without_repeats(items), a) < rank(without_repeats(items), b) <==> rank(items, a)
            < rank(items, b),
    decreases items.len(),
{
    let before = items.drop_last();
    let last = items.last();
    let kept = without_repeats(before);
    assert(items =~= before.push(last));
    each_format_stays_once(before);
    lemma_contains_last(items, a);
    lemma_contains_last(items, b);
    lemma_rank_push(before, last, a);
    lemma_rank_push(before, last, b);
    lemma_rank_push(kept, last, a);
    lemma_rank_push(kept, last, b);
    assert(kept.contains(a) <==> before.contains(a));
    assert(kept.contains(b) <==> before.contains(b));
    if before.contains(a) && before.contains(b) {
        formats_keep_their_order(before, a, b);
    }
}

/// In an accepted layout the source directory lies in no output tree, and no path
/// lies in both output trees.
pub proof fn accepted_layout_keeps_trees_apart(
    source: Components,
    formats_root: Components,
    max_qual_root: Components,
)
    requires
        layout_problem(source, formats_root, max_qual_root) is None,
    ensures
        !formats_root.is_prefix_of(source),
        !max_qual_root.is_prefix_of(source),
        forall|p: Components| #[trigger]
            formats_root.is_prefix_of(p) ==> !max_qual_root.is_prefix_of(p),
{
    assert forall|p: Components| #[trigger] formats_root.is_prefix_of(p) implies
        !max_qual_root.is_prefix_of(p) by {
        if max_qual_root.is_prefix_of(p) {
            if formats_root.len() <= max_qual_root.len() {
                lemma_prefixes_nest(formats_root, max_qual_root, p);
            } else {
                lemma_prefixes_nest(max_qual_root, formats_root, p);
            }
        }
    }
}

/// A layout is accepted exactly when neither output root is the source directory
/// or above it, and neither is the other or above it.
pub proof fn layout_is_accepted_where_trees_are_apart(
    source: Components,
    formats_root: Components,
    max_qual_root: Components,
)
    ensures
        layout_problem(source, formats_root, max_qual_root) is None <==> {
            &&& !formats_root.is_prefix_of(source)
            &&& !max_qual_root.is_prefix_of(source)
            &&& !formats_root.is_prefix_of(max_qual_root)
            &&& !max_qual_root.is_prefix_of(formats_root)
        },
{
    lemma_own_prefix(source);
    lemma_own_prefix(formats_root);
}

/// A refusal says which directories are in each other's way: the source directory
/// comes first, and being one and the same comes before lying inside.
pub proof fn refusal_tells_what_overlaps(
    source: Components,
    formats_root: Components,
    max_qual_root: Components,
)
    ensures
        ({
            let problem = layout_problem(source, formats_root, max_qual_root);
            let same = source == formats_root || source == max_qual_root;
            let held = formats_root.is_prefix_of(source) || max_qual_root.is_prefix_of(source);
            &&& problem == Some(LayoutError::SourceIsOutput) <==> same
            &&& problem == Some(LayoutError::SourceInsideOutput) <==> held && !same
            &&& problem == Some(LayoutError::SameOutputs) <==> !held && formats_root
                == max_qual_root
            &&& problem == Some(LayoutError::NestedOutputs) <==> !held && formats_root
                != max_qual_root && (formats_root.is_prefix_of(max_qual_root)
                || max_qual_root.is_prefix_of(formats_root))
        }),
{
    lemma_own_prefix(source);
    lemma_own_prefix(formats_root);
}

/// A path is the front of itself.
proof fn lemma_own_prefix(p: Components)
    ensures
        p.is_prefix_of(p),
{
    assert(p.subrange(0, p.len() as int) =~= p);
}

/// The two output roots play the same part in a layout.
pub proof fn output_roots_can_be_swapped(
    source: Components,
    formats_root: Components,
    max_qual_root: Components,
)
    ensures
        layout_problem(source, formats_root, max_qual_root) == layout_problem(
            source,
            max_qual_root,
            formats_root,
        ),
{
}

/// Moving the source directory and both output roots into one directory changes
/// nothing in how a layout is judged.
pub proof fn layout_does_not_depend_on_where_it_lies(
    base: Components,
    source: Components,
    formats_root: Components,
    max_qual_root: Components,
)
    ensures
        layout_problem(base + source, base + formats_root, base + max_qual_root) == layout_problem(
            source,
            formats_root,
            max_qual_root,
        ),
{
    lemma_prefix_below(base, source, formats_root);
    lemma_prefix_below(base, source, max_qual_root);
    lemma_prefix_below(base, formats_root, source);
    lemma_prefix_below(base, max_qual_root, source);
    lemma_prefix_below(base, formats_root, max_qual_root);
    lemma_prefix_below(base, max_qual_root, formats_root);
}

proof fn lemma_prefix_below(base: Components, p: Components, q: Components)
    ensures
        (base + p).is_prefix_of(base + q) <==> p.is_prefix_of(q),
        base + p == base + q <==> p == q,
{
    let n: int = base.len() as int;
    assert((base + p).skip(n) =~= p);
    assert((base + q).skip(n) =~= q);
    if p.is_prefix_of(q) {
        assert(base + p =~= (base + q).subrange(0, (base + p).len() as int));
    }
    if (base + p).is_prefix_of(base + q) {
        assert(p =~= (base + q).subrange(0, (base + p).len() as int).skip(n));
        assert(p =~= q.subrange(0, p.len() as int));
    }
}

/// The messages for refused layouts differ, and those on the source directory
/// name it between brackets.
pub proof fn layout_messages_tell_the_problem(source: Components, a: LayoutError, b: LayoutError)
    ensures
        layout_message(a, source) == layout_message(b, source) <==> a == b,
        layout_message(LayoutError::SourceIsOutput, source) == "the source directory ("@
            + shown_path(source) + ") is the same as an output directory; refusing to run"@,
        layout_message(LayoutError::SourceInsideOutput, source) == "the source directory ("@
            + shown_path(source) + ") is inside an output directory; refusing to run"@,
        layout_message(LayoutError::SameOutputs, source)
            == "the formats and max-qual output directories must differ"@,
        layout_message(LayoutError::NestedOutputs, source)
            == "the output directories must not be nested inside each other"@,
{
    reveal_strlit("the source directory (");
    reveal_strlit(") is the same as an output directory; refusing to run");
    reveal_strlit(") is inside an output directory; refusing to run");
    reveal_strlit("the formats and max-qual output directories must differ");
    reveal_strlit("the output directories must not be nested inside each other");
    let is_output = layout_message(LayoutError::SourceIsOutput, source);
    let inside = layout_message(LayoutError::SourceInsideOutput, source);
    let same = layout_message(LayoutError::SameOutputs, source);
    let nested = layout_message(LayoutError::NestedOutputs, source);
    assert(is_output.len() != inside.len());
    assert(is_output[4] == 's' && inside[4] == 's' && same[4] == 'f' && nested[4] == 'o');
}

/// A configuration is accepted exactly when there is a format, the source is a
/// directory, both output directories could be resolved, and the layout is fine.
pub proof fn configuration_is_accepted_when_nothing_is_wrong(
    source: SourceReply,
    formats_root: Result<TreePath, String>,
    max_qual_root: Result<TreePath, String>,
    formats: Seq<Seq<char>>,
)
    ensures
        config_problem(source, formats_root, max_qual_root, formats) is None <==> {
            &&& formats.len() > 0
            &&& source matches SourceReply::Resolved(path, is_dir)
            &&& is_dir
            &&& formats_root matches Ok(f)
            &&& max_qual_root matches Ok(m)
            &&& !f@.is_prefix_of(path@)
            &&& !m@.is_prefix_of(path@)
            &&& !f@.is_prefix_of(m@)
            &&& !m@.is_prefix_of(f@)
        },
{
    if source is Resolved && formats_root is Ok && max_qual_root is Ok {
        layout_is_accepted_where_trees_are_apart(
            source->Resolved_0@,
            formats_root->Ok_0@,
            max_qual_root->Ok_0@,
        );
    }
}

/// Of several things that are wrong with a configuration the first is told: that
/// no format was given, then what is wrong with the source directory, then with
/// the formats root, then with the other root, then with the layout.
pub proof fn first_problem_of_a_configuration_is_told(
    source: SourceReply,
    formats_root: Result<TreePath, String>,
    max_qual_root: Result<TreePath, String>,
    formats: Seq<Seq<char>>,
)
    ensures
        ({
            let problem = config_problem(source, formats_root, max_qual_root, formats);
            let listed = formats.len() > 0;
            let usable = listed && source is Resolved && source->Resolved_1;
            &&& !listed ==> problem == Some("at least one format is required (use -f)"@)
            &&& listed ==> (source matches SourceReply::Failed(shown, cause) ==> problem == Some(
                "resolving source directory "@ + shown@ + ": "@ + cause@,
            ))
            &&& listed && source is Resolved && !usable ==> problem == Some(
                "source "@ + shown_path(source->Resolved_0@) + " is not a directory"@,
            )
            &&& usable ==> (formats_root matches Err(line) ==> problem == Some(line@))
            &&& usable && formats_root is Ok ==> (max_qual_root matches Err(line) ==> problem
                == Some(line@))
            &&& usable ==> (formats_root matches Ok(f) ==> (max_qual_root matches Ok(m) ==> match (
            layout_problem(source->Resolved_0@, f@, m@)) {
                Some(error) => problem == Some(layout_message(error, source->Resolved_0@)),
                None => problem is None,
            }))
        }),
{
}

/// A configuration that is accepted holds what it was given: the directories as
/// they were resolved, the formats without repetitions, and both switches.
pub proof fn accepted_configuration_holds_what_was_given(
    source: SourceReply,
    formats_root: Result<TreePath, String>,
    max_qual_root: Result<TreePath, String>,
    format_order: Vec<String>,
    verbose: bool,
    dry_run: bool,
    result: Result<Config, String>,
)
    requires
        call_ensures(
            Config::new,
            (source, formats_root, max_qual_root, format_order, verbose, dry_run),
            result,
        ),
    ensures
        result is Ok <==> config_problem(
            source,
            formats_root,
            max_qual_root,
            texts(format_order@),
        ) is None,
        result matches Ok(config) ==> {
            &&& source matches SourceReply::Resolved(path, is_dir) && is_dir && config.source@
                == path@
            &&& formats_root matches Ok(path) && config.formats_root@ == path@
            &&& max_qual_root matches Ok(path) && config.max_qual_root@ == path@
            &&& config.verbose == verbose
            &&& config.dry_run == dry_run
            &&& texts(config.format_order@).no_duplicates()
            &&& forall|format: Seq<char>| #[trigger]
                texts(config.format_order@).contains(format) <==> texts(format_order@).contains(
                    format,
                )
        },
{
    each_format_stays_once(texts(format_order@));
}

/// A path that does not exist can be looked for one directory up exactly when it
/// ends with a plain name.
pub proof fn resolution_goes_up_from_plain_names_only(resolve: ResolveView)
    ensures
        one_up(resolve) is Ok <==> {
            &&& resolve.current.len() > 0
            &&& resolve.current.last() != seq![0x2fu8]
            &&& resolve.current.last() != seq![0x2eu8]
            &&& resolve.current.last() != seq![0x2eu8, 0x2eu8]
        },
        one_up(resolve) matches Err(line) ==> line == "cannot resolve path "@ + resolve.shown,
{
    assert(root_component() =~= seq![0x2fu8]);
    assert(dot_component() =~= seq![0x2eu8]);
    assert(dot_dot_component() =~= seq![0x2eu8, 0x2eu8]);
}

/// A path whose last `n` names are missing is resolved to the canonical form of
/// what exists, followed by those names in their order.
pub proof fn resolved_path_ends_with_the_missing_names(
    resolve: Resolve,
    path: Components,
    n: nat,
    canonical: Result<TreePath, String>,
    result: Result<TreePath, String>,
)
    requires
        n <= path.len(),
        forall|i: int| path.len() - n <= i < path.len() ==> is_name(#[trigger] path[i]),
        climbed(ResolveView { shown: resolve@.shown, missing: seq![], current: path }, n) == Ok::<
            ResolveView,
            Seq<char>,
        >(resolve@),
        call_ensures(Resolve::there, (resolve, canonical), result),
    ensures
        canonical matches Ok(base) ==> {
            &&& result matches Ok(found)
            &&& found@ == base@ + path.skip(path.len() - n)
        },
        canonical matches Err(cause) ==> {
            &&& result matches Err(line)
            &&& line@ == "resolving output directory "@ + resolve@.shown + ": "@ + cause@
        },
{
    resolution_keeps_the_missing_names(path, resolve@.shown, n);
}

/// A resolution that starts and ends without a missing name gives the canonical
/// form of the path as it is.
pub proof fn existing_path_is_resolved_as_it_is(
    path: TreePath,
    shown: String,
    resolve: Resolve,
    base: TreePath,
    result: Result<TreePath, String>,
)
    requires
        call_ensures(resolve_existing, (path, shown), resolve),
        call_ensures(Resolve::there, (resolve, Ok::<TreePath, String>(base)), result),
    ensures
        resolve@.current == path@,
        resolve@.shown == shown@,
        result matches Ok(found) && found@ == base@,
{
    assert(resolve@.missing.reverse() =~= seq![]);
    assert(base@ + resolve@.missing.reverse() =~= base@);
}

/// A resolution after `n` paths were found not to exist.
pub open spec fn climbed(resolve: ResolveView, n: nat) -> Result<ResolveView, Seq<char>>
    decreases n,
{
    if n == 0 {
        Ok(resolve)
    } else {
        match climbed(resolve, (n - 1) as nat) {
            Err(line) => Err(line),
            Ok(before) => one_up(before),
        }
    }
}

/// Resolving a path whose last `n` names are missing climbs to what is left of
/// it, or to the current directory, and keeps the missing names in their order.
pub proof fn resolution_keeps_the_missing_names(path: Components, shown: Seq<char>, n: nat)
    requires
        n <= path.len(),
        forall|i: int| path.len() - n <= i < path.len() ==> is_name(#[trigger] path[i]),
    ensures
        ({
            let start = ResolveView { shown, missing: seq![], current: path };
            let left = path.take(path.len() - n);
            &&& climbed(start, n) matches Ok(end)
            &&& end.shown == shown
            &&& end.missing.reverse() == path.skip(path.len() - n)
            &&& end.current == (if left.len() == 0 && n > 0 {
                seq![dot_component()]
            } else {
                left
            })
        }),
    decreases n,
{
    let start = ResolveView { shown, missing: seq![], current: path };
    if n == 0 {
        assert(path.take(path.len() as int) =~= path);
        assert(start.missing.reverse() =~= path.skip(path.len() as int));
    } else {
        let fewer = (n - 1) as nat;
        resolution_keeps_the_missing_names(path, shown, fewer);
        let before = climbed(start, fewer)->Ok_0;
        let end = climbed(start, n)->Ok_0;
        let name = path[path.len() - n];
        let wider = path.take(path.len() - fewer);
        assert(wider.len() > 0);
        assert(before.current == wider);
        assert(wider.last() == name);
        assert(is_name(path[path.len() - n]));
        assert(wider.drop_last() =~= path.take(path.len() - n));
        assert(end.missing == before.missing.push(name));
        assert(end.missing.reverse() =~= seq![name] + before.missing.reverse());
        assert(path.skip(path.len() - n) =~= seq![name] + path.skip(path.len() - fewer));
    }
}

} // verus!
