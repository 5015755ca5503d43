//! The configuration of a run and the layouts that are refused.

use vstd::prelude::*;
use vstd::string::*;

use crate::path::{
    byte_views, dot_component, file_name_of, parent_of, shown_path, strictly_under, Components,
    TreePath,
};
use crate::scan::format_rank;
use crate::stats::texts;

verus! {

/// A layout that could damage the library.
#[derive(Debug, Clone, Copy, PartialEq, Eq, Structural)]
pub enum LayoutError {
    /// The source directory is an output directory.
    SourceIsOutput,
    /// The source directory lies inside an output directory.
    SourceInsideOutput,
    /// The output directories are one and the same.
    SameOutputs,
    /// One output directory lies inside the other.
    NestedOutputs,
}

/// What is wrong with a layout, if anything.
pub open spec fn layout_problem(
    source: Components,
    formats_root: Components,
    max_qual_root: Components,
) -> Option<LayoutError> {
    if source == formats_root || source == max_qual_root {
        Some(LayoutError::SourceIsOutput)
    } else if strictly_under(source, formats_root) || strictly_under(source, max_qual_root) {
        Some(LayoutError::SourceInsideOutput)
    } else if formats_root == max_qual_root {
        Some(LayoutError::SameOutputs)
    } else if strictly_under(formats_root, max_qual_root) || strictly_under(
        max_qual_root,
        formats_root,
    ) {
        Some(LayoutError::NestedOutputs)
    } else {
        None
    }
}

/// The message for a refused layout.
pub open spec fn layout_message(error: LayoutError, source: Components) -> Seq<char> {
    match error {
        LayoutError::SourceIsOutput => "the source directory ("@ + shown_path(source)
            + ") is the same as an output directory; refusing to run"@,
        LayoutError::SourceInsideOutput => "the source directory ("@ + shown_path(source)
            + ") is inside an output directory; refusing to run"@,
        LayoutError::SameOutputs => "the formats and max-qual output directories must differ"@,
        LayoutError::NestedOutputs => "the output directories must not be nested inside each other"@,
    }
}

/// True when `path` lies strictly below `ancestor`.
pub fn is_under(path: &TreePath, ancestor: &TreePath) -> (under: bool)
    ensures
        under == strictly_under(path@, ancestor@),
{
    !path.same(ancestor) && path.starts_with(ancestor)
}

/// Refuses layouts that could damage the library: the source directory must not
/// be, or lie inside, an output directory, and the output directories must not
/// overlap. Output directories inside the source directory are fine.
pub fn check_layout(
    source: &TreePath,
    formats_root: &TreePath,
    max_qual_root: &TreePath,
) -> (result: Result<(), LayoutError>)
    ensures
        match result {
            Ok(_) => layout_problem(source@, formats_root@, max_qual_root@) is None,
            Err(error) => layout_problem(source@, formats_root@, max_qual_root@) == Some(error),
        },
{
    if source.same(formats_root) || source.same(max_qual_root) {
        return Err(LayoutError::SourceIsOutput);
    }
    if is_under(source, formats_root) || is_under(source, max_qual_root) {
        return Err(LayoutError::SourceInsideOutput);
    }
    if formats_root.same(max_qual_root) {
        return Err(LayoutError::SameOutputs);
    }
    if is_under(formats_root, max_qual_root) || is_under(max_qual_root, formats_root) {
        return Err(LayoutError::NestedOutputs);
    }
    Ok(())
}

impl LayoutError {
    /// The message for a layout refused with this source directory.
    pub fn message(&self, source: &TreePath) -> (text: String)
        ensures
            text@ == layout_message(*self, source@),
    {
        match self {
            LayoutError::SourceIsOutput => {
                let mut text = "the source directory (".to_owned();
                text.append(source.display().as_str());
                text.append(") is the same as an output directory; refusing to run");
                text
            },
            LayoutError::SourceInsideOutput => {
                let mut text = "the source directory (".to_owned();
                text.append(source.display().as_str());
                text.append(") is inside an output directory; refusing to run");
                text
            },
            LayoutError::SameOutputs => {
                "the formats and max-qual output directories must differ".to_owned()
            },
            LayoutError::NestedOutputs => {
                "the output directories must not be nested inside each other".to_owned()
            },
        }
    }
}

/// A list without its repetitions; first occurrences keep their order.
pub open spec fn without_repeats(items: Seq<Seq<char>>) -> Seq<Seq<char>>
    decreases items.len(),
{
    if items.len() == 0 {
        seq![]
    } else {
        let before = without_repeats(items.drop_last());
        if before.contains(items.last()) {
            before
        } else {
            before.push(items.last())
        }
    }
}

/// Drops repeated formats.
fn distinct_formats(formats: Vec<String>) -> (distinct: Vec<String>)
    ensures
        texts(distinct@) == without_repeats(texts(formats@)),
{
    let mut distinct: Vec<String> = Vec::new();
    let ghost all = texts(formats@);
    assert(all.take(0) =~= seq![]);
    assert(texts(distinct@) =~= without_repeats(all.take(0)));
    for format in it: formats
        invariant
            it.seq() == formats@,
            all == texts(formats@),
            texts(distinct@) == without_repeats(all.take(it.index())),
    {
        let ghost i = it.index();
        let ghost before = distinct@;
        proof {
            assert(all.take(i + 1).drop_last() =~= all.take(i));
            assert(all.take(i + 1).last() == format@);
        }
        if format_rank(&distinct, &format) == distinct.len() {
            distinct.push(format);
            assert(texts(distinct@) =~= texts(before).push(format@));
        }
    }
    assert(all.take(all.len() as int) =~= all);
    distinct
}

/// What resolving the source directory gave.
#[derive(Debug)]
pub enum SourceReply {
    /// Its canonical path, and whether a directory is there.
    Resolved(TreePath, bool),
    /// The path as it was given, and why it could not be resolved.
    Failed(String, String),
}

/// A validated configuration of a run.
#[derive(Debug, Clone)]
pub struct Config {
    /// Canonical source directory, never modified.
    pub source: TreePath,
    /// Canonical root of the per-format link trees.
    pub formats_root: TreePath,
    /// Canonical root of the best-quality link tree.
    pub max_qual_root: TreePath,
    /// Managed formats, best first, without repetitions.
    pub format_order: Vec<String>,
    /// Announce each action on a file.
    pub verbose: bool,
    /// Report planned actions without touching the disk.
    pub dry_run: bool,
}

/// The contents of a [`Config`].
pub struct ConfigView {
    pub source: Components,
    pub formats_root: Components,
    pub max_qual_root: Components,
    pub formats: Seq<Seq<char>>,
    pub verbose: bool,
    pub dry_run: bool,
}

impl View for Config {
    type V = ConfigView;

    open spec fn view(&self) -> ConfigView {
        ConfigView {
            source: self.source@,
            formats_root: self.formats_root@,
            max_qual_root: self.max_qual_root@,
            formats: texts(self.format_order@),
            verbose: self.verbose,
            dry_run: self.dry_run,
        }
    }
}

/// What is wrong with the parts of a configuration, if anything: the first of
/// the problems in the order in which they are looked for.
pub open spec fn config_problem(
    source: SourceReply,
    formats_root: Result<TreePath, String>,
    max_qual_root: Result<TreePath, String>,
    formats: Seq<Seq<char>>,
) -> Option<Seq<char>> {
    if formats.len() == 0 {
        Some("at least one format is required (use -f)"@)
    } else {
        match source {
            SourceReply::Failed(shown, cause) => Some(
                "resolving source directory "@ + shown@ + ": "@ + cause@,
            ),
            SourceReply::Resolved(path, is_dir) => if !is_dir {
                Some("source "@ + shown_path(path@) + " is not a directory"@)
            } else {
                match (formats_root, max_qual_root) {
                    (Err(line), _) => Some(line@),
                    (Ok(_), Err(line)) => Some(line@),
                    (Ok(formats_root), Ok(max_qual_root)) => match layout_problem(
                        path@,
                        formats_root@,
                        max_qual_root@,
                    ) {
                        Some(error) => Some(layout_message(error, path@)),
                        None => None,
                    },
                }
            },
        }
    }
}

impl Config {
    /// Validates a configuration, from resolved directories.
    ///
    /// `formats_root` and `max_qual_root` are what resolving the output
    /// directories gave, with the message for the one that could not be
    /// resolved.
    pub fn new(
        source: SourceReply,
        formats_root: Result<TreePath, String>,
        max_qual_root: Result<TreePath, String>,
        format_order: Vec<String>,
        verbose: bool,
        dry_run: bool,
    ) -> (result: Result<Config, String>)
        ensures
            match result {
                Ok(config) => {
                    &&& config_problem(
                        source,
                        formats_root,
                        max_qual_root,
                        texts(format_order@),
                    ) is None
                    &&& source matches SourceReply::Resolved(path, is_dir)
                    &&& config.source == path
                    &&& formats_root == Ok::<TreePath, String>(config.formats_root)
                    &&& max_qual_root == Ok::<TreePath, String>(config.max_qual_root)
                    &&& texts(config.format_order@) == without_repeats(texts(format_order@))
                    &&& config.verbose == verbose
                    &&& config.dry_run == dry_run
                },
                Err(line) => config_problem(
                    source,
                    formats_root,
                    max_qual_root,
                    texts(format_order@),
                ) == Some(line@),
            },
    {
        if format_order.is_empty() {
            return Err("at least one format is required (use -f)".to_owned());
        }
        let format_order = distinct_formats(format_order);
        let source = match source {
            SourceReply::Failed(shown, cause) => {
                let mut line = "resolving source directory ".to_owned();
                line.append(shown.as_str());
                line.append(": ");
                line.append(cause.as_str());
                return Err(line);
            },
            SourceReply::Resolved(path, is_dir) => {
                if !is_dir {
                    let mut line = "source ".to_owned();
                    line.append(path.display().as_str());
                    line.append(" is not a directory");
                    return Err(line);
                }
                path
            },
        };
        let formats_root = match formats_root {
            Ok(path) => path,
            Err(line) => return Err(line),
        };
        let max_qual_root = match max_qual_root {
            Ok(path) => path,
            Err(line) => return Err(line),
        };
        match check_layout(&source, &formats_root, &max_qual_root) {
            Ok(_) => {},
            Err(error) => return Err(error.message(&source)),
        }
        Ok(Config { source, formats_root, max_qual_root, format_order, verbose, dry_run })
    }
}

/// The resolution of a path whose last components may not exist yet.
#[derive(Debug)]
pub struct Resolve {
    shown: String,
    missing: Vec<Vec<u8>>,
    current: TreePath,
}

/// The contents of a [`Resolve`].
pub struct ResolveView {
    /// The path as it was given.
    pub shown: Seq<char>,
    /// The names found missing so far, last one first.
    pub missing: Seq<Seq<u8>>,
    /// The path that may exist.
    pub current: Components,
}

impl View for Resolve {
    type V = ResolveView;

    closed spec fn view(&self) -> ResolveView {
        ResolveView {
            shown: self.shown@,
            missing: byte_views(self.missing@),
            current: self.current@,
        }
    }
}

/// The resolution after `current` was found not to exist: its last name is
/// missing, and what may exist is its directory. A path without a last name
/// cannot be resolved.
pub open spec fn one_up(resolve: ResolveView) -> Result<ResolveView, Seq<char>> {
    match file_name_of(resolve.current) {
        None => Err("cannot resolve path "@ + resolve.shown),
        Some(name) => Ok(
            ResolveView {
                missing: resolve.missing.push(name),
                current: match parent_of(resolve.current) {
                    Some(parent) => if parent.len() > 0 {
                        parent
                    } else {
                        seq![dot_component()]
                    },
                    None => seq![dot_component()],
                },
                ..resolve
            },
        ),
    }
}

/// Starts to resolve a path, of which `shown` is the text for messages.
pub fn resolve_existing(path: TreePath, shown: String) -> (resolve: Resolve)
    ensures
        resolve@ == (ResolveView { shown: shown@, missing: seq![], current: path@ }),
{
    let resolve = Resolve { shown, missing: Vec::new(), current: path };
    assert(resolve@.missing =~= seq![]);
    resolve
}

impl Resolve {
    /// The path that may exist.
    pub fn current(&self) -> (path: &TreePath)
        ensures
            path@ == self@.current,
    {
        &self.current
    }

    /// Goes on after the current path was found not to exist.
    pub fn not_there(self) -> (result: Result<Resolve, String>)
        ensures
            match result {
                Ok(resolve) => one_up(self@) == Ok::<ResolveView, Seq<char>>(resolve@),
                Err(line) => one_up(self@) == Err::<ResolveView, Seq<char>>(line@),
            },
    {
        let Resolve { shown, mut missing, current } = self;
        let ghost before = missing@;
        match current.file_name() {
            None => {
                let mut line = "cannot resolve path ".to_owned();
                line.append(shown.as_str());
                return Err(line);
            },
            Some(name) => {
                let copy = name.clone();
                assert(copy@ =~= name@);
                missing.push(copy);
                assert(byte_views(missing@) =~= byte_views(before).push(
                    name@,
                ));
            },
        }
        let current = match current.parent() {
            Some(parent) => if parent.depth() > 0 {
                parent
            } else {
                TreePath::here()
            },
            None => TreePath::here(),
        };
        Ok(Resolve { shown, missing, current })
    }

    /// Ends the resolution with the canonical form of the current path, which
    /// exists: the missing names follow it again.
    pub fn there(self, canonical: Result<TreePath, String>) -> (result: Result<TreePath, String>)
        ensures
            match canonical {
                Ok(base) => result matches Ok(path) && path@ == base@ + self@.missing.reverse(),
                Err(cause) => result matches Err(line) && line@ == "resolving output directory "@
                    + self@.shown + ": "@ + cause@,
            },
    {
        match canonical {
            Err(cause) => {
                let mut line = "resolving output directory ".to_owned();
                line.append(self.shown.as_str());
                line.append(": ");
                line.append(cause.as_str());
                Err(line)
            },
            Ok(base) => {
                let mut path = base.clone();
                let ghost names = self@.missing.reverse();
                let mut i: usize = self.missing.len();
                assert(base@ + names.take(0) =~= base@);
                while i > 0
                    invariant
                        i <= self.missing@.len(),
                        names == self@.missing.reverse(),
                        path@ == base@ + names.take(self.missing@.len() - i),
                    decreases i,
                {
                    i = i - 1;
                    path = path.child(&self.missing[i]);
                    assert(names.take(self.missing@.len() - i) =~= names.take(
                        self.missing@.len() - i - 1,
                    ).push(self.missing@[i as int]@));
                    assert(path@ =~= base@ + names.take(self.missing@.len() - i));
                }
                assert(names.take(names.len() as int) =~= names);
                Ok(path)
            },
        }
    }
}

} // verus!
