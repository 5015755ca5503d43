//! Counters of one run and their summary.

use vstd::prelude::*;
use vstd::string::*;

use crate::text::{decimal, decimal_text};

verus! {

/// What one reconciliation run did.
#[derive(Debug)]
pub struct Stats {
    /// Regular files seen in the source tree, managed or not.
    pub regular_files: usize,
    /// Source files whose extension is a managed format.
    pub managed_files: usize,
    /// Distinct tracks among the managed files.
    pub tracks: usize,
    /// New hard links created.
    pub links_created: usize,
    /// Existing links re-pointed at the correct source file.
    pub links_replaced: usize,
    /// Links that were already correct.
    pub links_up_to_date: usize,
    /// Files removed because nothing wants them.
    pub files_removed: usize,
    /// Empty directories removed.
    pub dirs_removed: usize,
    /// Non-fatal problems, one line each.
    pub errors: Vec<String>,
}

/// The contents of [`Stats`].
pub struct StatsView {
    pub regular_files: nat,
    pub managed_files: nat,
    pub tracks: nat,
    pub links_created: nat,
    pub links_replaced: nat,
    pub links_up_to_date: nat,
    pub files_removed: nat,
    pub dirs_removed: nat,
    pub errors: Seq<Seq<char>>,
}

impl View for Stats {
    type V = StatsView;

    open spec fn view(&self) -> StatsView {
        StatsView {
            regular_files: self.regular_files as nat,
            managed_files: self.managed_files as nat,
            tracks: self.tracks as nat,
            links_created: self.links_created as nat,
            links_replaced: self.links_replaced as nat,
            links_up_to_date: self.links_up_to_date as nat,
            files_removed: self.files_removed as nat,
            dirs_removed: self.dirs_removed as nat,
            errors: texts(self.errors@),
        }
    }
}

impl Default for Stats {
    /// Counters at zero, no problems.
    fn default() -> (stats: Stats)
        ensures
            stats@ == (StatsView {
                regular_files: 0,
                managed_files: 0,
                tracks: 0,
                links_created: 0,
                links_replaced: 0,
                links_up_to_date: 0,
                files_removed: 0,
                dirs_removed: 0,
                errors: seq![],
            }),
    {
        let stats = Stats {
            regular_files: 0,
            managed_files: 0,
            tracks: 0,
            links_created: 0,
            links_replaced: 0,
            links_up_to_date: 0,
            files_removed: 0,
            dirs_removed: 0,
            errors: Vec::new(),
        };
        assert(texts(stats.errors@) =~= seq![]);
        stats
    }
}

/// The texts of a list of strings.
pub open spec fn texts(strings: Seq<String>) -> Seq<Seq<char>> {
    Seq::new(strings.len(), |i: int| strings[i]@)
}

/// Lines with a line feed between each two of them.
pub open spec fn joined_lines(lines: Seq<Seq<char>>) -> Seq<char>
    decreases lines.len(),
{
    if lines.len() == 0 {
        seq![]
    } else if lines.len() == 1 {
        lines[0]
    } else {
        joined_lines(lines.drop_last()).push('\n') + lines.last()
    }
}

/// The summary line on the scan.
pub open spec fn scan_line(regular: nat, managed: nat, tracks: nat) -> Seq<char> {
    "scanned "@ + decimal(regular) + " regular files: "@ + decimal(managed) + " managed, "@
        + decimal(tracks) + " tracks"@
}

/// The summary line on the links.
pub open spec fn links_line(created: nat, replaced: nat, up_to_date: nat) -> Seq<char> {
    "links: "@ + decimal(created) + " created, "@ + decimal(replaced) + " replaced, "@ + decimal(
        up_to_date,
    ) + " up to date"@
}

impl Stats {
    /// The lines of the summary.
    pub open spec fn summary_lines(&self) -> Seq<Seq<char>> {
        let always = seq![
            scan_line(self.regular_files as nat, self.managed_files as nat, self.tracks as nat),
            links_line(
                self.links_created as nat,
                self.links_replaced as nat,
                self.links_up_to_date as nat,
            ),
        ];
        let removed = if self.files_removed > 0 {
            seq!["files removed: "@ + decimal(self.files_removed as nat)]
        } else {
            seq![]
        };
        let pruned = if self.dirs_removed > 0 {
            seq!["empty directories removed: "@ + decimal(self.dirs_removed as nat)]
        } else {
            seq![]
        };
        let problems = if self.errors@.len() > 0 {
            seq!["errors: "@ + decimal(self.errors@.len())] + Seq::new(
                self.errors@.len(),
                |i: int| "  error: "@ + self.errors@[i]@,
            )
        } else {
            seq![]
        };
        always + removed + pruned + problems
    }

    /// True when any operation failed.
    pub fn had_errors(&self) -> (had: bool)
        ensures
            had == (self.errors@.len() > 0),
    {
        !self.errors.is_empty()
    }

    /// A short summary of the run.
    pub fn summary(&self) -> (text: String)
        ensures
            text@ == joined_lines(self.summary_lines()),
    {
        let mut text = "scanned ".to_owned();
        text.append(decimal_text(self.regular_files).as_str());
        text.append(" regular files: ");
        text.append(decimal_text(self.managed_files).as_str());
        text.append(" managed, ");
        text.append(decimal_text(self.tracks).as_str());
        text.append(" tracks");
        let ghost mut lines: Seq<Seq<char>> = seq![text@];
        assert(text@ == joined_lines(lines));

        let mut line = "links: ".to_owned();
        line.append(decimal_text(self.links_created).as_str());
        line.append(" created, ");
        line.append(decimal_text(self.links_replaced).as_str());
        line.append(" replaced, ");
        line.append(decimal_text(self.links_up_to_date).as_str());
        line.append(" up to date");
        add_line(&mut text, &line, Ghost(lines));
        proof {
            lines = lines.push(line@);
        }
        if self.files_removed > 0 {
            let mut line = "files removed: ".to_owned();
            line.append(decimal_text(self.files_removed).as_str());
            add_line(&mut text, &line, Ghost(lines));
            proof {
                lines = lines.push(line@);
            }
        }
        if self.dirs_removed > 0 {
            let mut line = "empty directories removed: ".to_owned();
            line.append(decimal_text(self.dirs_removed).as_str());
            add_line(&mut text, &line, Ghost(lines));
            proof {
                lines = lines.push(line@);
            }
        }
        let ghost before = lines;
        if !self.errors.is_empty() {
            let mut line = "errors: ".to_owned();
            line.append(decimal_text(self.errors.len()).as_str());
            add_line(&mut text, &line, Ghost(lines));
            proof {
                lines = lines.push(line@);
            }
            let ghost counted = lines;
            let mut i: usize = 0;
            while i < self.errors.len()
                invariant
                    i <= self.errors@.len(),
                    lines.len() > 0,
                    text@ == joined_lines(lines),
                    lines =~= counted + Seq::new(
                        i as nat,
                        |j: int| "  error: "@ + self.errors@[j]@,
                    ),
                decreases self.errors.len() - i,
            {
                let mut line = "  error: ".to_owned();
                line.append(self.errors[i].as_str());
                add_line(&mut text, &line, Ghost(lines));
                proof {
                    lines = lines.push(line@);
                }
                i = i + 1;
            }
        }
        assert(lines =~= self.summary_lines());
        text
    }
}

/// Appends a line to the text of earlier lines.
fn add_line(text: &mut String, line: &String, Ghost(lines): Ghost<Seq<Seq<char>>>)
    requires
        old(text)@ == joined_lines(lines),
        lines.len() > 0,
    ensures
        final(text)@ == joined_lines(lines.push(line@)),
{
    proof {
        reveal_strlit("\n");
        assert(lines.push(line@).drop_last() =~= lines);
        assert("\n"@ =~= seq!['\n']);
    }
    text.append("\n");
    assert(text@ =~= joined_lines(lines).push('\n'));
    text.append(line.as_str());
}

} // verus!
