//! The terminal session's plain state, and the decisions its events feed.
//!
//! Rendering, widgets and the event loop live outside the library; here
//! are the modes the interface moves through and the computations its
//! events ask for: filtering the listing and choosing the preview of
//! files still to come.

use vstd::prelude::*;

use crate::cli::ResolvedConnectArgs;
use crate::files::FileEntry;

verus! {

/// Configuration carried through the terminal session.
#[derive(Debug)]
pub struct Config {
    pub cli: ResolvedConnectArgs,
}

impl Config {
    pub fn new(cli: ResolvedConnectArgs) -> (r: Self)
        ensures
            r.cli == cli,
    {
        Config { cli }
    }
}

/// What the input line is being used for.
#[derive(Debug, Clone, Copy, PartialEq, Eq, Structural)]
pub enum InputMode {
    Filter,
    DownloadPath,
    ConfirmDelete,
    MoveEntry,
}

/// What the detail pane shows.
#[derive(Debug, Clone, Copy, PartialEq, Eq, Structural)]
pub enum DetailWindowMode {
    Details,
    Content,
}

/// Whether the text holds the pattern as a contiguous run.
pub open spec fn spec_contains(s: Seq<char>, pat: Seq<char>) -> bool {
    exists|i: int| 0 <= i <= s.len() - pat.len() && #[trigger] s.subrange(i, i + pat.len()) == pat
}

/// Whether one name contains the filter text.
pub fn name_contains(s: &str, pat: &str) -> (r: bool)
    ensures
        r == spec_contains(s@, pat@),
{
    let n = s.unicode_len();
    let m = pat.unicode_len();
    if m > n {
        proof {
            assert(!spec_contains(s@, pat@));
        }
        return false;
    }
    if m == 0 {
        proof {
            assert(s@.subrange(0, 0 + pat@.len() as int) =~= pat@);
            assert(spec_contains(s@, pat@));
        }
        return true;
    }
    let mut i: usize = 0;
    while i <= n - m
        invariant
            1 <= m <= n,
            n == s@.len(),
            m == pat@.len(),
            i <= n - m + 1,
            forall|i0: int| 0 <= i0 < i ==> #[trigger] s@.subrange(i0, i0 + pat@.len()) != pat@,
        decreases n - m + 1 - i,
    {
        let mut j: usize = 0;
        let mut ok = true;
        while j < m
            invariant_except_break
                ok,
            invariant
                i + m <= n,
                n == s@.len(),
                m == pat@.len(),
                j <= m,
                ok ==> forall|j0: int| 0 <= j0 < j ==> s@[i + j0] == pat@[j0],
            ensures
                ok ==> j == m && (forall|j0: int| 0 <= j0 < m ==> s@[i + j0] == pat@[j0]),
                !ok ==> s@.subrange(i as int, i + pat@.len()) != pat@,
            decreases m - j,
        {
            if s.get_char(i + j) != pat.get_char(j) {
                ok = false;
                proof {
                    assert(s@.subrange(i as int, i + pat@.len())[j as int] == s@[i + j]);
                    assert(s@.subrange(i as int, i + pat@.len()) != pat@);
                }
                break;
            }
            j = j + 1;
        }
        if ok {
            proof {
                assert(s@.subrange(i as int, i + pat@.len()) =~= pat@);
            }
            return true;
        }
        i = i + 1;
    }
    proof {
        assert(!spec_contains(s@, pat@)) by {
            if spec_contains(s@, pat@) {
                let i0 = choose|i0: int|
                    0 <= i0 <= s@.len() - pat@.len() && #[trigger] s@.subrange(i0, i0 + pat@.len())
                        == pat@;
                assert(s@.subrange(i0, i0 + pat@.len()) != pat@);
            }
        }
    }
    false
}

/// The entries whose names hold the filter text, in listing order: what
/// typing into the filter line narrows the table to.
pub fn filter_entries(entries: &Vec<FileEntry>, filter: &str) -> (r: Vec<FileEntry>)
    ensures
        forall|j: int|
            0 <= j < r@.len() ==> spec_contains((#[trigger] r@[j]).name@, filter@),
        forall|j: int|
            0 <= j < entries@.len() && spec_contains(
                (#[trigger] entries@[j]).name@,
                filter@,
            ) ==> exists|l: int| 0 <= l < r@.len() && r@[l].name@ == entries@[j].name@,
{
    let mut out: Vec<FileEntry> = Vec::new();
    let mut i: usize = 0;
    while i < entries.len()
        invariant
            i <= entries@.len(),
            forall|j: int|
                0 <= j < out@.len() ==> spec_contains((#[trigger] out@[j]).name@, filter@),
            forall|j: int|
                0 <= j < i && spec_contains((#[trigger] entries@[j]).name@, filter@) ==> exists|
                    l: int,
                |
                    0 <= l < out@.len() && out@[l].name@ == entries@[j].name@,
        decreases entries@.len() - i,
    {
        let ghost out_pre = out@;
        let keep = name_contains(entries[i].name.as_str(), filter);
        if keep {
            let e = FileEntry {
                name: entries[i].name.clone(),
                type_: entries[i].type_,
                attributes: crate::files::clone_attrs(&entries[i].attributes),
            };
            out.push(e);
        }
        proof {
            assert forall|j: int|
                0 <= j < i + 1 && spec_contains(
                    (#[trigger] entries@[j]).name@,
                    filter@,
                ) implies exists|l: int|
                0 <= l < out@.len() && out@[l].name@ == entries@[j].name@ by {
                if j < i {
                    let l = choose|l: int|
                        0 <= l < out_pre.len() && out_pre[l].name@ == entries@[j].name@;
                    assert(out@[l].name@ == entries@[j].name@);
                } else {
                    assert(keep);
                    assert(out@[out@.len() - 1].name@ == entries@[j].name@);
                }
            }
        }
        i = i + 1;
    }
    out
}

/// The upcoming files a progress pane previews: the window of the given
/// width that starts at the next entry, clipped to the snapshot's end.
pub fn preview_window(entries: &Vec<FileEntry>, next: usize, width: usize) -> (r: Vec<FileEntry>)
    ensures
        r@.len() == (if next > entries@.len() {
            0int
        } else if entries@.len() - next < width {
            entries@.len() - next
        } else {
            width as int
        }),
        forall|j: int| 0 <= j < r@.len() ==> (#[trigger] r@[j]).name@ == entries@[next + j].name@,
{
    let mut out: Vec<FileEntry> = Vec::new();
    if next > entries.len() {
        return out;
    }
    let avail = entries.len() - next;
    let take = if avail < width {
        avail
    } else {
        width
    };
    let mut i: usize = 0;
    while i < take
        invariant
            next + take <= entries@.len(),
            next <= entries@.len(),
            entries@.len() <= usize::MAX,
            i <= take,
            out@.len() == i,
            forall|j: int|
                0 <= j < i ==> (#[trigger] out@[j]).name@ == entries@[next + j].name@,
        decreases take - i,
    {
        proof {
            assert(next + i < entries@.len());
        }
        let e = FileEntry {
            name: entries[next + i].name.clone(),
            type_: entries[next + i].type_,
            attributes: crate::files::clone_attrs(&entries[next + i].attributes),
        };
        out.push(e);
        i = i + 1;
    }
    out
}

/// The directory a change-dir request loads: the requested path, or the
/// current directory when the request is empty.
pub fn change_dir_target(path: &str) -> (r: String)
    ensures
        path@.len() > 0 ==> r@ == path@,
        path@.len() == 0 ==> r@ == "."@,
{
    if path.unicode_len() > 0 {
        path.to_owned()
    } else {
        ".".to_owned()
    }
}

} // verus!
