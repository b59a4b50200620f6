//! Composition of remote paths.
//!
//! Remote paths are plain `/`-separated strings.  Joining a directory path
//! with a child name must introduce exactly one separator, whatever the
//! base ends with, and the walker must not append an entry's own name to a
//! working directory that already ends with it (the synthetic root names
//! itself).

use vstd::prelude::*;

verus! {

/// What joining `base` with `name` yields: one `/` between them, none
/// doubled when `base` already ends with the separator.
pub open spec fn spec_join(base: Seq<char>, name: Seq<char>) -> Seq<char> {
    if base.len() > 0 && base.last() == '/' {
        base + name
    } else {
        base + seq!['/'] + name
    }
}

/// Join a directory path and a child name with exactly one separator.
pub fn join_path(base: &str, name: &str) -> (r: String)
    ensures
        r@ == spec_join(base@, name@),
{
    let n = base.unicode_len();
    let joined = if n > 0 && base.get_char(n - 1) == '/' {
        base.to_owned().concat(name)
    } else {
        base.to_owned().concat("/").concat(name)
    };
    proof {
        reveal_strlit("/");
        assert(("/")@ =~= seq!['/']);
        assert(base@.len() > 0 ==> base@.last() == base@[n - 1]);
    }
    joined
}

/// Whether the text ends with the given suffix.
pub open spec fn spec_ends_with(s: Seq<char>, suffix: Seq<char>) -> bool {
    s.len() >= suffix.len() && s.skip(s.len() - suffix.len()) == suffix
}

/// Whether the text starts with the given prefix.
pub open spec fn spec_starts_with(s: Seq<char>, prefix: Seq<char>) -> bool {
    s.len() >= prefix.len() && s.take(prefix.len() as int) == prefix
}

pub fn str_ends_with(s: &str, suffix: &str) -> (r: bool)
    ensures
        r == spec_ends_with(s@, suffix@),
{
    let n = s.unicode_len();
    let m = suffix.unicode_len();
    if n < m {
        return false;
    }
    let mut i: usize = 0;
    while i < m
        invariant
            i <= m,
            m <= n,
            n == s@.len(),
            m == suffix@.len(),
            forall|j: int| 0 <= j < i ==> s@[n - m + j] == suffix@[j],
        decreases m - i,
    {
        if s.get_char(n - m + i) != suffix.get_char(i) {
            proof {
                assert(s@.skip(n - m)[i as int] == s@[n - m + i]);
            }
            return false;
        }
        i = i + 1;
    }
    proof {
        assert(s@.skip(n - m) =~= suffix@);
    }
    true
}

pub fn str_starts_with(s: &str, prefix: &str) -> (r: bool)
    ensures
        r == spec_starts_with(s@, prefix@),
{
    let n = s.unicode_len();
    let m = prefix.unicode_len();
    if n < m {
        return false;
    }
    let mut i: usize = 0;
    while i < m
        invariant
            i <= m,
            m <= n,
            n == s@.len(),
            m == prefix@.len(),
            forall|j: int| 0 <= j < i ==> s@[j] == prefix@[j],
        decreases m - i,
    {
        if s.get_char(i) != prefix.get_char(i) {
            proof {
                assert(s@.take(m as int)[i as int] == s@[i as int]);
            }
            return false;
        }
        i = i + 1;
    }
    proof {
        assert(s@.take(m as int) =~= prefix@);
    }
    true
}

/// How many characters the text holds before its first `/`.
pub open spec fn slash_free_len(s: Seq<char>) -> nat
    decreases s.len(),
{
    if s.len() > 0 && s[0] != '/' {
        1 + slash_free_len(s.drop_first())
    } else {
        0
    }
}

pub proof fn lemma_slash_free_len_le(s: Seq<char>)
    ensures
        slash_free_len(s) <= s.len(),
    decreases s.len(),
{
    if s.len() > 0 && s[0] != '/' {
        lemma_slash_free_len_le(s.drop_first());
    }
}

/// The text with its first `/`, if any, removed.
pub open spec fn remove_first_slash(s: Seq<char>) -> Seq<char> {
    let k = slash_free_len(s) as int;
    if k < s.len() {
        s.take(k) + s.skip(k + 1)
    } else {
        s
    }
}

/// Remove the first `/` of the text, if it has one.
pub fn remove_first_slash_str(s: &str) -> (r: String)
    ensures
        r@ == remove_first_slash(s@),
{
    let n = s.unicode_len();
    let mut i: usize = 0;
    proof {
        assert(s@.skip(0) =~= s@);
    }
    while i < n && s.get_char(i) != '/'
        invariant
            i <= n,
            n == s@.len(),
            slash_free_len(s@) == i + slash_free_len(s@.skip(i as int)),
        decreases n - i,
    {
        proof {
            assert(s@.skip(i as int).drop_first() =~= s@.skip(i + 1));
            assert(s@.skip(i as int)[0] == s@[i as int]);
        }
        i = i + 1;
    }
    proof {
        assert(slash_free_len(s@.skip(i as int)) == 0) by {
            if i < n {
                assert(s@.skip(i as int)[0] == s@[i as int]);
            }
        }
        assert(slash_free_len(s@) == i);
    }
    if i < n {
        let r = s.substring_char(0, i).to_owned().concat(s.substring_char(i + 1, n));
        proof {
            assert(r@ =~= s@.take(i as int) + s@.skip(i + 1));
        }
        r
    } else {
        s.to_owned()
    }
}

/// The path of a collected entry relative to the walk's root: the root
/// prefix is stripped when it is there, and the first remaining `/`
/// removed either way.
pub open spec fn spec_target_rel(abs: Seq<char>, root: Seq<char>) -> Seq<char> {
    if spec_starts_with(abs, root) {
        remove_first_slash(abs.skip(root.len() as int))
    } else {
        remove_first_slash(abs)
    }
}

/// Strip the walk's root from a collected entry's absolute path.
pub fn target_rel(abs: &str, root: &str) -> (r: String)
    ensures
        r@ == spec_target_rel(abs@, root@),
{
    if str_starts_with(abs, root) {
        let n = abs.unicode_len();
        let m = root.unicode_len();
        let rest = abs.substring_char(m, n);
        proof {
            assert(rest@ =~= abs@.skip(m as int));
        }
        remove_first_slash_str(rest)
    } else {
        remove_first_slash_str(abs)
    }
}

/// The directory a work item reads: its working directory when that
/// already ends with the entry's own name (the synthetic root), otherwise
/// the working directory joined with the name.
pub open spec fn spec_dir_path(cwd: Seq<char>, name: Seq<char>) -> Seq<char> {
    if spec_ends_with(cwd, name) {
        cwd
    } else {
        spec_join(cwd, name)
    }
}

/// Compose the absolute path a work item's entry denotes.
pub fn dir_path(cwd: &str, name: &str) -> (r: String)
    ensures
        r@ == spec_dir_path(cwd@, name@),
{
    if str_ends_with(cwd, name) {
        cwd.to_owned()
    } else {
        join_path(cwd, name)
    }
}

/// Where the last separator stands, if the path has one.
pub open spec fn last_slash_idx(s: Seq<char>) -> Option<int>
    decreases s.len(),
{
    if s.len() == 0 {
        None
    } else if s.last() == '/' {
        Some(s.len() - 1)
    } else {
        last_slash_idx(s.drop_last())
    }
}

/// The directory above a path without a trailing separator: everything
/// before its last separator, the separator alone when nothing precedes
/// it, an empty name for a bare name, and nothing above the root or an
/// empty path.
pub open spec fn spec_parent(s: Seq<char>) -> Option<Seq<char>> {
    if s.len() == 0 {
        None
    } else {
        match last_slash_idx(s) {
            None => Some(Seq::empty()),
            Some(j) => if j == 0 {
                if s.len() == 1 {
                    None
                } else {
                    Some(seq!['/'])
                }
            } else {
                Some(s.take(j))
            },
        }
    }
}

/// Step up one directory, as moving left in the listing does.
pub fn parent_path(s: &str) -> (r: Option<String>)
    ensures
        match (r, spec_parent(s@)) {
            (Some(x), Some(v)) => x@ == v,
            (None, None) => true,
            _ => false,
        },
{
    let n = s.unicode_len();
    if n == 0 {
        return None;
    }
    let mut i: usize = n;
    proof {
        assert(s@.take(n as int) =~= s@);
    }
    while i > 0 && s.get_char(i - 1) != '/'
        invariant
            i <= n,
            n == s@.len(),
            last_slash_idx(s@) == last_slash_idx(s@.take(i as int)),
        decreases i,
    {
        proof {
            assert(s@.take(i as int).drop_last() =~= s@.take(i - 1));
            assert(s@.take(i as int).last() == s@[i - 1]);
        }
        i = i - 1;
    }
    if i == 0 {
        proof {
            assert(s@.take(0) =~= Seq::<char>::empty());
            assert(last_slash_idx(s@) is None);
        }
        return Some(String::new());
    }
    proof {
        assert(s@.take(i as int).last() == s@[i - 1]);
        assert(s@[i - 1] == '/');
        assert(last_slash_idx(s@) == Some(i - 1));
    }
    if i == 1 {
        if n == 1 {
            proof {
                assert(s@ =~= seq!['/']);
            }
            return None;
        }
        proof {
            reveal_strlit("/");
            assert(("/")@ =~= seq!['/']);
        }
        return Some("/".to_owned());
    }
    let prefix = s.substring_char(0, i - 1).to_owned();
    proof {
        assert(prefix@ =~= s@.take(i - 1));
    }
    Some(prefix)
}

} // verus!
