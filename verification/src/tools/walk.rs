//! Where to look for the files that a path or glob pattern names.

use vstd::prelude::*;

use crate::text;
use crate::views;

verus! {

/// A directory to walk, or a file.
#[derive(Debug)]
pub struct Walk {
    /// Where the walk begins.
    pub root: String,
    /// The glob that a file must match, relative to the root and with a slash in front;
    /// `None` where every file below the root counts.
    pub pattern: Option<String>,
}

/// The model of a [`Walk`].
#[verifier::ext_equal]
pub struct WalkView {
    pub root: Seq<char>,
    pub pattern: Option<Seq<char>>,
}

impl View for Walk {
    type V = WalkView;

    open spec fn view(&self) -> WalkView {
        WalkView { root: self.root@, pattern: views::opt_text(self.pattern) }
    }
}

/// A character that makes a path a glob pattern.
pub open spec fn is_glob_char(c: char) -> bool {
    c == '*' || c == '?' || c == '[' || c == '{'
}

/// The position of the first such character from `i` on; the length when there is none.
pub open spec fn glob_start(s: Seq<char>, i: int) -> int
    decreases s.len() - i,
{
    if i < 0 || i >= s.len() || is_glob_char(s[i]) {
        i
    } else {
        glob_start(s, i + 1)
    }
}

/// The position of the last slash before `n`.
pub open spec fn last_slash(s: Seq<char>, n: int) -> Option<int>
    decreases n,
{
    if n <= 0 || n > s.len() {
        None
    } else if s[n - 1] == '/' {
        Some(n - 1)
    } else {
        last_slash(s, n - 1)
    }
}

/// Where to look for a path. One that exists is what it says, and so is one that is no
/// pattern. A pattern is looked for from the last directory on that it names in full.
pub open spec fn walk_of(path: Seq<char>, present: bool) -> WalkView {
    let at = glob_start(path, 0);
    if present || at >= path.len() {
        WalkView { root: path, pattern: None }
    } else {
        match last_slash(path, at) {
            None => WalkView { root: "."@, pattern: Some("/"@ + path) },
            Some(slash) => WalkView {
                root: if slash == 0 {
                    "/"@
                } else {
                    path.take(slash)
                },
                pattern: Some(path.skip(slash)),
            },
        }
    }
}

/// Where to look for a path; `present` says whether there is a file or directory of that
/// name. See [`walk_of`].
pub fn plan_walk(path: &str, present: bool) -> (r: Walk)
    ensures
        r@ == walk_of(path@, present),
{
    let v = text::chars_of(path);
    let n: usize = v.len();
    let mut at: usize = 0;
    while at < n && !(v[at] == '*' || v[at] == '?' || v[at] == '[' || v[at] == '{')
        invariant
            v@ == path@,
            n == v@.len(),
            at <= n,
            glob_start(path@, at as int) == glob_start(path@, 0),
        decreases n - at,
    {
        at = at + 1;
    }
    if present || at >= n {
        return Walk { root: text::owned(path), pattern: None };
    }
    let mut end: usize = at;
    while end > 0 && v[end - 1] != '/'
        invariant
            v@ == path@,
            n == v@.len(),
            end <= at < n,
            last_slash(path@, end as int) == last_slash(path@, at as int),
        decreases end,
    {
        end = end - 1;
    }
    if end == 0 {
        let mut pattern = text::owned("/");
        pattern.append(path);
        return Walk { root: text::owned("."), pattern: Some(pattern) };
    }
    let slash: usize = end - 1;
    let root = if slash == 0 {
        text::owned("/")
    } else {
        text::string_of(v.as_slice(), 0, slash)
    };
    proof {
        assert(v@.subrange(0, slash as int) =~= path@.take(slash as int));
        assert(v@.subrange(slash as int, n as int) =~= path@.skip(slash as int));
    }
    Walk { root, pattern: Some(text::string_of(v.as_slice(), slash, n)) }
}

// ── Laws ─────────────────────────────────────────────────────────────────

proof fn lemma_last_slash(s: Seq<char>, n: int)
    requires
        0 <= n <= s.len(),
    ensures
        last_slash(s, n) matches Some(k) ==> 0 <= k < n && s[k] == '/',
    decreases n,
{
    if n > 0 && s[n - 1] != '/' {
        lemma_last_slash(s, n - 1);
    }
}

proof fn lemma_glob_start(s: Seq<char>, i: int)
    requires
        0 <= i <= s.len(),
    ensures
        i <= glob_start(s, i) <= s.len(),
        glob_start(s, i) < s.len() ==> is_glob_char(s[glob_start(s, i)]),
        forall|k: int| i <= k < glob_start(s, i) ==> !is_glob_char(#[trigger] s[k]),
    decreases s.len() - i,
{
    if i < s.len() && !is_glob_char(s[i]) {
        lemma_glob_start(s, i + 1);
    }
}

/// A pattern is taken apart without loss: the root holds no glob, the rest begins with a
/// slash, and where the root is a directory that the pattern names, the two together are the
/// pattern.
pub proof fn law_pattern_taken_apart(path: Seq<char>)
    ensures
        walk_of(path, false).pattern matches Some(rest) ==> {
            let root = walk_of(path, false).root;
            &&& forall|i: int| 0 <= i < root.len() ==> !is_glob_char(#[trigger] root[i])
            &&& rest.len() > 0 && rest[0] == '/'
            &&& rest == path || rest == "/"@ + path || root + rest == path
        },
{
    reveal_strlit(".");
    reveal_strlit("/");
    let at = glob_start(path, 0);
    lemma_glob_start(path, 0);
    if at < path.len() {
        lemma_last_slash(path, at);
        match last_slash(path, at) {
            None => {},
            Some(slash) => {
                if slash == 0 {
                    assert(path.skip(0) =~= path);
                } else {
                    assert(path.take(slash) + path.skip(slash) =~= path);
                }
            },
        }
    }
}

/// A path with a glob in it is walked from the directory in front of the part that holds the
/// first glob, and matched against what stands behind; a path without one, or one that is there
/// as it is written, is walked as it is.
pub proof fn law_walked_from(dir: Seq<char>, part: Seq<char>, glob: char, tail: Seq<char>)
    requires
        glob == '*' || glob == '?' || glob == '[' || glob == '{',
        dir.len() > 0,
        forall|i: int|
            0 <= i < dir.len() ==> (#[trigger] dir[i]) != '*' && dir[i] != '?' && dir[i] != '['
                && dir[i] != '{',
        forall|i: int|
            0 <= i < part.len() ==> (#[trigger] part[i]) != '*' && part[i] != '?' && part[i] != '['
                && part[i] != '{' && part[i] != '/',
    ensures
        ({
            let path = dir + seq!['/'] + part + seq![glob] + tail;
            &&& walk_of(path, false).root == dir
            &&& walk_of(path, false).pattern == Some(seq!['/'] + part + seq![glob] + tail)
            &&& walk_of(path, true).root == path
            &&& walk_of(path, true).pattern is None
        }),
        walk_of(dir, false).root == dir,
        walk_of(dir, false).pattern is None,
{
    let path = dir + seq!['/'] + part + seq![glob] + tail;
    let n = dir.len() as int;
    let at = n + 1 + part.len();
    lemma_glob_start(path, 0);
    lemma_glob_start(dir, 0);
    let g = glob_start(path, 0);
    assert(path[at] == glob);
    assert(g == at) by {
        if g < at {
            if g < n {
                assert(path[g] == dir[g]);
            } else if g > n {
                assert(path[g] == part[g - n - 1]);
            } else {
                assert(path[g] == '/');
            }
        }
    }
    if glob_start(dir, 0) < dir.len() {
        assert(dir[glob_start(dir, 0)] != '*');
    }
    lemma_last_slash(path, at);
    assert(path[n] == '/');
    lemma_slash_found(path, n, at);
    assert(path.take(n) =~= dir);
    assert(path.skip(n) =~= seq!['/'] + part + seq![glob] + tail);
}

proof fn lemma_slash_found(s: Seq<char>, k: int, n: int)
    requires
        0 <= k < n <= s.len(),
        s[k] == '/',
        forall|i: int| k < i < n ==> s[i] != '/',
    ensures
        last_slash(s, n) == Some(k),
    decreases n,
{
    if n - 1 > k {
        lemma_slash_found(s, k, n - 1);
    }
}

} // verus!
