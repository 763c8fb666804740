//! Paths as texts.

use vstd::prelude::*;

use crate::text;
use crate::views;

verus! {

broadcast use crate::views::group_texts;

/// A piece of a path that names nothing.
pub open spec fn is_idle_piece(s: Seq<char>) -> bool {
    s.len() == 0 || s == "."@
}

/// The last of the first `n` pieces of a path that names something.
pub open spec fn last_piece(pieces: Seq<Seq<char>>, n: int) -> Option<Seq<char>>
    decreases n,
{
    if n <= 0 || n > pieces.len() {
        None
    } else if is_idle_piece(pieces[n - 1]) {
        last_piece(pieces, n - 1)
    } else {
        Some(pieces[n - 1])
    }
}

/// The last component of a path; none where there is none or where it goes up.
pub open spec fn final_name(path: Seq<char>) -> Option<Seq<char>> {
    let pieces = text::split(path, '/');
    match last_piece(pieces, pieces.len() as int) {
        Some(p) => if p == ".."@ {
            None
        } else {
            Some(p)
        },
        None => None,
    }
}

/// The last component of a path; the whole path where it has none.
pub open spec fn base_name(path: Seq<char>) -> Seq<char> {
    match final_name(path) {
        Some(p) => p,
        None => path,
    }
}

/// See [`final_name`].
pub fn file_name(path: &str) -> (r: Option<String>)
    ensures
        views::opt_text(r) == final_name(path@),
{
    let pieces = text::split_on(path, '/');
    let ghost vp = views::texts(pieces@);
    let mut n: usize = pieces.len();
    assert(vp.len() == n);
    while n > 0
        invariant
            vp == views::texts(pieces@),
            vp == text::split(path@, '/'),
            n <= pieces@.len(),
            vp.len() == pieces@.len(),
            last_piece(vp, n as int) == last_piece(vp, vp.len() as int),
        decreases n,
    {
        let piece = &pieces[n - 1];
        assert(vp[n - 1] == piece@);
        let chars: usize = text::char_count(piece.as_str());
        if chars > 0 && !text::same(piece.as_str(), ".") {
            if text::same(piece.as_str(), "..") {
                return None;
            }
            return Some(piece.clone());
        }
        n = n - 1;
    }
    None
}

/// Get the basename (last path component) of a path. See [`base_name`].
pub fn basename(path: &str) -> (r: String)
    ensures
        r@ == base_name(path@),
{
    match file_name(path) {
        Some(p) => p,
        None => text::owned(path),
    }
}

// ── Laws ─────────────────────────────────────────────────────────────────

proof fn lemma_last_piece(pieces: Seq<Seq<char>>, k: int, n: int)
    requires
        0 <= k < n <= pieces.len(),
        !is_idle_piece(pieces[k]),
        forall|i: int| k < i < n ==> is_idle_piece(#[trigger] pieces[i]),
    ensures
        last_piece(pieces, n) == Some(pieces[k]),
    decreases n,
{
    if n - 1 > k {
        assert(is_idle_piece(pieces[n - 1]));
        lemma_last_piece(pieces, k, n - 1);
    }
}

/// The name of a file is what stands behind the last slash of its path; a slash behind the name
/// and a path without a slash make no difference.
pub proof fn law_base_name(dir: Seq<char>, name: Seq<char>)
    requires
        name.len() > 0,
        !name.contains('/'),
        name != "."@,
        name != ".."@,
    ensures
        base_name(dir + seq!['/'] + name) == name,
        base_name(dir + seq!['/'] + name + seq!['/']) == name,
        base_name(name) == name,
{
    let none = Seq::<char>::empty();
    let one = seq![name];
    assert forall|k: int| 0 <= k < 1 implies !(#[trigger] one[k]).contains('/') by {}
    text::law_split_join(one, '/');
    assert(text::join(one, seq!['/']) == name);
    lemma_last_piece(one, 0, 1);
    let path = dir + seq!['/'] + name;
    text::lemma_split_concat(dir, name, '/');
    let pieces = text::split(path, '/');
    let before = text::split(dir, '/');
    assert(pieces =~= before.push(name));
    lemma_last_piece(pieces, before.len() as int, pieces.len() as int);
    text::lemma_split_concat(path, none, '/');
    assert(path + seq!['/'] + none =~= path + seq!['/']);
    let more = text::split(path + seq!['/'], '/');
    assert(text::split(none, '/') =~= seq![none]);
    assert(more =~= pieces.push(none));
    assert(more[before.len() as int] == name);
    lemma_last_piece(more, before.len() as int, more.len() as int);
}

} // verus!
