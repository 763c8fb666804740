//! Views of string lists, and the sequence lemmas that loops over them use.

use vstd::prelude::*;

verus! {

// ── Lists of modelled values ─────────────────────────────────────────────

/// The models of a list of values.
pub open spec fn all<T: View>(v: Seq<T>) -> Seq<T::V> {
    v.map_values(|t: T| t@)
}

pub broadcast proof fn lemma_all_push<T: View>(v: Seq<T>, t: T)
    ensures
        #[trigger] all(v.push(t)) == all(v).push(t@),
{
    assert(all(v.push(t)) =~= all(v).push(t@));
}

pub broadcast proof fn lemma_all_empty<T: View>()
    ensures
        #[trigger] all(Seq::<T>::empty()) == Seq::<T::V>::empty(),
{
    assert(all(Seq::<T>::empty()) =~= Seq::<T::V>::empty());
}

pub broadcast proof fn lemma_all_subrange<T: View>(v: Seq<T>, a: int, b: int)
    requires
        0 <= a <= b <= v.len(),
    ensures
        #[trigger] all(v.subrange(a, b)) == all(v).subrange(a, b),
{
    assert(all(v.subrange(a, b)) =~= all(v).subrange(a, b));
}

pub broadcast proof fn lemma_all_add<T: View>(v: Seq<T>, w: Seq<T>)
    ensures
        #[trigger] all(v + w) == all(v) + all(w),
{
    assert(all(v + w) =~= all(v) + all(w));
}

pub broadcast proof fn lemma_all_update<T: View>(v: Seq<T>, i: int, t: T)
    requires
        0 <= i < v.len(),
    ensures
        #[trigger] all(v.update(i, t)) == all(v).update(i, t@),
{
    assert(all(v.update(i, t)) =~= all(v).update(i, t@));
}

pub broadcast group group_all {
    lemma_all_push,
    lemma_all_empty,
    lemma_all_subrange,
    lemma_all_add,
    lemma_all_update,
}

// ── Lists of strings ─────────────────────────────────────────────────────

/// The texts held by a list of strings.
pub open spec fn texts(v: Seq<String>) -> Seq<Seq<char>> {
    v.map_values(|s: String| s@)
}

pub broadcast proof fn lemma_texts_push(v: Seq<String>, s: String)
    ensures
        #[trigger] texts(v.push(s)) == texts(v).push(s@),
{
    assert(texts(v.push(s)) =~= texts(v).push(s@));
}

pub broadcast proof fn lemma_texts_empty()
    ensures
        #[trigger] texts(Seq::<String>::empty()) == Seq::<Seq<char>>::empty(),
{
    assert(texts(Seq::<String>::empty()) =~= Seq::<Seq<char>>::empty());
}

pub broadcast proof fn lemma_texts_subrange(v: Seq<String>, a: int, b: int)
    requires
        0 <= a <= b <= v.len(),
    ensures
        #[trigger] texts(v.subrange(a, b)) == texts(v).subrange(a, b),
{
    assert(texts(v.subrange(a, b)) =~= texts(v).subrange(a, b));
}

pub broadcast proof fn lemma_texts_add(v: Seq<String>, w: Seq<String>)
    ensures
        #[trigger] texts(v + w) == texts(v) + texts(w),
{
    assert(texts(v + w) =~= texts(v) + texts(w));
}

pub broadcast proof fn lemma_texts_drop_last(v: Seq<String>)
    requires
        v.len() > 0,
    ensures
        #[trigger] texts(v.drop_last()) == texts(v).drop_last(),
{
    assert(texts(v.drop_last()) =~= texts(v).drop_last());
}

pub broadcast group group_texts {
    lemma_texts_push,
    lemma_texts_empty,
    lemma_texts_subrange,
    lemma_texts_add,
    lemma_texts_drop_last,
}

/// Dropping the last of the first `i + 1` items leaves the first `i`.
pub proof fn lemma_take_step<A>(s: Seq<A>, i: int)
    requires
        0 <= i < s.len(),
    ensures
        s.take(i + 1).drop_last() == s.take(i),
        s.take(i + 1).last() == s[i],
        s.take(i + 1) == s.take(i).push(s[i]),
{
    assert(s.take(i + 1).drop_last() =~= s.take(i));
    assert(s.take(i + 1) =~= s.take(i).push(s[i]));
}

/// All the items of a sequence are the sequence.
pub proof fn lemma_take_all<A>(s: Seq<A>)
    ensures
        s.take(s.len() as int) == s,
{
    assert(s.take(s.len() as int) =~= s);
}

/// The texts held by a list of string slices.
pub open spec fn strs(v: Seq<&str>) -> Seq<Seq<char>> {
    v.map_values(|s: &str| s@)
}

/// The text held by an optional string.
pub open spec fn opt_text(o: Option<String>) -> Option<Seq<char>> {
    match o {
        Some(s) => Some(s@),
        None => None,
    }
}

} // verus!
