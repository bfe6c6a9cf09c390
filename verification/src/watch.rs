//! The list of watch roots: normalisation, removal and the form in which the
//! list is stored in the configuration.

use vstd::prelude::*;
use crate::path::{path_components, path_starts_with, path_within, paths_equal, same_path};

verus! {

/// The texts held by a vector of strings.
pub open spec fn texts(v: Seq<String>) -> Seq<Seq<char>> {
    v.map_values(|s: String| s@)
}

/// `p` lies strictly below `q`.
pub open spec fn strictly_within(p: Seq<char>, q: Seq<char>) -> bool {
    path_within(p, q) && !same_path(p, q)
}

/// Some path of `paths` lies strictly above `p`.
pub open spec fn has_ancestor_in(paths: Seq<Seq<char>>, p: Seq<char>) -> bool {
    exists|j: int| 0 <= j < paths.len() && #[trigger] strictly_within(p, paths[j])
}

/// A path before position `i` names the same path as `paths[i]`.
pub open spec fn has_earlier_twin(paths: Seq<Seq<char>>, i: int) -> bool {
    exists|j: int| 0 <= j < i && #[trigger] same_path(paths[j], paths[i])
}

/// `paths[i]` survives normalisation: nothing in the list lies above it and
/// it is the first occurrence of its path.
pub open spec fn kept(paths: Seq<Seq<char>>, i: int) -> bool {
    !has_ancestor_in(paths, paths[i]) && !has_earlier_twin(paths, i)
}

/// The kept paths among the first `n`, in their order.
pub open spec fn normalized_prefix(paths: Seq<Seq<char>>, n: nat) -> Seq<Seq<char>>
    decreases n,
{
    if n == 0 {
        Seq::<Seq<char>>::empty()
    } else {
        let r = normalized_prefix(paths, (n - 1) as nat);
        if kept(paths, n - 1) {
            r.push(paths[n - 1])
        } else {
            r
        }
    }
}

/// The watch roots of `paths`: every path that no other path of the list
/// contains, each path once, in the order of first occurrence.
pub open spec fn normalized(paths: Seq<Seq<char>>) -> Seq<Seq<char>> {
    normalized_prefix(paths, paths.len())
}

/// No path of the list lies within another one at a different position
/// (so in particular none occurs twice).
pub open spec fn independent(paths: Seq<Seq<char>>) -> bool {
    forall|a: int, b: int|
        #![trigger path_within(paths[a], paths[b])]
        0 <= a < paths.len() && 0 <= b < paths.len() && a != b ==> !path_within(paths[a], paths[b])
}

/// Some path of `roots` is `p` or lies above it.
pub open spec fn covered_by(roots: Seq<Seq<char>>, p: Seq<char>) -> bool {
    exists|k: int| 0 <= k < roots.len() && #[trigger] path_within(p, roots[k])
}

/// `paths` without the entries that name the same path as `target`.
pub open spec fn without_path(paths: Seq<Seq<char>>, target: Seq<char>) -> Seq<Seq<char>>
    decreases paths.len(),
{
    if paths.len() == 0 {
        Seq::<Seq<char>>::empty()
    } else {
        let r = without_path(paths.drop_last(), target);
        if same_path(paths.last(), target) {
            r
        } else {
            r.push(paths.last())
        }
    }
}

/// How many entries of `paths` are `base` or lie below it.
pub open spec fn count_within(paths: Seq<Seq<char>>, base: Seq<char>) -> nat
    decreases paths.len(),
{
    if paths.len() == 0 {
        0
    } else {
        count_within(paths.drop_last(), base) + if path_within(paths.last(), base) {
            1nat
        } else {
            0nat
        }
    }
}

/// Some entry of `paths` names the same path as `p`.
pub open spec fn contains_path(paths: Seq<Seq<char>>, p: Seq<char>) -> bool {
    exists|i: int| 0 <= i < paths.len() && #[trigger] same_path(paths[i], p)
}

/// The first entry of `paths` that is `p` or lies above it.
pub open spec fn first_root(paths: Seq<Seq<char>>, p: Seq<char>) -> Option<Seq<char>>
    decreases paths.len(),
{
    if paths.len() == 0 {
        None
    } else if path_within(p, paths[0]) {
        Some(paths[0])
    } else {
        first_root(paths.drop_first(), p)
    }
}

/// A copy of a list of strings.
pub fn copy_paths(paths: &Vec<String>) -> (res: Vec<String>)
    ensures
        texts(res@) == texts(paths@),
{
    let mut out: Vec<String> = Vec::new();
    let mut i: usize = 0;
    while i < paths.len()
        invariant
            i <= paths.len(),
            texts(out@) == texts(paths@).take(i as int),
        decreases paths.len() - i,
    {
        let ghost pre = out@;
        out.push(copy_string(&paths[i]));
        assert(texts(out@) =~= texts(pre).push(paths[i as int]@));
        assert(texts(out@) =~= texts(paths@).take(i + 1));
        i = i + 1;
    }
    assert(texts(paths@).take(paths.len() as int) =~= texts(paths@));
    out
}

/// Whether some entry names the same path as `p`.
pub fn has_path(paths: &Vec<String>, p: &str) -> (res: bool)
    ensures
        res == contains_path(texts(paths@), p@),
{
    let mut i: usize = 0;
    while i < paths.len()
        invariant
            i <= paths.len(),
            forall|k: int| 0 <= k < i ==> !#[trigger] same_path(texts(paths@)[k], p@),
        decreases paths.len() - i,
    {
        if paths_equal(paths[i].as_str(), p) {
            assert(same_path(texts(paths@)[i as int], p@));
            return true;
        }
        i = i + 1;
    }
    false
}

/// The first entry that is `p` or lies above it, if any.
pub fn find_root(paths: &Vec<String>, p: &str) -> (res: Option<String>)
    ensures
        opt_text(res) == first_root(texts(paths@), p@),
{
    let mut i: usize = 0;
    assert(texts(paths@).skip(0) =~= texts(paths@));
    while i < paths.len()
        invariant
            i <= paths.len(),
            first_root(texts(paths@), p@) == first_root(texts(paths@).skip(i as int), p@),
        decreases paths.len() - i,
    {
        let ghost rest = texts(paths@).skip(i as int);
        if path_starts_with(p, paths[i].as_str()) {
            assert(rest[0] == paths[i as int]@);
            return Some(copy_string(&paths[i]));
        }
        assert(rest.drop_first() =~= texts(paths@).skip(i + 1));
        i = i + 1;
    }
    assert(texts(paths@).skip(paths.len() as int) =~= Seq::<Seq<char>>::empty());
    None
}

/// The text of an optional string.
pub open spec fn opt_text(s: Option<String>) -> Option<Seq<char>> {
    match s {
        Some(s) => Some(s@),
        None => None,
    }
}

fn copy_string(s: &String) -> (res: String)
    ensures
        res@ == s@,
{
    s.clone()
}

fn is_kept(paths: &Vec<String>, i: usize) -> (res: bool)
    requires
        i < paths.len(),
    ensures
        res == kept(texts(paths@), i as int),
{
    let ghost t = texts(paths@);
    let mut j: usize = 0;
    while j < paths.len()
        invariant
            i < paths.len(),
            t == texts(paths@),
            j <= paths.len(),
            forall|k: int| 0 <= k < j ==> !strictly_within(t[i as int], #[trigger] t[k]),
            forall|k: int| 0 <= k < j && k < i ==> !#[trigger] same_path(t[k], t[i as int]),
        decreases paths.len() - j,
    {
        let within = path_starts_with(paths[i].as_str(), paths[j].as_str());
        let same = paths_equal(paths[i].as_str(), paths[j].as_str());
        if within && !same {
            assert(strictly_within(t[i as int], t[j as int]));
            return false;
        }
        if j < i {
            let twin = paths_equal(paths[j].as_str(), paths[i].as_str());
            if twin {
                assert(same_path(t[j as int], t[i as int]));
                return false;
            }
        }
        j = j + 1;
    }
    true
}

/// Normalises a list of watch roots: drops every path that lies strictly
/// within another path of the list, and every repeat of a path, keeping the
/// order of first occurrence.
pub fn normalize_watch_paths(paths: &Vec<String>) -> (res: Vec<String>)
    ensures
        texts(res@) == normalized(texts(paths@)),
{
    let ghost t = texts(paths@);
    let mut res: Vec<String> = Vec::new();
    let mut i: usize = 0;
    while i < paths.len()
        invariant
            t == texts(paths@),
            i <= paths.len(),
            texts(res@) == normalized_prefix(t, i as nat),
        decreases paths.len() - i,
    {
        if is_kept(paths, i) {
            let ghost pre = res@;
            res.push(copy_string(&paths[i]));
            assert(texts(res@) =~= texts(pre).push(t[i as int]));
        }
        i = i + 1;
    }
    res
}

/// Removes every entry that names the same path as `target`, keeping the
/// order of the others.
pub fn remove_watch_path(paths: &Vec<String>, target: &str) -> (res: Vec<String>)
    ensures
        texts(res@) == without_path(texts(paths@), target@),
{
    let mut res: Vec<String> = Vec::new();
    let mut i: usize = 0;
    while i < paths.len()
        invariant
            i <= paths.len(),
            texts(res@) == without_path(texts(paths@).take(i as int), target@),
        decreases paths.len() - i,
    {
        let ghost pre = res@;
        assert(texts(paths@).take(i + 1).drop_last() =~= texts(paths@).take(i as int));
        if !paths_equal(paths[i].as_str(), target) {
            res.push(copy_string(&paths[i]));
            assert(texts(res@) =~= texts(pre).push(paths[i as int]@));
        }
        i = i + 1;
    }
    assert(texts(paths@).take(paths.len() as int) =~= texts(paths@));
    res
}

/// Counts the entries that are `base` or lie below it.
pub fn count_paths_within(paths: &Vec<String>, base: &str) -> (res: usize)
    ensures
        res == count_within(texts(paths@), base@),
{
    let mut n: usize = 0;
    let mut i: usize = 0;
    while i < paths.len()
        invariant
            i <= paths.len(),
            n <= i,
            n == count_within(texts(paths@).take(i as int), base@),
        decreases paths.len() - i,
    {
        assert(texts(paths@).take(i + 1).drop_last() =~= texts(paths@).take(i as int));
        if path_starts_with(paths[i].as_str(), base) {
            n = n + 1;
        }
        i = i + 1;
    }
    assert(texts(paths@).take(paths.len() as int) =~= texts(paths@));
    n
}

/// The stored form of the list: none when it is empty, so that the
/// configuration then holds no list at all.
pub fn serialize_watch_paths(paths: &Vec<String>) -> (res: Option<Vec<String>>)
    ensures
        paths.len() == 0 ==> res is None,
        paths.len() > 0 ==> res is Some && texts(res->0@) == texts(paths@),
{
    if paths.len() == 0 {
        return None;
    }
    let mut out: Vec<String> = Vec::new();
    let mut i: usize = 0;
    while i < paths.len()
        invariant
            i <= paths.len(),
            texts(out@) == texts(paths@).take(i as int),
        decreases paths.len() - i,
    {
        let ghost pre = out@;
        out.push(copy_string(&paths[i]));
        assert(texts(out@) =~= texts(pre).push(paths[i as int]@));
        assert(texts(out@) =~= texts(paths@).take(i + 1));
        i = i + 1;
    }
    assert(texts(paths@).take(paths.len() as int) =~= texts(paths@));
    Some(out)
}

/// Removing a path shortens the list exactly when the list holds it.
pub proof fn lemma_without_path_len(paths: Seq<Seq<char>>, target: Seq<char>)
    ensures
        without_path(paths, target).len() <= paths.len(),
        without_path(paths, target).len() == paths.len() <==> !contains_path(paths, target),
        !contains_path(paths, target) ==> without_path(paths, target) == paths,
    decreases paths.len(),
{
    if paths.len() > 0 {
        let init = paths.drop_last();
        lemma_without_path_len(init, target);
        if contains_path(init, target) {
            let i = choose|i: int| 0 <= i < init.len() && #[trigger] same_path(init[i], target);
            assert(same_path(paths[i], target));
        }
        if contains_path(paths, target) && !same_path(paths.last(), target) {
            let i = choose|i: int| 0 <= i < paths.len() && #[trigger] same_path(paths[i], target);
            assert(i < init.len());
            assert(same_path(init[i], target));
        }
        if !contains_path(paths, target) {
            assert(!same_path(paths[paths.len() - 1], target));
            assert forall|i: int| 0 <= i < init.len() implies !#[trigger] same_path(init[i], target) by {
                assert(!same_path(paths[i], target));
            }
            assert(init.push(paths.last()) =~= paths);
        }
    }
}

/// Removal keeps exactly the entries that do not name the target, each taken
/// from the list.
pub proof fn lemma_without_path_members(paths: Seq<Seq<char>>, target: Seq<char>)
    ensures
        forall|k: int|
            0 <= k < without_path(paths, target).len() ==> paths.contains(
                #[trigger] without_path(paths, target)[k],
            ) && !same_path(without_path(paths, target)[k], target),
        forall|i: int|
            0 <= i < paths.len() && !same_path(#[trigger] paths[i], target) ==> without_path(
                paths,
                target,
            ).contains(paths[i]),
    decreases paths.len(),
{
    if paths.len() > 0 {
        let init = paths.drop_last();
        lemma_without_path_members(init, target);
        let r = without_path(init, target);
        let out = without_path(paths, target);
        assert forall|k: int| 0 <= k < out.len() implies paths.contains(#[trigger] out[k]) && !same_path(
            out[k],
            target,
        ) by {
            if k < r.len() {
                assert(out[k] == r[k]);
                let j = choose|j: int| 0 <= j < init.len() && init[j] == r[k];
                assert(paths[j] == init[j]);
            } else {
                assert(out[k] == paths[paths.len() - 1]);
            }
        }
        assert forall|i: int| 0 <= i < paths.len() && !same_path(#[trigger] paths[i], target) implies out.contains(
            paths[i],
        ) by {
            if i < init.len() {
                assert(init[i] == paths[i]);
                let j = choose|j: int| 0 <= j < r.len() && r[j] == init[i];
                if !same_path(paths.last(), target) {
                    assert(out[j] == r[j]);
                }
            } else {
                assert(out[out.len() - 1] == paths[i]);
            }
        }
    }
}

/// No entry is left that names the removed path.
pub proof fn lemma_without_path_removes(paths: Seq<Seq<char>>, target: Seq<char>)
    ensures
        !contains_path(without_path(paths, target), target),
    decreases paths.len(),
{
    if paths.len() > 0 {
        lemma_without_path_removes(paths.drop_last(), target);
        let r = without_path(paths.drop_last(), target);
        let out = without_path(paths, target);
        if contains_path(out, target) {
            let i = choose|i: int| 0 <= i < out.len() && #[trigger] same_path(out[i], target);
            if i < r.len() {
                assert(same_path(r[i], target));
            }
        }
    }
}

/// The count of entries within `base` is zero exactly when none is.
pub proof fn lemma_count_within_zero(paths: Seq<Seq<char>>, base: Seq<char>)
    ensures
        count_within(paths, base) == 0 <==> forall|i: int|
            0 <= i < paths.len() ==> !#[trigger] path_within(paths[i], base),
    decreases paths.len(),
{
    if paths.len() > 0 {
        let init = paths.drop_last();
        lemma_count_within_zero(init, base);
        if count_within(paths, base) == 0 {
            assert forall|i: int| 0 <= i < paths.len() implies !#[trigger] path_within(paths[i], base) by {
                if i < init.len() {
                    assert(init[i] == paths[i]);
                }
            }
        } else {
            if !path_within(paths.last(), base) {
                let i = choose|i: int| 0 <= i < init.len() && #[trigger] path_within(init[i], base);
                assert(path_within(paths[i], base));
            }
        }
    }
}

/// A path has a first root exactly when some entry is it or lies above it.
pub proof fn lemma_first_root(paths: Seq<Seq<char>>, p: Seq<char>)
    ensures
        first_root(paths, p) is Some <==> exists|i: int|
            0 <= i < paths.len() && #[trigger] path_within(p, paths[i]),
        first_root(paths, p) matches Some(r) ==> path_within(p, r) && paths.contains(r),
    decreases paths.len(),
{
    if paths.len() > 0 {
        let rest = paths.drop_first();
        lemma_first_root(rest, p);
        if path_within(p, paths[0]) {
            assert(paths.contains(paths[0]));
        } else {
            if exists|i: int| 0 <= i < paths.len() && #[trigger] path_within(p, paths[i]) {
                let i = choose|i: int| 0 <= i < paths.len() && #[trigger] path_within(p, paths[i]);
                assert(rest[i - 1] == paths[i]);
            }
            if exists|i: int| 0 <= i < rest.len() && #[trigger] path_within(p, rest[i]) {
                let i = choose|i: int| 0 <= i < rest.len() && #[trigger] path_within(p, rest[i]);
                assert(paths[i + 1] == rest[i]);
            }
            if first_root(rest, p) is Some {
                let r = first_root(rest, p)->0;
                let j = choose|j: int| 0 <= j < rest.len() && rest[j] == r;
                assert(paths[j + 1] == r);
            }
        }
    }
}

/// The count of entries within `base` is the length of the list of those
/// entries.
pub proof fn lemma_count_within_filter(paths: Seq<Seq<char>>, base: Seq<char>)
    ensures
        count_within(paths, base) == paths.filter(|e: Seq<char>| path_within(e, base)).len(),
    decreases paths.len(),
{
    reveal(Seq::filter);
    if paths.len() > 0 {
        lemma_count_within_filter(paths.drop_last(), base);
    }
}

/// The first root of a path is the entry at the first position that holds
/// the path.
pub proof fn lemma_first_root_index(paths: Seq<Seq<char>>, p: Seq<char>)
    requires
        first_root(paths, p) is Some,
    ensures
        exists|r: int|
            0 <= r < paths.len() && path_within(p, paths[r]) && (forall|j: int|
                0 <= j < r ==> !#[trigger] path_within(p, paths[j])) && first_root(paths, p) == Some(
                #[trigger] paths[r],
            ),
    decreases paths.len(),
{
    if !path_within(p, paths[0]) {
        let rest = paths.drop_first();
        lemma_first_root_index(rest, p);
        let r = choose|r: int|
            0 <= r < rest.len() && path_within(p, rest[r]) && (forall|j: int|
                0 <= j < r ==> !#[trigger] path_within(p, rest[j])) && first_root(rest, p) == Some(
                #[trigger] rest[r],
            );
        assert(paths[r + 1] == rest[r]);
        assert forall|j: int| 0 <= j < r + 1 implies !#[trigger] path_within(p, paths[j]) by {
            if j > 0 {
                assert(paths[j] == rest[j - 1]);
            }
        }
    } else {
        assert(first_root(paths, p) == Some(paths[0]));
    }
}

/// Every path lies within itself.
pub proof fn lemma_within_reflexive(p: Seq<char>)
    ensures
        path_within(p, p),
{
    let c = path_components(p);
    assert(c.take(c.len() as int) =~= c);
}

/// Lying within is transitive.
pub proof fn lemma_within_transitive(p: Seq<char>, q: Seq<char>, r: Seq<char>)
    requires
        path_within(p, q),
        path_within(q, r),
    ensures
        path_within(p, r),
{
    let cp = path_components(p);
    let cq = path_components(q);
    let cr = path_components(r);
    assert(cp.take(cr.len() as int) =~= cq.take(cr.len() as int));
}

/// `x` is one of the kept paths among the first `n`.
pub open spec fn kept_member(paths: Seq<Seq<char>>, x: Seq<char>, n: int) -> bool {
    exists|i: int| 0 <= i < n && kept(paths, i) && #[trigger] paths[i] == x
}

proof fn lemma_prefix_shape(paths: Seq<Seq<char>>, n: nat)
    requires
        n <= paths.len(),
    ensures
        independent(normalized_prefix(paths, n)),
        forall|k: int|
            0 <= k < normalized_prefix(paths, n).len() ==> kept_member(
                paths,
                #[trigger] normalized_prefix(paths, n)[k],
                n as int,
            ),
    decreases n,
{
    if n > 0 {
        let m = (n - 1) as nat;
        lemma_prefix_shape(paths, m);
        let r = normalized_prefix(paths, m);
        let out = normalized_prefix(paths, n);
        assert forall|k: int| 0 <= k < out.len() implies kept_member(
            paths,
            #[trigger] out[k],
            n as int,
        ) by {
            if k < r.len() {
                assert(kept_member(paths, r[k], m as int));
                let i = choose|i: int| 0 <= i < m && kept(paths, i) && #[trigger] paths[i] == r[k];
                assert(paths[i] == out[k]);
            } else {
                assert(paths[m as int] == out[k]);
            }
        }
        if kept(paths, m as int) {
            let x = paths[m as int];
            assert forall|a: int, b: int|
                0 <= a < out.len() && 0 <= b < out.len() && a != b implies !#[trigger] path_within(
                out[a],
                out[b],
            ) by {
                if a < r.len() && b < r.len() {
                    assert(out[a] == r[a] && out[b] == r[b]);
                } else {
                    let k = if a < r.len() { a } else { b };
                    assert(kept_member(paths, r[k], m as int));
                    let i = choose|i: int| 0 <= i < m && kept(paths, i) && #[trigger] paths[i] == r[k];
                    assert(out[k] == paths[i]);
                    if a < r.len() {
                        // out[a] = paths[i], out[b] = x
                        if path_within(paths[i], x) {
                            if same_path(paths[i], x) {
                                assert(same_path(paths[i], paths[m as int]));
                                assert(has_earlier_twin(paths, m as int));
                            } else {
                                assert(strictly_within(paths[i], paths[m as int]));
                                assert(has_ancestor_in(paths, paths[i]));
                            }
                        }
                    } else {
                        if path_within(x, paths[i]) {
                            if same_path(x, paths[i]) {
                                assert(same_path(paths[i], paths[m as int]));
                                assert(has_earlier_twin(paths, m as int));
                            } else {
                                assert(strictly_within(paths[m as int], paths[i]));
                                assert(has_ancestor_in(paths, paths[m as int]));
                            }
                        }
                    }
                }
            }
        }
    }
}

proof fn lemma_kept_included(paths: Seq<Seq<char>>, n: nat, k: int)
    requires
        n <= paths.len(),
        0 <= k < n,
        kept(paths, k),
    ensures
        normalized_prefix(paths, n).contains(paths[k]),
    decreases n,
{
    let m = (n - 1) as nat;
    if k == m {
        assert(normalized_prefix(paths, n).last() == paths[k]);
    } else {
        lemma_kept_included(paths, m, k);
        let r = normalized_prefix(paths, m);
        let j = choose|j: int| 0 <= j < r.len() && r[j] == paths[k];
        if kept(paths, m as int) {
            assert(normalized_prefix(paths, n)[j] == paths[k]);
        }
    }
}

proof fn lemma_has_kept_root(paths: Seq<Seq<char>>, i: int)
    requires
        0 <= i < paths.len(),
    ensures
        exists|k: int| 0 <= k < paths.len() && kept(paths, k) && #[trigger] path_within(paths[i], paths[k]),
    decreases path_components(paths[i]).len(), i,
{
    if kept(paths, i) {
        lemma_within_reflexive(paths[i]);
        assert(path_within(paths[i], paths[i]));
    } else if has_ancestor_in(paths, paths[i]) {
        let j = choose|j: int| 0 <= j < paths.len() && #[trigger] strictly_within(paths[i], paths[j]);
        let ci = path_components(paths[i]);
        let cj = path_components(paths[j]);
        assert(cj.len() < ci.len()) by {
            if cj.len() == ci.len() {
                assert(ci.take(cj.len() as int) =~= ci);
            }
        }
        lemma_has_kept_root(paths, j);
        let k = choose|k: int| 0 <= k < paths.len() && kept(paths, k) && #[trigger] path_within(paths[j], paths[k]);
        lemma_within_transitive(paths[i], paths[j], paths[k]);
    } else {
        let j = choose|j: int| 0 <= j < i && #[trigger] same_path(paths[j], paths[i]);
        lemma_has_kept_root(paths, j);
        let k = choose|k: int| 0 <= k < paths.len() && kept(paths, k) && #[trigger] path_within(paths[j], paths[k]);
        assert(path_within(paths[i], paths[k]));
    }
}

/// A path that neither names nor lies below any entry of a list survives the
/// normalisation of the list with the path appended.
pub proof fn lemma_appended_root_kept(paths: Seq<Seq<char>>, p: Seq<char>)
    requires
        !contains_path(paths, p),
        forall|j: int| 0 <= j < paths.len() ==> !#[trigger] path_within(p, paths[j]),
    ensures
        normalized(paths.push(p)).contains(p),
{
    let all = paths.push(p);
    let n = paths.len() as int;
    assert(all[n] == p);
    assert(!has_ancestor_in(all, all[n])) by {
        if has_ancestor_in(all, all[n]) {
            let j = choose|j: int| 0 <= j < all.len() && #[trigger] strictly_within(all[n], all[j]);
            if j < n {
                assert(all[j] == paths[j]);
                assert(path_within(p, paths[j]));
            }
        }
    }
    assert(!has_earlier_twin(all, n)) by {
        if has_earlier_twin(all, n) {
            let j = choose|j: int| 0 <= j < n && #[trigger] same_path(all[j], all[n]);
            assert(all[j] == paths[j]);
            assert(same_path(paths[j], p));
        }
    }
    lemma_kept_included(all, all.len(), n);
}

/// No root left by normalisation lies within another one, and none occurs
/// twice.
pub proof fn law_normalized_roots_independent(paths: Seq<Seq<char>>)
    ensures
        independent(normalized(paths)),
{
    lemma_prefix_shape(paths, paths.len());
}

/// Normalisation keeps only paths of its input.
pub proof fn law_normalized_only_inputs(paths: Seq<Seq<char>>)
    ensures
        forall|k: int|
            0 <= k < normalized(paths).len() ==> paths.contains(#[trigger] normalized(paths)[k]),
{
    lemma_prefix_shape(paths, paths.len());
    assert forall|k: int| 0 <= k < normalized(paths).len() implies paths.contains(
        #[trigger] normalized(paths)[k],
    ) by {
        assert(kept_member(paths, normalized(paths)[k], paths.len() as int));
        let i = choose|i: int|
            0 <= i < paths.len() && kept(paths, i) && #[trigger] paths[i] == normalized(paths)[k];
        assert(paths[i] == normalized(paths)[k]);
    }
}

/// Normalisation loses no watched directory: every input path is a root of
/// the result or lies below one.
pub proof fn law_normalized_covers_all(paths: Seq<Seq<char>>)
    ensures
        forall|i: int| 0 <= i < paths.len() ==> covered_by(normalized(paths), #[trigger] paths[i]),
{
    assert forall|i: int| 0 <= i < paths.len() implies covered_by(
        normalized(paths),
        #[trigger] paths[i],
    ) by {
        lemma_has_kept_root(paths, i);
        let k = choose|k: int| 0 <= k < paths.len() && kept(paths, k) && #[trigger] path_within(paths[i], paths[k]);
        lemma_kept_included(paths, paths.len(), k);
        let n = normalized(paths);
        let j = choose|j: int| 0 <= j < n.len() && n[j] == paths[k];
        assert(path_within(paths[i], n[j]));
    }
}

/// A list in which no path lies within another is left as it is.
pub proof fn law_normalize_keeps_independent(paths: Seq<Seq<char>>)
    requires
        independent(paths),
    ensures
        normalized(paths) == paths,
{
    lemma_independent_prefix(paths, paths.len());
    assert(paths.take(paths.len() as int) =~= paths);
}

proof fn lemma_independent_prefix(paths: Seq<Seq<char>>, n: nat)
    requires
        independent(paths),
        n <= paths.len(),
    ensures
        normalized_prefix(paths, n) == paths.take(n as int),
    decreases n,
{
    if n == 0 {
        assert(paths.take(0) =~= Seq::<Seq<char>>::empty());
    } else {
        let m = (n - 1) as nat;
        lemma_independent_prefix(paths, m);
        let i = m as int;
        assert(!has_ancestor_in(paths, paths[i])) by {
            if has_ancestor_in(paths, paths[i]) {
                let j = choose|j: int| 0 <= j < paths.len() && #[trigger] strictly_within(paths[i], paths[j]);
                assert(path_within(paths[i], paths[j]));
            }
        }
        assert(!has_earlier_twin(paths, i)) by {
            if has_earlier_twin(paths, i) {
                let j = choose|j: int| 0 <= j < i && #[trigger] same_path(paths[j], paths[i]);
                lemma_within_reflexive(paths[i]);
                assert(path_within(paths[j], paths[i]));
            }
        }
        assert(paths.take(n as int) =~= paths.take(m as int).push(paths[i]));
    }
}

/// Normalising twice gives the same list as normalising once.
pub proof fn law_normalize_idempotent(paths: Seq<Seq<char>>)
    ensures
        normalized(normalized(paths)) == normalized(paths),
{
    law_normalized_roots_independent(paths);
    law_normalize_keeps_independent(normalized(paths));
}

} // verus!
