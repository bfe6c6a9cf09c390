//! Unix paths compared component by component.
//!
//! A path is held as its text. Two paths are the same path when their
//! component lists are equal, and a path lies within a base when the base's
//! components are a prefix of its own. A component is written as a sequence
//! of characters: the root as `/`, a leading current-directory marker as `.`,
//! a parent marker as `..`, and any other name as itself.

use vstd::prelude::*;
use vstd::string::*;
use crate::text::{chars_equal, str_chars};

verus! {

/// The text between separators: `s` split at every `/`. Never empty; a path
/// that starts with `/` has an empty first segment.
pub open spec fn split_segments(s: Seq<char>) -> Seq<Seq<char>>
    decreases s.len(),
{
    if s.len() == 0 {
        seq![Seq::<char>::empty()]
    } else {
        let init = split_segments(s.drop_last());
        if s.last() == '/' {
            init.push(Seq::<char>::empty())
        } else {
            init.update(init.len() - 1, init.last().push(s.last()))
        }
    }
}

/// A segment that names no component: empty (doubled or trailing
/// separators) or a current-directory marker inside the path.
pub open spec fn is_filler_segment(g: Seq<char>) -> bool {
    g.len() == 0 || g == seq!['.']
}

/// The segments that name components, in order.
pub open spec fn named_segments(segs: Seq<Seq<char>>) -> Seq<Seq<char>>
    decreases segs.len(),
{
    if segs.len() == 0 {
        Seq::<Seq<char>>::empty()
    } else {
        let init = named_segments(segs.drop_last());
        if is_filler_segment(segs.last()) {
            init
        } else {
            init.push(segs.last())
        }
    }
}

/// Whether the path text starts at the root.
pub open spec fn is_absolute(s: Seq<char>) -> bool {
    s.len() > 0 && s[0] == '/'
}

/// The components of a path: the root if it is absolute, a current-directory
/// marker if a relative path starts with the segment `.`, then every named
/// segment.
pub open spec fn path_components(s: Seq<char>) -> Seq<Seq<char>> {
    let segs = split_segments(s);
    if is_absolute(s) {
        seq![seq!['/']] + named_segments(segs.drop_first())
    } else if segs[0] == seq!['.'] {
        seq![seq!['.']] + named_segments(segs.drop_first())
    } else {
        named_segments(segs)
    }
}

/// `a` is a prefix of `b`.
pub open spec fn is_prefix_of(a: Seq<Seq<char>>, b: Seq<Seq<char>>) -> bool {
    a.len() <= b.len() && b.take(a.len() as int) == a
}

/// The two texts name the same path.
pub open spec fn same_path(a: Seq<char>, b: Seq<char>) -> bool {
    path_components(a) == path_components(b)
}

/// `p` is `base` or lies below it.
pub open spec fn path_within(p: Seq<char>, base: Seq<char>) -> bool {
    is_prefix_of(path_components(base), path_components(p))
}

/// The character sequences held by a vector of character vectors.
pub open spec fn rows(v: Seq<Vec<char>>) -> Seq<Seq<char>> {
    v.map_values(|r: Vec<char>| r@)
}

/// A path lies within a base exactly when every component of the base
/// equals the component of the path at the same position; two paths are the
/// same exactly when their components agree one for one.
pub proof fn law_path_within_by_components(p: Seq<char>, base: Seq<char>)
    ensures
        path_within(p, base) <==> {
            &&& path_components(base).len() <= path_components(p).len()
            &&& forall|i: int|
                0 <= i < path_components(base).len() ==> #[trigger] path_components(base)[i]
                    == path_components(p)[i]
        },
        same_path(p, base) <==> {
            &&& path_components(base).len() == path_components(p).len()
            &&& forall|i: int|
                0 <= i < path_components(base).len() ==> #[trigger] path_components(base)[i]
                    == path_components(p)[i]
        },
        same_path(p, base) ==> path_within(p, base) && path_within(base, p),
{
    let cb = path_components(base);
    let cp = path_components(p);
    if cb.len() <= cp.len() && forall|i: int| 0 <= i < cb.len() ==> #[trigger] cb[i] == cp[i] {
        assert(cp.take(cb.len() as int) =~= cb);
        if cb.len() == cp.len() {
            assert(cp =~= cb);
        }
    }
    if path_within(p, base) {
        assert forall|i: int| 0 <= i < cb.len() implies #[trigger] cb[i] == cp[i] by {
            assert(cp.take(cb.len() as int)[i] == cp[i]);
        }
    }
    if same_path(p, base) {
        assert(cp.take(cb.len() as int) =~= cb);
        assert(cb.take(cp.len() as int) =~= cp);
    }
}

/// `split_segments` always yields at least one segment.
pub proof fn lemma_split_segments_nonempty(s: Seq<char>)
    ensures
        split_segments(s).len() >= 1,
    decreases s.len(),
{
    if s.len() > 0 {
        lemma_split_segments_nonempty(s.drop_last());
    }
}

fn copy_chars(v: &Vec<char>) -> (res: Vec<char>)
    ensures
        res@ == v@,
{
    let mut res: Vec<char> = Vec::new();
    let mut i: usize = 0;
    while i < v.len()
        invariant
            i <= v.len(),
            res@ == v@.take(i as int),
        decreases v.len() - i,
    {
        res.push(v[i]);
        i = i + 1;
        assert(res@ =~= v@.take(i as int));
    }
    assert(res@ =~= v@);
    res
}

fn split_chars(s: &Vec<char>) -> (res: Vec<Vec<char>>)
    ensures
        rows(res@) == split_segments(s@),
{
    let mut done: Vec<Vec<char>> = Vec::new();
    let mut cur: Vec<char> = Vec::new();
    let mut i: usize = 0;
    assert(s@.take(0) =~= Seq::<char>::empty());
    assert(rows(done@).push(cur@) =~= seq![Seq::<char>::empty()]);
    while i < s.len()
        invariant
            i <= s.len(),
            split_segments(s@.take(i as int)) == rows(done@).push(cur@),
        decreases s.len() - i,
    {
        let c = s[i];
        let ghost before = rows(done@).push(cur@);
        assert(s@.take(i + 1).drop_last() =~= s@.take(i as int));
        assert(s@.take(i + 1).last() == c);
        if c == '/' {
            let finished = cur;
            done.push(finished);
            cur = Vec::new();
            assert(rows(done@).push(cur@) =~= before.push(Seq::<char>::empty()));
        } else {
            cur.push(c);
            assert(rows(done@).push(cur@) =~= before.update(
                before.len() - 1,
                before.last().push(c),
            ));
        }
        i = i + 1;
    }
    assert(s@.take(s.len() as int) =~= s@);
    done.push(cur);
    done
}

fn push_named(acc: &mut Vec<Vec<char>>, segs: &Vec<Vec<char>>, start: usize)
    requires
        start <= segs.len(),
    ensures
        rows(final(acc)@) == rows(old(acc)@) + named_segments(
            rows(segs@).skip(start as int),
        ),
{
    let ghost base = rows(acc@);
    let mut i: usize = start;
    assert(rows(segs@).subrange(start as int, start as int) =~= Seq::<Seq<char>>::empty());
    assert(rows(acc@) =~= base + named_segments(Seq::<Seq<char>>::empty()));
    while i < segs.len()
        invariant
            start <= i <= segs.len(),
            rows(acc@) == base + named_segments(
                rows(segs@).subrange(start as int, i as int),
            ),
        decreases segs.len() - i,
    {
        let ghost prev = rows(segs@).subrange(start as int, i as int);
        let ghost next = rows(segs@).subrange(start as int, i + 1);
        assert(next.drop_last() =~= prev);
        assert(next.last() == segs[i as int]@);
        let empty = segs[i].len() == 0;
        let dot = segs[i].len() == 1 && segs[i][0] == '.';
        if !(empty || dot) {
            assert(!is_filler_segment(segs[i as int]@)) by {
                if segs[i as int]@ == seq!['.'] {
                    assert(segs[i as int]@[0] == '.');
                }
            }
            let copy = copy_chars(&segs[i]);
            let ghost pre = acc@;
            acc.push(copy);
            assert(acc@ =~= pre.push(copy));
            assert(rows(acc@) =~= rows(pre).push(segs[i as int]@));
            assert(rows(acc@) =~= base + named_segments(next));
        } else {
            assert(is_filler_segment(segs[i as int]@)) by {
                if dot {
                    assert(segs[i as int]@ =~= seq!['.']);
                }
            }
        }
        i = i + 1;
    }
    assert(rows(segs@).subrange(start as int, segs.len() as int) =~= rows(segs@).skip(
        start as int,
    ));
}

/// The components of the path `s`, as `path_components` describes them.
pub fn components(s: &str) -> (res: Vec<Vec<char>>)
    ensures
        rows(res@) == path_components(s@),
{
    let chars = str_chars(s);
    let segs = split_chars(&chars);
    proof {
        lemma_split_segments_nonempty(chars@);
    }
    let mut res: Vec<Vec<char>> = Vec::new();
    if chars.len() > 0 && chars[0] == '/' {
        let mut root: Vec<char> = Vec::new();
        root.push('/');
        res.push(root);
        assert(rows(res@) =~= seq![seq!['/']]);
        push_named(&mut res, &segs, 1);
        assert(rows(segs@).skip(1) =~= rows(segs@).drop_first());
    } else if segs[0].len() == 1 && segs[0][0] == '.' {
        assert(rows(segs@)[0] =~= seq!['.']);
        let mut dot: Vec<char> = Vec::new();
        dot.push('.');
        res.push(dot);
        assert(rows(res@) =~= seq![seq!['.']]);
        push_named(&mut res, &segs, 1);
        assert(rows(segs@).skip(1) =~= rows(segs@).drop_first());
    } else {
        assert(rows(segs@)[0] != seq!['.']) by {
            if rows(segs@)[0] == seq!['.'] {
                assert(segs[0]@.len() == 1 && segs[0]@[0] == '.');
            }
        }
        assert(rows(res@) =~= Seq::<Seq<char>>::empty());
        push_named(&mut res, &segs, 0);
        assert(rows(segs@).skip(0) =~= rows(segs@));
        assert(rows(res@) =~= named_segments(rows(segs@)));
    }
    res
}

fn rows_prefix(a: &Vec<Vec<char>>, b: &Vec<Vec<char>>) -> (res: bool)
    ensures
        res == is_prefix_of(rows(a@), rows(b@)),
{
    if a.len() > b.len() {
        return false;
    }
    let mut i: usize = 0;
    while i < a.len()
        invariant
            a.len() <= b.len(),
            i <= a.len(),
            forall|k: int| 0 <= k < i ==> rows(a@)[k] == rows(b@)[k],
        decreases a.len() - i,
    {
        if !chars_equal(&a[i], &b[i]) {
            assert(rows(b@).take(a.len() as int)[i as int] != rows(a@)[i as int]);
            return false;
        }
        i = i + 1;
    }
    assert(rows(b@).take(a.len() as int) =~= rows(a@));
    true
}

/// Whether `a` and `b` name the same path: their component lists are equal.
pub fn paths_equal(a: &str, b: &str) -> (res: bool)
    ensures
        res == same_path(a@, b@),
{
    let x = components(a);
    let y = components(b);
    let r = rows_prefix(&x, &y) && x.len() == y.len();
    proof {
        assert(rows(y@).take(rows(y@).len() as int) =~= rows(y@));
        if r {
            assert(rows(y@).take(rows(x@).len() as int) =~= rows(y@));
        }
    }
    r
}

/// Whether `p` is `base` or lies below it: the components of `base` are a
/// prefix of those of `p`. Only whole components match.
pub fn path_starts_with(p: &str, base: &str) -> (res: bool)
    ensures
        res == path_within(p@, base@),
{
    let x = components(base);
    let y = components(p);
    rows_prefix(&x, &y)
}

/// Drops leading empty and `.` segments together with their separators.
pub open spec fn trim_leading(s: Seq<char>) -> Seq<char>
    decreases s.len(),
{
    if s.len() > 0 && s[0] == '/' {
        trim_leading(s.drop_first())
    } else if s == seq!['.'] {
        Seq::<char>::empty()
    } else if s.len() >= 2 && s[0] == '.' && s[1] == '/' {
        trim_leading(s.skip(2))
    } else {
        s
    }
}

/// Drops trailing empty and `.` segments together with their separators.
pub open spec fn trim_trailing(s: Seq<char>) -> Seq<char>
    decreases s.len(),
{
    if s.len() > 0 && s.last() == '/' {
        trim_trailing(s.drop_last())
    } else if s == seq!['.'] {
        Seq::<char>::empty()
    } else if s.len() >= 2 && s.last() == '.' && s[s.len() - 2] == '/' {
        trim_trailing(s.take(s.len() - 2))
    } else {
        s
    }
}

/// When the path's first component is `~`, the rest of the path after it,
/// trimmed of leading and trailing empty and `.` segments.
pub open spec fn home_relative_rest(s: Seq<char>) -> Option<Seq<char>> {
    if s == seq!['~'] {
        Some(Seq::<char>::empty())
    } else if s.len() >= 2 && s[0] == '~' && s[1] == '/' {
        Some(trim_trailing(trim_leading(s.skip(2))))
    } else {
        None
    }
}

/// `base` with `rel` appended: an absolute `rel` replaces `base`; otherwise a
/// separator is put between them when `base` is non-empty and does not end
/// in one.
pub open spec fn join(base: Seq<char>, rel: Seq<char>) -> Seq<char> {
    if is_absolute(rel) {
        rel
    } else if base.len() > 0 && base.last() != '/' {
        base + seq!['/'] + rel
    } else {
        base + rel
    }
}

/// Where a path given to `remove-path` is anchored.
pub enum TargetBase {
    /// It starts with the component `~`; `rest` is what follows, to be
    /// joined to the home directory.
    Home { rest: String },
    /// It starts at the root and stands as it is.
    Absolute,
    /// It is relative, to be joined to the current directory.
    CurrentDir,
}

/// The path that a `remove-path` argument denotes before canonicalisation,
/// given the home and the current directory.
pub open spec fn expanded_target(raw: Seq<char>, home: Seq<char>, cwd: Seq<char>) -> Seq<char> {
    match home_relative_rest(raw) {
        Some(rest) => join(home, rest),
        None => if is_absolute(raw) {
            raw
        } else {
            join(cwd, raw)
        },
    }
}

/// Splitting at a separator splits the segment lists: the segments of
/// `a/b` are those of `a` followed by those of `b`.
pub proof fn lemma_split_concat(a: Seq<char>, b: Seq<char>)
    ensures
        split_segments(a + seq!['/'] + b) == split_segments(a) + split_segments(b),
    decreases b.len(),
{
    lemma_split_segments_nonempty(a);
    let ab = a + seq!['/'] + b;
    if b.len() == 0 {
        assert(ab.drop_last() =~= a);
        assert(split_segments(a) + split_segments(b) =~= split_segments(a).push(Seq::<char>::empty()));
    } else {
        let b0 = b.drop_last();
        lemma_split_concat(a, b0);
        lemma_split_segments_nonempty(b0);
        assert(ab.drop_last() =~= a + seq!['/'] + b0);
        assert(ab.last() == b.last());
        let sa = split_segments(a);
        let sb0 = split_segments(b0);
        if b.last() == '/' {
            assert(split_segments(ab) =~= (sa + sb0).push(Seq::<char>::empty()));
            assert(split_segments(b) == sb0.push(Seq::<char>::empty()));
            assert(split_segments(ab) =~= sa + split_segments(b));
        } else {
            let whole = sa + sb0;
            assert(whole.last() == sb0.last());
            assert(split_segments(ab) == whole.update(whole.len() - 1, whole.last().push(b.last())));
            assert(split_segments(b) == sb0.update(sb0.len() - 1, sb0.last().push(b.last())));
            assert(split_segments(ab) =~= sa + split_segments(b));
        }
    }
}

/// Naming segments distributes over concatenation.
pub proof fn lemma_named_concat(x: Seq<Seq<char>>, y: Seq<Seq<char>>)
    ensures
        named_segments(x + y) == named_segments(x) + named_segments(y),
    decreases y.len(),
{
    if y.len() == 0 {
        assert(x + y =~= x);
        assert(named_segments(x) + named_segments(y) =~= named_segments(x));
    } else {
        lemma_named_concat(x, y.drop_last());
        assert((x + y).drop_last() =~= x + y.drop_last());
        assert((x + y).last() == y.last());
        if is_filler_segment(y.last()) {
        } else {
            assert(named_segments(x + y) =~= named_segments(x) + named_segments(y));
        }
    }
}

proof fn lemma_absolute_components_append(base: Seq<char>, rel: Seq<char>)
    requires
        is_absolute(base),
    ensures
        path_components(base + seq!['/'] + rel) == path_components(base) + named_segments(
            split_segments(rel),
        ),
{
    let j = base + seq!['/'] + rel;
    assert(j[0] == base[0]);
    lemma_split_concat(base, rel);
    lemma_split_segments_nonempty(base);
    let sb = split_segments(base);
    assert((sb + split_segments(rel)).drop_first() =~= sb.drop_first() + split_segments(rel));
    lemma_named_concat(sb.drop_first(), split_segments(rel));
    assert(path_components(j) =~= path_components(base) + named_segments(split_segments(rel)));
}

/// The components of an absolute path joined with a relative one: those of
/// the base, then every named segment of the relative path.
pub proof fn lemma_join_components(base: Seq<char>, rel: Seq<char>)
    requires
        is_absolute(base),
        !is_absolute(rel),
    ensures
        path_components(join(base, rel)) == path_components(base) + named_segments(
            split_segments(rel),
        ),
{
    let cb = path_components(base);
    if base.last() != '/' {
        lemma_absolute_components_append(base, rel);
        assert(join(base, rel) == base + seq!['/'] + rel);
    } else {
        let b0 = base.drop_last();
        assert(base =~= b0 + seq!['/'] + Seq::<char>::empty());
        assert(join(base, rel) =~= b0 + seq!['/'] + rel);
        let sj = split_segments(b0 + seq!['/'] + rel);
        let sb = split_segments(b0 + seq!['/'] + Seq::<char>::empty());
        lemma_split_concat(b0, rel);
        lemma_split_concat(b0, Seq::<char>::empty());
        lemma_split_segments_nonempty(b0);
        let s0 = split_segments(b0);
        assert(split_segments(Seq::<char>::empty()) =~= seq![Seq::<char>::empty()]);
        assert(named_segments(seq![Seq::<char>::empty()]) =~= Seq::<Seq<char>>::empty()) by {
            let one = seq![Seq::<char>::empty()];
            assert(one.drop_last() =~= Seq::<Seq<char>>::empty());
            assert(one.last().len() == 0);
            assert(is_filler_segment(one.last()));
            assert(named_segments(one.drop_last()) =~= Seq::<Seq<char>>::empty());
        }
        assert(join(base, rel)[0] == '/');
        if b0.len() > 0 {
            assert(b0[0] == base[0]);
        }
        assert(sj.drop_first() =~= s0.drop_first() + split_segments(rel)) by {
            if b0.len() == 0 {
                assert(s0 =~= seq![Seq::<char>::empty()]);
            }
        }
        assert(sb.drop_first() =~= s0.drop_first() + seq![Seq::<char>::empty()]);
        lemma_named_concat(s0.drop_first(), split_segments(rel));
        lemma_named_concat(s0.drop_first(), seq![Seq::<char>::empty()]);
        let cj = path_components(join(base, rel));
        assert(cb =~= seq![seq!['/']] + named_segments(s0.drop_first()));
        assert(cj =~= cb + named_segments(split_segments(rel)));
    }
}

/// Joining a relative path onto an absolute one stays within it.
pub proof fn law_join_stays_within(base: Seq<char>, rel: Seq<char>)
    requires
        is_absolute(base),
        !is_absolute(rel),
    ensures
        path_within(join(base, rel), base),
{
    lemma_join_components(base, rel);
    let cb = path_components(base);
    let cj = path_components(join(base, rel));
    assert(cj.take(cb.len() as int) =~= cb);
}

proof fn lemma_trim_leading_relative(s: Seq<char>)
    ensures
        !is_absolute(trim_leading(s)),
    decreases s.len(),
{
    if s.len() > 0 && s[0] == '/' {
        lemma_trim_leading_relative(s.drop_first());
    } else if s == seq!['.'] {
    } else if s.len() >= 2 && s[0] == '.' && s[1] == '/' {
        lemma_trim_leading_relative(s.skip(2));
    }
}

proof fn lemma_trim_trailing_prefix(s: Seq<char>)
    ensures
        trim_trailing(s).len() <= s.len(),
        trim_trailing(s) == s.take(trim_trailing(s).len() as int),
    decreases s.len(),
{
    if s.len() > 0 && s.last() == '/' {
        lemma_trim_trailing_prefix(s.drop_last());
        let t = trim_trailing(s.drop_last());
        assert(s.drop_last().take(t.len() as int) =~= s.take(t.len() as int));
    } else if s == seq!['.'] {
        assert(s.take(0) =~= Seq::<char>::empty());
    } else if s.len() >= 2 && s.last() == '.' && s[s.len() - 2] == '/' {
        let s0 = s.take(s.len() - 2);
        lemma_trim_trailing_prefix(s0);
        let t = trim_trailing(s0);
        assert(s0.take(t.len() as int) =~= s.take(t.len() as int));
    } else {
        assert(s.take(s.len() as int) =~= s);
    }
}

/// What follows `~` is a relative path.
pub proof fn law_home_rest_is_relative(raw: Seq<char>)
    ensures
        home_relative_rest(raw) matches Some(rest) ==> !is_absolute(rest),
{
    if raw.len() >= 2 && raw[0] == '~' && raw[1] == '/' && raw != seq!['~'] {
        let t = trim_leading(raw.skip(2));
        lemma_trim_leading_relative(raw.skip(2));
        lemma_trim_trailing_prefix(t);
        let r = trim_trailing(t);
        if r.len() > 0 {
            assert(r[0] == t[0]);
        }
    }
}

/// A `remove-path` argument resolves within the home directory when it
/// starts with `~`, stands as given when it is otherwise absolute, and
/// resolves within the current directory when it is relative (for absolute
/// home and current directories).
pub proof fn law_expanded_target_anchor(raw: Seq<char>, home: Seq<char>, cwd: Seq<char>)
    requires
        is_absolute(home),
        is_absolute(cwd),
    ensures
        home_relative_rest(raw) is Some ==> path_within(expanded_target(raw, home, cwd), home),
        home_relative_rest(raw) is None && is_absolute(raw) ==> expanded_target(raw, home, cwd) == raw,
        home_relative_rest(raw) is None && !is_absolute(raw) ==> path_within(
            expanded_target(raw, home, cwd),
            cwd,
        ),
{
    law_home_rest_is_relative(raw);
    match home_relative_rest(raw) {
        Some(rest) => {
            law_join_stays_within(home, rest);
        },
        None => {
            if !is_absolute(raw) {
                law_join_stays_within(cwd, raw);
            }
        },
    }
}

/// With absolute home and current directories, a resolved target is
/// absolute, and resolving it again gives it back unchanged.
pub proof fn law_expanded_target_idempotent(raw: Seq<char>, home: Seq<char>, cwd: Seq<char>)
    requires
        is_absolute(home),
        is_absolute(cwd),
    ensures
        is_absolute(expanded_target(raw, home, cwd)),
        expanded_target(expanded_target(raw, home, cwd), home, cwd) == expanded_target(raw, home, cwd),
{
    let p = expanded_target(raw, home, cwd);
    match home_relative_rest(raw) {
        Some(rest) => {
            assert(join(home, rest)[0] == '/');
        },
        None => {
            if !is_absolute(raw) {
                assert(join(cwd, raw)[0] == '/');
            }
        },
    }
    assert(p[0] == '/');
    assert(home_relative_rest(p) is None) by {
        if p == seq!['~'] {
            assert(p[0] == '~');
        }
    }
}

/// The message of a failure to read the current directory.
pub open spec fn cwd_error_message(e: Seq<char>) -> Seq<char> {
    "Unable to resolve current directory: "@ + e
}

/// Resolves a `remove-path` argument before canonicalisation: a path whose
/// first component is `~` is joined onto `home`, another absolute path
/// stands as given, and a relative path is joined onto the current
/// directory. Only a relative path needs the current directory; when it
/// could not be read, its error is reported.
pub fn expand_remove_target(raw: &str, home: &str, cwd: Result<String, String>) -> (res: Result<
    String,
    String,
>)
    ensures
        home_relative_rest(raw@) is Some || is_absolute(raw@) ==> (res matches Ok(p) && p@
            == expanded_target(raw@, home@, Seq::<char>::empty())),
        home_relative_rest(raw@) is None && !is_absolute(raw@) ==> match cwd {
            Ok(c) => res matches Ok(p) && p@ == expanded_target(raw@, home@, c@),
            Err(e) => res matches Err(f) && f@ == cwd_error_message(e@),
        },
{
    match classify_remove_target(raw) {
        TargetBase::Home { rest } => Ok(join_path(home, rest.as_str())),
        TargetBase::Absolute => Ok(String::from_str(raw)),
        TargetBase::CurrentDir => match cwd {
            Ok(c) => Ok(join_path(c.as_str(), raw)),
            Err(e) => Err(String::from_str("Unable to resolve current directory: ").concat(e.as_str())),
        },
    }
}

/// The named segments never hold an empty or `.` segment.
proof fn lemma_named_no_filler(segs: Seq<Seq<char>>)
    ensures
        forall|i: int|
            0 <= i < named_segments(segs).len() ==> !is_filler_segment(#[trigger] named_segments(segs)[i]),
    decreases segs.len(),
{
    if segs.len() > 0 {
        lemma_named_no_filler(segs.drop_last());
        let r = named_segments(segs.drop_last());
        let out = named_segments(segs);
        assert forall|i: int| 0 <= i < out.len() implies !is_filler_segment(#[trigger] out[i]) by {
            if i < r.len() {
                assert(out[i] == r[i]);
            }
        }
    }
}

proof fn lemma_named_single_filler(g: Seq<char>)
    requires
        is_filler_segment(g),
    ensures
        named_segments(seq![g]) == Seq::<Seq<char>>::empty(),
{
    let one = seq![g];
    assert(named_segments(Seq::<Seq<char>>::empty()) == Seq::<Seq<char>>::empty());
    assert(one.drop_last() =~= Seq::<Seq<char>>::empty());
    assert(one.last() == g);
    assert(named_segments(one) == named_segments(one.drop_last()));
}

proof fn lemma_split_single(c: char)
    requires
        c != '/',
    ensures
        split_segments(seq![c]) == seq![seq![c]],
{
    let s = seq![c];
    assert(s.drop_last() =~= Seq::<char>::empty());
    assert(split_segments(Seq::<char>::empty()) == seq![Seq::<char>::empty()]);
    let init = split_segments(s.drop_last());
    assert(init.last().push(c) =~= seq![c]);
    assert(split_segments(s) == init.update(0, init.last().push(c)));
    assert(split_segments(s) =~= seq![seq![c]]);
}

proof fn lemma_split_dot()
    ensures
        named_segments(split_segments(seq!['.'])) == Seq::<Seq<char>>::empty(),
{
    lemma_split_single('.');
    lemma_named_single_filler(seq!['.']);
}

proof fn lemma_split_empty()
    ensures
        named_segments(split_segments(Seq::<char>::empty())) == Seq::<Seq<char>>::empty(),
{
    lemma_named_single_filler(Seq::<char>::empty());
    assert(split_segments(Seq::<char>::empty()) =~= seq![Seq::<char>::empty()]);
}

/// Trimming leading empty and `.` segments drops no named segment.
proof fn lemma_named_trim_leading(s: Seq<char>)
    ensures
        named_segments(split_segments(trim_leading(s))) == named_segments(split_segments(s)),
    decreases s.len(),
{
    if s.len() > 0 && s[0] == '/' {
        let t = s.drop_first();
        lemma_named_trim_leading(t);
        assert(s =~= Seq::<char>::empty() + seq!['/'] + t);
        lemma_split_concat(Seq::<char>::empty(), t);
        lemma_split_empty();
        lemma_named_concat(split_segments(Seq::<char>::empty()), split_segments(t));
        assert(Seq::<Seq<char>>::empty() + named_segments(split_segments(t)) =~= named_segments(
            split_segments(t),
        ));
    } else if s == seq!['.'] {
        lemma_split_dot();
        lemma_split_empty();
    } else if s.len() >= 2 && s[0] == '.' && s[1] == '/' {
        let t = s.skip(2);
        lemma_named_trim_leading(t);
        assert(s =~= seq!['.'] + seq!['/'] + t);
        lemma_split_concat(seq!['.'], t);
        lemma_split_dot();
        lemma_named_concat(split_segments(seq!['.']), split_segments(t));
        assert(Seq::<Seq<char>>::empty() + named_segments(split_segments(t)) =~= named_segments(
            split_segments(t),
        ));
    }
}

/// Trimming trailing empty and `.` segments drops no named segment.
proof fn lemma_named_trim_trailing(s: Seq<char>)
    ensures
        named_segments(split_segments(trim_trailing(s))) == named_segments(split_segments(s)),
    decreases s.len(),
{
    if s.len() > 0 && s.last() == '/' {
        let t = s.drop_last();
        lemma_named_trim_trailing(t);
        assert(s =~= t + seq!['/'] + Seq::<char>::empty());
        lemma_split_concat(t, Seq::<char>::empty());
        lemma_split_empty();
        lemma_named_concat(split_segments(t), split_segments(Seq::<char>::empty()));
        assert(named_segments(split_segments(t)) + Seq::<Seq<char>>::empty() =~= named_segments(
            split_segments(t),
        ));
    } else if s == seq!['.'] {
        lemma_split_dot();
        lemma_split_empty();
    } else if s.len() >= 2 && s.last() == '.' && s[s.len() - 2] == '/' {
        let t = s.take(s.len() - 2);
        lemma_named_trim_trailing(t);
        assert(s =~= t + seq!['/'] + seq!['.']);
        lemma_split_concat(t, seq!['.']);
        lemma_split_dot();
        lemma_named_concat(split_segments(t), split_segments(seq!['.']));
        assert(named_segments(split_segments(t)) + Seq::<Seq<char>>::empty() =~= named_segments(
            split_segments(t),
        ));
    }
}

proof fn lemma_named_single_kept(g: Seq<char>)
    requires
        !is_filler_segment(g),
    ensures
        named_segments(seq![g]) == seq![g],
{
    let one = seq![g];
    assert(named_segments(Seq::<Seq<char>>::empty()) == Seq::<Seq<char>>::empty());
    assert(one.drop_last() =~= Seq::<Seq<char>>::empty());
    assert(one.last() == g);
    assert(named_segments(one) == named_segments(one.drop_last()).push(one.last()));
    assert(named_segments(one) =~= seq![g]);
}

/// The first segment of a path that does not start with a separator starts
/// with the path's first character, and holds that character alone only
/// when the path ends there or a separator follows.
proof fn lemma_first_segment(s: Seq<char>)
    requires
        s.len() > 0,
        s[0] != '/',
    ensures
        split_segments(s)[0].len() > 0,
        split_segments(s)[0][0] == s[0],
        split_segments(s)[0].len() == 1 ==> s.len() == 1 || s[1] == '/',
    decreases s.len(),
{
    if s.len() == 1 {
        assert(s =~= seq![s[0]]);
        lemma_split_single(s[0]);
    } else {
        let t = s.drop_last();
        lemma_first_segment(t);
        lemma_split_segments_nonempty(t);
        let st = split_segments(t);
        if t.len() > 1 {
            assert(t[1] == s[1]);
        } else {
            assert(s[1] == s.last());
            assert(t =~= seq![t[0]]);
            lemma_split_single(t[0]);
        }
        if s.last() == '/' {
            assert(split_segments(s)[0] == st[0]);
        } else if st.len() > 1 {
            assert(split_segments(s)[0] == st[0]);
        } else {
            assert(split_segments(s)[0] == st[0].push(s.last()));
        }
    }
}

/// A path whose first component is `~` is an argument taken relative to the
/// home directory.
proof fn lemma_tilde_component_is_home_relative(raw: Seq<char>)
    requires
        path_components(raw).len() > 0,
        path_components(raw)[0] == seq!['~'],
    ensures
        home_relative_rest(raw) is Some,
{
    assert(seq!['~'] != seq!['/']) by {
        assert(seq!['~'][0] != seq!['/'][0]);
    }
    assert(seq!['~'] != seq!['.']) by {
        assert(seq!['~'][0] != seq!['.'][0]);
    }
    let segs = split_segments(raw);
    lemma_split_segments_nonempty(raw);
    if raw.len() == 0 {
        lemma_split_empty();
        assert(segs == seq![Seq::<char>::empty()]);
    }
    assert(raw.len() > 0);
    assert(!is_absolute(raw));
    assert(segs[0] != seq!['.']);
    lemma_first_segment(raw);
    let g = segs[0];
    assert(!is_filler_segment(g));
    assert(segs =~= seq![g] + segs.drop_first());
    lemma_named_concat(seq![g], segs.drop_first());
    lemma_named_single_kept(g);
    assert(path_components(raw)[0] == g);
    assert(g.len() == 1);
    assert(raw[0] == '~');
    if raw.len() == 1 {
        assert(raw =~= seq!['~']);
    }
}

/// The components of a `~` argument: `~`, then every named segment of what
/// follows it.
proof fn lemma_home_argument_components(raw: Seq<char>)
    requires
        home_relative_rest(raw) is Some,
    ensures
        path_components(raw) == seq![seq!['~']] + named_segments(
            split_segments(home_relative_rest(raw)->0),
        ),
{
    lemma_split_single('~');
    assert(named_segments(seq![seq!['~']]) =~= seq![seq!['~']]) by {
        let one = seq![seq!['~']];
        assert(named_segments(Seq::<Seq<char>>::empty()) == Seq::<Seq<char>>::empty());
        assert(one.drop_last() =~= Seq::<Seq<char>>::empty());
        assert(one.last() == seq!['~']);
        assert(seq!['~'] != seq!['.']) by {
            assert(seq!['~'][0] != seq!['.'][0]);
        }
        assert(!is_filler_segment(one.last()));
        assert(named_segments(one) == named_segments(one.drop_last()).push(one.last()));
    }
    assert(seq!['~'] != seq!['.']) by {
        assert(seq!['~'][0] != seq!['.'][0]);
    }
    if raw == seq!['~'] {
        lemma_split_empty();
        assert(path_components(raw) =~= seq![seq!['~']]);
    } else {
        let tail = raw.skip(2);
        assert(raw =~= seq!['~'] + seq!['/'] + tail);
        lemma_split_concat(seq!['~'], tail);
        lemma_named_concat(split_segments(seq!['~']), split_segments(tail));
        lemma_named_trim_leading(tail);
        lemma_named_trim_trailing(trim_leading(tail));
        assert(split_segments(raw)[0] == seq!['~']);
        assert(path_components(raw) =~= seq![seq!['~']] + named_segments(split_segments(tail)));
    }
}

/// What a `remove-path` argument resolves to, in components. An argument is
/// taken relative to the home directory exactly when its first component is
/// `~`, and it then resolves to the home directory's
/// components followed by every further component of the argument. Another
/// absolute argument stands as given. A relative argument resolves to the
/// current directory's components followed by its own, without a leading
/// `.` (for absolute home and current directories).
pub proof fn law_expanded_target_components(raw: Seq<char>, home: Seq<char>, cwd: Seq<char>)
    requires
        is_absolute(home),
        is_absolute(cwd),
    ensures
        home_relative_rest(raw) is Some <==> (path_components(raw).len() > 0 && path_components(
            raw,
        )[0] == seq!['~']),
        home_relative_rest(raw) is Some ==> {
            &&& path_components(raw).len() > 0
            &&& path_components(raw)[0] == seq!['~']
            &&& path_components(expanded_target(raw, home, cwd)) == path_components(home)
                + path_components(raw).drop_first()
        },
        home_relative_rest(raw) is None && is_absolute(raw) ==> expanded_target(raw, home, cwd) == raw,
        home_relative_rest(raw) is None && !is_absolute(raw) ==> path_components(
            expanded_target(raw, home, cwd),
        ) == path_components(cwd) + (if path_components(raw).len() > 0 && path_components(raw)[0]
            == seq!['.'] {
            path_components(raw).drop_first()
        } else {
            path_components(raw)
        }),
{
    law_home_rest_is_relative(raw);
    if path_components(raw).len() > 0 && path_components(raw)[0] == seq!['~'] {
        lemma_tilde_component_is_home_relative(raw);
    }
    match home_relative_rest(raw) {
        Some(rest) => {
            lemma_home_argument_components(raw);
            lemma_join_components(home, rest);
            let cr = path_components(raw);
            assert(cr[0] == seq!['~']);
            assert(cr.drop_first() =~= named_segments(split_segments(rest)));
        },
        None => {
            if !is_absolute(raw) {
                lemma_join_components(cwd, raw);
                let segs = split_segments(raw);
                lemma_split_segments_nonempty(raw);
                let cr = path_components(raw);
                if segs[0] == seq!['.'] {
                    assert(segs =~= seq![segs[0]] + segs.drop_first());
                    lemma_named_concat(seq![segs[0]], segs.drop_first());
                    lemma_named_single_filler(segs[0]);
                    assert(cr[0] == seq!['.']);
                    assert(cr.drop_first() =~= named_segments(segs.drop_first()));
                    assert(named_segments(segs) =~= named_segments(segs.drop_first()));
                } else {
                    lemma_named_no_filler(segs);
                    if cr.len() > 0 {
                        assert(!is_filler_segment(cr[0]));
                    }
                }
            }
        },
    }
}

/// Index range of `trim_trailing(trim_leading(s.skip(from)))` inside `s`.
fn trimmed_range(s: &Vec<char>, from: usize) -> (res: (usize, usize))
    requires
        from <= s.len(),
    ensures
        from <= res.0 <= res.1 <= s.len(),
        s@.subrange(res.0 as int, res.1 as int) == trim_trailing(trim_leading(s@.skip(from as int))),
{
    let n = s.len();
    let mut lo: usize = from;
    let mut done = false;
    while !done
        invariant
            n == s.len(),
            from <= lo <= n,
            trim_leading(s@.skip(from as int)) == trim_leading(s@.skip(lo as int)),
            done ==> trim_leading(s@.skip(lo as int)) == s@.skip(lo as int),
        decreases 2 * (n - lo) + (if done { 0int } else { 1int }),
    {
        let ghost rest = s@.skip(lo as int);
        if lo < n && s[lo] == '/' {
            assert(rest.drop_first() =~= s@.skip(lo + 1));
            lo = lo + 1;
        } else if n - lo == 1 && s[lo] == '.' {
            assert(rest =~= seq!['.']);
            assert(s@.skip(n as int) =~= Seq::<char>::empty());
            lo = n;
        } else if n - lo >= 2 && s[lo] == '.' && s[lo + 1] == '/' {
            assert(rest.skip(2) =~= s@.skip(lo + 2));
            lo = lo + 2;
        } else {
            proof {
                if rest == seq!['.'] {
                    assert(rest.len() == 1);
                }
            }
            done = true;
        }
    }
    let mut hi: usize = n;
    done = false;
    assert(s@.subrange(lo as int, n as int) =~= s@.skip(lo as int));
    while !done
        invariant
            n == s.len(),
            lo <= hi <= n,
            trim_trailing(s@.skip(lo as int)) == trim_trailing(s@.subrange(lo as int, hi as int)),
            done ==> trim_trailing(s@.subrange(lo as int, hi as int)) == s@.subrange(
                lo as int,
                hi as int,
            ),
        decreases 2 * (hi - lo) + (if done { 0int } else { 1int }),
    {
        let ghost cur = s@.subrange(lo as int, hi as int);
        if lo < hi && s[hi - 1] == '/' {
            assert(cur.drop_last() =~= s@.subrange(lo as int, hi - 1));
            hi = hi - 1;
        } else if hi - lo == 1 && s[lo] == '.' {
            assert(cur =~= seq!['.']);
            assert(s@.subrange(lo as int, lo as int) =~= Seq::<char>::empty());
            hi = lo;
        } else if hi - lo >= 2 && s[hi - 1] == '.' && s[hi - 2] == '/' {
            assert(cur.take(cur.len() - 2) =~= s@.subrange(lo as int, hi - 2));
            hi = hi - 2;
        } else {
            proof {
                if cur == seq!['.'] {
                    assert(cur.len() == 1);
                }
            }
            done = true;
        }
    }
    (lo, hi)
}

/// Classifies a `remove-path` argument: paths whose first component is `~`
/// are relative to the home directory, other absolute paths stand as they
/// are, and the rest are relative to the current directory.
pub fn classify_remove_target(raw: &str) -> (res: TargetBase)
    ensures
        match res {
            TargetBase::Home { rest } => home_relative_rest(raw@) == Some(rest@),
            TargetBase::Absolute => home_relative_rest(raw@) is None && is_absolute(raw@),
            TargetBase::CurrentDir => home_relative_rest(raw@) is None && !is_absolute(raw@),
        },
{
    let s = str_chars(raw);
    let n = s.len();
    if n == 1 && s[0] == '~' {
        assert(raw@ =~= seq!['~']);
        return TargetBase::Home { rest: String::new() };
    }
    proof {
        if raw@ == seq!['~'] {
            assert(raw@.len() == 1);
        }
    }
    if n >= 2 && s[0] == '~' && s[1] == '/' {
        let (lo, hi) = trimmed_range(&s, 2);
        let rest = raw.substring_char(lo, hi);
        return TargetBase::Home { rest: String::from_str(rest) };
    }
    if n > 0 && s[0] == '/' {
        TargetBase::Absolute
    } else {
        TargetBase::CurrentDir
    }
}

/// `base` joined with `rel`, as `join` states.
pub fn join_path(base: &str, rel: &str) -> (res: String)
    ensures
        res@ == join(base@, rel@),
{
    let r = str_chars(rel);
    if r.len() > 0 && r[0] == '/' {
        return String::from_str(rel);
    }
    let b = str_chars(base);
    let n = b.len();
    if n > 0 && b[n - 1] != '/' {
        proof {
            reveal_strlit("/");
        }
        let joined = String::from_str(base).concat("/");
        joined.concat(rel)
    } else {
        String::from_str(base).concat(rel)
    }
}

} // verus!
