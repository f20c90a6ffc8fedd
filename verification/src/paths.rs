//! Cleaning up the relative paths of picked files before they go into an archive.

use vstd::prelude::*;
use crate::text::{chars_of, lemma_filter_push, push_char, string_of, string_of_range};

verus! {

/// Splits `s` at every `sep`, as `str::split` does: `n` separators give `n + 1`
/// pieces, empty ones included.
pub open spec fn split_spec(s: Seq<char>, sep: char) -> Seq<Seq<char>>
    decreases s.len(),
{
    if s.len() == 0 {
        seq![Seq::<char>::empty()]
    } else {
        let r = split_spec(s.drop_last(), sep);
        if s.last() == sep {
            r.push(Seq::<char>::empty())
        } else {
            r.update(r.len() - 1, r.last().push(s.last()))
        }
    }
}

/// Joins `segs` with `sep` between neighbours, as `[..].join(..)` does.
pub open spec fn join_spec(segs: Seq<Seq<char>>, sep: char) -> Seq<char>
    decreases segs.len(),
{
    if segs.len() == 0 {
        Seq::<char>::empty()
    } else if segs.len() == 1 {
        segs[0]
    } else {
        join_spec(segs.drop_last(), sep) + seq![sep] + segs.last()
    }
}

/// A path segment that survives normalization: not empty and not `.`.
pub open spec fn keep_segment(seg: Seq<char>) -> bool {
    seg.len() > 0 && seg != seq!['.']
}

/// `keep_segment` as a predicate value, for `Seq::filter`.
pub open spec fn keep_pred() -> spec_fn(Seq<char>) -> bool {
    |seg: Seq<char>| keep_segment(seg)
}

/// A backslash read as a forward slash.
pub open spec fn unify_sep(c: char) -> char {
    if c == '\\' {
        '/'
    } else {
        c
    }
}

/// `s` with every backslash replaced by a forward slash.
pub open spec fn unify_seps(s: Seq<char>) -> Seq<char> {
    s.map_values(|c: char| unify_sep(c))
}

/// The normalized form of a raw relative path: backslashes become `/`, the path
/// is split at `/`, empty and `.` segments are dropped, and the rest is joined
/// with `/`.
pub open spec fn normalize_spec(raw: Seq<char>) -> Seq<char> {
    join_spec(split_spec(unify_seps(raw), '/').filter(keep_pred()), '/')
}

/// The part of `s` before its first `/` (all of `s` when it has none).
pub open spec fn first_segment(s: Seq<char>) -> Seq<char>
    decreases s.len(),
{
    if s.len() == 0 {
        s
    } else if s[0] == '/' {
        Seq::<char>::empty()
    } else {
        seq![s[0]] + first_segment(s.drop_first())
    }
}

/// The top-level folder shared by all `paths`: present when there is at least one
/// path, every path has a non-empty first segment, and all first segments are equal.
pub open spec fn common_root_spec(paths: Seq<Seq<char>>) -> Option<Seq<char>> {
    if paths.len() > 0 && (forall|i: int|
        0 <= i < paths.len() ==> #[trigger] first_segment(paths[i]).len() > 0) && (forall|i: int|
        0 <= i < paths.len() ==> #[trigger] first_segment(paths[i]) == first_segment(paths[0])) {
        Some(first_segment(paths[0]))
    } else {
        None
    }
}

/// Whether `path` begins with `prefix` followed by `/`.
pub open spec fn under_folder(path: Seq<char>, prefix: Seq<char>) -> bool {
    path.len() > prefix.len() && path.subrange(0, prefix.len() as int) == prefix && path[prefix.len()
        as int] == '/'
}

/// `path` without one leading `prefix/`, when it has one.
pub open spec fn strip_spec(path: Seq<char>, prefix: Option<Seq<char>>) -> Seq<char> {
    match prefix {
        Some(p) => if under_folder(path, p) {
            path.subrange(p.len() as int + 1, path.len() as int)
        } else {
            path
        },
        None => path,
    }
}

/// The view of an optional string slice.
pub open spec fn opt_view(o: Option<&str>) -> Option<Seq<char>> {
    match o {
        Some(p) => Some(p@),
        None => None,
    }
}

/// The views of a sequence of strings.
pub open spec fn string_views(v: Seq<String>) -> Seq<Seq<char>> {
    v.map_values(|s: String| s@)
}

proof fn lemma_split_nonempty(s: Seq<char>, sep: char)
    ensures
        split_spec(s, sep).len() >= 1,
    decreases s.len(),
{
    if s.len() > 0 {
        lemma_split_nonempty(s.drop_last(), sep);
    }
}

proof fn lemma_unify_push(s: Seq<char>, i: int)
    requires
        0 <= i < s.len(),
    ensures
        unify_seps(s.subrange(0, i + 1)) == unify_seps(s.subrange(0, i)).push(unify_sep(s[i])),
{
    assert(unify_seps(s.subrange(0, i + 1)) =~= unify_seps(s.subrange(0, i)).push(
        unify_sep(s[i]),
    ));
}

/// Whether the segment held in `cur` is kept by normalization.
fn is_kept(cur: &Vec<char>) -> (r: bool)
    ensures
        r == keep_segment(cur@),
{
    let r = cur.len() > 0 && !(cur.len() == 1 && cur[0] == '.');
    assert(r == keep_segment(cur@)) by {
        if cur@.len() == 1 && cur@ != seq!['.'] {
            assert(cur@[0] != '.') by {
                if cur@[0] == '.' {
                    assert(cur@ =~= seq!['.']);
                }
            }
        }
    }
    r
}

/// Appends one more kept segment to the `/`-joined output.
fn push_segment(out: &mut String, have: bool, seg: &Vec<char>, Ghost(kept): Ghost<Seq<Seq<char>>>)
    requires
        old(out)@ == join_spec(kept, '/'),
        have == (kept.len() > 0),
    ensures
        final(out)@ == join_spec(kept.push(seg@), '/'),
{
    if have {
        push_char(out, '/');
    }
    let ghost base = out@;
    let mut j: usize = 0;
    while j < seg.len()
        invariant
            j <= seg@.len(),
            out@ == base + seg@.subrange(0, j as int),
        decreases seg@.len() - j,
    {
        push_char(out, seg[j]);
        j = j + 1;
        assert(out@ =~= base + seg@.subrange(0, j as int));
    }
    assert(seg@.subrange(0, seg@.len() as int) =~= seg@);
    assert(kept.push(seg@).drop_last() =~= kept);
    if !have {
        assert(out@ =~= join_spec(kept.push(seg@), '/'));
    }
}

/// `raw` with backslashes read as `/`, empty and `.` segments removed.
pub fn normalize_path(raw: &str) -> (r: String)
    ensures
        r@ == normalize_spec(raw@),
{
    let v = chars_of(raw);
    let n = v.len();
    let mut out = String::new();
    let mut have = false;
    let mut cur: Vec<char> = Vec::new();
    let ghost mut done: Seq<Seq<char>> = Seq::empty();
    let mut i: usize = 0;
    assert(v@.subrange(0, 0) =~= Seq::<char>::empty());
    assert(unify_seps(Seq::<char>::empty()) =~= Seq::<char>::empty());
    proof {
        reveal(Seq::filter);
    }
    while i < n
        invariant
            n == v@.len(),
            v@ == raw@,
            i <= n,
            split_spec(unify_seps(v@.subrange(0, i as int)), '/') == done.push(cur@),
            out@ == join_spec(done.filter(keep_pred()), '/'),
            have == (done.filter(keep_pred()).len() > 0),
        decreases n - i,
    {
        let c = v[i];
        let ghost p = unify_seps(v@.subrange(0, i as int));
        proof {
            lemma_unify_push(v@, i as int);
        }
        let ghost q = unify_seps(v@.subrange(0, i + 1));
        assert(q.drop_last() =~= p);
        if c == '/' || c == '\\' {
            assert(q.last() == '/');
            proof {
                lemma_filter_push(done, cur@, keep_pred());
            }
            if is_kept(&cur) {
                push_segment(&mut out, have, &cur, Ghost(done.filter(keep_pred())));
                have = true;
            }
            proof {
                done = done.push(cur@);
            }
            cur = Vec::new();
            assert(split_spec(q, '/') =~= done.push(cur@));
        } else {
            assert(q.last() == c);
            cur.push(c);
            assert(split_spec(q, '/') =~= done.push(cur@));
        }
        i = i + 1;
    }
    assert(v@.subrange(0, n as int) =~= v@);
    proof {
        lemma_filter_push(done, cur@, keep_pred());
    }
    if is_kept(&cur) {
        push_segment(&mut out, have, &cur, Ghost(done.filter(keep_pred())));
    }
    out
}

proof fn lemma_first_segment(s: Seq<char>, k: int)
    requires
        0 <= k <= s.len(),
        forall|t: int| 0 <= t < k ==> #[trigger] s[t] != '/',
        k == s.len() || s[k] == '/',
    ensures
        first_segment(s) == s.subrange(0, k),
    decreases k,
{
    if k == 0 {
        if s.len() == 0 {
            assert(s.subrange(0, 0) =~= s);
        } else {
            assert(s.subrange(0, 0) =~= Seq::<char>::empty());
        }
    } else {
        let d = s.drop_first();
        assert forall|t: int| 0 <= t < k - 1 implies #[trigger] d[t] != '/' by {
            assert(d[t] == s[t + 1]);
            assert(s[t + 1] != '/');
        }
        if k - 1 < d.len() {
            assert(d[k - 1] == s[k]);
        }
        assert(s[0] != '/');
        lemma_first_segment(d, k - 1);
        assert(seq![s[0]] + d.subrange(0, k - 1) =~= s.subrange(0, k));
    }
}

/// The first `/`-separated segment of `path`.
fn first_segment_of(path: &str) -> (r: Vec<char>)
    ensures
        r@ == first_segment(path@),
{
    let v = chars_of(path);
    let mut k: usize = 0;
    while k < v.len() && v[k] != '/'
        invariant
            k <= v@.len(),
            v@ == path@,
            forall|t: int| 0 <= t < k ==> #[trigger] v@[t] != '/',
        decreases v@.len() - k,
    {
        k = k + 1;
    }
    proof {
        lemma_first_segment(v@, k as int);
    }
    let mut r: Vec<char> = Vec::new();
    let mut j: usize = 0;
    while j < k
        invariant
            j <= k <= v@.len(),
            r@ == v@.subrange(0, j as int),
        decreases k - j,
    {
        r.push(v[j]);
        j = j + 1;
        assert(r@ =~= v@.subrange(0, j as int));
    }
    r
}

/// Whether two character vectors hold the same characters.
pub fn same_chars(a: &Vec<char>, b: &Vec<char>) -> (r: bool)
    ensures
        r == (a@ == b@),
{
    if a.len() != b.len() {
        return false;
    }
    let mut i: usize = 0;
    while i < a.len()
        invariant
            a@.len() == b@.len(),
            i <= a@.len(),
            forall|t: int| 0 <= t < i ==> a@[t] == b@[t],
        decreases a@.len() - i,
    {
        if a[i] != b[i] {
            return false;
        }
        i = i + 1;
    }
    assert(a@ =~= b@);
    true
}

/// The top-level folder that all `paths` share, if there is exactly one.
pub fn common_root_folder(paths: &[String]) -> (r: Option<String>)
    ensures
        match r {
            Some(root) => common_root_spec(string_views(paths@)) == Some(root@),
            None => common_root_spec(string_views(paths@)) is None,
        },
{
    let ghost views = string_views(paths@);
    if paths.len() == 0 {
        return None;
    }
    let first = first_segment_of(paths[0].as_str());
    if first.len() == 0 {
        assert(first_segment(views[0]).len() == 0);
        return None;
    }
    let mut i: usize = 1;
    while i < paths.len()
        invariant
            1 <= i <= paths@.len(),
            views == string_views(paths@),
            first@ == first_segment(views[0]),
            first@.len() > 0,
            forall|t: int| 0 <= t < i ==> #[trigger] first_segment(views[t]) == first@,
        decreases paths@.len() - i,
    {
        let seg = first_segment_of(paths[i].as_str());
        assert(seg@ == first_segment(views[i as int]));
        if seg.len() == 0 || !same_chars(&seg, &first) {
            return None;
        }
        i = i + 1;
    }
    assert forall|t: int| 0 <= t < views.len() implies #[trigger] first_segment(views[t]).len()
        > 0 by {
        assert(first_segment(views[t]) == first@);
    }
    Some(string_of(&first))
}

/// `path` with one leading `prefix/` removed, when `prefix` is given and `path`
/// starts with it.
pub fn strip_common_prefix(path: &str, common_prefix: Option<&str>) -> (r: String)
    ensures
        r@ == strip_spec(path@, opt_view(common_prefix)),
{
    let v = chars_of(path);
    match common_prefix {
        Some(prefix) => {
            let p = chars_of(prefix);
            if v.len() > p.len() && v[p.len()] == '/' {
                let mut same = true;
                let mut i: usize = 0;
                while i < p.len()
                    invariant
                        i <= p@.len() < v@.len(),
                        same == (forall|t: int| 0 <= t < i ==> v@[t] == p@[t]),
                    decreases p@.len() - i,
                {
                    if v[i] != p[i] {
                        same = false;
                    }
                    i = i + 1;
                }
                if same {
                    assert(v@.subrange(0, p@.len() as int) =~= p@);
                    return string_of_range(&v, p.len() + 1, v.len());
                } else {
                    proof {
                        let t = choose|t: int| 0 <= t < p@.len() && v@[t] != p@[t];
                        assert(v@.subrange(0, p@.len() as int)[t] != p@[t]);
                    }
                }
            }
            string_of(&v)
        },
        None => string_of(&v),
    }
}

/// Picks the name under which a picked file is archived: its path relative to the
/// picked folder, or its bare name when the browser gives no relative path.
pub fn entry_path(relative_path: String, name: String) -> (r: String)
    ensures
        r@ == if relative_path@.len() == 0 {
            name@
        } else {
            relative_path@
        },
{
    if relative_path.as_str().unicode_len() == 0 {
        name
    } else {
        relative_path
    }
}

/// The normalized form of each entry path.
pub open spec fn normalized_paths<T>(entries: Seq<(String, T)>) -> Seq<Seq<char>> {
    Seq::new(entries.len(), |i: int| normalize_spec(entries[i].0@))
}

/// The archive name of entry `i`: its path normalized, then stripped of the
/// top-level folder that all normalized paths share, if any.
pub open spec fn clean_entry_path<T>(entries: Seq<(String, T)>, i: int) -> Seq<char> {
    strip_spec(normalized_paths(entries)[i], common_root_spec(normalized_paths(entries)))
}

/// Normalizes every entry path and strips the top-level folder that they all share,
/// keeping each entry's payload and the entries' order.
pub fn normalize_entries<T>(entries: Vec<(String, T)>) -> (r: Vec<(String, T)>)
    ensures
        r@.len() == entries@.len(),
        forall|i: int|
            0 <= i < entries@.len() ==> #[trigger] r@[i].1 == entries@[i].1 && r@[i].0@
                == clean_entry_path(entries@, i),
{
    let n = entries.len();
    let ghost orig = entries@;
    let mut normalized: Vec<String> = Vec::new();
    let mut i: usize = 0;
    while i < n
        invariant
            n == orig.len(),
            entries@ == orig,
            i <= n,
            normalized@.len() == i,
            forall|t: int| 0 <= t < i ==> #[trigger] normalized@[t]@ == normalize_spec(orig[t].0@),
        decreases n - i,
    {
        let p = normalize_path(entries[i].0.as_str());
        normalized.push(p);
        i = i + 1;
    }
    assert(string_views(normalized@) =~= normalized_paths(orig));
    let root = common_root_folder(normalized.as_slice());
    let root_ref: Option<&str> = match &root {
        Some(s) => Some(s.as_str()),
        None => None,
    };
    let ghost root_view: Option<Seq<char>> = common_root_spec(normalized_paths(orig));
    assert(opt_view(root_ref) == root_view);
    let mut rest = entries;
    let mut rev: Vec<(String, T)> = Vec::new();
    while rest.len() > 0
        invariant
            n == orig.len(),
            rest@ == orig.subrange(0, rest@.len() as int),
            rev@.len() == n - rest@.len(),
            forall|t: int| 0 <= t < rev@.len() ==> #[trigger] rev@[t] == orig[n - 1 - t],
        decreases rest@.len(),
    {
        let e = rest.pop().unwrap();
        rev.push(e);
        assert(rest@ =~= orig.subrange(0, rest@.len() as int));
    }
    let mut out: Vec<(String, T)> = Vec::new();
    let mut k: usize = 0;
    while rev.len() > 0
        invariant
            n == orig.len(),
            normalized@.len() == n,
            forall|t: int| 0 <= t < n ==> #[trigger] normalized@[t]@ == normalize_spec(orig[t].0@),
            opt_view(root_ref) == root_view,
            root_view == common_root_spec(normalized_paths(orig)),
            rev@.len() == n - k,
            k <= n,
            forall|t: int| 0 <= t < rev@.len() ==> #[trigger] rev@[t] == orig[n - 1 - t],
            out@.len() == k,
            forall|t: int|
                0 <= t < k ==> #[trigger] out@[t].1 == orig[t].1 && out@[t].0@ == clean_entry_path(
                    orig,
                    t,
                ),
        decreases rev@.len(),
    {
        let ghost last = rev@.len() - 1;
        assert(rev@[last] == orig[k as int]);
        let (_, payload) = rev.pop().unwrap();
        assert(payload == orig[k as int].1);
        let path = strip_common_prefix(normalized[k].as_str(), root_ref);
        assert(normalized_paths(orig)[k as int] == normalized@[k as int]@);
        assert(path@ == clean_entry_path(orig, k as int));
        out.push((path, payload));
        assert(out@[k as int].1 == orig[k as int].1);
        k = k + 1;
    }
    out
}

proof fn lemma_split_pieces(s: Seq<char>, sep: char)
    ensures
        forall|k: int, t: int|
            0 <= k < split_spec(s, sep).len() && 0 <= t < split_spec(s, sep)[k].len() ==> #[trigger] split_spec(s, sep)[k][t] != sep && s.contains(split_spec(s, sep)[k][t]),
    decreases s.len(),
{
    lemma_split_nonempty(s, sep);
    if s.len() > 0 {
        let d = s.drop_last();
        lemma_split_pieces(d, sep);
        lemma_split_nonempty(d, sep);
        let r = split_spec(d, sep);
        let q = split_spec(s, sep);
        assert forall|k: int, t: int| 0 <= k < q.len() && 0 <= t < q[k].len() implies #[trigger] q[k][t] != sep && s.contains(q[k][t]) by {
            if s.last() == sep {
                if k < r.len() {
                    assert(q[k] == r[k]);
                    let w = choose|w: int| 0 <= w < d.len() && d[w] == r[k][t];
                    assert(s[w] == d[w]);
                }
            } else if k < r.len() - 1 {
                assert(q[k] == r[k]);
                let w = choose|w: int| 0 <= w < d.len() && d[w] == r[k][t];
                assert(s[w] == d[w]);
            } else {
                assert(q[k] == r.last().push(s.last()));
                if t < r.last().len() {
                    assert(q[k][t] == r[k][t]);
                    let w = choose|w: int| 0 <= w < d.len() && d[w] == r[k][t];
                    assert(s[w] == d[w]);
                } else {
                    assert(q[k][t] == s.last());
                    assert(s[s.len() - 1] == s.last());
                }
            }
        }
    }
}

/// Whether `s` holds no `sep`.
pub open spec fn free_of(s: Seq<char>, sep: char) -> bool {
    forall|t: int| 0 <= t < s.len() ==> #[trigger] s[t] != sep
}

proof fn lemma_split_append_free(x: Seq<char>, b: Seq<char>, sep: char)
    requires
        free_of(b, sep),
    ensures
        split_spec(x + b, sep) == split_spec(x, sep).update(
            split_spec(x, sep).len() - 1,
            split_spec(x, sep).last() + b,
        ),
    decreases b.len(),
{
    lemma_split_nonempty(x, sep);
    let r = split_spec(x, sep);
    if b.len() == 0 {
        assert(x + b =~= x);
        assert(r.last() + b =~= r.last());
        assert(r.update(r.len() - 1, r.last()) =~= r);
    } else {
        let b0 = b.drop_last();
        lemma_split_append_free(x, b0, sep);
        assert((x + b).drop_last() =~= x + b0);
        assert((x + b).last() == b.last());
        assert(b[b.len() - 1] != sep);
        let r0 = split_spec(x + b0, sep);
        lemma_split_nonempty(x + b0, sep);
        assert(r0.last() == r.last() + b0);
        assert(r0.last().push(b.last()) =~= r.last() + b);
        assert(split_spec(x + b, sep) =~= r.update(r.len() - 1, r.last() + b));
    }
}

proof fn lemma_split_join(segs: Seq<Seq<char>>, sep: char)
    requires
        segs.len() >= 1,
        forall|k: int| 0 <= k < segs.len() ==> free_of(#[trigger] segs[k], sep),
    ensures
        split_spec(join_spec(segs, sep), sep) == segs,
    decreases segs.len(),
{
    if segs.len() == 1 {
        lemma_split_append_free(Seq::<char>::empty(), segs[0], sep);
        assert(Seq::<char>::empty() + segs[0] =~= segs[0]);
        assert(split_spec(Seq::<char>::empty(), sep) =~= seq![Seq::<char>::empty()]);
        assert(Seq::<char>::empty() + segs[0] =~= segs[0]);
        assert(seq![Seq::<char>::empty()].update(0, Seq::<char>::empty() + segs[0]) =~= segs);
    } else {
        let front = segs.drop_last();
        lemma_split_join(front, sep);
        let a = join_spec(front, sep) + seq![sep];
        assert(a.drop_last() =~= join_spec(front, sep));
        assert(split_spec(a, sep) =~= front.push(Seq::<char>::empty()));
        lemma_split_append_free(a, segs.last(), sep);
        assert(Seq::<char>::empty() + segs.last() =~= segs.last());
        assert(front.push(Seq::<char>::empty()).update(front.len() as int, segs.last()) =~= segs);
    }
}

proof fn lemma_filter_all_kept(segs: Seq<Seq<char>>)
    requires
        forall|k: int| 0 <= k < segs.len() ==> keep_segment(#[trigger] segs[k]),
    ensures
        segs.filter(keep_pred()) == segs,
    decreases segs.len(),
{
    reveal(Seq::filter);
    if segs.len() > 0 {
        lemma_filter_all_kept(segs.drop_last());
        assert(segs.drop_last().push(segs.last()) =~= segs);
    }
}

proof fn lemma_filter_kept(segs: Seq<Seq<char>>)
    ensures
        forall|k: int| 0 <= k < segs.filter(keep_pred()).len() ==> keep_segment(#[trigger] segs.filter(keep_pred())[k]),
        forall|k: int| 0 <= k < segs.filter(keep_pred()).len() ==> segs.contains(#[trigger] segs.filter(keep_pred())[k]),
    decreases segs.len(),
{
    reveal(Seq::filter);
    if segs.len() > 0 {
        let d = segs.drop_last();
        lemma_filter_kept(d);
        let f = segs.filter(keep_pred());
        let fd = d.filter(keep_pred());
        assert forall|k: int| 0 <= k < f.len() implies keep_segment(#[trigger] f[k]) && segs.contains(f[k]) by {
            if k < fd.len() {
                assert(f[k] == fd[k]);
                let w = choose|w: int| 0 <= w < d.len() && d[w] == fd[k];
                assert(segs[w] == d[w]);
            } else {
                assert(f[k] == segs.last());
                assert(segs[segs.len() - 1] == segs.last());
            }
        }
    }
}

proof fn lemma_join_chars(segs: Seq<Seq<char>>, sep: char, c: char)
    requires
        c != sep,
        forall|k: int| 0 <= k < segs.len() ==> free_of(#[trigger] segs[k], c),
    ensures
        free_of(join_spec(segs, sep), c),
    decreases segs.len(),
{
    if segs.len() > 1 {
        lemma_join_chars(segs.drop_last(), sep, c);
        let j = join_spec(segs, sep);
        let a = join_spec(segs.drop_last(), sep);
        assert forall|t: int| 0 <= t < j.len() implies #[trigger] j[t] != c by {
            if t < a.len() {
                assert(j[t] == a[t]);
            } else if t > a.len() {
                assert(j[t] == segs.last()[t - a.len() - 1]);
                assert(free_of(segs[segs.len() - 1], c));
            }
        }
    } else if segs.len() == 1 {
        assert(free_of(segs[0], c));
    }
}

/// The segments that normalization keeps, before they are joined.
pub open spec fn kept_segments(raw: Seq<char>) -> Seq<Seq<char>> {
    split_spec(unify_seps(raw), '/').filter(keep_pred())
}

proof fn lemma_kept_segments_clean(raw: Seq<char>)
    ensures
        forall|k: int| 0 <= k < kept_segments(raw).len() ==> keep_segment(#[trigger] kept_segments(raw)[k]),
        forall|k: int| 0 <= k < kept_segments(raw).len() ==> free_of(#[trigger] kept_segments(raw)[k], '/'),
        forall|k: int| 0 <= k < kept_segments(raw).len() ==> free_of(#[trigger] kept_segments(raw)[k], '\\'),
{
    let u = unify_seps(raw);
    let pieces = split_spec(u, '/');
    let kept = kept_segments(raw);
    lemma_split_pieces(u, '/');
    lemma_filter_kept(pieces);
    assert forall|k: int| 0 <= k < kept.len() implies free_of(#[trigger] kept[k], '/') && free_of(kept[k], '\\') by {
        assert(pieces.contains(kept[k]));
        let m = choose|m: int| 0 <= m < pieces.len() && pieces[m] == kept[k];
        assert forall|t: int| 0 <= t < kept[k].len() implies #[trigger] kept[k][t] != '/' && kept[k][t] != '\\' by {
            assert(pieces[m][t] != '/' && u.contains(pieces[m][t]));
            let w = choose|w: int| 0 <= w < u.len() && u[w] == pieces[m][t];
            assert(u[w] == unify_sep(raw[w]));
        }
    }
}

/// Normalized paths hold no backslash, and either are empty or consist only of
/// non-empty segments other than `.`.
pub proof fn law_normalized_segments_are_clean(raw: Seq<char>)
    ensures
        free_of(normalize_spec(raw), '\\'),
        normalize_spec(raw).len() == 0 || forall|k: int|
            0 <= k < split_spec(normalize_spec(raw), '/').len() ==> keep_segment(
                #[trigger] split_spec(normalize_spec(raw), '/')[k],
            ),
{
    let kept = kept_segments(raw);
    lemma_kept_segments_clean(raw);
    lemma_join_chars(kept, '/', '\\');
    if kept.len() >= 1 {
        lemma_split_join(kept, '/');
    }
}

/// Normalizing a normalized path changes nothing.
pub proof fn law_normalize_idempotent(raw: Seq<char>)
    ensures
        normalize_spec(normalize_spec(raw)) == normalize_spec(raw),
{
    let kept = kept_segments(raw);
    let n = normalize_spec(raw);
    lemma_kept_segments_clean(raw);
    lemma_join_chars(kept, '/', '\\');
    assert(unify_seps(n) =~= n) by {
        assert forall|t: int| 0 <= t < n.len() implies #[trigger] unify_seps(n)[t] == n[t] by {
            assert(n[t] != '\\');
        }
    }
    if kept.len() >= 1 {
        lemma_split_join(kept, '/');
        lemma_filter_all_kept(kept);
        assert(split_spec(unify_seps(n), '/') == kept);
    } else {
        reveal(Seq::filter);
        assert(n =~= Seq::<char>::empty());
        let e = seq![Seq::<char>::empty()];
        assert(split_spec(unify_seps(n), '/') =~= e);
        assert(e.drop_last() =~= Seq::<Seq<char>>::empty());
        assert(!keep_segment(e.last()));
        lemma_filter_push(Seq::<Seq<char>>::empty(), Seq::<char>::empty(), keep_pred());
        assert(Seq::<Seq<char>>::empty().push(Seq::<char>::empty()) =~= e);
        assert(Seq::<Seq<char>>::empty().filter(keep_pred()) =~= Seq::<Seq<char>>::empty());
    }
}

proof fn lemma_first_segment_prefix(s: Seq<char>)
    ensures
        first_segment(s).len() <= s.len(),
        s.subrange(0, first_segment(s).len() as int) == first_segment(s),
        first_segment(s).len() < s.len() ==> s[first_segment(s).len() as int] == '/',
    decreases s.len(),
{
    if s.len() > 0 && s[0] != '/' {
        let d = s.drop_first();
        lemma_first_segment_prefix(d);
        let f = first_segment(d);
        assert(first_segment(s) == seq![s[0]] + f);
        assert(s.subrange(0, f.len() as int + 1) =~= seq![s[0]] + d.subrange(0, f.len() as int));
        if f.len() < d.len() {
            assert(s[f.len() as int + 1] == d[f.len() as int]);
        }
    } else if s.len() > 0 {
        assert(s.subrange(0, 0) =~= first_segment(s));
    } else {
        assert(s.subrange(0, 0) =~= s);
    }
}

/// When all normalized paths share one top-level folder, every entry loses exactly
/// that one folder: a path below it becomes what follows `root/`, and a path that
/// is the folder itself stays as it is.
pub proof fn law_shared_root_stripped_once<T>(entries: Seq<(String, T)>, i: int)
    requires
        0 <= i < entries.len(),
        common_root_spec(normalized_paths(entries)) is Some,
    ensures
        ({
            let root = common_root_spec(normalized_paths(entries))->0;
            let p = normalized_paths(entries)[i];
            if p.len() > root.len() {
                p == root + seq!['/'] + clean_entry_path(entries, i)
            } else {
                p == root && clean_entry_path(entries, i) == p
            }
        }),
{
    let paths = normalized_paths(entries);
    let root = common_root_spec(paths)->0;
    let p = paths[i];
    assert(first_segment(paths[i]) == first_segment(paths[0]));
    assert(first_segment(p) == root);
    lemma_first_segment_prefix(p);
    if p.len() > root.len() {
        assert(under_folder(p, root));
        assert(p =~= root + seq!['/'] + p.subrange(root.len() as int + 1, p.len() as int));
    } else {
        assert(p =~= root);
    }
}

/// When two normalized paths start with different folders, no path is stripped.
pub proof fn law_distinct_roots_keep_paths<T>(entries: Seq<(String, T)>, i: int, j: int, k: int)
    requires
        0 <= i < entries.len(),
        0 <= j < entries.len(),
        0 <= k < entries.len(),
        first_segment(normalized_paths(entries)[i]) != first_segment(normalized_paths(entries)[j]),
    ensures
        clean_entry_path(entries, k) == normalized_paths(entries)[k],
{
    let paths = normalized_paths(entries);
    if common_root_spec(paths) is Some {
        assert(first_segment(paths[i]) == first_segment(paths[0]));
        assert(first_segment(paths[j]) == first_segment(paths[0]));
    }
}

proof fn lemma_join_front(segs: Seq<Seq<char>>, sep: char)
    requires
        segs.len() >= 2,
    ensures
        join_spec(segs, sep) == segs[0] + seq![sep] + join_spec(segs.drop_first(), sep),
    decreases segs.len(),
{
    if segs.len() == 2 {
        assert(segs.drop_last().len() == 1);
        assert(segs.drop_first().len() == 1);
        assert(join_spec(segs.drop_first(), sep) == segs[1]);
        assert(join_spec(segs.drop_last(), sep) == segs[0]);
        assert(segs.last() == segs[1]);
    } else {
        let d = segs.drop_last();
        lemma_join_front(d, sep);
        assert(d.drop_first() =~= segs.drop_first().drop_last());
        assert(segs.drop_first().last() == segs.last());
        assert(d[0] == segs[0]);
        let f = segs.drop_first();
        assert(join_spec(f, sep) == join_spec(f.drop_last(), sep) + seq![sep] + f.last());
        assert(join_spec(segs, sep) == join_spec(d, sep) + seq![sep] + segs.last());
        assert(join_spec(segs, sep) =~= segs[0] + seq![sep] + join_spec(segs.drop_first(), sep));
    }
}

proof fn lemma_first_segment_of_joined(a: Seq<char>, rest: Seq<char>)
    requires
        free_of(a, '/'),
    ensures
        first_segment(a + seq!['/'] + rest) == a,
    decreases a.len(),
{
    let s = a + seq!['/'] + rest;
    if a.len() == 0 {
        assert(s[0] == '/');
    } else {
        assert(s[0] == a[0]);
        assert(free_of(a.drop_first(), '/')) by {
            assert forall|t: int| 0 <= t < a.drop_first().len() implies #[trigger] a.drop_first()[t] != '/' by {
                assert(a.drop_first()[t] == a[t + 1]);
            }
        }
        lemma_first_segment_of_joined(a.drop_first(), rest);
        assert(s.drop_first() =~= a.drop_first() + seq!['/'] + rest);
        assert(seq![a[0]] + a.drop_first() =~= a);
    }
}

/// The archive path of an entry is as clean as a normalized path: it holds no
/// backslash and is either empty or made only of non-empty segments other than `.`.
pub proof fn law_clean_entry_paths_are_clean<T>(entries: Seq<(String, T)>, i: int)
    requires
        0 <= i < entries.len(),
    ensures
        free_of(clean_entry_path(entries, i), '\\'),
        clean_entry_path(entries, i).len() == 0 || forall|k: int|
            0 <= k < split_spec(clean_entry_path(entries, i), '/').len() ==> keep_segment(
                #[trigger] split_spec(clean_entry_path(entries, i), '/')[k],
            ),
{
    let paths = normalized_paths(entries);
    let p = paths[i];
    let raw = entries[i].0@;
    assert(p == normalize_spec(raw));
    law_normalized_segments_are_clean(raw);
    let root = common_root_spec(paths);
    if root is Some && under_folder(p, root->0) {
        let r = root->0;
        let kept = kept_segments(raw);
        lemma_kept_segments_clean(raw);
        assert(first_segment(paths[i]) == first_segment(paths[0]));
        assert(first_segment(p) == r);
        if kept.len() == 0 {
            assert(p.len() == 0);
        } else if kept.len() == 1 {
            assert(p == kept[0]);
            assert(free_of(kept[0], '/'));
            lemma_first_segment_prefix(p);
            assert(p[r.len() as int] == '/');
        } else {
            lemma_join_front(kept, '/');
            let tail = kept.drop_first();
            assert(p == kept[0] + seq!['/'] + join_spec(tail, '/'));
            assert(free_of(kept[0], '/'));
            lemma_first_segment_of_joined(kept[0], join_spec(tail, '/'));
            assert(r == kept[0]);
            let c = clean_entry_path(entries, i);
            assert(c =~= join_spec(tail, '/'));
            assert forall|k: int| 0 <= k < tail.len() implies free_of(#[trigger] tail[k], '/') && free_of(tail[k], '\\') && keep_segment(tail[k]) by {
                assert(tail[k] == kept[k + 1]);
            }
            lemma_join_chars(tail, '/', '\\');
            lemma_split_join(tail, '/');
        }
    }
}

/// Whether `p` is the folder `r` itself or a path inside it (`r/...`).
pub open spec fn in_folder(p: Seq<char>, r: Seq<char>) -> bool {
    p == r || (p.len() > r.len() && p.subrange(0, r.len() as int) == r && p[r.len() as int] == '/')
}

proof fn lemma_first_segment_free(s: Seq<char>)
    ensures
        free_of(first_segment(s), '/'),
    decreases s.len(),
{
    if s.len() > 0 && s[0] != '/' {
        lemma_first_segment_free(s.drop_first());
        let f = first_segment(s);
        assert forall|t: int| 0 <= t < f.len() implies #[trigger] f[t] != '/' by {
            if t > 0 {
                assert(f[t] == first_segment(s.drop_first())[t - 1]);
            }
        }
    }
}

/// The shared top-level folder is found whenever there is one, for any number of
/// paths: if every path is a non-empty folder name `r` without `/`, or lies inside
/// it, the common root is `r`. Conversely a common root is always such a folder.
pub proof fn law_common_root_is_the_shared_folder(paths: Seq<Seq<char>>, r: Seq<char>)
    ensures
        (paths.len() > 0 && r.len() > 0 && free_of(r, '/') && forall|i: int|
            0 <= i < paths.len() ==> in_folder(#[trigger] paths[i], r)) ==> common_root_spec(paths) == Some(r),
        common_root_spec(paths) == Some(r) ==> paths.len() > 0 && r.len() > 0 && free_of(r, '/') && forall|i: int|
            0 <= i < paths.len() ==> in_folder(#[trigger] paths[i], r),
{
    if paths.len() > 0 && r.len() > 0 && free_of(r, '/') && forall|i: int|
        0 <= i < paths.len() ==> in_folder(#[trigger] paths[i], r) {
        assert forall|i: int| 0 <= i < paths.len() implies #[trigger] first_segment(paths[i]) == r by {
            let p = paths[i];
            assert(in_folder(p, r));
            assert forall|t: int| 0 <= t < r.len() implies #[trigger] p[t] != '/' by {
                if p != r {
                    assert(p.subrange(0, r.len() as int)[t] == p[t]);
                }
            }
            lemma_first_segment(p, r.len() as int);
            if p == r {
                assert(p.subrange(0, r.len() as int) =~= r);
            }
        }
        assert(first_segment(paths[0]) == r);
    }
    if common_root_spec(paths) == Some(r) {
        assert(first_segment(paths[0]) == r);
        lemma_first_segment_free(paths[0]);
        assert forall|i: int| 0 <= i < paths.len() implies in_folder(#[trigger] paths[i], r) by {
            let p = paths[i];
            assert(first_segment(p) == first_segment(paths[0]));
            lemma_first_segment_prefix(p);
            if p.len() == r.len() {
                assert(p =~= p.subrange(0, r.len() as int));
            }
        }
    }
}

/// When every normalized path is a folder `r` or lies inside it, each entry below
/// the folder is archived as what follows `r/`, and the folder itself is kept as
/// it is, however many entries there are.
pub proof fn law_folder_shared_by_all_is_stripped<T>(entries: Seq<(String, T)>, r: Seq<char>)
    requires
        entries.len() > 0,
        r.len() > 0,
        free_of(r, '/'),
        forall|i: int| 0 <= i < entries.len() ==> in_folder(#[trigger] normalized_paths(entries)[i], r),
    ensures
        forall|i: int|
            0 <= i < entries.len() && normalized_paths(entries)[i] != r ==> normalized_paths(entries)[i]
                == r + seq!['/'] + #[trigger] clean_entry_path(entries, i),
        forall|i: int|
            0 <= i < entries.len() && normalized_paths(entries)[i] == r ==> #[trigger] clean_entry_path(entries, i) == r,
{
    let paths = normalized_paths(entries);
    law_common_root_is_the_shared_folder(paths, r);
    assert forall|i: int| 0 <= i < entries.len() && normalized_paths(entries)[i] != r implies normalized_paths(
        entries,
    )[i] == r + seq!['/'] + #[trigger] clean_entry_path(entries, i) by {
        let p = paths[i];
        assert(in_folder(p, r));
        assert(under_folder(p, r));
        assert(p =~= r + seq!['/'] + p.subrange(r.len() as int + 1, p.len() as int));
    }
    assert forall|i: int| 0 <= i < entries.len() && normalized_paths(entries)[i] == r implies #[trigger] clean_entry_path(entries, i) == r by {
        assert(!under_folder(paths[i], r));
    }
}

proof fn lemma_join_split(s: Seq<char>, sep: char)
    ensures
        join_spec(split_spec(s, sep), sep) == s,
    decreases s.len(),
{
    if s.len() == 0 {
        assert(split_spec(s, sep) =~= seq![Seq::<char>::empty()]);
        assert(s =~= Seq::<char>::empty());
    } else {
        let d = s.drop_last();
        let c = s.last();
        lemma_join_split(d, sep);
        lemma_split_nonempty(d, sep);
        let r = split_spec(d, sep);
        let q = split_spec(s, sep);
        if c == sep {
            assert(q == r.push(Seq::<char>::empty()));
            assert(q.drop_last() =~= r);
            assert(join_spec(q, sep) == join_spec(r, sep) + seq![sep] + Seq::<char>::empty());
            assert(d + seq![sep] + Seq::<char>::empty() =~= s);
        } else {
            assert(q == r.update(r.len() - 1, r.last().push(c)));
            if r.len() == 1 {
                assert(join_spec(r, sep) == r[0]);
                assert(q.len() == 1);
                assert(join_spec(q, sep) == q[0]);
                assert(q[0] =~= s);
            } else {
                assert(q.drop_last() =~= r.drop_last());
                assert(join_spec(r, sep) == join_spec(r.drop_last(), sep) + seq![sep] + r.last());
                assert(join_spec(q, sep) == join_spec(q.drop_last(), sep) + seq![sep] + q.last());
                assert(q.last() == r.last().push(c));
                assert(s =~= d.push(c));
                assert(join_spec(r, sep) == d);
                assert(join_spec(q, sep) =~= s);
            }
        }
    }
}

proof fn lemma_join_chars_from(segs: Seq<Seq<char>>, sep: char)
    ensures
        forall|t: int|
            0 <= t < join_spec(segs, sep).len() ==> #[trigger] join_spec(segs, sep)[t] == sep || exists|k: int, u: int|
                0 <= k < segs.len() && 0 <= u < segs[k].len() && segs[k][u] == join_spec(segs, sep)[t],
    decreases segs.len(),
{
    let j = join_spec(segs, sep);
    if segs.len() == 1 {
        assert forall|t: int| 0 <= t < j.len() implies #[trigger] j[t] == sep || exists|k: int, u: int|
            0 <= k < segs.len() && 0 <= u < segs[k].len() && segs[k][u] == j[t] by {
            assert(segs[0][t] == j[t]);
        }
    } else if segs.len() > 1 {
        let d = segs.drop_last();
        lemma_join_chars_from(d, sep);
        let a = join_spec(d, sep);
        assert forall|t: int| 0 <= t < j.len() implies #[trigger] j[t] == sep || exists|k: int, u: int|
            0 <= k < segs.len() && 0 <= u < segs[k].len() && segs[k][u] == j[t] by {
            if t < a.len() {
                assert(j[t] == a[t]);
                if a[t] != sep {
                    let (k, u) = choose|k: int, u: int| 0 <= k < d.len() && 0 <= u < d[k].len() && d[k][u] == a[t];
                    assert(segs[k] == d[k]);
                }
            } else if t > a.len() {
                let u = t - a.len() - 1;
                assert(j[t] == segs.last()[u]);
                assert(segs[segs.len() - 1][u] == j[t]);
            }
        }
    }
}

/// Normalization keeps the characters of the path: every character of the
/// normalized path other than `/` is a character of the raw path, and not a
/// backslash.
pub proof fn law_normalize_keeps_characters(raw: Seq<char>)
    ensures
        forall|t: int|
            0 <= t < normalize_spec(raw).len() ==> #[trigger] normalize_spec(raw)[t] == '/' || (normalize_spec(raw)[t]
                != '\\' && raw.contains(normalize_spec(raw)[t])),
{
    let u = unify_seps(raw);
    let pieces = split_spec(u, '/');
    let kept = kept_segments(raw);
    let n = normalize_spec(raw);
    lemma_split_pieces(u, '/');
    lemma_filter_kept(pieces);
    lemma_join_chars_from(kept, '/');
    assert forall|t: int| 0 <= t < n.len() implies #[trigger] n[t] == '/' || (n[t] != '\\' && raw.contains(n[t])) by {
        if n[t] != '/' {
            let (k, v) = choose|k: int, v: int| 0 <= k < kept.len() && 0 <= v < kept[k].len() && kept[k][v] == n[t];
            assert(pieces.contains(kept[k]));
            let m = choose|m: int| 0 <= m < pieces.len() && pieces[m] == kept[k];
            assert(pieces[m][v] != '/' && u.contains(pieces[m][v]));
            let w = choose|w: int| 0 <= w < u.len() && u[w] == pieces[m][v];
            assert(u[w] == unify_sep(raw[w]));
            assert(raw[w] == n[t]);
        }
    }
}

/// A path that already is clean (no backslash, and every piece between slashes
/// non-empty and other than `.`) normalizes to itself.
pub proof fn law_clean_path_is_unchanged(raw: Seq<char>)
    requires
        free_of(raw, '\\'),
        forall|k: int| 0 <= k < split_spec(raw, '/').len() ==> keep_segment(#[trigger] split_spec(raw, '/')[k]),
    ensures
        normalize_spec(raw) == raw,
{
    assert(unify_seps(raw) =~= raw) by {
        assert forall|t: int| 0 <= t < raw.len() implies #[trigger] unify_seps(raw)[t] == raw[t] by {
            assert(raw[t] != '\\');
        }
    }
    lemma_filter_all_kept(split_spec(raw, '/'));
    lemma_join_split(raw, '/');
}

/// Stripping a prefix removes exactly one leading `prefix/` when the path has it,
/// and otherwise (or with no prefix) leaves the path as it is.
pub proof fn law_strip_removes_one_prefix(path: Seq<char>, prefix: Option<Seq<char>>)
    ensures
        prefix is None ==> strip_spec(path, prefix) == path,
        prefix is Some && path.len() > prefix->0.len() && path.subrange(0, prefix->0.len() as int) == prefix->0
            && path[prefix->0.len() as int] == '/' ==> path == prefix->0 + seq!['/'] + strip_spec(path, prefix),
        prefix is Some && !(path.len() > prefix->0.len() && path.subrange(0, prefix->0.len() as int) == prefix->0
            && path[prefix->0.len() as int] == '/') ==> strip_spec(path, prefix) == path,
{
    if let Some(p) = prefix {
        if under_folder(path, p) {
            assert(path =~= p + seq!['/'] + path.subrange(p.len() as int + 1, path.len() as int));
        }
    }
}

/// Normalization drops exactly the empty and `.` pieces: every piece of the raw
/// path (split at `/` and `\\`) that is neither empty nor `.` is a segment of the
/// normalized path, and every segment of a non-empty normalized path is such a
/// piece.
pub proof fn law_normalize_drops_only_empty_and_dot(raw: Seq<char>)
    ensures
        forall|k: int|
            0 <= k < split_spec(unify_seps(raw), '/').len() && (#[trigger] split_spec(unify_seps(raw), '/')[k]).len() > 0
                && !(split_spec(unify_seps(raw), '/')[k].len() == 1 && split_spec(unify_seps(raw), '/')[k][0] == '.')
                ==> split_spec(normalize_spec(raw), '/').contains(split_spec(unify_seps(raw), '/')[k]),
        normalize_spec(raw).len() > 0 ==> forall|k: int|
            0 <= k < split_spec(normalize_spec(raw), '/').len() ==> {
                let seg = #[trigger] split_spec(normalize_spec(raw), '/')[k];
                &&& seg.len() > 0
                &&& !(seg.len() == 1 && seg[0] == '.')
                &&& split_spec(unify_seps(raw), '/').contains(seg)
            },
{
    let u = unify_seps(raw);
    let pieces = split_spec(u, '/');
    let kept = kept_segments(raw);
    let n = normalize_spec(raw);
    lemma_kept_segments_clean(raw);
    lemma_filter_kept(pieces);
    broadcast use Seq::lemma_filter_contains;
    assert forall|k: int|
        0 <= k < pieces.len() && (#[trigger] pieces[k]).len() > 0 && !(pieces[k].len() == 1 && pieces[k][0] == '.')
        implies split_spec(n, '/').contains(pieces[k]) by {
        assert(keep_segment(pieces[k])) by {
            if pieces[k] == seq!['.'] {
                assert(pieces[k].len() == 1 && pieces[k][0] == '.');
            }
        }
        pieces.lemma_filter_contains(keep_pred(), k);
        assert(kept.contains(pieces[k]));
        lemma_split_join(kept, '/');
    }
    if n.len() > 0 {
        assert(kept.len() >= 1) by {
            if kept.len() == 0 {
                assert(n =~= Seq::<char>::empty());
            }
        }
        lemma_split_join(kept, '/');
        assert forall|k: int| 0 <= k < split_spec(n, '/').len() implies {
            let seg = #[trigger] split_spec(n, '/')[k];
            &&& seg.len() > 0
            &&& !(seg.len() == 1 && seg[0] == '.')
            &&& pieces.contains(seg)
        } by {
            let seg = split_spec(n, '/')[k];
            assert(seg == kept[k]);
            assert(keep_segment(kept[k]));
            if seg.len() == 1 && seg[0] == '.' {
                assert(seg =~= seq!['.']);
            }
        }
    }
}

} // verus!
