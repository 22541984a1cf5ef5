//! Unix path syntax as `std::path::Path` reads it: the components of a path
//! written with `/` separators, and the file name of a path.
use crate::text::{concat, strings_view, substring};
use vstd::prelude::*;
use vstd::string::*;

verus! {

/// The pieces of `s` between `/` separators, empty pieces included.
pub open spec fn split_segments(s: Seq<char>) -> Seq<Seq<char>>
    decreases s.len(),
{
    if s.len() == 0 {
        seq![Seq::empty()]
    } else {
        let prev = split_segments(s.drop_last());
        if s.last() == '/' {
            prev.push(Seq::empty())
        } else {
            prev.update(prev.len() - 1, prev.last().push(s.last()))
        }
    }
}

/// A piece after the first one names a component unless it is empty or `.`.
pub open spec fn is_named_segment(seg: Seq<char>) -> bool {
    seg.len() > 0 && seg != seq!['.']
}

/// The component that the first piece gives: the root directory `/` for an
/// absolute path, otherwise the first piece itself (`.` included) if it is
/// not empty.
pub open spec fn head_components(first: Seq<char>, has_root: bool) -> Seq<Seq<char>> {
    if has_root {
        seq![seq!['/']]
    } else if first.len() > 0 {
        seq![first]
    } else {
        Seq::empty()
    }
}

/// The components of a list of pieces.
pub open spec fn components_of_segments(segs: Seq<Seq<char>>, has_root: bool) -> Seq<Seq<char>> {
    head_components(segs[0], has_root) + segs.drop_first().filter(
        |seg: Seq<char>| is_named_segment(seg),
    )
}

/// Whether the path is absolute.
pub open spec fn has_root(s: Seq<char>) -> bool {
    s.len() > 0 && s[0] == '/'
}

/// The components of a path, each written as text: `/` for the root directory,
/// `.` for a leading current directory, `..` for a parent directory, and the
/// name otherwise (what `Path::components` yields on Unix).
pub open spec fn path_components(s: Seq<char>) -> Seq<Seq<char>> {
    components_of_segments(split_segments(s), has_root(s))
}

/// The file name of a path: its last component when that is a name (what
/// `Path::file_name` returns).
pub open spec fn path_file_name(s: Seq<char>) -> Option<Seq<char>> {
    let c = path_components(s);
    if c.len() > 0 && is_name(c.last()) {
        Some(c.last())
    } else {
        None
    }
}

/// A component that is neither the root, the current nor the parent directory.
pub open spec fn is_name(c: Seq<char>) -> bool {
    c != seq!['/'] && c != seq!['.'] && c != seq!['.', '.']
}

proof fn lemma_split_segments_len(s: Seq<char>)
    ensures
        split_segments(s).len() >= 1,
    decreases s.len(),
{
    if s.len() > 0 {
        lemma_split_segments_len(s.drop_last());
    }
}

/// The pieces of a path before its last one, turned into components.
pub open spec fn pending_components(segs: Seq<Seq<char>>, has_root: bool) -> Seq<Seq<char>> {
    if segs.len() <= 1 {
        if has_root {
            seq![seq!['/']]
        } else {
            Seq::empty()
        }
    } else {
        components_of_segments(segs.drop_last(), has_root)
    }
}

/// Closing the last piece of a list of pieces.
proof fn lemma_close_segment(segs: Seq<Seq<char>>, has_root: bool)
    requires
        segs.len() >= 1,
        has_root ==> segs[0].len() == 0,
    ensures
        components_of_segments(segs, has_root) == pending_components(segs, has_root) + (if segs.len()
            == 1 {
            if !has_root && segs[0].len() > 0 {
                seq![segs[0]]
            } else {
                Seq::<Seq<char>>::empty()
            }
        } else if is_named_segment(segs.last()) {
            seq![segs.last()]
        } else {
            Seq::<Seq<char>>::empty()
        }),
{
    let pred = |seg: Seq<char>| is_named_segment(seg);
    if segs.len() == 1 {
        assert(segs.drop_first() =~= Seq::<Seq<char>>::empty());
        assert(segs.drop_first().filter(pred) =~= Seq::<Seq<char>>::empty());
        assert(components_of_segments(segs, has_root) =~= pending_components(segs, has_root) + (
        if !has_root && segs[0].len() > 0 {
            seq![segs[0]]
        } else {
            Seq::<Seq<char>>::empty()
        }));
    } else {
        let d = segs.drop_first();
        assert(d.drop_last() =~= segs.drop_last().drop_first());
        assert(d.last() == segs.last());
        assert(segs.drop_last()[0] == segs[0]);
        assert(d.len() > 0);
        reveal_with_fuel(Seq::filter, 1);
        assert(d.filter(pred) == if pred(d.last()) {
            d.drop_last().filter(pred).push(d.last())
        } else {
            d.drop_last().filter(pred)
        });
        if is_named_segment(segs.last()) {
            assert(components_of_segments(segs, has_root) =~= pending_components(segs, has_root)
                + seq![segs.last()]);
        } else {
            assert(components_of_segments(segs, has_root) =~= pending_components(segs, has_root)
                + Seq::<Seq<char>>::empty());
        }
    }
}

/// The components of `p`, as `Path::new(p).components()` yields them, each
/// written as text (`/`, `.`, `..` or the name).
pub fn path_components_of(p: &str) -> (r: Vec<String>)
    ensures
        strings_view(r@) == path_components(p@),
{
    let n = p.unicode_len();
    let rooted = n > 0 && p.get_char(0) == '/';
    let mut out: Vec<String> = Vec::new();
    if rooted {
        let root = substring(p, 0, 1);
        out.push(root);
        assert(root@ =~= seq!['/']);
    }
    let mut start: usize = 0;
    let mut i: usize = 0;
    proof {
        assert(p@.take(0) =~= Seq::<char>::empty());
        assert(p@.subrange(0, 0) =~= Seq::<char>::empty());
        assert(strings_view(out@) =~= pending_components(
            split_segments(p@.take(0)),
            rooted,
        ));
    }
    while i < n
        invariant
            n == p@.len(),
            rooted == has_root(p@),
            start <= i <= n,
            split_segments(p@.take(i as int)).len() >= 1,
            split_segments(p@.take(i as int)).last() == p@.subrange(start as int, i as int),
            (start == 0) == (split_segments(p@.take(i as int)).len() == 1),
            rooted ==> split_segments(p@.take(i as int))[0].len() == 0,
            strings_view(out@) == pending_components(
                split_segments(p@.take(i as int)),
                rooted,
            ),
        decreases n - i,
    {
        let ghost segs = split_segments(p@.take(i as int));
        let ghost next = p@.take(i + 1);
        proof {
            assert(next.drop_last() =~= p@.take(i as int));
            assert(next.last() == p@[i as int]);
            lemma_split_segments_len(p@.take(i as int));
        }
        let c = p.get_char(i);
        if c == '/' {
            let seg = substring(p, start, i);
            let ghost before = strings_view(out@);
            proof {
                lemma_close_segment(segs, rooted);
                assert(split_segments(next) == segs.push(Seq::empty()));
                assert(split_segments(next).drop_last() =~= segs);
                assert(seg@ == segs.last());
                if seg@.len() == 1 {
                    assert(seg@[0] == p@[start as int]);
                }
            }
            let push = if start == 0 {
                !rooted && i > 0
            } else {
                let is_dot = i == start + 1 && p.get_char(start) == '.';
                proof {
                    if i > start && is_dot {
                        assert(seg@ =~= seq!['.']);
                    }
                }
                i > start && !is_dot
            };
            if push {
                out.push(seg);
                proof {
                    assert(strings_view(out@) =~= before.push(seg@));
                }
            }
            proof {
                if i > 0 {
                    assert(split_segments(next)[0] == segs[0]);
                }
                if push {
                    assert(strings_view(out@) =~= pending_components(
                        split_segments(next),
                        rooted,
                    ));
                } else {
                    assert(strings_view(out@) =~= pending_components(
                        split_segments(next),
                        rooted,
                    ));
                }
                assert(p@.subrange(i + 1, i + 1) =~= Seq::<char>::empty());
            }
            start = i + 1;
        } else {
            proof {
                assert(split_segments(next) == segs.update(
                    segs.len() - 1,
                    segs.last().push(c),
                ));
                assert(p@.subrange(start as int, i + 1) =~= p@.subrange(start as int, i as int).push(
                    c,
                ));
                assert(split_segments(next).drop_last() =~= segs.drop_last());
                if segs.len() > 1 {
                    assert(split_segments(next)[0] == segs[0]);
                }
            }
        }
        i += 1;
    }
    let ghost segs = split_segments(p@.take(n as int));
    proof {
        assert(p@.take(n as int) =~= p@);
        lemma_close_segment(segs, rooted);
    }
    let seg = substring(p, start, n);
    let ghost before = strings_view(out@);
    proof {
        assert(seg@ == segs.last());
        if seg@.len() == 1 {
            assert(seg@[0] == p@[start as int]);
        }
    }
    let push = if start == 0 {
        !rooted && n > 0
    } else {
        let is_dot = n - start == 1 && p.get_char(start) == '.';
        proof {
            if n > start && is_dot {
                assert(seg@ =~= seq!['.']);
            }
        }
        n > start && !is_dot
    };
    if push {
        out.push(seg);
        proof {
            assert(strings_view(out@) =~= before.push(seg@));
        }
    }
    proof {
        assert(strings_view(out@) =~= path_components(p@));
    }
    out
}

/// The file name of `p` (`Path::new(p).file_name()`).
pub fn path_file_name_of(p: &str) -> (r: Option<String>)
    ensures
        match r {
            Some(name) => path_file_name(p@) == Some(name@),
            None => path_file_name(p@) is None,
        },
{
    let mut comps = path_components_of(p);
    let ghost cv = strings_view(comps@);
    match comps.pop() {
        None => None,
        Some(last) => {
            proof {
                assert(cv.last() == last@);
            }
            let n = last.as_str().unicode_len();
            let is_root = n == 1 && last.as_str().get_char(0) == '/';
            let is_dot = n == 1 && last.as_str().get_char(0) == '.';
            let is_parent = n == 2 && last.as_str().get_char(0) == '.' && last.as_str().get_char(1)
                == '.';
            proof {
                if n == 1 {
                    assert(last@ == seq![last@[0]]);
                }
                if n == 2 {
                    assert(last@ == seq![last@[0], last@[1]]);
                }
            }
            if is_root || is_dot || is_parent {
                None
            } else {
                Some(last)
            }
        },
    }
}

/// A path with components `c`, written with `/` between them (the root
/// component already ends in `/`).
pub open spec fn join_components(c: Seq<Seq<char>>) -> Seq<char>
    decreases c.len(),
{
    if c.len() == 0 {
        Seq::empty()
    } else if c.len() == 1 {
        c[0]
    } else {
        let init = join_components(c.drop_last());
        if init.len() > 0 && init.last() == '/' {
            init + c.last()
        } else {
            init + seq!['/'] + c.last()
        }
    }
}

/// Writes components back as a path string.
pub fn join_path(c: &Vec<String>) -> (r: String)
    ensures
        r@ == join_components(strings_view(c@)),
{
    let ghost cv = strings_view(c@);
    let mut out = String::new();
    let mut i: usize = 0;
    let slash = "/";
    proof {
        reveal_strlit("/");
        assert(cv.take(0) =~= Seq::<Seq<char>>::empty());
    }
    while i < c.len()
        invariant
            i <= c.len(),
            cv == strings_view(c@),
            slash@ == seq!['/'],
            out@ == join_components(cv.take(i as int)),
        decreases c.len() - i,
    {
        proof {
            assert(cv.take(i + 1).drop_last() =~= cv.take(i as int));
            assert(cv.take(i + 1).last() == c@[i as int]@);
        }
        if i == 0 {
            out = c[i].clone();
            assert(cv.take(1) =~= seq![c@[0]@]);
        } else {
            let n = out.as_str().unicode_len();
            if n > 0 && out.as_str().get_char(n - 1) == '/' {
                out = concat(out.as_str(), c[i].as_str());
            } else {
                let with_slash = concat(out.as_str(), slash);
                out = concat(with_slash.as_str(), c[i].as_str());
            }
        }
        i += 1;
    }
    proof {
        assert(cv.take(c.len() as int) =~= cv);
    }
    out
}

/// The components of `file` after those of `base`, when `base`'s components
/// begin `file`'s (what `Path::strip_prefix` checks).
pub open spec fn components_after(file: Seq<char>, base: Seq<char>) -> Option<Seq<Seq<char>>> {
    let f = path_components(file);
    let b = path_components(base);
    if b.is_prefix_of(f) {
        Some(f.skip(b.len() as int))
    } else {
        None
    }
}

/// The components of `file` after those of `base`, as text (what
/// `Path::strip_prefix` leaves), or `None` when `base`'s components do not
/// begin `file`'s.
pub fn components_below(file: &str, base: &str) -> (r: Option<Vec<String>>)
    ensures
        match (r, components_after(file@, base@)) {
            (Some(v), Some(c)) => strings_view(v@) == c,
            (None, None) => true,
            _ => false,
        },
{
    let f = path_components_of(file);
    let b = path_components_of(base);
    let ghost fv = strings_view(f@);
    let ghost bv = strings_view(b@);
    if b.len() > f.len() {
        proof {
            assert(!bv.is_prefix_of(fv));
        }
        return None;
    }
    let mut i: usize = 0;
    while i < b.len()
        invariant
            b.len() <= f.len(),
            i <= b.len(),
            fv == strings_view(f@),
            bv == strings_view(b@),
            fv == path_components(file@),
            bv == path_components(base@),
            forall|j: int| 0 <= j < i ==> bv[j] == fv[j],
        decreases b.len() - i,
    {
        if !(b[i] == f[i]) {
            proof {
                assert(bv[i as int] != fv[i as int]);
                assert(fv.subrange(0, bv.len() as int)[i as int] == fv[i as int]);
            }
            return None;
        }
        i += 1;
    }
    let mut rest: Vec<String> = Vec::new();
    let mut k: usize = b.len();
    while k < f.len()
        invariant
            b.len() <= k <= f.len(),
            fv == strings_view(f@),
            strings_view(rest@) == fv.subrange(b.len() as int, k as int),
        decreases f.len() - k,
    {
        let ghost before = rest@;
        let item = f[k].clone();
        assert(item@ == fv[k as int]);
        rest.push(item);
        proof {
            assert(strings_view(rest@) =~= strings_view(before).push(item@));
            assert(fv.subrange(b.len() as int, k + 1) =~= fv.subrange(b.len() as int, k as int).push(fv[k as int]));
        }
        k += 1;
    }
    proof {
        assert(bv.is_prefix_of(fv)) by {
            assert(bv =~= fv.take(bv.len() as int));
        }
        assert(fv.subrange(b.len() as int, f.len() as int) =~= fv.skip(bv.len() as int));
    }
    Some(rest)
}

/// No piece between separators holds a separator.
pub proof fn lemma_split_no_slash(s: Seq<char>)
    ensures
        forall|i: int|
            0 <= i < split_segments(s).len() ==> !(#[trigger] split_segments(s)[i]).contains('/'),
    decreases s.len(),
{
    if s.len() > 0 {
        lemma_split_no_slash(s.drop_last());
        lemma_split_segments_len(s.drop_last());
        let prev = split_segments(s.drop_last());
        if s.last() != '/' {
            assert(!prev.last().contains('/')) by {
                assert(prev[prev.len() - 1] == prev.last());
            }
            assert forall|i: int| 0 <= i < split_segments(s).len() implies !(
            #[trigger] split_segments(s)[i]).contains('/') by {
                if i == prev.len() - 1 {
                    let t = prev.last().push(s.last());
                    if t.contains('/') {
                        let k = choose|k: int| 0 <= k < t.len() && t[k] == '/';
                        if k < prev.last().len() {
                            assert(prev.last()[k] == '/');
                        }
                    }
                }
            }
        } else {
            assert forall|i: int| 0 <= i < split_segments(s).len() implies !(
            #[trigger] split_segments(s)[i]).contains('/') by {
                if i == prev.len() {
                    assert(split_segments(s)[i] =~= Seq::<char>::empty());
                }
            }
        }
    } else {
        assert forall|i: int| 0 <= i < split_segments(s).len() implies !(
        #[trigger] split_segments(s)[i]).contains('/') by {
            assert(split_segments(s)[i] =~= Seq::<char>::empty());
        }
    }
}

/// Text with no separator is one piece.
proof fn lemma_split_plain(b: Seq<char>)
    requires
        !b.contains('/'),
    ensures
        split_segments(b) == seq![b],
    decreases b.len(),
{
    if b.len() > 0 {
        assert(!b.drop_last().contains('/')) by {
            if b.drop_last().contains('/') {
                let k = choose|k: int| 0 <= k < b.drop_last().len() && b.drop_last()[k] == '/';
                assert(b[k] == '/');
            }
        }
        lemma_split_plain(b.drop_last());
        assert(b[b.len() - 1] != '/');
        assert(b.drop_last().push(b.last()) =~= b);
        assert(split_segments(b) =~= seq![b]);
    } else {
        assert(b =~= Seq::<char>::empty());
    }
}

/// A separator and a piece written after a path add that piece.
proof fn lemma_split_append(a: Seq<char>, b: Seq<char>)
    requires
        !b.contains('/'),
    ensures
        split_segments(a + seq!['/'] + b) == split_segments(a).push(b),
    decreases b.len(),
{
    let s = a + seq!['/'] + b;
    if b.len() == 0 {
        assert(s.drop_last() =~= a);
        assert(s.last() == '/');
        assert(b =~= Seq::<char>::empty());
    } else {
        assert(!b.drop_last().contains('/')) by {
            if b.drop_last().contains('/') {
                let k = choose|k: int| 0 <= k < b.drop_last().len() && b.drop_last()[k] == '/';
                assert(b[k] == '/');
            }
        }
        lemma_split_append(a, b.drop_last());
        assert(s.drop_last() =~= a + seq!['/'] + b.drop_last());
        assert(s.last() == b.last());
        assert(b[b.len() - 1] != '/');
        assert(b.drop_last().push(b.last()) =~= b);
        assert(split_segments(s) =~= split_segments(a).push(b));
    }
}

/// Components with no separator in them, all but the first non-empty, are
/// the pieces of the path that joins them.
proof fn lemma_join_split(c: Seq<Seq<char>>)
    requires
        c.len() >= 1,
        forall|i: int| 0 <= i < c.len() ==> !(#[trigger] c[i]).contains('/'),
        forall|i: int| 1 <= i < c.len() ==> (#[trigger] c[i]).len() > 0,
    ensures
        split_segments(join_components(c)) == c,
        c.len() >= 2 ==> join_components(c) == join_components(c.drop_last()) + seq!['/'] + c.last(),
        c.len() >= 2 ==> join_components(c).len() > 0 && join_components(c).last() == c.last().last(),
        c[0].len() > 0 ==> join_components(c).len() > 0 && join_components(c)[0] == c[0][0],
        c[0].len() == 0 && c.len() >= 2 ==> join_components(c).len() > 0 && join_components(c)[0] == '/',
    decreases c.len(),
{
    if c.len() == 1 {
        lemma_split_plain(c[0]);
        assert(seq![c[0]] =~= c);
    } else {
        let init = c.drop_last();
        assert forall|i: int| 0 <= i < init.len() implies !(#[trigger] init[i]).contains('/') by {
            assert(init[i] == c[i]);
        }
        assert forall|i: int| 1 <= i < init.len() implies (#[trigger] init[i]).len() > 0 by {
            assert(init[i] == c[i]);
        }
        lemma_join_split(init);
        let j = join_components(init);
        assert(c[c.len() - 1] == c.last());
        assert(c.last().len() > 0);
        if init.len() == 1 {
            assert(j == c[0]);
            if j.len() > 0 {
                assert(j[j.len() - 1] != '/') by {
                    assert(!c[0].contains('/'));
                }
            }
        } else {
            assert(init[init.len() - 1] == init.last());
            assert(init.last().len() > 0);
            assert(!init.last().contains('/'));
            assert(init.last()[init.last().len() - 1] != '/');
        }
        assert(!(j.len() > 0 && j.last() == '/'));
        assert(!c.last().contains('/'));
        lemma_split_append(j, c.last());
        assert(init.push(c.last()) =~= c);
        let r = j + seq!['/'] + c.last();
        assert(r.last() == c.last().last());
        if c[0].len() > 0 {
            assert(init[0] == c[0]);
            assert(r[0] == j[0]);
        } else if init.len() == 1 {
            assert(j.len() == 0);
            assert(r[0] == '/');
        } else {
            assert(init[0] == c[0]);
            assert(r[0] == j[0]);
        }
    }
}

/// A component after the first of a path is a name or `..`: not empty, not
/// `.` and without a separator.
pub proof fn lemma_components_after_first(s: Seq<char>)
    ensures
        forall|i: int|
            1 <= i < path_components(s).len() ==> {
                let x = #[trigger] path_components(s)[i];
                x.len() > 0 && x != seq!['.'] && !x.contains('/')
            },
        path_components(s).len() > 0 && path_components(s)[0] != seq!['/'] ==> path_components(
            s,
        )[0].len() > 0 && !path_components(s)[0].contains('/'),
{
    let segs = split_segments(s);
    lemma_split_segments_len(s);
    lemma_split_no_slash(s);
    let named = |seg: Seq<char>| is_named_segment(seg);
    let rest = segs.drop_first().filter(named);
    let head = head_components(segs[0], has_root(s));
    assert(path_components(s) == head + rest);
    assert forall|k: int| 0 <= k < rest.len() implies {
        let x = #[trigger] rest[k];
        x.len() > 0 && x != seq!['.'] && !x.contains('/')
    } by {
        segs.drop_first().lemma_filter_pred(named, k);
        segs.drop_first().lemma_filter_contains_rev(named, rest[k]);
        let m = choose|m: int| 0 <= m < segs.drop_first().len() && segs.drop_first()[m] == rest[k];
        assert(segs[m + 1] == rest[k]);
    }
    assert(head.len() <= 1);
    assert forall|i: int| 1 <= i < path_components(s).len() implies {
        let x = #[trigger] path_components(s)[i];
        x.len() > 0 && x != seq!['.'] && !x.contains('/')
    } by {
        if head.len() == 1 {
            assert(path_components(s)[i] == rest[i - 1]);
        } else {
            assert(path_components(s)[i] == rest[i]);
        }
    }
    if path_components(s).len() > 0 && path_components(s)[0] != seq!['/'] {
        if head.len() == 1 {
            assert(!has_root(s));
            assert(path_components(s)[0] == segs[0]);
        } else {
            assert(path_components(s)[0] == rest[0]);
        }
    }
}

/// The components of the path that joins `c`: `c` itself, the empty first
/// one written as the root directory when more follow (and nothing when
/// `c` is that empty one alone).
pub proof fn lemma_join_components(c: Seq<Seq<char>>)
    requires
        c.len() >= 1,
        !c[0].contains('/'),
        forall|i: int| 1 <= i < c.len() ==> {
            let x = #[trigger] c[i];
            x.len() > 0 && x != seq!['.'] && !x.contains('/')
        },
    ensures
        path_components(join_components(c)) == if c[0].len() > 0 {
            c
        } else if c.len() >= 2 {
            seq![seq!['/']] + c.drop_first()
        } else {
            Seq::<Seq<char>>::empty()
        },
{
    lemma_join_split(c);
    let s = join_components(c);
    let named = |seg: Seq<char>| is_named_segment(seg);
    assert forall|i: int| 0 <= i < c.drop_first().len() implies named(#[trigger] c.drop_first()[i]) by {
        assert(c.drop_first()[i] == c[i + 1]);
    }
    lemma_filter_all_named(c.drop_first());
    if c[0].len() > 0 {
        assert(!has_root(s)) by {
            assert(s[0] == c[0][0]);
            assert(!c[0].contains('/'));
        }
        assert(seq![c[0]] + c.drop_first() =~= c);
    } else if c.len() >= 2 {
        assert(has_root(s));
    } else {
        assert(s == c[0]);
        assert(s.len() == 0);
        assert(c.drop_first() =~= Seq::<Seq<char>>::empty());
        assert(c.drop_first().filter(named) =~= Seq::<Seq<char>>::empty()) by {
            reveal_with_fuel(Seq::filter, 1);
        }
    }
}

proof fn lemma_filter_all_named(s: Seq<Seq<char>>)
    requires
        forall|i: int| 0 <= i < s.len() ==> is_named_segment(#[trigger] s[i]),
    ensures
        s.filter(|seg: Seq<char>| is_named_segment(seg)) == s,
    decreases s.len(),
{
    reveal_with_fuel(Seq::filter, 1);
    if s.len() > 0 {
        assert forall|i: int| 0 <= i < s.drop_last().len() implies is_named_segment(
            #[trigger] s.drop_last()[i],
        ) by {
            assert(s.drop_last()[i] == s[i]);
        }
        lemma_filter_all_named(s.drop_last());
        assert(is_named_segment(s[s.len() - 1]));
        assert(s.drop_last().push(s.last()) =~= s);
    } else {
        assert(s.filter(|seg: Seq<char>| is_named_segment(seg)) =~= s);
    }
}

/// Components that begin with the root directory are written as the same
/// components with an empty first one.
proof fn lemma_join_rooted(c: Seq<Seq<char>>)
    requires
        c.len() >= 2,
        c[0] == seq!['/'],
        forall|i: int| 1 <= i < c.len() ==> (#[trigger] c[i]).len() > 0,
    ensures
        join_components(c) == join_components(seq![Seq::<char>::empty()] + c.drop_first()),
        join_components(c).len() > 0,
    decreases c.len(),
{
    let e = seq![Seq::<char>::empty()] + c.drop_first();
    assert(e.drop_last() =~= seq![Seq::<char>::empty()] + c.drop_last().drop_first());
    if c.len() == 2 {
        assert(c.drop_last() =~= seq![seq!['/']]);
        assert(e.drop_last() =~= seq![Seq::<char>::empty()]);
        assert(e.last() == c.last());
        assert(c.last() == c[1]);
        assert(join_components(e.drop_last()) == Seq::<char>::empty());
        assert(join_components(c.drop_last()) == seq!['/']);
        assert(Seq::<char>::empty() + seq!['/'] + c.last() =~= seq!['/'] + c.last());
        assert(join_components(e) =~= seq!['/'] + c.last());
        assert(join_components(c) =~= seq!['/'] + c.last());
        assert((seq!['/'] + c.last()).len() > 0);
    } else {
        assert forall|i: int| 1 <= i < c.drop_last().len() implies (#[trigger] c.drop_last()[i]).len()
            > 0 by {
            assert(c.drop_last()[i] == c[i]);
        }
        lemma_join_rooted(c.drop_last());
        assert(e.last() == c.last());
    }
}

/// A path cut into its components and joined again has the same
/// components: the top component joined with the rest gives the path back.
pub proof fn law_path_rejoined(p: Seq<char>)
    ensures
        path_components(join_components(path_components(p))) == path_components(p),
{
    let c = path_components(p);
    lemma_components_after_first(p);
    if c.len() == 0 {
        let segs = split_segments(Seq::<char>::empty());
        assert(segs.drop_first() =~= Seq::<Seq<char>>::empty());
        assert(segs.drop_first().filter(|seg: Seq<char>| is_named_segment(seg)) =~= Seq::<
            Seq<char>,
        >::empty()) by {
            reveal_with_fuel(Seq::filter, 1);
        }
        assert(path_components(Seq::<char>::empty()) =~= c);
    } else if c[0] != seq!['/'] {
        lemma_join_components(c);
        assert(c[0].len() > 0);
    } else if c.len() == 1 {
        let root = seq!['/'];
        assert(join_components(c) == root);
        let segs = split_segments(root);
        assert(root.drop_last() =~= Seq::<char>::empty());
        assert(split_segments(Seq::<char>::empty()) == seq![Seq::<char>::empty()]);
        assert(root.last() == '/');
        assert(segs =~= seq![Seq::<char>::empty(), Seq::<char>::empty()]);
        assert(segs.drop_first() =~= seq![Seq::<char>::empty()]);
        assert(segs.drop_first().filter(|seg: Seq<char>| is_named_segment(seg)) =~= Seq::<
            Seq<char>,
        >::empty()) by {
            reveal_with_fuel(Seq::filter, 2);
        }
        assert(path_components(root) =~= c);
    } else {
        let e = seq![Seq::<char>::empty()] + c.drop_first();
        lemma_join_rooted(c);
        assert forall|i: int| 1 <= i < e.len() implies {
            let x = #[trigger] e[i];
            x.len() > 0 && x != seq!['.'] && !x.contains('/')
        } by {
            assert(e[i] == c[i]);
        }
        assert(!e[0].contains('/'));
        lemma_join_components(e);
        assert(seq![seq!['/']] + e.drop_first() =~= c);
    }
}

} // verus!

