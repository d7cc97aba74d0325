//! `IMPORT` path normalisation, identical on every platform: `/` and `\` both
//! separate segments, a relative path resolves against the importing file's
//! directory, `.` and `..` collapse, and the result is joined with `/`.
use vstd::prelude::*;
use crate::text::{chars_of, push_char, push_chars};

verus! {

/// A path separator: `/` or `\`.
pub open spec fn is_sep(c: char) -> bool {
    c == '/' || c == '\\'
}

/// Whether a path starts with a separator (is absolute).
pub open spec fn starts_with_sep(s: Seq<char>) -> bool {
    s.len() > 0 && is_sep(s[0])
}

/// Splitting state after reading `s`: the finished segments and the segment
/// being read.
pub open spec fn split_state(s: Seq<char>) -> (Seq<Seq<char>>, Seq<char>)
    decreases s.len(),
{
    if s.len() == 0 {
        (Seq::empty(), Seq::empty())
    } else {
        let (done, cur) = split_state(s.drop_last());
        if is_sep(s.last()) {
            (done.push(cur), Seq::empty())
        } else {
            (done, cur.push(s.last()))
        }
    }
}

/// The segments between separators (always at least one, possibly empty).
pub open spec fn segments(s: Seq<char>) -> Seq<Seq<char>> {
    split_state(s).0.push(split_state(s).1)
}

/// One segment applied to the parts so far: empty and `.` change nothing,
/// `..` drops the last part (if any), anything else is appended.
pub open spec fn step_seg(parts: Seq<Seq<char>>, seg: Seq<char>) -> Seq<Seq<char>> {
    if seg.len() == 0 || seg == seq!['.'] {
        parts
    } else if seg == seq!['.', '.'] {
        if parts.len() == 0 {
            parts
        } else {
            parts.drop_last()
        }
    } else {
        parts.push(seg)
    }
}

/// A run of segments applied in order.
pub open spec fn walk(parts: Seq<Seq<char>>, segs: Seq<Seq<char>>) -> Seq<Seq<char>>
    decreases segs.len(),
{
    if segs.len() == 0 {
        parts
    } else {
        step_seg(walk(parts, segs.drop_last()), segs.last())
    }
}

/// Parts joined with `/`.
pub open spec fn join_slash(parts: Seq<Seq<char>>) -> Seq<char>
    decreases parts.len(),
{
    if parts.len() == 0 {
        Seq::empty()
    } else if parts.len() == 1 {
        parts[0]
    } else {
        join_slash(parts.drop_last()) + seq!['/'] + parts.last()
    }
}

/// The normalised path `relative` names from a file at `base`.
pub open spec fn normalized(base: Seq<char>, relative: Seq<char>) -> Seq<char> {
    let dir = walk(Seq::empty(), segments(base).drop_last());
    let parts = if starts_with_sep(relative) {
        walk(Seq::empty(), segments(relative))
    } else {
        walk(dir, segments(relative))
    };
    let joined = join_slash(parts);
    if starts_with_sep(base) || starts_with_sep(relative) {
        seq!['/'] + joined
    } else {
        joined
    }
}

/// The contents of a vector of character vectors.
pub open spec fn seg_views(v: Seq<Vec<char>>) -> Seq<Seq<char>> {
    v.map_values(|x: Vec<char>| x@)
}

/// Split a path into its segments.
fn split_segments(s: &str) -> (r: Vec<Vec<char>>)
    ensures
        seg_views(r@) == segments(s@),
{
    let cs = chars_of(s);
    let mut done: Vec<Vec<char>> = Vec::new();
    let mut cur: Vec<char> = Vec::new();
    let mut i: usize = 0;
    while i < cs.len()
        invariant
            cs@ == s@,
            i <= cs@.len(),
            (seg_views(done@), cur@) == split_state(cs@.subrange(0, i as int)),
        decreases cs@.len() - i,
    {
        let c = cs[i];
        proof {
            let t = cs@.subrange(0, i + 1);
            assert(t.drop_last() =~= cs@.subrange(0, i as int));
            assert(t.last() == c);
        }
        if c == '/' || c == '\\' {
            let seg = cur;
            cur = Vec::new();
            let ghost d0 = seg_views(done@);
            done.push(seg);
            proof {
                assert(seg_views(done@) =~= d0.push(seg@));
                assert(cur@ =~= Seq::<char>::empty());
            }
        } else {
            cur.push(c);
        }
        i = i + 1;
    }
    proof {
        assert(cs@.subrange(0, cs@.len() as int) =~= cs@);
    }
    let ghost d0 = seg_views(done@);
    let ghost c0 = cur@;
    done.push(cur);
    proof {
        assert(seg_views(done@) =~= d0.push(c0));
    }
    done
}

/// Apply one segment to the parts so far.
fn step(parts: &mut Vec<Vec<char>>, seg: &Vec<char>)
    ensures
        seg_views(final(parts)@) == step_seg(seg_views(old(parts)@), seg@),
{
    let ghost p0 = seg_views(parts@);
    if seg.len() == 0 || (seg.len() == 1 && seg[0] == '.') {
        proof {
            if seg@.len() == 1 {
                assert(seg@ =~= seq!['.']);
            }
        }
    } else if seg.len() == 2 && seg[0] == '.' && seg[1] == '.' {
        proof {
            assert(seg@ =~= seq!['.', '.']);
        }
        if parts.len() > 0 {
            parts.pop();
            proof {
                assert(seg_views(parts@) =~= p0.drop_last());
            }
        }
    } else {
        proof {
            assert(seg@ != seq!['.']);
            assert(seg@ != seq!['.', '.']);
        }
        parts.push(seg.clone());
        proof {
            assert(seg_views(parts@) =~= p0.push(seg@));
        }
    }
}

/// Apply the first `n` segments of `segs`.
fn walk_segments(parts: &mut Vec<Vec<char>>, segs: &Vec<Vec<char>>, n: usize)
    requires
        n <= segs@.len(),
    ensures
        seg_views(final(parts)@) == walk(seg_views(old(parts)@), seg_views(segs@).subrange(0, n as int)),
{
    let ghost p0 = seg_views(parts@);
    let mut i: usize = 0;
    while i < n
        invariant
            n <= segs@.len(),
            i <= n,
            seg_views(parts@) == walk(p0, seg_views(segs@).subrange(0, i as int)),
        decreases n - i,
    {
        proof {
            let t = seg_views(segs@).subrange(0, i + 1);
            assert(t.drop_last() =~= seg_views(segs@).subrange(0, i as int));
            assert(t.last() == segs@[i as int]@);
        }
        step(parts, &segs[i]);
        i = i + 1;
    }
}

/// Normalise an `IMPORT` path the same way on every platform: both `/` and
/// `\` separate segments, `relative` resolves against `base`'s directory (an
/// absolute `relative` replaces it), `.` and `..` collapse, and the parts are
/// re-joined with `/`, with a leading `/` when either path is absolute.
pub fn normalize_import_path(base: &str, relative: &str) -> (r: String)
    ensures
        r@ == normalized(base@, relative@),
{
    let bsegs = split_segments(base);
    let rsegs = split_segments(relative);
    let bc = chars_of(base);
    let babs = bc.len() > 0 && (bc[0] == '/' || bc[0] == '\\');
    let rc = chars_of(relative);
    let rabs = rc.len() > 0 && (rc[0] == '/' || rc[0] == '\\');
    let mut parts: Vec<Vec<char>> = Vec::new();
    proof {
        assert(seg_views(parts@) =~= Seq::<Seq<char>>::empty());
        assert(seg_views(bsegs@).len() >= 1);
        assert(seg_views(bsegs@).subrange(0, bsegs@.len() - 1) =~= segments(base@).drop_last());
        assert(seg_views(rsegs@).subrange(0, rsegs@.len() as int) =~= segments(relative@));
    }
    if !rabs {
        walk_segments(&mut parts, &bsegs, bsegs.len() - 1);
    }
    walk_segments(&mut parts, &rsegs, rsegs.len());
    let mut out = String::new();
    if babs || rabs {
        push_char(&mut out, '/');
    }
    let ghost prefix = out@;
    let mut i: usize = 0;
    while i < parts.len()
        invariant
            i <= parts@.len(),
            out@ == prefix + join_slash(seg_views(parts@).subrange(0, i as int)),
        decreases parts@.len() - i,
    {
        proof {
            let t = seg_views(parts@).subrange(0, i + 1);
            assert(t.drop_last() =~= seg_views(parts@).subrange(0, i as int));
            assert(t.last() == parts@[i as int]@);
            if i == 0 {
                assert(t =~= seq![parts@[0]@]);
            }
        }
        if i > 0 {
            push_char(&mut out, '/');
        }
        push_chars(&mut out, parts[i].as_slice());
        proof {
            let t = seg_views(parts@).subrange(0, i + 1);
            if i == 0 {
                assert(join_slash(t) == parts@[0]@);
            }
            assert(out@ =~= prefix + join_slash(t));
        }
        i = i + 1;
    }
    proof {
        assert(seg_views(parts@).subrange(0, parts@.len() as int) =~= seg_views(parts@));
        if babs || rabs {
            assert(prefix =~= seq!['/']);
        } else {
            assert(prefix =~= Seq::<char>::empty());
        }
    }
    out
}

} // verus!
