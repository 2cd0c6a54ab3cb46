//! Lexical path normalization for associating sessions with workspaces.

use vstd::prelude::*;

use crate::text::{chars_of, join, push_char, string_from_chars};

verus! {

/// The nonempty `/`-separated components of `p`, in order.
pub open spec fn segments(p: Seq<char>) -> Seq<Seq<char>>
    decreases p.len(),
{
    if p.len() == 0 {
        Seq::empty()
    } else {
        let s = segments(p.drop_last());
        let c = p.last();
        if c == '/' {
            s
        } else if p.len() >= 2 && p[p.len() - 2] != '/' {
            s.update(s.len() - 1, s.last().push(c))
        } else {
            s.push(seq![c])
        }
    }
}

/// One component applied to a stack of resolved components: `.` stays,
/// `..` removes the last one (if any), anything else is appended.
pub open spec fn resolve_step(stack: Seq<Seq<char>>, seg: Seq<char>) -> Seq<Seq<char>> {
    if seg == seq!['.'] {
        stack
    } else if seg == seq!['.', '.'] {
        if stack.len() > 0 {
            stack.drop_last()
        } else {
            stack
        }
    } else {
        stack.push(seg)
    }
}

/// Components with `.` and `..` resolved from left to right.
pub open spec fn resolved(segs: Seq<Seq<char>>) -> Seq<Seq<char>>
    decreases segs.len(),
{
    if segs.len() == 0 {
        Seq::empty()
    } else {
        resolve_step(resolved(segs.drop_last()), segs.last())
    }
}

/// Whether `p` starts at the root.
pub open spec fn is_absolute_path(p: Seq<char>) -> bool {
    p.len() > 0 && p[0] == '/'
}

/// `path` made absolute against `cwd` and normalized lexically: `.` and
/// `..` resolved, repeated and trailing separators dropped, nothing looked
/// up on disk.
pub open spec fn spec_lexical_absolute(cwd: Seq<char>, path: Seq<char>) -> Seq<char> {
    let segs = if is_absolute_path(path) {
        segments(path)
    } else {
        segments(cwd) + segments(path)
    };
    let body = join(resolved(segs), seq!['/']);
    if is_absolute_path(path) || is_absolute_path(cwd) {
        seq!['/'] + body
    } else {
        body
    }
}

proof fn lemma_segments_nonempty(p: Seq<char>)
    requires
        p.len() > 0,
        p.last() != '/',
    ensures
        segments(p).len() > 0,
    decreases p.len(),
{
    if p.len() >= 2 && p[p.len() - 2] != '/' {
        assert(p.drop_last().last() == p[p.len() - 2]);
        lemma_segments_nonempty(p.drop_last());
    }
}

/// A path component: nonempty and free of separators.
pub open spec fn is_component(s: Seq<char>) -> bool {
    s.len() > 0 && forall|i: int| 0 <= i < s.len() ==> s[i] != '/'
}

proof fn lemma_segments_are_components(p: Seq<char>)
    ensures
        forall|i: int| 0 <= i < segments(p).len() ==> is_component(#[trigger] segments(p)[i]),
    decreases p.len(),
{
    if p.len() > 0 {
        let s = segments(p.drop_last());
        lemma_segments_are_components(p.drop_last());
        let c = p.last();
        if c != '/' && p.len() >= 2 && p[p.len() - 2] != '/' {
            assert(p.drop_last().last() == p[p.len() - 2]);
            lemma_segments_nonempty(p.drop_last());
            let t = s.update(s.len() - 1, s.last().push(c));
            assert forall|i: int| 0 <= i < t.len() implies is_component(#[trigger] t[i]) by {
                if i == s.len() - 1 {
                    assert(is_component(s[i]));
                    assert forall|j: int| 0 <= j < t[i].len() implies t[i][j] != '/' by {
                        if j < s[i].len() {
                            assert(t[i][j] == s[i][j]);
                        }
                    }
                }
            }
        }
    }
}

proof fn lemma_segments_append(q: Seq<char>, w: Seq<char>)
    requires
        q.len() == 0 || q.last() == '/',
        is_component(w),
    ensures
        segments(q + w) == segments(q).push(w),
    decreases w.len(),
{
    let p = q + w;
    assert(p.drop_last() =~= q + w.drop_last());
    if w.len() == 1 {
        assert(w.drop_last() =~= Seq::<char>::empty());
        assert(q + w.drop_last() =~= q);
        assert(seq![w.last()] =~= w);
        if q.len() > 0 {
            assert(p[p.len() - 2] == q.last());
        }
    } else {
        let v = w.drop_last();
        assert forall|i: int| 0 <= i < v.len() implies v[i] != '/' by {
            assert(v[i] == w[i]);
        }
        lemma_segments_append(q, v);
        assert(p[p.len() - 2] == w[w.len() - 2]);
        assert(v.push(w.last()) =~= w);
    }
}

proof fn lemma_segments_of_joined(parts: Seq<Seq<char>>)
    requires
        forall|i: int| 0 <= i < parts.len() ==> is_component(#[trigger] parts[i]),
    ensures
        segments(seq!['/'] + join(parts, seq!['/'])) == parts,
    decreases parts.len(),
{
    let slash = seq!['/'];
    assert(slash.len() == 1 && slash.last() == '/');
    assert(slash.drop_last() =~= Seq::<char>::empty());
    assert(segments(Seq::<char>::empty()) =~= Seq::<Seq<char>>::empty());
    assert(segments(slash) == segments(slash.drop_last()));
    assert(segments(slash) =~= Seq::<Seq<char>>::empty());
    if parts.len() == 0 {
        assert(slash + join(parts, slash) =~= slash);
        assert(parts =~= Seq::<Seq<char>>::empty());
    } else if parts.len() == 1 {
        lemma_segments_append(slash, parts[0]);
        assert(slash + join(parts, slash) =~= slash + parts[0]);
        assert(Seq::<Seq<char>>::empty().push(parts[0]) =~= parts);
    } else {
        let init = parts.drop_last();
        assert forall|i: int| 0 <= i < init.len() implies is_component(#[trigger] init[i]) by {
            assert(init[i] == parts[i]);
        }
        lemma_segments_of_joined(init);
        let head = slash + join(init, slash);
        let q = head + slash;
        assert(q.drop_last() =~= head);
        assert(q.last() == '/');
        assert(segments(q) == segments(head));
        lemma_segments_append(q, parts.last());
        assert(slash + join(parts, slash) =~= q + parts.last());
        assert(init.push(parts.last()) =~= parts);
    }
}

proof fn lemma_resolved_plain(segs: Seq<Seq<char>>)
    requires
        forall|i: int| 0 <= i < segs.len() ==> is_component(#[trigger] segs[i]),
    ensures
        forall|i: int| 0 <= i < resolved(segs).len() ==> {
            &&& is_component(#[trigger] resolved(segs)[i])
            &&& resolved(segs)[i] != seq!['.']
            &&& resolved(segs)[i] != seq!['.', '.']
        },
    decreases segs.len(),
{
    if segs.len() > 0 {
        let init = segs.drop_last();
        assert forall|i: int| 0 <= i < init.len() implies is_component(#[trigger] init[i]) by {
            assert(init[i] == segs[i]);
        }
        lemma_resolved_plain(init);
        let t = resolved(init);
        let w = segs.last();
        assert(is_component(segs[segs.len() - 1]));
        if w == seq!['.'] {
            assert(resolved(segs) == t);
        } else if w == seq!['.', '.'] {
            if t.len() > 0 {
                assert forall|i: int| 0 <= i < t.drop_last().len() implies t.drop_last()[i] == t[i] by {}
            }
        } else {
            assert(resolved(segs) == t.push(w));
            assert forall|i: int| 0 <= i < t.push(w).len() implies {
                &&& is_component(#[trigger] t.push(w)[i])
                &&& t.push(w)[i] != seq!['.']
                &&& t.push(w)[i] != seq!['.', '.']
            } by {
                if i < t.len() {
                    assert(t.push(w)[i] == t[i]);
                }
            }
        }
    }
}

proof fn lemma_resolved_fixed(segs: Seq<Seq<char>>)
    requires
        forall|i: int| 0 <= i < segs.len() ==> #[trigger] segs[i] != seq!['.'] && segs[i] != seq!['.', '.'],
    ensures
        resolved(segs) == segs,
    decreases segs.len(),
{
    if segs.len() > 0 {
        let init = segs.drop_last();
        assert forall|i: int| 0 <= i < init.len() implies #[trigger] init[i] != seq!['.'] && init[i] != seq!['.', '.'] by {
            assert(init[i] == segs[i]);
        }
        lemma_resolved_fixed(init);
        assert(segs[segs.len() - 1] != seq!['.'] && segs[segs.len() - 1] != seq!['.', '.']);
        assert(init.push(segs.last()) =~= segs);
    }
}

/// Normalizing an absolute normalized path again changes nothing, whatever
/// the working directory.
pub proof fn lemma_lexical_absolute_idempotent(cwd: Seq<char>, path: Seq<char>, cwd2: Seq<char>)
    requires
        is_absolute_path(cwd) || is_absolute_path(path),
    ensures
        spec_lexical_absolute(cwd2, spec_lexical_absolute(cwd, path)) == spec_lexical_absolute(
            cwd,
            path,
        ),
{
    let segs = if is_absolute_path(path) {
        segments(path)
    } else {
        segments(cwd) + segments(path)
    };
    lemma_segments_are_components(path);
    lemma_segments_are_components(cwd);
    assert forall|i: int| 0 <= i < segs.len() implies is_component(#[trigger] segs[i]) by {
        if !is_absolute_path(path) && i >= segments(cwd).len() {
            assert(segs[i] == segments(path)[i - segments(cwd).len()]);
        }
    }
    let parts = resolved(segs);
    lemma_resolved_plain(segs);
    let r = seq!['/'] + join(parts, seq!['/']);
    assert(spec_lexical_absolute(cwd, path) == r);
    assert(r[0] == '/');
    lemma_segments_of_joined(parts);
    lemma_resolved_fixed(parts);
}

/// Appends the components of `p` to `out`.
fn push_segments(p: &[char], out: &mut Vec<Vec<char>>)
    ensures
        final(out)@.map_values(|v: Vec<char>| v@) == old(out)@.map_values(|v: Vec<char>| v@)
            + segments(p@),
{
    let ghost start = out@.map_values(|v: Vec<char>| v@);
    let mut current: Vec<char> = Vec::new();
    let mut in_seg = false;
    let mut i: usize = 0;
    while i < p.len()
        invariant
            i <= p@.len(),
            start == old(out)@.map_values(|v: Vec<char>| v@),
            in_seg == (i > 0 && p@[i - 1] != '/'),
            in_seg ==> segments(p@.take(i as int)).len() > 0 && current@ == segments(
                p@.take(i as int),
            ).last(),
            out@.map_values(|v: Vec<char>| v@) == start + (if in_seg {
                segments(p@.take(i as int)).drop_last()
            } else {
                segments(p@.take(i as int))
            }),
        decreases p.len() - i,
    {
        let c = p[i];
        let ghost prev = p@.take(i as int);
        let ghost next = p@.take(i + 1);
        assert(next.drop_last() =~= prev);
        if c == '/' {
            if in_seg {
                let ghost before = out@.map_values(|v: Vec<char>| v@);
                out.push(current);
                current = Vec::new();
                proof {
                    assert(out@.map_values(|v: Vec<char>| v@) =~= before.push(segments(prev).last()));
                    assert(segments(next) == segments(prev));
                    assert(segments(prev).drop_last().push(segments(prev).last()) =~= segments(prev));
                }
            }
            in_seg = false;
        } else {
            if in_seg {
                proof {
                    lemma_segments_nonempty(prev);
                    assert(segments(next).drop_last() =~= segments(prev).drop_last());
                }
                current.push(c);
            } else {
                current = Vec::new();
                current.push(c);
                proof {
                    assert(segments(next) == segments(prev).push(seq![c]));
                    assert(segments(next).drop_last() =~= segments(prev));
                    assert(current@ =~= seq![c]);
                }
            }
            in_seg = true;
        }
        i = i + 1;
    }
    if in_seg {
        let ghost before = out@.map_values(|v: Vec<char>| v@);
        out.push(current);
        proof {
            assert(out@.map_values(|v: Vec<char>| v@) =~= before.push(segments(p@.take(i as int)).last()));
            assert(segments(p@.take(i as int)).drop_last().push(segments(p@.take(i as int)).last()) =~= segments(p@.take(i as int)));
        }
    }
    assert(p@.take(p@.len() as int) =~= p@);
}

/// Normalize `path` lexically against the working directory `cwd`: make it
/// absolute and resolve `.`/`..` without touching the filesystem or
/// following symlinks (`..` at the root stays at the root).
pub fn lexical_absolute_in(cwd: &str, path: &str) -> (r: String)
    ensures
        r@ == spec_lexical_absolute(cwd@, path@),
{
    let p = chars_of(path);
    let c = chars_of(cwd);
    let path_abs = p.len() > 0 && p[0] == '/';
    let cwd_abs = c.len() > 0 && c[0] == '/';
    let mut segs: Vec<Vec<char>> = Vec::new();
    if !path_abs {
        push_segments(c.as_slice(), &mut segs);
    }
    push_segments(p.as_slice(), &mut segs);
    let ghost all = segs@.map_values(|v: Vec<char>| v@);
    assert(all =~= if path_abs { segments(path@) } else { segments(cwd@) + segments(path@) });
    let mut stack: Vec<Vec<char>> = Vec::new();
    let mut i: usize = 0;
    while i < segs.len()
        invariant
            i <= segs@.len(),
            all == segs@.map_values(|v: Vec<char>| v@),
            stack@.map_values(|v: Vec<char>| v@) == resolved(all.take(i as int)),
        decreases segs.len() - i,
    {
        let seg = &segs[i];
        let ghost before = stack@.map_values(|v: Vec<char>| v@);
        assert(all.take(i + 1).drop_last() =~= all.take(i as int));
        assert(all.take(i + 1).last() == seg@);
        if seg.len() == 1 && seg[0] == '.' {
            assert(seg@ =~= seq!['.']);
        } else if seg.len() == 2 && seg[0] == '.' && seg[1] == '.' {
            assert(seg@ =~= seq!['.', '.']);
            if stack.len() > 0 {
                stack.pop();
                assert(stack@.map_values(|v: Vec<char>| v@) =~= before.drop_last());
            }
        } else {
            assert(seg@ != seq!['.'] && seg@ != seq!['.', '.']);
            stack.push(seg.clone());
            assert(stack@.map_values(|v: Vec<char>| v@) =~= before.push(seg@));
        }
        i = i + 1;
    }
    assert(all.take(all.len() as int) =~= all);
    let ghost parts = stack@.map_values(|v: Vec<char>| v@);
    let mut out = String::new();
    if path_abs || cwd_abs {
        push_char(&mut out, '/');
    }
    let ghost start = out@;
    let mut k: usize = 0;
    while k < stack.len()
        invariant
            k <= stack@.len(),
            parts == stack@.map_values(|v: Vec<char>| v@),
            out@ == start + join(parts.take(k as int), seq!['/']),
        decreases stack.len() - k,
    {
        proof {
            crate::text::lemma_join_push(parts.take(k as int), seq!['/'], parts[k as int]);
            assert(parts.take(k + 1) =~= parts.take(k as int).push(parts[k as int]));
        }
        if k > 0 {
            push_char(&mut out, '/');
        }
        let piece = string_from_chars(stack[k].as_slice());
        crate::text::push_str(&mut out, piece.as_str());
        k = k + 1;
        proof {
            assert(out@ =~= start + join(parts.take(k as int), seq!['/']));
        }
    }
    assert(parts.take(parts.len() as int) =~= parts);
    out
}

} // verus!
