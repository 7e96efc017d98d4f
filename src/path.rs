use vstd::prelude::*;

use crate::text::{chars_of, push_char, push_chars};

verus! {

/// The pieces of `s` between `/` separators, empty pieces included
/// (`"a//b"` has the pieces `"a"`, `""`, `"b"`).
pub open spec fn segments(s: Seq<char>) -> Seq<Seq<char>>
    decreases s.len(),
{
    if s.len() == 0 {
        seq![Seq::empty()]
    } else {
        let init = segments(s.drop_last());
        if s.last() == '/' {
            init.push(Seq::empty())
        } else {
            init.update(init.len() - 1, init.last().push(s.last()))
        }
    }
}

pub open spec fn is_parent_segment(seg: Seq<char>) -> bool {
    seg =~= seq!['.', '.']
}

pub open spec fn is_skipped_segment(seg: Seq<char>) -> bool {
    seg.len() == 0 || seg =~= seq!['.']
}

/// One segment applied to the stack of kept segments: empty and `.` segments
/// are dropped; `..` removes the last kept segment unless there is none or it
/// is itself `..`, and is otherwise kept on a relative path and dropped on an
/// absolute one.
pub open spec fn apply_segment(stack: Seq<Seq<char>>, seg: Seq<char>, absolute: bool) -> Seq<
    Seq<char>,
> {
    if is_skipped_segment(seg) {
        stack
    } else if is_parent_segment(seg) {
        if stack.len() > 0 && !is_parent_segment(stack.last()) {
            stack.drop_last()
        } else if !absolute {
            stack.push(seg)
        } else {
            stack
        }
    } else {
        stack.push(seg)
    }
}

/// The stack after applying `segs` to `stack`, left to right.
pub open spec fn apply_segments(stack: Seq<Seq<char>>, segs: Seq<Seq<char>>, absolute: bool) -> Seq<
    Seq<char>,
>
    decreases segs.len(),
{
    if segs.len() == 0 {
        stack
    } else {
        apply_segment(apply_segments(stack, segs.drop_last(), absolute), segs.last(), absolute)
    }
}

/// `parts` joined with `/` between neighbours.
pub open spec fn join(parts: Seq<Seq<char>>) -> Seq<char>
    decreases parts.len(),
{
    if parts.len() == 0 {
        Seq::empty()
    } else if parts.len() == 1 {
        parts[0]
    } else {
        join(parts.drop_last()) + seq!['/'] + parts.last()
    }
}

pub open spec fn is_absolute(p: Seq<char>) -> bool {
    p.len() > 0 && p[0] == '/'
}

pub open spec fn is_dotted(p: Seq<char>) -> bool {
    p.len() >= 2 && p[0] == '.' && p[1] == '/'
}

/// The segments that survive normalization of `p`.
pub open spec fn kept_segments(p: Seq<char>) -> Seq<Seq<char>> {
    apply_segments(Seq::empty(), segments(p), is_absolute(p))
}

/// The kept segments written back as a path, with `/` in front of an absolute
/// path and `./` in front of a path that started with `./`.
pub open spec fn render(parts: Seq<Seq<char>>, absolute: bool, dotted: bool) -> Seq<char> {
    if absolute {
        seq!['/'] + join(parts)
    } else if dotted {
        if parts.len() == 0 {
            seq!['.']
        } else {
            seq!['.', '/'] + join(parts)
        }
    } else {
        join(parts)
    }
}

/// The lexical normalization of the path `p`.
pub open spec fn normalized(p: Seq<char>) -> Seq<char> {
    render(kept_segments(p), is_absolute(p), is_dotted(p))
}

fn is_parent_chars(seg: &Vec<char>) -> (r: bool)
    ensures
        r == is_parent_segment(seg@),
{
    seg.len() == 2 && seg[0] == '.' && seg[1] == '.'
}

fn apply_segment_exec(stack: &mut Vec<Vec<char>>, seg: Vec<char>, absolute: bool)
    ensures
        final(stack).deep_view() == apply_segment(old(stack).deep_view(), seg@, absolute),
{
    let ghost st = stack.deep_view();
    if seg.len() == 0 || (seg.len() == 1 && seg[0] == '.') {
        assert(is_skipped_segment(seg@));
    } else if is_parent_chars(&seg) {
        let n = stack.len();
        if n > 0 && !is_parent_chars(&stack[n - 1]) {
            stack.pop();
            assert(stack.deep_view() =~= st.drop_last());
        } else if !absolute {
            let ghost sv = seg@;
            stack.push(seg);
            assert(stack.deep_view()[st.len() as int] =~= sv);
            assert(stack.deep_view() =~= st.push(sv));
        }
    } else {
        assert(!is_skipped_segment(seg@)) by {
            if seg@ =~= seq!['.'] {
                assert(seg@.len() == 1 && seg@[0] == '.');
            }
        }
        let ghost sv = seg@;
        stack.push(seg);
        assert(stack.deep_view()[st.len() as int] =~= sv);
        assert(stack.deep_view() =~= st.push(sv));
    }
}

/// Lexically normalizes a `/`-separated path: empty and `.` segments go,
/// `..` climbs where it can, and the leading `/` or `./` of the input stays.
pub fn normalize_path(path: String) -> (r: String)
    ensures
        r@ == normalized(path@),
{
    let cs = chars_of(path.as_str());
    let n = cs.len();
    let absolute = n > 0 && cs[0] == '/';
    let dotted = n >= 2 && cs[0] == '.' && cs[1] == '/';
    let mut stack: Vec<Vec<char>> = Vec::new();
    let mut cur: Vec<char> = Vec::new();
    let mut i: usize = 0;
    assert(stack.deep_view() =~= Seq::<Seq<char>>::empty());
    while i < n
        invariant
            n == cs@.len(),
            cs@ == path@,
            i <= n,
            absolute == is_absolute(path@),
            stack.deep_view() == apply_segments(
                Seq::empty(),
                segments(cs@.take(i as int)).drop_last(),
                absolute,
            ),
            cur@ == segments(cs@.take(i as int)).last(),
        decreases n - i,
    {
        let c = cs[i];
        let ghost before = cs@.take(i as int);
        let ghost segs = segments(before);
        assert(cs@.take(i + 1).drop_last() =~= before);
        assert(segs.len() > 0) by {
            lemma_segments_nonempty(before);
        }
        if c == '/' {
            let seg = cur;
            cur = Vec::new();
            apply_segment_exec(&mut stack, seg, absolute);
            assert(segments(cs@.take(i + 1)).drop_last() =~= segs);
            assert(segs =~= segs.drop_last().push(segs.last()));
            assert(cur@ =~= segments(cs@.take(i + 1)).last());
        } else {
            cur.push(c);
            assert(segments(cs@.take(i + 1)).drop_last() =~= segs.drop_last());
        }
        i = i + 1;
    }
    let ghost segs = segments(path@);
    assert(cs@.take(n as int) =~= path@);
    assert(segs.len() > 0) by {
        lemma_segments_nonempty(path@);
    }
    apply_segment_exec(&mut stack, cur, absolute);
    let ghost parts = stack.deep_view();
    assert(parts == kept_segments(path@));
    let mut r = String::new();
    if absolute {
        push_char(&mut r, '/');
    } else if dotted {
        push_char(&mut r, '.');
        if stack.len() > 0 {
            push_char(&mut r, '/');
        }
    }
    let ghost prefix = r@;
    let mut k: usize = 0;
    while k < stack.len()
        invariant
            k <= stack@.len(),
            parts == stack.deep_view(),
            r@ == prefix + join(parts.take(k as int)),
        decreases stack@.len() - k,
    {
        if k > 0 {
            push_char(&mut r, '/');
        }
        push_chars(&mut r, &stack[k]);
        proof {
            let t = parts.take(k + 1);
            assert(t.drop_last() =~= parts.take(k as int));
            if k == 0 {
                assert(join(parts.take(0)) =~= Seq::<char>::empty());
            }
        }
        k = k + 1;
        assert(r@ =~= prefix + join(parts.take(k as int)));
    }
    assert(parts.take(parts.len() as int) =~= parts);
    assert(r@ =~= normalized(path@));
    r
}

pub proof fn lemma_segments_nonempty(s: Seq<char>)
    ensures
        segments(s).len() > 0,
    decreases s.len(),
{
    if s.len() > 0 {
        lemma_segments_nonempty(s.drop_last());
    }
}

pub open spec fn no_slash(s: Seq<char>) -> bool {
    forall|i: int| 0 <= i < s.len() ==> s[i] != '/'
}

/// A stack that normalization can leave behind: no empty, `.` or
/// `/`-holding segment, no `..` on an absolute path, and every `..` before
/// every other segment.
pub open spec fn settled(st: Seq<Seq<char>>, absolute: bool) -> bool {
    &&& forall|i: int|
        0 <= i < st.len() ==> !is_skipped_segment(#[trigger] st[i]) && no_slash(st[i]) && (
        absolute ==> !is_parent_segment(st[i]))
    &&& forall|i: int, j: int|
        0 <= i < j < st.len() && is_parent_segment(#[trigger] st[j]) ==> is_parent_segment(
            #[trigger] st[i],
        )
}

proof fn lemma_segments_each_no_slash(s: Seq<char>)
    ensures
        forall|i: int| 0 <= i < segments(s).len() ==> no_slash(#[trigger] segments(s)[i]),
    decreases s.len(),
{
    lemma_segments_nonempty(s);
    if s.len() > 0 {
        lemma_segments_each_no_slash(s.drop_last());
        lemma_segments_nonempty(s.drop_last());
        let init = segments(s.drop_last());
        if s.last() != '/' {
            let l = init.last().push(s.last());
            assert(no_slash(init[init.len() - 1]));
            assert(no_slash(l));
        }
    }
}

proof fn lemma_segments_single(a: Seq<char>)
    requires
        no_slash(a),
    ensures
        segments(a) == seq![a],
    decreases a.len(),
{
    if a.len() > 0 {
        lemma_segments_single(a.drop_last());
        assert(a.drop_last().push(a.last()) =~= a);
        assert(segments(a) =~= seq![a]);
    } else {
        assert(a =~= Seq::<char>::empty());
    }
}

proof fn lemma_segments_split(a: Seq<char>, b: Seq<char>)
    ensures
        segments(a + seq!['/'] + b) == segments(a) + segments(b),
    decreases b.len(),
{
    let s = a + seq!['/'] + b;
    if b.len() == 0 {
        assert(s.drop_last() =~= a);
        assert(segments(s) =~= segments(a) + segments(b));
    } else {
        lemma_segments_split(a, b.drop_last());
        lemma_segments_nonempty(b.drop_last());
        lemma_segments_nonempty(a);
        assert(s.drop_last() =~= a + seq!['/'] + b.drop_last());
        assert(segments(s) =~= segments(a) + segments(b));
    }
}

proof fn lemma_join_starts_with_first(parts: Seq<Seq<char>>)
    requires
        parts.len() > 0,
    ensures
        parts[0].len() <= join(parts).len(),
        forall|i: int| 0 <= i < parts[0].len() ==> join(parts)[i] == parts[0][i],
    decreases parts.len(),
{
    if parts.len() > 1 {
        lemma_join_starts_with_first(parts.drop_last());
    }
}

proof fn lemma_segments_join(parts: Seq<Seq<char>>)
    requires
        parts.len() > 0,
        forall|i: int| 0 <= i < parts.len() ==> no_slash(#[trigger] parts[i]),
    ensures
        segments(join(parts)) == parts,
    decreases parts.len(),
{
    if parts.len() == 1 {
        lemma_segments_single(parts[0]);
        assert(seq![parts[0]] =~= parts);
    } else {
        lemma_segments_join(parts.drop_last());
        lemma_segments_split(join(parts.drop_last()), parts.last());
        lemma_segments_single(parts.last());
        assert(parts.drop_last() + seq![parts.last()] =~= parts);
    }
}

proof fn lemma_apply_split(st: Seq<Seq<char>>, xs: Seq<Seq<char>>, ys: Seq<Seq<char>>, absolute: bool)
    ensures
        apply_segments(st, xs + ys, absolute) == apply_segments(
            apply_segments(st, xs, absolute),
            ys,
            absolute,
        ),
    decreases ys.len(),
{
    if ys.len() == 0 {
        assert(xs + ys =~= xs);
    } else {
        lemma_apply_split(st, xs, ys.drop_last(), absolute);
        assert((xs + ys).drop_last() =~= xs + ys.drop_last());
    }
}

proof fn lemma_apply_settled(st: Seq<Seq<char>>, segs: Seq<Seq<char>>, absolute: bool)
    requires
        settled(st, absolute),
        forall|i: int| 0 <= i < segs.len() ==> no_slash(#[trigger] segs[i]),
    ensures
        settled(apply_segments(st, segs, absolute), absolute),
    decreases segs.len(),
{
    if segs.len() > 0 {
        lemma_apply_settled(st, segs.drop_last(), absolute);
        let before = apply_segments(st, segs.drop_last(), absolute);
        let seg = segs.last();
        assert(no_slash(seg));
        let after = apply_segment(before, seg, absolute);
        if !is_skipped_segment(seg) && is_parent_segment(seg) && before.len() > 0
            && !is_parent_segment(before.last()) {
            assert forall|i: int, j: int|
                0 <= i < j < after.len() && is_parent_segment(#[trigger] after[j]) implies is_parent_segment(
                #[trigger] after[i],
            ) by {
                assert(after[j] == before[j] && after[i] == before[i]);
            }
        } else if !is_skipped_segment(seg) && is_parent_segment(seg) && !absolute {
            assert forall|i: int, j: int|
                0 <= i < j < after.len() && is_parent_segment(#[trigger] after[j]) implies is_parent_segment(
                #[trigger] after[i],
            ) by {
                if j == before.len() {
                    if before.len() > 0 {
                        assert(is_parent_segment(before[before.len() - 1]));
                    }
                }
            }
        } else if !is_skipped_segment(seg) && !is_parent_segment(seg) {
            assert forall|i: int, j: int|
                0 <= i < j < after.len() && is_parent_segment(#[trigger] after[j]) implies is_parent_segment(
                #[trigger] after[i],
            ) by {
                assert(j < before.len());
            }
        }
    }
}

proof fn lemma_apply_settled_identity(parts: Seq<Seq<char>>, absolute: bool)
    requires
        settled(parts, absolute),
    ensures
        apply_segments(Seq::empty(), parts, absolute) == parts,
    decreases parts.len(),
{
    if parts.len() > 0 {
        let init = parts.drop_last();
        assert(settled(init, absolute)) by {
            assert forall|i: int, j: int|
                0 <= i < j < init.len() && is_parent_segment(#[trigger] init[j]) implies is_parent_segment(
                #[trigger] init[i],
            ) by {
                assert(init[j] == parts[j] && init[i] == parts[i]);
            }
        }
        lemma_apply_settled_identity(init, absolute);
        let last = parts.last();
        assert(!is_skipped_segment(parts[parts.len() - 1]));
        if is_parent_segment(last) && init.len() > 0 {
            assert(is_parent_segment(parts[init.len() - 1]));
        }
        assert(init.push(last) =~= parts);
    }
}

proof fn lemma_apply_one(st: Seq<Seq<char>>, seg: Seq<char>, absolute: bool)
    ensures
        apply_segments(st, seq![seg], absolute) == apply_segment(st, seg, absolute),
{
    let e = seq![seg].drop_last();
    assert(e.len() == 0);
    assert(apply_segments(st, e, absolute) == st);
    assert(seq![seg].last() == seg);
}

proof fn lemma_kept_settled(p: Seq<char>)
    ensures
        settled(kept_segments(p), is_absolute(p)),
{
    lemma_segments_each_no_slash(p);
    lemma_apply_settled(Seq::empty(), segments(p), is_absolute(p));
}

/// Normalizing twice gives what normalizing once gave, on every path except
/// those whose normalization is `.`: `.` itself normalizes to the empty path.
pub proof fn law_normalize_idempotent(p: Seq<char>)
    requires
        normalized(p) != seq!['.'],
    ensures
        normalized(normalized(p)) == normalized(p),
{
    let parts = kept_segments(p);
    let absolute = is_absolute(p);
    let q = normalized(p);
    lemma_kept_settled(p);
    let empty = Seq::<char>::empty();
    let dot = seq!['.'];
    assert(forall|i: int| 0 <= i < parts.len() ==> no_slash(#[trigger] parts[i]));
    lemma_apply_settled_identity(parts, absolute);
    if absolute {
        assert(is_absolute(q));
        lemma_segments_single(empty);
        if parts.len() == 0 {
            assert(q =~= empty + seq!['/'] + empty);
            lemma_segments_split(empty, empty);
            assert(segments(q) =~= seq![empty, empty]);
            assert(seq![empty, empty].drop_last() =~= seq![empty]);
            assert(seq![empty].drop_last() =~= Seq::<Seq<char>>::empty());
            assert(is_skipped_segment(empty));
            assert(apply_segments(Seq::empty(), seq![empty], true) =~= Seq::<Seq<char>>::empty());
            assert(apply_segments(Seq::empty(), seq![empty, empty], true) =~= Seq::<
                Seq<char>,
            >::empty());
            assert(kept_segments(q) =~= parts);
        } else {
            assert(q =~= empty + seq!['/'] + join(parts));
            lemma_segments_split(empty, join(parts));
            lemma_segments_join(parts);
            lemma_apply_split(Seq::empty(), seq![empty], parts, true);
            assert(seq![empty].drop_last() =~= Seq::<Seq<char>>::empty());
            assert(is_skipped_segment(empty));
            lemma_apply_one(Seq::empty(), empty, true);
            assert(segments(q) == seq![empty] + parts);
            assert(kept_segments(q) == parts);
        }
    } else if is_dotted(p) {
        assert(parts.len() > 0);
        assert(q =~= dot + seq!['/'] + join(parts));
        lemma_segments_single(dot);
        lemma_segments_split(dot, join(parts));
        lemma_segments_join(parts);
        assert(!is_absolute(q) && is_dotted(q));
        lemma_apply_split(Seq::empty(), seq![dot], parts, false);
        assert(seq![dot].drop_last() =~= Seq::<Seq<char>>::empty());
        assert(is_skipped_segment(dot));
        lemma_apply_one(Seq::empty(), dot, false);
        assert(segments(q) == seq![dot] + parts);
        assert(kept_segments(q) == parts);
    } else if parts.len() == 0 {
        assert(q =~= empty);
        assert(!is_absolute(q) && !is_dotted(q));
        assert(seq![empty].drop_last() =~= Seq::<Seq<char>>::empty());
        assert(kept_segments(q) =~= parts);
    } else {
        lemma_join_starts_with_first(parts);
        lemma_segments_join(parts);
        let first = parts[0];
        assert(!is_skipped_segment(first));
        assert(first[0] != '/');
        assert(!is_absolute(q));
        if first.len() == 1 {
            if first[0] == '.' {
                assert(first =~= seq!['.']);
            }
        } else {
            assert(first[1] != '/');
        }
        assert(!is_dotted(q));
    }
}

/// An absolute path stays absolute.
pub proof fn law_absolute_kept(p: Seq<char>)
    requires
        is_absolute(p),
    ensures
        is_absolute(normalized(p)),
{
}

/// A path that starts with `./` and keeps at least one segment still starts
/// with `./` after normalization.
pub proof fn law_dotted_kept(p: Seq<char>)
    requires
        is_dotted(p),
        kept_segments(p).len() > 0,
    ensures
        is_dotted(normalized(p)),
{
}

} // verus!
