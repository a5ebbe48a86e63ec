//! Paths under the XDG document portal: `$XDG_RUNTIME_DIR/doc/<id>/<tail>`.
//! A path is read the way `std::path::Path` reads it on Unix: as its
//! components, with repeated separators and interior `.` ignored.

use vstd::prelude::*;
use crate::chars::{chars_of, string_from_chars};

verus! {

/// The pieces of `s` between its `/` separators (empty pieces included).
pub open spec fn split_slash(s: Seq<char>) -> Seq<Seq<char>>
    decreases s.len(),
{
    if s.len() == 0 {
        seq![seq![]]
    } else {
        let t = split_slash(s.drop_last());
        if s.last() == '/' {
            t.push(seq![])
        } else {
            t.update(t.len() - 1, t.last().push(s.last()))
        }
    }
}

pub proof fn lemma_split_nonempty(s: Seq<char>)
    ensures
        split_slash(s).len() >= 1,
    decreases s.len(),
{
    if s.len() > 0 {
        lemma_split_nonempty(s.drop_last());
    }
}

/// The named pieces: empty ones and `.` are not components.
pub open spec fn named(segs: Seq<Seq<char>>) -> Seq<Seq<char>>
    decreases segs.len(),
{
    if segs.len() == 0 {
        seq![]
    } else {
        let t = named(segs.drop_last());
        if segs.last().len() == 0 || segs.last() == seq!['.'] {
            t
        } else {
            t.push(segs.last())
        }
    }
}

/// The components of a path: a root `/` when it is absolute, a leading `.`
/// when a relative path starts with one, then its named pieces.
pub open spec fn components(s: Seq<char>) -> Seq<Seq<char>> {
    let segs = split_slash(s);
    let root = s.len() > 0 && s[0] == '/';
    let cur = !root && segs[0] == seq!['.'];
    (if root {
        seq![seq!['/']]
    } else {
        Seq::<Seq<char>>::empty()
    }) + (if cur {
        seq![seq!['.']]
    } else {
        Seq::<Seq<char>>::empty()
    }) + named(segs)
}

/// `parts` joined with `/`, as a `PathBuf` collected from normal components.
pub open spec fn join_slash(parts: Seq<Seq<char>>) -> Seq<char>
    decreases parts.len(),
{
    if parts.len() == 0 {
        seq![]
    } else if parts.len() == 1 {
        parts[0]
    } else {
        join_slash(parts.drop_last()) + seq!['/'] + parts.last()
    }
}

/// The document id and the path below it, when `path` lies under
/// `runtime_dir/doc` and names something below it.
pub open spec fn portal_parts_spec(path: Seq<char>, runtime_dir: Seq<char>) -> Option<
    (Seq<char>, Seq<char>),
> {
    let base = components(runtime_dir).push(seq!['d', 'o', 'c']);
    let comps = components(path);
    if base.len() <= comps.len() && comps.take(base.len() as int) == base && comps.len()
        > base.len() {
        Some((comps[base.len() as int], join_slash(comps.skip(base.len() as int + 1))))
    } else {
        None
    }
}

fn split_exec(v: &Vec<char>) -> (r: Vec<Vec<char>>)
    ensures
        r@.len() == split_slash(v@).len(),
        forall|i: int| 0 <= i < r@.len() ==> #[trigger] r@[i]@ == split_slash(v@)[i],
{
    let mut r: Vec<Vec<char>> = Vec::new();
    let mut cur: Vec<char> = Vec::new();
    let mut i: usize = 0;
    assert(v@.take(0) =~= Seq::<char>::empty());
    while i < v.len()
        invariant
            i <= v@.len(),
            split_slash(v@.take(i as int)).len() == r@.len() + 1,
            forall|j: int| 0 <= j < r@.len() ==> #[trigger] r@[j]@ == split_slash(v@.take(i as int))[j],
            cur@ == split_slash(v@.take(i as int)).last(),
        decreases v@.len() - i,
    {
        let c = v[i];
        proof {
            assert(v@.take(i + 1).drop_last() =~= v@.take(i as int));
            assert(v@.take(i + 1).last() == c);
        }
        if c == '/' {
            let mut fresh: Vec<char> = Vec::new();
            std::mem::swap(&mut fresh, &mut cur);
            r.push(fresh);
        } else {
            cur.push(c);
        }
        i += 1;
    }
    r.push(cur);
    assert(v@.take(v@.len() as int) =~= v@);
    r
}

fn named_exec(segs: &Vec<Vec<char>>) -> (r: Vec<Vec<char>>)
    ensures
        r@.len() == named(segs@.map_values(|x: Vec<char>| x@)).len(),
        forall|i: int|
            0 <= i < r@.len() ==> #[trigger] r@[i]@ == named(segs@.map_values(|x: Vec<char>| x@))[i],
{
    let ghost m = segs@.map_values(|x: Vec<char>| x@);
    let mut r: Vec<Vec<char>> = Vec::new();
    let mut i: usize = 0;
    assert(m.take(0) =~= Seq::<Seq<char>>::empty());
    while i < segs.len()
        invariant
            m == segs@.map_values(|x: Vec<char>| x@),
            i <= segs@.len(),
            r@.len() == named(m.take(i as int)).len(),
            forall|j: int| 0 <= j < r@.len() ==> #[trigger] r@[j]@ == named(m.take(i as int))[j],
        decreases segs@.len() - i,
    {
        proof {
            assert(m.take(i + 1).drop_last() =~= m.take(i as int));
            assert(m.take(i + 1).last() == segs@[i as int]@);
        }
        let s = &segs[i];
        let dot = s.len() == 1 && s[0] == '.';
        proof {
            assert(dot <==> s@ =~= seq!['.']);
        }
        if s.len() != 0 && !dot {
            let mut copy: Vec<char> = Vec::new();
            let mut k: usize = 0;
            while k < s.len()
                invariant
                    k <= s@.len(),
                    copy@ == s@.take(k as int),
                decreases s@.len() - k,
            {
                copy.push(s[k]);
                k += 1;
                assert(copy@ =~= s@.take(k as int));
            }
            assert(s@.take(s@.len() as int) =~= s@);
            r.push(copy);
        }
        i += 1;
    }
    assert(m.take(segs@.len() as int) =~= m);
    r
}

/// The components of `v` (see `components`).
fn components_exec(v: &Vec<char>) -> (r: Vec<Vec<char>>)
    ensures
        r@.len() == components(v@).len(),
        forall|i: int| 0 <= i < r@.len() ==> #[trigger] r@[i]@ == components(v@)[i],
{
    let segs = split_exec(v);
    proof {
        lemma_split_nonempty(v@);
        assert(segs@.map_values(|x: Vec<char>| x@) =~= split_slash(v@));
    }
    let named_v = named_exec(&segs);
    let root = v.len() > 0 && v[0] == '/';
    let cur = !root && segs[0].len() == 1 && segs[0][0] == '.';
    proof {
        assert(cur <==> (!root && split_slash(v@)[0] =~= seq!['.']));
    }
    let mut r: Vec<Vec<char>> = Vec::new();
    if root {
        let mut slash: Vec<char> = Vec::new();
        slash.push('/');
        assert(slash@ =~= seq!['/']);
        r.push(slash);
    }
    if cur {
        let mut dot: Vec<char> = Vec::new();
        dot.push('.');
        assert(dot@ =~= seq!['.']);
        r.push(dot);
    }
    let ghost pre = r@.map_values(|x: Vec<char>| x@);
    proof {
        assert(pre =~= (if root {
            seq![seq!['/']]
        } else {
            Seq::<Seq<char>>::empty()
        }) + (if cur {
            seq![seq!['.']]
        } else {
            Seq::<Seq<char>>::empty()
        }));
    }
    let base = r.len();
    let mut i: usize = 0;
    while i < named_v.len()
        invariant
            i <= named_v@.len(),
            base == pre.len(),
            r@.len() == base + i,
            forall|j: int| 0 <= j < base ==> #[trigger] r@[j]@ == pre[j],
            forall|j: int| base <= j < base + i ==> #[trigger] r@[j]@ == named_v@[j - base]@,
        decreases named_v@.len() - i,
    {
        let mut copy: Vec<char> = Vec::new();
        let s = &named_v[i];
        let mut k: usize = 0;
        while k < s.len()
            invariant
                k <= s@.len(),
                copy@ == s@.take(k as int),
            decreases s@.len() - k,
        {
            copy.push(s[k]);
            k += 1;
            assert(copy@ =~= s@.take(k as int));
        }
        assert(s@.take(s@.len() as int) =~= s@);
        r.push(copy);
        i += 1;
    }
    r
}

fn copy_chars(s: &Vec<char>) -> (r: Vec<char>)
    ensures
        r@ == s@,
{
    let mut copy: Vec<char> = Vec::new();
    let mut k: usize = 0;
    while k < s.len()
        invariant
            k <= s@.len(),
            copy@ == s@.take(k as int),
        decreases s@.len() - k,
    {
        copy.push(s[k]);
        k += 1;
        assert(copy@ =~= s@.take(k as int));
    }
    assert(s@.take(s@.len() as int) =~= s@);
    copy
}

fn vec_chars_eq(a: &Vec<char>, b: &Vec<char>) -> (r: bool)
    ensures
        r == (a@ == b@),
{
    if a.len() != b.len() {
        return false;
    }
    let mut k: usize = 0;
    while k < a.len()
        invariant
            a@.len() == b@.len(),
            k <= a@.len(),
            forall|j: int| 0 <= j < k ==> a@[j] == b@[j],
        decreases a@.len() - k,
    {
        if a[k] != b[k] {
            return false;
        }
        k += 1;
    }
    assert(a@ =~= b@);
    true
}

/// The document id and the path below it for a document-portal path: `path`
/// with the components of `runtime_dir/doc` stripped from its front, split
/// into its first remaining component and the rest. `None` when `path` is
/// not under that directory or names nothing below it.
pub fn portal_path_parts(path: &str, runtime_dir: &str) -> (r: Option<(String, String)>)
    ensures
        r is Some <==> portal_parts_spec(path@, runtime_dir@) is Some,
        r is Some ==> r.unwrap().0@ == portal_parts_spec(path@, runtime_dir@).unwrap().0,
        r is Some ==> r.unwrap().1@ == portal_parts_spec(path@, runtime_dir@).unwrap().1,
{
    let pv = chars_of(path);
    let rv = chars_of(runtime_dir);
    let comps = components_exec(&pv);
    let mut base = components_exec(&rv);
    base.push(vec!['d', 'o', 'c']);
    let ghost bs = components(runtime_dir@).push(seq!['d', 'o', 'c']);
    let ghost cs = components(path@);
    assert(base@.len() == bs.len());
    assert(forall|i: int| 0 <= i < base@.len() ==> #[trigger] base@[i]@ == bs[i]);
    if base.len() >= comps.len() {
        return None;
    }
    let mut i: usize = 0;
    while i < base.len()
        invariant
            bs == components(runtime_dir@).push(seq!['d', 'o', 'c']),
            cs == components(path@),
            base@.len() < comps@.len(),
            comps@.len() == cs.len(),
            base@.len() == bs.len(),
            forall|j: int| 0 <= j < base@.len() ==> #[trigger] base@[j]@ == bs[j],
            forall|j: int| 0 <= j < comps@.len() ==> #[trigger] comps@[j]@ == cs[j],
            i <= base@.len(),
            forall|j: int| 0 <= j < i ==> cs[j] == bs[j],
        decreases base@.len() - i,
    {
        if !vec_chars_eq(&comps[i], &base[i]) {
            proof {
                assert(cs[i as int] != bs[i as int]);
                assert(cs.take(bs.len() as int)[i as int] == cs[i as int]);
                assert(cs.take(bs.len() as int) != bs);
            }
            return None;
        }
        i += 1;
    }
    assert(cs.take(bs.len() as int) =~= bs);
    let id = copy_chars(&comps[base.len()]);
    let mut tail: Vec<char> = Vec::new();
    let ghost rest = cs.skip(bs.len() as int + 1);
    let mut k: usize = base.len() + 1;
    assert(rest.take(0) =~= Seq::<Seq<char>>::empty());
    while k < comps.len()
        invariant
            base@.len() < comps@.len(),
            comps@.len() == cs.len(),
            bs.len() == base@.len(),
            rest == cs.skip(bs.len() as int + 1),
            forall|j: int| 0 <= j < comps@.len() ==> #[trigger] comps@[j]@ == cs[j],
            base@.len() + 1 <= k <= comps@.len(),
            tail@ == join_slash(rest.take(k - base@.len() - 1)),
        decreases comps@.len() - k,
    {
        let n = k - base.len() - 1;
        proof {
            assert(rest.take(n + 1).drop_last() =~= rest.take(n as int));
            assert(rest.take(n + 1).last() == cs[k as int]);
            if n == 0 {
                assert(rest.take(1) =~= seq![cs[k as int]]);
            }
        }
        let ghost before = tail@;
        if k > base.len() + 1 {
            tail.push('/');
        }
        let piece = &comps[k];
        proof {
            assert(rest[n as int] == cs[k as int]);
            assert(piece@ == cs[k as int]);
        }
        let mut m: usize = 0;
        while m < piece.len()
            invariant
                m <= piece@.len(),
                tail@ == before + (if k > base@.len() + 1 { seq!['/'] } else { Seq::<char>::empty() }) + piece@.take(m as int),
            decreases piece@.len() - m,
        {
            tail.push(piece[m]);
            m += 1;
            assert(tail@ =~= before + (if k > base@.len() + 1 { seq!['/'] } else { Seq::<char>::empty() }) + piece@.take(m as int));
        }
        assert(piece@.take(piece@.len() as int) =~= piece@);
        proof {
            if n > 0 {
                assert(join_slash(rest.take(n + 1)) == join_slash(rest.take(n as int)) + seq!['/']
                    + rest[n as int]);
            }
            assert(tail@ =~= join_slash(rest.take(n + 1)));
        }
        k += 1;
    }
    assert(rest.take(comps@.len() - base@.len() - 1) =~= rest);
    Some((string_from_chars(&id), string_from_chars(&tail)))
}

/// Two paths name the same place the way `PathBuf`'s `==` compares them:
/// component by component.
pub open spec fn same_path(a: Seq<char>, b: Seq<char>) -> bool {
    components(a) == components(b)
}

fn same_chars(a: &Vec<char>, b: &Vec<char>) -> (r: bool)
    ensures
        r == (a@ == b@),
{
    if a.len() != b.len() {
        return false;
    }
    let mut i: usize = 0;
    while i < a.len()
        invariant
            a@.len() == b@.len(),
            i <= a@.len(),
            forall|k: int| 0 <= k < i ==> a@[k] == b@[k],
        decreases a@.len() - i,
    {
        if a[i] != b[i] {
            return false;
        }
        i += 1;
    }
    assert(a@ =~= b@);
    true
}

/// Whether `a` and `b` are the same path, component by component.
pub(crate) fn same_path_exec(a: &str, b: &str) -> (r: bool)
    ensures
        r == same_path(a@, b@),
{
    let ca = components_exec(&chars_of(a));
    let cb = components_exec(&chars_of(b));
    if ca.len() != cb.len() {
        return false;
    }
    let mut i: usize = 0;
    while i < ca.len()
        invariant
            ca@.len() == components(a@).len(),
            cb@.len() == components(b@).len(),
            ca@.len() == cb@.len(),
            forall|k: int| 0 <= k < ca@.len() ==> #[trigger] ca@[k]@ == components(a@)[k],
            forall|k: int| 0 <= k < cb@.len() ==> #[trigger] cb@[k]@ == components(b@)[k],
            i <= ca@.len(),
            forall|k: int| 0 <= k < i ==> components(a@)[k] == components(b@)[k],
        decreases ca@.len() - i,
    {
        if !same_chars(&ca[i], &cb[i]) {
            assert(ca@[i as int]@ != cb@[i as int]@);
            return false;
        }
        i += 1;
    }
    assert(components(a@) =~= components(b@));
    true
}

/// `x` holds no separator.
pub open spec fn no_slash(x: Seq<char>) -> bool {
    forall|k: int| 0 <= k < x.len() ==> x[k] != '/'
}

/// `x` is a normal component: named, not `.`, without a separator.
pub open spec fn normal_component(x: Seq<char>) -> bool {
    x.len() > 0 && no_slash(x) && x != seq!['.']
}

proof fn lemma_split_no_slash(s: Seq<char>)
    ensures
        forall|i: int| 0 <= i < split_slash(s).len() ==> no_slash(#[trigger] split_slash(s)[i]),
    decreases s.len(),
{
    if s.len() > 0 {
        lemma_split_no_slash(s.drop_last());
        lemma_split_nonempty(s.drop_last());
        let t = split_slash(s.drop_last());
        if s.last() != '/' {
            assert forall|i: int| 0 <= i < split_slash(s).len() implies no_slash(
                #[trigger] split_slash(s)[i],
            ) by {
                if i == t.len() - 1 {
                    assert(no_slash(t[i]));
                    assert(split_slash(s)[i] == t.last().push(s.last()));
                }
            }
        }
    }
}

proof fn lemma_named_normal(segs: Seq<Seq<char>>)
    requires
        forall|i: int| 0 <= i < segs.len() ==> no_slash(#[trigger] segs[i]),
    ensures
        forall|i: int| 0 <= i < named(segs).len() ==> normal_component(#[trigger] named(segs)[i]),
    decreases segs.len(),
{
    if segs.len() > 0 {
        let init = segs.drop_last();
        assert forall|i: int| 0 <= i < init.len() implies no_slash(#[trigger] init[i]) by {
            assert(init[i] == segs[i]);
        }
        lemma_named_normal(init);
        assert(no_slash(segs[segs.len() - 1]));
        let t = named(init);
        if !(segs.last().len() == 0 || segs.last() == seq!['.']) {
            assert(named(segs) == t.push(segs.last()));
            assert forall|i: int| 0 <= i < named(segs).len() implies normal_component(
                #[trigger] named(segs)[i],
            ) by {
                if i < t.len() {
                    assert(named(segs)[i] == t[i]);
                }
            }
        }
    }
}

proof fn lemma_split_single(y: Seq<char>)
    requires
        no_slash(y),
    ensures
        split_slash(y) == seq![y],
    decreases y.len(),
{
    if y.len() > 0 {
        lemma_split_single(y.drop_last());
        assert(y.drop_last().push(y.last()) =~= y);
    } else {
        assert(y =~= Seq::<char>::empty());
    }
}

proof fn lemma_split_after_slash(x: Seq<char>, y: Seq<char>)
    requires
        no_slash(y),
    ensures
        split_slash(x + seq!['/'] + y) == split_slash(x).push(y),
    decreases y.len(),
{
    if y.len() == 0 {
        assert(x + seq!['/'] + y =~= x.push('/'));
        assert(x.push('/').drop_last() =~= x);
        assert(y =~= Seq::<char>::empty());
    } else {
        lemma_split_after_slash(x, y.drop_last());
        let z = x + seq!['/'] + y;
        assert(z.drop_last() =~= x + seq!['/'] + y.drop_last());
        assert(z.last() == y.last());
        assert(y.drop_last().push(y.last()) =~= y);
        assert(split_slash(x).push(y.drop_last()).update(
            split_slash(x).len() as int,
            y.drop_last().push(y.last()),
        ) =~= split_slash(x).push(y));
    }
}

proof fn lemma_split_join(cs: Seq<Seq<char>>)
    requires
        cs.len() >= 1,
        forall|i: int| 0 <= i < cs.len() ==> no_slash(#[trigger] cs[i]),
    ensures
        split_slash(join_slash(cs)) == cs,
    decreases cs.len(),
{
    if cs.len() == 1 {
        lemma_split_single(cs[0]);
        assert(seq![cs[0]] =~= cs);
    } else {
        let init = cs.drop_last();
        assert forall|i: int| 0 <= i < init.len() implies no_slash(#[trigger] init[i]) by {
            assert(init[i] == cs[i]);
        }
        lemma_split_join(init);
        assert(no_slash(cs[cs.len() - 1]));
        lemma_split_after_slash(join_slash(init), cs.last());
        assert(init.push(cs.last()) =~= cs);
    }
}

proof fn lemma_named_identity(cs: Seq<Seq<char>>)
    requires
        forall|i: int| 0 <= i < cs.len() ==> normal_component(#[trigger] cs[i]),
    ensures
        named(cs) == cs,
    decreases cs.len(),
{
    if cs.len() > 0 {
        let init = cs.drop_last();
        assert forall|i: int| 0 <= i < init.len() implies normal_component(#[trigger] init[i]) by {
            assert(init[i] == cs[i]);
        }
        lemma_named_identity(init);
        assert(normal_component(cs[cs.len() - 1]));
        assert(init.push(cs.last()) =~= cs);
    }
}

proof fn lemma_join_first(cs: Seq<Seq<char>>)
    requires
        cs.len() >= 1,
        cs[0].len() > 0,
    ensures
        join_slash(cs).len() > 0,
        join_slash(cs)[0] == cs[0][0],
    decreases cs.len(),
{
    if cs.len() > 1 {
        let init = cs.drop_last();
        assert(init[0] == cs[0]);
        lemma_join_first(init);
    }
}

/// The components of normal components joined with `/` are those
/// components again.
proof fn lemma_components_join(cs: Seq<Seq<char>>)
    requires
        forall|i: int| 0 <= i < cs.len() ==> normal_component(#[trigger] cs[i]),
    ensures
        components(join_slash(cs)) == cs,
{
    if cs.len() == 0 {
        assert(split_slash(Seq::<char>::empty()) == seq![Seq::<char>::empty()]);
        let one = seq![Seq::<char>::empty()];
        assert(one.drop_last() =~= Seq::<Seq<char>>::empty());
        assert(named(Seq::<Seq<char>>::empty()) == Seq::<Seq<char>>::empty());
        assert(one.last().len() == 0);
        assert(named(one) == named(one.drop_last()));
        assert(named(seq![Seq::<char>::empty()]) =~= Seq::<Seq<char>>::empty());
        assert(components(join_slash(cs)) =~= cs);
    } else {
        assert forall|i: int| 0 <= i < cs.len() implies no_slash(#[trigger] cs[i]) by {
            assert(normal_component(cs[i]));
        }
        lemma_split_join(cs);
        lemma_named_identity(cs);
        assert(normal_component(cs[0]));
        lemma_join_first(cs);
        assert(no_slash(cs[0]));
        assert(cs[0][0] != '/');
        assert(components(join_slash(cs)) =~= cs);
    }
}

/// Every component of a path after its first is a normal one.
proof fn lemma_later_components_normal(p: Seq<char>)
    ensures
        forall|k: int|
            1 <= k < components(p).len() ==> normal_component(#[trigger] components(p)[k]),
{
    let segs = split_slash(p);
    lemma_split_nonempty(p);
    lemma_split_no_slash(p);
    lemma_named_normal(segs);
    let root = p.len() > 0 && p[0] == '/';
    let cur = !root && segs[0] == seq!['.'];
    let pre: Seq<Seq<char>> = (if root {
        seq![seq!['/']]
    } else {
        Seq::<Seq<char>>::empty()
    }) + (if cur {
        seq![seq!['.']]
    } else {
        Seq::<Seq<char>>::empty()
    });
    assert(pre.len() <= 1);
    assert(components(p) == pre + named(segs));
    assert forall|k: int| 1 <= k < components(p).len() implies normal_component(
        #[trigger] components(p)[k],
    ) by {
        assert(components(p)[k] == named(segs)[k - pre.len()]);
    }
}

/// The parts of a document-portal path put back together give the path:
/// `runtime_dir`, `doc`, the (named) document id, then the tail's
/// components, compared component by component as `PathBuf` compares.
pub proof fn law_portal_parts_rejoin(path: Seq<char>, runtime_dir: Seq<char>)
    requires
        portal_parts_spec(path, runtime_dir) is Some,
    ensures
        ({
            let (id, tail) = portal_parts_spec(path, runtime_dir)->0;
            &&& id.len() > 0
            &&& components(path) == components(runtime_dir).push(seq!['d', 'o', 'c']).push(id)
                + components(tail)
        }),
{
    let base = components(runtime_dir).push(seq!['d', 'o', 'c']);
    let comps = components(path);
    let b = base.len() as int;
    let rest = comps.skip(b + 1);
    lemma_later_components_normal(path);
    assert(normal_component(comps[b]));
    assert forall|i: int| 0 <= i < rest.len() implies normal_component(#[trigger] rest[i]) by {
        assert(rest[i] == comps[b + 1 + i]);
    }
    lemma_components_join(rest);
    assert(comps =~= comps.take(b).push(comps[b]) + rest);
}

} // verus!
