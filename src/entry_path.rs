//! Entry names as found in an archive, and the relative destination each
//! one is given inside the workspace. A name that could leave the
//! workspace (absolute, with a `..` component, or with a NUL) gets none:
//! such an entry is skipped and reported. This is the extraction policy of
//! this library, stricter than either name filter of the `zip` crate:
//! `ZipFile::enclosed_name` accepts `a/../b`, and `ZipFile::mangled_name`
//! rewrites it to `a/b`, a different file. Here any `..` refuses the entry.
use vstd::prelude::*;
use crate::text::{chars_of, push_char, string_of};

verus! {

broadcast use vstd::seq_lib::group_seq_properties;

pub open spec fn is_sep(c: char) -> bool {
    c == '/' || c == '\\'
}

/// The components of `s` between separators, empty ones included; a
/// string without separators is one component.
pub open spec fn split(s: Seq<char>) -> Seq<Seq<char>>
    decreases s.len(),
{
    if s.len() == 0 {
        seq![Seq::empty()]
    } else {
        let rest = split(s.drop_last());
        if is_sep(s.last()) {
            rest.push(Seq::empty())
        } else {
            rest.update(rest.len() - 1, rest.last().push(s.last()))
        }
    }
}

/// Components joined by `/`.
pub open spec fn join(parts: Seq<Seq<char>>) -> Seq<char>
    decreases parts.len(),
{
    if parts.len() == 0 {
        Seq::empty()
    } else if parts.len() == 1 {
        parts[0]
    } else {
        join(parts.drop_last()).push('/') + parts.last()
    }
}

pub open spec fn no_sep(c: Seq<char>) -> bool {
    forall|k: int| 0 <= k < c.len() ==> !is_sep(#[trigger] c[k])
}

/// A component that names something: neither empty nor `.`.
pub open spec fn is_kept(c: Seq<char>) -> bool {
    c.len() > 0 && c != seq!['.']
}

/// A component that must not be followed: `..`, or one holding a NUL.
pub open spec fn is_bad(c: Seq<char>) -> bool {
    c == seq!['.', '.'] || c.contains('\0')
}

/// A component that stays where it is put: a plain file or directory name.
pub open spec fn is_normal(c: Seq<char>) -> bool {
    is_kept(c) && !is_bad(c) && no_sep(c)
}

pub open spec fn kept_parts(s: Seq<char>) -> Seq<Seq<char>> {
    split(s).filter(|c: Seq<char>| is_kept(c))
}

pub open spec fn absolute_spec(s: Seq<char>) -> bool {
    s.len() > 0 && is_sep(s[0])
}

/// The name is absolute or has a component that must not be followed.
pub open spec fn is_unsafe(s: Seq<char>) -> bool {
    absolute_spec(s) || exists|j: int| 0 <= j < split(s).len() && is_bad(#[trigger] split(s)[j])
}

/// The relative destination of an entry named `s`: its named components
/// joined by `/`, or none when the name is unsafe or names nothing.
pub open spec fn sanitized(s: Seq<char>) -> Option<Seq<char>> {
    if is_unsafe(s) || kept_parts(s).len() == 0 {
        None
    } else {
        Some(join(kept_parts(s)))
    }
}

fn is_dot_dot(c: &Vec<char>) -> (r: bool)
    ensures
        r == (c@ == seq!['.', '.']),
{
    if c.len() == 2 && c[0] == '.' && c[1] == '.' {
        assert(c@ =~= seq!['.', '.']);
        true
    } else {
        false
    }
}

fn is_kept_part(c: &Vec<char>) -> (r: bool)
    ensures
        r == is_kept(c@),
{
    if c.len() == 0 {
        false
    } else if c.len() == 1 && c[0] == '.' {
        assert(c@ =~= seq!['.']);
        false
    } else {
        assert(c@.len() != 1 || c@[0] != '.');
        true
    }
}

/// Appends `src` to `dst`.
fn extend(dst: &mut Vec<char>, src: &Vec<char>)
    ensures
        final(dst)@ == old(dst)@ + src@,
{
    let mut i: usize = 0;
    while i < src.len()
        invariant
            i <= src.len(),
            dst@ == old(dst)@ + src@.subrange(0, i as int),
        decreases src.len() - i,
    {
        dst.push(src[i]);
        i = i + 1;
    }
    assert(src@.subrange(0, src.len() as int) =~= src@);
}

/// The relative destination of an archive entry named `name`, or `None`
/// when the entry must be skipped.
pub fn sanitize_entry_name(name: &str) -> (r: Option<String>)
    ensures
        r is Some <==> sanitized(name@) is Some,
        r matches Some(p) ==> sanitized(name@) == Some(p@),
{
    let s = chars_of(name);
    let ghost mut done: Seq<Seq<char>> = Seq::empty();
    let mut cur: Vec<char> = Vec::new();
    let mut cur_nul = false;
    let mut out: Vec<char> = Vec::new();
    let mut has_kept = false;
    let mut bad = false;
    let mut i: usize = 0;
    let ghost kp = |c: Seq<char>| is_kept(c);
    assert(s@.subrange(0, 0) =~= Seq::<char>::empty());
    assert(cur@ =~= Seq::<char>::empty());
    while i < s.len()
        invariant
            s@ == name@,
            i <= s.len(),
            kp == (|c: Seq<char>| is_kept(c)),
            split(s@.subrange(0, i as int)) == done.push(cur@),
            done.len() <= i,
            out@ == join(done.filter(kp)),
            has_kept == (done.filter(kp).len() > 0),
            bad == exists|j: int| 0 <= j < done.len() && is_bad(#[trigger] done[j]),
            cur_nul == cur@.contains('\0'),
            forall|j: int| 0 <= j < done.len() ==> no_sep(#[trigger] done[j]),
            no_sep(cur@),
        decreases s.len() - i,
    {
        let c = s[i];
        let ghost pre = s@.subrange(0, i as int);
        assert(s@.subrange(0, i + 1).drop_last() =~= pre);
        if c == '/' || c == '\\' {
            if cur_nul || is_dot_dot(&cur) {
                bad = true;
            }
            if is_kept_part(&cur) {
                if has_kept {
                    push_char_vec(&mut out, '/');
                }
                extend(&mut out, &cur);
                has_kept = true;
            }
            proof {
                lemma_close_part(done, cur@, kp);
                done = done.push(cur@);
            }
            cur = Vec::new();
            cur_nul = false;
            assert(cur@ =~= Seq::<char>::empty());
        } else {
            let ghost old_cur = cur@;
            cur.push(c);
            if c == '\0' {
                cur_nul = true;
            }
            assert(cur@.drop_last() =~= old_cur);
            assert(done.push(old_cur).update(done.len() as int, cur@) =~= done.push(cur@));
            assert(cur_nul == cur@.contains('\0')) by {
                if cur@.contains('\0') && c != '\0' {
                    let k = choose|k: int| 0 <= k < cur@.len() && cur@[k] == '\0';
                    assert(old_cur[k] == '\0');
                }
            }
        }
        i = i + 1;
    }
    assert(s@.subrange(0, s.len() as int) =~= s@);
    if cur_nul || is_dot_dot(&cur) {
        bad = true;
    }
    if is_kept_part(&cur) {
        if has_kept {
            push_char_vec(&mut out, '/');
        }
        extend(&mut out, &cur);
        has_kept = true;
    }
    proof {
        lemma_close_part(done, cur@, kp);
        done = done.push(cur@);
        assert(split(name@) == done);
        assert(is_unsafe(name@) == (absolute_spec(name@) || bad));
        assert(kept_parts(name@) == done.filter(kp));
    }
    let absolute = s.len() > 0 && (s[0] == '/' || s[0] == '\\');
    assert(absolute == absolute_spec(name@));
    if bad || absolute || !has_kept {
        None
    } else {
        Some(string_of(&out))
    }
}

proof fn lemma_split_len(s: Seq<char>)
    ensures
        split(s).len() >= 1,
        forall|j: int| 0 <= j < split(s).len() ==> no_sep(#[trigger] split(s)[j]),
    decreases s.len(),
{
    if s.len() > 0 {
        lemma_split_len(s.drop_last());
        let rest = split(s.drop_last());
        if !is_sep(s.last()) {
            let l = rest.last().push(s.last());
            assert(no_sep(l)) by {
                assert forall|k: int| 0 <= k < l.len() implies !is_sep(#[trigger] l[k]) by {
                    if k < rest.last().len() {
                        assert(l[k] == rest.last()[k]);
                    }
                }
            }
        }
    }
}

proof fn lemma_split_append(a: Seq<char>, b: Seq<char>)
    requires
        no_sep(b),
    ensures
        split(a + b) == split(a).update(split(a).len() - 1, split(a).last() + b),
    decreases b.len(),
{
    lemma_split_len(a);
    if b.len() == 0 {
        assert(a + b =~= a);
        assert(split(a).last() + b =~= split(a).last());
        assert(split(a).update(split(a).len() - 1, split(a).last()) =~= split(a));
    } else {
        let b0 = b.drop_last();
        assert(no_sep(b0)) by {
            assert forall|k: int| 0 <= k < b0.len() implies !is_sep(#[trigger] b0[k]) by {
                assert(b0[k] == b[k]);
            }
        }
        lemma_split_append(a, b0);
        assert((a + b).drop_last() =~= a + b0);
        assert((a + b).last() == b.last());
        assert(!is_sep(b[b.len() - 1]));
        assert((split(a).last() + b0).push(b.last()) =~= split(a).last() + b);
        assert(split(a + b) =~= split(a).update(split(a).len() - 1, split(a).last() + b));
    }
}

proof fn lemma_split_join(parts: Seq<Seq<char>>)
    requires
        parts.len() >= 1,
        forall|j: int| 0 <= j < parts.len() ==> no_sep(#[trigger] parts[j]),
    ensures
        split(join(parts)) == parts,
    decreases parts.len(),
{
    let e = Seq::<char>::empty();
    if parts.len() == 1 {
        lemma_split_append(e, parts[0]);
        assert(e + parts[0] =~= parts[0]);
        assert(split(e) == seq![e]);
        assert(split(join(parts)) =~= parts);
    } else {
        let init = parts.drop_last();
        assert forall|j: int| 0 <= j < init.len() implies no_sep(#[trigger] init[j]) by {
            assert(init[j] == parts[j]);
        }
        lemma_split_join(init);
        let x = join(init).push('/');
        assert(x.drop_last() =~= join(init));
        assert(split(x) == init.push(e));
        assert(no_sep(parts[parts.len() - 1]));
        lemma_split_append(x, parts.last());
        assert(e + parts.last() =~= parts.last());
        assert(split(join(parts)) =~= parts);
    }
}

proof fn lemma_join_starts(parts: Seq<Seq<char>>)
    requires
        parts.len() >= 1,
        parts[0].len() > 0,
    ensures
        join(parts).len() > 0,
        join(parts)[0] == parts[0][0],
    decreases parts.len(),
{
    if parts.len() > 1 {
        lemma_join_starts(parts.drop_last());
    }
}

/// An entry name that gets a destination gets a relative path made of
/// plain names alone: it does not start with a separator, and each of
/// its components is neither empty, `.` nor `..`, holds no separator and
/// no NUL. Joined onto the workspace root it stays inside that root.
pub proof fn lemma_destination_stays_inside(name: Seq<char>)
    ensures
        sanitized(name) matches Some(p) ==> {
            &&& p.len() > 0
            &&& !is_sep(p[0])
            &&& split(p) == kept_parts(name)
            &&& forall|j: int| 0 <= j < split(p).len() ==> is_normal(#[trigger] split(p)[j])
        },
{
    if let Some(p) = sanitized(name) {
        let kp = |c: Seq<char>| is_kept(c);
        let parts = kept_parts(name);
        lemma_split_len(name);
        assert forall|j: int| 0 <= j < parts.len() implies is_normal(#[trigger] parts[j]) by {
            split(name).lemma_filter_pred(kp, j);
            assert(parts.contains(parts[j]));
            split(name).lemma_filter_contains_rev(kp, parts[j]);
            let k = choose|k: int| 0 <= k < split(name).len() && split(name)[k] == parts[j];
            assert(no_sep(split(name)[k]));
            assert(!is_bad(split(name)[k]));
        }
        lemma_split_join(parts);
        lemma_join_starts(parts);
        assert(!is_sep(parts[0][0]));
    }
}

proof fn lemma_close_part(done: Seq<Seq<char>>, c: Seq<char>, kp: spec_fn(Seq<char>) -> bool)
    requires
        kp == (|c: Seq<char>| is_kept(c)),
    ensures
        (exists|j: int| 0 <= j < done.push(c).len() && is_bad(#[trigger] done.push(c)[j])) == ((
        exists|j: int| 0 <= j < done.len() && is_bad(#[trigger] done[j])) || is_bad(c)),
        is_kept(c) ==> done.push(c).filter(kp) == done.filter(kp).push(c),
        !is_kept(c) ==> done.push(c).filter(kp) == done.filter(kp),
        is_kept(c) && done.filter(kp).len() == 0 ==> join(done.filter(kp).push(c)) == c,
        is_kept(c) && done.filter(kp).len() > 0 ==> join(done.filter(kp).push(c)) == join(
            done.filter(kp),
        ).push('/') + c,
{
    assert(done.push(c).drop_last() =~= done);
    assert(done.push(c).last() == c);
    assert(kp(c) == is_kept(c));
    done.lemma_filter_push(c, kp);
    let f = done.filter(kp);
    assert(f.push(c).drop_last() =~= f);
    if exists|j: int| 0 <= j < done.len() && is_bad(#[trigger] done[j]) {
        let j = choose|j: int| 0 <= j < done.len() && is_bad(#[trigger] done[j]);
        assert(done.push(c)[j] == done[j]);
    }
    if is_bad(c) {
        assert(done.push(c)[done.len() as int] == c);
    }
    if exists|j: int| 0 <= j < done.push(c).len() && is_bad(#[trigger] done.push(c)[j]) {
        let j = choose|j: int| 0 <= j < done.push(c).len() && is_bad(#[trigger] done.push(c)[j]);
        if j < done.len() {
            assert(done[j] == done.push(c)[j]);
        }
    }
}

fn push_char_vec(v: &mut Vec<char>, c: char)
    ensures
        final(v)@ == old(v)@.push(c),
{
    v.push(c);
}

} // verus!
