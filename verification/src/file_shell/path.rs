use vstd::prelude::*;
use crate::file_shell::bin::cd::{last_slash, path_step, path_walk};
use crate::file_shell::root_file::{path_parts, split_on};

verus! {

/// A part that names a directory entry: not empty, no slash, not `.` nor
/// `..`.
pub open spec fn plain_part(p: Seq<char>) -> bool {
    &&& p.len() > 0
    &&& !p.contains('/')
    &&& p != seq!['.']
    &&& p != seq!['.', '.']
}

/// The path `/a/b/.../` of the parts `a`, `b`, ...: a slash, then each
/// part followed by a slash.
pub open spec fn joined(segs: Seq<Seq<char>>) -> Seq<char>
    decreases segs.len(),
{
    if segs.len() == 0 {
        seq!['/']
    } else {
        joined(segs.drop_last()) + segs.last() + seq!['/']
    }
}

/// The plain parts a walk over `parts` ends in.
pub open spec fn walk_segs(parts: Seq<Seq<char>>) -> Seq<Seq<char>>
    decreases parts.len(),
{
    if parts.len() == 0 {
        Seq::empty()
    } else {
        let s = walk_segs(parts.drop_last());
        let p = parts.last();
        if p.len() == 0 || p == seq!['.'] {
            s
        } else if p == seq!['.', '.'] {
            if s.len() == 0 { s } else { s.drop_last() }
        } else {
            s.push(p)
        }
    }
}

/// A joined path is at least a slash and ends with one.
proof fn lemma_joined_shape(segs: Seq<Seq<char>>)
    ensures
        joined(segs).len() >= 1,
        joined(segs).last() == '/',
        joined(segs)[0] == '/',
        segs.len() == 0 <==> joined(segs).len() == 1,
    decreases segs.len(),
{
    if segs.len() > 0 {
        lemma_joined_shape(segs.drop_last());
    }
}

/// The last slash of `s + t` is that of `s` when `t` has none.
proof fn lemma_last_slash_append(s: Seq<char>, t: Seq<char>)
    requires
        !t.contains('/'),
    ensures
        last_slash(s + t) == last_slash(s),
    decreases t.len(),
{
    if t.len() > 0 {
        assert((s + t).drop_last() =~= s + t.drop_last());
        assert((s + t).last() == t.last());
        assert(t.last() != '/') by {
            if t.last() == '/' {
                assert(t.contains('/'));
            }
        }
        assert(!t.drop_last().contains('/')) by {
            if t.drop_last().contains('/') {
                let k = choose|k: int| 0 <= k < t.drop_last().len() && t.drop_last()[k] == '/';
                assert(t[k] == '/');
            }
        }
        lemma_last_slash_append(s, t.drop_last());
    } else {
        assert(s + t =~= s);
    }
}

/// Walking the parts gives the joined path of the plain parts it ends in.
pub proof fn lemma_walk_joined(parts: Seq<Seq<char>>)
    requires
        forall|i: int| 0 <= i < parts.len() ==> !(#[trigger] parts[i]).contains('/'),
    ensures
        path_walk(parts) == joined(walk_segs(parts)),
        forall|i: int| 0 <= i < walk_segs(parts).len() ==> plain_part(#[trigger] walk_segs(parts)[i]),
    decreases parts.len(),
{
    if parts.len() > 0 {
        let rest = parts.drop_last();
        assert forall|i: int| 0 <= i < rest.len() implies !(#[trigger] rest[i]).contains('/') by {
            assert(rest[i] == parts[i]);
        }
        lemma_walk_joined(rest);
        let s = walk_segs(rest);
        let p = parts.last();
        let ans = joined(s);
        assert(!p.contains('/')) by {
            assert(p == parts[parts.len() - 1]);
        }
        if p.len() == 0 || p == seq!['.'] {
        } else if p == seq!['.', '.'] {
            lemma_joined_shape(s);
            if s.len() > 0 {
                let prev = joined(s.drop_last());
                lemma_joined_shape(s.drop_last());
                assert(ans.drop_last() =~= prev + s.last());
                assert(plain_part(s[s.len() - 1]));
                lemma_last_slash_append(prev, s.last());
                lemma_last_slash_append_slash(prev);
                assert(ans.take(last_slash(ans.drop_last()) + 1) =~= prev);
            }
        } else {
            assert(s.push(p).drop_last() =~= s);
            assert forall|i: int| 0 <= i < s.push(p).len() implies plain_part(#[trigger] s.push(p)[i]) by {
                if i < s.len() {
                    assert(s.push(p)[i] == s[i]);
                }
            }
        }
    }
}

/// The last slash of a path that ends with one is its last character.
proof fn lemma_last_slash_append_slash(s: Seq<char>)
    requires
        s.len() >= 1,
        s.last() == '/',
    ensures
        last_slash(s) == s.len() - 1,
{
}

/// Cutting `s + t` at slashes, when `t` has none, gives the pieces of `s`
/// with `t` added to the last one.
proof fn lemma_split_append(s: Seq<char>, t: Seq<char>)
    requires
        !t.contains('/'),
    ensures
        split_on(s + t, '/') == split_on(s, '/').update(split_on(s, '/').len() - 1, split_on(s, '/').last() + t),
    decreases t.len(),
{
    crate::file_shell::root_file::lemma_split_nonempty(s, '/');
    if t.len() > 0 {
        assert((s + t).drop_last() =~= s + t.drop_last());
        assert((s + t).last() == t.last());
        assert(t.last() != '/') by {
            if t.last() == '/' {
                assert(t.contains('/'));
            }
        }
        assert(!t.drop_last().contains('/')) by {
            if t.drop_last().contains('/') {
                let k = choose|k: int| 0 <= k < t.drop_last().len() && t.drop_last()[k] == '/';
                assert(t[k] == '/');
            }
        }
        lemma_split_append(s, t.drop_last());
        let v = split_on(s, '/');
        let rest = split_on(s + t.drop_last(), '/');
        assert(split_on(s + t, '/') == rest.update(rest.len() - 1, rest.last().push(t.last())));
        assert(rest.len() == v.len());
        assert(rest.last() == v.last() + t.drop_last());
        assert((v.last() + t.drop_last()).push(t.last()) =~= v.last() + t);
        assert(split_on(s + t, '/') =~= v.update(v.len() - 1, v.last() + t));
    } else {
        assert(s + t =~= s);
        let v = split_on(s, '/');
        assert(v.last() + t =~= v.last());
        assert(v.update(v.len() - 1, v.last()) =~= v);
    }
}

/// The pieces of a joined path: an empty one, the parts, and an empty one.
proof fn lemma_split_joined(segs: Seq<Seq<char>>)
    requires
        forall|i: int| 0 <= i < segs.len() ==> plain_part(#[trigger] segs[i]),
    ensures
        split_on(joined(segs), '/') == seq![Seq::<char>::empty()] + segs + seq![Seq::<char>::empty()],
    decreases segs.len(),
{
    if segs.len() == 0 {
        assert(seq!['/'].drop_last() =~= Seq::<char>::empty());
        assert(split_on(Seq::<char>::empty(), '/') == seq![Seq::<char>::empty()]);
        assert(split_on(seq!['/'], '/') == split_on(Seq::<char>::empty(), '/').push(Seq::<char>::empty()));
        assert(split_on(seq!['/'], '/') =~= seq![Seq::<char>::empty()] + segs + seq![Seq::<char>::empty()]);
    } else {
        let rest = segs.drop_last();
        assert forall|i: int| 0 <= i < rest.len() implies plain_part(#[trigger] rest[i]) by {
            assert(rest[i] == segs[i]);
        }
        lemma_split_joined(rest);
        let x = segs.last();
        assert(plain_part(segs[segs.len() - 1]));
        let a = joined(rest) + x;
        lemma_split_append(joined(rest), x);
        assert(joined(segs) =~= a + seq!['/']);
        assert((a + seq!['/']).drop_last() =~= a);
        let v = split_on(joined(rest), '/');
        assert(v.last() =~= Seq::<char>::empty());
        assert(Seq::<char>::empty() + x =~= x);
        assert(split_on(joined(segs), '/') =~= v.update(v.len() - 1, x).push(Seq::<char>::empty()));
        assert(v.update(v.len() - 1, x).push(Seq::<char>::empty()) =~= seq![Seq::<char>::empty()] + segs + seq![Seq::<char>::empty()]);
    }
}

/// Walking an empty part and then plain parts gives their joined path.
proof fn lemma_walk_plain(segs: Seq<Seq<char>>)
    requires
        forall|i: int| 0 <= i < segs.len() ==> plain_part(#[trigger] segs[i]),
    ensures
        path_walk(seq![Seq::<char>::empty()] + segs) == joined(segs),
    decreases segs.len(),
{
    let all = seq![Seq::<char>::empty()] + segs;
    if segs.len() == 0 {
        assert(all.drop_last() =~= Seq::<Seq<char>>::empty());
        assert(path_walk(Seq::<Seq<char>>::empty()) == seq!['/']);
        assert(all.last() == Seq::<char>::empty());
        assert(path_walk(all) == path_step(seq!['/'], Seq::<char>::empty()));
    } else {
        let rest = segs.drop_last();
        assert forall|i: int| 0 <= i < rest.len() implies plain_part(#[trigger] rest[i]) by {
            assert(rest[i] == segs[i]);
        }
        lemma_walk_plain(rest);
        assert(all.drop_last() =~= seq![Seq::<char>::empty()] + rest);
        assert(all.last() == segs.last());
        let x = segs.last();
        assert(plain_part(segs[segs.len() - 1]));
        assert(path_walk(all) == path_step(path_walk(all.drop_last()), x));
        assert(path_step(joined(rest), x) == joined(rest) + x + seq!['/']);
        assert(joined(segs) == joined(rest) + x + seq!['/']);
    }
}

/// A joined path of plain parts holds no two slashes in a row.
proof fn lemma_joined_no_double(segs: Seq<Seq<char>>)
    requires
        forall|i: int| 0 <= i < segs.len() ==> plain_part(#[trigger] segs[i]),
    ensures
        forall|i: int| 0 <= i < joined(segs).len() - 1 ==> !(#[trigger] joined(segs)[i] == '/' && joined(segs)[i + 1] == '/'),
    decreases segs.len(),
{
    if segs.len() > 0 {
        let rest = segs.drop_last();
        assert forall|i: int| 0 <= i < rest.len() implies plain_part(#[trigger] rest[i]) by {
            assert(rest[i] == segs[i]);
        }
        lemma_joined_no_double(rest);
        lemma_joined_shape(rest);
        let x = segs.last();
        assert(plain_part(segs[segs.len() - 1]));
        let j = joined(segs);
        let jr = joined(rest);
        assert(j == jr + x + seq!['/']);
        assert forall|i: int| 0 <= i < j.len() - 1 implies !(#[trigger] j[i] == '/' && j[i + 1] == '/') by {
            if i < jr.len() - 1 {
                assert(j[i] == jr[i] && j[i + 1] == jr[i + 1]);
            } else if i == jr.len() - 1 {
                assert(j[i + 1] == x[0]);
                assert(x.contains(x[0]) ==> x[0] != '/');
            } else {
                let k = i - jr.len();
                assert(j[i] == x[k]);
                assert(x[k] != '/') by {
                    if x[k] == '/' {
                        assert(x.contains('/'));
                    }
                }
            }
        }
    }
}

/// A path built by walking parts with no slash in them starts and ends
/// with a slash, holds no `//`, and splits at its slashes into an empty
/// part and then plain parts (none empty, `.` or `..`); and it is built
/// again, unchanged, from its own parts: the paths `cd` gives are fixed
/// points of parsing and rebuilding.
pub proof fn law_walk_parse_walk(parts: Seq<Seq<char>>)
    requires
        forall|i: int| 0 <= i < parts.len() ==> !(#[trigger] parts[i]).contains('/'),
    ensures
        path_walk(parts)[0] == '/',
        path_walk(parts).last() == '/',
        path_walk(parts) == joined(walk_segs(parts)),
        forall|i: int| 0 <= i < walk_segs(parts).len() ==> plain_part(#[trigger] walk_segs(parts)[i]),
        forall|i: int| 0 <= i < path_walk(parts).len() - 1 ==> !(#[trigger] path_walk(parts)[i] == '/' && path_walk(parts)[i + 1] == '/'),
        path_parts(path_walk(parts)) == seq![Seq::<char>::empty()] + walk_segs(parts),
        path_walk(path_parts(path_walk(parts))) == path_walk(parts),
{
    lemma_walk_joined(parts);
    lemma_joined_shape(walk_segs(parts));
    lemma_joined_no_double(walk_segs(parts));
    let segs = walk_segs(parts);
    lemma_split_joined(segs);
    let v = split_on(joined(segs), '/');
    assert(path_parts(joined(segs)) =~= seq![Seq::<char>::empty()] + segs);
    lemma_walk_plain(segs);
}

} // verus!
