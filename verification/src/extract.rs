//! Archive entry names made safe to unpack. Reading the 7z archive and writing the
//! files is left to the caller.

use vstd::prelude::*;
use vstd::slice::slice_subrange;
use crate::text::{chars_of, find_chars, find_sub, push_char, push_chars, push_str};

verus! {

/// The name with Windows `\` separators turned into `/`.
pub open spec fn slashes(s: Seq<char>) -> Seq<char> {
    s.map_values(|c: char| if c == '\\' { '/' } else { c })
}

/// Path components joined by `/`.
pub open spec fn join_slash(ps: Seq<Seq<char>>) -> Seq<char>
    decreases ps.len(),
{
    if ps.len() == 0 {
        seq![]
    } else if ps.len() == 1 {
        ps[0]
    } else {
        join_slash(ps.drop_last()) + seq!['/'] + ps.last()
    }
}

/// The normal components of `n[pos..]` added to `acc`, reading one `/`-separated piece
/// at a time: empty pieces and `.` are skipped, `..` makes the name unsafe.
pub open spec fn components_from(n: Seq<char>, pos: int, acc: Option<Seq<Seq<char>>>) -> Option<Seq<Seq<char>>>
    decreases n.len() - pos,
{
    match acc {
        None => None,
        Some(a) => {
            let k = find_sub(n, seq!['/'], pos);
            let piece = match k {
                Some(k) => n.subrange(pos, k),
                None => n.subrange(pos, n.len() as int),
            };
            let a2 = if piece == seq!['.', '.'] {
                None
            } else if piece.len() == 0 || piece == seq!['.'] {
                Some(a)
            } else {
                Some(a.push(piece))
            };
            match k {
                Some(k) => if pos <= k < n.len() {
                    components_from(n, k + 1, a2)
                } else {
                    a2
                },
                None => a2,
            }
        },
    }
}

/// An archive entry name as a safe relative path: `\` read as `/`, `.` and empty parts
/// dropped; `None` for an absolute name, one with a `..` part, or one with nothing left.
pub open spec fn sanitized(name: Seq<char>) -> Option<Seq<char>> {
    let n = slashes(name);
    if n.len() > 0 && n[0] == '/' {
        None
    } else {
        match components_from(n, 0, Some(seq![])) {
            Some(ps) => if ps.len() > 0 {
                Some(join_slash(ps))
            } else {
                None
            },
            None => None,
        }
    }
}

/// Turn an archive entry name into a safe relative path, or `None` if it would escape
/// the destination. Archives built on Windows may use `\` separators.
pub fn sanitize(name: &str) -> (r: Option<String>)
    ensures
        match r {
            Some(p) => sanitized(name@) == Some(p@),
            None => sanitized(name@) is None,
        },
{
    let raw = chars_of(name);
    let mut n: Vec<char> = Vec::new();
    let mut i: usize = 0;
    while i < raw.len()
        invariant
            i <= raw@.len(),
            raw@ == name@,
            n@ == slashes(raw@.take(i as int)),
        decreases raw@.len() - i,
    {
        let c = raw[i];
        n.push(if c == '\\' { '/' } else { c });
        i += 1;
        assert(n@ =~= slashes(raw@.take(i as int)));
    }
    assert(raw@.take(raw@.len() as int) =~= raw@);
    if n.len() > 0 && n[0] == '/' {
        return None;
    }
    let mut sep: Vec<char> = Vec::new();
    sep.push('/');
    assert(sep@ =~= seq!['/']);
    let ghost mut acc: Seq<Seq<char>> = seq![];
    let mut out = String::new();
    let mut count: usize = 0;
    let mut pos: usize = 0;
    loop
        invariant
            pos <= n@.len(),
            n@ == slashes(name@),
            !(n@.len() > 0 && n@[0] == '/'),
            count <= pos,
            sep@ == seq!['/'],
            components_from(n@, 0, Some(seq![])) == components_from(n@, pos as int, Some(acc)),
            out@ == join_slash(acc),
            count == acc.len(),
        decreases n@.len() - pos,
    {
        let k = find_chars(n.as_slice(), sep.as_slice(), pos);
        proof {
            crate::text::lemma_find_sub(n@, seq!['/'], pos as int);
        }
        let end = match k {
            Some(k) => k,
            None => n.len(),
        };
        let piece = slice_subrange(n.as_slice(), pos, end);
        let is_dotdot = piece.len() == 2 && piece[0] == '.' && piece[1] == '.';
        let is_dot = piece.len() == 1 && piece[0] == '.';
        proof {
            if piece@ == seq!['.', '.'] {
                assert(piece@[0] == '.' && piece@[1] == '.');
            }
            if is_dotdot {
                assert(piece@ =~= seq!['.', '.']);
            }
            if piece@ == seq!['.'] {
                assert(piece@[0] == '.');
            }
            if is_dot {
                assert(piece@ =~= seq!['.']);
            }
        }
        if is_dotdot {
            assert(components_from(n@, pos as int, Some(acc)) is None) by {
                if let Some(kk) = k {
                    if pos <= kk < n@.len() {
                        assert(components_from(n@, kk + 1, None) is None);
                    }
                }
            }
            return None;
        }
        if !(piece.len() == 0 || is_dot) {
            let ghost before = acc;
            if count > 0 {
                push_char(&mut out, '/');
            }
            push_chars(&mut out, piece);
            proof {
                acc = acc.push(piece@);
                if before.len() == 0 {
                    assert(out@ =~= piece@);
                } else {
                    assert(acc.drop_last() =~= before);
                }
            }
            count = count + 1;
        }
        match k {
            Some(k) => {
                pos = k + 1;
            },
            None => {
                assert(components_from(n@, 0, Some(seq![])) == Some(acc));
                if count == 0 {
                    return None;
                }
                return Some(out);
            },
        }
    }
}

/// A path component that stays where it is put: not empty, not `.` or `..`, and with
/// no separator of either kind in it.
pub open spec fn is_normal_part(c: Seq<char>) -> bool {
    &&& c.len() > 0
    &&& c != seq!['.']
    &&& c != seq!['.', '.']
    &&& forall|m: int| 0 <= m < c.len() ==> c[m] != '/' && c[m] != '\\'
}

proof fn lemma_find_slash(n: Seq<char>, pos: int)
    requires
        0 <= pos <= n.len(),
    ensures
        match find_sub(n, seq!['/'], pos) {
            Some(k) => pos <= k < n.len() && n[k] == '/' && forall|m: int| pos <= m < k ==> n[m] != '/',
            None => forall|m: int| pos <= m < n.len() ==> n[m] != '/',
        },
    decreases n.len() - pos,
{
    if pos < n.len() {
        if n.subrange(pos, pos + 1) == seq!['/'] {
            assert(n[pos] == n.subrange(pos, pos + 1)[0]);
        } else {
            if n[pos] == '/' {
                assert(n.subrange(pos, pos + 1) =~= seq!['/']);
            }
            lemma_find_slash(n, pos + 1);
        }
    }
}

proof fn lemma_components_normal(n: Seq<char>, pos: int, acc: Seq<Seq<char>>)
    requires
        0 <= pos <= n.len(),
        forall|m: int| 0 <= m < n.len() ==> n[m] != '\\',
        forall|i: int| 0 <= i < acc.len() ==> is_normal_part(#[trigger] acc[i]),
    ensures
        components_from(n, pos, Some(acc)) matches Some(ps) ==> forall|i: int| 0 <= i < ps.len()
            ==> is_normal_part(#[trigger] ps[i]),
    decreases n.len() - pos,
{
    lemma_find_slash(n, pos);
    let k = find_sub(n, seq!['/'], pos);
    let piece = match k {
        Some(k) => n.subrange(pos, k),
        None => n.subrange(pos, n.len() as int),
    };
    if !(piece == seq!['.', '.']) && !(piece.len() == 0 || piece == seq!['.']) {
        let a2 = acc.push(piece);
        assert forall|i: int| 0 <= i < a2.len() implies is_normal_part(#[trigger] a2[i]) by {
            if i == acc.len() {
                assert(a2[i] == piece);
                assert forall|m: int| 0 <= m < piece.len() implies piece[m] != '/' && piece[m] != '\\' by {
                    assert(piece[m] == n[pos + m]);
                }
            } else {
                assert(a2[i] == acc[i]);
            }
        }
        if let Some(kk) = k {
            lemma_components_normal(n, kk + 1, a2);
        }
    } else if !(piece == seq!['.', '.']) {
        if let Some(kk) = k {
            lemma_components_normal(n, kk + 1, acc);
        }
    } else {
        if let Some(kk) = k {
            assert(components_from(n, kk + 1, None) is None);
        }
    }
}

proof fn lemma_join_first(ps: Seq<Seq<char>>)
    requires
        ps.len() > 0,
        ps[0].len() > 0,
    ensures
        join_slash(ps).len() > 0,
        join_slash(ps)[0] == ps[0][0],
    decreases ps.len(),
{
    if ps.len() > 1 {
        lemma_join_first(ps.drop_last());
    }
}

/// What `sanitize` accepts comes out as one or more normal components (none empty, `.` or
/// `..`, none holding a `/` or `\`) joined by `/`, and does not start with `/`: it can only
/// name a place inside the destination.
pub proof fn law_sanitized_stays_inside(name: Seq<char>)
    ensures
        sanitized(name) matches Some(p) ==> {
            &&& p.len() > 0
            &&& p[0] != '/'
            &&& exists|ps: Seq<Seq<char>>| #![trigger join_slash(ps)]
                {
                    &&& ps.len() > 0
                    &&& p == join_slash(ps)
                    &&& forall|i: int| 0 <= i < ps.len() ==> is_normal_part(#[trigger] ps[i])
                }
        },
{
    let n = slashes(name);
    if sanitized(name) is Some {
        assert forall|m: int| 0 <= m < n.len() implies n[m] != '\\' by {}
        lemma_components_normal(n, 0, seq![]);
        let ps = components_from(n, 0, Some(seq![]))->0;
        assert(is_normal_part(ps[0]));
        lemma_join_first(ps);
    }
}

/// Where an entry is written before it is moved into place: the target with
/// `.yaccgl-tmp` appended.
pub fn tmp_path(target: &str) -> (r: String)
    ensures
        r@ == target@ + ".yaccgl-tmp"@,
{
    let mut s = String::new();
    push_str(&mut s, target);
    push_str(&mut s, ".yaccgl-tmp");
    s
}

} // verus!
