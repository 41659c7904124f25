use vstd::prelude::*;
use vstd::string::*;

verus! {

/// A path is absolute when it starts with the separator.
pub open spec fn spec_is_absolute(p: Seq<char>) -> bool {
    p.len() > 0 && p[0] == '/'
}

/// Joining a base directory with a further path. An absolute right-hand side
/// replaces the base, everything else is appended behind one separator.
pub open spec fn spec_join(base: Seq<char>, rel: Seq<char>) -> Seq<char> {
    if spec_is_absolute(rel) {
        rel
    } else {
        base + seq!['/'] + rel
    }
}

pub fn is_absolute(p: &str) -> (r: bool)
    ensures
        r == spec_is_absolute(p@),
{
    if p.unicode_len() == 0 {
        false
    } else {
        p.get_char(0) == '/'
    }
}

pub fn join_path(base: &str, rel: &str) -> (r: String)
    ensures
        r@ == spec_join(base@, rel@),
{
    if is_absolute(rel) {
        rel.to_owned()
    } else {
        let mut s = base.to_owned();
        s.append("/");
        s.append(rel);
        proof {
            reveal_strlit("/");
            assert(("/")@ =~= seq!['/']);
        }
        s
    }
}

/// Index of the last occurrence of `c` in `s`, or -1 when `c` does not occur.
pub open spec fn spec_last_index_of(s: Seq<char>, c: char) -> int
    decreases s.len(),
{
    if s.len() == 0 {
        -1
    } else if s.last() == c {
        s.len() - 1
    } else {
        spec_last_index_of(s.drop_last(), c)
    }
}

pub proof fn lemma_last_index_of_bounds(s: Seq<char>, c: char)
    ensures
        -1 <= spec_last_index_of(s, c) < s.len(),
    decreases s.len(),
{
    if s.len() > 0 && s.last() != c {
        lemma_last_index_of_bounds(s.drop_last(), c);
    }
}

fn last_index_of(s: &str, c: char) -> (r: Option<usize>)
    ensures
        match r {
            Some(j) => j == spec_last_index_of(s@, c),
            None => spec_last_index_of(s@, c) == -1,
        },
{
    let n = s.unicode_len();
    let mut i: usize = n;
    proof {
        assert(s@.take(n as int) =~= s@);
    }
    while i > 0
        invariant
            i <= n,
            n == s@.len(),
            spec_last_index_of(s@, c) == spec_last_index_of(s@.take(i as int), c),
        decreases i,
    {
        let ch = s.get_char(i - 1);
        proof {
            assert(s@.take(i as int).last() == s@[i - 1]);
        }
        if ch == c {
            return Some(i - 1);
        }
        proof {
            assert(s@.take(i as int).drop_last() =~= s@.take(i - 1));
        }
        i = i - 1;
    }
    proof {
        assert(s@.take(0) =~= Seq::<char>::empty());
    }
    None
}

/// The file name of a path: everything behind the last separator
/// (the whole path when it has no separator).
pub open spec fn spec_file_name(p: Seq<char>) -> Seq<char> {
    p.skip(spec_last_index_of(p, '/') + 1)
}

/// The extension of a file name, as `Path::extension` reads it: the part
/// behind the last dot, unless the only dot is the leading character or
/// there is none.
pub open spec fn spec_ext_of_name(f: Seq<char>) -> Option<Seq<char>> {
    let d = spec_last_index_of(f, '.');
    if d <= 0 {
        None
    } else {
        Some(f.skip(d + 1))
    }
}

/// The extension of a path: the extension of its file name.
pub open spec fn spec_extension(p: Seq<char>) -> Option<Seq<char>> {
    spec_ext_of_name(spec_file_name(p))
}

pub fn file_name_of(p: &str) -> (r: String)
    ensures
        r@ == spec_file_name(p@),
{
    proof {
        lemma_last_index_of_bounds(p@, '/');
    }
    let n = p.unicode_len();
    match last_index_of(p, '/') {
        Some(j) => {
            let sub = p.substring_char(j + 1, n);
            proof {
                assert(sub@ =~= p@.skip(j + 1));
            }
            sub.to_owned()
        },
        None => {
            proof {
                assert(p@.skip(0) =~= p@);
            }
            p.to_owned()
        },
    }
}

pub fn extension_of(p: &str) -> (r: Option<String>)
    ensures
        match r {
            Some(e) => spec_extension(p@) == Some(e@),
            None => spec_extension(p@) is None,
        },
{
    let name = file_name_of(p);
    proof {
        lemma_last_index_of_bounds(name@, '.');
    }
    let n = name.unicode_len();
    match last_index_of(name.as_str(), '.') {
        Some(j) => {
            if j == 0 {
                None
            } else {
                let sub = name.as_str().substring_char(j + 1, n);
                proof {
                    assert(sub@ =~= name@.skip(j + 1));
                }
                Some(sub.to_owned())
            }
        },
        None => None,
    }
}

/// `f` lies strictly under the directory `d`: it continues `d` behind a
/// separator.
pub open spec fn spec_is_under(f: Seq<char>, d: Seq<char>) -> bool {
    f.len() > d.len() && f.take(d.len() as int) == d && f[d.len() as int] == '/'
}

pub fn is_under(f: &str, d: &str) -> (r: bool)
    ensures
        r == spec_is_under(f@, d@),
{
    let nf = f.unicode_len();
    let nd = d.unicode_len();
    if nf <= nd {
        proof {
            assert(!spec_is_under(f@, d@));
        }
        return false;
    }
    if f.get_char(nd) != '/' {
        return false;
    }
    let mut i: usize = 0;
    while i < nd
        invariant
            i <= nd,
            nd == d@.len(),
            nf == f@.len(),
            nd < nf,
            f@[nd as int] == '/',
            forall|k: int| 0 <= k < i ==> f@[k] == d@[k],
        decreases nd - i,
    {
        if f.get_char(i) != d.get_char(i) {
            proof {
                assert(f@.take(nd as int)[i as int] != d@[i as int]);
            }
            return false;
        }
        i = i + 1;
    }
    proof {
        assert(f@.take(nd as int) =~= d@);
    }
    true
}

} // verus!
