use vstd::prelude::*;

verus! {

/// Why a path was rejected before any file was read.
pub enum PathCheckError {
    /// The path carries no readable file extension.
    NoExtension,
    /// The path has an extension, but not `json`.
    WrongExtension,
}

/// The last position of `c` in `s`, or -1 when `c` does not occur.
pub open spec fn last_index_of(s: Seq<char>, c: char) -> int
    decreases s.len(),
{
    if s.len() == 0 {
        -1
    } else if s[s.len() - 1] == c {
        s.len() - 1
    } else {
        last_index_of(s.subrange(0, s.len() - 1), c)
    }
}

/// The path with trailing separators dropped: the file name is read from the
/// component that stands before them.
pub open spec fn trim_trailing_slashes(p: Seq<char>) -> Seq<char>
    decreases p.len(),
{
    if p.len() > 0 && p[p.len() - 1] == '/' {
        trim_trailing_slashes(p.subrange(0, p.len() - 1))
    } else {
        p
    }
}

/// The final component of the path: what follows the last separator, once
/// trailing separators are dropped.
pub open spec fn file_name(p: Seq<char>) -> Seq<char> {
    let t = trim_trailing_slashes(p);
    t.subrange(last_index_of(t, '/') + 1, t.len() as int)
}

/// The extension of the path's file name: what follows the last dot. There
/// is none when the name has no dot, when its only dot leads the name (a
/// hidden file), or when the name is the parent-directory component.
pub open spec fn path_extension(p: Seq<char>) -> Option<Seq<char>> {
    let f = file_name(p);
    if f == seq!['.', '.'] {
        None
    } else {
        let j = last_index_of(f, '.');
        if j <= 0 {
            None
        } else {
            Some(f.subrange(j + 1, f.len() as int))
        }
    }
}

/// Accepts exactly the paths whose extension reads `json`; otherwise says
/// whether an extension was missing or merely wrong.
pub fn check_json_path(path: &str) -> (r: Result<(), PathCheckError>)
    ensures
        (r is Ok) == (path_extension(path@) == Some("json"@)),
        (r == Err::<(), PathCheckError>(PathCheckError::NoExtension)) == (path_extension(path@)
            is None),
        (r == Err::<(), PathCheckError>(PathCheckError::WrongExtension)) == (path_extension(path@)
            is Some && path_extension(path@)->0 != "json"@),
{
    let ghost pv = path@;
    let n = path.unicode_len();

    let mut e: usize = n;
    proof {
        assert(pv.subrange(0, n as int) =~= pv);
    }
    while e > 0 && path.get_char(e - 1) == '/'
        invariant
            e <= n,
            n == pv.len(),
            pv == path@,
            trim_trailing_slashes(pv) == trim_trailing_slashes(pv.subrange(0, e as int)),
        decreases e,
    {
        proof {
            assert(pv.subrange(0, e as int).subrange(0, e - 1) =~= pv.subrange(0, e - 1));
        }
        e = e - 1;
    }
    let ghost t = pv.subrange(0, e as int);
    proof {
        assert(trim_trailing_slashes(pv) == t);
    }

    let mut j: usize = e;
    proof {
        assert(t.subrange(0, e as int) =~= t);
    }
    while j > 0 && path.get_char(j - 1) != '/'
        invariant
            j <= e <= n,
            n == pv.len(),
            pv == path@,
            t == pv.subrange(0, e as int),
            last_index_of(t, '/') == last_index_of(t.subrange(0, j as int), '/'),
        decreases j,
    {
        proof {
            assert(t.subrange(0, j as int)[j - 1] == pv[j - 1]);
            assert(t.subrange(0, j as int).subrange(0, j - 1) =~= t.subrange(0, j - 1));
        }
        j = j - 1;
    }
    let ghost f = pv.subrange(j as int, e as int);
    proof {
        if j == 0 {
            assert(t.subrange(0, 0) =~= Seq::<char>::empty());
            assert(last_index_of(t, '/') == -1);
        } else {
            assert(t.subrange(0, j as int)[j - 1] == pv[j - 1]);
            assert(last_index_of(t, '/') == j - 1);
        }
        assert(t.subrange(j as int, t.len() as int) =~= f);
        assert(file_name(pv) == f);
    }

    if e - j == 2 && path.get_char(j) == '.' && path.get_char(j + 1) == '.' {
        proof {
            assert(f =~= seq!['.', '.']);
        }
        return Err(PathCheckError::NoExtension);
    }
    proof {
        assert(f == seq!['.', '.'] ==> (e - j == 2 && pv[j as int] == '.' && pv[j as int + 1]
            == '.'));
    }

    let mut k: usize = e;
    proof {
        assert(f.subrange(0, (e - j) as int) =~= f);
    }
    while k > j && path.get_char(k - 1) != '.'
        invariant
            j <= k <= e <= n,
            n == pv.len(),
            pv == path@,
            f == pv.subrange(j as int, e as int),
            last_index_of(f, '.') == last_index_of(f.subrange(0, (k - j) as int), '.'),
        decreases k,
    {
        proof {
            assert(f.subrange(0, (k - j) as int)[(k - j) as int - 1] == pv[k - 1]);
            assert(f.subrange(0, (k - j) as int).subrange(0, (k - j) as int - 1) =~= f.subrange(
                0,
                (k - 1 - j) as int,
            ));
        }
        k = k - 1;
    }
    proof {
        if k == j {
            assert(f.subrange(0, 0) =~= Seq::<char>::empty());
            assert(last_index_of(f, '.') == -1);
        } else {
            assert(f.subrange(0, (k - j) as int)[(k - j) as int - 1] == pv[k - 1]);
            assert(last_index_of(f, '.') == k - 1 - j);
        }
    }

    if k <= j + 1 {
        // no dot at all, or only a leading dot
        return Err(PathCheckError::NoExtension);
    }
    let ghost ext = f.subrange((k - j) as int, f.len() as int);
    proof {
        assert(path_extension(pv) == Some(ext));
        assert(ext =~= pv.subrange(k as int, e as int));
        reveal_strlit("json");
        assert("json"@ =~= seq!['j', 's', 'o', 'n']);
    }
    if e - k == 4 && path.get_char(k) == 'j' && path.get_char(k + 1) == 's' && path.get_char(k + 2)
        == 'o' && path.get_char(k + 3) == 'n' {
        proof {
            assert(ext =~= "json"@);
        }
        Ok(())
    } else {
        proof {
            assert(ext == "json"@ ==> (e - k == 4 && pv[k as int] == 'j' && pv[k as int + 1] == 's'
                && pv[k as int + 2] == 'o' && pv[k as int + 3] == 'n'));
        }
        Err(PathCheckError::WrongExtension)
    }
}

/// The diagnostic line that each rejection prints.
pub fn error_message(e: &PathCheckError) -> (r: &'static str)
    ensures
        *e == PathCheckError::NoExtension ==> r@ == "Error: Unable to read file extension."@,
        *e == PathCheckError::WrongExtension ==> r@ == "Error: Expected path to JSON file."@,
{
    match e {
        PathCheckError::NoExtension => "Error: Unable to read file extension.",
        PathCheckError::WrongExtension => "Error: Expected path to JSON file.",
    }
}

} // verus!
