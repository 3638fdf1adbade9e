use vstd::prelude::*;

verus! {

// ---------------------------------------------------------------------------
// Decimal rendering of array indices
// ---------------------------------------------------------------------------

/// The character for one decimal digit.
pub open spec fn digit_char(d: nat) -> char {
    if d == 0 {
        '0'
    } else if d == 1 {
        '1'
    } else if d == 2 {
        '2'
    } else if d == 3 {
        '3'
    } else if d == 4 {
        '4'
    } else if d == 5 {
        '5'
    } else if d == 6 {
        '6'
    } else if d == 7 {
        '7'
    } else if d == 8 {
        '8'
    } else {
        '9'
    }
}

/// The canonical decimal text of a natural number: no sign, no leading zero
/// (except for the single digit of zero itself).
pub open spec fn dec_digits(n: nat) -> Seq<char>
    decreases n,
{
    if n < 10 {
        seq![digit_char(n)]
    } else {
        dec_digits(n / 10).push(digit_char(n % 10))
    }
}

fn digit_str(d: usize) -> (r: &'static str)
    requires
        d < 10,
    ensures
        r@ == seq![digit_char(d as nat)],
{
    proof {
        reveal_strlit("0");
        reveal_strlit("1");
        reveal_strlit("2");
        reveal_strlit("3");
        reveal_strlit("4");
        reveal_strlit("5");
        reveal_strlit("6");
        reveal_strlit("7");
        reveal_strlit("8");
        reveal_strlit("9");
    }
    match d {
        0 => "0",
        1 => "1",
        2 => "2",
        3 => "3",
        4 => "4",
        5 => "5",
        6 => "6",
        7 => "7",
        8 => "8",
        _ => "9",
    }
}

/// Renders an index exactly as the standard decimal formatting does.
pub fn usize_to_string(n: usize) -> (r: String)
    ensures
        r@ == dec_digits(n as nat),
    decreases n,
{
    if n < 10 {
        String::from_str(digit_str(n))
    } else {
        let mut s = usize_to_string(n / 10);
        s.append(digit_str(n % 10));
        proof {
            assert(s@ =~= dec_digits((n / 10) as nat).push(digit_char((n % 10) as nat)));
        }
        s
    }
}

// ---------------------------------------------------------------------------
// Joining path keys
// ---------------------------------------------------------------------------

/// The path of an object member: the parent path, a colon, and the member's
/// key -- except under an empty parent, where the key stands alone.
pub open spec fn join_object_key(parent: Seq<char>, key: Seq<char>) -> Seq<char> {
    if parent.len() == 0 {
        key
    } else {
        parent + seq![':'] + key
    }
}

/// The path of an array element: the parent path, a colon, and the decimal
/// index. Unlike the object rule, the colon is written even under an empty
/// parent.
pub open spec fn join_array_index(parent: Seq<char>, idx: nat) -> Seq<char> {
    parent + seq![':'] + dec_digits(idx)
}

pub fn object_child_key(parent: &str, key: &str) -> (r: String)
    ensures
        r@ == join_object_key(parent@, key@),
{
    if parent.is_empty() {
        String::from_str(key)
    } else {
        let mut s = String::from_str(parent);
        s.append(":");
        s.append(key);
        proof {
            reveal_strlit(":");
            assert(":"@ =~= seq![':']);
            assert(s@ =~= parent@ + seq![':'] + key@);
        }
        s
    }
}

pub fn array_child_key(parent: &str, idx: usize) -> (r: String)
    ensures
        r@ == join_array_index(parent@, idx as nat),
{
    let mut s = String::from_str(parent);
    s.append(":");
    let digits = usize_to_string(idx);
    s.append(digits.as_str());
    proof {
        reveal_strlit(":");
        assert(":"@ =~= seq![':']);
        assert(s@ =~= parent@ + seq![':'] + dec_digits(idx as nat));
    }
    s
}

// ---------------------------------------------------------------------------
// The connection-string prefix
// ---------------------------------------------------------------------------

/// The namespace that routes an entry into the connection-strings list.
pub open spec fn cs_prefix() -> Seq<char> {
    "ConnectionStrings"@
}

/// The namespace together with its separator, the marker that the routing
/// strips from a path.
pub open spec fn cs_marker() -> Seq<char> {
    "ConnectionStrings:"@
}

/// Whether a path begins with the connection-strings namespace.
pub open spec fn has_cs_prefix(p: Seq<char>) -> bool {
    p.len() >= cs_prefix().len() && p.subrange(0, cs_prefix().len() as int) == cs_prefix()
}

/// Whether the marker occurs in `p` at position `i`.
pub open spec fn marker_at(p: Seq<char>, i: int) -> bool {
    0 <= i && i + cs_marker().len() <= p.len() && p.subrange(i, i + cs_marker().len() as int)
        == cs_marker()
}

/// The position of the first occurrence of the marker at or after `i`, or -1
/// when there is none.
pub open spec fn find_marker_from(p: Seq<char>, i: int) -> int
    decreases p.len() + 1 - i,
{
    if i + cs_marker().len() > p.len() {
        -1
    } else if marker_at(p, i) {
        i
    } else {
        find_marker_from(p, i + 1)
    }
}

/// The path with the first occurrence of the marker removed; the path itself
/// when the marker does not occur in it.
pub open spec fn strip_cs_marker_spec(p: Seq<char>) -> Seq<char> {
    let i = find_marker_from(p, 0);
    if i < 0 {
        p
    } else {
        p.subrange(0, i) + p.subrange(i + cs_marker().len() as int, p.len() as int)
    }
}

fn str_equal(a: &str, b: &str) -> (r: bool)
    ensures
        r == (a@ == b@),
{
    let sa = String::from_str(a);
    let sb = String::from_str(b);
    sa == sb
}

pub fn path_has_cs_prefix(p: &str) -> (r: bool)
    ensures
        r == has_cs_prefix(p@),
{
    proof {
        reveal_strlit("ConnectionStrings");
    }
    let n = p.unicode_len();
    if n < 17 {
        false
    } else {
        let sub = p.substring_char(0, 17);
        str_equal(sub, "ConnectionStrings")
    }
}

pub fn strip_cs_marker(p: &str) -> (r: String)
    ensures
        r@ == strip_cs_marker_spec(p@),
{
    proof {
        reveal_strlit("ConnectionStrings:");
    }
    let n = p.unicode_len();
    if n < 18 {
        proof {
            assert(find_marker_from(p@, 0) == -1);
        }
        return String::from_str(p);
    }
    let mut i: usize = 0;
    while i <= n - 18
        invariant
            n == p@.len(),
            18 <= n,
            i <= n,
            cs_marker().len() == 18,
            find_marker_from(p@, 0) == find_marker_from(p@, i as int),
        decreases n - i,
    {
        let sub = p.substring_char(i, i + 18);
        if str_equal(sub, "ConnectionStrings:") {
            proof {
                assert(marker_at(p@, i as int));
                assert(find_marker_from(p@, i as int) == i as int);
            }
            let head = p.substring_char(0, i);
            let tail = p.substring_char(i + 18, n);
            let mut s = String::from_str(head);
            s.append(tail);
            return s;
        }
        proof {
            assert(!marker_at(p@, i as int));
        }
        i = i + 1;
    }
    proof {
        assert(i as int + cs_marker().len() > p@.len());
        assert(find_marker_from(p@, i as int) == -1);
    }
    String::from_str(p)
}

} // verus!
