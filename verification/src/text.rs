use vstd::prelude::*;
use vstd::string::*;

verus! {

/// Whether `ndl` occurs somewhere in `hay` as a contiguous run of characters.
pub open spec fn contains_seq(hay: Seq<char>, ndl: Seq<char>) -> bool {
    exists|i: int| 0 <= i && i + ndl.len() <= hay.len() && #[trigger] hay.subrange(i, i + ndl.len()) == ndl
}

/// Character-for-character equality of two string slices.
pub fn str_eq(a: &str, b: &str) -> (r: bool)
    ensures
        r == (a@ == b@),
{
    let al = a.unicode_len();
    let bl = b.unicode_len();
    if al != bl {
        return false;
    }
    let mut i: usize = 0;
    while i < al
        invariant
            al == a@.len(),
            al == b@.len(),
            i <= al,
            forall|j: int| 0 <= j < i ==> a@[j] == b@[j],
        decreases al - i,
    {
        if a.get_char(i) != b.get_char(i) {
            return false;
        }
        i += 1;
    }
    proof {
        assert(a@ =~= b@);
    }
    true
}

/// Whether the characters of `ndl` appear in `hay` starting at position `i`.
fn window_eq(hay: &str, i: usize, ndl: &str) -> (r: bool)
    requires
        i + ndl@.len() <= hay@.len(),
        hay@.len() <= usize::MAX,
    ensures
        r == (hay@.subrange(i as int, i + ndl@.len()) == ndl@),
{
    let nl = ndl.unicode_len();
    let mut j: usize = 0;
    while j < nl
        invariant
            nl == ndl@.len(),
            i + nl <= hay@.len(),
            hay@.len() <= usize::MAX,
            j <= nl,
            forall|k: int| 0 <= k < j ==> hay@[i + k] == ndl@[k],
        decreases nl - j,
    {
        if hay.get_char(i + j) != ndl.get_char(j) {
            proof {
                assert(hay@.subrange(i as int, i + ndl@.len())[j as int] == hay@[i + j]);
            }
            return false;
        }
        j += 1;
    }
    proof {
        assert(hay@.subrange(i as int, i + ndl@.len()) =~= ndl@);
    }
    true
}

/// Substring search; a straightforward scan of every starting position.
pub fn contains_str(hay: &str, ndl: &str) -> (r: bool)
    ensures
        r == contains_seq(hay@, ndl@),
{
    let hl = hay.unicode_len();
    let nl = ndl.unicode_len();
    if nl > hl {
        return false;
    }
    if nl == 0 {
        proof {
            assert(hay@.subrange(0, 0 + ndl@.len() as int) =~= ndl@);
        }
        return true;
    }
    let mut i: usize = 0;
    while i <= hl - nl
        invariant
            hl == hay@.len(),
            nl == ndl@.len(),
            0 < nl <= hl,
            i <= hl - nl + 1,
            forall|k: int| 0 <= k < i ==> #[trigger] hay@.subrange(k, k + ndl@.len()) != ndl@,
        decreases hl - i,
    {
        if window_eq(hay, i, ndl) {
            return true;
        }
        i += 1;
    }
    false
}

/// Whether `ndl` occurs in `hay` at position `i` and nowhere earlier.
pub open spec fn is_first_at(hay: Seq<char>, ndl: Seq<char>, i: int) -> bool {
    &&& 0 <= i
    &&& i + ndl.len() <= hay.len()
    &&& hay.subrange(i, i + ndl.len()) == ndl
    &&& forall|k: int| 0 <= k < i ==> #[trigger] hay.subrange(k, k + ndl.len()) != ndl
}

/// The least position at which `ndl` occurs in `hay` (meaningful only
/// where it occurs at all).
pub open spec fn first_index(hay: Seq<char>, ndl: Seq<char>) -> int {
    choose|i: int| is_first_at(hay, ndl, i)
}

pub proof fn lemma_first_at_unique(hay: Seq<char>, ndl: Seq<char>, i: int, j: int)
    requires
        is_first_at(hay, ndl, i),
        is_first_at(hay, ndl, j),
    ensures
        i == j,
{
    if i < j {
        assert(hay.subrange(i, i + ndl.len()) != ndl);
    }
    if j < i {
        assert(hay.subrange(j, j + ndl.len()) != ndl);
    }
}

/// Substring search returning the first position of `ndl` in `hay`.
pub fn find_str(hay: &str, ndl: &str) -> (r: Option<usize>)
    ensures
        match r {
            Option::Some(i) => is_first_at(hay@, ndl@, i as int),
            Option::None => !contains_seq(hay@, ndl@),
        },
{
    let hl = hay.unicode_len();
    let nl = ndl.unicode_len();
    if nl > hl {
        return None;
    }
    if nl == 0 {
        proof {
            assert(hay@.subrange(0, 0 + ndl@.len() as int) =~= ndl@);
        }
        return Some(0);
    }
    let mut i: usize = 0;
    while i <= hl - nl
        invariant
            hl == hay@.len(),
            nl == ndl@.len(),
            0 < nl <= hl,
            i <= hl - nl + 1,
            forall|k: int| 0 <= k < i ==> #[trigger] hay@.subrange(k, k + ndl@.len()) != ndl@,
        decreases hl - i,
    {
        if window_eq(hay, i, ndl) {
            return Some(i);
        }
        i += 1;
    }
    None
}

/// The whitespace a trim strips: space, tab, and line ends.
pub open spec fn is_space_char(c: char) -> bool {
    c == ' ' || c == '\t' || c == '\n' || c == '\r'
}

fn is_space(c: char) -> (r: bool)
    ensures
        r == is_space_char(c),
{
    c == ' ' || c == '\t' || c == '\n' || c == '\r'
}

/// `s` with leading and trailing whitespace stripped.
pub open spec fn spec_trim(s: Seq<char>) -> Seq<char>
    decreases s.len(),
{
    if s.len() > 0 && is_space_char(s[0]) {
        spec_trim(s.drop_first())
    } else if s.len() > 0 && is_space_char(s.last()) {
        spec_trim(s.drop_last())
    } else {
        s
    }
}

proof fn lemma_trim_range(s: Seq<char>, a: int, b: int)
    requires
        0 <= a <= b <= s.len(),
        forall|j: int| 0 <= j < a ==> is_space_char(#[trigger] s[j]),
        forall|j: int| b <= j < s.len() ==> is_space_char(#[trigger] s[j]),
        a < b ==> !is_space_char(s[a]),
        a < b ==> !is_space_char(s[b - 1]),
        a == b ==> b == s.len(),
    ensures
        spec_trim(s) == s.subrange(a, b),
    decreases s.len(),
{
    if a > 0 {
        assert(is_space_char(s[0]));
        lemma_trim_range(s.drop_first(), a - 1, b - 1);
        assert(s.drop_first().subrange(a - 1, b - 1) =~= s.subrange(a, b));
    } else if b < s.len() {
        assert(a < b);
        assert(!is_space_char(s[0]));
        assert(is_space_char(s.last()));
        lemma_trim_range(s.drop_last(), a, b);
        assert(s.drop_last().subrange(a, b) =~= s.subrange(a, b));
    } else {
        assert(s.subrange(0, s.len() as int) =~= s);
        if s.len() > 0 {
            assert(!is_space_char(s[0]));
            assert(!is_space_char(s.last()));
        }
    }
}

/// Strip leading and trailing whitespace.
pub fn trim_str(s: &str) -> (r: &str)
    ensures
        r@ == spec_trim(s@),
{
    let len = s.unicode_len();
    let mut a: usize = 0;
    while a < len && is_space(s.get_char(a))
        invariant
            len == s@.len(),
            a <= len,
            forall|j: int| 0 <= j < a ==> is_space_char(#[trigger] s@[j]),
        decreases len - a,
    {
        a += 1;
    }
    let mut b: usize = len;
    while b > a && is_space(s.get_char(b - 1))
        invariant
            len == s@.len(),
            a <= b <= len,
            a == len || !is_space_char(s@[a as int]),
            a < len ==> b > a,
            forall|j: int| b <= j < len ==> is_space_char(#[trigger] s@[j]),
        decreases b,
    {
        b -= 1;
    }
    proof {
        lemma_trim_range(s@, a as int, b as int);
    }
    s.substring_char(a, b)
}

} // verus!
