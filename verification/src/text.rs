use vstd::prelude::*;

verus! {

/// Lexicographic strict order on character sequences, by code point.
/// A proper prefix sorts before every extension of it.
pub open spec fn seq_char_lt(a: Seq<char>, b: Seq<char>) -> bool
    decreases a.len(),
{
    if b.len() == 0 {
        false
    } else if a.len() == 0 {
        true
    } else if a[0] != b[0] {
        a[0] < b[0]
    } else {
        seq_char_lt(a.skip(1), b.skip(1))
    }
}

/// Exactly one of `a < b`, `a == b`, `b < a` holds.
pub proof fn lemma_seq_char_lt_trichotomy(a: Seq<char>, b: Seq<char>)
    ensures
        seq_char_lt(a, b) || seq_char_lt(b, a) || a =~= b,
        seq_char_lt(a, b) ==> !seq_char_lt(b, a) && !(a =~= b),
        seq_char_lt(b, a) ==> !seq_char_lt(a, b) && !(b =~= a),
    decreases a.len(),
{
    if a.len() == 0 || b.len() == 0 {
    } else if a[0] != b[0] {
    } else {
        lemma_seq_char_lt_trichotomy(a.skip(1), b.skip(1));
        if a.skip(1) =~= b.skip(1) {
            assert(a =~= b) by {
                assert(forall|i: int|
                    1 <= i < a.len() ==> a[i] == a.skip(1)[i - 1] && b[i] == b.skip(1)[i - 1]);
            }
        }
        if a =~= b {
            assert(a.skip(1) =~= b.skip(1));
        }
    }
}

pub proof fn lemma_seq_char_lt_transitive(a: Seq<char>, b: Seq<char>, c: Seq<char>)
    requires
        seq_char_lt(a, b),
        seq_char_lt(b, c),
    ensures
        seq_char_lt(a, c),
    decreases a.len(),
{
    if c.len() == 0 {
    } else if a.len() == 0 {
    } else {
        // b is nonempty: seq_char_lt(a, b) with a nonempty forces b nonempty.
        assert(b.len() > 0);
        if a[0] == b[0] && b[0] == c[0] {
            lemma_seq_char_lt_transitive(a.skip(1), b.skip(1), c.skip(1));
        } else {
        }
    }
}

/// Compares two strings in the order of `seq_char_lt`.
pub fn str_lt(a: &str, b: &str) -> (r: bool)
    ensures
        r == seq_char_lt(a@, b@),
    decreases a@.len(),
{
    let b_len: usize = b.unicode_len();
    let a_len: usize = a.unicode_len();
    if b_len == 0 {
        false
    } else if a_len == 0 {
        true
    } else {
        let ca: char = a.get_char(0);
        let cb: char = b.get_char(0);
        if ca != cb {
            ca < cb
        } else {
            let a_rest: &str = a.substring_char(1, a_len);
            let b_rest: &str = b.substring_char(1, b_len);
            proof {
                assert(a_rest@ =~= a@.skip(1));
                assert(b_rest@ =~= b@.skip(1));
            }
            str_lt(a_rest, b_rest)
        }
    }
}

/// Equality of two strings, reflected to their views.
pub fn str_eq(a: &String, b: &String) -> (r: bool)
    ensures
        r == (a@ == b@),
{
    a.eq(b)
}

/// `p` occurs at position `i` of `s`.
pub open spec fn matches_at(s: Seq<char>, p: Seq<char>, i: int) -> bool {
    0 <= i && i + p.len() <= s.len() && s.subrange(i, i + p.len() as int) =~= p
}

/// `p` is a (not necessarily proper) prefix of `s`.
pub open spec fn is_prefix_of(p: Seq<char>, s: Seq<char>) -> bool {
    matches_at(s, p, 0)
}

/// `p` is a (not necessarily proper) suffix of `s`.
pub open spec fn is_suffix_of(p: Seq<char>, s: Seq<char>) -> bool {
    p.len() <= s.len() && matches_at(s, p, s.len() - p.len())
}

/// `p` occurs somewhere in `s`.
pub open spec fn is_substring_of(p: Seq<char>, s: Seq<char>) -> bool {
    exists|i: int| matches_at(s, p, i)
}

/// Checks whether `p` occurs at position `i` of `s`.
fn check_match_at(s: &str, p: &str, i: usize, s_len: usize, p_len: usize) -> (r: bool)
    requires
        s_len == s@.len(),
        p_len == p@.len(),
        i + p_len <= s_len,
    ensures
        r == matches_at(s@, p@, i as int),
{
    let mut k: usize = 0;
    while k < p_len
        invariant
            0 <= k <= p_len,
            s_len == s@.len(),
            p_len == p@.len(),
            i + p_len <= s_len,
            forall|j: int| 0 <= j < k ==> s@[i + j] == p@[j],
        decreases p_len - k,
    {
        if s.get_char(i + k) != p.get_char(k) {
            proof {
                assert(s@.subrange(i as int, i + p@.len() as int)[k as int] == s@[i + k]);
            }
            return false;
        }
        k = k + 1;
    }
    proof {
        assert(s@.subrange(i as int, i + p@.len() as int) =~= p@);
    }
    true
}

/// Whether `p` occurs as a contiguous substring of `s`.
pub fn str_contains(s: &String, p: &String) -> (r: bool)
    ensures
        r == is_substring_of(p@, s@),
{
    let s_len: usize = s.as_str().unicode_len();
    let p_len: usize = p.as_str().unicode_len();
    if p_len > s_len {
        proof {
            assert(forall|i: int| !matches_at(s@, p@, i));
        }
        return false;
    }
    let mut i: usize = 0;
    while i <= s_len - p_len
        invariant
            s_len == s@.len(),
            p_len == p@.len(),
            p_len <= s_len,
            0 <= i <= s_len - p_len + 1,
            forall|j: int| 0 <= j < i ==> !matches_at(s@, p@, j),
        decreases s_len - p_len + 1 - i,
    {
        if check_match_at(s.as_str(), p.as_str(), i, s_len, p_len) {
            return true;
        }
        i = i + 1;
    }
    proof {
        assert(forall|j: int| !matches_at(s@, p@, j));
    }
    false
}

/// Whether `s` starts with `p`.
pub fn str_starts_with(s: &String, p: &String) -> (r: bool)
    ensures
        r == is_prefix_of(p@, s@),
{
    let s_len: usize = s.as_str().unicode_len();
    let p_len: usize = p.as_str().unicode_len();
    if p_len > s_len {
        return false;
    }
    check_match_at(s.as_str(), p.as_str(), 0, s_len, p_len)
}

/// Whether `s` ends with `p`.
pub fn str_ends_with(s: &String, p: &String) -> (r: bool)
    ensures
        r == is_suffix_of(p@, s@),
{
    let s_len: usize = s.as_str().unicode_len();
    let p_len: usize = p.as_str().unicode_len();
    if p_len > s_len {
        return false;
    }
    check_match_at(s.as_str(), p.as_str(), s_len - p_len, s_len, p_len)
}

/// The decimal digit character for `n`.
pub open spec fn digit_char(n: nat) -> char {
    if n == 0 {
        '0'
    } else if n == 1 {
        '1'
    } else if n == 2 {
        '2'
    } else if n == 3 {
        '3'
    } else if n == 4 {
        '4'
    } else if n == 5 {
        '5'
    } else if n == 6 {
        '6'
    } else if n == 7 {
        '7'
    } else if n == 8 {
        '8'
    } else {
        '9'
    }
}

/// The decimal digit sequence of `n`, without sign.
pub open spec fn dec_digits(n: nat) -> Seq<char>
    decreases n,
{
    if n < 10 {
        seq![digit_char(n)]
    } else {
        dec_digits(n / 10) + seq![digit_char(n % 10)]
    }
}

/// The decimal rendering of `n`, `-` prefixed when negative.
pub open spec fn dec_int(n: int) -> Seq<char> {
    if n < 0 {
        seq!['-'] + dec_digits((-n) as nat)
    } else {
        dec_digits(n as nat)
    }
}

fn digit_str(d: u64) -> (r: &'static str)
    requires
        d < 10,
    ensures
        r@ =~= seq![digit_char(d as nat)],
{
    if d == 0 {
        proof { reveal_strlit("0"); }
        "0"
    } else if d == 1 {
        proof { reveal_strlit("1"); }
        "1"
    } else if d == 2 {
        proof { reveal_strlit("2"); }
        "2"
    } else if d == 3 {
        proof { reveal_strlit("3"); }
        "3"
    } else if d == 4 {
        proof { reveal_strlit("4"); }
        "4"
    } else if d == 5 {
        proof { reveal_strlit("5"); }
        "5"
    } else if d == 6 {
        proof { reveal_strlit("6"); }
        "6"
    } else if d == 7 {
        proof { reveal_strlit("7"); }
        "7"
    } else if d == 8 {
        proof { reveal_strlit("8"); }
        "8"
    } else {
        proof { reveal_strlit("9"); }
        "9"
    }
}

/// Renders `n` in decimal.
pub fn u64_to_string(n: u64) -> (s: String)
    ensures
        s@ == dec_digits(n as nat),
    decreases n,
{
    if n < 10 {
        let s = String::from_str(digit_str(n));
        proof {
            assert(s@ =~= dec_digits(n as nat));
        }
        s
    } else {
        let mut s = u64_to_string(n / 10);
        s.append(digit_str(n % 10));
        proof {
            assert(s@ =~= dec_digits(n as nat));
        }
        s
    }
}

/// Renders `n` in decimal, `-` prefixed when negative.
pub fn i64_to_string(n: i64) -> (s: String)
    ensures
        s@ == dec_int(n as int),
{
    if n >= 0 {
        u64_to_string(n as u64)
    } else {
        let abs: u64 = ((-(n as i128)) as u64);
        proof { reveal_strlit("-"); }
        let mut s = String::from_str("-");
        let digits = u64_to_string(abs);
        s.append(digits.as_str());
        proof {
            assert(s@ =~= dec_int(n as int));
        }
        s
    }
}

} // verus!
