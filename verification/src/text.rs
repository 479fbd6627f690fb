//! String helpers: equality, prefix tests, lowercasing and trimming.

use vstd::prelude::*;

verus! {

broadcast use vstd::string::group_string_axioms;

/// The Unicode lowercase mapping that `str::to_lowercase` computes, as an
/// opaque function of the character sequence.
pub uninterp spec fn lower_of(s: Seq<char>) -> Seq<char>;

/// The Unicode `White_Space` property that `char::is_whitespace` tests.
pub uninterp spec fn is_unicode_ws(c: char) -> bool;

/// Characters that the Unicode lowercase mapping leaves in place: the ASCII
/// lowercase letters, the space, and the already-lowercase 'e' with acute
/// accent. These cover every canonical label of this crate.
pub open spec fn lower_invariant_char(c: char) -> bool {
    (97 <= c as u32 && c as u32 <= 122) || c == ' ' || c == 'é'
}

/// Relies on `str::to_lowercase`: the result is the Unicode lowercase mapping
/// of the input, a function of the characters alone; characters that are
/// already lowercase (or have no lowercase mapping) are kept unchanged.
#[verifier::external_body]
pub(crate) fn lowercase(s: &str) -> (r: String)
    ensures
        r@ == lower_of(s@),
        (forall|i: int| 0 <= i < s@.len() ==> lower_invariant_char(s@[i])) ==> r@ == s@,
{
    s.to_lowercase()
}

/// Relies on `char::is_whitespace`: a property of the character alone
/// (the Unicode `White_Space` property).
#[verifier::external_body]
pub(crate) fn is_whitespace_char(c: char) -> (r: bool)
    ensures
        r == is_unicode_ws(c),
{
    c.is_whitespace()
}

/// Character-by-character string equality, so that contracts can speak of
/// the views being equal.
pub fn str_eq(a: &str, b: &str) -> (r: bool)
    ensures
        r == (a@ == b@),
{
    let alen = a.unicode_len();
    let blen = b.unicode_len();
    if alen != blen {
        return false;
    }
    let mut i: usize = 0;
    while i < alen
        invariant
            alen == a@.len(),
            blen == b@.len(),
            alen == blen,
            0 <= i <= alen,
            forall|j: int| 0 <= j < i ==> a@[j] == b@[j],
        decreases alen - i,
    {
        if a.get_char(i) != b.get_char(i) {
            return false;
        }
        i = i + 1;
    }
    proof {
        assert(a@ =~= b@);
    }
    true
}

/// Whether `prefix` starts `s`.
pub fn str_starts_with(s: &str, prefix: &str) -> (r: bool)
    ensures
        r == prefix@.is_prefix_of(s@),
{
    let slen = s.unicode_len();
    let plen = prefix.unicode_len();
    if plen > slen {
        return false;
    }
    let mut i: usize = 0;
    while i < plen
        invariant
            slen == s@.len(),
            plen == prefix@.len(),
            plen <= slen,
            0 <= i <= plen,
            forall|j: int| 0 <= j < i ==> s@[j] == prefix@[j],
        decreases plen - i,
    {
        if s.get_char(i) != prefix.get_char(i) {
            proof {
                assert(!prefix@.is_prefix_of(s@)) by {
                    assert(s@.subrange(0, plen as int)[i as int] == s@[i as int]);
                }
            }
            return false;
        }
        i = i + 1;
    }
    proof {
        assert(prefix@ =~= s@.subrange(0, plen as int));
    }
    true
}

/// `s` with leading whitespace removed.
pub open spec fn trim_front_spec(s: Seq<char>) -> Seq<char>
    decreases s.len(),
{
    if s.len() > 0 && is_unicode_ws(s[0]) {
        trim_front_spec(s.drop_first())
    } else {
        s
    }
}

/// `s` with trailing whitespace removed.
pub open spec fn trim_back_spec(s: Seq<char>) -> Seq<char>
    decreases s.len(),
{
    if s.len() > 0 && is_unicode_ws(s[s.len() - 1]) {
        trim_back_spec(s.drop_last())
    } else {
        s
    }
}

/// `s` with leading and trailing whitespace removed, as `str::trim` does.
pub open spec fn trim_spec(s: Seq<char>) -> Seq<char> {
    trim_back_spec(trim_front_spec(s))
}

proof fn lemma_trim_front_skip(s: Seq<char>, a: int)
    requires
        0 <= a <= s.len(),
        forall|i: int| 0 <= i < a ==> is_unicode_ws(s[i]),
        a < s.len() ==> !is_unicode_ws(s[a]),
    ensures
        trim_front_spec(s) =~= s.subrange(a, s.len() as int),
    decreases a,
{
    if a == 0 {
        if s.len() > 0 {
            assert(!is_unicode_ws(s[0]));
        }
        assert(trim_front_spec(s) == s);
    } else {
        assert(is_unicode_ws(s[0]));
        lemma_trim_front_skip(s.drop_first(), a - 1);
    }
}

proof fn lemma_trim_back_take(s: Seq<char>, b: int)
    requires
        0 <= b <= s.len(),
        forall|i: int| b <= i < s.len() ==> is_unicode_ws(s[i]),
        b > 0 ==> !is_unicode_ws(s[b - 1]),
    ensures
        trim_back_spec(s) =~= s.subrange(0, b),
    decreases s.len() - b,
{
    if b == s.len() {
        if s.len() > 0 {
            assert(!is_unicode_ws(s[s.len() - 1]));
        }
        assert(trim_back_spec(s) == s);
    } else {
        assert(is_unicode_ws(s[s.len() - 1]));
        lemma_trim_back_take(s.drop_last(), b);
    }
}

/// What `str::trim` returns, built from verified scans.
pub fn trim_str(s: &str) -> (r: String)
    ensures
        r@ == trim_spec(s@),
{
    let len = s.unicode_len();
    let mut a: usize = 0;
    while a < len && is_whitespace_char(s.get_char(a))
        invariant
            len == s@.len(),
            0 <= a <= len,
            forall|i: int| 0 <= i < a ==> is_unicode_ws(s@[i]),
        decreases len - a,
    {
        a = a + 1;
    }
    proof {
        lemma_trim_front_skip(s@, a as int);
    }
    let mut b: usize = len;
    while b > a && is_whitespace_char(s.get_char(b - 1))
        invariant
            len == s@.len(),
            0 <= a <= b <= len,
            forall|i: int| 0 <= i < a ==> is_unicode_ws(s@[i]),
            a < len ==> !is_unicode_ws(s@[a as int]),
            forall|i: int| b <= i < len ==> is_unicode_ws(s@[i]),
        decreases b,
    {
        b = b - 1;
    }
    let mid = s.substring_char(a, b);
    proof {
        let front = trim_front_spec(s@);
        assert(front =~= s@.subrange(a as int, len as int));
        lemma_trim_back_take(front, b - a);
        assert(front.subrange(0, b - a) =~= s@.subrange(a as int, b as int));
    }
    String::from_str(mid)
}


/// The position of the first occurrence of `c` in `s`, or `-1`.
pub open spec fn find_char_idx(s: Seq<char>, c: char) -> int
    decreases s.len(),
{
    if s.len() == 0 {
        -1
    } else if s[0] == c {
        0
    } else if find_char_idx(s.drop_first(), c) == -1 {
        -1
    } else {
        1 + find_char_idx(s.drop_first(), c)
    }
}

/// `find_char_idx` finds the first occurrence, or reports that there is none.
pub proof fn lemma_find_char_idx(s: Seq<char>, c: char)
    ensures
        find_char_idx(s, c) >= -1,
        find_char_idx(s, c) == -1 ==> forall|i: int| 0 <= i < s.len() ==> (#[trigger] s[i]) != c,
        find_char_idx(s, c) >= 0 ==> find_char_idx(s, c) < s.len(),
        find_char_idx(s, c) >= 0 ==> s[find_char_idx(s, c)] == c,
        forall|i: int| 0 <= i < find_char_idx(s, c) ==> (#[trigger] s[i]) != c,
        (find_char_idx(s, c) == -1) <==> !s.contains(c),
    decreases s.len(),
{
    if s.len() > 0 && s[0] != c {
        lemma_find_char_idx(s.drop_first(), c);
        let d = s.drop_first();
        let r = find_char_idx(d, c);
        assert(r >= -1);
        if r >= 0 {
            assert forall|i: int| 0 <= i < find_char_idx(s, c) implies (#[trigger] s[i]) != c by {
                if i > 0 {
                    assert(d[i - 1] != c);
                    assert(d[i - 1] == s[i]);
                }
            }
        } else {
            assert forall|i: int| 0 <= i < s.len() implies (#[trigger] s[i]) != c by {
                if i > 0 {
                    assert(d[i - 1] != c);
                    assert(d[i - 1] == s[i]);
                }
            }
        }
    }
    if find_char_idx(s, c) == -1 {
        if s.contains(c) {
            let i = choose|i: int| 0 <= i < s.len() && s[i] == c;
            assert(s[i] != c);
        }
    } else {
        assert(s.contains(c)) by {
            assert(s[find_char_idx(s, c)] == c);
        }
    }
}

/// A position whose prefix is free of `c` and that holds `c` is the first.
pub proof fn lemma_find_char_idx_at(s: Seq<char>, c: char, k: int)
    requires
        0 <= k < s.len(),
        s[k] == c,
        forall|i: int| 0 <= i < k ==> (#[trigger] s[i]) != c,
    ensures
        find_char_idx(s, c) == k,
    decreases k,
{
    if k > 0 {
        let d = s.drop_first();
        assert forall|i: int| 0 <= i < k - 1 implies (#[trigger] d[i]) != c by {
            assert(d[i] == s[i + 1]);
        }
        assert(d[k - 1] == s[k]);
        lemma_find_char_idx_at(d, c, k - 1);
        lemma_find_char_idx(d, c);
    }
}

/// The position of the first occurrence of `c`, scanning the characters.
#[verifier::loop_isolation(false)]
pub fn find_char(s: &str, c: char) -> (r: Option<usize>)
    ensures
        match r {
            Some(i) => find_char_idx(s@, c) == i as int,
            None => find_char_idx(s@, c) == -1,
        },
{
    let len = s.unicode_len();
    let mut i: usize = 0;
    while i < len && s.get_char(i) != c
        invariant
            0 <= i <= len,
            forall|j: int| 0 <= j < i ==> (#[trigger] s@[j]) != c,
        decreases len - i,
    {
        i = i + 1;
    }
    if i == len {
        proof {
            lemma_find_char_idx(s@, c);
            if find_char_idx(s@, c) >= 0 {
                assert(s@[find_char_idx(s@, c)] == c);
            }
        }
        None
    } else {
        proof {
            lemma_find_char_idx_at(s@, c, i as int);
        }
        Some(i)
    }
}

} // verus!
