//! Character-level helpers on strings.

use vstd::prelude::*;
use vstd::string::StrSliceExecFns;

verus! {

broadcast use vstd::string::group_string_axioms;

/// The characters of `s`, in order.
pub fn chars_of(s: &str) -> (v: Vec<char>)
    ensures
        v@ == s@,
{
    let mut v: Vec<char> = Vec::new();
    for c in it: s.chars()
        invariant
            v@ == it.seq().take(it.index() as int),
    {
        v.push(c);
    }
    v
}

/// Calls `String::push`. Claimed, as its documentation states: `c` is appended.
#[verifier::external_body]
pub(crate) fn string_push(s: &mut String, c: char)
    ensures
        final(s)@ == old(s)@.push(c),
{
    s.push(c);
}

/// A string holding the characters `cs`.
pub fn string_from_chars(cs: &Vec<char>) -> (s: String)
    ensures
        s@ == cs@,
{
    let mut s = String::new();
    for i in 0..cs.len()
        invariant
            s@ == cs@.take(i as int),
    {
        string_push(&mut s, cs[i]);
        assert(cs@.take(i as int).push(cs@[i as int]) =~= cs@.take(i + 1));
    }
    assert(cs@.take(cs.len() as int) =~= cs@);
    s
}

/// `a` with the characters of `b` after it.
pub fn concat(a: &str, b: &str) -> (s: String)
    ensures
        s@ == a@ + b@,
{
    let mut s = a.to_string();
    s.append(b);
    s
}

/// Whether the two strings hold the same characters.
pub fn same_chars(a: &str, b: &str) -> (eq: bool)
    ensures
        eq == (a@ == b@),
{
    let x = chars_of(a);
    let y = chars_of(b);
    if x.len() != y.len() {
        return false;
    }
    for i in 0..x.len()
        invariant
            x@ == a@,
            y@ == b@,
            x@.len() == y@.len(),
            forall|j: int| 0 <= j < i ==> x@[j] == y@[j],
    {
        if x[i] != y[i] {
            return false;
        }
    }
    assert(x@ =~= y@);
    true
}

/// The characters with the Unicode `White_Space` property.
pub open spec fn is_whitespace(c: char) -> bool {
    let v = c as u32;
    ||| 0x09 <= v <= 0x0d
    ||| v == 0x20
    ||| v == 0x85
    ||| v == 0xa0
    ||| v == 0x1680
    ||| 0x2000 <= v <= 0x200a
    ||| v == 0x2028
    ||| v == 0x2029
    ||| v == 0x202f
    ||| v == 0x205f
    ||| v == 0x3000
}

/// Whether `c` has the Unicode `White_Space` property.
pub fn char_is_whitespace(c: char) -> (b: bool)
    ensures
        b == is_whitespace(c),
{
    let v = c as u32;
    (0x09 <= v && v <= 0x0d) || v == 0x20 || v == 0x85 || v == 0xa0 || v == 0x1680 || (0x2000
        <= v && v <= 0x200a) || v == 0x2028 || v == 0x2029 || v == 0x202f || v == 0x205f || v
        == 0x3000
}

/// The number of leading whitespace characters.
pub open spec fn leading_ws(s: Seq<char>) -> nat
    decreases s.len(),
{
    if s.len() > 0 && is_whitespace(s[0]) {
        1 + leading_ws(s.drop_first())
    } else {
        0
    }
}

/// The number of trailing whitespace characters.
pub open spec fn trailing_ws(s: Seq<char>) -> nat
    decreases s.len(),
{
    if s.len() > 0 && is_whitespace(s.last()) {
        1 + trailing_ws(s.drop_last())
    } else {
        0
    }
}

/// `s` without its leading and trailing whitespace.
pub open spec fn trim_spec(s: Seq<char>) -> Seq<char> {
    if leading_ws(s) == s.len() {
        Seq::empty()
    } else {
        s.subrange(leading_ws(s) as int, s.len() - trailing_ws(s))
    }
}

proof fn lemma_leading_ws(s: Seq<char>, k: int)
    requires
        0 <= k <= s.len(),
        forall|j: int| 0 <= j < k ==> is_whitespace(#[trigger] s[j]),
    ensures
        leading_ws(s) == k + leading_ws(s.skip(k)),
        leading_ws(s) <= s.len(),
    decreases k,
{
    lemma_leading_ws_bound(s);
    if k > 0 {
        assert(s.drop_first().skip(k - 1) =~= s.skip(k));
        lemma_leading_ws(s.drop_first(), k - 1);
    } else {
        assert(s.skip(0) =~= s);
    }
}

proof fn lemma_leading_ws_bound(s: Seq<char>)
    ensures
        leading_ws(s) <= s.len(),
    decreases s.len(),
{
    if s.len() > 0 {
        lemma_leading_ws_bound(s.drop_first());
    }
}

proof fn lemma_trailing_ws(s: Seq<char>, k: int)
    requires
        0 <= k <= s.len(),
        forall|j: int| s.len() - k <= j < s.len() ==> is_whitespace(#[trigger] s[j]),
    ensures
        trailing_ws(s) == k + trailing_ws(s.take(s.len() - k)),
    decreases k,
{
    if k > 0 {
        assert(s.drop_last().take(s.drop_last().len() - (k - 1)) =~= s.take(s.len() - k));
        lemma_trailing_ws(s.drop_last(), k - 1);
    } else {
        assert(s.take(s.len() as int) =~= s);
    }
}

proof fn lemma_leading_ws_chars(s: Seq<char>)
    ensures
        leading_ws(s) <= s.len(),
        forall|j: int| 0 <= j < leading_ws(s) ==> is_whitespace(#[trigger] s[j]),
        leading_ws(s) < s.len() ==> !is_whitespace(s[leading_ws(s) as int]),
    decreases s.len(),
{
    if s.len() > 0 && is_whitespace(s[0]) {
        lemma_leading_ws_chars(s.drop_first());
        assert forall|j: int| 0 <= j < leading_ws(s) implies is_whitespace(#[trigger] s[j]) by {
            if j > 0 {
                assert(s[j] == s.drop_first()[j - 1]);
            }
        }
        if leading_ws(s) < s.len() {
            assert(s[leading_ws(s) as int] == s.drop_first()[leading_ws(s.drop_first()) as int]);
        }
    }
}

proof fn lemma_trailing_ws_chars(s: Seq<char>)
    ensures
        trailing_ws(s) <= s.len(),
        forall|j: int| s.len() - trailing_ws(s) <= j < s.len() ==> is_whitespace(#[trigger] s[j]),
        trailing_ws(s) < s.len() ==> !is_whitespace(s[s.len() - trailing_ws(s) - 1]),
    decreases s.len(),
{
    if s.len() > 0 && is_whitespace(s.last()) {
        lemma_trailing_ws_chars(s.drop_last());
        assert forall|j: int| s.len() - trailing_ws(s) <= j < s.len() implies is_whitespace(#[trigger] s[j]) by {
            if j < s.len() - 1 {
                assert(s[j] == s.drop_last()[j]);
            }
        }
        if trailing_ws(s) < s.len() {
            assert(s[s.len() - trailing_ws(s) - 1] == s.drop_last()[s.drop_last().len() - trailing_ws(s.drop_last()) - 1]);
        }
    }
}

/// Trimming leaves the piece of `s` between its leading and its trailing whitespace:
/// every character before and after the piece is whitespace, and the piece, where it is
/// not empty, starts and ends with a character that is not.
pub proof fn lemma_trim_takes_off_whitespace(s: Seq<char>)
    ensures
        exists|a: int, b: int|
            #![trigger s.subrange(a, b)]
            {
                &&& 0 <= a <= b <= s.len()
                &&& trim_spec(s) == s.subrange(a, b)
                &&& forall|j: int| 0 <= j < a ==> is_whitespace(#[trigger] s[j])
                &&& forall|j: int| b <= j < s.len() ==> is_whitespace(#[trigger] s[j])
                &&& a < b ==> !is_whitespace(s[a]) && !is_whitespace(s[b - 1])
            },
{
    lemma_leading_ws_chars(s);
    lemma_trailing_ws_chars(s);
    let a = leading_ws(s) as int;
    if a == s.len() {
        assert(s.subrange(a, a) =~= trim_spec(s));
    } else {
        let b = s.len() - trailing_ws(s);
        assert(!is_whitespace(s[a]));
        assert(a < b) by {
            if b <= a {
                assert(is_whitespace(s[a]));
            }
        }
        assert(trim_spec(s) == s.subrange(a, b));
    }
}

/// `s` without its leading and trailing whitespace.
pub fn trim<'a>(s: &'a str) -> (r: &'a str)
    ensures
        r@ == trim_spec(s@),
{
    let cs = chars_of(s);
    let n = cs.len();
    let mut a: usize = 0;
    while a < n && char_is_whitespace(cs[a])
        invariant
            cs@ == s@,
            n == cs.len(),
            a <= n,
            forall|j: int| 0 <= j < a ==> is_whitespace(#[trigger] cs@[j]),
        decreases n - a,
    {
        a = a + 1;
    }
    proof {
        lemma_leading_ws(cs@, a as int);
        if a < n {
            assert(leading_ws(cs@.skip(a as int)) == 0);
        } else {
            assert(leading_ws(cs@.skip(a as int)) == 0);
        }
    }
    if a == n {
        return s.substring_char(0, 0);
    }
    let mut b: usize = n;
    while b > a && char_is_whitespace(cs[b - 1])
        invariant
            cs@ == s@,
            n == cs.len(),
            a < n,
            a <= b <= n,
            !is_whitespace(cs@[a as int]),
            forall|j: int| b <= j < n ==> is_whitespace(#[trigger] cs@[j]),
        decreases b,
    {
        b = b - 1;
    }
    proof {
        lemma_trailing_ws(cs@, n - b);
        assert(cs@.take(b as int).len() > 0);
        assert(trailing_ws(cs@.take(b as int)) == 0);
    }
    s.substring_char(a, b)
}

/// The number of bytes in a character's UTF-8 encoding.
pub open spec fn char_width(c: char) -> int {
    let v = c as u32;
    if v <= 0x7f {
        1
    } else if v <= 0x7ff {
        2
    } else if v <= 0xffff {
        3
    } else {
        4
    }
}

/// The number of bytes in the UTF-8 encoding of the characters.
pub open spec fn byte_len(s: Seq<char>) -> int
    decreases s.len(),
{
    if s.len() == 0 {
        0
    } else {
        byte_len(s.drop_last()) + char_width(s.last())
    }
}

/// `idx` is the byte offset of a character of `s`, or of its end.
pub open spec fn is_boundary(s: Seq<char>, idx: int) -> bool {
    exists|k: int| 0 <= k <= s.len() && byte_len(#[trigger] s.take(k)) == idx
}

/// The number of characters before byte offset `idx`, where `idx` is a boundary.
pub open spec fn char_at_byte(s: Seq<char>, idx: int) -> int {
    choose|k: int| 0 <= k <= s.len() && byte_len(#[trigger] s.take(k)) == idx
}

/// Byte lengths add up.
pub proof fn lemma_byte_len_concat(a: Seq<char>, b: Seq<char>)
    ensures
        byte_len(a + b) == byte_len(a) + byte_len(b),
    decreases b.len(),
{
    if b.len() == 0 {
        assert(a + b =~= a);
    } else {
        assert((a + b).drop_last() =~= a + b.drop_last());
        lemma_byte_len_concat(a, b.drop_last());
    }
}

/// Every character takes at least one byte.
pub proof fn lemma_byte_len_take(s: Seq<char>, j: int, k: int)
    requires
        0 <= j <= k <= s.len(),
    ensures
        byte_len(s.take(k)) >= byte_len(s.take(j)) + (k - j),
        byte_len(s.take(j)) >= 0,
    decreases k - j,
{
    if j < k {
        assert(s.take(k).drop_last() =~= s.take(k - 1));
        lemma_byte_len_take(s, j, k - 1);
    } else {
        lemma_byte_len_nonneg(s.take(j));
    }
}

pub proof fn lemma_byte_len_nonneg(s: Seq<char>)
    ensures
        byte_len(s) >= 0,
    decreases s.len(),
{
    if s.len() > 0 {
        lemma_byte_len_nonneg(s.drop_last());
    }
}

/// Putting in a character adds its width.
pub proof fn lemma_byte_len_insert(s: Seq<char>, k: int, c: char)
    requires
        0 <= k <= s.len(),
    ensures
        byte_len(s.insert(k, c)) == byte_len(s) + char_width(c),
        byte_len(s.push(c)) == byte_len(s) + char_width(c),
{
    assert(s.push(c).drop_last() =~= s);
    assert(s.insert(k, c) =~= (s.take(k) + seq![c]) + s.skip(k));
    assert(s =~= s.take(k) + s.skip(k));
    lemma_byte_len_concat(s.take(k) + seq![c], s.skip(k));
    lemma_byte_len_concat(s.take(k), seq![c]);
    lemma_byte_len_concat(s.take(k), s.skip(k));
    assert(seq![c].drop_last() =~= Seq::<char>::empty());
    assert(byte_len(Seq::<char>::empty()) == 0);
}

/// A byte offset is the boundary of at most one prefix.
pub proof fn lemma_boundary_unique(s: Seq<char>, idx: int, k: int)
    requires
        0 <= k <= s.len(),
        byte_len(s.take(k)) == idx,
    ensures
        is_boundary(s, idx),
        char_at_byte(s, idx) == k,
{
    let c = char_at_byte(s, idx);
    assert(byte_len(s.take(c)) == idx);
    if c < k {
        lemma_byte_len_take(s, c, k);
    } else if k < c {
        lemma_byte_len_take(s, k, c);
    }
}

/// The UTF-8 encoding of the characters has `byte_len` bytes.
pub proof fn lemma_encode_len(s: Seq<char>)
    ensures
        vstd::utf8::encode_utf8(s).len() == byte_len(s),
    decreases s.len(),
{
    if s.len() > 0 {
        lemma_encode_len(s.drop_first());
        lemma_byte_len_concat(seq![s[0]], s.drop_first());
        assert(seq![s[0]] + s.drop_first() =~= s);
        assert(seq![s[0]].drop_last() =~= Seq::<char>::empty());
        vstd::utf8::char_is_scalar(s[0]);
        assert(byte_len(Seq::<char>::empty()) == 0);
        assert(byte_len(seq![s[0]]) == char_width(s[0]));
        assert(vstd::utf8::encode_scalar(s[0] as u32).len() == char_width(s[0]));
        assert(vstd::utf8::encode_utf8(s) == vstd::utf8::encode_scalar(s[0] as u32)
            + vstd::utf8::encode_utf8(s.drop_first()));
    }
}

/// The number of bytes in the UTF-8 encoding of `s`, which a string in memory cannot
/// exceed the address space with.
pub fn byte_length(s: &str) -> (n: usize)
    requires
        byte_len(s@) <= usize::MAX,
    ensures
        n == byte_len(s@),
{
    proof {
        lemma_encode_len(s@);
    }
    s.len()
}

/// The number of bytes in the UTF-8 encoding of `c`.
pub fn char_byte_width(c: char) -> (w: usize)
    ensures
        w == char_width(c),
{
    let v = c as u32;
    if v <= 0x7f {
        1
    } else if v <= 0x7ff {
        2
    } else if v <= 0xffff {
        3
    } else {
        4
    }
}

/// The number of characters before byte offset `idx`, where it is a boundary.
pub fn char_index(cs: &Vec<char>, idx: usize) -> (r: Option<usize>)
    ensures
        r matches Some(k) ==> k <= cs@.len() && byte_len(cs@.take(k as int)) == idx && char_at_byte(cs@, idx as int) == k,
        r is None ==> !is_boundary(cs@, idx as int),
{
    let mut k: usize = 0;
    let mut sum: usize = 0;
    assert(cs@.take(0) =~= Seq::<char>::empty());
    while k < cs.len()
        invariant
            k <= cs.len(),
            sum == byte_len(cs@.take(k as int)),
            sum <= idx,
        decreases cs.len() - k,
    {
        if sum == idx {
            proof {
                lemma_boundary_unique(cs@, idx as int, k as int);
            }
            return Some(k);
        }
        let w = char_byte_width(cs[k]);
        assert(cs@.take(k + 1).drop_last() =~= cs@.take(k as int));
        if idx - sum < w {
            proof {
                assert forall|j: int| 0 <= j <= cs@.len() implies byte_len(#[trigger] cs@.take(j))
                    != idx by {
                    if j <= k {
                        lemma_byte_len_take(cs@, j, k as int);
                    } else {
                        lemma_byte_len_take(cs@, k + 1, j);
                    }
                }
            }
            return None;
        }
        sum = sum + w;
        k = k + 1;
    }
    if sum == idx {
        proof {
            lemma_boundary_unique(cs@, idx as int, k as int);
        }
        Some(k)
    } else {
        proof {
            assert forall|j: int| 0 <= j <= cs@.len() implies byte_len(#[trigger] cs@.take(j))
                != idx by {
                lemma_byte_len_take(cs@, j, k as int);
            }
        }
        None
    }
}

/// `s` without the character that starts at byte offset `idx`.
pub fn remove_at_byte(s: &String, idx: usize) -> (r: String)
    requires
        is_boundary(s@, idx as int),
        char_at_byte(s@, idx as int) < s@.len(),
    ensures
        r@ == s@.remove(char_at_byte(s@, idx as int)),
{
    let cs = chars_of(s.as_str());
    let k = char_index(&cs, idx).unwrap();
    let mut out: Vec<char> = Vec::new();
    for i in 0..cs.len()
        invariant
            k < cs.len(),
            out@ == (if i <= k { cs@.take(i as int) } else { cs@.take(i as int).remove(k as int) }),
    {
        if i != k {
            out.push(cs[i]);
        }
        assert(out@ =~= (if i + 1 <= k { cs@.take(i + 1) } else { cs@.take(i + 1).remove(k as int) }));
    }
    assert(cs@.take(cs.len() as int) =~= cs@);
    string_from_chars(&out)
}

/// `s` with `c` put in at byte offset `idx`.
pub fn insert_at_byte(s: &String, idx: usize, c: char) -> (r: String)
    requires
        is_boundary(s@, idx as int),
    ensures
        r@ == s@.insert(char_at_byte(s@, idx as int), c),
{
    let cs = chars_of(s.as_str());
    let k = char_index(&cs, idx).unwrap();
    let mut out: Vec<char> = Vec::new();
    for i in 0..cs.len()
        invariant
            k <= cs.len(),
            out@ == (if i <= k { cs@.take(i as int) } else { cs@.take(i as int).insert(k as int, c) }),
    {
        if i == k {
            out.push(c);
        }
        out.push(cs[i]);
        assert(out@ =~= (if i + 1 <= k { cs@.take(i + 1) } else { cs@.take(i + 1).insert(k as int, c) }));
    }
    assert(cs@.take(cs.len() as int) =~= cs@);
    if k == cs.len() {
        out.push(c);
    }
    assert(out@ =~= cs@.insert(k as int, c));
    string_from_chars(&out)
}

/// The number of bytes in the UTF-8 encoding of `s`, or `None` where it does not fit
/// in `usize`.
pub fn checked_byte_length(s: &str) -> (r: Option<usize>)
    ensures
        r matches Some(n) ==> n == byte_len(s@),
        r is None ==> byte_len(s@) > usize::MAX,
{
    let cs = chars_of(s);
    let mut sum: usize = 0;
    assert(cs@.take(0) =~= Seq::<char>::empty());
    for i in 0..cs.len()
        invariant
            cs@ == s@,
            sum == byte_len(cs@.take(i as int)),
    {
        let w = char_byte_width(cs[i]);
        assert(cs@.take(i + 1).drop_last() =~= cs@.take(i as int));
        if sum > usize::MAX - w {
            proof {
                lemma_byte_len_take(cs@, i + 1, cs@.len() as int);
                assert(cs@.take(cs@.len() as int) =~= cs@);
            }
            return None;
        }
        sum = sum + w;
    }
    assert(cs@.take(cs@.len() as int) =~= cs@);
    Some(sum)
}

/// Whether byte offset `idx` is the start of a character of `s`, or its end.
pub fn on_boundary(s: &str, idx: usize) -> (b: bool)
    ensures
        b == is_boundary(s@, idx as int),
{
    let cs = chars_of(s);
    char_index(&cs, idx).is_some()
}

} // verus!
