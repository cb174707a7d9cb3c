//! Text primitives shared by the analyses: equality and the byte order in
//! which names are sorted, decimal rendering, and string building.
use vstd::prelude::*;
use vstd::string::*;
use vstd::utf8::*;

verus! {

broadcast use vstd::utf8::encode_utf8_decode_utf8;

/// Three-way result of comparing two values.
#[derive(Clone, Copy, Debug, PartialEq, Eq, Structural)]
pub enum Order {
    Less,
    Equal,
    Greater,
}

/// `a` and `b` agree on their first `k` elements.
pub open spec fn agree_upto(a: Seq<u8>, b: Seq<u8>, k: int) -> bool {
    forall|i: int| 0 <= i < k ==> a[i] == b[i]
}

/// Lexicographic order on byte strings: a proper prefix is smaller, otherwise
/// the first differing byte decides.
pub open spec fn bytes_lt(a: Seq<u8>, b: Seq<u8>) -> bool {
    exists|k: int|
        #![trigger agree_upto(a, b, k)]
        0 <= k <= a.len() && k <= b.len() && agree_upto(a, b, k) && ((k == a.len() && k
            < b.len()) || (k < a.len() && k < b.len() && a[k] < b[k]))
}

/// The order in which names are sorted: the order of their UTF-8 bytes, the
/// order of Rust's `str`.
pub open spec fn text_lt(a: Seq<char>, b: Seq<char>) -> bool {
    bytes_lt(encode_utf8(a), encode_utf8(b))
}

/// `a` comes no later than `b` in name order.
pub open spec fn text_le(a: Seq<char>, b: Seq<char>) -> bool {
    text_lt(a, b) || a == b
}

/// Index of the first position at which `a` and `b` differ, or the shorter length.
pub open spec fn first_difference(a: Seq<u8>, b: Seq<u8>, k: int) -> bool {
    &&& 0 <= k <= a.len()
    &&& k <= b.len()
    &&& agree_upto(a, b, k)
    &&& (k < a.len() && k < b.len() ==> a[k] != b[k])
}

proof fn lemma_first_difference_unique(a: Seq<u8>, b: Seq<u8>, k: int, j: int)
    requires
        first_difference(a, b, k),
        0 <= j <= a.len(),
        j <= b.len(),
        agree_upto(a, b, j),
    ensures
        j <= k,
{
    if j > k {
        assert(a[k] == b[k]);
    }
}

proof fn lemma_first_difference_exists(a: Seq<u8>, b: Seq<u8>) -> (k: int)
    ensures
        first_difference(a, b, k),
{
    lemma_first_difference_from(a, b, 0)
}

proof fn lemma_first_difference_from(a: Seq<u8>, b: Seq<u8>, start: int) -> (k: int)
    requires
        0 <= start <= a.len(),
        start <= b.len(),
        agree_upto(a, b, start),
    ensures
        first_difference(a, b, k),
    decreases a.len() - start,
{
    if start < a.len() && start < b.len() && a[start] == b[start] {
        assert(agree_upto(a, b, start + 1));
        lemma_first_difference_from(a, b, start + 1)
    } else {
        start
    }
}

/// `bytes_lt` decided at the first difference.
proof fn lemma_bytes_lt_at(a: Seq<u8>, b: Seq<u8>, k: int)
    requires
        first_difference(a, b, k),
    ensures
        bytes_lt(a, b) <==> ((k == a.len() && k < b.len()) || (k < a.len() && k < b.len() && a[k]
            < b[k])),
{
    if bytes_lt(a, b) {
        let j = choose|j: int|
            #![trigger agree_upto(a, b, j)]
            0 <= j <= a.len() && j <= b.len() && agree_upto(a, b, j) && ((j == a.len() && j
                < b.len()) || (j < a.len() && j < b.len() && a[j] < b[j]));
        lemma_first_difference_unique(a, b, k, j);
        if j < k {
            assert(a[j] == b[j]);
        }
    }
    if (k == a.len() && k < b.len()) || (k < a.len() && k < b.len() && a[k] < b[k]) {
        assert(agree_upto(a, b, k));
    }
}

/// Byte order is a strict total order.
pub proof fn lemma_bytes_lt_trichotomy(a: Seq<u8>, b: Seq<u8>)
    ensures
        bytes_lt(a, b) || a == b || bytes_lt(b, a),
        !(bytes_lt(a, b) && bytes_lt(b, a)),
        !(bytes_lt(a, b) && a == b),
{
    let k = lemma_first_difference_exists(a, b);
    lemma_bytes_lt_at(a, b, k);
    assert(first_difference(b, a, k));
    lemma_bytes_lt_at(b, a, k);
    if k == a.len() && k == b.len() {
        assert(a =~= b);
    }
}

pub proof fn lemma_bytes_lt_transitive(a: Seq<u8>, b: Seq<u8>, c: Seq<u8>)
    requires
        bytes_lt(a, b),
        bytes_lt(b, c),
    ensures
        bytes_lt(a, c),
{
    let k1 = lemma_first_difference_exists(a, b);
    let k2 = lemma_first_difference_exists(b, c);
    lemma_bytes_lt_at(a, b, k1);
    lemma_bytes_lt_at(b, c, k2);
    let k = if k1 < k2 {
        k1
    } else {
        k2
    };
    assert(agree_upto(a, c, k));
    assert(0 <= k <= a.len() && k <= c.len());
    if k < a.len() {
        if k1 < k2 {
            assert(b[k] == c[k]);
        } else if k2 < k1 {
            assert(a[k] == b[k]);
        }
        assert(a[k] < c[k]);
    } else {
        assert(k < c.len());
    }
}

/// Name order is a strict total order on character sequences.
pub proof fn lemma_text_lt_trichotomy(a: Seq<char>, b: Seq<char>)
    ensures
        text_lt(a, b) || a == b || text_lt(b, a),
        !(text_lt(a, b) && text_lt(b, a)),
        !(text_lt(a, b) && a == b),
{
    lemma_bytes_lt_trichotomy(encode_utf8(a), encode_utf8(b));
    if encode_utf8(a) == encode_utf8(b) {
        assert(decode_utf8(encode_utf8(a)) == decode_utf8(encode_utf8(b)));
    }
}

pub proof fn lemma_text_lt_transitive(a: Seq<char>, b: Seq<char>, c: Seq<char>)
    requires
        text_lt(a, b),
        text_lt(b, c),
    ensures
        text_lt(a, c),
{
    lemma_bytes_lt_transitive(encode_utf8(a), encode_utf8(b), encode_utf8(c));
}

/// Compares two byte strings in lexicographic order.
pub fn compare_bytes(a: &[u8], b: &[u8]) -> (r: Order)
    ensures
        r == Order::Less <==> bytes_lt(a@, b@),
        r == Order::Equal <==> a@ == b@,
        r == Order::Greater <==> bytes_lt(b@, a@),
{
    let n = if a.len() < b.len() {
        a.len()
    } else {
        b.len()
    };
    let mut k: usize = 0;
    while k < n
        invariant
            0 <= k <= n,
            n <= a@.len(),
            n <= b@.len(),
            n == a@.len() || n == b@.len(),
            agree_upto(a@, b@, k as int),
        decreases n - k,
    {
        if a[k] != b[k] {
            proof {
                assert(first_difference(a@, b@, k as int));
                assert(first_difference(b@, a@, k as int));
                lemma_bytes_lt_at(a@, b@, k as int);
                lemma_bytes_lt_at(b@, a@, k as int);
                lemma_bytes_lt_trichotomy(a@, b@);
            }
            if a[k] < b[k] {
                return Order::Less;
            } else {
                return Order::Greater;
            }
        }
        k = k + 1;
    }
    proof {
        assert(first_difference(a@, b@, k as int));
        assert(first_difference(b@, a@, k as int));
        lemma_bytes_lt_at(a@, b@, k as int);
        lemma_bytes_lt_at(b@, a@, k as int);
        lemma_bytes_lt_trichotomy(a@, b@);
    }
    if a.len() < b.len() {
        Order::Less
    } else if a.len() > b.len() {
        Order::Greater
    } else {
        assert(a@ =~= b@);
        Order::Equal
    }
}

/// Compares two texts in name order.
pub fn compare_text(a: &str, b: &str) -> (r: Order)
    ensures
        r == Order::Less <==> text_lt(a@, b@),
        r == Order::Equal <==> a@ == b@,
        r == Order::Greater <==> text_lt(b@, a@),
{
    let r = compare_bytes(a.as_bytes(), b.as_bytes());
    proof {
        lemma_text_lt_trichotomy(a@, b@);
        if encode_utf8(a@) == encode_utf8(b@) {
            assert(decode_utf8(encode_utf8(a@)) == decode_utf8(encode_utf8(b@)));
        }
    }
    r
}

/// Whether two texts are equal.
pub fn text_eq(a: &str, b: &str) -> (r: bool)
    ensures
        r == (a@ == b@),
{
    match compare_text(a, b) {
        Order::Equal => true,
        _ => false,
    }
}

/// Whether `a` comes strictly before `b` in name order.
pub fn text_less(a: &str, b: &str) -> (r: bool)
    ensures
        r == text_lt(a@, b@),
{
    match compare_text(a, b) {
        Order::Less => true,
        _ => false,
    }
}

/// Whether two optional texts are equal.
pub fn option_text_eq(a: &Option<String>, b: &Option<String>) -> (r: bool)
    ensures
        r == (opt_view(a) == opt_view(b)),
{
    match (a, b) {
        (Some(x), Some(y)) => text_eq(x.as_str(), y.as_str()),
        (None, None) => true,
        _ => false,
    }
}

/// The characters of an optional text.
pub open spec fn opt_view(a: &Option<String>) -> Option<Seq<char>> {
    match a {
        Some(s) => Some(s@),
        None => None,
    }
}

/// Copies a text.
pub fn copy_text(s: &String) -> (r: String)
    ensures
        r@ == s@,
{
    s.clone()
}

/// Copies an optional text.
pub fn copy_opt_text(s: &Option<String>) -> (r: Option<String>)
    ensures
        opt_view(&r) == opt_view(s),
{
    match s {
        Some(x) => Some(x.clone()),
        None => None,
    }
}

/// Copies a list of texts.
pub fn copy_texts(v: &Vec<String>) -> (r: Vec<String>)
    ensures
        texts_view(r@) == texts_view(v@),
{
    let mut r: Vec<String> = Vec::new();
    let mut i: usize = 0;
    while i < v.len()
        invariant
            i <= v@.len(),
            r@.len() == i,
            forall|j: int| 0 <= j < i ==> #[trigger] r@[j]@ == v@[j]@,
        decreases v@.len() - i,
    {
        r.push(v[i].clone());
        i = i + 1;
    }
    assert(texts_view(r@) =~= texts_view(v@));
    r
}

/// The characters of each text of a list.
pub open spec fn texts_view(v: Seq<String>) -> Seq<Seq<char>> {
    v.map_values(|s: String| s@)
}

/// Appends one character to a text.
#[verifier::external_body]
pub fn push_char(s: &mut String, c: char)
    ensures
        final(s)@ == old(s)@.push(c),
{
    s.push(c);
}

/// A text holding exactly the characters of `s`.
pub fn text_from(s: &str) -> (r: String)
    ensures
        r@ == s@,
{
    String::from_str(s)
}

/// Appends `other` to `s`.
pub fn append_text(s: &mut String, other: &str)
    ensures
        final(s)@ == old(s)@ + other@,
{
    s.append(other);
}

/// The decimal digits of `n`, most significant first.
pub open spec fn decimal(n: nat) -> Seq<char>
    decreases n,
{
    if n < 10 {
        seq![digit_char(n)]
    } else {
        decimal(n / 10).push(digit_char(n % 10))
    }
}

/// The character of a decimal digit.
pub open spec fn digit_char(d: nat) -> char {
    ((48 + d) as u8) as char
}

/// Renders `n` in decimal.
pub fn decimal_text(n: usize) -> (r: String)
    ensures
        r@ == decimal(n as nat),
    decreases n,
{
    if n < 10 {
        let mut s = String::new();
        let d = (48 + n) as u8;
        push_char(&mut s, d as char);
        proof {
            assert(s@ =~= seq![digit_char(n as nat)]);
        }
        s
    } else {
        let mut s = decimal_text(n / 10);
        let d = (48 + n % 10) as u8;
        push_char(&mut s, d as char);
        s
    }
}


/// `needle` occurs in `hay` at byte offset `i`.
pub open spec fn bytes_occur_at(hay: Seq<u8>, needle: Seq<u8>, i: int) -> bool {
    0 <= i && i + needle.len() <= hay.len() && hay.subrange(i, i + needle.len()) == needle
}

/// The text starts with `prefix`, byte for byte, as `str::starts_with` decides.
pub open spec fn text_starts_with(s: Seq<char>, prefix: Seq<char>) -> bool {
    bytes_occur_at(encode_utf8(s), encode_utf8(prefix), 0)
}

/// The text contains `needle`, byte for byte, as `str::contains` decides.
pub open spec fn text_contains(s: Seq<char>, needle: Seq<char>) -> bool {
    exists|i: int| #[trigger] bytes_occur_at(encode_utf8(s), encode_utf8(needle), i)
}

/// Whether `needle` occurs in `hay` at offset `i`.
fn bytes_match_at(hay: &[u8], needle: &[u8], i: usize) -> (r: bool)
    ensures
        r == bytes_occur_at(hay@, needle@, i as int),
{
    let n = hay.len();
    if i > n || needle.len() > n - i {
        return false;
    }
    let mut k: usize = 0;
    while k < needle.len()
        invariant
            n == hay@.len(),
            i + needle@.len() <= n,
            k <= needle@.len(),
            forall|j: int| 0 <= j < k ==> hay@[i + j] == needle@[j],
        decreases needle@.len() - k,
    {
        if hay[i + k] != needle[k] {
            proof {
                assert(hay@.subrange(i as int, i + needle@.len())[k as int] != needle@[k as int]);
            }
            return false;
        }
        k = k + 1;
    }
    assert(hay@.subrange(i as int, i + needle@.len()) =~= needle@);
    true
}

/// Whether the text starts with `prefix`.
pub fn starts_with_text(s: &str, prefix: &str) -> (r: bool)
    ensures
        r == text_starts_with(s@, prefix@),
{
    bytes_match_at(s.as_bytes(), prefix.as_bytes(), 0)
}

/// Whether the text contains `needle`.
pub fn contains_text(s: &str, needle: &str) -> (r: bool)
    ensures
        r == text_contains(s@, needle@),
{
    let hay = s.as_bytes();
    let pattern = needle.as_bytes();
    let mut i: usize = 0;
    while i < hay.len()
        invariant
            hay@ == encode_utf8(s@),
            pattern@ == encode_utf8(needle@),
            i <= hay@.len(),
            forall|j: int| 0 <= j < i ==> !#[trigger] bytes_occur_at(hay@, pattern@, j),
        decreases hay@.len() - i,
    {
        if bytes_match_at(hay, pattern, i) {
            return true;
        }
        i = i + 1;
    }
    if bytes_match_at(hay, pattern, i) {
        return true;
    }
    proof {
        assert forall|j: int| !#[trigger] bytes_occur_at(hay@, pattern@, j) by {
            if 0 <= j && j <= i {
            } else if j > hay@.len() {
            }
        }
    }
    false
}


/// The characters of a text.
pub fn chars_of(s: &str) -> (r: Vec<char>)
    ensures
        r@ == s@,
{
    let mut r: Vec<char> = Vec::new();
    for c in it: s.chars()
        invariant
            r@ == it.seq().take(it.index() as int),
    {
        r.push(c);
    }
    r
}


/// The character has the Unicode White_Space property, as `char::is_whitespace` decides.
pub open spec fn white_space(c: char) -> bool {
    let n = c as u32;
    ||| 0x9 <= n <= 0xd
    ||| n == 0x20
    ||| n == 0x85
    ||| n == 0xa0
    ||| n == 0x1680
    ||| 0x2000 <= n <= 0x200a
    ||| n == 0x2028
    ||| n == 0x2029
    ||| n == 0x202f
    ||| n == 0x205f
    ||| n == 0x3000
}

/// Whether the character is white space.
pub fn is_white_space(c: char) -> (r: bool)
    ensures
        r == white_space(c),
{
    let n = c as u32;
    (0x9 <= n && n <= 0xd) || n == 0x20 || n == 0x85 || n == 0xa0 || n == 0x1680 || (0x2000 <= n && n <= 0x200a)
        || n == 0x2028 || n == 0x2029 || n == 0x202f || n == 0x205f || n == 0x3000
}

/// Every character of the text is white space (the text trims to nothing).
pub open spec fn blank(s: Seq<char>) -> bool {
    forall|i: int| 0 <= i < s.len() ==> white_space(#[trigger] s[i])
}

/// Whether the text is empty once trimmed.
pub fn is_blank(s: &str) -> (r: bool)
    ensures
        r == blank(s@),
{
    let chars = chars_of(s);
    let mut i: usize = 0;
    while i < chars.len()
        invariant
            chars@ == s@,
            i <= chars@.len(),
            forall|j: int| 0 <= j < i ==> white_space(#[trigger] chars@[j]),
        decreases chars@.len() - i,
    {
        if !is_white_space(chars[i]) {
            return false;
        }
        i = i + 1;
    }
    true
}

/// The first `n` characters with white space trimmed at both ends and each
/// inner run of it replaced by one space; the flag tells whether a run of
/// white space is pending after the last word.
pub open spec fn squeezed(s: Seq<char>, n: int) -> (Seq<char>, bool)
    decreases n,
{
    if n <= 0 {
        (Seq::empty(), false)
    } else {
        let (out, gap) = squeezed(s, n - 1);
        let c = s[n - 1];
        if white_space(c) {
            (out, out.len() > 0)
        } else if gap {
            (out.push(' ').push(c), false)
        } else {
            (out.push(c), false)
        }
    }
}

/// The text's words joined by single spaces.
pub open spec fn normalize_space(s: Seq<char>) -> Seq<char> {
    squeezed(s, s.len() as int).0
}

/// A text holding exactly the given characters.
pub fn text_of_chars(chars: &Vec<char>) -> (r: String)
    ensures
        r@ == chars@,
{
    let mut r = String::new();
    let mut i: usize = 0;
    while i < chars.len()
        invariant
            i <= chars@.len(),
            r@ == chars@.take(i as int),
        decreases chars@.len() - i,
    {
        push_char(&mut r, chars[i]);
        proof {
            assert(chars@.take(i + 1) == chars@.take(i as int).push(chars@[i as int]));
        }
        i = i + 1;
    }
    proof {
        assert(chars@.take(i as int) == chars@);
    }
    r
}

/// The text's words joined by single spaces, as characters.
pub fn normalized_chars(s: &str) -> (r: Vec<char>)
    ensures
        r@ == normalize_space(s@),
{
    let chars = chars_of(s);
    let mut out: Vec<char> = Vec::new();
    let mut gap = false;
    let mut i: usize = 0;
    while i < chars.len()
        invariant
            chars@ == s@,
            i <= chars@.len(),
            (out@, gap) == squeezed(s@, i as int),
        decreases chars@.len() - i,
    {
        let c = chars[i];
        if is_white_space(c) {
            gap = out.len() > 0;
        } else {
            if gap {
                out.push(' ');
            }
            out.push(c);
            gap = false;
        }
        i = i + 1;
    }
    out
}

} // verus!
