//! Text primitives shared by the completion and quote logic: UTF-8 byte
//! offsets of characters, slicing by those offsets, comparison and line
//! splitting, all stated over the character sequence of a string.
use vstd::prelude::*;
use vstd::string::StringSliceAdditionalSpecFns;
use vstd::utf8::*;

verus! {

/// Number of bytes that UTF-8 takes for the whole character sequence `s`.
pub open spec fn utf8_len(s: Seq<char>) -> nat {
    encode_utf8(s).len()
}

/// Byte offset, in the UTF-8 encoding of `s`, of the character at index `k`
/// (the number of bytes taken by the first `k` characters).
pub open spec fn byte_offset(s: Seq<char>, k: int) -> nat {
    encode_utf8(s.take(k)).len()
}

/// Number of bytes that UTF-8 takes for the single character `c`.
pub open spec fn char_width(c: char) -> nat {
    encode_scalar(c as u32).len()
}

/// The UTF-8 encoding of a concatenation is the concatenation of the encodings.
pub proof fn lemma_encode_concat(a: Seq<char>, b: Seq<char>)
    ensures
        encode_utf8(a + b) == encode_utf8(a) + encode_utf8(b),
    decreases a.len(),
{
    if a.len() == 0 {
        assert(a + b =~= b);
        assert(encode_utf8(a) =~= Seq::<u8>::empty());
        assert(encode_utf8(a) + encode_utf8(b) =~= encode_utf8(b));
    } else {
        lemma_encode_concat(a.drop_first(), b);
        assert((a + b).drop_first() =~= a.drop_first() + b);
        assert((a + b)[0] == a[0]);
        assert(encode_utf8(a + b) =~= encode_scalar(a[0] as u32) + (encode_utf8(a.drop_first())
            + encode_utf8(b)));
    }
}

/// Equal encodings come from equal character sequences.
pub proof fn lemma_encode_injective(a: Seq<char>, b: Seq<char>)
    requires
        encode_utf8(a) == encode_utf8(b),
    ensures
        a == b,
{
    encode_utf8_decode_utf8(a);
    encode_utf8_decode_utf8(b);
}

/// Every character takes between one and four bytes.
pub proof fn lemma_char_width(c: char)
    ensures
        1 <= char_width(c) <= 4,
{
    char_is_scalar(c);
}

/// The encoding of a single character is the encoding of its scalar.
pub proof fn lemma_encode_single(c: char)
    ensures
        encode_utf8(seq![c]) == encode_scalar(c as u32),
{
    assert(seq![c].drop_first() =~= Seq::<char>::empty());
    assert(encode_utf8(Seq::<char>::empty()) =~= Seq::<u8>::empty());
    assert(encode_utf8(seq![c]) =~= encode_scalar(c as u32));
}

/// A sequence takes at least one byte per character.
pub proof fn lemma_utf8_len_at_least(s: Seq<char>)
    ensures
        utf8_len(s) >= s.len(),
    decreases s.len(),
{
    if s.len() > 0 {
        lemma_utf8_len_at_least(s.drop_first());
        lemma_char_width(s[0]);
    }
}

/// The offset of a later character is the offset of an earlier one plus the
/// bytes of the characters between them.
pub proof fn lemma_offset_split(s: Seq<char>, i: int, j: int)
    requires
        0 <= i <= j <= s.len(),
    ensures
        encode_utf8(s.take(j)) == encode_utf8(s.take(i)) + encode_utf8(s.subrange(i, j)),
        byte_offset(s, j) == byte_offset(s, i) + utf8_len(s.subrange(i, j)),
        byte_offset(s, j) >= byte_offset(s, i) + (j - i),
{
    assert(s.take(j) =~= s.take(i) + s.subrange(i, j));
    lemma_encode_concat(s.take(i), s.subrange(i, j));
    lemma_utf8_len_at_least(s.subrange(i, j));
}

/// Advancing over one character adds its width to the byte offset.
pub proof fn lemma_offset_step(s: Seq<char>, k: int)
    requires
        0 <= k < s.len(),
    ensures
        byte_offset(s, k + 1) == byte_offset(s, k) + char_width(s[k]),
{
    lemma_offset_split(s, k, k + 1);
    assert(s.subrange(k, k + 1) =~= seq![s[k]]);
    lemma_encode_single(s[k]);
}

/// The offset of the end of the sequence is its full UTF-8 length.
pub proof fn lemma_offset_end(s: Seq<char>)
    ensures
        byte_offset(s, s.len() as int) == utf8_len(s),
{
    assert(s.take(s.len() as int) =~= s);
}

/// The end of the encoding of a prefix is a character boundary of the whole encoding.
pub proof fn lemma_prefix_boundary(a: Seq<char>, b: Seq<char>)
    ensures
        is_char_boundary(encode_utf8(a + b), encode_utf8(a).len() as int),
    decreases a.len(),
{
    encode_utf8_valid_utf8(a + b);
    if a.len() == 0 {
        assert(encode_utf8(a) =~= Seq::<u8>::empty());
    } else {
        let bytes = encode_utf8(a + b);
        encode_utf8_first_scalar(a + b);
        assert((a + b).drop_first() =~= a.drop_first() + b);
        assert((a + b)[0] == a[0]);
        lemma_encode_concat(a.drop_first(), b);
        let w = encode_scalar(a[0] as u32).len() as int;
        assert(pop_first_scalar(bytes) =~= encode_utf8(a.drop_first() + b));
        lemma_prefix_boundary(a.drop_first(), b);
        assert(encode_utf8(a).len() == w + encode_utf8(a.drop_first()).len());
        lemma_char_width(a[0]);
        lemma_encode_concat(a, b);
    }
}

/// Every character offset is a character boundary of the encoding.
pub proof fn lemma_offset_boundary(s: Seq<char>, k: int)
    requires
        0 <= k <= s.len(),
    ensures
        is_char_boundary(encode_utf8(s), byte_offset(s, k) as int),
{
    assert(s =~= s.take(k) + s.skip(k));
    lemma_prefix_boundary(s.take(k), s.skip(k));
}

/// Splitting a string at a character offset gives the characters before and after it.
pub proof fn lemma_split_views(s: Seq<char>, k: int, left: Seq<char>, right: Seq<char>)
    requires
        0 <= k <= s.len(),
        encode_utf8(left) == encode_utf8(s).subrange(0, byte_offset(s, k) as int),
        encode_utf8(right) == encode_utf8(s).subrange(byte_offset(s, k) as int, utf8_len(s) as int),
    ensures
        left == s.take(k),
        right == s.skip(k),
{
    assert(s =~= s.take(k) + s.skip(k));
    lemma_encode_concat(s.take(k), s.skip(k));
    assert(encode_utf8(s).subrange(0, byte_offset(s, k) as int) =~= encode_utf8(s.take(k)));
    assert(encode_utf8(s).subrange(byte_offset(s, k) as int, utf8_len(s) as int) =~= encode_utf8(
        s.skip(k),
    ));
    lemma_encode_injective(left, s.take(k));
    lemma_encode_injective(right, s.skip(k));
}

/// Width in bytes of the UTF-8 encoding of `c`, as `char::len_utf8` gives it.
pub fn utf8_width(c: char) -> (w: usize)
    ensures
        w == char_width(c),
        1 <= w <= 4,
{
    proof {
        char_is_scalar(c);
    }
    let u = c as u32;
    if u <= 0x7f {
        1
    } else if u <= 0x7ff {
        2
    } else if u <= 0xffff {
        3
    } else {
        4
    }
}

/// The characters of `s` between character indices `i` and `j`, taken from the
/// byte offsets `from` and `to` of those characters.
pub(crate) fn substring(s: &str, from: usize, to: usize, Ghost(i): Ghost<int>, Ghost(j): Ghost<int>) -> (r:
    String)
    requires
        0 <= i <= j <= s@.len(),
        from == byte_offset(s@, i),
        to == byte_offset(s@, j),
    ensures
        r@ == s@.subrange(i, j),
{
    proof {
        lemma_offset_boundary(s@, i);
        lemma_offset_end(s@);
        lemma_offset_split(s@, i, j);
    }
    let (left, rest) = s.split_at(from);
    proof {
        lemma_split_views(s@, i, left@, rest@);
        let t = s@.skip(i);
        assert(t.take(j - i) =~= s@.subrange(i, j));
        lemma_offset_boundary(t, j - i);
        lemma_offset_end(t);
    }
    let (mid, _tail) = rest.split_at(to - from);
    proof {
        lemma_split_views(rest@, j - i, mid@, _tail@);
        assert(rest@.take(j - i) =~= s@.subrange(i, j));
    }
    mid.to_owned()
}

/// The characters of `s`, one per element.
pub fn chars_of(s: &str) -> (v: Vec<char>)
    ensures
        v@ == s@,
{
    let mut v: Vec<char> = Vec::new();
    for c in it: s.chars()
        invariant
            it.seq() == s@,
            v@ == s@.take(it.index() as int),
    {
        v.push(c);
        assert(s@.take(it.index() + 1) =~= s@.take(it.index() as int).push(c));
    }
    assert(s@.take(s@.len() as int) =~= s@);
    v
}

/// Whether two strings hold the same characters (`a == b` on `str`).
pub fn str_eq(a: &str, b: &str) -> (r: bool)
    ensures
        r == (a@ == b@),
{
    let x = a.as_bytes();
    let y = b.as_bytes();
    if x.len() != y.len() {
        return false;
    }
    let n = x.len();
    let mut i: usize = 0;
    while i < n
        invariant
            x@ == encode_utf8(a@),
            y@ == encode_utf8(b@),
            n == x@.len() == y@.len(),
            i <= n,
            forall|k: int| 0 <= k < i ==> x@[k] == y@[k],
        decreases n - i,
    {
        if x[i] != y[i] {
            return false;
        }
        i = i + 1;
    }
    proof {
        assert(x@ =~= y@);
        lemma_encode_injective(a@, b@);
    }
    true
}

/// `p` is a prefix of `s`.
pub open spec fn has_prefix(s: Seq<char>, p: Seq<char>) -> bool {
    p.len() <= s.len() && s.take(p.len() as int) == p
}

/// `p` occurs somewhere in `s` as a contiguous run of characters.
pub open spec fn has_infix(s: Seq<char>, p: Seq<char>) -> bool {
    exists|i: int| 0 <= i && i + p.len() <= s.len() && #[trigger] s.subrange(i, i + p.len()) == p
}

/// Whether the characters of `p` match those of `s` from index `at` on.
fn matches_at(s: &Vec<char>, p: &Vec<char>, at: usize) -> (r: bool)
    requires
        at + p@.len() <= s@.len(),
    ensures
        r == (s@.subrange(at as int, at + p@.len()) == p@),
{
    let n = s.len();
    let mut k: usize = 0;
    while k < p.len()
        invariant
            n == s@.len(),
            at + p@.len() <= s@.len(),
            k <= p@.len(),
            forall|m: int| 0 <= m < k ==> s@[at + m] == p@[m],
        decreases p@.len() - k,
    {
        if s[at + k] != p[k] {
            assert(s@.subrange(at as int, at + p@.len())[k as int] != p@[k as int]);
            return false;
        }
        k = k + 1;
    }
    assert(s@.subrange(at as int, at + p@.len()) =~= p@);
    true
}

/// `s.starts_with(p)` on strings (a byte prefix of UTF-8 text is a character prefix).
pub fn str_starts_with(s: &str, p: &str) -> (r: bool)
    ensures
        r == has_prefix(s@, p@),
{
    let sv = chars_of(s);
    let pv = chars_of(p);
    if pv.len() > sv.len() {
        return false;
    }
    let r = matches_at(&sv, &pv, 0);
    assert(sv@.subrange(0, pv@.len() as int) =~= sv@.take(pv@.len() as int));
    r
}

/// `s.contains(p)` on strings, for a string pattern.
pub fn str_contains(s: &str, p: &str) -> (r: bool)
    ensures
        r == has_infix(s@, p@),
{
    let sv = chars_of(s);
    let pv = chars_of(p);
    if pv.len() > sv.len() {
        return false;
    }
    let last = sv.len() - pv.len();
    let mut i: usize = 0;
    loop
        invariant
            sv@ == s@,
            pv@ == p@,
            last + p@.len() == s@.len(),
            i <= last,
            forall|k: int| 0 <= k < i ==> #[trigger] s@.subrange(k, k + p@.len()) != p@,
        ensures
            forall|k: int| 0 <= k <= last ==> #[trigger] s@.subrange(k, k + p@.len()) != p@,
        decreases last - i,
    {
        if matches_at(&sv, &pv, i) {
            return true;
        }
        if i == last {
            break;
        }
        i = i + 1;
    }
    assert forall|k: int| 0 <= k && k + p@.len() <= s@.len() implies #[trigger] s@.subrange(
        k,
        k + p@.len(),
    ) != p@ by {
        assert(k <= last);
    }
    false
}

/// The character sequences of a sequence of strings.
pub open spec fn views(v: Seq<String>) -> Seq<Seq<char>> {
    v.map_values(|s: String| s@)
}

/// `s` without one trailing carriage return, if it ends with one.
pub open spec fn strip_cr(s: Seq<char>) -> Seq<char> {
    if s.len() > 0 && s.last() == '\r' {
        s.drop_last()
    } else {
        s
    }
}

/// The lines that `str::lines` yields from `t`, scanning from index `k` with the
/// current line starting at index `start`: lines end at `'\n'`, a line that
/// ended with `"\r\n"` loses the `'\r'`, and an empty last line is not yielded.
pub open spec fn lines_from(t: Seq<char>, start: int, k: int) -> Seq<Seq<char>>
    decreases t.len() - k,
{
    if k >= t.len() {
        if start < t.len() {
            seq![t.subrange(start, t.len() as int)]
        } else {
            seq![]
        }
    } else if t[k] == '\n' {
        seq![strip_cr(t.subrange(start, k))] + lines_from(t, k + 1, k + 1)
    } else {
        lines_from(t, start, k + 1)
    }
}

/// The lines of `t`, as `str::lines` yields them.
pub open spec fn text_lines(t: Seq<char>) -> Seq<Seq<char>> {
    lines_from(t, 0, 0)
}

/// The UTF-8 length of a string, which fits in a `usize`.
pub fn byte_len(s: &str) -> (n: usize)
    ensures
        n == utf8_len(s@),
{
    s.as_bytes().len()
}

/// Splits `text` into lines as `text.lines()` does.
pub fn split_lines(text: &str) -> (lines: Vec<String>)
    ensures
        views(lines@) == text_lines(text@),
{
    let ghost t = text@;
    let total = byte_len(text);
    let mut out: Vec<String> = Vec::new();
    let ghost mut start: int = 0;
    let mut start_b: usize = 0;
    let mut b: usize = 0;
    let mut prev: char = '\n';
    for c in it: text.chars()
        invariant
            it.seq() == t,
            t == text@,
            total == utf8_len(t),
            0 <= start <= it.index(),
            start_b == byte_offset(t, start),
            b == byte_offset(t, it.index() as int),
            it.index() > start ==> prev == t[it.index() - 1],
            views(out@) + lines_from(t, start, it.index() as int) == text_lines(t),
    {
        let ghost k = it.index() as int;
        proof {
            lemma_offset_step(t, k);
            lemma_offset_split(t, k + 1, t.len() as int);
            lemma_offset_end(t);
            lemma_offset_split(t, start, k);
        }
        let w = utf8_width(c);
        if c == '\n' {
            let end_b = if b > start_b && prev == '\r' {
                b - 1
            } else {
                b
            };
            let ghost end = if b > start_b && prev == '\r' {
                k - 1
            } else {
                k
            };
            proof {
                if b > start_b && prev == '\r' {
                    lemma_offset_step(t, k - 1);
                    assert(t.subrange(start, k).drop_last() =~= t.subrange(start, k - 1));
                } else if k > start {
                    assert(t.subrange(start, k).last() == t[k - 1]);
                }
            }
            let line = substring(text, start_b, end_b, Ghost(start), Ghost(end));
            assert(line@ == strip_cr(t.subrange(start, k)));
            let ghost before = views(out@);
            out.push(line);
            proof {
                assert(views(out@) =~= before.push(line@));
                assert(lines_from(t, start, k) == seq![line@] + lines_from(t, k + 1, k + 1));
                assert(views(out@) + lines_from(t, k + 1, k + 1) =~= before + lines_from(
                    t,
                    start,
                    k,
                ));
            }
            start_b = b + w;
            proof {
                start = k + 1;
            }
        }
        b = b + w;
        prev = c;
    }
    proof {
        lemma_offset_end(t);
    }
    if start_b < total {
        let line = substring(text, start_b, total, Ghost(start), Ghost(t.len() as int));
        let ghost before = views(out@);
        out.push(line);
        assert(views(out@) =~= before.push(line@));
        assert(views(out@) =~= before + lines_from(t, start, t.len() as int));
    } else {
        proof {
            if start < t.len() {
                lemma_offset_split(t, start, t.len() as int);
            }
        }
        assert(views(out@) =~= views(out@) + lines_from(t, start, t.len() as int));
    }
    out
}

/// `b` is the byte offset of a character of `s`, or of its end.
pub open spec fn is_offset(s: Seq<char>, b: int) -> bool {
    exists|j: int| 0 <= j <= s.len() && byte_offset(s, j) == b
}

/// A character boundary of the encoding is the offset of some character.
pub proof fn lemma_boundary_is_offset(s: Seq<char>, b: int)
    requires
        is_char_boundary(encode_utf8(s), b),
    ensures
        is_offset(s, b),
    decreases s.len(),
{
    encode_utf8_valid_utf8(s);
    if b == 0 {
        assert(byte_offset(s, 0) == 0) by {
            assert(s.take(0) =~= Seq::<char>::empty());
        }
    } else {
        let bytes = encode_utf8(s);
        if s.len() == 0 {
            assert(bytes =~= Seq::<u8>::empty());
        } else {
            encode_utf8_first_scalar(s);
            let w = encode_scalar(s[0] as u32).len() as int;
            assert(pop_first_scalar(bytes) =~= encode_utf8(s.drop_first()));
            lemma_boundary_is_offset(s.drop_first(), b - w);
            let j2 = choose|j: int|
                0 <= j <= s.drop_first().len() && byte_offset(s.drop_first(), j) == b - w;
            assert(s.take(j2 + 1) =~= seq![s[0]] + s.drop_first().take(j2));
            lemma_encode_concat(seq![s[0]], s.drop_first().take(j2));
            lemma_encode_single(s[0]);
            assert(byte_offset(s, j2 + 1) == b);
        }
    }
}

/// Whether byte offset `b` of `s` starts a character or ends `s`.
pub fn is_char_offset(s: &str, b: usize) -> (r: bool)
    ensures
        r == is_offset(s@, b as int),
{
    let r = s.is_char_boundary(b);
    proof {
        if r {
            lemma_boundary_is_offset(s@, b as int);
        }
        if is_offset(s@, b as int) {
            let j = choose|j: int| 0 <= j <= s@.len() && byte_offset(s@, j) == b;
            lemma_offset_boundary(s@, j);
        }
    }
    r
}

/// What `str::to_lowercase` returns for a string with characters `s`: its
/// lowercase form under the Unicode `Lowercase` property, character by
/// character except that a capital sigma is lowered by its context (final or
/// not). It depends on `s` alone.
pub uninterp spec fn spec_to_lowercase(s: Seq<char>) -> Seq<char>;

/// Every character of `s` is ASCII.
pub open spec fn is_ascii_chars(s: Seq<char>) -> bool {
    forall|i: int| 0 <= i < s.len() ==> (#[trigger] s[i] as u32) < 128
}

/// The ASCII lowercase form of `c`: `A` to `Z` become `a` to `z`, every other
/// character is kept.
pub open spec fn ascii_lower_char(c: char) -> char {
    if 65 <= (c as u32) <= 90 {
        ((c as u32) + 32) as char
    } else {
        c
    }
}

/// The ASCII lowercase form of `s`, character by character.
pub open spec fn ascii_lowercase(s: Seq<char>) -> Seq<char> {
    s.map_values(|c: char| ascii_lower_char(c))
}

/// `c` is an ASCII character other than `A` to `Z`: its own lowercase form.
pub open spec fn is_ascii_lower(c: char) -> bool {
    (c as u32) < 128 && !(65 <= (c as u32) <= 90)
}

/// Every run of consecutive characters of `s` made only of ASCII characters
/// other than `A` to `Z` occurs in `lowered` as a run too.
pub open spec fn keeps_ascii_lower_runs(s: Seq<char>, lowered: Seq<char>) -> bool {
    forall|i: int, j: int|
        0 <= i <= j <= s.len() && (forall|x: int| i <= x < j ==> is_ascii_lower(#[trigger] s[x]))
            ==> has_infix(lowered, #[trigger] s.subrange(i, j))
}

/// Calls `str::to_lowercase`; the contract names the result `spec_to_lowercase`
/// of the argument's characters and states two facts of the Unicode lowercase
/// mapping that std applies character by character (each character becomes
/// its lowercase form, the forms are concatenated in order, and ASCII
/// characters other than `A` to `Z` are their own lowercase form): an ASCII
/// argument comes back as its ASCII lowercase form (`A` to `Z` become `a` to
/// `z`, every other character is kept), and every run of the argument made of
/// ASCII characters other than `A` to `Z` is kept as a run of the result.
/// Beyond that it states nothing of the result (the Unicode case tables are
/// not written out here).
#[verifier::external_body]
pub(crate) fn to_lowercase(s: &str) -> (r: String)
    ensures
        r@ == spec_to_lowercase(s@),
        is_ascii_chars(s@) ==> r@ == ascii_lowercase(s@),
        keeps_ascii_lower_runs(s@, r@),
{
    s.to_lowercase()
}

/// Lowercasing an ASCII character twice is lowercasing it once.
pub proof fn lemma_ascii_lower_char_idempotent(c: char)
    ensures
        ascii_lower_char(ascii_lower_char(c)) == ascii_lower_char(c),
        (c as u32) < 128 ==> (ascii_lower_char(c) as u32) < 128,
        (c as u32) < 128 ==> is_ascii_lower(ascii_lower_char(c)),
{
    if 65 <= (c as u32) <= 90 {
        assert(ascii_lower_char(c) as u32 == (c as u32) + 32);
    }
}

/// Calls `String::from` on a `char`, which allocates a string holding just
/// that character.
#[verifier::external_body]
pub(crate) fn char_to_string(c: char) -> (r: String)
    ensures
        r@ == seq![c],
{
    String::from(c)
}

/// Each line that the scan yields is a run of characters of `t` at or after
/// `start`, and the scan yields no more lines than there are characters left.
pub proof fn lemma_lines_from_bounded(t: Seq<char>, start: int, k: int)
    requires
        0 <= start <= k <= t.len(),
    ensures
        lines_from(t, start, k).len() <= t.len() - start,
        forall|i: int|
            0 <= i < lines_from(t, start, k).len() ==> exists|a: int, b: int|
                start <= a <= b <= t.len() && #[trigger] lines_from(t, start, k)[i]
                    == t.subrange(a, b),
    decreases t.len() - k,
{
    if k < t.len() {
        if t[k] == '\n' {
            lemma_lines_from_bounded(t, k + 1, k + 1);
            let head = strip_cr(t.subrange(start, k));
            let rest = lines_from(t, k + 1, k + 1);
            let all = lines_from(t, start, k);
            assert(all == seq![head] + rest);
            assert forall|i: int| 0 <= i < all.len() implies exists|a: int, b: int|
                start <= a <= b <= t.len() && #[trigger] all[i] == t.subrange(a, b) by {
                if i == 0 {
                    if t.subrange(start, k).len() > 0 && t.subrange(start, k).last() == '\r' {
                        assert(head =~= t.subrange(start, k - 1));
                    } else {
                        assert(head == t.subrange(start, k));
                    }
                } else {
                    assert(all[i] == rest[i - 1]);
                }
            }
        } else {
            lemma_lines_from_bounded(t, start, k + 1);
        }
    } else {
        if start < t.len() {
            let all = lines_from(t, start, k);
            assert(all[0] == t.subrange(start, t.len() as int));
        }
    }
}

/// The lines of `t` are no more than its characters, and none is longer in
/// UTF-8 than `t` itself.
pub proof fn lemma_lines_bounded(t: Seq<char>)
    ensures
        text_lines(t).len() <= t.len(),
        forall|i: int| 0 <= i < text_lines(t).len() ==> utf8_len(#[trigger] text_lines(t)[i]) <= utf8_len(t),
{
    lemma_lines_from_bounded(t, 0, 0);
    assert forall|i: int| 0 <= i < text_lines(t).len() implies utf8_len(#[trigger] text_lines(t)[i]) <= utf8_len(t) by {
        let (a, b) = choose|a: int, b: int|
            0 <= a <= b <= t.len() && #[trigger] text_lines(t)[i] == t.subrange(a, b);
        lemma_offset_split(t, a, b);
        lemma_offset_split(t, b, t.len() as int);
        lemma_offset_end(t);
    }
}

/// The lines that the scan yields hold no line feed.
pub proof fn lemma_lines_from_no_newline(t: Seq<char>, start: int, k: int)
    requires
        0 <= start <= k <= t.len(),
        forall|m: int| start <= m < k ==> t[m] != '\n',
    ensures
        forall|i: int, m: int|
            0 <= i < lines_from(t, start, k).len() && 0 <= m < lines_from(t, start, k)[i].len()
                ==> #[trigger] lines_from(t, start, k)[i][m] != '\n',
    decreases t.len() - k,
{
    if k < t.len() {
        if t[k] == '\n' {
            lemma_lines_from_no_newline(t, k + 1, k + 1);
            let all = lines_from(t, start, k);
            let head = strip_cr(t.subrange(start, k));
            let rest = lines_from(t, k + 1, k + 1);
            assert(all == seq![head] + rest);
            assert forall|i: int, m: int| 0 <= i < all.len() && 0 <= m < all[i].len() implies #[trigger] all[i][m]
                != '\n' by {
                if i == 0 {
                    assert(head[m] == t[start + m]);
                } else {
                    assert(all[i] == rest[i - 1]);
                }
            }
        } else {
            lemma_lines_from_no_newline(t, start, k + 1);
            assert(lines_from(t, start, k) == lines_from(t, start, k + 1));
        }
    } else {
        let all = lines_from(t, start, k);
        assert forall|i: int, m: int| 0 <= i < all.len() && 0 <= m < all[i].len() implies #[trigger] all[i][m]
            != '\n' by {
            assert(all[i] == t.subrange(start, t.len() as int));
            assert(all[i][m] == t[start + m]);
        }
    }
}

/// No line of a text holds a line feed: `lines` splits at every one of them.
pub proof fn lemma_lines_have_no_newline(t: Seq<char>)
    ensures
        forall|i: int, m: int|
            0 <= i < text_lines(t).len() && 0 <= m < text_lines(t)[i].len() ==> #[trigger] text_lines(
                t,
            )[i][m] != '\n',
{
    lemma_lines_from_no_newline(t, 0, 0);
}

/// A text without line feeds is a single line, itself, unless it is empty.
pub proof fn lemma_single_line(t: Seq<char>)
    requires
        forall|m: int| 0 <= m < t.len() ==> t[m] != '\n',
    ensures
        t.len() == 0 ==> text_lines(t) == Seq::<Seq<char>>::empty(),
        t.len() > 0 ==> text_lines(t) == seq![t],
{
    lemma_single_line_from(t, 0);
    assert(t.subrange(0, t.len() as int) =~= t);
}

/// Scanning a text without line feeds from `k` yields the rest of the text as its last line.
proof fn lemma_single_line_from(t: Seq<char>, k: int)
    requires
        0 <= k <= t.len(),
        forall|m: int| 0 <= m < t.len() ==> t[m] != '\n',
    ensures
        lines_from(t, 0, k) == (if t.len() > 0 {
            seq![t.subrange(0, t.len() as int)]
        } else {
            Seq::<Seq<char>>::empty()
        }),
    decreases t.len() - k,
{
    if k < t.len() {
        lemma_single_line_from(t, k + 1);
    }
}

} // verus!
