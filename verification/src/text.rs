use vstd::prelude::*;
use vstd::string::StringSliceAdditionalSpecFns;

verus! {

/// Number of bytes of the UTF-8 encoding of `c`.
pub open spec fn utf8_width(c: char) -> nat {
    if (c as u32) <= 0x7F {
        1
    } else if (c as u32) <= 0x7FF {
        2
    } else if (c as u32) <= 0xFFFF {
        3
    } else {
        4
    }
}

/// Number of bytes of the UTF-8 encoding of `s`.
pub open spec fn utf8_len(s: Seq<char>) -> nat
    decreases s.len(),
{
    if s.len() == 0 {
        0
    } else {
        utf8_width(s[0]) + utf8_len(s.drop_first())
    }
}

pub proof fn lemma_utf8_len_concat(a: Seq<char>, b: Seq<char>)
    ensures
        utf8_len(a + b) == utf8_len(a) + utf8_len(b),
    decreases a.len(),
{
    if a.len() == 0 {
        assert(a + b =~= b);
    } else {
        assert((a + b).drop_first() =~= a.drop_first() + b);
        lemma_utf8_len_concat(a.drop_first(), b);
    }
}

/// Offsets grow by the width of the character passed.
pub proof fn lemma_byte_offset_step(s: Seq<char>, i: int)
    requires
        0 <= i < s.len(),
    ensures
        byte_offset(s, i + 1) == byte_offset(s, i) + utf8_width(s[i]),
{
    assert(s.take(i + 1) =~= s.take(i) + seq![s[i]]);
    lemma_utf8_len_concat(s.take(i), seq![s[i]]);
    assert(seq![s[i]].drop_first() =~= Seq::<char>::empty());
    assert(utf8_len(seq![s[i]]) == utf8_width(s[i]) + utf8_len(Seq::<char>::empty()));
}

/// Offsets are monotonic in the character index.
pub proof fn lemma_byte_offset_mono(s: Seq<char>, i: int, j: int)
    requires
        0 <= i <= j <= s.len(),
    ensures
        byte_offset(s, i) + (j - i) <= byte_offset(s, j),
    decreases j - i,
{
    if i < j {
        lemma_byte_offset_mono(s, i, j - 1);
        lemma_byte_offset_step(s, j - 1);
    }
}

/// The encoding length agrees with vstd's UTF-8 encoder.
pub proof fn lemma_utf8_len_encode(s: Seq<char>)
    ensures
        utf8_len(s) == vstd::utf8::encode_utf8(s).len(),
    decreases s.len(),
{
    if s.len() > 0 {
        vstd::utf8::char_is_scalar(s[0]);
        lemma_utf8_len_encode(s.drop_first());
    }
}

/// The byte length of a string slice is the encoding length of its characters.
pub proof fn lemma_str_len(s: &str)
    ensures
        utf8_len(s@) == s.spec_bytes().len(),
{
    lemma_utf8_len_encode(s@);
}

/// The characters of `s` together with its byte length, which bounds every offset.
pub fn chars_and_len(s: &str) -> (r: (Vec<char>, usize))
    ensures
        r.0@ == s@,
        r.1 == utf8_len(s@),
{
    let bytes = s.as_bytes();
    proof {
        lemma_str_len(s);
    }
    (chars_of(s), bytes.len())
}

/// Byte offset at which the character with index `i` of `s` starts.
pub open spec fn byte_offset(s: Seq<char>, i: int) -> nat {
    utf8_len(s.take(i))
}

/// Byte offsets of every character boundary of `s`: entry `i` is where character `i`
/// starts, and the last entry is the byte length of `s`.
pub fn char_offsets(s: &Vec<char>) -> (r: Vec<usize>)
    requires
        utf8_len(s@) <= usize::MAX,
    ensures
        r.len() == s.len() + 1,
        forall|i: int| 0 <= i <= s.len() ==> r[i] == byte_offset(s@, i),
{
    let mut r: Vec<usize> = Vec::new();
    let mut acc: usize = 0;
    let mut i: usize = 0;
    assert(s@.take(0) =~= Seq::<char>::empty());
    assert(s@.take(s.len() as int) =~= s@);
    while i < s.len()
        invariant
            i <= s.len(),
            r.len() == i,
            acc == byte_offset(s@, i as int),
            utf8_len(s@) <= usize::MAX,
            s@.take(s.len() as int) =~= s@,
            forall|k: int| 0 <= k < i ==> r[k] == byte_offset(s@, k),
        decreases s.len() - i,
    {
        r.push(acc);
        proof {
            lemma_byte_offset_step(s@, i as int);
            lemma_byte_offset_mono(s@, i as int + 1, s.len() as int);
        }
        let w = char_width(s[i]);
        acc = acc + w;
        i = i + 1;
    }
    r.push(acc);
    r
}

pub fn char_width(c: char) -> (w: usize)
    ensures
        w == utf8_width(c),
{
    let u = c as u32;
    if u <= 0x7F {
        1
    } else if u <= 0x7FF {
        2
    } else if u <= 0xFFFF {
        3
    } else {
        4
    }
}

/// The characters of `s`, in order.
pub fn chars_of(s: &str) -> (r: Vec<char>)
    ensures
        r@ == s@,
{
    let mut r: Vec<char> = Vec::new();
    for c in it: s.chars()
        invariant
            r@ == it.seq().take(it.index() as int),
    {
        r.push(c);
    }
    r
}


/// Appends `c` to `s`.
#[verifier::external_body]
pub(crate) fn push_char(s: &mut String, c: char)
    ensures
        final(s)@ == old(s)@.push(c),
{
    s.push(c)
}

/// Appends the characters of `t` to `s`.
pub fn push_str(s: &mut String, t: &str)
    ensures
        final(s)@ == old(s)@ + t@,
{
    s.append(t);
}

/// Decimal digits of `n`, most significant first, without leading zeros ("0" for zero).
pub open spec fn decimal(n: nat) -> Seq<char>
    decreases n,
{
    if n < 10 {
        seq![digit_char(n)]
    } else {
        decimal(n / 10).push(digit_char(n % 10))
    }
}

pub open spec fn digit_char(d: nat) -> char {
    if d == 0 { '0' } else if d == 1 { '1' } else if d == 2 { '2' } else if d == 3 { '3' }
    else if d == 4 { '4' } else if d == 5 { '5' } else if d == 6 { '6' } else if d == 7 { '7' }
    else if d == 8 { '8' } else { '9' }
}

fn exec_digit_char(d: usize) -> (c: char)
    requires
        d < 10,
    ensures
        c == digit_char(d as nat),
{
    if d == 0 { '0' } else if d == 1 { '1' } else if d == 2 { '2' } else if d == 3 { '3' }
    else if d == 4 { '4' } else if d == 5 { '5' } else if d == 6 { '6' } else if d == 7 { '7' }
    else if d == 8 { '8' } else { '9' }
}

/// The decimal representation of `n`, as `n.to_string()` writes it.
pub fn decimal_string(n: usize) -> (r: String)
    ensures
        r@ == decimal(n as nat),
    decreases n,
{
    if n < 10 {
        let mut s = String::new();
        push_char(&mut s, exec_digit_char(n));
        s
    } else {
        let mut s = decimal_string(n / 10);
        push_char(&mut s, exec_digit_char(n % 10));
        s
    }
}

/// Unicode `White_Space`, the property that `char::is_whitespace` tests.
pub open spec fn is_ws(c: char) -> bool {
    let u = c as u32;
    ||| 0x09 <= u <= 0x0D
    ||| u == 0x20
    ||| u == 0x85
    ||| u == 0xA0
    ||| u == 0x1680
    ||| 0x2000 <= u <= 0x200A
    ||| u == 0x2028
    ||| u == 0x2029
    ||| u == 0x202F
    ||| u == 0x205F
    ||| u == 0x3000
}

pub fn is_whitespace(c: char) -> (r: bool)
    ensures
        r == is_ws(c),
{
    let u = c as u32;
    (0x09 <= u && u <= 0x0D) || u == 0x20 || u == 0x85 || u == 0xA0 || u == 0x1680 || (0x2000 <= u
        && u <= 0x200A) || u == 0x2028 || u == 0x2029 || u == 0x202F || u == 0x205F || u == 0x3000
}

/// `s` without its leading whitespace.
pub open spec fn trim_start(s: Seq<char>) -> Seq<char>
    decreases s.len(),
{
    if s.len() > 0 && is_ws(s[0]) {
        trim_start(s.drop_first())
    } else {
        s
    }
}

/// `s` without its trailing whitespace.
pub open spec fn trim_end(s: Seq<char>) -> Seq<char>
    decreases s.len(),
{
    if s.len() > 0 && is_ws(s.last()) {
        trim_end(s.drop_last())
    } else {
        s
    }
}

/// `s` without its leading and trailing whitespace.
pub open spec fn trim(s: Seq<char>) -> Seq<char> {
    trim_end(trim_start(s))
}

/// Every character of `s` is whitespace.
pub open spec fn all_ws(s: Seq<char>) -> bool {
    forall|i: int| 0 <= i < s.len() ==> is_ws(#[trigger] s[i])
}

proof fn lemma_trim_start_skip(s: Seq<char>, i: int)
    requires
        0 <= i <= s.len(),
        forall|k: int| 0 <= k < i ==> is_ws(#[trigger] s[k]),
    ensures
        trim_start(s) == trim_start(s.subrange(i, s.len() as int)),
    decreases i,
{
    if i > 0 {
        assert(s.drop_first() == s.subrange(1, s.len() as int));
        let t = s.drop_first();
        assert forall|k: int| 0 <= k < i - 1 implies is_ws(#[trigger] t[k]) by {
            assert(t[k] == s[k + 1]);
        }
        lemma_trim_start_skip(t, i - 1);
        assert(t.subrange(i - 1, t.len() as int) =~= s.subrange(i, s.len() as int));
    } else {
        assert(s.subrange(0, s.len() as int) =~= s);
    }
}

proof fn lemma_trim_end_take(s: Seq<char>, j: int)
    requires
        0 <= j <= s.len(),
        forall|k: int| j <= k < s.len() ==> is_ws(#[trigger] s[k]),
    ensures
        trim_end(s) == trim_end(s.subrange(0, j)),
    decreases s.len() - j,
{
    if j < s.len() {
        let t = s.drop_last();
        assert forall|k: int| j <= k < t.len() implies is_ws(#[trigger] t[k]) by {
            assert(t[k] == s[k]);
        }
        lemma_trim_end_take(t, j);
        assert(t.subrange(0, j) =~= s.subrange(0, j));
    } else {
        assert(s.subrange(0, j) =~= s);
    }
}

/// A `String` holding characters `lo..hi` of `v`.
pub fn string_of_range(v: &Vec<char>, lo: usize, hi: usize) -> (r: String)
    requires
        lo <= hi <= v.len(),
    ensures
        r@ == v@.subrange(lo as int, hi as int),
{
    let mut r = String::new();
    let mut i = lo;
    while i < hi
        invariant
            lo <= i <= hi <= v.len(),
            r@ == v@.subrange(lo as int, i as int),
        decreases hi - i,
    {
        push_char(&mut r, v[i]);
        assert(v@.subrange(lo as int, i + 1) =~= v@.subrange(lo as int, i as int).push(v@[i as int]));
        i = i + 1;
    }
    r
}

/// Bounds `(lo, hi)` of the characters of `v` that remain once whitespace is trimmed from
/// the start (and, if `end` is set, from the end too).
fn trim_bounds(v: &Vec<char>, end: bool) -> (r: (usize, usize))
    ensures
        r.0 <= r.1 <= v.len(),
        end ==> v@.subrange(r.0 as int, r.1 as int) == trim(v@),
        !end ==> r.1 == v.len() && v@.subrange(r.0 as int, r.1 as int) == trim_start(v@),
{
    let n = v.len();
    let mut i: usize = 0;
    while i < n && is_whitespace(v[i])
        invariant
            i <= n == v.len(),
            forall|k: int| 0 <= k < i ==> is_ws(#[trigger] v@[k]),
        decreases n - i,
    {
        i = i + 1;
    }
    proof {
        lemma_trim_start_skip(v@, i as int);
    }
    let ghost t = v@.subrange(i as int, n as int);
    assert(trim_start(t) == t);
    if !end {
        return (i, n);
    }
    let mut j: usize = n;
    while j > i && is_whitespace(v[j - 1])
        invariant
            i <= j <= n == v.len(),
            t == v@.subrange(i as int, n as int),
            forall|k: int| (j - i) <= k < t.len() ==> is_ws(#[trigger] t[k]),
        decreases j,
    {
        assert(t[j - 1 - i] == v@[j - 1]);
        j = j - 1;
    }
    proof {
        lemma_trim_end_take(t, j - i);
        assert(t.subrange(0, j - i) =~= v@.subrange(i as int, j as int));
    }
    (i, j)
}

/// `s` without leading and trailing whitespace, as `str::trim` gives it.
pub fn trim_string(s: &str) -> (r: String)
    ensures
        r@ == trim(s@),
{
    let v = chars_of(s);
    let (lo, hi) = trim_bounds(&v, true);
    string_of_range(&v, lo, hi)
}

/// `s` without leading whitespace, as `str::trim_start` gives it.
pub fn trim_start_string(s: &str) -> (r: String)
    ensures
        r@ == trim_start(s@),
{
    let v = chars_of(s);
    let (lo, hi) = trim_bounds(&v, false);
    string_of_range(&v, lo, hi)
}

pub proof fn lemma_trim_empty_iff_all_ws(s: Seq<char>)
    ensures
        (trim(s).len() == 0) == all_ws(s),
        (trim_start(s).len() == 0) == all_ws(s),
    decreases s.len(),
{
    if s.len() > 0 {
        lemma_trim_empty_iff_all_ws(s.drop_first());
        if is_ws(s[0]) {
            assert(all_ws(s) == all_ws(s.drop_first())) by {
                if all_ws(s.drop_first()) {
                    assert forall|i: int| 0 <= i < s.len() implies is_ws(#[trigger] s[i]) by {
                        if i > 0 {
                            assert(s[i] == s.drop_first()[i - 1]);
                        }
                    }
                }
                if all_ws(s) {
                    assert forall|i: int| 0 <= i < s.len() - 1 implies is_ws(
                        #[trigger] s.drop_first()[i],
                    ) by {
                        assert(s.drop_first()[i] == s[i + 1]);
                    }
                }
            }
        } else {
            assert(!all_ws(s));
            assert(trim_start(s) == s);
            lemma_trim_end_nonempty(s);
        }
    } else {
        assert(all_ws(s));
    }
}

proof fn lemma_trim_end_nonempty(s: Seq<char>)
    requires
        s.len() > 0,
        !is_ws(s[0]),
    ensures
        trim_end(s).len() > 0,
    decreases s.len(),
{
    if is_ws(s.last()) {
        assert(s.len() > 1);
        assert(s.drop_last()[0] == s[0]);
        lemma_trim_end_nonempty(s.drop_last());
    }
}

/// The last character of `s` is `c`.
pub open spec fn ends_with_char(s: Seq<char>, c: char) -> bool {
    s.len() > 0 && s.last() == c
}

pub fn string_ends_with(s: &str, c: char) -> (r: bool)
    ensures
        r == ends_with_char(s@, c),
{
    let v = chars_of(s);
    v.len() > 0 && v[v.len() - 1] == c
}

pub fn string_is_empty(s: &str) -> (r: bool)
    ensures
        r == (s@.len() == 0),
{
    let v = chars_of(s);
    v.len() == 0
}

/// Characters `i..j` of `s`, where `start` and `end` are the byte offsets of characters
/// `i` and `j`; `None` when either is no character boundary or `start > end`.
pub open spec fn byte_slice(s: Seq<char>, start: int, end: int) -> Option<Seq<char>> {
    if exists|i: int, j: int|
        0 <= i <= j <= s.len() && byte_offset(s, i) == start && byte_offset(s, j) == end {
        let (i, j) = choose|i: int, j: int|
            0 <= i <= j <= s.len() && byte_offset(s, i) == start && byte_offset(s, j) == end;
        Some(s.subrange(i, j))
    } else {
        None
    }
}

/// Byte offsets of distinct characters differ.
pub proof fn lemma_byte_offset_injective(s: Seq<char>, i: int, j: int)
    requires
        0 <= i <= s.len(),
        0 <= j <= s.len(),
        byte_offset(s, i) == byte_offset(s, j),
    ensures
        i == j,
{
    if i < j {
        lemma_byte_offset_mono(s, i, j);
    } else if j < i {
        lemma_byte_offset_mono(s, j, i);
    }
}

fn find_offset(offs: &Vec<usize>, x: usize) -> (r: Option<usize>)
    ensures
        r matches Some(i) ==> i < offs.len() && offs[i as int] == x,
        r is None ==> forall|i: int| 0 <= i < offs.len() ==> offs[i] != x,
{
    let mut i: usize = 0;
    while i < offs.len()
        invariant
            i <= offs.len(),
            forall|k: int| 0 <= k < i ==> offs[k] != x,
        decreases offs.len() - i,
    {
        if offs[i] == x {
            return Some(i);
        }
        i = i + 1;
    }
    None
}

/// The text between byte offsets `start` and `end` of `s`, as `str::get` gives it.
pub fn str_get(s: &str, start: usize, end: usize) -> (r: Option<String>)
    ensures
        r is Some == byte_slice(s@, start as int, end as int) is Some,
        r is Some ==> r->0@ == byte_slice(s@, start as int, end as int)->0,
{
    let (v, _len) = chars_and_len(s);
    let offs = char_offsets(&v);
    let a = find_offset(&offs, start);
    let b = find_offset(&offs, end);
    match (a, b) {
        (Some(i), Some(j)) => {
            if i <= j {
                proof {
                    assert(byte_offset(s@, i as int) == start && byte_offset(s@, j as int) == end);
                    let (ci, cj) = choose|ci: int, cj: int|
                        0 <= ci <= cj <= s@.len() && byte_offset(s@, ci) == start as int
                            && byte_offset(s@, cj) == end as int;
                    lemma_byte_offset_injective(s@, ci, i as int);
                    lemma_byte_offset_injective(s@, cj, j as int);
                }
                Some(string_of_range(&v, i, j))
            } else {
                proof {
                    assert forall|ci: int, cj: int|
                        0 <= ci <= cj <= s@.len() && byte_offset(s@, ci) == start as int
                            && byte_offset(s@, cj) == end as int implies false by {
                        lemma_byte_offset_injective(s@, ci, i as int);
                        lemma_byte_offset_injective(s@, cj, j as int);
                    }
                }
                None
            }
        },
        _ => {
            proof {
                assert forall|ci: int, cj: int|
                    0 <= ci <= cj <= s@.len() && byte_offset(s@, ci) == start as int
                        && byte_offset(s@, cj) == end as int implies false by {
                    assert(offs[ci] == byte_offset(s@, ci));
                    assert(offs[cj] == byte_offset(s@, cj));
                }
            }
            None
        },
    }
}

/// Whether `a` and `b` hold the same characters.
pub fn str_eq(a: &str, b: &str) -> (r: bool)
    ensures
        r == (a@ == b@),
{
    let x = chars_of(a);
    let y = chars_of(b);
    if x.len() != y.len() {
        return false;
    }
    let mut i: usize = 0;
    while i < x.len()
        invariant
            x.len() == y.len(),
            x@ == a@,
            y@ == b@,
            i <= x.len(),
            forall|k: int| 0 <= k < i ==> x@[k] == y@[k],
        decreases x.len() - i,
    {
        if x[i] != y[i] {
            assert(a@[i as int] != b@[i as int]);
            return false;
        }
        i = i + 1;
    }
    assert(x@ =~= y@);
    true
}

/// Whether `s` begins with `prefix`.
pub fn str_starts_with(s: &str, prefix: &str) -> (r: bool)
    ensures
        r == prefix@.is_prefix_of(s@),
{
    let x = chars_of(s);
    let p = chars_of(prefix);
    if p.len() > x.len() {
        return false;
    }
    let mut i: usize = 0;
    while i < p.len()
        invariant
            p.len() <= x.len(),
            x@ == s@,
            p@ == prefix@,
            i <= p.len(),
            forall|k: int| 0 <= k < i ==> x@[k] == p@[k],
        decreases p.len() - i,
    {
        if x[i] != p[i] {
            assert(x@.subrange(0, p@.len() as int)[i as int] != p@[i as int]);
            return false;
        }
        i = i + 1;
    }
    assert(x@.subrange(0, p@.len() as int) =~= p@);
    true
}

/// Decimal representation of a signed number, with a minus sign when negative.
pub open spec fn signed_decimal(n: int) -> Seq<char> {
    if n < 0 {
        seq!['-'] + decimal((-n) as nat)
    } else {
        decimal(n as nat)
    }
}

/// The decimal representation of `n`, as `n.to_string()` writes it.
pub fn i32_decimal_string(n: i32) -> (r: String)
    ensures
        r@ == signed_decimal(n as int),
{
    if n < 0 {
        let m: u32 = if n == i32::MIN {
            2147483648u32
        } else {
            (-n) as u32
        };
        let mut s = String::new();
        push_char(&mut s, '-');
        let d = decimal_string(m as usize);
        push_str(&mut s, d.as_str());
        s
    } else {
        decimal_string(n as usize)
    }
}

} // verus!
