//! Sequences of bytes and characters: splitting, joining and decimal numbers.

use vstd::prelude::*;
use vstd::string::*;
use vstd::utf8::*;

verus! {

/// The path separator, `/`.
pub const SEP: u8 = 0x2f;

/// A full stop, `.`.
pub const DOT: u8 = 0x2e;

/// `String::push` appends the given character to the end of the string.
pub assume_specification[ String::push ](s: &mut String, c: char)
    ensures
        final(s)@ == old(s)@.push(c),
;

/// The pieces of `s` between the occurrences of `sep`. There is always at least one piece.
pub open spec fn split<A>(s: Seq<A>, sep: A) -> Seq<Seq<A>>
    decreases s.len(),
{
    if s.len() == 0 {
        seq![Seq::empty()]
    } else {
        let rest = split(s.skip(1), sep);
        if s[0] == sep {
            seq![Seq::empty()] + rest
        } else {
            rest.update(0, seq![s[0]] + rest[0])
        }
    }
}

/// The given pieces with one `sep` between each two neighbours.
pub open spec fn join<A>(parts: Seq<Seq<A>>, sep: A) -> Seq<A>
    decreases parts.len(),
{
    if parts.len() == 0 {
        Seq::empty()
    } else if parts.len() == 1 {
        parts[0]
    } else {
        join(parts.drop_last(), sep).push(sep) + parts.last()
    }
}

/// The contents of each byte vector.
pub open spec fn views(v: Seq<Vec<u8>>) -> Seq<Seq<u8>> {
    v.map_values(|b: Vec<u8>| b@)
}

pub proof fn lemma_split_len<A>(s: Seq<A>, sep: A)
    ensures
        split(s, sep).len() >= 1,
    decreases s.len(),
{
    if s.len() > 0 {
        lemma_split_len(s.skip(1), sep);
    }
}

/// A sequence without the separator is its own only piece.
pub proof fn lemma_split_single<A>(s: Seq<A>, sep: A)
    requires
        !s.contains(sep),
    ensures
        split(s, sep) == seq![s],
    decreases s.len(),
{
    if s.len() > 0 {
        assert(s[0] != sep);
        assert forall|i: int| 0 <= i < s.skip(1).len() implies s.skip(1)[i] != sep by {
            assert(s.contains(s[i + 1]));
        }
        lemma_split_single(s.skip(1), sep);
        assert(seq![s[0]] + s.skip(1) =~= s);
        assert(split(s, sep) =~= seq![s]);
    } else {
        assert(s =~= Seq::empty());
    }
}

/// Splitting around a separator splits both sides on their own.
pub proof fn lemma_split_around<A>(a: Seq<A>, b: Seq<A>, sep: A)
    ensures
        split(a.push(sep) + b, sep) == split(a, sep) + split(b, sep),
    decreases a.len(),
{
    let s = a.push(sep) + b;
    lemma_split_len(b, sep);
    if a.len() == 0 {
        assert(s.skip(1) =~= b);
        assert(split(s, sep) =~= split(a, sep) + split(b, sep));
    } else {
        assert(s.skip(1) =~= a.skip(1).push(sep) + b);
        lemma_split_around(a.skip(1), b, sep);
        lemma_split_len(a.skip(1), sep);
        assert(split(s, sep) =~= split(a, sep) + split(b, sep));
    }
}

/// No piece holds the separator.
pub proof fn lemma_split_pieces<A>(s: Seq<A>, sep: A)
    ensures
        forall|i: int| 0 <= i < split(s, sep).len() ==> !(#[trigger] split(s, sep)[i]).contains(sep),
    decreases s.len(),
{
    if s.len() > 0 {
        let rest = split(s.skip(1), sep);
        let all = split(s, sep);
        lemma_split_pieces(s.skip(1), sep);
        lemma_split_len(s.skip(1), sep);
        assert forall|i: int| 0 <= i < all.len() implies !(#[trigger] all[i]).contains(sep) by {
            if s[0] == sep {
                if i > 0 {
                    assert(all[i] == rest[i - 1]);
                }
            } else if i > 0 {
                assert(all[i] == rest[i]);
            } else {
                assert(all[0] == seq![s[0]] + rest[0]);
                assert(!rest[0].contains(sep));
                assert forall|j: int| 0 <= j < all[0].len() implies all[0][j] != sep by {
                    if j > 0 {
                        assert(rest[0].contains(rest[0][j - 1]));
                    }
                }
            }
        }
    }
}

/// Joining the pieces of a sequence gives the sequence back.
pub proof fn lemma_join_split<A>(s: Seq<A>, sep: A)
    ensures
        join(split(s, sep), sep) == s,
    decreases s.len(),
{
    if s.len() > 0 {
        let rest = split(s.skip(1), sep);
        lemma_split_len(s.skip(1), sep);
        lemma_join_split(s.skip(1), sep);
        if s[0] == sep {
            lemma_join_cons(Seq::empty(), rest, sep);
            assert(Seq::<A>::empty().push(sep) + s.skip(1) =~= s);
        } else {
            lemma_join_first(rest, seq![s[0]], sep);
            assert(seq![s[0]] + s.skip(1) =~= s);
        }
    }
}

pub proof fn lemma_join_cons<A>(p: Seq<A>, parts: Seq<Seq<A>>, sep: A)
    requires
        parts.len() >= 1,
    ensures
        join(seq![p] + parts, sep) == p.push(sep) + join(parts, sep),
    decreases parts.len(),
{
    let all = seq![p] + parts;
    if parts.len() == 1 {
        assert(all.drop_last() =~= seq![p]);
        assert(join(seq![p], sep) == p);
    } else {
        assert(all.drop_last() =~= seq![p] + parts.drop_last());
        lemma_join_cons(p, parts.drop_last(), sep);
        assert(join(all, sep) =~= p.push(sep) + join(parts, sep));
    }
}

proof fn lemma_join_first<A>(parts: Seq<Seq<A>>, pre: Seq<A>, sep: A)
    requires
        parts.len() >= 1,
    ensures
        join(parts.update(0, pre + parts[0]), sep) == pre + join(parts, sep),
    decreases parts.len(),
{
    let all = parts.update(0, pre + parts[0]);
    if parts.len() > 1 {
        assert(all.drop_last() =~= parts.drop_last().update(0, pre + parts.drop_last()[0]));
        lemma_join_first(parts.drop_last(), pre, sep);
        assert(join(all, sep) =~= pre + join(parts, sep));
    }
}

/// Splitting what was joined gives the pieces back, as long as none of them holds the separator.
pub proof fn lemma_split_join<A>(parts: Seq<Seq<A>>, sep: A)
    requires
        parts.len() >= 1,
        forall|i: int| 0 <= i < parts.len() ==> !(#[trigger] parts[i]).contains(sep),
    ensures
        split(join(parts, sep), sep) == parts,
    decreases parts.len(),
{
    if parts.len() == 1 {
        lemma_split_single(parts[0], sep);
        assert(parts =~= seq![parts[0]]);
    } else {
        let init = parts.drop_last();
        assert forall|i: int| 0 <= i < init.len() implies !(#[trigger] init[i]).contains(sep) by {
            assert(init[i] == parts[i]);
        }
        lemma_split_join(init, sep);
        lemma_split_around(join(init, sep), parts.last(), sep);
        lemma_split_single(parts.last(), sep);
        assert(init + seq![parts.last()] =~= parts);
    }
}

/// The characters of `s`.
pub fn to_chars(s: &str) -> (r: Vec<char>)
    ensures
        r@ == s@,
{
    let mut v: Vec<char> = Vec::new();
    for c in it: s.chars()
        invariant
            v@ == it.seq().take(it.index() as int),
            it.seq() == s@,
    {
        v.push(c);
    }
    v
}

/// The string made of the given characters.
pub fn from_chars(v: &[char]) -> (s: String)
    ensures
        s@ == v@,
{
    let mut s = String::new();
    let mut i: usize = 0;
    while i < v.len()
        invariant
            i <= v.len(),
            s@ == v@.take(i as int),
        decreases v.len() - i,
    {
        s.push(v[i]);
        i += 1;
    }
    s
}

/// Whether two slices hold the same bytes.
pub fn bytes_eq(a: &[u8], b: &[u8]) -> (r: bool)
    ensures
        r == (a@ == b@),
{
    if a.len() != b.len() {
        return false;
    }
    let mut i: usize = 0;
    while i < a.len()
        invariant
            a.len() == b.len(),
            i <= a.len(),
            forall|j: int| 0 <= j < i ==> a@[j] == b@[j],
        decreases a.len() - i,
    {
        if a[i] != b[i] {
            return false;
        }
        i += 1;
    }
    assert(a@ =~= b@);
    true
}

/// Whether two slices hold the same characters.
pub fn chars_eq(a: &[char], b: &[char]) -> (r: bool)
    ensures
        r == (a@ == b@),
{
    if a.len() != b.len() {
        return false;
    }
    let mut i: usize = 0;
    while i < a.len()
        invariant
            a.len() == b.len(),
            i <= a.len(),
            forall|j: int| 0 <= j < i ==> a@[j] == b@[j],
        decreases a.len() - i,
    {
        if a[i] != b[i] {
            return false;
        }
        i += 1;
    }
    assert(a@ =~= b@);
    true
}

/// Whether two strings are the same.
pub fn str_eq(a: &str, b: &str) -> (r: bool)
    ensures
        r == (a@ == b@),
{
    let x = to_chars(a);
    let y = to_chars(b);
    chars_eq(x.as_slice(), y.as_slice())
}

/// Appends the bytes of `s` to `v`.
pub fn append_bytes(v: &mut Vec<u8>, s: &[u8])
    ensures
        final(v)@ == old(v)@ + s@,
{
    let ghost start = v@;
    let mut i: usize = 0;
    while i < s.len()
        invariant
            i <= s.len(),
            v@ == start + s@.take(i as int),
        decreases s.len() - i,
    {
        v.push(s[i]);
        i += 1;
        assert(v@ =~= start + s@.take(i as int));
    }
    assert(s@.take(i as int) =~= s@);
}

/// A copy of the bytes of `s`.
pub fn copy_bytes(s: &[u8]) -> (v: Vec<u8>)
    ensures
        v@ == s@,
{
    let mut v: Vec<u8> = Vec::new();
    append_bytes(&mut v, s);
    assert(v@ =~= s@);
    v
}

/// The character for a digit below ten.
pub open spec fn digit_char(d: int) -> char {
    (0x30 + d) as char
}

/// A number in decimal, without leading zeros.
pub open spec fn decimal(n: nat) -> Seq<char>
    decreases n,
{
    if n < 10 {
        seq![digit_char(n as int)]
    } else {
        decimal(n / 10).push(digit_char((n % 10) as int))
    }
}

/// A number in decimal, with a minus sign before it if it is negative.
pub open spec fn decimal_int(n: int) -> Seq<char> {
    if n < 0 {
        seq!['-'] + decimal((-n) as nat)
    } else {
        decimal(n as nat)
    }
}

/// Whether a character is a decimal digit.
pub open spec fn is_digit(c: char) -> bool {
    '0' <= c <= '9'
}

/// Whether there is at least one character and all of them are digits.
pub open spec fn all_digits(s: Seq<char>) -> bool {
    s.len() > 0 && forall|i: int| 0 <= i < s.len() ==> is_digit(#[trigger] s[i])
}

/// The number that digits stand for.
pub open spec fn digits_value(s: Seq<char>) -> nat
    decreases s.len(),
{
    if s.len() == 0 {
        0
    } else {
        digits_value(s.drop_last()) * 10 + (s.last() as nat - 0x30) as nat
    }
}

/// The number that a text stands for: digits, with an optional sign before them.
pub open spec fn parsed_int(s: Seq<char>) -> Option<int> {
    if all_digits(s) {
        Some(digits_value(s) as int)
    } else if s.len() > 0 && s[0] == '+' && all_digits(s.skip(1)) {
        Some(digits_value(s.skip(1)) as int)
    } else if s.len() > 0 && s[0] == '-' && all_digits(s.skip(1)) {
        Some(-(digits_value(s.skip(1)) as int))
    } else {
        None
    }
}

/// What the error of `str::parse::<i32>` says about a text, nothing if there is no error.
pub uninterp spec fn int_error(s: Seq<char>) -> Seq<char>;

/// The text of the error that `str::parse::<i32>` gives for a text, empty if it gives none. It is a function of the
/// text alone.
#[verifier::external_body]
pub(crate) fn int_error_text(s: &str) -> (r: String)
    ensures
        r@ == int_error(s@),
{
    match s.parse::<i32>() {
        Ok(_) => String::new(),
        Err(e) => e.to_string(),
    }
}

/// The number that a text stands for, if it lies between the given bounds.
pub open spec fn parsed_within(s: Seq<char>, lo: int, hi: int) -> Option<int> {
    match parsed_int(s) {
        Some(n) if lo <= n <= hi => Some(n),
        _ => None,
    }
}

/// A number in decimal.
pub fn dec_u64(n: u64) -> (r: String)
    ensures
        r@ == decimal(n as nat),
{
    let mut digits: Vec<char> = Vec::new();
    let mut rest: u64 = n;
    let ghost mut tail: Seq<char> = seq![];
    while rest >= 10
        invariant
            decimal(n as nat) == decimal(rest as nat) + tail,
            tail.len() == digits.len(),
            forall|i: int| 0 <= i < tail.len() ==> tail[i] == digits@[tail.len() - 1 - i],
        decreases rest,
    {
        let d: u8 = (rest % 10) as u8;
        let c: char = (0x30u8 + d) as char;
        proof {
            let before = tail;
            tail = seq![c] + before;
            assert(decimal(rest as nat) + before =~= decimal((rest / 10) as nat) + tail);
        }
        digits.push(c);
        rest = rest / 10;
    }
    digits.push((0x30u8 + (rest as u8)) as char);
    let ghost all = decimal(n as nat);
    let mut s = String::new();
    let mut i: usize = digits.len();
    while i > 0
        invariant
            i <= digits.len(),
            all.len() == digits.len(),
            forall|k: int| 0 <= k < all.len() ==> all[k] == digits@[all.len() - 1 - k],
            s@ == all.take(digits.len() - i),
        decreases i,
    {
        i = i - 1;
        s.push(digits[i]);
        assert(s@ =~= all.take(digits.len() - i));
    }
    assert(s@ =~= all);
    s
}

/// A number in decimal, with a minus sign before it if it is negative.
pub fn dec_i64(n: i64) -> (r: String)
    ensures
        r@ == decimal_int(n as int),
{
    if n >= 0 {
        dec_u64(n as u64)
    } else {
        let mut s = "-".to_owned();
        let m: u64 = (-(n as i128)) as u64;
        s.append(dec_u64(m).as_str());
        proof {
            reveal_strlit("-");
            assert("-"@ =~= seq!['-']);
        }
        s
    }
}

/// The number that digits stand for, if it fits.
fn parse_digits(s: &[char], from: usize) -> (r: Option<u64>)
    requires
        from <= s.len(),
    ensures
        match r {
            Some(v) => all_digits(s@.skip(from as int)) && digits_value(s@.skip(from as int)) == v,
            None => !all_digits(s@.skip(from as int)) || digits_value(s@.skip(from as int)) > u64::MAX,
        },
{
    let ghost d = s@.skip(from as int);
    if from == s.len() {
        return None;
    }
    let mut acc: u64 = 0;
    let mut i: usize = from;
    while i < s.len()
        invariant
            from <= i <= s.len(),
            d == s@.skip(from as int),
            forall|k: int| 0 <= k < i - from ==> is_digit(#[trigger] d[k]),
            acc == digits_value(d.take(i - from)),
        decreases s.len() - i,
    {
        let c = s[i];
        assert(c == d[i - from]);
        if !(c >= '0' && c <= '9') {
            assert(!is_digit(d[i - from]));
            return None;
        }
        let v: u64 = (c as u64) - 0x30;
        let ghost here = d.take(i - from + 1);
        assert(here.drop_last() =~= d.take(i - from));
        assert(digits_value(here) == acc * 10 + v);
        if acc > (u64::MAX - v) / 10 {
            proof {
                assert(acc * 10 + v > u64::MAX);
                lemma_digits_grow(d, i - from + 1);
            }
            return None;
        }
        acc = acc * 10 + v;
        i = i + 1;
    }
    assert(d.take(i - from) =~= d);
    Some(acc)
}

/// The number that a text stands for, if it fits in 64 bits.
pub fn parse_i64(s: &[char]) -> (r: Option<i64>)
    ensures
        (match r {
            Some(v) => Some(v as int),
            None => None,
        }) == parsed_within(s@, i64::MIN as int, i64::MAX as int),
{
    if s.len() == 0 {
        return None;
    }
    let signed = s[0] == '+' || s[0] == '-';
    assert(s@.skip(0) =~= s@);
    if signed {
        assert(!is_digit(s@[0]));
        match parse_digits(s, 1) {
            None => None,
            Some(v) => if s[0] == '-' {
                if v <= 0x8000_0000_0000_0000 {
                    Some((-(v as i128)) as i64)
                } else {
                    None
                }
            } else if v <= 0x7fff_ffff_ffff_ffff {
                Some(v as i64)
            } else {
                None
            },
        }
    } else {
        match parse_digits(s, 0) {
            None => None,
            Some(v) => if v <= 0x7fff_ffff_ffff_ffff {
                Some(v as i64)
            } else {
                None
            },
        }
    }
}

/// The number that a text stands for, if it fits in 32 bits.
pub fn parse_i32(s: &[char]) -> (r: Option<i32>)
    ensures
        (match r {
            Some(v) => Some(v as int),
            None => None,
        }) == parsed_within(s@, i32::MIN as int, i32::MAX as int),
{
    match parse_i64(s) {
        None => None,
        Some(v) => if v >= i32::MIN as i64 && v <= i32::MAX as i64 {
            Some(v as i32)
        } else {
            None
        },
    }
}

proof fn lemma_digits_grow(d: Seq<char>, k: int)
    requires
        0 <= k <= d.len(),
    ensures
        digits_value(d.take(k)) <= digits_value(d),
    decreases d.len() - k,
{
    if k < d.len() {
        lemma_digits_grow(d, k + 1);
        assert(d.take(k + 1).drop_last() =~= d.take(k));
    } else {
        assert(d.take(k) =~= d);
    }
}

proof fn lemma_decimal(n: nat)
    ensures
        all_digits(decimal(n)),
        digits_value(decimal(n)) == n,
    decreases n,
{
    let s = decimal(n);
    if n < 10 {
        assert(s.drop_last() =~= seq![]);
        assert(digits_value(s.drop_last()) == 0);
    } else {
        lemma_decimal(n / 10);
        assert(s.drop_last() =~= decimal(n / 10));
    }
}

/// A number that was written in decimal is read back as it was.
pub proof fn law_decimal_round_trip(n: int)
    ensures
        parsed_int(decimal_int(n)) == Some(n),
{
    if n < 0 {
        lemma_decimal((-n) as nat);
        let s = decimal_int(n);
        assert(!is_digit(s[0]));
        assert(s.skip(1) =~= decimal((-n) as nat));
    } else {
        lemma_decimal(n as nat);
    }
}

/// Decimal numbers are made of digits.
pub proof fn lemma_decimal_digits(n: nat)
    ensures
        all_digits(decimal(n)),
{
    lemma_decimal(n);
}

/// Where a sequence first occurs in another.
pub open spec fn first_occurrence<A>(hay: Seq<A>, needle: Seq<A>) -> Option<int>
    decreases hay.len(),
{
    if hay.len() < needle.len() {
        None
    } else if hay.take(needle.len() as int) == needle {
        Some(0)
    } else if hay.len() == 0 {
        None
    } else {
        match first_occurrence(hay.skip(1), needle) {
            Some(i) => Some(i + 1),
            None => None,
        }
    }
}

/// Where a byte string first occurs in another.
pub fn find_bytes(hay: &[u8], needle: &[u8]) -> (r: Option<usize>)
    ensures
        (match r {
            Some(i) => Some(i as int),
            None => None,
        }) == first_occurrence(hay@, needle@),
        r matches Some(i) ==> i + needle.len() <= hay.len(),
{
    let n: usize = needle.len();
    let mut i: usize = 0;
    assert(hay@.skip(0) =~= hay@);
    while i <= hay.len() && n <= hay.len() - i
        invariant
            i <= hay.len(),
            n == needle.len(),
            first_occurrence(hay@, needle@) == match first_occurrence(hay@.skip(i as int), needle@) {
                Some(k) => Some(k + i),
                None => None,
            },
        decreases hay.len() - i,
    {
        let w = vstd::slice::slice_subrange(hay, i, i + n);
        assert(w@ =~= hay@.skip(i as int).take(n as int));
        if bytes_eq(w, needle) {
            return Some(i);
        }
        if i == hay.len() {
            return None;
        }
        assert(hay@.skip(i as int).skip(1) =~= hay@.skip(i + 1));
        i = i + 1;
    }
    None
}

/// Where a text first occurs in another.
pub fn find_chars(hay: &[char], needle: &[char]) -> (r: Option<usize>)
    ensures
        (match r {
            Some(i) => Some(i as int),
            None => None,
        }) == first_occurrence(hay@, needle@),
        r matches Some(i) ==> i + needle.len() <= hay.len(),
{
    let n: usize = needle.len();
    let mut i: usize = 0;
    assert(hay@.skip(0) =~= hay@);
    while i <= hay.len() && n <= hay.len() - i
        invariant
            i <= hay.len(),
            n == needle.len(),
            first_occurrence(hay@, needle@) == match first_occurrence(hay@.skip(i as int), needle@) {
                Some(k) => Some(k + i),
                None => None,
            },
        decreases hay.len() - i,
    {
        let w = vstd::slice::slice_subrange(hay, i, i + n);
        assert(w@ =~= hay@.skip(i as int).take(n as int));
        if chars_eq(w, needle) {
            return Some(i);
        }
        if i == hay.len() {
            return None;
        }
        assert(hay@.skip(i as int).skip(1) =~= hay@.skip(i + 1));
        i = i + 1;
    }
    None
}

/// The first place where a sequence occurs in another is where it first occurs.
pub proof fn lemma_first_occurrence<A>(hay: Seq<A>, needle: Seq<A>, k: int)
    requires
        needle.len() > 0,
        0 <= k,
        k + needle.len() <= hay.len(),
        hay.subrange(k, k + needle.len()) == needle,
        forall|j: int| 0 <= j < k ==> #[trigger] hay.subrange(j, j + needle.len()) != needle,
    ensures
        first_occurrence(hay, needle) == Some(k),
    decreases k,
{
    let n = needle.len() as int;
    assert(hay.take(n) =~= hay.subrange(0, n));
    if k > 0 {
        assert(hay.subrange(0, 0 + n) != needle);
        let rest = hay.skip(1);
        assert(rest.subrange(k - 1, k - 1 + n) =~= hay.subrange(k, k + n));
        assert forall|j: int| 0 <= j < k - 1 implies #[trigger] rest.subrange(j, j + n) != needle by {
            assert(rest.subrange(j, j + n) =~= hay.subrange(j + 1, j + 1 + n));
        }
        lemma_first_occurrence(rest, needle, k - 1);
    }
}

/// A number in decimal is made of digits, but for a minus sign.
pub proof fn lemma_decimal_chars(n: int)
    ensures
        decimal_int(n).len() > 0,
        forall|i: int|
            0 <= i < decimal_int(n).len() ==> (#[trigger] decimal_int(n)[i] == '-' || '0' <= decimal_int(n)[i] <= '9'),
{
    if n < 0 {
        lemma_decimal_digits((-n) as nat);
        let d = decimal((-n) as nat);
        let s = decimal_int(n);
        assert forall|i: int| 0 <= i < s.len() implies (#[trigger] s[i] == '-' || '0' <= s[i] <= '9') by {
            if i > 0 {
                assert(s[i] == d[i - 1]);
                assert(is_digit(d[i - 1]));
            }
        }
    } else {
        lemma_decimal_digits(n as nat);
        let d = decimal(n as nat);
        assert forall|i: int| 0 <= i < d.len() implies (#[trigger] d[i] == '-' || '0' <= d[i] <= '9') by {
            assert(is_digit(d[i]));
        }
    }
}

/// Whether Unicode counts a character as white space.
pub open spec fn white_space(c: char) -> bool {
    ||| '\u{9}' <= c <= '\u{d}'
    ||| c == ' '
    ||| c == '\u{85}'
    ||| c == '\u{a0}'
    ||| c == '\u{1680}'
    ||| '\u{2000}' <= c <= '\u{200a}'
    ||| c == '\u{2028}'
    ||| c == '\u{2029}'
    ||| c == '\u{202f}'
    ||| c == '\u{205f}'
    ||| c == '\u{3000}'
}

/// `char::is_whitespace` tells whether a character has the Unicode property `White_Space`.
pub assume_specification[ char::is_whitespace ](c: char) -> (r: bool)
    ensures
        r == white_space(c),
;

/// A text without the white space at its end.
pub open spec fn trimmed(s: Seq<char>) -> Seq<char>
    decreases s.len(),
{
    if s.len() > 0 && white_space(s.last()) {
        trimmed(s.drop_last())
    } else {
        s
    }
}

/// A text without the given character at its end.
pub open spec fn trimmed_of(s: Seq<char>, c: char) -> Seq<char>
    decreases s.len(),
{
    if s.len() > 0 && s.last() == c {
        trimmed_of(s.drop_last(), c)
    } else {
        s
    }
}

/// A text without the white space at its end.
pub fn trim_end(s: &str) -> (r: String)
    ensures
        r@ == trimmed(s@),
        r@.len() <= s@.len(),
        r@ == s@.take(r@.len() as int),
        r@.len() > 0 ==> r@.last() != '\n',
{
    let c = to_chars(s);
    let mut n: usize = c.len();
    assert(c@.take(n as int) =~= c@);
    while n > 0 && c[n - 1].is_whitespace()
        invariant
            n <= c.len(),
            c@ == s@,
            trimmed(c@) == trimmed(c@.take(n as int)),
        decreases n,
    {
        assert(c@.take(n as int).drop_last() =~= c@.take(n - 1));
        assert(c@.take(n as int).last() == c@[n - 1]);
        n = n - 1;
    }
    let r = vstd::slice::slice_subrange(c.as_slice(), 0, n);
    assert(r@ =~= c@.take(n as int));
    proof {
        if n > 0 {
            assert(c@.take(n as int).last() == c@[n - 1]);
        }
    }
    from_chars(r)
}

/// A text without the given character at its end.
pub fn trim_end_of(s: &str, x: char) -> (r: String)
    ensures
        r@ == trimmed_of(s@, x),
{
    let c = to_chars(s);
    let mut n: usize = c.len();
    assert(c@.take(n as int) =~= c@);
    while n > 0 && c[n - 1] == x
        invariant
            n <= c.len(),
            trimmed_of(c@, x) == trimmed_of(c@.take(n as int), x),
        decreases n,
    {
        assert(c@.take(n as int).drop_last() =~= c@.take(n - 1));
        assert(c@.take(n as int).last() == c@[n - 1]);
        n = n - 1;
    }
    let r = vstd::slice::slice_subrange(c.as_slice(), 0, n);
    assert(r@ =~= c@.take(n as int));
    proof {
        if n > 0 {
            assert(c@.take(n as int).last() == c@[n - 1]);
        }
    }
    from_chars(r)
}

/// The number that a text stands for: digits, with an optional plus sign before them.
pub open spec fn parsed_nat(s: Seq<char>) -> Option<nat> {
    if all_digits(s) {
        Some(digits_value(s))
    } else if s.len() > 0 && s[0] == '+' && all_digits(s.skip(1)) {
        Some(digits_value(s.skip(1)))
    } else {
        None
    }
}

/// The number that a text stands for, if it fits in a machine word.
pub fn parse_usize(s: &[char]) -> (r: Option<usize>)
    ensures
        match r {
            Some(v) => parsed_nat(s@) == Some(v as nat),
            None => match parsed_nat(s@) {
                Some(v) => v > usize::MAX,
                None => true,
            },
        },
{
    let from: usize = if s.len() > 0 && s[0] == '+' {
        assert(!is_digit(s@[0]));
        1
    } else {
        0
    };
    assert(s@.skip(0) =~= s@);
    match parse_digits(s, from) {
        Some(v) => if v <= usize::MAX as u64 {
            Some(v as usize)
        } else {
            None
        },
        None => None,
    }
}

/// A text without the white space at its beginning.
pub open spec fn trimmed_front(s: Seq<char>) -> Seq<char>
    decreases s.len(),
{
    if s.len() > 0 && white_space(s[0]) {
        trimmed_front(s.skip(1))
    } else {
        s
    }
}

/// A text without the white space around it.
pub fn trim(s: &str) -> (r: String)
    ensures
        r@ == trimmed(trimmed_front(s@)),
{
    let c = to_chars(s);
    let mut n: usize = 0;
    assert(c@.skip(0) =~= c@);
    while n < c.len() && c[n].is_whitespace()
        invariant
            n <= c.len(),
            trimmed_front(c@) == trimmed_front(c@.skip(n as int)),
        decreases c.len() - n,
    {
        assert(c@.skip(n as int).skip(1) =~= c@.skip(n + 1));
        assert(c@.skip(n as int)[0] == c@[n as int]);
        n = n + 1;
    }
    let r = vstd::slice::slice_subrange(c.as_slice(), n, c.len());
    assert(r@ =~= c@.skip(n as int));
    proof {
        if n < c@.len() {
            assert(c@.skip(n as int)[0] == c@[n as int]);
        }
    }
    trim_end(from_chars(r).as_str())
}

/// The texts of the pieces between the occurrences of a character.
pub fn split_chars(v: &[char], sep: char) -> (r: Vec<String>)
    ensures
        strings(r@) == split(v@, sep),
{
    let mut items: Vec<String> = Vec::new();
    let ghost goal = split(v@, sep);
    let mut start: usize = 0;
    let mut i: usize = 0;
    assert(strings(items@) =~= seq![]);
    assert(v@.skip(0) =~= v@);
    assert(strings(items@) + split(v@.skip(0), sep) =~= goal);
    while i < v.len()
        invariant
            start <= i <= v.len(),
            forall|k: int| start <= k < i ==> v@[k] != sep,
            strings(items@) + split(v@.skip(start as int), sep) == goal,
        decreases v.len() - i,
    {
        if v[i] == sep {
            let piece = from_chars(vstd::slice::slice_subrange(v, start, i));
            let ghost before = items@;
            proof {
                let a = v@.subrange(start as int, i as int);
                let b = v@.skip(i + 1);
                assert(v@.skip(start as int) =~= a.push(sep) + b);
                lemma_split_around(a, b, sep);
                assert(!a.contains(sep));
                lemma_split_single(a, sep);
            }
            items.push(piece);
            assert(strings(items@) =~= strings(before).push(piece@));
            start = i + 1;
            assert(strings(items@) + split(v@.skip(start as int), sep) =~= goal);
        }
        i = i + 1;
    }
    let piece = from_chars(vstd::slice::slice_subrange(v, start, v.len()));
    let ghost before = items@;
    proof {
        let a = v@.skip(start as int);
        assert(a =~= v@.subrange(start as int, v@.len() as int));
        assert(!a.contains(sep));
        lemma_split_single(a, sep);
    }
    items.push(piece);
    assert(strings(items@) =~= strings(before).push(piece@));
    assert(strings(items@) =~= goal);
    items
}

/// The contents of each string.
pub open spec fn strings(v: Seq<String>) -> Seq<Seq<char>> {
    v.map_values(|s: String| s@)
}

/// What a text ends with is white space just if it is cut off: what is left ends in none, and what is cut off is nothing else.
pub proof fn law_trimmed(s: Seq<char>)
    ensures
        trimmed(s).len() <= s.len(),
        trimmed(s) == s.take(trimmed(s).len() as int),
        trimmed(s).len() > 0 ==> !white_space(trimmed(s).last()),
        forall|i: int| trimmed(s).len() <= i < s.len() ==> white_space(#[trigger] s[i]),
    decreases s.len(),
{
    if s.len() > 0 && white_space(s.last()) {
        let init = s.drop_last();
        law_trimmed(init);
        let n = trimmed(s).len() as int;
        assert(init.take(n) =~= s.take(n));
        assert forall|i: int| n <= i < s.len() implies white_space(#[trigger] s[i]) by {
            if i < s.len() - 1 {
                assert(init[i] == s[i]);
            }
        }
    } else {
        assert(s.take(s.len() as int) =~= s);
    }
}

/// The same at the beginning.
pub proof fn law_trimmed_front(s: Seq<char>)
    ensures
        trimmed_front(s).len() <= s.len(),
        trimmed_front(s) == s.skip(s.len() - trimmed_front(s).len()),
        trimmed_front(s).len() > 0 ==> !white_space(trimmed_front(s)[0]),
        forall|i: int| 0 <= i < s.len() - trimmed_front(s).len() ==> white_space(#[trigger] s[i]),
    decreases s.len(),
{
    if s.len() > 0 && white_space(s[0]) {
        let rest = s.skip(1);
        law_trimmed_front(rest);
        let n = s.len() - trimmed_front(s).len();
        assert(rest.skip(n - 1) =~= s.skip(n));
        assert forall|i: int| 0 <= i < n implies white_space(#[trigger] s[i]) by {
            if i > 0 {
                assert(rest[i - 1] == s[i]);
            }
        }
    } else {
        assert(s.skip(0) =~= s);
    }
}

/// The same for one character at the end.
pub proof fn law_trimmed_of(s: Seq<char>, c: char)
    ensures
        trimmed_of(s, c).len() <= s.len(),
        trimmed_of(s, c) == s.take(trimmed_of(s, c).len() as int),
        trimmed_of(s, c).len() > 0 ==> trimmed_of(s, c).last() != c,
        forall|i: int| trimmed_of(s, c).len() <= i < s.len() ==> #[trigger] s[i] == c,
    decreases s.len(),
{
    if s.len() > 0 && s.last() == c {
        let init = s.drop_last();
        law_trimmed_of(init, c);
        let n = trimmed_of(s, c).len() as int;
        assert(init.take(n) =~= s.take(n));
        assert forall|i: int| n <= i < s.len() implies #[trigger] s[i] == c by {
            if i < s.len() - 1 {
                assert(init[i] == s[i]);
            }
        }
    } else {
        assert(s.take(s.len() as int) =~= s);
    }
}

/// Taking a sequence apart at a separator and putting it together again changes nothing, and no piece holds the separator.
pub proof fn law_split_and_join<A>(s: Seq<A>, sep: A, i: int)
    ensures
        join(split(s, sep), sep) == s,
        split(s, sep).len() >= 1,
        0 <= i < split(s, sep).len() ==> !split(s, sep)[i].contains(sep),
        !s.contains(sep) ==> split(s, sep) == seq![s],
{
    lemma_join_split(s, sep);
    lemma_split_len(s, sep);
    lemma_split_pieces(s, sep);
    if !s.contains(sep) {
        lemma_split_single(s, sep);
    }
}

/// Joining puts one separator between each two neighbours.
pub proof fn law_join<A>(p: Seq<A>, parts: Seq<Seq<A>>, sep: A)
    ensures
        join(seq![p], sep) == p,
        parts.len() >= 1 ==> join(seq![p] + parts, sep) == p + seq![sep] + join(parts, sep),
        join(Seq::<Seq<A>>::empty(), sep).len() == 0,
{
    if parts.len() >= 1 {
        lemma_join_cons(p, parts, sep);
        assert(p.push(sep) + join(parts, sep) =~= p + seq![sep] + join(parts, sep));
    }
}

/// Where a sequence is found in another it stands, and it stands nowhere before.
pub proof fn law_first_occurrence<A>(hay: Seq<A>, needle: Seq<A>, j: int)
    ensures
        match first_occurrence(hay, needle) {
            Some(i) => {
                &&& 0 <= i && i + needle.len() <= hay.len()
                &&& hay.subrange(i, i + needle.len()) == needle
                &&& 0 <= j < i ==> hay.subrange(j, j + needle.len()) != needle
            },
            None => 0 <= j && j + needle.len() <= hay.len() ==> hay.subrange(j, j + needle.len()) != needle,
        },
    decreases hay.len(),
{
    if hay.len() >= needle.len() {
        assert(hay.subrange(0, 0 + needle.len() as int) =~= hay.take(needle.len() as int));
        if hay.take(needle.len() as int) != needle && hay.len() > 0 {
            let rest = hay.skip(1);
            law_first_occurrence(rest, needle, j - 1);
            if let Some(i) = first_occurrence(rest, needle) {
                assert(rest.subrange(i, i + needle.len()) =~= hay.subrange(i + 1, i + 1 + needle.len()));
            }
            if 0 < j && j + needle.len() <= hay.len() {
                assert(rest.subrange(j - 1, j - 1 + needle.len()) =~= hay.subrange(j, j + needle.len()));
            }
        }
    }
}

/// A number in decimal is read by its places: one more digit makes ten times the number, and the digit.
pub proof fn law_decimal_places(n: nat, d: nat)
    requires
        d < 10,
        n > 0,
    ensures
        decimal(10 * n + d) == decimal(n).push((0x30 + d) as char),
        decimal(d) == seq![(0x30 + d) as char],
        parsed_int(decimal(n)) == Some(n as int),
{
    law_decimal_round_trip(n as int);
    assert((10 * n + d) / 10 == n && (10 * n + d) % 10 == d);
}

/// One more digit makes ten times the number, and the digit. A sign may stand before the digits, and leading zeros count for nothing.
/// Anything else is no number.
pub proof fn law_digits_are_read(s: Seq<char>, d: int, other: Seq<char>, i: int)
    requires
        0 <= d < 10,
        s.len() > 0 && forall|k: int| 0 <= k < s.len() ==> '0' <= #[trigger] s[k] <= '9',
    ensures
        parsed_int(seq![(0x30 + d) as char]) == Some(d),
        parsed_int(s) is Some,
        parsed_int(s.push((0x30 + d) as char)) == Some(10 * parsed_int(s)->0 + d),
        parsed_int(seq!['0'] + s) == parsed_int(s),
        parsed_int(seq!['+'] + s) == parsed_int(s),
        parsed_int(seq!['-'] + s) == Some(-parsed_int(s)->0),
        parsed_nat(s) matches Some(n) && parsed_int(s) == Some(n as int),
        parsed_nat(seq!['+'] + s) == parsed_nat(s),
        parsed_nat(seq!['-'] + s) is None,
        parsed_int(seq![]) is None && parsed_nat(seq![]) is None,
        parsed_int(seq!['-']) is None && parsed_int(seq!['+']) is None,
        0 < i < other.len() && !('0' <= other[i] <= '9') ==> parsed_int(other) is None && parsed_nat(other) is None,
        other.len() > 0 && !('0' <= other[0] <= '9') && other[0] != '+' && other[0] != '-' ==> parsed_int(other) is None
            && parsed_nat(other) is None,
{
    let c = (0x30 + d) as char;
    assert(is_digit(c));
    let one = seq![c];
    assert(one.drop_last() =~= seq![]);
    assert(digits_value(seq![]) == 0);
    assert(digits_value(one) == d);
    assert(all_digits(one));
    let more = s.push(c);
    assert(more.drop_last() =~= s);
    assert(all_digits(s));
    assert forall|k: int| 0 <= k < more.len() implies is_digit(#[trigger] more[k]) by {
        if k < s.len() {
            assert(more[k] == s[k]);
        }
    }
    assert(all_digits(more));
    let z = seq!['0'] + s;
    assert forall|k: int| 0 <= k < z.len() implies is_digit(#[trigger] z[k]) by {
        if k > 0 {
            assert(z[k] == s[k - 1]);
        }
    }
    lemma_leading_zero(s);
    assert((seq!['+'] + s).skip(1) =~= s);
    assert((seq!['-'] + s).skip(1) =~= s);
    assert((seq!['+'] + s)[0] == '+' && (seq!['-'] + s)[0] == '-');
    assert(!is_digit('+') && !is_digit('-'));
    let minus = seq!['-'];
    let plus = seq!['+'];
    assert(minus[0] == '-' && plus[0] == '+');
    assert(minus.skip(1).len() == 0 && plus.skip(1).len() == 0);
    if 0 < i < other.len() && !('0' <= other[i] <= '9') {
        assert(!is_digit(other[i]));
        assert(other.skip(1)[i - 1] == other[i]);
    }
    if other.len() > 0 && !('0' <= other[0] <= '9') {
        assert(!is_digit(other[0]));
    }
}

proof fn lemma_leading_zero(s: Seq<char>)
    ensures
        digits_value(seq!['0'] + s) == digits_value(s),
    decreases s.len(),
{
    let z = seq!['0'] + s;
    if s.len() > 0 {
        assert(z.drop_last() =~= seq!['0'] + s.drop_last());
        lemma_leading_zero(s.drop_last());
    } else {
        assert(z.drop_last() =~= s);
    }
}

/// A number that was written in decimal is read back if it lies between the bounds, and refused if not.
pub proof fn law_bounds_are_kept(n: int, lo: int, hi: int)
    ensures
        lo <= n <= hi ==> parsed_within(decimal_int(n), lo, hi) == Some(n),
        n < lo || n > hi ==> parsed_within(decimal_int(n), lo, hi) is None,
        n < 0 ==> decimal_int(n) == seq!['-'] + decimal_int(-n),
{
    law_decimal_round_trip(n);
}

} // verus!
