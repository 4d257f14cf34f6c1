//! Character-level helpers on strings.

use vstd::prelude::*;

verus! {

/// Appends one character to a string (std's `String::push`).
/// Claimed: the string afterwards is the old one followed by `c`.
#[verifier::external_body]
pub(crate) fn push_char(s: &mut String, c: char)
    ensures
        final(s)@ == old(s)@.push(c),
{
    s.push(c)
}

/// The characters of `s`, in order.
pub fn chars_of(s: &str) -> (v: Vec<char>)
    ensures
        v@ == s@,
{
    let n = s.unicode_len();
    let mut v: Vec<char> = Vec::new();
    let mut i: usize = 0;
    while i < n
        invariant
            n == s@.len(),
            i <= n,
            v@ == s@.subrange(0, i as int),
        decreases n - i,
    {
        let c = s.get_char(i);
        v.push(c);
        i = i + 1;
        assert(v@ =~= s@.subrange(0, i as int));
    }
    assert(v@ =~= s@);
    v
}

/// Builds a string from a character sequence.
pub fn string_from_chars(v: &[char]) -> (s: String)
    ensures
        s@ == v@,
{
    let mut s = String::new();
    let mut i: usize = 0;
    while i < v.len()
        invariant
            i <= v.len(),
            s@ == v@.subrange(0, i as int),
        decreases v.len() - i,
    {
        push_char(&mut s, v[i]);
        i = i + 1;
        assert(s@ =~= v@.subrange(0, i as int));
    }
    assert(v@ =~= v@.subrange(0, v@.len() as int));
    s
}

} // verus!

verus! {

/// `p` is a prefix of `s`.
pub open spec fn is_prefix(p: Seq<char>, s: Seq<char>) -> bool {
    p.len() <= s.len() && s.subrange(0, p.len() as int) == p
}

/// `pat` occurs in `s` starting at index `i`.
pub open spec fn occurs_at(s: Seq<char>, pat: Seq<char>, i: int) -> bool {
    0 <= i && i + pat.len() <= s.len() && s.subrange(i, i + pat.len()) == pat
}

/// The first index at or after `i` where `pat` occurs in `s`.
pub open spec fn find_from(s: Seq<char>, pat: Seq<char>, i: int) -> Option<int>
    decreases s.len() + 1 - i,
{
    if i < 0 || i + pat.len() > s.len() {
        None
    } else if occurs_at(s, pat, i) {
        Some(i)
    } else {
        find_from(s, pat, i + 1)
    }
}

/// Whether `s` starts with `p`.
pub fn starts_with(s: &[char], p: &[char]) -> (b: bool)
    ensures
        b == is_prefix(p@, s@),
{
    if p.len() > s.len() {
        return false;
    }
    let mut i: usize = 0;
    while i < p.len()
        invariant
            p.len() <= s.len(),
            i <= p.len(),
            s@.subrange(0, i as int) == p@.subrange(0, i as int),
        decreases p.len() - i,
    {
        if s[i] != p[i] {
            assert(s@.subrange(0, p.len() as int)[i as int] != p@[i as int]);
            return false;
        }
        i = i + 1;
        assert(s@.subrange(0, i as int) =~= p@.subrange(0, i as int));
    }
    assert(p@.subrange(0, p.len() as int) =~= p@);
    true
}

/// Whether `pat` occurs in `s` at index `i`.
pub fn matches_at(s: &[char], pat: &[char], i: usize) -> (b: bool)
    ensures
        b == occurs_at(s@, pat@, i as int),
{
    if i > s.len() || pat.len() > s.len() - i {
        return false;
    }
    let mut j: usize = 0;
    while j < pat.len()
        invariant
            i + pat.len() <= s.len(),
            j <= pat.len(),
            s@.subrange(i as int, i + j) == pat@.subrange(0, j as int),
        decreases pat.len() - j,
    {
        if s[i + j] != pat[j] {
            assert(s@.subrange(i as int, i + pat.len())[j as int] != pat@[j as int]);
            return false;
        }
        j = j + 1;
        assert(s@.subrange(i as int, i + j) =~= pat@.subrange(0, j as int));
    }
    assert(pat@.subrange(0, pat.len() as int) =~= pat@);
    true
}

/// The first index at or after `from` where `pat` occurs in `s`.
pub fn find(s: &[char], pat: &[char], from: usize) -> (r: Option<usize>)
    ensures
        r == (match find_from(s@, pat@, from as int) {
            Some(i) => Some(i as usize),
            None => None::<usize>,
        }),
        r matches Some(i) ==> from <= i && i + pat.len() <= s.len(),
{
    let mut i: usize = from;
    while i <= s.len() && pat.len() <= s.len() - i
        invariant
            from <= i,
            find_from(s@, pat@, from as int) == find_from(s@, pat@, i as int),
        decreases s.len() + 1 - i,
    {
        if matches_at(s, pat, i) {
            return Some(i);
        }
        if i == s.len() {
            assert(s@.subrange(i as int, i as int) =~= pat@);
        }
        i = i + 1;
    }
    None
}

} // verus!

verus! {

/// Strict lexicographic order on character sequences, comparing characters by
/// their scalar values (the order of `String`'s `Ord`, which compares UTF-8 bytes).
pub open spec fn lex_lt(a: Seq<char>, b: Seq<char>) -> bool
    decreases a.len(),
{
    if a.len() == 0 {
        b.len() > 0
    } else if b.len() == 0 {
        false
    } else if a[0] == b[0] {
        lex_lt(a.drop_first(), b.drop_first())
    } else {
        a[0] < b[0]
    }
}

/// No sequence precedes itself.
pub proof fn lemma_lex_irreflexive(a: Seq<char>)
    ensures
        !lex_lt(a, a),
    decreases a.len(),
{
    if a.len() > 0 {
        lemma_lex_irreflexive(a.drop_first());
    }
}

/// The order is transitive.
pub proof fn lemma_lex_transitive(a: Seq<char>, b: Seq<char>, c: Seq<char>)
    requires
        lex_lt(a, b),
        lex_lt(b, c),
    ensures
        lex_lt(a, c),
    decreases a.len(),
{
    if a.len() > 0 && b.len() > 0 && c.len() > 0 {
        if a[0] == b[0] && b[0] == c[0] {
            lemma_lex_transitive(a.drop_first(), b.drop_first(), c.drop_first());
        }
    }
}

/// Two distinct sequences are ordered one way or the other.
pub proof fn lemma_lex_total(a: Seq<char>, b: Seq<char>)
    requires
        a != b,
    ensures
        lex_lt(a, b) || lex_lt(b, a),
    decreases a.len(),
{
    if a.len() > 0 && b.len() > 0 {
        if a[0] == b[0] {
            if a.drop_first() == b.drop_first() {
                assert(a =~= seq![a[0]] + a.drop_first());
                assert(b =~= seq![b[0]] + b.drop_first());
            }
            lemma_lex_total(a.drop_first(), b.drop_first());
        }
    } else if a.len() == 0 && b.len() == 0 {
        assert(a =~= b);
    }
}

/// Whether `a` comes strictly before `b`.
pub fn lex_less(a: &[char], b: &[char]) -> (r: bool)
    ensures
        r == lex_lt(a@, b@),
{
    let mut i: usize = 0;
    assert(a@.subrange(0, a@.len() as int) =~= a@);
    assert(b@.subrange(0, b@.len() as int) =~= b@);
    while i < a.len() && i < b.len()
        invariant
            i <= a.len(),
            i <= b.len(),
            a@.subrange(0, i as int) == b@.subrange(0, i as int),
            lex_lt(a@, b@) == lex_lt(a@.subrange(i as int, a@.len() as int), b@.subrange(i as int, b@.len() as int)),
        decreases a.len() - i,
    {
        let x = a[i];
        let y = b[i];
        if x != y {
            proof {
                let ra = a@.subrange(i as int, a@.len() as int);
                let rb = b@.subrange(i as int, b@.len() as int);
                assert(ra[0] == x && rb[0] == y);
            }
            return x < y;
        }
        proof {
            let ra = a@.subrange(i as int, a@.len() as int);
            let rb = b@.subrange(i as int, b@.len() as int);
            assert(ra.drop_first() =~= a@.subrange(i + 1, a@.len() as int));
            assert(rb.drop_first() =~= b@.subrange(i + 1, b@.len() as int));
        }
        i = i + 1;
        assert(a@.subrange(0, i as int) =~= b@.subrange(0, i as int));
    }
    i < b.len()
}

/// ASCII lower-casing of one character.
pub open spec fn ascii_lower(c: char) -> char {
    if 'A' <= c && c <= 'Z' {
        ((c as u32) + 32) as char
    } else {
        c
    }
}

/// ASCII lower-casing of a character sequence.
pub open spec fn ascii_lower_seq(s: Seq<char>) -> Seq<char> {
    s.map_values(|c: char| ascii_lower(c))
}

/// ASCII lower-casing of one character.
pub fn to_ascii_lower(c: char) -> (r: char)
    ensures
        r == ascii_lower(c),
{
    if 'A' <= c && c <= 'Z' {
        let u: u8 = (c as u8) + 32;
        u as char
    } else {
        c
    }
}

} // verus!

verus! {

/// The decimal digit character for `d < 10`.
pub open spec fn digit_char(d: nat) -> char {
    if d == 0 { '0' } else if d == 1 { '1' } else if d == 2 { '2' } else if d == 3 { '3' }
    else if d == 4 { '4' } else if d == 5 { '5' } else if d == 6 { '6' } else if d == 7 { '7' }
    else if d == 8 { '8' } else { '9' }
}

/// The value of a decimal digit character.
pub open spec fn digit_value(c: char) -> nat {
    if c == '0' { 0 } else if c == '1' { 1 } else if c == '2' { 2 } else if c == '3' { 3 }
    else if c == '4' { 4 } else if c == '5' { 5 } else if c == '6' { 6 } else if c == '7' { 7 }
    else if c == '8' { 8 } else { 9 }
}

/// Whether `c` is one of `0`..`9`.
pub open spec fn is_digit(c: char) -> bool {
    '0' <= c && c <= '9'
}

/// The shortest decimal representation of `n` (what `n.to_string()` gives).
pub open spec fn decimal(n: nat) -> Seq<char>
    decreases n,
{
    if n < 10 {
        seq![digit_char(n)]
    } else {
        decimal(n / 10).push(digit_char(n % 10))
    }
}

/// The value of a sequence of decimal digits.
pub open spec fn digits_value(s: Seq<char>) -> nat
    decreases s.len(),
{
    if s.len() == 0 {
        0
    } else {
        digits_value(s.drop_last()) * 10 + digit_value(s.last())
    }
}

/// Every character of `d` is a decimal digit.
pub open spec fn all_digits(d: Seq<char>) -> bool {
    forall|i: int| 0 <= i < d.len() ==> is_digit(#[trigger] d[i])
}

/// `s` without one leading `+`, if it has one.
pub open spec fn strip_plus(s: Seq<char>) -> Seq<char> {
    if s.len() > 0 && s[0] == '+' { s.drop_first() } else { s }
}

/// What std's `FromStr` for unsigned integers accepts, before the range check:
/// an optional `+`, then at least one decimal digit and nothing else.
pub open spec fn parse_decimal(s: Seq<char>) -> Option<nat> {
    if strip_plus(s).len() > 0 && all_digits(strip_plus(s)) {
        Some(digits_value(strip_plus(s)))
    } else {
        None
    }
}

/// `s.parse::<T>()` for an unsigned integer type whose largest value is `max`.
pub open spec fn parse_unsigned(s: Seq<char>, max: nat) -> Option<nat> {
    match parse_decimal(s) {
        Some(v) => if v <= max { Some(v) } else { None },
        None => None,
    }
}

/// The decimal representation of `n` is a non-empty run of digits whose value is `n`, so
/// parsing it gives `n` back.
pub proof fn lemma_decimal_digits(n: nat)
    ensures
        decimal(n).len() > 0,
        all_digits(decimal(n)),
        digits_value(decimal(n)) == n,
        strip_plus(decimal(n)) == decimal(n),
        parse_decimal(decimal(n)) == Some(n),
    decreases n,
{
    let d = decimal(n);
    if n >= 10 {
        lemma_decimal_digits(n / 10);
        assert(d.drop_last() =~= decimal(n / 10));
        assert forall|i: int| 0 <= i < d.len() implies is_digit(#[trigger] d[i]) by {
            if i < d.len() - 1 {
                assert(d[i] == decimal(n / 10)[i]);
            }
        }
        let q = n / 10;
        let r = n % 10;
        assert(digit_value(digit_char(r)) == r);
        assert(d.last() == digit_char(r));
        assert(digits_value(d) == digits_value(decimal(q)) * 10 + digit_value(d.last()));
        assert(q * 10 + r == n);
    } else {
        assert(d.drop_last() =~= Seq::<char>::empty());
        assert(digit_value(digit_char(n)) == n);
        assert(digits_value(d) == digits_value(d.drop_last()) * 10 + digit_value(d.last()));
    }
    assert(is_digit(d[0]));
}

fn digit_str(d: u64) -> (s: &'static str)
    requires
        d < 10,
    ensures
        s@ == seq![digit_char(d as nat)],
{
    proof {
        reveal_strlit("0");
        reveal_strlit("1");
        reveal_strlit("2");
        reveal_strlit("3");
        reveal_strlit("4");
        reveal_strlit("5");
        reveal_strlit("6");
        reveal_strlit("7");
        reveal_strlit("8");
        reveal_strlit("9");
    }
    let s = if d == 0 { "0" } else if d == 1 { "1" } else if d == 2 { "2" } else if d == 3 { "3" }
        else if d == 4 { "4" } else if d == 5 { "5" } else if d == 6 { "6" } else if d == 7 { "7" }
        else if d == 8 { "8" } else { "9" };
    assert(s@ =~= seq![digit_char(d as nat)]);
    s
}

/// Appends the decimal representation of `n` to `out`.
pub fn push_decimal(out: &mut String, n: u64)
    ensures
        final(out)@ == old(out)@ + decimal(n as nat),
    decreases n,
{
    if n < 10 {
        out.append(digit_str(n));
    } else {
        push_decimal(out, n / 10);
        out.append(digit_str(n % 10));
        proof {
            let a = old(out)@;
            assert(a + decimal(n as nat) =~= (a + decimal((n / 10) as nat)) + seq![digit_char((n % 10) as nat)]);
        }
    }
}

/// The decimal representation of `n`.
pub fn u64_to_decimal(n: u64) -> (s: String)
    ensures
        s@ == decimal(n as nat),
{
    let mut s = String::new();
    push_decimal(&mut s, n);
    assert(s@ =~= decimal(n as nat));
    s
}

fn char_digit_value(c: char) -> (d: u64)
    requires
        is_digit(c),
    ensures
        d == digit_value(c),
        d < 10,
{
    if c == '0' { 0 } else if c == '1' { 1 } else if c == '2' { 2 } else if c == '3' { 3 }
    else if c == '4' { 4 } else if c == '5' { 5 } else if c == '6' { 6 } else if c == '7' { 7 }
    else if c == '8' { 8 } else { 9 }
}

/// `s.parse::<u64>().ok()`.
pub fn parse_u64(s: &str) -> (r: Option<u64>)
    ensures
        r == (match parse_unsigned(s@, u64::MAX as nat) {
            Some(v) => Some(v as u64),
            None => None::<u64>,
        }),
{
    let cs = chars_of(s);
    let start: usize = if cs.len() > 0 && cs[0] == '+' { 1 } else { 0 };
    let ghost digits = strip_plus(s@);
    assert(digits =~= cs@.subrange(start as int, cs@.len() as int));
    if start >= cs.len() {
        return None;
    }
    let mut value: u64 = 0;
    let mut overflow = false;
    let mut i: usize = start;
    while i < cs.len()
        invariant
            start <= i <= cs.len(),
            start < cs.len(),
            cs@ == s@,
            digits == strip_plus(s@),
            digits == cs@.subrange(start as int, cs@.len() as int),
            forall|j: int| start <= j < i ==> is_digit(#[trigger] cs@[j]),
            !overflow ==> value == digits_value(cs@.subrange(start as int, i as int)),
            overflow ==> digits_value(cs@.subrange(start as int, i as int)) > u64::MAX,
        decreases cs.len() - i,
    {
        let c = cs[i];
        if !('0' <= c && c <= '9') {
            assert(digits[i - start] == c);
            assert(!is_digit(digits[i - start]));
            assert(!all_digits(digits));
            return None;
        }
        let d = char_digit_value(c);
        proof {
            let pre = cs@.subrange(start as int, i as int);
            let post = cs@.subrange(start as int, i + 1);
            assert(post.drop_last() =~= pre);
            assert(post.last() == c);
            assert(digits_value(post) == digits_value(pre) * 10 + d);
            if overflow {
                assert(digits_value(pre) * 10 + d >= digits_value(pre)) by (nonlinear_arith);
            }
        }
        if !overflow {
            if value > (u64::MAX - d) / 10 {
                proof {
                    let pre = cs@.subrange(start as int, i as int);
                    assert(value * 10 + d > u64::MAX) by (nonlinear_arith)
                        requires value > (u64::MAX - d) / 10, d < 10;
                }
                overflow = true;
            } else {
                assert(value * 10 + d <= u64::MAX) by (nonlinear_arith)
                    requires value <= (u64::MAX - d) / 10, d < 10;
                value = value * 10 + d;
            }
        }
        i = i + 1;
    }
    assert(cs@.subrange(start as int, cs@.len() as int) == digits);
    assert forall|j: int| 0 <= j < digits.len() implies is_digit(#[trigger] digits[j]) by {
        assert(digits[j] == cs@[start + j]);
    }
    if overflow {
        None
    } else {
        Some(value)
    }
}

} // verus!

verus! {

/// A non-empty character sequence has a non-empty UTF-8 encoding, and the empty one an empty encoding.
pub proof fn lemma_utf8_len_positive(s: Seq<char>)
    ensures
        (s.len() > 0) <==> (vstd::utf8::encode_utf8(s).len() > 0),
{
    if s.len() > 0 {
        assert(vstd::utf8::encode_scalar(s[0] as u32).len() >= 1);
    }
}

} // verus!

verus! {

/// The first `n` characters of `s`.
pub fn prefix_slice(s: &[char], n: usize) -> (r: &[char])
    requires
        n <= s.len(),
    ensures
        r@ == s@.subrange(0, n as int),
{
    vstd::slice::slice_subrange(s, 0, n)
}

} // verus!

verus! {

/// A match that `find_from` reports lies at or after the start and inside `s`.
pub proof fn lemma_find_from_bounds(s: Seq<char>, pat: Seq<char>, i: int)
    ensures
        find_from(s, pat, i) matches Some(j) ==> i <= j && j + pat.len() <= s.len(),
    decreases s.len() + 1 - i,
{
    if !(i < 0 || i + pat.len() > s.len()) && !occurs_at(s, pat, i) {
        lemma_find_from_bounds(s, pat, i + 1);
    }
}

/// A match that `find_from` reports is an occurrence, and none lies between the start and it.
pub proof fn lemma_find_from_found(s: Seq<char>, pat: Seq<char>, i: int)
    ensures
        find_from(s, pat, i) matches Some(j) ==> occurs_at(s, pat, j)
            && forall|t: int| i <= t < j ==> !#[trigger] occurs_at(s, pat, t),
    decreases s.len() + 1 - i,
{
    if !(i < 0 || i + pat.len() > s.len()) && !occurs_at(s, pat, i) {
        lemma_find_from_found(s, pat, i + 1);
    }
}

/// `find_from` reports the first occurrence at or after the start.
pub proof fn lemma_find_from_at(s: Seq<char>, pat: Seq<char>, i: int, k: int)
    requires
        0 <= i <= k,
        occurs_at(s, pat, k),
        forall|t: int| i <= t < k ==> !#[trigger] occurs_at(s, pat, t),
    ensures
        find_from(s, pat, i) == Some(k),
    decreases k - i,
{
    if i < k {
        lemma_find_from_at(s, pat, i + 1, k);
    }
}

/// Where `pat` occurs at or after the start, `find_from` reports a match.
pub proof fn lemma_find_from_some(s: Seq<char>, pat: Seq<char>, i: int, k: int)
    requires
        0 <= i <= k,
        occurs_at(s, pat, k),
    ensures
        find_from(s, pat, i) is Some,
    decreases k - i,
{
    if i < k && !occurs_at(s, pat, i) {
        lemma_find_from_some(s, pat, i + 1, k);
    }
}

} // verus!

verus! {

/// The views of a sequence of strings.
pub open spec fn views(v: Seq<String>) -> Seq<Seq<char>> {
    v.map_values(|s: String| s@)
}

/// The pieces of `s` between occurrences of `c` (what `str::split(c)` yields):
/// always at least one piece, empty pieces included.
pub open spec fn split_char(s: Seq<char>, c: char) -> Seq<Seq<char>>
    decreases s.len(),
{
    if s.len() == 0 {
        seq![Seq::empty()]
    } else {
        let init = split_char(s.drop_last(), c);
        if s.last() == c {
            init.push(Seq::empty())
        } else {
            init.update(init.len() - 1, init.last().push(s.last()))
        }
    }
}

/// Splitting always yields at least one piece.
pub proof fn lemma_split_nonempty(s: Seq<char>, c: char)
    ensures
        split_char(s, c).len() >= 1,
    decreases s.len(),
{
    if s.len() > 0 {
        lemma_split_nonempty(s.drop_last(), c);
    }
}

/// The pieces of `s` between occurrences of `c`.
pub fn split_on_char(s: &[char], c: char) -> (v: Vec<String>)
    ensures
        views(v@) == split_char(s@, c),
{
    let mut pieces: Vec<String> = Vec::new();
    let mut current: Vec<char> = Vec::new();
    let mut i: usize = 0;
    assert(s@.subrange(0, 0) =~= Seq::<char>::empty());
    assert(views(pieces@).push(current@) =~= split_char(Seq::<char>::empty(), c));
    while i < s.len()
        invariant
            i <= s.len(),
            views(pieces@).push(current@) == split_char(s@.subrange(0, i as int), c),
        decreases s.len() - i,
    {
        let ghost pre = s@.subrange(0, i as int);
        let ghost post = s@.subrange(0, i + 1);
        assert(post.drop_last() =~= pre);
        let x = s[i];
        if x == c {
            let piece = string_from_chars(current.as_slice());
            let ghost before = views(pieces@);
            pieces.push(piece);
            current = Vec::new();
            assert(views(pieces@) =~= before.push(piece@));
            assert(views(pieces@).push(current@) =~= split_char(post, c));
        } else {
            let ghost before = views(pieces@);
            current.push(x);
            assert(views(pieces@).push(current@) =~= before.push(current@));
            assert(views(pieces@).push(current@) =~= split_char(post, c));
        }
        i = i + 1;
    }
    assert(s@.subrange(0, s@.len() as int) =~= s@);
    let last = string_from_chars(current.as_slice());
    let ghost before = views(pieces@);
    pieces.push(last);
    assert(views(pieces@) =~= before.push(last@));
    pieces
}

/// The parts joined with `sep` between neighbours.
pub open spec fn join_with(parts: Seq<Seq<char>>, sep: Seq<char>) -> Seq<char>
    decreases parts.len(),
{
    if parts.len() == 0 {
        Seq::empty()
    } else if parts.len() == 1 {
        parts[0]
    } else {
        join_with(parts.drop_last(), sep) + sep + parts.last()
    }
}

/// The strings of `parts` joined with `sep` between neighbours.
pub fn join_strings(parts: &Vec<String>, sep: &str) -> (s: String)
    ensures
        s@ == join_with(views(parts@), sep@),
{
    let mut s = String::new();
    let mut i: usize = 0;
    while i < parts.len()
        invariant
            i <= parts@.len(),
            s@ == join_with(views(parts@).subrange(0, i as int), sep@),
        decreases parts.len() - i,
    {
        let ghost pre = views(parts@).subrange(0, i as int);
        let ghost post = views(parts@).subrange(0, i + 1);
        assert(post.drop_last() =~= pre);
        if i > 0 {
            s.append(sep);
        }
        s.append(parts[i].as_str());
        proof {
            if i == 0 {
                assert(s@ =~= post[0]);
            } else {
                assert(s@ =~= join_with(pre, sep@) + sep@ + post.last());
            }
        }
        i = i + 1;
    }
    assert(views(parts@).subrange(0, parts@.len() as int) =~= views(parts@));
    s
}

/// A space or a tab.
pub open spec fn is_ws(c: char) -> bool {
    c == ' ' || c == '\t'
}

/// `s` without leading spaces and tabs.
pub open spec fn trim_start_ws(s: Seq<char>) -> Seq<char>
    decreases s.len(),
{
    if s.len() > 0 && is_ws(s[0]) { trim_start_ws(s.drop_first()) } else { s }
}

/// `s` without trailing spaces and tabs.
pub open spec fn trim_end_ws(s: Seq<char>) -> Seq<char>
    decreases s.len(),
{
    if s.len() > 0 && is_ws(s.last()) { trim_end_ws(s.drop_last()) } else { s }
}

/// `s` without leading and trailing spaces and tabs.
pub open spec fn trim_ws(s: Seq<char>) -> Seq<char> {
    trim_end_ws(trim_start_ws(s))
}

/// `s` without leading and trailing spaces and tabs.
pub fn trim_ws_str(s: &str) -> (r: String)
    ensures
        r@ == trim_ws(s@),
{
    let cs = chars_of(s);
    let mut a: usize = 0;
    assert(cs@.subrange(0, cs@.len() as int) =~= cs@);
    while a < cs.len() && (cs[a] == ' ' || cs[a] == '\t')
        invariant
            a <= cs@.len(),
            trim_start_ws(cs@) == trim_start_ws(cs@.subrange(a as int, cs@.len() as int)),
        decreases cs.len() - a,
    {
        assert(cs@.subrange(a as int, cs@.len() as int).drop_first() =~= cs@.subrange(a + 1, cs@.len() as int));
        a = a + 1;
    }
    let ghost mid = cs@.subrange(a as int, cs@.len() as int);
    assert(trim_start_ws(mid) == mid);
    let mut b: usize = cs.len();
    while b > a && (cs[b - 1] == ' ' || cs[b - 1] == '\t')
        invariant
            a <= b <= cs@.len(),
            trim_end_ws(mid) == trim_end_ws(cs@.subrange(a as int, b as int)),
        decreases b,
    {
        assert(cs@.subrange(a as int, b as int).drop_last() =~= cs@.subrange(a as int, b - 1));
        b = b - 1;
    }
    let out = string_from_chars(slice_range(cs.as_slice(), a, b));
    proof {
        let t = cs@.subrange(a as int, b as int);
        assert(trim_end_ws(t) == t);
        assert(cs@ =~= s@);
    }
    out
}

/// The characters of `s` from `a` up to `b`.
pub fn slice_range(s: &[char], a: usize, b: usize) -> (r: &[char])
    requires
        a <= b <= s.len(),
    ensures
        r@ == s@.subrange(a as int, b as int),
{
    vstd::slice::slice_subrange(s, a, b)
}

/// ASCII lower-casing of a string.
pub fn to_ascii_lower_str(s: &str) -> (r: String)
    ensures
        r@ == ascii_lower_seq(s@),
{
    let cs = chars_of(s);
    let mut out = String::new();
    let mut i: usize = 0;
    while i < cs.len()
        invariant
            i <= cs@.len(),
            cs@ == s@,
            out@ == ascii_lower_seq(cs@.subrange(0, i as int)),
        decreases cs.len() - i,
    {
        push_char(&mut out, to_ascii_lower(cs[i]));
        i = i + 1;
        assert(out@ =~= ascii_lower_seq(cs@.subrange(0, i as int)));
    }
    assert(cs@.subrange(0, cs@.len() as int) =~= cs@);
    out
}

} // verus!

verus! {

/// Splitting at a separator splits the two sides apart.
pub proof fn lemma_split_concat(a: Seq<char>, b: Seq<char>, c: char)
    ensures
        split_char(a + seq![c] + b, c) == split_char(a, c) + split_char(b, c),
    decreases b.len(),
{
    let s = a + seq![c] + b;
    if b.len() == 0 {
        assert(s =~= a.push(c));
        assert(s.drop_last() =~= a);
        assert(split_char(b, c) =~= seq![Seq::<char>::empty()]);
        assert(split_char(a, c).push(Seq::<char>::empty()) =~= split_char(a, c) + split_char(b, c));
    } else {
        let b0 = b.drop_last();
        assert(s.drop_last() =~= a + seq![c] + b0);
        assert(s.last() == b.last());
        lemma_split_concat(a, b0, c);
        lemma_split_nonempty(b0, c);
        lemma_split_nonempty(a, c);
        let x = split_char(a, c);
        let y = split_char(b0, c);
        if b.last() == c {
            assert(split_char(s, c) =~= (x + y).push(Seq::<char>::empty()));
            assert((x + y).push(Seq::<char>::empty()) =~= x + y.push(Seq::<char>::empty()));
        } else {
            let xy = x + y;
            assert(xy.last() == y.last());
            assert(xy.update(xy.len() - 1, xy.last().push(b.last())) =~= x + y.update(y.len() - 1, y.last().push(b.last())));
        }
    }
}

/// Text without the separator is a single piece.
pub proof fn lemma_split_plain(s: Seq<char>, c: char)
    requires
        forall|i: int| 0 <= i < s.len() ==> s[i] != c,
    ensures
        split_char(s, c) == seq![s],
    decreases s.len(),
{
    if s.len() > 0 {
        let s0 = s.drop_last();
        assert forall|i: int| 0 <= i < s0.len() implies s0[i] != c by {
            assert(s0[i] == s[i]);
        }
        lemma_split_plain(s0, c);
        assert(s.last() == s[s.len() - 1]);
        assert(s0.push(s.last()) =~= s);
        assert(seq![s0].update(0, s0.push(s.last())) =~= seq![s]);
    } else {
        assert(s =~= Seq::<char>::empty());
    }
}

/// Splitting parts joined by a separator that none of them holds gives the parts back.
pub proof fn lemma_split_join(parts: Seq<Seq<char>>, c: char)
    requires
        parts.len() >= 1,
        forall|i: int, j: int| 0 <= i < parts.len() && 0 <= j < parts[i].len() ==> #[trigger] parts[i][j] != c,
    ensures
        split_char(join_with(parts, seq![c]), c) == parts,
    decreases parts.len(),
{
    if parts.len() == 1 {
        let p = parts[0];
        assert forall|j: int| 0 <= j < p.len() implies p[j] != c by {
            assert(parts[0][j] != c);
        }
        lemma_split_plain(p, c);
        assert(parts =~= seq![p]);
    } else {
        let init = parts.drop_last();
        assert forall|i: int, j: int| 0 <= i < init.len() && 0 <= j < init[i].len() implies #[trigger] init[i][j] != c by {
            assert(init[i] == parts[i]);
        }
        lemma_split_join(init, c);
        let last = parts.last();
        assert forall|j: int| 0 <= j < last.len() implies last[j] != c by {
            assert(parts[parts.len() - 1][j] != c);
        }
        lemma_split_plain(last, c);
        lemma_split_concat(join_with(init, seq![c]), last, c);
        assert(init + seq![last] =~= parts);
    }
}

/// Text that neither starts nor ends with a space or tab is its own trimming.
pub proof fn lemma_trim_plain(s: Seq<char>)
    requires
        s.len() > 0,
        !is_ws(s[0]),
        !is_ws(s.last()),
    ensures
        trim_ws(s) == s,
{
}

/// A leading space is trimmed away.
pub proof fn lemma_trim_space(s: Seq<char>)
    requires
        s.len() > 0,
        !is_ws(s[0]),
        !is_ws(s.last()),
    ensures
        trim_ws(seq![' '] + s) == s,
{
    let t = seq![' '] + s;
    assert(t.drop_first() =~= s);
    assert(t[0] == ' ');
    assert(trim_start_ws(s) == s);
    assert(trim_start_ws(t) == trim_start_ws(t.drop_first()));
    assert(trim_end_ws(s) == s);
}

} // verus!

verus! {

/// Every character of joined parts is a character of a part or of the separator.
pub proof fn lemma_join_chars(parts: Seq<Seq<char>>, sep: Seq<char>, ok: spec_fn(char) -> bool)
    requires
        forall|i: int, j: int| 0 <= i < parts.len() && 0 <= j < parts[i].len() ==> ok(#[trigger] parts[i][j]),
        forall|j: int| 0 <= j < sep.len() ==> ok(#[trigger] sep[j]),
    ensures
        forall|k: int| 0 <= k < join_with(parts, sep).len() ==> ok(#[trigger] join_with(parts, sep)[k]),
    decreases parts.len(),
{
    if parts.len() == 1 {
        assert forall|k: int| 0 <= k < join_with(parts, sep).len() implies ok(#[trigger] join_with(parts, sep)[k]) by {
            assert(parts[0][k] == join_with(parts, sep)[k]);
        }
    } else if parts.len() > 1 {
        let init = parts.drop_last();
        assert forall|i: int, j: int| 0 <= i < init.len() && 0 <= j < init[i].len() implies ok(#[trigger] init[i][j]) by {
            assert(init[i] == parts[i]);
        }
        lemma_join_chars(init, sep, ok);
        let a = join_with(init, sep);
        let last = parts.last();
        let whole = join_with(parts, sep);
        assert(whole == a + sep + last);
        assert forall|k: int| 0 <= k < whole.len() implies ok(#[trigger] whole[k]) by {
            if k < a.len() {
                assert(whole[k] == a[k]);
            } else if k < a.len() + sep.len() {
                assert(whole[k] == sep[k - a.len()]);
            } else {
                assert(whole[k] == last[k - a.len() - sep.len()]);
                assert(parts[parts.len() - 1][k - a.len() - sep.len()] == whole[k]);
            }
        }
    }
}

} // verus!
