//! Text helpers: the ordering of names (as Rust orders `String`s: character by
//! character, by code point) and sorted sets of names.
use vstd::prelude::*;

verus! {

/// `a` sorts strictly before `b`.
pub open spec fn text_lt(a: Seq<char>, b: Seq<char>) -> bool
    decreases a.len(),
{
    if a.len() == 0 {
        b.len() > 0
    } else if b.len() == 0 {
        false
    } else if a[0] != b[0] {
        (a[0] as int) < (b[0] as int)
    } else {
        text_lt(a.drop_first(), b.drop_first())
    }
}

pub proof fn lemma_text_lt_irreflexive(a: Seq<char>)
    ensures
        !text_lt(a, a),
    decreases a.len(),
{
    if a.len() > 0 {
        lemma_text_lt_irreflexive(a.drop_first());
    }
}

pub proof fn lemma_text_lt_transitive(a: Seq<char>, b: Seq<char>, c: Seq<char>)
    ensures
        text_lt(a, b) ==> !text_lt(b, a),
        text_lt(a, b) && text_lt(b, c) ==> text_lt(a, c),
    decreases a.len(),
{
    if a.len() > 0 && b.len() > 0 {
        if c.len() > 0 {
            lemma_text_lt_transitive(a.drop_first(), b.drop_first(), c.drop_first());
        } else {
            lemma_text_lt_transitive(a.drop_first(), b.drop_first(), c);
        }
    }
}

pub proof fn lemma_text_lt_total(a: Seq<char>, b: Seq<char>)
    ensures
        a != b ==> text_lt(a, b) || text_lt(b, a),
    decreases a.len(),
{
    if a.len() > 0 && b.len() > 0 {
        lemma_text_lt_total(a.drop_first(), b.drop_first());
        if a != b && a[0] == b[0] {
            assert(a =~= seq![a[0]] + a.drop_first());
            assert(b =~= seq![b[0]] + b.drop_first());
        }
    } else if a.len() == 0 && b.len() == 0 {
        assert(a =~= b);
    }
}

/// `text_lt` is a strict total order.
pub proof fn lemma_text_lt_order(a: Seq<char>, b: Seq<char>, c: Seq<char>)
    ensures
        !text_lt(a, a),
        text_lt(a, b) ==> !text_lt(b, a),
        text_lt(a, b) && text_lt(b, c) ==> text_lt(a, c),
        a != b ==> text_lt(a, b) || text_lt(b, a),
{
    lemma_text_lt_irreflexive(a);
    lemma_text_lt_transitive(a, b, c);
    lemma_text_lt_total(a, b);
}

/// Whether `a` sorts strictly before `b`.
pub fn text_less(a: &str, b: &str) -> (r: bool)
    ensures
        r == text_lt(a@, b@),
{
    let la = a.unicode_len();
    let lb = b.unicode_len();
    let mut i: usize = 0;
    assert(a@.skip(0) =~= a@);
    assert(b@.skip(0) =~= b@);
    while i < la && i < lb
        invariant
            la == a@.len(),
            lb == b@.len(),
            i <= la,
            i <= lb,
            text_lt(a@, b@) == text_lt(a@.skip(i as int), b@.skip(i as int)),
        decreases la - i,
    {
        let ca = a.get_char(i);
        let cb = b.get_char(i);
        let ghost x = a@.skip(i as int);
        let ghost y = b@.skip(i as int);
        assert(x[0] == ca && y[0] == cb);
        if ca != cb {
            return (ca as u32) < (cb as u32);
        }
        assert(x.drop_first() =~= a@.skip(i + 1));
        assert(y.drop_first() =~= b@.skip(i + 1));
        i += 1;
    }
    let ghost x = a@.skip(i as int);
    let ghost y = b@.skip(i as int);
    assert(x.len() == 0 || y.len() == 0);
    la - i < lb - i || (la == i && lb > i)
}

/// `s` is strictly increasing.
pub open spec fn sorted_texts(s: Seq<Seq<char>>) -> bool {
    forall|i: int, j: int| 0 <= i < j < s.len() ==> text_lt(#[trigger] s[i], #[trigger] s[j])
}

pub open spec fn text_views(v: Seq<String>) -> Seq<Seq<char>> {
    Seq::new(v.len(), |i: int| v[i]@)
}

/// `v` holds `x`.
pub open spec fn holds_text(v: Seq<String>, x: Seq<char>) -> bool {
    exists|i: int| 0 <= i < v.len() && (#[trigger] v[i])@ == x
}

/// Whether `v` holds `x`.
pub fn contains_text(v: &Vec<String>, x: &String) -> (r: bool)
    ensures
        r == holds_text(v@, x@),
{
    let mut i: usize = 0;
    while i < v.len()
        invariant
            i <= v@.len(),
            forall|j: int| 0 <= j < i ==> (#[trigger] v@[j])@ != x@,
        decreases v.len() - i,
    {
        if v[i] == *x {
            assert(v@[i as int]@ == x@);
            return true;
        }
        i += 1;
    }
    false
}

/// Adds `x` to the strictly increasing list of names `v`, unless it is there.
#[verifier::spinoff_prover]
pub fn insert_sorted_text(v: &mut Vec<String>, x: String)
    requires
        sorted_texts(text_views(old(v)@)),
    ensures
        sorted_texts(text_views(final(v)@)),
        forall|y: Seq<char>| holds_text(final(v)@, y) <==> (holds_text(old(v)@, y) || y == x@),
{
    let ghost old_v = v@;
    let mut p: usize = 0;
    while p < v.len()
        invariant
            p <= v@.len(),
            v@ == old_v,
            sorted_texts(text_views(v@)),
            forall|j: int| 0 <= j < p ==> text_lt((#[trigger] v@[j])@, x@),
        ensures
            p <= v@.len(),
            v@ == old_v,
            forall|j: int| 0 <= j < p ==> text_lt((#[trigger] v@[j])@, x@),
            p < v@.len() ==> !text_lt(v@[p as int]@, x@),
        decreases v.len() - p,
    {
        if !text_less(v[p].as_str(), x.as_str()) {
            break;
        }
        p += 1;
    }
    if p < v.len() && v[p] == x {
        assert(v@[p as int]@ == x@);
        return;
    }
    let ghost xv = x@;
    v.insert(p, x);
    proof {
        let t = text_views(v@);
        let ot = text_views(old_v);
        assert forall|i: int, j: int| 0 <= i < j < old_v.len() implies text_lt(old_v[i]@, old_v[j]@) by {
            assert(ot[i] == old_v[i]@ && ot[j] == old_v[j]@);
        }
        assert forall|i: int, j: int| 0 <= i < j < t.len() implies text_lt(#[trigger] t[i], #[trigger] t[j]) by {
            if j < p {
                assert(t[i] == old_v[i]@ && t[j] == old_v[j]@);
            } else if j == p {
                assert(t[i] == old_v[i]@);
            } else if i < p {
                assert(t[i] == old_v[i]@ && t[j] == old_v[j - 1]@);
                lemma_text_lt_order(old_v[p as int]@, xv, xv);
                lemma_text_lt_order(old_v[i]@, xv, old_v[p as int]@);
                if p < j - 1 {
                    lemma_text_lt_order(old_v[i]@, old_v[p as int]@, old_v[j - 1]@);
                    lemma_text_lt_order(xv, old_v[p as int]@, old_v[j - 1]@);
                }
                lemma_text_lt_order(xv, old_v[p as int]@, old_v[j - 1]@);
                assert(text_lt(xv, old_v[p as int]@));
                lemma_text_lt_order(old_v[i]@, xv, old_v[j - 1]@);
                if p < j - 1 {
                    assert(text_lt(old_v[p as int]@, old_v[j - 1]@));
                }
            } else if i == p {
                assert(t[j] == old_v[j - 1]@);
                lemma_text_lt_order(old_v[p as int]@, xv, xv);
                assert(text_lt(xv, old_v[p as int]@));
                if p < j - 1 {
                    assert(text_lt(old_v[p as int]@, old_v[j - 1]@));
                    lemma_text_lt_order(xv, old_v[p as int]@, old_v[j - 1]@);
                }
            } else {
                assert(t[i] == old_v[i - 1]@ && t[j] == old_v[j - 1]@);
            }
        }
        assert forall|y: Seq<char>| holds_text(v@, y) <==> (holds_text(old_v, y) || y == xv) by {
            if holds_text(v@, y) {
                let k = choose|k: int| 0 <= k < v@.len() && (#[trigger] v@[k])@ == y;
                if k < p {
                    assert(v@[k] == old_v[k]);
                } else if k > p {
                    assert(v@[k] == old_v[k - 1]);
                }
            }
            if holds_text(old_v, y) {
                let k = choose|k: int| 0 <= k < old_v.len() && (#[trigger] old_v[k])@ == y;
                if k < p {
                    assert(v@[k] == old_v[k]);
                } else {
                    assert(v@[k + 1] == old_v[k]);
                }
            }
            if y == xv {
                assert(v@[p as int]@ == xv);
            }
        }
    }
}


/// A strictly increasing list of names is determined by the names it holds.
pub proof fn lemma_sorted_texts_unique(a: Seq<Seq<char>>, b: Seq<Seq<char>>)
    requires
        sorted_texts(a),
        sorted_texts(b),
        forall|y: Seq<char>| a.contains(y) <==> b.contains(y),
    ensures
        a == b,
    decreases a.len(),
{
    if a.len() == 0 {
        if b.len() > 0 {
            assert(b.contains(b[0]));
        }
        assert(a =~= b);
    } else {
        assert(a.contains(a[0]));
        assert(b.contains(a[0]));
        assert(b.contains(b[0]));
        assert(a.contains(b[0]));
        let i = choose|i: int| 0 <= i < a.len() && a[i] == b[0];
        let j = choose|j: int| 0 <= j < b.len() && b[j] == a[0];
        if a[0] != b[0] {
            lemma_text_lt_order(a[0], b[0], a[0]);
            if i > 0 {
                assert(text_lt(a[0], a[i]));
            }
            if j > 0 {
                assert(text_lt(b[0], b[j]));
            }
        }
        let a2 = a.drop_first();
        let b2 = b.drop_first();
        assert forall|y: Seq<char>| a2.contains(y) <==> b2.contains(y) by {
            if a2.contains(y) {
                let k = choose|k: int| 0 <= k < a2.len() && a2[k] == y;
                assert(a.contains(y) && text_lt(a[0], a[k + 1]));
                lemma_text_lt_order(a[0], y, y);
                let m = choose|m: int| 0 <= m < b.len() && b[m] == y;
                assert(m != 0);
                assert(b2[m - 1] == y);
            }
            if b2.contains(y) {
                let k = choose|k: int| 0 <= k < b2.len() && b2[k] == y;
                assert(b.contains(y) && text_lt(b[0], b[k + 1]));
                lemma_text_lt_order(b[0], y, y);
                let m = choose|m: int| 0 <= m < a.len() && a[m] == y;
                assert(m != 0);
                assert(a2[m - 1] == y);
            }
        }
        assert forall|p: int, q: int| 0 <= p < q < a2.len() implies text_lt(#[trigger] a2[p], #[trigger] a2[q]) by {
            assert(a2[p] == a[p + 1] && a2[q] == a[q + 1]);
        }
        assert forall|p: int, q: int| 0 <= p < q < b2.len() implies text_lt(#[trigger] b2[p], #[trigger] b2[q]) by {
            assert(b2[p] == b[p + 1] && b2[q] == b[q + 1]);
        }
        lemma_sorted_texts_unique(a2, b2);
        assert(a =~= seq![a[0]] + a2);
        assert(b =~= seq![b[0]] + b2);
    }
}

/// `holds_text` is membership in the names' views.
pub proof fn lemma_holds_text_views(v: Seq<String>)
    ensures
        forall|y: Seq<char>| holds_text(v, y) <==> text_views(v).contains(y),
{
    assert forall|y: Seq<char>| holds_text(v, y) <==> text_views(v).contains(y) by {
        if holds_text(v, y) {
            let i = choose|i: int| 0 <= i < v.len() && (#[trigger] v[i])@ == y;
            assert(text_views(v)[i] == y);
        }
        if text_views(v).contains(y) {
            let i = choose|i: int| 0 <= i < text_views(v).len() && text_views(v)[i] == y;
            assert(v[i]@ == y);
        }
    }
}


/// `s` begins with `prefix`; then the rest of `s`.
pub open spec fn strip_prefix_spec(s: Seq<char>, prefix: Seq<char>) -> Option<Seq<char>> {
    if prefix.len() <= s.len() && s.take(prefix.len() as int) == prefix {
        Some(s.skip(prefix.len() as int))
    } else {
        None
    }
}

/// `s` without `prefix` at its start, if it starts with it.
pub fn strip_text_prefix(s: &str, prefix: &str) -> (r: Option<String>)
    ensures
        r is Some <==> strip_prefix_spec(s@, prefix@) is Some,
        r matches Some(rest) ==> strip_prefix_spec(s@, prefix@) == Some(rest@),
{
    let ls = s.unicode_len();
    let lp = prefix.unicode_len();
    if lp > ls {
        return None;
    }
    let mut i: usize = 0;
    while i < lp
        invariant
            ls == s@.len(),
            lp == prefix@.len(),
            lp <= ls,
            i <= lp,
            forall|j: int| 0 <= j < i ==> s@[j] == prefix@[j],
        decreases lp - i,
    {
        if s.get_char(i) != prefix.get_char(i) {
            assert(s@.take(lp as int)[i as int] != prefix@[i as int]);
            return None;
        }
        i += 1;
    }
    assert(s@.take(lp as int) =~= prefix@);
    let rest = s.substring_char(lp, ls);
    Some(String::from_str(rest))
}

pub open spec fn is_digit(c: char) -> bool {
    '0' <= c && c <= '9'
}

pub open spec fn all_digits(s: Seq<char>) -> bool {
    forall|i: int| 0 <= i < s.len() ==> is_digit(#[trigger] s[i])
}

/// The number the decimal digits `s` write.
pub open spec fn digits_value(s: Seq<char>) -> int
    decreases s.len(),
{
    if s.len() == 0 {
        0
    } else {
        digits_value(s.drop_last()) * 10 + (s.last() as int - '0' as int)
    }
}

/// The length of a leading `+` or `-` of `s` (0 or 1).
pub open spec fn sign_len(s: Seq<char>) -> int {
    if s.len() > 0 && (s[0] == '-' || s[0] == '+') {
        1
    } else {
        0
    }
}

/// What `str::parse::<i32>` gives: an optional `+` or `-`, then at least one
/// ASCII digit, and a value that fits in an `i32`.
pub open spec fn parse_i32_spec(s: Seq<char>) -> Option<i32> {
    let digits = s.skip(sign_len(s));
    if digits.len() == 0 || !all_digits(digits) {
        None
    } else {
        let v = if sign_len(s) == 1 && s[0] == '-' {
            -digits_value(digits)
        } else {
            digits_value(digits)
        };
        if i32::MIN <= v <= i32::MAX {
            Some(v as i32)
        } else {
            None
        }
    }
}

proof fn lemma_digits_value_nonneg(s: Seq<char>)
    requires
        all_digits(s),
    ensures
        digits_value(s) >= 0,
    decreases s.len(),
{
    if s.len() > 0 {
        assert(all_digits(s.drop_last())) by {
            assert forall|i: int| 0 <= i < s.drop_last().len() implies is_digit(#[trigger] s.drop_last()[i]) by {
                assert(s.drop_last()[i] == s[i]);
            }
        }
        lemma_digits_value_nonneg(s.drop_last());
        assert(is_digit(s[s.len() - 1]));
    }
}

proof fn lemma_digits_value_grows(s: Seq<char>)
    requires
        all_digits(s),
        s.len() > 0,
    ensures
        digits_value(s) >= digits_value(s.drop_last()),
{
    assert(all_digits(s.drop_last())) by {
        assert forall|i: int| 0 <= i < s.drop_last().len() implies is_digit(#[trigger] s.drop_last()[i]) by {
            assert(s.drop_last()[i] == s[i]);
        }
    }
    lemma_digits_value_nonneg(s.drop_last());
    assert(is_digit(s[s.len() - 1]));
}

/// The integer `s` writes, as `str::parse::<i32>` reads it.
pub fn parse_i32(s: &str) -> (r: Option<i32>)
    ensures
        r == parse_i32_spec(s@),
{
    let n = s.unicode_len();
    let mut start: usize = 0;
    let mut negative = false;
    if n > 0 {
        let c = s.get_char(0);
        if c == '-' {
            negative = true;
            start = 1;
        } else if c == '+' {
            start = 1;
        }
    }
    let ghost digits = s@.skip(start as int);
    assert(start == sign_len(s@));
    assert(negative == (sign_len(s@) == 1 && s@[0] == '-'));
    if start == n {
        assert(digits.len() == 0);
        return None;
    }
    let mut value: i64 = 0;
    let mut i: usize = start;
    while i < n
        invariant
            n == s@.len(),
            start <= i <= n,
            start < n,
            start == sign_len(s@),
            negative == (sign_len(s@) == 1 && s@[0] == '-'),
            digits == s@.skip(start as int),
            forall|j: int| start <= j < i ==> is_digit(#[trigger] s@[j]),
            value == digits_value(s@.subrange(start as int, i as int)),
            0 <= value <= 2147483648,
        decreases n - i,
    {
        let c = s.get_char(i);
        if !('0' <= c && c <= '9') {
            assert(digits[i - start] == s@[i as int]);
            assert(!is_digit(digits[i - start]));
            return None;
        }
        let d = (c as u32 - '0' as u32) as i64;
        let ghost sub = s@.subrange(start as int, i + 1);
        assert(sub.drop_last() =~= s@.subrange(start as int, i as int));
        assert(sub.last() == c);
        let next = value * 10 + d;
        if next > 2147483648 {
            proof {
                assert forall|j: int| 0 <= j < sub.len() implies is_digit(#[trigger] sub[j]) by {
                    assert(sub[j] == s@[start + j]);
                }
                lemma_digits_rest_grow(s@, start as int, i + 1, n as int);
            }
            return None;
        }
        value = next;
        i += 1;
    }
    assert(s@.subrange(start as int, n as int) =~= digits);
    assert(all_digits(digits)) by {
        assert forall|j: int| 0 <= j < digits.len() implies is_digit(#[trigger] digits[j]) by {
            assert(digits[j] == s@[start + j]);
        }
    }
    if negative {
        Some((0 - value) as i32)
    } else if value <= 2147483647 {
        Some(value as i32)
    } else {
        None
    }
}

/// Once the digits read so far exceed a bound, the whole run of digits does,
/// or a non-digit follows.
proof fn lemma_digits_rest_grow(s: Seq<char>, start: int, i: int, n: int)
    requires
        0 <= start < i <= n,
        n == s.len(),
        all_digits(s.subrange(start, i)),
        digits_value(s.subrange(start, i)) > 2147483648,
    ensures
        all_digits(s.skip(start)) ==> digits_value(s.skip(start)) > 2147483648,
    decreases n - i,
{
    if i == n {
        assert(s.subrange(start, i) =~= s.skip(start));
    } else if all_digits(s.skip(start)) {
        let sub = s.subrange(start, i + 1);
        assert(sub.drop_last() =~= s.subrange(start, i));
        assert(sub[sub.len() - 1] == s.skip(start)[i - start]);
        assert(all_digits(sub)) by {
            assert forall|j: int| 0 <= j < sub.len() implies is_digit(#[trigger] sub[j]) by {
                assert(sub[j] == s.skip(start)[j]);
            }
        }
        lemma_digits_value_grows(sub);
        lemma_digits_rest_grow(s, start, i + 1, n);
    }
}


/// A char with Unicode's White_Space property (`char::is_whitespace`).
pub open spec fn is_white_space(c: char) -> bool {
    let u = c as int;
    ||| 0x9 <= u <= 0xD
    ||| u == 0x20
    ||| u == 0x85
    ||| u == 0xA0
    ||| u == 0x1680
    ||| 0x2000 <= u <= 0x200A
    ||| u == 0x2028
    ||| u == 0x2029
    ||| u == 0x202F
    ||| u == 0x205F
    ||| u == 0x3000
}

/// `s` without its leading whitespace.
pub open spec fn trim_start_spec(s: Seq<char>) -> Seq<char>
    decreases s.len(),
{
    if s.len() > 0 && is_white_space(s[0]) {
        trim_start_spec(s.drop_first())
    } else {
        s
    }
}

/// `s` without its trailing whitespace.
pub open spec fn trim_end_spec(s: Seq<char>) -> Seq<char>
    decreases s.len(),
{
    if s.len() > 0 && is_white_space(s.last()) {
        trim_end_spec(s.drop_last())
    } else {
        s
    }
}

/// `s` without leading and trailing whitespace, as `str::trim` gives it.
pub open spec fn str_trim(s: Seq<char>) -> Seq<char> {
    trim_end_spec(trim_start_spec(s))
}

/// What `str::to_lowercase` gives.
pub uninterp spec fn str_to_lowercase(s: Seq<char>) -> Seq<char>;

/// Every char of `s` is ASCII.
pub open spec fn is_ascii_text(s: Seq<char>) -> bool {
    forall|i: int| 0 <= i < s.len() ==> (s[i] as int) < 128
}

/// `c` with 'A'..='Z' lowered to 'a'..='z'.
pub open spec fn ascii_lower_char(c: char) -> char {
    if 65 <= (c as int) <= 90 {
        ((c as int) + 32) as char
    } else {
        c
    }
}

/// The digit char of `d < 10`.
pub open spec fn digit_char(d: int) -> char {
    (48 + d) as char
}

/// The decimal digits of `n`, most significant first, without leading zeros
/// ("0" for zero).
pub open spec fn nat_digits(n: nat) -> Seq<char>
    decreases n,
{
    if n < 10 {
        seq![digit_char(n as int)]
    } else {
        nat_digits(n / 10).push(digit_char((n % 10) as int))
    }
}

/// `n` in decimal, a '-' before a negative one, as `i64`'s `Display` writes it.
pub open spec fn int_display(n: i64) -> Seq<char> {
    if n < 0 {
        seq!['-'] + nat_digits((-(n as int)) as nat)
    } else {
        nat_digits(n as nat)
    }
}

/// `s` without leading and trailing whitespace, through `str::trim`.
/// Claims: whitespace is what `char::is_whitespace` names (Unicode
/// White_Space), and the result drops it from both ends.
#[verifier::external_body]
pub(crate) fn trim_text(s: &str) -> (r: String)
    ensures
        r@ == str_trim(s@),
{
    s.trim().to_string()
}

/// `s` in lower case, through `str::to_lowercase`. Claims: the named result;
/// empty exactly when `s` is (every char lowers to one or more chars); and, for
/// ASCII text, 'A'..='Z' lowered and every other char kept. The Unicode case
/// mapping of other chars is left to the name.
#[verifier::external_body]
pub(crate) fn lowercase_text(s: &str) -> (r: String)
    ensures
        r@ == str_to_lowercase(s@),
        r@.len() == 0 <==> s@.len() == 0,
        is_ascii_text(s@) ==> r@ == s@.map_values(|c: char| ascii_lower_char(c)),
{
    s.to_lowercase()
}

/// `n` in decimal, through `i64`'s `Display`. Claims: the digits of `n`
/// without leading zeros, after a '-' when `n` is negative.
#[verifier::external_body]
pub(crate) fn int_text(n: i64) -> (r: String)
    ensures
        r@ == int_display(n),
{
    n.to_string()
}


/// `v` holds `x`.
pub open spec fn holds_i32_spec(v: Seq<i32>, x: i32) -> bool {
    exists|i: int| 0 <= i < v.len() && v[i] == x
}

/// Whether `v` holds `x`.
pub fn contains_i32(v: &Vec<i32>, x: i32) -> (r: bool)
    ensures
        r == holds_i32_spec(v@, x),
{
    let mut i: usize = 0;
    while i < v.len()
        invariant
            i <= v@.len(),
            forall|j: int| 0 <= j < i ==> v@[j] != x,
        decreases v.len() - i,
    {
        if v[i] == x {
            return true;
        }
        i += 1;
    }
    false
}

} // verus!
