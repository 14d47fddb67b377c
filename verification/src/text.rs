//! Text as the datasets use it: equality, substring search, dictionary order and
//! decimal integers, each stated over the characters of a string.
use vstd::prelude::*;

verus! {

broadcast use vstd::string::group_string_axioms;

/// The characters of an optional string.
pub open spec fn of(o: Option<String>) -> Option<Seq<char>> {
    match o {
        Some(s) => Some(s@),
        None => None,
    }
}

/// The views of a sequence of values, one for one.
pub open spec fn views<T: View>(s: Seq<T>) -> Seq<T::V> {
    s.map_values(|t: T| t@)
}

/// Appending a value appends its view.
pub broadcast proof fn lemma_views_push<T: View>(s: Seq<T>, t: T)
    ensures
        #[trigger] views(s.push(t)) == views(s).push(t@),
{
    assert(views(s.push(t)) =~= views(s).push(t@));
}

/// No values, no views.
pub broadcast proof fn lemma_views_empty<T: View>()
    ensures
        #[trigger] views(Seq::<T>::empty()) == Seq::<T::V>::empty(),
{
    assert(views(Seq::<T>::empty()) =~= Seq::<T::V>::empty());
}

pub broadcast group group_views {
    lemma_views_push,
    lemma_views_empty,
}

/// Whether two strings have the same characters.
pub fn same_text(a: &str, b: &str) -> (same: bool)
    ensures
        same == (a@ == b@),
{
    let x = a.as_bytes();
    let y = b.as_bytes();
    proof {
        vstd::utf8::encode_utf8_decode_utf8(a@);
        vstd::utf8::encode_utf8_decode_utf8(b@);
    }
    if x.len() != y.len() {
        return false;
    }
    let n: usize = x.len();
    let mut i: usize = 0;
    while i < n
        invariant
            i <= n,
            n == x@.len(),
            n == y@.len(),
            x@ == vstd::utf8::encode_utf8(a@),
            y@ == vstd::utf8::encode_utf8(b@),
            forall|j: int| 0 <= j < i ==> x@[j] == y@[j],
        decreases n - i,
    {
        if x[i] != y[i] {
            return false;
        }
        i = i + 1;
    }
    assert(x@ =~= y@);
    true
}

/// A copy of an optional string.
pub fn copy_text(o: &Option<String>) -> (copy: Option<String>)
    ensures
        copy == *o,
{
    match o {
        Some(s) => Some(s.clone()),
        None => None,
    }
}

/// The characters of a string, as a vector.
pub fn characters(s: &str) -> (v: Vec<char>)
    ensures
        v@ == s@,
{
    let mut v: Vec<char> = Vec::new();
    for c in it: s.chars()
        invariant
            v@ == s@.take(it.index() as int),
            it.seq() == s@,
    {
        v.push(c);
        assert(s@.take(it.index() + 1) =~= s@.take(it.index() as int).push(c));
    }
    assert(s@.take(s@.len() as int) =~= s@);
    v
}

/// Whether `part` stands in `whole`, beginning at position `at`.
pub open spec fn stands_at(whole: Seq<char>, part: Seq<char>, at: int) -> bool {
    0 <= at && at + part.len() <= whole.len() && whole.subrange(at, at + part.len()) == part
}

/// Whether `part` stands somewhere in `whole`.
pub open spec fn holds_text(whole: Seq<char>, part: Seq<char>) -> bool {
    exists|at: int| stands_at(whole, part, at)
}

/// Whether `part` is a substring of `whole`.
pub fn contains_text(whole: &str, part: &str) -> (found: bool)
    ensures
        found == holds_text(whole@, part@),
{
    let w = characters(whole);
    let p = characters(part);
    let n: usize = w.len();
    let m: usize = p.len();
    if m > n {
        return false;
    }
    let mut at: usize = 0;
    while at <= n - m
        invariant
            w@ == whole@,
            p@ == part@,
            n == w@.len(),
            m == p@.len(),
            m <= n,
            at <= n - m + 1,
            forall|a: int| 0 <= a < at ==> !stands_at(w@, p@, a),
        decreases n - at,
    {
        let mut k: usize = 0;
        while k < m && w[at + k] == p[k]
            invariant
                n == w@.len(),
                m == p@.len(),
                m <= n,
                at <= n - m,
                k <= m,
                forall|j: int| 0 <= j < k ==> w@[at + j] == p@[j],
            decreases m - k,
        {
            k = k + 1;
        }
        if k == m {
            assert(w@.subrange(at as int, at + m) =~= p@);
            assert(stands_at(whole@, part@, at as int));
            return true;
        }
        assert(w@.subrange(at as int, at + m)[k as int] != p@[k as int]);
        if at == n - m {
            return false;
        }
        at = at + 1;
    }
    false
}

/// Dictionary order on characters: the order in which strings sort.
pub open spec fn text_before(a: Seq<char>, b: Seq<char>) -> bool
    decreases a.len(),
{
    if b.len() == 0 {
        false
    } else if a.len() == 0 {
        true
    } else if a[0] != b[0] {
        a[0] < b[0]
    } else {
        text_before(a.drop_first(), b.drop_first())
    }
}

/// Whether `a` sorts before `b`.
pub fn sorts_before(a: &str, b: &str) -> (before: bool)
    ensures
        before == text_before(a@, b@),
{
    let x = characters(a);
    let y = characters(b);
    let mut i: usize = 0;
    assert(x@.skip(0) =~= a@);
    assert(y@.skip(0) =~= b@);
    while i < x.len() && i < y.len() && x[i] == y[i]
        invariant
            i <= x@.len(),
            i <= y@.len(),
            text_before(a@, b@) == text_before(x@.skip(i as int), y@.skip(i as int)),
        decreases x@.len() - i,
    {
        assert(x@.skip(i as int).drop_first() =~= x@.skip(i + 1));
        assert(y@.skip(i as int).drop_first() =~= y@.skip(i + 1));
        i = i + 1;
    }
    if i >= y.len() {
        false
    } else if i >= x.len() {
        true
    } else {
        x[i] < y[i]
    }
}

/// Dictionary order is irreflexive, transitive and total: any two different
/// texts are ordered one way, never both.
pub proof fn law_text_order(a: Seq<char>, b: Seq<char>, c: Seq<char>)
    ensures
        !text_before(a, a),
        text_before(a, b) ==> !text_before(b, a),
        a != b ==> text_before(a, b) || text_before(b, a),
        text_before(a, b) && text_before(b, c) ==> text_before(a, c),
    decreases a.len(),
{
    if a.len() > 0 {
        law_text_order(a.drop_first(), b.drop_first(), c.drop_first());
        if b.len() > 0 && a[0] == b[0] && a != b {
            if a.drop_first() == b.drop_first() {
                assert(a =~= seq![a[0]] + a.drop_first());
                assert(b =~= seq![b[0]] + b.drop_first());
            }
        }
    } else if b.len() == 0 {
        assert(a =~= b);
    }
}

/// Whether a character is a decimal digit.
pub open spec fn is_digit(c: char) -> bool {
    '0' <= c && c <= '9'
}

/// Whether a text is one decimal digit or more, and nothing else.
pub open spec fn all_digits(s: Seq<char>) -> bool {
    s.len() > 0 && forall|i: int| 0 <= i < s.len() ==> is_digit(#[trigger] s[i])
}

/// The number that a text of decimal digits writes.
pub open spec fn digits_value(s: Seq<char>) -> int
    decreases s.len(),
{
    if s.len() == 0 {
        0
    } else {
        10 * digits_value(s.drop_last()) + (s.last() as u32 - '0' as u32)
    }
}

/// The number that an unsigned decimal text writes: digits, with or without `+`
/// in front.
pub open spec fn unsigned_value(s: Seq<char>) -> Option<int> {
    if s.len() > 0 && s[0] == '+' {
        if all_digits(s.skip(1)) {
            Some(digits_value(s.skip(1)))
        } else {
            None
        }
    } else if all_digits(s) {
        Some(digits_value(s))
    } else {
        None
    }
}

/// The number that a decimal text writes: as an unsigned one, or `-` and digits.
pub open spec fn signed_value(s: Seq<char>) -> Option<int> {
    if s.len() > 0 && s[0] == '-' {
        if all_digits(s.skip(1)) {
            Some(-digits_value(s.skip(1)))
        } else {
            None
        }
    } else {
        unsigned_value(s)
    }
}

/// The value of `s` if it has one between `lo` and `hi`.
pub open spec fn in_range(value: Option<int>, lo: int, hi: int) -> Option<int> {
    match value {
        Some(v) => if lo <= v <= hi {
            Some(v)
        } else {
            None
        },
        None => None,
    }
}

/// Digits in front only make a number larger.
proof fn lemma_prefix_value(s: Seq<char>, k: int)
    requires
        forall|i: int| 0 <= i < s.len() ==> is_digit(#[trigger] s[i]),
        0 <= k <= s.len(),
    ensures
        0 <= digits_value(s.take(k)) <= digits_value(s),
    decreases s.len(),
{
    if k == s.len() {
        assert(s.take(k) =~= s);
        if s.len() > 0 {
            lemma_prefix_value(s.drop_last(), k - 1);
            assert(is_digit(s[s.len() - 1]));
        }
    } else {
        lemma_prefix_value(s.drop_last(), k);
        assert(s.drop_last().take(k) =~= s.take(k));
        assert(is_digit(s[s.len() - 1]));
    }
}

/// The magnitude that the digits from `from` on write, capped at 2^64: the
/// second part says whether they write more than that. `None` if they are not
/// digits.
fn magnitude(v: &Vec<char>, from: usize) -> (r: Option<(u128, bool)>)
    requires
        from <= v@.len(),
    ensures
        r is Some == all_digits(v@.skip(from as int)),
        r matches Some(m) ==> if m.1 {
            digits_value(v@.skip(from as int)) > 0x1_0000_0000_0000_0000
        } else {
            m.0 == digits_value(v@.skip(from as int)) && m.0 <= 0x1_0000_0000_0000_0000
        },
{
    let ghost s = v@.skip(from as int);
    if from == v.len() {
        return None;
    }
    let mut value: u128 = 0;
    let mut large = false;
    let mut i: usize = from;
    let n: usize = v.len();
    assert(s.take(0) =~= Seq::<char>::empty());
    while i < n
        invariant
            from <= i <= n,
            n == v@.len(),
            s == v@.skip(from as int),
            forall|j: int| 0 <= j < i - from ==> is_digit(#[trigger] s[j]),
            large ==> digits_value(s.take(i - from)) > 0x1_0000_0000_0000_0000,
            !large ==> value == digits_value(s.take(i - from)),
            value <= 0x1_0000_0000_0000_0000,
        decreases n - i,
    {
        let c = v[i];
        assert(s[i - from] == c);
        if c < '0' || c > '9' {
            return None;
        }
        assert(s.take(i - from + 1).drop_last() =~= s.take(i - from));
        let d: u128 = c as u128 - '0' as u128;
        if !large {
            let next: u128 = 10 * value + d;
            if next > 0x1_0000_0000_0000_0000 {
                large = true;
            } else {
                value = next;
            }
        }
        i = i + 1;
    }
    assert(s.take(n - from) =~= s);
    Some((value, large))
}

/// The 64-bit integer that a decimal text writes, if it writes one.
pub fn parse_i64(s: &str) -> (r: Option<i64>)
    ensures
        match r {
            Some(v) => in_range(signed_value(s@), i64::MIN as int, i64::MAX as int) == Some(v as int),
            None => in_range(signed_value(s@), i64::MIN as int, i64::MAX as int) is None,
        },
{
    let v = characters(s);
    if v.len() == 0 {
        return None;
    }
    let negative = v[0] == '-';
    let from: usize = if negative || v[0] == '+' { 1 } else { 0 };
    proof {
        assert(v@.skip(0) =~= v@);
    }
    match magnitude(&v, from) {
        None => None,
        Some((m, large)) => {
            if large {
                None
            } else if negative {
                if m <= 0x8000_0000_0000_0000 {
                    let w: i128 = 0 - (m as i128);
                    Some(w as i64)
                } else {
                    None
                }
            } else if m <= 0x7fff_ffff_ffff_ffff {
                Some(m as i64)
            } else {
                None
            }
        },
    }
}

/// The 32-bit integer that a decimal text writes, if it writes one.
pub fn parse_i32(s: &str) -> (r: Option<i32>)
    ensures
        match r {
            Some(v) => in_range(signed_value(s@), i32::MIN as int, i32::MAX as int) == Some(v as int),
            None => in_range(signed_value(s@), i32::MIN as int, i32::MAX as int) is None,
        },
{
    match parse_i64(s) {
        Some(v) => if -0x8000_0000 <= v && v <= 0x7fff_ffff {
            Some(v as i32)
        } else {
            None
        },
        None => None,
    }
}

/// The machine-size count that a decimal text writes, if it writes one.
pub fn parse_usize(s: &str) -> (r: Option<usize>)
    ensures
        match r {
            Some(v) => in_range(unsigned_value(s@), 0, usize::MAX as int) == Some(v as int),
            None => in_range(unsigned_value(s@), 0, usize::MAX as int) is None,
        },
{
    let v = characters(s);
    if v.len() == 0 {
        return None;
    }
    let from: usize = if v[0] == '+' { 1 } else { 0 };
    proof {
        assert(v@.skip(0) =~= v@);
        if all_digits(v@.skip(from as int)) {
            lemma_prefix_value(v@.skip(from as int), 0);
            assert(v@.skip(from as int).take(0) =~= Seq::<char>::empty());
        }
    }
    match magnitude(&v, from) {
        None => None,
        Some((m, large)) => {
            if large || m > usize::MAX as u128 {
                None
            } else {
                Some(m as usize)
            }
        },
    }
}

} // verus!
