use vstd::prelude::*;
use vstd::std_specs::iter::IteratorSpec;
use vstd::string::*;

verus! {

broadcast use vstd::string::group_string_axioms;

/// Whether `c` is an ASCII decimal digit.
pub open spec fn is_digit(c: char) -> bool {
    '0' <= c && c <= '9'
}

/// The number written by the decimal digits `d`, most significant first.
pub open spec fn digits_value(d: Seq<char>) -> nat
    decreases d.len(),
{
    if d.len() == 0 {
        0
    } else {
        digits_value(d.drop_last()) * 10 + ((d.last() as int - '0' as int) as nat)
    }
}

/// Whether `w` occurs in `s` as a contiguous piece.
pub open spec fn has_infix(s: Seq<char>, w: Seq<char>) -> bool {
    exists|i: int| 0 <= i && i + w.len() <= s.len() && #[trigger] s.subrange(i, i + w.len()) == w
}

/// `s[i..j]` is the first maximal run of digits in `s`.
pub open spec fn is_first_run(s: Seq<char>, i: int, j: int) -> bool {
    &&& 0 <= i < j <= s.len()
    &&& forall|k: int| i <= k < j ==> is_digit(#[trigger] s[k])
    &&& forall|k: int| 0 <= k < i ==> !is_digit(#[trigger] s[k])
    &&& (j == s.len() || !is_digit(s[j]))
}

/// The first maximal run of digits in `s`, if `s` holds a digit.
pub open spec fn first_run(s: Seq<char>) -> Option<Seq<char>> {
    if exists|i: int, j: int| is_first_run(s, i, j) {
        let (i, j) = choose|i: int, j: int| is_first_run(s, i, j);
        Some(s.subrange(i, j))
    } else {
        None
    }
}

/// The number that the first run of digits in `s` writes, where there is one
/// and it fits in a `usize`.
pub open spec fn index_in(s: Seq<char>) -> Option<nat> {
    match first_run(s) {
        Some(d) => if digits_value(d) <= usize::MAX {
            Some(digits_value(d))
        } else {
            None
        },
        None => None,
    }
}

/// Unicode `White_Space`, the set that `char::is_whitespace` tests.
pub open spec fn is_white(c: char) -> bool {
    ||| ('\u{9}' <= c && c <= '\u{d}')
    ||| c == ' '
    ||| c == '\u{85}'
    ||| c == '\u{a0}'
    ||| c == '\u{1680}'
    ||| ('\u{2000}' <= c && c <= '\u{200a}')
    ||| c == '\u{2028}'
    ||| c == '\u{2029}'
    ||| c == '\u{202f}'
    ||| c == '\u{205f}'
    ||| c == '\u{3000}'
}

/// `s` without its leading white space.
pub open spec fn strip_front(s: Seq<char>) -> Seq<char>
    decreases s.len(),
{
    if s.len() > 0 && is_white(s[0]) {
        strip_front(s.drop_first())
    } else {
        s
    }
}

/// `s` without its trailing white space.
pub open spec fn strip_back(s: Seq<char>) -> Seq<char>
    decreases s.len(),
{
    if s.len() > 0 && is_white(s.last()) {
        strip_back(s.drop_last())
    } else {
        s
    }
}

/// `s` without white space at either end.
pub open spec fn trimmed(s: Seq<char>) -> Seq<char> {
    strip_back(strip_front(s))
}

/// The characters of `s`, one by one.
pub fn chars_of(s: &str) -> (r: Vec<char>)
    ensures
        r@ == s@,
{
    let mut it = s.chars();
    let mut r: Vec<char> = Vec::new();
    loop
        invariant
            it.obeys_prophetic_iter_laws(),
            r@ + it.remaining() == s@,
            it.decrease() is Some,
        ensures
            r@ == s@,
        decreases it.decrease()->0,
    {
        match it.next() {
            Some(c) => {
                r.push(c);
                assert(r@ + it.remaining() =~= s@);
            },
            None => {
                assert(r@ =~= s@);
                break ;
            },
        }
    }
    r
}

/// The first run of digits is unique.
pub(crate) proof fn lemma_first_run_unique(s: Seq<char>, i: int, j: int, i2: int, j2: int)
    requires
        is_first_run(s, i, j),
        is_first_run(s, i2, j2),
    ensures
        i == i2 && j == j2,
{
    if i < i2 {
        assert(is_digit(s[i]));
    } else if i2 < i {
        assert(is_digit(s[i2]));
    }
    if j < j2 {
        assert(is_digit(s[j]));
    } else if j2 < j {
        assert(is_digit(s[j2]));
    }
}

/// Relies on regex's `Regex::find` with the pattern `[0-9]+`: the leftmost
/// match of a greedy repetition is the first maximal run of ASCII digits.
#[verifier::external_body]
fn find_digit_run(key: &str) -> (r: Option<String>)
    ensures
        match r {
            Some(d) => exists|i: int, j: int| is_first_run(key@, i, j) && d@ == key@.subrange(i, j),
            None => forall|k: int| 0 <= k < key@.len() ==> !is_digit(#[trigger] key@[k]),
        },
{
    let re = regex::Regex::new("[0-9]+").unwrap();
    re.find(key).map(|m| m.as_str().to_string())
}

proof fn lemma_digits_value_grows(d: Seq<char>)
    requires
        d.len() > 0,
    ensures
        digits_value(d.drop_last()) <= digits_value(d),
{
}

proof fn lemma_prefix_value(d: Seq<char>, k: int)
    requires
        0 <= k <= d.len(),
    ensures
        digits_value(d.subrange(0, k)) <= digits_value(d),
    decreases d.len(),
{
    if k < d.len() {
        lemma_prefix_value(d.drop_last(), k);
        assert(d.drop_last().subrange(0, k) =~= d.subrange(0, k));
        lemma_digits_value_grows(d);
    } else {
        assert(d.subrange(0, k) =~= d);
    }
}

/// The number written by the digits of `d`, where it fits in a `usize`.
pub fn parse_digits(d: &str) -> (r: Option<usize>)
    requires
        forall|k: int| 0 <= k < d@.len() ==> is_digit(#[trigger] d@[k]),
    ensures
        match r {
            Some(v) => v == digits_value(d@),
            None => digits_value(d@) > usize::MAX,
        },
{
    let cs = chars_of(d);
    let n = cs.len();
    let mut v: usize = 0;
    let mut i: usize = 0;
    while i < n
        invariant
            n == cs@.len(),
            cs@ == d@,
            i <= n,
            v == digits_value(d@.subrange(0, i as int)),
            forall|k: int| 0 <= k < d@.len() ==> is_digit(#[trigger] d@[k]),
        decreases n - i,
    {
        let c = cs[i];
        assert(is_digit(d@[i as int]));
        let digit: usize = ((c as u32) - ('0' as u32)) as usize;
        assert(d@.subrange(0, i as int + 1).drop_last() =~= d@.subrange(0, i as int));
        let next = match v.checked_mul(10) {
            Some(t) => t.checked_add(digit),
            None => None,
        };
        match next {
            Some(t) => {
                v = t;
            },
            None => {
                proof {
                    assert(digits_value(d@.subrange(0, i as int + 1)) > usize::MAX);
                    lemma_prefix_value(d@, i as int + 1);
                }
                return None;
            },
        }
        i = i + 1;
    }
    assert(d@.subrange(0, n as int) =~= d@);
    Some(v)
}

/// The slot number that a key of the plate list carries: the first run of
/// digits in it, read as a decimal number.
pub fn slot_index(key: &str) -> (r: Option<usize>)
    ensures
        match r {
            Some(v) => index_in(key@) == Some(v as nat),
            None => index_in(key@) is None,
        },
{
    match find_digit_run(key) {
        Some(d) => {
            let ghost (i, j) = choose|i: int, j: int| is_first_run(key@, i, j) && d@ == key@.subrange(i, j);
            proof {
                let (i2, j2) = choose|i: int, j: int| is_first_run(key@, i, j);
                lemma_first_run_unique(key@, i, j, i2, j2);
                assert forall|k: int| 0 <= k < d@.len() implies is_digit(#[trigger] d@[k]) by {
                    assert(d@[k] == key@[i + k]);
                }
            }
            parse_digits(d.as_str())
        },
        None => {
            assert(!exists|i: int, j: int| is_first_run(key@, i, j)) by {
                if exists|i: int, j: int| is_first_run(key@, i, j) {
                    let (i, j) = choose|i: int, j: int| is_first_run(key@, i, j);
                    assert(is_digit(key@[i]));
                }
            }
            None
        },
    }
}

/// Whether `w` occurs in `s[from..to]`.
pub fn contains_at(s: &Vec<char>, from: usize, to: usize, w: &Vec<char>) -> (r: bool)
    requires
        from <= to <= s@.len(),
    ensures
        r == has_infix(s@.subrange(from as int, to as int), w@),
{
    let ghost t = s@.subrange(from as int, to as int);
    let m = w.len();
    if m > to - from {
        assert(!has_infix(t, w@));
        return false;
    }
    let mut i: usize = from;
    while i <= to - m
        invariant
            from <= i <= to,
            m == w@.len(),
            m <= to - from,
            to <= s@.len(),
            t == s@.subrange(from as int, to as int),
            forall|p: int| 0 <= p < i - from ==> #[trigger] t.subrange(p, p + m) != w@,
        decreases to - i,
    {
        let mut k: usize = 0;
        let mut same = true;
        while k < m
            invariant
                k <= m,
                i + m <= to,
                to <= s@.len(),
                m == w@.len(),
                same == (forall|q: int| 0 <= q < k ==> s@[i + q] == #[trigger] w@[q]),
            decreases m - k,
        {
            if s[i + k] != w[k] {
                same = false;
            }
            k = k + 1;
        }
        let ghost p = i - from;
        assert(t.subrange(p, p + m) =~= s@.subrange(i as int, i + m));
        if same {
            assert(t.subrange(p, p + m) =~= w@);
            return true;
        } else {
            assert(t.subrange(p, p + m) != w@) by {
                let q = choose|q: int| 0 <= q < m && s@[i + q] != #[trigger] w@[q];
                assert(t.subrange(p, p + m)[q] == s@[i + q]);
            }
        }
        i = i + 1;
    }
    assert(!has_infix(t, w@)) by {
        if has_infix(t, w@) {
            let p = choose|p: int| 0 <= p && p + w@.len() <= t.len() && #[trigger] t.subrange(p, p + w@.len()) == w@;
            assert(t.subrange(p, p + m) == w@);
        }
    }
    false
}

/// Whether `c` is white space (see `is_white`).
pub fn white_char(c: char) -> (r: bool)
    ensures
        r == is_white(c),
{
    ('\u{9}' <= c && c <= '\u{d}') || c == ' ' || c == '\u{85}' || c == '\u{a0}' || c == '\u{1680}'
        || ('\u{2000}' <= c && c <= '\u{200a}') || c == '\u{2028}' || c == '\u{2029}' || c
        == '\u{202f}' || c == '\u{205f}' || c == '\u{3000}'
}

/// `s` without white space at either end.
pub fn trim_text(s: &str) -> (r: String)
    ensures
        r@ == trimmed(s@),
{
    let cs = chars_of(s);
    let n = cs.len();
    let mut i: usize = 0;
    assert(s@.subrange(0, n as int) =~= s@);
    while i < n && white_char(cs[i])
        invariant
            n == s@.len(),
            cs@ == s@,
            i <= n,
            strip_front(s@) == strip_front(s@.subrange(i as int, n as int)),
        decreases n - i,
    {
        assert(s@.subrange(i as int, n as int).drop_first() =~= s@.subrange(i + 1, n as int));
        i = i + 1;
    }
    assert(strip_front(s@) == s@.subrange(i as int, n as int));
    let mut j: usize = n;
    while j > i && white_char(cs[j - 1])
        invariant
            n == s@.len(),
            cs@ == s@,
            i <= j <= n,
            trimmed(s@) == strip_back(s@.subrange(i as int, j as int)),
        decreases j - i,
    {
        assert(s@.subrange(i as int, j as int).drop_last() =~= s@.subrange(i as int, j - 1));
        j = j - 1;
    }
    assert(trimmed(s@) == s@.subrange(i as int, j as int));
    s.substring_char(i, j).to_owned()
}

/// Whether `c` may stand in a query value as it is: an ASCII letter or
/// digit, or one of `-._~`.
pub open spec fn is_unreserved(c: char) -> bool {
    ||| ('A' <= c && c <= 'Z')
    ||| ('a' <= c && c <= 'z')
    ||| is_digit(c)
    ||| c == '-'
    ||| c == '.'
    ||| c == '_'
    ||| c == '~'
}

/// The upper-case hexadecimal digit of `d`.
pub open spec fn hex_digit(d: u32) -> char {
    "0123456789ABCDEF"@[d as int]
}

/// `c` as it stands in a query value: an ASCII character other than an
/// unreserved one becomes `%` and its code in two hexadecimal digits; the
/// others stay as they are.
pub open spec fn escaped(c: char) -> Seq<char> {
    if is_unreserved(c) || c as u32 >= 128 {
        seq![c]
    } else {
        seq!['%', hex_digit(c as u32 / 16), hex_digit(c as u32 % 16)]
    }
}

/// `v` with each character escaped for a query value.
pub open spec fn query_value(v: Seq<char>) -> Seq<char>
    decreases v.len(),
{
    if v.len() == 0 {
        Seq::empty()
    } else {
        query_value(v.drop_last()) + escaped(v.last())
    }
}

/// Whether `c` is unreserved (see `is_unreserved`).
fn unreserved_char(c: char) -> (r: bool)
    ensures
        r == is_unreserved(c),
{
    ('A' <= c && c <= 'Z') || ('a' <= c && c <= 'z') || ('0' <= c && c <= '9') || c == '-' || c
        == '.' || c == '_' || c == '~'
}

/// `v` escaped for a query value, so that `&`, `=`, `#` and their like in it
/// cannot change the meaning of the query.
pub fn escape_value(v: &str) -> (r: String)
    ensures
        r@ == query_value(v@),
{
    let cs = chars_of(v);
    let n = cs.len();
    let hex = "0123456789ABCDEF";
    proof {
        reveal_strlit("0123456789ABCDEF");
    }
    let mut r = String::new();
    let mut i: usize = 0;
    assert(v@.subrange(0, 0) =~= Seq::<char>::empty());
    while i < n
        invariant
            n == v@.len(),
            cs@ == v@,
            i <= n,
            hex@ == "0123456789ABCDEF"@,
            hex@.len() == 16,
            r@ == query_value(v@.subrange(0, i as int)),
        decreases n - i,
    {
        let c = cs[i];
        assert(v@.subrange(0, i + 1).drop_last() =~= v@.subrange(0, i as int));
        let code: u32 = #[verifier::truncate] (c as u32);
        if unreserved_char(c) || code >= 128 {
            let one = v.substring_char(i, i + 1);
            assert(one@ =~= seq![c]);
            r.append(one);
        } else {
            let hi = (code / 16) as usize;
            let lo = (code % 16) as usize;
            let ghost before = r@;
            proof {
                reveal_strlit("%");
            }
            r.append("%");
            assert("%"@ =~= seq!['%']);
            assert(escaped(c) =~= seq!['%', hex_digit(code / 16), hex_digit(code % 16)]);
            let h = hex.substring_char(hi, hi + 1);
            let l = hex.substring_char(lo, lo + 1);
            assert(h@ =~= seq![hex_digit(code / 16)]);
            assert(l@ =~= seq![hex_digit(code % 16)]);
            r.append(h);
            r.append(l);
            assert(r@ =~= before + escaped(c));
        }
        i = i + 1;
    }
    assert(v@.subrange(0, n as int) =~= v@);
    r
}

/// Escaping leaves a value of unreserved characters (plate numbers, dates
/// `YYYY-MM-DD`) as it is, so such requests read as they would unescaped.
pub proof fn plain_value_unchanged(v: Seq<char>)
    requires
        forall|k: int| 0 <= k < v.len() ==> is_unreserved(#[trigger] v[k]),
    ensures
        query_value(v) == v,
    decreases v.len(),
{
    if v.len() > 0 {
        assert forall|k: int| 0 <= k < v.drop_last().len() implies is_unreserved(
            #[trigger] v.drop_last()[k],
        ) by {
            assert(v.drop_last()[k] == v[k]);
        }
        plain_value_unchanged(v.drop_last());
        assert(is_unreserved(v[v.len() - 1]));
        assert(v.drop_last() + seq![v.last()] =~= v);
    } else {
        assert(v =~= Seq::<char>::empty());
    }
}

} // verus!
