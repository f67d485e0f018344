use vstd::prelude::*;
use crate::protocol::{CameraError, Fault};
use crate::text::{chars_of, contains_at, has_infix, index_in, slot_index};

verus! {

/// One entry of the allow list: a plate number and the first and last day on
/// which it is let through, each written `YYYY-MM-DD`.
#[derive(Debug, PartialEq, Eq)]
pub struct Car {
    pub number: String,
    pub begin_date: String,
    pub end_date: String,
}

/// A `Car` with its texts as sequences of characters.
pub struct Plate {
    pub number: Seq<char>,
    pub begin_date: Seq<char>,
    pub end_date: Seq<char>,
}

impl View for Car {
    type V = Plate;

    open spec fn view(&self) -> Plate {
        Plate { number: self.number@, begin_date: self.begin_date@, end_date: self.end_date@ }
    }
}

/// The pieces of `s` between the occurrences of `sep`, in order; a text
/// without `sep` is one piece, and an empty text one empty piece.
pub open spec fn split_on(s: Seq<char>, sep: char) -> Seq<Seq<char>>
    decreases s.len(),
{
    if s.len() == 0 {
        seq![Seq::<char>::empty()]
    } else {
        let prev = split_on(s.drop_last(), sep);
        if s.last() == sep {
            prev.push(Seq::<char>::empty())
        } else {
            prev.update(prev.len() - 1, prev.last().push(s.last()))
        }
    }
}

/// `line[i]` is the one `=` in `line`.
pub open spec fn sole_eq_at(line: Seq<char>, i: int) -> bool {
    &&& 0 <= i < line.len()
    &&& line[i] == '='
    &&& forall|j: int| 0 <= j < line.len() && j != i ==> #[trigger] line[j] != '='
}

/// The key and the value of a line `key=value`; `None` for a line that does
/// not hold exactly one `=`.
pub open spec fn key_value(line: Seq<char>) -> Option<(Seq<char>, Seq<char>)> {
    if exists|i: int| sole_eq_at(line, i) {
        let i = choose|i: int| sole_eq_at(line, i);
        Some((line.subrange(0, i), line.subrange(i + 1, line.len() as int)))
    } else {
        None
    }
}

/// `c` with its first day (`begin`) or its last day replaced by `d`.
pub open spec fn with_date(c: Plate, begin: bool, d: Seq<char>) -> Plate {
    if begin {
        Plate { number: c.number, begin_date: d, end_date: c.end_date }
    } else {
        Plate { number: c.number, begin_date: c.begin_date, end_date: d }
    }
}

/// The effect of a line `Number<N>=value`: slot `N` holds a new entry.
pub open spec fn number_line(m: Map<nat, Plate>, key: Seq<char>, value: Seq<char>) -> Option<
    Map<nat, Plate>,
> {
    match index_in(key) {
        Some(n) => Some(
            m.insert(
                n,
                Plate { number: value, begin_date: Seq::empty(), end_date: Seq::empty() },
            ),
        ),
        None => None,
    }
}

/// The effect of a line `Begin<N>=value` or `End<N>=value`: the entry of slot
/// `N` gets its date; without an entry there the list is malformed.
pub open spec fn date_line(m: Map<nat, Plate>, key: Seq<char>, value: Seq<char>, begin: bool) -> Option<
    Map<nat, Plate>,
> {
    match index_in(key) {
        Some(n) => if m.contains_key(n) {
            Some(m.insert(n, with_date(m[n], begin, value)))
        } else {
            None
        },
        None => None,
    }
}

/// The slots after one more line of the list; `None` where the line makes
/// the list malformed.
#[verifier::opaque]
pub open spec fn apply_line(m: Map<nat, Plate>, line: Seq<char>) -> Option<Map<nat, Plate>> {
    match key_value(line) {
        None => Some(m),
        Some((key, value)) => if has_infix(key, "Number"@) {
            number_line(m, key, value)
        } else if has_infix(key, "Begin"@) {
            date_line(m, key, value, true)
        } else if has_infix(key, "End"@) {
            date_line(m, key, value, false)
        } else {
            Some(m)
        },
    }
}

/// The slots that the lines describe, read in order from an empty table.
pub open spec fn decode_lines(lines: Seq<Seq<char>>) -> Option<Map<nat, Plate>>
    decreases lines.len(),
{
    if lines.len() == 0 {
        Some(Map::empty())
    } else {
        match decode_lines(lines.drop_last()) {
            Some(m) => apply_line(m, lines.last()),
            None => None,
        }
    }
}

/// The slots that a plate list describes; `None` where it is malformed.
pub open spec fn decoded(body: Seq<char>) -> Option<Map<nat, Plate>> {
    decode_lines(split_on(body, '\n'))
}

/// The slots of `v` rise strictly.
pub open spec fn ascending(v: Seq<(usize, Car)>) -> bool {
    forall|i: int, j: int| 0 <= i < j < v.len() ==> #[trigger] v[i].0 < #[trigger] v[j].0
}

/// `v` lists the slots of `m`, each once, in ascending order.
pub open spec fn lists(v: Seq<(usize, Car)>, m: Map<nat, Plate>) -> bool {
    &&& ascending(v)
    &&& forall|i: int|
        0 <= i < v.len() ==> m.contains_key(#[trigger] v[i].0 as nat) && m[v[i].0 as nat]
            == v[i].1@
    &&& forall|k: nat| #[trigger] m.contains_key(k) ==> exists|i: int| 0 <= i < v.len() && v[i].0 == k
}

pub(crate) proof fn lemma_split_len(s: Seq<char>, sep: char)
    ensures
        split_on(s, sep).len() >= 1,
    decreases s.len(),
{
    if s.len() > 0 {
        lemma_split_len(s.drop_last(), sep);
    }
}

/// The place of slot `n` in `v`: the first entry whose slot is not below `n`.
fn seek(v: &Vec<(usize, Car)>, n: usize) -> (p: usize)
    requires
        ascending(v@),
    ensures
        p <= v@.len(),
        forall|i: int| 0 <= i < p ==> #[trigger] v@[i].0 < n,
        forall|i: int| p <= i < v@.len() ==> #[trigger] v@[i].0 >= n,
{
    let mut p: usize = 0;
    while p < v.len() && v[p].0 < n
        invariant
            p <= v@.len(),
            ascending(v@),
            forall|i: int| 0 <= i < p ==> #[trigger] v@[i].0 < n,
        decreases v@.len() - p,
    {
        p = p + 1;
    }
    assert forall|i: int| p <= i < v@.len() implies #[trigger] v@[i].0 >= n by {
        if i > p {
            assert(v@[p as int].0 < v@[i].0);
        }
    }
    p
}

/// Where slot `n` stands in `v`, if `m` has it.
fn find(v: &Vec<(usize, Car)>, n: usize, Ghost(m): Ghost<Map<nat, Plate>>) -> (r: Option<usize>)
    requires
        lists(v@, m),
    ensures
        match r {
            Some(q) => q < v@.len() && v@[q as int].0 == n && m.contains_key(n as nat),
            None => !m.contains_key(n as nat),
        },
{
    let p = seek(v, n);
    if p < v.len() && v[p].0 == n {
        Some(p)
    } else {
        proof {
            if m.contains_key(n as nat) {
                let i = choose|i: int| 0 <= i < v@.len() && v@[i].0 == n;
                if i > p {
                    assert(v@[p as int].0 < v@[i].0);
                }
            }
        }
        None
    }
}

/// Puts `car` at slot `n`, in place of what stood there.
fn put(v: &mut Vec<(usize, Car)>, n: usize, car: Car, Ghost(m): Ghost<Map<nat, Plate>>)
    requires
        lists(old(v)@, m),
    ensures
        lists(final(v)@, m.insert(n as nat, car@)),
{
    let ghost c = car@;
    let ghost m2 = m.insert(n as nat, c);
    let ghost w = v@;
    let p = seek(v, n);
    if p < v.len() && v[p].0 == n {
        v.set(p, (n, car));
        proof {
            assert forall|i: int| 0 <= i < v@.len() implies m2.contains_key(#[trigger] v@[i].0 as nat)
                && m2[v@[i].0 as nat] == v@[i].1@ by {
                if i != p {
                    assert(w[i] == v@[i]);
                    if i < p {
                        assert(w[i].0 < w[p as int].0);
                    } else {
                        assert(w[p as int].0 < w[i].0);
                    }
                }
            }
            assert forall|k: nat| #[trigger] m2.contains_key(k) implies exists|i: int|
                0 <= i < v@.len() && v@[i].0 == k by {
                if k == n {
                    assert(v@[p as int].0 == k);
                } else {
                    let i = choose|i: int| 0 <= i < w.len() && w[i].0 == k;
                    assert(v@[i].0 == k);
                }
            }
        }
    } else {
        v.insert(p, (n, car));
        proof {
            assert(v@ == w.insert(p as int, (n, car)));
            assert forall|i: int, j: int| 0 <= i < j < v@.len() implies #[trigger] v@[i].0
                < #[trigger] v@[j].0 by {
                if j < p {
                    assert(v@[i] == w[i] && v@[j] == w[j]);
                } else if j == p {
                    assert(v@[i] == w[i]);
                } else if i < p {
                    assert(v@[i] == w[i] && v@[j] == w[j - 1]);
                } else if i == p {
                    assert(v@[j] == w[j - 1]);
                } else {
                    assert(v@[i] == w[i - 1] && v@[j] == w[j - 1]);
                }
            }
            assert forall|i: int| 0 <= i < v@.len() implies m2.contains_key(#[trigger] v@[i].0 as nat)
                && m2[v@[i].0 as nat] == v@[i].1@ by {
                if i < p {
                    assert(v@[i] == w[i]);
                } else if i > p {
                    assert(v@[i] == w[i - 1]);
                }
            }
            assert forall|k: nat| #[trigger] m2.contains_key(k) implies exists|i: int|
                0 <= i < v@.len() && v@[i].0 == k by {
                if k == n {
                    assert(v@[p as int].0 == k);
                } else {
                    let i = choose|i: int| 0 <= i < w.len() && w[i].0 == k;
                    if i < p {
                        assert(v@[i].0 == k);
                    } else {
                        assert(v@[i + 1].0 == k);
                    }
                }
            }
        }
    }
}

/// The position of the one `=` in `cs[from..to]`, if it holds exactly one.
fn sole_eq(cs: &Vec<char>, from: usize, to: usize) -> (r: Option<usize>)
    requires
        from <= to <= cs@.len(),
    ensures
        match r {
            Some(p) => from <= p < to && sole_eq_at(cs@.subrange(from as int, to as int), p - from),
            None => !exists|i: int| sole_eq_at(cs@.subrange(from as int, to as int), i),
        },
{
    let ghost line = cs@.subrange(from as int, to as int);
    let mut first: Option<usize> = None;
    let mut k: usize = from;
    while k < to
        invariant
            from <= k <= to <= cs@.len(),
            line == cs@.subrange(from as int, to as int),
            match first {
                Some(p) => from <= p < k && cs@[p as int] == '=' && forall|q: int|
                    from <= q < k && q != p ==> #[trigger] cs@[q] != '=',
                None => forall|q: int| from <= q < k ==> #[trigger] cs@[q] != '=',
            },
        decreases to - k,
    {
        if cs[k] == '=' {
            match first {
                Some(p) => {
                    assert forall|i: int| !sole_eq_at(line, i) by {
                        if sole_eq_at(line, i) {
                            if i != p - from {
                                assert(line[p - from] == '=');
                            } else {
                                assert(line[k - from] == '=');
                            }
                        }
                    }
                    return None;
                },
                None => {
                    first = Some(k);
                },
            }
        }
        k = k + 1;
    }
    match first {
        Some(p) => {
            assert forall|j: int| 0 <= j < line.len() && j != p - from implies #[trigger] line[j]
                != '=' by {
                assert(line[j] == cs@[from + j]);
            }
            Some(p)
        },
        None => {
            assert forall|i: int| !sole_eq_at(line, i) by {
                if sole_eq_at(line, i) {
                    assert(line[i] == cs@[from + i]);
                }
            }
            None
        },
    }
}

/// The line `body[from..to]` is `key=value`, split at `p`.
pub(crate) proof fn lemma_key_value(line: Seq<char>, p: int)
    requires
        sole_eq_at(line, p),
    ensures
        key_value(line) == Some((line.subrange(0, p), line.subrange(p + 1, line.len() as int))),
{
    let i = choose|i: int| sole_eq_at(line, i);
    if i != p {
        assert(line[p] == '=');
    }
}

/// Gives slot `n` of `v` the date `d` as its first day (`begin`) or last day;
/// `false` where `v` has no slot `n`.
fn set_date(
    v: &mut Vec<(usize, Car)>,
    n: usize,
    d: &str,
    begin: bool,
    Ghost(m): Ghost<Map<nat, Plate>>,
) -> (ok: bool)
    requires
        lists(old(v)@, m),
    ensures
        ok == m.contains_key(n as nat),
        ok ==> lists(final(v)@, m.insert(n as nat, with_date(m[n as nat], begin, d@))),
{
    match find(v, n, Ghost(m)) {
        Some(q) => {
            let car = if begin {
                Car {
                    number: v[q].1.number.clone(),
                    begin_date: d.to_owned(),
                    end_date: v[q].1.end_date.clone(),
                }
            } else {
                Car {
                    number: v[q].1.number.clone(),
                    begin_date: v[q].1.begin_date.clone(),
                    end_date: d.to_owned(),
                }
            };
            assert(car@ == with_date(m[n as nat], begin, d@));
            put(v, n, car, Ghost(m));
            true
        },
        None => false,
    }
}

/// Reads the line `body[from..to]` into `v`; `false` where it makes the list
/// malformed.
fn take_line(
    body: &str,
    cs: &Vec<char>,
    from: usize,
    to: usize,
    words: &(Vec<char>, Vec<char>, Vec<char>),
    v: &mut Vec<(usize, Car)>,
    Ghost(m): Ghost<Map<nat, Plate>>,
) -> (ok: bool)
    requires
        cs@ == body@,
        from <= to <= cs@.len(),
        words.0@ == "Number"@,
        words.1@ == "Begin"@,
        words.2@ == "End"@,
        lists(old(v)@, m),
    ensures
        match apply_line(m, body@.subrange(from as int, to as int)) {
            Some(m2) => ok && lists(final(v)@, m2),
            None => !ok,
        },
{
    let ghost line = body@.subrange(from as int, to as int);
    proof {
        reveal(apply_line);
    }
    match sole_eq(cs, from, to) {
        None => true,
        Some(p) => {
            proof {
                lemma_key_value(line, p - from);
            }
            let key = body.substring_char(from, p);
            let value = body.substring_char(p + 1, to);
            assert(key@ =~= line.subrange(0, p - from));
            assert(value@ =~= line.subrange(p - from + 1, line.len() as int));
            assert(cs@.subrange(from as int, p as int) =~= key@);
            if contains_at(cs, from, p, &words.0) {
                match slot_index(key) {
                    Some(n) => {
                        let car = Car {
                            number: value.to_owned(),
                            begin_date: String::new(),
                            end_date: String::new(),
                        };
                        put(v, n, car, Ghost(m));
                        true
                    },
                    None => false,
                }
            } else if contains_at(cs, from, p, &words.1) {
                match slot_index(key) {
                    Some(n) => set_date(v, n, value, true, Ghost(m)),
                    None => false,
                }
            } else if contains_at(cs, from, p, &words.2) {
                match slot_index(key) {
                    Some(n) => set_date(v, n, value, false, Ghost(m)),
                    None => false,
                }
            } else {
                true
            }
        },
    }
}

/// Decodes the plate list that the camera sends: lines `Number<N>=plate`,
/// `Begin<N>=date`, `End<N>=date` (and `Notify<N>=..`, which is ignored),
/// tied together by their slot `N`, in any order. The result lists the
/// slots in ascending order.
pub fn parse_raw_cars_list(body: &str) -> (r: Result<Vec<(usize, Car)>, CameraError>)
    ensures
        match r {
            Ok(v) => decoded(body@) is Some && lists(v@, decoded(body@)->Some_0),
            Err(e) => decoded(body@) is None && e@ == Fault::MalformedResponse,
        },
{
    let cs = chars_of(body);
    let n = cs.len();
    let words = (chars_of("Number"), chars_of("Begin"), chars_of("End"));
    let mut v: Vec<(usize, Car)> = Vec::new();
    let ghost mut m: Map<nat, Plate> = Map::empty();
    let mut failed = false;
    let mut start: usize = 0;
    let mut i: usize = 0;
    assert(body@.subrange(0, 0) =~= Seq::<char>::empty());
    assert(split_on(Seq::<char>::empty(), '\n').drop_last() =~= Seq::<Seq<char>>::empty());
    while i < n
        invariant
            cs@ == body@,
            n == cs@.len(),
            start <= i <= n,
            words.0@ == "Number"@,
            words.1@ == "Begin"@,
            words.2@ == "End"@,
            split_on(body@.subrange(0, i as int), '\n').last() == body@.subrange(
                start as int,
                i as int,
            ),
            failed ==> decode_lines(split_on(body@.subrange(0, i as int), '\n').drop_last())
                is None,
            !failed ==> decode_lines(split_on(body@.subrange(0, i as int), '\n').drop_last())
                == Some(m) && lists(v@, m),
        decreases n - i,
    {
        let ghost before = split_on(body@.subrange(0, i as int), '\n');
        let ghost after = split_on(body@.subrange(0, i + 1), '\n');
        proof {
            lemma_split_len(body@.subrange(0, i as int), '\n');
            assert(body@.subrange(0, i + 1).drop_last() =~= body@.subrange(0, i as int));
        }
        if cs[i] == '\n' {
            assert(after == before.push(Seq::<char>::empty()));
            assert(after.drop_last() =~= before);
            assert(before.drop_last() =~= before.subrange(0, before.len() - 1));
            if !failed {
                let ok = take_line(body, &cs, start, i, &words, &mut v, Ghost(m));
                proof {
                    if ok {
                        m = apply_line(m, before.last())->Some_0;
                    }
                }
                failed = !ok;
            }
            start = i + 1;
            assert(after.last() =~= body@.subrange(start as int, i + 1));
        } else {
            assert(after.drop_last() =~= before.drop_last());
            assert(after.last() =~= body@.subrange(start as int, i + 1));
        }
        i = i + 1;
    }
    let ghost lines = split_on(body@, '\n');
    proof {
        assert(body@.subrange(0, n as int) =~= body@);
        lemma_split_len(body@, '\n');
    }
    if failed {
        return Err(CameraError::MalformedResponse);
    }
    let ok = take_line(body, &cs, start, n, &words, &mut v, Ghost(m));
    if ok {
        Ok(v)
    } else {
        Err(CameraError::MalformedResponse)
    }
}

/// `line` is a `Number` line for slot `n`.
pub open spec fn numbers_slot(line: Seq<char>, n: nat) -> bool {
    &&& key_value(line) is Some
    &&& has_infix(key_value(line)->Some_0.0, "Number"@)
    &&& index_in(key_value(line)->Some_0.0) == Some(n)
}

/// `line` is a `Begin` line for slot `n`.
pub open spec fn begins_slot(line: Seq<char>, n: nat) -> bool {
    &&& key_value(line) is Some
    &&& !has_infix(key_value(line)->Some_0.0, "Number"@)
    &&& has_infix(key_value(line)->Some_0.0, "Begin"@)
    &&& index_in(key_value(line)->Some_0.0) == Some(n)
}

/// A slot that the lines have filled was named by one of their `Number` lines.
proof fn lemma_slot_has_number(lines: Seq<Seq<char>>, n: nat)
    requires
        decode_lines(lines) is Some,
        decode_lines(lines)->Some_0.contains_key(n),
    ensures
        exists|j: int| 0 <= j < lines.len() && #[trigger] numbers_slot(lines[j], n),
    decreases lines.len(),
{
    reveal(apply_line);
    let prev = lines.drop_last();
    let m = decode_lines(prev)->Some_0;
    let line = lines.last();
    if m.contains_key(n) {
        lemma_slot_has_number(prev, n);
        let j = choose|j: int| 0 <= j < prev.len() && #[trigger] numbers_slot(prev[j], n);
        assert(lines[j] == prev[j]);
    } else {
        assert(numbers_slot(lines[lines.len() - 1], n));
    }
}

/// Once a prefix of the lines is malformed, so are all of them.
proof fn lemma_malformed_prefix(lines: Seq<Seq<char>>, k: int)
    requires
        0 <= k <= lines.len(),
        decode_lines(lines.subrange(0, k)) is None,
    ensures
        decode_lines(lines) is None,
    decreases lines.len(),
{
    if k < lines.len() {
        assert(lines.drop_last().subrange(0, k) =~= lines.subrange(0, k));
        lemma_malformed_prefix(lines.drop_last(), k);
    } else {
        assert(lines.subrange(0, k) =~= lines);
    }
}

/// A `Begin` line for a slot that no earlier `Number` line has named makes
/// the whole list malformed, whatever stands around it.
pub proof fn begin_without_number_is_malformed(body: Seq<char>, k: int, n: nat)
    requires
        0 <= k < split_on(body, '\n').len(),
        begins_slot(split_on(body, '\n')[k], n),
        forall|j: int| 0 <= j < k ==> !#[trigger] numbers_slot(split_on(body, '\n')[j], n),
    ensures
        decoded(body) is None,
{
    reveal(apply_line);
    let lines = split_on(body, '\n');
    let pre = lines.subrange(0, k + 1);
    assert(pre.drop_last() =~= lines.subrange(0, k));
    if decode_lines(lines.subrange(0, k)) is Some {
        let m = decode_lines(lines.subrange(0, k))->Some_0;
        if m.contains_key(n) {
            lemma_slot_has_number(lines.subrange(0, k), n);
            let j = choose|j: int| 0 <= j < k && #[trigger] numbers_slot(lines.subrange(0, k)[j], n);
            assert(lines.subrange(0, k)[j] == lines[j]);
        }
    }
    assert(pre.last() == lines[k]);
    lemma_malformed_prefix(lines, k + 1);
}

} // verus!
