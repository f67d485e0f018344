use vstd::prelude::*;
use crate::codec::{
    apply_line, decode_lines, decoded, key_value, number_line, sole_eq_at, split_on,
    with_date, Plate,
};
use crate::text::{
    digits_value, first_run, has_infix, index_in, is_digit, is_first_run, lemma_first_run_unique,
};

verus! {

/// The character of the decimal digit `d`.
pub open spec fn digit_char(d: nat) -> char {
    ((d + 48) as u8) as char
}

/// The decimal digits of `n`, most significant first, without leading zeros.
pub open spec fn digits_of(n: nat) -> Seq<char>
    decreases n,
{
    if n < 10 {
        seq![digit_char(n)]
    } else {
        digits_of(n / 10).push(digit_char(n % 10))
    }
}

/// The line `<word><n>=<value>` of a plate list.
pub open spec fn field_line(word: Seq<char>, n: nat, value: Seq<char>) -> Seq<char> {
    word + digits_of(n) + seq!['='] + value
}

/// The three lines that describe the entry `c` at slot `n`.
pub open spec fn entry_lines(n: nat, c: Plate) -> Seq<Seq<char>> {
    seq![
        field_line("Number"@, n, c.number),
        field_line("Begin"@, n, c.begin_date),
        field_line("End"@, n, c.end_date),
    ]
}

/// The lines that describe the entries, in the order given.
pub open spec fn all_lines(es: Seq<(usize, Plate)>) -> Seq<Seq<char>>
    decreases es.len(),
{
    if es.len() == 0 {
        Seq::empty()
    } else {
        all_lines(es.drop_last()) + entry_lines(es.last().0 as nat, es.last().1)
    }
}

/// The lines joined by line breaks.
pub open spec fn join_lines(lines: Seq<Seq<char>>) -> Seq<char>
    decreases lines.len(),
{
    if lines.len() == 0 {
        Seq::empty()
    } else if lines.len() == 1 {
        lines[0]
    } else {
        join_lines(lines.drop_last()) + seq!['\n'] + lines.last()
    }
}

/// A plate list, in the camera's form, that describes the entries in the
/// order given.
pub open spec fn encoded(es: Seq<(usize, Plate)>) -> Seq<char> {
    join_lines(all_lines(es))
}

/// `v` holds neither `=` nor a line break, so it can stand as a value.
pub open spec fn clean(v: Seq<char>) -> bool {
    forall|k: int| 0 <= k < v.len() ==> #[trigger] v[k] != '=' && v[k] != '\n'
}

/// Every text of `c` can stand as a value.
pub open spec fn clean_plate(c: Plate) -> bool {
    clean(c.number) && clean(c.begin_date) && clean(c.end_date)
}

/// The entries put one after the other into an empty table.
pub open spec fn table_of(es: Seq<(usize, Plate)>) -> Map<nat, Plate>
    decreases es.len(),
{
    if es.len() == 0 {
        Map::empty()
    } else {
        table_of(es.drop_last()).insert(es.last().0 as nat, es.last().1)
    }
}

proof fn lemma_digit_char(d: nat)
    requires
        d < 10,
    ensures
        is_digit(digit_char(d)),
        digit_char(d) as int - '0' as int == d,
{
    assert(((d + 48) as u8) as int == d + 48);
}

proof fn lemma_digits(n: nat)
    ensures
        digits_of(n).len() > 0,
        forall|k: int| 0 <= k < digits_of(n).len() ==> is_digit(#[trigger] digits_of(n)[k]),
        digits_value(digits_of(n)) == n,
    decreases n,
{
    lemma_digit_char(n % 10);
    if n >= 10 {
        lemma_digits(n / 10);
        let d = digits_of(n);
        assert(d.drop_last() =~= digits_of(n / 10));
        assert(d.last() as int - '0' as int == n % 10);
        assert(digits_value(d) == digits_value(digits_of(n / 10)) * 10 + n % 10);
        assert(n == (n / 10) * 10 + n % 10) by (nonlinear_arith);
    } else {
        assert(n % 10 == n);
        assert(digits_of(n).drop_last() =~= Seq::<char>::empty());
        assert(digits_value(Seq::<char>::empty()) == 0);
    }
}

proof fn lemma_split_plain(s: Seq<char>, sep: char)
    requires
        forall|k: int| 0 <= k < s.len() ==> #[trigger] s[k] != sep,
    ensures
        split_on(s, sep) == seq![s],
    decreases s.len(),
{
    if s.len() > 0 {
        assert forall|k: int| 0 <= k < s.drop_last().len() implies #[trigger] s.drop_last()[k]
            != sep by {
            assert(s.drop_last()[k] == s[k]);
        }
        lemma_split_plain(s.drop_last(), sep);
        assert(s[s.len() - 1] != sep);
        assert(s.drop_last().push(s.last()) =~= s);
        assert(seq![s.drop_last()].update(0, s) =~= seq![s]);
    } else {
        assert(s =~= Seq::<char>::empty());
    }
}

proof fn lemma_split_concat(a: Seq<char>, b: Seq<char>, sep: char)
    ensures
        split_on(a + seq![sep] + b, sep) == split_on(a, sep) + split_on(b, sep),
    decreases b.len(),
{
    let s = a + seq![sep] + b;
    if b.len() == 0 {
        assert(s.drop_last() =~= a);
        assert(split_on(a, sep).push(Seq::<char>::empty()) =~= split_on(a, sep) + seq![
            Seq::<char>::empty(),
        ]);
    } else {
        lemma_split_concat(a, b.drop_last(), sep);
        assert(s.drop_last() =~= a + seq![sep] + b.drop_last());
        let pa = split_on(a, sep);
        let pb = split_on(b.drop_last(), sep);
        crate::codec::lemma_split_len(b.drop_last(), sep);
        if b.last() == sep {
            assert((pa + pb).push(Seq::<char>::empty()) =~= pa + pb.push(Seq::<char>::empty()));
        } else {
            let q = pa + pb;
            assert(q.update(q.len() - 1, q.last().push(s.last())) =~= pa + pb.update(
                pb.len() - 1,
                pb.last().push(b.last()),
            ));
        }
    }
}

proof fn lemma_split_join(lines: Seq<Seq<char>>)
    requires
        lines.len() > 0,
        forall|i: int, k: int|
            0 <= i < lines.len() && 0 <= k < lines[i].len() ==> #[trigger] lines[i][k] != '\n',
    ensures
        split_on(join_lines(lines), '\n') == lines,
    decreases lines.len(),
{
    if lines.len() == 1 {
        assert forall|k: int| 0 <= k < lines[0].len() implies #[trigger] lines[0][k] != '\n' by {
            assert(lines[0][k] != '\n');
        }
        lemma_split_plain(lines[0], '\n');
        assert(lines =~= seq![lines[0]]);
    } else {
        let init = lines.drop_last();
        assert forall|i: int, k: int|
            0 <= i < init.len() && 0 <= k < init[i].len() implies #[trigger] init[i][k] != '\n' by {
            assert(init[i] == lines[i]);
        }
        lemma_split_join(init);
        assert forall|k: int| 0 <= k < lines.last().len() implies #[trigger] lines.last()[k]
            != '\n' by {
            assert(lines[lines.len() - 1][k] != '\n');
        }
        lemma_split_plain(lines.last(), '\n');
        lemma_split_concat(join_lines(init), lines.last(), '\n');
        assert(init + seq![lines.last()] =~= lines);
    }
}

/// No piece of `key` starts with the first character of `w`.
proof fn lemma_no_infix(key: Seq<char>, w: Seq<char>)
    requires
        w.len() > 0,
        forall|k: int| 0 <= k < key.len() ==> #[trigger] key[k] != w[0],
    ensures
        !has_infix(key, w),
{
    if has_infix(key, w) {
        let i = choose|i: int|
            0 <= i && i + w.len() <= key.len() && #[trigger] key.subrange(i, i + w.len()) == w;
        assert(key.subrange(i, i + w.len())[0] == key[i]);
    }
}

/// The key `<word><n>` and the value of a field line, and its slot.
proof fn lemma_field_line(word: Seq<char>, n: usize, value: Seq<char>)
    requires
        forall|k: int| 0 <= k < word.len() ==> #[trigger] word[k] != '=' && !is_digit(word[k]),
        clean(value),
    ensures
        key_value(field_line(word, n as nat, value)) == Some((word + digits_of(n as nat), value)),
        index_in(word + digits_of(n as nat)) == Some(n as nat),
{
    let d = digits_of(n as nat);
    lemma_digits(n as nat);
    let key = word + d;
    let line = field_line(word, n as nat, value);
    let p = key.len() as int;
    assert forall|j: int| 0 <= j < line.len() && j != p implies #[trigger] line[j] != '=' by {
        if j < word.len() {
            assert(line[j] == word[j]);
        } else if j < p {
            assert(line[j] == d[j - word.len()]);
        } else {
            assert(line[j] == value[j - p - 1]);
        }
    }
    assert(sole_eq_at(line, p));
    crate::codec::lemma_key_value(line, p);
    assert(line.subrange(0, p) =~= key);
    assert(line.subrange(p + 1, line.len() as int) =~= value);
    assert(is_first_run(key, word.len() as int, p));
    let (i, j) = choose|i: int, j: int| is_first_run(key, i, j);
    lemma_first_run_unique(key, i, j, word.len() as int, p);
    assert(key.subrange(word.len() as int, p) =~= d);
    assert(first_run(key) == Some(d));
}

/// Every character of `<word><digits>` is one of `word` or a digit.
proof fn lemma_key_chars(word: Seq<char>, n: nat, c: char)
    requires
        !is_digit(c),
        forall|k: int| 0 <= k < word.len() ==> #[trigger] word[k] != c,
    ensures
        forall|k: int| 0 <= k < (word + digits_of(n)).len() ==> #[trigger] (word + digits_of(n))[k]
            != c,
{
    lemma_digits(n);
    let key = word + digits_of(n);
    assert forall|k: int| 0 <= k < key.len() implies #[trigger] key[k] != c by {
        if k < word.len() {
            assert(key[k] == word[k]);
        } else {
            assert(key[k] == digits_of(n)[k - word.len()]);
        }
    }
}

/// `w` can start a key: it holds no `=`, line break or digit.
pub open spec fn plain_word(w: Seq<char>) -> bool {
    forall|k: int| 0 <= k < w.len() ==> #[trigger] w[k] != '=' && w[k] != '\n' && !is_digit(w[k])
}

/// `w` does not hold `c`.
pub open spec fn lacks(w: Seq<char>, c: char) -> bool {
    forall|k: int| 0 <= k < w.len() ==> #[trigger] w[k] != c
}

/// What the proofs need of the field names.
proof fn lemma_words()
    ensures
        plain_word("Number"@),
        plain_word("Begin"@),
        plain_word("End"@),
        "Number"@.len() > 0 && "Number"@[0] == 'N',
        "Begin"@.len() > 0 && "Begin"@[0] == 'B',
        lacks("Begin"@, 'N'),
        lacks("End"@, 'N'),
        lacks("End"@, 'B'),
{
    reveal_strlit("Number");
    reveal_strlit("Begin");
    reveal_strlit("End");
}

/// A key that starts with `w` holds it.
proof fn lemma_leading_word(w: Seq<char>, d: Seq<char>)
    ensures
        has_infix(w + d, w),
{
    let i: int = 0;
    assert((w + d).subrange(i, i + w.len()) =~= w);
}

/// A `Number` line fills its slot with a new entry.
proof fn lemma_number_step(m: Map<nat, Plate>, n: usize, v: Seq<char>)
    requires
        clean(v),
    ensures
        apply_line(m, field_line("Number"@, n as nat, v)) == Some(
            m.insert(n as nat, Plate { number: v, begin_date: Seq::empty(), end_date: Seq::empty() }),
        ),
{
    reveal(apply_line);
    lemma_words();
    let number = "Number"@;
    let d = digits_of(n as nat);
    let key = number + d;
    lemma_field_line(number, n, v);
    lemma_leading_word(number, d);
    assert(key_value(field_line(number, n as nat, v)) == Some((key, v)));
    assert(number_line(m, key, v) == Some(
        m.insert(n as nat, Plate { number: v, begin_date: Seq::empty(), end_date: Seq::empty() }),
    ));
}

/// A `Begin` line gives a filled slot its first day.
proof fn lemma_begin_step(m: Map<nat, Plate>, n: usize, v: Seq<char>)
    requires
        clean(v),
        m.contains_key(n as nat),
    ensures
        apply_line(m, field_line("Begin"@, n as nat, v)) == Some(
            m.insert(n as nat, with_date(m[n as nat], true, v)),
        ),
{
    reveal(apply_line);
    lemma_words();
    let begin = "Begin"@;
    let d = digits_of(n as nat);
    lemma_field_line(begin, n, v);
    lemma_key_chars(begin, n as nat, 'N');
    lemma_no_infix(begin + d, "Number"@);
    lemma_leading_word(begin, d);
}

/// An `End` line gives a filled slot its last day.
proof fn lemma_end_step(m: Map<nat, Plate>, n: usize, v: Seq<char>)
    requires
        clean(v),
        m.contains_key(n as nat),
    ensures
        apply_line(m, field_line("End"@, n as nat, v)) == Some(
            m.insert(n as nat, with_date(m[n as nat], false, v)),
        ),
{
    reveal(apply_line);
    lemma_words();
    let end = "End"@;
    let d = digits_of(n as nat);
    lemma_field_line(end, n, v);
    lemma_key_chars(end, n as nat, 'N');
    lemma_no_infix(end + d, "Number"@);
    lemma_key_chars(end, n as nat, 'B');
    lemma_no_infix(end + d, "Begin"@);
    lemma_leading_word(end, d);
}

proof fn lemma_decode_push(lines: Seq<Seq<char>>, l: Seq<char>)
    ensures
        decode_lines(lines.push(l)) == match decode_lines(lines) {
            Some(m) => apply_line(m, l),
            None => None,
        },
{
    assert(lines.push(l).drop_last() =~= lines);
}

/// The table after the three lines of the entry `c` at slot `n`.
spec fn after_entry(m: Map<nat, Plate>, n: nat, c: Plate) -> Option<Map<nat, Plate>> {
    let l = entry_lines(n, c);
    match apply_line(m, l[0]) {
        Some(m1) => match apply_line(m1, l[1]) {
            Some(m2) => apply_line(m2, l[2]),
            None => None,
        },
        None => None,
    }
}

proof fn lemma_entry(m: Map<nat, Plate>, n: usize, c: Plate)
    requires
        clean_plate(c),
    ensures
        after_entry(m, n as nat, c) == Some(m.insert(n as nat, c)),
{
    let fresh = Plate { number: c.number, begin_date: Seq::empty(), end_date: Seq::empty() };
    let m1 = m.insert(n as nat, fresh);
    lemma_number_step(m, n, c.number);
    lemma_begin_step(m1, n, c.begin_date);
    let m2 = m1.insert(n as nat, with_date(m1[n as nat], true, c.begin_date));
    lemma_end_step(m2, n, c.end_date);
    let m3 = m2.insert(n as nat, with_date(m2[n as nat], false, c.end_date));
    assert(m3 =~= m.insert(n as nat, c));
}

proof fn lemma_decode_entry(a: Seq<Seq<char>>, n: nat, c: Plate)
    requires
        decode_lines(a) is Some,
    ensures
        decode_lines(a + entry_lines(n, c)) == after_entry(decode_lines(a)->Some_0, n, c),
{
    let l = entry_lines(n, c);
    assert(a + l =~= a.push(l[0]).push(l[1]).push(l[2]));
    lemma_decode_push(a, l[0]);
    lemma_decode_push(a.push(l[0]), l[1]);
    lemma_decode_push(a.push(l[0]).push(l[1]), l[2]);
}

proof fn lemma_decode_all(es: Seq<(usize, Plate)>)
    requires
        forall|i: int| 0 <= i < es.len() ==> clean_plate(#[trigger] es[i].1),
    ensures
        decode_lines(all_lines(es)) == Some(table_of(es)),
    decreases es.len(),
{
    if es.len() > 0 {
        let init = es.drop_last();
        assert forall|i: int| 0 <= i < init.len() implies clean_plate(#[trigger] init[i].1) by {
            assert(init[i] == es[i]);
        }
        lemma_decode_all(init);
        let (n, c) = es.last();
        assert(clean_plate(es[es.len() - 1].1));
        lemma_entry(table_of(init), n, c);
        lemma_decode_entry(all_lines(init), n as nat, c);
    }
}

proof fn lemma_table(es: Seq<(usize, Plate)>)
    requires
        forall|i: int, j: int| 0 <= i < j < es.len() ==> es[i].0 != es[j].0,
    ensures
        forall|i: int| 0 <= i < es.len() ==> table_of(es).contains_key(#[trigger] es[i].0 as nat)
            && table_of(es)[es[i].0 as nat] == es[i].1,
        forall|k: nat| #[trigger] table_of(es).contains_key(k) ==> exists|i: int|
            0 <= i < es.len() && es[i].0 == k,
    decreases es.len(),
{
    if es.len() > 0 {
        let init = es.drop_last();
        lemma_table(init);
        assert forall|i: int| 0 <= i < es.len() implies table_of(es).contains_key(
            #[trigger] es[i].0 as nat,
        ) && table_of(es)[es[i].0 as nat] == es[i].1 by {
            if i < es.len() - 1 {
                assert(init[i] == es[i]);
            }
        }
        assert forall|k: nat| #[trigger] table_of(es).contains_key(k) implies exists|i: int|
            0 <= i < es.len() && es[i].0 == k by {
            if k != es.last().0 as nat {
                assert(table_of(init).contains_key(k));
                let i = choose|i: int| 0 <= i < init.len() && init[i].0 == k;
                assert(es[i] == init[i]);
            }
        }
    }
}

proof fn lemma_field_unbroken(word: Seq<char>, n: nat, value: Seq<char>)
    requires
        forall|k: int| 0 <= k < word.len() ==> #[trigger] word[k] != '\n',
        clean(value),
    ensures
        forall|k: int| 0 <= k < field_line(word, n, value).len() ==> #[trigger] field_line(word, n, value)[k] != '\n',
{
    lemma_digits(n);
    let d = digits_of(n);
    let line = field_line(word, n, value);
    let p = word.len() + d.len();
    assert forall|k: int| 0 <= k < line.len() implies #[trigger] line[k] != '\n' by {
        if k < word.len() {
            assert(line[k] == word[k]);
        } else if k < p {
            assert(line[k] == d[k - word.len()]);
        } else if k > p {
            assert(line[k] == value[k - p - 1]);
        }
    }
}

proof fn lemma_lines_unbroken(es: Seq<(usize, Plate)>)
    requires
        forall|i: int| 0 <= i < es.len() ==> clean_plate(#[trigger] es[i].1),
    ensures
        forall|i: int, k: int|
            0 <= i < all_lines(es).len() && 0 <= k < all_lines(es)[i].len() ==> #[trigger] all_lines(
                es,
            )[i][k] != '\n',
    decreases es.len(),
{
    if es.len() > 0 {
        let init = es.drop_last();
        assert forall|i: int| 0 <= i < init.len() implies clean_plate(#[trigger] init[i].1) by {
            assert(init[i] == es[i]);
        }
        lemma_lines_unbroken(init);
        let (n, c) = es.last();
        assert(clean_plate(es[es.len() - 1].1));
        lemma_words();
        lemma_field_unbroken("Number"@, n as nat, c.number);
        lemma_field_unbroken("Begin"@, n as nat, c.begin_date);
        lemma_field_unbroken("End"@, n as nat, c.end_date);
        let a = all_lines(init);
        let l = entry_lines(n as nat, c);
        assert forall|i: int, k: int|
            0 <= i < all_lines(es).len() && 0 <= k < all_lines(es)[i].len() implies #[trigger] all_lines(
                es,
            )[i][k] != '\n' by {
            if i < a.len() {
                assert(all_lines(es)[i] == a[i]);
            } else {
                assert(all_lines(es)[i] == l[i - a.len()]);
            }
        }
    }
}

/// Round trip: a plate list written in the camera's form from entries with
/// distinct slots, in any order, decodes to exactly those entries.
pub proof fn round_trip(es: Seq<(usize, Plate)>)
    requires
        forall|i: int, j: int| 0 <= i < j < es.len() ==> es[i].0 != es[j].0,
        forall|i: int| 0 <= i < es.len() ==> clean_plate(#[trigger] es[i].1),
    ensures
        decoded(encoded(es)) is Some,
        forall|i: int| 0 <= i < es.len() ==> decoded(encoded(es))->Some_0.contains_key(
            #[trigger] es[i].0 as nat,
        ) && decoded(encoded(es))->Some_0[es[i].0 as nat] == es[i].1,
        forall|k: nat| #[trigger] decoded(encoded(es))->Some_0.contains_key(k) ==> exists|i: int|
            0 <= i < es.len() && es[i].0 == k,
{
    reveal(apply_line);
    lemma_table(es);
    if es.len() == 0 {
        assert(all_lines(es) =~= Seq::<Seq<char>>::empty());
        assert(encoded(es) =~= Seq::<char>::empty());
        assert(split_on(Seq::<char>::empty(), '\n') =~= seq![Seq::<char>::empty()]);
        assert(seq![Seq::<char>::empty()].drop_last() =~= Seq::<Seq<char>>::empty());
        assert(!exists|i: int| sole_eq_at(Seq::<char>::empty(), i));
        assert(key_value(Seq::<char>::empty()) is None);
        assert(decode_lines(Seq::<Seq<char>>::empty()) == Some(Map::<nat, Plate>::empty()));
        assert(decode_lines(seq![Seq::<char>::empty()]) == Some(Map::<nat, Plate>::empty()));
        assert(table_of(es) =~= Map::<nat, Plate>::empty());
    } else {
        lemma_decode_all(es);
        assert(all_lines(es).len() > 0) by {
            assert(all_lines(es) == all_lines(es.drop_last()) + entry_lines(
                es.last().0 as nat,
                es.last().1,
            ));
        }
        lemma_lines_unbroken(es);
        lemma_split_join(all_lines(es));
    }
}

/// The three kinds of field line that carry data.
pub enum Kind {
    Number,
    Begin,
    End,
}

/// One field line of a plate list, `<kind><slot>=<value>`.
pub struct Field {
    pub kind: Kind,
    pub slot: usize,
    pub value: Seq<char>,
}

/// The name that starts a key of kind `k`.
pub open spec fn word(k: Kind) -> Seq<char> {
    match k {
        Kind::Number => "Number"@,
        Kind::Begin => "Begin"@,
        Kind::End => "End"@,
    }
}

/// The text of a field line.
pub open spec fn field_text(f: Field) -> Seq<char> {
    field_line(word(f.kind), f.slot as nat, f.value)
}

/// The texts of the field lines, in order.
pub open spec fn field_texts(fs: Seq<Field>) -> Seq<Seq<char>> {
    fs.map_values(|f: Field| field_text(f))
}

/// The part of `p` that a line of kind `k` gives.
pub open spec fn part(p: Plate, k: Kind) -> Seq<char> {
    match k {
        Kind::Number => p.number,
        Kind::Begin => p.begin_date,
        Kind::End => p.end_date,
    }
}

/// Some line of `fs` is of kind `k` for slot `n`.
pub open spec fn has_field(fs: Seq<Field>, n: nat, k: Kind) -> bool {
    exists|i: int| 0 <= i < fs.len() && fs[i].slot as nat == n && #[trigger] fs[i].kind == k
}

/// The lines form a plate list as the camera writes it, in any order: each
/// value can stand as one, each slot has one line of each kind at most, and
/// a slot's `Begin` and `End` lines follow its `Number` line.
pub open spec fn well_formed(fs: Seq<Field>) -> bool {
    &&& forall|i: int| 0 <= i < fs.len() ==> clean(#[trigger] fs[i].value)
    &&& forall|i: int, j: int|
        0 <= i < j < fs.len() && #[trigger] fs[i].slot == #[trigger] fs[j].slot ==> fs[i].kind
            != fs[j].kind
    &&& forall|j: int|
        0 <= j < fs.len() && #[trigger] fs[j].kind != Kind::Number ==> exists|i: int|
            0 <= i < j && fs[i].slot == fs[j].slot && fs[i].kind == Kind::Number
}

/// `m` is the table that the lines describe: one entry for each slot with a
/// `Number` line, each part as its line gives it, empty where it has none.
pub open spec fn describes(m: Map<nat, Plate>, fs: Seq<Field>) -> bool {
    &&& forall|n: nat| #[trigger] m.contains_key(n) <==> has_field(fs, n, Kind::Number)
    &&& forall|i: int|
        0 <= i < fs.len() ==> part(m[fs[i].slot as nat], fs[i].kind) == #[trigger] fs[i].value
    &&& forall|n: nat|
        m.contains_key(n) && !has_field(fs, n, Kind::Begin) ==> (#[trigger] m[n]).begin_date.len()
            == 0
    &&& forall|n: nat|
        m.contains_key(n) && !has_field(fs, n, Kind::End) ==> (#[trigger] m[n]).end_date.len() == 0
}

/// A line of `fs` is a line of its front, or its last line.
proof fn lemma_has_field_last(fs: Seq<Field>)
    requires
        fs.len() > 0,
    ensures
        forall|k: nat, kind: Kind| #[trigger] has_field(fs, k, kind) <==> (has_field(fs.drop_last(), k, kind)
            || (k == fs.last().slot as nat && fs.last().kind == kind)),
{
    let init = fs.drop_last();
    let j = fs.len() - 1;
    assert forall|k: nat, kind: Kind| #[trigger] has_field(fs, k, kind) <==> (has_field(init, k, kind)
        || (k == fs.last().slot as nat && fs.last().kind == kind)) by {
        if has_field(fs, k, kind) {
            let i = choose|i: int| 0 <= i < fs.len() && fs[i].slot as nat == k && #[trigger] fs[i].kind == kind;
            if i < j {
                assert(init[i] == fs[i]);
            }
        }
        if has_field(init, k, kind) {
            let i = choose|i: int| 0 <= i < init.len() && init[i].slot as nat == k && #[trigger] init[i].kind == kind;
            assert(fs[i] == init[i]);
        }
        if k == fs.last().slot as nat && fs.last().kind == kind {
            assert(fs[j].kind == kind);
        }
    }
}

/// The front of well-formed lines is well formed.
proof fn lemma_well_formed_front(fs: Seq<Field>)
    requires
        fs.len() > 0,
        well_formed(fs),
    ensures
        well_formed(fs.drop_last()),
{
    let init = fs.drop_last();
    assert forall|i: int| 0 <= i < init.len() implies #[trigger] init[i] == fs[i] by {}
    assert forall|b: int|
        0 <= b < init.len() && #[trigger] init[b].kind != Kind::Number implies exists|i: int|
        0 <= i < b && init[i].slot == init[b].slot && init[i].kind == Kind::Number by {
        assert(fs[b].kind != Kind::Number);
        let i = choose|i: int| 0 <= i < b && fs[i].slot == fs[b].slot && fs[i].kind == Kind::Number;
        assert(init[i] == fs[i]);
    }
}

/// The last line, a `Number` line, adds a fresh entry.
proof fn lemma_extend_number(m: Map<nat, Plate>, fs: Seq<Field>)
    requires
        fs.len() > 0,
        well_formed(fs),
        describes(m, fs.drop_last()),
        fs.last().kind == Kind::Number,
    ensures
        apply_line(m, field_text(fs.last())) is Some,
        describes(apply_line(m, field_text(fs.last()))->Some_0, fs),
{
    let init = fs.drop_last();
    let j = fs.len() - 1;
    let f = fs[j];
    let n = f.slot as nat;
    assert(clean(fs[j].value));
    lemma_has_field_last(fs);
    lemma_number_step(m, f.slot, f.value);
    let m2 = m.insert(n, Plate { number: f.value, begin_date: Seq::empty(), end_date: Seq::empty() });
    assert forall|i: int| 0 <= i < init.len() implies #[trigger] init[i].slot != f.slot by {
        assert(init[i] == fs[i]);
        if fs[i].slot == f.slot {
            if fs[i].kind != Kind::Number {
                let h = choose|h: int| 0 <= h < i && fs[h].slot == fs[i].slot && fs[h].kind == Kind::Number;
                assert(fs[h].slot == fs[j].slot);
            }
        }
    }
    assert(!has_field(init, n, Kind::Begin));
    assert(!has_field(init, n, Kind::End));
    assert forall|i: int| 0 <= i < fs.len() implies part(m2[fs[i].slot as nat], fs[i].kind)
        == #[trigger] fs[i].value by {
        if i < j {
            assert(init[i] == fs[i]);
            assert(init[i].slot != f.slot);
        }
    }
}

/// The last line, a `Begin` or `End` line, sets its part of an entry.
proof fn lemma_extend_date(m: Map<nat, Plate>, fs: Seq<Field>)
    requires
        fs.len() > 0,
        well_formed(fs),
        describes(m, fs.drop_last()),
        fs.last().kind != Kind::Number,
    ensures
        apply_line(m, field_text(fs.last())) is Some,
        describes(apply_line(m, field_text(fs.last()))->Some_0, fs),
{
    let init = fs.drop_last();
    let j = fs.len() - 1;
    let f = fs[j];
    let n = f.slot as nat;
    let begin = f.kind == Kind::Begin;
    assert(clean(fs[j].value));
    assert(fs[j].kind != Kind::Number);
    lemma_has_field_last(fs);
    let h = choose|h: int| 0 <= h < j && fs[h].slot == fs[j].slot && fs[h].kind == Kind::Number;
    assert(init[h] == fs[h]);
    assert(has_field(init, n, Kind::Number));
    if begin {
        lemma_begin_step(m, f.slot, f.value);
    } else {
        lemma_end_step(m, f.slot, f.value);
    }
    let m2 = m.insert(n, with_date(m[n], begin, f.value));
    assert(!has_field(init, n, f.kind)) by {
        if has_field(init, n, f.kind) {
            let i = choose|i: int| 0 <= i < init.len() && init[i].slot as nat == n && #[trigger] init[i].kind == f.kind;
            assert(fs[i] == init[i]);
            assert(fs[i].slot == fs[j].slot);
        }
    }
    assert forall|i: int| 0 <= i < fs.len() implies part(m2[fs[i].slot as nat], fs[i].kind)
        == #[trigger] fs[i].value by {
        if i < j {
            assert(init[i] == fs[i]);
            if init[i].slot == f.slot {
                assert(fs[i].kind != fs[j].kind);
            }
        }
    }
}

proof fn lemma_decode_fields(fs: Seq<Field>)
    requires
        well_formed(fs),
    ensures
        decode_lines(field_texts(fs)) is Some,
        describes(decode_lines(field_texts(fs))->Some_0, fs),
    decreases fs.len(),
{
    if fs.len() == 0 {
        assert(field_texts(fs) =~= Seq::<Seq<char>>::empty());
    } else {
        let init = fs.drop_last();
        lemma_well_formed_front(fs);
        lemma_decode_fields(init);
        let m = decode_lines(field_texts(init))->Some_0;
        assert(field_texts(fs) =~= field_texts(init).push(field_text(fs.last())));
        lemma_decode_push(field_texts(init), field_text(fs.last()));
        if fs.last().kind == Kind::Number {
            lemma_extend_number(m, fs);
        } else {
            lemma_extend_date(m, fs);
        }
    }
}

/// A plate list written from well-formed field lines, joined by line breaks.
pub open spec fn listing(fs: Seq<Field>) -> Seq<char> {
    join_lines(field_texts(fs))
}

proof fn lemma_split_listing(fs: Seq<Field>)
    requires
        fs.len() > 0,
        forall|i: int| 0 <= i < fs.len() ==> clean(#[trigger] fs[i].value),
    ensures
        split_on(listing(fs), '\n') == field_texts(fs),
{
    let ts = field_texts(fs);
    lemma_words();
    assert forall|i: int, k: int| 0 <= i < ts.len() && 0 <= k < ts[i].len() implies #[trigger] ts[i][k]
        != '\n' by {
        let f = fs[i];
        assert(clean(fs[i].value));
        lemma_field_unbroken(word(f.kind), f.slot as nat, f.value);
    }
    lemma_split_join(ts);
}

/// Lines in any order that keeps each slot's `Number` line before its
/// `Begin` and `End` lines (gaps and descending slots included) decode to
/// the table they describe: one entry per `Number` line, each part as its
/// line gives it, empty where the slot has no such line.
pub proof fn any_order_decodes(fs: Seq<Field>)
    requires
        well_formed(fs),
    ensures
        decoded(listing(fs)) is Some,
        describes(decoded(listing(fs))->Some_0, fs),
{
    reveal(apply_line);
    lemma_decode_fields(fs);
    if fs.len() == 0 {
        assert(field_texts(fs) =~= Seq::<Seq<char>>::empty());
        assert(listing(fs) =~= Seq::<char>::empty());
        assert(split_on(Seq::<char>::empty(), '\n') =~= seq![Seq::<char>::empty()]);
        assert(seq![Seq::<char>::empty()].drop_last() =~= Seq::<Seq<char>>::empty());
        assert(!exists|i: int| sole_eq_at(Seq::<char>::empty(), i));
        assert(key_value(Seq::<char>::empty()) is None);
        assert(decode_lines(Seq::<Seq<char>>::empty()) == Some(Map::<nat, Plate>::empty()));
        assert(decode_lines(seq![Seq::<char>::empty()]) == Some(Map::<nat, Plate>::empty()));
    } else {
        lemma_split_listing(fs);
    }
}

/// A line of kind `k` for slot `n` in `fs1` is also in `fs2`.
proof fn lemma_field_moves(fs1: Seq<Field>, fs2: Seq<Field>, n: nat, k: Kind) -> (ij: (int, int))
    requires
        forall|f: Field| fs1.contains(f) ==> fs2.contains(f),
        has_field(fs1, n, k),
    ensures
        0 <= ij.0 < fs1.len() && 0 <= ij.1 < fs2.len(),
        fs1[ij.0] == fs2[ij.1] && fs1[ij.0].slot as nat == n && fs1[ij.0].kind == k,
        has_field(fs2, n, k),
{
    let i1 = choose|i: int| 0 <= i < fs1.len() && fs1[i].slot as nat == n && #[trigger] fs1[i].kind == k;
    assert(fs1.contains(fs1[i1]));
    let i2 = choose|i: int| 0 <= i < fs2.len() && fs2[i] == fs1[i1];
    assert(fs2[i2].kind == k);
    (i1, i2)
}

/// The tables agree on the part that a line of kind `k` gives slot `n`.
proof fn lemma_same_part(m1: Map<nat, Plate>, m2: Map<nat, Plate>, fs1: Seq<Field>, fs2: Seq<Field>, n: nat, k: Kind)
    requires
        forall|f: Field| fs1.contains(f) ==> fs2.contains(f),
        describes(m1, fs1),
        describes(m2, fs2),
        has_field(fs1, n, k),
    ensures
        part(m1[n], k) == part(m2[n], k),
{
    let (a, b) = lemma_field_moves(fs1, fs2, n, k);
    assert(part(m1[fs1[a].slot as nat], fs1[a].kind) == fs1[a].value);
    assert(part(m2[fs2[b].slot as nat], fs2[b].kind) == fs2[b].value);
}

/// Two tables that two arrangements of the same lines describe are equal.
proof fn lemma_describes_unique(m1: Map<nat, Plate>, m2: Map<nat, Plate>, fs1: Seq<Field>, fs2: Seq<Field>)
    requires
        forall|f: Field| fs1.contains(f) <==> fs2.contains(f),
        describes(m1, fs1),
        describes(m2, fs2),
    ensures
        m1 == m2,
{
    assert forall|n: nat| m1.contains_key(n) implies #[trigger] m2.contains_key(n) && m1[n] == m2[n] by {
        lemma_field_moves(fs1, fs2, n, Kind::Number);
        lemma_same_part(m1, m2, fs1, fs2, n, Kind::Number);
        if has_field(fs1, n, Kind::Begin) {
            lemma_same_part(m1, m2, fs1, fs2, n, Kind::Begin);
        } else if has_field(fs2, n, Kind::Begin) {
            lemma_field_moves(fs2, fs1, n, Kind::Begin);
        }
        if has_field(fs1, n, Kind::End) {
            lemma_same_part(m1, m2, fs1, fs2, n, Kind::End);
        } else if has_field(fs2, n, Kind::End) {
            lemma_field_moves(fs2, fs1, n, Kind::End);
        }
        assert(m1[n].begin_date == m2[n].begin_date);
        assert(m1[n].end_date == m2[n].end_date);
    }
    assert forall|n: nat| m2.contains_key(n) implies #[trigger] m1.contains_key(n) by {
        lemma_field_moves(fs2, fs1, n, Kind::Number);
    }
    assert(m1 =~= m2);
}

/// Two arrangements of the same well-formed lines decode alike: the table
/// does not depend on the order of the lines.
pub proof fn order_does_not_matter(fs1: Seq<Field>, fs2: Seq<Field>)
    requires
        well_formed(fs1),
        well_formed(fs2),
        forall|f: Field| fs1.contains(f) <==> fs2.contains(f),
    ensures
        decoded(listing(fs1)) == decoded(listing(fs2)),
{
    any_order_decodes(fs1);
    any_order_decodes(fs2);
    lemma_describes_unique(decoded(listing(fs1))->Some_0, decoded(listing(fs2))->Some_0, fs1, fs2);
}

} // verus!
