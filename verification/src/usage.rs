//! Memory usage from the text of `/proc/self/status`.

use vstd::prelude::*;

verus! {

/// Whether a character is white space.
pub open spec fn is_blank(c: char) -> bool {
    ||| 0x09 <= c as u32 <= 0x0d
    ||| c as u32 == 0x20
    ||| c as u32 == 0x85
    ||| c as u32 == 0xa0
    ||| c as u32 == 0x1680
    ||| 0x2000 <= c as u32 <= 0x200a
    ||| c as u32 == 0x2028
    ||| c as u32 == 0x2029
    ||| c as u32 == 0x202f
    ||| c as u32 == 0x205f
    ||| c as u32 == 0x3000
}

/// The length of the first line.
pub open spec fn line_len(t: Seq<char>) -> nat
    decreases t.len(),
{
    if t.len() == 0 || t[0] == '\n' {
        0
    } else {
        1 + line_len(t.skip(1))
    }
}

/// The number of blanks at the start.
pub open spec fn blanks(t: Seq<char>) -> nat
    decreases t.len(),
{
    if t.len() == 0 || !is_blank(t[0]) {
        0
    } else {
        1 + blanks(t.skip(1))
    }
}

/// The length of the word at the start.
pub open spec fn word_len(t: Seq<char>) -> nat
    decreases t.len(),
{
    if t.len() == 0 || is_blank(t[0]) {
        0
    } else {
        1 + word_len(t.skip(1))
    }
}

/// The first word of a text, and what is behind it.
pub open spec fn first_word(t: Seq<char>) -> (Seq<char>, Seq<char>) {
    let s = t.skip(blanks(t) as int);
    (s.take(word_len(s) as int), s.skip(word_len(s) as int))
}

/// The first line that starts with `VmRSS:`.
pub open spec fn resident_line(t: Seq<char>) -> Option<Seq<char>>
    decreases t.len(),
{
    let n = line_len(t);
    let line = t.take(n as int);
    if t.len() == 0 {
        None
    } else if line.len() >= 6 && line.take(6) == "VmRSS:"@ {
        Some(line)
    } else if n >= t.len() {
        None
    } else {
        resident_line(t.skip((n + 1) as int))
    }
}

/// Whether a text is digits only.
pub open spec fn all_decimal(d: Seq<char>) -> bool {
    forall|i: int| 0 <= i < d.len() ==> '0' <= #[trigger] d[i] <= '9'
}

/// The number that decimal digits stand for.
pub open spec fn number(d: Seq<char>) -> nat
    decreases d.len(),
{
    if d.len() == 0 {
        0
    } else {
        number(d.drop_last()) * 10 + (d.last() as u32 - 48) as nat
    }
}

/// The 64-bit number that a word stands for: digits, with or without a plus
/// sign.
pub open spec fn parsed(w: Seq<char>) -> Option<u64> {
    let d = if w.len() > 0 && w[0] == '+' {
        w.skip(1)
    } else {
        w
    };
    if d.len() == 0 || !all_decimal(d) || number(d) > u64::MAX {
        None
    } else {
        Some(number(d) as u64)
    }
}

/// The resident set size (kB) in the text of a status file: the second word of
/// its line.
pub open spec fn resident(t: Seq<char>) -> Option<u64> {
    match resident_line(t) {
        Some(line) => parsed(first_word(first_word(line).1).0),
        None => None,
    }
}

fn blank(c: char) -> (r: bool)
    ensures
        r == is_blank(c),
{
    let u: u32 = c as u32;
    (0x09 <= u && u <= 0x0d) || u == 0x20 || u == 0x85 || u == 0xa0 || u == 0x1680 || (0x2000 <= u && u <= 0x200a)
        || u == 0x2028 || u == 0x2029 || u == 0x202f || u == 0x205f || u == 0x3000
}

fn characters(s: &str) -> (r: Vec<char>)
    ensures
        r@ == s@,
{
    let n: usize = s.unicode_len();
    let mut r: Vec<char> = Vec::new();
    let mut i: usize = 0;
    while i < n
        invariant
            i <= n,
            n == s@.len(),
            r@ == s@.take(i as int),
        decreases n - i,
    {
        r.push(s.get_char(i));
        i = i + 1;
        assert(r@ =~= s@.take(i as int));
    }
    assert(r@ =~= s@);
    r
}

/// Where the line that starts at a position ends.
fn line_end(t: &Vec<char>, from: usize) -> (to: usize)
    requires
        from <= t@.len(),
    ensures
        from <= to <= t@.len(),
        to - from == line_len(t@.skip(from as int)),
{
    let mut to: usize = from;
    while to < t.len() && t[to] != '\n'
        invariant
            from <= to <= t@.len(),
            line_len(t@.skip(from as int)) == (to - from) + line_len(t@.skip(to as int)),
        decreases t.len() - to,
    {
        assert(t@.skip(to as int).skip(1) =~= t@.skip(to + 1));
        to = to + 1;
    }
    to
}

/// Where the first word from a position on starts and ends, within a line.
fn word_at(t: &Vec<char>, from: usize, end: usize) -> (r: (usize, usize))
    requires
        from <= end <= t@.len(),
    ensures
        from <= r.0 <= r.1 <= end,
        first_word(t@.subrange(from as int, end as int)) == (
            t@.subrange(r.0 as int, r.1 as int),
            t@.subrange(r.1 as int, end as int),
        ),
{
    let ghost line = t@.subrange(from as int, end as int);
    let mut start: usize = from;
    assert(line.skip(0) =~= line);
    while start < end && blank(t[start])
        invariant
            from <= start <= end <= t@.len(),
            line == t@.subrange(from as int, end as int),
            blanks(line) == (start - from) + blanks(line.skip(start - from)),
        decreases end - start,
    {
        assert(line.skip(start - from).skip(1) =~= line.skip(start + 1 - from));
        start = start + 1;
    }
    let ghost rest = line.skip(start - from);
    assert(blanks(line) == start - from);
    let mut stop: usize = start;
    assert(rest.skip(0) =~= rest);
    while stop < end && !blank(t[stop])
        invariant
            from <= start <= stop <= end <= t@.len(),
            rest == t@.subrange(from as int, end as int).skip(start - from),
            word_len(rest) == (stop - start) + word_len(rest.skip(stop - start)),
        decreases end - stop,
    {
        assert(rest.skip(stop - start).skip(1) =~= rest.skip(stop + 1 - start));
        stop = stop + 1;
    }
    assert(word_len(rest) == stop - start);
    assert(rest.take(stop - start) =~= t@.subrange(start as int, stop as int));
    assert(rest.skip(stop - start) =~= t@.subrange(stop as int, end as int));
    (start, stop)
}

fn parse_word(t: &Vec<char>, from: usize, to: usize) -> (r: Option<u64>)
    requires
        from <= to <= t@.len(),
    ensures
        r == parsed(t@.subrange(from as int, to as int)),
{
    let ghost w = t@.subrange(from as int, to as int);
    let start: usize = if from < to && t[from] == '+' {
        from + 1
    } else {
        from
    };
    let ghost d = t@.subrange(start as int, to as int);
    proof {
        if start > from {
            assert(w.skip(1) =~= d);
        }
    }
    if start == to {
        return None;
    }
    let mut value: u64 = 0;
    let mut i: usize = start;
    assert(d.take(0) =~= Seq::<char>::empty());
    while i < to
        invariant
            start <= i <= to <= t@.len(),
            d == t@.subrange(start as int, to as int),
            w == t@.subrange(from as int, to as int),
            d == if w.len() > 0 && w[0] == '+' {
                w.skip(1)
            } else {
                w
            },
            value == number(d.take(i - start)),
            forall|j: int| 0 <= j < i - start ==> '0' <= #[trigger] d[j] <= '9',
        decreases to - i,
    {
        let c: char = t[i];
        assert(d[i - start] == c);
        if !('0' <= c && c <= '9') {
            return None;
        }
        let x: u64 = c as u64 - 48;
        proof {
            assert(d.take(i + 1 - start).drop_last() =~= d.take(i - start));
            assert(number(d.take(i + 1 - start)) == value * 10 + x);
            lemma_number_grows(d, i + 1 - start);
        }
        if value > (u64::MAX - x) / 10 {
            return None;
        }
        value = value * 10 + x;
        i = i + 1;
    }
    assert(d.take(to - start) =~= d);
    Some(value)
}

/// More digits do not make a number less.
proof fn lemma_number_grows(d: Seq<char>, n: int)
    requires
        0 <= n <= d.len(),
    ensures
        number(d) >= number(d.take(n)),
    decreases d.len(),
{
    if n < d.len() {
        lemma_number_grows(d.drop_last(), n);
        assert(d.drop_last().take(n) =~= d.take(n));
    } else {
        assert(d.take(n) =~= d);
    }
}

/// The resident set size (kB) in the text of a status file.
pub fn resident_kb(status: &str) -> (r: Option<u64>)
    ensures
        r == resident(status@),
{
    let t: Vec<char> = characters(status);
    let mut from: usize = 0;
    proof {
        reveal_strlit("VmRSS:");
        assert(t@.skip(0) =~= status@);
    }
    while from < t.len()
        invariant
            from <= t@.len(),
            t@ == status@,
            resident_line(status@) == resident_line(t@.skip(from as int)),
            "VmRSS:"@ =~= seq!['V', 'm', 'R', 'S', 'S', ':'],
        decreases t.len() - from,
    {
        let end: usize = line_end(&t, from);
        let ghost rest = t@.skip(from as int);
        let ghost line = t@.subrange(from as int, end as int);
        assert(rest.take(end - from) =~= line);
        let found: bool = end - from >= 6 && t[from] == 'V' && t[from + 1] == 'm' && t[from + 2] == 'R' && t[from + 3]
            == 'S' && t[from + 4] == 'S' && t[from + 5] == ':';
        proof {
            if end - from >= 6 {
                if found {
                    assert(line.take(6) =~= "VmRSS:"@);
                } else {
                    assert(line.take(6)[0] == t@[from as int]);
                    assert(line.take(6)[1] == t@[from + 1]);
                    assert(line.take(6)[2] == t@[from + 2]);
                    assert(line.take(6)[3] == t@[from + 3]);
                    assert(line.take(6)[4] == t@[from + 4]);
                    assert(line.take(6)[5] == t@[from + 5]);
                }
            }
        }
        if found {
            let (_, behind): (usize, usize) = word_at(&t, from, end);
            let (start, stop): (usize, usize) = word_at(&t, behind, end);
            return parse_word(&t, start, stop);
        }
        if end >= t.len() {
            return None;
        }
        assert(rest.skip(end - from + 1) =~= t@.skip(end + 1));
        from = end + 1;
    }
    None
}

/// A resident set size in bytes; nothing counts as zero.
pub fn resident_bytes(kb: Option<u64>) -> (r: u64)
    requires
        kb matches Some(n) ==> n * 1024 <= u64::MAX,
    ensures
        r == match kb {
            Some(n) => n * 1024,
            None => 0,
        },
{
    match kb {
        Some(n) => n * 1024,
        None => 0,
    }
}

// ---------------------------------------------------------------------------
// Laws
// ---------------------------------------------------------------------------

/// A number in decimal digits, with or without a plus sign, is parsed as that
/// number; anything that is not all digits is not parsed.
pub proof fn law_numbers_are_parsed(n: u64, w: Seq<char>)
    ensures
        parsed(crate::text::decimal(n as nat)) == Some(n),
        parsed(seq!['+'] + crate::text::decimal(n as nat)) == Some(n),
        w.len() > 0 && w[0] != '+' && parsed(w) is Some ==> crate::text::is_decimal(w),
        w.len() == 0 ==> parsed(w) is None,
{
    let d = crate::text::decimal(n as nat);
    crate::text::law_decimal_reads_back(n as nat);
    lemma_same_number(d);
    assert((seq!['+'] + d).skip(1) =~= d);
    assert('0' <= d[0] <= '9');
}

proof fn lemma_same_number(d: Seq<char>)
    requires
        all_decimal(d),
    ensures
        number(d) == crate::text::value_of(d),
    decreases d.len(),
{
    if d.len() > 0 {
        let shorter = d.drop_last();
        assert forall|i: int| 0 <= i < shorter.len() implies '0' <= #[trigger] shorter[i] <= '9' by {
            assert(shorter[i] == d[i]);
        }
        lemma_same_number(shorter);
        assert('0' <= d[d.len() - 1] <= '9');
    }
}

/// The line that tells is the first that begins with the label: a line that
/// does not is passed over.
pub proof fn law_first_labelled_line_tells(line: Seq<char>, rest: Seq<char>)
    requires
        forall|i: int| 0 <= i < line.len() ==> #[trigger] line[i] != '\n',
    ensures
        ({
            let text = line + seq!['\n'] + rest;
            let labelled = line.len() >= 6 && line.take(6) == "VmRSS:"@;
            &&& labelled ==> resident_line(text) == Some(line)
            &&& !labelled ==> resident_line(text) == resident_line(rest)
        }),
{
    let text = line + seq!['\n'] + rest;
    lemma_line_len(line, rest);
    assert(text.take(line.len() as int) =~= line);
    assert(text.skip((line.len() + 1) as int) =~= rest);
    if rest.len() == 0 {
        assert(resident_line(rest) is None);
    }
}

proof fn lemma_line_len(line: Seq<char>, rest: Seq<char>)
    requires
        forall|i: int| 0 <= i < line.len() ==> #[trigger] line[i] != '\n',
    ensures
        line_len(line + seq!['\n'] + rest) == line.len(),
    decreases line.len(),
{
    let text = line + seq!['\n'] + rest;
    if line.len() > 0 {
        let shorter = line.skip(1);
        assert forall|i: int| 0 <= i < shorter.len() implies #[trigger] shorter[i] != '\n' by {
            assert(shorter[i] == line[i + 1]);
        }
        lemma_line_len(shorter, rest);
        assert(text.skip(1) =~= shorter + seq!['\n'] + rest);
        assert(text[0] == line[0]);
    } else {
        assert(text[0] == '\n');
    }
}

/// A word ends at the first blank behind it, and what is behind stays.
pub proof fn law_first_word(before: Seq<char>, word: Seq<char>, rest: Seq<char>)
    requires
        forall|i: int| 0 <= i < before.len() ==> is_blank(#[trigger] before[i]),
        forall|i: int| 0 <= i < word.len() ==> !is_blank(#[trigger] word[i]),
        word.len() > 0,
        rest.len() == 0 || is_blank(rest[0]),
    ensures
        first_word(before + word + rest) == (word, rest),
{
    let t = before + word + rest;
    lemma_blanks(before, word + rest);
    assert(t =~= before + (word + rest));
    assert(t.skip(before.len() as int) =~= word + rest);
    lemma_word_len(word, rest);
    assert((word + rest).take(word.len() as int) =~= word);
    assert((word + rest).skip(word.len() as int) =~= rest);
}

proof fn lemma_blanks(before: Seq<char>, rest: Seq<char>)
    requires
        forall|i: int| 0 <= i < before.len() ==> is_blank(#[trigger] before[i]),
        rest.len() > 0,
        !is_blank(rest[0]),
    ensures
        blanks(before + rest) == before.len(),
    decreases before.len(),
{
    let t = before + rest;
    if before.len() > 0 {
        let shorter = before.skip(1);
        assert forall|i: int| 0 <= i < shorter.len() implies is_blank(#[trigger] shorter[i]) by {
            assert(shorter[i] == before[i + 1]);
        }
        lemma_blanks(shorter, rest);
        assert(t.skip(1) =~= shorter + rest);
        assert(t[0] == before[0]);
    } else {
        assert(t[0] == rest[0]);
    }
}

proof fn lemma_word_len(word: Seq<char>, rest: Seq<char>)
    requires
        forall|i: int| 0 <= i < word.len() ==> !is_blank(#[trigger] word[i]),
        rest.len() == 0 || is_blank(rest[0]),
    ensures
        word_len(word + rest) == word.len(),
    decreases word.len(),
{
    let t = word + rest;
    if word.len() > 0 {
        let shorter = word.skip(1);
        assert forall|i: int| 0 <= i < shorter.len() implies !is_blank(#[trigger] shorter[i]) by {
            assert(shorter[i] == word[i + 1]);
        }
        lemma_word_len(shorter, rest);
        assert(t.skip(1) =~= shorter + rest);
        assert(t[0] == word[0]);
    } else if rest.len() > 0 {
        assert(t[0] == rest[0]);
    }
}

/// The number behind the label is what is read, whatever comes before and
/// behind.
pub proof fn law_resident_reads_the_number(n: u64, unit: Seq<char>, rest: Seq<char>)
    requires
        unit.len() > 0,
        is_blank(unit[0]),
        forall|i: int| 0 <= i < unit.len() ==> #[trigger] unit[i] != '\n',
    ensures
        resident("VmRSS:"@ + seq!['\t'] + crate::text::decimal(n as nat) + unit + seq!['\n'] + rest) == Some(n),
{
    reveal_strlit("VmRSS:");
    let label = "VmRSS:"@;
    let d = crate::text::decimal(n as nat);
    crate::text::law_decimal_reads_back(n as nat);
    let tail = seq!['\t'] + d + unit;
    let line = label + tail;
    let text = label + seq!['\t'] + d + unit + seq!['\n'] + rest;
    assert(text =~= line + seq!['\n'] + rest);
    assert forall|i: int| 0 <= i < line.len() implies #[trigger] line[i] != '\n' by {
        if i >= 7 && i < 7 + d.len() {
            assert(line[i] == d[i - 7]);
        } else if i >= 7 + d.len() {
            assert(line[i] == unit[i - 7 - d.len()]);
        }
    }
    assert(line.take(6) =~= label);
    law_first_labelled_line_tells(line, rest);
    assert(Seq::<char>::empty() + label + tail =~= line);
    law_first_word(Seq::empty(), label, tail);
    assert forall|i: int| 0 <= i < d.len() implies !is_blank(#[trigger] d[i]) by {
        assert('0' <= d[i] <= '9');
    }
    law_first_word(seq!['\t'], d, unit);
    law_numbers_are_parsed(n, d);
}

} // verus!
