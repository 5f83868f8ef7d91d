//! CSV formatting of a frequency table: a `word,count` header, then one
//! row per entry, with standard CSV field quoting (a field holding a
//! comma, quote, or line break is wrapped in double quotes, and quotes in
//! it are doubled). A spec-level reader of the same format allows stating
//! that parsing an exported table gives the table back.

use vstd::prelude::*;
use crate::table::WordFrequencyTable;
use crate::unicode::chars_to_string;

verus! {

/// Whether a field must be quoted to survive a CSV round trip.
pub open spec fn needs_quoting(w: Seq<char>) -> bool {
    w.contains(',') || w.contains('"') || w.contains('\n') || w.contains('\r')
}

/// A field's characters with every double quote doubled.
pub open spec fn escape_quotes(w: Seq<char>) -> Seq<char>
    decreases w.len(),
{
    if w.len() == 0 {
        w
    } else {
        escape_quotes(w.drop_last()) + (if w.last() == '"' {
            seq!['"', '"']
        } else {
            seq![w.last()]
        })
    }
}

/// A word as it appears in its CSV row.
pub open spec fn csv_field(w: Seq<char>) -> Seq<char> {
    if needs_quoting(w) {
        seq!['"'] + escape_quotes(w) + seq!['"']
    } else {
        w
    }
}

/// The decimal digit character for `d` (0 through 9).
pub open spec fn digit_char(d: nat) -> char {
    if d == 0 {
        '0'
    } else if d == 1 {
        '1'
    } else if d == 2 {
        '2'
    } else if d == 3 {
        '3'
    } else if d == 4 {
        '4'
    } else if d == 5 {
        '5'
    } else if d == 6 {
        '6'
    } else if d == 7 {
        '7'
    } else if d == 8 {
        '8'
    } else {
        '9'
    }
}

/// The decimal digits of `n`, most significant first.
pub open spec fn dec_digits(n: nat) -> Seq<char>
    decreases n,
{
    if n < 10 {
        seq![digit_char(n)]
    } else {
        dec_digits(n / 10).push(digit_char(n % 10))
    }
}

/// One CSV row: field, comma, decimal count, newline.
pub open spec fn csv_row(w: Seq<char>, c: nat) -> Seq<char> {
    csv_field(w) + seq![','] + dec_digits(c) + seq!['\n']
}

/// All rows of a table, in entry order.
pub open spec fn csv_body(entries: Seq<(String, usize)>) -> Seq<char>
    decreases entries.len(),
{
    if entries.len() == 0 {
        Seq::empty()
    } else {
        csv_body(entries.drop_last()) + csv_row(entries.last().0@, entries.last().1 as nat)
    }
}

/// The header row.
pub open spec fn csv_header() -> Seq<char> {
    "word,count\n"@
}

/// The full CSV text for a table's entries.
pub open spec fn csv_of(entries: Seq<(String, usize)>) -> Seq<char> {
    csv_header() + csv_body(entries)
}

/// The decimal digit character for `d`, executably.
fn digit_char_exec(d: usize) -> (c: char)
    requires
        d < 10,
    ensures
        c == digit_char(d as nat),
{
    if d == 0 {
        '0'
    } else if d == 1 {
        '1'
    } else if d == 2 {
        '2'
    } else if d == 3 {
        '3'
    } else if d == 4 {
        '4'
    } else if d == 5 {
        '5'
    } else if d == 6 {
        '6'
    } else if d == 7 {
        '7'
    } else if d == 8 {
        '8'
    } else {
        '9'
    }
}

/// Append the decimal digits of `n`.
fn push_digits(out: &mut Vec<char>, n: usize)
    ensures
        final(out)@ == old(out)@ + dec_digits(n as nat),
    decreases n,
{
    if n >= 10 {
        let q = n / 10;
        proof {
            assert(q < n);
        }
        push_digits(out, q);
    }
    let d = digit_char_exec(n % 10);
    out.push(d);
    proof {
        if n >= 10 {
            assert(final(out)@ =~= old(out)@ + dec_digits(n as nat));
        } else {
            assert(dec_digits(n as nat) =~= seq![digit_char(n as nat)]);
            assert(final(out)@ =~= old(out)@ + dec_digits(n as nat));
        }
    }
}

/// Append the CSV form of one field.
fn push_field(out: &mut Vec<char>, w: &str)
    ensures
        final(out)@ == old(out)@ + csv_field(w@),
{
    let m = w.unicode_len();
    let mut special = false;
    let mut k: usize = 0;
    while k < m
        invariant
            m == w@.len(),
            k <= m,
            special == exists|q: int|
                0 <= q < k && ((#[trigger] w@[q]) == ',' || w@[q] == '"' || w@[q] == '\n'
                    || w@[q] == '\r'),
        decreases m - k,
    {
        let c = w.get_char(k);
        if c == ',' || c == '"' || c == '\n' || c == '\r' {
            special = true;
        }
        k += 1;
    }
    proof {
        assert(special == needs_quoting(w@));
    }
    if !special {
        let mut k2: usize = 0;
        while k2 < m
            invariant
                m == w@.len(),
                k2 <= m,
                out@ == old(out)@ + w@.subrange(0, k2 as int),
            decreases m - k2,
        {
            let c = w.get_char(k2);
            out.push(c);
            proof {
                assert(old(out)@ + w@.subrange(0, k2 as int + 1) =~= (old(out)@ + w@.subrange(
                    0,
                    k2 as int,
                )).push(w@[k2 as int]));
            }
            k2 += 1;
        }
        proof {
            assert(w@.subrange(0, m as int) =~= w@);
        }
    } else {
        out.push('"');
        let ghost base = old(out)@ + seq!['"'];
        proof {
            assert(out@ =~= base);
        }
        let mut k2: usize = 0;
        while k2 < m
            invariant
                m == w@.len(),
                k2 <= m,
                out@ == base + escape_quotes(w@.subrange(0, k2 as int)),
            decreases m - k2,
        {
            let c = w.get_char(k2);
            let ghost pre = w@.subrange(0, k2 as int);
            let ghost post = w@.subrange(0, k2 as int + 1);
            out.push(c);
            if c == '"' {
                out.push('"');
            }
            proof {
                assert(post.drop_last() =~= pre);
                assert(post.last() == w@[k2 as int]);
                if c == '"' {
                    assert(escape_quotes(post) =~= escape_quotes(pre) + seq!['"', '"']);
                    assert(out@ =~= base + escape_quotes(post));
                } else {
                    assert(escape_quotes(post) =~= escape_quotes(pre) + seq![w@[k2 as int]]);
                    assert(out@ =~= base + escape_quotes(post));
                }
            }
            k2 += 1;
        }
        out.push('"');
        proof {
            assert(w@.subrange(0, m as int) =~= w@);
            assert(out@ =~= old(out)@ + csv_field(w@));
        }
    }
}

/// Format a frequency table as CSV: the `word,count` header, then one
/// `word,count` row per entry, in the table's entry order.
pub fn table_to_csv(t: &WordFrequencyTable) -> (r: String)
    ensures
        r@ == csv_of(t@),
{
    let mut out: Vec<char> = Vec::new();
    out.push('w');
    out.push('o');
    out.push('r');
    out.push('d');
    out.push(',');
    out.push('c');
    out.push('o');
    out.push('u');
    out.push('n');
    out.push('t');
    out.push('\n');
    proof {
        reveal_strlit("word,count\n");
        assert(out@ =~= csv_header());
    }
    let entries = t.entries();
    let n = entries.len();
    let mut k: usize = 0;
    while k < n
        invariant
            entries@ == t@,
            n == t@.len(),
            k <= n,
            out@ == csv_header() + csv_body(t@.subrange(0, k as int)),
        decreases n - k,
    {
        let ghost pre = t@.subrange(0, k as int);
        let ghost post = t@.subrange(0, k as int + 1);
        push_field(&mut out, entries[k].0.as_str());
        out.push(',');
        push_digits(&mut out, entries[k].1);
        out.push('\n');
        proof {
            assert(post.drop_last() =~= pre);
            assert(post.last() == t@[k as int]);
            assert(csv_body(post) =~= csv_body(pre) + csv_row(t@[k as int].0@, t@[k as int].1 as nat));
            assert(out@ =~= csv_header() + csv_body(post));
        }
        k += 1;
    }
    proof {
        assert(t@.subrange(0, n as int) =~= t@);
    }
    chars_to_string(&out)
}

} // verus!

// What follows gives the CSV format a reader, at the specification level,
// and proves that reading back an exported table yields the table's
// entries exactly.

verus! {

/// Whether `c` is a decimal digit character.
pub open spec fn is_digit(c: char) -> bool {
    c == '0' || c == '1' || c == '2' || c == '3' || c == '4' || c == '5' || c == '6' || c == '7'
        || c == '8' || c == '9'
}

/// The value of a decimal digit character.
pub open spec fn digit_val(c: char) -> nat {
    if c == '0' {
        0
    } else if c == '1' {
        1
    } else if c == '2' {
        2
    } else if c == '3' {
        3
    } else if c == '4' {
        4
    } else if c == '5' {
        5
    } else if c == '6' {
        6
    } else if c == '7' {
        7
    } else if c == '8' {
        8
    } else {
        9
    }
}

/// Read a quoted field after its opening quote: doubled quotes collapse,
/// a lone quote closes the field. Yields the field and what follows the
/// closing quote.
pub open spec fn parse_quoted(s: Seq<char>, acc: Seq<char>) -> Option<(Seq<char>, Seq<char>)>
    decreases s.len(),
{
    if s.len() == 0 {
        None
    } else if s[0] == '"' {
        if s.len() >= 2 && s[1] == '"' {
            parse_quoted(s.subrange(2, s.len() as int), acc.push('"'))
        } else {
            Some((acc, s.drop_first()))
        }
    } else {
        parse_quoted(s.drop_first(), acc.push(s[0]))
    }
}

/// Read an unquoted field: plain characters up to the comma, which is not
/// consumed. Quotes and line breaks may not occur in it.
pub open spec fn parse_unquoted(s: Seq<char>) -> Option<(Seq<char>, Seq<char>)>
    decreases s.len(),
{
    if s.len() == 0 {
        None
    } else if s[0] == ',' {
        Some((Seq::empty(), s))
    } else if s[0] == '"' || s[0] == '\n' || s[0] == '\r' {
        None
    } else {
        match parse_unquoted(s.drop_first()) {
            Option::Some(fr) => Some((seq![s[0]] + fr.0, fr.1)),
            Option::None => None,
        }
    }
}

/// Read a field of either form. For a quoted field the remainder starts
/// after the closing quote; for an unquoted one it starts at the comma.
pub open spec fn parse_field(s: Seq<char>) -> Option<(Seq<char>, Seq<char>)> {
    if s.len() > 0 && s[0] == '"' {
        parse_quoted(s.drop_first(), Seq::empty())
    } else {
        parse_unquoted(s)
    }
}

/// Read decimal digits, accumulating their value, up to a newline, which
/// is consumed.
pub open spec fn parse_count_rec(s: Seq<char>, acc: nat) -> Option<(nat, Seq<char>)>
    decreases s.len(),
{
    if s.len() == 0 {
        None
    } else if is_digit(s[0]) {
        parse_count_rec(s.drop_first(), acc * 10 + digit_val(s[0]))
    } else if s[0] == '\n' {
        Some((acc, s.drop_first()))
    } else {
        None
    }
}

/// Read a count: at least one digit, then a newline.
pub open spec fn parse_count(s: Seq<char>) -> Option<(nat, Seq<char>)> {
    if s.len() > 0 && is_digit(s[0]) {
        parse_count_rec(s, 0)
    } else {
        None
    }
}

/// Read one row: field, comma, count, newline.
pub open spec fn parse_row(s: Seq<char>) -> Option<(Seq<char>, nat, Seq<char>)> {
    match parse_field(s) {
        Option::None => None,
        Option::Some(fr) => if fr.1.len() > 0 && fr.1[0] == ',' {
            match parse_count(fr.1.drop_first()) {
                Option::None => None,
                Option::Some(cr) => Some((fr.0, cr.0, cr.1)),
            }
        } else {
            None
        },
    }
}

/// Read rows until the text is exhausted.
pub open spec fn parse_rows(s: Seq<char>) -> Option<Seq<(Seq<char>, nat)>>
    decreases s.len(),
{
    if s.len() == 0 {
        Some(Seq::empty())
    } else {
        match parse_row(s) {
            Option::None => None,
            Option::Some(rcr) => if rcr.2.len() < s.len() {
                match parse_rows(rcr.2) {
                    Option::None => None,
                    Option::Some(tail) => Some(seq![(rcr.0, rcr.1)] + tail),
                }
            } else {
                None
            },
        }
    }
}

/// Read a whole export: the `word,count` header, then the rows.
pub open spec fn table_of_csv(s: Seq<char>) -> Option<Seq<(Seq<char>, nat)>> {
    if s.len() >= csv_header().len() && s.subrange(0, csv_header().len() as int) == csv_header() {
        parse_rows(s.subrange(csv_header().len() as int, s.len() as int))
    } else {
        None
    }
}

/// Escaping distributes over concatenation.
proof fn lemma_escape_add(u: Seq<char>, v: Seq<char>)
    ensures
        escape_quotes(u + v) == escape_quotes(u) + escape_quotes(v),
    decreases v.len(),
{
    if v.len() == 0 {
        assert(u + v =~= u);
        assert(escape_quotes(v) =~= Seq::<char>::empty());
        assert(escape_quotes(u) + escape_quotes(v) =~= escape_quotes(u));
    } else {
        assert((u + v).drop_last() =~= u + v.drop_last());
        assert((u + v).last() == v.last());
        lemma_escape_add(u, v.drop_last());
        assert(escape_quotes(u + v) =~= escape_quotes(u) + escape_quotes(v));
    }
}

/// Reading an escaped-and-closed field gives back the field.
proof fn lemma_parse_quoted(w: Seq<char>, tail: Seq<char>, acc: Seq<char>)
    requires
        tail.len() > 0,
        tail[0] != '"',
    ensures
        parse_quoted(escape_quotes(w) + seq!['"'] + tail, acc) == Some((acc + w, tail)),
    decreases w.len(),
{
    if w.len() == 0 {
        let s = escape_quotes(w) + seq!['"'] + tail;
        assert(s =~= seq!['"'] + tail);
        assert(s[0] == '"');
        assert(s.len() >= 2 ==> s[1] == tail[0]);
        assert(s.drop_first() =~= tail);
        assert(acc + w =~= acc);
    } else {
        let w0 = w[0];
        let w1 = w.drop_first();
        assert(w =~= seq![w0] + w1);
        lemma_escape_add(seq![w0], w1);
        assert(seq![w0].drop_last() =~= Seq::<char>::empty());
        assert(escape_quotes(Seq::<char>::empty()) =~= Seq::<char>::empty());
        assert(seq![w0].last() == w0);
        assert(escape_quotes(seq![w0]) =~= Seq::<char>::empty() + (if w0 == '"' {
            seq!['"', '"']
        } else {
            seq![w0]
        }));
        let s = escape_quotes(w) + seq!['"'] + tail;
        if w0 == '"' {
            assert(escape_quotes(seq![w0]) =~= seq!['"', '"']);
            assert(s =~= seq!['"', '"'] + (escape_quotes(w1) + seq!['"'] + tail));
            assert(s[0] == '"' && s.len() >= 2 && s[1] == '"');
            assert(s.subrange(2, s.len() as int) =~= escape_quotes(w1) + seq!['"'] + tail);
            lemma_parse_quoted(w1, tail, acc.push('"'));
            assert(acc.push('"') + w1 =~= acc + w);
        } else {
            assert(escape_quotes(seq![w0]) =~= seq![w0]);
            assert(s =~= seq![w0] + (escape_quotes(w1) + seq!['"'] + tail));
            assert(s[0] == w0);
            assert(s.drop_first() =~= escape_quotes(w1) + seq!['"'] + tail);
            lemma_parse_quoted(w1, tail, acc.push(w0));
            assert(acc.push(w0) + w1 =~= acc + w);
        }
    }
}

/// Reading an unquoted field up to the comma gives back the field.
proof fn lemma_parse_unquoted(w: Seq<char>, tail: Seq<char>)
    requires
        !needs_quoting(w),
        tail.len() > 0,
        tail[0] == ',',
    ensures
        parse_unquoted(w + tail) == Some((w, tail)),
    decreases w.len(),
{
    let s = w + tail;
    if w.len() == 0 {
        assert(s =~= tail);
        assert(Seq::<char>::empty() =~= w);
    } else {
        let w0 = w[0];
        let w1 = w.drop_first();
        assert(s[0] == w0);
        assert(w.contains(w0));
        assert(w0 != ',' && w0 != '"' && w0 != '\n' && w0 != '\r');
        assert(forall|q: int| 0 <= q < w1.len() ==> w.contains(#[trigger] w1[q]));
        assert(!needs_quoting(w1));
        assert(s.drop_first() =~= w1 + tail);
        lemma_parse_unquoted(w1, tail);
        assert(seq![w0] + w1 =~= w);
    }
}

/// Ten to the power `k`.
pub open spec fn pow10(k: nat) -> nat
    decreases k,
{
    if k == 0 {
        1
    } else {
        10 * pow10((k - 1) as nat)
    }
}

/// The digits of any number start with a digit character.
proof fn lemma_dec_first_digit(n: nat)
    ensures
        dec_digits(n).len() >= 1,
        is_digit(dec_digits(n)[0]),
    decreases n,
{
    if n >= 10 {
        lemma_dec_first_digit(n / 10);
    }
}

/// Reading the digit string of `m` multiplies the accumulator through and
/// adds `m`.
proof fn lemma_parse_digits(m: nat, tail: Seq<char>, acc: nat)
    ensures
        parse_count_rec(dec_digits(m) + tail, acc) == parse_count_rec(
            tail,
            acc * pow10(dec_digits(m).len()) + m,
        ),
    decreases m,
{
    if m < 10 {
        let s = dec_digits(m) + tail;
        assert(s[0] == digit_char(m));
        assert(is_digit(digit_char(m)));
        assert(digit_val(digit_char(m)) == m);
        assert(s.drop_first() =~= tail);
        assert(pow10(0) == 1);
        assert(pow10(1) == 10);
        assert(dec_digits(m).len() == 1);
    } else {
        let d = m % 10;
        let hi = m / 10;
        let l1 = dec_digits(hi).len();
        assert(dec_digits(m) =~= dec_digits(hi) + seq![digit_char(d)]);
        assert(dec_digits(m).len() == l1 + 1);
        assert(dec_digits(m) + tail =~= dec_digits(hi) + (seq![digit_char(d)] + tail));
        lemma_parse_digits(hi, seq![digit_char(d)] + tail, acc);
        let mid = acc * pow10(l1) + hi;
        let s2 = seq![digit_char(d)] + tail;
        assert(s2[0] == digit_char(d));
        assert(is_digit(digit_char(d)));
        assert(digit_val(digit_char(d)) == d);
        assert(s2.drop_first() =~= tail);
        assert(parse_count_rec(s2, mid) == parse_count_rec(tail, mid * 10 + d));
        assert(pow10((l1 + 1) as nat) == 10 * pow10(l1));
        assert(mid * 10 + d == acc * pow10((l1 + 1) as nat) + m) by (nonlinear_arith)
            requires
                mid == acc * pow10(l1) + hi,
                hi == m / 10,
                d == m % 10,
                m >= 10,
                pow10((l1 + 1) as nat) == 10 * pow10(l1),
        {
        }
    }
}

/// Reading a count field followed by a newline gives back the count.
proof fn lemma_parse_count(c: nat, tail: Seq<char>)
    ensures
        parse_count(dec_digits(c) + seq!['\n'] + tail) == Some((c, tail)),
{
    let s = dec_digits(c) + seq!['\n'] + tail;
    lemma_dec_first_digit(c);
    assert(s[0] == dec_digits(c)[0]);
    assert(s =~= dec_digits(c) + (seq!['\n'] + tail));
    lemma_parse_digits(c, seq!['\n'] + tail, 0);
    let s2 = seq!['\n'] + tail;
    assert(0 * pow10(dec_digits(c).len()) + c == c);
    assert(!is_digit('\n'));
    assert(s2.drop_first() =~= tail);
}

/// Reading one formatted row gives back its word, its count, and the rest.
proof fn lemma_parse_row(w: Seq<char>, c: nat, tail: Seq<char>)
    ensures
        parse_row(csv_row(w, c) + tail) == Some((w, c, tail)),
        csv_row(w, c).len() >= 3,
{
    let s = csv_row(w, c) + tail;
    let tail2 = seq![','] + dec_digits(c) + seq!['\n'] + tail;
    lemma_dec_first_digit(c);
    if needs_quoting(w) {
        assert(s =~= seq!['"'] + (escape_quotes(w) + seq!['"'] + tail2));
        assert(s[0] == '"');
        assert(s.drop_first() =~= escape_quotes(w) + seq!['"'] + tail2);
        assert(tail2[0] == ',');
        lemma_parse_quoted(w, tail2, Seq::empty());
        assert(Seq::<char>::empty() + w =~= w);
        assert(parse_field(s) == Some((w, tail2)));
    } else {
        assert(s =~= w + tail2);
        if w.len() > 0 {
            assert(w.contains(w[0]));
            assert(w[0] != '"');
            assert(s[0] == w[0]);
        } else {
            assert(s[0] == ',');
        }
        lemma_parse_unquoted(w, tail2);
        assert(parse_field(s) == Some((w, tail2)));
    }
    assert(tail2.len() > 0 && tail2[0] == ',');
    assert(tail2.drop_first() =~= dec_digits(c) + seq!['\n'] + tail);
    lemma_parse_count(c, tail);
}

/// The rows of a nonempty table are its first row followed by the rest.
proof fn lemma_csv_body_first(entries: Seq<(String, usize)>)
    requires
        entries.len() > 0,
    ensures
        csv_body(entries) == csv_row(entries[0].0@, entries[0].1 as nat) + csv_body(
            entries.drop_first(),
        ),
    decreases entries.len(),
{
    if entries.len() == 1 {
        assert(entries.drop_last() =~= Seq::<(String, usize)>::empty());
        assert(entries.drop_first() =~= Seq::<(String, usize)>::empty());
        assert(entries.last() == entries[0]);
        assert(csv_body(Seq::<(String, usize)>::empty()) =~= Seq::<char>::empty());
        assert(csv_body(entries) =~= Seq::<char>::empty() + csv_row(
            entries[0].0@,
            entries[0].1 as nat,
        ));
        assert(csv_body(entries) =~= csv_row(entries[0].0@, entries[0].1 as nat));
        assert(csv_body(entries.drop_first()) =~= Seq::<char>::empty());
        assert(csv_row(entries[0].0@, entries[0].1 as nat) + csv_body(entries.drop_first()) =~= csv_row(
            entries[0].0@,
            entries[0].1 as nat,
        ));
    } else {
        let pre = entries.drop_last();
        lemma_csv_body_first(pre);
        assert(pre[0] == entries[0]);
        assert(pre.drop_first() =~= entries.drop_first().drop_last());
        assert(entries.drop_first().last() == entries.last());
        assert(csv_body(entries) =~= csv_row(entries[0].0@, entries[0].1 as nat) + csv_body(
            entries.drop_first(),
        ));
    }
}

/// The entries of a table, as plain word/count pairs.
pub open spec fn entry_pairs(entries: Seq<(String, usize)>) -> Seq<(Seq<char>, nat)> {
    entries.map_values(|p: (String, usize)| (p.0@, p.1 as nat))
}

/// Reading the formatted rows of a table gives back its entries.
proof fn lemma_parse_rows(entries: Seq<(String, usize)>)
    ensures
        parse_rows(csv_body(entries)) == Some(entry_pairs(entries)),
    decreases entries.len(),
{
    if entries.len() == 0 {
        assert(csv_body(entries).len() == 0);
        assert(entry_pairs(entries) =~= Seq::<(Seq<char>, nat)>::empty());
    } else {
        let w0 = entries[0].0@;
        let c0 = entries[0].1 as nat;
        let rest = entries.drop_first();
        lemma_csv_body_first(entries);
        lemma_parse_row(w0, c0, csv_body(rest));
        let s = csv_body(entries);
        assert(s == csv_row(w0, c0) + csv_body(rest));
        assert(s.len() == csv_row(w0, c0).len() + csv_body(rest).len());
        assert(s.len() > 0);
        assert(parse_row(s) == Some((w0, c0, csv_body(rest))));
        assert(csv_body(rest).len() < s.len());
        lemma_parse_rows(rest);
        assert(seq![(w0, c0)] + entry_pairs(rest) =~= entry_pairs(entries));
    }
}

/// Round trip: reading back an exported table yields exactly the table's
/// entries, word for word and count for count, in order.
pub proof fn lemma_csv_round_trip(entries: Seq<(String, usize)>)
    ensures
        table_of_csv(csv_of(entries)) == Some(entry_pairs(entries)),
{
    reveal_strlit("word,count\n");
    let s = csv_of(entries);
    let h = csv_header().len() as int;
    assert(csv_header().len() == 11);
    assert(s.len() >= h);
    assert(s.subrange(0, h) =~= csv_header());
    assert(s.subrange(h, s.len() as int) =~= csv_body(entries));
    lemma_parse_rows(entries);
}

} // verus!

// The line structure of an export: one header line and one line per entry.

verus! {

/// The line-break predicate, as one shared function value.
pub open spec fn newline_pred() -> spec_fn(char) -> bool {
    |c: char| c == '\n'
}

/// The number of line-break characters in a text.
pub open spec fn newline_count(s: Seq<char>) -> nat {
    s.filter(newline_pred()).len()
}

/// Line breaks count separately over the pieces of a concatenation.
proof fn lemma_newline_add(u: Seq<char>, v: Seq<char>)
    ensures
        newline_count(u + v) == newline_count(u) + newline_count(v),
{
    Seq::filter_distributes_over_add(u, v, newline_pred());
}

/// A text with no line break has a line-break count of zero.
proof fn lemma_newline_zero(s: Seq<char>)
    requires
        forall|i: int| 0 <= i < s.len() ==> (#[trigger] s[i]) != '\n',
    ensures
        newline_count(s) == 0,
    decreases s.len(),
{
    reveal(Seq::filter);
    if s.len() > 0 {
        lemma_newline_zero(s.drop_last());
    }
}

/// A single character counts as one line break exactly when it is one.
proof fn lemma_newline_single(c: char)
    ensures
        newline_count(seq![c]) == (if c == '\n' {
            1nat
        } else {
            0nat
        }),
{
    reveal_with_fuel(Seq::filter, 2);
    assert(seq![c].drop_last() =~= Seq::<char>::empty());
    assert(seq![c].filter(newline_pred()) == Seq::<char>::empty().filter(newline_pred()).push(
        c,
    ) || seq![c].filter(newline_pred()) == Seq::<char>::empty().filter(newline_pred()));
    assert(Seq::<char>::empty().filter(newline_pred()) =~= Seq::<char>::empty());
}

/// The digits of a number contain no line break.
proof fn lemma_newline_digits(n: nat)
    ensures
        newline_count(dec_digits(n)) == 0,
    decreases n,
{
    if n < 10 {
        lemma_newline_single(digit_char(n));
    } else {
        lemma_newline_digits(n / 10);
        lemma_newline_add(dec_digits(n / 10), seq![digit_char(n % 10)]);
        lemma_newline_single(digit_char(n % 10));
        assert(dec_digits(n) =~= dec_digits(n / 10) + seq![digit_char(n % 10)]);
    }
}

/// Escaping a word free of line breaks yields a text free of them.
proof fn lemma_newline_escape(w: Seq<char>)
    requires
        !w.contains('\n'),
    ensures
        newline_count(escape_quotes(w)) == 0,
    decreases w.len(),
{
    if w.len() > 0 {
        assert(forall|q: int| 0 <= q < w.drop_last().len() ==> w.contains(
            #[trigger] w.drop_last()[q],
        ));
        lemma_newline_escape(w.drop_last());
        let piece = if w.last() == '"' {
            seq!['"', '"']
        } else {
            seq![w.last()]
        };
        assert(w.contains(w.last()));
        assert(forall|i: int| 0 <= i < piece.len() ==> (#[trigger] piece[i]) != '\n');
        lemma_newline_zero(piece);
        lemma_newline_add(escape_quotes(w.drop_last()), piece);
    }
}

/// A row for a word free of line breaks spans exactly one line.
proof fn lemma_newline_row(w: Seq<char>, c: nat)
    requires
        !w.contains('\n'),
    ensures
        newline_count(csv_row(w, c)) == 1,
{
    if needs_quoting(w) {
        lemma_newline_single('"');
        lemma_newline_escape(w);
        lemma_newline_add(seq!['"'], escape_quotes(w));
        lemma_newline_add(seq!['"'] + escape_quotes(w), seq!['"']);
        assert(newline_count(csv_field(w)) == 0);
    } else {
        assert(forall|i: int| 0 <= i < w.len() ==> (#[trigger] w[i]) != '\n');
        lemma_newline_zero(w);
    }
    lemma_newline_single(',');
    lemma_newline_digits(c);
    lemma_newline_single('\n');
    lemma_newline_add(csv_field(w), seq![',']);
    lemma_newline_add(csv_field(w) + seq![','], dec_digits(c));
    lemma_newline_add(csv_field(w) + seq![','] + dec_digits(c), seq!['\n']);
}

/// An export is the header line plus one line per entry: when no counted
/// word itself holds a line break, the text holds exactly one more
/// line-break character than the table has entries.
pub proof fn lemma_csv_line_count(entries: Seq<(String, usize)>)
    requires
        forall|i: int| 0 <= i < entries.len() ==> !(#[trigger] entries[i]).0@.contains('\n'),
    ensures
        newline_count(csv_of(entries)) == entries.len() + 1,
    decreases entries.len(),
{
    reveal_strlit("word,count\n");
    assert(newline_count(csv_header()) == 1) by {
        let h = csv_header();
        assert(h =~= h.drop_last().push('\n'));
        assert(forall|i: int| 0 <= i < h.drop_last().len() ==> (#[trigger] h.drop_last()[i])
            != '\n');
        lemma_newline_zero(h.drop_last());
        lemma_newline_single('\n');
        lemma_newline_add(h.drop_last(), seq!['\n']);
        assert(h =~= h.drop_last() + seq!['\n']);
    }
    assert(newline_count(csv_body(entries)) == entries.len()) by {
        lemma_newline_body(entries);
    }
    lemma_newline_add(csv_header(), csv_body(entries));
}

/// The rows of a table of words free of line breaks span one line each.
proof fn lemma_newline_body(entries: Seq<(String, usize)>)
    requires
        forall|i: int| 0 <= i < entries.len() ==> !(#[trigger] entries[i]).0@.contains('\n'),
    ensures
        newline_count(csv_body(entries)) == entries.len(),
    decreases entries.len(),
{
    if entries.len() == 0 {
        lemma_newline_zero(csv_body(entries));
    } else {
        lemma_newline_body(entries.drop_last());
        lemma_newline_row(entries.last().0@, entries.last().1 as nat);
        lemma_newline_add(
            csv_body(entries.drop_last()),
            csv_row(entries.last().0@, entries.last().1 as nat),
        );
    }
}

} // verus!
