//! Character-level text utilities used to build playlists, SQL fragments and paths.
use vstd::prelude::*;
use vstd::string::StringExecFns;

verus! {

/// The characters of `s`, in order.
pub fn chars_of(s: &str) -> (v: Vec<char>)
    ensures
        v@ == s@,
{
    let mut v: Vec<char> = Vec::new();
    for c in it: s.chars()
        invariant
            v@ == it.seq().take(it.index() as int),
            it.seq() == s@,
    {
        v.push(c);
    }
    v
}

/// Appends one character to `s` (`String::push`).
#[verifier::external_body]
pub(crate) fn push_char(s: &mut String, c: char)
    ensures
        final(s)@ == old(s)@.push(c),
{
    s.push(c)
}

/// Appends the characters of `t` to `s`.
pub fn push_str(s: &mut String, t: &str)
    ensures
        final(s)@ == old(s)@ + t@,
{
    s.append(t);
}

/// A string holding the characters of `t`.
pub fn string_of(t: &str) -> (s: String)
    ensures
        s@ == t@,
{
    String::from_str(t)
}

/// Appends the characters held in `v`.
pub fn push_chars(s: &mut String, v: &Vec<char>)
    ensures
        final(s)@ == old(s)@ + v@,
{
    let ghost start = s@;
    for i in 0..v.len()
        invariant
            s@ == start + v@.take(i as int),
    {
        push_char(s, v[i]);
        assert(v@.take(i + 1) == v@.take(i as int).push(v@[i as int]));
    }
    assert(v@.take(v.len() as int) == v@);
}

/// The decimal digit character for `d` (0 <= d < 10).
pub open spec fn digit_char(d: int) -> char {
    (48 + d) as char
}

/// Decimal notation of a natural number, without leading zeros.
pub open spec fn decimal(n: nat) -> Seq<char>
    decreases n,
{
    if n < 10 {
        seq![digit_char(n as int)]
    } else {
        decimal(n / 10).push(digit_char((n % 10) as int))
    }
}

/// Decimal notation of an integer, with a leading `-` when it is negative.
pub open spec fn decimal_int(n: int) -> Seq<char> {
    if n < 0 {
        seq!['-'] + decimal((-n) as nat)
    } else {
        decimal(n as nat)
    }
}

fn digit(d: u64) -> (c: char)
    requires
        d < 10,
    ensures
        c == digit_char(d as int),
{
    let b: u8 = d as u8 + 48;
    b as char
}

/// Appends the decimal notation of `n`.
pub fn push_decimal_u64(s: &mut String, n: u64)
    ensures
        final(s)@ == old(s)@ + decimal(n as nat),
    decreases n,
{
    let ghost start = s@;
    if n >= 10 {
        push_decimal_u64(s, n / 10);
    }
    push_char(s, digit(n % 10));
    if n >= 10 {
        assert(s@ == start + decimal(n as nat));
    } else {
        assert(s@ == start + decimal(n as nat));
    }
}

/// Appends the decimal notation of `n`, signed.
pub fn push_decimal_i64(s: &mut String, n: i64)
    ensures
        final(s)@ == old(s)@ + decimal_int(n as int),
{
    let ghost start = s@;
    if n < 0 {
        push_char(s, '-');
        let m: u64 = if n == i64::MIN {
            9223372036854775808u64
        } else {
            (-n) as u64
        };
        push_decimal_u64(s, m);
        assert(s@ == start + decimal_int(n as int));
    } else {
        push_decimal_u64(s, n as u64);
    }
}

/// Whether the characters of `a` and `b` are the same.
pub fn chars_equal(a: &Vec<char>, b: &Vec<char>) -> (r: bool)
    ensures
        r == (a@ == b@),
{
    if a.len() != b.len() {
        return false;
    }
    for i in 0..a.len()
        invariant
            a@.len() == b@.len(),
            forall|j: int| 0 <= j < i ==> a@[j] == b@[j],
    {
        if a[i] != b[i] {
            return false;
        }
    }
    assert(a@ =~= b@);
    true
}

/// Whether `s` begins with `prefix`.
pub fn starts_with(s: &Vec<char>, prefix: &Vec<char>) -> (r: bool)
    ensures
        r == prefix@.is_prefix_of(s@),
{
    if prefix.len() > s.len() {
        return false;
    }
    for i in 0..prefix.len()
        invariant
            prefix@.len() <= s@.len(),
            forall|j: int| 0 <= j < i ==> prefix@[j] == s@[j],
    {
        if prefix[i] != s[i] {
            return false;
        }
    }
    assert(prefix@ =~= s@.subrange(0, prefix@.len() as int));
    true
}

/// Whether `s` ends with `suffix`.
pub fn ends_with(s: &Vec<char>, suffix: &Vec<char>) -> (r: bool)
    ensures
        r == suffix@.is_suffix_of(s@),
{
    if suffix.len() > s.len() {
        return false;
    }
    let off = s.len() - suffix.len();
    let mut i: usize = 0;
    while i < suffix.len()
        invariant
            suffix@.len() <= s@.len(),
            off + suffix@.len() == s@.len(),
            i <= suffix@.len(),
            forall|j: int| 0 <= j < i ==> suffix@[j] == s@[off + j],
        decreases suffix.len() - i,
    {
        assert(off + i < s.len());
        if suffix[i] != s[off + i] {
            return false;
        }
        i = i + 1;
    }
    assert(suffix@ =~= s@.subrange(off as int, s@.len() as int));
    true
}

/// The text with every `'` doubled, so that it can stand between quotes in SQL.
pub open spec fn escape_quotes(s: Seq<char>) -> Seq<char>
    decreases s.len(),
{
    if s.len() == 0 {
        Seq::empty()
    } else {
        (if s[0] == '\'' {
            seq!['\'', '\'']
        } else {
            seq![s[0]]
        }) + escape_quotes(s.skip(1))
    }
}

/// Escaping the concatenation is concatenating the escapes.
pub proof fn lemma_escape_concat(a: Seq<char>, b: Seq<char>)
    ensures
        escape_quotes(a + b) == escape_quotes(a) + escape_quotes(b),
    decreases a.len(),
{
    if a.len() == 0 {
        assert(a + b =~= b);
        assert(escape_quotes(a) + escape_quotes(b) =~= escape_quotes(b));
    } else {
        assert((a + b).skip(1) =~= a.skip(1) + b);
        lemma_escape_concat(a.skip(1), b);
        assert((a + b)[0] == a[0]);
        let h = if a[0] == '\'' {
            seq!['\'', '\'']
        } else {
            seq![a[0]]
        };
        assert(escape_quotes(a + b) =~= h + (escape_quotes(a.skip(1)) + escape_quotes(b)));
        assert(escape_quotes(a) =~= h + escape_quotes(a.skip(1)));
    }
}

proof fn lemma_escape_single(c: char)
    ensures
        escape_quotes(seq![c]) == (if c == '\'' {
            seq!['\'', '\'']
        } else {
            seq![c]
        }),
{
    assert(seq![c].skip(1) =~= Seq::<char>::empty());
    let h = if c == '\'' {
        seq!['\'', '\'']
    } else {
        seq![c]
    };
    assert(escape_quotes(seq![c].skip(1)) =~= Seq::<char>::empty());
    assert(escape_quotes(seq![c]) =~= h + Seq::<char>::empty());
}

/// `s` with every `'` doubled (`str::replace('\'', "''")`).
pub fn escape_sql(s: &str) -> (r: String)
    ensures
        r@ == escape_quotes(s@),
{
    let v = chars_of(s);
    let mut r = String::new();
    for i in 0..v.len()
        invariant
            v@ == s@,
            r@ == escape_quotes(v@.take(i as int)),
    {
        let c = v[i];
        proof {
            assert(v@.take(i + 1) =~= v@.take(i as int) + seq![c]);
            lemma_escape_concat(v@.take(i as int), seq![c]);
            lemma_escape_single(c);
        }
        if c == '\'' {
            push_char(&mut r, '\'');
            push_char(&mut r, '\'');
        } else {
            push_char(&mut r, c);
        }
        assert(r@ =~= escape_quotes(v@.take(i + 1)));
    }
    assert(v@.take(v@.len() as int) =~= v@);
    r
}

/// Reads the body of a quoted SQL string literal whose opening quote has been consumed:
/// `''` stands for one quote and a lone `'` closes the literal. Gives the body and the
/// text after the closing quote, or `None` when the literal is not closed.
pub open spec fn read_quoted(t: Seq<char>) -> Option<(Seq<char>, Seq<char>)>
    decreases t.len(),
{
    if t.len() == 0 {
        None
    } else if t[0] == '\'' {
        if t.len() >= 2 && t[1] == '\'' {
            match read_quoted(t.skip(2)) {
                Some((b, r)) => Some((seq!['\''] + b, r)),
                None => None,
            }
        } else {
            Some((Seq::empty(), t.skip(1)))
        }
    } else {
        match read_quoted(t.skip(1)) {
            Some((b, r)) => Some((seq![t[0]] + b, r)),
            None => None,
        }
    }
}

/// Quoting law: an escaped text followed by a closing quote reads back as exactly that
/// text, and whatever follows the closing quote (when it does not itself begin with a
/// quote) is left untouched. A value spliced into an SQL statement this way can never end
/// the literal early.
pub proof fn lemma_escaped_literal_reads_back(s: Seq<char>, rest: Seq<char>)
    requires
        rest.len() == 0 || rest[0] != '\'',
    ensures
        read_quoted(escape_quotes(s) + seq!['\''] + rest) == Some((s, rest)),
    decreases s.len(),
{
    let t = escape_quotes(s) + seq!['\''] + rest;
    if s.len() == 0 {
        assert(escape_quotes(s) =~= Seq::<char>::empty());
        assert(t =~= seq!['\''] + rest);
        assert(t.skip(1) =~= rest);
        assert(s =~= Seq::<char>::empty());
    } else {
        lemma_escaped_literal_reads_back(s.skip(1), rest);
        let u = escape_quotes(s.skip(1)) + seq!['\''] + rest;
        if s[0] == '\'' {
            assert(t =~= seq!['\'', '\''] + u);
            assert(t.skip(2) =~= u);
            assert(seq!['\''] + s.skip(1) =~= s);
        } else {
            assert(t =~= seq![s[0]] + u);
            assert(t.skip(1) =~= u);
            assert(seq![s[0]] + s.skip(1) =~= s);
        }
    }
}

/// `s` without its `-` characters.
pub open spec fn without_dashes(s: Seq<char>) -> Seq<char> {
    s.filter(|c: char| c != '-')
}

/// `s` with every `-` removed (`str::replace('-', "")`).
pub fn strip_dashes(s: &str) -> (r: String)
    ensures
        r@ == without_dashes(s@),
{
    let v = chars_of(s);
    let mut r = String::new();
    for i in 0..v.len()
        invariant
            v@ == s@,
            r@ == without_dashes(v@.take(i as int)),
    {
        let c = v[i];
        proof {
            assert(v@.take(i + 1) =~= v@.take(i as int).push(c));
            v@.take(i as int).lemma_filter_push(c, |c: char| c != '-');
        }
        if c != '-' {
            push_char(&mut r, c);
        }
    }
    assert(v@.take(v@.len() as int) =~= v@);
    r
}

/// Whether `c` is one of `0`..`9`.
pub open spec fn is_digit(c: char) -> bool {
    '0' <= c && c <= '9'
}

/// Value of a string of decimal digits.
pub open spec fn digits_value(s: Seq<char>) -> nat
    decreases s.len(),
{
    if s.len() == 0 {
        0
    } else {
        digits_value(s.drop_last()) * 10 + ((s.last() as int) - 48) as nat
    }
}

/// The digits of `s` after an optional leading `+`.
pub open spec fn unsigned_digits(s: Seq<char>) -> Seq<char> {
    if s.len() > 0 && s[0] == '+' {
        s.skip(1)
    } else {
        s
    }
}

/// What `str::parse::<u16>` gives: an optional `+`, then at least one decimal digit,
/// denoting a value no greater than 65535.
pub open spec fn parsed_u16(s: Seq<char>) -> Option<u16> {
    let d = unsigned_digits(s);
    if d.len() > 0 && (forall|i: int| 0 <= i < d.len() ==> is_digit(#[trigger] d[i]))
        && digits_value(d) <= 65535 {
        Some(digits_value(d) as u16)
    } else {
        None
    }
}

proof fn lemma_digits_value_step(s: Seq<char>, i: int)
    requires
        0 <= i < s.len(),
    ensures
        digits_value(s.take(i + 1)) == digits_value(s.take(i)) * 10 + ((s[i] as int) - 48) as nat,
{
    assert(s.take(i + 1).drop_last() =~= s.take(i));
}

proof fn lemma_digits_value_grows(s: Seq<char>, i: int, j: int)
    requires
        0 <= i <= j <= s.len(),
        forall|k: int| 0 <= k < s.len() ==> is_digit(#[trigger] s[k]),
    ensures
        digits_value(s.take(i)) <= digits_value(s.take(j)),
    decreases j - i,
{
    if i < j {
        lemma_digits_value_grows(s, i, j - 1);
        lemma_digits_value_step(s, j - 1);
        assert(is_digit(s[j - 1]));
    }
}

/// Parses a decimal `u16` as `str::parse::<u16>` does.
pub fn parse_u16(s: &str) -> (r: Option<u16>)
    ensures
        r == parsed_u16(s@),
{
    let v = chars_of(s);
    let start: usize = if v.len() > 0 && v[0] == '+' {
        1
    } else {
        0
    };
    let ghost d = unsigned_digits(s@);
    assert(d =~= v@.skip(start as int));
    if start >= v.len() {
        return None;
    }
    let mut value: u32 = 0;
    let mut i = start;
    while i < v.len()
        invariant
            v@ == s@,
            d == v@.skip(start as int),
            d == unsigned_digits(s@),
            start <= i <= v@.len(),
            start < v@.len(),
            forall|k: int| 0 <= k < i - start ==> is_digit(#[trigger] d[k]),
            value as int == digits_value(d.take(i - start)),
            value <= 65535,
        decreases v.len() - i,
    {
        let c = v[i];
        assert(c == d[i - start]);
        if !('0' <= c && c <= '9') {
            assert(!is_digit(d[i - start]));
            assert(!(forall|k: int| 0 <= k < d.len() ==> is_digit(#[trigger] d[k])));
            return None;
        }
        proof {
            lemma_digits_value_step(d, i - start);
        }
        let next: u32 = value * 10 + ((c as u32) - 48);
        assert(next as int == digits_value(d.take(i - start + 1)));
        if next > 65535 {
            proof {
                assert forall|k: int| 0 <= k < i - start + 1 implies is_digit(#[trigger] d[k]) by {}
                if forall|k: int| 0 <= k < d.len() ==> is_digit(#[trigger] d[k]) {
                    lemma_digits_value_grows(d, i - start + 1, d.len() as int);
                    assert(d.take(d.len() as int) =~= d);
                    assert(digits_value(d) > 65535);
                }
            }
            return None;
        }
        value = next;
        i = i + 1;
    }
    assert(d.take(d.len() as int) =~= d);
    Some(value as u16)
}

/// The texts of `parts` with `sep` between consecutive ones.
pub open spec fn join_with(parts: Seq<Seq<char>>, sep: Seq<char>) -> Seq<char>
    decreases parts.len(),
{
    if parts.len() == 0 {
        Seq::empty()
    } else if parts.len() == 1 {
        parts[0]
    } else {
        join_with(parts.drop_last(), sep) + sep + parts.last()
    }
}

/// The texts of `parts` with `sep` between consecutive ones (`[String]::join`).
pub fn join_strings(parts: &Vec<String>, sep: &str) -> (r: String)
    ensures
        r@ == join_with(parts@.map_values(|s: String| s@), sep@),
{
    let ghost pv = parts@.map_values(|s: String| s@);
    let mut r = String::new();
    for i in 0..parts.len()
        invariant
            pv == parts@.map_values(|s: String| s@),
            r@ == join_with(pv.take(i as int), sep@),
    {
        proof {
            assert(pv.take(i + 1).drop_last() =~= pv.take(i as int));
            assert(pv.take(i + 1).last() == parts@[i as int]@);
        }
        if i > 0 {
            push_str(&mut r, sep);
        } else {
            assert(r@ =~= Seq::<char>::empty());
        }
        push_str(&mut r, parts[i].as_str());
        assert(r@ =~= join_with(pv.take(i + 1), sep@));
    }
    assert(pv.take(parts.len() as int) =~= pv);
    r
}

pub(crate) proof fn lemma_decimal_digits(n: nat)
    ensures
        decimal(n).len() > 0,
        forall|i: int| 0 <= i < decimal(n).len() ==> is_digit(#[trigger] decimal(n)[i]),
        digits_value(decimal(n)) == n,
    decreases n,
{
    if n < 10 {
        assert(decimal(n).drop_last() =~= Seq::<char>::empty());
        assert(is_digit(digit_char(n as int)));
        assert((digit_char(n as int) as int) == 48 + n);
        assert(digits_value(Seq::<char>::empty()) == 0);
        assert(decimal(n).last() == digit_char(n as int));
        assert(digits_value(decimal(n)) == digits_value(decimal(n).drop_last()) * 10 + n);
    } else {
        lemma_decimal_digits(n / 10);
        let d = decimal(n);
        assert(d.drop_last() =~= decimal(n / 10));
        assert(is_digit(digit_char((n % 10) as int)));
        assert forall|i: int| 0 <= i < d.len() implies is_digit(#[trigger] d[i]) by {
            if i < d.len() - 1 {
                assert(d[i] == decimal(n / 10)[i]);
            }
        }
        assert((digit_char((n % 10) as int) as int) == 48 + n % 10);
        assert(digits_value(d) == digits_value(decimal(n / 10)) * 10 + (n % 10));
        assert(n == (n / 10) * 10 + n % 10);
    }
}

/// Port-number law: the decimal text of any `u16` parses back to it.
pub proof fn lemma_parse_decimal_u16(n: u16)
    ensures
        parsed_u16(decimal(n as nat)) == Some(n),
{
    lemma_decimal_digits(n as nat);
    let d = decimal(n as nat);
    assert(is_digit(d[0]));
    assert(unsigned_digits(d) == d);
}

} // verus!
