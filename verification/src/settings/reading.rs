//! What the lines of the settings file mean.

use super::{
    all_digits, decimal, digits_of, digits_value, drop_space, find, is_digit, is_space,
    lemma_decimal, number, read_from, read_line, read_text, rendered, setting_line, skip_space,
    trimmed, unsigned, ReadView, Settings,
};
use vstd::prelude::*;

verus! {

/// A text of white space only.
pub open spec fn blank(s: Seq<char>) -> bool {
    forall|i: int| 0 <= i < s.len() ==> is_space(#[trigger] s[i])
}

/// A text without white space around it.
pub open spec fn bare(s: Seq<char>) -> bool {
    s.len() > 0 ==> !is_space(s[0]) && !is_space(s.last())
}

/// A text does not hold a character.
pub open spec fn lacks(s: Seq<char>, c: char) -> bool {
    forall|i: int| 0 <= i < s.len() ==> #[trigger] s[i] != c
}

/// White space is what Unicode counts as such.
pub proof fn law_white_space(c: char)
    ensures
        is_space(c) <==> c == ' ' || c == '\t' || c == '\n' || c == '\x0b' || c == '\x0c' || c
            == '\r' || c == '\u{85}' || c == '\u{a0}' || c == '\u{1680}' || '\u{2000}' <= c <= '\u{200a}'
            || c == '\u{2028}' || c == '\u{2029}' || c == '\u{202f}' || c == '\u{205f}' || c
            == '\u{3000}',
{
}

// ── Lines ────────────────────────────────────────────────────────────────────

/// What a text says is what its last line says on top of what the lines before it say, and on top
/// of the defaults where there are none.
pub proof fn law_lines(before: Seq<char>, line: Seq<char>)
    requires
        lacks(line, '\n'),
    ensures
        read_text(line) == read_line(
            ReadView { settings: Settings { lod0: 20, lod1: 60, lod2: 0 }, unknown: Seq::empty() },
            line,
        ),
        read_text(before + seq!['\n'] + line) == read_line(read_text(before), line),
{
    let r = ReadView {
        settings: Settings { lod0: 20, lod1: 60, lod2: 0 },
        unknown: Seq::empty(),
    };
    assert(line.subrange(0, line.len() as int) =~= line);
    lemma_last_line(r, line, 0, line);
    lemma_more_lines(r, before, line, 0);
}

proof fn lemma_found(s: Seq<char>, c: char, i: int)
    requires
        0 <= i <= s.len(),
    ensures
        i <= find(s, c, i) <= s.len(),
        find(s, c, i) < s.len() ==> s[find(s, c, i)] == c,
        forall|j: int| i <= j < find(s, c, i) ==> s[j] != c,
    decreases s.len() - i,
{
    if i < s.len() && s[i] != c {
        lemma_found(s, c, i + 1);
    }
}

proof fn lemma_last_line(r: ReadView, text: Seq<char>, i: int, line: Seq<char>)
    requires
        0 <= i <= text.len(),
        lacks(line, '\n'),
        text.subrange(i, text.len() as int) == line,
    ensures
        read_from(r, text, i) == read_line(r, line),
{
    lemma_found(text, '\n', i);
    let e = find(text, '\n', i);
    if e < text.len() {
        assert(line[e - i] == '\n');
    }
}

proof fn lemma_more_lines(r: ReadView, before: Seq<char>, line: Seq<char>, i: int)
    requires
        0 <= i <= before.len(),
        lacks(line, '\n'),
    ensures
        read_from(r, before + seq!['\n'] + line, i) == read_line(read_from(r, before, i), line),
    decreases before.len() - i,
{
    let text = before + seq!['\n'] + line;
    let n = before.len() as int;
    lemma_found(before, '\n', i);
    lemma_found(text, '\n', i);
    let e = find(before, '\n', i);
    let t = find(text, '\n', i);
    assert(text[n] == '\n');
    assert(text.subrange(n + 1, text.len() as int) =~= line);
    if e < n {
        assert(text[e] == before[e]);
        if t < e {
            assert(text[t] == before[t]);
        }
        assert(t == e);
        assert(text.subrange(i, e) =~= before.subrange(i, e));
        lemma_more_lines(read_line(r, before.subrange(i, e)), before, line, e + 1);
    } else {
        if t < n {
            assert(text[t] == before[t]);
        }
        assert(t == n);
        assert(text.subrange(i, n) =~= before.subrange(i, n));
        lemma_last_line(read_line(r, before.subrange(i, n)), text, n + 1, line);
    }
}

// ── One line ─────────────────────────────────────────────────────────────────

/// A line that holds a key, an equals sign and a number, with or without white space around them,
/// sets what the key names to the number. Other keys are told back. Where there is no number,
/// nothing happens.
pub proof fn law_line(
    r: ReadView,
    a: Seq<char>,
    key: Seq<char>,
    b: Seq<char>,
    c: Seq<char>,
    value: Seq<char>,
    d: Seq<char>,
)
    requires
        blank(a),
        blank(b),
        blank(c),
        blank(d),
        bare(key),
        bare(value),
        lacks(key, '='),
        key.len() > 0 ==> key[0] != '#',
    ensures
        ({
            let q = read_line(r, a + key + b + seq!['='] + c + value + d);
            let known = key == "lod0"@ || key == "lod1"@ || key == "lod2"@;
            &&& number(value) is None ==> q == r
            &&& number(value) matches Some(n) ==> {
                &&& q.settings.lod0 == if key == "lod0"@ {
                    n
                } else {
                    r.settings.lod0
                }
                &&& q.settings.lod1 == if key == "lod1"@ {
                    n
                } else {
                    r.settings.lod1
                }
                &&& q.settings.lod2 == if key == "lod2"@ {
                    n
                } else {
                    r.settings.lod2
                }
                &&& q.unknown == if known {
                    r.unknown
                } else {
                    r.unknown.push(key)
                }
            }
        }),
{
    let none = Seq::<char>::empty();
    let left = if key.len() == 0 {
        none
    } else {
        key + b
    };
    let right = if value.len() == 0 {
        none
    } else {
        c + value
    };
    let front = if key.len() == 0 {
        a + b
    } else {
        a
    };
    let back = if value.len() == 0 {
        c + d
    } else {
        d
    };
    let s = left + seq!['='] + right;
    let line = a + key + b + seq!['='] + c + value + d;
    assert(line =~= front + s + back);
    assert(blank(front));
    assert(blank(back));
    assert(s[left.len() as int] == '=');
    assert(bare(s)) by {
        if key.len() > 0 {
            assert(s[0] == key[0]);
        }
        if value.len() > 0 {
            assert(s.last() == value.last());
        }
    }
    lemma_trimmed(front, s, back);
    lemma_found(s, '=', 0);
    let eq = find(s, '=', 0);
    if eq < left.len() {
        assert(s[eq] == left[eq]);
        if eq < key.len() {
            assert(left[eq] == key[eq]);
        } else {
            assert(left[eq] == b[eq - key.len()]);
        }
    }
    assert(eq == left.len());
    assert(s.take(eq) =~= left);
    assert(s.skip(eq + 1) =~= right);
    assert(trimmed(left) == key) by {
        if key.len() == 0 {
            lemma_trimmed(none, key, none);
            assert(none + key + none =~= left);
        } else {
            lemma_trimmed(none, key, b);
            assert(none + key + b =~= left);
        }
    }
    assert(trimmed(right) == value) by {
        if value.len() == 0 {
            lemma_trimmed(none, value, none);
            assert(none + value + none =~= right);
        } else {
            lemma_trimmed(c, value, none);
            assert(c + value + none =~= right);
        }
    }
    assert(s[0] != '#') by {
        if key.len() > 0 {
            assert(s[0] == key[0]);
        }
    }
    reveal_strlit("lod0");
    reveal_strlit("lod1");
    reveal_strlit("lod2");
    assert("lod0"@[3] != "lod1"@[3]);
    assert("lod0"@[3] != "lod2"@[3]);
    assert("lod1"@[3] != "lod2"@[3]);
}

/// Blank lines, comments and lines without an equals sign say nothing.
pub proof fn law_passed_over(r: ReadView, a: Seq<char>, line: Seq<char>)
    requires
        blank(a),
    ensures
        read_line(r, a) == r,
        read_line(r, a + seq!['#'] + line) == r,
        lacks(line, '=') ==> read_line(r, line) == r,
{
    let none = Seq::<char>::empty();
    assert(a + none + none =~= a);
    lemma_trimmed(a, none, none);
    let s = a + seq!['#'] + line;
    let n = a.len() as int;
    assert(s[n] == '#');
    assert forall|i: int| 0 <= i < n implies is_space(s[i]) by {
        assert(s[i] == a[i]);
    }
    lemma_skipped(s, 0, n);
    lemma_dropped(s, n, s.len() as int);
    assert(trimmed(s)[0] == '#');
    if lacks(line, '=') {
        let i = skip_space(line, 0);
        lemma_skip_to(line, 0);
        lemma_dropped_to(line, i, line.len() as int);
        let t = trimmed(line);
        lemma_found(t, '=', 0);
        let e = find(t, '=', 0);
        if e < t.len() {
            assert(line[i + e] == '=');
        }
    }
}

proof fn lemma_skip_to(s: Seq<char>, i: int)
    requires
        0 <= i <= s.len(),
    ensures
        i <= skip_space(s, i) <= s.len(),
    decreases s.len() - i,
{
    if i < s.len() && is_space(s[i]) {
        lemma_skip_to(s, i + 1);
    }
}

proof fn lemma_dropped_to(s: Seq<char>, i: int, j: int)
    requires
        0 <= i <= j <= s.len(),
    ensures
        i <= drop_space(s, i, j) <= j,
    decreases j - i,
{
    if i < j && is_space(s[j - 1]) {
        lemma_dropped_to(s, i, j - 1);
    }
}

proof fn lemma_skipped(s: Seq<char>, i: int, n: int)
    requires
        0 <= i <= n <= s.len(),
        forall|j: int| i <= j < n ==> is_space(s[j]),
        n < s.len() ==> !is_space(s[n]),
    ensures
        skip_space(s, i) == n,
    decreases n - i,
{
    if i < n {
        lemma_skipped(s, i + 1, n);
    }
}

proof fn lemma_dropped(s: Seq<char>, i: int, j: int)
    requires
        0 <= i < j <= s.len(),
        !is_space(s[i]),
    ensures
        i < drop_space(s, i, j) <= j,
    decreases j,
{
    if is_space(s[j - 1]) {
        lemma_dropped(s, i, j - 1);
    }
}

proof fn lemma_dropped_at(s: Seq<char>, i: int, j: int, n: int)
    requires
        0 <= i <= n <= j <= s.len(),
        forall|k: int| n <= k < j ==> is_space(s[k]),
        i < n ==> !is_space(s[n - 1]),
    ensures
        drop_space(s, i, j) == n,
    decreases j,
{
    if n < j {
        lemma_dropped_at(s, i, j - 1, n);
    }
}

proof fn lemma_trimmed(a: Seq<char>, m: Seq<char>, b: Seq<char>)
    requires
        blank(a),
        blank(b),
        bare(m),
    ensures
        trimmed(a + m + b) == m,
{
    let s = a + m + b;
    let n = a.len() as int;
    let k = n + m.len();
    assert forall|j: int| 0 <= j < n implies is_space(s[j]) by {
        assert(s[j] == a[j]);
    }
    assert forall|j: int| k <= j < s.len() implies is_space(s[j]) by {
        assert(s[j] == b[j - k]);
    }
    if m.len() > 0 {
        assert(s[n] == m[0]);
        assert(s[k - 1] == m.last());
        lemma_skipped(s, 0, n);
        lemma_dropped_at(s, n, s.len() as int, k);
        assert(s.subrange(n, k) =~= m);
    } else {
        lemma_skipped(s, 0, s.len() as int);
        assert(s.subrange(s.len() as int, s.len() as int) =~= m);
    }
}

// ── Numbers ──────────────────────────────────────────────────────────────────

/// A digit stands for its number. One more digit behind a number makes it ten times as large and
/// adds itself, as long as that fits. A minus sign in front makes it negative, a plus sign changes
/// nothing. Anything else is no number.
pub proof fn law_number(s: Seq<char>, c: char, i: int)
    ensures
        number(Seq::empty()) is None,
        number(seq!['-']) is None,
        number(seq!['+']) is None,
        '0' <= c <= '9' ==> number(seq![c]) == Some((c as u32 - '0' as u32) as i32),
        number(s) matches Some(v) ==> '0' <= c <= '9' ==> {
            let d = c as u32 - '0' as u32;
            let n = if s[0] == '-' {
                10 * v - d
            } else {
                10 * v + d
            };
            number(s.push(c)) == if -0x8000_0000 <= n <= 0x7fff_ffff {
                Some(n as i32)
            } else {
                None
            }
        },
        number(s) matches Some(v) ==> '0' <= s[0] <= '9' ==> number(seq!['-'] + s) == Some((-v) as i32)
            && number(seq!['+'] + s) == Some(v),
        number(s) is Some && 0 <= i < s.len() ==> '0' <= s[i] <= '9' || i == 0 && s.len() > 1 && (
        s[0] == '-' || s[0] == '+'),
{
    let one = seq![c];
    assert(one.drop_last() =~= Seq::empty());
    if is_digit(c) {
        assert(unsigned(one) =~= one);
        assert(all_digits(one));
        assert(digits_value(one.drop_last()) == 0);
        assert(digits_value(one) == c as u32 - '0' as u32);
    }
    assert(unsigned(seq!['-']).len() == 0);
    assert(unsigned(seq!['+']).len() == 0);
    if number(s) is Some {
        let digits = unsigned(s);
        assert(is_digit(digits[0]));
        lemma_value_at_least(digits);
        let m = seq!['-'] + s;
        let p = seq!['+'] + s;
        if is_digit(s[0]) {
            assert(m[0] == '-' && p[0] == '+');
            assert(unsigned(m) =~= s);
            assert(unsigned(p) =~= s);
        }
        if is_digit(c) {
            let more = s.push(c);
            assert(unsigned(more) =~= digits.push(c));
            assert(digits.push(c).drop_last() =~= digits);
            assert(all_digits(digits.push(c)));
        }
        if 0 <= i < s.len() && !is_digit(s[i]) {
            if s[0] == '-' || s[0] == '+' {
                if i > 0 {
                    assert(digits[i - 1] == s[i]);
                }
            } else {
                assert(digits[i] == s[i]);
            }
        }
    }
}

/// A number too large to hold stays so when digits are added, and what is no number does not become
/// one by digits that follow.
pub proof fn law_no_number(s: Seq<char>, c: char)
    requires
        number(s) is None,
        s.len() > 1 || s.len() == 1 && s[0] != '-' && s[0] != '+',
    ensures
        number(s.push(c)) is None,
{
    let digits = unsigned(s);
    let more = s.push(c);
    assert(unsigned(more) =~= digits.push(c));
    assert(digits.push(c).drop_last() =~= digits);
    if all_digits(digits.push(c)) {
        assert forall|i: int| 0 <= i < digits.len() implies is_digit(#[trigger] digits[i]) by {
            assert(digits.push(c)[i] == digits[i]);
        }
        assert(is_digit(digits.push(c)[digits.len() as int]));
        lemma_value_at_least(digits);
    }
}

proof fn lemma_value_at_least(s: Seq<char>)
    requires
        all_digits(s),
    ensures
        digits_value(s) >= 0,
    decreases s.len(),
{
    if s.len() > 0 {
        lemma_value_at_least(s.drop_last());
        assert(is_digit(s[s.len() - 1]));
    }
}

// ── Writing ──────────────────────────────────────────────────────────────────

/// A number is written in decimal digits, with a minus sign in front if it is negative and without
/// needless zeros, and is read back as it was. A setting is its key, an equals sign between two
/// spaces, and the number.
pub proof fn law_written(key: Seq<char>, n: i32, i: int)
    ensures
        number(decimal(n)) == Some(n),
        n < 0 <==> decimal(n)[0] == '-',
        n >= 0 && n != 0 ==> decimal(n)[0] != '0',
        n < 0 ==> decimal(n)[1] != '0',
        n == 0 ==> decimal(n) == seq!['0'],
        0 <= i < decimal(n).len() && (i > 0 || n >= 0) ==> '0' <= decimal(n)[i] <= '9',
        setting_line(key, n) == key + seq![' ', '=', ' '] + decimal(n),
{
    reveal_strlit(" = ");
    assert(" = "@ =~= seq![' ', '=', ' ']);
    lemma_decimal(n);
    let m = if n < 0 {
        (-n) as nat
    } else {
        n as nat
    };
    lemma_leading(m);
    let d = digits_of(m);
    assert(is_digit(d[0]));
    if n < 0 {
        assert(decimal(n)[1] == d[0]);
        if 0 < i < decimal(n).len() {
            assert(decimal(n)[i] == d[i - 1]);
        }
    }
}

proof fn lemma_leading(n: nat)
    ensures
        digits_of(n).len() > 0,
        n > 0 ==> digits_of(n)[0] != '0',
        forall|i: int| 0 <= i < digits_of(n).len() ==> is_digit(#[trigger] digits_of(n)[i]),
    decreases n,
{
    if n >= 10 {
        lemma_leading(n / 10);
        let t = digits_of(n / 10);
        assert(digits_of(n)[0] == t[0]);
        assert forall|i: int| 0 <= i < digits_of(n).len() implies is_digit(
            #[trigger] digits_of(n)[i],
        ) by {
            if i < t.len() {
                assert(digits_of(n)[i] == t[i]);
            }
        }
    }
}

/// The file begins with a comment. The three settings follow, each on a line of its own.
pub proof fn law_rendered(s: Settings)
    ensures
        rendered(s) == "# YAVE render distance settings\nlod0"@ + seq![' ', '=', ' '] + decimal(s.lod0)
            + "\nlod1"@ + seq![' ', '=', ' '] + decimal(s.lod1) + "\nlod2"@ + seq![' ', '=', ' ']
            + decimal(s.lod2) + seq!['\n'],
{
    reveal_strlit(" = ");
    reveal_strlit("# YAVE render distance settings");
    reveal_strlit("# YAVE render distance settings\nlod0");
    reveal_strlit("lod0");
    reveal_strlit("lod1");
    reveal_strlit("lod2");
    reveal_strlit("\nlod1");
    reveal_strlit("\nlod2");
    assert(" = "@ =~= seq![' ', '=', ' ']);
    assert("# YAVE render distance settings\nlod0"@ =~= "# YAVE render distance settings"@ + seq![
        '\n',
    ] + "lod0"@);
    assert("\nlod1"@ =~= seq!['\n'] + "lod1"@);
    assert("\nlod2"@ =~= seq!['\n'] + "lod2"@);
    assert(rendered(s) =~= "# YAVE render distance settings\nlod0"@ + seq![' ', '=', ' '] + decimal(
        s.lod0,
    ) + "\nlod1"@ + seq![' ', '=', ' '] + decimal(s.lod1) + "\nlod2"@ + seq![' ', '=', ' ']
        + decimal(s.lod2) + seq!['\n']);
}

} // verus!
