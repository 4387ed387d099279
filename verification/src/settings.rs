//! How far is seen, and the file that says so.

pub mod reading;

use vstd::prelude::*;

verus! {

/// How far is seen, in bands around the player.
#[derive(Clone, Copy, Debug, PartialEq, Eq, Structural)]
pub struct Settings {
    /// Width of the band in full detail.
    pub lod0: i32,
    /// Width of the band after that.
    pub lod1: i32,
    /// Width of the outermost band.
    pub lod2: i32,
}

impl Settings {
    /// How far is seen in all.
    pub fn render_distance(&self) -> (r: i32)
        requires
            i32::MIN <= self.lod0 + self.lod1 <= i32::MAX,
            i32::MIN <= self.lod0 + self.lod1 + self.lod2 <= i32::MAX,
        ensures
            r == self.lod0 + self.lod1 + self.lod2,
    {
        self.lod0 + self.lod1 + self.lod2
    }

    /// Where the second band begins.
    pub fn lod1_dist(&self) -> (r: i32)
        ensures
            r == self.lod0,
    {
        self.lod0
    }

    /// Where the outermost band begins.
    pub fn lod2_dist(&self) -> (r: i32)
        requires
            i32::MIN <= self.lod0 + self.lod1 <= i32::MAX,
        ensures
            r == self.lod0 + self.lod1,
    {
        self.lod0 + self.lod1
    }
}

/// The settings that hold where the file says nothing else.
pub open spec fn default_settings() -> Settings {
    Settings { lod0: 20, lod1: 60, lod2: 0 }
}

impl Default for Settings {
    fn default() -> (r: Settings)
        ensures
            r == default_settings(),
    {
        Settings { lod0: 20, lod1: 60, lod2: 0 }
    }
}

// ── What the file says ───────────────────────────────────────────────────────

/// White space, as Unicode has it.
pub open spec fn is_space(c: char) -> bool {
    let n = c as u32;
    (9 <= n && n <= 13) || n == 0x20 || n == 0x85 || n == 0xa0 || n == 0x1680 || (0x2000 <= n && n
        <= 0x200a) || n == 0x2028 || n == 0x2029 || n == 0x202f || n == 0x205f || n == 0x3000
}

pub open spec fn is_digit(c: char) -> bool {
    '0' <= c && c <= '9'
}

/// Where a character comes first in a text, from place `i` on; its length if it does not.
pub open spec fn find(s: Seq<char>, c: char, i: int) -> int
    decreases s.len() - i,
{
    if i >= s.len() || s[i] == c {
        i
    } else {
        find(s, c, i + 1)
    }
}

/// Where the text begins that comes after white space, from place `i` on.
pub open spec fn skip_space(s: Seq<char>, i: int) -> int
    decreases s.len() - i,
{
    if i < s.len() && is_space(s[i]) {
        skip_space(s, i + 1)
    } else {
        i
    }
}

/// Where the text ends that comes before white space and ends before place `j`, but not before
/// place `i`.
pub open spec fn drop_space(s: Seq<char>, i: int, j: int) -> int
    decreases j - i,
{
    if i < j && is_space(s[j - 1]) {
        drop_space(s, i, j - 1)
    } else {
        j
    }
}

/// A text without the white space around it.
pub open spec fn trimmed(s: Seq<char>) -> Seq<char> {
    let i = skip_space(s, 0);
    s.subrange(i, drop_space(s, i, s.len() as int))
}

/// The number that a row of digits stands for.
pub open spec fn digits_value(s: Seq<char>) -> int
    decreases s.len(),
{
    if s.len() == 0 {
        0
    } else {
        digits_value(s.drop_last()) * 10 + (s.last() as u32 - '0' as u32)
    }
}

pub open spec fn all_digits(s: Seq<char>) -> bool {
    forall|i: int| 0 <= i < s.len() ==> is_digit(#[trigger] s[i])
}

/// A text has a sign in front.
pub open spec fn has_sign(s: Seq<char>) -> bool {
    s.len() > 0 && (s[0] == '-' || s[0] == '+')
}

/// The digits behind the sign, if there is one.
pub open spec fn unsigned(s: Seq<char>) -> Seq<char> {
    if has_sign(s) {
        s.skip(1)
    } else {
        s
    }
}

/// The number that a text stands for: digits, perhaps with a sign in front, if that is an `i32`.
pub open spec fn number(s: Seq<char>) -> Option<i32> {
    let digits = unsigned(s);
    let v = if s.len() > 0 && s[0] == '-' {
        -digits_value(digits)
    } else {
        digits_value(digits)
    };
    if digits.len() > 0 && all_digits(digits) && i32::MIN <= v <= i32::MAX {
        Some(v as i32)
    } else {
        None
    }
}

/// What was read: the settings, and the keys that mean nothing.
#[verifier::ext_equal]
pub struct ReadView {
    pub settings: Settings,
    pub unknown: Seq<Seq<char>>,
}

/// The settings after a key was given a value.
pub open spec fn assigned(r: ReadView, key: Seq<char>, n: i32) -> ReadView {
    if key == "lod0"@ {
        ReadView { settings: Settings { lod0: n, ..r.settings }, ..r }
    } else if key == "lod1"@ {
        ReadView { settings: Settings { lod1: n, ..r.settings }, ..r }
    } else if key == "lod2"@ {
        ReadView { settings: Settings { lod2: n, ..r.settings }, ..r }
    } else {
        ReadView { unknown: r.unknown.push(key), ..r }
    }
}

/// The settings after a line was read. Lines that are empty, a comment, or not of the form
/// `key = number` are passed over.
pub open spec fn read_line(r: ReadView, line: Seq<char>) -> ReadView {
    let s = trimmed(line);
    let eq = find(s, '=', 0);
    if s.len() == 0 || s[0] == '#' || eq >= s.len() {
        r
    } else {
        match number(trimmed(s.skip(eq + 1))) {
            Some(n) => assigned(r, trimmed(s.take(eq)), n),
            None => r,
        }
    }
}

/// The settings after the lines from place `i` on were read.
pub open spec fn read_from(r: ReadView, text: Seq<char>, i: int) -> ReadView
    decreases text.len() - i,
{
    let e = find(text, '\n', i);
    let next = read_line(r, text.subrange(i, e));
    if i < 0 || e < i || e >= text.len() {
        next
    } else {
        read_from(next, text, e + 1)
    }
}

/// What a text says. Later lines replace what earlier lines said.
pub open spec fn read_text(text: Seq<char>) -> ReadView {
    read_from(ReadView { settings: default_settings(), unknown: Seq::empty() }, text, 0)
}

// ── Reading ──────────────────────────────────────────────────────────────────

fn space(c: char) -> (r: bool)
    ensures
        r == is_space(c),
{
    let n: u32 = c as u32;
    (9 <= n && n <= 13) || n == 0x20 || n == 0x85 || n == 0xa0 || n == 0x1680 || (0x2000 <= n && n
        <= 0x200a) || n == 0x2028 || n == 0x2029 || n == 0x202f || n == 0x205f || n == 0x3000
}

fn find_char(s: &Vec<char>, c: char, from: usize) -> (r: usize)
    requires
        from <= s.len(),
    ensures
        r == find(s@, c, from as int),
        from <= r <= s.len(),
{
    let mut i: usize = from;
    while i < s.len() && s[i] != c
        invariant
            from <= i <= s.len(),
            find(s@, c, i as int) == find(s@, c, from as int),
        decreases s.len() - i,
    {
        i = i + 1;
    }
    i
}

/// The characters from place `from` up to place `to`.
fn part(s: &Vec<char>, from: usize, to: usize) -> (r: Vec<char>)
    requires
        from <= to <= s.len(),
    ensures
        r@ == s@.subrange(from as int, to as int),
{
    let mut r: Vec<char> = Vec::new();
    let mut i: usize = from;
    while i < to
        invariant
            from <= i <= to <= s.len(),
            r@ == s@.subrange(from as int, i as int),
        decreases to - i,
    {
        r.push(s[i]);
        assert(r@ =~= s@.subrange(from as int, i + 1));
        i = i + 1;
    }
    r
}

fn trim(s: &Vec<char>) -> (r: Vec<char>)
    ensures
        r@ == trimmed(s@),
{
    let mut i: usize = 0;
    while i < s.len() && space(s[i])
        invariant
            i <= s.len(),
            skip_space(s@, i as int) == skip_space(s@, 0),
        decreases s.len() - i,
    {
        i = i + 1;
    }
    let mut j: usize = s.len();
    while i < j && space(s[j - 1])
        invariant
            i <= j <= s.len(),
            drop_space(s@, i as int, j as int) == drop_space(s@, i as int, s.len() as int),
        decreases j,
    {
        j = j - 1;
    }
    part(s, i, j)
}

proof fn lemma_value_grows(s: Seq<char>, k: int)
    requires
        all_digits(s),
        0 <= k <= s.len(),
    ensures
        0 <= digits_value(s.take(k)) <= digits_value(s),
    decreases s.len(),
{
    if s.len() == 0 || k == s.len() {
        assert(s.take(k) =~= s);
        lemma_value_nonneg(s);
    } else {
        let t = s.drop_last();
        assert(s.take(k) =~= t.take(k));
        lemma_value_grows(t, k);
        assert(is_digit(s[s.len() - 1]));
    }
}

proof fn lemma_value_nonneg(s: Seq<char>)
    requires
        all_digits(s),
    ensures
        0 <= digits_value(s),
    decreases s.len(),
{
    if s.len() > 0 {
        lemma_value_nonneg(s.drop_last());
        assert(is_digit(s[s.len() - 1]));
    }
}

fn parse_number(s: &Vec<char>) -> (r: Option<i32>)
    ensures
        r == number(s@),
{
    let negative = s.len() > 0 && s[0] == '-';
    let signed = s.len() > 0 && (s[0] == '-' || s[0] == '+');
    let start: usize = if signed {
        1
    } else {
        0
    };
    let ghost digits = unsigned(s@);
    assert(digits =~= s@.skip(start as int));
    if start == s.len() {
        return None;
    }
    let mut v: i64 = 0;
    let mut i: usize = start;
    assert(digits.take(0) =~= Seq::empty());
    while i < s.len()
        invariant
            start <= i <= s.len(),
            digits == unsigned(s@),
            digits == s@.skip(start as int),
            start < s.len(),
            negative == (s.len() > 0 && s[0] == '-'),
            0 <= v <= 0x8000_0000,
            v == digits_value(digits.take(i - start)),
            forall|j: int| 0 <= j < i - start ==> is_digit(#[trigger] digits[j]),
        decreases s.len() - i,
    {
        let c = s[i];
        assert(digits[i - start] == c);
        if !('0' <= c && c <= '9') {
            assert(!is_digit(digits[i - start]));
            return None;
        }
        v = v * 10 + (c as u32 - '0' as u32) as i64;
        proof {
            let k = i - start;
            assert(digits.take(k + 1).drop_last() =~= digits.take(k));
            assert(digits.take(k + 1).last() == c);
            assert(v == digits_value(digits.take(k + 1)));
        }
        if v > 0x8000_0000 {
            proof {
                if all_digits(digits) {
                    lemma_value_grows(digits, i - start + 1);
                }
            }
            return None;
        }
        i = i + 1;
    }
    assert(digits.take(i - start) =~= digits);
    if negative {
        Some((-v) as i32)
    } else if v <= 0x7fff_ffff {
        Some(v as i32)
    } else {
        None
    }
}

/// The characters of a text.
fn characters(s: &str) -> (r: Vec<char>)
    ensures
        r@ == s@,
{
    let mut r: Vec<char> = Vec::new();
    for c in it: s.chars()
        invariant
            r@ == it.seq().take(it.index()),
            it.seq() == s@,
    {
        r.push(c);
        assert(r@ =~= it.seq().take(it.index() + 1));
    }
    assert(s@.take(s@.len() as int) =~= s@);
    r
}

fn same(a: &Vec<char>, b: &str) -> (r: bool)
    ensures
        r == (a@ == b@),
{
    let other = characters(b);
    if a.len() != other.len() {
        return false;
    }
    let mut i: usize = 0;
    while i < a.len()
        invariant
            a.len() == other.len(),
            other@ == b@,
            i <= a.len(),
            forall|j: int| 0 <= j < i ==> a[j] == other[j],
        decreases a.len() - i,
    {
        if a[i] != other[i] {
            assert(a@[i as int] != b@[i as int]);
            return false;
        }
        i = i + 1;
    }
    assert(a@ =~= b@);
    true
}

/// What was read from a text: the settings, and the keys that mean nothing.
pub struct Reading {
    pub settings: Settings,
    pub unknown: Vec<Vec<char>>,
}

impl View for Reading {
    type V = ReadView;

    open spec fn view(&self) -> ReadView {
        ReadView {
            settings: self.settings,
            unknown: self.unknown@.map_values(|k: Vec<char>| k@),
        }
    }
}

impl Reading {
    fn read_line(&mut self, line: &Vec<char>)
        ensures
            final(self)@ == read_line(old(self)@, line@),
    {
        let ghost before = self@;
        let s = trim(line);
        if s.len() == 0 || s[0] == '#' {
            return;
        }
        let eq = find_char(&s, '=', 0);
        if eq >= s.len() {
            return;
        }
        let value_part = part(&s, eq + 1, s.len());
        let key_part = part(&s, 0, eq);
        assert(value_part@ =~= s@.skip(eq + 1));
        assert(key_part@ =~= s@.take(eq as int));
        let value = trim(&value_part);
        if let Some(n) = parse_number(&value) {
            let key = trim(&key_part);
            if same(&key, "lod0") {
                self.settings.lod0 = n;
            } else if same(&key, "lod1") {
                self.settings.lod1 = n;
            } else if same(&key, "lod2") {
                self.settings.lod2 = n;
            } else {
                let ghost kv = key@;
                self.unknown.push(key);
                assert(self@.unknown =~= before.unknown.push(kv));
            }
            assert(self@ =~= assigned(before, trimmed(s@.take(eq as int)), n));
        }
    }
}

/// Reads settings from a text.
pub fn parse(text: &str) -> (r: Reading)
    ensures
        r@ == read_text(text@),
{
    let chars = characters(text);
    let mut r = Reading { settings: Settings::default(), unknown: Vec::new() };
    assert(r@ =~= (ReadView { settings: default_settings(), unknown: Seq::empty() }));
    let mut i: usize = 0;
    loop
        invariant
            chars@ == text@,
            i <= chars.len(),
            read_from(r@, text@, i as int) == read_text(text@),
        decreases chars.len() - i,
    {
        let e = find_char(&chars, '\n', i);
        let line = part(&chars, i, e);
        r.read_line(&line);
        if e >= chars.len() {
            return r;
        }
        i = e + 1;
    }
}

// ── Writing ──────────────────────────────────────────────────────────────────

pub open spec fn digit_char(d: int) -> char {
    if d == 0 {
        '0'
    } else if d == 1 {
        '1'
    } else if d == 2 {
        '2'
    } else if d == 3 {
        '3'
    } else if d == 4 {
        '4'
    } else if d == 5 {
        '5'
    } else if d == 6 {
        '6'
    } else if d == 7 {
        '7'
    } else if d == 8 {
        '8'
    } else {
        '9'
    }
}

/// The digits of a number.
pub open spec fn digits_of(n: nat) -> Seq<char>
    decreases n,
{
    if n < 10 {
        seq![digit_char(n as int)]
    } else {
        digits_of(n / 10).push(digit_char((n % 10) as int))
    }
}

/// A number as it is written.
pub open spec fn decimal(n: i32) -> Seq<char> {
    if n < 0 {
        seq!['-'] + digits_of((-n) as nat)
    } else {
        digits_of(n as nat)
    }
}

/// A line that gives a key a value.
pub open spec fn setting_line(key: Seq<char>, n: i32) -> Seq<char> {
    key + " = "@ + decimal(n)
}

/// The text that says what the settings are.
pub open spec fn rendered(s: Settings) -> Seq<char> {
    "# YAVE render distance settings"@ + seq!['\n'] + setting_line("lod0"@, s.lod0) + seq!['\n']
        + setting_line("lod1"@, s.lod1) + seq!['\n'] + setting_line("lod2"@, s.lod2) + seq!['\n']
}

fn digit(d: u32) -> (r: char)
    requires
        d < 10,
    ensures
        r == digit_char(d as int),
{
    if d == 0 {
        '0'
    } else if d == 1 {
        '1'
    } else if d == 2 {
        '2'
    } else if d == 3 {
        '3'
    } else if d == 4 {
        '4'
    } else if d == 5 {
        '5'
    } else if d == 6 {
        '6'
    } else if d == 7 {
        '7'
    } else if d == 8 {
        '8'
    } else {
        '9'
    }
}

fn push_digits(out: &mut Vec<char>, n: u32)
    ensures
        final(out)@ == old(out)@ + digits_of(n as nat),
    decreases n,
{
    let ghost before = out@;
    if n >= 10 {
        push_digits(out, n / 10);
    }
    out.push(digit(n % 10));
    assert(out@ =~= before + digits_of(n as nat));
}

fn push_text(out: &mut Vec<char>, s: &str)
    ensures
        final(out)@ == old(out)@ + s@,
{
    let mut more = characters(s);
    out.append(&mut more);
}

fn push_line(out: &mut Vec<char>, key: &str, n: i32)
    ensures
        final(out)@ == old(out)@ + setting_line(key@, n) + seq!['\n'],
{
    let ghost before = out@;
    push_text(out, key);
    push_text(out, " = ");
    if n < 0 {
        out.push('-');
        push_digits(out, (-(n as i64)) as u32);
    } else {
        push_digits(out, n as u32);
    }
    out.push('\n');
    assert(out@ =~= before + setting_line(key@, n) + seq!['\n']);
}

/// The text that says what the settings are.
pub fn render(s: &Settings) -> (r: Vec<char>)
    ensures
        r@ == rendered(*s),
{
    let mut out: Vec<char> = Vec::new();
    push_text(&mut out, "# YAVE render distance settings");
    out.push('\n');
    push_line(&mut out, "lod0", s.lod0);
    push_line(&mut out, "lod1", s.lod1);
    push_line(&mut out, "lod2", s.lod2);
    assert(out@ =~= rendered(*s));
    out
}

// ── What was written is read back ────────────────────────────────────────────

proof fn lemma_find_at(s: Seq<char>, c: char, i: int, k: int)
    requires
        0 <= i <= k < s.len(),
        s[k] == c,
        forall|j: int| i <= j < k ==> s[j] != c,
    ensures
        find(s, c, i) == k,
    decreases k - i,
{
    if i < k {
        lemma_find_at(s, c, i + 1, k);
    }
}

/// A text that neither begins nor ends with white space is not trimmed.
proof fn lemma_trimmed_same(s: Seq<char>)
    requires
        s.len() > 0,
        !is_space(s[0]),
        !is_space(s.last()),
    ensures
        trimmed(s) == s,
{
    assert(trimmed(s) =~= s);
}

proof fn lemma_digits(n: nat)
    ensures
        digits_of(n).len() > 0,
        all_digits(digits_of(n)),
        digits_value(digits_of(n)) == n,
    decreases n,
{
    if n < 10 {
        assert(digits_of(n).drop_last() =~= Seq::empty());
        assert(digits_value(Seq::<char>::empty()) == 0);
    } else {
        lemma_digits(n / 10);
        let t = digits_of(n / 10);
        assert(digits_of(n).drop_last() =~= t);
        assert forall|i: int| 0 <= i < digits_of(n).len() implies is_digit(
            #[trigger] digits_of(n)[i],
        ) by {
            if i < t.len() {
                assert(is_digit(t[i]));
            }
        }
    }
}

/// A number is read back as it was written.
pub proof fn lemma_decimal(n: i32)
    ensures
        number(decimal(n)) == Some(n),
        decimal(n).len() > 0,
        forall|i: int|
            0 <= i < decimal(n).len() ==> is_digit(#[trigger] decimal(n)[i]) || decimal(n)[i]
                == '-',
{
    if n < 0 {
        let d = digits_of((-n) as nat);
        lemma_digits((-n) as nat);
        assert(decimal(n)[0] == '-');
        assert(unsigned(decimal(n)) =~= d);
        assert forall|i: int| 0 <= i < decimal(n).len() implies is_digit(
            #[trigger] decimal(n)[i],
        ) || decimal(n)[i] == '-' by {
            if i > 0 {
                assert(decimal(n)[i] == d[i - 1]);
                assert(is_digit(d[i - 1]));
            }
        }
    } else {
        lemma_digits(n as nat);
        assert(is_digit(decimal(n)[0]));
        assert(unsigned(decimal(n)) =~= decimal(n));
    }
}

/// A line that was written gives its key its value.
proof fn lemma_setting_line(r: ReadView, key: Seq<char>, n: i32)
    requires
        key.len() > 0,
        key[0] != '#',
        forall|i: int|
            0 <= i < key.len() ==> !is_space(#[trigger] key[i]) && key[i] != '=' && key[i] != '\n',
    ensures
        read_line(r, setting_line(key, n)) == assigned(r, key, n),
        forall|i: int|
            0 <= i < setting_line(key, n).len() ==> #[trigger] setting_line(key, n)[i] != '\n',
{
    reveal_strlit(" = ");
    lemma_decimal(n);
    let d = decimal(n);
    let line = setting_line(key, n);
    let k = key.len() as int;
    assert(line.len() == k + 3 + d.len());
    assert forall|i: int| 0 <= i < line.len() implies #[trigger] line[i] == (if i < k {
        key[i]
    } else if i == k {
        ' '
    } else if i == k + 1 {
        '='
    } else if i == k + 2 {
        ' '
    } else {
        d[i - k - 3]
    }) by {}
    assert(line[0] == key[0]);
    assert(line.last() == d[d.len() - 1]);
    assert(is_digit(d[d.len() - 1]) || d[d.len() - 1] == '-');
    lemma_trimmed_same(line);
    lemma_find_at(line, '=', 0, k + 1);
    let kp = line.take(k + 1);
    assert(trimmed(kp) =~= key) by {
        assert(kp[0] == key[0]);
        assert(skip_space(kp, 0) == 0);
        assert(kp[k] == ' ');
        assert(kp[k - 1] == key[k - 1]);
        assert(drop_space(kp, 0, k) == k);
        assert(drop_space(kp, 0, k + 1) == k);
    }
    let vp = line.skip(k + 2);
    assert(trimmed(vp) =~= d) by {
        assert(vp.len() == d.len() + 1);
        assert(vp[0] == ' ');
        assert(vp[1] == d[0]);
        assert(is_digit(d[0]) || d[0] == '-');
        assert(skip_space(vp, 1) == 1);
        assert(skip_space(vp, 0) == 1);
        assert(vp.last() == d[d.len() - 1]);
        assert(drop_space(vp, 1, vp.len() as int) == vp.len());
    }
}

/// A line of a text is read before the lines behind it.
proof fn lemma_read_one(r: ReadView, text: Seq<char>, i: int, line: Seq<char>)
    requires
        0 <= i,
        i + line.len() < text.len(),
        text.subrange(i, i + line.len()) == line,
        text[i + line.len()] == '\n',
        forall|j: int| 0 <= j < line.len() ==> #[trigger] line[j] != '\n',
    ensures
        read_from(r, text, i) == read_from(read_line(r, line), text, i + line.len() + 1),
{
    assert forall|j: int| i <= j < i + line.len() implies text[j] != '\n' by {
        assert(text[j] == line[j - i]);
    }
    lemma_find_at(text, '\n', i, i + line.len());
}

/// The settings that were written are read back.
pub proof fn law_read_rendered(s: Settings)
    ensures
        read_text(rendered(s)) == (ReadView { settings: s, unknown: Seq::empty() }),
{
    reveal_strlit("# YAVE render distance settings");
    reveal_strlit("lod0");
    reveal_strlit("lod1");
    reveal_strlit("lod2");
    let text = rendered(s);
    let head = "# YAVE render distance settings"@;
    let l0 = setting_line("lod0"@, s.lod0);
    let l1 = setting_line("lod1"@, s.lod1);
    let l2 = setting_line("lod2"@, s.lod2);
    let r0 = ReadView { settings: default_settings(), unknown: Seq::empty() };
    let i1: int = head.len() + 1int;
    let i2: int = i1 + l0.len() + 1;
    let i3: int = i2 + l1.len() + 1;
    let i4: int = i3 + l2.len() + 1;
    assert(text.len() == i4);
    lemma_setting_line(r0, "lod0"@, s.lod0);
    let r1 = assigned(r0, "lod0"@, s.lod0);
    lemma_setting_line(r1, "lod1"@, s.lod1);
    let r2 = assigned(r1, "lod1"@, s.lod1);
    lemma_setting_line(r2, "lod2"@, s.lod2);
    let r3 = assigned(r2, "lod2"@, s.lod2);
    // The comment.
    assert forall|j: int| 0 <= j < head.len() implies #[trigger] head[j] != '\n' by {
        lemma_head(j);
    }
    assert(text.subrange(0, head.len() as int) =~= head);
    lemma_read_one(r0, text, 0, head);
    assert(head[0] == '#');
    assert(head.last() == 's');
    lemma_trimmed_same(head);
    assert(read_line(r0, head) == r0);
    // The three settings.
    assert(text.subrange(i1, i1 + l0.len()) =~= l0);
    lemma_read_one(r0, text, i1, l0);
    assert(text.subrange(i2, i2 + l1.len()) =~= l1);
    lemma_read_one(r1, text, i2, l1);
    assert(text.subrange(i3, i3 + l2.len()) =~= l2);
    lemma_read_one(r2, text, i3, l2);
    // Nothing is left.
    let rest = text.subrange(i4, i4);
    assert(rest.len() == 0);
    assert(find(text, '\n', i4) == i4);
    assert(trimmed(rest) =~= Seq::empty());
    assert(read_from(r3, text, i4) == r3);
    assert("lod0"@[3] != "lod1"@[3]);
    assert("lod0"@[3] != "lod2"@[3]);
    assert("lod1"@[3] != "lod2"@[3]);
}

proof fn lemma_head(j: int)
    requires
        0 <= j < "# YAVE render distance settings"@.len(),
    ensures
        "# YAVE render distance settings"@[j] != '\n',
{
    reveal_strlit("# YAVE render distance settings");
    assert("# YAVE render distance settings"@.len() == 31);
    if j < 8 {
        assert(j == 0 || j == 1 || j == 2 || j == 3 || j == 4 || j == 5 || j == 6 || j == 7);
    } else if j < 16 {
        assert(j == 8 || j == 9 || j == 10 || j == 11 || j == 12 || j == 13 || j == 14 || j == 15);
    } else if j < 24 {
        assert(j == 16 || j == 17 || j == 18 || j == 19 || j == 20 || j == 21 || j == 22 || j
            == 23);
    } else {
        assert(j == 24 || j == 25 || j == 26 || j == 27 || j == 28 || j == 29 || j == 30);
    }
}

} // verus!
