//! The options of the command line.

use crate::actions::DeleteMode;
use crate::path::FilePath;
use crate::scanner::ScanOptions;
use crate::text::{decimal, digit};
use vstd::prelude::*;
use vstd::string::*;

verus! {

/// The output formats.
#[derive(Clone, Copy, Debug, PartialEq, Eq, Structural)]
pub enum Format {
    Table,
    Tree,
    Json,
}

/// The options of the command line.
#[derive(Debug)]
pub struct Args {
    /// The directory to scan.
    pub path: FilePath,
    /// How many of the largest entries are shown.
    pub top: usize,
    /// Files smaller than this are left out.
    pub min_size: u64,
    /// Whether duplicates are looked for.
    pub dup: bool,
    pub format: Format,
    /// The number of worker threads, if it was given.
    pub threads: Option<usize>,
    /// Whether hidden files are scanned.
    pub hidden: bool,
    /// Whether the interactive interface is started.
    pub tui: bool,
    pub delete_mode: DeleteMode,
}

impl Args {
    /// The number of worker threads: as given, else as many as the machine runs at a time, else
    /// one.
    pub fn worker_threads(&self, available: Option<usize>) -> (threads: usize)
        ensures
            threads == match (self.threads, available) {
                (Some(n), _) => n,
                (None, Some(n)) => n,
                (None, None) => 1,
            },
    {
        match self.threads {
            Some(n) => n,
            None => match available {
                Some(n) => n,
                None => 1,
            },
        }
    }

    /// What these options say of a scan on this many threads.
    pub fn scan_options(&self, threads: usize) -> (options: ScanOptions)
        ensures
            options == (ScanOptions {
                threads,
                min_size: self.min_size,
                include_hidden: self.hidden,
            }),
    {
        ScanOptions { threads, min_size: self.min_size, include_hidden: self.hidden }
    }
}

/// Whether a character is white space, as Unicode has it.
pub open spec fn is_space(c: char) -> bool {
    let n = c as u32;
    9 <= n <= 13 || n == 32 || n == 0x85 || n == 0xA0 || n == 0x1680 || 0x2000 <= n <= 0x200A || n
        == 0x2028 || n == 0x2029 || n == 0x202F || n == 0x205F || n == 0x3000
}

/// Whether a character is an ASCII digit.
pub open spec fn is_digit(c: char) -> bool {
    '0' <= c <= '9'
}

/// A character with an ASCII letter made upper case.
pub open spec fn upper(c: char) -> char {
    if 'a' <= c <= 'z' {
        (c as u32 - 32) as char
    } else {
        c
    }
}

/// Text without the white space at its start.
pub open spec fn trimmed_start(s: Seq<char>) -> Seq<char>
    decreases s.len(),
{
    if s.len() > 0 && is_space(s.first()) {
        trimmed_start(s.drop_first())
    } else {
        s
    }
}

/// Text without the white space at its end.
pub open spec fn trimmed_end(s: Seq<char>) -> Seq<char>
    decreases s.len(),
{
    if s.len() > 0 && is_space(s.last()) {
        trimmed_end(s.drop_last())
    } else {
        s
    }
}

/// Text without the white space around it.
pub open spec fn trimmed(s: Seq<char>) -> Seq<char> {
    trimmed_end(trimmed_start(s))
}

/// How many digits text starts with.
pub open spec fn leading_digits(s: Seq<char>) -> nat
    decreases s.len(),
{
    if s.len() > 0 && is_digit(s.first()) {
        1 + leading_digits(s.drop_first())
    } else {
        0
    }
}

/// The number that digits write.
pub open spec fn number(digits: Seq<char>) -> nat
    decreases digits.len(),
{
    if digits.len() == 0 {
        0
    } else {
        number(digits.drop_last()) * 10 + (digits.last() as nat - 48) as nat
    }
}

/// Letters in upper case without a `B` at their end.
pub open spec fn unit_letters(suffix: Seq<char>) -> Seq<char> {
    let letters = trimmed(suffix).map_values(|c: char| upper(c));
    if letters.len() > 0 && letters.last() == 'B' {
        letters.drop_last()
    } else {
        letters
    }
}

/// How many bytes a unit has.
pub open spec fn unit_bytes(suffix: Seq<char>) -> Option<nat> {
    let letters = unit_letters(suffix);
    if letters == Seq::<char>::empty() {
        Some(1)
    } else if letters == seq!['K'] {
        Some(1024)
    } else if letters == seq!['M'] {
        Some(1024 * 1024)
    } else if letters == seq!['G'] {
        Some(1024 * 1024 * 1024)
    } else if letters == seq!['T'] {
        Some(1024 * 1024 * 1024 * 1024)
    } else {
        None
    }
}

/// The size that text stands for, or what is wrong with it.
pub open spec fn parsed_size(s: Seq<char>) -> Result<u64, Seq<char>> {
    let t = trimmed(s);
    let n = leading_digits(t) as int;
    let num = number(t.take(n));
    if t.len() == 0 {
        Err("大小不能为空"@)
    } else if n == 0 || num > u64::MAX {
        Err("无效的大小: "@ + t)
    } else {
        match unit_bytes(t.skip(n)) {
            None => Err("未知的大小单位: "@ + t),
            Some(unit) => if num * unit > u64::MAX {
                Err("大小溢出: "@ + t)
            } else {
                Ok((num * unit) as u64)
            },
        }
    }
}

fn space(c: char) -> (r: bool)
    ensures
        r == is_space(c),
{
    let n: u32 = c as u32;
    (9 <= n && n <= 13) || n == 32 || n == 0x85 || n == 0xA0 || n == 0x1680 || (0x2000 <= n && n
        <= 0x200A) || n == 0x2028 || n == 0x2029 || n == 0x202F || n == 0x205F || n == 0x3000
}

fn to_upper(c: char) -> (u: char)
    ensures
        u == upper(c),
{
    if 'a' <= c && c <= 'z' {
        ((c as u32 - 32) as u8) as char
    } else {
        c
    }
}

fn chars_of(s: &str) -> (chars: Vec<char>)
    ensures
        chars@ == s@,
{
    let mut chars: Vec<char> = Vec::new();
    let n = s.unicode_len();
    for i in 0..n
        invariant
            n == s@.len(),
            chars@ == s@.take(i as int),
    {
        chars.push(s.get_char(i));
        assert(chars@ =~= s@.take(i + 1));
    }
    assert(s@.take(n as int) =~= s@);
    chars
}

proof fn lemma_trimmed_start(s: Seq<char>, i: int)
    requires
        0 <= i <= s.len(),
        forall|k: int| 0 <= k < i ==> is_space(#[trigger] s[k]),
    ensures
        trimmed_start(s) == trimmed_start(s.skip(i)),
    decreases i,
{
    if i > 0 {
        assert(is_space(s[0]));
        let rest = s.drop_first();
        assert forall|k: int| 0 <= k < i - 1 implies is_space(#[trigger] rest[k]) by {
            assert(is_space(s[k + 1]));
        }
        lemma_trimmed_start(rest, i - 1);
        assert(rest.skip(i - 1) =~= s.skip(i));
    } else {
        assert(s.skip(0) =~= s);
    }
}

proof fn lemma_trimmed_end(s: Seq<char>, j: int)
    requires
        0 <= j <= s.len(),
        forall|k: int| j <= k < s.len() ==> is_space(#[trigger] s[k]),
    ensures
        trimmed_end(s) == trimmed_end(s.take(j)),
    decreases s.len() - j,
{
    if j < s.len() {
        let rest = s.drop_last();
        assert forall|k: int| j <= k < rest.len() implies is_space(#[trigger] rest[k]) by {
            assert(is_space(s[k]));
        }
        lemma_trimmed_end(rest, j);
        assert(rest.take(j) =~= s.take(j));
    } else {
        assert(s.take(j) =~= s);
    }
}

/// The range of text that is left when the white space around it is taken away.
fn trim_range(chars: &Vec<char>, from: usize) -> (range: (usize, usize))
    requires
        from <= chars@.len(),
    ensures
        from <= range.0 <= range.1 <= chars@.len(),
        trimmed(chars@.skip(from as int)) == chars@.subrange(range.0 as int, range.1 as int),
{
    let ghost s = chars@.skip(from as int);
    let mut i: usize = from;
    while i < chars.len() && space(chars[i])
        invariant
            from <= i <= chars@.len(),
            forall|k: int| from <= k < i ==> is_space(#[trigger] chars@[k]),
        decreases chars@.len() - i,
    {
        i += 1;
    }
    let ghost t = chars@.skip(i as int);
    proof {
        assert forall|k: int| 0 <= k < i - from implies is_space(#[trigger] s[k]) by {
            assert(is_space(chars@[from + k]));
        }
        lemma_trimmed_start(s, i - from);
        assert(s.skip(i - from) =~= t);
        assert(trimmed_start(t) == t);
    }
    let mut j: usize = chars.len();
    while j > i && space(chars[j - 1])
        invariant
            i <= j <= chars@.len(),
            forall|k: int| j <= k < chars@.len() ==> is_space(#[trigger] chars@[k]),
        decreases j,
    {
        j -= 1;
    }
    proof {
        assert forall|k: int| j - i <= k < t.len() implies is_space(#[trigger] t[k]) by {
            assert(is_space(chars@[i + k]));
        }
        lemma_trimmed_end(t, j - i);
        assert(t.take(j - i) =~= chars@.subrange(i as int, j as int));
        let left = t.take(j - i);
        if left.len() > 0 {
            assert(left.last() == chars@[j - 1]);
        }
        assert(trimmed_end(left) == left);
    }
    (i, j)
}

/// How many digits a range of text starts with, and the number that they write, if it fits.
fn scan_number(chars: &Vec<char>, from: usize, to: usize) -> (scanned: (usize, Option<u64>))
    requires
        from <= to <= chars@.len(),
    ensures
        from <= scanned.0 <= to,
        scanned.0 - from == leading_digits(chars@.subrange(from as int, to as int)),
        scanned.1 == {
            let num = number(chars@.subrange(from as int, scanned.0 as int));
            if num <= u64::MAX {
                Some(num as u64)
            } else {
                None
            }
        },
{
    let ghost t = chars@.subrange(from as int, to as int);
    let mut i: usize = from;
    let mut num: Option<u64> = Some(0);
    assert(t.skip(0) =~= t);
    assert(chars@.subrange(from as int, from as int) =~= Seq::<char>::empty());
    while i < to && '0' <= chars[i] && chars[i] <= '9'
        invariant
            from <= i <= to <= chars@.len(),
            t == chars@.subrange(from as int, to as int),
            leading_digits(t) == i - from + leading_digits(t.skip(i - from)),
            num == {
                let n = number(chars@.subrange(from as int, i as int));
                if n <= u64::MAX {
                    Some(n as u64)
                } else {
                    None
                }
            },
        decreases to - i,
    {
        let d = chars[i] as u32 - 48;
        proof {
            assert(t.skip(i - from).drop_first() =~= t.skip(i - from + 1));
            assert(t.skip(i - from).first() == chars@[i as int]);
            let now = chars@.subrange(from as int, i + 1);
            assert(now.drop_last() =~= chars@.subrange(from as int, i as int));
            assert(now.last() == chars@[i as int]);
        }
        num = match num {
            Some(n) => if n <= (u64::MAX - d as u64) / 10 {
                Some(n * 10 + d as u64)
            } else {
                None
            },
            None => None,
        };
        i += 1;
    }
    proof {
        let rest = t.skip(i - from);
        if rest.len() > 0 {
            assert(rest.first() == chars@[i as int]);
        }
    }
    (i, num)
}

/// How many bytes the unit in a range of text has.
fn scan_unit(chars: &Vec<char>, from: usize, to: usize) -> (unit: Option<u64>)
    requires
        from <= to <= chars@.len(),
    ensures
        unit_bytes(chars@.subrange(from as int, to as int)) == match unit {
            Some(n) => Some(n as nat),
            None => None,
        },
        unit is Some ==> unit->0 >= 1,
{
    let mut suffix: Vec<char> = Vec::new();
    let ghost text = chars@.subrange(from as int, to as int);
    for i in from..to
        invariant
            from <= to <= chars@.len(),
            text == chars@.subrange(from as int, to as int),
            suffix@ == text.take(i - from),
    {
        suffix.push(chars[i]);
        assert(suffix@ =~= text.take(i - from + 1));
    }
    assert(text.take(text.len() as int) =~= text);
    let (start, end) = trim_range(&suffix, 0);
    assert(suffix@.skip(0) =~= suffix@);
    let ghost letters = trimmed(text).map_values(|c: char| upper(c));
    let mut stop = end;
    if stop > start && to_upper(suffix[stop - 1]) == 'B' {
        stop -= 1;
    }
    let ghost unit = unit_letters(text);
    proof {
        if end > start {
            assert(letters.last() == upper(suffix@[end - 1]));
        }
        assert(unit.len() == stop - start);
        assert(forall|k: int| 0 <= k < unit.len() ==> unit[k] == upper(suffix@[start + k]));
    }
    if stop == start {
        assert(unit =~= Seq::<char>::empty());
        return Some(1);
    }
    if stop - start != 1 {
        return None;
    }
    let letter = to_upper(suffix[start]);
    assert(unit =~= seq![letter]);
    proof {
        assert(unit[0] == letter);
        assert(seq!['K'][0] == 'K' && seq!['M'][0] == 'M' && seq!['G'][0] == 'G' && seq!['T'][0]
            == 'T');
    }
    match letter {
        'K' => Some(1024),
        'M' => Some(1024 * 1024),
        'G' => Some(1024 * 1024 * 1024),
        'T' => Some(1024 * 1024 * 1024 * 1024),
        _ => None,
    }
}

fn complaint(what: &str, text: &str) -> (message: String)
    ensures
        message@ == what@ + text@,
{
    let mut message = what.to_string();
    message.append(text);
    message
}

/// Reads a size such as `500K` or `1M` as a number of bytes.
///
/// A plain number is in bytes. `K`, `M`, `G` and `T` are powers of 1024, in upper or lower case,
/// with or without a `B` behind them.
pub fn parse_size(s: &str) -> (size: Result<u64, String>)
    ensures
        size matches Ok(n) ==> parsed_size(s@) == Ok::<u64, Seq<char>>(n),
        size matches Err(message) ==> parsed_size(s@) == Err::<u64, Seq<char>>(message@),
{
    let chars = chars_of(s);
    let (from, to) = trim_range(&chars, 0);
    let ghost t = trimmed(s@);
    assert(chars@.skip(0) =~= chars@);
    if from == to {
        return Err("大小不能为空".to_string());
    }
    let text = s.substring_char(from, to);
    let (end, num) = scan_number(&chars, from, to);
    proof {
        assert(t.take(end - from) =~= chars@.subrange(from as int, end as int));
        assert(t.skip(end - from) =~= chars@.subrange(end as int, to as int));
    }
    if end == from {
        return Err(complaint("无效的大小: ", text));
    }
    match num {
        None => Err(complaint("无效的大小: ", text)),
        Some(num) => match scan_unit(&chars, end, to) {
            None => Err(complaint("未知的大小单位: ", text)),
            Some(unit) => match num.checked_mul(unit) {
                None => Err(complaint("大小溢出: ", text)),
                Some(size) => Ok(size),
            },
        },
    }
}

proof fn lemma_decimal_digits(n: nat)
    ensures
        decimal(n).len() > 0,
        forall|i: int| 0 <= i < decimal(n).len() ==> is_digit(#[trigger] decimal(n)[i]),
        number(decimal(n)) == n,
    decreases n,
{
    reveal_with_fuel(number, 2);
    let text = decimal(n);
    if n < 10 {
        assert(text.drop_last() =~= Seq::<char>::empty());
    } else {
        lemma_decimal_digits(n / 10);
        assert(text.drop_last() =~= decimal(n / 10));
        assert(text.last() == digit(n % 10));
        assert forall|i: int| 0 <= i < text.len() implies is_digit(#[trigger] text[i]) by {
            if i < text.len() - 1 {
                assert(is_digit(decimal(n / 10)[i]));
            }
        }
    }
}

proof fn lemma_leading_digits(digits: Seq<char>, rest: Seq<char>)
    requires
        forall|i: int| 0 <= i < digits.len() ==> is_digit(#[trigger] digits[i]),
        rest.len() > 0 ==> !is_digit(rest.first()),
    ensures
        leading_digits(digits + rest) == digits.len(),
    decreases digits.len(),
{
    let all = digits + rest;
    if digits.len() > 0 {
        assert(is_digit(digits[0]));
        let fewer = digits.drop_first();
        assert forall|i: int| 0 <= i < fewer.len() implies is_digit(#[trigger] fewer[i]) by {
            assert(is_digit(digits[i + 1]));
        }
        lemma_leading_digits(fewer, rest);
        assert(all.drop_first() =~= fewer + rest);
    } else {
        assert(all =~= rest);
    }
}

/// A number with a unit behind it is that many units, or an error where this is too large.
pub proof fn law_unit_scales(n: u64, suffix: Seq<char>)
    requires
        unit_bytes(suffix) is Some,
        suffix.len() > 0 ==> !is_digit(suffix.first()) && !is_space(suffix.last()),
    ensures
        parsed_size(decimal(n as nat) + suffix) == if n * unit_bytes(suffix)->0 <= u64::MAX {
            Ok::<u64, Seq<char>>((n * unit_bytes(suffix)->0) as u64)
        } else {
            Err::<u64, Seq<char>>("大小溢出: "@ + (decimal(n as nat) + suffix))
        },
{
    let digits = decimal(n as nat);
    let all = digits + suffix;
    lemma_decimal_digits(n as nat);
    lemma_leading_digits(digits, suffix);
    assert(is_digit(digits[0]) && is_digit(digits[digits.len() - 1]));
    assert(all.first() == digits[0]);
    if suffix.len() > 0 {
        assert(all.last() == suffix.last());
    } else {
        assert(all.last() == digits[digits.len() - 1]);
    }
    assert(trimmed(all) == all);
    assert(all.take(digits.len() as int) =~= digits);
    assert(all.skip(digits.len() as int) =~= suffix);
}

/// A number alone is a number of bytes: every size is read back from its digits.
pub proof fn law_plain_number(n: u64)
    ensures
        parsed_size(decimal(n as nat)) == Ok::<u64, Seq<char>>(n),
{
    let none = Seq::<char>::empty();
    assert(trimmed(none) =~= none);
    assert(trimmed(none).map_values(|c: char| upper(c)) =~= none);
    assert(unit_letters(none) =~= none);
    law_unit_scales(n, none);
    assert(decimal(n as nat) + none =~= decimal(n as nat));
}

/// White space around a size makes no difference.
pub proof fn law_spaces_ignored(s: Seq<char>, before: Seq<char>, after: Seq<char>)
    requires
        forall|i: int| 0 <= i < before.len() ==> is_space(#[trigger] before[i]),
        forall|i: int| 0 <= i < after.len() ==> is_space(#[trigger] after[i]),
    ensures
        parsed_size(before + s + after) == parsed_size(s),
{
    let all = before + s + after;
    assert forall|k: int| 0 <= k < before.len() implies is_space(#[trigger] all[k]) by {
        assert(is_space(before[k]));
    }
    lemma_trimmed_start(all, before.len() as int);
    assert(all.skip(before.len() as int) =~= s + after);
    lemma_trimmed_append(s, after);
}

proof fn lemma_trimmed_append(s: Seq<char>, after: Seq<char>)
    requires
        forall|i: int| 0 <= i < after.len() ==> is_space(#[trigger] after[i]),
    ensures
        trimmed(s + after) == trimmed(s),
    decreases s.len(),
{
    let all = s + after;
    if s.len() > 0 && is_space(s.first()) {
        lemma_trimmed_append(s.drop_first(), after);
        assert(all.drop_first() =~= s.drop_first() + after);
    } else if s.len() > 0 {
        assert(all.first() == s.first());
        assert forall|k: int| s.len() <= k < all.len() implies is_space(#[trigger] all[k]) by {
            assert(is_space(after[k - s.len()]));
        }
        lemma_trimmed_end(all, s.len() as int);
        assert(all.take(s.len() as int) =~= s);
    } else {
        assert(all =~= after);
        lemma_trimmed_start(after, after.len() as int);
        assert(after.skip(after.len() as int) =~= Seq::<char>::empty());
        assert(s =~= Seq::<char>::empty());
    }
}

/// Text in upper case.
pub open spec fn uppercase(s: Seq<char>) -> Seq<char> {
    s.map_values(|c: char| upper(c))
}

/// Upper and lower case make no difference.
pub proof fn law_case_ignored(s: Seq<char>)
    ensures
        parsed_size(uppercase(s)) is Ok <==> parsed_size(s) is Ok,
        parsed_size(s) is Ok ==> parsed_size(uppercase(s)) == parsed_size(s),
{
    let t = trimmed(s);
    let n = leading_digits(t) as int;
    lemma_upper_trimmed(s);
    lemma_upper_digits(t);
    lemma_digits_len(t);
    assert(uppercase(t).take(n) =~= uppercase(t.take(n)));
    assert(uppercase(t).skip(n) =~= uppercase(t.skip(n)));
    assert(uppercase(t.take(n)) =~= t.take(n)) by {
        assert forall|i: int| 0 <= i < n implies upper(#[trigger] t[i]) == t[i] by {
            lemma_leading_are_digits(t, i);
        }
    }
    let suffix = t.skip(n);
    lemma_upper_trimmed(suffix);
    assert(uppercase(uppercase(trimmed(suffix))) =~= uppercase(trimmed(suffix)));
    assert(unit_letters(uppercase(suffix)) == unit_letters(suffix));
}

proof fn lemma_digits_len(s: Seq<char>)
    ensures
        leading_digits(s) <= s.len(),
    decreases s.len(),
{
    if s.len() > 0 {
        lemma_digits_len(s.drop_first());
    }
}

proof fn lemma_leading_are_digits(s: Seq<char>, i: int)
    requires
        0 <= i < leading_digits(s),
    ensures
        i < s.len(),
        is_digit(s[i]),
    decreases s.len(),
{
    if i > 0 {
        lemma_leading_are_digits(s.drop_first(), i - 1);
        assert(s.drop_first()[i - 1] == s[i]);
    }
}

proof fn lemma_upper_digits(s: Seq<char>)
    ensures
        leading_digits(uppercase(s)) == leading_digits(s),
    decreases s.len(),
{
    if s.len() > 0 {
        lemma_upper_digits(s.drop_first());
        assert(uppercase(s).drop_first() =~= uppercase(s.drop_first()));
    }
}

proof fn lemma_upper_trimmed(s: Seq<char>)
    ensures
        trimmed(uppercase(s)) == uppercase(trimmed(s)),
    decreases s.len(),
{
    let t = uppercase(s);
    if s.len() > 0 && is_space(s.first()) {
        lemma_upper_trimmed(s.drop_first());
        assert(t.drop_first() =~= uppercase(s.drop_first()));
        assert(is_space(t.first()));
    } else {
        if s.len() > 0 {
            assert(t.first() == upper(s.first()));
            assert(!is_space(t.first()));
        }
        lemma_upper_trimmed_end(s);
    }
}

proof fn lemma_upper_trimmed_end(s: Seq<char>)
    ensures
        trimmed_end(uppercase(s)) == uppercase(trimmed_end(s)),
    decreases s.len(),
{
    let t = uppercase(s);
    if s.len() > 0 {
        assert(t.last() == upper(s.last()));
        if is_space(s.last()) {
            lemma_upper_trimmed_end(s.drop_last());
            assert(t.drop_last() =~= uppercase(s.drop_last()));
        }
    }
}

/// White space is what Unicode calls so: 25 characters.
pub proof fn law_white_space(c: char)
    ensures
        is_space(c) <==> c == ' ' || c == '\t' || c == '\n' || c == '\u{b}' || c == '\u{c}' || c
            == '\r' || c == '\u{85}' || c == '\u{a0}' || c == '\u{1680}' || '\u{2000}' <= c
            <= '\u{200a}' || c == '\u{2028}' || c == '\u{2029}' || c == '\u{202f}' || c
            == '\u{205f}' || c == '\u{3000}',
{
}

/// Whether text is white space only.
pub open spec fn blank(s: Seq<char>) -> bool {
    forall|i: int| 0 <= i < s.len() ==> is_space(#[trigger] s[i])
}

/// Whether text is one of the ways to write a unit of this many bytes: nothing for one byte, else
/// a letter in upper or lower case; in each case a `B` in upper or lower case may follow.
pub open spec fn writes_unit(unit: Seq<char>, bytes: nat) -> bool {
    let b = unit.len() > 0 && (unit.last() == 'B' || unit.last() == 'b');
    let rest = if b {
        unit.drop_last()
    } else {
        unit
    };
    ||| rest.len() == 0 && bytes == 1
    ||| rest.len() == 1 && (rest[0] == 'K' || rest[0] == 'k') && bytes == 1024
    ||| rest.len() == 1 && (rest[0] == 'M' || rest[0] == 'm') && bytes == 1048576
    ||| rest.len() == 1 && (rest[0] == 'G' || rest[0] == 'g') && bytes == 1073741824
    ||| rest.len() == 1 && (rest[0] == 'T' || rest[0] == 't') && bytes == 1099511627776
}

/// The text of a size: white space, a number with zeros in front, white space, a unit, and white
/// space.
pub open spec fn size_written(
    before: Seq<char>,
    zeros: nat,
    n: nat,
    gap: Seq<char>,
    unit: Seq<char>,
    after: Seq<char>,
) -> Seq<char> {
    before + (Seq::new(zeros, |i: int| '0') + decimal(n) + gap + unit) + after
}

/// A number with a unit behind it is read as that many units: none is a byte, `K`, `M`, `G` and
/// `T` are 1024 to the first, second, third and fourth power, and neither the case of letters, nor
/// a `B` behind, nor white space, nor zeros in front make a difference. What does not fit in 64
/// bits is an error.
pub proof fn law_sizes_are_read(
    before: Seq<char>,
    zeros: nat,
    n: nat,
    gap: Seq<char>,
    unit: Seq<char>,
    bytes: nat,
    after: Seq<char>,
)
    requires
        blank(before),
        blank(gap),
        blank(after),
        writes_unit(unit, bytes),
    ensures
        n * bytes <= u64::MAX && n <= u64::MAX ==> parsed_size(
            size_written(before, zeros, n, gap, unit, after),
        ) == Ok::<u64, Seq<char>>((n * bytes) as u64),
        n * bytes > u64::MAX || n > u64::MAX ==> parsed_size(
            size_written(before, zeros, n, gap, unit, after),
        ) is Err,
{
    lemma_written_parts(before, zeros, n, gap, unit, bytes, after);
    let s = size_written(before, zeros, n, gap, unit, after);
    let t = trimmed(s);
    lemma_digits_len(t);
    assert(n <= n * bytes) by (nonlinear_arith)
        requires
            bytes >= 1,
    ;
}

/// The number in front of text.
spec fn num_of(t: Seq<char>) -> nat {
    number(t.take(leading_digits(t) as int))
}

proof fn lemma_zeros_in_front(zeros: nat, digits: Seq<char>)
    ensures
        number(Seq::new(zeros, |i: int| '0') + digits) == number(digits),
    decreases digits.len(), zeros,
{
    let front = Seq::new(zeros, |i: int| '0');
    let all = front + digits;
    if digits.len() > 0 {
        lemma_zeros_in_front(zeros, digits.drop_last());
        assert(all.drop_last() =~= front + digits.drop_last());
    } else if zeros > 0 {
        lemma_zeros_in_front((zeros - 1) as nat, digits);
        assert(all.drop_last() =~= Seq::new((zeros - 1) as nat, |i: int| '0') + digits);
    } else {
        assert(all =~= digits);
    }
}

/// What a unit stands for is what its letters say.
proof fn lemma_unit_letters(suffix: Seq<char>, unit: Seq<char>, bytes: nat)
    requires
        trimmed(suffix) == unit,
    ensures
        writes_unit(unit, bytes) <==> unit_bytes(suffix) == Some(bytes),
{
    let letters = trimmed(suffix).map_values(|c: char| upper(c));
    let b = unit.len() > 0 && (unit.last() == 'B' || unit.last() == 'b');
    let rest = if b {
        unit.drop_last()
    } else {
        unit
    };
    if unit.len() > 0 {
        assert(letters.last() == upper(unit.last()));
    }
    let found = unit_letters(suffix);
    assert(found =~= rest.map_values(|c: char| upper(c)));
    if rest.len() == 1 {
        assert(found =~= seq![upper(rest[0])]);
        assert(found[0] == upper(rest[0]));
        assert(seq!['K'][0] == 'K' && seq!['M'][0] == 'M' && seq!['G'][0] == 'G' && seq!['T'][0]
            == 'T');
    } else if rest.len() == 0 {
        assert(found =~= Seq::<char>::empty());
    } else {
        assert(found.len() == rest.len());
    }
}

/// Digits are zeros and the number that they write.
proof fn lemma_digits_write(digits: Seq<char>) -> (zeros: nat)
    requires
        digits.len() > 0,
        forall|i: int| 0 <= i < digits.len() ==> is_digit(#[trigger] digits[i]),
    ensures
        digits == Seq::new(zeros, |i: int| '0') + decimal(number(digits)),
    decreases digits.len(),
{
    let short = digits.drop_last();
    let d = (digits.last() as nat - 48) as nat;
    assert(is_digit(digits[digits.len() - 1]));
    assert(digit(d) == digits.last());
    if short.len() == 0 {
        assert(number(short) == 0);
        assert(digits =~= Seq::new(0, |i: int| '0') + seq![digit(d)]);
        0
    } else {
        assert forall|i: int| 0 <= i < short.len() implies is_digit(#[trigger] short[i]) by {
            assert(is_digit(digits[i]));
        }
        let zeros = lemma_digits_write(short);
        let m = number(short);
        assert(digits =~= short.push(digits.last()));
        assert((m * 10 + d) / 10 == m && (m * 10 + d) % 10 == d);
        if m == 0 {
            assert(decimal(0) =~= seq!['0']);
            assert(digits =~= Seq::new(zeros + 1, |i: int| '0') + seq![digit(d)]);
            zeros + 1
        } else {
            assert(decimal(m * 10 + d) == decimal(m).push(digit(d)));
            assert(digits =~= Seq::new(zeros, |i: int| '0') + decimal(m * 10 + d));
            zeros
        }
    }
}

/// How text is made up of white space around the rest.
proof fn lemma_trimmed_parts(s: Seq<char>) -> (parts: (Seq<char>, Seq<char>))
    ensures
        blank(parts.0),
        blank(parts.1),
        s == parts.0 + trimmed(s) + parts.1,
        trimmed(s).len() > 0 ==> !is_space(trimmed(s).first()) && !is_space(trimmed(s).last()),
    decreases s.len(),
{
    if s.len() > 0 && is_space(s.first()) {
        let (before, after) = lemma_trimmed_parts(s.drop_first());
        let more = seq![s.first()] + before;
        assert forall|i: int| 0 <= i < more.len() implies is_space(#[trigger] more[i]) by {
            if i > 0 {
                assert(more[i] == before[i - 1]);
            }
        }
        assert(s =~= seq![s.first()] + s.drop_first());
        assert(s =~= more + trimmed(s) + after);
        (more, after)
    } else {
        let after = lemma_trimmed_end_part(s);
        assert(s =~= Seq::<char>::empty() + trimmed(s) + after);
        if trimmed(s).len() > 0 {
            assert(trimmed(s).first() == s.first());
        }
        (Seq::empty(), after)
    }
}

proof fn lemma_trimmed_end_part(s: Seq<char>) -> (after: Seq<char>)
    ensures
        blank(after),
        s == trimmed_end(s) + after,
        trimmed_end(s).len() > 0 ==> !is_space(trimmed_end(s).last()),
    decreases s.len(),
{
    if s.len() > 0 && is_space(s.last()) {
        let after = lemma_trimmed_end_part(s.drop_last());
        let more = after.push(s.last());
        assert forall|i: int| 0 <= i < more.len() implies is_space(#[trigger] more[i]) by {
            if i < after.len() {
                assert(more[i] == after[i]);
            }
        }
        assert(s =~= s.drop_last().push(s.last()));
        assert(s =~= trimmed_end(s) + more);
        more
    } else {
        assert(s =~= trimmed_end(s) + Seq::<char>::empty());
        Seq::empty()
    }
}

/// Whether text is written as a size of this many units of this many bytes.
pub open spec fn is_written(s: Seq<char>, n: nat, bytes: nat) -> bool {
    exists|
        before: Seq<char>,
        zeros: nat,
        gap: Seq<char>,
        unit: Seq<char>,
        after: Seq<char>,
    |
        blank(before) && blank(gap) && blank(after) && writes_unit(unit, bytes) && s
            == #[trigger] size_written(before, zeros, n, gap, unit, after)
}

/// Nothing else is read as a size: text that is read is a number with a unit, and what it is read
/// as is that many units.
pub proof fn law_only_sizes_are_read(s: Seq<char>)
    requires
        parsed_size(s) is Ok,
    ensures
        exists|n: nat, bytes: nat| #[trigger]
            is_written(s, n, bytes) && parsed_size(s)->Ok_0 == n * bytes,
{
    let t = trimmed(s);
    let k = leading_digits(t) as int;
    lemma_digits_len(t);
    let (before, after) = lemma_trimmed_parts(s);
    let digits = t.take(k);
    assert forall|i: int| 0 <= i < digits.len() implies is_digit(#[trigger] digits[i]) by {
        lemma_leading_are_digits(t, i);
    }
    let zeros = lemma_digits_write(digits);
    let n = number(digits);
    let suffix = t.skip(k);
    let (gap, end) = lemma_trimmed_parts(suffix);
    let unit = trimmed(suffix);
    let bytes = unit_bytes(suffix)->0;
    lemma_unit_letters(suffix, unit, bytes);
    if end.len() > 0 {
        assert(suffix.last() == end[end.len() - 1]);
        assert(t.last() == suffix.last());
    }
    if unit.len() == 0 && gap.len() > 0 {
        assert(suffix =~= gap);
        assert(t.last() == gap[gap.len() - 1]);
    }
    assert(suffix =~= gap + unit);
    assert(t =~= digits + suffix);
    assert(s =~= size_written(before, zeros, n, gap, unit, after));
    assert(is_written(s, n, bytes));
}

/// What is wrong with text that is no size is said with the text itself, without the white space
/// around it: whether it is empty, does not start with a number, has no such unit, or is too large.
pub proof fn law_complaints(s: Seq<char>, before: Seq<char>, t: Seq<char>, after: Seq<char>)
    requires
        s == before + t + after,
        blank(before),
        blank(after),
        t.len() > 0 ==> !is_space(t.first()) && !is_space(t.last()),
    ensures
        t.len() == 0 ==> parsed_size(s) == Err::<u64, Seq<char>>("大小不能为空"@),
        t.len() > 0 && !('0' <= t[0] <= '9') ==> parsed_size(s) == Err::<u64, Seq<char>>(
            "无效的大小: "@ + t,
        ),
        t.len() > 0 && parsed_size(s) is Err ==> ({
            let message = parsed_size(s)->Err_0;
            message == "无效的大小: "@ + t || message == "未知的大小单位: "@ + t || message
                == "大小溢出: "@ + t
        }),
        forall|n: nat, bytes: nat| #[trigger]
            is_written(s, n, bytes) && n <= u64::MAX && n * bytes > u64::MAX ==> parsed_size(s)
                == Err::<u64, Seq<char>>("大小溢出: "@ + t),
        forall|n: nat, bytes: nat| #[trigger]
            is_written(s, n, bytes) && n > u64::MAX ==> parsed_size(s) == Err::<u64, Seq<char>>(
                "无效的大小: "@ + t,
            ),
{
    lemma_trimmed_is(before, t, after);
    assert forall|n: nat, bytes: nat| #[trigger]
        is_written(s, n, bytes) implies num_of(trimmed(s)) == n && unit_bytes(
        trimmed(s).skip(leading_digits(trimmed(s)) as int),
    ) == Some(bytes) && leading_digits(trimmed(s)) > 0 by {
        let (b, z, g, u, a) = choose|
            b: Seq<char>,
            z: nat,
            g: Seq<char>,
            u: Seq<char>,
            a: Seq<char>,
        |
            blank(b) && blank(g) && blank(a) && writes_unit(u, bytes) && s
                == #[trigger] size_written(b, z, n, g, u, a);
        lemma_written_parts(b, z, n, g, u, bytes, a);
    }
}

proof fn lemma_trimmed_is(before: Seq<char>, t: Seq<char>, after: Seq<char>)
    requires
        blank(before),
        blank(after),
        t.len() > 0 ==> !is_space(t.first()) && !is_space(t.last()),
    ensures
        trimmed(before + t + after) == t,
{
    let all = before + t + after;
    assert forall|k: int| 0 <= k < before.len() implies is_space(#[trigger] all[k]) by {
        assert(is_space(before[k]));
    }
    lemma_trimmed_start(all, before.len() as int);
    assert(all.skip(before.len() as int) =~= t + after);
    lemma_trimmed_append(t, after);
    if t.len() > 0 {
        assert(trimmed(t) == t);
    } else {
        assert(trimmed(t) =~= t);
    }
}

/// What is read off the text of a size.
proof fn lemma_written_parts(
    before: Seq<char>,
    zeros: nat,
    n: nat,
    gap: Seq<char>,
    unit: Seq<char>,
    bytes: nat,
    after: Seq<char>,
)
    requires
        blank(before),
        blank(gap),
        blank(after),
        writes_unit(unit, bytes),
    ensures
        ({
            let t = trimmed(size_written(before, zeros, n, gap, unit, after));
            &&& num_of(t) == n
            &&& leading_digits(t) > 0
            &&& unit_bytes(t.skip(leading_digits(t) as int)) == Some(bytes)
        }),
{
    let digits = Seq::new(zeros, |i: int| '0') + decimal(n);
    let inner = Seq::new(zeros, |i: int| '0') + decimal(n) + gap + unit;
    let t = if unit.len() > 0 {
        digits + gap + unit
    } else {
        digits
    };
    let end = if unit.len() > 0 {
        after
    } else {
        gap + after
    };
    lemma_decimal_digits(n);
    lemma_zeros_in_front(zeros, decimal(n));
    assert forall|i: int| 0 <= i < digits.len() implies is_digit(#[trigger] digits[i]) by {
        if i >= zeros {
            assert(digits[i] == decimal(n)[i - zeros]);
        }
    }
    assert forall|i: int| 0 <= i < end.len() implies is_space(#[trigger] end[i]) by {
        if unit.len() == 0 {
            if i < gap.len() {
                assert(end[i] == gap[i]);
            } else {
                assert(end[i] == after[i - gap.len()]);
            }
        }
    }
    assert(is_digit(digits[0]) && is_digit(digits[digits.len() - 1]));
    assert(t.first() == digits[0]);
    if unit.len() > 0 {
        assert(t.last() == unit.last());
    }
    assert(size_written(before, zeros, n, gap, unit, after) =~= before + t + end);
    lemma_trimmed_is(before, t, end);
    let rest = t.skip(digits.len() as int);
    assert(t =~= digits + rest);
    if rest.len() > 0 {
        assert(rest =~= gap + unit);
        if gap.len() > 0 {
            assert(is_space(gap[0]));
            assert(rest.first() == gap[0]);
        } else {
            assert(rest.first() == unit[0]);
        }
    }
    lemma_leading_digits(digits, rest);
    assert(t.take(digits.len() as int) =~= digits);
    if unit.len() > 0 {
        assert(gap + unit + Seq::<char>::empty() =~= rest);
        lemma_trimmed_is(gap, unit, Seq::empty());
    } else {
        assert(rest =~= Seq::<char>::empty() + Seq::<char>::empty() + Seq::<char>::empty());
        lemma_trimmed_is(Seq::empty(), Seq::empty(), Seq::empty());
        assert(unit =~= Seq::<char>::empty());
    }
    lemma_unit_letters(rest, unit, bytes);
}

} // verus!
