//! Line, word, character and byte counting over a text, with a selectable
//! set of counters and a rendered per-file report.

use vstd::prelude::*;
use vstd::string::*;
use vstd::utf8::encode_utf8;
use crate::text::{dec_digits, push_char, usize_to_string};

verus! {

/// Which counters a run reports.
#[derive(Clone, Copy, Debug)]
pub struct Config {
    pub lines: bool,
    pub words: bool,
    pub chars: bool,
    pub bytes: bool,
    pub max_l: bool,
}

/// The counters of one text; a counter that was not asked for is absent.
#[derive(Clone, Copy, Debug)]
pub struct WcInfo {
    pub lines: Option<usize>,
    pub words: Option<usize>,
    pub chars: Option<usize>,
    pub bytes: Option<usize>,
    pub max_l: Option<usize>,
}

/// The newlines in `s` at or after position `k`.
pub open spec fn count_nl_from(s: Seq<char>, k: int) -> nat
    decreases s.len() - k,
    when 0 <= k <= s.len()
{
    if k == s.len() {
        0
    } else {
        (if s[k] == '\n' {
            1nat
        } else {
            0nat
        }) + count_nl_from(s, k + 1)
    }
}

/// The characters counted as word separators: newline, tab, space, and
/// the vertical tab, form feed and carriage return controls.
pub open spec fn is_ws_spec(c: char) -> bool {
    c == '\n' || c == '\t' || c == ' ' || (11 <= c as u32 <= 13)
}

/// The words completed in `s` from position `k` on, where `has_word` says
/// whether a word character was seen just before `k`. A word counts when
/// it is followed by a separator; a trailing word at the very end of the
/// text is not counted.
pub open spec fn words_from(s: Seq<char>, k: int, has_word: bool) -> nat
    decreases s.len() - k,
    when 0 <= k <= s.len()
{
    if k == s.len() {
        0
    } else {
        let ws = is_ws_spec(s[k]);
        (if has_word && ws {
            1nat
        } else {
            0nat
        }) + words_from(s, k + 1, !ws)
    }
}

/// The length of the longest newline-free run in `s` from position `k`
/// on, where `cur` characters of the current run and a best of `best`
/// were already seen.
pub open spec fn maxl_from(s: Seq<char>, k: int, cur: nat, best: nat) -> nat
    decreases s.len() - k,
    when 0 <= k <= s.len()
{
    if k == s.len() {
        best
    } else if s[k] == '\n' {
        maxl_from(s, k + 1, 0, best)
    } else if cur + 1 > best {
        maxl_from(s, k + 1, cur + 1, cur + 1)
    } else {
        maxl_from(s, k + 1, cur + 1, best)
    }
}

/// The sum of two optional counters; absent when either is.
pub open spec fn opt_sum_spec(a: Option<usize>, b: Option<usize>) -> Option<usize> {
    match (a, b) {
        (Some(x), Some(y)) => Some((x + y) as usize),
        _ => None,
    }
}

/// The larger of two optional counters; absent when either is.
pub open spec fn opt_max_spec(a: Option<usize>, b: Option<usize>) -> Option<usize> {
    match (a, b) {
        (Some(x), Some(y)) => Some(if x > y {
            x
        } else {
            y
        }),
        _ => None,
    }
}

/// How one optional counter is printed: a tab and its decimal value, or
/// nothing when absent.
pub open spec fn opt_str_spec(a: Option<usize>) -> Seq<char> {
    match a {
        Some(i) => seq!['\t'] + dec_digits(i as nat),
        None => Seq::<char>::empty(),
    }
}

/// Counts the newlines of a text.
pub fn get_lines(s: &String) -> (r: usize)
    ensures
        r as nat == count_nl_from(s@, 0),
{
    let len = s.as_str().unicode_len();
    let mut newlines: usize = 0;
    let mut k: usize = 0;
    while k < len
        invariant
            0 <= k <= len,
            len == s@.len(),
            newlines <= k,
            newlines as nat + count_nl_from(s@, k as int) == count_nl_from(s@, 0),
        decreases len - k,
    {
        let c = s.as_str().get_char(k);
        if c == '\n' {
            newlines = newlines + 1;
        }
        k = k + 1;
    }
    newlines
}

/// Whether a character separates words.
pub fn is_whitespace(c: char) -> (r: bool)
    ensures
        r == is_ws_spec(c),
{
    match c {
        '\n' | '\t' | ' ' => true,
        _ => {
            let c_val = c as u32;
            11 <= c_val && c_val <= 13
        },
    }
}

/// Counts the words of a text: maximal runs of non-separator characters,
/// each counted when the separator after it is seen.
pub fn get_words(s: &String) -> (r: usize)
    ensures
        r as nat == words_from(s@, 0, false),
{
    let len = s.as_str().unicode_len();
    let mut words: usize = 0;
    let mut has_words = false;
    let mut k: usize = 0;
    while k < len
        invariant
            0 <= k <= len,
            len == s@.len(),
            words <= k,
            words as nat + words_from(s@, k as int, has_words) == words_from(s@, 0, false),
        decreases len - k,
    {
        let c = s.as_str().get_char(k);
        let cur_ws = is_whitespace(c);
        if has_words && cur_ws {
            words = words + 1;
        }
        has_words = !cur_ws;
        k = k + 1;
    }
    words
}

/// Counts the characters of a text.
pub fn get_chars(s: &String) -> (r: usize)
    ensures
        r as nat == s@.len(),
{
    s.as_str().unicode_len()
}

/// Counts the bytes of a text, in its encoded form.
pub fn get_bytes(s: &String) -> (r: usize)
    ensures
        r == encode_utf8(s@).len() as usize,
{
    s.as_str().len()
}

/// The length, in characters, of the longest line of a text.
pub fn get_max_l(s: &String) -> (r: usize)
    ensures
        r as nat == maxl_from(s@, 0, 0, 0),
{
    let len = s.as_str().unicode_len();
    let mut max_l: usize = 0;
    let mut cur_length: usize = 0;
    let mut k: usize = 0;
    while k < len
        invariant
            0 <= k <= len,
            len == s@.len(),
            cur_length <= k,
            max_l <= k,
            maxl_from(s@, k as int, cur_length as nat, max_l as nat) == maxl_from(s@, 0, 0, 0),
        decreases len - k,
    {
        let c = s.as_str().get_char(k);
        if c != '\n' {
            cur_length = cur_length + 1;
            if cur_length > max_l {
                max_l = cur_length;
            }
        } else {
            cur_length = 0;
        }
        k = k + 1;
    }
    max_l
}

/// Adds two optional counters.
pub fn option_sum(a: Option<usize>, b: Option<usize>) -> (r: Option<usize>)
    requires
        a is Some && b is Some ==> a.unwrap() + b.unwrap() <= usize::MAX,
    ensures
        r == opt_sum_spec(a, b),
{
    match (a, b) {
        (Some(i1), Some(i2)) => Some(i1 + i2),
        _ => None,
    }
}

/// Takes the larger of two optional counters.
pub fn option_max(a: Option<usize>, b: Option<usize>) -> (r: Option<usize>)
    ensures
        r == opt_max_spec(a, b),
{
    match (a, b) {
        (Some(i1), Some(i2)) => Some(
            if i1 > i2 {
                i1
            } else {
                i2
            },
        ),
        _ => None,
    }
}

/// Prints one optional counter: a tab and its value, or nothing.
pub fn option_str(a: Option<usize>) -> (r: String)
    ensures
        r@ == opt_str_spec(a),
{
    match a {
        Some(i) => {
            let mut s = String::new();
            push_char(&mut s, '\t');
            let digits = usize_to_string(i);
            s.append(digits.as_str());
            proof {
                assert(Seq::<char>::empty().push('\t') =~= seq!['\t']);
            }
            s
        },
        None => String::new(),
    }
}

/// The printed form of a set of counters, in the fixed order lines,
/// words, chars, bytes, longest line.
pub open spec fn info_line(w: WcInfo) -> Seq<char> {
    opt_str_spec(w.lines) + opt_str_spec(w.words) + opt_str_spec(w.chars) + opt_str_spec(w.bytes)
        + opt_str_spec(w.max_l)
}

impl WcInfo {
    /// The counters both runs report, summed; the longest-line counter
    /// takes the larger value instead.
    pub fn add(&self, rhs: &WcInfo) -> (r: WcInfo)
        requires
            self.lines is Some && rhs.lines is Some ==> self.lines.unwrap() + rhs.lines.unwrap()
                <= usize::MAX,
            self.words is Some && rhs.words is Some ==> self.words.unwrap() + rhs.words.unwrap()
                <= usize::MAX,
            self.chars is Some && rhs.chars is Some ==> self.chars.unwrap() + rhs.chars.unwrap()
                <= usize::MAX,
            self.bytes is Some && rhs.bytes is Some ==> self.bytes.unwrap() + rhs.bytes.unwrap()
                <= usize::MAX,
        ensures
            r.lines == opt_sum_spec(self.lines, rhs.lines),
            r.words == opt_sum_spec(self.words, rhs.words),
            r.chars == opt_sum_spec(self.chars, rhs.chars),
            r.bytes == opt_sum_spec(self.bytes, rhs.bytes),
            r.max_l == opt_max_spec(self.max_l, rhs.max_l),
    {
        WcInfo {
            lines: option_sum(self.lines, rhs.lines),
            words: option_sum(self.words, rhs.words),
            chars: option_sum(self.chars, rhs.chars),
            bytes: option_sum(self.bytes, rhs.bytes),
            max_l: option_max(self.max_l, rhs.max_l),
        }
    }

    /// The printed form of the counters: each present one as a tab and
    /// its value, in the fixed order lines, words, chars, bytes, longest
    /// line.
    pub fn render(&self) -> (r: String)
        ensures
            r@ == info_line(*self),
    {
        let mut s = option_str(self.lines);
        let t_words = option_str(self.words);
        let t_chars = option_str(self.chars);
        let t_bytes = option_str(self.bytes);
        let t_max_l = option_str(self.max_l);
        s.append(t_words.as_str());
        s.append(t_chars.as_str());
        s.append(t_bytes.as_str());
        s.append(t_max_l.as_str());
        s
    }
}

/// The counters of one text under one configuration.
pub open spec fn wc_spec(s: Seq<char>, conf: Config) -> WcInfo {
    WcInfo {
        lines: if conf.lines {
            Some(count_nl_from(s, 0) as usize)
        } else {
            None
        },
        words: if conf.words {
            Some(words_from(s, 0, false) as usize)
        } else {
            None
        },
        chars: if conf.chars {
            Some(s.len() as usize)
        } else {
            None
        },
        bytes: if conf.bytes {
            Some(encode_utf8(s).len() as usize)
        } else {
            None
        },
        max_l: if conf.max_l {
            Some(maxl_from(s, 0, 0, 0) as usize)
        } else {
            None
        },
    }
}

/// Counts one text: exactly the counters the configuration asks for.
pub fn get_wc(s: &String, conf: Config) -> (r: WcInfo)
    ensures
        r == wc_spec(s@, conf),
{
    let lines = if conf.lines {
        Some(get_lines(s))
    } else {
        None
    };
    let words = if conf.words {
        Some(get_words(s))
    } else {
        None
    };
    let chars = if conf.chars {
        Some(get_chars(s))
    } else {
        None
    };
    let bytes = if conf.bytes {
        Some(get_bytes(s))
    } else {
        None
    };
    let max_l = if conf.max_l {
        Some(get_max_l(s))
    } else {
        None
    };
    WcInfo { lines, words, chars, bytes, max_l }
}

/// The two optional counters summed field-wise, the longest-line counter
/// taking the larger value.
pub open spec fn add_info_spec(a: WcInfo, b: WcInfo) -> WcInfo {
    WcInfo {
        lines: opt_sum_spec(a.lines, b.lines),
        words: opt_sum_spec(a.words, b.words),
        chars: opt_sum_spec(a.chars, b.chars),
        bytes: opt_sum_spec(a.bytes, b.bytes),
        max_l: opt_max_spec(a.max_l, b.max_l),
    }
}

/// The running total over the first `upto` texts, in the order the texts
/// are added to it: each text's counters added onto the total so far.
pub open spec fn wc_sum_spec(files: Seq<(String, String)>, conf: Config, upto: int) -> WcInfo
    decreases upto,
    when 0 <= upto <= files.len()
{
    if upto == 0 {
        WcInfo { lines: Some(0), words: Some(0), chars: Some(0), bytes: Some(0), max_l: Some(0) }
    } else {
        add_info_spec(wc_spec(files[upto - 1].0@, conf), wc_sum_spec(files, conf, upto - 1))
    }
}

/// The characters of the first `upto` texts together.
pub open spec fn total_chars(files: Seq<(String, String)>, upto: int) -> nat
    decreases upto,
    when 0 <= upto <= files.len()
{
    if upto == 0 {
        0
    } else {
        files[upto - 1].0@.len() + total_chars(files, upto - 1)
    }
}

/// The encoded bytes of the first `upto` texts together.
pub open spec fn total_bytes(files: Seq<(String, String)>, upto: int) -> nat
    decreases upto,
    when 0 <= upto <= files.len()
{
    if upto == 0 {
        0
    } else {
        encode_utf8(files[upto - 1].0@).len() + total_bytes(files, upto - 1)
    }
}

/// At most one newline per character.
proof fn lemma_count_nl_le(s: Seq<char>, k: int)
    requires
        0 <= k <= s.len(),
    ensures
        count_nl_from(s, k) <= s.len() - k,
    decreases s.len() - k,
{
    if k < s.len() {
        lemma_count_nl_le(s, k + 1);
    }
}

/// At most one completed word per character.
proof fn lemma_words_le(s: Seq<char>, k: int, has_word: bool)
    requires
        0 <= k <= s.len(),
    ensures
        words_from(s, k, has_word) <= s.len() - k,
    decreases s.len() - k,
{
    if k < s.len() {
        lemma_words_le(s, k + 1, !is_ws_spec(s[k]));
    }
}

/// Adding texts only grows the totals.
proof fn lemma_totals_mono(files: Seq<(String, String)>, i: int, j: int)
    requires
        0 <= i <= j <= files.len(),
    ensures
        total_chars(files, i) <= total_chars(files, j),
        total_bytes(files, i) <= total_bytes(files, j),
    decreases j - i,
{
    if i < j {
        lemma_totals_mono(files, i + 1, j)
    }
}

/// Every summable counter of a running total stays within the matching
/// total size of the texts summed so far.
proof fn lemma_sum_bounds(files: Seq<(String, String)>, conf: Config, upto: int)
    requires
        0 <= upto <= files.len(),
        total_chars(files, files.len() as int) <= usize::MAX,
        total_bytes(files, files.len() as int) <= usize::MAX,
    ensures
        ({
            let w = wc_sum_spec(files, conf, upto);
            &&& (w.lines is Some ==> w.lines.unwrap() <= total_chars(files, upto))
            &&& (w.words is Some ==> w.words.unwrap() <= total_chars(files, upto))
            &&& (w.chars is Some ==> w.chars.unwrap() <= total_chars(files, upto))
            &&& (w.bytes is Some ==> w.bytes.unwrap() <= total_bytes(files, upto))
        }),
    decreases upto,
{
    if upto > 0 {
        lemma_sum_bounds(files, conf, upto - 1);
        lemma_totals_mono(files, upto, files.len() as int);
        let s = files[upto - 1].0@;
        lemma_count_nl_le(s, 0);
        lemma_words_le(s, 0, false);
    }
}

/// One report line: the text's counters, then a tab and the text's name
/// when it has one.
pub open spec fn wc_line_spec(file: (String, String), conf: Config) -> Seq<char> {
    info_line(wc_spec(file.0@, conf)) + (if file.1@.len() == 0 {
        Seq::<char>::empty()
    } else {
        seq!['\t'] + file.1@
    })
}

/// Counts every text of a list, one report line per text in order, and,
/// when there is more than one, a final line with the totals.
pub fn do_wc(files: &Vec<(String, String)>, conf: Config) -> (r: Vec<String>)
    requires
        total_chars(files@, files@.len() as int) <= usize::MAX,
        total_bytes(files@, files@.len() as int) <= usize::MAX,
    ensures
        r@.len() == files@.len() + (if files@.len() > 1 {
            1int
        } else {
            0int
        }),
        forall|m: int| 0 <= m < files@.len() ==> (#[trigger] r@[m])@ == wc_line_spec(
            files@[m],
            conf,
        ),
        files@.len() > 1 ==> r@.last()@ == info_line(
            wc_sum_spec(files@, conf, files@.len() as int),
        ) + seq!['\t'] + "total"@,
{
    let mut out: Vec<String> = Vec::new();
    let mut sum = WcInfo {
        lines: Some(0),
        words: Some(0),
        chars: Some(0),
        bytes: Some(0),
        max_l: Some(0),
    };
    let mut k: usize = 0;
    while k < files.len()
        invariant
            0 <= k <= files.len(),
            out@.len() == k,
            forall|m: int| 0 <= m < k ==> (#[trigger] out@[m])@ == wc_line_spec(files@[m], conf),
            sum == wc_sum_spec(files@, conf, k as int),
            total_chars(files@, files@.len() as int) <= usize::MAX,
            total_bytes(files@, files@.len() as int) <= usize::MAX,
        decreases files.len() - k,
    {
        let s = &files[k].0;
        let name = &files[k].1;
        let wc = get_wc(s, conf);
        let mut line = wc.render();
        if !name.as_str().is_empty() {
            push_char(&mut line, '\t');
            line.append(name.as_str());
            proof {
                assert(info_line(wc_spec(s@, conf)).push('\t') + name@ =~= info_line(
                    wc_spec(s@, conf),
                ) + (seq!['\t'] + name@));
            }
        } else {
            proof {
                assert(line@ + Seq::<char>::empty() =~= line@);
            }
        }
        proof {
            assert(line@ == wc_line_spec(files@[k as int], conf));
            lemma_sum_bounds(files@, conf, k as int);
            lemma_totals_mono(files@, k as int + 1, files@.len() as int);
            lemma_count_nl_le(s@, 0);
            lemma_words_le(s@, 0, false);
        }
        out.push(line);
        sum = wc.add(&sum);
        k = k + 1;
    }
    if files.len() > 1 {
        let mut total_line = sum.render();
        push_char(&mut total_line, '\t');
        total_line.append("total");
        proof {
            assert(info_line(sum).push('\t') + "total"@ =~= info_line(sum) + seq!['\t']
                + "total"@);
        }
        out.push(total_line);
    }
    out
}

} // verus!
