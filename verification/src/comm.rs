//! Three-way comparison of two sorted line sequences.
//!
//! Lines from two lexicographically sorted inputs are classified as unique
//! to the first input, unique to the second, or common to both, while the
//! sort order of each input is validated as the merge advances.

use vstd::prelude::*;
use vstd::string::*;

verus! {

/// The column a classified line belongs to.
#[derive(Clone, Copy, PartialEq, Eq, Structural, Debug)]
pub enum Classification {
    OnlyFirst,
    OnlySecond,
    Common,
}

/// What to do when an input turns out not to be sorted: halt the run
/// (`Enforce`) or carry on positionally (`Ignore`).
#[derive(Clone, Copy, PartialEq, Eq, Structural, Debug)]
pub enum OrderPolicy {
    Enforce,
    Ignore,
}

/// Which of the two inputs is meant.
#[derive(Clone, Copy, PartialEq, Eq, Structural, Debug)]
pub enum Side {
    First,
    Second,
}

/// Immutable configuration for one comparison run.
pub struct CommConf {
    pub show1: bool,
    pub show2: bool,
    pub show3: bool,
    pub delimiter: String,
    pub order_policy: OrderPolicy,
}

/// How a comparison run ended: all lines consumed, or halted on the first
/// line that sorts before its predecessor on the same side.
#[derive(Debug)]
pub enum CommStatus {
    Completed,
    OrderViolation(Side, String),
}

/// Strict lexicographic order on character sequences, by codepoint.
/// The empty sequence sorts before every non-empty one.
pub open spec fn lex_lt(a: Seq<char>, b: Seq<char>) -> bool
    decreases a.len(),
{
    if b.len() == 0 {
        false
    } else if a.len() == 0 {
        true
    } else if a[0] != b[0] {
        (a[0] as u32) < (b[0] as u32)
    } else {
        lex_lt(a.skip(1), b.skip(1))
    }
}

/// A side is in order when no line sorts strictly before its predecessor.
pub open spec fn sorted(s: Seq<Seq<char>>) -> bool {
    forall|k: int| 0 < k < s.len() ==> !lex_lt(#[trigger] s[k], s[k - 1])
}

/// The current line at position `i` breaks the sort order of its side.
/// The first line of a side never does: it has no predecessor.
pub open spec fn viol_at(s: Seq<Seq<char>>, i: int) -> bool {
    i > 0 && lex_lt(s[i], s[i - 1])
}

/// Whether advancing to `cur` after `prev` must stop the run. An empty
/// `prev` stands for "no line consumed yet" and never triggers.
pub open spec fn order_violation(cur: Seq<char>, prev: Seq<char>, policy: OrderPolicy) -> bool {
    policy == OrderPolicy::Enforce && prev.len() > 0 && lex_lt(cur, prev)
}

/// Compares two lines, strict lexicographic order by codepoint.
pub fn str_lt(a: &str, b: &str) -> (r: bool)
    ensures
        r == lex_lt(a@, b@),
{
    let a_len = a.unicode_len();
    let b_len = b.unicode_len();
    let mut k: usize = 0;
    proof {
        assert(a@.skip(0) =~= a@);
        assert(b@.skip(0) =~= b@);
    }
    loop
        invariant
            k <= a_len,
            k <= b_len,
            a_len == a@.len(),
            b_len == b@.len(),
            lex_lt(a@, b@) == lex_lt(a@.skip(k as int), b@.skip(k as int)),
        decreases a_len - k,
    {
        if k == a_len {
            assert(a@.skip(k as int).len() == 0);
            return k < b_len;
        }
        if k == b_len {
            assert(b@.skip(k as int).len() == 0);
            return false;
        }
        let ca = a.get_char(k);
        let cb = b.get_char(k);
        assert(a@.skip(k as int)[0] == a@[k as int]);
        assert(b@.skip(k as int)[0] == b@[k as int]);
        if ca != cb {
            return (ca as u32) < (cb as u32);
        }
        proof {
            assert(a@.skip(k as int).skip(1) =~= a@.skip(k as int + 1));
            assert(b@.skip(k as int).skip(1) =~= b@.skip(k as int + 1));
        }
        k = k + 1;
    }
}

/// The views of a sequence of lines.
pub open spec fn lines_view(v: Seq<String>) -> Seq<Seq<char>> {
    v.map_values(|t: String| t@)
}

/// The whole comparison, started with `i` lines of `a` and `j` lines of `b`
/// already consumed: the classified lines emitted, in order, and the first
/// order violation that stops the run (`None` when it runs to the end).
/// With `enforce` false no violation is ever raised.
pub open spec fn comm_run(
    a: Seq<Seq<char>>,
    b: Seq<Seq<char>>,
    i: int,
    j: int,
    enforce: bool,
) -> (Seq<(Seq<char>, Classification)>, Option<(Side, Seq<char>)>)
    decreases a.len() - i + b.len() - j,
    when 0 <= i <= a.len() && 0 <= j <= b.len()
{
    if i == a.len() && j == b.len() {
        (Seq::empty(), None)
    } else if i == a.len() {
        if enforce && viol_at(b, j) {
            (Seq::empty(), Some((Side::Second, b[j])))
        } else {
            let r = comm_run(a, b, i, j + 1, enforce);
            (seq![(b[j], Classification::OnlySecond)] + r.0, r.1)
        }
    } else if j == b.len() {
        if enforce && viol_at(a, i) {
            (Seq::empty(), Some((Side::First, a[i])))
        } else {
            let r = comm_run(a, b, i + 1, j, enforce);
            (seq![(a[i], Classification::OnlyFirst)] + r.0, r.1)
        }
    } else {
        if enforce && viol_at(a, i) {
            (Seq::empty(), Some((Side::First, a[i])))
        } else if enforce && viol_at(b, j) {
            (Seq::empty(), Some((Side::Second, b[j])))
        } else if a[i] == b[j] {
            let r = comm_run(a, b, i + 1, j + 1, enforce);
            (seq![(a[i], Classification::Common)] + r.0, r.1)
        } else if lex_lt(a[i], b[j]) {
            let r = comm_run(a, b, i + 1, j, enforce);
            (seq![(a[i], Classification::OnlyFirst)] + r.0, r.1)
        } else {
            let r = comm_run(a, b, i, j + 1, enforce);
            (seq![(b[j], Classification::OnlySecond)] + r.0, r.1)
        }
    }
}

/// One output record: the line, prefixed by one delimiter for each shown
/// column of lower number, or nothing when the line's own column is hidden.
pub open spec fn render_one(line: Seq<char>, c: Classification, conf: CommConf) -> Option<
    Seq<char>,
> {
    let d = conf.delimiter@;
    let none = Seq::<char>::empty();
    match c {
        Classification::OnlyFirst => if conf.show1 {
            Some(line)
        } else {
            None
        },
        Classification::OnlySecond => if conf.show2 {
            Some((if conf.show1 {
                d
            } else {
                none
            }) + line)
        } else {
            None
        },
        Classification::Common => if conf.show3 {
            Some(
                (if conf.show1 {
                    d
                } else {
                    none
                }) + (if conf.show2 {
                    d
                } else {
                    none
                }) + line,
            )
        } else {
            None
        },
    }
}

/// The output records of a run: each classified line rendered, suppressed
/// lines leaving no trace.
pub open spec fn render_seq(em: Seq<(Seq<char>, Classification)>, conf: CommConf) -> Seq<
    Seq<char>,
>
    decreases em.len(),
{
    if em.len() == 0 {
        Seq::empty()
    } else {
        let rest = render_seq(em.drop_first(), conf);
        match render_one(em[0].0, em[0].1, conf) {
            Some(rec) => seq![rec] + rest,
            None => rest,
        }
    }
}

/// Rendering a concatenation renders each part in turn.
proof fn lemma_render_seq_add(
    em1: Seq<(Seq<char>, Classification)>,
    em2: Seq<(Seq<char>, Classification)>,
    conf: CommConf,
)
    ensures
        render_seq(em1 + em2, conf) == render_seq(em1, conf) + render_seq(em2, conf),
    decreases em1.len(),
{
    if em1.len() == 0 {
        assert(em1 + em2 =~= em2);
        assert(render_seq(em1, conf) + render_seq(em2, conf) =~= render_seq(em2, conf));
    } else {
        assert((em1 + em2).drop_first() =~= em1.drop_first() + em2);
        lemma_render_seq_add(em1.drop_first(), em2, conf);
        assert((em1 + em2)[0] == em1[0]);
        match render_one(em1[0].0, em1[0].1, conf) {
            Some(rec) => {
                assert(seq![rec] + (render_seq(em1.drop_first(), conf) + render_seq(em2, conf))
                    =~= (seq![rec] + render_seq(em1.drop_first(), conf)) + render_seq(em2, conf));
            },
            None => {},
        }
    }
}

/// Splitting strictly on the line terminator: the segments between the
/// newlines, in order. A text of `n` newlines yields `n + 1` segments; an
/// empty text yields one empty segment.
pub open spec fn split_full(s: Seq<char>) -> Seq<Seq<char>>
    decreases s.len(),
{
    if s.len() == 0 {
        seq![Seq::<char>::empty()]
    } else if s[0] == '\n' {
        seq![Seq::<char>::empty()] + split_full(s.skip(1))
    } else {
        let rest = split_full(s.skip(1));
        seq![seq![s[0]] + rest[0]] + rest.skip(1)
    }
}

/// The line sequence of a text: split on newlines, with the one empty
/// trailing segment of a terminator-ended (or empty) text dropped.
pub open spec fn split_lines_spec(s: Seq<char>) -> Seq<Seq<char>> {
    let f = split_full(s);
    if f.last().len() == 0 {
        f.drop_last()
    } else {
        f
    }
}

/// A text with no newline is one single segment.
proof fn lemma_split_full_no_nl(p: Seq<char>)
    requires
        !p.contains('\n'),
    ensures
        split_full(p) == seq![p],
    decreases p.len(),
{
    if p.len() == 0 {
        assert(p =~= Seq::<char>::empty());
        assert(seq![Seq::<char>::empty()] =~= seq![p]);
    } else {
        assert(p[0] != '\n');
        assert(!p.skip(1).contains('\n')) by {
            assert(forall|m: int| 0 <= m < p.skip(1).len() ==> p.skip(1)[m] == p[m + 1]);
        }
        lemma_split_full_no_nl(p.skip(1));
        assert(seq![p[0]] + p.skip(1) =~= p);
        assert(seq![p.skip(1)].skip(1) =~= Seq::<Seq<char>>::empty());
        assert(seq![seq![p[0]] + p.skip(1)] + Seq::<Seq<char>>::empty() =~= seq![p]);
    }
}

/// The first newline closes the first segment; the rest splits on its own.
proof fn lemma_split_full_line(p: Seq<char>, rest: Seq<char>)
    requires
        !p.contains('\n'),
    ensures
        split_full(p + seq!['\n'] + rest) == seq![p] + split_full(rest),
    decreases p.len(),
{
    let s = p + seq!['\n'] + rest;
    if p.len() == 0 {
        assert(s[0] == '\n');
        assert(s.skip(1) =~= rest);
        assert(p =~= Seq::<char>::empty());
        assert(seq![Seq::<char>::empty()] + split_full(rest) =~= seq![p] + split_full(rest));
    } else {
        assert(s[0] == p[0]);
        assert(s[0] != '\n');
        assert(!p.skip(1).contains('\n')) by {
            assert(forall|m: int| 0 <= m < p.skip(1).len() ==> p.skip(1)[m] == p[m + 1]);
        }
        lemma_split_full_line(p.skip(1), rest);
        assert(s.skip(1) =~= p.skip(1) + seq!['\n'] + rest);
        let tail = split_full(p.skip(1) + seq!['\n'] + rest);
        assert(tail == seq![p.skip(1)] + split_full(rest));
        assert(tail[0] == p.skip(1));
        assert(seq![s[0]] + p.skip(1) =~= p);
        assert(tail.skip(1) =~= split_full(rest));
        assert(seq![p] + split_full(rest) =~= seq![seq![s[0]] + tail[0]] + tail.skip(1));
    }
}

/// The line sequencer: turns a text into its sequence of lines, splitting
/// strictly on the newline character. An empty text yields no lines; a
/// single empty trailing line caused by a final terminator is dropped.
pub fn split_lines(s: &str) -> (r: Vec<String>)
    ensures
        lines_view(r@) == split_lines_spec(s@),
{
    let len = s.unicode_len();
    let mut out: Vec<String> = Vec::new();
    let mut start: usize = 0;
    let mut k: usize = 0;
    proof {
        assert(s@.skip(0) =~= s@);
        assert(lines_view(out@) + split_full(s@) =~= split_full(s@));
    }
    while k < len
        invariant
            start <= k <= len,
            len == s@.len(),
            forall|m: int| start <= m < k ==> s@[m] != '\n',
            split_full(s@) == lines_view(out@) + split_full(s@.skip(start as int)),
        decreases len - k,
    {
        let c = s.get_char(k);
        if c == '\n' {
            let line = s.substring_char(start, k).to_owned();
            proof {
                let p = s@.subrange(start as int, k as int);
                assert(!p.contains('\n')) by {
                    assert(forall|m: int| 0 <= m < p.len() ==> p[m] == s@[start as int + m]);
                }
                assert(s@.skip(start as int) =~= p + seq!['\n'] + s@.skip(k as int + 1));
                lemma_split_full_line(p, s@.skip(k as int + 1));
                assert(line@ == p);
                assert(lines_view(out@.push(line)) =~= lines_view(out@).push(line@));
                assert(lines_view(out@) + (seq![p] + split_full(s@.skip(k as int + 1))) =~= (
                lines_view(out@).push(p)) + split_full(s@.skip(k as int + 1)));
            }
            out.push(line);
            start = k + 1;
        }
        k = k + 1;
    }
    let last = s.substring_char(start, len).to_owned();
    proof {
        let p = s@.subrange(start as int, len as int);
        assert(!p.contains('\n')) by {
            assert(forall|m: int| 0 <= m < p.len() ==> p[m] == s@[start as int + m]);
        }
        assert(s@.skip(start as int) =~= p);
        lemma_split_full_no_nl(p);
        assert(lines_view(out@.push(last)) =~= lines_view(out@).push(last@));
        assert(lines_view(out@) + seq![p] =~= lines_view(out@).push(p));
    }
    out.push(last);
    proof {
        assert(lines_view(out@) == split_full(s@));
        assert(lines_view(out@).last() == out@.last()@);
    }
    // A final terminator (or an empty text) leaves one empty trailing
    // segment: drop it, it stands for no line.
    if out[out.len() - 1].as_str().is_empty() {
        out.pop();
        proof {
            assert(lines_view(out@) =~= split_full(s@).drop_last());
        }
    }
    out
}

/// Runs the comparator on two raw texts: each is first turned into its
/// line sequence, then merged under the given configuration.
pub fn comm_text(text1: &str, text2: &str, conf: &CommConf) -> (r: (Vec<String>, CommStatus))
    ensures
        ({
            let run = comm_run(
                split_lines_spec(text1@),
                split_lines_spec(text2@),
                0,
                0,
                conf.order_policy == OrderPolicy::Enforce,
            );
            &&& lines_view(r.0@) == render_seq(run.0, *conf)
            &&& status_matches(r.1, run.1)
        }),
{
    let l1 = split_lines(text1);
    let l2 = split_lines(text2);
    do_comm(&l1, &l2, conf)
}

/// The message reported for an input file that cannot be read.
pub fn print_file_error(filename: &String) -> (r: String)
    ensures
        r@ == filename@ + ": No such file or directory"@,
{
    let mut s = filename.clone();
    s.append(": No such file or directory");
    s
}

/// Rendering a single classified line yields its record, or nothing.
proof fn lemma_render_seq_one(e: (Seq<char>, Classification), conf: CommConf)
    ensures
        render_seq(seq![e], conf) == match render_one(e.0, e.1, conf) {
            Some(rec) => seq![rec],
            None => Seq::<Seq<char>>::empty(),
        },
{
    let empty_em = Seq::<(Seq<char>, Classification)>::empty();
    assert(render_seq(empty_em, conf) == Seq::<Seq<char>>::empty());
    assert(seq![e].drop_first() =~= empty_em);
    assert(seq![e][0] == e);
    match render_one(e.0, e.1, conf) {
        Some(rec) => {
            assert(seq![rec] + Seq::<Seq<char>>::empty() =~= seq![rec]);
        },
        None => {},
    }
}

/// An ended run matches its spec-level outcome.
pub open spec fn status_matches(st: CommStatus, v: Option<(Side, Seq<char>)>) -> bool {
    match st {
        CommStatus::Completed => v is None,
        CommStatus::OrderViolation(sd, ln) => v == Some((sd, ln@)),
    }
}

/// Decides whether the run may continue after seeing `s1` where the line
/// consumed just before it on the same side was `s2` (empty when none was).
pub fn check_order(s1: &str, s2: &str, conf: &CommConf) -> (r: bool)
    ensures
        r == !order_violation(s1@, s2@, conf.order_policy),
{
    match conf.order_policy {
        OrderPolicy::Ignore => true,
        OrderPolicy::Enforce => {
            if !s2.is_empty() {
                !str_lt(s1, s2)
            } else {
                true
            }
        },
    }
}

/// Holds of an emission put in the given column.
pub open spec fn in_class(c: Classification) -> spec_fn((Seq<char>, Classification)) -> bool {
    |e: (Seq<char>, Classification)| e.1 == c
}

/// The line of an emission.
pub open spec fn emission_line() -> spec_fn((Seq<char>, Classification)) -> Seq<char> {
    |e: (Seq<char>, Classification)| e.0
}

/// The lines of a run's emissions that were put in the given column, in
/// emission order.
pub open spec fn emitted_lines(em: Seq<(Seq<char>, Classification)>, c: Classification) -> Seq<
    Seq<char>,
> {
    em.filter(in_class(c)).map_values(emission_line())
}

proof fn lemma_emitted_lines_prepend(
    e: (Seq<char>, Classification),
    em: Seq<(Seq<char>, Classification)>,
    c: Classification,
)
    ensures
        emitted_lines(seq![e] + em, c) == (if e.1 == c {
            seq![e.0]
        } else {
            Seq::<Seq<char>>::empty()
        }) + emitted_lines(em, c),
{
    let pred = in_class(c);
    let proj = emission_line();
    Seq::filter_distributes_over_add(seq![e], em, pred);
    reveal(Seq::filter);
    assert(Seq::<(Seq<char>, Classification)>::empty().filter(pred) =~= Seq::<
        (Seq<char>, Classification),
    >::empty());
    assert(seq![e].drop_last() =~= Seq::<(Seq<char>, Classification)>::empty());
    assert(seq![e].last() == e);
    if pred(e) {
        assert(seq![e].filter(pred) =~= seq![e]);
        assert(emitted_lines(seq![e] + em, c) =~= seq![e.0] + emitted_lines(em, c));
    } else {
        assert(seq![e].filter(pred) =~= Seq::<(Seq<char>, Classification)>::empty());
        assert(Seq::<(Seq<char>, Classification)>::empty() + em.filter(pred) =~= em.filter(pred));
        assert((seq![e] + em).filter(pred) == em.filter(pred));
        assert(emitted_lines(seq![e] + em, c) == (seq![e] + em).filter(pred).map_values(proj));
        assert(emitted_lines(em, c) == em.filter(pred).map_values(proj));
        assert(Seq::<Seq<char>>::empty() + emitted_lines(em, c) =~= emitted_lines(em, c));
    }
}

proof fn lemma_disjoint_run(a: Seq<Seq<char>>, b: Seq<Seq<char>>, i: int, j: int)
    requires
        0 <= i <= a.len(),
        0 <= j <= b.len(),
        forall|x: int, y: int|
            0 <= x < a.len() && 0 <= y < b.len() ==> #[trigger] a[x] != #[trigger] b[y],
    ensures
        ({
            let em = comm_run(a, b, i, j, false).0;
            &&& emitted_lines(em, Classification::OnlyFirst) == a.skip(i)
            &&& emitted_lines(em, Classification::OnlySecond) == b.skip(j)
            &&& emitted_lines(em, Classification::Common) == Seq::<Seq<char>>::empty()
        }),
    decreases a.len() - i + b.len() - j,
{
    let em = comm_run(a, b, i, j, false).0;
    if i == a.len() && j == b.len() {
        reveal(Seq::filter);
        assert(a.skip(i) =~= Seq::<Seq<char>>::empty());
        assert(b.skip(j) =~= Seq::<Seq<char>>::empty());
        assert(emitted_lines(em, Classification::OnlyFirst) =~= Seq::<Seq<char>>::empty());
        assert(emitted_lines(em, Classification::OnlySecond) =~= Seq::<Seq<char>>::empty());
        assert(emitted_lines(em, Classification::Common) =~= Seq::<Seq<char>>::empty());
    } else {
        let take_first = if i == a.len() {
            false
        } else if j == b.len() {
            true
        } else {
            lex_lt(a[i], b[j])
        };
        if i < a.len() && j < b.len() {
            assert(a[i] != b[j]);
        }
        let e = if take_first {
            (a[i], Classification::OnlyFirst)
        } else {
            (b[j], Classification::OnlySecond)
        };
        let i2 = if take_first {
            i + 1
        } else {
            i
        };
        let j2 = if take_first {
            j
        } else {
            j + 1
        };
        let rest = comm_run(a, b, i2, j2, false).0;
        assert(em == seq![e] + rest);
        lemma_disjoint_run(a, b, i2, j2);
        lemma_emitted_lines_prepend(e, rest, Classification::OnlyFirst);
        lemma_emitted_lines_prepend(e, rest, Classification::OnlySecond);
        lemma_emitted_lines_prepend(e, rest, Classification::Common);
        if take_first {
            assert(seq![a[i]] + a.skip(i + 1) =~= a.skip(i));
            assert(Seq::<Seq<char>>::empty() + b.skip(j) =~= b.skip(j));
        } else {
            assert(seq![b[j]] + b.skip(j + 1) =~= b.skip(j));
            assert(Seq::<Seq<char>>::empty() + a.skip(i) =~= a.skip(i));
        }
        assert(Seq::<Seq<char>>::empty() + Seq::<Seq<char>>::empty() =~= Seq::<
            Seq<char>,
        >::empty());
    }
}

/// For two inputs with no line in common, every line is emitted exactly
/// once, in order, classified by its origin, and nothing is classified as
/// common to both.
pub proof fn lemma_disjoint_inputs(a: Seq<Seq<char>>, b: Seq<Seq<char>>)
    requires
        sorted(a),
        sorted(b),
        forall|x: int, y: int|
            0 <= x < a.len() && 0 <= y < b.len() ==> #[trigger] a[x] != #[trigger] b[y],
    ensures
        ({
            let em = comm_run(a, b, 0, 0, false).0;
            &&& emitted_lines(em, Classification::OnlyFirst) == a
            &&& emitted_lines(em, Classification::OnlySecond) == b
            &&& emitted_lines(em, Classification::Common) == Seq::<Seq<char>>::empty()
        }),
{
    lemma_disjoint_run(a, b, 0, 0);
    assert(a.skip(0) =~= a);
    assert(b.skip(0) =~= b);
}

proof fn lemma_identical_run(a: Seq<Seq<char>>, i: int)
    requires
        0 <= i <= a.len(),
    ensures
        ({
            let em = comm_run(a, a, i, i, false).0;
            &&& em.len() == a.len() - i
            &&& forall|k: int| 0 <= k < em.len() ==> #[trigger] em[k] == (a[k + i], Classification::Common)
        }),
    decreases a.len() - i,
{
    if i < a.len() {
        lemma_identical_run(a, i + 1);
        let e = (a[i], Classification::Common);
        let rest = comm_run(a, a, i + 1, i + 1, false).0;
        assert(comm_run(a, a, i, i, false).0 == seq![e] + rest);
    }
}

/// For two identical inputs, every line is classified as common, exactly
/// once per pair of matching positions, and nothing is classified as
/// unique to either side.
pub proof fn lemma_identical_inputs(a: Seq<Seq<char>>, b: Seq<Seq<char>>)
    requires
        a == b,
        sorted(a),
    ensures
        ({
            let em = comm_run(a, b, 0, 0, false).0;
            &&& em.len() == a.len()
            &&& forall|k: int| 0 <= k < em.len() ==> #[trigger] em[k] == (a[k], Classification::Common)
        }),
{
    lemma_identical_run(a, 0);
}

proof fn lemma_sorted_run(a: Seq<Seq<char>>, b: Seq<Seq<char>>, i: int, j: int)
    requires
        0 <= i <= a.len(),
        0 <= j <= b.len(),
        sorted(a),
        sorted(b),
    ensures
        comm_run(a, b, i, j, true).0 == comm_run(a, b, i, j, false).0,
        comm_run(a, b, i, j, true).1 is None,
    decreases a.len() - i + b.len() - j,
{
    if i < a.len() {
        assert(!viol_at(a, i));
    }
    if j < b.len() {
        assert(!viol_at(b, j));
    }
    if i == a.len() && j == b.len() {
    } else if i == a.len() {
        lemma_sorted_run(a, b, i, j + 1);
    } else if j == b.len() {
        lemma_sorted_run(a, b, i + 1, j);
    } else if a[i] == b[j] {
        lemma_sorted_run(a, b, i + 1, j + 1);
    } else if lex_lt(a[i], b[j]) {
        lemma_sorted_run(a, b, i + 1, j);
    } else {
        lemma_sorted_run(a, b, i, j + 1);
    }
}

/// On inputs that really are sorted, a run under `Enforce` raises no
/// violation and emits exactly what the unchecked merge emits.
pub proof fn lemma_sorted_inputs_complete(a: Seq<Seq<char>>, b: Seq<Seq<char>>)
    requires
        sorted(a),
        sorted(b),
    ensures
        comm_run(a, b, 0, 0, true).0 == comm_run(a, b, 0, 0, false).0,
        comm_run(a, b, 0, 0, true).1 is None,
{
    lemma_sorted_run(a, b, 0, 0);
}

/// Re-running the comparator on the same two line sequences with the same
/// configuration produces identical output records: the emitted records
/// are a function of the inputs and the configuration alone.
pub proof fn lemma_rerun_identical(
    a: Seq<Seq<char>>,
    b: Seq<Seq<char>>,
    conf: CommConf,
    out1: Seq<Seq<char>>,
    out2: Seq<Seq<char>>,
)
    requires
        out1 == render_seq(
            comm_run(a, b, 0, 0, conf.order_policy == OrderPolicy::Enforce).0,
            conf,
        ),
        out2 == render_seq(
            comm_run(a, b, 0, 0, conf.order_policy == OrderPolicy::Enforce).0,
            conf,
        ),
    ensures
        out1 == out2,
{
}

/// Renders one classified line as an output record, or nothing when its
/// column is suppressed.
pub fn print_col(s: &str, col: Classification, conf: &CommConf) -> (r: Option<String>)
    ensures
        match r {
            Some(t) => render_one(s@, col, *conf) == Some(t@),
            None => render_one(s@, col, *conf) is None,
        },
{
    match col {
        Classification::OnlyFirst => {
            if conf.show1 {
                Some(s.to_owned())
            } else {
                None
            }
        },
        Classification::OnlySecond => {
            if conf.show2 {
                let mut t = String::new();
                if conf.show1 {
                    t.append(conf.delimiter.as_str());
                }
                t.append(s);
                proof {
                    if !conf.show1 {
                        assert(Seq::<char>::empty() + s@ =~= s@);
                    }
                }
                Some(t)
            } else {
                None
            }
        },
        Classification::Common => {
            if conf.show3 {
                let mut t = String::new();
                if conf.show1 {
                    t.append(conf.delimiter.as_str());
                }
                if conf.show2 {
                    t.append(conf.delimiter.as_str());
                }
                t.append(s);
                proof {
                    let d = conf.delimiter@;
                    let none = Seq::<char>::empty();
                    let p1 = if conf.show1 { d } else { none };
                    let p2 = if conf.show2 { d } else { none };
                    assert((none + p1) + p2 + s@ =~= p1 + p2 + s@);
                }
                Some(t)
            } else {
                None
            }
        },
    }
}

/// The merge comparator: advances a cursor over each input in lock step,
/// classifies every line, renders it, and validates the sort order of each
/// side as it goes. Returns the rendered records, in emission order, and
/// the terminal status. Under `Enforce`, a line that sorts before its
/// predecessor on the same side halts the run; records already rendered
/// stand. Under `Ignore`, the run always completes.
#[verifier::rlimit(30)]
pub fn do_comm(lines1: &Vec<String>, lines2: &Vec<String>, conf: &CommConf) -> (r: (
    Vec<String>,
    CommStatus,
))
    ensures
        ({
            let run = comm_run(
                lines_view(lines1@),
                lines_view(lines2@),
                0,
                0,
                conf.order_policy == OrderPolicy::Enforce,
            );
            &&& lines_view(r.0@) == render_seq(run.0, *conf)
            &&& status_matches(r.1, run.1)
        }),
{
    let ghost av = lines_view(lines1@);
    let ghost bv = lines_view(lines2@);
    let enforce = conf.order_policy == OrderPolicy::Enforce;
    let mut out: Vec<String> = Vec::new();
    let mut i: usize = 0;
    let mut j: usize = 0;
    let ghost mut em: Seq<(Seq<char>, Classification)> = Seq::empty();
    loop
        invariant
            i <= lines1.len(),
            j <= lines2.len(),
            av == lines_view(lines1@),
            bv == lines_view(lines2@),
            av.len() == lines1.len(),
            bv.len() == lines2.len(),
            enforce == (conf.order_policy == OrderPolicy::Enforce),
            comm_run(av, bv, 0, 0, enforce).0 == em + comm_run(av, bv, i as int, j as int, enforce).0,
            comm_run(av, bv, 0, 0, enforce).1 == comm_run(av, bv, i as int, j as int, enforce).1,
            lines_view(out@) == render_seq(em, *conf),
        decreases lines1.len() - i + lines2.len() - j,
    {
        let a_done = i == lines1.len();
        let b_done = j == lines2.len();
        if a_done && b_done {
            proof {
                assert(em + comm_run(av, bv, i as int, j as int, enforce).0 =~= em);
            }
            return (out, CommStatus::Completed);
        }
        proof {
            if !a_done {
                assert(av[i as int] == lines1@[i as int]@);
            }
            if !b_done {
                assert(bv[j as int] == lines2@[j as int]@);
            }
            if i > 0 {
                assert(av[i as int - 1] == lines1@[i as int - 1]@);
            }
            if j > 0 {
                assert(bv[j as int - 1] == lines2@[j as int - 1]@);
            }
        }
        // Decide which side supplies the next line.
        let take_first: bool;
        let is_common: bool;
        if a_done {
            take_first = false;
            is_common = false;
        } else if b_done {
            take_first = true;
            is_common = false;
        } else if lines1[i] == lines2[j] {
            take_first = true;
            is_common = true;
        } else {
            take_first = str_lt(lines1[i].as_str(), lines2[j].as_str());
            is_common = false;
        }
        // Validate sort order before emitting: side one first, then side two,
        // each against the line consumed just before it on the same side.
        if enforce && !a_done && i > 0 {
            if !check_order(lines1[i].as_str(), lines1[i - 1].as_str(), conf) {
                proof {
                    assert(viol_at(av, i as int));
                    assert(em + comm_run(av, bv, i as int, j as int, enforce).0 =~= em);
                }
                return (out, CommStatus::OrderViolation(Side::First, lines1[i].clone()));
            }
        }
        if enforce && !b_done && j > 0 {
            if !check_order(lines2[j].as_str(), lines2[j - 1].as_str(), conf) {
                proof {
                    assert(viol_at(bv, j as int));
                    assert(em + comm_run(av, bv, i as int, j as int, enforce).0 =~= em);
                }
                return (out, CommStatus::OrderViolation(Side::Second, lines2[j].clone()));
            }
        }
        proof {
            if enforce {
                if !a_done && i > 0 {
                    assert(!lex_lt(av[i as int], av[i as int - 1]));
                }
                if !b_done && j > 0 {
                    assert(!lex_lt(bv[j as int], bv[j as int - 1]));
                }
                assert(!a_done ==> !viol_at(av, i as int));
                assert(!b_done ==> !viol_at(bv, j as int));
            }
        }
        // Classify, render, advance.
        let (line, class): (&String, Classification) = if is_common {
            (&lines1[i], Classification::Common)
        } else if take_first {
            (&lines1[i], Classification::OnlyFirst)
        } else {
            (&lines2[j], Classification::OnlySecond)
        };
        let ghost e = (line@, class);
        let rec = print_col(line.as_str(), class, conf);
        proof {
            let run_here = comm_run(av, bv, i as int, j as int, enforce);
            assert(seq![e].len() == 1);
            assert(seq![e][0] == e);
            assert(run_here.0 == seq![e] + comm_run(
                av,
                bv,
                i as int + if !is_common && !take_first { 0int } else { 1int },
                j as int + if is_common || !take_first { 1int } else { 0int },
                enforce,
            ).0);
            assert(em + run_here.0 =~= em.push(e) + comm_run(
                av,
                bv,
                i as int + if !is_common && !take_first { 0int } else { 1int },
                j as int + if is_common || !take_first { 1int } else { 0int },
                enforce,
            ).0);
            lemma_render_seq_add(em, seq![e], *conf);
            lemma_render_seq_one(e, *conf);
            assert(em.push(e) =~= em + seq![e]);
        }
        match rec {
            Some(t) => {
                proof {
                    assert(render_one(e.0, e.1, *conf) == Some(t@));
                    assert(lines_view(out@.push(t)) =~= lines_view(out@).push(t@));
                    assert(render_seq(em, *conf) + seq![t@] =~= render_seq(em, *conf).push(t@));
                }
                out.push(t);
            },
            None => {
                proof {
                    assert(render_seq(em, *conf) + Seq::<Seq<char>>::empty() =~= render_seq(
                        em,
                        *conf,
                    ));
                }
            },
        }
        proof {
            em = em.push(e);
        }
        if is_common {
            i = i + 1;
            j = j + 1;
        } else if take_first {
            i = i + 1;
        } else {
            j = j + 1;
        }
    }
}

} // verus!
