//! How a sample is shown: colour tiers, and one line per reading with an
//! optional change since the previous sample.
use vstd::prelude::*;
use colored::Colorize;
use crate::sample::{Sample, find_label, lemma_find_label};
use crate::text::{
    digit_char, is_digit, lemma_nat_text_digits, nat_text, one_decimal,
    one_decimal_text, signed_one_decimal, signed_one_decimal_text, tenths_of,
    unsigned_tenths_text,
};

verus! {

/// The colour in which a value is shown.
#[derive(Clone, Copy, Debug, PartialEq, Eq, Structural)]
pub enum Tier {
    Green,
    Yellow,
    Red,
    Plain,
}

/// Tier of a temperature in thousandths: below 50 green, below 70 yellow,
/// else red.
pub open spec fn value_tier_of(m: int) -> Tier {
    if m < 50000 {
        Tier::Green
    } else if m < 70000 {
        Tier::Yellow
    } else {
        Tier::Red
    }
}

/// Tier of a change in thousandths: a fall green, none plain, a rise below 5
/// yellow, else red.
pub open spec fn delta_tier_of(d: int) -> Tier {
    if d < 0 {
        Tier::Green
    } else if d == 0 {
        Tier::Plain
    } else if d < 5000 {
        Tier::Yellow
    } else {
        Tier::Red
    }
}

pub fn value_tier(m: i64) -> (r: Tier)
    ensures
        r == value_tier_of(m as int),
{
    if m < 50000 {
        Tier::Green
    } else if m < 70000 {
        Tier::Yellow
    } else {
        Tier::Red
    }
}

pub fn delta_tier(d: i128) -> (r: Tier)
    ensures
        r == delta_tier_of(d as int),
{
    if d < 0 {
        Tier::Green
    } else if d == 0 {
        Tier::Plain
    } else if d < 5000 {
        Tier::Yellow
    } else {
        Tier::Red
    }
}

/// One reading as shown: label, value text and tier, and the change since
/// the previous sample with its tier where it is shown.
pub struct Line {
    pub label: String,
    pub value_text: String,
    pub value_tier: Tier,
    pub delta: Option<(String, Tier)>,
}

/// The change of the reading `v` under `label` since `prev`, where `prev`
/// has that label.
pub open spec fn delta_of(prev: Seq<(Seq<char>, i64)>, label: Seq<char>, v: i64) -> Option<int> {
    match find_label(prev, label) {
        Some(j) => Some(v - prev[j].1),
        None => None,
    }
}

/// `l` shows entry `e`, with its change since `prev` when `with_delta`.
pub open spec fn shows(l: Line, e: (Seq<char>, i64), prev: Seq<(Seq<char>, i64)>, with_delta: bool) -> bool {
    &&& l.label@ == e.0
    &&& l.value_text@ == one_decimal(e.1 as int)
    &&& l.value_tier == value_tier_of(e.1 as int)
    &&& match (if with_delta {
        delta_of(prev, e.0, e.1)
    } else {
        None
    }) {
        Some(d) => l.delta is Some && l.delta.unwrap().0@ == signed_one_decimal(d) && l.delta.unwrap().1
            == delta_tier_of(d),
        None => l.delta is None,
    }
}

/// The lines that show `cur`: one per reading, in order, each with its change
/// since `prev` when `delta_mode` is on and `prev` is not empty.
pub fn lines_for(cur: &Sample, prev: &Sample, delta_mode: bool) -> (r: Vec<Line>)
    ensures
        r.len() == cur@.len(),
        forall|j: int|
            0 <= j < r.len() ==> shows(#[trigger] r@[j], cur@[j], prev@, delta_mode && prev@.len() > 0),
        forall|j: int| 0 <= j < r.len() ==> plain_line(#[trigger] r@[j]),
{
    let with_delta = delta_mode && !prev.is_empty();
    let n = cur.len();
    let mut out: Vec<Line> = Vec::new();
    let mut j: usize = 0;
    while j < n
        invariant
            n == cur@.len(),
            j <= n,
            out.len() == j,
            with_delta == (delta_mode && prev@.len() > 0),
            forall|a: int| 0 <= a < j ==> shows(#[trigger] out@[a], cur@[a], prev@, with_delta),
            forall|a: int| 0 <= a < j ==> plain_line(#[trigger] out@[a]),
        decreases n - j,
    {
        let (label, v) = cur.reading(j);
        let delta = if with_delta {
            match prev.get(label.as_str()) {
                Some(p) => {
                    let d = v as i128 - p as i128;
                    proof {
                        lemma_decimal_plain(d as int);
                    }
                    Some((signed_one_decimal_text(d), delta_tier(d)))
                },
                None => None,
            }
        } else {
            None
        };
        proof {
            lemma_decimal_plain(v as int);
        }
        let line = Line { label, value_text: one_decimal_text(v as i128), value_tier: value_tier(v), delta };
        out.push(line);
        j = j + 1;
    }
    out
}

/// The ANSI code of each tier's colour.
pub open spec fn tier_code(k: Tier) -> Seq<char> {
    match k {
        Tier::Green => seq!['3', '2'],
        Tier::Yellow => seq!['3', '3'],
        Tier::Red => seq!['3', '1'],
        Tier::Plain => seq!['3', '0'],
    }
}

/// Text without an escape character.
pub open spec fn no_escape(t: Seq<char>) -> bool {
    forall|i: int| 0 <= i < t.len() ==> t[i] != '\x1b'
}

/// `r` is `t`, either as it is or set in the colour `code`.
pub open spec fn painted(r: Seq<char>, t: Seq<char>, code: Seq<char>) -> bool {
    r == t || r == seq!['\x1b', '['] + code + seq!['m'] + t + seq!['\x1b', '[', '0', 'm']
}

/// Relies on `colored::Colorize::green`: the text in green, or as it is where
/// colouring is off.
#[verifier::external_body]
fn green_text(t: &str) -> (r: String)
    ensures
        no_escape(t@) ==> painted(r@, t@, tier_code(Tier::Green)),
{
    t.green().to_string()
}

/// Relies on `colored::Colorize::yellow`: the text in yellow, or as it is
/// where colouring is off.
#[verifier::external_body]
fn yellow_text(t: &str) -> (r: String)
    ensures
        no_escape(t@) ==> painted(r@, t@, tier_code(Tier::Yellow)),
{
    t.yellow().to_string()
}

/// Relies on `colored::Colorize::red`: the text in red, or as it is where
/// colouring is off.
#[verifier::external_body]
fn red_text(t: &str) -> (r: String)
    ensures
        no_escape(t@) ==> painted(r@, t@, tier_code(Tier::Red)),
{
    t.red().to_string()
}

/// Relies on `colored::Colorize::black`: the text in black, or as it is where
/// colouring is off.
#[verifier::external_body]
fn black_text(t: &str) -> (r: String)
    ensures
        no_escape(t@) ==> painted(r@, t@, tier_code(Tier::Plain)),
{
    t.black().to_string()
}

/// `t` in the colour of tier `k`, or as it is where colouring is off.
pub fn paint(t: &str, k: Tier) -> (r: String)
    ensures
        no_escape(t@) ==> painted(r@, t@, tier_code(k)),
{
    match k {
        Tier::Green => green_text(t),
        Tier::Yellow => yellow_text(t),
        Tier::Red => red_text(t),
        Tier::Plain => black_text(t),
    }
}

proof fn lemma_decimal_plain(m: int)
    ensures
        no_escape(one_decimal(m)),
        no_escape(seq!['('] + signed_one_decimal(m) + seq![')']),
{
    let t = tenths_of(m);
    lemma_nat_text_digits(t / 10);
    let u = unsigned_tenths_text(m);
    assert(digit_char((t % 10) as nat) != '\x1b');
    assert forall|i: int| 0 <= i < u.len() implies u[i] != '\x1b' by {
        if i < nat_text(t / 10).len() {
            assert(u[i] == nat_text(t / 10)[i]);
            assert(is_digit(nat_text(t / 10)[i]));
        }
    }
    let a = one_decimal(m);
    assert forall|i: int| 0 <= i < a.len() implies a[i] != '\x1b' by {
        if m < 0 && i > 0 {
            assert(a[i] == u[i - 1]);
        }
    }
    let b = seq!['('] + signed_one_decimal(m) + seq![')'];
    assert forall|i: int| 0 <= i < b.len() implies b[i] != '\x1b' by {
        if 1 < i < b.len() - 1 {
            assert(b[i] == u[i - 2]);
        }
    }
}

/// What stands before the value on the line of `l`.
pub open spec fn line_head(l: Line) -> Seq<char> {
    seq!['\n'] + l.label@ + seq!['\t', '(', '\u{b0}', 'C', ')', '\t', '>', '>', '>', '\t']
}

/// `r` is the line of `l`: its head, the value in its tier's colour, and the
/// change in parentheses in its own tier's colour where there is one.
pub open spec fn line_text(l: Line, r: Seq<char>) -> bool {
    exists|a: Seq<char>|
        painted(a, l.value_text@, tier_code(l.value_tier)) && match l.delta {
            None => r == line_head(l) + a,
            Some((t, k)) => exists|b: Seq<char>|
                painted(b, seq!['('] + t@ + seq![')'], tier_code(k)) && r == line_head(l) + a
                    + seq![' '] + b,
        }
}

/// The values of `l` hold no escape character.
pub open spec fn plain_line(l: Line) -> bool {
    &&& no_escape(l.value_text@)
    &&& match l.delta {
        Some((t, k)) => no_escape(seq!['('] + t@ + seq![')']),
        None => true,
    }
}

/// The text of `l`, started by a line break.
pub fn render_line(l: &Line) -> (r: String)
    ensures
        plain_line(*l) ==> line_text(*l, r@),
{
    let mut out = String::new();
    proof {
        reveal_strlit("\n");
        reveal_strlit("\t(\u{b0}C)\t>>>\t");
        reveal_strlit(" ");
        reveal_strlit("(");
        reveal_strlit(")");
    }
    out.append("\n");
    out.append(l.label.as_str());
    out.append("\t(\u{b0}C)\t>>>\t");
    assert(out@ =~= line_head(*l));
    let a = paint(l.value_text.as_str(), l.value_tier);
    out.append(a.as_str());
    match &l.delta {
        None => {},
        Some((t, k)) => {
            let mut d = String::new();
            d.append("(");
            d.append(t.as_str());
            d.append(")");
            assert(d@ =~= seq!['('] + t@ + seq![')']);
            let b = paint(d.as_str(), *k);
            out.append(" ");
            out.append(b.as_str());
            assert(out@ =~= line_head(*l) + a@ + seq![' '] + b@);
        },
    }
    out
}

pub open spec fn exit_hint() -> Seq<char> {
    seq!['\n', 'P', 'r', 'e', 's', 's', ' ', 'C', 't', 'r', 'l', '+', 'C', ' ', 't', 'o', ' ', 'e', 'x', 'i', 't']
}

/// The screen for `lines`: the exit hint, then the text of each line in order.
pub fn render(lines: &Vec<Line>) -> (r: String)
    ensures
        exists|ps: Seq<Seq<char>>|
            ps.len() == lines.len() && r@ == exit_hint() + ps.flatten() && forall|j: int|
                0 <= j < ps.len() ==> (plain_line(#[trigger] lines@[j]) ==> line_text(lines@[j], ps[j])),
{
    let mut out = String::new();
    proof {
        reveal_strlit("\nPress Ctrl+C to exit");
    }
    out.append("\nPress Ctrl+C to exit");
    assert(out@ =~= exit_hint());
    let ghost mut ps: Seq<Seq<char>> = Seq::empty();
    let mut j: usize = 0;
    while j < lines.len()
        invariant
            j <= lines.len(),
            ps.len() == j,
            out@ == exit_hint() + ps.flatten(),
            forall|a: int|
                0 <= a < ps.len() ==> (plain_line(#[trigger] lines@[a]) ==> line_text(lines@[a], ps[a])),
        decreases lines.len() - j,
    {
        let t = render_line(&lines[j]);
        out.append(t.as_str());
        proof {
            let ps2 = ps.push(t@);
            assert(ps2.drop_last() =~= ps);
            ps.lemma_flatten_push(t@);
            ps = ps2;
        }
        j = j + 1;
    }
    out
}

/// A label that the previous sample lacks gets no change shown, in either mode.
pub proof fn lemma_new_label_no_delta(
    l: Line,
    e: (Seq<char>, i64),
    prev: Seq<(Seq<char>, i64)>,
    with_delta: bool,
)
    requires
        shows(l, e, prev, with_delta),
        forall|j: int| 0 <= j < prev.len() ==> #[trigger] prev[j].0 != e.0,
    ensures
        l.delta is None,
{
    lemma_find_label(prev, e.0);
}

} // verus!
