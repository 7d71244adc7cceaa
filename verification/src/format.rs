//! Presentation of ranked distributions: exact decimal rendering of the
//! rounded percentages, one line per participant, with medal markers for
//! the top three in decorated mode and a bare numeric mode for machine
//! consumption.

use vstd::prelude::*;

use crate::model::hundredths;
use vstd::arithmetic::div_mod::{lemma_div_is_ordered, lemma_div_multiples_vanish_fancy};

verus! {

/// One entry of a percentage distribution: a participant, that
/// participant's message count, and the group total it is a share of.
#[derive(Debug, PartialEq)]
pub struct Data {
    pub username: String,
    pub count: u64,
    pub total: u64,
}

impl View for Data {
    type V = (Seq<char>, u64, u64);

    open spec fn view(&self) -> (Seq<char>, u64, u64) {
        (self.username@, self.count, self.total)
    }
}

/// The `(name, count)` pairs of a distribution.
pub open spec fn data_pairs(s: Seq<Data>) -> Seq<(Seq<char>, u64)> {
    Seq::new(s.len(), |i: int| (s[i]@.0, s[i]@.1))
}

/// The abstract triples of a distribution vector.
pub open spec fn data_views(s: Seq<Data>) -> Seq<(Seq<char>, u64, u64)> {
    Seq::new(s.len(), |i: int| s[i]@)
}

/// The rounded share of an entry, in hundredths of a percent; degenerate
/// entries (zero total, or a count above the total) render as zero.
pub open spec fn share_of(d: (Seq<char>, u64, u64)) -> int {
    if d.2 >= 1 && d.1 <= d.2 {
        hundredths(d.1 as int, d.2 as int)
    } else {
        0
    }
}

/// The decimal digit character for `d` (0 through 9).
pub open spec fn dec_digit(d: int) -> char {
    if d == 0 {
        '0'
    } else if d == 1 {
        '1'
    } else if d == 2 {
        '2'
    } else if d == 3 {
        '3'
    } else if d == 4 {
        '4'
    } else if d == 5 {
        '5'
    } else if d == 6 {
        '6'
    } else if d == 7 {
        '7'
    } else if d == 8 {
        '8'
    } else {
        '9'
    }
}

/// Decimal digits of a non-negative number, most significant first.
pub open spec fn dec_str(n: int) -> Seq<char>
    decreases n,
{
    if n < 10 {
        seq![dec_digit(n)]
    } else {
        dec_str(n / 10).push(dec_digit(n % 10))
    }
}

/// `h` hundredths rendered as a percentage with two decimal places.
pub open spec fn percent2(h: int) -> Seq<char> {
    dec_str(h / 100) + seq!['.'] + seq![dec_digit((h % 100) / 10), dec_digit(h % 10)]
}

/// Distribution triples built from ranked pairs and one shared total.
pub open spec fn with_total(pairs: Seq<(Seq<char>, u64)>, t: int) -> Seq<(Seq<char>, u64, u64)> {
    Seq::new(pairs.len(), |i: int| (pairs[i].0, pairs[i].1, t as u64))
}

/// The rank marker for line `i` of a decorated rendering.
pub open spec fn medal(i: int) -> Seq<char> {
    if i == 0 {
        "🥇 "@
    } else if i == 1 {
        "🥈 "@
    } else if i == 2 {
        "🥉 "@
    } else {
        Seq::empty()
    }
}

/// One decorated line: marker, name, space, percentage, percent sign.
pub open spec fn data_line(d: (Seq<char>, u64, u64), i: int) -> Seq<char> {
    medal(i) + d.0 + seq![' '] + percent2(share_of(d)) + seq!['%', '\n']
}

/// All decorated lines from position `i` on.
pub open spec fn render_lines(s: Seq<(Seq<char>, u64, u64)>, i: int) -> Seq<char>
    decreases s.len(),
{
    if s.len() == 0 {
        Seq::empty()
    } else {
        data_line(s[0], i) + render_lines(s.drop_first(), i + 1)
    }
}

/// The full decorated rendering: lines plus the closing tag line; an
/// empty distribution renders as the empty string.
pub open spec fn render_decorated(s: Seq<(Seq<char>, u64, u64)>) -> Seq<char> {
    if s.len() == 0 {
        Seq::empty()
    } else {
        render_lines(s, 0) + "\n#stats"@
    }
}

/// One plain line: name, space, percentage.
pub open spec fn plain_line(d: (Seq<char>, u64, u64)) -> Seq<char> {
    d.0 + seq![' '] + percent2(share_of(d)) + seq!['\n']
}

/// The plain rendering: undecorated lines, no trailer.
pub open spec fn render_plain_spec(s: Seq<(Seq<char>, u64, u64)>) -> Seq<char>
    decreases s.len(),
{
    if s.len() == 0 {
        Seq::empty()
    } else {
        plain_line(s[0]) + render_plain_spec(s.drop_first())
    }
}

/// A ranked list knows how to render itself for display.
pub trait PrettyPrint {
    fn pretty_print(&self) -> String;
}

impl PrettyPrint for Vec<Data> {
    fn pretty_print(&self) -> (r: String)
        ensures
            r@ == render_decorated(data_views(self@)),
    {
        render_ranked(self)
    }
}

fn digit_str(d: u64) -> (r: &'static str)
    requires
        d < 10,
    ensures
        r@ == seq![dec_digit(d as int)],
{
    if d == 0 {
        proof {
            reveal_strlit("0");
            assert("0"@ =~= seq![dec_digit(0)]);
        }
        "0"
    } else if d == 1 {
        proof {
            reveal_strlit("1");
            assert("1"@ =~= seq![dec_digit(1)]);
        }
        "1"
    } else if d == 2 {
        proof {
            reveal_strlit("2");
            assert("2"@ =~= seq![dec_digit(2)]);
        }
        "2"
    } else if d == 3 {
        proof {
            reveal_strlit("3");
            assert("3"@ =~= seq![dec_digit(3)]);
        }
        "3"
    } else if d == 4 {
        proof {
            reveal_strlit("4");
            assert("4"@ =~= seq![dec_digit(4)]);
        }
        "4"
    } else if d == 5 {
        proof {
            reveal_strlit("5");
            assert("5"@ =~= seq![dec_digit(5)]);
        }
        "5"
    } else if d == 6 {
        proof {
            reveal_strlit("6");
            assert("6"@ =~= seq![dec_digit(6)]);
        }
        "6"
    } else if d == 7 {
        proof {
            reveal_strlit("7");
            assert("7"@ =~= seq![dec_digit(7)]);
        }
        "7"
    } else if d == 8 {
        proof {
            reveal_strlit("8");
            assert("8"@ =~= seq![dec_digit(8)]);
        }
        "8"
    } else {
        proof {
            reveal_strlit("9");
            assert("9"@ =~= seq![dec_digit(9)]);
        }
        "9"
    }
}

/// Decimal rendering of a `u64`.
pub fn u64_to_dec(n: u64) -> (r: String)
    ensures
        r@ == dec_str(n as int),
    decreases n,
{
    if n < 10 {
        String::from_str(digit_str(n))
    } else {
        let mut s = u64_to_dec(n / 10);
        s.append(digit_str(n % 10));
        proof {
            assert(dec_str((n / 10) as int).push(dec_digit((n % 10) as int)) =~= dec_str(
                (n / 10) as int,
            ) + seq![dec_digit((n % 10) as int)]);
        }
        s
    }
}

impl Data {
    /// The rounded share of this entry in hundredths of a percent.
    pub fn percent_hundredths(&self) -> (r: u64)
        ensures
            r as int == share_of(self@),
            r <= 10000,
    {
        if self.total == 0 || self.count > self.total {
            return 0;
        }
        let c: u128 = self.count as u128;
        let t: u128 = self.total as u128;
        proof {
            assert(c * 10000 + t / 2 <= u128::MAX) by {
                assert(c <= 0xffff_ffff_ffff_ffffu128);
                assert(c * 10000 <= 0xffff_ffff_ffff_ffffu128 * 10000);
            }
        }
        let num: u128 = c * 10000 + t / 2;
        let q: u128 = num / t;
        proof {
            assert(c * 10000 <= t * 10000);
            lemma_div_is_ordered((c * 10000 + t / 2) as int, (t * 10000 + t / 2) as int, t as int);
            lemma_div_multiples_vanish_fancy(10000, t as int / 2, t as int);
            assert((t * 10000 + t / 2) as int / (t as int) == 10000);
            assert(q <= 10000);
        }
        q as u64
    }

    /// This entry's percentage with two decimal places, e.g. `47.62`.
    pub fn percent_str(&self) -> (r: String)
        ensures
            r@ == percent2(share_of(self@)),
    {
        let h = self.percent_hundredths();
        let mut s = u64_to_dec(h / 100);
        s.append(".");
        let frac = h % 100;
        s.append(digit_str(frac / 10));
        s.append(digit_str(h % 10));
        proof {
            reveal_strlit(".");
            assert("."@ =~= seq!['.']);
            assert((frac / 10) as int == (share_of(self@) % 100) / 10);
            assert((h % 10) as int == share_of(self@) % 10);
            assert(s@ =~= percent2(share_of(self@)));
        }
        s
    }
}

proof fn lemma_render_lines_push(s: Seq<(Seq<char>, u64, u64)>, e: (Seq<char>, u64, u64), i: int)
    ensures
        render_lines(s.push(e), i) == render_lines(s, i) + data_line(e, i + s.len()),
    decreases s.len(),
{
    if s.len() == 0 {
        assert(s.push(e).drop_first() =~= Seq::<(Seq<char>, u64, u64)>::empty());
        assert(render_lines(Seq::<(Seq<char>, u64, u64)>::empty(), i + 1) =~= Seq::<char>::empty());
        assert(render_lines(s.push(e), i) =~= render_lines(s, i) + data_line(e, i + s.len()));
    } else {
        assert(s.push(e).drop_first() =~= s.drop_first().push(e));
        lemma_render_lines_push(s.drop_first(), e, i + 1);
        assert(render_lines(s.push(e), i) =~= render_lines(s, i) + data_line(e, i + s.len()));
    }
}

proof fn lemma_render_plain_push(s: Seq<(Seq<char>, u64, u64)>, e: (Seq<char>, u64, u64))
    ensures
        render_plain_spec(s.push(e)) == render_plain_spec(s) + plain_line(e),
    decreases s.len(),
{
    if s.len() == 0 {
        assert(s.push(e).drop_first() =~= Seq::<(Seq<char>, u64, u64)>::empty());
        assert(render_plain_spec(Seq::<(Seq<char>, u64, u64)>::empty()) =~= Seq::<char>::empty());
        assert(render_plain_spec(s.push(e)) =~= render_plain_spec(s) + plain_line(e));
    } else {
        assert(s.push(e).drop_first() =~= s.drop_first().push(e));
        lemma_render_plain_push(s.drop_first(), e);
        assert(render_plain_spec(s.push(e)) =~= render_plain_spec(s) + plain_line(e));
    }
}

/// Decorated rendering of a ranked distribution: one line per entry with
/// medal markers on the first three, closed by the tag line.
pub fn render_ranked(v: &Vec<Data>) -> (r: String)
    ensures
        r@ == render_decorated(data_views(v@)),
{
    let ghost dv = data_views(v@);
    let mut s = String::new();
    let mut k: usize = 0;
    proof {
        assert(dv.subrange(0, 0) =~= Seq::<(Seq<char>, u64, u64)>::empty());
    }
    if v.is_empty() {
        proof {
            assert(s@ =~= Seq::<char>::empty());
        }
        return s;
    }
    while k < v.len()
        invariant
            k <= v@.len(),
            dv == data_views(v@),
            s@ == render_lines(dv.subrange(0, k as int), 0),
        decreases v@.len() - k,
    {
        let ghost pre = dv.subrange(0, k as int);
        if k == 0 {
            s.append("🥇 ");
        } else if k == 1 {
            s.append("🥈 ");
        } else if k == 2 {
            s.append("🥉 ");
        }
        let d = &v[k];
        s.append(d.username.as_str());
        s.append(" ");
        let p = d.percent_str();
        s.append(p.as_str());
        s.append("%\n");
        proof {
            reveal_strlit(" ");
            reveal_strlit("%\n");
            assert(" "@ =~= seq![' ']);
            assert("%\n"@ =~= seq!['%', '\n']);
            assert(dv.subrange(0, k as int + 1) =~= pre.push(dv[k as int]));
            lemma_render_lines_push(pre, dv[k as int], 0);
            assert(s@ =~= render_lines(pre, 0) + data_line(dv[k as int], k as int));
        }
        k += 1;
    }
    s.append("\n#stats");
    proof {
        assert(dv.subrange(0, dv.len() as int) =~= dv);
    }
    s
}

/// Plain rendering of a distribution: undecorated `name percentage` lines.
pub fn render_plain(v: &Vec<Data>) -> (r: String)
    ensures
        r@ == render_plain_spec(data_views(v@)),
{
    let ghost dv = data_views(v@);
    let mut s = String::new();
    let mut k: usize = 0;
    proof {
        assert(dv.subrange(0, 0) =~= Seq::<(Seq<char>, u64, u64)>::empty());
    }
    while k < v.len()
        invariant
            k <= v@.len(),
            dv == data_views(v@),
            s@ == render_plain_spec(dv.subrange(0, k as int)),
        decreases v@.len() - k,
    {
        let ghost pre = dv.subrange(0, k as int);
        let d = &v[k];
        s.append(d.username.as_str());
        s.append(" ");
        let p = d.percent_str();
        s.append(p.as_str());
        s.append("\n");
        proof {
            reveal_strlit(" ");
            reveal_strlit("\n");
            assert(" "@ =~= seq![' ']);
            assert("\n"@ =~= seq!['\n']);
            assert(dv.subrange(0, k as int + 1) =~= pre.push(dv[k as int]));
            lemma_render_plain_push(pre, dv[k as int]);
            assert(s@ =~= render_plain_spec(pre) + plain_line(dv[k as int]));
        }
        k += 1;
    }
    proof {
        assert(dv.subrange(0, dv.len() as int) =~= dv);
    }
    s
}


/// The group statistics reply: the total on one line, the decorated
/// distribution below it.
pub fn group_stats_reply(total: u64, stats: &str) -> (r: String)
    ensures
        r@ == "Total: "@ + dec_str(total as int) + "\n"@ + stats@,
{
    let mut s = String::from_str("Total: ");
    let d = u64_to_dec(total);
    s.append(d.as_str());
    s.append("\n");
    s.append(stats);
    s
}

} // verus!
