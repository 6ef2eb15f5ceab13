//! Samples as text.

use crate::aqi::AqiSample;
use vstd::prelude::*;

verus! {

/// The character of a decimal digit.
pub open spec fn digit_char(d: nat) -> char {
    if d == 0 {
        '0'
    } else if d == 1 {
        '1'
    } else if d == 2 {
        '2'
    } else if d == 3 {
        '3'
    } else if d == 4 {
        '4'
    } else if d == 5 {
        '5'
    } else if d == 6 {
        '6'
    } else if d == 7 {
        '7'
    } else if d == 8 {
        '8'
    } else {
        '9'
    }
}

/// A number in decimal notation.
pub open spec fn decimal_text(n: nat) -> Seq<char>
    decreases n,
{
    if n < 10 {
        seq![digit_char(n)]
    } else {
        decimal_text(n / 10).push(digit_char(n % 10))
    }
}

/// A number in decimal notation, with spaces before it up to the given width.
pub open spec fn padded_text(n: nat, width: nat) -> Seq<char> {
    let text = decimal_text(n);
    if text.len() < width {
        Seq::new((width - text.len()) as nat, |i: int| ' ') + text
    } else {
        text
    }
}

/// The text of a sample whose interval began at the time of day `clock`.
pub open spec fn sample_text(sample: AqiSample, clock: Seq<char>) -> Seq<char> {
    clock + " "@ + (if sample.interval == 0 {
        "CUR"@
    } else {
        "   "@
    }) + " samples="@ + padded_text(sample.samples as nat, 3) + " pm10_sum="@ + padded_text(
        sample.pm10_sum as nat,
        2,
    ) + " pm25_sum="@ + padded_text(sample.pm25_sum as nat, 2) + " pm10_aqi="@ + padded_text(
        sample.pm10_aqi.unwrap_or(0) as nat,
        2,
    ) + " pm25_aqi="@ + padded_text(sample.pm25_aqi.unwrap_or(0) as nat, 2)
}

fn digit(d: u32) -> (text: &'static str)
    requires
        d < 10,
    ensures
        text@ == seq![digit_char(d as nat)],
{
    proof {
        reveal_strlit("0");
        reveal_strlit("1");
        reveal_strlit("2");
        reveal_strlit("3");
        reveal_strlit("4");
        reveal_strlit("5");
        reveal_strlit("6");
        reveal_strlit("7");
        reveal_strlit("8");
        reveal_strlit("9");
    }
    let text = match d {
        0 => "0",
        1 => "1",
        2 => "2",
        3 => "3",
        4 => "4",
        5 => "5",
        6 => "6",
        7 => "7",
        8 => "8",
        _ => "9",
    };
    assert(text@ =~= seq![digit_char(d as nat)]);
    text
}

/// Appends a number in decimal notation, and gives its number of digits.
fn append_decimal(text: &mut String, n: u32) -> (len: usize)
    ensures
        final(text)@ == old(text)@ + decimal_text(n as nat),
        len == decimal_text(n as nat).len(),
        n < 10 ==> len == 1,
        len <= n + 1,
    decreases n,
{
    let len: usize = if n < 10 {
        0
    } else {
        append_decimal(text, n / 10)
    };
    text.append(digit(n % 10));
    assert(text@ =~= old(text)@ + decimal_text(n as nat));
    len + 1
}

/// Appends a number in decimal notation, with spaces before it up to the given width.
fn append_padded(text: &mut String, n: u32, width: usize)
    ensures
        final(text)@ == old(text)@ + padded_text(n as nat, width as nat),
{
    let mut number = String::new();
    let len = append_decimal(&mut number, n);
    let ghost spaces = |k: int| Seq::new(k as nat, |i: int| ' ');
    let mut written: usize = len;
    assert(text@ =~= old(text)@ + spaces(0));
    while written < width
        invariant
            len <= written,
            written <= width || written == len,
            spaces == (|k: int| Seq::new(k as nat, |i: int| ' ')),
            text@ == old(text)@ + spaces(written - len),
        decreases width - written,
    {
        proof {
            reveal_strlit(" ");
        }
        text.append(" ");
        written = written + 1;
        assert(text@ =~= old(text)@ + spaces(written - len));
    }
    text.append(number.as_str());
    assert(text@ =~= old(text)@ + padded_text(n as nat, width as nat));
}

impl AqiSample {
    /// The sample as text, on one line. `clock` is the time of day at which its interval began;
    /// the sample of the current interval is marked. An index that does not exist is shown as 0.
    pub fn describe(&self, clock: &str) -> (text: String)
        ensures
            text@ == sample_text(*self, clock@),
    {
        let mut text = String::new();
        text.append(clock);
        text.append(" ");
        text.append(
            if self.interval == 0 {
                "CUR"
            } else {
                "   "
            },
        );
        text.append(" samples=");
        append_padded(&mut text, self.samples, 3);
        text.append(" pm10_sum=");
        append_padded(&mut text, self.pm10_sum, 2);
        text.append(" pm25_sum=");
        append_padded(&mut text, self.pm25_sum, 2);
        text.append(" pm10_aqi=");
        append_padded(&mut text, self.pm10_aqi.unwrap_or(0), 2);
        text.append(" pm25_aqi=");
        append_padded(&mut text, self.pm25_aqi.unwrap_or(0), 2);
        assert(text@ =~= sample_text(*self, clock@));
        text
    }
}

/// Whether some characters are all decimal digits.
pub open spec fn all_digits(text: Seq<char>) -> bool {
    forall|i: int| 0 <= i < text.len() ==> '0' as int <= #[trigger] text[i] as int <= '9' as int
}

/// The number that some decimal digits are read as.
pub open spec fn value_of(digits: Seq<char>) -> int
    decreases digits.len(),
{
    if digits.len() == 0 {
        0
    } else {
        10 * value_of(digits.drop_last()) + (digits.last() as int - '0' as int)
    }
}

/// Whether a text is the number `n` from its character `from` on: decimal digits without a needless
/// zero, after spaces that only fill it up to the given width.
pub open spec fn number_from(text: Seq<char>, from: int, n: int, width: int) -> bool {
    &&& 0 <= from < text.len()
    &&& forall|i: int| 0 <= i < from ==> #[trigger] text[i] == ' '
    &&& all_digits(text.skip(from))
    &&& value_of(text.skip(from)) == n
    &&& text[from] == '0' ==> from == text.len() - 1
    &&& text.len() >= width
    &&& from > 0 ==> text.len() == width
}

/// Whether a text is read as the number `n`, in a field of the given width.
pub open spec fn reads_as(text: Seq<char>, n: int, width: int) -> bool {
    exists|from: int| #[trigger] number_from(text, from, n, width)
}

/// What is shown of an index: there is a 0 for one that does not exist.
pub open spec fn shown(index: Option<u32>) -> int {
    match index {
        Some(i) => i as int,
        None => 0,
    }
}

/// Whether a line shows a sample whose interval began at the time of day `clock`: that time, a mark
/// if the interval is the current one, and five fields that are read as what the sample holds.
pub open spec fn shows(
    line: Seq<char>,
    sample: AqiSample,
    clock: Seq<char>,
    fields: Seq<Seq<char>>,
) -> bool {
    &&& fields.len() == 5
    &&& reads_as(fields[0], sample.samples as int, 3)
    &&& reads_as(fields[1], sample.pm10_sum as int, 2)
    &&& reads_as(fields[2], sample.pm25_sum as int, 2)
    &&& reads_as(fields[3], shown(sample.pm10_aqi), 2)
    &&& reads_as(fields[4], shown(sample.pm25_aqi), 2)
    &&& line == clock + ((if sample.interval == 0 {
        " CUR samples="@
    } else {
        "     samples="@
    }) + (fields[0] + (" pm10_sum="@ + (fields[1] + (" pm25_sum="@ + (fields[2] + (" pm10_aqi="@ + (
    fields[3] + (" pm25_aqi="@ + fields[4])))))))))
}

proof fn lemma_decimal_is_read_back(n: nat)
    ensures
        decimal_text(n).len() >= 1,
        all_digits(decimal_text(n)),
        value_of(decimal_text(n)) == n,
        decimal_text(n)[0] == '0' ==> n == 0 && decimal_text(n).len() == 1,
    decreases n,
{
    let text = decimal_text(n);
    if n < 10 {
        assert(text.drop_last() =~= Seq::<char>::empty());
        assert(value_of(text.drop_last()) == 0);
    } else {
        lemma_decimal_is_read_back(n / 10);
        assert(text.drop_last() =~= decimal_text(n / 10));
        assert(text[0] == decimal_text(n / 10)[0]);
    }
}

proof fn lemma_padded_is_read_back(n: nat, width: nat)
    ensures
        reads_as(padded_text(n, width), n as int, width as int),
{
    let number = decimal_text(n);
    let text = padded_text(n, width);
    let from = text.len() - number.len();
    lemma_decimal_is_read_back(n);
    assert(text.skip(from) =~= number);
    assert(text[from] == number[0]);
    assert(number_from(text, from, n as int, width as int));
}

proof fn lemma_regrouped(a: Seq<char>, b: Seq<char>, c: Seq<char>)
    ensures
        a + b + c == a + (b + c),
{
    assert(a + b + c =~= a + (b + c));
}

/// The line of a sample shows it: every field is read back as the number that the sample holds.
pub proof fn law_line_shows_the_sample(sample: AqiSample, clock: Seq<char>)
    ensures
        exists|fields: Seq<Seq<char>>| shows(sample_text(sample, clock), sample, clock, fields),
{
    let fields = seq![
        padded_text(sample.samples as nat, 3),
        padded_text(sample.pm10_sum as nat, 2),
        padded_text(sample.pm25_sum as nat, 2),
        padded_text(sample.pm10_aqi.unwrap_or(0) as nat, 2),
        padded_text(sample.pm25_aqi.unwrap_or(0) as nat, 2),
    ];
    lemma_padded_is_read_back(sample.samples as nat, 3);
    lemma_padded_is_read_back(sample.pm10_sum as nat, 2);
    lemma_padded_is_read_back(sample.pm25_sum as nat, 2);
    lemma_padded_is_read_back(sample.pm10_aqi.unwrap_or(0) as nat, 2);
    lemma_padded_is_read_back(sample.pm25_aqi.unwrap_or(0) as nat, 2);
    let mark = if sample.interval == 0 {
        "CUR"@
    } else {
        "   "@
    };
    assert(" CUR samples="@ == " "@ + ("CUR"@ + " samples="@) && "     samples="@ == " "@ + (
    "   "@ + " samples="@)) by {
        reveal_strlit(" ");
        reveal_strlit("CUR");
        reveal_strlit("   ");
        reveal_strlit(" samples=");
        reveal_strlit(" CUR samples=");
        reveal_strlit("     samples=");
        assert(" CUR samples="@ =~= " "@ + ("CUR"@ + " samples="@));
        assert("     samples="@ =~= " "@ + ("   "@ + " samples="@));
    }
    lemma_regrouped(clock, " "@, mark + " samples="@);
    lemma_regrouped(clock + " "@, mark, " samples="@);
    let start = clock + (" "@ + (mark + " samples="@));
    let p1 = start + fields[0] + " pm10_sum="@;
    let p2 = p1 + fields[1] + " pm25_sum="@;
    let p3 = p2 + fields[2] + " pm10_aqi="@;
    let r4 = fields[4];
    let r3 = fields[3] + (" pm25_aqi="@ + r4);
    let r2 = fields[2] + (" pm10_aqi="@ + r3);
    let r1 = fields[1] + (" pm25_sum="@ + r2);
    let r0 = fields[0] + (" pm10_sum="@ + r1);
    lemma_regrouped(p3 + fields[3], " pm25_aqi="@, r4);
    lemma_regrouped(p3, fields[3], " pm25_aqi="@ + r4);
    lemma_regrouped(p2 + fields[2], " pm10_aqi="@, r3);
    lemma_regrouped(p2, fields[2], " pm10_aqi="@ + r3);
    lemma_regrouped(p1 + fields[1], " pm25_sum="@, r2);
    lemma_regrouped(p1, fields[1], " pm25_sum="@ + r2);
    lemma_regrouped(start + fields[0], " pm10_sum="@, r1);
    lemma_regrouped(start, fields[0], " pm10_sum="@ + r1);
    lemma_regrouped(clock, " "@ + (mark + " samples="@), r0);
    assert(shows(sample_text(sample, clock), sample, clock, fields));
}

proof fn lemma_same_start<A>(p: Seq<A>, r: Seq<A>, q: Seq<A>, s: Seq<A>)
    requires
        p + r == q + s,
        p.len() == q.len(),
    ensures
        p == q,
        r == s,
{
    assert(p =~= (p + r).take(p.len() as int));
    assert(q =~= (q + s).take(q.len() as int));
    assert(r =~= (p + r).skip(p.len() as int));
    assert(s =~= (q + s).skip(q.len() as int));
}

/// A field ends where its digits do, so a line can be taken apart in one way only.
proof fn lemma_same_field(
    a: Seq<char>,
    x: Seq<char>,
    m: int,
    b: Seq<char>,
    y: Seq<char>,
    n: int,
    width: int,
)
    requires
        reads_as(a, m, width),
        reads_as(b, n, width),
        x.len() > 0 ==> x[0] == ' ',
        y.len() > 0 ==> y[0] == ' ',
        a + x == b + y,
    ensures
        m == n,
        x == y,
{
    let k = choose|from: int| number_from(a, from, m, width);
    let l = choose|from: int| number_from(b, from, n, width);
    let line = a + x;
    assert(forall|i: int| k <= i < a.len() ==> #[trigger] a[i] == a.skip(k)[i - k]);
    assert(forall|i: int| l <= i < b.len() ==> #[trigger] b[i] == b.skip(l)[i - l]);
    assert(forall|i: int| 0 <= i < a.len() ==> #[trigger] line[i] == a[i]);
    assert(forall|i: int| 0 <= i < b.len() ==> #[trigger] line[i] == b[i]);
    assert(k == l) by {
        if k < l {
            assert(line[k] == a[k] && line[k] == b[k]);
        } else if l < k {
            assert(line[l] == a[l] && line[l] == b[l]);
        }
    }
    assert(a.len() == b.len()) by {
        let i = a.len() as int;
        let j = b.len() as int;
        if i < j {
            assert(line[i] == x[0] && line[i] == b[i]);
        } else if j < i {
            assert(line[j] == y[0] && line[j] == a[j]);
        }
    }
    lemma_same_start(a, x, b, y);
}

/// Lines with the same time of day are the same only if they are of samples with the same numbers
/// that are both of the current interval or both not.
pub proof fn law_line_tells_samples_apart(s: AqiSample, t: AqiSample, clock: Seq<char>)
    requires
        sample_text(s, clock) == sample_text(t, clock),
    ensures
        s.interval == 0 <==> t.interval == 0,
        s.samples == t.samples,
        s.pm10_sum == t.pm10_sum,
        s.pm25_sum == t.pm25_sum,
        shown(s.pm10_aqi) == shown(t.pm10_aqi),
        shown(s.pm25_aqi) == shown(t.pm25_aqi),
{
    law_line_shows_the_sample(s, clock);
    law_line_shows_the_sample(t, clock);
    let line = sample_text(s, clock);
    let f = choose|fields: Seq<Seq<char>>| shows(line, s, clock, fields);
    let g = choose|fields: Seq<Seq<char>>| shows(line, t, clock, fields);
    reveal_strlit(" CUR samples=");
    reveal_strlit("     samples=");
    reveal_strlit(" pm10_sum=");
    reveal_strlit(" pm25_sum=");
    reveal_strlit(" pm10_aqi=");
    reveal_strlit(" pm25_aqi=");
    let s_mark = if s.interval == 0 {
        " CUR samples="@
    } else {
        "     samples="@
    };
    let t_mark = if t.interval == 0 {
        " CUR samples="@
    } else {
        "     samples="@
    };
    let s3 = " pm25_aqi="@ + f[4];
    let t3 = " pm25_aqi="@ + g[4];
    let s2 = " pm10_aqi="@ + (f[3] + s3);
    let t2 = " pm10_aqi="@ + (g[3] + t3);
    let s1 = " pm25_sum="@ + (f[2] + s2);
    let t1 = " pm25_sum="@ + (g[2] + t2);
    let s0 = " pm10_sum="@ + (f[1] + s1);
    let t0 = " pm10_sum="@ + (g[1] + t1);
    lemma_same_start(clock, s_mark + (f[0] + s0), clock, t_mark + (g[0] + t0));
    lemma_same_start(s_mark, f[0] + s0, t_mark, g[0] + t0);
    assert(" CUR samples="@[1] == 'C' && "     samples="@[1] == ' ');
    lemma_same_field(f[0], s0, s.samples as int, g[0], t0, t.samples as int, 3);
    lemma_same_start(" pm10_sum="@, f[1] + s1, " pm10_sum="@, g[1] + t1);
    lemma_same_field(f[1], s1, s.pm10_sum as int, g[1], t1, t.pm10_sum as int, 2);
    lemma_same_start(" pm25_sum="@, f[2] + s2, " pm25_sum="@, g[2] + t2);
    lemma_same_field(f[2], s2, s.pm25_sum as int, g[2], t2, t.pm25_sum as int, 2);
    lemma_same_start(" pm10_aqi="@, f[3] + s3, " pm10_aqi="@, g[3] + t3);
    lemma_same_field(f[3], s3, shown(s.pm10_aqi), g[3], t3, shown(t.pm10_aqi), 2);
    lemma_same_start(" pm25_aqi="@, f[4], " pm25_aqi="@, g[4]);
    let end = Seq::<char>::empty();
    assert(f[4] + end =~= f[4] && g[4] + end =~= g[4]);
    lemma_same_field(f[4], end, shown(s.pm25_aqi), g[4], end, shown(t.pm25_aqi), 2);
}

/// A description shows its sample, see [`shows`], and two descriptions with the same time of day
/// are the same only if their samples have the same numbers.
pub proof fn law_description_shows_the_sample(
    s: AqiSample,
    t: AqiSample,
    clock: &str,
    s_text: String,
    t_text: String,
)
    requires
        call_ensures(AqiSample::describe, (&s, clock), s_text),
        call_ensures(AqiSample::describe, (&t, clock), t_text),
    ensures
        exists|fields: Seq<Seq<char>>| shows(s_text@, s, clock@, fields),
        s_text@ == t_text@ ==> (s.interval == 0 <==> t.interval == 0) && s.samples == t.samples
            && s.pm10_sum == t.pm10_sum && s.pm25_sum == t.pm25_sum && shown(s.pm10_aqi) == shown(
            t.pm10_aqi,
        ) && shown(s.pm25_aqi) == shown(t.pm25_aqi),
{
    law_line_shows_the_sample(s, clock@);
    if s_text@ == t_text@ {
        law_line_tells_samples_apart(s, t, clock@);
    }
}

} // verus!
