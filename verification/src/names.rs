//! Plot file names: `optimized.{address}-{start}-{end}.dat`, where the address
//! is 40 upper-case letters or digits and `start .. end` is the nonce range.

use vstd::prelude::*;
use vstd::string::StrSliceExecFns;
use crate::text::{decimal, digit_char, push_char, push_decimal};

verus! {

/// An upper-case ASCII letter or an ASCII digit.
pub open spec fn is_address_char(c: char) -> bool {
    ('A' <= c && c <= 'Z') || ('0' <= c && c <= '9')
}

/// An ASCII digit.
pub open spec fn is_digit(c: char) -> bool {
    '0' <= c && c <= '9'
}

/// A non-empty run of ASCII digits.
pub open spec fn is_numeral(s: Seq<char>) -> bool {
    s.len() > 0 && forall|i: int| 0 <= i < s.len() ==> #[trigger] is_digit(s[i])
}

/// The value of a run of decimal digits.
pub open spec fn numeral_value(s: Seq<char>) -> nat
    decreases s.len(),
{
    if s.len() == 0 {
        0
    } else {
        numeral_value(s.drop_last()) * 10 + (s.last() as nat - 48) as nat
    }
}

/// A plot address: 40 upper-case letters or digits.
pub open spec fn is_plot_address(a: Seq<char>) -> bool {
    a.len() == 40 && forall|i: int| 0 <= i < 40 ==> #[trigger] is_address_char(a[i])
}

/// The name `{prefix}{address}-{first}-{second}{suffix}`.
pub open spec fn plot_name_text(
    prefix: Seq<char>,
    address: Seq<char>,
    first: Seq<char>,
    second: Seq<char>,
    suffix: Seq<char>,
) -> Seq<char> {
    prefix + address + seq!['-'] + first + seq!['-'] + second + suffix
}

/// `name` is `optimized.{address}-{first}-{second}.dat` with a plot address and two numerals.
pub open spec fn is_plot_name(name: Seq<char>, address: Seq<char>, first: Seq<char>, second: Seq<char>) -> bool {
    &&& name == plot_name_text("optimized."@, address, first, second, ".dat"@)
    &&& is_plot_address(address)
    &&& is_numeral(first)
    &&& is_numeral(second)
}

/// The address, start and end a plot file name spells, if it is one.
pub open spec fn plot_name_reading(name: Seq<char>) -> Option<(Seq<char>, nat, nat)> {
    if exists|a: Seq<char>, f: Seq<char>, s: Seq<char>| is_plot_name(name, a, f, s) {
        let (a, f, s) = choose|a: Seq<char>, f: Seq<char>, s: Seq<char>| is_plot_name(name, a, f, s);
        Some((a, numeral_value(f), numeral_value(s)))
    } else {
        None
    }
}

/// What a file name says about the plots it holds.
#[derive(Debug)]
pub enum PlotName {
    /// The name is not that of an optimized plot file.
    NotPlot,
    /// An optimized plot file of `address` for nonces `start .. end`.
    Plot { address: String, start: usize, end: usize },
    /// A plot file name of `address` whose start or end does not fit in a `usize`.
    TooLarge { address: String },
}

/// Builds `{prefix}{address}-{start}-{end}{suffix}`.
pub fn plot_file_name(prefix: &str, address: &str, start: u64, end: u64, suffix: &str) -> (name: String)
    ensures
        name@ == plot_name_text(prefix@, address@, decimal(start as nat), decimal(end as nat), suffix@),
{
    let mut name = prefix.to_string();
    proof {
        vstd::string::to_string_from_display_ensures_for_str(prefix, name);
    }
    name.append(address);
    push_char(&mut name, '-');
    push_decimal(&mut name, start);
    push_char(&mut name, '-');
    push_decimal(&mut name, end);
    name.append(suffix);
    assert(name@ =~= plot_name_text(prefix@, address@, decimal(start as nat), decimal(end as nat), suffix@));
    name
}

/// The positions of the parts of a plot name.
pub proof fn lemma_plot_name_shape(name: Seq<char>, address: Seq<char>, first: Seq<char>, second: Seq<char>)
    requires
        is_plot_name(name, address, first, second),
    ensures
        name.len() == 56 + first.len() + second.len(),
        forall|i: int| 0 <= i < 10 ==> name[i] == #[trigger] "optimized."@[i],
        forall|i: int| 0 <= i < 40 ==> name[10 + i] == #[trigger] address[i],
        name[50] == '-',
        forall|i: int| 0 <= i < first.len() ==> name[51 + i] == #[trigger] first[i],
        name[51 + first.len() as int] == '-',
        forall|i: int| 0 <= i < second.len() ==> name[52 + first.len() + i] == #[trigger] second[i],
        forall|i: int| 0 <= i < 4 ==> name[52 + first.len() + second.len() + i] == #[trigger] ".dat"@[i],
{
    reveal_strlit("optimized.");
    reveal_strlit(".dat");
}

/// Adding one digit to a numeral.
proof fn lemma_numeral_push(s: Seq<char>, c: char)
    ensures
        numeral_value(s.push(c)) == numeral_value(s) * 10 + (c as nat - 48) as nat,
{
    assert(s.push(c).drop_last() =~= s);
}

/// Where a scan of digits from position 51 stops in a plot name: right at the
/// dash after the first numeral.
proof fn lemma_first_numeral_end(name: Seq<char>, a: Seq<char>, f: Seq<char>, s: Seq<char>, p: int)
    requires
        is_plot_name(name, a, f, s),
        51 <= p <= name.len() - 4,
        forall|k: int| 51 <= k < p ==> is_digit(#[trigger] name[k]),
        p == name.len() - 4 || !is_digit(name[p]),
    ensures
        p == 51 + f.len(),
{
    lemma_plot_name_shape(name, a, f, s);
    let e = 51 + f.len() as int;
    if p < e {
        assert(name[51 + (p - 51)] == f[p - 51]);
        assert(is_digit(f[p - 51]));
    } else if p > e {
        assert(is_digit(name[e]));
    }
}

/// Parses a file name of the form `optimized.{address}-{start}-{end}.dat`.
pub fn parse_plot_name(name: &str) -> (r: PlotName)
    ensures
        match plot_name_reading(name@) {
            None => r is NotPlot,
            Some((a, start, end)) => if start <= usize::MAX && end <= usize::MAX {
                r matches PlotName::Plot { address, start: lo, end: hi } && address@ == a && lo
                    == start && hi == end
            } else {
                r matches PlotName::TooLarge { address } && address@ == a
            },
        },
{
    let prefix = "optimized.";
    let suffix = ".dat";
    proof {
        reveal_strlit("optimized.");
        reveal_strlit(".dat");
    }
    let n = name.unicode_len();
    if n < 58 {
        proof {
            assert forall|a: Seq<char>, f: Seq<char>, s: Seq<char>| !is_plot_name(name@, a, f, s) by {
                if is_plot_name(name@, a, f, s) {
                    lemma_plot_name_shape(name@, a, f, s);
                }
            }
        }
        return PlotName::NotPlot;
    }
    let mut i: usize = 0;
    while i < 10
        invariant
            n == name@.len(),
            n >= 58,
            prefix@ == "optimized."@,
            prefix@.len() == 10,
            i <= 10,
            forall|k: int| 0 <= k < i ==> name@[k] == "optimized."@[k],
        decreases 10 - i,
    {
        if name.get_char(i) != prefix.get_char(i) {
            proof {
                assert forall|a: Seq<char>, f: Seq<char>, s: Seq<char>| !is_plot_name(name@, a, f, s) by {
                    if is_plot_name(name@, a, f, s) {
                        lemma_plot_name_shape(name@, a, f, s);
                        assert(name@[i as int] == "optimized."@[i as int]);
                    }
                }
            }
            return PlotName::NotPlot;
        }
        i = i + 1;
    }
    while i < 50
        invariant
            n == name@.len(),
            n >= 58,
            10 <= i <= 50,
            forall|k: int| 10 <= k < i ==> is_address_char(#[trigger] name@[k]),
        decreases 50 - i,
    {
        let c = name.get_char(i);
        if !(('A' <= c && c <= 'Z') || ('0' <= c && c <= '9')) {
            proof {
                assert forall|a: Seq<char>, f: Seq<char>, s: Seq<char>| !is_plot_name(name@, a, f, s) by {
                    if is_plot_name(name@, a, f, s) {
                        lemma_plot_name_shape(name@, a, f, s);
                        assert(name@[10 + (i - 10)] == a[i - 10]);
                        assert(is_address_char(a[i - 10]));
                    }
                }
            }
            return PlotName::NotPlot;
        }
        i = i + 1;
    }
    if name.get_char(50) != '-' {
        proof {
            assert forall|a: Seq<char>, f: Seq<char>, s: Seq<char>| !is_plot_name(name@, a, f, s) by {
                if is_plot_name(name@, a, f, s) {
                    lemma_plot_name_shape(name@, a, f, s);
                }
            }
        }
        return PlotName::NotPlot;
    }
    // the first numeral
    let mut p: usize = 51;
    let mut start: usize = 0;
    let mut start_too_large = false;
    loop
        invariant
            n == name@.len(),
            n >= 58,
            51 <= p <= n - 4,
            forall|k: int| 51 <= k < p ==> is_digit(#[trigger] name@[k]),
            start_too_large <==> numeral_value(name@.subrange(51, p as int)) > usize::MAX,
            !start_too_large ==> start == numeral_value(name@.subrange(51, p as int)),
        ensures
            p == n - 4 || !is_digit(name@[p as int]),
        decreases n - p,
    {
        if p >= n - 4 {
            break;
        }
        let c = name.get_char(p);
        if !('0' <= c && c <= '9') {
            break;
        }
        let d = (c as u32 - 48) as usize;
        let ghost prev = name@.subrange(51, p as int);
        proof {
            assert(name@.subrange(51, p + 1) =~= prev.push(c));
            lemma_numeral_push(prev, c);
        }
        if !start_too_large {
            if start > (usize::MAX - d) / 10 {
                start_too_large = true;
            } else {
                start = start * 10 + d;
            }
        }
        p = p + 1;
    }
    if p == 51 || p == n - 4 || name.get_char(p) != '-' {
        proof {
            assert forall|a: Seq<char>, f: Seq<char>, s: Seq<char>| !is_plot_name(name@, a, f, s) by {
                if is_plot_name(name@, a, f, s) {
                    lemma_plot_name_shape(name@, a, f, s);
                    lemma_first_numeral_end(name@, a, f, s, p as int);
                }
            }
        }
        return PlotName::NotPlot;
    }
    // the second numeral
    let mut q: usize = p + 1;
    let mut end: usize = 0;
    let mut end_too_large = false;
    if q == n - 4 {
        proof {
            assert forall|a: Seq<char>, f: Seq<char>, s: Seq<char>| !is_plot_name(name@, a, f, s) by {
                if is_plot_name(name@, a, f, s) {
                    lemma_plot_name_shape(name@, a, f, s);
                    lemma_first_numeral_end(name@, a, f, s, p as int);
                }
            }
        }
        return PlotName::NotPlot;
    }
    while q < n - 4
        invariant
            n == name@.len(),
            n >= 58,
            51 < p,
            p + 1 < n - 4,
            name@[p as int] == '-',
            forall|k: int| 51 <= k < p ==> is_digit(#[trigger] name@[k]),
            p + 1 <= q <= n - 4,
            forall|k: int| p + 1 <= k < q ==> is_digit(#[trigger] name@[k]),
            start_too_large <==> numeral_value(name@.subrange(51, p as int)) > usize::MAX,
            !start_too_large ==> start == numeral_value(name@.subrange(51, p as int)),
            end_too_large <==> numeral_value(name@.subrange(p + 1, q as int)) > usize::MAX,
            !end_too_large ==> end == numeral_value(name@.subrange(p + 1, q as int)),
        decreases n - q,
    {
        let c = name.get_char(q);
        if !('0' <= c && c <= '9') {
            proof {
                assert forall|a: Seq<char>, f: Seq<char>, s: Seq<char>| !is_plot_name(name@, a, f, s) by {
                    if is_plot_name(name@, a, f, s) {
                        lemma_plot_name_shape(name@, a, f, s);
                        lemma_first_numeral_end(name@, a, f, s, p as int);
                        assert(name@[52 + f.len() + (q - p - 1)] == s[q - p - 1]);
                        assert(is_digit(s[q - p - 1]));
                    }
                }
            }
            return PlotName::NotPlot;
        }
        let d = (c as u32 - 48) as usize;
        let ghost prev = name@.subrange(p + 1, q as int);
        proof {
            assert(name@.subrange(p + 1, q + 1) =~= prev.push(c));
            lemma_numeral_push(prev, c);
        }
        if !end_too_large {
            if end > (usize::MAX - d) / 10 {
                end_too_large = true;
            } else {
                end = end * 10 + d;
            }
        }
        q = q + 1;
    }
    let mut k: usize = 0;
    while k < 4
        invariant
            n == name@.len(),
            start_too_large <==> numeral_value(name@.subrange(51, p as int)) > usize::MAX,
            !start_too_large ==> start == numeral_value(name@.subrange(51, p as int)),
            end_too_large <==> numeral_value(name@.subrange(p + 1, n - 4)) > usize::MAX,
            !end_too_large ==> end == numeral_value(name@.subrange(p + 1, n - 4)),
            n >= 58,
            suffix@ == ".dat"@,
            suffix@.len() == 4,
            k <= 4,
            forall|j: int| 0 <= j < k ==> name@[n - 4 + j] == ".dat"@[j],
        decreases 4 - k,
    {
        if name.get_char(n - 4 + k) != suffix.get_char(k) {
            proof {
                assert forall|a: Seq<char>, f: Seq<char>, s: Seq<char>| !is_plot_name(name@, a, f, s) by {
                    if is_plot_name(name@, a, f, s) {
                        lemma_plot_name_shape(name@, a, f, s);
                        assert(name@[52 + f.len() + s.len() + k] == ".dat"@[k as int]);
                    }
                }
            }
            return PlotName::NotPlot;
        }
        k = k + 1;
    }
    let ghost a = name@.subrange(10, 50);
    let ghost f = name@.subrange(51, p as int);
    let ghost s = name@.subrange(p + 1, n - 4);
    assert(name@ =~= plot_name_text("optimized."@, a, f, s, ".dat"@));
    assert(is_plot_address(a));
    assert(is_numeral(f));
    assert(is_numeral(s));
    assert(is_plot_name(name@, a, f, s));
    proof {
        lemma_plot_name_reading(name@, a, f, s);
    }
    let address_part = name.substring_char(10, 50);
    let address = address_part.to_string();
    proof {
        vstd::string::to_string_from_display_ensures_for_str(address_part, address);
    }
    if start_too_large || end_too_large {
        return PlotName::TooLarge { address };
    }
    PlotName::Plot { address, start, end }
}

/// A plot name has only one reading.
pub proof fn lemma_plot_name_unique(
    name: Seq<char>,
    a1: Seq<char>,
    f1: Seq<char>,
    s1: Seq<char>,
    a2: Seq<char>,
    f2: Seq<char>,
    s2: Seq<char>,
)
    requires
        is_plot_name(name, a1, f1, s1),
        is_plot_name(name, a2, f2, s2),
    ensures
        a1 == a2,
        f1 == f2,
        s1 == s2,
{
    lemma_plot_name_shape(name, a1, f1, s1);
    lemma_plot_name_shape(name, a2, f2, s2);
    assert forall|i: int| 0 <= i < 40 implies a1[i] == a2[i] by {
        assert(name[10 + i] == a1[i]);
        assert(name[10 + i] == a2[i]);
    }
    assert(a1 =~= a2);
    if f1.len() < f2.len() {
        let k = f1.len() as int;
        assert(name[51 + k] == f2[k]);
        assert(is_digit(f2[k]));
    } else if f2.len() < f1.len() {
        let k = f2.len() as int;
        assert(name[51 + k] == f1[k]);
        assert(is_digit(f1[k]));
    }
    assert forall|i: int| 0 <= i < f1.len() implies f1[i] == f2[i] by {
        assert(name[51 + i] == f1[i]);
        assert(name[51 + i] == f2[i]);
    }
    assert(f1 =~= f2);
    assert forall|i: int| 0 <= i < s1.len() implies s1[i] == s2[i] by {
        assert(name[52 + f1.len() + i] == s1[i]);
        assert(name[52 + f2.len() + i] == s2[i]);
    }
    assert(s1 =~= s2);
}

/// A decimal numeral is a numeral, and its value is the number written.
pub proof fn lemma_decimal_numeral(n: nat)
    ensures
        is_numeral(decimal(n)),
        numeral_value(decimal(n)) == n,
    decreases n,
{
    let d = digit_char(n % 10);
    assert(d as nat == 48 + n % 10);
    if n >= 10 {
        lemma_decimal_numeral(n / 10);
        let prev = decimal(n / 10);
        assert(decimal(n) == prev.push(d));
        lemma_numeral_push(prev, d);
        assert(n == (n / 10) * 10 + n % 10);
        assert forall|i: int| 0 <= i < decimal(n).len() implies #[trigger] is_digit(decimal(n)[i]) by {
            if i < prev.len() {
                assert(decimal(n)[i] == prev[i]);
            }
        }
    } else {
        lemma_numeral_push(Seq::<char>::empty(), d);
        assert(Seq::<char>::empty().push(d) =~= seq![d]);
    }
}

/// The name of the optimized plot file of `address` for nonces `start .. end`
/// reads back as exactly that address, start and end.
pub proof fn lemma_plot_name_roundtrip(address: Seq<char>, start: nat, end: nat)
    requires
        is_plot_address(address),
    ensures
        plot_name_reading(plot_name_text("optimized."@, address, decimal(start), decimal(end), ".dat"@))
            == Some((address, start, end)),
{
    let name = plot_name_text("optimized."@, address, decimal(start), decimal(end), ".dat"@);
    lemma_decimal_numeral(start);
    lemma_decimal_numeral(end);
    assert(is_plot_name(name, address, decimal(start), decimal(end)));
    lemma_plot_name_reading(name, address, decimal(start), decimal(end));
}

/// The reading of a plot name is its only decomposition.
pub proof fn lemma_plot_name_reading(name: Seq<char>, a: Seq<char>, f: Seq<char>, s: Seq<char>)
    requires
        is_plot_name(name, a, f, s),
    ensures
        plot_name_reading(name) == Some((a, numeral_value(f), numeral_value(s))),
{
    let (a2, f2, s2) = choose|a: Seq<char>, f: Seq<char>, s: Seq<char>| is_plot_name(name, a, f, s);
    lemma_plot_name_unique(name, a, f, s, a2, f2, s2);
}

} // verus!
