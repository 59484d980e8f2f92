//! Character-level helpers: whitespace trimming, decimal numerals and
//! splitting a header value on commas.

use vstd::prelude::*;

verus! {

/// Unicode `White_Space`, the set that `char::is_whitespace` accepts.
pub open spec fn is_space(c: char) -> bool {
    ||| c == '\t' || c == '\n' || c == '\u{0B}' || c == '\u{0C}' || c == '\r' || c == ' '
    ||| c == '\u{85}' || c == '\u{A0}' || c == '\u{1680}'
    ||| ('\u{2000}' <= c && c <= '\u{200A}')
    ||| c == '\u{2028}' || c == '\u{2029}' || c == '\u{202F}' || c == '\u{205F}'
    ||| c == '\u{3000}'
}

pub fn is_space_char(c: char) -> (r: bool)
    ensures
        r == is_space(c),
{
    c == '\t' || c == '\n' || c == '\u{0B}' || c == '\u{0C}' || c == '\r' || c == ' '
        || c == '\u{85}' || c == '\u{A0}' || c == '\u{1680}' || ('\u{2000}' <= c && c
        <= '\u{200A}') || c == '\u{2028}' || c == '\u{2029}' || c == '\u{202F}' || c
        == '\u{205F}' || c == '\u{3000}'
}

/// `s` without its leading whitespace.
pub open spec fn trim_start(s: Seq<char>) -> Seq<char>
    decreases s.len(),
{
    if s.len() > 0 && is_space(s[0]) {
        trim_start(s.drop_first())
    } else {
        s
    }
}

/// `s` without its trailing whitespace.
pub open spec fn trim_end(s: Seq<char>) -> Seq<char>
    decreases s.len(),
{
    if s.len() > 0 && is_space(s.last()) {
        trim_end(s.drop_last())
    } else {
        s
    }
}

/// `s` without leading and trailing whitespace, as `str::trim` gives it.
pub open spec fn trimmed(s: Seq<char>) -> Seq<char> {
    trim_end(trim_start(s))
}

/// Returns the part of `s` left after removing leading and trailing whitespace.
pub fn trim(s: &str) -> (r: &str)
    ensures
        r@ == trimmed(s@),
{
    let n = s.unicode_len();
    let mut lo: usize = 0;
    assert(s@.subrange(0, n as int) =~= s@);
    while lo < n && is_space_char(s.get_char(lo))
        invariant
            n == s@.len(),
            lo <= n,
            trim_start(s@) == trim_start(s@.subrange(lo as int, n as int)),
        decreases n - lo,
    {
        assert(s@.subrange(lo as int, n as int).drop_first() =~= s@.subrange(
            lo as int + 1,
            n as int,
        ));
        lo = lo + 1;
    }
    assert(trim_start(s@) == s@.subrange(lo as int, n as int));
    let mut hi: usize = n;
    while hi > lo && is_space_char(s.get_char(hi - 1))
        invariant
            n == s@.len(),
            lo <= hi <= n,
            trimmed(s@) == trim_end(s@.subrange(lo as int, hi as int)),
        decreases hi,
    {
        assert(s@.subrange(lo as int, hi as int).drop_last() =~= s@.subrange(
            lo as int,
            hi as int - 1,
        ));
        hi = hi - 1;
    }
    s.substring_char(lo, hi)
}

pub open spec fn is_digit(c: char) -> bool {
    '0' <= c && c <= '9'
}

pub open spec fn digit_value(c: char) -> nat {
    (c as nat - '0' as nat) as nat
}

/// The value of a string of decimal digits, most significant first.
pub open spec fn digits_value(s: Seq<char>) -> nat
    decreases s.len(),
{
    if s.len() == 0 {
        0
    } else {
        digits_value(s.drop_last()) * 10 + digit_value(s.last())
    }
}

/// The digits of a numeral, after an optional leading `+`.
pub open spec fn unsigned_digits(s: Seq<char>) -> Seq<char> {
    if s.len() > 0 && s[0] == '+' {
        s.drop_first()
    } else {
        s
    }
}

/// What `str::parse::<u64>` accepts: an optional `+`, then one or more
/// decimal digits whose value fits in a `u64`.
pub open spec fn parsed_u64(s: Seq<char>) -> Option<u64> {
    let d = unsigned_digits(s);
    if d.len() > 0 && (forall|i: int| 0 <= i < d.len() ==> is_digit(#[trigger] d[i]))
        && digits_value(d) <= u64::MAX {
        Some(digits_value(d) as u64)
    } else {
        None
    }
}

/// Reads `s` as a decimal `u64`; `None` for anything else.
pub fn parse_u64(s: &str) -> (r: Option<u64>)
    ensures
        r == parsed_u64(s@),
{
    let n = s.unicode_len();
    let mut start: usize = 0;
    if n > 0 && s.get_char(0) == '+' {
        start = 1;
    }
    let ghost d = unsigned_digits(s@);
    assert(d =~= s@.subrange(start as int, n as int));
    if start == n {
        assert(d.len() == 0);
        return None;
    }
    let mut acc: u64 = 0;
    let mut over = false;
    let mut i: usize = start;
    while i < n
        invariant
            n == s@.len(),
            start <= i <= n,
            d == s@.subrange(start as int, n as int),
            d == unsigned_digits(s@),
            forall|k: int| start <= k < i ==> is_digit(#[trigger] s@[k]),
            !over ==> acc as nat == digits_value(s@.subrange(start as int, i as int)),
            over ==> digits_value(s@.subrange(start as int, i as int)) > u64::MAX,
        decreases n - i,
    {
        let c = s.get_char(i);
        if !('0' <= c && c <= '9') {
            assert(d[i - start] == c);
            assert(!is_digit(d[i - start]));
            return None;
        }
        let ghost p = s@.subrange(start as int, i as int);
        let ghost q = s@.subrange(start as int, i as int + 1);
        assert(q.drop_last() =~= p);
        assert(q.last() == c);
        let dv: u64 = (c as u32 - '0' as u32) as u64;
        assert(dv as nat == digit_value(c));
        if !over {
            match acc.checked_mul(10) {
                Some(m) => match m.checked_add(dv) {
                    Some(v) => {
                        acc = v;
                    },
                    None => {
                        over = true;
                    },
                },
                None => {
                    over = true;
                },
            }
        } else {
            assert(digits_value(q) >= digits_value(p));
        }
        i = i + 1;
    }
    assert(s@.subrange(start as int, n as int) =~= d);
    if over {
        None
    } else {
        Some(acc)
    }
}

/// The items of `s` between commas, as `str::split(',')` yields them: one
/// more item than there are commas, empty items included.
pub open spec fn split_commas(s: Seq<char>) -> Seq<Seq<char>>
    decreases s.len(),
{
    if s.len() == 0 {
        seq![Seq::empty()]
    } else {
        let p = split_commas(s.drop_last());
        if s.last() == ',' {
            p.push(Seq::empty())
        } else {
            p.update(p.len() - 1, p.last().push(s.last()))
        }
    }
}

/// Where item `k` starts in the text that was split: the lengths of the
/// items before it, each with the comma that ends it.
pub open spec fn item_offset(items: Seq<Seq<char>>, k: int) -> nat
    decreases k,
{
    if k <= 0 {
        0
    } else {
        item_offset(items, k - 1) + items[k - 1].len() + 1
    }
}

/// Offsets depend only on the lengths of the items before.
pub proof fn lemma_offset_same_lengths(a: Seq<Seq<char>>, b: Seq<Seq<char>>, k: int)
    requires
        0 <= k <= a.len(),
        k <= b.len(),
        forall|i: int| 0 <= i < k ==> (#[trigger] a[i]).len() == b[i].len(),
    ensures
        item_offset(a, k) == item_offset(b, k),
    decreases k,
{
    if k > 0 {
        lemma_offset_same_lengths(a, b, k - 1);
    }
}

/// The text of `s` where item `k` of `items` stands.
pub open spec fn item_span(s: Seq<char>, items: Seq<Seq<char>>, k: int) -> Seq<char> {
    s.subrange(item_offset(items, k) as int, (item_offset(items, k) + items[k].len()) as int)
}

/// What `lemma_split_spans` proves of one text.
pub open spec fn spans_match(s: Seq<char>) -> bool {
    let items = split_commas(s);
    &&& items.len() >= 1
    &&& item_offset(items, items.len() - 1) + items.last().len() == s.len()
    &&& forall|k: int| 0 <= k < items.len() ==> #[trigger] items[k] == item_span(s, items, k)
}

#[verifier::rlimit(40)]
proof fn lemma_split_step_item(s: Seq<char>, k: int)
    requires
        s.len() > 0,
        spans_match(s.drop_last()),
        0 <= k < split_commas(s).len(),
    ensures
        split_commas(s)[k] == item_span(s, split_commas(s), k),
{
    let items = split_commas(s);
    let p = s.drop_last();
    let q = split_commas(p);
    let last = q.len() - 1;
    if k <= last {
        assert(q[k] == item_span(p, q, k));
        if s.last() == ',' {
            assert forall|i: int| 0 <= i < k implies (#[trigger] items[i]).len() == q[i].len() by {}
        } else {
            assert forall|i: int| 0 <= i < k implies (#[trigger] items[i]).len() == q[i].len() by {}
        }
        lemma_offset_same_lengths(items, q, k);
        if k < last {
            lemma_offset_bound(q, k, last);
        }
        assert(items[k] =~= item_span(s, items, k));
    } else {
        assert forall|i: int| 0 <= i < last implies (#[trigger] items[i]).len() == q[i].len() by {}
        lemma_offset_same_lengths(items, q, last);
        assert(item_offset(items, k) == item_offset(items, last) + items[last].len() + 1);
        assert(items[k] =~= item_span(s, items, k));
    }
}

/// Each item of `split_commas(s)` is the text of `s` at its offset; the last
/// item ends where `s` ends.
pub proof fn lemma_split_spans(s: Seq<char>)
    ensures
        spans_match(s),
    decreases s.len(),
{
    let items = split_commas(s);
    if s.len() == 0 {
        assert(item_offset(items, 0) == 0);
        assert(items[0] =~= item_span(s, items, 0));
    } else {
        let p = s.drop_last();
        let q = split_commas(p);
        let last = q.len() - 1;
        lemma_split_spans(p);
        assert forall|k: int| 0 <= k < items.len() implies #[trigger] items[k] == item_span(
            s,
            items,
            k,
        ) by {
            lemma_split_step_item(s, k);
        }
        let j = items.len() - 1;
        assert forall|i: int| 0 <= i < last implies (#[trigger] items[i]).len() == q[i].len() by {}
        lemma_offset_same_lengths(items, q, last);
        if s.last() == ',' {
            assert(item_offset(items, j) == item_offset(items, last) + items[last].len() + 1);
        }
    }
}

/// An item ends before the next one starts.
pub proof fn lemma_offset_bound(items: Seq<Seq<char>>, k: int, j: int)
    requires
        0 <= k < j < items.len(),
    ensures
        item_offset(items, k) + items[k].len() < item_offset(items, j),
    decreases j - k,
{
    if k + 1 < j {
        lemma_offset_bound(items, k + 1, j);
    }
    assert(item_offset(items, k + 1) == item_offset(items, k) + items[k].len() + 1);
}

pub open spec fn digit_char(d: nat) -> char {
    seq!['0', '1', '2', '3', '4', '5', '6', '7', '8', '9'][d as int]
}

/// The decimal numeral of `n`, without leading zeros.
pub open spec fn decimal_of(n: nat) -> Seq<char>
    decreases n,
{
    if n < 10 {
        seq![digit_char(n)]
    } else {
        decimal_of(n / 10).push(digit_char(n % 10))
    }
}

/// Writes `n` in decimal.
pub fn decimal(n: u64) -> (r: String)
    ensures
        r@ == decimal_of(n as nat),
    decreases n,
{
    let digits = "0123456789";
    proof {
        reveal_strlit("0123456789");
    }
    let d = (n % 10) as usize;
    let last = digits.substring_char(d, d + 1);
    assert(last@ =~= seq![digit_char(n as nat % 10)]);
    if n < 10 {
        String::from_str(last)
    } else {
        let mut s = decimal(n / 10);
        s.append(last);
        assert(s@ =~= decimal_of(n as nat));
        s
    }
}

/// The character ranges of the comma-separated items of `s`, in order.
pub fn item_bounds(s: &str) -> (r: Vec<(usize, usize)>)
    ensures
        r@.len() == split_commas(s@).len(),
        forall|k: int|
            0 <= k < r@.len() ==> (#[trigger] r@[k]).0 == item_offset(split_commas(s@), k) && r@[k].1
                == r@[k].0 + split_commas(s@)[k].len(),
{
    let n = s.unicode_len();
    let mut bounds: Vec<(usize, usize)> = Vec::new();
    let mut st: usize = 0;
    let mut i: usize = 0;
    assert(split_commas(s@.take(0)) =~= seq![Seq::<char>::empty()]);
    while i < n
        invariant
            n == s@.len(),
            st <= i <= n,
            split_commas(s@.take(i as int)).len() == bounds@.len() + 1,
            forall|k: int|
                0 <= k < bounds@.len() ==> (#[trigger] bounds@[k]).0 == item_offset(
                    split_commas(s@.take(i as int)),
                    k,
                ) && bounds@[k].1 == bounds@[k].0 + split_commas(s@.take(i as int))[k].len(),
            st == item_offset(split_commas(s@.take(i as int)), bounds@.len() as int),
            split_commas(s@.take(i as int)).last().len() == i - st,
        decreases n - i,
    {
        let ghost p = split_commas(s@.take(i as int));
        let ghost last = bounds@.len() as int;
        assert(s@.take(i as int + 1).drop_last() =~= s@.take(i as int));
        assert(s@.take(i as int + 1).last() == s@[i as int]);
        let c = s.get_char(i);
        if c == ',' {
            let ghost p2 = split_commas(s@.take(i as int + 1));
            assert(p2 == p.push(Seq::empty()));
            let ghost old_bounds = bounds@;
            bounds.push((st, i));
            assert forall|k: int| 0 <= k < bounds@.len() implies (#[trigger] bounds@[k]).0
                == item_offset(p2, k) && bounds@[k].1 == bounds@[k].0 + p2[k].len() by {
                assert forall|j: int| 0 <= j < k implies (#[trigger] p2[j]).len() == p[j].len() by {}
                lemma_offset_same_lengths(p2, p, k);
            }
            assert forall|j: int| 0 <= j <= last implies (#[trigger] p2[j]).len() == p[j].len() by {}
            proof {
                lemma_offset_same_lengths(p2, p, last);
            }
            assert(item_offset(p2, last + 1) == item_offset(p2, last) + p2[last].len() + 1);
            st = i + 1;
        } else {
            let ghost p2 = split_commas(s@.take(i as int + 1));
            assert(p2 == p.update(last, p.last().push(c)));
            assert forall|k: int| 0 <= k < bounds@.len() implies (#[trigger] bounds@[k]).0
                == item_offset(p2, k) && bounds@[k].1 == bounds@[k].0 + p2[k].len() by {
                assert forall|j: int| 0 <= j < k implies (#[trigger] p2[j]).len() == p[j].len() by {}
                lemma_offset_same_lengths(p2, p, k);
            }
            assert forall|j: int| 0 <= j < last implies (#[trigger] p2[j]).len() == p[j].len() by {}
            proof {
                lemma_offset_same_lengths(p2, p, last);
            }
        }
        i = i + 1;
    }
    assert(s@.take(n as int) =~= s@);
    bounds.push((st, n));
    bounds
}

/// Item `k` of `split_commas(s)` lies inside `s`, at its offset.
pub proof fn lemma_item_within(s: Seq<char>, k: int)
    requires
        0 <= k < split_commas(s).len(),
    ensures
        item_offset(split_commas(s), k) + split_commas(s)[k].len() <= s.len(),
        split_commas(s)[k] == item_span(s, split_commas(s), k),
{
    let items = split_commas(s);
    lemma_split_spans(s);
    assert(items[k] == item_span(s, items, k));
    if k < items.len() - 1 {
        lemma_offset_bound(items, k, items.len() - 1);
    }
}

} // verus!
